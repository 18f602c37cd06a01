//! Spectral codebook 1.

use vstd::prelude::*;

use crate::huffman::{lemma_paired_range, lemma_stratum, paired_range, row_pairs, stratum, stratum_row};

verus! {

/// Spectral codebook 1.
pub const HUFFMAN_CODEBOOK_1: [[u16; 4]; 51] = [
    [0x0157, 0x0157, 0x0004, 0x0008],
    [0x000c, 0x0010, 0x0014, 0x0018],
    [0x001c, 0x0020, 0x0024, 0x0028],
    [0x015b, 0x015b, 0x0153, 0x0153],
    [0x0057, 0x0057, 0x0167, 0x0167],
    [0x0257, 0x0257, 0x0117, 0x0117],
    [0x0197, 0x0197, 0x0147, 0x0147],
    [0x002c, 0x0030, 0x0034, 0x0038],
    [0x003c, 0x0040, 0x0044, 0x0048],
    [0x004c, 0x0050, 0x0054, 0x0058],
    [0x005c, 0x0060, 0x0064, 0x0068],
    [0x014b, 0x014b, 0x0163, 0x0163],
    [0x0217, 0x0217, 0x0127, 0x0127],
    [0x0187, 0x0187, 0x0097, 0x0097],
    [0x016b, 0x016b, 0x0017, 0x0017],
    [0x0143, 0x0143, 0x0107, 0x0107],
    [0x011b, 0x011b, 0x0067, 0x0067],
    [0x0193, 0x0193, 0x0297, 0x0297],
    [0x019b, 0x019b, 0x0247, 0x0247],
    [0x01a7, 0x01a7, 0x0267, 0x0267],
    [0x0113, 0x0113, 0x025b, 0x025b],
    [0x0053, 0x0053, 0x005b, 0x005b],
    [0x0253, 0x0253, 0x0047, 0x0047],
    [0x006c, 0x0070, 0x0074, 0x0078],
    [0x007c, 0x0080, 0x0084, 0x0088],
    [0x008c, 0x0090, 0x0094, 0x0098],
    [0x009c, 0x00a0, 0x00a4, 0x00a8],
    [0x012b, 0x012b, 0x0123, 0x0123],
    [0x018b, 0x018b, 0x00a7, 0x00a7],
    [0x0227, 0x0227, 0x0287, 0x0287],
    [0x0087, 0x0087, 0x010b, 0x010b],
    [0x021b, 0x021b, 0x0027, 0x0027],
    [0x01a3, 0x01a3, 0x0093, 0x0093],
    [0x0183, 0x0183, 0x0207, 0x0207],
    [0x024b, 0x024b, 0x004b, 0x004b],
    [0x0063, 0x0063, 0x0103, 0x0103],
    [0x0007, 0x0007, 0x02a7, 0x02a7],
    [0x009b, 0x009b, 0x026b, 0x026b],
    [0x0263, 0x0263, 0x01ab, 0x01ab],
    [0x0241, 0x0011, 0x0069, 0x0019],
    [0x0211, 0x0041, 0x0291, 0x0299],
    [0x00ac, 0x00b0, 0x00b4, 0x00b8],
    [0x00bc, 0x00c0, 0x00c4, 0x00c8],
    [0x008b, 0x008b, 0x0223, 0x0223],
    [0x00a3, 0x00a3, 0x020b, 0x020b],
    [0x02ab, 0x02ab, 0x0283, 0x0283],
    [0x002b, 0x002b, 0x0083, 0x0083],
    [0x0003, 0x0003, 0x022b, 0x022b],
    [0x028b, 0x028b, 0x02a3, 0x02a3],
    [0x0023, 0x0023, 0x0203, 0x0203],
    [0x000b, 0x000b, 0x00ab, 0x00ab],
];

/// The rows of spectral codebook 1.
pub closed spec fn rows_1() -> Seq<[u16; 4]> {
    HUFFMAN_CODEBOOK_1@
}

/// What the rows of spectral codebook 1 are.
pub proof fn lemma_rows_1()
    ensures
        rows_1() == HUFFMAN_CODEBOOK_1@,
{
}

/// The table of spectral codebook 1.
pub fn table_1() -> (table: &'static [[u16; 4]])
    ensures
        table@ == rows_1(),
{
    &HUFFMAN_CODEBOOK_1
}

/// One-bit leaves of codebook 1 come in pairs, rows 0 to 39.
pub proof fn lemma_pairs_1_0()
    ensures
        rows_1().len() == 51,
        forall|row: int| 0 <= row < 40 ==> row_pairs(#[trigger] rows_1()[row]),
{
    reveal_with_fuel(paired_range, 41);
    lemma_paired_range(HUFFMAN_CODEBOOK_1@, 0, 40);
}

/// One-bit leaves of codebook 1 come in pairs, rows 40 to 50.
pub proof fn lemma_pairs_1_40()
    ensures
        rows_1().len() == 51,
        forall|row: int| 40 <= row < 51 ==> row_pairs(#[trigger] rows_1()[row]),
{
    reveal_with_fuel(paired_range, 12);
    lemma_paired_range(HUFFMAN_CODEBOOK_1@, 40, 51);
}

/// Rows of codebook 1 at depth 0.
pub proof fn lemma_depth_1_0()
    ensures
        forall|row: int| 0 <= row < 1 ==> stratum_row(#[trigger] rows_1()[row], 1, 3, false),
{
    reveal_with_fuel(stratum, 2);
    lemma_stratum(HUFFMAN_CODEBOOK_1@, 0, 1, 1, 3, false);
}

/// Rows of codebook 1 at depth 1.
pub proof fn lemma_depth_1_1()
    ensures
        forall|row: int| 1 <= row < 3 ==> stratum_row(#[trigger] rows_1()[row], 3, 11, false),
{
    reveal_with_fuel(stratum, 3);
    lemma_stratum(HUFFMAN_CODEBOOK_1@, 1, 3, 3, 11, false);
}

/// Rows of codebook 1 at depth 2.
pub proof fn lemma_depth_1_2()
    ensures
        forall|row: int| 3 <= row < 11 ==> stratum_row(#[trigger] rows_1()[row], 11, 27, false),
{
    reveal_with_fuel(stratum, 9);
    lemma_stratum(HUFFMAN_CODEBOOK_1@, 3, 11, 11, 27, false);
}

/// Rows of codebook 1 at depth 3.
pub proof fn lemma_depth_1_3()
    ensures
        forall|row: int| 11 <= row < 27 ==> stratum_row(#[trigger] rows_1()[row], 27, 43, false),
{
    reveal_with_fuel(stratum, 17);
    lemma_stratum(HUFFMAN_CODEBOOK_1@, 11, 27, 27, 43, false);
}

/// Rows of codebook 1 at depth 4.
pub proof fn lemma_depth_1_4()
    ensures
        forall|row: int| 27 <= row < 43 ==> stratum_row(#[trigger] rows_1()[row], 43, 51, false),
{
    reveal_with_fuel(stratum, 17);
    lemma_stratum(HUFFMAN_CODEBOOK_1@, 27, 43, 43, 51, false);
}

/// Rows of codebook 1 at depth 5.
pub proof fn lemma_depth_1_5()
    ensures
        forall|row: int| 43 <= row < 51 ==> stratum_row(#[trigger] rows_1()[row], 0, 0, true),
{
    reveal_with_fuel(stratum, 9);
    lemma_stratum(HUFFMAN_CODEBOOK_1@, 43, 51, 0, 0, true);
}

} // verus!
