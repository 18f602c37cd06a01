//! Spectral codebook 2.

use vstd::prelude::*;

use crate::huffman::{lemma_paired_range, lemma_stratum, paired_range, row_pairs, stratum, stratum_row};

verus! {

/// Spectral codebook 2.
pub const HUFFMAN_CODEBOOK_2: [[u16; 4]; 39] = [
    [0x0004, 0x0008, 0x000c, 0x0010],
    [0x0157, 0x0157, 0x0159, 0x0014],
    [0x0018, 0x001c, 0x0020, 0x0024],
    [0x0028, 0x002c, 0x0030, 0x0034],
    [0x0038, 0x003c, 0x0040, 0x0044],
    [0x0153, 0x0153, 0x0257, 0x0257],
    [0x0117, 0x0117, 0x0057, 0x0057],
    [0x0147, 0x0147, 0x0197, 0x0197],
    [0x0167, 0x0167, 0x0185, 0x0161],
    [0x0125, 0x0095, 0x0065, 0x0215],
    [0x0051, 0x0149, 0x0119, 0x0141],
    [0x0015, 0x0199, 0x0259, 0x0245],
    [0x0191, 0x0265, 0x0105, 0x0251],
    [0x0045, 0x0111, 0x0169, 0x01a5],
    [0x0295, 0x0059, 0x0048, 0x004c],
    [0x0050, 0x0054, 0x0058, 0x005c],
    [0x0060, 0x0064, 0x0068, 0x006c],
    [0x0070, 0x0074, 0x0078, 0x007c],
    [0x0227, 0x0227, 0x021b, 0x021b],
    [0x0123, 0x0123, 0x0087, 0x0087],
    [0x018b, 0x018b, 0x006b, 0x006b],
    [0x029b, 0x029b, 0x01a3, 0x01a3],
    [0x0207, 0x0207, 0x01ab, 0x01ab],
    [0x0093, 0x0093, 0x0103, 0x0103],
    [0x0213, 0x0213, 0x010b, 0x010b],
    [0x012b, 0x012b, 0x0249, 0x0061],
    [0x0181, 0x0291, 0x0241, 0x0041],
    [0x0005, 0x0099, 0x0019, 0x0025],
    [0x02a5, 0x0261, 0x0011, 0x00a5],
    [0x0049, 0x0285, 0x0269, 0x0089],
    [0x0221, 0x0080, 0x0084, 0x0088],
    [0x008c, 0x0090, 0x0094, 0x0098],
    [0x020b, 0x020b, 0x0003, 0x0003],
    [0x00a3, 0x00a3, 0x02a3, 0x02a3],
    [0x02ab, 0x02ab, 0x0083, 0x0083],
    [0x028b, 0x028b, 0x0023, 0x0023],
    [0x0283, 0x0283, 0x002b, 0x002b],
    [0x000b, 0x000b, 0x0203, 0x0203],
    [0x022b, 0x022b, 0x00ab, 0x00ab],
];

/// The rows of spectral codebook 2.
pub closed spec fn rows_2() -> Seq<[u16; 4]> {
    HUFFMAN_CODEBOOK_2@
}

/// What the rows of spectral codebook 2 are.
pub proof fn lemma_rows_2()
    ensures
        rows_2() == HUFFMAN_CODEBOOK_2@,
{
}

/// The table of spectral codebook 2.
pub fn table_2() -> (table: &'static [[u16; 4]])
    ensures
        table@ == rows_2(),
{
    &HUFFMAN_CODEBOOK_2
}

/// One-bit leaves of codebook 2 come in pairs, rows 0 to 38.
pub proof fn lemma_pairs_2_0()
    ensures
        rows_2().len() == 39,
        forall|row: int| 0 <= row < 39 ==> row_pairs(#[trigger] rows_2()[row]),
{
    reveal_with_fuel(paired_range, 40);
    lemma_paired_range(HUFFMAN_CODEBOOK_2@, 0, 39);
}

/// Rows of codebook 2 at depth 0.
pub proof fn lemma_depth_2_0()
    ensures
        forall|row: int| 0 <= row < 1 ==> stratum_row(#[trigger] rows_2()[row], 1, 5, false),
{
    reveal_with_fuel(stratum, 2);
    lemma_stratum(HUFFMAN_CODEBOOK_2@, 0, 1, 1, 5, false);
}

/// Rows of codebook 2 at depth 1.
pub proof fn lemma_depth_2_1()
    ensures
        forall|row: int| 1 <= row < 5 ==> stratum_row(#[trigger] rows_2()[row], 5, 18, false),
{
    reveal_with_fuel(stratum, 5);
    lemma_stratum(HUFFMAN_CODEBOOK_2@, 1, 5, 5, 18, false);
}

/// Rows of codebook 2 at depth 2.
pub proof fn lemma_depth_2_2()
    ensures
        forall|row: int| 5 <= row < 18 ==> stratum_row(#[trigger] rows_2()[row], 18, 32, false),
{
    reveal_with_fuel(stratum, 14);
    lemma_stratum(HUFFMAN_CODEBOOK_2@, 5, 18, 18, 32, false);
}

/// Rows of codebook 2 at depth 3.
pub proof fn lemma_depth_2_3()
    ensures
        forall|row: int| 18 <= row < 32 ==> stratum_row(#[trigger] rows_2()[row], 32, 39, false),
{
    reveal_with_fuel(stratum, 15);
    lemma_stratum(HUFFMAN_CODEBOOK_2@, 18, 32, 32, 39, false);
}

/// Rows of codebook 2 at depth 4.
pub proof fn lemma_depth_2_4()
    ensures
        forall|row: int| 32 <= row < 39 ==> stratum_row(#[trigger] rows_2()[row], 0, 0, true),
{
    reveal_with_fuel(stratum, 8);
    lemma_stratum(HUFFMAN_CODEBOOK_2@, 32, 39, 0, 0, true);
}

} // verus!
