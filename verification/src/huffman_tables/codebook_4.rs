//! Spectral codebook 4.

use vstd::prelude::*;

use crate::huffman::{lemma_paired_range, lemma_stratum, paired_range, row_pairs, stratum, stratum_row};

verus! {

/// Spectral codebook 4.
pub const HUFFMAN_CODEBOOK_4: [[u16; 4]; 38] = [
    [0x0004, 0x0008, 0x000c, 0x0010],
    [0x0155, 0x0151, 0x0115, 0x0055],
    [0x0145, 0x0005, 0x0015, 0x0001],
    [0x0141, 0x0045, 0x0014, 0x0018],
    [0x001c, 0x0020, 0x0024, 0x0028],
    [0x0107, 0x0107, 0x0053, 0x0053],
    [0x0103, 0x0103, 0x0113, 0x0113],
    [0x0043, 0x0043, 0x0013, 0x0013],
    [0x002c, 0x0030, 0x0034, 0x0038],
    [0x003c, 0x0040, 0x0044, 0x0048],
    [0x004c, 0x0050, 0x0054, 0x0058],
    [0x015b, 0x015b, 0x0197, 0x0197],
    [0x0167, 0x0167, 0x0257, 0x0257],
    [0x005b, 0x005b, 0x011b, 0x011b],
    [0x0067, 0x0067, 0x014b, 0x014b],
    [0x0193, 0x0193, 0x0251, 0x0095],
    [0x0161, 0x0245, 0x0125, 0x0215],
    [0x0185, 0x0019, 0x0049, 0x0025],
    [0x0109, 0x0211, 0x0061, 0x0241],
    [0x0091, 0x0121, 0x0205, 0x0181],
    [0x0085, 0x0009, 0x0201, 0x005c],
    [0x0060, 0x0064, 0x0068, 0x006c],
    [0x0070, 0x0074, 0x0078, 0x007c],
    [0x0023, 0x0023, 0x0083, 0x0083],
    [0x01a7, 0x01a7, 0x016b, 0x016b],
    [0x019b, 0x019b, 0x0297, 0x0297],
    [0x0267, 0x0267, 0x025b, 0x025b],
    [0x00a5, 0x0069, 0x0099, 0x01a1],
    [0x0291, 0x0129, 0x0261, 0x0189],
    [0x0285, 0x01a9, 0x0225, 0x0249],
    [0x0219, 0x02a5, 0x0080, 0x0084],
    [0x0088, 0x008c, 0x0090, 0x0094],
    [0x029b, 0x029b, 0x026b, 0x026b],
    [0x00a3, 0x00a3, 0x002b, 0x002b],
    [0x0283, 0x0283, 0x008b, 0x008b],
    [0x0223, 0x0223, 0x020b, 0x020b],
    [0x02ab, 0x02ab, 0x02a3, 0x02a3],
    [0x00ab, 0x00ab, 0x0229, 0x0289],
];

/// The rows of spectral codebook 4.
pub closed spec fn rows_4() -> Seq<[u16; 4]> {
    HUFFMAN_CODEBOOK_4@
}

/// What the rows of spectral codebook 4 are.
pub proof fn lemma_rows_4()
    ensures
        rows_4() == HUFFMAN_CODEBOOK_4@,
{
}

/// The table of spectral codebook 4.
pub fn table_4() -> (table: &'static [[u16; 4]])
    ensures
        table@ == rows_4(),
{
    &HUFFMAN_CODEBOOK_4
}

/// One-bit leaves of codebook 4 come in pairs, rows 0 to 37.
pub proof fn lemma_pairs_4_0()
    ensures
        rows_4().len() == 38,
        forall|row: int| 0 <= row < 38 ==> row_pairs(#[trigger] rows_4()[row]),
{
    reveal_with_fuel(paired_range, 39);
    lemma_paired_range(HUFFMAN_CODEBOOK_4@, 0, 38);
}

/// Rows of codebook 4 at depth 0.
pub proof fn lemma_depth_4_0()
    ensures
        forall|row: int| 0 <= row < 1 ==> stratum_row(#[trigger] rows_4()[row], 1, 5, false),
{
    reveal_with_fuel(stratum, 2);
    lemma_stratum(HUFFMAN_CODEBOOK_4@, 0, 1, 1, 5, false);
}

/// Rows of codebook 4 at depth 1.
pub proof fn lemma_depth_4_1()
    ensures
        forall|row: int| 1 <= row < 5 ==> stratum_row(#[trigger] rows_4()[row], 5, 11, false),
{
    reveal_with_fuel(stratum, 5);
    lemma_stratum(HUFFMAN_CODEBOOK_4@, 1, 5, 5, 11, false);
}

/// Rows of codebook 4 at depth 2.
pub proof fn lemma_depth_4_2()
    ensures
        forall|row: int| 5 <= row < 11 ==> stratum_row(#[trigger] rows_4()[row], 11, 23, false),
{
    reveal_with_fuel(stratum, 7);
    lemma_stratum(HUFFMAN_CODEBOOK_4@, 5, 11, 11, 23, false);
}

/// Rows of codebook 4 at depth 3.
pub proof fn lemma_depth_4_3()
    ensures
        forall|row: int| 11 <= row < 23 ==> stratum_row(#[trigger] rows_4()[row], 23, 32, false),
{
    reveal_with_fuel(stratum, 13);
    lemma_stratum(HUFFMAN_CODEBOOK_4@, 11, 23, 23, 32, false);
}

/// Rows of codebook 4 at depth 4.
pub proof fn lemma_depth_4_4()
    ensures
        forall|row: int| 23 <= row < 32 ==> stratum_row(#[trigger] rows_4()[row], 32, 38, false),
{
    reveal_with_fuel(stratum, 10);
    lemma_stratum(HUFFMAN_CODEBOOK_4@, 23, 32, 32, 38, false);
}

/// Rows of codebook 4 at depth 5.
pub proof fn lemma_depth_4_5()
    ensures
        forall|row: int| 32 <= row < 38 ==> stratum_row(#[trigger] rows_4()[row], 0, 0, false),
{
    reveal_with_fuel(stratum, 7);
    lemma_stratum(HUFFMAN_CODEBOOK_4@, 32, 38, 0, 0, false);
}

} // verus!
