//! Spectral codebook 3.

use vstd::prelude::*;

use crate::huffman::{lemma_paired_range, lemma_stratum, paired_range, row_pairs, stratum, stratum_row};

verus! {

/// Spectral codebook 3.
pub const HUFFMAN_CODEBOOK_3: [[u16; 4]; 39] = [
    [0x0003, 0x0003, 0x0004, 0x0008],
    [0x0005, 0x0101, 0x0011, 0x0041],
    [0x000c, 0x0010, 0x0014, 0x0018],
    [0x0017, 0x0017, 0x0143, 0x0143],
    [0x0051, 0x0111, 0x0045, 0x0151],
    [0x0105, 0x0055, 0x001c, 0x0020],
    [0x0024, 0x0028, 0x002c, 0x0030],
    [0x0157, 0x0157, 0x0147, 0x0147],
    [0x0117, 0x0117, 0x0009, 0x0201],
    [0x0241, 0x0019, 0x0065, 0x0034],
    [0x0038, 0x003c, 0x0040, 0x0044],
    [0x0048, 0x004c, 0x0050, 0x0054],
    [0x0058, 0x005c, 0x0060, 0x0064],
    [0x0183, 0x0183, 0x0193, 0x0193],
    [0x0027, 0x0027, 0x0253, 0x0253],
    [0x005b, 0x005b, 0x0083, 0x0083],
    [0x0063, 0x0063, 0x0093, 0x0093],
    [0x0023, 0x0023, 0x0213, 0x0213],
    [0x004b, 0x004b, 0x0167, 0x0167],
    [0x0163, 0x0163, 0x0097, 0x0097],
    [0x0197, 0x0197, 0x0125, 0x0085],
    [0x0185, 0x0121, 0x0159, 0x0255],
    [0x0119, 0x0245, 0x0281, 0x0291],
    [0x0069, 0x00a5, 0x0205, 0x0109],
    [0x01a1, 0x0068, 0x006c, 0x0070],
    [0x0074, 0x0078, 0x007c, 0x0080],
    [0x002b, 0x002b, 0x01a7, 0x01a7],
    [0x0217, 0x0217, 0x014b, 0x014b],
    [0x0297, 0x0297, 0x016b, 0x016b],
    [0x00a3, 0x00a3, 0x0263, 0x0263],
    [0x0285, 0x0129, 0x0099, 0x00a9],
    [0x02a1, 0x01a9, 0x0199, 0x0265],
    [0x02a5, 0x0084, 0x0088, 0x008c],
    [0x0223, 0x0223, 0x008b, 0x008b],
    [0x0227, 0x0227, 0x0189, 0x0259],
    [0x0219, 0x0090, 0x0094, 0x0098],
    [0x02ab, 0x02ab, 0x026b, 0x026b],
    [0x029b, 0x029b, 0x024b, 0x024b],
    [0x020b, 0x020b, 0x0229, 0x0289],
];

/// The rows of spectral codebook 3.
pub closed spec fn rows_3() -> Seq<[u16; 4]> {
    HUFFMAN_CODEBOOK_3@
}

/// What the rows of spectral codebook 3 are.
pub proof fn lemma_rows_3()
    ensures
        rows_3() == HUFFMAN_CODEBOOK_3@,
{
}

/// The table of spectral codebook 3.
pub fn table_3() -> (table: &'static [[u16; 4]])
    ensures
        table@ == rows_3(),
{
    &HUFFMAN_CODEBOOK_3
}

/// One-bit leaves of codebook 3 come in pairs, rows 0 to 38.
pub proof fn lemma_pairs_3_0()
    ensures
        rows_3().len() == 39,
        forall|row: int| 0 <= row < 39 ==> row_pairs(#[trigger] rows_3()[row]),
{
    reveal_with_fuel(paired_range, 40);
    lemma_paired_range(HUFFMAN_CODEBOOK_3@, 0, 39);
}

/// Rows of codebook 3 at depth 0.
pub proof fn lemma_depth_3_0()
    ensures
        forall|row: int| 0 <= row < 1 ==> stratum_row(#[trigger] rows_3()[row], 1, 3, false),
{
    reveal_with_fuel(stratum, 2);
    lemma_stratum(HUFFMAN_CODEBOOK_3@, 0, 1, 1, 3, false);
}

/// Rows of codebook 3 at depth 1.
pub proof fn lemma_depth_3_1()
    ensures
        forall|row: int| 1 <= row < 3 ==> stratum_row(#[trigger] rows_3()[row], 3, 7, false),
{
    reveal_with_fuel(stratum, 3);
    lemma_stratum(HUFFMAN_CODEBOOK_3@, 1, 3, 3, 7, false);
}

/// Rows of codebook 3 at depth 2.
pub proof fn lemma_depth_3_2()
    ensures
        forall|row: int| 3 <= row < 7 ==> stratum_row(#[trigger] rows_3()[row], 7, 13, false),
{
    reveal_with_fuel(stratum, 5);
    lemma_stratum(HUFFMAN_CODEBOOK_3@, 3, 7, 7, 13, false);
}

/// Rows of codebook 3 at depth 3.
pub proof fn lemma_depth_3_3()
    ensures
        forall|row: int| 7 <= row < 13 ==> stratum_row(#[trigger] rows_3()[row], 13, 26, false),
{
    reveal_with_fuel(stratum, 7);
    lemma_stratum(HUFFMAN_CODEBOOK_3@, 7, 13, 13, 26, false);
}

/// Rows of codebook 3 at depth 4.
pub proof fn lemma_depth_3_4()
    ensures
        forall|row: int| 13 <= row < 26 ==> stratum_row(#[trigger] rows_3()[row], 26, 33, false),
{
    reveal_with_fuel(stratum, 14);
    lemma_stratum(HUFFMAN_CODEBOOK_3@, 13, 26, 26, 33, false);
}

/// Rows of codebook 3 at depth 5.
pub proof fn lemma_depth_3_5()
    ensures
        forall|row: int| 26 <= row < 33 ==> stratum_row(#[trigger] rows_3()[row], 33, 36, false),
{
    reveal_with_fuel(stratum, 8);
    lemma_stratum(HUFFMAN_CODEBOOK_3@, 26, 33, 33, 36, false);
}

/// Rows of codebook 3 at depth 6.
pub proof fn lemma_depth_3_6()
    ensures
        forall|row: int| 33 <= row < 36 ==> stratum_row(#[trigger] rows_3()[row], 36, 39, false),
{
    reveal_with_fuel(stratum, 4);
    lemma_stratum(HUFFMAN_CODEBOOK_3@, 33, 36, 36, 39, false);
}

/// Rows of codebook 3 at depth 7.
pub proof fn lemma_depth_3_7()
    ensures
        forall|row: int| 36 <= row < 39 ==> stratum_row(#[trigger] rows_3()[row], 0, 0, false),
{
    reveal_with_fuel(stratum, 4);
    lemma_stratum(HUFFMAN_CODEBOOK_3@, 36, 39, 0, 0, false);
}

} // verus!
