//! Spectral codebook 7.

use vstd::prelude::*;

use crate::huffman::{lemma_paired_range, lemma_stratum, paired_range, row_pairs, stratum, stratum_row};

verus! {

/// Spectral codebook 7.
pub const HUFFMAN_CODEBOOK_7: [[u16; 4]; 31] = [
    [0x0003, 0x0003, 0x0004, 0x0008],
    [0x0007, 0x0007, 0x0043, 0x0043],
    [0x0045, 0x000c, 0x0010, 0x0014],
    [0x0049, 0x0085, 0x0009, 0x0081],
    [0x0018, 0x001c, 0x0020, 0x0024],
    [0x0028, 0x002c, 0x0030, 0x0034],
    [0x004f, 0x004f, 0x00c7, 0x00c7],
    [0x008b, 0x008b, 0x000f, 0x000f],
    [0x00c3, 0x00c3, 0x00c9, 0x008d],
    [0x0105, 0x0051, 0x0145, 0x0055],
    [0x00cd, 0x0109, 0x0101, 0x0011],
    [0x0038, 0x003c, 0x0040, 0x0044],
    [0x0048, 0x004c, 0x0050, 0x0054],
    [0x0058, 0x005c, 0x0060, 0x0064],
    [0x0093, 0x0093, 0x014b, 0x014b],
    [0x0097, 0x0097, 0x0143, 0x0143],
    [0x005b, 0x005b, 0x0017, 0x0017],
    [0x0187, 0x0187, 0x00d3, 0x00d3],
    [0x014f, 0x014f, 0x010f, 0x010f],
    [0x00d7, 0x00d7, 0x018b, 0x018b],
    [0x009b, 0x009b, 0x01c7, 0x01c7],
    [0x018d, 0x0181, 0x0019, 0x0111],
    [0x005d, 0x0151, 0x009d, 0x0115],
    [0x00d9, 0x01c9, 0x00dd, 0x0119],
    [0x0155, 0x0191, 0x01cd, 0x0068],
    [0x006c, 0x0070, 0x0074, 0x0078],
    [0x001f, 0x001f, 0x01c3, 0x01c3],
    [0x015b, 0x015b, 0x0197, 0x0197],
    [0x011f, 0x011f, 0x01d3, 0x01d3],
    [0x01d7, 0x01d7, 0x015f, 0x015f],
    [0x019d, 0x0199, 0x01d9, 0x01dd],
];

/// The rows of spectral codebook 7.
pub closed spec fn rows_7() -> Seq<[u16; 4]> {
    HUFFMAN_CODEBOOK_7@
}

/// What the rows of spectral codebook 7 are.
pub proof fn lemma_rows_7()
    ensures
        rows_7() == HUFFMAN_CODEBOOK_7@,
{
}

/// The table of spectral codebook 7.
pub fn table_7() -> (table: &'static [[u16; 4]])
    ensures
        table@ == rows_7(),
{
    &HUFFMAN_CODEBOOK_7
}

/// One-bit leaves of codebook 7 come in pairs, rows 0 to 30.
pub proof fn lemma_pairs_7_0()
    ensures
        rows_7().len() == 31,
        forall|row: int| 0 <= row < 31 ==> row_pairs(#[trigger] rows_7()[row]),
{
    reveal_with_fuel(paired_range, 32);
    lemma_paired_range(HUFFMAN_CODEBOOK_7@, 0, 31);
}

/// Rows of codebook 7 at depth 0.
pub proof fn lemma_depth_7_0()
    ensures
        forall|row: int| 0 <= row < 1 ==> stratum_row(#[trigger] rows_7()[row], 1, 3, false),
{
    reveal_with_fuel(stratum, 2);
    lemma_stratum(HUFFMAN_CODEBOOK_7@, 0, 1, 1, 3, false);
}

/// Rows of codebook 7 at depth 1.
pub proof fn lemma_depth_7_1()
    ensures
        forall|row: int| 1 <= row < 3 ==> stratum_row(#[trigger] rows_7()[row], 3, 6, false),
{
    reveal_with_fuel(stratum, 3);
    lemma_stratum(HUFFMAN_CODEBOOK_7@, 1, 3, 3, 6, false);
}

/// Rows of codebook 7 at depth 2.
pub proof fn lemma_depth_7_2()
    ensures
        forall|row: int| 3 <= row < 6 ==> stratum_row(#[trigger] rows_7()[row], 6, 14, false),
{
    reveal_with_fuel(stratum, 4);
    lemma_stratum(HUFFMAN_CODEBOOK_7@, 3, 6, 6, 14, false);
}

/// Rows of codebook 7 at depth 3.
pub proof fn lemma_depth_7_3()
    ensures
        forall|row: int| 6 <= row < 14 ==> stratum_row(#[trigger] rows_7()[row], 14, 26, false),
{
    reveal_with_fuel(stratum, 9);
    lemma_stratum(HUFFMAN_CODEBOOK_7@, 6, 14, 14, 26, false);
}

/// Rows of codebook 7 at depth 4.
pub proof fn lemma_depth_7_4()
    ensures
        forall|row: int| 14 <= row < 26 ==> stratum_row(#[trigger] rows_7()[row], 26, 31, false),
{
    reveal_with_fuel(stratum, 13);
    lemma_stratum(HUFFMAN_CODEBOOK_7@, 14, 26, 26, 31, false);
}

/// Rows of codebook 7 at depth 5.
pub proof fn lemma_depth_7_5()
    ensures
        forall|row: int| 26 <= row < 31 ==> stratum_row(#[trigger] rows_7()[row], 0, 0, false),
{
    reveal_with_fuel(stratum, 6);
    lemma_stratum(HUFFMAN_CODEBOOK_7@, 26, 31, 0, 0, false);
}

} // verus!
