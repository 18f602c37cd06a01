//! Spectral codebook 8.

use vstd::prelude::*;

use crate::huffman::{lemma_paired_range, lemma_stratum, paired_range, row_pairs, stratum, stratum_row};

verus! {

/// Spectral codebook 8.
pub const HUFFMAN_CODEBOOK_8: [[u16; 4]; 31] = [
    [0x0004, 0x0008, 0x000c, 0x0010],
    [0x0047, 0x0047, 0x0049, 0x0005],
    [0x0085, 0x0041, 0x0089, 0x0014],
    [0x0018, 0x001c, 0x0020, 0x0024],
    [0x0028, 0x002c, 0x0030, 0x0034],
    [0x0003, 0x0003, 0x000b, 0x000b],
    [0x0083, 0x0083, 0x004f, 0x004f],
    [0x00c7, 0x00c7, 0x008f, 0x008f],
    [0x00cb, 0x00cb, 0x00cd, 0x0051],
    [0x0105, 0x0091, 0x0109, 0x000d],
    [0x00c1, 0x00d1, 0x010d, 0x0095],
    [0x0038, 0x003c, 0x0040, 0x0044],
    [0x0048, 0x004c, 0x0050, 0x0054],
    [0x0058, 0x005c, 0x0060, 0x0064],
    [0x0057, 0x0057, 0x014b, 0x014b],
    [0x0147, 0x0147, 0x00d7, 0x00d7],
    [0x014f, 0x014f, 0x0113, 0x0113],
    [0x0117, 0x0117, 0x0103, 0x0103],
    [0x0153, 0x0153, 0x0013, 0x0013],
    [0x018b, 0x018b, 0x009b, 0x009b],
    [0x005b, 0x005b, 0x0187, 0x0187],
    [0x018d, 0x00d9, 0x0155, 0x0015],
    [0x0119, 0x0141, 0x0191, 0x005d],
    [0x009d, 0x01c9, 0x0159, 0x00dd],
    [0x01c5, 0x0195, 0x01cd, 0x0068],
    [0x006c, 0x0070, 0x0074, 0x0078],
    [0x019b, 0x019b, 0x011f, 0x011f],
    [0x001b, 0x001b, 0x01d3, 0x01d3],
    [0x0183, 0x0183, 0x015f, 0x015f],
    [0x019f, 0x019f, 0x01db, 0x01db],
    [0x01d5, 0x001d, 0x01c1, 0x01dd],
];

/// The rows of spectral codebook 8.
pub closed spec fn rows_8() -> Seq<[u16; 4]> {
    HUFFMAN_CODEBOOK_8@
}

/// What the rows of spectral codebook 8 are.
pub proof fn lemma_rows_8()
    ensures
        rows_8() == HUFFMAN_CODEBOOK_8@,
{
}

/// The table of spectral codebook 8.
pub fn table_8() -> (table: &'static [[u16; 4]])
    ensures
        table@ == rows_8(),
{
    &HUFFMAN_CODEBOOK_8
}

/// One-bit leaves of codebook 8 come in pairs, rows 0 to 30.
pub proof fn lemma_pairs_8_0()
    ensures
        rows_8().len() == 31,
        forall|row: int| 0 <= row < 31 ==> row_pairs(#[trigger] rows_8()[row]),
{
    reveal_with_fuel(paired_range, 32);
    lemma_paired_range(HUFFMAN_CODEBOOK_8@, 0, 31);
}

/// Rows of codebook 8 at depth 0.
pub proof fn lemma_depth_8_0()
    ensures
        forall|row: int| 0 <= row < 1 ==> stratum_row(#[trigger] rows_8()[row], 1, 5, false),
{
    reveal_with_fuel(stratum, 2);
    lemma_stratum(HUFFMAN_CODEBOOK_8@, 0, 1, 1, 5, false);
}

/// Rows of codebook 8 at depth 1.
pub proof fn lemma_depth_8_1()
    ensures
        forall|row: int| 1 <= row < 5 ==> stratum_row(#[trigger] rows_8()[row], 5, 14, false),
{
    reveal_with_fuel(stratum, 5);
    lemma_stratum(HUFFMAN_CODEBOOK_8@, 1, 5, 5, 14, false);
}

/// Rows of codebook 8 at depth 2.
pub proof fn lemma_depth_8_2()
    ensures
        forall|row: int| 5 <= row < 14 ==> stratum_row(#[trigger] rows_8()[row], 14, 26, false),
{
    reveal_with_fuel(stratum, 10);
    lemma_stratum(HUFFMAN_CODEBOOK_8@, 5, 14, 14, 26, false);
}

/// Rows of codebook 8 at depth 3.
pub proof fn lemma_depth_8_3()
    ensures
        forall|row: int| 14 <= row < 26 ==> stratum_row(#[trigger] rows_8()[row], 26, 31, false),
{
    reveal_with_fuel(stratum, 13);
    lemma_stratum(HUFFMAN_CODEBOOK_8@, 14, 26, 26, 31, false);
}

/// Rows of codebook 8 at depth 4.
pub proof fn lemma_depth_8_4()
    ensures
        forall|row: int| 26 <= row < 31 ==> stratum_row(#[trigger] rows_8()[row], 0, 0, false),
{
    reveal_with_fuel(stratum, 6);
    lemma_stratum(HUFFMAN_CODEBOOK_8@, 26, 31, 0, 0, false);
}

} // verus!
