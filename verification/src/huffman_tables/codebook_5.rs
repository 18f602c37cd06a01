//! Spectral codebook 5.

use vstd::prelude::*;

use crate::huffman::{lemma_paired_range, lemma_stratum, paired_range, row_pairs, stratum, stratum_row};

verus! {

/// Spectral codebook 5.
pub const HUFFMAN_CODEBOOK_5: [[u16; 4]; 41] = [
    [0x0113, 0x0113, 0x0004, 0x0008],
    [0x010d, 0x0115, 0x0151, 0x00d1],
    [0x000c, 0x0010, 0x0014, 0x0018],
    [0x00d7, 0x00d7, 0x014f, 0x014f],
    [0x00cf, 0x00cf, 0x0157, 0x0157],
    [0x001c, 0x0020, 0x0024, 0x0028],
    [0x002c, 0x0030, 0x0034, 0x0038],
    [0x010b, 0x010b, 0x0193, 0x0193],
    [0x011b, 0x011b, 0x0093, 0x0093],
    [0x00c9, 0x0159, 0x008d, 0x0195],
    [0x0149, 0x00d9, 0x018d, 0x0095],
    [0x0105, 0x011d, 0x0051, 0x01d1],
    [0x003c, 0x0040, 0x0044, 0x0048],
    [0x004c, 0x0050, 0x0054, 0x0058],
    [0x005c, 0x0060, 0x0064, 0x0068],
    [0x00c7, 0x00c7, 0x01d7, 0x01d7],
    [0x015f, 0x015f, 0x004f, 0x004f],
    [0x0147, 0x0147, 0x00df, 0x00df],
    [0x0057, 0x0057, 0x01cf, 0x01cf],
    [0x018b, 0x018b, 0x019b, 0x019b],
    [0x008b, 0x008b, 0x009b, 0x009b],
    [0x0085, 0x009d, 0x01c9, 0x0059],
    [0x019d, 0x01d9, 0x0185, 0x0049],
    [0x0011, 0x0101, 0x0161, 0x0121],
    [0x006c, 0x0070, 0x0074, 0x0078],
    [0x007c, 0x0080, 0x0084, 0x0088],
    [0x008c, 0x0090, 0x0094, 0x0098],
    [0x00c3, 0x00c3, 0x0213, 0x0213],
    [0x00e3, 0x00e3, 0x000f, 0x000f],
    [0x0217, 0x0217, 0x020f, 0x020f],
    [0x0143, 0x0143, 0x0017, 0x0017],
    [0x005f, 0x005f, 0x0047, 0x0047],
    [0x01c7, 0x01c7, 0x020b, 0x020b],
    [0x0083, 0x0083, 0x01a3, 0x01a3],
    [0x001b, 0x001b, 0x021b, 0x021b],
    [0x01df, 0x01df, 0x0183, 0x0183],
    [0x0009, 0x00a1, 0x001d, 0x0041],
    [0x01c1, 0x021d, 0x0205, 0x01e1],
    [0x0061, 0x0005, 0x009c, 0x00a0],
    [0x0023, 0x0023, 0x0203, 0x0203],
    [0x0223, 0x0223, 0x0003, 0x0003],
];

/// The rows of spectral codebook 5.
pub closed spec fn rows_5() -> Seq<[u16; 4]> {
    HUFFMAN_CODEBOOK_5@
}

/// What the rows of spectral codebook 5 are.
pub proof fn lemma_rows_5()
    ensures
        rows_5() == HUFFMAN_CODEBOOK_5@,
{
}

/// The table of spectral codebook 5.
pub fn table_5() -> (table: &'static [[u16; 4]])
    ensures
        table@ == rows_5(),
{
    &HUFFMAN_CODEBOOK_5
}

/// One-bit leaves of codebook 5 come in pairs, rows 0 to 39.
pub proof fn lemma_pairs_5_0()
    ensures
        rows_5().len() == 41,
        forall|row: int| 0 <= row < 40 ==> row_pairs(#[trigger] rows_5()[row]),
{
    reveal_with_fuel(paired_range, 41);
    lemma_paired_range(HUFFMAN_CODEBOOK_5@, 0, 40);
}

/// One-bit leaves of codebook 5 come in pairs, rows 40 to 40.
pub proof fn lemma_pairs_5_40()
    ensures
        rows_5().len() == 41,
        forall|row: int| 40 <= row < 41 ==> row_pairs(#[trigger] rows_5()[row]),
{
    reveal_with_fuel(paired_range, 2);
    lemma_paired_range(HUFFMAN_CODEBOOK_5@, 40, 41);
}

/// Rows of codebook 5 at depth 0.
pub proof fn lemma_depth_5_0()
    ensures
        forall|row: int| 0 <= row < 1 ==> stratum_row(#[trigger] rows_5()[row], 1, 3, false),
{
    reveal_with_fuel(stratum, 2);
    lemma_stratum(HUFFMAN_CODEBOOK_5@, 0, 1, 1, 3, false);
}

/// Rows of codebook 5 at depth 1.
pub proof fn lemma_depth_5_1()
    ensures
        forall|row: int| 1 <= row < 3 ==> stratum_row(#[trigger] rows_5()[row], 3, 7, false),
{
    reveal_with_fuel(stratum, 3);
    lemma_stratum(HUFFMAN_CODEBOOK_5@, 1, 3, 3, 7, false);
}

/// Rows of codebook 5 at depth 2.
pub proof fn lemma_depth_5_2()
    ensures
        forall|row: int| 3 <= row < 7 ==> stratum_row(#[trigger] rows_5()[row], 7, 15, false),
{
    reveal_with_fuel(stratum, 5);
    lemma_stratum(HUFFMAN_CODEBOOK_5@, 3, 7, 7, 15, false);
}

/// Rows of codebook 5 at depth 3.
pub proof fn lemma_depth_5_3()
    ensures
        forall|row: int| 7 <= row < 15 ==> stratum_row(#[trigger] rows_5()[row], 15, 27, false),
{
    reveal_with_fuel(stratum, 9);
    lemma_stratum(HUFFMAN_CODEBOOK_5@, 7, 15, 15, 27, false);
}

/// Rows of codebook 5 at depth 4.
pub proof fn lemma_depth_5_4()
    ensures
        forall|row: int| 15 <= row < 27 ==> stratum_row(#[trigger] rows_5()[row], 27, 39, false),
{
    reveal_with_fuel(stratum, 13);
    lemma_stratum(HUFFMAN_CODEBOOK_5@, 15, 27, 27, 39, false);
}

/// Rows of codebook 5 at depth 5.
pub proof fn lemma_depth_5_5()
    ensures
        forall|row: int| 27 <= row < 39 ==> stratum_row(#[trigger] rows_5()[row], 39, 41, false),
{
    reveal_with_fuel(stratum, 13);
    lemma_stratum(HUFFMAN_CODEBOOK_5@, 27, 39, 39, 41, false);
}

/// Rows of codebook 5 at depth 6.
pub proof fn lemma_depth_5_6()
    ensures
        forall|row: int| 39 <= row < 41 ==> stratum_row(#[trigger] rows_5()[row], 0, 0, true),
{
    reveal_with_fuel(stratum, 3);
    lemma_stratum(HUFFMAN_CODEBOOK_5@, 39, 41, 0, 0, true);
}

} // verus!
