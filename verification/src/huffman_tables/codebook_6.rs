//! Spectral codebook 6.

use vstd::prelude::*;

use crate::huffman::{lemma_paired_range, lemma_stratum, paired_range, row_pairs, stratum, stratum_row};

verus! {

/// Spectral codebook 6.
pub const HUFFMAN_CODEBOOK_6: [[u16; 4]; 40] = [
    [0x0004, 0x0008, 0x000c, 0x0010],
    [0x0111, 0x0115, 0x00d1, 0x0151],
    [0x010d, 0x0155, 0x014d, 0x00d5],
    [0x00cd, 0x0014, 0x0018, 0x001c],
    [0x0020, 0x0024, 0x0028, 0x002c],
    [0x00d9, 0x0159, 0x0149, 0x00c9],
    [0x0109, 0x018d, 0x0119, 0x0095],
    [0x0195, 0x0091, 0x008d, 0x0191],
    [0x0099, 0x0189, 0x0089, 0x0199],
    [0x0030, 0x0034, 0x0038, 0x003c],
    [0x0040, 0x0044, 0x0048, 0x004c],
    [0x0050, 0x0054, 0x0058, 0x005c],
    [0x0147, 0x0147, 0x015f, 0x015f],
    [0x00df, 0x00df, 0x01cf, 0x01cf],
    [0x00c7, 0x00c7, 0x01d7, 0x01d7],
    [0x0057, 0x0057, 0x004f, 0x004f],
    [0x011f, 0x011f, 0x0107, 0x0107],
    [0x0053, 0x0053, 0x01d3, 0x01d3],
    [0x019f, 0x019f, 0x0085, 0x01c9],
    [0x01d9, 0x009d, 0x0059, 0x0049],
    [0x0185, 0x01dd, 0x0060, 0x0064],
    [0x0068, 0x006c, 0x0070, 0x0074],
    [0x0078, 0x007c, 0x0080, 0x0084],
    [0x0088, 0x008c, 0x0090, 0x0094],
    [0x005f, 0x005f, 0x0047, 0x0047],
    [0x01c7, 0x01c7, 0x0017, 0x0017],
    [0x000f, 0x000f, 0x0163, 0x0163],
    [0x0143, 0x0143, 0x00c3, 0x00c3],
    [0x0217, 0x0217, 0x00e3, 0x00e3],
    [0x020f, 0x020f, 0x0013, 0x0013],
    [0x0183, 0x0183, 0x0083, 0x0083],
    [0x021b, 0x021b, 0x000b, 0x000b],
    [0x0103, 0x0103, 0x01a3, 0x01a3],
    [0x00a3, 0x00a3, 0x020b, 0x020b],
    [0x0123, 0x0123, 0x001b, 0x001b],
    [0x0213, 0x0213, 0x0005, 0x0205],
    [0x001d, 0x0061, 0x021d, 0x01e1],
    [0x01c1, 0x0041, 0x0098, 0x009c],
    [0x0223, 0x0223, 0x0203, 0x0203],
    [0x0003, 0x0003, 0x0023, 0x0023],
];

/// The rows of spectral codebook 6.
pub closed spec fn rows_6() -> Seq<[u16; 4]> {
    HUFFMAN_CODEBOOK_6@
}

/// What the rows of spectral codebook 6 are.
pub proof fn lemma_rows_6()
    ensures
        rows_6() == HUFFMAN_CODEBOOK_6@,
{
}

/// The table of spectral codebook 6.
pub fn table_6() -> (table: &'static [[u16; 4]])
    ensures
        table@ == rows_6(),
{
    &HUFFMAN_CODEBOOK_6
}

/// One-bit leaves of codebook 6 come in pairs, rows 0 to 39.
pub proof fn lemma_pairs_6_0()
    ensures
        rows_6().len() == 40,
        forall|row: int| 0 <= row < 40 ==> row_pairs(#[trigger] rows_6()[row]),
{
    reveal_with_fuel(paired_range, 41);
    lemma_paired_range(HUFFMAN_CODEBOOK_6@, 0, 40);
}

/// Rows of codebook 6 at depth 0.
pub proof fn lemma_depth_6_0()
    ensures
        forall|row: int| 0 <= row < 1 ==> stratum_row(#[trigger] rows_6()[row], 1, 5, false),
{
    reveal_with_fuel(stratum, 2);
    lemma_stratum(HUFFMAN_CODEBOOK_6@, 0, 1, 1, 5, false);
}

/// Rows of codebook 6 at depth 1.
pub proof fn lemma_depth_6_1()
    ensures
        forall|row: int| 1 <= row < 5 ==> stratum_row(#[trigger] rows_6()[row], 5, 12, false),
{
    reveal_with_fuel(stratum, 5);
    lemma_stratum(HUFFMAN_CODEBOOK_6@, 1, 5, 5, 12, false);
}

/// Rows of codebook 6 at depth 2.
pub proof fn lemma_depth_6_2()
    ensures
        forall|row: int| 5 <= row < 12 ==> stratum_row(#[trigger] rows_6()[row], 12, 24, false),
{
    reveal_with_fuel(stratum, 8);
    lemma_stratum(HUFFMAN_CODEBOOK_6@, 5, 12, 12, 24, false);
}

/// Rows of codebook 6 at depth 3.
pub proof fn lemma_depth_6_3()
    ensures
        forall|row: int| 12 <= row < 24 ==> stratum_row(#[trigger] rows_6()[row], 24, 38, false),
{
    reveal_with_fuel(stratum, 13);
    lemma_stratum(HUFFMAN_CODEBOOK_6@, 12, 24, 24, 38, false);
}

/// Rows of codebook 6 at depth 4.
pub proof fn lemma_depth_6_4()
    ensures
        forall|row: int| 24 <= row < 38 ==> stratum_row(#[trigger] rows_6()[row], 38, 40, false),
{
    reveal_with_fuel(stratum, 15);
    lemma_stratum(HUFFMAN_CODEBOOK_6@, 24, 38, 38, 40, false);
}

/// Rows of codebook 6 at depth 5.
pub proof fn lemma_depth_6_5()
    ensures
        forall|row: int| 38 <= row < 40 ==> stratum_row(#[trigger] rows_6()[row], 0, 0, true),
{
    reveal_with_fuel(stratum, 3);
    lemma_stratum(HUFFMAN_CODEBOOK_6@, 38, 40, 0, 0, true);
}

} // verus!
