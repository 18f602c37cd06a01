//! Spectral codebook 9.

use vstd::prelude::*;

use crate::huffman::{lemma_paired_range, lemma_stratum, paired_range, row_pairs, stratum, stratum_row};

verus! {

/// Spectral codebook 9.
pub const HUFFMAN_CODEBOOK_9: [[u16; 4]; 84] = [
    [0x0003, 0x0003, 0x0004, 0x0008],
    [0x0007, 0x0007, 0x0043, 0x0043],
    [0x0045, 0x000c, 0x0010, 0x0014],
    [0x0049, 0x0085, 0x0009, 0x0081],
    [0x0018, 0x001c, 0x0020, 0x0024],
    [0x0028, 0x002c, 0x0030, 0x0034],
    [0x004f, 0x004f, 0x008b, 0x008b],
    [0x00c7, 0x00c7, 0x000d, 0x00c1],
    [0x00c9, 0x008d, 0x0105, 0x0051],
    [0x0109, 0x0145, 0x0038, 0x003c],
    [0x0040, 0x0044, 0x0048, 0x004c],
    [0x0050, 0x0054, 0x0058, 0x005c],
    [0x0060, 0x0064, 0x0068, 0x006c],
    [0x0070, 0x0074, 0x0078, 0x007c],
    [0x0093, 0x0093, 0x00cf, 0x00cf],
    [0x0103, 0x0103, 0x0013, 0x0013],
    [0x0057, 0x0057, 0x014b, 0x014b],
    [0x0187, 0x0187, 0x010f, 0x010f],
    [0x0097, 0x0097, 0x005b, 0x005b],
    [0x00d3, 0x00d3, 0x0141, 0x0189],
    [0x0015, 0x01c5, 0x014d, 0x0205],
    [0x0061, 0x0111, 0x00d5, 0x0099],
    [0x005d, 0x0181, 0x00a1, 0x0209],
    [0x018d, 0x01c9, 0x0151, 0x0065],
    [0x0245, 0x009d, 0x0080, 0x0084],
    [0x0088, 0x008c, 0x0090, 0x0094],
    [0x0098, 0x009c, 0x00a0, 0x00a4],
    [0x00a8, 0x00ac, 0x00b0, 0x00b4],
    [0x00b8, 0x00bc, 0x00c0, 0x00c4],
    [0x00c8, 0x00cc, 0x00d0, 0x00d4],
    [0x00d8, 0x00dc, 0x00e0, 0x00e4],
    [0x00e8, 0x00ec, 0x00f0, 0x00f4],
    [0x001b, 0x001b, 0x0117, 0x0117],
    [0x00db, 0x00db, 0x00e3, 0x00e3],
    [0x01c3, 0x01c3, 0x00a7, 0x00a7],
    [0x020f, 0x020f, 0x0193, 0x0193],
    [0x01cf, 0x01cf, 0x0203, 0x0203],
    [0x006b, 0x006b, 0x011b, 0x011b],
    [0x024b, 0x024b, 0x0157, 0x0157],
    [0x0023, 0x0023, 0x001f, 0x001f],
    [0x00df, 0x00df, 0x00ab, 0x00ab],
    [0x00e7, 0x00e7, 0x0123, 0x0123],
    [0x0287, 0x0287, 0x011f, 0x011f],
    [0x015b, 0x015b, 0x0197, 0x0197],
    [0x0213, 0x0213, 0x01d3, 0x01d3],
    [0x024f, 0x024f, 0x006f, 0x006f],
    [0x0217, 0x0217, 0x0027, 0x0027],
    [0x0163, 0x0163, 0x00e9, 0x0289],
    [0x0241, 0x00ad, 0x0125, 0x0199],
    [0x0071, 0x0251, 0x01a1, 0x02c5],
    [0x0165, 0x0129, 0x01d5, 0x015d],
    [0x02c9, 0x0305, 0x00b1, 0x00ed],
    [0x028d, 0x0255, 0x01d9, 0x01e1],
    [0x012d, 0x0281, 0x019d, 0x00f1],
    [0x0029, 0x0169, 0x0291, 0x0219],
    [0x0309, 0x01a5, 0x01e5, 0x02d1],
    [0x002d, 0x0259, 0x02cd, 0x0295],
    [0x00f8, 0x00fc, 0x0100, 0x0104],
    [0x0108, 0x010c, 0x0110, 0x0114],
    [0x0118, 0x011c, 0x0120, 0x0124],
    [0x0128, 0x012c, 0x0130, 0x0134],
    [0x0138, 0x013c, 0x0140, 0x0144],
    [0x0223, 0x0223, 0x021f, 0x021f],
    [0x0173, 0x0173, 0x030f, 0x030f],
    [0x016f, 0x016f, 0x01df, 0x01df],
    [0x0133, 0x0133, 0x01af, 0x01af],
    [0x01ab, 0x01ab, 0x0313, 0x0313],
    [0x025f, 0x025f, 0x02d7, 0x02d7],
    [0x02c3, 0x02c3, 0x01b3, 0x01b3],
    [0x029b, 0x029b, 0x0033, 0x0033],
    [0x01eb, 0x01eb, 0x0317, 0x0317],
    [0x029f, 0x029f, 0x0227, 0x0227],
    [0x0303, 0x0303, 0x01ef, 0x01ef],
    [0x0263, 0x0263, 0x0267, 0x0267],
    [0x022b, 0x022b, 0x02df, 0x02df],
    [0x01f3, 0x01f3, 0x02db, 0x02db],
    [0x02e3, 0x02e3, 0x022f, 0x022f],
    [0x031f, 0x031f, 0x031b, 0x031b],
    [0x02a1, 0x0269, 0x0321, 0x02a5],
    [0x02e5, 0x0325, 0x02e9, 0x0271],
    [0x02a9, 0x026d, 0x0231, 0x02ad],
    [0x02b1, 0x02f1, 0x0148, 0x014c],
    [0x032b, 0x032b, 0x02ef, 0x02ef],
    [0x032f, 0x032f, 0x0333, 0x0333],
];

/// The rows of spectral codebook 9.
pub closed spec fn rows_9() -> Seq<[u16; 4]> {
    HUFFMAN_CODEBOOK_9@
}

/// What the rows of spectral codebook 9 are.
pub proof fn lemma_rows_9()
    ensures
        rows_9() == HUFFMAN_CODEBOOK_9@,
{
}

/// The table of spectral codebook 9.
pub fn table_9() -> (table: &'static [[u16; 4]])
    ensures
        table@ == rows_9(),
{
    &HUFFMAN_CODEBOOK_9
}

/// One-bit leaves of codebook 9 come in pairs, rows 0 to 39.
pub proof fn lemma_pairs_9_0()
    ensures
        rows_9().len() == 84,
        forall|row: int| 0 <= row < 40 ==> row_pairs(#[trigger] rows_9()[row]),
{
    reveal_with_fuel(paired_range, 41);
    lemma_paired_range(HUFFMAN_CODEBOOK_9@, 0, 40);
}

/// One-bit leaves of codebook 9 come in pairs, rows 40 to 79.
pub proof fn lemma_pairs_9_40()
    ensures
        rows_9().len() == 84,
        forall|row: int| 40 <= row < 80 ==> row_pairs(#[trigger] rows_9()[row]),
{
    reveal_with_fuel(paired_range, 41);
    lemma_paired_range(HUFFMAN_CODEBOOK_9@, 40, 80);
}

/// One-bit leaves of codebook 9 come in pairs, rows 80 to 83.
pub proof fn lemma_pairs_9_80()
    ensures
        rows_9().len() == 84,
        forall|row: int| 80 <= row < 84 ==> row_pairs(#[trigger] rows_9()[row]),
{
    reveal_with_fuel(paired_range, 5);
    lemma_paired_range(HUFFMAN_CODEBOOK_9@, 80, 84);
}

/// Rows of codebook 9 at depth 0.
pub proof fn lemma_depth_9_0()
    ensures
        forall|row: int| 0 <= row < 1 ==> stratum_row(#[trigger] rows_9()[row], 1, 3, false),
{
    reveal_with_fuel(stratum, 2);
    lemma_stratum(HUFFMAN_CODEBOOK_9@, 0, 1, 1, 3, false);
}

/// Rows of codebook 9 at depth 1.
pub proof fn lemma_depth_9_1()
    ensures
        forall|row: int| 1 <= row < 3 ==> stratum_row(#[trigger] rows_9()[row], 3, 6, false),
{
    reveal_with_fuel(stratum, 3);
    lemma_stratum(HUFFMAN_CODEBOOK_9@, 1, 3, 3, 6, false);
}

/// Rows of codebook 9 at depth 2.
pub proof fn lemma_depth_9_2()
    ensures
        forall|row: int| 3 <= row < 6 ==> stratum_row(#[trigger] rows_9()[row], 6, 14, false),
{
    reveal_with_fuel(stratum, 4);
    lemma_stratum(HUFFMAN_CODEBOOK_9@, 3, 6, 6, 14, false);
}

/// Rows of codebook 9 at depth 3.
pub proof fn lemma_depth_9_3()
    ensures
        forall|row: int| 6 <= row < 14 ==> stratum_row(#[trigger] rows_9()[row], 14, 32, false),
{
    reveal_with_fuel(stratum, 9);
    lemma_stratum(HUFFMAN_CODEBOOK_9@, 6, 14, 14, 32, false);
}

/// Rows of codebook 9 at depth 4.
pub proof fn lemma_depth_9_4()
    ensures
        forall|row: int| 14 <= row < 32 ==> stratum_row(#[trigger] rows_9()[row], 32, 62, false),
{
    reveal_with_fuel(stratum, 19);
    lemma_stratum(HUFFMAN_CODEBOOK_9@, 14, 32, 32, 62, false);
}

/// Rows of codebook 9 at depth 5.
pub proof fn lemma_depth_9_5()
    ensures
        forall|row: int| 32 <= row < 62 ==> stratum_row(#[trigger] rows_9()[row], 62, 82, false),
{
    reveal_with_fuel(stratum, 31);
    lemma_stratum(HUFFMAN_CODEBOOK_9@, 32, 62, 62, 82, false);
}

/// Rows of codebook 9 at depth 6.
pub proof fn lemma_depth_9_6()
    ensures
        forall|row: int| 62 <= row < 82 ==> stratum_row(#[trigger] rows_9()[row], 82, 84, false),
{
    reveal_with_fuel(stratum, 21);
    lemma_stratum(HUFFMAN_CODEBOOK_9@, 62, 82, 82, 84, false);
}

/// Rows of codebook 9 at depth 7.
pub proof fn lemma_depth_9_7()
    ensures
        forall|row: int| 82 <= row < 84 ==> stratum_row(#[trigger] rows_9()[row], 0, 0, true),
{
    reveal_with_fuel(stratum, 3);
    lemma_stratum(HUFFMAN_CODEBOOK_9@, 82, 84, 0, 0, true);
}

} // verus!
