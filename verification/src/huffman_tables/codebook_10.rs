//! Spectral codebook 10.

use vstd::prelude::*;

use crate::huffman::{lemma_paired_range, lemma_stratum, paired_range, row_pairs, stratum, stratum_row};

verus! {

/// Spectral codebook 10.
pub const HUFFMAN_CODEBOOK_10: [[u16; 4]; 82] = [
    [0x0004, 0x0008, 0x000c, 0x0010],
    [0x0045, 0x0085, 0x0049, 0x0014],
    [0x0018, 0x001c, 0x0020, 0x0024],
    [0x0028, 0x002c, 0x0030, 0x0034],
    [0x0038, 0x003c, 0x0040, 0x0044],
    [0x008b, 0x008b, 0x0007, 0x0007],
    [0x0043, 0x0043, 0x00c7, 0x00c7],
    [0x008f, 0x008f, 0x004f, 0x004f],
    [0x00cb, 0x00cb, 0x00cf, 0x00cf],
    [0x0009, 0x0081, 0x0109, 0x0091],
    [0x0105, 0x0051, 0x0001, 0x00d1],
    [0x010d, 0x000d, 0x00c1, 0x0111],
    [0x0149, 0x0095, 0x0048, 0x004c],
    [0x0050, 0x0054, 0x0058, 0x005c],
    [0x0060, 0x0064, 0x0068, 0x006c],
    [0x0070, 0x0074, 0x0078, 0x007c],
    [0x0080, 0x0084, 0x0088, 0x008c],
    [0x0090, 0x0094, 0x0098, 0x009c],
    [0x0147, 0x0147, 0x0057, 0x0057],
    [0x00d7, 0x00d7, 0x014f, 0x014f],
    [0x0117, 0x0117, 0x0153, 0x0153],
    [0x009b, 0x009b, 0x018b, 0x018b],
    [0x00db, 0x00db, 0x0013, 0x0013],
    [0x005b, 0x005b, 0x0103, 0x0103],
    [0x0187, 0x0187, 0x018f, 0x018f],
    [0x0157, 0x0157, 0x011b, 0x011b],
    [0x0193, 0x0193, 0x0159, 0x009d],
    [0x01cd, 0x01c9, 0x0195, 0x00a1],
    [0x00dd, 0x0015, 0x005d, 0x0141],
    [0x0061, 0x01c5, 0x00e1, 0x011d],
    [0x01d1, 0x0209, 0x0199, 0x015d],
    [0x0205, 0x020d, 0x0121, 0x0211],
    [0x01d5, 0x0161, 0x0215, 0x00a0],
    [0x00a4, 0x00a8, 0x00ac, 0x00b0],
    [0x00b4, 0x00b8, 0x00bc, 0x00c0],
    [0x00c4, 0x00c8, 0x00cc, 0x00d0],
    [0x00d4, 0x00d8, 0x00dc, 0x00e0],
    [0x00e4, 0x00e8, 0x00ec, 0x00f0],
    [0x00f4, 0x00f8, 0x00fc, 0x0100],
    [0x0104, 0x0108, 0x010c, 0x0110],
    [0x019f, 0x019f, 0x01db, 0x01db],
    [0x00a7, 0x00a7, 0x001b, 0x001b],
    [0x021b, 0x021b, 0x00e7, 0x00e7],
    [0x024f, 0x024f, 0x0067, 0x0067],
    [0x024b, 0x024b, 0x0183, 0x0183],
    [0x01a3, 0x01a3, 0x0127, 0x0127],
    [0x0253, 0x0253, 0x00ab, 0x00ab],
    [0x0247, 0x0247, 0x01df, 0x01df],
    [0x01e3, 0x01e3, 0x0167, 0x0167],
    [0x021f, 0x021f, 0x00eb, 0x00eb],
    [0x0257, 0x0257, 0x012b, 0x012b],
    [0x028b, 0x028b, 0x006b, 0x006b],
    [0x028f, 0x028f, 0x01a7, 0x01a7],
    [0x025b, 0x025b, 0x0023, 0x0023],
    [0x0293, 0x0293, 0x001f, 0x001f],
    [0x00af, 0x00af, 0x025d, 0x00ed],
    [0x01a9, 0x0285, 0x006d, 0x01e5],
    [0x01c1, 0x0221, 0x0169, 0x02cd],
    [0x0295, 0x0261, 0x016d, 0x0201],
    [0x012d, 0x02c9, 0x029d, 0x0299],
    [0x01e9, 0x02d1, 0x02c5, 0x00b1],
    [0x0225, 0x00f1, 0x01ad, 0x02d5],
    [0x0131, 0x01ed, 0x0171, 0x030d],
    [0x02d9, 0x0025, 0x0229, 0x0029],
    [0x0071, 0x0241, 0x0311, 0x0265],
    [0x01b1, 0x0309, 0x02a1, 0x0114],
    [0x0118, 0x011c, 0x0120, 0x0124],
    [0x0128, 0x012c, 0x0130, 0x0134],
    [0x0138, 0x013c, 0x0140, 0x0144],
    [0x02a7, 0x02a7, 0x0307, 0x0307],
    [0x022f, 0x022f, 0x01f3, 0x01f3],
    [0x02df, 0x02df, 0x0317, 0x0317],
    [0x031b, 0x031b, 0x026b, 0x026b],
    [0x02e3, 0x02e3, 0x0233, 0x0233],
    [0x0283, 0x0283, 0x031f, 0x031f],
    [0x002f, 0x002f, 0x02ab, 0x02ab],
    [0x026f, 0x026f, 0x02af, 0x02af],
    [0x02c3, 0x02c3, 0x02ef, 0x02ef],
    [0x02e7, 0x02e7, 0x02eb, 0x02eb],
    [0x0033, 0x0033, 0x0323, 0x0323],
    [0x0271, 0x0329, 0x0325, 0x032d],
    [0x02f1, 0x0301, 0x02b1, 0x0331],
];

/// The rows of spectral codebook 10.
pub closed spec fn rows_10() -> Seq<[u16; 4]> {
    HUFFMAN_CODEBOOK_10@
}

/// What the rows of spectral codebook 10 are.
pub proof fn lemma_rows_10()
    ensures
        rows_10() == HUFFMAN_CODEBOOK_10@,
{
}

/// The table of spectral codebook 10.
pub fn table_10() -> (table: &'static [[u16; 4]])
    ensures
        table@ == rows_10(),
{
    &HUFFMAN_CODEBOOK_10
}

/// One-bit leaves of codebook 10 come in pairs, rows 0 to 39.
pub proof fn lemma_pairs_10_0()
    ensures
        rows_10().len() == 82,
        forall|row: int| 0 <= row < 40 ==> row_pairs(#[trigger] rows_10()[row]),
{
    reveal_with_fuel(paired_range, 41);
    lemma_paired_range(HUFFMAN_CODEBOOK_10@, 0, 40);
}

/// One-bit leaves of codebook 10 come in pairs, rows 40 to 79.
pub proof fn lemma_pairs_10_40()
    ensures
        rows_10().len() == 82,
        forall|row: int| 40 <= row < 80 ==> row_pairs(#[trigger] rows_10()[row]),
{
    reveal_with_fuel(paired_range, 41);
    lemma_paired_range(HUFFMAN_CODEBOOK_10@, 40, 80);
}

/// One-bit leaves of codebook 10 come in pairs, rows 80 to 81.
pub proof fn lemma_pairs_10_80()
    ensures
        rows_10().len() == 82,
        forall|row: int| 80 <= row < 82 ==> row_pairs(#[trigger] rows_10()[row]),
{
    reveal_with_fuel(paired_range, 3);
    lemma_paired_range(HUFFMAN_CODEBOOK_10@, 80, 82);
}

/// Rows of codebook 10 at depth 0.
pub proof fn lemma_depth_10_0()
    ensures
        forall|row: int| 0 <= row < 1 ==> stratum_row(#[trigger] rows_10()[row], 1, 5, false),
{
    reveal_with_fuel(stratum, 2);
    lemma_stratum(HUFFMAN_CODEBOOK_10@, 0, 1, 1, 5, false);
}

/// Rows of codebook 10 at depth 1.
pub proof fn lemma_depth_10_1()
    ensures
        forall|row: int| 1 <= row < 5 ==> stratum_row(#[trigger] rows_10()[row], 5, 18, false),
{
    reveal_with_fuel(stratum, 5);
    lemma_stratum(HUFFMAN_CODEBOOK_10@, 1, 5, 5, 18, false);
}

/// Rows of codebook 10 at depth 2.
pub proof fn lemma_depth_10_2()
    ensures
        forall|row: int| 5 <= row < 18 ==> stratum_row(#[trigger] rows_10()[row], 18, 40, false),
{
    reveal_with_fuel(stratum, 14);
    lemma_stratum(HUFFMAN_CODEBOOK_10@, 5, 18, 18, 40, false);
}

/// Rows of codebook 10 at depth 3.
pub proof fn lemma_depth_10_3()
    ensures
        forall|row: int| 18 <= row < 40 ==> stratum_row(#[trigger] rows_10()[row], 40, 69, false),
{
    reveal_with_fuel(stratum, 23);
    lemma_stratum(HUFFMAN_CODEBOOK_10@, 18, 40, 40, 69, false);
}

/// Rows of codebook 10 at depth 4.
pub proof fn lemma_depth_10_4()
    ensures
        forall|row: int| 40 <= row < 69 ==> stratum_row(#[trigger] rows_10()[row], 69, 82, false),
{
    reveal_with_fuel(stratum, 30);
    lemma_stratum(HUFFMAN_CODEBOOK_10@, 40, 69, 69, 82, false);
}

/// Rows of codebook 10 at depth 5.
pub proof fn lemma_depth_10_5()
    ensures
        forall|row: int| 69 <= row < 82 ==> stratum_row(#[trigger] rows_10()[row], 0, 0, false),
{
    reveal_with_fuel(stratum, 14);
    lemma_stratum(HUFFMAN_CODEBOOK_10@, 69, 82, 0, 0, false);
}

} // verus!
