//! Spectral codebook 11.

use vstd::prelude::*;

use crate::huffman::{lemma_paired_range, lemma_stratum, paired_range, row_pairs, stratum, stratum_row};

verus! {

/// Spectral codebook 11, with escapes. The rows behind the last link target are
/// spare.
pub const HUFFMAN_CODEBOOK_11: [[u16; 4]; 152] = [
    [0x0004, 0x0008, 0x000c, 0x0010],
    [0x0001, 0x0085, 0x0014, 0x0018],
    [0x001c, 0x0020, 0x0024, 0x0028],
    [0x002c, 0x0030, 0x0034, 0x0038],
    [0x003c, 0x0040, 0x0044, 0x0048],
    [0x0843, 0x0843, 0x0007, 0x0007],
    [0x0083, 0x0083, 0x008b, 0x008b],
    [0x0107, 0x0107, 0x010b, 0x010b],
    [0x0185, 0x008d, 0x010d, 0x0009],
    [0x0189, 0x0101, 0x018d, 0x004c],
    [0x0050, 0x0054, 0x0058, 0x005c],
    [0x0060, 0x0064, 0x0068, 0x006c],
    [0x0070, 0x0074, 0x0078, 0x007c],
    [0x0080, 0x0084, 0x0088, 0x008c],
    [0x0090, 0x0094, 0x0098, 0x009c],
    [0x00a0, 0x00a4, 0x00a8, 0x00ac],
    [0x00b0, 0x00b4, 0x00b8, 0x00bc],
    [0x00c0, 0x00c4, 0x00c8, 0x00cc],
    [0x00d0, 0x00d4, 0x00d8, 0x00dc],
    [0x0093, 0x0093, 0x0207, 0x0207],
    [0x0113, 0x0113, 0x020b, 0x020b],
    [0x0193, 0x0193, 0x020f, 0x020f],
    [0x000f, 0x000f, 0x0183, 0x0183],
    [0x0097, 0x0097, 0x0117, 0x0117],
    [0x028b, 0x028b, 0x0213, 0x0213],
    [0x0287, 0x0287, 0x0197, 0x0197],
    [0x028f, 0x028f, 0x0217, 0x0217],
    [0x0291, 0x0119, 0x0309, 0x0099],
    [0x0199, 0x030d, 0x0305, 0x0811],
    [0x080d, 0x02c1, 0x01c1, 0x0241],
    [0x0219, 0x0341, 0x0011, 0x0311],
    [0x0201, 0x0809, 0x0295, 0x0815],
    [0x03c1, 0x0141, 0x0441, 0x0389],
    [0x011d, 0x038d, 0x0299, 0x0315],
    [0x0819, 0x0541, 0x019d, 0x009d],
    [0x04c1, 0x081d, 0x0805, 0x0385],
    [0x0391, 0x05c1, 0x021d, 0x0641],
    [0x0821, 0x00c1, 0x0319, 0x0825],
    [0x0409, 0x0395, 0x0829, 0x06c1],
    [0x01a1, 0x0121, 0x040d, 0x0015],
    [0x0741, 0x082d, 0x029d, 0x0411],
    [0x0399, 0x031d, 0x0281, 0x00e0],
    [0x00e4, 0x00e8, 0x00ec, 0x00f0],
    [0x00f4, 0x00f8, 0x00fc, 0x0100],
    [0x0104, 0x0108, 0x010c, 0x0110],
    [0x0114, 0x0118, 0x011c, 0x0120],
    [0x0124, 0x0128, 0x012c, 0x0130],
    [0x0134, 0x0138, 0x013c, 0x0140],
    [0x0144, 0x0148, 0x014c, 0x0150],
    [0x0154, 0x0158, 0x015c, 0x0160],
    [0x0164, 0x0168, 0x016c, 0x0170],
    [0x0174, 0x0178, 0x017c, 0x0180],
    [0x0184, 0x0188, 0x018c, 0x0190],
    [0x0194, 0x0198, 0x019c, 0x01a0],
    [0x01a4, 0x01a8, 0x01ac, 0x01b0],
    [0x01b4, 0x01b8, 0x01bc, 0x01c0],
    [0x0223, 0x0223, 0x07c3, 0x07c3],
    [0x0833, 0x0833, 0x0407, 0x0407],
    [0x00a3, 0x00a3, 0x083b, 0x083b],
    [0x0417, 0x0417, 0x0837, 0x0837],
    [0x048f, 0x048f, 0x02a3, 0x02a3],
    [0x039f, 0x039f, 0x048b, 0x048b],
    [0x0323, 0x0323, 0x0127, 0x0127],
    [0x01a7, 0x01a7, 0x083f, 0x083f],
    [0x0493, 0x0493, 0x041b, 0x041b],
    [0x001b, 0x001b, 0x0227, 0x0227],
    [0x0497, 0x0497, 0x03a3, 0x03a3],
    [0x041f, 0x041f, 0x0487, 0x0487],
    [0x01ab, 0x01ab, 0x0303, 0x0303],
    [0x012b, 0x012b, 0x00a7, 0x00a7],
    [0x02a7, 0x02a7, 0x0513, 0x0513],
    [0x050b, 0x050b, 0x0327, 0x0327],
    [0x050f, 0x050f, 0x049b, 0x049b],
    [0x022b, 0x022b, 0x0423, 0x0423],
    [0x02ab, 0x02ab, 0x03a7, 0x03a7],
    [0x01af, 0x01af, 0x0507, 0x0507],
    [0x001f, 0x001f, 0x032b, 0x032b],
    [0x049f, 0x049f, 0x058f, 0x058f],
    [0x0517, 0x0517, 0x00ab, 0x00ab],
    [0x0593, 0x0593, 0x012f, 0x012f],
    [0x0137, 0x0137, 0x051b, 0x051b],
    [0x01b7, 0x01b7, 0x058b, 0x058b],
    [0x0043, 0x0043, 0x0597, 0x0597],
    [0x02af, 0x02af, 0x022d, 0x0425],
    [0x051d, 0x04a1, 0x0801, 0x0691],
    [0x0381, 0x068d, 0x032d, 0x00b5],
    [0x0235, 0x01b1, 0x0689, 0x02b5],
    [0x0521, 0x0599, 0x0429, 0x03a9],
    [0x0139, 0x0231, 0x0585, 0x0611],
    [0x00ad, 0x060d, 0x0685, 0x0131],
    [0x059d, 0x070d, 0x0615, 0x0695],
    [0x0239, 0x0711, 0x03ad, 0x01b9],
    [0x02b1, 0x0335, 0x0331, 0x0021],
    [0x042d, 0x0609, 0x04a5, 0x02b9],
    [0x0699, 0x0529, 0x013d, 0x05a1],
    [0x0525, 0x0339, 0x04a9, 0x0715],
    [0x04ad, 0x00b9, 0x0709, 0x0619],
    [0x0605, 0x0435, 0x0401, 0x03b5],
    [0x061d, 0x03b1, 0x069d, 0x01bd],
    [0x00b1, 0x0719, 0x0789, 0x02bd],
    [0x023d, 0x0705, 0x05a5, 0x0791],
    [0x03b9, 0x06a1, 0x04b5, 0x0621],
    [0x0795, 0x078d, 0x05a9, 0x052d],
    [0x0431, 0x033d, 0x03bd, 0x0721],
    [0x00bd, 0x071d, 0x0025, 0x0481],
    [0x06a5, 0x0625, 0x04b1, 0x0439],
    [0x06a9, 0x04b9, 0x0531, 0x0799],
    [0x079d, 0x01c4, 0x01c8, 0x01cc],
    [0x01d0, 0x01d4, 0x01d8, 0x01dc],
    [0x01e0, 0x01e4, 0x01e8, 0x01ec],
    [0x01f0, 0x01f4, 0x01f8, 0x01fc],
    [0x0200, 0x0204, 0x0208, 0x020c],
    [0x0210, 0x0214, 0x0218, 0x021c],
    [0x0727, 0x0727, 0x043f, 0x043f],
    [0x05af, 0x05af, 0x072f, 0x072f],
    [0x0787, 0x0787, 0x062b, 0x062b],
    [0x072b, 0x072b, 0x05b7, 0x05b7],
    [0x0537, 0x0537, 0x06af, 0x06af],
    [0x062f, 0x062f, 0x07a3, 0x07a3],
    [0x05bb, 0x05bb, 0x0637, 0x0637],
    [0x06b3, 0x06b3, 0x04bf, 0x04bf],
    [0x053b, 0x053b, 0x002b, 0x002b],
    [0x05b3, 0x05b3, 0x07a7, 0x07a7],
    [0x0503, 0x0503, 0x0633, 0x0633],
    [0x002f, 0x002f, 0x0733, 0x0733],
    [0x07ab, 0x07ab, 0x06b7, 0x06b7],
    [0x0683, 0x0683, 0x063b, 0x063b],
    [0x053f, 0x053f, 0x05bf, 0x05bf],
    [0x07af, 0x07af, 0x06bb, 0x06bb],
    [0x0037, 0x0037, 0x0583, 0x0583],
    [0x0737, 0x0737, 0x063f, 0x063f],
    [0x06bf, 0x06bf, 0x07b3, 0x07b3],
    [0x003b, 0x003b, 0x073b, 0x073b],
    [0x07b7, 0x07b7, 0x0033, 0x0033],
    [0x07bb, 0x07bb, 0x0701, 0x0601],
    [0x073d, 0x003d, 0x0781, 0x07bd],
    [0x0001, 0x0001, 0x0001, 0x0001],
    [0x0001, 0x0001, 0x0001, 0x0001],
    [0x0001, 0x0001, 0x0001, 0x0001],
    [0x0001, 0x0001, 0x0001, 0x0001],
    [0x0001, 0x0001, 0x0001, 0x0001],
    [0x0001, 0x0001, 0x0001, 0x0001],
    [0x0001, 0x0001, 0x0001, 0x0001],
    [0x0001, 0x0001, 0x0001, 0x0001],
    [0x0001, 0x0001, 0x0001, 0x0001],
    [0x0001, 0x0001, 0x0001, 0x0001],
    [0x0001, 0x0001, 0x0001, 0x0001],
    [0x0001, 0x0001, 0x0001, 0x0001],
    [0x0001, 0x0001, 0x0001, 0x0001],
    [0x0001, 0x0001, 0x0001, 0x0001],
    [0x0001, 0x0001, 0x0001, 0x0001],
    [0x0001, 0x0001, 0x0001, 0x0001],
];

/// The rows of spectral codebook 11.
pub closed spec fn rows_11() -> Seq<[u16; 4]> {
    HUFFMAN_CODEBOOK_11@
}

/// What the rows of spectral codebook 11 are.
pub proof fn lemma_rows_11()
    ensures
        rows_11() == HUFFMAN_CODEBOOK_11@,
{
}

/// The table of spectral codebook 11.
pub fn table_11() -> (table: &'static [[u16; 4]])
    ensures
        table@ == rows_11(),
{
    &HUFFMAN_CODEBOOK_11
}

/// One-bit leaves of codebook 11 come in pairs, rows 0 to 39.
pub proof fn lemma_pairs_11_0()
    ensures
        rows_11().len() == 152,
        forall|row: int| 0 <= row < 40 ==> row_pairs(#[trigger] rows_11()[row]),
{
    reveal_with_fuel(paired_range, 41);
    lemma_paired_range(HUFFMAN_CODEBOOK_11@, 0, 40);
}

/// One-bit leaves of codebook 11 come in pairs, rows 40 to 79.
pub proof fn lemma_pairs_11_40()
    ensures
        rows_11().len() == 152,
        forall|row: int| 40 <= row < 80 ==> row_pairs(#[trigger] rows_11()[row]),
{
    reveal_with_fuel(paired_range, 41);
    lemma_paired_range(HUFFMAN_CODEBOOK_11@, 40, 80);
}

/// One-bit leaves of codebook 11 come in pairs, rows 80 to 119.
pub proof fn lemma_pairs_11_80()
    ensures
        rows_11().len() == 152,
        forall|row: int| 80 <= row < 120 ==> row_pairs(#[trigger] rows_11()[row]),
{
    reveal_with_fuel(paired_range, 41);
    lemma_paired_range(HUFFMAN_CODEBOOK_11@, 80, 120);
}

/// One-bit leaves of codebook 11 come in pairs, rows 120 to 151.
pub proof fn lemma_pairs_11_120()
    ensures
        rows_11().len() == 152,
        forall|row: int| 120 <= row < 152 ==> row_pairs(#[trigger] rows_11()[row]),
{
    reveal_with_fuel(paired_range, 33);
    lemma_paired_range(HUFFMAN_CODEBOOK_11@, 120, 152);
}

/// Rows of codebook 11 at depth 0.
pub proof fn lemma_depth_11_0()
    ensures
        forall|row: int| 0 <= row < 1 ==> stratum_row(#[trigger] rows_11()[row], 1, 5, false),
{
    reveal_with_fuel(stratum, 2);
    lemma_stratum(HUFFMAN_CODEBOOK_11@, 0, 1, 1, 5, false);
}

/// Rows of codebook 11 at depth 1.
pub proof fn lemma_depth_11_1()
    ensures
        forall|row: int| 1 <= row < 5 ==> stratum_row(#[trigger] rows_11()[row], 5, 19, false),
{
    reveal_with_fuel(stratum, 5);
    lemma_stratum(HUFFMAN_CODEBOOK_11@, 1, 5, 5, 19, false);
}

/// Rows of codebook 11 at depth 2.
pub proof fn lemma_depth_11_2()
    ensures
        forall|row: int| 5 <= row < 19 ==> stratum_row(#[trigger] rows_11()[row], 19, 56, false),
{
    reveal_with_fuel(stratum, 15);
    lemma_stratum(HUFFMAN_CODEBOOK_11@, 5, 19, 19, 56, false);
}

/// Rows of codebook 11 at depth 3.
pub proof fn lemma_depth_11_3()
    ensures
        forall|row: int| 19 <= row < 56 ==> stratum_row(#[trigger] rows_11()[row], 56, 113, false),
{
    reveal_with_fuel(stratum, 38);
    lemma_stratum(HUFFMAN_CODEBOOK_11@, 19, 56, 56, 113, false);
}

/// Rows of codebook 11 at depth 4.
pub proof fn lemma_depth_11_4()
    ensures
        forall|row: int| 56 <= row < 113 ==> stratum_row(#[trigger] rows_11()[row], 113, 136, false),
{
    reveal_with_fuel(stratum, 58);
    lemma_stratum(HUFFMAN_CODEBOOK_11@, 56, 113, 113, 136, false);
}

/// Rows of codebook 11 at depth 5.
pub proof fn lemma_depth_11_5()
    ensures
        forall|row: int| 113 <= row < 136 ==> stratum_row(#[trigger] rows_11()[row], 0, 0, false),
{
    reveal_with_fuel(stratum, 24);
    lemma_stratum(HUFFMAN_CODEBOOK_11@, 113, 136, 0, 0, false);
}

/// Where the pair of two escapes stands.
pub proof fn lemma_escape_pair_entries()
    ensures
        rows_11()[0]@[0] == 4,
        rows_11()[1]@[2] == 20,
        rows_11()[5]@[0] == 2115,
        rows_11().len() == 152,
{
}

} // verus!
