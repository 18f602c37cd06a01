//! What holds of the spectral Huffman codebooks as prefix codes.

use vstd::prelude::*;

use crate::huffman::{
    codeword, lemma_bounded_last, lemma_bounded_step, lemma_branch_bounds, pairs_one_bit_leaves, spectral_table,
};
use crate::huffman_tables::codebook_1::{
    rows_1, lemma_depth_1_0, lemma_depth_1_1, lemma_depth_1_2, lemma_depth_1_3, lemma_depth_1_4, lemma_depth_1_5,
    lemma_pairs_1_0, lemma_pairs_1_40,
};
use crate::huffman_tables::codebook_2::{
    rows_2, lemma_depth_2_0, lemma_depth_2_1, lemma_depth_2_2, lemma_depth_2_3, lemma_depth_2_4, lemma_pairs_2_0,
};
use crate::huffman_tables::codebook_3::{
    rows_3, lemma_depth_3_0, lemma_depth_3_1, lemma_depth_3_2, lemma_depth_3_3, lemma_depth_3_4, lemma_depth_3_5,
    lemma_depth_3_6, lemma_depth_3_7, lemma_pairs_3_0,
};
use crate::huffman_tables::codebook_4::{
    rows_4, lemma_depth_4_0, lemma_depth_4_1, lemma_depth_4_2, lemma_depth_4_3, lemma_depth_4_4, lemma_depth_4_5,
    lemma_pairs_4_0,
};
use crate::huffman_tables::codebook_5::{
    rows_5, lemma_depth_5_0, lemma_depth_5_1, lemma_depth_5_2, lemma_depth_5_3, lemma_depth_5_4, lemma_depth_5_5,
    lemma_depth_5_6, lemma_pairs_5_0, lemma_pairs_5_40,
};
use crate::huffman_tables::codebook_6::{
    rows_6, lemma_depth_6_0, lemma_depth_6_1, lemma_depth_6_2, lemma_depth_6_3, lemma_depth_6_4, lemma_depth_6_5,
    lemma_pairs_6_0,
};
use crate::huffman_tables::codebook_7::{
    rows_7, lemma_depth_7_0, lemma_depth_7_1, lemma_depth_7_2, lemma_depth_7_3, lemma_depth_7_4, lemma_depth_7_5,
    lemma_pairs_7_0,
};
use crate::huffman_tables::codebook_8::{
    rows_8, lemma_depth_8_0, lemma_depth_8_1, lemma_depth_8_2, lemma_depth_8_3, lemma_depth_8_4, lemma_pairs_8_0,
};
use crate::huffman_tables::codebook_9::{
    rows_9, lemma_depth_9_0, lemma_depth_9_1, lemma_depth_9_2, lemma_depth_9_3, lemma_depth_9_4, lemma_depth_9_5,
    lemma_depth_9_6, lemma_depth_9_7, lemma_pairs_9_0, lemma_pairs_9_40, lemma_pairs_9_80,
};
use crate::huffman_tables::codebook_10::{
    rows_10, lemma_depth_10_0, lemma_depth_10_1, lemma_depth_10_2, lemma_depth_10_3, lemma_depth_10_4, lemma_depth_10_5,
    lemma_pairs_10_0, lemma_pairs_10_40, lemma_pairs_10_80,
};
use crate::huffman_tables::codebook_11::{
    lemma_escape_pair_entries, rows_11, lemma_depth_11_0, lemma_depth_11_1, lemma_depth_11_2, lemma_depth_11_3,
    lemma_depth_11_4, lemma_depth_11_5, lemma_pairs_11_0, lemma_pairs_11_40, lemma_pairs_11_80, lemma_pairs_11_120,
};

verus! {

/// One-bit leaves of codebook 1 come in pairs, and no codeword of it is longer
/// than 11 bits.
proof fn lemma_codebook_1(word: u16)
    ensures
        pairs_one_bit_leaves(rows_1()),
        codeword(rows_1(), word) matches Some(code) ==> code.len() <= 11,
        rows_1().len() == 51,
{
    lemma_pairs_1_0();
    lemma_pairs_1_40();
    lemma_depth_1_0();
    lemma_depth_1_1();
    lemma_depth_1_2();
    lemma_depth_1_3();
    lemma_depth_1_4();
    lemma_depth_1_5();
    lemma_bounded_last(rows_1(), 43, 51, word, true);
    lemma_bounded_step(rows_1(), 27, 43, 43, 51, word, 1);
    lemma_bounded_step(rows_1(), 11, 27, 27, 43, word, 3);
    lemma_bounded_step(rows_1(), 3, 11, 11, 27, word, 5);
    lemma_bounded_step(rows_1(), 1, 3, 3, 11, word, 7);
    lemma_bounded_step(rows_1(), 0, 1, 1, 3, word, 9);
}

/// One-bit leaves of codebook 2 come in pairs, and no codeword of it is longer
/// than 9 bits.
proof fn lemma_codebook_2(word: u16)
    ensures
        pairs_one_bit_leaves(rows_2()),
        codeword(rows_2(), word) matches Some(code) ==> code.len() <= 9,
        rows_2().len() == 39,
{
    lemma_pairs_2_0();
    lemma_depth_2_0();
    lemma_depth_2_1();
    lemma_depth_2_2();
    lemma_depth_2_3();
    lemma_depth_2_4();
    lemma_bounded_last(rows_2(), 32, 39, word, true);
    lemma_bounded_step(rows_2(), 18, 32, 32, 39, word, 1);
    lemma_bounded_step(rows_2(), 5, 18, 18, 32, word, 3);
    lemma_bounded_step(rows_2(), 1, 5, 5, 18, word, 5);
    lemma_bounded_step(rows_2(), 0, 1, 1, 5, word, 7);
}

/// One-bit leaves of codebook 3 come in pairs, and no codeword of it is longer
/// than 16 bits.
proof fn lemma_codebook_3(word: u16)
    ensures
        pairs_one_bit_leaves(rows_3()),
        codeword(rows_3(), word) matches Some(code) ==> code.len() <= 16,
        rows_3().len() == 39,
{
    lemma_pairs_3_0();
    lemma_depth_3_0();
    lemma_depth_3_1();
    lemma_depth_3_2();
    lemma_depth_3_3();
    lemma_depth_3_4();
    lemma_depth_3_5();
    lemma_depth_3_6();
    lemma_depth_3_7();
    lemma_bounded_last(rows_3(), 36, 39, word, false);
    lemma_bounded_step(rows_3(), 33, 36, 36, 39, word, 2);
    lemma_bounded_step(rows_3(), 26, 33, 33, 36, word, 4);
    lemma_bounded_step(rows_3(), 13, 26, 26, 33, word, 6);
    lemma_bounded_step(rows_3(), 7, 13, 13, 26, word, 8);
    lemma_bounded_step(rows_3(), 3, 7, 7, 13, word, 10);
    lemma_bounded_step(rows_3(), 1, 3, 3, 7, word, 12);
    lemma_bounded_step(rows_3(), 0, 1, 1, 3, word, 14);
}

/// One-bit leaves of codebook 4 come in pairs, and no codeword of it is longer
/// than 12 bits.
proof fn lemma_codebook_4(word: u16)
    ensures
        pairs_one_bit_leaves(rows_4()),
        codeword(rows_4(), word) matches Some(code) ==> code.len() <= 12,
        rows_4().len() == 38,
{
    lemma_pairs_4_0();
    lemma_depth_4_0();
    lemma_depth_4_1();
    lemma_depth_4_2();
    lemma_depth_4_3();
    lemma_depth_4_4();
    lemma_depth_4_5();
    lemma_bounded_last(rows_4(), 32, 38, word, false);
    lemma_bounded_step(rows_4(), 23, 32, 32, 38, word, 2);
    lemma_bounded_step(rows_4(), 11, 23, 23, 32, word, 4);
    lemma_bounded_step(rows_4(), 5, 11, 11, 23, word, 6);
    lemma_bounded_step(rows_4(), 1, 5, 5, 11, word, 8);
    lemma_bounded_step(rows_4(), 0, 1, 1, 5, word, 10);
}

/// One-bit leaves of codebook 5 come in pairs, and no codeword of it is longer
/// than 13 bits.
proof fn lemma_codebook_5(word: u16)
    ensures
        pairs_one_bit_leaves(rows_5()),
        codeword(rows_5(), word) matches Some(code) ==> code.len() <= 13,
        rows_5().len() == 41,
{
    lemma_pairs_5_0();
    lemma_pairs_5_40();
    lemma_depth_5_0();
    lemma_depth_5_1();
    lemma_depth_5_2();
    lemma_depth_5_3();
    lemma_depth_5_4();
    lemma_depth_5_5();
    lemma_depth_5_6();
    lemma_bounded_last(rows_5(), 39, 41, word, true);
    lemma_bounded_step(rows_5(), 27, 39, 39, 41, word, 1);
    lemma_bounded_step(rows_5(), 15, 27, 27, 39, word, 3);
    lemma_bounded_step(rows_5(), 7, 15, 15, 27, word, 5);
    lemma_bounded_step(rows_5(), 3, 7, 7, 15, word, 7);
    lemma_bounded_step(rows_5(), 1, 3, 3, 7, word, 9);
    lemma_bounded_step(rows_5(), 0, 1, 1, 3, word, 11);
}

/// One-bit leaves of codebook 6 come in pairs, and no codeword of it is longer
/// than 11 bits.
proof fn lemma_codebook_6(word: u16)
    ensures
        pairs_one_bit_leaves(rows_6()),
        codeword(rows_6(), word) matches Some(code) ==> code.len() <= 11,
        rows_6().len() == 40,
{
    lemma_pairs_6_0();
    lemma_depth_6_0();
    lemma_depth_6_1();
    lemma_depth_6_2();
    lemma_depth_6_3();
    lemma_depth_6_4();
    lemma_depth_6_5();
    lemma_bounded_last(rows_6(), 38, 40, word, true);
    lemma_bounded_step(rows_6(), 24, 38, 38, 40, word, 1);
    lemma_bounded_step(rows_6(), 12, 24, 24, 38, word, 3);
    lemma_bounded_step(rows_6(), 5, 12, 12, 24, word, 5);
    lemma_bounded_step(rows_6(), 1, 5, 5, 12, word, 7);
    lemma_bounded_step(rows_6(), 0, 1, 1, 5, word, 9);
}

/// One-bit leaves of codebook 7 come in pairs, and no codeword of it is longer
/// than 12 bits.
proof fn lemma_codebook_7(word: u16)
    ensures
        pairs_one_bit_leaves(rows_7()),
        codeword(rows_7(), word) matches Some(code) ==> code.len() <= 12,
        rows_7().len() == 31,
{
    lemma_pairs_7_0();
    lemma_depth_7_0();
    lemma_depth_7_1();
    lemma_depth_7_2();
    lemma_depth_7_3();
    lemma_depth_7_4();
    lemma_depth_7_5();
    lemma_bounded_last(rows_7(), 26, 31, word, false);
    lemma_bounded_step(rows_7(), 14, 26, 26, 31, word, 2);
    lemma_bounded_step(rows_7(), 6, 14, 14, 26, word, 4);
    lemma_bounded_step(rows_7(), 3, 6, 6, 14, word, 6);
    lemma_bounded_step(rows_7(), 1, 3, 3, 6, word, 8);
    lemma_bounded_step(rows_7(), 0, 1, 1, 3, word, 10);
}

/// One-bit leaves of codebook 8 come in pairs, and no codeword of it is longer
/// than 10 bits.
proof fn lemma_codebook_8(word: u16)
    ensures
        pairs_one_bit_leaves(rows_8()),
        codeword(rows_8(), word) matches Some(code) ==> code.len() <= 10,
        rows_8().len() == 31,
{
    lemma_pairs_8_0();
    lemma_depth_8_0();
    lemma_depth_8_1();
    lemma_depth_8_2();
    lemma_depth_8_3();
    lemma_depth_8_4();
    lemma_bounded_last(rows_8(), 26, 31, word, false);
    lemma_bounded_step(rows_8(), 14, 26, 26, 31, word, 2);
    lemma_bounded_step(rows_8(), 5, 14, 14, 26, word, 4);
    lemma_bounded_step(rows_8(), 1, 5, 5, 14, word, 6);
    lemma_bounded_step(rows_8(), 0, 1, 1, 5, word, 8);
}

/// One-bit leaves of codebook 9 come in pairs, and no codeword of it is longer
/// than 15 bits.
proof fn lemma_codebook_9(word: u16)
    ensures
        pairs_one_bit_leaves(rows_9()),
        codeword(rows_9(), word) matches Some(code) ==> code.len() <= 15,
        rows_9().len() == 84,
{
    lemma_pairs_9_0();
    lemma_pairs_9_40();
    lemma_pairs_9_80();
    lemma_depth_9_0();
    lemma_depth_9_1();
    lemma_depth_9_2();
    lemma_depth_9_3();
    lemma_depth_9_4();
    lemma_depth_9_5();
    lemma_depth_9_6();
    lemma_depth_9_7();
    lemma_bounded_last(rows_9(), 82, 84, word, true);
    lemma_bounded_step(rows_9(), 62, 82, 82, 84, word, 1);
    lemma_bounded_step(rows_9(), 32, 62, 62, 82, word, 3);
    lemma_bounded_step(rows_9(), 14, 32, 32, 62, word, 5);
    lemma_bounded_step(rows_9(), 6, 14, 14, 32, word, 7);
    lemma_bounded_step(rows_9(), 3, 6, 6, 14, word, 9);
    lemma_bounded_step(rows_9(), 1, 3, 3, 6, word, 11);
    lemma_bounded_step(rows_9(), 0, 1, 1, 3, word, 13);
}

/// One-bit leaves of codebook 10 come in pairs, and no codeword of it is longer
/// than 12 bits.
proof fn lemma_codebook_10(word: u16)
    ensures
        pairs_one_bit_leaves(rows_10()),
        codeword(rows_10(), word) matches Some(code) ==> code.len() <= 12,
        rows_10().len() == 82,
{
    lemma_pairs_10_0();
    lemma_pairs_10_40();
    lemma_pairs_10_80();
    lemma_depth_10_0();
    lemma_depth_10_1();
    lemma_depth_10_2();
    lemma_depth_10_3();
    lemma_depth_10_4();
    lemma_depth_10_5();
    lemma_bounded_last(rows_10(), 69, 82, word, false);
    lemma_bounded_step(rows_10(), 40, 69, 69, 82, word, 2);
    lemma_bounded_step(rows_10(), 18, 40, 40, 69, word, 4);
    lemma_bounded_step(rows_10(), 5, 18, 18, 40, word, 6);
    lemma_bounded_step(rows_10(), 1, 5, 5, 18, word, 8);
    lemma_bounded_step(rows_10(), 0, 1, 1, 5, word, 10);
}

/// One-bit leaves of codebook 11 come in pairs, and no codeword of it is longer
/// than 12 bits.
proof fn lemma_codebook_11(word: u16)
    ensures
        pairs_one_bit_leaves(rows_11()),
        codeword(rows_11(), word) matches Some(code) ==> code.len() <= 12,
        rows_11().len() == 152,
{
    lemma_pairs_11_0();
    lemma_pairs_11_40();
    lemma_pairs_11_80();
    lemma_pairs_11_120();
    lemma_depth_11_0();
    lemma_depth_11_1();
    lemma_depth_11_2();
    lemma_depth_11_3();
    lemma_depth_11_4();
    lemma_depth_11_5();
    lemma_bounded_last(rows_11(), 113, 136, word, false);
    lemma_bounded_step(rows_11(), 56, 113, 113, 136, word, 2);
    lemma_bounded_step(rows_11(), 19, 56, 56, 113, word, 4);
    lemma_bounded_step(rows_11(), 5, 19, 19, 56, word, 6);
    lemma_bounded_step(rows_11(), 1, 5, 5, 19, word, 8);
    lemma_bounded_step(rows_11(), 0, 1, 1, 5, word, 10);
}

/// The length of the longest codeword of a spectral codebook.
pub open spec fn longest_codeword(codebook: u8) -> int {
    if codebook == 1 || codebook == 6 {
        11
    } else if codebook == 2 {
        9
    } else if codebook == 3 {
        16
    } else if codebook == 5 {
        13
    } else if codebook == 8 {
        10
    } else if codebook == 9 {
        15
    } else {
        12
    }
}

/// In every spectral codebook one-bit leaves come in pairs, and no codeword is
/// longer than the longest one.
pub proof fn lemma_codebook(codebook: u8, word: u16)
    requires
        1 <= codebook <= 11,
    ensures
        pairs_one_bit_leaves(spectral_table(codebook)),
        codeword(spectral_table(codebook), word) matches Some(code) ==> code.len() <= longest_codeword(codebook),
{
    if codebook == 1 {
        lemma_codebook_1(word);
    } else if codebook == 2 {
        lemma_codebook_2(word);
    } else if codebook == 3 {
        lemma_codebook_3(word);
    } else if codebook == 4 {
        lemma_codebook_4(word);
    } else if codebook == 5 {
        lemma_codebook_5(word);
    } else if codebook == 6 {
        lemma_codebook_6(word);
    } else if codebook == 7 {
        lemma_codebook_7(word);
    } else if codebook == 8 {
        lemma_codebook_8(word);
    } else if codebook == 9 {
        lemma_codebook_9(word);
    } else if codebook == 10 {
        lemma_codebook_10(word);
    } else {
        lemma_codebook_11(word);
    }
}

/// The codeword of two escapes has at most five bits.
pub proof fn lemma_escape_pair()
    ensures
        codeword(spectral_table(11), 528) matches Some(code) && code.len() <= 5,
{
    lemma_escape_pair_entries();
    let table = rows_11();
    let first = Seq::<int>::empty().push(0);
    let second = first.push(1);
    assert(first.len() == 1 && first[0] == 0);
    assert(second.len() == 2 && second[0] == 0 && second[1] == 1);
    lemma_branch_bounds(table, 5, 0, 528, second);
    lemma_branch_bounds(table, 1, 2, 528, first);
    lemma_branch_bounds(table, 0, 0, 528, Seq::empty());
}

/// No spectral codebook is empty.
pub proof fn lemma_codebook_rows(codebook: u8)
    requires
        1 <= codebook <= 11,
    ensures
        spectral_table(codebook).len() > 0,
{
    if codebook == 1 {
        lemma_codebook_1(0);
    } else if codebook == 2 {
        lemma_codebook_2(0);
    } else if codebook == 3 {
        lemma_codebook_3(0);
    } else if codebook == 4 {
        lemma_codebook_4(0);
    } else if codebook == 5 {
        lemma_codebook_5(0);
    } else if codebook == 6 {
        lemma_codebook_6(0);
    } else if codebook == 7 {
        lemma_codebook_7(0);
    } else if codebook == 8 {
        lemma_codebook_8(0);
    } else if codebook == 9 {
        lemma_codebook_9(0);
    } else if codebook == 10 {
        lemma_codebook_10(0);
    } else {
        lemma_codebook_11(0);
    }
}

} // verus!
