//! Huffman coding with two-bit stepping tables.

use vstd::arithmetic::power2::{
    lemma2_to64, lemma_pow2_adds, lemma_pow2_pos, lemma_pow2_strictly_increases, lemma_pow2_unfold, pow2,
};
use vstd::prelude::*;

use crate::bits::{
    bits_value, lemma_bits_value_bits, lemma_bits_value_bound, lemma_value_bits_len, value_bits, BitCursor, BitError, BitReader, BitWriter,
};
use crate::huffman_tables::codebook_1::{rows_1, table_1};
use crate::huffman_tables::codebook_2::{rows_2, table_2};
use crate::huffman_tables::codebook_3::{rows_3, table_3};
use crate::huffman_tables::codebook_4::{rows_4, table_4};
use crate::huffman_tables::codebook_5::{rows_5, table_5};
use crate::huffman_tables::codebook_6::{rows_6, table_6};
use crate::huffman_tables::codebook_7::{rows_7, table_7};
use crate::huffman_tables::codebook_8::{rows_8, table_8};
use crate::huffman_tables::codebook_9::{rows_9, table_9};
use crate::huffman_tables::codebook_10::{rows_10, table_10};
use crate::huffman_tables::codebook_11::{rows_11, table_11};
use crate::text::{decimal_text, hex_text, literal, numbered, numbered_text, push_decimal, push_hex, push_literal};

pub use crate::huffman_tables::HUFFMAN_CODEBOOK_SCL;

verus! {

/// A two-bit stepping table.
pub type FdkHuffmanTable = &'static [[u16; 4]];

/// How a spectral codebook packs its tuples.
#[derive(Debug, Clone, Copy, PartialEq, Eq)]
pub struct CodeBookDescription {
    pub table: FdkHuffmanTable,
    /// Coefficients in a tuple.
    pub dimension: u8,
    /// Bits that each coefficient takes in a table word.
    pub num_bits: u8,
    /// What is added to a signed coefficient; zero where signs are sent apart.
    pub offset: u8,
}

impl CodeBookDescription {
    /// The mask of one coefficient in a table word.
    pub fn mask(self) -> (mask: u16)
        requires
            self.num_bits < 16,
        ensures
            mask == pow2(self.num_bits as nat) - 1,
    {
        proof {
            lemma2_to64();
            lemma_pow2_strictly_increases(self.num_bits as nat, 16);
            lemma_pow2_pos(self.num_bits as nat);
            vstd::bits::lemma_u16_shl_is_mul(1u16, self.num_bits as u16);
        }
        (1u16 << (self.num_bits as u16)) - 1
    }
}

/// Failures of Huffman coding.
#[derive(Debug, Clone, Copy, PartialEq, Eq, Structural)]
pub enum HuffmanError {
    Bit(BitError),
    InvalidCodebook(u8),
    InvalidTableIndex(usize),
    UnrepresentableWord(u16),
    UnrepresentableTuple(u8),
    InvalidTupleDimension { expected: u8, actual: usize },
}

impl From<BitError> for HuffmanError {
    fn from(value: BitError) -> (error: HuffmanError) {
        HuffmanError::Bit(value)
    }
}

impl vstd::std_specs::convert::FromSpecImpl<BitError> for HuffmanError {
    open spec fn obeys_from_spec() -> bool {
        true
    }

    open spec fn from_spec(value: BitError) -> HuffmanError {
        HuffmanError::Bit(value)
    }
}

impl HuffmanError {
    /// The diagnostic of this error.
    pub open spec fn message(self) -> Seq<char> {
        match self {
            HuffmanError::Bit(error) => error.message(),
            HuffmanError::InvalidCodebook(codebook) => numbered("invalid AAC Huffman codebook ", codebook as nat, ""),
            HuffmanError::InvalidTableIndex(index) => numbered("invalid Huffman table index ", index as nat, ""),
            HuffmanError::UnrepresentableWord(word) => "Huffman word "@ + hex_text(word as nat)
                + " is absent from the table"@,
            HuffmanError::UnrepresentableTuple(codebook) => numbered(
                "spectral tuple is not representable by codebook ",
                codebook as nat,
                "",
            ),
            HuffmanError::InvalidTupleDimension { expected, actual } => "spectral codebook expects "@ + decimal_text(
                expected as nat,
            ) + " coefficients, got "@ + decimal_text(actual as nat),
        }
    }

    /// Renders the diagnostic of this error.
    pub fn to_string(&self) -> (message: String)
        ensures
            message@ == self.message(),
    {
        match self {
            HuffmanError::Bit(error) => error.to_string(),
            HuffmanError::InvalidCodebook(codebook) => numbered_text(
                "invalid AAC Huffman codebook ",
                *codebook as u64,
                "",
            ),
            HuffmanError::InvalidTableIndex(index) => numbered_text("invalid Huffman table index ", *index as u64, ""),
            HuffmanError::UnrepresentableWord(word) => {
                let mut message = literal("Huffman word ");
                push_hex(&mut message, *word as u64);
                push_literal(&mut message, " is absent from the table");
                message
            },
            HuffmanError::UnrepresentableTuple(codebook) => numbered_text(
                "spectral tuple is not representable by codebook ",
                *codebook as u64,
                "",
            ),
            HuffmanError::InvalidTupleDimension { expected, actual } => {
                let mut message = literal("spectral codebook expects ");
                push_decimal(&mut message, *expected as u64);
                push_literal(&mut message, " coefficients, got ");
                push_decimal(&mut message, *actual as u64);
                message
            },
        }
    }
}

// ---------------------------------------------------------------------------
// Stepping tables
// ---------------------------------------------------------------------------

/// Whether an entry ends a codeword.
pub open spec fn is_leaf(entry: u16) -> bool {
    entry % 2 == 1
}

/// Whether only the first of the two look-ahead bits belongs to the codeword.
pub open spec fn is_one_bit(entry: u16) -> bool {
    (entry / 2) % 2 == 1
}

/// The word of a leaf, or the row that a link leads to.
pub open spec fn payload(entry: u16) -> u16 {
    entry / 4
}

/// The two bits that select a branch of a row.
pub open spec fn branch_bits(branch: int) -> Seq<bool> {
    seq![branch >= 2, branch % 2 == 1]
}

/// Decoding one word from a row of a table on.
///
/// Two bits select an entry of the row. At the exact end of the input a single
/// bit is enough where both entries that it leaves open are the same one-bit
/// leaf.
pub open spec fn decode_word(table: Seq<[u16; 4]>, row: int, cursor: BitCursor) -> (
    Result<u16, HuffmanError>,
    BitCursor,
)
    decreases cursor.remaining(),
{
    if row >= table.len() {
        (Err(HuffmanError::InvalidTableIndex(row as usize)), cursor)
    } else if cursor.remaining() == 1 {
        let low = table[row]@[if cursor.bits[cursor.pos] { 2int } else { 0int }];
        let high = table[row]@[if cursor.bits[cursor.pos] { 3int } else { 1int }];
        (
            if low == high && is_leaf(low) && is_one_bit(low) {
                Ok(payload(low))
            } else {
                Err(HuffmanError::Bit(BitError::UnexpectedEof { needed_bits: 2, remaining_bits: 1 }))
            },
            cursor.advance(1),
        )
    } else if cursor.remaining() < 2 {
        (Err(HuffmanError::Bit(cursor.eof(2))), cursor)
    } else {
        let entry = table[row]@[bits_value(cursor.bits.subrange(cursor.pos, cursor.pos + 2)) as int];
        if is_leaf(entry) {
            (Ok(payload(entry)), cursor.advance(if is_one_bit(entry) { 1 } else { 2 }))
        } else {
            decode_word(table, payload(entry) as int, cursor.advance(2))
        }
    }
}

/// The shorter of two codewords; the first where they are equally long.
pub open spec fn shorter(first: Option<Seq<bool>>, second: Option<Seq<bool>>) -> Option<Seq<bool>> {
    match (first, second) {
        (Some(a), Some(b)) => if b.len() < a.len() {
            Some(b)
        } else {
            Some(a)
        },
        (None, _) => second,
        (_, None) => first,
    }
}

/// The shortest codeword of `word` from a row of a table on, along rows that
/// are not on `path`; the first in branch order where several are shortest.
pub open spec fn word_path(table: Seq<[u16; 4]>, row: int, word: u16, path: Seq<int>) -> Option<Seq<bool>>
    decreases 0x4000 - path.len(), 1int,
{
    if row < 0 || row >= table.len() || path.contains(row) || path.len() >= 0x4000 {
        None
    } else {
        shorter(
            shorter(
                shorter(branch_path(table, row, 0, word, path), branch_path(table, row, 1, word, path)),
                branch_path(table, row, 2, word, path),
            ),
            branch_path(table, row, 3, word, path),
        )
    }
}

/// The shortest codeword of `word` through one branch of a row.
pub open spec fn branch_path(table: Seq<[u16; 4]>, row: int, branch: int, word: u16, path: Seq<int>) -> Option<
    Seq<bool>,
>
    decreases 0x4000 - path.len(), 0int,
{
    let entry = table[row]@[branch];
    if is_leaf(entry) {
        if payload(entry) != word {
            None
        } else if is_one_bit(entry) {
            Some(seq![branch >= 2])
        } else {
            Some(branch_bits(branch))
        }
    } else if path.len() >= 0x4000 {
        None
    } else {
        match word_path(table, payload(entry) as int, word, path.push(row)) {
            Some(rest) => Some(branch_bits(branch) + rest),
            None => None,
        }
    }
}

/// The codeword of `word` in a table.
pub open spec fn codeword(table: Seq<[u16; 4]>, word: u16) -> Option<Seq<bool>> {
    word_path(table, 0, word, Seq::empty())
}

/// A codeword as a number of thirty-two bits: its last thirty-two bits.
pub open spec fn code_number(code: Seq<bool>) -> u32 {
    (bits_value(code) % 0x1_0000_0000) as u32
}

/// What is written for a word: its codeword.
pub open spec fn word_bits(table: Seq<[u16; 4]>, word: u16) -> Option<Seq<bool>> {
    match codeword(table, word) {
        Some(code) => Some(value_bits(code_number(code) as nat, code.len())),
        None => None,
    }
}

/// Whether one-bit leaves fill both entries that their bit leaves open.
pub open spec fn pairs_one_bit_leaves(table: Seq<[u16; 4]>) -> bool {
    forall|row: int|
        0 <= row < table.len() ==> row_pairs(#[trigger] table[row])
}

/// Whether the one-bit leaves of a row fill both entries of their half.
pub open spec fn row_pairs(row: [u16; 4]) -> bool {
    &&& (is_leaf(row@[0]) && is_one_bit(row@[0])) || (is_leaf(row@[1]) && is_one_bit(row@[1])) ==> row@[0] == row@[1]
    &&& (is_leaf(row@[2]) && is_one_bit(row@[2])) || (is_leaf(row@[3]) && is_one_bit(row@[3])) ==> row@[2] == row@[3]
}

/// Two bits as a number.
pub proof fn lemma_two_bits(bits: Seq<bool>)
    requires
        bits.len() == 2,
    ensures
        bits_value(bits) == (if bits[0] { 2nat } else { 0nat }) + (if bits[1] { 1nat } else { 0nat }),
{
    reveal_with_fuel(bits_value, 3);
    assert(bits.drop_last().drop_last() =~= Seq::<bool>::empty());
}

/// Decoding undoes encoding from any row on.
proof fn lemma_path_decodes(table: Seq<[u16; 4]>, row: int, word: u16, path: Seq<int>, cursor: BitCursor)
    requires
        pairs_one_bit_leaves(table),
        0 <= cursor.pos,
        word_path(table, row, word, path) matches Some(code) && cursor.pos + code.len() <= cursor.bits.len()
            && cursor.bits.subrange(cursor.pos, cursor.pos + code.len()) == code,
    ensures
        decode_word(table, row, cursor) == (
            Ok::<u16, HuffmanError>(word),
            cursor.advance(word_path(table, row, word, path)->0.len() as int),
        ),
    decreases 0x4000 - path.len(),
{
    let code = word_path(table, row, word, path)->0;
    let branch: int = if branch_path(table, row, 0, word, path) == Some(code) {
        0
    } else if branch_path(table, row, 1, word, path) == Some(code) {
        1
    } else if branch_path(table, row, 2, word, path) == Some(code) {
        2
    } else {
        3
    };
    assert(branch_path(table, row, branch, word, path) == Some(code));
    let entry = table[row]@[branch];
    assert(row_pairs(table[row]));
    assert(cursor.bits.subrange(cursor.pos, cursor.pos + code.len()) == code);
    assert forall|i: int| 0 <= i < code.len() implies cursor.bits[cursor.pos + i] == code[i] by {
        assert(cursor.bits.subrange(cursor.pos, cursor.pos + code.len())[i] == cursor.bits[cursor.pos + i]);
    }
    assert(code.len() >= 1 ==> cursor.bits[cursor.pos + 0] == code[0]);
    assert(code.len() >= 2 ==> cursor.bits[cursor.pos + 1] == code[1]);
    if cursor.remaining() >= 2 {
        lemma_two_bits(cursor.bits.subrange(cursor.pos, cursor.pos + 2));
    }
    if !is_leaf(entry) {
        let rest = word_path(table, payload(entry) as int, word, path.push(row))->0;
        assert(code == branch_bits(branch) + rest);
        let next = cursor.advance(2);
        assert(next.bits.subrange(next.pos, next.pos + rest.len()) =~= rest) by {
            assert forall|i: int| 0 <= i < rest.len() implies next.bits[next.pos + i] == rest[i] by {
                assert(cursor.bits[cursor.pos + (i + 2)] == code[i + 2]);
            }
        }
        lemma_path_nonempty(table, payload(entry) as int, word, path.push(row));
        lemma_path_decodes(table, payload(entry) as int, word, path.push(row), next);
    }
}

/// A codeword has at least one bit.
proof fn lemma_path_nonempty(table: Seq<[u16; 4]>, row: int, word: u16, path: Seq<int>)
    ensures
        word_path(table, row, word, path) matches Some(code) ==> code.len() >= 1,
{
}

/// Decoding gives back the word whose codeword stands at the cursor, and
/// consumes exactly that codeword.
pub proof fn lemma_codeword_decodes(table: Seq<[u16; 4]>, word: u16, cursor: BitCursor)
    requires
        pairs_one_bit_leaves(table),
        0 <= cursor.pos,
        codeword(table, word) matches Some(code) && cursor.pos + code.len() <= cursor.bits.len()
            && cursor.bits.subrange(cursor.pos, cursor.pos + code.len()) == code,
    ensures
        decode_word(table, 0, cursor) == (
            Ok::<u16, HuffmanError>(word),
            cursor.advance(codeword(table, word)->0.len() as int),
        ),
{
    lemma_path_decodes(table, 0, word, Seq::empty(), cursor);
}

/// Sequences of distinct row numbers are at most as long as rows can be named.
proof fn lemma_path_bound(path: Seq<int>)
    requires
        path.no_duplicates(),
        forall|i: int| 0 <= i < path.len() ==> 0 <= #[trigger] path[i] < 0x4000,
    ensures
        path.len() <= 0x4000,
{
    let range = vstd::set_lib::set_int_range(0, 0x4000);
    vstd::set_lib::lemma_int_range(0, 0x4000);
    path.unique_seq_to_set();
    assert(path.to_set().subset_of(range)) by {
        assert forall|x: int| path.to_set().contains(x) implies range.contains(x) by {
            let i = choose|i: int| 0 <= i < path.len() && path[i] == x;
            assert(0 <= path[i] < 0x4000);
        }
    }
    vstd::set_lib::lemma_len_subset(path.to_set(), range);
}

/// Whether an entry is a leaf, of one bit where `one_bit` asks for it, or a link
/// to a row from `low` on and below `high`.
pub open spec fn stratum_entry(entry: u16, low: int, high: int, one_bit: bool) -> bool {
    if is_leaf(entry) {
        one_bit ==> is_one_bit(entry)
    } else {
        low <= payload(entry) < high
    }
}

/// Whether all entries of a row are such leaves or links.
pub open spec fn stratum_row(row: [u16; 4], low: int, high: int, one_bit: bool) -> bool {
    &&& stratum_entry(row@[0], low, high, one_bit)
    &&& stratum_entry(row@[1], low, high, one_bit)
    &&& stratum_entry(row@[2], low, high, one_bit)
    &&& stratum_entry(row@[3], low, high, one_bit)
}

/// Whether that holds of a range of rows.
pub open spec fn stratum(table: Seq<[u16; 4]>, from: int, to: int, low: int, high: int, one_bit: bool) -> bool
    decreases to - from,
{
    if from >= to {
        true
    } else {
        stratum_row(table[from], low, high, one_bit) && stratum(table, from + 1, to, low, high, one_bit)
    }
}

/// Whether the one-bit leaves of a range of rows fill both entries.
pub open spec fn paired_range(table: Seq<[u16; 4]>, from: int, to: int) -> bool
    decreases to - from,
{
    if from >= to {
        true
    } else {
        row_pairs(table[from]) && paired_range(table, from + 1, to)
    }
}

/// What holds of a range of rows holds of each of them.
pub proof fn lemma_stratum(table: Seq<[u16; 4]>, from: int, to: int, low: int, high: int, one_bit: bool)
    requires
        stratum(table, from, to, low, high, one_bit),
    ensures
        forall|row: int| from <= row < to ==> stratum_row(#[trigger] table[row], low, high, one_bit),
    decreases to - from,
{
    if from < to {
        lemma_stratum(table, from + 1, to, low, high, one_bit);
    }
}

/// Pairing in a range of rows is pairing in each of them.
pub proof fn lemma_paired_range(table: Seq<[u16; 4]>, from: int, to: int)
    requires
        paired_range(table, from, to),
    ensures
        forall|row: int| from <= row < to ==> row_pairs(#[trigger] table[row]),
    decreases to - from,
{
    if from < to {
        lemma_paired_range(table, from + 1, to);
    }
}

/// Whether the codewords of `word` from a range of rows on have at most `bound`
/// bits.
pub open spec fn bounded_codewords(table: Seq<[u16; 4]>, low: int, high: int, word: u16, bound: int) -> bool {
    forall|row: int, path: Seq<int>|
        low <= row < high ==> (#[trigger] word_path(table, row, word, path) matches Some(code) ==> code.len() <= bound)
}

/// Rows that link only to bounded rows are bounded by two bits more.
pub proof fn lemma_bounded_step(
    table: Seq<[u16; 4]>,
    low: int,
    high: int,
    next_low: int,
    next_high: int,
    word: u16,
    bound: int,
)
    requires
        forall|row: int| low <= row < high ==> stratum_row(#[trigger] table[row], next_low, next_high, false),
        bounded_codewords(table, next_low, next_high, word, bound),
        bound >= 0,
    ensures
        bounded_codewords(table, low, high, word, bound + 2),
{
    assert forall|row: int, path: Seq<int>| low <= row < high implies (#[trigger] word_path(
        table,
        row,
        word,
        path,
    ) matches Some(code) ==> code.len() <= bound + 2) by {
        assert(stratum_row(table[row], next_low, next_high, false));
        lemma_bounded_branch(table, row, 0, next_low, next_high, word, path, bound);
        lemma_bounded_branch(table, row, 1, next_low, next_high, word, path, bound);
        lemma_bounded_branch(table, row, 2, next_low, next_high, word, path, bound);
        lemma_bounded_branch(table, row, 3, next_low, next_high, word, path, bound);
    }
}

proof fn lemma_bounded_branch(
    table: Seq<[u16; 4]>,
    row: int,
    branch: int,
    next_low: int,
    next_high: int,
    word: u16,
    path: Seq<int>,
    bound: int,
)
    requires
        stratum_entry(table[row]@[branch], next_low, next_high, false),
        bounded_codewords(table, next_low, next_high, word, bound),
        bound >= 0,
    ensures
        branch_path(table, row, branch, word, path) matches Some(code) ==> code.len() <= bound + 2,
{
    let entry = table[row]@[branch];
    if !is_leaf(entry) {
        assert(word_path(table, payload(entry) as int, word, path.push(row)) matches Some(code) ==> code.len() <= bound);
    }
}

/// Rows without links hold codewords of at most two bits, or of one bit where
/// all their leaves have one bit.
pub proof fn lemma_bounded_last(table: Seq<[u16; 4]>, low: int, high: int, word: u16, one_bit: bool)
    requires
        forall|row: int| low <= row < high ==> stratum_row(#[trigger] table[row], 0, 0, one_bit),
    ensures
        bounded_codewords(table, low, high, word, if one_bit { 1 } else { 2 }),
{
    assert forall|row: int, path: Seq<int>| low <= row < high implies (#[trigger] word_path(
        table,
        row,
        word,
        path,
    ) matches Some(code) ==> code.len() <= if one_bit { 1int } else { 2 }) by {
        assert(stratum_row(table[row], 0, 0, one_bit));
    }
}

/// A codeword of at most thirty-two bits is written as it is.
pub proof fn lemma_short_codeword(table: Seq<[u16; 4]>, word: u16)
    requires
        codeword(table, word) matches Some(code) ==> code.len() <= 32,
    ensures
        word_bits(table, word) == codeword(table, word),
{
    match codeword(table, word) {
        Some(code) => {
            lemma_bits_value_bound(code);
            lemma2_to64();
            if code.len() < 32 {
                lemma_pow2_strictly_increases(code.len(), 32);
            }
            lemma_bits_value_bits(code);
        },
        None => {},
    }
}

/// The shortest codeword is at most as long as one through a given branch.
pub proof fn lemma_branch_bounds(table: Seq<[u16; 4]>, row: int, branch: int, word: u16, path: Seq<int>)
    requires
        0 <= row < table.len(),
        0 <= branch < 4,
        !path.contains(row),
        path.len() < 0x4000,
        branch_path(table, row, branch, word, path) is Some,
    ensures
        word_path(table, row, word, path) matches Some(code) && code.len() <= branch_path(
            table,
            row,
            branch,
            word,
            path,
        )->0.len(),
{
}

/// The value of two bit sequences joined.
pub proof fn lemma_bits_value_concat(left: Seq<bool>, right: Seq<bool>)
    ensures
        bits_value(left + right) == bits_value(left) * pow2(right.len()) + bits_value(right),
    decreases right.len(),
{
    if right.len() == 0 {
        lemma2_to64();
        assert(left + right =~= left);
        assert(bits_value(left) * 1 == bits_value(left));
    } else {
        lemma_bits_value_concat(left, right.drop_last());
        assert((left + right).drop_last() =~= left + right.drop_last());
        lemma_pow2_unfold(right.len());
        let half = pow2((right.len() - 1) as nat);
        assert(2 * (bits_value(left) * half) == bits_value(left) * (2 * half)) by (nonlinear_arith);
    }
}

/// A codeword appended to the codeword so far, as a number of thirty-two bits.
spec fn extended_number(code: u32, rest: Seq<bool>) -> u32 {
    ((code * pow2(rest.len()) + bits_value(rest)) % 0x1_0000_0000) as u32
}

proof fn lemma_extended_number(code: u32, first: Seq<bool>, rest: Seq<bool>)
    ensures
        extended_number(extended_number(code, first), rest) == extended_number(code, first + rest),
{
    lemma_bits_value_concat(first, rest);
    let m = 0x1_0000_0000int;
    let shift = pow2(rest.len()) as int;
    let inner = code * pow2(first.len()) + bits_value(first);
    lemma_pow2_adds(first.len(), rest.len());
    assert(inner * shift == code * (pow2(first.len()) * shift) + bits_value(first) * shift) by (nonlinear_arith)
        requires
            inner == code * pow2(first.len()) + bits_value(first),
    ;
    assert((first + rest).len() == first.len() + rest.len());
    assert(inner * shift + bits_value(rest) == code * pow2((first + rest).len()) + bits_value(first + rest));
    let reduced = inner % m;
    vstd::arithmetic::div_mod::lemma_mul_mod_noop_left(inner, shift, m);
    vstd::arithmetic::div_mod::lemma_add_mod_noop(reduced * shift, bits_value(rest) as int, m);
    vstd::arithmetic::div_mod::lemma_add_mod_noop(inner * shift, bits_value(rest) as int, m);
    assert((reduced * shift + bits_value(rest)) % m == (inner * shift + bits_value(rest)) % m);
}

spec fn row_numbers(path: Seq<usize>) -> Seq<int> {
    path.map_values(|row: usize| row as int)
}

/// The shortest codeword through the first `count` branches of a row.
spec fn best_of_branches(table: Seq<[u16; 4]>, row: int, word: u16, path: Seq<int>, count: int) -> Option<Seq<bool>>
    decreases count,
{
    if count <= 0 {
        None
    } else {
        shorter(
            best_of_branches(table, row, word, path, count - 1),
            branch_path(table, row, count - 1, word, path),
        )
    }
}

/// What a search returns for the codeword that it found.
spec fn found(code: u32, consumed: usize, rest: Option<Seq<bool>>) -> Option<(u32, usize)> {
    match rest {
        Some(bits) => Some((extended_number(code, bits), (consumed + bits.len()) as usize)),
        None => None,
    }
}

/// A codeword is at most two bits for each row that can still be visited.
proof fn lemma_path_length(table: Seq<[u16; 4]>, row: int, word: u16, path: Seq<int>)
    ensures
        word_path(table, row, word, path) matches Some(code) ==> code.len() <= 2 * (0x4000 - path.len()),
    decreases 0x4000 - path.len(),
{
    if row < 0 || row >= table.len() || path.contains(row) || path.len() >= 0x4000 {
    } else {
        let deeper = path.push(row);
        lemma_path_length(table, payload(table[row]@[0]) as int, word, deeper);
        lemma_path_length(table, payload(table[row]@[1]) as int, word, deeper);
        lemma_path_length(table, payload(table[row]@[2]) as int, word, deeper);
        lemma_path_length(table, payload(table[row]@[3]) as int, word, deeper);
    }
}

fn on_path(path: &Vec<usize>, row: usize) -> (found: bool)
    ensures
        found == row_numbers(path@).contains(row as int),
{
    let mut index: usize = 0;
    while index < path.len()
        invariant
            index <= path@.len(),
            forall|i: int| 0 <= i < index ==> path@[i] != row,
        decreases path@.len() - index,
    {
        if path[index] == row {
            assert(row_numbers(path@)[index as int] == row as int);
            return true;
        }
        index = index + 1;
    }
    false
}

/// Searches the shortest codeword of `word` from a row on, behind the codeword
/// `code` of `consumed` bits that leads to the row.
fn visit(
    table: FdkHuffmanTable,
    row: usize,
    word: u16,
    code: u32,
    consumed: usize,
    path: &mut Vec<usize>,
) -> (result: Option<(u32, usize)>)
    requires
        row < 0x4000,
        row_numbers(old(path)@).no_duplicates(),
        forall|i: int| 0 <= i < old(path)@.len() ==> #[trigger] old(path)@[i] < 0x4000,
        consumed == 2 * old(path)@.len(),
    ensures
        final(path)@ == old(path)@,
        result == found(code, consumed, word_path(table@, row as int, word, row_numbers(old(path)@))),
    decreases 0x4000 - old(path)@.len(),
{
    let ghost rows = row_numbers(path@);
    if row >= table.len() || on_path(path, row) {
        return None;
    }
    proof {
        assert forall|i: int| 0 <= i < rows.push(row as int).len() implies 0 <= #[trigger] rows.push(row as int)[i]
            < 0x4000 by {
            if i < rows.len() {
                assert(rows[i] == path@[i] as int);
            }
        }
        lemma_path_bound(rows.push(row as int));
    }
    path.push(row);
    assert(row_numbers(path@) =~= rows.push(row as int));
    let ghost deeper = path@;
    let mut best: Option<(u32, usize)> = None;
    let mut branch: usize = 0;
    while branch < 4
        invariant
            branch <= 4,
            row < table@.len(),
            row < 0x4000,
            rows.len() < 0x4000,
            rows == row_numbers(old(path)@),
            deeper == old(path)@.push(row),
            path@ == deeper,
            row_numbers(deeper) == rows.push(row as int),
            row_numbers(deeper).no_duplicates(),
            forall|i: int| 0 <= i < deeper.len() ==> #[trigger] deeper[i] < 0x4000,
            consumed == 2 * rows.len(),
            best == found(code, consumed, best_of_branches(table@, row as int, word, rows, branch as int)),
            best_of_branches(table@, row as int, word, rows, branch as int) matches Some(bits) ==> bits.len() <= 0x8000,
        decreases 4 - branch,
    {
        let entry: u16 = table[row][branch];
        let ghost here = branch_path(table@, row as int, branch as int, word, rows);
        let number: u32 = (code << 2) | (branch as u32);
        proof {
            let b = branch as u32;
            assert(((code << 2) | b) == (code * 4 + b) % 0x1_0000_0000) by (bit_vector)
                requires
                    b < 4,
            ;
            let half = b / 2;
            assert(((code << 1) | (b >> 1)) == (code * 2 + (b / 2)) % 0x1_0000_0000) by (bit_vector)
                requires
                    b < 4,
            ;
            lemma2_to64();
            lemma_two_bits(branch_bits(branch as int));
            assert(extended_number(code, branch_bits(branch as int)) == number);
            let single = seq![branch >= 2];
            assert(single.drop_last() =~= Seq::<bool>::empty());
            assert(bits_value(single.drop_last()) == 0);
            assert(bits_value(single) == b / 2);
            assert(extended_number(code, single) == ((code << 1) | (b >> 1)));
            lemma_path_length(table@, payload(entry) as int, word, row_numbers(deeper));
        }
        let candidate: Option<(u32, usize)> = if entry % 2 != 0 {
            if entry / 4 == word {
                if (entry / 2) % 2 != 0 {
                    Some(((code << 1) | (branch as u32 >> 1), consumed + 1))
                } else {
                    Some((number, consumed + 2))
                }
            } else {
                None
            }
        } else {
            let rest = visit(table, (entry / 4) as usize, word, number, consumed + 2, path);
            proof {
                match word_path(table@, payload(entry) as int, word, row_numbers(deeper)) {
                    Some(bits) => {
                        lemma_extended_number(code, branch_bits(branch as int), bits);
                    },
                    None => {},
                }
            }
            rest
        };
        assert(candidate == found(code, consumed, here));
        assert(here matches Some(bits) ==> bits.len() <= 0x8000);
        best = match (best, candidate) {
            (Some(older), Some(newer)) => if newer.1 < older.1 {
                Some(newer)
            } else {
                Some(older)
            },
            (None, other) => other,
            (Some(older), None) => Some(older),
        };
        branch = branch + 1;
    }
    let _ = path.pop();
    assert(path@ =~= old(path)@);
    proof {
        reveal_with_fuel(best_of_branches, 5);
    }
    best
}

/// The codeword of a word as a number and its length in bits.
pub fn fdk_huffman_word_code(table: FdkHuffmanTable, word: u16) -> (result: Option<(u32, usize)>)
    ensures
        match codeword(table@, word) {
            Some(code) => result == Some((code_number(code), code.len() as usize)) && code.len() <= 0x8000,
            None => result is None,
        },
{
    let mut path: Vec<usize> = Vec::new();
    assert(row_numbers(path@) =~= Seq::<int>::empty());
    proof {
        lemma_path_length(table@, 0, word, Seq::empty());
    }
    visit(table, 0, word, 0, 0, &mut path)
}

/// The length of the codeword of a word.
pub fn fdk_huffman_word_length(table: FdkHuffmanTable, word: u16) -> (result: Option<usize>)
    ensures
        match codeword(table@, word) {
            Some(code) => result == Some(code.len() as usize) && code.len() <= 0x8000,
            None => result is None,
        },
{
    match fdk_huffman_word_code(table, word) {
        Some((_, length)) => Some(length),
        None => None,
    }
}

/// Appends the codeword of a word and gives its length.
pub fn write_fdk_huffman_word(writer: &mut BitWriter, table: FdkHuffmanTable, word: u16) -> (result: Result<
    usize,
    HuffmanError,
>)
    ensures
        match word_bits(table@, word) {
            Some(code) => final(writer)@ == old(writer)@ + code && result == Ok::<usize, HuffmanError>(
                code.len() as usize,
            ) && code.len() <= 0x8000,
            None => final(writer)@ == old(writer)@ && result == Err::<usize, HuffmanError>(
                HuffmanError::UnrepresentableWord(word),
            ),
        },
{
    match fdk_huffman_word_code(table, word) {
        Some((code, length)) => {
            proof {
                lemma_value_bits_len(code as nat, length as nat);
            }
            writer.write(code, length);
            Ok(length)
        },
        None => Err(HuffmanError::UnrepresentableWord(word)),
    }
}

/// Decodes one word from a two-bit stepping table.
///
/// Each entry either links to another row or holds a leaf. A leaf that takes
/// only one of the two bits leaves the other one unread.
pub fn decode_fdk_2bit(reader: &mut BitReader<'_>, table: FdkHuffmanTable) -> (result: Result<u16, HuffmanError>)
    ensures
        (result, final(reader)@) == decode_word(table@, 0, old(reader)@),
        old(reader)@.leads_to(final(reader)@),
{
    let mut index: usize = 0;
    let mut remaining: usize = reader.remaining_bits();
    let _ = reader.bits_read();
    loop
        invariant
            old(reader)@.leads_to(reader@),
            remaining == reader@.remaining(),
            decode_word(table@, index as int, reader@) == decode_word(table@, 0, old(reader)@),
        decreases remaining,
    {
        let ghost here = reader@;
        if index >= table.len() {
            return Err(HuffmanError::InvalidTableIndex(index));
        }
        if remaining == 1 {
            match reader.read_bool() {
                Ok(first) => {
                    let low: u16 = table[index][if first {
                        2
                    } else {
                        0
                    }];
                    let high: u16 = table[index][if first {
                        3
                    } else {
                        1
                    }];
                    if low == high && low % 2 == 1 && (low / 2) % 2 == 1 {
                        return Ok(low / 4);
                    }
                    return Err(HuffmanError::Bit(BitError::UnexpectedEof { needed_bits: 2, remaining_bits: 1 }));
                },
                Err(error) => {
                    return Err(HuffmanError::Bit(error));
                },
            }
        }
        match reader.read_u8(2) {
            Ok(bits) => {
                proof {
                    lemma_two_bits(here.bits.subrange(here.pos, here.pos + 2));
                }
                let entry: u16 = table[index][bits as usize];
                if entry % 2 != 0 {
                    if (entry / 2) % 2 != 0 {
                        match reader.push_back(1) {
                            Ok(()) => {},
                            Err(error) => {
                                return Err(HuffmanError::Bit(error));
                            },
                        }
                    }
                    return Ok(entry / 4);
                }
                index = (entry / 4) as usize;
                remaining = remaining - 2;
            },
            Err(error) => {
                return Err(HuffmanError::Bit(error));
            },
        }
    }
}

// ---------------------------------------------------------------------------
// Spectral tuples
// ---------------------------------------------------------------------------

/// Whether a number names a spectral codebook.
pub open spec fn is_spectral(codebook: u8) -> bool {
    1 <= codebook <= 11
}

/// The table of a spectral codebook.
pub open spec fn spectral_table(codebook: u8) -> Seq<[u16; 4]> {
    if codebook == 1 {
        rows_1()
    } else if codebook == 2 {
        rows_2()
    } else if codebook == 3 {
        rows_3()
    } else if codebook == 4 {
        rows_4()
    } else if codebook == 5 {
        rows_5()
    } else if codebook == 6 {
        rows_6()
    } else if codebook == 7 {
        rows_7()
    } else if codebook == 8 {
        rows_8()
    } else if codebook == 9 {
        rows_9()
    } else if codebook == 10 {
        rows_10()
    } else {
        rows_11()
    }
}

/// The number of coefficients in a tuple of a spectral codebook.
pub open spec fn tuple_dimension(codebook: u8) -> int {
    if codebook <= 4 {
        4
    } else {
        2
    }
}

/// The number of bits that a coefficient takes in a table word.
pub open spec fn coefficient_bits(codebook: u8) -> int {
    if codebook <= 4 {
        2
    } else if codebook <= 10 {
        4
    } else {
        5
    }
}

/// The number of values that a coefficient of a table word can take.
pub open spec fn coefficient_base(codebook: u8) -> int {
    if codebook <= 4 {
        4
    } else if codebook <= 10 {
        16
    } else {
        32
    }
}

/// What is added to the coefficients of a signed codebook; zero for the
/// codebooks that hold magnitudes.
pub open spec fn coefficient_offset(codebook: u8) -> int {
    if codebook <= 2 {
        1
    } else if codebook == 5 || codebook == 6 {
        4
    } else {
        0
    }
}

/// The magnitude of a coefficient.
pub open spec fn magnitude(coefficient: i32) -> nat {
    if coefficient < 0 {
        (-coefficient) as nat
    } else {
        coefficient as nat
    }
}

/// The weight of the leading binary digit of a positive number.
pub open spec fn leading_exponent(value: nat) -> nat
    decreases value,
{
    if value < 2 {
        0
    } else {
        1 + leading_exponent(value / 2)
    }
}

/// What stands for a coefficient in a table word, where the codebook can
/// represent the coefficient.
pub open spec fn stored_coefficient(codebook: u8, coefficient: i32) -> Option<nat> {
    if coefficient_offset(codebook) > 0 {
        let shifted = coefficient + coefficient_offset(codebook);
        if 0 <= shifted < coefficient_base(codebook) {
            Some(shifted as nat)
        } else {
            None
        }
    } else if codebook == 11 {
        if magnitude(coefficient) >= 8192 {
            None
        } else if magnitude(coefficient) > 16 {
            Some(16)
        } else {
            Some(magnitude(coefficient))
        }
    } else if magnitude(coefficient) < coefficient_base(codebook) {
        Some(magnitude(coefficient))
    } else {
        None
    }
}

/// The table word of a tuple of a codebook, first coefficient lowest.
pub open spec fn packed_word(codebook: u8, stored: Seq<nat>) -> nat {
    if tuple_dimension(codebook) == 4 {
        stored[0] + 4 * stored[1] + 16 * stored[2] + 64 * stored[3]
    } else {
        stored[0] + (coefficient_base(codebook) as nat) * stored[1]
    }
}

/// The table word of a tuple, where the codebook can represent the tuple.
pub open spec fn tuple_word(codebook: u8, coefficients: Seq<i32>) -> Option<u16> {
    if forall|i: int| 0 <= i < coefficients.len() ==> stored_coefficient(codebook, #[trigger] coefficients[i]) is Some {
        Some(
            packed_word(
                codebook,
                coefficients.map_values(|coefficient: i32| stored_coefficient(codebook, coefficient)->0),
            ) as u16,
        )
    } else {
        None
    }
}

/// The sign bits of the non-zero coefficients of a tuple.
pub open spec fn sign_bits(coefficients: Seq<i32>) -> Seq<bool>
    decreases coefficients.len(),
{
    if coefficients.len() == 0 {
        Seq::empty()
    } else if coefficients.last() == 0 {
        sign_bits(coefficients.drop_last())
    } else {
        sign_bits(coefficients.drop_last()).push(coefficients.last() < 0)
    }
}

/// The escape sequence of a magnitude from sixteen on: as many ones as the
/// leading weight exceeds four, a zero, and the digits below the leading one.
pub open spec fn escape_sequence(value: nat) -> Seq<bool> {
    let exponent = leading_exponent(value);
    Seq::new((exponent - 4) as nat, |i: int| true).push(false) + value_bits(
        (value - pow2(exponent)) as nat,
        exponent,
    )
}

/// The escape sequences of a tuple.
pub open spec fn escape_bits(coefficients: Seq<i32>) -> Seq<bool>
    decreases coefficients.len(),
{
    if coefficients.len() == 0 {
        Seq::empty()
    } else if magnitude(coefficients.last()) >= 16 {
        escape_bits(coefficients.drop_last()) + escape_sequence(magnitude(coefficients.last()))
    } else {
        escape_bits(coefficients.drop_last())
    }
}

/// What follows the codeword of a tuple: signs where the codebook holds
/// magnitudes, escapes where it is the escape codebook.
pub open spec fn side_bits(codebook: u8, coefficients: Seq<i32>) -> Seq<bool> {
    (if coefficient_offset(codebook) == 0 {
        sign_bits(coefficients)
    } else {
        Seq::empty()
    }) + (if codebook == 11 {
        escape_bits(coefficients)
    } else {
        Seq::empty()
    })
}

/// The bits of a tuple in a spectral codebook, where it has any.
pub open spec fn tuple_bits(codebook: u8, coefficients: Seq<i32>) -> Option<Seq<bool>> {
    if !is_spectral(codebook) || coefficients.len() != tuple_dimension(codebook) {
        None
    } else {
        match tuple_word(codebook, coefficients) {
            Some(word) => match word_bits(spectral_table(codebook), word) {
                Some(code) => Some(code + side_bits(codebook, coefficients)),
                None => None,
            },
            None => None,
        }
    }
}

/// The stepping table of a spectral codebook.
fn stepping_table(codebook: u8) -> (table: FdkHuffmanTable)
    requires
        is_spectral(codebook),
    ensures
        table@ == spectral_table(codebook),
{
    if codebook == 1 {
        table_1()
    } else if codebook == 2 {
        table_2()
    } else if codebook == 3 {
        table_3()
    } else if codebook == 4 {
        table_4()
    } else if codebook == 5 {
        table_5()
    } else if codebook == 6 {
        table_6()
    } else if codebook == 7 {
        table_7()
    } else if codebook == 8 {
        table_8()
    } else if codebook == 9 {
        table_9()
    } else if codebook == 10 {
        table_10()
    } else {
        table_11()
    }
}

/// The description of a spectral codebook.
pub fn spectral_codebook(codebook: u8) -> (result: Result<CodeBookDescription, HuffmanError>)
    ensures
        is_spectral(codebook) ==> (result matches Ok(description) && description.table@ == spectral_table(codebook)
            && description.dimension == tuple_dimension(codebook) && description.num_bits == coefficient_bits(codebook)
            && description.offset == coefficient_offset(codebook)),
        !is_spectral(codebook) ==> result == Err::<CodeBookDescription, HuffmanError>(
            HuffmanError::InvalidCodebook(codebook),
        ),
{
    let (dimension, num_bits, offset): (u8, u8, u8) = match codebook {
        1 | 2 => (4, 2, 1),
        3 | 4 => (4, 2, 0),
        5 | 6 => (2, 4, 4),
        7 | 8 | 9 | 10 => (2, 4, 0),
        11 => (2, 5, 0),
        _ => {
            return Err(HuffmanError::InvalidCodebook(codebook));
        },
    };
    Ok(CodeBookDescription { table: stepping_table(codebook), dimension, num_bits, offset })
}

/// The magnitude of a coefficient.
pub fn coefficient_magnitude(coefficient: i32) -> (result: u32)
    ensures
        result == magnitude(coefficient),
{
    if coefficient < 0 {
        (-(coefficient as i64)) as u32
    } else {
        coefficient as u32
    }
}

/// The bounds of the leading weight of a positive number.
pub proof fn lemma_leading_exponent(value: nat)
    requires
        value >= 1,
    ensures
        pow2(leading_exponent(value)) <= value < 2 * pow2(leading_exponent(value)),
    decreases value,
{
    if value < 2 {
        lemma2_to64();
    } else {
        lemma_leading_exponent(value / 2);
        lemma_pow2_unfold(leading_exponent(value));
    }
}

/// The leading weight is the only one whose power brackets a number.
pub proof fn lemma_leading_exponent_unique(value: nat, exponent: nat)
    requires
        pow2(exponent) <= value < 2 * pow2(exponent),
    ensures
        leading_exponent(value) == exponent,
    decreases exponent,
{
    lemma2_to64();
    if exponent > 0 {
        lemma_pow2_unfold(exponent);
        lemma_pow2_pos((exponent - 1) as nat);
        lemma_leading_exponent_unique(value / 2, (exponent - 1) as nat);
    }
}

/// The weight of the leading binary digit of a positive number.
pub fn leading_weight(value: u32) -> (exponent: u32)
    requires
        value >= 1,
    ensures
        exponent == leading_exponent(value as nat),
        exponent < 32,
        pow2(exponent as nat) <= value < 2 * pow2(exponent as nat),
{
    let mut rest: u32 = value;
    let mut exponent: u32 = 0;
    proof {
        lemma_leading_exponent(value as nat);
        if leading_exponent(value as nat) >= 32 {
            lemma2_to64();
            if leading_exponent(value as nat) > 32 {
                lemma_pow2_strictly_increases(32, leading_exponent(value as nat));
            }
        }
    }
    while rest >= 2
        invariant
            rest >= 1,
            exponent + leading_exponent(rest as nat) == leading_exponent(value as nat),
            leading_exponent(value as nat) < 32,
        decreases rest,
    {
        rest = rest / 2;
        exponent = exponent + 1;
    }
    exponent
}

/// What stands for a coefficient in a table word.
fn stored_value(codebook: u8, coefficient: i32) -> (result: Option<u16>)
    requires
        is_spectral(codebook),
    ensures
        match stored_coefficient(codebook, coefficient) {
            Some(stored) => result == Some(stored as u16) && stored < coefficient_base(codebook),
            None => result is None,
        },
{
    let magnitude: u32 = coefficient_magnitude(coefficient);
    if codebook <= 2 || codebook == 5 || codebook == 6 {
        let offset: i32 = if codebook <= 2 {
            1
        } else {
            4
        };
        let base: i32 = if codebook <= 2 {
            4
        } else {
            16
        };
        if coefficient < -offset || coefficient > base - 1 - offset {
            None
        } else {
            Some((coefficient + offset) as u16)
        }
    } else if codebook == 11 {
        if magnitude >= 8192 {
            None
        } else if magnitude > 16 {
            Some(16)
        } else {
            Some(magnitude as u16)
        }
    } else {
        let base: u32 = if codebook <= 4 {
            4
        } else {
            16
        };
        if magnitude < base {
            Some(magnitude as u16)
        } else {
            None
        }
    }
}

/// The table word of a tuple.
fn pack_tuple(codebook: u8, coefficients: &[i32]) -> (result: Option<u16>)
    requires
        is_spectral(codebook),
        coefficients@.len() == tuple_dimension(codebook),
    ensures
        result == tuple_word(codebook, coefficients@),
{
    let ghost stored = coefficients@.map_values(
        |coefficient: i32| stored_coefficient(codebook, coefficient)->0,
    );
    let first: u16 = match stored_value(codebook, coefficients[0]) {
        Some(value) => value,
        None => {
            return None;
        },
    };
    let second: u16 = match stored_value(codebook, coefficients[1]) {
        Some(value) => value,
        None => {
            return None;
        },
    };
    if codebook <= 4 {
        let third: u16 = match stored_value(codebook, coefficients[2]) {
            Some(value) => value,
            None => {
                return None;
            },
        };
        let fourth: u16 = match stored_value(codebook, coefficients[3]) {
            Some(value) => value,
            None => {
                return None;
            },
        };
        Some(first + 4 * second + 16 * third + 64 * fourth)
    } else if codebook <= 10 {
        Some(first + 16 * second)
    } else {
        Some(first + 32 * second)
    }
}

/// The number of bits that one spectral tuple takes, signs and escapes
/// counted; `None` where the codebook cannot represent the tuple.
pub fn spectral_tuple_bit_cost(codebook: u8, coefficients: &[i32]) -> (cost: Option<usize>)
    ensures
        match tuple_bits(codebook, coefficients@) {
            Some(bits) => cost == Some(bits.len() as usize) && bits.len() <= 0x9000,
            None => cost is None,
        },
{
    let description = match spectral_codebook(codebook) {
        Ok(description) => description,
        Err(_) => {
            return None;
        },
    };
    if coefficients.len() != description.dimension as usize {
        return None;
    }
    let word: u16 = match pack_tuple(codebook, coefficients) {
        Some(word) => word,
        None => {
            return None;
        },
    };
    let mut signs: usize = 0;
    let mut escapes: usize = 0;
    let mut index: usize = 0;
    while index < coefficients.len()
        invariant
            index <= coefficients@.len() <= 4,
            is_spectral(codebook),
            forall|i: int|
                0 <= i < coefficients@.len() ==> stored_coefficient(codebook, #[trigger] coefficients@[i]) is Some,
            signs == sign_bits(coefficients@.take(index as int)).len(),
            signs <= index,
            codebook == 11 ==> escapes == escape_bits(coefficients@.take(index as int)).len(),
            codebook != 11 ==> escapes == 0,
            escapes <= index * 32,
        decreases coefficients@.len() - index,
    {
        let magnitude: u32 = coefficient_magnitude(coefficients[index]);
        let ghost longer = coefficients@.take(index + 1);
        assert(longer.drop_last() =~= coefficients@.take(index as int));
        assert(longer.last() == coefficients@[index as int]);
        assert(stored_coefficient(codebook, coefficients@[index as int]) is Some);
        if magnitude != 0 {
            signs = signs + 1;
        }
        if codebook == 11 && magnitude >= 16 {
            let exponent: u32 = leading_weight(magnitude);
            proof {
                lemma_escape_length(magnitude as nat);
            }
            escapes = escapes + (2 * (exponent as usize - 4) + 5);
        }
        index = index + 1;
    }
    assert(coefficients@.take(index as int) =~= coefficients@);
    proof {
        match codeword(spectral_table(codebook), word) {
            Some(code) => {
                lemma_value_bits_len(code_number(code) as nat, code.len());
            },
            None => {},
        }
    }
    match fdk_huffman_word_length(description.table, word) {
        Some(length) => Some(
            length + escapes + if description.offset == 0 {
                signs
            } else {
                0
            },
        ),
        None => None,
    }
}

/// The length of the escape sequence of a representable magnitude.
pub proof fn lemma_escape_length(value: nat)
    requires
        16 <= value < 8192,
    ensures
        4 <= leading_exponent(value) <= 12,
        escape_sequence(value).len() == 2 * (leading_exponent(value) - 4) + 5,
{
    lemma2_to64();
    lemma_leading_exponent(value);
    let exponent = leading_exponent(value);
    if exponent < 4 {
        lemma_pow2_strictly_increases(exponent, 4);
        lemma_pow2_unfold(exponent + 1);
        if exponent + 1 < 4 {
            lemma_pow2_strictly_increases(exponent + 1, 4);
        }
    }
    if exponent > 12 {
        if exponent > 13 {
            lemma_pow2_strictly_increases(13, exponent);
        }
    }
    lemma_value_bits_len((value - pow2(exponent)) as nat, exponent);
}

/// Appends one spectral tuple and gives the number of bits that it takes.
pub fn write_spectral_tuple(writer: &mut BitWriter, codebook: u8, coefficients: &[i32]) -> (result: Result<
    usize,
    HuffmanError,
>)
    ensures
        match tuple_bits(codebook, coefficients@) {
            Some(bits) => final(writer)@ == old(writer)@ + bits && result == Ok::<usize, HuffmanError>(
                bits.len() as usize,
            ) && bits.len() <= 0x9000,
            None => final(writer)@ == old(writer)@ && result == Err::<usize, HuffmanError>(
                if !is_spectral(codebook) {
                    HuffmanError::InvalidCodebook(codebook)
                } else if coefficients@.len() != tuple_dimension(codebook) {
                    HuffmanError::InvalidTupleDimension {
                        expected: tuple_dimension(codebook) as u8,
                        actual: coefficients@.len() as usize,
                    }
                } else {
                    HuffmanError::UnrepresentableTuple(codebook)
                },
            ),
        },
{
    let description = match spectral_codebook(codebook) {
        Ok(description) => description,
        Err(error) => {
            return Err(error);
        },
    };
    if coefficients.len() != description.dimension as usize {
        return Err(
            HuffmanError::InvalidTupleDimension { expected: description.dimension, actual: coefficients.len() },
        );
    }
    let expected: usize = match spectral_tuple_bit_cost(codebook, coefficients) {
        Some(expected) => expected,
        None => {
            return Err(HuffmanError::UnrepresentableTuple(codebook));
        },
    };
    let word: u16 = match pack_tuple(codebook, coefficients) {
        Some(word) => word,
        None => {
            return Err(HuffmanError::UnrepresentableTuple(codebook));
        },
    };
    match write_fdk_huffman_word(writer, description.table, word) {
        Ok(_) => {},
        Err(error) => {
            return Err(error);
        },
    }
    let ghost code = word_bits(spectral_table(codebook), word)->0;
    let ghost base = writer@;
    if description.offset == 0 {
        let mut index: usize = 0;
        assert(base + sign_bits(coefficients@.take(0)) =~= base);
        while index < coefficients.len()
            invariant
                index <= coefficients@.len(),
                writer@ == base + sign_bits(coefficients@.take(index as int)),
            decreases coefficients@.len() - index,
        {
            let coefficient: i32 = coefficients[index];
            let ghost longer = coefficients@.take(index + 1);
            assert(longer.drop_last() =~= coefficients@.take(index as int));
            assert(longer.last() == coefficient);
            if coefficient != 0 {
                writer.write_bool(coefficient < 0);
            }
            assert(writer@ =~= base + sign_bits(longer));
            index = index + 1;
        }
        assert(coefficients@.take(index as int) =~= coefficients@);
    }
    let ghost signed = writer@;
    if codebook == 11 {
        let mut index: usize = 0;
        assert(signed + escape_bits(coefficients@.take(0)) =~= signed);
        while index < coefficients.len()
            invariant
                index <= coefficients@.len(),
                forall|i: int|
                    0 <= i < coefficients@.len() ==> stored_coefficient(11, #[trigger] coefficients@[i]) is Some,
                writer@ == signed + escape_bits(coefficients@.take(index as int)),
            decreases coefficients@.len() - index,
        {
            let magnitude: u32 = coefficient_magnitude(coefficients[index]);
            let ghost longer = coefficients@.take(index + 1);
            assert(longer.drop_last() =~= coefficients@.take(index as int));
            assert(longer.last() == coefficients@[index as int]);
            let ghost before = writer@;
            if magnitude >= 16 {
                assert(stored_coefficient(11, coefficients@[index as int]) is Some);
                proof {
                    lemma_escape_length(magnitude as nat);
                }
                write_escape(writer, magnitude);
            }
            assert(writer@ =~= signed + escape_bits(longer));
            index = index + 1;
        }
        assert(coefficients@.take(index as int) =~= coefficients@);
    }
    assert(writer@ =~= old(writer)@ + (code + side_bits(codebook, coefficients@)));
    Ok(expected)
}

/// Appends the escape sequence of a magnitude.
fn write_escape(writer: &mut BitWriter, magnitude: u32)
    requires
        16 <= magnitude < 8192,
    ensures
        final(writer)@ == old(writer)@ + escape_sequence(magnitude as nat),
{
    let exponent: u32 = leading_weight(magnitude);
    proof {
        lemma_escape_length(magnitude as nat);
        lemma_pow2_strictly_increases(exponent as nat, 13);
        lemma2_to64();
        vstd::bits::lemma_u32_shl_is_mul(1u32, exponent);
    }
    let mut index: u32 = 4;
    let ghost ones = Seq::new((exponent - 4) as nat, |i: int| true);
    assert(old(writer)@ + ones.take(0) =~= old(writer)@);
    while index < exponent
        invariant
            4 <= index <= exponent,
            ones == Seq::new((exponent - 4) as nat, |i: int| true),
            writer@ == old(writer)@ + ones.take(index - 4),
        decreases exponent - index,
    {
        writer.write_bool(true);
        assert(old(writer)@ + ones.take(index - 3) =~= (old(writer)@ + ones.take(index - 4)).push(true));
        index = index + 1;
    }
    assert(ones.take(exponent - 4) =~= ones);
    writer.write_bool(false);
    writer.write(magnitude - (1 << exponent), exponent as usize);
    assert(writer@ =~= old(writer)@ + escape_sequence(magnitude as nat));
}

} // verus!
