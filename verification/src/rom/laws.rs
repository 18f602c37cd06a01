//! What is written in a table is read from it.

use vstd::prelude::*;

use super::pieces::{lead_width, piece_end, pieces, pieces_from, trail_width, trimmed, without_lead, without_trail};
use super::tables::{decimal_number, digit_run, numbers_from, pairs_from, small_number, words_from};
use super::text::{found_from, hex_digit, hex_limit, hex_number, lemma_found, occurs_at, signed_word};

verus! {

// ---------------------------------------------------------------------------
// Words
// ---------------------------------------------------------------------------

/// The byte of a hexadecimal digit, in capitals or not.
pub open spec fn hex_byte(digit: nat, capital: bool) -> u8 {
    if digit < 10 {
        (0x30 + digit) as u8
    } else if capital {
        (0x41 + digit - 10) as u8
    } else {
        (0x61 + digit - 10) as u8
    }
}

/// The last `count` hexadecimal digits of a number, the highest first.
pub open spec fn hex_bytes(value: nat, count: nat, capital: bool) -> Seq<u8>
    decreases count,
{
    if count == 0 {
        Seq::empty()
    } else {
        hex_bytes(value / 16, (count - 1) as nat, capital).push(hex_byte(value % 16, capital))
    }
}

proof fn lemma_hex_last(digits: Seq<u8>, before: nat)
    requires
        digits.len() > 0,
    ensures
        hex_number(digits, before) == (match (hex_number(digits.drop_last(), before), hex_digit(digits.last())) {
            (Some(high), Some(low)) => Some(high * 16 + low),
            _ => None,
        }),
    decreases digits.len(),
{
    if digits.len() == 1 {
        assert(digits.drop_last() =~= Seq::<u8>::empty());
        assert(digits.skip(1) =~= Seq::<u8>::empty());
        match hex_digit(digits[0]) {
            Some(digit) => {
                assert(hex_number(digits.skip(1), before * 16 + digit) == Some(before * 16 + digit));
            },
            None => {},
        }
    } else {
        let rest = digits.skip(1);
        assert(rest.drop_last() =~= digits.drop_last().skip(1));
        assert(rest.last() == digits.last());
        match hex_digit(digits[0]) {
            Some(digit) => {
                lemma_hex_last(rest, before * 16 + digit);
            },
            None => {},
        }
    }
}

/// A number written with enough hexadecimal digits reads back.
pub proof fn lemma_hex_read_back(value: nat, count: nat, capital: bool)
    requires
        value < hex_limit(count),
    ensures
        hex_bytes(value, count, capital).len() == count,
        hex_number(hex_bytes(value, count, capital), 0) == Some(value),
        forall|i: int| 0 <= i < count ==> hex_digit(#[trigger] hex_bytes(value, count, capital)[i]) is Some,
    decreases count,
{
    if count > 0 {
        lemma_hex_read_back(value / 16, (count - 1) as nat, capital);
        let digits = hex_bytes(value, count, capital);
        lemma_hex_last(digits, 0);
        assert(digits.drop_last() =~= hex_bytes(value / 16, (count - 1) as nat, capital));
    }
}

/// A word of 32 bits and the signed number taken for it differ by a multiple of all the
/// numbers that such a word can hold.
pub proof fn lemma_signed_word(word: nat)
    requires
        word < 0x1_0000_0000,
    ensures
        signed_word(word) == word || signed_word(word) == word - 0x1_0000_0000,
        signed_word(word) < 0 ==> word == signed_word(word) + 0x1_0000_0000,
        signed_word(word) >= 0 ==> word == signed_word(word),
{
}

proof fn lemma_run_of(text: Seq<u8>, count: nat)
    requires
        count <= text.len(),
        forall|i: int| 0 <= i < count ==> hex_digit(#[trigger] text[i]) is Some,
        count < text.len() ==> hex_digit(text[count as int]) is None,
    ensures
        digit_run(text) == count,
    decreases count,
{
    if count > 0 {
        assert(hex_digit(text[0]) is Some);
        let rest = text.skip(1);
        assert forall|i: int| 0 <= i < count - 1 implies hex_digit(#[trigger] rest[i]) is Some by {
            assert(rest[i] == text[i + 1]);
        }
        lemma_run_of(rest, (count - 1) as nat);
    }
}

/// Whether a piece begins with the eight digits of a word, and no digit follows them.
pub open spec fn holds_word(piece: Seq<u8>, word: u32, capital: bool) -> bool {
    &&& piece.len() >= 8
    &&& piece.take(8) == hex_bytes(word as nat, 8, capital)
    &&& piece.len() > 8 ==> hex_digit(piece[8]) is None
}

proof fn lemma_word_found(piece: Seq<u8>, word: u32, capital: bool)
    requires
        holds_word(piece, word, capital),
    ensures
        digit_run(piece) == 8,
        hex_number(piece.take(8), 0) == Some(word as nat),
{
    assert(hex_limit(8) == 0x1_0000_0000) by {
        reveal_with_fuel(hex_limit, 9);
    }
    lemma_hex_read_back(word as nat, 8, capital);
    assert forall|i: int| 0 <= i < 8 implies hex_digit(#[trigger] piece[i]) is Some by {
        assert(piece.take(8)[i] == piece[i]);
    }
    lemma_run_of(piece, 8);
}

/// Pieces that each begin with a word read back as those words, in their order.
pub proof fn lemma_words_read_back(list: Seq<Seq<u8>>, index: int, before: Seq<i32>, words: Seq<u32>, capital: bool)
    requires
        0 <= index,
        index + words.len() == list.len(),
        forall|i: int| 0 <= i < words.len() ==> holds_word(list[index + i], #[trigger] words[i], capital),
    ensures
        words_from(list, index, before) == before + words.map_values(|word: u32| signed_word(word as nat)),
    decreases words.len(),
{
    let signed = words.map_values(|word: u32| signed_word(word as nat));
    if words.len() == 0 {
        assert(before + signed =~= before);
    } else {
        assert(holds_word(list[index + 0], words[0], capital));
        lemma_word_found(list[index], words[0], capital);
        let rest = words.skip(1);
        assert forall|i: int| 0 <= i < rest.len() implies holds_word(list[index + 1 + i], #[trigger] rest[i], capital) by {
            assert(rest[i] == words[i + 1]);
            assert(holds_word(list[index + (i + 1)], words[i + 1], capital));
        }
        let longer = before.push(signed_word(words[0] as nat));
        lemma_words_read_back(list, index + 1, longer, rest, capital);
        assert(longer + rest.map_values(|word: u32| signed_word(word as nat)) =~= before + signed);
    }
}

// ---------------------------------------------------------------------------
// Pieces
// ---------------------------------------------------------------------------

/// Pieces with a separator between each two.
pub open spec fn joined(list: Seq<Seq<u8>>, separator: Seq<u8>) -> Seq<u8>
    decreases list.len(),
{
    if list.len() == 0 {
        Seq::empty()
    } else if list.len() == 1 {
        list[0]
    } else {
        joined(list.drop_last(), separator) + separator + list.last()
    }
}

/// Whether a separator occurs nowhere in a piece.
pub open spec fn unbroken(piece: Seq<u8>, separator: Seq<u8>) -> bool {
    forall|at: int| !#[trigger] occurs_at(piece, separator, at)
}

proof fn lemma_pieces_behind(text: Seq<u8>, separator: Seq<u8>, from: int, before: Seq<Seq<u8>>)
    requires
        separator.len() > 0,
        0 <= from <= text.len(),
        forall|i: int| 0 <= i < before.len() ==> unbroken(#[trigger] before[i], separator),
        before.len() == 0 ==> from == 0,
        before.len() > 0 ==> joined(before, separator) + separator == text.take(from),
    ensures
        joined(pieces_from(text, separator, from, before), separator) == text,
        pieces_from(text, separator, from, before).len() > 0,
        forall|i: int|
            0 <= i < pieces_from(text, separator, from, before).len() ==> unbroken(
                #[trigger] pieces_from(text, separator, from, before)[i],
                separator,
            ),
    decreases text.len() - from,
{
    lemma_found(text, separator, from);
    let end = piece_end(text, separator, from);
    let piece = text.subrange(from, end);
    let longer = before.push(piece);
    assert forall|at: int| !#[trigger] occurs_at(piece, separator, at) by {
        if occurs_at(piece, separator, at) {
            assert(text.subrange(from + at, from + at + separator.len()) =~= piece.subrange(at, at + separator.len()));
            assert(occurs_at(text, separator, from + at));
        }
    }
    assert(longer.drop_last() =~= before);
    assert(joined(longer, separator) =~= text.take(end)) by {
        if before.len() > 0 {
            assert(joined(longer, separator) == joined(before, separator) + separator + piece);
            assert(text.take(from) + piece =~= text.take(end));
        } else {
            assert(longer[0] == piece);
            assert(piece =~= text.take(end));
        }
    }
    match found_from(text, separator, from) {
        Some(at) => {
            assert(occurs_at(text, separator, at));
            assert(text.take(at) + separator =~= text.take((at + separator.len()) as int)) by {
                assert(text.subrange(at, at + separator.len()) == separator);
                assert forall|i: int| 0 <= i < separator.len() implies text[at + i] == separator[i] by {
                    assert(text.subrange(at, at + separator.len())[i] == separator[i]);
                }
            }
            lemma_pieces_behind(text, separator, at + separator.len(), longer);
        },
        None => {
            assert(text.take(end) =~= text);
        },
    }
}

/// The pieces of a text, put together again with the separator between them, are the text, and
/// none of them holds a separator.
pub proof fn lemma_pieces_join(text: Seq<u8>, separator: Seq<u8>)
    requires
        separator.len() > 0,
    ensures
        joined(pieces(text, separator), separator) == text,
        pieces(text, separator).len() > 0,
        forall|i: int|
            0 <= i < pieces(text, separator).len() ==> unbroken(#[trigger] pieces(text, separator)[i], separator),
{
    assert(text.take(0) =~= Seq::<u8>::empty());
    lemma_pieces_behind(text, separator, 0, Seq::empty());
}

// ---------------------------------------------------------------------------
// Small numbers
// ---------------------------------------------------------------------------

/// The decimal digits of a number, without leading zeros.
pub open spec fn decimal_bytes(value: nat) -> Seq<u8>
    decreases value,
{
    if value < 10 {
        seq![(0x30 + value) as u8]
    } else {
        decimal_bytes(value / 10).push((0x30 + value % 10) as u8)
    }
}

/// A signed number in decimal digits, behind a minus where it is negative.
pub open spec fn signed_bytes(number: int) -> Seq<u8> {
    if number < 0 {
        seq![0x2du8] + decimal_bytes((-number) as nat)
    } else {
        decimal_bytes(number as nat)
    }
}

proof fn lemma_decimal_last(digits: Seq<u8>, before: nat)
    requires
        digits.len() > 0,
        0x30 <= digits.last() <= 0x39,
    ensures
        decimal_number(digits, before) == (match decimal_number(digits.drop_last(), before) {
            Some(high) => Some((high * 10 + (digits.last() - 0x30)) as nat),
            None => None,
        }),
    decreases digits.len(),
{
    if digits.len() == 1 {
        assert(digits.drop_last() =~= Seq::<u8>::empty());
        assert(digits.skip(1) =~= Seq::<u8>::empty());
        assert(decimal_number(digits.skip(1), before * 10 + (digits[0] - 0x30) as nat) == Some(
            before * 10 + (digits[0] - 0x30) as nat,
        ));
    } else {
        let rest = digits.skip(1);
        assert(rest.drop_last() =~= digits.drop_last().skip(1));
        assert(rest.last() == digits.last());
        if 0x30 <= digits[0] <= 0x39 {
            lemma_decimal_last(rest, before * 10 + (digits[0] - 0x30) as nat);
        }
    }
}

proof fn lemma_decimal_read_back(value: nat)
    ensures
        decimal_bytes(value).len() > 0,
        decimal_number(decimal_bytes(value), 0) == Some(value),
        forall|i: int| 0 <= i < decimal_bytes(value).len() ==> 0x30 <= #[trigger] decimal_bytes(value)[i] <= 0x39,
    decreases value,
{
    let digits = decimal_bytes(value);
    if value < 10 {
        assert(digits.drop_last() =~= Seq::<u8>::empty());
        lemma_decimal_last(digits, 0);
    } else {
        lemma_decimal_read_back(value / 10);
        assert(digits.drop_last() =~= decimal_bytes(value / 10));
        lemma_decimal_last(digits, 0);
    }
}

/// A small signed number in decimal digits reads back, and one that is too large is refused.
pub proof fn lemma_small_number_read_back(number: int)
    ensures
        -128 <= number <= 127 ==> small_number(signed_bytes(number)) == Some(number as i8),
        !(-128 <= number <= 127) ==> small_number(signed_bytes(number)) is None,
{
    if number < 0 {
        let digits = decimal_bytes((-number) as nat);
        lemma_decimal_read_back((-number) as nat);
        assert(signed_bytes(number).skip(1) =~= digits);
        assert(signed_bytes(number)[0] == 0x2d);
    } else {
        lemma_decimal_read_back(number as nat);
        assert(0x30 <= signed_bytes(number)[0] <= 0x39);
    }
}

// ---------------------------------------------------------------------------
// Pairs
// ---------------------------------------------------------------------------

/// Whether a byte is a decimal digit or a minus.
pub open spec fn in_number(byte: u8) -> bool {
    byte == 0x2d || 0x30 <= byte <= 0x39
}

/// A run of blanks.
pub open spec fn blanks(count: nat) -> Seq<u8> {
    Seq::new(count, |i: int| 0x20u8)
}

proof fn lemma_signed_bytes(number: int)
    ensures
        signed_bytes(number).len() > 0,
        forall|i: int| 0 <= i < signed_bytes(number).len() ==> in_number(#[trigger] signed_bytes(number)[i]),
{
    let size = (if number < 0 {
        -number
    } else {
        number
    }) as nat;
    lemma_decimal_read_back(size);
    assert forall|i: int| 0 <= i < signed_bytes(number).len() implies in_number(#[trigger] signed_bytes(number)[i]) by {
        if number < 0 && i > 0 {
            assert(signed_bytes(number)[i] == decimal_bytes(size)[i - 1]);
        } else if number >= 0 {
            assert(signed_bytes(number)[i] == decimal_bytes(size)[i]);
        }
    }
}

/// Blanks in front of a number are trimmed away, and the number stays.
proof fn lemma_blanks_trimmed(count: nat, number: Seq<u8>)
    requires
        number.len() > 0,
        forall|i: int| 0 <= i < number.len() ==> in_number(#[trigger] number[i]),
    ensures
        trimmed(blanks(count) + number) == number,
    decreases count,
{
    let text = blanks(count) + number;
    if count == 0 {
        assert(text =~= number);
        assert(in_number(number[0]));
        assert(in_number(number[number.len() - 1]));
        assert(number.take(1)[0] == number[0]);
        if number.len() >= 2 {
            assert(number.take(2)[0] == number[0]);
            assert(in_number(number[number.len() - 2]));
            assert(number.skip(number.len() - 2)[0] == number[number.len() - 2]);
        }
        if number.len() >= 3 {
            assert(number.take(3)[0] == number[0]);
            assert(in_number(number[number.len() - 3]));
            assert(number.skip(number.len() - 3)[0] == number[number.len() - 3]);
        }
        assert(lead_width(number) == 0);
        assert(number.skip(number.len() - 1)[0] == number[number.len() - 1]);
        assert(trail_width(number) == 0);
        assert(without_lead(number) == number);
        assert(without_trail(number) == number);
    } else {
        assert(text.take(1)[0] == 0x20);
        assert(lead_width(text) == 1);
        assert(text.skip(1) =~= blanks((count - 1) as nat) + number);
        lemma_blanks_trimmed((count - 1) as nat, number);
    }
}

/// Where a byte stands and nowhere before, a search for it ends.
proof fn lemma_byte_found(text: Seq<u8>, byte: u8, from: int, at: int)
    requires
        0 <= from <= at < text.len(),
        text[at] == byte,
        forall|i: int| from <= i < at ==> #[trigger] text[i] != byte,
    ensures
        found_from(text, seq![byte], from) == Some(at),
    decreases at - from,
{
    if from < at {
        assert(text[from] != byte);
        if occurs_at(text, seq![byte], from) {
            assert(text.subrange(from, from + 1)[0] == byte);
        }
        lemma_byte_found(text, byte, from + 1, at);
    } else {
        assert(text.subrange(at, at + 1) =~= seq![byte]);
    }
}

proof fn lemma_byte_missing(text: Seq<u8>, byte: u8, from: int)
    requires
        0 <= from <= text.len(),
        forall|i: int| from <= i < text.len() ==> #[trigger] text[i] != byte,
    ensures
        found_from(text, seq![byte], from) is None,
    decreases text.len() - from,
{
    if from < text.len() {
        assert(text[from] != byte);
        if occurs_at(text, seq![byte], from) {
            assert(text.subrange(from, from + 1)[0] == byte);
        }
        lemma_byte_missing(text, byte, from + 1);
    }
}

/// Two numbers with a comma between them, and blanks behind the comma.
pub open spec fn pair_bytes(first: i8, second: i8, count: nat) -> Seq<u8> {
    signed_bytes(first as int) + seq![0x2cu8] + blanks(count) + signed_bytes(second as int)
}

proof fn lemma_pair_numbers(first: i8, second: i8, count: nat)
    ensures
        numbers_from(pieces(pair_bytes(first, second, count), seq![0x2cu8]), 0, Seq::empty()) == Some(seq![first, second]),
        forall|i: int| 0 <= i < pair_bytes(first, second, count).len() ==> #[trigger] pair_bytes(first, second, count)[i] != 0x7d,
{
    let a = signed_bytes(first as int);
    let b = signed_bytes(second as int);
    let text = pair_bytes(first, second, count);
    let comma = seq![0x2cu8];
    let behind = blanks(count) + b;
    lemma_signed_bytes(first as int);
    lemma_signed_bytes(second as int);
    assert forall|i: int| 0 <= i < text.len() implies (text[i] == 0x2c) == (i == a.len()) && #[trigger] text[i] != 0x7d by {
        if i < a.len() {
            assert(text[i] == a[i]);
            assert(in_number(a[i]));
        } else if i > a.len() && i <= a.len() + count {
            assert(text[i] == 0x20);
        } else if i > a.len() {
            assert(text[i] == b[i - a.len() - 1 - count]);
            assert(in_number(b[i - a.len() - 1 - count]));
        }
    }
    lemma_byte_found(text, 0x2c, 0, a.len() as int);
    lemma_byte_missing(text, 0x2c, a.len() as int + 1);
    assert(text.subrange(0, a.len() as int) =~= a);
    assert(text.subrange(a.len() as int + 1, text.len() as int) =~= behind);
    let empty = Seq::<Seq<u8>>::empty();
    let list = pieces(text, comma);
    assert(pieces_from(text, comma, 0, empty) == pieces_from(text, comma, a.len() as int + 1, empty.push(a)));
    assert(list =~= seq![a, behind]);
    lemma_blanks_trimmed(0, a);
    assert(blanks(0) + a =~= a);
    lemma_blanks_trimmed(count, b);
    lemma_small_number_read_back(first as int);
    lemma_small_number_read_back(second as int);
    let none = Seq::<i8>::empty();
    assert(numbers_from(list, 2, none.push(first).push(second)) == Some(none.push(first).push(second)));
    assert(numbers_from(list, 1, none.push(first)) == Some(none.push(first).push(second)));
    assert(none.push(first).push(second) =~= seq![first, second]);
}

/// Whether a piece holds a pair and a closing brace.
pub open spec fn holds_pair(piece: Seq<u8>, pair: [i8; 2], count: nat) -> bool {
    let written = pair_bytes(pair[0], pair[1], count);
    &&& piece.len() > written.len()
    &&& piece.take(written.len() as int) == written
    &&& piece[written.len() as int] == 0x7d
}

proof fn lemma_pair_found(piece: Seq<u8>, pair: [i8; 2], count: nat)
    requires
        holds_pair(piece, pair, count),
    ensures
        found_from(piece, seq![0x7du8], 0) == Some(pair_bytes(pair[0], pair[1], count).len() as int),
        numbers_from(pieces(pair_bytes(pair[0], pair[1], count), seq![0x2cu8]), 0, Seq::empty()) == Some(
            seq![pair[0], pair[1]],
        ),
{
    let written = pair_bytes(pair[0], pair[1], count);
    lemma_pair_numbers(pair[0], pair[1], count);
    assert forall|i: int| 0 <= i < written.len() implies #[trigger] piece[i] != 0x7d by {
        assert(piece.take(written.len() as int)[i] == piece[i]);
        assert(written[i] != 0x7d);
    }
    lemma_byte_found(piece, 0x7d, 0, written.len() as int);
}

/// Pieces that each hold a pair read back as those pairs, in their order and each with its
/// first number first.
pub proof fn lemma_pairs_read_back(list: Seq<Seq<u8>>, index: int, before: Seq<[i8; 2]>, pairs: Seq<[i8; 2]>, count: nat)
    requires
        0 <= index,
        index + pairs.len() == list.len(),
        forall|i: int| 0 <= i < pairs.len() ==> holds_pair(list[index + i], #[trigger] pairs[i], count),
    ensures
        pairs_from(list, index, before) == Some(before + pairs),
    decreases pairs.len(),
{
    if pairs.len() == 0 {
        assert(before + pairs =~= before);
    } else {
        assert(holds_pair(list[index + 0], pairs[0], count));
        lemma_pair_found(list[index], pairs[0], count);
        let pair: [i8; 2] = [pairs[0][0], pairs[0][1]];
        assert(pair =~= pairs[0]);
        let rest = pairs.skip(1);
        assert forall|i: int| 0 <= i < rest.len() implies holds_pair(list[index + 1 + i], #[trigger] rest[i], count) by {
            assert(rest[i] == pairs[i + 1]);
            assert(holds_pair(list[index + (i + 1)], pairs[i + 1], count));
        }
        let longer = before.push(pairs[0]);
        lemma_pairs_read_back(list, index + 1, longer, rest, count);
        assert(longer + rest =~= before + pairs);
        let numbers = seq![pairs[0][0], pairs[0][1]];
        assert(numbers[0] == pairs[0][0] && numbers[1] == pairs[0][1]);
    }
}

} // verus!
