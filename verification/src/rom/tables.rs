//! Tables of words, of macro arguments and of pairs.

use vstd::prelude::*;

use super::pieces::{pieces, split, trim, trimmed, views};
use super::text::{
    body_of, digit_value, find, found_from, hex_digit, hex_number, signed_word, table_body, to_signed, word_value,
};

verus! {

/// The number of hexadecimal digits that a text begins with.
pub open spec fn digit_run(text: Seq<u8>) -> nat
    decreases text.len(),
{
    if text.len() > 0 && hex_digit(text[0]) is Some {
        1 + digit_run(text.skip(1))
    } else {
        0
    }
}

/// The words of eight digits that pieces from an index on begin with, behind
/// `before`. Pieces with another number of digits are passed over.
pub open spec fn words_from(list: Seq<Seq<u8>>, index: int, before: Seq<i32>) -> Seq<i32>
    decreases list.len() - index,
{
    if index >= list.len() {
        before
    } else if digit_run(list[index]) == 8 {
        words_from(list, index + 1, before.push(signed_word(hex_number(list[index].take(8), 0)->0)))
    } else {
        words_from(list, index + 1, before)
    }
}

/// The words of a declared table: those of eight digits, each behind `0x`.
pub open spec fn fixed_table(source: Seq<u8>, declaration: Seq<u8>) -> Option<Seq<i32>> {
    match body_of(source, declaration) {
        None => None,
        Some((start, end)) => Some(
            words_from(pieces(source.subrange(start, end), seq![0x30u8, 0x78]), 1, Seq::empty()),
        ),
    }
}

proof fn lemma_digit_run(text: Seq<u8>)
    ensures
        digit_run(text) <= text.len(),
        forall|i: int| 0 <= i < digit_run(text) ==> hex_digit(#[trigger] text[i]) is Some,
        digit_run(text) < text.len() ==> hex_digit(text[digit_run(text) as int]) is None,
    decreases text.len(),
{
    if text.len() > 0 && hex_digit(text[0]) is Some {
        let rest = text.skip(1);
        lemma_digit_run(rest);
        assert forall|i: int| 0 <= i < digit_run(text) implies hex_digit(#[trigger] text[i]) is Some by {
            if i > 0 {
                assert(rest[i - 1] == text[i]);
            }
        }
        if digit_run(text) < text.len() {
            assert(rest[digit_run(rest) as int] == text[digit_run(text) as int]);
        }
    }
}

fn run_of_digits(text: &[u8]) -> (count: usize)
    ensures
        count == digit_run(text@),
        count <= text@.len(),
{
    let mut count: usize = 0;
    assert(text@.len() == text.len());
    assert(text@.skip(0) =~= text@);
    while count < text.len()
        invariant
            count <= text@.len() == text.len(),
            digit_run(text@) == count + digit_run(text@.skip(count as int)),
        decreases text@.len() - count,
    {
        proof {
            assert(text@.skip(count as int)[0] == text@[count as int]);
            assert(text@.skip(count as int).skip(1) =~= text@.skip(count + 1));
        }
        match digit_value(text[count]) {
            Some(_) => {},
            None => return count,
        }
        count = count + 1;
    }
    assert(text@.skip(count as int).len() == 0);
    count
}

/// Reads the words of a declared table.
pub fn parse_fixed_array(source: &[u8], declaration: &[u8]) -> (values: Option<Vec<i32>>)
    ensures
        match fixed_table(source@, declaration@) {
            Some(expected) => values matches Some(list) && list@ == expected,
            None => values is None,
        },
{
    let body: &[u8] = match table_body(source, declaration) {
        Some(body) => body,
        None => return None,
    };
    let separator: [u8; 2] = [0x30, 0x78];
    assert(separator@ =~= seq![0x30u8, 0x78]);
    let list: Vec<&[u8]> = split(body, separator.as_slice());
    let ghost parts = views(list@);
    let mut values: Vec<i32> = Vec::new();
    let mut index: usize = 1;
    while index < list.len()
        invariant
            1 <= index <= list@.len(),
            parts == views(list@),
            words_from(parts, 1, Seq::empty()) == words_from(parts, index as int, values@),
        decreases list@.len() - index,
    {
        let piece: &[u8] = list[index];
        assert(parts[index as int] == piece@);
        if run_of_digits(piece) == 8 {
            proof {
                lemma_digit_run(piece@);
                assert(hex_digit(piece@[0]) is Some);
                assert(piece@.subrange(0, 8) =~= piece@.take(8));
                lemma_digits_read(piece@.take(8), 0);
            }
            match word_value(piece, 0) {
                Some(word) => values.push(to_signed(word)),
                None => {},
            }
        }
        index = index + 1;
    }
    Some(values)
}

/// Digits always stand for a number.
proof fn lemma_digits_read(digits: Seq<u8>, before: nat)
    requires
        forall|i: int| 0 <= i < digits.len() ==> hex_digit(#[trigger] digits[i]) is Some,
    ensures
        hex_number(digits, before) is Some,
    decreases digits.len(),
{
    if digits.len() > 0 {
        let rest = digits.skip(1);
        assert forall|i: int| 0 <= i < rest.len() implies hex_digit(#[trigger] rest[i]) is Some by {
            assert(rest[i] == digits[i + 1]);
        }
        lemma_digits_read(rest, before * 16 + hex_digit(digits[0])->0);
    }
}

/// A text up to its first closing bracket.
pub open spec fn argument(text: Seq<u8>) -> Seq<u8> {
    pieces(text, seq![0x29u8])[0]
}

/// The arguments in a declared table: what stands behind each macro name, up to
/// the closing bracket.
pub open spec fn argument_table(source: Seq<u8>, declaration: Seq<u8>, macro_name: Seq<u8>) -> Option<Seq<Seq<u8>>> {
    match body_of(source, declaration) {
        None => None,
        Some((start, end)) => {
            let list = pieces(source.subrange(start, end), macro_name);
            Some(Seq::new((list.len() - 1) as nat, |i: int| argument(list[i + 1])))
        },
    }
}

/// Lists the arguments in a declared table.
pub fn parse_macro_arguments<'a>(source: &'a [u8], declaration: &[u8], macro_name: &[u8]) -> (arguments: Option<
    Vec<&'a [u8]>,
>)
    requires
        macro_name@.len() > 0,
    ensures
        match argument_table(source@, declaration@, macro_name@) {
            Some(expected) => arguments matches Some(list) && views(list@) == expected,
            None => arguments is None,
        },
{
    let body: &'a [u8] = match table_body(source, declaration) {
        Some(body) => body,
        None => return None,
    };
    let list: Vec<&'a [u8]> = split(body, macro_name);
    let bracket: [u8; 1] = [0x29];
    assert(bracket@ =~= seq![0x29u8]);
    let ghost parts = views(list@);
    let ghost expected = argument_table(source@, declaration@, macro_name@)->0;
    let mut arguments: Vec<&'a [u8]> = Vec::new();
    let mut index: usize = 1;
    while index < list.len()
        invariant
            1 <= index <= list@.len(),
            parts == views(list@),
            bracket@ == seq![0x29u8],
            expected == Seq::new((parts.len() - 1) as nat, |i: int| argument(parts[i + 1])),
            arguments@.len() == index - 1,
            forall|i: int| 0 <= i < arguments@.len() ==> (#[trigger] arguments@[i])@ == expected[i],
        decreases list@.len() - index,
    {
        let fields: Vec<&'a [u8]> = split(list[index], bracket.as_slice());
        assert(views(fields@)[0] == fields@[0]@);
        assert(parts[index as int] == list@[index as int]@);
        arguments.push(fields[0]);
        index = index + 1;
    }
    assert(views(arguments@) =~= expected);
    Some(arguments)
}

/// The number that decimal digits stand for, behind the digits before.
pub open spec fn decimal_number(digits: Seq<u8>, before: nat) -> Option<nat>
    decreases digits.len(),
{
    if digits.len() == 0 {
        Some(before)
    } else if 0x30 <= digits[0] <= 0x39 {
        decimal_number(digits.skip(1), before * 10 + (digits[0] - 0x30) as nat)
    } else {
        None
    }
}

/// The small number that a text stands for: digits, behind a sign or not.
pub open spec fn small_number(text: Seq<u8>) -> Option<i8> {
    let signed = text.len() > 0 && (text[0] == 0x2b || text[0] == 0x2d);
    let digits = if signed {
        text.skip(1)
    } else {
        text
    };
    match decimal_number(digits, 0) {
        Some(size) => if digits.len() == 0 {
            None
        } else if signed && text[0] == 0x2d {
            if size <= 128 {
                Some((-size) as i8)
            } else {
                None
            }
        } else if size <= 127 {
            Some(size as i8)
        } else {
            None
        },
        None => None,
    }
}

proof fn lemma_decimal_grows(digits: Seq<u8>, before: nat)
    ensures
        decimal_number(digits, before) matches Some(number) ==> number >= before,
    decreases digits.len(),
{
    if digits.len() > 0 && 0x30 <= digits[0] <= 0x39 {
        lemma_decimal_grows(digits.skip(1), before * 10 + (digits[0] - 0x30) as nat);
    }
}

fn small_value(text: &[u8]) -> (number: Option<i8>)
    ensures
        number == small_number(text@),
{
    assert(text@.len() == text.len());
    let signed: bool = text.len() > 0 && (text[0] == 0x2b || text[0] == 0x2d);
    let start: usize = if signed {
        1
    } else {
        0
    };
    let ghost digits = text@.skip(start as int);
    assert(!signed ==> digits =~= text@);
    let mut size: u32 = 0;
    let mut index: usize = start;
    assert(digits.skip(0) =~= digits);
    while index < text.len()
        invariant
            start <= index <= text@.len() == text.len(),
            start <= 1,
            digits == text@.skip(start as int),
            size <= 128,
            decimal_number(digits, 0) == decimal_number(digits.skip(index - start), size as nat),
            signed == (text@.len() > 0 && (text@[0] == 0x2b || text@[0] == 0x2d)),
            signed ==> start == 1,
            !signed ==> digits == text@,
        decreases text@.len() - index,
    {
        let byte: u8 = text[index];
        proof {
            assert(digits.skip(index - start)[0] == byte);
            assert(digits.skip(index - start).skip(1) =~= digits.skip(index + 1 - start));
        }
        if byte < 0x30 || byte > 0x39 {
            return None;
        }
        size = size * 10 + (byte - 0x30) as u32;
        index = index + 1;
        if size > 128 {
            proof {
                lemma_decimal_grows(digits.skip(index - start), size as nat);
            }
            return None;
        }
    }
    assert(digits.skip(index - start).len() == 0);
    if index == start {
        return None;
    }
    if signed && text[0] == 0x2d {
        Some((0 - size as i32) as i8)
    } else if size <= 127 {
        Some(size as i8)
    } else {
        None
    }
}

/// The numbers in the fields from an index on, behind `before`, or nothing where
/// a field holds no number.
pub open spec fn numbers_from(fields: Seq<Seq<u8>>, index: int, before: Seq<i8>) -> Option<Seq<i8>>
    decreases fields.len() - index,
{
    if index >= fields.len() {
        Some(before)
    } else {
        match small_number(trimmed(fields[index])) {
            Some(number) => numbers_from(fields, index + 1, before.push(number)),
            None => None,
        }
    }
}

/// The pairs in the pieces from an index on, behind `before`. A piece without a
/// closing brace, or with another number of numbers, is passed over; one that
/// holds something else makes the table unreadable.
pub open spec fn pairs_from(list: Seq<Seq<u8>>, index: int, before: Seq<[i8; 2]>) -> Option<Seq<[i8; 2]>>
    decreases list.len() - index,
{
    if index >= list.len() {
        Some(before)
    } else {
        match found_from(list[index], seq![0x7du8], 0) {
            None => pairs_from(list, index + 1, before),
            Some(end) => match numbers_from(pieces(list[index].take(end), seq![0x2cu8]), 0, Seq::empty()) {
                None => None,
                Some(numbers) => if numbers.len() == 2 {
                    pairs_from(list, index + 1, before.push([numbers[0], numbers[1]]))
                } else {
                    pairs_from(list, index + 1, before)
                },
            },
        }
    }
}

/// How tables of pairs are declared: `const SCHAR ` and a name.
pub open spec fn pair_declaration(name: Seq<u8>) -> Seq<u8> {
    seq![0x63u8, 0x6f, 0x6e, 0x73, 0x74, 0x20, 0x53, 0x43, 0x48, 0x41, 0x52, 0x20] + name
}

/// The pairs of a named table.
pub open spec fn pair_table(source: Seq<u8>, name: Seq<u8>) -> Option<Seq<[i8; 2]>> {
    match body_of(source, pair_declaration(name)) {
        None => None,
        Some((start, end)) => pairs_from(pieces(source.subrange(start, end), seq![0x7bu8]), 1, Seq::empty()),
    }
}

fn field_numbers(text: &[u8]) -> (numbers: Option<Vec<i8>>)
    ensures
        match numbers_from(pieces(text@, seq![0x2cu8]), 0, Seq::empty()) {
            Some(expected) => numbers matches Some(list) && list@ == expected,
            None => numbers is None,
        },
{
    let comma: [u8; 1] = [0x2c];
    assert(comma@ =~= seq![0x2cu8]);
    let fields: Vec<&[u8]> = split(text, comma.as_slice());
    let ghost parts = views(fields@);
    let mut numbers: Vec<i8> = Vec::new();
    let mut index: usize = 0;
    while index < fields.len()
        invariant
            index <= fields@.len(),
            parts == views(fields@),
            parts == pieces(text@, seq![0x2cu8]),
            numbers_from(parts, 0, Seq::empty()) == numbers_from(parts, index as int, numbers@),
        decreases fields@.len() - index,
    {
        assert(parts[index as int] == fields@[index as int]@);
        match small_value(trim(fields[index])) {
            Some(number) => numbers.push(number),
            None => return None,
        }
        index = index + 1;
    }
    Some(numbers)
}

/// Reads the pairs of a named table.
pub fn parse_sbr_huffman_table(source: &[u8], name: &[u8]) -> (pairs: Option<Vec<[i8; 2]>>)
    ensures
        match pair_table(source@, name@) {
            Some(expected) => pairs matches Some(list) && list@ == expected,
            None => pairs is None,
        },
{
    let head: [u8; 12] = [0x63, 0x6f, 0x6e, 0x73, 0x74, 0x20, 0x53, 0x43, 0x48, 0x41, 0x52, 0x20];
    let mut declaration: Vec<u8> = vstd::slice::slice_to_vec(head.as_slice());
    let mut tail: Vec<u8> = vstd::slice::slice_to_vec(name);
    declaration.append(&mut tail);
    assert(declaration@ =~= pair_declaration(name@));
    let body: &[u8] = match table_body(source, declaration.as_slice()) {
        Some(body) => body,
        None => return None,
    };
    let opening: [u8; 1] = [0x7b];
    assert(opening@ =~= seq![0x7bu8]);
    let closing: [u8; 1] = [0x7d];
    assert(closing@ =~= seq![0x7du8]);
    let list: Vec<&[u8]> = split(body, opening.as_slice());
    let ghost parts = views(list@);
    let mut pairs: Vec<[i8; 2]> = Vec::new();
    let mut index: usize = 1;
    while index < list.len()
        invariant
            1 <= index <= list@.len(),
            parts == views(list@),
            closing@ == seq![0x7du8],
            pair_table(source@, name@) == pairs_from(parts, 1, Seq::empty()),
            pairs_from(parts, 1, Seq::empty()) == pairs_from(parts, index as int, pairs@),
        decreases list@.len() - index,
    {
        let piece: &[u8] = list[index];
        assert(parts[index as int] == piece@);
        match find(piece, closing.as_slice(), 0) {
            None => {},
            Some(end) => {
                let inner: &[u8] = vstd::slice::slice_subrange(piece, 0, end);
                assert(inner@ =~= piece@.take(end as int));
                match field_numbers(inner) {
                    None => return None,
                    Some(numbers) => {
                        if numbers.len() == 2 {
                            let pair: [i8; 2] = [numbers[0], numbers[1]];
                            assert(pair =~= [numbers@[0], numbers@[1]]);
                            pairs.push(pair);
                        }
                    },
                }
            },
        }
        index = index + 1;
    }
    Some(pairs)
}

} // verus!
