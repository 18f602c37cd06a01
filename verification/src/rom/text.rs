//! Searching source text, and the numbers in it.

use vstd::prelude::*;

verus! {

/// Whether a pattern stands at a place in a text.
pub open spec fn occurs_at(text: Seq<u8>, pattern: Seq<u8>, at: int) -> bool {
    0 <= at && at + pattern.len() <= text.len() && text.subrange(at, at + pattern.len()) == pattern
}

/// The first place of a pattern in a text from a place on.
pub open spec fn found_from(text: Seq<u8>, pattern: Seq<u8>, from: int) -> Option<int>
    decreases text.len() + 1 - from,
{
    if from + pattern.len() > text.len() {
        None
    } else if occurs_at(text, pattern, from) {
        Some(from)
    } else {
        found_from(text, pattern, from + 1)
    }
}

/// What is found lies at or behind the place where the search begins, and
/// nothing lies before it.
pub proof fn lemma_found(text: Seq<u8>, pattern: Seq<u8>, from: int)
    ensures
        found_from(text, pattern, from) matches Some(at) ==> from <= at && at + pattern.len() <= text.len(),
        found_from(text, pattern, from) matches Some(at) ==> occurs_at(text, pattern, at) || from < 0,
        found_from(text, pattern, from) matches Some(at) ==> forall|other: int|
            from <= other < at ==> !#[trigger] occurs_at(text, pattern, other),
        found_from(text, pattern, from) is None ==> forall|other: int|
            from <= other ==> !#[trigger] occurs_at(text, pattern, other),
    decreases text.len() + 1 - from,
{
    if from + pattern.len() <= text.len() && !occurs_at(text, pattern, from) {
        lemma_found(text, pattern, from + 1);
    }
}

/// Tells whether a pattern stands at a place in a text.
fn stands(text: &[u8], pattern: &[u8], at: usize) -> (found: bool)
    requires
        at + pattern@.len() <= text@.len(),
    ensures
        found == occurs_at(text@, pattern@, at as int),
{
    let mut index: usize = 0;
    while index < pattern.len()
        invariant
            index <= pattern@.len(),
            at + pattern@.len() <= text@.len(),
            forall|i: int| 0 <= i < index ==> text@[at + i] == #[trigger] pattern@[i],
        decreases pattern@.len() - index,
    {
        assert(text@.len() == text.len());
        if text[at + index] != pattern[index] {
            proof {
                let part = text@.subrange(at as int, at + pattern@.len());
                assert(part[index as int] != pattern@[index as int]);
            }
            return false;
        }
        index = index + 1;
    }
    assert(text@.subrange(at as int, at + pattern@.len()) =~= pattern@);
    true
}

/// Finds the first place of a pattern in a text from a place on.
pub fn find(text: &[u8], pattern: &[u8], from: usize) -> (place: Option<usize>)
    requires
        from <= text@.len(),
    ensures
        match found_from(text@, pattern@, from as int) {
            Some(at) => place matches Some(found) && found == at,
            None => place is None,
        },
        place matches Some(at) ==> from <= at && at + pattern@.len() <= text@.len(),
{
    let mut at: usize = from;
    assert(text@.len() == text.len());
    assert(pattern@.len() == pattern.len());
    while at <= text.len() && pattern.len() <= text.len() - at
        invariant
            from <= at <= text@.len() + 1,
            text@.len() == text.len(),
            pattern@.len() == pattern.len(),
            found_from(text@, pattern@, from as int) == found_from(text@, pattern@, at as int),
        decreases text@.len() + 1 - at,
    {
        if stands(text, pattern, at) {
            return Some(at);
        }
        if at == text.len() {
            assert(found_from(text@, pattern@, at + 1) is None);
            return None;
        }
        at = at + 1;
    }
    None
}

/// The value of a hexadecimal digit.
pub open spec fn hex_digit(byte: u8) -> Option<nat> {
    if 0x30 <= byte <= 0x39 {
        Some((byte - 0x30) as nat)
    } else if 0x41 <= byte <= 0x46 {
        Some((byte - 0x41 + 10) as nat)
    } else if 0x61 <= byte <= 0x66 {
        Some((byte - 0x61 + 10) as nat)
    } else {
        None
    }
}

/// The number that hexadecimal digits stand for, behind the digits before.
pub open spec fn hex_number(digits: Seq<u8>, before: nat) -> Option<nat>
    decreases digits.len(),
{
    if digits.len() == 0 {
        Some(before)
    } else {
        match hex_digit(digits[0]) {
            Some(digit) => hex_number(digits.skip(1), before * 16 + digit),
            None => None,
        }
    }
}

/// The number that eight characters stand for: digits, or digits behind a plus.
pub open spec fn hex_word(characters: Seq<u8>) -> Option<nat> {
    if characters[0] == 0x2b {
        hex_number(characters.skip(1), 0)
    } else {
        hex_number(characters, 0)
    }
}

/// A word of 32 bits as a signed number.
pub open spec fn signed_word(word: nat) -> i32 {
    if word < 0x8000_0000 {
        word as i32
    } else {
        (word - 0x1_0000_0000) as i32
    }
}

/// Reads a hexadecimal digit.
pub fn digit_value(byte: u8) -> (digit: Option<u32>)
    ensures
        match hex_digit(byte) {
            Some(value) => digit == Some(value as u32) && value < 16,
            None => digit is None,
        },
{
    if 0x30 <= byte && byte <= 0x39 {
        Some((byte - 0x30) as u32)
    } else if 0x41 <= byte && byte <= 0x46 {
        Some((byte - 0x41 + 10) as u32)
    } else if 0x61 <= byte && byte <= 0x66 {
        Some((byte - 0x61 + 10) as u32)
    } else {
        None
    }
}

/// The largest number of `count` hexadecimal digits, and one.
pub open spec fn hex_limit(count: nat) -> nat
    decreases count,
{
    if count == 0 {
        1
    } else {
        16 * hex_limit((count - 1) as nat)
    }
}

/// Reads eight characters as a hexadecimal number.
pub fn word_value(text: &[u8], start: usize) -> (word: Option<u32>)
    requires
        start + 8 <= text@.len(),
    ensures
        match hex_word(text@.subrange(start as int, start + 8)) {
            Some(value) => value <= u32::MAX && word == Some(value as u32),
            None => word is None,
        },
{
    let ghost characters = text@.subrange(start as int, start + 8);
    assert(text@.len() == text.len());
    let mut index: usize = if text[start] == 0x2b {
        1
    } else {
        0
    };
    let mut value: u32 = 0;
    assert(characters.skip(0) =~= characters);
    proof {
        reveal_with_fuel(hex_limit, 9);
    }
    while index < 8
        invariant
            index <= 8,
            start + 8 <= text@.len() == text.len(),
            characters == text@.subrange(start as int, start + 8),
            hex_word(characters) == hex_number(characters.skip(index as int), value as nat),
            value < hex_limit(index as nat),
            hex_limit(8) == 0x1_0000_0000,
        decreases 8 - index,
    {
        proof {
            reveal_with_fuel(hex_limit, 9);
            assert(characters.skip(index as int)[0] == text@[start + index]);
            assert(characters.skip(index as int).skip(1) =~= characters.skip(index + 1));
        }
        match digit_value(text[start + index]) {
            Some(digit) => {
                value = value * 16 + digit;
            },
            None => return None,
        }
        index = index + 1;
    }
    assert(characters.skip(8).len() == 0);
    Some(value)
}

/// Takes a word of 32 bits as a signed number.
pub fn to_signed(word: u32) -> (value: i32)
    ensures
        value == signed_word(word as nat),
{
    if word < 0x8000_0000 {
        word as i32
    } else {
        (word as i64 - 0x1_0000_0000) as i32
    }
}

/// The place behind the first opening brace that follows a declaration, and that
/// of the closing brace and semicolon behind it.
pub open spec fn body_of(source: Seq<u8>, declaration: Seq<u8>) -> Option<(int, int)> {
    match found_from(source, declaration, 0) {
        None => None,
        Some(start) => match found_from(source, seq![0x7bu8], start) {
            None => None,
            Some(open) => match found_from(source, seq![0x7du8, 0x3b], open + 1) {
                None => None,
                Some(end) => Some((open + 1, end)),
            },
        },
    }
}

/// Finds the body of a declared table.
pub fn table_body<'a>(source: &'a [u8], declaration: &[u8]) -> (body: Option<&'a [u8]>)
    ensures
        match body_of(source@, declaration@) {
            Some((start, end)) => body matches Some(text) && 0 <= start <= end <= source@.len() && text@
                == source@.subrange(start, end),
            None => body is None,
        },
{
    assert(source@.len() == source.len());
    let start: usize = match find(source, declaration, 0) {
        Some(start) => start,
        None => return None,
    };
    let opening: [u8; 1] = [0x7b];
    assert(opening@ =~= seq![0x7bu8]);
    let open: usize = match find(source, opening.as_slice(), start) {
        Some(open) => open,
        None => return None,
    };
    let closing: [u8; 2] = [0x7d, 0x3b];
    assert(closing@ =~= seq![0x7du8, 0x3b]);
    let end: usize = match find(source, closing.as_slice(), open + 1) {
        Some(end) => end,
        None => return None,
    };
    Some(vstd::slice::slice_subrange(source, open + 1, end))
}

} // verus!
