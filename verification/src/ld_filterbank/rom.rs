//! Coefficient tables in source text.

use vstd::prelude::*;

use crate::rom::text::{body_of, find, found_from, hex_word, lemma_found, signed_word, table_body, to_signed, word_value};

use super::error::LdFilterbankError;

verus! {

/// What announces a coefficient: `WTC(0x`.
pub open spec fn marker() -> Seq<u8> {
    seq![0x57u8, 0x54, 0x43, 0x28, 0x30, 0x78]
}

/// The coefficients of a table from a place on, behind those before.
pub open spec fn table_values(body: Seq<u8>, from: int, values: Seq<i32>) -> Option<Seq<i32>>
    decreases body.len() - from,
    via table_values_decreases
{
    match found_from(body, marker(), from) {
        None => Some(values),
        Some(at) => if body.len() < at + 14 {
            None
        } else {
            match hex_word(body.subrange(at + 6, at + 14)) {
                None => None,
                Some(word) => table_values(body, at + 14, values.push(signed_word(word))),
            }
        },
    }
}

#[via_fn]
proof fn table_values_decreases(body: Seq<u8>, from: int, values: Seq<i32>) {
    lemma_found(body, marker(), from);
}

/// The coefficients of the named table in a source text.
pub open spec fn named_table(source: Seq<u8>, name: Seq<u8>) -> Option<Seq<i32>> {
    match body_of(source, name) {
        None => None,
        Some((start, end)) => table_values(source.subrange(start, end), 0, Seq::empty()),
    }
}

/// Reads the coefficients of the named table from a source text: those between
/// the first brace behind the name and the closing brace and semicolon.
pub fn parse_wtc_array_q31_from(source: &[u8], name: &[u8]) -> (values: Option<Vec<i32>>)
    ensures
        match named_table(source@, name@) {
            Some(expected) => values matches Some(list) && list@ == expected,
            None => values is None,
        },
{
    let body: &[u8] = match table_body(source, name) {
        Some(body) => body,
        None => return None,
    };
    let pattern: [u8; 6] = [0x57, 0x54, 0x43, 0x28, 0x30, 0x78];
    assert(pattern@ =~= marker());
    let mut values: Vec<i32> = Vec::new();
    let mut from: usize = 0;
    loop
        invariant
            from <= body@.len(),
            pattern@ == marker(),
            table_values(body@, 0, Seq::empty()) == table_values(body@, from as int, values@),
            named_table(source@, name@) == table_values(body@, 0, Seq::empty()),
        decreases body@.len() - from,
    {
        assert(body@.len() == body.len());
        let at: usize = match find(body, pattern.as_slice(), from) {
            Some(at) => at,
            None => return Some(values),
        };
        if body.len() - at < 14 {
            return None;
        }
        let word: u32 = match word_value(body, at + 6) {
            Some(word) => word,
            None => return None,
        };
        values.push(to_signed(word));
        from = at + 14;
    }
}

/// The number of coefficients of a frame length.
pub open spec fn coefficient_count(frame_length: usize) -> usize {
    (3 * frame_length) as usize
}

/// The name of the table of a frame length.
pub open spec fn table_name(frame_length: usize) -> Seq<u8> {
    if frame_length == 512 {
        seq![
            0x4cu8, 0x6f, 0x77, 0x44, 0x65, 0x6c, 0x61, 0x79, 0x53, 0x79, 0x6e, 0x74, 0x68, 0x65, 0x73, 0x69, 0x73, 0x35, 0x31,
            0x32,
        ]
    } else {
        seq![
            0x4cu8, 0x6f, 0x77, 0x44, 0x65, 0x6c, 0x61, 0x79, 0x53, 0x79, 0x6e, 0x74, 0x68, 0x65, 0x73, 0x69, 0x73, 0x34, 0x38,
            0x30,
        ]
    }
}

/// Checks the number of coefficients.
pub fn validate_coefficient_count<T>(frame_length: usize, expected: usize, coefficients: &[T]) -> (result: Result<
    &[T],
    LdFilterbankError,
>)
    ensures
        if coefficients@.len() != expected {
            result == Err::<&[T], LdFilterbankError>(
                LdFilterbankError::InvalidCoefficientCount {
                    frame_length,
                    expected,
                    actual: coefficients@.len() as usize,
                },
            )
        } else {
            result matches Ok(list) && list@ == coefficients@
        },
{
    assert(coefficients@.len() == coefficients.len());
    if coefficients.len() != expected {
        return Err(
            LdFilterbankError::InvalidCoefficientCount { frame_length, expected, actual: coefficients.len() },
        );
    }
    Ok(coefficients)
}

/// The coefficients that a source text holds, none where it holds no table.
pub open spec fn table_or_nothing(source: Seq<u8>, frame_length: usize) -> Seq<i32> {
    match named_table(source, table_name(frame_length)) {
        Some(values) => values,
        None => Seq::empty(),
    }
}

/// Reads the coefficients of a frame length from a source text.
pub fn synthesis_coefficients_q31(source: &[u8], frame_length: usize) -> (result: Result<Vec<i32>, LdFilterbankError>)
    ensures
        if frame_length != 512 && frame_length != 480 {
            result == Err::<Vec<i32>, LdFilterbankError>(LdFilterbankError::UnsupportedFrameLength(frame_length))
        } else if table_or_nothing(source@, frame_length).len() != coefficient_count(frame_length) {
            result == Err::<Vec<i32>, LdFilterbankError>(
                LdFilterbankError::InvalidCoefficientCount {
                    frame_length,
                    expected: coefficient_count(frame_length),
                    actual: table_or_nothing(source@, frame_length).len() as usize,
                },
            )
        } else {
            result matches Ok(list) && list@ == table_or_nothing(source@, frame_length)
        },
{
    let name: [u8; 20] = if frame_length == 512 {
        [
            0x4c, 0x6f, 0x77, 0x44, 0x65, 0x6c, 0x61, 0x79, 0x53, 0x79, 0x6e, 0x74, 0x68, 0x65, 0x73, 0x69, 0x73, 0x35, 0x31,
            0x32,
        ]
    } else if frame_length == 480 {
        [
            0x4c, 0x6f, 0x77, 0x44, 0x65, 0x6c, 0x61, 0x79, 0x53, 0x79, 0x6e, 0x74, 0x68, 0x65, 0x73, 0x69, 0x73, 0x34, 0x38,
            0x30,
        ]
    } else {
        return Err(LdFilterbankError::UnsupportedFrameLength(frame_length));
    };
    assert(name@ =~= table_name(frame_length));
    let values: Vec<i32> = match parse_wtc_array_q31_from(source, name.as_slice()) {
        Some(values) => values,
        None => Vec::new(),
    };
    assert(values@ =~= table_or_nothing(source@, frame_length));
    match validate_coefficient_count(frame_length, 3 * frame_length, values.as_slice()) {
        Ok(_) => {},
        Err(error) => return Err(error),
    }
    Ok(values)
}

} // verus!
