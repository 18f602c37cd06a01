//! Spectral tuples and spectra.

use vstd::arithmetic::power2::{lemma2_to64, lemma_pow2_strictly_increases, lemma_pow2_unfold, pow2};
use vstd::prelude::*;

use crate::bits::{
    lemma_stands_flag, lemma_stands_split, stands_at, bits_value, lemma_value_bits_value, value_bits, BitCursor,
    BitError, BitReader,
};
use crate::codebook_laws::lemma_codebook;
use crate::huffman::{
    coefficient_base, coefficient_magnitude, coefficient_offset, decode_fdk_2bit, decode_word, escape_bits,
    escape_sequence, is_spectral, leading_exponent, lemma_codeword_decodes, lemma_escape_length, lemma_leading_exponent,
    lemma_short_codeword, magnitude, side_bits, sign_bits, spectral_codebook, spectral_table, stored_coefficient,
    tuple_bits, tuple_dimension, tuple_word, codeword, is_leaf, lemma_two_bits, pairs_one_bit_leaves, payload,
    row_pairs, HuffmanError,
};

verus! {

/// The quantised spectrum of each window of a frame.
#[derive(Debug, Clone, PartialEq, Eq)]
pub struct SpectralData {
    pub windows: Vec<Vec<i32>>,
}

/// Failures of spectral decoding.
#[derive(Debug, Clone, Copy, PartialEq, Eq, Structural)]
pub enum SpectralError {
    Bit(BitError),
    Huffman(HuffmanError),
    /// Band offsets do not describe the spectrum.
    InvalidBandOffsets,
    /// An escape sequence announces a magnitude beyond 8191.
    EscapeOutOfRange,
}

impl From<BitError> for SpectralError {
    fn from(value: BitError) -> (error: SpectralError) {
        SpectralError::Bit(value)
    }
}

impl vstd::std_specs::convert::FromSpecImpl<BitError> for SpectralError {
    open spec fn obeys_from_spec() -> bool {
        true
    }

    open spec fn from_spec(value: BitError) -> SpectralError {
        SpectralError::Bit(value)
    }
}

impl From<HuffmanError> for SpectralError {
    fn from(value: HuffmanError) -> (error: SpectralError) {
        SpectralError::Huffman(value)
    }
}

impl vstd::std_specs::convert::FromSpecImpl<HuffmanError> for SpectralError {
    open spec fn obeys_from_spec() -> bool {
        true
    }

    open spec fn from_spec(value: HuffmanError) -> SpectralError {
        SpectralError::Huffman(value)
    }
}

impl SpectralError {
    /// The diagnostic of this error.
    pub open spec fn message(self) -> Seq<char> {
        match self {
            SpectralError::Bit(error) => error.message(),
            SpectralError::Huffman(error) => error.message(),
            SpectralError::InvalidBandOffsets => "invalid scale-factor band offsets"@,
            SpectralError::EscapeOutOfRange => "spectral escape sequence is out of range"@,
        }
    }

    /// Renders the diagnostic of this error.
    pub fn to_string(&self) -> (message: String)
        ensures
            message@ == self.message(),
    {
        match self {
            SpectralError::Bit(error) => error.to_string(),
            SpectralError::Huffman(error) => error.to_string(),
            SpectralError::InvalidBandOffsets => crate::text::literal("invalid scale-factor band offsets"),
            SpectralError::EscapeOutOfRange => crate::text::literal("spectral escape sequence is out of range"),
        }
    }
}

/// The codebook whose table a section's codebook uses: the virtual codebooks
/// from sixteen on share the table of the escape codebook.
pub open spec fn table_codebook(codebook: u8) -> u8 {
    if 16 <= codebook <= 31 {
        11
    } else {
        codebook
    }
}

/// The coefficients that a table word packs.
pub open spec fn unpacked(codebook: u8, word: u16) -> Seq<i32> {
    let base = coefficient_base(codebook) as u16;
    let offset = coefficient_offset(codebook);
    if tuple_dimension(codebook) == 4 {
        seq![
            (word % 4 - offset) as i32,
            ((word / 4) % 4 - offset) as i32,
            ((word / 16) % 4 - offset) as i32,
            ((word / 64) % 4 - offset) as i32,
        ]
    } else {
        seq![(word % base - offset) as i32, ((word / base) % base - offset) as i32]
    }
}

/// Reading the signs of the non-zero coefficients from index `i` on.
pub open spec fn read_signs(values: Seq<i32>, i: int, cursor: BitCursor) -> (Result<Seq<i32>, SpectralError>, BitCursor)
    decreases values.len() - i,
{
    if i < 0 || i >= values.len() {
        (Ok(values), cursor)
    } else if values[i] == 0 {
        read_signs(values, i + 1, cursor)
    } else {
        match cursor.read_flag() {
            (Ok(negative), next) => read_signs(
                values.update(i, if negative { (-values[i]) as i32 } else { values[i] }),
                i + 1,
                next,
            ),
            (Err(error), next) => (Err(SpectralError::Bit(error)), next),
        }
    }
}

/// Reading the unary part of an escape sequence from a leading weight on.
pub open spec fn read_escape_exponent(exponent: nat, cursor: BitCursor) -> (Result<nat, SpectralError>, BitCursor)
    decreases 13 - exponent,
{
    match cursor.read_flag() {
        (Ok(more), next) => if !more {
            (Ok(exponent), next)
        } else if exponent >= 12 {
            (Err(SpectralError::EscapeOutOfRange), next)
        } else {
            read_escape_exponent(exponent + 1, next)
        },
        (Err(error), next) => (Err(SpectralError::Bit(error)), next),
    }
}

/// Reading an escape sequence: the magnitude that it stands for.
pub open spec fn read_escape(cursor: BitCursor) -> (Result<nat, SpectralError>, BitCursor) {
    match read_escape_exponent(4, cursor) {
        (Ok(exponent), middle) => match middle.read(exponent as int) {
            (Ok(digits), next) => (Ok(pow2(exponent) + digits), next),
            (Err(error), next) => (Err(SpectralError::Bit(error)), next),
        },
        (Err(error), next) => (Err(error), next),
    }
}

/// Reading the escapes of the coefficients of magnitude sixteen from index `i`
/// on.
pub open spec fn read_escapes(values: Seq<i32>, i: int, cursor: BitCursor) -> (
    Result<Seq<i32>, SpectralError>,
    BitCursor,
)
    decreases values.len() - i,
{
    if i < 0 || i >= values.len() {
        (Ok(values), cursor)
    } else if magnitude(values[i]) != 16 {
        read_escapes(values, i + 1, cursor)
    } else {
        match read_escape(cursor) {
            (Ok(value), next) => read_escapes(
                values.update(i, if values[i] < 0 { (-value) as i32 } else { value as i32 }),
                i + 1,
                next,
            ),
            (Err(error), next) => (Err(error), next),
        }
    }
}

/// Decoding one spectral tuple.
pub open spec fn decode_tuple(codebook: u8, cursor: BitCursor) -> (Result<Seq<i32>, SpectralError>, BitCursor) {
    let book = table_codebook(codebook);
    if !is_spectral(book) {
        (Err(SpectralError::Huffman(HuffmanError::InvalidCodebook(codebook))), cursor)
    } else {
        match decode_word(spectral_table(book), 0, cursor) {
            (Ok(word), behind) => if coefficient_offset(book) > 0 {
                (Ok(unpacked(book, word)), behind)
            } else {
                match read_signs(unpacked(book, word), 0, behind) {
                    (Ok(values), next) => if book == 11 {
                        read_escapes(values, 0, next)
                    } else {
                        (Ok(values), next)
                    },
                    (Err(error), next) => (Err(error), next),
                }
            },
            (Err(error), next) => (Err(SpectralError::Huffman(error)), next),
        }
    }
}

/// The view of a decoding result that holds a vector.
pub open spec fn tuple_result(result: Result<Vec<i32>, SpectralError>) -> Result<Seq<i32>, SpectralError> {
    match result {
        Ok(values) => Ok(values@),
        Err(error) => Err(error),
    }
}

/// Consumes an escape sequence.
fn parse_escape(reader: &mut BitReader<'_>) -> (result: Result<u32, SpectralError>)
    ensures
        match read_escape(old(reader)@) {
            (Ok(value), next) => result == Ok::<u32, SpectralError>(value as u32) && final(reader)@ == next && 16
                <= value < 8192,
            (Err(error), next) => result == Err::<u32, SpectralError>(error) && final(reader)@ == next,
        },
        old(reader)@.leads_to(final(reader)@),
{
    let _ = reader.bits_read();
    let mut exponent: usize = 4;
    loop
        invariant_except_break
            read_escape_exponent(exponent as nat, reader@) == read_escape_exponent(4, old(reader)@),
        invariant
            4 <= exponent <= 12,
            old(reader)@.leads_to(reader@),
        ensures
            read_escape_exponent(4, old(reader)@) == (Ok::<nat, SpectralError>(exponent as nat), reader@),
        decreases 13 - exponent,
    {
        match reader.read_bool() {
            Ok(more) => {
                if !more {
                    break ;
                }
                if exponent >= 12 {
                    return Err(SpectralError::EscapeOutOfRange);
                }
                exponent = exponent + 1;
            },
            Err(error) => {
                return Err(SpectralError::Bit(error));
            },
        }
    }
    proof {
        lemma2_to64();
        if exponent > 4 {
            lemma_pow2_strictly_increases(4, exponent as nat);
        }
        lemma_pow2_strictly_increases(exponent as nat, 13);
        lemma_pow2_unfold((exponent + 1) as nat);
        if exponent < 12 {
            lemma_pow2_strictly_increases((exponent + 1) as nat, 13);
        }
        vstd::bits::lemma_u32_shl_is_mul(1u32, exponent as u32);
    }
    match reader.read_u32(exponent) {
        Ok(digits) => Ok((1u32 << (exponent as u32)) + digits),
        Err(error) => Err(SpectralError::Bit(error)),
    }
}

/// Decodes one spectral tuple.
pub fn decode_spectral_tuple(reader: &mut BitReader<'_>, codebook: u8) -> (result: Result<Vec<i32>, SpectralError>)
    ensures
        (tuple_result(result), final(reader)@) == decode_tuple(codebook, old(reader)@),
        old(reader)@.leads_to(final(reader)@),
{
    let book: u8 = if 16 <= codebook && codebook <= 31 {
        11
    } else {
        codebook
    };
    let _ = reader.bits_read();
    let description = match spectral_codebook(book) {
        Ok(description) => description,
        Err(_) => {
            return Err(SpectralError::Huffman(HuffmanError::InvalidCodebook(codebook)));
        },
    };
    let word: u16 = match decode_fdk_2bit(reader, description.table) {
        Ok(word) => word,
        Err(error) => {
            return Err(SpectralError::Huffman(error));
        },
    };
    let base: u16 = if book <= 4 {
        4
    } else if book <= 10 {
        16
    } else {
        32
    };
    let offset: i32 = description.offset as i32;
    let mut values: Vec<i32> = Vec::new();
    values.push((word % base) as i32 - offset);
    values.push(((word / base) % base) as i32 - offset);
    if book <= 4 {
        values.push(((word / 16) % 4) as i32 - offset);
        values.push(((word / 64) % 4) as i32 - offset);
    }
    assert(values@ =~= unpacked(book, word));
    if description.offset > 0 {
        return Ok(values);
    }
    let ghost behind = reader@;
    let mut index: usize = 0;
    while index < values.len()
        invariant
            index <= values@.len() <= 4,
            forall|i: int| 0 <= i < values@.len() ==> -32 < #[trigger] values@[i] < 32,
            old(reader)@.leads_to(reader@),
            read_signs(values@, index as int, reader@) == read_signs(unpacked(book, word), 0, behind),
            is_spectral(book),
            book == table_codebook(codebook),
            coefficient_offset(book) == 0,
            decode_word(spectral_table(book), 0, old(reader)@) == (Ok::<u16, HuffmanError>(word), behind),
        decreases values@.len() - index,
    {
        let value: i32 = values[index];
        if value != 0 {
            match reader.read_bool() {
                Ok(negative) => {
                    let signed: i32 = if negative {
                        -value
                    } else {
                        value
                    };
                    values.set(index, signed);
                },
                Err(error) => {
                    return Err(SpectralError::Bit(error));
                },
            }
        }
        index = index + 1;
    }
    if book == 11 {
        let ghost signed = values@;
        let ghost middle = reader@;
        let mut index: usize = 0;
        while index < values.len()
            invariant
                index <= values@.len() <= 4,
                old(reader)@.leads_to(reader@),
                read_escapes(values@, index as int, reader@) == read_escapes(signed, 0, middle),
                table_codebook(codebook) == 11,
                read_signs(unpacked(11, word), 0, behind) == (Ok::<Seq<i32>, SpectralError>(signed), middle),
                decode_word(spectral_table(11), 0, old(reader)@) == (Ok::<u16, HuffmanError>(word), behind),
            decreases values@.len() - index,
        {
            let value: i32 = values[index];
            if coefficient_magnitude(value) == 16 {
                match parse_escape(reader) {
                    Ok(magnitude) => {
                        let restored: i32 = if value < 0 {
                            -(magnitude as i32)
                        } else {
                            magnitude as i32
                        };
                        values.set(index, restored);
                    },
                    Err(error) => {
                        return Err(error);
                    },
                }
            }
            index = index + 1;
        }
    }
    Ok(values)
}

// ---------------------------------------------------------------------------
// Decoding undoes encoding
// ---------------------------------------------------------------------------

/// The coefficient before its escape and its sign are known.
spec fn reduced(coefficient: i32) -> i32 {
    if magnitude(coefficient) > 16 {
        16
    } else {
        magnitude(coefficient) as i32
    }
}

/// The coefficient before its escape is known.
spec fn reduced_signed(coefficient: i32) -> i32 {
    if coefficient < 0 {
        (-reduced(coefficient)) as i32
    } else {
        reduced(coefficient)
    }
}

spec fn partly_signed(coefficients: Seq<i32>, i: int) -> Seq<i32> {
    Seq::new(
        coefficients.len(),
        |k: int|
            if k < i {
                reduced_signed(coefficients[k])
            } else {
                reduced(coefficients[k])
            },
    )
}

spec fn partly_escaped(coefficients: Seq<i32>, i: int) -> Seq<i32> {
    Seq::new(
        coefficients.len(),
        |k: int|
            if k < i {
                coefficients[k]
            } else {
                reduced_signed(coefficients[k])
            },
    )
}

proof fn lemma_sign_bits_split(coefficients: Seq<i32>, i: int)
    requires
        0 <= i < coefficients.len(),
    ensures
        sign_bits(coefficients.skip(i)) == (if coefficients[i] == 0 {
            Seq::<bool>::empty()
        } else {
            seq![coefficients[i] < 0]
        }) + sign_bits(coefficients.skip(i + 1)),
    decreases coefficients.len() - i,
{
    let tail = coefficients.skip(i);
    let rest = coefficients.skip(i + 1);
    let head = if coefficients[i] == 0 {
        Seq::<bool>::empty()
    } else {
        seq![coefficients[i] < 0]
    };
    if rest.len() == 0 {
        assert(tail.drop_last() =~= Seq::<i32>::empty());
        assert(sign_bits(tail.drop_last()) =~= Seq::<bool>::empty());
        assert(sign_bits(tail) =~= head + sign_bits(rest));
    } else {
        let shorter = coefficients.drop_last();
        lemma_sign_bits_split(shorter, i);
        assert(tail.drop_last() =~= shorter.skip(i));
        assert(rest.drop_last() =~= shorter.skip(i + 1));
        assert(tail.last() == rest.last());
        assert(sign_bits(tail) =~= head + sign_bits(rest));
    }
}

proof fn lemma_escape_bits_split(coefficients: Seq<i32>, i: int)
    requires
        0 <= i < coefficients.len(),
    ensures
        escape_bits(coefficients.skip(i)) == (if magnitude(coefficients[i]) >= 16 {
            escape_sequence(magnitude(coefficients[i]))
        } else {
            Seq::<bool>::empty()
        }) + escape_bits(coefficients.skip(i + 1)),
    decreases coefficients.len() - i,
{
    let tail = coefficients.skip(i);
    let rest = coefficients.skip(i + 1);
    let head = if magnitude(coefficients[i]) >= 16 {
        escape_sequence(magnitude(coefficients[i]))
    } else {
        Seq::<bool>::empty()
    };
    if rest.len() == 0 {
        assert(tail.drop_last() =~= Seq::<i32>::empty());
        assert(escape_bits(tail.drop_last()) =~= Seq::<bool>::empty());
        assert(escape_bits(tail) =~= head + escape_bits(rest));
    } else {
        let shorter = coefficients.drop_last();
        lemma_escape_bits_split(shorter, i);
        assert(tail.drop_last() =~= shorter.skip(i));
        assert(rest.drop_last() =~= shorter.skip(i + 1));
        assert(tail.last() == rest.last());
        assert(escape_bits(tail) =~= head + escape_bits(rest));
    }
}

proof fn lemma_signs_decode(coefficients: Seq<i32>, i: int, cursor: BitCursor)
    requires
        0 <= i <= coefficients.len(),
        stands_at(sign_bits(coefficients.skip(i)), cursor),
    ensures
        read_signs(partly_signed(coefficients, i), i, cursor) == (
            Ok::<Seq<i32>, SpectralError>(partly_signed(coefficients, coefficients.len() as int)),
            cursor.advance(sign_bits(coefficients.skip(i)).len() as int),
        ),
    decreases coefficients.len() - i,
{
    if i < coefficients.len() {
        lemma_sign_bits_split(coefficients, i);
        let head = if coefficients[i] == 0 {
            Seq::<bool>::empty()
        } else {
            seq![coefficients[i] < 0]
        };
        lemma_stands_split(head, sign_bits(coefficients.skip(i + 1)), cursor);
        lemma_signs_decode(coefficients, i + 1, cursor.advance(head.len() as int));
        if coefficients[i] == 0 {
            assert(partly_signed(coefficients, i + 1) =~= partly_signed(coefficients, i));
        } else {
            lemma_stands_flag(coefficients[i] < 0, cursor);
            let value = partly_signed(coefficients, i)[i];
            assert(partly_signed(coefficients, i + 1) =~= partly_signed(coefficients, i).update(
                i,
                if coefficients[i] < 0 { (-value) as i32 } else { value },
            ));
        }
    } else {
        assert(coefficients.skip(i) =~= Seq::<i32>::empty());
    }
}

proof fn lemma_exponent_decodes(start: nat, exponent: nat, cursor: BitCursor)
    requires
        start <= exponent <= 12,
        stands_at(Seq::new((exponent - start) as nat, |i: int| true).push(false), cursor),
    ensures
        read_escape_exponent(start, cursor) == (
            Ok::<nat, SpectralError>(exponent),
            cursor.advance(exponent - start + 1),
        ),
    decreases exponent - start,
{
    let unary = Seq::new((exponent - start) as nat, |i: int| true).push(false);
    if start == exponent {
        assert(unary =~= seq![false]);
        lemma_stands_flag(false, cursor);
    } else {
        let rest = Seq::new((exponent - start - 1) as nat, |i: int| true).push(false);
        assert(unary =~= seq![true] + rest);
        lemma_stands_split(seq![true], rest, cursor);
        lemma_stands_flag(true, cursor);
        lemma_exponent_decodes(start + 1, exponent, cursor.advance(1));
    }
}

/// Reading the escape sequence of a magnitude gives the magnitude.
pub proof fn lemma_escape_decodes(value: nat, cursor: BitCursor)
    requires
        16 <= value < 8192,
        stands_at(escape_sequence(value), cursor),
    ensures
        read_escape(cursor) == (
            Ok::<nat, SpectralError>(value),
            cursor.advance(escape_sequence(value).len() as int),
        ),
{
    lemma_escape_length(value);
    lemma_leading_exponent(value);
    let exponent = leading_exponent(value);
    let unary = Seq::new((exponent - 4) as nat, |i: int| true).push(false);
    let digits = (value - pow2(exponent)) as nat;
    lemma_value_bits_value(digits, exponent);
    lemma_stands_split(unary, value_bits(digits, exponent), cursor);
    lemma_exponent_decodes(4, exponent, cursor);
}

proof fn lemma_escapes_decode(coefficients: Seq<i32>, i: int, cursor: BitCursor)
    requires
        0 <= i <= coefficients.len(),
        forall|k: int| 0 <= k < coefficients.len() ==> magnitude(#[trigger] coefficients[k]) < 8192,
        stands_at(escape_bits(coefficients.skip(i)), cursor),
    ensures
        read_escapes(partly_escaped(coefficients, i), i, cursor) == (
            Ok::<Seq<i32>, SpectralError>(coefficients),
            cursor.advance(escape_bits(coefficients.skip(i)).len() as int),
        ),
    decreases coefficients.len() - i,
{
    if i < coefficients.len() {
        lemma_escape_bits_split(coefficients, i);
        let value = magnitude(coefficients[i]);
        let head = if value >= 16 {
            escape_sequence(value)
        } else {
            Seq::<bool>::empty()
        };
        lemma_stands_split(head, escape_bits(coefficients.skip(i + 1)), cursor);
        lemma_escapes_decode(coefficients, i + 1, cursor.advance(head.len() as int));
        let current = partly_escaped(coefficients, i);
        assert(current[i] == reduced_signed(coefficients[i]));
        if value >= 16 {
            lemma_escape_decodes(value, cursor);
            assert(partly_escaped(coefficients, i + 1) =~= current.update(
                i,
                if current[i] < 0 { (-value) as i32 } else { value as i32 },
            ));
        } else {
            assert(partly_escaped(coefficients, i + 1) =~= current);
        }
    } else {
        assert(coefficients.skip(i) =~= Seq::<i32>::empty());
        assert(partly_escaped(coefficients, i) =~= coefficients);
    }
}

proof fn lemma_four_digits(word: u16, a: nat, b: nat, c: nat, d: nat)
    requires
        a < 4,
        b < 4,
        c < 4,
        d < 4,
        word == a + 4 * b + 16 * c + 64 * d,
    ensures
        word % 4 == a,
        (word / 4) % 4 == b,
        (word / 16) % 4 == c,
        (word / 64) % 4 == d,
{
    let upper = b + 4 * c + 16 * d;
    lemma_last_digit(word as int, a as int, upper as int);
    lemma_last_digit(upper as int, b as int, (c + 4 * d) as int);
    lemma_last_digit((c + 4 * d) as int, c as int, d as int);
    assert(word / 16 == (word / 4) / 4);
    assert(word / 64 == (word / 16) / 4);
}

proof fn lemma_last_digit(word: int, digit: int, upper: int)
    requires
        0 <= digit < 4,
        word == digit + 4 * upper,
    ensures
        word % 4 == digit,
        word / 4 == upper,
{
}

proof fn lemma_two_digits(word: u16, base: u16, a: nat, b: nat)
    requires
        base == 16 || base == 32,
        a < base,
        b < base,
        word == a + base * b,
    ensures
        word % base == a,
        (word / base) % base == b,
{
}

/// Unpacking the word of a tuple gives its stored coefficients back.
proof fn lemma_unpacked(codebook: u8, coefficients: Seq<i32>)
    requires
        is_spectral(codebook),
        coefficients.len() == tuple_dimension(codebook),
        tuple_word(codebook, coefficients) is Some,
    ensures
        coefficient_offset(codebook) > 0 ==> unpacked(codebook, tuple_word(codebook, coefficients)->0) == coefficients,
        coefficient_offset(codebook) == 0 ==> unpacked(codebook, tuple_word(codebook, coefficients)->0)
            == partly_signed(coefficients, 0),
        codebook == 11 ==> forall|k: int|
            0 <= k < coefficients.len() ==> magnitude(#[trigger] coefficients[k]) < 8192,
        coefficient_offset(codebook) == 0 && codebook != 11 ==> forall|k: int|
            0 <= k < coefficients.len() ==> magnitude(#[trigger] coefficients[k]) < 16,
{
    let stored = coefficients.map_values(|coefficient: i32| stored_coefficient(codebook, coefficient)->0);
    assert forall|k: int| 0 <= k < coefficients.len() implies (#[trigger] stored[k]) == stored_coefficient(
        codebook,
        coefficients[k],
    )->0 && stored[k] < coefficient_base(codebook) by {
        assert(stored_coefficient(codebook, coefficients[k]) is Some);
    }
    let word = tuple_word(codebook, coefficients)->0;
    assert(stored[0] < coefficient_base(codebook) && stored[1] < coefficient_base(codebook));
    if tuple_dimension(codebook) == 4 {
        assert(stored[2] < 4 && stored[3] < 4);
        lemma_four_digits(word, stored[0], stored[1], stored[2], stored[3]);
        assert(unpacked(codebook, word) =~= seq![
            (stored[0] - coefficient_offset(codebook)) as i32,
            (stored[1] - coefficient_offset(codebook)) as i32,
            (stored[2] - coefficient_offset(codebook)) as i32,
            (stored[3] - coefficient_offset(codebook)) as i32,
        ]);
    } else {
        if codebook <= 10 {
            assert(word == stored[0] + 16 * stored[1]);
        } else {
            assert(word == stored[0] + 32 * stored[1]);
        }
        lemma_two_digits(word, coefficient_base(codebook) as u16, stored[0], stored[1]);
        assert(unpacked(codebook, word) =~= seq![
            (stored[0] - coefficient_offset(codebook)) as i32,
            (stored[1] - coefficient_offset(codebook)) as i32,
        ]);
    }
    if coefficient_offset(codebook) > 0 {
        assert(unpacked(codebook, word) =~= coefficients);
    } else {
        assert(unpacked(codebook, word) =~= partly_signed(coefficients, 0));
    }
}

/// Decoding a tuple where an encoded tuple stands gives the tuple back and
/// consumes exactly its bits.
pub proof fn lemma_tuple_decodes(codebook: u8, coefficients: Seq<i32>, cursor: BitCursor)
    requires
        tuple_bits(codebook, coefficients) matches Some(bits) && stands_at(bits, cursor),
    ensures
        decode_tuple(codebook, cursor) == (
            Ok::<Seq<i32>, SpectralError>(coefficients),
            cursor.advance(tuple_bits(codebook, coefficients)->0.len() as int),
        ),
{
    let word = tuple_word(codebook, coefficients)->0;
    lemma_codebook(codebook, word);
    lemma_short_codeword(spectral_table(codebook), word);
    let code = codeword(spectral_table(codebook), word)->0;
    lemma_stands_split(code, side_bits(codebook, coefficients), cursor);
    lemma_codeword_decodes(spectral_table(codebook), word, cursor);
    lemma_unpacked(codebook, coefficients);
    let behind = cursor.advance(code.len() as int);
    assert(coefficients.skip(0) =~= coefficients);
    if coefficient_offset(codebook) == 0 {
        let signs = sign_bits(coefficients);
        let escapes = if codebook == 11 {
            escape_bits(coefficients)
        } else {
            Seq::<bool>::empty()
        };
        assert(side_bits(codebook, coefficients) == signs + escapes);
        lemma_stands_split(signs, escapes, behind);
        lemma_signs_decode(coefficients, 0, behind);
        let signed = partly_signed(coefficients, coefficients.len() as int);
        if codebook == 11 {
            assert(signed =~= partly_escaped(coefficients, 0));
            lemma_escapes_decode(coefficients, 0, behind.advance(signs.len() as int));
        } else {
            assert(signed =~= coefficients);
        }
    }
}

// ---------------------------------------------------------------------------
// Decoding does not look behind what it consumes
// ---------------------------------------------------------------------------

proof fn lemma_word_prefix(table: Seq<[u16; 4]>, row: int, bits: Seq<bool>, pos: int, used: int, word: u16, kept: int)
    requires
        pairs_one_bit_leaves(table),
        0 <= row,
        0 <= pos <= bits.len(),
        decode_word(table, row, BitCursor::at(bits, pos)) == (Ok::<u16, HuffmanError>(word), BitCursor::at(bits, used)),
        used <= kept <= bits.len(),
    ensures
        pos < used,
        decode_word(table, row, BitCursor::at(bits.take(kept), pos)) == (
            Ok::<u16, HuffmanError>(word),
            BitCursor::at(bits.take(kept), used),
        ),
    decreases bits.len() - pos,
{
    let cursor = BitCursor::at(bits, pos);
    assert(cursor.remaining() == bits.len() - pos);
    assert(row_pairs(table[row]));
    if cursor.remaining() == 1 {
        assert(bits.take(kept) =~= bits);
    } else {
        let pair = bits.subrange(pos, pos + 2);
        lemma_two_bits(pair);
        let entry = table[row]@[bits_value(pair) as int];
        if is_leaf(entry) {
            if kept >= pos + 2 {
                assert(bits.take(kept).subrange(pos, pos + 2) =~= pair);
            } else {
                assert(bits.take(kept)[pos] == bits[pos]);
            }
        } else {
            lemma_word_prefix(table, payload(entry) as int, bits, pos + 2, used, word, kept);
            assert(bits.take(kept).subrange(pos, pos + 2) =~= pair);
        }
    }
}

proof fn lemma_signs_prefix(values: Seq<i32>, i: int, bits: Seq<bool>, pos: int, used: int, signed: Seq<i32>, kept: int)
    requires
        0 <= i,
        0 <= pos,
        read_signs(values, i, BitCursor::at(bits, pos)) == (
            Ok::<Seq<i32>, SpectralError>(signed),
            BitCursor::at(bits, used),
        ),
        used <= kept <= bits.len(),
    ensures
        pos <= used,
        read_signs(values, i, BitCursor::at(bits.take(kept), pos)) == (
            Ok::<Seq<i32>, SpectralError>(signed),
            BitCursor::at(bits.take(kept), used),
        ),
    decreases values.len() - i,
{
    if i < values.len() {
        if values[i] == 0 {
            lemma_signs_prefix(values, i + 1, bits, pos, used, signed, kept);
        } else {
            let updated = values.update(i, if bits[pos] { (-values[i]) as i32 } else { values[i] });
            lemma_signs_prefix(updated, i + 1, bits, pos + 1, used, signed, kept);
            assert(bits.take(kept)[pos] == bits[pos]);
        }
    }
}

proof fn lemma_exponent_prefix(start: nat, bits: Seq<bool>, pos: int, used: int, exponent: nat, kept: int)
    requires
        0 <= pos,
        read_escape_exponent(start, BitCursor::at(bits, pos)) == (
            Ok::<nat, SpectralError>(exponent),
            BitCursor::at(bits, used),
        ),
        used <= kept <= bits.len(),
    ensures
        pos < used,
        read_escape_exponent(start, BitCursor::at(bits.take(kept), pos)) == (
            Ok::<nat, SpectralError>(exponent),
            BitCursor::at(bits.take(kept), used),
        ),
    decreases 13 - start,
{
    if bits[pos] && start < 12 {
        lemma_exponent_prefix(start + 1, bits, pos + 1, used, exponent, kept);
    }
    assert(pos + 1 <= used);
    assert(bits.take(kept)[pos] == bits[pos]);
}

proof fn lemma_escapes_prefix(values: Seq<i32>, i: int, bits: Seq<bool>, pos: int, used: int, restored: Seq<i32>, kept: int)
    requires
        0 <= i,
        0 <= pos,
        read_escapes(values, i, BitCursor::at(bits, pos)) == (
            Ok::<Seq<i32>, SpectralError>(restored),
            BitCursor::at(bits, used),
        ),
        used <= kept <= bits.len(),
    ensures
        pos <= used,
        read_escapes(values, i, BitCursor::at(bits.take(kept), pos)) == (
            Ok::<Seq<i32>, SpectralError>(restored),
            BitCursor::at(bits.take(kept), used),
        ),
    decreases values.len() - i,
{
    if i < values.len() {
        if magnitude(values[i]) != 16 {
            lemma_escapes_prefix(values, i + 1, bits, pos, used, restored, kept);
        } else {
            let cursor = BitCursor::at(bits, pos);
            let (unary, middle) = read_escape_exponent(4, cursor);
            let exponent = unary->Ok_0;
            let (value, next) = read_escape(cursor);
            lemma_exponent_frame(4, cursor);
            let updated = values.update(i, if values[i] < 0 { (-value->Ok_0) as i32 } else { value->Ok_0 as i32 });
            assert(next == BitCursor::at(bits, next.pos));
            lemma_escapes_prefix(updated, i + 1, bits, next.pos, used, restored, kept);
            lemma_exponent_prefix(4, bits, pos, middle.pos, exponent, kept);
            assert(bits.take(kept).subrange(middle.pos, middle.pos + exponent) =~= bits.subrange(
                middle.pos,
                middle.pos + exponent,
            ));
        }
    }
}

proof fn lemma_exponent_frame(start: nat, cursor: BitCursor)
    requires
        0 <= cursor.pos,
    ensures
        read_escape_exponent(start, cursor).1.bits == cursor.bits,
        read_escape_exponent(start, cursor).1.pos >= cursor.pos,
    decreases 13 - start,
{
    if 1 <= cursor.remaining() && cursor.bits[cursor.pos] && start < 12 {
        lemma_exponent_frame(start + 1, cursor.advance(1));
    }
}

proof fn lemma_word_frame(table: Seq<[u16; 4]>, row: int, cursor: BitCursor)
    ensures
        decode_word(table, row, cursor).1.bits == cursor.bits,
        decode_word(table, row, cursor).1.pos >= cursor.pos,
    decreases cursor.remaining(),
{
    if row < table.len() && cursor.remaining() >= 2 {
        let entry = table[row]@[bits_value(cursor.bits.subrange(cursor.pos, cursor.pos + 2)) as int];
        if !is_leaf(entry) {
            lemma_word_frame(table, payload(entry) as int, cursor.advance(2));
        }
    }
}

proof fn lemma_signs_frame(values: Seq<i32>, i: int, cursor: BitCursor)
    ensures
        read_signs(values, i, cursor).1.bits == cursor.bits,
        read_signs(values, i, cursor).1.pos >= cursor.pos,
    decreases values.len() - i,
{
    if 0 <= i < values.len() {
        if values[i] == 0 {
            lemma_signs_frame(values, i + 1, cursor);
        } else if 1 <= cursor.remaining() {
            let updated = values.update(i, if cursor.bits[cursor.pos] { (-values[i]) as i32 } else { values[i] });
            lemma_signs_frame(updated, i + 1, cursor.advance(1));
        }
    }
}

/// What decodes from some bits decodes to the same tuple from any prefix of
/// them that holds what was consumed.
pub proof fn lemma_decode_prefix(codebook: u8, bits: Seq<bool>, coefficients: Seq<i32>, used: int, kept: int)
    requires
        decode_tuple(codebook, BitCursor::at(bits, 0)) == (
            Ok::<Seq<i32>, SpectralError>(coefficients),
            BitCursor::at(bits, used),
        ),
        used <= kept <= bits.len(),
    ensures
        decode_tuple(codebook, BitCursor::at(bits.take(kept), 0)) == (
            Ok::<Seq<i32>, SpectralError>(coefficients),
            BitCursor::at(bits.take(kept), used),
        ),
{
    let book = table_codebook(codebook);
    let table = spectral_table(book);
    let cursor = BitCursor::at(bits, 0);
    let (word, behind) = decode_word(table, 0, cursor);
    lemma_codebook(book, 0);
    lemma_word_frame(table, 0, cursor);
    assert(behind == BitCursor::at(bits, behind.pos));
    if coefficient_offset(book) == 0 {
        let values = unpacked(book, word->Ok_0);
        let (signed, next) = read_signs(values, 0, behind);
        lemma_signs_frame(values, 0, behind);
        assert(next == BitCursor::at(bits, next.pos));
        if book == 11 {
            lemma_escapes_prefix(signed->Ok_0, 0, bits, next.pos, used, coefficients, kept);
        }
        lemma_signs_prefix(values, 0, bits, behind.pos, next.pos, signed->Ok_0, kept);
    }
    lemma_word_prefix(table, 0, bits, 0, behind.pos, word->Ok_0, kept);
}

/// Whether an error says that there were too few bits.
pub open spec fn lacks_input(error: SpectralError) -> bool {
    match error {
        SpectralError::Bit(BitError::UnexpectedEof { .. }) => true,
        SpectralError::Huffman(HuffmanError::Bit(BitError::UnexpectedEof { .. })) => true,
        _ => false,
    }
}

proof fn lemma_word_cut(table: Seq<[u16; 4]>, row: int, bits: Seq<bool>, pos: int, used: int, word: u16, kept: int)
    requires
        pairs_one_bit_leaves(table),
        0 <= row,
        0 <= pos <= kept < used,
        kept <= bits.len(),
        decode_word(table, row, BitCursor::at(bits, pos)) == (Ok::<u16, HuffmanError>(word), BitCursor::at(bits, used)),
    ensures
        decode_word(table, row, BitCursor::at(bits.take(kept), pos)).0 matches Err(HuffmanError::Bit(
            BitError::UnexpectedEof { .. },
        )),
    decreases bits.len() - pos,
{
    let cursor = BitCursor::at(bits, pos);
    assert(cursor.remaining() == bits.len() - pos);
    assert(row_pairs(table[row]));
    let shorter = BitCursor::at(bits.take(kept), pos);
    assert(shorter.remaining() == kept - pos);
    if cursor.remaining() >= 2 {
        let pair = bits.subrange(pos, pos + 2);
        lemma_two_bits(pair);
        let entry = table[row]@[bits_value(pair) as int];
        if kept >= pos + 2 {
            assert(bits.take(kept).subrange(pos, pos + 2) =~= pair);
            assert(!is_leaf(entry));
            lemma_word_cut(table, payload(entry) as int, bits, pos + 2, used, word, kept);
        } else if kept == pos + 1 {
            assert(bits.take(kept)[pos] == bits[pos]);
        }
    }
}

proof fn lemma_signs_cut(values: Seq<i32>, i: int, bits: Seq<bool>, pos: int, used: int, signed: Seq<i32>, kept: int)
    requires
        0 <= i,
        0 <= pos <= kept < used,
        kept <= bits.len(),
        read_signs(values, i, BitCursor::at(bits, pos)) == (
            Ok::<Seq<i32>, SpectralError>(signed),
            BitCursor::at(bits, used),
        ),
    ensures
        read_signs(values, i, BitCursor::at(bits.take(kept), pos)).0 matches Err(error) && lacks_input(error),
    decreases values.len() - i,
{
    if i < values.len() {
        if values[i] == 0 {
            lemma_signs_cut(values, i + 1, bits, pos, used, signed, kept);
        } else if pos < kept {
            let updated = values.update(i, if bits[pos] { (-values[i]) as i32 } else { values[i] });
            lemma_signs_cut(updated, i + 1, bits, pos + 1, used, signed, kept);
            assert(bits.take(kept)[pos] == bits[pos]);
        }
    }
}

proof fn lemma_exponent_cut(start: nat, bits: Seq<bool>, pos: int, used: int, exponent: nat, kept: int)
    requires
        0 <= pos <= kept < used,
        kept <= bits.len(),
        read_escape_exponent(start, BitCursor::at(bits, pos)) == (
            Ok::<nat, SpectralError>(exponent),
            BitCursor::at(bits, used),
        ),
    ensures
        read_escape_exponent(start, BitCursor::at(bits.take(kept), pos)).0 matches Err(error) && lacks_input(error),
    decreases 13 - start,
{
    if pos < kept {
        assert(bits.take(kept)[pos] == bits[pos]);
        if bits[pos] && start < 12 {
            lemma_exponent_cut(start + 1, bits, pos + 1, used, exponent, kept);
        }
    }
}

proof fn lemma_escapes_cut(values: Seq<i32>, i: int, bits: Seq<bool>, pos: int, used: int, restored: Seq<i32>, kept: int)
    requires
        0 <= i,
        0 <= pos <= kept < used,
        kept <= bits.len(),
        read_escapes(values, i, BitCursor::at(bits, pos)) == (
            Ok::<Seq<i32>, SpectralError>(restored),
            BitCursor::at(bits, used),
        ),
    ensures
        read_escapes(values, i, BitCursor::at(bits.take(kept), pos)).0 matches Err(error) && lacks_input(error),
    decreases values.len() - i,
{
    if i < values.len() {
        if magnitude(values[i]) != 16 {
            lemma_escapes_cut(values, i + 1, bits, pos, used, restored, kept);
        } else {
            let cursor = BitCursor::at(bits, pos);
            let (unary, middle) = read_escape_exponent(4, cursor);
            let exponent = unary->Ok_0;
            let (value, next) = read_escape(cursor);
            lemma_exponent_frame(4, cursor);
            assert(middle == BitCursor::at(bits, middle.pos));
            if kept < middle.pos {
                lemma_exponent_cut(4, bits, pos, middle.pos, exponent, kept);
            } else {
                lemma_exponent_prefix(4, bits, pos, middle.pos, exponent, kept);
                if kept >= middle.pos + exponent {
                    let updated = values.update(i, if values[i] < 0 { (-value->Ok_0) as i32 } else { value->Ok_0 as i32 });
                    assert(next == BitCursor::at(bits, next.pos));
                    lemma_escapes_cut(updated, i + 1, bits, next.pos, used, restored, kept);
                    assert(bits.take(kept).subrange(middle.pos, middle.pos + exponent) =~= bits.subrange(
                        middle.pos,
                        middle.pos + exponent,
                    ));
                }
            }
        }
    }
}

/// Bits that are cut off before the end of what decoding consumes are too few.
pub proof fn lemma_decode_cut(codebook: u8, bits: Seq<bool>, coefficients: Seq<i32>, used: int, kept: int)
    requires
        decode_tuple(codebook, BitCursor::at(bits, 0)) == (
            Ok::<Seq<i32>, SpectralError>(coefficients),
            BitCursor::at(bits, used),
        ),
        0 <= kept < used,
        kept <= bits.len(),
    ensures
        decode_tuple(codebook, BitCursor::at(bits.take(kept), 0)).0 matches Err(error) && lacks_input(error),
{
    let book = table_codebook(codebook);
    let table = spectral_table(book);
    let cursor = BitCursor::at(bits, 0);
    let (word, behind) = decode_word(table, 0, cursor);
    lemma_codebook(book, 0);
    lemma_word_frame(table, 0, cursor);
    assert(behind == BitCursor::at(bits, behind.pos));
    if kept < behind.pos {
        lemma_word_cut(table, 0, bits, 0, behind.pos, word->Ok_0, kept);
    } else {
        lemma_word_prefix(table, 0, bits, 0, behind.pos, word->Ok_0, kept);
        let values = unpacked(book, word->Ok_0);
        let (signed, next) = read_signs(values, 0, behind);
        lemma_signs_frame(values, 0, behind);
        assert(next == BitCursor::at(bits, next.pos));
        if kept < next.pos {
            lemma_signs_cut(values, 0, bits, behind.pos, next.pos, signed->Ok_0, kept);
        } else {
            lemma_signs_prefix(values, 0, bits, behind.pos, next.pos, signed->Ok_0, kept);
            lemma_escapes_cut(signed->Ok_0, 0, bits, next.pos, used, coefficients, kept);
        }
    }
}

/// Decoding keeps the bits, and consumes some where it succeeds.
pub proof fn lemma_decode_frame(codebook: u8, cursor: BitCursor)
    requires
        0 <= cursor.pos <= cursor.bits.len(),
    ensures
        decode_tuple(codebook, cursor).0 is Ok ==> decode_tuple(codebook, cursor).1.bits == cursor.bits,
{
    let book = table_codebook(codebook);
    if is_spectral(book) {
        let (word, behind) = decode_word(spectral_table(book), 0, cursor);
        lemma_word_frame(spectral_table(book), 0, cursor);
        if word is Ok && coefficient_offset(book) == 0 {
            let values = unpacked(book, word->Ok_0);
            lemma_signs_frame(values, 0, behind);
            let (signed, next) = read_signs(values, 0, behind);
            if signed is Ok && book == 11 {
                lemma_escapes_frame(signed->Ok_0, 0, next);
            }
        }
    }
}

proof fn lemma_escapes_frame(values: Seq<i32>, i: int, cursor: BitCursor)
    requires
        0 <= cursor.pos,
    ensures
        read_escapes(values, i, cursor).1.bits == cursor.bits,
    decreases values.len() - i,
{
    if 0 <= i < values.len() {
        if magnitude(values[i]) != 16 {
            lemma_escapes_frame(values, i + 1, cursor);
        } else {
            lemma_exponent_frame(4, cursor);
            let (value, next) = read_escape(cursor);
            if value is Ok {
                let updated = values.update(i, if values[i] < 0 { (-value->Ok_0) as i32 } else { value->Ok_0 as i32 });
                lemma_escapes_frame(updated, i + 1, next);
            }
        }
    }
}

/// The length of a tuple's result where decoding succeeds.
pub proof fn lemma_decode_dimension(codebook: u8, cursor: BitCursor)
    ensures
        decode_tuple(codebook, cursor).0 matches Ok(coefficients) ==> coefficients.len() == tuple_dimension(
            table_codebook(codebook),
        ),
{
    let book = table_codebook(codebook);
    if is_spectral(book) {
        let (word, behind) = decode_word(spectral_table(book), 0, cursor);
        if word is Ok && coefficient_offset(book) == 0 {
            let values = unpacked(book, word->Ok_0);
            lemma_signs_len(values, 0, behind);
            let (signed, next) = read_signs(values, 0, behind);
            if signed is Ok && book == 11 {
                lemma_escapes_len(signed->Ok_0, 0, next);
            }
        }
    }
}

proof fn lemma_signs_len(values: Seq<i32>, i: int, cursor: BitCursor)
    ensures
        read_signs(values, i, cursor).0 matches Ok(signed) ==> signed.len() == values.len(),
    decreases values.len() - i,
{
    if 0 <= i < values.len() {
        if values[i] == 0 {
            lemma_signs_len(values, i + 1, cursor);
        } else if 1 <= cursor.remaining() {
            let updated = values.update(i, if cursor.bits[cursor.pos] { (-values[i]) as i32 } else { values[i] });
            lemma_signs_len(updated, i + 1, cursor.advance(1));
        }
    }
}

proof fn lemma_escapes_len(values: Seq<i32>, i: int, cursor: BitCursor)
    ensures
        read_escapes(values, i, cursor).0 matches Ok(restored) ==> restored.len() == values.len(),
    decreases values.len() - i,
{
    if 0 <= i < values.len() {
        if magnitude(values[i]) != 16 {
            lemma_escapes_len(values, i + 1, cursor);
        } else {
            let (value, next) = read_escape(cursor);
            if value is Ok {
                let updated = values.update(i, if values[i] < 0 { (-value->Ok_0) as i32 } else { value->Ok_0 as i32 });
                lemma_escapes_len(updated, i + 1, next);
            }
        }
    }
}

} // verus!
