//! The variable-length values of the transport.

use vstd::arithmetic::power2::{lemma2_to64, lemma_pow2_adds, lemma_pow2_pos, lemma_pow2_strictly_increases, pow2};
use vstd::prelude::*;

use crate::bits::{
    bits_of, lemma_packed, lemma_stands_bit, lemma_stands_field, lemma_stands_split, lemma_two_then, lemma_value_bits_len,
    packed, stands_at, value_bits, BitCursor, BitError, BitReader, BitWriter,
};

use super::error::LatmError;

verus! {

// ---------------------------------------------------------------------------
// Payload lengths
// ---------------------------------------------------------------------------

/// A payload length in the stream: as many full bytes as fit, then the rest.
pub open spec fn payload_length_bits(length: nat) -> Seq<bool>
    decreases length,
{
    if length >= 255 {
        value_bits(255, 8) + payload_length_bits((length - 255) as nat)
    } else {
        value_bits(length, 8)
    }
}

/// Reading a payload length behind what was summed up before.
pub open spec fn read_payload_length(cursor: BitCursor, total: nat) -> (Result<usize, LatmError>, BitCursor)
    decreases cursor.bits.len() - cursor.pos,
{
    match cursor.read(8) {
        (Err(error), next) => (Err(LatmError::Bit(error)), next),
        (Ok(chunk), next) => if total + chunk > usize::MAX {
            (Err(LatmError::PayloadTooLarge), next)
        } else if chunk != 255 {
            (Ok((total + chunk) as usize), next)
        } else {
            read_payload_length(next, total + chunk)
        },
    }
}

/// Reads a payload length in bytes.
pub fn read_payload_length_bytes(reader: &mut BitReader<'_>) -> (result: Result<usize, LatmError>)
    ensures
        (result, final(reader)@) == read_payload_length(old(reader)@, 0),
        old(reader)@.leads_to(final(reader)@),
{
    let _ = reader.bits_read();
    let mut length: usize = 0;
    loop
        invariant
            old(reader)@.leads_to(reader@),
            read_payload_length(old(reader)@, 0) == read_payload_length(reader@, length as nat),
        decreases reader@.bits.len() - reader@.pos,
    {
        proof {
            lemma2_to64();
        }
        let chunk: u8 = match reader.read_u8(8) {
            Ok(chunk) => chunk,
            Err(error) => return Err(LatmError::Bit(error)),
        };
        length = match length.checked_add(chunk as usize) {
            Some(length) => length,
            None => return Err(LatmError::PayloadTooLarge),
        };
        if chunk != 255 {
            return Ok(length);
        }
    }
}

/// Writes a payload length in bytes.
pub fn write_payload_length(writer: &mut BitWriter, length: usize)
    ensures
        final(writer)@ == old(writer)@ + payload_length_bits(length as nat),
{
    let mut rest: usize = length;
    while rest >= 255
        invariant
            writer@ + payload_length_bits(rest as nat) == old(writer)@ + payload_length_bits(length as nat),
        decreases rest,
    {
        let ghost before = writer@;
        writer.write(255, 8);
        proof {
            lemma_two_then(before, value_bits(255, 8), payload_length_bits((rest - 255) as nat));
        }
        rest = rest - 255;
    }
    writer.write(rest as u32, 8);
}

/// A payload length that was written is read back.
pub proof fn lemma_payload_length(length: nat, total: nat, rest: Seq<bool>, cursor: BitCursor)
    requires
        total + length <= usize::MAX,
        stands_at(payload_length_bits(length) + rest, cursor),
    ensures
        read_payload_length(cursor, total) == (
            Ok::<usize, LatmError>((total + length) as usize),
            cursor.advance(payload_length_bits(length).len() as int),
        ),
        stands_at(rest, cursor.advance(payload_length_bits(length).len() as int)),
    decreases length,
{
    lemma2_to64();
    lemma_value_bits_len(255, 8);
    lemma_value_bits_len(length, 8);
    if length >= 255 {
        let shorter = (length - 255) as nat;
        lemma_two_then(value_bits(255, 8), payload_length_bits(shorter), rest);
        lemma_stands_field(255, 8, payload_length_bits(shorter) + rest, cursor);
        lemma_payload_length(shorter, total + 255, rest, cursor.advance(8));
    } else {
        lemma_stands_field(length, 8, rest, cursor);
    }
}

// ---------------------------------------------------------------------------
// Packed bits
// ---------------------------------------------------------------------------

/// Reading `count` bits into bytes.
pub open spec fn read_packed(cursor: BitCursor, count: int) -> (Result<Seq<u8>, LatmError>, BitCursor) {
    if count > cursor.remaining() {
        (
            Err(
                LatmError::Bit(
                    BitError::UnexpectedEof {
                        needed_bits: count as usize,
                        remaining_bits: cursor.remaining() as usize,
                    },
                ),
            ),
            cursor,
        )
    } else {
        (Ok(packed(cursor.bits.subrange(cursor.pos, cursor.pos + count))), cursor.advance(count))
    }
}

/// Reads `bits` bits into bytes, the last one filled up with zero bits.
pub fn read_packed_bits(reader: &mut BitReader<'_>, bits: usize) -> (result: Result<Vec<u8>, LatmError>)
    ensures
        final(reader)@ == read_packed(old(reader)@, bits as int).1,
        old(reader)@.leads_to(final(reader)@),
        match read_packed(old(reader)@, bits as int).0 {
            Ok(bytes) => result matches Ok(list) && list@ == bytes && list@.len() * 8 <= usize::MAX,
            Err(error) => result == Err::<Vec<u8>, LatmError>(error),
        },
{
    let _ = reader.bits_read();
    let available: usize = reader.remaining_bits();
    if bits > available {
        return Err(LatmError::Bit(BitError::UnexpectedEof { needed_bits: bits, remaining_bits: available }));
    }
    let ghost start = reader@;
    let mut writer: BitWriter = BitWriter::new();
    let mut done: usize = 0;
    assert(writer@ =~= start.bits.subrange(start.pos, start.pos));
    while done < bits
        invariant
            done <= bits,
            0 <= start.pos,
            start.pos + bits <= start.bits.len() <= usize::MAX,
            reader@ == start.advance(done as int),
            writer@ == start.bits.subrange(start.pos, start.pos + done),
        decreases bits - done,
    {
        match reader.read_bool() {
            Ok(bit) => {
                writer.write_bool(bit);
                assert(start.bits.subrange(start.pos, start.pos + done + 1) =~= start.bits.subrange(
                    start.pos,
                    start.pos + done,
                ).push(bit));
            },
            Err(error) => return Err(LatmError::Bit(error)),
        }
        done = done + 1;
    }
    let ghost sequence = writer@;
    let bytes: Vec<u8> = writer.finish();
    proof {
        lemma_packed(bytes@, sequence);
    }
    Ok(bytes)
}

/// Writes the first `bits` bits of `bytes`.
pub fn write_packed_prefix(writer: &mut BitWriter, bytes: &[u8], bits: usize)
    requires
        bits <= bytes@.len() * 8,
    ensures
        final(writer)@ == old(writer)@ + bits_of(bytes@).take(bits as int),
{
    let ghost all = bits_of(bytes@);
    let mut done: usize = 0;
    assert(writer@ =~= old(writer)@ + all.take(0));
    while done < bits
        invariant
            done <= bits,
            bits <= bytes@.len() * 8,
            all == bits_of(bytes@),
            writer@ == old(writer)@ + all.take(done as int),
        decreases bits - done,
    {
        let byte: u8 = bytes[done / 8];
        let shift: u8 = 7 - (done % 8) as u8;
        assert(((byte >> shift) & 1u8 == 1u8) == ((byte >> shift) & 1u8 != 0u8)) by (bit_vector);
        let bit: bool = (byte >> shift) & 1 != 0;
        writer.write_bool(bit);
        assert(bit == all[done as int]);
        assert(old(writer)@ + all.take(done + 1) =~= (old(writer)@ + all.take(done as int)).push(bit));
        done = done + 1;
    }
}

/// Bits that were written are read back into bytes.
pub proof fn lemma_packed_reads_back(bits: Seq<bool>, rest: Seq<bool>, cursor: BitCursor)
    requires
        stands_at(bits + rest, cursor),
    ensures
        read_packed(cursor, bits.len() as int) == (
            Ok::<Seq<u8>, LatmError>(packed(bits)),
            cursor.advance(bits.len() as int),
        ),
        stands_at(rest, cursor.advance(bits.len() as int)),
{
    lemma_stands_split(bits, rest, cursor);
}

// ---------------------------------------------------------------------------
// Counted values
// ---------------------------------------------------------------------------

/// The byte of a value that has `behind` bytes behind it.
pub open spec fn value_byte(value: nat, behind: nat) -> nat {
    value / pow2(8 * behind) % 256
}

/// The last `count` bytes of a value in the stream, the highest first.
pub open spec fn byte_bits(value: nat, count: nat) -> Seq<bool>
    decreases count,
{
    if count == 0 {
        Seq::empty()
    } else {
        value_bits(value_byte(value, (count - 1) as nat), 8) + byte_bits(value, (count - 1) as nat)
    }
}

/// The number of bytes of a value of at most four bytes.
pub open spec fn value_size(value: nat) -> nat {
    if value <= 0xff {
        1
    } else if value <= 0xffff {
        2
    } else if value <= 0xff_ffff {
        3
    } else {
        4
    }
}

/// A counted value in the stream.
pub open spec fn latm_value_bits(value: nat) -> Seq<bool> {
    value_bits((value_size(value) - 1) as nat, 2) + byte_bits(value, value_size(value))
}

/// Reading `count` bytes of a value behind those read before.
pub open spec fn read_bytes(cursor: BitCursor, count: nat, value: nat) -> (Result<nat, LatmError>, BitCursor)
    decreases count,
{
    if count == 0 {
        (Ok(value), cursor)
    } else {
        match cursor.read(8) {
            (Err(error), next) => (Err(LatmError::Bit(error)), next),
            (Ok(byte), next) => read_bytes(next, (count - 1) as nat, value * 256 + byte),
        }
    }
}

/// Reading a counted value.
pub open spec fn read_value(cursor: BitCursor) -> (Result<nat, LatmError>, BitCursor) {
    match cursor.read(2) {
        (Err(error), next) => (Err(LatmError::Bit(error)), next),
        (Ok(count), next) => read_bytes(next, count + 1, 0),
    }
}

/// Reads a counted value.
pub fn read_latm_value(reader: &mut BitReader<'_>) -> (result: Result<u32, LatmError>)
    ensures
        final(reader)@ == read_value(old(reader)@).1,
        old(reader)@.leads_to(final(reader)@),
        match read_value(old(reader)@).0 {
            Ok(value) => value <= u32::MAX && result == Ok::<u32, LatmError>(value as u32),
            Err(error) => result == Err::<u32, LatmError>(error),
        },
{
    proof {
        lemma2_to64();
    }
    let more: u8 = match reader.read_u8(2) {
        Ok(more) => more,
        Err(error) => return Err(LatmError::Bit(error)),
    };
    let count: u8 = more + 1;
    let mut value: u32 = 0;
    let mut done: u8 = 0;
    while done < count
        invariant
            done <= count <= 4,
            value < pow2(8 * done as nat),
            old(reader)@.leads_to(reader@),
            read_value(old(reader)@) == read_bytes(reader@, (count - done) as nat, value as nat),
        decreases count - done,
    {
        proof {
            lemma2_to64();
            lemma_pow2_adds(8 * done as nat, 8);
            assert(8 * done as nat + 8 == 8 * (done + 1) as nat);
            if done < 3 {
                lemma_pow2_strictly_increases(8 * done as nat, 24);
            }
        }
        match reader.read_u8(8) {
            Ok(byte) => {
                value = value * 256 + byte as u32;
            },
            Err(error) => return Err(LatmError::Bit(error)),
        }
        done = done + 1;
    }
    Ok(value)
}

/// Writes the last `count` bytes of a value, the highest first.
fn write_value_bytes(writer: &mut BitWriter, value: u32, count: u8)
    requires
        count <= 4,
    ensures
        final(writer)@ == old(writer)@ + byte_bits(value as nat, count as nat),
{
    let mut left: u8 = count;
    while left > 0
        invariant
            left <= count <= 4,
            writer@ + byte_bits(value as nat, left as nat) == old(writer)@ + byte_bits(value as nat, count as nat),
        decreases left,
    {
        left = left - 1;
        let ghost before = writer@;
        let shift: u32 = left as u32 * 8;
        proof {
            vstd::bits::lemma_u32_shr_is_div(value, shift);
        }
        let byte: u32 = (value >> shift) % 256;
        writer.write(byte, 8);
        proof {
            lemma_two_then(before, value_bits(byte as nat, 8), byte_bits(value as nat, left as nat));
        }
    }
    assert(writer@ + byte_bits(value as nat, 0) =~= writer@);
}

/// Writes a counted value.
pub fn write_latm_value(writer: &mut BitWriter, value: u32)
    ensures
        final(writer)@ == old(writer)@ + latm_value_bits(value as nat),
{
    let count: u8 = if value <= 0xff {
        1
    } else if value <= 0xffff {
        2
    } else if value <= 0xff_ffff {
        3
    } else {
        4
    };
    writer.write(count as u32 - 1, 2);
    write_value_bytes(writer, value, count);
    proof {
        lemma_two_then(old(writer)@, value_bits((count - 1) as nat, 2), byte_bits(value as nat, count as nat));
    }
}

/// A byte of a value and the bytes behind it make up the bytes from it on.
proof fn lemma_value_byte(value: nat, behind: nat)
    ensures
        value_byte(value, behind) * pow2(8 * behind) + value % pow2(8 * behind) == value % pow2(8 * (behind + 1)),
        value_byte(value, behind) < 256,
        pow2(8 * (behind + 1)) == pow2(8 * behind) * 256,
        pow2(8 * behind) > 0,
{
    lemma2_to64();
    lemma_pow2_pos(8 * behind);
    lemma_pow2_adds(8 * behind, 8);
    assert(8 * behind + 8 == 8 * (behind + 1));
    vstd::arithmetic::div_mod::lemma_mod_breakdown(value as int, pow2(8 * behind) as int, 256);
    assert(value_byte(value, behind) * pow2(8 * behind) == pow2(8 * behind) * value_byte(value, behind))
        by (nonlinear_arith);
}

/// Bytes that were written are read back as the value they are the bytes of.
pub proof fn lemma_bytes_read_back(value: nat, count: nat, before: nat, rest: Seq<bool>, cursor: BitCursor)
    requires
        stands_at(byte_bits(value, count) + rest, cursor),
    ensures
        read_bytes(cursor, count, before) == (
            Ok::<nat, LatmError>(before * pow2(8 * count) + value % pow2(8 * count)),
            cursor.advance(byte_bits(value, count).len() as int),
        ),
        stands_at(rest, cursor.advance(byte_bits(value, count).len() as int)),
    decreases count,
{
    lemma2_to64();
    if count == 0 {
        assert(byte_bits(value, count) + rest =~= rest);
        assert(before * 1 == before);
        assert(value % 1 == 0);
    } else {
        let behind = (count - 1) as nat;
        let byte = value_byte(value, behind);
        lemma_value_byte(value, behind);
        lemma_value_bits_len(byte, 8);
        lemma_two_then(value_bits(byte, 8), byte_bits(value, behind), rest);
        lemma_stands_field(byte, 8, byte_bits(value, behind) + rest, cursor);
        lemma_bytes_read_back(value, behind, before * 256 + byte, rest, cursor.advance(8));
        let power = pow2(8 * behind);
        assert((before * 256 + byte) * power == before * (power * 256) + byte * power) by (nonlinear_arith);
    }
}

/// A counted value that was written is read back.
pub proof fn lemma_value_reads_back(value: nat, rest: Seq<bool>, cursor: BitCursor)
    requires
        value <= u32::MAX,
        stands_at(latm_value_bits(value) + rest, cursor),
    ensures
        read_value(cursor) == (Ok::<nat, LatmError>(value), cursor.advance(latm_value_bits(value).len() as int)),
        stands_at(rest, cursor.advance(latm_value_bits(value).len() as int)),
{
    lemma2_to64();
    let count = value_size(value);
    lemma_value_bits_len((count - 1) as nat, 2);
    lemma_two_then(value_bits((count - 1) as nat, 2), byte_bits(value, count), rest);
    lemma_stands_field((count - 1) as nat, 2, byte_bits(value, count) + rest, cursor);
    lemma_bytes_read_back(value, count, 0, rest, cursor.advance(2));
    assert(0 * pow2(8 * count) == 0) by (nonlinear_arith);
    vstd::arithmetic::div_mod::lemma_small_mod(value, pow2(8 * count));
}

// ---------------------------------------------------------------------------
// Lengths of other data
// ---------------------------------------------------------------------------

/// The number of bytes of a value.
pub open spec fn byte_count(value: nat) -> nat
    decreases value,
{
    if value < 256 {
        1
    } else {
        1 + byte_count(value / 256)
    }
}

/// The last `count` bytes of a length in the stream, each behind a flag that
/// announces another one.
pub open spec fn flagged_bits(value: nat, count: nat) -> Seq<bool>
    decreases count,
{
    if count == 0 {
        Seq::empty()
    } else {
        seq![count != 1] + (value_bits(value_byte(value, (count - 1) as nat), 8) + flagged_bits(
            value,
            (count - 1) as nat,
        ))
    }
}

/// A length of other data in the stream.
pub open spec fn other_length_bits(value: nat) -> Seq<bool> {
    flagged_bits(value, byte_count(value))
}

/// Reading a length of other data behind the bytes read before.
pub open spec fn read_other_length(cursor: BitCursor, length: nat) -> (Result<usize, LatmError>, BitCursor)
    decreases cursor.bits.len() - cursor.pos,
{
    match cursor.read_flag() {
        (Err(error), next) => (Err(LatmError::Bit(error)), next),
        (Ok(escaped), next) => match next.read(8) {
            (Err(error), last) => (Err(LatmError::Bit(error)), last),
            (Ok(byte), last) => if length * 256 + byte > usize::MAX {
                (Err(LatmError::OtherDataTooLarge), last)
            } else if !escaped {
                (Ok((length * 256 + byte) as usize), last)
            } else {
                read_other_length(last, length * 256 + byte)
            },
        },
    }
}

/// Reads a length of other data.
pub fn read_other_data_length(reader: &mut BitReader<'_>) -> (result: Result<usize, LatmError>)
    ensures
        (result, final(reader)@) == read_other_length(old(reader)@, 0),
        old(reader)@.leads_to(final(reader)@),
{
    let _ = reader.bits_read();
    let mut length: usize = 0;
    loop
        invariant
            old(reader)@.leads_to(reader@),
            read_other_length(old(reader)@, 0) == read_other_length(reader@, length as nat),
        decreases reader@.bits.len() - reader@.pos,
    {
        proof {
            lemma2_to64();
        }
        let escaped: bool = match reader.read_bool() {
            Ok(escaped) => escaped,
            Err(error) => return Err(LatmError::Bit(error)),
        };
        let byte: u8 = match reader.read_u8(8) {
            Ok(byte) => byte,
            Err(error) => return Err(LatmError::Bit(error)),
        };
        let scaled: usize = match length.checked_mul(256) {
            Some(scaled) => scaled,
            None => return Err(LatmError::OtherDataTooLarge),
        };
        length = match scaled.checked_add(byte as usize) {
            Some(length) => length,
            None => return Err(LatmError::OtherDataTooLarge),
        };
        if !escaped {
            return Ok(length);
        }
    }
}

/// Writes a length of other data.
pub fn write_latm_other_data_length(writer: &mut BitWriter, value: u32)
    ensures
        final(writer)@ == old(writer)@ + other_length_bits(value as nat),
{
    let count: u8 = if value <= 0xff {
        1
    } else if value <= 0xffff {
        2
    } else if value <= 0xff_ffff {
        3
    } else {
        4
    };
    proof {
        reveal_with_fuel(byte_count, 4);
        assert(byte_count(value as nat) == count);
    }
    let mut left: u8 = count;
    while left > 0
        invariant
            left <= count <= 4,
            writer@ + flagged_bits(value as nat, left as nat) == old(writer)@ + flagged_bits(value as nat, count as nat),
        decreases left,
    {
        left = left - 1;
        let ghost before = writer@;
        let shift: u32 = left as u32 * 8;
        proof {
            vstd::bits::lemma_u32_shr_is_div(value, shift);
        }
        let byte: u32 = (value >> shift) % 256;
        writer.write_bool(left != 0);
        writer.write(byte, 8);
        proof {
            assert(before.push(left != 0) =~= before + seq![left != 0]);
            lemma_two_then(before + seq![left != 0], value_bits(byte as nat, 8), flagged_bits(value as nat, left as nat));
            lemma_two_then(
                before,
                seq![left != 0],
                value_bits(byte as nat, 8) + flagged_bits(value as nat, left as nat),
            );
        }
    }
    assert(writer@ + flagged_bits(value as nat, 0) =~= writer@);
}

proof fn lemma_byte_count(value: nat)
    ensures
        value < pow2(8 * byte_count(value)),
        byte_count(value) >= 1,
    decreases value,
{
    lemma2_to64();
    if value >= 256 {
        lemma_byte_count(value / 256);
        lemma_pow2_adds(8 * byte_count(value / 256), 8);
        assert(8 * byte_count(value / 256) + 8 == 8 * byte_count(value));
    }
}

proof fn lemma_flagged_reads_back(value: nat, count: nat, before: nat, rest: Seq<bool>, cursor: BitCursor)
    requires
        count >= 1,
        before * pow2(8 * count) + value % pow2(8 * count) <= usize::MAX,
        stands_at(flagged_bits(value, count) + rest, cursor),
    ensures
        read_other_length(cursor, before) == (
            Ok::<usize, LatmError>((before * pow2(8 * count) + value % pow2(8 * count)) as usize),
            cursor.advance(flagged_bits(value, count).len() as int),
        ),
        stands_at(rest, cursor.advance(flagged_bits(value, count).len() as int)),
    decreases count,
{
    lemma2_to64();
    let behind = (count - 1) as nat;
    let byte = value_byte(value, behind);
    let power = pow2(8 * behind);
    lemma_value_byte(value, behind);
    lemma_value_bits_len(byte, 8);
    let field = value_bits(byte, 8);
    let tail = flagged_bits(value, behind);
    lemma_two_then(seq![count != 1], field + tail, rest);
    lemma_two_then(field, tail, rest);
    lemma_stands_bit(count != 1, field + (tail + rest), cursor);
    lemma_stands_field(byte, 8, tail + rest, cursor.advance(1));
    let next = before * 256 + byte;
    assert(next * power == before * (power * 256) + byte * power) by (nonlinear_arith)
        requires
            next == before * 256 + byte,
    ;
    assert(next <= next * power) by (nonlinear_arith)
        requires
            power >= 1,
            next >= 0,
    ;
    if count == 1 {
        assert(tail + rest =~= rest);
        assert(next * 1 == next);
        assert(value % 1 == 0);
    } else {
        lemma_flagged_reads_back(value, behind, next, rest, cursor.advance(1).advance(8));
    }
}

/// A length of other data that was written is read back.
pub proof fn lemma_other_length_reads_back(value: nat, rest: Seq<bool>, cursor: BitCursor)
    requires
        value <= usize::MAX,
        stands_at(other_length_bits(value) + rest, cursor),
    ensures
        read_other_length(cursor, 0) == (
            Ok::<usize, LatmError>(value as usize),
            cursor.advance(other_length_bits(value).len() as int),
        ),
        stands_at(rest, cursor.advance(other_length_bits(value).len() as int)),
{
    let count = byte_count(value);
    lemma_byte_count(value);
    vstd::arithmetic::div_mod::lemma_small_mod(value, pow2(8 * count));
    assert(0 * pow2(8 * count) == 0) by (nonlinear_arith);
    lemma_flagged_reads_back(value, count, 0, rest, cursor);
}

} // verus!
