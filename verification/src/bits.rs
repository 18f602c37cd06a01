//! MSB-first bit reading and writing over byte buffers.
//!
//! A byte buffer is modelled as the sequence of its bits, most significant bit
//! of the first byte first. A reader is a position in such a sequence and a
//! writer is the sequence written so far.

use vstd::arithmetic::power2::{lemma2_to64, lemma_pow2_pos, lemma_pow2_strictly_increases, lemma_pow2_unfold, pow2};
use vstd::bits::lemma_u32_shr_is_div;
use vstd::prelude::*;

use crate::text::{decimal_text, literal, push_decimal, push_literal};

verus! {

/// Failures of bit-level access.
#[derive(Debug, Clone, Copy, PartialEq, Eq, Structural)]
pub enum BitError {
    /// Fewer bits are left than the access needs.
    UnexpectedEof { needed_bits: usize, remaining_bits: usize },
    /// More bits were handed back than had been consumed.
    InvalidPushBack { requested_bits: usize, consumed_bits: usize },
}

impl BitError {
    /// The diagnostic of this error.
    pub open spec fn message(self) -> Seq<char> {
        match self {
            BitError::UnexpectedEof { needed_bits, remaining_bits } => "unexpected end of bitstream: needed "@
                + decimal_text(needed_bits as nat) + " bits, "@ + decimal_text(remaining_bits as nat)
                + " remaining"@,
            BitError::InvalidPushBack { requested_bits, consumed_bits } => "cannot push back "@
                + decimal_text(requested_bits as nat) + " bits after consuming "@ + decimal_text(
                consumed_bits as nat,
            ),
        }
    }

    /// Renders the diagnostic of this error.
    pub fn to_string(&self) -> (message: String)
        ensures
            message@ == self.message(),
    {
        match self {
            BitError::UnexpectedEof { needed_bits, remaining_bits } => {
                let mut message = literal("unexpected end of bitstream: needed ");
                push_decimal(&mut message, *needed_bits as u64);
                push_literal(&mut message, " bits, ");
                push_decimal(&mut message, *remaining_bits as u64);
                push_literal(&mut message, " remaining");
                message
            },
            BitError::InvalidPushBack { requested_bits, consumed_bits } => {
                let mut message = literal("cannot push back ");
                push_decimal(&mut message, *requested_bits as u64);
                push_literal(&mut message, " bits after consuming ");
                push_decimal(&mut message, *consumed_bits as u64);
                message
            },
        }
    }
}

/// Bit `k` of a byte, counted from the most significant bit.
pub open spec fn byte_bit(byte: u8, k: int) -> bool {
    (byte >> ((7 - k) as u8)) & 1u8 == 1u8
}

/// The bits of a byte sequence, most significant bit of each byte first.
pub open spec fn bits_of(bytes: Seq<u8>) -> Seq<bool> {
    Seq::new(bytes.len() * 8, |i: int| byte_bit(bytes[i / 8], i % 8))
}

/// The number that a bit sequence denotes, first bit most significant.
pub open spec fn bits_value(bits: Seq<bool>) -> nat
    decreases bits.len(),
{
    if bits.len() == 0 {
        0
    } else {
        2 * bits_value(bits.drop_last()) + if bits.last() {
            1nat
        } else {
            0nat
        }
    }
}

/// The low `width` bits of `value`, most significant first.
pub open spec fn value_bits(value: nat, width: nat) -> Seq<bool>
    decreases width,
{
    if width == 0 {
        Seq::empty()
    } else {
        value_bits(value / 2, (width - 1) as nat).push(value % 2 == 1)
    }
}

/// A run of zero bits.
pub open spec fn zero_bits(count: nat) -> Seq<bool> {
    Seq::new(count, |i: int| false)
}

/// The zero bits that fill a sequence of `len` bits up to a byte boundary.
pub open spec fn padding(len: nat) -> Seq<bool> {
    zero_bits((7 - (len + 7) % 8) as nat)
}

/// A bit sequence together with the position of the next unread bit.
pub struct BitCursor {
    pub bits: Seq<bool>,
    pub pos: int,
}

impl BitCursor {
    /// The cursor at a position of a bit sequence.
    pub open spec fn at(bits: Seq<bool>, pos: int) -> BitCursor {
        BitCursor { bits, pos }
    }

    /// The number of bits that are left.
    pub open spec fn remaining(self) -> int {
        self.bits.len() - self.pos
    }

    /// The cursor `count` bits further on.
    pub open spec fn advance(self, count: int) -> BitCursor {
        BitCursor { bits: self.bits, pos: self.pos + count }
    }

    /// Whether a cursor is this one moved forward within its bits.
    pub open spec fn leads_to(self, next: BitCursor) -> bool {
        &&& next.bits == self.bits
        &&& 0 <= self.pos <= next.pos <= next.bits.len() <= usize::MAX
    }

    /// The error of an access to `count` bits that are not all there.
    pub open spec fn eof(self, count: int) -> BitError {
        BitError::UnexpectedEof { needed_bits: count as usize, remaining_bits: self.remaining() as usize }
    }

    /// Reading `count` bits: their value and the cursor behind them, or the
    /// error with the cursor unmoved.
    pub open spec fn read(self, count: int) -> (Result<nat, BitError>, BitCursor) {
        if count <= self.remaining() {
            (Ok(bits_value(self.bits.subrange(self.pos, self.pos + count))), self.advance(count))
        } else {
            (Err(self.eof(count)), self)
        }
    }

    /// Reading `count` flags; where they are not all there, everything that is
    /// left is consumed.
    pub open spec fn read_flags(self, count: int) -> (Result<Seq<bool>, BitError>, BitCursor) {
        if count <= self.remaining() {
            (Ok(self.bits.subrange(self.pos, self.pos + count)), self.advance(count))
        } else {
            (
                Err(BitError::UnexpectedEof { needed_bits: 1, remaining_bits: 0 }),
                BitCursor { bits: self.bits, pos: self.bits.len() as int },
            )
        }
    }

    /// Reading fields of `width` bits behind those read before, until there are
    /// `count` of them.
    pub open spec fn read_fields(self, width: int, count: int, fields: Seq<u8>) -> (
        Result<Seq<u8>, BitError>,
        BitCursor,
    )
        decreases count - fields.len(),
    {
        if fields.len() >= count {
            (Ok(fields), self)
        } else {
            match self.read(width) {
                (Ok(value), next) => next.read_fields(width, count, fields.push(value as u8)),
                (Err(error), next) => (Err(error), next),
            }
        }
    }

    /// Reading one bit as a flag.
    pub open spec fn read_flag(self) -> (Result<bool, BitError>, BitCursor) {
        if 1 <= self.remaining() {
            (Ok(self.bits[self.pos]), self.advance(1))
        } else {
            (Err(self.eof(1)), self)
        }
    }
}

/// One step of an MSB-first cyclic redundancy check of the given width.
pub open spec fn crc_step(register: u32, bit: bool, width: u32, polynomial: u32) -> u32 {
    let top = (register >> ((width - 1) as u32)) & 1u32 == 1u32;
    let shifted = register << 1u32;
    let mask = if width == 32 {
        0xffff_ffffu32
    } else {
        ((1u32 << width) - 1) as u32
    };
    (if top != bit {
        shifted ^ polynomial
    } else {
        shifted
    }) & mask
}

/// The cyclic redundancy check of a bit sequence, starting from zero.
pub open spec fn crc_of(bits: Seq<bool>, width: u32, polynomial: u32) -> u32
    decreases bits.len(),
{
    if bits.len() == 0 {
        0
    } else {
        crc_step(crc_of(bits.drop_last(), width, polynomial), bits.last(), width, polynomial)
    }
}

/// A value of `n` bits is below two to the power `n`.
pub proof fn lemma_bits_value_bound(bits: Seq<bool>)
    ensures
        bits_value(bits) < pow2(bits.len()),
    decreases bits.len(),
{
    if bits.len() == 0 {
        lemma2_to64();
    } else {
        lemma_bits_value_bound(bits.drop_last());
        lemma_pow2_unfold(bits.len());
    }
}

pub proof fn lemma_value_bits_len(value: nat, width: nat)
    ensures
        value_bits(value, width).len() == width,
    decreases width,
{
    if width > 0 {
        lemma_value_bits_len(value / 2, (width - 1) as nat);
    }
}

/// Bit `i` of the rendering of `value` is its binary digit of that weight.
pub proof fn lemma_value_bits_index(value: nat, width: nat, i: int)
    requires
        0 <= i < width,
    ensures
        value_bits(value, width).len() == width,
        value_bits(value, width)[i] == ((value / pow2((width - 1 - i) as nat)) % 2 == 1),
    decreases width,
{
    lemma_value_bits_len(value, width);
    lemma_value_bits_len(value / 2, (width - 1) as nat);
    if i == width - 1 {
        lemma2_to64();
        assert(value / pow2(0) == value) by {
            vstd::arithmetic::div_mod::lemma_div_basics(value as int);
        }
    } else {
        lemma_value_bits_index(value / 2, (width - 1) as nat, i);
        let e = (width - 2 - i) as nat;
        lemma_pow2_unfold(e + 1);
        lemma_pow2_pos(e);
        vstd::arithmetic::div_mod::lemma_div_denominator(value as int, 2, pow2(e) as int);
    }
}

/// Rendering a number in enough bits and reading it back gives the number.
pub proof fn lemma_value_bits_value(value: nat, width: nat)
    requires
        value < pow2(width),
    ensures
        bits_value(value_bits(value, width)) == value,
        value_bits(value, width).len() == width,
    decreases width,
{
    lemma_value_bits_len(value, width);
    if width == 0 {
        lemma2_to64();
    } else {
        lemma_pow2_unfold(width);
        lemma_value_bits_value(value / 2, (width - 1) as nat);
        assert(value_bits(value, width).drop_last() =~= value_bits(value / 2, (width - 1) as nat));
    }
}

/// Reading a bit sequence as a number and rendering that gives the sequence.
pub proof fn lemma_bits_value_bits(bits: Seq<bool>)
    ensures
        value_bits(bits_value(bits), bits.len()) == bits,
    decreases bits.len(),
{
    if bits.len() > 0 {
        lemma_bits_value_bits(bits.drop_last());
        let value = bits_value(bits);
        assert(value / 2 == bits_value(bits.drop_last()));
        assert(value_bits(value, bits.len()) =~= bits);
    } else {
        assert(value_bits(bits_value(bits), bits.len()) =~= bits);
    }
}

/// Reading back a written field: behind `prefix`, a field of `width` bits that
/// holds `value` is read as `value`, and the cursor ends behind the field.
pub proof fn lemma_read_written(prefix: Seq<bool>, value: nat, width: nat, suffix: Seq<bool>)
    requires
        value < pow2(width),
    ensures
        ({
            let bits = prefix + value_bits(value, width) + suffix;
            BitCursor::at(bits, prefix.len() as int).read(width as int) == (
                Ok::<nat, BitError>(value),
                BitCursor::at(bits, (prefix.len() + width) as int),
            )
        }),
{
    lemma_value_bits_value(value, width);
    let bits = prefix + value_bits(value, width) + suffix;
    assert(bits.subrange(prefix.len() as int, (prefix.len() + width) as int) =~= value_bits(value, width));
}

/// Reading one bit as a number agrees with reading it as a flag.
pub proof fn lemma_read_one(cursor: BitCursor)
    requires
        0 <= cursor.pos < cursor.bits.len(),
    ensures
        cursor.read(1).0 == Ok::<nat, BitError>(if cursor.bits[cursor.pos] { 1nat } else { 0nat }),
{
    let field = cursor.bits.subrange(cursor.pos, cursor.pos + 1);
    assert(field.drop_last() =~= Seq::<bool>::empty());
    assert(field.last() == cursor.bits[cursor.pos]);
    assert(bits_value(field.drop_last()) == 0);
}

/// Whether `bits` stands at the cursor.
pub open spec fn stands_at(bits: Seq<bool>, cursor: BitCursor) -> bool {
    &&& 0 <= cursor.pos
    &&& cursor.pos + bits.len() <= cursor.bits.len()
    &&& cursor.bits.subrange(cursor.pos, cursor.pos + bits.len()) == bits
}

/// Where two sequences joined stand at a cursor, the first stands there and the
/// second behind it.
pub proof fn lemma_stands_split(first: Seq<bool>, second: Seq<bool>, cursor: BitCursor)
    requires
        stands_at(first + second, cursor),
    ensures
        stands_at(first, cursor),
        stands_at(second, cursor.advance(first.len() as int)),
{
    let joined = cursor.bits.subrange(cursor.pos, cursor.pos + (first + second).len());
    assert(joined == first + second);
    assert(cursor.bits.subrange(cursor.pos, cursor.pos + first.len()) =~= first) by {
        assert forall|i: int| 0 <= i < first.len() implies cursor.bits[cursor.pos + i] == first[i] by {
            assert(joined[i] == first[i]);
        }
    }
    let behind = cursor.advance(first.len() as int);
    assert(behind.bits.subrange(behind.pos, behind.pos + second.len()) =~= second) by {
        assert forall|i: int| 0 <= i < second.len() implies behind.bits[behind.pos + i] == second[i] by {
            assert(joined[first.len() + i] == second[i]);
        }
    }
}

/// A sequence of one bit at a cursor is read as that bit.
pub proof fn lemma_stands_flag(bit: bool, cursor: BitCursor)
    requires
        stands_at(seq![bit], cursor),
    ensures
        cursor.read_flag() == (Ok::<bool, BitError>(bit), cursor.advance(1)),
{
    assert(cursor.bits.subrange(cursor.pos, cursor.pos + 1)[0] == bit);
}

/// A field at a cursor, with more behind it, is read as its value.
pub proof fn lemma_stands_field(value: nat, width: nat, rest: Seq<bool>, cursor: BitCursor)
    requires
        stands_at(value_bits(value, width) + rest, cursor),
        value < pow2(width),
    ensures
        cursor.read(width as int) == (Ok::<nat, BitError>(value), cursor.advance(width as int)),
        stands_at(rest, cursor.advance(width as int)),
{
    lemma_stands_split(value_bits(value, width), rest, cursor);
    lemma_value_bits_value(value, width);
}

/// A flag at a cursor, with more behind it, is read as that flag.
pub proof fn lemma_stands_bit(bit: bool, rest: Seq<bool>, cursor: BitCursor)
    requires
        stands_at(seq![bit] + rest, cursor),
    ensures
        cursor.read_flag() == (Ok::<bool, BitError>(bit), cursor.advance(1)),
        stands_at(rest, cursor.advance(1)),
{
    lemma_stands_split(seq![bit], rest, cursor);
    lemma_stands_flag(bit, cursor);
}

/// Four sequences joined, with more behind them, regrouped from the front.
pub proof fn lemma_four_then(a: Seq<bool>, b: Seq<bool>, c: Seq<bool>, d: Seq<bool>, rest: Seq<bool>)
    ensures
        a + (b + (c + d)) + rest == a + (b + (c + (d + rest))),
{
    assert(a + (b + (c + d)) + rest =~= a + (b + (c + (d + rest))));
}

/// Three sequences joined, with more behind them, regrouped from the front.
pub proof fn lemma_three_then(a: Seq<bool>, b: Seq<bool>, c: Seq<bool>, rest: Seq<bool>)
    ensures
        a + (b + c) + rest == a + (b + (c + rest)),
{
    assert(a + (b + c) + rest =~= a + (b + (c + rest)));
}

/// Two sequences joined, with more behind them, regrouped from the front.
pub proof fn lemma_two_then(a: Seq<bool>, b: Seq<bool>, rest: Seq<bool>)
    ensures
        a + b + rest == a + (b + rest),
{
    assert(a + b + rest =~= a + (b + rest));
}

/// A bounded MSB-first reader over a byte slice.
#[derive(Debug)]
pub struct BitReader<'a> {
    data: &'a [u8],
    bit_len: usize,
    position: usize,
}

impl<'a> View for BitReader<'a> {
    type V = BitCursor;

    closed spec fn view(&self) -> BitCursor {
        BitCursor { bits: bits_of(self.data@).take(self.bit_len as int), pos: self.position as int }
    }
}

impl<'a> Clone for BitReader<'a> {
    fn clone(&self) -> (copy: BitReader<'a>)
        ensures
            copy@ == self@,
    {
        proof {
            use_type_invariant(self);
        }
        BitReader { data: self.data, bit_len: self.bit_len, position: self.position }
    }
}

impl<'a> BitReader<'a> {
    #[verifier::type_invariant]
    spec fn inv(self) -> bool {
        self.position <= self.bit_len && self.bit_len <= self.data@.len() * 8 && self.data@.len() * 8 <= usize::MAX
    }

    /// A reader over all bits of `data`.
    pub fn new(data: &'a [u8]) -> (reader: BitReader<'a>)
        requires
            data@.len() * 8 <= usize::MAX,
        ensures
            reader@ == (BitCursor { bits: bits_of(data@), pos: 0 }),
    {
        let reader = BitReader { data, bit_len: data.len() * 8, position: 0 };
        assert(bits_of(data@).take(reader.bit_len as int) =~= bits_of(data@));
        reader
    }

    /// A reader over the first `bit_len` bits of `data`.
    pub fn with_bit_len(data: &'a [u8], bit_len: usize) -> (result: Result<BitReader<'a>, BitError>)
        requires
            data@.len() * 8 <= usize::MAX,
        ensures
            result matches Ok(reader) ==> reader@ == (BitCursor {
                bits: bits_of(data@).take(bit_len as int),
                pos: 0,
            }),
            result is Ok <==> bit_len <= data@.len() * 8,
            result matches Err(error) ==> error == (BitError::UnexpectedEof {
                needed_bits: bit_len,
                remaining_bits: (data@.len() * 8) as usize,
            }),
    {
        if bit_len > data.len() * 8 {
            return Err(BitError::UnexpectedEof { needed_bits: bit_len, remaining_bits: data.len() * 8 });
        }
        Ok(BitReader { data, bit_len, position: 0 })
    }

    /// The number of bits consumed so far.
    pub fn bits_read(&self) -> (count: usize)
        ensures
            count == self@.pos,
            self@.pos <= self@.bits.len(),
            self@.bits.len() + 7 <= usize::MAX,
    {
        proof {
            use_type_invariant(self);
            assert(usize::MAX % 8 == 7);
        }
        self.position
    }

    /// The number of bits that are left.
    pub fn remaining_bits(&self) -> (count: usize)
        ensures
            count == self@.remaining(),
            0 <= self@.pos <= self@.bits.len(),
    {
        proof {
            use_type_invariant(self);
        }
        self.bit_len - self.position
    }

    /// The bit at an absolute position.
    fn bit_at(&self, index: usize) -> (bit: bool)
        requires
            index < self@.bits.len(),
        ensures
            bit == self@.bits[index as int],
    {
        proof {
            use_type_invariant(self);
        }
        let byte: u8 = self.data[index / 8];
        let shift: u8 = 7 - (index % 8) as u8;
        assert(((byte >> shift) & 1u8 == 1u8) == ((byte >> shift) & 1u8 != 0u8)) by (bit_vector);
        (byte >> shift) & 1 != 0
    }

    /// Consumes one bit.
    pub fn read_bool(&mut self) -> (result: Result<bool, BitError>)
        ensures
            (result, final(self)@) == old(self)@.read_flag(),
            old(self)@.leads_to(final(self)@),
    {
        proof {
            use_type_invariant(&*self);
        }
        if self.position >= self.bit_len {
            return Err(BitError::UnexpectedEof { needed_bits: 1, remaining_bits: 0 });
        }
        let bit = self.bit_at(self.position);
        self.position = self.position + 1;
        Ok(bit)
    }

    /// Consumes `count` bits as an unsigned number.
    pub fn read_u32(&mut self, count: usize) -> (result: Result<u32, BitError>)
        requires
            count <= 32,
        ensures
            final(self)@ == old(self)@.read(count as int).1,
            old(self)@.leads_to(final(self)@),
            match old(self)@.read(count as int).0 {
                Ok(value) => result == Ok::<u32, BitError>(value as u32) && value < pow2(count as nat)
                    && pow2(count as nat) <= pow2(32) == 0x1_0000_0000,
                Err(error) => result == Err::<u32, BitError>(error),
            },
    {
        proof {
            use_type_invariant(&*self);
            lemma2_to64();
        }
        let remaining: usize = self.bit_len - self.position;
        if count > remaining {
            return Err(BitError::UnexpectedEof { needed_bits: count, remaining_bits: remaining });
        }
        let ghost bits = self@.bits;
        let ghost start = self@.pos;
        let base: usize = self.position;
        let mut value: u32 = 0;
        let mut done: usize = 0;
        assert(bits.subrange(start, start) =~= Seq::<bool>::empty());
        while done < count
            invariant
                done <= count <= 32,
                base == start,
                base + count <= bits.len(),
                self@.bits == bits,
                bits.len() <= usize::MAX,
                value == bits_value(bits.subrange(start, start + done)),
            decreases count - done,
        {
            let bit = self.bit_at(base + done);
            proof {
                let field = bits.subrange(start, start + done);
                let longer = bits.subrange(start, start + done + 1);
                assert(longer.drop_last() =~= field);
                assert(longer.last() == bit);
                lemma_bits_value_bound(field);
                if done < 31 {
                    lemma_pow2_strictly_increases(done as nat, 31);
                }
                lemma2_to64();
                assert(value < pow2(31));
            }
            value = value * 2 + if bit {
                1u32
            } else {
                0u32
            };
            done = done + 1;
        }
        self.position = base + count;
        proof {
            lemma_bits_value_bound(bits.subrange(start, start + count));
            if count < 32 {
                lemma_pow2_strictly_increases(count as nat, 32);
            }
        }
        Ok(value)
    }

    /// Consumes at most eight bits as an unsigned number.
    pub fn read_u8(&mut self, count: usize) -> (result: Result<u8, BitError>)
        requires
            count <= 8,
        ensures
            final(self)@ == old(self)@.read(count as int).1,
            old(self)@.leads_to(final(self)@),
            match old(self)@.read(count as int).0 {
                Ok(value) => result == Ok::<u8, BitError>(value as u8) && value < pow2(count as nat)
                    && pow2(count as nat) <= pow2(8) == 0x100,
                Err(error) => result == Err::<u8, BitError>(error),
            },
    {
        proof {
            lemma2_to64();
            if count < 8 {
                lemma_pow2_strictly_increases(count as nat, 8);
            }
        }
        match self.read_u32(count) {
            Ok(value) => Ok(value as u8),
            Err(error) => Err(error),
        }
    }

    /// Consumes at most sixteen bits as an unsigned number.
    pub fn read_u16(&mut self, count: usize) -> (result: Result<u16, BitError>)
        requires
            count <= 16,
        ensures
            final(self)@ == old(self)@.read(count as int).1,
            old(self)@.leads_to(final(self)@),
            match old(self)@.read(count as int).0 {
                Ok(value) => result == Ok::<u16, BitError>(value as u16) && value < pow2(count as nat)
                    && pow2(count as nat) <= pow2(16) == 0x1_0000,
                Err(error) => result == Err::<u16, BitError>(error),
            },
    {
        proof {
            lemma2_to64();
            if count < 16 {
                lemma_pow2_strictly_increases(count as nat, 16);
            }
        }
        match self.read_u32(count) {
            Ok(value) => Ok(value as u16),
            Err(error) => Err(error),
        }
    }

    /// Consumes `count` flags.
    pub fn read_flags(&mut self, count: usize) -> (result: Result<Vec<bool>, BitError>)
        ensures
            final(self)@ == old(self)@.read_flags(count as int).1,
            old(self)@.leads_to(final(self)@),
            match old(self)@.read_flags(count as int).0 {
                Ok(flags) => result matches Ok(values) && values@ == flags,
                Err(error) => result == Err::<Vec<bool>, BitError>(error),
            },
    {
        let _ = self.bits_read();
        let ghost bits = self@.bits;
        let ghost start = self@.pos;
        let mut flags: Vec<bool> = Vec::new();
        let mut done: usize = 0;
        assert(bits.subrange(start, start) =~= Seq::<bool>::empty());
        while done < count
            invariant
                done <= count,
                self@.bits == bits,
                bits == old(self)@.bits,
                start == old(self)@.pos,
                0 <= start,
                self@.pos == start + done,
                start + done <= bits.len() <= usize::MAX,
                flags@ == bits.subrange(start, start + done),
            decreases count - done,
        {
            match self.read_bool() {
                Ok(flag) => {
                    flags.push(flag);
                },
                Err(error) => {
                    return Err(error);
                },
            }
            assert(bits.subrange(start, start + done + 1) =~= bits.subrange(start, start + done).push(
                bits[start + done],
            ));
            done = done + 1;
        }
        Ok(flags)
    }

    /// Consumes `count` fields of at most eight bits.
    pub fn read_fields(&mut self, width: usize, count: usize) -> (result: Result<Vec<u8>, BitError>)
        requires
            width <= 8,
        ensures
            final(self)@ == old(self)@.read_fields(width as int, count as int, Seq::empty()).1,
            old(self)@.leads_to(final(self)@),
            match old(self)@.read_fields(width as int, count as int, Seq::empty()).0 {
                Ok(fields) => result matches Ok(values) && values@ == fields && fields.len() == count,
                Err(error) => result == Err::<Vec<u8>, BitError>(error),
            },
    {
        let _ = self.bits_read();
        let mut fields: Vec<u8> = Vec::new();
        while fields.len() < count
            invariant
                width <= 8,
                fields@.len() <= count,
                old(self)@.leads_to(self@),
                self@.read_fields(width as int, count as int, fields@) == old(self)@.read_fields(
                    width as int,
                    count as int,
                    Seq::empty(),
                ),
            decreases count - fields@.len(),
        {
            match self.read_u8(width) {
                Ok(value) => {
                    fields.push(value);
                },
                Err(error) => {
                    return Err(error);
                },
            }
        }
        Ok(fields)
    }

    /// Hands `count` consumed bits back.
    pub fn push_back(&mut self, count: usize) -> (result: Result<(), BitError>)
        ensures
            final(self)@.bits == old(self)@.bits,
            0 <= final(self)@.pos <= final(self)@.bits.len() <= usize::MAX,
            count <= old(self)@.pos ==> result is Ok && final(self)@.pos == old(self)@.pos - count,
            count > old(self)@.pos ==> final(self)@.pos == old(self)@.pos && result == Err::<(), BitError>(
                BitError::InvalidPushBack {
                    requested_bits: count,
                    consumed_bits: old(self)@.pos as usize,
                },
            ),
    {
        proof {
            use_type_invariant(&*self);
        }
        if count > self.position {
            return Err(BitError::InvalidPushBack { requested_bits: count, consumed_bits: self.position });
        }
        self.position = self.position - count;
        Ok(())
    }

    /// The cyclic redundancy check of the bits from `start` to `end`.
    pub fn crc_msb(&self, start: usize, end: usize, width: u32, polynomial: u32) -> (crc: u32)
        requires
            start <= end <= self@.bits.len(),
            1 <= width <= 32,
        ensures
            crc == crc_of(self@.bits.subrange(start as int, end as int), width, polynomial),
    {
        let mask: u32 = if width == 32 {
            0xffff_ffff
        } else {
            assert((1u32 << width) >= 1) by (bit_vector)
                requires
                    width < 32,
            ;
            (1u32 << width) - 1
        };
        let mut register: u32 = 0;
        let mut index: usize = start;
        assert(self@.bits.subrange(start as int, start as int) =~= Seq::<bool>::empty());
        while index < end
            invariant
                start <= index <= end <= self@.bits.len(),
                1 <= width <= 32,
                mask == (if width == 32 {
                    0xffff_ffffu32
                } else {
                    ((1u32 << width) - 1) as u32
                }),
                register == crc_of(self@.bits.subrange(start as int, index as int), width, polynomial),
            decreases end - index,
        {
            let bit = self.bit_at(index);
            let top: bool = (register >> (width - 1)) & 1 == 1;
            let shifted: u32 = register << 1;
            proof {
                let longer = self@.bits.subrange(start as int, index + 1);
                assert(longer.drop_last() =~= self@.bits.subrange(start as int, index as int));
                assert(longer.last() == bit);
            }
            register = (if top != bit {
                shifted ^ polynomial
            } else {
                shifted
            }) & mask;
            index = index + 1;
        }
        register
    }
}

/// A byte's bits are the rendering of its value in eight bits.
pub proof fn lemma_byte_bits(byte: u8)
    ensures
        bits_of(seq![byte]) == value_bits(byte as nat, 8),
{
    lemma_value_bits_len(byte as nat, 8);
    assert forall|k: int| 0 <= k < 8 implies bits_of(seq![byte])[k] == value_bits(byte as nat, 8)[k] by {
        lemma_value_bits_index(byte as nat, 8, k);
        let shift = (7 - k) as u8;
        vstd::bits::lemma_u8_shr_is_div(byte, shift);
        let moved = byte >> shift;
        assert(moved & 1u8 == moved % 2) by (bit_vector);
        assert(bits_of(seq![byte])[k] == byte_bit(seq![byte][k / 8], k % 8));
    }
    assert(bits_of(seq![byte]) =~= value_bits(byte as nat, 8));
}

/// The bits of two byte sequences joined are their bits joined.
pub proof fn lemma_bits_of_concat(left: Seq<u8>, right: Seq<u8>)
    ensures
        bits_of(left + right) == bits_of(left) + bits_of(right),
{
    assert(bits_of(left + right) =~= bits_of(left) + bits_of(right));
}

/// The bytes that hold a bit sequence, the last one filled up with zero bits.
pub open spec fn packed(bits: Seq<bool>) -> Seq<u8> {
    let filled = bits + padding(bits.len());
    Seq::new((bits.len() + 7) / 8, |i: int| bits_value(filled.subrange(8 * i, 8 * i + 8)) as u8)
}

/// Bytes whose bits are a sequence filled up with zero bits are those that hold
/// the sequence.
pub proof fn lemma_packed(bytes: Seq<u8>, bits: Seq<bool>)
    requires
        bits_of(bytes) == bits + padding(bits.len()),
    ensures
        bytes == packed(bits),
{
    let filled = bits + padding(bits.len());
    assert(filled.len() == 8 * bytes.len());
    assert(packed(bits).len() == bytes.len());
    assert forall|i: int| 0 <= i < bytes.len() implies bytes[i] == packed(bits)[i] by {
        let part = filled.subrange(8 * i, 8 * i + 8);
        assert(part =~= bits_of(seq![bytes[i]])) by {
            assert forall|k: int| 0 <= k < 8 implies part[k] == bits_of(seq![bytes[i]])[k] by {
                assert(part[k] == bits_of(bytes)[8 * i + k]);
                assert((8 * i + k) / 8 == i && (8 * i + k) % 8 == k);
            }
        }
        lemma_byte_bits(bytes[i]);
        lemma2_to64();
        lemma_value_bits_value(bytes[i] as nat, 8);
    }
    assert(bytes =~= packed(bits));
}

/// The bits of the bytes that hold a sequence are the sequence, filled up with
/// zero bits.
pub proof fn lemma_bits_of_packed(bits: Seq<bool>)
    ensures
        bits_of(packed(bits)) == bits + padding(bits.len()),
{
    let filled = bits + padding(bits.len());
    let bytes = packed(bits);
    assert(filled.len() == 8 * bytes.len());
    assert forall|j: int| 0 <= j < filled.len() implies bits_of(bytes)[j] == filled[j] by {
        let i = j / 8;
        let part = filled.subrange(8 * i, 8 * i + 8);
        lemma_bits_value_bound(part);
        lemma2_to64();
        lemma_byte_bits(bytes[i]);
        lemma_bits_value_bits(part);
        assert(bits_of(seq![bytes[i]])[j % 8] == part[j % 8]);
    }
    assert(bits_of(bytes) =~= filled);
}

/// The bytes that hold the bits of bytes are those bytes.
pub proof fn lemma_packed_bytes(bytes: Seq<u8>)
    ensures
        packed(bits_of(bytes)) == bytes,
{
    assert(padding(bits_of(bytes).len()).len() == 0);
    assert(bits_of(bytes) + padding(bits_of(bytes).len()) =~= bits_of(bytes));
    lemma_packed(bytes, bits_of(bytes));
}

/// Shifting a value left appends zero bits to its rendering.
pub proof fn lemma_value_bits_shifted(value: nat, width: nat, count: nat)
    ensures
        value_bits(value * pow2(count), width + count) == value_bits(value, width) + zero_bits(count),
    decreases count,
{
    if count == 0 {
        lemma2_to64();
        assert(value * 1 == value);
        assert(value_bits(value, width) + zero_bits(0) =~= value_bits(value, width));
    } else {
        let shorter = (count - 1) as nat;
        lemma_value_bits_shifted(value, width, shorter);
        lemma_pow2_unfold(count);
        let half = value * pow2(shorter);
        assert(value * pow2(count) == 2 * half) by (nonlinear_arith)
            requires
                pow2(count) == 2 * pow2(shorter),
                half == value * pow2(shorter),
        ;
        assert((2 * half) / 2 == half);
        assert((2 * half) % 2 == 0);
        assert(value_bits(value, width) + zero_bits(count) =~= (value_bits(value, width) + zero_bits(shorter)).push(
            false,
        ));
    }
}

/// The bits behind the last whole byte of a writer.
#[derive(Debug, Clone, Copy)]
struct PartialByte {
    value: u8,
    used: u8,
}

impl PartialByte {
    #[verifier::type_invariant]
    spec fn inv(self) -> bool {
        self.used < 8 && self.value < pow2(self.used as nat)
    }

    spec fn bits(self) -> Seq<bool> {
        value_bits(self.value as nat, self.used as nat)
    }

    /// Appends one bit; gives the byte that is complete with it.
    fn push(&mut self, bit: bool) -> (full: Option<u8>)
        ensures
            match full {
                Some(byte) => final(self).bits() == Seq::<bool>::empty() && bits_of(seq![byte])
                    == old(self).bits().push(bit),
                None => final(self).bits() == old(self).bits().push(bit),
            },
    {
        proof {
            use_type_invariant(&*self);
            lemma2_to64();
            lemma_pow2_unfold((self.used + 1) as nat);
            if self.used < 7 {
                lemma_pow2_strictly_increases(self.used as nat, 7);
            }
        }
        let value: u8 = self.value * 2 + if bit {
            1u8
        } else {
            0u8
        };
        assert(value_bits(value as nat, (self.used + 1) as nat) =~= self.bits().push(bit)) by {
            assert(value as nat / 2 == self.value as nat);
        }
        if self.used == 7 {
            self.value = 0;
            self.used = 0;
            proof {
                lemma_byte_bits(value);
                assert(self.bits() =~= Seq::<bool>::empty());
            }
            Some(value)
        } else {
            self.used = self.used + 1;
            self.value = value;
            None
        }
    }

    /// The number of bits held.
    fn len(&self) -> (count: usize)
        ensures
            count == self.bits().len(),
            count < 8,
    {
        proof {
            use_type_invariant(self);
            lemma_value_bits_len(self.value as nat, self.used as nat);
        }
        self.used as usize
    }
}

/// An MSB-first writer that grows a byte buffer.
#[derive(Debug, Clone)]
pub struct BitWriter {
    bytes: Vec<u8>,
    tail: PartialByte,
}

impl View for BitWriter {
    type V = Seq<bool>;

    closed spec fn view(&self) -> Seq<bool> {
        bits_of(self.bytes@) + self.tail.bits()
    }
}

impl Default for BitWriter {
    fn default() -> (writer: BitWriter)
        ensures
            writer@ == Seq::<bool>::empty(),
    {
        BitWriter::new()
    }
}

impl BitWriter {
    /// A writer that holds no bits.
    pub fn new() -> (writer: BitWriter)
        ensures
            writer@ == Seq::<bool>::empty(),
    {
        proof {
            lemma2_to64();
        }
        let writer = BitWriter { bytes: Vec::new(), tail: PartialByte { value: 0, used: 0 } };
        assert(writer@ =~= Seq::<bool>::empty());
        writer
    }

    /// The number of bits written so far.
    pub fn bits_written(&self) -> (count: usize)
        requires
            self@.len() <= usize::MAX,
        ensures
            count == self@.len(),
    {
        let tail: usize = self.tail.len();
        self.bytes.len() * 8 + tail
    }

    /// Appends one bit.
    pub fn write_bool(&mut self, bit: bool)
        ensures
            final(self)@ == old(self)@.push(bit),
    {
        let ghost before = self.bytes@;
        match self.tail.push(bit) {
            Some(byte) => {
                self.bytes.push(byte);
                proof {
                    lemma_bits_of_concat(before, seq![byte]);
                    assert(before.push(byte) =~= before + seq![byte]);
                }
            },
            None => {},
        }
        assert(self@ =~= old(self)@.push(bit));
    }

    /// Appends the low `count` bits of `value`, most significant first; bits
    /// above the thirty-second are zero.
    pub fn write(&mut self, value: u32, count: usize)
        ensures
            final(self)@ == old(self)@ + value_bits(value as nat, count as nat),
    {
        let ghost field = value_bits(value as nat, count as nat);
        let mut done: usize = 0;
        proof {
            lemma_value_bits_len(value as nat, count as nat);
            assert(old(self)@ + field.take(0) =~= old(self)@);
        }
        while done < count
            invariant
                done <= count,
                field == value_bits(value as nat, count as nat),
                field.len() == count,
                self@ == old(self)@ + field.take(done as int),
            decreases count - done,
        {
            let weight: usize = count - 1 - done;
            proof {
                lemma_value_bits_index(value as nat, count as nat, done as int);
                if weight < 32 {
                    lemma_u32_shr_is_div(value, weight as u32);
                    let moved = value >> (weight as u32);
                    assert(moved & 1u32 == moved % 2) by (bit_vector);
                } else {
                    lemma2_to64();
                    if weight > 32 {
                        lemma_pow2_strictly_increases(32, weight as nat);
                    }
                    vstd::arithmetic::div_mod::lemma_basic_div(value as int, pow2(weight as nat) as int);
                }
            }
            let bit: bool = weight < 32 && (value >> (weight as u32)) & 1 == 1;
            self.write_bool(bit);
            assert(old(self)@ + field.take(done + 1) =~= (old(self)@ + field.take(done as int)).push(bit));
            done = done + 1;
        }
        assert(field.take(count as int) =~= field);
    }

    /// Appends zero bits up to the next byte boundary.
    pub fn byte_align(&mut self)
        ensures
            final(self)@ == old(self)@ + padding(old(self)@.len()),
    {
        let ghost len = self@.len();
        let used: usize = self.tail.len();
        let gap: usize = if used == 0 {
            0
        } else {
            8 - used
        };
        assert(gap == 7 - (len + 7) % 8);
        let mut done: usize = 0;
        assert(old(self)@ + zero_bits(0) =~= old(self)@);
        while done < gap
            invariant
                done <= gap,
                self@ == old(self)@ + zero_bits(done as nat),
            decreases gap - done,
        {
            self.write_bool(false);
            assert(old(self)@ + zero_bits((done + 1) as nat) =~= (old(self)@ + zero_bits(done as nat)).push(false));
            done = done + 1;
        }
    }

    /// Appends whole bytes.
    pub fn write_bytes(&mut self, bytes: &[u8])
        ensures
            final(self)@ == old(self)@ + bits_of(bytes@),
    {
        let mut index: usize = 0;
        assert(old(self)@ + bits_of(bytes@.take(0)) =~= old(self)@);
        while index < bytes.len()
            invariant
                index <= bytes@.len(),
                self@ == old(self)@ + bits_of(bytes@.take(index as int)),
            decreases bytes@.len() - index,
        {
            let byte: u8 = bytes[index];
            self.write(byte as u32, 8);
            proof {
                lemma_byte_bits(byte);
                lemma_bits_of_concat(bytes@.take(index as int), seq![byte]);
                assert(bytes@.take(index + 1) =~= bytes@.take(index as int) + seq![byte]);
                assert(old(self)@ + bits_of(bytes@.take(index + 1)) =~= old(self)@ + bits_of(
                    bytes@.take(index as int),
                ) + value_bits(byte as nat, 8));
            }
            index = index + 1;
        }
        assert(bytes@.take(index as int) =~= bytes@);
    }

    /// The written bits as bytes, the last one filled up with zero bits.
    pub fn finish(self) -> (bytes: Vec<u8>)
        ensures
            bits_of(bytes@) == self@ + padding(self@.len()),
            bytes@.len() == (self@.len() + 7) / 8,
    {
        let mut writer = self;
        writer.byte_align();
        let used: usize = writer.tail.len();
        proof {
            assert(writer@.len() % 8 == 0);
            assert(used == 0);
            assert(bits_of(writer.bytes@) =~= writer@);
        }
        writer.bytes
    }
}

} // verus!
