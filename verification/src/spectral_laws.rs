//! What the bits of a spectral tuple stand for.

use vstd::arithmetic::div_mod::lemma_small_mod;
use vstd::arithmetic::power2::pow2;
use vstd::prelude::*;

use crate::bits::{bits_value, BitCursor};
use crate::huffman::{coefficient_base, coefficient_offset, is_spectral, magnitude, tuple_dimension};
use crate::spectral::{read_escape, read_escape_exponent, read_escapes, read_signs, unpacked, SpectralError};

verus! {

/// A table word counts its coefficients as digits, the first one as the lowest, each
/// with an offset that makes it non-negative.
pub proof fn lemma_word_digits(codebook: u8, word: u16)
    requires
        is_spectral(codebook),
    ensures
        ({
            let values = unpacked(codebook, word);
            let base = coefficient_base(codebook);
            let offset = coefficient_offset(codebook);
            &&& values.len() == tuple_dimension(codebook)
            &&& forall|i: int| 0 <= i < values.len() ==> 0 <= #[trigger] values[i] + offset < base
            &&& values.len() == 4 && word < 256 ==> word == (values[0] + offset) + 4 * (values[1] + offset) + 16 * (values[2]
                + offset) + 64 * (values[3] + offset)
            &&& values.len() == 2 && word < base * base ==> word == (values[0] + offset) + base * (values[1] + offset)
        }),
{
    let base = coefficient_base(codebook);
    let offset = coefficient_offset(codebook);
    let values = unpacked(codebook, word);
    if tuple_dimension(codebook) == 4 {
        let w = word as int;
        let a = w / 4;
        let b = w / 16;
        let c = w / 64;
        assert(b == a / 4 && c == b / 4);
        assert(w == 4 * a + w % 4 && a == 4 * b + a % 4 && b == 4 * c + b % 4);
        assert(values[0] + offset == w % 4);
        assert(values[1] + offset == a % 4);
        assert(values[2] + offset == b % 4);
        assert(values[3] + offset == c % 4);
        assert(word < 256 ==> c % 4 == c);
    } else if base == 16 {
        assert(values[0] + offset == word % 16);
        assert(values[1] + offset == (word / 16) % 16);
        assert(base * base == 256);
        let high = word as int / 16;
        assert(word == 16 * high + word as int % 16);
        if word < 256 {
            assert(0 <= high < 16);
            lemma_small_mod(high as nat, 16);
        }
        assert(base * (values[1] + offset) == 16 * (values[1] + offset));
    } else {
        assert(base == 32);
        assert(values[0] + offset == word % 32);
        assert(values[1] + offset == (word / 32) % 32);
        assert(base * base == 1024);
        let high = word as int / 32;
        assert(word == 32 * high + word as int % 32);
        if word < 1024 {
            assert(0 <= high < 32);
            lemma_small_mod(high as nat, 32);
        }
        assert(base * (values[1] + offset) == 32 * (values[1] + offset));
    }
}

/// The number of values below an index that are not zero.
pub open spec fn signs_before(values: Seq<i32>, index: int) -> int
    decreases index,
{
    if index <= 0 {
        0
    } else {
        signs_before(values, index - 1) + if values[index - 1] != 0 {
            1int
        } else {
            0
        }
    }
}

proof fn lemma_signs_range(values: Seq<i32>, from: int, to: int)
    requires
        0 <= from <= to,
    ensures
        0 <= signs_before(values, from) <= signs_before(values, to),
    decreases to,
{
    if from < to {
        lemma_signs_range(values, from, to - 1);
    } else if from > 0 {
        lemma_signs_range(values, from - 1, from - 1);
    }
}

proof fn lemma_signs_same(first: Seq<i32>, second: Seq<i32>, index: int)
    requires
        forall|i: int| 0 <= i < index ==> (#[trigger] first[i] == 0) == (second[i] == 0),
    ensures
        signs_before(first, index) == signs_before(second, index),
    decreases index,
{
    if index > 0 {
        assert((first[index - 1] == 0) == (second[index - 1] == 0));
        lemma_signs_same(first, second, index - 1);
    }
}

proof fn lemma_signs_from(values: Seq<i32>, i: int, cursor: BitCursor)
    requires
        0 <= i <= values.len(),
        0 <= cursor.pos,
        forall|k: int| 0 <= k < values.len() ==> #[trigger] values[k] > i32::MIN,
        signs_before(values, values.len() as int) - signs_before(values, i) <= cursor.remaining(),
    ensures
        ({
            let (signed, next) = read_signs(values, i, cursor);
            &&& signed is Ok
            &&& next == cursor.advance(signs_before(values, values.len() as int) - signs_before(values, i))
            &&& signed->Ok_0.len() == values.len()
            &&& forall|k: int| 0 <= k < i ==> #[trigger] signed->Ok_0[k] == values[k]
            &&& forall|k: int|
                i <= k < values.len() ==> #[trigger] signed->Ok_0[k] == if values[k] != 0 && cursor.bits[cursor.pos
                    + signs_before(values, k) - signs_before(values, i)] {
                    -values[k]
                } else {
                    values[k] as int
                }
        }),
    decreases values.len() - i,
{
    if i < values.len() {
        lemma_signs_range(values, i, values.len() as int);
        lemma_signs_range(values, i + 1, values.len() as int);
        assert(signs_before(values, i + 1) == signs_before(values, i) + if values[i] != 0 {
            1int
        } else {
            0
        });
        if values[i] == 0 {
            lemma_signs_from(values, i + 1, cursor);
        } else {
            let value = if cursor.bits[cursor.pos] {
                (-values[i]) as i32
            } else {
                values[i]
            };
            let updated = values.update(i, value);
            let behind = cursor.advance(1);
            assert forall|k: int| 0 <= k <= values.len() implies #[trigger] signs_before(updated, k) == signs_before(
                values,
                k,
            ) by {
                lemma_signs_same(updated, values, k);
            }
            assert(signs_before(updated, values.len() as int) == signs_before(values, values.len() as int));
            assert(signs_before(updated, i + 1) == signs_before(values, i + 1));
            lemma_signs_from(updated, i + 1, behind);
            let signed = read_signs(values, i, cursor).0->Ok_0;
            assert(signed == read_signs(updated, i + 1, behind).0->Ok_0);
            assert forall|k: int| i <= k < values.len() implies #[trigger] signed[k] == (if values[k] != 0 && cursor.bits[cursor.pos
                + signs_before(values, k) - signs_before(values, i)] {
                -values[k]
            } else {
                values[k] as int
            }) by {
                if k > i {
                    assert(signs_before(updated, k) == signs_before(values, k));
                    assert(updated[k] == values[k]);
                } else {
                    assert(signed[i] == updated[i]);
                }
            }
        }
    }
}

/// The signs of a tuple come in the order of its coefficients, one bit for each that
/// is not zero; a one makes its coefficient negative.
pub proof fn lemma_signs_in_order(values: Seq<i32>, cursor: BitCursor)
    requires
        0 <= cursor.pos,
        forall|k: int| 0 <= k < values.len() ==> #[trigger] values[k] > i32::MIN,
        signs_before(values, values.len() as int) <= cursor.remaining(),
    ensures
        ({
            let (signed, next) = read_signs(values, 0, cursor);
            &&& signed is Ok
            &&& next == cursor.advance(signs_before(values, values.len() as int))
            &&& signed->Ok_0.len() == values.len()
            &&& forall|k: int|
                0 <= k < values.len() ==> #[trigger] signed->Ok_0[k] == if values[k] != 0 && cursor.bits[cursor.pos
                    + signs_before(values, k)] {
                    -values[k]
                } else {
                    values[k] as int
                }
        }),
{
    lemma_signs_from(values, 0, cursor);
}

proof fn lemma_exponent_ones(start: nat, ones: nat, cursor: BitCursor)
    requires
        0 <= cursor.pos,
        start + ones <= 12,
        ones < cursor.remaining(),
        forall|i: int| 0 <= i < ones ==> #[trigger] cursor.bits[cursor.pos + i],
        !cursor.bits[cursor.pos + ones],
    ensures
        read_escape_exponent(start, cursor) == (
            Ok::<nat, SpectralError>(start + ones),
            cursor.advance(ones as int + 1),
        ),
    decreases ones,
{
    if ones > 0 {
        let next = cursor.advance(1);
        assert(cursor.bits[cursor.pos + 0]);
        assert forall|i: int| 0 <= i < ones - 1 implies #[trigger] next.bits[next.pos + i] by {
            assert(cursor.bits[cursor.pos + (i + 1)]);
        }
        lemma_exponent_ones(start + 1, (ones - 1) as nat, next);
    } else {
        assert(!cursor.bits[cursor.pos + 0]);
    }
}

/// An escape begins with ones and a zero; as many digits follow as there are ones, and
/// four more. They are the binary digits of the magnitude behind its leading one.
pub proof fn lemma_escape_value(ones: nat, cursor: BitCursor)
    requires
        0 <= cursor.pos,
        ones <= 8,
        2 * ones + 5 <= cursor.remaining(),
        forall|i: int| 0 <= i < ones ==> #[trigger] cursor.bits[cursor.pos + i],
        !cursor.bits[cursor.pos + ones],
    ensures
        ({
            let start = cursor.pos + ones + 1;
            read_escape(cursor) == (
                Ok::<nat, SpectralError>(pow2(ones + 4) + bits_value(cursor.bits.subrange(start, start + ones + 4))),
                cursor.advance(2 * ones as int + 5),
            )
        }),
{
    lemma_exponent_ones(4, ones, cursor);
    let middle = cursor.advance(ones as int + 1);
    assert(middle.pos + (ones + 4) == cursor.pos + ones + 1 + ones + 4);
}

/// Only coefficients of magnitude sixteen have an escape, in their order, and keep
/// their signs.
pub proof fn lemma_escapes_in_order(first: i32, second: i32, cursor: BitCursor)
    requires
        0 <= cursor.pos,
        first > i32::MIN,
        second > i32::MIN,
    ensures
        ({
            let values = seq![first, second];
            let (all, next) = read_escapes(values, 0, cursor);
            &&& magnitude(first) != 16 && magnitude(second) != 16 ==> all == Ok::<Seq<i32>, SpectralError>(values) && next
                == cursor
            &&& magnitude(first) == 16 && magnitude(second) != 16 && read_escape(cursor).0 is Ok ==> all is Ok
                && all->Ok_0 == seq![
                if first < 0 {
                    (-read_escape(cursor).0->Ok_0) as i32
                } else {
                    read_escape(cursor).0->Ok_0 as i32
                },
                second,
            ] && next == read_escape(cursor).1
            &&& magnitude(first) != 16 && magnitude(second) == 16 && read_escape(cursor).0 is Ok ==> all is Ok
                && all->Ok_0 == seq![
                first,
                if second < 0 {
                    (-read_escape(cursor).0->Ok_0) as i32
                } else {
                    read_escape(cursor).0->Ok_0 as i32
                },
            ] && next == read_escape(cursor).1
            &&& magnitude(first) == 16 && magnitude(second) == 16 && read_escape(cursor).0 is Ok && read_escape(
                read_escape(cursor).1,
            ).0 is Ok ==> all is Ok && all->Ok_0 == seq![
                if first < 0 {
                    (-read_escape(cursor).0->Ok_0) as i32
                } else {
                    read_escape(cursor).0->Ok_0 as i32
                },
                if second < 0 {
                    (-read_escape(read_escape(cursor).1).0->Ok_0) as i32
                } else {
                    read_escape(read_escape(cursor).1).0->Ok_0 as i32
                },
            ] && next == read_escape(read_escape(cursor).1).1
        }),
{
    let values = seq![first, second];
    reveal_with_fuel(read_escapes, 3);
    let (one, behind) = read_escape(cursor);
    if magnitude(first) == 16 && one is Ok {
        let value = if first < 0 {
            (-one->Ok_0) as i32
        } else {
            one->Ok_0 as i32
        };
        let updated = values.update(0, value);
        assert(updated =~= seq![value, second]);
        if magnitude(second) == 16 && read_escape(behind).0 is Ok {
            let other = if second < 0 {
                (-read_escape(behind).0->Ok_0) as i32
            } else {
                read_escape(behind).0->Ok_0 as i32
            };
            assert(updated.update(1, other) =~= seq![value, other]);
        }
    } else if magnitude(second) == 16 && one is Ok {
        let value = if second < 0 {
            (-one->Ok_0) as i32
        } else {
            one->Ok_0 as i32
        };
        assert(values.update(1, value) =~= seq![first, value]);
    }
}

} // verus!
