//! Twiddle factors of the transforms of sixty-four values.

use vstd::prelude::*;

verus! {

/// Cosines and sines before the transform, in thirty-one fractional bits.
pub const DCT64_PRE_TWIDDLES_Q31: [[u32; 2]; 32] = [
    [0x7ffd885a, 0x01921d20],
    [0x7fe9cbc0, 0x04b6195d],
    [0x7fc25596, 0x07d95b9e],
    [0x7f872bf3, 0x0afb6805],
    [0x7f3857f6, 0x0e1bc2e4],
    [0x7ed5e5c6, 0x1139f0cf],
    [0x7e5fe493, 0x145576b1],
    [0x7dd6668f, 0x176dd9de],
    [0x7d3980ec, 0x1a82a026],
    [0x7c894bde, 0x1d934fe5],
    [0x7bc5e290, 0x209f701c],
    [0x7aef6323, 0x23a6887f],
    [0x7a05eead, 0x26a82186],
    [0x7909a92d, 0x29a3c485],
    [0x77fab989, 0x2c98fbba],
    [0x76d94989, 0x2f875262],
    [0x75a585cf, 0x326e54c7],
    [0x745f9dd1, 0x354d9057],
    [0x7307c3d0, 0x382493b0],
    [0x719e2cd2, 0x3af2eeb7],
    [0x7023109a, 0x3db832a6],
    [0x6e96a99d, 0x4073f21d],
    [0x6cf934fc, 0x4325c135],
    [0x6b4af279, 0x45cd358f],
    [0x698c246c, 0x4869e665],
    [0x67bd0fbd, 0x4afb6c98],
    [0x65ddfbd3, 0x4d8162c4],
    [0x63ef3290, 0x4ffb654d],
    [0x61f1003f, 0x5269126e],
    [0x5fe3b38d, 0x54ca0a4b],
    [0x5dc79d7c, 0x571deefa],
    [0x5b9d1154, 0x59646498],
];

/// Cosines and sines behind the transform, in thirty-one fractional bits.
pub const DCT64_POST_TWIDDLES_Q31: [[u32; 2]; 15] = [
    [0x7fd8878e, 0x0647d97c],
    [0x7f62368f, 0x0c8bd35e],
    [0x7e9d55fc, 0x12c8106f],
    [0x7d8a5f40, 0x18f8b83c],
    [0x7c29fbee, 0x1f19f97b],
    [0x7a7d055b, 0x25280c5e],
    [0x78848414, 0x2b1f34eb],
    [0x7641af3d, 0x30fbc54d],
    [0x73b5ebd1, 0x36ba2014],
    [0x70e2cbc6, 0x3c56ba70],
    [0x6dca0d14, 0x41ce1e65],
    [0x6a6d98a4, 0x471cece7],
    [0x66cf8120, 0x4c3fdff4],
    [0x62f201ac, 0x5133cc94],
    [0x5ed77c8a, 0x55f5a4d2],
];

/// The factor before the transform at an index.
pub closed spec fn pre_twiddle(index: int) -> (u32, u32) {
    (DCT64_PRE_TWIDDLES_Q31@[index]@[0], DCT64_PRE_TWIDDLES_Q31@[index]@[1])
}

/// The factor behind the transform at an index.
pub closed spec fn post_twiddle(index: int) -> (u32, u32) {
    (DCT64_POST_TWIDDLES_Q31@[index]@[0], DCT64_POST_TWIDDLES_Q31@[index]@[1])
}

/// Where the factors stand.
pub proof fn lemma_twiddles(index: int)
    ensures
        pre_twiddle(index) == (DCT64_PRE_TWIDDLES_Q31@[index]@[0], DCT64_PRE_TWIDDLES_Q31@[index]@[1]),
        post_twiddle(index) == (DCT64_POST_TWIDDLES_Q31@[index]@[0], DCT64_POST_TWIDDLES_Q31@[index]@[1]),
{
}

/// The factor before the transform at an index.
pub fn pre_twiddle_at(index: usize) -> (twiddle: (u32, u32))
    requires
        index < 32,
    ensures
        twiddle == pre_twiddle(index as int),
{
    let row: [u32; 2] = DCT64_PRE_TWIDDLES_Q31[index];
    (row[0], row[1])
}

/// The factor behind the transform at an index.
pub fn post_twiddle_at(index: usize) -> (twiddle: (u32, u32))
    requires
        index < 15,
    ensures
        twiddle == post_twiddle(index as int),
{
    let row: [u32; 2] = DCT64_POST_TWIDDLES_Q31[index];
    (row[0], row[1])
}

/// A factor of thirty-one fractional bits rounded to fifteen.
pub open spec fn q15_of(value: u32) -> int {
    let rounded = (value + 0x8000) / 0x1_0000;
    if rounded < 0x7fff {
        rounded
    } else {
        0x7fff
    }
}

/// Whether a cosine and a sine in fifteen fractional bits make a complex value of
/// at most one, or a little more by rounding.
pub open spec fn near_unit(c: int, s: int) -> bool {
    0 <= c <= 0x7fff && 0 <= s <= 0x7fff && c * c + s * s <= 32770 * 32770
}

/// Whether a factor is at most one, or a little more by rounding.
pub open spec fn unit_twiddle(twiddle: (u32, u32)) -> bool {
    near_unit(q15_of(twiddle.0), q15_of(twiddle.1))
}

spec fn pre_units(from: int, to: int) -> bool
    decreases to - from,
{
    from >= to || (near_unit(q15_of(DCT64_PRE_TWIDDLES_Q31@[from]@[0]), q15_of(DCT64_PRE_TWIDDLES_Q31@[from]@[1]))
        && pre_units(from + 1, to))
}

spec fn post_units(from: int, to: int) -> bool
    decreases to - from,
{
    from >= to || (near_unit(q15_of(DCT64_POST_TWIDDLES_Q31@[from]@[0]), q15_of(DCT64_POST_TWIDDLES_Q31@[from]@[1]))
        && post_units(from + 1, to))
}

proof fn lemma_pre_units_at(from: int, to: int, index: int)
    requires
        pre_units(from, to),
        from <= index < to,
    ensures
        unit_twiddle(pre_twiddle(index)),
    decreases to - from,
{
    if from < index {
        lemma_pre_units_at(from + 1, to, index);
    }
}

proof fn lemma_post_units_at(from: int, to: int, index: int)
    requires
        post_units(from, to),
        from <= index < to,
    ensures
        unit_twiddle(post_twiddle(index)),
    decreases to - from,
{
    if from < index {
        lemma_post_units_at(from + 1, to, index);
    }
}

/// The factors before the transform, in fifteen fractional bits.
proof fn lemma_pre_units()
    ensures
        pre_units(0, 32),
{
    assert(near_unit(0x7ffe, 0x0192));
    assert(near_unit(0x7fea, 0x04b6));
    assert(near_unit(0x7fc2, 0x07d9));
    assert(near_unit(0x7f87, 0x0afb));
    assert(near_unit(0x7f38, 0x0e1c));
    assert(near_unit(0x7ed6, 0x113a));
    assert(near_unit(0x7e60, 0x1455));
    assert(near_unit(0x7dd6, 0x176e));
    assert(near_unit(0x7d3a, 0x1a83));
    assert(near_unit(0x7c89, 0x1d93));
    assert(near_unit(0x7bc6, 0x209f));
    assert(near_unit(0x7aef, 0x23a7));
    assert(near_unit(0x7a06, 0x26a8));
    assert(near_unit(0x790a, 0x29a4));
    assert(near_unit(0x77fb, 0x2c99));
    assert(near_unit(0x76d9, 0x2f87));
    assert(near_unit(0x75a6, 0x326e));
    assert(near_unit(0x7460, 0x354e));
    assert(near_unit(0x7308, 0x3825));
    assert(near_unit(0x719e, 0x3af3));
    assert(near_unit(0x7023, 0x3db8));
    assert(near_unit(0x6e97, 0x4074));
    assert(near_unit(0x6cf9, 0x4326));
    assert(near_unit(0x6b4b, 0x45cd));
    assert(near_unit(0x698c, 0x486a));
    assert(near_unit(0x67bd, 0x4afb));
    assert(near_unit(0x65de, 0x4d81));
    assert(near_unit(0x63ef, 0x4ffb));
    assert(near_unit(0x61f1, 0x5269));
    assert(near_unit(0x5fe4, 0x54ca));
    assert(near_unit(0x5dc8, 0x571e));
    assert(near_unit(0x5b9d, 0x5964));
    reveal_with_fuel(pre_units, 33);
}

/// The factors behind the transform, in fifteen fractional bits.
proof fn lemma_post_units()
    ensures
        post_units(0, 15),
{
    assert(near_unit(0x7fd9, 0x0648));
    assert(near_unit(0x7f62, 0x0c8c));
    assert(near_unit(0x7e9d, 0x12c8));
    assert(near_unit(0x7d8a, 0x18f9));
    assert(near_unit(0x7c2a, 0x1f1a));
    assert(near_unit(0x7a7d, 0x2528));
    assert(near_unit(0x7885, 0x2b1f));
    assert(near_unit(0x7642, 0x30fc));
    assert(near_unit(0x73b6, 0x36ba));
    assert(near_unit(0x70e3, 0x3c57));
    assert(near_unit(0x6dca, 0x41ce));
    assert(near_unit(0x6a6e, 0x471d));
    assert(near_unit(0x66d0, 0x4c40));
    assert(near_unit(0x62f2, 0x5134));
    assert(near_unit(0x5ed7, 0x55f6));
    reveal_with_fuel(post_units, 16);
}

/// No factor makes a complex value larger, but for rounding.
pub proof fn lemma_unit_twiddles(index: int)
    ensures
        0 <= index < 32 ==> unit_twiddle(pre_twiddle(index)),
        0 <= index < 15 ==> unit_twiddle(post_twiddle(index)),
{
    lemma_pre_units();
    lemma_post_units();
    if 0 <= index < 32 {
        lemma_pre_units_at(0, 32, index);
    }
    if 0 <= index < 15 {
        lemma_post_units_at(0, 15, index);
    }
}

} // verus!
