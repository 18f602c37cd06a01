//! The range of the transforms: no pass makes a complex value larger, but for
//! rounding, so that the cosine and the sine transform never overflow.

use vstd::prelude::*;

use super::twiddles::{lemma_unit_twiddles, near_unit, post_twiddle, pre_twiddle, q15_of, unit_twiddle};
use super::{
    dct64_fits, dct_input, dct_input_at, dct_output_at, dst64_fits, dst_input, dst_input_at, dst_output_at, fft32, fft32_fits,
    fits, group_source, half_product, half_sum, quad, radix2, radix2_at, radix2_fits, radix4, radix4_at, radix4_fits,
    root_half, rotation, turned, twiddled, twiddled_whole,
};

verus! {

/// Whether a complex value is at most as large as a bound.
pub open spec fn bounded(re: int, im: int, bound: int) -> bool {
    0 <= bound && re * re + im * im <= bound * bound
}

proof fn lemma_root_order(x: int, y: int)
    requires
        x * x <= y * y,
        0 <= y,
    ensures
        -y <= x <= y,
{
    if x > y {
        assert(x * x > y * y) by (nonlinear_arith)
            requires
                x > y,
                y >= 0,
        ;
    }
    if x < -y {
        assert(x * x > y * y) by (nonlinear_arith)
            requires
                x < -y,
                y >= 0,
        ;
    }
}

proof fn lemma_bounded_parts(re: int, im: int, bound: int)
    requires
        bounded(re, im, bound),
    ensures
        -bound <= re <= bound,
        -bound <= im <= bound,
{
    assert(re * re >= 0 && im * im >= 0) by (nonlinear_arith);
    lemma_root_order(re, bound);
    lemma_root_order(im, bound);
}

proof fn lemma_bounded_more(re: int, im: int, bound: int, more: int)
    requires
        bounded(re, im, bound),
        bound <= more,
    ensures
        bounded(re, im, more),
{
    assert(bound * bound <= more * more) by (nonlinear_arith)
        requires
            0 <= bound <= more,
    ;
}

/// A complex value whose parts are small is small.
proof fn lemma_bounded_box(re: int, im: int, size: int, bound: int)
    requires
        -size <= re <= size,
        -size <= im <= size,
        0 <= bound,
        2 * (size * size) <= bound * bound,
    ensures
        bounded(re, im, bound),
{
    assert(re * re <= size * size) by (nonlinear_arith)
        requires
            -size <= re <= size,
    ;
    assert(im * im <= size * size) by (nonlinear_arith)
        requires
            -size <= im <= size,
    ;
}

/// Turning by a quarter or mirroring leaves the size as it is.
proof fn lemma_bounded_turns(re: int, im: int, bound: int)
    requires
        bounded(re, im, bound),
    ensures
        bounded(-re, -im, bound),
        bounded(im, re, bound),
        bounded(im, -re, bound),
        bounded(-im, re, bound),
        bounded(re, -im, bound),
        bounded(-im, -re, bound),
{
    assert((-re) * (-re) == re * re) by (nonlinear_arith);
    assert((-im) * (-im) == im * im) by (nonlinear_arith);
}

proof fn lemma_squares(p: int, q: int)
    ensures
        (p + q) * (p + q) == p * p + q * q + 2 * (p * q),
        (p - q) * (p - q) == p * p + q * q - 2 * (p * q),
        (p * q) * (p * q) == (p * p) * (q * q),
{
    assert((p + q) * (p + q) == p * p + q * q + 2 * (p * q)) by (nonlinear_arith);
    assert((p - q) * (p - q) == p * p + q * q - 2 * (p * q)) by (nonlinear_arith);
    assert((p * q) * (p * q) == (p * p) * (q * q)) by (nonlinear_arith);
}

/// The product of two sums of two squares.
proof fn lemma_two_squares(x: int, y: int, u: int, v: int)
    ensures
        (x * u + y * v) * (x * u + y * v) + (x * v - y * u) * (x * v - y * u) == (x * x + y * y) * (u * u + v * v),
{
    lemma_squares(x * u, y * v);
    lemma_squares(x * v, y * u);
    lemma_squares(x, u);
    lemma_squares(y, v);
    lemma_squares(x, v);
    lemma_squares(y, u);
    assert((x * u) * (y * v) == (x * v) * (y * u)) by (nonlinear_arith);
    let a = x * x;
    let b = y * y;
    let c = u * u;
    let d = v * v;
    assert((a + b) * (c + d) == a * c + a * d + b * c + b * d) by (nonlinear_arith);
}

/// The sum of complex values is at most as large as they are together.
proof fn lemma_bounded_sum(x: int, y: int, u: int, v: int, first: int, second: int)
    requires
        bounded(x, y, first),
        bounded(u, v, second),
    ensures
        bounded(x + u, y + v, first + second),
{
    let a = x * x + y * y;
    let b = u * u + v * v;
    let dot = x * u + y * v;
    let cross = x * v - y * u;
    lemma_two_squares(x, y, u, v);
    assert(cross * cross >= 0) by (nonlinear_arith);
    assert(a >= 0 && b >= 0) by (nonlinear_arith)
        requires
            a == x * x + y * y,
            b == u * u + v * v,
    ;
    assert(a * b <= (first * first) * (second * second)) by (nonlinear_arith)
        requires
            0 <= a <= first * first,
            0 <= b <= second * second,
    ;
    assert((first * first) * (second * second) == (first * second) * (first * second)) by (nonlinear_arith);
    assert(first * second >= 0) by (nonlinear_arith)
        requires
            first >= 0,
            second >= 0,
    ;
    lemma_root_order(dot, first * second);
    assert((x + u) * (x + u) + (y + v) * (y + v) == a + b + 2 * dot) by (nonlinear_arith)
        requires
            a == x * x + y * y,
            b == u * u + v * v,
            dot == x * u + y * v,
    ;
    assert((first + second) * (first + second) == first * first + second * second + 2 * (first * second))
        by (nonlinear_arith);
}

proof fn lemma_bounded_difference(x: int, y: int, u: int, v: int, first: int, second: int)
    requires
        bounded(x, y, first),
        bounded(u, v, second),
    ensures
        bounded(x - u, y - v, first + second),
{
    lemma_bounded_turns(u, v, second);
    lemma_bounded_sum(x, y, -u, -v, first, second);
}

/// A multiple within a bound.
proof fn lemma_bounded_quotient(re: int, im: int, scale: int, large: int, bound: int)
    requires
        bounded(scale * re, scale * im, large),
        0 < scale,
        large <= scale * bound,
        0 <= bound,
    ensures
        bounded(re, im, bound),
{
    let size = re * re + im * im;
    let square = scale * scale;
    assert((scale * re) * (scale * re) + (scale * im) * (scale * im) == square * size) by (nonlinear_arith)
        requires
            size == re * re + im * im,
            square == scale * scale,
    ;
    assert(large * large <= (scale * bound) * (scale * bound)) by (nonlinear_arith)
        requires
            0 <= large <= scale * bound,
    ;
    assert((scale * bound) * (scale * bound) == square * (bound * bound)) by (nonlinear_arith)
        requires
            square == scale * scale,
    ;
    assert(square > 0) by (nonlinear_arith)
        requires
            square == scale * scale,
            scale > 0,
    ;
    assert(size <= bound * bound) by (nonlinear_arith)
        requires
            square * size <= square * (bound * bound),
            square > 0,
    ;
}

/// Half of a complex value, rounded.
proof fn lemma_bounded_half(re: int, im: int, bound: int)
    requires
        bounded(re, im, bound),
    ensures
        bounded(re / 2, im / 2, bound / 2 + 2),
{
    lemma_bounded_box(re % 2, im % 2, 1, 2);
    lemma_bounded_difference(re, im, re % 2, im % 2, bound, 2);
    assert(re - re % 2 == 2 * (re / 2));
    assert(im - im % 2 == 2 * (im / 2));
    lemma_bounded_quotient(re / 2, im / 2, 2, bound + 2, bound / 2 + 2);
}

/// The bound of half a rotated value.
pub open spec fn rotated_bound(bound: int) -> int {
    (bound * 32770 + 196608) / 0x1_0000 + 1
}

/// Half of a rotated value.
proof fn lemma_bounded_rotation(re: i32, im: i32, c: int, s: int, bound: int)
    requires
        bounded(re as int, im as int, bound),
        near_unit(c, s),
    ensures
        bounded(
            half_product(im, s) + half_product(re, c),
            half_product(im, c) - half_product(re, s),
            rotated_bound(bound),
        ),
{
    let p = im * s + re * c;
    let q = im * c - re * s;
    let size = re * re + im * im;
    let unit = c * c + s * s;
    lemma_two_squares(re as int, im as int, c, s);
    assert(re * s - im * c == -q);
    assert((-q) * (-q) == q * q) by (nonlinear_arith);
    assert(size >= 0 && unit >= 0) by (nonlinear_arith)
        requires
            size == re * re + im * im,
            unit == c * c + s * s,
    ;
    assert(size * unit <= (bound * bound) * (32770 * 32770)) by (nonlinear_arith)
        requires
            0 <= size <= bound * bound,
            0 <= unit <= 32770 * 32770,
    ;
    assert((bound * bound) * (32770 * 32770) == (bound * 32770) * (bound * 32770)) by (nonlinear_arith);
    assert(bounded(p, q, bound * 32770));
    let whole_p = half_product(im, s) + half_product(re, c);
    let whole_q = half_product(im, c) - half_product(re, s);
    let rest_p = p - 0x1_0000 * whole_p;
    let rest_q = q - 0x1_0000 * whole_q;
    assert(-131072 <= rest_p <= 131072);
    assert(-131072 <= rest_q <= 131072);
    lemma_bounded_box(rest_p, rest_q, 131072, 196608);
    lemma_bounded_difference(p, q, rest_p, rest_q, bound * 32770, 196608);
    lemma_bounded_quotient(whole_p, whole_q, 0x1_0000, bound * 32770 + 196608, rotated_bound(bound));
}

/// Whether the complex value at an index is within a bound.
pub open spec fn pair_bounded(values: Seq<i32>, a: int, bound: int) -> bool {
    bounded(values[a] as int, values[a + 1] as int, bound)
}

/// Whether thirty-two complex values are within a bound.
pub open spec fn pairs_bounded(values: Seq<i32>, bound: int) -> bool {
    values.len() == 64 && forall|a: int| 0 <= a < 63 && a % 2 == 0 ==> #[trigger] pair_bounded(values, a, bound)
}

/// The parts of complex values are no larger than they are.
proof fn lemma_part_range(values: Seq<i32>, i: int, bound: int)
    requires
        pairs_bounded(values, bound),
        0 <= i < 64,
    ensures
        -bound <= values[i] <= bound,
{
    let a = i - i % 2;
    assert(a % 2 == 0);
    assert(pair_bounded(values, a, bound));
    lemma_bounded_parts(values[a] as int, values[a + 1] as int, bound);
}

/// A complex output of the first stage.
proof fn lemma_quad_bound(values: Seq<i32>, a: int, k: int, bound: int)
    requires
        pairs_bounded(values, bound),
        0 <= a <= 14,
        a % 2 == 0,
        k == 0 || k == 2 || k == 4 || k == 6,
    ensures
        bounded(quad(values, a, k), quad(values, a, k + 1), 2 * bound + 4),
{
    assert(pair_bounded(values, a, bound));
    assert(pair_bounded(values, a + 16, bound));
    assert(pair_bounded(values, a + 32, bound));
    assert(pair_bounded(values, a + 48, bound));
    let x0 = (values[a] as int, values[a + 1] as int);
    let x1 = (values[a + 16] as int, values[a + 17] as int);
    let x2 = (values[a + 32] as int, values[a + 33] as int);
    let x3 = (values[a + 48] as int, values[a + 49] as int);
    let near = bound + 2;
    lemma_bounded_sum(x0.0, x0.1, x2.0, x2.1, bound, bound);
    lemma_bounded_half(x0.0 + x2.0, x0.1 + x2.1, 2 * bound);
    lemma_bounded_sum(x1.0, x1.1, x3.0, x3.1, bound, bound);
    lemma_bounded_half(x1.0 + x3.0, x1.1 + x3.1, 2 * bound);
    lemma_bounded_difference(x0.0, x0.1, x2.0, x2.1, bound, bound);
    lemma_bounded_half(x0.0 - x2.0, x0.1 - x2.1, 2 * bound);
    lemma_bounded_difference(x1.0, x1.1, x3.0, x3.1, bound, bound);
    lemma_bounded_half(x1.0 - x3.0, x1.1 - x3.1, 2 * bound);
    let v = (half_sum(values, a, a + 32), half_sum(values, a + 1, a + 33));
    let w = (half_sum(values, a + 16, a + 48), half_sum(values, a + 17, a + 49));
    let d = (v.0 - x2.0, v.1 - x2.1);
    let e = (w.0 - x3.0, w.1 - x3.1);
    assert(d.0 == (x0.0 - x2.0) / 2 && d.1 == (x0.1 - x2.1) / 2);
    assert(e.0 == (x1.0 - x3.0) / 2 && e.1 == (x1.1 - x3.1) / 2);
    lemma_bounded_turns(e.0, e.1, near);
    if k == 0 {
        lemma_bounded_sum(v.0, v.1, w.0, w.1, near, near);
    } else if k == 2 {
        lemma_bounded_sum(d.0, d.1, e.1, -e.0, near, near);
    } else if k == 4 {
        lemma_bounded_difference(v.0, v.1, w.0, w.1, near, near);
    } else {
        lemma_bounded_sum(d.0, d.1, -e.1, e.0, near, near);
    }
}

/// The first stage doubles complex values at most, but for rounding.
proof fn lemma_first_stage_range(values: Seq<i32>, bound: int)
    requires
        pairs_bounded(values, bound),
        2 * bound + 4 <= i32::MAX,
    ensures
        radix4_fits(values),
        pairs_bounded(radix4(values), 2 * bound + 4),
{
    let next = radix4(values);
    let far = 2 * bound + 4;
    assert forall|i: int| 0 <= i < 64 implies fits(#[trigger] radix4_at(values, i)) by {
        let a = i - i % 2;
        lemma_quad_bound(values, group_source(a / 8), a % 8, bound);
        assert(i / 8 == a / 8 && i % 8 == a % 8 + i % 2);
        lemma_bounded_parts(
            quad(values, group_source(a / 8), a % 8),
            quad(values, group_source(a / 8), a % 8 + 1),
            far,
        );
    }
    assert forall|a: int|
        #![trigger values[a]]
        0 <= a < 32 implies fits(values[a] + values[a + 32]) && fits(half_sum(values, a, a + 32) - values[a + 32]) by {
        lemma_part_range(values, a, bound);
        lemma_part_range(values, a + 32, bound);
    }
    assert forall|a: int| 0 <= a < 63 && a % 2 == 0 implies #[trigger] pair_bounded(next, a, far) by {
        lemma_quad_bound(values, group_source(a / 8), a % 8, bound);
        assert((a + 1) / 8 == a / 8 && (a + 1) % 8 == a % 8 + 1);
        assert(fits(radix4_at(values, a)));
        assert(fits(radix4_at(values, a + 1)));
    }
}

proof fn lemma_unit_rotations()
    ensures
        near_unit(0x7d8a, 0x18f9),
        near_unit(0x7642, 0x30fc),
        near_unit(0x6a6e, 0x471d),
        near_unit(0x5a82, 0x5a82),
        near_unit(0x471d, 0x6a6e),
        near_unit(0x30fc, 0x7642),
        near_unit(0x18f9, 0x7d8a),
{
}

/// Half of a complex value, turned back.
proof fn lemma_turned_bound(values: Seq<i32>, at: int, span: int, k: int, bound: int)
    requires
        span == 8 || span == 16 || span == 32,
        0 <= k < span,
        pair_bounded(values, at, bound),
    ensures
        bounded(turned(values, at, span, k).0, turned(values, at, span, k).1, rotated_bound(bound)),
{
    let re = values[at];
    let im = values[at + 1];
    if k == 0 || 2 * k == span {
        lemma_bounded_half(re as int, im as int, bound);
        lemma_bounded_more(re as int / 2, im as int / 2, bound / 2 + 2, rotated_bound(bound));
        lemma_bounded_turns(re as int / 2, im as int / 2, rotated_bound(bound));
    } else {
        let (c, s) = if 2 * k < span {
            rotation(span, 2 * k)
        } else {
            rotation(span, 2 * k - span)
        };
        lemma_unit_rotations();
        assert(near_unit(c, s));
        lemma_bounded_rotation(re, im, c, s, bound);
        lemma_bounded_turns(
            half_product(im, s) + half_product(re, c),
            half_product(im, c) - half_product(re, s),
            rotated_bound(bound),
        );
    }
}

/// The bound behind a pass.
pub open spec fn pass_bound(bound: int) -> int {
    bound / 2 + 2 + rotated_bound(bound)
}

/// The two parts of a complex value in a pass of span 8.
proof fn lemma_pair_place_eight(i: int)
    requires
        0 <= i < 64,
        i % 2 == 0,
    ensures
        (i + 1) % 16 == i % 16 + 1,
        (i % 16 < 8) == ((i + 1) % 16 < 8),
        i % 16 < 8 ==> i + 8 < 63,
        i % 16 >= 8 ==> i >= 8 && (i - 8) % 16 == i % 16 - 8 && (i + 1 - 8) % 16 == i % 16 + 1 - 8,
{
}

/// The two parts of a complex value in a pass of span 16.
proof fn lemma_pair_place_sixteen(i: int)
    requires
        0 <= i < 64,
        i % 2 == 0,
    ensures
        (i + 1) % 32 == i % 32 + 1,
        (i % 32 < 16) == ((i + 1) % 32 < 16),
        i % 32 < 16 ==> i + 16 < 63,
        i % 32 >= 16 ==> i >= 16 && (i - 16) % 32 == i % 32 - 16 && (i + 1 - 16) % 32 == i % 32 + 1 - 16,
{
}

/// The two parts of a complex value in a pass of span 32.
proof fn lemma_pair_place_all(i: int)
    requires
        0 <= i < 64,
        i % 2 == 0,
    ensures
        (i + 1) % 64 == i % 64 + 1,
        (i % 64 < 32) == ((i + 1) % 64 < 32),
        i % 64 < 32 ==> i + 32 < 63,
        i % 64 >= 32 ==> i >= 32 && (i - 32) % 64 == i % 64 - 32 && (i + 1 - 32) % 64 == i % 64 + 1 - 32,
{
}

/// The two parts of a complex output of a pass lie at the same place.
proof fn lemma_pair_place(i: int, span: int)
    requires
        span == 8 || span == 16 || span == 32,
        0 <= i < 64,
        i % 2 == 0,
    ensures
        (i + 1) % (2 * span) == i % (2 * span) + 1,
        (i % (2 * span) < span) == ((i + 1) % (2 * span) < span),
        i % (2 * span) < span ==> i + span < 63,
        i % (2 * span) >= span ==> i >= span && (i - span) % (2 * span) == i % (2 * span) - span && (i + 1 - span) % (2
            * span) == i % (2 * span) + 1 - span,
{
    if span == 8 {
        lemma_pair_place_eight(i);
        assert(2 * span == 16);
    } else if span == 16 {
        lemma_pair_place_sixteen(i);
        assert(2 * span == 32);
    } else {
        lemma_pair_place_all(i);
        assert(2 * span == 64);
    }
}

/// The inputs of a complex output of a pass: the lower one, and the turned one
/// above it.
proof fn lemma_pass_terms(values: Seq<i32>, span: int, i: int, low: int)
    requires
        span == 8 || span == 16 || span == 32,
        0 <= i < 63,
        i % 2 == 0,
        low == (if i % (2 * span) < span { i } else { i - span }),
    ensures
        0 <= low,
        low + span < 63,
        low % 2 == 0,
        (low + span) % 2 == 0,
        0 <= low % (2 * span) < span,
        ({
            let (re, im) = turned(values, low + span, span, low % (2 * span));
            if i % (2 * span) < span {
                radix2_at(values, span, i) == values[low] as int / 2 + re && radix2_at(values, span, i + 1)
                    == values[low + 1] as int / 2 + im
            } else {
                radix2_at(values, span, i) == values[low] as int / 2 - re && radix2_at(values, span, i + 1)
                    == values[low + 1] as int / 2 - im
            }
        }),
{
    lemma_pair_place(i, span);
    assert((i + 1) % 2 == 1);
}

/// The two parts of a complex output of a pass.
proof fn lemma_pass_pair(values: Seq<i32>, span: int, i: int, bound: int)
    requires
        span == 8 || span == 16 || span == 32,
        pairs_bounded(values, bound),
        0 <= i < 63,
        i % 2 == 0,
    ensures
        bounded(radix2_at(values, span, i), radix2_at(values, span, i + 1), pass_bound(bound)),
{
    let low = if i % (2 * span) < span {
        i
    } else {
        i - span
    };
    lemma_pass_terms(values, span, i, low);
    let k = low % (2 * span);
    assert(pair_bounded(values, low, bound));
    assert(pair_bounded(values, low + span, bound));
    let re = values[low] as int;
    let im = values[low + 1] as int;
    lemma_bounded_half(re, im, bound);
    lemma_turned_bound(values, low + span, span, k, bound);
    let (turned_re, turned_im) = turned(values, low + span, span, k);
    lemma_bounded_sum(re / 2, im / 2, turned_re, turned_im, bound / 2 + 2, rotated_bound(bound));
    lemma_bounded_difference(re / 2, im / 2, turned_re, turned_im, bound / 2 + 2, rotated_bound(bound));
}

/// A pass leaves complex values as large as they are, but for rounding.
proof fn lemma_pass_range(values: Seq<i32>, span: int, bound: int)
    requires
        span == 8 || span == 16 || span == 32,
        pairs_bounded(values, bound),
        pass_bound(bound) <= i32::MAX,
    ensures
        radix2_fits(values, span),
        pairs_bounded(radix2(values, span), pass_bound(bound)),
{
    let next = radix2(values, span);
    assert forall|i: int| 0 <= i < 64 implies fits(#[trigger] radix2_at(values, span, i)) by {
        let a = i - i % 2;
        assert(a % 2 == 0);
        lemma_pass_pair(values, span, a, bound);
        lemma_bounded_parts(radix2_at(values, span, a), radix2_at(values, span, a + 1), pass_bound(bound));
    }
    assert forall|a: int| 0 <= a < 63 && a % 2 == 0 implies #[trigger] pair_bounded(next, a, pass_bound(bound)) by {
        lemma_pass_pair(values, span, a, bound);
        assert(fits(radix2_at(values, span, a)));
        assert(fits(radix2_at(values, span, a + 1)));
    }
}

proof fn lemma_pairs_more(values: Seq<i32>, bound: int, more: int)
    requires
        pairs_bounded(values, bound),
        bound <= more,
    ensures
        pairs_bounded(values, more),
{
    assert forall|a: int| 0 <= a < 63 && a % 2 == 0 implies #[trigger] pair_bounded(values, a, more) by {
        assert(pair_bounded(values, a, bound));
        lemma_bounded_more(values[a] as int, values[a + 1] as int, bound, more);
    }
}

/// Complex values of at most 760,000,000 transform without overflow.
pub proof fn lemma_fft32_range(values: Seq<i32>)
    requires
        pairs_bounded(values, 760_000_000),
    ensures
        fft32_fits(values),
        pairs_bounded(fft32(values), 1_521_000_000),
{
    lemma_first_stage_range(values, 760_000_000);
    let first = radix4(values);
    let b1 = 1_520_000_004int;
    lemma_pass_range(first, 8, b1);
    let second = radix2(first, 8);
    let b2 = pass_bound(b1);
    lemma_pass_range(second, 16, b2);
    let third = radix2(second, 16);
    let b3 = pass_bound(b2);
    lemma_pass_range(third, 32, b3);
    lemma_pairs_more(radix2(third, 32), pass_bound(b3), 1_521_000_000);
}

/// Values of at most 537,000,000 make complex values that transform without
/// overflow.
pub proof fn lemma_fft32_small(values: Seq<i32>)
    requires
        values.len() == 64,
        forall|i: int| 0 <= i < 64 ==> -537_000_000 <= #[trigger] values[i] <= 537_000_000,
    ensures
        fft32_fits(values),
{
    assert forall|a: int| 0 <= a < 63 && a % 2 == 0 implies #[trigger] pair_bounded(values, a, 760_000_000) by {
        assert(-537_000_000 <= values[a] <= 537_000_000);
        assert(-537_000_000 <= values[a + 1] <= 537_000_000);
        lemma_bounded_box(values[a] as int, values[a + 1] as int, 537_000_000, 760_000_000);
    }
    lemma_fft32_range(values);
}

/// Half of a product with a factor.
proof fn lemma_twiddled_bound(re: i32, im: i32, twiddle: (u32, u32), bound: int)
    requires
        bounded(re as int, im as int, bound),
        unit_twiddle(twiddle),
    ensures
        bounded(twiddled(re, im, twiddle).0, twiddled(re, im, twiddle).1, rotated_bound(bound)),
{
    let c = q15_of(twiddle.0);
    let s = q15_of(twiddle.1);
    lemma_bounded_turns(re as int, im as int, bound);
    lemma_bounded_rotation(im, re, c, s, bound);
    lemma_bounded_turns(
        half_product(re, s) + half_product(im, c),
        half_product(re, c) - half_product(im, s),
        rotated_bound(bound),
    );
}

/// A product with a factor behind the transform does not wrap around.
proof fn lemma_whole_bound(re: i32, im: i32, twiddle: (u32, u32))
    requires
        bounded(re as int, im as int, 1_521_000_000),
        unit_twiddle(twiddle),
    ensures
        -i32::MAX <= twiddled_whole(re, im, twiddle).0 <= i32::MAX,
        -i32::MAX <= twiddled_whole(re, im, twiddle).1 <= i32::MAX,
{
    lemma_twiddled_bound(re, im, twiddle, 1_521_000_000);
    let (a, b) = twiddled(re, im, twiddle);
    lemma_bounded_parts(a, b, rotated_bound(1_521_000_000));
}

/// The sum and the difference of the parts, each divided by the square root of
/// two, fit.
proof fn lemma_root_bound(re: i32, im: i32)
    requires
        bounded(re as int, im as int, 1_521_000_000),
    ensures
        -i32::MAX <= root_half(re) + root_half(im) <= i32::MAX,
        -i32::MAX <= root_half(re) - root_half(im) <= i32::MAX,
{
    lemma_bounded_parts(re as int, im as int, 1_521_000_000);
    assert((re + im) * (re + im) + (re - im) * (re - im) == 2 * (re * re + im * im)) by (nonlinear_arith);
    assert((re + im) * (re + im) >= 0 && (re - im) * (re - im) >= 0) by (nonlinear_arith);
    lemma_root_order(re + im, 2_152_000_000);
    lemma_root_order(re - im, 2_152_000_000);
}

/// The products that an output is made of lie within range.
proof fn lemma_output_operands(values: Seq<i32>, i: int)
    requires
        pairs_bounded(values, 1_521_000_000),
        0 <= i < 64,
    ensures
        -i32::MAX <= values[0] <= i32::MAX,
        -i32::MAX <= values[1] <= i32::MAX,
        -i32::MAX <= root_half(values[32]) + root_half(values[33]) <= i32::MAX,
        -i32::MAX <= root_half(values[32]) - root_half(values[33]) <= i32::MAX,
        0 < i < 31 && i % 2 == 1 ==> {
            let p = twiddled_whole(values[63 - i], values[64 - i], post_twiddle((i - 1) / 2));
            -i32::MAX <= p.0 <= i32::MAX && -i32::MAX <= p.1 <= i32::MAX
        },
        0 < i < 31 && i % 2 == 0 ==> {
            let p = twiddled_whole(values[i + 1], values[i], post_twiddle((i - 2) / 2));
            -i32::MAX <= p.0 <= i32::MAX && -i32::MAX <= p.1 <= i32::MAX
        },
        32 < i < 63 && i % 2 == 0 ==> {
            let p = twiddled_whole(values[i], values[i + 1], post_twiddle((62 - i) / 2));
            -i32::MAX <= p.0 <= i32::MAX && -i32::MAX <= p.1 <= i32::MAX
        },
        32 < i < 63 && i % 2 == 1 ==> {
            let p = twiddled_whole(values[64 - i], values[63 - i], post_twiddle((61 - i) / 2));
            -i32::MAX <= p.0 <= i32::MAX && -i32::MAX <= p.1 <= i32::MAX
        },
{
    let far = 1_521_000_000int;
    lemma_part_range(values, 0, far);
    lemma_part_range(values, 1, far);
    assert(pair_bounded(values, 32, far));
    lemma_root_bound(values[32], values[33]);
    if 0 < i < 31 && i % 2 == 1 {
        lemma_unit_twiddles((i - 1) / 2);
        assert((63 - i) % 2 == 0);
        assert(pair_bounded(values, 63 - i, far));
        lemma_whole_bound(values[63 - i], values[64 - i], post_twiddle((i - 1) / 2));
    } else if 0 < i < 31 {
        lemma_unit_twiddles((i - 2) / 2);
        assert(pair_bounded(values, i, far));
        lemma_bounded_turns(values[i] as int, values[i + 1] as int, far);
        lemma_whole_bound(values[i + 1], values[i], post_twiddle((i - 2) / 2));
    } else if 32 < i < 63 && i % 2 == 0 {
        lemma_unit_twiddles((62 - i) / 2);
        assert(pair_bounded(values, i, far));
        lemma_whole_bound(values[i], values[i + 1], post_twiddle((62 - i) / 2));
    } else if 32 < i < 63 {
        lemma_unit_twiddles((61 - i) / 2);
        assert((63 - i) % 2 == 0);
        assert(pair_bounded(values, 63 - i, far));
        lemma_bounded_turns(values[63 - i] as int, values[64 - i] as int, far);
        lemma_whole_bound(values[64 - i], values[63 - i], post_twiddle((61 - i) / 2));
    }
}

/// A complex input of the Fourier transform in the cosine transform.
proof fn lemma_dct_pair(values: Seq<i32>, a: int)
    requires
        0 <= a < 63,
        a % 2 == 0,
    ensures
        bounded(dct_input_at(values, a), dct_input_at(values, a + 1), 760_000_000),
{
    let at = if a < 32 {
        a
    } else {
        63 - a
    };
    let (re, im) = if a < 32 {
        (values[63 - a], values[a])
    } else {
        (values[a], values[63 - a])
    };
    lemma_unit_twiddles(at);
    lemma_bounded_box(re as int, im as int, 0x8000_0000, 3_037_000_500);
    lemma_twiddled_bound(re, im, pre_twiddle(at), 3_037_000_500);
    let (first, second) = twiddled(re, im, pre_twiddle(at));
    let near = rotated_bound(3_037_000_500);
    lemma_bounded_half(first, second, near);
    lemma_bounded_more(first / 2, second / 2, near / 2 + 2, 760_000_000);
    lemma_bounded_turns(first / 2, second / 2, 760_000_000);
}

/// The cosine transform does not overflow.
pub proof fn lemma_dct64_range(values: Seq<i32>)
    ensures
        dct64_fits(values),
{
    let input = dct_input(values);
    assert forall|a: int| 0 <= a < 63 && a % 2 == 0 implies #[trigger] pair_bounded(input, a, 760_000_000) by {
        lemma_dct_pair(values, a);
        lemma_bounded_parts(dct_input_at(values, a), dct_input_at(values, a + 1), 760_000_000);
    }
    lemma_fft32_range(input);
    let transformed = fft32(input);
    assert forall|i: int| 0 <= i < 64 implies fits(#[trigger] dct_output_at(transformed, i)) by {
        lemma_output_operands(transformed, i);
    }
}

/// A complex input of the Fourier transform in the sine transform.
proof fn lemma_dst_pair(values: Seq<i32>, a: int)
    requires
        0 <= a < 63,
        a % 2 == 0,
    ensures
        bounded(dst_input_at(values, a), dst_input_at(values, a + 1), 760_000_000),
{
    let at = if a < 32 {
        a
    } else {
        63 - a
    };
    let high = (values[63 - a] as int / 2) as i32;
    let low = (-(values[a] as int / 2)) as i32;
    let (re, im) = if a < 32 {
        (high, low)
    } else {
        (low, high)
    };
    lemma_unit_twiddles(at);
    lemma_bounded_box(re as int, im as int, 0x4000_0000, 1_518_500_250);
    lemma_twiddled_bound(re, im, pre_twiddle(at), 1_518_500_250);
    let (first, second) = twiddled(re, im, pre_twiddle(at));
    lemma_bounded_more(first, second, rotated_bound(1_518_500_250), 760_000_000);
    lemma_bounded_turns(first, second, 760_000_000);
}

/// The sine transform does not overflow.
pub proof fn lemma_dst64_range(values: Seq<i32>)
    ensures
        dst64_fits(values),
{
    let input = dst_input(values);
    assert forall|a: int| 0 <= a < 63 && a % 2 == 0 implies #[trigger] pair_bounded(input, a, 760_000_000) by {
        lemma_dst_pair(values, a);
        lemma_bounded_parts(dst_input_at(values, a), dst_input_at(values, a + 1), 760_000_000);
    }
    lemma_fft32_range(input);
    let transformed = fft32(input);
    assert forall|i: int| 0 <= i < 64 implies fits(#[trigger] dst_output_at(transformed, i)) by {
        lemma_output_operands(transformed, i);
    }
}

} // verus!
