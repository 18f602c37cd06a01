//! What the passes of the transforms do.

use vstd::prelude::*;

use super::{group_source, quad, radix2_at, radix4_at, rotation, turned};

verus! {

/// Four complex inputs of the first stage, a quarter of the inputs apart: real and imaginary
/// parts of input `j`.
pub open spec fn quarter_input(values: Seq<i32>, source: int, j: int) -> (int, int) {
    (values[source + 16 * j] as int, values[source + 16 * j + 1] as int)
}

/// The sum of four complex numbers, each but the first turned back by a number of quarter
/// turns.
pub open spec fn quarter_sum(values: Seq<i32>, source: int, k: int) -> (int, int) {
    let (a, b) = quarter_input(values, source, 0);
    let (c, d) = quarter_turned(quarter_input(values, source, 1), k);
    let (e, f) = quarter_turned(quarter_input(values, source, 2), 2 * k);
    let (g, h) = quarter_turned(quarter_input(values, source, 3), 3 * k);
    (a + c + e + g, b + d + f + h)
}

/// A complex number turned back by a number of quarter turns.
pub open spec fn quarter_turned(value: (int, int), turns: int) -> (int, int) {
    if turns % 4 == 0 {
        value
    } else if turns % 4 == 1 {
        (value.1, -value.0)
    } else if turns % 4 == 2 {
        (-value.0, -value.1)
    } else {
        (-value.1, value.0)
    }
}

/// The first stage transforms four inputs in each of eight groups. The groups come in the order
/// of their reversed bits, and every output is half a sum, up to the rounding of halves.
pub proof fn lemma_groups_of_four(values: Seq<i32>, first: int, second: int, third: int, k: int)
    requires
        values.len() == 64,
        0 <= first <= 1,
        0 <= second <= 1,
        0 <= third <= 1,
        0 <= k <= 3,
    ensures
        ({
            let group = 4 * first + 2 * second + third;
            let source = 2 * first + 4 * second + 8 * third;
            let (re, im) = quarter_sum(values, source, k);
            &&& re - 2 <= 2 * radix4_at(values, 8 * group + 2 * k) <= re + 2
            &&& im - 2 <= 2 * radix4_at(values, 8 * group + 2 * k + 1) <= im + 2
        }),
{
    let group = 4 * first + 2 * second + third;
    let source = 2 * first + 4 * second + 8 * third;
    assert((8 * group + 2 * k) / 8 == group && (8 * group + 2 * k + 1) / 8 == group);
    assert((8 * group + 2 * k) % 8 == 2 * k && (8 * group + 2 * k + 1) % 8 == 2 * k + 1);
    assert(group_source(group) == source);
    lemma_quarter_halves(values, source, k);
}

proof fn lemma_quarter_halves(values: Seq<i32>, source: int, k: int)
    requires
        0 <= k <= 3,
    ensures
        ({
            let (re, im) = quarter_sum(values, source, k);
            &&& re - 2 <= 2 * quad(values, source, 2 * k) <= re + 2
            &&& im - 2 <= 2 * quad(values, source, 2 * k + 1) <= im + 2
        }),
{
    if k == 0 {
    } else if k == 1 {
    } else if k == 2 {
    } else {
    }
}

/// A later pass joins two complex values a span apart: the two outputs have the halved lower
/// one for their mean, and differ by what the upper one turns to.
pub proof fn lemma_pass_joins(values: Seq<i32>, span: int, block: int, k: int, part: int)
    requires
        span == 8 || span == 16 || span == 32,
        0 <= block,
        0 <= k < span,
        k % 2 == 0,
        0 <= part <= 1,
    ensures
        ({
            let low = 2 * span * block + k;
            let (re, im) = turned(values, low + span, span, k);
            let lower = radix2_at(values, span, low + part);
            let upper = radix2_at(values, span, low + part + span);
            &&& lower + upper == 2 * (values[low + part] as int / 2)
            &&& lower - upper == 2 * if part == 0 {
                re
            } else {
                im
            }
        }),
{
    let low = 2 * span * block + k;
    lemma_places(span, block, k + part);
    lemma_places(span, block, k + part + span);
    lemma_joined_at(values, span, low + part, low + part + span, k, part);
}

proof fn lemma_joined_at(values: Seq<i32>, span: int, first: int, second: int, k: int, part: int)
    requires
        span % 2 == 0,
        second == first + span,
        first % (2 * span) == k + part,
        second % (2 * span) == k + part + span,
        0 <= k,
        k + part < span,
        first % 2 == part,
        second % 2 == part,
    ensures
        ({
            let (re, im) = turned(values, first - part + span, span, k);
            let moved = if part == 0 {
                re
            } else {
                im
            };
            &&& radix2_at(values, span, first) == values[first] as int / 2 + moved
            &&& radix2_at(values, span, second) == values[first] as int / 2 - moved
        }),
{
    assert(second - span - part + span == first - part + span);
    assert((second - span) % (2 * span) - part == k);
}

proof fn lemma_places(span: int, block: int, place: int)
    requires
        span == 8 || span == 16 || span == 32,
        0 <= block,
        0 <= place < 2 * span,
    ensures
        (2 * span * block + place) % (2 * span) == place,
        (2 * span * block + place) % 2 == place % 2,
{
    if span == 8 {
        assert((16 * block + place) % 16 == place);
        assert((16 * block + place) % 2 == place % 2);
    } else if span == 16 {
        assert((32 * block + place) % 32 == place);
        assert((32 * block + place) % 2 == place % 2);
    } else {
        assert((64 * block + place) % 64 == place);
        assert((64 * block + place) % 2 == place % 2);
    }
}

/// At its first position a pass does not turn. At each position of the second half of a span it
/// turns a quarter further back than at that of the first half.
pub proof fn lemma_quarter_further(values: Seq<i32>, at: int, span: int, k: int)
    requires
        span == 8 || span == 16 || span == 32,
        0 <= k,
        2 * k < span,
        k % 2 == 0,
    ensures
        turned(values, at, span, k + span / 2) == (turned(values, at, span, k).1, -turned(values, at, span, k).0),
        turned(values, at, span, 0) == (values[at] as int / 2, values[at + 1] as int / 2),
{
    assert(2 * (k + span / 2) - span == 2 * k);
}

/// Whether two numbers of fifteen fractional bits differ by a rounding error.
pub open spec fn near(a: int, b: int) -> bool {
    b - 4 <= a <= b + 4
}

/// The rotations divide a quarter turn into eight equal steps: cosine and sine change places
/// when the steps are counted from the other end, half way they are alike, and twice the steps
/// turn by twice the angle.
pub proof fn lemma_rotations(step: int)
    requires
        1 <= step <= 7,
    ensures
        rotation(32, 4 * step) == (rotation(32, 4 * (8 - step)).1, rotation(32, 4 * (8 - step)).0),
        ({
            let (c, s) = rotation(32, 4 * step);
            &&& near((c * c + s * s) / 0x8000, 0x8000)
            &&& step <= 3 ==> near((c * c - s * s) / 0x8000, rotation(32, 8 * step).0) && near(
                2 * c * s / 0x8000,
                rotation(32, 8 * step).1,
            )
        }),
        step % 2 == 0 ==> rotation(16, 2 * step) == rotation(32, 4 * step),
        step % 4 == 0 ==> rotation(8, step) == rotation(32, 4 * step),
{
    if step == 1 {
    } else if step == 2 {
    } else if step == 3 {
    } else if step == 4 {
    } else if step == 5 {
    } else if step == 6 {
    } else {
    }
}

} // verus!
