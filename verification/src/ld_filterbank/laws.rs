//! The response of the low-delay filterbank: where every value of a spectrum and of
//! the state is heard, in this frame and in the next ones, and that responses add
//! up.

use vstd::arithmetic::power2::{lemma2_to64, lemma_pow2_pos, lemma_pow2_unfold, pow2};
use vstd::prelude::*;

use crate::fixed::{clamped, rounded};

use super::bank::{
    coefficient_product, dot, exponent_scaled, lemma_dot_silence, lemma_rounded_zero, LowDelayFields,
};

verus! {

/// Silence of a length.
pub open spec fn quiet(len: int) -> Seq<i32> {
    Seq::new(len as nat, |i: int| 0i32)
}

/// Silence but for one value.
pub open spec fn impulse(len: int, at: int, value: i32) -> Seq<i32> {
    Seq::new(
        len as nat,
        |i: int|
            if i == at {
                value
            } else {
                0
            },
    )
}

/// A product with a fraction of thirty-one bits, to the nearest.
pub open spec fn whole_product(value: int, factor: int) -> int {
    clamped(rounded(value * factor, 31))
}

/// Twice the product with a fraction of thirty-one bits.
pub open spec fn double_product(value: int, factor: int) -> int {
    clamped(2 * rounded(value * factor, 31))
}

/// A quarter of the product with a fraction of thirty-one bits, to the nearest.
pub open spec fn quarter_product(value: int, factor: int) -> int {
    clamped(rounded(rounded(value * factor, 31), 2))
}

proof fn lemma_product(bank: LowDelayFields, value: int, index: int)
    requires
        bank.valid(),
        0 <= index < 3 * bank.frame_length,
    ensures
        i32::MIN <= bank.product(value, index) <= i32::MAX,
        index < bank.frame_length ==> bank.product(value, index) == double_product(value, bank.coefficients[index] as int),
        bank.frame_length <= index < 2 * bank.frame_length ==> bank.product(value, index) == whole_product(
            value,
            bank.coefficients[index] as int,
        ),
        2 * bank.frame_length <= index ==> bank.product(value, index) == quarter_product(
            value,
            bank.coefficients[index] as int,
        ),
        value == 0 ==> bank.product(value, index) == 0,
{
    reveal(coefficient_product);
    if value == 0 {
        let factor = bank.coefficients[index] as int;
        assert(0 * factor == 0) by (nonlinear_arith);
        lemma_rounded_zero(31);
        lemma_rounded_zero(2);
    }
}

proof fn lemma_scaled_zero(shift: int)
    ensures
        exponent_scaled(0, shift) == 0,
{
    lemma_rounded_zero(
        if -shift > 63 {
            63
        } else {
            (-shift) as nat
        },
    );
    let p = pow2(
        if shift > 63 {
            63
        } else {
            shift as nat
        },
    );
    assert(0 * p == 0) by (nonlinear_arith);
}

proof fn lemma_transformed(bank: LowDelayFields, spectrum: Seq<i32>, shift: int, i: int)
    ensures
        i32::MIN <= bank.transformed(spectrum, shift, i) <= i32::MAX,
        spectrum == quiet(bank.frame_length) ==> bank.transformed(spectrum, shift, i) == 0,
{
    reveal(LowDelayFields::transformed);
    if spectrum == quiet(bank.frame_length) {
        if bank.frame_length >= 0 {
            lemma_dot_silence(bank.kernel, i * bank.frame_length, bank.frame_length, bank.frame_length as nat);
        }
        lemma_rounded_zero(31);
        lemma_scaled_zero(shift);
    }
}

proof fn lemma_zero_products(factor: int)
    ensures
        double_product(0, factor) == 0,
        whole_product(0, factor) == 0,
        quarter_product(0, factor) == 0,
{
    assert(0 * factor == 0) by (nonlinear_arith);
    lemma_rounded_zero(31);
    lemma_rounded_zero(2);
}

proof fn lemma_product_range(value: int, factor: int)
    ensures
        i32::MIN <= double_product(value, factor) <= i32::MAX,
        i32::MIN <= whole_product(value, factor) <= i32::MAX,
        i32::MIN <= quarter_product(value, factor) <= i32::MAX,
{
}

/// The output in terms of the parts of the next state and of the state.
proof fn lemma_output_parts(bank: LowDelayFields, spectrum: Seq<i32>, shift: int, j: int)
    requires
        bank.valid(),
        0 <= j < bank.frame_length,
    ensures
        ({
            let n = bank.frame_length;
            let c = bank.coefficients;
            let sample = bank.output(spectrum, shift)[j];
            &&& j < n / 4 ==> sample == clamped(
                double_product(bank.next_second(spectrum, shift, j + n / 4), c[n / 4 - 1 - j] as int) + double_product(
                    bank.state[j + n / 4] as int,
                    c[n / 2 + n / 4 + j] as int,
                ),
            )
            &&& n / 4 <= j < 3 * (n / 4) ==> sample == clamped(
                whole_product(
                    bank.next_second(spectrum, shift, 3 * (n / 4) - 1 - j),
                    c[n + n / 2 - 3 * (n / 4) + j] as int,
                ) + whole_product(bank.state[3 * (n / 4) - 1 - j] as int, c[n + n / 2 + 3 * (n / 4) - 1 - j] as int),
            )
            &&& 3 * (n / 4) <= j ==> sample == double_product(
                bank.next_first(spectrum, shift, j - 3 * (n / 4)),
                c[n / 2 + j - 3 * (n / 4)] as int,
            )
        }),
{
    let n = bank.frame_length;
    if j < n / 4 {
        let i = j + n / 4;
        lemma_product(bank, bank.next_second(spectrum, shift, i), n / 2 - 1 - i);
        lemma_product(bank, bank.state[i] as int, n / 2 + i);
    } else if j < 3 * (n / 4) {
        let i = 3 * (n / 4) - 1 - j;
        lemma_product(bank, bank.next_second(spectrum, shift, i), n + n / 2 - 1 - i);
        lemma_product(bank, bank.state[i] as int, n + n / 2 + i);
    } else {
        let i = j - 3 * (n / 4);
        lemma_product(bank, bank.next_first(spectrum, shift, i), n / 2 + i);
    }
    assert(bank.output(spectrum, shift)[j] == bank.output_at(spectrum, shift, j) as i32);
}

/// The next state in terms of the transformed spectrum and of the state.
proof fn lemma_state_parts(bank: LowDelayFields, spectrum: Seq<i32>, shift: int, i: int)
    requires
        bank.valid(),
        0 <= i < bank.frame_length / 2,
    ensures
        ({
            let n = bank.frame_length;
            let c = bank.coefficients;
            let next = bank.next_state(spectrum, shift);
            &&& next[i] == bank.next_first(spectrum, shift, i)
            &&& next[n / 2 + i] == bank.next_second(spectrum, shift, i)
            &&& next[n + i] == bank.transformed(spectrum, shift, n / 2 + i)
            &&& next[n + n / 2 + i] == bank.state[n + n / 2 + i]
            &&& bank.next_first(spectrum, shift, i) == clamped(
                bank.transformed(spectrum, shift, n / 2 + i) + quarter_product(
                    bank.state[n / 2 + i] as int,
                    c[2 * n + i] as int,
                ),
            )
            &&& bank.next_second(spectrum, shift, i) == clamped(
                bank.transformed(spectrum, shift, n / 2 - 1 - i) + quarter_product(
                    bank.state[n + i] as int,
                    c[2 * n + n / 2 + i] as int,
                ),
            )
        }),
{
    let n = bank.frame_length;
    lemma_transformed(bank, spectrum, shift, n / 2 + i);
    lemma_product(bank, bank.state[n / 2 + i] as int, 2 * n + i);
    lemma_product(bank, bank.state[n + i] as int, 2 * n + n / 2 + i);
    let next = bank.next_state(spectrum, shift);
    assert(next[i] == bank.next_state_at(spectrum, shift, i) as i32);
    assert(next[n / 2 + i] == bank.next_state_at(spectrum, shift, n / 2 + i) as i32);
    assert(next[n + i] == bank.next_state_at(spectrum, shift, n + i) as i32);
    assert(next[n + n / 2 + i] == bank.next_state_at(spectrum, shift, n + n / 2 + i) as i32);
}

/// The parts of the next state behind a silent frame.
proof fn lemma_silent_parts(bank: LowDelayFields, shift: int, i: int)
    requires
        bank.valid(),
        0 <= i < bank.frame_length / 2,
    ensures
        ({
            let n = bank.frame_length;
            let c = bank.coefficients;
            &&& bank.next_first(quiet(n), shift, i) == quarter_product(bank.state[n / 2 + i] as int, c[2 * n + i] as int)
            &&& bank.next_second(quiet(n), shift, i) == quarter_product(
                bank.state[n + i] as int,
                c[2 * n + n / 2 + i] as int,
            )
            &&& bank.next_state(quiet(n), shift)[n + i] == 0
        }),
{
    let n = bank.frame_length;
    lemma_state_parts(bank, quiet(n), shift, i);
    lemma_transformed(bank, quiet(n), shift, n / 2 + i);
    lemma_transformed(bank, quiet(n), shift, n / 2 - 1 - i);
    lemma_product_range(bank.state[n / 2 + i] as int, bank.coefficients[2 * n + i] as int);
    lemma_product_range(bank.state[n + i] as int, bank.coefficients[2 * n + n / 2 + i] as int);
}

/// What is left of earlier frames is heard in a silent frame, each value of the
/// state at its places and nowhere else.
///
/// A value `v` at place `m` of the first half frame of the state sounds at
/// `3n/4 - 1 - m`, and where `m` is a quarter frame or more, at `m - n/4` too; then
/// it is gone. One in the second half frame comes back in the first, at a quarter
/// of its size, and sounds at `3n/4 + m` where `m` is below a quarter frame. One in
/// the third half frame sounds as those of the first do, at a quarter of its size,
/// and goes on in the second.
pub proof fn lemma_state_response(bank: LowDelayFields, at: int, value: i32, shift: int)
    requires
        bank.valid(),
        0 <= at < 2 * bank.frame_length,
        bank.state == impulse(2 * bank.frame_length, at, value),
    ensures
        ({
            let n = bank.frame_length;
            let c = bank.coefficients;
            let output = bank.output(quiet(n), shift);
            let next = bank.next_state(quiet(n), shift);
            &&& output.len() == n
            &&& next.len() == 2 * n
            &&& at < n / 2 ==> {
                &&& forall|j: int|
                    0 <= j < n ==> #[trigger] output[j] == if j == 3 * (n / 4) - 1 - at {
                        whole_product(value as int, c[n + n / 2 + at] as int)
                    } else if j == at - n / 4 {
                        double_product(value as int, c[n / 2 + at] as int)
                    } else {
                        0
                    }
                &&& next == quiet(2 * n)
            }
            &&& n / 2 <= at < n ==> {
                let m = at - n / 2;
                let rest = quarter_product(value as int, c[2 * n + m] as int);
                &&& forall|j: int|
                    0 <= j < n ==> #[trigger] output[j] == if j == 3 * (n / 4) + m {
                        double_product(rest, c[n / 2 + m] as int)
                    } else {
                        0
                    }
                &&& next == impulse(2 * n, m, rest as i32)
            }
            &&& n <= at < n + n / 2 ==> {
                let m = at - n;
                let rest = quarter_product(value as int, c[2 * n + n / 2 + m] as int);
                &&& forall|j: int|
                    0 <= j < n ==> #[trigger] output[j] == if j == 3 * (n / 4) - 1 - m {
                        whole_product(rest, c[n + n / 2 - 1 - m] as int)
                    } else if j == m - n / 4 {
                        double_product(rest, c[n / 2 - 1 - m] as int)
                    } else {
                        0
                    }
                &&& next == impulse(2 * n, n / 2 + m, rest as i32)
            }
            &&& n + n / 2 <= at ==> output == quiet(n) && next == bank.state
        }),
{
    let n = bank.frame_length;
    let c = bank.coefficients;
    let silence = quiet(n);
    let output = bank.output(silence, shift);
    let next = bank.next_state(silence, shift);
    assert forall|k: int| 0 <= k < 2 * n implies #[trigger] next[k] == (if n / 2 <= at < n && k == at - n / 2 {
        quarter_product(value as int, c[2 * n + at - n / 2] as int)
    } else if n <= at < n + n / 2 && k == at - n / 2 {
        quarter_product(value as int, c[n + n / 2 + at] as int)
    } else if n + n / 2 <= at && k == at {
        value as int
    } else {
        0
    }) by {
        let i = if k < n / 2 {
            k
        } else if k < n {
            k - n / 2
        } else if k < n + n / 2 {
            k - n
        } else {
            k - n - n / 2
        };
        lemma_state_parts(bank, silence, shift, i);
        lemma_silent_parts(bank, shift, i);
        lemma_zero_products(c[2 * n + i] as int);
        lemma_zero_products(c[2 * n + n / 2 + i] as int);
    }
    lemma_product_range(value as int, c[2 * n + at - n / 2] as int);
    lemma_product_range(value as int, c[n + n / 2 + at] as int);
    assert(at < n / 2 ==> next =~= quiet(2 * n));
    assert(n / 2 <= at < n ==> next =~= impulse(
        2 * n,
        at - n / 2,
        quarter_product(value as int, c[2 * n + at - n / 2] as int) as i32,
    ));
    assert(n <= at < n + n / 2 ==> next =~= impulse(
        2 * n,
        at - n / 2,
        quarter_product(value as int, c[n + n / 2 + at] as int) as i32,
    ));
    assert(n + n / 2 <= at ==> next =~= bank.state);
    assert forall|j: int| 0 <= j < n implies #[trigger] output[j] == response_at(bank, at, value as int, j) by {
        lemma_output_parts(bank, silence, shift, j);
        if j < n / 4 {
            let i = j + n / 4;
            lemma_silent_parts(bank, shift, i);
            lemma_zero_products(c[2 * n + n / 2 + i] as int);
            lemma_zero_products(c[n / 4 - 1 - j] as int);
            lemma_zero_products(c[n / 2 + n / 4 + j] as int);
        } else if j < 3 * (n / 4) {
            let i = 3 * (n / 4) - 1 - j;
            lemma_silent_parts(bank, shift, i);
            lemma_zero_products(c[2 * n + n / 2 + i] as int);
            lemma_zero_products(c[n + n / 2 - 3 * (n / 4) + j] as int);
            lemma_zero_products(c[n + n / 2 + 3 * (n / 4) - 1 - j] as int);
        } else {
            let i = j - 3 * (n / 4);
            lemma_silent_parts(bank, shift, i);
            lemma_zero_products(c[2 * n + i] as int);
            lemma_zero_products(c[n / 2 + i] as int);
        }
    }
    assert(n + n / 2 <= at ==> output =~= quiet(n));
}

/// What a value of the state adds to a sample of a silent frame.
spec fn response_at(bank: LowDelayFields, at: int, value: int, j: int) -> int {
    let n = bank.frame_length;
    let c = bank.coefficients;
    if at < n / 2 {
        if j == 3 * (n / 4) - 1 - at {
            whole_product(value, c[n + n / 2 + at] as int)
        } else if j == at - n / 4 {
            double_product(value, c[n / 2 + at] as int)
        } else {
            0
        }
    } else if at < n {
        let m = at - n / 2;
        if j == 3 * (n / 4) + m {
            double_product(quarter_product(value, c[2 * n + m] as int), c[n / 2 + m] as int)
        } else {
            0
        }
    } else if at < n + n / 2 {
        let m = at - n;
        let rest = quarter_product(value, c[2 * n + n / 2 + m] as int);
        if j == 3 * (n / 4) - 1 - m {
            whole_product(rest, c[n + n / 2 - 1 - m] as int)
        } else if j == m - n / 4 {
            double_product(rest, c[n / 2 - 1 - m] as int)
        } else {
            0
        }
    } else {
        0
    }
}

/// A spectrum is heard in its own frame, where nothing is left of earlier ones, and
/// leaves a state: the upper half of its transform sounds at the end of the frame,
/// as far as a quarter frame, the lower half in front of it, mirrored; all of it is
/// kept, and the upper half twice.
pub proof fn lemma_frame_response(bank: LowDelayFields, spectrum: Seq<i32>, shift: int)
    requires
        bank.valid(),
        bank.state == quiet(2 * bank.frame_length),
    ensures
        ({
            let n = bank.frame_length;
            let c = bank.coefficients;
            let output = bank.output(spectrum, shift);
            let next = bank.next_state(spectrum, shift);
            &&& forall|p: int|
                n / 2 <= p < 3 * (n / 4) ==> output[n / 4 + p] == double_product(
                    #[trigger] bank.transformed(spectrum, shift, p),
                    c[p] as int,
                )
            &&& forall|p: int|
                0 <= p < n / 2 ==> output[n / 4 + p] == whole_product(
                    #[trigger] bank.transformed(spectrum, shift, p),
                    c[n + p] as int,
                )
            &&& forall|p: int|
                0 <= p < n / 4 ==> output[n / 4 - 1 - p] == double_product(
                    #[trigger] bank.transformed(spectrum, shift, p),
                    c[p] as int,
                )
            &&& forall|p: int|
                n / 2 <= p < n ==> next[p - n / 2] == #[trigger] bank.transformed(spectrum, shift, p) && next[p + n / 2]
                    == bank.transformed(spectrum, shift, p)
            &&& forall|p: int| 0 <= p < n / 2 ==> next[n - 1 - p] == #[trigger] bank.transformed(spectrum, shift, p)
        }),
{
    let n = bank.frame_length;
    let c = bank.coefficients;
    let output = bank.output(spectrum, shift);
    let next = bank.next_state(spectrum, shift);
    assert forall|i: int| 0 <= i < n / 2 implies #[trigger] bank.next_first(spectrum, shift, i) == bank.transformed(
        spectrum,
        shift,
        n / 2 + i,
    ) && next[i] == bank.transformed(spectrum, shift, n / 2 + i) && next[n + i] == bank.transformed(
        spectrum,
        shift,
        n / 2 + i,
    ) by {
        lemma_state_parts(bank, spectrum, shift, i);
        lemma_transformed(bank, spectrum, shift, n / 2 + i);
        lemma_zero_products(c[2 * n + i] as int);
    }
    assert forall|i: int| 0 <= i < n / 2 implies #[trigger] bank.next_second(spectrum, shift, i) == bank.transformed(
        spectrum,
        shift,
        n / 2 - 1 - i,
    ) && next[n / 2 + i] == bank.transformed(spectrum, shift, n / 2 - 1 - i) by {
        lemma_state_parts(bank, spectrum, shift, i);
        lemma_transformed(bank, spectrum, shift, n / 2 - 1 - i);
        lemma_zero_products(c[2 * n + n / 2 + i] as int);
    }
    assert forall|p: int| n / 2 <= p < 3 * (n / 4) implies output[n / 4 + p] == double_product(
        #[trigger] bank.transformed(spectrum, shift, p),
        c[p] as int,
    ) by {
        lemma_output_parts(bank, spectrum, shift, n / 4 + p);
        assert(bank.next_first(spectrum, shift, p - n / 2) == bank.transformed(spectrum, shift, p));
    }
    assert forall|p: int| 0 <= p < n / 2 implies output[n / 4 + p] == whole_product(
        #[trigger] bank.transformed(spectrum, shift, p),
        c[n + p] as int,
    ) by {
        lemma_output_parts(bank, spectrum, shift, n / 4 + p);
        assert(bank.next_second(spectrum, shift, n / 2 - 1 - p) == bank.transformed(spectrum, shift, p));
        lemma_zero_products(c[n + n / 2 + n / 2 - 1 - p] as int);
    }
    assert forall|p: int| 0 <= p < n / 4 implies output[n / 4 - 1 - p] == double_product(
        #[trigger] bank.transformed(spectrum, shift, p),
        c[p] as int,
    ) by {
        lemma_output_parts(bank, spectrum, shift, n / 4 - 1 - p);
        assert(bank.next_second(spectrum, shift, n / 2 - 1 - p) == bank.transformed(spectrum, shift, p));
        lemma_zero_products(c[n - 1 - p] as int);
    }
    assert forall|p: int| n / 2 <= p < n implies next[p - n / 2] == #[trigger] bank.transformed(spectrum, shift, p) && next[p
        + n / 2] == bank.transformed(spectrum, shift, p) by {
        assert(bank.next_first(spectrum, shift, p - n / 2) == bank.transformed(spectrum, shift, p));
    }
    assert forall|p: int| 0 <= p < n / 2 implies next[n - 1 - p] == #[trigger] bank.transformed(spectrum, shift, p) by {
        assert(bank.next_second(spectrum, shift, n / 2 - 1 - p) == bank.transformed(spectrum, shift, p));
    }
}

/// A filterbank of which only some of the state is kept, and the rest silent.
pub open spec fn with_part(bank: LowDelayFields, from: int, to: int) -> LowDelayFields {
    LowDelayFields {
        state: Seq::new(
            bank.state.len(),
            |k: int|
                if from <= k < to {
                    bank.state[k]
                } else {
                    0
                },
        ),
        ..bank
    }
}

/// Responses add up: a frame sounds as what the first half frame of the state gives
/// in a silent frame, together with what the spectrum gives on the rest of the
/// state; and the state behind it is the one behind a silent frame together with
/// the one that the spectrum leaves of silence, but for its last quarter, which
/// stays.
pub proof fn lemma_responses_add_up(bank: LowDelayFields, spectrum: Seq<i32>, shift: int)
    requires
        bank.valid(),
        spectrum.len() == bank.frame_length,
    ensures
        ({
            let n = bank.frame_length;
            let first = with_part(bank, 0, n / 2).output(quiet(n), shift);
            let rest = with_part(bank, n / 2, 2 * n).output(spectrum, shift);
            let old_state = bank.next_state(quiet(n), shift);
            let new_state = with_part(bank, 0, 0).next_state(spectrum, shift);
            &&& forall|j: int| 0 <= j < n ==> #[trigger] bank.output(spectrum, shift)[j] == clamped(first[j] + rest[j])
            &&& forall|k: int|
                0 <= k < n + n / 2 ==> #[trigger] bank.next_state(spectrum, shift)[k] == clamped(
                    old_state[k] + new_state[k],
                )
            &&& forall|k: int| n + n / 2 <= k < 2 * n ==> #[trigger] bank.next_state(spectrum, shift)[k] == bank.state[k]
        }),
{
    let n = bank.frame_length;
    let c = bank.coefficients;
    let one = with_part(bank, 0, n / 2);
    let other = with_part(bank, n / 2, 2 * n);
    let none = with_part(bank, 0, 0);
    let first = one.output(quiet(n), shift);
    let rest = other.output(spectrum, shift);
    let old_state = bank.next_state(quiet(n), shift);
    let new_state = none.next_state(spectrum, shift);
    assert forall|i: int|
        #![trigger bank.transformed(spectrum, shift, i)]
        other.transformed(spectrum, shift, i) == bank.transformed(spectrum, shift, i) && none.transformed(spectrum, shift, i)
            == bank.transformed(spectrum, shift, i) by {
        reveal(LowDelayFields::transformed);
    }
    assert forall|k: int| 0 <= k < n + n / 2 implies #[trigger] bank.next_state(spectrum, shift)[k] == clamped(
        old_state[k] + new_state[k],
    ) by {
        let i = if k < n / 2 {
            k
        } else if k < n {
            k - n / 2
        } else {
            k - n
        };
        lemma_state_parts(bank, spectrum, shift, i);
        lemma_state_parts(bank, quiet(n), shift, i);
        lemma_state_parts(none, spectrum, shift, i);
        lemma_silent_parts(bank, shift, i);
        lemma_transformed(bank, spectrum, shift, n / 2 + i);
        lemma_transformed(bank, spectrum, shift, n / 2 - 1 - i);
        lemma_zero_products(c[2 * n + i] as int);
        lemma_zero_products(c[2 * n + n / 2 + i] as int);
        assert(bank.transformed(spectrum, shift, n / 2 + i) == none.transformed(spectrum, shift, n / 2 + i));
        assert(bank.transformed(spectrum, shift, n / 2 - 1 - i) == none.transformed(spectrum, shift, n / 2 - 1 - i));
    }
    assert forall|k: int| n + n / 2 <= k < 2 * n implies #[trigger] bank.next_state(spectrum, shift)[k] == bank.state[k] by {
        lemma_state_parts(bank, spectrum, shift, k - n - n / 2);
    }
    assert forall|j: int| 0 <= j < n implies #[trigger] bank.output(spectrum, shift)[j] == clamped(first[j] + rest[j]) by {
        lemma_output_parts(bank, spectrum, shift, j);
        lemma_output_parts(one, quiet(n), shift, j);
        lemma_output_parts(other, spectrum, shift, j);
        let i = if j < n / 4 {
            j + n / 4
        } else if j < 3 * (n / 4) {
            3 * (n / 4) - 1 - j
        } else {
            j - 3 * (n / 4)
        };
        lemma_silent_parts(one, shift, i);
        lemma_state_parts(bank, spectrum, shift, i);
        lemma_state_parts(other, spectrum, shift, i);
        lemma_zero_products(c[2 * n + i] as int);
        lemma_zero_products(c[2 * n + n / 2 + i] as int);
        assert(bank.transformed(spectrum, shift, n / 2 + i) == other.transformed(spectrum, shift, n / 2 + i));
        assert(bank.transformed(spectrum, shift, n / 2 - 1 - i) == other.transformed(spectrum, shift, n / 2 - 1 - i));
        if j < n / 4 {
            lemma_zero_products(c[n / 4 - 1 - j] as int);
            lemma_zero_products(c[n / 2 + n / 4 + j] as int);
            lemma_product_range(bank.state[i] as int, c[n / 2 + n / 4 + j] as int);
            lemma_product_range(bank.next_second(spectrum, shift, i), c[n / 4 - 1 - j] as int);
        } else if j < 3 * (n / 4) {
            lemma_zero_products(c[n + n / 2 - 3 * (n / 4) + j] as int);
            lemma_zero_products(c[n + n / 2 + 3 * (n / 4) - 1 - j] as int);
            lemma_product_range(bank.state[i] as int, c[n + n / 2 + 3 * (n / 4) - 1 - j] as int);
            lemma_product_range(bank.next_second(spectrum, shift, i), c[n + n / 2 - 3 * (n / 4) + j] as int);
        } else {
            lemma_zero_products(c[n / 2 + i] as int);
            lemma_product_range(bank.next_first(spectrum, shift, i), c[n / 2 + i] as int);
        }
    }
}

proof fn lemma_dot_impulse(kernel: Seq<i32>, row: int, count: int, len: int, line: int, value: i32)
    requires
        0 <= count <= len,
        0 <= line < len,
    ensures
        dot(impulse(len, line, value), kernel, row, count) == if line < count {
            value * kernel[row + line]
        } else {
            0
        },
    decreases count,
{
    if count > 0 {
        lemma_dot_impulse(kernel, row, count - 1, len, line, value);
        let b = kernel[row + count - 1];
        assert(0 * b == 0) by (nonlinear_arith);
    }
}

/// A line of a spectrum is transformed with its own column of the kernel.
pub proof fn lemma_line_response(bank: LowDelayFields, line: int, value: i32, i: int)
    requires
        bank.valid(),
        0 <= line < bank.frame_length,
        0 <= i < bank.frame_length,
    ensures
        bank.transformed(impulse(bank.frame_length, line, value), 0, i) == whole_product(
            value as int,
            bank.kernel[i * bank.frame_length + line] as int,
        ),
{
    reveal(LowDelayFields::transformed);
    lemma_dot_impulse(bank.kernel, i * bank.frame_length, bank.frame_length, bank.frame_length, line, value);
    lemma_unscaled(whole_product(value as int, bank.kernel[i * bank.frame_length + line] as int));
}

/// The products of a sum of spectra are the sums of their products.
pub proof fn lemma_lines_add_up(first: Seq<i32>, second: Seq<i32>, sum: Seq<i32>, kernel: Seq<i32>, row: int, count: int)
    requires
        0 <= count <= sum.len(),
        first.len() == sum.len(),
        second.len() == sum.len(),
        forall|i: int| 0 <= i < sum.len() ==> #[trigger] sum[i] == first[i] + second[i],
    ensures
        dot(sum, kernel, row, count) == dot(first, kernel, row, count) + dot(second, kernel, row, count),
    decreases count,
{
    if count > 0 {
        lemma_lines_add_up(first, second, sum, kernel, row, count - 1);
        let a = first[count - 1] as int;
        let b = second[count - 1] as int;
        let c = kernel[row + count - 1] as int;
        assert(sum[count - 1] == a + b);
        assert((a + b) * c == a * c + b * c) by (nonlinear_arith);
    }
}

/// At the usual exponent nothing is scaled.
proof fn lemma_unscaled(value: int)
    requires
        i32::MIN <= value <= i32::MAX,
    ensures
        exponent_scaled(value, 0) == value,
{
    lemma2_to64();
    assert(value * 1 == value);
}

/// An exponent above the usual one doubles a value for each step, within range;
/// one below it halves it for each, to the nearest.
pub proof fn lemma_exponent(value: i32, shift: int)
    ensures
        exponent_scaled(value as int, 0) == value,
        0 <= shift < 63 ==> exponent_scaled(value as int, shift + 1) == clamped(2 * exponent_scaled(value as int, shift)),
        0 < shift <= 31 ==> {
            let difference = value - exponent_scaled(value as int, -shift) * pow2(shift as nat);
            -pow2((shift - 1) as nat) <= difference <= pow2((shift - 1) as nat)
        },
{
    lemma_unscaled(value as int);
    if 0 <= shift < 63 {
        lemma_pow2_unfold((shift + 1) as nat);
        let p = pow2(shift as nat) as int;
        let v = value as int;
        assert(v * (2 * p) == 2 * (v * p)) by (nonlinear_arith);
    }
    if 0 < shift <= 31 {
        let bits = shift as nat;
        lemma_pow2_pos(bits);
        lemma_pow2_pos((bits - 1) as nat);
        lemma_pow2_unfold(bits);
        let p = pow2(bits) as int;
        let h = pow2((bits - 1) as nat) as int;
        let size = if value >= 0 {
            value as int
        } else {
            -value
        };
        let quotient = (size + h) / p;
        vstd::arithmetic::div_mod::lemma_fundamental_div_mod(size + h, p);
        let remainder = (size + h) % p;
        assert(0 <= remainder < p);
        assert(size + h == p * quotient + remainder);
        assert(p * quotient == quotient * p) by (nonlinear_arith);
        assert(quotient <= size + h && 0 <= quotient) by (nonlinear_arith)
            requires
                size + h == p * quotient + remainder,
                0 <= remainder < p,
                0 <= size,
                0 <= h,
                p >= 1,
        ;
        assert(quotient <= 0x4000_0001) by (nonlinear_arith)
            requires
                size + h == p * quotient + remainder,
                size <= 0x8000_0000,
                p == 2 * h,
                remainder >= 0,
                h >= 1,
        ;
        assert((-quotient) * p == -(quotient * p)) by (nonlinear_arith);
    }
}

} // verus!
