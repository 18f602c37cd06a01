//! The synthesis of low-delay frames from their spectra.

use vstd::arithmetic::power2::{lemma2_to64, lemma_pow2_pos, lemma_pow2_strictly_increases, pow2};
use vstd::prelude::*;

use crate::fixed::{clamp_i128_to_i32, clamped, power_of_two, round_shift_i128, rounded};

use super::error::LdFilterbankError;

verus! {

/// A filterbank with the state of the frames before.
#[derive(Debug, Clone)]
pub struct LowDelayFilterbankQ31 {
    frame_length: usize,
    state: Vec<i32>,
    coefficients: Vec<i32>,
    dct_iv_kernel: Vec<i32>,
}

/// The model of [`LowDelayFilterbankQ31`].
#[verifier::ext_equal]
pub struct LowDelayFields {
    pub frame_length: int,
    pub state: Seq<i32>,
    pub coefficients: Seq<i32>,
    pub kernel: Seq<i32>,
}

impl View for LowDelayFilterbankQ31 {
    type V = LowDelayFields;

    closed spec fn view(&self) -> LowDelayFields {
        LowDelayFields {
            frame_length: self.frame_length as int,
            state: self.state@,
            coefficients: self.coefficients@,
            kernel: self.dct_iv_kernel@,
        }
    }
}

/// The products of a spectrum with a row of the kernel, the first `count` summed
/// up.
pub open spec fn dot(spectrum: Seq<i32>, kernel: Seq<i32>, row: int, count: int) -> int
    decreases count,
{
    if count <= 0 {
        0
    } else {
        dot(spectrum, kernel, row, count - 1) + spectrum[count - 1] * kernel[row + count - 1]
    }
}

/// A value scaled by an exponent, within range.
pub open spec fn exponent_scaled(value: int, shift: int) -> int {
    if shift >= 0 {
        clamped(
            value * pow2(
                if shift > 63 {
                    63
                } else {
                    shift as nat
                },
            ),
        )
    } else {
        clamped(
            rounded(
                value,
                if -shift > 63 {
                    63
                } else {
                    (-shift) as nat
                },
            ),
        )
    }
}

/// A rounded product with a coefficient of one of three scales.
#[verifier::opaque]
pub open spec fn coefficient_product(value: int, coefficients: Seq<i32>, index: int, n: int) -> int {
    let product = rounded(value * coefficients[index], 31);
    if index < n {
        clamped(product * 2)
    } else if index < 2 * n {
        clamped(product)
    } else {
        clamped(rounded(product, 2))
    }
}

impl LowDelayFields {
    /// What every filterbank keeps.
    pub open spec fn valid(self) -> bool {
        &&& self.frame_length == 480 || self.frame_length == 512
        &&& self.state.len() == 2 * self.frame_length
        &&& self.coefficients.len() == 3 * self.frame_length
        &&& self.kernel.len() == self.frame_length * self.frame_length
    }

    /// The transformed spectrum at an index.
    #[verifier::opaque]
    pub open spec fn transformed(self, spectrum: Seq<i32>, shift: int, i: int) -> int {
        exponent_scaled(
            clamped(rounded(dot(spectrum, self.kernel, i * self.frame_length, self.frame_length), 31)),
            shift,
        )
    }

    /// A rounded product with a coefficient.
    pub open spec fn product(self, value: int, index: int) -> int {
        coefficient_product(value, self.coefficients, index, self.frame_length)
    }

    /// The first part of the next state.
    pub open spec fn next_first(self, spectrum: Seq<i32>, shift: int, i: int) -> int {
        let n = self.frame_length;
        clamped(self.transformed(spectrum, shift, n / 2 + i) + self.product(self.state[n / 2 + i] as int, 2 * n + i))
    }

    /// The second part of the next state.
    pub open spec fn next_second(self, spectrum: Seq<i32>, shift: int, i: int) -> int {
        let n = self.frame_length;
        clamped(
            self.transformed(spectrum, shift, n / 2 - 1 - i) + self.product(
                self.state[n + i] as int,
                2 * n + n / 2 + i,
            ),
        )
    }

    /// The next state at an index.
    pub open spec fn next_state_at(self, spectrum: Seq<i32>, shift: int, k: int) -> int {
        let n = self.frame_length;
        if k < n / 2 {
            self.next_first(spectrum, shift, k)
        } else if k < n {
            self.next_second(spectrum, shift, k - n / 2)
        } else if k < n + n / 2 {
            self.transformed(spectrum, shift, n / 2 + k - n)
        } else {
            self.state[k] as int
        }
    }

    /// The next state.
    pub open spec fn next_state(self, spectrum: Seq<i32>, shift: int) -> Seq<i32> {
        Seq::new((2 * self.frame_length) as nat, |k: int| self.next_state_at(spectrum, shift, k) as i32)
    }

    /// The output at an index.
    pub open spec fn output_at(self, spectrum: Seq<i32>, shift: int, j: int) -> int {
        let n = self.frame_length;
        if j < n / 4 {
            let i = j + n / 4;
            clamped(
                self.product(self.next_second(spectrum, shift, i), n / 2 - 1 - i) + self.product(
                    self.state[i] as int,
                    n / 2 + i,
                ),
            )
        } else if j < 3 * (n / 4) {
            let i = 3 * (n / 4) - 1 - j;
            clamped(
                self.product(self.next_second(spectrum, shift, i), n + n / 2 - 1 - i) + self.product(
                    self.state[i] as int,
                    n + n / 2 + i,
                ),
            )
        } else {
            let i = j - 3 * (n / 4);
            self.product(self.next_first(spectrum, shift, i), n / 2 + i)
        }
    }

    /// The output of a frame.
    pub open spec fn output(self, spectrum: Seq<i32>, shift: int) -> Seq<i32> {
        Seq::new(self.frame_length as nat, |j: int| self.output_at(spectrum, shift, j) as i32)
    }
}

proof fn lemma_dot_bound(spectrum: Seq<i32>, kernel: Seq<i32>, row: int, count: int)
    requires
        0 <= count <= 512,
    ensures
        -count * 0x4000_0000_0000_0000 <= dot(spectrum, kernel, row, count) <= count * 0x4000_0000_0000_0000,
    decreases count,
{
    if count > 0 {
        lemma_dot_bound(spectrum, kernel, row, count - 1);
        let a = spectrum[count - 1];
        let b = kernel[row + count - 1];
        assert(-0x4000_0000_0000_0000 <= a * b <= 0x4000_0000_0000_0000) by (nonlinear_arith)
            requires
                -0x8000_0000 <= a <= 0x7fff_ffff,
                -0x8000_0000 <= b <= 0x7fff_ffff,
        ;
    }
}

fn row_product(spectrum: &[i32], kernel: &Vec<i32>, row: usize, count: usize) -> (sum: i128)
    requires
        count <= 512,
        spectrum@.len() == count,
        row + count <= kernel@.len(),
    ensures
        sum == dot(spectrum@, kernel@, row as int, count as int),
        -0x200_0000_0000_0000_0000 <= sum <= 0x200_0000_0000_0000_0000,
{
    let mut sum: i128 = 0;
    let mut index: usize = 0;
    assert(kernel@.len() == kernel.len());
    while index < count
        invariant
            index <= count <= 512,
            spectrum@.len() == count,
            row + count <= kernel@.len() == kernel.len(),
            sum == dot(spectrum@, kernel@, row as int, index as int),
        decreases count - index,
    {
        let a: i32 = spectrum[index];
        let b: i32 = kernel[row + index];
        proof {
            lemma_dot_bound(spectrum@, kernel@, row as int, index as int);
            assert(-0x4000_0000_0000_0000 <= a * b <= 0x4000_0000_0000_0000) by (nonlinear_arith)
                requires
                    -0x8000_0000 <= a <= 0x7fff_ffff,
                    -0x8000_0000 <= b <= 0x7fff_ffff,
            ;
        }
        sum = sum + a as i128 * b as i128;
        index = index + 1;
    }
    proof {
        lemma_dot_bound(spectrum@, kernel@, row as int, count as int);
    }
    sum
}

fn scale_by_exponent(value: i32, shift: i32) -> (result: i32)
    requires
        -0x1_0000 <= shift <= 0x1_0000,
    ensures
        result == exponent_scaled(value as int, shift as int),
{
    let magnitude: i32 = if shift < 0 {
        -shift
    } else {
        shift
    };
    let bits: u32 = if magnitude > 63 {
        63
    } else {
        magnitude as u32
    };
    let power: i128 = power_of_two(bits);
    proof {
        lemma2_to64();
        lemma_pow2_strictly_increases(bits as nat, 64);
        let p = pow2(bits as nat) as int;
        let v = value as int;
        assert(-0x8000_0000 * 0x1_0000_0000_0000_0000 <= v * p <= 0x8000_0000 * 0x1_0000_0000_0000_0000)
            by (nonlinear_arith)
            requires
                1 <= p <= 0x1_0000_0000_0000_0000,
                -0x8000_0000 <= v <= 0x7fff_ffff,
        ;
    }
    if shift >= 0 {
        clamp_i128_to_i32(value as i128 * power)
    } else {
        proof {
            lemma_pow2_strictly_increases((bits - 1) as nat, 64);
        }
        clamp_i128_to_i32(round_shift_i128(value as i128, bits))
    }
}

proof fn lemma_rounded_range(value: int, bits: nat)
    requires
        bits == 31 || bits == 2,
        -0x4000_0000_0000_0000 <= value <= 0x4000_0000_0000_0000,
    ensures
        -0x4000_0000_0000_0001 <= rounded(value, bits) <= 0x4000_0000_0000_0001,
        bits == 31 ==> -0x8000_0001 <= rounded(value, bits) <= 0x8000_0001,
{
    lemma2_to64();
}

fn multiply(value: i32, coefficients: &Vec<i32>, index: usize, n: usize) -> (result: i32)
    requires
        index < coefficients@.len(),
        n <= 512,
    ensures
        result == coefficient_product(value as int, coefficients@, index as int, n as int),
{
    let coefficient: i32 = coefficients[index];
    proof {
        reveal(coefficient_product);
        lemma2_to64();
        assert(-0x4000_0000_0000_0000 <= value * coefficient <= 0x4000_0000_0000_0000) by (nonlinear_arith)
            requires
                -0x8000_0000 <= value <= 0x7fff_ffff,
                -0x8000_0000 <= coefficient <= 0x7fff_ffff,
        ;
        lemma_rounded_range(value * coefficient, 31);
    }
    let product: i128 = round_shift_i128(value as i128 * coefficient as i128, 31);
    if index < n {
        clamp_i128_to_i32(product * 2)
    } else if index < 2 * n {
        clamp_i128_to_i32(product)
    } else {
        clamp_i128_to_i32(round_shift_i128(product, 2))
    }
}

fn add_clamped(left: i32, right: i32) -> (sum: i32)
    ensures
        sum == clamped(left + right),
{
    clamp_i128_to_i32(left as i128 + right as i128)
}

fn zeros(count: usize) -> (values: Vec<i32>)
    ensures
        values@ == Seq::new(count as nat, |i: int| 0i32),
{
    let mut values: Vec<i32> = Vec::new();
    while values.len() < count
        invariant
            values@.len() <= count,
            forall|i: int| 0 <= i < values@.len() ==> #[trigger] values@[i] == 0,
        decreases count - values@.len(),
    {
        values.push(0);
    }
    assert(values@ =~= Seq::new(count as nat, |i: int| 0i32));
    values
}

impl LowDelayFilterbankQ31 {
    /// A filterbank without history. The kernel holds the cosines of the
    /// transform, row by row.
    pub fn new(frame_length: usize, coefficients: Vec<i32>, dct_iv_kernel: Vec<i32>) -> (result: Result<
        LowDelayFilterbankQ31,
        LdFilterbankError,
    >)
        requires
            frame_length == 480 || frame_length == 512 ==> dct_iv_kernel@.len() == frame_length * frame_length,
        ensures
            if frame_length != 480 && frame_length != 512 {
                result matches Err(error) && error == LdFilterbankError::UnsupportedFrameLength(frame_length)
            } else if coefficients@.len() != 3 * frame_length {
                result matches Err(error) && error == (LdFilterbankError::InvalidCoefficientCount {
                    frame_length,
                    expected: (3 * frame_length) as usize,
                    actual: coefficients@.len() as usize,
                })
            } else {
                result matches Ok(bank) && bank@ == (LowDelayFields {
                    frame_length: frame_length as int,
                    state: Seq::new((2 * frame_length) as nat, |i: int| 0i32),
                    coefficients: coefficients@,
                    kernel: dct_iv_kernel@,
                }) && bank@.valid()
            },
    {
        if frame_length != 480 && frame_length != 512 {
            return Err(LdFilterbankError::UnsupportedFrameLength(frame_length));
        }
        let expected: usize = 3 * frame_length;
        if coefficients.len() != expected {
            return Err(
                LdFilterbankError::InvalidCoefficientCount { frame_length, expected, actual: coefficients.len() },
            );
        }
        Ok(LowDelayFilterbankQ31 { frame_length, state: zeros(2 * frame_length), coefficients, dct_iv_kernel })
    }

    /// The state of the frames before.
    pub fn state(&self) -> (state: &[i32])
        ensures
            state@ == self@.state,
    {
        self.state.as_slice()
    }

    /// Forgets the frames before.
    pub fn clear_history(&mut self)
        requires
            old(self)@.valid(),
        ensures
            final(self)@ == (LowDelayFields {
                state: Seq::new((2 * old(self)@.frame_length) as nat, |i: int| 0i32),
                ..old(self)@
            }),
            final(self)@.valid(),
    {
        self.state = zeros(2 * self.frame_length);
    }

    /// Processes a silent frame.
    pub fn flush(&mut self) -> (result: Result<Vec<i32>, LdFilterbankError>)
        requires
            old(self)@.valid(),
        ensures
            ({
                let silence = Seq::new(old(self)@.frame_length as nat, |i: int| 0i32);
                &&& result matches Ok(samples)
                &&& samples@ == old(self)@.output(silence, 0)
                &&& final(self)@ == (LowDelayFields { state: old(self)@.next_state(silence, 0), ..old(self)@ })
            }),
            final(self)@.valid(),
    {
        let silence: Vec<i32> = zeros(self.frame_length);
        self.process(silence.as_slice())
    }

    /// Processes a spectrum at the usual exponent.
    pub fn process(&mut self, spectrum: &[i32]) -> (result: Result<Vec<i32>, LdFilterbankError>)
        requires
            old(self)@.valid(),
        ensures
            if spectrum@.len() != old(self)@.frame_length {
                result matches Err(error) && error == (LdFilterbankError::SpectrumLengthMismatch {
                    expected: old(self)@.frame_length as usize,
                    actual: spectrum@.len() as usize,
                }) && final(self)@ == old(self)@
            } else {
                result matches Ok(samples) && samples@ == old(self)@.output(spectrum@, 0) && final(self)@ == (
                LowDelayFields { state: old(self)@.next_state(spectrum@, 0), ..old(self)@ })
            },
            final(self)@.valid(),
    {
        self.process_with_exponent(spectrum, 23)
    }

    fn transform(&self, spectrum: &[i32], shift: i32) -> (transformed: Vec<i32>)
        requires
            self@.valid(),
            spectrum@.len() == self@.frame_length,
            -0x1_0000 <= shift <= 0x1_0000,
        ensures
            transformed@.len() == self@.frame_length,
            forall|i: int|
                0 <= i < transformed@.len() ==> #[trigger] transformed@[i] == self@.transformed(
                    spectrum@,
                    shift as int,
                    i,
                ),
    {
        let n: usize = self.frame_length;
        let mut transformed: Vec<i32> = Vec::new();
        let mut index: usize = 0;
        while index < n
            invariant
                self@.valid(),
                n == self@.frame_length,
                n == self.frame_length,
                spectrum@.len() == n,
                -0x1_0000 <= shift <= 0x1_0000,
                index <= n,
                transformed@.len() == index,
                forall|i: int|
                    0 <= i < index ==> #[trigger] transformed@[i] == self@.transformed(spectrum@, shift as int, i),
            decreases n - index,
        {
            proof {
                reveal(LowDelayFields::transformed);
                lemma2_to64();
                assert(0 <= index * n && index * n + n <= n * n) by (nonlinear_arith)
                    requires
                        0 <= index < n,
                ;
                assert(n * n <= 512 * 512) by (nonlinear_arith)
                    requires
                        n <= 512,
                ;
            }
            let sum: i128 = row_product(spectrum, &self.dct_iv_kernel, index * n, n);
            let value: i32 = clamp_i128_to_i32(round_shift_i128(sum, 31));
            transformed.push(scale_by_exponent(value, shift));
            index = index + 1;
        }
        transformed
    }

    /// Processes a spectrum at an exponent.
    pub fn process_with_exponent(&mut self, spectrum: &[i32], spectrum_exponent: i16) -> (result: Result<
        Vec<i32>,
        LdFilterbankError,
    >)
        requires
            old(self)@.valid(),
        ensures
            if spectrum@.len() != old(self)@.frame_length {
                result matches Err(error) && error == (LdFilterbankError::SpectrumLengthMismatch {
                    expected: old(self)@.frame_length as usize,
                    actual: spectrum@.len() as usize,
                }) && final(self)@ == old(self)@
            } else {
                result matches Ok(samples) && samples@ == old(self)@.output(spectrum@, spectrum_exponent - 23)
                    && final(self)@ == (LowDelayFields {
                    state: old(self)@.next_state(spectrum@, spectrum_exponent - 23),
                    ..old(self)@
                })
            },
            final(self)@.valid(),
    {
        assert(spectrum@.len() == spectrum.len());
        if spectrum.len() != self.frame_length {
            return Err(
                LdFilterbankError::SpectrumLengthMismatch { expected: self.frame_length, actual: spectrum.len() },
            );
        }
        let n: usize = self.frame_length;
        let shift: i32 = spectrum_exponent as i32 - 23;
        let ghost start = self@;
        let transformed: Vec<i32> = self.transform(spectrum, shift);
        let quarter: usize = n / 4;
        let half: usize = n / 2;
        let mut output: Vec<i32> = zeros(n);
        let mut i: usize = 0;
        while i < half
            invariant
                start == old(self)@,
                start.valid(),
                n == start.frame_length,
                n == self.frame_length,
                half == n / 2,
                quarter == n / 4,
                i <= half,
                self@.frame_length == start.frame_length,
                self@.coefficients == start.coefficients,
                self@.kernel == start.kernel,
                self.state@.len() == 2 * n,
                output@.len() == n,
                transformed@.len() == n,
                forall|k: int|
                    0 <= k < n ==> #[trigger] transformed@[k] == start.transformed(spectrum@, shift as int, k),
                forall|k: int|
                    0 <= k < i ==> #[trigger] self.state@[k] == start.next_first(spectrum@, shift as int, k),
                forall|k: int| i <= k < half ==> #[trigger] self.state@[k] == start.state[k],
                forall|k: int|
                    half <= k < half + i ==> #[trigger] self.state@[k] == start.next_second(
                        spectrum@,
                        shift as int,
                        k - half,
                    ),
                forall|k: int| half + i <= k < n ==> #[trigger] self.state@[k] == start.state[k],
                forall|k: int|
                    n <= k < n + i ==> #[trigger] self.state@[k] == start.transformed(
                        spectrum@,
                        shift as int,
                        half + k - n,
                    ),
                forall|k: int| n + i <= k < 2 * n ==> #[trigger] self.state@[k] == start.state[k],
                forall|j: int|
                    3 * quarter - i <= j < 3 * quarter ==> #[trigger] output@[j] == start.output_at(
                        spectrum@,
                        shift as int,
                        j,
                    ),
                forall|j: int|
                    0 <= j < i - quarter ==> #[trigger] output@[j] == start.output_at(spectrum@, shift as int, j),
            decreases half - i,
        {
            let z2: i32 = transformed[half + i];
            let before: i32 = self.state[half + i];
            let z0: i32 = add_clamped(z2, multiply(before, &self.coefficients, 2 * n + i, n));
            let later: i32 = self.state[n + i];
            let second: i32 = add_clamped(
                transformed[half - 1 - i],
                multiply(later, &self.coefficients, 2 * n + half + i, n),
            );
            assert(second == start.next_second(spectrum@, shift as int, i as int));
            assert(z0 == start.next_first(spectrum@, shift as int, i as int));
            let first: i32 = self.state[i];
            self.state.set(half + i, second);
            if i >= quarter {
                let sample: i32 = add_clamped(
                    multiply(second, &self.coefficients, half - 1 - i, n),
                    multiply(first, &self.coefficients, half + i, n),
                );
                output.set(i - quarter, sample);
            }
            let sample: i32 = add_clamped(
                multiply(second, &self.coefficients, n + half - 1 - i, n),
                multiply(first, &self.coefficients, n + half + i, n),
            );
            output.set(3 * quarter - 1 - i, sample);
            self.state.set(i, z0);
            self.state.set(n + i, z2);
            i = i + 1;
        }
        let mut i: usize = 0;
        while i < quarter
            invariant
                start.valid(),
                n == start.frame_length,
                n == self.frame_length,
                half == n / 2,
                quarter == n / 4,
                i <= quarter,
                self@.coefficients == start.coefficients,
                self.state@.len() == 2 * n,
                output@.len() == n,
                forall|k: int|
                    0 <= k < half ==> #[trigger] self.state@[k] == start.next_first(spectrum@, shift as int, k),
                forall|j: int|
                    0 <= j < 3 * quarter + i ==> #[trigger] output@[j] == start.output_at(spectrum@, shift as int, j),
            decreases quarter - i,
        {
            let sample: i32 = multiply(self.state[i], &self.coefficients, half + i, n);
            output.set(3 * quarter + i, sample);
            i = i + 1;
        }
        assert(output@ =~= start.output(spectrum@, shift as int));
        assert(self.state@ =~= start.next_state(spectrum@, shift as int));
        Ok(output)
    }
}

// ---------------------------------------------------------------------------
// Silence
// ---------------------------------------------------------------------------

pub proof fn lemma_dot_silence(kernel: Seq<i32>, row: int, count: int, n: nat)
    requires
        count <= n,
    ensures
        dot(Seq::new(n, |i: int| 0i32), kernel, row, count) == 0,
    decreases count,
{
    if count > 0 {
        lemma_dot_silence(kernel, row, count - 1, n);
        let b = kernel[row + count - 1];
        assert(0 * b == 0) by (nonlinear_arith);
    }
}

pub proof fn lemma_rounded_zero(bits: nat)
    ensures
        rounded(0, bits) == 0,
{
    if bits > 0 {
        lemma_pow2_pos((bits - 1) as nat);
        vstd::arithmetic::power2::lemma_pow2_unfold(bits);
        vstd::arithmetic::div_mod::lemma_basic_div(pow2((bits - 1) as nat) as int, pow2(bits) as int);
    }
}

/// A silent frame behind silence gives silence, and leaves no history.
pub proof fn lemma_silence(bank: LowDelayFields, shift: int)
    requires
        bank.valid(),
        bank.state == Seq::new((2 * bank.frame_length) as nat, |i: int| 0i32),
    ensures
        ({
            let silence = Seq::new(bank.frame_length as nat, |i: int| 0i32);
            &&& bank.output(silence, shift) == silence
            &&& bank.next_state(silence, shift) == bank.state
        }),
{
    let n = bank.frame_length;
    let silence = Seq::new(n as nat, |i: int| 0i32);
    reveal(LowDelayFields::transformed);
    reveal(coefficient_product);
    assert forall|i: int| bank.transformed(silence, shift, i) == 0 by {
        lemma_dot_silence(bank.kernel, i * n, n, n as nat);
        lemma_rounded_zero(31);
        lemma_rounded_zero(
            if -shift > 63 {
                63
            } else {
                (-shift) as nat
            },
        );
        let p = pow2(
            if shift > 63 {
                63
            } else {
                shift as nat
            },
        );
        assert(0 * p == 0) by (nonlinear_arith);
    }
    assert forall|index: int| bank.product(0, index) == 0 by {
        let c = bank.coefficients[index];
        assert(0 * c == 0) by (nonlinear_arith);
        lemma_rounded_zero(31);
        lemma_rounded_zero(2);
    }
    assert(bank.output(silence, shift) =~= silence);
    assert(bank.next_state(silence, shift) =~= bank.state);
}

} // verus!
