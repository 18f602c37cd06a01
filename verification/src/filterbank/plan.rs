//! The inverse transform from spectral lines to time samples.

use vstd::prelude::*;

use crate::fixed::{clamp_i64_to_fixp_dbl_fractional, fraction_product, saturated, wide_fraction_product, FixpDbl};

verus! {

/// A transform of `n` lines to `2n` samples, with its kernel row by row.
#[derive(Debug, Clone, PartialEq, Eq)]
pub struct FixedImdctPlan {
    n: usize,
    kernel_q31: Vec<FixpDbl>,
}

/// The model of [`FixedImdctPlan`].
#[verifier::ext_equal]
pub struct PlanFields {
    pub n: int,
    pub kernel: Seq<i32>,
}

impl View for FixedImdctPlan {
    type V = PlanFields;

    closed spec fn view(&self) -> PlanFields {
        PlanFields { n: self.n as int, kernel: self.kernel_q31@ }
    }
}

/// The rounded products of a spectrum with a row of the kernel, the first
/// `count` summed up.
pub open spec fn row_sum(spectrum: Seq<i32>, kernel: Seq<i32>, row: int, count: int) -> int
    decreases count,
{
    if count <= 0 {
        0
    } else {
        row_sum(spectrum, kernel, row, count - 1) + fraction_product(
            kernel[row + count - 1] as int,
            spectrum[count - 1] as int,
        )
    }
}

impl PlanFields {
    /// What every plan keeps.
    pub open spec fn valid(self) -> bool {
        0 <= self.n && self.kernel.len() == 2 * self.n * self.n && self.kernel.len() <= usize::MAX
    }

    /// The samples of a spectrum.
    pub open spec fn samples(self, spectrum: Seq<i32>) -> Seq<i32> {
        Seq::new(
            (2 * self.n) as nat,
            |s: int| saturated(row_sum(spectrum, self.kernel, s * self.n, self.n)) as i32,
        )
    }
}

proof fn lemma_row_sum_bound(spectrum: Seq<i32>, kernel: Seq<i32>, row: int, count: int)
    requires
        0 <= count,
    ensures
        -count * 0x8000_0000 <= row_sum(spectrum, kernel, row, count) <= count * 0x8000_0000,
    decreases count,
{
    if count > 0 {
        lemma_row_sum_bound(spectrum, kernel, row, count - 1);
        let a = kernel[row + count - 1];
        let b = spectrum[count - 1];
        assert(-0x4000_0000_0000_0000 <= a * b <= 0x4000_0000_0000_0000) by (nonlinear_arith)
            requires
                -0x8000_0000 <= a <= 0x7fff_ffff,
                -0x8000_0000 <= b <= 0x7fff_ffff,
        ;
    }
}

/// The number of lines of a kernel that fits in memory.
proof fn lemma_line_limit(n: int)
    requires
        0 <= n,
        2 * n * n <= usize::MAX,
    ensures
        n <= 3_037_000_499,
{
    assert(n <= 3_037_000_499) by (nonlinear_arith)
        requires
            0 <= n,
            2 * n * n <= 0xffff_ffff_ffff_ffff,
    ;
}

impl FixedImdctPlan {
    /// A transform of `n` lines. The kernel holds the factors of each sample's
    /// lines, sample by sample.
    pub fn new(n: usize, kernel_q31: Vec<FixpDbl>) -> (plan: FixedImdctPlan)
        requires
            kernel_q31@.len() == 2 * n * n,
        ensures
            plan@ == (PlanFields { n: n as int, kernel: kernel_q31@ }),
            plan@.valid(),
    {
        assert(kernel_q31@.len() == kernel_q31.len());
        FixedImdctPlan { n, kernel_q31 }
    }

    /// The number of spectral lines.
    pub fn len(&self) -> (n: usize)
        ensures
            n == self@.n,
    {
        self.n
    }

    /// Whether there are no spectral lines.
    pub fn is_empty(&self) -> (empty: bool)
        ensures
            empty == (self@.n == 0),
    {
        self.n == 0
    }

    /// Transforms a spectrum.
    pub fn process_q31(&self, spectrum: &[FixpDbl]) -> (samples: Vec<FixpDbl>)
        requires
            self@.valid(),
            spectrum@.len() == self@.n,
        ensures
            samples@ == self@.samples(spectrum@),
    {
        let n: usize = self.n;
        let mut samples: Vec<FixpDbl> = Vec::new();
        let mut sample: usize = 0;
        let mut row: usize = 0;
        proof {
            lemma_line_limit(n as int);
            assert(0 * n == 0) by (nonlinear_arith);
            assert(2 * n * n == (2 * n) * n) by (nonlinear_arith);
            assert(n > 0 ==> 2 * n <= 2 * n * n) by (nonlinear_arith)
                requires
                    n >= 0,
            ;
        }
        while sample < 2 * n
            invariant
                self@.valid(),
                n == self.n,
                n == self@.n,
                n <= 3_037_000_499,
                2 * n <= usize::MAX,
                spectrum@.len() == n,
                self.kernel_q31@.len() == (2 * n) * n,
                self.kernel_q31@.len() <= usize::MAX,
                sample <= 2 * n,
                row == sample * n,
                samples@.len() == sample,
                forall|s: int|
                    0 <= s < sample ==> #[trigger] samples@[s] == saturated(
                        row_sum(spectrum@, self@.kernel, s * n, n as int),
                    ),
            decreases 2 * n - sample,
        {
            proof {
                assert(sample * n + n <= (2 * n) * n) by (nonlinear_arith)
                    requires
                        0 <= sample < 2 * n,
                ;
                assert((sample + 1) * n == sample * n + n) by (nonlinear_arith);
            }
            let mut sum: i64 = 0;
            let mut index: usize = 0;
            while index < n
                invariant
                    n == self.n,
                    n <= 3_037_000_499,
                    spectrum@.len() == n,
                    row + n <= self.kernel_q31@.len(),
                    self.kernel_q31@.len() <= usize::MAX,
                    index <= n,
                    sum == row_sum(spectrum@, self.kernel_q31@, row as int, index as int),
                decreases n - index,
            {
                proof {
                    lemma_row_sum_bound(spectrum@, self.kernel_q31@, row as int, index as int);
                }
                sum = sum + wide_fraction_product(self.kernel_q31[row + index], spectrum[index]);
                index = index + 1;
            }
            samples.push(clamp_i64_to_fixp_dbl_fractional(sum));
            row = row + n;
            sample = sample + 1;
        }
        assert(samples@ =~= self@.samples(spectrum@));
        samples
    }
}

/// Transforms a spectrum once.
pub fn imdct_planned_q31(spectrum: &[FixpDbl], kernel_q31: Vec<FixpDbl>) -> (samples: Vec<FixpDbl>)
    requires
        kernel_q31@.len() == 2 * spectrum@.len() * spectrum@.len(),
    ensures
        samples@ == (PlanFields { n: spectrum@.len() as int, kernel: kernel_q31@ }).samples(spectrum@),
{
    assert(spectrum@.len() == spectrum.len());
    let plan: FixedImdctPlan = FixedImdctPlan::new(spectrum.len(), kernel_q31);
    plan.process_q31(spectrum)
}

} // verus!
