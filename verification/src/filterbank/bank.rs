//! Overlap-add of windowed blocks.

use vstd::prelude::*;

use crate::fixed::{saturated, saturating_add_dbl, FixpDbl};
use crate::ics::{IcsInfo, WindowSequence, WindowShape};
use crate::inverse::FixedInverseQuantizedSpectrum;

use super::error::FilterbankError;
use super::plan::{row_sum, FixedImdctPlan, PlanFields};
use super::route::{check_long_spectrum, check_short_spectra, frame_route, long_fault, route_of, short_fault, FrameRoute};
use super::window::{
    apply_sine_window_q31, block_switching_window_q31, fixed_levels, window_for_shape_q31, windowed, WindowFields, WindowSet,
};

verus! {

/// A filterbank with the second half of the block before.
#[derive(Debug, Clone, PartialEq, Eq)]
pub struct FixedLongBlockFilterbank {
    frame_len: usize,
    overlap: Vec<FixpDbl>,
    previous_window_shape: WindowShape,
    imdct_plan: FixedImdctPlan,
    short_imdct_plan: Option<FixedImdctPlan>,
    windows: WindowSet<FixpDbl>,
}

/// The model of [`FixedLongBlockFilterbank`].
#[verifier::ext_equal]
pub struct BankFields {
    pub frame_len: int,
    pub overlap: Seq<i32>,
    pub previous_window_shape: WindowShape,
    pub plan: PlanFields,
    pub short_plan: Option<PlanFields>,
    pub windows: WindowFields<i32>,
}

/// The model of an optional transform.
pub open spec fn plan_view(plan: Option<FixedImdctPlan>) -> Option<PlanFields> {
    match plan {
        Some(plan) => Some(plan@),
        None => None,
    }
}

impl View for FixedLongBlockFilterbank {
    type V = BankFields;

    closed spec fn view(&self) -> BankFields {
        BankFields {
            frame_len: self.frame_len as int,
            overlap: self.overlap@,
            previous_window_shape: self.previous_window_shape,
            plan: self.imdct_plan@,
            short_plan: plan_view(self.short_imdct_plan),
            windows: self.windows@,
        }
    }
}

/// Silence of a length.
pub open spec fn silence(len: int) -> Seq<i32> {
    Seq::new(len as nat, |i: int| 0i32)
}

/// The first half of a block over the second half of the one before.
pub open spec fn overlap_added(block: Seq<i32>, overlap: Seq<i32>) -> Seq<i32> {
    Seq::new(overlap.len(), |i: int| saturated(block[i] + overlap[i]) as i32)
}

/// A short block added to a frame at a place.
pub open spec fn placed(frame: Seq<i32>, block: Seq<i32>, offset: int) -> Seq<i32> {
    Seq::new(
        frame.len(),
        |i: int|
            if offset <= i < offset + block.len() {
                saturated(frame[i] + block[i - offset]) as i32
            } else {
                frame[i]
            },
    )
}

/// Whether no sample lies below the symmetric range.
pub open spec fn symmetric(samples: Seq<i32>) -> bool {
    forall|i: int| 0 <= i < samples.len() ==> #[trigger] samples[i] > i32::MIN
}

impl BankFields {
    /// What every filterbank keeps.
    pub open spec fn valid(self) -> bool {
        &&& self.frame_len > 0
        &&& self.frame_len % 2 == 0
        &&& 2 * self.frame_len <= usize::MAX
        &&& self.overlap.len() == self.frame_len
        &&& symmetric(self.overlap)
        &&& self.plan.valid()
        &&& self.plan.n == self.frame_len
        &&& self.windows.fit(self.frame_len)
        &&& (self.frame_len == 1024 ==> (self.short_plan matches Some(plan) && plan.valid() && plan.n == 128))
    }

    /// The filterbank behind a block, with the shape of its window.
    pub open spec fn after(self, block: Seq<i32>, shape: WindowShape) -> BankFields {
        BankFields {
            overlap: block.subrange(self.frame_len, 2 * self.frame_len),
            previous_window_shape: shape,
            ..self
        }
    }

    /// The block of a spectrum in a long window, or why there is none.
    pub open spec fn long_block(self, spectrum: Seq<i32>, sequence: WindowSequence, shape: WindowShape) -> Result<
        Seq<i32>,
        FilterbankError,
    > {
        match long_fault(self.frame_len, spectrum.len() as int, sequence) {
            Some(fault) => Err(fault),
            None => match self.windows.block_window(
                self.frame_len,
                sequence,
                self.previous_window_shape,
                shape,
                fixed_levels(),
            ) {
                Err(error) => Err(error),
                Ok(window) => Ok(windowed(self.plan.samples(spectrum), window)),
            },
        }
    }

    /// The block of a spectrum in a long sine window, or why there is none.
    pub open spec fn sine_block(self, spectrum: Seq<i32>) -> Result<Seq<i32>, FilterbankError> {
        if spectrum.len() != self.frame_len {
            Err(
                FilterbankError::SpectrumLengthMismatch {
                    expected: self.frame_len as usize,
                    actual: spectrum.len() as usize,
                },
            )
        } else {
            Ok(windowed(self.plan.samples(spectrum), self.windows.long.sine))
        }
    }

    /// The block that the first `count` short spectra make up.
    pub open spec fn short_blocks(self, spectra: Seq<Vec<i32>>, window: Seq<i32>, count: int) -> Seq<i32>
        decreases count,
    {
        if count <= 0 {
            silence(2048)
        } else {
            placed(
                self.short_blocks(spectra, window, count - 1),
                windowed(self.short_plan->0.samples(spectra[count - 1]@), window),
                448 + 128 * (count - 1),
            )
        }
    }

    /// The block of eight short spectra, or why there is none.
    pub open spec fn eight_short_block(self, spectra: Seq<Vec<i32>>, shape: WindowShape) -> Result<
        Seq<i32>,
        FilterbankError,
    > {
        match short_fault(self.frame_len, spectra) {
            Some(fault) => Err(fault),
            None => match self.windows.short.window(shape, 256, fixed_levels()) {
                Err(error) => Err(error),
                Ok(window) => Ok(self.short_blocks(spectra, window, 8)),
            },
        }
    }

    /// The block of the spectra of a frame, or why there is none.
    pub open spec fn frame_block(self, spectra: Seq<Vec<i32>>, sequence: WindowSequence, shape: WindowShape) -> Result<
        Seq<i32>,
        FilterbankError,
    > {
        match route_of(sequence, spectra.len() as int) {
            Ok(FrameRoute::Short) => self.eight_short_block(spectra, shape),
            Ok(FrameRoute::Long) => self.long_block(spectra[0]@, sequence, shape),
            Err(error) => Err(error),
        }
    }

    /// Whether an outcome and the filterbank behind it are those of a block.
    pub open spec fn plays(
        self,
        block: Result<Seq<i32>, FilterbankError>,
        shape: WindowShape,
        result: Result<Vec<i32>, FilterbankError>,
        next: BankFields,
    ) -> bool {
        match block {
            Ok(block) => (result matches Ok(samples) && samples@ == overlap_added(block, self.overlap)) && next
                == self.after(block, shape),
            Err(error) => result == Err::<Vec<i32>, FilterbankError>(error) && next == self,
        }
    }
}

fn silent(len: usize) -> (values: Vec<FixpDbl>)
    ensures
        values@ == silence(len as int),
{
    let mut values: Vec<FixpDbl> = Vec::new();
    while values.len() < len
        invariant
            values@.len() <= len,
            forall|i: int| 0 <= i < values@.len() ==> #[trigger] values@[i] == 0,
        decreases len - values@.len(),
    {
        values.push(0);
    }
    assert(values@ =~= silence(len as int));
    values
}

fn place(frame: &mut Vec<FixpDbl>, block: &Vec<FixpDbl>, offset: usize)
    requires
        offset + block@.len() <= old(frame)@.len(),
    ensures
        final(frame)@ == placed(old(frame)@, block@, offset as int),
{
    let ghost expected = placed(frame@, block@, offset as int);
    let mut index: usize = 0;
    assert(frame@.len() == frame.len());
    while index < block.len()
        invariant
            index <= block@.len(),
            offset + block@.len() <= frame@.len() == frame.len(),
            frame@.len() == old(frame)@.len(),
            expected == placed(old(frame)@, block@, offset as int),
            forall|i: int| offset <= i < offset + index ==> #[trigger] frame@[i] == expected[i],
            forall|i: int| 0 <= i < offset || offset + index <= i < frame@.len() ==> #[trigger] frame@[i] == old(frame)@[i],
        decreases block@.len() - index,
    {
        let sum: FixpDbl = saturating_add_dbl(frame[offset + index], block[index]);
        frame.set(offset + index, sum);
        index = index + 1;
    }
    assert(frame@ =~= expected);
}

impl FixedLongBlockFilterbank {
    /// A filterbank without history, with the transforms and windows of its
    /// frame length. Frames of 1024 samples have a transform of short blocks
    /// too.
    pub fn new(
        frame_len: usize,
        imdct_plan: FixedImdctPlan,
        short_imdct_plan: Option<FixedImdctPlan>,
        windows: WindowSet<FixpDbl>,
    ) -> (result: Result<FixedLongBlockFilterbank, FilterbankError>)
        requires
            frame_len > 0 && frame_len % 2 == 0 ==> {
                &&& 2 * frame_len <= usize::MAX
                &&& imdct_plan@.valid()
                &&& imdct_plan@.n == frame_len
                &&& windows@.fit(frame_len as int)
                &&& (frame_len == 1024 ==> (plan_view(short_imdct_plan) matches Some(plan) && plan.valid() && plan.n
                    == 128))
            },
        ensures
            if frame_len == 0 || frame_len % 2 != 0 {
                result == Err::<FixedLongBlockFilterbank, FilterbankError>(FilterbankError::InvalidFrameLength(frame_len))
            } else {
                result matches Ok(bank) && bank@ == (BankFields {
                    frame_len: frame_len as int,
                    overlap: silence(frame_len as int),
                    previous_window_shape: WindowShape::Sine,
                    plan: imdct_plan@,
                    short_plan: plan_view(short_imdct_plan),
                    windows: windows@,
                }) && bank@.valid()
            },
    {
        if frame_len == 0 || frame_len % 2 != 0 {
            return Err(FilterbankError::InvalidFrameLength(frame_len));
        }
        Ok(
            FixedLongBlockFilterbank {
                frame_len,
                overlap: silent(frame_len),
                previous_window_shape: WindowShape::Sine,
                imdct_plan,
                short_imdct_plan,
                windows,
            },
        )
    }

    /// The second half of the block before.
    pub fn overlap(&self) -> (overlap: &[FixpDbl])
        ensures
            overlap@ == self@.overlap,
    {
        self.overlap.as_slice()
    }

    /// The window shape of the block before.
    pub fn previous_window_shape(&self) -> (shape: WindowShape)
        ensures
            shape == self@.previous_window_shape,
    {
        self.previous_window_shape
    }

    /// Forgets the block before.
    pub fn clear_history(&mut self)
        requires
            old(self)@.valid(),
        ensures
            final(self)@ == (BankFields {
                overlap: silence(old(self)@.frame_len),
                previous_window_shape: WindowShape::Sine,
                ..old(self)@
            }),
            final(self)@.valid(),
    {
        self.overlap = silent(self.frame_len);
        self.previous_window_shape = WindowShape::Sine;
    }

    /// Takes what is left of the block before.
    pub fn flush(&mut self) -> (rest: Vec<FixpDbl>)
        requires
            old(self)@.valid(),
        ensures
            rest@ == old(self)@.overlap,
            final(self)@ == (BankFields {
                overlap: silence(old(self)@.frame_len),
                previous_window_shape: WindowShape::Sine,
                ..old(self)@
            }),
            final(self)@.valid(),
    {
        self.previous_window_shape = WindowShape::Sine;
        let mut rest: Vec<FixpDbl> = silent(self.frame_len);
        std::mem::swap(&mut rest, &mut self.overlap);
        rest
    }

    /// Adds a block to the one before and keeps its second half.
    fn play(&mut self, block: &Vec<FixpDbl>, shape: WindowShape) -> (samples: Vec<FixpDbl>)
        requires
            old(self)@.valid(),
            block@.len() == 2 * old(self)@.frame_len,
            symmetric(block@),
        ensures
            samples@ == overlap_added(block@, old(self)@.overlap),
            final(self)@ == old(self)@.after(block@, shape),
            final(self)@.valid(),
    {
        let n: usize = self.frame_len;
        let mut samples: Vec<FixpDbl> = Vec::new();
        let mut tail: Vec<FixpDbl> = Vec::new();
        let ghost start = self@;
        while samples.len() < n
            invariant
                start == self@,
                start.valid(),
                n == self.frame_len,
                n == start.frame_len,
                block@.len() == 2 * n,
                samples@.len() <= n,
                tail@.len() == samples@.len(),
                2 * n <= usize::MAX,
                forall|i: int|
                    0 <= i < samples@.len() ==> #[trigger] samples@[i] == overlap_added(block@, start.overlap)[i],
                forall|i: int| 0 <= i < tail@.len() ==> #[trigger] tail@[i] == block@[n + i],
            decreases n - samples@.len(),
        {
            let i: usize = samples.len();
            samples.push(saturating_add_dbl(block[i], self.overlap[i]));
            tail.push(block[n + i]);
        }
        assert(samples@ =~= overlap_added(block@, start.overlap));
        assert(tail@ =~= block@.subrange(n as int, 2 * n));
        assert(symmetric(tail@));
        self.overlap = tail;
        self.previous_window_shape = shape;
        samples
    }

    /// Synthesizes a long block in a sine window.
    pub fn process_only_long_sine_q31(&mut self, spectrum: &[FixpDbl]) -> (result: Result<Vec<FixpDbl>, FilterbankError>)
        requires
            old(self)@.valid(),
        ensures
            old(self)@.plays(old(self)@.sine_block(spectrum@), WindowShape::Sine, result, final(self)@),
            final(self)@.valid(),
    {
        assert(spectrum@.len() == spectrum.len());
        if spectrum.len() != self.frame_len {
            return Err(
                FilterbankError::SpectrumLengthMismatch { expected: self.frame_len, actual: spectrum.len() },
            );
        }
        let mut block: Vec<FixpDbl> = self.imdct_plan.process_q31(spectrum);
        apply_sine_window_q31(block.as_mut_slice(), self.windows.long.sine.as_slice());
        Ok(self.play(&block, WindowShape::Sine))
    }

    /// Synthesizes a long block.
    pub fn process_long_window_q31(&mut self, spectrum: &[FixpDbl], sequence: WindowSequence, current_shape: WindowShape) -> (
    result: Result<Vec<FixpDbl>, FilterbankError>)
        requires
            old(self)@.valid(),
        ensures
            old(self)@.plays(
                old(self)@.long_block(spectrum@, sequence, current_shape),
                current_shape,
                result,
                final(self)@,
            ),
            final(self)@.valid(),
    {
        assert(spectrum@.len() == spectrum.len());
        match check_long_spectrum(self.frame_len, spectrum.len(), sequence) {
            Ok(()) => {},
            Err(error) => return Err(error),
        }
        let window: Vec<FixpDbl> = match block_switching_window_q31(
            self.frame_len,
            sequence,
            self.previous_window_shape,
            current_shape,
            &self.windows,
        ) {
            Ok(window) => window,
            Err(error) => return Err(error),
        };
        let mut block: Vec<FixpDbl> = self.imdct_plan.process_q31(spectrum);
        apply_sine_window_q31(block.as_mut_slice(), window.as_slice());
        Ok(self.play(&block, current_shape))
    }

    /// Synthesizes eight short blocks.
    pub fn process_eight_short_window_q31(&mut self, spectra: &[Vec<FixpDbl>], current_shape: WindowShape) -> (result: Result<
        Vec<FixpDbl>,
        FilterbankError,
    >)
        requires
            old(self)@.valid(),
        ensures
            old(self)@.plays(
                old(self)@.eight_short_block(spectra@, current_shape),
                current_shape,
                result,
                final(self)@,
            ),
            final(self)@.valid(),
    {
        match check_short_spectra(self.frame_len, spectra) {
            Ok(()) => {},
            Err(error) => return Err(error),
        }
        let window: Vec<FixpDbl> = match window_for_shape_q31(current_shape, 256, &self.windows.short) {
            Ok(window) => window,
            Err(error) => return Err(error),
        };
        let plan: &FixedImdctPlan = match &self.short_imdct_plan {
            Some(plan) => plan,
            None => return Err(FilterbankError::InvalidFrameLength(self.frame_len)),
        };
        let mut frame: Vec<FixpDbl> = silent(2048);
        let mut index: usize = 0;
        while index < 8
            invariant
                index <= 8,
                spectra@.len() == 8,
                forall|i: int| 0 <= i < spectra@.len() ==> #[trigger] spectra@[i]@.len() == 128,
                plan@.valid(),
                plan@.n == 128,
                window@.len() == 256,
                self@.short_plan == Some(plan@),
                frame@.len() == 2048,
                frame@ == self@.short_blocks(spectra@, window@, index as int),
                symmetric(frame@),
            decreases 8 - index,
        {
            let mut block: Vec<FixpDbl> = plan.process_q31(spectra[index].as_slice());
            apply_sine_window_q31(block.as_mut_slice(), window.as_slice());
            place(&mut frame, &block, 448 + 128 * index);
            index = index + 1;
        }
        Ok(self.play(&frame, current_shape))
    }
}

/// Synthesizes a frame from its spectra.
pub fn synthesize_aac_lc_frame_q31(
    spectra: &[Vec<FixpDbl>],
    ics: &IcsInfo,
    filterbank: &mut FixedLongBlockFilterbank,
) -> (result: Result<Vec<FixpDbl>, FilterbankError>)
    requires
        old(filterbank)@.valid(),
    ensures
        old(filterbank)@.plays(
            old(filterbank)@.frame_block(spectra@, ics.window_sequence, ics.window_shape),
            ics.window_shape,
            result,
            final(filterbank)@,
        ),
        final(filterbank)@.valid(),
{
    assert(spectra@.len() == spectra.len());
    match frame_route(ics.window_sequence, spectra.len()) {
        Ok(FrameRoute::Short) => filterbank.process_eight_short_window_q31(spectra, ics.window_shape),
        Ok(FrameRoute::Long) => filterbank.process_long_window_q31(
            spectra[0].as_slice(),
            ics.window_sequence,
            ics.window_shape,
        ),
        Err(error) => Err(error),
    }
}

/// Synthesizes a frame from its inverse quantized spectrum.
pub fn synthesize_aac_lc_frame_from_fixed_inverse_q31(
    spectrum: &FixedInverseQuantizedSpectrum,
    ics: &IcsInfo,
    filterbank: &mut FixedLongBlockFilterbank,
) -> (result: Result<Vec<FixpDbl>, FilterbankError>)
    requires
        old(filterbank)@.valid(),
    ensures
        old(filterbank)@.plays(
            old(filterbank)@.frame_block(spectrum.windows@, ics.window_sequence, ics.window_shape),
            ics.window_shape,
            result,
            final(filterbank)@,
        ),
        final(filterbank)@.valid(),
{
    synthesize_aac_lc_frame_q31(spectrum.windows.as_slice(), ics, filterbank)
}

pub proof fn lemma_row_sum_silence(kernel: Seq<i32>, row: int, count: int, n: int)
    requires
        count <= n,
    ensures
        row_sum(silence(n), kernel, row, count) == 0,
    decreases count,
{
    if count > 0 {
        lemma_row_sum_silence(kernel, row, count - 1, n);
        let factor = kernel[row + count - 1];
        assert(factor * 0 == 0) by (nonlinear_arith);
    }
}

/// A silent spectrum gives a silent block: the samples are what was left of the
/// block before, and nothing is left behind them.
pub proof fn lemma_silent_frame_drains(bank: BankFields, shape: WindowShape)
    requires
        bank.valid(),
        bank.windows.block_window(bank.frame_len, WindowSequence::OnlyLong, bank.previous_window_shape, shape, fixed_levels()) is Ok,
    ensures
        ({
            let block = silence(2 * bank.frame_len);
            &&& bank.long_block(silence(bank.frame_len), WindowSequence::OnlyLong, shape) == Ok::<
                Seq<i32>,
                FilterbankError,
            >(block)
            &&& overlap_added(block, bank.overlap) == bank.overlap
            &&& bank.after(block, shape).overlap == silence(bank.frame_len)
        }),
{
    let n = bank.frame_len;
    let samples = bank.plan.samples(silence(n));
    assert(samples =~= silence(2 * n)) by {
        assert forall|s: int| 0 <= s < 2 * n implies samples[s] == 0 by {
            lemma_row_sum_silence(bank.plan.kernel, s * n, n, n);
        }
    }
    let window = bank.windows.block_window(n, WindowSequence::OnlyLong, bank.previous_window_shape, shape, fixed_levels())->Ok_0;
    assert(windowed(samples, window) =~= silence(2 * n)) by {
        assert forall|i: int| 0 <= i < 2 * n implies windowed(samples, window)[i] == 0 by {
            let factor = window[i];
            assert(0 * factor == 0) by (nonlinear_arith);
        }
    }
    assert(silence(2 * n).subrange(n, 2 * n) =~= silence(n));
    assert(overlap_added(silence(2 * n), bank.overlap) =~= bank.overlap);
}

} // verus!
