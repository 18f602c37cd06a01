//! The dimensions of filterbanks and the scaling of time grids.

use vstd::prelude::*;

use crate::ld_sbr::grid::{ControlFields, GridFields};
use crate::ld_sbr::{LdSbrChannelControl, LdSbrGrid};

use super::error::QmfError;

verus! {

/// The dimensions of an analysis bank.
#[derive(Debug, Clone, Copy, PartialEq, Eq, Structural)]
pub struct AnalysisLayout {
    pub channels: usize,
    pub state_length: usize,
    pub filter_stride: usize,
}

/// The dimensions of an analysis bank, or why there is none. Low-delay banks
/// have 32 or 64 bands.
pub fn analysis_layout(channels: usize, low_delay: bool) -> (result: Result<AnalysisLayout, QmfError>)
    ensures
        if channels == 32 || channels == 64 || (!low_delay && (channels == 16 || channels == 24)) {
            result == Ok::<AnalysisLayout, QmfError>(
                AnalysisLayout {
                    channels,
                    state_length: (10 * channels) as usize,
                    filter_stride: if channels == 24 || channels == 64 {
                        5
                    } else if channels == 32 {
                        10
                    } else {
                        20
                    },
                },
            )
        } else {
            result == Err::<AnalysisLayout, QmfError>(QmfError::UnsupportedChannelCount(channels))
        },
{
    let filter_stride: usize = match channels {
        32 => 10,
        64 => 5,
        16 if !low_delay => 20,
        24 if !low_delay => 5,
        _ => return Err(QmfError::UnsupportedChannelCount(channels)),
    };
    Ok(AnalysisLayout { channels, state_length: 10 * channels, filter_stride })
}

/// The dimensions of a synthesis bank.
#[derive(Debug, Clone, Copy, PartialEq, Eq, Structural)]
pub struct SynthesisLayout {
    pub channels: usize,
    pub stride: usize,
    pub state_length: usize,
}

/// The dimensions of a synthesis bank, or why there is none. The plain bank of
/// 32 bands takes every other coefficient.
pub fn synthesis_layout(channels: usize, low_delay: bool) -> (result: Result<SynthesisLayout, QmfError>)
    ensures
        if channels == 32 || channels == 64 {
            result == Ok::<SynthesisLayout, QmfError>(
                SynthesisLayout {
                    channels,
                    stride: if channels == 32 && !low_delay {
                        2
                    } else {
                        1
                    },
                    state_length: (9 * channels) as usize,
                },
            )
        } else {
            result == Err::<SynthesisLayout, QmfError>(QmfError::UnsupportedChannelCount(channels))
        },
{
    if channels != 32 && channels != 64 {
        return Err(QmfError::UnsupportedChannelCount(channels));
    }
    let stride: usize = if channels == 32 && !low_delay {
        2
    } else {
        1
    };
    Ok(SynthesisLayout { channels, stride, state_length: 9 * channels })
}

/// The bands of the analysis bank at a ratio of output to core rate.
pub fn usac_analysis_channels(sbr_ratio_index: u8) -> (result: Result<usize, QmfError>)
    ensures
        result == (if sbr_ratio_index == 1 {
            Ok::<usize, QmfError>(16)
        } else if sbr_ratio_index == 2 {
            Ok(24)
        } else if sbr_ratio_index == 3 {
            Ok(32)
        } else {
            Err(QmfError::InvalidTimeStep(0))
        }),
{
    match sbr_ratio_index {
        1 => Ok(16),
        2 => Ok(24),
        3 => Ok(32),
        _ => Err(QmfError::InvalidTimeStep(0)),
    }
}

/// The number of slots that samples make up.
pub fn slot_count(samples: usize, channels: usize) -> (result: Result<usize, QmfError>)
    requires
        channels > 0,
    ensures
        result == (if samples % channels == 0 {
            Ok::<usize, QmfError>((samples / channels) as usize)
        } else {
            Err(QmfError::InvalidSampleCount(samples))
        }),
{
    if samples % channels != 0 {
        return Err(QmfError::InvalidSampleCount(samples));
    }
    Ok(samples / channels)
}

/// Checks that a slot has as many subbands as a synthesis bank. Without
/// imaginary parts only the real ones count.
pub fn check_subbands(channels: usize, low_power: bool, real_count: usize, imaginary_count: usize) -> (result: Result<
    (),
    QmfError,
>)
    ensures
        ({
            let actual = if low_power || real_count <= imaginary_count {
                real_count
            } else {
                imaginary_count
            };
            result == (if actual < channels {
                Err::<(), QmfError>(QmfError::InvalidSubbandCount { expected: channels, actual })
            } else {
                Ok(())
            })
        }),
{
    let actual: usize = if low_power || real_count <= imaginary_count {
        real_count
    } else {
        imaginary_count
    };
    if actual < channels {
        return Err(QmfError::InvalidSubbandCount { expected: channels, actual });
    }
    Ok(())
}

/// Borders times a step.
pub open spec fn stepped(borders: Seq<u8>, time_step: u8) -> Seq<u8> {
    Seq::new(borders.len(), |i: int| (borders[i] * time_step) as u8)
}

/// A control with its time borders times a step.
pub open spec fn stepped_control(control: ControlFields, time_step: u8) -> ControlFields {
    ControlFields {
        grid: GridFields {
            borders: stepped(control.grid.borders, time_step),
            noise_borders: stepped(control.grid.noise_borders, time_step),
            ..control.grid
        },
        ..control
    }
}

fn step_borders(borders: &Vec<u8>, time_step: u8) -> (scaled: Vec<u8>)
    requires
        forall|i: int| 0 <= i < borders@.len() ==> #[trigger] borders@[i] * time_step <= 255,
    ensures
        scaled@ == stepped(borders@, time_step),
{
    let mut scaled: Vec<u8> = Vec::new();
    while scaled.len() < borders.len()
        invariant
            scaled@.len() <= borders@.len(),
            forall|i: int| 0 <= i < borders@.len() ==> #[trigger] borders@[i] * time_step <= 255,
            forall|i: int| 0 <= i < scaled@.len() ==> #[trigger] scaled@[i] == borders@[i] * time_step,
        decreases borders@.len() - scaled@.len(),
    {
        let border: u8 = borders[scaled.len()];
        assert(border * time_step <= 255);
        assert(border * time_step >= 0) by (nonlinear_arith)
            requires
                border >= 0,
                time_step >= 0,
        ;
        scaled.push(border * time_step);
    }
    assert(scaled@ =~= stepped(borders@, time_step));
    scaled
}

/// Scales the time borders of a control to slots: one, two or four slots for
/// each step.
pub fn scale_control(control: &LdSbrChannelControl, time_step: u8) -> (result: Result<LdSbrChannelControl, QmfError>)
    requires
        time_step == 1 || time_step == 2 || time_step == 4 ==> (forall|i: int|
            0 <= i < control.grid.borders@.len() ==> #[trigger] control.grid.borders@[i] * time_step <= 255) && (forall|
            i: int,
        |
            0 <= i < control.grid.noise_borders@.len() ==> #[trigger] control.grid.noise_borders@[i] * time_step <= 255),
    ensures
        if time_step == 1 || time_step == 2 || time_step == 4 {
            result matches Ok(scaled) && scaled@ == stepped_control(control@, time_step)
        } else {
            result == Err::<LdSbrChannelControl, QmfError>(QmfError::InvalidTimeStep(time_step))
        },
{
    match time_step {
        1 | 2 | 4 => {},
        _ => return Err(QmfError::InvalidTimeStep(time_step)),
    }
    let borders: Vec<u8> = step_borders(&control.grid.borders, time_step);
    let noise_borders: Vec<u8> = step_borders(&control.grid.noise_borders, time_step);
    let copy: LdSbrChannelControl = control.clone();
    Ok(
        LdSbrChannelControl {
            grid: LdSbrGrid {
                transient: copy.grid.transient,
                amp_resolution: copy.grid.amp_resolution,
                borders,
                frequency_resolution: copy.grid.frequency_resolution,
                transient_envelope: copy.grid.transient_envelope,
                noise_borders,
            },
            envelope_time_domain: copy.envelope_time_domain,
            noise_time_domain: copy.noise_time_domain,
        },
    )
}

/// Scaling by one leaves a control as it is.
pub proof fn lemma_step_of_one(control: ControlFields)
    ensures
        stepped_control(control, 1) == control,
{
    assert(stepped(control.grid.borders, 1) =~= control.grid.borders);
    assert(stepped(control.grid.noise_borders, 1) =~= control.grid.noise_borders);
}

/// The slots for each step of a predicted envelope.
pub fn pvc_rate(slots: usize) -> (rate: usize)
    ensures
        rate == if slots < 16 {
            1
        } else {
            slots / 16
        },
        rate >= 1,
{
    if slots < 16 {
        1
    } else {
        slots / 16
    }
}

/// A border of a predicted envelope in slots.
pub open spec fn pvc_border(value: int, rate: int, slots: int) -> int {
    let step = if value < 0 {
        0
    } else {
        value * rate
    };
    if step > slots {
        slots
    } else {
        step
    }
}

/// The borders of predicted envelopes in slots, modulo 256.
pub open spec fn stepped_borders(values: Seq<i8>, rate: int, slots: int) -> Seq<u8> {
    Seq::new(values.len(), |i: int| (pvc_border(values[i] as int, rate, slots) % 256) as u8)
}

/// Scales the borders of predicted envelopes to slots. Those before the frame
/// begin with it, those behind end with it. Borders count modulo 256.
pub fn pvc_borders(values: &[i8], rate: usize, slots: usize) -> (borders: Vec<u8>)
    requires
        127 * rate <= usize::MAX,
    ensures
        borders@ == stepped_borders(values@, rate as int, slots as int),
{
    let mut borders: Vec<u8> = Vec::new();
    assert(values@.len() == values.len());
    while borders.len() < values.len()
        invariant
            borders@.len() <= values@.len(),
            127 * rate <= usize::MAX,
            forall|i: int|
                0 <= i < borders@.len() ==> #[trigger] borders@[i] == stepped_borders(values@, rate as int, slots as int)[i],
        decreases values@.len() - borders@.len(),
    {
        let value: i8 = values[borders.len()];
        let step: usize = if value < 0 {
            0
        } else {
            assert(0 <= value * rate <= 127 * rate) by (nonlinear_arith)
                requires
                    0 <= value <= 127,
                    0 <= rate,
            ;
            value as usize * rate
        };
        let border: usize = if step > slots {
            slots
        } else {
            step
        };
        borders.push((border % 256) as u8);
    }
    assert(borders@ =~= stepped_borders(values@, rate as int, slots as int));
    borders
}

/// Whether the next frame begins with the transient of this one.
pub fn attack_carries_over(grid: &LdSbrGrid) -> (carries: bool)
    ensures
        carries == (grid.transient_envelope == Some(grid.frequency_resolution@.len() as usize)),
{
    assert(grid.frequency_resolution@.len() == grid.frequency_resolution.len());
    match grid.transient_envelope {
        Some(envelope) => envelope == grid.frequency_resolution.len(),
        None => false,
    }
}

/// A border of a predicted envelope lies in the frame, as near as can be to where its steps
/// lead.
pub proof fn lemma_predicted_border_nearest(value: int, rate: int, slots: int, other: int)
    requires
        0 <= rate,
        0 <= other <= slots,
    ensures
        0 <= pvc_border(value, rate, slots) <= slots,
        value * rate <= pvc_border(value, rate, slots) ==> pvc_border(value, rate, slots) <= other || value * rate
            == pvc_border(value, rate, slots),
        value * rate >= pvc_border(value, rate, slots) ==> pvc_border(value, rate, slots) >= other || value * rate
            == pvc_border(value, rate, slots),
{
    assert(value < 0 ==> value * rate <= 0) by (nonlinear_arith)
        requires
            0 <= rate,
    ;
    assert(value >= 0 ==> value * rate >= 0) by (nonlinear_arith)
        requires
            0 <= rate,
    ;
}

} // verus!
