//! What a channel is processed with: its part of a frame, the settings of its
//! header, the grid of predicted envelopes and the segments that are shaped.

use vstd::prelude::*;

use crate::asc::LdSbrHeader;
use crate::ld_sbr::{LdSbrChannelControl, LdSbrChannelValues, LdSbrFrame, LdSbrGrid};
use crate::usac_sbr::InterTesEnvelope;

use super::error::LdSbrProcessingError;
use super::layout::{pvc_borders, stepped_borders};

verus! {

/// The part of a frame that belongs to one channel.
pub struct FrameChannel<'a> {
    pub control: &'a LdSbrChannelControl,
    pub values: &'a LdSbrChannelValues,
    pub harmonics: &'a Vec<bool>,
}

/// Finds the part of a frame that belongs to a channel.
pub fn frame_channel<'a>(frame: &'a LdSbrFrame, right_channel: bool) -> (result: Result<
    FrameChannel<'a>,
    LdSbrProcessingError,
>)
    ensures
        if !right_channel {
            result matches Ok(channel) && *channel.control == frame.prefix.left && *channel.values == frame.left
                && *channel.harmonics == frame.left_harmonics
        } else if frame.prefix.right is Some && frame.right is Some && frame.right_harmonics is Some {
            result matches Ok(channel) && *channel.control == frame.prefix.right->0 && *channel.values == frame.right->0
                && *channel.harmonics == frame.right_harmonics->0
        } else {
            result matches Err(error) && error == LdSbrProcessingError::MissingRightChannel
        },
{
    if !right_channel {
        return Ok(
            FrameChannel { control: &frame.prefix.left, values: &frame.left, harmonics: &frame.left_harmonics },
        );
    }
    match (&frame.prefix.right, &frame.right, &frame.right_harmonics) {
        (Some(control), Some(values), Some(harmonics)) => Ok(FrameChannel { control, values, harmonics }),
        _ => Err(LdSbrProcessingError::MissingRightChannel),
    }
}

/// The settings that a header leaves or gives to a channel.
#[derive(Debug, Clone, Copy, PartialEq, Eq, Structural)]
pub struct ChannelSettings {
    pub limiter_bands: u8,
    pub limiter_gains: u8,
    /// Whether gains glide from slot to slot.
    pub smoothing: bool,
    /// The bits by which envelope energies are scaled down.
    pub energy_shift: u8,
}

/// The settings of a channel. At a single rate energies have fewer bits: six
/// less in low-delay banks, four less in others.
pub open spec fn settings_of(header: LdSbrHeader, dual_rate: bool, low_delay: bool) -> ChannelSettings {
    ChannelSettings {
        limiter_bands: match header.limiter_bands {
            Some(bands) => bands,
            None => 2,
        },
        limiter_gains: match header.limiter_gains {
            Some(gains) => gains,
            None => 2,
        },
        smoothing: header.smoothing_mode == Some(false),
        energy_shift: if dual_rate {
            0
        } else if low_delay {
            6
        } else {
            4
        },
    }
}

/// Finds the settings of a channel.
pub fn channel_settings(header: &LdSbrHeader, dual_rate: bool, low_delay: bool) -> (settings: ChannelSettings)
    ensures
        settings == settings_of(*header, dual_rate, low_delay),
{
    let limiter_bands: u8 = match header.limiter_bands {
        Some(bands) => bands,
        None => 2,
    };
    let limiter_gains: u8 = match header.limiter_gains {
        Some(gains) => gains,
        None => 2,
    };
    let smoothing: bool = match header.smoothing_mode {
        Some(mode) => !mode,
        None => false,
    };
    let energy_shift: u8 = if dual_rate {
        0
    } else if low_delay {
        6
    } else {
        4
    };
    ChannelSettings { limiter_bands, limiter_gains, smoothing, energy_shift }
}

/// The ratio of sampling rates with which an analysis bank of so many bands is
/// made anew, or nothing for a plain bank.
pub fn restart_ratio(analysis_channels: usize) -> (ratio: Option<u8>)
    ensures
        ratio == (if analysis_channels == 16 {
            Some(1u8)
        } else if analysis_channels == 24 {
            Some(2)
        } else {
            None
        }),
{
    match analysis_channels {
        16 => Some(1),
        24 => Some(2),
        _ => None,
    }
}

/// Whether a grid is that of predicted envelopes.
pub open spec fn predicted_grid(
    control: LdSbrChannelControl,
    amp_resolution: bool,
    borders: Seq<i8>,
    noise_borders: Seq<i8>,
    rate: int,
    slots: int,
) -> bool {
    &&& !control.grid.transient
    &&& control.grid.amp_resolution == Some(amp_resolution)
    &&& control.grid.borders@ == stepped_borders(borders, rate, slots)
    &&& control.grid.frequency_resolution@ == Seq::new((borders.len() - 1) as nat, |i: int| true)
    &&& control.grid.transient_envelope is None
    &&& control.grid.noise_borders@ == stepped_borders(noise_borders, rate, slots)
    &&& control.envelope_time_domain@ == Seq::new((borders.len() - 1) as nat, |i: int| false)
    &&& control.noise_time_domain@ == Seq::new((noise_borders.len() - 1) as nat, |i: int| false)
}

fn flags(count: usize, value: bool) -> (list: Vec<bool>)
    ensures
        list@ == Seq::new(count as nat, |i: int| value),
{
    let mut list: Vec<bool> = Vec::new();
    while list.len() < count
        invariant
            list@.len() <= count,
            forall|i: int| 0 <= i < list@.len() ==> #[trigger] list@[i] == value,
        decreases count - list@.len(),
    {
        list.push(value);
    }
    assert(list@ =~= Seq::new(count as nat, |i: int| value));
    list
}

/// Makes the control of a channel with predicted envelopes: every envelope has
/// the fine bands, and none begins with a transient.
pub fn pvc_control(amp_resolution: bool, borders: &[i8], noise_borders: &[i8], rate: usize, slots: usize) -> (control:
    LdSbrChannelControl)
    requires
        127 * rate <= usize::MAX,
        borders@.len() > 0,
        noise_borders@.len() > 0,
    ensures
        predicted_grid(control, amp_resolution, borders@, noise_borders@, rate as int, slots as int),
{
    assert(borders@.len() == borders.len());
    assert(noise_borders@.len() == noise_borders.len());
    LdSbrChannelControl {
        grid: LdSbrGrid {
            transient: false,
            amp_resolution: Some(amp_resolution),
            borders: pvc_borders(borders, rate, slots),
            frequency_resolution: flags(borders.len() - 1, true),
            transient_envelope: None,
            noise_borders: pvc_borders(noise_borders, rate, slots),
        },
        envelope_time_domain: flags(borders.len() - 1, false),
        noise_time_domain: flags(noise_borders.len() - 1, false),
    }
}

/// The slots of an envelope that is shaped, and how.
#[derive(Debug, Clone, Copy, PartialEq, Eq, Structural)]
pub struct ShapedSegment {
    pub start_slot: usize,
    pub stop_slot: usize,
    pub mode: u8,
}

/// The segments of the active envelopes from one on, behind `before`.
pub open spec fn shaped_from(
    borders: Seq<u8>,
    shaping: Seq<InterTesEnvelope>,
    time_step: u8,
    envelope: int,
    before: Seq<ShapedSegment>,
) -> Seq<ShapedSegment>
    decreases shaping.len() - envelope,
{
    if envelope >= shaping.len() {
        before
    } else if shaping[envelope].active {
        shaped_from(
            borders,
            shaping,
            time_step,
            envelope + 1,
            before.push(
                ShapedSegment {
                    start_slot: (borders[envelope] * time_step) as usize,
                    stop_slot: (borders[envelope + 1] * time_step) as usize,
                    mode: shaping[envelope].mode,
                },
            ),
        )
    } else {
        shaped_from(borders, shaping, time_step, envelope + 1, before)
    }
}

/// Lists the slots that are shaped.
pub fn shaped_segments(borders: &[u8], shaping: &[InterTesEnvelope], time_step: u8) -> (segments: Vec<ShapedSegment>)
    requires
        forall|i: int|
            0 <= i < shaping@.len() && (#[trigger] shaping@[i]).active ==> i + 1 < borders@.len() && borders@[i] * time_step
                <= 255 && borders@[i + 1] * time_step <= 255,
    ensures
        segments@ == shaped_from(borders@, shaping@, time_step, 0, Seq::empty()),
{
    let mut segments: Vec<ShapedSegment> = Vec::new();
    let mut envelope: usize = 0;
    assert(shaping@.len() == shaping.len());
    assert(borders@.len() == borders.len());
    while envelope < shaping.len()
        invariant
            envelope <= shaping@.len() == shaping.len(),
            borders@.len() == borders.len(),
            forall|i: int|
                0 <= i < shaping@.len() && (#[trigger] shaping@[i]).active ==> i + 1 < borders@.len() && borders@[i]
                    * time_step <= 255 && borders@[i + 1] * time_step <= 255,
            shaped_from(borders@, shaping@, time_step, 0, Seq::empty()) == shaped_from(
                borders@,
                shaping@,
                time_step,
                envelope as int,
                segments@,
            ),
        decreases shaping@.len() - envelope,
    {
        if shaping[envelope].active {
            assert(shaping@[envelope as int].active);
            let start: u8 = borders[envelope];
            let stop: u8 = borders[envelope + 1];
            assert(start * time_step <= 255);
            assert(stop * time_step <= 255);
            assert(start * time_step >= 0 && stop * time_step >= 0) by (nonlinear_arith)
                requires
                    start >= 0,
                    stop >= 0,
                    time_step >= 0,
            ;
            segments.push(
                ShapedSegment {
                    start_slot: (start * time_step) as usize,
                    stop_slot: (stop * time_step) as usize,
                    mode: shaping[envelope].mode,
                },
            );
        }
        envelope = envelope + 1;
    }
    segments
}

/// The number of active envelopes below an index.
pub open spec fn active_below(shaping: Seq<InterTesEnvelope>, index: int) -> int
    decreases index,
{
    if index <= 0 {
        0
    } else {
        active_below(shaping, index - 1) + if shaping[index - 1].active {
            1int
        } else {
            0
        }
    }
}

proof fn lemma_active_rise(shaping: Seq<InterTesEnvelope>, low: int, high: int)
    requires
        low <= high,
    ensures
        0 <= active_below(shaping, low) <= active_below(shaping, high),
    decreases high, low,
{
    if low < high && high > 0 {
        lemma_active_rise(shaping, low, high - 1);
    } else if low > 0 {
        lemma_active_rise(shaping, low - 1, low);
    }
}

proof fn lemma_shaped_behind(
    borders: Seq<u8>,
    shaping: Seq<InterTesEnvelope>,
    time_step: u8,
    envelope: int,
    before: Seq<ShapedSegment>,
)
    requires
        0 <= envelope <= shaping.len(),
        before.len() == active_below(shaping, envelope),
    ensures
        ({
            let list = shaped_from(borders, shaping, time_step, envelope, before);
            &&& list.len() == active_below(shaping, shaping.len() as int)
            &&& list.len() >= before.len()
            &&& list.take(before.len() as int) == before
            &&& forall|i: int|
                envelope <= i < shaping.len() && (#[trigger] shaping[i]).active ==> {
                    let segment = list[active_below(shaping, i)];
                    &&& segment.start_slot == (borders[i] * time_step) as usize
                    &&& segment.stop_slot == (borders[i + 1] * time_step) as usize
                    &&& segment.mode == shaping[i].mode
                }
        }),
    decreases shaping.len() - envelope,
{
    let list = shaped_from(borders, shaping, time_step, envelope, before);
    if envelope >= shaping.len() {
        assert(list.take(before.len() as int) =~= before);
    } else if shaping[envelope].active {
        let longer = before.push(
            ShapedSegment {
                start_slot: (borders[envelope] * time_step) as usize,
                stop_slot: (borders[envelope + 1] * time_step) as usize,
                mode: shaping[envelope].mode,
            },
        );
        lemma_shaped_behind(borders, shaping, time_step, envelope + 1, longer);
        assert(longer.take(before.len() as int) =~= before);
        assert(list.take(before.len() as int) =~= list.take(longer.len() as int).take(before.len() as int));
        assert(list.take(longer.len() as int)[before.len() as int] == longer[before.len() as int]);
    } else {
        lemma_shaped_behind(borders, shaping, time_step, envelope + 1, before);
    }
}

/// The active envelopes are shaped in their order, each over the slots between its own two
/// borders and in its own mode; the others leave nothing.
pub proof fn lemma_active_envelopes_shaped(
    borders: Seq<u8>,
    shaping: Seq<InterTesEnvelope>,
    time_step: u8,
    envelope: int,
)
    requires
        0 <= envelope < shaping.len(),
        shaping[envelope].active,
        borders[envelope] * time_step <= 255,
        borders[envelope + 1] * time_step <= 255,
    ensures
        ({
            let list = shaped_from(borders, shaping, time_step, 0, Seq::empty());
            let place = active_below(shaping, envelope);
            &&& list.len() == active_below(shaping, shaping.len() as int)
            &&& 0 <= place < list.len()
            &&& list[place].start_slot == borders[envelope] * time_step
            &&& list[place].stop_slot == borders[envelope + 1] * time_step
            &&& list[place].mode == shaping[envelope].mode
        }),
{
    lemma_shaped_behind(borders, shaping, time_step, 0, Seq::empty());
    lemma_active_rise(shaping, 0, envelope);
    lemma_active_rise(shaping, envelope + 1, shaping.len() as int);
    assert(borders[envelope] * time_step >= 0) by (nonlinear_arith)
        requires
            borders[envelope] >= 0,
            time_step >= 0,
    ;
    assert(borders[envelope + 1] * time_step >= 0) by (nonlinear_arith)
        requires
            borders[envelope + 1] >= 0,
            time_step >= 0,
    ;
}

} // verus!
