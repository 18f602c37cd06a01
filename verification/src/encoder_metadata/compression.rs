//! What a compressor is set to: its target levels, the curve of each profile and
//! the order in which it mixes samples down.

use vstd::arithmetic::div_mod::{lemma_fundamental_div_mod, lemma_fundamental_div_mod_converse};
use vstd::prelude::*;

use super::{EncoderMetadata, MetadataDrcProfile};

verus! {

/// The levels that compression works towards, in decibels with sixteen
/// fractional bits.
#[derive(Debug, Clone, Copy, PartialEq, Eq, Structural)]
pub struct ReferenceLevels {
    pub dialnorm_q16: i32,
    pub drc_target_q16: i32,
    pub compression_target_q16: i32,
}

/// The larger of two numbers.
pub open spec fn larger(a: int, b: int) -> int {
    if a >= b {
        a
    } else {
        b
    }
}

/// The lowest targets that a presentation mode allows.
pub open spec fn floors(presentation_mode: u8) -> (int, int) {
    if presentation_mode == 1 {
        (-31 * 0x1_0000, -20 * 0x1_0000)
    } else if presentation_mode == 2 {
        (-23 * 0x1_0000, -23 * 0x1_0000)
    } else {
        (i32::MIN as int, i32::MIN as int)
    }
}

fn at_least(value: i32, floor: i32) -> (result: i32)
    ensures
        result == larger(value as int, floor as int),
{
    if value >= floor {
        value
    } else {
        floor
    }
}

impl EncoderMetadata {
    /// The levels that compression works towards. Without heavy compression, a
    /// presentation mode makes the line level at least the heavy one.
    pub open spec fn levels(&self) -> (int, int, int) {
        let dialnorm = match self.program_reference_level {
            Some(level) => level as int,
            None => -23 * 0x1_0000,
        };
        let line = larger(self.drc_target_reference_level_q16 as int, floors(self.drc_presentation_mode).0);
        let heavy = larger(self.compression_target_reference_level_q16 as int, floors(self.drc_presentation_mode).1);
        if self.compression_profile is NotPresent && self.drc_presentation_mode != 0 {
            (dialnorm, larger(line, heavy), heavy)
        } else {
            (dialnorm, line, heavy)
        }
    }

    /// Finds the levels that compression works towards.
    pub fn reference_levels(&self) -> (levels: ReferenceLevels)
        ensures
            levels.dialnorm_q16 == self.levels().0,
            levels.drc_target_q16 == self.levels().1,
            levels.compression_target_q16 == self.levels().2,
    {
        let dialnorm_q16: i32 = match self.program_reference_level {
            Some(level) => level,
            None => -23 * 0x1_0000,
        };
        let (line_floor, heavy_floor): (i32, i32) = match self.drc_presentation_mode {
            1 => (-31 * 0x1_0000, -20 * 0x1_0000),
            2 => (-23 * 0x1_0000, -23 * 0x1_0000),
            _ => (i32::MIN, i32::MIN),
        };
        let line: i32 = at_least(self.drc_target_reference_level_q16, line_floor);
        let heavy: i32 = at_least(self.compression_target_reference_level_q16, heavy_floor);
        let raised: i32 = match self.compression_profile {
            MetadataDrcProfile::NotPresent => if self.drc_presentation_mode != 0 {
                at_least(line, heavy)
            } else {
                line
            },
            _ => line,
        };
        ReferenceLevels { dialnorm_q16, drc_target_q16: raised, compression_target_q16: heavy }
    }
}

/// The curve of a profile: thresholds and limits in decibels, factors in
/// hundredths, times in milliseconds.
#[derive(Debug, Clone, Copy, PartialEq, Eq, Structural)]
pub struct ProfileParameters {
    pub max_boost_threshold: i16,
    pub boost_threshold: i16,
    pub early_cut_threshold: i16,
    pub cut_threshold: i16,
    pub max_cut_threshold: i16,
    pub boost_factor: i16,
    pub early_cut_factor: i16,
    pub cut_factor: i16,
    pub max_boost: i16,
    pub max_cut: i16,
    pub fast_attack: u16,
    pub fast_decay: u16,
    pub slow_attack: u16,
    pub slow_decay: u16,
    pub hold_off: usize,
    pub attack_threshold: i16,
    pub decay_threshold: i16,
}

/// The curve of standard film sound.
pub open spec fn film_standard() -> ProfileParameters {
    ProfileParameters {
        max_boost_threshold: (-43) as i16,
        boost_threshold: (-31) as i16,
        early_cut_threshold: (-26) as i16,
        cut_threshold: (-16) as i16,
        max_cut_threshold: 4,
        boost_factor: (-50) as i16,
        early_cut_factor: (-50) as i16,
        cut_factor: (-95) as i16,
        max_boost: 6,
        max_cut: 24,
        fast_attack: 10,
        fast_decay: 1000,
        slow_attack: 100,
        slow_decay: 3000,
        hold_off: 10,
        attack_threshold: 15,
        decay_threshold: 20,
    }
}

/// The curve of a profile, as it differs from that of standard film sound.
pub open spec fn curve(profile: MetadataDrcProfile) -> ProfileParameters {
    match profile {
        MetadataDrcProfile::NoProfile | MetadataDrcProfile::NotPresent | MetadataDrcProfile::FilmStandard => film_standard(),
        MetadataDrcProfile::FilmLight => ProfileParameters {
            max_boost_threshold: (-53) as i16,
            boost_threshold: (-41) as i16,
            early_cut_threshold: (-21) as i16,
            cut_threshold: (-11) as i16,
            max_cut_threshold: 9,
            ..film_standard()
        },
        MetadataDrcProfile::MusicStandard => ProfileParameters {
            max_boost_threshold: (-55) as i16,
            max_boost: 12,
            slow_decay: 10000,
            ..film_standard()
        },
        MetadataDrcProfile::MusicLight => ProfileParameters {
            max_boost_threshold: (-65) as i16,
            boost_threshold: (-41) as i16,
            early_cut_threshold: (-21) as i16,
            cut_threshold: (-21) as i16,
            max_cut_threshold: 9,
            early_cut_factor: 0,
            cut_factor: (-50) as i16,
            max_boost: 12,
            max_cut: 15,
            ..film_standard()
        },
        MetadataDrcProfile::Speech => ProfileParameters {
            max_boost_threshold: (-50) as i16,
            boost_factor: (-80) as i16,
            max_boost: 15,
            fast_decay: 200,
            slow_decay: 1000,
            attack_threshold: 10,
            decay_threshold: 10,
            ..film_standard()
        },
    }
}

impl ProfileParameters {
    /// Finds the curve of a profile.
    pub fn for_profile(profile: MetadataDrcProfile) -> (parameters: ProfileParameters)
        ensures
            parameters == curve(profile),
    {
        let mut parameters: ProfileParameters = ProfileParameters {
            max_boost_threshold: -43,
            boost_threshold: -31,
            early_cut_threshold: -26,
            cut_threshold: -16,
            max_cut_threshold: 4,
            boost_factor: -50,
            early_cut_factor: -50,
            cut_factor: -95,
            max_boost: 6,
            max_cut: 24,
            fast_attack: 10,
            fast_decay: 1000,
            slow_attack: 100,
            slow_decay: 3000,
            hold_off: 10,
            attack_threshold: 15,
            decay_threshold: 20,
        };
        match profile {
            MetadataDrcProfile::NoProfile | MetadataDrcProfile::NotPresent | MetadataDrcProfile::FilmStandard => {},
            MetadataDrcProfile::FilmLight => {
                parameters.max_boost_threshold = -53;
                parameters.boost_threshold = -41;
                parameters.early_cut_threshold = -21;
                parameters.cut_threshold = -11;
                parameters.max_cut_threshold = 9;
            },
            MetadataDrcProfile::MusicStandard => {
                parameters.max_boost_threshold = -55;
                parameters.max_boost = 12;
                parameters.slow_decay = 10000;
            },
            MetadataDrcProfile::MusicLight => {
                parameters.max_boost_threshold = -65;
                parameters.boost_threshold = -41;
                parameters.early_cut_threshold = -21;
                parameters.cut_threshold = -21;
                parameters.max_cut_threshold = 9;
                parameters.early_cut_factor = 0;
                parameters.cut_factor = -50;
                parameters.max_boost = 12;
                parameters.max_cut = 15;
            },
            MetadataDrcProfile::Speech => {
                parameters.max_boost_threshold = -50;
                parameters.boost_factor = -80;
                parameters.max_boost = 15;
                parameters.fast_decay = 200;
                parameters.slow_decay = 1000;
                parameters.attack_threshold = 10;
                parameters.decay_threshold = 10;
            },
        }
        parameters
    }

    /// The time constant of a gain that falls or rises, and with a level that
    /// jumps or does not.
    pub fn time_constant(&self, falling: bool, fast: bool) -> (milliseconds: u16)
        ensures
            milliseconds == (if falling && fast {
                self.fast_attack
            } else if falling {
                self.slow_attack
            } else if fast {
                self.fast_decay
            } else {
                self.slow_decay
            }),
    {
        if falling {
            if fast {
                self.fast_attack
            } else {
                self.slow_attack
            }
        } else if fast {
            self.fast_decay
        } else {
            self.slow_decay
        }
    }

    /// The number of frames for which a gain is held.
    pub fn hold_frames(&self, frame_length: usize) -> (frames: usize)
        requires
            frame_length > 0,
            self.hold_off * 256 <= usize::MAX,
        ensures
            frames == self.hold_off * 256 / frame_length as int,
    {
        self.hold_off * 256 / frame_length
    }
}

/// Whether a gain moves on: always when it falls, and otherwise when it is not
/// held.
pub fn gain_moves(hold_count: usize, falling: bool) -> (moves: bool)
    ensures
        moves == (falling || hold_count == 0),
{
    falling || hold_count == 0
}

/// For how many more frames a gain is held: anew where it still falls, one frame
/// less otherwise.
pub open spec fn held_on(hold_count: usize, still_falling: bool, hold_frames: usize) -> usize {
    if still_falling {
        hold_frames
    } else if hold_count > 0 {
        (hold_count - 1) as usize
    } else {
        0
    }
}

/// Counts down the frames for which a gain is held.
pub fn next_hold(hold_count: usize, still_falling: bool, hold_frames: usize) -> (count: usize)
    ensures
        count == held_on(hold_count, still_falling, hold_frames),
{
    if still_falling {
        hold_frames
    } else if hold_count > 0 {
        hold_count - 1
    } else {
        0
    }
}

/// The frames for which a gain is held behind so many frames in which it does not
/// fall.
pub open spec fn held_behind(hold_count: usize, frames: nat, hold_frames: usize) -> usize
    decreases frames,
{
    if frames == 0 {
        hold_count
    } else {
        held_on(held_behind(hold_count, (frames - 1) as nat, hold_frames), false, hold_frames)
    }
}

/// A gain that does not fall is held for as many frames as were set, and no
/// longer.
pub proof fn lemma_hold_ends(hold_count: usize, frames: nat, hold_frames: usize)
    ensures
        held_behind(hold_count, frames, hold_frames) == (if frames < hold_count {
            hold_count - frames
        } else {
            0
        }),
    decreases frames,
{
    if frames > 0 {
        lemma_hold_ends(hold_count, (frames - 1) as nat, hold_frames);
    }
}

/// The thresholds of every curve rise, and at the last of them the cut reaches
/// its limit.
pub proof fn lemma_curves_rise(profile: MetadataDrcProfile)
    ensures
        ({
            let c = curve(profile);
            &&& c.max_boost_threshold < c.boost_threshold < c.early_cut_threshold <= c.cut_threshold < c.max_cut_threshold
            &&& (c.max_cut_threshold - c.cut_threshold) * c.cut_factor + (c.cut_threshold - c.early_cut_threshold)
                * c.early_cut_factor == -100 * c.max_cut
        }),
{
    assert(20 * (-95) + 10 * (-50) == -100 * 24);
    assert(30 * (-50) + 0 * 0 == -100 * 15);
}

/// The place among interleaved samples of the sample at a place among those of
/// one channel behind the other.
pub open spec fn interleaved(planar: int, frame_length: int, channels: int) -> int {
    (planar % frame_length) * channels + planar / frame_length
}

/// Finds a sample of a mono downmix. The sums run over neighbours among the
/// samples of one channel behind the other.
pub fn downmix_index(sample: usize, offset: usize, frame_length: usize, channels: usize) -> (index: usize)
    requires
        sample < frame_length,
        offset < channels,
        frame_length * channels <= usize::MAX,
    ensures
        index == interleaved(sample * channels + offset, frame_length as int, channels as int),
        index < frame_length * channels,
{
    proof {
        assert(sample * channels + offset < frame_length * channels) by (nonlinear_arith)
            requires
                sample < frame_length,
                offset < channels,
        ;
        assert(sample * channels >= 0) by (nonlinear_arith);
    }
    let planar: usize = sample * channels + offset;
    let channel: usize = planar / frame_length;
    let place: usize = planar % frame_length;
    proof {
        lemma_fundamental_div_mod(planar as int, frame_length as int);
        assert(channel < channels) by (nonlinear_arith)
            requires
                planar == frame_length * channel + place,
                planar < frame_length * channels,
                place >= 0,
                frame_length > 0,
        ;
        assert(place * channels + channel < frame_length * channels) by (nonlinear_arith)
            requires
                place < frame_length,
                channel < channels,
        ;
        assert(place * channels >= 0) by (nonlinear_arith);
    }
    place * channels + channel
}

/// Every sample is mixed down once: no two places among the samples of one
/// channel behind the other are the same interleaved sample.
pub proof fn lemma_downmix_covers(first: int, second: int, frame_length: int, channels: int)
    requires
        frame_length > 0,
        channels > 0,
        0 <= first < frame_length * channels,
        0 <= second < frame_length * channels,
        interleaved(first, frame_length, channels) == interleaved(second, frame_length, channels),
    ensures
        first == second,
{
    lemma_interleaved_parts(first, frame_length, channels);
    lemma_interleaved_parts(second, frame_length, channels);
    lemma_fundamental_div_mod(first, frame_length);
    lemma_fundamental_div_mod(second, frame_length);
}

proof fn lemma_interleaved_parts(planar: int, frame_length: int, channels: int)
    requires
        frame_length > 0,
        channels > 0,
        0 <= planar < frame_length * channels,
    ensures
        interleaved(planar, frame_length, channels) % channels == planar / frame_length,
        interleaved(planar, frame_length, channels) / channels == planar % frame_length,
{
    lemma_fundamental_div_mod(planar, frame_length);
    let channel = planar / frame_length;
    let place = planar % frame_length;
    assert(0 <= channel < channels) by (nonlinear_arith)
        requires
            planar == frame_length * channel + place,
            0 <= planar < frame_length * channels,
            0 <= place < frame_length,
    ;
    lemma_fundamental_div_mod_converse(interleaved(planar, frame_length, channels), channels, place, channel);
}

/// At the lowest threshold the boost reaches its limit, but for a fifth of a decibel with
/// speech; every profile falls faster than it recovers, and reacts faster to jumps.
pub proof fn lemma_curves_reach_boost(profile: MetadataDrcProfile)
    ensures
        ({
            let c = curve(profile);
            let boost = (c.max_boost_threshold - c.boost_threshold) * c.boost_factor;
            &&& 100 * c.max_boost <= boost <= 100 * c.max_boost + 20
            &&& !(profile is Speech) ==> boost == 100 * c.max_boost
            &&& c.fast_attack < c.slow_attack < c.slow_decay
            &&& c.fast_attack < c.fast_decay < c.slow_decay
        }),
{
    assert((-12) * (-50) == 600);
    assert((-24) * (-50) == 1200);
    assert((-19) * (-80) == 1520);
}

/// Every target is what was asked for or something higher that a rule asks for: a presentation
/// mode has a lowest line level of -31 or -23 decibels and a lowest heavy level of -20 or -23,
/// and without heavy compression it keeps the line level from lying under the heavy one.
pub proof fn lemma_targets_are_least(metadata: EncoderMetadata, line: int, heavy: int)
    requires
        line >= metadata.drc_target_reference_level_q16,
        heavy >= metadata.compression_target_reference_level_q16,
        metadata.drc_presentation_mode == 1 ==> line >= -31 * 0x1_0000 && heavy >= -20 * 0x1_0000,
        metadata.drc_presentation_mode == 2 ==> line >= -23 * 0x1_0000 && heavy >= -23 * 0x1_0000,
        metadata.drc_presentation_mode != 0 && metadata.compression_profile is NotPresent ==> line >= heavy,
    ensures
        metadata.levels().1 <= line,
        metadata.levels().2 <= heavy,
        metadata.levels().1 >= metadata.drc_target_reference_level_q16,
        metadata.levels().2 >= metadata.compression_target_reference_level_q16,
        metadata.drc_presentation_mode == 1 ==> metadata.levels().1 >= -31 * 0x1_0000 && metadata.levels().2 >= -20
            * 0x1_0000,
        metadata.drc_presentation_mode == 2 ==> metadata.levels().1 >= -23 * 0x1_0000 && metadata.levels().2 >= -23
            * 0x1_0000,
        metadata.drc_presentation_mode != 0 && metadata.compression_profile is NotPresent ==> metadata.levels().1
            >= metadata.levels().2,
{
}

} // verus!
