//! Encoder metadata: loudness and downmix settings, and the payloads that carry
//! them.
pub mod compression;
pub mod laws;

pub use compression::{downmix_index, gain_moves, next_hold, ProfileParameters, ReferenceLevels};

use vstd::prelude::*;

use crate::bits::{bits_of, lemma_two_then, lemma_value_bits_len, padding, value_bits, BitWriter};

verus! {

/// A profile of dynamic range compression.
#[derive(Debug, Clone, Copy, PartialEq, Eq, Structural)]
pub enum MetadataDrcProfile {
    NoProfile,
    FilmStandard,
    FilmLight,
    MusicStandard,
    MusicLight,
    Speech,
    NotPresent,
}

impl Default for MetadataDrcProfile {
    fn default() -> (profile: MetadataDrcProfile)
        ensures
            profile == MetadataDrcProfile::NoProfile,
    {
        MetadataDrcProfile::NoProfile
    }
}

impl MetadataDrcProfile {
    /// The number that stands for this profile.
    pub open spec fn number(self) -> u16 {
        match self {
            MetadataDrcProfile::NoProfile => 0,
            MetadataDrcProfile::FilmStandard => 1,
            MetadataDrcProfile::FilmLight => 2,
            MetadataDrcProfile::MusicStandard => 3,
            MetadataDrcProfile::MusicLight => 4,
            MetadataDrcProfile::Speech => 5,
            MetadataDrcProfile::NotPresent => 256,
        }
    }

    /// The number that stands for this profile.
    pub fn code(self) -> (number: u16)
        ensures
            number == self.number(),
    {
        match self {
            MetadataDrcProfile::NoProfile => 0,
            MetadataDrcProfile::FilmStandard => 1,
            MetadataDrcProfile::FilmLight => 2,
            MetadataDrcProfile::MusicStandard => 3,
            MetadataDrcProfile::MusicLight => 4,
            MetadataDrcProfile::Speech => 5,
            MetadataDrcProfile::NotPresent => 256,
        }
    }
}

/// Downmix settings beyond the basic ones. Gains are in decibels with sixteen
/// fractional bits.
#[derive(Debug, Clone, Copy, PartialEq, Eq, Structural)]
pub struct ExtendedEncoderMetadata {
    pub enabled: bool,
    pub downmix_levels_enabled: bool,
    pub downmix_level_a: u8,
    pub downmix_level_b: u8,
    pub downmix_gains_enabled: bool,
    pub downmix_gain_5_q16: i32,
    pub downmix_gain_2_q16: i32,
    pub lfe_downmix_enabled: bool,
    pub lfe_downmix_level: u8,
}

impl Default for ExtendedEncoderMetadata {
    fn default() -> (extended: ExtendedEncoderMetadata)
        ensures
            extended == (ExtendedEncoderMetadata {
                enabled: false,
                downmix_levels_enabled: false,
                downmix_level_a: 0,
                downmix_level_b: 0,
                downmix_gains_enabled: false,
                downmix_gain_5_q16: 0,
                downmix_gain_2_q16: 0,
                lfe_downmix_enabled: false,
                lfe_downmix_level: 0,
            }),
    {
        ExtendedEncoderMetadata {
            enabled: false,
            downmix_levels_enabled: false,
            downmix_level_a: 0,
            downmix_level_b: 0,
            downmix_gains_enabled: false,
            downmix_gain_5_q16: 0,
            downmix_gain_2_q16: 0,
            lfe_downmix_enabled: false,
            lfe_downmix_level: 0,
        }
    }
}

/// Metadata that an encoder sends along. Levels are in decibels with sixteen
/// fractional bits.
#[derive(Debug, Clone, Copy, PartialEq, Eq, Structural)]
pub struct EncoderMetadata {
    pub drc_profile: MetadataDrcProfile,
    pub compression_profile: MetadataDrcProfile,
    pub drc_target_reference_level_q16: i32,
    pub compression_target_reference_level_q16: i32,
    pub program_reference_level: Option<i32>,
    pub pce_mixdown_index_present: bool,
    pub etsi_downmix_levels_present: bool,
    pub center_mix_level: u8,
    pub surround_mix_level: u8,
    pub dolby_surround_mode: u8,
    pub drc_presentation_mode: u8,
    pub extended: ExtendedEncoderMetadata,
}

impl Default for EncoderMetadata {
    fn default() -> (metadata: EncoderMetadata)
        ensures
            metadata.drc_profile == MetadataDrcProfile::NoProfile,
            metadata.compression_profile == MetadataDrcProfile::NotPresent,
            metadata.drc_target_reference_level_q16 == -31 * 0x1_0000,
            metadata.compression_target_reference_level_q16 == -23 * 0x1_0000,
            metadata.program_reference_level is None,
            !metadata.pce_mixdown_index_present,
            !metadata.etsi_downmix_levels_present,
            metadata.center_mix_level == 0,
            metadata.surround_mix_level == 0,
            metadata.dolby_surround_mode == 0,
            metadata.drc_presentation_mode == 0,
            metadata.extended == (ExtendedEncoderMetadata {
                enabled: false,
                downmix_levels_enabled: false,
                downmix_level_a: 0,
                downmix_level_b: 0,
                downmix_gains_enabled: false,
                downmix_gain_5_q16: 0,
                downmix_gain_2_q16: 0,
                lfe_downmix_enabled: false,
                lfe_downmix_level: 0,
            }),
    {
        EncoderMetadata {
            drc_profile: MetadataDrcProfile::NoProfile,
            compression_profile: MetadataDrcProfile::NotPresent,
            drc_target_reference_level_q16: -31 * 0x1_0000,
            compression_target_reference_level_q16: -23 * 0x1_0000,
            program_reference_level: None,
            pce_mixdown_index_present: false,
            etsi_downmix_levels_present: false,
            center_mix_level: 0,
            surround_mix_level: 0,
            dolby_surround_mode: 0,
            drc_presentation_mode: 0,
            extended: ExtendedEncoderMetadata::default(),
        }
    }
}

// ---------------------------------------------------------------------------
// Gains
// ---------------------------------------------------------------------------

/// A program reference level in quarters of a decibel below full scale.
pub open spec fn program_level(level_q16: int) -> int {
    let quarters = (-level_q16 + 0x2000) / 0x4000;
    if quarters < 0 {
        0
    } else if quarters > 127 {
        127
    } else {
        quarters
    }
}

/// A program reference level in quarters of a decibel below full scale.
pub fn dialnorm_to_program_reference_level(value_q16: i32) -> (level: u8)
    requires
        -value_q16 + 0x2000 <= i32::MAX,
    ensures
        level == program_level(value_q16 as int),
        level <= 127,
{
    let negated: i64 = -(value_q16 as i64) + 0x2000;
    if negated < 0 {
        0
    } else {
        let quarters: i64 = negated / 0x4000;
        if quarters > 127 {
            127
        } else {
            quarters as u8
        }
    }
}

/// The size of a gain in quarters of a decibel, at most 127.
pub open spec fn gain_size(gain_q16: int) -> int {
    let magnitude = if gain_q16 < 0 {
        -gain_q16
    } else {
        gain_q16
    };
    if magnitude > 127 * 0x4000 {
        127
    } else {
        (magnitude + 0x2000) / 0x4000
    }
}

/// The sign of a gain and its size in quarters of a decibel.
pub fn encode_dynamic_range_gain(gain_q16: i32) -> (encoded: (bool, u8))
    ensures
        encoded.0 == (gain_q16 < 0),
        encoded.1 == gain_size(gain_q16 as int),
        encoded.1 <= 127,
{
    let magnitude: i64 = if gain_q16 < 0 {
        -(gain_q16 as i64)
    } else {
        gain_q16 as i64
    };
    if magnitude > 127 * 0x4000 {
        (gain_q16 < 0, 127)
    } else {
        (gain_q16 < 0, ((magnitude + 0x2000) / 0x4000) as u8)
    }
}

/// A compression gain in sixteen steps of fifteen parts, counted down from the
/// largest gain.
pub open spec fn compression_step(gain_q16: int) -> int {
    let position = (3_156_476 - gain_q16) * 15 + 197_283;
    if position < 0 {
        0
    } else {
        let value = position / 394_566;
        if value >= 240 {
            0xff
        } else {
            16 * (value / 15) + value % 15
        }
    }
}

/// Encodes a compression gain.
pub fn encode_compression_gain(gain_q16: i32) -> (code: u8)
    ensures
        code == compression_step(gain_q16 as int),
{
    let position: i64 = (3_156_476 - gain_q16 as i64) * 15 + 197_283;
    if position < 0 {
        return 0;
    }
    let value: i64 = position / 394_566;
    if value >= 240 {
        0xff
    } else {
        (16 * (value / 15) + value % 15) as u8
    }
}

// ---------------------------------------------------------------------------
// Payloads
// ---------------------------------------------------------------------------

/// The program reference level in the stream.
pub open spec fn level_bits(level: Option<i32>) -> Seq<bool> {
    match level {
        Some(value) => value_bits(program_level(value as int) as nat, 7) + seq![false],
        None => Seq::empty(),
    }
}

/// A gain in the stream.
pub open spec fn gain_bits(gain_q16: i32) -> Seq<bool> {
    seq![gain_q16 < 0] + value_bits(gain_size(gain_q16 as int) as nat, 7)
}

/// The downmix levels in the stream.
pub open spec fn downmix_bits(present: bool, center: u8, surround: u8) -> Seq<bool> {
    if present {
        value_bits((0x88 + 16 * (center % 8) + surround % 8) as nat, 8)
    } else {
        Seq::empty()
    }
}

/// The compression gain in the stream.
pub open spec fn compression_bits(gain: Option<i32>) -> Seq<bool> {
    match gain {
        Some(gain) => value_bits(1, 8) + value_bits(compression_step(gain as int) as nat, 8),
        None => Seq::empty(),
    }
}

/// The extended downmix levels in the stream.
pub open spec fn extended_level_bits(extended: ExtendedEncoderMetadata) -> Seq<bool> {
    if extended.downmix_levels_enabled {
        value_bits((extended.downmix_level_a % 8) as nat, 3) + (value_bits((extended.downmix_level_b % 8) as nat, 3)
            + value_bits(0, 2))
    } else {
        Seq::empty()
    }
}

/// A downmix gain in the stream.
pub open spec fn downmix_gain_bits(gain_q16: i32) -> Seq<bool> {
    seq![gain_q16 < 0] + (value_bits(gain_size(gain_q16 as int) as nat, 6) + seq![false])
}

/// The downmix gains in the stream.
pub open spec fn extended_gain_bits(extended: ExtendedEncoderMetadata) -> Seq<bool> {
    if extended.downmix_gains_enabled {
        downmix_gain_bits(extended.downmix_gain_5_q16) + downmix_gain_bits(extended.downmix_gain_2_q16)
    } else {
        Seq::empty()
    }
}

/// The low-frequency downmix level in the stream.
pub open spec fn extended_lfe_bits(extended: ExtendedEncoderMetadata) -> Seq<bool> {
    if extended.lfe_downmix_enabled {
        value_bits((extended.lfe_downmix_level % 16) as nat, 4) + value_bits(0, 4)
    } else {
        Seq::empty()
    }
}

/// What the extended settings begin with in the stream.
pub open spec fn extended_head_bits(extended: ExtendedEncoderMetadata) -> Seq<bool> {
    seq![
        false,
        extended.downmix_levels_enabled,
        extended.downmix_gains_enabled,
        extended.lfe_downmix_enabled,
    ] + value_bits(0, 4)
}

/// The extended settings in the stream.
pub open spec fn extended_bits(extended: ExtendedEncoderMetadata) -> Seq<bool> {
    if extended.enabled {
        extended_head_bits(extended) + (extended_level_bits(extended) + (extended_gain_bits(extended) + extended_lfe_bits(
            extended,
        )))
    } else {
        Seq::empty()
    }
}

impl EncoderMetadata {
    /// The payload of dynamic range control in the stream.
    pub open spec fn dynamic_range_bits(self, gain_q16: i32) -> Seq<bool> {
        seq![false, false, false, self.program_reference_level is Some] + (level_bits(self.program_reference_level)
            + gain_bits(gain_q16))
    }

    /// The compression gain, where the profile has one.
    pub open spec fn sent_compression(self, gain_q16: Option<i32>) -> Option<i32> {
        if self.compression_profile == MetadataDrcProfile::NotPresent {
            None
        } else {
            gain_q16
        }
    }

    /// The marker, the audio type and the modes in the stream.
    pub open spec fn mode_bits(self) -> Seq<bool> {
        value_bits(0xbc, 8) + (value_bits(3, 2) + (value_bits((self.dolby_surround_mode % 4) as nat, 2) + (value_bits(
            (self.drc_presentation_mode % 4) as nat,
            2,
        ) + value_bits(0, 2))))
    }

    /// The flags of what follows in the stream.
    pub open spec fn status_bits(self, compression: Option<i32>) -> Seq<bool> {
        value_bits(0, 3) + (seq![self.etsi_downmix_levels_present, self.extended.enabled, compression is Some]
            + value_bits(0, 2))
    }

    /// The ancillary payload in the stream.
    pub open spec fn ancillary_bits(self, compression_gain_q16: Option<i32>) -> Seq<bool> {
        let compression = self.sent_compression(compression_gain_q16);
        self.mode_bits() + (self.status_bits(compression) + (downmix_bits(
            self.etsi_downmix_levels_present,
            self.center_mix_level,
            self.surround_mix_level,
        ) + (compression_bits(compression) + extended_bits(self.extended))))
    }

    /// Makes the payload of dynamic range control, without its type. Gives the
    /// bytes and the number of bits that count.
    pub fn dynamic_range_payload(&self, gain_q16: i32) -> (payload: (Vec<u8>, usize))
        requires
            self.program_reference_level matches Some(level) ==> -level + 0x2000 <= i32::MAX,
        ensures
            ({
                let bits = self.dynamic_range_bits(gain_q16);
                &&& payload.1 == bits.len()
                &&& bits_of(payload.0@) == bits + padding(bits.len())
                &&& bits.len() == if self.program_reference_level is Some {
                    20nat
                } else {
                    12nat
                }
            }),
    {
        let mut writer: BitWriter = BitWriter::new();
        writer.write_bool(false);
        writer.write_bool(false);
        writer.write_bool(false);
        writer.write_bool(self.program_reference_level.is_some());
        let ghost head = seq![false, false, false, self.program_reference_level is Some];
        assert(writer@ =~= head);
        match self.program_reference_level {
            Some(level) => {
                writer.write(dialnorm_to_program_reference_level(level) as u32, 7);
                writer.write_bool(false);
                proof {
                    lemma_value_bits_len(program_level(level as int) as nat, 7);
                }
            },
            None => {},
        }
        assert(writer@ =~= head + level_bits(self.program_reference_level));
        let ghost before = writer@;
        let (sign, control): (bool, u8) = encode_dynamic_range_gain(gain_q16);
        writer.write_bool(sign);
        writer.write(control as u32, 7);
        proof {
            lemma_value_bits_len(gain_size(gain_q16 as int) as nat, 7);
            assert(writer@ =~= before + gain_bits(gain_q16));
            lemma_two_then(head, level_bits(self.program_reference_level), gain_bits(gain_q16));
        }
        let bits: usize = writer.bits_written();
        (writer.finish(), bits)
    }

    fn write_modes(&self, writer: &mut BitWriter)
        ensures
            final(writer)@ == old(writer)@ + self.mode_bits(),
    {
        writer.write(0xbc, 8);
        writer.write(3, 2);
        writer.write((self.dolby_surround_mode % 4) as u32, 2);
        writer.write((self.drc_presentation_mode % 4) as u32, 2);
        writer.write(0, 2);
        proof {
            let a = value_bits(0xbc, 8);
            let b = value_bits(3, 2);
            let c = value_bits((self.dolby_surround_mode % 4) as nat, 2);
            let d = value_bits((self.drc_presentation_mode % 4) as nat, 2);
            let e = value_bits(0, 2);
            lemma_two_then(old(writer)@ + a + b + c, d, e);
            lemma_two_then(old(writer)@ + a + b, c, d + e);
            lemma_two_then(old(writer)@ + a, b, c + (d + e));
            lemma_two_then(old(writer)@, a, b + (c + (d + e)));
        }
    }

    fn write_status(&self, writer: &mut BitWriter, compressed: bool, Ghost(compression): Ghost<Option<i32>>)
        requires
            compressed == (compression is Some),
        ensures
            final(writer)@ == old(writer)@ + self.status_bits(compression),
    {
        writer.write(0, 3);
        let ghost before = writer@;
        writer.write_bool(self.etsi_downmix_levels_present);
        writer.write_bool(self.extended.enabled);
        writer.write_bool(compressed);
        let ghost flags = seq![self.etsi_downmix_levels_present, self.extended.enabled, compressed];
        assert(writer@ =~= before + flags);
        writer.write(0, 2);
        proof {
            lemma_two_then(before, flags, value_bits(0, 2));
            lemma_two_then(old(writer)@, value_bits(0, 3), flags + value_bits(0, 2));
        }
    }

    /// Makes the ancillary payload. The compression gain is left out where the
    /// profile has none.
    pub fn etsi_ancillary_payload(&self, compression_gain_q16: Option<i32>) -> (payload: Vec<u8>)
        ensures
            bits_of(payload@) == self.ancillary_bits(compression_gain_q16),
    {
        let compression: Option<i32> = match self.compression_profile {
            MetadataDrcProfile::NotPresent => None,
            _ => compression_gain_q16,
        };
        let mut writer: BitWriter = BitWriter::new();
        self.write_modes(&mut writer);
        assert(writer@ =~= self.mode_bits());
        self.write_status(&mut writer, compression.is_some(), Ghost(compression));
        let ghost after_status = writer@;
        if self.etsi_downmix_levels_present {
            let levels: u32 = 0x88 + 16 * (self.center_mix_level % 8) as u32 + (self.surround_mix_level % 8) as u32;
            writer.write(levels, 8);
        }
        let ghost downmix = downmix_bits(
            self.etsi_downmix_levels_present,
            self.center_mix_level,
            self.surround_mix_level,
        );
        assert(writer@ =~= after_status + downmix);
        let ghost after_downmix = writer@;
        match compression {
            Some(gain) => {
                writer.write(1, 8);
                writer.write(encode_compression_gain(gain) as u32, 8);
                proof {
                    lemma_two_then(after_downmix, value_bits(1, 8), value_bits(compression_step(gain as int) as nat, 8));
                }
            },
            None => {},
        }
        assert(writer@ =~= after_downmix + compression_bits(compression));
        write_extended(&mut writer, self.extended);
        proof {
            let sent = compression_bits(compression);
            let extended = extended_bits(self.extended);
            let status = self.status_bits(compression);
            lemma_two_then(after_downmix, sent, extended);
            lemma_two_then(after_status, downmix, sent + extended);
            lemma_two_then(self.mode_bits(), status, downmix + (sent + extended));
            lemma_ancillary_whole_bytes(*self, compression_gain_q16);
            assert(padding(writer@.len()) =~= Seq::<bool>::empty());
            assert(writer@ + padding(writer@.len()) =~= writer@);
        }
        writer.byte_align();
        proof {
            assert(padding(writer@.len()) =~= Seq::<bool>::empty());
            assert(writer@ + padding(writer@.len()) =~= writer@);
        }
        writer.finish()
    }
}

fn write_extended_head(writer: &mut BitWriter, extended: ExtendedEncoderMetadata)
    ensures
        final(writer)@ == old(writer)@ + extended_head_bits(extended),
{
    writer.write_bool(false);
    writer.write_bool(extended.downmix_levels_enabled);
    writer.write_bool(extended.downmix_gains_enabled);
    writer.write_bool(extended.lfe_downmix_enabled);
    let ghost flags = seq![
        false,
        extended.downmix_levels_enabled,
        extended.downmix_gains_enabled,
        extended.lfe_downmix_enabled,
    ];
    assert(writer@ =~= old(writer)@ + flags);
    writer.write(0, 4);
    proof {
        lemma_two_then(old(writer)@, flags, value_bits(0, 4));
    }
}

fn write_downmix_gain(writer: &mut BitWriter, gain_q16: i32)
    ensures
        final(writer)@ == old(writer)@ + downmix_gain_bits(gain_q16),
{
    let (sign, index): (bool, u8) = encode_dynamic_range_gain(gain_q16);
    writer.write_bool(sign);
    assert(writer@ =~= old(writer)@ + seq![sign]);
    writer.write(index as u32, 6);
    let ghost before = writer@;
    writer.write_bool(false);
    assert(writer@ =~= before + seq![false]);
    proof {
        let size = value_bits(gain_size(gain_q16 as int) as nat, 6);
        lemma_two_then(old(writer)@ + seq![sign], size, seq![false]);
        lemma_two_then(old(writer)@, seq![sign], size + seq![false]);
    }
}

fn write_extended(writer: &mut BitWriter, extended: ExtendedEncoderMetadata)
    ensures
        final(writer)@ == old(writer)@ + extended_bits(extended),
{
    if !extended.enabled {
        assert(old(writer)@ + extended_bits(extended) =~= old(writer)@);
        return;
    }
    write_extended_head(writer, extended);
    let ghost after_head = writer@;
    if extended.downmix_levels_enabled {
        writer.write((extended.downmix_level_a % 8) as u32, 3);
        writer.write((extended.downmix_level_b % 8) as u32, 3);
        writer.write(0, 2);
        proof {
            let a = value_bits((extended.downmix_level_a % 8) as nat, 3);
            let b = value_bits((extended.downmix_level_b % 8) as nat, 3);
            lemma_two_then(after_head + a, b, value_bits(0, 2));
            lemma_two_then(after_head, a, b + value_bits(0, 2));
        }
    }
    assert(writer@ =~= after_head + extended_level_bits(extended));
    let ghost after_levels = writer@;
    if extended.downmix_gains_enabled {
        write_downmix_gain(writer, extended.downmix_gain_5_q16);
        write_downmix_gain(writer, extended.downmix_gain_2_q16);
        proof {
            lemma_two_then(
                after_levels,
                downmix_gain_bits(extended.downmix_gain_5_q16),
                downmix_gain_bits(extended.downmix_gain_2_q16),
            );
        }
    }
    assert(writer@ =~= after_levels + extended_gain_bits(extended));
    let ghost after_gains = writer@;
    if extended.lfe_downmix_enabled {
        writer.write((extended.lfe_downmix_level % 16) as u32, 4);
        writer.write(0, 4);
        proof {
            lemma_two_then(
                after_gains,
                value_bits((extended.lfe_downmix_level % 16) as nat, 4),
                value_bits(0, 4),
            );
        }
    }
    assert(writer@ =~= after_gains + extended_lfe_bits(extended));
    proof {
        let head = extended_head_bits(extended);
        let levels = extended_level_bits(extended);
        let gains = extended_gain_bits(extended);
        let lfe = extended_lfe_bits(extended);
        lemma_two_then(old(writer)@ + head + levels, gains, lfe);
        lemma_two_then(old(writer)@ + head, levels, gains + lfe);
        lemma_two_then(old(writer)@, head, levels + (gains + lfe));
    }
}

proof fn lemma_extended_len(extended: ExtendedEncoderMetadata)
    ensures
        extended_bits(extended).len() % 8 == 0,
{
    lemma_value_bits_len(0, 4);
    lemma_value_bits_len(0, 2);
    lemma_value_bits_len((extended.downmix_level_a % 8) as nat, 3);
    lemma_value_bits_len((extended.downmix_level_b % 8) as nat, 3);
    lemma_value_bits_len(gain_size(extended.downmix_gain_5_q16 as int) as nat, 6);
    lemma_value_bits_len(gain_size(extended.downmix_gain_2_q16 as int) as nat, 6);
    lemma_value_bits_len((extended.lfe_downmix_level % 16) as nat, 4);
    assert(extended_level_bits(extended).len() % 8 == 0);
    assert(extended_gain_bits(extended).len() % 8 == 0);
    assert(extended_lfe_bits(extended).len() % 8 == 0);
    assert(extended_head_bits(extended).len() == 8);
}

/// The ancillary payload fills whole bytes.
pub proof fn lemma_ancillary_whole_bytes(metadata: EncoderMetadata, compression_gain_q16: Option<i32>)
    ensures
        metadata.ancillary_bits(compression_gain_q16).len() % 8 == 0,
        metadata.ancillary_bits(compression_gain_q16).len() >= 24,
{
    let compression = metadata.sent_compression(compression_gain_q16);
    lemma_value_bits_len(0xbc, 8);
    lemma_value_bits_len(3, 2);
    lemma_value_bits_len((metadata.dolby_surround_mode % 4) as nat, 2);
    lemma_value_bits_len((metadata.drc_presentation_mode % 4) as nat, 2);
    lemma_value_bits_len(0, 2);
    lemma_value_bits_len(0, 3);
    lemma_value_bits_len(
        (0x88 + 16 * (metadata.center_mix_level % 8) + metadata.surround_mix_level % 8) as nat,
        8,
    );
    lemma_value_bits_len(1, 8);
    match compression {
        Some(gain) => {
            lemma_value_bits_len(compression_step(gain as int) as nat, 8);
        },
        None => {},
    }
    lemma_extended_len(metadata.extended);
    assert(metadata.mode_bits().len() == 16);
    assert(metadata.status_bits(compression).len() == 8);
    assert(compression_bits(compression).len() % 8 == 0);
}

} // verus!
