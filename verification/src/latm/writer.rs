//! Writers of multiplex elements.

use vstd::prelude::*;

use crate::asc::writing::written_config;
use crate::asc::{AscError, AscFields, AudioSpecificConfig};
use crate::bits::{bits_of, lemma_two_then, padding, value_bits, BitWriter};

use super::error::LatmError;
use super::mux::{config_error, validate_audio_specific_config};
use super::values::{
    latm_value_bits, other_length_bits, payload_length_bits, write_latm_other_data_length, write_latm_value,
    write_packed_prefix, write_payload_length,
};

verus! {

// ---------------------------------------------------------------------------
// The stream of an element
// ---------------------------------------------------------------------------

/// The version in the stream.
pub open spec fn version_bits(version: u8) -> Seq<bool> {
    if version == 0 {
        seq![false]
    } else {
        seq![true] + (seq![false] + latm_value_bits(0xff))
    }
}

/// The time framing, the number of subframes and a single program in the stream.
pub open spec fn counts_bits(subframe_count: u8) -> Seq<bool> {
    seq![true] + (value_bits((subframe_count - 1) as nat, 6) + value_bits(0, 4))
}

/// The settings of a stream: in place, or behind their length.
pub open spec fn stream_config_bits(version: u8, settings: Seq<bool>) -> Seq<bool> {
    if version == 0 {
        settings
    } else {
        latm_value_bits(settings.len()) + settings
    }
}

/// How long frames are, in the stream.
pub open spec fn frame_length_bits(fixed: Option<usize>) -> Seq<bool> {
    match fixed {
        Some(bits) => value_bits(1, 3) + value_bits(bits as nat, 9),
        None => value_bits(0, 3) + value_bits(0xff, 8),
    }
}

/// The number of bits of other data in the stream.
pub open spec fn other_count_bits(version: u8, count: usize) -> Seq<bool> {
    if count == 0 {
        seq![false]
    } else if version == 1 {
        seq![true] + latm_value_bits(count as nat)
    } else {
        seq![true] + other_length_bits(count as nat)
    }
}

/// The check sum in the stream.
pub open spec fn check_sum_bits(sum: Option<u8>) -> Seq<bool> {
    match sum {
        Some(sum) => seq![true] + value_bits(sum as nat, 8),
        None => seq![false],
    }
}

/// The payload of a subframe in the stream.
pub open spec fn payload_bits(fixed: Option<usize>, payload: Seq<u8>) -> Seq<bool> {
    match fixed {
        Some(bits) => bits_of(payload).take(bits as int),
        None => payload_length_bits(payload.len()) + bits_of(payload),
    }
}

/// The payloads of subframes in the stream.
pub open spec fn payloads_bits(fixed: Option<usize>, payloads: Seq<Seq<u8>>) -> Seq<bool>
    decreases payloads.len(),
{
    if payloads.len() == 0 {
        Seq::empty()
    } else {
        payload_bits(fixed, payloads[0]) + payloads_bits(fixed, payloads.skip(1))
    }
}

// ---------------------------------------------------------------------------
// The general writer
// ---------------------------------------------------------------------------

/// A writer that keeps track of when the configuration has to be sent.
///
/// It carries any settings, with either version of the multiplex, with one to
/// four subframes, and repeats the configuration periodically.
#[derive(Debug, Clone, PartialEq, Eq)]
pub struct LatmWriter {
    config: AudioSpecificConfig,
    sbr_signaling_mode: u8,
    audio_mux_version: u8,
    subframe_count: u8,
    header_period: u8,
    frames_since_config: u8,
    config_written: bool,
    crc_check_sum: Option<u8>,
    other_data: Vec<u8>,
    other_data_bits: usize,
    fixed_frame_length_bits: Option<usize>,
}

/// The model of [`LatmWriter`].
#[verifier::ext_equal]
pub struct WriterState {
    pub config: AscFields,
    pub sbr_signaling_mode: u8,
    pub audio_mux_version: u8,
    pub subframe_count: u8,
    pub header_period: u8,
    pub frames_since_config: u8,
    pub config_written: bool,
    pub crc_check_sum: Option<u8>,
    pub other_data: Seq<u8>,
    pub other_data_bits: usize,
    pub fixed_frame_length_bits: Option<usize>,
}

impl View for LatmWriter {
    type V = WriterState;

    closed spec fn view(&self) -> WriterState {
        WriterState {
            config: self.config@,
            sbr_signaling_mode: self.sbr_signaling_mode,
            audio_mux_version: self.audio_mux_version,
            subframe_count: self.subframe_count,
            header_period: self.header_period,
            frames_since_config: self.frames_since_config,
            config_written: self.config_written,
            crc_check_sum: self.crc_check_sum,
            other_data: self.other_data@,
            other_data_bits: self.other_data_bits,
            fixed_frame_length_bits: self.fixed_frame_length_bits,
        }
    }
}

/// Eight times a length, no larger than the largest number.
pub open spec fn available_bits(length: nat) -> usize {
    if length * 8 > usize::MAX {
        usize::MAX
    } else {
        (length * 8) as usize
    }
}

fn bits_available(length: usize) -> (bits: usize)
    ensures
        bits == available_bits(length as nat),
{
    match length.checked_mul(8) {
        Some(bits) => bits,
        None => usize::MAX,
    }
}

impl WriterState {
    /// What every writer keeps.
    pub open spec fn valid(self) -> bool {
        &&& config_error(self.config) is None
        &&& (self.config.extension is Some ==> self.sbr_signaling_mode <= 2)
        &&& self.audio_mux_version <= 1
        &&& 1 <= self.subframe_count <= 4
        &&& self.other_data_bits <= available_bits(self.other_data.len())
        &&& self.other_data_bits <= u32::MAX
        &&& (self.fixed_frame_length_bits matches Some(bits) ==> 1 <= bits <= 0x1ff)
    }

    /// Why a writer cannot be made, where it cannot.
    pub open spec fn creation_error(config: AscFields, version: u8, subframe_count: u8, mode: u8) -> Option<LatmError> {
        match config_error(config) {
            Some(error) => Some(error),
            None => if config.extension is Some && mode > 2 {
                Some(LatmError::Asc(AscError::InvalidSbrSignalingMode(mode)))
            } else if version > 1 {
                Some(LatmError::UnsupportedAudioMuxVersion(version))
            } else if !(1 <= subframe_count <= 4) {
                Some(LatmError::InvalidSubframeCount(subframe_count))
            } else {
                None
            },
        }
    }

    /// The state of a new writer.
    pub open spec fn fresh(config: AscFields, version: u8, subframe_count: u8, header_period: u8, mode: u8) -> WriterState {
        WriterState {
            config,
            sbr_signaling_mode: mode,
            audio_mux_version: version,
            subframe_count,
            header_period,
            frames_since_config: 0,
            config_written: false,
            crc_check_sum: None,
            other_data: Seq::empty(),
            other_data_bits: 0,
            fixed_frame_length_bits: None,
        }
    }

    /// Whether the next element carries the configuration.
    pub open spec fn repeats_config(self) -> bool {
        !self.config_written || (self.header_period != 0 && self.frames_since_config >= self.header_period)
    }

    /// The configuration in the stream, around the settings.
    pub open spec fn mux_bits(self, settings: Seq<bool>) -> Seq<bool> {
        version_bits(self.audio_mux_version) + (counts_bits(self.subframe_count) + (value_bits(0, 3) + (stream_config_bits(
            self.audio_mux_version,
            settings,
        ) + (frame_length_bits(self.fixed_frame_length_bits) + (other_count_bits(
            self.audio_mux_version,
            self.other_data_bits,
        ) + check_sum_bits(self.crc_check_sum))))))
    }

    /// Why payloads cannot be written, where they cannot.
    pub open spec fn payload_error(self, payloads: Seq<Seq<u8>>) -> Option<LatmError> {
        if payloads.len() != self.subframe_count {
            Some(
                LatmError::PayloadCountMismatch {
                    expected: self.subframe_count as usize,
                    actual: payloads.len() as usize,
                },
            )
        } else {
            match self.fixed_frame_length_bits {
                Some(bits) => short_payload_error(bits, payloads),
                None => None,
            }
        }
    }

    /// The next element in the stream, or why there is none.
    pub open spec fn element_bits(self, payloads: Seq<Seq<u8>>) -> Result<Seq<bool>, LatmError> {
        match self.payload_error(payloads) {
            Some(error) => Err(error),
            None => {
                let body = payloads_bits(self.fixed_frame_length_bits, payloads) + bits_of(self.other_data).take(
                    self.other_data_bits as int,
                );
                if self.repeats_config() {
                    match written_config(self.config, self.sbr_signaling_mode) {
                        Err(error) => Err(LatmError::Asc(error)),
                        Ok(settings) => Ok(seq![false] + (self.mux_bits(settings) + body)),
                    }
                } else {
                    Ok(seq![true] + body)
                }
            },
        }
    }

    /// The state behind an element that was written.
    pub open spec fn after_element(self) -> WriterState {
        let since = if self.repeats_config() {
            0
        } else {
            self.frames_since_config
        };
        WriterState {
            config_written: true,
            frames_since_config: if since < u8::MAX {
                (since + 1) as u8
            } else {
                u8::MAX
            },
            ..self
        }
    }
}

/// The error for the first payload that is shorter than a fixed length.
pub open spec fn short_payload_error(bits: usize, payloads: Seq<Seq<u8>>) -> Option<LatmError>
    decreases payloads.len(),
{
    if payloads.len() == 0 {
        None
    } else if bits > available_bits(payloads[0].len()) {
        Some(LatmError::InvalidPayloadBitLength { bits, available_bits: available_bits(payloads[0].len()) })
    } else {
        short_payload_error(bits, payloads.skip(1))
    }
}

/// The bytes of payloads.
pub open spec fn byte_views(payloads: Seq<Vec<u8>>) -> Seq<Seq<u8>> {
    payloads.map_values(|payload: Vec<u8>| payload@)
}

fn first_short_payload(bits: usize, payloads: &[Vec<u8>]) -> (error: Option<LatmError>)
    ensures
        error == short_payload_error(bits, byte_views(payloads@)),
        error is None ==> forall|i: int| 0 <= i < payloads@.len() ==> bits <= #[trigger] payloads@[i]@.len() * 8,
{
    let mut index: usize = 0;
    assert(byte_views(payloads@).skip(0) =~= byte_views(payloads@));
    while index < payloads.len()
        invariant
            index <= payloads@.len(),
            short_payload_error(bits, byte_views(payloads@)) == short_payload_error(
                bits,
                byte_views(payloads@).skip(index as int),
            ),
            forall|i: int| 0 <= i < index ==> bits <= #[trigger] payloads@[i]@.len() * 8,
        decreases payloads@.len() - index,
    {
        let ghost rest = byte_views(payloads@).skip(index as int);
        assert(rest[0] == payloads@[index as int]@);
        assert(rest.skip(1) =~= byte_views(payloads@).skip(index + 1));
        let available: usize = bits_available(payloads[index].len());
        if bits > available {
            return Some(LatmError::InvalidPayloadBitLength { bits, available_bits: available });
        }
        index = index + 1;
    }
    None
}

fn write_payload(writer: &mut BitWriter, fixed: Option<usize>, payload: &Vec<u8>)
    requires
        fixed matches Some(bits) ==> bits <= payload@.len() * 8,
    ensures
        final(writer)@ == old(writer)@ + payload_bits(fixed, payload@),
{
    match fixed {
        Some(bits) => write_packed_prefix(writer, payload.as_slice(), bits),
        None => {
            write_payload_length(writer, payload.len());
            writer.write_bytes(payload.as_slice());
            proof {
                lemma_two_then(old(writer)@, payload_length_bits(payload@.len()), bits_of(payload@));
            }
        },
    }
}

fn write_payloads(writer: &mut BitWriter, fixed: Option<usize>, payloads: &[Vec<u8>])
    requires
        fixed matches Some(bits) ==> forall|i: int| 0 <= i < payloads@.len() ==> bits <= #[trigger] payloads@[i]@.len() * 8,
    ensures
        final(writer)@ == old(writer)@ + payloads_bits(fixed, byte_views(payloads@)),
{
    let mut index: usize = 0;
    assert(byte_views(payloads@).skip(0) =~= byte_views(payloads@));
    while index < payloads.len()
        invariant
            index <= payloads@.len(),
            fixed matches Some(bits) ==> forall|i: int|
                0 <= i < payloads@.len() ==> bits <= #[trigger] payloads@[i]@.len() * 8,
            writer@ + payloads_bits(fixed, byte_views(payloads@).skip(index as int)) == old(writer)@ + payloads_bits(
                fixed,
                byte_views(payloads@),
            ),
        decreases payloads@.len() - index,
    {
        let ghost rest = byte_views(payloads@).skip(index as int);
        let ghost before = writer@;
        assert(rest[0] == payloads@[index as int]@);
        assert(rest.skip(1) =~= byte_views(payloads@).skip(index + 1));
        write_payload(writer, fixed, &payloads[index]);
        proof {
            lemma_two_then(before, payload_bits(fixed, rest[0]), payloads_bits(fixed, rest.skip(1)));
        }
        index = index + 1;
    }
    assert(writer@ + payloads_bits(fixed, byte_views(payloads@).skip(index as int)) =~= writer@);
}

fn write_version(writer: &mut BitWriter, version: u8)
    ensures
        final(writer)@ == old(writer)@ + version_bits(version),
{
    writer.write_bool(version != 0);
    assert(writer@ =~= old(writer)@ + seq![version != 0]);
    if version != 0 {
        let ghost before = writer@;
        writer.write_bool(false);
        assert(writer@ =~= before + seq![false]);
        write_latm_value(writer, 0xff);
        proof {
            lemma_two_then(before, seq![false], latm_value_bits(0xff));
            lemma_two_then(old(writer)@, seq![true], seq![false] + latm_value_bits(0xff));
        }
    }
}

fn write_counts(writer: &mut BitWriter, subframe_count: u8)
    requires
        1 <= subframe_count,
    ensures
        final(writer)@ == old(writer)@ + counts_bits(subframe_count),
{
    writer.write_bool(true);
    assert(writer@ =~= old(writer)@ + seq![true]);
    writer.write(subframe_count as u32 - 1, 6);
    writer.write(0, 4);
    proof {
        let subframes = value_bits((subframe_count - 1) as nat, 6);
        lemma_two_then(old(writer)@ + seq![true], subframes, value_bits(0, 4));
        lemma_two_then(old(writer)@, seq![true], subframes + value_bits(0, 4));
    }
}

fn write_frame_length(writer: &mut BitWriter, fixed: Option<usize>)
    requires
        fixed matches Some(bits) ==> bits <= 0x1ff,
    ensures
        final(writer)@ == old(writer)@ + frame_length_bits(fixed),
{
    match fixed {
        Some(bits) => {
            writer.write(1, 3);
            writer.write(bits as u32, 9);
            proof {
                lemma_two_then(old(writer)@, value_bits(1, 3), value_bits(bits as nat, 9));
            }
        },
        None => {
            writer.write(0, 3);
            writer.write(0xff, 8);
            proof {
                lemma_two_then(old(writer)@, value_bits(0, 3), value_bits(0xff, 8));
            }
        },
    }
}

fn write_other_count(writer: &mut BitWriter, version: u8, count: usize)
    requires
        count <= u32::MAX,
    ensures
        final(writer)@ == old(writer)@ + other_count_bits(version, count),
{
    writer.write_bool(count != 0);
    assert(writer@ =~= old(writer)@ + seq![count != 0]);
    if count != 0 {
        if version == 1 {
            write_latm_value(writer, count as u32);
        } else {
            write_latm_other_data_length(writer, count as u32);
        }
        proof {
            lemma_two_then(old(writer)@, seq![true], latm_value_bits(count as nat));
            lemma_two_then(old(writer)@, seq![true], other_length_bits(count as nat));
        }
    }
}

fn write_check_sum(writer: &mut BitWriter, sum: Option<u8>)
    ensures
        final(writer)@ == old(writer)@ + check_sum_bits(sum),
{
    writer.write_bool(sum.is_some());
    assert(writer@ =~= old(writer)@ + seq![sum is Some]);
    match sum {
        Some(value) => {
            writer.write(value as u32, 8);
            proof {
                lemma_two_then(old(writer)@, seq![true], value_bits(value as nat, 8));
            }
        },
        None => {},
    }
}

proof fn lemma_joined_parts(
    start: Seq<bool>,
    a: Seq<bool>,
    b: Seq<bool>,
    c: Seq<bool>,
    d: Seq<bool>,
    e: Seq<bool>,
    f: Seq<bool>,
    g: Seq<bool>,
)
    ensures
        start + a + b + c + d + e + f + g == start + (a + (b + (c + (d + (e + (f + g)))))),
{
    lemma_two_then(start + a + b + c + d + e, f, g);
    lemma_two_then(start + a + b + c + d, e, f + g);
    lemma_two_then(start + a + b + c, d, e + (f + g));
    lemma_two_then(start + a + b, c, d + (e + (f + g)));
    lemma_two_then(start + a, b, c + (d + (e + (f + g))));
    lemma_two_then(start, a, b + (c + (d + (e + (f + g)))));
}

impl LatmWriter {
    /// A writer that nests an extension in the settings.
    pub fn new(config: AudioSpecificConfig, audio_mux_version: u8, subframe_count: u8, header_period: u8) -> (result: Result<
        LatmWriter,
        LatmError,
    >)
        ensures
            match WriterState::creation_error(config@, audio_mux_version, subframe_count, 2) {
                Some(error) => result == Err::<LatmWriter, LatmError>(error),
                None => result matches Ok(writer) && writer@ == WriterState::fresh(
                    config@,
                    audio_mux_version,
                    subframe_count,
                    header_period,
                    2,
                ) && writer@.valid(),
            },
    {
        LatmWriter::new_with_sbr_signaling(config, audio_mux_version, subframe_count, header_period, 2)
    }

    /// A writer that announces an extension of the settings in the given way.
    pub fn new_with_sbr_signaling(
        config: AudioSpecificConfig,
        audio_mux_version: u8,
        subframe_count: u8,
        header_period: u8,
        sbr_signaling_mode: u8,
    ) -> (result: Result<LatmWriter, LatmError>)
        ensures
            match WriterState::creation_error(config@, audio_mux_version, subframe_count, sbr_signaling_mode) {
                Some(error) => result == Err::<LatmWriter, LatmError>(error),
                None => result matches Ok(writer) && writer@ == WriterState::fresh(
                    config@,
                    audio_mux_version,
                    subframe_count,
                    header_period,
                    sbr_signaling_mode,
                ) && writer@.valid(),
            },
    {
        match validate_audio_specific_config(&config) {
            Ok(()) => {},
            Err(error) => return Err(error),
        }
        if config.extension.is_some() && sbr_signaling_mode > 2 {
            return Err(LatmError::Asc(AscError::InvalidSbrSignalingMode(sbr_signaling_mode)));
        }
        if audio_mux_version > 1 {
            return Err(LatmError::UnsupportedAudioMuxVersion(audio_mux_version));
        }
        if subframe_count < 1 || subframe_count > 4 {
            return Err(LatmError::InvalidSubframeCount(subframe_count));
        }
        Ok(
            LatmWriter {
                config,
                sbr_signaling_mode,
                audio_mux_version,
                subframe_count,
                header_period,
                frames_since_config: 0,
                config_written: false,
                crc_check_sum: None,
                other_data: Vec::new(),
                other_data_bits: 0,
                fixed_frame_length_bits: None,
            },
        )
    }

    /// Sets the check sum that the configuration carries. A change has the
    /// configuration sent again.
    pub fn set_crc_check_sum(&mut self, crc_check_sum: Option<u8>)
        requires
            old(self)@.valid(),
        ensures
            final(self)@ == (WriterState {
                crc_check_sum,
                config_written: old(self)@.config_written && old(self)@.crc_check_sum == crc_check_sum,
                ..old(self)@
            }),
            final(self)@.valid(),
    {
        let same: bool = match (self.crc_check_sum, crc_check_sum) {
            (Some(before), Some(after)) => before == after,
            (None, None) => true,
            _ => false,
        };
        if !same {
            self.crc_check_sum = crc_check_sum;
            self.config_written = false;
        }
    }

    /// Sets the bits that follow the payloads of each element. A change of their
    /// number has the configuration sent again.
    pub fn set_other_data(&mut self, data: Vec<u8>, bits: usize) -> (result: Result<(), LatmError>)
        requires
            old(self)@.valid(),
        ensures
            final(self)@.valid(),
            if bits > available_bits(data@.len()) {
                final(self)@ == old(self)@ && result == Err::<(), LatmError>(
                    LatmError::InvalidOtherDataLength { bits, available_bits: available_bits(data@.len()) },
                )
            } else if bits > u32::MAX {
                final(self)@ == old(self)@ && result == Err::<(), LatmError>(LatmError::OtherDataTooLarge)
            } else {
                result is Ok && final(self)@ == (WriterState {
                    other_data: data@,
                    other_data_bits: bits,
                    config_written: old(self)@.config_written && old(self)@.other_data_bits == bits,
                    ..old(self)@
                })
            },
    {
        let available: usize = bits_available(data.len());
        if bits > available {
            return Err(LatmError::InvalidOtherDataLength { bits, available_bits: available });
        }
        if bits as u64 > u32::MAX as u64 {
            return Err(LatmError::OtherDataTooLarge);
        }
        if self.other_data_bits != bits {
            self.config_written = false;
        }
        self.other_data = data;
        self.other_data_bits = bits;
        Ok(())
    }

    /// Sets the number of bits that each payload has, or lets each payload tell
    /// its length. A change has the configuration sent again.
    pub fn set_fixed_frame_length_bits(&mut self, bits: Option<usize>) -> (result: Result<(), LatmError>)
        requires
            old(self)@.valid(),
        ensures
            final(self)@.valid(),
            match bits {
                Some(count) if count == 0 || count > 0x1ff => final(self)@ == old(self)@ && result == Err::<
                    (),
                    LatmError,
                >(LatmError::InvalidFixedFrameLength(count)),
                _ => result is Ok && final(self)@ == (WriterState {
                    fixed_frame_length_bits: bits,
                    config_written: old(self)@.config_written && old(self)@.fixed_frame_length_bits == bits,
                    ..old(self)@
                }),
            },
    {
        match bits {
            Some(count) => {
                if count == 0 || count > 0x1ff {
                    return Err(LatmError::InvalidFixedFrameLength(count));
                }
            },
            None => {},
        }
        let same: bool = match (self.fixed_frame_length_bits, bits) {
            (Some(before), Some(after)) => before == after,
            (None, None) => true,
            _ => false,
        };
        if !same {
            self.fixed_frame_length_bits = bits;
            self.config_written = false;
        }
        Ok(())
    }

    fn write_stream_mux_config(&self, writer: &mut BitWriter) -> (result: Result<(), LatmError>)
        requires
            self@.valid(),
        ensures
            match written_config(self@.config, self@.sbr_signaling_mode) {
                Ok(settings) => result is Ok && final(writer)@ == old(writer)@ + self@.mux_bits(settings),
                Err(error) => result == Err::<(), LatmError>(LatmError::Asc(error)),
            },
    {
        write_version(writer, self.audio_mux_version);
        write_counts(writer, self.subframe_count);
        writer.write(0, 3);
        let (bytes, bits): (Vec<u8>, usize) = match self.config.to_bytes_with_sbr_signaling(self.sbr_signaling_mode) {
            Ok(written) => written,
            Err(error) => return Err(LatmError::Asc(error)),
        };
        let ghost settings = written_config(self@.config, self@.sbr_signaling_mode)->Ok_0;
        let ghost before = writer@;
        assert(bits_of(bytes@).len() == bytes@.len() * 8);
        assert(bits_of(bytes@).take(bits as int) =~= settings);
        if self.audio_mux_version != 0 {
            write_latm_value(writer, bits as u32);
        }
        write_packed_prefix(writer, bytes.as_slice(), bits);
        proof {
            lemma_two_then(before, latm_value_bits(settings.len()), settings);
            assert(writer@ == before + stream_config_bits(self@.audio_mux_version, settings));
        }
        write_frame_length(writer, self.fixed_frame_length_bits);
        write_other_count(writer, self.audio_mux_version, self.other_data_bits);
        write_check_sum(writer, self.crc_check_sum);
        proof {
            lemma_joined_parts(
                old(writer)@,
                version_bits(self@.audio_mux_version),
                counts_bits(self@.subframe_count),
                value_bits(0, 3),
                stream_config_bits(self@.audio_mux_version, settings),
                frame_length_bits(self@.fixed_frame_length_bits),
                other_count_bits(self@.audio_mux_version, self@.other_data_bits),
                check_sum_bits(self@.crc_check_sum),
            );
        }
        Ok(())
    }

    /// Writes the next element, with one payload for each subframe.
    pub fn write_audio_mux_element(&mut self, payloads: &[Vec<u8>]) -> (result: Result<Vec<u8>, LatmError>)
        requires
            old(self)@.valid(),
        ensures
            final(self)@.valid(),
            match old(self)@.element_bits(byte_views(payloads@)) {
                Ok(bits) => (result matches Ok(bytes) && bits_of(bytes@) == bits + padding(bits.len())) && final(self)@
                    == old(self)@.after_element(),
                Err(error) => result == Err::<Vec<u8>, LatmError>(error) && final(self)@ == old(self)@,
            },
    {
        assert(payloads@.len() == payloads.len());
        if payloads.len() != self.subframe_count as usize {
            return Err(
                LatmError::PayloadCountMismatch { expected: self.subframe_count as usize, actual: payloads.len() },
            );
        }
        match self.fixed_frame_length_bits {
            Some(bits) => match first_short_payload(bits, payloads) {
                Some(error) => return Err(error),
                None => {},
            },
            None => {},
        }
        let repeat_config: bool = !self.config_written || (self.header_period != 0 && self.frames_since_config
            >= self.header_period);
        let mut writer: BitWriter = BitWriter::new();
        writer.write_bool(!repeat_config);
        assert(writer@ =~= seq![!repeat_config]);
        if repeat_config {
            match self.write_stream_mux_config(&mut writer) {
                Ok(()) => {},
                Err(error) => return Err(error),
            }
            self.config_written = true;
            self.frames_since_config = 0;
        }
        let ghost head = writer@;
        write_payloads(&mut writer, self.fixed_frame_length_bits, payloads);
        write_packed_prefix(&mut writer, self.other_data.as_slice(), self.other_data_bits);
        proof {
            let sent = payloads_bits(self@.fixed_frame_length_bits, byte_views(payloads@));
            let other = bits_of(self@.other_data).take(self@.other_data_bits as int);
            lemma_two_then(head, sent, other);
            if repeat_config {
                let settings = written_config(old(self)@.config, old(self)@.sbr_signaling_mode)->Ok_0;
                lemma_two_then(seq![false], old(self)@.mux_bits(settings), sent + other);
            }
        }
        if self.frames_since_config < u8::MAX {
            self.frames_since_config = self.frames_since_config + 1;
        }
        Ok(writer.finish())
    }
}

// ---------------------------------------------------------------------------
// The plain writer
// ---------------------------------------------------------------------------

/// A writer of one plain low-complexity stream.
#[derive(Debug, Clone, Copy, PartialEq, Eq, Structural)]
pub struct LatmAacLcWriter {
    sampling_frequency_index: u8,
    channel_configuration: u8,
    config_written: bool,
}

/// The model of [`LatmAacLcWriter`].
pub struct PlainState {
    pub sampling_frequency_index: u8,
    pub channel_configuration: u8,
    pub config_written: bool,
}

impl View for LatmAacLcWriter {
    type V = PlainState;

    closed spec fn view(&self) -> PlainState {
        PlainState {
            sampling_frequency_index: self.sampling_frequency_index,
            channel_configuration: self.channel_configuration,
            config_written: self.config_written,
        }
    }
}

/// The channel configurations of a plain stream.
pub open spec fn is_plain_channel_configuration(value: u8) -> bool {
    1 <= value <= 7 || value == 11 || value == 12 || value == 14
}

/// The settings of a plain stream.
pub open spec fn plain_settings_bits(sampling_frequency_index: u8, channel_configuration: u8) -> Seq<bool> {
    value_bits(2, 5) + (value_bits(sampling_frequency_index as nat, 4) + (value_bits(channel_configuration as nat, 4) + seq![
        false,
        false,
        false,
    ]))
}

/// The configuration of a plain stream.
pub open spec fn plain_config_bits(sampling_frequency_index: u8, channel_configuration: u8) -> Seq<bool> {
    version_bits(0) + (counts_bits(1) + (value_bits(0, 3) + (plain_settings_bits(
        sampling_frequency_index,
        channel_configuration,
    ) + (frame_length_bits(None) + (other_count_bits(0, 0) + check_sum_bits(None))))))
}

impl PlainState {
    /// The next element in the stream.
    pub open spec fn element_bits(self, block: Seq<u8>) -> Seq<bool> {
        if self.config_written {
            seq![true] + payload_bits(None, block)
        } else {
            seq![false] + (plain_config_bits(self.sampling_frequency_index, self.channel_configuration) + payload_bits(
                None,
                block,
            ))
        }
    }
}

fn write_plain_settings(writer: &mut BitWriter, sampling_frequency_index: u8, channel_configuration: u8)
    ensures
        final(writer)@ == old(writer)@ + plain_settings_bits(sampling_frequency_index, channel_configuration),
{
    writer.write(2, 5);
    writer.write(sampling_frequency_index as u32, 4);
    writer.write(channel_configuration as u32, 4);
    let ghost before = writer@;
    writer.write_bool(false);
    writer.write_bool(false);
    writer.write_bool(false);
    assert(writer@ =~= before + seq![false, false, false]);
    proof {
        let index = value_bits(sampling_frequency_index as nat, 4);
        let channels = value_bits(channel_configuration as nat, 4);
        let flags = seq![false, false, false];
        lemma_two_then(old(writer)@ + value_bits(2, 5) + index, channels, flags);
        lemma_two_then(old(writer)@ + value_bits(2, 5), index, channels + flags);
        lemma_two_then(old(writer)@, value_bits(2, 5), index + (channels + flags));
    }
}

impl LatmAacLcWriter {
    /// A writer that has sent nothing yet.
    pub fn new(sampling_frequency_index: u8, channel_configuration: u8) -> (result: Result<LatmAacLcWriter, LatmError>)
        ensures
            if sampling_frequency_index >= 13 {
                result == Err::<LatmAacLcWriter, LatmError>(
                    LatmError::InvalidSamplingFrequencyIndex(sampling_frequency_index),
                )
            } else if !is_plain_channel_configuration(channel_configuration) {
                result == Err::<LatmAacLcWriter, LatmError>(LatmError::InvalidChannelConfiguration(channel_configuration))
            } else {
                result matches Ok(writer) && writer@ == (PlainState {
                    sampling_frequency_index,
                    channel_configuration,
                    config_written: false,
                })
            },
    {
        if sampling_frequency_index >= 13 {
            return Err(LatmError::InvalidSamplingFrequencyIndex(sampling_frequency_index));
        }
        match channel_configuration {
            1 | 2 | 3 | 4 | 5 | 6 | 7 | 11 | 12 | 14 => {},
            _ => return Err(LatmError::InvalidChannelConfiguration(channel_configuration)),
        }
        Ok(LatmAacLcWriter { sampling_frequency_index, channel_configuration, config_written: false })
    }

    /// Writes the next element; the first one carries the configuration.
    pub fn write_audio_mux_element(&mut self, raw_data_block: &[u8]) -> (bytes: Vec<u8>)
        ensures
            ({
                let bits = old(self)@.element_bits(raw_data_block@);
                bits_of(bytes@) == bits + padding(bits.len())
            }),
            final(self)@ == (PlainState { config_written: true, ..old(self)@ }),
    {
        let mut writer: BitWriter = BitWriter::new();
        writer.write_bool(self.config_written);
        assert(writer@ =~= seq![self.config_written]);
        if !self.config_written {
            let ghost before = writer@;
            write_version(&mut writer, 0);
            write_counts(&mut writer, 1);
            writer.write(0, 3);
            write_plain_settings(&mut writer, self.sampling_frequency_index, self.channel_configuration);
            write_frame_length(&mut writer, None);
            write_other_count(&mut writer, 0, 0);
            write_check_sum(&mut writer, None);
            proof {
                lemma_joined_parts(
                    before,
                    version_bits(0),
                    counts_bits(1),
                    value_bits(0, 3),
                    plain_settings_bits(self@.sampling_frequency_index, self@.channel_configuration),
                    frame_length_bits(None),
                    other_count_bits(0, 0),
                    check_sum_bits(None),
                );
            }
            self.config_written = true;
        }
        let ghost head = writer@;
        write_payload_length(&mut writer, raw_data_block.len());
        writer.write_bytes(raw_data_block);
        proof {
            assert(raw_data_block@.len() == raw_data_block.len());
            lemma_two_then(head, payload_length_bits(raw_data_block@.len()), bits_of(raw_data_block@));
            lemma_two_then(
                seq![false],
                plain_config_bits(old(self)@.sampling_frequency_index, old(self)@.channel_configuration),
                payload_bits(None, raw_data_block@),
            );
        }
        writer.finish()
    }
}

} // verus!
