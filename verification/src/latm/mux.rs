//! The configuration of the multiplex: its streams and their frame lengths.

use vstd::arithmetic::power2::lemma2_to64;
use vstd::prelude::*;

use crate::asc::reading::{read_config, read_whole};
use crate::asc::{AscFields, AudioSpecificConfig};
use crate::bits::{bits_of, BitCursor, BitReader};

use super::error::LatmError;
use super::values::{
    read_latm_value, read_other_data_length, read_other_length, read_packed, read_packed_bits, read_value,
};

verus! {

/// One stream of the multiplex.
#[derive(Debug, PartialEq, Eq)]
pub struct LatmStreamLayer {
    pub program: u8,
    pub layer: u8,
    pub config: Option<AudioSpecificConfig>,
    pub frame_length_type: u8,
    pub fixed_frame_length_bits: Option<usize>,
}

/// The model of [`LatmStreamLayer`].
#[verifier::ext_equal]
pub struct StreamFields {
    pub program: u8,
    pub layer: u8,
    pub config: Option<AscFields>,
    pub frame_length_type: u8,
    pub fixed_frame_length_bits: Option<usize>,
}

/// The model of optional settings.
pub open spec fn config_view(config: Option<AudioSpecificConfig>) -> Option<AscFields> {
    match config {
        Some(config) => Some(config@),
        None => None,
    }
}

/// A copy of optional settings.
pub fn copy_config(config: &Option<AudioSpecificConfig>) -> (copy: Option<AudioSpecificConfig>)
    ensures
        config_view(copy) == config_view(*config),
{
    match config {
        Some(config) => Some(config.clone()),
        None => None,
    }
}

impl View for LatmStreamLayer {
    type V = StreamFields;

    open spec fn view(&self) -> StreamFields {
        StreamFields {
            program: self.program,
            layer: self.layer,
            config: config_view(self.config),
            frame_length_type: self.frame_length_type,
            fixed_frame_length_bits: self.fixed_frame_length_bits,
        }
    }
}

impl Clone for LatmStreamLayer {
    fn clone(&self) -> (copy: LatmStreamLayer)
        ensures
            copy@ == self@,
    {
        LatmStreamLayer {
            program: self.program,
            layer: self.layer,
            config: copy_config(&self.config),
            frame_length_type: self.frame_length_type,
            fixed_frame_length_bits: self.fixed_frame_length_bits,
        }
    }
}

/// The models of streams.
pub open spec fn stream_views(streams: Seq<LatmStreamLayer>) -> Seq<StreamFields> {
    streams.map_values(|stream: LatmStreamLayer| stream@)
}

/// The configuration of the multiplex.
#[derive(Debug, PartialEq, Eq)]
pub struct LatmMuxConfig {
    pub audio_mux_version: u8,
    pub all_streams_same_time_framing: bool,
    pub subframe_count: u8,
    pub streams: Vec<LatmStreamLayer>,
    pub other_data_bits: usize,
    pub crc_check_sum: Option<u8>,
}

/// The model of [`LatmMuxConfig`].
#[verifier::ext_equal]
pub struct MuxFields {
    pub audio_mux_version: u8,
    pub all_streams_same_time_framing: bool,
    pub subframe_count: u8,
    pub streams: Seq<StreamFields>,
    pub other_data_bits: usize,
    pub crc_check_sum: Option<u8>,
}

impl View for LatmMuxConfig {
    type V = MuxFields;

    open spec fn view(&self) -> MuxFields {
        MuxFields {
            audio_mux_version: self.audio_mux_version,
            all_streams_same_time_framing: self.all_streams_same_time_framing,
            subframe_count: self.subframe_count,
            streams: stream_views(self.streams@),
            other_data_bits: self.other_data_bits,
            crc_check_sum: self.crc_check_sum,
        }
    }
}

impl Clone for LatmMuxConfig {
    fn clone(&self) -> (copy: LatmMuxConfig)
        ensures
            copy@ == self@,
    {
        let mut streams: Vec<LatmStreamLayer> = Vec::new();
        let mut index: usize = 0;
        while index < self.streams.len()
            invariant
                index <= self.streams@.len(),
                stream_views(streams@) == stream_views(self.streams@).take(index as int),
            decreases self.streams@.len() - index,
        {
            let stream: LatmStreamLayer = self.streams[index].clone();
            let ghost before = streams@;
            streams.push(stream);
            assert(stream_views(streams@) =~= stream_views(before).push(stream@));
            assert(stream_views(self.streams@).take(index + 1) =~= stream_views(self.streams@).take(index as int).push(
                stream@,
            ));
            index = index + 1;
        }
        assert(stream_views(self.streams@).take(index as int) =~= stream_views(self.streams@));
        LatmMuxConfig {
            audio_mux_version: self.audio_mux_version,
            all_streams_same_time_framing: self.all_streams_same_time_framing,
            subframe_count: self.subframe_count,
            streams,
            other_data_bits: self.other_data_bits,
            crc_check_sum: self.crc_check_sum,
        }
    }
}

/// Why settings cannot be used in the multiplex, where they cannot.
pub open spec fn config_error(fields: AscFields) -> Option<LatmError> {
    let object_type = fields.audio_object_type;
    let general = object_type == 2 || object_type == 17 || object_type == 20 || object_type == 23;
    if !general && object_type != 39 && object_type != 42 {
        Some(LatmError::UnsupportedAudioObjectType(object_type))
    } else {
        match fields.ga_specific {
            Some(ga) => if ga.frame_length_flag && !general {
                Some(LatmError::UnsupportedFrameLengthFlag)
            } else if ga.depends_on_core_coder {
                Some(LatmError::UnsupportedCoreCoderDependency)
            } else {
                None
            },
            None => None,
        }
    }
}

/// Checks whether settings can be used in the multiplex.
pub fn validate_audio_specific_config(config: &AudioSpecificConfig) -> (result: Result<(), LatmError>)
    ensures
        match config_error(config@) {
            Some(error) => result == Err::<(), LatmError>(error),
            None => result == Ok::<(), LatmError>(()),
        },
{
    let object_type: u8 = config.audio_object_type;
    let general: bool = object_type == 2 || object_type == 17 || object_type == 20 || object_type == 23;
    if !general && object_type != 39 && object_type != 42 {
        return Err(LatmError::UnsupportedAudioObjectType(object_type));
    }
    match config.ga_specific {
        Some(ga) => {
            if ga.frame_length_flag && !general {
                return Err(LatmError::UnsupportedFrameLengthFlag);
            }
            if ga.depends_on_core_coder {
                return Err(LatmError::UnsupportedCoreCoderDependency);
            }
        },
        None => {},
    }
    Ok(())
}

/// Settings that were read, checked for their use in the multiplex.
pub open spec fn checked(result: Result<AscFields, crate::asc::AscError>) -> Result<AscFields, LatmError> {
    match result {
        Err(error) => Err(LatmError::Asc(error)),
        Ok(fields) => match config_error(fields) {
            Some(error) => Err(error),
            None => Ok(fields),
        },
    }
}

/// Reading the settings of a stream: in place, or behind their length.
#[verifier::opaque]
pub open spec fn read_stream_config(cursor: BitCursor, version: u8) -> (Result<AscFields, LatmError>, BitCursor) {
    if version == 0 {
        let (result, next) = read_config(cursor);
        (checked(result), next)
    } else {
        match read_value(cursor) {
            (Err(error), next) => (Err(error), next),
            (Ok(length), next) => if length > next.remaining() {
                (
                    Err(
                        LatmError::InvalidAudioSpecificConfigLength {
                            declared_bits: length as usize,
                            remaining_bits: next.remaining() as usize,
                        },
                    ),
                    next,
                )
            } else {
                match read_packed(next, length as int) {
                    (Err(error), last) => (Err(error), last),
                    (Ok(bytes), last) => (checked(read_whole(BitCursor::at(bits_of(bytes), 0)).0), last),
                }
            },
        }
    }
}

fn parse_latm_audio_specific_config(reader: &mut BitReader<'_>, audio_mux_version: u8) -> (result: Result<
    AudioSpecificConfig,
    LatmError,
>)
    ensures
        final(reader)@ == read_stream_config(old(reader)@, audio_mux_version).1,
        old(reader)@.leads_to(final(reader)@),
        match read_stream_config(old(reader)@, audio_mux_version).0 {
            Ok(fields) => result matches Ok(config) && config@ == fields,
            Err(error) => result == Err::<AudioSpecificConfig, LatmError>(error),
        },
{
    proof {
        reveal(read_stream_config);
    }
    let config: AudioSpecificConfig = if audio_mux_version == 0 {
        match AudioSpecificConfig::parse_from_reader(reader) {
            Ok(config) => config,
            Err(error) => return Err(LatmError::Asc(error)),
        }
    } else {
        let declared: u32 = match read_latm_value(reader) {
            Ok(declared) => declared,
            Err(error) => return Err(error),
        };
        let length: usize = declared as usize;
        let remaining: usize = reader.remaining_bits();
        if length > remaining {
            return Err(
                LatmError::InvalidAudioSpecificConfigLength { declared_bits: length, remaining_bits: remaining },
            );
        }
        let bytes: Vec<u8> = match read_packed_bits(reader, length) {
            Ok(bytes) => bytes,
            Err(error) => return Err(error),
        };
        match AudioSpecificConfig::parse(bytes.as_slice()) {
            Ok(config) => config,
            Err(error) => return Err(LatmError::Asc(error)),
        }
    };
    match validate_audio_specific_config(&config) {
        Ok(()) => Ok(config),
        Err(error) => Err(error),
    }
}

/// Reading how long the frames of a stream are: how that is told, and the fixed
/// length where there is one.
pub open spec fn read_frame_length(cursor: BitCursor) -> (Result<(u8, Option<usize>), LatmError>, BitCursor) {
    match cursor.read(3) {
        (Err(error), next) => (Err(LatmError::Bit(error)), next),
        (Ok(kind), next) => if kind == 0 {
            match next.read(8) {
                (Err(error), last) => (Err(LatmError::Bit(error)), last),
                (Ok(_), last) => (Ok((0u8, None)), last),
            }
        } else if kind == 1 {
            match next.read(9) {
                (Err(error), last) => (Err(LatmError::Bit(error)), last),
                (Ok(length), last) => (Ok((1u8, Some(length as usize))), last),
            }
        } else {
            (Err(LatmError::UnsupportedFrameLengthType(kind as u8)), next)
        },
    }
}

fn parse_frame_length(reader: &mut BitReader<'_>) -> (result: Result<(u8, Option<usize>), LatmError>)
    ensures
        (result, final(reader)@) == read_frame_length(old(reader)@),
        old(reader)@.leads_to(final(reader)@),
{
    proof {
        lemma2_to64();
    }
    match reader.read_u8(3) {
        Err(error) => Err(LatmError::Bit(error)),
        Ok(kind) => {
            if kind == 0 {
                match reader.read_u8(8) {
                    Err(error) => Err(LatmError::Bit(error)),
                    Ok(_) => Ok((0, None)),
                }
            } else if kind == 1 {
                match reader.read_u16(9) {
                    Err(error) => Err(LatmError::Bit(error)),
                    Ok(length) => Ok((1, Some(length as usize))),
                }
            } else {
                Err(LatmError::UnsupportedFrameLengthType(kind))
            }
        },
    }
}

/// Reading whether a stream takes over the settings of the one before. The
/// first stream has no such flag.
pub open spec fn read_same_flag(cursor: BitCursor, program: u8, layer: u8) -> (Result<bool, LatmError>, BitCursor) {
    if program == 0 && layer == 0 {
        (Ok(false), cursor)
    } else {
        match cursor.read_flag() {
            (Err(error), next) => (Err(LatmError::Bit(error)), next),
            (Ok(flag), next) => (Ok(flag), next),
        }
    }
}

/// The settings that a stream takes over.
pub open spec fn previous_config(layer: u8, streams: Seq<StreamFields>) -> Result<AscFields, LatmError> {
    if layer == 0 || streams.len() == 0 {
        Err(LatmError::InvalidUseSameConfig)
    } else {
        match streams.last().config {
            Some(fields) => Ok(fields),
            None => Err(LatmError::InvalidUseSameConfig),
        }
    }
}

/// Reading the settings of a stream, its own or those of the stream before.
pub open spec fn read_or_reuse(cursor: BitCursor, version: u8, program: u8, layer: u8, streams: Seq<StreamFields>) -> (
    Result<AscFields, LatmError>,
    BitCursor,
) {
    match read_same_flag(cursor, program, layer) {
        (Err(error), next) => (Err(error), next),
        (Ok(true), next) => (previous_config(layer, streams), next),
        (Ok(false), next) => read_stream_config(next, version),
    }
}

fn parse_or_reuse(
    reader: &mut BitReader<'_>,
    audio_mux_version: u8,
    program: u8,
    layer: u8,
    streams: &Vec<LatmStreamLayer>,
) -> (result: Result<AudioSpecificConfig, LatmError>)
    ensures
        ({
            let (expected, next) = read_or_reuse(old(reader)@, audio_mux_version, program, layer, stream_views(streams@));
            &&& final(reader)@ == next
            &&& match expected {
                Ok(fields) => result matches Ok(config) && config@ == fields,
                Err(error) => result == Err::<AudioSpecificConfig, LatmError>(error),
            }
        }),
        old(reader)@.leads_to(final(reader)@),
{
    let _ = reader.bits_read();
    let mut same: bool = false;
    if program != 0 || layer != 0 {
        match reader.read_bool() {
            Ok(flag) => {
                same = flag;
            },
            Err(error) => return Err(LatmError::Bit(error)),
        }
    }
    if !same {
        return parse_latm_audio_specific_config(reader, audio_mux_version);
    }
    if layer == 0 || streams.len() == 0 {
        return Err(LatmError::InvalidUseSameConfig);
    }
    let last: &LatmStreamLayer = &streams[streams.len() - 1];
    assert(stream_views(streams@).last() == last@);
    match &last.config {
        Some(config) => Ok(config.clone()),
        None => Err(LatmError::InvalidUseSameConfig),
    }
}

/// Reading one stream behind those read before.
pub open spec fn read_stream(cursor: BitCursor, version: u8, program: u8, layer: u8, streams: Seq<StreamFields>) -> (
    Result<StreamFields, LatmError>,
    BitCursor,
) {
    match read_or_reuse(cursor, version, program, layer, streams) {
        (Err(error), next) => (Err(error), next),
        (Ok(fields), next) => match read_frame_length(next) {
            (Err(error), last) => (Err(error), last),
            (Ok((kind, fixed)), last) => (
                Ok(
                    StreamFields {
                        program,
                        layer,
                        config: Some(fields),
                        frame_length_type: kind,
                        fixed_frame_length_bits: fixed,
                    },
                ),
                last,
            ),
        },
    }
}

/// Reading the streams of a program from a layer on, behind those read before.
pub open spec fn read_layers(
    cursor: BitCursor,
    version: u8,
    program: u8,
    layer: u8,
    layer_count: u8,
    streams: Seq<StreamFields>,
) -> (Result<Seq<StreamFields>, LatmError>, BitCursor)
    decreases layer_count - layer,
{
    if layer >= layer_count {
        (Ok(streams), cursor)
    } else {
        match read_stream(cursor, version, program, layer, streams) {
            (Err(error), next) => (Err(error), next),
            (Ok(stream), next) => read_layers(
                next,
                version,
                program,
                (layer + 1) as u8,
                layer_count,
                streams.push(stream),
            ),
        }
    }
}

/// Reading the streams from a program on, behind those read before.
pub open spec fn read_programs(
    cursor: BitCursor,
    version: u8,
    program: u8,
    program_count: u8,
    streams: Seq<StreamFields>,
) -> (Result<Seq<StreamFields>, LatmError>, BitCursor)
    decreases program_count - program,
{
    if program >= program_count {
        (Ok(streams), cursor)
    } else {
        match cursor.read(3) {
            (Err(error), next) => (Err(LatmError::Bit(error)), next),
            (Ok(more), next) => match read_layers(next, version, program, 0, (more + 1) as u8, streams) {
                (Err(error), last) => (Err(error), last),
                (Ok(longer), last) => read_programs(last, version, (program + 1) as u8, program_count, longer),
            },
        }
    }
}

fn parse_layers(
    reader: &mut BitReader<'_>,
    audio_mux_version: u8,
    program: u8,
    layer_count: u8,
    streams: &mut Vec<LatmStreamLayer>,
) -> (result: Result<(), LatmError>)
    ensures
        ({
            let (expected, next) = read_layers(
                old(reader)@,
                audio_mux_version,
                program,
                0,
                layer_count,
                stream_views(old(streams)@),
            );
            &&& final(reader)@ == next
            &&& match expected {
                Ok(longer) => result is Ok && stream_views(final(streams)@) == longer,
                Err(error) => result == Err::<(), LatmError>(error),
            }
        }),
        old(reader)@.leads_to(final(reader)@),
{
    let _ = reader.bits_read();
    let mut layer: u8 = 0;
    while layer < layer_count
        invariant
            layer <= layer_count,
            old(reader)@.leads_to(reader@),
            read_layers(
                old(reader)@,
                audio_mux_version,
                program,
                0,
                layer_count,
                stream_views(old(streams)@),
            ) == read_layers(reader@, audio_mux_version, program, layer, layer_count, stream_views(streams@)),
        decreases layer_count - layer,
    {
        let config: AudioSpecificConfig = match parse_or_reuse(reader, audio_mux_version, program, layer, streams) {
            Ok(config) => config,
            Err(error) => return Err(error),
        };
        let (frame_length_type, fixed_frame_length_bits): (u8, Option<usize>) = match parse_frame_length(reader) {
            Ok(length) => length,
            Err(error) => return Err(error),
        };
        let stream: LatmStreamLayer = LatmStreamLayer {
            program,
            layer,
            config: Some(config),
            frame_length_type,
            fixed_frame_length_bits,
        };
        let ghost before = streams@;
        streams.push(stream);
        assert(stream_views(streams@) =~= stream_views(before).push(stream@));
        layer = layer + 1;
    }
    Ok(())
}

fn parse_programs(reader: &mut BitReader<'_>, audio_mux_version: u8, program_count: u8) -> (result: Result<
    Vec<LatmStreamLayer>,
    LatmError,
>)
    ensures
        ({
            let (expected, next) = read_programs(old(reader)@, audio_mux_version, 0, program_count, Seq::empty());
            &&& final(reader)@ == next
            &&& match expected {
                Ok(streams) => result matches Ok(list) && stream_views(list@) == streams,
                Err(error) => result == Err::<Vec<LatmStreamLayer>, LatmError>(error),
            }
        }),
        old(reader)@.leads_to(final(reader)@),
{
    let _ = reader.bits_read();
    let mut streams: Vec<LatmStreamLayer> = Vec::new();
    let mut program: u8 = 0;
    assert(stream_views(streams@) =~= Seq::empty());
    while program < program_count
        invariant
            program <= program_count,
            old(reader)@.leads_to(reader@),
            read_programs(old(reader)@, audio_mux_version, 0, program_count, Seq::empty()) == read_programs(
                reader@,
                audio_mux_version,
                program,
                program_count,
                stream_views(streams@),
            ),
        decreases program_count - program,
    {
        proof {
            lemma2_to64();
        }
        let more: u8 = match reader.read_u8(3) {
            Ok(more) => more,
            Err(error) => return Err(LatmError::Bit(error)),
        };
        match parse_layers(reader, audio_mux_version, program, more + 1, &mut streams) {
            Ok(()) => {},
            Err(error) => return Err(error),
        }
        program = program + 1;
    }
    Ok(streams)
}

/// Reading the version of the multiplex and what the second version adds.
pub open spec fn read_version(cursor: BitCursor) -> (Result<u8, LatmError>, BitCursor) {
    match cursor.read_flag() {
        (Err(error), next) => (Err(LatmError::Bit(error)), next),
        (Ok(false), next) => (Ok(0u8), next),
        (Ok(true), next) => match next.read_flag() {
            (Err(error), next) => (Err(LatmError::Bit(error)), next),
            (Ok(true), next) => (Err(LatmError::UnsupportedAudioMuxVersionA(1)), next),
            (Ok(false), next) => match read_value(next) {
                (Err(error), last) => (Err(error), last),
                (Ok(_), last) => (Ok(1u8), last),
            },
        },
    }
}

fn parse_version(reader: &mut BitReader<'_>) -> (result: Result<u8, LatmError>)
    ensures
        (result, final(reader)@) == read_version(old(reader)@),
        old(reader)@.leads_to(final(reader)@),
{
    match reader.read_bool() {
        Err(error) => return Err(LatmError::Bit(error)),
        Ok(false) => return Ok(0),
        Ok(true) => {},
    }
    match reader.read_bool() {
        Err(error) => return Err(LatmError::Bit(error)),
        Ok(true) => return Err(LatmError::UnsupportedAudioMuxVersionA(1)),
        Ok(false) => {},
    }
    match read_latm_value(reader) {
        Err(error) => Err(error),
        Ok(_) => Ok(1),
    }
}

/// Reading the number of bits of other data.
pub open spec fn read_other_bits(cursor: BitCursor, version: u8) -> (Result<usize, LatmError>, BitCursor) {
    match cursor.read_flag() {
        (Err(error), next) => (Err(LatmError::Bit(error)), next),
        (Ok(false), next) => (Ok(0usize), next),
        (Ok(true), next) => if version == 1 {
            match read_value(next) {
                (Err(error), last) => (Err(error), last),
                (Ok(length), last) => (Ok(length as usize), last),
            }
        } else {
            read_other_length(next, 0)
        },
    }
}

fn parse_other_bits(reader: &mut BitReader<'_>, audio_mux_version: u8) -> (result: Result<usize, LatmError>)
    ensures
        (result, final(reader)@) == read_other_bits(old(reader)@, audio_mux_version),
        old(reader)@.leads_to(final(reader)@),
{
    match reader.read_bool() {
        Err(error) => Err(LatmError::Bit(error)),
        Ok(false) => Ok(0),
        Ok(true) => {
            if audio_mux_version == 1 {
                match read_latm_value(reader) {
                    Err(error) => Err(error),
                    Ok(length) => Ok(length as usize),
                }
            } else {
                read_other_data_length(reader)
            }
        },
    }
}

/// Reading the optional check sum.
pub open spec fn read_check_sum(cursor: BitCursor) -> (Result<Option<u8>, LatmError>, BitCursor) {
    match cursor.read_flag() {
        (Err(error), next) => (Err(LatmError::Bit(error)), next),
        (Ok(false), next) => (Ok(None), next),
        (Ok(true), next) => match next.read(8) {
            (Err(error), last) => (Err(LatmError::Bit(error)), last),
            (Ok(sum), last) => (Ok(Some(sum as u8)), last),
        },
    }
}

fn parse_check_sum(reader: &mut BitReader<'_>) -> (result: Result<Option<u8>, LatmError>)
    ensures
        (result, final(reader)@) == read_check_sum(old(reader)@),
        old(reader)@.leads_to(final(reader)@),
{
    match reader.read_bool() {
        Err(error) => Err(LatmError::Bit(error)),
        Ok(false) => Ok(None),
        Ok(true) => match reader.read_u8(8) {
            Err(error) => Err(LatmError::Bit(error)),
            Ok(sum) => Ok(Some(sum)),
        },
    }
}

/// Reading the time framing, the number of subframes and the number of
/// programs.
pub open spec fn read_counts(cursor: BitCursor) -> (Result<(bool, u8, u8), LatmError>, BitCursor) {
    match cursor.read_flag() {
        (Err(error), next) => (Err(LatmError::Bit(error)), next),
        (Ok(same_time), next) => match next.read(6) {
            (Err(error), next) => (Err(LatmError::Bit(error)), next),
            (Ok(subframes), next) => match next.read(4) {
                (Err(error), next) => (Err(LatmError::Bit(error)), next),
                (Ok(programs), next) => (Ok((same_time, (subframes + 1) as u8, (programs + 1) as u8)), next),
            },
        },
    }
}

fn parse_counts(reader: &mut BitReader<'_>) -> (result: Result<(bool, u8, u8), LatmError>)
    ensures
        (result, final(reader)@) == read_counts(old(reader)@),
        old(reader)@.leads_to(final(reader)@),
{
    proof {
        lemma2_to64();
    }
    let same_time: bool = match reader.read_bool() {
        Err(error) => return Err(LatmError::Bit(error)),
        Ok(flag) => flag,
    };
    let subframes: u8 = match reader.read_u8(6) {
        Err(error) => return Err(LatmError::Bit(error)),
        Ok(count) => count,
    };
    match reader.read_u8(4) {
        Err(error) => Err(LatmError::Bit(error)),
        Ok(programs) => Ok((same_time, subframes + 1, programs + 1)),
    }
}

/// Reading the configuration of the multiplex.
pub open spec fn read_mux(cursor: BitCursor) -> (Result<MuxFields, LatmError>, BitCursor) {
    match read_version(cursor) {
        (Err(error), next) => (Err(error), next),
        (Ok(version), next) => match read_counts(next) {
            (Err(error), next) => (Err(error), next),
            (Ok((same_time, subframes, programs)), next) => match read_programs(next, version, 0, programs, Seq::empty()) {
                (Err(error), next) => (Err(error), next),
                (Ok(streams), next) => match read_other_bits(next, version) {
                    (Err(error), next) => (Err(error), next),
                    (Ok(other_data_bits), next) => match read_check_sum(next) {
                        (Err(error), next) => (Err(error), next),
                        (Ok(crc_check_sum), next) => (
                            Ok(
                                MuxFields {
                                    audio_mux_version: version,
                                    all_streams_same_time_framing: same_time,
                                    subframe_count: subframes,
                                    streams,
                                    other_data_bits,
                                    crc_check_sum,
                                },
                            ),
                            next,
                        ),
                    },
                },
            },
        },
    }
}

/// Reads the configuration of the multiplex.
pub fn parse_stream_mux_config_aac_lc(reader: &mut BitReader<'_>) -> (result: Result<LatmMuxConfig, LatmError>)
    ensures
        final(reader)@ == read_mux(old(reader)@).1,
        old(reader)@.leads_to(final(reader)@),
        match read_mux(old(reader)@).0 {
            Ok(fields) => result matches Ok(config) && config@ == fields,
            Err(error) => result == Err::<LatmMuxConfig, LatmError>(error),
        },
{
    let audio_mux_version: u8 = match parse_version(reader) {
        Ok(version) => version,
        Err(error) => return Err(error),
    };
    let (all_streams_same_time_framing, subframe_count, program_count): (bool, u8, u8) = match parse_counts(reader) {
        Ok(counts) => counts,
        Err(error) => return Err(error),
    };
    let streams: Vec<LatmStreamLayer> = match parse_programs(reader, audio_mux_version, program_count) {
        Ok(streams) => streams,
        Err(error) => return Err(error),
    };
    let other_data_bits: usize = match parse_other_bits(reader, audio_mux_version) {
        Ok(bits) => bits,
        Err(error) => return Err(error),
    };
    let crc_check_sum: Option<u8> = match parse_check_sum(reader) {
        Ok(sum) => sum,
        Err(error) => return Err(error),
    };
    Ok(
        LatmMuxConfig {
            audio_mux_version,
            all_streams_same_time_framing,
            subframe_count,
            streams,
            other_data_bits,
            crc_check_sum,
        },
    )
}

} // verus!
