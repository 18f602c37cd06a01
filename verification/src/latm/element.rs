//! Multiplex elements: a configuration or a reference to the one before, the
//! payloads of all streams, and other data.

use vstd::prelude::*;

use crate::asc::{AscFields, AudioSpecificConfig};
use crate::bits::{bits_of, BitCursor, BitReader};

use super::error::LatmError;
use super::mux::{
    config_view, copy_config, parse_stream_mux_config_aac_lc, read_mux, stream_views, LatmMuxConfig, LatmStreamLayer,
    MuxFields, StreamFields,
};
use super::values::{read_packed, read_packed_bits, read_payload_length, read_payload_length_bytes};

verus! {

/// The payload of one stream in one subframe.
#[derive(Debug, Clone, PartialEq, Eq)]
pub struct LatmPayload {
    pub subframe: u8,
    pub program: u8,
    pub layer: u8,
    pub data: Vec<u8>,
    pub bits: usize,
}

/// The model of [`LatmPayload`].
#[verifier::ext_equal]
pub struct PayloadFields {
    pub subframe: u8,
    pub program: u8,
    pub layer: u8,
    pub data: Seq<u8>,
    pub bits: usize,
}

impl View for LatmPayload {
    type V = PayloadFields;

    open spec fn view(&self) -> PayloadFields {
        PayloadFields {
            subframe: self.subframe,
            program: self.program,
            layer: self.layer,
            data: self.data@,
            bits: self.bits,
        }
    }
}

/// The models of payloads.
pub open spec fn payload_views(payloads: Seq<LatmPayload>) -> Seq<PayloadFields> {
    payloads.map_values(|payload: LatmPayload| payload@)
}

/// One element of the multiplex.
#[derive(Debug, Clone, PartialEq, Eq)]
pub struct LatmAudioMuxElement {
    pub use_same_stream_mux: bool,
    pub config: Option<AudioSpecificConfig>,
    pub mux_config: Option<LatmMuxConfig>,
    /// The check sum that the configuration carries.
    pub crc_check_sum: Option<u8>,
    pub raw_data_block: Vec<u8>,
    pub raw_data_block_bits: usize,
    pub payloads: Vec<LatmPayload>,
    pub other_data: Vec<u8>,
    pub other_data_bits: usize,
}

/// The model of [`LatmAudioMuxElement`].
#[verifier::ext_equal]
pub struct ElementFields {
    pub use_same_stream_mux: bool,
    pub config: Option<AscFields>,
    pub mux_config: Option<MuxFields>,
    pub crc_check_sum: Option<u8>,
    pub raw_data_block: Seq<u8>,
    pub raw_data_block_bits: usize,
    pub payloads: Seq<PayloadFields>,
    pub other_data: Seq<u8>,
    pub other_data_bits: usize,
}

/// The model of an optional configuration.
pub open spec fn mux_view(config: Option<LatmMuxConfig>) -> Option<MuxFields> {
    match config {
        Some(config) => Some(config@),
        None => None,
    }
}

impl View for LatmAudioMuxElement {
    type V = ElementFields;

    open spec fn view(&self) -> ElementFields {
        ElementFields {
            use_same_stream_mux: self.use_same_stream_mux,
            config: config_view(self.config),
            mux_config: mux_view(self.mux_config),
            crc_check_sum: self.crc_check_sum,
            raw_data_block: self.raw_data_block@,
            raw_data_block_bits: self.raw_data_block_bits,
            payloads: payload_views(self.payloads@),
            other_data: self.other_data@,
            other_data_bits: self.other_data_bits,
        }
    }
}

/// Reading how many bits the next payload of a stream has.
pub open spec fn read_payload_bits(cursor: BitCursor, stream: StreamFields) -> (Result<usize, LatmError>, BitCursor) {
    if stream.frame_length_type == 0 {
        match read_payload_length(cursor, 0) {
            (Err(error), next) => (Err(error), next),
            (Ok(length), next) => if length * 8 > usize::MAX {
                (Err(LatmError::PayloadTooLarge), next)
            } else {
                (Ok((length * 8) as usize), next)
            },
        }
    } else if stream.frame_length_type == 1 {
        match stream.fixed_frame_length_bits {
            Some(bits) => (Ok(bits), cursor),
            None => (Err(LatmError::UnsupportedFrameLengthType(1)), cursor),
        }
    } else {
        (Err(LatmError::UnsupportedFrameLengthType(stream.frame_length_type)), cursor)
    }
}

/// Reading the lengths of the payloads of a subframe behind those read before.
pub open spec fn read_lengths(cursor: BitCursor, streams: Seq<StreamFields>, lengths: Seq<usize>) -> (
    Result<Seq<usize>, LatmError>,
    BitCursor,
)
    decreases streams.len() - lengths.len(),
{
    if lengths.len() >= streams.len() {
        (Ok(lengths), cursor)
    } else {
        match read_payload_bits(cursor, streams[lengths.len() as int]) {
            (Err(error), next) => (Err(error), next),
            (Ok(bits), next) => read_lengths(next, streams, lengths.push(bits)),
        }
    }
}

/// Reading the payloads of a subframe from a stream on, behind those read before.
pub open spec fn read_data(
    cursor: BitCursor,
    subframe: u8,
    streams: Seq<StreamFields>,
    lengths: Seq<usize>,
    index: int,
    payloads: Seq<PayloadFields>,
) -> (Result<Seq<PayloadFields>, LatmError>, BitCursor)
    decreases streams.len() - index,
{
    if index >= streams.len() || index < 0 {
        (Ok(payloads), cursor)
    } else {
        match read_packed(cursor, lengths[index] as int) {
            (Err(error), next) => (Err(error), next),
            (Ok(data), next) => read_data(
                next,
                subframe,
                streams,
                lengths,
                index + 1,
                payloads.push(
                    PayloadFields {
                        subframe,
                        program: streams[index].program,
                        layer: streams[index].layer,
                        data,
                        bits: lengths[index],
                    },
                ),
            ),
        }
    }
}

/// Reading the payloads from a subframe on, behind those read before.
pub open spec fn read_subframes(
    cursor: BitCursor,
    subframe: u8,
    count: u8,
    streams: Seq<StreamFields>,
    payloads: Seq<PayloadFields>,
) -> (Result<Seq<PayloadFields>, LatmError>, BitCursor)
    decreases count - subframe,
{
    if subframe >= count {
        (Ok(payloads), cursor)
    } else {
        match read_lengths(cursor, streams, Seq::empty()) {
            (Err(error), next) => (Err(error), next),
            (Ok(lengths), next) => match read_data(next, subframe, streams, lengths, 0, payloads) {
                (Err(error), last) => (Err(error), last),
                (Ok(longer), last) => read_subframes(last, (subframe + 1) as u8, count, streams, longer),
            },
        }
    }
}

/// The configuration of an element: its own, or the one before.
pub open spec fn read_or_keep_mux(cursor: BitCursor, previous: Option<MuxFields>) -> (
    Result<(bool, MuxFields), LatmError>,
    BitCursor,
) {
    match cursor.read_flag() {
        (Err(error), next) => (Err(LatmError::Bit(error)), next),
        (Ok(true), next) => match previous {
            Some(mux) => (Ok((true, mux)), next),
            None => (Err(LatmError::MissingStreamMuxConfig), next),
        },
        (Ok(false), next) => match read_mux(next) {
            (Err(error), last) => (Err(error), last),
            (Ok(mux), last) => (Ok((false, mux)), last),
        },
    }
}

/// The settings that an element announces.
pub open spec fn announced_config(same: bool, mux: MuxFields) -> Option<AscFields> {
    if same || mux.streams.len() == 0 {
        None
    } else {
        mux.streams[0].config
    }
}

/// Reading an element.
pub open spec fn read_element(cursor: BitCursor, previous: Option<MuxFields>) -> Result<ElementFields, LatmError> {
    match read_or_keep_mux(cursor, previous) {
        (Err(error), _) => Err(error),
        (Ok((same, mux)), next) => if !mux.all_streams_same_time_framing {
            Err(LatmError::StreamsNotSameTimeFramed)
        } else {
            match read_subframes(next, 0, mux.subframe_count, mux.streams, Seq::empty()) {
                (Err(error), _) => Err(error),
                (Ok(payloads), next) => match read_packed(next, mux.other_data_bits as int).0 {
                    Err(error) => Err(error),
                    Ok(other_data) => Ok(
                        ElementFields {
                            use_same_stream_mux: same,
                            config: announced_config(same, mux),
                            mux_config: if same {
                                None
                            } else {
                                Some(mux)
                            },
                            crc_check_sum: mux.crc_check_sum,
                            raw_data_block: if payloads.len() == 0 {
                                Seq::empty()
                            } else {
                                payloads[0].data
                            },
                            raw_data_block_bits: if payloads.len() == 0 {
                                0
                            } else {
                                payloads[0].bits
                            },
                            payloads,
                            other_data,
                            other_data_bits: mux.other_data_bits,
                        },
                    ),
                },
            }
        },
    }
}

fn parse_payload_bits(reader: &mut BitReader<'_>, stream: &LatmStreamLayer) -> (result: Result<usize, LatmError>)
    ensures
        (result, final(reader)@) == read_payload_bits(old(reader)@, stream@),
        old(reader)@.leads_to(final(reader)@),
{
    let _ = reader.bits_read();
    if stream.frame_length_type == 0 {
        match read_payload_length_bytes(reader) {
            Err(error) => Err(error),
            Ok(length) => match length.checked_mul(8) {
                Some(bits) => Ok(bits),
                None => Err(LatmError::PayloadTooLarge),
            },
        }
    } else if stream.frame_length_type == 1 {
        match stream.fixed_frame_length_bits {
            Some(bits) => Ok(bits),
            None => Err(LatmError::UnsupportedFrameLengthType(1)),
        }
    } else {
        Err(LatmError::UnsupportedFrameLengthType(stream.frame_length_type))
    }
}

fn parse_lengths(reader: &mut BitReader<'_>, streams: &Vec<LatmStreamLayer>) -> (result: Result<Vec<usize>, LatmError>)
    ensures
        ({
            let (expected, next) = read_lengths(old(reader)@, stream_views(streams@), Seq::empty());
            &&& final(reader)@ == next
            &&& match expected {
                Ok(lengths) => result matches Ok(list) && list@ == lengths && lengths.len() == streams@.len(),
                Err(error) => result == Err::<Vec<usize>, LatmError>(error),
            }
        }),
        old(reader)@.leads_to(final(reader)@),
{
    let _ = reader.bits_read();
    let mut lengths: Vec<usize> = Vec::new();
    while lengths.len() < streams.len()
        invariant
            lengths@.len() <= streams@.len(),
            old(reader)@.leads_to(reader@),
            read_lengths(old(reader)@, stream_views(streams@), Seq::empty()) == read_lengths(
                reader@,
                stream_views(streams@),
                lengths@,
            ),
        decreases streams@.len() - lengths@.len(),
    {
        let index: usize = lengths.len();
        assert(stream_views(streams@)[index as int] == streams@[index as int]@);
        match parse_payload_bits(reader, &streams[index]) {
            Ok(bits) => lengths.push(bits),
            Err(error) => return Err(error),
        }
    }
    Ok(lengths)
}

fn parse_data(
    reader: &mut BitReader<'_>,
    subframe: u8,
    streams: &Vec<LatmStreamLayer>,
    lengths: &Vec<usize>,
    payloads: &mut Vec<LatmPayload>,
) -> (result: Result<(), LatmError>)
    requires
        lengths@.len() == streams@.len(),
    ensures
        ({
            let (expected, next) = read_data(
                old(reader)@,
                subframe,
                stream_views(streams@),
                lengths@,
                0,
                payload_views(old(payloads)@),
            );
            &&& final(reader)@ == next
            &&& match expected {
                Ok(longer) => result is Ok && payload_views(final(payloads)@) == longer,
                Err(error) => result == Err::<(), LatmError>(error),
            }
        }),
        old(reader)@.leads_to(final(reader)@),
{
    let _ = reader.bits_read();
    let mut index: usize = 0;
    while index < streams.len()
        invariant
            index <= streams@.len(),
            lengths@.len() == streams@.len(),
            old(reader)@.leads_to(reader@),
            read_data(old(reader)@, subframe, stream_views(streams@), lengths@, 0, payload_views(old(payloads)@))
                == read_data(
                reader@,
                subframe,
                stream_views(streams@),
                lengths@,
                index as int,
                payload_views(payloads@),
            ),
        decreases streams@.len() - index,
    {
        let stream: &LatmStreamLayer = &streams[index];
        assert(stream_views(streams@)[index as int] == stream@);
        let bits: usize = lengths[index];
        let data: Vec<u8> = match read_packed_bits(reader, bits) {
            Ok(data) => data,
            Err(error) => return Err(error),
        };
        let payload: LatmPayload = LatmPayload { subframe, program: stream.program, layer: stream.layer, data, bits };
        let ghost before = payloads@;
        payloads.push(payload);
        assert(payload_views(payloads@) =~= payload_views(before).push(payload@));
        index = index + 1;
    }
    Ok(())
}

fn parse_subframes(reader: &mut BitReader<'_>, mux: &LatmMuxConfig) -> (result: Result<Vec<LatmPayload>, LatmError>)
    ensures
        ({
            let (expected, next) = read_subframes(
                old(reader)@,
                0,
                mux.subframe_count,
                stream_views(mux.streams@),
                Seq::empty(),
            );
            &&& final(reader)@ == next
            &&& match expected {
                Ok(payloads) => result matches Ok(list) && payload_views(list@) == payloads,
                Err(error) => result == Err::<Vec<LatmPayload>, LatmError>(error),
            }
        }),
        old(reader)@.leads_to(final(reader)@),
{
    let _ = reader.bits_read();
    let mut payloads: Vec<LatmPayload> = Vec::new();
    let mut subframe: u8 = 0;
    assert(payload_views(payloads@) =~= Seq::empty());
    while subframe < mux.subframe_count
        invariant
            subframe <= mux.subframe_count,
            old(reader)@.leads_to(reader@),
            read_subframes(old(reader)@, 0, mux.subframe_count, stream_views(mux.streams@), Seq::empty())
                == read_subframes(
                reader@,
                subframe,
                mux.subframe_count,
                stream_views(mux.streams@),
                payload_views(payloads@),
            ),
        decreases mux.subframe_count - subframe,
    {
        let lengths: Vec<usize> = match parse_lengths(reader, &mux.streams) {
            Ok(lengths) => lengths,
            Err(error) => return Err(error),
        };
        match parse_data(reader, subframe, &mux.streams, &lengths, &mut payloads) {
            Ok(()) => {},
            Err(error) => return Err(error),
        }
        subframe = subframe + 1;
    }
    Ok(payloads)
}

fn copy_bytes(bytes: &Vec<u8>) -> (copy: Vec<u8>)
    ensures
        copy@ == bytes@,
{
    let mut copy: Vec<u8> = Vec::new();
    let mut index: usize = 0;
    while index < bytes.len()
        invariant
            index <= bytes@.len(),
            copy@ == bytes@.take(index as int),
        decreases bytes@.len() - index,
    {
        copy.push(bytes[index]);
        assert(bytes@.take(index + 1) =~= bytes@.take(index as int).push(bytes@[index as int]));
        index = index + 1;
    }
    assert(bytes@.take(index as int) =~= bytes@);
    copy
}

/// The model of a configuration kept from an earlier element.
pub open spec fn kept_view(previous: Option<&LatmMuxConfig>) -> Option<MuxFields> {
    match previous {
        Some(config) => Some(config@),
        None => None,
    }
}

/// The configuration of one plain stream.
pub open spec fn plain_mux(other_data_bits: usize, crc_check_sum: Option<u8>) -> MuxFields {
    MuxFields {
        audio_mux_version: 0,
        all_streams_same_time_framing: true,
        subframe_count: 1,
        streams: seq![
            StreamFields {
                program: 0,
                layer: 0,
                config: None,
                frame_length_type: 0,
                fixed_frame_length_bits: None,
            },
        ],
        other_data_bits,
        crc_check_sum,
    }
}

/// Whether an outcome is the one that the model gives.
pub open spec fn element_is(result: Result<LatmAudioMuxElement, LatmError>, expected: Result<ElementFields, LatmError>) -> bool {
    match expected {
        Ok(fields) => result matches Ok(element) && element@ == fields,
        Err(error) => result == Err::<LatmAudioMuxElement, LatmError>(error),
    }
}

impl LatmAudioMuxElement {
    /// Parses an element that carries its configuration.
    pub fn parse_aac_lc(input: &[u8]) -> (result: Result<LatmAudioMuxElement, LatmError>)
        requires
            input@.len() * 8 <= usize::MAX,
        ensures
            element_is(result, read_element(BitCursor::at(bits_of(input@), 0), None)),
    {
        LatmAudioMuxElement::parse_aac_lc_with_state(input, None)
    }

    /// Parses an element; it may refer to the configuration of an earlier one.
    pub fn parse_aac_lc_with_state(input: &[u8], previous_mux_config: Option<&LatmMuxConfig>) -> (result: Result<
        LatmAudioMuxElement,
        LatmError,
    >)
        requires
            input@.len() * 8 <= usize::MAX,
        ensures
            element_is(result, read_element(BitCursor::at(bits_of(input@), 0), kept_view(previous_mux_config))),
    {
        let mut reader: BitReader<'_> = BitReader::new(input);
        let use_same_stream_mux: bool = match reader.read_bool() {
            Ok(flag) => flag,
            Err(error) => return Err(LatmError::Bit(error)),
        };
        let mux_config: LatmMuxConfig = if use_same_stream_mux {
            match previous_mux_config {
                Some(config) => config.clone(),
                None => return Err(LatmError::MissingStreamMuxConfig),
            }
        } else {
            match parse_stream_mux_config_aac_lc(&mut reader) {
                Ok(config) => config,
                Err(error) => return Err(error),
            }
        };
        if !mux_config.all_streams_same_time_framing {
            return Err(LatmError::StreamsNotSameTimeFramed);
        }
        let payloads: Vec<LatmPayload> = match parse_subframes(&mut reader, &mux_config) {
            Ok(payloads) => payloads,
            Err(error) => return Err(error),
        };
        let other_data: Vec<u8> = match read_packed_bits(&mut reader, mux_config.other_data_bits) {
            Ok(data) => data,
            Err(error) => return Err(error),
        };
        let mut raw_data_block: Vec<u8> = Vec::new();
        let mut raw_data_block_bits: usize = 0;
        if payloads.len() > 0 {
            assert(payload_views(payloads@)[0] == payloads@[0]@);
            raw_data_block = copy_bytes(&payloads[0].data);
            raw_data_block_bits = payloads[0].bits;
        }
        let mut config: Option<AudioSpecificConfig> = None;
        if !use_same_stream_mux && mux_config.streams.len() > 0 {
            assert(stream_views(mux_config.streams@)[0] == mux_config.streams@[0]@);
            config = copy_config(&mux_config.streams[0].config);
        }
        let crc_check_sum: Option<u8> = mux_config.crc_check_sum;
        let other_data_bits: usize = mux_config.other_data_bits;
        Ok(
            LatmAudioMuxElement {
                use_same_stream_mux,
                config,
                mux_config: if use_same_stream_mux {
                    None
                } else {
                    Some(mux_config)
                },
                crc_check_sum,
                raw_data_block,
                raw_data_block_bits,
                payloads,
                other_data,
                other_data_bits,
            },
        )
    }

    /// Parses an element that may refer to the configuration of one plain stream,
    /// of which the other data and the check sum are known.
    pub fn parse_aac_lc_with_mux_state(
        input: &[u8],
        previous_other_data_bits: usize,
        previous_crc_check_sum: Option<u8>,
    ) -> (result: Result<LatmAudioMuxElement, LatmError>)
        requires
            input@.len() * 8 <= usize::MAX,
        ensures
            element_is(
                result,
                read_element(
                    BitCursor::at(bits_of(input@), 0),
                    Some(plain_mux(previous_other_data_bits, previous_crc_check_sum)),
                ),
            ),
    {
        let mut streams: Vec<LatmStreamLayer> = Vec::new();
        streams.push(
            LatmStreamLayer {
                program: 0,
                layer: 0,
                config: None,
                frame_length_type: 0,
                fixed_frame_length_bits: None,
            },
        );
        let previous: LatmMuxConfig = LatmMuxConfig {
            audio_mux_version: 0,
            all_streams_same_time_framing: true,
            subframe_count: 1,
            streams,
            other_data_bits: previous_other_data_bits,
            crc_check_sum: previous_crc_check_sum,
        };
        assert(previous@ =~= plain_mux(previous_other_data_bits, previous_crc_check_sum));
        LatmAudioMuxElement::parse_aac_lc_with_state(input, Some(&previous))
    }
}

} // verus!
