//! Parsing gives back the elements that were written.

use vstd::arithmetic::power2::lemma2_to64;
use vstd::prelude::*;

use crate::asc::laws::{lemma_config_reads_back, lemma_whole_reads_back};
use crate::asc::config::standard_frequency;
use crate::asc::reading::{no_resilience, read_config};
use crate::asc::writing::{config_bits, ga_bits, lemma_config_len, protection_bits, specific_bits, written_config};
use crate::asc::{AscError, AscFields, GaSpecificConfig};
use crate::bits::{
    bits_of, lemma_bits_of_packed, lemma_packed_bytes, lemma_stands_bit, lemma_stands_field, lemma_three_then,
    lemma_two_then, lemma_value_bits_len, packed, padding, stands_at, value_bits, BitCursor,
};

use super::element::{
    read_data, read_element, read_lengths, read_or_keep_mux, read_subframes, ElementFields, PayloadFields,
};
use super::error::LatmError;
use super::mux::{
    read_check_sum, read_counts, read_frame_length, read_layers, read_mux, read_other_bits, read_programs, read_stream,
    read_stream_config, read_version, MuxFields, StreamFields,
};
use super::values::{
    latm_value_bits, lemma_other_length_reads_back, lemma_packed_reads_back, lemma_payload_length,
    lemma_value_reads_back, other_length_bits, payload_length_bits,
};
use super::writer::{
    check_sum_bits, counts_bits, frame_length_bits, is_plain_channel_configuration, other_count_bits, payload_bits,
    payloads_bits, plain_config_bits, plain_settings_bits, short_payload_error, stream_config_bits, version_bits, PlainState,
    WriterState,
};

verus! {

impl WriterState {
    /// Whether a parser finds the end of the settings: without a length in
    /// front of them, nothing may follow them.
    pub open spec fn settings_delimited(self) -> bool {
        self.audio_mux_version == 1 || self.sbr_signaling_mode != 1 || self.config.extension is None
    }

    /// The settings that a parser finds: those of the writer, without an
    /// extension that is not announced.
    pub open spec fn sent_config(self) -> AscFields {
        AscFields {
            extension: if self.sbr_signaling_mode == 1 || self.sbr_signaling_mode == 2 {
                self.config.extension
            } else {
                None
            },
            bits_read: config_bits(self.config, self.sbr_signaling_mode).len() as usize,
            ..self.config
        }
    }

    /// The configuration that a parser finds.
    pub open spec fn sent_mux(self) -> MuxFields {
        MuxFields {
            audio_mux_version: self.audio_mux_version,
            all_streams_same_time_framing: true,
            subframe_count: self.subframe_count,
            streams: seq![
                StreamFields {
                    program: 0,
                    layer: 0,
                    config: Some(self.sent_config()),
                    frame_length_type: if self.fixed_frame_length_bits is Some {
                        1
                    } else {
                        0
                    },
                    fixed_frame_length_bits: self.fixed_frame_length_bits,
                },
            ],
            other_data_bits: self.other_data_bits,
            crc_check_sum: self.crc_check_sum,
        }
    }

    /// The payload of a subframe that a parser finds.
    pub open spec fn sent_payload(self, subframe: int, payload: Seq<u8>) -> PayloadFields {
        PayloadFields {
            subframe: subframe as u8,
            program: 0,
            layer: 0,
            data: match self.fixed_frame_length_bits {
                Some(bits) => packed(bits_of(payload).take(bits as int)),
                None => payload,
            },
            bits: match self.fixed_frame_length_bits {
                Some(bits) => bits,
                None => (payload.len() * 8) as usize,
            },
        }
    }

    /// The payloads that a parser finds.
    pub open spec fn sent_payloads(self, payloads: Seq<Seq<u8>>) -> Seq<PayloadFields> {
        Seq::new(payloads.len(), |i: int| self.sent_payload(i, payloads[i]))
    }

    /// The element that a parser finds.
    pub open spec fn sent_element(self, payloads: Seq<Seq<u8>>) -> ElementFields {
        ElementFields {
            use_same_stream_mux: !self.repeats_config(),
            config: if self.repeats_config() {
                Some(self.sent_config())
            } else {
                None
            },
            mux_config: if self.repeats_config() {
                Some(self.sent_mux())
            } else {
                None
            },
            crc_check_sum: self.crc_check_sum,
            raw_data_block: self.sent_payload(0, payloads[0]).data,
            raw_data_block_bits: self.sent_payload(0, payloads[0]).bits,
            payloads: self.sent_payloads(payloads),
            other_data: packed(bits_of(self.other_data).take(self.other_data_bits as int)),
            other_data_bits: self.other_data_bits,
        }
    }
}

proof fn lemma_version(version: u8, rest: Seq<bool>, cursor: BitCursor)
    requires
        version <= 1,
        stands_at(version_bits(version) + rest, cursor),
    ensures
        read_version(cursor) == (
            Ok::<u8, LatmError>(version),
            cursor.advance(version_bits(version).len() as int),
        ),
        stands_at(rest, cursor.advance(version_bits(version).len() as int)),
{
    if version == 0 {
        lemma_stands_bit(false, rest, cursor);
    } else {
        let value = latm_value_bits(0xff);
        lemma_three_then(seq![true], seq![false], value, rest);
        lemma_stands_bit(true, seq![false] + (value + rest), cursor);
        lemma_stands_bit(false, value + rest, cursor.advance(1));
        lemma_value_reads_back(0xff, rest, cursor.advance(1).advance(1));
    }
}

proof fn lemma_counts(subframe_count: u8, rest: Seq<bool>, cursor: BitCursor)
    requires
        1 <= subframe_count <= 4,
        stands_at(counts_bits(subframe_count) + rest, cursor),
    ensures
        read_counts(cursor) == (Ok::<(bool, u8, u8), LatmError>((true, subframe_count, 1u8)), cursor.advance(11)),
        stands_at(rest, cursor.advance(11)),
        counts_bits(subframe_count).len() == 11,
{
    lemma2_to64();
    let count = (subframe_count - 1) as nat;
    lemma_value_bits_len(count, 6);
    lemma_value_bits_len(0, 4);
    lemma_three_then(seq![true], value_bits(count, 6), value_bits(0, 4), rest);
    lemma_stands_bit(true, value_bits(count, 6) + (value_bits(0, 4) + rest), cursor);
    lemma_stands_field(count, 6, value_bits(0, 4) + rest, cursor.advance(1));
    lemma_stands_field(0, 4, rest, cursor.advance(1).advance(6));
}

proof fn lemma_stream_config(state: WriterState, settings: Seq<bool>, rest: Seq<bool>, cursor: BitCursor)
    requires
        state.valid(),
        state.settings_delimited(),
        written_config(state.config, state.sbr_signaling_mode) == Ok::<Seq<bool>, AscError>(settings),
        stands_at(stream_config_bits(state.audio_mux_version, settings) + rest, cursor),
    ensures
        read_stream_config(cursor, state.audio_mux_version) == (
            Ok::<AscFields, LatmError>(state.sent_config()),
            cursor.advance(stream_config_bits(state.audio_mux_version, settings).len() as int),
        ),
        stands_at(rest, cursor.advance(stream_config_bits(state.audio_mux_version, settings).len() as int)),
{
    reveal(read_stream_config);
    let mode = state.sbr_signaling_mode;
    lemma_config_len(state.config, mode);
    if state.audio_mux_version == 0 {
        lemma_config_reads_back(state.config, mode == 2, rest, cursor);
        assert(read_config(cursor).0 == Ok::<AscFields, AscError>(state.sent_config()));
    } else {
        lemma_two_then(latm_value_bits(settings.len()), settings, rest);
        lemma_value_reads_back(settings.len(), settings + rest, cursor);
        let next = cursor.advance(latm_value_bits(settings.len()).len() as int);
        lemma_packed_reads_back(settings, rest, next);
        lemma_bits_of_packed(settings);
        let whole = BitCursor::at(bits_of(packed(settings)), 0);
        let gap = padding(settings.len());
        assert(whole.bits.subrange(0, (settings.len() + gap.len()) as int) =~= settings + gap);
        lemma_whole_reads_back(state.config, mode, gap, whole);
    }
}

/// How long frames are reads back.
pub proof fn lemma_frame_length(fixed: Option<usize>, rest: Seq<bool>, cursor: BitCursor)
    requires
        fixed matches Some(bits) ==> bits <= 0x1ff,
        stands_at(frame_length_bits(fixed) + rest, cursor),
    ensures
        read_frame_length(cursor) == (
            Ok::<(u8, Option<usize>), LatmError>(
                (
                    if fixed is Some {
                        1u8
                    } else {
                        0u8
                    },
                    fixed,
                ),
            ),
            cursor.advance(frame_length_bits(fixed).len() as int),
        ),
        stands_at(rest, cursor.advance(frame_length_bits(fixed).len() as int)),
{
    lemma2_to64();
    match fixed {
        Some(bits) => {
            lemma_value_bits_len(1, 3);
            lemma_value_bits_len(bits as nat, 9);
            lemma_two_then(value_bits(1, 3), value_bits(bits as nat, 9), rest);
            lemma_stands_field(1, 3, value_bits(bits as nat, 9) + rest, cursor);
            lemma_stands_field(bits as nat, 9, rest, cursor.advance(3));
        },
        None => {
            lemma_value_bits_len(0, 3);
            lemma_value_bits_len(0xff, 8);
            lemma_two_then(value_bits(0, 3), value_bits(0xff, 8), rest);
            lemma_stands_field(0, 3, value_bits(0xff, 8) + rest, cursor);
            lemma_stands_field(0xff, 8, rest, cursor.advance(3));
        },
    }
}

proof fn lemma_other_count(version: u8, count: usize, rest: Seq<bool>, cursor: BitCursor)
    requires
        count <= u32::MAX,
        stands_at(other_count_bits(version, count) + rest, cursor),
    ensures
        read_other_bits(cursor, version) == (
            Ok::<usize, LatmError>(count),
            cursor.advance(other_count_bits(version, count).len() as int),
        ),
        stands_at(rest, cursor.advance(other_count_bits(version, count).len() as int)),
{
    if count == 0 {
        lemma_stands_bit(false, rest, cursor);
    } else if version == 1 {
        lemma_two_then(seq![true], latm_value_bits(count as nat), rest);
        lemma_stands_bit(true, latm_value_bits(count as nat) + rest, cursor);
        lemma_value_reads_back(count as nat, rest, cursor.advance(1));
    } else {
        lemma_two_then(seq![true], other_length_bits(count as nat), rest);
        lemma_stands_bit(true, other_length_bits(count as nat) + rest, cursor);
        lemma_other_length_reads_back(count as nat, rest, cursor.advance(1));
    }
}

proof fn lemma_check_sum(sum: Option<u8>, rest: Seq<bool>, cursor: BitCursor)
    requires
        stands_at(check_sum_bits(sum) + rest, cursor),
    ensures
        read_check_sum(cursor) == (
            Ok::<Option<u8>, LatmError>(sum),
            cursor.advance(check_sum_bits(sum).len() as int),
        ),
        stands_at(rest, cursor.advance(check_sum_bits(sum).len() as int)),
{
    lemma2_to64();
    match sum {
        Some(value) => {
            lemma_value_bits_len(value as nat, 8);
            lemma_two_then(seq![true], value_bits(value as nat, 8), rest);
            lemma_stands_bit(true, value_bits(value as nat, 8) + rest, cursor);
            lemma_stands_field(value as nat, 8, rest, cursor.advance(1));
        },
        None => {
            lemma_stands_bit(false, rest, cursor);
        },
    }
}

/// The single stream behind the number of layers.
proof fn lemma_streams(state: WriterState, settings: Seq<bool>, rest: Seq<bool>, cursor: BitCursor)
    requires
        state.valid(),
        state.settings_delimited(),
        written_config(state.config, state.sbr_signaling_mode) == Ok::<Seq<bool>, AscError>(settings),
        stands_at(
            value_bits(0, 3) + (stream_config_bits(state.audio_mux_version, settings) + (frame_length_bits(
                state.fixed_frame_length_bits,
            ) + rest)),
            cursor,
        ),
    ensures
        ({
            let next = cursor.advance(
                (3 + stream_config_bits(state.audio_mux_version, settings).len() + frame_length_bits(
                    state.fixed_frame_length_bits,
                ).len()) as int,
            );
            &&& read_programs(cursor, state.audio_mux_version, 0, 1, Seq::empty()) == (
                Ok::<Seq<StreamFields>, LatmError>(state.sent_mux().streams),
                next,
            )
            &&& stands_at(rest, next)
        }),
{
    lemma2_to64();
    let version = state.audio_mux_version;
    let config = stream_config_bits(version, settings);
    let length = frame_length_bits(state.fixed_frame_length_bits);
    lemma_stands_field(0, 3, config + (length + rest), cursor);
    let second = cursor.advance(3);
    lemma_stream_config(state, settings, length + rest, second);
    let third = second.advance(config.len() as int);
    lemma_frame_length(state.fixed_frame_length_bits, rest, third);
    let fourth = third.advance(length.len() as int);
    let none = Seq::<StreamFields>::empty();
    let stream = state.sent_mux().streams[0];
    assert(read_stream(second, version, 0, 0, none) == (Ok::<StreamFields, LatmError>(stream), fourth));
    assert(none.push(stream) =~= state.sent_mux().streams);
    reveal_with_fuel(read_layers, 2);
    assert(read_layers(second, version, 0, 0, 1, none) == (
        Ok::<Seq<StreamFields>, LatmError>(none.push(stream)),
        fourth,
    ));
    reveal_with_fuel(read_programs, 2);
}

/// The configuration of the multiplex is read back as it was written.
pub proof fn lemma_mux_reads_back(state: WriterState, settings: Seq<bool>, rest: Seq<bool>, cursor: BitCursor)
    requires
        state.valid(),
        state.settings_delimited(),
        written_config(state.config, state.sbr_signaling_mode) == Ok::<Seq<bool>, AscError>(settings),
        stands_at(state.mux_bits(settings) + rest, cursor),
    ensures
        read_mux(cursor) == (
            Ok::<MuxFields, LatmError>(state.sent_mux()),
            cursor.advance(state.mux_bits(settings).len() as int),
        ),
        stands_at(rest, cursor.advance(state.mux_bits(settings).len() as int)),
{
    let version = version_bits(state.audio_mux_version);
    let counts = counts_bits(state.subframe_count);
    let layers = value_bits(0, 3);
    let config = stream_config_bits(state.audio_mux_version, settings);
    let length = frame_length_bits(state.fixed_frame_length_bits);
    let other = other_count_bits(state.audio_mux_version, state.other_data_bits);
    let sum = check_sum_bits(state.crc_check_sum);
    let after_length = other + (sum + rest);
    let after_counts = layers + (config + (length + after_length));
    lemma_two_then(other, sum, rest);
    lemma_two_then(length, other + sum, rest);
    lemma_two_then(config, length + (other + sum), rest);
    lemma_two_then(layers, config + (length + (other + sum)), rest);
    lemma_two_then(counts, layers + (config + (length + (other + sum))), rest);
    lemma_two_then(version, counts + (layers + (config + (length + (other + sum)))), rest);
    lemma_value_bits_len(0, 3);
    lemma_version(state.audio_mux_version, counts + after_counts, cursor);
    let second = cursor.advance(version.len() as int);
    lemma_counts(state.subframe_count, after_counts, second);
    let third = second.advance(11);
    lemma_streams(state, settings, after_length, third);
    let fourth = third.advance((3 + config.len() + length.len()) as int);
    lemma_other_count(state.audio_mux_version, state.other_data_bits, sum + rest, fourth);
    let fifth = fourth.advance(other.len() as int);
    lemma_check_sum(state.crc_check_sum, rest, fifth);
    assert(fifth.advance(sum.len() as int) == cursor.advance(state.mux_bits(settings).len() as int));
}

/// Whether all payloads have the bits that a fixed length asks for.
spec fn payloads_long_enough(fixed: Option<usize>, payloads: Seq<Seq<u8>>) -> bool {
    fixed matches Some(bits) ==> forall|i: int| 0 <= i < payloads.len() ==> bits <= 8 * #[trigger] payloads[i].len()
}

proof fn lemma_no_short_payload(bits: usize, payloads: Seq<Seq<u8>>)
    requires
        short_payload_error(bits, payloads) is None,
    ensures
        payloads_long_enough(Some(bits), payloads),
    decreases payloads.len(),
{
    if payloads.len() > 0 {
        lemma_no_short_payload(bits, payloads.skip(1));
        assert forall|i: int| 0 <= i < payloads.len() implies bits <= 8 * #[trigger] payloads[i].len() by {
            if i > 0 {
                assert(payloads[i] == payloads.skip(1)[i - 1]);
            }
        }
    }
}

proof fn lemma_one_payload(
    state: WriterState,
    subframe: u8,
    payload: Seq<u8>,
    done: Seq<PayloadFields>,
    rest: Seq<bool>,
    cursor: BitCursor,
)
    requires
        state.fixed_frame_length_bits matches Some(bits) ==> bits <= 8 * payload.len(),
        state.fixed_frame_length_bits is None ==> payload.len() * 8 <= usize::MAX,
        stands_at(payload_bits(state.fixed_frame_length_bits, payload) + rest, cursor),
    ensures
        ({
            let streams = state.sent_mux().streams;
            let (lengths, next) = read_lengths(cursor, streams, Seq::empty());
            let last = cursor.advance(payload_bits(state.fixed_frame_length_bits, payload).len() as int);
            &&& lengths matches Ok(list)
            &&& read_data(next, subframe, streams, list, 0, done) == (
                Ok::<Seq<PayloadFields>, LatmError>(done.push(state.sent_payload(subframe as int, payload))),
                last,
            )
            &&& stands_at(rest, last)
        }),
{
    let streams = state.sent_mux().streams;
    let none = Seq::<usize>::empty();
    reveal_with_fuel(read_lengths, 2);
    reveal_with_fuel(read_data, 2);
    match state.fixed_frame_length_bits {
        Some(bits) => {
            let data = bits_of(payload).take(bits as int);
            lemma_packed_reads_back(data, rest, cursor);
            assert(none.push(bits)[0] == bits);
        },
        None => {
            let length = payload_length_bits(payload.len());
            let data = bits_of(payload);
            lemma_two_then(length, data, rest);
            lemma_payload_length(payload.len(), 0, data + rest, cursor);
            let next = cursor.advance(length.len() as int);
            lemma_packed_reads_back(data, rest, next);
            lemma_packed_bytes(payload);
            assert(none.push((payload.len() * 8) as usize)[0] == payload.len() * 8);
        },
    }
}

proof fn lemma_payloads(
    state: WriterState,
    payloads: Seq<Seq<u8>>,
    subframe: u8,
    done: Seq<PayloadFields>,
    rest: Seq<bool>,
    cursor: BitCursor,
)
    requires
        subframe <= payloads.len() <= 4,
        done == state.sent_payloads(payloads).take(subframe as int),
        payloads_long_enough(state.fixed_frame_length_bits, payloads),
        state.fixed_frame_length_bits is None ==> forall|i: int|
            0 <= i < payloads.len() ==> 8 * #[trigger] payloads[i].len() <= usize::MAX,
        stands_at(payloads_bits(state.fixed_frame_length_bits, payloads.skip(subframe as int)) + rest, cursor),
    ensures
        ({
            let sent = payloads_bits(state.fixed_frame_length_bits, payloads.skip(subframe as int));
            &&& read_subframes(cursor, subframe, payloads.len() as u8, state.sent_mux().streams, done) == (
                Ok::<Seq<PayloadFields>, LatmError>(state.sent_payloads(payloads)),
                cursor.advance(sent.len() as int),
            )
            &&& stands_at(rest, cursor.advance(sent.len() as int))
        }),
    decreases payloads.len() - subframe,
{
    let fixed = state.fixed_frame_length_bits;
    let left = payloads.skip(subframe as int);
    if subframe == payloads.len() {
        assert(payloads_bits(fixed, left) + rest =~= rest);
        assert(done =~= state.sent_payloads(payloads));
    } else {
        let payload = payloads[subframe as int];
        assert(left[0] == payload);
        assert(left.skip(1) =~= payloads.skip(subframe + 1));
        let first = payload_bits(fixed, payload);
        let more = payloads_bits(fixed, left.skip(1));
        lemma_two_then(first, more, rest);
        lemma_one_payload(state, subframe, payload, done, more + rest, cursor);
        let next = cursor.advance(first.len() as int);
        let longer = done.push(state.sent_payload(subframe as int, payload));
        assert(longer =~= state.sent_payloads(payloads).take(subframe + 1));
        lemma_payloads(state, payloads, (subframe + 1) as u8, longer, rest, next);
    }
}

/// A stream of payloads is at least as long as each of them.
proof fn lemma_payloads_len(fixed: Option<usize>, payloads: Seq<Seq<u8>>, i: int)
    requires
        0 <= i < payloads.len(),
        fixed is None,
    ensures
        8 * payloads[i].len() <= payloads_bits(fixed, payloads).len(),
    decreases payloads.len(),
{
    if i > 0 {
        lemma_payloads_len(fixed, payloads.skip(1), i - 1);
    }
}

/// An element that was written is parsed as the payloads, the other data and,
/// where it carries it, the configuration that it was written from. One that
/// does not carry the configuration is parsed with the one kept from before.
pub proof fn lemma_written_element_parses(
    state: WriterState,
    payloads: Seq<Seq<u8>>,
    bits: Seq<bool>,
    previous: Option<MuxFields>,
)
    requires
        state.valid(),
        state.settings_delimited(),
        state.element_bits(payloads) == Ok::<Seq<bool>, LatmError>(bits),
        bits.len() <= usize::MAX,
        state.repeats_config() || previous == Some(state.sent_mux()),
    ensures
        read_element(BitCursor::at(bits + padding(bits.len()), 0), previous) == Ok::<ElementFields, LatmError>(
            state.sent_element(payloads),
        ),
{
    let fixed = state.fixed_frame_length_bits;
    let gap = padding(bits.len());
    let cursor = BitCursor::at(bits + gap, 0);
    let sent = payloads_bits(fixed, payloads);
    let other = bits_of(state.other_data).take(state.other_data_bits as int);
    assert(other.len() == state.other_data_bits);
    let body = sent + other;
    assert(stands_at(bits + gap, cursor)) by {
        assert(cursor.bits.subrange(0, cursor.bits.len() as int) =~= bits + gap);
    }
    lemma_two_then(sent, other, gap);
    let behind = if state.repeats_config() {
        let settings = written_config(state.config, state.sbr_signaling_mode)->Ok_0;
        let mux = state.mux_bits(settings);
        lemma_two_then(seq![false], mux + body, gap);
        lemma_two_then(mux, body, gap);
        lemma_stands_bit(false, mux + (body + gap), cursor);
        lemma_mux_reads_back(state, settings, body + gap, cursor.advance(1));
        cursor.advance(1).advance(mux.len() as int)
    } else {
        lemma_two_then(seq![true], body, gap);
        lemma_stands_bit(true, body + gap, cursor);
        cursor.advance(1)
    };
    assert(read_or_keep_mux(cursor, previous) == (
        Ok::<(bool, MuxFields), LatmError>((!state.repeats_config(), state.sent_mux())),
        behind,
    ));
    match fixed {
        Some(count) => lemma_no_short_payload(count, payloads),
        None => {
            assert forall|i: int| 0 <= i < payloads.len() implies 8 * #[trigger] payloads[i].len() <= usize::MAX by {
                lemma_payloads_len(fixed, payloads, i);
            }
        },
    }
    let none = Seq::<PayloadFields>::empty();
    assert(state.sent_payloads(payloads).take(0) =~= none);
    assert(payloads.skip(0) =~= payloads);
    lemma_payloads(state, payloads, 0, none, other + gap, behind);
    let last = behind.advance(sent.len() as int);
    lemma_packed_reads_back(other, gap, last);
    assert(state.sent_payloads(payloads)[0] == state.sent_payload(0, payloads[0]));
}

/// Writing an element leaves the configuration as it was, so that what a parser
/// kept from it holds for the next element.
pub proof fn lemma_next_element_keeps_mux(state: WriterState)
    requires
        state.valid(),
    ensures
        state.after_element().valid(),
        state.after_element().sent_mux() == state.sent_mux(),
        state.after_element().config_written,
        state.header_period == 0 ==> !state.after_element().repeats_config(),
{
}

/// The settings of a plain stream.
pub open spec fn plain_fields(state: PlainState) -> AscFields {
    AscFields {
        audio_object_type: 2,
        sampling_frequency_index: state.sampling_frequency_index,
        sampling_frequency: standard_frequency(state.sampling_frequency_index)->0,
        channel_configuration: state.channel_configuration,
        extension: None,
        ga_specific: Some(
            GaSpecificConfig {
                frame_length_flag: false,
                depends_on_core_coder: false,
                core_coder_delay: 0,
                layer: 0,
                extension_flag: false,
                resilience: no_resilience(),
            },
        ),
        eld_specific: None,
        usac_config: None,
        error_protection_config: None,
        bits_read: 0,
    }
}

/// A plain writer as a general writer.
pub open spec fn as_general(state: PlainState) -> WriterState {
    WriterState {
        config_written: state.config_written,
        ..WriterState::fresh(plain_fields(state), 0, 1, 0, 2)
    }
}

proof fn lemma_plain_settings(state: PlainState)
    requires
        state.sampling_frequency_index < 13,
        is_plain_channel_configuration(state.channel_configuration),
    ensures
        written_config(plain_fields(state), 2) == Ok::<Seq<bool>, AscError>(
            plain_settings_bits(state.sampling_frequency_index, state.channel_configuration),
        ),
{
    let fields = plain_fields(state);
    let ga = fields.ga_specific->0;
    let object_type = value_bits(2, 5);
    let rate = value_bits(state.sampling_frequency_index as nat, 4);
    let channels = value_bits(state.channel_configuration as nat, 4);
    assert(ga_bits(2, ga) =~= seq![false, false, false]);
    assert(specific_bits(fields) + protection_bits(None) =~= seq![false, false, false]);
    lemma_three_then(object_type, rate, channels, seq![false, false, false]);
}

/// An element of the plain writer is parsed as the block it was written from,
/// with the configuration kept from before where it does not carry it.
pub proof fn lemma_plain_element_parses(state: PlainState, block: Seq<u8>, previous: Option<MuxFields>)
    requires
        state.sampling_frequency_index < 13,
        is_plain_channel_configuration(state.channel_configuration),
        state.element_bits(block).len() <= usize::MAX,
        !state.config_written || previous == Some(as_general(state).sent_mux()),
    ensures
        ({
            let bits = state.element_bits(block);
            read_element(BitCursor::at(bits + padding(bits.len()), 0), previous) == Ok::<ElementFields, LatmError>(
                as_general(state).sent_element(seq![block]),
            )
        }),
        as_general(state).sent_element(seq![block]).raw_data_block == block,
{
    let general = as_general(state);
    lemma_plain_settings(state);
    let settings = plain_settings_bits(state.sampling_frequency_index, state.channel_configuration);
    let body = payload_bits(None, block);
    let none = Seq::<Seq<u8>>::empty();
    assert(seq![block].skip(1) =~= none);
    assert(payloads_bits(None, none) =~= Seq::<bool>::empty());
    assert(payloads_bits(None, seq![block]) =~= body);
    assert(bits_of(general.other_data).take(0) =~= Seq::<bool>::empty());
    assert(payloads_bits(None, seq![block]) + bits_of(general.other_data).take(0) =~= body);
    assert(general.mux_bits(settings) == plain_config_bits(state.sampling_frequency_index, state.channel_configuration));
    assert(general.element_bits(seq![block]) == Ok::<Seq<bool>, LatmError>(state.element_bits(block)));
    lemma_written_element_parses(general, seq![block], state.element_bits(block), previous);
}

/// The first element of a plain stream gives a parser the configuration with which
/// it parses the next ones; without it they are refused.
pub proof fn lemma_plain_stream_parses(state: PlainState, first: Seq<u8>, second: Seq<u8>, previous: Option<MuxFields>)
    requires
        state.sampling_frequency_index < 13,
        is_plain_channel_configuration(state.channel_configuration),
        !state.config_written,
        state.element_bits(first).len() <= usize::MAX,
        (PlainState { config_written: true, ..state }).element_bits(second).len() <= usize::MAX,
    ensures
        ({
            let opening = state.element_bits(first);
            let following = (PlainState { config_written: true, ..state }).element_bits(second);
            let next = BitCursor::at(following + padding(following.len()), 0);
            &&& read_element(BitCursor::at(opening + padding(opening.len()), 0), previous) matches Ok(element)
                && !element.use_same_stream_mux && element.raw_data_block == first && element.raw_data_block_bits == 8
                * first.len() && element.mux_config is Some && (read_element(next, element.mux_config) matches Ok(
                found,
            ) && found.use_same_stream_mux && found.raw_data_block == second && found.raw_data_block_bits == 8
                * second.len() && found.payloads.len() == 1 && found.config is None && found.mux_config is None
                && found.other_data.len() == 0 && found.other_data_bits == 0)
            &&& read_element(next, None) == Err::<ElementFields, LatmError>(LatmError::MissingStreamMuxConfig)
        }),
{
    let later = PlainState { config_written: true, ..state };
    let following = later.element_bits(second);
    let gap = padding(following.len());
    let next = BitCursor::at(following + gap, 0);
    lemma_plain_element_parses(state, first, previous);
    lemma_plain_element_parses(later, second, Some(as_general(later).sent_mux()));
    assert(as_general(later).sent_mux() == as_general(state).sent_mux());
    assert(bits_of(as_general(later).other_data).take(0) =~= Seq::<bool>::empty());
    lemma_two_then(seq![true], payload_bits(None, second), gap);
    assert(next.bits.subrange(0, next.bits.len() as int) =~= following + gap);
    lemma_stands_bit(true, payload_bits(None, second) + gap, next);
}

/// The bytes of the first two elements of a plain stream: the first ones give a
/// parser a configuration, with which the second ones are parsed; without one they
/// are refused.
pub proof fn lemma_plain_bytes_parse(
    state: PlainState,
    first: Seq<u8>,
    second: Seq<u8>,
    opening: Seq<u8>,
    following: Seq<u8>,
)
    requires
        state.sampling_frequency_index < 13,
        is_plain_channel_configuration(state.channel_configuration),
        !state.config_written,
        opening.len() * 8 <= usize::MAX,
        following.len() * 8 <= usize::MAX,
        ({
            let bits = state.element_bits(first);
            bits_of(opening) == bits + padding(bits.len())
        }),
        ({
            let bits = (PlainState { config_written: true, ..state }).element_bits(second);
            bits_of(following) == bits + padding(bits.len())
        }),
    ensures
        read_element(BitCursor::at(bits_of(opening), 0), None) matches Ok(element) && !element.use_same_stream_mux
            && element.raw_data_block == first && element.raw_data_block_bits == 8 * first.len() && element.mux_config
            is Some && (read_element(BitCursor::at(bits_of(following), 0), element.mux_config) matches Ok(found)
            && found.use_same_stream_mux && found.raw_data_block == second && found.raw_data_block_bits == 8
            * second.len() && found.payloads.len() == 1 && found.config is None && found.mux_config is None
            && found.other_data.len() == 0 && found.other_data_bits == 0),
        read_element(BitCursor::at(bits_of(following), 0), None) == Err::<ElementFields, LatmError>(
            LatmError::MissingStreamMuxConfig,
        ),
{
    assert(bits_of(opening).len() == opening.len() * 8);
    assert(bits_of(following).len() == following.len() * 8);
    lemma_plain_stream_parses(state, first, second, None);
}

/// A writer behind a number of elements.
pub open spec fn behind_elements(state: WriterState, count: nat) -> WriterState
    decreases count,
{
    if count == 0 {
        state
    } else {
        behind_elements(state, (count - 1) as nat).after_element()
    }
}

/// A new writer sends the configuration with the first element, and with every one that
/// is a whole number of periods behind it; without a period only with the first.
pub proof fn lemma_configuration_period(state: WriterState, count: nat)
    requires
        !state.config_written,
        state.frames_since_config == 0,
    ensures
        ({
            let later = behind_elements(state, count);
            let period = state.header_period as int;
            &&& period > 0 ==> later.repeats_config() == (count as int % period == 0)
            &&& period == 0 ==> later.repeats_config() == (count == 0)
        }),
{
    if count > 0 {
        lemma_frames_counted(state, count);
        let period = state.header_period as int;
        if period > 0 {
            let before = count - 1;
            vstd::arithmetic::div_mod::lemma_fundamental_div_mod(before, period);
            let rest = before % period;
            if rest + 1 == period {
                assert(count as int == period * (before / period + 1)) by (nonlinear_arith)
                    requires
                        before == period * (before / period) + rest,
                        rest + 1 == period,
                        count == before + 1,
                ;
                vstd::arithmetic::div_mod::lemma_fundamental_div_mod_converse(count as int, period, before / period + 1, 0);
            } else {
                vstd::arithmetic::div_mod::lemma_fundamental_div_mod_converse(
                    count as int,
                    period,
                    before / period,
                    rest + 1,
                );
            }
        }
    } else {
        let period = state.header_period as int;
        assert(period > 0 ==> 0int % period == 0);
    }
}

proof fn lemma_frames_counted(state: WriterState, count: nat)
    requires
        !state.config_written,
        state.frames_since_config == 0,
        count > 0,
    ensures
        ({
            let later = behind_elements(state, count);
            let period = state.header_period as int;
            &&& later.config_written
            &&& later.header_period == state.header_period
            &&& period > 0 ==> later.frames_since_config == (count - 1) % period + 1
        }),
    decreases count,
{
    let period = state.header_period as int;
    let before = behind_elements(state, (count - 1) as nat);
    if count > 1 {
        lemma_frames_counted(state, (count - 1) as nat);
        if period > 0 {
            let earlier = count - 2;
            vstd::arithmetic::div_mod::lemma_fundamental_div_mod(earlier, period);
            let rest = earlier % period;
            if rest + 1 == period {
                assert(count - 1 == period * (earlier / period + 1)) by (nonlinear_arith)
                    requires
                        earlier == period * (earlier / period) + rest,
                        rest + 1 == period,
                        count - 1 == earlier + 1,
                ;
                vstd::arithmetic::div_mod::lemma_fundamental_div_mod_converse(count - 1, period, earlier / period + 1, 0);
            } else {
                vstd::arithmetic::div_mod::lemma_fundamental_div_mod_converse(
                    count - 1,
                    period,
                    earlier / period,
                    rest + 1,
                );
            }
        }
    } else {
        assert(before == state);
        assert(period > 0 ==> 0int % period == 0);
    }
}

} // verus!
