//! Reading gives back the settings that were written.

use vstd::arithmetic::power2::lemma2_to64;
use vstd::prelude::*;

use crate::bits::{
    lemma_four_then, lemma_stands_bit, lemma_stands_field, lemma_stands_split, lemma_three_then, lemma_two_then,
    lemma_value_bits_len, stands_at, value_bits, BitCursor, BitError,
};

use super::config::{
    is_error_resilient, names_frequency, AscError, AscExtension, AscFields, EldSpecificConfig, GaSpecificConfig,
    ResilienceFlags, UsacElementConfig, UsacFields,
};
use super::reading::{
    no_resilience, read_config, read_core_delay, read_eld, read_frequency, read_ga, read_ga_extension, read_head,
    read_layer, read_object_type, read_protection, read_resilience, read_specific, read_sync, read_usac,
    read_usac_elements, read_usac_head, read_whole, AscHead, AscSpecific,
};
use super::writing::{
    config_bits, config_fits, core_delay_bits, eld_bits, frequency_bits, ga_bits, ga_extension_bits, ga_fits, head_bits,
    layer_bits, object_type_bits, plain_bits, protection_bits, resilience_bits, specific_bits, specific_fits,
    stereo_sync_bits, sync_bits, usac_bits, usac_elements_bits, usac_fits,
};

verus! {

proof fn lemma_object_type(object_type: u8, rest: Seq<bool>, cursor: BitCursor)
    requires
        object_type < 31 || 32 <= object_type < 96,
        stands_at(object_type_bits(object_type) + rest, cursor),
    ensures
        read_object_type(cursor) == (
            Ok::<u8, AscError>(object_type),
            cursor.advance(object_type_bits(object_type).len() as int),
        ),
        stands_at(rest, cursor.advance(object_type_bits(object_type).len() as int)),
{
    lemma2_to64();
    lemma_value_bits_len(object_type as nat, 5);
    lemma_value_bits_len(31, 5);
    if object_type < 31 {
        lemma_stands_field(object_type as nat, 5, rest, cursor);
    } else {
        let more = (object_type - 32) as nat;
        lemma_value_bits_len(more, 6);
        assert(object_type_bits(object_type) + rest =~= value_bits(31, 5) + (value_bits(more, 6) + rest));
        lemma_stands_field(31, 5, value_bits(more, 6) + rest, cursor);
        lemma_stands_field(more, 6, rest, cursor.advance(5));
    }
}

proof fn lemma_frequency(index: u8, frequency: u32, rest: Seq<bool>, cursor: BitCursor)
    requires
        names_frequency(index, frequency),
        stands_at(frequency_bits(index, frequency) + rest, cursor),
    ensures
        read_frequency(cursor) == (
            Ok::<(u8, u32), AscError>((index, frequency)),
            cursor.advance(frequency_bits(index, frequency).len() as int),
        ),
        stands_at(rest, cursor.advance(frequency_bits(index, frequency).len() as int)),
{
    lemma2_to64();
    lemma_value_bits_len(index as nat, 4);
    if index == 15 {
        lemma_value_bits_len(frequency as nat, 24);
        assert(frequency_bits(index, frequency) + rest =~= value_bits(15, 4) + (value_bits(frequency as nat, 24) + rest));
        lemma_stands_field(15, 4, value_bits(frequency as nat, 24) + rest, cursor);
        lemma_stands_field(frequency as nat, 24, rest, cursor.advance(4));
    } else {
        lemma_stands_field(index as nat, 4, rest, cursor);
    }
}

proof fn lemma_resilience(flags: ResilienceFlags, rest: Seq<bool>, cursor: BitCursor)
    requires
        stands_at(resilience_bits(flags) + rest, cursor),
    ensures
        read_resilience(cursor) == (Ok::<ResilienceFlags, AscError>(flags), cursor.advance(3)),
        stands_at(rest, cursor.advance(3)),
{
    let last = seq![flags.spectral_data] + rest;
    let middle = seq![flags.scalefactor_data] + last;
    assert(resilience_bits(flags) + rest =~= seq![flags.section_data] + middle);
    lemma_stands_bit(flags.section_data, middle, cursor);
    lemma_stands_bit(flags.scalefactor_data, last, cursor.advance(1));
    lemma_stands_bit(flags.spectral_data, rest, cursor.advance(1).advance(1));
}

proof fn lemma_core_delay(depends: bool, delay: u16, rest: Seq<bool>, cursor: BitCursor)
    requires
        delay < 0x4000,
        depends || delay == 0,
        stands_at(core_delay_bits(depends, delay) + rest, cursor),
    ensures
        read_core_delay(cursor) == (
            Ok::<(bool, u16), AscError>((depends, delay)),
            cursor.advance(core_delay_bits(depends, delay).len() as int),
        ),
        stands_at(rest, cursor.advance(core_delay_bits(depends, delay).len() as int)),
{
    lemma2_to64();
    if depends {
        lemma_value_bits_len(delay as nat, 14);
        assert(core_delay_bits(depends, delay) + rest =~= seq![true] + (value_bits(delay as nat, 14) + rest));
        lemma_stands_bit(true, value_bits(delay as nat, 14) + rest, cursor);
        lemma_stands_field(delay as nat, 14, rest, cursor.advance(1));
    } else {
        lemma_stands_bit(false, rest, cursor);
    }
}

proof fn lemma_layer(object_type: u8, layer: u8, rest: Seq<bool>, cursor: BitCursor)
    requires
        layer < 8,
        object_type == 20 || layer == 0,
        stands_at(layer_bits(object_type, layer) + rest, cursor),
    ensures
        read_layer(object_type, cursor) == (
            Ok::<u8, AscError>(layer),
            cursor.advance(layer_bits(object_type, layer).len() as int),
        ),
        stands_at(rest, cursor.advance(layer_bits(object_type, layer).len() as int)),
{
    lemma2_to64();
    if object_type == 20 {
        lemma_value_bits_len(layer as nat, 3);
        lemma_stands_field(layer as nat, 3, rest, cursor);
    } else {
        assert(layer_bits(object_type, layer) + rest =~= rest);
    }
}

proof fn lemma_ga_extension(object_type: u8, present: bool, flags: ResilienceFlags, rest: Seq<bool>, cursor: BitCursor)
    requires
        (present && is_error_resilient(object_type)) || flags == no_resilience(),
        stands_at(ga_extension_bits(object_type, present, flags) + rest, cursor),
    ensures
        read_ga_extension(object_type, cursor) == (
            Ok::<(bool, ResilienceFlags), AscError>((present, flags)),
            cursor.advance(ga_extension_bits(object_type, present, flags).len() as int),
        ),
        stands_at(rest, cursor.advance(ga_extension_bits(object_type, present, flags).len() as int)),
{
    let bits = ga_extension_bits(object_type, present, flags);
    if !present {
        lemma_stands_bit(false, rest, cursor);
    } else if is_error_resilient(object_type) {
        let last = seq![false] + rest;
        assert(bits + rest =~= seq![true] + (resilience_bits(flags) + last));
        lemma_stands_bit(true, resilience_bits(flags) + last, cursor);
        lemma_resilience(flags, last, cursor.advance(1));
        lemma_stands_bit(false, rest, cursor.advance(1).advance(3));
    } else {
        assert(bits + rest =~= seq![true] + (seq![false] + rest));
        lemma_stands_bit(true, seq![false] + rest, cursor);
        lemma_stands_bit(false, rest, cursor.advance(1));
    }
}

proof fn lemma_ga(object_type: u8, ga: GaSpecificConfig, rest: Seq<bool>, cursor: BitCursor)
    requires
        ga_fits(object_type, ga),
        stands_at(ga_bits(object_type, ga) + rest, cursor),
    ensures
        read_ga(object_type, cursor) == (
            Ok::<GaSpecificConfig, AscError>(ga),
            cursor.advance(ga_bits(object_type, ga).len() as int),
        ),
        stands_at(rest, cursor.advance(ga_bits(object_type, ga).len() as int)),
{
    reveal(read_ga);
    let delay = core_delay_bits(ga.depends_on_core_coder, ga.core_coder_delay);
    let layer = layer_bits(object_type, ga.layer);
    let extension = ga_extension_bits(object_type, ga.extension_flag, ga.resilience);
    lemma_four_then(seq![ga.frame_length_flag], delay, layer, extension, rest);
    lemma_stands_bit(ga.frame_length_flag, delay + (layer + (extension + rest)), cursor);
    let second = cursor.advance(1);
    lemma_core_delay(ga.depends_on_core_coder, ga.core_coder_delay, layer + (extension + rest), second);
    let third = second.advance(delay.len() as int);
    lemma_layer(object_type, ga.layer, extension + rest, third);
    let fourth = third.advance(layer.len() as int);
    lemma_ga_extension(object_type, ga.extension_flag, ga.resilience, rest, fourth);
}

proof fn lemma_eld(eld: EldSpecificConfig, rest: Seq<bool>, cursor: BitCursor)
    requires
        stands_at(eld_bits(eld) + rest, cursor),
    ensures
        read_eld(cursor) == (Ok::<EldSpecificConfig, AscError>(eld), cursor.advance(eld_bits(eld).len() as int)),
        stands_at(rest, cursor.advance(eld_bits(eld).len() as int)),
{
    reveal(read_eld);
    lemma2_to64();
    lemma_value_bits_len(0, 4);
    let last = value_bits(0, 4) + rest;
    let flags = resilience_bits(eld.resilience);
    assert(eld_bits(eld) + rest =~= seq![eld.frame_length_flag] + (flags + (seq![false] + last)));
    lemma_stands_bit(eld.frame_length_flag, flags + (seq![false] + last), cursor);
    lemma_resilience(eld.resilience, seq![false] + last, cursor.advance(1));
    lemma_stands_bit(false, last, cursor.advance(1).advance(3));
    lemma_stands_field(0, 4, rest, cursor.advance(1).advance(3).advance(1));
}

proof fn lemma_usac_elements(
    elements: Seq<UsacElementConfig>,
    done: Seq<UsacElementConfig>,
    rest: Seq<bool>,
    cursor: BitCursor,
)
    requires
        stands_at(usac_elements_bits(elements) + rest, cursor),
    ensures
        read_usac_elements(cursor, (done.len() + elements.len()) as int, done) == (
            Ok::<Seq<UsacElementConfig>, AscError>(done + elements),
            cursor.advance(usac_elements_bits(elements).len() as int),
        ),
        stands_at(rest, cursor.advance(usac_elements_bits(elements).len() as int)),
    decreases elements.len(),
{
    if elements.len() == 0 {
        assert(usac_elements_bits(elements) + rest =~= rest);
        assert(done + elements =~= done);
    } else {
        lemma2_to64();
        lemma_value_bits_len(0, 3);
        let noise_filling = match elements[0] {
            UsacElementConfig::SingleChannel { noise_filling } => noise_filling,
        };
        let tail = usac_elements_bits(elements.skip(1)) + rest;
        assert(usac_elements_bits(elements) + rest =~= value_bits(0, 3) + (seq![noise_filling] + tail));
        lemma_stands_field(0, 3, seq![noise_filling] + tail, cursor);
        lemma_stands_bit(noise_filling, tail, cursor.advance(3));
        let next = cursor.advance(3).advance(1);
        lemma_usac_elements(elements.skip(1), done.push(elements[0]), rest, next);
        assert(done.push(elements[0]) + elements.skip(1) =~= done + elements);
    }
}

proof fn lemma_usac(usac: UsacFields, rest: Seq<bool>, cursor: BitCursor)
    requires
        usac_fits(usac),
        stands_at(usac_bits(usac) + rest, cursor),
    ensures
        read_usac(cursor) == (Ok::<UsacFields, AscError>(usac), cursor.advance(usac_bits(usac).len() as int)),
        stands_at(rest, cursor.advance(usac_bits(usac).len() as int)),
{
    reveal(read_usac);
    reveal(read_usac_head);
    lemma2_to64();
    let index = usac.sampling_frequency_index as nat;
    let length = usac.core_sbr_frame_length_index as nat;
    let channels = usac.channel_configuration_index as nat;
    let count = (usac.elements.len() - 1) as nat;
    lemma_value_bits_len(index, 5);
    lemma_value_bits_len(length, 3);
    lemma_value_bits_len(channels, 5);
    lemma_value_bits_len(count, 4);
    let elements = usac_elements_bits(usac.elements);
    let after_count = elements + (seq![false] + rest);
    let after_channels = value_bits(count, 4) + after_count;
    let after_length = value_bits(channels, 5) + after_channels;
    let after_index = value_bits(length, 3) + after_length;
    assert(usac_bits(usac) + rest =~= value_bits(index, 5) + after_index);
    lemma_stands_field(index, 5, after_index, cursor);
    lemma_stands_field(length, 3, after_length, cursor.advance(5));
    lemma_stands_field(channels, 5, after_channels, cursor.advance(5).advance(3));
    lemma_stands_field(count, 4, after_count, cursor.advance(5).advance(3).advance(5));
    let behind = cursor.advance(17);
    assert(cursor.advance(5).advance(3).advance(5).advance(4) == behind);
    lemma_usac_elements(usac.elements, Seq::empty(), seq![false] + rest, behind);
    assert(Seq::<UsacElementConfig>::empty() + usac.elements =~= usac.elements);
    lemma_stands_bit(false, rest, behind.advance(elements.len() as int));
}

/// Where the parts of a head with an extension in it are read one after another.
proof fn lemma_head_read(
    fields: AscFields,
    extension: AscExtension,
    first: BitCursor,
    second: BitCursor,
    third: BitCursor,
    fourth: BitCursor,
    fifth: BitCursor,
    last: BitCursor,
)
    requires
        fields.extension == Some(extension),
        1 <= fields.channel_configuration <= 15,
        read_object_type(first) == (
            Ok::<u8, AscError>(
                if extension.parametric_stereo {
                    29
                } else {
                    5
                },
            ),
            second,
        ),
        read_frequency(second) == (
            Ok::<(u8, u32), AscError>((fields.sampling_frequency_index, fields.sampling_frequency)),
            third,
        ),
        third.read(4) == (Ok::<nat, BitError>(fields.channel_configuration as nat), fourth),
        read_frequency(fourth) == (
            Ok::<(u8, u32), AscError>((extension.sampling_frequency_index, extension.sampling_frequency)),
            fifth,
        ),
        read_object_type(fifth) == (Ok::<u8, AscError>(fields.audio_object_type), last),
    ensures
        read_head(first) == (
            Ok::<AscHead, AscError>(
                AscHead {
                    audio_object_type: fields.audio_object_type,
                    sampling_frequency_index: fields.sampling_frequency_index,
                    sampling_frequency: fields.sampling_frequency,
                    channel_configuration: fields.channel_configuration,
                    extension: fields.extension,
                },
            ),
            last,
        ),
{
    reveal(read_head);
}

/// A head with an extension in it.
proof fn lemma_nested_head(fields: AscFields, extension: AscExtension, rest: Seq<bool>, cursor: BitCursor)
    requires
        config_fits(fields),
        fields.extension == Some(extension),
        stands_at(head_bits(fields, true) + rest, cursor),
    ensures
        read_head(cursor) == (
            Ok::<AscHead, AscError>(
                AscHead {
                    audio_object_type: fields.audio_object_type,
                    sampling_frequency_index: fields.sampling_frequency_index,
                    sampling_frequency: fields.sampling_frequency,
                    channel_configuration: fields.channel_configuration,
                    extension: fields.extension,
                },
            ),
            cursor.advance(head_bits(fields, true).len() as int),
        ),
        stands_at(rest, cursor.advance(head_bits(fields, true).len() as int)),
{
    lemma2_to64();
    let rate = frequency_bits(fields.sampling_frequency_index, fields.sampling_frequency);
    let channels = value_bits(fields.channel_configuration as nat, 4);
    lemma_value_bits_len(fields.channel_configuration as nat, 4);
    let core = object_type_bits(fields.audio_object_type);
    let kind: u8 = if extension.parametric_stereo {
        29
    } else {
        5
    };
    let extended = frequency_bits(extension.sampling_frequency_index, extension.sampling_frequency);
    let after_channels = extended + (core + rest);
    lemma_four_then(rate, channels, extended, core, rest);
    lemma_two_then(object_type_bits(kind), rate + (channels + (extended + core)), rest);
    lemma_object_type(kind, rate + (channels + after_channels), cursor);
    let second = cursor.advance(object_type_bits(kind).len() as int);
    lemma_frequency(fields.sampling_frequency_index, fields.sampling_frequency, channels + after_channels, second);
    let third = second.advance(rate.len() as int);
    lemma_stands_field(fields.channel_configuration as nat, 4, after_channels, third);
    let fourth = third.advance(4);
    lemma_frequency(extension.sampling_frequency_index, extension.sampling_frequency, core + rest, fourth);
    let fifth = fourth.advance(extended.len() as int);
    lemma_object_type(fields.audio_object_type, rest, fifth);
    let last = fifth.advance(core.len() as int);
    lemma_head_read(fields, extension, cursor, second, third, fourth, fifth, last);
    assert(last == cursor.advance(head_bits(fields, true).len() as int));
}

/// A head without an extension in it.
proof fn lemma_plain_head(fields: AscFields, nested: bool, rest: Seq<bool>, cursor: BitCursor)
    requires
        config_fits(fields),
        nested ==> fields.extension is None,
        stands_at(head_bits(fields, nested) + rest, cursor),
    ensures
        read_head(cursor) == (
            Ok::<AscHead, AscError>(
                AscHead {
                    audio_object_type: fields.audio_object_type,
                    sampling_frequency_index: fields.sampling_frequency_index,
                    sampling_frequency: fields.sampling_frequency,
                    channel_configuration: fields.channel_configuration,
                    extension: None,
                },
            ),
            cursor.advance(head_bits(fields, nested).len() as int),
        ),
        stands_at(rest, cursor.advance(head_bits(fields, nested).len() as int)),
{
    reveal(read_head);
    lemma2_to64();
    let rate = frequency_bits(fields.sampling_frequency_index, fields.sampling_frequency);
    let channels = value_bits(fields.channel_configuration as nat, 4);
    lemma_value_bits_len(fields.channel_configuration as nat, 4);
    let core = object_type_bits(fields.audio_object_type);
    lemma_three_then(core, rate, channels, rest);
    lemma_object_type(fields.audio_object_type, rate + (channels + rest), cursor);
    let second = cursor.advance(core.len() as int);
    lemma_frequency(fields.sampling_frequency_index, fields.sampling_frequency, channels + rest, second);
    lemma_stands_field(fields.channel_configuration as nat, 4, rest, second.advance(rate.len() as int));
}

proof fn lemma_head(fields: AscFields, nested: bool, rest: Seq<bool>, cursor: BitCursor)
    requires
        config_fits(fields),
        stands_at(head_bits(fields, nested) + rest, cursor),
    ensures
        read_head(cursor) == (
            Ok::<AscHead, AscError>(
                AscHead {
                    audio_object_type: fields.audio_object_type,
                    sampling_frequency_index: fields.sampling_frequency_index,
                    sampling_frequency: fields.sampling_frequency,
                    channel_configuration: fields.channel_configuration,
                    extension: if nested {
                        fields.extension
                    } else {
                        None
                    },
                },
            ),
            cursor.advance(head_bits(fields, nested).len() as int),
        ),
        stands_at(rest, cursor.advance(head_bits(fields, nested).len() as int)),
{
    match fields.extension {
        Some(extension) if nested => lemma_nested_head(fields, extension, rest, cursor),
        _ => lemma_plain_head(fields, nested, rest, cursor),
    }
}

proof fn lemma_specific(fields: AscFields, rest: Seq<bool>, cursor: BitCursor)
    requires
        specific_fits(fields),
        stands_at(specific_bits(fields) + rest, cursor),
    ensures
        read_specific(fields.audio_object_type, cursor) == (
            Ok::<AscSpecific, AscError>(
                AscSpecific {
                    ga_specific: fields.ga_specific,
                    eld_specific: fields.eld_specific,
                    usac_config: fields.usac_config,
                },
            ),
            cursor.advance(specific_bits(fields).len() as int),
        ),
        stands_at(rest, cursor.advance(specific_bits(fields).len() as int)),
{
    match (fields.ga_specific, fields.eld_specific, fields.usac_config) {
        (Some(ga), _, _) => lemma_ga(fields.audio_object_type, ga, rest, cursor),
        (_, Some(eld), _) => lemma_eld(eld, rest, cursor),
        (_, _, Some(usac)) => lemma_usac(usac, rest, cursor),
        _ => {},
    }
}

proof fn lemma_protection(fields: AscFields, rest: Seq<bool>, cursor: BitCursor)
    requires
        config_fits(fields),
        stands_at(protection_bits(fields.error_protection_config) + rest, cursor),
    ensures
        read_protection(fields.audio_object_type, cursor) == (
            Ok::<Option<u8>, AscError>(fields.error_protection_config),
            cursor.advance(protection_bits(fields.error_protection_config).len() as int),
        ),
        stands_at(rest, cursor.advance(protection_bits(fields.error_protection_config).len() as int)),
{
    lemma2_to64();
    match fields.error_protection_config {
        Some(value) => {
            lemma_value_bits_len(value as nat, 2);
            lemma_stands_field(value as nat, 2, rest, cursor);
        },
        None => {
            assert(protection_bits(fields.error_protection_config) + rest =~= rest);
        },
    }
}

/// Settings that stand in a stream are read back as they were, and the cursor
/// ends behind them. An extension comes back where it is nested, and is missing
/// where it is not.
pub proof fn lemma_config_reads_back(fields: AscFields, nested: bool, rest: Seq<bool>, cursor: BitCursor)
    requires
        config_fits(fields),
        stands_at(plain_bits(fields, nested) + rest, cursor),
    ensures
        read_config(cursor) == (
            Ok::<AscFields, AscError>(
                AscFields {
                    extension: if nested {
                        fields.extension
                    } else {
                        None
                    },
                    bits_read: plain_bits(fields, nested).len() as usize,
                    ..fields
                },
            ),
            cursor.advance(plain_bits(fields, nested).len() as int),
        ),
        stands_at(rest, cursor.advance(plain_bits(fields, nested).len() as int)),
{
    let head = head_bits(fields, nested);
    let specific = specific_bits(fields);
    let protection = protection_bits(fields.error_protection_config);
    assert(plain_bits(fields, nested) + rest =~= head + (specific + (protection + rest)));
    lemma_head(fields, nested, specific + (protection + rest), cursor);
    let second = cursor.advance(head.len() as int);
    lemma_specific(fields, protection + rest, second);
    let third = second.advance(specific.len() as int);
    lemma_protection(fields, rest, third);
}

proof fn lemma_sync(extension: AscExtension, rest: Seq<bool>, cursor: BitCursor)
    requires
        names_frequency(extension.sampling_frequency_index, extension.sampling_frequency),
        rest.len() < 8,
        stands_at(sync_bits(extension) + rest, cursor),
        cursor.remaining() == sync_bits(extension).len() + rest.len(),
    ensures
        read_sync(cursor) == (
            Ok::<Option<AscExtension>, AscError>(Some(extension)),
            cursor.advance(sync_bits(extension).len() as int),
        ),
{
    reveal(read_sync);
    lemma2_to64();
    lemma_value_bits_len(0x2b7, 11);
    lemma_value_bits_len(5, 5);
    lemma_value_bits_len(0x548, 11);
    let index = extension.sampling_frequency_index;
    let rate = frequency_bits(index, extension.sampling_frequency);
    let stereo = stereo_sync_bits(extension.parametric_stereo);
    let after_flag = rate + (stereo + rest);
    let after_kind = seq![true] + after_flag;
    let after_sync = value_bits(5, 5) + after_kind;
    assert(sync_bits(extension) + rest =~= value_bits(0x2b7, 11) + after_sync);
    lemma_stands_field(0x2b7, 11, after_sync, cursor);
    lemma_stands_field(5, 5, after_kind, cursor.advance(11));
    lemma_stands_bit(true, after_flag, cursor.advance(11).advance(5));
    let fourth = cursor.advance(11).advance(5).advance(1);
    lemma_frequency(index, extension.sampling_frequency, stereo + rest, fourth);
    let fifth = fourth.advance(rate.len() as int);
    assert(fifth.remaining() == stereo.len() + rest.len());
    if extension.parametric_stereo {
        assert(stereo + rest =~= value_bits(0x548, 11) + (seq![true] + rest));
        lemma_stands_field(0x548, 11, seq![true] + rest, fifth);
        lemma_stands_bit(true, rest, fifth.advance(11));
    }
}

/// Settings that fill a buffer, up to less than a byte, are read back as they
/// were; only an extension that was left out is missing.
pub proof fn lemma_whole_reads_back(fields: AscFields, mode: u8, rest: Seq<bool>, cursor: BitCursor)
    requires
        config_fits(fields),
        rest.len() < 8,
        stands_at(config_bits(fields, mode) + rest, cursor),
        cursor.remaining() == config_bits(fields, mode).len() + rest.len(),
    ensures
        read_whole(cursor).0 == Ok::<AscFields, AscError>(
            AscFields {
                extension: if mode == 1 || mode == 2 {
                    fields.extension
                } else {
                    None
                },
                bits_read: config_bits(fields, mode).len() as usize,
                ..fields
            },
        ),
{
    match fields.extension {
        Some(extension) if mode == 1 => {
            let plain = plain_bits(fields, false);
            assert(config_bits(fields, mode) + rest =~= plain + (sync_bits(extension) + rest));
            lemma_config_reads_back(fields, false, sync_bits(extension) + rest, cursor);
            lemma_sync(extension, rest, cursor.advance(plain.len() as int));
        },
        _ => {
            let plain = plain_bits(fields, mode == 2);
            lemma_config_reads_back(fields, mode == 2, rest, cursor);
            assert(cursor.advance(plain.len() as int).remaining() < 16);
            reveal(read_sync);
        },
    }
}

/// An extension that follows the settings is announced by the sync word `0x2b7`, the
/// object type of band replication and a flag; its frequency comes next, and parametric
/// stereo behind the sync word `0x548`.
pub proof fn lemma_extension_layout(fields: AscFields, extension: AscExtension, rest: Seq<bool>, cursor: BitCursor)
    requires
        config_fits(fields),
        fields.extension == Some(extension),
        stands_at(config_bits(fields, 1) + rest, cursor),
    ensures
        ({
            let start = cursor.advance(plain_bits(fields, false).len() as int);
            let index = extension.sampling_frequency_index;
            let stereo = if index == 15 {
                45int
            } else {
                21
            };
            &&& start.read(11).0 == Ok::<nat, BitError>(0x2b7)
            &&& start.advance(11).read(5).0 == Ok::<nat, BitError>(5)
            &&& start.advance(16).read_flag().0 == Ok::<bool, BitError>(true)
            &&& start.advance(17).read(4).0 == Ok::<nat, BitError>(index as nat)
            &&& index == 15 ==> start.advance(21).read(24).0 == Ok::<nat, BitError>(extension.sampling_frequency as nat)
            &&& extension.parametric_stereo ==> start.advance(stereo).read(11).0 == Ok::<nat, BitError>(0x548)
                && start.advance(stereo + 11).read_flag().0 == Ok::<bool, BitError>(true)
            &&& config_bits(fields, 1).len() == plain_bits(fields, false).len() + stereo + if extension.parametric_stereo {
                12int
            } else {
                0
            }
        }),
{
    lemma2_to64();
    lemma_value_bits_len(0x2b7, 11);
    lemma_value_bits_len(5, 5);
    lemma_value_bits_len(0x548, 11);
    let plain = plain_bits(fields, false);
    let index = extension.sampling_frequency_index;
    lemma_value_bits_len(index as nat, 4);
    lemma_value_bits_len(15, 4);
    lemma_value_bits_len(extension.sampling_frequency as nat, 24);
    let rate = frequency_bits(index, extension.sampling_frequency);
    let stereo = stereo_sync_bits(extension.parametric_stereo);
    let after_flag = rate + (stereo + rest);
    let after_kind = seq![true] + after_flag;
    let after_sync = value_bits(5, 5) + after_kind;
    assert(config_bits(fields, 1) + rest =~= plain + (value_bits(0x2b7, 11) + after_sync));
    lemma_stands_split(plain, value_bits(0x2b7, 11) + after_sync, cursor);
    let start = cursor.advance(plain.len() as int);
    lemma_stands_field(0x2b7, 11, after_sync, start);
    lemma_stands_field(5, 5, after_kind, start.advance(11));
    assert(start.advance(11).advance(5) == start.advance(16));
    lemma_stands_bit(true, after_flag, start.advance(16));
    assert(start.advance(16).advance(1) == start.advance(17));
    let place = if index == 15 {
        assert(after_flag =~= value_bits(15, 4) + (value_bits(extension.sampling_frequency as nat, 24) + (stereo + rest)));
        lemma_stands_field(15, 4, value_bits(extension.sampling_frequency as nat, 24) + (stereo + rest), start.advance(17));
        assert(start.advance(17).advance(4) == start.advance(21));
        lemma_stands_field(extension.sampling_frequency as nat, 24, stereo + rest, start.advance(21));
        assert(start.advance(21).advance(24) == start.advance(45));
        45int
    } else {
        lemma_stands_field(index as nat, 4, stereo + rest, start.advance(17));
        assert(start.advance(17).advance(4) == start.advance(21));
        21int
    };
    if extension.parametric_stereo {
        assert(stereo + rest =~= value_bits(0x548, 11) + (seq![true] + rest));
        lemma_stands_field(0x548, 11, seq![true] + rest, start.advance(place));
        assert(start.advance(place).advance(11) == start.advance(place + 11));
        lemma_stands_bit(true, rest, start.advance(place + 11));
    }
}

/// An extension that is nested stands in front of the core object type: the object type
/// of band replication, or of parametric stereo, comes first, the frequency and the
/// channels of the core next, and the frequency of the extension behind them.
#[verifier::rlimit(30)]
pub proof fn lemma_nested_layout(fields: AscFields, extension: AscExtension, rest: Seq<bool>, cursor: BitCursor)
    requires
        config_fits(fields),
        fields.extension == Some(extension),
        fields.sampling_frequency_index != 15,
        extension.sampling_frequency_index != 15,
        fields.audio_object_type < 31,
        stands_at(config_bits(fields, 2) + rest, cursor),
    ensures
        cursor.read(5).0 == Ok::<nat, BitError>(
            if extension.parametric_stereo {
                29
            } else {
                5
            },
        ),
        cursor.advance(5).read(4).0 == Ok::<nat, BitError>(fields.sampling_frequency_index as nat),
        cursor.advance(9).read(4).0 == Ok::<nat, BitError>(fields.channel_configuration as nat),
        cursor.advance(13).read(4).0 == Ok::<nat, BitError>(extension.sampling_frequency_index as nat),
        cursor.advance(17).read(5).0 == Ok::<nat, BitError>(fields.audio_object_type as nat),
{
    lemma2_to64();
    let kind: nat = if extension.parametric_stereo {
        29
    } else {
        5
    };
    let rate = fields.sampling_frequency_index as nat;
    let channels = fields.channel_configuration as nat;
    let extended = extension.sampling_frequency_index as nat;
    let core = fields.audio_object_type as nat;
    let tail = specific_bits(fields) + protection_bits(fields.error_protection_config) + rest;
    let after_extended = value_bits(core, 5) + tail;
    let after_channels = value_bits(extended, 4) + after_extended;
    let after_rate = value_bits(channels, 4) + after_channels;
    let after_kind = value_bits(rate, 4) + after_rate;
    assert(config_bits(fields, 2) + rest =~= value_bits(kind, 5) + after_kind);
    lemma_stands_field(kind, 5, after_kind, cursor);
    lemma_stands_field(rate, 4, after_rate, cursor.advance(5));
    assert(cursor.advance(5).advance(4) == cursor.advance(9));
    lemma_stands_field(channels, 4, after_channels, cursor.advance(9));
    assert(cursor.advance(9).advance(4) == cursor.advance(13));
    lemma_stands_field(extended, 4, after_extended, cursor.advance(13));
    assert(cursor.advance(13).advance(4) == cursor.advance(17));
    lemma_stands_field(core, 5, tail, cursor.advance(17));
}

} // verus!
