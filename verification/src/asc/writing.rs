//! Writing settings.

use vstd::prelude::*;

use crate::bits::{bits_of, lemma_value_bits_len, padding, value_bits, BitWriter};

use super::config::{
    is_error_resilient, is_general_audio, names_frequency, standard_frequency, standard_frequency_at, AscError, AscExtension,
    AscFields, AudioSpecificConfig, EldSpecificConfig, GaSpecificConfig, ResilienceFlags, UsacConfig, UsacElementConfig,
    UsacFields,
};
use super::reading::{no_resilience, usac_frame_length};

verus! {

/// An object type in the stream.
pub open spec fn object_type_bits(object_type: u8) -> Seq<bool> {
    if object_type < 31 {
        value_bits(object_type as nat, 5)
    } else {
        value_bits(31, 5) + value_bits((object_type - 32) as nat, 6)
    }
}

/// A sampling frequency in the stream.
pub open spec fn frequency_bits(index: u8, frequency: u32) -> Seq<bool> {
    if index == 15 {
        value_bits(15, 4) + value_bits(frequency as nat, 24)
    } else {
        value_bits(index as nat, 4)
    }
}

/// Resilience flags in the stream.
pub open spec fn resilience_bits(flags: ResilienceFlags) -> Seq<bool> {
    seq![flags.section_data] + (seq![flags.scalefactor_data] + seq![flags.spectral_data])
}

/// The delay of the core coder in the stream.
pub open spec fn core_delay_bits(depends: bool, delay: u16) -> Seq<bool> {
    if depends {
        seq![true] + value_bits(delay as nat, 14)
    } else {
        seq![false]
    }
}

/// The layer in the stream.
pub open spec fn layer_bits(object_type: u8, layer: u8) -> Seq<bool> {
    if object_type == 20 {
        value_bits(layer as nat, 3)
    } else {
        Seq::empty()
    }
}

/// The extension of general audio settings in the stream.
pub open spec fn ga_extension_bits(object_type: u8, present: bool, flags: ResilienceFlags) -> Seq<bool> {
    if !present {
        seq![false]
    } else if is_error_resilient(object_type) {
        seq![true] + (resilience_bits(flags) + seq![false])
    } else {
        seq![true] + seq![false]
    }
}

/// General audio settings in the stream.
pub open spec fn ga_bits(object_type: u8, ga: GaSpecificConfig) -> Seq<bool> {
    seq![ga.frame_length_flag] + (core_delay_bits(ga.depends_on_core_coder, ga.core_coder_delay) + (layer_bits(
        object_type,
        ga.layer,
    ) + ga_extension_bits(object_type, ga.extension_flag, ga.resilience)))
}

/// Enhanced low delay settings in the stream.
pub open spec fn eld_bits(eld: EldSpecificConfig) -> Seq<bool> {
    seq![eld.frame_length_flag] + (resilience_bits(eld.resilience) + (seq![false] + value_bits(0, 4)))
}

/// One single channel element in the stream.
pub open spec fn usac_element_bits(element: UsacElementConfig) -> Seq<bool> {
    match element {
        UsacElementConfig::SingleChannel { noise_filling } => value_bits(0, 3) + seq![noise_filling],
    }
}

/// Elements in the stream.
pub open spec fn usac_elements_bits(elements: Seq<UsacElementConfig>) -> Seq<bool>
    decreases elements.len(),
{
    if elements.len() == 0 {
        Seq::empty()
    } else {
        usac_element_bits(elements[0]) + usac_elements_bits(elements.skip(1))
    }
}

/// The settings of unified speech and audio coding in the stream.
pub open spec fn usac_bits(usac: UsacFields) -> Seq<bool> {
    value_bits(usac.sampling_frequency_index as nat, 5) + (value_bits(usac.core_sbr_frame_length_index as nat, 3) + (
    value_bits(usac.channel_configuration_index as nat, 5) + (value_bits((usac.elements.len() - 1) as nat, 4) + (
    usac_elements_bits(usac.elements) + seq![false]))))
}

/// What settings begin with in the stream. A nested extension comes before the
/// core object type.
pub open spec fn head_bits(fields: AscFields, nested: bool) -> Seq<bool> {
    let rate = frequency_bits(fields.sampling_frequency_index, fields.sampling_frequency);
    let channels = value_bits(fields.channel_configuration as nat, 4);
    match fields.extension {
        Some(extension) if nested => object_type_bits(
            if extension.parametric_stereo {
                29
            } else {
                5
            },
        ) + (rate + (channels + (frequency_bits(extension.sampling_frequency_index, extension.sampling_frequency)
            + object_type_bits(fields.audio_object_type)))),
        _ => object_type_bits(fields.audio_object_type) + (rate + channels),
    }
}

/// What an object type asks for besides, in the stream.
pub open spec fn specific_bits(fields: AscFields) -> Seq<bool> {
    match (fields.ga_specific, fields.eld_specific, fields.usac_config) {
        (Some(ga), _, _) => ga_bits(fields.audio_object_type, ga),
        (_, Some(eld), _) => eld_bits(eld),
        (_, _, Some(usac)) => usac_bits(usac),
        _ => Seq::empty(),
    }
}

/// The error protection in the stream.
pub open spec fn protection_bits(protection: Option<u8>) -> Seq<bool> {
    match protection {
        Some(value) => value_bits(value as nat, 2),
        None => Seq::empty(),
    }
}

/// Parametric stereo announced behind band replication.
pub open spec fn stereo_sync_bits(present: bool) -> Seq<bool> {
    if present {
        value_bits(0x548, 11) + seq![true]
    } else {
        Seq::empty()
    }
}

/// An extension announced behind the settings.
pub open spec fn sync_bits(extension: AscExtension) -> Seq<bool> {
    value_bits(0x2b7, 11) + (value_bits(5, 5) + (seq![true] + (frequency_bits(
        extension.sampling_frequency_index,
        extension.sampling_frequency,
    ) + stereo_sync_bits(extension.parametric_stereo))))
}

/// Settings in the stream up to what may follow them.
pub open spec fn plain_bits(fields: AscFields, nested: bool) -> Seq<bool> {
    head_bits(fields, nested) + (specific_bits(fields) + protection_bits(fields.error_protection_config))
}

/// Settings in the stream. An extension is left out in mode 0, follows in mode 1
/// and is nested in mode 2.
pub open spec fn config_bits(fields: AscFields, mode: u8) -> Seq<bool> {
    match fields.extension {
        Some(extension) if mode == 1 => plain_bits(fields, false) + sync_bits(extension),
        _ => plain_bits(fields, mode == 2),
    }
}

/// Whether general audio settings hold only what their object type can send.
pub open spec fn ga_fits(object_type: u8, ga: GaSpecificConfig) -> bool {
    &&& ga.core_coder_delay < 0x4000
    &&& (ga.depends_on_core_coder || ga.core_coder_delay == 0)
    &&& ga.layer < 8
    &&& (object_type == 20 || ga.layer == 0)
    &&& ((ga.extension_flag && is_error_resilient(object_type)) || ga.resilience == no_resilience())
}

/// Whether the settings of unified speech and audio coding can be sent.
pub open spec fn usac_fits(usac: UsacFields) -> bool {
    &&& standard_frequency(usac.sampling_frequency_index) == Some(usac.sampling_frequency)
    &&& usac.core_sbr_frame_length_index <= 1
    &&& usac.core_frame_length == usac_frame_length(usac.core_sbr_frame_length_index as int)
    &&& usac.output_frame_length == usac.core_frame_length
    &&& usac.sbr_ratio_index == 0
    &&& 1 <= usac.channel_configuration_index <= 31
    &&& 1 <= usac.elements.len() <= 15
}

/// Whether settings hold what their object type asks for, and no more.
pub open spec fn specific_fits(fields: AscFields) -> bool {
    if is_general_audio(fields.audio_object_type) {
        (fields.ga_specific matches Some(ga) && ga_fits(fields.audio_object_type, ga)) && fields.eld_specific is None
            && fields.usac_config is None
    } else if fields.audio_object_type == 39 {
        fields.ga_specific is None && fields.eld_specific is Some && fields.usac_config is None
    } else if fields.audio_object_type == 42 {
        fields.ga_specific is None && fields.eld_specific is None && (fields.usac_config matches Some(usac) && usac_fits(
            usac,
        ))
    } else {
        false
    }
}

/// Whether settings can be sent.
pub open spec fn config_fits(fields: AscFields) -> bool {
    &&& names_frequency(fields.sampling_frequency_index, fields.sampling_frequency)
    &&& 1 <= fields.channel_configuration <= 15
    &&& (fields.extension matches Some(extension) ==> names_frequency(
        extension.sampling_frequency_index,
        extension.sampling_frequency,
    ))
    &&& specific_fits(fields)
    &&& if is_error_resilient(fields.audio_object_type) {
        fields.error_protection_config matches Some(value) && value < 2
    } else {
        fields.error_protection_config is None
    }
}

/// The stream of settings, or why there is none.
pub open spec fn written_config(fields: AscFields, mode: u8) -> Result<Seq<bool>, AscError> {
    if fields.extension is Some && mode > 2 {
        Err(AscError::InvalidSbrSignalingMode(mode))
    } else if !config_fits(fields) {
        Err(AscError::InvalidConfiguration)
    } else {
        Ok(config_bits(fields, mode))
    }
}

fn write_object_type(writer: &mut BitWriter, object_type: u8)
    requires
        object_type < 31 || 32 <= object_type < 96,
    ensures
        final(writer)@ == old(writer)@ + object_type_bits(object_type),
{
    if object_type < 31 {
        writer.write(object_type as u32, 5);
    } else {
        writer.write(31, 5);
        writer.write(object_type as u32 - 32, 6);
        assert(writer@ =~= old(writer)@ + object_type_bits(object_type));
    }
}

fn write_frequency(writer: &mut BitWriter, index: u8, frequency: u32)
    ensures
        final(writer)@ == old(writer)@ + frequency_bits(index, frequency),
{
    writer.write(index as u32, 4);
    if index == 15 {
        writer.write(frequency, 24);
        assert(writer@ =~= old(writer)@ + frequency_bits(index, frequency));
    }
}

fn write_resilience(writer: &mut BitWriter, flags: ResilienceFlags)
    ensures
        final(writer)@ == old(writer)@ + resilience_bits(flags),
{
    writer.write_bool(flags.section_data);
    writer.write_bool(flags.scalefactor_data);
    writer.write_bool(flags.spectral_data);
    assert(writer@ =~= old(writer)@ + resilience_bits(flags));
}

fn write_core_delay(writer: &mut BitWriter, depends: bool, delay: u16)
    ensures
        final(writer)@ == old(writer)@ + core_delay_bits(depends, delay),
{
    writer.write_bool(depends);
    if depends {
        writer.write(delay as u32, 14);
    }
    assert(writer@ =~= old(writer)@ + core_delay_bits(depends, delay));
}

fn write_layer(writer: &mut BitWriter, object_type: u8, layer: u8)
    ensures
        final(writer)@ == old(writer)@ + layer_bits(object_type, layer),
{
    if object_type == 20 {
        writer.write(layer as u32, 3);
    }
    assert(writer@ =~= old(writer)@ + layer_bits(object_type, layer));
}

fn write_ga_extension(writer: &mut BitWriter, object_type: u8, present: bool, flags: ResilienceFlags)
    ensures
        final(writer)@ == old(writer)@ + ga_extension_bits(object_type, present, flags),
{
    writer.write_bool(present);
    if present {
        if object_type == 17 || object_type == 20 || object_type == 23 || object_type == 39 {
            write_resilience(writer, flags);
        }
        writer.write_bool(false);
    }
    assert(writer@ =~= old(writer)@ + ga_extension_bits(object_type, present, flags));
}

proof fn lemma_joined(start: Seq<bool>, a: Seq<bool>, b: Seq<bool>, c: Seq<bool>, d: Seq<bool>)
    ensures
        start + a + b + c + d == start + (a + (b + (c + d))),
{
    assert(start + a + b + c + d =~= start + (a + (b + (c + d))));
}

fn write_ga(writer: &mut BitWriter, object_type: u8, ga: GaSpecificConfig)
    ensures
        final(writer)@ == old(writer)@ + ga_bits(object_type, ga),
{
    writer.write_bool(ga.frame_length_flag);
    assert(writer@ =~= old(writer)@ + seq![ga.frame_length_flag]);
    write_core_delay(writer, ga.depends_on_core_coder, ga.core_coder_delay);
    write_layer(writer, object_type, ga.layer);
    write_ga_extension(writer, object_type, ga.extension_flag, ga.resilience);
    proof {
        lemma_joined(
            old(writer)@,
            seq![ga.frame_length_flag],
            core_delay_bits(ga.depends_on_core_coder, ga.core_coder_delay),
            layer_bits(object_type, ga.layer),
            ga_extension_bits(object_type, ga.extension_flag, ga.resilience),
        );
    }
}

fn write_eld(writer: &mut BitWriter, eld: EldSpecificConfig)
    ensures
        final(writer)@ == old(writer)@ + eld_bits(eld),
{
    writer.write_bool(eld.frame_length_flag);
    write_resilience(writer, eld.resilience);
    writer.write_bool(false);
    writer.write(0, 4);
    assert(writer@ =~= old(writer)@ + eld_bits(eld));
}

fn write_usac_elements(writer: &mut BitWriter, elements: &Vec<UsacElementConfig>)
    ensures
        final(writer)@ == old(writer)@ + usac_elements_bits(elements@),
{
    let mut index: usize = 0;
    assert(elements@.skip(0) =~= elements@);
    while index < elements.len()
        invariant
            index <= elements@.len(),
            writer@ + usac_elements_bits(elements@.skip(index as int)) == old(writer)@ + usac_elements_bits(elements@),
        decreases elements@.len() - index,
    {
        let ghost before = writer@;
        match elements[index] {
            UsacElementConfig::SingleChannel { noise_filling } => {
                writer.write(0, 3);
                writer.write_bool(noise_filling);
            },
        }
        proof {
            let rest = elements@.skip(index as int);
            assert(rest[0] == elements@[index as int]);
            assert(rest.skip(1) =~= elements@.skip(index + 1));
            assert(writer@ =~= before + usac_element_bits(rest[0]));
            assert(writer@ + usac_elements_bits(rest.skip(1)) =~= before + usac_elements_bits(rest));
        }
        index = index + 1;
    }
    assert(writer@ =~= writer@ + usac_elements_bits(elements@.skip(index as int)));
}

fn write_usac(writer: &mut BitWriter, usac: &UsacConfig)
    requires
        1 <= usac.elements@.len() <= 15,
    ensures
        final(writer)@ == old(writer)@ + usac_bits(usac@),
{
    writer.write(usac.sampling_frequency_index as u32, 5);
    writer.write(usac.core_sbr_frame_length_index as u32, 3);
    writer.write(usac.channel_configuration_index as u32, 5);
    writer.write(usac.elements.len() as u32 - 1, 4);
    write_usac_elements(writer, &usac.elements);
    writer.write_bool(false);
    assert(writer@ =~= old(writer)@ + usac_bits(usac@));
}

fn write_head(writer: &mut BitWriter, config: &AudioSpecificConfig, nested: bool)
    requires
        config_fits(config@),
    ensures
        final(writer)@ == old(writer)@ + head_bits(config@, nested),
{
    match config.extension {
        Some(extension) => {
            if nested {
                let kind: u8 = if extension.parametric_stereo {
                    29
                } else {
                    5
                };
                write_object_type(writer, kind);
                write_frequency(writer, config.sampling_frequency_index, config.sampling_frequency);
                writer.write(config.channel_configuration as u32, 4);
                write_frequency(writer, extension.sampling_frequency_index, extension.sampling_frequency);
                write_object_type(writer, config.audio_object_type);
                assert(writer@ =~= old(writer)@ + head_bits(config@, nested));
                return;
            }
        },
        None => {},
    }
    write_object_type(writer, config.audio_object_type);
    write_frequency(writer, config.sampling_frequency_index, config.sampling_frequency);
    writer.write(config.channel_configuration as u32, 4);
    assert(writer@ =~= old(writer)@ + head_bits(config@, nested));
}

fn write_sync(writer: &mut BitWriter, extension: AscExtension)
    ensures
        final(writer)@ == old(writer)@ + sync_bits(extension),
{
    writer.write(0x2b7, 11);
    writer.write(5, 5);
    writer.write_bool(true);
    write_frequency(writer, extension.sampling_frequency_index, extension.sampling_frequency);
    let ghost before = writer@;
    if extension.parametric_stereo {
        writer.write(0x548, 11);
        writer.write_bool(true);
    }
    assert(writer@ =~= before + stereo_sync_bits(extension.parametric_stereo));
    assert(writer@ =~= old(writer)@ + sync_bits(extension));
}

fn frequency_named(index: u8, frequency: u32) -> (named: bool)
    ensures
        named == names_frequency(index, frequency),
{
    if index == 15 {
        frequency < 0x100_0000
    } else {
        standard_frequency_at(index) == Some(frequency)
    }
}

fn ga_sendable(object_type: u8, ga: GaSpecificConfig) -> (sendable: bool)
    ensures
        sendable == ga_fits(object_type, ga),
{
    let plain: bool = !ga.resilience.section_data && !ga.resilience.scalefactor_data && !ga.resilience.spectral_data;
    let resilient: bool = object_type == 17 || object_type == 20 || object_type == 23 || object_type == 39;
    ga.core_coder_delay < 0x4000 && (ga.depends_on_core_coder || ga.core_coder_delay == 0) && ga.layer < 8 && (object_type
        == 20 || ga.layer == 0) && ((ga.extension_flag && resilient) || plain)
}

fn usac_sendable(usac: &UsacConfig) -> (sendable: bool)
    ensures
        sendable == usac_fits(usac@),
{
    let samples: u16 = if usac.core_sbr_frame_length_index == 0 {
        768
    } else {
        1024
    };
    standard_frequency_at(usac.sampling_frequency_index) == Some(usac.sampling_frequency)
        && usac.core_sbr_frame_length_index <= 1 && usac.core_frame_length == samples && usac.output_frame_length == samples
        && usac.sbr_ratio_index == 0 && 1 <= usac.channel_configuration_index && usac.channel_configuration_index <= 31
        && 1 <= usac.elements.len() && usac.elements.len() <= 15
}

fn specific_sendable(config: &AudioSpecificConfig) -> (sendable: bool)
    ensures
        sendable == specific_fits(config@),
{
    match config.audio_object_type {
        2 | 17 | 20 | 23 => match config.ga_specific {
            Some(ga) => ga_sendable(config.audio_object_type, ga) && config.eld_specific.is_none()
                && config.usac_config.is_none(),
            None => false,
        },
        39 => config.ga_specific.is_none() && config.eld_specific.is_some() && config.usac_config.is_none(),
        42 => match &config.usac_config {
            Some(usac) => usac_sendable(usac) && config.ga_specific.is_none() && config.eld_specific.is_none(),
            None => false,
        },
        _ => false,
    }
}

fn sendable(config: &AudioSpecificConfig) -> (sendable: bool)
    ensures
        sendable == config_fits(config@),
{
    let extension_named: bool = match config.extension {
        Some(extension) => frequency_named(extension.sampling_frequency_index, extension.sampling_frequency),
        None => true,
    };
    let protected: bool = match config.audio_object_type {
        17 | 20 | 23 | 39 => match config.error_protection_config {
            Some(value) => value < 2,
            None => false,
        },
        _ => config.error_protection_config.is_none(),
    };
    frequency_named(config.sampling_frequency_index, config.sampling_frequency) && 1 <= config.channel_configuration
        && config.channel_configuration <= 15 && extension_named && specific_sendable(config) && protected
}

proof fn lemma_elements_len(elements: Seq<UsacElementConfig>)
    ensures
        usac_elements_bits(elements).len() == 4 * elements.len(),
    decreases elements.len(),
{
    lemma_value_bits_len(0, 3);
    if elements.len() > 0 {
        lemma_elements_len(elements.skip(1));
    }
}

proof fn lemma_specific_len(fields: AscFields)
    requires
        config_fits(fields),
    ensures
        specific_bits(fields).len() <= 80,
{
    match fields.ga_specific {
        Some(ga) => {
            lemma_value_bits_len(ga.core_coder_delay as nat, 14);
            lemma_value_bits_len(ga.layer as nat, 3);
        },
        None => {},
    }
    lemma_value_bits_len(0, 4);
    match fields.usac_config {
        Some(usac) => {
            lemma_value_bits_len(usac.sampling_frequency_index as nat, 5);
            lemma_value_bits_len(usac.core_sbr_frame_length_index as nat, 3);
            lemma_value_bits_len(usac.channel_configuration_index as nat, 5);
            lemma_value_bits_len((usac.elements.len() - 1) as nat, 4);
            lemma_elements_len(usac.elements);
        },
        None => {},
    }
}

proof fn lemma_frequency_len(index: u8, frequency: u32)
    ensures
        4 <= frequency_bits(index, frequency).len() <= 28,
{
    lemma_value_bits_len(15, 4);
    lemma_value_bits_len(index as nat, 4);
    lemma_value_bits_len(frequency as nat, 24);
}

proof fn lemma_object_type_len(object_type: u8)
    ensures
        5 <= object_type_bits(object_type).len() <= 11,
{
    lemma_value_bits_len(31, 5);
    lemma_value_bits_len(object_type as nat, 5);
    lemma_value_bits_len((object_type - 32) as nat, 6);
}

/// Settings take at most 228 bits.
pub proof fn lemma_config_len(fields: AscFields, mode: u8)
    requires
        config_fits(fields),
    ensures
        config_bits(fields, mode).len() <= 228,
{
    lemma_specific_len(fields);
    lemma_frequency_len(fields.sampling_frequency_index, fields.sampling_frequency);
    lemma_object_type_len(fields.audio_object_type);
    lemma_object_type_len(5);
    lemma_object_type_len(29);
    lemma_value_bits_len(fields.channel_configuration as nat, 4);
    lemma_value_bits_len(0x2b7, 11);
    lemma_value_bits_len(0x548, 11);
    lemma_value_bits_len(5, 5);
    match fields.extension {
        Some(extension) => {
            lemma_frequency_len(extension.sampling_frequency_index, extension.sampling_frequency);
        },
        None => {},
    }
    match fields.error_protection_config {
        Some(value) => {
            lemma_value_bits_len(value as nat, 2);
        },
        None => {},
    }
    assert(head_bits(fields, true).len() <= 82);
    assert(head_bits(fields, false).len() <= 82);
    assert(protection_bits(fields.error_protection_config).len() <= 2);
    assert(plain_bits(fields, true).len() <= 164);
    assert(plain_bits(fields, false).len() <= 164);
    match fields.extension {
        Some(extension) => {
            assert(sync_bits(extension).len() <= 57);
        },
        None => {},
    }
}

impl AudioSpecificConfig {
    /// Writes the settings. Gives the bytes, the last one filled up with zero
    /// bits, and the number of bits that count.
    pub fn to_bytes_with_sbr_signaling(&self, mode: u8) -> (result: Result<(Vec<u8>, usize), AscError>)
        ensures
            match written_config(self@, mode) {
                Ok(bits) => result matches Ok(written) && written.1 == bits.len() && bits_of(written.0@) == bits + padding(
                    bits.len(),
                ) && bits.len() <= 228,
                Err(error) => result == Err::<(Vec<u8>, usize), AscError>(error),
            },
    {
        if self.extension.is_some() && mode > 2 {
            return Err(AscError::InvalidSbrSignalingMode(mode));
        }
        if !sendable(self) {
            return Err(AscError::InvalidConfiguration);
        }
        let mut writer: BitWriter = BitWriter::new();
        write_head(&mut writer, self, mode == 2);
        let ghost after_head = writer@;
        match (&self.ga_specific, &self.eld_specific, &self.usac_config) {
            (Some(ga), _, _) => write_ga(&mut writer, self.audio_object_type, *ga),
            (_, Some(eld), _) => write_eld(&mut writer, *eld),
            (_, _, Some(usac)) => write_usac(&mut writer, usac),
            _ => {},
        }
        assert(writer@ =~= after_head + specific_bits(self@));
        let ghost after_specific = writer@;
        match self.error_protection_config {
            Some(value) => writer.write(value as u32, 2),
            None => {},
        }
        assert(writer@ =~= after_specific + protection_bits(self@.error_protection_config));
        assert(writer@ =~= plain_bits(self@, mode == 2));
        match self.extension {
            Some(extension) => {
                if mode == 1 {
                    write_sync(&mut writer, extension);
                }
            },
            None => {},
        }
        assert(writer@ =~= config_bits(self@, mode));
        proof {
            lemma_config_len(self@, mode);
        }
        let count: usize = writer.bits_written();
        Ok((writer.finish(), count))
    }

    /// Writes the settings with a nested extension.
    pub fn to_bytes(&self) -> (result: Result<Vec<u8>, AscError>)
        ensures
            match written_config(self@, 2) {
                Ok(bits) => result matches Ok(bytes) && bits_of(bytes@) == bits + padding(bits.len()),
                Err(error) => result == Err::<Vec<u8>, AscError>(error),
            },
    {
        match self.to_bytes_with_sbr_signaling(2) {
            Ok((bytes, _)) => Ok(bytes),
            Err(error) => Err(error),
        }
    }
}

} // verus!
