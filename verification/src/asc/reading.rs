//! Reading settings from a bit stream.

use vstd::arithmetic::power2::lemma2_to64;
use vstd::prelude::*;

use crate::bits::{bits_of, BitCursor, BitReader};

use super::config::{
    is_error_resilient, is_general_audio, standard_frequency, standard_frequency_at, usac_view, AscError, AscExtension,
    AscFields, AudioSpecificConfig, EldSpecificConfig, GaSpecificConfig, ResilienceFlags, UsacConfig, UsacElementConfig,
    UsacFields,
};

verus! {

/// Reading an object type, which a second field extends.
pub open spec fn read_object_type(cursor: BitCursor) -> (Result<u8, AscError>, BitCursor) {
    match cursor.read(5) {
        (Err(error), next) => (Err(AscError::Bit(error)), next),
        (Ok(value), next) => if value == 31 {
            match next.read(6) {
                (Err(error), last) => (Err(AscError::Bit(error)), last),
                (Ok(more), last) => (Ok((32 + more) as u8), last),
            }
        } else {
            (Ok(value as u8), next)
        },
    }
}

/// Reading a sampling frequency: its index and its value.
pub open spec fn read_frequency(cursor: BitCursor) -> (Result<(u8, u32), AscError>, BitCursor) {
    match cursor.read(4) {
        (Err(error), next) => (Err(AscError::Bit(error)), next),
        (Ok(index), next) => if index == 15 {
            match next.read(24) {
                (Err(error), last) => (Err(AscError::Bit(error)), last),
                (Ok(frequency), last) => (Ok((15u8, frequency as u32)), last),
            }
        } else {
            match standard_frequency(index as u8) {
                Some(frequency) => (Ok((index as u8, frequency)), next),
                None => (Err(AscError::InvalidSamplingFrequencyIndex(index as u8)), next),
            }
        },
    }
}

/// Reading three resilience flags.
pub open spec fn read_resilience(cursor: BitCursor) -> (Result<ResilienceFlags, AscError>, BitCursor) {
    match cursor.read_flag() {
        (Err(error), next) => (Err(AscError::Bit(error)), next),
        (Ok(section_data), next) => match next.read_flag() {
            (Err(error), next) => (Err(AscError::Bit(error)), next),
            (Ok(scalefactor_data), next) => match next.read_flag() {
                (Err(error), next) => (Err(AscError::Bit(error)), next),
                (Ok(spectral_data), next) => (
                    Ok(ResilienceFlags { section_data, scalefactor_data, spectral_data }),
                    next,
                ),
            },
        },
    }
}

/// No resilience.
pub open spec fn no_resilience() -> ResilienceFlags {
    ResilienceFlags { section_data: false, scalefactor_data: false, spectral_data: false }
}

/// Reading the delay of the core coder, where one is used.
pub open spec fn read_core_delay(cursor: BitCursor) -> (Result<(bool, u16), AscError>, BitCursor) {
    match cursor.read_flag() {
        (Err(error), next) => (Err(AscError::Bit(error)), next),
        (Ok(false), next) => (Ok((false, 0u16)), next),
        (Ok(true), next) => match next.read(14) {
            (Err(error), last) => (Err(AscError::Bit(error)), last),
            (Ok(delay), last) => (Ok((true, delay as u16)), last),
        },
    }
}

/// Reading the layer, which only scalable coding has.
pub open spec fn read_layer(object_type: u8, cursor: BitCursor) -> (Result<u8, AscError>, BitCursor) {
    if object_type == 20 {
        match cursor.read(3) {
            (Err(error), next) => (Err(AscError::Bit(error)), next),
            (Ok(layer), next) => (Ok(layer as u8), next),
        }
    } else {
        (Ok(0u8), cursor)
    }
}

/// Reading the extension flag and what it announces.
pub open spec fn read_ga_extension(object_type: u8, cursor: BitCursor) -> (
    Result<(bool, ResilienceFlags), AscError>,
    BitCursor,
) {
    match cursor.read_flag() {
        (Err(error), next) => (Err(AscError::Bit(error)), next),
        (Ok(false), next) => (Ok((false, no_resilience())), next),
        (Ok(true), next) => {
            let (flags, next) = if is_error_resilient(object_type) {
                read_resilience(next)
            } else {
                (Ok(no_resilience()), next)
            };
            match flags {
                Err(error) => (Err(error), next),
                Ok(resilience) => match next.read_flag() {
                    (Err(error), next) => (Err(AscError::Bit(error)), next),
                    (Ok(_), next) => (Ok((true, resilience)), next),
                },
            }
        },
    }
}

/// Reading general audio settings.
#[verifier::opaque]
pub open spec fn read_ga(object_type: u8, cursor: BitCursor) -> (Result<GaSpecificConfig, AscError>, BitCursor) {
    match cursor.read_flag() {
        (Err(error), next) => (Err(AscError::Bit(error)), next),
        (Ok(frame_length_flag), next) => match read_core_delay(next) {
            (Err(error), next) => (Err(error), next),
            (Ok((depends_on_core_coder, core_coder_delay)), next) => match read_layer(object_type, next) {
                (Err(error), next) => (Err(error), next),
                (Ok(layer), next) => match read_ga_extension(object_type, next) {
                    (Err(error), next) => (Err(error), next),
                    (Ok((extension_flag, resilience)), next) => (
                        Ok(
                            GaSpecificConfig {
                                frame_length_flag,
                                depends_on_core_coder,
                                core_coder_delay,
                                layer,
                                extension_flag,
                                resilience,
                            },
                        ),
                        next,
                    ),
                },
            },
        },
    }
}

/// Reading enhanced low delay settings.
#[verifier::opaque]
pub open spec fn read_eld(cursor: BitCursor) -> (Result<EldSpecificConfig, AscError>, BitCursor) {
    match cursor.read_flag() {
        (Err(error), next) => (Err(AscError::Bit(error)), next),
        (Ok(frame_length_flag), next) => match read_resilience(next) {
            (Err(error), next) => (Err(error), next),
            (Ok(resilience), next) => match next.read_flag() {
                (Err(error), next) => (Err(AscError::Bit(error)), next),
                (Ok(true), next) => (Err(AscError::UnsupportedLdSbr), next),
                (Ok(false), next) => match next.read(4) {
                    (Err(error), next) => (Err(AscError::Bit(error)), next),
                    (Ok(kind), next) => if kind == 0 {
                        (Ok(EldSpecificConfig { frame_length_flag, resilience }), next)
                    } else {
                        (Err(AscError::UnsupportedEldExtension(kind as u8)), next)
                    },
                },
            },
        },
    }
}

/// Reading single channel elements behind those read before, until there are
/// `count` of them.
pub open spec fn read_usac_elements(cursor: BitCursor, count: int, elements: Seq<UsacElementConfig>) -> (
    Result<Seq<UsacElementConfig>, AscError>,
    BitCursor,
)
    decreases count - elements.len(),
{
    if elements.len() >= count {
        (Ok(elements), cursor)
    } else {
        match cursor.read(3) {
            (Err(error), next) => (Err(AscError::Bit(error)), next),
            (Ok(kind), next) => if kind != 0 {
                (Err(AscError::UnsupportedUsacConfig), next)
            } else {
                match next.read_flag() {
                    (Err(error), next) => (Err(AscError::Bit(error)), next),
                    (Ok(noise_filling), next) => read_usac_elements(
                        next,
                        count,
                        elements.push(UsacElementConfig::SingleChannel { noise_filling }),
                    ),
                }
            },
        }
    }
}

/// The settings that go with a frame length index without band replication.
pub open spec fn usac_frame_length(index: int) -> u16 {
    if index == 0 {
        768
    } else {
        1024
    }
}

/// Reading the fixed part of the settings of unified speech and audio coding:
/// the frequency index, the frame length index, the channel configuration and
/// the number of elements.
#[verifier::opaque]
pub open spec fn read_usac_head(cursor: BitCursor) -> (Result<(u8, u32, u8, u8, int), AscError>, BitCursor) {
    match cursor.read(5) {
        (Err(error), next) => (Err(AscError::Bit(error)), next),
        (Ok(index), next) => match standard_frequency(index as u8) {
            None => (Err(AscError::InvalidSamplingFrequencyIndex(index as u8)), next),
            Some(frequency) => match next.read(3) {
                (Err(error), next) => (Err(AscError::Bit(error)), next),
                (Ok(length), next) => if length > 1 {
                    (Err(AscError::UnsupportedUsacConfig), next)
                } else {
                    match next.read(5) {
                        (Err(error), next) => (Err(AscError::Bit(error)), next),
                        (Ok(channels), next) => if channels == 0 {
                            (Err(AscError::UnsupportedUsacConfig), next)
                        } else {
                            match next.read(4) {
                                (Err(error), next) => (Err(AscError::Bit(error)), next),
                                (Ok(count), next) => if count == 15 {
                                    (Err(AscError::UnsupportedUsacConfig), next)
                                } else {
                                    (Ok((index as u8, frequency, length as u8, channels as u8, count as int + 1)), next)
                                },
                            }
                        },
                    }
                },
            },
        },
    }
}

/// Reading the settings of unified speech and audio coding.
#[verifier::opaque]
pub open spec fn read_usac(cursor: BitCursor) -> (Result<UsacFields, AscError>, BitCursor) {
    match read_usac_head(cursor) {
        (Err(error), next) => (Err(error), next),
        (Ok((index, frequency, length, channels, count)), next) => match read_usac_elements(next, count, Seq::empty()) {
            (Err(error), next) => (Err(error), next),
            (Ok(elements), next) => match next.read_flag() {
                (Err(error), next) => (Err(AscError::Bit(error)), next),
                (Ok(true), next) => (Err(AscError::UnsupportedUsacConfig), next),
                (Ok(false), next) => (
                    Ok(
                        UsacFields {
                            sampling_frequency_index: index,
                            sampling_frequency: frequency,
                            core_sbr_frame_length_index: length,
                            core_frame_length: usac_frame_length(length as int),
                            output_frame_length: usac_frame_length(length as int),
                            sbr_ratio_index: 0,
                            channel_configuration_index: channels,
                            elements,
                        },
                    ),
                    next,
                ),
            },
        },
    }
}

/// What the settings begin with.
pub struct AscHead {
    pub audio_object_type: u8,
    pub sampling_frequency_index: u8,
    pub sampling_frequency: u32,
    pub channel_configuration: u8,
    pub extension: Option<AscExtension>,
}

/// Reading what the settings begin with: object type, sampling frequency and
/// channels, and where the object type is that of an extension, the frequency
/// of the extension and the core object type.
#[verifier::opaque]
pub open spec fn read_head(cursor: BitCursor) -> (Result<AscHead, AscError>, BitCursor) {
    match read_object_type(cursor) {
        (Err(error), next) => (Err(error), next),
        (Ok(object_type), next) => match read_frequency(next) {
            (Err(error), next) => (Err(error), next),
            (Ok((index, frequency)), next) => match next.read(4) {
                (Err(error), next) => (Err(AscError::Bit(error)), next),
                (Ok(channels), next) => if channels == 0 {
                    (Err(AscError::UnsupportedChannelConfiguration(0)), next)
                } else if object_type == 5 || object_type == 29 {
                    match read_frequency(next) {
                        (Err(error), next) => (Err(error), next),
                        (Ok((extended_index, extended_frequency)), next) => match read_object_type(next) {
                            (Err(error), next) => (Err(error), next),
                            (Ok(core), next) => (
                                Ok(
                                    AscHead {
                                        audio_object_type: core,
                                        sampling_frequency_index: index,
                                        sampling_frequency: frequency,
                                        channel_configuration: channels as u8,
                                        extension: Some(
                                            AscExtension {
                                                sampling_frequency_index: extended_index,
                                                sampling_frequency: extended_frequency,
                                                parametric_stereo: object_type == 29,
                                            },
                                        ),
                                    },
                                ),
                                next,
                            ),
                        },
                    }
                } else {
                    (
                        Ok(
                            AscHead {
                                audio_object_type: object_type,
                                sampling_frequency_index: index,
                                sampling_frequency: frequency,
                                channel_configuration: channels as u8,
                                extension: None,
                            },
                        ),
                        next,
                    )
                },
            },
        },
    }
}

/// What an object type asks for besides.
pub struct AscSpecific {
    pub ga_specific: Option<GaSpecificConfig>,
    pub eld_specific: Option<EldSpecificConfig>,
    pub usac_config: Option<UsacFields>,
}

/// Reading what an object type asks for besides.
pub open spec fn read_specific(object_type: u8, cursor: BitCursor) -> (Result<AscSpecific, AscError>, BitCursor) {
    if is_general_audio(object_type) {
        match read_ga(object_type, cursor) {
            (Err(error), next) => (Err(error), next),
            (Ok(ga), next) => (Ok(AscSpecific { ga_specific: Some(ga), eld_specific: None, usac_config: None }), next),
        }
    } else if object_type == 39 {
        match read_eld(cursor) {
            (Err(error), next) => (Err(error), next),
            (Ok(eld), next) => (Ok(AscSpecific { ga_specific: None, eld_specific: Some(eld), usac_config: None }), next),
        }
    } else if object_type == 42 {
        match read_usac(cursor) {
            (Err(error), next) => (Err(error), next),
            (Ok(usac), next) => (Ok(AscSpecific { ga_specific: None, eld_specific: None, usac_config: Some(usac) }), next),
        }
    } else {
        (Err(AscError::UnsupportedAudioObjectType(object_type)), cursor)
    }
}

/// Reading the error protection of an error-resilient object type.
pub open spec fn read_protection(object_type: u8, cursor: BitCursor) -> (Result<Option<u8>, AscError>, BitCursor) {
    if is_error_resilient(object_type) {
        match cursor.read(2) {
            (Err(error), next) => (Err(AscError::Bit(error)), next),
            (Ok(value), next) => if value < 2 {
                (Ok(Some(value as u8)), next)
            } else {
                (Err(AscError::UnsupportedErrorProtectionConfig(value as u8)), next)
            },
        }
    } else {
        (Ok(None), cursor)
    }
}

/// Reading settings up to what may follow them.
pub open spec fn read_config(cursor: BitCursor) -> (Result<AscFields, AscError>, BitCursor) {
    match read_head(cursor) {
        (Err(error), next) => (Err(error), next),
        (Ok(head), next) => match read_specific(head.audio_object_type, next) {
            (Err(error), next) => (Err(error), next),
            (Ok(specific), next) => match read_protection(head.audio_object_type, next) {
                (Err(error), next) => (Err(error), next),
                (Ok(protection), next) => (
                    Ok(
                        AscFields {
                            audio_object_type: head.audio_object_type,
                            sampling_frequency_index: head.sampling_frequency_index,
                            sampling_frequency: head.sampling_frequency,
                            channel_configuration: head.channel_configuration,
                            extension: head.extension,
                            ga_specific: specific.ga_specific,
                            eld_specific: specific.eld_specific,
                            usac_config: specific.usac_config,
                            error_protection_config: protection,
                            bits_read: (next.pos - cursor.pos) as usize,
                        },
                    ),
                    next,
                ),
            },
        },
    }
}

/// Reading whether parametric stereo is announced behind band replication.
pub open spec fn read_stereo_sync(cursor: BitCursor) -> (Result<bool, AscError>, BitCursor) {
    if cursor.remaining() < 12 {
        (Ok(false), cursor)
    } else {
        match cursor.read(11) {
            (Err(error), next) => (Err(AscError::Bit(error)), next),
            (Ok(sync), next) => if sync == 0x548 {
                match next.read_flag() {
                    (Err(error), next) => (Err(AscError::Bit(error)), next),
                    (Ok(present), next) => (Ok(present), next),
                }
            } else {
                (Ok(false), cursor)
            },
        }
    }
}

/// Reading an extension that is announced behind the settings. Where nothing is
/// announced, nothing is consumed.
#[verifier::opaque]
pub open spec fn read_sync(cursor: BitCursor) -> (Result<Option<AscExtension>, AscError>, BitCursor) {
    if cursor.remaining() < 16 {
        (Ok(None), cursor)
    } else {
        match cursor.read(11) {
            (Err(error), next) => (Err(AscError::Bit(error)), next),
            (Ok(sync), next) => if sync != 0x2b7 {
                (Ok(None), cursor)
            } else {
                match next.read(5) {
                    (Err(error), next) => (Err(AscError::Bit(error)), next),
                    (Ok(kind), next) => if kind != 5 {
                        (Ok(None), cursor)
                    } else {
                        match next.read_flag() {
                            (Err(error), next) => (Err(AscError::Bit(error)), next),
                            (Ok(false), next) => (Ok(None), next),
                            (Ok(true), next) => match read_frequency(next) {
                                (Err(error), next) => (Err(error), next),
                                (Ok((index, frequency)), next) => match read_stereo_sync(next) {
                                    (Err(error), next) => (Err(error), next),
                                    (Ok(parametric_stereo), next) => (
                                        Ok(
                                            Some(
                                                AscExtension {
                                                    sampling_frequency_index: index,
                                                    sampling_frequency: frequency,
                                                    parametric_stereo,
                                                },
                                            ),
                                        ),
                                        next,
                                    ),
                                },
                            },
                        }
                    },
                }
            },
        }
    }
}

/// Reading settings that fill a buffer, with an extension behind them.
pub open spec fn read_whole(cursor: BitCursor) -> (Result<AscFields, AscError>, BitCursor) {
    match read_config(cursor) {
        (Err(error), next) => (Err(error), next),
        (Ok(fields), next) => if fields.extension is Some {
            (Ok(fields), next)
        } else {
            match read_sync(next) {
                (Err(error), next) => (Err(error), next),
                (Ok(extension), next) => (
                    Ok(AscFields { extension, bits_read: (next.pos - cursor.pos) as usize, ..fields }),
                    next,
                ),
            }
        },
    }
}

/// Whether an outcome is the one that the model gives.
pub open spec fn outcome_is(result: Result<AudioSpecificConfig, AscError>, expected: Result<AscFields, AscError>) -> bool {
    match expected {
        Ok(fields) => result matches Ok(config) && config@ == fields,
        Err(error) => result == Err::<AudioSpecificConfig, AscError>(error),
    }
}

fn parse_object_type(reader: &mut BitReader<'_>) -> (result: Result<u8, AscError>)
    ensures
        (result, final(reader)@) == read_object_type(old(reader)@),
        old(reader)@.leads_to(final(reader)@),
{
    proof {
        lemma2_to64();
    }
    match reader.read_u8(5) {
        Err(error) => Err(AscError::Bit(error)),
        Ok(value) => {
            if value == 31 {
                match reader.read_u8(6) {
                    Err(error) => Err(AscError::Bit(error)),
                    Ok(more) => Ok(32 + more),
                }
            } else {
                Ok(value)
            }
        },
    }
}

fn parse_frequency(reader: &mut BitReader<'_>) -> (result: Result<(u8, u32), AscError>)
    ensures
        (result, final(reader)@) == read_frequency(old(reader)@),
        old(reader)@.leads_to(final(reader)@),
{
    proof {
        lemma2_to64();
    }
    match reader.read_u8(4) {
        Err(error) => Err(AscError::Bit(error)),
        Ok(index) => {
            if index == 15 {
                match reader.read_u32(24) {
                    Err(error) => Err(AscError::Bit(error)),
                    Ok(frequency) => Ok((15, frequency)),
                }
            } else {
                match standard_frequency_at(index) {
                    Some(frequency) => Ok((index, frequency)),
                    None => Err(AscError::InvalidSamplingFrequencyIndex(index)),
                }
            }
        },
    }
}

fn parse_resilience(reader: &mut BitReader<'_>) -> (result: Result<ResilienceFlags, AscError>)
    ensures
        (result, final(reader)@) == read_resilience(old(reader)@),
        old(reader)@.leads_to(final(reader)@),
{
    let section_data: bool = match reader.read_bool() {
        Err(error) => return Err(AscError::Bit(error)),
        Ok(flag) => flag,
    };
    let scalefactor_data: bool = match reader.read_bool() {
        Err(error) => return Err(AscError::Bit(error)),
        Ok(flag) => flag,
    };
    let spectral_data: bool = match reader.read_bool() {
        Err(error) => return Err(AscError::Bit(error)),
        Ok(flag) => flag,
    };
    Ok(ResilienceFlags { section_data, scalefactor_data, spectral_data })
}

fn parse_core_delay(reader: &mut BitReader<'_>) -> (result: Result<(bool, u16), AscError>)
    ensures
        (result, final(reader)@) == read_core_delay(old(reader)@),
        old(reader)@.leads_to(final(reader)@),
{
    match reader.read_bool() {
        Err(error) => Err(AscError::Bit(error)),
        Ok(false) => Ok((false, 0)),
        Ok(true) => match reader.read_u16(14) {
            Err(error) => Err(AscError::Bit(error)),
            Ok(delay) => Ok((true, delay)),
        },
    }
}

fn parse_layer(object_type: u8, reader: &mut BitReader<'_>) -> (result: Result<u8, AscError>)
    ensures
        (result, final(reader)@) == read_layer(object_type, old(reader)@),
        old(reader)@.leads_to(final(reader)@),
{
    let _ = reader.bits_read();
    if object_type == 20 {
        match reader.read_u8(3) {
            Err(error) => Err(AscError::Bit(error)),
            Ok(layer) => Ok(layer),
        }
    } else {
        Ok(0)
    }
}

fn error_resilient(object_type: u8) -> (resilient: bool)
    ensures
        resilient == is_error_resilient(object_type),
{
    object_type == 17 || object_type == 20 || object_type == 23 || object_type == 39
}

fn parse_ga_extension(object_type: u8, reader: &mut BitReader<'_>) -> (result: Result<
    (bool, ResilienceFlags),
    AscError,
>)
    ensures
        (result, final(reader)@) == read_ga_extension(object_type, old(reader)@),
        old(reader)@.leads_to(final(reader)@),
{
    let nothing: ResilienceFlags = ResilienceFlags { section_data: false, scalefactor_data: false, spectral_data: false };
    match reader.read_bool() {
        Err(error) => Err(AscError::Bit(error)),
        Ok(false) => Ok((false, nothing)),
        Ok(true) => {
            let resilience: ResilienceFlags = if error_resilient(object_type) {
                match parse_resilience(reader) {
                    Err(error) => return Err(error),
                    Ok(flags) => flags,
                }
            } else {
                nothing
            };
            match reader.read_bool() {
                Err(error) => Err(AscError::Bit(error)),
                Ok(_) => Ok((true, resilience)),
            }
        },
    }
}

fn parse_ga(object_type: u8, reader: &mut BitReader<'_>) -> (result: Result<GaSpecificConfig, AscError>)
    ensures
        (result, final(reader)@) == read_ga(object_type, old(reader)@),
        old(reader)@.leads_to(final(reader)@),
{
    proof {
        reveal(read_ga);
    }
    let frame_length_flag: bool = match reader.read_bool() {
        Err(error) => return Err(AscError::Bit(error)),
        Ok(flag) => flag,
    };
    let (depends_on_core_coder, core_coder_delay): (bool, u16) = match parse_core_delay(reader) {
        Err(error) => return Err(error),
        Ok(delay) => delay,
    };
    let layer: u8 = match parse_layer(object_type, reader) {
        Err(error) => return Err(error),
        Ok(layer) => layer,
    };
    match parse_ga_extension(object_type, reader) {
        Err(error) => Err(error),
        Ok((extension_flag, resilience)) => Ok(
            GaSpecificConfig {
                frame_length_flag,
                depends_on_core_coder,
                core_coder_delay,
                layer,
                extension_flag,
                resilience,
            },
        ),
    }
}

fn parse_eld(reader: &mut BitReader<'_>) -> (result: Result<EldSpecificConfig, AscError>)
    ensures
        (result, final(reader)@) == read_eld(old(reader)@),
        old(reader)@.leads_to(final(reader)@),
{
    proof {
        reveal(read_eld);
        lemma2_to64();
    }
    let frame_length_flag: bool = match reader.read_bool() {
        Err(error) => return Err(AscError::Bit(error)),
        Ok(flag) => flag,
    };
    let resilience: ResilienceFlags = match parse_resilience(reader) {
        Err(error) => return Err(error),
        Ok(flags) => flags,
    };
    match reader.read_bool() {
        Err(error) => return Err(AscError::Bit(error)),
        Ok(true) => return Err(AscError::UnsupportedLdSbr),
        Ok(false) => {},
    }
    match reader.read_u8(4) {
        Err(error) => Err(AscError::Bit(error)),
        Ok(kind) => {
            if kind == 0 {
                Ok(EldSpecificConfig { frame_length_flag, resilience })
            } else {
                Err(AscError::UnsupportedEldExtension(kind))
            }
        },
    }
}

fn parse_usac_elements(reader: &mut BitReader<'_>, count: usize) -> (result: Result<Vec<UsacElementConfig>, AscError>)
    ensures
        ({
            let (expected, next) = read_usac_elements(old(reader)@, count as int, Seq::empty());
            &&& final(reader)@ == next
            &&& match expected {
                Ok(elements) => result matches Ok(list) && list@ == elements,
                Err(error) => result == Err::<Vec<UsacElementConfig>, AscError>(error),
            }
        }),
        old(reader)@.leads_to(final(reader)@),
{
    let _ = reader.bits_read();
    let mut elements: Vec<UsacElementConfig> = Vec::new();
    while elements.len() < count
        invariant
            elements@.len() <= count,
            old(reader)@.leads_to(reader@),
            read_usac_elements(old(reader)@, count as int, Seq::empty()) == read_usac_elements(
                reader@,
                count as int,
                elements@,
            ),
        decreases count - elements@.len(),
    {
        proof {
            lemma2_to64();
        }
        match reader.read_u8(3) {
            Err(error) => return Err(AscError::Bit(error)),
            Ok(kind) => {
                if kind != 0 {
                    return Err(AscError::UnsupportedUsacConfig);
                }
            },
        }
        match reader.read_bool() {
            Err(error) => return Err(AscError::Bit(error)),
            Ok(noise_filling) => {
                elements.push(UsacElementConfig::SingleChannel { noise_filling });
            },
        }
    }
    Ok(elements)
}

fn parse_usac_head(reader: &mut BitReader<'_>) -> (result: Result<(u8, u32, u8, u8, usize), AscError>)
    ensures
        ({
            let (expected, next) = read_usac_head(old(reader)@);
            &&& final(reader)@ == next
            &&& match expected {
                Ok(head) => result matches Ok(actual) && (actual.0, actual.1, actual.2, actual.3, actual.4 as int) == head,
                Err(error) => result == Err::<(u8, u32, u8, u8, usize), AscError>(error),
            }
        }),
        old(reader)@.leads_to(final(reader)@),
{
    proof {
        reveal(read_usac_head);
        lemma2_to64();
    }
    let index: u8 = match reader.read_u8(5) {
        Err(error) => return Err(AscError::Bit(error)),
        Ok(index) => index,
    };
    let frequency: u32 = match standard_frequency_at(index) {
        None => return Err(AscError::InvalidSamplingFrequencyIndex(index)),
        Some(frequency) => frequency,
    };
    let length: u8 = match reader.read_u8(3) {
        Err(error) => return Err(AscError::Bit(error)),
        Ok(length) => length,
    };
    if length > 1 {
        return Err(AscError::UnsupportedUsacConfig);
    }
    let channels: u8 = match reader.read_u8(5) {
        Err(error) => return Err(AscError::Bit(error)),
        Ok(channels) => channels,
    };
    if channels == 0 {
        return Err(AscError::UnsupportedUsacConfig);
    }
    match reader.read_u8(4) {
        Err(error) => Err(AscError::Bit(error)),
        Ok(count) => {
            if count == 15 {
                Err(AscError::UnsupportedUsacConfig)
            } else {
                Ok((index, frequency, length, channels, count as usize + 1))
            }
        },
    }
}

fn parse_usac(reader: &mut BitReader<'_>) -> (result: Result<UsacConfig, AscError>)
    ensures
        ({
            let (expected, next) = read_usac(old(reader)@);
            &&& final(reader)@ == next
            &&& match expected {
                Ok(fields) => result matches Ok(config) && config@ == fields,
                Err(error) => result == Err::<UsacConfig, AscError>(error),
            }
        }),
        old(reader)@.leads_to(final(reader)@),
{
    proof {
        reveal(read_usac);
    }
    let (index, frequency, length, channels, count): (u8, u32, u8, u8, usize) = match parse_usac_head(reader) {
        Err(error) => return Err(error),
        Ok(head) => head,
    };
    let elements: Vec<UsacElementConfig> = match parse_usac_elements(reader, count) {
        Err(error) => return Err(error),
        Ok(elements) => elements,
    };
    match reader.read_bool() {
        Err(error) => return Err(AscError::Bit(error)),
        Ok(true) => return Err(AscError::UnsupportedUsacConfig),
        Ok(false) => {},
    }
    let samples: u16 = if length == 0 {
        768
    } else {
        1024
    };
    Ok(
        UsacConfig {
            sampling_frequency_index: index,
            sampling_frequency: frequency,
            core_sbr_frame_length_index: length,
            core_frame_length: samples,
            output_frame_length: samples,
            sbr_ratio_index: 0,
            channel_configuration_index: channels,
            elements,
        },
    )
}

fn parse_head(reader: &mut BitReader<'_>) -> (result: Result<AscHead, AscError>)
    ensures
        (result, final(reader)@) == read_head(old(reader)@),
        old(reader)@.leads_to(final(reader)@),
{
    proof {
        reveal(read_head);
        lemma2_to64();
    }
    let object_type: u8 = match parse_object_type(reader) {
        Err(error) => return Err(error),
        Ok(object_type) => object_type,
    };
    let (index, frequency): (u8, u32) = match parse_frequency(reader) {
        Err(error) => return Err(error),
        Ok(frequency) => frequency,
    };
    let channels: u8 = match reader.read_u8(4) {
        Err(error) => return Err(AscError::Bit(error)),
        Ok(channels) => channels,
    };
    if channels == 0 {
        return Err(AscError::UnsupportedChannelConfiguration(0));
    }
    if object_type == 5 || object_type == 29 {
        let (extended_index, extended_frequency): (u8, u32) = match parse_frequency(reader) {
            Err(error) => return Err(error),
            Ok(frequency) => frequency,
        };
        let core: u8 = match parse_object_type(reader) {
            Err(error) => return Err(error),
            Ok(object_type) => object_type,
        };
        let extension: AscExtension = AscExtension {
            sampling_frequency_index: extended_index,
            sampling_frequency: extended_frequency,
            parametric_stereo: object_type == 29,
        };
        Ok(
            AscHead {
                audio_object_type: core,
                sampling_frequency_index: index,
                sampling_frequency: frequency,
                channel_configuration: channels,
                extension: Some(extension),
            },
        )
    } else {
        Ok(
            AscHead {
                audio_object_type: object_type,
                sampling_frequency_index: index,
                sampling_frequency: frequency,
                channel_configuration: channels,
                extension: None,
            },
        )
    }
}

fn parse_protection(object_type: u8, reader: &mut BitReader<'_>) -> (result: Result<Option<u8>, AscError>)
    ensures
        (result, final(reader)@) == read_protection(object_type, old(reader)@),
        old(reader)@.leads_to(final(reader)@),
{
    proof {
        lemma2_to64();
    }
    let _ = reader.bits_read();
    if error_resilient(object_type) {
        match reader.read_u8(2) {
            Err(error) => Err(AscError::Bit(error)),
            Ok(value) => {
                if value < 2 {
                    Ok(Some(value))
                } else {
                    Err(AscError::UnsupportedErrorProtectionConfig(value))
                }
            },
        }
    } else {
        Ok(None)
    }
}

fn parse_stereo_sync(reader: &mut BitReader<'_>) -> (result: Result<bool, AscError>)
    ensures
        (result, final(reader)@) == read_stereo_sync(old(reader)@),
        old(reader)@.leads_to(final(reader)@),
{
    proof {
        lemma2_to64();
    }
    let _ = reader.bits_read();
    if reader.remaining_bits() < 12 {
        return Ok(false);
    }
    match reader.read_u16(11) {
        Err(error) => Err(AscError::Bit(error)),
        Ok(sync) => {
            if sync == 0x548 {
                match reader.read_bool() {
                    Err(error) => Err(AscError::Bit(error)),
                    Ok(present) => Ok(present),
                }
            } else {
                let _ = reader.push_back(11);
                Ok(false)
            }
        },
    }
}

fn parse_sync(reader: &mut BitReader<'_>) -> (result: Result<Option<AscExtension>, AscError>)
    ensures
        (result, final(reader)@) == read_sync(old(reader)@),
        old(reader)@.leads_to(final(reader)@),
{
    proof {
        reveal(read_sync);
        lemma2_to64();
    }
    let _ = reader.bits_read();
    if reader.remaining_bits() < 16 {
        return Ok(None);
    }
    let sync: u16 = match reader.read_u16(11) {
        Err(error) => return Err(AscError::Bit(error)),
        Ok(sync) => sync,
    };
    if sync != 0x2b7 {
        let _ = reader.push_back(11);
        return Ok(None);
    }
    let kind: u8 = match reader.read_u8(5) {
        Err(error) => return Err(AscError::Bit(error)),
        Ok(kind) => kind,
    };
    if kind != 5 {
        let _ = reader.push_back(16);
        return Ok(None);
    }
    match reader.read_bool() {
        Err(error) => return Err(AscError::Bit(error)),
        Ok(false) => return Ok(None),
        Ok(true) => {},
    }
    let (index, frequency): (u8, u32) = match parse_frequency(reader) {
        Err(error) => return Err(error),
        Ok(frequency) => frequency,
    };
    let parametric_stereo: bool = match parse_stereo_sync(reader) {
        Err(error) => return Err(error),
        Ok(present) => present,
    };
    Ok(Some(AscExtension { sampling_frequency_index: index, sampling_frequency: frequency, parametric_stereo }))
}

impl AudioSpecificConfig {
    /// Reads settings; the reader ends behind them.
    pub fn parse_from_reader(reader: &mut BitReader<'_>) -> (result: Result<AudioSpecificConfig, AscError>)
        ensures
            final(reader)@ == read_config(old(reader)@).1,
            outcome_is(result, read_config(old(reader)@).0),
            old(reader)@.leads_to(final(reader)@),
    {
        let start: usize = reader.bits_read();
        let head: AscHead = match parse_head(reader) {
            Err(error) => return Err(error),
            Ok(head) => head,
        };
        let mut ga_specific: Option<GaSpecificConfig> = None;
        let mut eld_specific: Option<EldSpecificConfig> = None;
        let mut usac_config: Option<UsacConfig> = None;
        let object_type: u8 = head.audio_object_type;
        let ghost behind = reader@;
        if object_type == 2 || object_type == 17 || object_type == 20 || object_type == 23 {
            match parse_ga(object_type, reader) {
                Err(error) => return Err(error),
                Ok(config) => {
                    ga_specific = Some(config);
                },
            }
        } else if object_type == 39 {
            match parse_eld(reader) {
                Err(error) => return Err(error),
                Ok(config) => {
                    eld_specific = Some(config);
                },
            }
        } else if object_type == 42 {
            match parse_usac(reader) {
                Err(error) => return Err(error),
                Ok(config) => {
                    usac_config = Some(config);
                },
            }
        } else {
            return Err(AscError::UnsupportedAudioObjectType(object_type));
        }
        assert(read_specific(object_type, behind) == (
            Ok::<AscSpecific, AscError>(
                AscSpecific { ga_specific, eld_specific, usac_config: usac_view(usac_config) },
            ),
            reader@,
        ));
        let error_protection_config: Option<u8> = match parse_protection(object_type, reader) {
            Err(error) => return Err(error),
            Ok(protection) => protection,
        };
        let end: usize = reader.bits_read();
        Ok(
            AudioSpecificConfig {
                audio_object_type: object_type,
                sampling_frequency_index: head.sampling_frequency_index,
                sampling_frequency: head.sampling_frequency,
                channel_configuration: head.channel_configuration,
                extension: head.extension,
                ga_specific,
                eld_specific,
                usac_config,
                error_protection_config,
                bits_read: end - start,
            },
        )
    }

    /// Reads settings that fill a buffer, with an extension behind them.
    pub fn parse(data: &[u8]) -> (result: Result<AudioSpecificConfig, AscError>)
        requires
            data@.len() * 8 <= usize::MAX,
        ensures
            outcome_is(result, read_whole(BitCursor::at(bits_of(data@), 0)).0),
    {
        let mut reader: BitReader<'_> = BitReader::new(data);
        let mut config: AudioSpecificConfig = match AudioSpecificConfig::parse_from_reader(&mut reader) {
            Err(error) => return Err(error),
            Ok(config) => config,
        };
        if config.extension.is_some() {
            return Ok(config);
        }
        match parse_sync(&mut reader) {
            Err(error) => Err(error),
            Ok(extension) => {
                config.extension = extension;
                config.bits_read = reader.bits_read();
                Ok(config)
            },
        }
    }
}

} // verus!
