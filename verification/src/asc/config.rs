//! The settings themselves, their models and their errors.

use vstd::prelude::*;

use crate::bits::BitError;
use crate::text::{literal, numbered, numbered_text};

verus! {

/// Why a configuration cannot be read or written.
#[derive(Debug, Clone, Copy, PartialEq, Eq, Structural)]
pub enum AscError {
    Bit(BitError),
    InvalidSamplingFrequencyIndex(u8),
    InvalidSbrSignalingMode(u8),
    InvalidConfiguration,
    UnsupportedAudioObjectType(u8),
    UnsupportedChannelConfiguration(u8),
    UnsupportedErrorProtectionConfig(u8),
    UnsupportedLdSbr,
    UnsupportedEldExtension(u8),
    UnsupportedUsacConfig,
}

impl From<BitError> for AscError {
    fn from(value: BitError) -> (error: AscError) {
        AscError::Bit(value)
    }
}

impl vstd::std_specs::convert::FromSpecImpl<BitError> for AscError {
    open spec fn obeys_from_spec() -> bool {
        true
    }

    open spec fn from_spec(value: BitError) -> AscError {
        AscError::Bit(value)
    }
}

impl AscError {
    /// The diagnostic of this error.
    pub open spec fn message(self) -> Seq<char> {
        match self {
            AscError::Bit(error) => error.message(),
            AscError::InvalidSamplingFrequencyIndex(value) => numbered(
                "invalid sampling frequency index ",
                value as nat,
                "",
            ),
            AscError::InvalidSbrSignalingMode(value) => numbered("invalid SBR signaling mode ", value as nat, ""),
            AscError::InvalidConfiguration => "audio configuration cannot be written"@,
            AscError::UnsupportedAudioObjectType(value) => numbered("unsupported audio object type ", value as nat, ""),
            AscError::UnsupportedChannelConfiguration(value) => numbered(
                "unsupported channel configuration ",
                value as nat,
                "",
            ),
            AscError::UnsupportedErrorProtectionConfig(value) => numbered(
                "unsupported error protection configuration ",
                value as nat,
                "",
            ),
            AscError::UnsupportedLdSbr => "low-delay SBR is unsupported"@,
            AscError::UnsupportedEldExtension(value) => numbered("unsupported ELD extension ", value as nat, ""),
            AscError::UnsupportedUsacConfig => "unsupported USAC configuration"@,
        }
    }

    /// Renders the diagnostic of this error.
    pub fn to_string(&self) -> (message: String)
        ensures
            message@ == self.message(),
    {
        match self {
            AscError::Bit(error) => error.to_string(),
            AscError::InvalidSamplingFrequencyIndex(value) => numbered_text(
                "invalid sampling frequency index ",
                *value as u64,
                "",
            ),
            AscError::InvalidSbrSignalingMode(value) => numbered_text("invalid SBR signaling mode ", *value as u64, ""),
            AscError::InvalidConfiguration => literal("audio configuration cannot be written"),
            AscError::UnsupportedAudioObjectType(value) => numbered_text(
                "unsupported audio object type ",
                *value as u64,
                "",
            ),
            AscError::UnsupportedChannelConfiguration(value) => numbered_text(
                "unsupported channel configuration ",
                *value as u64,
                "",
            ),
            AscError::UnsupportedErrorProtectionConfig(value) => numbered_text(
                "unsupported error protection configuration ",
                *value as u64,
                "",
            ),
            AscError::UnsupportedLdSbr => literal("low-delay SBR is unsupported"),
            AscError::UnsupportedEldExtension(value) => numbered_text("unsupported ELD extension ", *value as u64, ""),
            AscError::UnsupportedUsacConfig => literal("unsupported USAC configuration"),
        }
    }
}

/// Which parts of a frame are coded to survive bit errors.
#[derive(Debug, Clone, Copy, PartialEq, Eq, Structural)]
pub struct ResilienceFlags {
    pub section_data: bool,
    pub scalefactor_data: bool,
    pub spectral_data: bool,
}

/// The settings of general audio object types.
#[derive(Debug, Clone, Copy, PartialEq, Eq, Structural)]
pub struct GaSpecificConfig {
    pub frame_length_flag: bool,
    pub depends_on_core_coder: bool,
    pub core_coder_delay: u16,
    pub layer: u8,
    pub extension_flag: bool,
    pub resilience: ResilienceFlags,
}

/// The settings of the enhanced low delay object type.
#[derive(Debug, Clone, Copy, PartialEq, Eq, Structural)]
pub struct EldSpecificConfig {
    pub frame_length_flag: bool,
    pub resilience: ResilienceFlags,
}

/// One element of a unified speech and audio stream.
#[derive(Debug, Clone, Copy, PartialEq, Eq, Structural)]
pub enum UsacElementConfig {
    SingleChannel { noise_filling: bool },
}

/// The settings of unified speech and audio coding.
#[derive(Debug, PartialEq, Eq)]
pub struct UsacConfig {
    pub sampling_frequency_index: u8,
    pub sampling_frequency: u32,
    pub core_sbr_frame_length_index: u8,
    pub core_frame_length: u16,
    pub output_frame_length: u16,
    pub sbr_ratio_index: u8,
    pub channel_configuration_index: u8,
    pub elements: Vec<UsacElementConfig>,
}

/// The model of [`UsacConfig`].
#[verifier::ext_equal]
pub struct UsacFields {
    pub sampling_frequency_index: u8,
    pub sampling_frequency: u32,
    pub core_sbr_frame_length_index: u8,
    pub core_frame_length: u16,
    pub output_frame_length: u16,
    pub sbr_ratio_index: u8,
    pub channel_configuration_index: u8,
    pub elements: Seq<UsacElementConfig>,
}

impl View for UsacConfig {
    type V = UsacFields;

    open spec fn view(&self) -> UsacFields {
        UsacFields {
            sampling_frequency_index: self.sampling_frequency_index,
            sampling_frequency: self.sampling_frequency,
            core_sbr_frame_length_index: self.core_sbr_frame_length_index,
            core_frame_length: self.core_frame_length,
            output_frame_length: self.output_frame_length,
            sbr_ratio_index: self.sbr_ratio_index,
            channel_configuration_index: self.channel_configuration_index,
            elements: self.elements@,
        }
    }
}

impl Clone for UsacConfig {
    fn clone(&self) -> (copy: UsacConfig)
        ensures
            copy@ == self@,
    {
        let mut elements: Vec<UsacElementConfig> = Vec::new();
        let mut index: usize = 0;
        while index < self.elements.len()
            invariant
                index <= self.elements@.len(),
                elements@ == self.elements@.take(index as int),
            decreases self.elements@.len() - index,
        {
            elements.push(self.elements[index]);
            assert(self.elements@.take(index + 1) =~= self.elements@.take(index as int).push(self.elements@[index as int]));
            index = index + 1;
        }
        assert(self.elements@.take(index as int) =~= self.elements@);
        UsacConfig {
            sampling_frequency_index: self.sampling_frequency_index,
            sampling_frequency: self.sampling_frequency,
            core_sbr_frame_length_index: self.core_sbr_frame_length_index,
            core_frame_length: self.core_frame_length,
            output_frame_length: self.output_frame_length,
            sbr_ratio_index: self.sbr_ratio_index,
            channel_configuration_index: self.channel_configuration_index,
            elements,
        }
    }
}

/// Spectral band replication on top of the core object type.
#[derive(Debug, Clone, Copy, PartialEq, Eq, Structural)]
pub struct AscExtension {
    pub sampling_frequency_index: u8,
    pub sampling_frequency: u32,
    pub parametric_stereo: bool,
}

/// The settings of a decoder.
#[derive(Debug, PartialEq, Eq)]
pub struct AudioSpecificConfig {
    pub audio_object_type: u8,
    pub sampling_frequency_index: u8,
    pub sampling_frequency: u32,
    pub channel_configuration: u8,
    pub extension: Option<AscExtension>,
    pub ga_specific: Option<GaSpecificConfig>,
    pub eld_specific: Option<EldSpecificConfig>,
    pub usac_config: Option<UsacConfig>,
    pub error_protection_config: Option<u8>,
    /// The number of bits that the settings took in the stream they were read
    /// from.
    pub bits_read: usize,
}

/// The model of [`AudioSpecificConfig`].
#[verifier::ext_equal]
pub struct AscFields {
    pub audio_object_type: u8,
    pub sampling_frequency_index: u8,
    pub sampling_frequency: u32,
    pub channel_configuration: u8,
    pub extension: Option<AscExtension>,
    pub ga_specific: Option<GaSpecificConfig>,
    pub eld_specific: Option<EldSpecificConfig>,
    pub usac_config: Option<UsacFields>,
    pub error_protection_config: Option<u8>,
    pub bits_read: usize,
}

/// The model of optional settings of unified speech and audio coding.
pub open spec fn usac_view(config: Option<UsacConfig>) -> Option<UsacFields> {
    match config {
        Some(config) => Some(config@),
        None => None,
    }
}

impl View for AudioSpecificConfig {
    type V = AscFields;

    open spec fn view(&self) -> AscFields {
        AscFields {
            audio_object_type: self.audio_object_type,
            sampling_frequency_index: self.sampling_frequency_index,
            sampling_frequency: self.sampling_frequency,
            channel_configuration: self.channel_configuration,
            extension: self.extension,
            ga_specific: self.ga_specific,
            eld_specific: self.eld_specific,
            usac_config: usac_view(self.usac_config),
            error_protection_config: self.error_protection_config,
            bits_read: self.bits_read,
        }
    }
}

impl Clone for AudioSpecificConfig {
    fn clone(&self) -> (copy: AudioSpecificConfig)
        ensures
            copy@ == self@,
    {
        let usac_config: Option<UsacConfig> = match &self.usac_config {
            Some(config) => Some(config.clone()),
            None => None,
        };
        AudioSpecificConfig {
            audio_object_type: self.audio_object_type,
            sampling_frequency_index: self.sampling_frequency_index,
            sampling_frequency: self.sampling_frequency,
            channel_configuration: self.channel_configuration,
            extension: self.extension,
            ga_specific: self.ga_specific,
            eld_specific: self.eld_specific,
            usac_config,
            error_protection_config: self.error_protection_config,
            bits_read: self.bits_read,
        }
    }
}

/// The sampling frequency of an index below thirteen.
pub open spec fn standard_frequency(index: u8) -> Option<u32> {
    if index == 0 {
        Some(96_000)
    } else if index == 1 {
        Some(88_200)
    } else if index == 2 {
        Some(64_000)
    } else if index == 3 {
        Some(48_000)
    } else if index == 4 {
        Some(44_100)
    } else if index == 5 {
        Some(32_000)
    } else if index == 6 {
        Some(24_000)
    } else if index == 7 {
        Some(22_050)
    } else if index == 8 {
        Some(16_000)
    } else if index == 9 {
        Some(12_000)
    } else if index == 10 {
        Some(11_025)
    } else if index == 11 {
        Some(8_000)
    } else if index == 12 {
        Some(7_350)
    } else {
        None
    }
}

/// The sampling frequency of an index below thirteen.
pub fn standard_frequency_at(index: u8) -> (frequency: Option<u32>)
    ensures
        frequency == standard_frequency(index),
{
    match index {
        0 => Some(96_000),
        1 => Some(88_200),
        2 => Some(64_000),
        3 => Some(48_000),
        4 => Some(44_100),
        5 => Some(32_000),
        6 => Some(24_000),
        7 => Some(22_050),
        8 => Some(16_000),
        9 => Some(12_000),
        10 => Some(11_025),
        11 => Some(8_000),
        12 => Some(7_350),
        _ => None,
    }
}

/// Whether an index, or the escape index with a frequency of its own, stands for
/// a sampling frequency.
pub open spec fn names_frequency(index: u8, frequency: u32) -> bool {
    if index == 15 {
        frequency < 0x100_0000
    } else {
        standard_frequency(index) == Some(frequency)
    }
}

/// Object types with general audio settings.
pub open spec fn is_general_audio(object_type: u8) -> bool {
    object_type == 2 || object_type == 17 || object_type == 20 || object_type == 23
}

/// Object types that are coded to survive bit errors.
pub open spec fn is_error_resilient(object_type: u8) -> bool {
    object_type == 17 || object_type == 20 || object_type == 23 || object_type == 39
}

impl AudioSpecificConfig {
    /// The settings of plain low-complexity coding.
    pub fn aac_lc(sampling_frequency: u32, channel_configuration: u8) -> (result: Result<AudioSpecificConfig, AscError>)
        ensures
            1 <= channel_configuration <= 15 ==> (result matches Ok(config) && {
                &&& config.audio_object_type == 2
                &&& config.sampling_frequency == sampling_frequency
                &&& if exists|index: u8| standard_frequency(index) == Some(sampling_frequency) {
                    standard_frequency(config.sampling_frequency_index) == Some(sampling_frequency)
                } else {
                    config.sampling_frequency_index == 15
                }
                &&& config.channel_configuration == channel_configuration
                &&& config.extension is None
                &&& config.ga_specific == Some(
                    GaSpecificConfig {
                        frame_length_flag: false,
                        depends_on_core_coder: false,
                        core_coder_delay: 0,
                        layer: 0,
                        extension_flag: false,
                        resilience: ResilienceFlags { section_data: false, scalefactor_data: false, spectral_data: false },
                    },
                )
                &&& config.eld_specific is None
                &&& config.usac_config is None
                &&& config.error_protection_config is None
                &&& config.bits_read == 0
            }),
            !(1 <= channel_configuration <= 15) ==> result == Err::<AudioSpecificConfig, AscError>(
                AscError::UnsupportedChannelConfiguration(channel_configuration),
            ),
    {
        if channel_configuration == 0 || channel_configuration > 15 {
            return Err(AscError::UnsupportedChannelConfiguration(channel_configuration));
        }
        let mut found: u8 = 15;
        let mut index: u8 = 0;
        while index < 13
            invariant
                index <= 13,
                found == 15 ==> forall|other: u8| other < index ==> #[trigger] standard_frequency(other) != Some(
                    sampling_frequency,
                ),
                found != 15 ==> standard_frequency(found) == Some(sampling_frequency),
            decreases 13 - index,
        {
            if standard_frequency_at(index) == Some(sampling_frequency) {
                found = index;
            }
            index = index + 1;
        }
        Ok(
            AudioSpecificConfig {
                audio_object_type: 2,
                sampling_frequency_index: found,
                sampling_frequency,
                channel_configuration,
                extension: None,
                ga_specific: Some(
                    GaSpecificConfig {
                        frame_length_flag: false,
                        depends_on_core_coder: false,
                        core_coder_delay: 0,
                        layer: 0,
                        extension_flag: false,
                        resilience: ResilienceFlags { section_data: false, scalefactor_data: false, spectral_data: false },
                    },
                ),
                eld_specific: None,
                usac_config: None,
                error_protection_config: None,
                bits_read: 0,
            },
        )
    }
}

} // verus!
