//! Audio configurations.

use fdk_aac::asc::{
    AscError, AscExtension, AudioSpecificConfig, EldSpecificConfig, GaSpecificConfig, ResilienceFlags, UsacConfig,
    UsacElementConfig,
};
use fdk_aac::bits::{BitError, BitReader};

fn read_back(config: &AudioSpecificConfig) -> AudioSpecificConfig {
    AudioSpecificConfig::parse(&config.to_bytes().unwrap()).unwrap()
}

#[test]
fn low_complexity_takes_two_bytes() {
    let config = AudioSpecificConfig::aac_lc(44_100, 2).unwrap();
    assert_eq!(config.to_bytes().unwrap(), [0x12, 0x10]);
    let parsed = AudioSpecificConfig::parse(&[0x12, 0x10]).unwrap();
    assert_eq!(parsed.sampling_frequency_index, 4);
    assert_eq!(parsed.bits_read, 16);
    assert_eq!(
        AudioSpecificConfig {
            bits_read: 0,
            ..parsed
        },
        config
    );
}

#[test]
fn other_frequencies_are_spelled_out() {
    let config = AudioSpecificConfig::aac_lc(44_056, 1).unwrap();
    assert_eq!(config.sampling_frequency_index, 15);
    let parsed = read_back(&config);
    assert_eq!(parsed.sampling_frequency, 44_056);
    assert_eq!(parsed.bits_read, 40);
}

#[test]
fn extensions_read_back_in_both_places() {
    let mut config = AudioSpecificConfig::aac_lc(22_050, 1).unwrap();
    config.extension = Some(AscExtension {
        sampling_frequency_index: 4,
        sampling_frequency: 44_100,
        parametric_stereo: true,
    });
    for mode in [1, 2] {
        let (bytes, bits) = config.to_bytes_with_sbr_signaling(mode).unwrap();
        let parsed = AudioSpecificConfig::parse(&bytes).unwrap();
        assert_eq!(parsed.extension, config.extension);
        assert_eq!(parsed.audio_object_type, 2);
        assert_eq!(parsed.bits_read, bits);
    }
    let (bytes, _) = config.to_bytes_with_sbr_signaling(0).unwrap();
    assert_eq!(AudioSpecificConfig::parse(&bytes).unwrap().extension, None);
    assert_eq!(
        config.to_bytes_with_sbr_signaling(3),
        Err(AscError::InvalidSbrSignalingMode(3))
    );
}

#[test]
fn a_configuration_ends_where_the_stream_goes_on() {
    let mut bytes = AudioSpecificConfig::aac_lc(48_000, 2).unwrap().to_bytes().unwrap();
    bytes.push(0xff);
    let mut reader = BitReader::new(&bytes);
    let config = AudioSpecificConfig::parse_from_reader(&mut reader).unwrap();
    assert_eq!(config.sampling_frequency, 48_000);
    assert_eq!(reader.bits_read(), 16);
}

#[test]
fn low_delay_settings_read_back() {
    let config = AudioSpecificConfig {
        audio_object_type: 39,
        sampling_frequency_index: 3,
        sampling_frequency: 48_000,
        channel_configuration: 1,
        extension: None,
        ga_specific: None,
        eld_specific: Some(EldSpecificConfig {
            frame_length_flag: true,
            resilience: ResilienceFlags {
                section_data: true,
                scalefactor_data: false,
                spectral_data: true,
            },
        }),
        usac_config: None,
        error_protection_config: Some(0),
        bits_read: 0,
    };
    let parsed = read_back(&config);
    assert_eq!(parsed.eld_specific, config.eld_specific);
    assert_eq!(parsed.audio_object_type, 39);
}

#[test]
fn resilient_settings_read_back() {
    let config = AudioSpecificConfig {
        audio_object_type: 17,
        sampling_frequency_index: 5,
        sampling_frequency: 32_000,
        channel_configuration: 2,
        extension: None,
        ga_specific: Some(GaSpecificConfig {
            frame_length_flag: false,
            depends_on_core_coder: true,
            core_coder_delay: 777,
            layer: 0,
            extension_flag: true,
            resilience: ResilienceFlags {
                section_data: false,
                scalefactor_data: true,
                spectral_data: true,
            },
        }),
        eld_specific: None,
        usac_config: None,
        error_protection_config: Some(0),
        bits_read: 0,
    };
    assert_eq!(read_back(&config).ga_specific, config.ga_specific);
    assert_eq!(config.clone(), config);
}

#[test]
fn settings_that_contradict_each_other_are_not_written() {
    let mut config = AudioSpecificConfig::aac_lc(48_000, 2).unwrap();
    config.ga_specific = None;
    assert_eq!(config.to_bytes(), Err(AscError::InvalidConfiguration));
    let mut config = AudioSpecificConfig::aac_lc(48_000, 2).unwrap();
    config.sampling_frequency = 44_100;
    assert_eq!(config.to_bytes(), Err(AscError::InvalidConfiguration));
    let mut config = AudioSpecificConfig::aac_lc(48_000, 2).unwrap();
    config.usac_config = Some(UsacConfig {
        sampling_frequency_index: 3,
        sampling_frequency: 48_000,
        core_sbr_frame_length_index: 1,
        core_frame_length: 1024,
        output_frame_length: 1024,
        sbr_ratio_index: 0,
        channel_configuration_index: 1,
        elements: vec![UsacElementConfig::SingleChannel { noise_filling: false }],
    });
    assert_eq!(config.to_bytes(), Err(AscError::InvalidConfiguration));
}

#[test]
fn unreadable_settings_are_refused() {
    assert!(matches!(
        AudioSpecificConfig::parse(&[]),
        Err(AscError::Bit(BitError::UnexpectedEof { .. }))
    ));
    // Index thirteen names no frequency.
    assert_eq!(
        AudioSpecificConfig::parse(&[0x16, 0x90, 0, 0]),
        Err(AscError::InvalidSamplingFrequencyIndex(13))
    );
    assert_eq!(
        AudioSpecificConfig::aac_lc(48_000, 0),
        Err(AscError::UnsupportedChannelConfiguration(0))
    );
    assert_eq!(
        AudioSpecificConfig::aac_lc(48_000, 16),
        Err(AscError::UnsupportedChannelConfiguration(16))
    );
    // Object type one is not supported.
    assert_eq!(
        AudioSpecificConfig::parse(&[0x0a, 0x10, 0, 0]),
        Err(AscError::UnsupportedAudioObjectType(1))
    );
}

#[test]
fn errors_have_texts() {
    for (error, text) in [
        (AscError::InvalidSamplingFrequencyIndex(13), "invalid sampling frequency index 13"),
        (AscError::UnsupportedAudioObjectType(1), "unsupported audio object type 1"),
        (AscError::UnsupportedLdSbr, "low-delay SBR is unsupported"),
    ] {
        assert_eq!(error.to_string(), text);
    }
}
