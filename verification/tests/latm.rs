//! Multiplex elements and their writers.

use fdk_aac::asc::AudioSpecificConfig;
use fdk_aac::bits::{BitError, BitReader, BitWriter};
use fdk_aac::latm::{
    parse_stream_mux_config_aac_lc, read_latm_value, read_packed_bits, read_payload_length_bytes,
    validate_audio_specific_config, LatmAacLcWriter, LatmAudioMuxElement, LatmError, LatmMuxConfig, LatmStreamLayer,
    LatmWriter,
};

fn write_aac_lc_asc(writer: &mut BitWriter, channel_configuration: u32) {
    writer.write(2, 5);
    writer.write(4, 4);
    writer.write(channel_configuration, 4);
    writer.write_bool(false);
    writer.write_bool(false);
    writer.write_bool(false);
}

#[test]
fn writer_emits_initial_and_same_mux_config_elements() {
    let mut writer = LatmAacLcWriter::new(4, 1).unwrap();
    let first_bytes = writer.write_audio_mux_element(&[0xaa, 0xbb]);
    let first = LatmAudioMuxElement::parse_aac_lc(&first_bytes).unwrap();
    assert!(!first.use_same_stream_mux);
    assert_eq!(first.raw_data_block, [0xaa, 0xbb]);
    let mux = first.mux_config.unwrap();

    let second_bytes = writer.write_audio_mux_element(&vec![0x55; 300]);
    let second =
        LatmAudioMuxElement::parse_aac_lc_with_state(&second_bytes, Some(&mux)).unwrap();
    assert!(second.use_same_stream_mux);
    assert_eq!(second.raw_data_block, vec![0x55; 300]);
}

#[test]
fn generic_writer_roundtrips_subframes_amv_and_periodic_config() {
    let config = AudioSpecificConfig::aac_lc(44_100, 2).unwrap();
    let mut writer = LatmWriter::new(config.clone(), 1, 2, 1).unwrap();
    let first_bytes = writer
        .write_audio_mux_element(&[vec![0xaa], vec![0xbb, 0xcc]])
        .unwrap();
    let first = LatmAudioMuxElement::parse_aac_lc(&first_bytes).unwrap();
    assert!(!first.use_same_stream_mux);
    let parsed_config = first.config.as_ref().unwrap();
    assert_eq!(parsed_config.audio_object_type, config.audio_object_type);
    assert_eq!(parsed_config.sampling_frequency, config.sampling_frequency);
    assert_eq!(
        parsed_config.channel_configuration,
        config.channel_configuration
    );
    assert_eq!(first.mux_config.as_ref().unwrap().audio_mux_version, 1);
    assert_eq!(first.payloads.len(), 2);
    assert_eq!(first.payloads[1].data, [0xbb, 0xcc]);

    let second = writer.write_audio_mux_element(&[vec![1], vec![2]]).unwrap();
    // A period of one repeats StreamMuxConfig on every LATM frame.
    assert!(
        !LatmAudioMuxElement::parse_aac_lc(&second)
            .unwrap()
            .use_same_stream_mux
    );
    assert_eq!(
        writer.write_audio_mux_element(&[vec![1]]),
        Err(LatmError::PayloadCountMismatch {
            expected: 2,
            actual: 1
        })
    );
}

#[test]
fn generic_writer_signals_crc_and_repeats_config_after_change() {
    let config = AudioSpecificConfig::aac_lc(48_000, 1).unwrap();
    let mut writer = LatmWriter::new(config, 0, 1, 0).unwrap();
    writer.set_crc_check_sum(Some(0x5a));
    let first = writer.write_audio_mux_element(&[vec![0xaa]]).unwrap();
    let parsed = LatmAudioMuxElement::parse_aac_lc(&first).unwrap();
    assert!(!parsed.use_same_stream_mux);
    assert_eq!(parsed.crc_check_sum, Some(0x5a));
    let first_config = parsed.mux_config.unwrap();

    let same = writer.write_audio_mux_element(&[vec![0xbb]]).unwrap();
    let parsed =
        LatmAudioMuxElement::parse_aac_lc_with_state(&same, Some(&first_config)).unwrap();
    assert!(parsed.use_same_stream_mux);
    assert_eq!(parsed.crc_check_sum, Some(0x5a));

    writer.set_crc_check_sum(Some(0xa5));
    let changed = writer.write_audio_mux_element(&[vec![0xcc]]).unwrap();
    let parsed = LatmAudioMuxElement::parse_aac_lc(&changed).unwrap();
    assert!(!parsed.use_same_stream_mux);
    assert_eq!(parsed.crc_check_sum, Some(0xa5));

    writer.set_crc_check_sum(None);
    let removed = writer.write_audio_mux_element(&[vec![0xdd]]).unwrap();
    let parsed = LatmAudioMuxElement::parse_aac_lc(&removed).unwrap();
    assert_eq!(parsed.crc_check_sum, None);
}

#[test]
fn generic_writer_roundtrips_other_data_for_both_mux_versions() {
    for audio_mux_version in [0, 1] {
        let config = AudioSpecificConfig::aac_lc(48_000, 1).unwrap();
        let mut writer = LatmWriter::new(config, audio_mux_version, 1, 0).unwrap();
        writer
            .set_other_data(vec![0b1010_1100, 0b1100_0000], 10)
            .unwrap();
        let first = writer.write_audio_mux_element(&[vec![0xaa]]).unwrap();
        let parsed = LatmAudioMuxElement::parse_aac_lc(&first).unwrap();
        assert_eq!(parsed.other_data_bits, 10);
        assert_eq!(parsed.other_data, [0b1010_1100, 0b1100_0000]);
        let mux = parsed.mux_config.unwrap();

        // Changing only the contents keeps useSameStreamMux valid.
        writer
            .set_other_data(vec![0b0101_0000, 0b1100_0000], 10)
            .unwrap();
        let same = writer.write_audio_mux_element(&[vec![0xbb]]).unwrap();
        let parsed = LatmAudioMuxElement::parse_aac_lc_with_state(&same, Some(&mux)).unwrap();
        assert!(parsed.use_same_stream_mux);
        assert_eq!(parsed.other_data, [0b0101_0000, 0b1100_0000]);

        // A length change is part of StreamMuxConfig and forces a repeat.
        writer.set_other_data(vec![0x80], 1).unwrap();
        let changed = writer.write_audio_mux_element(&[vec![0xcc]]).unwrap();
        let parsed = LatmAudioMuxElement::parse_aac_lc(&changed).unwrap();
        assert!(!parsed.use_same_stream_mux);
        assert_eq!(parsed.other_data_bits, 1);
        assert_eq!(parsed.other_data, [0x80]);
    }
    let mut writer =
        LatmWriter::new(AudioSpecificConfig::aac_lc(48_000, 1).unwrap(), 0, 1, 0).unwrap();
    assert_eq!(
        writer.set_other_data(vec![0], 9),
        Err(LatmError::InvalidOtherDataLength {
            bits: 9,
            available_bits: 8
        })
    );
}

#[test]
fn generic_writer_roundtrips_fixed_non_byte_payloads() {
    let config = AudioSpecificConfig::aac_lc(48_000, 1).unwrap();
    let mut writer = LatmWriter::new(config, 0, 2, 0).unwrap();
    writer.set_fixed_frame_length_bits(Some(13)).unwrap();
    let encoded = writer
        .write_audio_mux_element(&[
            vec![0b1010_1010, 0b1111_1000],
            vec![0b0101_0101, 0b0000_0000],
        ])
        .unwrap();
    let parsed = LatmAudioMuxElement::parse_aac_lc(&encoded).unwrap();
    assert_eq!(
        parsed.mux_config.as_ref().unwrap().streams[0].frame_length_type,
        1
    );
    assert_eq!(
        parsed.mux_config.as_ref().unwrap().streams[0].fixed_frame_length_bits,
        Some(13)
    );
    assert_eq!(parsed.payloads[0].bits, 13);
    assert_eq!(parsed.payloads[0].data, [0b1010_1010, 0b1111_1000]);
    assert_eq!(parsed.payloads[1].data, [0b0101_0101, 0]);

    let mux = parsed.mux_config.unwrap();
    let same = writer
        .write_audio_mux_element(&[vec![0xff, 0xf8], vec![0, 0]])
        .unwrap();
    let parsed = LatmAudioMuxElement::parse_aac_lc_with_state(&same, Some(&mux)).unwrap();
    assert!(parsed.use_same_stream_mux);
    assert_eq!(parsed.payloads[0].data, [0xff, 0xf8]);

    writer.set_fixed_frame_length_bits(None).unwrap();
    let variable = writer.write_audio_mux_element(&[vec![1], vec![2]]).unwrap();
    let parsed = LatmAudioMuxElement::parse_aac_lc(&variable).unwrap();
    assert_eq!(parsed.mux_config.unwrap().streams[0].frame_length_type, 0);

    assert_eq!(
        writer.set_fixed_frame_length_bits(Some(0)),
        Err(LatmError::InvalidFixedFrameLength(0))
    );
    assert_eq!(
        writer.set_fixed_frame_length_bits(Some(512)),
        Err(LatmError::InvalidFixedFrameLength(512))
    );
    writer.set_fixed_frame_length_bits(Some(9)).unwrap();
    assert_eq!(
        writer.write_audio_mux_element(&[vec![0], vec![0, 0]]),
        Err(LatmError::InvalidPayloadBitLength {
            bits: 9,
            available_bits: 8
        })
    );
}

#[test]
fn parses_single_stream_aac_lc_audio_mux_element() {
    let payload = [0xaa, 0xbb];
    let mut writer = BitWriter::new();
    writer.write_bool(false); // useSameStreamMux
    writer.write_bool(false); // audioMuxVersion
    writer.write_bool(true); // allStreamsSameTimeFraming
    writer.write(0, 6); // numSubFrames - 1
    writer.write(0, 4); // numProgram
    writer.write(0, 3); // numLayer
    writer.write(2, 5); // AAC-LC
    writer.write(4, 4); // 44100
    writer.write(1, 4); // mono
    writer.write_bool(false); // frameLengthFlag
    writer.write_bool(false); // dependsOnCoreCoder
    writer.write_bool(false); // extensionFlag
    writer.write(0, 3); // frameLengthType
    writer.write(0xff, 8); // latmBufferFullness
    writer.write_bool(false); // otherDataPresent
    writer.write_bool(false); // crcCheckPresent
    writer.write(payload.len() as u32, 8); // PayloadLengthInfo
    for byte in payload {
        writer.write(byte as u32, 8);
    }
    let parsed = LatmAudioMuxElement::parse_aac_lc(&writer.finish()).unwrap();
    assert_eq!(parsed.config.unwrap().audio_object_type, 2);
    assert_eq!(parsed.raw_data_block, payload);
}

#[test]
fn parses_er_aac_lc_inline_config_and_ep_config() {
    let mut writer = BitWriter::new();
    writer.write_bool(false);
    writer.write_bool(false); // audioMuxVersion 0
    writer.write_bool(true);
    writer.write(0, 6);
    writer.write(0, 4);
    writer.write(0, 3);
    writer.write(17, 5); // ER AAC-LC
    writer.write(4, 4);
    writer.write(1, 4);
    writer.write_bool(false); // 1024 samples
    writer.write_bool(false); // no core coder
    writer.write_bool(true); // extension flags present
    writer.write_bool(false); // section resilience
    writer.write_bool(false); // scalefactor resilience
    writer.write_bool(false); // spectral resilience
    writer.write_bool(false); // extensionFlag3
    writer.write(1, 2); // epConfig
    writer.write(0, 3); // frameLengthType
    writer.write(0xff, 8);
    writer.write_bool(false);
    writer.write_bool(false);
    writer.write(1, 8);
    writer.write(0xaa, 8);
    let element = LatmAudioMuxElement::parse_aac_lc(&writer.finish()).unwrap();
    let config = element.config.unwrap();
    assert_eq!(config.audio_object_type, 17);
    assert_eq!(config.error_protection_config, Some(1));
    assert_eq!(element.raw_data_block, [0xaa]);
}

#[test]
fn parses_er_aac_ld_480_inline_config() {
    let mut writer = BitWriter::new();
    writer.write_bool(false); // useSameStreamMux
    writer.write_bool(false); // audioMuxVersion 0
    writer.write_bool(true);
    writer.write(0, 6);
    writer.write(0, 4);
    writer.write(0, 3);
    writer.write(23, 5); // ER AAC-LD
    writer.write(4, 4);
    writer.write(1, 4);
    writer.write_bool(true); // 480 samples
    writer.write_bool(false);
    writer.write_bool(false); // no GA extension
    writer.write(0, 2); // epConfig
    writer.write(0, 3); // frameLengthType
    writer.write(0xff, 8);
    writer.write_bool(false);
    writer.write_bool(false);
    writer.write(1, 8);
    writer.write(0x55, 8);
    let element = LatmAudioMuxElement::parse_aac_lc(&writer.finish()).unwrap();
    let config = element.config.unwrap();
    assert_eq!(config.audio_object_type, 23);
    assert!(config.ga_specific.unwrap().frame_length_flag);
    assert_eq!(element.raw_data_block, [0x55]);
}

#[test]
fn parses_er_aac_eld_inline_config() {
    let mut writer = BitWriter::new();
    writer.write_bool(false); // useSameStreamMux
    writer.write_bool(false); // audioMuxVersion 0
    writer.write_bool(true); // allStreamsSameTimeFraming
    writer.write(0, 6); // one subframe
    writer.write(0, 4); // one program
    writer.write(0, 3); // one layer
    writer.write(31, 5); // escaped AOT
    writer.write(7, 6); // 32 + 7 = ER AAC-ELD (39)
    writer.write(4, 4); // 44100 Hz
    writer.write(1, 4); // mono
    writer.write_bool(false); // 512-sample ELD frame
    writer.write_bool(false); // section resilience
    writer.write_bool(false); // scalefactor resilience
    writer.write_bool(false); // spectral resilience
    writer.write_bool(false); // LD-SBR absent
    writer.write(0, 4); // ELD extension terminator
    writer.write(0, 2); // epConfig
    writer.write(0, 3); // frameLengthType
    writer.write(0xff, 8); // latmBufferFullness
    writer.write_bool(false); // otherDataPresent
    writer.write_bool(false); // crcCheckPresent
    writer.write(1, 8); // one payload byte
    writer.write(0x55, 8);

    let element = LatmAudioMuxElement::parse_aac_lc(&writer.finish()).unwrap();
    let config = element.config.unwrap();
    assert_eq!(config.audio_object_type, 39);
    assert_eq!(config.error_protection_config, Some(0));
    assert_eq!(config.eld_specific.unwrap().frame_length_flag, false);
    assert_eq!(element.raw_data_block, [0x55]);
}

#[test]
fn parses_multiple_programs_layers_subframes_and_fixed_lengths() {
    let mut writer = BitWriter::new();
    writer.write_bool(false); // useSameStreamMux
    writer.write_bool(false); // audioMuxVersion
    writer.write_bool(true); // allStreamsSameTimeFraming
    writer.write(1, 6); // two subframes
    writer.write(1, 4); // two programs
    writer.write(1, 3); // program 0: two layers
    write_aac_lc_asc(&mut writer, 1);
    writer.write(0, 3); // frameLengthType 0
    writer.write(0xff, 8);
    writer.write_bool(true); // layer 1 reuses layer 0 config
    writer.write(0, 3);
    writer.write(0xff, 8);
    writer.write(0, 3); // program 1: one layer
    writer.write_bool(false); // explicit config
    write_aac_lc_asc(&mut writer, 2);
    writer.write(1, 3); // fixed frame length
    writer.write(12, 9);
    writer.write_bool(false); // otherDataPresent
    writer.write_bool(false); // crcCheckPresent
    for subframe in 0..2u32 {
        writer.write(1, 8);
        writer.write(2, 8);
        writer.write(0xa0 + subframe, 8);
        writer.write(0xb0 + subframe, 8);
        writer.write(0xc0 + subframe, 8);
        writer.write(0xd00 + subframe, 12);
    }
    let element = LatmAudioMuxElement::parse_aac_lc(&writer.finish()).unwrap();
    let mux = element.mux_config.as_ref().unwrap();
    assert_eq!(mux.subframe_count, 2);
    assert_eq!(mux.streams.len(), 3);
    assert_eq!(mux.streams[1].config, mux.streams[0].config);
    assert_eq!(mux.streams[2].fixed_frame_length_bits, Some(12));
    assert_eq!(element.payloads.len(), 6);
    assert_eq!(element.payloads[0].data, [0xa0]);
    assert_eq!(element.payloads[2].bits, 12);
    assert_eq!(element.payloads[5].subframe, 1);
    assert_eq!(element.payloads[5].program, 1);
}

#[test]
fn reuses_complete_multiple_stream_mux_config() {
    let mut config_writer = BitWriter::new();
    config_writer.write_bool(false);
    config_writer.write_bool(false);
    config_writer.write_bool(true);
    config_writer.write(0, 6);
    config_writer.write(0, 4);
    config_writer.write(1, 3); // two layers
    write_aac_lc_asc(&mut config_writer, 1);
    config_writer.write(0, 3);
    config_writer.write(0, 8);
    config_writer.write_bool(true);
    config_writer.write(1, 3);
    config_writer.write(8, 9);
    config_writer.write_bool(false);
    config_writer.write_bool(false);
    config_writer.write(1, 8);
    config_writer.write(0x11, 8);
    config_writer.write(0x22, 8);
    let first = LatmAudioMuxElement::parse_aac_lc(&config_writer.finish()).unwrap();
    let mux = first.mux_config.as_ref().unwrap();

    let mut same_writer = BitWriter::new();
    same_writer.write_bool(true);
    same_writer.write(1, 8);
    same_writer.write(0x33, 8);
    same_writer.write(0x44, 8);
    let second =
        LatmAudioMuxElement::parse_aac_lc_with_state(&same_writer.finish(), Some(mux)).unwrap();
    assert!(second.use_same_stream_mux);
    assert!(second.mux_config.is_none());
    assert_eq!(second.payloads[0].data, [0x33]);
    assert_eq!(second.payloads[1].data, [0x44]);
}

#[test]
fn parses_other_data_and_stream_mux_crc() {
    let payload = [0xaa];
    let other_data = 0b1010_1100u8;
    let mut writer = BitWriter::new();
    writer.write_bool(false); // useSameStreamMux
    writer.write_bool(false); // audioMuxVersion
    writer.write_bool(true); // allStreamsSameTimeFraming
    writer.write(0, 6);
    writer.write(0, 4);
    writer.write(0, 3);
    writer.write(2, 5);
    writer.write(4, 4);
    writer.write(1, 4);
    writer.write_bool(false);
    writer.write_bool(false);
    writer.write_bool(false);
    writer.write(0, 3);
    writer.write(0xff, 8);
    writer.write_bool(true); // otherDataPresent
    writer.write_bool(false); // otherDataLenEsc
    writer.write(8, 8); // otherDataLenBits
    writer.write_bool(true); // crcCheckPresent
    writer.write(0x5a, 8);
    writer.write(payload.len() as u32, 8);
    writer.write(payload[0] as u32, 8);
    writer.write(other_data as u32, 8);

    let parsed = LatmAudioMuxElement::parse_aac_lc(&writer.finish()).unwrap();
    assert_eq!(parsed.raw_data_block, payload);
    assert_eq!(parsed.other_data_bits, 8);
    assert_eq!(parsed.other_data, [other_data]);
    assert_eq!(parsed.crc_check_sum, Some(0x5a));
}

#[test]
fn reuses_other_data_length_for_same_stream_mux() {
    let mut writer = BitWriter::new();
    writer.write_bool(true); // useSameStreamMux
    writer.write(1, 8); // payload length
    writer.write(0x11, 8);
    writer.write(0xab, 8); // retained otherData
    let parsed =
        LatmAudioMuxElement::parse_aac_lc_with_mux_state(&writer.finish(), 8, Some(0x5a))
            .unwrap();
    assert_eq!(parsed.raw_data_block, [0x11]);
    assert_eq!(parsed.other_data, [0xab]);
    assert_eq!(parsed.crc_check_sum, Some(0x5a));
}

#[test]
fn parses_audio_mux_version_one_length_delimited_asc() {
    let asc = AudioSpecificConfig::aac_lc(44_100, 1)
        .unwrap()
        .to_bytes()
        .unwrap();
    let mut writer = BitWriter::new();
    writer.write_bool(false); // useSameStreamMux
    writer.write_bool(true); // audioMuxVersion
    writer.write_bool(false); // audioMuxVersionA
    writer.write(0, 2); // taraBufferFullness uses one byte
    writer.write(0xff, 8);
    writer.write_bool(true); // allStreamsSameTimeFraming
    writer.write(0, 6);
    writer.write(0, 4);
    writer.write(0, 3);
    writer.write(0, 2); // ascLen uses one byte
    writer.write((asc.len() * 8) as u32, 8);
    for byte in &asc {
        writer.write(*byte as u32, 8);
    }
    writer.write(0, 3); // frameLengthType
    writer.write(0xff, 8);
    writer.write_bool(true); // otherDataPresent
    writer.write(0, 2); // otherDataLenBits uses one byte
    writer.write(8, 8);
    writer.write_bool(false); // crcCheckPresent
    writer.write(1, 8); // payload length
    writer.write(0x11, 8);
    writer.write(0xab, 8);

    let parsed = LatmAudioMuxElement::parse_aac_lc(&writer.finish()).unwrap();
    let config = parsed.config.unwrap();
    assert_eq!(config.audio_object_type, 2);
    assert_eq!(config.sampling_frequency, 44_100);
    assert_eq!(config.channel_configuration, 1);
    assert_eq!(parsed.raw_data_block, [0x11]);
    assert_eq!(parsed.other_data, [0xab]);
}

#[test]
fn parses_audio_mux_version_one_usac_config() {
    let asc = AudioSpecificConfig {
        audio_object_type: 42,
        sampling_frequency_index: 3,
        sampling_frequency: 48_000,
        channel_configuration: 1,
        extension: None,
        ga_specific: None,
        eld_specific: None,
        usac_config: Some(fdk_aac::asc::UsacConfig {
            sampling_frequency_index: 3,
            sampling_frequency: 48_000,
            core_sbr_frame_length_index: 1,
            core_frame_length: 1024,
            output_frame_length: 1024,
            sbr_ratio_index: 0,
            channel_configuration_index: 1,
            elements: vec![fdk_aac::asc::UsacElementConfig::SingleChannel {
                noise_filling: false,
            }],
        }),
        error_protection_config: None,
        bits_read: 0,
    }
    .to_bytes()
    .unwrap();
    let mut writer = BitWriter::new();
    writer.write_bool(false); // useSameStreamMux
    writer.write_bool(true); // audioMuxVersion
    writer.write_bool(false); // audioMuxVersionA
    writer.write(0, 2); // taraBufferFullness length
    writer.write(0, 8);
    writer.write_bool(true); // allStreamsSameTimeFraming
    writer.write(0, 6); // one subframe
    writer.write(0, 4); // one program
    writer.write(0, 3); // one layer
    writer.write(0, 2); // ascLen length
    writer.write((asc.len() * 8) as u32, 8);
    for byte in asc {
        writer.write(byte as u32, 8);
    }
    writer.write(0, 3); // frameLengthType
    writer.write(0xff, 8);
    writer.write_bool(false); // otherDataPresent
    writer.write_bool(false); // crcCheckPresent
    writer.write(1, 8); // payload bytes
    writer.write(0, 8);

    let parsed = LatmAudioMuxElement::parse_aac_lc(&writer.finish()).unwrap();
    let config = parsed.config.unwrap();
    assert_eq!(config.audio_object_type, 42);
    assert_eq!(config.usac_config.unwrap().core_frame_length, 1024);
    assert_eq!(parsed.raw_data_block, [0]);
}

#[test]
fn writer_validates_sampling_and_channel_configuration() {
    assert_eq!(
        LatmAacLcWriter::new(13, 1),
        Err(LatmError::InvalidSamplingFrequencyIndex(13))
    );
    for channels in [0, 8] {
        assert_eq!(
            LatmAacLcWriter::new(4, channels),
            Err(LatmError::InvalidChannelConfiguration(channels))
        );
    }
    for configuration in [11, 12, 14] {
        let mut writer = LatmAacLcWriter::new(4, configuration).unwrap();
        let bytes = writer.write_audio_mux_element(&[0]);
        let parsed = LatmAudioMuxElement::parse_aac_lc(&bytes).unwrap();
        assert_eq!(parsed.config.unwrap().channel_configuration, configuration);
    }
}

#[test]
fn stateful_parser_validates_mux_state_and_frame_length_types() {
    assert_eq!(
        LatmAudioMuxElement::parse_aac_lc(&[0x80]),
        Err(LatmError::MissingStreamMuxConfig)
    );
    let base = LatmMuxConfig {
        audio_mux_version: 0,
        all_streams_same_time_framing: false,
        subframe_count: 1,
        streams: vec![LatmStreamLayer {
            program: 0,
            layer: 0,
            config: None,
            frame_length_type: 0,
            fixed_frame_length_bits: None,
        }],
        other_data_bits: 0,
        crc_check_sum: None,
    };
    assert_eq!(
        LatmAudioMuxElement::parse_aac_lc_with_state(&[0x80], Some(&base)),
        Err(LatmError::StreamsNotSameTimeFramed)
    );
    let mut unsupported = base.clone();
    unsupported.all_streams_same_time_framing = true;
    unsupported.streams[0].frame_length_type = 2;
    assert_eq!(
        LatmAudioMuxElement::parse_aac_lc_with_state(&[0x80], Some(&unsupported)),
        Err(LatmError::UnsupportedFrameLengthType(2))
    );
    unsupported.streams[0].frame_length_type = 1;
    assert_eq!(
        LatmAudioMuxElement::parse_aac_lc_with_state(&[0x80], Some(&unsupported)),
        Err(LatmError::UnsupportedFrameLengthType(1))
    );
}

#[test]
fn rejects_audio_mux_version_a_and_length_delimited_asc_overrun() {
    let mut writer = BitWriter::new();
    writer.write_bool(false);
    writer.write_bool(true);
    writer.write_bool(true);
    assert_eq!(
        LatmAudioMuxElement::parse_aac_lc(&writer.finish()),
        Err(LatmError::UnsupportedAudioMuxVersionA(1))
    );

    let mut writer = BitWriter::new();
    writer.write_bool(false);
    writer.write_bool(true);
    writer.write_bool(false);
    writer.write(0, 2);
    writer.write(0, 8);
    writer.write_bool(true);
    writer.write(0, 6);
    writer.write(0, 4);
    writer.write(0, 3);
    writer.write(0, 2);
    writer.write(100, 8);
    assert!(matches!(
        LatmAudioMuxElement::parse_aac_lc(&writer.finish()),
        Err(LatmError::InvalidAudioSpecificConfigLength { .. })
    ));
}

#[test]
fn packed_bit_and_latm_value_helpers_cover_boundaries() {
    assert_eq!(
        read_packed_bits(&mut BitReader::new(&[0b1010_0000]), 4).unwrap(),
        [0b1010_0000]
    );
    assert!(matches!(
        read_packed_bits(&mut BitReader::new(&[]), 1),
        Err(LatmError::Bit(BitError::UnexpectedEof { .. }))
    ));
    let mut writer = BitWriter::new();
    writer.write(3, 2);
    writer.write(0x1234_5678, 32);
    assert_eq!(
        read_latm_value(&mut BitReader::new(&writer.finish())).unwrap(),
        0x1234_5678
    );
    let mut writer = BitWriter::new();
    writer.write(255, 8);
    writer.write(255, 8);
    writer.write(2, 8);
    assert_eq!(
        read_payload_length_bytes(&mut BitReader::new(&writer.finish())).unwrap(),
        512
    );
}

#[test]
fn validates_audio_specific_config_profile_constraints() {
    let mut config = AudioSpecificConfig::aac_lc(44_100, 1).unwrap();
    config.audio_object_type = 1;
    assert_eq!(
        validate_audio_specific_config(&config),
        Err(LatmError::UnsupportedAudioObjectType(1))
    );
    config = AudioSpecificConfig::aac_lc(44_100, 1).unwrap();
    config.ga_specific.as_mut().unwrap().frame_length_flag = true;
    assert_eq!(validate_audio_specific_config(&config), Ok(()));
    config.audio_object_type = 39;
    assert_eq!(
        validate_audio_specific_config(&config),
        Err(LatmError::UnsupportedFrameLengthFlag)
    );
    config.audio_object_type = 2;
    config.ga_specific.as_mut().unwrap().frame_length_flag = false;
    config.ga_specific.as_mut().unwrap().depends_on_core_coder = true;
    assert_eq!(
        validate_audio_specific_config(&config),
        Err(LatmError::UnsupportedCoreCoderDependency)
    );
}

#[test]
fn error_conversions_and_all_messages_are_nonempty() {
    let bit = BitError::UnexpectedEof {
        needed_bits: 1,
        remaining_bits: 0,
    };
    assert_eq!(LatmError::from(bit.clone()), LatmError::Bit(bit.clone()));
    let asc = fdk_aac::asc::AscError::InvalidSamplingFrequencyIndex(15);
    assert_eq!(LatmError::from(asc.clone()), LatmError::Asc(asc.clone()));
    assert_eq!(LatmError::Bit(bit.clone()).to_string(), bit.to_string());
    assert_eq!(LatmError::Asc(asc.clone()).to_string(), asc.to_string());
    let errors = [
        LatmError::InvalidChannelConfiguration(0),
        LatmError::InvalidAudioSpecificConfigLength {
            declared_bits: 8,
            remaining_bits: 0,
        },
        LatmError::InvalidSamplingFrequencyIndex(13),
        LatmError::InvalidUseSameConfig,
        LatmError::MissingStreamMuxConfig,
        LatmError::OtherDataTooLarge,
        LatmError::PayloadTooLarge,
        LatmError::StreamsNotSameTimeFramed,
        LatmError::UnsupportedAudioMuxVersion(2),
        LatmError::UnsupportedAudioMuxVersionA(1),
        LatmError::UnsupportedAudioObjectType(1),
        LatmError::UnsupportedCoreCoderDependency,
        LatmError::UnsupportedCrc,
        LatmError::UnsupportedFrameLengthFlag,
        LatmError::UnsupportedFrameLengthType(2),
        LatmError::UnsupportedErrorProtectionConfig(2),
        LatmError::UnsupportedGaExtension,
        LatmError::UnsupportedOtherData,
        LatmError::UnsupportedProgramOrLayerLayout,
    ];
    assert!(errors.iter().all(|error| !error.to_string().is_empty()));
}

#[test]
fn stream_mux_config_rejects_invalid_reuse_and_frame_length_type() {
    let mut invalid_reuse = BitWriter::new();
    invalid_reuse.write_bool(false); // audioMuxVersion
    invalid_reuse.write_bool(true); // allStreamsSameTimeFraming
    invalid_reuse.write(0, 6); // one subframe
    invalid_reuse.write(1, 4); // two programs
    invalid_reuse.write(0, 3); // program 0: one layer
    write_aac_lc_asc(&mut invalid_reuse, 1);
    invalid_reuse.write(0, 3); // frameLengthType 0
    invalid_reuse.write(0, 8); // latmBufferFullness
    invalid_reuse.write(0, 3); // program 1: one layer
    invalid_reuse.write_bool(true); // illegal reuse at layer zero
    assert_eq!(
        parse_stream_mux_config_aac_lc(&mut BitReader::new(&invalid_reuse.finish())),
        Err(LatmError::InvalidUseSameConfig)
    );

    let mut unsupported_length = BitWriter::new();
    unsupported_length.write_bool(false); // audioMuxVersion
    unsupported_length.write_bool(true); // allStreamsSameTimeFraming
    unsupported_length.write(0, 6); // one subframe
    unsupported_length.write(0, 4); // one program
    unsupported_length.write(0, 3); // one layer
    write_aac_lc_asc(&mut unsupported_length, 1);
    unsupported_length.write(2, 3); // unsupported frameLengthType
    assert_eq!(
        parse_stream_mux_config_aac_lc(&mut BitReader::new(&unsupported_length.finish())),
        Err(LatmError::UnsupportedFrameLengthType(2))
    );

    let mut oversized_other_data = BitWriter::new();
    oversized_other_data.write_bool(false); // audioMuxVersion
    oversized_other_data.write_bool(true); // allStreamsSameTimeFraming
    oversized_other_data.write(0, 6);
    oversized_other_data.write(0, 4);
    oversized_other_data.write(0, 3);
    write_aac_lc_asc(&mut oversized_other_data, 1);
    oversized_other_data.write(0, 3);
    oversized_other_data.write(0, 8);
    oversized_other_data.write_bool(true); // otherDataPresent
    for _ in 0..8 {
        oversized_other_data.write_bool(true);
        oversized_other_data.write(0xff, 8);
    }
    oversized_other_data.write_bool(false);
    oversized_other_data.write(0xff, 8);
    assert_eq!(
        parse_stream_mux_config_aac_lc(&mut BitReader::new(&oversized_other_data.finish())),
        Err(LatmError::OtherDataTooLarge)
    );
}

#[test]
fn later_elements_need_the_configuration_of_the_first() {
    let mut writer = LatmAacLcWriter::new(4, 1).unwrap();
    let opening = writer.write_audio_mux_element(&[]);
    let mux = LatmAudioMuxElement::parse_aac_lc(&opening).unwrap().mux_config.unwrap();
    let following = writer.write_audio_mux_element(&[1, 2, 3]);
    let element = LatmAudioMuxElement::parse_aac_lc_with_state(&following, Some(&mux)).unwrap();
    assert!(element.use_same_stream_mux);
    assert_eq!(element.raw_data_block, [1, 2, 3]);
    assert_eq!(element.raw_data_block_bits, 24);
    assert_eq!(element.payloads.len(), 1);
    assert!(element.config.is_none() && element.mux_config.is_none() && element.other_data.is_empty());
    assert_eq!(
        LatmAudioMuxElement::parse_aac_lc_with_state(&following, None),
        Err(LatmError::MissingStreamMuxConfig)
    );
}
