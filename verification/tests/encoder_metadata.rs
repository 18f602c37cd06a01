//! Encoder metadata payloads.

use fdk_aac::encoder_metadata::{
    dialnorm_to_program_reference_level, downmix_index, encode_compression_gain, encode_dynamic_range_gain, gain_moves, next_hold,
    EncoderMetadata, ExtendedEncoderMetadata, MetadataDrcProfile, ProfileParameters, ReferenceLevels,
};

#[test]
fn defaults_match_fdk_metadata_setup_payloads() {
    let metadata = EncoderMetadata::default();
    assert_eq!(metadata.dynamic_range_payload(0), (vec![0, 0], 12));
    assert_eq!(metadata.etsi_ancillary_payload(None), [0xbc, 0xc0, 0x00]);
}

#[test]
fn serializes_every_etsi_optional_group() {
    let metadata = EncoderMetadata {
        compression_profile: MetadataDrcProfile::FilmStandard,
        program_reference_level: Some(-(23 << 16)),
        etsi_downmix_levels_present: true,
        center_mix_level: 2,
        surround_mix_level: 3,
        dolby_surround_mode: 2,
        drc_presentation_mode: 1,
        extended: ExtendedEncoderMetadata {
            enabled: true,
            downmix_levels_enabled: true,
            downmix_level_a: 1,
            downmix_level_b: 2,
            downmix_gains_enabled: true,
            downmix_gain_5_q16: -(3 << 16),
            downmix_gain_2_q16: 2 << 16,
            lfe_downmix_enabled: true,
            lfe_downmix_level: 7,
        },
        ..EncoderMetadata::default()
    };
    let (dynamic, bits) = metadata.dynamic_range_payload(-(2 << 16));
    assert_eq!(bits, 20);
    assert_eq!(dynamic.len(), 3);
    let etsi = metadata.etsi_ancillary_payload(Some(-(4 << 16)));
    assert!(etsi.len() >= 10);
    assert_eq!(etsi[0], 0xbc);
}

#[test]
fn gains_and_levels_are_encoded() {
    assert_eq!(dialnorm_to_program_reference_level(-(23 << 16)), 92);
    assert_eq!(dialnorm_to_program_reference_level(1 << 20), 0);
    assert_eq!(dialnorm_to_program_reference_level(-(1 << 24)), 127);
    assert_eq!(encode_dynamic_range_gain(0), (false, 0));
    assert_eq!(encode_dynamic_range_gain(3 << 14), (false, 3));
    assert_eq!(encode_dynamic_range_gain(-(5 << 14) - (1 << 13)), (true, 6));
    assert_eq!(encode_dynamic_range_gain(i32::MIN), (true, 127));
    assert_eq!(encode_compression_gain(0), 0x80);
    assert_eq!(encode_compression_gain(i32::MAX), 0);
    assert_eq!(encode_compression_gain(i32::MIN), 0xff);
}

#[test]
fn profiles_have_numbers() {
    assert_eq!(MetadataDrcProfile::default().code(), 0);
    assert_eq!(MetadataDrcProfile::Speech.code(), 5);
    assert_eq!(MetadataDrcProfile::NotPresent.code(), 256);
}

#[test]
fn presentation_modes_raise_the_targets() {
    let mut metadata = EncoderMetadata::default();
    assert_eq!(
        metadata.reference_levels(),
        ReferenceLevels {
            dialnorm_q16: -(23 << 16),
            drc_target_q16: -(31 << 16),
            compression_target_q16: -(23 << 16),
        }
    );
    metadata.drc_presentation_mode = 1;
    metadata.program_reference_level = Some(-(20 << 16));
    assert_eq!(
        metadata.reference_levels(),
        ReferenceLevels {
            dialnorm_q16: -(20 << 16),
            drc_target_q16: -(20 << 16),
            compression_target_q16: -(20 << 16),
        }
    );
    metadata.compression_profile = MetadataDrcProfile::Speech;
    metadata.drc_presentation_mode = 2;
    metadata.compression_target_reference_level_q16 = -(10 << 16);
    assert_eq!(metadata.reference_levels().drc_target_q16, -(23 << 16));
    assert_eq!(metadata.reference_levels().compression_target_q16, -(10 << 16));
}

#[test]
fn curves_rise_and_reach_their_limits() {
    for profile in [
        MetadataDrcProfile::FilmStandard,
        MetadataDrcProfile::FilmLight,
        MetadataDrcProfile::MusicStandard,
        MetadataDrcProfile::MusicLight,
        MetadataDrcProfile::Speech,
    ] {
        let curve = ProfileParameters::for_profile(profile);
        assert!(curve.max_boost_threshold < curve.boost_threshold);
        assert!(curve.boost_threshold < curve.early_cut_threshold);
        assert!(curve.early_cut_threshold <= curve.cut_threshold);
        let cut = (curve.max_cut_threshold - curve.cut_threshold) * curve.cut_factor
            + (curve.cut_threshold - curve.early_cut_threshold) * curve.early_cut_factor;
        assert_eq!(cut, -100 * curve.max_cut);
    }
    let speech = ProfileParameters::for_profile(MetadataDrcProfile::Speech);
    assert_eq!((speech.boost_factor, speech.max_boost, speech.slow_decay), (-80, 15, 1000));
    assert_eq!(speech.hold_frames(1024), 2);
    assert_eq!(
        ProfileParameters::for_profile(MetadataDrcProfile::NotPresent),
        ProfileParameters::for_profile(MetadataDrcProfile::FilmStandard)
    );
}

#[test]
fn every_sample_is_mixed_down_once() {
    let (frame_length, channels) = (5, 3);
    let mut seen = vec![false; frame_length * channels];
    for sample in 0..frame_length {
        for offset in 0..channels {
            let index = downmix_index(sample, offset, frame_length, channels);
            assert!(!seen[index]);
            seen[index] = true;
        }
    }
    assert_eq!(downmix_index(0, 1, 4, 2), 2);
    assert_eq!(downmix_index(2, 0, 4, 2), 1);
}

#[test]
fn gains_are_held() {
    assert!(gain_moves(3, true) && gain_moves(0, false) && !gain_moves(3, false));
    let mut count = next_hold(0, true, 2);
    assert_eq!(count, 2);
    count = next_hold(count, false, 2);
    assert_eq!(count, 1);
    count = next_hold(count, false, 2);
    assert_eq!(next_hold(count, false, 2), 0);
    let film = ProfileParameters::for_profile(MetadataDrcProfile::FilmLight);
    assert_eq!(film.time_constant(true, true), 10);
    assert_eq!(film.time_constant(true, false), 100);
    assert_eq!(film.time_constant(false, true), 1000);
    assert_eq!(film.time_constant(false, false), 3000);
}
