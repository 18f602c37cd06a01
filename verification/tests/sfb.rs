//! Scale factor bands.

use fdk_aac::ics::{IcsInfo, WindowSequence, WindowShape};
use fdk_aac::sfb::{
    aac_lc_band_offsets_for_ics, SfbError, SFB_16_128, SFB_48_1024, SFB_8_1024, SFB_96_128,
};

fn ics(window_sequence: WindowSequence, max_sfb: u8) -> IcsInfo {
    IcsInfo {
        window_sequence,
        window_shape: WindowShape::Sine,
        max_sfb,
        total_sfb: max_sfb,
        predictor_data_present: false,
        scale_factor_grouping: 0,
        window_group_lengths: vec![1],
        bits_read: 0,
    }
}

#[test]
fn bands_are_found_by_index() {
    let long = aac_lc_band_offsets_for_ics(4, &ics(WindowSequence::LongStop, 49)).unwrap();
    assert_eq!(long.offsets, SFB_48_1024);
    assert_eq!((long.num_bands, long.granule_length), (49, 1024));
    let short = aac_lc_band_offsets_for_ics(8, &ics(WindowSequence::EightShort, 3)).unwrap();
    assert_eq!(short.offsets, SFB_16_128);
    assert_eq!((short.num_bands, short.granule_length), (15, 128));
    let low = aac_lc_band_offsets_for_ics(12, &ics(WindowSequence::OnlyLong, 0)).unwrap();
    assert_eq!(low.offsets, SFB_8_1024);
    let high = aac_lc_band_offsets_for_ics(0, &ics(WindowSequence::EightShort, 12)).unwrap();
    assert_eq!(high.offsets, SFB_96_128);
}

#[test]
fn borders_rise_to_the_end_of_the_block() {
    for index in 0..13 {
        for sequence in [WindowSequence::OnlyLong, WindowSequence::EightShort] {
            let bands = aac_lc_band_offsets_for_ics(index, &ics(sequence, 0)).unwrap();
            assert_eq!(bands.offsets[0], 0);
            assert!(bands.offsets.windows(2).all(|pair| pair[0] < pair[1]));
            assert_eq!(bands.offsets.last(), Some(&bands.granule_length));
        }
    }
}

#[test]
fn unknown_rates_and_bands_are_refused() {
    assert_eq!(
        aac_lc_band_offsets_for_ics(13, &ics(WindowSequence::OnlyLong, 0)).err(),
        Some(SfbError::UnsupportedSamplingFrequencyIndex(13))
    );
    assert_eq!(
        aac_lc_band_offsets_for_ics(4, &ics(WindowSequence::OnlyLong, 50)).err(),
        Some(SfbError::MaxSfbOutOfRange {
            max_sfb: 50,
            total_sfb: 49,
        })
    );
}
