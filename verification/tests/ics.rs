//! Side information of a channel.

use fdk_aac::bits::{BitError, BitReader, BitWriter};
use fdk_aac::ics::{grouping_to_lengths, IcsError, IcsInfo, IcsLimits, WindowSequence, WindowShape};

#[test]
fn parses_long_ics_info() {
    let mut writer = BitWriter::new();
    writer.write_bool(false); // reserved
    writer.write(WindowSequence::OnlyLong.bits() as u32, 2);
    writer.write_bool(false); // sine
    writer.write(42, 6);
    writer.write_bool(false); // predictor data absent

    let bytes = writer.finish();
    let mut reader = BitReader::new(&bytes);
    let ics = IcsInfo::parse_aac_lc(&mut reader, IcsLimits::aac_lc_max()).unwrap();
    assert_eq!(ics.window_sequence, WindowSequence::OnlyLong);
    assert_eq!(ics.window_shape, WindowShape::Sine);
    assert_eq!(ics.max_sfb, 42);
    assert_eq!(ics.total_sfb, 51);
    assert_eq!(ics.window_group_lengths, vec![1]);
    assert_eq!(ics.bits_read, 11);
}

#[test]
fn aac_ld_maps_kbd_signal_to_low_overlap_and_rejects_other_sequences() {
    let mut writer = BitWriter::new();
    writer.write_bool(false);
    writer.write(WindowSequence::OnlyLong.bits() as u32, 2);
    writer.write_bool(true);
    writer.write(12, 6);
    writer.write_bool(false);
    let bytes = writer.finish();
    let ics = IcsInfo::parse_aac_ld(&mut BitReader::new(&bytes), 40).unwrap();
    assert_eq!(ics.window_shape, WindowShape::LowOverlap);
    assert!(ics.window_shape.bit());

    let mut writer = BitWriter::new();
    writer.write_bool(false);
    writer.write(WindowSequence::LongStart.bits() as u32, 2);
    writer.write_bool(false);
    writer.write(0, 6);
    writer.write_bool(false);
    assert!(matches!(
        IcsInfo::parse_aac_ld(&mut BitReader::new(&writer.finish()), 40),
        Err(IcsError::LowDelayWindowSequence(WindowSequence::LongStart))
    ));
}

#[test]
fn parses_short_ics_grouping() {
    let mut writer = BitWriter::new();
    writer.write_bool(false);
    writer.write(WindowSequence::EightShort.bits() as u32, 2);
    writer.write_bool(true);
    writer.write(12, 4);
    writer.write(0b110_0101, 7);

    let bytes = writer.finish();
    let mut reader = BitReader::new(&bytes);
    let ics = IcsInfo::parse_aac_lc(&mut reader, IcsLimits::aac_lc_max()).unwrap();
    assert_eq!(ics.window_sequence, WindowSequence::EightShort);
    assert_eq!(ics.window_shape, WindowShape::Kbd);
    assert_eq!(ics.max_sfb, 12);
    assert_eq!(ics.window_group_lengths, vec![3, 1, 2, 2]);
    assert_eq!(ics.bits_read, 15);
}

#[test]
fn parses_eld_implicit_long_window() {
    let mut writer = BitWriter::new();
    writer.write(30, 6);
    let bytes = writer.finish();
    let mut reader = BitReader::new(&bytes);
    let ics = IcsInfo::parse_eld(&mut reader, 35).unwrap();
    assert_eq!(ics.window_sequence, WindowSequence::OnlyLong);
    assert_eq!(ics.window_shape, WindowShape::Sine);
    assert_eq!(ics.max_sfb, 30);
    assert_eq!(ics.bits_read, 6);
}

#[test]
fn rejects_prediction_and_too_large_max_sfb() {
    let mut writer = BitWriter::new();
    writer.write_bool(false);
    writer.write(WindowSequence::OnlyLong.bits() as u32, 2);
    writer.write_bool(false);
    writer.write(52, 6);
    writer.write_bool(false);
    let bytes = writer.finish();
    let mut reader = BitReader::new(&bytes);
    assert_eq!(
        IcsInfo::parse_aac_lc(&mut reader, IcsLimits::aac_lc_max()).unwrap_err(),
        IcsError::MaxSfbOutOfRange {
            max_sfb: 52,
            total_sfb: 51
        }
    );

    let mut writer = BitWriter::new();
    writer.write_bool(false);
    writer.write(WindowSequence::OnlyLong.bits() as u32, 2);
    writer.write_bool(false);
    writer.write(10, 6);
    writer.write_bool(true);
    let bytes = writer.finish();
    let mut reader = BitReader::new(&bytes);
    assert_eq!(
        IcsInfo::parse_aac_lc(&mut reader, IcsLimits::aac_lc_max()).unwrap_err(),
        IcsError::PredictionUnsupported
    );
}

#[test]
fn window_sequence_and_shape_roundtrip_all_values() {
    for (bits, sequence) in [
        (0, WindowSequence::OnlyLong),
        (1, WindowSequence::LongStart),
        (2, WindowSequence::EightShort),
        (3, WindowSequence::LongStop),
        (7, WindowSequence::LongStop),
    ] {
        assert_eq!(WindowSequence::from_bits(bits), sequence);
        assert_eq!(WindowSequence::from_bits(sequence.bits()), sequence);
        assert_eq!(sequence.is_long(), sequence != WindowSequence::EightShort);
    }
    assert_eq!(WindowShape::from_bit(false), WindowShape::Sine);
    assert_eq!(WindowShape::from_bit(true), WindowShape::Kbd);
    assert!(!WindowShape::Sine.bit());
    assert!(WindowShape::Kbd.bit());
}

#[test]
fn grouping_handles_fully_split_and_fully_joined_windows() {
    assert_eq!(grouping_to_lengths(0), vec![1; 8]);
    assert_eq!(grouping_to_lengths(0x7f), vec![8]);
    assert_eq!(grouping_to_lengths(0b1010101), vec![2, 2, 2, 2]);
}

#[test]
fn eld_rejects_max_sfb_and_parsers_propagate_eof() {
    let mut writer = BitWriter::new();
    writer.write(36, 6);
    assert_eq!(
        IcsInfo::parse_eld(&mut BitReader::new(&writer.finish()), 35),
        Err(IcsError::MaxSfbOutOfRange {
            max_sfb: 36,
            total_sfb: 35
        })
    );
    assert!(matches!(
        IcsInfo::parse_eld(&mut BitReader::new(&[]), 35),
        Err(IcsError::Bit(BitError::UnexpectedEof { .. }))
    ));
    assert!(matches!(
        IcsInfo::parse_aac_lc(&mut BitReader::new(&[]), IcsLimits::aac_lc_max()),
        Err(IcsError::Bit(BitError::UnexpectedEof { .. }))
    ));
}

#[test]
fn formats_all_ics_errors() {
    let bit = BitError::UnexpectedEof {
        needed_bits: 1,
        remaining_bits: 0,
    };
    assert_eq!(IcsError::from(bit.clone()), IcsError::Bit(bit.clone()));
    assert_eq!(IcsError::Bit(bit.clone()).to_string(), bit.to_string());
    assert_eq!(
        IcsError::MaxSfbOutOfRange {
            max_sfb: 16,
            total_sfb: 15
        }
        .to_string(),
        "ICS max_sfb 16 exceeds total_sfb 15"
    );
    assert_eq!(
        IcsError::PredictionUnsupported.to_string(),
        "AAC prediction data is not supported"
    );
}
