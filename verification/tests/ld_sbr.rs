//! Low-delay band replication syntax.

use fdk_aac::asc::LdSbrHeader;
use fdk_aac::bits::{BitError, BitReader, BitWriter};
use fdk_aac::ld_sbr::{
    decode_sbr_huffman, encode_sbr_huffman, fixed_borders, logarithmic_widths, logarithmic_widths_for_density, low_to_high,
    make_master, map_to_high, parse_frame_header, read_add_harmonics, read_channel_control, read_envelopes_usac,
    read_extended_data, read_noise, start_band, stop_band, transient_row,
    LdSbrChannelControl, LdSbrChannelElementPrefix, LdSbrChannelValues, LdSbrError, LdSbrFrameParser, LdSbrFrequencyTables,
    LdSbrGrid, LdSbrPreviousValues, SbrHuffmanBook, SharedEnergy, ENV_BALANCE_11_T, ENV_LEVEL_10_T, ENV_LEVEL_11_T, NOISE_LEVEL_11_T,
};
use fdk_aac::usac_sbr::InterTesEnvelope;

fn write_huffman(writer: &mut BitWriter, book: SbrHuffmanBook) {
    for bit in encode_sbr_huffman(book, 0).unwrap() {
        writer.write_bool(bit);
    }
}

/// The energy of an exponent that counts in halves.
fn energy(exponent: i32) -> f64 {
    2.0f64.powf(f64::from(exponent) / 2.0)
}

fn energies(rows: &[Vec<i32>]) -> Vec<Vec<f64>> {
    rows.iter().map(|row| row.iter().map(|&exponent| energy(exponent)).collect()).collect()
}

/// The energies of the left and the right channel.
fn split_energies(rows: &[Vec<SharedEnergy>]) -> (Vec<Vec<f64>>, Vec<Vec<f64>>) {
    let right = |shared: &SharedEnergy| 2.0 * energy(shared.total) / (energy(shared.ratio) + 1.0);
    let left = |shared: &SharedEnergy| energy(shared.ratio) * right(shared);
    (
        rows.iter().map(|row| row.iter().map(left).collect()).collect(),
        rows.iter().map(|row| row.iter().map(right).collect()).collect(),
    )
}

#[test]
fn formats_every_ld_sbr_error_variant() {
    let errors = [
        LdSbrError::UnexpectedEof,
        LdSbrError::UnsupportedTimeSlots(17),
        LdSbrError::InvalidTransientPosition {
            position: 17,
            time_slots: 16,
        },
        LdSbrError::TooManyEnvelopes(8),
        LdSbrError::UnsupportedSamplingFrequency(12_345),
        LdSbrError::InvalidFrequencyRange,
        LdSbrError::InvalidCrossoverBand(15),
        LdSbrError::InvalidHuffmanCodeword,
        LdSbrError::ExpectedStereo,
        LdSbrError::UnsupportedFrameLength(1024),
        LdSbrError::CrcMismatch {
            expected: 0x155,
            calculated: 0x2aa,
        },
        LdSbrError::CoupledLayoutMismatch,
    ];
    for error in errors {
        assert!(!error.to_string().is_empty());
    }

    let header = LdSbrHeader {
        start_frequency: 5,
        stop_frequency: 8,
        crossover_band: 2,
        ..LdSbrHeader::default()
    };
    assert!(LdSbrFrameParser::new(header.clone(), 44_100, 480, false, false).is_ok());
    assert!(matches!(
        LdSbrFrameParser::new(header.clone(), 44_100, 1024, false, false),
        Err(LdSbrError::UnsupportedFrameLength(1024))
    ));
    let mut crc_parser = LdSbrFrameParser::new(header, 44_100, 512, false, true).unwrap();
    assert!(matches!(
        crc_parser.parse(&mut BitReader::new(&[])),
        Err(LdSbrError::UnexpectedEof)
    ));
}

#[test]
fn parses_complete_frame_header_and_converts_bit_errors() {
    assert_eq!(
        LdSbrError::from(BitError::UnexpectedEof {
            needed_bits: 1,
            remaining_bits: 0,
        }),
        LdSbrError::UnexpectedEof
    );
    let mut writer = BitWriter::new();
    writer.write_bool(true);
    writer.write(5, 4);
    writer.write(8, 4);
    writer.write(2, 3);
    writer.write(1, 2);
    writer.write_bool(true);
    writer.write_bool(true);
    writer.write(2, 2);
    writer.write_bool(false);
    writer.write(3, 2);
    writer.write(1, 2);
    writer.write(2, 2);
    writer.write_bool(true);
    writer.write_bool(false);
    let header = parse_frame_header(&mut BitReader::new(&writer.finish())).unwrap();
    assert_eq!(
        header,
        LdSbrHeader {
            amp_resolution: true,
            crossover_band: 2,
            reserved: 1,
            start_frequency: 5,
            stop_frequency: 8,
            frequency_scale: Some(2),
            alter_scale: Some(false),
            noise_bands: Some(3),
            limiter_bands: Some(1),
            limiter_gains: Some(2),
            interpol_frequency: Some(true),
            smoothing_mode: Some(false),
        }
    );

    let mut minimal = BitWriter::new();
    minimal.write_bool(false);
    minimal.write(5, 4);
    minimal.write(8, 4);
    minimal.write(2, 3);
    minimal.write(0, 2);
    minimal.write_bool(false);
    minimal.write_bool(false);
    let header = parse_frame_header(&mut BitReader::new(&minimal.finish())).unwrap();
    assert_eq!(header.frequency_scale, None);
    assert_eq!(header.alter_scale, None);
    assert_eq!(header.noise_bands, None);
    assert_eq!(header.limiter_bands, None);
    assert_eq!(header.limiter_gains, None);
    assert_eq!(header.interpol_frequency, None);
    assert_eq!(header.smoothing_mode, None);

    let initial_header = LdSbrHeader {
        start_frequency: 5,
        stop_frequency: 8,
        crossover_band: 2,
        ..LdSbrHeader::default()
    };
    let mut parser = LdSbrFrameParser::new(initial_header, 44_100, 512, false, false).unwrap();
    let mut writer = BitWriter::new();
    writer.write_bool(true); // frame header present
    writer.write_bool(true); // amp resolution
    writer.write(5, 4);
    writer.write(8, 4);
    writer.write(2, 3);
    writer.write(1, 2);
    writer.write_bool(true);
    writer.write_bool(true);
    writer.write(2, 2);
    writer.write_bool(false);
    writer.write(3, 2);
    writer.write(1, 2);
    writer.write(2, 2);
    writer.write_bool(true);
    writer.write_bool(false);
    assert_eq!(
        parser.parse(&mut BitReader::new(&writer.finish())),
        Err(LdSbrError::UnexpectedEof)
    );
}

#[test]
fn parses_fixfix_grids_for_480_and_512_frames() {
    for slots in [15, 16] {
        for (exponent, envelope_count) in [(0, 1), (1, 2), (2, 4)] {
            let mut writer = BitWriter::new();
            writer.write_bool(false);
            writer.write(exponent, 2);
            if envelope_count == 1 {
                writer.write_bool(true);
            }
            writer.write_bool(true);
            let bytes = writer.finish();
            let grid = LdSbrGrid::parse(&mut BitReader::new(&bytes), slots).unwrap();
            assert_eq!(grid.borders, fixed_borders(slots, envelope_count));
            assert_eq!(grid.frequency_resolution, vec![true; envelope_count]);
            assert_eq!(
                grid.noise_borders,
                if envelope_count == 1 {
                    vec![0, slots]
                } else {
                    vec![0, 8, slots]
                }
            );
        }
    }

    assert_eq!(
        LdSbrGrid::parse(&mut BitReader::new(&[]), 14),
        Err(LdSbrError::UnsupportedTimeSlots(14))
    );
    let mut writer = BitWriter::new();
    writer.write_bool(true);
    writer.write(15, 4);
    assert_eq!(
        LdSbrGrid::parse(&mut BitReader::new(&writer.finish()), 15),
        Err(LdSbrError::InvalidTransientPosition {
            position: 15,
            time_slots: 15,
        })
    );
}

#[test]
fn parses_transient_grid_using_fdk_envelope_table_layout() {
    let mut writer = BitWriter::new();
    writer.write_bool(true);
    writer.write(10, 4);
    writer.write_bool(true);
    writer.write_bool(false);
    writer.write_bool(true);
    let bytes = writer.finish();
    let grid = LdSbrGrid::parse(&mut BitReader::new(&bytes), 16).unwrap();
    assert_eq!(grid.borders, vec![0, 10, 14, 16]);
    assert_eq!(grid.transient_envelope, Some(1));
    assert_eq!(grid.noise_borders, vec![0, 10, 16]);
    assert_eq!(grid.frequency_resolution, vec![true, false, true]);

    for (position, expected_borders, transient_envelope, noise_middle) in [
        (1u8, vec![0u8, 5, 16], 0usize, 5u8),
        (15u8, vec![0u8, 15, 16], 1usize, 15u8),
    ] {
        let mut writer = BitWriter::new();
        writer.write_bool(true);
        writer.write(position as u32, 4);
        writer.write_bool(false);
        writer.write_bool(true);
        let grid = LdSbrGrid::parse(&mut BitReader::new(&writer.finish()), 16).unwrap();
        assert_eq!(grid.borders, expected_borders);
        assert_eq!(grid.transient_envelope, Some(transient_envelope));
        assert_eq!(grid.noise_borders, vec![0, noise_middle, 16]);
    }
}

#[test]
fn rejects_reserved_eight_envelope_fixfix_grid() {
    let mut writer = BitWriter::new();
    writer.write_bool(false);
    writer.write(3, 2);
    let bytes = writer.finish();
    assert_eq!(
        LdSbrGrid::parse(&mut BitReader::new(&bytes), 16).unwrap_err(),
        LdSbrError::TooManyEnvelopes(8)
    );
}

#[test]
fn parses_uncoupled_stereo_prefix_through_direction_vectors() {
    let mut writer = BitWriter::new();
    writer.write_bool(true); // data extra
    writer.write(3, 4);
    writer.write(9, 4);
    writer.write_bool(false); // uncoupled
    for resolution in [false, true] {
        writer.write_bool(false); // FIXFIX
        writer.write(0, 2); // one envelope
        writer.write_bool(true); // current amp resolution
        writer.write_bool(resolution);
    }
    writer.write_bool(false); // left envelope frequency direction
    writer.write_bool(true); // left noise time direction
    writer.write_bool(true); // right envelope time direction
    writer.write_bool(false); // right noise frequency direction
    let bytes = writer.finish();
    let prefix =
        LdSbrChannelElementPrefix::parse(&mut BitReader::new(&bytes), 16, true).unwrap();
    assert_eq!(prefix.data_extra, Some((3, Some(9))));
    assert!(!prefix.coupling);
    assert_eq!(prefix.left.envelope_time_domain, vec![false]);
    assert_eq!(prefix.left.noise_time_domain, vec![true]);
    let right = prefix.right.unwrap();
    assert_eq!(right.grid.frequency_resolution, vec![true]);
    assert_eq!(right.envelope_time_domain, vec![true]);
    assert_eq!(right.noise_time_domain, vec![false]);
}

#[test]
fn derives_monotonic_frequency_tables_from_default_header() {
    let header = LdSbrHeader {
        start_frequency: 5,
        stop_frequency: 8,
        crossover_band: 2,
        ..LdSbrHeader::default()
    };
    let tables = LdSbrFrequencyTables::from_header(&header, 44_100).unwrap();
    for table in [&tables.master, &tables.high, &tables.low, &tables.noise] {
        assert!(table.windows(2).all(|pair| pair[0] < pair[1]));
    }
    assert_eq!(tables.high[0], tables.master[2]);
    assert_eq!(tables.high.last(), tables.master.last());
    assert_eq!(tables.low.first(), tables.high.first());
    assert_eq!(tables.low.last(), tables.high.last());
    assert_eq!(tables.noise.first(), tables.low.first());
    assert_eq!(tables.noise.last(), tables.low.last());
    assert_eq!(tables.noise_band_count(), tables.noise.len() - 1);

    assert!(matches!(
        LdSbrFrequencyTables::from_header(
            &LdSbrHeader {
                crossover_band: u8::MAX,
                ..header.clone()
            },
            44_100,
        ),
        Err(LdSbrError::InvalidCrossoverBand(u8::MAX))
    ));

    let mut odd_band_table = None;
    'find_odd_layout: for scale in 0..=3 {
        for alter_scale in [false, true] {
            for start_frequency in 0..=15 {
                for stop_frequency in 0..=15 {
                    for crossover_band in 0..=15 {
                        let candidate = LdSbrFrequencyTables::from_header(
                            &LdSbrHeader {
                                start_frequency,
                                stop_frequency,
                                crossover_band,
                                frequency_scale: Some(scale),
                                alter_scale: Some(alter_scale),
                                ..LdSbrHeader::default()
                            },
                            44_100,
                        );
                        if candidate
                            .as_ref()
                            .is_ok_and(|candidate| candidate.high_band_count() % 2 == 1)
                        {
                            odd_band_table = candidate.ok();
                            break 'find_odd_layout;
                        }
                    }
                }
            }
        }
    }
    let odd_band_table = odd_band_table.expect("an odd master-band layout exists");
    assert_eq!(odd_band_table.low.first(), odd_band_table.high.first());
    assert_eq!(odd_band_table.low.last(), odd_band_table.high.last());

    assert!(make_master(10, 20, 0, true).is_ok());
    assert!(make_master(10, 21, 0, false).is_ok());
    assert!(make_master(10, 20, 3, false).is_ok());
    assert_eq!(
        logarithmic_widths(10, 20, 0),
        Err(LdSbrError::InvalidFrequencyRange)
    );
    assert_eq!(logarithmic_widths(63, 64, 1), Ok(vec![1]));
    assert_eq!(
        logarithmic_widths(20, 10, 2),
        Err(LdSbrError::InvalidFrequencyRange)
    );
}

#[test]
fn loads_and_decodes_fdk_sbr_huffman_books() {
    assert_eq!(ENV_LEVEL_10_T.len(), 120);
    assert_eq!(ENV_LEVEL_11_T.len(), 62);
    assert_eq!(ENV_BALANCE_11_T.len(), 24);
    assert_eq!(NOISE_LEVEL_11_T.len(), 62);
    for book in [
        SbrHuffmanBook::EnvelopeLevel15Time,
        SbrHuffmanBook::EnvelopeLevel15Frequency,
        SbrHuffmanBook::EnvelopeLevel30Time,
        SbrHuffmanBook::EnvelopeLevel30Frequency,
        SbrHuffmanBook::EnvelopeBalance15Time,
        SbrHuffmanBook::EnvelopeBalance15Frequency,
        SbrHuffmanBook::EnvelopeBalance30Time,
        SbrHuffmanBook::EnvelopeBalance30Frequency,
        SbrHuffmanBook::NoiseLevelTime,
        SbrHuffmanBook::NoiseBalanceTime,
    ] {
        let encoded = encode_sbr_huffman(book, 0).unwrap();
        let mut writer = BitWriter::new();
        for bit in encoded {
            writer.write_bool(bit);
        }
        assert_eq!(
            decode_sbr_huffman(&mut BitReader::new(&writer.finish()), book).unwrap(),
            0
        );
    }
}

#[test]
fn frequency_lookup_and_resolution_mapping_cover_all_layouts() {
    for sampling_frequency in [
        16_000, 22_050, 24_000, 32_000, 40_000, 44_100, 48_000, 64_000, 88_200, 96_000,
    ] {
        let k0 = start_band(sampling_frequency, 0).unwrap();
        assert!(start_band(sampling_frequency, 15).unwrap() > k0);
        for stop_index in 0..=15 {
            let _ = stop_band(sampling_frequency, stop_index, k0);
        }
    }
    assert_eq!(start_band(12_345, 0), None);
    assert_eq!(start_band(44_100, 16), None);
    assert_eq!(stop_band(44_100, 16, 8), None);
    assert_eq!(stop_band(44_100, 0, 64), None);

    assert_eq!(low_to_high(4, 3, true), 3);
    assert_eq!(low_to_high(2, 1, false), 1);
    assert_eq!(low_to_high(2, 3, false), 4);
    assert_eq!(low_to_high(-2, 1, false), 3);
    assert_eq!(low_to_high(-2, 3, false), 8);

    let mut high = vec![0; 10];
    map_to_high(1, &mut high, 4, 2, true);
    assert_eq!(high[2], 1);

    let mut positive = vec![0; 10];
    map_to_high(2, &mut positive, 2, 1, false);
    map_to_high(3, &mut positive, 2, 3, false);
    assert_eq!(positive, [0, 2, 0, 0, 3, 3, 0, 0, 0, 0]);

    let mut negative = vec![0; 10];
    map_to_high(4, &mut negative, -2, 1, false);
    map_to_high(5, &mut negative, -2, 3, false);
    assert_eq!(negative, [0, 0, 0, 4, 4, 4, 0, 0, 5, 5]);
}

#[test]
fn reads_every_usac_envelope_and_noise_coding_mode() {
    let tables = LdSbrFrequencyTables {
        master: vec![10, 11, 12],
        high: vec![10, 11],
        low: vec![10, 11],
        noise: vec![10, 11, 12],
    };
    let control =
        |amp_resolution, envelope_time_domain, noise_time_domain| LdSbrChannelControl {
            grid: LdSbrGrid {
                transient: false,
                amp_resolution: Some(amp_resolution),
                borders: vec![0, 16],
                frequency_resolution: vec![true],
                transient_envelope: None,
                noise_borders: vec![0, 16],
            },
            envelope_time_domain: vec![envelope_time_domain],
            noise_time_domain: vec![noise_time_domain],
        };

    for (balance, amp_resolution, time_book) in [
        (false, false, SbrHuffmanBook::EnvelopeLevel15Time),
        (false, true, SbrHuffmanBook::EnvelopeLevel30Time),
        (true, false, SbrHuffmanBook::EnvelopeBalance15Time),
        (true, true, SbrHuffmanBook::EnvelopeBalance30Time),
    ] {
        let start_bits = match (balance, amp_resolution) {
            (false, false) => 7,
            (false, true) | (true, false) => 6,
            (true, true) => 5,
        };
        let mut writer = BitWriter::new();
        writer.write(0, start_bits);
        writer.write_bool(true);
        writer.write(2, 2);
        let (values, shaping) = read_envelopes_usac(
            &mut BitReader::new(&writer.finish()),
            &control(amp_resolution, false, false),
            &tables,
            false,
            balance,
            true,
        )
        .unwrap();
        assert_eq!(values, vec![vec![0]]);
        assert_eq!(
            shaping,
            vec![InterTesEnvelope {
                active: true,
                mode: 2
            }]
        );

        let mut writer = BitWriter::new();
        for bit in encode_sbr_huffman(time_book, 0).unwrap() {
            writer.write_bool(bit);
        }
        writer.write_bool(false);
        let (values, shaping) = read_envelopes_usac(
            &mut BitReader::new(&writer.finish()),
            &control(amp_resolution, true, false),
            &tables,
            false,
            balance,
            true,
        )
        .unwrap();
        assert_eq!(values, vec![vec![0]]);
        assert_eq!(
            shaping,
            vec![InterTesEnvelope {
                active: false,
                mode: 0
            }]
        );
    }

    let mut low_resolution = control(false, false, false);
    low_resolution.grid.frequency_resolution[0] = false;
    let mut writer = BitWriter::new();
    writer.write(0, 7);
    let (values, shaping) = read_envelopes_usac(
        &mut BitReader::new(&writer.finish()),
        &low_resolution,
        &tables,
        false,
        false,
        false,
    )
    .unwrap();
    assert_eq!(values, vec![vec![0]]);
    assert_eq!(
        shaping,
        vec![InterTesEnvelope {
            active: false,
            mode: 0,
        }]
    );

    let wider_tables = LdSbrFrequencyTables {
        master: vec![10, 11, 12],
        high: vec![10, 11, 12],
        low: vec![10, 11, 12],
        noise: vec![10, 12],
    };
    let mut absolute_only = BitWriter::new();
    absolute_only.write(0, 6);
    let bits = absolute_only.bits_written();
    let bytes = absolute_only.finish();
    assert!(read_envelopes_usac(
        &mut BitReader::with_bit_len(&bytes, bits).unwrap(),
        &control(true, false, false),
        &wider_tables,
        false,
        false,
        false,
    )
    .is_err());

    for (balance, time_domain, book) in [
        (false, false, SbrHuffmanBook::EnvelopeLevel30Frequency),
        (true, false, SbrHuffmanBook::EnvelopeBalance30Frequency),
        (false, true, SbrHuffmanBook::NoiseLevelTime),
        (true, true, SbrHuffmanBook::NoiseBalanceTime),
    ] {
        let mut writer = BitWriter::new();
        if !time_domain {
            writer.write(0, 5);
        }
        let words = if time_domain { 2 } else { 1 };
        for _ in 0..words {
            for bit in encode_sbr_huffman(book, 0).unwrap() {
                writer.write_bool(bit);
            }
        }
        let values = read_noise(
            &mut BitReader::new(&writer.finish()),
            &control(true, false, time_domain),
            &tables,
            balance,
        )
        .unwrap();
        assert_eq!(values, vec![vec![0, 0]]);
    }

    let channel_control = control(true, false, false);
    let mut writer = BitWriter::new();
    writer.write(0, 4); // two inverse-filtering modes
    writer.write(0, 6); // level envelope absolute value
    writer.write(0, 5); // level noise absolute value
    write_huffman(&mut writer, SbrHuffmanBook::EnvelopeLevel30Frequency);
    let (mono, shaping) = LdSbrChannelValues::parse_mono_after_prefix_usac(
        &mut BitReader::new(&writer.finish()),
        &channel_control,
        &tables,
        true,
        false,
    )
    .unwrap();
    assert_eq!(mono.inverse_filtering_modes, [0, 0]);
    assert_eq!(mono.envelopes, [vec![0]]);
    assert_eq!(mono.noise, [vec![0, 0]]);
    assert_eq!(
        shaping,
        [InterTesEnvelope {
            active: false,
            mode: 0
        }]
    );

    for coupling in [false, true] {
        let prefix = LdSbrChannelElementPrefix {
            data_extra: None,
            coupling,
            left: channel_control.clone(),
            right: Some(channel_control.clone()),
        };
        let mut writer = BitWriter::new();
        writer.write(0, 4); // left inverse-filtering modes
        if !coupling {
            writer.write(0, 4); // right inverse-filtering modes
        }
        writer.write(0, 6); // left level envelope
        if coupling {
            writer.write(0, 5); // left level noise
            write_huffman(&mut writer, SbrHuffmanBook::EnvelopeLevel30Frequency);
            writer.write(0, 5); // right balance envelope
            writer.write(0, 5); // right balance noise
            write_huffman(&mut writer, SbrHuffmanBook::EnvelopeBalance30Frequency);
        } else {
            writer.write(0, 6); // right level envelope
            for _ in 0..2 {
                writer.write(0, 5); // level noise
                write_huffman(&mut writer, SbrHuffmanBook::EnvelopeLevel30Frequency);
            }
        }
        let ((left, _), (right, _)) = LdSbrChannelValues::parse_stereo_after_prefix_usac(
            &mut BitReader::new(&writer.finish()),
            &prefix,
            &tables,
            true,
            false,
        )
        .unwrap();
        assert_eq!(left.inverse_filtering_modes, [0, 0]);
        assert_eq!(right.inverse_filtering_modes, [0, 0]);
        assert_eq!(left.envelopes, [vec![0]]);
        assert_eq!(right.envelopes, [vec![0]]);
        assert_eq!(left.noise, [vec![0, 0]]);
        assert_eq!(right.noise, [vec![0, 0]]);
    }

    let mut invf_only = BitWriter::new();
    invf_only.write(0, 4);
    let bits = invf_only.bits_written();
    let bytes = invf_only.finish();
    assert!(LdSbrChannelValues::parse_mono_after_prefix_usac(
        &mut BitReader::with_bit_len(&bytes, bits).unwrap(),
        &channel_control,
        &tables,
        true,
        false,
    )
    .is_err());

    let uncoupled = LdSbrChannelElementPrefix {
        data_extra: None,
        coupling: false,
        left: channel_control.clone(),
        right: Some(channel_control.clone()),
    };
    let mut invf_only = BitWriter::new();
    invf_only.write(0, 8);
    let bits = invf_only.bits_written();
    let bytes = invf_only.finish();
    assert!(LdSbrChannelValues::parse_stereo_after_prefix_usac(
        &mut BitReader::with_bit_len(&bytes, bits).unwrap(),
        &uncoupled,
        &tables,
        true,
        false,
    )
    .is_err());

    let mut left_only = BitWriter::new();
    left_only.write(0, 8); // both inverse-filtering modes
    left_only.write(0, 6); // complete left envelope
    let bits = left_only.bits_written();
    let bytes = left_only.finish();
    assert!(LdSbrChannelValues::parse_stereo_after_prefix_usac(
        &mut BitReader::with_bit_len(&bytes, bits).unwrap(),
        &uncoupled,
        &tables,
        true,
        false,
    )
    .is_err());

    let coupled = LdSbrChannelElementPrefix {
        data_extra: None,
        coupling: true,
        left: channel_control.clone(),
        right: Some(channel_control.clone()),
    };
    let mut left_only = BitWriter::new();
    left_only.write(0, 4); // shared inverse-filtering modes
    left_only.write(0, 6); // complete left envelope
    left_only.write(0, 5); // first left noise value
    write_huffman(&mut left_only, SbrHuffmanBook::EnvelopeLevel30Frequency);
    let bits = left_only.bits_written();
    let bytes = left_only.finish();
    assert!(LdSbrChannelValues::parse_stereo_after_prefix_usac(
        &mut BitReader::with_bit_len(&bytes, bits).unwrap(),
        &coupled,
        &tables,
        true,
        false,
    )
    .is_err());

    let missing_right = LdSbrChannelElementPrefix {
        data_extra: None,
        coupling: false,
        left: channel_control,
        right: None,
    };
    assert_eq!(
        LdSbrChannelValues::parse_stereo_after_prefix_usac(
            &mut BitReader::new(&[]),
            &missing_right,
            &tables,
            true,
            false,
        ),
        Err(LdSbrError::ExpectedStereo)
    );
}

#[test]
fn parses_mono_invf_envelope_and_noise_values() {
    let header = LdSbrHeader {
        start_frequency: 5,
        stop_frequency: 8,
        crossover_band: 2,
        ..LdSbrHeader::default()
    };
    let tables = LdSbrFrequencyTables::from_header(&header, 44_100).unwrap();
    let control = LdSbrChannelControl {
        grid: LdSbrGrid {
            transient: false,
            amp_resolution: Some(true),
            borders: vec![0, 16],
            frequency_resolution: vec![true],
            transient_envelope: None,
            noise_borders: vec![0, 16],
        },
        envelope_time_domain: vec![false],
        noise_time_domain: vec![false],
    };
    let mut writer = BitWriter::new();
    for mode in 0..tables.noise_band_count() {
        writer.write((mode & 3) as u32, 2);
    }
    writer.write(17, 6); // absolute envelope value
    for _ in 1..tables.high_band_count() {
        writer.write_bool(false); // zero delta in EnvLevel11F
    }
    writer.write(7, 5); // absolute noise value
    for _ in 1..tables.noise_band_count() {
        writer.write_bool(false); // zero delta in EnvLevel11F
    }
    let bytes = writer.finish();
    let values = LdSbrChannelValues::parse_mono_after_prefix(
        &mut BitReader::new(&bytes),
        &control,
        &tables,
        false,
    )
    .unwrap();
    assert_eq!(values.envelopes[0][0], 17);
    assert!(values.envelopes[0][1..].iter().all(|&value| value == 0));
    assert_eq!(values.noise[0][0], 7);
    assert!(values.noise[0][1..].iter().all(|&value| value == 0));
}

#[test]
fn reconstructs_frequency_and_time_deltas_with_low_high_mapping() {
    let tables = LdSbrFrequencyTables {
        master: vec![10, 11, 12, 13, 14],
        high: vec![10, 11, 12, 13, 14],
        low: vec![10, 12, 14],
        noise: vec![10, 12, 14],
    };
    let control = LdSbrChannelControl {
        grid: LdSbrGrid {
            transient: false,
            amp_resolution: None,
            borders: vec![0, 8, 16],
            frequency_resolution: vec![false, true],
            transient_envelope: None,
            noise_borders: vec![0, 8, 16],
        },
        envelope_time_domain: vec![false, true],
        noise_time_domain: vec![false, true],
    };
    let mut values = LdSbrChannelValues {
        inverse_filtering_modes: vec![0, 0],
        envelopes: vec![vec![10, 2], vec![1, 2, 3, 4]],
        noise: vec![vec![5, 1], vec![1, -1]],
    };
    let mut previous = LdSbrPreviousValues::default();
    values
        .reconstruct_deltas(&control, &tables, &mut previous)
        .unwrap();
    assert_eq!(values.envelopes, vec![vec![10, 12], vec![11, 12, 15, 16]]);
    assert_eq!(previous.envelope_high, vec![11, 12, 15, 16]);
    assert_eq!(values.noise, vec![vec![5, 6], vec![6, 5]]);
    assert_eq!(previous.noise, vec![6, 5]);
}

#[test]
fn parses_harmonic_flags_and_extended_data() {
    let mut writer = BitWriter::new();
    writer.write_bool(true);
    for value in [true, false, true, true] {
        writer.write_bool(value);
    }
    writer.write_bool(true);
    writer.write(2, 4);
    writer.write(0xa5, 8);
    writer.write(0x5a, 8);
    let bytes = writer.finish();
    let mut reader = BitReader::new(&bytes);
    assert_eq!(
        read_add_harmonics(&mut reader, 4).unwrap(),
        vec![true, false, true, true]
    );
    assert_eq!(read_extended_data(&mut reader).unwrap(), vec![0xa5, 0x5a]);

    assert!(read_extended_data(&mut BitReader::new(&[]))
        .unwrap()
        .is_empty());
    assert!(read_extended_data(&mut BitReader::new(&[0]))
        .unwrap()
        .is_empty());

    let mut writer = BitWriter::new();
    writer.write_bool(true);
    writer.write(15, 4);
    writer.write(1, 8);
    for value in 0u8..16 {
        writer.write(value as u32, 8);
    }
    assert_eq!(
        read_extended_data(&mut BitReader::new(&writer.finish())).unwrap(),
        (0u8..16).collect::<Vec<_>>()
    );

    let mut writer = BitWriter::new();
    writer.write_bool(true);
    writer.write(1, 4);
    assert_eq!(
        read_extended_data(&mut BitReader::new(&writer.finish())),
        Err(LdSbrError::UnexpectedEof)
    );
}

#[test]
fn parses_uncoupled_stereo_values_in_fdk_payload_order() {
    let tables = LdSbrFrequencyTables {
        master: vec![10, 11],
        high: vec![10, 11],
        low: vec![10, 11],
        noise: vec![10, 11],
    };
    let control = |resolution| LdSbrChannelControl {
        grid: LdSbrGrid {
            transient: false,
            amp_resolution: Some(true),
            borders: vec![0, 16],
            frequency_resolution: vec![resolution],
            transient_envelope: None,
            noise_borders: vec![0, 16],
        },
        envelope_time_domain: vec![false],
        noise_time_domain: vec![false],
    };
    let prefix = LdSbrChannelElementPrefix {
        data_extra: None,
        coupling: false,
        left: control(false),
        right: Some(control(true)),
    };
    let mut writer = BitWriter::new();
    writer.write(1, 2); // left invf
    writer.write(2, 2); // right invf
    writer.write(11, 6); // left envelope
    writer.write(22, 6); // right envelope
    writer.write(3, 5); // left noise
    writer.write(7, 5); // right noise
    let bytes = writer.finish();
    let (left, right) = LdSbrChannelValues::parse_stereo_after_prefix(
        &mut BitReader::new(&bytes),
        &prefix,
        &tables,
        false,
    )
    .unwrap();
    assert_eq!(left.inverse_filtering_modes, vec![1]);
    assert_eq!(right.inverse_filtering_modes, vec![2]);
    assert_eq!(left.envelopes, vec![vec![11]]);
    assert_eq!(right.envelopes, vec![vec![22]]);
    assert_eq!(left.noise, vec![vec![3]]);
    assert_eq!(right.noise, vec![vec![7]]);
}

#[test]
fn stateful_frame_parser_carries_time_deltas_across_frames() {
    let header = LdSbrHeader {
        amp_resolution: true,
        start_frequency: 5,
        stop_frequency: 8,
        crossover_band: 2,
        ..LdSbrHeader::default()
    };
    let tables = LdSbrFrequencyTables::from_header(&header, 44_100).unwrap();
    let write_frame = |time_domain: bool| {
        let mut writer = BitWriter::new();
        writer.write_bool(false); // no frame header
        writer.write_bool(false); // no data_extra
        writer.write_bool(false); // FIXFIX
        writer.write(0, 2); // one envelope
        writer.write_bool(true); // current amp resolution
        writer.write_bool(true); // high frequency resolution
        writer.write_bool(time_domain); // envelope direction
        writer.write_bool(time_domain); // noise direction
        for _ in 0..tables.noise_band_count() {
            writer.write(0, 2); // invf mode
        }
        if !time_domain {
            writer.write(12, 6);
        }
        for _ in (if time_domain { 0 } else { 1 })..tables.high_band_count() {
            writer.write_bool(false); // zero Huffman delta
        }
        if !time_domain {
            writer.write(4, 5);
        }
        for _ in (if time_domain { 0 } else { 1 })..tables.noise_band_count() {
            writer.write_bool(false); // zero Huffman delta
        }
        writer.write_bool(false); // no harmonics
        writer.write_bool(false); // no extended data
        writer.finish()
    };
    let first = write_frame(false);
    let second = write_frame(true);
    for bit_len in 0..first.len() * 8 {
        let mut reader = BitReader::with_bit_len(&first, bit_len).unwrap();
        let _ = LdSbrFrameParser::new(header.clone(), 44_100, 512, false, false)
            .unwrap()
            .parse(&mut reader);
    }
    let mut parser = LdSbrFrameParser::new(header, 44_100, 512, false, false).unwrap();
    assert_eq!(parser.header().crossover_band, 2);
    let first = parser.parse(&mut BitReader::new(&first)).unwrap();
    let second = parser.parse(&mut BitReader::new(&second)).unwrap();
    assert_eq!(first.left.envelopes[0], second.left.envelopes[0]);
    assert_eq!(first.left.noise[0], second.left.noise[0]);
    assert!(!first.header_present);
    assert!(first.left_harmonics.iter().all(|&value| !value));
}

#[test]
fn stateful_frame_parser_decodes_coupled_stereo_payload() {
    let header = LdSbrHeader {
        amp_resolution: true,
        start_frequency: 5,
        stop_frequency: 8,
        crossover_band: 2,
        ..LdSbrHeader::default()
    };
    let tables = LdSbrFrequencyTables::from_header(&header, 44_100).unwrap();
    let mut writer = BitWriter::new();
    writer.write_bool(false); // no frame header
    writer.write_bool(false); // no data extra
    writer.write_bool(true); // coupling
    writer.write_bool(false); // FIXFIX
    writer.write(0, 2); // one envelope
    writer.write_bool(true); // current amplitude resolution
    writer.write_bool(true); // high frequency resolution
    for _ in 0..2 {
        writer.write_bool(false); // envelope frequency direction
        writer.write_bool(false); // noise frequency direction
    }
    for _ in 0..tables.noise_band_count() {
        writer.write(1, 2); // shared inverse filtering
    }
    writer.write(9, 6); // coupled level envelope
    for _ in 1..tables.high_band_count() {
        for bit in encode_sbr_huffman(SbrHuffmanBook::EnvelopeLevel30Frequency, 0).unwrap() {
            writer.write_bool(bit);
        }
    }
    writer.write(6, 5); // coupled level noise
    for _ in 1..tables.noise_band_count() {
        for bit in encode_sbr_huffman(SbrHuffmanBook::EnvelopeLevel30Frequency, 0).unwrap() {
            writer.write_bool(bit);
        }
    }
    writer.write(6, 5); // centered envelope balance
    for _ in 1..tables.high_band_count() {
        for bit in encode_sbr_huffman(SbrHuffmanBook::EnvelopeBalance30Frequency, 0).unwrap() {
            writer.write_bool(bit);
        }
    }
    writer.write(6, 5); // centered noise balance
    for _ in 1..tables.noise_band_count() {
        for bit in encode_sbr_huffman(SbrHuffmanBook::EnvelopeBalance30Frequency, 0).unwrap() {
            writer.write_bool(bit);
        }
    }
    writer.write_bool(false); // no left harmonics
    writer.write_bool(false); // no right harmonics
    writer.write_bool(false); // no extended data

    let bits = writer.bits_written();
    let bytes = writer.finish();
    let mut reader = BitReader::with_bit_len(&bytes, bits).unwrap();
    let frame = LdSbrFrameParser::new(header.clone(), 44_100, 512, true, false)
        .unwrap()
        .parse(&mut reader)
        .unwrap();
    assert_eq!(reader.bits_read(), bits);
    assert!(frame.prefix.coupling);
    assert!(frame.right.is_some());
    assert!(frame.right_harmonics.unwrap().iter().all(|value| !value));
    let right = frame.right.unwrap();
    let shared = LdSbrChannelValues::dequantize_coupled_pair(
        &frame.left,
        &right,
        &frame.prefix.left,
        frame.active_header.amp_resolution,
    )
    .unwrap();
    let (left_energy, right_energy) = split_energies(&shared.envelope_energy);
    for (left, right) in left_energy[0].iter().zip(&right_energy[0]) {
        assert!((left - right).abs() < 1.0e-12);
    }
    for bit_len in 0..bits {
        let mut reader = BitReader::with_bit_len(&bytes, bit_len).unwrap();
        let _ = LdSbrFrameParser::new(header.clone(), 44_100, 512, true, false)
            .unwrap()
            .parse(&mut reader);
    }

    let mut writer = BitWriter::new();
    writer.write_bool(false); // no frame header
    writer.write_bool(false); // no data extra
    writer.write_bool(false); // uncoupled stereo
    for _ in 0..2 {
        writer.write_bool(false); // FIXFIX
        writer.write(0, 2); // one envelope
        writer.write_bool(true); // current amplitude resolution
        writer.write_bool(true); // high frequency resolution
    }
    for _ in 0..2 {
        writer.write_bool(false); // envelope frequency direction
        writer.write_bool(false); // noise frequency direction
    }
    for _ in 0..2 * tables.noise_band_count() {
        writer.write(1, 2);
    }
    for absolute in [9, 10] {
        writer.write(absolute, 6);
        for _ in 1..tables.high_band_count() {
            for bit in encode_sbr_huffman(SbrHuffmanBook::EnvelopeLevel30Frequency, 0).unwrap()
            {
                writer.write_bool(bit);
            }
        }
    }
    for absolute in [6, 7] {
        writer.write(absolute, 5);
        for _ in 1..tables.noise_band_count() {
            for bit in encode_sbr_huffman(SbrHuffmanBook::EnvelopeLevel30Frequency, 0).unwrap()
            {
                writer.write_bool(bit);
            }
        }
    }
    writer.write_bool(false); // no left harmonics
    writer.write_bool(false); // no right harmonics
    writer.write_bool(false); // no extended data
    let bits = writer.bits_written();
    let bytes = writer.finish();
    let mut reader = BitReader::with_bit_len(&bytes, bits).unwrap();
    let frame = LdSbrFrameParser::new(header, 44_100, 512, true, false)
        .unwrap()
        .parse(&mut reader)
        .unwrap();
    assert!(!frame.prefix.coupling);
    assert!(frame.right.is_some());
}

#[test]
fn validates_eld_sbr_crc10() {
    let header = LdSbrHeader {
        amp_resolution: true,
        start_frequency: 5,
        stop_frequency: 8,
        crossover_band: 2,
        ..LdSbrHeader::default()
    };
    let tables = LdSbrFrequencyTables::from_header(&header, 44_100).unwrap();
    let mut writer = BitWriter::new();
    writer.write(0, 10); // patched CRC
    writer.write_bool(false); // no frame header
    writer.write_bool(false); // no data_extra
    writer.write_bool(false); // FIXFIX
    writer.write(0, 2);
    writer.write_bool(true);
    writer.write_bool(true);
    writer.write_bool(false); // envelope frequency direction
    writer.write_bool(false); // noise frequency direction
    for _ in 0..tables.noise_band_count() {
        writer.write(0, 2);
    }
    writer.write(12, 6);
    for _ in 1..tables.high_band_count() {
        writer.write_bool(false);
    }
    writer.write(4, 5);
    for _ in 1..tables.noise_band_count() {
        writer.write_bool(false);
    }
    writer.write_bool(false); // harmonics
    writer.write_bool(false); // extension
    let region_bits = writer.bits_written() - 10;
    let mut bytes = writer.finish();
    let crc = BitReader::new(&bytes).crc_msb(10, 10 + region_bits, 10, 0x0633) as u16;
    bytes[0] = (crc >> 2) as u8;
    bytes[1] = (bytes[1] & 0x3f) | ((crc as u8 & 3) << 6);
    let mut parser = LdSbrFrameParser::new(header.clone(), 44_100, 512, false, true).unwrap();
    assert_eq!(
        parser
            .parse(&mut BitReader::new(&bytes))
            .unwrap()
            .transmitted_crc,
        Some(crc)
    );
    let invf_payload_bit = 19;
    bytes[invf_payload_bit / 8] ^= 1 << (7 - invf_payload_bit % 8);
    let mut parser = LdSbrFrameParser::new(header, 44_100, 512, false, true).unwrap();
    assert!(matches!(
        parser.parse(&mut BitReader::new(&bytes)),
        Err(LdSbrError::CrcMismatch { .. })
    ));
}

#[test]
fn dequantizes_uncoupled_and_unmaps_centered_coupling() {
    let control = LdSbrChannelControl {
        grid: LdSbrGrid {
            transient: false,
            amp_resolution: Some(true),
            borders: vec![0, 16],
            frequency_resolution: vec![true],
            transient_envelope: None,
            noise_borders: vec![0, 16],
        },
        envelope_time_domain: vec![false],
        noise_time_domain: vec![false],
    };
    let level = LdSbrChannelValues {
        inverse_filtering_modes: vec![0],
        envelopes: vec![vec![0, 1]],
        noise: vec![vec![6, 5]],
    };
    let uncoupled = level.dequantize_uncoupled(&control, false);
    assert_eq!(
        energies(&uncoupled.envelope_energy),
        vec![vec![64.0 / 1_048_576.0, 128.0 / 1_048_576.0]]
    );
    assert_eq!(energies(&uncoupled.noise_energy), vec![vec![1.0, 2.0]]);

    let balance = LdSbrChannelValues {
        inverse_filtering_modes: vec![0],
        envelopes: vec![vec![12, 12]],
        noise: vec![vec![12, 12]],
    };
    let shared =
        LdSbrChannelValues::dequantize_coupled_pair(&level, &balance, &control, false).unwrap();
    let (left_envelope, right_envelope) = split_energies(&shared.envelope_energy);
    let (left_noise, right_noise) = split_energies(&shared.noise_energy);
    assert_eq!(left_envelope, right_envelope);
    assert_eq!(left_noise, right_noise);
    assert_eq!(left_envelope, energies(&uncoupled.envelope_energy));
    assert_eq!(left_noise, energies(&uncoupled.noise_energy));

    let mut mismatched = balance.clone();
    mismatched.envelopes.clear();
    assert_eq!(
        LdSbrChannelValues::dequantize_coupled_pair(&level, &mismatched, &control, false,),
        Err(LdSbrError::CoupledLayoutMismatch)
    );
    mismatched = balance.clone();
    mismatched.envelopes[0].pop();
    assert_eq!(
        LdSbrChannelValues::dequantize_coupled_pair(&level, &mismatched, &control, false,),
        Err(LdSbrError::CoupledLayoutMismatch)
    );
    mismatched = balance;
    mismatched.noise[0].pop();
    assert_eq!(
        LdSbrChannelValues::dequantize_coupled_pair(&level, &mismatched, &control, false,),
        Err(LdSbrError::CoupledLayoutMismatch)
    );
}

#[test]
fn exponents_count_in_halves() {
    let control = LdSbrChannelControl {
        grid: LdSbrGrid {
            transient: false,
            amp_resolution: None,
            borders: vec![0, 16],
            frequency_resolution: vec![true],
            transient_envelope: None,
            noise_borders: vec![0, 16],
        },
        envelope_time_domain: vec![false],
        noise_time_domain: vec![false],
    };
    let level = LdSbrChannelValues {
        inverse_filtering_modes: vec![],
        envelopes: vec![vec![5]],
        noise: vec![vec![2]],
    };
    let balance = LdSbrChannelValues {
        inverse_filtering_modes: vec![],
        envelopes: vec![vec![20]],
        noise: vec![vec![15]],
    };
    let fine = level.dequantize_uncoupled(&control, false);
    assert_eq!(fine.envelope_energy, [[-23]]);
    assert_eq!(fine.noise_energy, [[8]]);
    assert_eq!(level.dequantize_uncoupled(&control, true).envelope_energy, [[-18]]);
    let pair = LdSbrChannelValues::dequantize_coupled_pair(&level, &balance, &control, false).unwrap();
    assert_eq!(pair.envelope_energy, [[SharedEnergy { total: -23, ratio: -4 }]]);
    assert_eq!(pair.noise_energy, [[SharedEnergy { total: 8, ratio: 6 }]]);
}

#[test]
fn rows_may_be_longer_than_their_table_where_the_bands_exist() {
    let tables = LdSbrFrequencyTables {
        master: vec![10, 16],
        high: vec![10, 11, 12, 13, 14, 15, 16],
        low: vec![10, 16],
        noise: vec![10, 16],
    };
    let control = LdSbrChannelControl {
        grid: LdSbrGrid {
            transient: false,
            amp_resolution: None,
            borders: vec![0, 16],
            frequency_resolution: vec![false],
            transient_envelope: None,
            noise_borders: vec![0, 16],
        },
        envelope_time_domain: vec![false],
        noise_time_domain: vec![],
    };
    let mut values = LdSbrChannelValues {
        inverse_filtering_modes: vec![],
        envelopes: vec![vec![10, 2]],
        noise: vec![],
    };
    assert!(values.fits(&control, &tables));
    let mut previous = LdSbrPreviousValues::default();
    values.reconstruct_deltas(&control, &tables, &mut previous).unwrap();
    assert_eq!(values.envelopes, vec![vec![10, 12]]);
    assert_eq!(previous.envelope_high, [10, 10, 10, 12, 12, 12]);
    values.envelopes[0].push(1);
    assert!(!values.fits(&control, &tables));
}

#[test]
fn a_pair_without_a_right_channel_is_refused_at_once() {
    let tables = LdSbrFrequencyTables {
        master: vec![],
        high: vec![],
        low: vec![],
        noise: vec![],
    };
    let prefix = LdSbrChannelElementPrefix {
        data_extra: None,
        coupling: false,
        left: LdSbrChannelControl {
            grid: LdSbrGrid {
                transient: false,
                amp_resolution: None,
                borders: vec![0, 16],
                frequency_resolution: vec![true],
                transient_envelope: None,
                noise_borders: vec![0, 16],
            },
            envelope_time_domain: vec![],
            noise_time_domain: vec![],
        },
        right: None,
    };
    let mut reader = BitReader::new(&[0xff]);
    assert_eq!(
        LdSbrChannelValues::parse_stereo_after_prefix(&mut reader, &prefix, &tables, true),
        Err(LdSbrError::ExpectedStereo)
    );
    assert_eq!(
        LdSbrChannelValues::parse_stereo_after_prefix_usac(&mut reader, &prefix, &tables, true, true),
        Err(LdSbrError::ExpectedStereo)
    );
    assert_eq!(reader.bits_read(), 0);
}

#[test]
fn stop_bands_follow_from_any_rate() {
    assert_eq!(stop_band(20_000, 0, 10), Some(38));
    assert_eq!(stop_band(20_000, 5, 10), Some(46));
    assert_eq!(stop_band(250_000, 4, 2), Some(11));
    // The lowest stop band is the last band, or none.
    assert_eq!(stop_band(1, 3, 0), None);
    assert_eq!(stop_band(2_560_001, 3, 0), None);
    assert_eq!(stop_band(u32::MAX, 13, 0), None);
    assert_eq!(stop_band(0, 14, 10), Some(20));
}

#[test]
fn master_tables_of_any_range() {
    assert_eq!(make_master(40, 60, 1, false), Ok(vec![40, 42, 44, 46, 48, 51, 54, 57, 60]));
    assert_eq!(make_master(100, 103, 0, false), Ok(vec![100, 101, 103]));
    assert_eq!(make_master(0, 4, 0, true), Ok(vec![0, 2, 4]));
    assert_eq!(make_master(9, 9, 0, false), Ok(vec![9, 9, 9]));
    assert_eq!(make_master(9, 9, 0, true), Ok(vec![9, 10, 11]));
    assert_eq!(make_master(9, 10, 0, false), Ok(vec![9, 9, 10]));
    assert_eq!(make_master(20, 10, 1, false), Err(LdSbrError::InvalidFrequencyRange));
    assert_eq!(make_master(20, 20, 2, true), Err(LdSbrError::InvalidFrequencyRange));
    assert_eq!(logarithmic_widths_for_density(40, 60, 0x6000, false), Ok(vec![2, 2, 3, 2, 3, 2, 3, 3]));
    assert_eq!(
        logarithmic_widths_for_density(60, 40, 0x6000, true),
        Err(LdSbrError::InvalidFrequencyRange)
    );
}

#[test]
fn grids_of_any_size() {
    assert_eq!(fixed_borders(16, 3), [0, 5, 10, 16]);
    let mut many = vec![0; 20];
    many.push(15);
    assert_eq!(fixed_borders(15, 20), many);
    let wrapped = fixed_borders(16, 272);
    assert_eq!(wrapped.len(), 273);
    assert_eq!(wrapped[255..258], [255, 0, 1]);
    assert_eq!(transient_row(16, 1), [2, 0, 0, 5, -1, -1]);
    assert_eq!(transient_row(16, 10), [3, 1, 1, 10, 14, -1]);
    assert_eq!(transient_row(15, 10), [2, 1, 1, 10, -1, -1]);
    assert_eq!(transient_row(16, 200), [2, 1, 1, -56, -1, -1]);

    let grid = LdSbrGrid {
        transient: false,
        amp_resolution: None,
        borders: vec![0, 1, 2, 3, 4, 16],
        frequency_resolution: vec![true; 5],
        transient_envelope: None,
        noise_borders: vec![0, 4, 8, 16],
    };
    let mut reader = BitReader::new(&[0b1010_1110]);
    let control = read_channel_control(&mut reader, grid.clone()).unwrap();
    assert_eq!(control.grid, grid);
    assert_eq!(control.envelope_time_domain, [true, false, true, false, true]);
    assert_eq!(control.noise_time_domain, [true, true, false]);
    assert_eq!(read_channel_control(&mut reader, grid), Err(LdSbrError::UnexpectedEof));
}
