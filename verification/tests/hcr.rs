//! Codeword reordering.

use fdk_aac::bits::{BitError, BitReader, BitWriter};
use fdk_aac::hcr::{
    codewords_to_spectral_data, copy_directional_bits, decode_priority_codewords, decode_reordered_codewords,
    decode_segment_codeword, encode_reordered_codewords, prepare_segmentation_grid, restore_segment_bits, sections_from_ics,
    spectral_is_unexpected_eof, take_segment_bit, try_decode_exact, validate_segment_width, HcrDecodedCodeword,
    HcrElementType, HcrError, HcrReadDirection, HcrSection, HcrSegmentState, HcrSideInfo,
};
use fdk_aac::huffman::{spectral_tuple_bit_cost, HuffmanError};
use fdk_aac::ics::{IcsInfo, WindowSequence, WindowShape};
use fdk_aac::section::{Section, SectionData};
use fdk_aac::spectral::SpectralError;

#[test]
fn converts_and_formats_every_hcr_error_variant() {
    let bit = BitError::UnexpectedEof {
        needed_bits: 1,
        remaining_bits: 0,
    };
    let spectral = SpectralError::InvalidBandOffsets;
    assert_eq!(HcrError::from(bit.clone()), HcrError::Bit(bit));
    assert_eq!(
        HcrError::from(spectral.clone()),
        HcrError::Spectral(spectral)
    );
    let errors = [
        HcrError::Bit(BitError::UnexpectedEof {
            needed_bits: 1,
            remaining_bits: 0,
        }),
        HcrError::Spectral(SpectralError::InvalidBandOffsets),
        HcrError::ReorderedSpectralLengthOutOfRange {
            length: 2,
            maximum: 1,
        },
        HcrError::LongestCodewordLengthOutOfRange {
            length: 2,
            maximum: 1,
        },
        HcrError::InconsistentLengths {
            reordered_spectral_bits: 1,
            longest_codeword_bits: 2,
        },
        HcrError::InvalidCodebook(12),
        HcrError::InvalidSectionLineCount {
            section: 0,
            spectral_lines: 3,
            dimension: 2,
        },
        HcrError::PayloadTooShort {
            needed_bits: 2,
            available_bits: 1,
        },
        HcrError::SegmentOverrun {
            section: 0,
            codeword: 1,
            consumed_bits: 2,
            segment_bits: 1,
        },
        HcrError::LayoutMismatch,
        HcrError::ShortBandNotFourLineAligned { band: 0, width: 3 },
        HcrError::EmptySegment,
        HcrError::SegmentReadOverrun {
            consumed_bits: 2,
            available_bits: 1,
        },
        HcrError::IncompleteCodeword {
            section: 0,
            codeword: 1,
            accumulated_bits: 2,
        },
        HcrError::MissingCodeword {
            section: 0,
            codeword: 1,
        },
        HcrError::CoefficientDimensionMismatch {
            section: 0,
            codeword: 1,
            expected: 4,
            actual: 2,
        },
        HcrError::LargestAbsoluteValueExceeded {
            codebook: 16,
            value: 17,
            maximum: 16,
        },
    ];
    for error in errors {
        assert!(!error.to_string().is_empty());
    }
}

#[test]
fn segment_bit_helpers_cover_both_directions_and_boundaries() {
    let mut state = HcrSegmentState {
        left_bit: 0,
        right_bit: 3,
        remaining_bits: 4,
    };
    assert!(
        take_segment_bit(&[0b1001_0000], &mut state, HcrReadDirection::LeftToRight).unwrap()
    );
    assert_eq!(
        (state.left_bit, state.right_bit, state.remaining_bits()),
        (1, 3, 3)
    );
    restore_segment_bits(&mut state, HcrReadDirection::LeftToRight, 1);
    assert_eq!(
        (state.left_bit, state.right_bit, state.remaining_bits()),
        (0, 3, 4)
    );

    assert!(
        take_segment_bit(&[0b1001_0000], &mut state, HcrReadDirection::RightToLeft).unwrap()
    );
    assert_eq!(
        (state.left_bit, state.right_bit, state.remaining_bits()),
        (0, 2, 3)
    );
    restore_segment_bits(&mut state, HcrReadDirection::RightToLeft, 1);
    assert_eq!(
        (state.left_bit, state.right_bit, state.remaining_bits()),
        (0, 3, 4)
    );

    let mut empty = HcrSegmentState {
        left_bit: 0,
        right_bit: 0,
        remaining_bits: 0,
    };
    assert_eq!(
        take_segment_bit(&[0], &mut empty, HcrReadDirection::LeftToRight),
        Err(HcrError::EmptySegment)
    );
    assert_eq!(
        decode_segment_codeword(&[0], &mut empty, 1, HcrReadDirection::LeftToRight),
        Err(HcrError::EmptySegment)
    );

    let mut beyond_payload = HcrSegmentState {
        left_bit: 8,
        right_bit: 8,
        remaining_bits: 1,
    };
    let too_short = HcrError::PayloadTooShort {
        needed_bits: 9,
        available_bits: 8,
    };
    assert_eq!(
        take_segment_bit(&[0], &mut beyond_payload, HcrReadDirection::LeftToRight),
        Err(too_short.clone())
    );
    assert_eq!(
        copy_directional_bits(&[0], beyond_payload, HcrReadDirection::RightToLeft),
        Err(too_short)
    );
}

#[test]
fn exact_decoder_distinguishes_incomplete_and_invalid_codewords() {
    assert_eq!(try_decode_exact(&[], 1).unwrap(), None);
    assert_eq!(try_decode_exact(&[true], 1).unwrap(), None);
    assert!(spectral_is_unexpected_eof(&SpectralError::Bit(
        BitError::UnexpectedEof {
            needed_bits: 1,
            remaining_bits: 0,
        }
    )));
    assert!(spectral_is_unexpected_eof(&SpectralError::Huffman(
        HuffmanError::Bit(BitError::UnexpectedEof {
            needed_bits: 1,
            remaining_bits: 0,
        })
    )));
    assert!(!spectral_is_unexpected_eof(
        &SpectralError::InvalidBandOffsets
    ));
    assert!(matches!(
        try_decode_exact(&[], 12),
        Err(HcrError::Spectral(SpectralError::Huffman(
            HuffmanError::InvalidCodebook(12)
        )))
    ));
}

#[test]
fn public_hcr_entry_points_reject_invalid_layouts_and_short_payloads() {
    let side = HcrSideInfo {
        reordered_spectral_bits: 9,
        longest_codeword_bits: 9,
        bits_read: 20,
    };
    let valid = [HcrSection {
        codebook: 1,
        spectral_lines: 4,
    }];
    let short = HcrError::PayloadTooShort {
        needed_bits: 9,
        available_bits: 8,
    };
    assert_eq!(
        decode_reordered_codewords(&[0], &side, &valid),
        Err(short.clone())
    );
    assert_eq!(decode_priority_codewords(&[0], &side, &valid), Err(short));

    for sections in [
        vec![HcrSection {
            codebook: 32,
            spectral_lines: 4,
        }],
        vec![HcrSection {
            codebook: 1,
            spectral_lines: 3,
        }],
    ] {
        assert!(prepare_segmentation_grid(&side, &sections).is_err());
        assert!(encode_reordered_codewords(&sections, &[]).is_err());
    }

    let zero_width = prepare_segmentation_grid(
        &HcrSideInfo {
            reordered_spectral_bits: 0,
            longest_codeword_bits: 0,
            bits_read: 20,
        },
        &valid,
    )
    .unwrap();
    assert!(zero_width.is_empty());
    assert!(encode_reordered_codewords(
        &[HcrSection {
            codebook: 0,
            spectral_lines: 4,
        }],
        &[]
    )
    .unwrap()
    .1
    .is_empty());

    assert!(matches!(
        encode_reordered_codewords(
            &[HcrSection {
                codebook: 11,
                spectral_lines: 504,
            }],
            &[]
        ),
        Err(HcrError::ReorderedSpectralLengthOutOfRange { .. })
    ));

    assert!(matches!(
        encode_reordered_codewords(
            &[HcrSection {
                codebook: 1,
                spectral_lines: 4,
            }],
            &[HcrDecodedCodeword {
                section_index: 0,
                codeword_index: 0,
                coefficients: Vec::new(),
            }],
        ),
        Err(HcrError::Spectral(SpectralError::Huffman(_)))
    ));
}

#[test]
fn segment_codeword_decoder_advances_from_the_right_edge() {
    let mut state = HcrSegmentState {
        left_bit: 0,
        right_bit: 10,
        remaining_bits: 11,
    };
    let (coefficients, consumed) =
        decode_segment_codeword(&[0; 2], &mut state, 1, HcrReadDirection::RightToLeft).unwrap();
    assert_eq!(coefficients, [0; 4]);
    assert!(consumed > 0);
    assert_eq!(state.right_bit, 10 - consumed);
    assert_eq!(state.remaining_bits(), 11 - consumed);
}

fn payload(reordered: u16, longest: u8) -> Vec<u8> {
    let mut writer = BitWriter::new();
    writer.write(reordered as u32, 14);
    writer.write(longest as u32, 6);
    writer.finish()
}

#[test]
fn parses_valid_side_info() {
    let bytes = payload(6144, 49);
    let mut reader = BitReader::new(&bytes);
    let side = HcrSideInfo::parse(&mut reader, HcrElementType::SingleChannel).unwrap();
    assert_eq!(side.reordered_spectral_bits, 6144);
    assert_eq!(side.longest_codeword_bits, 49);
    assert_eq!(side.bits_read, 20);
}

#[test]
fn permits_cpe_length_above_single_channel_limit() {
    let bytes = payload(12288, 20);
    let mut reader = BitReader::new(&bytes);
    assert!(HcrSideInfo::parse(&mut reader, HcrElementType::ChannelPair).is_ok());
    let mut reader = BitReader::new(&bytes);
    assert!(matches!(
        HcrSideInfo::parse(&mut reader, HcrElementType::SingleChannel),
        Err(HcrError::ReorderedSpectralLengthOutOfRange { .. })
    ));
}

#[test]
fn rejects_inconsistent_lengths() {
    let bytes = payload(12, 13);
    let mut reader = BitReader::new(&bytes);
    assert!(matches!(
        HcrSideInfo::parse(&mut reader, HcrElementType::SingleChannel),
        Err(HcrError::InconsistentLengths { .. })
    ));
}

#[test]
fn prepares_priority_ordered_segmentation_grid() {
    let side = HcrSideInfo {
        reordered_spectral_bits: 38,
        longest_codeword_bits: 20,
        bits_read: 20,
    };
    let sections = [
        HcrSection {
            codebook: 1,
            spectral_lines: 4,
        },
        HcrSection {
            codebook: 3,
            spectral_lines: 8,
        },
    ];
    let segments = prepare_segmentation_grid(&side, &sections).unwrap();
    assert_eq!(segments.len(), 1);
    assert_eq!(segments[0].codebook, 3);
    assert_eq!(segments[0].width(), 38);
}

#[test]
fn skips_zero_codebook_sections() {
    let side = HcrSideInfo {
        reordered_spectral_bits: 11,
        longest_codeword_bits: 11,
        bits_read: 20,
    };
    let sections = [
        HcrSection {
            codebook: 0,
            spectral_lines: 8,
        },
        HcrSection {
            codebook: 1,
            spectral_lines: 4,
        },
    ];
    let segments = prepare_segmentation_grid(&side, &sections).unwrap();
    assert_eq!(segments.len(), 1);
    assert_eq!(segments[0].codebook, 1);
}

#[test]
fn decodes_priority_word_from_segment_left_edge() {
    let side = HcrSideInfo {
        reordered_spectral_bits: 11,
        longest_codeword_bits: 11,
        bits_read: 20,
    };
    let sections = [HcrSection {
        codebook: 1,
        spectral_lines: 4,
    }];
    // Codebook 1's all-zero body decodes without sign bits.
    let decoded = decode_priority_codewords(&[0; 2], &side, &sections).unwrap();
    assert_eq!(decoded.len(), 1);
    assert_eq!(decoded[0].section_index, 0);
    assert_eq!(decoded[0].coefficients.len(), 4);
    assert!(decoded[0].consumed_bits <= 11);
}

#[test]
fn builds_long_sections_from_sfb_widths() {
    let ics = IcsInfo {
        window_sequence: WindowSequence::OnlyLong,
        window_shape: WindowShape::Sine,
        max_sfb: 2,
        total_sfb: 2,
        predictor_data_present: false,
        scale_factor_grouping: 0,
        window_group_lengths: vec![1],
        bits_read: 0,
    };
    let data = SectionData {
        sections: vec![Section {
            group: 0,
            start_sfb: 0,
            end_sfb: 2,
            codebook: 5,
        }],
        codebooks: vec![vec![5, 5]],
        bits_read: 0,
    };
    assert_eq!(
        sections_from_ics(&ics, &data, &[0, 4, 12]).unwrap(),
        [HcrSection {
            codebook: 5,
            spectral_lines: 12
        }]
    );
}

#[test]
fn builds_short_sections_in_unit_window_order() {
    let ics = IcsInfo {
        window_sequence: WindowSequence::EightShort,
        window_shape: WindowShape::Sine,
        max_sfb: 1,
        total_sfb: 1,
        predictor_data_present: false,
        scale_factor_grouping: 0,
        window_group_lengths: vec![2, 1],
        bits_read: 0,
    };
    let data = SectionData {
        sections: Vec::new(),
        codebooks: vec![vec![1], vec![3]],
        bits_read: 0,
    };
    assert_eq!(
        sections_from_ics(&ics, &data, &[0, 8]).unwrap(),
        [
            HcrSection {
                codebook: 1,
                spectral_lines: 8
            },
            HcrSection {
                codebook: 3,
                spectral_lines: 4
            },
            HcrSection {
                codebook: 1,
                spectral_lines: 8
            },
            HcrSection {
                codebook: 3,
                spectral_lines: 4
            }
        ]
    );
}

#[test]
fn exposes_segment_bits_in_both_directions() {
    let state = HcrSegmentState {
        left_bit: 0,
        right_bit: 3,
        remaining_bits: 4,
    };
    assert_eq!(
        copy_directional_bits(&[0b1011_0000], state, HcrReadDirection::LeftToRight).unwrap(),
        [0b1011_0000]
    );
    assert_eq!(
        copy_directional_bits(&[0b1011_0000], state, HcrReadDirection::RightToLeft).unwrap(),
        [0b1101_0000]
    );
}

#[test]
fn decodes_non_priority_word_from_opposite_segment_edge() {
    let side = HcrSideInfo {
        reordered_spectral_bits: 11,
        longest_codeword_bits: 11,
        bits_read: 20,
    };
    let sections = [HcrSection {
        codebook: 1,
        spectral_lines: 8,
    }];
    let decoded = decode_reordered_codewords(&[0; 2], &side, &sections).unwrap();
    assert_eq!(decoded.len(), 2);
    assert_eq!(decoded[0].codeword_index, 0);
    assert_eq!(decoded[1].codeword_index, 1);
    assert_eq!(decoded[0].coefficients, decoded[1].coefficients);
}

#[test]
fn decodes_multiple_non_priority_sets_and_reports_incomplete_words() {
    let side = HcrSideInfo {
        reordered_spectral_bits: 22,
        longest_codeword_bits: 11,
        bits_read: 20,
    };
    let sections = [HcrSection {
        codebook: 1,
        spectral_lines: 20,
    }];
    let decoded = decode_reordered_codewords(&[0; 3], &side, &sections).unwrap();
    assert_eq!(decoded.len(), 5);
    assert!(decoded.iter().all(|word| word.coefficients == [0; 4]));

    let too_narrow = HcrSideInfo {
        reordered_spectral_bits: 1,
        longest_codeword_bits: 1,
        bits_read: 20,
    };
    // Codebook 1's all-zero tuple is exactly one bit, so this bounded HCR
    // segment is complete even though the table decoder normally performs
    // a two-bit look-ahead.
    let one_bit = decode_reordered_codewords(
        &[0],
        &too_narrow,
        &[HcrSection {
            codebook: 1,
            spectral_lines: 4,
        }],
    )
    .unwrap();
    assert_eq!(one_bit.len(), 1);
    assert_eq!(one_bit[0].coefficients, [0; 4]);

    let narrow = HcrSideInfo {
        reordered_spectral_bits: 2,
        longest_codeword_bits: 2,
        bits_read: 20,
    };
    let two_one_bit = decode_reordered_codewords(
        &[0],
        &narrow,
        &[HcrSection {
            codebook: 1,
            spectral_lines: 8,
        }],
    )
    .unwrap();
    assert_eq!(two_one_bit.len(), 2);

    assert!(matches!(
        decode_reordered_codewords(
            &[0],
            &too_narrow,
            &[HcrSection {
                codebook: 11,
                spectral_lines: 2,
            }],
        ),
        Err(HcrError::Spectral(_))
    ));
}

#[test]
fn maps_codewords_back_to_long_spectrum() {
    let ics = IcsInfo {
        window_sequence: WindowSequence::OnlyLong,
        window_shape: WindowShape::Sine,
        max_sfb: 1,
        total_sfb: 1,
        predictor_data_present: false,
        scale_factor_grouping: 0,
        window_group_lengths: vec![1],
        bits_read: 0,
    };
    let sections = [
        HcrSection {
            codebook: 1,
            spectral_lines: 4,
        },
        HcrSection {
            codebook: 0,
            spectral_lines: 4,
        },
    ];
    let words = [HcrDecodedCodeword {
        section_index: 0,
        codeword_index: 0,
        coefficients: vec![1, 0, -1, 1],
    }];
    let spectral = codewords_to_spectral_data(&ics, &sections, &words, 16).unwrap();
    assert_eq!(&spectral.windows[0][..8], &[1, 0, -1, 1, 0, 0, 0, 0]);
    assert!(spectral.windows[0][8..].iter().all(|&value| value == 0));
}

#[test]
fn fixed_priority_segment_encoder_roundtrips_all_codewords() {
    let sections = [
        HcrSection {
            codebook: 1,
            spectral_lines: 8,
        },
        HcrSection {
            codebook: 7,
            spectral_lines: 4,
        },
    ];
    let words = [
        HcrDecodedCodeword {
            section_index: 0,
            codeword_index: 0,
            coefficients: vec![1, 0, -1, 1],
        },
        HcrDecodedCodeword {
            section_index: 0,
            codeword_index: 1,
            coefficients: vec![0, 1, 0, -1],
        },
        HcrDecodedCodeword {
            section_index: 1,
            codeword_index: 0,
            coefficients: vec![3, -2],
        },
        HcrDecodedCodeword {
            section_index: 1,
            codeword_index: 1,
            coefficients: vec![0, 7],
        },
    ];
    let (side, payload) = encode_reordered_codewords(&sections, &words).unwrap();
    assert_eq!(side.longest_codeword_bits, 14);
    assert_eq!(
        decode_reordered_codewords(&payload, &side, &sections).unwrap(),
        words
    );

    assert_eq!(validate_segment_width(2, 3, 49, 49), Ok(()));
    assert_eq!(
        validate_segment_width(2, 3, 50, 49),
        Err(HcrError::SegmentOverrun {
            section: 2,
            codeword: 3,
            consumed_bits: 50,
            segment_bits: 49,
        })
    );
}

fn short_ics() -> IcsInfo {
    IcsInfo {
        window_sequence: WindowSequence::EightShort,
        window_shape: WindowShape::Sine,
        max_sfb: 1,
        total_sfb: 1,
        predictor_data_present: false,
        scale_factor_grouping: 0,
        window_group_lengths: vec![8],
        bits_read: 0,
    }
}

#[test]
fn maps_reordered_short_codewords_back_to_eight_windows() {
    let sections = [
        HcrSection {
            codebook: 1,
            spectral_lines: 4,
        },
        HcrSection {
            codebook: 0,
            spectral_lines: 1020,
        },
    ];
    let words = [HcrDecodedCodeword {
        section_index: 0,
        codeword_index: 0,
        coefficients: vec![1, -1, 0, 1],
    }];
    let spectral = codewords_to_spectral_data(&short_ics(), &sections, &words, 128).unwrap();
    assert_eq!(spectral.windows.len(), 8);
    assert_eq!(&spectral.windows[0][..4], &[1, -1, 0, 1]);
    assert!(spectral
        .windows
        .iter()
        .flatten()
        .skip(4)
        .all(|&value| value == 0));
}

#[test]
fn spectral_mapping_rejects_missing_dimension_lav_and_short_layouts() {
    let long = IcsInfo {
        window_sequence: WindowSequence::OnlyLong,
        window_shape: WindowShape::Sine,
        max_sfb: 1,
        total_sfb: 1,
        predictor_data_present: false,
        scale_factor_grouping: 0,
        window_group_lengths: vec![1],
        bits_read: 0,
    };
    let section = [HcrSection {
        codebook: 1,
        spectral_lines: 4,
    }];
    assert!(matches!(
        codewords_to_spectral_data(&long, &section, &[], 4),
        Err(HcrError::MissingCodeword { .. })
    ));
    let wrong_dimension = [HcrDecodedCodeword {
        section_index: 0,
        codeword_index: 0,
        coefficients: vec![0; 2],
    }];
    assert!(matches!(
        codewords_to_spectral_data(&long, &section, &wrong_dimension, 4),
        Err(HcrError::CoefficientDimensionMismatch { .. })
    ));
    let excessive = [HcrDecodedCodeword {
        section_index: 0,
        codeword_index: 0,
        coefficients: vec![2, 0, 0, 0],
    }];
    assert!(matches!(
        codewords_to_spectral_data(&long, &section, &excessive, 4),
        Err(HcrError::LargestAbsoluteValueExceeded { .. })
    ));
    assert_eq!(
        codewords_to_spectral_data(&short_ics(), &[], &[], 64),
        Err(HcrError::LayoutMismatch)
    );
    assert_eq!(
        codewords_to_spectral_data(
            &long,
            &[HcrSection {
                codebook: 0,
                spectral_lines: 5
            }],
            &[],
            4
        ),
        Err(HcrError::LayoutMismatch)
    );
}

#[test]
fn section_builder_validates_layout_alignment_and_codebook_mapping() {
    let mut ics = short_ics();
    let data = SectionData {
        sections: Vec::new(),
        codebooks: vec![vec![12]],
        bits_read: 0,
    };
    let sections = sections_from_ics(&ics, &data, &[0, 4]).unwrap();
    assert_eq!(
        sections,
        [HcrSection {
            codebook: 0,
            spectral_lines: 32
        }]
    );
    assert!(matches!(
        sections_from_ics(&ics, &data, &[0, 3]),
        Err(HcrError::ShortBandNotFourLineAligned { .. })
    ));
    ics.max_sfb = 2;
    assert_eq!(
        sections_from_ics(&ics, &data, &[0, 4]),
        Err(HcrError::LayoutMismatch)
    );

    let long = IcsInfo {
        window_sequence: WindowSequence::OnlyLong,
        window_shape: WindowShape::Sine,
        max_sfb: 1,
        total_sfb: 1,
        predictor_data_present: false,
        scale_factor_grouping: 0,
        window_group_lengths: vec![1],
        bits_read: 0,
    };
    let invalid_section = SectionData {
        sections: vec![Section {
            group: 0,
            start_sfb: 1,
            end_sfb: 1,
            codebook: 1,
        }],
        codebooks: vec![vec![1]],
        bits_read: 0,
    };
    assert_eq!(
        sections_from_ics(&long, &invalid_section, &[0, 4]),
        Err(HcrError::LayoutMismatch)
    );
}

#[test]
fn empty_encoder_and_side_info_boundaries_are_explicit() {
    let (side, encoded) = encode_reordered_codewords(&[], &[]).unwrap();
    assert_eq!(side.reordered_spectral_bits, 0);
    assert_eq!(side.longest_codeword_bits, 0);
    assert!(encoded.is_empty());
    assert_eq!(
        decode_reordered_codewords(
            &[],
            &HcrSideInfo {
                reordered_spectral_bits: 0,
                longest_codeword_bits: 0,
                bits_read: 20,
            },
            &[],
        )
        .unwrap(),
        []
    );

    let bytes = payload(64, 63);
    assert!(matches!(
        HcrSideInfo::parse(&mut BitReader::new(&bytes), HcrElementType::SingleChannel),
        Err(HcrError::LongestCodewordLengthOutOfRange { .. })
    ));
    let side = HcrSideInfo {
        reordered_spectral_bits: 9,
        longest_codeword_bits: 9,
        bits_read: 20,
    };
    assert!(matches!(
        side.read_payload(&mut BitReader::new(&[0xff])),
        Err(HcrError::Bit(BitError::UnexpectedEof { .. }))
    ));
    let side = HcrSideInfo {
        reordered_spectral_bits: 5,
        longest_codeword_bits: 5,
        bits_read: 20,
    };
    assert_eq!(
        side.read_payload(&mut BitReader::new(&[0b1010_1000]))
            .unwrap(),
        [0b1010_1000]
    );
}

fn shuffled_words() -> ([HcrSection; 2], Vec<HcrDecodedCodeword>) {
    let sections = [
        HcrSection {
            codebook: 5,
            spectral_lines: 4,
        },
        HcrSection {
            codebook: 10,
            spectral_lines: 4,
        },
    ];
    let word = |section_index, codeword_index, coefficients| HcrDecodedCodeword {
        section_index,
        codeword_index,
        coefficients,
    };
    let words = vec![
        word(1, 1, vec![12, -9]),
        word(0, 1, vec![-4, 4]),
        word(1, 0, vec![0, 3]),
        word(0, 0, vec![1, -2]),
    ];
    (sections, words)
}

#[test]
fn decoding_sorts_what_was_encoded() {
    let (sections, mut words) = shuffled_words();
    let (side, payload) = encode_reordered_codewords(&sections, &words).unwrap();
    words.sort_by_key(|word| (word.section_index, word.codeword_index));
    assert_eq!(
        decode_reordered_codewords(&payload, &side, &sections),
        Ok(words)
    );
}

#[test]
fn the_priority_pass_decodes_all_that_was_encoded() {
    let (sections, words) = shuffled_words();
    let (side, payload) = encode_reordered_codewords(&sections, &words).unwrap();
    let decoded = decode_priority_codewords(&payload, &side, &sections).unwrap();
    assert_eq!(decoded.len(), words.len());
    for entry in &decoded {
        let given = words
            .iter()
            .find(|word| {
                word.section_index == entry.section_index
                    && word.codeword_index == entry.codeword_index
            })
            .unwrap();
        assert_eq!(entry.coefficients, given.coefficients);
        let codebook = sections[entry.section_index].codebook;
        assert_eq!(
            spectral_tuple_bit_cost(codebook, &entry.coefficients),
            Some(entry.consumed_bits)
        );
    }
}
