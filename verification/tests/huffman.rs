//! Huffman tables.

use fdk_aac::bits::{BitError, BitReader, BitWriter};
use fdk_aac::huffman::{
    decode_fdk_2bit, fdk_huffman_word_code, fdk_huffman_word_length, spectral_codebook, spectral_tuple_bit_cost,
    write_fdk_huffman_word, write_spectral_tuple, HuffmanError, HUFFMAN_CODEBOOK_SCL,
};
use fdk_aac::spectral::decode_spectral_tuple;

const ONE_BIT: [[u16; 4]; 1] = [[(7 << 2) | 3, (7 << 2) | 3, (9 << 2) | 3, (9 << 2) | 3]];
const AMBIGUOUS: [[u16; 4]; 1] = [[(7 << 2) | 3, (8 << 2) | 1, (9 << 2) | 3, (10 << 2) | 1]];
const CYCLE: [[u16; 4]; 1] = [[0, 0, 0, 0]];
const DUPLICATE: [[u16; 4]; 1] = [[0x15, 0x17, 0x15, 0x15]];
const INVALID_LINK: [[u16; 4]; 1] = [[4, 4, 4, 4]];

#[test]
fn decodes_scalefactor_mid_value_with_pushback() {
    let mut reader = BitReader::new(&[0b0000_0000]);
    assert_eq!(
        decode_fdk_2bit(&mut reader, &HUFFMAN_CODEBOOK_SCL).unwrap(),
        60
    );
    assert_eq!(reader.bits_read(), 1);
}

#[test]
fn decodes_scalefactor_neighbor_values() {
    let mut reader = BitReader::new(&[0b1000_0000]);
    assert_eq!(
        decode_fdk_2bit(&mut reader, &HUFFMAN_CODEBOOK_SCL).unwrap(),
        59
    );
    assert_eq!(reader.bits_read(), 3);

    let mut reader = BitReader::new(&[0b1100_0000]);
    assert_eq!(
        decode_fdk_2bit(&mut reader, &HUFFMAN_CODEBOOK_SCL).unwrap(),
        62
    );
    assert_eq!(reader.bits_read(), 4);
}

#[test]
fn exposes_spectral_codebook_metadata_like_fdk() {
    let expected = [
        (1, 51, 4, 2, 1),
        (2, 39, 4, 2, 1),
        (3, 39, 4, 2, 0),
        (4, 38, 4, 2, 0),
        (5, 41, 2, 4, 4),
        (6, 40, 2, 4, 4),
        (7, 31, 2, 4, 0),
        (8, 31, 2, 4, 0),
        (9, 84, 2, 4, 0),
        (10, 82, 2, 4, 0),
        (11, 152, 2, 5, 0),
    ];

    for (codebook, rows, dimension, num_bits, offset) in expected {
        let description = spectral_codebook(codebook).unwrap();
        assert_eq!(description.table.len(), rows);
        assert_eq!(description.dimension, dimension);
        assert_eq!(description.num_bits, num_bits);
        assert_eq!(description.offset, offset);
    }

    assert_eq!(
        spectral_codebook(0).unwrap_err(),
        HuffmanError::InvalidCodebook(0)
    );
    assert_eq!(
        spectral_codebook(12).unwrap_err(),
        HuffmanError::InvalidCodebook(12)
    );
}

#[test]
fn spectral_codebooks_decode_zero_prefix_without_table_errors() {
    for codebook in 1..=11 {
        let description = spectral_codebook(codebook).unwrap();
        let mut reader = BitReader::new(&[0; 16]);
        let word = decode_fdk_2bit(&mut reader, description.table).unwrap();
        assert!(
            reader.bits_read() > 0,
            "codebook {codebook} consumed no bits"
        );
        assert!(
            reader.bits_read() <= 32,
            "codebook {codebook} consumed too many bits"
        );
        assert!(
            word <= 0x03ff || codebook == 11,
            "codebook {codebook} word {word:#x}"
        );
    }
}

#[test]
fn two_bit_decoder_accepts_a_one_bit_leaf_at_bounded_end() {
    // Values 7 and 9, both encoded in one bit.  Bit 1 in a leaf entry
    // means that the second look-ahead bit is not part of the codeword.
    let bytes = [0b1000_0000];
    let mut reader = BitReader::with_bit_len(&bytes, 1).unwrap();
    assert_eq!(decode_fdk_2bit(&mut reader, &ONE_BIT).unwrap(), 9);
    assert_eq!(reader.remaining_bits(), 0);

    let mut reader = BitReader::with_bit_len(&bytes, 1).unwrap();
    assert!(matches!(
        decode_fdk_2bit(&mut reader, &AMBIGUOUS),
        Err(HuffmanError::Bit(BitError::UnexpectedEof { .. }))
    ));
}

#[test]
fn spectral_tuple_cost_includes_sign_and_escape_extensions() {
    let positive = spectral_tuple_bit_cost(7, &[3, 0]).unwrap();
    let negative = spectral_tuple_bit_cost(7, &[-3, 0]).unwrap();
    assert_eq!(positive, negative);
    assert!(spectral_tuple_bit_cost(1, &[2, 0, 0, 0]).is_none());
    assert!(spectral_tuple_bit_cost(7, &[8, 0]).is_none());

    let escape_16 = spectral_tuple_bit_cost(11, &[16, 0]).unwrap();
    assert_eq!(spectral_tuple_bit_cost(11, &[17, 0]), Some(escape_16));
    assert_eq!(spectral_tuple_bit_cost(11, &[32, 0]), Some(escape_16 + 2));
    assert!(spectral_tuple_bit_cost(11, &[8192, 0]).is_none());
}

#[test]
fn spectral_tuple_writer_roundtrips_decoder_table_sign_and_escape_bits() {
    for (codebook, tuple) in [
        (1, vec![-1, 0, 1, -1]),
        (4, vec![-2, 1, 0, 2]),
        (7, vec![-3, 0]),
        (10, vec![12, -7]),
        (11, vec![-32, 17]),
    ] {
        let mut writer = BitWriter::new();
        let expected = spectral_tuple_bit_cost(codebook, &tuple).unwrap();
        assert_eq!(
            write_spectral_tuple(&mut writer, codebook, &tuple).unwrap(),
            expected
        );
        let bytes = writer.finish();
        let mut reader = BitReader::new(&bytes);
        assert_eq!(decode_spectral_tuple(&mut reader, codebook).unwrap(), tuple);
        assert_eq!(reader.bits_read(), expected);
    }
}

#[test]
fn rejects_invalid_tuple_shapes_and_unrepresentable_values() {
    assert_eq!(spectral_tuple_bit_cost(0, &[0]), None);
    assert_eq!(spectral_tuple_bit_cost(1, &[0, 0]), None);
    assert_eq!(spectral_tuple_bit_cost(1, &[-2, 0, 0, 0]), None);
    assert_eq!(spectral_tuple_bit_cost(1, &[1, 1, 1, 2]), None);
    assert_eq!(spectral_tuple_bit_cost(7, &[16, 0]), None);

    let mut writer = BitWriter::new();
    assert_eq!(
        write_spectral_tuple(&mut writer, 7, &[1]),
        Err(HuffmanError::InvalidTupleDimension {
            expected: 2,
            actual: 1
        })
    );
    assert_eq!(
        write_spectral_tuple(&mut writer, 7, &[16, 0]),
        Err(HuffmanError::UnrepresentableTuple(7))
    );
    assert_eq!(
        write_spectral_tuple(&mut writer, 12, &[0, 0]),
        Err(HuffmanError::InvalidCodebook(12))
    );
}

#[test]
fn table_search_handles_cycles_duplicates_and_missing_words() {
    assert_eq!(fdk_huffman_word_code(&CYCLE, 0), None);

    // The same value is reachable as both a two-bit and pushback one-bit leaf.
    assert_eq!(fdk_huffman_word_code(&DUPLICATE, 5), Some((0, 1)));
    assert_eq!(fdk_huffman_word_length(&DUPLICATE, 5), Some(1));

    let mut writer = BitWriter::new();
    assert_eq!(
        write_fdk_huffman_word(&mut writer, &DUPLICATE, 6),
        Err(HuffmanError::UnrepresentableWord(6))
    );
}

#[test]
fn decoder_rejects_out_of_range_table_links() {
    assert_eq!(
        decode_fdk_2bit(&mut BitReader::new(&[0]), &INVALID_LINK),
        Err(HuffmanError::InvalidTableIndex(1))
    );
    assert!(matches!(
        decode_fdk_2bit(&mut BitReader::new(&[]), &HUFFMAN_CODEBOOK_SCL),
        Err(HuffmanError::Bit(BitError::UnexpectedEof { .. }))
    ));
}

#[test]
fn huffman_errors_have_diagnostics() {
    let errors = [
        HuffmanError::InvalidCodebook(12),
        HuffmanError::InvalidTableIndex(9),
        HuffmanError::UnrepresentableWord(0x123),
        HuffmanError::UnrepresentableTuple(7),
        HuffmanError::InvalidTupleDimension {
            expected: 4,
            actual: 2,
        },
        HuffmanError::from(BitError::UnexpectedEof {
            needed_bits: 2,
            remaining_bits: 0,
        }),
    ];
    for error in errors {
        assert!(!error.to_string().is_empty());
    }
}
