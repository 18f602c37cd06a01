//! Spectral tuples: what is written is decoded.

use fdk_aac::bits::{BitReader, BitWriter};
use fdk_aac::huffman::{spectral_tuple_bit_cost, write_spectral_tuple, HuffmanError};
use fdk_aac::spectral::{decode_spectral_tuple, SpectralError};

fn round_trip(codebook: u8, coefficients: &[i32]) {
    let mut writer = BitWriter::new();
    write_spectral_tuple(&mut writer, codebook, coefficients).unwrap();
    let bits = writer.bits_written();
    assert_eq!(spectral_tuple_bit_cost(codebook, coefficients), Some(bits));
    let bytes = writer.finish();
    let mut reader = BitReader::new(&bytes);
    assert_eq!(decode_spectral_tuple(&mut reader, codebook).unwrap(), coefficients);
    assert_eq!(reader.bits_read(), bits);
}

#[test]
fn every_quad_is_decoded() {
    for codebook in 1..=4 {
        let range = if codebook <= 2 { -1..=1 } else { -2..=2 };
        for a in range.clone() {
            for b in range.clone() {
                for c in range.clone() {
                    for d in range.clone() {
                        round_trip(codebook, &[a, b, c, d]);
                    }
                }
            }
        }
    }
}

#[test]
fn every_pair_is_decoded() {
    for (codebook, limit) in [(5, 4), (6, 4), (7, 7), (8, 7), (9, 12), (10, 12), (11, 15)] {
        for a in -limit..=limit {
            for b in -limit..=limit {
                round_trip(codebook, &[a, b]);
            }
        }
    }
}

#[test]
fn escapes_are_decoded() {
    for value in [16, 17, 31, 32, 100, 4095, 4096, 8191] {
        round_trip(11, &[value, 0]);
        round_trip(11, &[-value, 3]);
        round_trip(11, &[value, -value]);
    }
}

#[test]
fn books_without_tuples_are_refused() {
    for codebook in [0, 12, 13, 14, 15, 32] {
        assert_eq!(
            decode_spectral_tuple(&mut BitReader::new(&[0]), codebook),
            Err(SpectralError::Huffman(HuffmanError::InvalidCodebook(codebook)))
        );
    }
}
