//! Bit streams and the texts of errors.

use fdk_aac::bits::{BitError, BitReader, BitWriter};
use fdk_aac::text::{literal, numbered_text, push_decimal, push_hex};

#[test]
fn what_is_written_is_read() {
    let mut writer = BitWriter::new();
    writer.write(5, 3);
    writer.write_bool(true);
    writer.write(0x1234, 16);
    writer.write(0, 0);
    writer.write(0xdead_beef, 32);
    assert_eq!(writer.bits_written(), 52);
    let bytes = writer.finish();
    assert_eq!(bytes.len(), 7);
    let mut reader = BitReader::new(&bytes);
    assert_eq!(reader.read_u8(3), Ok(5));
    assert_eq!(reader.read_bool(), Ok(true));
    assert_eq!(reader.read_u16(16), Ok(0x1234));
    assert_eq!(reader.read_u32(32), Ok(0xdead_beef));
    assert_eq!(reader.bits_read(), 52);
    assert_eq!(reader.remaining_bits(), 4);
}

#[test]
fn bytes_and_padding_are_written() {
    let mut writer = BitWriter::new();
    writer.write_bool(true);
    writer.byte_align();
    writer.write_bytes(&[1, 2]);
    writer.write_bool(true);
    writer.write_bytes(&[0xff]);
    assert_eq!(writer.finish(), [0x80, 1, 2, 0xff, 0x80]);
}

#[test]
fn reading_past_the_end_is_refused() {
    let mut reader = BitReader::with_bit_len(&[0xff, 0xff], 11).unwrap();
    assert_eq!(reader.read_u8(8), Ok(0xff));
    assert_eq!(
        reader.read_u8(4),
        Err(BitError::UnexpectedEof {
            needed_bits: 4,
            remaining_bits: 3,
        })
    );
    assert_eq!(reader.bits_read(), 8);
    assert!(reader.push_back(3).is_ok());
    assert_eq!(reader.bits_read(), 5);
    assert!(reader.push_back(6).is_err());
    assert!(BitReader::with_bit_len(&[0], 9).is_err());
}

#[test]
fn flags_and_fields_are_read_in_turn() {
    let mut reader = BitReader::new(&[0b1010_0111, 0b0100_0000]);
    assert_eq!(reader.read_flags(3), Ok(vec![true, false, true]));
    assert_eq!(reader.read_fields(3, 2), Ok(vec![1, 6]));
    assert!(reader.read_fields(3, 3).is_err());
}

#[test]
fn checksums_divide_by_the_polynomial() {
    // One bit leaves the polynomial itself.
    let reader = BitReader::new(&[0x80]);
    assert_eq!(reader.crc_msb(0, 1, 10, 0x0233), 0x0233);
    assert_eq!(reader.crc_msb(1, 8, 10, 0x0233), 0);
    assert_eq!(reader.crc_msb(0, 0, 16, 0x1021), 0);
    // The common checksum of "123456789" without an initial value.
    let digits = BitReader::new(b"123456789");
    assert_eq!(digits.crc_msb(0, 72, 16, 0x1021), 0x31c3);
}

#[test]
fn numbers_are_spelled() {
    let mut message = literal("at ");
    push_decimal(&mut message, 90_210);
    assert_eq!(message, "at 90210");
    push_decimal(&mut message, 0);
    assert_eq!(message, "at 902100");
    assert_eq!(numbered_text("<", u64::MAX, ">"), "<18446744073709551615>");
    let mut message = literal("");
    push_hex(&mut message, 0x1f);
    assert_eq!(message, "0x1f");
}
