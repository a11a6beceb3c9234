use future2_utils::cursor::{Reader, Writer};
use future2_utils::error::CodecError;
use future2_utils::wire::{bits_to_i32, i32_to_bits, u16_to_le, u32_to_le};

#[test]
fn reader_reads_little_endian() {
    let data = [0x01u8, 0x02, 0x03, 0x04, 0x05, 0x06, 0x07, 0x08, 0x09];
    let mut reader = Reader::new(&data);
    assert_eq!(reader.position(), 0);
    assert_eq!(reader.remaining(), 9);
    assert_eq!(reader.read_u8(), Ok(0x01));
    assert_eq!(reader.read_u16(), Ok(0x0302));
    assert_eq!(reader.read_u32(), Ok(0x0706_0504));
    assert_eq!(reader.position(), 7);
    assert_eq!(reader.read_exact(2), Ok(vec![0x08, 0x09]));
    assert_eq!(reader.remaining(), 0);
    assert_eq!(reader.read_exact(0), Ok(vec![]));
}

#[test]
fn reader_signals_the_end_and_stays() {
    let data = [0xFFu8, 0xFF, 0xFF];
    let mut reader = Reader::new(&data);
    assert_eq!(reader.read_u32(), Err(CodecError::TruncatedInput));
    assert_eq!(reader.position(), 0);
    assert_eq!(reader.read_exact(4), Err(CodecError::TruncatedInput));
    assert_eq!(reader.position(), 0);
    assert_eq!(reader.read_u16(), Ok(0xFFFF));
    assert_eq!(reader.read_u16(), Err(CodecError::TruncatedInput));
    assert_eq!(reader.position(), 2);
    assert_eq!(reader.read_u8(), Ok(0xFF));
    assert_eq!(reader.read_u8(), Err(CodecError::TruncatedInput));
    assert_eq!(reader.position(), 3);
}

#[test]
fn reader_seeks() {
    let data = [10u8, 11, 12, 13];
    let mut reader = Reader::new(&data);
    reader.set_position(2);
    assert_eq!(reader.read_u8(), Ok(12));
    assert_eq!(reader.seek_relative(-3), Ok(()));
    assert_eq!(reader.read_u8(), Ok(10));
    assert_eq!(reader.seek_relative(-2), Err(CodecError::OffsetOutOfRange));
    assert_eq!(reader.position(), 1);
    assert_eq!(reader.seek_relative(10), Ok(()));
    assert_eq!(reader.position(), 11);
    assert_eq!(reader.remaining(), 0);
    assert_eq!(reader.read_u8(), Err(CodecError::TruncatedInput));
    assert_eq!(reader.read_exact(0), Ok(vec![]));
    assert_eq!(reader.seek_relative(i64::MIN), Err(CodecError::OffsetOutOfRange));
    reader.set_position(usize::MAX);
    assert_eq!(reader.seek_relative(1), Err(CodecError::OffsetOutOfRange));
    assert_eq!(reader.position(), usize::MAX);
}

#[test]
fn writer_writes_little_endian() {
    let mut writer = Writer::new();
    assert_eq!(writer.write_u8(0x01), Ok(()));
    assert_eq!(writer.write_u16(0x0302), Ok(()));
    assert_eq!(writer.write_u32(0x0706_0504), Ok(()));
    assert_eq!(writer.write_all(&[0x08, 0x09]), Ok(()));
    assert_eq!(writer.position(), 9);
    assert_eq!(writer.into_bytes(), vec![1, 2, 3, 4, 5, 6, 7, 8, 9]);
}

#[test]
fn writer_overwrites_and_fills_gaps_with_zeros() {
    let mut writer = Writer::new();
    assert_eq!(writer.write_all(&[1, 2, 3, 4, 5]), Ok(()));
    writer.set_position(1);
    assert_eq!(writer.write_u16(0xBBAA), Ok(()));
    assert_eq!(writer.position(), 3);
    assert_eq!(writer.seek_relative(1), Ok(()));
    assert_eq!(writer.write_u16(0xDDCC), Ok(()));
    assert_eq!(writer.seek_relative(-7), Err(CodecError::OffsetOutOfRange));
    assert_eq!(writer.position(), 6);
    writer.set_position(8);
    assert_eq!(writer.write_u8(0xEE), Ok(()));
    assert_eq!(writer.into_bytes(), vec![1, 0xAA, 0xBB, 4, 0xCC, 0xDD, 0, 0, 0xEE]);
}

#[test]
fn writer_into_a_fixed_buffer_signals_overflow() {
    let mut writer = Writer::with_limit(6);
    assert_eq!(writer.write_u32(0x0403_0201), Ok(()));
    assert_eq!(writer.write_u32(0x0807_0605), Err(CodecError::Overflow));
    assert_eq!(writer.position(), 4);
    assert_eq!(writer.write_u16(0x0605), Ok(()));
    assert_eq!(writer.write_u8(7), Err(CodecError::Overflow));
    assert_eq!(writer.write_all(&[]), Ok(()));
    writer.set_position(7);
    assert_eq!(writer.write_all(&[]), Err(CodecError::Overflow));
    writer.set_position(2);
    assert_eq!(writer.write_u16(0xBBAA), Ok(()));
    assert_eq!(writer.into_bytes(), vec![1, 2, 0xAA, 0xBB, 5, 6]);
}

#[test]
fn writer_appends_to_a_buffer() {
    let mut writer = Writer::append_to(vec![1, 2, 3]);
    assert_eq!(writer.position(), 3);
    assert_eq!(writer.write_u8(4), Ok(()));
    assert_eq!(writer.into_bytes(), vec![1, 2, 3, 4]);
}

#[test]
fn integers_as_bytes() {
    assert_eq!(u16_to_le(0x1234), [0x34, 0x12]);
    assert_eq!(u32_to_le(0x1234_5678), [0x78, 0x56, 0x34, 0x12]);
    assert_eq!(u32_to_le(u32::MAX), [0xFF; 4]);
    assert_eq!(i32_to_bits(-1), 0xFFFF_FFFF);
    assert_eq!(i32_to_bits(i32::MIN), 0x8000_0000);
    assert_eq!(i32_to_bits(i32::MAX), 0x7FFF_FFFF);
    assert_eq!(i32_to_bits(0), 0);
    assert_eq!(bits_to_i32(0xFFFF_FFFE), -2);
    assert_eq!(bits_to_i32(0x8000_0000), i32::MIN);
    assert_eq!(bits_to_i32(0x7FFF_FFFF), i32::MAX);
}

#[test]
fn writer_appends_within_a_limit() {
    let mut writer = Writer::append_within(vec![1, 2, 3], 5);
    assert_eq!(writer.write_u32(9), Err(CodecError::Overflow));
    assert_eq!(writer.write_u16(0x0504), Ok(()));
    assert_eq!(writer.write_u8(6), Err(CodecError::Overflow));
    assert_eq!(writer.into_bytes(), vec![1, 2, 3, 4, 5]);
}
