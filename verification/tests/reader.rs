use bitstream_io::error::StreamError;
use bitstream_io::order::{BigEndian, LittleEndian, BE, LE};
use bitstream_io::read::BitReader;

#[test]
fn read_bit_big_endian() {
    let mut reader = BitReader::<BigEndian>::new(vec![0b10110111]);
    let expected = [true, false, true, true, false, true, true, true];
    for bit in expected {
        assert_eq!(reader.read_bit().unwrap(), bit);
    }
    assert_eq!(reader.read_bit(), Err(StreamError::UnexpectedEof));
}

#[test]
fn read_bit_little_endian() {
    let mut reader = BitReader::<LittleEndian>::new(vec![0b10110111]);
    let expected = [true, true, true, false, true, true, false, true];
    for bit in expected {
        assert_eq!(reader.read_bit().unwrap(), bit);
    }
    assert_eq!(reader.read_bit(), Err(StreamError::UnexpectedEof));
}

#[test]
fn read_fields_big_endian() {
    let mut reader = BitReader::<BigEndian>::new(vec![0b10110111]);
    assert_eq!(reader.read::<u8>(1).unwrap(), 0b1);
    assert_eq!(reader.read::<u8>(2).unwrap(), 0b01);
    assert_eq!(reader.read::<u8>(5).unwrap(), 0b10111);
}

#[test]
fn read_fields_little_endian() {
    let mut reader = BitReader::<LittleEndian>::new(vec![0b10110111]);
    assert_eq!(reader.read::<u8>(1).unwrap(), 0b1);
    assert_eq!(reader.read::<u8>(2).unwrap(), 0b11);
    assert_eq!(reader.read::<u8>(5).unwrap(), 0b10110);
}

#[test]
fn read_zero_bits_reads_nothing() {
    let mut reader = BitReader::<BE>::new(vec![0xA5]);
    assert_eq!(reader.read::<u8>(0).unwrap(), 0);
    assert_eq!(reader.read::<u8>(8).unwrap(), 0xA5);
    assert_eq!(reader.read::<u32>(0).unwrap(), 0);
}

#[test]
fn read_rejects_excessive_bits() {
    let mut reader = BitReader::<BigEndian>::new(vec![0; 10]);
    assert_eq!(reader.read::<u8>(9), Err(StreamError::InvalidInput));
    assert_eq!(reader.read::<u16>(17), Err(StreamError::InvalidInput));
    assert_eq!(reader.read::<u32>(33), Err(StreamError::InvalidInput));
    assert_eq!(reader.read::<u64>(65), Err(StreamError::InvalidInput));
    assert_eq!(reader.read::<i8>(9), Err(StreamError::InvalidInput));
    assert_eq!(reader.read::<i64>(65), Err(StreamError::InvalidInput));
    // nothing was consumed by the rejected reads
    assert_eq!(reader.read::<u64>(64).unwrap(), 0);
    assert_eq!(reader.read::<u16>(16).unwrap(), 0);
    assert!(reader.byte_aligned());
    assert_eq!(reader.read_bit(), Err(StreamError::UnexpectedEof));
}

#[test]
fn read_rejects_excessive_bits_little_endian() {
    let mut reader = BitReader::<LittleEndian>::new(vec![0; 10]);
    assert_eq!(reader.read::<u8>(9), Err(StreamError::InvalidInput));
    assert_eq!(reader.read::<u16>(17), Err(StreamError::InvalidInput));
    assert_eq!(reader.read::<u32>(33), Err(StreamError::InvalidInput));
    assert_eq!(reader.read::<u64>(65), Err(StreamError::InvalidInput));
}

#[test]
fn read_past_the_end_exhausts_the_reader() {
    let mut reader = BitReader::<BE>::new(vec![0xFF, 0x0F]);
    assert_eq!(reader.read::<u8>(3).unwrap(), 0b111);
    assert_eq!(reader.read::<u32>(14), Err(StreamError::UnexpectedEof));
    assert!(reader.byte_aligned());
    assert_eq!(reader.read_bit(), Err(StreamError::UnexpectedEof));
    assert_eq!(reader.into_unread(), (0, 0));
}

#[test]
fn read_wide_fields_across_bytes() {
    let data = vec![0x12, 0x34, 0x56, 0x78, 0x9A, 0xBC, 0xDE, 0xF0, 0x0F];
    let mut be = BitReader::<BE>::new(data.clone());
    assert_eq!(be.read::<u8>(4).unwrap(), 0x1);
    assert_eq!(be.read::<u64>(64).unwrap(), 0x23456789ABCDEF00);
    assert_eq!(be.read::<u8>(4).unwrap(), 0xF);
    let mut le = BitReader::<LE>::new(data);
    assert_eq!(le.read::<u8>(4).unwrap(), 0x2);
    assert_eq!(le.read::<u64>(64).unwrap(), 0xFF0DEBC9A7856341);
    assert_eq!(le.read::<u8>(4).unwrap(), 0x0);
}

#[test]
fn read_into_signed_type_keeps_the_pattern() {
    let mut reader = BitReader::<BE>::new(vec![0xFF, 0x7F]);
    assert_eq!(reader.read::<i8>(8).unwrap(), -1);
    assert_eq!(reader.read::<i8>(8).unwrap(), 127);
}

#[test]
fn skip_big_endian() {
    let mut reader = BitReader::<BigEndian>::new(vec![0b10110111]);
    assert!(reader.skip(3).is_ok());
    assert_eq!(reader.read::<u8>(5).unwrap(), 0b10111);
}

#[test]
fn skip_little_endian() {
    let mut reader = BitReader::<LittleEndian>::new(vec![0b10110111]);
    assert!(reader.skip(3).is_ok());
    assert_eq!(reader.read::<u8>(5).unwrap(), 0b10110);
}

#[test]
fn skip_across_bytes_and_past_the_end() {
    let mut reader = BitReader::<BE>::new(vec![0xFF, 0x00, 0xAB, 0xCD]);
    assert_eq!(reader.read::<u8>(2).unwrap(), 0b11);
    assert_eq!(reader.skip(18), Ok(()));
    assert_eq!(reader.read::<u8>(4).unwrap(), 0xB);
    assert_eq!(reader.skip(9), Err(StreamError::UnexpectedEof));
    assert_eq!(reader.read_bit(), Err(StreamError::UnexpectedEof));
    let mut whole = BitReader::<LE>::new(vec![1, 2, 3]);
    assert_eq!(whole.skip(0), Ok(()));
    assert_eq!(whole.skip(24), Ok(()));
    assert_eq!(whole.skip(1), Err(StreamError::UnexpectedEof));
}

#[test]
fn read_bytes_aligned() {
    let mut reader = BitReader::<BigEndian>::new(b"foobar".to_vec());
    assert!(reader.skip(24).is_ok());
    let mut buf = [0; 3];
    assert!(reader.read_bytes(&mut buf).is_ok());
    assert_eq!(&buf, b"bar");
}

#[test]
fn read_bytes_unaligned() {
    let mut reader = BitReader::<BigEndian>::new(vec![0x0A, 0xBC, 0xDE, 0xF0]);
    assert_eq!(reader.read::<u8>(4).unwrap(), 0x0);
    let mut buf = [0u8; 3];
    assert_eq!(reader.read_bytes(&mut buf), Ok(()));
    assert_eq!(buf, [0xAB, 0xCD, 0xEF]);
    assert_eq!(reader.into_unread(), (4, 0));
    let mut le = BitReader::<LittleEndian>::new(vec![0xA0, 0xCB, 0xED, 0x0F]);
    assert_eq!(le.read::<u8>(4).unwrap(), 0x0);
    let mut buf = [0u8; 3];
    assert_eq!(le.read_bytes(&mut buf), Ok(()));
    assert_eq!(buf, [0xBA, 0xDC, 0xFE]);
}

#[test]
fn read_bytes_past_the_end() {
    let mut reader = BitReader::<BE>::new(vec![1, 2]);
    let mut buf = [0u8; 3];
    assert_eq!(reader.read_bytes(&mut buf), Err(StreamError::UnexpectedEof));
    assert_eq!(reader.read_bit(), Err(StreamError::UnexpectedEof));
    let mut unaligned = BitReader::<BE>::new(vec![1, 2, 3]);
    assert_eq!(unaligned.read_bit(), Ok(false));
    let mut buf = [0u8; 3];
    assert_eq!(unaligned.read_bytes(&mut buf), Err(StreamError::UnexpectedEof));
    let mut empty: [u8; 0] = [];
    let mut none = BitReader::<BE>::new(vec![]);
    assert_eq!(none.read_bytes(&mut empty), Ok(()));
}

#[test]
fn sub_reader_of_seven_bits() {
    let mut reader = BitReader::<LittleEndian>::new(vec![0b01100111, 0b11111110]);
    assert_eq!(reader.read_bit().unwrap(), true);
    let mut sub_reader = reader.create_sub_reader(7).unwrap();
    assert_eq!(sub_reader.read_bit().unwrap(), true);
    assert_eq!(sub_reader.read::<u8>(6).unwrap(), 0b011001);
    assert!(sub_reader.read_bit().is_err());
    assert_eq!(reader.read::<u8>(8).unwrap(), 0b11111110);
}

#[test]
fn sub_reader_of_eight_bits() {
    let mut reader = BitReader::<LittleEndian>::new(vec![0b01100111, 0b11111110]);
    assert_eq!(reader.read_bit().unwrap(), true);
    let mut sub_reader = reader.create_sub_reader(8).unwrap();
    assert_eq!(sub_reader.read_bit().unwrap(), true);
    assert_eq!(sub_reader.read::<u8>(7).unwrap(), 0b0011001);
    assert!(sub_reader.read_bit().is_err());
    assert_eq!(reader.read::<u8>(7).unwrap(), 0b1111111);
}

#[test]
fn sub_reader_edges() {
    let mut reader = BitReader::<LittleEndian>::new(vec![0xAB, 0xCD, 0xEF]);
    let mut none = reader.create_sub_reader(0).unwrap();
    assert_eq!(none.read_bit(), Err(StreamError::UnexpectedEof));
    let mut sub = reader.create_sub_reader(19).unwrap();
    assert_eq!(sub.read::<u32>(19).unwrap(), 0x7CDAB);
    assert_eq!(sub.read_bit(), Err(StreamError::UnexpectedEof));
    assert_eq!(reader.read::<u8>(5).unwrap(), 0b11101);
    let mut short = BitReader::<LittleEndian>::new(vec![0xAB]);
    assert!(matches!(short.create_sub_reader(9), Err(StreamError::UnexpectedEof)));
    assert_eq!(short.read_bit(), Err(StreamError::UnexpectedEof));
}

#[test]
fn concatenate_two_readers() {
    let mut reader = BitReader::<LittleEndian>::new(vec![0b01100111, 0b11111110]);
    let mut reader1 = BitReader::<LittleEndian>::new(vec![0b10101010, 0b10010010]);
    assert_eq!(reader.read_bit().unwrap(), true);
    assert_eq!(reader1.read_bit().unwrap(), false);
    let mut concat_reader = reader.concatenate_reader(&mut reader1).unwrap();
    let expected_data = [0b00110011, 0b11111111, 0b10101010];
    let mut read_data: [u8; 3] = [0, 0, 0];
    concat_reader.read_bytes(&mut read_data).unwrap();
    assert_eq!(expected_data, read_data);
    assert_eq!(concat_reader.read::<u8>(6).unwrap(), 0b100100);
    assert_eq!(concat_reader.read_bit(), Err(StreamError::UnexpectedEof));
    assert_eq!(reader.read_bit(), Err(StreamError::UnexpectedEof));
    assert_eq!(reader1.read_bit(), Err(StreamError::UnexpectedEof));
}

#[test]
fn concatenate_aligned_and_empty_readers() {
    let mut first = BitReader::<LittleEndian>::new(vec![1, 2]);
    let mut second = BitReader::<LittleEndian>::new(vec![3]);
    let mut joined = first.concatenate_reader(&mut second).unwrap();
    let mut data = [0u8; 3];
    assert_eq!(joined.read_bytes(&mut data), Ok(()));
    assert_eq!(data, [1, 2, 3]);
    let mut a = BitReader::<LittleEndian>::new(vec![]);
    let mut b = BitReader::<LittleEndian>::new(vec![]);
    let mut nothing = a.concatenate_reader(&mut b).unwrap();
    assert_eq!(nothing.read_bit(), Err(StreamError::UnexpectedEof));
}

#[test]
fn read_unary0_big_endian() {
    let mut reader = BitReader::<BigEndian>::new(vec![0b01110111, 0b11111110]);
    assert_eq!(reader.read_unary0().unwrap(), 0);
    assert_eq!(reader.read_unary0().unwrap(), 3);
    assert_eq!(reader.read_unary0().unwrap(), 10);
}

#[test]
fn read_unary0_little_endian() {
    let mut reader = BitReader::<LittleEndian>::new(vec![0b11101110, 0b01111111]);
    assert_eq!(reader.read_unary0().unwrap(), 0);
    assert_eq!(reader.read_unary0().unwrap(), 3);
    assert_eq!(reader.read_unary0().unwrap(), 10);
}

#[test]
fn read_unary1_big_endian() {
    let mut reader = BitReader::<BigEndian>::new(vec![0b10001000, 0b00000001]);
    assert_eq!(reader.read_unary1().unwrap(), 0);
    assert_eq!(reader.read_unary1().unwrap(), 3);
    assert_eq!(reader.read_unary1().unwrap(), 10);
}

#[test]
fn read_unary1_little_endian() {
    let mut reader = BitReader::<LittleEndian>::new(vec![0b00010001, 0b10000000]);
    assert_eq!(reader.read_unary1().unwrap(), 0);
    assert_eq!(reader.read_unary1().unwrap(), 3);
    assert_eq!(reader.read_unary1().unwrap(), 10);
}

#[test]
fn read_unary_over_whole_bytes() {
    let mut reader = BitReader::<BE>::new(vec![0xFF, 0xFF, 0xFF, 0b11101010]);
    assert_eq!(reader.read_unary0().unwrap(), 27);
    assert_eq!(reader.read_unary0().unwrap(), 1);
    assert_eq!(reader.read_unary1().unwrap(), 0);
    assert_eq!(reader.read_unary1(), Err(StreamError::UnexpectedEof));
    assert_eq!(reader.read_bit(), Err(StreamError::UnexpectedEof));
    let mut zeros = BitReader::<LE>::new(vec![0x00, 0x00, 0b00000100]);
    assert_eq!(zeros.read_bit().unwrap(), false);
    assert_eq!(zeros.read_unary1().unwrap(), 17);
    assert_eq!(zeros.into_unread(), (5, 0));
}

#[test]
fn read_unary_without_an_end() {
    let mut reader = BitReader::<BE>::new(vec![0xFF, 0xFF]);
    assert_eq!(reader.read_unary0(), Err(StreamError::UnexpectedEof));
    assert_eq!(reader.read_bit(), Err(StreamError::UnexpectedEof));
    let mut partial = BitReader::<BE>::new(vec![0x0F]);
    assert_eq!(partial.read::<u8>(4).unwrap(), 0);
    assert_eq!(partial.read_unary0(), Err(StreamError::UnexpectedEof));
    let mut empty = BitReader::<LE>::new(vec![]);
    assert_eq!(empty.read_unary1(), Err(StreamError::UnexpectedEof));
}

#[test]
fn byte_aligned_follows_the_residual() {
    let mut reader = BitReader::<BigEndian>::new(vec![0]);
    assert_eq!(reader.byte_aligned(), true);
    assert!(reader.skip(1).is_ok());
    assert_eq!(reader.byte_aligned(), false);
    assert!(reader.skip(7).is_ok());
    assert_eq!(reader.byte_aligned(), true);
}

#[test]
fn byte_align_drops_the_residual() {
    let mut reader = BitReader::<BigEndian>::new(vec![0x00, 0xFF]);
    assert_eq!(reader.read::<u8>(4).unwrap(), 0);
    reader.byte_align();
    assert!(reader.byte_aligned());
    assert_eq!(reader.read::<u8>(8).unwrap(), 0xFF);
    reader.byte_align();
    assert!(reader.byte_aligned());
}

#[test]
fn into_unread_gives_the_partial_byte() {
    let mut reader = BitReader::<BigEndian>::new(vec![0b1010_0101, 0b0101_1010]);
    assert_eq!(reader.read::<u16>(9).unwrap(), 0b1010_0101_0);
    let (bits, value) = reader.into_unread();
    assert_eq!(bits, 7);
    assert_eq!(value, 0b101_1010);
}

#[test]
fn into_unread_of_an_aligned_reader() {
    let mut reader = BitReader::<BigEndian>::new(vec![0b1010_0101, 0b0101_1010]);
    assert_eq!(reader.read::<u16>(8).unwrap(), 0b1010_0101);
    let (bits, value) = reader.into_unread();
    assert_eq!(bits, 0);
    assert_eq!(value, 0);
}

#[test]
fn into_unread_little_endian() {
    let mut reader = BitReader::<LittleEndian>::new(vec![0b1010_0101, 0b0101_1010]);
    assert_eq!(reader.read::<u16>(9).unwrap(), 0b0_1010_0101);
    assert_eq!(reader.into_unread(), (7, 0b010_1101));
}

#[test]
fn read_signed_big_endian() {
    let mut reader = BitReader::<BigEndian>::new(vec![0b10110111]);
    assert_eq!(reader.read_signed::<i8>(4).unwrap(), -5);
    assert_eq!(reader.read_signed::<i8>(4).unwrap(), 7);
}

#[test]
fn read_signed_little_endian() {
    let mut reader = BitReader::<LittleEndian>::new(vec![0b10110111]);
    assert_eq!(reader.read_signed::<i8>(4).unwrap(), 7);
    assert_eq!(reader.read_signed::<i8>(4).unwrap(), -5);
}

#[test]
fn read_signed_rejects_excessive_bits() {
    let mut r = BitReader::<BigEndian>::new(vec![0; 10]);
    assert_eq!(r.read_signed::<i8>(9), Err(StreamError::InvalidInput));
    assert_eq!(r.read_signed::<i16>(17), Err(StreamError::InvalidInput));
    assert_eq!(r.read_signed::<i32>(33), Err(StreamError::InvalidInput));
    assert_eq!(r.read_signed::<i64>(65), Err(StreamError::InvalidInput));
    assert_eq!(r.read_signed::<i8>(0), Err(StreamError::InvalidInput));
    let mut l = BitReader::<LittleEndian>::new(vec![0; 10]);
    assert_eq!(l.read_signed::<i8>(9), Err(StreamError::InvalidInput));
    assert_eq!(l.read_signed::<i16>(17), Err(StreamError::InvalidInput));
    assert_eq!(l.read_signed::<i32>(33), Err(StreamError::InvalidInput));
    assert_eq!(l.read_signed::<i64>(65), Err(StreamError::InvalidInput));
    assert_eq!(l.read_signed::<i64>(0), Err(StreamError::InvalidInput));
    assert_eq!(l.read::<u64>(64).unwrap(), 0);
}

#[test]
fn read_signed_full_width_and_extremes() {
    let mut reader = BitReader::<BE>::new(vec![0x80, 0x7F, 0xFF, 0xFF, 0x80, 0x00]);
    assert_eq!(reader.read_signed::<i8>(8).unwrap(), -128);
    assert_eq!(reader.read_signed::<i8>(8).unwrap(), 127);
    assert_eq!(reader.read_signed::<i16>(16).unwrap(), -1);
    assert_eq!(reader.read_signed::<i32>(16).unwrap(), -32768);
    let mut wide = BitReader::<LE>::new(vec![0, 0, 0, 0, 0, 0, 0, 0x80, 0b01]);
    assert_eq!(wide.read_signed::<i64>(64).unwrap(), i64::MIN);
    assert_eq!(wide.read_signed::<i8>(1).unwrap(), -1);
    assert_eq!(wide.read_signed::<i8>(1).unwrap(), 0);
    assert_eq!(wide.read_signed::<i16>(7), Err(StreamError::UnexpectedEof));
}

#[test]
fn read_flac_streaminfo() {
    let flac: Vec<u8> = vec![
        0x66, 0x4C, 0x61, 0x43, 0x00, 0x00, 0x00, 0x22, 0x10, 0x00, 0x10, 0x00, 0x00, 0x06, 0x06,
        0x00, 0x21, 0x62, 0x0A, 0xC4, 0x42, 0xF0, 0x00, 0x04, 0xA6, 0xCC, 0xFA, 0xF2, 0x69, 0x2F,
        0xFD, 0xEC, 0x2D, 0x5B, 0x30, 0x01, 0x76, 0xB4, 0x62, 0x88, 0x7D, 0x92,
    ];
    let mut reader = BitReader::<BE>::new(flac);
    let mut file_header: [u8; 4] = [0, 0, 0, 0];
    reader.read_bytes(&mut file_header).unwrap();
    assert_eq!(&file_header, b"fLaC");
    let last_block: bool = reader.read_bit().unwrap();
    let block_type: u8 = reader.read(7).unwrap();
    let block_size: u32 = reader.read(24).unwrap();
    assert_eq!(last_block, false);
    assert_eq!(block_type, 0);
    assert_eq!(block_size, 34);
    let minimum_block_size: u16 = reader.read(16).unwrap();
    let maximum_block_size: u16 = reader.read(16).unwrap();
    let minimum_frame_size: u32 = reader.read(24).unwrap();
    let maximum_frame_size: u32 = reader.read(24).unwrap();
    let sample_rate: u32 = reader.read(20).unwrap();
    let channels = reader.read::<u8>(3).unwrap() + 1;
    let bits_per_sample = reader.read::<u8>(5).unwrap() + 1;
    let total_samples: u64 = reader.read(36).unwrap();
    assert_eq!(minimum_block_size, 4096);
    assert_eq!(maximum_block_size, 4096);
    assert_eq!(minimum_frame_size, 1542);
    assert_eq!(maximum_frame_size, 8546);
    assert_eq!(sample_rate, 44100);
    assert_eq!(channels, 2);
    assert_eq!(bits_per_sample, 16);
    assert_eq!(total_samples, 304844);
    let mut md5 = [0u8; 16];
    reader.read_bytes(&mut md5).unwrap();
    assert_eq!(md5[0], 0xFA);
    assert_eq!(md5[15], 0x92);
    assert_eq!(reader.read_bit(), Err(StreamError::UnexpectedEof));
}

#[test]
fn stream_error_descriptions() {
    assert_eq!(StreamError::UnexpectedEof.description(), "unexpected end of data");
    assert_eq!(StreamError::InvalidInput.description(), "excessive bits or value for type");
}

#[test]
fn concatenate_big_endian_readers() {
    let mut first = BitReader::<BigEndian>::new(vec![0b01100111, 0b11111110]);
    let mut second = BitReader::<BigEndian>::new(vec![0b10101010, 0b10010010]);
    assert_eq!(first.read_bit().unwrap(), false);
    assert_eq!(second.read_bit().unwrap(), true);
    let mut joined = first.concatenate_reader(&mut second).unwrap();
    assert_eq!(joined.read::<u8>(7).unwrap(), 0b1100111);
    assert_eq!(joined.read::<u8>(8).unwrap(), 0b11111110);
    assert_eq!(joined.read::<u8>(7).unwrap(), 0b0101010);
    assert_eq!(joined.read::<u8>(8).unwrap(), 0b10010010);
    assert_eq!(joined.read_bit(), Err(StreamError::UnexpectedEof));
    assert_eq!(first.read_bit(), Err(StreamError::UnexpectedEof));
    assert_eq!(second.read_bit(), Err(StreamError::UnexpectedEof));
    let mut a = BitReader::<BigEndian>::new(vec![0x12, 0x34]);
    let mut b = BitReader::<BigEndian>::new(vec![0x56]);
    let mut whole = a.concatenate_reader(&mut b).unwrap();
    let mut data = [0u8; 3];
    assert_eq!(whole.read_bytes(&mut data), Ok(()));
    assert_eq!(data, [0x12, 0x34, 0x56]);
}

#[test]
fn feed_puts_bytes_behind_the_unread_bits() {
    let mut reader = BitReader::<BigEndian>::new(vec![0xAB]);
    assert_eq!(reader.read::<u8>(4).unwrap(), 0xA);
    assert_eq!(reader.bytes_needed(4), 0);
    assert_eq!(reader.bytes_needed(5), 1);
    assert_eq!(reader.bytes_needed(12), 1);
    assert_eq!(reader.bytes_needed(13), 2);
    assert_eq!(reader.bytes_needed(0), 0);
    reader.feed(&[0xCD, 0xEF]);
    assert_eq!(reader.bytes_needed(20), 0);
    assert_eq!(reader.bytes_needed(21), 1);
    assert_eq!(reader.remaining_bytes(), 2);
    assert_eq!(reader.read::<u16>(12).unwrap(), 0xBCD);
    assert_eq!(reader.unread_bytes(), [0xEF]);
    assert_eq!(reader.read::<u8>(8).unwrap(), 0xEF);
    assert_eq!(reader.unread_bytes(), []);
    reader.feed(&[]);
    assert_eq!(reader.read_bit(), Err(StreamError::UnexpectedEof));
    reader.feed(&[0x80]);
    assert_eq!(reader.bytes_needed(u32::MAX), (u32::MAX as usize - 8 + 7) / 8);
    assert_eq!(reader.read_bit(), Ok(true));
    assert_eq!(reader.into_unread(), (7, 0));
}

#[test]
fn unread_bytes_with_the_residual_are_all_that_is_left() {
    let mut reader = BitReader::<LittleEndian>::new(vec![0x0F, 1, 2, 3]);
    assert_eq!(reader.read::<u8>(3).unwrap(), 0b111);
    assert_eq!(reader.unread_bytes(), [1, 2, 3]);
    assert_eq!(reader.into_unread(), (5, 0b00001));
}

#[test]
fn read_unary_of_a_short_run_in_a_long_reader() {
    let mut bytes = vec![0xFFu8; 3];
    bytes.push(0x7F);
    bytes.extend(vec![0xFFu8; 1 << 16]);
    let mut reader = BitReader::<BigEndian>::new(bytes);
    assert_eq!(reader.read_unary0().unwrap(), 24);
    assert_eq!(reader.read_unary1().unwrap(), 0);
    assert_eq!(reader.read::<u8>(6).unwrap(), 0b111111);
    assert_eq!(reader.read_unary0(), Err(StreamError::UnexpectedEof));
}
