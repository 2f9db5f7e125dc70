use bitstream_io::error::StreamError;
use bitstream_io::read::BitReader;
use bitstream_io::order::{BigEndian, LittleEndian};
use bitstream_io::write::{BitWrite, BitWriterBE, BitWriterLE};

#[test]
fn write_bits_big_endian() {
    let mut writer = BitWriterBE::new(Vec::new());
    for bit in [true, false, true, true, false, true, true, true] {
        writer.write_bit(bit).unwrap();
    }
    assert_eq!(writer.into_bytes(), [0b10110111]);
}

#[test]
fn write_bits_little_endian() {
    let mut writer = BitWriterLE::new(Vec::new());
    for bit in [true, true, true, false, true, true, false, true] {
        writer.write_bit(bit).unwrap();
    }
    assert_eq!(writer.into_bytes(), [0b10110111]);
}

#[test]
fn write_fields_big_endian() {
    let mut writer = BitWriterBE::new(Vec::new());
    writer.write(1, 0b1u8).unwrap();
    writer.write(2, 0b01u8).unwrap();
    writer.write(5, 0b10111u8).unwrap();
    assert_eq!(writer.into_bytes(), [0b10110111]);
}

#[test]
fn write_fields_little_endian() {
    let mut writer = BitWriterLE::new(Vec::new());
    writer.write(1, 0b1u8).unwrap();
    writer.write(2, 0b11u8).unwrap();
    writer.write(5, 0b10110u8).unwrap();
    assert_eq!(writer.into_bytes(), [0b10110111]);
}

#[test]
fn write_appends_to_the_given_bytes() {
    let mut writer = BitWriterBE::new(vec![0xAA]);
    writer.write(8, 0x55u8).unwrap();
    assert_eq!(writer.into_bytes(), [0xAA, 0x55]);
}

#[test]
fn write_rejects_excessive_bits() {
    let mut w = BitWriterBE::new(Vec::new());
    assert_eq!(w.write(9, 0u8), Err(StreamError::InvalidInput));
    assert_eq!(w.write(17, 0u16), Err(StreamError::InvalidInput));
    assert_eq!(w.write(33, 0u32), Err(StreamError::InvalidInput));
    assert_eq!(w.write(65, 0u64), Err(StreamError::InvalidInput));
    assert!(w.byte_aligned());
    assert_eq!(w.into_bytes(), []);
    let mut l = BitWriterLE::new(Vec::new());
    assert_eq!(l.write(9, 0u8), Err(StreamError::InvalidInput));
    assert_eq!(l.write(17, 0u16), Err(StreamError::InvalidInput));
    assert_eq!(l.write(33, 0u32), Err(StreamError::InvalidInput));
    assert_eq!(l.write(65, 0u64), Err(StreamError::InvalidInput));
    assert_eq!(l.into_unwritten(), (0, 0));
}

#[test]
fn write_rejects_excessive_values() {
    let mut w = BitWriterBE::new(Vec::new());
    assert_eq!(w.write(1, 2u8), Err(StreamError::InvalidInput));
    assert_eq!(w.write(2, 4u8), Err(StreamError::InvalidInput));
    assert_eq!(w.write(3, 8u8), Err(StreamError::InvalidInput));
    assert_eq!(w.write(0, 1u8), Err(StreamError::InvalidInput));
    assert_eq!(w.write(63, 1u64 << 63), Err(StreamError::InvalidInput));
    assert_eq!(w.write(7, -1i8), Err(StreamError::InvalidInput));
    assert_eq!(w.write(1, 1u8), Ok(()));
    assert_eq!(w.write(2, 3u8), Ok(()));
    assert_eq!(w.write(3, 7u8), Ok(()));
    assert_eq!(w.write(0, 0u8), Ok(()));
    assert_eq!(w.into_unwritten(), (6, 0b111111));
    let mut l = BitWriterLE::new(Vec::new());
    assert_eq!(l.write(1, 2u8), Err(StreamError::InvalidInput));
    assert_eq!(l.write(2, 4u8), Err(StreamError::InvalidInput));
    assert_eq!(l.write(3, 8u8), Err(StreamError::InvalidInput));
    assert_eq!(l.into_unwritten(), (0, 0));
}

#[test]
fn write_full_width_values() {
    let mut w = BitWriterBE::new(Vec::new());
    w.write(8, 0xFFu8).unwrap();
    w.write(16, 0xFFFFu16).unwrap();
    w.write(32, 0xDEADBEEFu32).unwrap();
    w.write(64, u64::MAX).unwrap();
    w.write(8, -2i8).unwrap();
    assert_eq!(
        w.into_bytes(),
        [0xFF, 0xFF, 0xFF, 0xDE, 0xAD, 0xBE, 0xEF, 0xFF, 0xFF, 0xFF, 0xFF, 0xFF, 0xFF, 0xFF, 0xFF, 0xFE]
    );
}

#[test]
fn write_wide_fields_across_bytes() {
    let mut be = BitWriterBE::new(Vec::new());
    be.write(4, 0x1u8).unwrap();
    be.write(64, 0x23456789ABCDEF00u64).unwrap();
    be.write(4, 0xFu8).unwrap();
    assert_eq!(be.into_bytes(), [0x12, 0x34, 0x56, 0x78, 0x9A, 0xBC, 0xDE, 0xF0, 0x0F]);
    let mut le = BitWriterLE::new(Vec::new());
    le.write(4, 0x2u8).unwrap();
    le.write(64, 0xFF0DEBC9A7856341u64).unwrap();
    le.write(4, 0x0u8).unwrap();
    assert_eq!(le.into_bytes(), [0x12, 0x34, 0x56, 0x78, 0x9A, 0xBC, 0xDE, 0xF0, 0x0F]);
}

#[test]
fn write_signed_big_endian() {
    let mut writer = BitWriterBE::new(Vec::new());
    writer.write_signed(4, -5i8).unwrap();
    writer.write_signed(4, 7i8).unwrap();
    assert_eq!(writer.into_bytes(), [0b10110111]);
}

#[test]
fn write_signed_little_endian() {
    let mut writer = BitWriterLE::new(Vec::new());
    writer.write_signed(4, 7i8).unwrap();
    writer.write_signed(4, -5i8).unwrap();
    assert_eq!(writer.into_bytes(), [0b10110111]);
}

#[test]
fn write_signed_rejects_what_does_not_fit() {
    let mut w = BitWriterBE::new(Vec::new());
    assert_eq!(w.write_signed(9, 0i8), Err(StreamError::InvalidInput));
    assert_eq!(w.write_signed(17, 0i16), Err(StreamError::InvalidInput));
    assert_eq!(w.write_signed(33, 0i32), Err(StreamError::InvalidInput));
    assert_eq!(w.write_signed(65, 0i64), Err(StreamError::InvalidInput));
    assert_eq!(w.write_signed(0, 0i8), Err(StreamError::InvalidInput));
    assert_eq!(w.write_signed(4, 8i8), Err(StreamError::InvalidInput));
    assert_eq!(w.write_signed(4, -9i8), Err(StreamError::InvalidInput));
    assert_eq!(w.write_signed(1, 1i8), Err(StreamError::InvalidInput));
    assert_eq!(w.into_unwritten(), (0, 0));
    let mut l = BitWriterLE::new(Vec::new());
    assert_eq!(l.write_signed(4, 8i32), Err(StreamError::InvalidInput));
    assert_eq!(l.write_signed(4, -9i64), Err(StreamError::InvalidInput));
    assert_eq!(l.into_unwritten(), (0, 0));
}

#[test]
fn write_signed_extremes() {
    let mut w = BitWriterBE::new(Vec::new());
    w.write_signed(8, -128i8).unwrap();
    w.write_signed(8, 127i8).unwrap();
    w.write_signed(16, -1i16).unwrap();
    w.write_signed(16, -32768i32).unwrap();
    w.write_signed(4, -8i8).unwrap();
    w.write_signed(4, 7i64).unwrap();
    assert_eq!(w.into_bytes(), [0x80, 0x7F, 0xFF, 0xFF, 0x80, 0x00, 0x87]);
    let mut l = BitWriterLE::new(Vec::new());
    l.write_signed(64, i64::MIN).unwrap();
    l.write_signed(1, -1i8).unwrap();
    l.write_signed(1, 0i8).unwrap();
    assert_eq!(l.into_unwritten(), (2, 0b01));
}

#[test]
fn write_bytes_aligned_and_unaligned() {
    let mut w = BitWriterBE::new(Vec::new());
    w.write_bytes(b"foo").unwrap();
    w.write(4, 0xAu8).unwrap();
    w.write_bytes(&[0xBC, 0xDE]).unwrap();
    w.write(4, 0xFu8).unwrap();
    w.write_bytes(&[]).unwrap();
    assert_eq!(w.into_bytes(), [b'f', b'o', b'o', 0xAB, 0xCD, 0xEF]);
    let mut l = BitWriterLE::new(Vec::new());
    l.write(4, 0xAu8).unwrap();
    l.write_bytes(&[0xBC, 0xDE]).unwrap();
    l.write(4, 0xFu8).unwrap();
    assert_eq!(l.into_bytes(), [0xCA, 0xEB, 0xFD]);
}

#[test]
fn write_unary0_big_endian() {
    let mut writer = BitWriterBE::new(Vec::new());
    writer.write_unary0(0).unwrap();
    writer.write_unary0(3).unwrap();
    writer.write_unary0(10).unwrap();
    assert_eq!(writer.into_bytes(), [0b01110111, 0b11111110]);
}

#[test]
fn write_unary0_little_endian() {
    let mut writer = BitWriterLE::new(Vec::new());
    writer.write_unary0(0).unwrap();
    writer.write_unary0(3).unwrap();
    writer.write_unary0(10).unwrap();
    assert_eq!(writer.into_bytes(), [0b11101110, 0b01111111]);
}

#[test]
fn write_unary1_big_endian() {
    let mut writer = BitWriterBE::new(Vec::new());
    writer.write_unary1(0).unwrap();
    writer.write_unary1(3).unwrap();
    writer.write_unary1(10).unwrap();
    assert_eq!(writer.into_bytes(), [0b10001000, 0b00000001]);
}

#[test]
fn write_unary1_little_endian() {
    let mut writer = BitWriterLE::new(Vec::new());
    writer.write_unary1(0).unwrap();
    writer.write_unary1(3).unwrap();
    writer.write_unary1(10).unwrap();
    assert_eq!(writer.into_bytes(), [0b00010001, 0b10000000]);
}

#[test]
fn write_long_unary_runs() {
    for n in [63u32, 64, 65, 127, 128, 129, 200] {
        let mut w = BitWriterBE::new(Vec::new());
        w.write_unary0(n).unwrap();
        w.byte_align().unwrap();
        let bytes = w.into_bytes();
        assert_eq!(bytes.len() as u32, (n + 1 + 7) / 8);
        let mut r = BitReader::<BigEndian>::new(bytes);
        assert_eq!(r.read_unary0().unwrap(), n);
        let mut l = BitWriterLE::new(Vec::new());
        l.write_bit(true).unwrap();
        l.write_unary1(n).unwrap();
        l.byte_align().unwrap();
        let mut r = BitReader::<LittleEndian>::new(l.into_bytes());
        assert_eq!(r.read_bit().unwrap(), true);
        assert_eq!(r.read_unary1().unwrap(), n);
    }
}

#[test]
fn byte_align_pads_with_zeros() {
    let mut w = BitWriterBE::new(Vec::new());
    w.write(9, 0x1FFu16).unwrap();
    assert_eq!(w.byte_aligned(), false);
    w.byte_align().unwrap();
    assert_eq!(w.byte_aligned(), true);
    w.write(8, 0xABu8).unwrap();
    assert_eq!(w.into_bytes(), [0xFF, 0b1000_0000, 0xAB]);
    let mut l = BitWriterLE::new(Vec::new());
    l.write(9, 0x1FFu16).unwrap();
    l.byte_align().unwrap();
    l.write_bytes(&[0xAB]).unwrap();
    assert_eq!(l.into_bytes(), [0xFF, 0b0000_0001, 0xAB]);
}

#[test]
fn byte_align_of_an_aligned_writer_writes_nothing() {
    let mut w = BitWriterBE::new(Vec::new());
    w.byte_align().unwrap();
    w.write(8, 1u8).unwrap();
    w.byte_align().unwrap();
    assert!(w.byte_aligned());
    assert_eq!(w.into_bytes(), [1]);
}

#[test]
fn byte_aligned_follows_the_unwritten_bits() {
    let mut w = BitWriterLE::new(Vec::new());
    assert!(w.byte_aligned());
    for i in 1..=16u32 {
        w.write_bit(true).unwrap();
        assert_eq!(w.byte_aligned(), i % 8 == 0);
    }
}

#[test]
fn into_unwritten_gives_the_partial_byte() {
    let mut w = BitWriterBE::new(Vec::new());
    w.write(9, 0b1010_0101_1u16).unwrap();
    w.write(2, 0b01u8).unwrap();
    assert_eq!(w.into_unwritten(), (3, 0b101));
    let mut l = BitWriterLE::new(Vec::new());
    l.write(11, 0b101_1010_0101u16).unwrap();
    assert_eq!(l.into_unwritten(), (3, 0b101));
    let mut lost = BitWriterBE::new(Vec::new());
    lost.write(12, 0xABCu16).unwrap();
    assert_eq!(lost.into_bytes(), [0xAB]);
}

#[test]
fn take_bytes_leaves_the_partial_byte() {
    let mut w = BitWriterBE::new(Vec::new());
    w.write(12, 0xABCu16).unwrap();
    assert_eq!(w.take_bytes(), [0xAB]);
    assert_eq!(w.take_bytes(), []);
    w.write(12, 0xDEFu16).unwrap();
    assert_eq!(w.take_bytes(), [0xCD, 0xEF]);
    assert!(w.byte_aligned());
}
