use bitstream_io::numeric::{from_sign_magnitude, low_mask, pow2_u64, to_sign_magnitude, fits_unsigned, Numeric};
use bitstream_io::order::{BigEndian, Endianness, LittleEndian};
use bitstream_io::queue::BitQueue;
use bitstream_io::read::BitReader;
use bitstream_io::write::{BitWrite, BitWriterBE, BitWriterLE};

fn samples(bits: u32) -> Vec<u64> {
    let max = if bits == 64 { u64::MAX } else { (1u64 << bits) - 1 };
    let mut values = vec![0, max, max / 2, max / 3, max - max / 5, 0x5555_5555_5555_5555 & max];
    values.push(0xA5A5_5A5A_C3C3_3C3C & max);
    values
}

#[test]
fn fields_round_trip_big_endian() {
    for offset in 0..8u32 {
        for bits in 1..=64u32 {
            for value in samples(bits) {
                let mut w = BitWriterBE::new(Vec::new());
                w.write(offset, 0u8).unwrap();
                w.write(bits, value).unwrap();
                w.byte_align().unwrap();
                let mut r = BitReader::<BigEndian>::new(w.into_bytes());
                r.skip(offset).unwrap();
                assert_eq!(r.read::<u64>(bits).unwrap(), value);
            }
        }
    }
}

#[test]
fn fields_round_trip_little_endian() {
    for offset in 0..8u32 {
        for bits in 1..=64u32 {
            for value in samples(bits) {
                let mut w = BitWriterLE::new(Vec::new());
                w.write(offset, 0u8).unwrap();
                w.write(bits, value).unwrap();
                w.byte_align().unwrap();
                let mut r = BitReader::<LittleEndian>::new(w.into_bytes());
                r.skip(offset).unwrap();
                assert_eq!(r.read::<u64>(bits).unwrap(), value);
            }
        }
    }
}

#[test]
fn narrow_types_round_trip() {
    for value in 0..=255u8 {
        let mut w = BitWriterBE::new(Vec::new());
        w.write(3, 5u8).unwrap();
        w.write(8, value).unwrap();
        w.write(16, 0x0100u16 + value as u16).unwrap();
        w.write(32, 0xFFFF_0000u32 + value as u32).unwrap();
        w.byte_align().unwrap();
        let mut r = BitReader::<BigEndian>::new(w.into_bytes());
        assert_eq!(r.read::<u8>(3).unwrap(), 5);
        assert_eq!(r.read::<u8>(8).unwrap(), value);
        assert_eq!(r.read::<u16>(16).unwrap(), 0x0100 + value as u16);
        assert_eq!(r.read::<u32>(32).unwrap(), 0xFFFF_0000 + value as u32);
    }
}

#[test]
fn signed_fields_round_trip() {
    for bits in 1..=8u32 {
        let low = -(1i32 << (bits - 1));
        let high = (1i32 << (bits - 1)) - 1;
        for value in low..=high {
            let mut w = BitWriterBE::new(Vec::new());
            w.write_bit(true).unwrap();
            w.write_signed(bits, value as i8).unwrap();
            w.write_signed(bits, value).unwrap();
            w.byte_align().unwrap();
            let mut r = BitReader::<BigEndian>::new(w.into_bytes());
            assert_eq!(r.read_bit().unwrap(), true);
            assert_eq!(r.read_signed::<i8>(bits).unwrap(), value as i8);
            assert_eq!(r.read_signed::<i32>(bits).unwrap(), value);
            let mut l = BitWriterLE::new(Vec::new());
            l.write_signed(bits, value as i16).unwrap();
            l.write_signed(bits, value as i64).unwrap();
            l.byte_align().unwrap();
            let mut r = BitReader::<LittleEndian>::new(l.into_bytes());
            assert_eq!(r.read_signed::<i16>(bits).unwrap(), value as i16);
            assert_eq!(r.read_signed::<i64>(bits).unwrap(), value as i64);
        }
    }
    for value in [i64::MIN, i64::MAX, -1, 0, 1, -0x1234_5678_9ABC_DEF0] {
        let mut w = BitWriterBE::new(Vec::new());
        w.write_signed(64, value).unwrap();
        let mut r = BitReader::<BigEndian>::new(w.into_bytes());
        assert_eq!(r.read_signed::<i64>(64).unwrap(), value);
    }
}

#[test]
fn unary_round_trip() {
    for n in 0..150u32 {
        let mut w = BitWriterBE::new(Vec::new());
        w.write_unary0(n).unwrap();
        w.write_unary1(n).unwrap();
        w.write_unary0(0).unwrap();
        w.byte_align().unwrap();
        let mut r = BitReader::<BigEndian>::new(w.into_bytes());
        assert_eq!(r.read_unary0().unwrap(), n);
        assert_eq!(r.read_unary1().unwrap(), n);
        assert_eq!(r.read_unary0().unwrap(), 0);
        let mut l = BitWriterLE::new(Vec::new());
        l.write_unary1(n).unwrap();
        l.write_unary0(n).unwrap();
        l.write_unary1(0).unwrap();
        l.byte_align().unwrap();
        let mut r = BitReader::<LittleEndian>::new(l.into_bytes());
        assert_eq!(r.read_unary1().unwrap(), n);
        assert_eq!(r.read_unary0().unwrap(), n);
        assert_eq!(r.read_unary1().unwrap(), 0);
    }
}

#[test]
fn bytes_round_trip() {
    let data: Vec<u8> = (0..=255u8).collect();
    for offset in 0..8u32 {
        let mut w = BitWriterLE::new(Vec::new());
        w.write(offset, 0u8).unwrap();
        w.write_bytes(&data).unwrap();
        w.byte_align().unwrap();
        let mut r = BitReader::<LittleEndian>::new(w.into_bytes());
        r.skip(offset).unwrap();
        let mut back = vec![0u8; 256];
        r.read_bytes(&mut back).unwrap();
        assert_eq!(back, data);
    }
}

#[test]
fn numeric_conversions() {
    assert_eq!(u8::bits_size(), 8);
    assert_eq!(i16::bits_size(), 16);
    assert_eq!(u32::bits_size(), 32);
    assert_eq!(i64::bits_size(), 64);
    assert_eq!(u8::from_u64(0x1FF), 0xFF);
    assert_eq!(u16::from_u64(0x1_2345), 0x2345);
    assert_eq!(u32::from_u64(0x1_2345_6789), 0x2345_6789);
    assert_eq!(u64::from_u64(u64::MAX), u64::MAX);
    assert_eq!(i8::from_u64(0xFF), -1);
    assert_eq!(i8::from_u64(0x17F), 127);
    assert_eq!(i8::from_u64(0x80), -128);
    assert_eq!(i16::from_u64(0x8000), i16::MIN);
    assert_eq!(i32::from_u64(0xFFFF_FFFE), -2);
    assert_eq!(i64::from_u64(u64::MAX), -1);
    assert_eq!(i64::from_u64(1 << 63), i64::MIN);
    assert_eq!(200u8.to_u64(), 200);
    assert_eq!((-1i8).to_u64(), 0xFF);
    assert_eq!(i16::MIN.to_u64(), 0x8000);
    assert_eq!((-2i32).to_u64(), 0xFFFF_FFFE);
    assert_eq!((-1i64).to_u64(), u64::MAX);
    assert_eq!(i64::MIN.to_u64(), 1 << 63);
    assert_eq!(i64::MAX.to_u64(), (1 << 63) - 1);
    assert_eq!(u64::MAX.to_u64(), u64::MAX);
}

#[test]
fn numeric_helpers() {
    assert_eq!(pow2_u64(0), 1);
    assert_eq!(pow2_u64(63), 1 << 63);
    assert_eq!(low_mask(0), 0);
    assert_eq!(low_mask(5), 31);
    assert_eq!(low_mask(64), u64::MAX);
    assert!(fits_unsigned(0, 0));
    assert!(!fits_unsigned(1, 0));
    assert!(fits_unsigned(255, 8));
    assert!(!fits_unsigned(256, 8));
    assert!(fits_unsigned(u64::MAX, 64));
    assert_eq!(from_sign_magnitude::<i8>(true, 3, 4), -5);
    assert_eq!(from_sign_magnitude::<i8>(false, 7, 4), 7);
    assert_eq!(from_sign_magnitude::<i8>(true, 0, 8), -128);
    assert_eq!(from_sign_magnitude::<i64>(true, 0, 64), i64::MIN);
    assert_eq!(from_sign_magnitude::<i32>(true, 0, 1), -1);
    assert_eq!(to_sign_magnitude(-5i8, 4), Some((true, 3)));
    assert_eq!(to_sign_magnitude(7i8, 4), Some((false, 7)));
    assert_eq!(to_sign_magnitude(8i8, 4), None);
    assert_eq!(to_sign_magnitude(-9i8, 4), None);
    assert_eq!(to_sign_magnitude(-8i8, 4), Some((true, 0)));
    assert_eq!(to_sign_magnitude(i64::MIN, 64), Some((true, 0)));
    assert_eq!(to_sign_magnitude(i64::MAX, 64), Some((false, i64::MAX as u64)));
    assert_eq!(to_sign_magnitude(-1i16, 1), Some((true, 0)));
    assert_eq!(to_sign_magnitude(1i16, 1), None);
}

#[test]
fn bit_orders() {
    assert_eq!(BigEndian::leading_sign(), true);
    assert_eq!(LittleEndian::leading_sign(), false);
    assert_eq!(BigEndian::push(0b101, 3, 0b01, 2), 0b10101);
    assert_eq!(LittleEndian::push(0b101, 3, 0b01, 2), 0b01101);
    assert_eq!(BigEndian::pop(0b10101, 5, 2), (0b10, 0b101));
    assert_eq!(LittleEndian::pop(0b10101, 5, 2), (0b01, 0b101));
    assert_eq!(BigEndian::push(0, 0, u64::MAX, 64), u64::MAX);
    assert_eq!(LittleEndian::push(u64::MAX, 64, 0, 0), u64::MAX);
    assert_eq!(BigEndian::pop(u64::MAX, 64, 0), (0, u64::MAX));
    assert_eq!(BigEndian::pop(u64::MAX, 64, 64), (u64::MAX, 0));
    assert_eq!(LittleEndian::pop(u64::MAX, 64, 64), (u64::MAX, 0));
    assert_eq!(LittleEndian::pop(u64::MAX, 64, 0), (0, u64::MAX));
}

#[test]
fn bit_queue_big_endian() {
    let mut q = BitQueue::<BigEndian>::new(8);
    assert!(q.is_empty());
    assert!(!q.is_full());
    assert_eq!(q.capacity(), 8);
    q.push(3, 0b101);
    q.push(5, 0b10011);
    assert!(q.is_full());
    assert_eq!(q.len(), 8);
    assert_eq!(q.value(), 0b10110011);
    assert_eq!(q.pop(2), 0b10);
    assert_eq!(q.len(), 6);
    assert_eq!(q.value(), 0b110011);
    assert_eq!(q.to_lookup_index(), 0b1110011);
    assert!(!q.all_ones());
    assert_eq!(q.pop_leading_ones(), 2);
    assert_eq!(q.len(), 3);
    assert_eq!(q.pop_leading_zeros(), 1);
    assert_eq!((q.len(), q.value()), (1, 1));
    assert!(q.all_ones());
    assert!(!q.all_zeros());
    q.clear();
    assert!(q.all_ones() && q.all_zeros() && q.is_empty());
    assert_eq!(q.to_lookup_index(), 1);
    q.set(0b0001, 4);
    assert_eq!(q.pop_leading_zeros(), 3);
    assert!(q.is_empty());
}

#[test]
fn bit_queue_little_endian() {
    let mut q = BitQueue::<LittleEndian>::from_value(0b101, 3, 64);
    q.push(5, 0b10011);
    assert_eq!(q.len(), 8);
    assert_eq!(q.value(), 0b10011101);
    assert_eq!(q.pop(2), 0b01);
    assert_eq!(q.value(), 0b100111);
    assert_eq!(q.to_lookup_index(), 0b1100111);
    assert_eq!(q.pop_leading_ones(), 3);
    assert_eq!((q.len(), q.value()), (2, 0b10));
    assert_eq!(q.pop_leading_zeros(), 1);
    assert!(q.is_empty());
    q.push(64, 0x0123_4567_89AB_CDEF);
    assert!(q.is_full());
    assert_eq!(q.pop(64), 0x0123_4567_89AB_CDEF);
    q.set(0, 7);
    assert!(q.all_zeros());
    assert!(!q.all_ones());
}

#[test]
fn bit_queue_peek_and_whole_runs() {
    let mut q = BitQueue::<BigEndian>::from_value(0b1011_0011, 8, 8);
    assert_eq!(q.peek(0), 0);
    assert_eq!(q.peek(3), 0b101);
    assert_eq!(q.peek(8), 0b1011_0011);
    assert_eq!(q.len(), 8);
    assert_eq!(q.pop(3), 0b101);
    assert_eq!(q.peek(2), 0b10);
    let mut l = BitQueue::<LittleEndian>::from_value(0b1011_0011, 8, 8);
    assert_eq!(l.peek(3), 0b011);
    assert_eq!(l.len(), 8);
    let mut ones = BitQueue::<BigEndian>::from_value(0b111, 3, 8);
    assert_eq!(ones.pop_leading_ones(), 3);
    assert!(ones.is_empty());
    assert_eq!(ones.pop_leading_ones(), 0);
    assert_eq!(ones.pop_leading_zeros(), 0);
    let mut zeros = BitQueue::<LittleEndian>::from_value(0, 5, 8);
    assert_eq!(zeros.pop_leading_zeros(), 5);
    assert!(zeros.is_empty());
    let mut mixed = BitQueue::<LittleEndian>::from_value(0b00111, 5, 8);
    assert_eq!(mixed.pop_leading_zeros(), 0);
    assert_eq!((mixed.len(), mixed.value()), (4, 0b0011));
    assert_eq!(mixed.pop_leading_ones(), 2);
    assert_eq!((mixed.len(), mixed.value()), (1, 0));
}
