//! Writing bits, fields, unary run lengths and Huffman-coded symbols to a
//! buffer of bytes, in either bit order.

use vstd::prelude::*;
use vstd::arithmetic::power2::{
    pow2, lemma_pow2_pos, lemma_pow2_strictly_increases, lemma_pow2_unfold, lemma2_to64,
};
use crate::bits::{
    bits_to_nat, nat_to_bits, stream_bits, run, lemma_bits_to_nat_bound, lemma_bits_round_trip,
    lemma_nat_to_bits_len, lemma_nat_round_trip_exact, lemma_bits_to_nat_extremes,
    lemma_stream_bits_len, lemma_stream_bits_push, lemma_append_field,
};
use crate::error::StreamError;
use crate::huffman::{WriteHuffmanTree, ordered};
use crate::numeric::{Numeric, SignedNumeric, twos_complement, fits_signed, to_sign_magnitude, low_mask, fits_unsigned};
use crate::order::{Endianness, BigEndian, LittleEndian};
use crate::queue::BitQueue;

verus! {

/// Whether `value` can be written as a field of `bits` bits: the type has
/// that many bits, and the value's bit pattern needs no more.
pub open spec fn fits_field<U: Numeric>(bits: u32, value: U) -> bool {
    bits <= U::width() && value.pattern() < pow2(bits as nat)
}

/// `n` bits equal to `bit`, then one opposite bit.
pub open spec fn unary_bits(n: nat, bit: bool) -> Seq<bool> {
    run(n, bit).push(!bit)
}

/// How many clear bits bring a stream of `len` bits to a byte boundary.
pub open spec fn padding(len: nat) -> nat {
    ((8 - len % 8) % 8) as nat
}

/// Moves bits from the front of `acc` to the back of `rem`, a partial
/// byte, until `rem` is full or `acc` is empty, and sends `rem` to the
/// sink if it is full. Does nothing if `rem` is empty.
fn write_unaligned<E: Endianness>(
    writer: &mut Vec<u8>,
    acc: &mut BitQueue<E>,
    rem: &mut BitQueue<E>,
)
    requires
        old(acc).wf(),
        old(rem).wf(),
        old(rem).limit() == 8,
        old(rem)@.len() < 8,
    ensures
        final(acc).wf(),
        final(rem).wf(),
        final(acc).limit() == old(acc).limit(),
        final(rem).limit() == 8,
        final(rem)@.len() < 8,
        final(rem)@.len() == 0 || final(acc)@.len() == 0,
        final(acc)@.len() <= old(acc)@.len(),
        stream_bits(E::msb_first(), final(writer)@) + final(rem)@ + final(acc)@ == stream_bits(
            E::msb_first(),
            old(writer)@,
        ) + old(rem)@ + old(acc)@,
{
    if !rem.is_empty() {
        let room: u32 = rem.capacity() - rem.len();
        let n: u32 = if acc.len() < room { acc.len() } else { room };
        let ghost moved = acc@.take(n as int);
        let field: u64 = acc.pop(n);
        proof {
            lemma_bits_round_trip(E::msb_first(), moved);
            assert(moved + acc@ =~= old(acc)@);
        }
        rem.push(n, field);
        if rem.is_full() {
            let ghost full = rem@;
            let byte: u64 = rem.pop(8);
            proof {
                lemma2_to64();
                assert(full.take(8) =~= full);
                lemma_bits_round_trip(E::msb_first(), full);
                lemma_stream_bits_push(E::msb_first(), writer@, byte as u8);
                assert(rem@ =~= Seq::<bool>::empty());
            }
            writer.push(byte as u8);
            proof {
                let w = stream_bits(E::msb_first(), old(writer)@);
                assert((w + full) + rem@ + acc@ =~= w + old(rem)@ + (moved + acc@));
            }
        } else {
            proof {
                let w = stream_bits(E::msb_first(), old(writer)@);
                assert(w + rem@ + acc@ =~= w + old(rem)@ + (moved + acc@));
            }
        }
    }
}

/// Sends the whole bytes at the front of `acc` to the sink.
fn write_aligned<E: Endianness>(writer: &mut Vec<u8>, acc: &mut BitQueue<E>)
    requires
        old(acc).wf(),
    ensures
        final(acc).wf(),
        final(acc).limit() == old(acc).limit(),
        final(acc)@.len() < 8,
        final(acc)@.len() <= old(acc)@.len(),
        stream_bits(E::msb_first(), final(writer)@) + final(acc)@ == stream_bits(
            E::msb_first(),
            old(writer)@,
        ) + old(acc)@,
{
    while acc.len() >= 8
        invariant
            acc.wf(),
            acc.limit() == old(acc).limit(),
            acc@.len() <= old(acc)@.len(),
            stream_bits(E::msb_first(), writer@) + acc@ == stream_bits(
                E::msb_first(),
                old(writer)@,
            ) + old(acc)@,
        decreases acc@.len(),
    {
        let ghost held = acc@;
        let ghost sent = writer@;
        let byte: u64 = acc.pop(8);
        proof {
            lemma2_to64();
            lemma_bits_round_trip(E::msb_first(), held.take(8));
            lemma_stream_bits_push(E::msb_first(), sent, byte as u8);
            let w = stream_bits(E::msb_first(), sent);
            assert((w + held.take(8)) + held.skip(8) =~= w + held);
        }
        writer.push(byte as u8);
    }
}

/// Writes the `bits` bits of `value` behind what was written before:
/// whole bytes go to the sink, and `rem` keeps the bits of the last,
/// partial byte.
fn write_field<E: Endianness>(writer: &mut Vec<u8>, rem: &mut BitQueue<E>, bits: u32, value: u64)
    requires
        old(rem).wf(),
        old(rem).limit() == 8,
        old(rem)@.len() < 8,
        bits <= 64,
        value < pow2(bits as nat),
    ensures
        final(rem).wf(),
        final(rem).limit() == 8,
        final(rem)@.len() < 8,
        stream_bits(E::msb_first(), final(writer)@) + final(rem)@ == stream_bits(
            E::msb_first(),
            old(writer)@,
        ) + old(rem)@ + nat_to_bits(E::msb_first(), bits as nat, value as nat),
{
    let ghost field = nat_to_bits(E::msb_first(), bits as nat, value as nat);
    proof {
        lemma_nat_to_bits_len(E::msb_first(), bits as nat, value as nat);
    }
    if bits < rem.capacity() - rem.len() {
        rem.push(bits, value);
        proof {
            let w = stream_bits(E::msb_first(), writer@);
            assert(w + (old(rem)@ + field) =~= w + old(rem)@ + field);
        }
    } else {
        let mut acc: BitQueue<E> = BitQueue::from_value(value, bits, 64);
        write_unaligned(writer, &mut acc, rem);
        let ghost sent = stream_bits(E::msb_first(), writer@);
        let ghost kept = rem@;
        let ghost rest = acc@;
        write_aligned(writer, &mut acc);
        let ghost left = acc@;
        let last: u64 = acc.value();
        proof {
            lemma_bits_to_nat_bound(E::msb_first(), left);
            lemma_bits_round_trip(E::msb_first(), left);
        }
        rem.push(acc.len(), last);
        proof {
            let w = stream_bits(E::msb_first(), writer@);
            if kept.len() == 0 {
                assert(w + rem@ =~= w + left);
                assert(sent + kept + rest =~= sent + rest);
            } else {
                assert(left =~= Seq::<bool>::empty());
                assert(rest =~= Seq::<bool>::empty());
                assert(w =~= w + left);
                assert(sent =~= sent + rest);
                assert(w + rem@ =~= sent + kept + rest);
            }
        }
    }
}

/// Writes `value` as a field of `bits` bits, if it fits in one.
fn write_value<E: Endianness, U: Numeric>(
    writer: &mut Vec<u8>,
    rem: &mut BitQueue<E>,
    bits: u32,
    value: U,
) -> (r: Result<(), StreamError>)
    requires
        old(rem).wf(),
        old(rem).limit() == 8,
        old(rem)@.len() < 8,
    ensures
        final(rem).wf(),
        final(rem).limit() == 8,
        final(rem)@.len() < 8,
        match r {
            Ok(()) => {
                &&& fits_field(bits, value)
                &&& stream_bits(E::msb_first(), final(writer)@) + final(rem)@ == stream_bits(
                    E::msb_first(),
                    old(writer)@,
                ) + old(rem)@ + nat_to_bits(E::msb_first(), bits as nat, value.pattern())
            },
            Err(e) => {
                &&& e == StreamError::InvalidInput
                &&& !fits_field(bits, value)
                &&& final(writer)@ == old(writer)@
                &&& final(rem)@ == old(rem)@
            },
        },
{
    proof {
        U::lemma_width();
    }
    if bits > U::bits_size() {
        return Err(StreamError::InvalidInput);
    }
    let raw: u64 = value.to_u64();
    if !fits_unsigned(raw, bits) {
        return Err(StreamError::InvalidInput);
    }
    write_field(writer, rem, bits, raw);
    Ok(())
}

/// Writes `value` as a two's-complement field of `bits` bits, if it fits
/// in one.
fn write_signed_value<E: Endianness, S: SignedNumeric>(
    writer: &mut Vec<u8>,
    rem: &mut BitQueue<E>,
    bits: u32,
    value: S,
) -> (r: Result<(), StreamError>)
    requires
        old(rem).wf(),
        old(rem).limit() == 8,
        old(rem)@.len() < 8,
    ensures
        final(rem).wf(),
        final(rem).limit() == 8,
        final(rem)@.len() < 8,
        match r {
            Ok(()) => {
                &&& bits <= S::width()
                &&& fits_signed(bits as nat, value.value())
                &&& stream_bits(E::msb_first(), final(writer)@) + final(rem)@ == stream_bits(
                    E::msb_first(),
                    old(writer)@,
                ) + old(rem)@ + nat_to_bits(
                    E::msb_first(),
                    bits as nat,
                    twos_complement(bits as nat, value.value()),
                )
            },
            Err(e) => {
                &&& e == StreamError::InvalidInput
                &&& !(bits <= S::width() && fits_signed(bits as nat, value.value()))
                &&& final(writer)@ == old(writer)@
                &&& final(rem)@ == old(rem)@
            },
        },
{
    proof {
        S::lemma_width();
    }
    if bits == 0 || bits > S::bits_size() {
        return Err(StreamError::InvalidInput);
    }
    match to_sign_magnitude(value, bits) {
        None => Err(StreamError::InvalidInput),
        Some((negative, magnitude)) => {
            let sign: u64 = if negative { 1 } else { 0 };
            let ghost m = (bits - 1) as nat;
            let ghost start = stream_bits(E::msb_first(), writer@) + rem@;
            let ghost sign_bits = nat_to_bits(E::msb_first(), 1, sign as nat);
            let ghost magnitude_bits = nat_to_bits(E::msb_first(), m, magnitude as nat);
            proof {
                lemma2_to64();
                lemma_pow2_unfold(bits as nat);
                lemma_pow2_pos(m);
                assert(sign * pow2(m) == (if negative { pow2(m) } else { 0 }) && pow2(m) * sign
                    == sign * pow2(m) && pow2(1) * magnitude == 2 * magnitude) by (nonlinear_arith)
                    requires
                        sign == (if negative { 1nat } else { 0nat }),
                        pow2(1) == 2,
                ;
            }
            if E::leading_sign() {
                write_field(writer, rem, 1, sign);
                write_field(writer, rem, bits - 1, magnitude);
                proof {
                    lemma_append_field(true, sign as nat, 1, magnitude as nat, m);
                    assert(start + sign_bits + magnitude_bits =~= start + (sign_bits
                        + magnitude_bits));
                }
            } else {
                write_field(writer, rem, bits - 1, magnitude);
                write_field(writer, rem, 1, sign);
                proof {
                    lemma_append_field(false, magnitude as nat, m, sign as nat, 1);
                    assert(start + magnitude_bits + sign_bits =~= start + (magnitude_bits
                        + sign_bits));
                }
            }
            Ok(())
        },
    }
}

/// Writes the bytes of `buf`, eight bits each.
fn write_all<E: Endianness>(writer: &mut Vec<u8>, rem: &mut BitQueue<E>, buf: &[u8])
    requires
        old(rem).wf(),
        old(rem).limit() == 8,
        old(rem)@.len() < 8,
    ensures
        final(rem).wf(),
        final(rem).limit() == 8,
        final(rem)@.len() < 8,
        stream_bits(E::msb_first(), final(writer)@) + final(rem)@ == stream_bits(
            E::msb_first(),
            old(writer)@,
        ) + old(rem)@ + stream_bits(E::msb_first(), buf@),
{
    let ghost start = stream_bits(E::msb_first(), writer@) + rem@;
    let aligned: bool = rem.is_empty();
    let mut i: usize = 0;
    proof {
        assert(buf@.take(0) =~= Seq::<u8>::empty());
        assert(start + stream_bits(E::msb_first(), buf@.take(0)) =~= start);
    }
    while i < buf.len()
        invariant
            rem.wf(),
            rem.limit() == 8,
            rem@.len() < 8,
            aligned ==> rem@.len() == 0,
            i <= buf@.len(),
            start == stream_bits(E::msb_first(), old(writer)@) + old(rem)@,
            stream_bits(E::msb_first(), writer@) + rem@ == start + stream_bits(
                E::msb_first(),
                buf@.take(i as int),
            ),
        decreases buf@.len() - i,
    {
        let byte: u8 = buf[i];
        let ghost done = stream_bits(E::msb_first(), buf@.take(i as int));
        let ghost one = nat_to_bits(E::msb_first(), 8, byte as nat);
        proof {
            lemma2_to64();
            lemma_stream_bits_push(E::msb_first(), buf@.take(i as int), byte);
            assert(buf@.take(i + 1) =~= buf@.take(i as int).push(byte));
            assert(start + done + one =~= start + (done + one));
        }
        if aligned {
            proof {
                lemma_stream_bits_push(E::msb_first(), writer@, byte);
                let w = stream_bits(E::msb_first(), writer@);
                assert(w + rem@ =~= w);
                assert((w + one) + rem@ =~= w + one);
            }
            writer.push(byte);
        } else {
            write_field(writer, rem, 8, byte as u64);
        }
        i = i + 1;
    }
    proof {
        assert(buf@.take(buf@.len() as int) =~= buf@);
    }
}

/// Writes `n` bits equal to `bit`, then one opposite bit, in fields of up
/// to 64 bits.
fn write_run<E: Endianness>(writer: &mut Vec<u8>, rem: &mut BitQueue<E>, n: u32, bit: bool)
    requires
        old(rem).wf(),
        old(rem).limit() == 8,
        old(rem)@.len() < 8,
    ensures
        final(rem).wf(),
        final(rem).limit() == 8,
        final(rem)@.len() < 8,
        stream_bits(E::msb_first(), final(writer)@) + final(rem)@ == stream_bits(
            E::msb_first(),
            old(writer)@,
        ) + old(rem)@ + unary_bits(n as nat, bit),
{
    let ghost start = stream_bits(E::msb_first(), writer@) + rem@;
    let mut left: u32 = n;
    proof {
        assert(start + run(0, bit) =~= start);
    }
    while left > 64
        invariant
            rem.wf(),
            rem.limit() == 8,
            rem@.len() < 8,
            left <= n,
            start == stream_bits(E::msb_first(), old(writer)@) + old(rem)@,
            stream_bits(E::msb_first(), writer@) + rem@ == start + run((n - left) as nat, bit),
        decreases left,
    {
        let chunk: u64 = if bit { low_mask(64) } else { 0 };
        proof {
            lemma_pow2_pos(64);
            lemma_field_run(E::msb_first(), 64, bit);
            assert(start + run((n - left) as nat, bit) + run(64, bit) =~= start + run(
                (n - left + 64) as nat,
                bit,
            ));
        }
        write_field(writer, rem, 64, chunk);
        left = left - 64;
    }
    let chunk: u64 = if bit { low_mask(left) } else { 0 };
    let stop: u64 = if bit { 0 } else { 1 };
    proof {
        lemma2_to64();
        lemma_pow2_pos(left as nat);
        lemma_field_run(E::msb_first(), left as nat, bit);
        lemma_field_run(E::msb_first(), 1, !bit);
        assert(start + run((n - left) as nat, bit) + run(left as nat, bit) + run(1, !bit) =~= start
            + unary_bits(n as nat, bit));
    }
    write_field(writer, rem, left, chunk);
    write_field(writer, rem, 1, stop);
}

/// The field of `n` bits that all equal `bit` is the largest number of
/// `n` bits if the bit is set, and zero if it is clear.
proof fn lemma_field_run(msb_first: bool, n: nat, bit: bool)
    ensures
        nat_to_bits(msb_first, n, if bit { (pow2(n) - 1) as nat } else { 0 }) == run(n, bit),
{
    let value: nat = if bit { (pow2(n) - 1) as nat } else { 0 };
    lemma_pow2_pos(n);
    lemma_nat_to_bits_len(msb_first, n, value);
    lemma_nat_round_trip_exact(msb_first, n, value);
    lemma_bits_to_nat_extremes(msb_first, nat_to_bits(msb_first, n, value));
}

/// Writes clear bits up to the next byte boundary.
fn align<E: Endianness>(writer: &mut Vec<u8>, rem: &mut BitQueue<E>)
    requires
        old(rem).wf(),
        old(rem).limit() == 8,
        old(rem)@.len() < 8,
    ensures
        final(rem).wf(),
        final(rem).limit() == 8,
        final(rem)@.len() == 0,
        stream_bits(E::msb_first(), final(writer)@) + final(rem)@ == stream_bits(
            E::msb_first(),
            old(writer)@,
        ) + old(rem)@ + run(padding(old(rem)@.len()), false),
{
    let ghost start = stream_bits(E::msb_first(), writer@) + rem@;
    if !rem.is_empty() {
        let pad: u32 = rem.capacity() - rem.len();
        proof {
            lemma_pow2_pos(pad as nat);
            lemma_field_run(E::msb_first(), pad as nat, false);
            lemma_stream_bits_len(E::msb_first(), old(writer)@);
            lemma_stream_bits_len(E::msb_first(), writer@);
        }
        write_field(writer, rem, pad, 0);
        proof {
            lemma_stream_bits_len(E::msb_first(), writer@);
            assert((stream_bits(E::msb_first(), writer@) + rem@).len() == start.len() + pad);
        }
    } else {
        proof {
            assert(start + run(0, false) =~= start);
        }
    }
}

/// Writing to a stream of bits in one bit order.
///
/// `written()` is the stream so far, first bit first. Whole bytes of it
/// have gone to the sink; `unwritten()` is its tail that fills no whole
/// byte yet.
pub trait BitWrite: Sized {
    /// Whether the first bit of a field is its most significant one.
    spec fn msb_first() -> bool;

    /// The writer's invariant.
    spec fn wf(&self) -> bool;

    /// All the bits written so far, first bit first.
    spec fn written(&self) -> Seq<bool>;

    /// The bits written that have not gone to the sink: the last, partial
    /// byte.
    spec fn unwritten(&self) -> Seq<bool>;

    /// Writes `value` as a field of `bits` bits.
    ///
    /// Fails with `InvalidInput`, writing nothing, if `U` has fewer than
    /// `bits` bits or `value` needs more.
    fn write<U: Numeric>(&mut self, bits: u32, value: U) -> (r: Result<(), StreamError>)
        requires
            old(self).wf(),
        ensures
            final(self).wf(),
            match r {
                Ok(()) => {
                    &&& fits_field(bits, value)
                    &&& final(self).written() == old(self).written() + nat_to_bits(
                        Self::msb_first(),
                        bits as nat,
                        value.pattern(),
                    )
                },
                Err(e) => {
                    &&& e == StreamError::InvalidInput
                    &&& !fits_field(bits, value)
                    &&& final(self).written() == old(self).written()
                    &&& final(self).unwritten() == old(self).unwritten()
                },
            },
    ;

    /// Writes `value` as a two's-complement field of `bits` bits. The sign
    /// bit is the field's most significant bit: the first bit written in
    /// most-significant-first order, the last one otherwise.
    ///
    /// Fails with `InvalidInput`, writing nothing, if `bits` is zero, `S`
    /// has fewer than `bits` bits, or `value` does not fit in such a field.
    fn write_signed<S: SignedNumeric>(&mut self, bits: u32, value: S) -> (r: Result<
        (),
        StreamError,
    >)
        requires
            old(self).wf(),
        ensures
            final(self).wf(),
            match r {
                Ok(()) => {
                    &&& bits <= S::width()
                    &&& fits_signed(bits as nat, value.value())
                    &&& final(self).written() == old(self).written() + nat_to_bits(
                        Self::msb_first(),
                        bits as nat,
                        twos_complement(bits as nat, value.value()),
                    )
                },
                Err(e) => {
                    &&& e == StreamError::InvalidInput
                    &&& !(bits <= S::width() && fits_signed(bits as nat, value.value()))
                    &&& final(self).written() == old(self).written()
                    &&& final(self).unwritten() == old(self).unwritten()
                },
            },
    ;

    /// Writes the bytes of `buf`, eight bits each. Never fails.
    fn write_bytes(&mut self, buf: &[u8]) -> (r: Result<(), StreamError>)
        requires
            old(self).wf(),
        ensures
            final(self).wf(),
            r is Ok,
            final(self).written() == old(self).written() + stream_bits(Self::msb_first(), buf@),
    ;

    /// Writes `value` set bits, then one clear bit. Never fails.
    fn write_unary0(&mut self, value: u32) -> (r: Result<(), StreamError>)
        requires
            old(self).wf(),
        ensures
            final(self).wf(),
            r is Ok,
            final(self).written() == old(self).written() + unary_bits(value as nat, true),
    ;

    /// Writes `value` clear bits, then one set bit. Never fails.
    fn write_unary1(&mut self, value: u32) -> (r: Result<(), StreamError>)
        requires
            old(self).wf(),
        ensures
            final(self).wf(),
            r is Ok,
            final(self).written() == old(self).written() + unary_bits(value as nat, false),
    ;

    /// Whether the stream stands at a byte boundary: whether every bit
    /// written has gone to the sink.
    fn byte_aligned(&self) -> (r: bool)
        requires
            self.wf(),
        ensures
            r == (self.unwritten().len() == 0),
    ;

    /// Writes clear bits up to the next byte boundary: none if the stream
    /// stands at one. Never fails.
    fn byte_align(&mut self) -> (r: Result<(), StreamError>)
        requires
            old(self).wf(),
        ensures
            final(self).wf(),
            r is Ok,
            final(self).unwritten().len() == 0,
            final(self).written() == old(self).written() + run(
                padding(old(self).unwritten().len()),
                false,
            ),
    ;
}

/// Writes bits to a buffer of bytes, most significant bit first.
///
/// Whole bytes go to the buffer as soon as they are complete. The bits of
/// the last, partial byte are kept outside it: giving up the writer
/// without `byte_align` loses them unless `into_unwritten` collects them.
pub struct BitWriterBE {
    writer: Vec<u8>,
    bitqueue: BitQueue<BigEndian>,
}

impl BitWriterBE {
    /// The bytes that have gone to the buffer.
    pub closed spec fn flushed(&self) -> Seq<u8> {
        self.writer@
    }

    /// A well-formed writer keeps fewer than eight bits outside the
    /// buffer, so their number is the number of bits written modulo eight.
    pub proof fn lemma_unwritten(&self)
        requires
            self.wf(),
        ensures
            self.unwritten().len() < 8,
            self.unwritten().len() == self.written().len() % 8,
            self.written().len() == 8 * self.flushed().len() + self.unwritten().len(),
    {
        lemma_stream_bits_len(true, self.writer@);
    }

    /// A writer that appends to the bytes of `writer`.
    pub fn new(writer: Vec<u8>) -> (r: Self)
        ensures
            r.wf(),
            r.flushed() == writer@,
            r.unwritten() == Seq::<bool>::empty(),
            r.written() == stream_bits(true, writer@),
    {
        let r = BitWriterBE { writer, bitqueue: BitQueue::new(8) };
        assert(r.written() =~= stream_bits(true, r.writer@));
        r
    }

    /// Writes one bit. Never fails.
    pub fn write_bit(&mut self, bit: bool) -> (r: Result<(), StreamError>)
        requires
            old(self).wf(),
        ensures
            final(self).wf(),
            r is Ok,
            final(self).written() == old(self).written().push(bit),
    {
        let field: u64 = if bit { 1 } else { 0 };
        proof {
            lemma2_to64();
            let one = nat_to_bits(true, 1, field as nat);
            lemma_nat_to_bits_len(true, 1, field as nat);
            lemma_nat_round_trip_exact(true, 1, field as nat);
            crate::bits::lemma_single_bit(true, one);
            assert(self.written() + one =~= self.written().push(bit));
        }
        write_field(&mut self.writer, &mut self.bitqueue, 1, field);
        Ok(())
    }

    /// Writes the code of `symbol`, which the table must hold. Never
    /// fails.
    pub fn write_huffman<T: Ord + Copy>(&mut self, tree: &WriteHuffmanTree<T>, symbol: T) -> (r:
        Result<(), StreamError>)
        requires
            old(self).wf(),
            ordered::<T>(),
            tree.wf(),
            tree.codes().contains_key(symbol),
        ensures
            final(self).wf(),
            r is Ok,
            final(self).written() == old(self).written() + tree.codes()[symbol],
    {
        let (bits, value) = tree.get_be(symbol);
        proof {
            lemma_bits_to_nat_bound(true, tree.codes()[symbol]);
            lemma_bits_round_trip(true, tree.codes()[symbol]);
        }
        write_field(&mut self.writer, &mut self.bitqueue, bits, value);
        Ok(())
    }

    /// Gives up the writer and returns the bits that have not gone to the
    /// buffer: how many, and the number they spell.
    pub fn into_unwritten(self) -> (r: (u32, u8))
        requires
            self.wf(),
        ensures
            r.0 == self.unwritten().len(),
            r.1 == bits_to_nat(true, self.unwritten()),
    {
        proof {
            lemma2_to64();
            lemma_bits_to_nat_bound(true, self.bitqueue@);
            lemma_pow2_strictly_increases(self.bitqueue@.len(), 8);
        }
        (self.bitqueue.len(), self.bitqueue.value() as u8)
    }

    /// Gives up the writer and returns the buffer. The bits of the last,
    /// partial byte are not in it.
    pub fn into_bytes(self) -> (r: Vec<u8>)
        ensures
            r@ == self.flushed(),
    {
        self.writer
    }

    /// Takes out the bytes that have gone to the buffer and leaves the
    /// buffer empty. The bits of the last, partial byte stay with the
    /// writer.
    pub fn take_bytes(&mut self) -> (r: Vec<u8>)
        requires
            old(self).wf(),
        ensures
            final(self).wf(),
            r@ == old(self).flushed(),
            final(self).flushed() == Seq::<u8>::empty(),
            final(self).unwritten() == old(self).unwritten(),
    {
        let mut taken: Vec<u8> = Vec::new();
        core::mem::swap(&mut taken, &mut self.writer);
        taken
    }
}

impl BitWrite for BitWriterBE {
    open spec fn msb_first() -> bool {
        true
    }

    closed spec fn wf(&self) -> bool {
        &&& self.bitqueue.wf()
        &&& self.bitqueue.limit() == 8
        &&& self.bitqueue@.len() < 8
    }

    open spec fn written(&self) -> Seq<bool> {
        stream_bits(true, self.flushed()) + self.unwritten()
    }

    closed spec fn unwritten(&self) -> Seq<bool> {
        self.bitqueue@
    }

    fn write<U: Numeric>(&mut self, bits: u32, value: U) -> (r: Result<(), StreamError>) {
        write_value(&mut self.writer, &mut self.bitqueue, bits, value)
    }

    fn write_signed<S: SignedNumeric>(&mut self, bits: u32, value: S) -> (r: Result<
        (),
        StreamError,
    >) {
        write_signed_value(&mut self.writer, &mut self.bitqueue, bits, value)
    }

    fn write_bytes(&mut self, buf: &[u8]) -> (r: Result<(), StreamError>) {
        write_all(&mut self.writer, &mut self.bitqueue, buf);
        Ok(())
    }

    fn write_unary0(&mut self, value: u32) -> (r: Result<(), StreamError>) {
        write_run(&mut self.writer, &mut self.bitqueue, value, true);
        Ok(())
    }

    fn write_unary1(&mut self, value: u32) -> (r: Result<(), StreamError>) {
        write_run(&mut self.writer, &mut self.bitqueue, value, false);
        Ok(())
    }

    fn byte_aligned(&self) -> (r: bool) {
        self.bitqueue.is_empty()
    }

    fn byte_align(&mut self) -> (r: Result<(), StreamError>) {
        align(&mut self.writer, &mut self.bitqueue);
        Ok(())
    }
}

/// Writes bits to a buffer of bytes, least significant bit first.
///
/// Whole bytes go to the buffer as soon as they are complete. The bits of
/// the last, partial byte are kept outside it: giving up the writer
/// without `byte_align` loses them unless `into_unwritten` collects them.
pub struct BitWriterLE {
    writer: Vec<u8>,
    bitqueue: BitQueue<LittleEndian>,
}

impl BitWriterLE {
    /// The bytes that have gone to the buffer.
    pub closed spec fn flushed(&self) -> Seq<u8> {
        self.writer@
    }

    /// A well-formed writer keeps fewer than eight bits outside the
    /// buffer, so their number is the number of bits written modulo eight.
    pub proof fn lemma_unwritten(&self)
        requires
            self.wf(),
        ensures
            self.unwritten().len() < 8,
            self.unwritten().len() == self.written().len() % 8,
            self.written().len() == 8 * self.flushed().len() + self.unwritten().len(),
    {
        lemma_stream_bits_len(false, self.writer@);
    }

    /// A writer that appends to the bytes of `writer`.
    pub fn new(writer: Vec<u8>) -> (r: Self)
        ensures
            r.wf(),
            r.flushed() == writer@,
            r.unwritten() == Seq::<bool>::empty(),
            r.written() == stream_bits(false, writer@),
    {
        let r = BitWriterLE { writer, bitqueue: BitQueue::new(8) };
        assert(r.written() =~= stream_bits(false, r.writer@));
        r
    }

    /// Writes one bit. Never fails.
    pub fn write_bit(&mut self, bit: bool) -> (r: Result<(), StreamError>)
        requires
            old(self).wf(),
        ensures
            final(self).wf(),
            r is Ok,
            final(self).written() == old(self).written().push(bit),
    {
        let field: u64 = if bit { 1 } else { 0 };
        proof {
            lemma2_to64();
            let one = nat_to_bits(false, 1, field as nat);
            lemma_nat_to_bits_len(false, 1, field as nat);
            lemma_nat_round_trip_exact(false, 1, field as nat);
            crate::bits::lemma_single_bit(false, one);
            assert(self.written() + one =~= self.written().push(bit));
        }
        write_field(&mut self.writer, &mut self.bitqueue, 1, field);
        Ok(())
    }

    /// Writes the code of `symbol`, which the table must hold. Never
    /// fails.
    pub fn write_huffman<T: Ord + Copy>(&mut self, tree: &WriteHuffmanTree<T>, symbol: T) -> (r:
        Result<(), StreamError>)
        requires
            old(self).wf(),
            ordered::<T>(),
            tree.wf(),
            tree.codes().contains_key(symbol),
        ensures
            final(self).wf(),
            r is Ok,
            final(self).written() == old(self).written() + tree.codes()[symbol],
    {
        let (bits, value) = tree.get_le(symbol);
        proof {
            lemma_bits_to_nat_bound(false, tree.codes()[symbol]);
            lemma_bits_round_trip(false, tree.codes()[symbol]);
        }
        write_field(&mut self.writer, &mut self.bitqueue, bits, value);
        Ok(())
    }

    /// Gives up the writer and returns the bits that have not gone to the
    /// buffer: how many, and the number they spell.
    pub fn into_unwritten(self) -> (r: (u32, u8))
        requires
            self.wf(),
        ensures
            r.0 == self.unwritten().len(),
            r.1 == bits_to_nat(false, self.unwritten()),
    {
        proof {
            lemma2_to64();
            lemma_bits_to_nat_bound(false, self.bitqueue@);
            lemma_pow2_strictly_increases(self.bitqueue@.len(), 8);
        }
        (self.bitqueue.len(), self.bitqueue.value() as u8)
    }

    /// Gives up the writer and returns the buffer. The bits of the last,
    /// partial byte are not in it.
    pub fn into_bytes(self) -> (r: Vec<u8>)
        ensures
            r@ == self.flushed(),
    {
        self.writer
    }

    /// Takes out the bytes that have gone to the buffer and leaves the
    /// buffer empty. The bits of the last, partial byte stay with the
    /// writer.
    pub fn take_bytes(&mut self) -> (r: Vec<u8>)
        requires
            old(self).wf(),
        ensures
            final(self).wf(),
            r@ == old(self).flushed(),
            final(self).flushed() == Seq::<u8>::empty(),
            final(self).unwritten() == old(self).unwritten(),
    {
        let mut taken: Vec<u8> = Vec::new();
        core::mem::swap(&mut taken, &mut self.writer);
        taken
    }
}

impl BitWrite for BitWriterLE {
    open spec fn msb_first() -> bool {
        false
    }

    closed spec fn wf(&self) -> bool {
        &&& self.bitqueue.wf()
        &&& self.bitqueue.limit() == 8
        &&& self.bitqueue@.len() < 8
    }

    open spec fn written(&self) -> Seq<bool> {
        stream_bits(false, self.flushed()) + self.unwritten()
    }

    closed spec fn unwritten(&self) -> Seq<bool> {
        self.bitqueue@
    }

    fn write<U: Numeric>(&mut self, bits: u32, value: U) -> (r: Result<(), StreamError>) {
        write_value(&mut self.writer, &mut self.bitqueue, bits, value)
    }

    fn write_signed<S: SignedNumeric>(&mut self, bits: u32, value: S) -> (r: Result<
        (),
        StreamError,
    >) {
        write_signed_value(&mut self.writer, &mut self.bitqueue, bits, value)
    }

    fn write_bytes(&mut self, buf: &[u8]) -> (r: Result<(), StreamError>) {
        write_all(&mut self.writer, &mut self.bitqueue, buf);
        Ok(())
    }

    fn write_unary0(&mut self, value: u32) -> (r: Result<(), StreamError>) {
        write_run(&mut self.writer, &mut self.bitqueue, value, true);
        Ok(())
    }

    fn write_unary1(&mut self, value: u32) -> (r: Result<(), StreamError>) {
        write_run(&mut self.writer, &mut self.bitqueue, value, false);
        Ok(())
    }

    fn byte_aligned(&self) -> (r: bool) {
        self.bitqueue.is_empty()
    }

    fn byte_align(&mut self) -> (r: Result<(), StreamError>) {
        align(&mut self.writer, &mut self.bitqueue);
        Ok(())
    }
}

} // verus!
