//! Reading bits, fields, unary run lengths and Huffman-coded symbols from
//! a buffer of bytes, in either bit order.

use vstd::prelude::*;
use vstd::arithmetic::power2::{pow2, lemma_pow2_strictly_increases, lemma2_to64};
use vstd::arithmetic::div_mod::lemma_small_mod;
use crate::bits::{
    bits_to_nat, nat_to_bits, stream_bits, run, leading_run, leading_bytes, filled_byte,
    lemma_bits_to_nat_bound, lemma_bits_round_trip, lemma_nat_to_bits_len, lemma_single_bit,
    lemma_stream_bits_len, lemma_stream_bits_split, lemma_stream_bits_first,
    lemma_stream_bits_push, lemma_leading_run_front, lemma_leading_run_prepend,
    lemma_leading_bytes_is, lemma_leading_bytes_at_least, lemma_leading_run_stream,
};
use crate::error::StreamError;
use crate::huffman::{
    CompiledReadTree, Transition, Walk, entry_matches, lemma_walk_concat, lemma_walk_found,
    lemma_walk_open, lemma_table_entry,
};
use crate::numeric::{Numeric, SignedNumeric, signed_value, from_sign_magnitude, lemma_signed_field};
use crate::order::{Endianness, LittleEndian};
use crate::write::{BitWrite, BitWriterLE};
use crate::queue::BitQueue;

verus! {

/// A buffer of bytes that is consumed from its front.
pub struct ByteSource {
    bytes: Vec<u8>,
    pos: usize,
}

impl ByteSource {
    /// The source's invariant: its position lies within the buffer.
    pub closed spec fn wf(&self) -> bool {
        self.pos <= self.bytes.len()
    }

    /// The bytes not consumed yet.
    pub closed spec fn remaining(&self) -> Seq<u8> {
        self.bytes@.skip(self.pos as int)
    }

    /// A source that will hand out `bytes` from the first one on.
    pub fn new(bytes: Vec<u8>) -> (r: Self)
        ensures
            r.wf(),
            r.remaining() == bytes@,
    {
        assert(bytes@.skip(0) =~= bytes@);
        ByteSource { bytes, pos: 0 }
    }

    /// How many bytes are left.
    pub fn len(&self) -> (r: usize)
        requires
            self.wf(),
        ensures
            r == self.remaining().len(),
    {
        self.bytes.len() - self.pos
    }

    /// Consumes the next `n` bytes.
    fn advance(&mut self, n: usize)
        requires
            old(self).wf(),
            n <= old(self).remaining().len(),
        ensures
            final(self).wf(),
            final(self).remaining() == old(self).remaining().skip(n as int),
    {
        assert(self.bytes@.skip(self.pos + n) =~= self.bytes@.skip(self.pos as int).skip(n as int));
        self.pos = self.pos + n;
    }

    /// Consumes all the bytes that are left.
    fn exhaust(&mut self)
        requires
            old(self).wf(),
        ensures
            final(self).wf(),
            final(self).remaining() == Seq::<u8>::empty(),
    {
        self.pos = self.bytes.len();
        assert(self.bytes@.skip(self.pos as int) =~= Seq::<u8>::empty());
    }

    /// Fills `buf` with the next bytes. If the source holds too few, it is
    /// exhausted.
    fn read_exact(&mut self, buf: &mut [u8]) -> (r: Result<(), StreamError>)
        requires
            old(self).wf(),
        ensures
            final(self).wf(),
            final(buf)@.len() == old(buf)@.len(),
            match r {
                Ok(()) => {
                    &&& old(buf)@.len() <= old(self).remaining().len()
                    &&& final(buf)@ == old(self).remaining().take(old(buf)@.len() as int)
                    &&& final(self).remaining() == old(self).remaining().skip(
                        old(buf)@.len() as int,
                    )
                },
                Err(e) => {
                    &&& e == StreamError::UnexpectedEof
                    &&& old(buf)@.len() > old(self).remaining().len()
                    &&& final(self).remaining() == Seq::<u8>::empty()
                },
            },
    {
        let n: usize = buf.len();
        if self.len() < n {
            self.exhaust();
            return Err(StreamError::UnexpectedEof);
        }
        let mut i: usize = 0;
        while i < n
            invariant
                self.wf(),
                *self == *old(self),
                n == buf@.len() == old(buf)@.len(),
                n <= self.remaining().len(),
                i <= n,
                forall|j: int| 0 <= j < i ==> buf@[j] == self.remaining()[j],
            decreases n - i,
        {
            buf[i] = self.peek(i);
            i = i + 1;
        }
        assert(buf@ =~= self.remaining().take(n as int));
        self.advance(n);
        Ok(())
    }

    /// Puts `bytes` behind the bytes that are left. Where none is left, the
    /// bytes consumed before are let go of first.
    fn extend(&mut self, bytes: &[u8])
        requires
            old(self).wf(),
        ensures
            final(self).wf(),
            final(self).remaining() == old(self).remaining() + bytes@,
    {
        if self.pos == self.bytes.len() {
            self.bytes.clear();
            self.pos = 0;
        }
        let ghost held = self.bytes@;
        let ghost at = self.pos;
        let mut i: usize = 0;
        proof {
            assert(held.skip(at as int) =~= old(self).remaining());
            assert(held + bytes@.take(0) =~= held);
        }
        while i < bytes.len()
            invariant
                i <= bytes@.len(),
                self.pos == at,
                self.pos <= held.len(),
                self.bytes@ == held + bytes@.take(i as int),
            decreases bytes@.len() - i,
        {
            proof {
                assert(bytes@.take(i + 1) =~= bytes@.take(i as int).push(bytes@[i as int]));
                assert(held + bytes@.take(i + 1) =~= (held + bytes@.take(i as int)).push(
                    bytes@[i as int],
                ));
            }
            self.bytes.push(bytes[i]);
            i = i + 1;
        }
        proof {
            assert(bytes@.take(bytes@.len() as int) =~= bytes@);
            assert((held + bytes@).skip(self.pos as int) =~= held.skip(self.pos as int) + bytes@);
        }
    }

    /// A copy of the bytes that are left.
    fn to_vec(&self) -> (r: Vec<u8>)
        requires
            self.wf(),
        ensures
            r@ == self.remaining(),
    {
        let n: usize = self.len();
        let mut out: Vec<u8> = Vec::new();
        let mut i: usize = 0;
        while i < n
            invariant
                self.wf(),
                n == self.remaining().len(),
                i <= n,
                out@ == self.remaining().take(i as int),
            decreases n - i,
        {
            proof {
                assert(self.remaining().take(i + 1) =~= self.remaining().take(i as int).push(
                    self.remaining()[i as int],
                ));
            }
            out.push(self.peek(i));
            i = i + 1;
        }
        proof {
            assert(self.remaining().take(n as int) =~= self.remaining());
        }
        out
    }

    /// The byte `i` places behind the next one.
    fn peek(&self, i: usize) -> (r: u8)
        requires
            self.wf(),
            i < self.remaining().len(),
        ensures
            r == self.remaining()[i as int],
    {
        self.bytes[self.pos + i]
    }
}

/// Takes the next byte from the source.
fn read_byte(reader: &mut ByteSource) -> (r: Result<u8, StreamError>)
    requires
        old(reader).wf(),
    ensures
        final(reader).wf(),
        match r {
            Ok(byte) => {
                &&& old(reader).remaining().len() > 0
                &&& byte == old(reader).remaining()[0]
                &&& final(reader).remaining() == old(reader).remaining().skip(1)
            },
            Err(e) => {
                &&& e == StreamError::UnexpectedEof
                &&& old(reader).remaining().len() == 0
                &&& final(reader).remaining() == old(reader).remaining()
            },
        },
{
    if reader.len() > 0 {
        let byte: u8 = reader.peek(0);
        reader.advance(1);
        Ok(byte)
    } else {
        Err(StreamError::UnexpectedEof)
    }
}

/// Moves the next `bytes` whole bytes from the source to the back of
/// `acc`. If the source holds fewer, it is exhausted and `acc` is left as
/// it was.
fn read_aligned<E: Endianness>(reader: &mut ByteSource, bytes: u32, acc: &mut BitQueue<E>) -> (r:
    Result<(), StreamError>)
    requires
        old(reader).wf(),
        old(acc).wf(),
        old(acc)@.len() + 8 * bytes <= old(acc).limit(),
    ensures
        final(reader).wf(),
        final(acc).wf(),
        final(acc).limit() == old(acc).limit(),
        match r {
            Ok(()) => {
                &&& bytes <= old(reader).remaining().len()
                &&& final(reader).remaining() == old(reader).remaining().skip(bytes as int)
                &&& final(acc)@ == old(acc)@ + stream_bits(
                    E::msb_first(),
                    old(reader).remaining(),
                ).take(8 * bytes)
            },
            Err(e) => {
                &&& e == StreamError::UnexpectedEof
                &&& bytes > old(reader).remaining().len()
                &&& final(reader).remaining() == Seq::<u8>::empty()
                &&& final(acc)@ == old(acc)@
            },
        },
{
    if reader.len() < bytes as usize {
        reader.exhaust();
        return Err(StreamError::UnexpectedEof);
    }
    let ghost source = reader.remaining();
    let ghost all = stream_bits(E::msb_first(), source);
    let mut i: u32 = 0;
    proof {
        assert(source.skip(0) =~= source);
        assert(old(acc)@ + all.take(0) =~= old(acc)@);
    }
    while i < bytes
        invariant
            reader.wf(),
            acc.wf(),
            acc.limit() == old(acc).limit(),
            old(acc)@.len() + 8 * bytes <= old(acc).limit(),
            source == old(reader).remaining(),
            all == stream_bits(E::msb_first(), source),
            i <= bytes <= source.len(),
            reader.remaining() == source.skip(i as int),
            acc@ == old(acc)@ + all.take(8 * i),
        decreases bytes - i,
    {
        let byte: u8 = reader.peek(0);
        reader.advance(1);
        proof {
            lemma2_to64();
            lemma_stream_bits_len(E::msb_first(), source);
            lemma_stream_bits_split(E::msb_first(), source, i as nat);
            lemma_stream_bits_first(E::msb_first(), source.skip(i as int));
            lemma_nat_to_bits_len(E::msb_first(), 8, byte as nat);
            assert(source.skip(i as int).skip(1) =~= source.skip(i + 1));
            let one = nat_to_bits(E::msb_first(), 8, byte as nat);
            assert(all.skip(8 * i).take(8) =~= one);
            assert(all.take(8 * i) + one =~= all.take(8 * (i + 1)));
            assert(old(acc)@ + all.take(8 * (i + 1)) =~= (old(acc)@ + all.take(8 * i)) + one);
        }
        acc.push(8, byte as u64);
        i = i + 1;
    }
    Ok(())
}

/// Consumes the next `bytes` whole bytes of the source. If the source
/// holds fewer, it is exhausted.
fn skip_aligned(reader: &mut ByteSource, bytes: u32) -> (r: Result<(), StreamError>)
    requires
        old(reader).wf(),
    ensures
        final(reader).wf(),
        match r {
            Ok(()) => {
                &&& bytes <= old(reader).remaining().len()
                &&& final(reader).remaining() == old(reader).remaining().skip(bytes as int)
            },
            Err(e) => {
                &&& e == StreamError::UnexpectedEof
                &&& bytes > old(reader).remaining().len()
                &&& final(reader).remaining() == Seq::<u8>::empty()
            },
        },
{
    if reader.len() < bytes as usize {
        reader.exhaust();
        Err(StreamError::UnexpectedEof)
    } else {
        reader.advance(bytes as usize);
        Ok(())
    }
}

/// Moves the next `bits` bits, fewer than a byte's worth, to the back of
/// `acc`: takes one byte from the source and leaves in `rem` the bits of
/// it that were not asked for. Does nothing for `bits == 0`.
fn read_unaligned<E: Endianness>(
    reader: &mut ByteSource,
    bits: u32,
    acc: &mut BitQueue<E>,
    rem: &mut BitQueue<E>,
) -> (r: Result<(), StreamError>)
    requires
        old(reader).wf(),
        old(acc).wf(),
        old(rem).wf(),
        old(rem).limit() == 8,
        old(rem)@.len() == 0,
        bits <= 8,
        old(acc)@.len() + bits <= old(acc).limit(),
    ensures
        final(reader).wf(),
        final(acc).wf(),
        final(rem).wf(),
        final(acc).limit() == old(acc).limit(),
        final(rem).limit() == 8,
        match r {
            Ok(()) => {
                &&& bits <= 8 * old(reader).remaining().len()
                &&& final(acc)@ == old(acc)@ + stream_bits(
                    E::msb_first(),
                    old(reader).remaining(),
                ).take(bits as int)
                &&& final(rem)@ + stream_bits(E::msb_first(), final(reader).remaining())
                    == stream_bits(E::msb_first(), old(reader).remaining()).skip(bits as int)
                &&& final(rem)@.len() == (if bits == 0 { 0 } else { 8 - bits })
            },
            Err(e) => {
                &&& e == StreamError::UnexpectedEof
                &&& bits > 0
                &&& old(reader).remaining().len() == 0
                &&& final(reader).remaining() == Seq::<u8>::empty()
                &&& final(acc)@ == old(acc)@
                &&& final(rem)@ == old(rem)@
            },
        },
{
    let ghost source = reader.remaining();
    let ghost all = stream_bits(E::msb_first(), source);
    if bits > 0 {
        let byte: u8 = read_byte(reader)?;
        proof {
            lemma2_to64();
            lemma_stream_bits_first(E::msb_first(), source);
            lemma_nat_to_bits_len(E::msb_first(), 8, byte as nat);
        }
        rem.set(byte as u64, 8);
        let field: u64 = rem.pop(bits);
        proof {
            let one = nat_to_bits(E::msb_first(), 8, byte as nat);
            let rest = stream_bits(E::msb_first(), source.skip(1));
            lemma_bits_round_trip(E::msb_first(), one.take(bits as int));
            assert(all.take(bits as int) =~= one.take(bits as int));
            assert(one.skip(bits as int) + rest =~= all.skip(bits as int));
        }
        acc.push(bits, field);
        Ok(())
    } else {
        proof {
            assert(old(acc)@ + all.take(0) =~= old(acc)@);
            assert(rem@ + all =~= all.skip(0));
        }
        Ok(())
    }
}

/// Consumes the next `bits` bits, fewer than a byte's worth: takes one
/// byte from the source and leaves in `rem` the bits of it that were not
/// asked for. Does nothing for `bits == 0`.
fn skip_unaligned<E: Endianness>(reader: &mut ByteSource, bits: u32, rem: &mut BitQueue<E>) -> (r:
    Result<(), StreamError>)
    requires
        old(reader).wf(),
        old(rem).wf(),
        old(rem).limit() == 8,
        bits > 0 ==> old(rem)@.len() == 0,
        bits <= 8,
    ensures
        final(reader).wf(),
        final(rem).wf(),
        final(rem).limit() == 8,
        match r {
            Ok(()) => {
                &&& bits <= 8 * old(reader).remaining().len()
                &&& final(rem)@ + stream_bits(E::msb_first(), final(reader).remaining()) == (old(
                    rem,
                )@ + stream_bits(E::msb_first(), old(reader).remaining())).skip(bits as int)
                &&& final(rem)@.len() == (if bits == 0 { old(rem)@.len() as int } else { 8 - bits })
            },
            Err(e) => {
                &&& e == StreamError::UnexpectedEof
                &&& bits > 0
                &&& old(reader).remaining().len() == 0
                &&& final(reader).remaining() == Seq::<u8>::empty()
                &&& final(rem)@ == old(rem)@
            },
        },
{
    let ghost source = reader.remaining();
    let ghost all = stream_bits(E::msb_first(), source);
    if bits > 0 {
        let byte: u8 = read_byte(reader)?;
        proof {
            lemma2_to64();
            lemma_stream_bits_first(E::msb_first(), source);
            lemma_nat_to_bits_len(E::msb_first(), 8, byte as nat);
        }
        rem.set(byte as u64, 8);
        let _ = rem.pop(bits);
        proof {
            let one = nat_to_bits(E::msb_first(), 8, byte as nat);
            let rest = stream_bits(E::msb_first(), source.skip(1));
            assert(old(rem)@ + all =~= all);
            assert(one.skip(bits as int) + rest =~= all.skip(bits as int));
        }
    } else {
        proof {
            assert(rem@ + all =~= (rem@ + all).skip(0));
        }
    }
    Ok(())
}

/// Consumes the leading bytes of the source that equal `continue_val`,
/// eight bits each, and the byte behind them, which it leaves in `rem`.
/// Returns the number of bits in the bytes that equal `continue_val`.
fn read_aligned_unary<E: Endianness>(
    reader: &mut ByteSource,
    continue_val: u8,
    rem: &mut BitQueue<E>,
) -> (r: Result<u32, StreamError>)
    requires
        old(reader).wf(),
        old(rem).wf(),
        old(rem).limit() == 8,
        8 * leading_bytes(old(reader).remaining(), continue_val) <= u32::MAX,
    ensures
        final(reader).wf(),
        final(rem).wf(),
        final(rem).limit() == 8,
        match r {
            Ok(acc) => {
                let k = leading_bytes(old(reader).remaining(), continue_val);
                &&& k < old(reader).remaining().len()
                &&& acc == 8 * k
                &&& final(rem)@ == nat_to_bits(
                    E::msb_first(),
                    8,
                    old(reader).remaining()[k as int] as nat,
                )
                &&& final(reader).remaining() == old(reader).remaining().skip(k + 1 as int)
            },
            Err(e) => {
                &&& e == StreamError::UnexpectedEof
                &&& leading_bytes(old(reader).remaining(), continue_val) == old(
                    reader,
                ).remaining().len()
                &&& final(reader).remaining() == Seq::<u8>::empty()
                &&& final(rem)@ == old(rem)@
            },
        },
{
    let ghost source = reader.remaining();
    let mut acc: u32 = 0;
    let ghost mut seen: nat = 0;
    proof {
        assert(source.skip(0) =~= source);
    }
    loop
        invariant
            reader.wf(),
            rem.wf(),
            rem.limit() == 8,
            rem@ == old(rem)@,
            source == old(reader).remaining(),
            8 * leading_bytes(source, continue_val) <= u32::MAX,
            seen <= source.len(),
            acc == 8 * seen,
            reader.remaining() == source.skip(seen as int),
            forall|i: int| 0 <= i < seen ==> source[i] == continue_val,
        decreases source.len() - seen,
    {
        match read_byte(reader) {
            Err(e) => {
                proof {
                    lemma_leading_bytes_is(source, continue_val, seen);
                }
                return Err(e);
            },
            Ok(byte) => {
                proof {
                    assert(source.skip(seen as int).skip(1) =~= source.skip(seen + 1 as int));
                }
                if byte != continue_val {
                    proof {
                        lemma2_to64();
                        lemma_leading_bytes_is(source, continue_val, seen);
                    }
                    rem.set(byte as u64, 8);
                    return Ok(acc);
                }
                proof {
                    seen = seen + 1;
                    lemma_leading_bytes_at_least(source, continue_val, seen);
                }
                acc = acc + 8;
            },
        }
    }
}

/// Reads bits from a buffer of bytes in the bit order `E`.
///
/// The reader takes from the buffer exactly as many whole bytes as the
/// bits asked for need, and keeps the bits of the last byte that were not
/// asked for yet: fewer than eight.
pub struct BitReader<E: Endianness> {
    reader: ByteSource,
    bitqueue: BitQueue<E>,
}

impl<E: Endianness> BitReader<E> {
    /// The reader's invariant.
    pub closed spec fn wf(&self) -> bool {
        &&& self.reader.wf()
        &&& self.bitqueue.wf()
        &&& self.bitqueue.limit() == 8
        &&& self.bitqueue@.len() < 8
    }

    /// The bits taken from the buffer and not read yet, the next one first.
    pub closed spec fn residual(&self) -> Seq<bool> {
        self.bitqueue@
    }

    /// The bytes still in the buffer.
    pub closed spec fn source(&self) -> Seq<u8> {
        self.reader.remaining()
    }

    /// All the bits still to be read, the next one first.
    pub open spec fn unread(&self) -> Seq<bool> {
        self.residual() + stream_bits(E::msb_first(), self.source())
    }

    /// A well-formed reader keeps fewer than eight bits outside the
    /// buffer, so the length of its residue is the number of unread bits
    /// modulo eight.
    pub proof fn lemma_residual(&self)
        requires
            self.wf(),
        ensures
            self.residual().len() < 8,
            self.residual().len() == self.unread().len() % 8,
            self.unread().len() == self.residual().len() + 8 * self.source().len(),
    {
        lemma_stream_bits_len(E::msb_first(), self.source());
    }

    /// A reader over `bytes`, positioned before their first bit.
    pub fn new(bytes: Vec<u8>) -> (r: Self)
        ensures
            r.wf(),
            r.residual() == Seq::<bool>::empty(),
            r.source() == bytes@,
            r.unread() == stream_bits(E::msb_first(), bytes@),
            r.unread().len() == 8 * bytes@.len(),
    {
        let r = BitReader { reader: ByteSource::new(bytes), bitqueue: BitQueue::new(8) };
        proof {
            lemma_stream_bits_len(E::msb_first(), bytes@);
        }
        assert(r.unread() =~= stream_bits(E::msb_first(), bytes@));
        r
    }

    /// Reads the next bit.
    pub fn read_bit(&mut self) -> (r: Result<bool, StreamError>)
        requires
            old(self).wf(),
        ensures
            final(self).wf(),
            match r {
                Ok(bit) => {
                    &&& old(self).unread().len() > 0
                    &&& bit == old(self).unread()[0]
                    &&& final(self).unread() == old(self).unread().skip(1)
                },
                Err(e) => {
                    &&& e == StreamError::UnexpectedEof
                    &&& old(self).unread().len() == 0
                    &&& final(self).unread() == old(self).unread()
                },
            },
    {
        let ghost before = self.unread();
        proof {
            self.lemma_residual();
        }
        if self.bitqueue.is_empty() {
            let ghost source = self.reader.remaining();
            let byte: u8 = read_byte(&mut self.reader)?;
            proof {
                lemma2_to64();
                lemma_stream_bits_first(E::msb_first(), source);
                lemma_nat_to_bits_len(E::msb_first(), 8, byte as nat);
            }
            self.bitqueue.set(byte as u64, 8);
            assert(self.bitqueue@ + stream_bits(E::msb_first(), self.reader.remaining())
                =~= before);
        }
        let ghost queued = self.bitqueue@;
        let field: u64 = self.bitqueue.pop(1);
        proof {
            lemma_single_bit(E::msb_first(), queued.take(1));
            assert(queued.take(1)[0] == before[0]);
            assert(self.unread() =~= before.skip(1));
        }
        Ok(field == 1)
    }

    /// Reads the next `bits` bits as one field and returns the number they
    /// spell, as a value of type `U`.
    ///
    /// Fails with `InvalidInput`, reading nothing, if `U` has fewer than
    /// `bits` bits. Fails with `UnexpectedEof` if fewer than `bits` bits
    /// are left; the reader is then exhausted.
    pub fn read<U: Numeric>(&mut self, bits: u32) -> (r: Result<U, StreamError>)
        requires
            old(self).wf(),
        ensures
            final(self).wf(),
            match r {
                Ok(value) => {
                    &&& bits <= U::width()
                    &&& bits <= old(self).unread().len()
                    &&& value.pattern() == bits_to_nat(
                        E::msb_first(),
                        old(self).unread().take(bits as int),
                    )
                    &&& final(self).unread() == old(self).unread().skip(bits as int)
                },
                Err(StreamError::InvalidInput) => {
                    &&& bits > U::width()
                    &&& *final(self) == *old(self)
                },
                Err(StreamError::UnexpectedEof) => {
                    &&& bits <= U::width()
                    &&& bits > old(self).unread().len()
                    &&& final(self).unread() == Seq::<bool>::empty()
                },
            },
    {
        if bits > U::bits_size() {
            return Err(StreamError::InvalidInput);
        }
        proof {
            U::lemma_width();
        }
        let raw: u64 = self.read_field(bits, U::bits_size())?;
        proof {
            if bits < U::width() {
                lemma_pow2_strictly_increases(bits as nat, U::width());
            }
            lemma_small_mod(raw as nat, pow2(U::width()));
        }
        Ok(U::from_u64(raw))
    }

    /// Reads the next `bits` bits as one field, through an accumulator of
    /// `capacity` bits.
    fn read_field(&mut self, bits: u32, capacity: u32) -> (r: Result<u64, StreamError>)
        requires
            old(self).wf(),
            bits <= capacity <= 64,
        ensures
            final(self).wf(),
            match r {
                Ok(raw) => {
                    &&& bits <= old(self).unread().len()
                    &&& raw == bits_to_nat(E::msb_first(), old(self).unread().take(bits as int))
                    &&& raw < pow2(bits as nat)
                    &&& final(self).unread() == old(self).unread().skip(bits as int)
                },
                Err(e) => {
                    &&& e == StreamError::UnexpectedEof
                    &&& bits > old(self).unread().len()
                    &&& final(self).unread() == Seq::<bool>::empty()
                },
            },
    {
        let ghost before = self.unread();
        let ghost queued = self.bitqueue@;
        let ghost stream = stream_bits(E::msb_first(), self.reader.remaining());
        proof {
            self.lemma_residual();
        }
        let bitqueue_len: u32 = self.bitqueue.len();
        if bits <= bitqueue_len {
            let raw: u64 = self.bitqueue.pop(bits);
            proof {
                assert(queued.take(bits as int) =~= before.take(bits as int));
                assert(self.unread() =~= before.skip(bits as int));
            }
            Ok(raw)
        } else {
            let head: u64 = self.bitqueue.pop(bitqueue_len);
            proof {
                assert(queued.take(bitqueue_len as int) =~= queued);
                lemma_bits_round_trip(E::msb_first(), queued);
            }
            let mut acc: BitQueue<E> = BitQueue::from_value(head, bitqueue_len, capacity);
            let rest: u32 = bits - bitqueue_len;
            match read_aligned(&mut self.reader, rest / 8, &mut acc) {
                Ok(()) => {},
                Err(e) => {
                    proof {
                        assert(self.unread() =~= Seq::<bool>::empty());
                    }
                    return Err(e);
                },
            }
            let ghost middle = self.reader.remaining();
            proof {
                lemma_stream_bits_split(
                    E::msb_first(),
                    old(self).reader.remaining(),
                    (rest / 8) as nat,
                );
                lemma_stream_bits_len(E::msb_first(), middle);
            }
            match read_unaligned(&mut self.reader, rest % 8, &mut acc, &mut self.bitqueue) {
                Ok(()) => {},
                Err(e) => {
                    proof {
                        assert(self.unread() =~= Seq::<bool>::empty());
                    }
                    return Err(e);
                },
            }
            proof {
                let whole: int = 8 * (rest / 8);
                let part: int = (rest % 8) as int;
                assert(stream.skip(whole).take(part) =~= stream.subrange(whole, whole + part));
                assert(acc@ =~= before.take(bits as int));
                assert(self.unread() =~= before.skip(bits as int));
                lemma_bits_to_nat_bound(E::msb_first(), acc@);
            }
            Ok(acc.value())
        }
    }

    /// Skips the next `bits` bits.
    ///
    /// Fails with `UnexpectedEof` if fewer than `bits` bits are left; the
    /// reader is then exhausted.
    pub fn skip(&mut self, bits: u32) -> (r: Result<(), StreamError>)
        requires
            old(self).wf(),
        ensures
            final(self).wf(),
            match r {
                Ok(()) => {
                    &&& bits <= old(self).unread().len()
                    &&& final(self).unread() == old(self).unread().skip(bits as int)
                },
                Err(e) => {
                    &&& e == StreamError::UnexpectedEof
                    &&& bits > old(self).unread().len()
                    &&& final(self).unread() == Seq::<bool>::empty()
                },
            },
    {
        let ghost before = self.unread();
        let ghost stream = stream_bits(E::msb_first(), self.reader.remaining());
        proof {
            self.lemma_residual();
        }
        let queued: u32 = self.bitqueue.len();
        let to_drop: u32 = if bits < queued { bits } else { queued };
        if to_drop != 0 {
            let _ = self.bitqueue.pop(to_drop);
        }
        let rest: u32 = bits - to_drop;
        proof {
            assert(self.bitqueue@ + stream =~= before.skip(to_drop as int));
        }
        match skip_aligned(&mut self.reader, rest / 8) {
            Ok(()) => {},
            Err(e) => {
                proof {
                    assert(self.unread() =~= Seq::<bool>::empty());
                }
                return Err(e);
            },
        }
        proof {
            lemma_stream_bits_split(E::msb_first(), old(self).reader.remaining(), (rest / 8) as nat);
            lemma_stream_bits_len(E::msb_first(), self.reader.remaining());
            assert(self.bitqueue@ + stream.skip(8 * (rest / 8)) =~= before.skip(
                to_drop + 8 * (rest / 8),
            ));
        }
        match skip_unaligned(&mut self.reader, rest % 8, &mut self.bitqueue) {
            Ok(()) => {},
            Err(e) => {
                proof {
                    assert(self.unread() =~= Seq::<bool>::empty());
                }
                return Err(e);
            },
        }
        proof {
            assert(self.unread() =~= before.skip(bits as int));
        }
        Ok(())
    }

    /// Fills `buf` with the next whole bytes: the bits read are those that
    /// the bytes of `buf` then hold.
    ///
    /// Fails with `UnexpectedEof` if fewer than `8 * buf.len()` bits are
    /// left; the reader is then exhausted, and `buf` holds the bytes read
    /// before the end.
    pub fn read_bytes(&mut self, buf: &mut [u8]) -> (r: Result<(), StreamError>)
        requires
            old(self).wf(),
        ensures
            final(self).wf(),
            final(buf)@.len() == old(buf)@.len(),
            match r {
                Ok(()) => {
                    &&& 8 * old(buf)@.len() <= old(self).unread().len()
                    &&& stream_bits(E::msb_first(), final(buf)@) == old(self).unread().take(
                        8 * old(buf)@.len() as int,
                    )
                    &&& final(self).unread() == old(self).unread().skip(8 * old(buf)@.len() as int)
                },
                Err(e) => {
                    &&& e == StreamError::UnexpectedEof
                    &&& 8 * old(buf)@.len() > old(self).unread().len()
                    &&& final(self).unread() == Seq::<bool>::empty()
                },
            },
    {
        let ghost before = self.unread();
        let n: usize = buf.len();
        proof {
            self.lemma_residual();
        }
        if self.byte_aligned() {
            let ghost source = self.reader.remaining();
            proof {
                assert(before =~= stream_bits(E::msb_first(), source));
                lemma_stream_bits_len(E::msb_first(), source);
            }
            match self.reader.read_exact(buf) {
                Ok(()) => {
                    proof {
                        lemma_stream_bits_split(E::msb_first(), source, n as nat);
                        assert(self.unread() =~= before.skip(8 * n));
                    }
                    Ok(())
                },
                Err(e) => {
                    proof {
                        assert(self.unread() =~= Seq::<bool>::empty());
                    }
                    Err(e)
                },
            }
        } else {
            let mut i: usize = 0;
            proof {
                assert(before.skip(0) =~= before);
                assert(buf@.take(0) =~= Seq::<u8>::empty());
                assert(before.take(0) =~= Seq::<bool>::empty());
            }
            while i < n
                invariant
                    self.wf(),
                    n == buf@.len() == old(buf)@.len(),
                    before == old(self).unread(),
                    i <= n,
                    8 * i <= before.len(),
                    self.unread() == before.skip(8 * i),
                    stream_bits(E::msb_first(), buf@.take(i as int)) == before.take(8 * i),
                decreases n - i,
            {
                let ghost filled = buf@.take(i as int);
                let byte: u8 = match self.read::<u8>(8) {
                    Ok(byte) => byte,
                    Err(e) => {
                        return Err(e);
                    },
                };
                buf[i] = byte;
                proof {
                    let next = before.skip(8 * i).take(8);
                    lemma_bits_round_trip(E::msb_first(), next);
                    lemma_stream_bits_push(E::msb_first(), filled, byte);
                    assert(buf@.take(i + 1) =~= filled.push(byte));
                    assert(before.take(8 * i) + next =~= before.take(8 * (i + 1)));
                    assert(before.skip(8 * i).skip(8) =~= before.skip(8 * (i + 1)));
                }
                i = i + 1;
            }
            proof {
                assert(buf@.take(n as int) =~= buf@);
            }
            Ok(())
        }
    }

    /// Reads a run of bits equal to `bit` and the opposite bit that ends
    /// it, and returns the length of the run.
    fn read_unary(&mut self, bit: bool) -> (r: Result<u32, StreamError>)
        requires
            old(self).wf(),
            leading_run(old(self).unread(), bit) <= u32::MAX,
        ensures
            final(self).wf(),
            match r {
                Ok(n) => {
                    &&& n == leading_run(old(self).unread(), bit)
                    &&& n < old(self).unread().len()
                    &&& final(self).unread() == old(self).unread().skip(n + 1)
                },
                Err(e) => {
                    &&& e == StreamError::UnexpectedEof
                    &&& leading_run(old(self).unread(), bit) == old(self).unread().len()
                    &&& final(self).unread() == Seq::<bool>::empty()
                },
            },
    {
        let ghost before = self.unread();
        let ghost queued = self.bitqueue@;
        let ghost source = self.reader.remaining();
        let ghost stream = stream_bits(E::msb_first(), source);
        let ghost k = leading_bytes(source, filled_byte(bit));
        proof {
            self.lemma_residual();
            lemma_leading_run_stream(E::msb_first(), source, bit);
        }
        let sentinel: u8 = if bit { 0xFF } else { 0x00 };
        let full: bool = if bit { self.bitqueue.all_ones() } else { self.bitqueue.all_zeros() };
        if full {
            let base: u32 = self.bitqueue.len();
            self.bitqueue.clear();
            proof {
                lemma_leading_run_prepend(base as nat, bit, stream);
            }
            let whole: u32 = match read_aligned_unary(
                &mut self.reader,
                sentinel,
                &mut self.bitqueue,
            ) {
                Ok(whole) => whole,
                Err(e) => {
                    proof {
                        assert(self.unread() =~= Seq::<bool>::empty());
                    }
                    return Err(e);
                },
            };
            let part: u32 = if bit {
                self.bitqueue.pop_leading_ones()
            } else {
                self.bitqueue.pop_leading_zeros()
            };
            proof {
                assert(stream.skip(8 * k + part + 1) =~= before.skip(base + 8 * k + part + 1));
            }
            Ok(base + whole + part)
        } else {
            proof {
                lemma_leading_run_front(queued, stream, bit);
            }
            let part: u32 = if bit {
                self.bitqueue.pop_leading_ones()
            } else {
                self.bitqueue.pop_leading_zeros()
            };
            proof {
                assert(self.unread() =~= before.skip(part + 1));
            }
            Ok(part)
        }
    }

    /// Reads a run of set bits and the clear bit that ends it, and returns
    /// the length of the run.
    ///
    /// Fails with `UnexpectedEof` if every bit that is left is set; the
    /// reader is then exhausted. The run is counted in 32 bits: it may
    /// be no longer than such a count can reach.
    pub fn read_unary0(&mut self) -> (r: Result<u32, StreamError>)
        requires
            old(self).wf(),
            leading_run(old(self).unread(), true) <= u32::MAX,
        ensures
            final(self).wf(),
            match r {
                Ok(n) => {
                    &&& n == leading_run(old(self).unread(), true)
                    &&& n < old(self).unread().len()
                    &&& final(self).unread() == old(self).unread().skip(n + 1)
                },
                Err(e) => {
                    &&& e == StreamError::UnexpectedEof
                    &&& leading_run(old(self).unread(), true) == old(self).unread().len()
                    &&& final(self).unread() == Seq::<bool>::empty()
                },
            },
    {
        self.read_unary(true)
    }

    /// Reads a run of clear bits and the set bit that ends it, and returns
    /// the length of the run.
    ///
    /// Fails with `UnexpectedEof` if every bit that is left is clear; the
    /// reader is then exhausted. The run is counted in 32 bits: it may
    /// be no longer than such a count can reach.
    pub fn read_unary1(&mut self) -> (r: Result<u32, StreamError>)
        requires
            old(self).wf(),
            leading_run(old(self).unread(), false) <= u32::MAX,
        ensures
            final(self).wf(),
            match r {
                Ok(n) => {
                    &&& n == leading_run(old(self).unread(), false)
                    &&& n < old(self).unread().len()
                    &&& final(self).unread() == old(self).unread().skip(n + 1)
                },
                Err(e) => {
                    &&& e == StreamError::UnexpectedEof
                    &&& leading_run(old(self).unread(), false) == old(self).unread().len()
                    &&& final(self).unread() == Seq::<bool>::empty()
                },
            },
    {
        self.read_unary(false)
    }

    /// Reads the next `bits` bits as one two's-complement field and
    /// returns the integer it stands for, as a value of type `S`. The sign
    /// bit is the field's most significant bit: the first bit read in
    /// most-significant-first order, the last one otherwise.
    ///
    /// Fails with `InvalidInput`, reading nothing, if `bits` is zero or
    /// `S` has fewer than `bits` bits. Fails with `UnexpectedEof` if fewer
    /// than `bits` bits are left; the reader is then exhausted.
    pub fn read_signed<S: SignedNumeric>(&mut self, bits: u32) -> (r: Result<S, StreamError>)
        requires
            old(self).wf(),
        ensures
            final(self).wf(),
            match r {
                Ok(value) => {
                    &&& 1 <= bits <= S::width()
                    &&& bits <= old(self).unread().len()
                    &&& value.value() == signed_value(
                        bits as nat,
                        bits_to_nat(E::msb_first(), old(self).unread().take(bits as int)),
                    )
                    &&& final(self).unread() == old(self).unread().skip(bits as int)
                },
                Err(StreamError::InvalidInput) => {
                    &&& bits == 0 || bits > S::width()
                    &&& *final(self) == *old(self)
                },
                Err(StreamError::UnexpectedEof) => {
                    &&& 1 <= bits <= S::width()
                    &&& bits > old(self).unread().len()
                    &&& final(self).unread() == Seq::<bool>::empty()
                },
            },
    {
        if bits == 0 || bits > S::bits_size() {
            return Err(StreamError::InvalidInput);
        }
        let ghost before = self.unread();
        proof {
            S::lemma_width();
        }
        let is_negative: bool;
        let magnitude: u64;
        if E::leading_sign() {
            is_negative = self.read_bit()?;
            magnitude = self.read_field(bits - 1, S::bits_size())?;
        } else {
            magnitude = self.read_field(bits - 1, S::bits_size())?;
            is_negative = self.read_bit()?;
        }
        proof {
            let field = before.take(bits as int);
            lemma_signed_field(E::msb_first(), field);
            if E::msb_first() {
                assert(field.skip(1) =~= before.skip(1).take(bits - 1));
                assert(before.skip(1).skip(bits - 1) =~= before.skip(bits as int));
            } else {
                assert(field.drop_last() =~= before.take(bits - 1));
                assert(before.skip(bits - 1).skip(1) =~= before.skip(bits as int));
            }
        }
        Ok(from_sign_magnitude::<S>(is_negative, magnitude, bits))
    }

    /// Reads the next symbol of a Huffman code: the bits up to the end of
    /// the first code that the unread bits start with.
    ///
    /// Fails with `UnexpectedEof` if the unread bits end before a code is
    /// complete; the buffer is then exhausted, and the bits that the
    /// reader held outside it are still unread.
    pub fn read_huffman<T: Copy>(&mut self, tree: &CompiledReadTree<E, T>) -> (r: Result<
        T,
        StreamError,
    >)
        requires
            old(self).wf(),
            tree.wf(),
        ensures
            final(self).wf(),
            match tree@.decode(old(self).unread()) {
                Some((symbol, used)) => {
                    &&& r == Ok::<T, StreamError>(symbol)
                    &&& used <= old(self).unread().len()
                    &&& final(self).unread() == old(self).unread().skip(used as int)
                },
                None => {
                    &&& r == Err::<T, StreamError>(StreamError::UnexpectedEof)
                    &&& final(self).residual() == old(self).residual()
                    &&& final(self).source() == Seq::<u8>::empty()
                },
            },
    {
        let ghost before = self.unread();
        let ghost mut path = Seq::<bool>::empty();
        let ghost mut pending = self.bitqueue@;
        let ghost mut at = tree@;
        proof {
            self.lemma_residual();
            lemma_bits_round_trip(E::msb_first(), pending);
            lemma_bits_to_nat_bound(E::msb_first(), pending);
            assert(path + (pending + stream_bits(E::msb_first(), self.reader.remaining()))
                =~= before);
        }
        let mut entry: Transition<T> = tree.first(self.bitqueue.to_lookup_index());
        loop
            invariant
                self.reader.wf(),
                self.bitqueue == old(self).bitqueue,
                old(self).wf(),
                tree.wf(),
                before == old(self).unread(),
                before == path + (pending + stream_bits(E::msb_first(), self.reader.remaining())),
                pending.len() <= 8,
                pending.len() < 8 || at is Tree,
                entry_matches(E::msb_first(), tree.tables(), entry, at, pending),
                tree@.walk(before) == (match at.walk(
                    pending + stream_bits(E::msb_first(), self.reader.remaining()),
                ) {
                    Walk::Found(symbol, used) => Walk::Found(symbol, path.len() + used),
                    Walk::Open(end) => Walk::Open(end),
                }),
            decreases self.reader.remaining().len(),
        {
            let ghost stream = stream_bits(E::msb_first(), self.reader.remaining());
            proof {
                lemma_walk_concat(at, pending, stream);
                lemma_walk_found(at, pending);
                lemma_walk_open(at, pending);
            }
            match entry {
                Transition::Done(symbol, count, value) => {
                    proof {
                        let used = pending.len() - count;
                        let rest = pending.skip(used as int);
                        lemma2_to64();
                        lemma_bits_to_nat_bound(E::msb_first(), rest);
                        lemma_bits_round_trip(E::msb_first(), rest);
                        if rest.len() < 8 {
                            lemma_pow2_strictly_increases(rest.len(), 8);
                        }
                        assert(rest + stream =~= before.skip(path.len() + used));
                    }
                    self.bitqueue.set(value as u64, count);
                    return Ok(symbol);
                },
                Transition::Continue(table) => {
                    let ghost below = at.walk(pending)->Open_0;
                    let ghost source = self.reader.remaining();
                    proof {
                        lemma_table_entry(E::msb_first(), tree.tables(), table as int, below, 0);
                        assert(pending + Seq::<bool>::empty() =~= pending);
                    }
                    let byte: u8 = match read_byte(&mut self.reader) {
                        Ok(byte) => byte,
                        Err(e) => {
                            proof {
                                assert(stream =~= Seq::<bool>::empty());
                                assert(pending + stream =~= pending);
                            }
                            return Err(e);
                        },
                    };
                    entry = tree.next(table, byte);
                    proof {
                        lemma_table_entry(E::msb_first(), tree.tables(), table as int, below, byte);
                        lemma_stream_bits_first(E::msb_first(), source);
                        lemma_nat_to_bits_len(E::msb_first(), 8, byte as nat);
                        let one = nat_to_bits(E::msb_first(), 8, byte as nat);
                        let rest = stream_bits(E::msb_first(), self.reader.remaining());
                        assert(path + (pending + stream) =~= (path + pending) + (one + rest));
                        path = path + pending;
                        pending = one;
                        at = below;
                    }
                },
                Transition::Invalid => {
                    return vstd::pervasive::unreached();
                },
            }
        }
    }

    /// Puts `bytes` behind the bytes of the buffer: the reader then has
    /// their bits to read behind those it had.
    pub fn feed(&mut self, bytes: &[u8])
        requires
            old(self).wf(),
        ensures
            final(self).wf(),
            final(self).residual() == old(self).residual(),
            final(self).source() == old(self).source() + bytes@,
            final(self).unread() == old(self).unread() + stream_bits(E::msb_first(), bytes@),
    {
        proof {
            crate::bits::lemma_stream_bits_concat(E::msb_first(), self.reader.remaining(), bytes@);
        }
        self.reader.extend(bytes);
        proof {
            let q = self.bitqueue@;
            let a = stream_bits(E::msb_first(), old(self).reader.remaining());
            let b = stream_bits(E::msb_first(), bytes@);
            assert(q + (a + b) =~= (q + a) + b);
        }
    }

    /// How many more bytes the buffer must be fed before `bits` bits can
    /// be read: the least number of bytes that, put behind the unread
    /// bits, make at least `bits` bits.
    pub fn bytes_needed(&self, bits: u32) -> (r: usize)
        requires
            self.wf(),
        ensures
            bits <= self.unread().len() + 8 * r,
            r > 0 ==> bits > self.unread().len() + 8 * (r - 1),
    {
        proof {
            self.lemma_residual();
        }
        let queued: u32 = self.bitqueue.len();
        if bits <= queued {
            0
        } else {
            let rest: u32 = bits - queued;
            let whole: u32 = rest / 8 + (if rest % 8 > 0 { 1u32 } else { 0u32 });
            let have: usize = self.reader.len();
            if whole as usize <= have {
                0
            } else {
                whole as usize - have
            }
        }
    }

    /// A copy of the whole bytes that are still in the buffer. With the
    /// bits that `into_unread` gives, they are all that is left to read.
    pub fn unread_bytes(&self) -> (r: Vec<u8>)
        requires
            self.wf(),
        ensures
            r@ == self.source(),
    {
        self.reader.to_vec()
    }

    /// How many whole bytes are still in the buffer.
    pub fn remaining_bytes(&self) -> (r: usize)
        requires
            self.wf(),
        ensures
            r == self.source().len(),
            self.unread().len() == self.residual().len() + 8 * r,
    {
        proof {
            self.lemma_residual();
        }
        self.reader.len()
    }

    /// Whether the reader stands at a byte boundary: whether it holds no
    /// bit outside the buffer.
    pub fn byte_aligned(&self) -> (r: bool)
        requires
            self.wf(),
        ensures
            r == (self.residual().len() == 0),
            r == (self.unread().len() % 8 == 0),
    {
        proof {
            self.lemma_residual();
        }
        self.bitqueue.is_empty()
    }

    /// Throws away the unread bits up to the next byte boundary.
    pub fn byte_align(&mut self)
        requires
            old(self).wf(),
        ensures
            final(self).wf(),
            final(self).residual() == Seq::<bool>::empty(),
            final(self).source() == old(self).source(),
            final(self).unread() == old(self).unread().skip(old(self).residual().len() as int),
    {
        self.bitqueue.clear();
        assert(self.unread() =~= old(self).unread().skip(old(self).residual().len() as int));
    }

    /// Gives up the reader and returns the bits it held outside the
    /// buffer: how many, and the number they spell.
    pub fn into_unread(self) -> (r: (u32, u8))
        requires
            self.wf(),
        ensures
            r.0 == self.residual().len(),
            r.1 == bits_to_nat(E::msb_first(), self.residual()),
    {
        proof {
            lemma2_to64();
            lemma_bits_to_nat_bound(E::msb_first(), self.bitqueue@);
            lemma_pow2_strictly_increases(self.bitqueue@.len(), 8);
        }
        (self.bitqueue.len(), self.bitqueue.value() as u8)
    }
}

impl BitReader<LittleEndian> {
    /// Takes the next `bits` bits out of this reader and returns a reader
    /// of their own for them. Only a least-significant-first reader has
    /// this operation: the new reader is one, and holds the bits in the
    /// order in which this reader would have read them.
    ///
    /// Fails with `UnexpectedEof` if fewer than `bits` bits are left; this
    /// reader is then exhausted.
    pub fn create_sub_reader(&mut self, bits: u32) -> (r: Result<
        BitReader<LittleEndian>,
        StreamError,
    >)
        requires
            old(self).wf(),
        ensures
            final(self).wf(),
            match r {
                Ok(sub) => {
                    &&& sub.wf()
                    &&& bits <= old(self).unread().len()
                    &&& sub.unread() == old(self).unread().take(bits as int)
                    &&& final(self).unread() == old(self).unread().skip(bits as int)
                },
                Err(e) => {
                    &&& e == StreamError::UnexpectedEof
                    &&& bits > old(self).unread().len()
                    &&& final(self).unread() == Seq::<bool>::empty()
                },
            },
    {
        let ghost before = self.unread();
        let bytes: u32 = bits / 8;
        let remainder_bits: u32 = bits % 8;
        let mut new_bytes: Vec<u8> = Vec::new();
        let ghost mut head = Seq::<bool>::empty();
        if remainder_bits > 0 {
            let part: u8 = match self.read::<u8>(remainder_bits) {
                Ok(part) => part,
                Err(e) => {
                    return Err(e);
                },
            };
            let mut first: BitQueue<LittleEndian> = BitQueue::new(8);
            proof {
                lemma2_to64();
                vstd::arithmetic::power2::lemma_pow2_pos((8 - remainder_bits) as nat);
                lemma_bits_to_nat_bound(false, before.take(remainder_bits as int));
                lemma_bits_round_trip(false, before.take(remainder_bits as int));
                lemma_nat_to_bits_len(false, (8 - remainder_bits) as nat, 0);
            }
            first.push(8 - remainder_bits, 0);
            first.push(remainder_bits, part as u64);
            let byte: u64 = first.value();
            proof {
                head = first@;
                lemma_bits_to_nat_bound(false, head);
                lemma_bits_round_trip(false, head);
                crate::bits::lemma_stream_bits_one(false, byte as u8);
            }
            new_bytes.push(byte as u8);
        }
        proof {
            assert(before.skip(0) =~= before);
        }
        let ghost middle = self.unread();
        let mut rest: Vec<u8> = Vec::new();
        let mut i: u32 = 0;
        while i < bytes
            invariant
                i <= bytes,
                rest@.len() == i,
            decreases bytes - i,
        {
            rest.push(0u8);
            i = i + 1;
        }
        match self.read_bytes(rest.as_mut_slice()) {
            Ok(()) => {},
            Err(e) => {
                return Err(e);
            },
        }
        let ghost tail = rest@;
        let ghost front = new_bytes@;
        new_bytes.append(&mut rest);
        proof {
            crate::bits::lemma_stream_bits_concat(false, front, tail);
            lemma_stream_bits_len(false, new_bytes@);
            if remainder_bits == 0 {
                assert(stream_bits(false, front) =~= Seq::<bool>::empty());
                assert(stream_bits(false, new_bytes@) =~= before.take(bits as int));
            } else {
                assert(head.skip(8 - remainder_bits) =~= before.take(remainder_bits as int));
                assert(stream_bits(false, new_bytes@).skip(8 - remainder_bits) =~= before.take(
                    bits as int,
                ));
            }
            assert(middle.skip(8 * bytes) =~= before.skip(bits as int));
        }
        let mut new_reader: BitReader<LittleEndian> = BitReader::new(new_bytes);
        if remainder_bits > 0 {
            match new_reader.skip(8 - remainder_bits) {
                Ok(()) => {},
                Err(e) => {
                    return Err(e);
                },
            }
        }
        Ok(new_reader)
    }
}

impl<E: Endianness> BitReader<E> {
    /// The unread bits as they stand once they have been copied for a
    /// least-significant-first reader: the residual bits spell one field,
    /// which is laid out least significant bit first, and the bytes of the
    /// buffer follow as they are. For a least-significant-first reader
    /// these are its unread bits.
    pub open spec fn relaid(&self) -> Seq<bool> {
        nat_to_bits(
            false,
            self.residual().len(),
            bits_to_nat(E::msb_first(), self.residual()),
        ) + stream_bits(false, self.source())
    }

    /// Copying keeps the number of bits, and for a least-significant-first
    /// reader it keeps the bits.
    pub proof fn lemma_relaid(&self)
        requires
            self.wf(),
        ensures
            self.relaid().len() == self.unread().len(),
            self.relaid().len() == self.residual().len() + 8 * self.source().len(),
            !E::msb_first() ==> self.relaid() == self.unread(),
    {
        self.lemma_residual();
        lemma_stream_bits_len(false, self.source());
        lemma_nat_to_bits_len(
            false,
            self.residual().len(),
            bits_to_nat(E::msb_first(), self.residual()),
        );
        if !E::msb_first() {
            lemma_bits_round_trip(false, self.residual());
        }
    }

    /// Moves all the bits that are left in `r` to the back of `w`: the
    /// residual bits as one field, then the bytes of the buffer. Never
    /// fails.
    fn copy_reader_to_writer(r: &mut BitReader<E>, w: &mut BitWriterLE) -> (res: Result<
        (),
        StreamError,
    >)
        requires
            old(r).wf(),
            old(w).wf(),
        ensures
            final(r).wf(),
            final(w).wf(),
            res is Ok,
            final(r).unread() == Seq::<bool>::empty(),
            final(w).written() == old(w).written() + old(r).relaid(),
    {
        let ghost start = w.written();
        let ghost queued = r.bitqueue@;
        let ghost head = nat_to_bits(false, queued.len(), bits_to_nat(E::msb_first(), queued));
        let mut buffer: Vec<u8> = Vec::new();
        buffer.push(0u8);
        proof {
            r.lemma_residual();
            lemma_bits_to_nat_bound(E::msb_first(), queued);
        }
        let bq_len: u32 = r.bitqueue.len();
        if bq_len > 0 {
            let field: u64 = r.bitqueue.pop(bq_len);
            proof {
                lemma2_to64();
                lemma_pow2_strictly_increases(bq_len as nat, 8);
                assert(queued.take(bq_len as int) =~= queued);
            }
            match w.write::<u8>(bq_len, field as u8) {
                Ok(()) => {},
                Err(e) => {
                    return Err(e);
                },
            }
        } else {
            proof {
                assert(start + head =~= start);
            }
        }
        proof {
            assert(start + old(r).relaid() =~= (start + head) + stream_bits(
                false,
                r.reader.remaining(),
            ));
        }
        loop
            invariant
                r.reader.wf(),
                r.bitqueue.wf(),
                r.bitqueue.limit() == 8,
                r.bitqueue@.len() == 0,
                w.wf(),
                buffer@.len() == 1,
                start + old(r).relaid() == w.written() + stream_bits(false, r.reader.remaining()),
            ensures
                r.wf(),
                w.wf(),
                r.unread() == Seq::<bool>::empty(),
                w.written() == start + old(r).relaid(),
            decreases r.reader.remaining().len(),
        {
            let ghost source = r.reader.remaining();
            let ghost sent = w.written();
            match r.reader.read_exact(buffer.as_mut_slice()) {
                Ok(()) => {
                    proof {
                        lemma_stream_bits_split(false, source, 1);
                        lemma_stream_bits_len(false, source);
                        let all = stream_bits(false, source);
                        assert(all =~= all.take(8) + all.skip(8));
                        assert(sent + all =~= (sent + all.take(8)) + all.skip(8));
                    }
                    match w.write_bytes(buffer.as_slice()) {
                        Ok(()) => {},
                        Err(e) => {
                            return Err(e);
                        },
                    }
                },
                Err(e) => {
                    proof {
                        assert(stream_bits(false, source) =~= Seq::<bool>::empty());
                        assert(sent + stream_bits(false, source) =~= sent);
                        assert(r.unread() =~= Seq::<bool>::empty());
                    }
                    break;
                },
            }
        }
        Ok(())
    }

    /// Joins what is left of two readers into one least-significant-first
    /// reader: what is left of this reader, then what is left of `rhs`,
    /// each copied as `relaid` says. Both readers are exhausted. Never
    /// fails.
    ///
    /// Of two least-significant-first readers the joined reader holds the
    /// unread bits unchanged. Of two most-significant-first readers it
    /// holds the bytes of their buffers unchanged, so that it reads each of
    /// them from its other end.
    pub fn concatenate_reader(&mut self, rhs: &mut BitReader<E>) -> (r: Result<
        BitReader<LittleEndian>,
        StreamError,
    >)
        requires
            old(self).wf(),
            old(rhs).wf(),
        ensures
            final(self).wf(),
            final(rhs).wf(),
            final(self).unread() == Seq::<bool>::empty(),
            final(rhs).unread() == Seq::<bool>::empty(),
            r matches Ok(joined) && joined.wf() && joined.unread() == old(self).relaid() + old(
                rhs,
            ).relaid(),
            !E::msb_first() ==> (r matches Ok(joined) && joined.unread() == old(self).unread()
                + old(rhs).unread()),
    {
        let ghost first = self.relaid();
        let ghost second = rhs.relaid();
        proof {
            self.lemma_residual();
            rhs.lemma_residual();
            self.lemma_relaid();
            rhs.lemma_relaid();
        }
        let lhs_bitqueue_bits: u32 = self.bitqueue.len();
        let rhs_bitqueue_bits: u32 = rhs.bitqueue.len();
        let total_bits: u32 = lhs_bitqueue_bits + rhs_bitqueue_bits;
        let bit_offset: u32 = total_bits % 8;
        let mut w: BitWriterLE = BitWriterLE::new(Vec::new());
        let ghost mut pad = Seq::<bool>::empty();
        proof {
            assert(stream_bits(false, Seq::<u8>::empty()) =~= Seq::<bool>::empty());
        }
        if bit_offset > 0 {
            proof {
                vstd::arithmetic::power2::lemma_pow2_pos((8 - bit_offset) as nat);
                pad = nat_to_bits(false, (8 - bit_offset) as nat, 0);
                lemma_nat_to_bits_len(false, (8 - bit_offset) as nat, 0);
            }
            match w.write::<u8>(8 - bit_offset, 0u8) {
                Ok(()) => {},
                Err(e) => {
                    return vstd::pervasive::unreached();
                },
            }
        }
        proof {
            assert(w.written() =~= pad);
        }
        match BitReader::<E>::copy_reader_to_writer(self, &mut w) {
            Ok(()) => {},
            Err(e) => {
                return vstd::pervasive::unreached();
            },
        }
        match BitReader::<E>::copy_reader_to_writer(rhs, &mut w) {
            Ok(()) => {},
            Err(e) => {
                return vstd::pervasive::unreached();
            },
        }
        let ghost all = w.written();
        proof {
            w.lemma_unwritten();
            lemma_whole_bytes(
                lhs_bitqueue_bits as nat,
                old(self).source().len(),
                rhs_bitqueue_bits as nat,
                old(rhs).source().len(),
            );
            assert(all == pad + first + second);
            assert(pad.len() == (if bit_offset > 0 { 8 - bit_offset } else { 0 }));
            lemma_joined(pad, first, second, all, stream_bits(false, w.flushed()), w.unwritten());
        }
        let mut new_reader: BitReader<LittleEndian> = BitReader::new(w.into_bytes());
        if bit_offset > 0 {
            match new_reader.skip(8 - bit_offset) {
                Ok(()) => {},
                Err(e) => {
                    return vstd::pervasive::unreached();
                },
            }
        }
        Ok(new_reader)
    }
}

/// Two runs of bits, each some bits short of whole bytes, fill whole
/// bytes together with the padding that their odd bits call for.
proof fn lemma_whole_bytes(a: nat, m: nat, b: nat, n: nat)
    requires
        a < 8,
        b < 8,
    ensures
        ((if (a + b) % 8 > 0 { 8 - (a + b) % 8 } else { 0 }) + (a + 8 * m) + (b + 8 * n)) % 8 == 0,
{
}

/// A stream made of padding and two runs of bits that fills whole bytes
/// is the bits of its bytes, and the two runs stand behind the padding.
proof fn lemma_joined(
    pad: Seq<bool>,
    first: Seq<bool>,
    second: Seq<bool>,
    all: Seq<bool>,
    flushed: Seq<bool>,
    unwritten: Seq<bool>,
)
    requires
        all == pad + first + second,
        all == flushed + unwritten,
        unwritten.len() == all.len() % 8,
        (pad.len() + first.len() + second.len()) % 8 == 0,
    ensures
        flushed == all,
        pad.len() <= flushed.len(),
        flushed.skip(pad.len() as int) == first + second,
{
    assert(all.len() == pad.len() + first.len() + second.len());
    assert(flushed =~= all);
    assert((pad + first + second).skip(pad.len() as int) =~= first + second);
}

} // verus!
