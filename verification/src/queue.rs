//! The bit accumulator: a short first-in, first-out queue of bits held in
//! one machine word.

use vstd::prelude::*;
use vstd::arithmetic::power2::{pow2, lemma_pow2_pos, lemma_pow2_strictly_increases, lemma2_to64};
use core::marker::PhantomData;
use crate::bits::{
    bits_to_nat, nat_to_bits, run, leading_run, lemma_nat_to_bits_len,
    lemma_nat_round_trip_exact, lemma_append_field, lemma_split_field,
    lemma_bits_to_nat_extremes, lemma_leading_run_is, lemma_leading_run_prepend, lemma_single_bit,
};
use crate::order::Endianness;
use crate::numeric::{pow2_u64, low_mask};

verus! {

/// A queue of at most `capacity` bits, at most 64, in the bit order `E`.
///
/// Bits leave the queue in the order in which they entered it. The order
/// `E` decides how a field of several bits is spelled: most significant bit
/// first, or least significant bit first.
pub struct BitQueue<E: Endianness> {
    value: u64,
    bits: u32,
    capacity: u32,
    order: PhantomData<E>,
}

impl<E: Endianness> View for BitQueue<E> {
    type V = Seq<bool>;

    /// The queued bits, the next one to leave first.
    closed spec fn view(&self) -> Seq<bool> {
        nat_to_bits(E::msb_first(), self.bits as nat, self.value as nat)
    }
}

impl<E: Endianness> BitQueue<E> {
    /// The queue's invariant: it holds no more bits than its capacity, and
    /// no bit is set beyond those it holds.
    pub closed spec fn wf(&self) -> bool {
        &&& self.bits <= self.capacity <= 64
        &&& self.value < pow2(self.bits as nat)
    }

    /// How many bits the queue can hold.
    pub closed spec fn limit(&self) -> nat {
        self.capacity as nat
    }

    /// A well-formed queue holds at most `limit()` bits.
    pub proof fn lemma_len(&self)
        requires
            self.wf(),
        ensures
            self@.len() <= self.limit() <= 64,
    {
        self.lemma_count();
    }

    /// The view has as many bits as the queue counts.
    proof fn lemma_count(&self)
        ensures
            self@.len() == self.bits,
    {
        lemma_nat_to_bits_len(E::msb_first(), self.bits as nat, self.value as nat);
    }

    /// An empty queue of the given capacity.
    pub fn new(capacity: u32) -> (r: Self)
        requires
            capacity <= 64,
        ensures
            r.wf(),
            r.limit() == capacity,
            r@ == Seq::<bool>::empty(),
    {
        proof {
            lemma2_to64();
        }
        BitQueue { value: 0, bits: 0, capacity, order: PhantomData }
    }

    /// A queue that holds the `bits` bits of `value`.
    pub fn from_value(value: u64, bits: u32, capacity: u32) -> (r: Self)
        requires
            bits <= capacity <= 64,
            value < pow2(bits as nat),
        ensures
            r.wf(),
            r.limit() == capacity,
            r@ == nat_to_bits(E::msb_first(), bits as nat, value as nat),
    {
        BitQueue { value, bits, capacity, order: PhantomData }
    }

    /// Replaces the queue's contents with the `bits` bits of `value`.
    pub fn set(&mut self, value: u64, bits: u32)
        requires
            old(self).wf(),
            bits <= old(self).limit(),
            value < pow2(bits as nat),
        ensures
            final(self).wf(),
            final(self).limit() == old(self).limit(),
            final(self)@ == nat_to_bits(E::msb_first(), bits as nat, value as nat),
    {
        self.value = value;
        self.bits = bits;
    }

    /// Empties the queue.
    pub fn clear(&mut self)
        requires
            old(self).wf(),
        ensures
            final(self).wf(),
            final(self).limit() == old(self).limit(),
            final(self)@ == Seq::<bool>::empty(),
    {
        proof {
            lemma2_to64();
        }
        self.value = 0;
        self.bits = 0;
    }

    /// The number of bits in the queue.
    pub fn len(&self) -> (r: u32)
        requires
            self.wf(),
        ensures
            r == self@.len(),
    {
        proof {
            self.lemma_count();
        }
        self.bits
    }

    /// The number of bits the queue can hold.
    pub fn capacity(&self) -> (r: u32)
        ensures
            r == self.limit(),
    {
        self.capacity
    }

    /// The number that the queued bits spell.
    pub fn value(&self) -> (r: u64)
        requires
            self.wf(),
        ensures
            r == bits_to_nat(E::msb_first(), self@),
    {
        proof {
            lemma_nat_round_trip_exact(E::msb_first(), self.bits as nat, self.value as nat);
        }
        self.value
    }

    /// Whether the queue holds no bit.
    pub fn is_empty(&self) -> (r: bool)
        requires
            self.wf(),
        ensures
            r == (self@.len() == 0),
    {
        proof {
            self.lemma_count();
        }
        self.bits == 0
    }

    /// Whether the queue holds as many bits as it can.
    pub fn is_full(&self) -> (r: bool)
        requires
            self.wf(),
        ensures
            r == (self@.len() == self.limit()),
    {
        proof {
            self.lemma_count();
        }
        self.bits == self.capacity
    }

    /// Appends the `bits` bits of `value` behind the queued bits.
    pub fn push(&mut self, bits: u32, value: u64)
        requires
            old(self).wf(),
            old(self)@.len() + bits <= old(self).limit(),
            value < pow2(bits as nat),
        ensures
            final(self).wf(),
            final(self).limit() == old(self).limit(),
            final(self)@ == old(self)@ + nat_to_bits(E::msb_first(), bits as nat, value as nat),
    {
        proof {
            self.lemma_count();
            lemma_append_field(
                E::msb_first(),
                self.value as nat,
                self.bits as nat,
                value as nat,
                bits as nat,
            );
        }
        let combined: u64 = E::push(self.value, self.bits, value, bits);
        self.value = combined;
        self.bits = self.bits + bits;
    }

    /// Takes the first `bits` bits out of the queue and returns the number
    /// they spell.
    pub fn pop(&mut self, bits: u32) -> (r: u64)
        requires
            old(self).wf(),
            bits <= old(self)@.len(),
        ensures
            final(self).wf(),
            final(self).limit() == old(self).limit(),
            r == bits_to_nat(E::msb_first(), old(self)@.take(bits as int)),
            r < pow2(bits as nat),
            final(self)@ == old(self)@.skip(bits as int),
    {
        proof {
            self.lemma_count();
            lemma_split_field(E::msb_first(), self.value as nat, self.bits as nat, bits as nat);
        }
        let (field, rest) = E::pop(self.value, self.bits, bits);
        self.value = rest;
        self.bits = self.bits - bits;
        field
    }

    /// The number that the first `bits` bits of the queue spell. The queue
    /// keeps them.
    pub fn peek(&self, bits: u32) -> (r: u64)
        requires
            self.wf(),
            bits <= self@.len(),
        ensures
            r == bits_to_nat(E::msb_first(), self@.take(bits as int)),
            r < pow2(bits as nat),
    {
        proof {
            self.lemma_count();
            lemma_split_field(E::msb_first(), self.value as nat, self.bits as nat, bits as nat);
        }
        let (field, _) = E::pop(self.value, self.bits, bits);
        field
    }

    /// Whether every queued bit is set. True of an empty queue.
    pub fn all_ones(&self) -> (r: bool)
        requires
            self.wf(),
        ensures
            r == (self@ == run(self@.len(), true)),
    {
        proof {
            self.lemma_count();
            lemma_nat_round_trip_exact(E::msb_first(), self.bits as nat, self.value as nat);
            lemma_bits_to_nat_extremes(E::msb_first(), self@);
        }
        self.value == low_mask(self.bits)
    }

    /// Whether every queued bit is clear. True of an empty queue.
    pub fn all_zeros(&self) -> (r: bool)
        requires
            self.wf(),
        ensures
            r == (self@ == run(self@.len(), false)),
    {
        proof {
            self.lemma_count();
            lemma_nat_round_trip_exact(E::msb_first(), self.bits as nat, self.value as nat);
            lemma_bits_to_nat_extremes(E::msb_first(), self@);
        }
        self.value == 0
    }

    /// Takes the leading run of `bit` out of the queue, together with the
    /// opposite bit that ends it, and returns the run's length.
    fn pop_leading(&mut self, bit: bool) -> (r: u32)
        requires
            old(self).wf(),
            old(self)@ != run(old(self)@.len(), bit),
        ensures
            final(self).wf(),
            final(self).limit() == old(self).limit(),
            r == leading_run(old(self)@, bit),
            r < old(self)@.len(),
            final(self)@ == old(self)@.skip(r + 1),
    {
        let ghost start = self@;
        let mut count: u32 = 0;
        proof {
            self.lemma_count();
            assert(self@.skip(0) =~= self@);
        }
        loop
            invariant_except_break
                self@ == start.skip(count as int),
            invariant
                self.wf(),
                self.limit() == old(self).limit(),
                start == old(self)@,
                start.len() <= 64,
                start != run(start.len(), bit),
                count <= start.len(),
                forall|i: int| 0 <= i < count ==> start[i] == bit,
            ensures
                self.wf(),
                self.limit() == old(self).limit(),
                count < start.len(),
                count == leading_run(start, bit),
                self@ == start.skip(count + 1),
            decreases start.len() - count,
        {
            proof {
                if count == start.len() {
                    assert(start =~= run(start.len(), bit));
                }
            }
            let ghost before = self@;
            let next: u64 = self.pop(1);
            proof {
                lemma_single_bit(E::msb_first(), before.take(1));
                assert(before.take(1)[0] == start[count as int]);
                assert(before.skip(1) =~= start.skip(count + 1));
            }
            if (next == 1) != bit {
                proof {
                    lemma_leading_run_is(start, bit, count as nat);
                }
                break;
            }
            count = count + 1;
        }
        count
    }

    /// Takes the leading run of set bits out of the queue, together with
    /// the clear bit that ends it, and returns the run's length. A queue
    /// of set bits alone is emptied, and its length is returned.
    pub fn pop_leading_ones(&mut self) -> (r: u32)
        requires
            old(self).wf(),
        ensures
            final(self).wf(),
            final(self).limit() == old(self).limit(),
            r == leading_run(old(self)@, true),
            r <= old(self)@.len(),
            old(self)@ != run(old(self)@.len(), true) ==> r < old(self)@.len(),
            final(self)@ == (if r < old(self)@.len() {
                old(self)@.skip(r + 1)
            } else {
                Seq::<bool>::empty()
            }),
    {
        if self.all_ones() {
            proof {
                lemma_leading_run_prepend(self@.len(), true, Seq::<bool>::empty());
                assert(self@ + Seq::<bool>::empty() =~= self@);
            }
            let all: u32 = self.len();
            self.clear();
            all
        } else {
            self.pop_leading(true)
        }
    }

    /// Takes the leading run of clear bits out of the queue, together with
    /// the set bit that ends it, and returns the run's length. A queue
    /// of clear bits alone is emptied, and its length is returned.
    pub fn pop_leading_zeros(&mut self) -> (r: u32)
        requires
            old(self).wf(),
        ensures
            final(self).wf(),
            final(self).limit() == old(self).limit(),
            r == leading_run(old(self)@, false),
            r <= old(self)@.len(),
            old(self)@ != run(old(self)@.len(), false) ==> r < old(self)@.len(),
            final(self)@ == (if r < old(self)@.len() {
                old(self)@.skip(r + 1)
            } else {
                Seq::<bool>::empty()
            }),
    {
        if self.all_zeros() {
            proof {
                lemma_leading_run_prepend(self@.len(), false, Seq::<bool>::empty());
                assert(self@ + Seq::<bool>::empty() =~= self@);
            }
            let all: u32 = self.len();
            self.clear();
            all
        } else {
            self.pop_leading(false)
        }
    }

    /// The queue's contents as one index: two to the number of queued
    /// bits, plus the number they spell. Queues that differ in length or
    /// in any bit have different indices.
    pub fn to_lookup_index(&self) -> (r: usize)
        requires
            self.wf(),
            self@.len() < 8,
        ensures
            r == lookup_index(self@.len(), bits_to_nat(E::msb_first(), self@)),
            0 < r < 256,
    {
        proof {
            self.lemma_count();
            lemma_nat_round_trip_exact(E::msb_first(), self.bits as nat, self.value as nat);
            lemma_pow2_strictly_increases(self.bits as nat, 8);
            lemma_pow2_pos(self.bits as nat);
            lemma2_to64();
        }
        let index: u64 = pow2_u64(self.bits) + self.value;
        index as usize
    }
}

/// The index that stands for a queue of `len` bits spelling `value`.
pub open spec fn lookup_index(len: nat, value: nat) -> nat {
    pow2(len) + value
}

} // verus!
