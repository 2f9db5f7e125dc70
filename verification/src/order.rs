//! The two bit orders, as strategies for combining a new field into an
//! accumulator and for extracting a field from it.

use vstd::prelude::*;
use vstd::arithmetic::power2::{pow2, lemma_pow2_pos, lemma_pow2_strictly_increases, lemma2_to64, lemma2_to64_rest};
use crate::bits::{append_field, front_field, back_field, lemma_append_field};
use crate::numeric::pow2_u64;

verus! {

/// A bit order: at which end of an accumulator new bits are appended, and
/// from which end bits are taken.
///
/// An accumulator is a pair of a bit count, at most 64, and a value below
/// two to that count.
pub trait Endianness: Sized {
    /// Whether the first bit of a field is its most significant one.
    spec fn msb_first() -> bool;

    /// Whether the sign bit of a signed field comes before its magnitude.
    fn leading_sign() -> (r: bool)
        ensures
            r == Self::msb_first(),
    ;

    /// Appends a field of `n` bits to an accumulator of `count` bits and
    /// returns the accumulator's new value.
    fn push(value: u64, count: u32, field: u64, n: u32) -> (r: u64)
        requires
            count + n <= 64,
            value < pow2(count as nat),
            field < pow2(n as nat),
        ensures
            r == append_field(Self::msb_first(), value as nat, count as nat, field as nat, n as nat),
    ;

    /// Takes the first `n` bits off an accumulator of `count` bits and
    /// returns the field they spell and the accumulator's new value.
    fn pop(value: u64, count: u32, n: u32) -> (r: (u64, u64))
        requires
            n <= count <= 64,
            value < pow2(count as nat),
        ensures
            r.0 == front_field(Self::msb_first(), value as nat, count as nat, n as nat),
            r.1 == back_field(Self::msb_first(), value as nat, count as nat, n as nat),
    ;
}

/// Most-significant bit first.
pub struct BigEndian;

/// Least-significant bit first.
pub struct LittleEndian;

/// Short for [`BigEndian`].
pub type BE = BigEndian;

/// Short for [`LittleEndian`].
pub type LE = LittleEndian;

/// `2^n` for `n` up to 64 never exceeds `2^64`.
proof fn lemma_pow2_le_64(n: nat)
    requires
        n <= 64,
    ensures
        pow2(n) <= 0x1_0000_0000_0000_0000,
{
    lemma2_to64_rest();
    if n < 64 {
        lemma_pow2_strictly_increases(n, 64);
    }
}

impl Endianness for BigEndian {
    open spec fn msb_first() -> bool {
        true
    }

    fn leading_sign() -> (r: bool) {
        true
    }

    fn push(value: u64, count: u32, field: u64, n: u32) -> (r: u64) {
        proof {
            lemma2_to64();
        }
        if n == 64 {
            assert(value * pow2(64) == 0) by (nonlinear_arith)
                requires
                    value == 0,
            ;
            field
        } else {
            proof {
                lemma_append_field(true, value as nat, count as nat, field as nat, n as nat);
                lemma_pow2_le_64((count + n) as nat);
                vstd::bits::lemma_u64_shl_is_mul(value, n as u64);
            }
            (value << n) + field
        }
    }

    fn pop(value: u64, count: u32, n: u32) -> (r: (u64, u64)) {
        let keep: u32 = count - n;
        if keep == 64 {
            proof {
                lemma2_to64_rest();
                vstd::arithmetic::div_mod::lemma_small_mod(value as nat, pow2(64));
                vstd::arithmetic::div_mod::lemma_basic_div(value as int, pow2(64) as int);
            }
            (0, value)
        } else {
            let unit: u64 = pow2_u64(keep);
            proof {
                lemma_pow2_pos(keep as nat);
            }
            (value / unit, value % unit)
        }
    }
}

impl Endianness for LittleEndian {
    open spec fn msb_first() -> bool {
        false
    }

    fn leading_sign() -> (r: bool) {
        false
    }

    fn push(value: u64, count: u32, field: u64, n: u32) -> (r: u64) {
        proof {
            lemma2_to64();
        }
        if count == 64 {
            assert(pow2(64) * field == 0) by (nonlinear_arith)
                requires
                    field == 0,
            ;
            value
        } else {
            proof {
                lemma_append_field(false, value as nat, count as nat, field as nat, n as nat);
                lemma_pow2_le_64((count + n) as nat);
                assert(pow2(count as nat) * field == field * pow2(count as nat)) by (nonlinear_arith);
                vstd::bits::lemma_u64_shl_is_mul(field, count as u64);
            }
            value + (field << count)
        }
    }

    fn pop(value: u64, count: u32, n: u32) -> (r: (u64, u64)) {
        if n == 64 {
            proof {
                lemma2_to64_rest();
                vstd::arithmetic::div_mod::lemma_small_mod(value as nat, pow2(64));
                vstd::arithmetic::div_mod::lemma_basic_div(value as int, pow2(64) as int);
            }
            (value, 0)
        } else {
            let unit: u64 = pow2_u64(n);
            proof {
                lemma_pow2_pos(n as nat);
            }
            (value % unit, value / unit)
        }
    }
}

} // verus!
