//! The fixed-width integer types that fields can be read into and written
//! from, and the two's-complement arithmetic that signed fields need.

use vstd::prelude::*;
use vstd::arithmetic::power2::{pow2, lemma_pow2_pos, lemma_pow2_adds, lemma_pow2_strictly_increases, lemma2_to64, lemma2_to64_rest};
use vstd::arithmetic::div_mod::lemma_small_mod;
use vstd::arithmetic::power2::lemma_pow2_unfold;
use crate::bits::{bits_to_nat, bit_value, lemma_single_bit, lemma_bits_to_nat_bound, lemma_bits_to_nat_concat};

verus! {

/// An integer type of 8, 16, 32 or 64 bits.
///
/// A value is known to the bit-level code by its bit pattern: the number
/// below `2^width` whose binary digits are the value's bits.
pub trait Numeric: Sized + Copy {
    /// The type's width in bits.
    spec fn width() -> nat;

    /// The value's bit pattern, read as an unsigned number.
    spec fn pattern(self) -> nat;

    /// Widths run from 1 to 64.
    proof fn lemma_width()
        ensures
            1 <= Self::width() <= 64,
    ;

    /// A pattern fits its width.
    proof fn lemma_pattern_bound(x: Self)
        ensures
            x.pattern() < pow2(Self::width()),
    ;

    /// Two values with one pattern are one value.
    proof fn lemma_pattern_injective(a: Self, b: Self)
        requires
            a.pattern() == b.pattern(),
        ensures
            a == b,
    ;

    /// The type's width in bits.
    fn bits_size() -> (r: u32)
        ensures
            r == Self::width(),
    ;

    /// Widens the value's bit pattern to 64 bits, filling with zeros.
    fn to_u64(self) -> (r: u64)
        ensures
            r == self.pattern(),
    ;

    /// Narrows `v` to the type's width, dropping the bits that do not fit.
    fn from_u64(v: u64) -> (r: Self)
        ensures
            r.pattern() == v as nat % pow2(Self::width()),
    ;
}

/// A signed integer type, whose bit pattern is its value in two's
/// complement.
pub trait SignedNumeric: Numeric {
    /// The value as a mathematical integer.
    spec fn value(self) -> int;

    /// The pattern is the two's complement of the value at the type's width.
    proof fn lemma_twos_complement(x: Self)
        ensures
            -pow2((Self::width() - 1) as nat) <= x.value() < pow2((Self::width() - 1) as nat),
            x.pattern() == twos_complement(Self::width(), x.value()),
    ;
}

/// The pattern of `bits` bits that stands for `value` in two's complement.
pub open spec fn twos_complement(bits: nat, value: int) -> nat {
    if value >= 0 {
        value as nat
    } else {
        (value + pow2(bits)) as nat
    }
}

/// The integer that the pattern `raw` of `bits` bits stands for in two's
/// complement.
pub open spec fn signed_value(bits: nat, raw: nat) -> int {
    if bits > 0 && raw >= pow2((bits - 1) as nat) {
        raw - pow2(bits)
    } else {
        raw as int
    }
}

/// Whether `value` can be written as a two's-complement field of `bits`
/// bits.
pub open spec fn fits_signed(bits: nat, value: int) -> bool {
    bits > 0 && -pow2((bits - 1) as nat) <= value < pow2((bits - 1) as nat)
}

/// The number that a sign bit and `bits - 1` magnitude bits stand for in
/// two's complement.
pub open spec fn sign_magnitude_value(negative: bool, magnitude: nat, bits: nat) -> int {
    if negative {
        magnitude - pow2((bits - 1) as nat)
    } else {
        magnitude as int
    }
}

/// A two's-complement field is a sign bit and a magnitude: the sign bit
/// is the field's first bit in most-significant-first order and its last
/// bit otherwise.
pub proof fn lemma_signed_field(msb_first: bool, field: Seq<bool>)
    requires
        field.len() >= 1,
    ensures
        signed_value(field.len(), bits_to_nat(msb_first, field)) == sign_magnitude_value(
            if msb_first { field[0] } else { field.last() },
            bits_to_nat(msb_first, if msb_first { field.skip(1) } else { field.drop_last() }),
            field.len(),
        ),
{
    let n = field.len();
    let m = (n - 1) as nat;
    let negative = if msb_first { field[0] } else { field.last() };
    let rest = if msb_first { field.skip(1) } else { field.drop_last() };
    let sign = seq![negative];
    let s = bit_value(negative);
    let v = bits_to_nat(msb_first, rest);
    lemma_single_bit(msb_first, sign);
    lemma_bits_to_nat_bound(msb_first, rest);
    lemma2_to64();
    lemma_pow2_unfold(n);
    if msb_first {
        assert(field =~= sign + rest);
        lemma_bits_to_nat_concat(true, sign, rest);
        assert(s * pow2(m) == (if negative { pow2(m) } else { 0 })) by (nonlinear_arith)
            requires
                s == (if negative { 1nat } else { 0nat }),
        ;
    } else {
        assert(field =~= rest + sign);
        lemma_bits_to_nat_concat(false, rest, sign);
        assert(pow2(m) * s == (if negative { pow2(m) } else { 0 })) by (nonlinear_arith)
            requires
                s == (if negative { 1nat } else { 0nat }),
        ;
    }
}

/// `2^n` as a machine integer.
pub fn pow2_u64(n: u32) -> (r: u64)
    requires
        n < 64,
    ensures
        r == pow2(n as nat),
{
    proof {
        vstd::bits::lemma_u64_pow2_no_overflow(n as nat);
        vstd::bits::lemma_u64_shl_is_mul(1, n as u64);
    }
    1u64 << n
}

/// The largest number of `n` bits, `2^n - 1`.
pub fn low_mask(n: u32) -> (r: u64)
    requires
        n <= 64,
    ensures
        r == pow2(n as nat) - 1,
{
    if n == 64 {
        proof {
            lemma2_to64_rest();
        }
        u64::MAX
    } else {
        proof {
            lemma_pow2_pos(n as nat);
        }
        pow2_u64(n) - 1
    }
}

/// Whether `v` fits in `n` bits.
pub fn fits_unsigned(v: u64, n: u32) -> (r: bool)
    requires
        n <= 64,
    ensures
        r == (v < pow2(n as nat)),
{
    v <= low_mask(n)
}

/// The value of type `S` that a sign bit and `bits - 1` magnitude bits
/// stand for in two's complement.
pub fn from_sign_magnitude<S: SignedNumeric>(negative: bool, magnitude: u64, bits: u32) -> (r: S)
    requires
        1 <= bits <= S::width(),
        magnitude < pow2((bits - 1) as nat),
    ensures
        r.value() == sign_magnitude_value(negative, magnitude as nat, bits as nat),
{
    proof {
        S::lemma_width();
    }
    let width: u32 = S::bits_size();
    let ghost w = width as nat;
    let ghost m = (bits - 1) as nat;
    proof {
        lemma_pow2_pos(m);
        lemma_pow2_adds(1, (w - 1) as nat);
        lemma2_to64();
        if m < w - 1 {
            lemma_pow2_strictly_increases(m, (w - 1) as nat);
        }
    }
    let pattern: u64 = if negative {
        low_mask(width) - low_mask(bits - 1) + magnitude
    } else {
        magnitude
    };
    let r: S = S::from_u64(pattern);
    proof {
        lemma_small_mod(pattern as nat, pow2(w));
        S::lemma_twos_complement(r);
    }
    r
}

/// The sign bit and the `bits - 1` magnitude bits that stand for `value`
/// in a two's-complement field of `bits` bits, if it fits in one.
pub fn to_sign_magnitude<S: SignedNumeric>(value: S, bits: u32) -> (r: Option<(bool, u64)>)
    requires
        1 <= bits <= S::width(),
    ensures
        r is Some <==> fits_signed(bits as nat, value.value()),
        r matches Some((negative, magnitude)) ==> {
            &&& negative == (value.value() < 0)
            &&& magnitude < pow2((bits - 1) as nat)
            &&& value.value() == sign_magnitude_value(negative, magnitude as nat, bits as nat)
        },
{
    proof {
        S::lemma_width();
        S::lemma_twos_complement(value);
        S::lemma_pattern_bound(value);
    }
    let width: u32 = S::bits_size();
    let ghost w = width as nat;
    let ghost m = (bits - 1) as nat;
    proof {
        lemma_pow2_pos(m);
        lemma_pow2_adds(1, (w - 1) as nat);
        lemma2_to64();
        if m < w - 1 {
            lemma_pow2_strictly_increases(m, (w - 1) as nat);
        }
    }
    let pattern: u64 = value.to_u64();
    if pattern <= low_mask(width - 1) {
        if pattern <= low_mask(bits - 1) {
            Some((false, pattern))
        } else {
            None
        }
    } else {
        let floor: u64 = low_mask(width) - low_mask(bits - 1);
        if pattern >= floor {
            Some((true, pattern - floor))
        } else {
            None
        }
    }
}

impl Numeric for u8 {
    open spec fn width() -> nat {
        8
    }

    open spec fn pattern(self) -> nat {
        self as nat
    }

    proof fn lemma_width() {
    }

    proof fn lemma_pattern_bound(x: Self) {
        lemma2_to64();
        lemma2_to64_rest();
    }

    proof fn lemma_pattern_injective(a: Self, b: Self) {
    }

    fn bits_size() -> (r: u32) {
        8
    }

    fn to_u64(self) -> (r: u64) {
        self as u64
    }

    fn from_u64(v: u64) -> (r: Self) {
        proof {
            lemma2_to64();
            lemma2_to64_rest();
        }
        (v % 0x100) as u8
    }
}

impl Numeric for u16 {
    open spec fn width() -> nat {
        16
    }

    open spec fn pattern(self) -> nat {
        self as nat
    }

    proof fn lemma_width() {
    }

    proof fn lemma_pattern_bound(x: Self) {
        lemma2_to64();
        lemma2_to64_rest();
    }

    proof fn lemma_pattern_injective(a: Self, b: Self) {
    }

    fn bits_size() -> (r: u32) {
        16
    }

    fn to_u64(self) -> (r: u64) {
        self as u64
    }

    fn from_u64(v: u64) -> (r: Self) {
        proof {
            lemma2_to64();
            lemma2_to64_rest();
        }
        (v % 0x10000) as u16
    }
}

impl Numeric for u32 {
    open spec fn width() -> nat {
        32
    }

    open spec fn pattern(self) -> nat {
        self as nat
    }

    proof fn lemma_width() {
    }

    proof fn lemma_pattern_bound(x: Self) {
        lemma2_to64();
        lemma2_to64_rest();
    }

    proof fn lemma_pattern_injective(a: Self, b: Self) {
    }

    fn bits_size() -> (r: u32) {
        32
    }

    fn to_u64(self) -> (r: u64) {
        self as u64
    }

    fn from_u64(v: u64) -> (r: Self) {
        proof {
            lemma2_to64();
            lemma2_to64_rest();
        }
        (v % 0x100000000) as u32
    }
}

impl Numeric for u64 {
    open spec fn width() -> nat {
        64
    }

    open spec fn pattern(self) -> nat {
        self as nat
    }

    proof fn lemma_width() {
    }

    proof fn lemma_pattern_bound(x: Self) {
        lemma2_to64();
        lemma2_to64_rest();
    }

    proof fn lemma_pattern_injective(a: Self, b: Self) {
    }

    fn bits_size() -> (r: u32) {
        64
    }

    fn to_u64(self) -> (r: u64) {
        self as u64
    }

    fn from_u64(v: u64) -> (r: Self) {
        proof {
            lemma2_to64_rest();
            lemma_small_mod(v as nat, pow2(64));
        }
        v
    }
}

impl Numeric for i8 {
    open spec fn width() -> nat {
        8
    }

    open spec fn pattern(self) -> nat {
        if self >= 0 {
            self as nat
        } else {
            (self + 0x100) as nat
        }
    }

    proof fn lemma_width() {
    }

    proof fn lemma_pattern_bound(x: Self) {
        lemma2_to64();
        lemma2_to64_rest();
    }

    proof fn lemma_pattern_injective(a: Self, b: Self) {
    }

    fn bits_size() -> (r: u32) {
        8
    }

    fn to_u64(self) -> (r: u64) {
        if self >= 0 {
            self as u64
        } else {
            (self as i64 + 0x100) as u64
        }
    }

    fn from_u64(v: u64) -> (r: Self) {
        proof {
            lemma2_to64();
            lemma2_to64_rest();
        }
        let low: u64 = v % 0x100;
        if low < 0x80 {
            low as i8
        } else {
            (low as i64 - 0x100) as i8
        }
    }
}

impl SignedNumeric for i8 {
    open spec fn value(self) -> int {
        self as int
    }

    proof fn lemma_twos_complement(x: Self) {
        lemma2_to64();
        lemma2_to64_rest();
    }
}

impl Numeric for i16 {
    open spec fn width() -> nat {
        16
    }

    open spec fn pattern(self) -> nat {
        if self >= 0 {
            self as nat
        } else {
            (self + 0x10000) as nat
        }
    }

    proof fn lemma_width() {
    }

    proof fn lemma_pattern_bound(x: Self) {
        lemma2_to64();
        lemma2_to64_rest();
    }

    proof fn lemma_pattern_injective(a: Self, b: Self) {
    }

    fn bits_size() -> (r: u32) {
        16
    }

    fn to_u64(self) -> (r: u64) {
        if self >= 0 {
            self as u64
        } else {
            (self as i64 + 0x10000) as u64
        }
    }

    fn from_u64(v: u64) -> (r: Self) {
        proof {
            lemma2_to64();
            lemma2_to64_rest();
        }
        let low: u64 = v % 0x10000;
        if low < 0x8000 {
            low as i16
        } else {
            (low as i64 - 0x10000) as i16
        }
    }
}

impl SignedNumeric for i16 {
    open spec fn value(self) -> int {
        self as int
    }

    proof fn lemma_twos_complement(x: Self) {
        lemma2_to64();
        lemma2_to64_rest();
    }
}

impl Numeric for i32 {
    open spec fn width() -> nat {
        32
    }

    open spec fn pattern(self) -> nat {
        if self >= 0 {
            self as nat
        } else {
            (self + 0x100000000) as nat
        }
    }

    proof fn lemma_width() {
    }

    proof fn lemma_pattern_bound(x: Self) {
        lemma2_to64();
        lemma2_to64_rest();
    }

    proof fn lemma_pattern_injective(a: Self, b: Self) {
    }

    fn bits_size() -> (r: u32) {
        32
    }

    fn to_u64(self) -> (r: u64) {
        if self >= 0 {
            self as u64
        } else {
            (self as i64 + 0x100000000) as u64
        }
    }

    fn from_u64(v: u64) -> (r: Self) {
        proof {
            lemma2_to64();
            lemma2_to64_rest();
        }
        let low: u64 = v % 0x100000000;
        if low < 0x80000000 {
            low as i32
        } else {
            (low as i64 - 0x100000000) as i32
        }
    }
}

impl SignedNumeric for i32 {
    open spec fn value(self) -> int {
        self as int
    }

    proof fn lemma_twos_complement(x: Self) {
        lemma2_to64();
        lemma2_to64_rest();
    }
}

impl Numeric for i64 {
    open spec fn width() -> nat {
        64
    }

    open spec fn pattern(self) -> nat {
        if self >= 0 {
            self as nat
        } else {
            (self + 0x10000000000000000) as nat
        }
    }

    proof fn lemma_width() {
    }

    proof fn lemma_pattern_bound(x: Self) {
        lemma2_to64();
        lemma2_to64_rest();
    }

    proof fn lemma_pattern_injective(a: Self, b: Self) {
    }

    fn bits_size() -> (r: u32) {
        64
    }

    fn to_u64(self) -> (r: u64) {
        if self >= 0 {
            self as u64
        } else {
            (self - i64::MIN) as u64 + 0x8000000000000000
        }
    }

    fn from_u64(v: u64) -> (r: Self) {
        proof {
            lemma2_to64_rest();
            lemma_small_mod(v as nat, pow2(64));
        }
        if v < 0x8000000000000000 {
            v as i64
        } else {
            (v - 0x8000000000000000) as i64 + i64::MIN
        }
    }
}

impl SignedNumeric for i64 {
    open spec fn value(self) -> int {
        self as int
    }

    proof fn lemma_twos_complement(x: Self) {
        lemma2_to64();
        lemma2_to64_rest();
    }
}

} // verus!
