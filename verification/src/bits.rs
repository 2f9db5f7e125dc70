//! The mathematical model of a bit stream: sequences of bits, the numbers
//! they spell in either bit order, and the bits that a run of bytes holds.
//!
//! Every contract of the crate is stated over the functions of this module.
//! A bit order is given as `msb_first`: `true` when the first bit of a field
//! is its most significant one, `false` when it is its least significant one.

use vstd::prelude::*;
use vstd::arithmetic::power2::{pow2, lemma_pow2_unfold, lemma_pow2_pos, lemma2_to64};
use vstd::arithmetic::div_mod::lemma_fundamental_div_mod_converse;

verus! {

/// The number a single bit stands for.
pub open spec fn bit_value(b: bool) -> nat {
    if b { 1 } else { 0 }
}

/// The number spelled by `bits`, read in the given order.
pub open spec fn bits_to_nat(msb_first: bool, bits: Seq<bool>) -> nat
    decreases bits.len(),
{
    if bits.len() == 0 {
        0
    } else if msb_first {
        2 * bits_to_nat(msb_first, bits.drop_last()) + bit_value(bits.last())
    } else {
        bit_value(bits[0]) + 2 * bits_to_nat(msb_first, bits.drop_first())
    }
}

/// The `n` low bits of `v`, laid out in the given order.
pub open spec fn nat_to_bits(msb_first: bool, n: nat, v: nat) -> Seq<bool>
    decreases n,
{
    if n == 0 {
        Seq::empty()
    } else if msb_first {
        nat_to_bits(msb_first, (n - 1) as nat, v / 2).push(v % 2 == 1)
    } else {
        seq![v % 2 == 1] + nat_to_bits(msb_first, (n - 1) as nat, v / 2)
    }
}

/// `n` copies of the bit `b`.
pub open spec fn run(n: nat, b: bool) -> Seq<bool> {
    Seq::new(n, |i: int| b)
}

/// How many bits equal to `b` stand at the front of `bits`.
pub open spec fn leading_run(bits: Seq<bool>, b: bool) -> nat
    decreases bits.len(),
{
    if bits.len() == 0 || bits[0] != b {
        0
    } else {
        1 + leading_run(bits.drop_first(), b)
    }
}

/// The bits held by a run of bytes, each byte contributing eight bits in
/// the given order.
pub open spec fn stream_bits(msb_first: bool, bytes: Seq<u8>) -> Seq<bool>
    decreases bytes.len(),
{
    if bytes.len() == 0 {
        Seq::empty()
    } else {
        nat_to_bits(msb_first, 8, bytes[0] as nat) + stream_bits(msb_first, bytes.drop_first())
    }
}

/// The number held by an accumulator of `count` bits worth `value` after a
/// field of `n` bits worth `field` has been appended behind them.
pub open spec fn append_field(msb_first: bool, value: nat, count: nat, field: nat, n: nat) -> nat {
    if msb_first {
        value * pow2(n) + field
    } else {
        value + pow2(count) * field
    }
}

/// The number spelled by the first `n` bits of an accumulator of `count`
/// bits worth `value`.
pub open spec fn front_field(msb_first: bool, value: nat, count: nat, n: nat) -> nat {
    if msb_first {
        value / pow2((count - n) as nat)
    } else {
        value % pow2(n)
    }
}

/// The number spelled by what is left of an accumulator of `count` bits
/// worth `value` once its first `n` bits are gone.
pub open spec fn back_field(msb_first: bool, value: nat, count: nat, n: nat) -> nat {
    if msb_first {
        value % pow2((count - n) as nat)
    } else {
        value / pow2(n)
    }
}

/// A sequence of `n` bits spells a number below `2^n`.
pub proof fn lemma_bits_to_nat_bound(msb_first: bool, bits: Seq<bool>)
    ensures
        bits_to_nat(msb_first, bits) < pow2(bits.len()),
    decreases bits.len(),
{
    if bits.len() == 0 {
        lemma2_to64();
    } else {
        lemma_pow2_unfold(bits.len());
        if msb_first {
            lemma_bits_to_nat_bound(msb_first, bits.drop_last());
        } else {
            lemma_bits_to_nat_bound(msb_first, bits.drop_first());
        }
    }
}

/// Laying out `n` bits gives `n` bits.
pub proof fn lemma_nat_to_bits_len(msb_first: bool, n: nat, v: nat)
    ensures
        nat_to_bits(msb_first, n, v).len() == n,
    decreases n,
{
    if n > 0 {
        lemma_nat_to_bits_len(msb_first, (n - 1) as nat, v / 2);
    }
}

/// Laying out the number that a sequence spells gives the sequence back.
pub proof fn lemma_bits_round_trip(msb_first: bool, bits: Seq<bool>)
    ensures
        nat_to_bits(msb_first, bits.len(), bits_to_nat(msb_first, bits)) == bits,
    decreases bits.len(),
{
    let n = bits.len();
    let v = bits_to_nat(msb_first, bits);
    if n == 0 {
        assert(nat_to_bits(msb_first, 0, v) =~= bits);
    } else if msb_first {
        let front = bits.drop_last();
        lemma_bits_round_trip(msb_first, front);
        assert(v / 2 == bits_to_nat(msb_first, front));
        assert((v % 2 == 1) == bits.last());
        assert(nat_to_bits(msb_first, n, v) =~= bits);
    } else {
        let back = bits.drop_first();
        lemma_bits_round_trip(msb_first, back);
        assert(v / 2 == bits_to_nat(msb_first, back));
        assert((v % 2 == 1) == bits[0]);
        assert(nat_to_bits(msb_first, n, v) =~= bits);
    }
}

/// Reading back `n` laid-out bits gives the number they were taken from,
/// reduced to `n` bits.
pub proof fn lemma_nat_round_trip(msb_first: bool, n: nat, v: nat)
    ensures
        bits_to_nat(msb_first, nat_to_bits(msb_first, n, v)) == v % pow2(n),
    decreases n,
{
    let bits = nat_to_bits(msb_first, n, v);
    if n == 0 {
        lemma2_to64();
    } else {
        let m = (n - 1) as nat;
        lemma_nat_round_trip(msb_first, m, v / 2);
        lemma_nat_to_bits_len(msb_first, m, v / 2);
        lemma_pow2_unfold(n);
        lemma_pow2_pos(m);
        let half = nat_to_bits(msb_first, m, v / 2);
        if msb_first {
            assert(bits.drop_last() =~= half);
        } else {
            assert(bits.drop_first() =~= half);
        }
        let q = (v / 2) / pow2(m);
        let r = (v / 2) % pow2(m);
        assert(v / 2 == q * pow2(m) + r) by {
            vstd::arithmetic::div_mod::lemma_fundamental_div_mod((v / 2) as int, pow2(m) as int);
            assert(pow2(m) * q == q * pow2(m)) by (nonlinear_arith);
        }
        assert(v == q * pow2(n) + (2 * r + v % 2)) by (nonlinear_arith)
            requires
                v / 2 == q * pow2(m) + r,
                pow2(n) == 2 * pow2(m),
        ;
        lemma_fundamental_div_mod_converse(v as int, pow2(n) as int, q as int, (2 * r + v % 2) as int);
    }
}

/// A number below `2^n` is spelled by its own `n` bits.
pub proof fn lemma_nat_round_trip_exact(msb_first: bool, n: nat, v: nat)
    requires
        v < pow2(n),
    ensures
        bits_to_nat(msb_first, nat_to_bits(msb_first, n, v)) == v,
{
    lemma_nat_round_trip(msb_first, n, v);
    vstd::arithmetic::div_mod::lemma_small_mod(v, pow2(n));
}

/// The number spelled by two fields in a row, from the numbers spelled by
/// each of them.
pub proof fn lemma_bits_to_nat_concat(msb_first: bool, a: Seq<bool>, b: Seq<bool>)
    ensures
        bits_to_nat(msb_first, a + b) == append_field(
            msb_first,
            bits_to_nat(msb_first, a),
            a.len(),
            bits_to_nat(msb_first, b),
            b.len(),
        ),
    decreases a.len() + b.len(),
{
    let ab = a + b;
    if msb_first {
        if b.len() == 0 {
            assert(ab =~= a);
            lemma2_to64();
        } else {
            let front = b.drop_last();
            assert(ab.drop_last() =~= a + front);
            assert(ab.last() == b.last());
            lemma_bits_to_nat_concat(msb_first, a, front);
            lemma_pow2_unfold(b.len());
            let va = bits_to_nat(msb_first, a);
            let vf = bits_to_nat(msb_first, front);
            assert(2 * (va * pow2(front.len()) + vf) == va * (2 * pow2(front.len())) + 2 * vf)
                by (nonlinear_arith);
        }
    } else {
        if a.len() == 0 {
            assert(ab =~= b);
            lemma2_to64();
        } else {
            let back = a.drop_first();
            assert(ab.drop_first() =~= back + b);
            assert(ab[0] == a[0]);
            lemma_bits_to_nat_concat(msb_first, back, b);
            lemma_pow2_unfold(a.len());
            let vk = bits_to_nat(msb_first, back);
            let vb = bits_to_nat(msb_first, b);
            assert(2 * (vk + pow2(back.len()) * vb) == 2 * vk + (2 * pow2(back.len())) * vb)
                by (nonlinear_arith);
        }
    }
}

/// Appending a field to an accumulator appends its bits: the accumulator
/// stays within its new width and lays out as the old bits followed by the
/// field's.
pub proof fn lemma_append_field(msb_first: bool, value: nat, count: nat, field: nat, n: nat)
    requires
        value < pow2(count),
        field < pow2(n),
    ensures
        append_field(msb_first, value, count, field, n) < pow2(count + n),
        nat_to_bits(msb_first, count + n, append_field(msb_first, value, count, field, n))
            == nat_to_bits(msb_first, count, value) + nat_to_bits(msb_first, n, field),
{
    let a = nat_to_bits(msb_first, count, value);
    let b = nat_to_bits(msb_first, n, field);
    lemma_nat_to_bits_len(msb_first, count, value);
    lemma_nat_to_bits_len(msb_first, n, field);
    lemma_nat_round_trip_exact(msb_first, count, value);
    lemma_nat_round_trip_exact(msb_first, n, field);
    lemma_bits_to_nat_concat(msb_first, a, b);
    lemma_bits_to_nat_bound(msb_first, a + b);
    lemma_bits_round_trip(msb_first, a + b);
}

/// Taking the first `n` bits off an accumulator splits its bits: the front
/// field and the rest each stay within their widths and lay out as the two
/// parts of the old bits.
pub proof fn lemma_split_field(msb_first: bool, value: nat, count: nat, n: nat)
    requires
        value < pow2(count),
        n <= count,
    ensures
        front_field(msb_first, value, count, n) < pow2(n),
        back_field(msb_first, value, count, n) < pow2((count - n) as nat),
        nat_to_bits(msb_first, count, value).take(n as int) == nat_to_bits(
            msb_first,
            n,
            front_field(msb_first, value, count, n),
        ),
        nat_to_bits(msb_first, count, value).skip(n as int) == nat_to_bits(
            msb_first,
            (count - n) as nat,
            back_field(msb_first, value, count, n),
        ),
        bits_to_nat(msb_first, nat_to_bits(msb_first, count, value).take(n as int)) == front_field(
            msb_first,
            value,
            count,
            n,
        ),
{
    let m = (count - n) as nat;
    let s = nat_to_bits(msb_first, count, value);
    lemma_nat_to_bits_len(msb_first, count, value);
    lemma_nat_round_trip_exact(msb_first, count, value);
    let a = s.take(n as int);
    let b = s.skip(n as int);
    assert(s =~= a + b);
    lemma_bits_to_nat_concat(msb_first, a, b);
    lemma_bits_to_nat_bound(msb_first, a);
    lemma_bits_to_nat_bound(msb_first, b);
    lemma_bits_round_trip(msb_first, a);
    lemma_bits_round_trip(msb_first, b);
    let va = bits_to_nat(msb_first, a);
    let vb = bits_to_nat(msb_first, b);
    lemma_pow2_pos(n);
    lemma_pow2_pos(m);
    if msb_first {
        lemma_fundamental_div_mod_converse(value as int, pow2(m) as int, va as int, vb as int);
    } else {
        assert(pow2(n) * vb == vb * pow2(n)) by (nonlinear_arith);
        lemma_fundamental_div_mod_converse(value as int, pow2(n) as int, vb as int, va as int);
    }
}

/// A sequence spells the largest number of its width exactly when all its
/// bits are set, and zero exactly when none is.
pub proof fn lemma_bits_to_nat_extremes(msb_first: bool, bits: Seq<bool>)
    ensures
        bits_to_nat(msb_first, bits) + 1 == pow2(bits.len()) <==> bits == run(bits.len(), true),
        bits_to_nat(msb_first, bits) == 0 <==> bits == run(bits.len(), false),
    decreases bits.len(),
{
    let n = bits.len();
    if n == 0 {
        lemma2_to64();
        assert(bits =~= run(0, true));
        assert(bits =~= run(0, false));
    } else {
        lemma_pow2_unfold(n);
        let part = if msb_first { bits.drop_last() } else { bits.drop_first() };
        let edge = if msb_first { bits.last() } else { bits[0] };
        lemma_bits_to_nat_extremes(msb_first, part);
        lemma_bits_to_nat_bound(msb_first, part);
        let m = part.len();
        if bits == run(n, true) {
            assert(part =~= run(m, true));
        }
        if bits == run(n, false) {
            assert(part =~= run(m, false));
        }
        if part == run(m, true) && edge {
            assert forall|i: int| 0 <= i < n implies bits[i] by {
                if msb_first && i < m {
                    assert(bits[i] == part[i]);
                } else if !msb_first && i > 0 {
                    assert(bits[i] == part[i - 1]);
                }
            }
            assert(bits =~= run(n, true));
        }
        if part == run(m, false) && !edge {
            assert forall|i: int| 0 <= i < n implies !bits[i] by {
                if msb_first && i < m {
                    assert(bits[i] == part[i]);
                } else if !msb_first && i > 0 {
                    assert(bits[i] == part[i - 1]);
                }
            }
            assert(bits =~= run(n, false));
        }
    }
}

/// The bits of a run of bytes number eight per byte.
pub proof fn lemma_stream_bits_len(msb_first: bool, bytes: Seq<u8>)
    ensures
        stream_bits(msb_first, bytes).len() == 8 * bytes.len(),
    decreases bytes.len(),
{
    if bytes.len() > 0 {
        lemma_nat_to_bits_len(msb_first, 8, bytes[0] as nat);
        lemma_stream_bits_len(msb_first, bytes.drop_first());
    }
}

/// The bits of two runs of bytes in a row are the bits of the first
/// followed by the bits of the second.
pub proof fn lemma_stream_bits_concat(msb_first: bool, a: Seq<u8>, b: Seq<u8>)
    ensures
        stream_bits(msb_first, a + b) == stream_bits(msb_first, a) + stream_bits(msb_first, b),
    decreases a.len(),
{
    if a.len() == 0 {
        assert(a + b =~= b);
        assert(stream_bits(msb_first, a) + stream_bits(msb_first, b) =~= stream_bits(msb_first, b));
    } else {
        assert((a + b).drop_first() =~= a.drop_first() + b);
        lemma_stream_bits_concat(msb_first, a.drop_first(), b);
        assert(stream_bits(msb_first, a + b) =~= stream_bits(msb_first, a) + stream_bits(
            msb_first,
            b,
        ));
    }
}

/// The bits of a single byte.
pub proof fn lemma_stream_bits_one(msb_first: bool, byte: u8)
    ensures
        stream_bits(msb_first, seq![byte]) == nat_to_bits(msb_first, 8, byte as nat),
{
    let s = seq![byte];
    assert(s.drop_first() =~= Seq::<u8>::empty());
    assert(stream_bits(msb_first, s.drop_first()) =~= Seq::<bool>::empty());
    assert(stream_bits(msb_first, s) =~= nat_to_bits(msb_first, 8, byte as nat));
}

/// The bits of a run of bytes with one more byte behind it.
pub proof fn lemma_stream_bits_push(msb_first: bool, bytes: Seq<u8>, byte: u8)
    ensures
        stream_bits(msb_first, bytes.push(byte)) == stream_bits(msb_first, bytes) + nat_to_bits(
            msb_first,
            8,
            byte as nat,
        ),
{
    assert(bytes.push(byte) =~= bytes + seq![byte]);
    lemma_stream_bits_concat(msb_first, bytes, seq![byte]);
    lemma_stream_bits_one(msb_first, byte);
}

/// A leading run is never longer than the sequence; the bits in it all
/// equal `b`, and the bit behind it, if there is one, does not.
pub proof fn lemma_leading_run(bits: Seq<bool>, b: bool)
    ensures
        leading_run(bits, b) <= bits.len(),
        forall|i: int| 0 <= i < leading_run(bits, b) ==> bits[i] == b,
        leading_run(bits, b) < bits.len() ==> bits[leading_run(bits, b) as int] != b,
        bits.take(leading_run(bits, b) as int) == run(leading_run(bits, b), b),
    decreases bits.len(),
{
    let k = leading_run(bits, b);
    if bits.len() == 0 || bits[0] != b {
        assert(bits.take(0) =~= run(0, b));
    } else {
        let rest = bits.drop_first();
        lemma_leading_run(rest, b);
        assert forall|i: int| 0 <= i < k implies bits[i] == b by {
            if i > 0 {
                assert(bits[i] == rest[i - 1]);
            }
        }
        assert(bits.take(k as int) =~= run(k, b));
    }
}

/// A run of `n` bits `b` in front of a sequence adds `n` to its leading run.
pub proof fn lemma_leading_run_prepend(n: nat, b: bool, rest: Seq<bool>)
    ensures
        leading_run(run(n, b) + rest, b) == n + leading_run(rest, b),
    decreases n,
{
    let s = run(n, b) + rest;
    if n == 0 {
        assert(s =~= rest);
    } else {
        assert(s.drop_first() =~= run((n - 1) as nat, b) + rest);
        lemma_leading_run_prepend((n - 1) as nat, b, rest);
    }
}

/// A sequence whose first `k` bits equal `b`, and whose next bit, if there
/// is one, does not, has a leading run of `k`.
pub proof fn lemma_leading_run_is(bits: Seq<bool>, b: bool, k: nat)
    requires
        k <= bits.len(),
        forall|i: int| 0 <= i < k ==> bits[i] == b,
        k < bits.len() ==> bits[k as int] != b,
    ensures
        leading_run(bits, b) == k,
    decreases k,
{
    if k > 0 {
        let rest = bits.drop_first();
        assert forall|i: int| 0 <= i < k - 1 implies rest[i] == b by {
            assert(rest[i] == bits[i + 1]);
        }
        lemma_leading_run_is(rest, b, (k - 1) as nat);
    }
}

/// A single bit spells its own value in either order.
pub proof fn lemma_single_bit(msb_first: bool, bits: Seq<bool>)
    requires
        bits.len() == 1,
    ensures
        bits_to_nat(msb_first, bits) == bit_value(bits[0]),
{
    if msb_first {
        assert(bits_to_nat(msb_first, bits.drop_last()) == 0);
    } else {
        assert(bits_to_nat(msb_first, bits.drop_first()) == 0);
    }
}

/// How many bytes equal to `byte` stand at the front of `bytes`.
pub open spec fn leading_bytes(bytes: Seq<u8>, byte: u8) -> nat
    decreases bytes.len(),
{
    if bytes.len() == 0 || bytes[0] != byte {
        0
    } else {
        1 + leading_bytes(bytes.drop_first(), byte)
    }
}

/// The byte whose eight bits all equal `bit`.
pub open spec fn filled_byte(bit: bool) -> u8 {
    if bit { 0xFF } else { 0x00 }
}

/// Cutting a run of bytes after `k` bytes cuts its bits after `8 * k` bits.
pub proof fn lemma_stream_bits_split(msb_first: bool, bytes: Seq<u8>, k: nat)
    requires
        k <= bytes.len(),
    ensures
        stream_bits(msb_first, bytes).take(8 * k as int) == stream_bits(msb_first, bytes.take(k as int)),
        stream_bits(msb_first, bytes).skip(8 * k as int) == stream_bits(msb_first, bytes.skip(k as int)),
{
    let a = bytes.take(k as int);
    let b = bytes.skip(k as int);
    assert(bytes =~= a + b);
    lemma_stream_bits_concat(msb_first, a, b);
    lemma_stream_bits_len(msb_first, a);
    let sa = stream_bits(msb_first, a);
    let sb = stream_bits(msb_first, b);
    assert((sa + sb).take(8 * k as int) =~= sa);
    assert((sa + sb).skip(8 * k as int) =~= sb);
}

/// The bits of a run of bytes that is not empty: those of its first byte,
/// then those of the others.
pub proof fn lemma_stream_bits_first(msb_first: bool, bytes: Seq<u8>)
    requires
        bytes.len() > 0,
    ensures
        stream_bits(msb_first, bytes) == nat_to_bits(msb_first, 8, bytes[0] as nat) + stream_bits(
            msb_first,
            bytes.skip(1),
        ),
{
    assert(bytes.drop_first() =~= bytes.skip(1));
}

/// The eight bits of a byte all equal `bit` exactly for the byte
/// `filled_byte(bit)`.
pub proof fn lemma_filled_byte(msb_first: bool, byte: u8, bit: bool)
    ensures
        nat_to_bits(msb_first, 8, byte as nat) == run(8, bit) <==> byte == filled_byte(bit),
{
    lemma2_to64();
    lemma_nat_to_bits_len(msb_first, 8, byte as nat);
    lemma_nat_round_trip_exact(msb_first, 8, byte as nat);
    lemma_bits_to_nat_extremes(msb_first, nat_to_bits(msb_first, 8, byte as nat));
}

/// The leading run of a stream of bytes: eight bits for each leading byte
/// that is filled with the bit, then the leading run of the bits that
/// follow those bytes.
pub proof fn lemma_leading_run_bytes(msb_first: bool, bytes: Seq<u8>, bit: bool, tail: Seq<bool>)
    ensures
        leading_bytes(bytes, filled_byte(bit)) <= bytes.len(),
        leading_run(stream_bits(msb_first, bytes) + tail, bit) == 8 * leading_bytes(
            bytes,
            filled_byte(bit),
        ) + leading_run(
            stream_bits(msb_first, bytes.skip(leading_bytes(bytes, filled_byte(bit)) as int)) + tail,
            bit,
        ),
    decreases bytes.len(),
{
    let k = leading_bytes(bytes, filled_byte(bit));
    if bytes.len() == 0 || bytes[0] != filled_byte(bit) {
        assert(bytes.skip(0) =~= bytes);
    } else {
        let rest = bytes.drop_first();
        lemma_leading_run_bytes(msb_first, rest, bit, tail);
        lemma_filled_byte(msb_first, bytes[0], bit);
        lemma_leading_run_prepend(8, bit, stream_bits(msb_first, rest) + tail);
        assert(stream_bits(msb_first, bytes) + tail =~= run(8, bit) + (stream_bits(msb_first, rest)
            + tail));
        assert(rest.skip(k - 1) =~= bytes.skip(k as int));
    }
}

/// The leading run of a sequence that starts with bits which do not all
/// equal `bit` lies within those bits.
pub proof fn lemma_leading_run_front(front: Seq<bool>, tail: Seq<bool>, bit: bool)
    requires
        front != run(front.len(), bit),
    ensures
        leading_run(front + tail, bit) == leading_run(front, bit),
        leading_run(front, bit) < front.len(),
{
    lemma_leading_run(front, bit);
    let k = leading_run(front, bit);
    if k == front.len() {
        assert(front =~= run(front.len(), bit));
    }
    lemma_leading_run_is(front + tail, bit, k);
}

/// A run of bytes whose first `k` bytes equal `byte`, and whose next byte,
/// if there is one, does not, starts with exactly `k` such bytes.
pub proof fn lemma_leading_bytes_is(bytes: Seq<u8>, byte: u8, k: nat)
    requires
        k <= bytes.len(),
        forall|i: int| 0 <= i < k ==> bytes[i] == byte,
        k < bytes.len() ==> bytes[k as int] != byte,
    ensures
        leading_bytes(bytes, byte) == k,
    decreases k,
{
    if k > 0 {
        let rest = bytes.drop_first();
        assert forall|i: int| 0 <= i < k - 1 implies rest[i] == byte by {
            assert(rest[i] == bytes[i + 1]);
        }
        lemma_leading_bytes_is(rest, byte, (k - 1) as nat);
    }
}

/// The leading run of the bits of a run of bytes: either every byte is
/// filled with the bit and so is the whole stream, or the run ends inside
/// the first byte that is not.
pub proof fn lemma_leading_run_stream(msb_first: bool, bytes: Seq<u8>, bit: bool)
    ensures
        ({
            let k = leading_bytes(bytes, filled_byte(bit));
            let all = stream_bits(msb_first, bytes);
            &&& k <= bytes.len()
            &&& all.len() == 8 * bytes.len()
            &&& k == bytes.len() ==> leading_run(all, bit) == all.len()
            &&& k < bytes.len() ==> {
                let one = nat_to_bits(msb_first, 8, bytes[k as int] as nat);
                let inner = leading_run(one, bit);
                &&& bytes[k as int] != filled_byte(bit)
                &&& one.len() == 8
                &&& one != run(8, bit)
                &&& inner < 8
                &&& leading_run(all, bit) == 8 * k + inner
                &&& all.skip((8 * k + inner + 1) as int) == one.skip((inner + 1) as int) + stream_bits(
                    msb_first,
                    bytes.skip((k + 1) as int),
                )
            }
        }),
{
    let k = leading_bytes(bytes, filled_byte(bit));
    let all = stream_bits(msb_first, bytes);
    let none = Seq::<bool>::empty();
    lemma_leading_run_bytes(msb_first, bytes, bit, none);
    lemma_stream_bits_len(msb_first, bytes);
    lemma_stream_bits_split(msb_first, bytes, k);
    let tail = bytes.skip(k as int);
    assert(all + none =~= all);
    assert(stream_bits(msb_first, tail) + none =~= stream_bits(msb_first, tail));
    if k < bytes.len() {
        lemma_leading_bytes_is_first(bytes, filled_byte(bit));
        let one = nat_to_bits(msb_first, 8, bytes[k as int] as nat);
        let rest = stream_bits(msb_first, bytes.skip((k + 1) as int));
        let inner = leading_run(one, bit);
        lemma_stream_bits_first(msb_first, tail);
        assert(tail.skip(1) =~= bytes.skip((k + 1) as int));
        lemma_filled_byte(msb_first, bytes[k as int], bit);
        lemma_nat_to_bits_len(msb_first, 8, bytes[k as int] as nat);
        lemma_leading_run_front(one, rest, bit);
        assert(all.skip((8 * k) as int) == one + rest);
        assert(all.skip((8 * k + inner + 1) as int) =~= all.skip((8 * k) as int).skip(
            (inner + 1) as int,
        ));
        assert((one + rest).skip((inner + 1) as int) =~= one.skip((inner + 1) as int) + rest);
    } else {
        assert(tail =~= Seq::<u8>::empty());
    }
}

/// The byte behind the leading bytes that equal `byte`, if there is one,
/// does not equal it.
pub proof fn lemma_leading_bytes_is_first(bytes: Seq<u8>, byte: u8)
    ensures
        leading_bytes(bytes, byte) <= bytes.len(),
        leading_bytes(bytes, byte) < bytes.len() ==> bytes[leading_bytes(bytes, byte) as int]
            != byte,
    decreases bytes.len(),
{
    if bytes.len() > 0 && bytes[0] == byte {
        lemma_leading_bytes_is_first(bytes.drop_first(), byte);
    }
}

/// A run of bytes whose first `k` bytes equal `byte` starts with at least
/// `k` such bytes.
pub proof fn lemma_leading_bytes_at_least(bytes: Seq<u8>, byte: u8, k: nat)
    requires
        k <= bytes.len(),
        forall|i: int| 0 <= i < k ==> bytes[i] == byte,
    ensures
        leading_bytes(bytes, byte) >= k,
    decreases k,
{
    if k > 0 {
        let rest = bytes.drop_first();
        assert forall|i: int| 0 <= i < k - 1 implies rest[i] == byte by {
            assert(rest[i] == bytes[i + 1]);
        }
        lemma_leading_bytes_at_least(rest, byte, (k - 1) as nat);
    }
}

} // verus!
