//! What holds between writing and reading: a field, a signed field or a
//! unary run length that is written is the one that is read back, and a
//! stream that is aligned ends at a byte boundary.

use vstd::prelude::*;
use vstd::arithmetic::power2::{pow2, lemma_pow2_unfold, lemma_pow2_pos};
use crate::bits::{
    bits_to_nat, nat_to_bits, run, leading_run, stream_bits, lemma_nat_to_bits_len,
    lemma_nat_round_trip_exact, lemma_leading_run_prepend, lemma_stream_bits_len,
};
use crate::numeric::{Numeric, twos_complement, signed_value, fits_signed};
use crate::write::{fits_field, unary_bits, padding};

verus! {

/// A field that is written is the field that is read back: where the
/// unread bits start with the `n` bits written for `v`, the next `n` bits
/// spell `v`, and the bits behind them are those that followed the field.
pub proof fn lemma_field_round_trip(msb_first: bool, n: nat, v: nat, rest: Seq<bool>)
    requires
        v < pow2(n),
    ensures
        n <= (nat_to_bits(msb_first, n, v) + rest).len(),
        bits_to_nat(msb_first, (nat_to_bits(msb_first, n, v) + rest).take(n as int)) == v,
        (nat_to_bits(msb_first, n, v) + rest).skip(n as int) == rest,
{
    let field = nat_to_bits(msb_first, n, v);
    lemma_nat_to_bits_len(msb_first, n, v);
    lemma_nat_round_trip_exact(msb_first, n, v);
    assert((field + rest).take(n as int) =~= field);
    assert((field + rest).skip(n as int) =~= rest);
}

/// A value that is written as a field of `bits` bits is the value that is
/// read back from such a field: a value `result` of the same type whose
/// pattern the written bits spell is `value` itself.
pub proof fn lemma_value_round_trip<U: Numeric>(
    msb_first: bool,
    bits: u32,
    value: U,
    result: U,
    rest: Seq<bool>,
)
    requires
        fits_field(bits, value),
        result.pattern() == bits_to_nat(
            msb_first,
            (nat_to_bits(msb_first, bits as nat, value.pattern()) + rest).take(bits as int),
        ),
    ensures
        result == value,
{
    lemma_field_round_trip(msb_first, bits as nat, value.pattern(), rest);
    U::lemma_pattern_injective(result, value);
}

/// A signed value that is written as a two's-complement field is the
/// value that is read back from it.
pub proof fn lemma_signed_round_trip(msb_first: bool, bits: nat, value: int, rest: Seq<bool>)
    requires
        fits_signed(bits, value),
    ensures
        twos_complement(bits, value) < pow2(bits),
        signed_value(
            bits,
            bits_to_nat(
                msb_first,
                (nat_to_bits(msb_first, bits, twos_complement(bits, value)) + rest).take(
                    bits as int,
                ),
            ),
        ) == value,
{
    lemma_pow2_unfold(bits);
    lemma_pow2_pos((bits - 1) as nat);
    lemma_field_round_trip(msb_first, bits, twos_complement(bits, value), rest);
}

/// A unary run length that is written is the one that is read back: where
/// the unread bits start with the bits written for `n`, their leading run
/// has length `n`, and behind it and the bit that ends it come the bits
/// that followed.
pub proof fn lemma_unary_round_trip(n: nat, bit: bool, rest: Seq<bool>)
    ensures
        leading_run(unary_bits(n, bit) + rest, bit) == n,
        n < (unary_bits(n, bit) + rest).len(),
        (unary_bits(n, bit) + rest).skip(n + 1 as int) == rest,
{
    let tail = seq![!bit] + rest;
    lemma_leading_run_prepend(n, bit, tail);
    assert(unary_bits(n, bit) + rest =~= run(n, bit) + tail);
    assert(leading_run(tail, bit) == 0);
    assert((unary_bits(n, bit) + rest).skip(n + 1 as int) =~= rest);
}

/// Aligning adds the fewest bits that bring the stream to a byte
/// boundary: fewer than eight, none where it stands at one already, and
/// as many as make the length a multiple of eight.
pub proof fn lemma_padding(len: nat)
    ensures
        padding(len) < 8,
        (len + padding(len)) % 8 == 0,
        len % 8 == 0 <==> padding(len) == 0,
        padding(len % 8) == padding(len),
{
}

/// A stream that stands at a byte boundary is the bits of its bytes: what
/// a reader over the bytes of an aligned writer has to read is what was
/// written.
pub proof fn lemma_aligned_stream(msb_first: bool, bytes: Seq<u8>, unwritten: Seq<bool>)
    requires
        unwritten.len() == 0,
    ensures
        stream_bits(msb_first, bytes) + unwritten == stream_bits(msb_first, bytes),
        (stream_bits(msb_first, bytes) + unwritten).len() % 8 == 0,
{
    lemma_stream_bits_len(msb_first, bytes);
    assert(stream_bits(msb_first, bytes) + unwritten =~= stream_bits(msb_first, bytes));
}

} // verus!
