//! What holds between writing, reading and the lengths, for every value and
//! every stream.

use crate::error::Error;
use crate::format::{
    all_continue, consumed, encoded_len, encoding, is_terminated, lemma_decode_starved,
    lemma_decode_terminated, lemma_decode_too_long, lemma_encoded_len_bounds,
    lemma_encoded_len_of_width, lemma_encoding_len, lemma_encoding_minimal,
    lemma_encoding_terminated, lemma_encoding_value, lemma_pow128_monotonic, lemma_value_bound,
    payload, payloads_value, pow128,
};
use crate::io::{read_u32_result, read_u64_result};
use vstd::prelude::*;

verus! {

/// Reading gives back what writing wrote: a stream that starts with the
/// encoding of `v` reads as `v`, whatever follows the encoding, and the read
/// takes the bytes of the encoding and no more.
pub proof fn theorem_round_trip_u32<E>(v: u32, rest: Seq<u8>, failure: E)
    ensures
        read_u32_result(encoding(v as nat) + rest, failure) matches Ok(read) && read == v,
        consumed(encoding(v as nat) + rest, 5) == encoding(v as nat).len(),
{
    let e = encoding(v as nat);
    lemma_encoded_len_of_width(v as nat);
    lemma_encoding_len(v as nat);
    lemma_encoding_terminated(v as nat);
    lemma_encoding_value(v as nat);
    assert((e + rest).take(e.len() as int) == e);
    lemma_decode_terminated(e + rest, e.len() as int, 5);
}

/// Reading gives back what writing wrote: a stream that starts with the
/// encoding of `v` reads as `v`, whatever follows the encoding, and the read
/// takes the bytes of the encoding and no more.
pub proof fn theorem_round_trip_u64<E>(v: u64, rest: Seq<u8>, failure: E)
    ensures
        read_u64_result(encoding(v as nat) + rest, failure) matches Ok(read) && read == v,
        consumed(encoding(v as nat) + rest, 10) == encoding(v as nat).len(),
{
    let e = encoding(v as nat);
    lemma_encoded_len_of_width(v as nat);
    lemma_encoding_len(v as nat);
    lemma_encoding_terminated(v as nat);
    lemma_encoding_value(v as nat);
    assert((e + rest).take(e.len() as int) == e);
    lemma_decode_terminated(e + rest, e.len() as int, 10);
}

/// What is written is as short as can be: the encoding of `v` has as many
/// bytes as `v` has base-128 digits, it is one encoded integer, and unless it
/// is a single byte its last byte carries a digit other than zero, so that no
/// group of zeros trails it.
pub proof fn theorem_encoding_is_minimal(v: nat)
    ensures
        encoding(v).len() == encoded_len(v),
        is_terminated(encoding(v)),
        encoding(v).len() > 1 ==> payload(encoding(v).last()) != 0,
{
    lemma_encoding_len(v);
    lemma_encoding_terminated(v);
    lemma_encoding_minimal(v);
}

/// No run of bytes is shorter than the encoding of the number that its
/// payloads spell.
pub proof fn theorem_encoding_is_shortest(bytes: Seq<u8>)
    requires
        bytes.len() > 0,
    ensures
        encoding(payloads_value(bytes)).len() <= bytes.len(),
{
    let v = payloads_value(bytes);
    lemma_encoding_len(v);
    lemma_encoded_len_bounds(v);
    lemma_value_bound(bytes);
    if bytes.len() < encoded_len(v) {
        lemma_pow128_monotonic(bytes.len(), (encoded_len(v) - 1) as nat);
    }
}

/// The wire format: the byte at index `i` of the encoding of `v` carries the
/// bits of `v` from `7 * i` on, seven of them, as digit `i` of `v` in base 128.
pub proof fn theorem_encoding_digits(v: nat, i: nat)
    requires
        i < encoded_len(v),
    ensures
        i < encoding(v).len(),
        payload(encoding(v)[i as int]) == (v / pow128(i)) % 128,
    decreases i,
{
    lemma_encoding_len(v);
    if i == 0 {
        assert(pow128(0) == 1);
    } else {
        theorem_encoding_digits(v / 128, (i - 1) as nat);
        let w = pow128((i - 1) as nat);
        lemma_pow128_monotonic(0, (i - 1) as nat);
        assert(pow128(i) == 128 * w);
        assert(encoding(v)[i as int] == encoding(v / 128)[i - 1]);
        assert((v / 128) / w == v / (128 * w)) by (nonlinear_arith)
            requires
                w > 0,
        ;
    }
}

/// Reading accepts any encoded integer within the length limit, shortest or
/// not: a stream that starts with `n` bytes of which only the last does not
/// continue reads as the number that their payloads spell, cut to the width.
pub proof fn theorem_terminated_is_read<E>(bytes: Seq<u8>, n: int, failure: E)
    requires
        1 <= n <= bytes.len(),
        is_terminated(bytes.take(n)),
    ensures
        n <= 5 ==> (read_u32_result(bytes, failure) matches Ok(read) && read == payloads_value(
            bytes.take(n),
        ) % 0x1_0000_0000 && consumed(bytes, 5) == n),
        n <= 10 ==> (read_u64_result(bytes, failure) matches Ok(read) && read == payloads_value(
            bytes.take(n),
        ) % 0x1_0000_0000_0000_0000 && consumed(bytes, 10) == n),
{
    if n <= 5 {
        lemma_decode_terminated(bytes, n, 5);
    }
    if n <= 10 {
        lemma_decode_terminated(bytes, n, 10);
    }
}

/// Reading rejects an integer that goes on past the length limit: where the
/// first five bytes (ten, for 64 bits) all continue and another byte follows,
/// the read fails with the limit and has taken that byte too.
pub proof fn theorem_overlong_is_rejected<E>(bytes: Seq<u8>, failure: E)
    ensures
        bytes.len() > 5 && all_continue(bytes.take(5)) ==> (read_u32_result(bytes, failure) matches Err(
            Error::LengthOverflow(max),
        ) && max == 5 && consumed(bytes, 5) == 6),
        bytes.len() > 10 && all_continue(bytes.take(10)) ==> (read_u64_result(
            bytes,
            failure,
        ) matches Err(Error::LengthOverflow(max)) && max == 10 && consumed(bytes, 10) == 11),
{
    if bytes.len() > 5 && all_continue(bytes.take(5)) {
        lemma_decode_too_long(bytes, 5);
    }
    if bytes.len() > 10 && all_continue(bytes.take(10)) {
        lemma_decode_too_long(bytes, 10);
    }
}

/// Reading from a stream that ends too early fails with the failure of the
/// source, not with a length overflow: where at most five bytes (ten, for 64
/// bits) are left and all of them continue, the read takes them all and
/// returns the failure that the source gave.
pub proof fn theorem_truncated_is_io_failure<E>(bytes: Seq<u8>, failure: E)
    requires
        all_continue(bytes),
    ensures
        bytes.len() <= 5 ==> (read_u32_result(bytes, failure) matches Err(Error::Io(cause))
            && cause == failure && consumed(bytes, 5) == bytes.len()),
        bytes.len() <= 10 ==> (read_u64_result(bytes, failure) matches Err(Error::Io(cause))
            && cause == failure && consumed(bytes, 10) == bytes.len()),
{
    if bytes.len() <= 5 {
        lemma_decode_starved(bytes, 5);
    }
    if bytes.len() <= 10 {
        lemma_decode_starved(bytes, 10);
    }
}

} // verus!
