//! The unsigned LEB128 wire format as mathematics.
//!
//! An encoded integer is a run of bytes. Each byte carries seven value bits in
//! its low bits, least significant group first, and one flag in its high bit
//! that says whether another byte follows. Everything here is specification:
//! the executable code of this crate is proved against these definitions.

use vstd::prelude::*;

verus! {

/// The seven value bits that an encoded byte carries.
pub open spec fn payload(b: u8) -> nat {
    (b % 128) as nat
}

/// Whether the byte has its high bit set, announcing that another byte follows.
pub open spec fn continues(b: u8) -> bool {
    b >= 128
}

/// `128` to the power `n`: the weight of the group at index `n`.
pub open spec fn pow128(n: nat) -> nat
    decreases n,
{
    if n == 0 {
        1
    } else {
        128 * pow128((n - 1) as nat)
    }
}

/// The number that the payloads of `bytes` spell in base 128, least
/// significant group first. Continuation bits play no part in it.
pub open spec fn payloads_value(bytes: Seq<u8>) -> nat
    decreases bytes.len(),
{
    if bytes.len() == 0 {
        0
    } else {
        payload(bytes[0]) + 128 * payloads_value(bytes.drop_first())
    }
}

/// Whether every byte of `bytes` has its continuation bit set.
pub open spec fn all_continue(bytes: Seq<u8>) -> bool {
    forall|i: int| 0 <= i < bytes.len() ==> continues(#[trigger] bytes[i])
}

/// Whether `bytes` is exactly one encoded integer, minimal or not: it is not
/// empty, its last byte ends it and every byte before the last continues.
pub open spec fn is_terminated(bytes: Seq<u8>) -> bool {
    bytes.len() > 0 && all_continue(bytes.drop_last()) && !continues(bytes.last())
}

/// The number of base-128 digits of `v`, at least one: the smallest `len >= 1`
/// with `v < 128^len` (see [`lemma_encoded_len_is_least`]).
pub open spec fn encoded_len(v: nat) -> nat
    decreases v,
{
    if v < 128 {
        1
    } else {
        1 + encoded_len(v / 128)
    }
}

/// The encoding of `v`: its base-128 digits, least significant first, with the
/// continuation bit on every byte but the last.
pub open spec fn encoding(v: nat) -> Seq<u8>
    decreases v,
{
    if v < 128 {
        seq![v as u8]
    } else {
        seq![(128 + v % 128) as u8] + encoding(v / 128)
    }
}

/// The number of bytes at the front of `bytes` that have the continuation bit
/// set: the index of the first terminating byte, or the length if there is none.
pub open spec fn continued_prefix(bytes: Seq<u8>) -> nat
    decreases bytes.len(),
{
    if bytes.len() == 0 || !continues(bytes[0]) {
        0
    } else {
        1 + continued_prefix(bytes.drop_first())
    }
}

/// How the decoding of a stream ends.
pub enum Decoded {
    /// A terminating byte stands among the first `max` bytes. `value` is the
    /// number that the bytes up to and including it spell, before any
    /// truncation to an integer width.
    Value { value: nat },
    /// The first `max` bytes all continue and one more byte is there.
    TooLong,
    /// The stream ends before a terminating byte and before `max + 1` bytes.
    Starved,
}

/// What a decoder that accepts at most `max` bytes makes of `bytes`, the bytes
/// that its source can still deliver.
pub open spec fn decode(bytes: Seq<u8>, max: nat) -> Decoded {
    let k = continued_prefix(bytes) as int;
    if k < max && k < bytes.len() {
        Decoded::Value { value: payloads_value(bytes.take(k + 1)) }
    } else if bytes.len() > max {
        Decoded::TooLong
    } else {
        Decoded::Starved
    }
}

/// How many bytes of `bytes` a decoder that accepts at most `max` bytes takes
/// from its source: one encoded integer, or `max + 1` bytes where it gives up,
/// or all there is where the stream ends early.
pub open spec fn consumed(bytes: Seq<u8>, max: nat) -> nat {
    let k = continued_prefix(bytes);
    if k < max && k < bytes.len() {
        k + 1
    } else if bytes.len() > max {
        max + 1
    } else {
        bytes.len()
    }
}

/// The first values of [`pow128`], up to the weight just above 64 bits.
pub proof fn lemma_pow128_values()
    ensures
        pow128(0) == 1,
        pow128(1) == 0x80,
        pow128(2) == 0x4000,
        pow128(3) == 0x20_0000,
        pow128(4) == 0x1000_0000,
        pow128(5) == 0x8_0000_0000,
        pow128(6) == 0x400_0000_0000,
        pow128(7) == 0x2_0000_0000_0000,
        pow128(8) == 0x100_0000_0000_0000,
        pow128(9) == 0x8000_0000_0000_0000,
        pow128(10) == 0x40_0000_0000_0000_0000,
{
    reveal_with_fuel(pow128, 11);
}

/// [`pow128`] is positive and grows with its argument.
pub proof fn lemma_pow128_monotonic(m: nat, n: nat)
    requires
        m <= n,
    ensures
        0 < pow128(m) <= pow128(n),
    decreases n,
{
    if n > 0 {
        if m < n {
            lemma_pow128_monotonic(m, (n - 1) as nat);
        } else {
            lemma_pow128_monotonic((m - 1) as nat, (n - 1) as nat);
        }
    }
}

/// Appending a byte adds its payload at the weight of its index.
pub proof fn lemma_value_push(bytes: Seq<u8>, b: u8)
    ensures
        payloads_value(bytes.push(b)) == payloads_value(bytes) + payload(b) * pow128(bytes.len()),
    decreases bytes.len(),
{
    let longer = bytes.push(b);
    let p = payload(b);
    if bytes.len() == 0 {
        assert(longer.drop_first() =~= Seq::<u8>::empty());
        assert(payloads_value(longer) == p + 128 * payloads_value(longer.drop_first()));
        let w = pow128(0);
        assert(p * w == p) by (nonlinear_arith)
            requires
                w == 1,
        ;
    } else {
        let tail = bytes.drop_first();
        assert(longer.drop_first() =~= tail.push(b));
        lemma_value_push(tail, b);
        let w = pow128(tail.len());
        assert(pow128(bytes.len()) == 128 * w);
        assert(128 * (p * w) == p * (128 * w)) by (nonlinear_arith);
        assert(payloads_value(longer) == payload(bytes[0]) + 128 * payloads_value(tail.push(b)));
    }
}

/// The payloads of `n` bytes spell a number below `128^n`.
pub proof fn lemma_value_bound(bytes: Seq<u8>)
    ensures
        payloads_value(bytes) < pow128(bytes.len()),
    decreases bytes.len(),
{
    if bytes.len() > 0 {
        lemma_value_bound(bytes.drop_first());
    }
}

/// The value of a longer prefix is the value of the shorter one plus the
/// payload of the next byte at its weight.
pub proof fn lemma_value_take_next(bytes: Seq<u8>, n: int)
    requires
        0 <= n < bytes.len(),
    ensures
        payloads_value(bytes.take(n + 1)) == payloads_value(bytes.take(n)) + payload(bytes[n])
            * pow128(n as nat),
{
    assert(bytes.take(n + 1) =~= bytes.take(n).push(bytes[n]));
    lemma_value_push(bytes.take(n), bytes[n]);
}

/// [`continued_prefix`] said with quantifiers: it is the one `k` such that the
/// first `k` bytes all continue and the byte at `k`, if there is one, does not.
pub proof fn lemma_continued_prefix_is(bytes: Seq<u8>, k: nat)
    requires
        k <= bytes.len(),
        all_continue(bytes.take(k as int)),
        k < bytes.len() ==> !continues(bytes[k as int]),
    ensures
        continued_prefix(bytes) == k,
    decreases bytes.len(),
{
    if k == 0 {
    } else {
        assert(bytes.take(k as int)[0] == bytes[0]);
        let tail = bytes.drop_first();
        assert forall|i: int| 0 <= i < k - 1 implies continues(
            #[trigger] tail.take(k - 1)[i],
        ) by {
            assert(tail.take(k - 1)[i] == bytes.take(k as int)[i + 1]);
        }
        lemma_continued_prefix_is(tail, (k - 1) as nat);
    }
}

/// What [`continued_prefix`] returns: that many bytes at the front all
/// continue, and the byte behind them, if there is one, does not.
pub proof fn lemma_continued_prefix_props(bytes: Seq<u8>)
    ensures
        continued_prefix(bytes) <= bytes.len(),
        all_continue(bytes.take(continued_prefix(bytes) as int)),
        continued_prefix(bytes) < bytes.len() ==> !continues(
            bytes[continued_prefix(bytes) as int],
        ),
    decreases bytes.len(),
{
    if bytes.len() == 0 || !continues(bytes[0]) {
    } else {
        let tail = bytes.drop_first();
        lemma_continued_prefix_props(tail);
        let k = continued_prefix(tail) as int;
        assert forall|i: int| 0 <= i < k + 1 implies continues(
            #[trigger] bytes.take(k + 1)[i],
        ) by {
            if i > 0 {
                assert(bytes.take(k + 1)[i] == tail.take(k)[i - 1]);
            }
        }
    }
}

/// A stream that starts with one encoded integer of `n` bytes, be it the
/// shortest encoding of its value or a longer one, decodes to the number that
/// its payloads spell when `n` is no more than `max`; those `n` bytes are all
/// that the decoder takes.
pub proof fn lemma_decode_terminated(bytes: Seq<u8>, n: int, max: nat)
    requires
        1 <= n <= max,
        n <= bytes.len(),
        is_terminated(bytes.take(n)),
    ensures
        decode(bytes, max) == (Decoded::Value { value: payloads_value(bytes.take(n)) }),
        consumed(bytes, max) == n,
{
    let head = bytes.take(n);
    assert(head.drop_last() == bytes.take(n - 1));
    assert(head.last() == bytes[n - 1]);
    lemma_continued_prefix_is(bytes, (n - 1) as nat);
}

/// A stream whose first `max` bytes all continue, with one more byte behind
/// them, is rejected as too long, whatever that byte is, and `max + 1` bytes
/// are taken from it.
pub proof fn lemma_decode_too_long(bytes: Seq<u8>, max: nat)
    requires
        bytes.len() > max,
        all_continue(bytes.take(max as int)),
    ensures
        decode(bytes, max) == Decoded::TooLong,
        consumed(bytes, max) == max + 1,
{
    lemma_continued_prefix_props(bytes);
    let k = continued_prefix(bytes) as int;
    if k < max {
        assert(bytes.take(max as int)[k] == bytes[k]);
    }
}

/// A stream of at most `max` bytes that all continue ends before its integer
/// does: the decoder takes every byte and then meets the failure of the
/// source, not an integer that is too long.
pub proof fn lemma_decode_starved(bytes: Seq<u8>, max: nat)
    requires
        bytes.len() <= max,
        all_continue(bytes),
    ensures
        decode(bytes, max) == Decoded::Starved,
        consumed(bytes, max) == bytes.len(),
{
    assert(bytes.take(bytes.len() as int) == bytes);
    lemma_continued_prefix_is(bytes, bytes.len());
}

/// A run of continuing bytes stays one when a continuing byte follows it.
pub proof fn lemma_all_continue_next(bytes: Seq<u8>, n: int)
    requires
        0 <= n < bytes.len(),
        all_continue(bytes.take(n)),
        continues(bytes[n]),
    ensures
        all_continue(bytes.take(n + 1)),
{
    assert forall|i: int| 0 <= i < n + 1 implies continues(#[trigger] bytes.take(n + 1)[i]) by {
        if i < n {
            assert(bytes.take(n + 1)[i] == bytes.take(n)[i]);
        }
    }
}

/// [`encoded_len`] is the smallest length, at least one, whose weight exceeds
/// the value: any `len` with `128^(len - 1) <= v < 128^len` is it.
pub proof fn lemma_encoded_len_is_least(v: nat, len: nat)
    requires
        len >= 1,
        v < pow128(len),
        len > 1 ==> v >= pow128((len - 1) as nat),
    ensures
        encoded_len(v) == len,
    decreases len,
{
    reveal_with_fuel(pow128, 3);
    if len > 1 {
        lemma_pow128_monotonic(1, (len - 1) as nat);
        lemma_encoded_len_is_least(v / 128, (len - 1) as nat);
    }
}

/// The value lies between the weight of its last digit and the next weight.
pub proof fn lemma_encoded_len_bounds(v: nat)
    ensures
        encoded_len(v) >= 1,
        v < pow128(encoded_len(v)),
        encoded_len(v) > 1 ==> v >= pow128((encoded_len(v) - 1) as nat),
    decreases v,
{
    reveal_with_fuel(pow128, 3);
    if v >= 128 {
        lemma_encoded_len_bounds(v / 128);
    }
}

/// The encoding of a value has as many bytes as the value has digits.
pub proof fn lemma_encoding_len(v: nat)
    ensures
        encoding(v).len() == encoded_len(v),
    decreases v,
{
    if v >= 128 {
        lemma_encoding_len(v / 128);
    }
}

/// The encoding of a value is one encoded integer: every byte but its last
/// continues, and its last does not.
pub proof fn lemma_encoding_terminated(v: nat)
    ensures
        is_terminated(encoding(v)),
    decreases v,
{
    let e = encoding(v);
    if v < 128 {
        assert(e.drop_last() =~= Seq::<u8>::empty());
    } else {
        let rest = encoding(v / 128);
        lemma_encoding_terminated(v / 128);
        assert(e.last() == rest.last());
        assert forall|i: int| 0 <= i < e.len() - 1 implies continues(#[trigger] e.drop_last()[i]) by {
            if i > 0 {
                assert(e.drop_last()[i] == rest.drop_last()[i - 1]);
            }
        }
    }
}

/// The payloads of the encoding of a value spell that value.
pub proof fn lemma_encoding_value(v: nat)
    ensures
        payloads_value(encoding(v)) == v,
    decreases v,
{
    let e = encoding(v);
    if v < 128 {
        assert(e.drop_first() =~= Seq::<u8>::empty());
        assert(payloads_value(e) == payload(e[0]) + 128 * payloads_value(e.drop_first()));
    } else {
        lemma_encoding_value(v / 128);
        assert(e.drop_first() =~= encoding(v / 128));
        assert(payloads_value(e) == payload(e[0]) + 128 * payloads_value(e.drop_first()));
    }
}

/// The last byte of the encoding of a value other than zero carries a digit
/// that is not zero, and only an encoding of one byte can be that of zero.
pub proof fn lemma_encoding_minimal(v: nat)
    ensures
        v > 0 ==> payload(encoding(v).last()) != 0,
        encoding(v).len() > 1 ==> v > 0,
    decreases v,
{
    if v >= 128 {
        lemma_encoding_minimal(v / 128);
        lemma_encoding_len(v / 128);
        assert(encoding(v).last() == encoding(v / 128).last());
    }
}

/// A value of 32 bits has at most five digits, one of 64 bits at most ten.
pub proof fn lemma_encoded_len_of_width(v: nat)
    ensures
        v <= u32::MAX ==> encoded_len(v) <= 5,
        v <= u64::MAX ==> encoded_len(v) <= 10,
{
    lemma_pow128_values();
    lemma_encoded_len_bounds(v);
    let len = encoded_len(v);
    if v <= u32::MAX && len > 5 {
        lemma_pow128_monotonic(5, (len - 1) as nat);
    }
    if v <= u64::MAX && len > 10 {
        lemma_pow128_monotonic(10, (len - 1) as nat);
    }
}

} // verus!
