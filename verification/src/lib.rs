//! Reading and writing of unsigned integers in the unsigned LEB128 encoding.
//!
//! An integer is written as its base-128 digits, least significant first, one
//! digit in the low seven bits of each byte; the high bit of a byte is set
//! while more bytes follow. [`WriteULeb128Ext`] writes the shortest such run
//! of bytes to any [`ByteSink`], [`ReadULeb128Ext`] reads one run, shortest or
//! not, from any [`ByteSource`], and [`uleb128_u32_len`] and
//! [`uleb128_u64_len`] tell how many bytes a value takes.
//!
//! The module [`format`] defines the encoding as mathematics, and [`laws`]
//! proves what ties writing, reading and the lengths together.

use vstd::prelude::*;

mod bits;
pub mod error;
pub mod format;
pub mod io;
pub mod laws;
pub mod stream;

pub use crate::error::Error;
pub use crate::io::{ReadULeb128Ext, WriteULeb128Ext};
pub use crate::stream::{ByteSink, ByteSource, EndOfInput, OutOfRoom};

use crate::bits::lemma_shifted_one;
use crate::format::{
    encoded_len, encoding, lemma_encoded_len_is_least, lemma_encoding_len, lemma_pow128_monotonic,
    lemma_pow128_values, pow128,
};

verus! {

/// Most bytes that the encoding of a 32-bit value takes.
pub const ULEB128_U32_MAX_LENGTH: usize = 5;

/// Most bytes that the encoding of a 64-bit value takes.
pub const ULEB128_U64_MAX_LENGTH: usize = 10;

/// The largest value whose encoding fits in `len` bytes: `128^len - 1`.
///
/// `len` is at most nine: ten bytes hold more than a `u64` does.
pub fn max_value(len: usize) -> (max: u64)
    requires
        len <= 9,
    ensures
        max == pow128(len as nat) - 1,
{
    proof {
        lemma_shifted_one(len);
        lemma_pow128_monotonic(0, len as nat);
    }
    (1u64 << (7 * len)) - 1
}

/// The number of bytes that the encoding of `n` takes.
///
/// It is the smallest length from one to five whose largest value is not
/// below `n`, and five for what lies above the largest value of four bytes.
pub fn uleb128_u32_len(n: u32) -> (len: usize)
    ensures
        len == encoded_len(n as nat),
        len == encoding(n as nat).len(),
        1 <= len <= ULEB128_U32_MAX_LENGTH,
        n < pow128(len as nat),
        len > 1 ==> n >= pow128((len - 1) as nat),
{
    proof {
        lemma_encoding_len(n as nat);
    }
    for len in 1..ULEB128_U32_MAX_LENGTH
        invariant
            encoding(n as nat).len() == encoded_len(n as nat),
            len > 1 ==> n >= pow128((len - 1) as nat),
    {
        proof {
            lemma_pow128_values();
            lemma_pow128_monotonic(len as nat, 4);
        }
        if n <= max_value(len) as u32 {
            proof {
                lemma_encoded_len_is_least(n as nat, len as nat);
            }
            return len;
        }
    }
    proof {
        lemma_pow128_values();
        lemma_encoded_len_is_least(n as nat, 5);
    }
    ULEB128_U32_MAX_LENGTH
}

/// The number of bytes that the encoding of `n` takes.
///
/// It is the smallest length from one to ten whose largest value is not below
/// `n`, and ten for what lies above the largest value of nine bytes.
pub fn uleb128_u64_len(n: u64) -> (len: usize)
    ensures
        len == encoded_len(n as nat),
        len == encoding(n as nat).len(),
        1 <= len <= ULEB128_U64_MAX_LENGTH,
        n < pow128(len as nat),
        len > 1 ==> n >= pow128((len - 1) as nat),
{
    proof {
        lemma_encoding_len(n as nat);
    }
    for len in 1..ULEB128_U64_MAX_LENGTH
        invariant
            encoding(n as nat).len() == encoded_len(n as nat),
            len > 1 ==> n >= pow128((len - 1) as nat),
    {
        if n <= max_value(len) {
            proof {
                lemma_encoded_len_is_least(n as nat, len as nat);
            }
            return len;
        }
    }
    proof {
        lemma_pow128_values();
        lemma_encoded_len_is_least(n as nat, 10);
    }
    ULEB128_U64_MAX_LENGTH
}

} // verus!
