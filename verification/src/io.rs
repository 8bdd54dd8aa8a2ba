//! Reading and writing unsigned LEB128 integers on byte sources and sinks.

use crate::bits::{
    lemma_accumulate_u32, lemma_accumulate_u64, lemma_byte_parts, lemma_split_u32, lemma_split_u64,
};
use crate::error::Error;
use crate::format::{
    all_continue, consumed, decode, encoding, lemma_all_continue_next, lemma_decode_starved,
    lemma_decode_terminated, lemma_decode_too_long, lemma_pow128_monotonic, lemma_pow128_values,
    lemma_value_bound, lemma_value_take_next, payloads_value, Decoded,
};
use crate::stream::{ByteSink, ByteSource};
use crate::{ULEB128_U32_MAX_LENGTH, ULEB128_U64_MAX_LENGTH};
use vstd::prelude::*;

verus! {

const VALUE_MASK: u8 = 0b0111_1111;

const VALUE_LENGTH: usize = 7;

/// What reading a 32-bit integer returns on a source with these pending bytes
/// and this failure: the decoded number cut to 32 bits, or the error.
pub open spec fn read_u32_result<E>(pending: Seq<u8>, failure: E) -> Result<u32, Error<E>> {
    match decode(pending, ULEB128_U32_MAX_LENGTH as nat) {
        Decoded::Value { value } => Ok((value % 0x1_0000_0000) as u32),
        Decoded::TooLong => Err(Error::LengthOverflow(ULEB128_U32_MAX_LENGTH)),
        Decoded::Starved => Err(Error::Io(failure)),
    }
}

/// What reading a 64-bit integer returns on a source with these pending bytes
/// and this failure: the decoded number cut to 64 bits, or the error.
pub open spec fn read_u64_result<E>(pending: Seq<u8>, failure: E) -> Result<u64, Error<E>> {
    match decode(pending, ULEB128_U64_MAX_LENGTH as nat) {
        Decoded::Value { value } => Ok((value % 0x1_0000_0000_0000_0000) as u64),
        Decoded::TooLong => Err(Error::LengthOverflow(ULEB128_U64_MAX_LENGTH)),
        Decoded::Starved => Err(Error::Io(failure)),
    }
}

/// One step of reading 32 bits: with the first `n` bytes of `bytes` in
/// `value`, OR-ing in the payload of the next byte at its place gives the
/// number that the first `n + 1` bytes spell, cut to 32 bits; before the
/// fifth byte nothing is cut.
proof fn lemma_read_step_u32(bytes: Seq<u8>, n: int, value: u32, shift: usize)
    requires
        0 <= n < 5,
        n < bytes.len(),
        shift == 7 * n,
        value == payloads_value(bytes.take(n)),
    ensures
        value | (((bytes[n] & 0x7f) as u32) << shift) == payloads_value(bytes.take(n + 1))
            % 0x1_0000_0000,
        n < 4 ==> payloads_value(bytes.take(n + 1)) < 0x1_0000_0000,
{
    lemma_pow128_values();
    lemma_value_bound(bytes.take(n));
    lemma_value_bound(bytes.take(n + 1));
    lemma_value_take_next(bytes, n);
    lemma_accumulate_u32(value, bytes[n], shift, n as nat);
    if n < 4 {
        lemma_pow128_monotonic((n + 1) as nat, 4);
    }
}

/// One step of reading 64 bits: with the first `n` bytes of `bytes` in
/// `value`, OR-ing in the payload of the next byte at its place gives the
/// number that the first `n + 1` bytes spell, cut to 64 bits; before the
/// tenth byte nothing is cut.
proof fn lemma_read_step_u64(bytes: Seq<u8>, n: int, value: u64, shift: usize)
    requires
        0 <= n < 10,
        n < bytes.len(),
        shift == 7 * n,
        value == payloads_value(bytes.take(n)),
    ensures
        value | (((bytes[n] & 0x7f) as u64) << shift) == payloads_value(bytes.take(n + 1))
            % 0x1_0000_0000_0000_0000,
        n < 9 ==> payloads_value(bytes.take(n + 1)) < 0x1_0000_0000_0000_0000,
{
    lemma_pow128_values();
    lemma_value_bound(bytes.take(n));
    lemma_value_bound(bytes.take(n + 1));
    lemma_value_take_next(bytes, n);
    lemma_accumulate_u64(value, bytes[n], shift, n as nat);
    if n < 9 {
        lemma_pow128_monotonic((n + 1) as nat, 9);
    }
}

/// Reading unsigned LEB128 integers from any byte source.
pub trait ReadULeb128Ext: ByteSource {
    /// Reads one encoded 32-bit integer from the source.
    ///
    /// The source is asked for one byte at a time, and for no byte past the
    /// one that ends the integer. An encoding longer than the shortest one is
    /// read like any other; of the payloads, what passes bit 31 is dropped.
    ///
    /// # Errors
    ///
    /// [`Error::Io`] with the failure of the source, where the source fails
    /// before the integer ends. [`Error::LengthOverflow`] with
    /// [`ULEB128_U32_MAX_LENGTH`], where five bytes have been read, all of
    /// them continue and the source delivers yet another.
    fn read_uleb128_u32(&mut self) -> (r: Result<u32, Error<Self::Failure>>)
        ensures
            r == read_u32_result(old(self).pending(), old(self).failure()),
            final(self).pending() == old(self).pending().skip(
                consumed(old(self).pending(), ULEB128_U32_MAX_LENGTH as nat) as int,
            ),
            final(self).failure() == old(self).failure(),
    {
        let ghost bytes = old(self).pending();
        let mut value: u32 = 0;
        let mut bytes_read: usize = 0;

        loop
            invariant
                bytes == old(self).pending(),
                bytes_read <= 5,
                bytes_read <= bytes.len(),
                all_continue(bytes.take(bytes_read as int)),
                self.pending() == bytes.skip(bytes_read as int),
                self.failure() == old(self).failure(),
                bytes_read < 5 ==> value == payloads_value(bytes.take(bytes_read as int)),
            decreases 6 - bytes_read,
        {
            let byte = match self.read_byte() {
                Ok(byte) => byte,
                Err(e) => {
                    proof {
                        assert(bytes.take(bytes_read as int) == bytes);
                        lemma_decode_starved(bytes, 5);
                    }
                    return Err(Error::Io(e));
                },
            };
            assert(self.pending() == bytes.skip(bytes_read + 1));
            if bytes_read >= ULEB128_U32_MAX_LENGTH {
                proof {
                    lemma_decode_too_long(bytes, 5);
                }
                return Err(Error::LengthOverflow(ULEB128_U32_MAX_LENGTH));
            }
            let byte_value = (byte & VALUE_MASK) as u32;
            proof {
                lemma_byte_parts(byte);
                lemma_read_step_u32(
                    bytes,
                    bytes_read as int,
                    value,
                    (VALUE_LENGTH * bytes_read) as usize,
                );
            }
            value |= byte_value << (VALUE_LENGTH * bytes_read);

            bytes_read += 1;

            if (byte & !VALUE_MASK) == 0 {
                proof {
                    let head = bytes.take(bytes_read as int);
                    assert(head.drop_last() == bytes.take(bytes_read - 1));
                    lemma_decode_terminated(bytes, bytes_read as int, 5);
                }
                return Ok(value);
            }
            proof {
                lemma_all_continue_next(bytes, bytes_read - 1);
            }
        }
    }

    /// Reads one encoded 64-bit integer from the source.
    ///
    /// The source is asked for one byte at a time, and for no byte past the
    /// one that ends the integer. An encoding longer than the shortest one is
    /// read like any other; of the payloads, what passes bit 63 is dropped.
    ///
    /// # Errors
    ///
    /// [`Error::Io`] with the failure of the source, where the source fails
    /// before the integer ends. [`Error::LengthOverflow`] with
    /// [`ULEB128_U64_MAX_LENGTH`], where ten bytes have been read, all of
    /// them continue and the source delivers yet another.
    fn read_uleb128_u64(&mut self) -> (r: Result<u64, Error<Self::Failure>>)
        ensures
            r == read_u64_result(old(self).pending(), old(self).failure()),
            final(self).pending() == old(self).pending().skip(
                consumed(old(self).pending(), ULEB128_U64_MAX_LENGTH as nat) as int,
            ),
            final(self).failure() == old(self).failure(),
    {
        let ghost bytes = old(self).pending();
        let mut value: u64 = 0;
        let mut bytes_read: usize = 0;

        loop
            invariant
                bytes == old(self).pending(),
                bytes_read <= 10,
                bytes_read <= bytes.len(),
                all_continue(bytes.take(bytes_read as int)),
                self.pending() == bytes.skip(bytes_read as int),
                self.failure() == old(self).failure(),
                bytes_read < 10 ==> value == payloads_value(bytes.take(bytes_read as int)),
            decreases 11 - bytes_read,
        {
            let byte = match self.read_byte() {
                Ok(byte) => byte,
                Err(e) => {
                    proof {
                        assert(bytes.take(bytes_read as int) == bytes);
                        lemma_decode_starved(bytes, 10);
                    }
                    return Err(Error::Io(e));
                },
            };
            assert(self.pending() == bytes.skip(bytes_read + 1));
            if bytes_read >= ULEB128_U64_MAX_LENGTH {
                proof {
                    lemma_decode_too_long(bytes, 10);
                }
                return Err(Error::LengthOverflow(ULEB128_U64_MAX_LENGTH));
            }
            let byte_value = (byte & VALUE_MASK) as u64;
            proof {
                lemma_byte_parts(byte);
                lemma_read_step_u64(
                    bytes,
                    bytes_read as int,
                    value,
                    (VALUE_LENGTH * bytes_read) as usize,
                );
            }
            value |= byte_value << (VALUE_LENGTH * bytes_read);

            bytes_read += 1;

            if (byte & !VALUE_MASK) == 0 {
                proof {
                    let head = bytes.take(bytes_read as int);
                    assert(head.drop_last() == bytes.take(bytes_read - 1));
                    lemma_decode_terminated(bytes, bytes_read as int, 10);
                }
                return Ok(value);
            }
            proof {
                lemma_all_continue_next(bytes, bytes_read - 1);
            }
        }
    }
}

impl<R: ByteSource + ?Sized> ReadULeb128Ext for R {}

/// Writing unsigned LEB128 integers to any byte sink.
pub trait WriteULeb128Ext: ByteSink {
    /// Writes the encoding of a 32-bit integer to the sink.
    ///
    /// The bytes are the base-128 digits of `value`, least significant first,
    /// each with its high bit set but the last: the shortest encoding there
    /// is, and a single zero byte for zero. They are handed to the sink one
    /// at a time.
    ///
    /// # Errors
    ///
    /// [`Error::Io`] with the failure of the sink, where the sink rejects a
    /// byte. The bytes before that one have been written, no byte after it
    /// is tried.
    fn write_uleb128_u32(&mut self, value: u32) -> (r: Result<(), Error<Self::Failure>>)
        ensures
            final(self).refusal() == old(self).refusal(),
            old(self).room() >= encoding(value as nat).len() ==> (r is Ok
                && final(self).written() == old(self).written() + encoding(value as nat)
                && final(self).room() == old(self).room() - encoding(value as nat).len()),
            old(self).room() < encoding(value as nat).len() ==> (r matches Err(Error::Io(e))
                && e == old(self).refusal()
                && final(self).written() == old(self).written()
                    + encoding(value as nat).take(old(self).room() as int)
                && final(self).room() == 0),
    {
        let ghost whole = encoding(value as nat);
        let ghost mut sent: Seq<u8> = Seq::empty();
        let mut remaining = value;
        loop
            invariant
                whole == encoding(value as nat),
                whole == sent + encoding(remaining as nat),
                self.written() == old(self).written() + sent,
                self.room() == old(self).room() - sent.len(),
                self.refusal() == old(self).refusal(),
            decreases remaining,
        {
            proof {
                lemma_split_u32(remaining);
            }
            let mut byte = remaining & VALUE_MASK as u32;
            remaining >>= VALUE_LENGTH;

            if remaining != 0 {
                byte |= !VALUE_MASK as u32;
            }
            assert(whole == sent.push(byte as u8) + if remaining != 0 {
                encoding(remaining as nat)
            } else {
                Seq::<u8>::empty()
            });

            match self.write_byte(byte as u8) {
                Ok(_) => {},
                Err(e) => {
                    assert(whole.take(sent.len() as int) == sent);
                    return Err(Error::Io(e));
                },
            }
            proof {
                sent = sent.push(byte as u8);
            }

            if remaining == 0 {
                assert(whole == sent);
                return Ok(());
            }
        }
    }

    /// Writes the encoding of a 64-bit integer to the sink.
    ///
    /// The bytes are the base-128 digits of `value`, least significant first,
    /// each with its high bit set but the last: the shortest encoding there
    /// is, and a single zero byte for zero. They are handed to the sink one
    /// at a time.
    ///
    /// # Errors
    ///
    /// [`Error::Io`] with the failure of the sink, where the sink rejects a
    /// byte. The bytes before that one have been written, no byte after it
    /// is tried.
    fn write_uleb128_u64(&mut self, value: u64) -> (r: Result<(), Error<Self::Failure>>)
        ensures
            final(self).refusal() == old(self).refusal(),
            old(self).room() >= encoding(value as nat).len() ==> (r is Ok
                && final(self).written() == old(self).written() + encoding(value as nat)
                && final(self).room() == old(self).room() - encoding(value as nat).len()),
            old(self).room() < encoding(value as nat).len() ==> (r matches Err(Error::Io(e))
                && e == old(self).refusal()
                && final(self).written() == old(self).written()
                    + encoding(value as nat).take(old(self).room() as int)
                && final(self).room() == 0),
    {
        let ghost whole = encoding(value as nat);
        let ghost mut sent: Seq<u8> = Seq::empty();
        let mut remaining = value;
        loop
            invariant
                whole == encoding(value as nat),
                whole == sent + encoding(remaining as nat),
                self.written() == old(self).written() + sent,
                self.room() == old(self).room() - sent.len(),
                self.refusal() == old(self).refusal(),
            decreases remaining,
        {
            proof {
                lemma_split_u64(remaining);
            }
            let mut byte = remaining & VALUE_MASK as u64;
            remaining >>= VALUE_LENGTH;

            if remaining != 0 {
                byte |= !VALUE_MASK as u64;
            }
            assert(whole == sent.push(byte as u8) + if remaining != 0 {
                encoding(remaining as nat)
            } else {
                Seq::<u8>::empty()
            });

            match self.write_byte(byte as u8) {
                Ok(_) => {},
                Err(e) => {
                    assert(whole.take(sent.len() as int) == sent);
                    return Err(Error::Io(e));
                },
            }
            proof {
                sent = sent.push(byte as u8);
            }

            if remaining == 0 {
                assert(whole == sent);
                return Ok(());
            }
        }
    }
}

impl<W: ByteSink + ?Sized> WriteULeb128Ext for W {}

} // verus!
