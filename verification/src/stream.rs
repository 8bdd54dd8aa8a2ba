//! Byte sources and byte sinks: what integers are read from and written to.
//!
//! The codec asks little of them. A source hands out its bytes one at a time
//! and fails when none is left; a sink takes bytes one at a time and fails
//! when it has no room. Each is described by a small model (the bytes still
//! pending, or the bytes written and the room left, and the failure it
//! answers with), and the contract of its one operation says how a call moves
//! that model. Any run of a source, some bytes and then perhaps a failure, is
//! the run of some model, and likewise for a sink: what is proved of every
//! model holds of every run.
//!
//! Slices of bytes are sources and vectors of bytes are sinks.
//!
//! A type whose implementation Verus verifies defines the model functions
//! itself. The bodies that they have in the traits only let ordinary Rust code
//! implement the operation alone; nothing is proved of a type that keeps them.

use vstd::prelude::*;
use vstd::slice::slice_subrange;

verus! {

/// Something that hands out bytes one at a time and fails once none is left.
pub trait ByteSource {
    /// What a failed read returns.
    type Failure;

    /// The bytes that the source can still deliver, next one first.
    open spec fn pending(&self) -> Seq<u8> {
        arbitrary()
    }

    /// The failure with which the source answers a read when nothing is pending.
    open spec fn failure(&self) -> Self::Failure {
        arbitrary()
    }

    /// Takes the next byte from the source.
    ///
    /// While bytes are pending the read succeeds with the first of them, which
    /// is then no longer pending. With nothing pending it fails with
    /// [`failure`](ByteSource::failure) and changes nothing.
    fn read_byte(&mut self) -> (r: Result<u8, Self::Failure>)
        ensures
            final(self).failure() == old(self).failure(),
            match r {
                Ok(byte) => old(self).pending().len() > 0 && byte == old(self).pending()[0]
                    && final(self).pending() == old(self).pending().drop_first(),
                Err(e) => old(self).pending().len() == 0 && e == old(self).failure()
                    && final(self).pending() == old(self).pending(),
            },
    ;
}

/// Something that takes bytes one at a time and fails once it has no room.
pub trait ByteSink {
    /// What a rejected write returns.
    type Failure;

    /// The bytes that the sink has taken so far, oldest first.
    open spec fn written(&self) -> Seq<u8> {
        arbitrary()
    }

    /// How many more bytes the sink takes before it rejects one.
    open spec fn room(&self) -> nat {
        arbitrary()
    }

    /// The failure with which the sink answers a write when it has no room.
    open spec fn refusal(&self) -> Self::Failure {
        arbitrary()
    }

    /// Hands one byte to the sink.
    ///
    /// While there is room the write succeeds: the byte is the last one
    /// written and the room is one less. Without room it fails with
    /// [`refusal`](ByteSink::refusal) and changes nothing.
    fn write_byte(&mut self, byte: u8) -> (r: Result<(), Self::Failure>)
        ensures
            final(self).refusal() == old(self).refusal(),
            match r {
                Ok(_) => old(self).room() > 0 && final(self).written() == old(self).written().push(
                    byte,
                ) && final(self).room() == old(self).room() - 1,
                Err(e) => old(self).room() == 0 && e == old(self).refusal()
                    && final(self).written() == old(self).written() && final(self).room() == 0,
            },
    ;
}

/// The failure of a slice that has been read to its end.
#[derive(Debug, PartialEq, Eq, Clone, Copy)]
pub struct EndOfInput;

/// A slice of bytes is a source of its bytes: each read takes the first byte
/// and leaves the rest of the slice in its place.
impl<'a> ByteSource for &'a [u8] {
    type Failure = EndOfInput;

    open spec fn pending(&self) -> Seq<u8> {
        self@
    }

    open spec fn failure(&self) -> EndOfInput {
        EndOfInput
    }

    fn read_byte(&mut self) -> (r: Result<u8, EndOfInput>) {
        let bytes: &'a [u8] = *self;
        if bytes.len() == 0 {
            Err(EndOfInput)
        } else {
            let byte = bytes[0];
            *self = slice_subrange(bytes, 1, bytes.len());
            Ok(byte)
        }
    }
}

/// The failure of a vector that cannot grow any further.
#[derive(Debug, PartialEq, Eq, Clone, Copy)]
pub struct OutOfRoom;

/// A vector of bytes is a sink: each write appends to it. Its room is what
/// its length lacks to the largest `usize`.
impl ByteSink for Vec<u8> {
    type Failure = OutOfRoom;

    open spec fn written(&self) -> Seq<u8> {
        self@
    }

    open spec fn room(&self) -> nat {
        (usize::MAX - self@.len()) as nat
    }

    open spec fn refusal(&self) -> OutOfRoom {
        OutOfRoom
    }

    fn write_byte(&mut self, byte: u8) -> (r: Result<(), OutOfRoom>) {
        if self.len() == usize::MAX {
            Err(OutOfRoom)
        } else {
            self.push(byte);
            Ok(())
        }
    }
}

} // verus!
