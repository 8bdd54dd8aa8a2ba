//! The error type of the reading and writing operations.

use vstd::prelude::*;

verus! {

/// Why reading or writing an encoded integer failed.
///
/// `E` is the failure type of the byte source or sink in use.
#[derive(Debug, PartialEq, Eq)]
pub enum Error<E> {
    /// The byte source or sink failed; its own failure is kept as it came.
    Io(E),
    /// The encoded integer goes on past the number of bytes held here, which
    /// is the most that the requested width admits.
    LengthOverflow(usize),
}

} // verus!
