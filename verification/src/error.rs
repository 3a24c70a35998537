//! Failures reported by the decoder.

use vstd::prelude::*;

verus! {

/// Why an operation on a PCX stream did not succeed.
#[derive(Clone, Copy, Debug, PartialEq, Eq, Structural)]
pub enum Error {
    /// The operation does not apply to this image or to the reader's current position.
    InvalidInput,
    /// The bytes of the stream do not form what the format requires at this point.
    InvalidData,
    /// The stream ended before the requested bytes were delivered.
    UnexpectedEof,
}

} // verus!
