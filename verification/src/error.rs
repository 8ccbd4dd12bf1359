//! The errors that decoding and validation can report.  Arithmetic itself
//! never fails.

use vstd::prelude::*;

verus! {

/// Why an input was turned down.
#[derive(Clone, Copy, Debug, PartialEq, Eq, Structural)]
pub enum Error {
    /// A byte string does not have the length its encoding calls for.
    WrongLength,
    /// A point encoding does not start with the tag of the uncompressed
    /// form.
    NotUncompressed,
    /// A point does not satisfy the curve equation, or is the point at
    /// infinity where a finite point is called for.
    NotOnCurve,
    /// A coordinate or scalar is not below its modulus.
    OutOfRange,
    /// The system's random source failed.
    RngFailed,
    /// A signature does not fit the message and the key.
    BadSignature,
}

} // verus!
