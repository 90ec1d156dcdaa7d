//! Failures that the library reports.

use vstd::prelude::*;

verus! {

/// Why a transform or a decoding was refused.
#[derive(Debug, Clone, Copy, PartialEq, Eq, Structural)]
pub enum BwtError {
    /// A sequence is not the transform of any sequence.
    Validation,
    /// A stream is cut short, or its marker position lies outside the data.
    MalformedStream,
}

} // verus!
