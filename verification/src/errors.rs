//! Error kinds of the codec.

use vstd::prelude::*;

verus! {

/// One error kind per violated decoding contract.  Every error is terminal
/// for the decode call that raised it: no partial results are returned.
#[derive(Clone, Copy, Debug, PartialEq, Eq, Structural)]
pub enum DerError {
    /// Fewer bytes are available than a header or a declared length requires.
    TruncatedInput,
    /// A declared or constructed length violates the format's encoding rules
    /// or the byte-region ceiling.
    Length,
    /// A decoded integer's recomputed encoded length differs from the header
    /// length: the input carried superfluous padding or a misleading form.
    NonCanonicalEncoding,
    /// A mandatory field's tag does not match its expected position, or a tag
    /// form outside the supported single-octet set was met.
    UnexpectedTag,
    /// A nested scope ended with unconsumed bytes.
    TrailingData,
}

} // verus!
