//! The ways in which issuing, parsing or checking a token can fail.
use vstd::prelude::*;

verus! {

/// Why a token could not be issued, parsed or accepted.
#[derive(Debug, Clone, Copy, PartialEq, Eq, Structural)]
pub enum TokenError {
    /// A payload key or value holds a reserved delimiter, a key is empty, or two entries
    /// share a key.
    InvalidPayloadField,
    /// The header names an algorithm that is not registered.
    UnknownAlgorithm,
    /// The wire form does not follow the token grammar.
    MalformedToken,
    /// The token is well formed but its tag does not match.
    VerificationFailed,
}

} // verus!
