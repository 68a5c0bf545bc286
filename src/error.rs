//! The errors of the library.
use vstd::prelude::*;

verus! {

/// What can go wrong; every failure is returned as one of these.
#[derive(Debug, Clone, Copy, PartialEq, Eq, Structural)]
pub enum RsError {
    /// The encoding string does not parse, or its counts add up to more than 255.
    BadEncoding,
    /// Fewer than `k` columns of a stripe are valid.
    TooManyErasures,
    /// Gauss-Jordan elimination found no pivot.
    Singular,
    /// Field division by zero.
    DivideByZero,
    /// Matrix shapes do not fit together.
    DimensionMismatch,
    /// A word list shorter than 256 entries, or a word missing from it.
    BadVocabulary,
}

} // verus!
