use vstd::prelude::*;

verus! {

/// Why an operation on an index was refused.
#[derive(Clone, Copy, Debug, PartialEq, Eq, Structural)]
pub enum HnswError {
    /// A vector's length disagrees with the dimensionality of the index.
    DimensionMismatch { expected: usize, got: usize },
    /// A snapshot does not describe a well-formed index.
    DeserializationError,
}

} // verus!
