//! What the index reports when it refuses an input.

use vstd::prelude::*;

verus! {

/// Why an input was refused. The index is unchanged whenever one of these is returned.
#[derive(Debug, Clone, Copy, PartialEq, Eq, Structural)]
pub enum IndexError {
    /// A vector does not have as many components as the index was made for.
    DimensionMismatch { expected: usize, got: usize },
    /// The parts handed over do not make up an index: a vector of the wrong length,
    /// an edge or an entry point that ends outside the arena, or an entry point
    /// that does not fit the arena's being empty or not.
    Malformed,
}

} // verus!
