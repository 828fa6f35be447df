//! The ways in which a request to the map can be refused.

use vstd::prelude::*;

verus! {

/// Why a request was refused.
#[derive(Clone, Copy, Debug, PartialEq, Eq, Structural)]
pub enum SomError {
    /// A training setting or a grid definition is not usable.
    Configuration,
    /// A vector does not have the grid's number of components.
    DimensionMismatch,
    /// A coordinate lies outside the grid.
    Index,
}

} // verus!
