//! Failures that the engine reports to its caller.

use vstd::prelude::*;

verus! {

#[derive(Clone, Copy, Debug, PartialEq, Eq, Structural)]
pub enum GameError {
    /// An id that should be in the catalog is not.
    NotFound,
    /// A player, a position or a count lies outside its bounds.
    OutOfRange,
    /// A game configuration that the rules do not allow.
    InvalidConfiguration,
}

} // verus!
