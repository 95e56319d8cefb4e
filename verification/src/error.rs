//! Why a solving step did not succeed.

use vstd::prelude::*;

verus! {

/// The ways in which resolving or solving a group fails.
#[derive(Debug, Clone, Copy, PartialEq, Eq, Structural)]
pub enum SolveError {
    /// No candidate solution of the group is feasible on the current grid.
    Inconsistent,
    /// The group that holds `(x, y)` has no top-level shape in the library.
    MissingShape { x: usize, y: usize },
    /// The shape has no candidate solutions to branch on.
    Uncurated { shape_id: usize },
    /// The cache names a shape that the library does not hold.
    UnknownShape { shape_id: usize },
    /// The shape, placed at the cached origin, leaves the grid.
    OutOfBounds { shape_id: usize },
    /// The clue at `(x, y)` is 1 and a cell next to it became active.
    ClueUnderflow { x: usize, y: usize },
}

impl SolveError {
    /// Whether a speculative branch that ends in this error is dropped
    /// silently; every other error ends the whole run.
    pub fn abandons_branch(&self) -> (r: bool)
        ensures
            r == (*self == SolveError::Inconsistent),
    {
        match self {
            SolveError::Inconsistent => true,
            _ => false,
        }
    }
}

} // verus!
