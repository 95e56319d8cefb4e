//! Tile codes and the constants of the puzzle.

use vstd::prelude::*;

verus! {

/// Width of the full puzzle grid, in cells.
pub const W: usize = 17268;

/// Height of the full puzzle grid, in cells.
pub const H: usize = 90300;

/// Inert background.
pub const BACKGROUND: u8 = 0;

/// A cell of a white region whose state is not decided yet.
pub const UNPROCESSED: u8 = 5;

/// A cell decided to be inactive.
pub const NOT_ACTIVE: u8 = 6;

/// A cell decided to be active.
pub const ACTIVE: u8 = 7;

/// Orange landmark, never changed by the solver.
pub const ORANGE: u8 = 8;

/// Pink marker, never changed by the solver.
pub const PINK: u8 = 10;

/// The tile codes that may occur in a grid.
pub open spec fn is_legal_tile(t: u8) -> bool {
    t <= 3 || (5 <= t && t <= 8) || t == 10
}

/// A clue. A clue of value `n` can take `n - 1` more active neighbours: it
/// is lowered by one for each neighbour that becomes active, and never
/// below 1.
pub open spec fn is_clue(t: u8) -> bool {
    1 <= t && t <= 3
}

/// Whether `t` is one of the legal tile codes.
pub fn legal_tile(t: u8) -> (r: bool)
    ensures
        r == is_legal_tile(t),
{
    t <= 3 || (5 <= t && t <= 8) || t == 10
}

/// Whether `t` is a clue.
pub fn clue_tile(t: u8) -> (r: bool)
    ensures
        r == is_clue(t),
{
    1 <= t && t <= 3
}

} // verus!
