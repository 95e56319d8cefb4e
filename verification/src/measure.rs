//! Why propagation ends.
//!
//! Two quantities of a board bound the work that is left: the sum of its
//! clues, and the number of cells beside a clue that are not yet inactive. A
//! write that puts new work on the queue lowers the first, or keeps it and
//! lowers the second.

use vstd::prelude::*;
use crate::grid::Board;
use crate::tile::{is_clue, is_legal_tile, NOT_ACTIVE};

verus! {

/// The sum of `f` over the first `n` cells of row `y`.
pub open spec fn row_total(f: spec_fn(int, int) -> int, y: int, n: int) -> int
    decreases n,
{
    if n <= 0 {
        0
    } else {
        row_total(f, y, n - 1) + f(n - 1, y)
    }
}

/// The sum of `f` over the first `rows` rows of a grid of the given width.
pub open spec fn grid_total(f: spec_fn(int, int) -> int, width: int, rows: int) -> int
    decreases rows,
{
    if rows <= 0 {
        0
    } else {
        grid_total(f, width, rows - 1) + row_total(f, rows - 1, width)
    }
}

/// Sums of values that are not negative are not negative.
pub proof fn lemma_row_total_nonneg(f: spec_fn(int, int) -> int, y: int, n: int)
    requires
        forall|x: int| 0 <= x < n ==> #[trigger] f(x, y) >= 0,
    ensures
        row_total(f, y, n) >= 0,
    decreases n,
{
    if n > 0 {
        lemma_row_total_nonneg(f, y, n - 1);
    }
}

/// Sums of values that are not negative are not negative.
pub proof fn lemma_grid_total_nonneg(f: spec_fn(int, int) -> int, width: int, rows: int)
    requires
        forall|x: int, y: int| 0 <= x < width && 0 <= y < rows ==> #[trigger] f(x, y) >= 0,
    ensures
        grid_total(f, width, rows) >= 0,
    decreases rows,
{
    if rows > 0 {
        lemma_grid_total_nonneg(f, width, rows - 1);
        lemma_row_total_nonneg(f, rows - 1, width);
    }
}

/// Two functions that differ at most at `(px, py)` have row sums that differ
/// by what they differ there.
pub proof fn lemma_row_total_frame(
    f: spec_fn(int, int) -> int,
    g: spec_fn(int, int) -> int,
    y: int,
    n: int,
    px: int,
    py: int,
)
    requires
        forall|x: int| 0 <= x < n && !(x == px && y == py) ==> #[trigger] f(x, y) == g(x, y),
    ensures
        row_total(g, y, n) == row_total(f, y, n) + (if y == py && 0 <= px < n {
            g(px, py) - f(px, py)
        } else {
            0
        }),
    decreases n,
{
    if n > 0 {
        lemma_row_total_frame(f, g, y, n - 1, px, py);
        if !(n - 1 == px && y == py) {
            assert(f(n - 1, y) == g(n - 1, y));
        }
    }
}

/// Two functions that differ at most at `(px, py)` have sums that differ by
/// what they differ there.
pub proof fn lemma_grid_total_frame(
    f: spec_fn(int, int) -> int,
    g: spec_fn(int, int) -> int,
    width: int,
    rows: int,
    px: int,
    py: int,
)
    requires
        forall|x: int, y: int|
            0 <= x < width && 0 <= y < rows && !(x == px && y == py) ==> #[trigger] f(x, y) == g(
                x,
                y,
            ),
    ensures
        grid_total(g, width, rows) == grid_total(f, width, rows) + (if 0 <= py < rows && 0 <= px
            < width {
            g(px, py) - f(px, py)
        } else {
            0
        }),
    decreases rows,
{
    if rows > 0 {
        lemma_grid_total_frame(f, g, width, rows - 1, px, py);
        lemma_row_total_frame(f, g, rows - 1, width, px, py);
    }
}

/// What a tile adds to the sum of the clues: its value where it is a clue.
pub open spec fn clue_value(t: u8) -> int {
    if is_clue(t) {
        t as int
    } else {
        0
    }
}

/// The sum of the clues of the board.
pub open spec fn clue_sum(b: Board) -> int {
    grid_total(|x: int, y: int| clue_value(b.tile(x, y)), b.width as int, b.height as int)
}

/// Whether the cell at `(x, y)` of the board is a clue.
pub open spec fn clue_at(b: Board, x: int, y: int) -> bool {
    b.contains(x, y) && is_clue(b.tile(x, y))
}

/// Whether a neighbour of `(x, y)` is a clue.
pub open spec fn has_clue_neighbour(b: Board, x: int, y: int) -> bool {
    clue_at(b, x, y + 1) || clue_at(b, x + 1, y) || clue_at(b, x, y - 1) || clue_at(b, x - 1, y)
}

/// 1 for a cell beside a clue that is not inactive, 0 for any other.
pub open spec fn waiting_at(b: Board, x: int, y: int) -> int {
    if b.tile(x, y) != NOT_ACTIVE && has_clue_neighbour(b, x, y) {
        1
    } else {
        0
    }
}

/// The number of cells beside a clue that are not inactive.
pub open spec fn waiting(b: Board) -> int {
    grid_total(|x: int, y: int| waiting_at(b, x, y), b.width as int, b.height as int)
}

/// Neither quantity is negative.
pub proof fn lemma_measure_nonneg(b: Board)
    ensures
        clue_sum(b) >= 0,
        waiting(b) >= 0,
{
    lemma_grid_total_nonneg(
        |x: int, y: int| clue_value(b.tile(x, y)),
        b.width as int,
        b.height as int,
    );
    lemma_grid_total_nonneg(|x: int, y: int| waiting_at(b, x, y), b.width as int, b.height as int);
}

/// A write changes the sum of the clues by what the tile at the cell adds
/// to it after and before.
pub proof fn lemma_write_clue_sum(b: Board, x: int, y: int, value: u8)
    requires
        b.wf(),
        b.contains(x, y),
        is_legal_tile(value),
    ensures
        clue_sum(b.with_tile(x, y, value)) == clue_sum(b) - clue_value(b.tile(x, y)) + clue_value(
            value,
        ),
{
    let after = b.with_tile(x, y, value);
    b.lemma_with_tile(x, y, value);
    let f = |x: int, y: int| clue_value(b.tile(x, y));
    let g = |x: int, y: int| clue_value(after.tile(x, y));
    assert forall|qx: int, qy: int|
        0 <= qx < b.width && 0 <= qy < b.height && !(qx == x && qy == y) implies #[trigger] f(
        qx,
        qy,
    ) == g(qx, qy) by {
        assert(b.contains(qx, qy));
        assert(after.tile(qx, qy) == b.tile(qx, qy));
    }
    lemma_grid_total_frame(f, g, b.width as int, b.height as int, x, y);
}

/// A write that neither removes nor makes a clue leaves every cell beside
/// the clues that it was beside, and changes the number of waiting cells by
/// what the written cell adds to it after and before.
pub proof fn lemma_write_waiting(b: Board, x: int, y: int, value: u8)
    requires
        b.wf(),
        b.contains(x, y),
        is_legal_tile(value),
        !is_clue(b.tile(x, y)),
        !is_clue(value),
    ensures
        forall|qx: int, qy: int| #[trigger]
            has_clue_neighbour(b.with_tile(x, y, value), qx, qy) == has_clue_neighbour(b, qx, qy),
        waiting(b.with_tile(x, y, value)) == waiting(b) - waiting_at(b, x, y) + waiting_at(
            b.with_tile(x, y, value),
            x,
            y,
        ),
{
    let after = b.with_tile(x, y, value);
    b.lemma_with_tile(x, y, value);
    assert forall|qx: int, qy: int| #[trigger] clue_at(after, qx, qy) == clue_at(b, qx, qy) by {
        if b.contains(qx, qy) && !(qx == x && qy == y) {
            assert(after.tile(qx, qy) == b.tile(qx, qy));
        }
    }
    assert forall|qx: int, qy: int| #[trigger]
        has_clue_neighbour(after, qx, qy) == has_clue_neighbour(b, qx, qy) by {
        assert(clue_at(after, qx, qy + 1) == clue_at(b, qx, qy + 1));
        assert(clue_at(after, qx + 1, qy) == clue_at(b, qx + 1, qy));
        assert(clue_at(after, qx, qy - 1) == clue_at(b, qx, qy - 1));
        assert(clue_at(after, qx - 1, qy) == clue_at(b, qx - 1, qy));
    }
    let f = |x: int, y: int| waiting_at(b, x, y);
    let g = |x: int, y: int| waiting_at(after, x, y);
    assert forall|qx: int, qy: int|
        0 <= qx < b.width && 0 <= qy < b.height && !(qx == x && qy == y) implies #[trigger] f(
        qx,
        qy,
    ) == g(qx, qy) by {
        assert(b.contains(qx, qy));
        assert(after.tile(qx, qy) == b.tile(qx, qy));
        assert(has_clue_neighbour(after, qx, qy) == has_clue_neighbour(b, qx, qy));
    }
    lemma_grid_total_frame(f, g, b.width as int, b.height as int, x, y);
}

/// The work bound did not grow from `before` to `after`.
pub open spec fn not_more_work(after: Board, before: Board) -> bool {
    clue_sum(after) < clue_sum(before) || (clue_sum(after) == clue_sum(before) && waiting(after)
        <= waiting(before))
}

/// The work bound shrank from `before` to `after`.
pub open spec fn less_work(after: Board, before: Board) -> bool {
    clue_sum(after) < clue_sum(before) || (clue_sum(after) == clue_sum(before) && waiting(after)
        < waiting(before))
}

} // verus!
