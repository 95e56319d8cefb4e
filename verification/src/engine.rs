//! The local-uniqueness engine.
//!
//! For a group and the candidate solutions of its shape, the engine finds
//! the candidates that the clues around the group still allow, and the cells
//! on which all of them agree.

use vstd::prelude::*;
use vstd::relations::sorted_by;
use crate::cache::{CacheModel, GroupCache};
use crate::cells::{
    contains_cell, copy_cells, lemma_lex_total, lex_order, sort_cells, sorted, Coord,
};
use crate::error::SolveError;
use crate::grid::{Board, TileStore};
use crate::shape::{
    extends, index_of, library_wf, proper_subset, shape_in_order, Shape, ShapeId, ShapeLibrary,
    ShapeView, Solution,
};
use crate::tile::{clue_tile, is_clue, ACTIVE, NOT_ACTIVE, UNPROCESSED};

verus! {

/// A forced assignment: the cell and its new tile.
pub type Patch = (Coord, u8);

/// Whether every cell of `group`, moved by `origin`, lies inside the board.
pub open spec fn shape_fits(b: Board, group: Seq<Coord>, origin: Coord) -> bool {
    forall|i: int|
        0 <= i < group.len() ==> b.contains(
            (#[trigger] group[i]).0 + origin.0,
            group[i].1 + origin.1,
        )
}

/// Two coordinates that share an edge.
pub open spec fn next_to(ax: int, ay: int, bx: int, by: int) -> bool {
    ||| (ax == bx && (ay + 1 == by || by + 1 == ay))
    ||| (ay == by && (ax + 1 == bx || bx + 1 == ax))
}

/// Whether `(x, y)` is a cell of the group placed at `origin`.
pub open spec fn in_shape(group: Seq<Coord>, origin: Coord, x: int, y: int) -> bool {
    exists|i: int|
        0 <= i < group.len() && (#[trigger] group[i]).0 + origin.0 == x && group[i].1 + origin.1
            == y
}

/// Whether `(x, y)` has a neighbour in the group placed at `origin`.
pub open spec fn touches(group: Seq<Coord>, origin: Coord, x: int, y: int) -> bool {
    exists|i: int|
        0 <= i < group.len() && next_to(
            (#[trigger] group[i]).0 + origin.0,
            group[i].1 + origin.1,
            x,
            y,
        )
}

/// The tile that `solution` gives to the cell `c` of its shape.
pub open spec fn candidate_value(solution: Seq<Coord>, c: Coord) -> u8 {
    if solution.contains(c) {
        ACTIVE
    } else {
        NOT_ACTIVE
    }
}

/// The patches of a candidate: one for each cell of the group, in the
/// group's order.
pub open spec fn candidate_patches(group: Seq<Coord>, solution: Seq<Coord>, origin: Coord) -> Seq<
    Patch,
> {
    Seq::new(
        group.len(),
        |i: int|
            (
                ((group[i].0 + origin.0) as usize, (group[i].1 + origin.1) as usize),
                candidate_value(solution, group[i]),
            ),
    )
}

/// How many of the first `k` cells of the group are next to `(x, y)` and
/// active in `solution`.
pub open spec fn clue_change(
    group: Seq<Coord>,
    solution: Seq<Coord>,
    origin: Coord,
    x: int,
    y: int,
    k: int,
) -> int
    decreases k,
{
    if k <= 0 {
        0
    } else {
        clue_change(group, solution, origin, x, y, k - 1) + (if next_to(
            group[k - 1].0 + origin.0,
            group[k - 1].1 + origin.1,
            x,
            y,
        ) && solution.contains(group[k - 1]) {
            1int
        } else {
            0int
        })
    }
}

/// An unprocessed cell of the board outside the group.
pub open spec fn free_cell(b: Board, group: Seq<Coord>, origin: Coord, x: int, y: int) -> bool {
    b.contains(x, y) && !in_shape(group, origin, x, y) && b.tile(x, y) == UNPROCESSED
}

/// 1 for a free cell, 0 otherwise.
pub open spec fn free_count(b: Board, group: Seq<Coord>, origin: Coord, x: int, y: int) -> int {
    if free_cell(b, group, origin, x, y) {
        1
    } else {
        0
    }
}

/// How many neighbours of `(x, y)` are unprocessed cells outside the group.
pub open spec fn available(b: Board, group: Seq<Coord>, origin: Coord, x: int, y: int) -> int {
    free_count(b, group, origin, x, y + 1) + free_count(b, group, origin, x + 1, y) + free_count(
        b,
        group,
        origin,
        x,
        y - 1,
    ) + free_count(b, group, origin, x - 1, y)
}

/// Whether the clue at `(x, y)` allows `solution`: the clue stays at 1 or
/// above, and what it then still needs can come from unprocessed neighbours
/// outside the group.
pub open spec fn clue_ok(
    b: Board,
    group: Seq<Coord>,
    solution: Seq<Coord>,
    origin: Coord,
    x: int,
    y: int,
) -> bool {
    let tile = b.tile(x, y) as int;
    let change = clue_change(group, solution, origin, x, y, group.len() as int);
    tile - change >= 1 && available(b, group, origin, x, y) >= tile - 1 - change
}

/// Whether `solution` is feasible for the group placed at `origin`: every
/// clue next to the group allows it.
pub open spec fn feasible(b: Board, group: Seq<Coord>, solution: Seq<Coord>, origin: Coord) -> bool {
    forall|x: int, y: int|
        b.contains(x, y) && is_clue(b.tile(x, y)) && touches(group, origin, x, y) ==> #[trigger] clue_ok(
            b,
            group,
            solution,
            origin,
            x,
            y,
        )
}

/// A candidate that would take a clue below 1 is not feasible.
pub proof fn lemma_rejects_clue_below_one(
    b: Board,
    group: Seq<Coord>,
    solution: Seq<Coord>,
    origin: Coord,
    x: int,
    y: int,
)
    requires
        b.contains(x, y),
        is_clue(b.tile(x, y)),
        touches(group, origin, x, y),
        b.tile(x, y) - clue_change(group, solution, origin, x, y, group.len() as int) < 1,
    ensures
        !feasible(b, group, solution, origin),
{
    assert(!clue_ok(b, group, solution, origin, x, y));
}

/// A candidate that leaves a clue in need of more active cells than it has
/// unprocessed neighbours outside the group is not feasible.
pub proof fn lemma_rejects_unmet_need(
    b: Board,
    group: Seq<Coord>,
    solution: Seq<Coord>,
    origin: Coord,
    x: int,
    y: int,
)
    requires
        b.contains(x, y),
        is_clue(b.tile(x, y)),
        touches(group, origin, x, y),
        available(b, group, origin, x, y) < b.tile(x, y) - 1 - clue_change(
            group,
            solution,
            origin,
            x,
            y,
            group.len() as int,
        ),
    ensures
        !feasible(b, group, solution, origin),
{
    assert(!clue_ok(b, group, solution, origin, x, y));
}

/// Whether the group, placed at `(min_x, min_y)`, lies inside the grid.
pub fn shape_fits_at<T: TileStore>(map: &T, group: &[Coord], min_x: usize, min_y: usize) -> (r: bool)
    requires
        map.wf(),
    ensures
        r == shape_fits(map@, group@, (min_x, min_y)),
{
    let w = map.width();
    let h = map.height();
    let mut i: usize = 0;
    while i < group.len()
        invariant
            i <= group.len(),
            w == map@.width,
            h == map@.height,
            forall|j: int|
                0 <= j < i ==> map@.contains(
                    (#[trigger] group@[j]).0 + min_x,
                    group@[j].1 + min_y,
                ),
        decreases group.len() - i,
    {
        let c = group[i];
        let fits = match (c.0.checked_add(min_x), c.1.checked_add(min_y)) {
            (Some(x), Some(y)) => x < w && y < h,
            _ => false,
        };
        if !fits {
            assert(!map@.contains(group@[i as int].0 + min_x, group@[i as int].1 + min_y));
            return false;
        }
        i = i + 1;
    }
    true
}

/// Whether `(x, y)` is a cell of the group placed at `(min_x, min_y)`.
fn in_shape_at(group: &[Coord], min_x: usize, min_y: usize, x: usize, y: usize) -> (r: bool)
    requires
        forall|i: int|
            0 <= i < group@.len() ==> (#[trigger] group@[i]).0 + min_x <= usize::MAX
                && group@[i].1 + min_y <= usize::MAX,
    ensures
        r == in_shape(group@, (min_x, min_y), x as int, y as int),
{
    let mut i: usize = 0;
    while i < group.len()
        invariant
            i <= group.len(),
            forall|j: int|
                0 <= j < group@.len() ==> (#[trigger] group@[j]).0 + min_x <= usize::MAX
                    && group@[j].1 + min_y <= usize::MAX,
            forall|j: int|
                0 <= j < i ==> !((#[trigger] group@[j]).0 + min_x == x && group@[j].1 + min_y
                    == y),
        decreases group.len() - i,
    {
        let c = group[i];
        if c.0 + min_x == x && c.1 + min_y == y {
            return true;
        }
        i = i + 1;
    }
    false
}

/// 1 where `(x, y)` is an unprocessed cell outside the group, 0 otherwise.
fn free_at<T: TileStore>(
    map: &T,
    group: &[Coord],
    min_x: usize,
    min_y: usize,
    x: usize,
    y: usize,
) -> (r: usize)
    requires
        map.wf(),
        shape_fits(map@, group@, (min_x, min_y)),
        map@.contains(x as int, y as int),
    ensures
        r == free_count(map@, group@, (min_x, min_y), x as int, y as int),
{
    proof {
        map.lemma_board_wf();
        assert forall|i: int| 0 <= i < group@.len() implies (#[trigger] group@[i]).0 + min_x
            <= usize::MAX && group@[i].1 + min_y <= usize::MAX by {
            assert(map@.contains(group@[i].0 + min_x, group@[i].1 + min_y));
        }
    }
    if !in_shape_at(group, min_x, min_y, x, y) && map.get(x, y) == UNPROCESSED {
        1
    } else {
        0
    }
}

/// How many neighbours of `(x, y)` are unprocessed cells outside the group.
fn available_at<T: TileStore>(
    map: &T,
    group: &[Coord],
    min_x: usize,
    min_y: usize,
    x: usize,
    y: usize,
) -> (r: usize)
    requires
        map.wf(),
        shape_fits(map@, group@, (min_x, min_y)),
        map@.contains(x as int, y as int),
    ensures
        r == available(map@, group@, (min_x, min_y), x as int, y as int),
        r <= 4,
{
    let w = map.width();
    let h = map.height();
    let mut n: usize = 0;
    if y + 1 < h {
        n = n + free_at(map, group, min_x, min_y, x, y + 1);
    }
    if x + 1 < w {
        n = n + free_at(map, group, min_x, min_y, x + 1, y);
    }
    if y > 0 {
        n = n + free_at(map, group, min_x, min_y, x, y - 1);
    }
    if x > 0 {
        n = n + free_at(map, group, min_x, min_y, x - 1, y);
    }
    n
}

/// Whether two cells share an edge.
fn next_to_at(ax: usize, ay: usize, bx: usize, by: usize) -> (r: bool)
    requires
        ax < usize::MAX,
        ay < usize::MAX,
        bx < usize::MAX,
        by < usize::MAX,
    ensures
        r == next_to(ax as int, ay as int, bx as int, by as int),
{
    (ax == bx && (ay + 1 == by || by + 1 == ay)) || (ay == by && (ax + 1 == bx || bx + 1 == ax))
}

/// How many cells of the group are next to `(x, y)` and active in
/// `solution`.
fn clue_change_at<T: TileStore>(
    map: &T,
    group: &[Coord],
    solution: &[Coord],
    min_x: usize,
    min_y: usize,
    x: usize,
    y: usize,
) -> (r: usize)
    requires
        map.wf(),
        shape_fits(map@, group@, (min_x, min_y)),
        map@.contains(x as int, y as int),
    ensures
        r == clue_change(group@, solution@, (min_x, min_y), x as int, y as int, group@.len() as int),
{
    proof {
        map.lemma_board_wf();
    }
    let mut n: usize = 0;
    let mut k: usize = 0;
    while k < group.len()
        invariant
            k <= group.len(),
            map@.wf(),
            shape_fits(map@, group@, (min_x, min_y)),
            map@.contains(x as int, y as int),
            n <= k,
            n == clue_change(group@, solution@, (min_x, min_y), x as int, y as int, k as int),
        decreases group.len() - k,
    {
        let c = group[k];
        assert(map@.contains(group@[k as int].0 + min_x, group@[k as int].1 + min_y));
        if next_to_at(c.0 + min_x, c.1 + min_y, x, y) && contains_cell(solution, c) {
            n = n + 1;
        }
        k = k + 1;
    }
    n
}

/// Whether the clue at `(x, y)` allows `solution`.
fn clue_allows<T: TileStore>(
    map: &T,
    group: &[Coord],
    solution: &[Coord],
    min_x: usize,
    min_y: usize,
    x: usize,
    y: usize,
) -> (r: bool)
    requires
        map.wf(),
        shape_fits(map@, group@, (min_x, min_y)),
        map@.contains(x as int, y as int),
    ensures
        r == clue_ok(map@, group@, solution@, (min_x, min_y), x as int, y as int),
{
    let tile = map.get(x, y) as usize;
    let change = clue_change_at(map, group, solution, min_x, min_y, x, y);
    if change >= tile {
        return false;
    }
    let other_tiles_needed = tile - 1 - change;
    let other_tiles_available = available_at(map, group, min_x, min_y, x, y);
    other_tiles_available >= other_tiles_needed
}

/// Whether `(x, y)`, a neighbour of a cell of the group, is no clue or a
/// clue that allows `solution`.
fn neighbour_allows<T: TileStore>(
    map: &T,
    group: &[Coord],
    solution: &[Coord],
    min_x: usize,
    min_y: usize,
    x: usize,
    y: usize,
) -> (r: bool)
    requires
        map.wf(),
        shape_fits(map@, group@, (min_x, min_y)),
        map@.contains(x as int, y as int),
    ensures
        r == (is_clue(map@.tile(x as int, y as int)) ==> clue_ok(
            map@,
            group@,
            solution@,
            (min_x, min_y),
            x as int,
            y as int,
        )),
{
    if clue_tile(map.get(x, y)) {
        clue_allows(map, group, solution, min_x, min_y, x, y)
    } else {
        true
    }
}

/// Whether every clue next to the cell `(ax, ay)` allows `solution`.
pub open spec fn cell_allows(
    b: Board,
    group: Seq<Coord>,
    solution: Seq<Coord>,
    origin: Coord,
    ax: int,
    ay: int,
) -> bool {
    forall|x: int, y: int|
        b.contains(x, y) && is_clue(b.tile(x, y)) && next_to(ax, ay, x, y) ==> #[trigger] clue_ok(
            b,
            group,
            solution,
            origin,
            x,
            y,
        )
}

/// Whether every clue next to the cell `(ax, ay)` of the grid allows
/// `solution`.
fn cell_allows_at<T: TileStore>(
    map: &T,
    group: &[Coord],
    solution: &[Coord],
    min_x: usize,
    min_y: usize,
    ax: usize,
    ay: usize,
) -> (r: bool)
    requires
        map.wf(),
        shape_fits(map@, group@, (min_x, min_y)),
        map@.contains(ax as int, ay as int),
    ensures
        r == cell_allows(map@, group@, solution@, (min_x, min_y), ax as int, ay as int),
{
    let w = map.width();
    let h = map.height();
    if ay + 1 < h && !neighbour_allows(map, group, solution, min_x, min_y, ax, ay + 1) {
        return false;
    }
    if ax + 1 < w && !neighbour_allows(map, group, solution, min_x, min_y, ax + 1, ay) {
        return false;
    }
    if ay > 0 && !neighbour_allows(map, group, solution, min_x, min_y, ax, ay - 1) {
        return false;
    }
    if ax > 0 && !neighbour_allows(map, group, solution, min_x, min_y, ax - 1, ay) {
        return false;
    }
    true
}

/// Checks one candidate against the clues around the group placed at
/// `(min_x, min_y)`. A feasible candidate gives its patches: active for the
/// cells that it names, not active for the other cells of the group. A
/// candidate that some clue does not allow gives `None`.
pub fn find_solution_valid_at<T: TileStore>(
    map: &T,
    shape: &Shape,
    solution: &Solution,
    min_x: usize,
    min_y: usize,
) -> (r: Option<Vec<Patch>>)
    requires
        map.wf(),
        shape_fits(map@, shape@.group, (min_x, min_y)),
    ensures
        match r {
            Some(patches) => feasible(map@, shape@.group, solution@, (min_x, min_y)) && patches@
                == candidate_patches(shape@.group, solution@, (min_x, min_y)),
            None => !feasible(map@, shape@.group, solution@, (min_x, min_y)),
        },
{
    let group = shape.group.as_slice();
    let ghost b = map@;
    let ghost origin: Coord = (min_x, min_y);
    let mut patches: Vec<Patch> = Vec::new();
    let mut i: usize = 0;
    proof {
        map.lemma_board_wf();
    }
    while i < group.len()
        invariant
            i <= group.len(),
            group@ == shape@.group,
            map.wf(),
            b == map@,
            b.wf(),
            origin == (min_x, min_y),
            shape_fits(b, group@, origin),
            patches@.len() == i,
            forall|j: int|
                0 <= j < i ==> patches@[j] == candidate_patches(group@, solution@, origin)[j],
            forall|j: int|
                0 <= j < i ==> cell_allows(
                    b,
                    group@,
                    solution@,
                    origin,
                    (#[trigger] group@[j]).0 + min_x,
                    group@[j].1 + min_y,
                ),
        decreases group.len() - i,
    {
        let c = group[i];
        assert(b.contains(group@[i as int].0 + min_x, group@[i as int].1 + min_y));
        let actual_x = c.0 + min_x;
        let actual_y = c.1 + min_y;
        if !cell_allows_at(map, group, solution.as_slice(), min_x, min_y, actual_x, actual_y) {
            proof {
                let (x, y) = choose|x: int, y: int|
                    b.contains(x, y) && is_clue(b.tile(x, y)) && next_to(
                        actual_x as int,
                        actual_y as int,
                        x,
                        y,
                    ) && !#[trigger] clue_ok(b, group@, solution@, origin, x, y);
                assert(next_to(group@[i as int].0 + origin.0, group@[i as int].1 + origin.1, x, y));
                assert(touches(group@, origin, x, y));
            }
            return None;
        }
        if contains_cell(solution.as_slice(), c) {
            patches.push(((actual_x, actual_y), ACTIVE));
        } else {
            patches.push(((actual_x, actual_y), NOT_ACTIVE));
        }
        i = i + 1;
    }
    proof {
        assert(patches@ =~= candidate_patches(group@, solution@, origin));
        assert forall|x: int, y: int|
            b.contains(x, y) && is_clue(b.tile(x, y)) && touches(
                group@,
                origin,
                x,
                y,
            ) implies #[trigger] clue_ok(b, group@, solution@, origin, x, y) by {
            let j = choose|j: int|
                0 <= j < group@.len() && next_to(
                    (#[trigger] group@[j]).0 + origin.0,
                    group@[j].1 + origin.1,
                    x,
                    y,
                );
            assert(cell_allows(
                b,
                group@,
                solution@,
                origin,
                group@[j].0 + min_x,
                group@[j].1 + min_y,
            ));
        }
    }
    Some(patches)
}

/// The positions, among the first `n` candidates, of those that are
/// feasible, in rising order.
pub open spec fn feasible_ids(
    b: Board,
    group: Seq<Coord>,
    solutions: Seq<Seq<Coord>>,
    origin: Coord,
    n: int,
) -> Seq<usize>
    decreases n,
{
    if n <= 0 {
        Seq::empty()
    } else {
        let rest = feasible_ids(b, group, solutions, origin, n - 1);
        if feasible(b, group, solutions[n - 1], origin) {
            rest.push((n - 1) as usize)
        } else {
            rest
        }
    }
}

/// Whether all feasible candidates give the cell `c` the same tile.
pub open spec fn all_agree(
    b: Board,
    group: Seq<Coord>,
    solutions: Seq<Seq<Coord>>,
    origin: Coord,
    c: Coord,
) -> bool {
    forall|j: int, k: int|
        #![trigger solutions[j], solutions[k]]
        0 <= j < solutions.len() && 0 <= k < solutions.len() && feasible(
            b,
            group,
            solutions[j],
            origin,
        ) && feasible(b, group, solutions[k], origin) ==> solutions[j].contains(c)
            == solutions[k].contains(c)
}

/// The forced patches among the first `k` cells of the group: for each cell
/// on which all feasible candidates agree, the tile that they give it.
/// `witness` is the position of a feasible candidate.
pub open spec fn forced_patches(
    b: Board,
    group: Seq<Coord>,
    solutions: Seq<Seq<Coord>>,
    origin: Coord,
    witness: int,
    k: int,
) -> Seq<Patch>
    decreases k,
{
    if k <= 0 {
        Seq::empty()
    } else {
        let rest = forced_patches(b, group, solutions, origin, witness, k - 1);
        if all_agree(b, group, solutions, origin, group[k - 1]) {
            rest.push(candidate_patches(group, solutions[witness], origin)[k - 1])
        } else {
            rest
        }
    }
}

/// The cells, among the first `k` of the group, on which the feasible
/// candidates do not agree.
pub open spec fn residual(
    b: Board,
    group: Seq<Coord>,
    solutions: Seq<Seq<Coord>>,
    origin: Coord,
    k: int,
) -> Seq<Coord>
    decreases k,
{
    if k <= 0 {
        Seq::empty()
    } else {
        let rest = residual(b, group, solutions, origin, k - 1);
        if all_agree(b, group, solutions, origin, group[k - 1]) {
            rest
        } else {
            rest.push(group[k - 1])
        }
    }
}

/// The cache after the first `k` of `cells`, moved by `origin`, were bound to
/// the shape `shape_id` at that origin.
pub open spec fn remap(
    cache: CacheModel,
    cells: Seq<Coord>,
    origin: Coord,
    shape_id: ShapeId,
    k: int,
) -> CacheModel
    decreases k,
{
    if k <= 0 {
        cache
    } else {
        remap(cache, cells, origin, shape_id, k - 1).insert(
            ((cells[k - 1].0 + origin.0) as usize, (cells[k - 1].1 + origin.1) as usize),
            (origin, shape_id),
        )
    }
}

/// What the engine returns and what it leaves behind.
pub struct Outcome {
    pub result: Result<Option<Seq<Patch>>, SolveError>,
    pub library: Seq<ShapeView>,
    pub cache: CacheModel,
}

/// What the engine does for the group of shape `shape_id`, placed at
/// `origin`:
/// - a shape without solutions gives no patches;
/// - a shape that leaves the grid is an error;
/// - where no candidate is feasible, the group is inconsistent;
/// - where the feasible candidates agree on no cell, there are no patches;
/// - otherwise the patches are the cells on which they agree. If cells are
///   left over, these, in order, are the cells of a refinement of the shape:
///   the one filed under them and the shape's id, or else a new shape that
///   records the feasible candidates; and the cache binds each left-over
///   cell to the refinement.
/// Nothing changes but in the last case.
pub open spec fn unique_outcome(
    b: Board,
    shape_id: ShapeId,
    shape: ShapeView,
    lib: Seq<ShapeView>,
    cache: CacheModel,
    origin: Coord,
) -> Outcome {
    match shape.solutions {
        None => Outcome { result: Ok(None), library: lib, cache },
        Some(solutions) => {
            let n = solutions.len() as int;
            let used = feasible_ids(b, shape.group, solutions, origin, n);
            if !shape_fits(b, shape.group, origin) {
                Outcome { result: Err(SolveError::OutOfBounds { shape_id }), library: lib, cache }
            } else if used.len() == 0 {
                Outcome { result: Err(SolveError::Inconsistent), library: lib, cache }
            } else {
                let cells = shape.group.len() as int;
                let patches = forced_patches(b, shape.group, solutions, origin, used[0] as int, cells);
                let rest = sorted(residual(b, shape.group, solutions, origin, cells));
                if patches.len() == 0 {
                    Outcome { result: Ok(None), library: lib, cache }
                } else if rest.len() == 0 {
                    Outcome { result: Ok(Some(patches)), library: lib, cache }
                } else {
                    match index_of(lib, rest, Some(shape_id)) {
                        Some(child) => Outcome {
                            result: Ok(Some(patches)),
                            library: lib,
                            cache: remap(cache, rest, origin, child as usize, rest.len() as int),
                        },
                        None => Outcome {
                            result: Ok(Some(patches)),
                            library: lib.push(
                                ShapeView {
                                    group: rest,
                                    solutions: None,
                                    parent: Some(shape_id),
                                    used_solutions: Some(used),
                                },
                            ),
                            cache: remap(cache, rest, origin, lib.len() as usize, rest.len() as int),
                        },
                    }
                }
            }
        },
    }
}

/// Whether what was returned is the result of the outcome.
pub open spec fn result_matches(
    r: Result<Option<Vec<Patch>>, SolveError>,
    want: Result<Option<Seq<Patch>>, SolveError>,
) -> bool {
    match (r, want) {
        (Ok(Some(v)), Ok(Some(s))) => v@ == s,
        (Ok(None), Ok(None)) => true,
        (Err(e), Err(f)) => e == f,
        _ => false,
    }
}

/// Whether all feasible candidates among the first `j` give the cell `c` the
/// tile that the candidate `first` gives it.
pub open spec fn agree_with(
    b: Board,
    group: Seq<Coord>,
    solutions: Seq<Seq<Coord>>,
    origin: Coord,
    c: Coord,
    first: int,
    j: int,
) -> bool {
    forall|q: int|
        0 <= q < j && feasible(b, group, #[trigger] solutions[q], origin) ==> solutions[q].contains(
            c,
        ) == solutions[first].contains(c)
}

/// Agreement with one feasible candidate is agreement of all.
pub proof fn lemma_agree_with_is_all_agree(
    b: Board,
    group: Seq<Coord>,
    solutions: Seq<Seq<Coord>>,
    origin: Coord,
    c: Coord,
    first: int,
)
    requires
        0 <= first < solutions.len(),
        feasible(b, group, solutions[first], origin),
    ensures
        agree_with(b, group, solutions, origin, c, first, solutions.len() as int) == all_agree(
            b,
            group,
            solutions,
            origin,
            c,
        ),
{
    if agree_with(b, group, solutions, origin, c, first, solutions.len() as int) {
        assert forall|j: int, k: int|
            #![trigger solutions[j], solutions[k]]
            0 <= j < solutions.len() && 0 <= k < solutions.len() && feasible(
                b,
                group,
                solutions[j],
                origin,
            ) && feasible(b, group, solutions[k], origin) implies solutions[j].contains(c)
            == solutions[k].contains(c) by {
            assert(solutions[j].contains(c) == solutions[first].contains(c));
            assert(solutions[k].contains(c) == solutions[first].contains(c));
        }
    }
    if all_agree(b, group, solutions, origin, c) {
        assert forall|q: int|
            0 <= q < solutions.len() && feasible(
                b,
                group,
                #[trigger] solutions[q],
                origin,
            ) implies solutions[q].contains(c) == solutions[first].contains(c) by {
            let a = solutions[q];
            let f = solutions[first];
            assert(a.contains(c) == f.contains(c));
        }
    }
}

/// Every left-over cell is a cell of the group on which the candidates
/// disagree, and every such cell among the first `k` is left over.
pub proof fn lemma_residual(
    b: Board,
    group: Seq<Coord>,
    solutions: Seq<Seq<Coord>>,
    origin: Coord,
    k: int,
)
    requires
        0 <= k <= group.len(),
    ensures
        forall|c: Coord|
            residual(b, group, solutions, origin, k).contains(c) <==> (exists|i: int|
                0 <= i < k && #[trigger] group[i] == c && !all_agree(b, group, solutions, origin, c)),
    decreases k,
{
    let r = residual(b, group, solutions, origin, k);
    if k > 0 {
        lemma_residual(b, group, solutions, origin, k - 1);
        let rest = residual(b, group, solutions, origin, k - 1);
        assert forall|c: Coord|
            r.contains(c) <==> (exists|i: int|
                0 <= i < k && #[trigger] group[i] == c && !all_agree(
                    b,
                    group,
                    solutions,
                    origin,
                    c,
                )) by {
            if r.contains(c) {
                let m = choose|m: int| 0 <= m < r.len() && r[m] == c;
                if m < rest.len() {
                    assert(rest[m] == c);
                    assert(rest.contains(c));
                    let i = choose|i: int|
                        0 <= i < k - 1 && #[trigger] group[i] == c && !all_agree(
                            b,
                            group,
                            solutions,
                            origin,
                            c,
                        );
                    assert(0 <= i < k && group[i] == c);
                } else {
                    assert(group[k - 1] == c);
                }
            }
            if exists|i: int|
                0 <= i < k && #[trigger] group[i] == c && !all_agree(b, group, solutions, origin, c) {
                let i = choose|i: int|
                    0 <= i < k && #[trigger] group[i] == c && !all_agree(
                        b,
                        group,
                        solutions,
                        origin,
                        c,
                    );
                if i < k - 1 {
                    assert(rest.contains(c));
                    let m = choose|m: int| 0 <= m < rest.len() && rest[m] == c;
                    assert(r[m] == c);
                } else {
                    assert(r[r.len() - 1] == c);
                }
            }
        }
    } else {
        assert(r =~= Seq::<Coord>::empty());
    }
}

/// Of a group that holds no cell twice, the left-over cells among the first
/// `k` hold none twice, and they are fewer than `k` where the candidates
/// agree on one of those cells.
pub proof fn lemma_residual_smaller(
    b: Board,
    group: Seq<Coord>,
    solutions: Seq<Seq<Coord>>,
    origin: Coord,
    k: int,
)
    requires
        0 <= k <= group.len(),
        group.no_duplicates(),
    ensures
        residual(b, group, solutions, origin, k).no_duplicates(),
        residual(b, group, solutions, origin, k).len() <= k,
        (exists|i: int| 0 <= i < k && all_agree(b, group, solutions, origin, #[trigger] group[i]))
            ==> residual(b, group, solutions, origin, k).len() < k,
    decreases k,
{
    if k > 0 {
        lemma_residual_smaller(b, group, solutions, origin, k - 1);
        lemma_residual(b, group, solutions, origin, k - 1);
        let rest = residual(b, group, solutions, origin, k - 1);
        let last = group[k - 1];
        if rest.contains(last) {
            let i = choose|i: int|
                0 <= i < k - 1 && #[trigger] group[i] == last && !all_agree(
                    b,
                    group,
                    solutions,
                    origin,
                    last,
                );
            assert(group[i] == group[k - 1]);
        }
        assert(!rest.contains(last));
        if !all_agree(b, group, solutions, origin, last) {
            let all = rest.push(last);
            assert forall|i: int, j: int|
                0 <= i < all.len() && 0 <= j < all.len() && i != j implies all[i] != all[j] by {
                if i < rest.len() {
                    assert(rest.contains(rest[i]));
                }
                if j < rest.len() {
                    assert(rest.contains(rest[j]));
                }
            }
            if exists|i: int|
                0 <= i < k && all_agree(b, group, solutions, origin, #[trigger] group[i]) {
                let i = choose|i: int|
                    0 <= i < k && all_agree(b, group, solutions, origin, #[trigger] group[i]);
                assert(i < k - 1);
            }
        }
    }
}

/// The cells that a refinement is made of: where the shape holds no cell
/// twice and a patch is forced, the left-over cells, put in order, hold no
/// cell twice, are fewer than the shape's cells, and are some, not all, of
/// them.
pub proof fn lemma_left_over_is_smaller(
    b: Board,
    group: Seq<Coord>,
    solutions: Seq<Seq<Coord>>,
    origin: Coord,
    witness: int,
)
    requires
        group.no_duplicates(),
        forced_patches(b, group, solutions, origin, witness, group.len() as int).len() > 0,
    ensures
        ({
            let rest = sorted(residual(b, group, solutions, origin, group.len() as int));
            &&& sorted_by(rest, lex_order())
            &&& rest.no_duplicates()
            &&& rest.len() < group.len()
            &&& proper_subset(rest, group)
        }),
{
    broadcast use vstd::seq_lib::group_to_multiset_ensures;

    let k = group.len() as int;
    let left = residual(b, group, solutions, origin, k);
    let rest = sorted(left);
    lemma_forced_has_agreed_cell(b, group, solutions, origin, witness, k);
    lemma_residual_smaller(b, group, solutions, origin, k);
    lemma_residual(b, group, solutions, origin, k);
    lemma_lex_total();
    left.lemma_sort_by_ensures(lex_order());
    vstd::seq_lib::to_multiset_len(left);
    vstd::seq_lib::to_multiset_len(rest);
    left.lemma_multiset_has_no_duplicates();
    rest.lemma_multiset_has_no_duplicates_conv();
    assert forall|c: Coord| rest.contains(c) <==> left.contains(c) by {
        assert(rest.to_multiset().count(c) == left.to_multiset().count(c));
    }
    assert forall|q: int| 0 <= q < rest.len() implies group.contains(#[trigger] rest[q]) by {
        assert(rest.contains(rest[q]));
    }
    let a = choose|a: int| 0 <= a < k && all_agree(b, group, solutions, origin, #[trigger] group[a]);
    assert(!rest.contains(group[a]));
}

/// A shape that the engine adds to the library is a refinement of the shape
/// it looked at: it comes last, names that shape as its parent, has no
/// candidates yet, and holds, in order and in the same coordinates, some but
/// not all of its cells. Where the parent holds no cell twice, the
/// refinement holds none twice and has fewer cells.
pub proof fn lemma_refinement_is_smaller(
    b: Board,
    shape_id: ShapeId,
    shape: ShapeView,
    lib: Seq<ShapeView>,
    cache: CacheModel,
    origin: Coord,
)
    requires
        unique_outcome(b, shape_id, shape, lib, cache, origin).library != lib,
    ensures
        ({
            let after = unique_outcome(b, shape_id, shape, lib, cache, origin).library;
            let child = after.last();
            &&& after == lib.push(child)
            &&& child.parent == Some(shape_id)
            &&& child.solutions is None
            &&& child.group.len() > 0
            &&& sorted_by(child.group, lex_order())
            &&& proper_subset(child.group, shape.group)
            &&& shape.group.no_duplicates() ==> child.group.no_duplicates() && child.group.len()
                < shape.group.len()
        }),
{
    broadcast use vstd::seq_lib::group_to_multiset_ensures;

    let solutions = shape.solutions->Some_0;
    let used = feasible_ids(b, shape.group, solutions, origin, solutions.len() as int);
    let k = shape.group.len() as int;
    let witness = used[0] as int;
    let left = residual(b, shape.group, solutions, origin, k);
    let rest = sorted(left);
    lemma_forced_has_agreed_cell(b, shape.group, solutions, origin, witness, k);
    lemma_residual(b, shape.group, solutions, origin, k);
    lemma_lex_total();
    left.lemma_sort_by_ensures(lex_order());
    assert forall|c: Coord| rest.contains(c) <==> left.contains(c) by {
        assert(rest.to_multiset().count(c) == left.to_multiset().count(c));
    }
    assert forall|q: int| 0 <= q < rest.len() implies shape.group.contains(#[trigger] rest[q]) by {
        assert(rest.contains(rest[q]));
    }
    let a = choose|a: int|
        0 <= a < k && all_agree(b, shape.group, solutions, origin, #[trigger] shape.group[a]);
    assert(!rest.contains(shape.group[a]));
    if shape.group.no_duplicates() {
        lemma_left_over_is_smaller(b, shape.group, solutions, origin, witness);
    }
}

/// The engine keeps the library in order: it adds one shape at most, at the
/// end, the shapes that were there stay as they are, and every parent still
/// comes before its child and holds more cells.
pub proof fn lemma_outcome_keeps_order(
    b: Board,
    shape_id: ShapeId,
    shape: ShapeView,
    lib: Seq<ShapeView>,
    cache: CacheModel,
    origin: Coord,
)
    requires
        library_wf(lib),
        shape_id < lib.len(),
        lib[shape_id as int].group == shape.group,
    ensures
        ({
            let after = unique_outcome(b, shape_id, shape, lib, cache, origin).library;
            &&& extends(after, lib)
            &&& after.len() <= lib.len() + 1
            &&& library_wf(after)
        }),
{
    let after = unique_outcome(b, shape_id, shape, lib, cache, origin).library;
    if after != lib {
        lemma_refinement_is_smaller(b, shape_id, shape, lib, cache, origin);
        assert forall|i: int| 0 <= i < after.len() implies #[trigger] shape_in_order(after, i) by {
            if i < lib.len() {
                assert(shape_in_order(lib, i));
                assert(after[i] == lib[i]);
            }
        }
    }
}

/// Where a patch is forced, the candidates agree on some cell of the group.
pub proof fn lemma_forced_has_agreed_cell(
    b: Board,
    group: Seq<Coord>,
    solutions: Seq<Seq<Coord>>,
    origin: Coord,
    witness: int,
    k: int,
)
    requires
        0 <= k <= group.len(),
        forced_patches(b, group, solutions, origin, witness, k).len() > 0,
    ensures
        exists|i: int| 0 <= i < k && all_agree(b, group, solutions, origin, #[trigger] group[i]),
    decreases k,
{
    if k > 0 {
        if all_agree(b, group, solutions, origin, group[k - 1]) {
        } else {
            lemma_forced_has_agreed_cell(b, group, solutions, origin, witness, k - 1);
        }
    }
}

/// Every forced patch names a cell of the placed group and makes it active
/// or inactive.
pub proof fn lemma_forced_patches_valid(
    b: Board,
    group: Seq<Coord>,
    solutions: Seq<Seq<Coord>>,
    origin: Coord,
    witness: int,
    k: int,
)
    requires
        b.wf(),
        0 <= k <= group.len(),
        shape_fits(b, group, origin),
    ensures
        forall|q: int|
            0 <= q < forced_patches(b, group, solutions, origin, witness, k).len() ==> {
                let p = #[trigger] forced_patches(b, group, solutions, origin, witness, k)[q];
                &&& b.contains(p.0.0 as int, p.0.1 as int)
                &&& in_shape(group, origin, p.0.0 as int, p.0.1 as int)
                &&& (p.1 == ACTIVE || p.1 == NOT_ACTIVE)
            },
    decreases k,
{
    if k > 0 {
        lemma_forced_patches_valid(b, group, solutions, origin, witness, k - 1);
        let rest = forced_patches(b, group, solutions, origin, witness, k - 1);
        let all = forced_patches(b, group, solutions, origin, witness, k);
        assert(b.contains(group[k - 1].0 + origin.0, group[k - 1].1 + origin.1));
        assert forall|q: int| 0 <= q < all.len() implies {
            let p = #[trigger] all[q];
            &&& b.contains(p.0.0 as int, p.0.1 as int)
            &&& in_shape(group, origin, p.0.0 as int, p.0.1 as int)
            &&& (p.1 == ACTIVE || p.1 == NOT_ACTIVE)
        } by {
            if q < rest.len() {
                assert(all[q] == rest[q]);
            } else {
                let p = candidate_patches(group, solutions[witness], origin)[k - 1];
                assert(all[q] == p);
                assert(p.0.0 == group[k - 1].0 + origin.0);
                assert(p.0.1 == group[k - 1].1 + origin.1);
            }
        }
    }
}

/// Keeps the mark of each cell on which `cur` gives the tile that `first`
/// gives.
fn narrow(agree: &mut Vec<bool>, first: &Vec<Patch>, cur: &Vec<Patch>)
    requires
        old(agree)@.len() == first@.len(),
        cur@.len() == first@.len(),
    ensures
        final(agree)@.len() == old(agree)@.len(),
        forall|i: int|
            0 <= i < first@.len() ==> #[trigger] final(agree)@[i] == (old(agree)@[i] && cur@[i].1
                == first@[i].1),
{
    let mut i: usize = 0;
    while i < agree.len()
        invariant
            i <= agree@.len(),
            agree@.len() == old(agree)@.len(),
            agree@.len() == first@.len(),
            cur@.len() == first@.len(),
            forall|q: int|
                0 <= q < i ==> #[trigger] agree@[q] == (old(agree)@[q] && cur@[q].1 == first@[q].1),
            forall|q: int| i <= q < agree@.len() ==> #[trigger] agree@[q] == old(agree)@[q],
        decreases agree.len() - i,
    {
        let keep = agree[i] && cur[i].1 == first[i].1;
        agree.set(i, keep);
        i = i + 1;
    }
}

/// Binds each of `cells`, moved by the origin, to the shape `shape_id`.
fn remap_cells<T: TileStore>(
    map: &T,
    cached_groups: &mut GroupCache,
    cells: &Vec<Coord>,
    min_x: usize,
    min_y: usize,
    shape_id: ShapeId,
)
    requires
        map.wf(),
        old(cached_groups).wf(),
        shape_fits(map@, cells@, (min_x, min_y)),
    ensures
        final(cached_groups).wf(),
        final(cached_groups)@ == remap(
            old(cached_groups)@,
            cells@,
            (min_x, min_y),
            shape_id,
            cells@.len() as int,
        ),
{
    proof {
        map.lemma_board_wf();
    }
    let mut k: usize = 0;
    while k < cells.len()
        invariant
            k <= cells@.len(),
            map@.wf(),
            cached_groups.wf(),
            shape_fits(map@, cells@, (min_x, min_y)),
            cached_groups@ == remap(old(cached_groups)@, cells@, (min_x, min_y), shape_id, k as int),
        decreases cells.len() - k,
    {
        let not_patched = cells[k];
        assert(map@.contains(cells@[k as int].0 + min_x, cells@[k as int].1 + min_y));
        cached_groups.insert(
            not_patched.0 + min_x,
            not_patched.1 + min_y,
            ((min_x, min_y), shape_id),
        );
        k = k + 1;
    }
}

/// Finds what is forced in the group of shape `shape_id`, placed at
/// `(min_x, min_y)`, and records a refinement where the group is settled in
/// part: see `unique_outcome`. `shape` holds the candidates to go by; its
/// cells are those of the library's shape `shape_id`.
pub fn has_locally_unique_solution<T: TileStore>(
    map: &T,
    shape_id: ShapeId,
    shape: &Shape,
    library: &mut ShapeLibrary,
    cached_groups: &mut GroupCache,
    min_x: usize,
    min_y: usize,
) -> (r: Result<Option<Vec<Patch>>, SolveError>)
    requires
        map.wf(),
        old(library).wf(),
        old(cached_groups).wf(),
        shape_id < old(library)@.len(),
        old(library)@[shape_id as int].group == shape@.group,
    ensures
        final(library).wf(),
        final(cached_groups).wf(),
        ({
            let want = unique_outcome(
                map@,
                shape_id,
                shape@,
                old(library)@,
                old(cached_groups)@,
                (min_x, min_y),
            );
            &&& result_matches(r, want.result)
            &&& final(library)@ == want.library
            &&& final(cached_groups)@ == want.cache
        }),
        extends(final(library)@, old(library)@),
        r is Err ==> final(library)@ == old(library)@ && final(cached_groups)@ == old(
            cached_groups,
        )@,
{
    let ghost b = map@;
    let ghost origin: Coord = (min_x, min_y);
    let ghost group = shape@.group;
    let solutions = match &shape.solutions {
        None => {
            return Ok(None);
        },
        Some(solutions) => solutions,
    };
    let ghost sols = shape@.solutions.unwrap();
    if !shape_fits_at(map, shape.group.as_slice(), min_x, min_y) {
        return Err(SolveError::OutOfBounds { shape_id });
    }
    let cells = shape.group.len();
    let total = solutions.len();
    let mut agree: Vec<bool> = Vec::new();
    let mut i: usize = 0;
    while i < cells
        invariant
            i <= cells,
            agree@.len() == i,
            forall|q: int| 0 <= q < i ==> #[trigger] agree@[q],
        decreases cells - i,
    {
        agree.push(true);
        i = i + 1;
    }
    let mut first: Vec<Patch> = Vec::new();
    let mut used_solutions: Vec<usize> = Vec::new();
    let mut solution_id: usize = 0;
    while solution_id < total
        invariant
            solution_id <= total,
            total == solutions@.len(),
            cells == group.len(),
            map.wf(),
            b == map@,
            origin == (min_x, min_y),
            group == shape@.group,
            sols == shape@.solutions.unwrap(),
            shape.solutions == Some(*solutions),
            shape_fits(b, group, origin),
            agree@.len() == cells,
            used_solutions@ == feasible_ids(b, group, sols, origin, solution_id as int),
            forall|q: int|
                0 <= q < used_solutions@.len() ==> (#[trigger] used_solutions@[q]) < solution_id
                    && feasible(b, group, sols[used_solutions@[q] as int], origin),
            used_solutions@.len() == 0 ==> forall|q: int|
                0 <= q < solution_id ==> !feasible(b, group, #[trigger] sols[q], origin),
            used_solutions@.len() > 0 ==> first@ == candidate_patches(
                group,
                sols[used_solutions@[0] as int],
                origin,
            ),
            used_solutions@.len() == 0 ==> forall|q: int| 0 <= q < cells ==> #[trigger] agree@[q],
            used_solutions@.len() > 0 ==> forall|q: int|
                0 <= q < cells ==> #[trigger] agree@[q] == agree_with(
                    b,
                    group,
                    sols,
                    origin,
                    group[q],
                    used_solutions@[0] as int,
                    solution_id as int,
                ),
        decreases total - solution_id,
    {
        let solution = &solutions[solution_id];
        assert(sols[solution_id as int] == solution@);
        let ghost had = used_solutions@;
        match find_solution_valid_at(map, shape, solution, min_x, min_y) {
            Some(cur_patches) => {
                if used_solutions.len() == 0 {
                    first = cur_patches;
                    used_solutions.push(solution_id);
                    proof {
                        let f = solution_id as int;
                        assert forall|q: int| 0 <= q < cells implies #[trigger] agree@[q]
                            == agree_with(b, group, sols, origin, group[q], f, f + 1) by {
                            assert forall|p: int|
                                0 <= p < f + 1 && feasible(
                                    b,
                                    group,
                                    #[trigger] sols[p],
                                    origin,
                                ) implies sols[p].contains(group[q]) == sols[f].contains(
                                group[q],
                            ) by {
                                if p < f {
                                    assert(!feasible(b, group, sols[p], origin));
                                }
                            }
                        }
                    }
                } else {
                    let ghost marks = agree@;
                    narrow(&mut agree, &first, &cur_patches);
                    used_solutions.push(solution_id);
                    proof {
                        let f = used_solutions@[0] as int;
                        let j = solution_id as int;
                        assert(used_solutions@[0] == had[0]);
                        assert forall|q: int| 0 <= q < cells implies #[trigger] agree@[q]
                            == agree_with(b, group, sols, origin, group[q], f, j + 1) by {
                            let c = group[q];
                            assert(marks[q] == agree_with(b, group, sols, origin, c, f, j));
                            assert(cur_patches@[q].1 == candidate_value(sols[j], c));
                            assert(first@[q].1 == candidate_value(sols[f], c));
                            if agree@[q] {
                                assert forall|p: int|
                                    0 <= p < j + 1 && feasible(
                                        b,
                                        group,
                                        #[trigger] sols[p],
                                        origin,
                                    ) implies sols[p].contains(c) == sols[f].contains(c) by {}
                            } else {
                                if marks[q] {
                                    assert(sols[j].contains(c) != sols[f].contains(c));
                                }
                            }
                        }
                    }
                }
                proof {
                    assert forall|q: int| 0 <= q < used_solutions@.len() implies (
                    #[trigger] used_solutions@[q]) < solution_id + 1 && feasible(
                        b,
                        group,
                        sols[used_solutions@[q] as int],
                        origin,
                    ) by {
                        if q < had.len() {
                            assert(used_solutions@[q] == had[q]);
                        }
                    }
                }
            },
            None => {
                proof {
                    if used_solutions@.len() > 0 {
                        let f = used_solutions@[0] as int;
                        let j = solution_id as int;
                        assert forall|q: int| 0 <= q < cells implies #[trigger] agree@[q]
                            == agree_with(b, group, sols, origin, group[q], f, j + 1) by {
                            let c = group[q];
                            assert(agree@[q] == agree_with(b, group, sols, origin, c, f, j));
                            if agree@[q] {
                                assert forall|p: int|
                                    0 <= p < j + 1 && feasible(
                                        b,
                                        group,
                                        #[trigger] sols[p],
                                        origin,
                                    ) implies sols[p].contains(c) == sols[f].contains(c) by {}
                            }
                        }
                    }
                }
            },
        }
        solution_id = solution_id + 1;
    }
    if used_solutions.len() == 0 {
        return Err(SolveError::Inconsistent);
    }
    let ghost witness = used_solutions@[0] as int;
    let mut found_patches: Vec<Patch> = Vec::new();
    let mut not_patched: Vec<Coord> = Vec::new();
    let mut k: usize = 0;
    while k < cells
        invariant
            k <= cells,
            cells == group.len(),
            group == shape@.group,
            agree@.len() == cells,
            first@ == candidate_patches(group, sols[witness], origin),
            0 <= witness < sols.len(),
            feasible(b, group, sols[witness], origin),
            forall|q: int|
                0 <= q < cells ==> #[trigger] agree@[q] == agree_with(
                    b,
                    group,
                    sols,
                    origin,
                    group[q],
                    witness,
                    sols.len() as int,
                ),
            found_patches@ == forced_patches(b, group, sols, origin, witness, k as int),
            not_patched@ == residual(b, group, sols, origin, k as int),
        decreases cells - k,
    {
        proof {
            lemma_agree_with_is_all_agree(b, group, sols, origin, group[k as int], witness);
        }
        if agree[k] {
            found_patches.push(first[k]);
        } else {
            not_patched.push(shape.group[k]);
        }
        k = k + 1;
    }
    if found_patches.len() == 0 {
        return Ok(None);
    }
    if not_patched.len() > 0 {
        let rest = sort_cells(not_patched.as_slice());
        proof {
            broadcast use vstd::seq_lib::group_to_multiset_ensures;

            lemma_residual(b, group, sols, origin, cells as int);
            lemma_forced_has_agreed_cell(b, group, sols, origin, witness, cells as int);
            assert forall|c: Coord| rest@.contains(c) <==> not_patched@.contains(c) by {
                assert(rest@.to_multiset().count(c) == not_patched@.to_multiset().count(c));
            }
            assert forall|q: int| 0 <= q < rest@.len() implies group.contains(
                #[trigger] rest@[q],
            ) by {
                assert(rest@.contains(rest@[q]));
            }
            assert(shape_fits(b, rest@, origin)) by {
                assert forall|q: int| 0 <= q < rest@.len() implies b.contains(
                    (#[trigger] rest@[q]).0 + origin.0,
                    rest@[q].1 + origin.1,
                ) by {
                    assert(group.contains(rest@[q]));
                    let m = choose|m: int| 0 <= m < group.len() && group[m] == rest@[q];
                    assert(b.contains(group[m].0 + origin.0, group[m].1 + origin.1));
                }
            }
            assert(proper_subset(rest@, group)) by {
                let a = choose|a: int|
                    0 <= a < cells && all_agree(b, group, sols, origin, #[trigger] group[a]);
                assert(!rest@.contains(group[a]));
            }
            vstd::seq_lib::to_multiset_len(rest@);
            vstd::seq_lib::to_multiset_len(not_patched@);
            assert(rest@.len() == not_patched@.len());
        }
        let child = match library.lookup_shape(rest.as_slice(), Some(shape_id)) {
            Some(id) => id,
            None => library.register_shape(
                copy_cells(rest.as_slice()),
                Some(shape_id),
                Some(used_solutions),
            ),
        };
        remap_cells(map, cached_groups, &rest, min_x, min_y, child);
    } else {
        proof {
            let left = residual(b, group, sols, origin, cells as int);
            crate::cells::lemma_lex_total();
            left.lemma_sort_by_ensures(crate::cells::lex_order());
            vstd::seq_lib::to_multiset_len(left);
            vstd::seq_lib::to_multiset_len(sorted(left));
        }
    }
    Ok(Some(found_patches))
}

} // verus!
