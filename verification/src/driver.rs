//! The propagation driver.
//!
//! A stack of cells waits to be examined. For each cell taken from it the
//! driver resolves the group, asks the engine what is forced, writes the
//! forced tiles, lowers the clues beside newly active cells, and puts the
//! cells around every clue whose surroundings changed back on the stack.

use vstd::prelude::*;
use crate::cache::{resolve_fresh, resolve_group, CacheEntry, CacheModel, GroupCache};
use crate::cells::Coord;
use crate::engine::{
    has_locally_unique_solution, lemma_forced_patches_valid, unique_outcome, Patch,
};
use crate::error::SolveError;
use crate::grid::{same_base, wrote, Board, Layer, TileStore};
use crate::measure::{
    clue_at, clue_sum, has_clue_neighbour, lemma_measure_nonneg, lemma_write_clue_sum,
    lemma_write_waiting, less_work, not_more_work, waiting,
};
use crate::shape::{extends, Shape, ShapeId, ShapeLibrary, ShapeView};
use crate::flood::open_cell;
use crate::headroom::lemma_settle_errors;
use crate::soundness::{
    consistent, kept, lemma_kept_refl, lemma_kept_trans, lemma_settle_sound, lemma_step_sound,
    placed_open,
};
use crate::tile::{clue_tile, is_clue, ACTIVE, NOT_ACTIVE, UNPROCESSED};

verus! {

/// The cell `(x, y)` where it lies inside the board, nothing otherwise.
pub open spec fn cell_if_inside(b: Board, x: int, y: int) -> Seq<Coord> {
    if b.contains(x, y) {
        seq![(x as usize, y as usize)]
    } else {
        Seq::empty()
    }
}

/// The neighbours of `(x, y)` inside the board: below, right, above, left.
pub open spec fn neighbours(b: Board, x: int, y: int) -> Seq<Coord> {
    cell_if_inside(b, x, y + 1) + cell_if_inside(b, x + 1, y) + cell_if_inside(b, x, y - 1)
        + cell_if_inside(b, x - 1, y)
}

/// What a cell that changed to `value` does to the cell `(mx, my)` beside
/// it. Nothing, where that is no clue. A clue beside a newly active cell
/// is lowered by one, which is an error for a clue of 1. In either case the
/// neighbours of the clue go on the stack.
pub open spec fn touch(b: Board, todo: Seq<Coord>, mx: int, my: int, value: u8) -> Result<
    (Board, Seq<Coord>),
    SolveError,
> {
    if !clue_at(b, mx, my) {
        Ok((b, todo))
    } else if value == ACTIVE {
        if b.tile(mx, my) <= 1 {
            Err(SolveError::ClueUnderflow { x: mx as usize, y: my as usize })
        } else {
            Ok((b.with_tile(mx, my, (b.tile(mx, my) - 1) as u8), todo + neighbours(b, mx, my)))
        }
    } else {
        Ok((b, todo + neighbours(b, mx, my)))
    }
}

/// `touch` after what came before it went well.
pub open spec fn then_touch(
    r: Result<(Board, Seq<Coord>), SolveError>,
    mx: int,
    my: int,
    value: u8,
) -> Result<(Board, Seq<Coord>), SolveError> {
    match r {
        Ok((b, todo)) => touch(b, todo, mx, my, value),
        Err(e) => Err(e),
    }
}

/// Writing one patch: the tile is replaced, and where that changed it, the
/// four cells beside it are touched: below, right, above, left.
pub open spec fn commit_one(b: Board, todo: Seq<Coord>, patch: Patch) -> Result<
    (Board, Seq<Coord>),
    SolveError,
> {
    let x = patch.0.0 as int;
    let y = patch.0.1 as int;
    let value = patch.1;
    let written = b.with_tile(x, y, value);
    if b.tile(x, y) == value {
        Ok((written, todo))
    } else {
        then_touch(
            then_touch(
                then_touch(touch(written, todo, x, y + 1, value), x + 1, y, value),
                x,
                y - 1,
                value,
            ),
            x - 1,
            y,
            value,
        )
    }
}

/// Writing the first `k` patches, one after the other.
pub open spec fn commit(b: Board, todo: Seq<Coord>, patches: Seq<Patch>, k: int) -> Result<
    (Board, Seq<Coord>),
    SolveError,
>
    decreases k,
{
    if k <= 0 {
        Ok((b, todo))
    } else {
        match commit(b, todo, patches, k - 1) {
            Ok((b1, todo1)) => commit_one(b1, todo1, patches[k - 1]),
            Err(e) => Err(e),
        }
    }
}

/// The board after the cell `(mx, my)` was touched, where that went well.
pub open spec fn touched_board(b: Board, mx: int, my: int, value: u8) -> Board {
    if clue_at(b, mx, my) && value == ACTIVE {
        b.with_tile(mx, my, (b.tile(mx, my) - 1) as u8)
    } else {
        b
    }
}

/// The layer of the store after the cell `(mx, my)` was touched: a clue
/// that is lowered is written, nothing else is.
pub open spec fn touch_layer(layer: Option<Layer>, b: Board, mx: int, my: int, value: u8) -> Option<
    Layer,
> {
    if clue_at(b, mx, my) && value == ACTIVE {
        wrote(layer, b.index(mx, my), (b.tile(mx, my) - 1) as u8)
    } else {
        layer
    }
}

/// The layer of the store after the four cells beside `(x, y)` were
/// touched: below, right, above, left.
pub open spec fn touch_around_layer(layer: Option<Layer>, b: Board, x: int, y: int, value: u8) -> Option<
    Layer,
> {
    let l1 = touch_layer(layer, b, x, y + 1, value);
    let b1 = touched_board(b, x, y + 1, value);
    let l2 = touch_layer(l1, b1, x + 1, y, value);
    let b2 = touched_board(b1, x + 1, y, value);
    let l3 = touch_layer(l2, b2, x, y - 1, value);
    let b3 = touched_board(b2, x, y - 1, value);
    touch_layer(l3, b3, x - 1, y, value)
}

/// The layer of the store after one patch was written: the patched cell is
/// written in any case, and where that changed its tile, the clues beside
/// it that are lowered.
pub open spec fn commit_one_layer(layer: Option<Layer>, b: Board, patch: Patch) -> Option<Layer> {
    let x = patch.0.0 as int;
    let y = patch.0.1 as int;
    let value = patch.1;
    let written = wrote(layer, b.index(x, y), value);
    if b.tile(x, y) == value {
        written
    } else {
        touch_around_layer(written, b.with_tile(x, y, value), x, y, value)
    }
}

/// The layer of the store after the first `k` patches were written.
pub open spec fn commit_layer(
    layer: Option<Layer>,
    b: Board,
    todo: Seq<Coord>,
    patches: Seq<Patch>,
    k: int,
) -> Option<Layer>
    decreases k,
{
    if k <= 0 {
        layer
    } else {
        let sofar = commit_layer(layer, b, todo, patches, k - 1);
        match commit(b, todo, patches, k - 1) {
            Ok((b1, _)) => commit_one_layer(sofar, b1, patches[k - 1]),
            Err(_) => sofar,
        }
    }
}

/// Whether every patch names a cell of the board and makes it active or
/// inactive.
pub open spec fn patches_valid(b: Board, patches: Seq<Patch>) -> bool {
    forall|q: int|
        0 <= q < patches.len() ==> b.contains(
            (#[trigger] patches[q]).0.0 as int,
            patches[q].0.1 as int,
        ) && (patches[q].1 == ACTIVE || patches[q].1 == NOT_ACTIVE)
}

/// Everything that a run of the solver reads and changes.
pub struct SolverState {
    pub board: Board,
    pub library: Seq<ShapeView>,
    pub cache: CacheModel,
    pub todo: Seq<Coord>,
}

/// How a run fails: the error, and the library as the run leaves it.
pub struct Failure {
    pub error: SolveError,
    pub library: Seq<ShapeView>,
}

/// The answer for the cell `c`: what is cached for it, or else a fresh
/// resolution, which is then cached.
pub open spec fn resolve(b: Board, lib: Seq<ShapeView>, cache: CacheModel, c: Coord) -> Result<
    (CacheEntry, CacheModel),
    SolveError,
> {
    match cache.get(c) {
        Some(e) => Ok((e, cache)),
        None => match resolve_fresh(b, lib, c) {
            Some(e) => Ok((e, cache.insert(c, e))),
            None => Err(SolveError::MissingShape { x: c.0, y: c.1 }),
        },
    }
}

/// What the engine found for a group is applied to the state.
pub open spec fn settle(
    s: SolverState,
    todo: Seq<Coord>,
    shape_id: ShapeId,
    shape: ShapeView,
    cache: CacheModel,
    origin: Coord,
) -> Result<SolverState, Failure> {
    let out = unique_outcome(s.board, shape_id, shape, s.library, cache, origin);
    match out.result {
        Err(e) => Err(Failure { error: e, library: out.library }),
        Ok(None) => Ok(
            SolverState { board: s.board, library: out.library, cache: out.cache, todo },
        ),
        Ok(Some(patches)) => match commit(s.board, todo, patches, patches.len() as int) {
            Err(e) => Err(Failure { error: e, library: out.library }),
            Ok((board, after)) => Ok(
                SolverState { board, library: out.library, cache: out.cache, todo: after },
            ),
        },
    }
}

/// One iteration of the driver: the last cell of the stack is taken. A cell
/// outside the board or not unprocessed is skipped. Otherwise its group is
/// resolved, the engine is asked, and what it forces is written.
pub open spec fn step(s: SolverState) -> Result<SolverState, Failure> {
    let c = s.todo.last();
    let todo = s.todo.drop_last();
    if !s.board.contains(c.0 as int, c.1 as int) || s.board.tile(c.0 as int, c.1 as int)
        != UNPROCESSED {
        Ok(SolverState { todo, ..s })
    } else {
        match resolve(s.board, s.library, s.cache, c) {
            Err(e) => Err(Failure { error: e, library: s.library }),
            Ok((entry, cache)) => if entry.1 >= s.library.len() {
                Err(Failure { error: SolveError::UnknownShape { shape_id: entry.1 }, library: s.library })
            } else {
                settle(s, todo, entry.1, s.library[entry.1 as int], cache, entry.0)
            },
        }
    }
}

/// The state after at most `n` iterations: the driver stops at the first
/// error, and when the stack is empty.
pub open spec fn run(s: SolverState, n: nat) -> Result<SolverState, Failure>
    decreases n,
{
    if n == 0 {
        Ok(s)
    } else {
        match run(s, (n - 1) as nat) {
            Err(e) => Err(e),
            Ok(m) => if m.todo.len() == 0 {
                Ok(m)
            } else {
                step(m)
            },
        }
    }
}

/// The layer of the store after what the engine found for a group was
/// applied: the patches are written, if there are any.
pub open spec fn settle_layer(
    layer: Option<Layer>,
    s: SolverState,
    todo: Seq<Coord>,
    shape_id: ShapeId,
    shape: ShapeView,
    cache: CacheModel,
    origin: Coord,
) -> Option<Layer> {
    match unique_outcome(s.board, shape_id, shape, s.library, cache, origin).result {
        Ok(Some(patches)) => commit_layer(layer, s.board, todo, patches, patches.len() as int),
        _ => layer,
    }
}

/// The layer of the store after one iteration of the driver.
pub open spec fn step_layer(layer: Option<Layer>, s: SolverState) -> Option<Layer> {
    let c = s.todo.last();
    let todo = s.todo.drop_last();
    if !s.board.contains(c.0 as int, c.1 as int) || s.board.tile(c.0 as int, c.1 as int)
        != UNPROCESSED {
        layer
    } else {
        match resolve(s.board, s.library, s.cache, c) {
            Err(_) => layer,
            Ok((entry, cache)) => if entry.1 >= s.library.len() {
                layer
            } else {
                settle_layer(layer, s, todo, entry.1, s.library[entry.1 as int], cache, entry.0)
            },
        }
    }
}

/// The layer of the store after at most `n` iterations.
pub open spec fn run_layer(layer: Option<Layer>, s: SolverState, n: nat) -> Option<Layer>
    decreases n,
{
    if n == 0 {
        layer
    } else {
        let sofar = run_layer(layer, s, (n - 1) as nat);
        match run(s, (n - 1) as nat) {
            Ok(m) => if m.todo.len() == 0 {
                sofar
            } else {
                step_layer(sofar, m)
            },
            Err(_) => sofar,
        }
    }
}

/// Whether the run from `s`, on a store with the layer `layer`, ends well in
/// `end` with the layer `last`.
pub open spec fn run_ends_with(
    s: SolverState,
    layer: Option<Layer>,
    end: SolverState,
    last: Option<Layer>,
) -> bool {
    exists|n: nat| #[trigger]
        run(s, n) == Ok::<SolverState, Failure>(end) && end.todo.len() == 0 && run_layer(
            layer,
            s,
            n,
        ) == last
}

/// Once the driver has stopped, more iterations write nothing.
pub proof fn lemma_run_layer_stays(layer: Option<Layer>, s: SolverState, n: nat, more: nat)
    requires
        n <= more,
        run(s, n) matches Ok(m) ==> m.todo.len() == 0,
    ensures
        run_layer(layer, s, more) == run_layer(layer, s, n),
    decreases more,
{
    if n < more {
        lemma_run_layer_stays(layer, s, n, (more - 1) as nat);
        lemma_run_stays(s, n, (more - 1) as nat);
    }
}

/// A run that ends well leaves one layer.
pub proof fn lemma_run_layer_deterministic(
    s: SolverState,
    layer: Option<Layer>,
    a: SolverState,
    la: Option<Layer>,
    b: SolverState,
    lb: Option<Layer>,
)
    requires
        run_ends_with(s, layer, a, la),
        run_ends_with(s, layer, b, lb),
    ensures
        a == b,
        la == lb,
{
    let n = choose|n: nat| #[trigger]
        run(s, n) == Ok::<SolverState, Failure>(a) && a.todo.len() == 0 && run_layer(layer, s, n)
            == la;
    let k = choose|k: nat| #[trigger]
        run(s, k) == Ok::<SolverState, Failure>(b) && b.todo.len() == 0 && run_layer(layer, s, k)
            == lb;
    if n <= k {
        lemma_run_stays(s, n, k);
        lemma_run_layer_stays(layer, s, n, k);
    } else {
        lemma_run_stays(s, k, n);
        lemma_run_layer_stays(layer, s, k, n);
    }
}

/// Whether the run from `s` ends in `end`: after some number of iterations
/// the driver has stopped there.
pub open spec fn run_ends_in(s: SolverState, end: Result<SolverState, Failure>) -> bool {
    exists|n: nat| #[trigger]
        run(s, n) == end && (end matches Ok(m) ==> m.todo.len() == 0)
}

/// Once the driver has stopped, more iterations change nothing.
pub proof fn lemma_run_stays(s: SolverState, n: nat, more: nat)
    requires
        n <= more,
        run(s, n) matches Ok(m) ==> m.todo.len() == 0,
    ensures
        run(s, more) == run(s, n),
    decreases more,
{
    if n < more {
        lemma_run_stays(s, n, (more - 1) as nat);
    }
}

/// A run has one end: run twice from the same state, the driver stops with
/// the same grid, library and cache, or with the same error.
pub proof fn lemma_run_deterministic(
    s: SolverState,
    a: Result<SolverState, Failure>,
    b: Result<SolverState, Failure>,
)
    requires
        run_ends_in(s, a),
        run_ends_in(s, b),
    ensures
        a == b,
{
    let n = choose|n: nat| #[trigger] run(s, n) == a && (a matches Ok(m) ==> m.todo.len() == 0);
    let k = choose|k: nat| #[trigger] run(s, k) == b && (b matches Ok(m) ==> m.todo.len() == 0);
    if n <= k {
        lemma_run_stays(s, n, k);
    } else {
        lemma_run_stays(s, k, n);
    }
}

/// Puts the neighbours of `(x, y)` inside the grid on the stack.
fn push_neighbours<T: TileStore>(map: &T, todo: &mut Vec<Coord>, x: usize, y: usize)
    requires
        map.wf(),
        map@.contains(x as int, y as int),
    ensures
        final(todo)@ == old(todo)@ + neighbours(map@, x as int, y as int),
{
    let w = map.width();
    let h = map.height();
    let ghost t0 = todo@;
    let ghost b = map@;
    if y + 1 < h {
        todo.push((x, y + 1));
    }
    let ghost t1 = todo@;
    assert(t1 =~= t0 + cell_if_inside(b, x as int, y + 1));
    if x + 1 < w {
        todo.push((x + 1, y));
    }
    let ghost t2 = todo@;
    assert(t2 =~= t1 + cell_if_inside(b, x + 1, y as int));
    if y > 0 {
        todo.push((x, y - 1));
    }
    let ghost t3 = todo@;
    assert(t3 =~= t2 + cell_if_inside(b, x as int, y - 1));
    if x > 0 {
        todo.push((x - 1, y));
    }
    assert(todo@ =~= t3 + cell_if_inside(b, x - 1, y as int));
    assert(todo@ =~= t0 + neighbours(b, x as int, y as int));
}

/// What `touch` does to the work bound: the board stays as it is or the sum
/// of its clues shrinks; a clue stays a clue; the stack grows only beside a
/// clue; and a clue beside a newly active cell is lowered.
pub proof fn lemma_touch(b: Board, todo: Seq<Coord>, mx: int, my: int, value: u8)
    requires
        b.wf(),
        touch(b, todo, mx, my, value) is Ok,
    ensures
        ({
            let (after, more) = touch(b, todo, mx, my, value).unwrap();
            &&& after.wf()
            &&& after.width == b.width
            &&& after.height == b.height
            &&& (after == b || clue_sum(after) < clue_sum(b))
            &&& more.len() >= todo.len()
            &&& (more.len() > todo.len() ==> clue_at(b, mx, my))
            &&& (clue_at(b, mx, my) && value == ACTIVE ==> clue_sum(after) < clue_sum(b))
            &&& forall|qx: int, qy: int| #[trigger] clue_at(after, qx, qy) == clue_at(b, qx, qy)
        }),
{
    if clue_at(b, mx, my) && value == ACTIVE {
        let lower = (b.tile(mx, my) - 1) as u8;
        lemma_write_clue_sum(b, mx, my, lower);
        b.lemma_with_tile(mx, my, lower);
        let after = b.with_tile(mx, my, lower);
        assert forall|qx: int, qy: int| #[trigger] clue_at(after, qx, qy) == clue_at(
            b,
            qx,
            qy,
        ) by {
            if b.contains(qx, qy) && !(qx == mx && qy == my) {
                assert(after.tile(qx, qy) == b.tile(qx, qy));
            }
        }
    }
}

/// What writing one patch does to the work bound: it does not grow, and it
/// shrinks where the stack grows.
pub proof fn lemma_commit_one(b: Board, todo: Seq<Coord>, patch: Patch)
    requires
        b.wf(),
        b.contains(patch.0.0 as int, patch.0.1 as int),
        patch.1 == ACTIVE || patch.1 == NOT_ACTIVE,
        commit_one(b, todo, patch) is Ok,
    ensures
        ({
            let (after, more) = commit_one(b, todo, patch).unwrap();
            &&& after.wf()
            &&& after.width == b.width
            &&& after.height == b.height
            &&& not_more_work(after, b)
            &&& more.len() >= todo.len()
            &&& (more.len() > todo.len() ==> less_work(after, b))
        }),
{
    let x = patch.0.0 as int;
    let y = patch.0.1 as int;
    let value = patch.1;
    let b1 = b.with_tile(x, y, value);
    lemma_write_clue_sum(b, x, y, value);
    b.lemma_with_tile(x, y, value);
    if b.tile(x, y) == value {
        b.lemma_index_in_range(x, y);
        assert(b1.cells =~= b.cells);
    } else {
        let r1 = touch(b1, todo, x, y + 1, value);
        let (b2, t2) = r1.unwrap();
        lemma_touch(b1, todo, x, y + 1, value);
        let r2 = touch(b2, t2, x + 1, y, value);
        let (b3, t3) = r2.unwrap();
        lemma_touch(b2, t2, x + 1, y, value);
        let r3 = touch(b3, t3, x, y - 1, value);
        let (b4, t4) = r3.unwrap();
        lemma_touch(b3, t3, x, y - 1, value);
        let r4 = touch(b4, t4, x - 1, y, value);
        let (b5, t5) = r4.unwrap();
        lemma_touch(b4, t4, x - 1, y, value);
        assert(clue_at(b2, x + 1, y) == clue_at(b1, x + 1, y));
        assert(clue_at(b3, x, y - 1) == clue_at(b1, x, y - 1)) by {
            assert(clue_at(b3, x, y - 1) == clue_at(b2, x, y - 1));
            assert(clue_at(b2, x, y - 1) == clue_at(b1, x, y - 1));
        }
        assert(clue_at(b4, x - 1, y) == clue_at(b1, x - 1, y)) by {
            assert(clue_at(b4, x - 1, y) == clue_at(b3, x - 1, y));
            assert(clue_at(b3, x - 1, y) == clue_at(b2, x - 1, y));
            assert(clue_at(b2, x - 1, y) == clue_at(b1, x - 1, y));
        }
        if !is_clue(b.tile(x, y)) {
            lemma_write_waiting(b, x, y, value);
            assert(has_clue_neighbour(b1, x, y) == has_clue_neighbour(b, x, y));
        }
        if clue_sum(b5) == clue_sum(b1) {
            assert(b2 == b1);
            assert(b3 == b1);
            assert(b4 == b1);
            assert(b5 == b1);
        }
    }
}

/// What writing the first `k` patches does to the work bound.
pub proof fn lemma_commit(b: Board, todo: Seq<Coord>, patches: Seq<Patch>, k: int)
    requires
        b.wf(),
        patches_valid(b, patches),
        0 <= k <= patches.len(),
        commit(b, todo, patches, k) is Ok,
    ensures
        ({
            let (after, more) = commit(b, todo, patches, k).unwrap();
            &&& after.wf()
            &&& after.width == b.width
            &&& after.height == b.height
            &&& not_more_work(after, b)
            &&& more.len() >= todo.len()
            &&& (more.len() > todo.len() ==> less_work(after, b))
        }),
    decreases k,
{
    if k > 0 {
        lemma_commit(b, todo, patches, k - 1);
        let (b1, t1) = commit(b, todo, patches, k - 1).unwrap();
        assert(b.contains(patches[k - 1].0.0 as int, patches[k - 1].0.1 as int));
        lemma_commit_one(b1, t1, patches[k - 1]);
    }
}

/// Touches the cell `(mx, my)` beside a cell that changed to `value`.
fn touch_at<T: TileStore>(
    map: &mut T,
    todo: &mut Vec<Coord>,
    mx: usize,
    my: usize,
    value: u8,
) -> (r: Result<(), SolveError>)
    requires
        old(map).wf(),
        old(map)@.contains(mx as int, my as int),
    ensures
        final(map).wf(),
        final(map)@.width == old(map)@.width,
        final(map)@.height == old(map)@.height,
        same_base(final(map).layer(), old(map).layer()),
        match r {
            Ok(()) => touch(old(map)@, old(todo)@, mx as int, my as int, value) == Ok::<
                (Board, Seq<Coord>),
                SolveError,
            >((final(map)@, final(todo)@)),
            Err(e) => touch(old(map)@, old(todo)@, mx as int, my as int, value) == Err::<
                (Board, Seq<Coord>),
                SolveError,
            >(e),
        },
        r is Ok ==> final(map).layer() == touch_layer(
            old(map).layer(),
            old(map)@,
            mx as int,
            my as int,
            value,
        ),
{
    let potential_number = map.get(mx, my);
    if clue_tile(potential_number) {
        if value == ACTIVE {
            if potential_number <= 1 {
                return Err(SolveError::ClueUnderflow { x: mx, y: my });
            }
            map.set(mx, my, potential_number - 1);
        }
        push_neighbours(map, todo, mx, my);
    }
    Ok(())
}

/// Touches the four cells beside `(x, y)`, which changed to `value`.
fn touch_around<T: TileStore>(
    map: &mut T,
    todo: &mut Vec<Coord>,
    x: usize,
    y: usize,
    value: u8,
) -> (r: Result<(), SolveError>)
    requires
        old(map).wf(),
        old(map)@.contains(x as int, y as int),
    ensures
        final(map).wf(),
        final(map)@.width == old(map)@.width,
        final(map)@.height == old(map)@.height,
        same_base(final(map).layer(), old(map).layer()),
        ({
            let want = then_touch(
                then_touch(
                    then_touch(touch(old(map)@, old(todo)@, x as int, y + 1, value), x + 1, y as int, value),
                    x as int,
                    y - 1,
                    value,
                ),
                x - 1,
                y as int,
                value,
            );
            match r {
                Ok(()) => want == Ok::<(Board, Seq<Coord>), SolveError>((final(map)@, final(todo)@)),
                Err(e) => want == Err::<(Board, Seq<Coord>), SolveError>(e),
            }
        }),
        r is Ok ==> final(map).layer() == touch_around_layer(
            old(map).layer(),
            old(map)@,
            x as int,
            y as int,
            value,
        ),
{
    let w = map.width();
    let h = map.height();
    let mut r: Result<(), SolveError> = Ok(());
    if y + 1 < h {
        r = touch_at(map, todo, x, y + 1, value);
    }
    if r.is_ok() && x + 1 < w {
        r = touch_at(map, todo, x + 1, y, value);
    }
    if r.is_ok() && y > 0 {
        r = touch_at(map, todo, x, y - 1, value);
    }
    if r.is_ok() && x > 0 {
        r = touch_at(map, todo, x - 1, y, value);
    }
    r
}

/// Writes one patch and touches the cells beside it.
fn commit_patch<T: TileStore>(map: &mut T, todo: &mut Vec<Coord>, patch: Patch) -> (r: Result<
    (),
    SolveError,
>)
    requires
        old(map).wf(),
        old(map)@.contains(patch.0.0 as int, patch.0.1 as int),
        patch.1 == ACTIVE || patch.1 == NOT_ACTIVE,
    ensures
        final(map).wf(),
        final(map)@.width == old(map)@.width,
        final(map)@.height == old(map)@.height,
        same_base(final(map).layer(), old(map).layer()),
        match r {
            Ok(()) => commit_one(old(map)@, old(todo)@, patch) == Ok::<
                (Board, Seq<Coord>),
                SolveError,
            >((final(map)@, final(todo)@)),
            Err(e) => commit_one(old(map)@, old(todo)@, patch) == Err::<
                (Board, Seq<Coord>),
                SolveError,
            >(e),
        },
        r is Ok ==> final(map).layer() == commit_one_layer(old(map).layer(), old(map)@, patch),
{
    let x = patch.0.0;
    let y = patch.0.1;
    let value = patch.1;
    let old_value = map.get(x, y);
    map.set(x, y, value);
    if old_value != value {
        touch_around(map, todo, x, y, value)
    } else {
        Ok(())
    }
}

/// Writes the patches, one after the other, each with what follows from it:
/// see `commit`, and `commit_layer` for what a store with a layer records.
/// The work bound does not grow, and it shrinks where cells are put on the
/// stack.
pub fn apply_patches<T: TileStore>(map: &mut T, todo: &mut Vec<Coord>, patches: &Vec<Patch>) -> (r:
    Result<(), SolveError>)
    requires
        old(map).wf(),
        patches_valid(old(map)@, patches@),
    ensures
        final(map).wf(),
        final(map)@.width == old(map)@.width,
        final(map)@.height == old(map)@.height,
        same_base(final(map).layer(), old(map).layer()),
        match r {
            Ok(()) => commit(old(map)@, old(todo)@, patches@, patches@.len() as int) == Ok::<
                (Board, Seq<Coord>),
                SolveError,
            >((final(map)@, final(todo)@)),
            Err(e) => commit(old(map)@, old(todo)@, patches@, patches@.len() as int) == Err::<
                (Board, Seq<Coord>),
                SolveError,
            >(e),
        },
        r is Ok ==> final(map).layer() == commit_layer(
            old(map).layer(),
            old(map)@,
            old(todo)@,
            patches@,
            patches@.len() as int,
        ),
        r is Ok ==> not_more_work(final(map)@, old(map)@),
        r is Ok ==> final(todo)@.len() >= old(todo)@.len(),
        r is Ok && final(todo)@.len() > old(todo)@.len() ==> less_work(final(map)@, old(map)@),
{
    let ghost b0 = map@;
    let ghost t0 = todo@;
    let ghost l0 = map.layer();
    let mut k: usize = 0;
    proof {
        map.lemma_board_wf();
    }
    while k < patches.len()
        invariant
            k <= patches@.len(),
            map.wf(),
            b0 == old(map)@,
            t0 == old(todo)@,
            b0.wf(),
            map@.width == b0.width,
            map@.height == b0.height,
            same_base(map.layer(), old(map).layer()),
            patches_valid(b0, patches@),
            l0 == old(map).layer(),
            commit(b0, t0, patches@, k as int) == Ok::<(Board, Seq<Coord>), SolveError>(
                (map@, todo@),
            ),
            map.layer() == commit_layer(l0, b0, t0, patches@, k as int),
        decreases patches.len() - k,
    {
        let patch = patches[k];
        assert(b0.contains(patches@[k as int].0.0 as int, patches@[k as int].0.1 as int));
        match commit_patch(map, todo, patch) {
            Err(e) => {
                proof {
                    lemma_commit_error(b0, t0, patches@, k as int + 1, patches@.len() as int);
                }
                return Err(e);
            },
            Ok(()) => {},
        }
        k = k + 1;
    }
    proof {
        lemma_commit(b0, t0, patches@, patches@.len() as int);
    }
    Ok(())
}

/// An error after `k` patches is the error of the whole list.
pub proof fn lemma_commit_error(b: Board, todo: Seq<Coord>, patches: Seq<Patch>, k: int, n: int)
    requires
        0 <= k <= n,
        commit(b, todo, patches, k) is Err,
    ensures
        commit(b, todo, patches, n) == commit(b, todo, patches, k),
    decreases n,
{
    if k < n {
        lemma_commit_error(b, todo, patches, k, n - 1);
    }
}

/// The state that the driver's arguments stand for.
pub open spec fn state_of(
    board: Board,
    library: Seq<ShapeView>,
    cache: CacheModel,
    todo: Seq<Coord>,
) -> SolverState {
    SolverState { board, library, cache, todo }
}

/// Whether the driver has less left to do in `after` than in `before`: the
/// work bound of the board shrank, or it did not grow and the stack shrank.
pub open spec fn progress(after: SolverState, before: SolverState) -> bool {
    less_work(after.board, before.board) || (not_more_work(after.board, before.board)
        && after.todo.len() < before.todo.len())
}

/// Whether `r` is no error but the two that a consistent state allows: a
/// group without a top-level shape, and a group without a feasible
/// candidate.
pub open spec fn fails_fairly(r: Result<(), SolveError>) -> bool {
    match r {
        Ok(()) => true,
        Err(e) => e is MissingShape || e == SolveError::Inconsistent,
    }
}

/// Asks the engine about the group of shape `shape_id` at `(min_x, min_y)`
/// and writes what it forces: see `settle`. Where the cells of the placed
/// shape are unprocessed, this fails only for want of a feasible candidate.
pub fn settle_at<T: TileStore>(
    map: &mut T,
    library: &mut ShapeLibrary,
    cached_groups: &mut GroupCache,
    todo: &mut Vec<Coord>,
    shape_id: ShapeId,
    shape: &Shape,
    min_x: usize,
    min_y: usize,
) -> (r: Result<(), SolveError>)
    requires
        old(map).wf(),
        old(library).wf(),
        old(cached_groups).wf(),
        shape_id < old(library)@.len(),
        old(library)@[shape_id as int].group == shape@.group,
    ensures
        final(map).wf(),
        final(library).wf(),
        final(cached_groups).wf(),
        final(map)@.width == old(map)@.width,
        final(map)@.height == old(map)@.height,
        same_base(final(map).layer(), old(map).layer()),
        ({
            let before = state_of(old(map)@, old(library)@, old(cached_groups)@, old(todo)@);
            let after = state_of(final(map)@, final(library)@, final(cached_groups)@, final(todo)@);
            let want = settle(
                before,
                old(todo)@,
                shape_id,
                shape@,
                old(cached_groups)@,
                (min_x, min_y),
            );
            match r {
                Ok(()) => want == Ok::<SolverState, Failure>(after),
                Err(e) => want == Err::<SolverState, Failure>(
                    Failure { error: e, library: final(library)@ },
                ),
            }
        }),
        extends(final(library)@, old(library)@),
        r is Ok ==> final(map).layer() == settle_layer(
            old(map).layer(),
            state_of(old(map)@, old(library)@, old(cached_groups)@, old(todo)@),
            old(todo)@,
            shape_id,
            shape@,
            old(cached_groups)@,
            (min_x, min_y),
        ),
        r is Ok ==> not_more_work(final(map)@, old(map)@),
        r is Ok ==> final(todo)@.len() >= old(todo)@.len(),
        r is Ok && final(todo)@.len() > old(todo)@.len() ==> less_work(final(map)@, old(map)@),
        placed_open(old(map)@, shape@.group, (min_x, min_y)) ==> (r matches Err(e) ==> e
            == SolveError::Inconsistent),
{
    let ghost b = map@;
    proof {
        map.lemma_board_wf();
        if shape.solutions is Some {
            let v = shape.solutions->Some_0;
            assert(v.len() == v@.len());
        }
        if placed_open(b, shape@.group, (min_x, min_y)) {
            lemma_settle_errors(
                state_of(map@, library@, cached_groups@, todo@),
                todo@,
                shape_id,
                shape@,
                cached_groups@,
                (min_x, min_y),
            );
        }
    }
    let found = has_locally_unique_solution(
        &*map,
        shape_id,
        shape,
        library,
        cached_groups,
        min_x,
        min_y,
    );
    match found {
        Err(e) => Err(e),
        Ok(None) => Ok(()),
        Ok(Some(unique_solution)) => {
            proof {
                map.lemma_board_wf();
                let sols = shape@.solutions.unwrap();
                let used = crate::engine::feasible_ids(
                    b,
                    shape@.group,
                    sols,
                    (min_x, min_y),
                    sols.len() as int,
                );
                lemma_forced_patches_valid(
                    b,
                    shape@.group,
                    sols,
                    (min_x, min_y),
                    used[0] as int,
                    shape@.group.len() as int,
                );
            }
            apply_patches(map, todo, &unique_solution)
        },
    }
}

/// One iteration of the driver: see `step`, and `step_layer` for what a
/// store with a layer records. An iteration that goes well from a
/// consistent state keeps to `kept`; one that fails from a consistent state
/// found a group without a top-level shape or without a feasible candidate.
pub fn solve_step<T: TileStore>(
    map: &mut T,
    library: &mut ShapeLibrary,
    cached_groups: &mut GroupCache,
    todo: &mut Vec<Coord>,
) -> (r: Result<(), SolveError>)
    requires
        old(map).wf(),
        old(library).wf(),
        old(cached_groups).wf(),
        old(todo)@.len() > 0,
    ensures
        final(map).wf(),
        final(library).wf(),
        final(cached_groups).wf(),
        final(map)@.width == old(map)@.width,
        final(map)@.height == old(map)@.height,
        same_base(final(map).layer(), old(map).layer()),
        ({
            let before = state_of(old(map)@, old(library)@, old(cached_groups)@, old(todo)@);
            let after = state_of(final(map)@, final(library)@, final(cached_groups)@, final(todo)@);
            match r {
                Ok(()) => {
                    &&& step(before) == Ok::<SolverState, Failure>(after)
                    &&& progress(after, before)
                    &&& (consistent(before.board, before.library, before.cache) ==> kept(
                        before,
                        after,
                    ))
                },
                Err(e) => step(before) == Err::<SolverState, Failure>(
                    Failure { error: e, library: final(library)@ },
                ),
            }
        }),
        extends(final(library)@, old(library)@),
        r is Ok ==> final(map).layer() == step_layer(
            old(map).layer(),
            state_of(old(map)@, old(library)@, old(cached_groups)@, old(todo)@),
        ),
        consistent(old(map)@, old(library)@, old(cached_groups)@) ==> fails_fairly(r),
{
    let ghost before = state_of(map@, library@, cached_groups@, todo@);
    let r = take_step(map, library, cached_groups, todo);
    proof {
        library.lemma_len_fits();
        map.lemma_board_wf();
        old(map).lemma_board_wf();
        if r is Ok && consistent(before.board, before.library, before.cache) {
            lemma_step_sound(before);
        }
    }
    r
}

/// One iteration of the driver.
fn take_step<T: TileStore>(
    map: &mut T,
    library: &mut ShapeLibrary,
    cached_groups: &mut GroupCache,
    todo: &mut Vec<Coord>,
) -> (r: Result<(), SolveError>)
    requires
        old(map).wf(),
        old(library).wf(),
        old(cached_groups).wf(),
        old(todo)@.len() > 0,
    ensures
        final(map).wf(),
        final(library).wf(),
        final(cached_groups).wf(),
        final(map)@.width == old(map)@.width,
        final(map)@.height == old(map)@.height,
        same_base(final(map).layer(), old(map).layer()),
        ({
            let before = state_of(old(map)@, old(library)@, old(cached_groups)@, old(todo)@);
            let after = state_of(final(map)@, final(library)@, final(cached_groups)@, final(todo)@);
            match r {
                Ok(()) => step(before) == Ok::<SolverState, Failure>(after) && progress(
                    after,
                    before,
                ),
                Err(e) => step(before) == Err::<SolverState, Failure>(
                    Failure { error: e, library: final(library)@ },
                ),
            }
        }),
        extends(final(library)@, old(library)@),
        r is Ok ==> final(map).layer() == step_layer(
            old(map).layer(),
            state_of(old(map)@, old(library)@, old(cached_groups)@, old(todo)@),
        ),
        consistent(old(map)@, old(library)@, old(cached_groups)@) ==> fails_fairly(r),
{
    let ghost before = state_of(map@, library@, cached_groups@, todo@);
    let c = todo.pop().unwrap();
    let x = c.0;
    let y = c.1;
    assert(todo@ == before.todo.drop_last());
    if x >= map.width() || y >= map.height() {
        return Ok(());
    }
    if map.get(x, y) != UNPROCESSED {
        return Ok(());
    }
    let entry = match resolve_group(&*map, &*library, cached_groups, x, y) {
        Ok(entry) => entry,
        Err(e) => {
            return Err(e);
        },
    };
    let min_x = entry.0.0;
    let min_y = entry.0.1;
    let shape_id = entry.1;
    proof {
        if consistent(before.board, before.library, before.cache) {
            assert(open_cell(map@, c));
            assert(cached_groups@.map.contains_key(c));
            assert(crate::soundness::good_entry(map@, library@, cached_groups@, c, entry));
        }
    }
    let shape = match library.get(shape_id) {
        Some(shape) => shape.clone(),
        None => {
            return Err(SolveError::UnknownShape { shape_id });
        },
    };
    settle_at(map, library, cached_groups, todo, shape_id, &shape, min_x, min_y)
}

/// Runs the driver until the stack is empty or an error occurs: see `run`.
/// On success the stack has been worked off, and the grid, the library and
/// the cache are those in which the run ends; a store with a layer holds
/// the grid underneath as it was and a table of every cell that the run
/// wrote: see `run_layer`. A run that goes well from a consistent state
/// keeps to `kept`; one that fails from a consistent state found a group
/// without a top-level shape or without a feasible candidate: no clue of 1
/// is ever met beside a cell that becomes active.
pub fn propagate<T: TileStore>(
    map: &mut T,
    library: &mut ShapeLibrary,
    cached_groups: &mut GroupCache,
    seeds: Vec<Coord>,
) -> (r: Result<(), SolveError>)
    requires
        old(map).wf(),
        old(library).wf(),
        old(cached_groups).wf(),
    ensures
        final(map).wf(),
        final(library).wf(),
        final(cached_groups).wf(),
        final(map)@.width == old(map)@.width,
        final(map)@.height == old(map)@.height,
        same_base(final(map).layer(), old(map).layer()),
        ({
            let before = state_of(old(map)@, old(library)@, old(cached_groups)@, seeds@);
            let after = state_of(final(map)@, final(library)@, final(cached_groups)@, Seq::empty());
            match r {
                Ok(()) => {
                    &&& run_ends_in(before, Ok(after))
                    &&& (consistent(before.board, before.library, before.cache) ==> kept(
                        before,
                        after,
                    ))
                },
                Err(e) => run_ends_in(before, Err(Failure { error: e, library: final(library)@ })),
            }
        }),
        extends(final(library)@, old(library)@),
        r is Ok ==> run_ends_with(
            state_of(old(map)@, old(library)@, old(cached_groups)@, seeds@),
            old(map).layer(),
            state_of(final(map)@, final(library)@, final(cached_groups)@, Seq::empty()),
            final(map).layer(),
        ),
        consistent(old(map)@, old(library)@, old(cached_groups)@) ==> fails_fairly(r),
{
    let mut todo = seeds;
    let ghost before = state_of(map@, library@, cached_groups@, todo@);
    let ghost first = map.layer();
    let ghost n: nat = 0;
    proof {
        lemma_measure_nonneg(map@);
        map.lemma_board_wf();
        if consistent(before.board, before.library, before.cache) {
            lemma_kept_refl(before);
        }
    }
    while todo.len() > 0
        invariant
            map.wf(),
            library.wf(),
            cached_groups.wf(),
            before == state_of(old(map)@, old(library)@, old(cached_groups)@, seeds@),
            consistent(before.board, before.library, before.cache) ==> kept(
                before,
                state_of(map@, library@, cached_groups@, todo@),
            ),
            map@.width == old(map)@.width,
            map@.height == old(map)@.height,
            same_base(map.layer(), old(map).layer()),
            run(before, n) == Ok::<SolverState, Failure>(
                state_of(map@, library@, cached_groups@, todo@),
            ),
            first == old(map).layer(),
            map.layer() == run_layer(first, before, n),
            extends(library@, old(library)@),
            clue_sum(map@) >= 0,
            waiting(map@) >= 0,
        decreases clue_sum(map@), waiting(map@), todo@.len(),
    {
        let ghost here = state_of(map@, library@, cached_groups@, todo@);
        match solve_step(map, library, cached_groups, &mut todo) {
            Err(e) => {
                proof {
                    assert(run(before, (n + 1) as nat) == Err::<SolverState, Failure>(
                        Failure { error: e, library: library@ },
                    ));
                }
                return Err(e);
            },
            Ok(()) => {
                proof {
                    assert(run(before, (n + 1) as nat) == step(here));
                    assert(run_layer(first, before, (n + 1) as nat) == step_layer(
                        run_layer(first, before, n),
                        here,
                    ));
                    n = (n + 1) as nat;
                    lemma_measure_nonneg(map@);
                    if consistent(before.board, before.library, before.cache) {
                        lemma_kept_trans(
                            before,
                            here,
                            state_of(map@, library@, cached_groups@, todo@),
                        );
                    }
                }
            },
        }
    }
    proof {
        assert(todo@ =~= Seq::<Coord>::empty());
    }
    Ok(())
}

/// Solves the group of shape `shape_id` at `(min_x, min_y)` by the
/// candidates of `shape`, and then runs the driver on what that puts on the
/// stack. With a shape that holds one candidate only, the group is forced
/// to that candidate. A store with a layer holds the grid underneath as it
/// was and a table of every cell that was written: see `settle_layer` and
/// `run_layer`. Where the state is consistent and some unprocessed cell is
/// cached with this shape at this origin, an attempt that goes well keeps
/// to `kept`, and one that fails found a group without a top-level shape or
/// without a feasible candidate.
pub fn try_solve<T: TileStore>(
    library: &mut ShapeLibrary,
    map: &mut T,
    min_x: usize,
    min_y: usize,
    shape_id: ShapeId,
    shape: &Shape,
    cached_groups: &mut GroupCache,
) -> (r: Result<(), SolveError>)
    requires
        old(map).wf(),
        old(library).wf(),
        old(cached_groups).wf(),
        shape_id < old(library)@.len(),
        old(library)@[shape_id as int].group == shape@.group,
    ensures
        final(map).wf(),
        final(library).wf(),
        final(cached_groups).wf(),
        final(map)@.width == old(map)@.width,
        final(map)@.height == old(map)@.height,
        same_base(final(map).layer(), old(map).layer()),
        ({
            let before = state_of(old(map)@, old(library)@, old(cached_groups)@, Seq::empty());
            let first = settle(
                before,
                Seq::empty(),
                shape_id,
                shape@,
                old(cached_groups)@,
                (min_x, min_y),
            );
            let after = state_of(final(map)@, final(library)@, final(cached_groups)@, Seq::empty());
            match first {
                Err(f) => r == Err::<(), SolveError>(f.error) && final(library)@ == f.library,
                Ok(started) => match r {
                    Ok(()) => run_ends_in(started, Ok(after)),
                    Err(e) => run_ends_in(
                        started,
                        Err(Failure { error: e, library: final(library)@ }),
                    ),
                },
            }
        }),
        extends(final(library)@, old(library)@),
        ({
            let before = state_of(old(map)@, old(library)@, old(cached_groups)@, Seq::empty());
            let first = settle(
                before,
                Seq::empty(),
                shape_id,
                shape@,
                old(cached_groups)@,
                (min_x, min_y),
            );
            r is Ok ==> first is Ok && run_ends_with(
                first->Ok_0,
                settle_layer(
                    old(map).layer(),
                    before,
                    Seq::empty(),
                    shape_id,
                    shape@,
                    old(cached_groups)@,
                    (min_x, min_y),
                ),
                state_of(final(map)@, final(library)@, final(cached_groups)@, Seq::empty()),
                final(map).layer(),
            )
        }),
        forall|seed: Coord|
            r is Ok && consistent(old(map)@, old(library)@, old(cached_groups)@) && open_cell(
                old(map)@,
                seed,
            ) && #[trigger] old(cached_groups)@.get(seed) == Some(((min_x, min_y), shape_id))
                ==> kept(
                state_of(old(map)@, old(library)@, old(cached_groups)@, Seq::empty()),
                state_of(final(map)@, final(library)@, final(cached_groups)@, Seq::empty()),
            ),
        forall|seed: Coord|
            consistent(old(map)@, old(library)@, old(cached_groups)@) && open_cell(old(map)@, seed)
                && #[trigger] old(cached_groups)@.get(seed) == Some(((min_x, min_y), shape_id))
                ==> fails_fairly(r),
{
    let ghost before = state_of(map@, library@, cached_groups@, Seq::empty());
    let mut todo: Vec<Coord> = Vec::new();
    let first = settle_at(map, library, cached_groups, &mut todo, shape_id, shape, min_x, min_y);
    let ghost started = state_of(map@, library@, cached_groups@, todo@);
    proof {
        library.lemma_len_fits();
        old(map).lemma_board_wf();
        assert forall|seed: Coord|
            consistent(before.board, before.library, before.cache) && open_cell(
                before.board,
                seed,
            ) && #[trigger] before.cache.get(seed) == Some(
                ((min_x, min_y), shape_id),
            ) implies placed_open(before.board, shape@.group, (min_x, min_y)) && (first is Ok
            ==> consistent(started.board, started.library, started.cache)) by {
            assert(before.cache.map.contains_key(seed));
            assert(crate::soundness::good_entry(
                before.board,
                before.library,
                before.cache,
                seed,
                ((min_x, min_y), shape_id),
            ));
            if first is Ok {
                lemma_settle_sound(
                    before,
                    Seq::empty(),
                    shape_id,
                    shape@,
                    before.cache,
                    (min_x, min_y),
                    seed,
                );
            }
        }
    }
    match first {
        Err(e) => Err(e),
        Ok(()) => {
            let r = propagate(map, library, cached_groups, todo);
            proof {
                let after = state_of(map@, library@, cached_groups@, Seq::empty());
                old(map).lemma_board_wf();
                assert forall|seed: Coord|
                    r is Ok && consistent(before.board, before.library, before.cache) && open_cell(
                        before.board,
                        seed,
                    ) && #[trigger] before.cache.get(seed) == Some(
                        ((min_x, min_y), shape_id),
                    ) implies kept(before, after) by {
                    lemma_settle_sound(
                        before,
                        Seq::empty(),
                        shape_id,
                        shape@,
                        before.cache,
                        (min_x, min_y),
                        seed,
                    );
                    lemma_kept_trans(before, started, after);
                }
            }
            r
        },
    }
}

} // verus!
