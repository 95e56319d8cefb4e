//! Why the driver never lowers a clue of 1.
//!
//! A feasible candidate leaves every clue beside its group at 1 or above
//! once all the cells that it makes active are counted. The forced patches
//! make active only cells that a feasible candidate makes active, each of
//! them once. So whenever a cell of the group becomes active, the clues
//! beside it are 2 at least, and writing forced patches to a group of
//! unprocessed cells always goes well.

use vstd::prelude::*;
use crate::cache::CacheModel;
use crate::cells::Coord;
use crate::driver::{commit, commit_one, patches_valid, settle, touch, SolverState};
use crate::engine::{
    all_agree, candidate_patches, clue_change, clue_ok, feasible, feasible_ids, forced_patches,
    in_shape, lemma_forced_patches_valid, next_to, shape_fits, touches,
};
use crate::error::SolveError;
use crate::grid::Board;
use crate::measure::clue_at;
use crate::shape::{ShapeId, ShapeView};
use crate::soundness::{
    active_at, active_neighbours, clue_total, commit_sound, is_open, lemma_commit_effect,
    lemma_forced_cells, lemma_forced_coherent, lemma_touch_effect, patch_of_agreed, placed_open,
    targets_open, tile_touched, written,
};
use crate::tile::{ACTIVE, NOT_ACTIVE};

verus! {

/// 1 where `(x, y)` is one of the first `k` cells of the placed group and
/// `solution` makes it active, 0 otherwise.
pub open spec fn chosen_at(
    g: Seq<Coord>,
    solution: Seq<Coord>,
    o: Coord,
    k: int,
    x: int,
    y: int,
) -> int {
    if exists|i: int|
        0 <= i < k && (#[trigger] g[i]).0 + o.0 == x && g[i].1 + o.1 == y && solution.contains(g[i]) {
        1
    } else {
        0
    }
}

/// How many of the four cells beside `(x, y)` are among the first `k` cells
/// of the placed group and active in `solution`.
pub open spec fn chosen_around(
    g: Seq<Coord>,
    solution: Seq<Coord>,
    o: Coord,
    k: int,
    x: int,
    y: int,
) -> int {
    chosen_at(g, solution, o, k, x, y + 1) + chosen_at(g, solution, o, k, x + 1, y) + chosen_at(
        g,
        solution,
        o,
        k,
        x,
        y - 1,
    ) + chosen_at(g, solution, o, k, x - 1, y)
}

/// One more cell of the group adds to `chosen_at` only at its own place,
/// and only where the solution makes it active.
proof fn lemma_chosen_step(g: Seq<Coord>, solution: Seq<Coord>, o: Coord, k: int, x: int, y: int)
    requires
        0 < k <= g.len(),
    ensures
        chosen_at(g, solution, o, k, x, y) <= chosen_at(g, solution, o, k - 1, x, y) + (if g[k
            - 1].0 + o.0 == x && g[k - 1].1 + o.1 == y && solution.contains(g[k - 1]) {
            1int
        } else {
            0int
        }),
{
    if chosen_at(g, solution, o, k, x, y) == 1 {
        let i = choose|i: int|
            0 <= i < k && (#[trigger] g[i]).0 + o.0 == x && g[i].1 + o.1 == y && solution.contains(
                g[i],
            );
        if i < k - 1 {
            assert(0 <= i < k - 1 && g[i].0 + o.0 == x && g[i].1 + o.1 == y && solution.contains(
                g[i],
            ));
        }
    }
}

/// The change that a candidate asks of a clue is at least the number of
/// cells beside the clue that the candidate makes active.
pub proof fn lemma_change_covers(
    g: Seq<Coord>,
    solution: Seq<Coord>,
    o: Coord,
    x: int,
    y: int,
    k: int,
)
    requires
        0 <= k <= g.len(),
    ensures
        clue_change(g, solution, o, x, y, k) >= chosen_around(g, solution, o, k, x, y),
    decreases k,
{
    if k > 0 {
        lemma_change_covers(g, solution, o, x, y, k - 1);
        lemma_chosen_step(g, solution, o, k, x, y + 1);
        lemma_chosen_step(g, solution, o, k, x + 1, y);
        lemma_chosen_step(g, solution, o, k, x, y - 1);
        lemma_chosen_step(g, solution, o, k, x - 1, y);
    }
}

/// What is known while the forced patches of a feasible candidate are
/// written to a placed group of unprocessed cells: `b1` is the board after
/// the first `k` of them.
pub open spec fn writing_forced(
    b: Board,
    b1: Board,
    g: Seq<Coord>,
    solutions: Seq<Seq<Coord>>,
    o: Coord,
    w: int,
    k: int,
) -> bool {
    let patches = forced_patches(b, g, solutions, o, w, g.len() as int);
    &&& b.wf()
    &&& placed_open(b, g, o)
    &&& shape_fits(b, g, o)
    &&& 0 <= w < solutions.len()
    &&& feasible(b, g, solutions[w], o)
    &&& 0 <= k <= patches.len()
    &&& commit_sound(b, b1, patches, k)
}

/// While forced patches are written, a cell is active only where it was
/// active before or where the candidate makes it active.
proof fn lemma_active_bound(
    b: Board,
    b1: Board,
    g: Seq<Coord>,
    solutions: Seq<Seq<Coord>>,
    o: Coord,
    w: int,
    k: int,
    x: int,
    y: int,
)
    requires
        writing_forced(b, b1, g, solutions, o, w, k),
    ensures
        active_at(b1, x, y) <= active_at(b, x, y) + chosen_at(
            g,
            solutions[w],
            o,
            g.len() as int,
            x,
            y,
        ),
{
    let n = g.len() as int;
    let patches = forced_patches(b, g, solutions, o, w, n);
    if active_at(b1, x, y) == 1 {
        assert(b.contains(x, y));
        if written(patches, k, x, y) {
            let q = choose|q: int|
                0 <= q < k && (#[trigger] patches[q]).0.0 == x && patches[q].0.1 == y;
            assert(b1.tile(patches[q].0.0 as int, patches[q].0.1 as int) == patches[q].1);
            lemma_forced_cells(b, g, solutions, o, w, n);
            assert(patch_of_agreed(b, g, solutions, o, w, n, patches[q]));
            let i = choose|i: int|
                0 <= i < n && all_agree(b, g, solutions, o, #[trigger] g[i])
                    && patches[q] == candidate_patches(g, solutions[w], o)[i];
            assert(b.contains(g[i].0 + o.0, g[i].1 + o.1));
            assert(g[i].0 + o.0 == x && g[i].1 + o.1 == y);
            assert(solutions[w].contains(g[i]));
        } else {
            assert(clue_at(b1, x, y) == clue_at(b, x, y));
            assert(b1.tile(x, y) == b.tile(x, y));
        }
    }
}

/// While forced patches are written, a clue beside a cell that is about to
/// become active is 2 at least.
proof fn lemma_clue_has_room(
    b: Board,
    b1: Board,
    g: Seq<Coord>,
    solutions: Seq<Seq<Coord>>,
    o: Coord,
    w: int,
    k: int,
    qx: int,
    qy: int,
)
    requires
        writing_forced(b, b1, g, solutions, o, w, k),
        k < forced_patches(b, g, solutions, o, w, g.len() as int).len(),
        forced_patches(b, g, solutions, o, w, g.len() as int)[k].1 == ACTIVE,
        ({
            let p = forced_patches(b, g, solutions, o, w, g.len() as int)[k];
            b1.tile(p.0.0 as int, p.0.1 as int) != ACTIVE && next_to(
                p.0.0 as int,
                p.0.1 as int,
                qx,
                qy,
            )
        }),
        clue_at(b1, qx, qy),
    ensures
        b1.tile(qx, qy) >= 2,
{
    let n = g.len() as int;
    let patches = forced_patches(b, g, solutions, o, w, n);
    let p = patches[k];
    let px = p.0.0 as int;
    let py = p.0.1 as int;
    let sol = solutions[w];
    lemma_forced_cells(b, g, solutions, o, w, n);
    assert(patch_of_agreed(b, g, solutions, o, w, n, p));
    let i = choose|i: int|
        0 <= i < n && all_agree(b, g, solutions, o, #[trigger] g[i]) && p
            == candidate_patches(g, sol, o)[i];
    assert(b.contains(g[i].0 + o.0, g[i].1 + o.1));
    assert(g[i].0 + o.0 == px && g[i].1 + o.1 == py);
    assert(sol.contains(g[i]));
    assert(chosen_at(g, sol, o, n, px, py) == 1);
    assert(in_shape(g, o, px, py));
    assert(is_open(b, px, py));
    assert(active_at(b, px, py) == 0);
    assert(active_at(b1, px, py) == 0);
    assert(clue_at(b1, qx, qy) == clue_at(b, qx, qy));
    assert(touches(g, o, qx, qy)) by {
        assert(next_to(g[i].0 + o.0, g[i].1 + o.1, qx, qy));
    }
    assert(clue_ok(b, g, sol, o, qx, qy));
    lemma_change_covers(g, sol, o, qx, qy, n);
    lemma_active_bound(b, b1, g, solutions, o, w, k, qx, qy + 1);
    lemma_active_bound(b, b1, g, solutions, o, w, k, qx + 1, qy);
    lemma_active_bound(b, b1, g, solutions, o, w, k, qx, qy - 1);
    lemma_active_bound(b, b1, g, solutions, o, w, k, qx - 1, qy);
    assert(clue_total(b1, qx, qy) == clue_total(b, qx, qy));
    assert(active_neighbours(b1, qx, qy) + 1 <= active_neighbours(b, qx, qy) + chosen_around(
        g,
        sol,
        o,
        n,
        qx,
        qy,
    ));
}

/// Writing the forced patches of a feasible candidate to a placed group of
/// unprocessed cells goes well: no clue of 1 is met beside a cell that
/// becomes active.
pub proof fn lemma_forced_commit_ok(
    b: Board,
    todo: Seq<Coord>,
    g: Seq<Coord>,
    solutions: Seq<Seq<Coord>>,
    o: Coord,
    w: int,
    k: int,
)
    requires
        b.wf(),
        placed_open(b, g, o),
        0 <= w < solutions.len(),
        feasible(b, g, solutions[w], o),
        0 <= k <= forced_patches(b, g, solutions, o, w, g.len() as int).len(),
    ensures
        commit(b, todo, forced_patches(b, g, solutions, o, w, g.len() as int), k) is Ok,
    decreases k,
{
    let n = g.len() as int;
    let patches = forced_patches(b, g, solutions, o, w, n);
    if k > 0 {
        lemma_forced_commit_ok(b, todo, g, solutions, o, w, k - 1);
        assert(shape_fits(b, g, o)) by {
            assert forall|i: int| 0 <= i < g.len() implies b.contains(
                (#[trigger] g[i]).0 + o.0,
                g[i].1 + o.1,
            ) by {
                assert(in_shape(g, o, g[i].0 + o.0, g[i].1 + o.1));
            }
        }
        lemma_forced_patches_valid(b, g, solutions, o, w, n);
        lemma_forced_coherent(b, g, solutions, o, w);
        assert(patches_valid(b, patches));
        assert(targets_open(b, patches)) by {
            assert forall|q: int| 0 <= q < patches.len() implies is_open(
                b,
                (#[trigger] patches[q]).0.0 as int,
                patches[q].0.1 as int,
            ) by {
                assert(in_shape(g, o, patches[q].0.0 as int, patches[q].0.1 as int));
            }
        }
        lemma_commit_effect(b, todo, patches, k - 1);
        let (b1, t1) = commit(b, todo, patches, k - 1).unwrap();
        assert(writing_forced(b, b1, g, solutions, o, w, k - 1));
        lemma_write_goes_well(b, b1, t1, g, solutions, o, w, k - 1);
    }
}

/// While forced patches are written, the next one is written without
/// meeting a clue of 1.
proof fn lemma_write_goes_well(
    b: Board,
    b1: Board,
    t1: Seq<Coord>,
    g: Seq<Coord>,
    solutions: Seq<Seq<Coord>>,
    o: Coord,
    w: int,
    k: int,
)
    requires
        writing_forced(b, b1, g, solutions, o, w, k),
        k < forced_patches(b, g, solutions, o, w, g.len() as int).len(),
    ensures
        commit_one(b1, t1, forced_patches(b, g, solutions, o, w, g.len() as int)[k]) is Ok,
{
    let n = g.len() as int;
    let patches = forced_patches(b, g, solutions, o, w, n);
    let patch = patches[k];
    let px = patch.0.0 as int;
    let py = patch.0.1 as int;
    let v = patch.1;
    lemma_forced_patches_valid(b, g, solutions, o, w, n);
    assert(b.contains(px, py) && (v == ACTIVE || v == NOT_ACTIVE));
    if b1.tile(px, py) != v {
        let b2 = b1.with_tile(px, py, v);
        b1.lemma_with_tile(px, py, v);
        if v == ACTIVE {
            if clue_at(b1, px, py + 1) {
                lemma_clue_has_room(b, b1, g, solutions, o, w, k, px, py + 1);
            }
            if clue_at(b1, px + 1, py) {
                lemma_clue_has_room(b, b1, g, solutions, o, w, k, px + 1, py);
            }
            if clue_at(b1, px, py - 1) {
                lemma_clue_has_room(b, b1, g, solutions, o, w, k, px, py - 1);
            }
            if clue_at(b1, px - 1, py) {
                lemma_clue_has_room(b, b1, g, solutions, o, w, k, px - 1, py);
            }
        }
        assert(b1.contains(px, py + 1) ==> b2.tile(px, py + 1) == b1.tile(px, py + 1));
        assert(b1.contains(px + 1, py) ==> b2.tile(px + 1, py) == b1.tile(px + 1, py));
        assert(b1.contains(px, py - 1) ==> b2.tile(px, py - 1) == b1.tile(px, py - 1));
        assert(b1.contains(px - 1, py) ==> b2.tile(px - 1, py) == b1.tile(px - 1, py));
        let r1 = touch(b2, t1, px, py + 1, v);
        assert(r1 is Ok);
        lemma_touch_effect(b2, t1, px, py + 1, v);
        let (b3, t3) = r1.unwrap();
        assert(b1.contains(px + 1, py) ==> b3.tile(px + 1, py) == tile_touched(
            b2,
            px,
            py + 1,
            v,
            px + 1,
            py,
        ));
        let r2 = touch(b3, t3, px + 1, py, v);
        assert(r2 is Ok);
        lemma_touch_effect(b3, t3, px + 1, py, v);
        let (b4, t4) = r2.unwrap();
        assert(b1.contains(px, py - 1) ==> b3.tile(px, py - 1) == tile_touched(
            b2,
            px,
            py + 1,
            v,
            px,
            py - 1,
        ));
        assert(b1.contains(px, py - 1) ==> b4.tile(px, py - 1) == tile_touched(
            b3,
            px + 1,
            py,
            v,
            px,
            py - 1,
        ));
        let r3 = touch(b4, t4, px, py - 1, v);
        assert(r3 is Ok);
        lemma_touch_effect(b4, t4, px, py - 1, v);
        let (b5, t5) = r3.unwrap();
        assert(b1.contains(px - 1, py) ==> b3.tile(px - 1, py) == tile_touched(
            b2,
            px,
            py + 1,
            v,
            px - 1,
            py,
        ));
        assert(b1.contains(px - 1, py) ==> b4.tile(px - 1, py) == tile_touched(
            b3,
            px + 1,
            py,
            v,
            px - 1,
            py,
        ));
        assert(b1.contains(px - 1, py) ==> b5.tile(px - 1, py) == tile_touched(
            b4,
            px,
            py - 1,
            v,
            px - 1,
            py,
        ));
        let r4 = touch(b5, t5, px - 1, py, v);
        assert(r4 is Ok);
    }
}

/// Every feasible id is the position of a feasible candidate.
pub proof fn lemma_feasible_ids(
    b: Board,
    g: Seq<Coord>,
    solutions: Seq<Seq<Coord>>,
    o: Coord,
    n: int,
)
    requires
        0 <= n <= solutions.len(),
        solutions.len() <= usize::MAX,
    ensures
        forall|q: int|
            0 <= q < feasible_ids(b, g, solutions, o, n).len() ==> (#[trigger] feasible_ids(
                b,
                g,
                solutions,
                o,
                n,
            )[q]) < n && feasible(b, g, solutions[feasible_ids(b, g, solutions, o, n)[q] as int], o),
    decreases n,
{
    if n > 0 {
        lemma_feasible_ids(b, g, solutions, o, n - 1);
        let rest = feasible_ids(b, g, solutions, o, n - 1);
        let all = feasible_ids(b, g, solutions, o, n);
        assert forall|q: int| 0 <= q < all.len() implies (#[trigger] all[q]) < n && feasible(
            b,
            g,
            solutions[all[q] as int],
            o,
        ) by {
            if q < rest.len() {
                assert(all[q] == rest[q]);
            }
        }
    }
}

/// For a placed group of unprocessed cells, applying what the engine finds
/// fails only where no candidate is feasible: the shape does not leave the
/// grid, and no clue of 1 is met beside a cell that becomes active.
pub proof fn lemma_settle_errors(
    s: SolverState,
    todo: Seq<Coord>,
    shape_id: ShapeId,
    shape: ShapeView,
    cache: CacheModel,
    o: Coord,
)
    requires
        s.board.wf(),
        placed_open(s.board, shape.group, o),
        shape.solutions matches Some(v) ==> v.len() <= usize::MAX,
    ensures
        settle(s, todo, shape_id, shape, cache, o) matches Err(f) ==> f.error
            == SolveError::Inconsistent,
{
    let b = s.board;
    let g = shape.group;
    if shape.solutions is Some {
        let sols = shape.solutions->Some_0;
        let used = feasible_ids(b, g, sols, o, sols.len() as int);
        assert(shape_fits(b, g, o)) by {
            assert forall|i: int| 0 <= i < g.len() implies b.contains(
                (#[trigger] g[i]).0 + o.0,
                g[i].1 + o.1,
            ) by {
                assert(in_shape(g, o, g[i].0 + o.0, g[i].1 + o.1));
            }
        }
        if used.len() > 0 {
            lemma_feasible_ids(b, g, sols, o, sols.len() as int);
            let w = used[0] as int;
            let patches = forced_patches(b, g, sols, o, w, g.len() as int);
            lemma_forced_commit_ok(b, todo, g, sols, o, w, patches.len() as int);
        }
    }
}

} // verus!
