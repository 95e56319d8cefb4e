//! Every cell that waits on the stack is examined before a run ends.
//!
//! When the tile of a cell changes, the neighbours of every clue beside it
//! are put on the stack. The driver takes the last cell of the stack and
//! puts cells on top of it; what lies below stays where it is. A run ends
//! well only with an empty stack. So every cell that was ever on the stack
//! has by then been the last of it, and the iteration that found it there
//! looked at it: where it was still unprocessed, its group was resolved and
//! shown to the engine.

use vstd::prelude::*;
use crate::cells::Coord;
use crate::driver::{
    commit, commit_one, lemma_commit, lemma_run_stays, neighbours, patches_valid, resolve, run,
    step, touch, SolverState,
};
use crate::engine::{
    feasible_ids, lemma_forced_patches_valid, next_to, unique_outcome, Patch,
};
use crate::grid::Board;
use crate::measure::clue_at;
use crate::soundness::lemma_touch_effect;
use crate::tile::{ACTIVE, NOT_ACTIVE, UNPROCESSED};

verus! {

/// Whether the stack `a` is the stack `b` with cells put on top.
pub open spec fn grown_from(a: Seq<Coord>, b: Seq<Coord>) -> bool {
    b.len() <= a.len() && forall|i: int| 0 <= i < b.len() ==> a[i] == b[i]
}

/// Whether every cell of `cells` is on the stack.
pub open spec fn all_waiting(todo: Seq<Coord>, cells: Seq<Coord>) -> bool {
    forall|i: int| 0 <= i < cells.len() ==> todo.contains(#[trigger] cells[i])
}

/// Touching a cell leaves the stack as it is below, and puts the neighbours
/// of a touched clue on top.
pub proof fn lemma_touch_stack(b: Board, todo: Seq<Coord>, mx: int, my: int, value: u8)
    requires
        touch(b, todo, mx, my, value) is Ok,
    ensures
        ({
            let more = touch(b, todo, mx, my, value).unwrap().1;
            &&& grown_from(more, todo)
            &&& (clue_at(b, mx, my) ==> more == todo + neighbours(b, mx, my))
        }),
{
}

/// Cells that wait on a stack wait on every stack grown from it.
pub proof fn lemma_still_waiting(a: Seq<Coord>, b: Seq<Coord>, cells: Seq<Coord>)
    requires
        grown_from(a, b),
        all_waiting(b, cells),
    ensures
        all_waiting(a, cells),
{
    assert forall|i: int| 0 <= i < cells.len() implies a.contains(#[trigger] cells[i]) by {
        let j = choose|j: int| 0 <= j < b.len() && b[j] == cells[i];
        assert(a[j] == cells[i]);
    }
}

/// The cells put on top of a stack wait on it.
pub proof fn lemma_top_waits(todo: Seq<Coord>, cells: Seq<Coord>)
    ensures
        all_waiting(todo + cells, cells),
{
    let a = todo + cells;
    assert forall|i: int| 0 <= i < cells.len() implies a.contains(#[trigger] cells[i]) by {
        assert(a[todo.len() + i] == cells[i]);
    }
}

/// Writing a patch leaves the stack as it is below. Where the tile of the
/// cell changed, all neighbours of every clue beside the cell wait on the
/// stack afterwards.
pub proof fn lemma_commit_one_stack(b: Board, todo: Seq<Coord>, patch: Patch, qx: int, qy: int)
    requires
        b.wf(),
        b.contains(patch.0.0 as int, patch.0.1 as int),
        patch.1 == ACTIVE || patch.1 == NOT_ACTIVE,
        commit_one(b, todo, patch) is Ok,
    ensures
        ({
            let more = commit_one(b, todo, patch).unwrap().1;
            &&& grown_from(more, todo)
            &&& (b.tile(patch.0.0 as int, patch.0.1 as int) != patch.1 && next_to(
                patch.0.0 as int,
                patch.0.1 as int,
                qx,
                qy,
            ) && clue_at(b, qx, qy) ==> all_waiting(more, neighbours(b, qx, qy)))
        }),
{
    let x = patch.0.0 as int;
    let y = patch.0.1 as int;
    let v = patch.1;
    if b.tile(x, y) != v {
        let b1 = b.with_tile(x, y, v);
        b.lemma_with_tile(x, y, v);
        let (b2, t2) = touch(b1, todo, x, y + 1, v).unwrap();
        lemma_touch_effect(b1, todo, x, y + 1, v);
        lemma_touch_stack(b1, todo, x, y + 1, v);
        let (b3, t3) = touch(b2, t2, x + 1, y, v).unwrap();
        lemma_touch_effect(b2, t2, x + 1, y, v);
        lemma_touch_stack(b2, t2, x + 1, y, v);
        let (b4, t4) = touch(b3, t3, x, y - 1, v).unwrap();
        lemma_touch_effect(b3, t3, x, y - 1, v);
        lemma_touch_stack(b3, t3, x, y - 1, v);
        let (b5, t5) = touch(b4, t4, x - 1, y, v).unwrap();
        lemma_touch_stack(b4, t4, x - 1, y, v);
        assert(grown_from(t5, todo));
        if next_to(x, y, qx, qy) && clue_at(b, qx, qy) {
            let around = neighbours(b, qx, qy);
            assert(b1.tile(qx, qy) == b.tile(qx, qy));
            assert(neighbours(b1, qx, qy) == around);
            assert(neighbours(b2, qx, qy) == around);
            assert(neighbours(b3, qx, qy) == around);
            assert(neighbours(b4, qx, qy) == around);
            if qx == x && qy == y + 1 {
                lemma_top_waits(todo, around);
                assert(grown_from(t5, t2));
                lemma_still_waiting(t5, t2, around);
            } else if qx == x + 1 && qy == y {
                assert(b2.tile(qx, qy) == b1.tile(qx, qy));
                lemma_top_waits(t2, around);
                assert(grown_from(t5, t3));
                lemma_still_waiting(t5, t3, around);
            } else if qx == x && qy == y - 1 {
                assert(b2.tile(qx, qy) == b1.tile(qx, qy));
                assert(b3.tile(qx, qy) == b2.tile(qx, qy));
                lemma_top_waits(t3, around);
                lemma_still_waiting(t5, t4, around);
            } else {
                assert(b2.tile(qx, qy) == b1.tile(qx, qy));
                assert(b3.tile(qx, qy) == b2.tile(qx, qy));
                assert(b4.tile(qx, qy) == b3.tile(qx, qy));
                lemma_top_waits(t4, around);
            }
        }
    }
}

/// Writing patches leaves the stack as it is below.
pub proof fn lemma_commit_stack(b: Board, todo: Seq<Coord>, patches: Seq<Patch>, k: int)
    requires
        commit(b, todo, patches, k) is Ok,
    ensures
        grown_from(commit(b, todo, patches, k).unwrap().1, todo),
    decreases k,
{
    if k > 0 {
        lemma_commit_stack(b, todo, patches, k - 1);
        let (b1, t1) = commit(b, todo, patches, k - 1).unwrap();
        let patch = patches[k - 1];
        let x = patch.0.0 as int;
        let y = patch.0.1 as int;
        let v = patch.1;
        if b1.tile(x, y) != v {
            let w = b1.with_tile(x, y, v);
            let (b2, t2) = touch(w, t1, x, y + 1, v).unwrap();
            let (b3, t3) = touch(b2, t2, x + 1, y, v).unwrap();
            let (b4, t4) = touch(b3, t3, x, y - 1, v).unwrap();
            let (b5, t5) = touch(b4, t4, x - 1, y, v).unwrap();
            assert(grown_from(t2, t1));
            assert(grown_from(t3, t2));
            assert(grown_from(t4, t3));
            assert(grown_from(t5, t4));
        }
    }
}

/// Where the patch at position `q` changes the tile of its cell, all
/// neighbours of every clue beside that cell wait on the stack once the
/// first `k` patches are written.
pub proof fn lemma_commit_waiting(
    b: Board,
    todo: Seq<Coord>,
    patches: Seq<Patch>,
    k: int,
    q: int,
    qx: int,
    qy: int,
)
    requires
        b.wf(),
        patches_valid(b, patches),
        0 <= q < k <= patches.len(),
        commit(b, todo, patches, k) is Ok,
    ensures
        commit(b, todo, patches, q) is Ok,
        ({
            let before = commit(b, todo, patches, q).unwrap().0;
            let p = patches[q];
            before.tile(p.0.0 as int, p.0.1 as int) != p.1 && next_to(
                p.0.0 as int,
                p.0.1 as int,
                qx,
                qy,
            ) && clue_at(before, qx, qy) ==> all_waiting(
                commit(b, todo, patches, k).unwrap().1,
                neighbours(b, qx, qy),
            )
        }),
    decreases k,
{
    let (b1, t1) = commit(b, todo, patches, k - 1).unwrap();
    lemma_commit(b, todo, patches, k - 1);
    let last = patches[k - 1];
    assert(b.contains(last.0.0 as int, last.0.1 as int));
    lemma_commit_one_stack(b1, t1, last, qx, qy);
    if q < k - 1 {
        lemma_commit_waiting(b, todo, patches, k - 1, q, qx, qy);
        let before = commit(b, todo, patches, q).unwrap().0;
        let p = patches[q];
        if before.tile(p.0.0 as int, p.0.1 as int) != p.1 && next_to(
            p.0.0 as int,
            p.0.1 as int,
            qx,
            qy,
        ) && clue_at(before, qx, qy) {
            lemma_still_waiting(
                commit(b, todo, patches, k).unwrap().1,
                t1,
                neighbours(b, qx, qy),
            );
        }
    } else {
        assert(neighbours(b1, qx, qy) == neighbours(b, qx, qy));
    }
}

/// An iteration takes the last cell of the stack and leaves the rest as it
/// is below what it puts on top.
pub proof fn lemma_step_stack(m: SolverState)
    requires
        m.todo.len() > 0,
        step(m) is Ok,
    ensures
        grown_from((step(m)->Ok_0).todo, m.todo.drop_last()),
{
    let c = m.todo.last();
    let todo = m.todo.drop_last();
    if m.board.contains(c.0 as int, c.1 as int) && m.board.tile(c.0 as int, c.1 as int)
        == UNPROCESSED {
        let (entry, cache) = resolve(m.board, m.library, m.cache, c)->Ok_0;
        let shape = m.library[entry.1 as int];
        let out = unique_outcome(m.board, entry.1, shape, m.library, cache, entry.0);
        match out.result {
            Ok(Some(patches)) => {
                lemma_commit_stack(m.board, todo, patches, patches.len() as int);
            },
            _ => {},
        }
    }
}

/// Whether the iteration after the first `j` of the run from `s` takes the
/// cell `c` from position `i` of the stack, as its last.
pub open spec fn taken_at(s: SolverState, j: nat, i: int, c: Coord) -> bool {
    run(s, j) matches Ok(m) && m.todo.len() == i + 1 && m.todo[i] == c
}

/// A cell that waits on the stack after `k` iterations of a run that ends
/// well after `n` is taken from the stack by one of the iterations between.
pub proof fn lemma_waiting_cell_is_taken(s: SolverState, n: nat, k: nat, i: int)
    requires
        k <= n,
        run(s, n) matches Ok(end) && end.todo.len() == 0,
        run(s, k) matches Ok(m) && 0 <= i < m.todo.len(),
    ensures
        exists|j: nat| k <= j < n && #[trigger] taken_at(s, j, i, (run(s, k)->Ok_0).todo[i]),
    decreases n - k,
{
    let m = run(s, k)->Ok_0;
    let c = m.todo[i];
    assert(k < n);
    if m.todo.len() == i + 1 {
        assert(taken_at(s, k, i, c));
    } else {
        let next = (k + 1) as nat;
        assert(run(s, next) == step(m));
        if step(m) is Err {
            lemma_run_stays(s, next, n);
        }
        lemma_step_stack(m);
        let t = step(m)->Ok_0;
        assert(t.todo[i] == m.todo.drop_last()[i]);
        lemma_waiting_cell_is_taken(s, n, next, i);
        let j = choose|j: nat| next <= j < n && #[trigger] taken_at(s, j, i, t.todo[i]);
        assert(k <= j < n && taken_at(s, j, i, c));
    }
}

/// The patches that the iteration from `m` writes, where the engine forces
/// any for the group of the cell that the iteration takes.
pub open spec fn step_patches(m: SolverState) -> Option<Seq<Patch>> {
    let c = m.todo.last();
    if !m.board.contains(c.0 as int, c.1 as int) || m.board.tile(c.0 as int, c.1 as int)
        != UNPROCESSED {
        None
    } else {
        match resolve(m.board, m.library, m.cache, c) {
            Err(_) => None,
            Ok((entry, cache)) => if entry.1 >= m.library.len() {
                None
            } else {
                match unique_outcome(
                    m.board,
                    entry.1,
                    m.library[entry.1 as int],
                    m.library,
                    cache,
                    entry.0,
                ).result {
                    Ok(Some(patches)) => Some(patches),
                    _ => None,
                }
            },
        }
    }
}

/// Whether the patch at position `q` changes the tile of its cell, beside
/// which the clue `(qx, qy)` lies, when `patches` are written to `b`.
pub open spec fn changes_beside(
    b: Board,
    todo: Seq<Coord>,
    patches: Seq<Patch>,
    q: int,
    qx: int,
    qy: int,
) -> bool {
    &&& 0 <= q < patches.len()
    &&& commit(b, todo, patches, q) matches Ok((before, _)) && before.tile(
        patches[q].0.0 as int,
        patches[q].0.1 as int,
    ) != patches[q].1 && next_to(patches[q].0.0 as int, patches[q].0.1 as int, qx, qy) && clue_at(
        before,
        qx,
        qy,
    )
}

/// In a run that ends well, every cell beside a clue whose surroundings
/// changed is looked at again: where the iteration after the first `k`
/// writes a patch that changes the tile of a cell beside the clue
/// `(qx, qy)`, each neighbour of that clue is taken from the stack by a
/// later iteration.
pub proof fn lemma_changed_clue_is_revisited(
    s: SolverState,
    n: nat,
    k: nat,
    q: int,
    qx: int,
    qy: int,
    i: int,
)
    requires
        k < n,
        run(s, n) matches Ok(end) && end.todo.len() == 0,
        run(s, k) matches Ok(m) && m.board.wf() && m.todo.len() > 0 && (step_patches(
            m,
        ) matches Some(patches) && changes_beside(
            m.board,
            m.todo.drop_last(),
            patches,
            q,
            qx,
            qy,
        )) && 0 <= i < neighbours(m.board, qx, qy).len(),
    ensures
        exists|j: nat|
            k < j < n && (#[trigger] run(s, j) matches Ok(mj) && mj.todo.len() > 0 && mj.todo.last()
                == neighbours((run(s, k)->Ok_0).board, qx, qy)[i]),
{
    let m = run(s, k)->Ok_0;
    let c = m.todo.last();
    let todo = m.todo.drop_last();
    let patches = step_patches(m)->Some_0;
    let (entry, cache) = resolve(m.board, m.library, m.cache, c)->Ok_0;
    let shape = m.library[entry.1 as int];
    let sols = shape.solutions->Some_0;
    let used = feasible_ids(m.board, shape.group, sols, entry.0, sols.len() as int);
    lemma_forced_patches_valid(
        m.board,
        shape.group,
        sols,
        entry.0,
        used[0] as int,
        shape.group.len() as int,
    );
    assert(patches_valid(m.board, patches));
    let next = (k + 1) as nat;
    assert(run(s, next) == step(m));
    if step(m) is Err {
        lemma_run_stays(s, next, n);
    }
    let t = step(m)->Ok_0;
    assert(t.todo == commit(m.board, todo, patches, patches.len() as int).unwrap().1);
    lemma_commit_waiting(m.board, todo, patches, patches.len() as int, q, qx, qy);
    let cell = neighbours(m.board, qx, qy)[i];
    assert(t.todo.contains(cell));
    let at = choose|at: int| 0 <= at < t.todo.len() && t.todo[at] == cell;
    lemma_waiting_cell_is_taken(s, n, next, at);
    let j = choose|j: nat| next <= j < n && #[trigger] taken_at(s, j, at, t.todo[at]);
    assert(taken_at(s, j, at, cell));
    let mj = run(s, j)->Ok_0;
    assert(mj.todo.last() == cell);
}

} // verus!
