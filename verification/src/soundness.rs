//! What stays true of the grid, the library and the cache while the driver
//! runs.
//!
//! A cache is consistent with a grid and a library when the entry of every
//! cached cell that is still unprocessed names a shape whose cells, placed
//! at the entry's origin, are unprocessed cells around that cell which no
//! unprocessed cell borders from outside. From a consistent state the
//! driver writes to unprocessed cells only, so that the value of a clue and
//! the number of its active neighbours always add up to the same: the value
//! that the clue had when none of its neighbours was active.

use vstd::prelude::*;
use crate::cache::{group_of, lemma_resolve_fresh, resolve_fresh, CacheEntry, CacheModel};
use crate::cells::Coord;
use crate::component::{lemma_canonical_placed, lemma_group_closed, lemma_group_exists};
use crate::driver::{
    commit, commit_one, patches_valid, resolve, run, settle, state_of, step, touch, SolverState,
};
use crate::cells::{lemma_lex_total, lex_order, sorted};
use crate::engine::{
    all_agree, candidate_patches, feasible_ids, forced_patches, in_shape,
    lemma_forced_patches_valid, lemma_residual, next_to, remap, residual, shape_fits,
    unique_outcome, Patch,
};
use crate::measure::clue_at;
use crate::flood::{
    adjacent, canonical, connected, is_group_of, is_path, lemma_connected_refl,
    lemma_connected_sym, lemma_connected_trans, open_cell,
};
use crate::grid::Board;
use crate::shape::{extends, index_of, lemma_index_of, ShapeId, ShapeView};
use crate::tile::{is_clue, ACTIVE, NOT_ACTIVE, UNPROCESSED};

verus! {

/// Whether `(x, y)` is an unprocessed cell of the board.
pub open spec fn is_open(b: Board, x: int, y: int) -> bool {
    b.contains(x, y) && b.tile(x, y) == UNPROCESSED
}

/// Whether every cell of the group placed at `o` is an unprocessed cell.
pub open spec fn placed_open(b: Board, g: Seq<Coord>, o: Coord) -> bool {
    forall|x: int, y: int| #[trigger] in_shape(g, o, x, y) ==> is_open(b, x, y)
}

/// Whether no unprocessed cell outside the placed group borders on it.
pub open spec fn placed_closed(b: Board, g: Seq<Coord>, o: Coord) -> bool {
    forall|x: int, y: int, nx: int, ny: int|
        #![trigger in_shape(g, o, x, y), is_open(b, nx, ny)]
        in_shape(g, o, x, y) && next_to(x, y, nx, ny) && is_open(b, nx, ny) ==> in_shape(
            g,
            o,
            nx,
            ny,
        )
}

/// Whether every cell of the placed group is cached with the entry `e`.
pub open spec fn placed_cached(cache: CacheModel, g: Seq<Coord>, o: Coord, e: CacheEntry) -> bool {
    forall|c: Coord| #[trigger] in_shape(g, o, c.0 as int, c.1 as int) ==> cache.get(c) == Some(e)
}

/// Whether every cell of the placed group can be reached from `c`.
pub open spec fn placed_connected(b: Board, g: Seq<Coord>, o: Coord, c: Coord) -> bool {
    forall|d: Coord| #[trigger] in_shape(g, o, d.0 as int, d.1 as int) ==> connected(b, c, d)
}

/// Whether `e` is a sound entry for the unprocessed cell `c`: it names a
/// shape of the library whose cells, placed at the entry's origin, are
/// unprocessed, hold `c`, and are bordered by no unprocessed cell from
/// outside; and either all of them are cached with this entry, or all of
/// them can be reached from `c`.
pub open spec fn good_entry(
    b: Board,
    lib: Seq<ShapeView>,
    cache: CacheModel,
    c: Coord,
    e: CacheEntry,
) -> bool {
    &&& e.1 < lib.len()
    &&& placed_open(b, lib[e.1 as int].group, e.0)
    &&& in_shape(lib[e.1 as int].group, e.0, c.0 as int, c.1 as int)
    &&& placed_closed(b, lib[e.1 as int].group, e.0)
    &&& (placed_cached(cache, lib[e.1 as int].group, e.0, e) || placed_connected(
        b,
        lib[e.1 as int].group,
        e.0,
        c,
    ))
}

/// Whether the cache is consistent with the board and the library: every
/// cached cell that is unprocessed has a sound entry.
pub open spec fn consistent(b: Board, lib: Seq<ShapeView>, cache: CacheModel) -> bool {
    forall|c: Coord| #[trigger]
        cache.map.contains_key(c) && open_cell(b, c) ==> good_entry(b, lib, cache, c, cache.map[c])
}

/// A cache without entries is consistent with every board and library.
pub proof fn lemma_empty_cache_consistent(b: Board, lib: Seq<ShapeView>)
    ensures
        consistent(b, lib, CacheModel::empty()),
{
}

/// A walk that starts in a placed group of unprocessed cells that nothing
/// borders stays in it.
pub proof fn lemma_path_stays(b: Board, g: Seq<Coord>, o: Coord, p: Seq<Coord>, k: int)
    requires
        placed_closed(b, g, o),
        is_path(b, p),
        in_shape(g, o, p[0].0 as int, p[0].1 as int),
        0 <= k < p.len(),
    ensures
        in_shape(g, o, p[k].0 as int, p[k].1 as int),
    decreases k,
{
    if k > 0 {
        lemma_path_stays(b, g, o, p, k - 1);
        assert(adjacent(p[k - 1], p[k]));
        assert(open_cell(b, p[k]));
        assert(is_open(b, p[k].0 as int, p[k].1 as int));
        assert(next_to(p[k - 1].0 as int, p[k - 1].1 as int, p[k].0 as int, p[k].1 as int));
    }
}

/// What can be reached from a cell of such a group lies in the group.
pub proof fn lemma_reach_stays(b: Board, g: Seq<Coord>, o: Coord, c: Coord, d: Coord)
    requires
        placed_closed(b, g, o),
        in_shape(g, o, c.0 as int, c.1 as int),
        connected(b, c, d),
    ensures
        in_shape(g, o, d.0 as int, d.1 as int),
{
    let p = choose|p: Seq<Coord>| #[trigger] is_path(b, p) && p[0] == c && p.last() == d;
    lemma_path_stays(b, g, o, p, p.len() - 1);
}

/// Two cached cells with sound entries whose placed groups share a cell have
/// the same placed group.
pub proof fn lemma_groups_equal_or_apart(
    b: Board,
    lib: Seq<ShapeView>,
    cache: CacheModel,
    c1: Coord,
    c2: Coord,
    z: Coord,
)
    requires
        cache.map.contains_key(c1),
        cache.map.contains_key(c2),
        good_entry(b, lib, cache, c1, cache.map[c1]),
        good_entry(b, lib, cache, c2, cache.map[c2]),
        in_shape(lib[cache.map[c1].1 as int].group, cache.map[c1].0, z.0 as int, z.1 as int),
        in_shape(lib[cache.map[c2].1 as int].group, cache.map[c2].0, z.0 as int, z.1 as int),
    ensures
        forall|d: Coord|
            in_shape(lib[cache.map[c1].1 as int].group, cache.map[c1].0, d.0 as int, d.1 as int)
                <==> in_shape(
                lib[cache.map[c2].1 as int].group,
                cache.map[c2].0,
                d.0 as int,
                d.1 as int,
            ),
{
    let e1 = cache.map[c1];
    let e2 = cache.map[c2];
    let g1 = lib[e1.1 as int].group;
    let g2 = lib[e2.1 as int].group;
    let o1 = e1.0;
    let o2 = e2.0;
    assert(is_open(b, z.0 as int, z.1 as int));
    assert(is_open(b, c1.0 as int, c1.1 as int));
    assert(is_open(b, c2.0 as int, c2.1 as int));
    assert(open_cell(b, z) && open_cell(b, c1) && open_cell(b, c2));
    if placed_cached(cache, g1, o1, e1) && placed_cached(cache, g2, o2, e2) {
        assert(cache.get(z) == Some(e1));
        assert(cache.get(z) == Some(e2));
    } else if placed_cached(cache, g1, o1, e1) {
        // the second group is what can be reached from c2
        assert(connected(b, c2, z));
        lemma_connected_sym(b, c2, z);
        lemma_reach_stays(b, g1, o1, z, c2);
        assert(cache.get(c2) == Some(e1));
    } else if placed_cached(cache, g2, o2, e2) {
        assert(connected(b, c1, z));
        lemma_connected_sym(b, c1, z);
        lemma_reach_stays(b, g2, o2, z, c1);
        assert(cache.get(c1) == Some(e2));
    } else {
        assert(connected(b, c1, z));
        assert(connected(b, c2, z));
        lemma_connected_sym(b, c1, z);
        lemma_connected_sym(b, c2, z);
        assert forall|d: Coord|
            in_shape(g1, o1, d.0 as int, d.1 as int) <==> in_shape(g2, o2, d.0 as int, d.1 as int) by {
            if in_shape(g1, o1, d.0 as int, d.1 as int) {
                assert(connected(b, c1, d));
                lemma_connected_trans(b, z, c1, d);
                lemma_reach_stays(b, g2, o2, z, d);
            }
            if in_shape(g2, o2, d.0 as int, d.1 as int) {
                assert(connected(b, c2, d));
                lemma_connected_trans(b, z, c2, d);
                lemma_reach_stays(b, g1, o1, z, d);
            }
        }
    }
}

/// A cell that is resolved afresh gets a sound entry, and the entries of
/// the other cells stay sound.
pub proof fn lemma_fresh_entry(b: Board, lib: Seq<ShapeView>, cache: CacheModel, s: Coord)
    requires
        b.wf(),
        lib.len() <= usize::MAX,
        open_cell(b, s),
        !cache.map.contains_key(s),
        resolve_fresh(b, lib, s) is Some,
        consistent(b, lib, cache),
    ensures
        consistent(b, lib, cache.insert(s, resolve_fresh(b, lib, s).unwrap())),
{
    let e = resolve_fresh(b, lib, s).unwrap();
    let after = cache.insert(s, e);
    lemma_group_exists(b, s);
    let g = group_of(b, s);
    assert(is_group_of(b, g, s));
    lemma_connected_refl(b, s);
    assert(g.contains(s));
    lemma_resolve_fresh(b, lib, s, g);
    let canon = canonical(g);
    let o = e.0;
    assert(lib[e.1 as int].group == canon);
    assert forall|i: int| 0 <= i < g.len() implies (#[trigger] g[i]).0 < usize::MAX && g[i].1
        < usize::MAX by {
        assert(g.contains(g[i]));
        assert(connected(b, s, g[i]));
        lemma_connected_open(b, s, g[i]);
    }
    assert forall|x: int, y: int| #[trigger] in_shape(canon, o, x, y) implies is_open(b, x, y) by {
        lemma_canonical_placed(g, x, y);
        let d: Coord = (x as usize, y as usize);
        assert(connected(b, s, d));
        lemma_connected_open(b, s, d);
    }
    assert(in_shape(canon, o, s.0 as int, s.1 as int)) by {
        lemma_canonical_placed(g, s.0 as int, s.1 as int);
    }
    assert forall|x: int, y: int, nx: int, ny: int|
        #![trigger in_shape(canon, o, x, y), is_open(b, nx, ny)]
        in_shape(canon, o, x, y) && next_to(x, y, nx, ny) && is_open(b, nx, ny) implies in_shape(
        canon,
        o,
        nx,
        ny,
    ) by {
        lemma_canonical_placed(g, x, y);
        lemma_canonical_placed(g, nx, ny);
        let c: Coord = (x as usize, y as usize);
        let n: Coord = (nx as usize, ny as usize);
        lemma_group_closed(b, g, s, c, n);
    }
    assert forall|d: Coord| #[trigger] in_shape(canon, o, d.0 as int, d.1 as int) implies connected(
        b,
        s,
        d,
    ) by {
        lemma_canonical_placed(g, d.0 as int, d.1 as int);
    }
    assert(good_entry(b, lib, after, s, e));
    assert forall|c: Coord| #[trigger]
        after.map.contains_key(c) && open_cell(b, c) implies good_entry(
        b,
        lib,
        after,
        c,
        after.map[c],
    ) by {
        if c != s {
            let old_e = cache.map[c];
            assert(cache.map.contains_key(c));
            assert(good_entry(b, lib, cache, c, old_e));
            let g2 = lib[old_e.1 as int].group;
            if placed_cached(cache, g2, old_e.0, old_e) {
                assert forall|d: Coord| #[trigger]
                    in_shape(g2, old_e.0, d.0 as int, d.1 as int) implies after.get(d) == Some(
                    old_e,
                ) by {
                    assert(cache.get(d) == Some(old_e));
                }
            }
        }
    }
}

/// What can be reached is an unprocessed cell.
pub proof fn lemma_connected_open(b: Board, from: Coord, to: Coord)
    requires
        connected(b, from, to),
    ensures
        open_cell(b, to),
        open_cell(b, from),
{
    let p = choose|p: Seq<Coord>| #[trigger] is_path(b, p) && p[0] == from && p.last() == to;
    assert(open_cell(b, p[p.len() - 1]));
    assert(open_cell(b, p[0]));
}

/// Whether `(x, y)` is one of the first `k` cells of the group placed at `o`.
pub open spec fn in_prefix(g: Seq<Coord>, o: Coord, k: int, x: int, y: int) -> bool {
    exists|i: int| 0 <= i < k && (#[trigger] g[i]).0 + o.0 == x && g[i].1 + o.1 == y
}

/// Binding cells to a shape changes the entries of these cells and of no
/// other.
pub proof fn lemma_remap(
    cache: CacheModel,
    cells: Seq<Coord>,
    o: Coord,
    id: ShapeId,
    k: int,
    c: Coord,
)
    requires
        0 <= k <= cells.len(),
        forall|i: int|
            0 <= i < cells.len() ==> (#[trigger] cells[i]).0 + o.0 <= usize::MAX && cells[i].1 + o.1
                <= usize::MAX,
    ensures
        remap(cache, cells, o, id, k).get(c) == (if in_prefix(cells, o, k, c.0 as int, c.1 as int) {
            Some((o, id))
        } else {
            cache.get(c)
        }),
    decreases k,
{
    if k > 0 {
        lemma_remap(cache, cells, o, id, k - 1, c);
        let last: Coord = ((cells[k - 1].0 + o.0) as usize, (cells[k - 1].1 + o.1) as usize);
        if in_prefix(cells, o, k - 1, c.0 as int, c.1 as int) {
            let i = choose|i: int|
                0 <= i < k - 1 && (#[trigger] cells[i]).0 + o.0 == c.0 && cells[i].1 + o.1 == c.1;
            assert(0 <= i < k && cells[i].0 + o.0 == c.0);
        }
        if c == last {
            assert(cells[k - 1].0 + o.0 == c.0 && cells[k - 1].1 + o.1 == c.1);
        }
        if in_prefix(cells, o, k, c.0 as int, c.1 as int) && !in_prefix(
            cells,
            o,
            k - 1,
            c.0 as int,
            c.1 as int,
        ) {
            let i = choose|i: int|
                0 <= i < k && (#[trigger] cells[i]).0 + o.0 == c.0 && cells[i].1 + o.1 == c.1;
            assert(i == k - 1);
        }
    }
}

/// The tile at `(x, y)` after a cell beside `(mx, my)` changed to `value`
/// and `(mx, my)` was touched.
pub open spec fn tile_touched(b: Board, mx: int, my: int, value: u8, x: int, y: int) -> u8 {
    if x == mx && y == my && clue_at(b, mx, my) && value == ACTIVE {
        (b.tile(x, y) - 1) as u8
    } else {
        b.tile(x, y)
    }
}

/// What `touch` does to the tiles.
pub proof fn lemma_touch_effect(b: Board, todo: Seq<Coord>, mx: int, my: int, value: u8)
    requires
        b.wf(),
        touch(b, todo, mx, my, value) is Ok,
    ensures
        ({
            let after = touch(b, todo, mx, my, value).unwrap().0;
            &&& after.wf()
            &&& after.width == b.width
            &&& after.height == b.height
            &&& forall|x: int, y: int|
                b.contains(x, y) ==> #[trigger] after.tile(x, y) == tile_touched(
                    b,
                    mx,
                    my,
                    value,
                    x,
                    y,
                )
            &&& (clue_at(b, mx, my) && value == ACTIVE ==> b.tile(mx, my) >= 2)
        }),
{
    if clue_at(b, mx, my) && value == ACTIVE {
        b.lemma_with_tile(mx, my, (b.tile(mx, my) - 1) as u8);
    }
}

/// The tile at `(x, y)` after one patch was written: the patched cell has
/// its new tile; a clue beside a cell that became active is lower by one;
/// every other tile is as before.
pub open spec fn tile_after(b: Board, patch: Patch, x: int, y: int) -> u8 {
    let px = patch.0.0 as int;
    let py = patch.0.1 as int;
    if x == px && y == py {
        patch.1
    } else if b.tile(px, py) != patch.1 && patch.1 == ACTIVE && next_to(px, py, x, y) && is_clue(
        b.tile(x, y),
    ) {
        (b.tile(x, y) - 1) as u8
    } else {
        b.tile(x, y)
    }
}

/// What writing one patch does to the tiles.
pub proof fn lemma_commit_one_effect(b: Board, todo: Seq<Coord>, patch: Patch)
    requires
        b.wf(),
        b.contains(patch.0.0 as int, patch.0.1 as int),
        patch.1 == ACTIVE || patch.1 == NOT_ACTIVE,
        commit_one(b, todo, patch) is Ok,
    ensures
        ({
            let after = commit_one(b, todo, patch).unwrap().0;
            &&& after.wf()
            &&& after.width == b.width
            &&& after.height == b.height
            &&& forall|x: int, y: int|
                b.contains(x, y) ==> #[trigger] after.tile(x, y) == tile_after(b, patch, x, y)
            &&& forall|x: int, y: int|
                b.contains(x, y) && #[trigger] tile_after(b, patch, x, y) != b.tile(x, y) && !(x
                    == patch.0.0 && y == patch.0.1) ==> b.tile(x, y) >= 2
        }),
{
    let px = patch.0.0 as int;
    let py = patch.0.1 as int;
    let v = patch.1;
    let b1 = b.with_tile(px, py, v);
    b.lemma_with_tile(px, py, v);
    if b.tile(px, py) == v {
    } else {
        let r1 = touch(b1, todo, px, py + 1, v);
        lemma_touch_effect(b1, todo, px, py + 1, v);
        let (b2, t2) = r1.unwrap();
        let r2 = touch(b2, t2, px + 1, py, v);
        lemma_touch_effect(b2, t2, px + 1, py, v);
        let (b3, t3) = r2.unwrap();
        let r3 = touch(b3, t3, px, py - 1, v);
        lemma_touch_effect(b3, t3, px, py - 1, v);
        let (b4, t4) = r3.unwrap();
        let r4 = touch(b4, t4, px - 1, py, v);
        lemma_touch_effect(b4, t4, px - 1, py, v);
        let (b5, t5) = r4.unwrap();
        assert forall|x: int, y: int| b.contains(x, y) implies #[trigger] b5.tile(x, y)
            == tile_after(b, patch, x, y) && (tile_after(b, patch, x, y) != b.tile(x, y) && !(x
            == px && y == py) ==> b.tile(x, y) >= 2) by {
            assert(b2.tile(x, y) == tile_touched(b1, px, py + 1, v, x, y));
            assert(b3.tile(x, y) == tile_touched(b2, px + 1, py, v, x, y));
            assert(b4.tile(x, y) == tile_touched(b3, px, py - 1, v, x, y));
            assert(b5.tile(x, y) == tile_touched(b4, px - 1, py, v, x, y));
            if !(x == px && y == py) {
                assert(b1.tile(x, y) == b.tile(x, y));
            }
        }
    }
}

/// Whether one of the first `k` patches names the cell `(x, y)`.
pub open spec fn written(patches: Seq<Patch>, k: int, x: int, y: int) -> bool {
    exists|q: int| 0 <= q < k && (#[trigger] patches[q]).0.0 == x && patches[q].0.1 == y
}

/// Whether patches of one cell give it the same tile.
pub open spec fn coherent(patches: Seq<Patch>) -> bool {
    forall|p: int, q: int|
        0 <= p < patches.len() && 0 <= q < patches.len() && (#[trigger] patches[p]).0
            == (#[trigger] patches[q]).0 ==> patches[p].1 == patches[q].1
}

/// Whether every patch names an unprocessed cell.
pub open spec fn targets_open(b: Board, patches: Seq<Patch>) -> bool {
    forall|q: int|
        0 <= q < patches.len() ==> is_open(
            b,
            (#[trigger] patches[q]).0.0 as int,
            patches[q].0.1 as int,
        )
}

/// 1 for an active cell of the board, 0 otherwise.
pub open spec fn active_at(b: Board, x: int, y: int) -> int {
    if b.contains(x, y) && b.tile(x, y) == ACTIVE {
        1
    } else {
        0
    }
}

/// How many neighbours of `(x, y)` are active.
pub open spec fn active_neighbours(b: Board, x: int, y: int) -> int {
    active_at(b, x, y + 1) + active_at(b, x + 1, y) + active_at(b, x, y - 1) + active_at(
        b,
        x - 1,
        y,
    )
}

/// The value of the clue at `(x, y)` and the number of its active
/// neighbours, added up: the value of the clue before any of its
/// neighbours became active.
pub open spec fn clue_total(b: Board, x: int, y: int) -> int {
    b.tile(x, y) + active_neighbours(b, x, y)
}

/// Whether every clue of `b` is a clue of `after` with the same total: each
/// clue has been lowered by one for each neighbour that became active.
pub open spec fn clues_kept(b: Board, after: Board) -> bool {
    forall|x: int, y: int|
        clue_at(b, x, y) ==> clue_at(after, x, y) && #[trigger] clue_total(after, x, y)
            == clue_total(b, x, y)
}

/// What holds after the first `k` patches were written to unprocessed cells.
pub open spec fn commit_sound(
    b: Board,
    after: Board,
    patches: Seq<Patch>,
    k: int,
) -> bool {
    &&& after.wf()
    &&& after.width == b.width
    &&& after.height == b.height
    &&& forall|q: int|
        0 <= q < k ==> after.tile((#[trigger] patches[q]).0.0 as int, patches[q].0.1 as int)
            == patches[q].1
    &&& forall|x: int, y: int|
        b.contains(x, y) && !written(patches, k, x, y) ==> #[trigger] is_open(after, x, y)
            == is_open(b, x, y)
    &&& forall|x: int, y: int| #[trigger] clue_at(after, x, y) == clue_at(b, x, y)
    &&& forall|x: int, y: int|
        b.contains(x, y) && !written(patches, k, x, y) && !clue_at(b, x, y) ==> #[trigger] after.tile(
            x,
            y,
        ) == b.tile(x, y)
    &&& clues_kept(b, after)
}

/// Patches written to unprocessed cells change these cells and lower the
/// clues beside the cells that become active, and nothing else: no other
/// cell stops or starts being unprocessed, the clues stay where they are,
/// and each is lowered by one for each neighbour that became active.
pub proof fn lemma_commit_effect(
    b: Board,
    todo: Seq<Coord>,
    patches: Seq<Patch>,
    k: int,
)
    requires
        b.wf(),
        patches_valid(b, patches),
        coherent(patches),
        targets_open(b, patches),
        0 <= k <= patches.len(),
        commit(b, todo, patches, k) is Ok,
    ensures
        commit_sound(b, commit(b, todo, patches, k).unwrap().0, patches, k),
    decreases k,
{
    if k > 0 {
        lemma_commit_effect(b, todo, patches, k - 1);
        let (b1, t1) = commit(b, todo, patches, k - 1).unwrap();
        let patch = patches[k - 1];
        let px = patch.0.0 as int;
        let py = patch.0.1 as int;
        let v = patch.1;
        let after = commit_one(b1, t1, patch).unwrap().0;
        assert(b.contains(px, py));
        assert(is_open(b, px, py));
        if written(patches, k - 1, px, py) {
            let q = choose|q: int|
                0 <= q < k - 1 && (#[trigger] patches[q]).0.0 == px && patches[q].0.1 == py;
            assert(patches[q].0 == patch.0);
            assert(b1.tile(px, py) == v);
            b1.lemma_index_in_range(px, py);
            assert(after.cells =~= b1.cells);
            assert(after == b1);
            assert forall|x: int, y: int|
                b.contains(x, y) && !written(patches, k, x, y) implies #[trigger] is_open(
                after,
                x,
                y,
            ) == is_open(b, x, y) by {
                if written(patches, k - 1, x, y) {
                    let r = choose|r: int|
                        0 <= r < k - 1 && (#[trigger] patches[r]).0.0 == x && patches[r].0.1 == y;
                    assert(0 <= r < k);
                }
            }
        } else {
            assert(is_open(b1, px, py) == is_open(b, px, py));
            lemma_commit_one_effect(b1, t1, patch);
            assert forall|q: int| 0 <= q < k implies after.tile(
                (#[trigger] patches[q]).0.0 as int,
                patches[q].0.1 as int,
            ) == patches[q].1 by {
                let x = patches[q].0.0 as int;
                let y = patches[q].0.1 as int;
                assert(b.contains(x, y));
                assert(after.tile(x, y) == tile_after(b1, patch, x, y));
                if q < k - 1 {
                    assert(b1.tile(x, y) == patches[q].1);
                    assert(!(x == px && y == py));
                }
            }
            assert forall|x: int, y: int|
                b.contains(x, y) && !written(patches, k, x, y) implies #[trigger] is_open(
                after,
                x,
                y,
            ) == is_open(b, x, y) by {
                assert(after.tile(x, y) == tile_after(b1, patch, x, y));
                if written(patches, k - 1, x, y) {
                    let r = choose|r: int|
                        0 <= r < k - 1 && (#[trigger] patches[r]).0.0 == x && patches[r].0.1 == y;
                    assert(0 <= r < k);
                }
                assert(!(x == px && y == py));
                assert(is_open(b1, x, y) == is_open(b, x, y));
            }
            assert forall|x: int, y: int| #[trigger] clue_at(after, x, y) == clue_at(b, x, y) by {
                assert(clue_at(b1, x, y) == clue_at(b, x, y));
                if b.contains(x, y) {
                    assert(after.tile(x, y) == tile_after(b1, patch, x, y));
                }
            }
            assert forall|x: int, y: int| clue_at(b, x, y) implies clue_at(after, x, y)
                && #[trigger] clue_total(after, x, y) == clue_total(b, x, y) by {
                assert(clue_at(b1, x, y) == clue_at(b, x, y));
                assert(clue_at(after, x, y) == clue_at(b, x, y));
                assert(clue_total(b1, x, y) == clue_total(b, x, y));
                assert(after.tile(x, y) == tile_after(b1, patch, x, y));
                lemma_active_after(b1, after, patch, x, y + 1);
                lemma_active_after(b1, after, patch, x + 1, y);
                lemma_active_after(b1, after, patch, x, y - 1);
                lemma_active_after(b1, after, patch, x - 1, y);
            }
        }
    } else {
        assert forall|x: int, y: int| #[trigger] clue_at(b, x, y) == clue_at(b, x, y) by {}
    }
}

/// Writing a patch to an unprocessed cell makes that cell active or not,
/// and no other.
pub proof fn lemma_active_after(b: Board, after: Board, patch: Patch, x: int, y: int)
    requires
        after.width == b.width,
        after.height == b.height,
        is_open(b, patch.0.0 as int, patch.0.1 as int),
        forall|x: int, y: int|
            b.contains(x, y) ==> #[trigger] after.tile(x, y) == tile_after(b, patch, x, y),
    ensures
        active_at(after, x, y) == (if x == patch.0.0 && y == patch.0.1 && patch.1 == ACTIVE {
            1int
        } else {
            active_at(b, x, y)
        }),
{
    if b.contains(x, y) {
        assert(after.tile(x, y) == tile_after(b, patch, x, y));
    }
}

/// Whether `(x, y)` is one of the first `k` cells of the placed group and
/// the feasible candidates agree on it.
pub open spec fn forced_cell(
    b: Board,
    g: Seq<Coord>,
    solutions: Seq<Seq<Coord>>,
    o: Coord,
    k: int,
    x: int,
    y: int,
) -> bool {
    exists|i: int|
        0 <= i < k && (#[trigger] g[i]).0 + o.0 == x && g[i].1 + o.1 == y && all_agree(
            b,
            g,
            solutions,
            o,
            g[i],
        )
}

/// Whether `(x, y)` is one of the first `k` cells of the placed group and
/// the feasible candidates do not agree on it.
pub open spec fn left_cell(
    b: Board,
    g: Seq<Coord>,
    solutions: Seq<Seq<Coord>>,
    o: Coord,
    k: int,
    x: int,
    y: int,
) -> bool {
    exists|i: int|
        0 <= i < k && (#[trigger] g[i]).0 + o.0 == x && g[i].1 + o.1 == y && !all_agree(
            b,
            g,
            solutions,
            o,
            g[i],
        )
}

/// A cell of the placed group is forced or left over, not both.
pub proof fn lemma_forced_or_left(
    b: Board,
    g: Seq<Coord>,
    solutions: Seq<Seq<Coord>>,
    o: Coord,
    x: int,
    y: int,
)
    ensures
        in_shape(g, o, x, y) <==> forced_cell(b, g, solutions, o, g.len() as int, x, y) || left_cell(
            b,
            g,
            solutions,
            o,
            g.len() as int,
            x,
            y,
        ),
        !(forced_cell(b, g, solutions, o, g.len() as int, x, y) && left_cell(
            b,
            g,
            solutions,
            o,
            g.len() as int,
            x,
            y,
        )),
{
    let n = g.len() as int;
    if in_shape(g, o, x, y) {
        let i = choose|i: int|
            0 <= i < g.len() && (#[trigger] g[i]).0 + o.0 == x && g[i].1 + o.1 == y;
        assert(0 <= i < n && g[i].0 + o.0 == x);
    }
    if forced_cell(b, g, solutions, o, n, x, y) && left_cell(b, g, solutions, o, n, x, y) {
        let i = choose|i: int|
            0 <= i < n && (#[trigger] g[i]).0 + o.0 == x && g[i].1 + o.1 == y && all_agree(
                b,
                g,
                solutions,
                o,
                g[i],
            );
        let j = choose|j: int|
            0 <= j < n && (#[trigger] g[j]).0 + o.0 == x && g[j].1 + o.1 == y && !all_agree(
                b,
                g,
                solutions,
                o,
                g[j],
            );
        assert(g[i] == g[j]);
    }
}

/// Whether `p` is the patch that the witness gives to one of the first `k`
/// cells, on which the candidates agree.
pub open spec fn patch_of_agreed(
    b: Board,
    g: Seq<Coord>,
    solutions: Seq<Seq<Coord>>,
    o: Coord,
    witness: int,
    k: int,
    p: Patch,
) -> bool {
    exists|i: int|
        0 <= i < k && all_agree(b, g, solutions, o, #[trigger] g[i]) && p == candidate_patches(
            g,
            solutions[witness],
            o,
        )[i]
}

/// Every forced patch is the patch that the witness gives to a cell on
/// which the candidates agree, and every such cell has its patch.
pub proof fn lemma_forced_cells(
    b: Board,
    g: Seq<Coord>,
    solutions: Seq<Seq<Coord>>,
    o: Coord,
    witness: int,
    k: int,
)
    requires
        b.wf(),
        shape_fits(b, g, o),
        0 <= k <= g.len(),
    ensures
        forall|q: int|
            0 <= q < forced_patches(b, g, solutions, o, witness, k).len() ==> patch_of_agreed(
                b,
                g,
                solutions,
                o,
                witness,
                k,
                #[trigger] forced_patches(b, g, solutions, o, witness, k)[q],
            ),
        forall|x: int, y: int|
            written(
                forced_patches(b, g, solutions, o, witness, k),
                forced_patches(b, g, solutions, o, witness, k).len() as int,
                x,
                y,
            ) <==> #[trigger] forced_cell(b, g, solutions, o, k, x, y),
    decreases k,
{
    let all = forced_patches(b, g, solutions, o, witness, k);
    let cand = candidate_patches(g, solutions[witness], o);
    if k > 0 {
        lemma_forced_cells(b, g, solutions, o, witness, k - 1);
        let rest = forced_patches(b, g, solutions, o, witness, k - 1);
        let last = g[k - 1];
        assert(b.contains(last.0 + o.0, last.1 + o.1));
        assert forall|q: int| 0 <= q < all.len() implies patch_of_agreed(
            b,
            g,
            solutions,
            o,
            witness,
            k,
            #[trigger] all[q],
        ) by {
            if q < rest.len() {
                assert(patch_of_agreed(b, g, solutions, o, witness, k - 1, rest[q]));
                let i = choose|i: int|
                    0 <= i < k - 1 && all_agree(b, g, solutions, o, #[trigger] g[i]) && rest[q]
                        == cand[i];
                assert(all[q] == rest[q]);
                assert(0 <= i < k && all_agree(b, g, solutions, o, g[i]) && all[q] == cand[i]);
            } else {
                assert(all[q] == cand[k - 1]);
                assert(all_agree(b, g, solutions, o, g[k - 1]));
            }
        }
        assert forall|x: int, y: int|
            written(all, all.len() as int, x, y) <==> #[trigger] forced_cell(
                b,
                g,
                solutions,
                o,
                k,
                x,
                y,
            ) by {
            assert(written(rest, rest.len() as int, x, y) <==> forced_cell(
                b,
                g,
                solutions,
                o,
                k - 1,
                x,
                y,
            ));
            if written(all, all.len() as int, x, y) {
                let q = choose|q: int|
                    0 <= q < all.len() && (#[trigger] all[q]).0.0 == x && all[q].0.1 == y;
                if q < rest.len() {
                    assert(rest[q] == all[q]);
                    assert(written(rest, rest.len() as int, x, y));
                    let i = choose|i: int|
                        0 <= i < k - 1 && (#[trigger] g[i]).0 + o.0 == x && g[i].1 + o.1 == y
                            && all_agree(b, g, solutions, o, g[i]);
                    assert(0 <= i < k && g[i].0 + o.0 == x);
                } else {
                    assert(all[q] == cand[k - 1]);
                    assert(g[k - 1].0 + o.0 == x && g[k - 1].1 + o.1 == y);
                }
            }
            if forced_cell(b, g, solutions, o, k, x, y) {
                let i = choose|i: int|
                    0 <= i < k && (#[trigger] g[i]).0 + o.0 == x && g[i].1 + o.1 == y && all_agree(
                        b,
                        g,
                        solutions,
                        o,
                        g[i],
                    );
                if i < k - 1 {
                    assert(forced_cell(b, g, solutions, o, k - 1, x, y));
                    let q = choose|q: int|
                        0 <= q < rest.len() && (#[trigger] rest[q]).0.0 == x && rest[q].0.1 == y;
                    assert(all[q] == rest[q]);
                } else {
                    let q = all.len() - 1;
                    assert(all[q] == cand[k - 1]);
                    assert(all[q].0.0 == x && all[q].0.1 == y);
                }
            }
        }
    } else {
        assert(all =~= Seq::<Patch>::empty());
    }
}

/// Forced patches of one cell give it the same tile.
pub proof fn lemma_forced_coherent(
    b: Board,
    g: Seq<Coord>,
    solutions: Seq<Seq<Coord>>,
    o: Coord,
    witness: int,
)
    requires
        b.wf(),
        shape_fits(b, g, o),
    ensures
        coherent(forced_patches(b, g, solutions, o, witness, g.len() as int)),
{
    let n = g.len() as int;
    let all = forced_patches(b, g, solutions, o, witness, n);
    let cand = candidate_patches(g, solutions[witness], o);
    lemma_forced_cells(b, g, solutions, o, witness, n);
    assert forall|p: int, q: int|
        0 <= p < all.len() && 0 <= q < all.len() && (#[trigger] all[p]).0 == (
        #[trigger] all[q]).0 implies all[p].1 == all[q].1 by {
        assert(patch_of_agreed(b, g, solutions, o, witness, n, all[p]));
        assert(patch_of_agreed(b, g, solutions, o, witness, n, all[q]));
        let i = choose|i: int|
            0 <= i < n && all_agree(b, g, solutions, o, #[trigger] g[i]) && all[p] == cand[i];
        let j = choose|j: int|
            0 <= j < n && all_agree(b, g, solutions, o, #[trigger] g[j]) && all[q] == cand[j];
        assert(b.contains(g[i].0 + o.0, g[i].1 + o.1));
        assert(b.contains(g[j].0 + o.0, g[j].1 + o.1));
        assert(g[i] == g[j]);
    }
}

/// The cells of the refinement, placed at the origin, are the cells of the
/// group on which the candidates do not agree.
pub proof fn lemma_left_cells(
    b: Board,
    g: Seq<Coord>,
    solutions: Seq<Seq<Coord>>,
    o: Coord,
    x: int,
    y: int,
)
    ensures
        in_shape(sorted(residual(b, g, solutions, o, g.len() as int)), o, x, y) <==> left_cell(
            b,
            g,
            solutions,
            o,
            g.len() as int,
            x,
            y,
        ),
{
    broadcast use vstd::seq_lib::group_to_multiset_ensures;

    let n = g.len() as int;
    let left = residual(b, g, solutions, o, n);
    let rest = sorted(left);
    lemma_residual(b, g, solutions, o, n);
    lemma_lex_total();
    left.lemma_sort_by_ensures(lex_order());
    assert forall|c: Coord| rest.contains(c) <==> left.contains(c) by {
        assert(rest.to_multiset().count(c) == left.to_multiset().count(c));
    }
    if in_shape(rest, o, x, y) {
        let i = choose|i: int|
            0 <= i < rest.len() && (#[trigger] rest[i]).0 + o.0 == x && rest[i].1 + o.1 == y;
        assert(rest.contains(rest[i]));
        assert(left.contains(rest[i]));
        let j = choose|j: int|
            0 <= j < n && #[trigger] g[j] == rest[i] && !all_agree(b, g, solutions, o, rest[i]);
        assert(0 <= j < n && g[j].0 + o.0 == x && g[j].1 + o.1 == y);
    }
    if left_cell(b, g, solutions, o, n, x, y) {
        let j = choose|j: int|
            0 <= j < n && (#[trigger] g[j]).0 + o.0 == x && g[j].1 + o.1 == y && !all_agree(
                b,
                g,
                solutions,
                o,
                g[j],
            );
        assert(left.contains(g[j]));
        assert(rest.contains(g[j]));
        let i = choose|i: int| 0 <= i < rest.len() && rest[i] == g[j];
        assert(rest[i].0 + o.0 == x && rest[i].1 + o.1 == y);
    }
}

/// Where the engine forces patches and cells are left over, these cells, in
/// order, are the group of a shape of the library, whose parent is the shape
/// that the engine looked at. The cache binds every left-over cell to that
/// shape at the origin of the group, and every other entry is as it was.
/// Where no cell is left over, the library and the cache are as they were.
pub proof fn lemma_left_over_cached(
    b: Board,
    shape_id: ShapeId,
    shape: ShapeView,
    lib: Seq<ShapeView>,
    cache: CacheModel,
    o: Coord,
)
    requires
        b.wf(),
        lib.len() <= usize::MAX,
        unique_outcome(b, shape_id, shape, lib, cache, o).result matches Ok(Some(_)),
    ensures
        ({
            let out = unique_outcome(b, shape_id, shape, lib, cache, o);
            let rest = sorted(
                residual(b, shape.group, shape.solutions.unwrap(), o, shape.group.len() as int),
            );
            &&& extends(out.library, lib)
            &&& out.library.len() <= lib.len() + 1
            &&& (rest.len() == 0 ==> out.cache == cache && out.library == lib)
            &&& (rest.len() > 0 ==> exists|id: ShapeId|
                id < out.library.len() && (#[trigger] out.library[id as int]).group == rest
                    && out.library[id as int].parent == Some(shape_id) && forall|c: Coord|
                    #[trigger] out.cache.get(c) == (if in_shape(rest, o, c.0 as int, c.1 as int) {
                        Some((o, id))
                    } else {
                        cache.get(c)
                    }))
        }),
{
    let g = shape.group;
    let n = g.len() as int;
    let sols = shape.solutions.unwrap();
    let out = unique_outcome(b, shape_id, shape, lib, cache, o);
    let rest = sorted(residual(b, g, sols, o, n));
    assert(shape_fits(b, g, o));
    if rest.len() > 0 {
        assert forall|i: int| 0 <= i < rest.len() implies (#[trigger] rest[i]).0 + o.0
            <= usize::MAX && rest[i].1 + o.1 <= usize::MAX by {
            let x = rest[i].0 + o.0;
            let y = rest[i].1 + o.1;
            lemma_left_cells(b, g, sols, o, x, y);
            lemma_forced_or_left(b, g, sols, o, x, y);
            assert(in_shape(rest, o, x, y));
            assert(in_shape(g, o, x, y));
            let j = choose|j: int|
                0 <= j < g.len() && (#[trigger] g[j]).0 + o.0 == x && g[j].1 + o.1 == y;
            assert(b.contains(g[j].0 + o.0, g[j].1 + o.1));
        }
        lemma_index_of(lib, rest, Some(shape_id));
        let id: ShapeId = match index_of(lib, rest, Some(shape_id)) {
            Some(child) => child as usize,
            None => lib.len() as usize,
        };
        assert(out.cache == remap(cache, rest, o, id, rest.len() as int));
        assert(id < out.library.len() && out.library[id as int].group == rest
            && out.library[id as int].parent == Some(shape_id));
        assert forall|c: Coord| #[trigger]
            out.cache.get(c) == (if in_shape(rest, o, c.0 as int, c.1 as int) {
                Some((o, id))
            } else {
                cache.get(c)
            }) by {
            lemma_remap(cache, rest, o, id, rest.len() as int, c);
            if in_prefix(rest, o, rest.len() as int, c.0 as int, c.1 as int) {
                let i = choose|i: int|
                    0 <= i < rest.len() && (#[trigger] rest[i]).0 + o.0 == c.0 && rest[i].1 + o.1
                        == c.1;
                assert(in_shape(rest, o, c.0 as int, c.1 as int));
            }
            if in_shape(rest, o, c.0 as int, c.1 as int) {
                let i = choose|i: int|
                    0 <= i < rest.len() && (#[trigger] rest[i]).0 + o.0 == c.0 && rest[i].1 + o.1
                        == c.1;
                assert(in_prefix(rest, o, rest.len() as int, c.0 as int, c.1 as int));
            }
        }
    }
}

/// What the engine and the writing of its patches leave behind, where
/// patches were forced in a placed group of unprocessed cells.
pub open spec fn settled(
    b: Board,
    lib: Seq<ShapeView>,
    cache: CacheModel,
    g: Seq<Coord>,
    solutions: Seq<Seq<Coord>>,
    o: Coord,
    t: SolverState,
) -> bool {
    let n = g.len() as int;
    let rest = sorted(residual(b, g, solutions, o, n));
    &&& t.board.wf()
    &&& t.board.width == b.width
    &&& t.board.height == b.height
    &&& extends(t.library, lib)
    &&& forall|x: int, y: int|
        b.contains(x, y) ==> #[trigger] is_open(t.board, x, y) == (is_open(b, x, y) && !forced_cell(
            b,
            g,
            solutions,
            o,
            n,
            x,
            y,
        ))
    &&& forall|x: int, y: int| #[trigger] clue_at(t.board, x, y) == clue_at(b, x, y)
    &&& clues_kept(b, t.board)
    &&& (rest.len() == 0 ==> t.cache == cache)
    &&& (rest.len() > 0 ==> exists|id: ShapeId|
        id < t.library.len() && (#[trigger] t.library[id as int]).group == rest && forall|c: Coord|
            #[trigger] t.cache.get(c) == (if in_shape(rest, o, c.0 as int, c.1 as int) {
                Some((o, id))
            } else {
                cache.get(c)
            }))
}

/// Where the engine forces patches in a placed group of unprocessed cells,
/// the state afterwards is as `settled` says.
pub proof fn lemma_settle_forced(
    s: SolverState,
    todo: Seq<Coord>,
    shape_id: ShapeId,
    shape: ShapeView,
    cache: CacheModel,
    o: Coord,
)
    requires
        s.board.wf(),
        shape_id < s.library.len(),
        placed_open(s.board, shape.group, o),
        settle(s, todo, shape_id, shape, cache, o) is Ok,
        (settle(s, todo, shape_id, shape, cache, o)->Ok_0).library.len() <= usize::MAX,
        unique_outcome(s.board, shape_id, shape, s.library, cache, o).result matches Ok(Some(_)),
    ensures
        settled(
            s.board,
            s.library,
            cache,
            shape.group,
            shape.solutions.unwrap(),
            o,
            settle(s, todo, shape_id, shape, cache, o)->Ok_0,
        ),
{
    let b = s.board;
    let lib = s.library;
    let g = shape.group;
    let n = g.len() as int;
    let sols = shape.solutions.unwrap();
    let out = unique_outcome(b, shape_id, shape, lib, cache, o);
    let t = settle(s, todo, shape_id, shape, cache, o)->Ok_0;
    let used = feasible_ids(b, g, sols, o, sols.len() as int);
    let w = used[0] as int;
    let patches = forced_patches(b, g, sols, o, w, n);
    let rest = sorted(residual(b, g, sols, o, n));
    assert(out.result == Ok::<Option<Seq<Patch>>, crate::error::SolveError>(Some(patches)));
    assert(shape_fits(b, g, o));
    lemma_forced_patches_valid(b, g, sols, o, w, n);
    lemma_forced_cells(b, g, sols, o, w, n);
    lemma_forced_coherent(b, g, sols, o, w);
    assert(patches_valid(b, patches));
    assert(targets_open(b, patches)) by {
        assert forall|q: int| 0 <= q < patches.len() implies is_open(
            b,
            (#[trigger] patches[q]).0.0 as int,
            patches[q].0.1 as int,
        ) by {
            assert(in_shape(g, o, patches[q].0.0 as int, patches[q].0.1 as int));
        }
    }
    lemma_commit_effect(b, todo, patches, patches.len() as int);
    let after = commit(b, todo, patches, patches.len() as int).unwrap().0;
    assert(t.board == after);
    assert forall|x: int, y: int| b.contains(x, y) implies #[trigger] is_open(t.board, x, y) == (
    is_open(b, x, y) && !forced_cell(b, g, sols, o, n, x, y)) by {
        assert(written(patches, patches.len() as int, x, y) <==> forced_cell(
            b,
            g,
            sols,
            o,
            n,
            x,
            y,
        ));
        if written(patches, patches.len() as int, x, y) {
            let q = choose|q: int|
                0 <= q < patches.len() && (#[trigger] patches[q]).0.0 == x && patches[q].0.1 == y;
            assert(after.tile(patches[q].0.0 as int, patches[q].0.1 as int) == patches[q].1);
        }
    }
    lemma_left_over_cached(b, shape_id, shape, lib, cache, o);
    if rest.len() > 0 {
        let id = choose|id: ShapeId|
            id < out.library.len() && (#[trigger] out.library[id as int]).group == rest
                && out.library[id as int].parent == Some(shape_id) && forall|c: Coord|
                #[trigger] out.cache.get(c) == (if in_shape(rest, o, c.0 as int, c.1 as int) {
                    Some((o, id))
                } else {
                    cache.get(c)
                });
        assert(id < t.library.len() && t.library[id as int].group == rest);
    }
}

/// A sound entry stays sound when unprocessed cells outside its placed group
/// are decided, shapes are added to the library, and the entries of its
/// cells stay as they are.
pub proof fn lemma_entry_survives(
    b: Board,
    after: Board,
    lib: Seq<ShapeView>,
    lib2: Seq<ShapeView>,
    cache: CacheModel,
    cache2: CacheModel,
    c: Coord,
    e: CacheEntry,
)
    requires
        good_entry(b, lib, cache, c, e),
        extends(lib2, lib),
        forall|x: int, y: int| #[trigger] is_open(after, x, y) ==> is_open(b, x, y),
        forall|x: int, y: int|
            #[trigger] in_shape(lib[e.1 as int].group, e.0, x, y) ==> is_open(after, x, y),
        forall|d: Coord|
            #[trigger] in_shape(lib[e.1 as int].group, e.0, d.0 as int, d.1 as int)
                ==> cache2.get(d) == cache.get(d),
    ensures
        good_entry(after, lib2, cache2, c, e),
{
    let g = lib[e.1 as int].group;
    let o = e.0;
    assert(lib2[e.1 as int] == lib[e.1 as int]);
    assert(placed_open(after, g, o));
    assert(placed_closed(after, g, o)) by {
        assert forall|x: int, y: int, nx: int, ny: int|
            #![trigger in_shape(g, o, x, y), is_open(after, nx, ny)]
            in_shape(g, o, x, y) && next_to(x, y, nx, ny) && is_open(
                after,
                nx,
                ny,
            ) implies in_shape(g, o, nx, ny) by {
            assert(is_open(b, nx, ny));
        }
    }
    if placed_cached(cache, g, o, e) {
        assert forall|d: Coord| #[trigger]
            in_shape(g, o, d.0 as int, d.1 as int) implies cache2.get(d) == Some(e) by {
            assert(cache.get(d) == Some(e));
        }
    } else {
        assert forall|d: Coord| #[trigger]
            in_shape(g, o, d.0 as int, d.1 as int) implies connected(after, c, d) by {
            assert(connected(b, c, d));
            let p = choose|p: Seq<Coord>| #[trigger] is_path(b, p) && p[0] == c && p.last() == d;
            assert forall|k: int| 0 <= k < p.len() implies open_cell(after, #[trigger] p[k]) by {
                lemma_path_stays(b, g, o, p, k);
                assert(is_open(after, p[k].0 as int, p[k].1 as int));
            }
            assert(is_path(after, p));
        }
    }
}

/// What an iteration, or a run, of the driver keeps to, from `s` to `t`: the
/// board stays well formed, with every tile of the legal alphabet; the
/// library only grows; the cache stays consistent; no cell becomes
/// unprocessed; clues stay where they are; and each clue is lower by one
/// for each neighbour that became active.
pub open spec fn kept(s: SolverState, t: SolverState) -> bool {
    &&& t.board.wf()
    &&& t.board.width == s.board.width
    &&& t.board.height == s.board.height
    &&& extends(t.library, s.library)
    &&& consistent(t.board, t.library, t.cache)
    &&& forall|x: int, y: int| #[trigger] clue_at(t.board, x, y) == clue_at(s.board, x, y)
    &&& forall|x: int, y: int| #[trigger] is_open(t.board, x, y) ==> is_open(s.board, x, y)
    &&& clues_kept(s.board, t.board)
}

/// Whether every clue of the board is the value that `first` gives for its
/// cell, less the number of its active neighbours.
pub open spec fn clues_account(b: Board, first: spec_fn(int, int) -> int) -> bool {
    forall|x: int, y: int|
        clue_at(b, x, y) ==> #[trigger] b.tile(x, y) == first(x, y) - active_neighbours(b, x, y)
}

/// Where every clue is its first value less the number of its active
/// neighbours, this still holds after anything that keeps to `kept`, and
/// every clue is still a clue: 1 at least, 3 at most.
pub proof fn lemma_clues_account(s: SolverState, t: SolverState, first: spec_fn(int, int) -> int)
    requires
        kept(s, t),
        clues_account(s.board, first),
    ensures
        clues_account(t.board, first),
        forall|x: int, y: int|
            clue_at(s.board, x, y) ==> clue_at(t.board, x, y) && 1 <= #[trigger] t.board.tile(x, y)
                <= 3,
{
    assert forall|x: int, y: int| clue_at(t.board, x, y) implies #[trigger] t.board.tile(x, y)
        == first(x, y) - active_neighbours(t.board, x, y) by {
        assert(clue_at(t.board, x, y) == clue_at(s.board, x, y));
        assert(clue_total(t.board, x, y) == clue_total(s.board, x, y));
        assert(s.board.tile(x, y) == first(x, y) - active_neighbours(s.board, x, y));
    }
    assert forall|x: int, y: int| clue_at(s.board, x, y) implies clue_at(t.board, x, y) && 1
        <= #[trigger] t.board.tile(x, y) <= 3 by {
        assert(clue_at(t.board, x, y) == clue_at(s.board, x, y));
    }
}

/// From a consistent state in which the cell `seed` is unprocessed and
/// cached with the shape `shape_id` at `o`, the engine and the writing of
/// its patches lead to a consistent state. Only unprocessed cells of the
/// group are written, clues stay clues, and each is lowered by one for each
/// neighbour that became active.
pub proof fn lemma_settle_sound(
    s: SolverState,
    todo: Seq<Coord>,
    shape_id: ShapeId,
    shape: ShapeView,
    cache: CacheModel,
    o: Coord,
    seed: Coord,
)
    requires
        s.board.wf(),
        consistent(s.board, s.library, cache),
        cache.get(seed) == Some((o, shape_id)),
        open_cell(s.board, seed),
        shape_id < s.library.len() ==> shape.group == s.library[shape_id as int].group,
        settle(s, todo, shape_id, shape, cache, o) is Ok,
        (settle(s, todo, shape_id, shape, cache, o)->Ok_0).library.len() <= usize::MAX,
    ensures
        kept(
            state_of(s.board, s.library, cache, todo),
            settle(s, todo, shape_id, shape, cache, o)->Ok_0,
        ),
{
    let b = s.board;
    let lib = s.library;
    let g = shape.group;
    let n = g.len() as int;
    let e: CacheEntry = (o, shape_id);
    let t = settle(s, todo, shape_id, shape, cache, o)->Ok_0;
    let out = unique_outcome(b, shape_id, shape, lib, cache, o);
    assert(cache.map.contains_key(seed));
    assert(good_entry(b, lib, cache, seed, e));
    match out.result {
        Ok(Some(patches)) => {
            let sols = shape.solutions.unwrap();
            let rest = sorted(residual(b, g, sols, o, n));
            lemma_settle_forced(s, todo, shape_id, shape, cache, o);
            assert(settled(b, lib, cache, g, sols, o, t));
            assert forall|x: int, y: int| #[trigger] is_open(t.board, x, y) implies is_open(
                b,
                x,
                y,
            ) by {}
            assert forall|c: Coord| #[trigger]
                t.cache.map.contains_key(c) && open_cell(t.board, c) implies good_entry(
                t.board,
                t.library,
                t.cache,
                c,
                t.cache.map[c],
            ) by {
                let x = c.0 as int;
                let y = c.1 as int;
                assert(is_open(t.board, x, y));
                assert(is_open(b, x, y) && !forced_cell(b, g, sols, o, n, x, y));
                lemma_forced_or_left(b, g, sols, o, x, y);
                lemma_left_cells(b, g, sols, o, x, y);
                if in_shape(g, o, x, y) {
                    // a cell of the refinement
                    assert(in_shape(rest, o, x, y));
                    let id = choose|id: ShapeId|
                        id < t.library.len() && (#[trigger] t.library[id as int]).group == rest
                            && forall|c: Coord| #[trigger]
                            t.cache.get(c) == (if in_shape(rest, o, c.0 as int, c.1 as int) {
                                Some((o, id))
                            } else {
                                cache.get(c)
                            });
                    assert(t.cache.get(c) == Some((o, id)));
                    let e2: CacheEntry = (o, id);
                    assert forall|px: int, py: int| #[trigger]
                        in_shape(rest, o, px, py) implies is_open(t.board, px, py) by {
                        lemma_forced_or_left(b, g, sols, o, px, py);
                        lemma_left_cells(b, g, sols, o, px, py);
                        assert(in_shape(g, o, px, py));
                        assert(is_open(b, px, py));
                    }
                    assert forall|px: int, py: int, nx: int, ny: int|
                        #![trigger in_shape(rest, o, px, py), is_open(t.board, nx, ny)]
                        in_shape(rest, o, px, py) && next_to(px, py, nx, ny) && is_open(
                            t.board,
                            nx,
                            ny,
                        ) implies in_shape(rest, o, nx, ny) by {
                        lemma_forced_or_left(b, g, sols, o, px, py);
                        lemma_left_cells(b, g, sols, o, px, py);
                        lemma_forced_or_left(b, g, sols, o, nx, ny);
                        lemma_left_cells(b, g, sols, o, nx, ny);
                        assert(in_shape(g, o, px, py));
                        assert(is_open(b, nx, ny));
                        assert(in_shape(g, o, nx, ny));
                    }
                    assert forall|d: Coord| #[trigger]
                        in_shape(rest, o, d.0 as int, d.1 as int) implies t.cache.get(d) == Some(
                        e2,
                    ) by {}
                    assert(good_entry(t.board, t.library, t.cache, c, e2));
                } else {
                    // a cell of another group
                    if rest.len() > 0 {
                        let id = choose|id: ShapeId|
                            id < t.library.len() && (#[trigger] t.library[id as int]).group == rest
                                && forall|c: Coord| #[trigger]
                                t.cache.get(c) == (if in_shape(rest, o, c.0 as int, c.1 as int) {
                                    Some((o, id))
                                } else {
                                    cache.get(c)
                                });
                        assert(t.cache.get(c) == cache.get(c));
                    }
                    assert(cache.map.contains_key(c));
                    let e2 = cache.map[c];
                    assert(open_cell(b, c));
                    assert(good_entry(b, lib, cache, c, e2));
                    let g2 = lib[e2.1 as int].group;
                    assert forall|d: Coord| #[trigger]
                        in_shape(g2, e2.0, d.0 as int, d.1 as int) implies !in_shape(
                        g,
                        o,
                        d.0 as int,
                        d.1 as int,
                    ) by {
                        if in_shape(g, o, d.0 as int, d.1 as int) {
                            lemma_groups_equal_or_apart(b, lib, cache, seed, c, d);
                        }
                    }
                    assert forall|px: int, py: int| #[trigger]
                        in_shape(g2, e2.0, px, py) implies is_open(t.board, px, py) by {
                        assert(is_open(b, px, py));
                        let d: Coord = (px as usize, py as usize);
                        assert(in_shape(g2, e2.0, d.0 as int, d.1 as int));
                        lemma_forced_or_left(b, g, sols, o, px, py);
                    }
                    assert forall|d: Coord| #[trigger]
                        in_shape(g2, e2.0, d.0 as int, d.1 as int) implies t.cache.get(d)
                        == cache.get(d) by {
                        lemma_forced_or_left(b, g, sols, o, d.0 as int, d.1 as int);
                        lemma_left_cells(b, g, sols, o, d.0 as int, d.1 as int);
                        if rest.len() > 0 {
                            let id = choose|id: ShapeId|
                                id < t.library.len() && (#[trigger] t.library[id as int]).group
                                    == rest && forall|c: Coord| #[trigger]
                                    t.cache.get(c) == (if in_shape(
                                        rest,
                                        o,
                                        c.0 as int,
                                        c.1 as int,
                                    ) {
                                        Some((o, id))
                                    } else {
                                        cache.get(c)
                                    });
                            assert(t.cache.get(d) == cache.get(d));
                        }
                    }
                    lemma_entry_survives(b, t.board, lib, t.library, cache, t.cache, c, e2);
                }
            }
        },
        Ok(None) => {
            assert(t.board == b && t.library == lib && t.cache == cache);
            assert forall|x: int, y: int| #[trigger] clue_at(t.board, x, y) == clue_at(b, x, y) by {}
        },
        Err(_) => {},
    }
}

/// One iteration of the driver adds shapes to the library at most.
pub proof fn lemma_step_extends(s: SolverState)
    requires
        step(s) is Ok,
    ensures
        extends((step(s)->Ok_0).library, s.library),
{
}

/// One iteration of the driver, from a consistent state, keeps to `kept`.
pub proof fn lemma_step_sound(s: SolverState)
    requires
        s.board.wf(),
        consistent(s.board, s.library, s.cache),
        step(s) is Ok,
        (step(s)->Ok_0).library.len() <= usize::MAX,
    ensures
        kept(s, step(s)->Ok_0),
{
    let b = s.board;
    let lib = s.library;
    let c = s.todo.last();
    let todo = s.todo.drop_last();
    let t = step(s)->Ok_0;
    lemma_step_extends(s);
    if !b.contains(c.0 as int, c.1 as int) || b.tile(c.0 as int, c.1 as int) != UNPROCESSED {
        assert(t.board == b && t.library == lib && t.cache == s.cache);
        lemma_kept_refl(s);
    } else {
        assert(open_cell(b, c));
        let (entry, cache) = resolve(b, lib, s.cache, c)->Ok_0;
        if s.cache.get(c) is None {
            lemma_fresh_entry(b, lib, s.cache, c);
        }
        assert(consistent(b, lib, cache));
        assert(cache.get(c) == Some(entry));
        lemma_settle_sound(s, todo, entry.1, lib[entry.1 as int], cache, entry.0, c);
    }
}

/// A state keeps to itself.
pub proof fn lemma_kept_refl(s: SolverState)
    requires
        s.board.wf(),
        consistent(s.board, s.library, s.cache),
    ensures
        kept(s, s),
{
    assert forall|x: int, y: int| #[trigger] clue_at(s.board, x, y) == clue_at(s.board, x, y) by {}
}

/// What two stretches of a run keep to, the whole run keeps to.
pub proof fn lemma_kept_trans(s: SolverState, m: SolverState, t: SolverState)
    requires
        kept(s, m),
        kept(m, t),
    ensures
        kept(s, t),
{
    assert forall|x: int, y: int| #[trigger] clue_at(t.board, x, y) == clue_at(s.board, x, y) by {
        assert(clue_at(t.board, x, y) == clue_at(m.board, x, y));
        assert(clue_at(m.board, x, y) == clue_at(s.board, x, y));
    }
    assert forall|x: int, y: int| #[trigger] is_open(t.board, x, y) implies is_open(
        s.board,
        x,
        y,
    ) by {
        assert(is_open(m.board, x, y));
    }
    assert forall|i: int| 0 <= i < s.library.len() implies t.library[i] == s.library[i] by {
        assert(m.library[i] == s.library[i]);
    }
    assert forall|x: int, y: int| clue_at(s.board, x, y) implies clue_at(t.board, x, y)
        && #[trigger] clue_total(t.board, x, y) == clue_total(s.board, x, y) by {
        assert(clue_total(m.board, x, y) == clue_total(s.board, x, y));
        assert(clue_at(m.board, x, y));
    }
}

/// A run of the driver, from a consistent state, keeps to `kept` as far as
/// it goes without an error.
pub proof fn lemma_run_sound(s: SolverState, n: nat)
    requires
        s.board.wf(),
        consistent(s.board, s.library, s.cache),
        run(s, n) is Ok,
        (run(s, n)->Ok_0).library.len() <= usize::MAX,
    ensures
        kept(s, run(s, n)->Ok_0),
    decreases n,
{
    if n == 0 {
        lemma_kept_refl(s);
    } else {
        let m = run(s, (n - 1) as nat)->Ok_0;
        if m.todo.len() > 0 {
            lemma_step_extends(m);
        }
        lemma_run_sound(s, (n - 1) as nat);
        if m.todo.len() > 0 {
            lemma_step_sound(m);
            lemma_kept_trans(s, m, step(m)->Ok_0);
        }
    }
}

/// What a run keeps to, it keeps to when shapes are added to the library.
pub proof fn lemma_kept_grows(s: SolverState, t: SolverState, library: Seq<ShapeView>)
    requires
        kept(s, t),
        extends(library, t.library),
    ensures
        kept(s, SolverState { library, ..t }),
{
    assert forall|i: int| 0 <= i < s.library.len() implies library[i] == s.library[i] by {
        assert(t.library[i] == s.library[i]);
    }
    assert forall|c: Coord| #[trigger]
        t.cache.map.contains_key(c) && open_cell(t.board, c) implies good_entry(
        t.board,
        library,
        t.cache,
        c,
        t.cache.map[c],
    ) by {
        let e = t.cache.map[c];
        assert(good_entry(t.board, t.library, t.cache, c, e));
        assert(library[e.1 as int] == t.library[e.1 as int]);
    }
}

} // verus!
