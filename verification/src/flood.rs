//! Groups: maximal 4-connected sets of unprocessed cells, found by flood
//! fill, and their canonical form.

use vstd::prelude::*;
use vstd::set_lib::{lemma_int_range, lemma_len_subset, set_int_range};
use crate::cells::{contains_cell, sort_cells, sorted, Coord};
use crate::grid::{Board, TileStore};
use crate::tile::UNPROCESSED;

verus! {

/// Two cells that share an edge.
pub open spec fn adjacent(a: Coord, b: Coord) -> bool {
    ||| (a.0 == b.0 && (a.1 + 1 == b.1 || b.1 + 1 == a.1))
    ||| (a.1 == b.1 && (a.0 + 1 == b.0 || b.0 + 1 == a.0))
}

/// A cell of the board that is unprocessed.
pub open spec fn open_cell(b: Board, c: Coord) -> bool {
    b.contains(c.0 as int, c.1 as int) && b.tile(c.0 as int, c.1 as int) == UNPROCESSED
}

/// A walk over unprocessed cells in which each step crosses one edge.
pub open spec fn is_path(b: Board, p: Seq<Coord>) -> bool {
    &&& p.len() > 0
    &&& forall|i: int| 0 <= i < p.len() ==> open_cell(b, #[trigger] p[i])
    &&& forall|i: int| 0 < i < p.len() ==> adjacent(p[i - 1], #[trigger] p[i])
}

/// `to` can be reached from `from` over unprocessed cells.
pub open spec fn connected(b: Board, from: Coord, to: Coord) -> bool {
    exists|p: Seq<Coord>| #[trigger] is_path(b, p) && p[0] == from && p.last() == to
}

/// `g` lists, each once, exactly the cells of the group that holds `seed`.
pub open spec fn is_group_of(b: Board, g: Seq<Coord>, seed: Coord) -> bool {
    &&& g.no_duplicates()
    &&& forall|c: Coord| g.contains(c) <==> connected(b, seed, c)
}

/// An unprocessed cell is connected to itself.
pub proof fn lemma_connected_refl(b: Board, c: Coord)
    requires
        open_cell(b, c),
    ensures
        connected(b, c, c),
{
    let p = seq![c];
    assert(is_path(b, p));
    assert(p[0] == c && p.last() == c);
}

/// A connection can be walked one step further.
pub proof fn lemma_connected_step(b: Board, from: Coord, via: Coord, to: Coord)
    requires
        connected(b, from, via),
        adjacent(via, to),
        open_cell(b, to),
    ensures
        connected(b, from, to),
{
    let p = choose|p: Seq<Coord>| #[trigger] is_path(b, p) && p[0] == from && p.last() == via;
    let q = p.push(to);
    assert forall|i: int| 0 < i < q.len() implies adjacent(q[i - 1], #[trigger] q[i]) by {
        if i < p.len() {
            assert(adjacent(p[i - 1], p[i]));
        }
    }
    assert(is_path(b, q));
    assert(q[0] == from && q.last() == to);
}

/// A connection can be walked backwards.
pub proof fn lemma_connected_sym(b: Board, from: Coord, to: Coord)
    requires
        connected(b, from, to),
    ensures
        connected(b, to, from),
{
    let p = choose|p: Seq<Coord>| #[trigger] is_path(b, p) && p[0] == from && p.last() == to;
    let n = p.len() as int;
    let q = Seq::new(p.len(), |i: int| p[n - 1 - i]);
    assert forall|i: int| 0 <= i < q.len() implies open_cell(b, #[trigger] q[i]) by {
        assert(open_cell(b, p[n - 1 - i]));
    }
    assert forall|i: int| 0 < i < q.len() implies adjacent(q[i - 1], #[trigger] q[i]) by {
        assert(adjacent(p[n - 1 - i], p[n - i]));
    }
    assert(is_path(b, q));
    assert(q[0] == to && q.last() == from);
}

/// Two connections in a row are a connection.
pub proof fn lemma_connected_trans(b: Board, from: Coord, via: Coord, to: Coord)
    requires
        connected(b, from, via),
        connected(b, via, to),
    ensures
        connected(b, from, to),
{
    let p = choose|p: Seq<Coord>| #[trigger] is_path(b, p) && p[0] == from && p.last() == via;
    let q = choose|q: Seq<Coord>| #[trigger] is_path(b, q) && q[0] == via && q.last() == to;
    let r = p + q.drop_first();
    assert forall|i: int| 0 <= i < r.len() implies open_cell(b, #[trigger] r[i]) by {
        if i < p.len() {
            assert(open_cell(b, p[i]));
        } else {
            assert(open_cell(b, q[i - p.len() + 1]));
        }
    }
    assert forall|i: int| 0 < i < r.len() implies adjacent(r[i - 1], #[trigger] r[i]) by {
        if i < p.len() {
            assert(adjacent(p[i - 1], p[i]));
        } else {
            let k = i - p.len() + 1;
            assert(adjacent(q[k - 1], q[k]));
        }
    }
    assert(is_path(b, r));
    assert(r[0] == from);
    if q.len() == 1 {
        assert(r.last() == to);
    } else {
        assert(r.last() == q[q.len() - 1]);
    }
}

/// A list of distinct cells of the board is no longer than the board.
pub proof fn lemma_distinct_cells_bounded(b: Board, g: Seq<Coord>)
    requires
        b.cells.len() == b.width * b.height,
        g.no_duplicates(),
        forall|i: int| 0 <= i < g.len() ==> b.contains((#[trigger] g[i]).0 as int, g[i].1 as int),
    ensures
        g.len() <= b.cells.len(),
{
    let idx = Seq::new(g.len(), |i: int| b.index(g[i].0 as int, g[i].1 as int));
    let n = b.cells.len() as int;
    assert forall|i: int, j: int| 0 <= i < idx.len() && 0 <= j < idx.len() && i != j implies idx[i]
        != idx[j] by {
        assert(b.contains(g[i].0 as int, g[i].1 as int));
        assert(b.contains(g[j].0 as int, g[j].1 as int));
        if idx[i] == idx[j] {
            b.lemma_index_injective(g[i].0 as int, g[i].1 as int, g[j].0 as int, g[j].1 as int);
        }
    }
    assert(idx.no_duplicates());
    idx.unique_seq_to_set();
    lemma_int_range(0, n);
    assert forall|v: int| idx.to_set().contains(v) implies set_int_range(0, n).contains(v) by {
        let i = choose|i: int| 0 <= i < idx.len() && idx[i] == v;
        assert(b.contains(g[i].0 as int, g[i].1 as int));
        b.lemma_index_in_range(g[i].0 as int, g[i].1 as int);
    }
    lemma_len_subset(idx.to_set(), set_int_range(0, n));
}

/// Every unprocessed neighbour of `c` is listed in `group`.
pub open spec fn closed_at(b: Board, group: Seq<Coord>, c: Coord) -> bool {
    forall|n: Coord| #[trigger] adjacent(c, n) && open_cell(b, n) ==> group.contains(n)
}

/// What holds of the cells found so far, whatever has been expanded.
pub open spec fn found_inv(b: Board, seed: Coord, group: Seq<Coord>, stack: Seq<Coord>) -> bool {
    &&& group.len() > 0
    &&& group[0] == seed
    &&& group.no_duplicates()
    &&& forall|i: int| 0 <= i < group.len() ==> connected(b, seed, #[trigger] group[i])
    &&& forall|j: int| 0 <= j < stack.len() ==> group.contains(#[trigger] stack[j])
}

/// A list that is closed at each of its cells holds everything connected to
/// its cells.
pub proof fn lemma_closed_holds_connected(b: Board, group: Seq<Coord>, p: Seq<Coord>, k: int)
    requires
        forall|i: int| 0 <= i < group.len() ==> closed_at(b, group, #[trigger] group[i]),
        is_path(b, p),
        group.contains(p[0]),
        0 <= k < p.len(),
    ensures
        group.contains(p[k]),
    decreases k,
{
    if k > 0 {
        lemma_closed_holds_connected(b, group, p, k - 1);
        let i = choose|i: int| 0 <= i < group.len() && group[i] == p[k - 1];
        assert(closed_at(b, group, group[i]));
        assert(adjacent(p[k - 1], p[k]));
        assert(open_cell(b, p[k]));
    }
}

/// `a` is the beginning of `b`.
pub open spec fn is_prefix(a: Seq<Coord>, b: Seq<Coord>) -> bool {
    a.len() <= b.len() && forall|i: int| 0 <= i < a.len() ==> a[i] == b[i]
}

/// What a list holds, every list that it begins holds too.
pub proof fn lemma_prefix_contains(a: Seq<Coord>, b: Seq<Coord>, c: Coord)
    requires
        is_prefix(a, b),
        a.contains(c),
    ensures
        b.contains(c),
{
    let i = choose|i: int| 0 <= i < a.len() && a[i] == c;
    assert(b[i] == c);
}

/// What holds while one cell is being expanded: the group and the stack have
/// only grown since the cell was taken, and what was added to the group is
/// waiting on the stack.
pub open spec fn expanding_inv(
    b: Board,
    seed: Coord,
    g0: Seq<Coord>,
    s0: Seq<Coord>,
    group: Seq<Coord>,
    stack: Seq<Coord>,
) -> bool {
    &&& found_inv(b, seed, group, stack)
    &&& is_prefix(g0, group)
    &&& is_prefix(s0, stack)
    &&& group.len() - g0.len() == stack.len() - s0.len()
    &&& forall|i: int| g0.len() <= i < group.len() ==> stack.contains(#[trigger] group[i])
}

/// Looks at one neighbour of the cell being expanded: an unprocessed cell that
/// is not yet listed is added to the group and to the work stack.
fn visit<T: TileStore>(
    map: &T,
    n: Coord,
    group: &mut Vec<Coord>,
    stack: &mut Vec<Coord>,
    Ghost(seed): Ghost<Coord>,
    Ghost(cur): Ghost<Coord>,
    Ghost(g0): Ghost<Seq<Coord>>,
    Ghost(s0): Ghost<Seq<Coord>>,
)
    requires
        map.wf(),
        map@.contains(n.0 as int, n.1 as int),
        adjacent(cur, n),
        connected(map@, seed, cur),
        expanding_inv(map@, seed, g0, s0, old(group)@, old(stack)@),
    ensures
        expanding_inv(map@, seed, g0, s0, final(group)@, final(stack)@),
        is_prefix(old(group)@, final(group)@),
        open_cell(map@, n) ==> final(group)@.contains(n),
{
    if map.get(n.0, n.1) == UNPROCESSED && !contains_cell(group.as_slice(), n) {
        proof {
            lemma_connected_step(map@, seed, cur, n);
        }
        let ghost ga = group@;
        let ghost sa = stack@;
        group.push(n);
        stack.push(n);
        proof {
            let gb = group@;
            let sb = stack@;
            assert(gb[gb.len() - 1] == n);
            assert(sb[sb.len() - 1] == n);
            assert forall|i: int| 0 <= i < gb.len() implies connected(
                map@,
                seed,
                #[trigger] gb[i],
            ) by {
                if i < ga.len() {
                    assert(gb[i] == ga[i]);
                }
            }
            assert forall|j: int| 0 <= j < sb.len() implies gb.contains(#[trigger] sb[j]) by {
                if j < sa.len() {
                    assert(ga.contains(sa[j]));
                    lemma_prefix_contains(ga, gb, sa[j]);
                }
            }
            assert forall|i: int| g0.len() <= i < gb.len() implies sb.contains(
                #[trigger] gb[i],
            ) by {
                if i < ga.len() {
                    assert(sa.contains(ga[i]));
                    lemma_prefix_contains(sa, sb, ga[i]);
                }
            }
        }
    }
}

/// The group of unprocessed cells that holds `(x, y)`: every cell that can be
/// reached from it over unprocessed cells, each listed once, the seed first.
/// No cell outside the grid is read or listed, wherever the seed lies.
pub fn find_group<T: TileStore>(map: &T, x: usize, y: usize) -> (group: Vec<Coord>)
    requires
        map.wf(),
        map@.contains(x as int, y as int),
        map@.tile(x as int, y as int) == UNPROCESSED,
    ensures
        is_group_of(map@, group@, (x, y)),
        group@.len() > 0,
        group@[0] == (x, y),
        forall|i: int| 0 <= i < group@.len() ==> open_cell(map@, #[trigger] group@[i]),
{
    let w = map.width();
    let h = map.height();
    let ghost b = map@;
    let ghost seed: Coord = (x, y);
    let mut group: Vec<Coord> = Vec::new();
    let mut stack: Vec<Coord> = Vec::new();
    group.push((x, y));
    stack.push((x, y));
    proof {
        map.lemma_board_wf();
        lemma_connected_refl(b, seed);
        assert(group@[0] == seed);
        assert(stack@[0] == seed);
        lemma_distinct_cells_bounded(b, group@);
    }
    while stack.len() > 0
        invariant
            map.wf(),
            b == map@,
            b.wf(),
            w == b.width,
            h == b.height,
            found_inv(b, seed, group@, stack@),
            forall|i: int|
                0 <= i < group@.len() ==> stack@.contains(group@[i]) || closed_at(
                    b,
                    group@,
                    #[trigger] group@[i],
                ),
            group@.len() <= b.cells.len(),
        decreases 2 * (b.cells.len() - group@.len()) + stack@.len(),
    {
        let ghost g0 = group@;
        let ghost s0 = stack@;
        let cur = stack.pop().unwrap();
        let cx = cur.0;
        let cy = cur.1;
        let ghost sp = stack@;
        proof {
            assert(s0[s0.len() - 1] == cur);
            assert(g0.contains(cur));
            let i = choose|i: int| 0 <= i < g0.len() && g0[i] == cur;
            assert(connected(b, seed, g0[i]));
            let p = choose|p: Seq<Coord>| #[trigger]
                is_path(b, p) && p[0] == seed && p.last() == cur;
            assert(open_cell(b, p[p.len() - 1]));
            assert forall|j: int| 0 <= j < sp.len() implies g0.contains(#[trigger] sp[j]) by {
                assert(sp[j] == s0[j]);
            }
        }
        if cx > 0 {
            visit(
                map,
                (cx - 1, cy),
                &mut group,
                &mut stack,
                Ghost(seed),
                Ghost(cur),
                Ghost(g0),
                Ghost(sp),
            );
        }
        let ghost g1 = group@;
        if cx + 1 < w {
            visit(
                map,
                (cx + 1, cy),
                &mut group,
                &mut stack,
                Ghost(seed),
                Ghost(cur),
                Ghost(g0),
                Ghost(sp),
            );
        }
        let ghost g2 = group@;
        if cy > 0 {
            visit(
                map,
                (cx, cy - 1),
                &mut group,
                &mut stack,
                Ghost(seed),
                Ghost(cur),
                Ghost(g0),
                Ghost(sp),
            );
        }
        let ghost g3 = group@;
        if cy + 1 < h {
            visit(
                map,
                (cx, cy + 1),
                &mut group,
                &mut stack,
                Ghost(seed),
                Ghost(cur),
                Ghost(g0),
                Ghost(sp),
            );
        }
        proof {
            let g4 = group@;
            let s4 = stack@;
            assert(closed_at(b, g4, cur)) by {
                assert forall|n: Coord| #[trigger] adjacent(cur, n) && open_cell(b, n) implies g4.contains(
                    n,
                ) by {
                    if n.0 + 1 == cx {
                        assert(g1.contains(n));
                        lemma_prefix_contains(g1, g2, n);
                        lemma_prefix_contains(g2, g3, n);
                        lemma_prefix_contains(g3, g4, n);
                    } else if cx + 1 == n.0 {
                        assert(g2.contains(n));
                        lemma_prefix_contains(g2, g3, n);
                        lemma_prefix_contains(g3, g4, n);
                    } else if n.1 + 1 == cy {
                        assert(g3.contains(n));
                        lemma_prefix_contains(g3, g4, n);
                    } else {
                        assert(g4.contains(n));
                    }
                }
            }
            assert forall|i: int| 0 <= i < g4.len() implies s4.contains(g4[i]) || closed_at(
                b,
                g4,
                #[trigger] g4[i],
            ) by {
                let c = g4[i];
                if c == cur {
                } else if i < g0.len() {
                    assert(g0[i] == c);
                    if s0.contains(c) {
                        let j = choose|j: int| 0 <= j < s0.len() && s0[j] == c;
                        assert(sp[j] == c);
                        lemma_prefix_contains(sp, s4, c);
                    } else {
                        assert(closed_at(b, g0, g0[i]));
                        assert forall|n: Coord| #[trigger]
                            adjacent(c, n) && open_cell(b, n) implies g4.contains(n) by {
                            lemma_prefix_contains(g0, g4, n);
                        }
                    }
                }
            }
            lemma_distinct_cells_bounded(b, g4);
        }
    }
    proof {
        assert forall|i: int| 0 <= i < group@.len() implies closed_at(
            b,
            group@,
            #[trigger] group@[i],
        ) by {
            assert(!stack@.contains(group@[i]));
        }
        assert forall|c: Coord| group@.contains(c) <==> connected(b, seed, c) by {
            if group@.contains(c) {
                let i = choose|i: int| 0 <= i < group@.len() && group@[i] == c;
                assert(connected(b, seed, group@[i]));
            }
            if connected(b, seed, c) {
                let p = choose|p: Seq<Coord>| #[trigger]
                    is_path(b, p) && p[0] == seed && p.last() == c;
                assert(group@[0] == seed);
                lemma_closed_holds_connected(b, group@, p, p.len() - 1);
            }
        }
        assert forall|i: int| 0 <= i < group@.len() implies open_cell(b, #[trigger] group@[i]) by {
            assert(connected(b, seed, group@[i]));
            let p = choose|p: Seq<Coord>| #[trigger]
                is_path(b, p) && p[0] == seed && p.last() == group@[i];
            assert(open_cell(b, p[p.len() - 1]));
        }
    }
    group
}

/// The least `x` among `cells`; 0 for the empty list.
pub open spec fn min_x(cells: Seq<Coord>) -> usize
    decreases cells.len(),
{
    if cells.len() == 0 {
        0
    } else if cells.len() == 1 {
        cells[0].0
    } else {
        let m = min_x(cells.drop_last());
        if cells.last().0 < m {
            cells.last().0
        } else {
            m
        }
    }
}

/// The least `y` among `cells`; 0 for the empty list.
pub open spec fn min_y(cells: Seq<Coord>) -> usize
    decreases cells.len(),
{
    if cells.len() == 0 {
        0
    } else if cells.len() == 1 {
        cells[0].1
    } else {
        let m = min_y(cells.drop_last());
        if cells.last().1 < m {
            cells.last().1
        } else {
            m
        }
    }
}

/// Whether `m` occurs as an `x` in `cells` and none is smaller.
pub open spec fn is_least_x(cells: Seq<Coord>, m: usize) -> bool {
    &&& exists|i: int| 0 <= i < cells.len() && (#[trigger] cells[i]).0 == m
    &&& forall|i: int| 0 <= i < cells.len() ==> m <= (#[trigger] cells[i]).0
}

/// Whether `m` occurs as a `y` in `cells` and none is smaller.
pub open spec fn is_least_y(cells: Seq<Coord>, m: usize) -> bool {
    &&& exists|i: int| 0 <= i < cells.len() && (#[trigger] cells[i]).1 == m
    &&& forall|i: int| 0 <= i < cells.len() ==> m <= (#[trigger] cells[i]).1
}

/// `min_x` and `min_y` are the least coordinates of a list that is not empty.
pub proof fn lemma_min_is_least(cells: Seq<Coord>)
    requires
        cells.len() > 0,
    ensures
        is_least_x(cells, min_x(cells)),
        is_least_y(cells, min_y(cells)),
    decreases cells.len(),
{
    if cells.len() == 1 {
        assert(cells[0].0 == min_x(cells));
        assert(cells[0].1 == min_y(cells));
    } else {
        let rest = cells.drop_last();
        lemma_min_is_least(rest);
        let last = cells.len() - 1;
        let ix = choose|i: int| 0 <= i < rest.len() && (#[trigger] rest[i]).0 == min_x(rest);
        let iy = choose|i: int| 0 <= i < rest.len() && (#[trigger] rest[i]).1 == min_y(rest);
        assert(cells[ix] == rest[ix]);
        assert(cells[iy] == rest[iy]);
        assert(cells[last].0 == cells.last().0);
        assert forall|i: int| 0 <= i < cells.len() implies min_x(cells) <= (#[trigger] cells[i]).0
            && min_y(cells) <= cells[i].1 by {
            if i < last {
                assert(cells[i] == rest[i]);
            }
        }
    }
}

/// `cells` moved by `(dx, dy)` towards the origin.
pub open spec fn shifted(cells: Seq<Coord>, dx: usize, dy: usize) -> Seq<Coord> {
    Seq::new(cells.len(), |i: int| ((cells[i].0 - dx) as usize, (cells[i].1 - dy) as usize))
}

/// The canonical form of a list of cells: moved so that its least `x` and
/// its least `y` are 0, then put in lexicographic order. Neither rotated nor
/// mirrored.
pub open spec fn canonical(cells: Seq<Coord>) -> Seq<Coord> {
    sorted(shifted(cells, min_x(cells), min_y(cells)))
}

/// The origin `(min_x, min_y)` of `group` and its canonical form.
pub fn normalize_group(group: &[Coord]) -> (r: (usize, usize, Vec<Coord>))
    requires
        group@.len() > 0,
    ensures
        r.0 == min_x(group@),
        r.1 == min_y(group@),
        r.2@ == canonical(group@),
{
    let mut mx: usize = group[0].0;
    let mut my: usize = group[0].1;
    let mut i: usize = 1;
    assert(group@.take(1) =~= seq![group@[0]]);
    while i < group.len()
        invariant
            1 <= i <= group.len(),
            mx == min_x(group@.take(i as int)),
            my == min_y(group@.take(i as int)),
        decreases group.len() - i,
    {
        let c = group[i];
        proof {
            let next = group@.take(i + 1);
            assert(next.drop_last() =~= group@.take(i as int));
            assert(next.last() == c);
        }
        if c.0 < mx {
            mx = c.0;
        }
        if c.1 < my {
            my = c.1;
        }
        i = i + 1;
    }
    proof {
        assert(group@.take(group@.len() as int) =~= group@);
        lemma_min_is_least(group@);
    }
    let mut moved: Vec<Coord> = Vec::new();
    let mut k: usize = 0;
    while k < group.len()
        invariant
            k <= group.len(),
            is_least_x(group@, mx),
            is_least_y(group@, my),
            moved@.len() == k,
            forall|j: int| 0 <= j < k ==> moved@[j] == shifted(group@, mx, my)[j],
        decreases group.len() - k,
    {
        let c = group[k];
        moved.push((c.0 - mx, c.1 - my));
        k = k + 1;
    }
    assert(moved@ =~= shifted(group@, mx, my));
    let out = sort_cells(moved.as_slice());
    (mx, my, out)
}

/// Two lists that hold the same cells, each once, hold them equally often.
pub proof fn lemma_same_cells_same_multiset(a: Seq<Coord>, b: Seq<Coord>)
    requires
        a.no_duplicates(),
        b.no_duplicates(),
        forall|c: Coord| a.contains(c) <==> b.contains(c),
    ensures
        a.to_multiset() == b.to_multiset(),
{
    broadcast use vstd::seq_lib::group_to_multiset_ensures;

    a.lemma_multiset_has_no_duplicates();
    b.lemma_multiset_has_no_duplicates();
    assert forall|c: Coord| a.to_multiset().count(c) == b.to_multiset().count(c) by {
        assert(a.contains(c) <==> a.to_multiset().count(c) > 0);
        assert(b.contains(c) <==> b.to_multiset().count(c) > 0);
        if a.contains(c) {
            assert(a.to_multiset().contains(c));
            assert(b.to_multiset().contains(c));
        }
    }
    assert(a.to_multiset() =~= b.to_multiset());
}

/// The least coordinates and the canonical form of a list depend only on
/// which cells it holds, not on their order.
pub proof fn lemma_canonical_of_same_cells(a: Seq<Coord>, b: Seq<Coord>)
    requires
        a.len() > 0,
        a.no_duplicates(),
        b.no_duplicates(),
        forall|c: Coord| a.contains(c) <==> b.contains(c),
    ensures
        min_x(a) == min_x(b),
        min_y(a) == min_y(b),
        canonical(a) == canonical(b),
{
    assert(b.contains(a[0]));
    lemma_min_is_least(a);
    lemma_min_is_least(b);
    let ax = choose|i: int| 0 <= i < a.len() && (#[trigger] a[i]).0 == min_x(a);
    let bx = choose|i: int| 0 <= i < b.len() && (#[trigger] b[i]).0 == min_x(b);
    let ay = choose|i: int| 0 <= i < a.len() && (#[trigger] a[i]).1 == min_y(a);
    let by = choose|i: int| 0 <= i < b.len() && (#[trigger] b[i]).1 == min_y(b);
    assert(b.contains(a[ax]) && b.contains(a[ay]));
    assert(a.contains(b[bx]) && a.contains(b[by]));
    let dx = min_x(a);
    let dy = min_y(a);
    let ta = shifted(a, dx, dy);
    let tb = shifted(b, dx, dy);
    assert forall|i: int, j: int| 0 <= i < ta.len() && 0 <= j < ta.len() && i != j implies ta[i]
        != ta[j] by {
        assert(dx <= a[i].0 && dx <= a[j].0 && dy <= a[i].1 && dy <= a[j].1);
    }
    assert forall|i: int, j: int| 0 <= i < tb.len() && 0 <= j < tb.len() && i != j implies tb[i]
        != tb[j] by {
        assert(dx <= b[i].0 && dx <= b[j].0 && dy <= b[i].1 && dy <= b[j].1);
    }
    assert forall|c: Coord| ta.contains(c) <==> tb.contains(c) by {
        if ta.contains(c) {
            let i = choose|i: int| 0 <= i < ta.len() && ta[i] == c;
            assert(b.contains(a[i]));
            let j = choose|j: int| 0 <= j < b.len() && b[j] == a[i];
            assert(tb[j] == c);
        }
        if tb.contains(c) {
            let i = choose|i: int| 0 <= i < tb.len() && tb[i] == c;
            assert(a.contains(b[i]));
            let j = choose|j: int| 0 <= j < a.len() && a[j] == b[i];
            assert(ta[j] == c);
        }
    }
    lemma_same_cells_same_multiset(ta, tb);
    crate::cells::lemma_lex_total();
    ta.lemma_sort_by_ensures(crate::cells::lex_order());
    tb.lemma_sort_by_ensures(crate::cells::lex_order());
    vstd::seq_lib::lemma_sorted_unique(sorted(ta), sorted(tb), crate::cells::lex_order());
}

/// The canonical form of a group does not depend on the seed: flood fills
/// from two cells of one group have the same origin and the same canonical
/// form.
pub proof fn lemma_canonical_seed_independent(
    b: Board,
    seed1: Coord,
    seed2: Coord,
    g1: Seq<Coord>,
    g2: Seq<Coord>,
)
    requires
        is_group_of(b, g1, seed1),
        is_group_of(b, g2, seed2),
        connected(b, seed1, seed2),
    ensures
        min_x(g1) == min_x(g2),
        min_y(g1) == min_y(g2),
        canonical(g1) == canonical(g2),
{
    lemma_connected_sym(b, seed1, seed2);
    assert forall|c: Coord| g1.contains(c) <==> g2.contains(c) by {
        if g1.contains(c) {
            assert(connected(b, seed1, c));
            lemma_connected_trans(b, seed2, seed1, c);
        }
        if g2.contains(c) {
            assert(connected(b, seed2, c));
            lemma_connected_trans(b, seed1, seed2, c);
        }
    }
    assert(g1.contains(seed2));
    lemma_canonical_of_same_cells(g1, g2);
}

} // verus!
