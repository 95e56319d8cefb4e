//! Facts about groups as sets of cells: every unprocessed cell has a group,
//! a group is closed under stepping to unprocessed neighbours, and the
//! canonical form of a group, put back at its origin, is the group.

use vstd::prelude::*;
use crate::cells::{lemma_lex_total, lex_order, Coord};
use crate::engine::in_shape;
use crate::flood::{
    adjacent, canonical, connected, is_group_of, lemma_connected_step, lemma_min_is_least, min_x,
    min_y, open_cell, shifted,
};
use crate::grid::Board;

verus! {

/// The cells `(x, y)` with `x < n`.
pub open spec fn row_set(y: usize, n: nat) -> Set<Coord> {
    Set::new(|c: Coord| c.1 == y && c.0 < n)
}

/// The cells of a grid of the given width with `y < rows`.
pub open spec fn rows_set(width: nat, rows: nat) -> Set<Coord> {
    Set::new(|c: Coord| c.0 < width && c.1 < rows)
}

/// A row has finitely many cells.
pub proof fn lemma_row_finite(y: usize, n: nat)
    requires
        n <= usize::MAX,
    ensures
        row_set(y, n).finite(),
    decreases n,
{
    if n == 0 {
        assert(row_set(y, n) =~= Set::<Coord>::empty());
    } else {
        lemma_row_finite(y, (n - 1) as nat);
        assert(row_set(y, n) =~= row_set(y, (n - 1) as nat).insert(((n - 1) as usize, y)));
    }
}

/// A grid has finitely many cells.
pub proof fn lemma_rows_finite(width: nat, rows: nat)
    requires
        width <= usize::MAX,
        rows <= usize::MAX,
    ensures
        rows_set(width, rows).finite(),
    decreases rows,
{
    if rows == 0 {
        assert(rows_set(width, rows) =~= Set::<Coord>::empty());
    } else {
        lemma_rows_finite(width, (rows - 1) as nat);
        lemma_row_finite((rows - 1) as usize, width);
        assert(rows_set(width, rows) =~= rows_set(width, (rows - 1) as nat).union(
            row_set((rows - 1) as usize, width),
        ));
    }
}

/// A finite set, listed, gives a list that holds each of its elements once
/// and nothing else.
pub proof fn lemma_to_seq(s: Set<Coord>)
    requires
        s.finite(),
    ensures
        s.to_seq().no_duplicates(),
        forall|c: Coord| s.to_seq().contains(c) <==> s.contains(c),
    decreases s.len(),
{
    broadcast use vstd::set::group_set_axioms;

    if s.len() == 0 {
        assert(s.to_seq() =~= Seq::<Coord>::empty());
        assert forall|c: Coord| s.contains(c) implies false by {
            assert(s =~= Set::<Coord>::empty());
        }
    } else {
        let x = s.choose();
        let rest = s.remove(x);
        lemma_to_seq(rest);
        let list = s.to_seq();
        let tail = rest.to_seq();
        assert(list =~= seq![x] + tail);
        assert forall|i: int, j: int| 0 <= i < list.len() && 0 <= j < list.len() && i
            != j implies list[i] != list[j] by {
            if i > 0 {
                assert(tail.contains(tail[i - 1]));
            }
            if j > 0 {
                assert(tail.contains(tail[j - 1]));
            }
        }
        assert forall|c: Coord| list.contains(c) <==> s.contains(c) by {
            if list.contains(c) {
                let i = choose|i: int| 0 <= i < list.len() && list[i] == c;
                if i > 0 {
                    assert(tail.contains(tail[i - 1]));
                }
            }
            if s.contains(c) {
                if c == x {
                    assert(list[0] == c);
                } else {
                    assert(rest.contains(c));
                    let i = choose|i: int| 0 <= i < tail.len() && tail[i] == c;
                    assert(list[i + 1] == c);
                }
            }
        }
    }
}

/// Every unprocessed cell has a group: a list that holds, each once, the
/// cells that can be reached from it.
pub proof fn lemma_group_exists(b: Board, seed: Coord)
    requires
        b.wf(),
    ensures
        exists|g: Seq<Coord>| is_group_of(b, g, seed),
{
    let all = rows_set(b.width, b.height);
    lemma_rows_finite(b.width, b.height);
    let part = Set::new(|c: Coord| connected(b, seed, c));
    assert(part.subset_of(all)) by {
        assert forall|c: Coord| part.contains(c) implies all.contains(c) by {
            let p = choose|p: Seq<Coord>| #[trigger]
                crate::flood::is_path(b, p) && p[0] == seed && p.last() == c;
            assert(open_cell(b, p[p.len() - 1]));
        }
    }
    vstd::set_lib::lemma_len_subset(part, all);
    lemma_to_seq(part);
    let g = part.to_seq();
    assert forall|c: Coord| g.contains(c) <==> connected(b, seed, c) by {
        assert(part.contains(c) <==> connected(b, seed, c));
    }
    assert(is_group_of(b, g, seed));
}

/// A group is closed: an unprocessed cell beside a cell of the group is a
/// cell of the group.
pub proof fn lemma_group_closed(b: Board, g: Seq<Coord>, seed: Coord, c: Coord, n: Coord)
    requires
        is_group_of(b, g, seed),
        g.contains(c),
        adjacent(c, n),
        open_cell(b, n),
    ensures
        g.contains(n),
{
    lemma_connected_step(b, seed, c, n);
}

/// The cells of the canonical form of `g`, put back at the origin of `g`,
/// are the cells of `g`.
pub proof fn lemma_canonical_placed(g: Seq<Coord>, x: int, y: int)
    requires
        g.len() > 0,
        forall|i: int|
            0 <= i < g.len() ==> (#[trigger] g[i]).0 < usize::MAX && g[i].1 < usize::MAX,
    ensures
        in_shape(canonical(g), (min_x(g), min_y(g)), x, y) <==> (0 <= x <= usize::MAX && 0 <= y
            <= usize::MAX && g.contains((x as usize, y as usize))),
{
    broadcast use vstd::seq_lib::group_to_multiset_ensures;

    let mx = min_x(g);
    let my = min_y(g);
    let moved = shifted(g, mx, my);
    let canon = canonical(g);
    lemma_min_is_least(g);
    lemma_lex_total();
    moved.lemma_sort_by_ensures(lex_order());
    assert forall|c: Coord| canon.contains(c) <==> moved.contains(c) by {
        assert(canon.to_multiset().count(c) == moved.to_multiset().count(c));
    }
    if in_shape(canon, (mx, my), x, y) {
        let i = choose|i: int|
            0 <= i < canon.len() && (#[trigger] canon[i]).0 + mx == x && canon[i].1 + my == y;
        assert(canon.contains(canon[i]));
        let j = choose|j: int| 0 <= j < moved.len() && moved[j] == canon[i];
        assert(mx <= g[j].0 && my <= g[j].1);
        assert(g[j] == (x as usize, y as usize));
    }
    if 0 <= x <= usize::MAX && 0 <= y <= usize::MAX && g.contains((x as usize, y as usize)) {
        let j = choose|j: int| 0 <= j < g.len() && g[j] == (x as usize, y as usize);
        assert(mx <= g[j].0 && my <= g[j].1);
        assert(moved.contains(moved[j]));
        let i = choose|i: int| 0 <= i < canon.len() && canon[i] == moved[j];
        assert(canon[i].0 + mx == x && canon[i].1 + my == y);
    }
}

} // verus!
