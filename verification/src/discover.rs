//! Shape discovery: the canonical forms of all groups of a grid, as a list
//! in a fixed order, each form once.
//!
//! Rows can be scanned by several workers, each with a list of its own: the
//! merged list is the same however the rows are divided.

use std::collections::HashSet;
use vstd::prelude::*;
use crate::cache::{fits_key, group_of, lemma_pack_injective, pack};
use crate::cells::{cells_equal, coord_le, copy_cells, lex_le, Coord};
use crate::flood::{
    canonical, connected, find_group, is_group_of, lemma_canonical_of_same_cells,
    lemma_connected_sym, lemma_connected_trans, normalize_group, open_cell,
};
use crate::grid::{Board, TileStore};
use crate::tile::UNPROCESSED;

verus! {

broadcast use vstd::std_specs::hash::group_hash_axioms;

/// The order of the list of shapes: by the first cell in which two lists of
/// cells differ, and a list before every list that it begins.
pub open spec fn cells_lt(a: Seq<Coord>, b: Seq<Coord>) -> bool
    decreases a.len(),
{
    if b.len() == 0 {
        false
    } else if a.len() == 0 {
        true
    } else if a[0] == b[0] {
        cells_lt(a.drop_first(), b.drop_first())
    } else {
        lex_le(a[0], b[0])
    }
}

/// No list comes before itself.
pub proof fn lemma_lt_irreflexive(a: Seq<Coord>)
    ensures
        !cells_lt(a, a),
    decreases a.len(),
{
    if a.len() > 0 {
        lemma_lt_irreflexive(a.drop_first());
    }
}

/// What comes before a list comes before what comes after it.
pub proof fn lemma_lt_transitive(a: Seq<Coord>, b: Seq<Coord>, c: Seq<Coord>)
    requires
        cells_lt(a, b),
        cells_lt(b, c),
    ensures
        cells_lt(a, c),
    decreases a.len(),
{
    if a.len() > 0 && a[0] == b[0] && b[0] == c[0] {
        lemma_lt_transitive(a.drop_first(), b.drop_first(), c.drop_first());
    }
}

/// Of two different lists one comes before the other.
pub proof fn lemma_lt_total(a: Seq<Coord>, b: Seq<Coord>)
    ensures
        a == b || cells_lt(a, b) || cells_lt(b, a),
    decreases a.len(),
{
    if a.len() > 0 && b.len() > 0 && a[0] == b[0] {
        lemma_lt_total(a.drop_first(), b.drop_first());
        if a.drop_first() == b.drop_first() {
            assert(a =~= seq![a[0]] + a.drop_first());
            assert(b =~= seq![b[0]] + b.drop_first());
        }
    } else if a.len() == 0 && b.len() == 0 {
        assert(a =~= b);
    }
}

/// Whether `a` comes before `b` in the order of the list of shapes.
pub fn cells_before(a: &[Coord], b: &[Coord]) -> (r: bool)
    ensures
        r == cells_lt(a@, b@),
{
    let mut i: usize = 0;
    assert(a@.skip(0) =~= a@);
    assert(b@.skip(0) =~= b@);
    loop
        invariant
            i <= a.len(),
            i <= b.len(),
            cells_lt(a@, b@) == cells_lt(a@.skip(i as int), b@.skip(i as int)),
        decreases a.len() - i,
    {
        if i >= b.len() {
            return false;
        }
        if i >= a.len() {
            return true;
        }
        let p = a[i];
        let q = b[i];
        assert(a@.skip(i as int)[0] == p);
        assert(b@.skip(i as int)[0] == q);
        if p.0 != q.0 || p.1 != q.1 {
            return coord_le(p, q);
        }
        assert(a@.skip(i as int).drop_first() =~= a@.skip(i + 1));
        assert(b@.skip(i as int).drop_first() =~= b@.skip(i + 1));
        i = i + 1;
    }
}

/// The contents of a list of shapes.
pub open spec fn groups_view(v: Seq<Vec<Coord>>) -> Seq<Seq<Coord>> {
    Seq::new(v.len(), |i: int| v[i]@)
}

/// Whether the list is in order, which leaves no room for repetitions.
pub open spec fn in_order(list: Seq<Seq<Coord>>) -> bool {
    forall|i: int, j: int| 0 <= i < j < list.len() ==> cells_lt(#[trigger] list[i], #[trigger] list[j])
}

/// Puts `shape` in its place in the list, unless the list holds it; says
/// whether the shape is new to the list.
pub fn insert_shape(found: &mut Vec<Vec<Coord>>, shape: Vec<Coord>) -> (added: bool)
    requires
        in_order(groups_view(old(found)@)),
    ensures
        in_order(groups_view(final(found)@)),
        forall|s: Seq<Coord>| #[trigger]
            groups_view(final(found)@).contains(s) <==> groups_view(old(found)@).contains(s) || s
                == shape@,
        added == !groups_view(old(found)@).contains(shape@),
{
    let ghost before = groups_view(found@);
    let mut p: usize = 0;
    while p < found.len() && cells_before(found[p].as_slice(), shape.as_slice())
        invariant
            p <= found@.len(),
            before == groups_view(found@),
            forall|i: int| 0 <= i < p ==> cells_lt(#[trigger] before[i], shape@),
        decreases found.len() - p,
    {
        assert(before[p as int] == found@[p as int]@);
        p = p + 1;
    }
    if p < found.len() && cells_equal(found[p].as_slice(), shape.as_slice()) {
        proof {
            assert(before[p as int] == shape@);
            assert forall|s: Seq<Coord>| before.contains(s) <==> before.contains(s) || s
                == shape@ by {}
        }
        return false;
    }
    let ghost added = shape@;
    found.insert(p, shape);
    proof {
        let after = groups_view(found@);
        assert(after =~= before.insert(p as int, added));
        if p < before.len() {
            assert(before[p as int] == old(found)@[p as int]@);
            lemma_lt_total(before[p as int], added);
        }
        if before.contains(added) {
            let k = choose|k: int| 0 <= k < before.len() && before[k] == added;
            lemma_lt_irreflexive(added);
            if k < p {
                assert(cells_lt(before[k], added));
            } else if k > p {
                assert(cells_lt(before[p as int], before[k]));
            }
        }
        assert forall|i: int, j: int| 0 <= i < j < after.len() implies cells_lt(
            #[trigger] after[i],
            #[trigger] after[j],
        ) by {
            if j < p {
                assert(cells_lt(before[i], before[j]));
            } else if j == p {
                assert(cells_lt(before[i], added));
            } else if i == p {
                if p as int != j - 1 {
                    assert(cells_lt(before[p as int], before[j - 1]));
                    lemma_lt_transitive(added, before[p as int], before[j - 1]);
                }
            } else if i < p {
                assert(cells_lt(before[i], before[j - 1]));
            } else {
                assert(cells_lt(before[i - 1], before[j - 1]));
            }
        }
        assert forall|s: Seq<Coord>| after.contains(s) <==> before.contains(s) || s == added by {
            if after.contains(s) {
                let k = choose|k: int| 0 <= k < after.len() && after[k] == s;
                if k < p {
                    assert(before[k] == s);
                } else if k > p {
                    assert(before[k - 1] == s);
                }
            }
            if before.contains(s) {
                let k = choose|k: int| 0 <= k < before.len() && before[k] == s;
                if k < p {
                    assert(after[k] == s);
                } else {
                    assert(after[k + 1] == s);
                }
            }
            if s == added {
                assert(after[p as int] == s);
            }
        }
    }
    true
}

/// Puts every shape of `from` in its place in `into`.
pub fn merge_shapes(into: &mut Vec<Vec<Coord>>, from: &Vec<Vec<Coord>>)
    requires
        in_order(groups_view(old(into)@)),
    ensures
        in_order(groups_view(final(into)@)),
        forall|s: Seq<Coord>|
            groups_view(final(into)@).contains(s) <==> groups_view(old(into)@).contains(s)
                || groups_view(from@).contains(s),
{
    let ghost start = groups_view(into@);
    let ghost source = groups_view(from@);
    let mut i: usize = 0;
    while i < from.len()
        invariant
            i <= from@.len(),
            source == groups_view(from@),
            start == groups_view(old(into)@),
            in_order(groups_view(into@)),
            forall|s: Seq<Coord>| #[trigger]
                groups_view(into@).contains(s) <==> start.contains(s) || source.take(
                    i as int,
                ).contains(s),
        decreases from.len() - i,
    {
        let ghost had = groups_view(into@);
        let _ = insert_shape(into, copy_cells(from[i].as_slice()));
        proof {
            let seen = source.take(i as int);
            let seen2 = source.take(i + 1);
            assert(seen2 =~= seen.push(source[i as int]));
            assert(source[i as int] == from@[i as int]@);
            assert forall|s: Seq<Coord>|
                groups_view(into@).contains(s) <==> start.contains(s) || seen2.contains(s) by {
                assert(groups_view(into@).contains(s) <==> had.contains(s) || s
                    == source[i as int]);
                assert(had.contains(s) <==> start.contains(s) || seen.contains(s));
                if seen.contains(s) {
                    let k = choose|k: int| 0 <= k < seen.len() && seen[k] == s;
                    assert(seen2[k] == s);
                }
                if seen2.contains(s) {
                    let k = choose|k: int| 0 <= k < seen2.len() && seen2[k] == s;
                    if k < i {
                        assert(seen[k] == s);
                    }
                }
                assert(seen2[i as int] == source[i as int]);
            }
        }
        i = i + 1;
    }
    assert(source.take(source.len() as int) =~= source);
}

/// The cells that a scan has been through.
pub struct Visited {
    set: HashSet<u64>,
}

impl View for Visited {
    type V = Set<Coord>;

    closed spec fn view(&self) -> Set<Coord> {
        Set::new(|c: Coord| fits_key(c) && self.set@.contains(pack(c)))
    }
}

impl Visited {
    /// No cell.
    pub fn new() -> (r: Visited)
        ensures
            r@ == Set::<Coord>::empty(),
    {
        let r = Visited { set: HashSet::new() };
        assert(r@ =~= Set::<Coord>::empty());
        r
    }

    /// Whether the scan has been through `c`.
    pub fn contains(&self, c: Coord) -> (r: bool)
        ensures
            r == self@.contains(c),
    {
        if c.0 > 0xffff_ffff || c.1 > 0xffff_ffff {
            return false;
        }
        let k: u64 = (c.0 as u64) * 0x1_0000_0000u64 + (c.1 as u64);
        self.set.contains(&k)
    }

    /// Marks `c`.
    pub fn insert(&mut self, c: Coord)
        requires
            fits_key(c),
        ensures
            final(self)@ == old(self)@.insert(c),
    {
        let k: u64 = (c.0 as u64) * 0x1_0000_0000u64 + (c.1 as u64);
        let ghost before = self@;
        self.set.insert(k);
        proof {
            assert forall|d: Coord| self@.contains(d) <==> before.insert(c).contains(d) by {
                if fits_key(d) && pack(d) == k {
                    lemma_pack_injective(d, c);
                }
            }
            assert(self@ =~= before.insert(c));
        }
    }
}

/// The canonical form of the group that holds `c`.
pub open spec fn shape_at(b: Board, c: Coord) -> Seq<Coord> {
    canonical(group_of(b, c))
}

/// Whether the list holds the shape of every visited cell.
pub open spec fn covers(b: Board, list: Seq<Seq<Coord>>, visited: Set<Coord>) -> bool {
    forall|c: Coord| #[trigger] visited.contains(c) ==> open_cell(b, c) && list.contains(shape_at(b, c))
}

/// Every cell of a group has that group, in its canonical form, as its
/// shape.
pub proof fn lemma_shape_of_member(b: Board, g: Seq<Coord>, seed: Coord, c: Coord)
    requires
        is_group_of(b, g, seed),
        g.contains(c),
    ensures
        is_group_of(b, g, c),
        shape_at(b, c) == canonical(g),
{
    assert(connected(b, seed, c));
    lemma_connected_sym(b, seed, c);
    assert forall|d: Coord| g.contains(d) <==> connected(b, c, d) by {
        if g.contains(d) {
            assert(connected(b, seed, d));
            lemma_connected_trans(b, c, seed, d);
        }
        if connected(b, c, d) {
            lemma_connected_trans(b, seed, c, d);
        }
    }
    let h = group_of(b, c);
    assert(is_group_of(b, h, c));
    lemma_canonical_of_same_cells(g, h);
}

/// Marks every cell of `group`.
fn mark_all(visited: &mut Visited, group: &Vec<Coord>)
    requires
        forall|i: int| 0 <= i < group@.len() ==> fits_key(#[trigger] group@[i]),
    ensures
        forall|c: Coord| #[trigger]
            final(visited)@.contains(c) <==> old(visited)@.contains(c) || group@.contains(c),
{
    let mut i: usize = 0;
    while i < group.len()
        invariant
            i <= group@.len(),
            forall|j: int| 0 <= j < group@.len() ==> fits_key(#[trigger] group@[j]),
            forall|c: Coord| #[trigger]
                visited@.contains(c) <==> old(visited)@.contains(c) || group@.take(
                    i as int,
                ).contains(c),
        decreases group.len() - i,
    {
        let ghost had = visited@;
        visited.insert(group[i]);
        proof {
            let seen = group@.take(i as int);
            let seen2 = group@.take(i + 1);
            assert(seen2 =~= seen.push(group@[i as int]));
            assert forall|c: Coord| #[trigger]
                visited@.contains(c) <==> old(visited)@.contains(c) || seen2.contains(c) by {
                assert(had.contains(c) <==> old(visited)@.contains(c) || seen.contains(c));
                if seen.contains(c) {
                    let k = choose|k: int| 0 <= k < seen.len() && seen[k] == c;
                    assert(seen2[k] == c);
                }
                if seen2.contains(c) {
                    let k = choose|k: int| 0 <= k < seen2.len() && seen2[k] == c;
                    if k < i {
                        assert(seen[k] == c);
                    }
                }
                assert(seen2[i as int] == group@[i as int]);
            }
        }
        i = i + 1;
    }
    assert(group@.take(group@.len() as int) =~= group@);
}

/// Looks at the cell `(x, y)`: the shape of an unprocessed cell is put in
/// its place in the list. A cell that the scan has been through is not
/// looked at again; the cells of every group that is found are marked. Says
/// whether the shape is new to the list.
pub fn discover_cell<T: TileStore>(
    map: &T,
    x: usize,
    y: usize,
    visited: &mut Visited,
    found: &mut Vec<Vec<Coord>>,
) -> (added: bool)
    requires
        map.wf(),
        map@.contains(x as int, y as int),
        in_order(groups_view(old(found)@)),
        covers(map@, groups_view(old(found)@), old(visited)@),
    ensures
        in_order(groups_view(final(found)@)),
        covers(map@, groups_view(final(found)@), final(visited)@),
        old(visited)@.subset_of(final(visited)@),
        open_cell(map@, (x, y)) ==> final(visited)@.contains((x, y)),
        forall|s: Seq<Coord>| #[trigger]
            groups_view(final(found)@).contains(s) <==> groups_view(old(found)@).contains(s) || (
            open_cell(map@, (x, y)) && s == shape_at(map@, (x, y))),
        added == (open_cell(map@, (x, y)) && !groups_view(old(found)@).contains(
            shape_at(map@, (x, y)),
        )),
{
    let ghost b = map@;
    let ghost had = groups_view(found@);
    let ghost marked = visited@;
    let ghost here: Coord = (x, y);
    proof {
        map.lemma_board_wf();
    }
    if map.get(x, y) != UNPROCESSED {
        return false;
    }
    if visited.contains((x, y)) {
        assert(had.contains(shape_at(b, here)));
        return false;
    }
    let group = find_group(map, x, y);
    let (_, _, normalized_group) = normalize_group(group.as_slice());
    proof {
        assert(group@.contains(group@[0]));
        lemma_shape_of_member(b, group@, here, here);
        assert forall|i: int| 0 <= i < group@.len() implies fits_key(#[trigger] group@[i]) by {
            assert(open_cell(b, group@[i]));
        }
    }
    mark_all(visited, &group);
    let added = insert_shape(found, normalized_group);
    proof {
        let now = groups_view(found@);
        assert forall|c: Coord| #[trigger] visited@.contains(c) implies open_cell(b, c)
            && now.contains(shape_at(b, c)) by {
            if marked.contains(c) {
                assert(had.contains(shape_at(b, c)));
            } else {
                assert(group@.contains(c));
                let i = choose|i: int| 0 <= i < group@.len() && group@[i] == c;
                assert(open_cell(b, group@[i]));
                lemma_shape_of_member(b, group@, here, c);
            }
        }
        assert forall|c: Coord| marked.contains(c) implies visited@.contains(c) by {}
    }
    added
}

/// Scans row `y`: every cell of the row is looked at, from left to right.
pub fn discover_row<T: TileStore>(
    map: &T,
    y: usize,
    visited: &mut Visited,
    found: &mut Vec<Vec<Coord>>,
)
    requires
        map.wf(),
        y < map@.height,
        in_order(groups_view(old(found)@)),
        covers(map@, groups_view(old(found)@), old(visited)@),
    ensures
        in_order(groups_view(final(found)@)),
        covers(map@, groups_view(final(found)@), final(visited)@),
        old(visited)@.subset_of(final(visited)@),
        forall|x: usize| #[trigger] open_cell(map@, (x, y)) ==> final(visited)@.contains((x, y)),
        forall|s: Seq<Coord>|
            groups_view(final(found)@).contains(s) <==> groups_view(old(found)@).contains(s)
                || exists|x: usize| open_cell(map@, (x, y)) && s == #[trigger] shape_at(map@, (x, y)),
{
    let ghost b = map@;
    let ghost start = groups_view(found@);
    let w = map.width();
    let mut x: usize = 0;
    while x < w
        invariant
            x <= w,
            w == b.width,
            y < b.height,
            map.wf(),
            b == map@,
            start == groups_view(old(found)@),
            in_order(groups_view(found@)),
            covers(b, groups_view(found@), visited@),
            old(visited)@.subset_of(visited@),
            forall|q: usize| q < x && #[trigger] open_cell(b, (q, y)) ==> visited@.contains((q, y)),
            forall|s: Seq<Coord>|
                groups_view(found@).contains(s) <==> start.contains(s) || exists|q: usize|
                    q < x && open_cell(b, (q, y)) && s == #[trigger] shape_at(b, (q, y)),
        decreases w - x,
    {
        let ghost had = groups_view(found@);
        let ghost marked = visited@;
        let ghost here: Coord = (x, y);
        let _ = discover_cell(map, x, y, visited, found);
        proof {
            let now = groups_view(found@);
            assert forall|c: Coord| old(visited)@.contains(c) implies visited@.contains(c) by {
                assert(marked.contains(c));
            }
            assert forall|q: usize| q < x + 1 && #[trigger] open_cell(b, (q, y)) implies visited@.contains(
                (q, y),
            ) by {
                if q < x {
                    assert(marked.contains((q, y)));
                }
            }
            assert forall|s: Seq<Coord>|
                now.contains(s) <==> start.contains(s) || exists|q: usize|
                    q < x + 1 && open_cell(b, (q, y)) && s == #[trigger] shape_at(b, (q, y)) by {
                assert(now.contains(s) <==> had.contains(s) || (open_cell(b, here) && s
                    == shape_at(b, here)));
                if now.contains(s) && !start.contains(s) {
                    if had.contains(s) {
                        let q = choose|q: usize|
                            q < x && open_cell(b, (q, y)) && s == #[trigger] shape_at(b, (q, y));
                        assert(q < x + 1);
                    } else {
                        assert(s == shape_at(b, (x, y)));
                    }
                }
                if exists|q: usize|
                    q < x + 1 && open_cell(b, (q, y)) && s == #[trigger] shape_at(b, (q, y)) {
                    let q = choose|q: usize|
                        q < x + 1 && open_cell(b, (q, y)) && s == #[trigger] shape_at(b, (q, y));
                    if q < x {
                        assert(had.contains(s));
                    } else {
                        assert(q == x);
                    }
                }
            }
        }
        x = x + 1;
    }
    proof {
        map.lemma_board_wf();
        assert forall|s: Seq<Coord>|
            groups_view(found@).contains(s) <==> start.contains(s) || exists|q: usize|
                open_cell(b, (q, y)) && s == #[trigger] shape_at(b, (q, y)) by {
            if exists|q: usize| open_cell(b, (q, y)) && s == #[trigger] shape_at(b, (q, y)) {
                let q = choose|q: usize| open_cell(b, (q, y)) && s == #[trigger] shape_at(b, (q, y));
                assert(q < w);
            }
        }
    }
}

/// The shapes of a grid: the canonical forms of its groups, in order, each
/// once.
pub fn discover_shapes<T: TileStore>(map: &T) -> (found: Vec<Vec<Coord>>)
    requires
        map.wf(),
    ensures
        in_order(groups_view(found@)),
        forall|s: Seq<Coord>|
            groups_view(found@).contains(s) <==> exists|c: Coord|
                open_cell(map@, c) && s == #[trigger] shape_at(map@, c),
{
    let ghost b = map@;
    let h = map.height();
    let mut visited = Visited::new();
    let mut found: Vec<Vec<Coord>> = Vec::new();
    let mut y: usize = 0;
    assert(groups_view(found@) =~= Seq::<Seq<Coord>>::empty());
    while y < h
        invariant
            y <= h,
            h == b.height,
            map.wf(),
            b == map@,
            in_order(groups_view(found@)),
            covers(b, groups_view(found@), visited@),
            forall|s: Seq<Coord>|
                groups_view(found@).contains(s) <==> exists|c: Coord|
                    c.1 < y && open_cell(b, c) && s == #[trigger] shape_at(b, c),
        decreases h - y,
    {
        let ghost had = groups_view(found@);
        discover_row(map, y, &mut visited, &mut found);
        proof {
            let now = groups_view(found@);
            assert forall|s: Seq<Coord>|
                now.contains(s) <==> exists|c: Coord|
                    c.1 < y + 1 && open_cell(b, c) && s == #[trigger] shape_at(b, c) by {
                if now.contains(s) {
                    if had.contains(s) {
                        let c = choose|c: Coord|
                            c.1 < y && open_cell(b, c) && s == #[trigger] shape_at(b, c);
                        assert(c.1 < y + 1);
                    } else {
                        let x = choose|x: usize|
                            open_cell(b, (x, y)) && s == #[trigger] shape_at(b, (x, y));
                        let c: Coord = (x, y);
                        assert(c.1 < y + 1 && open_cell(b, c) && s == shape_at(b, c));
                    }
                }
                if exists|c: Coord|
                    c.1 < y + 1 && open_cell(b, c) && s == #[trigger] shape_at(b, c) {
                    let c = choose|c: Coord|
                        c.1 < y + 1 && open_cell(b, c) && s == #[trigger] shape_at(b, c);
                    if c.1 < y {
                        assert(had.contains(s));
                    } else {
                        assert(c == (c.0, y));
                        assert(open_cell(b, (c.0, y)) && s == shape_at(b, (c.0, y)));
                    }
                }
            }
        }
        y = y + 1;
    }
    proof {
        assert forall|s: Seq<Coord>|
            groups_view(found@).contains(s) <==> exists|c: Coord|
                open_cell(b, c) && s == #[trigger] shape_at(b, c) by {
            if exists|c: Coord| open_cell(b, c) && s == #[trigger] shape_at(b, c) {
                let c = choose|c: Coord| open_cell(b, c) && s == #[trigger] shape_at(b, c);
                assert(c.1 < h);
            }
        }
    }
    found
}

} // verus!
