//! Coordinate lists: membership, equality and the lexicographic order.

use vstd::prelude::*;
use vstd::relations::{sorted_by, total_ordering};

verus! {

/// A cell coordinate `(x, y)`.
pub type Coord = (usize, usize);

/// Lexicographic order on coordinates: by `x`, then by `y`.
pub open spec fn lex_le(a: Coord, b: Coord) -> bool {
    a.0 < b.0 || (a.0 == b.0 && a.1 <= b.1)
}

/// The lexicographic order as a relation.
pub open spec fn lex_order() -> spec_fn(Coord, Coord) -> bool {
    |a: Coord, b: Coord| lex_le(a, b)
}

/// The lexicographic order is total.
pub proof fn lemma_lex_total()
    ensures
        total_ordering(lex_order()),
{
    let r = lex_order();
    assert(vstd::relations::reflexive(r));
    assert(vstd::relations::antisymmetric(r)) by {
        assert forall|a: Coord, b: Coord| #[trigger] r(a, b) && #[trigger] r(b, a) implies a
            == b by {}
    }
    assert(vstd::relations::transitive(r));
    assert(vstd::relations::strongly_connected(r));
}

/// The sorted arrangement of `cells`.
pub open spec fn sorted(cells: Seq<Coord>) -> Seq<Coord> {
    cells.sort_by(lex_order())
}

/// `sorted` is the one arrangement that is in order and holds the same cells,
/// each as often as before.
pub proof fn lemma_sorted_is(cells: Seq<Coord>, out: Seq<Coord>)
    requires
        sorted_by(out, lex_order()),
        out.to_multiset() == cells.to_multiset(),
    ensures
        out == sorted(cells),
{
    lemma_lex_total();
    cells.lemma_sort_by_ensures(lex_order());
    vstd::seq_lib::lemma_sorted_unique(out, sorted(cells), lex_order());
}

/// Whether `a` comes before `b`, or is `b`.
pub fn coord_le(a: Coord, b: Coord) -> (r: bool)
    ensures
        r == lex_le(a, b),
{
    a.0 < b.0 || (a.0 == b.0 && a.1 <= b.1)
}

/// Whether `cells` holds `c`.
pub fn contains_cell(cells: &[Coord], c: Coord) -> (r: bool)
    ensures
        r == cells@.contains(c),
{
    let mut i: usize = 0;
    while i < cells.len()
        invariant
            i <= cells.len(),
            forall|j: int| 0 <= j < i ==> cells@[j] != c,
        decreases cells.len() - i,
    {
        let e = cells[i];
        if e.0 == c.0 && e.1 == c.1 {
            return true;
        }
        i = i + 1;
    }
    false
}

/// Whether two lists hold the same coordinates in the same order.
pub fn cells_equal(a: &[Coord], b: &[Coord]) -> (r: bool)
    ensures
        r == (a@ == b@),
{
    if a.len() != b.len() {
        return false;
    }
    let mut i: usize = 0;
    while i < a.len()
        invariant
            i <= a.len(),
            a.len() == b.len(),
            forall|j: int| 0 <= j < i ==> a@[j] == b@[j],
        decreases a.len() - i,
    {
        let p = a[i];
        let q = b[i];
        if p.0 != q.0 || p.1 != q.1 {
            return false;
        }
        i = i + 1;
    }
    assert(a@ =~= b@);
    true
}

/// A copy of `cells`.
pub fn copy_cells(cells: &[Coord]) -> (out: Vec<Coord>)
    ensures
        out@ == cells@,
{
    let mut out: Vec<Coord> = Vec::new();
    let mut i: usize = 0;
    while i < cells.len()
        invariant
            i <= cells.len(),
            out@ == cells@.take(i as int),
        decreases cells.len() - i,
    {
        out.push(cells[i]);
        assert(cells@.take(i + 1) =~= cells@.take(i as int).push(cells@[i as int]));
        i = i + 1;
    }
    assert(cells@.take(cells@.len() as int) =~= cells@);
    out
}

/// The cells of `cells` in lexicographic order.
pub fn sort_cells(cells: &[Coord]) -> (out: Vec<Coord>)
    ensures
        out@ == sorted(cells@),
        sorted_by(out@, lex_order()),
        out@.to_multiset() == cells@.to_multiset(),
{
    let mut out: Vec<Coord> = Vec::new();
    let mut i: usize = 0;
    assert(cells@.take(0) =~= out@);
    while i < cells.len()
        invariant
            i <= cells.len(),
            out@.len() == i,
            sorted_by(out@, lex_order()),
            out@.to_multiset() == cells@.take(i as int).to_multiset(),
        decreases cells.len() - i,
    {
        let c = cells[i];
        let mut pos: usize = 0;
        while pos < out.len() && coord_le(out[pos], c)
            invariant
                pos <= out.len(),
                forall|j: int| 0 <= j < pos ==> lex_le(#[trigger] out@[j], c),
            decreases out.len() - pos,
        {
            pos = pos + 1;
        }
        let ghost before = out@;
        out.insert(pos, c);
        proof {
            let after = out@;
            assert(after == before.insert(pos as int, c));
            assert forall|a: int, b: int| 0 <= a < b < after.len() implies #[trigger] lex_order()(
                after[a],
                after[b],
            ) by {
                if b < pos {
                    assert(lex_order()(before[a], before[b]));
                } else if b == pos {
                    assert(lex_le(before[a], c));
                } else if a < pos {
                    assert(lex_order()(before[a], before[b - 1]));
                } else if a == pos {
                    assert(!lex_le(before[pos as int], c));
                    if pos as int != b - 1 {
                        assert(lex_order()(before[pos as int], before[b - 1]));
                    }
                } else {
                    assert(lex_order()(before[a - 1], before[b - 1]));
                }
            }
            assert(cells@.take(i + 1) =~= cells@.take(i as int).push(c));
            vstd::seq_lib::to_multiset_insert(before, pos as int, c);
            vstd::seq_lib::to_multiset_build(cells@.take(i as int), c);
        }
        i = i + 1;
    }
    proof {
        assert(cells@.take(cells@.len() as int) =~= cells@);
        lemma_sorted_is(cells@, out@);
    }
    out
}

} // verus!
