//! The group cache: for a cell, the origin and the shape of its group, so
//! that a group is flood-filled once.

use std::collections::HashMap;
use vstd::prelude::*;
use crate::cells::Coord;
use crate::error::SolveError;
use crate::flood::{
    canonical, find_group, is_group_of, min_x, min_y, normalize_group, open_cell,
};
use crate::grid::{Board, TileStore};
use crate::shape::{index_of, lemma_index_of, ShapeId, ShapeLibrary, ShapeView};
use crate::soundness::{consistent, lemma_fresh_entry};
use crate::tile::UNPROCESSED;

verus! {

broadcast use vstd::std_specs::hash::group_hash_axioms;

/// What the cache holds for a cell: the origin of its group and the id of
/// the group's shape.
pub type CacheEntry = (Coord, ShapeId);

/// Whether both coordinates fit 32 bits, so that the cell has a 64-bit key.
pub open spec fn fits_key(c: Coord) -> bool {
    c.0 <= u32::MAX && c.1 <= u32::MAX
}

/// The 64-bit key of a cell: `x` in the upper half, `y` in the lower.
pub open spec fn pack(c: Coord) -> u64 {
    (c.0 * 0x1_0000_0000 + c.1) as u64
}

/// Different cells have different keys.
pub proof fn lemma_pack_injective(a: Coord, b: Coord)
    requires
        fits_key(a),
        fits_key(b),
        pack(a) == pack(b),
    ensures
        a == b,
{
}


/// The mathematical content of a cache: what is cached for each cell, and
/// the cached cells in the order in which they were first entered.
pub struct CacheModel {
    pub map: Map<Coord, CacheEntry>,
    pub order: Seq<Coord>,
}

impl CacheModel {
    /// The cache without entries.
    pub open spec fn empty() -> CacheModel {
        CacheModel { map: Map::empty(), order: Seq::empty() }
    }

    /// The cache after `entry` was entered for `c`.
    pub open spec fn insert(self, c: Coord, entry: CacheEntry) -> CacheModel {
        CacheModel {
            map: self.map.insert(c, entry),
            order: if self.map.contains_key(c) {
                self.order
            } else {
                self.order.push(c)
            },
        }
    }

    /// What is cached for `c`.
    pub open spec fn get(self, c: Coord) -> Option<CacheEntry> {
        if self.map.contains_key(c) {
            Some(self.map[c])
        } else {
            None
        }
    }
}

/// The group cache.
pub struct GroupCache {
    map: HashMap<u64, CacheEntry>,
    keys: Vec<Coord>,
}

impl View for GroupCache {
    type V = CacheModel;

    closed spec fn view(&self) -> CacheModel {
        CacheModel {
            map: Map::new(
                |c: Coord| fits_key(c) && self.map@.contains_key(pack(c)),
                |c: Coord| self.map@[pack(c)],
            ),
            order: self.keys@,
        }
    }
}

fn key_of(x: usize, y: usize) -> (k: u64)
    requires
        fits_key((x, y)),
    ensures
        k == pack((x, y)),
{
    (x as u64) * 0x1_0000_0000u64 + (y as u64)
}

/// The cache that results from entering `entries` one after the other.
pub open spec fn entries_model(entries: Seq<(Coord, CacheEntry)>) -> CacheModel
    decreases entries.len(),
{
    if entries.len() == 0 {
        CacheModel::empty()
    } else {
        entries_model(entries.drop_last()).insert(entries.last().0, entries.last().1)
    }
}

impl GroupCache {
    /// The invariant of the cache: its order lists each cached cell once.
    pub closed spec fn wf(&self) -> bool {
        &&& self.keys@.no_duplicates()
        &&& forall|j: int|
            0 <= j < self.keys@.len() ==> fits_key(#[trigger] self.keys@[j])
                && self.map@.contains_key(pack(self.keys@[j]))
        &&& forall|k: u64| #[trigger]
            self.map@.contains_key(k) ==> exists|j: int|
                0 <= j < self.keys@.len() && pack(#[trigger] self.keys@[j]) == k
    }

    /// The order lists exactly the cached cells, each once, and every cached
    /// cell has a 64-bit key.
    pub proof fn lemma_order(&self)
        requires
            self.wf(),
        ensures
            self@.order.no_duplicates(),
            forall|c: Coord| self@.order.contains(c) <==> self@.map.contains_key(c),
            forall|c: Coord| #[trigger] self@.map.contains_key(c) ==> fits_key(c),
    {
        assert forall|c: Coord| self@.order.contains(c) <==> self@.map.contains_key(c) by {
            if self@.order.contains(c) {
                let j = choose|j: int| 0 <= j < self.keys@.len() && self.keys@[j] == c;
                assert(fits_key(self.keys@[j]));
            }
            if self@.map.contains_key(c) {
                let j = choose|j: int|
                    0 <= j < self.keys@.len() && pack(#[trigger] self.keys@[j]) == pack(c);
                assert(fits_key(self.keys@[j]));
                lemma_pack_injective(self.keys@[j], c);
            }
        }
    }

    /// A cache without entries.
    pub fn new() -> (r: GroupCache)
        ensures
            r.wf(),
            r@ == CacheModel::empty(),
    {
        let r = GroupCache { map: HashMap::new(), keys: Vec::new() };
        assert(r@.map =~= Map::<Coord, CacheEntry>::empty());
        r
    }

    /// Number of cached cells.
    pub fn len(&self) -> (n: usize)
        requires
            self.wf(),
        ensures
            n == self@.order.len(),
    {
        self.keys.len()
    }

    /// What is cached for `(x, y)`.
    pub fn get(&self, x: usize, y: usize) -> (r: Option<CacheEntry>)
        ensures
            r == self@.get((x, y)),
    {
        if x > 0xffff_ffff || y > 0xffff_ffff {
            return None;
        }
        let k = key_of(x, y);
        match self.map.get(&k) {
            Some(e) => Some(*e),
            None => None,
        }
    }

    /// Enters `entry` for `(x, y)`, in place of what was cached for it.
    pub fn insert(&mut self, x: usize, y: usize, entry: CacheEntry)
        requires
            old(self).wf(),
            fits_key((x, y)),
        ensures
            final(self).wf(),
            final(self)@ == old(self)@.insert((x, y), entry),
    {
        let k = key_of(x, y);
        let ghost before = *self;
        let known = self.map.contains_key(&k);
        self.map.insert(k, entry);
        if !known {
            self.keys.push((x, y));
        }
        proof {
            assert forall|c: Coord| #[trigger] self@.map.contains_key(c) <==> before@.map.insert(
                (x, y),
                entry,
            ).contains_key(c) by {
                if fits_key(c) && pack(c) == k {
                    lemma_pack_injective(c, (x, y));
                }
            }
            assert forall|c: Coord| #[trigger] self@.map.contains_key(c) implies self@.map[c]
                == before@.map.insert((x, y), entry)[c] by {
                if fits_key(c) && pack(c) == k {
                    lemma_pack_injective(c, (x, y));
                }
            }
            assert(self@.map =~= before@.map.insert((x, y), entry));
            assert(known == before@.map.contains_key((x, y)));
            if known {
                assert forall|q: u64| #[trigger] self.map@.contains_key(q) implies exists|j: int|
                    0 <= j < self.keys@.len() && pack(#[trigger] self.keys@[j]) == q by {
                    assert(before.map@.contains_key(q));
                }
            } else {
                let last = self.keys@.len() - 1;
                assert(self.keys@[last] == (x, y));
                assert forall|i: int, j: int|
                    0 <= i < self.keys@.len() && 0 <= j < self.keys@.len() && i
                        != j implies self.keys@[i] != self.keys@[j] by {
                    if i < last && j < last {
                        assert(before.keys@[i] != before.keys@[j]);
                    } else if i < last {
                        assert(before.map@.contains_key(pack(before.keys@[i])));
                    } else {
                        assert(before.map@.contains_key(pack(before.keys@[j])));
                    }
                }
                assert forall|j: int| 0 <= j < self.keys@.len() implies fits_key(
                    #[trigger] self.keys@[j],
                ) && self.map@.contains_key(pack(self.keys@[j])) by {
                    if j < last {
                        assert(self.keys@[j] == before.keys@[j]);
                    }
                }
                assert forall|q: u64| #[trigger] self.map@.contains_key(q) implies exists|j: int|
                    0 <= j < self.keys@.len() && pack(#[trigger] self.keys@[j]) == q by {
                    if q == k {
                        assert(pack(self.keys@[last]) == q);
                    } else {
                        assert(before.map@.contains_key(q));
                        let j = choose|j: int|
                            0 <= j < before.keys@.len() && pack(#[trigger] before.keys@[j]) == q;
                        assert(self.keys@[j] == before.keys@[j]);
                    }
                }
            }
        }
    }

    /// The entries of the cache, in the order in which their cells were first
    /// entered.
    pub fn entries(&self) -> (r: Vec<(Coord, CacheEntry)>)
        requires
            self.wf(),
        ensures
            r@.len() == self@.order.len(),
            forall|j: int|
                0 <= j < r@.len() ==> (#[trigger] r@[j]).0 == self@.order[j] && r@[j].1
                    == self@.map[self@.order[j]],
    {
        let mut out: Vec<(Coord, CacheEntry)> = Vec::new();
        let mut j: usize = 0;
        while j < self.keys.len()
            invariant
                j <= self.keys@.len(),
                self.wf(),
                out@.len() == j,
                forall|i: int|
                    0 <= i < j ==> (#[trigger] out@[i]).0 == self.keys@[i] && out@[i].1
                        == self@.map[self.keys@[i]],
            decreases self.keys.len() - j,
        {
            let c = self.keys[j];
            assert(fits_key(self.keys@[j as int]));
            let k = key_of(c.0, c.1);
            let e = *self.map.get(&k).unwrap();
            out.push((c, e));
            j = j + 1;
        }
        out
    }

    /// The cache that results from entering `entries` one after the other;
    /// `None` where a coordinate does not fit 32 bits.
    pub fn from_entries(entries: &[(Coord, CacheEntry)]) -> (r: Option<GroupCache>)
        ensures
            match r {
                Some(c) => c.wf() && c@ == entries_model(entries@) && forall|j: int|
                    0 <= j < entries@.len() ==> fits_key((#[trigger] entries@[j]).0),
                None => exists|j: int| 0 <= j < entries@.len() && !fits_key((#[trigger] entries@[j]).0),
            },
    {
        let mut cache = GroupCache::new();
        let mut j: usize = 0;
        assert(entries@.take(0) =~= Seq::<(Coord, CacheEntry)>::empty());
        while j < entries.len()
            invariant
                j <= entries@.len(),
                cache.wf(),
                cache@ == entries_model(entries@.take(j as int)),
                forall|i: int| 0 <= i < j ==> fits_key((#[trigger] entries@[i]).0),
            decreases entries.len() - j,
        {
            let e = entries[j];
            let c = e.0;
            if c.0 > 0xffff_ffff || c.1 > 0xffff_ffff {
                return None;
            }
            cache.insert(c.0, c.1, e.1);
            proof {
                let next = entries@.take(j + 1);
                assert(next.drop_last() =~= entries@.take(j as int));
                assert(next.last() == e);
            }
            j = j + 1;
        }
        assert(entries@.take(entries@.len() as int) =~= entries@);
        Some(cache)
    }
}

impl Clone for GroupCache {
    fn clone(&self) -> (r: GroupCache)
        ensures
            r@ == self@,
            self.wf() ==> r.wf(),
    {
        let mut keys: Vec<Coord> = Vec::new();
        let mut j: usize = 0;
        while j < self.keys.len()
            invariant
                j <= self.keys@.len(),
                keys@ == self.keys@.take(j as int),
            decreases self.keys.len() - j,
        {
            keys.push(self.keys[j]);
            assert(self.keys@.take(j + 1) =~= self.keys@.take(j as int).push(self.keys@[j as int]));
            j = j + 1;
        }
        assert(self.keys@.take(self.keys@.len() as int) =~= self.keys@);
        GroupCache { map: self.map.clone(), keys }
    }
}

/// The cells of the group that holds `seed`, each once, in some order.
pub open spec fn group_of(b: Board, seed: Coord) -> Seq<Coord> {
    choose|g: Seq<Coord>| is_group_of(b, g, seed)
}

/// What a cell resolves to when it is not cached: the origin of its group
/// and the id of the top-level shape filed under the group's canonical
/// form, if there is one.
pub open spec fn resolve_fresh(b: Board, lib: Seq<ShapeView>, seed: Coord) -> Option<CacheEntry> {
    let g = group_of(b, seed);
    match index_of(lib, canonical(g), None) {
        Some(id) => Some(((min_x(g), min_y(g)), id as usize)),
        None => None,
    }
}

/// The shape that a fresh resolution names is a top-level shape whose cells
/// are the canonical form of the cell's group, and the origin is the least
/// corner of that group.
pub proof fn lemma_resolve_fresh(b: Board, lib: Seq<ShapeView>, seed: Coord, g: Seq<Coord>)
    requires
        is_group_of(b, g, seed),
        g.len() > 0,
        lib.len() <= usize::MAX,
        resolve_fresh(b, lib, seed) is Some,
    ensures
        ({
            let e = resolve_fresh(b, lib, seed).unwrap();
            &&& e.0 == (min_x(g), min_y(g))
            &&& index_of(lib, canonical(g), None) == Some(e.1 as int)
            &&& e.1 < lib.len()
            &&& lib[e.1 as int].group == canonical(g)
            &&& lib[e.1 as int].parent is None
        }),
{
    let h = group_of(b, seed);
    assert(is_group_of(b, h, seed));
    crate::flood::lemma_canonical_of_same_cells(g, h);
    lemma_index_of(lib, canonical(g), None);
}

/// The canonical form of the group that holds the unprocessed cell
/// `(x, y)`: what the library is asked for when the cell is resolved.
pub fn canonical_group_at<T: TileStore>(map: &T, x: usize, y: usize) -> (r: Vec<Coord>)
    requires
        map.wf(),
        map@.contains(x as int, y as int),
        map@.tile(x as int, y as int) == UNPROCESSED,
    ensures
        r@ == canonical(group_of(map@, (x, y))),
{
    let group = find_group(map, x, y);
    let (_, _, normalized_group) = normalize_group(group.as_slice());
    proof {
        let h = group_of(map@, (x, y));
        assert(is_group_of(map@, h, (x, y)));
        crate::flood::lemma_canonical_of_same_cells(group@, h);
    }
    normalized_group
}

/// Whether the cell `c` can be resolved: it is cached, or its group has a
/// top-level shape in the library.
pub open spec fn resolvable(b: Board, lib: Seq<ShapeView>, cache: CacheModel, c: Coord) -> bool {
    cache.get(c) is Some || resolve_fresh(b, lib, c) is Some
}

/// The origin and the shape of the group that holds `(x, y)`, where the
/// cell can be resolved. A cached cell is answered from the cache, whatever
/// the grid holds there. Any other cell must be an unprocessed cell of the
/// grid: it is flood-filled, its group normalised and looked up as a
/// top-level shape, and the answer cached. A group without a top-level
/// shape is an error that names the cell; the cache stays as it is then. A
/// consistent cache stays consistent.
pub fn resolve_group<T: TileStore>(
    map: &T,
    library: &ShapeLibrary,
    cached_groups: &mut GroupCache,
    x: usize,
    y: usize,
) -> (r: Result<CacheEntry, SolveError>)
    requires
        map.wf(),
        old(cached_groups).wf(),
        old(cached_groups)@.get((x, y)) is None ==> map@.contains(x as int, y as int) && map@.tile(
            x as int,
            y as int,
        ) == UNPROCESSED,
    ensures
        final(cached_groups).wf(),
        match r {
            Ok(e) => match old(cached_groups)@.get((x, y)) {
                Some(known) => e == known && final(cached_groups)@ == old(cached_groups)@,
                None => resolve_fresh(map@, library@, (x, y)) == Some(e) && final(cached_groups)@
                    == old(cached_groups)@.insert((x, y), e),
            },
            Err(e) => {
                &&& e == (SolveError::MissingShape { x, y })
                &&& !resolvable(map@, library@, old(cached_groups)@, (x, y))
                &&& final(cached_groups)@ == old(cached_groups)@
            },
        },
        open_cell(map@, (x, y)) && consistent(map@, library@, old(cached_groups)@) ==> consistent(
            map@,
            library@,
            final(cached_groups)@,
        ),
{
    proof {
        map.lemma_board_wf();
        library.lemma_len_fits();
        if open_cell(map@, (x, y)) && consistent(map@, library@, cached_groups@)
            && cached_groups@.get((x, y)) is None && resolve_fresh(map@, library@, (x, y))
            is Some {
            lemma_fresh_entry(map@, library@, cached_groups@, (x, y));
        }
    }
    match cached_groups.get(x, y) {
        Some(e) => Ok(e),
        None => {
            let group = find_group(map, x, y);
            let (min_x, min_y, normalized_group) = normalize_group(group.as_slice());
            proof {
                let h = group_of(map@, (x, y));
                assert(is_group_of(map@, h, (x, y)));
                crate::flood::lemma_canonical_of_same_cells(group@, h);
                map.lemma_board_wf();
            }
            match library.lookup_shape(normalized_group.as_slice(), None) {
                Some(shape_id) => {
                    let e = ((min_x, min_y), shape_id);
                    cached_groups.insert(x, y, e);
                    Ok(e)
                },
                None => Err(SolveError::MissingShape { x, y }),
            }
        },
    }
}

/// The origin and the shape of the group that holds `(x, y)`. A cached cell
/// is answered from the cache, whatever the grid holds there, and the cache
/// stays as it is. Any other cell must be an unprocessed cell of the grid
/// whose group has a top-level shape in the library: it is flood-filled, its
/// group normalised and looked up, and the answer cached. `resolve_group`
/// tells whether a cell can be resolved.
pub fn get_group<T: TileStore>(
    map: &T,
    library: &ShapeLibrary,
    cached_groups: &mut GroupCache,
    x: usize,
    y: usize,
) -> (e: CacheEntry)
    requires
        map.wf(),
        old(cached_groups).wf(),
        old(cached_groups)@.get((x, y)) is None ==> map@.contains(x as int, y as int) && map@.tile(
            x as int,
            y as int,
        ) == UNPROCESSED,
        resolvable(map@, library@, old(cached_groups)@, (x, y)),
    ensures
        final(cached_groups).wf(),
        match old(cached_groups)@.get((x, y)) {
            Some(known) => e == known && final(cached_groups)@ == old(cached_groups)@,
            None => resolve_fresh(map@, library@, (x, y)) == Some(e) && final(cached_groups)@
                == old(cached_groups)@.insert((x, y), e),
        },
        open_cell(map@, (x, y)) && consistent(map@, library@, old(cached_groups)@) ==> consistent(
            map@,
            library@,
            final(cached_groups)@,
        ),
{
    match resolve_group(map, library, cached_groups, x, y) {
        Ok(e) => e,
        Err(_) => {
            assert(false);
            ((0, 0), 0)
        },
    }
}

} // verus!
