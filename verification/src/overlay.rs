//! A copy-on-write layer over a shared grid, for speculative branches.
//!
//! Writes go to a small patch table. Reads look there first and fall through
//! to the grid underneath, which stays as it is.

use std::collections::HashMap;
use vstd::prelude::*;
use crate::grid::{Board, Grid, Layer, TileStore};
use crate::tile::is_legal_tile;

verus! {

broadcast use vstd::std_specs::hash::group_hash_axioms;

/// The tiles of `base` with those of `patches` laid over them. The keys of
/// `patches` are positions in the raw dump.
pub open spec fn apply_patches(base: Board, patches: Map<int, u8>) -> Board {
    Board {
        cells: Seq::new(
            base.cells.len(),
            |i: int|
                if patches.contains_key(i) {
                    patches[i]
                } else {
                    base.cells[i]
                },
        ),
        ..base
    }
}

/// One write: the coordinate and the new tile.
pub type Write = (int, int, u8);

/// The board after the writes were made on it, one after the other.
pub open spec fn replay_direct(b: Board, writes: Seq<Write>) -> Board
    decreases writes.len(),
{
    if writes.len() == 0 {
        b
    } else {
        let w = writes.last();
        replay_direct(b, writes.drop_last()).with_tile(w.0, w.1, w.2)
    }
}

/// The patch table after the writes were made through a fresh layer over `b`.
pub open spec fn replay_patched(b: Board, writes: Seq<Write>) -> Map<int, u8>
    decreases writes.len(),
{
    if writes.len() == 0 {
        Map::empty()
    } else {
        let w = writes.last();
        replay_patched(b, writes.drop_last()).insert(b.index(w.0, w.1), w.2)
    }
}

/// Writes made through a layer and then applied to the grid underneath give
/// the grid that the same writes give when made on it directly.
pub proof fn lemma_overlay_matches_direct_writes(b: Board, writes: Seq<Write>)
    requires
        b.cells.len() == b.width * b.height,
        forall|i: int| 0 <= i < writes.len() ==> b.contains((#[trigger] writes[i]).0, writes[i].1),
    ensures
        apply_patches(b, replay_patched(b, writes)) == replay_direct(b, writes),
        replay_direct(b, writes).width == b.width,
        replay_direct(b, writes).height == b.height,
        replay_direct(b, writes).cells.len() == b.cells.len(),
    decreases writes.len(),
{
    if writes.len() == 0 {
        assert(apply_patches(b, Map::empty()).cells =~= b.cells);
    } else {
        let w = writes.last();
        let rest = writes.drop_last();
        assert forall|i: int| 0 <= i < rest.len() implies b.contains(
            (#[trigger] rest[i]).0,
            rest[i].1,
        ) by {
            assert(rest[i] == writes[i]);
        }
        lemma_overlay_matches_direct_writes(b, rest);
        assert(b.contains(w.0, w.1));
        b.lemma_index_in_range(w.0, w.1);
        let before = replay_direct(b, rest);
        assert(before.index(w.0, w.1) == b.index(w.0, w.1));
        assert(apply_patches(b, replay_patched(b, writes)).cells =~= before.with_tile(
            w.0,
            w.1,
            w.2,
        ).cells);
    }
}

/// A grid seen through a table of patches.
pub struct MapWithPatches<'a> {
    map: &'a Grid,
    patches: HashMap<u64, u8>,
    touched: Vec<usize>,
}

impl<'a> MapWithPatches<'a> {
    /// The board underneath.
    pub closed spec fn base(&self) -> Board {
        self.map@
    }

    /// The patch table, by position in the raw dump.
    pub closed spec fn patches(&self) -> Map<int, u8> {
        Map::new(
            |i: int| 0 <= i <= u64::MAX && self.patches@.contains_key(i as u64),
            |i: int| self.patches@[i as u64],
        )
    }

    /// Whether the list of written positions and the patch table go
    /// together: every listed position lies in the grid and has a patch, and
    /// every patch holds a legal tile for a listed position.
    closed spec fn touched_ok(&self) -> bool {
        &&& forall|j: int|
            0 <= j < self.touched@.len() ==> (#[trigger] self.touched@[j]) < self.map@.cells.len()
                && self.patches@.contains_key(self.touched@[j] as u64)
        &&& forall|k: u64| #[trigger]
            self.patches@.contains_key(k) ==> k < self.map@.cells.len() && is_legal_tile(
                self.patches@[k],
            ) && self.touched@.contains(k as usize)
    }

    /// What the layer shows: the board underneath with the patches laid over
    /// it.
    pub proof fn lemma_view(&self)
        ensures
            self@ == apply_patches(self.base(), self.patches()),
    {
    }

    /// A layer without patches over `map`.
    pub fn new(map: &'a Grid) -> (r: MapWithPatches<'a>)
        requires
            map.wf(),
        ensures
            r.wf(),
            r.base() == map@,
            r.patches() == Map::<int, u8>::empty(),
            r@ == map@,
    {
        let r = MapWithPatches { map, patches: HashMap::new(), touched: Vec::new() };
        proof {
            map.lemma_board_wf();
            assert(r.patches() =~= Map::<int, u8>::empty());
            assert(r@.cells =~= map@.cells);
        }
        r
    }

    /// Number of positions that carry a patch.
    pub fn patch_count(&self) -> (n: usize)
        requires
            self.wf(),
        ensures
            n == self.patches().dom().len(),
    {
        proof {
            let f = |k: u64| k as int;
            assert(self.patches().dom() =~= self.patches@.dom().map(f));
            vstd::set_lib::lemma_map_size(self.patches@.dom(), self.patches().dom(), f);
        }
        self.patches.len()
    }

    /// The patch of the cell `(x, y)`: the tile last written there, or
    /// nothing where the cell was never written.
    pub fn patch_at(&self, x: usize, y: usize) -> (r: Option<u8>)
        requires
            self.wf(),
            self.base().contains(x as int, y as int),
        ensures
            r == (if self.patches().contains_key(self.base().index(x as int, y as int)) {
                Some(self.patches()[self.base().index(x as int, y as int)])
            } else {
                None
            }),
    {
        let pos = self.map.position(x, y);
        let key = pos as u64;
        match self.patches.get(&key) {
            Some(value) => Some(*value),
            None => None,
        }
    }

    /// Writes every patch into `map`, which has the dimensions of the grid
    /// underneath.
    pub fn apply(&self, map: &mut Grid)
        requires
            self.wf(),
            old(map).wf(),
            old(map)@.width == self@.width,
            old(map)@.height == self@.height,
        ensures
            final(map).wf(),
            final(map)@ == apply_patches(old(map)@, self.patches()),
    {
        let ghost start = map@;
        let n = map.cell_count();
        proof {
            map.lemma_board_wf();
            self.map.lemma_board_wf();
        }
        let mut j: usize = 0;
        while j < self.touched.len()
            invariant
                j <= self.touched@.len(),
                self.wf(),
                map.wf(),
                map@.width == start.width,
                map@.height == start.height,
                start.cells.len() == self.map@.cells.len(),
                map@.cells.len() == start.cells.len(),
                n == start.cells.len(),
                forall|i: usize|
                    i < n ==> #[trigger] map@.cells[i as int] == (if self.touched@.take(
                        j as int,
                    ).contains(i) {
                        self.patches@[i as u64]
                    } else {
                        start.cells[i as int]
                    }),
            decreases self.touched.len() - j,
        {
            let pos = self.touched[j];
            let key = pos as u64;
            let value = *self.patches.get(&key).unwrap();
            let ghost before = map@;
            map.set_by_position(pos, value);
            proof {
                map.lemma_board_wf();
                let seen = self.touched@.take(j as int);
                let seen2 = self.touched@.take(j + 1);
                assert(seen2 =~= seen.push(pos));
                assert forall|i: usize| i < n implies #[trigger] map@.cells[i as int] == (
                if seen2.contains(i) {
                    self.patches@[i as u64]
                } else {
                    start.cells[i as int]
                }) by {
                    assert(before.cells[i as int] == (if seen.contains(i) {
                        self.patches@[i as u64]
                    } else {
                        start.cells[i as int]
                    }));
                    if i == pos {
                        assert(seen2[j as int] == pos);
                    } else if seen.contains(i) {
                        let k = choose|k: int| 0 <= k < seen.len() && seen[k] == i;
                        assert(seen2[k] == i);
                    } else {
                        if seen2.contains(i) {
                            let k = choose|k: int| 0 <= k < seen2.len() && seen2[k] == i;
                            if k < j {
                                assert(seen[k] == i);
                            }
                        }
                    }
                }
            }
            j = j + 1;
        }
        proof {
            assert(self.touched@.take(self.touched@.len() as int) =~= self.touched@);
            let want = apply_patches(start, self.patches());
            assert forall|i: int| 0 <= i < start.cells.len() implies map@.cells[i]
                == want.cells[i] by {
                let u = i as usize;
                assert(map@.cells[u as int] == (if self.touched@.contains(u) {
                    self.patches@[u as u64]
                } else {
                    start.cells[u as int]
                }));
                if self.touched@.contains(u) {
                    let k = choose|k: int| 0 <= k < self.touched@.len() && self.touched@[k] == u;
                    assert(self.patches@.contains_key(self.touched@[k] as u64));
                } else {
                    if self.patches@.contains_key(u as u64) {
                        assert(self.touched@.contains((u as u64) as usize));
                    }
                }
            }
            assert(map@.cells =~= want.cells);
        }
    }

    /// A grid of its own that holds what this layer shows.
    pub fn materialize(&self) -> (r: Grid)
        requires
            self.wf(),
        ensures
            r.wf(),
            r@ == self@,
    {
        let mut r = self.map.clone();
        self.apply(&mut r);
        r
    }
}

impl<'a> View for MapWithPatches<'a> {
    type V = Board;

    closed spec fn view(&self) -> Board {
        apply_patches(self.map@, self.patches())
    }
}

impl<'a> Clone for MapWithPatches<'a> {
    fn clone(&self) -> (r: MapWithPatches<'a>)
        ensures
            r@ == self@,
            r.base() == self.base(),
            r.patches() == self.patches(),
            self.wf() ==> r.wf(),
    {
        let mut touched: Vec<usize> = Vec::new();
        let mut j: usize = 0;
        while j < self.touched.len()
            invariant
                j <= self.touched@.len(),
                touched@ == self.touched@.take(j as int),
            decreases self.touched.len() - j,
        {
            touched.push(self.touched[j]);
            assert(self.touched@.take(j + 1) =~= self.touched@.take(j as int).push(
                self.touched@[j as int],
            ));
            j = j + 1;
        }
        assert(self.touched@.take(self.touched@.len() as int) =~= self.touched@);
        MapWithPatches { map: self.map, patches: self.patches.clone(), touched }
    }
}

impl<'a> TileStore for MapWithPatches<'a> {
    closed spec fn wf(&self) -> bool {
        self.map.wf() && self.touched_ok()
    }

    open spec fn layer(&self) -> Option<Layer> {
        Some(Layer { base: self.base(), patches: self.patches() })
    }

    proof fn lemma_board_wf(&self) {
        self.map.lemma_board_wf();
    }

    fn width(&self) -> (w: usize) {
        self.map.width()
    }

    fn height(&self) -> (h: usize) {
        self.map.height()
    }

    fn get(&self, x: usize, y: usize) -> (t: u8) {
        let pos = self.map.position(x, y);
        let key = pos as u64;
        match self.patches.get(&key) {
            Some(value) => *value,
            None => self.map.tile_by_position(pos),
        }
    }

    fn set(&mut self, x: usize, y: usize, value: u8)
        ensures
            final(self).base() == old(self).base(),
            final(self).patches() == old(self).patches().insert(
                old(self).base().index(x as int, y as int),
                value,
            ),
    {
        let pos = self.map.position(x, y);
        let key = pos as u64;
        let ghost before = *self;
        self.patches.insert(key, value);
        self.touched.push(pos);
        proof {
            self.map.lemma_board_wf();
            assert(self.patches() =~= before.patches().insert(pos as int, value));
            assert(self@.cells =~= before@.with_tile(x as int, y as int, value).cells);
            assert forall|j: int| 0 <= j < self.touched@.len() implies (
            #[trigger] self.touched@[j]) < self.map@.cells.len() && self.patches@.contains_key(
                self.touched@[j] as u64,
            ) by {
                if j < before.touched@.len() {
                    assert(self.touched@[j] == before.touched@[j]);
                }
            }
            assert forall|k: u64| #[trigger] self.patches@.contains_key(k) implies k
                < self.map@.cells.len() && is_legal_tile(self.patches@[k])
                && self.touched@.contains(k as usize) by {
                if k == key {
                    assert(self.touched@[self.touched@.len() - 1] == pos);
                } else {
                    assert(before.patches@.contains_key(k));
                    let j = choose|j: int|
                        0 <= j < before.touched@.len() && before.touched@[j] == k as usize;
                    assert(self.touched@[j] == k as usize);
                }
            }
        }
    }
}

} // verus!
