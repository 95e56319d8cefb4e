//! Shapes and the shape library.
//!
//! A shape is the canonical form of a group together with its curated
//! candidate solutions. The library is an append-only arena: the id of a
//! shape is its position, and a shape that refines another names it as its
//! parent.

use vstd::prelude::*;
use crate::cells::{cells_equal, contains_cell, copy_cells, Coord};

verus! {

/// The id of a shape: its position in the library.
pub type ShapeId = usize;

/// A candidate solution: the cells of the shape that are active. The other
/// cells of the shape are not active.
pub type Solution = Vec<Coord>;

/// A group outline with what is known about it.
#[derive(Debug)]
pub struct Shape {
    /// The canonical coordinate list.
    pub group: Vec<Coord>,
    /// The candidate solutions, once the shape is curated.
    pub solutions: Option<Vec<Solution>>,
    /// The shape that this one refines.
    pub parent: Option<ShapeId>,
    /// The positions, in the parent's solution list, of the solutions that
    /// were still feasible when this shape was split off.
    pub used_solutions: Option<Vec<usize>>,
}

/// The mathematical content of a shape.
pub struct ShapeView {
    pub group: Seq<Coord>,
    pub solutions: Option<Seq<Seq<Coord>>>,
    pub parent: Option<ShapeId>,
    pub used_solutions: Option<Seq<usize>>,
}

/// The contents of a list of solutions.
pub open spec fn solutions_view(v: Seq<Solution>) -> Seq<Seq<Coord>> {
    Seq::new(v.len(), |i: int| v[i]@)
}

impl View for Shape {
    type V = ShapeView;

    open spec fn view(&self) -> ShapeView {
        ShapeView {
            group: self.group@,
            solutions: match self.solutions {
                Some(v) => Some(solutions_view(v@)),
                None => None,
            },
            parent: self.parent,
            used_solutions: match self.used_solutions {
                Some(v) => Some(v@),
                None => None,
            },
        }
    }
}

/// A copy of a list of solutions.
pub fn copy_solutions(solutions: &Vec<Solution>) -> (out: Vec<Solution>)
    ensures
        solutions_view(out@) == solutions_view(solutions@),
{
    let mut out: Vec<Solution> = Vec::new();
    let mut i: usize = 0;
    while i < solutions.len()
        invariant
            i <= solutions.len(),
            out@.len() == i,
            forall|j: int| 0 <= j < i ==> out@[j]@ == solutions@[j]@,
        decreases solutions.len() - i,
    {
        out.push(copy_cells(solutions[i].as_slice()));
        i = i + 1;
    }
    assert(solutions_view(out@) =~= solutions_view(solutions@));
    out
}

/// A copy of a list of positions.
pub fn copy_indices(v: &Vec<usize>) -> (out: Vec<usize>)
    ensures
        out@ == v@,
{
    let mut out: Vec<usize> = Vec::new();
    let mut i: usize = 0;
    while i < v.len()
        invariant
            i <= v.len(),
            out@.len() == i,
            forall|j: int| 0 <= j < i ==> out@[j] == v@[j],
        decreases v.len() - i,
    {
        out.push(v[i]);
        i = i + 1;
    }
    assert(out@ =~= v@);
    out
}

impl Clone for Shape {
    fn clone(&self) -> (r: Shape)
        ensures
            r@ == self@,
    {
        let solutions = match &self.solutions {
            Some(v) => Some(copy_solutions(v)),
            None => None,
        };
        let used_solutions = match &self.used_solutions {
            Some(v) => Some(copy_indices(v)),
            None => None,
        };
        Shape {
            group: copy_cells(self.group.as_slice()),
            solutions,
            parent: self.parent,
            used_solutions,
        }
    }
}

impl Shape {
    /// The shape with `solution` as its only candidate.
    pub fn with_only(&self, solution: &Solution) -> (r: Shape)
        ensures
            r@ == (ShapeView { solutions: Some(seq![solution@]), ..self@ }),
    {
        let mut one: Vec<Solution> = Vec::new();
        one.push(copy_cells(solution.as_slice()));
        let used_solutions = match &self.used_solutions {
            Some(v) => Some(copy_indices(v)),
            None => None,
        };
        let r = Shape {
            group: copy_cells(self.group.as_slice()),
            solutions: Some(one),
            parent: self.parent,
            used_solutions,
        };
        assert(solutions_view(one@) =~= seq![solution@]);
        r
    }
}

/// Every cell of `inner` is a cell of `outer`, and `outer` has a cell more.
pub open spec fn proper_subset(inner: Seq<Coord>, outer: Seq<Coord>) -> bool {
    &&& forall|i: int| 0 <= i < inner.len() ==> outer.contains(#[trigger] inner[i])
    &&& exists|j: int| 0 <= j < outer.len() && !inner.contains(#[trigger] outer[j])
}

/// Whether the shape at position `i` is in order: a parent comes earlier in
/// the library, and the shape's cells are some, not all, of its parent's.
pub open spec fn shape_in_order(lib: Seq<ShapeView>, i: int) -> bool {
    match lib[i].parent {
        Some(p) => p < i && proper_subset(lib[i].group, lib[p as int].group),
        None => true,
    }
}

/// The invariant of a library: every shape is in order.
pub open spec fn library_wf(lib: Seq<ShapeView>) -> bool {
    forall|i: int| 0 <= i < lib.len() ==> #[trigger] shape_in_order(lib, i)
}

/// Whether `after` is `before` with shapes added at its end: no shape was
/// removed, replaced or renumbered.
pub open spec fn extends(after: Seq<ShapeView>, before: Seq<ShapeView>) -> bool {
    before.len() <= after.len() && forall|i: int| 0 <= i < before.len() ==> after[i] == before[i]
}

/// Whether `shape` is filed under `(coords, parent)`.
pub open spec fn filed_under(shape: ShapeView, coords: Seq<Coord>, parent: Option<ShapeId>) -> bool {
    shape.group == coords && shape.parent == parent
}

/// The id under which `(coords, parent)` is found: that of the last shape
/// filed under it.
pub open spec fn index_of(lib: Seq<ShapeView>, coords: Seq<Coord>, parent: Option<ShapeId>) -> Option<
    int,
>
    decreases lib.len(),
{
    if lib.len() == 0 {
        None
    } else if filed_under(lib.last(), coords, parent) {
        Some(lib.len() - 1)
    } else {
        index_of(lib.drop_last(), coords, parent)
    }
}

/// What `index_of` finds is a shape filed under the key, and no later shape
/// is; it finds nothing only where no shape is filed under the key.
pub proof fn lemma_index_of(lib: Seq<ShapeView>, coords: Seq<Coord>, parent: Option<ShapeId>)
    ensures
        match index_of(lib, coords, parent) {
            Some(id) => 0 <= id < lib.len() && filed_under(lib[id], coords, parent) && forall|
                j: int,
            |
                id < j < lib.len() ==> !filed_under(#[trigger] lib[j], coords, parent),
            None => forall|j: int|
                0 <= j < lib.len() ==> !filed_under(#[trigger] lib[j], coords, parent),
        },
    decreases lib.len(),
{
    if lib.len() == 0 {
    } else if filed_under(lib.last(), coords, parent) {
        assert(lib[lib.len() - 1] == lib.last());
    } else {
        let rest = lib.drop_last();
        lemma_index_of(rest, coords, parent);
        assert(index_of(lib, coords, parent) == index_of(rest, coords, parent));
        match index_of(rest, coords, parent) {
            Some(id) => {
                assert(rest[id] == lib[id]);
                assert forall|j: int| id < j < lib.len() implies !filed_under(
                    #[trigger] lib[j],
                    coords,
                    parent,
                ) by {
                    if j < rest.len() {
                        assert(rest[j] == lib[j]);
                    } else {
                        assert(lib[j] == lib.last());
                    }
                }
            },
            None => {
                assert forall|j: int| 0 <= j < lib.len() implies !filed_under(
                    #[trigger] lib[j],
                    coords,
                    parent,
                ) by {
                    if j < rest.len() {
                        assert(rest[j] == lib[j]);
                    } else {
                        assert(lib[j] == lib.last());
                    }
                }
            },
        }
    }
}

/// Why a list of shapes is no library.
#[derive(Debug, Clone, Copy, PartialEq, Eq, Structural)]
pub enum LibraryError {
    /// The parent of the shape does not come before it.
    ParentNotEarlier { shape: ShapeId },
    /// The cells of the shape are not some, but not all, of its parent's.
    NotRefinement { shape: ShapeId },
}

/// The contents of a list of shapes.
pub open spec fn shapes_view(v: Seq<Shape>) -> Seq<ShapeView> {
    Seq::new(v.len(), |i: int| v[i]@)
}

/// Whether every cell of `inner` is in `outer`.
pub fn all_cells_in(inner: &[Coord], outer: &[Coord]) -> (r: bool)
    ensures
        r == forall|i: int| 0 <= i < inner@.len() ==> outer@.contains(#[trigger] inner@[i]),
{
    let mut i: usize = 0;
    while i < inner.len()
        invariant
            i <= inner.len(),
            forall|j: int| 0 <= j < i ==> outer@.contains(#[trigger] inner@[j]),
        decreases inner.len() - i,
    {
        if !contains_cell(outer, inner[i]) {
            return false;
        }
        i = i + 1;
    }
    true
}

/// Whether `inner` holds some, but not all, of the cells of `outer`, and
/// nothing else.
pub fn is_proper_subset(inner: &[Coord], outer: &[Coord]) -> (r: bool)
    ensures
        r == proper_subset(inner@, outer@),
{
    all_cells_in(inner, outer) && !all_cells_in(outer, inner)
}

/// The shape library: an append-only list of shapes, found again by their
/// canonical coordinates and parent.
pub struct ShapeLibrary {
    shapes: Vec<Shape>,
}

impl View for ShapeLibrary {
    type V = Seq<ShapeView>;

    closed spec fn view(&self) -> Seq<ShapeView> {
        shapes_view(self.shapes@)
    }
}

impl ShapeLibrary {
    /// The invariant of the library.
    pub open spec fn wf(&self) -> bool {
        library_wf(self@)
    }

    /// The number of shapes is a machine number.
    pub proof fn lemma_len_fits(&self)
        ensures
            self@.len() <= usize::MAX,
    {
        assert(self.shapes.len() == self.shapes@.len());
    }

    /// A library without shapes.
    pub fn new() -> (r: ShapeLibrary)
        ensures
            r.wf(),
            r@ == Seq::<ShapeView>::empty(),
    {
        let r = ShapeLibrary { shapes: Vec::new() };
        assert(r@ =~= Seq::<ShapeView>::empty());
        r
    }

    /// The library of the given shapes, each with its position as id. Fails
    /// at the first shape that is not in order.
    pub fn from_shapes(shapes: Vec<Shape>) -> (r: Result<ShapeLibrary, LibraryError>)
        ensures
            match r {
                Ok(lib) => lib.wf() && lib@ == shapes_view(shapes@),
                Err(LibraryError::ParentNotEarlier { shape }) => {
                    &&& shape < shapes@.len()
                    &&& forall|j: int|
                        0 <= j < shape ==> #[trigger] shape_in_order(shapes_view(shapes@), j)
                    &&& shapes@[shape as int].parent matches Some(p)
                    &&& p >= shape
                },
                Err(LibraryError::NotRefinement { shape }) => {
                    &&& shape < shapes@.len()
                    &&& forall|j: int|
                        0 <= j < shape ==> #[trigger] shape_in_order(shapes_view(shapes@), j)
                    &&& shapes@[shape as int].parent matches Some(p)
                    &&& p < shape
                    &&& !proper_subset(shapes@[shape as int].group@, shapes@[p as int].group@)
                },
            },
    {
        let ghost lib = shapes_view(shapes@);
        let mut i: usize = 0;
        while i < shapes.len()
            invariant
                i <= shapes.len(),
                lib == shapes_view(shapes@),
                forall|j: int| 0 <= j < i ==> #[trigger] shape_in_order(lib, j),
            decreases shapes.len() - i,
        {
            match shapes[i].parent {
                Some(p) => {
                    if p >= i {
                        return Err(LibraryError::ParentNotEarlier { shape: i });
                    }
                    if !is_proper_subset(shapes[i].group.as_slice(), shapes[p].group.as_slice()) {
                        return Err(LibraryError::NotRefinement { shape: i });
                    }
                },
                None => {},
            }
            assert(shape_in_order(lib, i as int));
            i = i + 1;
        }
        Ok(ShapeLibrary { shapes })
    }

    /// Number of shapes; the id that the next shape will get.
    pub fn len(&self) -> (n: usize)
        ensures
            n == self@.len(),
    {
        self.shapes.len()
    }

    /// The shape with the given id.
    pub fn get(&self, id: ShapeId) -> (r: Option<&Shape>)
        ensures
            match r {
                Some(shape) => id < self@.len() && shape@ == self@[id as int],
                None => id >= self@.len(),
            },
    {
        if id < self.shapes.len() {
            Some(&self.shapes[id])
        } else {
            None
        }
    }

    /// All shapes, in the order of their ids.
    pub fn shapes(&self) -> (r: &Vec<Shape>)
        ensures
            shapes_view(r@) == self@,
    {
        &self.shapes
    }

    /// The id of the shape filed under `(coords, parent)`, if there is one:
    /// a top-level shape has no parent, a refinement has the id of the
    /// shape that it refines.
    pub fn lookup_shape(&self, coords: &[Coord], parent: Option<ShapeId>) -> (r: Option<ShapeId>)
        ensures
            match r {
                Some(id) => index_of(self@, coords@, parent) == Some(id as int),
                None => index_of(self@, coords@, parent) is None,
            },
    {
        let mut i: usize = self.shapes.len();
        assert(self@.take(i as int) =~= self@);
        while i > 0
            invariant
                i <= self.shapes@.len(),
                index_of(self@, coords@, parent) == index_of(self@.take(i as int), coords@, parent),
            decreases i,
        {
            let ghost prefix = self@.take(i as int);
            i = i - 1;
            let shape = &self.shapes[i];
            let same_parent = match (shape.parent, parent) {
                (Some(a), Some(b)) => a == b,
                (None, None) => true,
                _ => false,
            };
            assert(prefix.last() == shape@);
            assert(prefix.drop_last() =~= self@.take(i as int));
            if same_parent && cells_equal(shape.group.as_slice(), coords) {
                return Some(i);
            }
        }
        None
    }

    /// Files a new, uncurated shape under `(coords, parent)` and returns its
    /// id. A refinement must hold some, but not all, of the cells of its
    /// parent, which must exist.
    pub fn register_shape(
        &mut self,
        coords: Vec<Coord>,
        parent: Option<ShapeId>,
        used_solutions: Option<Vec<usize>>,
    ) -> (id: ShapeId)
        requires
            old(self).wf(),
            parent matches Some(p) ==> p < old(self)@.len() && proper_subset(
                coords@,
                old(self)@[p as int].group,
            ),
        ensures
            final(self).wf(),
            id == old(self)@.len(),
            final(self)@ == old(self)@.push(
                ShapeView {
                    group: coords@,
                    solutions: None,
                    parent,
                    used_solutions: match used_solutions {
                        Some(v) => Some(v@),
                        None => None,
                    },
                },
            ),
            index_of(final(self)@, coords@, parent) == Some(id as int),
    {
        let id = self.shapes.len();
        let ghost before = self@;
        let shape = Shape { group: coords, solutions: None, parent, used_solutions };
        let ghost added = shape@;
        self.shapes.push(shape);
        proof {
            assert(self@ =~= before.push(added));
            assert forall|i: int| 0 <= i < self@.len() implies #[trigger] shape_in_order(
                self@,
                i,
            ) by {
                if i < before.len() {
                    assert(shape_in_order(before, i));
                }
            }
        }
        id
    }

    /// Replaces the candidate solutions of the shape `id`; says whether the
    /// shape exists.
    pub fn set_solutions(&mut self, id: ShapeId, solutions: Vec<Solution>) -> (done: bool)
        requires
            old(self).wf(),
        ensures
            final(self).wf(),
            done == (id < old(self)@.len()),
            final(self)@ == (if done {
                old(self)@.update(
                    id as int,
                    ShapeView { solutions: Some(solutions_view(solutions@)), ..old(self)@[id as int] },
                )
            } else {
                old(self)@
            }),
    {
        if id >= self.shapes.len() {
            return false;
        }
        let ghost before = self@;
        let old_shape = &self.shapes[id];
        let shape = Shape {
            group: copy_cells(old_shape.group.as_slice()),
            solutions: Some(solutions),
            parent: old_shape.parent,
            used_solutions: match &old_shape.used_solutions {
                Some(v) => Some(copy_indices(v)),
                None => None,
            },
        };
        self.shapes.set(id, shape);
        proof {
            assert(self@ =~= before.update(
                id as int,
                ShapeView { solutions: Some(solutions_view(solutions@)), ..before[id as int] },
            ));
            assert forall|i: int| 0 <= i < self@.len() implies #[trigger] shape_in_order(
                self@,
                i,
            ) by {
                assert(shape_in_order(before, i));
            }
        }
        true
    }

    /// The id of the first shape that has no solutions yet.
    pub fn first_uncurated(&self) -> (r: Option<ShapeId>)
        ensures
            match r {
                Some(id) => id < self@.len() && self@[id as int].solutions is None && forall|j: int|
                    0 <= j < id ==> (#[trigger] self@[j]).solutions is Some,
                None => forall|j: int| 0 <= j < self@.len() ==> (#[trigger] self@[j]).solutions is Some,
            },
    {
        let mut i: usize = 0;
        while i < self.shapes.len()
            invariant
                i <= self.shapes@.len(),
                forall|j: int| 0 <= j < i ==> (#[trigger] self@[j]).solutions is Some,
            decreases self.shapes.len() - i,
        {
            if self.shapes[i].solutions.is_none() {
                return Some(i);
            }
            i = i + 1;
        }
        None
    }
}

} // verus!
