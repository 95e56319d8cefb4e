//! The trial search: where propagation stalls, branch on the candidates of
//! a group.
//!
//! Every branch is a layer of patches over the shared grid with a cache of
//! its own. The split points are taken one after the other; at each, every
//! branch is replaced by one branch for each candidate of the group there
//! that can be propagated without inconsistency.

use vstd::prelude::*;
use crate::cache::{resolve_group, CacheModel, GroupCache};
use crate::cells::Coord;
use crate::driver::{
    fails_fairly, lemma_run_deterministic, resolve, run_ends_in, settle, state_of, try_solve,
    Failure, SolverState,
};
use crate::error::SolveError;
use crate::grid::{Board, Grid, TileStore};
use crate::overlay::MapWithPatches;
use crate::flood::open_cell;
use crate::shape::{extends, ShapeId, ShapeLibrary, ShapeView};
use crate::soundness::{
    consistent, kept, lemma_fresh_entry, lemma_kept_grows, lemma_kept_refl, lemma_kept_trans,
};
use crate::tile::UNPROCESSED;

verus! {

/// One branch of the search: the grid as the branch sees it, and its cache.
pub struct Branch<'a> {
    pub map: MapWithPatches<'a>,
    pub cached_groups: GroupCache,
}

/// The mathematical content of a branch.
pub struct BranchState {
    pub board: Board,
    pub cache: CacheModel,
}

impl<'a> View for Branch<'a> {
    type V = BranchState;

    open spec fn view(&self) -> BranchState {
        BranchState { board: self.map@, cache: self.cached_groups@ }
    }
}

impl<'a> Branch<'a> {
    /// The invariant of a branch.
    pub open spec fn wf(&self) -> bool {
        self.map.wf() && self.cached_groups.wf()
    }

    /// Whether the branch is a well-formed layer over the board `base`.
    pub open spec fn over(&self, base: Board) -> bool {
        self.wf() && self.map.base() == base
    }
}

/// The contents of a list of branches.
pub open spec fn branches_view(v: Seq<Branch>) -> Seq<BranchState> {
    Seq::new(v.len(), |i: int| v[i]@)
}

/// Where a search stands: the library, which all branches share, and the
/// branches.
pub struct Search {
    pub library: Seq<ShapeView>,
    pub branches: Seq<BranchState>,
}

/// Whether the branch keeps to `kept` from the start of the search, where
/// the search started from a consistent state.
pub open spec fn branch_kept(
    start: BranchState,
    first: Seq<ShapeView>,
    library: Seq<ShapeView>,
    branch: BranchState,
) -> bool {
    consistent(start.board, first, start.cache) ==> kept(
        state_of(start.board, first, start.cache, Seq::empty()),
        state_of(branch.board, library, branch.cache, Seq::empty()),
    )
}

/// Whether every branch keeps to `kept` from the start of the search.
pub open spec fn branches_kept(
    start: BranchState,
    first: Seq<ShapeView>,
    library: Seq<ShapeView>,
    branches: Seq<BranchState>,
) -> bool {
    forall|i: int|
        0 <= i < branches.len() ==> branch_kept(start, first, library, #[trigger] branches[i])
}

/// Whether a search that started from a consistent state could end in `e`:
/// it ends for a group without a top-level shape, or for a shape without
/// candidates. Where the search did not start from a consistent state,
/// nothing is said.
pub open spec fn search_ends_fairly(start: BranchState, first: Seq<ShapeView>, e: SolveError) -> bool {
    consistent(start.board, first, start.cache) ==> e is MissingShape || e is Uncurated
}

/// Branches that keep to `kept` do so when shapes are added to the library.
pub proof fn lemma_branches_kept_grow(
    start: BranchState,
    first: Seq<ShapeView>,
    library: Seq<ShapeView>,
    grown: Seq<ShapeView>,
    branches: Seq<BranchState>,
)
    requires
        branches_kept(start, first, library, branches),
        extends(grown, library),
    ensures
        branches_kept(start, first, grown, branches),
{
    assert forall|i: int| 0 <= i < branches.len() implies branch_kept(
        start,
        first,
        grown,
        #[trigger] branches[i],
    ) by {
        assert(branch_kept(start, first, library, branches[i]));
        if consistent(start.board, first, start.cache) {
            lemma_kept_grows(
                state_of(start.board, first, start.cache, Seq::empty()),
                state_of(branches[i].board, library, branches[i].cache, Seq::empty()),
                grown,
            );
        }
    }
}

/// The end of the run from `s`.
pub open spec fn run_end(s: SolverState) -> Result<SolverState, Failure> {
    choose|end: Result<SolverState, Failure>| run_ends_in(s, end)
}

/// The shape with the candidate at position `k` as its only candidate.
pub open spec fn only_candidate(shape: ShapeView, k: int) -> ShapeView {
    ShapeView { solutions: Some(seq![shape.solutions.unwrap()[k]]), ..shape }
}

/// One attempt: the group is solved by `shape`, and the driver runs on what
/// follows.
pub open spec fn attempt(
    library: Seq<ShapeView>,
    branch: BranchState,
    shape_id: ShapeId,
    shape: ShapeView,
    origin: Coord,
) -> Result<SolverState, Failure> {
    let s = state_of(branch.board, library, branch.cache, Seq::empty());
    match settle(s, Seq::empty(), shape_id, shape, branch.cache, origin) {
        Err(f) => Err(f),
        Ok(started) => run_end(started),
    }
}

/// The search after the first `k` candidates of `shape` were attempted on
/// `branch`: each attempt that ends well adds a branch, an inconsistent one
/// adds none, and any other error ends the search. The library keeps what
/// every attempt added to it.
pub open spec fn fork(
    search: Search,
    branch: BranchState,
    shape_id: ShapeId,
    shape: ShapeView,
    origin: Coord,
    k: int,
) -> Result<Search, Failure>
    decreases k,
{
    if k <= 0 {
        Ok(search)
    } else {
        match fork(search, branch, shape_id, shape, origin, k - 1) {
            Err(f) => Err(f),
            Ok(sofar) => match attempt(
                sofar.library,
                branch,
                shape_id,
                only_candidate(shape, k - 1),
                origin,
            ) {
                Ok(end) => Ok(
                    Search {
                        library: end.library,
                        branches: sofar.branches.push(
                            BranchState { board: end.board, cache: end.cache },
                        ),
                    },
                ),
                Err(f) => if f.error == SolveError::Inconsistent {
                    Ok(Search { library: f.library, branches: sofar.branches })
                } else {
                    Err(f)
                },
            },
        }
    }
}

/// The search after `branch` was taken to the split point `c`. A branch in
/// which the cell lies outside the grid or is no longer unprocessed stays as
/// it is. Any other branch is replaced by the branches of its group's
/// candidates.
pub open spec fn expand(search: Search, branch: BranchState, c: Coord) -> Result<Search, Failure> {
    if !branch.board.contains(c.0 as int, c.1 as int) || branch.board.tile(c.0 as int, c.1 as int)
        != UNPROCESSED {
        Ok(Search { branches: search.branches.push(branch), ..search })
    } else {
        match resolve(branch.board, search.library, branch.cache, c) {
            Err(e) => Err(Failure { error: e, library: search.library }),
            Ok((entry, cache)) => if entry.1 >= search.library.len() {
                Err(
                    Failure {
                        error: SolveError::UnknownShape { shape_id: entry.1 },
                        library: search.library,
                    },
                )
            } else {
                let shape = search.library[entry.1 as int];
                match shape.solutions {
                    None => Err(
                        Failure {
                            error: SolveError::Uncurated { shape_id: entry.1 },
                            library: search.library,
                        },
                    ),
                    Some(solutions) => fork(
                        search,
                        BranchState { board: branch.board, cache },
                        entry.1,
                        shape,
                        entry.0,
                        solutions.len() as int,
                    ),
                }
            },
        }
    }
}

/// The search after the first `k` branches of `frontier` were taken to the
/// split point `c`.
pub open spec fn level(
    library: Seq<ShapeView>,
    frontier: Seq<BranchState>,
    c: Coord,
    k: int,
) -> Result<Search, Failure>
    decreases k,
{
    if k <= 0 {
        Ok(Search { library, branches: Seq::empty() })
    } else {
        match level(library, frontier, c, k - 1) {
            Err(f) => Err(f),
            Ok(sofar) => expand(sofar, frontier[k - 1], c),
        }
    }
}

/// The search after `k` split points, taken from the end of `positions`.
pub open spec fn search_after(
    library: Seq<ShapeView>,
    start: BranchState,
    positions: Seq<Coord>,
    k: int,
) -> Result<Search, Failure>
    decreases k,
{
    if k <= 0 {
        Ok(Search { library, branches: seq![start] })
    } else {
        match search_after(library, start, positions, k - 1) {
            Err(f) => Err(f),
            Ok(sofar) => level(
                sofar.library,
                sofar.branches,
                positions[positions.len() - k],
                sofar.branches.len() as int,
            ),
        }
    }
}

/// Attempts every candidate of the shape `shape_id` on `branch`: see `fork`.
fn fork_branch<'a>(
    library: &mut ShapeLibrary,
    branch: &Branch<'a>,
    shape_id: ShapeId,
    min_x: usize,
    min_y: usize,
    next: &mut Vec<Branch<'a>>,
    Ghost(start): Ghost<BranchState>,
    Ghost(first): Ghost<Seq<ShapeView>>,
    Ghost(seed): Ghost<Coord>,
) -> (r: Result<(), SolveError>)
    requires
        old(library).wf(),
        branch.over(start.board),
        shape_id < old(library)@.len(),
        forall|i: int| 0 <= i < old(next)@.len() ==> (#[trigger] old(next)@[i]).over(start.board),
        open_cell(branch@.board, seed),
        branch@.cache.get(seed) == Some(((min_x, min_y), shape_id)),
        branch_kept(start, first, old(library)@, branch@),
        branches_kept(start, first, old(library)@, branches_view(old(next)@)),
    ensures
        final(library).wf(),
        extends(final(library)@, old(library)@),
        forall|i: int| 0 <= i < final(next)@.len() ==> (#[trigger] final(next)@[i]).over(start.board),
        branches_kept(start, first, final(library)@, branches_view(final(next)@)),
        r matches Err(e) ==> search_ends_fairly(start, first, e),
        ({
            let shape = old(library)@[shape_id as int];
            let before = Search { library: old(library)@, branches: branches_view(old(next)@) };
            match shape.solutions {
                None => r == Err::<(), SolveError>(SolveError::Uncurated { shape_id })
                    && final(library)@ == old(library)@,
                Some(solutions) => {
                    let want = fork(
                        before,
                        branch@,
                        shape_id,
                        shape,
                        (min_x, min_y),
                        solutions.len() as int,
                    );
                    match r {
                        Ok(()) => want == Ok::<Search, Failure>(
                            Search { library: final(library)@, branches: branches_view(final(next)@) },
                        ),
                        Err(e) => want == Err::<Search, Failure>(
                            Failure { error: e, library: final(library)@ },
                        ),
                    }
                },
            }
        }),
{
    let ghost lib0 = library@;
    let ghost next0 = branches_view(next@);
    let ghost before = Search { library: lib0, branches: next0 };
    let ghost origin: Coord = (min_x, min_y);
    let shape = match library.get(shape_id) {
        Some(shape) => shape.clone(),
        None => {
            return Err(SolveError::UnknownShape { shape_id });
        },
    };
    let solutions = match &shape.solutions {
        None => {
            return Err(SolveError::Uncurated { shape_id });
        },
        Some(solutions) => solutions,
    };
    let ghost sols = shape@.solutions.unwrap();
    let mut k: usize = 0;
    while k < solutions.len()
        invariant
            k <= solutions@.len(),
            library.wf(),
            branch.over(start.board),
            extends(library@, lib0),
            lib0 == old(library)@,
            shape_id < lib0.len(),
            shape@ == lib0[shape_id as int],
            shape.solutions == Some(*solutions),
            sols == shape@.solutions.unwrap(),
            sols.len() == solutions@.len(),
            origin == (min_x, min_y),
            before == (Search { library: lib0, branches: next0 }),
            next0 == branches_view(old(next)@),
            open_cell(branch@.board, seed),
            branch@.cache.get(seed) == Some(((min_x, min_y), shape_id)),
            branch_kept(start, first, library@, branch@),
            branches_kept(start, first, library@, branches_view(next@)),
            forall|i: int| 0 <= i < next@.len() ==> (#[trigger] next@[i]).over(start.board),
            fork(before, branch@, shape_id, shape@, origin, k as int) == Ok::<Search, Failure>(
                Search { library: library@, branches: branches_view(next@) },
            ),
        decreases solutions.len() - k,
    {
        let solution = &solutions[k];
        let one = shape.with_only(solution);
        let mut map = branch.map.clone();
        let mut cached_groups = branch.cached_groups.clone();
        let ghost here = library@;
        let ghost had = branches_view(next@);
        proof {
            assert(sols[k as int] == solution@);
            assert(one@ == only_candidate(shape@, k as int));
            assert(library@[shape_id as int] == lib0[shape_id as int]);
        }
        let tried = try_solve(library, &mut map, min_x, min_y, shape_id, &one, &mut cached_groups);
        proof {
            let s = state_of(branch@.board, here, branch@.cache, Seq::empty());
            let opening = settle(s, Seq::empty(), shape_id, one@, branch@.cache, origin);
            let end: Result<SolverState, Failure> = match tried {
                Ok(()) => Ok(state_of(map@, library@, cached_groups@, Seq::empty())),
                Err(e) => Err(Failure { error: e, library: library@ }),
            };
            match opening {
                Err(f) => {
                    assert(end == Err::<SolverState, Failure>(f));
                },
                Ok(started) => {
                    assert(run_ends_in(started, end));
                    assert(run_ends_in(started, run_end(started)));
                    lemma_run_deterministic(started, end, run_end(started));
                },
            }
            assert(attempt(here, branch@, shape_id, only_candidate(shape@, k as int), origin)
                == end);
            assert forall|i: int| 0 <= i < lib0.len() implies library@[i] == lib0[i] by {
                assert(here[i] == lib0[i]);
            }
            lemma_branches_kept_grow(start, first, here, library@, had);
            if consistent(start.board, first, start.cache) {
                assert(consistent(branch@.board, here, branch@.cache));
                assert(branch@.cache.get(seed) == Some(((min_x, min_y), shape_id)));
                assert(fails_fairly(tried));
                lemma_kept_grows(
                    state_of(start.board, first, start.cache, Seq::empty()),
                    state_of(branch@.board, here, branch@.cache, Seq::empty()),
                    library@,
                );
            }
        }
        match tried {
            Ok(()) => {
                let ghost done = BranchState { board: map@, cache: cached_groups@ };
                next.push(Branch { map, cached_groups });
                proof {
                    assert(branches_view(next@) =~= had.push(done));
                    if consistent(start.board, first, start.cache) {
                        let s0 = state_of(start.board, first, start.cache, Seq::empty());
                        let s1 = state_of(branch@.board, here, branch@.cache, Seq::empty());
                        let s2 = state_of(done.board, library@, done.cache, Seq::empty());
                        assert(kept(s0, s1));
                        assert(kept(s1, s2));
                        lemma_kept_trans(s0, s1, s2);
                    }
                    assert forall|i: int| 0 <= i < branches_view(next@).len() implies branch_kept(
                        start,
                        first,
                        library@,
                        #[trigger] branches_view(next@)[i],
                    ) by {
                        if i < had.len() {
                            assert(branches_view(next@)[i] == had[i]);
                        }
                    }
                }
            },
            Err(e) => {
                if !e.abandons_branch() {
                    proof {
                        lemma_fork_error(
                            before,
                            branch@,
                            shape_id,
                            shape@,
                            origin,
                            k as int + 1,
                            sols.len() as int,
                        );
                    }
                    return Err(e);
                }
            },
        }
        k = k + 1;
    }
    Ok(())
}

/// An error after `k` candidates is the error of them all.
pub proof fn lemma_fork_error(
    search: Search,
    branch: BranchState,
    shape_id: ShapeId,
    shape: ShapeView,
    origin: Coord,
    k: int,
    n: int,
)
    requires
        0 <= k <= n,
        fork(search, branch, shape_id, shape, origin, k) is Err,
    ensures
        fork(search, branch, shape_id, shape, origin, n) == fork(
            search,
            branch,
            shape_id,
            shape,
            origin,
            k,
        ),
    decreases n,
{
    if k < n {
        lemma_fork_error(search, branch, shape_id, shape, origin, k, n - 1);
    }
}

/// An error after `k` branches is the error of the whole level.
pub proof fn lemma_level_error(
    library: Seq<ShapeView>,
    frontier: Seq<BranchState>,
    c: Coord,
    k: int,
    n: int,
)
    requires
        0 <= k <= n,
        level(library, frontier, c, k) is Err,
    ensures
        level(library, frontier, c, n) == level(library, frontier, c, k),
    decreases n,
{
    if k < n {
        lemma_level_error(library, frontier, c, k, n - 1);
    }
}

/// An error after `k` split points is the error of the whole search.
pub proof fn lemma_search_error(
    library: Seq<ShapeView>,
    start: BranchState,
    positions: Seq<Coord>,
    k: int,
    n: int,
)
    requires
        0 <= k <= n,
        search_after(library, start, positions, k) is Err,
    ensures
        search_after(library, start, positions, n) == search_after(library, start, positions, k),
    decreases n,
{
    if k < n {
        lemma_search_error(library, start, positions, k, n - 1);
    }
}

/// Takes one branch to the split point `(x, y)`: see `expand`.
fn expand_branch<'a>(
    library: &mut ShapeLibrary,
    branch: &Branch<'a>,
    x: usize,
    y: usize,
    next: &mut Vec<Branch<'a>>,
    Ghost(start): Ghost<BranchState>,
    Ghost(first): Ghost<Seq<ShapeView>>,
) -> (r: Result<(), SolveError>)
    requires
        old(library).wf(),
        branch.over(start.board),
        forall|i: int| 0 <= i < old(next)@.len() ==> (#[trigger] old(next)@[i]).over(start.board),
        branch_kept(start, first, old(library)@, branch@),
        branches_kept(start, first, old(library)@, branches_view(old(next)@)),
    ensures
        final(library).wf(),
        extends(final(library)@, old(library)@),
        forall|i: int| 0 <= i < final(next)@.len() ==> (#[trigger] final(next)@[i]).over(start.board),
        branches_kept(start, first, final(library)@, branches_view(final(next)@)),
        r matches Err(e) ==> search_ends_fairly(start, first, e),
        ({
            let before = Search { library: old(library)@, branches: branches_view(old(next)@) };
            let want = expand(before, branch@, (x, y));
            match r {
                Ok(()) => want == Ok::<Search, Failure>(
                    Search { library: final(library)@, branches: branches_view(final(next)@) },
                ),
                Err(e) => want == Err::<Search, Failure>(
                    Failure { error: e, library: final(library)@ },
                ),
            }
        }),
{
    let ghost had = branches_view(next@);
    let inside = x < branch.map.width() && y < branch.map.height();
    if !inside || branch.map.get(x, y) != UNPROCESSED {
        next.push(Branch { map: branch.map.clone(), cached_groups: branch.cached_groups.clone() });
        proof {
            assert(branches_view(next@) =~= had.push(branch@));
            assert forall|i: int| 0 <= i < branches_view(next@).len() implies branch_kept(
                start,
                first,
                library@,
                #[trigger] branches_view(next@)[i],
            ) by {
                if i < had.len() {
                    assert(branches_view(next@)[i] == had[i]);
                }
            }
        }
        return Ok(());
    }
    let mut cached_groups = branch.cached_groups.clone();
    let entry = match resolve_group(&branch.map, &*library, &mut cached_groups, x, y) {
        Ok(entry) => entry,
        Err(e) => {
            return Err(e);
        },
    };
    let shape_id = entry.1;
    proof {
        if consistent(start.board, first, start.cache) {
            assert(open_cell(branch@.board, (x, y)));
            assert(cached_groups@.map.contains_key((x, y)));
            assert(crate::soundness::good_entry(
                branch@.board,
                library@,
                cached_groups@,
                (x, y),
                entry,
            ));
        }
    }
    if shape_id >= library.len() {
        return Err(SolveError::UnknownShape { shape_id });
    }
    let resolved = Branch { map: branch.map.clone(), cached_groups };
    proof {
        branch.map.lemma_board_wf();
        if consistent(start.board, first, start.cache) {
            let s0 = state_of(start.board, first, start.cache, Seq::empty());
            let s1 = state_of(branch@.board, library@, branch@.cache, Seq::empty());
            let s2 = state_of(resolved@.board, library@, resolved@.cache, Seq::empty());
            assert(kept(s0, s1));
            if branch@.cache.get((x, y)) is None {
                lemma_fresh_entry(branch@.board, library@, branch@.cache, (x, y));
            }
            assert(consistent(s2.board, s2.library, s2.cache));
            lemma_kept_refl(s2);
            assert(kept(s0, s2));
        }
    }
    fork_branch(
        library,
        &resolved,
        shape_id,
        entry.0.0,
        entry.0.1,
        next,
        Ghost(start),
        Ghost(first),
        Ghost((x, y)),
    )
}

/// Takes every branch of `frontier` to the split point `c`: see `level`.
fn advance<'a>(
    library: &mut ShapeLibrary,
    frontier: &Vec<Branch<'a>>,
    c: Coord,
    Ghost(start): Ghost<BranchState>,
    Ghost(first): Ghost<Seq<ShapeView>>,
) -> (r: Result<Vec<Branch<'a>>, SolveError>)
    requires
        old(library).wf(),
        forall|i: int| 0 <= i < frontier@.len() ==> (#[trigger] frontier@[i]).over(start.board),
        branches_kept(start, first, old(library)@, branches_view(frontier@)),
    ensures
        final(library).wf(),
        extends(final(library)@, old(library)@),
        r matches Ok(next) ==> branches_kept(start, first, final(library)@, branches_view(next@)),
        r matches Err(e) ==> search_ends_fairly(start, first, e),
        ({
            let want = level(
                old(library)@,
                branches_view(frontier@),
                c,
                frontier@.len() as int,
            );
            match r {
                Ok(next) => want == Ok::<Search, Failure>(
                    Search { library: final(library)@, branches: branches_view(next@) },
                ) && forall|i: int| 0 <= i < next@.len() ==> (#[trigger] next@[i]).over(start.board),
                Err(e) => want == Err::<Search, Failure>(
                    Failure { error: e, library: final(library)@ },
                ),
            }
        }),
{
    let ghost here = library@;
    let ghost front = branches_view(frontier@);
    let mut next: Vec<Branch<'a>> = Vec::new();
    let mut k: usize = 0;
    proof {
        assert(branches_view(next@) =~= Seq::<BranchState>::empty());
    }
    while k < frontier.len()
        invariant
            k <= frontier@.len(),
            library.wf(),
            here == old(library)@,
            extends(library@, here),
            front == branches_view(frontier@),
            forall|i: int| 0 <= i < frontier@.len() ==> (#[trigger] frontier@[i]).over(start.board),
            forall|i: int| 0 <= i < next@.len() ==> (#[trigger] next@[i]).over(start.board),
            branches_kept(start, first, library@, front),
            branches_kept(start, first, library@, branches_view(next@)),
            level(here, front, c, k as int) == Ok::<Search, Failure>(
                Search { library: library@, branches: branches_view(next@) },
            ),
        decreases frontier.len() - k,
    {
        assert(frontier@[k as int].wf());
        assert(front[k as int] == frontier@[k as int]@);
        let ghost mid = library@;
        assert(branch_kept(start, first, mid, front[k as int]));
        let expanded = expand_branch(
            library,
            &frontier[k],
            c.0,
            c.1,
            &mut next,
            Ghost(start),
            Ghost(first),
        );
        proof {
            assert forall|i: int| 0 <= i < here.len() implies library@[i] == here[i] by {
                assert(mid[i] == here[i]);
            }
            lemma_branches_kept_grow(start, first, mid, library@, front);
        }
        match expanded {
            Err(e) => {
                proof {
                    lemma_level_error(here, front, c, k as int + 1, front.len() as int);
                }
                return Err(e);
            },
            Ok(()) => {},
        }
        k = k + 1;
    }
    Ok(next)
}

/// The trial search over the split points `initial_positions`, which are
/// taken from the end. Returns the branches that came through all of them,
/// in the order in which a breadth-first search completes them: see
/// `search_after`. An inconsistent attempt is dropped without a trace; any
/// other error ends the search. Every branch that comes out is a layer over
/// `real_map`, which stays as it is. Where the search starts from a
/// consistent state, every branch keeps to `kept` from there, and the
/// search ends early only for a group without a top-level shape or for a
/// shape without candidates.
pub fn breadth_first_solver<'a>(
    real_map: &'a Grid,
    initial_cached_groups: GroupCache,
    initial_positions: Vec<Coord>,
    library: &mut ShapeLibrary,
) -> (r: Result<Vec<Branch<'a>>, SolveError>)
    requires
        real_map.wf(),
        initial_cached_groups.wf(),
        old(library).wf(),
    ensures
        final(library).wf(),
        extends(final(library)@, old(library)@),
        ({
            let start = BranchState { board: real_map@, cache: initial_cached_groups@ };
            let want = search_after(
                old(library)@,
                start,
                initial_positions@,
                initial_positions@.len() as int,
            );
            match r {
                Ok(branches) => {
                    &&& want == Ok::<Search, Failure>(
                        Search { library: final(library)@, branches: branches_view(branches@) },
                    )
                    &&& forall|i: int| 0 <= i < branches@.len() ==> (#[trigger] branches@[i]).over(start.board)
                    &&& branches_kept(
                        start,
                        old(library)@,
                        final(library)@,
                        branches_view(branches@),
                    )
                },
                Err(e) => want == Err::<Search, Failure>(
                    Failure { error: e, library: final(library)@ },
                ) && search_ends_fairly(start, old(library)@, e),
            }
        }),
{
    let ghost lib0 = library@;
    let ghost start = BranchState { board: real_map@, cache: initial_cached_groups@ };
    let ghost positions = initial_positions@;
    let mut frontier: Vec<Branch<'a>> = Vec::new();
    frontier.push(Branch { map: MapWithPatches::new(real_map), cached_groups: initial_cached_groups });
    proof {
        assert(branches_view(frontier@) =~= seq![start]);
        real_map.lemma_board_wf();
        if consistent(start.board, lib0, start.cache) {
            lemma_kept_refl(state_of(start.board, lib0, start.cache, Seq::empty()));
        }
    }
    let total = initial_positions.len();
    let mut done: usize = 0;
    while done < total
        invariant
            done <= total,
            total == positions.len(),
            positions == initial_positions@,
            lib0 == old(library)@,
            start == (BranchState { board: real_map@, cache: initial_cached_groups@ }),
            library.wf(),
            extends(library@, lib0),
            forall|i: int| 0 <= i < frontier@.len() ==> (#[trigger] frontier@[i]).over(start.board),
            branches_kept(start, lib0, library@, branches_view(frontier@)),
            search_after(lib0, start, positions, done as int) == Ok::<Search, Failure>(
                Search { library: library@, branches: branches_view(frontier@) },
            ),
        decreases total - done,
    {
        let c = initial_positions[total - 1 - done];
        let ghost here = library@;
        let advanced = advance(library, &frontier, c, Ghost(start), Ghost(lib0));
        proof {
            assert forall|i: int| 0 <= i < lib0.len() implies library@[i] == lib0[i] by {
                assert(here[i] == lib0[i]);
            }
        }
        match advanced {
            Err(e) => {
                proof {
                    lemma_search_error(
                        lib0,
                        start,
                        positions,
                        done as int + 1,
                        positions.len() as int,
                    );
                }
                return Err(e);
            },
            Ok(next) => {
                frontier = next;
            },
        }
        done = done + 1;
    }
    Ok(frontier)
}

} // verus!
