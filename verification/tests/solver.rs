use tools::{
    apply_patches, breadth_first_solver, canonical_group_at, find_solution_valid_at, get_group,
    resolve_group,
    has_locally_unique_solution, propagate, solve_step, try_solve, Grid, GroupCache,
    LibraryError, MapWithPatches, Shape, ShapeLibrary, SolveError, TileStore, ACTIVE, NOT_ACTIVE,
};

fn grid_of(rows: &[&[u8]]) -> Grid {
    let height = rows.len();
    let width = rows[0].len();
    let mut data = Vec::new();
    for row in rows {
        assert_eq!(row.len(), width);
        data.extend_from_slice(row);
    }
    Grid::from_bytes(width, height, data).unwrap()
}

fn rows_of(grid: &Grid) -> Vec<Vec<u8>> {
    let bytes = grid.to_bytes();
    bytes.chunks(grid.width()).map(|row| row.to_vec()).collect()
}

fn top_level(group: &[(usize, usize)], solutions: Option<Vec<Vec<(usize, usize)>>>) -> Shape {
    Shape { group: group.to_vec(), solutions, parent: None, used_solutions: None }
}

fn library_of(shapes: Vec<Shape>) -> ShapeLibrary {
    ShapeLibrary::from_shapes(shapes).unwrap()
}

#[test]
fn library_lookup_and_register() {
    let mut library = ShapeLibrary::new();
    assert_eq!(library.len(), 0);
    assert_eq!(library.lookup_shape(&[(0, 0)], None), None);
    let a = library.register_shape(vec![(0, 0), (1, 0)], None, None);
    let b = library.register_shape(vec![(0, 0)], Some(a), Some(vec![0, 2]));
    let c = library.register_shape(vec![(0, 0)], None, None);
    assert_eq!((a, b, c), (0, 1, 2));
    assert_eq!(library.len(), 3);
    assert_eq!(library.lookup_shape(&[(0, 0), (1, 0)], None), Some(0));
    assert_eq!(library.lookup_shape(&[(0, 0)], Some(0)), Some(1));
    assert_eq!(library.lookup_shape(&[(0, 0)], None), Some(2));
    assert_eq!(library.lookup_shape(&[(0, 0)], Some(1)), None);
    assert_eq!(library.lookup_shape(&[(1, 0), (0, 0)], None), None);
    let child = library.get(1).unwrap();
    assert_eq!(child.parent, Some(0));
    assert_eq!(child.used_solutions, Some(vec![0, 2]));
    assert!(child.solutions.is_none());
    assert!(library.get(3).is_none());
    assert_eq!(library.shapes().len(), 3);
}

#[test]
fn library_lookup_finds_the_last_of_equal_keys() {
    let library = library_of(vec![
        top_level(&[(0, 0)], None),
        top_level(&[(0, 0), (0, 1)], None),
        top_level(&[(0, 0)], Some(vec![vec![]])),
    ]);
    assert_eq!(library.lookup_shape(&[(0, 0)], None), Some(2));
    assert_eq!(library.lookup_shape(&[(0, 0), (0, 1)], None), Some(1));
}

#[test]
fn library_rejects_a_parent_that_is_not_earlier() {
    let orphan = Shape { group: vec![(0, 0)], solutions: None, parent: Some(1), used_solutions: None };
    let r = ShapeLibrary::from_shapes(vec![top_level(&[(0, 0), (1, 0)], None), orphan]);
    assert_eq!(r.err(), Some(LibraryError::ParentNotEarlier { shape: 1 }));
}

#[test]
fn library_rejects_a_child_that_is_no_proper_part() {
    let same = Shape {
        group: vec![(0, 0), (1, 0)],
        solutions: None,
        parent: Some(0),
        used_solutions: None,
    };
    let r = ShapeLibrary::from_shapes(vec![top_level(&[(0, 0), (1, 0)], None), same]);
    assert_eq!(r.err(), Some(LibraryError::NotRefinement { shape: 1 }));
    let foreign =
        Shape { group: vec![(5, 5)], solutions: None, parent: Some(0), used_solutions: None };
    let r = ShapeLibrary::from_shapes(vec![top_level(&[(0, 0), (1, 0)], None), foreign]);
    assert_eq!(r.err(), Some(LibraryError::NotRefinement { shape: 1 }));
}

#[test]
fn library_curation() {
    let mut library = library_of(vec![top_level(&[(0, 0)], None), top_level(&[(0, 0), (1, 0)], None)]);
    assert_eq!(library.first_uncurated(), Some(0));
    assert!(library.set_solutions(0, vec![vec![(0, 0)], vec![]]));
    assert_eq!(library.first_uncurated(), Some(1));
    assert!(library.set_solutions(1, vec![vec![(1, 0)]]));
    assert_eq!(library.first_uncurated(), None);
    assert!(!library.set_solutions(2, vec![]));
    assert_eq!(library.get(0).unwrap().solutions, Some(vec![vec![(0, 0)], vec![]]));
    assert_eq!(library.get(0).unwrap().group, vec![(0, 0)]);
    let copy = library.get(1).unwrap().clone();
    assert_eq!(copy.solutions, Some(vec![vec![(1, 0)]]));
    assert_eq!(copy.with_only(&vec![(0, 0)]).solutions, Some(vec![vec![(0, 0)]]));
}

#[test]
fn cache_keeps_entries_in_order() {
    let mut cache = GroupCache::new();
    assert_eq!(cache.len(), 0);
    assert_eq!(cache.get(3, 4), None);
    cache.insert(3, 4, ((1, 2), 7));
    cache.insert(0, 9, ((0, 9), 1));
    cache.insert(3, 4, ((1, 2), 8));
    assert_eq!(cache.len(), 2);
    assert_eq!(cache.get(3, 4), Some(((1, 2), 8)));
    assert_eq!(cache.get(4, 3), None);
    assert_eq!(cache.entries(), vec![((3, 4), ((1, 2), 8)), ((0, 9), ((0, 9), 1))]);
    let again = GroupCache::from_entries(&cache.entries()).unwrap();
    assert_eq!(again.entries(), cache.entries());
    let mut copy = cache.clone();
    copy.insert(1, 1, ((1, 1), 0));
    assert_eq!(cache.get(1, 1), None);
    assert_eq!(copy.len(), 3);
    if usize::BITS > 32 {
        let far = (u32::MAX as usize) + 1;
        assert_eq!(cache.get(far, 0), None);
        assert!(GroupCache::from_entries(&[((far, 0), ((0, 0), 0))]).is_none());
    }
}

#[test]
fn resolve_fills_the_cache() {
    let grid = grid_of(&[&[0, 0, 0, 0], &[0, 5, 5, 0], &[0, 0, 5, 0]]);
    let library = library_of(vec![
        top_level(&[(0, 0)], None),
        top_level(&[(0, 0), (1, 0), (1, 1)], None),
    ]);
    let mut cache = GroupCache::new();
    assert_eq!(get_group(&grid, &library, &mut cache, 2, 2), ((1, 1), 1));
    assert_eq!(cache.entries(), vec![((2, 2), ((1, 1), 1))]);
    assert_eq!(resolve_group(&grid, &library, &mut cache, 1, 1), Ok(((1, 1), 1)));
    assert_eq!(cache.len(), 2);
    cache.insert(2, 1, ((9, 9), 0));
    assert_eq!(get_group(&grid, &library, &mut cache, 2, 1), ((9, 9), 0));
    assert_eq!(cache.len(), 3);
}

#[test]
fn cached_cell_is_answered_whatever_the_grid_holds() {
    let grid = grid_of(&[&[0, 6, 5]]);
    let library = library_of(vec![top_level(&[(0, 0)], None)]);
    let mut cache = GroupCache::new();
    cache.insert(0, 0, ((4, 4), 9));
    cache.insert(1, 0, ((1, 0), 0));
    cache.insert(7, 7, ((2, 3), 5));
    let before = cache.entries();
    // background, a decided cell, and a cell outside the grid
    assert_eq!(get_group(&grid, &library, &mut cache, 0, 0), ((4, 4), 9));
    assert_eq!(get_group(&grid, &library, &mut cache, 1, 0), ((1, 0), 0));
    assert_eq!(get_group(&grid, &library, &mut cache, 7, 7), ((2, 3), 5));
    assert_eq!(resolve_group(&grid, &library, &mut cache, 7, 7), Ok(((2, 3), 5)));
    assert_eq!(cache.entries(), before);
}

#[test]
fn canonical_form_of_the_group_at_a_cell() {
    let grid = grid_of(&[&[0, 0, 0, 0], &[0, 5, 5, 0], &[0, 0, 5, 0]]);
    assert_eq!(canonical_group_at(&grid, 2, 2), vec![(0, 0), (1, 0), (1, 1)]);
    assert_eq!(canonical_group_at(&grid, 1, 1), vec![(0, 0), (1, 0), (1, 1)]);
}

#[test]
fn resolve_fails_without_a_top_level_shape() {
    let grid = grid_of(&[&[5, 5]]);
    let mut library = library_of(vec![top_level(&[(0, 0)], None)]);
    let parent = library.register_shape(vec![(0, 0), (1, 0), (2, 0)], None, None);
    library.register_shape(vec![(0, 0), (1, 0)], Some(parent), None);
    let mut cache = GroupCache::new();
    assert_eq!(
        resolve_group(&grid, &library, &mut cache, 1, 0),
        Err(SolveError::MissingShape { x: 1, y: 0 })
    );
    assert_eq!(cache.len(), 0);
}

#[test]
fn candidate_patches_cover_the_shape() {
    let grid = grid_of(&[&[0, 0, 0, 0], &[0, 5, 5, 0], &[0, 0, 0, 0]]);
    let shape = top_level(&[(0, 0), (1, 0)], None);
    assert_eq!(
        find_solution_valid_at(&grid, &shape, &vec![(1, 0)], 1, 1),
        Some(vec![((1, 1), NOT_ACTIVE), ((2, 1), ACTIVE)])
    );
    assert_eq!(
        find_solution_valid_at(&grid, &shape, &vec![], 1, 1),
        Some(vec![((1, 1), NOT_ACTIVE), ((2, 1), NOT_ACTIVE)])
    );
}

#[test]
fn candidate_rejected_when_clue_would_drop_below_one() {
    // the clue of 1 above the left cell takes no active neighbour
    let grid = grid_of(&[&[0, 1, 0, 0], &[0, 5, 5, 0]]);
    let shape = top_level(&[(0, 0), (1, 0)], None);
    assert_eq!(find_solution_valid_at(&grid, &shape, &vec![(0, 0)], 1, 1), None);
    assert_eq!(
        find_solution_valid_at(&grid, &shape, &vec![(1, 0)], 1, 1),
        Some(vec![((1, 1), NOT_ACTIVE), ((2, 1), ACTIVE)])
    );
    // a clue of 2 between two cells of the shape takes one of them, not both
    let grid = grid_of(&[&[5, 2, 5]]);
    let shape = top_level(&[(0, 0), (2, 0)], None);
    assert_eq!(find_solution_valid_at(&grid, &shape, &vec![(0, 0), (2, 0)], 0, 0), None);
    assert!(find_solution_valid_at(&grid, &shape, &vec![(2, 0)], 0, 0).is_some());
}

#[test]
fn candidate_rejected_when_need_exceeds_free_neighbours() {
    // the clue of 3 needs two more active cells and has one free neighbour
    let grid = grid_of(&[&[0, 5, 0], &[5, 3, 0], &[0, 0, 0]]);
    let shape = top_level(&[(0, 0)], None);
    assert_eq!(find_solution_valid_at(&grid, &shape, &vec![], 1, 0), None);
    assert_eq!(
        find_solution_valid_at(&grid, &shape, &vec![(0, 0)], 1, 0),
        Some(vec![((1, 0), ACTIVE)])
    );
    // with a second free neighbour the need of two can be met
    let grid = grid_of(&[&[0, 5, 0], &[5, 3, 5], &[0, 0, 0]]);
    assert_eq!(
        find_solution_valid_at(&grid, &shape, &vec![], 1, 0),
        Some(vec![((1, 0), NOT_ACTIVE)])
    );
}

#[test]
fn cells_of_the_shape_do_not_count_as_free() {
    // both unprocessed neighbours of the clue belong to the shape
    let grid = grid_of(&[&[5, 2, 5]]);
    let shape = top_level(&[(0, 0), (2, 0)], None);
    assert_eq!(find_solution_valid_at(&grid, &shape, &vec![], 0, 0), None);
    assert!(find_solution_valid_at(&grid, &shape, &vec![(0, 0)], 0, 0).is_some());
}

#[test]
fn uniqueness_domino_with_clue_of_two() {
    // domino at (1,1),(2,1); clue of 2 above its first cell; no other
    // unprocessed cell beside the clue
    let grid = grid_of(&[&[0, 2, 0, 0], &[0, 5, 5, 0]]);
    let domino = top_level(&[(0, 0), (1, 0)], Some(vec![vec![(0, 0)], vec![(1, 0)]]));
    let mut library = library_of(vec![domino.clone()]);
    let mut cache = GroupCache::new();
    // the first candidate leaves the clue at 1 with nothing more needed
    assert!(find_solution_valid_at(&grid, &domino, &vec![(0, 0)], 1, 1).is_some());
    // the second leaves it in need of one active cell that nothing can give
    assert_eq!(find_solution_valid_at(&grid, &domino, &vec![(1, 0)], 1, 1), None);
    let r = has_locally_unique_solution(&grid, 0, &domino, &mut library, &mut cache, 1, 1);
    assert_eq!(r, Ok(Some(vec![((1, 1), ACTIVE), ((2, 1), NOT_ACTIVE)])));
    assert_eq!(library.len(), 1);
    assert_eq!(cache.len(), 0);
}

#[test]
fn uniqueness_full_disagreement_gives_no_patches() {
    // both candidates are feasible and differ on every cell
    let grid = grid_of(&[&[0, 0, 0, 0], &[0, 5, 5, 0]]);
    let domino = top_level(&[(0, 0), (1, 0)], Some(vec![vec![(0, 0)], vec![(1, 0)]]));
    let mut library = library_of(vec![domino.clone()]);
    let mut cache = GroupCache::new();
    let r = has_locally_unique_solution(&grid, 0, &domino, &mut library, &mut cache, 1, 1);
    assert_eq!(r, Ok(None));
    assert_eq!(library.len(), 1);
    assert_eq!(cache.len(), 0);
}

#[test]
fn uniqueness_forced_cell() {
    let grid = grid_of(&[&[0, 0, 0, 0, 0], &[0, 0, 5, 5, 5], &[0, 0, 0, 0, 0]]);
    let tromino = top_level(
        &[(0, 0), (1, 0), (2, 0)],
        Some(vec![vec![(0, 0), (2, 0)], vec![(0, 0), (1, 0)]]),
    );
    let mut library = library_of(vec![top_level(&[(0, 0)], None), tromino.clone()]);
    let mut cache = GroupCache::new();
    let r = has_locally_unique_solution(&grid, 1, &tromino, &mut library, &mut cache, 2, 1);
    assert_eq!(r, Ok(Some(vec![((2, 1), ACTIVE)])));
    assert_eq!(library.len(), 3);
    let child = library.get(2).unwrap();
    assert_eq!(child.group, vec![(1, 0), (2, 0)]);
    assert_eq!(child.parent, Some(1));
    assert_eq!(child.used_solutions, Some(vec![0, 1]));
    assert!(child.solutions.is_none());
    assert_eq!(library.lookup_shape(&[(1, 0), (2, 0)], Some(1)), Some(2));
    assert_eq!(cache.entries(), vec![((3, 1), ((2, 1), 2)), ((4, 1), ((2, 1), 2))]);
    // the same split a second time finds the refinement again
    let r = has_locally_unique_solution(&grid, 1, &tromino, &mut library, &mut cache, 2, 1);
    assert_eq!(r, Ok(Some(vec![((2, 1), ACTIVE)])));
    assert_eq!(library.len(), 3);
    assert_eq!(cache.len(), 2);
}

#[test]
fn uniqueness_records_feasible_candidates_only() {
    // the clue of 1 beside the last cell rules out the first candidate
    let grid = grid_of(&[&[5, 5, 5, 1]]);
    let tromino = top_level(
        &[(0, 0), (1, 0), (2, 0)],
        Some(vec![vec![(2, 0)], vec![(0, 0)], vec![(1, 0)], vec![(0, 0), (2, 0)]]),
    );
    let mut library = library_of(vec![tromino.clone()]);
    let mut cache = GroupCache::new();
    let r = has_locally_unique_solution(&grid, 0, &tromino, &mut library, &mut cache, 0, 0);
    assert_eq!(r, Ok(Some(vec![((2, 0), NOT_ACTIVE)])));
    let child = library.get(1).unwrap();
    assert_eq!(child.group, vec![(0, 0), (1, 0)]);
    assert_eq!(child.used_solutions, Some(vec![1, 2]));
}

#[test]
fn uniqueness_without_solutions_or_feasible_candidates() {
    let grid = grid_of(&[&[5, 1]]);
    let mut cache = GroupCache::new();
    let bare = top_level(&[(0, 0)], None);
    let mut library = library_of(vec![bare.clone()]);
    assert_eq!(has_locally_unique_solution(&grid, 0, &bare, &mut library, &mut cache, 0, 0), Ok(None));
    let wrong = top_level(&[(0, 0)], Some(vec![vec![(0, 0)]]));
    assert_eq!(
        has_locally_unique_solution(&grid, 0, &wrong, &mut library, &mut cache, 0, 0),
        Err(SolveError::Inconsistent)
    );
    let empty = top_level(&[(0, 0)], Some(vec![]));
    assert_eq!(
        has_locally_unique_solution(&grid, 0, &empty, &mut library, &mut cache, 0, 0),
        Err(SolveError::Inconsistent)
    );
    let fine = top_level(&[(0, 0)], Some(vec![vec![]]));
    assert_eq!(
        has_locally_unique_solution(&grid, 0, &fine, &mut library, &mut cache, 2, 0),
        Err(SolveError::OutOfBounds { shape_id: 0 })
    );
    assert_eq!(library.len(), 1);
    assert_eq!(cache.len(), 0);
}

#[test]
fn clue_decrement_cascade() {
    let mut rows = vec![vec![0u8; 8]; 8];
    rows[5][5] = 2;
    rows[4][5] = 5;
    let slices: Vec<&[u8]> = rows.iter().map(|r| r.as_slice()).collect();
    let mut grid = grid_of(&slices);
    let mut todo = Vec::new();
    let r = apply_patches(&mut grid, &mut todo, &vec![((5, 4), ACTIVE)]);
    assert_eq!(r, Ok(()));
    assert_eq!(grid.get(5, 4), 7);
    assert_eq!(grid.get(5, 5), 1);
    assert_eq!(todo, vec![(5, 6), (6, 5), (5, 4), (4, 5)]);
    assert!(todo.contains(&(4, 5)) && todo.contains(&(6, 5)) && todo.contains(&(5, 6)));
}

#[test]
fn clue_of_one_cannot_be_lowered() {
    let mut grid = grid_of(&[&[5, 1, 0]]);
    let mut todo = Vec::new();
    let r = apply_patches(&mut grid, &mut todo, &vec![((0, 0), ACTIVE)]);
    assert_eq!(r, Err(SolveError::ClueUnderflow { x: 1, y: 0 }));
}

#[test]
fn inactive_cell_requeues_without_lowering() {
    let mut grid = grid_of(&[&[0, 3, 0], &[5, 5, 2], &[0, 0, 0]]);
    let mut todo = vec![(9, 9)];
    let r = apply_patches(&mut grid, &mut todo, &vec![((1, 1), NOT_ACTIVE)]);
    assert_eq!(r, Ok(()));
    assert_eq!(rows_of(&grid), vec![vec![0, 3, 0], vec![5, 6, 2], vec![0, 0, 0]]);
    // below: none; right: the clue (2,1); above: the clue (1,0); left: no clue
    assert_eq!(todo, vec![(9, 9), (2, 2), (2, 0), (1, 1), (1, 1), (2, 0), (0, 0)]);
}

#[test]
fn unchanged_cell_requeues_nothing() {
    let mut grid = grid_of(&[&[7, 2, 0]]);
    let mut todo = Vec::new();
    assert_eq!(apply_patches(&mut grid, &mut todo, &vec![((0, 0), ACTIVE)]), Ok(()));
    assert_eq!(grid.to_bytes(), vec![7, 2, 0]);
    assert!(todo.is_empty());
}

#[test]
fn step_skips_cells_that_are_not_unprocessed() {
    let mut grid = grid_of(&[&[0, 6, 5]]);
    let mut library = library_of(vec![top_level(&[(0, 0)], None)]);
    let mut cache = GroupCache::new();
    let mut todo = vec![(2, 0), (1, 0), (0, 0), (3, 0), (0, 1)];
    for left in (1..5).rev() {
        assert_eq!(solve_step(&mut grid, &mut library, &mut cache, &mut todo), Ok(()));
        assert_eq!(todo.len(), left);
        assert_eq!(cache.len(), 0);
    }
    assert_eq!(solve_step(&mut grid, &mut library, &mut cache, &mut todo), Ok(()));
    assert!(todo.is_empty());
    assert_eq!(cache.entries(), vec![((2, 0), ((2, 0), 0))]);
    assert_eq!(grid.to_bytes(), vec![0, 6, 5]);
}

fn chain_library() -> ShapeLibrary {
    library_of(vec![
        // a single cell is active or not
        top_level(&[(0, 0)], Some(vec![vec![(0, 0)], vec![]])),
        // a horizontal domino has one active cell
        top_level(&[(0, 0), (1, 0)], Some(vec![vec![(0, 0)], vec![(1, 0)]])),
    ])
}

#[test]
fn propagation_cascades_through_clues() {
    // the clue of 2 forces the single cell, which lowers the clue between it
    // and the domino to 1, which then decides the domino
    let mut grid = grid_of(&[&[0, 0, 0, 0, 0, 0], &[2, 5, 2, 5, 5, 0], &[0, 0, 0, 0, 0, 0]]);
    let mut library = chain_library();
    let mut cache = GroupCache::new();
    assert_eq!(propagate(&mut grid, &mut library, &mut cache, vec![(3, 1)]), Ok(()));
    // from the domino alone nothing is forced: its first cell may or may not
    // be the one that the clue needs
    assert_eq!(rows_of(&grid)[1], vec![2, 5, 2, 5, 5, 0]);
    assert_eq!(propagate(&mut grid, &mut library, &mut cache, vec![(1, 1)]), Ok(()));
    assert_eq!(rows_of(&grid)[1], vec![1, 7, 1, 6, 7, 0]);
    assert_eq!(library.len(), 2);
}

#[test]
fn propagation_is_deterministic() {
    let rows: [&[u8]; 3] = [&[0, 0, 0, 0, 0, 0], &[2, 5, 2, 5, 5, 0], &[0, 5, 0, 0, 5, 0]];
    let mut results = Vec::new();
    for _ in 0..2 {
        let mut grid = grid_of(&rows);
        let mut library = library_of(vec![
            top_level(&[(0, 0)], Some(vec![vec![(0, 0)], vec![]])),
            top_level(&[(0, 0), (0, 1)], Some(vec![vec![(0, 0)], vec![(0, 0), (0, 1)]])),
            top_level(
                &[(0, 0), (1, 0), (1, 1)],
                Some(vec![vec![(0, 0)], vec![(1, 0)], vec![(1, 0), (1, 1)]]),
            ),
        ]);
        let mut cache = GroupCache::new();
        let seeds = vec![(4, 2), (1, 1), (3, 1)];
        assert_eq!(propagate(&mut grid, &mut library, &mut cache, seeds), Ok(()));
        let shapes: Vec<_> = library
            .shapes()
            .iter()
            .map(|s| (s.group.clone(), s.parent, s.used_solutions.clone()))
            .collect();
        results.push((grid.to_bytes(), shapes, cache.entries()));
    }
    assert_eq!(results[0], results[1]);
    assert_eq!(results[0].0, vec![0, 0, 0, 0, 0, 0, 1, 7, 1, 6, 7, 0, 0, 5, 0, 0, 5, 0]);
    assert_eq!(results[0].1.len(), 5);
    assert_eq!(results[0].1[3], (vec![(0, 1)], Some(1), Some(vec![0, 1])));
    assert_eq!(results[0].1[4], (vec![(1, 1)], Some(2), Some(vec![1, 2])));
}

#[test]
fn propagation_reports_inconsistency() {
    // the cell must be active for the clue of 2, and must not for the clue of 1
    let mut grid = grid_of(&[&[2, 5, 1]]);
    let mut library = chain_library();
    let mut cache = GroupCache::new();
    assert_eq!(
        propagate(&mut grid, &mut library, &mut cache, vec![(1, 0)]),
        Err(SolveError::Inconsistent)
    );
    assert_eq!(grid.to_bytes(), vec![2, 5, 1]);
}

#[test]
fn propagation_reports_missing_and_unknown_shapes() {
    let mut grid = grid_of(&[&[5, 5, 5]]);
    let mut library = chain_library();
    let mut cache = GroupCache::new();
    assert_eq!(
        propagate(&mut grid, &mut library, &mut cache, vec![(1, 0)]),
        Err(SolveError::MissingShape { x: 1, y: 0 })
    );
    cache.insert(1, 0, ((0, 0), 17));
    assert_eq!(
        propagate(&mut grid, &mut library, &mut cache, vec![(1, 0)]),
        Err(SolveError::UnknownShape { shape_id: 17 })
    );
    cache.insert(1, 0, ((2, 0), 1));
    assert_eq!(
        propagate(&mut grid, &mut library, &mut cache, vec![(1, 0)]),
        Err(SolveError::OutOfBounds { shape_id: 1 })
    );
}

#[test]
fn overlay_run_equals_direct_run() {
    let rows: [&[u8]; 3] = [&[0, 0, 0, 0, 0, 0], &[2, 5, 2, 5, 5, 0], &[0, 0, 0, 0, 0, 0]];
    let base = grid_of(&rows);
    let mut direct = grid_of(&rows);
    let mut library = chain_library();
    let mut cache = GroupCache::new();
    assert_eq!(propagate(&mut direct, &mut library, &mut cache, vec![(1, 1)]), Ok(()));

    let mut layered_library = chain_library();
    let mut layered_cache = GroupCache::new();
    let mut layer = MapWithPatches::new(&base);
    let seeds = vec![(1, 1)];
    assert_eq!(propagate(&mut layer, &mut layered_library, &mut layered_cache, seeds), Ok(()));
    assert_eq!(layer.materialize().to_bytes(), direct.to_bytes());
    assert_eq!(base.to_bytes(), grid_of(&rows).to_bytes());
    assert_eq!(layered_cache.entries(), cache.entries());
}

#[test]
fn try_solve_forces_the_given_candidate() {
    let base = grid_of(&[&[0, 0, 0, 0, 0, 0], &[0, 5, 3, 5, 5, 0], &[0, 0, 0, 0, 0, 0]]);
    let mut library = chain_library();
    let single = library.get(0).unwrap().clone();
    let mut cache = GroupCache::new();
    let mut layer = MapWithPatches::new(&base);
    let active = single.with_only(&vec![(0, 0)]);
    assert_eq!(try_solve(&mut library, &mut layer, 1, 1, 0, &active, &mut cache), Ok(()));
    // the clue drops to 2 and then needs the first cell of the domino
    assert_eq!(rows_of(&layer.materialize())[1], vec![0, 7, 1, 7, 6, 0]);

    let mut layer = MapWithPatches::new(&base);
    let mut cache = GroupCache::new();
    let inactive = single.with_only(&vec![]);
    assert_eq!(
        try_solve(&mut library, &mut layer, 1, 1, 0, &inactive, &mut cache),
        Err(SolveError::Inconsistent)
    );
}

#[test]
fn breadth_first_search_keeps_consistent_branches() {
    let base = grid_of(&[&[0, 0, 0, 0, 0, 0], &[0, 5, 2, 5, 5, 0], &[0, 0, 0, 0, 0, 0]]);
    let mut library = chain_library();
    let branches =
        breadth_first_solver(&base, GroupCache::new(), vec![(3, 1), (1, 1)], &mut library).unwrap();
    let grids: Vec<Vec<u8>> =
        branches.iter().map(|b| rows_of(&b.map.materialize())[1].clone()).collect();
    // single cell active: the clue is met, the domino's first cell is inactive
    // single cell inactive: the clue needs the domino's first cell
    assert_eq!(grids, vec![vec![0, 7, 1, 6, 7, 0], vec![0, 6, 1, 7, 6, 0]]);
    assert_eq!(base.to_bytes()[6..12], [0, 5, 2, 5, 5, 0]);
}

#[test]
fn breadth_first_search_forks_at_every_split_point() {
    let base = grid_of(&[&[5, 0, 5, 0, 6]]);
    let mut library = chain_library();
    let positions = vec![(4, 0), (2, 0), (9, 9), (0, 0)];
    let branches = breadth_first_solver(&base, GroupCache::new(), positions, &mut library).unwrap();
    let grids: Vec<Vec<u8>> = branches.iter().map(|b| b.map.materialize().to_bytes()).collect();
    assert_eq!(
        grids,
        vec![
            vec![7, 0, 7, 0, 6],
            vec![7, 0, 6, 0, 6],
            vec![6, 0, 7, 0, 6],
            vec![6, 0, 6, 0, 6],
        ]
    );
    assert_eq!(branches[0].cached_groups.len(), 2);
}

#[test]
fn breadth_first_search_needs_curated_shapes() {
    let base = grid_of(&[&[5, 5, 5]]);
    let mut library = library_of(vec![top_level(&[(0, 0), (1, 0), (2, 0)], None)]);
    let r = breadth_first_solver(&base, GroupCache::new(), vec![(1, 0)], &mut library);
    assert_eq!(r.err(), Some(SolveError::Uncurated { shape_id: 0 }));
    let r = breadth_first_solver(&base, GroupCache::new(), vec![], &mut library).unwrap();
    assert_eq!(r.len(), 1);
    assert_eq!(r[0].map.patch_count(), 0);
}

#[test]
fn refinement_is_smaller_and_holds_no_cell_twice() {
    let grid = grid_of(&[&[0, 0, 0, 0, 0], &[0, 0, 5, 5, 5], &[0, 0, 0, 0, 0]]);
    let tromino = top_level(
        &[(0, 0), (1, 0), (2, 0)],
        Some(vec![vec![(0, 0), (2, 0)], vec![(0, 0), (1, 0)]]),
    );
    let mut library = library_of(vec![tromino.clone()]);
    let mut cache = GroupCache::new();
    let r = has_locally_unique_solution(&grid, 0, &tromino, &mut library, &mut cache, 2, 1);
    assert_eq!(r, Ok(Some(vec![((2, 1), ACTIVE)])));
    let child = library.get(1).unwrap();
    assert_eq!(child.parent, Some(0));
    assert!(child.group.len() < tromino.group.len());
    for (i, cell) in child.group.iter().enumerate() {
        assert!(tromino.group.contains(cell));
        assert!(!child.group[i + 1..].contains(cell));
    }
    assert!(child.group.windows(2).all(|pair| pair[0] < pair[1]));
}

#[test]
fn a_clue_of_one_turns_the_candidate_down_instead_of_falling() {
    // the cell beside the clue of 1 cannot become active: the candidate that
    // would make it so is not feasible, and the other one is forced
    let mut grid = grid_of(&[&[1, 5, 0]]);
    let mut library = chain_library();
    let mut cache = GroupCache::new();
    assert_eq!(propagate(&mut grid, &mut library, &mut cache, vec![(1, 0)]), Ok(()));
    assert_eq!(grid.to_bytes(), vec![1, NOT_ACTIVE, 0]);
    // between two clues of 1 the same holds
    let mut grid = grid_of(&[&[1, 5, 1]]);
    let mut cache = GroupCache::new();
    assert_eq!(propagate(&mut grid, &mut library, &mut cache, vec![(1, 0)]), Ok(()));
    assert_eq!(grid.to_bytes(), vec![1, NOT_ACTIVE, 1]);
}

fn blank_rows(width: usize, height: usize) -> Vec<Vec<u8>> {
    vec![vec![0; width]; height]
}

fn grid_of_rows(rows: &[Vec<u8>]) -> Grid {
    let width = rows[0].len();
    let data: Vec<u8> = rows.iter().flatten().copied().collect();
    Grid::from_bytes(width, rows.len(), data).unwrap()
}

fn patch_table(layer: &MapWithPatches) -> Vec<((usize, usize), u8)> {
    let mut table = Vec::new();
    for y in 0..layer.height() {
        for x in 0..layer.width() {
            if let Some(value) = layer.patch_at(x, y) {
                table.push(((x, y), value));
            }
        }
    }
    assert_eq!(table.len(), layer.patch_count());
    table
}

#[test]
fn try_solve_records_the_cell_and_the_lowered_clue() {
    let mut rows = blank_rows(6, 6);
    rows[4][5] = 5;
    rows[5][5] = 2;
    let base = grid_of_rows(&rows);
    let shape = top_level(&[(0, 0)], Some(vec![vec![(0, 0)]]));
    let mut library = library_of(vec![shape.clone()]);
    let mut cache = GroupCache::new();
    let mut layer = MapWithPatches::new(&base);
    assert_eq!(patch_table(&layer), vec![]);
    assert_eq!(try_solve(&mut library, &mut layer, 5, 4, 0, &shape, &mut cache), Ok(()));
    assert_eq!(layer.get(5, 4), 7);
    assert_eq!(layer.get(5, 5), 1);
    assert_eq!(patch_table(&layer), vec![((5, 4), 7), ((5, 5), 1)]);
    assert_eq!(library.len(), 1);
    // the grid underneath is as it was
    assert_eq!(base.to_bytes(), grid_of_rows(&rows).to_bytes());
}

#[test]
fn try_solve_follows_an_inactive_cell_to_the_next_group() {
    let mut rows = blank_rows(11, 11);
    rows[10][10] = 5;
    rows[9][10] = 2;
    rows[8][10] = 5;
    let base = grid_of_rows(&rows);
    let single = top_level(&[(0, 0)], Some(vec![vec![(0, 0)], vec![]]));
    let mut library = library_of(vec![single.clone()]);
    let mut cache = GroupCache::new();
    cache.insert(10, 8, ((10, 8), 0));
    let mut layer = MapWithPatches::new(&base);
    let inactive = single.with_only(&vec![]);
    assert_eq!(try_solve(&mut library, &mut layer, 10, 10, 0, &inactive, &mut cache), Ok(()));
    // the inactive cell leaves the clue in need of the cell above it
    assert_eq!(
        patch_table(&layer),
        vec![((10, 8), 7), ((10, 9), 1), ((10, 10), 6)]
    );
    assert_eq!(library.len(), 1);
    assert_eq!(base.to_bytes(), grid_of_rows(&rows).to_bytes());
}
