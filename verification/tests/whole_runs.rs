use tools::flag::decode_flag;
use tools::{
    solve_step, Grid, GroupCache, Shape, ShapeLibrary, TileStore, ACTIVE, NOT_ACTIVE, UNPROCESSED,
};

fn board(rows: &[&[u8]]) -> Grid {
    let height = rows.len();
    let width = rows[0].len();
    let mut data = Vec::new();
    for row in rows {
        assert_eq!(row.len(), width);
        data.extend_from_slice(row);
    }
    Grid::from_bytes(width, height, data).unwrap()
}

fn neighbours(grid: &Grid, x: usize, y: usize) -> Vec<(usize, usize)> {
    let mut out = Vec::new();
    if y + 1 < grid.height() {
        out.push((x, y + 1));
    }
    if x + 1 < grid.width() {
        out.push((x + 1, y));
    }
    if y > 0 {
        out.push((x, y - 1));
    }
    if x > 0 {
        out.push((x - 1, y));
    }
    out
}

fn active_neighbours(grid: &Grid, x: usize, y: usize) -> u8 {
    neighbours(grid, x, y).into_iter().filter(|&(nx, ny)| grid.get(nx, ny) == ACTIVE).count() as u8
}

fn check_state(grid: &Grid, start: &Grid, library: &ShapeLibrary, cache: &GroupCache) {
    for y in 0..grid.height() {
        for x in 0..grid.width() {
            let tile = grid.get(x, y);
            let first = start.get(x, y);
            // every tile is of the alphabet
            assert!([0, 1, 2, 3, 5, 6, 7, 8, 10].contains(&tile));
            if (1..=3).contains(&first) {
                // a clue stays a clue, at its first value less its active neighbours
                assert!((1..=3).contains(&tile));
                assert_eq!(tile, first - active_neighbours(grid, x, y));
            } else if first == UNPROCESSED {
                assert!([UNPROCESSED, NOT_ACTIVE, ACTIVE].contains(&tile));
            } else {
                assert_eq!(tile, first);
            }
        }
    }
    for (id, shape) in library.shapes().iter().enumerate() {
        if let Some(parent) = shape.parent {
            // a refinement comes after its parent and holds some, not all, of its cells
            assert!(parent < id);
            let outer = &library.shapes()[parent].group;
            assert!(shape.group.iter().all(|c| outer.contains(c)));
            assert!(outer.iter().any(|c| !shape.group.contains(c)));
            assert!(!shape.group.is_empty());
        }
    }
    for ((x, y), ((ox, oy), id)) in cache.entries() {
        if grid.get(x, y) != UNPROCESSED {
            continue;
        }
        // the shape of an unprocessed cached cell, placed at its origin, holds
        // the cell and unprocessed cells only, with no unprocessed cell beside
        let shape = library.get(id).unwrap();
        let placed: Vec<(usize, usize)> =
            shape.group.iter().map(|&(gx, gy)| (gx + ox, gy + oy)).collect();
        assert!(placed.contains(&(x, y)));
        for &(px, py) in &placed {
            assert_eq!(grid.get(px, py), UNPROCESSED);
            for (nx, ny) in neighbours(grid, px, py) {
                assert!(grid.get(nx, ny) != UNPROCESSED || placed.contains(&(nx, ny)));
            }
        }
    }
}

fn all_subsets(group: &[(usize, usize)]) -> Vec<Vec<(usize, usize)>> {
    (0..1usize << group.len())
        .map(|mask| {
            group
                .iter()
                .enumerate()
                .filter(|(i, _)| mask >> i & 1 == 1)
                .map(|(_, &c)| c)
                .collect()
        })
        .collect()
}

fn curated(group: &[(usize, usize)]) -> Shape {
    Shape {
        group: group.to_vec(),
        solutions: Some(all_subsets(group)),
        parent: None,
        used_solutions: None,
    }
}

/// A puzzle with the given solution: `A` is a cell that is active in the
/// end, `N` one that is not, `c` a clue, which is one more than the number
/// of active cells beside it.
fn puzzle(layout: &[&str]) -> Grid {
    let cells: Vec<Vec<char>> = layout.iter().map(|row| row.chars().collect()).collect();
    let height = cells.len();
    let width = cells[0].len();
    let mut data = Vec::new();
    for y in 0..height {
        for x in 0..width {
            let tile = match cells[y][x] {
                'A' | 'N' => UNPROCESSED,
                'c' => {
                    let mut active = 0;
                    if y + 1 < height && cells[y + 1][x] == 'A' {
                        active += 1;
                    }
                    if x + 1 < width && cells[y][x + 1] == 'A' {
                        active += 1;
                    }
                    if y > 0 && cells[y - 1][x] == 'A' {
                        active += 1;
                    }
                    if x > 0 && cells[y][x - 1] == 'A' {
                        active += 1;
                    }
                    assert!(active <= 2);
                    active + 1
                }
                'o' => 8,
                'p' => 10,
                _ => 0,
            };
            data.push(tile);
        }
    }
    Grid::from_bytes(width, height, data).unwrap()
}

#[test]
fn invariants_hold_after_every_iteration() {
    let layout = [".c..c.p", "cAcNAc.", ".N..N..", ".cANcAc", ".N.o.N."];
    let start = puzzle(&layout);
    let mut grid = puzzle(&layout);
    let mut library = ShapeLibrary::from_shapes(vec![
        curated(&[(0, 0)]),
        curated(&[(0, 0), (0, 1)]),
        curated(&[(0, 0), (1, 0)]),
        curated(&[(0, 0), (1, 0), (1, 1)]),
    ])
    .unwrap();
    let mut cache = GroupCache::new();
    let mut todo = Vec::new();
    for y in 0..grid.height() {
        for x in 0..grid.width() {
            if grid.get(x, y) == UNPROCESSED {
                todo.push((x, y));
            }
        }
    }
    let mut iterations = 0;
    check_state(&grid, &start, &library, &cache);
    while !todo.is_empty() {
        assert_eq!(solve_step(&mut grid, &mut library, &mut cache, &mut todo), Ok(()));
        check_state(&grid, &start, &library, &cache);
        iterations += 1;
        assert!(iterations < 1000);
    }
    // whatever was decided is decided as in the solution
    let mut decided = 0;
    for (y, row) in layout.iter().enumerate() {
        for (x, c) in row.chars().enumerate() {
            match grid.get(x, y) {
                ACTIVE => assert_eq!(c, 'A'),
                NOT_ACTIVE => assert_eq!(c, 'N'),
                _ => continue,
            }
            decided += 1;
        }
    }
    assert!(decided > 0);
    assert!(library.len() > 4);
}

#[test]
fn flag_decoding_reads_the_row_from_the_right() {
    let width = 17268;
    let mut data = vec![0u8; width * 6];
    let mut state: u32 = 12345;
    for x in (8427..17236).step_by(24) {
        state = state.wrapping_mul(1103515245).wrapping_add(12345);
        data[5 * width + x] = if (state >> 16) & 1 == 1 { ACTIVE } else { NOT_ACTIVE };
    }
    let grid = Grid::from_bytes(width, 6, data).unwrap();

    let mut bits = Vec::new();
    for x in (8427..17236).step_by(24).rev() {
        bits.push(grid.get(x, 5) == ACTIVE);
    }
    assert_eq!(bits.len() % 8, 0);
    let mut expected = Vec::new();
    for chunk in bits.chunks(8).rev() {
        let byte = chunk
            .iter()
            .rev()
            .enumerate()
            .fold(0u8, |acc, (i, &bit)| acc | ((bit as u8) << (7 - i)));
        expected.push(byte);
    }
    assert_eq!(expected.len(), 46);
    assert_eq!(decode_flag(&grid).unwrap(), expected);
}
