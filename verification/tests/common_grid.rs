use tools::{find_group, normalize_group, Grid, GridError, MapWithPatches, TileStore};

fn grid_from_rows(rows: &[&[u8]]) -> Grid {
    let height = rows.len();
    let width = rows[0].len();
    let mut data = Vec::new();
    for row in rows {
        assert_eq!(row.len(), width);
        data.extend_from_slice(row);
    }
    Grid::from_bytes(width, height, data).unwrap()
}

fn sorted(mut cells: Vec<(usize, usize)>) -> Vec<(usize, usize)> {
    cells.sort_unstable();
    cells
}

#[test]
fn grid_round_trip() {
    let data: Vec<u8> = vec![0, 1, 2, 3, 5, 6, 7, 8, 10, 0, 5, 5];
    let grid = Grid::from_bytes(4, 3, data.clone()).unwrap();
    assert_eq!(grid.to_bytes(), data);
    let again = Grid::from_bytes(4, 3, grid.to_bytes()).unwrap();
    assert_eq!(again.to_bytes(), grid.to_bytes());
    assert_eq!(again.width(), 4);
    assert_eq!(again.height(), 3);
}

#[test]
fn grid_is_row_major() {
    let grid = Grid::from_bytes(3, 2, vec![0, 1, 2, 3, 5, 6]).unwrap();
    assert_eq!(grid.get(0, 0), 0);
    assert_eq!(grid.get(2, 0), 2);
    assert_eq!(grid.get(0, 1), 3);
    assert_eq!(grid.get(1, 1), 5);
    assert_eq!(grid.get(2, 1), 6);
    assert_eq!(grid.position(1, 1), 4);
    assert_eq!(grid.tile_at(3, 0), None);
    assert_eq!(grid.tile_at(0, 2), None);
    assert_eq!(grid.tile_at(2, 1), Some(6));
}

#[test]
fn grid_rejects_wrong_length() {
    assert_eq!(Grid::from_bytes(3, 2, vec![0; 5]).err(), Some(GridError::WrongLength));
    assert_eq!(Grid::from_bytes(3, 2, vec![0; 7]).err(), Some(GridError::WrongLength));
    assert!(Grid::from_bytes(0, 0, vec![]).is_ok());
}

#[test]
fn grid_rejects_illegal_tile() {
    assert_eq!(
        Grid::from_bytes(3, 1, vec![0, 4, 9]).err(),
        Some(GridError::InvalidTile { index: 1, value: 4 })
    );
    assert_eq!(
        Grid::from_bytes(3, 1, vec![0, 5, 9]).err(),
        Some(GridError::InvalidTile { index: 2, value: 9 })
    );
    assert_eq!(
        Grid::from_bytes(1, 1, vec![11]).err(),
        Some(GridError::InvalidTile { index: 0, value: 11 })
    );
}

#[test]
fn grid_rejects_oversized_dimension() {
    if usize::BITS > 32 {
        let too_wide = (u32::MAX as usize) + 1;
        assert_eq!(Grid::from_bytes(too_wide, 0, vec![]).err(), Some(GridError::TooLarge));
        assert!(Grid::new(too_wide, 1).is_none());
    }
}

#[test]
fn grid_new_is_background() {
    let grid = Grid::new(3, 2).unwrap();
    assert_eq!(grid.to_bytes(), vec![0; 6]);
}

#[test]
fn grid_put_checks_bounds_and_alphabet() {
    let mut grid = Grid::new(2, 2).unwrap();
    assert!(grid.put(1, 1, 7));
    assert!(!grid.put(2, 1, 7));
    assert!(!grid.put(1, 2, 7));
    assert!(!grid.put(0, 0, 4));
    assert!(!grid.put(0, 0, 9));
    assert_eq!(grid.to_bytes(), vec![0, 0, 0, 7]);
}

#[test]
fn flood_fill_single_cell() {
    let grid = grid_from_rows(&[&[0, 1, 0], &[2, 5, 3], &[0, 1, 0]]);
    let group = find_group(&grid, 1, 1);
    assert_eq!(group, vec![(1, 1)]);
    let (min_x, min_y, cells) = normalize_group(&group);
    assert_eq!((min_x, min_y), (1, 1));
    assert_eq!(cells, vec![(0, 0)]);
}

#[test]
fn flood_fill_collects_the_whole_group() {
    let grid = grid_from_rows(&[
        &[5, 5, 0, 5],
        &[0, 5, 0, 5],
        &[5, 5, 1, 0],
        &[0, 0, 5, 5],
    ]);
    let group = find_group(&grid, 1, 1);
    assert_eq!(group[0], (1, 1));
    assert_eq!(sorted(group), vec![(0, 0), (0, 2), (1, 0), (1, 1), (1, 2)]);
    assert_eq!(sorted(find_group(&grid, 3, 0)), vec![(3, 0), (3, 1)]);
    assert_eq!(sorted(find_group(&grid, 3, 3)), vec![(2, 3), (3, 3)]);
}

#[test]
fn flood_fill_does_not_cross_diagonals() {
    let grid = grid_from_rows(&[&[5, 0], &[0, 5]]);
    assert_eq!(find_group(&grid, 0, 0), vec![(0, 0)]);
    assert_eq!(find_group(&grid, 1, 1), vec![(1, 1)]);
}

#[test]
fn flood_fill_respects_the_edges() {
    let grid = grid_from_rows(&[&[5, 5, 5], &[5, 5, 5]]);
    for (x, y) in [(0, 0), (2, 0), (0, 1), (2, 1), (1, 0)] {
        let group = find_group(&grid, x, y);
        assert_eq!(group.len(), 6);
        assert!(group.iter().all(|&(cx, cy)| cx < 3 && cy < 2));
        assert_eq!(sorted(group), vec![(0, 0), (0, 1), (1, 0), (1, 1), (2, 0), (2, 1)]);
    }
    let one = grid_from_rows(&[&[5]]);
    assert_eq!(find_group(&one, 0, 0), vec![(0, 0)]);
}

#[test]
fn normal_form_does_not_depend_on_the_seed() {
    let grid = grid_from_rows(&[
        &[0, 0, 0, 0, 0],
        &[0, 0, 5, 0, 0],
        &[0, 5, 5, 5, 0],
        &[0, 0, 0, 5, 0],
    ]);
    let expected = (1, 1, vec![(0, 1), (1, 0), (1, 1), (2, 1), (2, 2)]);
    for seed in [(2, 1), (1, 2), (2, 2), (3, 2), (3, 3)] {
        let group = find_group(&grid, seed.0, seed.1);
        assert_eq!(normalize_group(&group), expected);
    }
}

#[test]
fn canonical_equality() {
    let first = vec![(4, 7), (4, 8), (5, 8)];
    let second = vec![(11, 3), (10, 3), (10, 2)];
    let (x1, y1, cells1) = normalize_group(&first);
    let (x2, y2, cells2) = normalize_group(&second);
    assert_eq!((x1, y1), (4, 7));
    assert_eq!((x2, y2), (10, 2));
    assert_eq!(cells1, vec![(0, 0), (0, 1), (1, 1)]);
    assert_eq!(cells1, cells2);
}

#[test]
fn normal_form_keeps_orientation() {
    let (_, _, upright) = normalize_group(&[(0, 0), (0, 1), (1, 1)]);
    let mirrored = normalize_group(&[(1, 0), (1, 1), (0, 1)]).2;
    assert_eq!(mirrored, vec![(0, 1), (1, 0), (1, 1)]);
    assert_ne!(upright, mirrored);
}

#[test]
fn normal_form_sorts_by_x_then_y() {
    let (min_x, min_y, cells) = normalize_group(&[(3, 9), (2, 10), (3, 8), (2, 8)]);
    assert_eq!((min_x, min_y), (2, 8));
    assert_eq!(cells, vec![(0, 0), (0, 2), (1, 0), (1, 1)]);
}

#[test]
fn overlay_reads_fall_through() {
    let grid = grid_from_rows(&[&[0, 5, 1], &[5, 5, 2]]);
    let mut layer = MapWithPatches::new(&grid);
    assert_eq!(layer.width(), 3);
    assert_eq!(layer.height(), 2);
    assert_eq!(layer.get(1, 0), 5);
    layer.set(1, 0, 7);
    layer.set(2, 1, 1);
    assert_eq!(layer.get(1, 0), 7);
    assert_eq!(layer.get(2, 1), 1);
    assert_eq!(layer.get(0, 1), 5);
    assert_eq!(layer.patch_count(), 2);
    assert_eq!(grid.to_bytes(), vec![0, 5, 1, 5, 5, 2]);
}

#[test]
fn overlay_apply_equals_direct_writes() {
    let grid = grid_from_rows(&[&[0, 5, 1], &[5, 5, 2]]);
    let writes = [(1usize, 0usize, 7u8), (0, 1, 6), (2, 1, 1), (1, 0, 6), (1, 1, 7)];
    let mut layer = MapWithPatches::new(&grid);
    let mut direct = grid.clone();
    for (x, y, value) in writes {
        layer.set(x, y, value);
        direct.set(x, y, value);
    }
    assert_eq!(layer.materialize().to_bytes(), direct.to_bytes());
    let mut other = grid.clone();
    layer.apply(&mut other);
    assert_eq!(other.to_bytes(), vec![0, 6, 1, 6, 7, 1]);
    let copy = layer.clone();
    layer.set(0, 0, 7);
    assert_eq!(copy.get(0, 0), 0);
    assert_eq!(layer.get(0, 0), 7);
}

#[test]
fn flood_fill_through_an_overlay() {
    let grid = grid_from_rows(&[&[5, 5, 5], &[0, 0, 0]]);
    let mut layer = MapWithPatches::new(&grid);
    layer.set(1, 0, 6);
    assert_eq!(find_group(&layer, 0, 0), vec![(0, 0)]);
    assert_eq!(find_group(&layer, 2, 0), vec![(2, 0)]);
    assert_eq!(find_group(&grid, 0, 0).len(), 3);
}
