use tools::discover::{
    cells_before, discover_cell, discover_row, discover_shapes, insert_shape, merge_shapes,
    Visited,
};
use tools::{Grid, MapWithPatches, TileStore};

fn grid_rows(rows: &[&[u8]]) -> Grid {
    let height = rows.len();
    let width = rows[0].len();
    let mut data = Vec::new();
    for row in rows {
        assert_eq!(row.len(), width);
        data.extend_from_slice(row);
    }
    Grid::from_bytes(width, height, data).unwrap()
}

#[test]
fn shape_order_is_lexicographic() {
    assert!(cells_before(&[], &[(0, 0)]));
    assert!(!cells_before(&[], &[]));
    assert!(!cells_before(&[(0, 0)], &[]));
    assert!(cells_before(&[(0, 0)], &[(0, 0), (0, 1)]));
    assert!(cells_before(&[(0, 0), (0, 1)], &[(0, 0), (1, 0)]));
    assert!(cells_before(&[(0, 0), (0, 1), (5, 5)], &[(0, 0), (1, 0)]));
    assert!(!cells_before(&[(0, 0), (1, 0)], &[(0, 0), (0, 1)]));
    assert!(!cells_before(&[(0, 0), (1, 0)], &[(0, 0), (1, 0)]));
    assert!(cells_before(&[(0, 1)], &[(1, 0)]));
    let mut lists = vec![
        vec![(0, 1), (1, 0), (1, 1)],
        vec![(0, 0)],
        vec![(0, 0), (1, 0)],
        vec![],
        vec![(0, 0), (0, 1)],
    ];
    let mut by_library = Vec::new();
    for list in &lists {
        insert_shape(&mut by_library, list.clone());
    }
    lists.sort_unstable();
    assert_eq!(by_library, lists);
}

#[test]
fn insert_keeps_each_shape_once() {
    let mut found = Vec::new();
    assert!(insert_shape(&mut found, vec![(0, 0), (1, 0)]));
    assert!(insert_shape(&mut found, vec![(0, 0)]));
    assert!(!insert_shape(&mut found, vec![(0, 0), (1, 0)]));
    assert!(insert_shape(&mut found, vec![(0, 0), (0, 1)]));
    assert!(!insert_shape(&mut found, vec![(0, 0)]));
    assert_eq!(found, vec![vec![(0, 0)], vec![(0, 0), (0, 1)], vec![(0, 0), (1, 0)]]);
    let mut other = vec![vec![(0, 0), (0, 1)], vec![(0, 1), (1, 0), (1, 1)]];
    merge_shapes(&mut other, &found);
    assert_eq!(
        other,
        vec![
            vec![(0, 0)],
            vec![(0, 0), (0, 1)],
            vec![(0, 0), (1, 0)],
            vec![(0, 1), (1, 0), (1, 1)]
        ]
    );
}

#[test]
fn discovery_lists_every_outline_once() {
    let grid = grid_rows(&[
        &[5, 5, 0, 5, 0, 5],
        &[0, 0, 0, 5, 0, 0],
        &[5, 1, 5, 0, 5, 5],
        &[5, 0, 5, 0, 0, 5],
        &[0, 0, 0, 5, 5, 5],
    ]);
    let shapes = discover_shapes(&grid);
    assert_eq!(
        shapes,
        vec![
            vec![(0, 0)],
            vec![(0, 0), (0, 1)],
            vec![(0, 0), (1, 0)],
            vec![(0, 2), (1, 0), (1, 2), (2, 0), (2, 1), (2, 2)],
        ]
    );
    assert_eq!(discover_shapes(&grid_rows(&[&[0, 1], &[2, 7]])), Vec::<Vec<(usize, usize)>>::new());
    let mut layer = MapWithPatches::new(&grid);
    layer.set(0, 0, 6);
    layer.set(5, 0, 7);
    assert_eq!(discover_shapes(&layer).len(), 3);
}

#[test]
fn discovery_does_not_depend_on_the_division_of_rows() {
    let grid = grid_rows(&[
        &[5, 5, 0, 5, 0, 5],
        &[0, 0, 0, 5, 0, 0],
        &[5, 1, 5, 0, 5, 5],
        &[5, 0, 5, 0, 0, 5],
        &[0, 0, 0, 5, 5, 5],
    ]);
    let whole = discover_shapes(&grid);
    for split in 0..=grid.height() {
        let mut first = (Visited::new(), Vec::new());
        let mut second = (Visited::new(), Vec::new());
        for y in 0..grid.height() {
            let part = if y < split { &mut first } else { &mut second };
            discover_row(&grid, y, &mut part.0, &mut part.1);
        }
        let mut merged = second.1;
        merge_shapes(&mut merged, &first.1);
        assert_eq!(merged, whole);
    }
}

#[test]
fn discovery_cell_by_cell_tells_new_shapes() {
    let grid = grid_rows(&[&[5, 5, 0, 5, 5], &[0, 0, 0, 0, 0], &[5, 0, 5, 0, 1]]);
    let mut visited = Visited::new();
    let mut found = Vec::new();
    let mut fresh = Vec::new();
    for y in 0..grid.height() {
        for x in 0..grid.width() {
            if discover_cell(&grid, x, y, &mut visited, &mut found) {
                fresh.push((x, y));
            }
        }
    }
    // the second domino and the second single cell are no new shapes
    assert_eq!(fresh, vec![(0, 0), (0, 2)]);
    assert_eq!(found, vec![vec![(0, 0)], vec![(0, 0), (1, 0)]]);
    assert!(visited.contains((1, 0)) && visited.contains((4, 0)) && visited.contains((2, 2)));
    assert!(!visited.contains((2, 0)) && !visited.contains((4, 2)));
}
