use geoint_playback::grid::{
    cell_at, clamp_grid_size, default_grid_size, grid_cells, smoothing_window, square_side, Grid,
};

#[test]
fn default_grid_has_twenty_cells_a_side() {
    assert_eq!(default_grid_size(), 20);
}

#[test]
fn grid_size_is_limited() {
    assert_eq!(clamp_grid_size(0), 5);
    assert_eq!(clamp_grid_size(4), 5);
    assert_eq!(clamp_grid_size(5), 5);
    assert_eq!(clamp_grid_size(77), 77);
    assert_eq!(clamp_grid_size(200), 200);
    assert_eq!(clamp_grid_size(201), 200);
    assert_eq!(clamp_grid_size(usize::MAX), 200);
}

#[test]
fn cells_are_numbered_row_by_row() {
    let grid = Grid { width: 3, height: 2 };
    let places: Vec<(usize, usize, usize)> =
        grid_cells(&grid).iter().map(|c| (c.index, c.col, c.row)).collect();
    assert_eq!(
        places,
        vec![(0, 0, 0), (1, 1, 0), (2, 2, 0), (3, 0, 1), (4, 1, 1), (5, 2, 1)]
    );
}

#[test]
fn edges_are_counted_from_the_nearer_side() {
    let grid = Grid { width: 5, height: 4 };
    let corner = cell_at(&grid, 0);
    assert_eq!((corner.edge_x, corner.edge_y), (0, 0));
    let middle = cell_at(&grid, 7);
    assert_eq!((middle.edge_x, middle.edge_y), (2, 1));
    let opposite = cell_at(&grid, 12);
    assert_eq!((opposite.edge_x, opposite.edge_y), (2, 1));
    let last = cell_at(&grid, 19);
    assert_eq!((last.edge_x, last.edge_y), (0, 0));
}

#[test]
fn windows_reach_two_cells() {
    assert_eq!(smoothing_window(0, 0, 5, 25), vec![0, 1, 2, 5, 6, 7, 10, 11, 12]);
    assert_eq!(smoothing_window(2, 2, 5, 25), (0..25).collect::<Vec<usize>>());
    assert_eq!(smoothing_window(4, 4, 5, 25), vec![12, 13, 14, 17, 18, 19, 22, 23, 24]);
    assert_eq!(smoothing_window(0, 0, 1, 1), vec![0]);
}

#[test]
fn windows_leave_out_cells_without_a_value() {
    assert_eq!(smoothing_window(1, 1, 3, 7), vec![0, 1, 2, 3, 4, 5, 6]);
    assert_eq!(smoothing_window(0, 0, 3, 0), Vec::<usize>::new());
}

#[test]
fn neighbourhood_is_mutual() {
    for a in 0..49 {
        assert!(smoothing_window(a / 7, a % 7, 7, 49).contains(&a));
        for b in smoothing_window(a / 7, a % 7, 7, 49) {
            assert!(smoothing_window(b / 7, b % 7, 7, 49).contains(&a));
        }
    }
}

#[test]
fn square_grids_have_their_side() {
    for side in [0, 1, 5, 20, 200] {
        assert_eq!(square_side(side * side), side);
    }
    assert_eq!(square_side(24), 4);
    assert_eq!(square_side(26), 5);
    assert_eq!(square_side(3), 1);
}
