//! The grid: how large it is, where its cells lie, and which of them are neighbours.
use vstd::arithmetic::div_mod::*;
use vstd::prelude::*;
use crate::grid::{
    cell_at, clamp_grid_size, default_grid_size, grid_cells, is_neighbour, smoothing_window,
    square_side, Cell, Grid,
};

verus! {

/// A grid has the side that is asked for, where it is not below 5 or above 200, and 20 cells where
/// none is asked for.
pub proof fn grids_have_5_to_200_cells(n: usize, size: usize, default_size: usize)
    requires
        call_ensures(clamp_grid_size, (n,), size),
        call_ensures(default_grid_size, (), default_size),
    ensures
        5 <= n <= 200 ==> size == n,
        n < 5 ==> size == 5,
        n > 200 ==> size == 200,
        default_size == 20,
{
}

/// A cell's number counts the rows before its own and the columns before its own; its distance from
/// the edges is that from the nearer one, in either direction, on every grid.
pub proof fn numbers_count_rows_and_columns(grid: &Grid, index: usize, cell: Cell)
    requires
        index < grid.width * grid.height,
        call_ensures(cell_at, (grid, index), cell),
    ensures
        cell.index == index,
        cell.row * grid.width + cell.col == index,
        cell.col < grid.width,
        cell.row < grid.height,
        cell.edge_x <= cell.col,
        cell.edge_x <= grid.width - 1 - cell.col,
        cell.edge_x == cell.col || cell.edge_x == grid.width - 1 - cell.col,
        cell.edge_y <= cell.row,
        cell.edge_y <= grid.height - 1 - cell.row,
        cell.edge_y == cell.row || cell.edge_y == grid.height - 1 - cell.row,
{
    lemma_counted(*grid, index as int, cell);
}

/// What the number of a cell counts.
pub proof fn lemma_counted(grid: Grid, index: int, cell: Cell)
    requires
        0 <= index < grid.width * grid.height,
        grid.has_cell(index, cell),
    ensures
        cell.row * grid.width + cell.col == index,
        cell.col < grid.width,
        cell.row < grid.height,
        grid.width > 0,
        grid.height > 0,
{
    let (w, h) = (grid.width as int, grid.height as int);
    assert(w > 0 && h > 0) by (nonlinear_arith)
        requires
            0 <= index < w * h,
            w >= 0,
            h >= 0,
    ;
    lemma_fundamental_div_mod(index, w);
    lemma_mod_bound(index, w);
    let q = index / w;
    assert(q * w + index % w == index) by (nonlinear_arith)
        requires
            index == w * q + index % w,
    ;
    assert(q < h) by (nonlinear_arith)
        requires
            index == w * q + index % w,
            0 <= index % w < w,
            index < w * h,
            w > 0,
    ;
}

/// The cells of a grid are all its places, row by row.
pub proof fn cells_are_listed_by_row(grid: &Grid, cells: Vec<Cell>, row: int, col: int)
    requires
        grid.width * grid.height <= usize::MAX,
        call_ensures(grid_cells, (grid,), cells),
        0 <= row < grid.height,
        0 <= col < grid.width,
    ensures
        cells.len() == grid.width * grid.height,
        0 <= row * grid.width + col < cells.len(),
        cells@[row * grid.width + col].row == row,
        cells@[row * grid.width + col].col == col,
        cells@[row * grid.width + col].index == row * grid.width + col,
{
    let w = grid.width as int;
    let h = grid.height as int;
    assert(0 <= row * w + col < w * h) by (nonlinear_arith)
        requires
            0 <= row < h,
            0 <= col < w,
    ;
    lemma_fundamental_div_mod_converse(row * w + col, w, row, col);
    assert(grid.has_cell(row * w + col, cells@[row * w + col]));
}

/// The square that is smoothed is the largest one that the cells fill.
pub proof fn squares_are_the_largest(n: usize, side: usize, larger: int)
    requires
        call_ensures(square_side, (n,), side),
        larger > side,
    ensures
        side * side <= n,
        larger * larger > n,
{
    assert(larger * larger >= (side + 1) * (side + 1)) by (nonlinear_arith)
        requires
            larger >= side + 1,
    ;
}

/// The neighbours of a cell, on every square grid, are the cells within two rows and two columns of
/// it that have a value, each once and in the order of their numbers.
pub proof fn neighbours_are_within_two_rows_and_columns(
    row: usize,
    col: usize,
    side: usize,
    n: usize,
    window: Vec<usize>,
    r: int,
    c: int,
)
    requires
        row < side,
        col < side,
        side * side <= usize::MAX,
        call_ensures(smoothing_window, (row, col, side, n), window),
        0 <= r < side,
        0 <= c < side,
    ensures
        window@.contains((r * side + c) as usize) <==> r * side + c < n && -2 <= r - row <= 2 && -2
            <= c - col <= 2,
        forall|i: int, j: int| 0 <= i < j < window.len() ==> window@[i] < window@[j],
        forall|i: int| 0 <= i < window.len() ==> window@[i] < side * side,
{
    let s = side as int;
    let cell = row * side + col;
    lemma_fundamental_div_mod_converse(cell, s, row as int, col as int);
    lemma_fundamental_div_mod_converse(r * s + c, s, r, c);
    assert(0 <= r * s + c < s * s) by (nonlinear_arith)
        requires
            0 <= r < s,
            0 <= c < s,
    ;
    let x = (r * side + c) as usize;
    assert(x == r * s + c);
    if window@.contains(x) {
        let i = choose|i: int| 0 <= i < window.len() && window@[i] == x;
        assert(is_neighbour(s, n as int, cell, window@[i] as int));
    }
    if r * s + c < n && -2 <= r - row <= 2 && -2 <= c - col <= 2 {
        assert(is_neighbour(s, n as int, cell, r * s + c));
    }
    assert forall|i: int| 0 <= i < window.len() implies window@[i] < side * side by {
        assert(is_neighbour(s, n as int, cell, window@[i] as int));
    }
}

} // verus!
