//! The grid of cells that covers an area, and the neighbourhoods on it.
use vstd::arithmetic::div_mod::*;
use vstd::prelude::*;
use crate::sequences::lemma_one_order;

verus! {

/// Cells of a grid side where a request does not say otherwise.
pub const DEFAULT_GRID_SIZE: usize = 20;

/// Smallest and largest grid side that is processed.
pub const MIN_GRID_SIZE: usize = 5;

pub const MAX_GRID_SIZE: usize = 200;

/// How many cells the smoothing kernel reaches in each direction.
pub const SMOOTHING_RADIUS: usize = 2;

/// A grid of cells, numbered row by row.
pub struct Grid {
    pub width: usize,
    pub height: usize,
}

/// A cell: its number, its column and row, and how many cells lie between it and the nearer edge
/// in each direction.
pub struct Cell {
    pub index: usize,
    pub col: usize,
    pub row: usize,
    pub edge_x: usize,
    pub edge_y: usize,
}

/// The smaller of two numbers.
pub open spec fn lesser(a: int, b: int) -> int {
    if a <= b {
        a
    } else {
        b
    }
}

/// Distance of two numbers.
pub open spec fn distance(a: int, b: int) -> int {
    if a <= b {
        b - a
    } else {
        a - b
    }
}

impl Grid {
    /// The number of cells.
    pub open spec fn cells(self) -> int {
        self.width * self.height
    }

    /// Whether the grid has no more cells than can be numbered.
    pub open spec fn valid(self) -> bool {
        self.cells() <= usize::MAX
    }

    /// Whether `cell` is cell number `index` of the grid.
    pub open spec fn has_cell(self, index: int, cell: Cell) -> bool {
        &&& cell.index == index
        &&& cell.col == index % self.width as int
        &&& cell.row == index / self.width as int
        &&& cell.edge_x == lesser(cell.col as int, self.width - 1 - cell.col)
        &&& cell.edge_y == lesser(cell.row as int, self.height - 1 - cell.row)
    }
}

/// A grid side within the limits: the nearest one to `n`.
pub open spec fn clamped_grid_size(n: int) -> int {
    if n < MIN_GRID_SIZE {
        MIN_GRID_SIZE as int
    } else if n > MAX_GRID_SIZE {
        MAX_GRID_SIZE as int
    } else {
        n
    }
}

/// Whether cell `other` belongs to the neighbourhood of cell `cell` on a square grid of which the
/// first `n` cells have a value.
pub open spec fn is_neighbour(side: int, n: int, cell: int, other: int) -> bool {
    &&& 0 <= other < n
    &&& other < side * side
    &&& distance(cell / side, other / side) <= SMOOTHING_RADIUS
    &&& distance(cell % side, other % side) <= SMOOTHING_RADIUS
}

/// Whether `window` lists the neighbourhood of a cell, in the order of the cells' numbers.
pub open spec fn is_window(side: int, n: int, cell: int, window: Seq<usize>) -> bool {
    &&& forall|i: int, j: int|
        0 <= i < j < window.len() ==> (#[trigger] window[i]) < (#[trigger] window[j])
    &&& forall|k: int|
        0 <= k < window.len() ==> is_neighbour(side, n, cell, (#[trigger] window[k]) as int)
    &&& forall|other: int|
        #[trigger] is_neighbour(side, n, cell, other) ==> window.contains(other as usize)
}

/// Cells of a grid side where a request does not say otherwise.
pub fn default_grid_size() -> (size: usize)
    ensures
        size == 20,
{
    DEFAULT_GRID_SIZE
}

/// Keeps a requested grid side within the limits.
pub fn clamp_grid_size(n: usize) -> (size: usize)
    ensures
        size == clamped_grid_size(n as int),
{
    if n < MIN_GRID_SIZE {
        MIN_GRID_SIZE
    } else if n > MAX_GRID_SIZE {
        MAX_GRID_SIZE
    } else {
        n
    }
}

/// The cell with a number.
pub fn cell_at(grid: &Grid, index: usize) -> (cell: Cell)
    requires
        index < grid.cells(),
    ensures
        grid.has_cell(index as int, cell),
{
    proof {
        lemma_row_in_grid(*grid, index as int);
    }
    let col: usize = index % grid.width;
    let row: usize = index / grid.width;
    let right: usize = grid.width - 1 - col;
    let top: usize = grid.height - 1 - row;
    Cell {
        index,
        col,
        row,
        edge_x: if col <= right {
            col
        } else {
            right
        },
        edge_y: if row <= top {
            row
        } else {
            top
        },
    }
}

/// The row of every cell lies on the grid.
proof fn lemma_row_in_grid(grid: Grid, index: int)
    requires
        0 <= index < grid.cells(),
    ensures
        grid.width > 0,
        grid.height > 0,
        0 <= index % grid.width as int,
        index % (grid.width as int) < grid.width,
        0 <= index / grid.width as int,
        index / (grid.width as int) < grid.height,
{
    let w = grid.width as int;
    let h = grid.height as int;
    assert(w > 0 && h > 0) by (nonlinear_arith)
        requires
            0 <= index < w * h,
            w >= 0,
            h >= 0,
    ;
    lemma_fundamental_div_mod(index, w);
    lemma_mod_bound(index, w);
    let q = index / w;
    assert(0 <= q < h) by (nonlinear_arith)
        requires
            index == w * q + index % w,
            0 <= index % w < w,
            0 <= index < w * h,
            w > 0,
    ;
}

/// All cells of a grid, row by row.
pub fn grid_cells(grid: &Grid) -> (cells: Vec<Cell>)
    requires
        grid.valid(),
    ensures
        cells.len() == grid.cells(),
        forall|i: int| 0 <= i < cells.len() ==> grid.has_cell(i, #[trigger] cells@[i]),
{
    let total: usize = grid.width * grid.height;
    let mut cells: Vec<Cell> = Vec::new();
    let mut i: usize = 0;
    while i < total
        invariant
            i <= total,
            total == grid.cells(),
            cells.len() == i,
            forall|j: int| 0 <= j < i ==> grid.has_cell(j, #[trigger] cells@[j]),
        decreases total - i,
    {
        cells.push(cell_at(grid, i));
        i = i + 1;
    }
    cells
}

/// The side of the largest square grid that `n` cells fill.
pub fn square_side(n: usize) -> (side: usize)
    ensures
        side * side <= n < (side + 1) * (side + 1),
{
    let mut side: usize = 0;
    while side < n && side + 1 <= n / (side + 1)
        invariant
            side <= n,
            side * side <= n,
        decreases n - side,
    {
        proof {
            let next = side as int + 1;
            let q = n as int / next;
            lemma_fundamental_div_mod(n as int, next);
            assert(next * next <= n) by (nonlinear_arith)
                requires
                    n == next * q + n as int % next,
                    n as int % next >= 0,
                    next <= q,
                    next > 0,
            ;
        }
        side = side + 1;
    }
    proof {
        let next = side as int + 1;
        if side < n {
            let q = n as int / next;
            lemma_fundamental_div_mod(n as int, next);
            assert(n < next * next) by (nonlinear_arith)
                requires
                    n == next * q + n as int % next,
                    n as int % next < next,
                    q < next,
                    next > 0,
            ;
        } else {
            assert(n < next * next) by (nonlinear_arith)
                requires
                    next == n + 1,
                    n >= 0,
            ;
        }
    }
    side
}

/// Column and row of the cell at a place of a square grid.
proof fn lemma_place(side: int, row: int, col: int)
    requires
        0 <= row < side,
        0 <= col < side,
    ensures
        (row * side + col) / side == row,
        (row * side + col) % side == col,
        0 <= row * side + col < side * side,
{
    lemma_fundamental_div_mod_converse(row * side + col, side, row, col);
    assert(0 <= row * side + col < side * side) by (nonlinear_arith)
        requires
            0 <= row < side,
            0 <= col < side,
    ;
}

/// The neighbourhood of the cell at a place of a square grid, among the first `n` cells.
pub fn smoothing_window(row: usize, col: usize, side: usize, n: usize) -> (window: Vec<usize>)
    requires
        row < side,
        col < side,
        side * side <= usize::MAX,
    ensures
        is_window(side as int, n as int, row * side + col, window@),
{
    let ghost s = side as int;
    let ghost cell = row * side + col;
    let reach: usize = SMOOTHING_RADIUS;
    let first_row: usize = if row >= reach { row - reach } else { 0 };
    let end_row: usize = if side - row > reach { row + reach + 1 } else { side };
    let first_col: usize = if col >= reach { col - reach } else { 0 };
    let end_col: usize = if side - col > reach { col + reach + 1 } else { side };
    proof {
        lemma_place(s, row as int, col as int);
    }
    let mut window: Vec<usize> = Vec::new();
    let mut r: usize = first_row;
    while r < end_row
        invariant
            row < side,
            col < side,
            side * side <= usize::MAX,
            s == side,
            cell == row * side + col,
            cell / s == row,
            cell % s == col,
            first_row == (if row >= 2 { row - 2 } else { 0 }),
            end_row == lesser(row + 3, s),
            first_col == (if col >= 2 { col - 2 } else { 0 }),
            end_col == lesser(col + 3, s),
            first_row <= r <= end_row,
            forall|i: int, j: int|
                0 <= i < j < window.len() ==> (#[trigger] window@[i]) < (#[trigger] window@[j]),
            forall|k: int|
                0 <= k < window.len() ==> is_neighbour(
                    s,
                    n as int,
                    cell,
                    (#[trigger] window@[k]) as int,
                ) && window@[k] < r * side,
            forall|other: int|
                #[trigger] is_neighbour(s, n as int, cell, other) && other / s
                    < r ==> window@.contains(other as usize),
        decreases end_row - r,
    {
        let mut c: usize = first_col;
        proof {
            assert forall|other: int|
                #[trigger] is_neighbour(s, n as int, cell, other) && (other / s
                    < r || other / s == r && other % s
                    < c) implies window@.contains(other as usize) by {}
        }
        while c < end_col
            invariant
                row < side,
                col < side,
                side * side <= usize::MAX,
                s == side,
                cell == row * side + col,
                cell / s == row,
                cell % s == col,
                first_row == (if row >= 2 { row - 2 } else { 0 }),
                end_row == lesser(row + 3, s),
                first_col == (if col >= 2 { col - 2 } else { 0 }),
                end_col == lesser(col + 3, s),
                first_row <= r < end_row,
                first_col <= c <= end_col,
                forall|i: int, j: int|
                    0 <= i < j < window.len() ==> (#[trigger] window@[i]) < (#[trigger] window@[j]),
                forall|k: int|
                    0 <= k < window.len() ==> is_neighbour(
                        s,
                        n as int,
                        cell,
                        (#[trigger] window@[k]) as int,
                    ) && window@[k] < r * side + c,
                forall|other: int|
                    #[trigger] is_neighbour(s, n as int, cell, other) && (other
                        / s < r || other / s == r && other % s < c)
                        ==> window@.contains(other as usize),
            decreases end_col - c,
        {
            proof {
                lemma_place(s, r as int, c as int);
            }
            let other_cell: usize = r * side + c;
            let ghost before = window@;
            if other_cell < n {
                window.push(other_cell);
            }
            proof {
                assert forall|other: int|
                    #[trigger] is_neighbour(s, n as int, cell, other) && (other
                        / s < r || other / s == r && other % s < c
                        + 1) implies window@.contains(other as usize) by {
                    lemma_fundamental_div_mod(other, s);
                    if other / s == r && other % s == c {
                        assert(other == r * side + c) by (nonlinear_arith)
                            requires
                                other == s * (other / s) + other % s,
                                other / s == r,
                                other % s == c,
                                s == side,
                        ;
                        assert(window@[window@.len() - 1] == other as usize);
                    } else {
                        assert(before.contains(other as usize));
                        let k = choose|k: int| 0 <= k < before.len() && before[k] == other as usize;
                        assert(window@[k] == other as usize);
                    }
                }
            }
            c = c + 1;
        }
        proof {
            assert(r * side + c <= (r + 1) * side) by (nonlinear_arith)
                requires
                    c <= side,
            ;
        }
        r = r + 1;
    }
    proof {
        assert forall|other: int| #[trigger]
            is_neighbour(s, n as int, cell, other) implies window@.contains(
            other as usize,
        ) by {
            lemma_fundamental_div_mod(other, s);
            lemma_mod_bound(other, s);
            let q = other / s;
            assert(q < side) by (nonlinear_arith)
                requires
                    other == s * q + other % s,
                    other % s >= 0,
                    other < s * s,
                    s == side,
                    s > 0,
            ;
        }
    }
    window
}

/// Whatever grid side is asked for, the one that is used lies within the limits; a side within
/// the limits is used as it is.
pub proof fn grid_size_is_limited(n: int)
    ensures
        5 <= clamped_grid_size(n) <= 200,
        5 <= n <= 200 ==> clamped_grid_size(n) == n,
        clamped_grid_size(clamped_grid_size(n)) == clamped_grid_size(n),
{
}

/// Every number below the number of cells belongs to one cell, and to no other.
pub proof fn every_number_has_one_cell(grid: Grid, index: int) -> (cell: Cell)
    requires
        grid.valid(),
        0 <= index < grid.cells(),
    ensures
        grid.has_cell(index, cell),
        forall|other: Cell| #[trigger] grid.has_cell(index, other) ==> other == cell,
{
    lemma_row_in_grid(grid, index);
    let col = index % grid.width as int;
    let row = index / grid.width as int;
    Cell {
        index: index as usize,
        col: col as usize,
        row: row as usize,
        edge_x: lesser(col, grid.width - 1 - col) as usize,
        edge_y: lesser(row, grid.height - 1 - row) as usize,
    }
}

/// Cells are numbered row by row: the cell with a number lies in the row and column that the
/// number counts to, and the number can be told from them.
pub proof fn cells_are_numbered_by_row(grid: Grid, cell: Cell, row: int, col: int)
    requires
        0 <= row < grid.height,
        0 <= col < grid.width,
        grid.has_cell(row * grid.width + col, cell),
    ensures
        cell.row == row,
        cell.col == col,
        cell.index == cell.row * grid.width + cell.col,
{
    lemma_fundamental_div_mod_converse(
        row * grid.width + col,
        grid.width as int,
        row,
        col,
    );
}

/// Opposite cells of a grid are equally far from its edges.
pub proof fn edges_are_symmetric(grid: Grid, cell: Cell, opposite: Cell)
    requires
        0 <= cell.index < grid.cells(),
        grid.has_cell(cell.index as int, cell),
        grid.has_cell(grid.cells() - 1 - cell.index, opposite),
    ensures
        opposite.col == grid.width - 1 - cell.col,
        opposite.row == grid.height - 1 - cell.row,
        opposite.edge_x == cell.edge_x,
        opposite.edge_y == cell.edge_y,
{
    let w = grid.width as int;
    let h = grid.height as int;
    let i = cell.index as int;
    lemma_row_in_grid(grid, i);
    lemma_fundamental_div_mod(i, w);
    let col = w - 1 - i % w;
    let row = h - 1 - i / w;
    let q = i / w;
    assert(w * h - 1 - i == row * w + col) by (nonlinear_arith)
        requires
            i == w * q + i % w,
            col == w - 1 - i % w,
            row == h - 1 - q,
    ;
    lemma_fundamental_div_mod_converse(w * h - 1 - i, w, row, col);
}

/// Every cell that has a value is in its own neighbourhood, and a neighbour's neighbour is the
/// cell itself.
pub proof fn neighbourhood_is_mutual(side: int, n: int, cell: int, other: int)
    requires
        0 <= cell < n,
        cell < side * side,
    ensures
        is_neighbour(side, n, cell, cell),
        is_neighbour(side, n, cell, other) ==> is_neighbour(side, n, other, cell),
{
}

/// A cell has one neighbourhood only.
pub proof fn window_is_unique(
    side: int,
    n: int,
    cell: int,
    window1: Seq<usize>,
    window2: Seq<usize>,
)
    requires
        is_window(side, n, cell, window1),
        is_window(side, n, cell, window2),
    ensures
        window1 == window2,
{
    let before = |a: usize, b: usize| a < b;
    assert forall|x: usize| window1.contains(x) <==> window2.contains(x) by {
        if window1.contains(x) {
            let i = choose|i: int| 0 <= i < window1.len() && window1[i] == x;
            assert(is_neighbour(side, n, cell, window1[i] as int));
        }
        if window2.contains(x) {
            let i = choose|i: int| 0 <= i < window2.len() && window2[i] == x;
            assert(is_neighbour(side, n, cell, window2[i] as int));
        }
    }
    lemma_one_order(window1, window2, before);
}

/// A square grid is smoothed with its own side.
pub proof fn square_grid_has_its_side(width: int, side: int)
    requires
        0 <= width,
        0 <= side,
        side * side <= width * width < (side + 1) * (side + 1),
    ensures
        side == width,
{
    if side < width {
        assert((side + 1) * (side + 1) <= width * width) by (nonlinear_arith)
            requires
                0 <= side < width,
        ;
    } else if width < side {
        assert(width * width < side * side) by (nonlinear_arith)
            requires
                0 <= width < side,
        ;
    }
}

} // verus!
