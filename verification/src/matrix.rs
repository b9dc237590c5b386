//! The grid: a dense two-dimensional store of cell values.

use std::ops::Index;
use vstd::prelude::*;

verus! {

/// The value of a cell that has not been collapsed yet. It is never a field.
pub const UNCOLLAPSED: i8 = -1;

/// A grid of `rows` rows of `cols` cells each. The cell in column `x` of row
/// `y` is `data[y][x]`.
pub struct Matrix {
    pub cols: usize,
    pub rows: usize,
    pub data: Vec<Vec<i8>>,
}

/// The number of uncollapsed cells of a row.
pub open spec fn open_in_row(row: Seq<i8>) -> nat
    decreases row.len(),
{
    if row.len() == 0 {
        0
    } else {
        open_in_row(row.drop_last()) + if row.last() == UNCOLLAPSED {
            1nat
        } else {
            0nat
        }
    }
}

/// The number of uncollapsed cells of a grid given as its rows.
pub open spec fn open_in_grid(grid: Seq<Seq<i8>>) -> nat
    decreases grid.len(),
{
    if grid.len() == 0 {
        0
    } else {
        open_in_grid(grid.drop_last()) + open_in_row(grid.last())
    }
}

/// Writing a field over an uncollapsed cell of a row leaves one uncollapsed
/// cell fewer.
pub proof fn lemma_collapse_in_row(row: Seq<i8>, x: int, value: i8)
    requires
        0 <= x < row.len(),
        row[x] == UNCOLLAPSED,
        value != UNCOLLAPSED,
    ensures
        open_in_row(row.update(x, value)) + 1 == open_in_row(row),
    decreases row.len(),
{
    let updated = row.update(x, value);
    if x == row.len() - 1 {
        assert(updated.drop_last() =~= row.drop_last());
    } else {
        assert(updated.drop_last() =~= row.drop_last().update(x, value));
        lemma_collapse_in_row(row.drop_last(), x, value);
    }
}

/// Replacing a row by one with one uncollapsed cell fewer leaves the grid with
/// one uncollapsed cell fewer.
pub proof fn lemma_collapse_in_grid(grid: Seq<Seq<i8>>, y: int, row: Seq<i8>)
    requires
        0 <= y < grid.len(),
        open_in_row(row) + 1 == open_in_row(grid[y]),
    ensures
        open_in_grid(grid.update(y, row)) + 1 == open_in_grid(grid),
    decreases grid.len(),
{
    let updated = grid.update(y, row);
    if y == grid.len() - 1 {
        assert(updated.drop_last() =~= grid.drop_last());
    } else {
        assert(updated.drop_last() =~= grid.drop_last().update(y, row));
        lemma_collapse_in_grid(grid.drop_last(), y, row);
    }
}

impl View for Matrix {
    type V = Seq<Seq<i8>>;

    /// The rows of the grid, each as the sequence of its cells.
    open spec fn view(&self) -> Seq<Seq<i8>> {
        Seq::new(self.data@.len(), |y: int| self.data@[y]@)
    }
}

impl Matrix {
    /// The storage has exactly `rows` rows of exactly `cols` cells.
    pub open spec fn well_formed(&self) -> bool {
        &&& self.data@.len() == self.rows
        &&& forall|y: int| 0 <= y < self.rows ==> (#[trigger] self.data@[y])@.len() == self.cols
    }

    /// Whether column `x` of row `y` lies inside the grid.
    pub open spec fn in_bounds(&self, x: int, y: int) -> bool {
        0 <= x < self.cols && 0 <= y < self.rows
    }

    /// The value of the cell in column `x` of row `y`.
    pub open spec fn cell(&self, x: int, y: int) -> i8 {
        self.data@[y]@[x]
    }

    /// A grid of the given size in which no cell is collapsed.
    pub fn new(cols: usize, rows: usize) -> (m: Self)
        ensures
            m.cols == cols,
            m.rows == rows,
            m.well_formed(),
            forall|x: int, y: int| m.in_bounds(x, y) ==> m.cell(x, y) == UNCOLLAPSED,
    {
        let mut data: Vec<Vec<i8>> = Vec::new();
        let mut y: usize = 0;
        while y < rows
            invariant
                y <= rows,
                data@.len() == y,
                forall|j: int| 0 <= j < y ==> (#[trigger] data@[j])@.len() == cols,
                forall|i: int, j: int|
                    0 <= j < y && 0 <= i < cols ==> (#[trigger] data@[j]@[i]) == UNCOLLAPSED,
            decreases rows - y,
        {
            let mut row: Vec<i8> = Vec::new();
            let mut x: usize = 0;
            while x < cols
                invariant
                    x <= cols,
                    row@.len() == x,
                    forall|i: int| 0 <= i < x ==> (#[trigger] row@[i]) == UNCOLLAPSED,
                decreases cols - x,
            {
                row.push(UNCOLLAPSED);
                x += 1;
            }
            data.push(row);
            y += 1;
        }
        Self { cols, rows, data }
    }

    /// The value of the cell in column `x` of row `y`.
    pub fn get(&self, x: usize, y: usize) -> (value: i8)
        requires
            self.well_formed(),
            self.in_bounds(x as int, y as int),
        ensures
            value == self.cell(x as int, y as int),
    {
        self.data[y][x]
    }

    /// Stores `value` in the cell in column `x` of row `y` and leaves every
    /// other cell as it was.
    pub fn set(&mut self, x: usize, y: usize, value: i8)
        requires
            old(self).well_formed(),
            old(self).in_bounds(x as int, y as int),
        ensures
            final(self).well_formed(),
            final(self).cols == old(self).cols,
            final(self).rows == old(self).rows,
            final(self).cell(x as int, y as int) == value,
            forall|i: int, j: int|
                old(self).in_bounds(i, j) && (i != x || j != y) ==> final(self).cell(i, j) == old(
                    self,
                ).cell(i, j),
            final(self)@ == old(self)@.update(y as int, old(self)@[y as int].update(x as int, value)),
    {
        self.data[y][x] = value;
        assert(self@ =~= old(self)@.update(y as int, old(self)@[y as int].update(x as int, value)));
    }

    /// The number of cells that are not collapsed.
    pub open spec fn open_cells(&self) -> nat {
        open_in_grid(self@)
    }
}

impl vstd::std_specs::core::IndexSpecImpl<(usize, usize)> for Matrix {
    open spec fn index_req(&self, index: &(usize, usize)) -> bool {
        self.well_formed() && self.in_bounds(index.0 as int, index.1 as int)
    }
}

impl Index<(usize, usize)> for Matrix {
    type Output = i8;

    fn index(&self, index: (usize, usize)) -> (value: &i8)
        ensures
            *value == self.cell(index.0 as int, index.1 as int),
    {
        let (col, row) = index;
        &self.data[row][col]
    }
}

} // verus!
