//! Occupancy grids and the selection of cells whose value passes a filter.
use vstd::prelude::*;
use crate::points::{Point, Points, empty_points, insert_point};

verus! {

/// A snapshot of an occupancy grid: `height` rows of `width` cells, stored
/// row by row. `-1` marks an unknown cell, `0..=100` an occupancy
/// probability.
pub struct Grid {
    pub width: usize,
    pub height: usize,
    pub data: Vec<i8>,
}

impl Grid {
    /// The data holds exactly one value per cell.
    pub open spec fn wf(&self) -> bool {
        self.data@.len() == self.width * self.height
    }

    /// The value of the cell at `p`, for a cell inside the grid.
    pub open spec fn cell(&self, p: Point) -> i8 {
        self.data@[p.0 * self.width + p.1]
    }

    /// `p` names a cell of the grid.
    pub open spec fn contains(&self, p: Point) -> bool {
        p.0 < self.height && p.1 < self.width
    }

    /// Whether the data holds exactly one value per cell.
    pub fn is_well_formed(&self) -> (r: bool)
        ensures
            r == self.wf(),
    {
        let len = self.data.len();
        match self.width.checked_mul(self.height) {
            Some(n) => len == n,
            None => false,
        }
    }

    /// Builds a grid from its dimensions and row-major data; `None` when the
    /// data does not hold exactly `width * height` values.
    pub fn new(width: usize, height: usize, data: Vec<i8>) -> (r: Option<Grid>)
        ensures
            r is Some <==> data@.len() == width * height,
            r matches Some(g) ==> g.wf() && g.width == width && g.height == height && g.data@
                == data@,
    {
        let len = data.len();
        match width.checked_mul(height) {
            Some(n) => {
                if len == n {
                    Some(Grid { width, height, data })
                } else {
                    None
                }
            },
            None => None,
        }
    }
}

/// Which cell values a selection keeps.
#[derive(Clone, Copy, Debug, PartialEq, Eq)]
pub enum CellFilter {
    /// Values strictly greater than the threshold.
    Above(i8),
    /// Values equal to the given one.
    Equals(i8),
}

impl CellFilter {
    pub open spec fn admits(&self, v: i8) -> bool {
        match *self {
            CellFilter::Above(t) => v > t,
            CellFilter::Equals(e) => v == e,
        }
    }

    /// Whether the filter keeps the value `v`.
    pub fn accepts(&self, v: i8) -> (r: bool)
        ensures
            r == self.admits(v),
    {
        match *self {
            CellFilter::Above(t) => v > t,
            CellFilter::Equals(e) => v == e,
        }
    }
}

/// The cells of the grid whose value the filter keeps.
pub open spec fn selected(grid: &Grid, filter: CellFilter) -> Set<Point> {
    Set::new(|p: Point| grid.contains(p) && filter.admits(grid.cell(p)))
}

/// Returns the `(row, col)` indices of the cells whose value the filter
/// keeps. The cell at linear index `i` has row `i / width` and column
/// `i % width`.
pub fn filter_map(grid: &Grid, filter: CellFilter) -> (r: Points)
    requires
        grid.wf(),
    ensures
        r@ == selected(grid, filter),
{
    let mut out = empty_points();
    let len = grid.data.len();
    let mut row: usize = 0;
    while row < grid.height
        invariant
            grid.wf(),
            len == grid.width * grid.height,
            row <= grid.height,
            out@ == Set::new(
                |p: Point| p.0 < row && p.1 < grid.width && filter.admits(grid.cell(p)),
            ),
        decreases grid.height - row,
    {
        let mut col: usize = 0;
        while col < grid.width
            invariant
                grid.wf(),
                len == grid.width * grid.height,
                row < grid.height,
                col <= grid.width,
                out@ == Set::new(
                    |p: Point|
                        (p.0 < row || (p.0 == row && p.1 < col)) && p.1 < grid.width
                            && filter.admits(grid.cell(p)),
                ),
            decreases grid.width - col,
        {
            assert(row * grid.width + col < grid.width * grid.height && row * grid.width
                <= grid.width * grid.height) by (nonlinear_arith)
                requires
                    row < grid.height,
                    col < grid.width,
            ;
            let idx = row * grid.width + col;
            if filter.accepts(grid.data[idx]) {
                insert_point(&mut out, (row, col));
            }
            col = col + 1;
            assert(out@ =~= Set::new(
                |p: Point|
                    (p.0 < row || (p.0 == row && p.1 < col)) && p.1 < grid.width && filter.admits(
                        grid.cell(p),
                    ),
            ));
        }
        row = row + 1;
        assert(out@ =~= Set::new(
            |p: Point| p.0 < row && p.1 < grid.width && filter.admits(grid.cell(p)),
        ));
    }
    assert(out@ =~= selected(grid, filter));
    out
}

} // verus!
