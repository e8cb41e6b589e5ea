use crate::grid::Grid;
use vstd::prelude::*;

verus! {

/// The largest number of rows of a mask that is taken on for estimation.
pub const MAX_GRID_ROWS: usize = 9;

/// The largest number of columns of a mask that is taken on for estimation.
pub const MAX_GRID_COLS: usize = 9;

/// Checks if the grid size is valid: neither more rows nor more columns than
/// the two limits allow.
pub fn validate_grid_size(grid: &Grid<bool>) -> (valid: bool)
    ensures
        valid == (grid@.rows <= MAX_GRID_ROWS && grid@.cols <= MAX_GRID_COLS),
{
    grid.rows() <= MAX_GRID_ROWS && grid.cols() <= MAX_GRID_COLS
}

/// Takes a mask as it comes over the wire, its dimensions beside its rows,
/// and returns it as a grid if its shape is valid: the rows are as many and
/// as long as the dimensions say, and the dimensions are within the limits.
/// Any other mask gives `None`.
pub fn admit_mask(rows: usize, cols: usize, data: Vec<Vec<bool>>) -> (mask: Option<Grid<bool>>)
    ensures
        mask.is_some() <==> {
            &&& rows <= MAX_GRID_ROWS
            &&& cols <= MAX_GRID_COLS
            &&& data.len() == rows
            &&& forall|y: int| 0 <= y < data.len() ==> (#[trigger] data[y]).len() == cols
        },
        mask matches Some(grid) ==> {
            &&& grid.wf()
            &&& grid@.rows == rows
            &&& grid@.cols == cols
            &&& grid@.cells == Seq::new(data.len() as nat, |y: int| data[y]@)
        },
{
    match Grid::from_rows(rows, cols, data) {
        Some(grid) => {
            if validate_grid_size(&grid) {
                Some(grid)
            } else {
                None
            }
        },
        None => None,
    }
}

} // verus!
