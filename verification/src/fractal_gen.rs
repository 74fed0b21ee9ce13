//! Fractal generation: the grids of escape times.

use vstd::prelude::*;

verus! {

/// Build a grid of `height` rows of `width` cells each, whose cell in row
/// `row` and column `col` is `cell(row, col)`; rows are computed top to
/// bottom, each from left to right.
pub fn grid_of<T, F: Fn(usize, usize) -> T>(width: usize, height: usize, cell: F) -> (grid: Vec<Vec<T>>)
    requires
        forall|r: usize, c: usize| r < height && c < width ==> #[trigger] cell.requires((r, c)),
    ensures
        grid.len() == height,
        forall|r: int| 0 <= r < height ==> #[trigger] grid@[r].len() == width,
        forall|r: int, c: int|
            0 <= r < height && 0 <= c < width ==> cell.ensures(
                (r as usize, c as usize),
                #[trigger] grid@[r]@[c],
            ),
{
    let mut grid: Vec<Vec<T>> = Vec::new();
    let mut row: usize = 0;
    while row < height
        invariant
            row <= height,
            grid.len() == row,
            forall|r: usize, c: usize| r < height && c < width ==> #[trigger] cell.requires((r, c)),
            forall|r: int| 0 <= r < row ==> #[trigger] grid@[r].len() == width,
            forall|r: int, c: int|
                0 <= r < row && 0 <= c < width ==> cell.ensures(
                    (r as usize, c as usize),
                    #[trigger] grid@[r]@[c],
                ),
        decreases height - row,
    {
        let mut row_data: Vec<T> = Vec::new();
        let mut col: usize = 0;
        while col < width
            invariant
                row < height,
                col <= width,
                row_data.len() == col,
                forall|r: usize, c: usize| r < height && c < width ==> #[trigger] cell.requires((r, c)),
                forall|c: int| 0 <= c < col ==> cell.ensures((row, c as usize), #[trigger] row_data@[c]),
            decreases width - col,
        {
            let v = cell(row, col);
            row_data.push(v);
            col = col + 1;
        }
        grid.push(row_data);
        proof {
            assert forall|r: int, c: int| 0 <= r < row + 1 && 0 <= c < width implies cell.ensures(
                (r as usize, c as usize),
                #[trigger] grid@[r]@[c],
            ) by {
                if r == row {
                    assert(row_data@[c] == grid@[r]@[c]);
                }
            }
        }
        row = row + 1;
    }
    grid
}

} // verus!
