use lau_chaos_theory::grid_of;

#[test]
fn grid_has_requested_shape_and_cells() {
    let grid = grid_of(4, 3, |row, col| row * 10 + col);
    assert_eq!(grid.len(), 3);
    for (r, row) in grid.iter().enumerate() {
        assert_eq!(row.len(), 4);
        for (c, &v) in row.iter().enumerate() {
            assert_eq!(v, r * 10 + c);
        }
    }
}

#[test]
fn grid_of_escape_times_shape() {
    // A 100 x 100 grid of escape-time cells, as the Mandelbrot grid uses.
    let grid = grid_of(100, 100, |row, col| if row == 50 && col == 35 { None } else { Some(row + col) });
    assert_eq!(grid.len(), 100);
    assert_eq!(grid[0].len(), 100);
    assert!(grid[50][35].is_none());
    assert_eq!(grid[2][3], Some(5));
}

#[test]
fn empty_grids() {
    let g: Vec<Vec<u8>> = grid_of(0, 3, |_, _| 1u8);
    assert_eq!(g.len(), 3);
    assert!(g.iter().all(|r| r.is_empty()));
    let g: Vec<Vec<u8>> = grid_of(5, 0, |_, _| 1u8);
    assert!(g.is_empty());
}
