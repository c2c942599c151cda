use rdiff::grid::Grid;

#[test]
fn test_grid() {
    let n_rows: usize = 4;
    let n_cols: usize = 3;
    let mut grid = Grid::new(n_rows, n_cols);

    // Initialize grid
    for r in 0..n_rows {
        for c in 0..n_cols {
            assert!(
                grid.set(r, c, r * n_cols + c).is_ok(),
                "Grid::set returned Err even though the provided bounds are valid!"
            );
        }
    }

    println!("Grid contents:\n{}", grid.render());

    // Make sure the values are what we expect
    for r in 0..n_rows {
        for c in 0..n_cols {
            assert!(
                grid.get(r, c).is_some(),
                "Grid::get returned None even though the provided bounds are valid!"
            );
            assert_eq!(grid.get(r, c).unwrap(), r * n_cols + c);
        }
    }
}

#[test]
fn grid_zero_by_zero() {
    let mut grid = Grid::new(0, 0);
    assert_eq!(grid.size(), (0, 0));
    assert!(grid.get(0, 0).is_none());
    assert!(grid.set(0, 0, 1).is_err());
}

#[test]
fn grid_rejects_out_of_bounds() {
    let mut grid = Grid::new(4, 3);
    // coordinates past either edge are refused, even those whose flat
    // offset would still land inside the storage
    assert!(grid.get(0, 3).is_none());
    assert!(grid.get(4, 0).is_none());
    assert!(grid.get(4, 3).is_none());
    assert!(grid.set(1, 3, 7).is_err());
    assert!(grid.set(4, 1, 7).is_err());
    assert_eq!(grid.size(), (4, 3));
}

#[test]
fn grid_clear_resets_cells() {
    let mut grid = Grid::new(2, 2);
    assert!(grid.set(0, 0, 4).is_ok());
    assert!(grid.set(1, 1, 9).is_ok());
    grid.clear();
    assert_eq!(grid.size(), (2, 2));
    assert_eq!(grid.get(0, 0), Some(0));
    assert_eq!(grid.get(1, 1), Some(0));
}

#[test]
fn grid_render_decimal() {
    let mut grid = Grid::new(2, 2);
    assert!(grid.set(0, 1, 12).is_ok());
    assert!(grid.set(1, 0, 305).is_ok());
    assert_eq!(grid.render(), "0, 12, \n305, 0, \n");
}
