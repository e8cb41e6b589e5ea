use rect_estimator::grid::Grid;
use rect_estimator::types::{Position, Rectangle};

#[test]
fn test_rectangle_new() {
    let rect = Rectangle::new(3, 4);
    assert_eq!(rect.width(), 3);
    assert_eq!(rect.height(), 4);
}

#[test]
fn test_position_new() {
    let pos = Position::new(5, 6);
    assert_eq!(pos.x(), 5);
    assert_eq!(pos.y(), 6);
}

#[test]
fn test_grid_new() {
    let grid: Grid<f64> = Grid::new(2, 3, 1.0);
    assert_eq!(grid.rows(), 2);
    assert_eq!(grid.cols(), 3);
    for y in 0..grid.rows() {
        for x in 0..grid.cols() {
            assert_eq!(*grid.get(&Position::new(x, y)), 1.0);
        }
    }
}

#[test]
fn test_grid_all() {
    let grid: Grid<bool> = Grid::new(2, 2, true);
    let rect = Rectangle::new(2, 2);
    let pos = Position::new(0, 0);
    assert!(grid.all(&pos, &rect, &true));
}

#[test]
fn test_grid_all_out_of_bounds() {
    let grid: Grid<bool> = Grid::new(2, 2, true);
    let rect = Rectangle::new(2, 2);
    let pos = Position::new(1, 1);
    assert!(!grid.all(&pos, &rect, &true));
}

#[test]
fn test_grid_div() {
    let grid: Grid<f64> = Grid::new(2, 2, 4.0);
    let result = grid / 2.0;
    for y in 0..result.rows() {
        for x in 0..result.cols() {
            assert_eq!(*result.get(&Position::new(x, y)), 2.0);
        }
    }
}

#[test]
fn test_grid_div_assign() {
    let mut grid: Grid<f64> = Grid::new(2, 2, 4.0);
    grid.div_assign(2.0);
    for y in 0..grid.rows() {
        for x in 0..grid.cols() {
            assert_eq!(*grid.get(&Position::new(x, y)), 2.0);
        }
    }
}

#[test]
fn rectangle_transpose_swaps_the_extents() {
    let mut rect = Rectangle::new(3, 4);
    rect.transpose();
    assert_eq!(rect, Rectangle::new(4, 3));
    assert_eq!(rect.width(), 4);
    assert_eq!(rect.height(), 3);
}

#[test]
fn rectangle_transposed_twice_is_itself() {
    let mut rect = Rectangle::new(7, 2);
    rect.transpose();
    rect.transpose();
    assert_eq!(rect, Rectangle::new(7, 2));
    let mut square = Rectangle::new(5, 5);
    square.transpose();
    assert_eq!(square, Rectangle::new(5, 5));
}

#[test]
fn rectangle_area_is_the_product() {
    assert_eq!(Rectangle::new(3, 4).area(), 12);
    assert_eq!(Rectangle::new(1, 1).area(), 1);
    assert_eq!(Rectangle::new(0, 9).area(), 0);
    let mut rect = Rectangle::new(2, 9);
    rect.transpose();
    assert_eq!(rect.area(), 18);
}

#[test]
fn grid_of_no_rows_keeps_its_columns() {
    let grid: Grid<bool> = Grid::new(0, 5, false);
    assert_eq!(grid.rows(), 0);
    assert_eq!(grid.cols(), 5);
    let wide: Grid<bool> = Grid::new(4, 0, false);
    assert_eq!(wide.rows(), 4);
    assert_eq!(wide.cols(), 0);
}

#[test]
fn grid_set_changes_one_cell() {
    let mut grid: Grid<usize> = Grid::new(3, 4, 7);
    grid.set(&Position::new(2, 1), 9);
    for y in 0..3 {
        for x in 0..4 {
            let expected = if x == 2 && y == 1 { 9 } else { 7 };
            assert_eq!(*grid.get(&Position::new(x, y)), expected);
        }
    }
    assert_eq!(grid.rows(), 3);
    assert_eq!(grid.cols(), 4);
}

#[test]
fn grid_clone_is_independent() {
    let mut grid: Grid<usize> = Grid::new(2, 2, 1);
    let copy = grid.clone();
    grid.set(&Position::new(0, 0), 5);
    assert_eq!(*copy.get(&Position::new(0, 0)), 1);
    assert_eq!(*grid.get(&Position::new(0, 0)), 5);
    assert_eq!(copy.rows(), 2);
    assert_eq!(copy.cols(), 2);
}

#[test]
fn grid_from_rows_takes_a_rectangular_table() {
    let data = vec![vec![true, false, true], vec![false, false, true]];
    let grid = Grid::from_rows(2, 3, data).expect("two rows of three");
    assert_eq!(grid.rows(), 2);
    assert_eq!(grid.cols(), 3);
    assert!(*grid.get(&Position::new(0, 0)));
    assert!(!*grid.get(&Position::new(1, 0)));
    assert!(*grid.get(&Position::new(2, 0)));
    assert!(!*grid.get(&Position::new(0, 1)));
    assert!(!*grid.get(&Position::new(1, 1)));
    assert!(*grid.get(&Position::new(2, 1)));
}

#[test]
fn grid_from_rows_refuses_other_shapes() {
    assert!(Grid::from_rows(2, 3, vec![vec![1, 2, 3], vec![4, 5]]).is_none());
    assert!(Grid::from_rows(2, 3, vec![vec![1, 2, 3]]).is_none());
    assert!(Grid::from_rows(1, 3, vec![vec![1, 2, 3], vec![4, 5, 6]]).is_none());
    assert!(Grid::from_rows(2, 2, vec![vec![1, 2, 3], vec![4, 5, 6]]).is_none());
    assert!(Grid::from_rows(0, 0, vec![vec![1]]).is_none());
    let empty: Vec<Vec<u8>> = Vec::new();
    let grid = Grid::from_rows(0, 4, empty).expect("no rows at all");
    assert_eq!(grid.rows(), 0);
    assert_eq!(grid.cols(), 4);
}

#[test]
fn grid_all_is_the_conjunction_over_the_region() {
    let mut grid: Grid<bool> = Grid::new(3, 4, false);
    grid.set(&Position::new(2, 1), true);
    assert!(grid.all(&Position::new(0, 0), &Rectangle::new(2, 3), &false));
    assert!(!grid.all(&Position::new(0, 0), &Rectangle::new(3, 2), &false));
    assert!(grid.all(&Position::new(0, 0), &Rectangle::new(3, 1), &false));
    assert!(grid.all(&Position::new(2, 1), &Rectangle::new(1, 1), &true));
    assert!(!grid.all(&Position::new(2, 1), &Rectangle::new(2, 1), &true));
    assert!(grid.all(&Position::new(3, 0), &Rectangle::new(1, 3), &false));
    assert!(grid.all(&Position::new(0, 2), &Rectangle::new(4, 1), &false));
}

#[test]
fn grid_all_is_false_beyond_the_grid() {
    let grid: Grid<bool> = Grid::new(3, 4, false);
    assert!(grid.all(&Position::new(0, 0), &Rectangle::new(4, 3), &false));
    assert!(!grid.all(&Position::new(0, 0), &Rectangle::new(5, 3), &false));
    assert!(!grid.all(&Position::new(0, 0), &Rectangle::new(4, 4), &false));
    assert!(!grid.all(&Position::new(1, 0), &Rectangle::new(4, 1), &false));
    assert!(!grid.all(&Position::new(0, 1), &Rectangle::new(1, 3), &false));
    assert!(!grid.all(&Position::new(4, 0), &Rectangle::new(1, 1), &false));
    assert!(!grid.all(&Position::new(0, 3), &Rectangle::new(1, 1), &false));
}

#[test]
fn grid_all_does_not_wrap_around() {
    let grid: Grid<bool> = Grid::new(2, 2, false);
    assert!(!grid.all(&Position::new(1, 0), &Rectangle::new(usize::MAX, 1), &false));
    assert!(!grid.all(&Position::new(0, 1), &Rectangle::new(1, usize::MAX), &false));
    assert!(!grid.all(&Position::new(usize::MAX, 0), &Rectangle::new(1, 1), &false));
    assert!(!grid.all(&Position::new(usize::MAX, usize::MAX), &Rectangle::new(2, 2), &false));
}

#[test]
fn grid_all_of_an_empty_region() {
    let grid: Grid<bool> = Grid::new(2, 2, true);
    assert!(grid.all(&Position::new(0, 0), &Rectangle::new(0, 2), &false));
    assert!(grid.all(&Position::new(2, 2), &Rectangle::new(0, 0), &false));
    assert!(!grid.all(&Position::new(3, 0), &Rectangle::new(0, 1), &false));
}

#[test]
fn grid_fill_writes_the_region_only() {
    let mut grid: Grid<usize> = Grid::new(4, 5, 0);
    grid.fill(&Position::new(1, 2), &Rectangle::new(3, 2), 8);
    for y in 0..4 {
        for x in 0..5 {
            let inside = (1..4).contains(&x) && (2..4).contains(&y);
            assert_eq!(*grid.get(&Position::new(x, y)), if inside { 8 } else { 0 });
        }
    }
    grid.fill(&Position::new(4, 0), &Rectangle::new(0, 3), 5);
    assert_eq!(*grid.get(&Position::new(4, 0)), 0);
}

#[test]
fn grid_map_keeps_the_shape() {
    let mut grid: Grid<usize> = Grid::new(2, 3, 4);
    grid.set(&Position::new(1, 1), 10);
    let halves = grid.map(|v| v as f64 / 2.0);
    assert_eq!(halves.rows(), 2);
    assert_eq!(halves.cols(), 3);
    for y in 0..2 {
        for x in 0..3 {
            let expected = if x == 1 && y == 1 { 5.0 } else { 2.0 };
            assert_eq!(*halves.get(&Position::new(x, y)), expected);
        }
    }
}

#[test]
fn grid_div_of_integers_truncates() {
    let mut grid: Grid<usize> = Grid::new(2, 2, 7);
    grid.set(&Position::new(0, 1), 9);
    let result = grid / 2;
    assert_eq!(result.rows(), 2);
    assert_eq!(result.cols(), 2);
    assert_eq!(*result.get(&Position::new(0, 0)), 3);
    assert_eq!(*result.get(&Position::new(1, 0)), 3);
    assert_eq!(*result.get(&Position::new(0, 1)), 4);
    assert_eq!(*result.get(&Position::new(1, 1)), 3);
}

#[test]
fn grid_div_by_zero_of_floats_is_not_finite() {
    let grid: Grid<f64> = Grid::new(1, 2, 1.0);
    let result = grid / 0.0;
    assert!(result.get(&Position::new(0, 0)).is_infinite());
    assert!(result.get(&Position::new(1, 0)).is_infinite());
}
