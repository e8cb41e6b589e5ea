use rect_estimator::api::{admit_mask, validate_grid_size, MAX_GRID_COLS, MAX_GRID_ROWS};
use rect_estimator::grid::Grid;
use rect_estimator::types::Position;

#[test]
fn test_validate_grid_size() {
    let valid_grid = Grid::new(MAX_GRID_ROWS, MAX_GRID_COLS, false);
    let invalid_grid = Grid::new(MAX_GRID_ROWS + 1, MAX_GRID_COLS + 1, false);

    assert!(validate_grid_size(&valid_grid));
    assert!(!validate_grid_size(&invalid_grid));
}

#[test]
fn the_limits_are_nine_by_nine() {
    assert_eq!(MAX_GRID_ROWS, 9);
    assert_eq!(MAX_GRID_COLS, 9);
}

#[test]
fn validate_grid_size_checks_each_dimension() {
    assert!(validate_grid_size(&Grid::new(0, 0, false)));
    assert!(validate_grid_size(&Grid::new(5, 9, true)));
    assert!(!validate_grid_size(&Grid::new(10, 9, false)));
    assert!(!validate_grid_size(&Grid::new(9, 10, false)));
    assert!(!validate_grid_size(&Grid::new(10, 10, false)));
    assert!(!validate_grid_size(&Grid::new(0, 10, false)));
}

#[test]
fn admit_mask_takes_a_valid_mask() {
    let data = vec![vec![false, true], vec![true, false], vec![false, false]];
    let mask = admit_mask(3, 2, data).expect("three rows of two");
    assert_eq!(mask.rows(), 3);
    assert_eq!(mask.cols(), 2);
    assert!(!*mask.get(&Position::new(0, 0)));
    assert!(*mask.get(&Position::new(1, 0)));
    assert!(*mask.get(&Position::new(0, 1)));
    assert!(!*mask.get(&Position::new(1, 1)));
    assert!(!*mask.get(&Position::new(0, 2)));
    assert!(!*mask.get(&Position::new(1, 2)));
}

#[test]
fn admit_mask_refuses_a_mask_beyond_the_limits() {
    assert!(admit_mask(10, 10, vec![vec![false; 10]; 10]).is_none());
    assert!(admit_mask(10, 1, vec![vec![false; 1]; 10]).is_none());
    assert!(admit_mask(1, 10, vec![vec![false; 10]; 1]).is_none());
    assert!(admit_mask(9, 9, vec![vec![false; 9]; 9]).is_some());
}

#[test]
fn admit_mask_refuses_ragged_rows_and_wrong_counts() {
    assert!(admit_mask(2, 2, vec![vec![false, false], vec![false]]).is_none());
    assert!(admit_mask(2, 2, vec![vec![false, false]]).is_none());
    assert!(admit_mask(3, 3, vec![vec![false; 2]; 3]).is_none());
    assert!(admit_mask(0, 0, Vec::new()).is_some());
}
