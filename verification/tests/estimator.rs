use rect_estimator::estimator::{
    estimate_probabilities, run_trials, sort_by_area, Tally, SIMULATIONS,
};
use rect_estimator::grid::Grid;
use rect_estimator::types::{Position, Rectangle};

fn probability(tally: &Tally, pos: &Position) -> f64 {
    *tally.counts().get(pos) as f64 / (tally.successes() as f64 + f64::EPSILON)
}

#[test]
fn test_estimate_probabilities() {
    let mut rect_mask = Grid::new(5, 9, false);
    rect_mask.set(&Position::new(4, 2), true);
    rect_mask.set(&Position::new(1, 0), true);
    rect_mask.set(&Position::new(8, 4), true);
    rect_mask.set(&Position::new(6, 1), true);
    rect_mask.set(&Position::new(2, 3), true);
    rect_mask.set(&Position::new(2, 4), true);
    rect_mask.set(&Position::new(3, 4), true);
    rect_mask.set(&Position::new(4, 4), true);
    rect_mask.set(&Position::new(5, 4), true);
    rect_mask.set(&Position::new(3, 2), true);

    let rectangles = vec![
        Rectangle::new(2, 1),
        Rectangle::new(2, 1),
        Rectangle::new(2, 1),
        Rectangle::new(2, 1),
        Rectangle::new(2, 1),
        Rectangle::new(2, 1),
        Rectangle::new(3, 1),
        Rectangle::new(3, 1),
        Rectangle::new(3, 1),
        Rectangle::new(3, 1),
        Rectangle::new(4, 1),
        Rectangle::new(4, 1),
    ];
    let probabilities = estimate_probabilities(&rect_mask, &rectangles);
    assert_eq!(probabilities.counts().rows(), rect_mask.rows());
    assert_eq!(probabilities.counts().cols(), rect_mask.cols());
    // Check if all values are between 0 and 1
    for y in 0..rect_mask.rows() {
        for x in 0..rect_mask.cols() {
            let pos = Position::new(x, y);
            assert!(
                probability(&probabilities, &pos) >= 0.0
                    && probability(&probabilities, &pos) <= 1.0
            );
        }
    }
}

#[test]
fn the_default_number_of_simulations() {
    assert_eq!(SIMULATIONS, 100000);
}

#[test]
fn sort_by_area_puts_the_largest_first() {
    let rectangles = vec![
        Rectangle::new(1, 1),
        Rectangle::new(3, 2),
        Rectangle::new(2, 1),
        Rectangle::new(1, 5),
    ];
    assert_eq!(
        sort_by_area(&rectangles),
        vec![
            Rectangle::new(3, 2),
            Rectangle::new(1, 5),
            Rectangle::new(2, 1),
            Rectangle::new(1, 1),
        ]
    );
    assert_eq!(rectangles[0], Rectangle::new(1, 1));
}

#[test]
fn sort_by_area_keeps_equal_areas_in_their_order() {
    let rectangles = vec![
        Rectangle::new(1, 4),
        Rectangle::new(2, 2),
        Rectangle::new(6, 1),
        Rectangle::new(4, 1),
        Rectangle::new(2, 3),
        Rectangle::new(2, 2),
        Rectangle::new(3, 2),
    ];
    assert_eq!(
        sort_by_area(&rectangles),
        vec![
            Rectangle::new(6, 1),
            Rectangle::new(2, 3),
            Rectangle::new(3, 2),
            Rectangle::new(1, 4),
            Rectangle::new(2, 2),
            Rectangle::new(4, 1),
            Rectangle::new(2, 2),
        ]
    );
}

#[test]
fn sort_by_area_of_nothing_and_of_huge_rectangles() {
    assert!(sort_by_area(&Vec::new()).is_empty());
    let rectangles = vec![
        Rectangle::new(usize::MAX, 2),
        Rectangle::new(usize::MAX, usize::MAX),
        Rectangle::new(1, 1),
        Rectangle::new(usize::MAX, 3),
    ];
    assert_eq!(
        sort_by_area(&rectangles),
        vec![
            Rectangle::new(usize::MAX, usize::MAX),
            Rectangle::new(usize::MAX, 3),
            Rectangle::new(usize::MAX, 2),
            Rectangle::new(1, 1),
        ]
    );
}

#[test]
fn tally_starts_at_zero() {
    let tally = Tally::new(2, 3);
    assert_eq!(tally.successes(), 0);
    assert_eq!(tally.counts().rows(), 2);
    assert_eq!(tally.counts().cols(), 3);
    for y in 0..2 {
        for x in 0..3 {
            assert_eq!(*tally.counts().get(&Position::new(x, y)), 0);
        }
    }
}

#[test]
fn tally_record_counts_the_covered_cells() {
    let mut tally = Tally::new(2, 2);
    let mut labels = Grid::new(2, 2, 0);
    labels.set(&Position::new(1, 0), 3);
    labels.set(&Position::new(0, 1), 1);
    tally.record(&labels);
    tally.record(&labels);
    tally.record(&Grid::new(2, 2, 7));
    assert_eq!(tally.successes(), 3);
    assert_eq!(*tally.counts().get(&Position::new(0, 0)), 1);
    assert_eq!(*tally.counts().get(&Position::new(1, 0)), 3);
    assert_eq!(*tally.counts().get(&Position::new(0, 1)), 3);
    assert_eq!(*tally.counts().get(&Position::new(1, 1)), 1);
}

#[test]
fn tally_merge_adds_cell_by_cell() {
    let mut labels = Grid::new(1, 2, 0);
    labels.set(&Position::new(0, 0), 1);
    let mut left = Tally::new(1, 2);
    left.record(&labels);
    left.record(&Grid::new(1, 2, 0));
    let mut right = Tally::new(1, 2);
    right.record(&Grid::new(1, 2, 2));
    left.merge(&right);
    assert_eq!(left.successes(), 3);
    assert_eq!(*left.counts().get(&Position::new(0, 0)), 2);
    assert_eq!(*left.counts().get(&Position::new(1, 0)), 1);
    assert_eq!(right.successes(), 1);
}

#[test]
fn no_rectangles_give_zero_everywhere() {
    let tally = run_trials(&Grid::new(3, 3, false), &Vec::new(), 500);
    assert_eq!(tally.successes(), 500);
    for y in 0..3 {
        for x in 0..3 {
            let pos = Position::new(x, y);
            assert_eq!(*tally.counts().get(&pos), 0);
            assert_eq!(probability(&tally, &pos), 0.0);
        }
    }
}

#[test]
fn two_small_rectangles_give_probabilities_in_range() {
    let mask = Grid::new(3, 3, false);
    let rectangles = vec![Rectangle::new(1, 1), Rectangle::new(2, 1)];
    let tally = run_trials(&mask, &sort_by_area(&rectangles), 2000);
    assert_eq!(tally.successes(), 2000);
    assert_eq!(tally.counts().rows(), 3);
    assert_eq!(tally.counts().cols(), 3);
    let mut total: usize = 0;
    for y in 0..3 {
        for x in 0..3 {
            let pos = Position::new(x, y);
            assert!(*tally.counts().get(&pos) <= tally.successes());
            assert!(probability(&tally, &pos) >= 0.0 && probability(&tally, &pos) <= 1.0);
            total += *tally.counts().get(&pos);
        }
    }
    assert_eq!(total, 3 * 2000);
}

#[test]
fn a_full_mask_fails_every_trial() {
    let mask = Grid::new(5, 9, true);
    let rectangles = vec![Rectangle::new(1, 1); 46];
    let tally = run_trials(&mask, &rectangles, 300);
    assert_eq!(tally.successes(), 0);
    for y in 0..5 {
        for x in 0..9 {
            let pos = Position::new(x, y);
            assert_eq!(*tally.counts().get(&pos), 0);
            assert_eq!(probability(&tally, &pos), 0.0);
        }
    }
}

#[test]
fn an_exact_fill_covers_every_cell_in_every_trial() {
    let mask = Grid::new(5, 9, false);
    let rectangles = vec![Rectangle::new(1, 1); 45];
    let tally = run_trials(&mask, &rectangles, 200);
    assert_eq!(tally.successes(), 200);
    for y in 0..5 {
        for x in 0..9 {
            let pos = Position::new(x, y);
            assert_eq!(*tally.counts().get(&pos), 200);
            assert!((probability(&tally, &pos) - 1.0).abs() < 1e-12);
        }
    }
}

#[test]
fn a_rectangle_that_fits_only_turned_covers_its_row() {
    let mask = Grid::new(1, 3, false);
    let tally = run_trials(&mask, &vec![Rectangle::new(3, 1)], 200);
    assert_eq!(tally.successes(), 200);
    let turned = run_trials(&mask, &vec![Rectangle::new(1, 3)], 200);
    assert_eq!(turned.successes(), 200);
    for x in 0..3 {
        let pos = Position::new(x, 0);
        assert_eq!(*tally.counts().get(&pos), 200);
        assert_eq!(*turned.counts().get(&pos), 200);
        assert!((probability(&tally, &pos) - 1.0).abs() < 1e-12);
    }
}

#[test]
fn occupied_cells_are_never_counted() {
    let mut mask = Grid::new(4, 4, false);
    mask.set(&Position::new(1, 1), true);
    mask.set(&Position::new(3, 0), true);
    let rectangles = vec![Rectangle::new(2, 2), Rectangle::new(1, 3), Rectangle::new(1, 1)];
    let tally = run_trials(&mask, &sort_by_area(&rectangles), 1000);
    assert!(tally.successes() <= 1000);
    assert_eq!(*tally.counts().get(&Position::new(1, 1)), 0);
    assert_eq!(*tally.counts().get(&Position::new(3, 0)), 0);
    for y in 0..4 {
        for x in 0..4 {
            assert!(*tally.counts().get(&Position::new(x, y)) <= tally.successes());
        }
    }
}

#[test]
fn no_trials_give_an_empty_tally() {
    let tally = run_trials(&Grid::new(2, 2, false), &vec![Rectangle::new(1, 1)], 0);
    assert_eq!(tally.successes(), 0);
    assert_eq!(probability(&tally, &Position::new(0, 0)), 0.0);
}
