//! What can be said of the placements of given rectangles on a given mask
//! before any trial is run: where none exists, where none can fail, and which
//! cells all of them cover.

use crate::estimator::{
    always_covered, is_area_order, lemma_area_order_same_rectangles, never_covered, unplaceable,
};
use crate::grid::{in_region, lemma_same_cells, GridView};
use crate::placer::{
    accepts, can_place, dead_end, is_free_cell, is_placement, lists_free_cells, mask_before,
    oriented, placed_at, precedes, rect_placed, stuck_after,
};
use crate::types::{Position, Rectangle};
use vstd::prelude::*;
use vstd::set_lib::{lemma_int_range, lemma_len_subset, lemma_subset_equality, set_int_range};

verus! {

/// The rectangle that covers one cell.
pub open spec fn unit_square() -> Rectangle {
    Rectangle { width: 1, height: 1 }
}

/// Whether each of the rectangles covers one cell.
pub open spec fn all_unit_squares(rects: Seq<Rectangle>) -> bool {
    forall|k: int| 0 <= k < rects.len() ==> #[trigger] rects[k] == unit_square()
}

/// No placement covers a cell that is occupied in the mask.
pub proof fn lemma_occupied_cell_never_covered(
    mask: GridView<bool>,
    rects: Seq<Rectangle>,
    x: int,
    y: int,
)
    requires
        mask.contains(x, y),
        mask.at(x, y),
    ensures
        never_covered(mask, rects, x, y),
{
    assert forall|labels: GridView<usize>| #[trigger]
        is_placement(mask, rects, labels) implies labels.at(x, y) == 0 by {
        assert(labels.contains(x, y));
    }
}

/// Rectangles of which one finds no anchor on the mask as it is have no
/// placement: so it is on a mask without a free cell, and with a rectangle
/// that is too large for the grid.
pub proof fn lemma_needs_room(mask: GridView<bool>, rects: Seq<Rectangle>, k: int)
    requires
        0 <= k < rects.len(),
        !can_place(mask, rects[k]),
    ensures
        unplaceable(mask, rects),
{
    assert forall|labels: GridView<usize>| !#[trigger] is_placement(mask, rects, labels) by {
        if is_placement(mask, rects, labels) {
            assert(rect_placed(mask, labels, rects, k));
            let p = choose|p: Position| #[trigger] placed_at(mask, labels, rects, k, p);
            let found = mask_before(mask, labels, k);
            let (x0, y0) = (p.x as int, p.y as int);
            let (w, h) = (rects[k].width as int, rects[k].height as int);
            if found.region_all(x0, y0, w, h, false) {
                assert forall|cx: int, cy: int| in_region(x0, y0, w, h, cx, cy) implies !(
                #[trigger] mask.at(cx, cy)) by {
                    assert(!found.at(cx, cy));
                }
            } else {
                assert forall|cx: int, cy: int| in_region(x0, y0, h, w, cx, cy) implies !(
                #[trigger] mask.at(cx, cy)) by {
                    assert(!found.at(cx, cy));
                }
            }
            assert(is_free_cell(mask, p) && accepts(mask, p, rects[k]));
        }
    }
}

/// A rectangle that finds an anchor on the mask is placed by every trial that
/// has only this rectangle to place.
pub proof fn lemma_single_rectangle(mask: GridView<bool>, rect: Rectangle)
    requires
        mask.wf(),
        can_place(mask, rect),
    ensures
        !dead_end(mask, seq![rect]),
{
    let rects = seq![rect];
    if dead_end(mask, rects) {
        let (k, labels) = choose|k: int, labels: GridView<usize>| #[trigger]
            stuck_after(mask, rects, k, labels);
        assert(k == 0);
        lemma_same_cells(mask_before(mask, labels, 0), mask);
    }
}

/// A rectangle with as many cells as the grid covers every cell of the grid
/// wherever it is placed.
pub proof fn lemma_whole_grid_rectangle(
    mask: GridView<bool>,
    rects: Seq<Rectangle>,
    k: int,
    x: int,
    y: int,
)
    requires
        0 <= k < rects.len(),
        rects[k].spec_area() == mask.rows * mask.cols,
        mask.contains(x, y),
    ensures
        always_covered(mask, rects, x, y),
{
    assert forall|labels: GridView<usize>| #[trigger]
        is_placement(mask, rects, labels) implies labels.at(x, y) > 0 by {
        assert(rect_placed(mask, labels, rects, k));
        let p = choose|p: Position| #[trigger] placed_at(mask, labels, rects, k, p);
        let laid = oriented(mask_before(mask, labels, k), p, rects[k]);
        let (w, h) = (laid.width as int, laid.height as int);
        let (rows, cols) = (mask.rows as int, mask.cols as int);
        assert(w * h == rows * cols) by (nonlinear_arith)
            requires
                rects[k].width * rects[k].height == rows * cols,
                (w == rects[k].width && h == rects[k].height) || (w == rects[k].height && h
                    == rects[k].width),
        ;
        assert(w == cols && h == rows) by (nonlinear_arith)
            requires
                w * h == rows * cols,
                0 <= w <= cols,
                0 <= h <= rows,
                rows > 0,
                cols > 0,
        ;
        assert(labels.contains(x, y));
        assert(in_region(p.x as int, p.y as int, w, h, x, y));
    }
}

/// A sequence of distinct numbers below `bound` has at most `bound` numbers,
/// and if it has that many it has every number below `bound`.
proof fn lemma_distinct_below(numbers: Seq<int>, bound: int)
    requires
        0 <= bound,
        numbers.no_duplicates(),
        forall|i: int| 0 <= i < numbers.len() ==> 0 <= #[trigger] numbers[i] < bound,
    ensures
        numbers.len() <= bound,
        numbers.len() == bound ==> forall|v: int| 0 <= v < bound ==> numbers.contains(v),
{
    let below = set_int_range(0, bound);
    lemma_int_range(0, bound);
    numbers.unique_seq_to_set();
    assert(numbers.to_set().subset_of(below)) by {
        assert forall|v: int| numbers.to_set().contains(v) implies below.contains(v) by {
            let i = choose|i: int| 0 <= i < numbers.len() && numbers[i] == v;
            assert(0 <= numbers[i] < bound);
        }
    }
    lemma_len_subset(numbers.to_set(), below);
    if numbers.len() == bound {
        lemma_subset_equality(numbers.to_set(), below);
        assert forall|v: int| 0 <= v < bound implies numbers.contains(v) by {
            assert(below.contains(v));
            assert(numbers.to_set().contains(v));
        }
    }
}

/// In a placement of unit squares the square of index `k` covers one cell,
/// which is free in the mask and is the only cell labelled `k + 1`.
proof fn lemma_unit_square_cell(
    mask: GridView<bool>,
    rects: Seq<Rectangle>,
    labels: GridView<usize>,
    k: int,
) -> (p: Position)
    requires
        is_placement(mask, rects, labels),
        all_unit_squares(rects),
        0 <= k < rects.len(),
    ensures
        is_free_cell(mask, p),
        labels.at(p.x as int, p.y as int) == k + 1,
        forall|x: int, y: int|
            labels.contains(x, y) && #[trigger] labels.at(x, y) == k + 1 ==> x == p.x && y == p.y,
{
    assert(rect_placed(mask, labels, rects, k));
    let p = choose|p: Position| #[trigger] placed_at(mask, labels, rects, k, p);
    assert(rects[k] == unit_square());
    assert(oriented(mask_before(mask, labels, k), p, rects[k]) == unit_square());
    assert(in_region(p.x as int, p.y as int, 1, 1, p.x as int, p.y as int));
    assert(labels.contains(p.x as int, p.y as int));
    assert(!mask_before(mask, labels, k).at(p.x as int, p.y as int));
    assert(labels.at(p.x as int, p.y as int) == k + 1);
    assert forall|x: int, y: int| labels.contains(x, y) && #[trigger] labels.at(x, y) == k
        + 1 implies x == p.x && y == p.y by {
        assert(in_region(p.x as int, p.y as int, 1, 1, x, y));
    }
    p
}

/// Unit squares that are no more than the mask has free cells never come to a
/// dead end: every trial places them all.
pub proof fn lemma_unit_squares_never_stuck(
    mask: GridView<bool>,
    rects: Seq<Rectangle>,
    free: Seq<Position>,
)
    requires
        mask.wf(),
        lists_free_cells(mask, free),
        all_unit_squares(rects),
        rects.len() <= free.len(),
    ensures
        !dead_end(mask, rects),
{
    if dead_end(mask, rects) {
        let (k, labels) = choose|k: int, labels: GridView<usize>| #[trigger]
            stuck_after(mask, rects, k, labels);
        let done = rects.take(k);
        let now = mask_before(mask, labels, k);
        assert(all_unit_squares(done));
        assert(rects[k] == unit_square());
        // No cell is free any more, so each free cell of the mask is covered.
        assert forall|i: int| 0 <= i < free.len() implies labels.at(
            (#[trigger] free[i]).x as int,
            free[i].y as int,
        ) > 0 by {
            let p = free[i];
            assert(is_free_cell(mask, p));
            if labels.at(p.x as int, p.y as int) == 0 {
                assert(labels.contains(p.x as int, p.y as int));
                assert(!now.at(p.x as int, p.y as int));
                assert forall|cx: int, cy: int|
                    in_region(p.x as int, p.y as int, 1, 1, cx, cy) implies !(#[trigger] now.at(
                    cx,
                    cy,
                )) by {}
                assert(now.region_all(p.x as int, p.y as int, 1, 1, false));
                assert(is_free_cell(now, p) && accepts(now, p, rects[k]));
            }
        }
        let numbers = Seq::new(
            free.len(),
            |i: int| labels.at(free[i].x as int, free[i].y as int) - 1,
        );
        assert forall|i: int| 0 <= i < numbers.len() implies 0 <= #[trigger] numbers[i] < k by {
            assert(is_free_cell(mask, free[i]));
            assert(labels.contains(free[i].x as int, free[i].y as int));
            assert(labels.at(free[i].x as int, free[i].y as int) <= done.len());
        }
        assert forall|i: int, j: int|
            0 <= i < numbers.len() && 0 <= j < numbers.len() && i != j implies numbers[i]
            != numbers[j] by {
            if numbers[i] == numbers[j] {
                assert(is_free_cell(mask, free[i]) && is_free_cell(mask, free[j]));
                let p = lemma_unit_square_cell(mask, done, labels, numbers[i]);
                assert(labels.at(free[i].x as int, free[i].y as int) == numbers[i] + 1);
                assert(labels.at(free[j].x as int, free[j].y as int) == numbers[i] + 1);
                assert(free[i] == free[j]);
                if i < j {
                    assert(precedes(free[i], free[j]));
                } else {
                    assert(precedes(free[j], free[i]));
                }
            }
        }
        lemma_distinct_below(numbers, k);
    }
}

/// Unit squares that are as many as the mask has free cells cover every free
/// cell, wherever each of them is placed.
pub proof fn lemma_unit_squares_cover_free_cells(
    mask: GridView<bool>,
    rects: Seq<Rectangle>,
    free: Seq<Position>,
    x: int,
    y: int,
)
    requires
        mask.wf(),
        lists_free_cells(mask, free),
        all_unit_squares(rects),
        rects.len() == free.len(),
        mask.rows <= usize::MAX,
        mask.cols <= usize::MAX,
        mask.contains(x, y),
        !mask.at(x, y),
    ensures
        always_covered(mask, rects, x, y),
{
    assert forall|labels: GridView<usize>| #[trigger]
        is_placement(mask, rects, labels) implies labels.at(x, y) > 0 by {
        let target = Position { x: x as usize, y: y as usize };
        assert(is_free_cell(mask, target));
        assert(free.contains(target));
        let at = free.index_of(target);
        let cell = |k: int|
            choose|p: Position|
                is_free_cell(mask, p) && labels.at(p.x as int, p.y as int) == k + 1;
        let numbers = Seq::new(rects.len(), |k: int| free.index_of(cell(k)));
        assert forall|k: int| 0 <= k < rects.len() implies {
            &&& 0 <= #[trigger] numbers[k] < free.len()
            &&& free[numbers[k]] == cell(k)
            &&& labels.at(cell(k).x as int, cell(k).y as int) == k + 1
        } by {
            let p = lemma_unit_square_cell(mask, rects, labels, k);
            assert(is_free_cell(mask, cell(k)));
            assert(free.contains(cell(k)));
        }
        assert forall|i: int, j: int|
            0 <= i < numbers.len() && 0 <= j < numbers.len() && i != j implies numbers[i]
            != numbers[j] by {
            assert(free[numbers[i]] == cell(i));
            assert(free[numbers[j]] == cell(j));
        }
        lemma_distinct_below(numbers, free.len() as int);
        assert(numbers.contains(at));
        let k = choose|k: int| 0 <= k < numbers.len() && numbers[k] == at;
        assert(free[numbers[k]] == cell(k));
        assert(labels.at(x, y) == k + 1);
    }
}

/// Unit squares stay unit squares when they are put in the order of their
/// area, so what holds of trials with unit squares holds of estimates too.
pub proof fn lemma_area_order_of_unit_squares(rects: Seq<Rectangle>, order: Seq<Rectangle>)
    requires
        is_area_order(rects, order),
        all_unit_squares(rects),
    ensures
        all_unit_squares(order),
        order.len() == rects.len(),
{
    assert forall|k: int| 0 <= k < order.len() implies #[trigger] order[k] == unit_square() by {
        assert(order.contains(order[k]));
        lemma_area_order_same_rectangles(rects, order, order[k]);
        let i = choose|i: int| 0 <= i < rects.len() && rects[i] == order[k];
        assert(rects[i] == unit_square());
    }
}

} // verus!
