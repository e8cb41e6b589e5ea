use crate::grid::{in_region, lemma_same_cells, Grid, GridView};
use crate::types::{Position, Rectangle};
use rand::rngs::ThreadRng;
use rand::seq::SliceRandom;
use vstd::prelude::*;

verus! {

/// Whether `p` addresses a cell of `mask` that nothing occupies.
pub open spec fn is_free_cell(mask: GridView<bool>, p: Position) -> bool {
    mask.contains(p.x as int, p.y as int) && !mask.at(p.x as int, p.y as int)
}

/// Whether `a` comes before `b` when the cells are read row by row.
pub open spec fn precedes(a: Position, b: Position) -> bool {
    a.y < b.y || (a.y == b.y && a.x < b.x)
}

/// Whether `list` holds the free cells of `mask`, each of them once, in the
/// order in which they are met when the grid is read row by row.
pub open spec fn lists_free_cells(mask: GridView<bool>, list: Seq<Position>) -> bool {
    &&& forall|i: int| 0 <= i < list.len() ==> is_free_cell(mask, #[trigger] list[i])
    &&& forall|p: Position| #[trigger] is_free_cell(mask, p) ==> list.contains(p)
    &&& forall|i: int, j: int|
        0 <= i < j < list.len() ==> precedes(#[trigger] list[i], #[trigger] list[j])
}

/// Whether a rectangle anchored at `p` stays inside a grid of `cols` columns
/// and `rows` rows in at least one of its two orientations.
pub open spec fn fits_grid(p: Position, rect: Rectangle, cols: int, rows: int) -> bool {
    (p.x + rect.width <= cols && p.y + rect.height <= rows) || (p.x + rect.height <= cols && p.y
        + rect.width <= rows)
}

/// Finds the free cells of a mask, in which `true` marks an occupied cell, row
/// by row.
pub fn find_masked_positions(rect_mask: &Grid<bool>) -> (positions: Vec<Position>)
    requires
        rect_mask.wf(),
    ensures
        lists_free_cells(rect_mask@, positions@),
{
    let rows = rect_mask.rows();
    let cols = rect_mask.cols();
    let mut positions: Vec<Position> = Vec::new();
    let mut y: usize = 0;
    while y < rows
        invariant
            y <= rows,
            rows == rect_mask@.rows,
            cols == rect_mask@.cols,
            rect_mask.wf(),
            forall|i: int|
                0 <= i < positions.len() ==> is_free_cell(rect_mask@, #[trigger] positions[i]),
            forall|i: int| 0 <= i < positions.len() ==> (#[trigger] positions[i]).y < y,
            forall|p: Position| #[trigger]
                is_free_cell(rect_mask@, p) && p.y < y ==> positions@.contains(p),
            forall|i: int, j: int|
                0 <= i < j < positions.len() ==> precedes(
                    #[trigger] positions[i],
                    #[trigger] positions[j],
                ),
        decreases rows - y,
    {
        let mut x: usize = 0;
        while x < cols
            invariant
                y < rows,
                x <= cols,
                rows == rect_mask@.rows,
                cols == rect_mask@.cols,
                rect_mask.wf(),
                forall|i: int|
                0 <= i < positions.len() ==> is_free_cell(rect_mask@, #[trigger] positions[i]),
                forall|i: int|
                    0 <= i < positions.len() ==> precedes(
                        #[trigger] positions[i],
                        Position { x, y },
                    ),
                forall|p: Position| #[trigger]
                    is_free_cell(rect_mask@, p) && precedes(p, Position { x, y })
                        ==> positions@.contains(p),
                forall|i: int, j: int|
                    0 <= i < j < positions.len() ==> precedes(
                        #[trigger] positions[i],
                        #[trigger] positions[j],
                    ),
            decreases cols - x,
        {
            let pos = Position::new(x, y);
            if !*rect_mask.get(&pos) {
                let ghost before = positions@;
                positions.push(pos);
                assert forall|p: Position| #[trigger]
                    is_free_cell(rect_mask@, p) && precedes(
                        p,
                        Position { x: (x + 1) as usize, y },
                    ) implies positions@.contains(p) by {
                    if p == pos {
                        assert(positions@[before.len() as int] == p);
                    } else {
                        assert(before.contains(p));
                        let i = choose|i: int| 0 <= i < before.len() && before[i] == p;
                        assert(positions@[i] == p);
                    }
                }
            }
            x += 1;
        }
        y += 1;
    }
    positions
}

/// Keeps the positions at which `rect` stays inside a grid of
/// `grid_size.0` columns and `grid_size.1` rows in at least one of its two
/// orientations, in their order.
pub fn filter_positions(
    positions: Vec<Position>,
    rect: &Rectangle,
    grid_size: (usize, usize),
) -> (kept: Vec<Position>)
    ensures
        kept@ == positions@.filter(
            |p: Position| fits_grid(p, *rect, grid_size.0 as int, grid_size.1 as int),
        ),
{
    let ghost pred = |p: Position| fits_grid(p, *rect, grid_size.0 as int, grid_size.1 as int);
    let mut kept: Vec<Position> = Vec::new();
    let mut i: usize = 0;
    while i < positions.len()
        invariant
            i <= positions.len(),
            pred == |p: Position| fits_grid(p, *rect, grid_size.0 as int, grid_size.1 as int),
            kept@ == positions@.take(i as int).filter(pred),
        decreases positions.len() - i,
    {
        let pos = positions[i];
        let upright = rect.width <= grid_size.0 && pos.x <= grid_size.0 - rect.width
            && rect.height <= grid_size.1 && pos.y <= grid_size.1 - rect.height;
        let turned = rect.height <= grid_size.0 && pos.x <= grid_size.0 - rect.height
            && rect.width <= grid_size.1 && pos.y <= grid_size.1 - rect.width;
        proof {
            let next = positions@.take(i + 1);
            assert(next.drop_last() =~= positions@.take(i as int));
            assert(next.last() == pos);
            reveal(Seq::filter);
            assert((upright || turned) == pred(pos));
        }
        if upright || turned {
            kept.push(pos);
        }
        i += 1;
    }
    assert(positions@.take(positions.len() as int) =~= positions@);
    kept
}

/// Whether `rect`, anchored at `p`, lies inside `mask` and on free cells only,
/// either as it is or turned by a quarter.
pub open spec fn accepts(mask: GridView<bool>, p: Position, rect: Rectangle) -> bool {
    ||| mask.region_all(p.x as int, p.y as int, rect.width as int, rect.height as int, false)
    ||| mask.region_all(p.x as int, p.y as int, rect.height as int, rect.width as int, false)
}

/// The orientation in which `rect` is laid down at an anchor that accepts it:
/// as it is where that fits, turned by a quarter otherwise.
pub open spec fn oriented(mask: GridView<bool>, p: Position, rect: Rectangle) -> Rectangle {
    if mask.region_all(p.x as int, p.y as int, rect.width as int, rect.height as int, false) {
        rect
    } else {
        rect.transposed()
    }
}

/// Whether some free cell of `mask` accepts `rect` as its anchor.
pub open spec fn can_place(mask: GridView<bool>, rect: Rectangle) -> bool {
    exists|p: Position| is_free_cell(mask, p) && #[trigger] accepts(mask, p, rect)
}

/// The handle of the calling thread's random number generator, which is opaque
/// to the verifier.
#[verifier::external_type_specification]
#[verifier::external_body]
pub struct ExThreadRng(rand::rngs::ThreadRng);

/// Calls `rand::rng`, which hands out the generator of the calling thread.
/// Nothing is claimed of the generator. The call panics if the generator
/// cannot be seeded from the operating system.
#[verifier::external_body]
fn thread_rng() -> ThreadRng {
    rand::rng()
}

/// Calls `SliceRandom::shuffle` of `rand` on the positions, with the given
/// generator. The crate shuffles a slice by swapping its elements in place, so
/// the claim is that the same positions are there afterwards, each as often as
/// before. Nothing is claimed of their order, which is drawn at random. The
/// call panics if the generator fails to reseed from the operating system.
#[verifier::external_body]
fn shuffle(positions: &mut Vec<Position>, rng: &mut ThreadRng)
    ensures
        final(positions)@.to_multiset() == old(positions)@.to_multiset(),
{
    positions.shuffle(rng);
}

/// Tries the candidate anchors in the order given and lays `rect` down at the
/// first one that accepts it, marking its cells as occupied in `mask` and
/// writing `label` into them in `labels`. At each anchor the rectangle is
/// tried as it is first and turned by a quarter second; `rect` ends in the
/// orientation in which it was laid down. Returns the index of the anchor
/// used, or `None`, with nothing changed, if no candidate accepts the
/// rectangle.
pub fn place_at_first_fit(
    mask: &mut Grid<bool>,
    labels: &mut Grid<usize>,
    rect: &mut Rectangle,
    candidates: &Vec<Position>,
    label: usize,
) -> (chosen: Option<usize>)
    requires
        old(mask).wf(),
        old(labels).wf(),
        old(labels)@.same_shape(old(mask)@),
    ensures
        final(mask).wf(),
        final(labels).wf(),
        match chosen {
            Some(i) => {
                let p = candidates[i as int];
                let laid = oriented(old(mask)@, p, *old(rect));
                &&& i < candidates.len()
                &&& accepts(old(mask)@, p, *old(rect))
                &&& forall|j: int|
                    0 <= j < i ==> !accepts(old(mask)@, #[trigger] candidates[j], *old(rect))
                &&& *final(rect) == laid
                &&& final(mask)@ == old(mask)@.filled(
                    p.x as int,
                    p.y as int,
                    laid.width as int,
                    laid.height as int,
                    true,
                )
                &&& final(labels)@ == old(labels)@.filled(
                    p.x as int,
                    p.y as int,
                    laid.width as int,
                    laid.height as int,
                    label,
                )
            },
            None => {
                &&& forall|j: int|
                    0 <= j < candidates.len() ==> !accepts(
                        old(mask)@,
                        #[trigger] candidates[j],
                        *old(rect),
                    )
                &&& final(mask)@ == old(mask)@
                &&& final(labels)@ == old(labels)@
                &&& *final(rect) == *old(rect)
            },
        },
{
    let ghost mask_at_entry = mask@;
    let ghost labels_at_entry = labels@;
    let ghost rect_at_entry = *rect;
    let mut i: usize = 0;
    while i < candidates.len()
        invariant
            i <= candidates.len(),
            mask.wf(),
            labels.wf(),
            mask_at_entry == old(mask)@,
            labels_at_entry == old(labels)@,
            rect_at_entry == *old(rect),
            mask@ == mask_at_entry,
            labels@ == labels_at_entry,
            labels_at_entry.same_shape(mask_at_entry),
            *rect == rect_at_entry,
            forall|j: int|
                0 <= j < i ==> !accepts(mask_at_entry, #[trigger] candidates[j], rect_at_entry),
        decreases candidates.len() - i,
    {
        let anchor = candidates[i];
        if mask.all(&anchor, rect, &false) {
            mask.fill(&anchor, rect, true);
            labels.fill(&anchor, rect, label);
            return Some(i);
        }
        rect.transpose();
        if mask.all(&anchor, rect, &false) {
            mask.fill(&anchor, rect, true);
            labels.fill(&anchor, rect, label);
            return Some(i);
        }
        rect.transpose();
        i += 1;
    }
    None
}

/// Whether the cells of `labels` that hold `label` are exactly the cells of
/// the region that is anchored at `p` and has the extent of `laid`, and that
/// region lies inside the grid.
pub open spec fn labelled_region(
    labels: GridView<usize>,
    label: int,
    laid: Rectangle,
    p: Position,
) -> bool {
    &&& labels.region_inside(p.x as int, p.y as int, laid.width as int, laid.height as int)
    &&& forall|x: int, y: int|
        labels.contains(x, y) ==> ((#[trigger] labels.at(x, y)) == label <==> in_region(
            p.x as int,
            p.y as int,
            laid.width as int,
            laid.height as int,
            x,
            y,
        ))
}

/// The mask as the rectangle of index `k` finds it: a cell is occupied if it
/// is occupied in `mask` or covered by one of the `k` rectangles before.
pub open spec fn mask_before(mask: GridView<bool>, labels: GridView<usize>, k: int) -> GridView<
    bool,
> {
    GridView {
        rows: mask.rows,
        cols: mask.cols,
        cells: Seq::new(
            mask.rows,
            |y: int| Seq::new(mask.cols, |x: int| mask.at(x, y) || 0 < labels.at(x, y) <= k),
        ),
    }
}

/// Whether the rectangle of index `k` lies at the anchor `p`: the anchor was
/// a free cell that accepted the rectangle when its turn came, and the cells
/// labelled `k + 1` are those that the rectangle covers there, as it is if it
/// fitted so and turned by a quarter otherwise.
pub open spec fn placed_at(
    mask: GridView<bool>,
    labels: GridView<usize>,
    rects: Seq<Rectangle>,
    k: int,
    p: Position,
) -> bool {
    let found = mask_before(mask, labels, k);
    &&& is_free_cell(found, p)
    &&& accepts(found, p, rects[k])
    &&& labelled_region(labels, k + 1, oriented(found, p, rects[k]), p)
}

/// Whether the rectangle of index `k` lies somewhere on the grid.
pub open spec fn rect_placed(
    mask: GridView<bool>,
    labels: GridView<usize>,
    rects: Seq<Rectangle>,
    k: int,
) -> bool {
    exists|p: Position| #[trigger] placed_at(mask, labels, rects, k, p)
}

/// Whether `labels` records a placement of all of `rects` on the free cells
/// of `mask`, as placing them one after the other can give it: a grid of the
/// mask's shape in which `0` marks an uncovered cell and `k + 1` a cell
/// covered by the rectangle of index `k`, such that each rectangle covers one
/// region of its extent, inside the grid and on cells that were free when its
/// turn came. No occupied cell of the mask is covered, and as a cell holds one
/// label, no two rectangles overlap.
pub open spec fn is_placement(
    mask: GridView<bool>,
    rects: Seq<Rectangle>,
    labels: GridView<usize>,
) -> bool {
    &&& labels.wf()
    &&& labels.same_shape(mask)
    &&& forall|x: int, y: int|
        labels.contains(x, y) ==> {
            &&& (#[trigger] labels.at(x, y)) <= rects.len()
            &&& mask.at(x, y) ==> labels.at(x, y) == 0
        }
    &&& forall|k: int| 0 <= k < rects.len() ==> #[trigger] rect_placed(mask, labels, rects, k)
}

/// Whether `labels` records a placement of the first `k` rectangles after
/// which no free cell accepts the rectangle of index `k`.
pub open spec fn stuck_after(
    mask: GridView<bool>,
    rects: Seq<Rectangle>,
    k: int,
    labels: GridView<usize>,
) -> bool {
    &&& 0 <= k < rects.len()
    &&& is_placement(mask, rects.take(k), labels)
    &&& !can_place(mask_before(mask, labels, k), rects[k])
}

/// Whether the rectangles can be placed one after the other, in their order,
/// in such a way that one of them is left with no anchor that accepts it.
pub open spec fn dead_end(mask: GridView<bool>, rects: Seq<Rectangle>) -> bool {
    exists|k: int, labels: GridView<usize>| #[trigger] stuck_after(mask, rects, k, labels)
}

/// Every candidate is a free cell of the mask, and a list without an anchor
/// that accepts `rect` leaves `rect` without any anchor: the candidates are
/// the free cells of the mask at which the rectangle stays inside the grid,
/// in some order.
proof fn lemma_candidates(
    mask: GridView<bool>,
    rect: Rectangle,
    free: Seq<Position>,
    kept: Seq<Position>,
    candidates: Seq<Position>,
)
    requires
        lists_free_cells(mask, free),
        kept == free.filter(|p: Position| fits_grid(p, rect, mask.cols as int, mask.rows as int)),
        candidates.to_multiset() == kept.to_multiset(),
    ensures
        forall|j: int| 0 <= j < candidates.len() ==> is_free_cell(mask, #[trigger] candidates[j]),
        (forall|j: int|
            0 <= j < candidates.len() ==> !accepts(mask, #[trigger] candidates[j], rect))
            ==> !can_place(mask, rect),
{
    let pred = |p: Position| fits_grid(p, rect, mask.cols as int, mask.rows as int);
    kept.to_multiset_ensures();
    candidates.to_multiset_ensures();
    assert forall|j: int| 0 <= j < candidates.len() implies is_free_cell(
        mask,
        #[trigger] candidates[j],
    ) by {
        let p = candidates[j];
        assert(candidates.contains(p));
        assert(candidates.to_multiset().count(p) > 0);
        assert(kept.contains(p));
        free.lemma_filter_contains_rev(pred, p);
    }
    if forall|j: int| 0 <= j < candidates.len() ==> !accepts(mask, #[trigger] candidates[j], rect) {
        assert forall|p: Position| is_free_cell(mask, p) implies !#[trigger] accepts(
            mask,
            p,
            rect,
        ) by {
            if accepts(mask, p, rect) {
                assert(free.contains(p));
                let i = choose|i: int| 0 <= i < free.len() && free[i] == p;
                assert(pred(free[i]));
                free.lemma_filter_contains(pred, i);
                assert(kept.contains(p));
                assert(kept.to_multiset().count(p) > 0);
                assert(candidates.to_multiset().count(p) > 0);
                assert(candidates.contains(p));
                let j = choose|j: int| 0 <= j < candidates.len() && candidates[j] == p;
                assert(!accepts(mask, candidates[j], rect));
            }
        }
    }
}

/// Laying the rectangle of index `k` down at a free cell that accepts it
/// extends a placement of the first `k` rectangles to one of the first
/// `k + 1`, and occupies the cells that the rectangle covers.
proof fn lemma_extend_placement(
    mask: GridView<bool>,
    rects: Seq<Rectangle>,
    k: int,
    labels: GridView<usize>,
    p: Position,
)
    requires
        mask.wf(),
        0 <= k < rects.len(),
        k + 1 <= usize::MAX,
        is_placement(mask, rects.take(k), labels),
        is_free_cell(mask_before(mask, labels, k), p),
        accepts(mask_before(mask, labels, k), p, rects[k]),
    ensures
        ({
            let found = mask_before(mask, labels, k);
            let laid = oriented(found, p, rects[k]);
            let next = labels.filled(
                p.x as int,
                p.y as int,
                laid.width as int,
                laid.height as int,
                (k + 1) as usize,
            );
            &&& is_placement(mask, rects.take(k + 1), next)
            &&& mask_before(mask, next, k + 1) == found.filled(
                p.x as int,
                p.y as int,
                laid.width as int,
                laid.height as int,
                true,
            )
        }),
{
    let found = mask_before(mask, labels, k);
    let laid = oriented(found, p, rects[k]);
    let (x0, y0, w, h) = (p.x as int, p.y as int, laid.width as int, laid.height as int);
    let next = labels.filled(x0, y0, w, h, (k + 1) as usize);
    let done = rects.take(k);
    let more = rects.take(k + 1);
    assert(found.region_all(x0, y0, w, h, false));
    assert forall|x: int, y: int| labels.contains(x, y) implies (#[trigger] next.at(x, y)) == (
    if in_region(x0, y0, w, h, x, y) {
        (k + 1) as usize
    } else {
        labels.at(x, y)
    }) && labels.at(x, y) <= k && (in_region(x0, y0, w, h, x, y) ==> labels.at(x, y) == 0
        && !mask.at(x, y)) by {
        assert(labels.at(x, y) <= done.len());
        if in_region(x0, y0, w, h, x, y) {
            assert(!found.at(x, y));
        }
    }
    assert forall|j: int| 0 <= j <= k implies mask_before(mask, next, j) == mask_before(
        mask,
        labels,
        j,
    ) by {
        lemma_same_cells(mask_before(mask, next, j), mask_before(mask, labels, j));
    }
    assert forall|j: int| 0 <= j < more.len() implies #[trigger] rect_placed(
        mask,
        next,
        more,
        j,
    ) by {
        assert(mask_before(mask, next, j) == mask_before(mask, labels, j));
        if j < k {
            assert(rect_placed(mask, labels, done, j));
            let q = choose|q: Position| #[trigger] placed_at(mask, labels, done, j, q);
            assert forall|x: int, y: int| next.contains(x, y) implies ((#[trigger] next.at(x, y))
                == j + 1 <==> labels.at(x, y) == j + 1) by {}
            assert(placed_at(mask, next, more, j, q));
        } else {
            assert forall|x: int, y: int| next.contains(x, y) implies ((#[trigger] next.at(x, y))
                == k + 1 <==> in_region(x0, y0, w, h, x, y)) by {}
            assert(placed_at(mask, next, more, k, p));
        }
    }
    assert forall|x: int, y: int| next.contains(x, y) implies {
        &&& (#[trigger] next.at(x, y)) <= more.len()
        &&& mask.at(x, y) ==> next.at(x, y) == 0
    } by {
        assert(labels.at(x, y) <= done.len());
    }
    lemma_same_cells(mask_before(mask, next, k + 1), found.filled(x0, y0, w, h, true));
}

/// Places rectangles within a grid, one after the other in the order given,
/// each at an anchor drawn at random among the free cells that accept it.
///
/// If all the rectangles were placed, returns the grid of their labels (0 for
/// an empty cell and `k + 1` for a cell of the rectangle of index `k`).
/// Otherwise, with a rectangle left that no free cell accepts, returns `None`.
pub fn place_rectangles(rect_mask: Grid<bool>, rectangles: Vec<Rectangle>) -> (result: Option<
    Grid<usize>,
>)
    requires
        rect_mask.wf(),
    ensures
        match result {
            Some(labels) => labels.wf() && is_placement(rect_mask@, rectangles@, labels@),
            None => dead_end(rect_mask@, rectangles@),
        },
{
    let ghost start = rect_mask@;
    let mut mask = rect_mask;
    let mut positions: Grid<usize> = Grid::new(mask.rows(), mask.cols(), 0);
    let mut rng = thread_rng();
    proof {
        lemma_same_cells(mask@, mask_before(start, positions@, 0));
    }
    let mut k: usize = 0;
    while k < rectangles.len()
        invariant
            k <= rectangles.len(),
            start == rect_mask@,
            start.wf(),
            mask.wf(),
            positions.wf(),
            is_placement(start, rectangles@.take(k as int), positions@),
            mask@ == mask_before(start, positions@, k as int),
        decreases rectangles.len() - k,
    {
        let mut rect = rectangles[k];
        let ghost found = mask@;
        let ghost labels = positions@;

        // Find the positions where the rectangle may be placed.
        let unmasked_positions = find_masked_positions(&mask);
        let ghost free = unmasked_positions@;
        let mut filtered_positions = filter_positions(
            unmasked_positions,
            &rect,
            (mask.cols(), mask.rows()),
        );
        let ghost kept = filtered_positions@;
        if filtered_positions.is_empty() {
            proof {
                lemma_candidates(found, rect, free, kept, kept);
                assert(stuck_after(start, rectangles@, k as int, labels));
            }
            return None;
        }
        shuffle(&mut filtered_positions, &mut rng);
        proof {
            lemma_candidates(found, rect, free, kept, filtered_positions@);
        }

        // Try to place the rectangle at each position, in two rotations.
        let chosen = place_at_first_fit(
            &mut mask,
            &mut positions,
            &mut rect,
            &filtered_positions,
            k + 1,
        );
        match chosen {
            None => {
                assert(stuck_after(start, rectangles@, k as int, labels));
                return None;
            },
            Some(i) => {
                proof {
                    lemma_extend_placement(
                        start,
                        rectangles@,
                        k as int,
                        labels,
                        filtered_positions[i as int],
                    );
                }
            },
        }
        k += 1;
    }
    assert(rectangles@.take(k as int) =~= rectangles@);
    Some(positions)
}

} // verus!
