use crate::grid::{lemma_same_cells, lemma_with_cell, Grid, GridView};
use crate::placer::{dead_end, is_placement, place_rectangles};
use crate::types::{Position, Rectangle};
use vstd::prelude::*;
use vstd::slice::slice_to_vec;

verus! {

/// The number of simulations to run.
pub const SIMULATIONS: usize = 100000;

/// What one trial may give: the labels of a placement of all the rectangles,
/// or nothing, which is possible only where placing them one after the other
/// can come to a dead end.
pub open spec fn possible_outcome(
    mask: GridView<bool>,
    rects: Seq<Rectangle>,
    outcome: Option<GridView<usize>>,
) -> bool {
    match outcome {
        Some(labels) => is_placement(mask, rects, labels),
        None => dead_end(mask, rects),
    }
}

/// Whether each of the outcomes is one that a trial may give.
pub open spec fn possible_outcomes(
    mask: GridView<bool>,
    rects: Seq<Rectangle>,
    outcomes: Seq<Option<GridView<usize>>>,
) -> bool {
    forall|t: int|
        0 <= t < outcomes.len() ==> possible_outcome(mask, rects, #[trigger] outcomes[t])
}

/// The mathematical content of a [`Tally`].
#[verifier::ext_equal]
pub struct TallyView {
    /// For each cell, the number of successful trials that covered it.
    pub counts: GridView<nat>,
    /// The number of successful trials.
    pub successes: nat,
}

impl TallyView {
    /// Whether the counts form a grid and no cell was covered more often than
    /// trials succeeded.
    pub open spec fn wf(self) -> bool {
        &&& self.counts.wf()
        &&& forall|x: int, y: int|
            self.counts.contains(x, y) ==> (#[trigger] self.counts.at(x, y)) <= self.successes
    }

    /// The tally of no trial at all, for a grid of the given dimensions.
    pub open spec fn empty(rows: nat, cols: nat) -> TallyView {
        TallyView { counts: GridView::uniform(rows, cols, 0nat), successes: 0 }
    }

    /// This tally and one more successful trial, which covered the cells that
    /// `labels` marks with a positive label.
    pub open spec fn recorded(self, labels: GridView<usize>) -> TallyView {
        TallyView {
            counts: GridView {
                rows: self.counts.rows,
                cols: self.counts.cols,
                cells: Seq::new(
                    self.counts.rows,
                    |y: int|
                        Seq::new(
                            self.counts.cols,
                            |x: int|
                                if labels.at(x, y) > 0 {
                                    self.counts.at(x, y) + 1
                                } else {
                                    self.counts.at(x, y)
                                },
                        ),
                ),
            },
            successes: self.successes + 1,
        }
    }

    /// The sum of this tally and `other`, cell by cell.
    pub open spec fn merged(self, other: TallyView) -> TallyView {
        TallyView {
            counts: GridView {
                rows: self.counts.rows,
                cols: self.counts.cols,
                cells: Seq::new(
                    self.counts.rows,
                    |y: int|
                        Seq::new(
                            self.counts.cols,
                            |x: int| self.counts.at(x, y) + other.counts.at(x, y),
                        ),
                ),
            },
            successes: self.successes + other.successes,
        }
    }

    /// The tally of the given trials on a grid of the given dimensions: the
    /// number of trials that gave a placement, and for each cell the number
    /// of those placements that cover it.
    pub open spec fn of_trials(
        rows: nat,
        cols: nat,
        outcomes: Seq<Option<GridView<usize>>>,
    ) -> TallyView
        decreases outcomes.len(),
    {
        if outcomes.len() == 0 {
            TallyView::empty(rows, cols)
        } else {
            let earlier = TallyView::of_trials(rows, cols, outcomes.drop_last());
            match outcomes.last() {
                Some(labels) => earlier.recorded(labels),
                None => earlier,
            }
        }
    }
}

/// What a number of trials has shown: how many of them placed every
/// rectangle, and for each cell how many of those covered it. The estimate of
/// the probability that a cell is covered is the quotient of the two.
pub struct Tally {
    counts: Grid<usize>,
    successes: usize,
}

impl View for Tally {
    type V = TallyView;

    closed spec fn view(&self) -> TallyView {
        TallyView {
            counts: GridView {
                rows: self.counts@.rows,
                cols: self.counts@.cols,
                cells: Seq::new(
                    self.counts@.rows,
                    |y: int| Seq::new(self.counts@.cols, |x: int| self.counts@.at(x, y) as nat),
                ),
            },
            successes: self.successes as nat,
        }
    }
}

impl Tally {
    /// The invariant of a tally: a well-formed grid of counts, none of which
    /// exceeds the number of successes.
    pub closed spec fn wf(&self) -> bool {
        &&& self.counts.wf()
        &&& self@.wf()
    }

    /// A well-formed tally has a well-formed view, and its numbers fit the
    /// machine word.
    pub proof fn lemma_wf(&self)
        requires
            self.wf(),
        ensures
            self@.wf(),
            self@.counts.rows <= usize::MAX,
            self@.counts.cols <= usize::MAX,
            self@.successes <= usize::MAX,
    {
    }

    /// The tally of no trial at all, for a grid of the given dimensions.
    pub fn new(rows: usize, cols: usize) -> (tally: Tally)
        ensures
            tally.wf(),
            tally@ == TallyView::empty(rows as nat, cols as nat),
    {
        let tally = Tally { counts: Grid::new(rows, cols, 0), successes: 0 };
        assert(tally@.counts.cells =~~= TallyView::empty(rows as nat, cols as nat).counts.cells);
        tally
    }

    /// The number of trials that placed every rectangle.
    pub fn successes(&self) -> (successes: usize)
        ensures
            successes == self@.successes,
    {
        self.successes
    }

    /// For each cell, the number of successful trials that covered it.
    pub fn counts(&self) -> (counts: &Grid<usize>)
        ensures
            counts@.same_shape(self@.counts),
            self.wf() ==> counts.wf(),
            forall|x: int, y: int|
                counts@.contains(x, y) ==> (#[trigger] counts@.at(x, y)) == self@.counts.at(x, y),
    {
        &self.counts
    }

    /// Counts one more successful trial, whose label grid is `labels`: each
    /// cell with a positive label is counted as covered once more.
    pub fn record(&mut self, labels: &Grid<usize>)
        requires
            old(self).wf(),
            labels.wf(),
            labels@.same_shape(old(self)@.counts),
            old(self)@.successes < usize::MAX,
        ensures
            final(self).wf(),
            final(self)@ == old(self)@.recorded(labels@),
    {
        let ghost before = self@;
        let ghost start = self.counts@;
        let rows = self.counts.rows();
        let cols = self.counts.cols();
        assert forall|cx: int, cy: int| start.contains(cx, cy) implies (#[trigger] start.at(
            cx,
            cy,
        )) < usize::MAX by {
            assert(before.counts.at(cx, cy) <= before.successes);
        }
        let mut y: usize = 0;
        while y < rows
            invariant
                y <= rows,
                rows == start.rows,
                cols == start.cols,
                start.wf(),
                forall|cx: int, cy: int|
                    start.contains(cx, cy) ==> (#[trigger] start.at(cx, cy)) < usize::MAX,
                labels.wf(),
                labels@.same_shape(start),
                self.counts.wf(),
                self.counts@.same_shape(start),
                self.successes == before.successes,
                forall|cx: int, cy: int|
                    start.contains(cx, cy) ==> (#[trigger] self.counts@.at(cx, cy)) == start.at(
                        cx,
                        cy,
                    ) + if cy < y && labels@.at(cx, cy) > 0 {
                        1int
                    } else {
                        0int
                    },
            decreases rows - y,
        {
            let mut x: usize = 0;
            while x < cols
                invariant
                    y < rows,
                    x <= cols,
                    rows == start.rows,
                    cols == start.cols,
                    start.wf(),
                    forall|cx: int, cy: int|
                        start.contains(cx, cy) ==> (#[trigger] start.at(cx, cy)) < usize::MAX,
                    labels.wf(),
                    labels@.same_shape(start),
                    self.counts.wf(),
                    self.counts@.same_shape(start),
                    self.successes == before.successes,
                    forall|cx: int, cy: int|
                        start.contains(cx, cy) ==> (#[trigger] self.counts@.at(cx, cy))
                            == start.at(cx, cy) + if (cy < y || (cy == y && cx < x)) && labels@.at(
                            cx,
                            cy,
                        ) > 0 {
                            1int
                        } else {
                            0int
                        },
                decreases cols - x,
            {
                let pos = Position::new(x, y);
                if *labels.get(&pos) > 0 {
                    let count = *self.counts.get(&pos);
                    assert(count == start.at(x as int, y as int));
                    proof {
                        lemma_with_cell(self.counts@, x as int, y as int, (count + 1) as usize);
                    }
                    self.counts.set(&pos, count + 1);
                }
                x += 1;
            }
            y += 1;
        }
        self.successes = self.successes + 1;
        proof {
            let after = before.recorded(labels@);
            assert forall|cx: int, cy: int| after.counts.contains(cx, cy) implies (
            #[trigger] self@.counts.at(cx, cy)) == after.counts.at(cx, cy) by {
                assert(self.counts@.at(cx, cy) == start.at(cx, cy) + if labels@.at(cx, cy) > 0 {
                    1int
                } else {
                    0int
                });
                assert(before.counts.at(cx, cy) == start.at(cx, cy));
            }
            lemma_same_cells(self@.counts, after.counts);
            assert forall|cx: int, cy: int| self@.counts.contains(cx, cy) implies (
            #[trigger] self@.counts.at(cx, cy)) <= self@.successes by {
                assert(before.counts.at(cx, cy) <= before.successes);
            }
        }
    }

    /// Adds the trials of `other` to this tally, cell by cell.
    pub fn merge(&mut self, other: &Tally)
        requires
            old(self).wf(),
            other.wf(),
            other@.counts.same_shape(old(self)@.counts),
            old(self)@.successes + other@.successes <= usize::MAX,
        ensures
            final(self).wf(),
            final(self)@ == old(self)@.merged(other@),
    {
        let ghost before = self@;
        let ghost start = self.counts@;
        let ghost more = other.counts@;
        let rows = self.counts.rows();
        let cols = self.counts.cols();
        assert forall|cx: int, cy: int| start.contains(cx, cy) implies (#[trigger] start.at(
            cx,
            cy,
        )) + more.at(cx, cy) <= usize::MAX by {
            assert(before.counts.at(cx, cy) <= before.successes);
            assert(other@.counts.at(cx, cy) <= other@.successes);
        }
        let mut y: usize = 0;
        while y < rows
            invariant
                y <= rows,
                rows == start.rows,
                cols == start.cols,
                start.wf(),
                more == other.counts@,
                other.counts.wf(),
                more.same_shape(start),
                forall|cx: int, cy: int|
                    start.contains(cx, cy) ==> (#[trigger] start.at(cx, cy)) + more.at(cx, cy)
                        <= usize::MAX,
                self.counts.wf(),
                self.counts@.same_shape(start),
                self.successes == before.successes,
                forall|cx: int, cy: int|
                    start.contains(cx, cy) ==> (#[trigger] self.counts@.at(cx, cy)) == start.at(
                        cx,
                        cy,
                    ) + if cy < y {
                        more.at(cx, cy) as int
                    } else {
                        0int
                    },
            decreases rows - y,
        {
            let mut x: usize = 0;
            while x < cols
                invariant
                    y < rows,
                    x <= cols,
                    rows == start.rows,
                    cols == start.cols,
                    start.wf(),
                    more == other.counts@,
                    other.counts.wf(),
                    more.same_shape(start),
                    forall|cx: int, cy: int|
                        start.contains(cx, cy) ==> (#[trigger] start.at(cx, cy)) + more.at(cx, cy)
                            <= usize::MAX,
                    self.counts.wf(),
                    self.counts@.same_shape(start),
                    self.successes == before.successes,
                    forall|cx: int, cy: int|
                        start.contains(cx, cy) ==> (#[trigger] self.counts@.at(cx, cy))
                            == start.at(cx, cy) + if cy < y || (cy == y && cx < x) {
                            more.at(cx, cy) as int
                        } else {
                            0int
                        },
                decreases cols - x,
            {
                let pos = Position::new(x, y);
                let count = *self.counts.get(&pos);
                let added = *other.counts.get(&pos);
                assert(count == start.at(x as int, y as int));
                proof {
                    lemma_with_cell(self.counts@, x as int, y as int, (count + added) as usize);
                }
                self.counts.set(&pos, count + added);
                x += 1;
            }
            y += 1;
        }
        self.successes = self.successes + other.successes;
        proof {
            let after = before.merged(other@);
            assert forall|cx: int, cy: int| after.counts.contains(cx, cy) implies (
            #[trigger] self@.counts.at(cx, cy)) == after.counts.at(cx, cy) by {
                assert(self.counts@.at(cx, cy) == start.at(cx, cy) + more.at(cx, cy));
                assert(before.counts.at(cx, cy) == start.at(cx, cy));
                assert(other@.counts.at(cx, cy) == more.at(cx, cy));
            }
            lemma_same_cells(self@.counts, after.counts);
            assert forall|cx: int, cy: int| self@.counts.contains(cx, cy) implies (
            #[trigger] self@.counts.at(cx, cy)) <= self@.successes by {
                assert(before.counts.at(cx, cy) <= before.successes);
                assert(other@.counts.at(cx, cy) <= other@.successes);
            }
        }
    }
}

/// The rectangles of `rects` whose area is `area`, in their order.
pub open spec fn with_area(rects: Seq<Rectangle>, area: nat) -> Seq<Rectangle> {
    rects.filter(|r: Rectangle| r.spec_area() == area)
}

/// Whether `order` holds the rectangles of `rects` by area, largest first,
/// with rectangles of equal area in the order in which `rects` has them.
pub open spec fn is_area_order(rects: Seq<Rectangle>, order: Seq<Rectangle>) -> bool {
    &&& order.len() == rects.len()
    &&& largest_first(order)
    &&& forall|area: nat| #[trigger] with_area(order, area) == with_area(rects, area)
}

/// The area of a rectangle in a type wide enough for every product of two
/// machine words.
fn wide_area(rect: &Rectangle) -> (area: u128)
    ensures
        area == rect.spec_area(),
{
    let width = rect.width as u128;
    let height = rect.height as u128;
    assert(width * height <= u128::MAX) by (nonlinear_arith)
        requires
            width <= 0xffff_ffff_ffff_ffff,
            height <= 0xffff_ffff_ffff_ffff,
    ;
    width * height
}

/// A sequence without a rectangle of the given area has nothing to show for
/// that area.
proof fn lemma_with_area_none(rects: Seq<Rectangle>, area: nat)
    requires
        forall|i: int| 0 <= i < rects.len() ==> (#[trigger] rects[i]).spec_area() != area,
    ensures
        with_area(rects, area) == Seq::<Rectangle>::empty(),
{
    let pred = |r: Rectangle| r.spec_area() == area;
    let kept = rects.filter(pred);
    if kept.len() > 0 {
        rects.lemma_filter_pred(pred, 0);
        assert(kept.contains(kept[0]));
        rects.lemma_filter_contains_rev(pred, kept[0]);
        let i = choose|i: int| 0 <= i < rects.len() && rects[i] == kept[0];
        assert(rects[i].spec_area() != area);
    }
    assert(kept =~= Seq::<Rectangle>::empty());
}

/// Putting one more rectangle behind those of at least its area and before
/// the smaller ones keeps the order by area.
proof fn lemma_insert_keeps_area_order(
    rects: Seq<Rectangle>,
    order: Seq<Rectangle>,
    rect: Rectangle,
    at: int,
)
    requires
        is_area_order(rects, order),
        0 <= at <= order.len(),
        forall|q: int| 0 <= q < at ==> (#[trigger] order[q]).spec_area() >= rect.spec_area(),
        forall|q: int|
            at <= q < order.len() ==> (#[trigger] order[q]).spec_area() < rect.spec_area(),
    ensures
        is_area_order(rects.push(rect), order.insert(at, rect)),
{
    let next = order.insert(at, rect);
    let head = order.subrange(0, at);
    let tail = order.subrange(at, order.len() as int);
    let one = seq![rect];
    assert(next =~= head + one + tail);
    assert(order =~= head + tail);
    assert(rects.push(rect) =~= rects + one);
    assert forall|area: nat| #[trigger]
        with_area(next, area) == with_area(rects.push(rect), area) by {
        let pred = |r: Rectangle| r.spec_area() == area;
        Seq::filter_distributes_over_add(head + one, tail, pred);
        Seq::filter_distributes_over_add(head, one, pred);
        Seq::filter_distributes_over_add(head, tail, pred);
        Seq::filter_distributes_over_add(rects, one, pred);
        assert(with_area(order, area) == with_area(rects, area));
        if area == rect.spec_area() {
            lemma_with_area_none(tail, area);
            assert(with_area(head, area) + with_area(one, area) + with_area(tail, area)
                =~= with_area(head, area) + with_area(tail, area) + with_area(one, area));
        } else {
            lemma_with_area_none(one, area);
            assert(with_area(head, area) + with_area(one, area) + with_area(tail, area)
                =~= with_area(head, area) + with_area(tail, area) + with_area(one, area));
        }
    }
}

/// The order by area holds the same rectangles as the sequence it orders: a
/// rectangle is in the one if and only if it is in the other.
pub proof fn lemma_area_order_same_rectangles(
    rects: Seq<Rectangle>,
    order: Seq<Rectangle>,
    rect: Rectangle,
)
    requires
        is_area_order(rects, order),
    ensures
        order.contains(rect) <==> rects.contains(rect),
{
    let area = rect.spec_area();
    let pred = |r: Rectangle| r.spec_area() == area;
    assert(with_area(order, area) == with_area(rects, area));
    if order.contains(rect) {
        let i = choose|i: int| 0 <= i < order.len() && order[i] == rect;
        order.lemma_filter_contains(pred, i);
        rects.lemma_filter_contains_rev(pred, rect);
    }
    if rects.contains(rect) {
        let i = choose|i: int| 0 <= i < rects.len() && rects[i] == rect;
        rects.lemma_filter_contains(pred, i);
        order.lemma_filter_contains_rev(pred, rect);
    }
}

/// Whether the areas of the rectangles never grow along the sequence.
pub open spec fn largest_first(rects: Seq<Rectangle>) -> bool {
    forall|i: int, j: int|
        0 <= i < j < rects.len() ==> (#[trigger] rects[i]).spec_area() >= (
        #[trigger] rects[j]).spec_area()
}

/// Two sequences of equal length that both have their largest rectangles
/// first, and for each area the same rectangles in the same order, are one
/// and the same sequence.
proof fn lemma_largest_first_unique(a: Seq<Rectangle>, b: Seq<Rectangle>)
    requires
        a.len() == b.len(),
        largest_first(a),
        largest_first(b),
        forall|area: nat| #[trigger] with_area(a, area) == with_area(b, area),
    ensures
        a == b,
    decreases a.len(),
{
    if a.len() == 0 {
        assert(a =~= b);
    } else {
        let (a0, b0) = (a[0], b[0]);
        let (rest_a, rest_b) = (a.drop_first(), b.drop_first());
        assert(a =~= seq![a0] + rest_a);
        assert(b =~= seq![b0] + rest_b);
        // Both sequences begin with a rectangle of the largest area.
        assert(a0.spec_area() == b0.spec_area()) by {
            let area_a = a0.spec_area();
            let pred_a = |r: Rectangle| r.spec_area() == area_a;
            a.lemma_filter_contains(pred_a, 0);
            assert(with_area(a, area_a) == with_area(b, area_a));
            assert(with_area(b, area_a).contains(a0));
            b.lemma_filter_contains_rev(pred_a, a0);
            let i = choose|i: int| 0 <= i < b.len() && b[i] == a0;
            assert(b[0].spec_area() >= b[i].spec_area());
            let area_b = b0.spec_area();
            let pred_b = |r: Rectangle| r.spec_area() == area_b;
            b.lemma_filter_contains(pred_b, 0);
            assert(with_area(a, area_b) == with_area(b, area_b));
            assert(with_area(a, area_b).contains(b0));
            a.lemma_filter_contains_rev(pred_b, b0);
            let j = choose|j: int| 0 <= j < a.len() && a[j] == b0;
            assert(a[0].spec_area() >= a[j].spec_area());
        }
        assert forall|area: nat| #[trigger]
            with_area(rest_a, area) == with_area(rest_b, area) && (area == a0.spec_area()
                ==> a0 == b0) by {
            let pred = |r: Rectangle| r.spec_area() == area;
            Seq::filter_distributes_over_add(seq![a0], rest_a, pred);
            Seq::filter_distributes_over_add(seq![b0], rest_b, pred);
            assert(with_area(a, area) == with_area(b, area));
            let (head_a, head_b) = (with_area(seq![a0], area), with_area(seq![b0], area));
            if area == a0.spec_area() {
                seq![a0].lemma_filter_contains(pred, 0);
                seq![b0].lemma_filter_contains(pred, 0);
                seq![a0].lemma_filter_len(pred);
                seq![b0].lemma_filter_len(pred);
                assert(head_a.len() == 1 && head_b.len() == 1);
                seq![a0].lemma_filter_contains_rev(pred, head_a[0]);
                seq![b0].lemma_filter_contains_rev(pred, head_b[0]);
                assert(head_a[0] == a0 && head_b[0] == b0);
                assert((head_a + with_area(rest_a, area))[0] == a0);
                assert((head_b + with_area(rest_b, area))[0] == b0);
                assert(with_area(rest_a, area) =~= (head_a + with_area(rest_a, area)).skip(1));
                assert(with_area(rest_b, area) =~= (head_b + with_area(rest_b, area)).skip(1));
            } else {
                lemma_with_area_none(seq![a0], area);
                lemma_with_area_none(seq![b0], area);
                assert(with_area(rest_a, area) =~= head_a + with_area(rest_a, area));
                assert(with_area(rest_b, area) =~= head_b + with_area(rest_b, area));
            }
        }
        assert(with_area(rest_a, a0.spec_area()) == with_area(rest_b, a0.spec_area()));
        assert(a0 == b0);
        assert forall|i: int, j: int| 0 <= i < j < rest_a.len() implies (
        #[trigger] rest_a[i]).spec_area() >= (#[trigger] rest_a[j]).spec_area() by {
            assert(a[i + 1].spec_area() >= a[j + 1].spec_area());
        }
        assert forall|i: int, j: int| 0 <= i < j < rest_b.len() implies (
        #[trigger] rest_b[i]).spec_area() >= (#[trigger] rest_b[j]).spec_area() by {
            assert(b[i + 1].spec_area() >= b[j + 1].spec_area());
        }
        lemma_largest_first_unique(rest_a, rest_b);
    }
}

/// The order by area of given rectangles is unique: two sequences that both
/// are it are equal.
pub proof fn lemma_area_order_unique(
    rects: Seq<Rectangle>,
    first: Seq<Rectangle>,
    second: Seq<Rectangle>,
)
    requires
        is_area_order(rects, first),
        is_area_order(rects, second),
    ensures
        first == second,
{
    assert forall|area: nat| #[trigger] with_area(first, area) == with_area(second, area) by {
        assert(with_area(first, area) == with_area(rects, area));
        assert(with_area(second, area) == with_area(rects, area));
    }
    lemma_largest_first_unique(first, second);
}

/// Copies the rectangles and sorts the copy by area in descending order,
/// leaving rectangles of equal area in the order in which they came.
pub fn sort_by_area(rectangles: &[Rectangle]) -> (sorted: Vec<Rectangle>)
    ensures
        is_area_order(rectangles@, sorted@),
{
    let mut sorted: Vec<Rectangle> = Vec::new();
    let mut i: usize = 0;
    assert(rectangles@.take(0) =~= sorted@);
    while i < rectangles.len()
        invariant
            i <= rectangles.len(),
            is_area_order(rectangles@.take(i as int), sorted@),
        decreases rectangles.len() - i,
    {
        let rect = rectangles[i];
        let area = wide_area(&rect);
        let mut at: usize = 0;
        while at < sorted.len() && wide_area(&sorted[at]) >= area
            invariant
                at <= sorted.len(),
                area == rect.spec_area(),
                forall|q: int| 0 <= q < at ==> (#[trigger] sorted[q]).spec_area() >= area,
            decreases sorted.len() - at,
        {
            at += 1;
        }
        proof {
            lemma_insert_keeps_area_order(rectangles@.take(i as int), sorted@, rect, at as int);
            assert(rectangles@.take(i as int).push(rect) =~= rectangles@.take(i + 1));
        }
        sorted.insert(at, rect);
        i += 1;
    }
    assert(rectangles@.take(i as int) =~= rectangles@);
    sorted
}

/// Whether every placement of the rectangles covers the cell at `(x, y)`.
pub open spec fn always_covered(
    mask: GridView<bool>,
    rects: Seq<Rectangle>,
    x: int,
    y: int,
) -> bool {
    forall|labels: GridView<usize>| #[trigger]
        is_placement(mask, rects, labels) ==> labels.at(x, y) > 0
}

/// Whether no placement of the rectangles covers the cell at `(x, y)`.
pub open spec fn never_covered(
    mask: GridView<bool>,
    rects: Seq<Rectangle>,
    x: int,
    y: int,
) -> bool {
    forall|labels: GridView<usize>| #[trigger]
        is_placement(mask, rects, labels) ==> labels.at(x, y) == 0
}

/// Whether the rectangles have no placement on the mask at all.
pub open spec fn unplaceable(mask: GridView<bool>, rects: Seq<Rectangle>) -> bool {
    forall|labels: GridView<usize>| !#[trigger] is_placement(mask, rects, labels)
}

/// Whether `tally` is the tally of the given outcomes, which are as many as
/// `trials` says and each of them one that a trial on `mask` with `rects`,
/// placed in that order, may give.
pub open spec fn is_tally_of(
    mask: GridView<bool>,
    rects: Seq<Rectangle>,
    trials: nat,
    tally: TallyView,
    outcomes: Seq<Option<GridView<usize>>>,
) -> bool {
    &&& outcomes.len() == trials
    &&& possible_outcomes(mask, rects, outcomes)
    &&& tally == TallyView::of_trials(mask.rows, mask.cols, outcomes)
}

/// Whether `tally` is the tally of `trials` trials that place `rects`, in that
/// order, on `mask`, whatever the random choices were.
pub open spec fn tallies_trials(
    mask: GridView<bool>,
    rects: Seq<Rectangle>,
    trials: nat,
    tally: TallyView,
) -> bool {
    exists|outcomes: Seq<Option<GridView<usize>>>| #[trigger]
        is_tally_of(mask, rects, trials, tally, outcomes)
}

/// What the tally of `trials` trials is bound to, whatever the random choices
/// were: it has the shape of the mask; no count exceeds the successes, nor
/// the successes the trials; a cell that is occupied in the mask, or that no
/// placement covers, counts zero; a cell that every placement covers counts
/// as much as there are successes; no trial succeeds where no placement
/// exists, and every trial does where no dead end exists; without rectangles
/// every trial succeeds and covers nothing.
pub open spec fn within_bounds(
    mask: GridView<bool>,
    rects: Seq<Rectangle>,
    trials: nat,
    tally: TallyView,
) -> bool {
    &&& tally.wf()
    &&& tally.counts.same_shape(mask)
    &&& tally.successes <= trials
    &&& unplaceable(mask, rects) ==> tally.successes == 0
    &&& !dead_end(mask, rects) ==> tally.successes == trials
    &&& rects.len() == 0 ==> tally.successes == trials && tally.counts.is_uniform(0)
    &&& forall|x: int, y: int|
        mask.contains(x, y) ==> {
            &&& mask.at(x, y) ==> (#[trigger] tally.counts.at(x, y)) == 0
            &&& never_covered(mask, rects, x, y) ==> tally.counts.at(x, y) == 0
            &&& always_covered(mask, rects, x, y) ==> tally.counts.at(x, y) == tally.successes
        }
}

/// Recording a placement keeps a tally within its bounds.
proof fn lemma_recorded_within_bounds(
    mask: GridView<bool>,
    rects: Seq<Rectangle>,
    trials: nat,
    tally: TallyView,
    labels: GridView<usize>,
)
    requires
        mask.wf(),
        within_bounds(mask, rects, trials, tally),
        is_placement(mask, rects, labels),
    ensures
        within_bounds(mask, rects, trials + 1, tally.recorded(labels)),
{
    let next = tally.recorded(labels);
    assert forall|x: int, y: int| mask.contains(x, y) implies (#[trigger] next.counts.at(x, y))
        == tally.counts.at(x, y) + if labels.at(x, y) > 0 {
        1int
    } else {
        0int
    } by {}
    assert forall|x: int, y: int| next.counts.contains(x, y) implies (#[trigger] next.counts.at(
        x,
        y,
    )) <= next.successes by {
        assert(tally.counts.at(x, y) <= tally.successes);
    }
    assert forall|x: int, y: int| mask.contains(x, y) implies {
        &&& mask.at(x, y) ==> (#[trigger] next.counts.at(x, y)) == 0
        &&& never_covered(mask, rects, x, y) ==> next.counts.at(x, y) == 0
        &&& always_covered(mask, rects, x, y) ==> next.counts.at(x, y) == next.successes
    } by {
        assert(tally.counts.at(x, y) <= tally.successes);
        assert(labels.contains(x, y));
        assert(mask.at(x, y) ==> labels.at(x, y) == 0);
    }
    if rects.len() == 0 {
        assert forall|x: int, y: int| next.counts.contains(x, y) implies #[trigger] next.counts.at(
            x,
            y,
        ) == 0 by {
            assert(labels.at(x, y) <= rects.len());
            assert(tally.counts.at(x, y) == 0);
        }
    }
}

/// Without rectangles there is nothing to get stuck on.
pub proof fn lemma_no_rectangles_no_dead_end(mask: GridView<bool>, rects: Seq<Rectangle>)
    requires
        rects.len() == 0,
    ensures
        !dead_end(mask, rects),
{
    if dead_end(mask, rects) {
        let (k, labels) = choose|k: int, labels: GridView<usize>| #[trigger]
            crate::placer::stuck_after(mask, rects, k, labels);
        assert(0 <= k < rects.len());
    }
}

/// The tally of any number of trials is within its bounds: this holds of
/// every tally that [`run_trials`] can return, and of every sum of such
/// tallies.
pub proof fn lemma_tally_within_bounds(
    mask: GridView<bool>,
    rects: Seq<Rectangle>,
    outcomes: Seq<Option<GridView<usize>>>,
)
    requires
        mask.wf(),
        possible_outcomes(mask, rects, outcomes),
    ensures
        within_bounds(
            mask,
            rects,
            outcomes.len(),
            TallyView::of_trials(mask.rows, mask.cols, outcomes),
        ),
    decreases outcomes.len(),
{
    if outcomes.len() == 0 {
        let tally = TallyView::empty(mask.rows, mask.cols);
        assert(tally.counts.wf());
        assert(tally.counts.is_uniform(0));
    } else {
        let earlier = outcomes.drop_last();
        assert forall|t: int| 0 <= t < earlier.len() implies possible_outcome(
            mask,
            rects,
            #[trigger] earlier[t],
        ) by {
            assert(earlier[t] == outcomes[t]);
        }
        lemma_tally_within_bounds(mask, rects, earlier);
        let tally = TallyView::of_trials(mask.rows, mask.cols, earlier);
        assert(possible_outcome(mask, rects, outcomes[outcomes.len() - 1]));
        match outcomes.last() {
            Some(labels) => {
                lemma_recorded_within_bounds(mask, rects, earlier.len(), tally, labels);
            },
            None => {
                if rects.len() == 0 {
                    lemma_no_rectangles_no_dead_end(mask, rects);
                }
            },
        }
    }
}

/// Tallying two runs of trials apart and adding the tallies gives the tally
/// of all the trials together, so that the trials may be shared out.
pub proof fn lemma_merged_tallies(
    rows: nat,
    cols: nat,
    first: Seq<Option<GridView<usize>>>,
    second: Seq<Option<GridView<usize>>>,
)
    ensures
        TallyView::of_trials(rows, cols, first + second) == TallyView::of_trials(
            rows,
            cols,
            first,
        ).merged(TallyView::of_trials(rows, cols, second)),
    decreases second.len(),
{
    let left = TallyView::of_trials(rows, cols, first);
    let right = TallyView::of_trials(rows, cols, second);
    lemma_tally_shape(rows, cols, first);
    lemma_tally_shape(rows, cols, second);
    if second.len() == 0 {
        assert(first + second =~= first);
        assert(left.merged(right) =~~= left);
    } else {
        let earlier = second.drop_last();
        assert((first + second).drop_last() =~= first + earlier);
        assert((first + second).last() == second.last());
        lemma_merged_tallies(rows, cols, first, earlier);
        lemma_tally_shape(rows, cols, earlier);
        let before = TallyView::of_trials(rows, cols, earlier);
        match second.last() {
            Some(labels) => {
                assert(left.merged(before).recorded(labels) =~~= left.merged(
                    before.recorded(labels),
                ));
            },
            None => {},
        }
    }
}

/// A tally of trials has the dimensions it was made for.
proof fn lemma_tally_shape(rows: nat, cols: nat, outcomes: Seq<Option<GridView<usize>>>)
    ensures
        TallyView::of_trials(rows, cols, outcomes).counts.wf(),
        TallyView::of_trials(rows, cols, outcomes).counts.rows == rows,
        TallyView::of_trials(rows, cols, outcomes).counts.cols == cols,
    decreases outcomes.len(),
{
    if outcomes.len() > 0 {
        lemma_tally_shape(rows, cols, outcomes.drop_last());
    }
}

/// Runs the given number of trials, each of which places the rectangles in
/// the order given on a copy of the mask, and tallies the trials that placed
/// them all.
pub fn run_trials(rect_mask: &Grid<bool>, rectangles: &[Rectangle], trials: usize) -> (tally:
    Tally)
    requires
        rect_mask.wf(),
    ensures
        tally.wf(),
        tallies_trials(rect_mask@, rectangles@, trials as nat, tally@),
        within_bounds(rect_mask@, rectangles@, trials as nat, tally@),
{
    let mut tally = Tally::new(rect_mask.rows(), rect_mask.cols());
    let ghost mut outcomes: Seq<Option<GridView<usize>>> = Seq::empty();
    let mut done: usize = 0;
    while done < trials
        invariant
            done <= trials,
            rect_mask.wf(),
            tally.wf(),
            is_tally_of(rect_mask@, rectangles@, done as nat, tally@, outcomes),
        decreases trials - done,
    {
        let ghost earlier = outcomes;
        let result = place_rectangles(rect_mask.clone(), slice_to_vec(rectangles));
        proof {
            lemma_tally_within_bounds(rect_mask@, rectangles@, earlier);
            outcomes = earlier.push(
                match result {
                    Some(ref labels) => Some(labels@),
                    None => None,
                },
            );
            assert(outcomes.drop_last() =~= earlier);
        }
        if let Some(labels) = &result {
            tally.record(labels);
        }
        done += 1;
    }
    proof {
        lemma_tally_within_bounds(rect_mask@, rectangles@, outcomes);
    }
    tally
}

/// Whether `tally` is the tally of `trials` trials that place the rectangles
/// in the order of their area.
pub open spec fn estimates(
    mask: GridView<bool>,
    rects: Seq<Rectangle>,
    trials: nat,
    tally: TallyView,
) -> bool {
    exists|order: Seq<Rectangle>| #[trigger]
        is_area_order(rects, order) && tallies_trials(mask, order, trials, tally)
}

/// What an estimate is bound to, whatever the rectangles and the random
/// choices were: the tally has the shape of the mask; no count exceeds the
/// successes, nor the successes the trials; a cell that is occupied in the
/// mask counts zero; without rectangles every trial succeeds and covers
/// nothing.
pub open spec fn estimate_within_bounds(
    mask: GridView<bool>,
    rects: Seq<Rectangle>,
    trials: nat,
    tally: TallyView,
) -> bool {
    &&& tally.wf()
    &&& tally.counts.same_shape(mask)
    &&& tally.successes <= trials
    &&& rects.len() == 0 ==> tally.successes == trials && tally.counts.is_uniform(0)
    &&& forall|x: int, y: int|
        mask.contains(x, y) && mask.at(x, y) ==> (#[trigger] tally.counts.at(x, y)) == 0
}

/// Every estimate is within its bounds.
pub proof fn lemma_estimate_within_bounds(
    mask: GridView<bool>,
    rects: Seq<Rectangle>,
    trials: nat,
    tally: TallyView,
)
    requires
        mask.wf(),
        estimates(mask, rects, trials, tally),
    ensures
        estimate_within_bounds(mask, rects, trials, tally),
{
    let order = choose|order: Seq<Rectangle>| #[trigger]
        is_area_order(rects, order) && tallies_trials(mask, order, trials, tally);
    let outcomes = choose|outcomes: Seq<Option<GridView<usize>>>| #[trigger]
        is_tally_of(mask, order, trials, tally, outcomes);
    lemma_tally_within_bounds(mask, order, outcomes);
}

/// Estimates the probabilities of a grid from its rectangles: sorts the
/// rectangles by area, largest first, runs [`SIMULATIONS`] trials and returns
/// their tally. The estimate for a cell is its count over the successes.
pub fn estimate_probabilities(rect_mask: &Grid<bool>, rectangles: &[Rectangle]) -> (tally: Tally)
    requires
        rect_mask.wf(),
    ensures
        tally.wf(),
        estimates(rect_mask@, rectangles@, SIMULATIONS as nat, tally@),
        estimate_within_bounds(rect_mask@, rectangles@, SIMULATIONS as nat, tally@),
{
    let sorted = sort_by_area(rectangles);
    let tally = run_trials(rect_mask, &sorted, SIMULATIONS);
    proof {
        assert(is_area_order(rectangles@, sorted@) && tallies_trials(
            rect_mask@,
            sorted@,
            SIMULATIONS as nat,
            tally@,
        ));
        lemma_estimate_within_bounds(rect_mask@, rectangles@, SIMULATIONS as nat, tally@);
    }
    tally
}

} // verus!
