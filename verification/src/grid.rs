use crate::types::{Position, Rectangle};
use core::ops::Div;
use vstd::prelude::*;
use vstd::std_specs::cmp::PartialEqSpec;
use vstd::std_specs::ops::{DivSpec, DivSpecImpl};

verus! {

/// Whether cell `(cx, cy)` lies in the region that is anchored at `(x, y)` and
/// spans `w` columns and `h` rows.
pub open spec fn in_region(x: int, y: int, w: int, h: int, cx: int, cy: int) -> bool {
    x <= cx < x + w && y <= cy < y + h
}

/// The mathematical content of a [`Grid`]: its dimensions and its cells, one
/// sequence per row.
#[verifier::ext_equal]
pub struct GridView<T> {
    pub rows: nat,
    pub cols: nat,
    pub cells: Seq<Seq<T>>,
}

impl<T> GridView<T> {
    /// There are `rows` rows and each of them holds `cols` cells.
    pub open spec fn wf(self) -> bool {
        &&& self.cells.len() == self.rows
        &&& forall|y: int| 0 <= y < self.rows ==> (#[trigger] self.cells[y]).len() == self.cols
    }

    /// Whether `(x, y)` addresses a cell of the grid.
    pub open spec fn contains(self, x: int, y: int) -> bool {
        0 <= x < self.cols && 0 <= y < self.rows
    }

    /// The cell in column `x` of row `y`.
    pub open spec fn at(self, x: int, y: int) -> T {
        self.cells[y][x]
    }

    /// Whether both grids have the same number of rows and of columns.
    pub open spec fn same_shape<U>(self, other: GridView<U>) -> bool {
        self.rows == other.rows && self.cols == other.cols
    }

    /// The grid of the given dimensions whose cells all hold `value`.
    pub open spec fn uniform(rows: nat, cols: nat, value: T) -> GridView<T> {
        GridView { rows, cols, cells: Seq::new(rows, |y: int| Seq::new(cols, |x: int| value)) }
    }

    /// Whether every cell holds `value`.
    pub open spec fn is_uniform(self, value: T) -> bool {
        forall|x: int, y: int| self.contains(x, y) ==> #[trigger] self.at(x, y) == value
    }

    /// This grid with the cell at `(x, y)` replaced by `value`.
    pub open spec fn with_cell(self, x: int, y: int, value: T) -> GridView<T> {
        GridView { cells: self.cells.update(y, self.cells[y].update(x, value)), ..self }
    }

    /// Whether the region anchored at `(x, y)` that spans `w` columns and `h`
    /// rows does not reach beyond the last column or the last row.
    pub open spec fn region_inside(self, x: int, y: int, w: int, h: int) -> bool {
        x + w <= self.cols && y + h <= self.rows
    }

    /// This grid with every cell of the given region replaced by `value`.
    pub open spec fn filled(self, x: int, y: int, w: int, h: int, value: T) -> GridView<T> {
        GridView {
            cells: Seq::new(
                self.rows,
                |cy: int|
                    Seq::new(
                        self.cols,
                        |cx: int|
                            if in_region(x, y, w, h, cx, cy) {
                                value
                            } else {
                                self.at(cx, cy)
                            },
                    ),
            ),
            ..self
        }
    }
}

/// Replacing one cell of a well-formed grid keeps the grid well-formed and of
/// the same shape, puts the new value at that cell and leaves every other cell
/// as it was.
pub proof fn lemma_with_cell<T>(grid: GridView<T>, x: int, y: int, value: T)
    requires
        grid.wf(),
        grid.contains(x, y),
    ensures
        grid.with_cell(x, y, value).wf(),
        grid.with_cell(x, y, value).same_shape(grid),
        forall|cx: int, cy: int|
            grid.contains(cx, cy) ==> #[trigger] grid.with_cell(x, y, value).at(cx, cy) == if cx
                == x && cy == y {
                value
            } else {
                grid.at(cx, cy)
            },
{
    let next = grid.with_cell(x, y, value);
    assert forall|cy: int| 0 <= cy < next.rows implies (#[trigger] next.cells[cy]).len()
        == next.cols by {
        assert(grid.cells[cy].len() == grid.cols);
    }
}

/// Two grids of the same shape with the same value in every cell are equal.
pub proof fn lemma_same_cells<T>(a: GridView<T>, b: GridView<T>)
    requires
        a.wf(),
        b.wf(),
        a.same_shape(b),
        forall|x: int, y: int| a.contains(x, y) ==> #[trigger] a.at(x, y) == b.at(x, y),
    ensures
        a == b,
{
    assert forall|y: int| 0 <= y < a.rows implies #[trigger] a.cells[y] =~= b.cells[y] by {
        assert forall|x: int| 0 <= x < a.cols implies a.cells[y][x] == b.cells[y][x] by {
            assert(a.at(x, y) == b.at(x, y));
        }
    }
    assert(a.cells =~= b.cells);
}

impl<T: PartialEq> GridView<T> {
    /// Whether the given region lies inside the grid and each of its cells
    /// compares equal to `value`.
    pub open spec fn region_all(self, x: int, y: int, w: int, h: int, value: T) -> bool {
        &&& self.region_inside(x, y, w, h)
        &&& forall|cx: int, cy: int|
            in_region(x, y, w, h, cx, cy) ==> (#[trigger] self.at(cx, cy)).eq_spec(&value)
    }

    /// Whether the comparison of the cell at `(x, y)` with `value` by `!=` may
    /// give `differs`.
    pub open spec fn compares(self, x: int, y: int, value: T, differs: bool) -> bool {
        call_ensures(T::ne, (&self.at(x, y), &value), differs)
    }
}

/// A two-dimensional grid of values, stored row by row.
#[derive(PartialEq, Eq, Hash)]
pub struct Grid<T> {
    rows: usize,
    cols: usize,
    data: Vec<Vec<T>>,
}

impl<T> View for Grid<T> {
    type V = GridView<T>;

    closed spec fn view(&self) -> GridView<T> {
        GridView {
            rows: self.rows as nat,
            cols: self.cols as nat,
            cells: Seq::new(self.data.len() as nat, |y: int| self.data[y]@),
        }
    }
}

impl<T> Grid<T> {
    /// The invariant of a grid: its content is rectangular and of the
    /// dimensions that it reports.
    pub open spec fn wf(&self) -> bool {
        &&& self@.wf()
        &&& self@.rows <= usize::MAX
        &&& self@.cols <= usize::MAX
    }

    /// Builds a grid from its rows, or returns `None` unless `data` holds
    /// exactly `rows` rows of exactly `cols` cells each.
    pub fn from_rows(rows: usize, cols: usize, data: Vec<Vec<T>>) -> (grid: Option<Grid<T>>)
        ensures
            grid.is_some() <==> (data.len() == rows && forall|y: int|
                0 <= y < data.len() ==> (#[trigger] data[y]).len() == cols),
            grid matches Some(g) ==> {
                &&& g.wf()
                &&& g@.rows == rows
                &&& g@.cols == cols
                &&& g@.cells == Seq::new(data.len() as nat, |y: int| data[y]@)
            },
    {
        if data.len() != rows {
            return None;
        }
        let mut y: usize = 0;
        while y < rows
            invariant
                y <= rows,
                data.len() == rows,
                forall|k: int| 0 <= k < y ==> (#[trigger] data[k]).len() == cols,
            decreases rows - y,
        {
            if data[y].len() != cols {
                return None;
            }
            y += 1;
        }
        Some(Grid { rows, cols, data })
    }

    /// Returns the rows of this [`Grid<T>`].
    pub fn rows(&self) -> (rows: usize)
        ensures
            rows == self@.rows,
    {
        self.rows
    }

    /// Returns the cols of this [`Grid<T>`].
    pub fn cols(&self) -> (cols: usize)
        ensures
            cols == self@.cols,
    {
        self.cols
    }

    /// The cell at `pos`.
    pub fn get(&self, pos: &Position) -> (cell: &T)
        requires
            self.wf(),
            self@.contains(pos.x as int, pos.y as int),
        ensures
            *cell == self@.at(pos.x as int, pos.y as int),
    {
        assert(self.data[pos.y as int]@ == self@.cells[pos.y as int]);
        &self.data[pos.y][pos.x]
    }

    /// Replaces the cell at `pos` by `value` and leaves every other cell as it
    /// was.
    pub fn set(&mut self, pos: &Position, value: T)
        requires
            old(self).wf(),
            old(self)@.contains(pos.x as int, pos.y as int),
        ensures
            final(self).wf(),
            final(self)@ == old(self)@.with_cell(pos.x as int, pos.y as int, value),
    {
        assert(self.data[pos.y as int]@ == self@.cells[pos.y as int]);
        self.data[pos.y][pos.x] = value;
        assert(self@.cells =~= old(self)@.with_cell(pos.x as int, pos.y as int, value).cells);
    }
}

impl<T: Copy> Grid<T> {
    /// Creates a new [`Grid<T>`] of the given dimensions with `value` in
    /// every cell.
    pub fn new(rows: usize, cols: usize, value: T) -> (grid: Grid<T>)
        ensures
            grid.wf(),
            grid@ == GridView::uniform(rows as nat, cols as nat, value),
    {
        let mut data: Vec<Vec<T>> = Vec::new();
        let mut y: usize = 0;
        while y < rows
            invariant
                y <= rows,
                data.len() == y,
                forall|k: int| 0 <= k < y ==> (#[trigger] data[k])@ == Seq::new(
                    cols as nat,
                    |x: int| value,
                ),
            decreases rows - y,
        {
            let mut row: Vec<T> = Vec::new();
            let mut x: usize = 0;
            while x < cols
                invariant
                    x <= cols,
                    row@ == Seq::new(x as nat, |k: int| value),
                decreases cols - x,
            {
                row.push(value);
                assert(row@ =~= Seq::new((x + 1) as nat, |k: int| value));
                x += 1;
            }
            data.push(row);
            y += 1;
        }
        let grid = Grid { rows, cols, data };
        assert(grid@.cells =~= GridView::uniform(rows as nat, cols as nat, value).cells);
        grid
    }

    /// Writes `value` into every cell of the region that is anchored at `pos`
    /// and has the extent of `rect`; the region must lie inside the grid.
    pub fn fill(&mut self, pos: &Position, rect: &Rectangle, value: T)
        requires
            old(self).wf(),
            old(self)@.region_inside(
                pos.x as int,
                pos.y as int,
                rect.width as int,
                rect.height as int,
            ),
        ensures
            final(self).wf(),
            final(self)@ == old(self)@.filled(
                pos.x as int,
                pos.y as int,
                rect.width as int,
                rect.height as int,
                value,
            ),
    {
        let ghost before = self@;
        let ghost x0 = pos.x as int;
        let ghost y0 = pos.y as int;
        let ghost w = rect.width as int;
        let mut i: usize = 0;
        while i < rect.height
            invariant
                i <= rect.height,
                x0 == pos.x,
                y0 == pos.y,
                w == rect.width,
                before.wf(),
                before.region_inside(x0, y0, w, rect.height as int),
                before.rows <= usize::MAX,
                before.cols <= usize::MAX,
                self.wf(),
                self@.same_shape(before),
                forall|cx: int, cy: int|
                    before.contains(cx, cy) ==> #[trigger] self@.at(cx, cy) == if in_region(
                        x0,
                        y0,
                        w,
                        i as int,
                        cx,
                        cy,
                    ) {
                        value
                    } else {
                        before.at(cx, cy)
                    },
            decreases rect.height - i,
        {
            let mut j: usize = 0;
            while j < rect.width
                invariant
                    i < rect.height,
                    j <= rect.width,
                    x0 == pos.x,
                    y0 == pos.y,
                    w == rect.width,
                    before.wf(),
                    before.region_inside(x0, y0, w, rect.height as int),
                    before.rows <= usize::MAX,
                    before.cols <= usize::MAX,
                    self.wf(),
                    self@.same_shape(before),
                    forall|cx: int, cy: int|
                        before.contains(cx, cy) ==> #[trigger] self@.at(cx, cy) == if in_region(
                            x0,
                            y0,
                            w,
                            i as int,
                            cx,
                            cy,
                        ) || in_region(x0, y0 + i, j as int, 1, cx, cy) {
                            value
                        } else {
                            before.at(cx, cy)
                        },
                decreases rect.width - j,
            {
                let cell = Position { x: pos.x + j, y: pos.y + i };
                let ghost prev = self@;
                self.set(&cell, value);
                assert forall|cx: int, cy: int| before.contains(cx, cy) implies #[trigger] self@.at(
                    cx,
                    cy,
                ) == if in_region(x0, y0, w, i as int, cx, cy) || in_region(
                    x0,
                    y0 + i,
                    j + 1,
                    1,
                    cx,
                    cy,
                ) {
                    value
                } else {
                    before.at(cx, cy)
                } by {
                    assert(prev.at(cx, cy) == if in_region(x0, y0, w, i as int, cx, cy)
                        || in_region(x0, y0 + i, j as int, 1, cx, cy) {
                        value
                    } else {
                        before.at(cx, cy)
                    });
                }
                j += 1;
            }
            i += 1;
        }
        proof {
            lemma_same_cells(self@, before.filled(x0, y0, w, rect.height as int, value));
        }
    }
}

impl<T: PartialEq> Grid<T> {
    /// Returns `true` if the region that is anchored at `pos` and has the
    /// extent of `rect` lies inside the grid and all of its cells are the same
    /// as the given `value`; a region that reaches beyond the grid gives
    /// `false`.
    pub fn all(&self, pos: &Position, rect: &Rectangle, value: &T) -> (b: bool)
        requires
            self.wf(),
        ensures
            T::obeys_eq_spec() ==> b == self@.region_all(
                pos.x as int,
                pos.y as int,
                rect.width as int,
                rect.height as int,
                *value,
            ),
            b ==> self@.region_inside(
                pos.x as int,
                pos.y as int,
                rect.width as int,
                rect.height as int,
            ) && forall|cx: int, cy: int|
                in_region(
                    pos.x as int,
                    pos.y as int,
                    rect.width as int,
                    rect.height as int,
                    cx,
                    cy,
                ) ==> #[trigger] self@.compares(cx, cy, *value, false),
            !b ==> !self@.region_inside(
                pos.x as int,
                pos.y as int,
                rect.width as int,
                rect.height as int,
            ) || exists|cx: int, cy: int|
                in_region(
                    pos.x as int,
                    pos.y as int,
                    rect.width as int,
                    rect.height as int,
                    cx,
                    cy,
                ) && #[trigger] self@.compares(cx, cy, *value, true),
    {
        if rect.width > self.cols || pos.x > self.cols - rect.width || rect.height > self.rows
            || pos.y > self.rows - rect.height {
            return false;
        }
        let ghost x0 = pos.x as int;
        let ghost y0 = pos.y as int;
        let ghost w = rect.width as int;
        let mut i: usize = 0;
        while i < rect.height
            invariant
                i <= rect.height,
                x0 == pos.x,
                y0 == pos.y,
                w == rect.width,
                self.wf(),
                self@.region_inside(x0, y0, w, rect.height as int),
                T::obeys_eq_spec() ==> forall|cx: int, cy: int|
                    in_region(x0, y0, w, i as int, cx, cy) ==> (#[trigger] self@.at(
                        cx,
                        cy,
                    )).eq_spec(value),
                forall|cx: int, cy: int|
                    in_region(x0, y0, w, i as int, cx, cy) ==> #[trigger] self@.compares(
                        cx,
                        cy,
                        *value,
                        false,
                    ),
            decreases rect.height - i,
        {
            let mut j: usize = 0;
            while j < rect.width
                invariant
                    i < rect.height,
                    j <= rect.width,
                    x0 == pos.x,
                    y0 == pos.y,
                    w == rect.width,
                    self.wf(),
                    self@.region_inside(x0, y0, w, rect.height as int),
                    T::obeys_eq_spec() ==> forall|cx: int, cy: int|
                        in_region(x0, y0, w, i as int, cx, cy) || in_region(
                            x0,
                            y0 + i,
                            j as int,
                            1,
                            cx,
                            cy,
                        ) ==> (#[trigger] self@.at(cx, cy)).eq_spec(value),
                    forall|cx: int, cy: int|
                        in_region(x0, y0, w, i as int, cx, cy) || in_region(
                            x0,
                            y0 + i,
                            j as int,
                            1,
                            cx,
                            cy,
                        ) ==> #[trigger] self@.compares(cx, cy, *value, false),
                decreases rect.width - j,
            {
                let cell = Position { x: pos.x + j, y: pos.y + i };
                if *self.get(&cell) != *value {
                    assert(T::obeys_eq_spec() ==> !self@.at(x0 + j, y0 + i).eq_spec(value));
                    assert(in_region(x0, y0, w, rect.height as int, x0 + j, y0 + i));
                    assert(self@.compares(x0 + j, y0 + i, *value, true));
                    return false;
                }
                assert(self@.compares(x0 + j, y0 + i, *value, false));
                j += 1;
            }
            i += 1;
        }
        true
    }
}

impl<T: Copy> Clone for Grid<T> {
    /// A grid of the same dimensions with the same cells.
    fn clone(&self) -> (copy: Grid<T>)
        ensures
            copy@ == self@,
    {
        let mut data: Vec<Vec<T>> = Vec::new();
        let mut y: usize = 0;
        while y < self.data.len()
            invariant
                y <= self.data.len(),
                data.len() == y,
                forall|k: int| 0 <= k < y ==> (#[trigger] data[k])@ == self.data[k]@,
            decreases self.data.len() - y,
        {
            let mut row: Vec<T> = Vec::new();
            let mut x: usize = 0;
            while x < self.data[y].len()
                invariant
                    y < self.data.len(),
                    x <= self.data[y as int].len(),
                    row@ == self.data[y as int]@.take(x as int),
                decreases self.data[y as int].len() - x,
            {
                row.push(self.data[y][x]);
                assert(row@ =~= self.data[y as int]@.take(x + 1));
                x += 1;
            }
            assert(row@ =~= self.data[y as int]@);
            data.push(row);
            y += 1;
        }
        let copy = Grid { rows: self.rows, cols: self.cols, data };
        assert(copy@.cells =~= self@.cells);
        copy
    }
}

impl<T: Copy> Grid<T> {
    /// The grid of the same shape whose cells are the results of `f` on the
    /// cells of this grid.
    pub fn map<U, F: Fn(T) -> U>(&self, f: F) -> (mapped: Grid<U>)
        requires
            self.wf(),
            forall|x: int, y: int|
                self@.contains(x, y) ==> call_requires(f, (#[trigger] self@.at(x, y),)),
        ensures
            mapped.wf(),
            mapped@.same_shape(self@),
            forall|x: int, y: int|
                self@.contains(x, y) ==> call_ensures(
                    f,
                    (self@.at(x, y),),
                    #[trigger] mapped@.at(x, y),
                ),
    {
        let mut data: Vec<Vec<U>> = Vec::new();
        let mut y: usize = 0;
        while y < self.rows
            invariant
                y <= self.rows,
                self.wf(),
                data.len() == y,
                forall|x: int, y: int|
                    self@.contains(x, y) ==> call_requires(f, (#[trigger] self@.at(x, y),)),
                forall|k: int| 0 <= k < y ==> (#[trigger] data[k]).len() == self.cols,
                forall|cx: int, cy: int|
                    0 <= cy < y && 0 <= cx < self.cols ==> call_ensures(
                        f,
                        (self@.at(cx, cy),),
                        #[trigger] data[cy][cx],
                    ),
            decreases self.rows - y,
        {
            let mut row: Vec<U> = Vec::new();
            let mut x: usize = 0;
            while x < self.cols
                invariant
                    y < self.rows,
                    x <= self.cols,
                    self.wf(),
                    row.len() == x,
                    forall|x: int, y: int|
                        self@.contains(x, y) ==> call_requires(f, (#[trigger] self@.at(x, y),)),
                    forall|cx: int|
                        0 <= cx < x ==> call_ensures(
                            f,
                            (self@.at(cx, y as int),),
                            #[trigger] row[cx],
                        ),
                decreases self.cols - x,
            {
                let cell = *self.get(&Position { x, y });
                row.push(f(cell));
                x += 1;
            }
            data.push(row);
            y += 1;
        }
        let mapped = Grid { rows: self.rows, cols: self.cols, data };
        assert forall|x: int, y: int| self@.contains(x, y) implies call_ensures(
            f,
            (self@.at(x, y),),
            #[trigger] mapped@.at(x, y),
        ) by {
            assert(mapped@.at(x, y) == mapped.data[y][x]);
        }
        mapped
    }
}

impl<T: Copy + Div<Output = T>> GridView<T> {
    /// Whether every cell may be divided by `rhs`.
    pub open spec fn divisible_by(self, rhs: T) -> bool {
        forall|x: int, y: int| self.contains(x, y) ==> (#[trigger] self.at(x, y)).div_req(rhs)
    }

    /// Whether this grid has the shape of `dividend` and each of its cells is
    /// what the division of the cell of `dividend` by `rhs` gives.
    pub open spec fn is_quotient_of(self, dividend: GridView<T>, rhs: T) -> bool {
        &&& self.wf()
        &&& self.same_shape(dividend)
        &&& forall|x: int, y: int|
            self.contains(x, y) ==> call_ensures(
                T::div,
                (dividend.at(x, y), rhs),
                #[trigger] self.at(x, y),
            )
    }
}

impl<T: Copy + Div<Output = T>> DivSpecImpl<T> for Grid<T> {
    open spec fn obeys_div_spec() -> bool {
        false
    }

    open spec fn div_req(self, rhs: T) -> bool {
        self.wf() && self@.divisible_by(rhs)
    }

    open spec fn div_spec(self, rhs: T) -> Grid<T> {
        self
    }
}

impl<T: Copy + Div<Output = T>> Div<T> for Grid<T> {
    type Output = Grid<T>;

    /// Divides every cell by `rhs`.
    fn div(self, rhs: T) -> (quotient: Grid<T>)
        ensures
            quotient.wf(),
            quotient@.is_quotient_of(self@, rhs),
    {
        let mut quotient = self;
        quotient.div_assign(rhs);
        quotient
    }
}

impl<T: Copy + Div<Output = T>> Grid<T> {
    /// Divides every cell by `rhs`, in place.
    pub fn div_assign(&mut self, rhs: T)
        requires
            old(self).wf(),
            old(self)@.divisible_by(rhs),
        ensures
            final(self).wf(),
            final(self)@.is_quotient_of(old(self)@, rhs),
    {
        let ghost before = self@;
        let mut y: usize = 0;
        while y < self.rows
            invariant
                y <= self.rows,
                before.wf(),
                before.divisible_by(rhs),
                self.wf(),
                self@.same_shape(before),
                forall|cx: int, cy: int|
                    before.contains(cx, cy) && cy < y ==> call_ensures(
                        T::div,
                        (before.at(cx, cy), rhs),
                        #[trigger] self@.at(cx, cy),
                    ),
                forall|cx: int, cy: int|
                    before.contains(cx, cy) && cy >= y ==> #[trigger] self@.at(cx, cy)
                        == before.at(cx, cy),
            decreases self.rows - y,
        {
            let mut x: usize = 0;
            while x < self.cols
                invariant
                    y < self.rows,
                    x <= self.cols,
                    before.wf(),
                    before.divisible_by(rhs),
                    self.wf(),
                    self@.same_shape(before),
                    forall|cx: int, cy: int|
                        before.contains(cx, cy) && (cy < y || (cy == y && cx < x)) ==> call_ensures(
                            T::div,
                            (before.at(cx, cy), rhs),
                            #[trigger] self@.at(cx, cy),
                        ),
                    forall|cx: int, cy: int|
                        before.contains(cx, cy) && !(cy < y || (cy == y && cx < x))
                            ==> #[trigger] self@.at(cx, cy) == before.at(cx, cy),
                decreases self.cols - x,
            {
                let pos = Position { x, y };
                let cell = *self.get(&pos);
                assert(cell == before.at(x as int, y as int));
                let quotient = cell / rhs;
                proof {
                    lemma_with_cell(self@, x as int, y as int, quotient);
                }
                self.set(&pos, quotient);
                x += 1;
            }
            y += 1;
        }
    }
}

} // verus!
