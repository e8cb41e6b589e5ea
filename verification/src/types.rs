use vstd::prelude::*;

verus! {

/// An axis-aligned rectangle, given by its extent along each axis.
#[derive(Clone, Copy, PartialEq, Eq, Structural, Debug, Hash)]
pub struct Rectangle {
    pub width: usize,
    pub height: usize,
}

impl Rectangle {
    /// The rectangle rotated by a quarter turn.
    pub open spec fn transposed(self) -> Rectangle {
        Rectangle { width: self.height, height: self.width }
    }

    /// The number of cells that the rectangle covers.
    pub open spec fn spec_area(self) -> nat {
        (self.width * self.height) as nat
    }

    /// Creates a new [`Rectangle`].
    pub fn new(width: usize, height: usize) -> (rect: Rectangle)
        ensures
            rect == (Rectangle { width, height }),
    {
        Rectangle { width, height }
    }

    /// Returns the width of this [`Rectangle`].
    pub fn width(&self) -> (width: usize)
        ensures
            width == self.width,
    {
        self.width
    }

    /// Returns the height of this [`Rectangle`].
    pub fn height(&self) -> (height: usize)
        ensures
            height == self.height,
    {
        self.height
    }

    /// Swaps the width and height of this [`Rectangle`].
    pub fn transpose(&mut self)
        ensures
            *final(self) == old(self).transposed(),
    {
        let width: usize = self.width;
        self.width = self.height;
        self.height = width;
    }

    /// Calculates the area of this [`Rectangle`]; the product must fit the
    /// machine word.
    pub fn area(&self) -> (area: usize)
        requires
            self.spec_area() <= usize::MAX,
        ensures
            area == self.spec_area(),
    {
        self.width * self.height
    }
}

/// Rotating a rectangle twice gives the rectangle back, and a rotation changes
/// neither the area nor the pair of extents.
pub proof fn lemma_transpose_involution(rect: Rectangle)
    ensures
        rect.transposed().transposed() == rect,
        rect.transposed().spec_area() == rect.spec_area(),
{
    assert(rect.height * rect.width == rect.width * rect.height) by (nonlinear_arith);
}

/// A cell of a grid: `x` is the column, `y` the row.
#[derive(Clone, Copy, PartialEq, Eq, Structural, Debug, Hash)]
pub struct Position {
    pub x: usize,
    pub y: usize,
}

impl Position {
    /// Creates a new [`Position`].
    pub fn new(x: usize, y: usize) -> (pos: Position)
        ensures
            pos == (Position { x, y }),
    {
        Position { x, y }
    }

    /// Returns the x of this [`Position`].
    pub fn x(&self) -> (x: usize)
        ensures
            x == self.x,
    {
        self.x
    }

    /// Returns the y of this [`Position`].
    pub fn y(&self) -> (y: usize)
        ensures
            y == self.y,
    {
        self.y
    }
}

} // verus!
