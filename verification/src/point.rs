//! Grid coordinates.

use vstd::prelude::*;

verus! {

/// A cell of the grid, named by its column `x` and its row `y`.
#[derive(Clone, Copy, Debug, PartialEq, Eq, Structural, Hash)]
pub struct Point {
    pub x: u32,
    pub y: u32,
}

/// The distance between two coordinates on one axis.
pub open spec fn span(a: u32, b: u32) -> int {
    if a >= b {
        a - b
    } else {
        b - a
    }
}

/// The distance between two coordinates on one axis.
pub fn axis_distance(a: u32, b: u32) -> (d: u32)
    ensures
        d == span(a, b),
{
    if a >= b {
        a - b
    } else {
        b - a
    }
}

impl Point {
    /// The two points differ by at most one column and at most one row.
    pub open spec fn within_one_step(self, other: Point) -> bool {
        span(self.x, other.x) <= 1 && span(self.y, other.y) <= 1
    }

    /// The two points are distinct neighbours, along a row, a column or a
    /// diagonal.
    pub open spec fn adjacent(self, other: Point) -> bool {
        self != other && self.within_one_step(other)
    }

    /// `self` comes before `other` when points are ordered by `x`, then by
    /// `y`.
    pub open spec fn lex_lt(self, other: Point) -> bool {
        self.x < other.x || (self.x == other.x && self.y < other.y)
    }

    /// The point with the given column and row.
    pub fn new_point(x: u32, y: u32) -> (p: Point)
        ensures
            p.x == x,
            p.y == y,
    {
        Point { x, y }
    }

    /// The coordinates as `[x, y]`.
    pub fn get_coords(&self) -> (c: [u32; 2])
        ensures
            c@ == seq![self.x, self.y],
    {
        let c: [u32; 2] = [self.x, self.y];
        assert(c@ =~= seq![self.x, self.y]);
        c
    }

    /// Whether `self` comes before `other` by `x`, then by `y`.
    pub fn precedes(&self, other: &Point) -> (b: bool)
        ensures
            b == self.lex_lt(*other),
    {
        self.x < other.x || (self.x == other.x && self.y < other.y)
    }
}

} // verus!
