//! A signed two-dimensional point with border predicates, for callers that
//! work in coordinates before converting to cell indices.

use vstd::prelude::*;

verus! {

/// An `(x, y)` point in a grid, with signed components so that positions
/// just outside the grid can be represented during geometry calculations.
#[derive(Clone, Copy, Debug, PartialEq, Eq, Structural)]
pub struct Point {
    pub x: i16,
    pub y: i16,
}

impl Point {
    /// A point from its components, without any bounds check.
    pub fn new(x: i16, y: i16) -> (r: Self)
        ensures
            r.x == x,
            r.y == y,
    {
        Self { x, y }
    }

    /// The column.
    pub fn x(&self) -> (r: i16)
        ensures
            r == self.x,
    {
        self.x
    }

    /// The row.
    pub fn y(&self) -> (r: i16)
        ensures
            r == self.y,
    {
        self.y
    }

    /// Both components at once.
    pub fn get(&self) -> (r: (i16, i16))
        ensures
            r.0 == self.x,
            r.1 == self.y,
    {
        (self.x, self.y)
    }

    /// Replaces the column.
    pub fn set_x(&mut self, x: i16)
        ensures
            final(self).x == x,
            final(self).y == old(self).y,
    {
        self.x = x;
    }

    /// Replaces the row.
    pub fn set_y(&mut self, y: i16)
        ensures
            final(self).x == old(self).x,
            final(self).y == y,
    {
        self.y = y;
    }

    /// Whether the point lies on the top border of a grid of the given side
    /// length.
    pub fn on_top_border(&self, grid_size: u8) -> (r: bool)
        ensures
            r == (self.y == 0),
    {
        self.y == 0
    }

    /// Whether the point lies on the bottom border of a grid of the given
    /// side length.
    pub fn on_bottom_border(&self, grid_size: u8) -> (r: bool)
        requires
            grid_size >= 1,
        ensures
            r == (self.y as int == grid_size - 1),
    {
        self.y == (grid_size - 1) as i16
    }

    /// Whether the point lies on the left border of a grid of the given side
    /// length.
    pub fn on_left_border(&self, grid_size: u8) -> (r: bool)
        ensures
            r == (self.x == 0),
    {
        self.x == 0
    }

    /// Whether the point lies on the right border of a grid of the given
    /// side length.
    pub fn on_right_border(&self, grid_size: u8) -> (r: bool)
        requires
            grid_size >= 1,
        ensures
            r == (self.x as int == grid_size - 1),
    {
        self.x == (grid_size - 1) as i16
    }

    /// Whether the point lies on any of the four borders of a grid of the
    /// given side length.
    pub fn on_any_border(&self, grid_size: u8) -> (r: bool)
        requires
            grid_size >= 1,
        ensures
            r == (self.x == 0 || self.y == 0 || self.x as int == grid_size - 1 || self.y as int
                == grid_size - 1),
    {
        self.on_right_border(grid_size) || self.on_left_border(grid_size) || self.on_top_border(
            grid_size,
        ) || self.on_bottom_border(grid_size)
    }
}

} // verus!
