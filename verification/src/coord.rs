//! Row/column coordinates for grids with rectangular geometry.

use vstd::prelude::*;
use crate::index::Index;
use crate::row_size::{ColSize, RowSize};

verus! {

/// An `(x, y)` position: `x` is the column and `y` the row of a cell.
#[derive(Clone, Copy, Debug, PartialEq, Eq, Structural, Hash)]
pub struct Coord {
    pub x: Index,
    pub y: Index,
}

impl Coord {
    /// A coordinate from its column and row.
    pub fn new(x: Index, y: Index) -> (r: Self)
        ensures
            r.x == x,
            r.y == y,
    {
        Self { x, y }
    }

    /// The column.
    pub fn x(&self) -> (r: Index)
        ensures
            r == self.x,
    {
        self.x
    }

    /// The row.
    pub fn y(&self) -> (r: Index)
        ensures
            r == self.y,
    {
        self.y
    }

    /// The row, read as a size.
    pub fn row(&self) -> (r: RowSize)
        ensures
            r.0 == self.y.0,
    {
        RowSize(self.y.0)
    }

    /// The column, read as a size.
    pub fn col(&self) -> (r: ColSize)
        ensures
            r.0 == self.x.0,
    {
        RowSize(self.x.0)
    }

    /// The column and row as a pair of sizes.
    pub fn tuple(&self) -> (r: (RowSize, ColSize))
        ensures
            r.0.0 == self.x.0,
            r.1.0 == self.y.0,
    {
        (RowSize(self.x.0), RowSize(self.y.0))
    }

    /// The flat storage index of this coordinate under row-major order.
    pub fn id(&self, row_size: RowSize) -> (r: Index)
        requires
            self.y.0 * row_size.0 + self.x.0 <= usize::MAX,
        ensures
            r.0 == self.y.0 * row_size.0 + self.x.0,
    {
        Index(self.y.0 * row_size.0 + self.x.0)
    }
}

} // verus!
