//! Traversal-order transforms: pure functions that map the step counter of a
//! traversal to the cell index to visit.

use vstd::prelude::*;
use crate::cardinal::{Horizontal, Vertical};
use crate::coord::Coord;
use crate::index::Index;
use crate::ordinal::Ordinal;
use crate::row_size::{ColSize, RowSize};
use crate::visit::Visit;

verus! {

/// How a step counter is split into a row and a column: row-major order reads
/// cells row by row, column-major order column by column.
pub trait Major: Sized {
    /// The column for the given step, in contracts.
    spec fn spec_x(v: int, s: int) -> int;

    /// The row for the given step, in contracts.
    spec fn spec_y(v: int, s: int) -> int;

    /// Both coordinates stay inside a square grid of side `s`.
    proof fn lemma_coord_bounds(v: int, s: int)
        requires
            s >= 1,
            0 <= v < s * s,
        ensures
            0 <= Self::spec_x(v, s) < s,
            0 <= Self::spec_y(v, s) < s,
    ;

    /// A fresh value of this order.
    fn order() -> Self;

    /// The column visited at step `v` in a grid with rows of size `s`.
    fn op_x(v: Visit, s: RowSize) -> (r: Index)
        requires
            s.0 >= 1,
        ensures
            r.0 as int == Self::spec_x(v.0 as int, s.0 as int),
    ;

    /// The row visited at step `v` in a grid with rows of size `s`.
    fn op_y(v: Visit, s: RowSize) -> (r: Index)
        requires
            s.0 >= 1,
        ensures
            r.0 as int == Self::spec_y(v.0 as int, s.0 as int),
    ;
}

/// Row-major order: consecutive steps move along a row.
pub struct RowMajor;

/// Column-major order: consecutive steps move along a column.
pub struct ColMajor;

impl Major for RowMajor {
    open spec fn spec_x(v: int, s: int) -> int {
        v % s
    }

    open spec fn spec_y(v: int, s: int) -> int {
        v / s
    }

    proof fn lemma_coord_bounds(v: int, s: int) {
        vstd::arithmetic::div_mod::lemma_fundamental_div_mod(v, s);
        vstd::arithmetic::div_mod::lemma_mod_bound(v, s);
        vstd::arithmetic::div_mod::lemma_div_nonincreasing(v, s);
        assert(v / s < s) by (nonlinear_arith)
            requires
                s >= 1,
                0 <= v < s * s,
        ;
    }

    fn order() -> Self {
        Self
    }

    fn op_x(v: Visit, s: RowSize) -> (r: Index)
        ensures
            r.0 as int == Self::spec_x(v.0 as int, s.0 as int),
    {
        Index(v.0 % s.0)
    }

    fn op_y(v: Visit, s: RowSize) -> (r: Index)
        ensures
            r.0 as int == Self::spec_y(v.0 as int, s.0 as int),
    {
        Index(v.0 / s.0)
    }
}

impl Major for ColMajor {
    open spec fn spec_x(v: int, s: int) -> int {
        v / s
    }

    open spec fn spec_y(v: int, s: int) -> int {
        v % s
    }

    proof fn lemma_coord_bounds(v: int, s: int) {
        vstd::arithmetic::div_mod::lemma_fundamental_div_mod(v, s);
        vstd::arithmetic::div_mod::lemma_mod_bound(v, s);
        vstd::arithmetic::div_mod::lemma_div_nonincreasing(v, s);
        assert(v / s < s) by (nonlinear_arith)
            requires
                s >= 1,
                0 <= v < s * s,
        ;
    }

    fn order() -> Self {
        Self
    }

    fn op_x(v: Visit, s: RowSize) -> (r: Index)
        ensures
            r.0 as int == Self::spec_x(v.0 as int, s.0 as int),
    {
        Index(v.0 / s.0)
    }

    fn op_y(v: Visit, s: RowSize) -> (r: Index)
        ensures
            r.0 as int == Self::spec_y(v.0 as int, s.0 as int),
    {
        Index(v.0 % s.0)
    }
}

impl Horizontal {
    /// The column of the cell visited at step `v` when the scan moves in this
    /// horizontal direction, in contracts.
    pub open spec fn spec_scan_x<M: Major>(self, v: int, s: int) -> int {
        if self == Horizontal::E {
            M::spec_x(v, s)
        } else {
            s - 1 - M::spec_x(v, s)
        }
    }

    /// The column of the cell visited at step `v`: eastward scans count the
    /// column up from zero, westward scans count it down from the far edge.
    pub fn x<M: Major>(&self, v: Visit, s: RowSize) -> (r: Index)
        requires
            s.0 >= 1,
            v.0 < s.0 * s.0,
        ensures
            r.0 as int == self.spec_scan_x::<M>(v.0 as int, s.0 as int),
    {
        proof {
            M::lemma_coord_bounds(v.0 as int, s.0 as int);
        }
        match self {
            Self::E => M::op_x(v, s),
            Self::W => Index(s.0 - 1 - M::op_x(v, s).0),
        }
    }
}

impl Vertical {
    /// The row of the cell visited at step `v` when the scan moves in this
    /// vertical direction, in contracts.
    pub open spec fn spec_scan_y<M: Major>(self, v: int, s: int) -> int {
        if self == Vertical::S {
            M::spec_y(v, s)
        } else {
            s - 1 - M::spec_y(v, s)
        }
    }

    /// The row of the cell visited at step `v`: southward scans count the row
    /// down from zero, northward scans count it up from the bottom edge.
    pub fn y<M: Major>(&self, v: Visit, s: RowSize) -> (r: Index)
        requires
            s.0 >= 1,
            v.0 < s.0 * s.0,
        ensures
            r.0 as int == self.spec_scan_y::<M>(v.0 as int, s.0 as int),
    {
        proof {
            M::lemma_coord_bounds(v.0 as int, s.0 as int);
        }
        match self {
            Self::S => M::op_y(v, s),
            Self::N => Index(s.0 - 1 - M::op_y(v, s).0),
        }
    }
}

impl Ordinal {
    /// The flat index of the cell visited at step `v` by a scan that starts in
    /// this corner, in contracts.
    pub open spec fn spec_major_order_index<M: Major>(self, v: int, s: int) -> int {
        self.spec_direction_y().spec_scan_y::<M>(v, s) * s
            + self.spec_direction_x().spec_scan_x::<M>(v, s)
    }

    /// The coordinate visited at step `v` by a scan starting in this corner.
    pub fn major_order_coord<M: Major>(&self, v: Visit, s: RowSize, _major: M) -> (r: Coord)
        requires
            s.0 >= 1,
            v.0 < s.0 * s.0,
        ensures
            r.x.0 as int == self.spec_direction_x().spec_scan_x::<M>(v.0 as int, s.0 as int),
            r.y.0 as int == self.spec_direction_y().spec_scan_y::<M>(v.0 as int, s.0 as int),
    {
        let x = self.direction_x().x::<M>(v, s);
        let y = self.direction_y().y::<M>(v, s);
        Coord::new(x, y)
    }

    /// The flat index visited at step `v` by a scan starting in this corner.
    pub fn major_order_index<M: Major>(&self, v: Visit, s: RowSize, major: M) -> (r: Index)
        requires
            s.0 >= 1,
            v.0 < s.0 * s.0,
            s.0 * s.0 <= usize::MAX,
        ensures
            r.0 as int == self.spec_major_order_index::<M>(v.0 as int, s.0 as int),
            r.0 < s.0 * s.0,
    {
        proof {
            M::lemma_coord_bounds(v.0 as int, s.0 as int);
        }
        let c = self.major_order_coord::<M>(v, s, major);
        proof {
            assert(c.y.0 * s.0 + c.x.0 < s.0 * s.0) by (nonlinear_arith)
                requires
                    s.0 >= 1,
                    c.y.0 < s.0,
                    c.x.0 < s.0,
            ;
        }
        c.id(s)
    }
}

/// The transform that leaves the visit order unchanged: the cell visited at
/// step `v` is simply cell `v`.
pub struct Ident;

impl Ident {
    /// Maps a step counter to the identical cell index.
    pub fn transform(&self, id: usize, capacity: usize) -> (r: usize)
        requires
            id < capacity,
        ensures
            r == id,
    {
        id
    }
}

/// The transform that reverses the visit order: the cell visited at step `v`
/// is cell `capacity - 1 - v`.
pub struct Rev;

impl Rev {
    /// Maps a step counter to the cell the same distance from the end.
    pub fn transform(&self, id: usize, capacity: usize) -> (r: usize)
        requires
            id < capacity,
        ensures
            r == capacity - 1 - id,
    {
        capacity - 1 - id
    }
}

} // verus!
