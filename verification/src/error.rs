//! Typed errors for out-of-bounds lookups and failed link operations.

use vstd::prelude::*;
use crate::cardinal::Cardinal;
use crate::coord::Coord;
use crate::index::Index;

verus! {

/// A cell index at or beyond the grid's capacity was given to a checked
/// accessor.
#[derive(Clone, Copy, Debug, PartialEq, Eq, Structural)]
pub struct OutOfBoundsError(pub Index);

impl OutOfBoundsError {
    /// Records the offending index.
    pub(crate) fn new(id: Index) -> (r: Self)
        ensures
            r.0 == id,
    {
        Self(id)
    }

    /// The offending index.
    pub fn id(&self) -> (r: Index)
        ensures
            r == self.0,
    {
        self.0
    }
}

/// A coordinate outside the grid's extent was given to a checked lookup.
#[derive(Clone, Copy, Debug, PartialEq, Eq, Structural)]
pub struct OutOfBoundsCoordError(pub Coord);

impl OutOfBoundsCoordError {
    /// Records the offending coordinate.
    pub(crate) fn new(coord: Coord) -> (r: Self)
        ensures
            r.0 == coord,
    {
        Self(coord)
    }

    /// The offending coordinate.
    pub fn coord(&self) -> (r: Coord)
        ensures
            r == self.0,
    {
        self.0
    }
}

/// A link or unlink was attempted on a pair of ids of which at least one
/// could not be resolved.
#[derive(Clone, Copy, Debug)]
pub struct CellLinkError {
    pub a: Index,
    pub b: Index,
    pub reason: &'static str,
}

impl CellLinkError {
    /// Records the offending pair and a human-readable reason.
    pub(crate) fn new(a: Index, b: Index, reason: &'static str) -> (r: Self)
        ensures
            r.a == a,
            r.b == b,
            r.reason == reason,
    {
        Self { a, b, reason }
    }
}

/// A directional link or query was attempted towards a side on which the cell
/// has no neighbor.
#[derive(Clone, Copy, Debug)]
pub struct NotNeighborsError {
    pub a: Index,
    pub dir: Cardinal,
    pub reason: &'static str,
}

impl NotNeighborsError {
    /// Records the offending cell, the attempted direction and a reason.
    pub(crate) fn new(a: Index, dir: Cardinal, reason: &'static str) -> (r: Self)
        ensures
            r.a == a,
            r.dir == dir,
            r.reason == reason,
    {
        Self { a, dir, reason }
    }
}

} // verus!
