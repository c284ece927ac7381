//! The four ordinal (corner) directions and an iterator over them.

use vstd::prelude::*;
use crate::cardinal::{Horizontal, Vertical};

verus! {

/// An ordinal direction: one of the four corners of the grid.
#[derive(Clone, Copy, Debug, PartialEq, Eq, Structural)]
pub enum Ordinal {
    Nw,
    Ne,
    Se,
    Sw,
}

impl Ordinal {
    /// The next corner going clockwise, in contracts.
    pub open spec fn spec_inc_cw(self) -> Ordinal {
        match self {
            Ordinal::Nw => Ordinal::Ne,
            Ordinal::Ne => Ordinal::Se,
            Ordinal::Se => Ordinal::Sw,
            Ordinal::Sw => Ordinal::Nw,
        }
    }

    /// An iterator over all four corners, clockwise from the northwest.
    pub fn iter() -> (r: OrdinalIter)
        ensures
            r.cur == Ordinal::Nw,
            r.start == Ordinal::Nw,
            r.count == 0,
    {
        OrdinalIter::new(&Ordinal::Nw)
    }

    /// The next corner going clockwise.
    pub fn inc_cw(&self) -> (r: Self)
        ensures
            r == self.spec_inc_cw(),
    {
        match self {
            Self::Nw => Self::Ne,
            Self::Ne => Self::Se,
            Self::Se => Self::Sw,
            Self::Sw => Self::Nw,
        }
    }

    /// The next corner going counter-clockwise.
    pub fn inc_ccw(&self) -> (r: Self)
        ensures
            r.spec_inc_cw() == *self,
    {
        match self {
            Self::Sw => Self::Se,
            Self::Se => Self::Ne,
            Self::Ne => Self::Nw,
            Self::Nw => Self::Sw,
        }
    }

    /// The horizontal side this corner lies on.
    pub open spec fn spec_side_x(self) -> Horizontal {
        match self {
            Ordinal::Nw | Ordinal::Sw => Horizontal::W,
            Ordinal::Ne | Ordinal::Se => Horizontal::E,
        }
    }

    /// The vertical side this corner lies on.
    pub open spec fn spec_side_y(self) -> Vertical {
        match self {
            Ordinal::Nw | Ordinal::Ne => Vertical::N,
            Ordinal::Sw | Ordinal::Se => Vertical::S,
        }
    }

    /// The horizontal side this corner lies on.
    pub fn side_x(&self) -> (r: Horizontal)
        ensures
            r == self.spec_side_x(),
    {
        match self {
            Self::Nw | Self::Sw => Horizontal::W,
            Self::Ne | Self::Se => Horizontal::E,
        }
    }

    /// The vertical side this corner lies on.
    pub fn side_y(&self) -> (r: Vertical)
        ensures
            r == self.spec_side_y(),
    {
        match self {
            Self::Nw | Self::Ne => Vertical::N,
            Self::Sw | Self::Se => Vertical::S,
        }
    }

    /// The horizontal direction a scan starting at this corner moves in.
    pub open spec fn spec_direction_x(self) -> Horizontal {
        match self {
            Ordinal::Nw | Ordinal::Sw => Horizontal::E,
            Ordinal::Ne | Ordinal::Se => Horizontal::W,
        }
    }

    /// The vertical direction a scan starting at this corner moves in.
    pub open spec fn spec_direction_y(self) -> Vertical {
        match self {
            Ordinal::Nw | Ordinal::Ne => Vertical::S,
            Ordinal::Sw | Ordinal::Se => Vertical::N,
        }
    }

    /// The horizontal direction a scan starting at this corner moves in.
    pub fn direction_x(&self) -> (r: Horizontal)
        ensures
            r == self.spec_direction_x(),
    {
        match self {
            Self::Nw | Self::Sw => Horizontal::E,
            Self::Ne | Self::Se => Horizontal::W,
        }
    }

    /// The vertical direction a scan starting at this corner moves in.
    pub fn direction_y(&self) -> (r: Vertical)
        ensures
            r == self.spec_direction_y(),
    {
        match self {
            Self::Nw | Self::Ne => Vertical::S,
            Self::Sw | Self::Se => Vertical::N,
        }
    }
}

/// Yields the four corners once, clockwise from a starting corner.
#[derive(Clone, Copy, Debug)]
pub struct OrdinalIter {
    pub cur: Ordinal,
    pub start: Ordinal,
    pub count: u8,
}

impl OrdinalIter {
    /// A clockwise iterator beginning at the given corner.
    pub fn new(start: &Ordinal) -> (r: Self)
        ensures
            r.cur == *start,
            r.start == *start,
            r.count == 0,
    {
        Self { cur: *start, start: *start, count: 0 }
    }

    /// The next corner, or `None` once all four have been yielded.
    pub fn next(&mut self) -> (r: Option<Ordinal>)
        requires
            old(self).count <= 4,
        ensures
            final(self).start == old(self).start,
            old(self).count == 4 ==> r is None && final(self).count == 0 && final(self).cur
                == old(self).start,
            old(self).count < 4 ==> r == Some(old(self).cur) && final(self).count == old(
                self,
            ).count + 1 && final(self).cur == old(self).cur.spec_inc_cw(),
    {
        let cur = self.cur;
        if self.count == 4 {
            self.count = 0;
            self.cur = self.start;
            None
        } else {
            self.count = self.count + 1;
            self.cur = self.cur.inc_cw();
            Some(cur)
        }
    }
}

} // verus!
