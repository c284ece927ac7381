//! The four cardinal directions and small cyclic iterators over them.

use vstd::prelude::*;

verus! {

/// A cardinal direction on the grid: north, east, south or west.
#[derive(Clone, Copy, Debug, PartialEq, Eq, Structural)]
pub enum Cardinal {
    N,
    E,
    S,
    W,
}

impl Cardinal {
    /// The next direction going clockwise, in contracts.
    pub open spec fn spec_clockwise(self) -> Cardinal {
        match self {
            Cardinal::N => Cardinal::E,
            Cardinal::E => Cardinal::S,
            Cardinal::S => Cardinal::W,
            Cardinal::W => Cardinal::N,
        }
    }

    /// The next direction going counter-clockwise, in contracts.
    pub open spec fn spec_counter_clockwise(self) -> Cardinal {
        match self {
            Cardinal::N => Cardinal::W,
            Cardinal::W => Cardinal::S,
            Cardinal::S => Cardinal::E,
            Cardinal::E => Cardinal::N,
        }
    }

    /// An iterator over all four directions, clockwise, starting at this one.
    pub fn iter(&self) -> (r: CardinalIter)
        ensures
            r.cur == *self,
            r.start == *self,
            r.count == 0,
    {
        CardinalIter::new(self)
    }

    /// The next direction going clockwise.
    pub fn clockwise(&self) -> (r: Self)
        ensures
            r == self.spec_clockwise(),
    {
        match self {
            Self::N => Self::E,
            Self::E => Self::S,
            Self::S => Self::W,
            Self::W => Self::N,
        }
    }

    /// The next direction going counter-clockwise.
    pub fn counter_clockwise(&self) -> (r: Self)
        ensures
            r == self.spec_counter_clockwise(),
    {
        match self {
            Self::N => Self::W,
            Self::W => Self::S,
            Self::S => Self::E,
            Self::E => Self::N,
        }
    }

    /// The direction's single-letter name.
    pub fn char(&self) -> (r: char)
        ensures
            r == (match *self {
                Cardinal::N => 'N',
                Cardinal::E => 'E',
                Cardinal::S => 'S',
                Cardinal::W => 'W',
            }),
    {
        match self {
            Self::N => 'N',
            Self::E => 'E',
            Self::S => 'S',
            Self::W => 'W',
        }
    }

    /// The direction's full name.
    pub fn string(&self) -> (r: &'static str)
        ensures
            *self == Cardinal::N ==> r@ == "North"@,
            *self == Cardinal::E ==> r@ == "East"@,
            *self == Cardinal::S ==> r@ == "South"@,
            *self == Cardinal::W ==> r@ == "West"@,
    {
        match self {
            Self::N => "North",
            Self::E => "East",
            Self::S => "South",
            Self::W => "West",
        }
    }

    /// Where a clockwise walk around the compass begins.
    pub fn clockwise_start() -> (r: Self)
        ensures
            r == Cardinal::N,
    {
        Self::N
    }

    /// Where a counter-clockwise walk around the compass begins.
    pub fn counter_clockwise_start() -> (r: Self)
        ensures
            r == Cardinal::W,
    {
        Self::W
    }

    /// The opposite direction on the same axis.
    pub fn opposite(&self) -> (r: Self)
        ensures
            r == (match *self {
                Cardinal::N => Cardinal::S,
                Cardinal::S => Cardinal::N,
                Cardinal::E => Cardinal::W,
                Cardinal::W => Cardinal::E,
            }),
    {
        match self {
            Self::N => Self::S,
            Self::S => Self::N,
            Self::E => Self::W,
            Self::W => Self::E,
        }
    }
}

/// Yields the four cardinal directions once, clockwise from a starting
/// direction, then stays exhausted until it wraps back to the start.
#[derive(Clone, Copy, Debug)]
pub struct CardinalIter {
    pub cur: Cardinal,
    pub start: Cardinal,
    pub count: u8,
}

impl CardinalIter {
    /// A clockwise iterator beginning at the given direction.
    pub fn new(start: &Cardinal) -> (r: Self)
        ensures
            r.cur == *start,
            r.start == *start,
            r.count == 0,
    {
        Self { cur: *start, start: *start, count: 0 }
    }

    /// A clockwise iterator from the default starting direction.
    pub fn iter() -> (r: Self)
        ensures
            r.cur == Cardinal::N,
            r.start == Cardinal::N,
            r.count == 0,
    {
        Self::new(&Cardinal::N)
    }

    /// The next direction, or `None` once all four have been yielded.
    pub fn next(&mut self) -> (r: Option<Cardinal>)
        requires
            old(self).count <= 4,
        ensures
            final(self).start == old(self).start,
            old(self).count == 4 ==> r is None && final(self).count == 0 && final(self).cur
                == old(self).start,
            old(self).count < 4 ==> r == Some(old(self).cur) && final(self).count == old(
                self,
            ).count + 1 && final(self).cur == old(self).cur.spec_clockwise(),
    {
        let cur = self.cur;
        if self.count == 4 {
            self.count = 0;
            self.cur = self.start;
            None
        } else {
            self.count = self.count + 1;
            self.cur = self.cur.clockwise();
            Some(cur)
        }
    }
}

/// Yields the four cardinal directions once, counter-clockwise from a starting
/// direction.
#[derive(Clone, Copy, Debug)]
pub struct CardinalRev {
    pub cur: Cardinal,
    pub start: Cardinal,
    pub count: u8,
}

impl CardinalRev {
    /// A counter-clockwise iterator beginning at the given direction.
    pub fn new(start: &Cardinal) -> (r: Self)
        ensures
            r.cur == *start,
            r.start == *start,
            r.count == 0,
    {
        Self { cur: *start, start: *start, count: 0 }
    }

    /// A counter-clockwise iterator from the default starting direction.
    pub fn iter() -> (r: Self)
        ensures
            r.cur == Cardinal::W,
            r.start == Cardinal::W,
            r.count == 0,
    {
        Self::new(&Cardinal::W)
    }

    /// The next direction, or `None` once all four have been yielded.
    pub fn next(&mut self) -> (r: Option<Cardinal>)
        requires
            old(self).count <= 4,
        ensures
            final(self).start == old(self).start,
            old(self).count == 4 ==> r is None && final(self).count == 0 && final(self).cur
                == old(self).start,
            old(self).count < 4 ==> r == Some(old(self).cur) && final(self).count == old(
                self,
            ).count + 1 && final(self).cur == old(self).cur.spec_counter_clockwise(),
    {
        let cur = self.cur;
        if self.count == 4 {
            self.count = 0;
            self.cur = self.start;
            None
        } else {
            self.count = self.count + 1;
            self.cur = self.cur.counter_clockwise();
            Some(cur)
        }
    }
}

/// The horizontal component of a diagonal scan direction.
#[derive(Clone, Copy, Debug, PartialEq, Eq, Structural)]
pub enum Horizontal {
    E,
    W,
}

/// The vertical component of a diagonal scan direction.
#[derive(Clone, Copy, Debug, PartialEq, Eq, Structural)]
pub enum Vertical {
    S,
    N,
}

impl Horizontal {
    /// The cardinal direction this horizontal component stands for.
    pub fn cardinal(&self) -> (r: Cardinal)
        ensures
            *self == Horizontal::E ==> r == Cardinal::E,
            *self == Horizontal::W ==> r == Cardinal::W,
    {
        match self {
            Self::E => Cardinal::E,
            Self::W => Cardinal::W,
        }
    }
}

impl Vertical {
    /// The cardinal direction this vertical component stands for.
    pub fn cardinal(&self) -> (r: Cardinal)
        ensures
            *self == Vertical::N ==> r == Cardinal::N,
            *self == Vertical::S ==> r == Cardinal::S,
    {
        match self {
            Self::N => Cardinal::N,
            Self::S => Cardinal::S,
        }
    }
}

} // verus!
