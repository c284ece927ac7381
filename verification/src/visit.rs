//! The step counter of a traversal.

use vstd::prelude::*;
use crate::numerical::{pow_usize, spec_pow, Numerical};

verus! {

/// The number of cells already visited during a traversal; a transform maps
/// this counter to the actual cell index to visit.
#[derive(Clone, Copy, Debug, PartialEq, Eq, Structural, Hash)]
pub struct Visit(pub usize);

impl Numerical for Visit {
    open spec fn spec_num(&self) -> usize {
        self.0
    }

    fn num(&self) -> (n: usize)
        ensures
            n == self.spec_num(),
    {
        self.0
    }
}

impl Visit {
    /// The counter before any cell has been visited.
    pub fn zero() -> (r: Self)
        ensures
            r.0 == 0,
    {
        Visit(0)
    }

    /// The counter after a single visit.
    pub fn one() -> (r: Self)
        ensures
            r.0 == 1,
    {
        Visit(1)
    }

    /// Checked-by-contract addition.
    pub fn plus<T: Numerical>(&self, rhs: T) -> (r: usize)
        requires
            self.0 + rhs.spec_num() <= usize::MAX,
        ensures
            r == self.0 + rhs.spec_num(),
    {
        self.0 + rhs.num()
    }

    /// Checked-by-contract subtraction; the argument must not exceed the index.
    pub fn minus<T: Numerical>(&self, rhs: T) -> (r: usize)
        requires
            rhs.spec_num() <= self.0,
        ensures
            r == self.0 - rhs.spec_num(),
    {
        self.0 - rhs.num()
    }

    /// Checked-by-contract multiplication.
    pub fn mul<T: Numerical>(&self, rhs: T) -> (r: usize)
        requires
            self.0 * rhs.spec_num() <= usize::MAX,
        ensures
            r == self.0 * rhs.spec_num(),
    {
        self.0 * rhs.num()
    }

    /// Euclidean division by a positive divisor.
    pub fn div<T: Numerical>(&self, rhs: T) -> (r: usize)
        requires
            rhs.spec_num() > 0,
        ensures
            r == self.0 / rhs.spec_num(),
    {
        self.0 / rhs.num()
    }

    /// Remainder of division by a positive divisor.
    pub fn rem<T: Numerical>(&self, rhs: T) -> (r: usize)
        requires
            rhs.spec_num() > 0,
        ensures
            r == self.0 % rhs.spec_num(),
    {
        self.0 % rhs.num()
    }

    /// The counter raised to the given power.
    pub fn pow(&self, rhs: u32) -> (r: usize)
        requires
            spec_pow(self.0 as nat, rhs as nat) <= usize::MAX,
        ensures
            r == spec_pow(self.0 as nat, rhs as nat),
    {
        pow_usize(self.0, rhs)
    }

    /// Strictly-less comparison against any numeric value.
    pub fn lt<T: Numerical>(&self, rhs: T) -> (r: bool)
        ensures
            r == (self.0 < rhs.spec_num()),
    {
        self.0 < rhs.num()
    }

    /// Less-or-equal comparison against any numeric value.
    pub fn le<T: Numerical>(&self, rhs: T) -> (r: bool)
        ensures
            r == (self.0 <= rhs.spec_num()),
    {
        self.0 <= rhs.num()
    }

    /// Strictly-greater comparison against any numeric value.
    pub fn gt<T: Numerical>(&self, rhs: T) -> (r: bool)
        ensures
            r == (self.0 > rhs.spec_num()),
    {
        self.0 > rhs.num()
    }

    /// Greater-or-equal comparison against any numeric value.
    pub fn ge<T: Numerical>(&self, rhs: T) -> (r: bool)
        ensures
            r == (self.0 >= rhs.spec_num()),
    {
        self.0 >= rhs.num()
    }

    /// Equality against any numeric value.
    pub fn eq<T: Numerical>(&self, rhs: T) -> (r: bool)
        ensures
            r == (self.0 == rhs.spec_num()),
    {
        self.0 == rhs.num()
    }
}

} // verus!
