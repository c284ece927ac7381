//! The total cell count of a grid.

use vstd::prelude::*;
use crate::numerical::{pow_usize, spec_pow, Numerical};

verus! {

/// The total cell count of a grid; for a square grid of side length `L` the
/// capacity is `L` squared.
#[derive(Clone, Copy, Debug, PartialEq, Eq, Structural, Hash)]
pub struct Capacity(pub usize);

impl Numerical for Capacity {
    open spec fn spec_num(&self) -> usize {
        self.0
    }

    fn num(&self) -> (n: usize)
        ensures
            n == self.spec_num(),
    {
        self.0
    }
}

impl Capacity {
    /// A capacity of zero cells.
    pub fn zero() -> (r: Self)
        ensures
            r.0 == 0,
    {
        Capacity(0)
    }

    /// A capacity of a single cell.
    pub fn one() -> (r: Self)
        ensures
            r.0 == 1,
    {
        Capacity(1)
    }

    /// Checked-by-contract addition.
    pub fn plus<T: Numerical>(&self, rhs: T) -> (r: usize)
        requires
            self.0 + rhs.spec_num() <= usize::MAX,
        ensures
            r == self.0 + rhs.spec_num(),
    {
        self.0 + rhs.num()
    }

    /// Checked-by-contract subtraction; the argument must not exceed the index.
    pub fn minus<T: Numerical>(&self, rhs: T) -> (r: usize)
        requires
            rhs.spec_num() <= self.0,
        ensures
            r == self.0 - rhs.spec_num(),
    {
        self.0 - rhs.num()
    }

    /// Checked-by-contract multiplication.
    pub fn mul<T: Numerical>(&self, rhs: T) -> (r: usize)
        requires
            self.0 * rhs.spec_num() <= usize::MAX,
        ensures
            r == self.0 * rhs.spec_num(),
    {
        self.0 * rhs.num()
    }

    /// Euclidean division by a positive divisor.
    pub fn div<T: Numerical>(&self, rhs: T) -> (r: usize)
        requires
            rhs.spec_num() > 0,
        ensures
            r == self.0 / rhs.spec_num(),
    {
        self.0 / rhs.num()
    }

    /// Remainder of division by a positive divisor.
    pub fn rem<T: Numerical>(&self, rhs: T) -> (r: usize)
        requires
            rhs.spec_num() > 0,
        ensures
            r == self.0 % rhs.spec_num(),
    {
        self.0 % rhs.num()
    }

    /// The capacity raised to the given power.
    pub fn pow(&self, rhs: u32) -> (r: usize)
        requires
            spec_pow(self.0 as nat, rhs as nat) <= usize::MAX,
        ensures
            r == spec_pow(self.0 as nat, rhs as nat),
    {
        pow_usize(self.0, rhs)
    }

    /// Strictly-less comparison against any numeric value.
    pub fn lt<T: Numerical>(&self, rhs: T) -> (r: bool)
        ensures
            r == (self.0 < rhs.spec_num()),
    {
        self.0 < rhs.num()
    }

    /// Less-or-equal comparison against any numeric value.
    pub fn le<T: Numerical>(&self, rhs: T) -> (r: bool)
        ensures
            r == (self.0 <= rhs.spec_num()),
    {
        self.0 <= rhs.num()
    }

    /// Strictly-greater comparison against any numeric value.
    pub fn gt<T: Numerical>(&self, rhs: T) -> (r: bool)
        ensures
            r == (self.0 > rhs.spec_num()),
    {
        self.0 > rhs.num()
    }

    /// Greater-or-equal comparison against any numeric value.
    pub fn ge<T: Numerical>(&self, rhs: T) -> (r: bool)
        ensures
            r == (self.0 >= rhs.spec_num()),
    {
        self.0 >= rhs.num()
    }

    /// Equality against any numeric value.
    pub fn eq<T: Numerical>(&self, rhs: T) -> (r: bool)
        ensures
            r == (self.0 == rhs.spec_num()),
    {
        self.0 == rhs.num()
    }
}

} // verus!
