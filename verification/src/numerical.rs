//! A common capability for the scalar index types: anything that can be read
//! as a plain `usize` count or position.

use vstd::prelude::*;

verus! {

/// Types that stand for a non-negative machine-sized number.
///
/// The scalar wrappers (`Index`, `Capacity`, `RowSize`, `Visit`) and the plain
/// unsigned integers implement this, so arithmetic helpers can accept any of
/// them without losing track of the underlying value.
pub trait Numerical: Sized {
    /// The number this value stands for, for use in contracts.
    spec fn spec_num(&self) -> usize;

    /// Returns the number this value stands for.
    fn num(&self) -> (n: usize)
        ensures
            n == self.spec_num(),
    ;
}

impl Numerical for usize {
    open spec fn spec_num(&self) -> usize {
        *self
    }

    fn num(&self) -> (n: usize)
        ensures
            n == self.spec_num(),
    {
        *self
    }
}

impl Numerical for u32 {
    open spec fn spec_num(&self) -> usize {
        *self as usize
    }

    fn num(&self) -> (n: usize)
        ensures
            n == self.spec_num(),
    {
        *self as usize
    }
}

/// `b` raised to the power `e`, as an unbounded natural number.
pub open spec fn spec_pow(b: nat, e: nat) -> nat
    decreases e,
{
    if e == 0 {
        1
    } else {
        b * spec_pow(b, (e - 1) as nat)
    }
}

/// Raising a base of at least one to a larger power never shrinks the result.
pub proof fn lemma_pow_monotone(b: nat, e1: nat, e2: nat)
    requires
        b >= 1,
        e1 <= e2,
    ensures
        spec_pow(b, e1) <= spec_pow(b, e2),
    decreases e2,
{
    if e1 < e2 {
        lemma_pow_monotone(b, e1, (e2 - 1) as nat);
        assert(spec_pow(b, (e2 - 1) as nat) <= b * spec_pow(b, (e2 - 1) as nat))
            by (nonlinear_arith)
            requires
                b >= 1,
                spec_pow(b, (e2 - 1) as nat) >= 0,
        ;
    }
}

/// Computes `b` to the power `e` by repeated multiplication.
pub fn pow_usize(b: usize, e: u32) -> (r: usize)
    requires
        spec_pow(b as nat, e as nat) <= usize::MAX,
    ensures
        r == spec_pow(b as nat, e as nat),
{
    let mut acc: usize = 1;
    let mut k: u32 = 0;
    while k < e
        invariant
            k <= e,
            acc == spec_pow(b as nat, k as nat),
            spec_pow(b as nat, e as nat) <= usize::MAX,
        decreases e - k,
    {
        proof {
            if b >= 1 {
                lemma_pow_monotone(b as nat, (k + 1) as nat, e as nat);
            }
            assert(b * spec_pow(b as nat, k as nat) == spec_pow(b as nat, (k + 1) as nat));
        }
        acc = acc * b;
        k = k + 1;
    }
    acc
}

} // verus!
