//! Traversal orders over a grid: the storage order, its reverse, the four
//! corner-oriented scans, a random order, and their composition by function
//! chaining.

use vstd::prelude::*;
use crate::index::Index;
use crate::ordinal::Ordinal;
use crate::rng::RandSource;
use crate::row_size::RowSize;
use crate::trans::{Major, RowMajor};
use crate::cell::SqCell;
use crate::grid::SqGrid;
use crate::visit::Visit;

verus! {

/// A fully computed traversal order: the cell to visit at step `k` is
/// `ids[k]`. Orders compose by mapping a further transform over the ids.
#[derive(Debug)]
pub struct Iter {
    pub size: RowSize,
    pub ids: Vec<Index>,
}

impl Iter {
    /// The ids stay inside the square grid the traversal was made for.
    pub open spec fn ok(&self) -> bool {
        &&& 1 <= self.size.0
        &&& self.size.0 * self.size.0 <= usize::MAX
        &&& forall|k: int|
            0 <= k < self.ids@.len() ==> ((#[trigger] self.ids@[k]).0 as int) < self.size.0
                * self.size.0
    }

    /// The visit order itself.
    pub fn ids(&self) -> (r: &Vec<Index>)
        ensures
            r == &self.ids,
    {
        &self.ids
    }

    /// Chains the identity transform: the order is unchanged.
    pub fn iter(self) -> (r: Iter)
        requires
            self.ok(),
        ensures
            r.ok(),
            r.size == self.size,
            r.ids == self.ids,
    {
        self
    }

    /// Chains the reversing transform: each visit steps to the cell the same
    /// distance from the end of the storage order.
    pub fn reverse(self) -> (r: Iter)
        requires
            self.ok(),
        ensures
            r.ok(),
            r.size == self.size,
            r.ids@.len() == self.ids@.len(),
            forall|k: int|
                0 <= k < self.ids@.len() ==> ((#[trigger] r.ids@[k]).0 as int) == self.size.0
                    * self.size.0 - 1 - self.ids@[k].0,
    {
        let cap = self.size.0 * self.size.0;
        let mut out: Vec<Index> = Vec::new();
        let mut k: usize = 0;
        while k < self.ids.len()
            invariant
                self.ok(),
                cap == self.size.0 * self.size.0,
                k <= self.ids@.len(),
                out@.len() == k,
                forall|j: int|
                    0 <= j < k ==> ((#[trigger] out@[j]).0 as int) == cap - 1 - self.ids@[j].0,
                forall|j: int| 0 <= j < k ==> ((#[trigger] out@[j]).0 as int) < cap,
            decreases self.ids@.len() - k,
        {
            proof {
                assert((self.ids@[k as int].0 as int) < cap);
            }
            out.push(Index(cap - 1 - self.ids[k].0));
            k = k + 1;
        }
        Iter { size: self.size, ids: out }
    }

    /// Chains a corner scan: each visit's counter is re-read as a step of a
    /// row-major scan that starts in the given corner.
    fn scan(self, o: Ordinal) -> (r: Iter)
        requires
            self.ok(),
        ensures
            r.ok(),
            r.size == self.size,
            r.ids@.len() == self.ids@.len(),
            forall|k: int|
                0 <= k < self.ids@.len() ==> ((#[trigger] r.ids@[k]).0 as int)
                    == o.spec_major_order_index::<RowMajor>(
                    self.ids@[k].0 as int,
                    self.size.0 as int,
                ),
    {
        let mut out: Vec<Index> = Vec::new();
        let mut k: usize = 0;
        while k < self.ids.len()
            invariant
                self.ok(),
                k <= self.ids@.len(),
                out@.len() == k,
                forall|j: int|
                    0 <= j < k ==> ((#[trigger] out@[j]).0 as int)
                        == o.spec_major_order_index::<RowMajor>(
                        self.ids@[j].0 as int,
                        self.size.0 as int,
                    ),
                forall|j: int|
                    0 <= j < k ==> ((#[trigger] out@[j]).0 as int) < self.size.0 * self.size.0,
            decreases self.ids@.len() - k,
        {
            let v = Visit(self.ids[k].0);
            let id = o.major_order_index::<RowMajor>(v, self.size, RowMajor);
            out.push(id);
            k = k + 1;
        }
        Iter { size: self.size, ids: out }
    }

    /// Chains the scan from the northwest corner.
    pub fn nw(self) -> (r: Iter)
        requires
            self.ok(),
        ensures
            r.ok(),
            r.size == self.size,
            r.ids@.len() == self.ids@.len(),
            forall|k: int|
                0 <= k < self.ids@.len() ==> ((#[trigger] r.ids@[k]).0 as int)
                    == Ordinal::Nw.spec_major_order_index::<RowMajor>(
                    self.ids@[k].0 as int,
                    self.size.0 as int,
                ),
    {
        self.scan(Ordinal::Nw)
    }

    /// Chains the scan from the northeast corner.
    pub fn ne(self) -> (r: Iter)
        requires
            self.ok(),
        ensures
            r.ok(),
            r.size == self.size,
            r.ids@.len() == self.ids@.len(),
            forall|k: int|
                0 <= k < self.ids@.len() ==> ((#[trigger] r.ids@[k]).0 as int)
                    == Ordinal::Ne.spec_major_order_index::<RowMajor>(
                    self.ids@[k].0 as int,
                    self.size.0 as int,
                ),
    {
        self.scan(Ordinal::Ne)
    }

    /// Chains the scan from the southeast corner.
    pub fn se(self) -> (r: Iter)
        requires
            self.ok(),
        ensures
            r.ok(),
            r.size == self.size,
            r.ids@.len() == self.ids@.len(),
            forall|k: int|
                0 <= k < self.ids@.len() ==> ((#[trigger] r.ids@[k]).0 as int)
                    == Ordinal::Se.spec_major_order_index::<RowMajor>(
                    self.ids@[k].0 as int,
                    self.size.0 as int,
                ),
    {
        self.scan(Ordinal::Se)
    }

    /// Chains the scan from the southwest corner.
    pub fn sw(self) -> (r: Iter)
        requires
            self.ok(),
        ensures
            r.ok(),
            r.size == self.size,
            r.ids@.len() == self.ids@.len(),
            forall|k: int|
                0 <= k < self.ids@.len() ==> ((#[trigger] r.ids@[k]).0 as int)
                    == Ordinal::Sw.spec_major_order_index::<RowMajor>(
                    self.ids@[k].0 as int,
                    self.size.0 as int,
                ),
    {
        self.scan(Ordinal::Sw)
    }
}



/// A uniformly random entry of a non-empty list of cell indices.
pub fn id_from_list<R: RandSource>(list: &Vec<Index>, rng: &mut R) -> (r: Index)
    requires
        list@.len() > 0,
    ensures
        exists|k: int| 0 <= k < list@.len() && list@[k] == r,
{
    let j = rng.below(list.len());
    let r = list[j];
    proof {
        assert(list@[j as int] == r);
    }
    r
}

impl SqGrid {
    /// The cell behind a uniformly random entry of a non-empty list of valid
    /// cell indices.
    pub fn cell_from_list<R: RandSource>(&self, list: &Vec<Index>, rng: &mut R) -> (r: &SqCell)
        requires
            self.wf(),
            list@.len() > 0,
            forall|k: int| 0 <= k < list@.len() ==> ((#[trigger] list@[k]).0 as int) < self.spec_cap(),
        ensures
            exists|k: int|
                0 <= k < list@.len() && *r == self.cells@[(#[trigger] list@[k]).0 as int],
    {
        let id = id_from_list(list, rng);
        proof {
            let k = choose|k: int| 0 <= k < list@.len() && list@[k] == id;
            assert(((list@[k]).0 as int) < self.spec_cap());
        }
        let c = self.lookup(id);
        proof {
            assert(*c == self.cells@[id.0 as int]);
            let k = choose|k: int| 0 <= k < list@.len() && list@[k] == id;
            assert(*c == self.cells@[(list@[k]).0 as int]);
        }
        c
    }
}

/// The southeast scan visits the storage order exactly backwards, so
/// composing it with the reversing transform restores the plain storage
/// order, and the other way round.
pub proof fn lemma_se_scan_reverses(s: int, v: int)
    requires
        s >= 1,
        0 <= v < s * s,
    ensures
        Ordinal::Se.spec_major_order_index::<RowMajor>(v, s) == s * s - 1 - v,
{
    crate::grid::lemma_cell_coords(s, v);
    assert((s - 1 - v / s) * s + (s - 1 - v % s) == s * s - 1 - v) by (nonlinear_arith)
        requires
            v == s * (v / s) + v % s,
    ;
}

impl SqGrid {
    /// The identity traversal: visits the cells in storage order.
    pub fn iter(&self) -> (r: Iter)
        requires
            self.wf(),
        ensures
            r.ok(),
            r.size == self.size,
            r.ids@.len() == self.spec_cap(),
            forall|k: int| 0 <= k < r.ids@.len() ==> ((#[trigger] r.ids@[k]).0 as int) == k,
    {
        let cap = self.size.0 * self.size.0;
        let mut ids: Vec<Index> = Vec::new();
        let mut k: usize = 0;
        while k < cap
            invariant
                k <= cap,
                ids@.len() == k,
                forall|j: int| 0 <= j < k ==> ((#[trigger] ids@[j]).0 as int) == j,
            decreases cap - k,
        {
            ids.push(Index(k));
            k = k + 1;
        }
        Iter { size: self.size, ids }
    }

    /// The reversed traversal: visits the cells in reverse storage order.
    pub fn reverse(&self) -> (r: Iter)
        requires
            self.wf(),
        ensures
            r.ok(),
            r.size == self.size,
            r.ids@.len() == self.spec_cap(),
            forall|k: int|
                0 <= k < r.ids@.len() ==> ((#[trigger] r.ids@[k]).0 as int) == self.spec_cap() - 1
                    - k,
    {
        self.iter().reverse()
    }

    /// The scan that starts in the northwest corner; on a square grid it
    /// coincides with the storage order.
    pub fn nw(&self) -> (r: Iter)
        requires
            self.wf(),
        ensures
            r.ok(),
            r.size == self.size,
            r.ids@.len() == self.spec_cap(),
            forall|k: int|
                0 <= k < r.ids@.len() ==> ((#[trigger] r.ids@[k]).0 as int)
                    == Ordinal::Nw.spec_major_order_index::<RowMajor>(k, self.spec_size()),
    {
        self.iter().nw()
    }

    /// The scan that starts in the northeast corner: rows in order, each row
    /// walked from east to west.
    pub fn ne(&self) -> (r: Iter)
        requires
            self.wf(),
        ensures
            r.ok(),
            r.size == self.size,
            r.ids@.len() == self.spec_cap(),
            forall|k: int|
                0 <= k < r.ids@.len() ==> ((#[trigger] r.ids@[k]).0 as int)
                    == Ordinal::Ne.spec_major_order_index::<RowMajor>(k, self.spec_size()),
    {
        self.iter().ne()
    }

    /// The scan that starts in the southeast corner: the storage order run
    /// fully backwards.
    pub fn se(&self) -> (r: Iter)
        requires
            self.wf(),
        ensures
            r.ok(),
            r.size == self.size,
            r.ids@.len() == self.spec_cap(),
            forall|k: int|
                0 <= k < r.ids@.len() ==> ((#[trigger] r.ids@[k]).0 as int)
                    == Ordinal::Se.spec_major_order_index::<RowMajor>(k, self.spec_size()),
    {
        self.iter().se()
    }

    /// The scan that starts in the southwest corner: rows from south to
    /// north, each row walked from west to east.
    pub fn sw(&self) -> (r: Iter)
        requires
            self.wf(),
        ensures
            r.ok(),
            r.size == self.size,
            r.ids@.len() == self.spec_cap(),
            forall|k: int|
                0 <= k < r.ids@.len() ==> ((#[trigger] r.ids@[k]).0 as int)
                    == Ordinal::Sw.spec_major_order_index::<RowMajor>(k, self.spec_size()),
    {
        self.iter().sw()
    }

    /// A random traversal: a Fisher-Yates-shuffled permutation of all the
    /// cell indices, visiting every cell exactly once.
    pub fn rand<R: RandSource>(&self, rng: &mut R) -> (r: Iter)
        requires
            self.wf(),
        ensures
            r.ok(),
            r.size == self.size,
            r.ids@.len() == self.spec_cap(),
            forall|k1: int, k2: int|
                0 <= k1 < k2 < r.ids@.len() ==> (#[trigger] r.ids@[k1]).0 != (
                #[trigger] r.ids@[k2]).0,
    {
        let base = self.iter();
        let mut ids = base.ids;
        let mut i: usize = ids.len();
        while i > 1
            invariant
                self.wf(),
                i <= ids@.len(),
                ids@.len() == self.spec_cap(),
                forall|k: int|
                    0 <= k < ids@.len() ==> ((#[trigger] ids@[k]).0 as int) < self.spec_cap(),
                forall|k1: int, k2: int|
                    0 <= k1 < k2 < ids@.len() ==> (#[trigger] ids@[k1]).0 != (
                    #[trigger] ids@[k2]).0,
            decreases i,
        {
            i = i - 1;
            let j = rng.below(i + 1);
            let ghost ids0 = ids@;
            let vi = ids[i];
            let vj = ids[j];
            ids.set(i, vj);
            ids.set(j, vi);
            proof {
                assert forall|k1: int, k2: int|
                    0 <= k1 < k2 < ids@.len() implies (#[trigger] ids@[k1]).0 != (
                    #[trigger] ids@[k2]).0 by {
                    let m1 = (if k1 == i {
                        j as int
                    } else if k1 == j {
                        i as int
                    } else {
                        k1
                    });
                    let m2 = (if k2 == i {
                        j as int
                    } else if k2 == j {
                        i as int
                    } else {
                        k2
                    });
                    assert(ids@[k1] == ids0[m1]);
                    assert(ids@[k2] == ids0[m2]);
                }
            }
        }
        Iter { size: self.size, ids }
    }
}

} // verus!
