//! A single grid cell: its own index, its fixed geometric neighbors, and the
//! mutable set of neighbors it is currently linked to.

use vstd::prelude::*;
use crate::index::Index;

verus! {

/// The plain numbers behind a sequence of indices, for use in contracts.
pub open spec fn idxs(s: Seq<Index>) -> Seq<int> {
    s.map_values(|t: Index| t.0 as int)
}

/// Membership in `idxs` is membership by value in the underlying sequence.
pub proof fn lemma_idxs_contains(s: Seq<Index>, b: int)
    ensures
        idxs(s).contains(b) <==> exists|k: int| 0 <= k < s.len() && (#[trigger] s[k]).0 == b,
{
    if idxs(s).contains(b) {
        let k = choose|k: int| 0 <= k < idxs(s).len() && idxs(s)[k] == b;
        assert(s[k].0 == b);
    }
    if exists|k: int| 0 <= k < s.len() && (#[trigger] s[k]).0 == b {
        let k = choose|k: int| 0 <= k < s.len() && (#[trigger] s[k]).0 == b;
        assert(idxs(s)[k] == b);
    }
}

/// Whether the vector holds an index with the given value.
pub fn contains_id(v: &Vec<Index>, x: Index) -> (r: bool)
    ensures
        r == idxs(v@).contains(x.0 as int),
{
    proof {
        lemma_idxs_contains(v@, x.0 as int);
    }
    let mut k: usize = 0;
    while k < v.len()
        invariant
            k <= v@.len(),
            forall|j: int| 0 <= j < k ==> (#[trigger] v@[j]).0 != x.0,
        decreases v@.len() - k,
    {
        if v[k].0 == x.0 {
            proof {
                lemma_idxs_contains(v@, x.0 as int);
            }
            return true;
        }
        k = k + 1;
    }
    false
}

/// The position of the first index with the given value, if any.
pub fn position_of(v: &Vec<Index>, x: Index) -> (r: Option<usize>)
    ensures
        r matches Some(p) ==> p < v@.len() && v@[p as int].0 == x.0 && (forall|j: int|
            0 <= j < p ==> (#[trigger] v@[j]).0 != x.0),
        r is None ==> forall|j: int| 0 <= j < v@.len() ==> (#[trigger] v@[j]).0 != x.0,
        (r is Some) == idxs(v@).contains(x.0 as int),
{
    proof {
        lemma_idxs_contains(v@, x.0 as int);
    }
    let mut k: usize = 0;
    while k < v.len()
        invariant
            k <= v@.len(),
            forall|j: int| 0 <= j < k ==> (#[trigger] v@[j]).0 != x.0,
        decreases v@.len() - k,
    {
        if v[k].0 == x.0 {
            proof {
                lemma_idxs_contains(v@, x.0 as int);
            }
            return Some(k);
        }
        k = k + 1;
    }
    None
}


/// An element-by-element copy of a vector of indices.
pub fn clone_ids(v: &Vec<Index>) -> (r: Vec<Index>)
    ensures
        r@ == v@,
{
    let mut r: Vec<Index> = Vec::new();
    let mut k: usize = 0;
    while k < v.len()
        invariant
            k <= v@.len(),
            r@ =~= v@.subrange(0, k as int),
        decreases v@.len() - k,
    {
        r.push(v[k]);
        k = k + 1;
    }
    proof {
        assert(r@ =~= v@);
    }
    r
}

/// Whether the list of indices holds the given cell id.
pub open spec fn holds_id(s: Seq<Index>, c: int) -> bool {
    exists|k: int| 0 <= k < s.len() && (#[trigger] s[k]).0 == c
}

/// Removing one entry of a duplicate-free list removes exactly its id.
pub proof fn lemma_holds_after_remove(s: Seq<Index>, p: int, c: int)
    requires
        0 <= p < s.len(),
        forall|k1: int, k2: int|
            0 <= k1 < k2 < s.len() ==> (#[trigger] s[k1]).0 != (#[trigger] s[k2]).0,
    ensures
        holds_id(s.remove(p), c) <==> (holds_id(s, c) && c != s[p].0 as int),
{
    let r = s.remove(p);
    if holds_id(r, c) {
        let k = choose|k: int| 0 <= k < r.len() && (#[trigger] r[k]).0 == c;
        if k < p {
            assert(s[k].0 == c);
        } else {
            assert(s[k + 1].0 == c);
        }
        assert(holds_id(s, c));
        assert(c != s[p].0 as int);
    }
    if holds_id(s, c) && c != s[p].0 as int {
        let k = choose|k: int| 0 <= k < s.len() && (#[trigger] s[k]).0 == c;
        assert(k != p);
        if k < p {
            assert(r[k].0 == c);
        } else {
            assert(r[k - 1].0 == c);
        }
        assert(holds_id(r, c));
    }
}


/// A cell of a square grid. `neighbors` is the geometric adjacency, fixed when
/// the grid is constructed; `links` is the set of neighbors the cell is
/// currently joined to by a carved passage, and is mutated only through the
/// grid's paired link and unlink operations.
#[derive(Debug)]
pub struct SqCell {
    pub id: Index,
    pub links: Vec<Index>,
    pub neighbors: Vec<Index>,
}

impl SqCell {
    /// A fresh cell with the given identity and neighbor list and no links.
    pub(crate) fn new(id: Index, neighbors: Vec<Index>) -> (r: Self)
        ensures
            r.id == id,
            r.neighbors == neighbors,
            r.links@.len() == 0,
    {
        Self { id, links: Vec::new(), neighbors }
    }

    /// The cell's own index.
    pub fn id(&self) -> (r: Index)
        ensures
            r == self.id,
    {
        self.id
    }

    /// The indices of the geometric neighbors, in north, east, south, west
    /// order, independent of the maze's link state.
    pub fn neighbor_ids(&self) -> (r: &Vec<Index>)
        ensures
            r == &self.neighbors,
    {
        &self.neighbors
    }

    /// The indices of the neighbors this cell is currently linked to.
    pub fn links(&self) -> (r: &Vec<Index>)
        ensures
            r == &self.links,
    {
        &self.links
    }

    /// Whether this cell is linked to the given cell.
    pub fn has_link(&self, link: Index) -> (r: bool)
        ensures
            r == idxs(self.links@).contains(link.0 as int),
    {
        contains_id(&self.links, link)
    }

    /// Whether the given cell is a geometric neighbor of this cell.
    pub fn has_neighbor(&self, neighbor: Index) -> (r: bool)
        ensures
            r == idxs(self.neighbors@).contains(neighbor.0 as int),
    {
        contains_id(&self.neighbors, neighbor)
    }

    /// Whether this cell is linked to at least one neighbor.
    pub fn is_linked(&self) -> (r: bool)
        ensures
            r == (self.links@.len() > 0),
    {
        self.links.len() > 0
    }

    /// Whether this cell is linked to no neighbor at all.
    pub fn not_linked(&self) -> (r: bool)
        ensures
            r == (self.links@.len() == 0),
    {
        self.links.len() == 0
    }
}

} // verus!
