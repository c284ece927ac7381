//! Breadth-first distance labeling: a flood fill from a root cell recording,
//! for every reachable cell, the least number of links on any walk from the
//! root.

use vstd::prelude::*;
use crate::cell::holds_id;
use crate::graph::{
    connected, has_dpath, lemma_connected_iff_dpath, lemma_dpath_decompose, lemma_dpath_refl,
    lemma_dpath_step, lemma_dpath_zero, min_dist,
};
use crate::grid::SqGrid;
use crate::index::Index;

verus! {

/// The number of filled entries below `n`.
pub open spec fn count_some(s: Seq<Option<usize>>, n: int) -> int
    decreases n,
{
    if n <= 0 {
        0
    } else {
        count_some(s, n - 1) + (if s[n - 1] is Some {
            1int
        } else {
            0int
        })
    }
}

/// There are never more filled entries than slots.
proof fn lemma_count_some_le(s: Seq<Option<usize>>, n: int)
    requires
        n >= 0,
    ensures
        count_some(s, n) <= n,
        count_some(s, n) >= 0,
    decreases n,
{
    if n > 0 {
        lemma_count_some_le(s, n - 1);
    }
}

/// Filling one empty slot raises the count below `n` by one when the slot
/// lies below `n`.
proof fn lemma_count_some_fill(s1: Seq<Option<usize>>, s2: Seq<Option<usize>>, i: int, n: int)
    requires
        0 <= i,
        forall|j: int| 0 <= j < n && j != i ==> s1[j] == s2[j],
        s1[i] is None,
        s2[i] is Some,
    ensures
        count_some(s2, n) == count_some(s1, n) + (if i < n {
            1int
        } else {
            0int
        }),
    decreases n,
{
    if n > 0 {
        lemma_count_some_fill(s1, s2, i, n - 1);
    }
}

/// A map with exactly one filled slot counts one entry below any bound
/// that covers it.
proof fn lemma_count_single(s: Seq<Option<usize>>, i: int, n: int)
    requires
        0 <= i,
        forall|j: int| 0 <= j < n && j != i ==> (#[trigger] s[j]) is None,
        s[i] is Some,
    ensures
        count_some(s, n) == (if i < n {
            1int
        } else {
            0int
        }),
    decreases n,
{
    if n > 0 {
        lemma_count_single(s, i, n - 1);
    }
}

/// A distance map: for each cell, the least number of links on any walk from
/// the root, or nothing if the cell is unreachable. Built once against a
/// snapshot of the grid's link state; it goes stale if links change
/// afterwards.
#[derive(Debug)]
pub struct Distances {
    pub root: Index,
    pub map: Vec<Option<usize>>,
}

impl Distances {
    /// Whether the map has recorded a distance for cell `c`.
    pub open spec fn has(&self, c: int) -> bool {
        0 <= c < self.map@.len() && self.map@[c] is Some
    }

    /// The recorded distance of cell `c`.
    pub open spec fn val(&self, c: int) -> int {
        self.map@[c].unwrap() as int
    }

    /// The map faithfully labels the grid: it has an entry exactly for each
    /// cell reachable from the root, and each entry is the true shortest
    /// walk length.
    pub open spec fn faithful(&self, g: SqGrid) -> bool {
        &&& self.map@.len() == g.spec_cap()
        &&& self.root.0 < g.spec_cap()
        &&& self.map@[self.root.0 as int] == Some(0usize)
        &&& forall|c: int| #[trigger]
            self.has(c) ==> min_dist(g, self.root.0 as int, c, self.val(c))
        &&& forall|c: int|
            0 <= c < g.spec_cap() ==> (#[trigger] self.has(c) <==> connected(
                g,
                self.root.0 as int,
                c,
            ))
    }

    /// A fresh map for the given grid: the root is at distance zero and no
    /// other cell is recorded yet.
    pub fn new(grid: &SqGrid, start: Index) -> (r: Distances)
        requires
            grid.wf(),
            start.0 < grid.spec_cap(),
        ensures
            r.root == start,
            r.map@.len() == grid.spec_cap(),
            r.map@[start.0 as int] == Some(0usize),
            forall|c: int|
                0 <= c < grid.spec_cap() && c != start.0 as int ==> (#[trigger] r.map@[c]) is None,
    {
        let cap = grid.size.0 * grid.size.0;
        let mut map: Vec<Option<usize>> = Vec::new();
        let mut i: usize = 0;
        while i < cap
            invariant
                i <= cap,
                map@.len() == i,
                forall|c: int| 0 <= c < i ==> (#[trigger] map@[c]) is None,
            decreases cap - i,
        {
            map.push(None);
            i = i + 1;
        }
        map.set(start.0, Some(0usize));
        Distances { root: start, map }
    }

    /// The root cell this map was filled from.
    pub fn root(&self) -> (r: Index)
        ensures
            r == self.root,
    {
        self.root
    }

    /// Whether the map has recorded a distance for the given cell.
    pub fn has_entry(&self, id: &Index) -> (r: bool)
        ensures
            r == self.has(id.0 as int),
    {
        if id.0 < self.map.len() {
            self.map[id.0].is_some()
        } else {
            false
        }
    }

    /// The recorded distance of the given cell, if any.
    pub fn get(&self, id: Index) -> (r: Option<usize>)
        ensures
            id.0 < self.map@.len() ==> r == self.map@[id.0 as int],
            id.0 >= self.map@.len() ==> r is None,
    {
        if id.0 < self.map.len() {
            self.map[id.0]
        } else {
            None
        }
    }

    /// Records a distance for a valid cell that has none yet; an existing
    /// entry is kept unchanged, so a recorded distance is immutable.
    pub fn set(&mut self, id: Index, val: usize)
        requires
            id.0 < old(self).map@.len(),
        ensures
            final(self).root == old(self).root,
            final(self).map@.len() == old(self).map@.len(),
            old(self).map@[id.0 as int] is None ==> final(self).map@ == old(self).map@.update(
                id.0 as int,
                Some(val),
            ),
            old(self).map@[id.0 as int] is Some ==> *final(self) == *old(self),
    {
        if self.map[id.0].is_none() {
            self.map.set(id.0, Some(val));
        }
    }

    /// The raw entries, indexed by cell.
    pub fn map_ref(&self) -> (r: &Vec<Option<usize>>)
        ensures
            r == &self.map,
    {
        &self.map
    }

    /// The farthest recorded cell and its distance; among equally distant
    /// cells, the one with the least index. The map always holds at least
    /// its root.
    pub fn max_dist(&self) -> (r: (Index, usize))
        requires
            self.root.0 < self.map@.len(),
            self.map@[self.root.0 as int] is Some,
        ensures
            self.has(r.0.0 as int),
            self.val(r.0.0 as int) == r.1,
            forall|c: int| #[trigger] self.has(c) ==> self.val(c) <= r.1,
            forall|c: int| 0 <= c < r.0.0 as int && #[trigger] self.has(c) ==> self.val(c) < r.1,
    {
        let mut found: bool = false;
        let mut best_id: Index = Index(0);
        let mut best: usize = 0;
        let mut c: usize = 0;
        while c < self.map.len()
            invariant
                c <= self.map@.len(),
                self.root.0 < self.map@.len(),
                self.map@[self.root.0 as int] is Some,
                !found ==> forall|x: int| 0 <= x < c ==> !(#[trigger] self.has(x)),
                found ==> self.has(best_id.0 as int) && self.val(best_id.0 as int) == best
                    && best_id.0 < c,
                found ==> forall|x: int|
                    0 <= x < c && #[trigger] self.has(x) ==> self.val(x) <= best,
                found ==> forall|x: int|
                    0 <= x < best_id.0 && #[trigger] self.has(x) ==> self.val(x) < best,
            decreases self.map@.len() - c,
        {
            match self.map[c] {
                Some(v) => {
                    if !found || v > best {
                        best = v;
                        best_id = Index(c);
                        found = true;
                    }
                },
                None => {},
            }
            c = c + 1;
        }
        proof {
            assert(self.has(self.root.0 as int));
            assert(found);
        }
        (best_id, best)
    }
}

impl SqGrid {
    /// Enters every so-far-unrecorded linked neighbor of `c` into the map at
    /// distance `k + 1` and onto the next frontier.
    fn bfs_expand(
        &self,
        d: &mut Distances,
        c: Index,
        nf: &mut Vec<Index>,
        Ghost(r): Ghost<int>,
        Ghost(k): Ghost<int>,
    )
        requires
            self.wf(),
            old(d).map@.len() == self.spec_cap(),
            c.0 < self.spec_cap(),
            old(d).has(c.0 as int),
            old(d).val(c.0 as int) == k,
            0 <= k,
            k + 1 <= usize::MAX,
            0 <= r < self.spec_cap(),
            old(d).map@[r] == Some(0usize),
            forall|x: int| #[trigger]
                old(d).has(x) ==> min_dist(*self, r, x, old(d).val(x)) && old(d).val(x) <= k + 1,
            forall|x: int, m: int|
                0 <= m <= k && #[trigger] has_dpath(*self, r, x, m) ==> old(d).has(x),
            forall|j: int|
                0 <= j < old(nf)@.len() ==> (#[trigger] old(nf)@[j]).0 < self.spec_cap() && old(
                    d,
                ).has(old(nf)@[j].0 as int) && old(d).val(old(nf)@[j].0 as int) == k + 1,
            forall|x: int| #[trigger]
                old(d).has(x) && old(d).val(x) == k + 1 ==> holds_id(old(nf)@, x),
        ensures
            final(d).root == old(d).root,
            final(d).map@.len() == old(d).map@.len(),
            final(d).map@[r] == Some(0usize),
            forall|x: int| #[trigger]
                old(d).has(x) ==> final(d).has(x) && final(d).val(x) == old(d).val(x),
            forall|x: int| #[trigger]
                final(d).has(x) ==> min_dist(*self, r, x, final(d).val(x)) && final(d).val(x) <= k
                    + 1,
            forall|x: int| #[trigger]
                final(d).has(x) && !old(d).has(x) ==> final(d).val(x) == k + 1,
            forall|b: int| #[trigger] self.has_lnk(c.0 as int, b) ==> final(d).has(b),
            forall|j: int|
                0 <= j < final(nf)@.len() ==> (#[trigger] final(nf)@[j]).0 < self.spec_cap()
                    && final(d).has(final(nf)@[j].0 as int) && final(d).val(
                    final(nf)@[j].0 as int,
                ) == k + 1,
            forall|x: int| #[trigger]
                final(d).has(x) && final(d).val(x) == k + 1 ==> holds_id(final(nf)@, x),
            count_some(final(d).map@, self.spec_cap()) - count_some(
                old(d).map@,
                self.spec_cap(),
            ) == final(nf)@.len() - old(nf)@.len(),
            final(nf)@.len() >= old(nf)@.len(),
    {
        let links = &self.cells[c.0].links;
        let cv = match self.map_value(d, c) {
            Some(v) => v,
            None => 0,
        };
        let mut li: usize = 0;
        while li < links.len()
            invariant
                self.wf(),
                c.0 < self.spec_cap(),
                links == &self.cells@[c.0 as int].links,
                cv == k,
                0 <= k,
                k + 1 <= usize::MAX,
                0 <= r < self.spec_cap(),
                li <= links@.len(),
                d.root == old(d).root,
                d.map@.len() == self.spec_cap(),
                d.map@[r] == Some(0usize),
                forall|x: int| #[trigger]
                    old(d).has(x) ==> d.has(x) && d.val(x) == old(d).val(x),
                forall|x: int| #[trigger]
                    d.has(x) ==> min_dist(*self, r, x, d.val(x)) && d.val(x) <= k + 1,
                forall|x: int, m: int|
                    0 <= m <= k && #[trigger] has_dpath(*self, r, x, m) ==> old(d).has(x),
                forall|x: int| #[trigger] d.has(x) && !old(d).has(x) ==> d.val(x) == k + 1,
                forall|j: int|
                    0 <= j < li ==> d.has(idxs_at(links@, j)),
                forall|j: int|
                    0 <= j < nf@.len() ==> (#[trigger] nf@[j]).0 < self.spec_cap() && d.has(
                        nf@[j].0 as int,
                    ) && d.val(nf@[j].0 as int) == k + 1,
                forall|x: int| #[trigger] d.has(x) && d.val(x) == k + 1 ==> holds_id(nf@, x),
                count_some(d.map@, self.spec_cap()) - count_some(old(d).map@, self.spec_cap())
                    == nf@.len() - old(nf)@.len(),
                nf@.len() >= old(nf)@.len(),
                d.has(c.0 as int),
                d.val(c.0 as int) == k,
            decreases links@.len() - li,
        {
            let b = links[li];
            let ghost bi = b.0 as int;
            proof {
                assert(self.lnks(c.0 as int)[li as int] == bi);
                assert(self.lnks(c.0 as int).contains(bi));
                assert(self.has_lnk(c.0 as int, bi));
                self.lemma_lnk_valid(c.0 as int, bi);
            }
            if !d.has_entry(&b) {
                let ghost d0 = *d;
                let ghost nf0 = nf@;
                d.set(b, cv + 1);
                nf.push(b);
                proof {
                    assert(d.map@ == d0.map@.update(bi, Some((cv + 1) as usize)));
                    lemma_count_some_fill(d0.map@, d.map@, bi, self.spec_cap());
                    // the new entry records the true shortest distance
                    assert(min_dist(*self, r, c.0 as int, k));
                    lemma_dpath_step(*self, r, c.0 as int, bi, k);
                    assert forall|m: int| 0 <= m < k + 1 implies !has_dpath(
                        *self,
                        r,
                        bi,
                        m,
                    ) by {
                        if has_dpath(*self, r, bi, m) {
                            assert(old(d).has(bi));
                        }
                    }
                    assert(min_dist(*self, r, bi, k + 1));
                    assert forall|x: int| #[trigger]
                        d.has(x) implies min_dist(*self, r, x, d.val(x)) && d.val(x) <= k
                        + 1 by {
                        if x != bi {
                            assert(d.map@[x] == d0.map@[x]);
                            assert(d0.has(x));
                        } else {
                            assert(d.val(bi) == k + 1);
                        }
                    }
                    assert forall|x: int| #[trigger]
                        d.has(x) && !old(d).has(x) implies d.val(x) == k + 1 by {
                        if x != bi {
                            assert(d.map@[x] == d0.map@[x]);
                        }
                    }
                    assert forall|x: int| #[trigger]
                        d.has(x) && d.val(x) == k + 1 implies holds_id(nf@, x) by {
                        if x == bi {
                            assert(nf@[nf@.len() - 1].0 == x);
                        } else {
                            assert(d0.has(x));
                            assert(holds_id(nf0, x));
                            let q = choose|q: int|
                                0 <= q < nf0.len() && (#[trigger] nf0[q]).0 == x;
                            assert(nf@[q].0 == x);
                        }
                    }
                }
            }
            li = li + 1;
        }
        proof {
            assert forall|b2: int| #[trigger]
                self.has_lnk(c.0 as int, b2) implies d.has(b2) by {
                let q = choose|q: int|
                    0 <= q < self.lnks(c.0 as int).len() && self.lnks(c.0 as int)[q] == b2;
                assert(d.has(idxs_at(links@, q)));
            }
        }
    }

    /// The recorded distance of a cell, straight from the map.
    fn map_value(&self, d: &Distances, c: Index) -> (r: Option<usize>)
        requires
            c.0 < d.map@.len(),
        ensures
            r == d.map@[c.0 as int],
    {
        d.map[c.0]
    }
}

/// The id stored at one position of an index list, in contracts.
pub open spec fn idxs_at(s: Seq<Index>, j: int) -> int {
    s[j].0 as int
}

/// With the flood fill finished, any walk from the root ends at a recorded
/// cell.
proof fn lemma_bfs_complete(g: SqGrid, d: Distances, r: int, c: int, m: int)
    requires
        0 <= r < d.map@.len(),
        d.map@[r] is Some,
        forall|x: int| #[trigger]
            d.has(x) ==> forall|b: int| #[trigger] g.has_lnk(x, b) ==> d.has(b),
        g.wf(),
        m >= 0,
        has_dpath(g, r, c, m),
    ensures
        d.has(c),
    decreases m,
{
    if m == 0 {
        lemma_dpath_zero(g, r, c);
        assert(d.has(r));
    } else {
        lemma_dpath_decompose(g, r, c, m);
        let b2 = choose|b2: int| #[trigger] g.has_lnk(b2, c) && has_dpath(g, r, b2, m - 1);
        lemma_bfs_complete(g, d, r, b2, m - 1);
        assert(g.has_lnk(b2, c));
        assert(d.has(c));
    }
}

impl SqGrid {
    /// Flood fill: labels every cell reachable from `start` with the least
    /// number of links on any walk from it, by expanding a frontier one
    /// level at a time.
    pub fn distances(&self, start: Index) -> (d: Distances)
        requires
            self.wf(),
            start.0 < self.spec_cap(),
        ensures
            d.root == start,
            d.faithful(*self),
    {
        let ghost r = start.0 as int;
        let mut d = Distances::new(self, start);
        let mut frontier: Vec<Index> = Vec::new();
        frontier.push(start);
        let ghost mut k: int = 0;
        proof {
            lemma_dpath_refl(*self, r);
            assert forall|x: int, m: int|
                0 <= m <= 0 && #[trigger] has_dpath(*self, r, x, m) implies d.has(x) by {
                lemma_dpath_zero(*self, r, x);
            }
            assert forall|x: int| #[trigger] d.has(x) implies min_dist(*self, r, x, d.val(x))
                && d.val(x) <= 0 by {
                assert(x == r);
            }
            lemma_count_some_le(d.map@, self.spec_cap());
            lemma_count_single(d.map@, r, self.spec_cap());
            assert(frontier@[0] == start);
            assert(d.val(r) == 0);
            assert forall|x: int| #[trigger]
                d.has(x) && d.val(x) == 0 implies holds_id(frontier@, x) by {
                assert(x == r);
                assert(frontier@[0].0 == x);
            }
        }
        while frontier.len() > 0
            invariant
                self.wf(),
                start.0 < self.spec_cap(),
                r == start.0 as int,
                d.root == start,
                d.map@.len() == self.spec_cap(),
                d.map@[r] == Some(0usize),
                0 <= k,
                frontier@.len() > 0 ==> k + 1 <= count_some(d.map@, self.spec_cap()),
                forall|x: int| #[trigger]
                    d.has(x) ==> min_dist(*self, r, x, d.val(x)) && d.val(x) <= k,
                forall|x: int, m: int|
                    0 <= m <= k && #[trigger] has_dpath(*self, r, x, m) ==> d.has(x),
                forall|j: int|
                    0 <= j < frontier@.len() ==> (#[trigger] frontier@[j]).0 < self.spec_cap()
                        && d.has(frontier@[j].0 as int) && d.val(frontier@[j].0 as int) == k,
                forall|x: int| #[trigger]
                    d.has(x) && d.val(x) == k ==> holds_id(frontier@, x),
                forall|x: int| #[trigger]
                    d.has(x) && d.val(x) < k ==> (forall|b: int| #[trigger]
                        self.has_lnk(x, b) ==> d.has(b)),
            decreases self.spec_cap() - count_some(d.map@, self.spec_cap()), frontier@.len(),
        {
            let ghost d_level = d;
            let ghost count0 = count_some(d.map@, self.spec_cap());
            let mut new_frontier: Vec<Index> = Vec::new();
            let mut fi: usize = 0;
            let ghost frontier_level = frontier@;
            proof {
                lemma_count_some_le(d.map@, self.spec_cap());
                assert(k + 1 <= count0);
                assert(count0 <= self.spec_cap());
                assert(k + 1 <= usize::MAX);
            }
            while fi < frontier.len()
                invariant
                    self.wf(),
                    0 <= r < self.spec_cap(),
                    fi <= frontier@.len(),
                    0 <= k,
                    k + 1 <= usize::MAX,
                    d.root == d_level.root,
                    d.map@.len() == self.spec_cap(),
                    d.map@[r] == Some(0usize),
                    forall|x: int| #[trigger]
                        d_level.has(x) ==> d.has(x) && d.val(x) == d_level.val(x),
                    forall|x: int| #[trigger]
                        d.has(x) ==> min_dist(*self, r, x, d.val(x)) && d.val(x) <= k + 1,
                    forall|x: int, m: int|
                        0 <= m <= k && #[trigger] has_dpath(*self, r, x, m) ==> d_level.has(x),
                    forall|x: int| #[trigger]
                        d.has(x) && !d_level.has(x) ==> d.val(x) == k + 1,
                    forall|j: int|
                        0 <= j < frontier@.len() ==> (#[trigger] frontier@[j]).0
                            < self.spec_cap() && d_level.has(frontier@[j].0 as int)
                            && d_level.val(frontier@[j].0 as int) == k,
                    forall|j: int|
                        0 <= j < fi ==> (forall|b: int| #[trigger]
                            self.has_lnk((#[trigger] frontier@[j]).0 as int, b) ==> d.has(b)),
                    forall|j: int|
                        0 <= j < new_frontier@.len() ==> (#[trigger] new_frontier@[j]).0
                            < self.spec_cap() && d.has(new_frontier@[j].0 as int) && d.val(
                            new_frontier@[j].0 as int,
                        ) == k + 1,
                    forall|x: int| #[trigger]
                        d.has(x) && d.val(x) == k + 1 ==> holds_id(new_frontier@, x),
                    count_some(d.map@, self.spec_cap()) - count0 == new_frontier@.len(),
                    count0 == count_some(d_level.map@, self.spec_cap()),
                    forall|x: int| #[trigger]
                        d.has(x) && d.val(x) < k ==> (forall|b: int| #[trigger]
                            self.has_lnk(x, b) ==> d.has(b)),
                decreases frontier@.len() - fi,
            {
                let cfr = frontier[fi];
                proof {
                    assert(d_level.has(cfr.0 as int) && d_level.val(cfr.0 as int) == k);
                    assert(d.has(cfr.0 as int) && d.val(cfr.0 as int) == k);
                }
                self.bfs_expand(&mut d, cfr, &mut new_frontier, Ghost(r), Ghost(k));
                fi = fi + 1;
            }
            proof {
                // the next level is one step farther out
                assert forall|x: int, m: int|
                    0 <= m <= k + 1 && #[trigger] has_dpath(*self, r, x, m) implies d.has(
                    x,
                ) by {
                    if m <= k {
                        assert(d_level.has(x));
                    } else {
                        lemma_dpath_decompose(*self, r, x, m);
                        let b2 = choose|b2: int| #[trigger]
                            self.has_lnk(b2, x) && has_dpath(*self, r, b2, m - 1);
                        assert(d_level.has(b2));
                        assert(d.has(b2) && d.val(b2) == d_level.val(b2));
                        if d.val(b2) < k {
                            assert(d.has(x));
                        } else {
                            assert(d.val(b2) == k);
                            assert(holds_id(frontier@, b2) || d_level.val(b2) == k);
                            let q = choose|q: int|
                                0 <= q < frontier@.len() && (#[trigger] frontier@[q]).0 == b2;
                            assert(d.has(x));
                        }
                    }
                }
                assert forall|x: int| #[trigger]
                    d.has(x) && d.val(x) < k + 1 implies (forall|b: int| #[trigger]
                    self.has_lnk(x, b) ==> d.has(b)) by {
                    if d.val(x) == k {
                        assert(d_level.has(x) || d.val(x) == k + 1);
                        assert(d_level.val(x) == k);
                        assert(holds_id(frontier@, x));
                        let q = choose|q: int|
                            0 <= q < frontier@.len() && (#[trigger] frontier@[q]).0 == x;
                        assert(forall|b: int| #[trigger] self.has_lnk(x, b) ==> d.has(b));
                    }
                }
            }
            frontier = new_frontier;
            proof {
                if frontier@.len() > 0 {
                    assert(count_some(d.map@, self.spec_cap()) == count0 + frontier@.len());
                }
                k = k + 1;
                lemma_count_some_le(d.map@, self.spec_cap());
            }
        }
        proof {
            // every recorded cell has been fully expanded
            assert forall|x: int| #[trigger]
                d.has(x) implies (forall|b: int| #[trigger] self.has_lnk(x, b) ==> d.has(
                b,
            )) by {
                if d.val(x) == k {
                    assert(holds_id(frontier@, x));
                    let q = choose|q: int|
                        0 <= q < frontier@.len() && (#[trigger] frontier@[q]).0 == x;
                    assert(false);
                }
                assert(d.val(x) < k);
            }
            assert forall|c: int|
                0 <= c < self.spec_cap() implies (#[trigger] d.has(c) <==> connected(
                *self,
                r,
                c,
            )) by {
                lemma_connected_iff_dpath(*self, r, c);
                if d.has(c) {
                    assert(min_dist(*self, r, c, d.val(c)));
                    assert(has_dpath(*self, r, c, d.val(c)));
                }
                if connected(*self, r, c) {
                    let n = choose|n: int| 0 <= n && #[trigger] has_dpath(*self, r, c, n);
                    lemma_bfs_complete(*self, d, r, c, n);
                }
            }
            assert(d.faithful(*self));
        }
        d
    }
}

} // verus!
