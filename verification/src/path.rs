//! Paths through the maze: ordered lists of cell indices in which every
//! consecutive pair is linked, with shortest-path reconstruction by
//! steepest-descent backtracking and a two-pass longest-path search.

use vstd::prelude::*;
use crate::cardinal::Cardinal;
use crate::cell::{idxs, position_of};
use crate::dist::Distances;
use crate::graph::{
    connected, has_dpath, is_link_path, lemma_dpath_decompose, lemma_dpath_step, min_dist,
};
use crate::grid::{spec_calc_dir, spec_first_boundary, SqGrid};
use crate::index::Index;

verus! {

/// An ordered walk from a start cell to an end cell; consecutive entries are
/// always linked neighbors of each other.
#[derive(Debug)]
pub struct Path {
    pub path: Vec<Index>,
}

impl Path {
    /// Wraps a list of cell indices as a path.
    pub fn new(path: Vec<Index>) -> (r: Path)
        ensures
            r.path == path,
    {
        Path { path }
    }

    /// The start of the path.
    pub fn first(&self) -> (r: Index)
        requires
            self.path@.len() >= 1,
        ensures
            r == self.path@[0],
    {
        self.path[0]
    }

    /// The end of the path.
    pub fn last(&self) -> (r: Index)
        requires
            self.path@.len() >= 1,
        ensures
            r == self.path@[self.path@.len() - 1],
    {
        self.path[self.path.len() - 1]
    }

    /// The cell at the given step, if the path is that long.
    pub fn get(&self, step: usize) -> (r: Option<Index>)
        ensures
            step < self.path@.len() ==> r == Some(self.path@[step as int]),
            step >= self.path@.len() ==> r is None,
    {
        if step < self.path.len() {
            Some(self.path[step])
        } else {
            None
        }
    }

    /// The underlying list of cells.
    pub fn get_ref(&self) -> (r: &Vec<Index>)
        ensures
            r == &self.path,
    {
        &self.path
    }

    /// The step at which the given cell first appears, if it does.
    pub fn position(&self, id: Index) -> (r: Option<usize>)
        ensures
            r matches Some(p) ==> p < self.path@.len() && self.path@[p as int].0 == id.0 && (
            forall|j: int| 0 <= j < p ==> (#[trigger] self.path@[j]).0 != id.0),
            r is None ==> forall|j: int|
                0 <= j < self.path@.len() ==> (#[trigger] self.path@[j]).0 != id.0,
    {
        position_of(&self.path, id)
    }

    /// The number of steps on the path.
    pub fn len(&self) -> (r: usize)
        ensures
            r == self.path@.len(),
    {
        self.path.len()
    }

    /// Whether the path holds no cells at all.
    pub fn is_empty(&self) -> (r: bool)
        ensures
            r == (self.path@.len() == 0),
    {
        self.path.len() == 0
    }

    /// The cell visited just before the given cell's first appearance, if
    /// the cell appears and is not the start.
    pub fn prev(&self, id: Index) -> (r: Option<Index>)
        ensures
            r matches Some(x) ==> exists|p: int|
                1 <= p < self.path@.len() && (#[trigger] self.path@[p]).0 == id.0 && (forall|
                    j: int,
                |
                    0 <= j < p ==> (#[trigger] self.path@[j]).0 != id.0) && x == self.path@[p - 1],
            r is None ==> (forall|j: int|
                0 <= j < self.path@.len() ==> (#[trigger] self.path@[j]).0 != id.0) || (
            self.path@.len() >= 1 && self.path@[0].0 == id.0),
    {
        match self.position(id) {
            Some(p) => {
                if p == 0 {
                    None
                } else {
                    proof {
                        assert(self.path@[p as int].0 == id.0);
                    }
                    Some(self.path[p - 1])
                }
            },
            None => None,
        }
    }

    /// The cell visited just after the given cell's first appearance, if the
    /// cell appears and is not the end.
    pub fn next(&self, id: Index) -> (r: Option<Index>)
        ensures
            r matches Some(x) ==> exists|p: int|
                0 <= p < self.path@.len() - 1 && (#[trigger] self.path@[p]).0 == id.0 && (forall|
                    j: int,
                |
                    0 <= j < p ==> (#[trigger] self.path@[j]).0 != id.0) && x == self.path@[p + 1],
            r is None ==> (forall|j: int|
                0 <= j < self.path@.len() ==> (#[trigger] self.path@[j]).0 != id.0) || (
            self.path@.len() >= 1 && self.path@[self.path@.len() - 1].0 == id.0 && forall|j: int|
                0 <= j < self.path@.len() - 1 ==> (#[trigger] self.path@[j]).0 != id.0),
    {
        match self.position(id) {
            Some(p) => {
                if p == self.path.len() - 1 {
                    None
                } else {
                    proof {
                        assert(self.path@[p as int].0 == id.0);
                    }
                    Some(self.path[p + 1])
                }
            },
            None => None,
        }
    }

    /// Turns the path around in place: afterwards it runs from the old end
    /// to the old start.
    pub fn reverse(&mut self)
        ensures
            final(self).path@.len() == old(self).path@.len(),
            forall|i: int|
                0 <= i < old(self).path@.len() ==> final(self).path@[i] == old(self).path@[old(
                    self,
                ).path@.len() - 1 - i],
    {
        let ghost p0 = self.path@;
        let n = self.path.len();
        let mut rev: Vec<Index> = Vec::new();
        let mut i: usize = n;
        while i > 0
            invariant
                i <= n,
                n == p0.len(),
                self.path@ == p0,
                rev@.len() == n - i,
                forall|k: int| 0 <= k < rev@.len() ==> rev@[k] == p0[n - 1 - k],
            decreases i,
        {
            i = i - 1;
            rev.push(self.path[i]);
        }
        self.path = rev;
    }

    /// The direction from the given cell back to the cell before it on the
    /// path, or the cell's first boundary side when there is no usable
    /// predecessor; used to draw entry arrows.
    pub fn prev_dir(&self, grid: &SqGrid, id: Index) -> (r: Option<Cardinal>)
        requires
            grid.wf(),
            id.0 < grid.spec_cap(),
        ensures
            ({
                let s = grid.spec_size();
                let pv = self.path@;
                if exists|p: int|
                    1 <= p < pv.len() && (#[trigger] pv[p]).0 == id.0 && (forall|j: int|
                        0 <= j < p ==> (#[trigger] pv[j]).0 != id.0) {
                    let p = choose|p: int|
                        1 <= p < pv.len() && (#[trigger] pv[p]).0 == id.0 && (forall|j: int|
                            0 <= j < p ==> (#[trigger] pv[j]).0 != id.0);
                    if exists|d: Cardinal|
                        spec_calc_dir(s, id.0 as int, d) == Some(pv[p - 1].0 as int) {
                        r is Some && spec_calc_dir(s, id.0 as int, r.unwrap()) == Some(
                            pv[p - 1].0 as int,
                        )
                    } else {
                        r == spec_first_boundary(s, id.0 as int)
                    }
                } else {
                    r == spec_first_boundary(s, id.0 as int)
                }
            }),
    {
        match self.prev(id) {
            Some(a) => {
                match grid.dir_from(id, a) {
                    Some(d) => Some(d),
                    None => grid.find_boundary(id),
                }
            },
            None => grid.find_boundary(id),
        }
    }

    /// The direction from the given cell onward to the cell after it on the
    /// path, or the cell's first boundary side when there is no usable
    /// successor; used to draw exit arrows.
    pub fn next_dir(&self, grid: &SqGrid, id: Index) -> (r: Option<Cardinal>)
        requires
            grid.wf(),
            id.0 < grid.spec_cap(),
        ensures
            ({
                let s = grid.spec_size();
                let pv = self.path@;
                if exists|p: int|
                    0 <= p < pv.len() - 1 && (#[trigger] pv[p]).0 == id.0 && (forall|j: int|
                        0 <= j < p ==> (#[trigger] pv[j]).0 != id.0) {
                    let p = choose|p: int|
                        0 <= p < pv.len() - 1 && (#[trigger] pv[p]).0 == id.0 && (forall|j: int|
                            0 <= j < p ==> (#[trigger] pv[j]).0 != id.0);
                    if exists|d: Cardinal|
                        spec_calc_dir(s, id.0 as int, d) == Some(pv[p + 1].0 as int) {
                        r is Some && spec_calc_dir(s, id.0 as int, r.unwrap()) == Some(
                            pv[p + 1].0 as int,
                        )
                    } else {
                        r == spec_first_boundary(s, id.0 as int)
                    }
                } else {
                    r == spec_first_boundary(s, id.0 as int)
                }
            }),
    {
        match self.next(id) {
            Some(a) => {
                match grid.dir_from(id, a) {
                    Some(d) => Some(d),
                    None => grid.find_boundary(id),
                }
            },
            None => grid.find_boundary(id),
        }
    }
}

impl SqGrid {
    /// One step down the distance gradient: a linked neighbor whose recorded
    /// distance is exactly one less.
    fn descend_step(&self, d: &Distances, cur: Index) -> (b: Index)
        requires
            self.wf(),
            d.faithful(*self),
            cur.0 < self.spec_cap(),
            d.has(cur.0 as int),
            d.val(cur.0 as int) >= 1,
        ensures
            self.has_lnk(cur.0 as int, b.0 as int),
            b.0 < self.spec_cap(),
            d.has(b.0 as int),
            d.val(b.0 as int) == d.val(cur.0 as int) - 1,
    {
        let ghost r = d.root.0 as int;
        let ghost ci = cur.0 as int;
        let ghost v = d.val(ci);
        let cv = match d.get(cur) {
            Some(x) => x,
            None => 0,
        };
        proof {
            assert(cv == v);
            assert(min_dist(*self, r, ci, v));
            lemma_dpath_decompose(*self, r, ci, v);
            let b2 = choose|b2: int| #[trigger] self.has_lnk(b2, ci) && has_dpath(*self, r, b2, v - 1);
            self.lemma_lnk_valid(b2, ci);
            crate::graph::lemma_connected_iff_dpath(*self, r, b2);
            assert(connected(*self, r, b2));
            assert(d.has(b2));
            assert(d.val(b2) <= v - 1) by {
                assert(min_dist(*self, r, b2, d.val(b2)));
                if d.val(b2) > v - 1 {
                    assert(has_dpath(*self, r, b2, v - 1));
                }
            }
            assert(self.has_lnk(ci, b2));
            assert(self.lnks(ci).contains(b2));
            let q = choose|q: int| 0 <= q < self.lnks(ci).len() && self.lnks(ci)[q] == b2;
            assert(self.cells@[ci].links@[q].0 == b2);
            assert(exists|q2: int|
                0 <= q2 < self.cells@[ci].links@.len() && d.has(
                    (#[trigger] self.cells@[ci].links@[q2]).0 as int,
                ) && d.val(self.cells@[ci].links@[q2].0 as int) < v);
        }
        let links = &self.cells[cur.0].links;
        let mut li: usize = 0;
        while li < links.len()
            invariant
                self.wf(),
                d.faithful(*self),
                cur.0 < self.spec_cap(),
                ci == cur.0 as int,
                r == d.root.0 as int,
                d.has(ci),
                v == d.val(ci),
                cv == v,
                v >= 1,
                links == &self.cells@[ci].links,
                li <= links@.len(),
                exists|q2: int|
                    li <= q2 < links@.len() && d.has((#[trigger] links@[q2]).0 as int) && d.val(
                        links@[q2].0 as int,
                    ) < v,
            decreases links@.len() - li,
        {
            let b = links[li];
            let ghost bi = b.0 as int;
            proof {
                assert(self.lnks(ci)[li as int] == bi);
                assert(self.lnks(ci).contains(bi));
                assert(self.has_lnk(ci, bi));
                self.lemma_lnk_valid(ci, bi);
            }
            match d.get(b) {
                Some(bv) => {
                    if bv < cv {
                        proof {
                            // a strictly closer linked neighbor is exactly one
                            // step closer
                            assert(d.has(bi));
                            assert(d.val(bi) == bv as int);
                            assert(min_dist(*self, r, bi, bv as int));
                            assert(has_dpath(*self, r, bi, bv as int));
                            lemma_dpath_step(*self, r, bi, ci, bv as int);
                            assert(min_dist(*self, r, ci, v));
                            assert(bv + 1 >= v);
                        }
                        return b;
                    }
                },
                None => {},
            }
            li = li + 1;
            proof {
                let q2 = choose|q2: int|
                    li - 1 <= q2 < links@.len() && d.has((#[trigger] links@[q2]).0 as int)
                        && d.val(links@[q2].0 as int) < v;
                assert(q2 >= li);
            }
        }
        proof {
            assert(false);
        }
        cur
    }
}

impl Distances {
    /// The shortest walk from this map's root to the given recorded cell, by
    /// walking down the distance gradient from the end and turning the
    /// result around.
    pub fn shortest_path(&self, grid: &SqGrid, end: Index) -> (r: Path)
        requires
            grid.wf(),
            self.faithful(*grid),
            end.0 < grid.spec_cap(),
            self.has(end.0 as int),
        ensures
            r.path@.len() == self.val(end.0 as int) + 1,
            is_link_path(*grid, idxs(r.path@)),
            r.path@[0] == self.root,
            r.path@[r.path@.len() - 1] == end,
            min_dist(*grid, self.root.0 as int, end.0 as int, r.path@.len() - 1),
    {
        let ghost ev = self.val(end.0 as int);
        let mut rev: Vec<Index> = Vec::new();
        rev.push(end);
        let mut cur = end;
        while cur.0 != self.root.0
            invariant
                grid.wf(),
                self.faithful(*grid),
                end.0 < grid.spec_cap(),
                ev == self.val(end.0 as int),
                rev@.len() >= 1,
                rev@[0] == end,
                rev@[rev@.len() - 1] == cur,
                cur.0 < grid.spec_cap(),
                self.has(cur.0 as int),
                self.val(cur.0 as int) == ev - (rev@.len() - 1),
                forall|i: int|
                    0 <= i < rev@.len() - 1 ==> grid.has_lnk(
                        (#[trigger] rev@[i]).0 as int,
                        rev@[i + 1].0 as int,
                    ),
                forall|i: int| 0 <= i < rev@.len() ==> (#[trigger] rev@[i]).0 < grid.spec_cap(),
            decreases self.val(cur.0 as int),
        {
            proof {
                if self.val(cur.0 as int) == 0 {
                    // only the root sits at distance zero
                    assert(min_dist(*grid, self.root.0 as int, cur.0 as int, 0));
                    assert(has_dpath(*grid, self.root.0 as int, cur.0 as int, 0));
                    crate::graph::lemma_dpath_zero(*grid, self.root.0 as int, cur.0 as int);
                    assert(false);
                }
            }
            let b = grid.descend_step(self, cur);
            rev.push(b);
            cur = b;
        }
        proof {
            assert(self.val(self.root.0 as int) == 0);
            assert(rev@.len() == ev + 1);
        }
        let mut p: Vec<Index> = Vec::new();
        let n = rev.len();
        let mut i: usize = n;
        while i > 0
            invariant
                i <= n,
                n == rev@.len(),
                p@.len() == n - i,
                forall|k: int| 0 <= k < p@.len() ==> p@[k] == rev@[n - 1 - k],
            decreases i,
        {
            i = i - 1;
            p.push(rev[i]);
        }
        proof {
            assert forall|k: int|
                0 <= k < idxs(p@).len() - 1 implies grid.has_lnk(
                #[trigger] idxs(p@)[k],
                idxs(p@)[k + 1],
            ) by {
                assert(p@[k] == rev@[n - 1 - k]);
                assert(p@[k + 1] == rev@[n - 2 - k]);
                assert(grid.has_lnk(rev@[n - 2 - k].0 as int, rev@[n - 1 - k].0 as int));
                assert(grid.has_lnk(rev@[n - 1 - k].0 as int, rev@[n - 2 - k].0 as int));
            }
            assert forall|k: int| 0 <= k < idxs(p@).len() implies crate::grid::SqGrid::valid(
                grid,
                #[trigger] idxs(p@)[k],
            ) by {
                assert(p@[k] == rev@[n - 1 - k]);
            }
            assert(is_link_path(*grid, idxs(p@)));
            assert(p@[0] == rev@[n - 1]);
            assert(p@[p@.len() - 1] == rev@[0]);
            assert(min_dist(*grid, self.root.0 as int, end.0 as int, ev));
        }
        Path::new(p)
    }
}

impl SqGrid {
    /// The shortest walk between two cells of the maze, found by flood
    /// filling from the start and descending from the end.
    pub fn shortest_path(&self, start: Index, end: Index) -> (r: Path)
        requires
            self.wf(),
            start.0 < self.spec_cap(),
            end.0 < self.spec_cap(),
            connected(*self, start.0 as int, end.0 as int),
        ensures
            r.path@.len() >= 1,
            is_link_path(*self, idxs(r.path@)),
            r.path@[0] == start,
            r.path@[r.path@.len() - 1] == end,
            min_dist(*self, start.0 as int, end.0 as int, r.path@.len() - 1),
    {
        let d = self.distances(start);
        d.shortest_path(self, end)
    }

    /// An approximation of the maze's longest corridor: flood fill from the
    /// given cell, walk to the farthest cell found, flood fill again, and
    /// return the shortest walk to the cell now farthest; exact on perfect
    /// mazes, whose link graphs are trees.
    pub fn longest_path(&self, start: Index) -> (r: Path)
        requires
            self.wf(),
            start.0 < self.spec_cap(),
        ensures
            r.path@.len() >= 1,
            is_link_path(*self, idxs(r.path@)),
            connected(*self, start.0 as int, r.path@[0].0 as int),
            min_dist(
                *self,
                r.path@[0].0 as int,
                r.path@[r.path@.len() - 1].0 as int,
                r.path@.len() - 1,
            ),
            forall|c: int, m: int| #[trigger]
                min_dist(*self, r.path@[0].0 as int, c, m) ==> m <= r.path@.len() - 1,
            exists|da: int|
                #[trigger] min_dist(*self, start.0 as int, r.path@[0].0 as int, da) && (forall|
                    c: int,
                    m: int,
                |
                    #[trigger] min_dist(*self, start.0 as int, c, m) ==> m <= da),
    {
        let d1 = self.distances(start);
        let far = d1.max_dist();
        let ghost a = far.0.0 as int;
        proof {
            assert(d1.has(a));
            assert(connected(*self, start.0 as int, a));
        }
        let d2 = self.distances(far.0);
        let far2 = d2.max_dist();
        proof {
            assert(d2.has(far2.0.0 as int));
        }
        let r = d2.shortest_path(self, far2.0);
        proof {
            assert(r.path@[0] == far.0);
            // the first endpoint is a farthest cell from the given start
            let sa = start.0 as int;
            assert(d1.has(a));
            assert(min_dist(*self, sa, a, d1.val(a)));
            assert(d1.val(a) == far.1);
            assert forall|c: int, m: int| #[trigger]
                min_dist(*self, sa, c, m) implies m <= far.1 as int by {
                assert(has_dpath(*self, sa, c, m));
                crate::graph::lemma_connected_iff_dpath(*self, sa, c);
                assert(connected(*self, sa, c));
                assert(d1.has(c));
                assert(min_dist(*self, sa, c, d1.val(c)));
                if m < d1.val(c) {
                    assert(!has_dpath(*self, sa, c, m));
                }
                if m > d1.val(c) {
                    assert(has_dpath(*self, sa, c, d1.val(c)));
                }
                assert(m == d1.val(c));
                assert(d1.val(c) <= far.1);
            }
            // no walk from the path's start reaches farther than its end
            assert forall|c: int, m: int| #[trigger]
                min_dist(*self, a, c, m) implies m <= r.path@.len() - 1 by {
                assert(has_dpath(*self, a, c, m));
                crate::graph::lemma_connected_iff_dpath(*self, a, c);
                assert(connected(*self, a, c));
                assert(d2.has(c));
                assert(min_dist(*self, a, c, d2.val(c)));
                if m < d2.val(c) {
                    assert(!has_dpath(*self, a, c, m));
                }
                if m > d2.val(c) {
                    assert(has_dpath(*self, a, c, d2.val(c)));
                }
                assert(m == d2.val(c));
                assert(d2.val(c) <= far2.1);
            }
        }
        r
    }
}

} // verus!
