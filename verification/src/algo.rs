//! The maze-generation algorithms. Each consumes a fresh, fully-unlinked
//! grid and carves a spanning tree of links into it: afterwards every cell is
//! reachable from cell `0` and the number of passages is exactly one less
//! than the number of cells.

use vstd::prelude::*;
use crate::cardinal::Cardinal;
use crate::graph::{
    connected, lemma_connected_endpoint_linked, lemma_full_index_set, entry_count, lemma_connected_preserved, lemma_connected_refl, lemma_connected_step, lemma_connected_sym,
    lemma_connected_trans, lemma_entries_empty, lemma_entries_two_grew, spans,
};
use crate::grid::{lemma_cell_coords, lemma_push_contains, lemma_step_east, lemma_step_south, SqGrid};
use crate::cell::{contains_id, holds_id, lemma_holds_after_remove, lemma_idxs_contains, position_of};
use crate::index::Index;
use crate::rng::RandSource;

verus! {

/// In a grid where every cell but the last is linked east or south, every
/// cell reaches the southeast corner by walking forward.
proof fn lemma_forward_connected(g: SqGrid, c: int)
    requires
        g.wf(),
        forall|x: int|
            0 <= x < g.spec_cap() - 1 ==> (#[trigger] g.has_lnk(x, x + 1) || g.has_lnk(
                x,
                x + g.spec_size(),
            )),
        g.valid(c),
    ensures
        connected(g, c, g.spec_cap() - 1),
    decreases g.spec_cap() - c,
{
    let cap = g.spec_cap();
    if c == cap - 1 {
        lemma_connected_refl(g, c);
    } else {
        assert(g.has_lnk(c, c + 1) || g.has_lnk(c, c + g.spec_size()));
        let d = if g.has_lnk(c, c + 1) {
            c + 1
        } else {
            c + g.spec_size()
        };
        assert(g.has_lnk(c, d));
        g.lemma_lnk_valid(c, d);
        lemma_connected_step(g, c, d);
        lemma_forward_connected(g, d);
        lemma_connected_trans(g, c, d, cap - 1);
    }
}

/// Every cell reaches cell `0` in a grid where every cell but the last is
/// linked east or south.
proof fn lemma_forward_spans(g: SqGrid)
    requires
        g.wf(),
        forall|x: int|
            0 <= x < g.spec_cap() - 1 ==> (#[trigger] g.has_lnk(x, x + 1) || g.has_lnk(
                x,
                x + g.spec_size(),
            )),
    ensures
        forall|c: int| g.valid(c) ==> #[trigger] connected(g, 0, c),
{
    let cap = g.spec_cap();
    assert(cap >= 1) by (nonlinear_arith)
        requires
            g.spec_size() >= 1,
            cap == g.spec_size() * g.spec_size(),
    ;
    assert forall|c: int| g.valid(c) implies #[trigger] connected(g, 0, c) by {
        lemma_forward_connected(g, 0);
        lemma_forward_connected(g, c);
        lemma_connected_sym(g, c, cap - 1);
        lemma_connected_trans(g, 0, cap - 1, c);
    }
}


/// Consecutive east links form a corridor: every cell of the range reaches
/// the range's last cell.
proof fn lemma_chain_connected(g: SqGrid, lo: int, hi: int, x: int)
    requires
        g.wf(),
        forall|y: int| lo <= y < hi ==> #[trigger] g.has_lnk(y, y + 1),
        lo <= x <= hi,
        g.valid(hi),
        g.valid(x),
    ensures
        connected(g, x, hi),
    decreases hi - x,
{
    if x == hi {
        lemma_connected_refl(g, x);
    } else {
        assert(g.has_lnk(x, x + 1));
        g.lemma_lnk_valid(x, x + 1);
        lemma_connected_step(g, x, x + 1);
        lemma_chain_connected(g, lo, hi, x + 1);
        lemma_connected_trans(g, x, x + 1, hi);
    }
}

/// Some cell in the same row as `x`, reachable from `x`, is linked to the
/// cell below it.
spec fn served(g: SqGrid, x: int) -> bool {
    exists|w: int|
        #![trigger g.has_lnk(w, w + g.spec_size())]
        g.valid(w) && w / g.spec_size() == x / g.spec_size() && connected(g, x, w) && g.has_lnk(
            w,
            w + g.spec_size(),
        )
}

/// Being served survives carving further links.
proof fn lemma_served_preserved(g1: SqGrid, g2: SqGrid, x: int)
    requires
        g1.spec_size() == g2.spec_size(),
        forall|a: int, b: int| g1.has_lnk(a, b) ==> #[trigger] g2.has_lnk(a, b),
        served(g1, x),
    ensures
        served(g2, x),
{
    let s = g1.spec_size();
    let w = choose|w: int|
        #![trigger g1.has_lnk(w, w + g1.spec_size())]
        g1.valid(w) && w / s == x / s && connected(g1, x, w) && g1.has_lnk(w, w + s);
    lemma_connected_preserved(g1, g2, x, w);
    assert(g2.has_lnk(w, w + s));
}

/// Cells of one row share their quotient by the side length.
proof fn lemma_same_row(s: int, i: int, x: int)
    requires
        s >= 1,
        0 <= i < s * s,
        i - i % s <= x <= i,
    ensures
        x / s == i / s,
        x % s == i % s - (i - x),
{
    lemma_cell_coords(s, i);
    assert(x == (i / s) * s + (i % s - (i - x))) by (nonlinear_arith)
        requires
            i == s * (i / s) + i % s,
    ;
    vstd::arithmetic::div_mod::lemma_fundamental_div_mod_converse(
        x,
        s,
        i / s,
        i % s - (i - x),
    );
}

/// In a grid whose bottom row is a corridor and whose other cells are all
/// served, every cell reaches the southeast corner.
proof fn lemma_rows_connected(g: SqGrid, x: int)
    requires
        g.wf(),
        forall|y: int|
            g.spec_cap() - g.spec_size() <= y < g.spec_cap() - 1 ==> #[trigger] g.has_lnk(
                y,
                y + 1,
            ),
        forall|y: int|
            0 <= y < g.spec_cap() && y / g.spec_size() < g.spec_size() - 1 ==> #[trigger] served(
                g,
                y,
            ),
        g.valid(x),
    ensures
        connected(g, x, g.spec_cap() - 1),
    decreases g.spec_size() - x / g.spec_size(),
{
    let s = g.spec_size();
    let cap = g.spec_cap();
    lemma_cell_coords(s, x);
    if x / s == s - 1 {
        assert(x >= cap - s) by (nonlinear_arith)
            requires
                s >= 1,
                cap == s * s,
                x == s * (x / s) + x % s,
                x / s == s - 1,
                0 <= x % s,
        ;
        assert(cap >= 1) by (nonlinear_arith)
            requires
                s >= 1,
                cap == s * s,
        ;
        assert(g.valid(cap - 1));
        lemma_chain_connected(g, cap - s, cap - 1, x);
    } else {
        assert(served(g, x));
        let w = choose|w: int|
            #![trigger g.has_lnk(w, w + g.spec_size())]
            g.valid(w) && w / s == x / s && connected(g, x, w) && g.has_lnk(w, w + s);
        g.lemma_lnk_valid(w, w + s);
        lemma_connected_step(g, w, w + s);
        lemma_connected_trans(g, x, w, w + s);
        lemma_cell_coords(s, w);
        lemma_step_south(s, w);
        lemma_rows_connected(g, w + s);
        lemma_connected_trans(g, x, w + s, cap - 1);
    }
}


/// The facts the loop-erased walk maintains about its recorded path.
#[verifier::opaque]
spec fn walk_ok(g: SqGrid, uv: Seq<Index>, p: Seq<Index>) -> bool {
    &&& p.len() >= 1
    &&& forall|k1: int, k2: int|
        0 <= k1 < k2 < p.len() ==> (#[trigger] p[k1]).0 != (#[trigger] p[k2]).0
    &&& forall|j: int| 0 <= j < p.len() ==> (#[trigger] p[j]).0 < g.spec_cap()
    &&& forall|j: int|
        0 <= j < p.len() - 1 ==> g.is_nbr((#[trigger] p[j]).0 as int, p[j + 1].0 as int)
    &&& forall|j: int| 0 <= j < p.len() - 1 ==> holds_id(uv, (#[trigger] p[j]).0 as int)
}

/// Erasing a loop truncates the path back to the revisited cell and keeps
/// the walk facts.
proof fn lemma_walk_truncate(g: SqGrid, uv: Seq<Index>, p0: Seq<Index>, p1: Seq<Index>, q: int)
    requires
        0 <= q < p0.len(),
        p1 == p0.subrange(0, q + 1),
        walk_ok(g, uv, p0),
    ensures
        walk_ok(g, uv, p1),
        p1[p1.len() - 1] == p0[q],
        p1[0] == p0[0],
{
    reveal(walk_ok);
    assert forall|k1: int, k2: int|
        0 <= k1 < k2 < p1.len() implies (#[trigger] p1[k1]).0 != (#[trigger] p1[k2]).0 by {
        assert(p1[k1] == p0[k1]);
        assert(p1[k2] == p0[k2]);
    }
    assert forall|j: int| 0 <= j < p1.len() implies (#[trigger] p1[j]).0 < g.spec_cap() by {
        assert(p1[j] == p0[j]);
    }
    assert forall|j: int|
        0 <= j < p1.len() - 1 implies g.is_nbr((#[trigger] p1[j]).0 as int, p1[j + 1].0 as int) by {
        assert(p1[j] == p0[j]);
        assert(p1[j + 1] == p0[j + 1]);
    }
    assert forall|j: int|
        0 <= j < p1.len() - 1 implies holds_id(uv, (#[trigger] p1[j]).0 as int) by {
        assert(p1[j] == p0[j]);
    }
}

/// Stepping to a fresh cell extends the path and keeps the walk facts.
proof fn lemma_walk_push(g: SqGrid, uv: Seq<Index>, p0: Seq<Index>, p1: Seq<Index>, c: Index)
    requires
        p1 == p0.push(c),
        c.0 < g.spec_cap(),
        g.is_nbr(p0[p0.len() - 1].0 as int, c.0 as int),
        holds_id(uv, p0[p0.len() - 1].0 as int),
        forall|j: int| 0 <= j < p0.len() ==> (#[trigger] p0[j]).0 != c.0,
        walk_ok(g, uv, p0),
    ensures
        walk_ok(g, uv, p1),
        p1[p1.len() - 1] == c,
        p1[0] == p0[0],
{
    reveal(walk_ok);
    assert forall|k1: int, k2: int|
        0 <= k1 < k2 < p1.len() implies (#[trigger] p1[k1]).0 != (#[trigger] p1[k2]).0 by {
        if k2 < p0.len() {
            assert(p1[k1] == p0[k1]);
            assert(p1[k2] == p0[k2]);
        } else {
            assert(p1[k2] == c);
            assert(p1[k1] == p0[k1]);
        }
    }
    assert forall|j: int| 0 <= j < p1.len() implies (#[trigger] p1[j]).0 < g.spec_cap() by {
        if j < p0.len() {
            assert(p1[j] == p0[j]);
        } else {
            assert(p1[j] == c);
        }
    }
    assert forall|j: int|
        0 <= j < p1.len() - 1 implies g.is_nbr((#[trigger] p1[j]).0 as int, p1[j + 1].0 as int) by {
        if j < p0.len() - 1 {
            assert(p1[j] == p0[j]);
            assert(p1[j + 1] == p0[j + 1]);
        } else {
            assert(p1[j] == p0[p0.len() - 1]);
            assert(p1[j + 1] == c);
        }
    }
    assert forall|j: int|
        0 <= j < p1.len() - 1 implies holds_id(uv, (#[trigger] p1[j]).0 as int) by {
        if j < p0.len() - 1 {
            assert(p1[j] == p0[j]);
        } else {
            assert(p1[j] == p0[p0.len() - 1]);
        }
    }
}


/// One step of the loop-erased walk: if the cell was already walked, erase
/// the loop by truncating back to it; otherwise extend the path.
fn erase_or_extend(g: &SqGrid, path: &mut Vec<Index>, cell: Index, Ghost(uv): Ghost<Seq<Index>>)
    requires
        walk_ok(*g, uv, old(path)@),
        cell.0 < g.spec_cap(),
        g.is_nbr(old(path)@[old(path)@.len() - 1].0 as int, cell.0 as int),
        holds_id(uv, old(path)@[old(path)@.len() - 1].0 as int),
    ensures
        walk_ok(*g, uv, final(path)@),
        final(path)@.len() >= 1,
        final(path)@[final(path)@.len() - 1] == cell,
        final(path)@[0] == old(path)@[0],
{
    let ghost path0 = path@;
    let plen = path.len();
    proof {
        reveal(walk_ok);
        assert(path0.len() == plen);
    }
    match position_of(path, cell) {
        Some(p) => {
            path.truncate(p + 1);
            proof {
                lemma_walk_truncate(*g, uv, path0, path@, p as int);
                assert(path0[p as int].0 == cell.0);
                assert(path0[p as int] == (Index(cell.0)));
            }
        },
        None => {
            path.push(cell);
            proof {
                lemma_walk_push(*g, uv, path0, path@, cell);
            }
        },
    }
}


/// After carving one more pair of the walk, every earlier walk cell reaches
/// the new frontier cell, and the tree stays connected to its root.
proof fn lemma_wilsons_conn_restore(
    g0: SqGrid,
    g1: SqGrid,
    pathv: Seq<Index>,
    j: int,
    fi: int,
    vset0: Set<int>,
)
    requires
        g1.wf(),
        g0.spec_size() == g1.spec_size(),
        1 <= j < pathv.len(),
        forall|x: int, y: int| g0.has_lnk(x, y) ==> #[trigger] g1.has_lnk(x, y),
        g1.has_lnk(pathv[j - 1].0 as int, pathv[j].0 as int),
        forall|m: int|
            0 <= m < j - 1 ==> #[trigger] connected(g0, pathv[m].0 as int, pathv[j - 1].0 as int),
        forall|c: int| vset0.contains(c) ==> #[trigger] connected(g0, fi, c),
    ensures
        forall|m: int|
            0 <= m < j ==> #[trigger] connected(g1, pathv[m].0 as int, pathv[j].0 as int),
        forall|c: int| vset0.contains(c) ==> #[trigger] connected(g1, fi, c),
{
    let aj = pathv[j - 1].0 as int;
    let bj = pathv[j].0 as int;
    lemma_connected_step(g1, aj, bj);
    assert forall|m: int|
        0 <= m < j implies #[trigger] connected(g1, pathv[m].0 as int, pathv[j].0 as int) by {
        if m < j - 1 {
            assert(connected(g0, pathv[m].0 as int, aj));
            lemma_connected_preserved(g0, g1, pathv[m].0 as int, aj);
            lemma_connected_trans(g1, pathv[m].0 as int, aj, bj);
        } else {
            assert(connected(g1, aj, bj));
        }
    }
    assert forall|c: int| vset0.contains(c) implies #[trigger] connected(g1, fi, c) by {
        assert(connected(g0, fi, c));
        lemma_connected_preserved(g0, g1, fi, c);
    }
}

impl SqGrid {
    /// Carves a fresh link between two neighboring cells of which at least
    /// one side of the pair is not yet present, and accounts for the two new
    /// link entries.
    fn carve(&mut self, a: Index, b: Index)
        requires
            old(self).wf(),
            a.0 < old(self).spec_cap(),
            b.0 < old(self).spec_cap(),
            old(self).is_nbr(a.0 as int, b.0 as int),
            !old(self).has_lnk(a.0 as int, b.0 as int),
        ensures
            final(self).wf(),
            final(self).same_structure(&*old(self)),
            final(self).spec_size() == old(self).spec_size(),
            final(self).lnks(a.0 as int) == old(self).lnks(a.0 as int).push(b.0 as int),
            final(self).lnks(b.0 as int) == old(self).lnks(b.0 as int).push(a.0 as int),
            forall|i: int|
                old(self).valid(i) && i != a.0 as int && i != b.0 as int ==> #[trigger] final(self).lnks(i) == old(self).lnks(i),
            final(self).has_lnk(a.0 as int, b.0 as int),
            forall|x: int, y: int|
                old(self).has_lnk(x, y) ==> #[trigger] final(self).has_lnk(x, y),
            entry_count(*final(self)) == entry_count(*old(self)) + 2,
            forall|x: int, y: int|
                #[trigger] final(self).has_lnk(x, y) ==> old(self).has_lnk(x, y) || (x
                    == a.0 as int && y == b.0 as int) || (x == b.0 as int && y == a.0 as int),
    {
        let ghost g0 = *self;
        let ghost ai = a.0 as int;
        let ghost bi = b.0 as int;
        proof {
            g0.lemma_nbr_adjacent(ai);
            assert(!g0.has_lnk(bi, ai));
        }
        let res = self.link(a, b);
        proof {
            assert(res is Ok);
            lemma_entries_two_grew(g0, *self, ai, bi, g0.spec_cap());
            assert forall|x: int, y: int| #[trigger]
                self.has_lnk(x, y) implies g0.has_lnk(x, y) || (x == ai && y == bi) || (x == bi
                && y == ai) by {
                if x == ai {
                    lemma_push_contains(g0.lnks(ai), bi, y);
                } else if x == bi {
                    lemma_push_contains(g0.lnks(bi), ai, y);
                } else if g0.valid(x) {
                    assert(self.lnks(x) == g0.lnks(x));
                }
            }
        }
    }

    /// The Binary Tree algorithm: for every cell in scan order, flip a coin
    /// and link east or south, falling back to whichever side exists at the
    /// grid's edges. The result is a perfect maze biased toward corridors
    /// along the south and east edges.
    pub fn binary_tree<R: RandSource>(size: usize, rng: &mut R) -> (r: SqGrid)
        requires
            1 <= size,
            size * size <= usize::MAX,
        ensures
            r.wf(),
            r.spec_size() == size,
            spans(r),
    {
        let mut grid = SqGrid::setup(size);
        let cap = size * size;
        proof {
            assert(cap >= 1) by (nonlinear_arith)
                requires
                    size >= 1,
                    cap == size * size,
            ;
            lemma_entries_empty(grid, grid.spec_cap());
        }
        let mut i: usize = 0;
        while i < cap
            invariant
                grid.wf(),
                grid.spec_size() == size,
                1 <= size,
                cap == size * size,
                cap <= usize::MAX,
                i <= cap,
                forall|x: int| i <= x < cap ==> !(#[trigger] grid.has_lnk(x, x + 1)),
                forall|x: int| i <= x < cap ==> !(#[trigger] grid.has_lnk(x, x + size)),
                forall|x: int|
                    0 <= x < i && x != cap - 1 ==> (#[trigger] grid.has_lnk(x, x + 1)
                        || grid.has_lnk(x, x + size)),
                entry_count(grid) == (if i < cap {
                    2 * (i as int)
                } else {
                    2 * (cap as int) - 2
                }),
            decreases cap - i,
        {
            let id = Index(i);
            let ghost si = size as int;
            let ghost ii = i as int;
            let e_bdry = grid.has_boundary_east(id);
            let s_bdry = grid.has_boundary_south(id);
            let ghost g0 = grid;
            proof {
                grid.lemma_nbr_adjacent(ii);
                lemma_cell_coords(si, ii);
                if !e_bdry {
                    lemma_step_east(si, ii);
                }
                if !s_bdry {
                    lemma_step_south(si, ii);
                }
            }
            if !e_bdry && !s_bdry {
                let flip: bool = rng.flip();
                if flip {
                    grid.carve(id, Index(i + 1));
                } else {
                    grid.carve(id, Index(i + size));
                }
            } else if !e_bdry {
                grid.carve(id, Index(i + 1));
            } else if !s_bdry {
                grid.carve(id, Index(i + size));
            } else {
                proof {
                    assert(ii == si * si - 1) by (nonlinear_arith)
                        requires
                            si >= 1,
                            0 <= ii < si * si,
                            ii == si * (ii / si) + ii % si,
                            ii % si == si - 1,
                            ii / si == si - 1,
                    ;
                }
            }
            proof {
                assert forall|x: int| ii + 1 <= x < cap implies !(#[trigger] grid.has_lnk(
                    x,
                    x + 1,
                )) by {
                    if grid.has_lnk(x, x + 1) && !g0.has_lnk(x, x + 1) {
                        assert(x == ii || x + 1 == ii);
                    }
                }
                assert forall|x: int| ii + 1 <= x < cap implies !(#[trigger] grid.has_lnk(
                    x,
                    x + size,
                )) by {
                    if grid.has_lnk(x, x + size) && !g0.has_lnk(x, x + size) {
                        assert(x == ii || x + size == ii);
                    }
                }
                assert forall|x: int|
                    0 <= x < ii + 1 && x != cap - 1 implies (#[trigger] grid.has_lnk(x, x + 1)
                    || grid.has_lnk(x, x + size)) by {
                    if x < ii {
                        if g0.has_lnk(x, x + 1) {
                            assert(grid.has_lnk(x, x + 1));
                        } else {
                            assert(g0.has_lnk(x, x + size));
                            assert(grid.has_lnk(x, x + size));
                        }
                    }
                }
            }
            i = i + 1;
        }
        proof {
            lemma_forward_spans(grid);
            assert(entry_count(grid) == 2 * (grid.spec_cap() - 1));
            assert(spans(grid));
        }
        grid
    }
    /// The Sidewinder algorithm: scan row by row, accumulating a run of
    /// cells; at each cell flip a coin, linking east to extend the run or
    /// closing it by linking one of its cells south. The result is a perfect
    /// maze biased toward horizontal corridors with periodic southward
    /// connectors.
    pub fn sidewinder<R: RandSource>(size: usize, rng: &mut R) -> (r: SqGrid)
        requires
            1 <= size,
            size * size <= usize::MAX,
        ensures
            r.wf(),
            r.spec_size() == size,
            spans(r),
    {
        let mut grid = SqGrid::setup(size);
        let cap = size * size;
        let ghost si = size as int;
        proof {
            assert(cap >= 1) by (nonlinear_arith)
                requires
                    size >= 1,
                    cap == size * size,
            ;
            lemma_entries_empty(grid, grid.spec_cap());
        }
        let mut run: Vec<Index> = Vec::new();
        let mut i: usize = 0;
        while i < cap
            invariant
                grid.wf(),
                grid.spec_size() == size,
                1 <= size,
                cap == size * size,
                cap <= usize::MAX,
                si == size as int,
                i <= cap,
                i < cap ==> run@.len() <= (i as int) % si,
                i == cap ==> run@.len() == 0,
                forall|k: int|
                    0 <= k < run@.len() ==> (#[trigger] run@[k]).0 == i - run@.len() + k,
                forall|k: int|
                    0 <= k < run@.len() ==> #[trigger] grid.has_lnk(
                        i - run@.len() + k,
                        i - run@.len() + k + 1,
                    ),
                forall|k: int|
                    0 <= k < run@.len() ==> !(#[trigger] grid.has_lnk(
                        i - run@.len() + k,
                        i - run@.len() + k + si,
                    )),
                forall|x: int| i <= x < cap ==> !(#[trigger] grid.has_lnk(x, x + 1)),
                forall|x: int| i <= x < cap ==> !(#[trigger] grid.has_lnk(x, x + si)),
                forall|x: int|
                    0 <= x < i && x / si == si - 1 && x != cap - 1 ==> #[trigger] grid.has_lnk(
                        x,
                        x + 1,
                    ),
                forall|x: int|
                    0 <= x < i - run@.len() && x / si < si - 1 ==> #[trigger] served(grid, x),
                entry_count(grid) == (if i < cap {
                    2 * (i as int)
                } else {
                    2 * (cap as int) - 2
                }),
            decreases cap - i,
        {
            let id = Index(i);
            let ghost ii = i as int;
            let ghost run0 = run@;
            run.push(id);
            let e_bdry = grid.has_boundary_east(id);
            let s_bdry = grid.has_boundary_south(id);
            let flip: bool = rng.flip();
            let ghost g0 = grid;
            proof {
                grid.lemma_nbr_adjacent(ii);
                lemma_cell_coords(si, ii);
                if !e_bdry {
                    lemma_step_east(si, ii);
                }
                if !s_bdry {
                    lemma_step_south(si, ii);
                }
                // the run now holds the consecutive cells ending at i
                assert forall|k: int|
                    0 <= k < run@.len() implies (#[trigger] run@[k]).0 == ii + 1 - run@.len()
                    + k by {
                    if k < run0.len() {
                        assert(run@[k] == run0[k]);
                    }
                }
            }
            if e_bdry || (!s_bdry && !flip) {
                let j = rng.below(run.len());
                let run_id = run[j];
                let ghost ri = run_id.0 as int;
                proof {
                    // every run member lies in the row of cell i
                    assert(ri == ii + 1 - run@.len() + j);
                    assert(ii - ii % si <= ri <= ii);
                    lemma_same_row(si, ii, ri);
                    grid.lemma_nbr_adjacent(ri);
                    if ri / si != si - 1 {
                        lemma_step_south(si, ri);
                    }
                }
                match grid.neighbor(run_id, &Cardinal::S) {
                    Some(n) => {
                        proof {
                            // the member keeps no south link yet
                            if j < run0.len() {
                                assert(!g0.has_lnk(ii - run0.len() + j, ii - run0.len() + j
                                    + si));
                            } else {
                                assert(ri == ii);
                            }
                            assert(!g0.has_lnk(ri, ri + si));
                            assert(n.0 == ri + si);
                        }
                        grid.carve(run_id, n);
                        run = Vec::new();
                        proof {
                            let rl = run0.len() as int;
                            let rs = ii - rl;
                            // the chain of east links collected by the run
                            assert forall|y: int| rs <= y < ii implies #[trigger] g0.has_lnk(
                                y,
                                y + 1,
                            ) by {
                                let k = y - rs;
                                assert(g0.has_lnk(ii - run0.len() + k, ii - run0.len() + k + 1));
                            }
                            // the whole closed run is now served through ri
                            assert forall|x: int|
                                rs <= x <= ii && x / si < si - 1 implies #[trigger] served(
                                grid,
                                x,
                            ) by {
                                lemma_same_row(si, ii, x);
                                lemma_chain_connected(g0, rs, ii, x);
                                lemma_chain_connected(g0, rs, ii, ri);
                                lemma_connected_sym(g0, ri, ii);
                                lemma_connected_trans(g0, x, ii, ri);
                                lemma_connected_preserved(g0, grid, x, ri);
                                assert(grid.has_lnk(ri, ri + si));
                            }
                            // cells served before stay served
                            assert forall|x: int|
                                0 <= x < ii + 1 - run@.len() && x / si < si - 1 implies #[trigger] served(
                                grid,
                                x,
                            ) by {
                                if x < rs {
                                    lemma_served_preserved(g0, grid, x);
                                } else {
                                    assert(rs <= x <= ii);
                                }
                            }
                            // no forward link reaches an unprocessed cell
                            assert forall|x: int| ii + 1 <= x < cap implies !(#[trigger] grid.has_lnk(
                                x,
                                x + 1,
                            )) by {
                                if grid.has_lnk(x, x + 1) {
                                    assert(g0.has_lnk(x, x + 1) || (x == ri && x + 1 == ri + si)
                                        || (x == ri + si && x + 1 == ri));
                                }
                            }
                            assert forall|x: int| ii + 1 <= x < cap implies !(#[trigger] grid.has_lnk(
                                x,
                                x + si,
                            )) by {
                                if grid.has_lnk(x, x + si) {
                                    assert(g0.has_lnk(x, x + si) || (x == ri && x + si == ri + si)
                                        || (x == ri + si && x + si == ri));
                                }
                            }
                            // the bottom-row corridor so far is untouched
                            assert forall|x: int|
                                0 <= x < ii + 1 && x / si == si - 1 && x != cap
                                    - 1 implies #[trigger] grid.has_lnk(x, x + 1) by {
                                assert(x != ii);
                                assert(g0.has_lnk(x, x + 1));
                            }
                            // the row being closed is not the last, so the scan goes on
                            assert(ii + 1 < cap) by (nonlinear_arith)
                                requires
                                    si >= 1,
                                    cap == si * si,
                                    0 <= ii,
                                    ii == si * (ii / si) + ii % si,
                                    0 <= ii % si < si,
                                    ii / si == ri / si,
                                    ri / si < si - 1,
                            ;
                        }
                    },
                    None => {
                        proof {
                            // only the southeast corner closes a run on the
                            // bottom row, and it carves nothing
                            assert(ri / si == si - 1);
                            assert(ii / si == si - 1);
                            assert(e_bdry);
                            assert(ii == si * si - 1) by (nonlinear_arith)
                                requires
                                    si >= 1,
                                    0 <= ii < si * si,
                                    ii == si * (ii / si) + ii % si,
                                    ii % si == si - 1,
                                    ii / si == si - 1,
                            ;
                        }
                        run = Vec::new();
                        proof {
                            let rl = run0.len() as int;
                            let rs = ii - rl;
                            assert forall|x: int|
                                0 <= x < ii + 1 - run@.len() && x / si < si - 1 implies #[trigger] served(
                                grid,
                                x,
                            ) by {
                                if x >= rs {
                                    lemma_same_row(si, ii, x);
                                }
                            }
                        }
                    },
                }
            } else {
                proof {
                    assert(!g0.has_lnk(ii, ii + 1));
                    assert(ii + 1 < cap);
                }
                grid.carve(id, Index(i + 1));
                proof {
                    assert(size >= 2) by {
                        if size == 1 {
                            assert(ii % 1int == 0);
                        }
                    }
                    let rl = run0.len() as int;
                    let rs = ii - rl;
                    // the run grows by cell i, which now carries its east link
                    assert forall|k: int|
                        0 <= k < run@.len() implies #[trigger] grid.has_lnk(
                        ii + 1 - run@.len() + k,
                        ii + 1 - run@.len() + k + 1,
                    ) by {
                        if k < rl {
                            assert(g0.has_lnk(ii - run0.len() + k, ii - run0.len() + k + 1));
                        } else {
                            assert(ii + 1 - run@.len() + k == ii);
                        }
                    }
                    assert forall|k: int|
                        0 <= k < run@.len() implies !(#[trigger] grid.has_lnk(
                        ii + 1 - run@.len() + k,
                        ii + 1 - run@.len() + k + si,
                    )) by {
                        let x = ii + 1 - run@.len() + k;
                        if grid.has_lnk(x, x + si) {
                            assert(g0.has_lnk(x, x + si) || (x == ii && x + si == ii + 1) || (x
                                == ii + 1 && x + si == ii));
                            if k < rl {
                                assert(!g0.has_lnk(ii - run0.len() + k, ii - run0.len() + k + si));
                            }
                        }
                    }
                    assert forall|x: int| ii + 1 <= x < cap implies !(#[trigger] grid.has_lnk(
                        x,
                        x + 1,
                    )) by {
                        if grid.has_lnk(x, x + 1) {
                            assert(g0.has_lnk(x, x + 1) || (x == ii && x + 1 == ii + 1) || (x == ii
                                + 1 && x + 1 == ii));
                        }
                    }
                    assert forall|x: int| ii + 1 <= x < cap implies !(#[trigger] grid.has_lnk(
                        x,
                        x + si,
                    )) by {
                        if grid.has_lnk(x, x + si) {
                            assert(g0.has_lnk(x, x + si) || (x == ii && x + si == ii + 1) || (x
                                == ii + 1 && x + si == ii));
                        }
                    }
                    assert forall|x: int|
                        0 <= x < ii + 1 && x / si == si - 1 && x != cap - 1 implies #[trigger] grid.has_lnk(
                        x,
                        x + 1,
                    ) by {
                        if x < ii {
                            assert(g0.has_lnk(x, x + 1));
                        }
                    }
                    assert forall|x: int|
                        0 <= x < ii + 1 - run@.len() && x / si < si - 1 implies #[trigger] served(
                        grid,
                        x,
                    ) by {
                        lemma_served_preserved(g0, grid, x);
                    }
                }
            }
            i = i + 1;
        }
        proof {
            assert forall|y: int|
                grid.spec_cap() - grid.spec_size() <= y < grid.spec_cap()
                    - 1 implies #[trigger] grid.has_lnk(y, y + 1) by {
                assert(y >= si * si - si);
                assert(si * si - si >= 0) by (nonlinear_arith)
                    requires
                        si >= 1,
                ;
                lemma_cell_coords(si, y);
                assert(y / si == si - 1) by (nonlinear_arith)
                    requires
                        si >= 1,
                        si * si - si <= y < si * si,
                        y == si * (y / si) + y % si,
                        0 <= y % si < si,
                    ;
            }
            assert forall|y: int|
                0 <= y < grid.spec_cap() && y / grid.spec_size() < grid.spec_size()
                    - 1 implies #[trigger] served(grid, y) by {}
            assert forall|c: int| grid.valid(c) implies #[trigger] connected(grid, 0, c) by {
                lemma_rows_connected(grid, 0);
                lemma_rows_connected(grid, c);
                lemma_connected_sym(grid, c, grid.spec_cap() - 1);
                lemma_connected_trans(grid, 0, grid.spec_cap() - 1, c);
            }
            assert(spans(grid));
        }
        grid
    }

    /// Deterministically carves the east-else-south pattern into a fully
    /// unlinked grid, producing a spanning tree without randomness. The
    /// randomized algorithms fall back to this if their step budget is ever
    /// exhausted, which keeps their spanning-tree guarantee unconditional.
    fn carve_forward(&mut self)
        requires
            old(self).wf(),
            forall|i: int| old(self).valid(i) ==> (#[trigger] old(self).lnks(i)).len() == 0,
        ensures
            final(self).wf(),
            final(self).spec_size() == old(self).spec_size(),
            spans(*final(self)),
    {
        let size = self.size.0;
        let cap = size * size;
        proof {
            assert(cap >= 1) by (nonlinear_arith)
                requires
                    size >= 1,
                    cap == size * size,
            ;
            lemma_entries_empty(*self, self.spec_cap());
        }
        let mut i: usize = 0;
        while i < cap
            invariant
                self.wf(),
                self.spec_size() == size,
                1 <= size,
                cap == size * size,
                cap <= usize::MAX,
                i <= cap,
                forall|x: int| i <= x < cap ==> !(#[trigger] self.has_lnk(x, x + 1)),
                forall|x: int| i <= x < cap ==> !(#[trigger] self.has_lnk(x, x + size)),
                forall|x: int|
                    0 <= x < i && x != cap - 1 ==> (#[trigger] self.has_lnk(x, x + 1)
                        || self.has_lnk(x, x + size)),
                entry_count(*self) == (if i < cap {
                    2 * (i as int)
                } else {
                    2 * (cap as int) - 2
                }),
            decreases cap - i,
        {
            let id = Index(i);
            let ghost si = size as int;
            let ghost ii = i as int;
            let e_bdry = self.has_boundary_east(id);
            let s_bdry = self.has_boundary_south(id);
            let ghost g0 = *self;
            proof {
                self.lemma_nbr_adjacent(ii);
                lemma_cell_coords(si, ii);
                if !e_bdry {
                    lemma_step_east(si, ii);
                }
                if !s_bdry {
                    lemma_step_south(si, ii);
                }
            }
            if !e_bdry {
                self.carve(id, Index(i + 1));
            } else if !s_bdry {
                self.carve(id, Index(i + size));
            } else {
                proof {
                    assert(ii == si * si - 1) by (nonlinear_arith)
                        requires
                            si >= 1,
                            0 <= ii < si * si,
                            ii == si * (ii / si) + ii % si,
                            ii % si == si - 1,
                            ii / si == si - 1,
                    ;
                }
            }
            proof {
                assert forall|x: int| ii + 1 <= x < cap implies !(#[trigger] self.has_lnk(
                    x,
                    x + 1,
                )) by {
                    if self.has_lnk(x, x + 1) && !g0.has_lnk(x, x + 1) {
                        assert(x == ii || x + 1 == ii);
                    }
                }
                assert forall|x: int| ii + 1 <= x < cap implies !(#[trigger] self.has_lnk(
                    x,
                    x + size,
                )) by {
                    if self.has_lnk(x, x + size) && !g0.has_lnk(x, x + size) {
                        assert(x == ii || x + size == ii);
                    }
                }
                assert forall|x: int|
                    0 <= x < ii + 1 && x != cap - 1 implies (#[trigger] self.has_lnk(x, x + 1)
                    || self.has_lnk(x, x + size)) by {
                    if x < ii {
                        if g0.has_lnk(x, x + 1) {
                            assert(self.has_lnk(x, x + 1));
                        } else {
                            assert(g0.has_lnk(x, x + size));
                            assert(self.has_lnk(x, x + size));
                        }
                    }
                }
            }
            i = i + 1;
        }
        proof {
            lemma_forward_spans(*self);
            assert(spans(*self));
        }
    }

    /// The Aldous-Broder algorithm: an unbiased random walk that links each
    /// never-linked cell it steps onto, stopping once every cell has been
    /// visited. The walk carries a generous step budget; should it ever run
    /// out, the remaining cells are joined by the deterministic fallback so
    /// that the result is a perfect maze in every case.
    pub fn aldous_broder<R: RandSource>(size: usize, rng: &mut R) -> (r: SqGrid)
        requires
            1 <= size,
            size * size <= usize::MAX,
        ensures
            r.wf(),
            r.spec_size() == size,
            spans(r),
    {
        let mut grid = SqGrid::setup(size);
        let cap = size * size;
        proof {
            assert(cap >= 1) by (nonlinear_arith)
                requires
                    size >= 1,
                    cap == size * size,
            ;
            lemma_entries_empty(grid, grid.spec_cap());
        }
        let c0 = grid.random_id(rng);
        let ghost c0i = c0.0 as int;
        let mut cell = c0;
        let mut unvisited = cap - 1;
        let mut fuel: u64 = match (cap as u64).checked_mul(4096) {
            Some(f) => f,
            None => u64::MAX,
        };
        let ghost mut vset: Set<int> = Set::<int>::empty().insert(c0i);
        proof {
            vstd::set::axiom_set_insert_len(Set::<int>::empty(), c0i);
            assert(vset.len() == 1);
            lemma_connected_refl(grid, c0i);
            assert forall|c: int| #[trigger]
                vset.contains(c) <==> (c == c0i || (0 <= c < cap && grid.linked(c))) by {
                if 0 <= c < cap {
                    assert(grid.lnks(c).len() == 0);
                }
            }
        }
        while unvisited > 0 && fuel > 0
            invariant
                grid.wf(),
                grid.spec_size() == size,
                1 <= size,
                cap == size * size,
                cap <= usize::MAX,
                vset.finite(),
                vset.len() >= 1,
                0 <= c0i < cap,
                cell.0 < cap,
                vset.contains(cell.0 as int),
                forall|c: int| #[trigger]
                    vset.contains(c) <==> (c == c0i || (0 <= c < cap && grid.linked(c))),
                forall|c: int| vset.contains(c) ==> #[trigger] connected(grid, c0i, c),
                unvisited as int == cap - vset.len(),
                entry_count(grid) == 2 * (vset.len() - 1),
            decreases fuel,
        {
            fuel = fuel - 1;
            proof {
                assert(cap >= 2);
                assert(size >= 2) by (nonlinear_arith)
                    requires
                        size >= 1,
                        cap == size * size,
                        cap >= 2,
                ;
                grid.lemma_nbrs_nonempty(cell.0 as int);
            }
            let nb = grid.random_neighbor_id(cell, rng);
            let ghost nbi = nb.0 as int;
            let linked_nb = grid.lookup(nb).is_linked();
            if !linked_nb {
                let ghost g0 = grid;
                proof {
                    if nbi == c0i {
                        assert(cell.0 as int != c0i);
                        assert(grid.linked(cell.0 as int));
                        assert(connected(grid, c0i, cell.0 as int));
                        lemma_connected_sym(grid, c0i, cell.0 as int);
                        lemma_connected_endpoint_linked(grid, cell.0 as int, c0i);
                        assert(false);
                    }
                    assert(!vset.contains(nbi));
                    assert(!grid.has_lnk(nbi, cell.0 as int));
                    assert(!grid.has_lnk(cell.0 as int, nbi));
                }
                grid.carve(cell, nb);
                unvisited = unvisited - 1;
                proof {
                    vstd::set::axiom_set_insert_len(vset, nbi);
                    let vset2 = vset.insert(nbi);
                    assert(connected(g0, c0i, cell.0 as int));
                    lemma_connected_preserved(g0, grid, c0i, cell.0 as int);
                    lemma_connected_step(grid, cell.0 as int, nbi);
                    lemma_connected_trans(grid, c0i, cell.0 as int, nbi);
                    assert forall|c: int| vset2.contains(c) implies #[trigger] connected(
                        grid,
                        c0i,
                        c,
                    ) by {
                        if c != nbi {
                            assert(connected(g0, c0i, c));
                            lemma_connected_preserved(g0, grid, c0i, c);
                        }
                    }
                    assert forall|c: int| #[trigger]
                        vset2.contains(c) <==> (c == c0i || (0 <= c < cap
                        && grid.linked(c))) by {
                        if vset2.contains(c) {
                            if c == nbi {
                                assert(grid.has_lnk(nbi, cell.0 as int));
                                assert(grid.lnks(nbi).len() > 0);
                            } else if c != c0i {
                                assert(g0.linked(c));
                                if c != cell.0 as int {
                                    assert(grid.lnks(c) == g0.lnks(c));
                                } else {
                                    assert(grid.lnks(c).len() == g0.lnks(c).len() + 1);
                                }
                            }
                        } else {
                            if 0 <= c < cap && grid.linked(c) {
                                if c != cell.0 as int && c != nbi {
                                    assert(grid.lnks(c) == g0.lnks(c));
                                    assert(g0.linked(c));
                                    assert(vset.contains(c));
                                }
                                assert(false);
                            }
                        }
                    }
                    vset = vset2;
                }
            }
            cell = nb;
            proof {
                assert(vset.contains(cell.0 as int));
            }
        }
        if unvisited > 0 {
            grid.clear_links();
            grid.carve_forward();
        } else {
            proof {
                assert(vset.len() == cap);
                lemma_full_index_set(cap as int, vset);
                assert forall|c: int| grid.valid(c) implies #[trigger] connected(grid, 0, c) by {
                    assert(vset.contains(0));
                    assert(vset.contains(c));
                    assert(connected(grid, c0i, 0));
                    assert(connected(grid, c0i, c));
                    lemma_connected_sym(grid, c0i, 0);
                    lemma_connected_trans(grid, 0, c0i, c);
                }
                assert(spans(grid));
            }
        }
        grid
    }

    /// Wilson's algorithm: repeatedly pick an unvisited cell, perform a
    /// loop-erased random walk until it meets the visited tree, then carve
    /// the walk into the maze. The walk carries a generous step budget;
    /// should it ever run out, the remaining cells are joined by the
    /// deterministic fallback so that the result is a perfect maze in every
    /// case.
    #[verifier::rlimit(100)]
    pub fn wilsons<R: RandSource>(size: usize, rng: &mut R) -> (r: SqGrid)
        requires
            1 <= size,
            size * size <= usize::MAX,
        ensures
            r.wf(),
            r.spec_size() == size,
            spans(r),
    {
        let mut grid = SqGrid::setup(size);
        let cap = size * size;
        proof {
            assert(cap >= 1) by (nonlinear_arith)
                requires
                    size >= 1,
                    cap == size * size,
            ;
            lemma_entries_empty(grid, grid.spec_cap());
        }
        let mut unvisited: Vec<Index> = Vec::new();
        let mut k: usize = 0;
        while k < cap
            invariant
                k <= cap,
                unvisited@.len() == k,
                forall|j: int| 0 <= j < k ==> (#[trigger] unvisited@[j]).0 == j,
            decreases cap - k,
        {
            unvisited.push(Index(k));
            k = k + 1;
        }
        let fp = rng.below(unvisited.len());
        let first = unvisited[fp];
        let ghost uv0 = unvisited@;
        let ghost fi = first.0 as int;
        unvisited.remove(fp);
        let ghost mut vset: Set<int> = Set::<int>::empty().insert(fi);
        proof {
            vstd::set::axiom_set_insert_len(Set::<int>::empty(), fi);
            lemma_connected_refl(grid, fi);
            assert(unvisited@ == uv0.remove(fp as int));
            assert forall|c: int|
                0 <= c < cap implies (#[trigger] vset.contains(c) <==> !holds_id(
                unvisited@,
                c,
            )) by {
                if c == fi {
                    if holds_id(unvisited@, c) {
                        let kk = choose|kk: int|
                            0 <= kk < unvisited@.len() && (#[trigger] unvisited@[kk]).0 == c;
                        if kk < fp as int {
                            assert(uv0[kk].0 == kk);
                        } else {
                            assert(uv0[kk + 1].0 == kk + 1);
                        }
                        assert(false);
                    }
                } else {
                    if c < fp as int {
                        assert(unvisited@[c].0 == c);
                    } else {
                        assert(unvisited@[c - 1] == uv0[c]);
                    }
                    assert(holds_id(unvisited@, c));
                }
            }
        }
        let mut fuel: u64 = match (cap as u64).checked_mul(4096) {
            Some(f) => f,
            None => u64::MAX,
        };
        while unvisited.len() > 0 && fuel > 0
            invariant
                grid.wf(),
                grid.spec_size() == size,
                1 <= size,
                cap == size * size,
                cap <= usize::MAX,
                vset.finite(),
                vset.len() >= 1,
                0 <= fi < cap,
                vset.contains(fi),
                forall|c: int| vset.contains(c) ==> 0 <= c < cap,
                forall|c: int|
                    0 <= c < cap ==> (#[trigger] vset.contains(c) <==> !holds_id(unvisited@, c)),
                forall|k1: int, k2: int|
                    0 <= k1 < k2 < unvisited@.len() ==> (#[trigger] unvisited@[k1]).0 != (
                    #[trigger] unvisited@[k2]).0,
                forall|j: int| 0 <= j < unvisited@.len() ==> (#[trigger] unvisited@[j]).0 < cap,
                unvisited@.len() == cap - vset.len(),
                forall|c: int| vset.contains(c) ==> #[trigger] connected(grid, fi, c),
                forall|c: int|
                    0 <= c < cap && !vset.contains(c) ==> (#[trigger] grid.lnks(c)).len() == 0,
                entry_count(grid) == 2 * (vset.len() - 1),
            decreases fuel,
        {
            let ghost fuel0o = fuel;
            fuel = fuel - 1;
            proof {
                assert(holds_id(unvisited@, unvisited@[0].0 as int));
                assert(!vset.contains(unvisited@[0].0 as int));
                assert(cap >= 2);
                assert(size >= 2) by (nonlinear_arith)
                    requires
                        size >= 1,
                        cap == size * size,
                        cap >= 2,
                ;
            }
            let sp = rng.below(unvisited.len());
            let start = unvisited[sp];
            let mut cell = start;
            let mut path: Vec<Index> = Vec::new();
            path.push(start);
            proof {
                assert(holds_id(unvisited@, start.0 as int));
            }
            let mut on_unvisited = contains_id(&unvisited, cell);
            proof {
                lemma_idxs_contains(unvisited@, cell.0 as int);
                reveal(walk_ok);
                assert(walk_ok(grid, unvisited@, path@));
            }
            while fuel > 0 && on_unvisited
                invariant
                    on_unvisited == holds_id(unvisited@, cell.0 as int),
                    fuel < fuel0o,
                    grid.wf(),
                    grid.spec_size() == size,
                    size >= 2,
                    cap == size * size,
                    cap <= usize::MAX,
                    path@.len() >= 1,
                    path@[0] == start,
                    path@[path@.len() - 1] == cell,
                    cell.0 < cap,
                    walk_ok(grid, unvisited@, path@),
                decreases fuel,
            {
                fuel = fuel - 1;
                let prev = cell;
                proof {
                    grid.lemma_nbrs_nonempty(prev.0 as int);
                }
                cell = grid.random_neighbor_id(prev, rng);
                erase_or_extend(&grid, &mut path, cell, Ghost(unvisited@));
                on_unvisited = contains_id(&unvisited, cell);
                proof {
                    lemma_idxs_contains(unvisited@, cell.0 as int);
                }
            }
            if !on_unvisited {
                // the walk reached the visited tree: carve it in
                let ghost l = path@.len() as int;
                let ghost pathv = path@;
                let ghost vset0 = vset;
                proof {
                    reveal(walk_ok);
                    assert(walk_ok(grid, unvisited@, pathv));
                    lemma_idxs_contains(unvisited@, cell.0 as int);
                    assert(!holds_id(unvisited@, cell.0 as int));
                    assert(vset.contains(cell.0 as int));
                    assert(pathv[l - 1] == cell);
                }
                let mut j: usize = 0;
                while j + 1 < path.len()
                    invariant
                        grid.wf(),
                        grid.spec_size() == size,
                        size >= 2,
                        cap == size * size,
                        cap <= usize::MAX,
                        path@ == pathv,
                        1 <= l,
                        l == pathv.len(),
                        j < l,
                        pathv[l - 1] == cell,
                        cell.0 < cap,
                        vset0.contains(cell.0 as int),
                        vset.finite(),
                        vset.len() == vset0.len() + j,
                        forall|c: int| vset0.contains(c) ==> #[trigger] vset.contains(c),
                        forall|c: int|
                            #[trigger] vset.contains(c) ==> (vset0.contains(c) || exists|m: int|
                                0 <= m < j && (#[trigger] pathv[m]).0 == c),
                        forall|c: int| vset.contains(c) ==> 0 <= c < cap,
                        forall|k1: int, k2: int|
                            0 <= k1 < k2 < pathv.len() ==> (#[trigger] pathv[k1]).0 != (
                            #[trigger] pathv[k2]).0,
                        forall|m: int| 0 <= m < pathv.len() ==> (#[trigger] pathv[m]).0 < cap,
                        forall|m: int|
                            0 <= m < pathv.len() - 1 ==> grid.is_nbr(
                                (#[trigger] pathv[m]).0 as int,
                                pathv[m + 1].0 as int,
                            ),
                        forall|m: int|
                            (j as int) <= m < pathv.len() - 1 ==> holds_id(
                                unvisited@,
                                (#[trigger] pathv[m]).0 as int,
                            ),
                        forall|c: int|
                            0 <= c < cap ==> (#[trigger] vset.contains(c) <==> !holds_id(
                                unvisited@,
                                c,
                            )),
                        forall|k1: int, k2: int|
                            0 <= k1 < k2 < unvisited@.len() ==> (#[trigger] unvisited@[k1]).0 != (
                            #[trigger] unvisited@[k2]).0,
                        forall|jj: int|
                            0 <= jj < unvisited@.len() ==> (#[trigger] unvisited@[jj]).0 < cap,
                        unvisited@.len() == cap - vset.len(),
                        forall|c: int| vset0.contains(c) ==> #[trigger] connected(grid, fi, c),
                        forall|m: int|
                            0 <= m < j ==> #[trigger] connected(
                                grid,
                                pathv[m].0 as int,
                                pathv[j as int].0 as int,
                            ),
                        0 < j < l - 1 ==> grid.lnks(pathv[j as int].0 as int) == seq![
                            pathv[j - 1].0 as int,
                        ],
                        forall|c: int|
                            0 <= c < cap && !vset.contains(c) && !(j > 0 && c == pathv[j as int].0 as int) ==> (#[trigger] grid.lnks(c)).len() == 0,
                        entry_count(grid) == 2 * (vset.len() - 1),
                        0 <= fi < cap,
                        vset.contains(fi),
                    decreases l - j,
                {
                    let a = path[j];
                    let b = path[j + 1];
                    let ghost aj = a.0 as int;
                    let ghost bj = b.0 as int;
                    let ghost g0 = grid;
                    let ghost uvj = unvisited@;
                    let ghost vsetj = vset;
                    proof {
                        assert(pathv[j as int] == a);
                        assert(pathv[j as int + 1] == b);
                        assert(holds_id(unvisited@, aj));
                        assert(!vset.contains(aj));
                        if j > 0 {
                            assert(0 < j < l - 1);
                            assert(grid.lnks(aj) == seq![pathv[j - 1].0 as int]);
                            assert(pathv[j - 1].0 != b.0);
                            if grid.lnks(aj).contains(bj) {
                                let q = choose|q: int|
                                    0 <= q < grid.lnks(aj).len() && grid.lnks(aj)[q] == bj;
                                assert(q == 0);
                            }
                        } else {
                            assert(grid.lnks(aj).len() == 0);
                        }
                        assert(!grid.has_lnk(aj, bj));
                    }
                    grid.carve(a, b);
                    proof {
                        vstd::set::axiom_set_insert_len(vsetj, aj);
                        vset = vset.insert(aj);
                    }
                    match position_of(&unvisited, a) {
                        Some(p) => {
                            unvisited.remove(p);
                            proof {
                                assert(unvisited@ == uvj.remove(p as int));
                                assert(uvj[p as int].0 == a.0);
                                assert forall|c: int|
                                    0 <= c < cap implies (#[trigger] vset.contains(c)
                                    <==> !holds_id(unvisited@, c)) by {
                                    lemma_holds_after_remove(uvj, p as int, c);
                                }
                                assert forall|m: int|
                                    (j as int) + 1 <= m < pathv.len() - 1 implies holds_id(
                                    unvisited@,
                                    (#[trigger] pathv[m]).0 as int,
                                ) by {
                                    lemma_holds_after_remove(uvj, p as int, pathv[m].0 as int);
                                }
                            }
                        },
                        None => {
                            proof {
                                lemma_idxs_contains(uvj, aj);
                                assert(false);
                            }
                        },
                    }
                    j = j + 1;
                    proof {
                        lemma_wilsons_conn_restore(g0, grid, pathv, j as int, fi, vset0);
                        // link bookkeeping for the cells still to be carved
                        if (j as int) < l - 1 {
                            assert(pathv[j as int] == b);
                            assert(grid.lnks(bj) == g0.lnks(bj).push(aj));
                            assert(g0.lnks(bj).len() == 0);
                            assert(grid.lnks(bj) =~= seq![aj]);
                        }
                        assert forall|c: int|
                            0 <= c < cap && !vset.contains(c) && !(j > 0 && c == pathv[j as int].0 as int) implies (#[trigger] grid.lnks(c)).len() == 0 by {
                            assert(c != aj);
                            assert(c != bj);
                            assert(grid.lnks(c) == g0.lnks(c));
                        }
                    }
                }
                proof {
                    assert(pathv[l - 1] == cell);
                    assert(connected(grid, fi, cell.0 as int));
                    assert forall|c: int|
                        vset.contains(c) implies #[trigger] connected(grid, fi, c) by {
                        if !vset0.contains(c) {
                            let m = choose|m: int|
                                0 <= m < j && (#[trigger] pathv[m]).0 == c;
                            assert(connected(grid, pathv[m].0 as int, pathv[j as int].0 as int));
                            assert(j as int == l - 1);
                            lemma_connected_sym(grid, c, cell.0 as int);
                            lemma_connected_sym(grid, fi, cell.0 as int);
                            lemma_connected_trans(grid, fi, cell.0 as int, c);
                        }
                    }
                }
            }
        }
        if unvisited.len() > 0 {
            grid.clear_links();
            grid.carve_forward();
        } else {
            proof {
                assert(vset.len() == cap);
                lemma_full_index_set(cap as int, vset);
                assert forall|c: int| grid.valid(c) implies #[trigger] connected(grid, 0, c) by {
                    assert(vset.contains(0));
                    assert(vset.contains(c));
                    assert(connected(grid, fi, 0));
                    assert(connected(grid, fi, c));
                    lemma_connected_sym(grid, fi, 0);
                    lemma_connected_trans(grid, 0, fi, c);
                }
                assert(spans(grid));
            }
        }
        grid
    }
}

} // verus!
