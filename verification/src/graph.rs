//! The link graph of a grid, seen as a mathematical object: paths along
//! links, reachability, and the total count of link entries. These notions
//! carry the spanning-tree contracts of the generation algorithms.

use vstd::prelude::*;
use crate::grid::SqGrid;
use vstd::set_lib::{lemma_int_range, lemma_len_subset, set_int_range};

verus! {

/// A walk through the maze: a non-empty sequence of valid cell indices in
/// which every consecutive pair is joined by a link.
pub open spec fn is_link_path(g: SqGrid, p: Seq<int>) -> bool {
    &&& p.len() >= 1
    &&& forall|k: int| 0 <= k < p.len() ==> g.valid(#[trigger] p[k])
    &&& forall|k: int| 0 <= k < p.len() - 1 ==> g.has_lnk(#[trigger] p[k], p[k + 1])
}

/// Whether cell `b` can be reached from cell `a` by walking along links.
pub open spec fn connected(g: SqGrid, a: int, b: int) -> bool {
    exists|p: Seq<int>| is_link_path(g, p) && p.first() == a && p.last() == b
}

/// Every cell can reach itself.
pub proof fn lemma_connected_refl(g: SqGrid, a: int)
    requires
        g.valid(a),
    ensures
        connected(g, a, a),
{
    let p = seq![a];
    assert(is_link_path(g, p) && p.first() == a && p.last() == a);
}

/// Two linked cells can reach each other.
pub proof fn lemma_connected_step(g: SqGrid, a: int, b: int)
    requires
        g.wf(),
        g.has_lnk(a, b),
    ensures
        connected(g, a, b),
{
    g.lemma_lnk_valid(a, b);
    let p = seq![a, b];
    assert(is_link_path(g, p) && p.first() == a && p.last() == b);
}

/// Reachability is symmetric, because every link is.
pub proof fn lemma_connected_sym(g: SqGrid, a: int, b: int)
    requires
        g.wf(),
        connected(g, a, b),
    ensures
        connected(g, b, a),
{
    let p = choose|p: Seq<int>| is_link_path(g, p) && p.first() == a && p.last() == b;
    let n = p.len() as int;
    let q = Seq::new(p.len(), |i: int| p[n - 1 - i]);
    assert forall|k: int| 0 <= k < q.len() - 1 implies g.has_lnk(#[trigger] q[k], q[k + 1]) by {
        assert(g.has_lnk(p[n - 2 - k], p[n - 1 - k]));
    }
    assert(is_link_path(g, q) && q.first() == b && q.last() == a);
}

/// Reachability is transitive: two walks can be joined at their common cell.
pub proof fn lemma_connected_trans(g: SqGrid, a: int, b: int, c: int)
    requires
        connected(g, a, b),
        connected(g, b, c),
    ensures
        connected(g, a, c),
{
    let p1 = choose|p: Seq<int>| is_link_path(g, p) && p.first() == a && p.last() == b;
    let p2 = choose|p: Seq<int>| is_link_path(g, p) && p.first() == b && p.last() == c;
    let q = p1 + p2.drop_first();
    let n1 = p1.len() as int;
    assert forall|k: int| 0 <= k < q.len() - 1 implies g.has_lnk(#[trigger] q[k], q[k + 1]) by {
        if k < n1 - 1 {
            assert(q[k] == p1[k]);
            assert(q[k + 1] == p1[k + 1]);
        } else if k == n1 - 1 {
            assert(q[k] == p1[n1 - 1]);
            assert(q[k + 1] == p2[1]);
            assert(g.has_lnk(p2[0], p2[1]));
        } else {
            assert(q[k] == p2[k - n1 + 1]);
            assert(q[k + 1] == p2[k - n1 + 2]);
            assert(g.has_lnk(p2[k - n1 + 1], p2[k - n1 + 2]));
        }
    }
    assert forall|k: int| 0 <= k < q.len() implies g.valid(#[trigger] q[k]) by {
        if k < n1 {
            assert(q[k] == p1[k]);
        } else {
            assert(q[k] == p2[k - n1 + 1]);
        }
    }
    assert(is_link_path(g, q) && q.first() == a && q.last() == c);
}

/// A walk stays a walk in any grid of the same size that keeps every link.
pub proof fn lemma_connected_preserved(g1: SqGrid, g2: SqGrid, a: int, b: int)
    requires
        g1.spec_size() == g2.spec_size(),
        forall|x: int, y: int| g1.has_lnk(x, y) ==> #[trigger] g2.has_lnk(x, y),
        connected(g1, a, b),
    ensures
        connected(g2, a, b),
{
    let p = choose|p: Seq<int>| is_link_path(g1, p) && p.first() == a && p.last() == b;
    assert forall|k: int| 0 <= k < p.len() - 1 implies g2.has_lnk(#[trigger] p[k], p[k + 1]) by {
        assert(g1.has_lnk(p[k], p[k + 1]));
    }
    assert(is_link_path(g2, p) && p.first() == a && p.last() == b);
}

/// A cell that some other cell can reach has at least one link.
pub proof fn lemma_connected_endpoint_linked(g: SqGrid, a: int, b: int)
    requires
        g.wf(),
        connected(g, a, b),
        a != b,
    ensures
        g.linked(b),
{
    let p = choose|p: Seq<int>| is_link_path(g, p) && p.first() == a && p.last() == b;
    let n = p.len() as int;
    assert(n >= 2);
    assert(g.has_lnk(p[n - 2], p[n - 1]));
    assert(g.has_lnk(p[n - 1], p[n - 2]));
    assert(g.lnks(b).contains(p[n - 2]));
}

/// The sum of the link-set lengths of the cells below `n`.
pub open spec fn entries_up_to(g: SqGrid, n: int) -> int
    decreases n,
{
    if n <= 0 {
        0
    } else {
        entries_up_to(g, n - 1) + g.lnks(n - 1).len()
    }
}

/// The total number of link entries over all cells. Links come in symmetric
/// pairs, so a maze with `k` undirected passages has `2 * k` entries.
pub open spec fn entry_count(g: SqGrid) -> int {
    entries_up_to(g, g.spec_cap())
}

/// When exactly the link sets of two distinct cells each grow by one entry,
/// the count below `n` grows by one for each of them that lies below `n`.
pub proof fn lemma_entries_two_grew(g1: SqGrid, g2: SqGrid, a: int, b: int, n: int)
    requires
        a != b,
        forall|i: int| 0 <= i < n && i != a && i != b ==> g1.lnks(i) == #[trigger] g2.lnks(i),
        g2.lnks(a).len() == g1.lnks(a).len() + 1,
        g2.lnks(b).len() == g1.lnks(b).len() + 1,
    ensures
        entries_up_to(g2, n) == entries_up_to(g1, n) + (if 0 <= a < n {
            1int
        } else {
            0int
        }) + (if 0 <= b < n {
            1int
        } else {
            0int
        }),
    decreases n,
{
    if n > 0 {
        lemma_entries_two_grew(g1, g2, a, b, n - 1);
    }
}

/// A grid with no links at all counts zero entries below any bound.
pub proof fn lemma_entries_empty(g: SqGrid, n: int)
    requires
        forall|i: int| 0 <= i < n ==> (#[trigger] g.lnks(i)).len() == 0,
    ensures
        entries_up_to(g, n) == 0,
    decreases n,
{
    if n > 0 {
        lemma_entries_empty(g, n - 1);
    }
}

/// A perfect maze: every cell is reachable from cell `0`, and the number of
/// undirected passages is exactly one less than the number of cells, which
/// together make the link graph a spanning tree.
pub open spec fn spans(g: SqGrid) -> bool {
    &&& forall|c: int| g.valid(c) ==> #[trigger] connected(g, 0, c)
    &&& entry_count(g) == 2 * (g.spec_cap() - 1)
}

/// A subset of the cell indices that has as many elements as the grid has
/// cells is the whole index range.
pub proof fn lemma_full_index_set(cap: int, v: Set<int>)
    requires
        cap >= 0,
        v.finite(),
        forall|c: int| v.contains(c) ==> 0 <= c < cap,
        v.len() == cap,
    ensures
        forall|c: int| 0 <= c < cap ==> v.contains(c),
{
    let r = set_int_range(0, cap);
    lemma_int_range(0, cap);
    assert forall|c: int| 0 <= c < cap implies v.contains(c) by {
        if !v.contains(c) {
            assert(v.subset_of(r.remove(c)));
            lemma_int_range(0, cap);
            assert(r.remove(c).len() == cap - 1);
            lemma_len_subset(v, r.remove(c));
        }
    }
}

/// Whether a walk of exactly `n` links leads from `a` to `b`.
pub open spec fn has_dpath(g: SqGrid, a: int, b: int, n: int) -> bool {
    exists|p: Seq<int>|
        is_link_path(g, p) && p.first() == a && p.last() == b && p.len() == n + 1
}

/// Whether `n` is the least number of links of any walk from `a` to `b`.
pub open spec fn min_dist(g: SqGrid, a: int, b: int, n: int) -> bool {
    &&& has_dpath(g, a, b, n)
    &&& forall|m: int| 0 <= m < n ==> !has_dpath(g, a, b, m)
}

/// The trivial walk of no links.
pub proof fn lemma_dpath_refl(g: SqGrid, a: int)
    requires
        g.valid(a),
    ensures
        has_dpath(g, a, a, 0),
        min_dist(g, a, a, 0),
{
    let p = seq![a];
    assert(is_link_path(g, p) && p.first() == a && p.last() == a && p.len() == 1);
}

/// A walk of no links stays where it started.
pub proof fn lemma_dpath_zero(g: SqGrid, a: int, b: int)
    requires
        has_dpath(g, a, b, 0),
    ensures
        a == b,
{
}

/// One more link extends a walk by one step.
pub proof fn lemma_dpath_step(g: SqGrid, a: int, b: int, c: int, n: int)
    requires
        g.wf(),
        n >= 0,
        has_dpath(g, a, b, n),
        g.has_lnk(b, c),
    ensures
        has_dpath(g, a, c, n + 1),
{
    g.lemma_lnk_valid(b, c);
    let p = choose|p: Seq<int>|
        is_link_path(g, p) && p.first() == a && p.last() == b && p.len() == n + 1;
    let q = p.push(c);
    assert forall|k: int| 0 <= k < q.len() - 1 implies g.has_lnk(#[trigger] q[k], q[k + 1]) by {
        if k < p.len() - 1 {
            assert(q[k] == p[k]);
            assert(q[k + 1] == p[k + 1]);
            assert(g.has_lnk(p[k], p[k + 1]));
        } else {
            assert(q[k] == b);
            assert(q[k + 1] == c);
        }
    }
    assert forall|k: int| 0 <= k < q.len() implies g.valid(#[trigger] q[k]) by {
        if k < p.len() {
            assert(q[k] == p[k]);
        } else {
            assert(q[k] == c);
        }
    }
    assert(is_link_path(g, q) && q.first() == a && q.last() == c && q.len() == n + 2);
}

/// A walk of at least one link enters its goal from some linked predecessor.
pub proof fn lemma_dpath_decompose(g: SqGrid, a: int, b: int, n: int)
    requires
        g.wf(),
        n >= 1,
        has_dpath(g, a, b, n),
    ensures
        exists|b2: int| #[trigger] g.has_lnk(b2, b) && has_dpath(g, a, b2, n - 1),
{
    let p = choose|p: Seq<int>|
        is_link_path(g, p) && p.first() == a && p.last() == b && p.len() == n + 1;
    let q = p.drop_last();
    let b2 = p[n - 1];
    assert(g.has_lnk(p[n - 1], p[n]));
    assert forall|k: int| 0 <= k < q.len() - 1 implies g.has_lnk(#[trigger] q[k], q[k + 1]) by {
        assert(q[k] == p[k]);
        assert(q[k + 1] == p[k + 1]);
        assert(g.has_lnk(p[k], p[k + 1]));
    }
    assert forall|k: int| 0 <= k < q.len() implies g.valid(#[trigger] q[k]) by {
        assert(q[k] == p[k]);
    }
    assert(is_link_path(g, q) && q.first() == a && q.last() == b2 && q.len() == n);
    assert(has_dpath(g, a, b2, n - 1));
}

/// Reachability is exactly the existence of a walk of some length.
pub proof fn lemma_connected_iff_dpath(g: SqGrid, a: int, b: int)
    ensures
        connected(g, a, b) <==> exists|n: int| 0 <= n && #[trigger] has_dpath(g, a, b, n),
{
    if connected(g, a, b) {
        let p = choose|p: Seq<int>| is_link_path(g, p) && p.first() == a && p.last() == b;
        assert(has_dpath(g, a, b, p.len() - 1));
    }
    if exists|n: int| 0 <= n && #[trigger] has_dpath(g, a, b, n) {
        let n = choose|n: int| 0 <= n && #[trigger] has_dpath(g, a, b, n);
        let p = choose|p: Seq<int>|
            is_link_path(g, p) && p.first() == a && p.last() == b && p.len() == n + 1;
        assert(is_link_path(g, p) && p.first() == a && p.last() == b);
    }
}

} // verus!
