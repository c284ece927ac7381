//! The square grid: a flat arena of cells with geometric adjacency fixed at
//! construction and a symmetric link relation mutated only through the paired
//! `link` and `unlink` operations.

use vstd::prelude::*;
use crate::capacity::Capacity;
use crate::cell::{clone_ids, contains_id, idxs, lemma_idxs_contains, position_of, SqCell};
use crate::index::Index;
use crate::row_size::{ColSize, RowSize};
use crate::cardinal::{Cardinal, CardinalIter};
use crate::ordinal::Ordinal;
use crate::coord::Coord;
use crate::error::{CellLinkError, NotNeighborsError, OutOfBoundsCoordError, OutOfBoundsError};
use crate::rng::RandSource;
use vstd::arithmetic::div_mod::{
    lemma_fundamental_div_mod, lemma_fundamental_div_mod_converse, lemma_mod_bound,
};

verus! {

/// Whether cells `i` and `b` are geometric neighbors in a square grid of side
/// `s` laid out in row-major order.
pub open spec fn spec_adjacent(s: int, i: int, b: int) -> bool {
    ||| (i >= s && b == i - s)  // north
    ||| (i % s != s - 1 && b == i + 1)  // east
    ||| (i / s != s - 1 && b == i + s)  // south
    ||| (i % s != 0 && b == i - 1)  // west
}

/// The neighbor list of cell `i` in a square grid of side `s`: the geometric
/// neighbors in north, east, south, west order.
pub open spec fn expected_nbrs(s: int, i: int) -> Seq<int> {
    (if i >= s {
        seq![i - s]
    } else {
        Seq::<int>::empty()
    }) + (if i % s != s - 1 {
        seq![i + 1]
    } else {
        Seq::<int>::empty()
    }) + (if i / s != s - 1 {
        seq![i + s]
    } else {
        Seq::<int>::empty()
    }) + (if i % s != 0 {
        seq![i - 1]
    } else {
        Seq::<int>::empty()
    })
}

/// A valid cell index decomposes into a row `i / s` and a column `i % s`,
/// both inside the grid.
pub proof fn lemma_cell_coords(s: int, i: int)
    requires
        s >= 1,
        0 <= i < s * s,
    ensures
        i == s * (i / s) + i % s,
        0 <= i % s < s,
        0 <= i / s < s,
{
    lemma_fundamental_div_mod(i, s);
    lemma_mod_bound(i, s);
    assert(0 <= i / s && i / s < s) by (nonlinear_arith)
        requires
            s >= 1,
            0 <= i < s * s,
            i == s * (i / s) + i % s,
            0 <= i % s < s,
    ;
}

/// Moving one step east from a cell that is not on the east boundary stays in
/// the same row.
pub proof fn lemma_step_east(s: int, i: int)
    requires
        s >= 1,
        0 <= i < s * s,
        i % s != s - 1,
    ensures
        (i + 1) / s == i / s,
        (i + 1) % s == i % s + 1,
        i + 1 < s * s,
{
    lemma_cell_coords(s, i);
    assert(i + 1 == (i / s) * s + (i % s + 1)) by (nonlinear_arith)
        requires
            i == s * (i / s) + i % s,
    ;
    lemma_fundamental_div_mod_converse(i + 1, s, i / s, i % s + 1);
    assert(i + 1 < s * s) by (nonlinear_arith)
        requires
            s >= 1,
            i == s * (i / s) + i % s,
            i % s < s - 1,
            0 <= i / s < s,
    ;
}

/// Moving one step south from a cell that is not on the south boundary moves
/// to the next row, same column.
pub proof fn lemma_step_south(s: int, i: int)
    requires
        s >= 1,
        0 <= i < s * s,
        i / s != s - 1,
    ensures
        (i + s) / s == i / s + 1,
        (i + s) % s == i % s,
        i + s < s * s,
{
    lemma_cell_coords(s, i);
    assert(i + s == (i / s + 1) * s + i % s) by (nonlinear_arith)
        requires
            i == s * (i / s) + i % s,
    ;
    lemma_fundamental_div_mod_converse(i + s, s, i / s + 1, i % s);
    assert(i + s < s * s) by (nonlinear_arith)
        requires
            s >= 1,
            i == s * (i / s) + i % s,
            0 <= i % s < s,
            0 <= i / s < s - 1,
    ;
}

/// Geometric adjacency stays inside the grid, never relates a cell to itself,
/// and is symmetric.
pub proof fn lemma_adjacent_sym(s: int, i: int, b: int)
    requires
        s >= 1,
        0 <= i < s * s,
        spec_adjacent(s, i, b),
    ensures
        0 <= b < s * s,
        b != i,
        spec_adjacent(s, b, i),
{
    lemma_cell_coords(s, i);
    if i >= s && b == i - s {
        // north: from b, cell i lies to the south
        assert(i >= s ==> i / s >= 1) by (nonlinear_arith)
            requires
                s >= 1,
                i == s * (i / s) + i % s,
                0 <= i % s < s,
                0 <= i / s,
        ;
        assert(b == s * (i / s - 1) + i % s) by (nonlinear_arith)
            requires
                i == s * (i / s) + i % s,
                b == i - s,
        ;
        lemma_fundamental_div_mod_converse(b, s, i / s - 1, i % s);
        assert(b / s == i / s - 1);
        assert(b / s != s - 1);
    } else if i % s != s - 1 && b == i + 1 {
        // east: from b, cell i lies to the west
        lemma_step_east(s, i);
        assert(b % s == i % s + 1);
        assert(b % s != 0);
    } else if i / s != s - 1 && b == i + s {
        // south: from b, cell i lies to the north
        lemma_step_south(s, i);
        assert(b >= s) by (nonlinear_arith)
            requires
                s >= 1,
                b == i + s,
                i >= 0,
        ;
    } else {
        // west: from b, cell i lies to the east
        assert(i % s != 0 && b == i - 1);
        assert(b == s * (i / s) + (i % s - 1)) by (nonlinear_arith)
            requires
                i == s * (i / s) + i % s,
                b == i - 1,
        ;
        lemma_fundamental_div_mod_converse(b, s, i / s, i % s - 1);
        assert(b % s == i % s - 1);
        assert(b % s != s - 1);
    }
}

/// The neighbor list of a valid cell holds exactly its geometric neighbors.
pub proof fn lemma_expected_nbrs_elems(s: int, i: int)
    requires
        s >= 1,
        0 <= i < s * s,
    ensures
        forall|b: int| expected_nbrs(s, i).contains(b) <==> spec_adjacent(s, i, b),
{
    let e = expected_nbrs(s, i);
    assert forall|b: int| e.contains(b) <==> spec_adjacent(s, i, b) by {
        let north = (if i >= s {
            seq![i - s]
        } else {
            Seq::<int>::empty()
        });
        let east = (if i % s != s - 1 {
            seq![i + 1]
        } else {
            Seq::<int>::empty()
        });
        let south = (if i / s != s - 1 {
            seq![i + s]
        } else {
            Seq::<int>::empty()
        });
        let west = (if i % s != 0 {
            seq![i - 1]
        } else {
            Seq::<int>::empty()
        });
        assert(e == north + east + south + west);
        if spec_adjacent(s, i, b) {
            if i >= s && b == i - s {
                assert(e[0] == b);
            } else if i % s != s - 1 && b == i + 1 {
                assert(e[north.len() as int] == b);
            } else if i / s != s - 1 && b == i + s {
                assert(e[north.len() + east.len() as int] == b);
            } else {
                assert(e[north.len() + east.len() + south.len() as int] == b);
            }
            assert(e.contains(b));
        }
        if e.contains(b) {
            let k = choose|k: int| 0 <= k < e.len() && e[k] == b;
            assert(spec_adjacent(s, i, b));
        }
    }
}

/// A square grid: a side length and a flat, row-major vector of cells.
#[derive(Debug)]
pub struct SqGrid {
    pub size: RowSize,
    pub cells: Vec<SqCell>,
}

impl SqGrid {
    /// The side length, in contracts.
    pub open spec fn spec_size(&self) -> int {
        self.size.0 as int
    }

    /// The cell count, in contracts.
    pub open spec fn spec_cap(&self) -> int {
        self.spec_size() * self.spec_size()
    }

    /// Whether `i` is a valid cell index.
    pub open spec fn valid(&self, i: int) -> bool {
        0 <= i < self.spec_cap()
    }

    /// The link set of cell `i`, as plain numbers.
    pub open spec fn lnks(&self, i: int) -> Seq<int> {
        idxs(self.cells@[i].links@)
    }

    /// The neighbor list of cell `i`, as plain numbers.
    pub open spec fn nbrs(&self, i: int) -> Seq<int> {
        idxs(self.cells@[i].neighbors@)
    }

    /// Whether cell `a` has cell `b` in its link set.
    pub open spec fn has_lnk(&self, a: int, b: int) -> bool {
        self.valid(a) && self.lnks(a).contains(b)
    }

    /// Whether cell `b` is a geometric neighbor of cell `a`.
    pub open spec fn is_nbr(&self, a: int, b: int) -> bool {
        self.valid(a) && self.nbrs(a).contains(b)
    }

    /// Whether cell `i` is linked to at least one neighbor.
    pub open spec fn linked(&self, i: int) -> bool {
        self.lnks(i).len() > 0
    }

    /// The link set of cell `i` holds only geometric neighbors, without
    /// duplicates.
    pub open spec fn links_ok(&self, i: int) -> bool {
        &&& forall|k: int|
            0 <= k < self.lnks(i).len() ==> self.is_nbr(i, #[trigger] self.lnks(i)[k])
        &&& forall|k1: int, k2: int|
            0 <= k1 < k2 < self.lnks(i).len() ==> self.lnks(i)[k1] != self.lnks(i)[k2]
    }

    /// Well-formedness: the arena holds one cell per index, carrying its own
    /// index and exactly its geometric neighbors; links join only neighbors,
    /// hold no duplicates, and always come in symmetric pairs.
    pub open spec fn wf(&self) -> bool {
        &&& 1 <= self.spec_size()
        &&& self.spec_cap() <= usize::MAX
        &&& self.cells@.len() == self.spec_cap()
        &&& forall|i: int| self.valid(i) ==> (#[trigger] self.cells@[i].id).0 == i
        &&& forall|i: int|
            self.valid(i) ==> #[trigger] self.nbrs(i) == expected_nbrs(self.spec_size(), i)
        &&& forall|i: int| self.valid(i) ==> #[trigger] self.links_ok(i)
        &&& forall|a: int, b: int|
            #[trigger] self.has_lnk(a, b) <==> #[trigger] self.has_lnk(b, a)
    }

    /// In a well-formed grid, neighbor membership coincides with geometric
    /// adjacency, which keeps both endpoints valid and distinct.
    pub proof fn lemma_nbr_adjacent(&self, i: int)
        requires
            self.wf(),
            self.valid(i),
        ensures
            forall|b: int|
                #![trigger self.is_nbr(i, b)]
                self.is_nbr(i, b) <==> spec_adjacent(self.spec_size(), i, b),
            forall|b: int|
                #![trigger self.is_nbr(i, b)]
                self.is_nbr(i, b) ==> self.valid(b) && b != i && self.is_nbr(b, i),
    {
        let s = self.spec_size();
        lemma_expected_nbrs_elems(s, i);
        assert forall|b: int| self.is_nbr(i, b) implies self.valid(b) && b != i && self.is_nbr(
            b,
            i,
        ) by {
            lemma_adjacent_sym(s, i, b);
            lemma_expected_nbrs_elems(s, b);
        }
    }

    /// In a well-formed grid, links join only valid, distinct neighbor pairs.
    pub proof fn lemma_lnk_valid(&self, a: int, b: int)
        requires
            self.wf(),
            self.has_lnk(a, b),
        ensures
            self.valid(a),
            self.valid(b),
            a != b,
            self.is_nbr(a, b),
    {
        assert(self.links_ok(a));
        let k = choose|k: int| 0 <= k < self.lnks(a).len() && self.lnks(a)[k] == b;
        assert(self.is_nbr(a, self.lnks(a)[k]));
        self.lemma_nbr_adjacent(a);
    }
}

/// The neighbor of cell `i` in the given direction, if the grid does not end
/// there, in contracts.
pub open spec fn spec_calc_dir(s: int, i: int, dir: Cardinal) -> Option<int> {
    match dir {
        Cardinal::N => if i >= s {
            Some(i - s)
        } else {
            None
        },
        Cardinal::E => if i % s != s - 1 {
            Some(i + 1)
        } else {
            None
        },
        Cardinal::S => if i / s != s - 1 {
            Some(i + s)
        } else {
            None
        },
        Cardinal::W => if i % s != 0 {
            Some(i - 1)
        } else {
            None
        },
    }
}

impl SqGrid {
    /// The side length of a row.
    pub fn row_size(&self) -> (r: RowSize)
        ensures
            r == self.size,
    {
        self.size
    }

    /// The side length of a column; equal to the row size on a square grid.
    pub fn col_size(&self) -> (r: ColSize)
        ensures
            r == self.size,
    {
        self.size
    }

    /// The row and column sizes together.
    pub fn dimensions(&self) -> (r: (RowSize, ColSize))
        ensures
            r.0 == self.size,
            r.1 == self.size,
    {
        (self.size, self.size)
    }

    /// The total number of cells.
    pub fn capacity(&self) -> (r: Capacity)
        requires
            self.spec_cap() <= usize::MAX,
        ensures
            r.0 == self.spec_cap(),
    {
        Capacity(self.size.0 * self.size.0)
    }

    /// Whether the cell lies on the north edge of the grid.
    pub fn has_boundary_north(&self, id: Index) -> (r: bool)
        ensures
            r == (id.0 < self.size.0),
    {
        id.0 < self.size.0
    }

    /// Whether the cell lies on the east edge of the grid.
    pub fn has_boundary_east(&self, id: Index) -> (r: bool)
        requires
            self.size.0 >= 1,
        ensures
            r == ((id.0 as int) % self.spec_size() == self.spec_size() - 1),
    {
        id.0 % self.size.0 == self.size.0 - 1
    }

    /// Whether the cell lies on the south edge of the grid.
    pub fn has_boundary_south(&self, id: Index) -> (r: bool)
        requires
            self.size.0 >= 1,
        ensures
            r == ((id.0 as int) / self.spec_size() == self.spec_size() - 1),
    {
        id.0 / self.size.0 == self.size.0 - 1
    }

    /// Whether the cell lies on the west edge of the grid.
    pub fn has_boundary_west(&self, id: Index) -> (r: bool)
        requires
            self.size.0 >= 1,
        ensures
            r == ((id.0 as int) % self.spec_size() == 0),
    {
        id.0 % self.size.0 == 0
    }

    /// Whether the cell lies on the grid edge in the given direction.
    pub fn has_boundary(&self, id: Index, dir: Cardinal) -> (r: bool)
        requires
            self.size.0 >= 1,
        ensures
            r == (spec_calc_dir(self.spec_size(), id.0 as int, dir) is None),
    {
        match dir {
            Cardinal::N => self.has_boundary_north(id),
            Cardinal::E => self.has_boundary_east(id),
            Cardinal::S => self.has_boundary_south(id),
            Cardinal::W => self.has_boundary_west(id),
        }
    }

    /// The index of the cell to the north, unless the cell is on the north
    /// edge.
    pub fn calc_north(&self, id: Index) -> (r: Option<Index>)
        requires
            self.size.0 >= 1,
        ensures
            r is Some <==> spec_calc_dir(self.spec_size(), id.0 as int, Cardinal::N) is Some,
            r matches Some(n) ==> Some(n.0 as int) == spec_calc_dir(
                self.spec_size(),
                id.0 as int,
                Cardinal::N,
            ),
    {
        if self.has_boundary_north(id) {
            None
        } else {
            Some(Index(id.0 - self.size.0))
        }
    }

    /// The index of the cell to the east, unless the cell is on the east edge.
    pub fn calc_east(&self, id: Index) -> (r: Option<Index>)
        requires
            self.size.0 >= 1,
            id.0 < self.spec_cap(),
            self.spec_cap() <= usize::MAX,
        ensures
            r is Some <==> spec_calc_dir(self.spec_size(), id.0 as int, Cardinal::E) is Some,
            r matches Some(n) ==> Some(n.0 as int) == spec_calc_dir(
                self.spec_size(),
                id.0 as int,
                Cardinal::E,
            ),
    {
        if self.has_boundary_east(id) {
            None
        } else {
            proof {
                lemma_step_east(self.spec_size(), id.0 as int);
            }
            Some(Index(id.0 + 1))
        }
    }

    /// The index of the cell to the south, unless the cell is on the south
    /// edge.
    pub fn calc_south(&self, id: Index) -> (r: Option<Index>)
        requires
            self.size.0 >= 1,
            id.0 < self.spec_cap(),
            self.spec_cap() <= usize::MAX,
        ensures
            r is Some <==> spec_calc_dir(self.spec_size(), id.0 as int, Cardinal::S) is Some,
            r matches Some(n) ==> Some(n.0 as int) == spec_calc_dir(
                self.spec_size(),
                id.0 as int,
                Cardinal::S,
            ),
    {
        if self.has_boundary_south(id) {
            None
        } else {
            proof {
                lemma_step_south(self.spec_size(), id.0 as int);
            }
            Some(Index(id.0 + self.size.0))
        }
    }

    /// The index of the cell to the west, unless the cell is on the west edge.
    pub fn calc_west(&self, id: Index) -> (r: Option<Index>)
        requires
            self.size.0 >= 1,
        ensures
            r is Some <==> spec_calc_dir(self.spec_size(), id.0 as int, Cardinal::W) is Some,
            r matches Some(n) ==> Some(n.0 as int) == spec_calc_dir(
                self.spec_size(),
                id.0 as int,
                Cardinal::W,
            ),
    {
        if self.has_boundary_west(id) {
            None
        } else {
            proof {
                vstd::arithmetic::div_mod::lemma_small_mod(0nat, self.size.0 as nat);
                assert(id.0 >= 1);
            }
            Some(Index(id.0 - 1))
        }
    }

    /// The index of the neighboring cell in the given direction, unless the
    /// grid ends there.
    pub fn calc_dir(&self, id: Index, dir: &Cardinal) -> (r: Option<Index>)
        requires
            self.size.0 >= 1,
            id.0 < self.spec_cap(),
            self.spec_cap() <= usize::MAX,
        ensures
            r is Some <==> spec_calc_dir(self.spec_size(), id.0 as int, *dir) is Some,
            r matches Some(n) ==> Some(n.0 as int) == spec_calc_dir(
                self.spec_size(),
                id.0 as int,
                *dir,
            ),
    {
        match dir {
            Cardinal::N => self.calc_north(id),
            Cardinal::E => self.calc_east(id),
            Cardinal::S => self.calc_south(id),
            Cardinal::W => self.calc_west(id),
        }
    }

    /// The index of the neighboring cell in the given direction, unless the
    /// grid ends there.
    pub fn neighbor(&self, id: Index, d: &Cardinal) -> (r: Option<Index>)
        requires
            self.size.0 >= 1,
            id.0 < self.spec_cap(),
            self.spec_cap() <= usize::MAX,
        ensures
            r is Some <==> spec_calc_dir(self.spec_size(), id.0 as int, *d) is Some,
            r matches Some(n) ==> Some(n.0 as int) == spec_calc_dir(
                self.spec_size(),
                id.0 as int,
                *d,
            ),
    {
        self.calc_dir(id, d)
    }

    /// The index of the cell in the given corner of the grid.
    pub fn corner_id(&self, dir: Ordinal) -> (r: Index)
        requires
            self.size.0 >= 1,
            self.spec_cap() <= usize::MAX,
        ensures
            dir == Ordinal::Nw ==> r.0 == 0,
            dir == Ordinal::Ne ==> r.0 == self.spec_size() - 1,
            dir == Ordinal::Se ==> r.0 == self.spec_cap() - 1,
            dir == Ordinal::Sw ==> r.0 == self.spec_cap() - self.spec_size(),
    {
        proof {
            assert(self.size.0 <= self.spec_cap()) by (nonlinear_arith)
                requires
                    self.size.0 >= 1,
                    self.spec_cap() == self.spec_size() * self.spec_size(),
                    self.spec_size() == self.size.0 as int,
            ;
        }
        match dir {
            Ordinal::Nw => Index(0),
            Ordinal::Ne => Index(self.size.0 - 1),
            Ordinal::Se => Index(self.size.0 * self.size.0 - 1),
            Ordinal::Sw => Index(self.size.0 * self.size.0 - self.size.0),
        }
    }

    /// A freshly constructed grid of the given side length: every cell carries
    /// its geometric neighbor list and no links at all.
    pub fn new(size: usize) -> (r: SqGrid)
        requires
            1 <= size,
            size * size <= usize::MAX,
        ensures
            r.wf(),
            r.spec_size() == size,
            forall|i: int| r.valid(i) ==> (#[trigger] r.lnks(i)).len() == 0,
    {
        let cap = size * size;
        let mut cells: Vec<SqCell> = Vec::new();
        let mut i: usize = 0;
        while i < cap
            invariant
                i <= cap,
                cap == size * size,
                1 <= size,
                cap <= usize::MAX,
                cells@.len() == i,
                forall|j: int| 0 <= j < i ==> (#[trigger] cells@[j]).id.0 == j,
                forall|j: int|
                    0 <= j < i ==> idxs((#[trigger] cells@[j]).neighbors@) == expected_nbrs(
                        size as int,
                        j,
                    ),
                forall|j: int| 0 <= j < i ==> (#[trigger] cells@[j]).links@.len() == 0,
            decreases cap - i,
        {
            let ghost si = size as int;
            let ghost ii = i as int;
            let ghost north = if ii >= si {
                seq![ii - si]
            } else {
                Seq::<int>::empty()
            };
            let ghost east = if ii % si != si - 1 {
                seq![ii + 1]
            } else {
                Seq::<int>::empty()
            };
            let ghost south = if ii / si != si - 1 {
                seq![ii + si]
            } else {
                Seq::<int>::empty()
            };
            let ghost west = if ii % si != 0 {
                seq![ii - 1]
            } else {
                Seq::<int>::empty()
            };
            let mut nb: Vec<Index> = Vec::new();
            if i >= size {
                nb.push(Index(i - size));
            }
            proof {
                assert(idxs(nb@) =~= north);
            }
            if !(i % size == size - 1) {
                nb.push(Index(i + 1));
            }
            proof {
                assert(idxs(nb@) =~= north + east);
            }
            if !(i / size == size - 1) {
                proof {
                    lemma_step_south(si, ii);
                }
                nb.push(Index(i + size));
            }
            proof {
                assert(idxs(nb@) =~= north + east + south);
            }
            if !(i % size == 0) {
                proof {
                    vstd::arithmetic::div_mod::lemma_small_mod(0nat, size as nat);
                    assert(i >= 1);
                }
                nb.push(Index(i - 1));
            }
            proof {
                assert(idxs(nb@) =~= north + east + south + west);
                assert(idxs(nb@) == expected_nbrs(si, ii));
            }
            cells.push(SqCell::new(Index(i), nb));
            i = i + 1;
        }
        let g = SqGrid { size: RowSize(size), cells };
        proof {
            assert forall|a: int, b: int| #[trigger]
                g.has_lnk(a, b) <==> #[trigger] g.has_lnk(b, a) by {
                if g.valid(a) {
                    assert(g.lnks(a).len() == 0);
                }
                if g.valid(b) {
                    assert(g.lnks(b).len() == 0);
                }
            }
            assert forall|i: int| g.valid(i) implies #[trigger] g.links_ok(i) by {
                assert(g.lnks(i).len() == 0);
            }
            assert(g.wf());
        }
        g
    }

    /// A freshly constructed, fully-unlinked grid; the entry point the
    /// generation algorithms use.
    pub fn setup(size: usize) -> (r: SqGrid)
        requires
            1 <= size,
            size * size <= usize::MAX,
        ensures
            r.wf(),
            r.spec_size() == size,
            forall|i: int| r.valid(i) ==> (#[trigger] r.lnks(i)).len() == 0,
    {
        Self::new(size)
    }

    /// The cell arena itself, in storage order.
    pub fn cells(&self) -> (r: &Vec<SqCell>)
        ensures
            r == &self.cells,
    {
        &self.cells
    }

    /// The cell with the given index; the caller guarantees the index is in
    /// bounds.
    pub fn lookup(&self, id: Index) -> (r: &SqCell)
        requires
            self.wf(),
            id.0 < self.spec_cap(),
        ensures
            *r == self.cells@[id.0 as int],
    {
        &self.cells[id.0]
    }

    /// The cell with the given index, or an error if the index is out of
    /// bounds.
    pub fn try_lookup(&self, id: Index) -> (r: Result<&SqCell, OutOfBoundsError>)
        requires
            self.wf(),
        ensures
            r is Ok <==> id.0 < self.spec_cap(),
            r matches Ok(c) ==> *c == self.cells@[id.0 as int],
            r matches Err(e) ==> e.0 == id,
    {
        if id.0 < self.cells.len() {
            Ok(&self.cells[id.0])
        } else {
            Err(OutOfBoundsError::new(id))
        }
    }

    /// The cell with the given index, or `None` if the index is out of
    /// bounds.
    pub fn get(&self, id: Index) -> (r: Option<&SqCell>)
        requires
            self.wf(),
        ensures
            r is Some <==> id.0 < self.spec_cap(),
            r matches Some(c) ==> *c == self.cells@[id.0 as int],
    {
        if id.0 < self.cells.len() {
            Some(&self.cells[id.0])
        } else {
            None
        }
    }

    /// The cell with the given index; the caller guarantees the index is in
    /// bounds.
    pub fn get_unchecked(&self, id: Index) -> (r: &SqCell)
        requires
            self.wf(),
            id.0 < self.spec_cap(),
        ensures
            *r == self.cells@[id.0 as int],
    {
        self.lookup(id)
    }

    /// The first cell in storage order.
    pub fn first(&self) -> (r: &SqCell)
        requires
            self.wf(),
        ensures
            *r == self.cells@[0],
    {
        proof {
            assert(self.spec_cap() >= 1) by (nonlinear_arith)
                requires
                    self.spec_size() >= 1,
                    self.spec_cap() == self.spec_size() * self.spec_size(),
            ;
        }
        &self.cells[0]
    }

    /// The last cell in storage order.
    pub fn last(&self) -> (r: &SqCell)
        requires
            self.wf(),
        ensures
            *r == self.cells@[self.spec_cap() - 1],
    {
        proof {
            assert(self.spec_cap() >= 1) by (nonlinear_arith)
                requires
                    self.spec_size() >= 1,
                    self.spec_cap() == self.spec_size() * self.spec_size(),
            ;
        }
        &self.cells[self.cells.len() - 1]
    }

    /// The cell at the given position in storage order; the caller guarantees
    /// the position is in bounds.
    pub fn nth(&self, n: Index) -> (r: &SqCell)
        requires
            self.wf(),
            n.0 < self.spec_cap(),
        ensures
            *r == self.cells@[n.0 as int],
    {
        &self.cells[n.0]
    }
}


/// Appending one element to a sequence adds exactly that element to its
/// membership.
pub proof fn lemma_push_contains(s: Seq<int>, v: int, w: int)
    ensures
        s.push(v).contains(w) <==> (s.contains(w) || w == v),
{
    if s.push(v).contains(w) {
        let k = choose|k: int| 0 <= k < s.push(v).len() && s.push(v)[k] == w;
        if k < s.len() {
            assert(s[k] == w);
        }
    }
    if s.contains(w) {
        let k = choose|k: int| 0 <= k < s.len() && s[k] == w;
        assert(s.push(v)[k] == w);
    }
    if w == v {
        assert(s.push(v)[s.len() as int] == w);
    }
}

/// Removing the only occurrence of a value removes exactly that value from
/// the sequence's membership.
pub proof fn lemma_remove_unique(s: Seq<int>, p: int, v: int)
    requires
        0 <= p < s.len(),
        s[p] == v,
        forall|j: int| 0 <= j < s.len() && j != p ==> s[j] != v,
    ensures
        forall|t: int| s.remove(p).contains(t) <==> (s.contains(t) && t != v),
{
    let r = s.remove(p);
    assert forall|t: int| r.contains(t) <==> (s.contains(t) && t != v) by {
        if r.contains(t) {
            let k = choose|k: int| 0 <= k < r.len() && r[k] == t;
            if k < p {
                assert(s[k] == t);
            } else {
                assert(s[k + 1] == t);
            }
            assert(s.contains(t));
            assert(t != v);
        }
        if s.contains(t) && t != v {
            let k = choose|k: int| 0 <= k < s.len() && s[k] == t;
            if k < p {
                assert(r[k] == t);
            } else {
                assert(k > p);
                assert(r[k - 1] == t);
            }
            assert(r.contains(t));
        }
    }
}

impl SqGrid {
    /// Two grids with the same shape: equal side length and, cell for cell,
    /// the same identity and the same geometric neighbor list. Only the link
    /// sets may differ.
    pub open spec fn same_structure(&self, other: &SqGrid) -> bool {
        &&& self.size == other.size
        &&& self.cells@.len() == other.cells@.len()
        &&& forall|i: int|
            0 <= i < self.cells@.len() ==> (#[trigger] self.cells@[i]).id == other.cells@[i].id
                && self.cells@[i].neighbors@ == other.cells@[i].neighbors@
    }

    /// Removes the entry `y` from cell `x`'s link set, if present; the other
    /// side of the pair is untouched.
    fn strip_link(&mut self, x: Index, y: Index)
        requires
            x.0 < old(self).cells@.len(),
            forall|k1: int, k2: int|
                0 <= k1 < k2 < old(self).lnks(x.0 as int).len() ==> old(self).lnks(x.0 as int)[k1]
                    != old(self).lnks(x.0 as int)[k2],
        ensures
            final(self).size == old(self).size,
            final(self).cells@.len() == old(self).cells@.len(),
            forall|i: int|
                0 <= i < old(self).cells@.len() && i != x.0 as int ==> final(self).cells@[i] == old(self).cells@[i],
            final(self).cells@[x.0 as int].id == old(self).cells@[x.0 as int].id,
            final(self).cells@[x.0 as int].neighbors@ == old(self).cells@[x.0 as int].neighbors@,
            forall|t: int|
                final(self).lnks(x.0 as int).contains(t) <==> (old(self).lnks(x.0 as int).contains(
                    t,
                ) && t != y.0 as int),
            final(self).lnks(x.0 as int).len() == old(self).lnks(x.0 as int).len() - (if old(self).lnks(x.0 as int).contains(y.0 as int) {
                1int
            } else {
                0int
            }),
            !old(self).lnks(x.0 as int).contains(y.0 as int) ==> *final(self) == *old(self),
            forall|k1: int, k2: int|
                0 <= k1 < k2 < final(self).lnks(x.0 as int).len() ==> final(self).lnks(
                    x.0 as int,
                )[k1] != final(self).lnks(x.0 as int)[k2],
    {
        let ghost s0 = self.lnks(x.0 as int);
        proof {
            lemma_idxs_contains(self.cells@[x.0 as int].links@, y.0 as int);
        }
        match position_of(&self.cells[x.0].links, y) {
            Some(p) => {
                let mut nl = clone_ids(&self.cells[x.0].links);
                nl.remove(p);
                let id_x = self.cells[x.0].id;
                let nbrs_x = clone_ids(&self.cells[x.0].neighbors);
                let newcell = SqCell { id: id_x, links: nl, neighbors: nbrs_x };
                self.cells.set(x.0, newcell);
                proof {
                    assert(self.lnks(x.0 as int) =~= s0.remove(p as int));
                    assert(s0[p as int] == y.0 as int);
                    assert forall|j: int|
                        0 <= j < s0.len() && j != p as int implies s0[j] != y.0 as int by {
                        if j < p as int {
                            assert(old(self).cells@[x.0 as int].links@[j].0 != y.0);
                        }
                    }
                    lemma_remove_unique(s0, p as int, y.0 as int);
                    assert(s0.contains(y.0 as int));
                }
            },
            None => {
                proof {
                    assert(!s0.contains(y.0 as int));
                }
            },
        }
    }

    /// Inserts `b` into cell `a`'s link set and `a` into cell `b`'s link set,
    /// the only legal way to carve a passage. Fails, leaving the grid
    /// unchanged, when either id cannot be resolved. The link relation is a
    /// symmetric set: linking an already linked pair leaves it linked once.
    /// Callers must only link geometric neighbors; the generation algorithms
    /// draw their pairs from `neighbor_ids`, which guarantees this.
    pub fn link(&mut self, a: Index, b: Index) -> (r: Result<(), CellLinkError>)
        requires
            old(self).wf(),
            a.0 < old(self).spec_cap() && b.0 < old(self).spec_cap() ==> old(self).is_nbr(
                a.0 as int,
                b.0 as int,
            ),
        ensures
            final(self).wf(),
            final(self).same_structure(&*old(self)),
            r is Ok <==> (a.0 < old(self).spec_cap() && b.0 < old(self).spec_cap()),
            r is Err ==> *final(self) == *old(self),
            r matches Err(e) ==> e.a == a && e.b == b,
            r is Ok ==> final(self).lnks(a.0 as int) == (if old(self).has_lnk(
                a.0 as int,
                b.0 as int,
            ) {
                old(self).lnks(a.0 as int)
            } else {
                old(self).lnks(a.0 as int).push(b.0 as int)
            }),
            r is Ok ==> final(self).lnks(b.0 as int) == (if old(self).has_lnk(
                b.0 as int,
                a.0 as int,
            ) {
                old(self).lnks(b.0 as int)
            } else {
                old(self).lnks(b.0 as int).push(a.0 as int)
            }),
            r is Ok ==> forall|i: int|
                old(self).valid(i) && i != a.0 as int && i != b.0 as int ==> #[trigger] final(self).lnks(i) == old(self).lnks(i),
            r is Ok ==> final(self).has_lnk(a.0 as int, b.0 as int),
            forall|x: int, y: int|
                old(self).has_lnk(x, y) ==> #[trigger] final(self).has_lnk(x, y),
    {
        let cap = self.size.0 * self.size.0;
        if a.0 >= cap || b.0 >= cap {
            return Err(CellLinkError::new(a, b, "link failed: a cell could not be retrieved"));
        }
        let ghost g0 = *self;
        let ghost ai = a.0 as int;
        let ghost bi = b.0 as int;
        proof {
            g0.lemma_nbr_adjacent(ai);
            assert(a.0 != b.0);
        }
        let already = contains_id(&self.cells[a.0].links, b);
        proof {
            assert(already == g0.has_lnk(ai, bi));
            assert(g0.has_lnk(ai, bi) <==> g0.has_lnk(bi, ai));
        }
        if !already {
            let mut nl = clone_ids(&self.cells[a.0].links);
            nl.push(b);
            let id_a = self.cells[a.0].id;
            let nbrs_a = clone_ids(&self.cells[a.0].neighbors);
            self.cells.set(a.0, SqCell { id: id_a, links: nl, neighbors: nbrs_a });
            let mut nl2 = clone_ids(&self.cells[b.0].links);
            nl2.push(a);
            let id_b = self.cells[b.0].id;
            let nbrs_b = clone_ids(&self.cells[b.0].neighbors);
            self.cells.set(b.0, SqCell { id: id_b, links: nl2, neighbors: nbrs_b });
            proof {
                assert(self.lnks(ai) =~= g0.lnks(ai).push(bi));
                assert(self.lnks(bi) =~= g0.lnks(bi).push(ai));
                self.lemma_link_wf_after(g0, ai, bi);
            }
        } else {
            proof {
                assert(*self == g0);
            }
        }
        proof {
            if !already {
                lemma_push_contains(g0.lnks(ai), bi, bi);
                assert(self.lnks(ai).contains(bi));
            }
            assert(self.has_lnk(ai, bi));
            assert forall|x: int, y: int|
                g0.has_lnk(x, y) implies #[trigger] self.has_lnk(x, y) by {
                if !already {
                    if x == ai {
                        lemma_push_contains(g0.lnks(ai), bi, y);
                    } else if x == bi {
                        lemma_push_contains(g0.lnks(bi), ai, y);
                    } else {
                        assert(self.cells@[x] == g0.cells@[x]);
                    }
                }
            }
        }
        Ok(())
    }

    /// Re-establishes well-formedness after a fresh pair has been pushed onto
    /// both sides of a link.
    proof fn lemma_link_wf_after(&self, g0: SqGrid, ai: int, bi: int)
        requires
            g0.wf(),
            g0.valid(ai),
            g0.valid(bi),
            g0.is_nbr(ai, bi),
            ai != bi,
            !g0.has_lnk(ai, bi),
            !g0.has_lnk(bi, ai),
            self.size == g0.size,
            self.cells@.len() == g0.cells@.len(),
            self.lnks(ai) == g0.lnks(ai).push(bi),
            self.lnks(bi) == g0.lnks(bi).push(ai),
            forall|i: int|
                0 <= i < g0.cells@.len() && i != ai && i != bi ==> #[trigger] self.cells@[i]
                    == g0.cells@[i],
            self.cells@[ai].id == g0.cells@[ai].id,
            self.cells@[ai].neighbors@ == g0.cells@[ai].neighbors@,
            self.cells@[bi].id == g0.cells@[bi].id,
            self.cells@[bi].neighbors@ == g0.cells@[bi].neighbors@,
        ensures
            self.wf(),
            self.same_structure(&g0),
    {
        g0.lemma_nbr_adjacent(ai);
        assert(g0.is_nbr(bi, ai));
        assert forall|i: int|
            self.valid(i) implies #[trigger] self.nbrs(i) == expected_nbrs(
            self.spec_size(),
            i,
        ) by {
            if i != ai && i != bi {
                assert(self.cells@[i] == g0.cells@[i]);
            }
            assert(self.nbrs(i) == g0.nbrs(i));
        }
        assert forall|i: int| self.valid(i) implies #[trigger] self.links_ok(i) by {
            assert(g0.links_ok(i));
            if i == ai {
                assert forall|k: int|
                    0 <= k < self.lnks(ai).len() implies self.is_nbr(
                    ai,
                    #[trigger] self.lnks(ai)[k],
                ) by {
                    if k < g0.lnks(ai).len() {
                        assert(self.lnks(ai)[k] == g0.lnks(ai)[k]);
                        assert(g0.is_nbr(ai, g0.lnks(ai)[k]));
                    } else {
                        assert(self.lnks(ai)[k] == bi);
                    }
                }
                assert forall|k1: int, k2: int|
                    0 <= k1 < k2 < self.lnks(ai).len() implies self.lnks(ai)[k1] != self.lnks(
                    ai,
                )[k2] by {
                    if k2 == g0.lnks(ai).len() as int {
                        assert(self.lnks(ai)[k2] == bi);
                        assert(self.lnks(ai)[k1] == g0.lnks(ai)[k1]);
                        if g0.lnks(ai)[k1] == bi {
                            assert(g0.lnks(ai).contains(bi));
                        }
                    }
                }
            } else if i == bi {
                assert forall|k: int|
                    0 <= k < self.lnks(bi).len() implies self.is_nbr(
                    bi,
                    #[trigger] self.lnks(bi)[k],
                ) by {
                    if k < g0.lnks(bi).len() {
                        assert(self.lnks(bi)[k] == g0.lnks(bi)[k]);
                        assert(g0.is_nbr(bi, g0.lnks(bi)[k]));
                    } else {
                        assert(self.lnks(bi)[k] == ai);
                    }
                }
                assert forall|k1: int, k2: int|
                    0 <= k1 < k2 < self.lnks(bi).len() implies self.lnks(bi)[k1] != self.lnks(
                    bi,
                )[k2] by {
                    if k2 == g0.lnks(bi).len() as int {
                        assert(self.lnks(bi)[k2] == ai);
                        assert(self.lnks(bi)[k1] == g0.lnks(bi)[k1]);
                        if g0.lnks(bi)[k1] == ai {
                            assert(g0.lnks(bi).contains(ai));
                        }
                    }
                }
            } else {
                assert(self.cells@[i] == g0.cells@[i]);
                assert(self.lnks(i) == g0.lnks(i));
                assert forall|k: int|
                    0 <= k < self.lnks(i).len() implies self.is_nbr(
                    i,
                    #[trigger] self.lnks(i)[k],
                ) by {
                    assert(g0.is_nbr(i, g0.lnks(i)[k]));
                }
            }
        }
        assert forall|x: int, y: int| #[trigger]
            self.has_lnk(x, y) <==> #[trigger] self.has_lnk(y, x) by {
            self.lemma_link_membership(g0, ai, bi, x, y);
            self.lemma_link_membership(g0, ai, bi, y, x);
            assert(g0.has_lnk(x, y) <==> g0.has_lnk(y, x));
        }
        assert(self.wf());
    }

    /// After the push, membership in a link set grows by exactly the new
    /// pair.
    proof fn lemma_link_membership(&self, g0: SqGrid, ai: int, bi: int, x: int, y: int)
        requires
            g0.valid(ai),
            g0.valid(bi),
            ai != bi,
            self.size == g0.size,
            g0.cells@.len() == g0.spec_cap(),
            self.cells@.len() == g0.cells@.len(),
            self.lnks(ai) == g0.lnks(ai).push(bi),
            self.lnks(bi) == g0.lnks(bi).push(ai),
            forall|i: int|
                0 <= i < g0.cells@.len() && i != ai && i != bi ==> #[trigger] self.cells@[i]
                    == g0.cells@[i],
        ensures
            self.has_lnk(x, y) <==> (g0.has_lnk(x, y) || (x == ai && y == bi) || (x == bi && y
                == ai)),
    {
        if x == ai {
            lemma_push_contains(g0.lnks(ai), bi, y);
        } else if x == bi {
            lemma_push_contains(g0.lnks(bi), ai, y);
        } else if g0.valid(x) {
            assert(self.cells@[x] == g0.cells@[x]);
        }
    }

    /// Removes the passage between `a` and `b` from both sides. Fails, leaving
    /// the grid unchanged, when either id cannot be resolved. Removal is
    /// idempotent: when no such passage exists the grid is returned to the
    /// caller unchanged, with success.
    pub fn unlink(&mut self, a: Index, b: Index) -> (r: Result<(), CellLinkError>)
        requires
            old(self).wf(),
        ensures
            final(self).wf(),
            final(self).same_structure(&*old(self)),
            r is Ok <==> (a.0 < old(self).spec_cap() && b.0 < old(self).spec_cap()),
            r is Err ==> *final(self) == *old(self),
            r matches Err(e) ==> e.a == a && e.b == b,
            r is Ok ==> forall|t: int|
                #[trigger] final(self).has_lnk(a.0 as int, t) <==> (old(self).has_lnk(
                    a.0 as int,
                    t,
                ) && t != b.0 as int),
            r is Ok ==> forall|t: int|
                #[trigger] final(self).has_lnk(b.0 as int, t) <==> (old(self).has_lnk(
                    b.0 as int,
                    t,
                ) && t != a.0 as int),
            r is Ok ==> forall|i: int|
                old(self).valid(i) && i != a.0 as int && i != b.0 as int ==> #[trigger] final(self).lnks(i) == old(self).lnks(i),
            r is Ok && !old(self).has_lnk(a.0 as int, b.0 as int) ==> *final(self) == *old(self),
    {
        let cap = self.size.0 * self.size.0;
        if a.0 >= cap || b.0 >= cap {
            return Err(CellLinkError::new(a, b, "unlink failed: a cell could not be retrieved"));
        }
        let ghost g0 = *self;
        let ghost ai = a.0 as int;
        let ghost bi = b.0 as int;
        proof {
            assert(g0.links_ok(ai));
            if g0.has_lnk(ai, bi) {
                g0.lemma_lnk_valid(ai, bi);
            }
        }
        self.strip_link(a, b);
        let ghost g1 = *self;
        proof {
            if ai == bi {
                assert(!g0.has_lnk(ai, ai));
                assert(*self == g0);
            }
            assert(g1.lnks(bi) == g0.lnks(bi));
            assert(g0.links_ok(bi));
        }
        self.strip_link(b, a);
        proof {
            if ai != bi {
                assert(self.lnks(ai) == g1.lnks(ai));
            }
            self.lemma_unlink_wf_after(g0, ai, bi);
            if !g0.has_lnk(ai, bi) {
                assert(!g0.lnks(ai).contains(bi));
                assert(g1 == g0);
                assert(!g0.has_lnk(bi, ai));
                assert(*self == g0);
            }
        }
        Ok(())
    }

    /// Re-establishes well-formedness after both sides of a pair have been
    /// stripped.
    proof fn lemma_unlink_wf_after(&self, g0: SqGrid, ai: int, bi: int)
        requires
            g0.wf(),
            g0.valid(ai),
            g0.valid(bi),
            self.size == g0.size,
            self.cells@.len() == g0.cells@.len(),
            forall|i: int|
                0 <= i < g0.cells@.len() && i != ai && i != bi ==> #[trigger] self.cells@[i]
                    == g0.cells@[i],
            self.cells@[ai].id == g0.cells@[ai].id,
            self.cells@[ai].neighbors@ == g0.cells@[ai].neighbors@,
            self.cells@[bi].id == g0.cells@[bi].id,
            self.cells@[bi].neighbors@ == g0.cells@[bi].neighbors@,
            forall|t: int|
                #[trigger] self.lnks(ai).contains(t) <==> (g0.lnks(ai).contains(t) && t != bi),
            forall|t: int|
                #[trigger] self.lnks(bi).contains(t) <==> (g0.lnks(bi).contains(t) && t != ai),
            forall|k1: int, k2: int|
                0 <= k1 < k2 < self.lnks(ai).len() ==> self.lnks(ai)[k1] != self.lnks(ai)[k2],
            forall|k1: int, k2: int|
                0 <= k1 < k2 < self.lnks(bi).len() ==> self.lnks(bi)[k1] != self.lnks(bi)[k2],
        ensures
            self.wf(),
            self.same_structure(&g0),
    {
        assert forall|i: int|
            self.valid(i) implies #[trigger] self.nbrs(i) == expected_nbrs(
            self.spec_size(),
            i,
        ) by {
            if i != ai && i != bi {
                assert(self.cells@[i] == g0.cells@[i]);
            }
            assert(self.nbrs(i) == g0.nbrs(i));
        }
        assert forall|i: int| self.valid(i) implies #[trigger] self.links_ok(i) by {
            assert(g0.links_ok(i));
            if i == ai || i == bi {
                assert forall|k: int|
                    0 <= k < self.lnks(i).len() implies self.is_nbr(
                    i,
                    #[trigger] self.lnks(i)[k],
                ) by {
                    assert(self.lnks(i).contains(self.lnks(i)[k]));
                    assert(g0.lnks(i).contains(self.lnks(i)[k]));
                    let m = choose|m: int|
                        0 <= m < g0.lnks(i).len() && g0.lnks(i)[m] == self.lnks(i)[k];
                    assert(g0.is_nbr(i, g0.lnks(i)[m]));
                }
            } else {
                assert(self.cells@[i] == g0.cells@[i]);
                assert(self.lnks(i) == g0.lnks(i));
                assert forall|k: int|
                    0 <= k < self.lnks(i).len() implies self.is_nbr(
                    i,
                    #[trigger] self.lnks(i)[k],
                ) by {
                    assert(g0.is_nbr(i, g0.lnks(i)[k]));
                }
            }
        }
        assert forall|x: int, y: int| #[trigger]
            self.has_lnk(x, y) <==> #[trigger] self.has_lnk(y, x) by {
            self.lemma_unlink_membership(g0, ai, bi, x, y);
            self.lemma_unlink_membership(g0, ai, bi, y, x);
            assert(g0.has_lnk(x, y) <==> g0.has_lnk(y, x));
        }
        assert(self.wf());
    }

    /// After the strip, membership in a link set shrinks by exactly the
    /// removed pair.
    proof fn lemma_unlink_membership(&self, g0: SqGrid, ai: int, bi: int, x: int, y: int)
        requires
            g0.valid(ai),
            g0.valid(bi),
            self.size == g0.size,
            g0.cells@.len() == g0.spec_cap(),
            self.cells@.len() == g0.cells@.len(),
            forall|i: int|
                0 <= i < g0.cells@.len() && i != ai && i != bi ==> #[trigger] self.cells@[i]
                    == g0.cells@[i],
            forall|t: int|
                #[trigger] self.lnks(ai).contains(t) <==> (g0.lnks(ai).contains(t) && t != bi),
            forall|t: int|
                #[trigger] self.lnks(bi).contains(t) <==> (g0.lnks(bi).contains(t) && t != ai),
        ensures
            self.has_lnk(x, y) <==> (g0.has_lnk(x, y) && !(x == ai && y == bi) && !(x == bi && y
                == ai)),
    {
        if x == ai {
            assert(self.lnks(ai).contains(y) <==> (g0.lnks(ai).contains(y) && y != bi));
        } else if x == bi {
            assert(self.lnks(bi).contains(y) <==> (g0.lnks(bi).contains(y) && y != ai));
        } else if g0.valid(x) {
            assert(self.cells@[x] == g0.cells@[x]);
        }
    }
}

impl SqGrid {
    /// On a grid of side length at least two, every cell has at least one
    /// geometric neighbor.
    pub proof fn lemma_nbrs_nonempty(&self, i: int)
        requires
            self.wf(),
            self.valid(i),
            self.spec_size() >= 2,
        ensures
            self.nbrs(i).len() >= 1,
    {
        let s = self.spec_size();
        lemma_cell_coords(s, i);
        assert(self.nbrs(i) == expected_nbrs(s, i));
        if i < s {
            vstd::arithmetic::div_mod::lemma_basic_div(i, s);
            assert(i / s == 0);
        }
    }

    /// A uniformly random valid cell index.
    pub fn random_id<R: RandSource>(&self, rng: &mut R) -> (r: Index)
        requires
            self.wf(),
        ensures
            r.0 < self.spec_cap(),
    {
        proof {
            assert(self.spec_cap() >= 1) by (nonlinear_arith)
                requires
                    self.spec_size() >= 1,
                    self.spec_cap() == self.spec_size() * self.spec_size(),
            ;
        }
        Index(rng.below(self.size.0 * self.size.0))
    }

    /// A uniformly random cell.
    pub fn random<R: RandSource>(&self, rng: &mut R) -> (r: &SqCell)
        requires
            self.wf(),
        ensures
            exists|i: int| 0 <= i < self.spec_cap() && *r == self.cells@[i],
    {
        let id = self.random_id(rng);
        let c = self.lookup(id);
        proof {
            assert(*c == self.cells@[id.0 as int]);
        }
        c
    }

    /// A uniformly random geometric neighbor of the given cell; the cell must
    /// have at least one.
    pub fn random_neighbor_id<R: RandSource>(&self, id: Index, rng: &mut R) -> (r: Index)
        requires
            self.wf(),
            id.0 < self.spec_cap(),
            self.nbrs(id.0 as int).len() > 0,
        ensures
            self.is_nbr(id.0 as int, r.0 as int),
            r.0 < self.spec_cap(),
            r.0 != id.0,
    {
        let c = &self.cells[id.0];
        let j = rng.below(c.neighbors.len());
        let r = c.neighbors[j];
        proof {
            assert(self.nbrs(id.0 as int)[j as int] == r.0 as int);
            assert(self.nbrs(id.0 as int).contains(r.0 as int));
            self.lemma_nbr_adjacent(id.0 as int);
            assert(self.is_nbr(id.0 as int, r.0 as int));
            assert(self.valid(r.0 as int));
        }
        r
    }

    /// A uniformly random neighboring cell of the given cell.
    pub fn random_neighbor<R: RandSource>(&self, id: Index, rng: &mut R) -> (r: &SqCell)
        requires
            self.wf(),
            id.0 < self.spec_cap(),
            self.nbrs(id.0 as int).len() > 0,
        ensures
            exists|i: int|
                0 <= i < self.spec_cap() && *r == self.cells@[i] && self.is_nbr(id.0 as int, i)
                    && i != id.0 as int,
    {
        let n = self.random_neighbor_id(id, rng);
        let c = self.lookup(n);
        proof {
            assert(*c == self.cells@[n.0 as int]);
        }
        c
    }

    /// Removes every link from every cell, returning the grid to its freshly
    /// constructed state.
    pub(crate) fn clear_links(&mut self)
        requires
            old(self).wf(),
        ensures
            final(self).wf(),
            final(self).same_structure(&*old(self)),
            final(self).spec_size() == old(self).spec_size(),
            forall|i: int| final(self).valid(i) ==> (#[trigger] final(self).lnks(i)).len() == 0,
    {
        let ghost g0 = *self;
        let len = self.cells.len();
        let mut i: usize = 0;
        while i < len
            invariant
                len == self.cells@.len(),
                self.size == g0.size,
                self.cells@.len() == g0.cells@.len(),
                i <= len,
                forall|j: int| 0 <= j < i ==> (#[trigger] self.cells@[j]).links@.len() == 0,
                forall|j: int| 0 <= j < i ==> (#[trigger] self.cells@[j]).id == g0.cells@[j].id,
                forall|j: int|
                    0 <= j < i ==> (#[trigger] self.cells@[j]).neighbors@ == g0.cells@[j].neighbors@,
                forall|j: int| i <= j < len ==> #[trigger] self.cells@[j] == g0.cells@[j],
            decreases len - i,
        {
            let id_i = self.cells[i].id;
            let nbrs_i = clone_ids(&self.cells[i].neighbors);
            self.cells.set(i, SqCell { id: id_i, links: Vec::new(), neighbors: nbrs_i });
            i = i + 1;
        }
        proof {
            assert(g0.wf());
            assert forall|i2: int|
                self.valid(i2) implies #[trigger] self.nbrs(i2) == expected_nbrs(
                self.spec_size(),
                i2,
            ) by {
                assert(self.nbrs(i2) == g0.nbrs(i2));
            }
            assert forall|i2: int| self.valid(i2) implies #[trigger] self.links_ok(i2) by {
                assert(self.lnks(i2).len() == 0);
            }
            assert forall|a: int, b: int| #[trigger]
                self.has_lnk(a, b) <==> #[trigger] self.has_lnk(b, a) by {
                if self.valid(a) {
                    assert(self.lnks(a).len() == 0);
                }
                if self.valid(b) {
                    assert(self.lnks(b).len() == 0);
                }
            }
            assert(self.wf());
        }
    }
}


impl SqGrid {
    /// The direction in which `to` neighbors `from`, if it does.
    pub fn dir_from(&self, from: Index, to: Index) -> (r: Option<Cardinal>)
        requires
            self.size.0 >= 1,
            from.0 < self.spec_cap(),
            self.spec_cap() <= usize::MAX,
        ensures
            r matches Some(dir) ==> spec_calc_dir(self.spec_size(), from.0 as int, dir) == Some(
                to.0 as int,
            ),
            r is None ==> forall|dir: Cardinal|
                spec_calc_dir(self.spec_size(), from.0 as int, dir) != Some(to.0 as int),
    {
        let mut it = CardinalIter::iter();
        let mut steps: u8 = 0;
        while steps < 4
            invariant
                self.size.0 >= 1,
                from.0 < self.spec_cap(),
                self.spec_cap() <= usize::MAX,
                steps <= 4,
                it.count == steps,
                it.start == Cardinal::N,
                steps < 4 ==> it.cur == (if steps == 0 {
                    Cardinal::N
                } else if steps == 1 {
                    Cardinal::E
                } else if steps == 2 {
                    Cardinal::S
                } else {
                    Cardinal::W
                }),
                forall|dir: Cardinal|
                    dir_rank(dir) < steps ==> spec_calc_dir(self.spec_size(), from.0 as int, dir)
                        != Some(to.0 as int),
            decreases 4 - steps,
        {
            let d = match it.next() {
                Some(d) => d,
                None => Cardinal::N,
            };
            match self.calc_dir(from, &d) {
                Some(n) => {
                    if n.0 == to.0 {
                        proof {
                            assert(spec_calc_dir(self.spec_size(), from.0 as int, d) == Some(
                                to.0 as int,
                            ));
                        }
                        return Some(d);
                    }
                },
                None => {},
            }
            steps = steps + 1;
            proof {
                assert forall|dir: Cardinal|
                    dir_rank(dir) < steps implies spec_calc_dir(
                    self.spec_size(),
                    from.0 as int,
                    dir,
                ) != Some(to.0 as int) by {
                    if dir_rank(dir) == steps - 1 {
                        assert(dir == d);
                    }
                }
            }
        }
        None
    }

    /// The first direction, clockwise from north, in which the cell touches
    /// the grid's edge.
    pub fn find_boundary(&self, id: Index) -> (r: Option<Cardinal>)
        requires
            self.size.0 >= 1,
        ensures
            r == spec_first_boundary(self.spec_size(), id.0 as int),
            r matches Some(dir) ==> spec_calc_dir(self.spec_size(), id.0 as int, dir) is None,
            r is None ==> forall|dir: Cardinal|
                spec_calc_dir(self.spec_size(), id.0 as int, dir) is Some,
    {
        if self.has_boundary_north(id) {
            Some(Cardinal::N)
        } else if self.has_boundary_east(id) {
            Some(Cardinal::E)
        } else if self.has_boundary_south(id) {
            Some(Cardinal::S)
        } else if self.has_boundary_west(id) {
            Some(Cardinal::W)
        } else {
            proof {
                assert forall|dir: Cardinal|
                    spec_calc_dir(self.spec_size(), id.0 as int, dir) is Some by {
                    match dir {
                        Cardinal::N => {},
                        Cardinal::E => {},
                        Cardinal::S => {},
                        Cardinal::W => {},
                    }
                }
            }
            None
        }
    }

    /// Whether the cell is linked to its neighbor in the given direction.
    pub fn has_dir_link(&self, id: Index, d: &Cardinal) -> (r: bool)
        requires
            self.wf(),
        ensures
            r == (id.0 < self.spec_cap() && (match spec_calc_dir(
                self.spec_size(),
                id.0 as int,
                *d,
            ) {
                Some(n) => self.has_lnk(id.0 as int, n),
                None => false,
            })),
    {
        if id.0 >= self.cells.len() {
            return false;
        }
        match self.calc_dir(id, d) {
            Some(n) => self.cells[id.0].has_link(n),
            None => false,
        }
    }

    /// Links the cell to its neighbor in the given direction, or reports
    /// that the grid ends there.
    pub fn link_neighbor(&mut self, id: Index, d: &Cardinal) -> (r: Result<
        (),
        NotNeighborsError,
    >)
        requires
            old(self).wf(),
            id.0 < old(self).spec_cap(),
        ensures
            final(self).wf(),
            final(self).same_structure(&*old(self)),
            r is Ok <==> spec_calc_dir(old(self).spec_size(), id.0 as int, *d) is Some,
            r is Err ==> *final(self) == *old(self),
            r matches Err(e) ==> e.a == id && e.dir == *d,
            r matches Ok(()) ==> (match spec_calc_dir(old(self).spec_size(), id.0 as int, *d) {
                Some(n) => {
                    &&& final(self).has_lnk(id.0 as int, n)
                    &&& final(self).lnks(id.0 as int) == (if old(self).has_lnk(id.0 as int, n) {
                        old(self).lnks(id.0 as int)
                    } else {
                        old(self).lnks(id.0 as int).push(n)
                    })
                    &&& final(self).lnks(n) == (if old(self).has_lnk(n, id.0 as int) {
                        old(self).lnks(n)
                    } else {
                        old(self).lnks(n).push(id.0 as int)
                    })
                    &&& forall|i: int|
                        old(self).valid(i) && i != id.0 as int && i != n ==> #[trigger] final(self).lnks(i) == old(self).lnks(i)
                },
                None => false,
            }),
    {
        match self.calc_dir(id, d) {
            Some(n) => {
                proof {
                    self.lemma_nbr_adjacent(id.0 as int);
                    lemma_expected_nbrs_elems(self.spec_size(), id.0 as int);
                    assert(spec_adjacent(self.spec_size(), id.0 as int, n.0 as int));
                    assert(self.is_nbr(id.0 as int, n.0 as int));
                }
                let res = self.link(id, n);
                proof {
                    assert(res is Ok);
                }
                Ok(())
            },
            None => Err(
                NotNeighborsError::new(
                    id,
                    *d,
                    "the cell has no neighbor in the given direction",
                ),
            ),
        }
    }

    /// Unlinks the cell from its neighbor in the given direction, or reports
    /// that the grid ends there.
    pub fn unlink_neighbor(&mut self, id: Index, d: &Cardinal) -> (r: Result<
        (),
        NotNeighborsError,
    >)
        requires
            old(self).wf(),
            id.0 < old(self).spec_cap(),
        ensures
            final(self).wf(),
            final(self).same_structure(&*old(self)),
            r is Ok <==> spec_calc_dir(old(self).spec_size(), id.0 as int, *d) is Some,
            r is Err ==> *final(self) == *old(self),
            r matches Err(e) ==> e.a == id && e.dir == *d,
            r matches Ok(()) ==> (match spec_calc_dir(old(self).spec_size(), id.0 as int, *d) {
                Some(n) => {
                    &&& !final(self).has_lnk(id.0 as int, n)
                    &&& forall|t: int|
                        #[trigger] final(self).has_lnk(id.0 as int, t) <==> (old(self).has_lnk(
                            id.0 as int,
                            t,
                        ) && t != n)
                    &&& forall|t: int|
                        #[trigger] final(self).has_lnk(n, t) <==> (old(self).has_lnk(n, t) && t
                            != id.0 as int)
                    &&& forall|i: int|
                        old(self).valid(i) && i != id.0 as int && i != n ==> #[trigger] final(self).lnks(i) == old(self).lnks(i)
                    &&& !old(self).has_lnk(id.0 as int, n) ==> *final(self) == *old(self)
                },
                None => false,
            }),
    {
        match self.calc_dir(id, d) {
            Some(n) => {
                proof {
                    self.lemma_nbr_adjacent(id.0 as int);
                    lemma_adjacent_sym(self.spec_size(), id.0 as int, n.0 as int);
                }
                let res = self.unlink(id, n);
                proof {
                    assert(res is Ok);
                }
                Ok(())
            },
            None => Err(
                NotNeighborsError::new(
                    id,
                    *d,
                    "the cell has no neighbor in the given direction",
                ),
            ),
        }
    }

    /// The flat index of the given coordinate under row-major order; the
    /// caller guarantees the coordinate is inside the grid.
    pub fn get_id(&self, coord: &Coord) -> (r: Index)
        requires
            coord.y.0 * self.spec_size() + coord.x.0 <= usize::MAX,
        ensures
            r.0 == coord.y.0 * self.spec_size() + coord.x.0,
    {
        Index(coord.y.0 * self.size.0 + coord.x.0)
    }

    /// The flat index of the given coordinate, or an error if the coordinate
    /// lies outside the grid.
    pub fn try_get_id(&self, coord: &Coord) -> (r: Result<Index, OutOfBoundsCoordError>)
        requires
            self.wf(),
        ensures
            r is Ok <==> (coord.x.0 < self.spec_size() && coord.y.0 < self.spec_size()),
            r matches Ok(id) ==> id.0 == coord.y.0 * self.spec_size() + coord.x.0 && id.0
                < self.spec_cap(),
            r matches Err(e) ==> e.0 == *coord,
    {
        if coord.x.0 < self.size.0 && coord.y.0 < self.size.0 {
            proof {
                assert(coord.y.0 * self.spec_size() + coord.x.0 < self.spec_cap())
                    by (nonlinear_arith)
                    requires
                        self.spec_size() >= 1,
                        self.spec_cap() == self.spec_size() * self.spec_size(),
                        coord.x.0 < self.spec_size(),
                        coord.y.0 < self.spec_size(),
                ;
            }
            Ok(Index(coord.y.0 * self.size.0 + coord.x.0))
        } else {
            Err(OutOfBoundsCoordError::new(*coord))
        }
    }

    /// The coordinate of the given cell; the caller guarantees the index is
    /// in bounds.
    pub fn get_coords(&self, id: Index) -> (r: Coord)
        requires
            self.size.0 >= 1,
        ensures
            r.x.0 == (id.0 as int) % self.spec_size(),
            r.y.0 == (id.0 as int) / self.spec_size(),
    {
        Coord::new(Index(id.0 % self.size.0), Index(id.0 / self.size.0))
    }

    /// The coordinate of the given cell, or an error if the index is out of
    /// bounds.
    pub fn try_get_coords(&self, id: Index) -> (r: Result<Coord, OutOfBoundsError>)
        requires
            self.wf(),
        ensures
            r is Ok <==> id.0 < self.spec_cap(),
            r matches Ok(c) ==> c.x.0 == (id.0 as int) % self.spec_size() && c.y.0 == (
            id.0 as int) / self.spec_size(),
            r matches Err(e) ==> e.0 == id,
    {
        if id.0 < self.cells.len() {
            proof {
                lemma_cell_coords(self.spec_size(), id.0 as int);
            }
            Ok(Coord::new(Index(id.0 % self.size.0), Index(id.0 / self.size.0)))
        } else {
            Err(OutOfBoundsError::new(id))
        }
    }
}


/// Link symmetry: in a well-formed grid, and every grid this library's
/// operations produce is well-formed, cell `a` holds `b` in its link set
/// exactly when cell `b` holds `a`, whatever sequence of link and unlink
/// calls built the grid.
pub proof fn lemma_link_symmetry(g: SqGrid, a: int, b: int)
    requires
        g.wf(),
    ensures
        g.has_lnk(a, b) <==> g.has_lnk(b, a),
{
}

/// Neighbor-list immutability: two grids of the same structure, which is
/// what `link` and `unlink` promise to preserve, agree on the geometric
/// neighbor list of every cell.
pub proof fn lemma_neighbors_immutable(g1: SqGrid, g2: SqGrid, i: int)
    requires
        g1.same_structure(&g2),
        0 <= i < g1.cells@.len(),
    ensures
        g1.nbrs(i) == g2.nbrs(i),
{
}

/// The first direction, clockwise from north, in which cell `i` touches the
/// grid's edge, in contracts.
pub open spec fn spec_first_boundary(s: int, i: int) -> Option<Cardinal> {
    if spec_calc_dir(s, i, Cardinal::N) is None {
        Some(Cardinal::N)
    } else if spec_calc_dir(s, i, Cardinal::E) is None {
        Some(Cardinal::E)
    } else if spec_calc_dir(s, i, Cardinal::S) is None {
        Some(Cardinal::S)
    } else if spec_calc_dir(s, i, Cardinal::W) is None {
        Some(Cardinal::W)
    } else {
        None
    }
}

/// The position of a direction in the clockwise scan from north.
pub open spec fn dir_rank(d: Cardinal) -> int {
    match d {
        Cardinal::N => 0,
        Cardinal::E => 1,
        Cardinal::S => 2,
        Cardinal::W => 3,
    }
}


} // verus!
