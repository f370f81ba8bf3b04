//! Integer bookkeeping of the uniform acceleration grid: cell counts,
//! flattened cell indexing, enumeration of every cell coordinate, the
//! distribution of construction work across workers, the collection of
//! built cells into the flat cell array, and the index stepping of the
//! incremental grid traversal.
//!
//! The floating-point side of the grid — world extents, cell size, the
//! cell-overlap tests and the parametric `t` values of the traversal —
//! lives with the unverified front end, which drives these routines.

use vstd::arithmetic::div_mod::{
    lemma_fundamental_div_mod, lemma_fundamental_div_mod_converse,
    lemma_mod_division_less_than_divisor,
};
use vstd::prelude::*;
use vstd::seq_lib::lemma_multiset_commutative;

use rand::seq::SliceRandom;

verus! {

/// Per-axis cell counts of the grid.
#[derive(Clone, Copy, PartialEq, Eq, Structural, Debug)]
pub struct GridDims {
    pub nx: usize,
    pub ny: usize,
    pub nz: usize,
}

impl GridDims {
    /// Well-formed dimensions: at least one cell on every axis, and a
    /// flat cell array whose length fits in memory.
    pub open spec fn wf(self) -> bool {
        &&& 1 <= self.nx
        &&& 1 <= self.ny
        &&& 1 <= self.nz
        &&& self.nx * self.ny * self.nz <= isize::MAX
    }

    /// Number of cells of the grid.
    pub open spec fn total_spec(self) -> int {
        self.nx * self.ny * self.nz
    }

    /// Whether `(x, y, z)` is a cell coordinate of the grid.
    pub open spec fn in_bounds(self, x: int, y: int, z: int) -> bool {
        &&& 0 <= x < self.nx
        &&& 0 <= y < self.ny
        &&& 0 <= z < self.nz
    }

    /// Position of cell `(x, y, z)` in the flat cell array.
    pub open spec fn cell_index_spec(self, x: int, y: int, z: int) -> int {
        x + y * self.nx + z * self.nx * self.ny
    }

    /// The cell coordinate stored at position `i` of the flat cell array.
    pub open spec fn coord_of(self, i: int) -> (int, int, int) {
        (
            i % (self.nx as int),
            (i / (self.nx as int)) % (self.ny as int),
            (i / (self.nx as int)) / (self.ny as int),
        )
    }

    /// The cell coordinates in flat-array order.
    pub open spec fn coords_seq(self) -> Seq<(usize, usize, usize)> {
        Seq::new(
            self.total_spec() as nat,
            |i: int|
                (
                    (self.coord_of(i).0) as usize,
                    (self.coord_of(i).1) as usize,
                    (self.coord_of(i).2) as usize,
                ),
        )
    }

    /// Validate per-axis cell counts: every axis needs at least one cell,
    /// and the flat cell array must have a representable length.
    pub fn new(nx: usize, ny: usize, nz: usize) -> (r: Option<GridDims>)
        ensures
            r matches Some(d) ==> d == (GridDims { nx, ny, nz }) && d.wf(),
            r is Some <==> 1 <= nx && 1 <= ny && 1 <= nz && nx * ny * nz <= isize::MAX,
    {
        if nx == 0 || ny == 0 || nz == 0 {
            return None;
        }
        match nx.checked_mul(ny) {
            None => {
                proof {
                    assert(nx * ny * nz >= nx * ny) by (nonlinear_arith)
                        requires
                            nz >= 1,
                            nx * ny >= 0,
                    ;
                }
                None
            },
            Some(nxy) => {
                match nxy.checked_mul(nz) {
                    None => None,
                    Some(total) => {
                        if total <= (isize::MAX as usize) {
                            Some(GridDims { nx, ny, nz })
                        } else {
                            None
                        }
                    },
                }
            },
        }
    }

    /// Number of cells of the grid.
    pub fn total(&self) -> (t: usize)
        requires
            self.wf(),
        ensures
            t == self.total_spec(),
    {
        proof {
            assert(self.nx * self.ny <= self.nx * self.ny * self.nz) by (nonlinear_arith)
                requires
                    self.nz >= 1,
                    self.nx * self.ny >= 0,
            ;
        }
        self.nx * self.ny * self.nz
    }

    /// The flat index of every in-bounds cell lies inside the cell array.
    pub proof fn lemma_cell_index_bounds(self, x: int, y: int, z: int)
        requires
            self.wf(),
            self.in_bounds(x, y, z),
        ensures
            0 <= self.cell_index_spec(x, y, z) < self.total_spec(),
    {
        assert(0 <= x + y * self.nx + z * self.nx * self.ny < self.nx * self.ny * self.nz)
            by (nonlinear_arith)
            requires
                0 <= x < self.nx,
                0 <= y < self.ny,
                0 <= z < self.nz,
        ;
    }

    /// The flat index determines the cell coordinate: distinct in-bounds
    /// coordinates occupy distinct positions of the cell array.
    pub proof fn lemma_cell_index_injective(
        self,
        x1: int,
        y1: int,
        z1: int,
        x2: int,
        y2: int,
        z2: int,
    )
        requires
            self.wf(),
            self.in_bounds(x1, y1, z1),
            self.in_bounds(x2, y2, z2),
            self.cell_index_spec(x1, y1, z1) == self.cell_index_spec(x2, y2, z2),
        ensures
            x1 == x2 && y1 == y2 && z1 == z2,
    {
        let i = self.cell_index_spec(x1, y1, z1);
        let nx = self.nx as int;
        let ny = self.ny as int;
        assert(i == (y1 + ny * z1) * nx + x1 && i == (y2 + ny * z2) * nx + x2)
            by (nonlinear_arith)
            requires
                i == x1 + y1 * nx + z1 * nx * ny,
                i == x2 + y2 * nx + z2 * nx * ny,
        ;
        assert(0 <= y1 + ny * z1) by (nonlinear_arith)
            requires
                0 <= y1 && 0 <= z1 && 0 <= ny,
        ;
        assert(0 <= y2 + ny * z2) by (nonlinear_arith)
            requires
                0 <= y2 && 0 <= z2 && 0 <= ny,
        ;
        lemma_fundamental_div_mod_converse(i, nx, y1 + ny * z1, x1);
        lemma_fundamental_div_mod_converse(i, nx, y2 + ny * z2, x2);
        let q = i / nx;
        lemma_fundamental_div_mod_converse(q, ny, z1, y1);
        lemma_fundamental_div_mod_converse(q, ny, z2, y2);
    }

    /// Every position of the cell array stores an in-bounds coordinate,
    /// and storing it there is consistent with the flat indexing.
    pub proof fn lemma_coord_of(self, i: int)
        requires
            self.wf(),
            0 <= i < self.total_spec(),
        ensures
            ({
                let (x, y, z) = self.coord_of(i);
                &&& self.in_bounds(x, y, z)
                &&& self.cell_index_spec(x, y, z) == i
            }),
    {
        let nx = self.nx as int;
        let ny = self.ny as int;
        let nz = self.nz as int;
        lemma_fundamental_div_mod(i, nx);
        lemma_mod_division_less_than_divisor(i, nx);
        let x = i % nx;
        let q = i / nx;
        assert(0 <= q && q < ny * nz) by (nonlinear_arith)
            requires
                i == nx * q + x,
                0 <= x < nx,
                0 <= i < nx * ny * nz,
                1 <= nx && 1 <= ny && 1 <= nz,
        ;
        lemma_fundamental_div_mod(q, ny);
        lemma_mod_division_less_than_divisor(q, ny);
        let y = q % ny;
        let z = q / ny;
        assert(0 <= z && z < nz) by (nonlinear_arith)
            requires
                q == ny * z + y,
                0 <= y < ny,
                0 <= q < ny * nz,
                1 <= ny && 1 <= nz,
        ;
        assert(x + y * nx + z * nx * ny == i) by (nonlinear_arith)
            requires
                i == nx * q + x,
                q == ny * z + y,
        ;
    }

    /// Position of cell `(x, y, z)` in the flat cell array.
    pub fn cell_index(&self, x: usize, y: usize, z: usize) -> (i: usize)
        requires
            self.wf(),
            self.in_bounds(x as int, y as int, z as int),
        ensures
            i == self.cell_index_spec(x as int, y as int, z as int),
            i < self.total_spec(),
    {
        proof {
            self.lemma_cell_index_bounds(x as int, y as int, z as int);
            assert(y * self.nx <= self.nx * self.ny && z * self.nx <= self.nx * self.ny * self.nz
                && z * self.nx * self.ny <= self.nx * self.ny * self.nz) by (nonlinear_arith)
                requires
                    0 <= y < self.ny,
                    0 <= z < self.nz,
                    1 <= self.nx && 1 <= self.ny && 1 <= self.nz,
            ;
        }
        x + y * self.nx + z * self.nx * self.ny
    }

    /// Enumerate every cell coordinate of the grid, in flat-array order:
    /// the coordinate at position `i` of the list is the one whose cell
    /// stands at position `i` of the cell array.
    pub fn cell_coordinates(&self) -> (r: Vec<(usize, usize, usize)>)
        requires
            self.wf(),
        ensures
            r@.len() == self.total_spec(),
            forall|i: int|
                0 <= i < r@.len() ==> {
                    let c = #[trigger] r@[i];
                    &&& self.in_bounds(c.0 as int, c.1 as int, c.2 as int)
                    &&& self.cell_index_spec(c.0 as int, c.1 as int, c.2 as int) == i
                },
            r@ == self.coords_seq(),
    {
        let dims = *self;
        let ghost nx = self.nx as int;
        let ghost ny = self.ny as int;
        let ghost nz = self.nz as int;
        let mut r: Vec<(usize, usize, usize)> = Vec::new();
        proof {
            assert(0 * nx * ny == 0 && 0 * nx == 0) by (nonlinear_arith);
        }
        let mut z: usize = 0;
        while z < self.nz
            invariant
                dims == *self,
                dims.wf(),
                nx == self.nx as int && ny == self.ny as int && nz == self.nz as int,
                z <= self.nz,
                r@.len() == z * nx * ny,
                forall|i: int|
                    0 <= i < r@.len() ==> {
                        let c = #[trigger] r@[i];
                        &&& dims.in_bounds(c.0 as int, c.1 as int, c.2 as int)
                        &&& dims.cell_index_spec(c.0 as int, c.1 as int, c.2 as int) == i
                    },
            decreases self.nz - z,
        {
            proof {
                assert(0 * nx == 0) by (nonlinear_arith);
            }
            let mut y: usize = 0;
            while y < self.ny
                invariant
                    dims == *self,
                    dims.wf(),
                    nx == self.nx as int && ny == self.ny as int && nz == self.nz as int,
                    z < self.nz,
                    y <= self.ny,
                    r@.len() == y * nx + z * nx * ny,
                    forall|i: int|
                        0 <= i < r@.len() ==> {
                            let c = #[trigger] r@[i];
                            &&& dims.in_bounds(c.0 as int, c.1 as int, c.2 as int)
                            &&& dims.cell_index_spec(c.0 as int, c.1 as int, c.2 as int) == i
                        },
                decreases self.ny - y,
            {
                let mut x: usize = 0;
                while x < self.nx
                    invariant
                        dims == *self,
                        dims.wf(),
                        nx == self.nx as int && ny == self.ny as int && nz == self.nz as int,
                        z < self.nz,
                        y < self.ny,
                        x <= self.nx,
                        r@.len() == x + y * nx + z * nx * ny,
                        forall|i: int|
                            0 <= i < r@.len() ==> {
                                let c = #[trigger] r@[i];
                                &&& dims.in_bounds(c.0 as int, c.1 as int, c.2 as int)
                                &&& dims.cell_index_spec(c.0 as int, c.1 as int, c.2 as int) == i
                            },
                    decreases self.nx - x,
                {
                    proof {
                        dims.lemma_cell_index_bounds(x as int, y as int, z as int);
                    }
                    r.push((x, y, z));
                    x = x + 1;
                }
                proof {
                    assert(nx + y * nx + z * nx * ny == (y + 1) * nx + z * nx * ny)
                        by (nonlinear_arith);
                }
                y = y + 1;
            }
            proof {
                assert(ny * nx + z * nx * ny == (z + 1) * nx * ny) by (nonlinear_arith);
            }
            z = z + 1;
        }
        proof {
            assert(nz * nx * ny == nx * ny * nz) by (nonlinear_arith);
            assert forall|i: int| 0 <= i < r@.len() implies r@[i] == self.coords_seq()[i] by {
                self.lemma_coord_of(i);
                let c = r@[i];
                let (x2, y2, z2) = self.coord_of(i);
                self.lemma_cell_index_injective(
                    c.0 as int,
                    c.1 as int,
                    c.2 as int,
                    x2,
                    y2,
                    z2,
                );
            }
            assert(r@ =~= self.coords_seq());
        }
        r
    }
}

/// Relies on rand's `SliceRandom::shuffle`: it permutes the slice in
/// place by swapping elements, so the multiset of entries is unchanged.
#[verifier::external_body]
fn shuffle_coords(v: &mut Vec<(usize, usize, usize)>)
    ensures
        final(v)@.to_multiset() == old(v)@.to_multiset(),
{
    v.shuffle(&mut rand::thread_rng());
}

/// The element sequences of a list of vectors.
pub open spec fn views_of<T>(parts: Seq<Vec<T>>) -> Seq<Seq<T>> {
    Seq::new(parts.len(), |i: int| parts[i]@)
}

impl GridDims {
    /// Every cell coordinate of the grid, in a random order. Object
    /// density is rarely uniform, so construction work is distributed
    /// over shuffled coordinates to even out the expected load per
    /// worker.
    pub fn shuffled_cell_coordinates(&self) -> (r: Vec<(usize, usize, usize)>)
        requires
            self.wf(),
        ensures
            r@.to_multiset() == self.coords_seq().to_multiset(),
    {
        let mut v = self.cell_coordinates();
        shuffle_coords(&mut v);
        v
    }
}

/// Divide the shuffled coordinate list among `workers` construction
/// workers: each worker takes a block from the end of the list, one
/// block per worker, and the blocks together hold every coordinate.
pub fn split_for_workers(cells: Vec<(usize, usize, usize)>, workers: usize) -> (r: Vec<
    Vec<(usize, usize, usize)>,
>)
    requires
        workers >= 1,
    ensures
        r@.len() == workers,
        views_of(r@).flatten().to_multiset() == cells@.to_multiset(),
{
    broadcast use vstd::multiset::group_multiset_axioms;
    broadcast use vstd::seq_lib::group_to_multiset_ensures;

    let ghost orig = cells@;
    let mut cells = cells;
    let cells_per_thread = cells.len() / workers;
    proof {
        lemma_fundamental_div_mod(orig.len() as int, workers as int);
        lemma_mod_division_less_than_divisor(orig.len() as int, workers as int);
        assert(orig.len() <= workers * (cells_per_thread + 1)) by (nonlinear_arith)
            requires
                (orig.len() as int) == workers * ((orig.len() as int) / (workers as int)) + (
                (orig.len() as int) % (workers as int)),
                cells_per_thread == (orig.len() as int) / (workers as int),
                ((orig.len() as int) % (workers as int)) < workers,
        ;
        assert(views_of(Seq::<Vec<(usize, usize, usize)>>::empty()).flatten()
            =~= Seq::<(usize, usize, usize)>::empty());
        assert(Seq::<(usize, usize, usize)>::empty().to_multiset().add(cells@.to_multiset())
            =~= cells@.to_multiset());
    }
    let mut parts: Vec<Vec<(usize, usize, usize)>> = Vec::new();
    let mut w: usize = 0;
    while w < workers
        invariant
            w <= workers,
            parts@.len() == w,
            views_of(parts@).flatten().to_multiset().add(cells@.to_multiset())
                == orig.to_multiset(),
            cells@.len() <= (workers - w) * (cells_per_thread + 1),
        decreases workers - w,
    {
        let len = cells.len();
        let split_at = if len > cells_per_thread {
            len - cells_per_thread - 1
        } else {
            0
        };
        let ghost before = cells@;
        let part = cells.split_off(split_at);
        let ghost flat_before = views_of(parts@).flatten();
        proof {
            assert(before =~= cells@ + part@);
            lemma_multiset_commutative(cells@, part@);
            assert(views_of(parts@.push(part)) =~= views_of(parts@).push(part@));
            views_of(parts@).lemma_flatten_push(part@);
            lemma_multiset_commutative(flat_before, part@);
            assert(flat_before.to_multiset().add(part@.to_multiset()).add(cells@.to_multiset())
                =~= flat_before.to_multiset().add(cells@.to_multiset().add(part@.to_multiset())));
            assert((workers - w) * (cells_per_thread + 1) - (cells_per_thread + 1) == (workers - (w
                + 1)) * (cells_per_thread + 1)) by (nonlinear_arith);
            assert(0 <= (workers - (w + 1)) * (cells_per_thread + 1)) by (nonlinear_arith)
                requires
                    w + 1 <= workers,
                    cells_per_thread >= 0,
            ;
        }
        parts.push(part);
        w = w + 1;
    }
    proof {
        assert(0 * (cells_per_thread + 1) == 0) by (nonlinear_arith);
        assert(cells@ =~= Seq::<(usize, usize, usize)>::empty());
        assert(views_of(parts@).flatten().to_multiset().add(cells@.to_multiset())
            =~= views_of(parts@).flatten().to_multiset());
    }
    parts
}


impl GridDims {
    /// Every pair names a cell inside the grid.
    pub open spec fn pairs_in_bounds<T>(self, pairs: Seq<((usize, usize, usize), T)>) -> bool {
        forall|i: int|
            0 <= i < pairs.len() ==> {
                let c = (#[trigger] pairs[i]).0;
                self.in_bounds(c.0 as int, c.1 as int, c.2 as int)
            }
    }

    /// No two pairs name the same cell.
    pub open spec fn pairs_distinct<T>(pairs: Seq<((usize, usize, usize), T)>) -> bool {
        forall|i: int, j: int|
            0 <= i < j < pairs.len() ==> (#[trigger] pairs[i]).0 != (#[trigger] pairs[j]).0
    }

    /// Every cell of the grid is named by some pair.
    pub open spec fn pairs_cover<T>(self, pairs: Seq<((usize, usize, usize), T)>) -> bool {
        forall|c: (usize, usize, usize)|
            #[trigger] self.in_bounds(c.0 as int, c.1 as int, c.2 as int) ==> exists|i: int|
                0 <= i < pairs.len() && (#[trigger] pairs[i]).0 == c
    }

    /// Position `s` of the cell array holds the cell of the pair that
    /// names it.
    pub open spec fn cell_from_pairs<T>(
        self,
        pairs: Seq<((usize, usize, usize), T)>,
        cells: Seq<T>,
        s: int,
    ) -> bool {
        exists|i: int|
            0 <= i < pairs.len() && self.cell_index_spec(
                ((#[trigger] pairs[i]).0).0 as int,
                (pairs[i].0).1 as int,
                (pairs[i].0).2 as int,
            ) == s && cells[s] == pairs[i].1
    }

    /// Collect the `(coordinate, cell)` pairs the construction workers
    /// hand back into the flat cell array: the cell built for `(x, y, z)`
    /// comes to stand at position `x + y*nx + z*nx*ny`. Returns `None`
    /// when the pairs do not name every cell of the grid exactly once.
    #[verifier::loop_isolation(false)]
    pub fn collect_cells<T>(&self, pairs: Vec<((usize, usize, usize), T)>) -> (r: Option<Vec<T>>)
        requires
            self.wf(),
        ensures
            self.pairs_in_bounds(pairs@) && Self::pairs_distinct(pairs@) && self.pairs_cover(
                pairs@,
            ) ==> r is Some,
            r matches Some(cells) ==> {
                &&& cells@.len() == self.total_spec()
                &&& forall|i: int|
                    0 <= i < pairs@.len() ==> {
                        let c = (#[trigger] pairs@[i]).0;
                        &&& self.in_bounds(c.0 as int, c.1 as int, c.2 as int)
                        &&& cells@[self.cell_index_spec(c.0 as int, c.1 as int, c.2 as int)]
                            == pairs@[i].1
                    }
                &&& forall|s: int|
                    0 <= s < cells@.len() ==> #[trigger] self.cell_from_pairs(pairs@, cells@, s)
            },
    {
        let dims = *self;
        let total = self.total();
        let mut slots: Vec<Option<T>> = Vec::new();
        while slots.len() < total
            invariant
                slots@.len() <= total,
                forall|s: int| 0 <= s < slots@.len() ==> (#[trigger] slots@[s]) is None,
            decreases total - slots@.len(),
        {
            slots.push(None);
        }

        let ghost pairs0 = pairs@;
        let mut pairs = pairs;
        while pairs.len() > 0
            invariant
                slots@.len() == dims.total_spec(),
                pairs@ == pairs0.take(pairs@.len() as int),
                pairs@.len() <= pairs0.len(),
                forall|i: int|
                    pairs@.len() <= i < pairs0.len() ==> {
                        let c = (#[trigger] pairs0[i]).0;
                        &&& dims.in_bounds(c.0 as int, c.1 as int, c.2 as int)
                        &&& slots@[dims.cell_index_spec(c.0 as int, c.1 as int, c.2 as int)]
                            == Some(pairs0[i].1)
                    },
                forall|s: int|
                    0 <= s < slots@.len() ==> ((#[trigger] slots@[s]) is Some ==> exists|i: int|
                        pairs@.len() <= i < pairs0.len() && dims.cell_index_spec(
                            ((#[trigger] pairs0[i]).0).0 as int,
                            (pairs0[i].0).1 as int,
                            (pairs0[i].0).2 as int,
                        ) == s && slots@[s] == Some(pairs0[i].1)),
            decreases pairs@.len(),
        {
            let ghost old_len = pairs@.len() as int;
            let ghost old_slots = slots@;
            let p = pairs.pop().unwrap();
            proof {
                assert(pairs0.take(old_len).subrange(0, old_len - 1) =~= pairs0.take(old_len - 1));
                assert(p == pairs0[old_len - 1]);
            }
            let ((x, y, z), cell) = p;
            if x >= self.nx || y >= self.ny || z >= self.nz {
                proof {
                    assert((pairs0[old_len - 1]).0 == (x, y, z));
                    assert(!dims.pairs_in_bounds(pairs0));
                }
                return None;
            }
            let idx = self.cell_index(x, y, z);
            if slots[idx].is_some() {
                proof {
                    let j = choose|i: int|
                        old_len <= i < pairs0.len() && dims.cell_index_spec(
                            ((#[trigger] pairs0[i]).0).0 as int,
                            (pairs0[i].0).1 as int,
                            (pairs0[i].0).2 as int,
                        ) == idx && slots@[idx as int] == Some(pairs0[i].1);
                    let cj = pairs0[j].0;
                    dims.lemma_cell_index_injective(
                        x as int,
                        y as int,
                        z as int,
                        cj.0 as int,
                        cj.1 as int,
                        cj.2 as int,
                    );
                    assert((pairs0[old_len - 1]).0 == (pairs0[j]).0);
                    assert(!Self::pairs_distinct(pairs0));
                }
                return None;
            }
            slots[idx] = Some(cell);
            proof {
                assert forall|i: int| pairs@.len() <= i < pairs0.len() implies {
                    let c = (#[trigger] pairs0[i]).0;
                    &&& dims.in_bounds(c.0 as int, c.1 as int, c.2 as int)
                    &&& slots@[dims.cell_index_spec(c.0 as int, c.1 as int, c.2 as int)] == Some(
                        pairs0[i].1,
                    )
                } by {
                    let c = pairs0[i].0;
                    if i == old_len - 1 {
                        assert(c == (x, y, z));
                        assert(slots@[idx as int] == Some(cell));
                    } else {
                        let s = dims.cell_index_spec(c.0 as int, c.1 as int, c.2 as int);
                        dims.lemma_cell_index_bounds(c.0 as int, c.1 as int, c.2 as int);
                        assert(old_slots[s] == Some(pairs0[i].1));
                        if s == idx {
                            assert(false);
                        }
                        assert(slots@[s] == old_slots[s]);
                    }
                }
                assert forall|s: int|
                    0 <= s < slots@.len() && (#[trigger] slots@[s]) is Some implies exists|i: int|
                    pairs@.len() <= i < pairs0.len() && dims.cell_index_spec(
                        ((#[trigger] pairs0[i]).0).0 as int,
                        (pairs0[i].0).1 as int,
                        (pairs0[i].0).2 as int,
                    ) == s && slots@[s] == Some(pairs0[i].1) by {
                    if s == idx {
                        assert(dims.cell_index_spec(
                            ((pairs0[old_len - 1]).0).0 as int,
                            ((pairs0[old_len - 1]).0).1 as int,
                            ((pairs0[old_len - 1]).0).2 as int,
                        ) == s && slots@[s] == Some(pairs0[old_len - 1].1));
                    } else {
                        assert(old_slots[s] == slots@[s]);
                        let i = choose|i: int|
                            old_len <= i < pairs0.len() && dims.cell_index_spec(
                                ((#[trigger] pairs0[i]).0).0 as int,
                                (pairs0[i].0).1 as int,
                                (pairs0[i].0).2 as int,
                            ) == s && old_slots[s] == Some(pairs0[i].1);
                        assert(pairs@.len() <= i);
                    }
                }
            }
        }
        proof {
            assert(pairs@.len() == 0);
        }

        let ghost slots_full = slots@;
        let mut rev: Vec<T> = Vec::new();
        while slots.len() > 0
            invariant
                slots@ == slots_full.subrange(0, slots@.len() as int),
                rev@.len() + slots@.len() == slots_full.len(),
                forall|i: int|
                    0 <= i < rev@.len() ==> Some(#[trigger] rev@[i]) == slots_full[slots_full.len()
                        - 1 - i],
            decreases slots@.len(),
        {
            let ghost s = slots@.len() - 1;
            let top = slots.pop().unwrap();
            match top {
                Some(c) => {
                    rev.push(c);
                },
                None => {
                    proof {
                        if dims.pairs_in_bounds(pairs0) && Self::pairs_distinct(pairs0)
                            && dims.pairs_cover(pairs0) {
                            dims.lemma_coord_of(s);
                            let cc = (
                                (dims.coord_of(s).0) as usize,
                                (dims.coord_of(s).1) as usize,
                                (dims.coord_of(s).2) as usize,
                            );
                            assert(dims.in_bounds(cc.0 as int, cc.1 as int, cc.2 as int));
                            let i = choose|i: int|
                                0 <= i < pairs0.len() && (#[trigger] pairs0[i]).0 == cc;
                            assert(slots_full[dims.cell_index_spec(
                                cc.0 as int,
                                cc.1 as int,
                                cc.2 as int,
                            )] == Some(pairs0[i].1));
                            assert(false);
                        }
                    }
                    return None;
                },
            }
        }

        let mut cells: Vec<T> = Vec::new();
        while rev.len() > 0
            invariant
                cells@.len() + rev@.len() == slots_full.len(),
                forall|i: int|
                    0 <= i < rev@.len() ==> Some(#[trigger] rev@[i]) == slots_full[slots_full.len()
                        - 1 - i],
                forall|i: int|
                    0 <= i < cells@.len() ==> Some(#[trigger] cells@[i]) == slots_full[i],
            decreases rev@.len(),
        {
            let c = rev.pop().unwrap();
            cells.push(c);
        }

        proof {
            assert forall|i: int| 0 <= i < pairs0.len() implies {
                let c = (#[trigger] pairs0[i]).0;
                &&& dims.in_bounds(c.0 as int, c.1 as int, c.2 as int)
                &&& cells@[dims.cell_index_spec(c.0 as int, c.1 as int, c.2 as int)] == pairs0[i].1
            } by {
                let c = pairs0[i].0;
                let s = dims.cell_index_spec(c.0 as int, c.1 as int, c.2 as int);
                dims.lemma_cell_index_bounds(c.0 as int, c.1 as int, c.2 as int);
                assert(slots_full[s] == Some(pairs0[i].1));
                assert(Some(cells@[s]) == slots_full[s]);
            }
            assert forall|s: int| 0 <= s < cells@.len() implies #[trigger] self.cell_from_pairs(
                pairs0,
                cells@,
                s,
            ) by {
                assert(slots_full[s] == Some(cells@[s]));
                let i = choose|i: int|
                    pairs@.len() <= i < pairs0.len() && dims.cell_index_spec(
                        ((#[trigger] pairs0[i]).0).0 as int,
                        (pairs0[i].0).1 as int,
                        (pairs0[i].0).2 as int,
                    ) == s && slots_full[s] == Some(pairs0[i].1);
                assert(0 <= i < pairs0.len() && self.cell_index_spec(
                    ((pairs0[i]).0).0 as int,
                    (pairs0[i].0).1 as int,
                    (pairs0[i].0).2 as int,
                ) == s && cells@[s] == pairs0[i].1);
            }
        }
        Some(cells)
    }
}


/// One axis of the grid.
#[derive(Clone, Copy, PartialEq, Eq, Structural, Debug)]
pub enum Axis {
    X,
    Y,
    Z,
}

impl GridDims {
    /// Per-axis traversal step: `+1` where the ray direction component is
    /// non-negative, `-1` where it is negative.
    pub fn get_step_directions(&self, dir_nonneg: (bool, bool, bool)) -> (r: (i64, i64, i64))
        ensures
            r.0 == if dir_nonneg.0 { 1int } else { -1int },
            r.1 == if dir_nonneg.1 { 1int } else { -1int },
            r.2 == if dir_nonneg.2 { 1int } else { -1int },
    {
        (
            if dir_nonneg.0 { 1 } else { -1 },
            if dir_nonneg.1 { 1 } else { -1 },
            if dir_nonneg.2 { 1 } else { -1 },
        )
    }

    /// Per-axis sentinel index that lies one step past the last cell in
    /// the direction of travel: the cell count where the ray direction
    /// component is non-negative, `-1` where it is negative.
    pub fn get_step_out_values(&self, dir_nonneg: (bool, bool, bool)) -> (r: (i64, i64, i64))
        requires
            self.wf(),
        ensures
            r.0 == if dir_nonneg.0 { self.nx as int } else { -1int },
            r.1 == if dir_nonneg.1 { self.ny as int } else { -1int },
            r.2 == if dir_nonneg.2 { self.nz as int } else { -1int },
    {
        proof {
            assert(self.nx <= self.nx * self.ny * self.nz && self.ny <= self.nx * self.ny
                * self.nz && self.nz <= self.nx * self.ny * self.nz) by (nonlinear_arith)
                requires
                    1 <= self.nx && 1 <= self.ny && 1 <= self.nz,
            ;
        }
        (
            if dir_nonneg.0 { self.nx as i64 } else { -1 },
            if dir_nonneg.1 { self.ny as i64 } else { -1 },
            if dir_nonneg.2 { self.nz as i64 } else { -1 },
        )
    }

    /// Step and sentinel agree with `dir_nonneg` on every axis.
    pub open spec fn step_consistent(
        self,
        dir_nonneg: (bool, bool, bool),
        step: (i64, i64, i64),
        just_out: (i64, i64, i64),
    ) -> bool {
        &&& step.0 == if dir_nonneg.0 { 1int } else { -1int }
        &&& step.1 == if dir_nonneg.1 { 1int } else { -1int }
        &&& step.2 == if dir_nonneg.2 { 1int } else { -1int }
        &&& just_out.0 == if dir_nonneg.0 { self.nx as int } else { -1int }
        &&& just_out.1 == if dir_nonneg.1 { self.ny as int } else { -1int }
        &&& just_out.2 == if dir_nonneg.2 { self.nz as int } else { -1int }
    }

    /// Advance the traversal one cell along `axis`, as the inner loop of
    /// the nearest-hit query does: add the step to that axis's cell index
    /// and compare against the sentinel. `None` means the ray has left
    /// the grid; otherwise the new cell is again inside the grid.
    pub fn step_cell(
        &self,
        pos: (i64, i64, i64),
        axis: Axis,
        dir_nonneg: (bool, bool, bool),
        step: (i64, i64, i64),
        just_out: (i64, i64, i64),
    ) -> (r: Option<(i64, i64, i64)>)
        requires
            self.wf(),
            self.step_consistent(dir_nonneg, step, just_out),
            self.in_bounds(pos.0 as int, pos.1 as int, pos.2 as int),
        ensures
            ({
                let moved = match axis {
                    Axis::X => (pos.0 + step.0, pos.1 as int, pos.2 as int),
                    Axis::Y => (pos.0 as int, pos.1 + step.1, pos.2 as int),
                    Axis::Z => (pos.0 as int, pos.1 as int, pos.2 + step.2),
                };
                match r {
                    Some(p) => (p.0 as int, p.1 as int, p.2 as int) == moved && self.in_bounds(
                        p.0 as int,
                        p.1 as int,
                        p.2 as int,
                    ),
                    None => match axis {
                        Axis::X => moved.0 == just_out.0,
                        Axis::Y => moved.1 == just_out.1,
                        Axis::Z => moved.2 == just_out.2,
                    },
                }
            }),
    {
        proof {
            assert(self.nx <= self.nx * self.ny * self.nz && self.ny <= self.nx * self.ny
                * self.nz && self.nz <= self.nx * self.ny * self.nz) by (nonlinear_arith)
                requires
                    1 <= self.nx && 1 <= self.ny && 1 <= self.nz,
            ;
        }
        match axis {
            Axis::X => {
                let nxt = pos.0 + step.0;
                if nxt == just_out.0 {
                    None
                } else {
                    Some((nxt, pos.1, pos.2))
                }
            },
            Axis::Y => {
                let nxt = pos.1 + step.1;
                if nxt == just_out.1 {
                    None
                } else {
                    Some((pos.0, nxt, pos.2))
                }
            },
            Axis::Z => {
                let nxt = pos.2 + step.2;
                if nxt == just_out.2 {
                    None
                } else {
                    Some((pos.0, pos.1, nxt))
                }
            },
        }
    }
}


impl GridDims {
    /// The work packets of grid construction: the shuffled cell
    /// coordinates, divided among one worker per logical CPU. Together
    /// the packets hold every cell of the grid exactly once.
    pub fn divide_grid_work(&self) -> (r: Vec<Vec<(usize, usize, usize)>>)
        requires
            self.wf(),
        ensures
            r@.len() >= 1,
            views_of(r@).flatten().to_multiset() == self.coords_seq().to_multiset(),
    {
        let cells = self.shuffled_cell_coordinates();
        let workers = crate::render::worker_count();
        split_for_workers(cells, workers)
    }
}

} // verus!
