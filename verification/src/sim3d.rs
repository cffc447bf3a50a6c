//! The integer state of the three-dimensional simulation.
//!
//! Cells are unit cubes indexed `(i, j, k)` with `0 <= i < gx`,
//! `0 <= j < gy`, `0 <= k < gz`. The three velocity components live on the
//! faces perpendicular to their axis: `(gx + 1) * gy * gz` faces for `u`,
//! `gx * (gy + 1) * gz` for `v` and `gx * gy * (gz + 1)` for `w`. Every
//! array is stored with `i` fastest and `k` slowest.

use vstd::prelude::*;
use crate::grid::{
    flat3, lemma_flat3_bound, lemma_flat3_end, lemma_flat3_injective, lemma_flat3_next,
};
use crate::sim2d::{AIR, FLUID, SOLID};

verus! {

/// Flat index of the face `(i, j, k)` perpendicular to x.
pub fn iu(i: usize, j: usize, k: usize, gx: usize, gy: usize) -> (r: usize)
    requires
        gx + 1 <= usize::MAX,
        j + gy * k <= usize::MAX,
        i + (gx + 1) * (j + gy * k) <= usize::MAX,
    ensures
        r == flat3(i as int, j as int, k as int, gx + 1, gy as int),
{
    assert(0 <= gy * k && 0 <= (gx + 1) * (j + gy * k)) by (nonlinear_arith);
    i + (gx + 1) * (j + gy * k)
}

/// Flat index of the face `(i, j, k)` perpendicular to y.
pub fn iv(i: usize, j: usize, k: usize, gx: usize, gy: usize) -> (r: usize)
    requires
        gy + 1 <= usize::MAX,
        j + (gy + 1) * k <= usize::MAX,
        i + gx * (j + (gy + 1) * k) <= usize::MAX,
    ensures
        r == flat3(i as int, j as int, k as int, gx as int, gy + 1),
{
    assert(0 <= (gy + 1) * k && 0 <= gx * (j + (gy + 1) * k)) by (nonlinear_arith);
    i + gx * (j + (gy + 1) * k)
}

/// Flat index of the face `(i, j, k)` perpendicular to z.
pub fn iw(i: usize, j: usize, k: usize, gx: usize, gy: usize) -> (r: usize)
    requires
        j + gy * k <= usize::MAX,
        i + gx * (j + gy * k) <= usize::MAX,
    ensures
        r == flat3(i as int, j as int, k as int, gx as int, gy as int),
{
    assert(0 <= gy * k && 0 <= gx * (j + gy * k)) by (nonlinear_arith);
    i + gx * (j + gy * k)
}

/// Flat index of the cell `(i, j, k)`.
pub fn ic(i: usize, j: usize, k: usize, gx: usize, gy: usize) -> (r: usize)
    requires
        j + gy * k <= usize::MAX,
        i + gx * (j + gy * k) <= usize::MAX,
    ensures
        r == flat3(i as int, j as int, k as int, gx as int, gy as int),
{
    assert(0 <= gy * k && 0 <= gx * (j + gy * k)) by (nonlinear_arith);
    i + gx * (j + gy * k)
}

/// What a [`Sim3D`] holds, as plain values.
pub struct Sim3DView {
    pub gx: usize,
    pub gy: usize,
    pub gz: usize,
    /// One code per cell: [`FLUID`], [`AIR`] or [`SOLID`].
    pub cell_type: Seq<u8>,
}

impl Sim3DView {
    /// Code of cell `(i, j, k)`.
    pub open spec fn cell(self, i: int, j: int, k: int) -> u8 {
        self.cell_type[flat3(i, j, k, self.gx as int, self.gy as int)]
    }

    /// `(i, j, k)` names a cell of the grid.
    pub open spec fn in_grid(self, i: int, j: int, k: int) -> bool {
        0 <= i < self.gx && 0 <= j < self.gy && 0 <= k < self.gz
    }

    /// `(i, j, k)` is a cell that does not touch the border.
    pub open spec fn interior(self, i: int, j: int, k: int) -> bool {
        1 <= i < self.gx - 1 && 1 <= j < self.gy - 1 && 1 <= k < self.gz - 1
    }

    /// `(i, j, k)` is a cell of the grid on its outermost shell.
    pub open spec fn border(self, i: int, j: int, k: int) -> bool {
        self.in_grid(i, j, k) && !self.interior(i, j, k)
    }

    /// Cell `(i, j, k)` is a cell of the grid coded solid.
    pub open spec fn solid(self, i: int, j: int, k: int) -> bool {
        self.in_grid(i, j, k) && self.cell(i, j, k) == SOLID
    }

    /// Extent `(nx, ny, nz)` of the face array of `axis` (0 for x, 1 for y,
    /// any other value for z).
    pub open spec fn face_dims(self, axis: u8) -> (int, int, int) {
        if axis == 0 {
            (self.gx + 1, self.gy as int, self.gz as int)
        } else if axis == 1 {
            (self.gx as int, self.gy + 1, self.gz as int)
        } else {
            (self.gx as int, self.gy as int, self.gz + 1)
        }
    }

    /// Number of faces perpendicular to `axis`.
    pub open spec fn face_len(self, axis: u8) -> int {
        let (nx, ny, nz) = self.face_dims(axis);
        nx * ny * nz
    }

    /// `(i, j, k)` names a face perpendicular to `axis`.
    pub open spec fn in_faces(self, axis: u8, i: int, j: int, k: int) -> bool {
        let (nx, ny, nz) = self.face_dims(axis);
        0 <= i < nx && 0 <= j < ny && 0 <= k < nz
    }

    /// Flat index of the face `(i, j, k)` perpendicular to `axis`.
    pub open spec fn face_index(self, axis: u8, i: int, j: int, k: int) -> int {
        let (nx, ny, nz) = self.face_dims(axis);
        flat3(i, j, k, nx, ny)
    }

    /// The face `(i, j, k)` perpendicular to `axis` touches a solid cell:
    /// the cell `(i, j, k)` or its neighbour one step back along `axis`.
    pub open spec fn face_closed(self, axis: u8, i: int, j: int, k: int) -> bool {
        self.solid(i, j, k) || (if axis == 0 {
            self.solid(i - 1, j, k)
        } else if axis == 1 {
            self.solid(i, j - 1, k)
        } else {
            self.solid(i, j, k - 1)
        })
    }

    /// `Some` index of face `(i, j, k)` of `axis` when `ok`, else `None`.
    pub open spec fn face_opt(self, axis: u8, ok: bool, i: int, j: int, k: int) -> Option<usize> {
        if ok && self.in_faces(axis, i, j, k) {
            Some(self.face_index(axis, i, j, k) as usize)
        } else {
            None
        }
    }

    /// The faces of `axis` that a particle deposits on when its shifted
    /// position floors to `(i, j, k)`: the eight corners `(i + di, j + dj,
    /// k + dk)` with `di` fastest, each `None` when it lies outside the face
    /// array or when any of `i`, `j`, `k` is negative.
    pub open spec fn deposit(self, axis: u8, i: int, j: int, k: int) -> Seq<Option<usize>> {
        let ok = i >= 0 && j >= 0 && k >= 0;
        seq![
            self.face_opt(axis, ok, i, j, k),
            self.face_opt(axis, ok, i + 1, j, k),
            self.face_opt(axis, ok, i, j + 1, k),
            self.face_opt(axis, ok, i + 1, j + 1, k),
            self.face_opt(axis, ok, i, j, k + 1),
            self.face_opt(axis, ok, i + 1, j, k + 1),
            self.face_opt(axis, ok, i, j + 1, k + 1),
            self.face_opt(axis, ok, i + 1, j + 1, k + 1),
        ]
    }

    /// The eight faces of `axis` that trilinear sampling at `(i, j, k)`
    /// reads, in the corner order of [`Sim3DView::deposit`], or `None` when
    /// they are not all inside the face array (the sample is zero).
    pub open spec fn sample(self, axis: u8, i: int, j: int, k: int) -> Option<Seq<usize>> {
        if i >= 0 && j >= 0 && k >= 0 && self.in_faces(axis, i + 1, j + 1, k + 1) {
            Some(
                seq![
                    self.face_index(axis, i, j, k) as usize,
                    self.face_index(axis, i + 1, j, k) as usize,
                    self.face_index(axis, i, j + 1, k) as usize,
                    self.face_index(axis, i + 1, j + 1, k) as usize,
                    self.face_index(axis, i, j, k + 1) as usize,
                    self.face_index(axis, i + 1, j, k + 1) as usize,
                    self.face_index(axis, i, j + 1, k + 1) as usize,
                    self.face_index(axis, i + 1, j + 1, k + 1) as usize,
                ],
            )
        } else {
            None
        }
    }

    /// The pressure-solve stencil of cell `(i, j, k)`: `None` unless the cell
    /// is fluid, otherwise whether each neighbour is open (not solid), in the
    /// order `i - 1`, `i + 1`, `j - 1`, `j + 1`, `k - 1`, `k + 1`.
    pub open spec fn pressure_stencil(self, i: int, j: int, k: int) -> Option<Seq<bool>> {
        if self.cell(i, j, k) != FLUID {
            None
        } else {
            Some(
                seq![
                    self.cell(i - 1, j, k) != SOLID,
                    self.cell(i + 1, j, k) != SOLID,
                    self.cell(i, j - 1, k) != SOLID,
                    self.cell(i, j + 1, k) != SOLID,
                    self.cell(i, j, k - 1) != SOLID,
                    self.cell(i, j, k + 1) != SOLID,
                ],
            )
        }
    }
}

/// Some particle among the first `n` lies in cell `(i, j, k)`.
pub open spec fn has_particle3(parts: Seq<(i32, i32, i32)>, n: int, i: int, j: int, k: int) -> bool {
    exists|q: int|
        0 <= q < n && #[trigger] parts[q].0 == i && parts[q].1 == j && parts[q].2 == k
}

/// The code that classification gives cell `(i, j, k)`: solid on the
/// border, fluid for an interior cell that holds a particle, air otherwise.
pub open spec fn classify3(v: Sim3DView, parts: Seq<(i32, i32, i32)>, i: int, j: int, k: int) -> u8 {
    if v.border(i, j, k) {
        SOLID
    } else if has_particle3(parts, parts.len() as int, i, j, k) {
        FLUID
    } else {
        AIR
    }
}

/// Grid sizes whose cell and face arrays all fit in memory, each product
/// taken in the order the sizes are multiplied.
pub open spec fn valid_dims3(gx: int, gy: int, gz: int) -> bool {
    &&& 0 <= gx < usize::MAX
    &&& 0 <= gy < usize::MAX
    &&& 0 <= gz < usize::MAX
    &&& (gx + 1) * gy <= usize::MAX
    &&& (gx + 1) * gy * gz <= usize::MAX
    &&& gx * (gy + 1) <= usize::MAX
    &&& gx * (gy + 1) * gz <= usize::MAX
    &&& gx * gy <= usize::MAX
    &&& gx * gy * (gz + 1) <= usize::MAX
    &&& gx * gy * gz <= usize::MAX
}

/// The state is well formed: one code per cell, each one of the three.
pub open spec fn wf3(v: Sim3DView) -> bool {
    &&& valid_dims3(v.gx as int, v.gy as int, v.gz as int)
    &&& v.cell_type.len() == v.gx * v.gy * v.gz
    &&& forall|q: int| 0 <= q < v.cell_type.len() ==> #[trigger] v.cell_type[q] <= SOLID
}

/// The cell types and grid size of a 3D simulation.
pub struct Sim3D {
    gx: usize,
    gy: usize,
    gz: usize,
    cell_type: Vec<u8>,
}

impl View for Sim3D {
    type V = Sim3DView;

    closed spec fn view(&self) -> Sim3DView {
        Sim3DView { gx: self.gx, gy: self.gy, gz: self.gz, cell_type: self.cell_type@ }
    }
}

impl Sim3D {
    /// The state is well formed; every constructor establishes it and every
    /// method keeps it.
    pub open spec fn wf(&self) -> bool {
        wf3(self@)
    }

    /// A grid of `gx` by `gy` by `gz` cells, every cell air.
    pub fn new(gx: usize, gy: usize, gz: usize) -> (s: Sim3D)
        requires
            valid_dims3(gx as int, gy as int, gz as int),
        ensures
            s.wf(),
            s@.gx == gx,
            s@.gy == gy,
            s@.gz == gz,
            s@.cell_type == Seq::new((gx * gy * gz) as nat, |q: int| AIR),
    {
        let n = gx * gy * gz;
        let mut cell_type: Vec<u8> = Vec::new();
        let mut q: usize = 0;
        while q < n
            invariant
                q <= n,
                cell_type@ == Seq::new(q as nat, |p: int| AIR),
            decreases n - q,
        {
            cell_type.push(AIR);
            q = q + 1;
        }
        Sim3D { gx, gy, gz, cell_type }
    }

    /// Number of cells along x.
    pub fn grid_x(&self) -> (r: usize)
        ensures
            r == self@.gx,
    {
        self.gx
    }

    /// Number of cells along y.
    pub fn grid_y(&self) -> (r: usize)
        ensures
            r == self@.gy,
    {
        self.gy
    }

    /// Number of cells along z.
    pub fn grid_z(&self) -> (r: usize)
        ensures
            r == self@.gz,
    {
        self.gz
    }

    /// The cell codes, one per cell, `i` fastest.
    pub fn cell_types(&self) -> (r: &Vec<u8>)
        ensures
            r@ == self@.cell_type,
    {
        &self.cell_type
    }

    /// Recomputes every cell code: the border shell is solid, an interior
    /// cell that holds a particle (`particles[q]` is the cell of particle
    /// `q`, in any range) is fluid, every other cell is air.
    pub fn classify_cells(&mut self, particles: &Vec<(i32, i32, i32)>)
        requires
            old(self).wf(),
        ensures
            final(self).wf(),
            final(self)@.gx == old(self)@.gx,
            final(self)@.gy == old(self)@.gy,
            final(self)@.gz == old(self)@.gz,
            forall|i: int, j: int, k: int|
                old(self)@.in_grid(i, j, k) ==> #[trigger] final(self)@.cell(i, j, k) == classify3(
                    old(self)@,
                    particles@,
                    i,
                    j,
                    k,
                ),
            forall|q: int|
                0 <= q < particles@.len() && 1 <= #[trigger] particles@[q].0 < old(self)@.gx - 1 && 1
                    <= particles@[q].1 < old(self)@.gy - 1 && 1 <= particles@[q].2 < old(self)@.gz - 1
                    ==> raw_cell3(final(self)@, particles@[q].0 as int, particles@[q].1 as int, particles@[q].2 as int) == FLUID,
    {
        let ghost v0 = self@;
        let gx = self.gx;
        let gy = self.gy;
        let gz = self.gz;
        let n = gx * gy * gz;
        let mut ct: Vec<u8> = Vec::new();
        if gx > 0 && gy > 0 {
            let mut i: usize = 0;
            let mut j: usize = 0;
            let mut k: usize = 0;
            let mut q: usize = 0;
            proof {
                lemma_flat3_end(gx as int, gy as int, gz as int);
                assert(flat3(0, 0, 0, gx as int, gy as int) == 0) by (nonlinear_arith);
            }
            while q < n
                invariant
                    v0 == self@,
                    wf3(v0),
                    gx == v0.gx,
                    gy == v0.gy,
                    gz == v0.gz,
                    n == gx * gy * gz,
                    flat3(0, 0, gz as int, gx as int, gy as int) == n,
                    i < gx,
                    j < gy,
                    k <= gz,
                    k == gz ==> i == 0 && j == 0,
                    q <= n,
                    q == flat3(i as int, j as int, k as int, gx as int, gy as int),
                    ct.len() == q,
                    forall|p: int| 0 <= p < ct.len() ==> #[trigger] ct@[p] <= SOLID,
                    forall|i2: int, j2: int, k2: int|
                        v0.in_grid(i2, j2, k2) && flat3(i2, j2, k2, gx as int, gy as int) < q
                            ==> #[trigger] ct@[flat3(i2, j2, k2, gx as int, gy as int)] == (if v0.border(i2, j2, k2) {
                            SOLID
                        } else {
                            AIR
                        }),
                decreases n - q,
            {
                assert(k < gz);
                let border = i == 0 || j == 0 || k == 0 || i + 1 == gx || j + 1 == gy || k + 1 == gz;
                ct.push(if border { SOLID } else { AIR });
                proof {
                    lemma_flat3_next(i as int, j as int, k as int, gx as int, gy as int);
                    assert forall|i2: int, j2: int, k2: int|
                        v0.in_grid(i2, j2, k2) && flat3(i2, j2, k2, gx as int, gy as int) < q + 1
                            implies #[trigger] ct@[flat3(i2, j2, k2, gx as int, gy as int)] == (if v0.border(i2, j2, k2) {
                            SOLID
                        } else {
                            AIR
                        }) by {
                        if flat3(i2, j2, k2, gx as int, gy as int) == q {
                            lemma_flat3_injective(i2, j2, k2, i as int, j as int, k as int, gx as int, gy as int);
                        }
                    }
                }
                q = q + 1;
                if i + 1 < gx {
                    i = i + 1;
                } else if j + 1 < gy {
                    i = 0;
                    j = j + 1;
                } else {
                    i = 0;
                    j = 0;
                    k = k + 1;
                }
            }
            proof {
                assert forall|i2: int, j2: int, k2: int| v0.in_grid(i2, j2, k2) implies flat3(i2, j2, k2, gx as int, gy as int) < q by {
                    lemma_flat3_bound(i2, j2, k2, gx as int, gy as int, gz as int);
                }
            }
        } else {
            assert(n == 0) by (nonlinear_arith)
                requires
                    gx == 0 || gy == 0,
                    n == gx * gy * gz,
            ;
        }
        let np = particles.len();
        let mut p: usize = 0;
        while p < np
            invariant
                v0 == self@,
                wf3(v0),
                gx == v0.gx,
                gy == v0.gy,
                gz == v0.gz,
                n == gx * gy * gz,
                p <= np,
                np == particles.len(),
                ct.len() == n,
                forall|q: int| 0 <= q < ct.len() ==> #[trigger] ct@[q] <= SOLID,
                forall|i2: int, j2: int, k2: int|
                    v0.in_grid(i2, j2, k2) ==> #[trigger] ct@[flat3(i2, j2, k2, gx as int, gy as int)] == (
                    if v0.border(i2, j2, k2) {
                        SOLID
                    } else if has_particle3(particles@, p as int, i2, j2, k2) {
                        FLUID
                    } else {
                        AIR
                    }),
            decreases np - p,
        {
            let (pi, pj, pk) = particles[p];
            if pi > 0 && pj > 0 && pk > 0 && (pi as usize) + 1 < gx && (pj as usize) + 1 < gy
                && (pk as usize) + 1 < gz {
                let iu = pi as usize;
                let ju = pj as usize;
                let ku = pk as usize;
                proof {
                    lemma_flat3_bound(iu as int, ju as int, ku as int, gx as int, gy as int, gz as int);
                    assert(0 <= gy * ku <= gy * gz) by (nonlinear_arith)
                        requires
                            ku < gz,
                    ;
                    assert(0 <= ju + gy * ku <= gx * (ju + gy * ku)) by (nonlinear_arith)
                        requires
                            0 <= ju + gy * ku,
                            gx >= 1,
                    ;
                }
                let c = iu + gx * (ju + gy * ku);
                if ct[c] != SOLID {
                    ct.set(c, FLUID);
                }
                proof {
                    assert forall|i2: int, j2: int, k2: int| v0.in_grid(i2, j2, k2) implies #[trigger] ct@[flat3(i2, j2, k2, gx as int, gy as int)] == (
                        if v0.border(i2, j2, k2) {
                            SOLID
                        } else if has_particle3(particles@, p + 1, i2, j2, k2) {
                            FLUID
                        } else {
                            AIR
                        }) by {
                        lemma_flat3_bound(i2, j2, k2, gx as int, gy as int, gz as int);
                        if flat3(i2, j2, k2, gx as int, gy as int) == c {
                            lemma_flat3_injective(i2, j2, k2, iu as int, ju as int, ku as int, gx as int, gy as int);
                            assert(particles@[p as int].0 == i2 && particles@[p as int].1 == j2 && particles@[p as int].2 == k2);
                        } else {
                            if has_particle3(particles@, p + 1, i2, j2, k2) && !has_particle3(particles@, p as int, i2, j2, k2) {
                                let w = choose|w: int| 0 <= w < p + 1 && #[trigger] particles@[w].0 == i2 && particles@[w].1 == j2 && particles@[w].2 == k2;
                                assert(w == p);
                            }
                        }
                        if has_particle3(particles@, p as int, i2, j2, k2) {
                            let w = choose|w: int| 0 <= w < p && #[trigger] particles@[w].0 == i2 && particles@[w].1 == j2 && particles@[w].2 == k2;
                            assert(0 <= w < p + 1);
                        }
                    }
                }
            } else {
                proof {
                    assert forall|i2: int, j2: int, k2: int| v0.in_grid(i2, j2, k2) implies #[trigger] ct@[flat3(i2, j2, k2, gx as int, gy as int)] == (
                        if v0.border(i2, j2, k2) {
                            SOLID
                        } else if has_particle3(particles@, p + 1, i2, j2, k2) {
                            FLUID
                        } else {
                            AIR
                        }) by {
                        if has_particle3(particles@, p + 1, i2, j2, k2) && !has_particle3(particles@, p as int, i2, j2, k2) {
                            let w = choose|w: int| 0 <= w < p + 1 && #[trigger] particles@[w].0 == i2 && particles@[w].1 == j2 && particles@[w].2 == k2;
                            assert(w == p);
                        }
                        if has_particle3(particles@, p as int, i2, j2, k2) {
                            let w = choose|w: int| 0 <= w < p && #[trigger] particles@[w].0 == i2 && particles@[w].1 == j2 && particles@[w].2 == k2;
                            assert(0 <= w < p + 1);
                        }
                    }
                }
            }
            p = p + 1;
        }
        self.cell_type = ct;
        proof {
            assert forall|q: int|
                0 <= q < particles@.len() && 1 <= #[trigger] particles@[q].0 < v0.gx - 1 && 1
                    <= particles@[q].1 < v0.gy - 1 && 1 <= particles@[q].2 < v0.gz - 1
                    implies raw_cell3(self@, particles@[q].0 as int, particles@[q].1 as int, particles@[q].2 as int) == FLUID by {
                law_classify_particle_cell_is_fluid(v0, particles@, q);
                assert(self@.cell(particles@[q].0 as int, particles@[q].1 as int, particles@[q].2 as int) == classify3(
                    v0,
                    particles@,
                    particles@[q].0 as int,
                    particles@[q].1 as int,
                    particles@[q].2 as int,
                ));
            }
        }
    }

    /// Whether `(i, j, k)` is a cell of the grid coded solid.
    fn solid_at(&self, i: usize, j: usize, k: usize) -> (r: bool)
        requires
            self.wf(),
        ensures
            r == self@.solid(i as int, j as int, k as int),
    {
        if i < self.gx && j < self.gy && k < self.gz {
            let c = self.cell_index(i, j, k);
            self.cell_type[c] == SOLID
        } else {
            false
        }
    }

    /// Flat index of cell `(i, j, k)`.
    fn cell_index(&self, i: usize, j: usize, k: usize) -> (r: usize)
        requires
            self.wf(),
            self@.in_grid(i as int, j as int, k as int),
        ensures
            r == flat3(i as int, j as int, k as int, self.gx as int, self.gy as int),
            r < self@.cell_type.len(),
    {
        let gx = self.gx;
        let gy = self.gy;
        proof {
            lemma_flat3_bound(i as int, j as int, k as int, gx as int, gy as int, self.gz as int);
            assert(0 <= j + gy * k <= gx * (j + gy * k)) by (nonlinear_arith)
                requires
                    gx >= 1,
                    k >= 0,
            ;
        }
        i + gx * (j + gy * k)
    }

    /// Extent of the face array of `axis`.
    fn face_dims_exec(&self, axis: u8) -> (r: (usize, usize, usize))
        requires
            self.wf(),
        ensures
            r.0 as int == self@.face_dims(axis).0,
            r.1 as int == self@.face_dims(axis).1,
            r.2 as int == self@.face_dims(axis).2,
            r.0 * r.1 * r.2 <= usize::MAX,
    {
        if axis == 0 {
            (self.gx + 1, self.gy, self.gz)
        } else if axis == 1 {
            (self.gx, self.gy + 1, self.gz)
        } else {
            (self.gx, self.gy, self.gz + 1)
        }
    }

    /// Flat index of the face `(i, j, k)` of `axis`.
    fn face_index_exec(&self, axis: u8, i: usize, j: usize, k: usize) -> (r: usize)
        requires
            self.wf(),
            self@.in_faces(axis, i as int, j as int, k as int),
        ensures
            r == self@.face_index(axis, i as int, j as int, k as int),
            r < self@.face_len(axis),
    {
        let (nx, ny, nz) = self.face_dims_exec(axis);
        proof {
            lemma_flat3_bound(i as int, j as int, k as int, nx as int, ny as int, nz as int);
            assert(0 <= j + ny * k <= nx * (j + ny * k)) by (nonlinear_arith)
                requires
                    nx >= 1,
                    k >= 0,
            ;
        }
        i + nx * (j + ny * k)
    }

    /// Which faces of `axis` (0 for x, 1 for y, any other value for z) touch
    /// a solid cell, one flag per face. Setting the velocity of every flagged
    /// face to zero enforces the solid boundary.
    pub fn solid_faces(&self, axis: u8) -> (r: Vec<bool>)
        requires
            self.wf(),
        ensures
            r.len() == self@.face_len(axis),
            forall|i: int, j: int, k: int|
                self@.in_faces(axis, i, j, k) ==> #[trigger] r@[self@.face_index(axis, i, j, k)]
                    == self@.face_closed(axis, i, j, k),
    {
        let ghost v0 = self@;
        let (nx, ny, nz) = self.face_dims_exec(axis);
        let n = nx * ny * nz;
        let mut out: Vec<bool> = Vec::new();
        if nx > 0 && ny > 0 {
            let mut i: usize = 0;
            let mut j: usize = 0;
            let mut k: usize = 0;
            let mut q: usize = 0;
            proof {
                lemma_flat3_end(nx as int, ny as int, nz as int);
                assert(flat3(0, 0, 0, nx as int, ny as int) == 0) by (nonlinear_arith);
            }
            while q < n
                invariant
                    v0 == self@,
                    wf3(v0),
                    nx == v0.face_dims(axis).0,
                    ny == v0.face_dims(axis).1,
                    nz == v0.face_dims(axis).2,
                    n == nx * ny * nz,
                    flat3(0, 0, nz as int, nx as int, ny as int) == n,
                    i < nx,
                    j < ny,
                    k <= nz,
                    k == nz ==> i == 0 && j == 0,
                    q <= n,
                    q == flat3(i as int, j as int, k as int, nx as int, ny as int),
                    out.len() == q,
                    forall|i2: int, j2: int, k2: int|
                        v0.in_faces(axis, i2, j2, k2) && flat3(i2, j2, k2, nx as int, ny as int) < q
                            ==> #[trigger] out@[flat3(i2, j2, k2, nx as int, ny as int)]
                            == v0.face_closed(axis, i2, j2, k2),
                decreases n - q,
            {
                assert(k < nz);
                let here = self.solid_at(i, j, k);
                let back = if axis == 0 {
                    i > 0 && self.solid_at(i - 1, j, k)
                } else if axis == 1 {
                    j > 0 && self.solid_at(i, j - 1, k)
                } else {
                    k > 0 && self.solid_at(i, j, k - 1)
                };
                out.push(here || back);
                proof {
                    lemma_flat3_next(i as int, j as int, k as int, nx as int, ny as int);
                    assert forall|i2: int, j2: int, k2: int|
                        v0.in_faces(axis, i2, j2, k2) && flat3(i2, j2, k2, nx as int, ny as int) < q + 1
                            implies #[trigger] out@[flat3(i2, j2, k2, nx as int, ny as int)]
                            == v0.face_closed(axis, i2, j2, k2) by {
                        if flat3(i2, j2, k2, nx as int, ny as int) == q {
                            lemma_flat3_injective(i2, j2, k2, i as int, j as int, k as int, nx as int, ny as int);
                        }
                    }
                }
                q = q + 1;
                if i + 1 < nx {
                    i = i + 1;
                } else if j + 1 < ny {
                    i = 0;
                    j = j + 1;
                } else {
                    i = 0;
                    j = 0;
                    k = k + 1;
                }
            }
            proof {
                assert forall|i2: int, j2: int, k2: int| v0.in_faces(axis, i2, j2, k2) implies flat3(i2, j2, k2, nx as int, ny as int) < q by {
                    lemma_flat3_bound(i2, j2, k2, nx as int, ny as int, nz as int);
                }
            }
        } else {
            assert(n == 0) by (nonlinear_arith)
                requires
                    nx == 0 || ny == 0,
                    n == nx * ny * nz,
            ;
        }
        out
    }

    /// For the pressure solve at interior cell `(i, j, k)`: `None` when the
    /// cell is not fluid (it is skipped), otherwise whether each neighbour is
    /// open (not solid), in the order `i - 1`, `i + 1`, `j - 1`, `j + 1`,
    /// `k - 1`, `k + 1`.
    pub fn pressure_stencil(&self, i: usize, j: usize, k: usize) -> (r: Option<[bool; 6]>)
        requires
            self.wf(),
            1 <= i,
            i + 1 < self@.gx,
            1 <= j,
            j + 1 < self@.gy,
            1 <= k,
            k + 1 < self@.gz,
        ensures
            r is Some == self@.pressure_stencil(i as int, j as int, k as int) is Some,
            r is Some ==> r.unwrap()@ == self@.pressure_stencil(i as int, j as int, k as int).unwrap(),
            (r is Some) == (raw_cell3(self@, i as int, j as int, k as int) == FLUID),
    {
        proof {
            law_pressure_stencil_exact(self@, i as int, j as int, k as int);
        }
        let c = self.cell_index(i, j, k);
        if self.cell_type[c] != FLUID {
            return None;
        }
        let a = [
            self.cell_type[self.cell_index(i - 1, j, k)] != SOLID,
            self.cell_type[self.cell_index(i + 1, j, k)] != SOLID,
            self.cell_type[self.cell_index(i, j - 1, k)] != SOLID,
            self.cell_type[self.cell_index(i, j + 1, k)] != SOLID,
            self.cell_type[self.cell_index(i, j, k - 1)] != SOLID,
            self.cell_type[self.cell_index(i, j, k + 1)] != SOLID,
        ];
        assert(a@ =~= self@.pressure_stencil(i as int, j as int, k as int).unwrap());
        Some(a)
    }

    /// `Some` face index of `(i + di, j + dj, k + dk)` when it lies in the
    /// face array of `axis`.
    fn corner_opt(&self, axis: u8, i: usize, j: usize, k: usize, di: usize, dj: usize, dk: usize) -> (r: Option<usize>)
        requires
            self.wf(),
            di <= 1,
            dj <= 1,
            dk <= 1,
            i <= i32::MAX,
            j <= i32::MAX,
            k <= i32::MAX,
        ensures
            r == self@.face_opt(axis, true, i + di, j + dj, k + dk),
    {
        let (nx, ny, nz) = self.face_dims_exec(axis);
        let ii = i + di;
        let jj = j + dj;
        let kk = k + dk;
        if ii < nx && jj < ny && kk < nz {
            Some(self.face_index_exec(axis, ii, jj, kk))
        } else {
            None
        }
    }

    /// The faces of `axis` that a particle deposits on when its shifted
    /// position floors to `(i, j, k)` (in any range).
    pub fn splat_faces(&self, axis: u8, i: i32, j: i32, k: i32) -> (r: [Option<usize>; 8])
        requires
            self.wf(),
        ensures
            r@ == self@.deposit(axis, i as int, j as int, k as int),
            ({
                let (nx, ny, nz) = face_extent(self@, axis);
                r@[0] == (if i >= 0 && j >= 0 && k >= 0 && i < nx && j < ny && k < nz {
                    Some((i + nx * (j + ny * k)) as usize)
                } else {
                    None::<usize>
                })
            }),
    {
        proof {
            law_deposit_corner(self@, axis, i as int, j as int, k as int, 0, 0, 0);
        }
        if i < 0 || j < 0 || k < 0 {
            let r = [None, None, None, None, None, None, None, None];
            assert(r@ =~= self@.deposit(axis, i as int, j as int, k as int));
            return r;
        }
        let iu = i as usize;
        let ju = j as usize;
        let ku = k as usize;
        let r = [
            self.corner_opt(axis, iu, ju, ku, 0, 0, 0),
            self.corner_opt(axis, iu, ju, ku, 1, 0, 0),
            self.corner_opt(axis, iu, ju, ku, 0, 1, 0),
            self.corner_opt(axis, iu, ju, ku, 1, 1, 0),
            self.corner_opt(axis, iu, ju, ku, 0, 0, 1),
            self.corner_opt(axis, iu, ju, ku, 1, 0, 1),
            self.corner_opt(axis, iu, ju, ku, 0, 1, 1),
            self.corner_opt(axis, iu, ju, ku, 1, 1, 1),
        ];
        assert(r@ =~= self@.deposit(axis, i as int, j as int, k as int));
        r
    }

    /// The eight faces of `axis` read when sampling at `(i, j, k)` (in any
    /// range), or `None` when the sample is zero.
    pub fn sample_faces(&self, axis: u8, i: i32, j: i32, k: i32) -> (r: Option<[usize; 8]>)
        requires
            self.wf(),
        ensures
            r is Some == self@.sample(axis, i as int, j as int, k as int) is Some,
            r is Some ==> r.unwrap()@ == self@.sample(axis, i as int, j as int, k as int).unwrap(),
            ({
                let (nx, ny, nz) = face_extent(self@, axis);
                (r is Some) == (i >= 0 && j >= 0 && k >= 0 && i + 1 < nx && j + 1 < ny && k + 1 < nz)
            }),
    {
        proof {
            law_sample_corner(self@, axis, i as int, j as int, k as int, 0, 0, 0);
        }
        if i < 0 || j < 0 || k < 0 {
            return None;
        }
        let (nx, ny, nz) = self.face_dims_exec(axis);
        let iu = i as usize;
        let ju = j as usize;
        let ku = k as usize;
        if iu + 1 >= nx || ju + 1 >= ny || ku + 1 >= nz {
            return None;
        }
        let a = [
            self.face_index_exec(axis, iu, ju, ku),
            self.face_index_exec(axis, iu + 1, ju, ku),
            self.face_index_exec(axis, iu, ju + 1, ku),
            self.face_index_exec(axis, iu + 1, ju + 1, ku),
            self.face_index_exec(axis, iu, ju, ku + 1),
            self.face_index_exec(axis, iu + 1, ju, ku + 1),
            self.face_index_exec(axis, iu, ju + 1, ku + 1),
            self.face_index_exec(axis, iu + 1, ju + 1, ku + 1),
        ];
        assert(a@ =~= self@.sample(axis, i as int, j as int, k as int).unwrap());
        Some(a)
    }
}

/// Transfer consistency: whenever sampling faces of `axis` at `(i, j, k)`
/// reads eight faces, depositing at the same `(i, j, k)` writes exactly
/// those eight faces, in the same corner order.
pub proof fn law_sampled_faces_are_deposited(v: Sim3DView, axis: u8, i: int, j: int, k: int)
    requires
        wf3(v),
    ensures
        v.sample(axis, i, j, k) is Some ==> v.deposit(axis, i, j, k) == v.sample(
            axis,
            i,
            j,
            k,
        ).unwrap().map_values(|x: usize| Some(x)),
{
    if v.sample(axis, i, j, k) is Some {
        assert(v.deposit(axis, i, j, k) =~= v.sample(axis, i, j, k).unwrap().map_values(
            |x: usize| Some(x),
        ));
    }
}

/// A solid cell closes all six of its faces.
pub proof fn law_solid_cell_faces_closed(v: Sim3DView, i: int, j: int, k: int)
    requires
        v.solid(i, j, k),
    ensures
        v.face_closed(0, i, j, k) && v.face_closed(0, i + 1, j, k),
        v.face_closed(1, i, j, k) && v.face_closed(1, i, j + 1, k),
        v.face_closed(2, i, j, k) && v.face_closed(2, i, j, k + 1),
{
}

/// After classification no flow crosses the border shell: every face of a
/// border cell is closed.
pub proof fn law_classified_border_closed(
    v: Sim3DView,
    parts: Seq<(i32, i32, i32)>,
    c: Sim3DView,
    i: int,
    j: int,
    k: int,
)
    requires
        c.gx == v.gx,
        c.gy == v.gy,
        c.gz == v.gz,
        forall|i2: int, j2: int, k2: int|
            v.in_grid(i2, j2, k2) ==> #[trigger] c.cell(i2, j2, k2) == classify3(v, parts, i2, j2, k2),
        v.border(i, j, k),
    ensures
        c.face_closed(0, i, j, k) && c.face_closed(0, i + 1, j, k),
        c.face_closed(1, i, j, k) && c.face_closed(1, i, j + 1, k),
        c.face_closed(2, i, j, k) && c.face_closed(2, i, j, k + 1),
{
    assert(c.cell(i, j, k) == classify3(v, parts, i, j, k));
}

/// The open sides of the pressure stencil of an interior fluid cell are
/// exactly its faces that the solid boundary leaves open.
pub proof fn law_stencil_matches_open_faces(v: Sim3DView, i: int, j: int, k: int)
    requires
        v.interior(i, j, k),
        v.cell(i, j, k) == FLUID,
    ensures
        v.pressure_stencil(i, j, k) == Some(
            seq![
                !v.face_closed(0, i, j, k),
                !v.face_closed(0, i + 1, j, k),
                !v.face_closed(1, i, j, k),
                !v.face_closed(1, i, j + 1, k),
                !v.face_closed(2, i, j, k),
                !v.face_closed(2, i, j, k + 1),
            ],
        ),
{
    assert(v.pressure_stencil(i, j, k).unwrap() =~= seq![
        !v.face_closed(0, i, j, k),
        !v.face_closed(0, i + 1, j, k),
        !v.face_closed(1, i, j, k),
        !v.face_closed(1, i, j + 1, k),
        !v.face_closed(2, i, j, k),
        !v.face_closed(2, i, j, k + 1),
    ]);
}

/// Every particle marks its own cell: when particle `q` (any particle of
/// the list, the last one included) lies in an interior cell,
/// classification codes that cell fluid.
pub proof fn law_classify_particle_cell_is_fluid(v: Sim3DView, parts: Seq<(i32, i32, i32)>, q: int)
    requires
        0 <= q < parts.len(),
        1 <= parts[q].0 < v.gx - 1,
        1 <= parts[q].1 < v.gy - 1,
        1 <= parts[q].2 < v.gz - 1,
    ensures
        classify3(v, parts, parts[q].0 as int, parts[q].1 as int, parts[q].2 as int) == FLUID,
{
    assert(has_particle3(parts, parts.len() as int, parts[q].0 as int, parts[q].1 as int, parts[q].2 as int));
}

/// Classification codes a cell solid exactly when it lies on the border,
/// fluid only when some particle lies in it, and air otherwise.
pub proof fn law_classify_codes(v: Sim3DView, parts: Seq<(i32, i32, i32)>, i: int, j: int, k: int)
    requires
        0 <= i < v.gx,
        0 <= j < v.gy,
        0 <= k < v.gz,
    ensures
        (classify3(v, parts, i, j, k) == SOLID) == (i == 0 || j == 0 || k == 0 || i == v.gx - 1 || j
            == v.gy - 1 || k == v.gz - 1),
        classify3(v, parts, i, j, k) == FLUID ==> exists|q: int|
            0 <= q < parts.len() && parts[q].0 == i && parts[q].1 == j && #[trigger] parts[q].2 == k,
        classify3(v, parts, i, j, k) == SOLID || classify3(v, parts, i, j, k) == FLUID || classify3(
            v,
            parts,
            i,
            j,
            k,
        ) == AIR,
{
}

/// Code of cell `(i, j, k)`, read directly from the cell array.
pub open spec fn raw_cell3(v: Sim3DView, i: int, j: int, k: int) -> u8 {
    v.cell_type[i + v.gx * (j + v.gy * k)]
}

/// A face is closed exactly when one of the two cells it separates is a
/// solid cell of the grid; a face between two non-solid cells stays open.
pub proof fn law_face_closed_exactly(v: Sim3DView, i: int, j: int, k: int)
    ensures
        v.face_closed(0, i, j, k) == ((0 <= i < v.gx && 0 <= j < v.gy && 0 <= k < v.gz && raw_cell3(
            v,
            i,
            j,
            k,
        ) == SOLID) || (0 <= i - 1 < v.gx && 0 <= j < v.gy && 0 <= k < v.gz && raw_cell3(v, i - 1, j, k)
            == SOLID)),
        v.face_closed(1, i, j, k) == ((0 <= i < v.gx && 0 <= j < v.gy && 0 <= k < v.gz && raw_cell3(
            v,
            i,
            j,
            k,
        ) == SOLID) || (0 <= i < v.gx && 0 <= j - 1 < v.gy && 0 <= k < v.gz && raw_cell3(v, i, j - 1, k)
            == SOLID)),
        v.face_closed(2, i, j, k) == ((0 <= i < v.gx && 0 <= j < v.gy && 0 <= k < v.gz && raw_cell3(
            v,
            i,
            j,
            k,
        ) == SOLID) || (0 <= i < v.gx && 0 <= j < v.gy && 0 <= k - 1 < v.gz && raw_cell3(v, i, j, k - 1)
            == SOLID)),
{
}

/// The pressure solve visits a cell exactly when it is fluid, and a side is
/// open exactly when the neighbour there is not solid.
pub proof fn law_pressure_stencil_exact(v: Sim3DView, i: int, j: int, k: int)
    ensures
        (v.pressure_stencil(i, j, k) is Some) == (raw_cell3(v, i, j, k) == FLUID),
        v.pressure_stencil(i, j, k) is Some ==> v.pressure_stencil(i, j, k).unwrap() == seq![
            raw_cell3(v, i - 1, j, k) != SOLID,
            raw_cell3(v, i + 1, j, k) != SOLID,
            raw_cell3(v, i, j - 1, k) != SOLID,
            raw_cell3(v, i, j + 1, k) != SOLID,
            raw_cell3(v, i, j, k - 1) != SOLID,
            raw_cell3(v, i, j, k + 1) != SOLID,
        ],
{
}

/// Extent of the face array of `axis` along x, y and z: one more face than
/// cells along the axis itself.
pub open spec fn face_extent(v: Sim3DView, axis: u8) -> (int, int, int) {
    (
        if axis == 0 { v.gx + 1 } else { v.gx as int },
        if axis == 1 { v.gy + 1 } else { v.gy as int },
        if axis != 0 && axis != 1 { v.gz + 1 } else { v.gz as int },
    )
}

/// Corner `(di, dj, dk)` of a deposit at `(i, j, k)` is the face
/// `(i + di, j + dj, k + dk)` exactly when `i`, `j`, `k` are not negative
/// and that face lies in the face array.
pub proof fn law_deposit_corner(v: Sim3DView, axis: u8, i: int, j: int, k: int, di: int, dj: int, dk: int)
    requires
        0 <= di <= 1,
        0 <= dj <= 1,
        0 <= dk <= 1,
    ensures
        v.deposit(axis, i, j, k).len() == 8,
        ({
            let (nx, ny, nz) = face_extent(v, axis);
            v.deposit(axis, i, j, k)[di + 2 * dj + 4 * dk] == (if i >= 0 && j >= 0 && k >= 0 && i + di
                < nx && j + dj < ny && k + dk < nz {
                Some(((i + di) + nx * ((j + dj) + ny * (k + dk))) as usize)
            } else {
                None::<usize>
            })
        }),
{
}

/// Sampling reads the eight faces around `(i, j, k)` whenever all eight lie
/// in the face array, and only then; corner `(di, dj, dk)` is the face
/// `(i + di, j + dj, k + dk)`.
pub proof fn law_sample_corner(v: Sim3DView, axis: u8, i: int, j: int, k: int, di: int, dj: int, dk: int)
    requires
        0 <= di <= 1,
        0 <= dj <= 1,
        0 <= dk <= 1,
    ensures
        ({
            let (nx, ny, nz) = face_extent(v, axis);
            &&& (v.sample(axis, i, j, k) is Some) == (i >= 0 && j >= 0 && k >= 0 && i + 1 < nx && j + 1
                < ny && k + 1 < nz)
            &&& v.sample(axis, i, j, k) is Some ==> v.sample(axis, i, j, k).unwrap().len() == 8
                && v.sample(axis, i, j, k).unwrap()[di + 2 * dj + 4 * dk] == ((i + di) + nx * ((j
                + dj) + ny * (k + dk))) as usize
        }),
{
}

} // verus!
