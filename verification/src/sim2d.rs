//! The integer state of the two-dimensional simulation.
//!
//! Cells are square and indexed `(i, j)` with `0 <= i < gw`, `0 <= j < gh`.
//! Horizontal velocities live on the vertical faces, `(gw + 1) * gh` of
//! them; vertical velocities live on the horizontal faces, `gw * (gh + 1)` of
//! them. Every array is stored row-major.

use vstd::prelude::*;
use crate::grid::{flat2, lemma_flat2_bound, lemma_flat2_decode, lemma_flat2_injective};

verus! {

/// Cell code of a cell that holds fluid.
pub const FLUID: u8 = 0;

/// Cell code of an empty cell.
pub const AIR: u8 = 1;

/// Cell code of a wall or border cell.
pub const SOLID: u8 = 2;

/// Flat index of the vertical face `(i, j)`, left of cell `(i, j)`.
pub fn idx_u(i: usize, j: usize, gw: usize) -> (r: usize)
    requires
        gw + 1 <= usize::MAX,
        i + (gw + 1) * j <= usize::MAX,
    ensures
        r == flat2(i as int, j as int, gw + 1),
{
    i + (gw + 1) * j
}

/// Flat index of the horizontal face `(i, j)`, above cell `(i, j)`.
pub fn idx_v(i: usize, j: usize, gw: usize) -> (r: usize)
    requires
        i + gw * j <= usize::MAX,
    ensures
        r == flat2(i as int, j as int, gw as int),
{
    i + gw * j
}

/// Flat index of the cell `(i, j)`.
pub fn idx_c(i: usize, j: usize, gw: usize) -> (r: usize)
    requires
        i + gw * j <= usize::MAX,
    ensures
        r == flat2(i as int, j as int, gw as int),
{
    i + gw * j
}

/// What a [`Sim2D`] holds, as plain values.
pub struct Sim2DView {
    pub gw: usize,
    pub gh: usize,
    /// One code per cell: [`FLUID`], [`AIR`] or [`SOLID`].
    pub cell_type: Seq<u8>,
    /// One entry per cell; nonzero marks a painted wall.
    pub walls: Seq<u8>,
}

impl Sim2DView {
    /// Code of cell `(i, j)`.
    pub open spec fn cell(self, i: int, j: int) -> u8 {
        self.cell_type[flat2(i, j, self.gw as int)]
    }

    /// Wall entry of cell `(i, j)`.
    pub open spec fn wall(self, i: int, j: int) -> u8 {
        self.walls[flat2(i, j, self.gw as int)]
    }

    /// `(i, j)` names a cell of the grid.
    pub open spec fn in_grid(self, i: int, j: int) -> bool {
        0 <= i < self.gw && 0 <= j < self.gh
    }

    /// `(i, j)` is a cell that does not touch the border.
    pub open spec fn interior(self, i: int, j: int) -> bool {
        1 <= i < self.gw - 1 && 1 <= j < self.gh - 1
    }

    /// `(i, j)` is a cell of the grid on its outermost ring.
    pub open spec fn border(self, i: int, j: int) -> bool {
        self.in_grid(i, j) && !self.interior(i, j)
    }

    /// Number of vertical faces.
    pub open spec fn u_len(self) -> int {
        (self.gw + 1) * self.gh
    }

    /// Number of horizontal faces.
    pub open spec fn v_len(self) -> int {
        self.gw * (self.gh + 1)
    }

    /// Cell `(i, j)` is a cell of the grid coded solid.
    pub open spec fn solid(self, i: int, j: int) -> bool {
        self.in_grid(i, j) && self.cell(i, j) == SOLID
    }

    /// The vertical face `(i, j)` carries no flow: it lies on the left or
    /// right edge of the domain or touches a solid cell.
    pub open spec fn u_closed(self, i: int, j: int) -> bool {
        i == 0 || i == self.gw || self.solid(i - 1, j) || self.solid(i, j)
    }

    /// The horizontal face `(i, j)` carries no flow: it lies on the top or
    /// bottom edge of the domain or touches a solid cell.
    pub open spec fn v_closed(self, i: int, j: int) -> bool {
        j == 0 || j == self.gh || self.solid(i, j - 1) || self.solid(i, j)
    }

    /// The vertical faces that a particle whose shifted sample position lies
    /// in cell `(i, j)` deposits on, in the order `(i, j)`, `(i + 1, j)`,
    /// `(i, j + 1)`, `(i + 1, j + 1)`; `None` for a corner that is skipped.
    pub open spec fn u_deposit(self, i: int, j: int) -> Seq<Option<usize>> {
        let ok = self.in_grid(i, j);
        let nx = self.gw + 1;
        seq![
            face_opt(ok, i, j, nx),
            face_opt(ok && i + 1 <= self.gw, i + 1, j, nx),
            face_opt(ok && j + 1 < self.gh, i, j + 1, nx),
            face_opt(ok && i + 1 <= self.gw && j + 1 < self.gh, i + 1, j + 1, nx),
        ]
    }

    /// The horizontal faces that a particle whose shifted sample position
    /// lies in cell `(i, j)` deposits on, in the same corner order as
    /// [`Sim2DView::u_deposit`].
    pub open spec fn v_deposit(self, i: int, j: int) -> Seq<Option<usize>> {
        let ok = self.in_grid(i, j);
        let nx = self.gw as int;
        seq![
            face_opt(ok, i, j, nx),
            face_opt(ok && i + 1 < self.gw, i + 1, j, nx),
            face_opt(ok && j + 1 <= self.gh, i, j + 1, nx),
            face_opt(ok && i + 1 < self.gw && j + 1 <= self.gh, i + 1, j + 1, nx),
        ]
    }

    /// The four vertical faces that bilinear sampling at cell `(i, j)` reads,
    /// or `None` when they are not all inside the grid (the sample is zero).
    pub open spec fn u_sample(self, i: int, j: int) -> Option<Seq<usize>> {
        if 0 <= i < self.gw && 0 <= j && j + 1 < self.gh {
            Some(corners(i, j, self.gw + 1))
        } else {
            None
        }
    }

    /// The four horizontal faces that bilinear sampling at cell `(i, j)`
    /// reads, or `None` when they are not all inside the grid.
    pub open spec fn v_sample(self, i: int, j: int) -> Option<Seq<usize>> {
        if 0 <= i && i + 1 < self.gw && 0 <= j < self.gh {
            Some(corners(i, j, self.gw as int))
        } else {
            None
        }
    }

    /// The pressure-solve stencil of cell `(i, j)`: `None` unless the cell is
    /// fluid, otherwise whether the left, right, upper (`j - 1`) and lower
    /// (`j + 1`) neighbours are open (not solid).
    pub open spec fn pressure_stencil(self, i: int, j: int) -> Option<(bool, bool, bool, bool)> {
        if self.cell(i, j) != FLUID {
            None
        } else {
            Some(
                (
                    self.cell(i - 1, j) != SOLID,
                    self.cell(i + 1, j) != SOLID,
                    self.cell(i, j - 1) != SOLID,
                    self.cell(i, j + 1) != SOLID,
                ),
            )
        }
    }
}

/// `Some` flat index of `(i, j)` in rows of `nx` when `ok`, else `None`.
pub open spec fn face_opt(ok: bool, i: int, j: int, nx: int) -> Option<usize> {
    if ok {
        Some(flat2(i, j, nx) as usize)
    } else {
        None
    }
}

/// Flat indices of `(i, j)` and its four neighbours in rows of `nx`, in
/// the order centre, `i - 1`, `i + 1`, `j - 1`, `j + 1`.
pub open spec fn cross(i: int, j: int, nx: int) -> Seq<usize> {
    seq![
        flat2(i, j, nx) as usize,
        flat2(i - 1, j, nx) as usize,
        flat2(i + 1, j, nx) as usize,
        flat2(i, j - 1, nx) as usize,
        flat2(i, j + 1, nx) as usize,
    ]
}

/// Flat indices of `(i, j)`, `(i + 1, j)`, `(i, j + 1)`, `(i + 1, j + 1)`.
pub open spec fn corners(i: int, j: int, nx: int) -> Seq<usize> {
    seq![
        flat2(i, j, nx) as usize,
        flat2(i + 1, j, nx) as usize,
        flat2(i, j + 1, nx) as usize,
        flat2(i + 1, j + 1, nx) as usize,
    ]
}

/// The cell types, painted walls and grid size of a 2D simulation.
pub struct Sim2D {
    gw: usize,
    gh: usize,
    cell_type: Vec<u8>,
    walls: Vec<u8>,
}

impl View for Sim2D {
    type V = Sim2DView;

    closed spec fn view(&self) -> Sim2DView {
        Sim2DView {
            gw: self.gw,
            gh: self.gh,
            cell_type: self.cell_type@,
            walls: self.walls@,
        }
    }
}

/// Grid sizes whose cell and face arrays all fit in memory.
pub open spec fn valid_dims2(gw: int, gh: int) -> bool {
    &&& 0 <= gw < usize::MAX
    &&& 0 <= gh < usize::MAX
    &&& (gw + 1) * gh <= usize::MAX
    &&& gw * (gh + 1) <= usize::MAX
    &&& gw * gh <= usize::MAX
}

/// Cell `(i, j)` lies in the round brush of radius `r` centred on
/// `(ci, cj)`: inside the square of half-width `r` and no farther than `r`
/// from the centre.
pub open spec fn in_brush(i: int, j: int, ci: int, cj: int, r: int) -> bool {
    &&& -r <= i - ci <= r
    &&& -r <= j - cj <= r
    &&& (i - ci) * (i - ci) + (j - cj) * (j - cj) <= r * r
}

/// `after` is `before` with the brush of radius `r` around `(ci, cj)`
/// painted with `val`: only the wall entries of interior cells inside the
/// brush change, and they become `val`.
pub open spec fn painted(before: Sim2DView, ci: int, cj: int, r: int, val: u8, after: Sim2DView) -> bool {
    &&& after.gw == before.gw
    &&& after.gh == before.gh
    &&& after.cell_type == before.cell_type
    &&& after.walls.len() == before.walls.len()
    &&& forall|i: int, j: int|
        before.in_grid(i, j) ==> #[trigger] after.wall(i, j) == (if before.interior(i, j) && in_brush(
            i,
            j,
            ci,
            cj,
            r,
        ) {
            val
        } else {
            before.wall(i, j)
        })
}

/// Some particle among the first `n` lies in cell `(i, j)`.
pub open spec fn has_particle2(parts: Seq<(i32, i32)>, n: int, i: int, j: int) -> bool {
    exists|k: int| 0 <= k < n && #[trigger] parts[k].0 == i && parts[k].1 == j
}

/// The code that classification gives cell `(i, j)`: solid for a painted
/// wall or a border cell, fluid for any other cell that holds a particle, air
/// otherwise.
pub open spec fn classify2(v: Sim2DView, parts: Seq<(i32, i32)>, i: int, j: int) -> u8 {
    if v.wall(i, j) != 0 || v.border(i, j) {
        SOLID
    } else if has_particle2(parts, parts.len() as int, i, j) {
        FLUID
    } else {
        AIR
    }
}

/// The state is well formed: arrays have one entry per cell and every cell
/// holds one of the three codes.
pub open spec fn wf2(v: Sim2DView) -> bool {
    &&& valid_dims2(v.gw as int, v.gh as int)
    &&& v.cell_type.len() == v.gw * v.gh
    &&& v.walls.len() == v.gw * v.gh
    &&& forall|k: int| 0 <= k < v.cell_type.len() ==> #[trigger] v.cell_type[k] <= SOLID
}

impl Sim2D {
    /// The state is well formed; every constructor establishes it and every
    /// method keeps it.
    pub open spec fn wf(&self) -> bool {
        wf2(self@)
    }

    /// A grid of `gw` by `gh` cells, every cell air and no wall painted.
    pub fn new(gw: usize, gh: usize) -> (s: Sim2D)
        requires
            valid_dims2(gw as int, gh as int),
        ensures
            s@.gw == gw,
            s@.gh == gh,
            s@.cell_type == Seq::new((gw * gh) as nat, |k: int| AIR),
            s@.walls == Seq::new((gw * gh) as nat, |k: int| 0u8),
            s.wf(),
    {
        let n = gw * gh;
        let mut cell_type: Vec<u8> = Vec::new();
        let mut walls: Vec<u8> = Vec::new();
        let mut k: usize = 0;
        while k < n
            invariant
                k <= n,
                cell_type@ == Seq::new(k as nat, |q: int| AIR),
                walls@ == Seq::new(k as nat, |q: int| 0u8),
            decreases n - k,
        {
            cell_type.push(AIR);
            walls.push(0);
            k = k + 1;
        }
        Sim2D { gw, gh, cell_type, walls }
    }

    /// Number of cell columns.
    pub fn grid_w(&self) -> (r: usize)
        ensures
            r == self@.gw,
    {
        self.gw
    }

    /// Number of cell rows.
    pub fn grid_h(&self) -> (r: usize)
        ensures
            r == self@.gh,
    {
        self.gh
    }

    /// The wall entries, one per cell, row-major.
    pub fn walls(&self) -> (r: &Vec<u8>)
        ensures
            r@ == self@.walls,
    {
        &self.walls
    }

    /// The cell codes, one per cell, row-major.
    pub fn cell_types(&self) -> (r: &Vec<u8>)
        ensures
            r@ == self@.cell_type,
    {
        &self.cell_type
    }

    /// Removes every wall.
    pub fn clear_walls(&mut self)
        requires
            old(self).wf(),
        ensures
            final(self).wf(),
            final(self)@.gw == old(self)@.gw,
            final(self)@.gh == old(self)@.gh,
            final(self)@.cell_type == old(self)@.cell_type,
            final(self)@.walls == Seq::new(old(self)@.walls.len(), |k: int| 0u8),
    {
        let n = self.walls.len();
        let mut walls: Vec<u8> = Vec::new();
        let mut k: usize = 0;
        while k < n
            invariant
                k <= n,
                walls@ == Seq::new(k as nat, |q: int| 0u8),
            decreases n - k,
        {
            walls.push(0);
            k = k + 1;
        }
        self.walls = walls;
    }

    /// Sets the wall entry of every interior cell within the brush of radius
    /// `radius` around `(ci, cj)` to `val` (0 clears, 1 sets). Border cells
    /// are never painted.
    pub fn paint_wall(&mut self, ci: i32, cj: i32, radius: i32, val: u8)
        requires
            old(self).wf(),
        ensures
            final(self).wf(),
            painted(old(self)@, ci as int, cj as int, radius as int, val, final(self)@),
    {
        let ghost v0 = self@;
        let gw = self.gw;
        let gh = self.gh;
        let r: i64 = radius as i64;
        let mut dj: i64 = -r;
        while dj <= r
            invariant
                v0 == old(self)@,
                wf2(v0),
                wf2(self@),
                gw == v0.gw,
                gh == v0.gh,
                r == radius,
                self@.gw == gw,
                self@.gh == gh,
                self@.cell_type == v0.cell_type,
                r >= 0 ==> -r <= dj <= r + 1,
                r < 0 ==> dj == -r,
                forall|i: int, j: int|
                    v0.in_grid(i, j) ==> #[trigger] self@.wall(i, j) == (if j - cj < dj
                        && v0.interior(i, j) && in_brush(i, j, ci as int, cj as int, r as int) {
                        val
                    } else {
                        v0.wall(i, j)
                    }),
            decreases r + 1 - dj,
        {
            let mut di: i64 = -r;
            while di <= r
                invariant
                    v0 == old(self)@,
                    wf2(v0),
                    wf2(self@),
                    gw == v0.gw,
                    gh == v0.gh,
                    r == radius,
                    r >= 0,
                    self@.gw == gw,
                    self@.gh == gh,
                    self@.cell_type == v0.cell_type,
                    -r <= dj <= r,
                    -r <= di <= r + 1,
                    forall|i: int, j: int|
                        v0.in_grid(i, j) ==> #[trigger] self@.wall(i, j) == (if (j - cj < dj || (j
                            - cj == dj && i - ci < di)) && v0.interior(i, j) && in_brush(
                            i,
                            j,
                            ci as int,
                            cj as int,
                            r as int,
                        ) {
                            val
                        } else {
                            v0.wall(i, j)
                        }),
                decreases r + 1 - di,
            {
                let i: i64 = ci as i64 + di;
                let j: i64 = cj as i64 + dj;
                if i >= 1 && j >= 1 && ((i as usize) + 1 < gw) && ((j as usize) + 1 < gh) {
                    assert(0 <= di * di <= r * r && 0 <= dj * dj <= r * r) by (nonlinear_arith)
                        requires
                            -r <= di <= r,
                            -r <= dj <= r,
                    ;
                    assert(r * r <= 0x3fff_ffff_0000_0001) by (nonlinear_arith)
                        requires
                            0 <= r <= 0x7fff_ffff,
                    ;
                    assert(di * di + dj * dj <= 0x7fff_fffe_0000_0002);
                    if di * di + dj * dj <= r * r {
                        let iu: usize = i as usize;
                        let ju: usize = j as usize;
                        proof {
                            lemma_flat2_bound(iu as int, ju as int, gw as int, gh as int);
                            assert(0 <= gw * ju <= gw * gh) by (nonlinear_arith)
                                requires
                                    ju < gh,
                            ;
                        }
                        let k = iu + gw * ju;
                        let ghost before = self@;
                        self.walls.set(k, val);
                        proof {
                            assert forall|i2: int, j2: int| v0.in_grid(i2, j2) implies #[trigger] self@.wall(i2, j2)
                                == (if i2 == i && j2 == j { val } else { before.wall(i2, j2) }) by {
                                lemma_flat2_bound(i2, j2, gw as int, gh as int);
                                if flat2(i2, j2, gw as int) == k {
                                    lemma_flat2_injective(i2, j2, i as int, j as int, gw as int);
                                }
                            }
                        }
                    }
                }
                di = di + 1;
            }
            dj = dj + 1;
        }
    }

    /// Recomputes every cell code from the walls and from the cells that the
    /// particles lie in (`particles[k]` is the cell `(i, j)` of particle `k`,
    /// in any range).
    pub fn classify_cells(&mut self, particles: &Vec<(i32, i32)>)
        requires
            old(self).wf(),
        ensures
            final(self).wf(),
            final(self)@.gw == old(self)@.gw,
            final(self)@.gh == old(self)@.gh,
            final(self)@.walls == old(self)@.walls,
            forall|i: int, j: int|
                old(self)@.in_grid(i, j) ==> #[trigger] final(self)@.cell(i, j) == classify2(
                    old(self)@,
                    particles@,
                    i,
                    j,
                ),
            forall|k: int|
                0 <= k < particles@.len() && 1 <= #[trigger] particles@[k].0 < old(self)@.gw - 1 && 1
                    <= particles@[k].1 < old(self)@.gh - 1 && old(self)@.walls[particles@[k].0 + old(
                    self,
                )@.gw * particles@[k].1] == 0 ==> final(self)@.cell_type[particles@[k].0 + old(
                    self,
                )@.gw * particles@[k].1] == FLUID,
    {
        let ghost v0 = self@;
        let gw = self.gw;
        let gh = self.gh;
        let mut ct: Vec<u8> = Vec::new();
        let mut j: usize = 0;
        while j < gh
            invariant
                v0 == self@,
                wf2(v0),
                gw == v0.gw,
                gh == v0.gh,
                j <= gh,
                ct.len() == gw * j,
                forall|i2: int, j2: int|
                    0 <= i2 < gw && 0 <= j2 < j ==> #[trigger] ct@[flat2(i2, j2, gw as int)] == (
                    if v0.wall(i2, j2) != 0 || v0.border(i2, j2) {
                        SOLID
                    } else {
                        AIR
                    }),
            decreases gh - j,
        {
            let mut i: usize = 0;
            while i < gw
                invariant
                    v0 == self@,
                    wf2(v0),
                    gw == v0.gw,
                    gh == v0.gh,
                    j < gh,
                    i <= gw,
                    ct.len() == gw * j + i,
                    forall|i2: int, j2: int|
                        0 <= i2 < gw && 0 <= j2 <= j && flat2(i2, j2, gw as int) < gw * j + i
                            ==> #[trigger] ct@[flat2(i2, j2, gw as int)] == (if v0.wall(i2, j2) != 0
                            || v0.border(i2, j2) {
                            SOLID
                        } else {
                            AIR
                        }),
                decreases gw - i,
            {
                proof {
                    lemma_flat2_bound(i as int, j as int, gw as int, gh as int);
                }
                let k = i + gw * j;
                let border = i == 0 || j == 0 || i + 1 == gw || j + 1 == gh;
                let code = if self.walls[k] != 0 || border {
                    SOLID
                } else {
                    AIR
                };
                let ghost before = ct@;
                ct.push(code);
                proof {
                    assert forall|i2: int, j2: int|
                        0 <= i2 < gw && 0 <= j2 <= j && flat2(i2, j2, gw as int) < gw * j + i + 1
                            implies #[trigger] ct@[flat2(i2, j2, gw as int)] == (if v0.wall(i2, j2)
                            != 0 || v0.border(i2, j2) {
                            SOLID
                        } else {
                            AIR
                        }) by {
                        if flat2(i2, j2, gw as int) == k {
                            lemma_flat2_injective(i2, j2, i as int, j as int, gw as int);
                        }
                    }
                }
                i = i + 1;
            }
            proof {
                assert(gw * j + gw == gw * (j + 1)) by (nonlinear_arith);
                assert forall|i2: int, j2: int|
                    0 <= i2 < gw && 0 <= j2 < j + 1 implies flat2(i2, j2, gw as int) < gw * j + gw by {
                    lemma_flat2_bound(i2, j2, gw as int, (j + 1) as int);
                }
            }
            j = j + 1;
        }
        let n = particles.len();
        let mut p: usize = 0;
        while p < n
            invariant
                v0 == self@,
                wf2(v0),
                gw == v0.gw,
                gh == v0.gh,
                p <= n,
                n == particles.len(),
                ct.len() == gw * gh,
                forall|i2: int, j2: int|
                    v0.in_grid(i2, j2) ==> #[trigger] ct@[flat2(i2, j2, gw as int)] == (
                    if v0.wall(i2, j2) != 0 || v0.border(i2, j2) {
                        SOLID
                    } else if has_particle2(particles@, p as int, i2, j2) {
                        FLUID
                    } else {
                        AIR
                    }),
            decreases n - p,
        {
            let (pi, pj) = particles[p];
            if pi > 0 && pj > 0 && (pi as usize) + 1 < gw && (pj as usize) + 1 < gh {
                let iu = pi as usize;
                let ju = pj as usize;
                proof {
                    lemma_flat2_bound(iu as int, ju as int, gw as int, gh as int);
                }
                let c = iu + gw * ju;
                if ct[c] != SOLID {
                    let ghost before = ct@;
                    ct.set(c, FLUID);
                    proof {
                        assert forall|i2: int, j2: int| v0.in_grid(i2, j2) implies #[trigger] ct@[flat2(i2, j2, gw as int)] == (
                            if v0.wall(i2, j2) != 0 || v0.border(i2, j2) {
                                SOLID
                            } else if has_particle2(particles@, p + 1, i2, j2) {
                                FLUID
                            } else {
                                AIR
                            }) by {
                            lemma_flat2_bound(i2, j2, gw as int, gh as int);
                            if flat2(i2, j2, gw as int) == c {
                                lemma_flat2_injective(i2, j2, iu as int, ju as int, gw as int);
                                assert(particles@[p as int].0 == i2 && particles@[p as int].1 == j2);
                            } else {
                                if has_particle2(particles@, p + 1, i2, j2) && !has_particle2(particles@, p as int, i2, j2) {
                                    let k = choose|k: int| 0 <= k < p + 1 && #[trigger] particles@[k].0 == i2 && particles@[k].1 == j2;
                                    assert(k == p);
                                }
                                if has_particle2(particles@, p as int, i2, j2) {
                                    let k = choose|k: int| 0 <= k < p && #[trigger] particles@[k].0 == i2 && particles@[k].1 == j2;
                                    assert(0 <= k < p + 1);
                                }
                            }
                        }
                    }
                } else {
                    proof {
                        assert forall|i2: int, j2: int| v0.in_grid(i2, j2) implies #[trigger] ct@[flat2(i2, j2, gw as int)] == (
                            if v0.wall(i2, j2) != 0 || v0.border(i2, j2) {
                                SOLID
                            } else if has_particle2(particles@, p + 1, i2, j2) {
                                FLUID
                            } else {
                                AIR
                            }) by {
                            lemma_flat2_bound(i2, j2, gw as int, gh as int);
                            if has_particle2(particles@, p + 1, i2, j2) && !has_particle2(particles@, p as int, i2, j2) {
                                let k = choose|k: int| 0 <= k < p + 1 && #[trigger] particles@[k].0 == i2 && particles@[k].1 == j2;
                                assert(k == p);
                                lemma_flat2_injective(i2, j2, iu as int, ju as int, gw as int);
                            }
                            if has_particle2(particles@, p as int, i2, j2) {
                                let k = choose|k: int| 0 <= k < p && #[trigger] particles@[k].0 == i2 && particles@[k].1 == j2;
                                assert(0 <= k < p + 1);
                            }
                        }
                    }
                }
            } else {
                proof {
                    assert forall|i2: int, j2: int| v0.in_grid(i2, j2) implies #[trigger] ct@[flat2(i2, j2, gw as int)] == (
                        if v0.wall(i2, j2) != 0 || v0.border(i2, j2) {
                            SOLID
                        } else if has_particle2(particles@, p + 1, i2, j2) {
                            FLUID
                        } else {
                            AIR
                        }) by {
                        if has_particle2(particles@, p + 1, i2, j2) && !has_particle2(particles@, p as int, i2, j2) {
                            let k = choose|k: int| 0 <= k < p + 1 && #[trigger] particles@[k].0 == i2 && particles@[k].1 == j2;
                            assert(k == p);
                        }
                        if has_particle2(particles@, p as int, i2, j2) {
                            let k = choose|k: int| 0 <= k < p && #[trigger] particles@[k].0 == i2 && particles@[k].1 == j2;
                            assert(0 <= k < p + 1);
                        }
                    }
                }
            }
            p = p + 1;
        }
        proof {
            assert forall|q: int| 0 <= q < ct@.len() implies #[trigger] ct@[q] <= SOLID by {
                if gw == 0 {
                    assert(gw * gh == 0) by (nonlinear_arith)
                        requires
                            gw == 0,
                    ;
                }
                lemma_flat2_decode(q, gw as int, gh as int);
            }
        }
        self.cell_type = ct;
        proof {
            assert forall|k: int|
                0 <= k < particles@.len() && 1 <= #[trigger] particles@[k].0 < v0.gw - 1 && 1
                    <= particles@[k].1 < v0.gh - 1 && v0.walls[particles@[k].0 + v0.gw
                    * particles@[k].1] == 0 implies self@.cell_type[particles@[k].0 + v0.gw
                    * particles@[k].1] == FLUID by {
                law_classify_particle_cell_is_fluid(v0, particles@, k);
                assert(self@.cell(particles@[k].0 as int, particles@[k].1 as int) == classify2(
                    v0,
                    particles@,
                    particles@[k].0 as int,
                    particles@[k].1 as int,
                ));
            }
        }
    }

    /// Which faces a solid boundary closes: `(u, v)` with one flag per
    /// vertical and per horizontal face. Setting the velocity of every
    /// flagged face to zero enforces the solid boundary.
    pub fn solid_boundary_faces(&self) -> (r: (Vec<bool>, Vec<bool>))
        requires
            self.wf(),
        ensures
            r.0.len() == self@.u_len(),
            r.1.len() == self@.v_len(),
            forall|i: int, j: int|
                0 <= i <= self@.gw && 0 <= j < self@.gh ==> #[trigger] r.0@[flat2(
                    i,
                    j,
                    self@.gw + 1,
                )] == self@.u_closed(i, j),
            forall|i: int, j: int|
                0 <= i < self@.gw && 0 <= j <= self@.gh ==> #[trigger] r.1@[flat2(
                    i,
                    j,
                    self@.gw as int,
                )] == self@.v_closed(i, j),
            forall|i: int, j: int|
                0 <= i <= self@.gw && 0 <= j < self@.gh ==> #[trigger] r.0@[i + (self@.gw + 1) * j] == (
                i == 0 || i == self@.gw || self@.cell_type[(i - 1) + self@.gw * j] == SOLID
                    || self@.cell_type[i + self@.gw * j] == SOLID),
            forall|i: int, j: int|
                0 <= i < self@.gw && 0 <= j <= self@.gh ==> #[trigger] r.1@[i + self@.gw * j] == (j
                    == 0 || j == self@.gh || self@.cell_type[i + self@.gw * (j - 1)] == SOLID
                    || self@.cell_type[i + self@.gw * j] == SOLID),
    {
        let ghost v0 = self@;
        proof {
            assert forall|i: int, j: int| 0 <= i <= v0.gw && 0 <= j < v0.gh implies #[trigger] v0.u_closed(i, j) == (
                i == 0 || i == v0.gw || v0.cell_type[(i - 1) + v0.gw * j] == SOLID
                    || v0.cell_type[i + v0.gw * j] == SOLID) by {
                law_u_face_closed_exactly(v0, i, j);
            }
            assert forall|i: int, j: int| 0 <= i < v0.gw && 0 <= j <= v0.gh implies #[trigger] v0.v_closed(i, j) == (
                j == 0 || j == v0.gh || v0.cell_type[i + v0.gw * (j - 1)] == SOLID
                    || v0.cell_type[i + v0.gw * j] == SOLID) by {
                law_v_face_closed_exactly(v0, i, j);
            }
        }
        let gw = self.gw;
        let gh = self.gh;
        let nu = gw + 1;
        let mut u: Vec<bool> = Vec::new();
        let mut j: usize = 0;
        while j < gh
            invariant
                v0 == self@,
                wf2(v0),
                gw == v0.gw,
                gh == v0.gh,
                nu == gw + 1,
                j <= gh,
                u.len() == nu * j,
                forall|i2: int, j2: int|
                    0 <= i2 < nu && 0 <= j2 < j ==> #[trigger] u@[flat2(i2, j2, nu as int)]
                        == v0.u_closed(i2, j2),
            decreases gh - j,
        {
            let mut i: usize = 0;
            while i < nu
                invariant
                    v0 == self@,
                    wf2(v0),
                    gw == v0.gw,
                    gh == v0.gh,
                    nu == gw + 1,
                    j < gh,
                    i <= nu,
                    u.len() == nu * j + i,
                    forall|i2: int, j2: int|
                        0 <= i2 < nu && 0 <= j2 <= j && flat2(i2, j2, nu as int) < nu * j + i
                            ==> #[trigger] u@[flat2(i2, j2, nu as int)] == v0.u_closed(i2, j2),
                decreases nu - i,
            {
                let left = if i > 0 {
                    proof {
                        lemma_flat2_bound(i - 1, j as int, gw as int, gh as int);
                    }
                    self.cell_type[(i - 1) + gw * j] == SOLID
                } else {
                    false
                };
                let right = if i < gw {
                    proof {
                        lemma_flat2_bound(i as int, j as int, gw as int, gh as int);
                    }
                    self.cell_type[i + gw * j] == SOLID
                } else {
                    false
                };
                proof {
                    lemma_flat2_bound(i as int, j as int, nu as int, gh as int);
                }
                let k = i + nu * j;
                u.push(i == 0 || i == gw || left || right);
                proof {
                    assert forall|i2: int, j2: int|
                        0 <= i2 < nu && 0 <= j2 <= j && flat2(i2, j2, nu as int) < nu * j + i + 1
                            implies #[trigger] u@[flat2(i2, j2, nu as int)] == v0.u_closed(
                            i2,
                            j2,
                        ) by {
                        if flat2(i2, j2, nu as int) == k {
                            lemma_flat2_injective(i2, j2, i as int, j as int, nu as int);
                        }
                    }
                }
                i = i + 1;
            }
            proof {
                assert(nu * j + nu == nu * (j + 1)) by (nonlinear_arith);
                assert forall|i2: int, j2: int|
                    0 <= i2 < nu && 0 <= j2 < j + 1 implies flat2(i2, j2, nu as int) < nu * j + nu by {
                    lemma_flat2_bound(i2, j2, nu as int, (j + 1) as int);
                }
            }
            j = j + 1;
        }
        let mut v: Vec<bool> = Vec::new();
        let mut j: usize = 0;
        while j <= gh
            invariant
                v0 == self@,
                wf2(v0),
                gw == v0.gw,
                gh == v0.gh,
                j <= gh + 1,
                v.len() == gw * j,
                forall|i2: int, j2: int|
                    0 <= i2 < gw && 0 <= j2 < j ==> #[trigger] v@[flat2(i2, j2, gw as int)]
                        == v0.v_closed(i2, j2),
            decreases gh + 1 - j,
        {
            let mut i: usize = 0;
            while i < gw
                invariant
                    v0 == self@,
                    wf2(v0),
                    gw == v0.gw,
                    gh == v0.gh,
                    j <= gh,
                    i <= gw,
                    v.len() == gw * j + i,
                    forall|i2: int, j2: int|
                        0 <= i2 < gw && 0 <= j2 <= j && flat2(i2, j2, gw as int) < gw * j + i
                            ==> #[trigger] v@[flat2(i2, j2, gw as int)] == v0.v_closed(i2, j2),
                decreases gw - i,
            {
                let above = if j > 0 {
                    proof {
                        lemma_flat2_bound(i as int, j - 1, gw as int, gh as int);
                    }
                    self.cell_type[i + gw * (j - 1)] == SOLID
                } else {
                    false
                };
                let below = if j < gh {
                    proof {
                        lemma_flat2_bound(i as int, j as int, gw as int, gh as int);
                    }
                    self.cell_type[i + gw * j] == SOLID
                } else {
                    false
                };
                proof {
                    lemma_flat2_bound(i as int, j as int, gw as int, (gh + 1) as int);
                }
                let k = i + gw * j;
                v.push(j == 0 || j == gh || above || below);
                proof {
                    assert forall|i2: int, j2: int|
                        0 <= i2 < gw && 0 <= j2 <= j && flat2(i2, j2, gw as int) < gw * j + i + 1
                            implies #[trigger] v@[flat2(i2, j2, gw as int)] == v0.v_closed(
                            i2,
                            j2,
                        ) by {
                        if flat2(i2, j2, gw as int) == k {
                            lemma_flat2_injective(i2, j2, i as int, j as int, gw as int);
                        }
                    }
                }
                i = i + 1;
            }
            proof {
                assert(gw * j + gw == gw * (j + 1)) by (nonlinear_arith);
                assert forall|i2: int, j2: int|
                    0 <= i2 < gw && 0 <= j2 < j + 1 implies flat2(i2, j2, gw as int) < gw * j + gw by {
                    lemma_flat2_bound(i2, j2, gw as int, (j + 1) as int);
                }
            }
            j = j + 1;
        }
        proof {
            assert forall|i: int, j: int| 0 <= i <= v0.gw && 0 <= j < v0.gh implies #[trigger] u@[i + (v0.gw + 1) * j] == (
                i == 0 || i == v0.gw || v0.cell_type[(i - 1) + v0.gw * j] == SOLID
                    || v0.cell_type[i + v0.gw * j] == SOLID) by {
                assert(u@[flat2(i, j, nu as int)] == v0.u_closed(i, j));
                assert(v0.u_closed(i, j) == (i == 0 || i == v0.gw || v0.cell_type[(i - 1) + v0.gw * j] == SOLID
                    || v0.cell_type[i + v0.gw * j] == SOLID));
            }
            assert forall|i: int, j: int| 0 <= i < v0.gw && 0 <= j <= v0.gh implies #[trigger] v@[i + v0.gw * j] == (
                j == 0 || j == v0.gh || v0.cell_type[i + v0.gw * (j - 1)] == SOLID
                    || v0.cell_type[i + v0.gw * j] == SOLID) by {
                assert(v@[flat2(i, j, gw as int)] == v0.v_closed(i, j));
                assert(v0.v_closed(i, j) == (j == 0 || j == v0.gh || v0.cell_type[i + v0.gw * (j - 1)] == SOLID
                    || v0.cell_type[i + v0.gw * j] == SOLID));
            }
        }
        (u, v)
    }

    /// For the pressure solve at interior cell `(i, j)`: `None` when the cell
    /// is not fluid (it is skipped), otherwise whether the left, right, upper
    /// (`j - 1`) and lower (`j + 1`) neighbours are open, that is not solid.
    pub fn pressure_stencil(&self, i: usize, j: usize) -> (r: Option<(bool, bool, bool, bool)>)
        requires
            self.wf(),
            1 <= i,
            i + 1 < self@.gw,
            1 <= j,
            j + 1 < self@.gh,
        ensures
            r == self@.pressure_stencil(i as int, j as int),
            (r is Some) == (self@.cell_type[i + self@.gw * j] == FLUID),
    {
        proof {
            law_pressure_stencil_exact(self@, i as int, j as int);
        }
        let gw = self.gw;
        let gh = self.gh;
        proof {
            lemma_flat2_bound(i as int, j as int, gw as int, gh as int);
            lemma_flat2_bound(i - 1, j as int, gw as int, gh as int);
            lemma_flat2_bound(i + 1, j as int, gw as int, gh as int);
            lemma_flat2_bound(i as int, j - 1, gw as int, gh as int);
            lemma_flat2_bound(i as int, j + 1, gw as int, gh as int);
        }
        if self.cell_type[i + gw * j] != FLUID {
            return None;
        }
        let open_l = self.cell_type[(i - 1) + gw * j] != SOLID;
        let open_r = self.cell_type[(i + 1) + gw * j] != SOLID;
        let open_u = self.cell_type[i + gw * (j - 1)] != SOLID;
        let open_d = self.cell_type[i + gw * (j + 1)] != SOLID;
        Some((open_l, open_r, open_u, open_d))
    }

    /// Whether the cell `(i, j)` (in any range) is an interior cell coded
    /// solid; a particle that lands in such a cell is pushed back out.
    pub fn is_solid_interior(&self, i: i32, j: i32) -> (r: bool)
        requires
            self.wf(),
        ensures
            r == (self@.interior(i as int, j as int) && self@.cell(i as int, j as int) == SOLID),
    {
        if i > 0 && j > 0 && (i as usize) + 1 < self.gw && (j as usize) + 1 < self.gh {
            let iu = i as usize;
            let ju = j as usize;
            proof {
                lemma_flat2_bound(iu as int, ju as int, self.gw as int, self.gh as int);
            }
            self.cell_type[iu + self.gw * ju] == SOLID
        } else {
            false
        }
    }

    /// The vertical faces that a particle deposits its horizontal velocity
    /// on, for the cell `(i, j)` (in any range) that its shifted position
    /// floors to.
    pub fn p2g_u_faces(&self, i: i32, j: i32) -> (r: [Option<usize>; 4])
        requires
            self.wf(),
        ensures
            r@ == self@.u_deposit(i as int, j as int),
            r@[0] == (if 0 <= i < self@.gw && 0 <= j < self@.gh {
                Some((i + (self@.gw + 1) * j) as usize)
            } else {
                None::<usize>
            }),
    {
        proof {
            law_u_deposit_exact(self@, i as int, j as int);
        }
        let gw = self.gw;
        let gh = self.gh;
        if i >= 0 && (i as usize) < gw && j >= 0 && (j as usize) < gh {
            let iu = i as usize;
            let ju = j as usize;
            let nu = gw + 1;
            proof {
                lemma_flat2_bound(iu + 1, ju as int, nu as int, gh as int);
                lemma_flat2_bound(iu as int, ju as int, nu as int, gh as int);
            }
            let c00 = Some(iu + nu * ju);
            let c10 = Some((iu + 1) + nu * ju);
            let (c01, c11) = if ju + 1 < gh {
                proof {
                    lemma_flat2_bound(iu + 1, ju + 1, nu as int, gh as int);
                    lemma_flat2_bound(iu as int, ju + 1, nu as int, gh as int);
                }
                (Some(iu + nu * (ju + 1)), Some((iu + 1) + nu * (ju + 1)))
            } else {
                (None, None)
            };
            let r = [c00, c10, c01, c11];
            assert(r@ =~= self@.u_deposit(i as int, j as int));
            r
        } else {
            let r = [None, None, None, None];
            assert(r@ =~= self@.u_deposit(i as int, j as int));
            r
        }
    }

    /// The horizontal faces that a particle deposits its vertical velocity
    /// on, for the cell `(i, j)` (in any range) that its shifted position
    /// floors to.
    pub fn p2g_v_faces(&self, i: i32, j: i32) -> (r: [Option<usize>; 4])
        requires
            self.wf(),
        ensures
            r@ == self@.v_deposit(i as int, j as int),
            r@[0] == (if 0 <= i < self@.gw && 0 <= j < self@.gh {
                Some((i + self@.gw * j) as usize)
            } else {
                None::<usize>
            }),
    {
        proof {
            law_v_deposit_exact(self@, i as int, j as int);
        }
        let gw = self.gw;
        let gh = self.gh;
        if i >= 0 && (i as usize) < gw && j >= 0 && (j as usize) < gh {
            let iu = i as usize;
            let ju = j as usize;
            proof {
                lemma_flat2_bound(iu as int, ju as int, gw as int, (gh + 1) as int);
                lemma_flat2_bound(iu as int, ju + 1, gw as int, (gh + 1) as int);
            }
            let c00 = Some(iu + gw * ju);
            let c01 = Some(iu + gw * (ju + 1));
            let (c10, c11) = if iu + 1 < gw {
                proof {
                    lemma_flat2_bound(iu + 1, ju as int, gw as int, (gh + 1) as int);
                    lemma_flat2_bound(iu + 1, ju + 1, gw as int, (gh + 1) as int);
                }
                (Some((iu + 1) + gw * ju), Some((iu + 1) + gw * (ju + 1)))
            } else {
                (None, None)
            };
            let r = [c00, c10, c01, c11];
            assert(r@ =~= self@.v_deposit(i as int, j as int));
            r
        } else {
            let r = [None, None, None, None];
            assert(r@ =~= self@.v_deposit(i as int, j as int));
            r
        }
    }

    /// The four vertical faces read when sampling horizontal velocity at the
    /// cell `(i, j)` (in any range) that a shifted position floors to, or
    /// `None` when the sample is zero.
    pub fn sample_u_faces(&self, i: i32, j: i32) -> (r: Option<[usize; 4]>)
        requires
            self.wf(),
        ensures
            r is Some == self@.u_sample(i as int, j as int) is Some,
            r is Some ==> r.unwrap()@ == self@.u_sample(i as int, j as int).unwrap(),
            (r is Some) == (0 <= i && i + 1 < self@.gw + 1 && 0 <= j && j + 1 < self@.gh),
    {
        proof {
            law_u_sample_exact(self@, i as int, j as int);
        }
        let gw = self.gw;
        let gh = self.gh;
        if i >= 0 && (i as usize) < gw && j >= 0 && (j as usize) + 1 < gh {
            let iu = i as usize;
            let ju = j as usize;
            let nu = gw + 1;
            proof {
                lemma_flat2_bound(iu + 1, ju + 1, nu as int, gh as int);
                lemma_flat2_bound(iu as int, ju + 1, nu as int, gh as int);
                lemma_flat2_bound(iu + 1, ju as int, nu as int, gh as int);
                lemma_flat2_bound(iu as int, ju as int, nu as int, gh as int);
            }
            let a = [
                iu + nu * ju,
                (iu + 1) + nu * ju,
                iu + nu * (ju + 1),
                (iu + 1) + nu * (ju + 1),
            ];
            assert(a@ =~= corners(i as int, j as int, nu as int));
            Some(a)
        } else {
            None
        }
    }

    /// The four horizontal faces read when sampling vertical velocity at the
    /// cell `(i, j)` (in any range) that a shifted position floors to, or
    /// `None` when the sample is zero.
    pub fn sample_v_faces(&self, i: i32, j: i32) -> (r: Option<[usize; 4]>)
        requires
            self.wf(),
        ensures
            r is Some == self@.v_sample(i as int, j as int) is Some,
            r is Some ==> r.unwrap()@ == self@.v_sample(i as int, j as int).unwrap(),
            (r is Some) == (0 <= i && i + 1 < self@.gw && 0 <= j && j + 1 < self@.gh + 1),
    {
        proof {
            law_v_sample_exact(self@, i as int, j as int);
        }
        let gw = self.gw;
        let gh = self.gh;
        if i >= 0 && (i as usize) + 1 < gw && j >= 0 && (j as usize) < gh {
            let iu = i as usize;
            let ju = j as usize;
            proof {
                lemma_flat2_bound(iu + 1, ju + 1, gw as int, (gh + 1) as int);
                lemma_flat2_bound(iu as int, ju + 1, gw as int, (gh + 1) as int);
                lemma_flat2_bound(iu + 1, ju as int, gw as int, (gh + 1) as int);
                lemma_flat2_bound(iu as int, ju as int, gw as int, (gh + 1) as int);
            }
            let a = [
                iu + gw * ju,
                (iu + 1) + gw * ju,
                iu + gw * (ju + 1),
                (iu + 1) + gw * (ju + 1),
            ];
            assert(a@ =~= corners(i as int, j as int, gw as int));
            Some(a)
        } else {
            None
        }
    }

    /// Indices of interior cell `(i, j)` and of its four neighbouring cells,
    /// for smoothing a per-cell field.
    pub fn cell_cross(&self, i: usize, j: usize) -> (r: [usize; 5])
        requires
            self.wf(),
            1 <= i,
            i + 1 < self@.gw,
            1 <= j,
            j + 1 < self@.gh,
        ensures
            r@ == cross(i as int, j as int, self@.gw as int),
    {
        let gw = self.gw;
        let gh = self.gh;
        proof {
            lemma_flat2_bound(i + 1, j as int, gw as int, gh as int);
            lemma_flat2_bound(i as int, j + 1, gw as int, gh as int);
            lemma_flat2_bound(i as int, j - 1, gw as int, gh as int);
            lemma_flat2_bound(i - 1, j as int, gw as int, gh as int);
            lemma_flat2_bound(i as int, j as int, gw as int, gh as int);
        }
        let r = [i + gw * j, (i - 1) + gw * j, (i + 1) + gw * j, i + gw * (j - 1), i + gw * (j + 1)];
        assert(r@ =~= cross(i as int, j as int, gw as int));
        r
    }

    /// Indices of the vertical face `(i, j)` and of its four neighbouring
    /// vertical faces, for diffusing horizontal velocity.
    pub fn u_cross(&self, i: usize, j: usize) -> (r: [usize; 5])
        requires
            self.wf(),
            1 <= i < self@.gw,
            1 <= j,
            j + 1 < self@.gh,
        ensures
            r@ == cross(i as int, j as int, self@.gw + 1),
    {
        let nu = self.gw + 1;
        let gh = self.gh;
        proof {
            lemma_flat2_bound(i + 1, j as int, nu as int, gh as int);
            lemma_flat2_bound(i as int, j + 1, nu as int, gh as int);
            lemma_flat2_bound(i as int, j - 1, nu as int, gh as int);
            lemma_flat2_bound(i - 1, j as int, nu as int, gh as int);
            lemma_flat2_bound(i as int, j as int, nu as int, gh as int);
        }
        let r = [i + nu * j, (i - 1) + nu * j, (i + 1) + nu * j, i + nu * (j - 1), i + nu * (j + 1)];
        assert(r@ =~= cross(i as int, j as int, nu as int));
        r
    }

    /// Indices of the horizontal face `(i, j)` and of its four neighbouring
    /// horizontal faces, for diffusing vertical velocity.
    pub fn v_cross(&self, i: usize, j: usize) -> (r: [usize; 5])
        requires
            self.wf(),
            1 <= i,
            i + 1 < self@.gw,
            1 <= j < self@.gh,
        ensures
            r@ == cross(i as int, j as int, self@.gw as int),
    {
        let gw = self.gw;
        let nv = self.gh + 1;
        proof {
            lemma_flat2_bound(i + 1, j as int, gw as int, nv as int);
            lemma_flat2_bound(i as int, j + 1, gw as int, nv as int);
            lemma_flat2_bound(i as int, j - 1, gw as int, nv as int);
            lemma_flat2_bound(i - 1, j as int, gw as int, nv as int);
            lemma_flat2_bound(i as int, j as int, gw as int, nv as int);
        }
        let r = [i + gw * j, (i - 1) + gw * j, (i + 1) + gw * j, i + gw * (j - 1), i + gw * (j + 1)];
        assert(r@ =~= cross(i as int, j as int, gw as int));
        r
    }
}

/// Transfer consistency: whenever sampling at `(i, j)` reads four faces,
/// depositing at the same `(i, j)` writes exactly those four faces, in the
/// same corner order. This holds for both velocity components.
pub proof fn law_sampled_faces_are_deposited(v: Sim2DView, i: int, j: int)
    requires
        wf2(v),
    ensures
        v.u_sample(i, j) is Some ==> v.u_deposit(i, j) == v.u_sample(i, j).unwrap().map_values(
            |x: usize| Some(x),
        ),
        v.v_sample(i, j) is Some ==> v.v_deposit(i, j) == v.v_sample(i, j).unwrap().map_values(
            |x: usize| Some(x),
        ),
{
    if v.u_sample(i, j) is Some {
        assert(v.u_deposit(i, j) =~= v.u_sample(i, j).unwrap().map_values(|x: usize| Some(x)));
    }
    if v.v_sample(i, j) is Some {
        assert(v.v_deposit(i, j) =~= v.v_sample(i, j).unwrap().map_values(|x: usize| Some(x)));
    }
}

/// A solid cell closes all four of its faces, and every face on the edge
/// of the domain is closed.
pub proof fn law_solid_cell_faces_closed(v: Sim2DView, i: int, j: int)
    ensures
        v.solid(i, j) ==> v.u_closed(i, j) && v.u_closed(i + 1, j) && v.v_closed(i, j)
            && v.v_closed(i, j + 1),
        v.u_closed(0, j) && v.u_closed(v.gw as int, j),
        v.v_closed(i, 0) && v.v_closed(i, v.gh as int),
{
}

/// After classification no flow crosses the border ring: every face of a
/// border cell is closed.
pub proof fn law_classified_border_closed(v: Sim2DView, parts: Seq<(i32, i32)>, c: Sim2DView, i: int, j: int)
    requires
        c.gw == v.gw,
        c.gh == v.gh,
        forall|i2: int, j2: int| v.in_grid(i2, j2) ==> #[trigger] c.cell(i2, j2) == classify2(v, parts, i2, j2),
        v.border(i, j),
    ensures
        c.u_closed(i, j),
        c.u_closed(i + 1, j),
        c.v_closed(i, j),
        c.v_closed(i, j + 1),
{
    assert(c.cell(i, j) == classify2(v, parts, i, j));
}

/// The open sides of the pressure stencil of an interior fluid cell are
/// exactly its faces that the solid boundary leaves open.
pub proof fn law_stencil_matches_open_faces(v: Sim2DView, i: int, j: int)
    requires
        v.interior(i, j),
        v.cell(i, j) == FLUID,
    ensures
        v.pressure_stencil(i, j) == Some(
            (!v.u_closed(i, j), !v.u_closed(i + 1, j), !v.v_closed(i, j), !v.v_closed(i, j + 1)),
        ),
{
}

/// Painting a brush and then painting the same brush again with another
/// value is the same as painting it once with the second value: the last
/// paint wins, so clearing undoes setting.
pub proof fn law_paint_last_wins(
    v0: Sim2DView,
    v1: Sim2DView,
    v2: Sim2DView,
    ci: int,
    cj: int,
    r: int,
    a: u8,
    b: u8,
)
    requires
        wf2(v0),
        painted(v0, ci, cj, r, a, v1),
        painted(v1, ci, cj, r, b, v2),
    ensures
        painted(v0, ci, cj, r, b, v2),
{
}

/// Painting is idempotent: painting the same brush with the same value a
/// second time changes nothing.
pub proof fn law_paint_idempotent(v0: Sim2DView, v1: Sim2DView, v2: Sim2DView, ci: int, cj: int, r: int, a: u8)
    requires
        wf2(v0),
        painted(v0, ci, cj, r, a, v1),
        painted(v1, ci, cj, r, a, v2),
    ensures
        v2 == v1,
{
    assert forall|p: int| 0 <= p < v2.walls.len() implies v2.walls[p] == v1.walls[p] by {
        if v0.gw == 0 {
            assert(v0.gw * v0.gh == 0) by (nonlinear_arith)
                requires
                    v0.gw == 0,
            ;
        }
        lemma_flat2_decode(p, v0.gw as int, v0.gh as int);
        assert(v2.wall(p % v0.gw as int, p / v0.gw as int) == v1.wall(p % v0.gw as int, p / v0.gw as int));
    }
    assert(v2.walls =~= v1.walls);
}

/// Every particle marks its own cell: when particle `k` (any particle of
/// the list, the last one included) lies in an interior cell without a
/// wall, classification codes that cell fluid.
pub proof fn law_classify_particle_cell_is_fluid(v: Sim2DView, parts: Seq<(i32, i32)>, k: int)
    requires
        0 <= k < parts.len(),
        1 <= parts[k].0 < v.gw - 1,
        1 <= parts[k].1 < v.gh - 1,
        v.walls[parts[k].0 + v.gw * parts[k].1] == 0,
    ensures
        classify2(v, parts, parts[k].0 as int, parts[k].1 as int) == FLUID,
{
    assert(parts[k].0 == parts[k].0 && parts[k].1 == parts[k].1);
    assert(has_particle2(parts, parts.len() as int, parts[k].0 as int, parts[k].1 as int));
}

/// Classification codes a cell solid exactly when it has a wall or lies on
/// the border, fluid only when some particle lies in it, and air otherwise.
pub proof fn law_classify_codes(v: Sim2DView, parts: Seq<(i32, i32)>, i: int, j: int)
    requires
        0 <= i < v.gw,
        0 <= j < v.gh,
    ensures
        (classify2(v, parts, i, j) == SOLID) == (v.walls[i + v.gw * j] != 0 || i == 0 || j == 0 || i
            == v.gw - 1 || j == v.gh - 1),
        classify2(v, parts, i, j) == FLUID ==> exists|k: int|
            0 <= k < parts.len() && parts[k].0 == i && #[trigger] parts[k].1 == j,
        classify2(v, parts, i, j) == SOLID || classify2(v, parts, i, j) == FLUID || classify2(
            v,
            parts,
            i,
            j,
        ) == AIR,
        (forall|k: int| 0 <= k < parts.len() ==> !(parts[k].0 == i && #[trigger] parts[k].1 == j))
            ==> classify2(v, parts, i, j) != FLUID,
{
}

/// A vertical face is closed exactly when it lies on the left or right
/// edge of the domain or one of the two cells it separates is solid; a
/// face between two non-solid cells stays open.
pub proof fn law_u_face_closed_exactly(v: Sim2DView, i: int, j: int)
    requires
        0 <= i <= v.gw,
        0 <= j < v.gh,
    ensures
        v.u_closed(i, j) == (i == 0 || i == v.gw || v.cell_type[(i - 1) + v.gw * j] == SOLID
            || v.cell_type[i + v.gw * j] == SOLID),
{
}

/// A horizontal face is closed exactly when it lies on the top or bottom
/// edge of the domain or one of the two cells it separates is solid; a
/// face between two non-solid cells stays open.
pub proof fn law_v_face_closed_exactly(v: Sim2DView, i: int, j: int)
    requires
        0 <= i < v.gw,
        0 <= j <= v.gh,
    ensures
        v.v_closed(i, j) == (j == 0 || j == v.gh || v.cell_type[i + v.gw * (j - 1)] == SOLID
            || v.cell_type[i + v.gw * j] == SOLID),
{
}

/// The pressure solve visits a cell exactly when it is fluid (solid and
/// air cells are skipped), and a side is open exactly when the neighbour
/// there is not solid.
pub proof fn law_pressure_stencil_exact(v: Sim2DView, i: int, j: int)
    ensures
        (v.pressure_stencil(i, j) is Some) == (v.cell_type[i + v.gw * j] == FLUID),
        v.pressure_stencil(i, j) is Some ==> v.pressure_stencil(i, j).unwrap() == (
            v.cell_type[(i - 1) + v.gw * j] != SOLID,
            v.cell_type[(i + 1) + v.gw * j] != SOLID,
            v.cell_type[i + v.gw * (j - 1)] != SOLID,
            v.cell_type[i + v.gw * (j + 1)] != SOLID,
        ),
{
}

/// A particle whose shifted position floors to a cell of the grid deposits
/// horizontal velocity on the face `(i, j)` and the face `(i + 1, j)`, and on
/// `(i, j + 1)` and `(i + 1, j + 1)` when row `j + 1` exists; a particle
/// outside the grid deposits nowhere.
pub proof fn law_u_deposit_exact(v: Sim2DView, i: int, j: int)
    ensures
        v.u_deposit(i, j).len() == 4,
        v.u_deposit(i, j)[0] == (if 0 <= i < v.gw && 0 <= j < v.gh {
            Some((i + (v.gw + 1) * j) as usize)
        } else {
            None::<usize>
        }),
        v.u_deposit(i, j)[1] == (if 0 <= i < v.gw && 0 <= j < v.gh {
            Some((i + 1 + (v.gw + 1) * j) as usize)
        } else {
            None::<usize>
        }),
        v.u_deposit(i, j)[2] == (if 0 <= i < v.gw && 0 <= j && j + 1 < v.gh {
            Some((i + (v.gw + 1) * (j + 1)) as usize)
        } else {
            None::<usize>
        }),
        v.u_deposit(i, j)[3] == (if 0 <= i < v.gw && 0 <= j && j + 1 < v.gh {
            Some((i + 1 + (v.gw + 1) * (j + 1)) as usize)
        } else {
            None::<usize>
        }),
{
}

/// A particle whose shifted position floors to a cell of the grid deposits
/// vertical velocity on the faces `(i, j)` and `(i, j + 1)`, and on
/// `(i + 1, j)` and `(i + 1, j + 1)` when column `i + 1` exists; a particle
/// outside the grid deposits nowhere.
pub proof fn law_v_deposit_exact(v: Sim2DView, i: int, j: int)
    ensures
        v.v_deposit(i, j).len() == 4,
        v.v_deposit(i, j)[0] == (if 0 <= i < v.gw && 0 <= j < v.gh {
            Some((i + v.gw * j) as usize)
        } else {
            None::<usize>
        }),
        v.v_deposit(i, j)[1] == (if 0 <= i && i + 1 < v.gw && 0 <= j < v.gh {
            Some((i + 1 + v.gw * j) as usize)
        } else {
            None::<usize>
        }),
        v.v_deposit(i, j)[2] == (if 0 <= i < v.gw && 0 <= j < v.gh {
            Some((i + v.gw * (j + 1)) as usize)
        } else {
            None::<usize>
        }),
        v.v_deposit(i, j)[3] == (if 0 <= i && i + 1 < v.gw && 0 <= j < v.gh {
            Some((i + 1 + v.gw * (j + 1)) as usize)
        } else {
            None::<usize>
        }),
{
}

/// Sampling horizontal velocity reads the four faces around `(i, j)`
/// whenever all four lie in the face array, and only then.
pub proof fn law_u_sample_exact(v: Sim2DView, i: int, j: int)
    ensures
        (v.u_sample(i, j) is Some) == (0 <= i && i + 1 < v.gw + 1 && 0 <= j && j + 1 < v.gh),
        v.u_sample(i, j) is Some ==> v.u_sample(i, j).unwrap() == seq![
            (i + (v.gw + 1) * j) as usize,
            (i + 1 + (v.gw + 1) * j) as usize,
            (i + (v.gw + 1) * (j + 1)) as usize,
            (i + 1 + (v.gw + 1) * (j + 1)) as usize,
        ],
{
}

/// Sampling vertical velocity reads the four faces around `(i, j)` whenever
/// all four lie in the face array, and only then.
pub proof fn law_v_sample_exact(v: Sim2DView, i: int, j: int)
    ensures
        (v.v_sample(i, j) is Some) == (0 <= i && i + 1 < v.gw && 0 <= j && j + 1 < v.gh + 1),
        v.v_sample(i, j) is Some ==> v.v_sample(i, j).unwrap() == seq![
            (i + v.gw * j) as usize,
            (i + 1 + v.gw * j) as usize,
            (i + v.gw * (j + 1)) as usize,
            (i + 1 + v.gw * (j + 1)) as usize,
        ],
{
}

/// Painting sets the wall entry of exactly the interior cells within
/// distance `r` of `(ci, cj)` (for `r >= 0`; a negative radius paints
/// nothing) and leaves every other entry as it was.
pub proof fn law_paint_exact(
    v0: Sim2DView,
    v1: Sim2DView,
    ci: int,
    cj: int,
    r: int,
    val: u8,
    i: int,
    j: int,
)
    requires
        painted(v0, ci, cj, r, val, v1),
        0 <= i < v0.gw,
        0 <= j < v0.gh,
    ensures
        v1.walls[i + v0.gw * j] == (if 1 <= i < v0.gw - 1 && 1 <= j < v0.gh - 1 && r >= 0 && (i - ci)
            * (i - ci) + (j - cj) * (j - cj) <= r * r {
            val
        } else {
            v0.walls[i + v0.gw * j]
        }),
{
    assert(v1.wall(i, j) == v1.walls[i + v0.gw * j]);
    let d2 = (i - ci) * (i - ci) + (j - cj) * (j - cj);
    if r >= 0 && d2 <= r * r {
        assert(-r <= i - ci <= r && -r <= j - cj <= r) by (nonlinear_arith)
            requires
                r >= 0,
                (i - ci) * (i - ci) + (j - cj) * (j - cj) <= r * r,
        {
            assert(0 <= (j - cj) * (j - cj));
            assert(0 <= (i - ci) * (i - ci));
            if i - ci > r {
                assert((i - ci) * (i - ci) > r * r);
            }
            if i - ci < -r {
                assert((i - ci) * (i - ci) > r * r);
            }
            if j - cj > r {
                assert((j - cj) * (j - cj) > r * r);
            }
            if j - cj < -r {
                assert((j - cj) * (j - cj) > r * r);
            }
        }
    }
}

/// The cross around `(i, j)` lists the centre and then its left, right,
/// upper and lower neighbours in rows of `nx`.
pub proof fn law_cross_exact(i: int, j: int, nx: int)
    ensures
        cross(i, j, nx) == seq![
            (i + nx * j) as usize,
            (i - 1 + nx * j) as usize,
            (i + 1 + nx * j) as usize,
            (i + nx * (j - 1)) as usize,
            (i + nx * (j + 1)) as usize,
        ],
{
}

} // verus!
