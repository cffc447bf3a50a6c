//! Reproducible jitter: the linear congruential generator that spreads new
//! particles, the seeds it starts from, and the lattice slots that new
//! particles fill.

use vstd::prelude::*;
use crate::grid::{flat2, flat3, lemma_flat2_bound, lemma_flat2_injective, lemma_flat3_bound,
    lemma_flat3_end, lemma_flat3_injective, lemma_flat3_next};

verus! {

/// Multiplier of the generator.
pub const LCG_MUL: u32 = 1664525;

/// Increment of the generator.
pub const LCG_INC: u32 = 1013904223;

/// Seed that laying out a fresh block of particles starts from.
pub const RESET_SEED: u32 = 12345;

/// One step of the generator: `seed * 1664525 + 1013904223` modulo `2^32`.
pub open spec fn lcg_step(seed: u32) -> u32 {
    ((seed * LCG_MUL + LCG_INC) % 0x1_0000_0000) as u32
}

/// The state after `n` steps from `seed`.
pub open spec fn lcg_iter(seed: u32, n: nat) -> u32
    decreases n,
{
    if n == 0 {
        seed
    } else {
        lcg_step(lcg_iter(seed, (n - 1) as nat))
    }
}

/// The next state of the generator after `seed`.
pub fn lcg_next(seed: u32) -> (r: u32)
    ensures
        r == lcg_step(seed),
{
    let m = seed.wrapping_mul(LCG_MUL);
    proof {
        let big: int = 0x1_0000_0000;
        vstd::arithmetic::div_mod::lemma_add_mod_noop(seed * LCG_MUL, LCG_INC as int, big);
        vstd::arithmetic::div_mod::lemma_small_mod(LCG_INC as nat, big as nat);
        let s = (seed * LCG_MUL) % big;
        assert(0 <= s < big);
        if s + LCG_INC >= big {
            vstd::arithmetic::div_mod::lemma_mod_add_multiples_vanish(s + LCG_INC - big, big);
            vstd::arithmetic::div_mod::lemma_small_mod((s + LCG_INC - big) as nat, big as nat);
        } else {
            vstd::arithmetic::div_mod::lemma_small_mod((s + LCG_INC) as nat, big as nat);
        }
    }
    m.wrapping_add(LCG_INC)
}

/// A linear congruential generator; each draw is the new state.
pub struct Lcg {
    state: u32,
}

impl View for Lcg {
    type V = u32;

    closed spec fn view(&self) -> u32 {
        self.state
    }
}

impl Lcg {
    /// A generator whose state is `seed`.
    pub fn new(seed: u32) -> (g: Lcg)
        ensures
            g@ == seed,
    {
        Lcg { state: seed }
    }

    /// Advances the generator one step and returns the new state.
    pub fn next_u32(&mut self) -> (r: u32)
        ensures
            r == lcg_step(old(self)@),
            final(self)@ == r,
    {
        self.state = lcg_next(self.state);
        self.state
    }
}

/// Seed of a 2D splash from its centre, truncated to integers.
pub fn splash_seed2(cx: u32, cy: u32) -> (r: u32)
    ensures
        r == (cx * 7919 + cy) % 0x1_0000_0000,
{
    let m = cx.wrapping_mul(7919);
    proof {
        let big: int = 0x1_0000_0000;
        vstd::arithmetic::div_mod::lemma_add_mod_noop(cx * 7919, cy as int, big);
        vstd::arithmetic::div_mod::lemma_small_mod(cy as nat, big as nat);
        let s = (cx * 7919) % big;
        if s + cy >= big {
            vstd::arithmetic::div_mod::lemma_mod_add_multiples_vanish(s + cy - big, big);
            vstd::arithmetic::div_mod::lemma_small_mod((s + cy - big) as nat, big as nat);
        } else {
            vstd::arithmetic::div_mod::lemma_small_mod((s + cy) as nat, big as nat);
        }
    }
    m.wrapping_add(cy)
}

/// Seed of a 3D splash from its centre: `cx` and `cy` truncated to
/// integers and `cz17` the truncation of `17 * cz`.
pub fn splash_seed3(cx: u32, cy: u32, cz17: u32) -> (r: u32)
    ensures
        r == (cx * 7919 + cy + cz17) % 0x1_0000_0000,
{
    let s = splash_seed2(cx, cy);
    proof {
        let big: int = 0x1_0000_0000;
        vstd::arithmetic::div_mod::lemma_add_mod_noop(cx * 7919 + cy, cz17 as int, big);
        vstd::arithmetic::div_mod::lemma_small_mod(cz17 as nat, big as nat);
        if s + cz17 >= big {
            vstd::arithmetic::div_mod::lemma_mod_add_multiples_vanish(s + cz17 - big, big);
            vstd::arithmetic::div_mod::lemma_small_mod((s + cz17 - big) as nat, big as nat);
        } else {
            vstd::arithmetic::div_mod::lemma_small_mod((s + cz17) as nat, big as nat);
        }
    }
    s.wrapping_add(cz17)
}

/// The smaller of `a` and `b`.
pub open spec fn min_int(a: int, b: int) -> int {
    if a <= b {
        a
    } else {
        b
    }
}

/// The lattice slots that a block of `count` new particles fills on a
/// `cols` by `rows` lattice: slots go row by row (`i` fastest) and stop once
/// `count` particles are placed or the lattice is full.
pub fn lattice2(count: usize, cols: usize, rows: usize) -> (r: Vec<(usize, usize)>)
    ensures
        r.len() == min_int(count as int, cols * rows),
        forall|i: int, j: int|
            0 <= i < cols && 0 <= j < rows && flat2(i, j, cols as int) < r.len() ==> #[trigger] r@[flat2(
                i,
                j,
                cols as int,
            )] == (i as usize, j as usize),
{
    let mut out: Vec<(usize, usize)> = Vec::new();
    if cols == 0 || rows == 0 {
        assert(cols * rows == 0) by (nonlinear_arith)
            requires
                cols == 0 || rows == 0,
        ;
        return out;
    }
    let total = match cols.checked_mul(rows) {
        Some(n) => if n < count {
            n
        } else {
            count
        },
        None => count,
    };
    let mut i: usize = 0;
    let mut j: usize = 0;
    let mut q: usize = 0;
    assert(flat2(0, 0, cols as int) == 0) by (nonlinear_arith);
    while q < total
        invariant
            cols > 0,
            rows > 0,
            total == min_int(count as int, cols * rows),
            i < cols,
            q <= total,
            q == flat2(i as int, j as int, cols as int),
            out.len() == q,
            forall|i2: int, j2: int|
                0 <= i2 < cols && 0 <= j2 < rows && flat2(i2, j2, cols as int) < q
                    ==> #[trigger] out@[flat2(i2, j2, cols as int)] == (i2 as usize, j2 as usize),
        decreases total - q,
    {
        assert(j < rows) by (nonlinear_arith)
            requires
                q == i + cols * j,
                q < total,
                total <= cols * rows,
                0 <= i,
                cols > 0,
        {
            if j >= rows {
                assert(cols * j >= cols * rows);
            }
        }
        out.push((i, j));
        proof {
            assert forall|i2: int, j2: int|
                0 <= i2 < cols && 0 <= j2 < rows && flat2(i2, j2, cols as int) < q + 1
                    implies #[trigger] out@[flat2(i2, j2, cols as int)] == (i2 as usize, j2 as usize) by {
                if flat2(i2, j2, cols as int) == q {
                    lemma_flat2_injective(i2, j2, i as int, j as int, cols as int);
                }
            }
        }
        q = q + 1;
        if i + 1 < cols {
            i = i + 1;
        } else {
            assert(cols * j + cols == cols * (j + 1)) by (nonlinear_arith);
            i = 0;
            j = j + 1;
        }
    }
    out
}

/// The lattice slots that a block of `count` new particles fills on an
/// `nx` by `ny` by `nz` lattice: `i` fastest, `k` slowest, stopping once
/// `count` particles are placed or the lattice is full.
pub fn lattice3(count: usize, nx: usize, ny: usize, nz: usize) -> (r: Vec<(usize, usize, usize)>)
    ensures
        r.len() == min_int(count as int, nx * ny * nz),
        forall|i: int, j: int, k: int|
            0 <= i < nx && 0 <= j < ny && 0 <= k < nz && flat3(i, j, k, nx as int, ny as int)
                < r.len() ==> #[trigger] r@[flat3(i, j, k, nx as int, ny as int)] == (
                i as usize,
                j as usize,
                k as usize,
            ),
{
    let mut out: Vec<(usize, usize, usize)> = Vec::new();
    if nx == 0 || ny == 0 || nz == 0 {
        assert(nx * ny * nz == 0) by (nonlinear_arith)
            requires
                nx == 0 || ny == 0 || nz == 0,
        ;
        return out;
    }
    let total = match nx.checked_mul(ny) {
        Some(a) => match a.checked_mul(nz) {
            Some(n) => if n < count {
                n
            } else {
                count
            },
            None => count,
        },
        None => {
            assert(nx * ny <= nx * ny * nz) by (nonlinear_arith)
                requires
                    nz >= 1,
                    nx * ny >= 0,
            ;
            count
        },
    };
    let mut i: usize = 0;
    let mut j: usize = 0;
    let mut k: usize = 0;
    let mut q: usize = 0;
    proof {
        lemma_flat3_end(nx as int, ny as int, nz as int);
        assert(flat3(0, 0, 0, nx as int, ny as int) == 0) by (nonlinear_arith);
    }
    while q < total
        invariant
            nx > 0,
            ny > 0,
            nz > 0,
            total == min_int(count as int, nx * ny * nz),
            flat3(0, 0, nz as int, nx as int, ny as int) == nx * ny * nz,
            i < nx,
            j < ny,
            q <= total,
            q == flat3(i as int, j as int, k as int, nx as int, ny as int),
            out.len() == q,
            forall|i2: int, j2: int, k2: int|
                0 <= i2 < nx && 0 <= j2 < ny && 0 <= k2 < nz && flat3(i2, j2, k2, nx as int, ny as int) < q
                    ==> #[trigger] out@[flat3(i2, j2, k2, nx as int, ny as int)] == (
                    i2 as usize,
                    j2 as usize,
                    k2 as usize,
                ),
        decreases total - q,
    {
        if k >= nz {
            assert(flat3(0, 0, nz as int, nx as int, ny as int) <= flat3(i as int, j as int, k as int, nx as int, ny as int)) by (nonlinear_arith)
                requires
                    k >= nz,
                    i >= 0,
                    j >= 0,
                    nx > 0,
                    ny > 0,
            ;
        }
        assert(k < nz);
        out.push((i, j, k));
        proof {
            lemma_flat3_next(i as int, j as int, k as int, nx as int, ny as int);
            assert forall|i2: int, j2: int, k2: int|
                0 <= i2 < nx && 0 <= j2 < ny && 0 <= k2 < nz && flat3(i2, j2, k2, nx as int, ny as int) < q + 1
                    implies #[trigger] out@[flat3(i2, j2, k2, nx as int, ny as int)] == (
                    i2 as usize,
                    j2 as usize,
                    k2 as usize,
                ) by {
                if flat3(i2, j2, k2, nx as int, ny as int) == q {
                    lemma_flat3_injective(i2, j2, k2, i as int, j as int, k as int, nx as int, ny as int);
                }
            }
        }
        q = q + 1;
        if i + 1 < nx {
            i = i + 1;
        } else if j + 1 < ny {
            i = 0;
            j = j + 1;
        } else {
            i = 0;
            j = 0;
            k = k + 1;
        }
    }
    out
}

/// One step of the generator multiplies by 1664525 and adds 1013904223,
/// modulo `2^32`, so the same seed always yields the same sequence.
pub proof fn law_lcg_step(seed: u32, n: nat)
    ensures
        lcg_step(seed) as int == (seed * 1664525 + 1013904223) % 0x1_0000_0000,
        lcg_iter(seed, n + 1) == lcg_step(lcg_iter(seed, n)),
        lcg_iter(seed, 0) == seed,
{
}

} // verus!
