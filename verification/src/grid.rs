//! Row-major flat layout of two- and three-dimensional arrays.

use vstd::prelude::*;

verus! {

/// Flat position of `(i, j)` in a row-major array whose rows hold `nx` items.
pub open spec fn flat2(i: int, j: int, nx: int) -> int {
    i + nx * j
}

/// Flat position of `(i, j, k)` in an array of `nx * ny * nz` items laid out
/// with `i` fastest and `k` slowest.
pub open spec fn flat3(i: int, j: int, k: int, nx: int, ny: int) -> int {
    i + nx * (j + ny * k)
}

/// A position inside an `nx` by `ny` array lands inside the flat array.
pub proof fn lemma_flat2_bound(i: int, j: int, nx: int, ny: int)
    requires
        0 <= i < nx,
        0 <= j < ny,
    ensures
        0 <= flat2(i, j, nx) < nx * ny,
{
    assert(0 <= i + nx * j < nx * ny) by (nonlinear_arith)
        requires
            0 <= i < nx,
            0 <= j < ny,
    ;
}

/// Two positions inside a row of length `nx` share a flat position only when
/// they are the same position.
pub proof fn lemma_flat2_injective(i1: int, j1: int, i2: int, j2: int, nx: int)
    requires
        0 <= i1 < nx,
        0 <= i2 < nx,
        0 <= j1,
        0 <= j2,
        flat2(i1, j1, nx) == flat2(i2, j2, nx),
    ensures
        i1 == i2,
        j1 == j2,
{
    assert(i1 == i2 && j1 == j2) by (nonlinear_arith)
        requires
            0 <= i1 < nx,
            0 <= i2 < nx,
            0 <= j1,
            0 <= j2,
            i1 + nx * j1 == i2 + nx * j2,
    {
        if j1 < j2 {
            assert(nx * j1 + nx <= nx * j2);
        } else if j2 < j1 {
            assert(nx * j2 + nx <= nx * j1);
        }
    }
}

/// Every flat position of an `nx` by `ny` array comes from the position
/// `(p % nx, p / nx)`.
pub proof fn lemma_flat2_decode(p: int, nx: int, ny: int)
    requires
        nx > 0,
        0 <= p < nx * ny,
    ensures
        0 <= p % nx < nx,
        0 <= p / nx < ny,
        flat2(p % nx, p / nx, nx) == p,
{
    vstd::arithmetic::div_mod::lemma_fundamental_div_mod(p, nx);
    assert(0 <= p / nx < ny) by (nonlinear_arith)
        requires
            nx > 0,
            0 <= p < nx * ny,
            p == nx * (p / nx) + p % nx,
            0 <= p % nx < nx,
    {
        if p / nx >= ny {
            assert(nx * (p / nx) >= nx * ny);
        }
        if p / nx < 0 {
            assert(nx * (p / nx) <= -nx);
        }
    }
}

/// A position inside an `nx` by `ny` by `nz` array lands inside the flat
/// array.
pub proof fn lemma_flat3_bound(i: int, j: int, k: int, nx: int, ny: int, nz: int)
    requires
        0 <= i < nx,
        0 <= j < ny,
        0 <= k < nz,
    ensures
        0 <= flat3(i, j, k, nx, ny) < nx * ny * nz,
{
    lemma_flat2_bound(j, k, ny, nz);
    lemma_flat2_bound(i, j + ny * k, nx, ny * nz);
    assert(nx * (ny * nz) == nx * ny * nz) by (nonlinear_arith);
}

/// Two positions inside rows of `nx` and layers of `nx * ny` share a flat
/// position only when they are the same position.
pub proof fn lemma_flat3_injective(
    i1: int,
    j1: int,
    k1: int,
    i2: int,
    j2: int,
    k2: int,
    nx: int,
    ny: int,
)
    requires
        0 <= i1 < nx,
        0 <= i2 < nx,
        0 <= j1 < ny,
        0 <= j2 < ny,
        0 <= k1,
        0 <= k2,
        flat3(i1, j1, k1, nx, ny) == flat3(i2, j2, k2, nx, ny),
    ensures
        i1 == i2,
        j1 == j2,
        k1 == k2,
{
    assert(0 <= ny * k1 && 0 <= ny * k2) by (nonlinear_arith)
        requires
            0 <= ny,
            0 <= k1,
            0 <= k2,
    ;
    lemma_flat2_injective(i1, j1 + ny * k1, i2, j2 + ny * k2, nx);
    lemma_flat2_injective(j1, k1, j2, k2, ny);
}

/// Walking a flat array position by position: the successor of `(i, j, k)`
/// moves along the row, then to the next row, then to the next layer.
pub proof fn lemma_flat3_next(i: int, j: int, k: int, nx: int, ny: int)
    requires
        0 <= i < nx,
        0 <= j < ny,
    ensures
        i + 1 < nx ==> flat3(i + 1, j, k, nx, ny) == flat3(i, j, k, nx, ny) + 1,
        i + 1 == nx && j + 1 < ny ==> flat3(0, j + 1, k, nx, ny) == flat3(i, j, k, nx, ny) + 1,
        i + 1 == nx && j + 1 == ny ==> flat3(0, 0, k + 1, nx, ny) == flat3(i, j, k, nx, ny) + 1,
{
    if i + 1 == nx && j + 1 < ny {
        assert(nx * (j + 1 + ny * k) == nx * (j + ny * k) + nx) by (nonlinear_arith);
    }
    if i + 1 == nx && j + 1 == ny {
        assert(nx * (0 + ny * (k + 1)) == nx * (j + ny * k) + nx) by (nonlinear_arith)
            requires
                j + 1 == ny,
        ;
    }
}

/// The first position past the last layer is the length of the array.
pub proof fn lemma_flat3_end(nx: int, ny: int, nz: int)
    ensures
        flat3(0, 0, nz, nx, ny) == nx * ny * nz,
{
    assert(nx * (0 + ny * nz) == nx * ny * nz) by (nonlinear_arith);
}

/// Every flat position of an `nx` by `ny` by `nz` array comes from the
/// position `(p % nx, (p / nx) % ny, (p / nx) / ny)`.
pub proof fn lemma_flat3_decode(p: int, nx: int, ny: int, nz: int)
    requires
        nx > 0,
        ny > 0,
        0 <= p < nx * ny * nz,
    ensures
        0 <= p % nx < nx,
        0 <= (p / nx) % ny < ny,
        0 <= (p / nx) / ny < nz,
        flat3(p % nx, (p / nx) % ny, (p / nx) / ny, nx, ny) == p,
{
    assert(nx * ny * nz == nx * (ny * nz)) by (nonlinear_arith);
    lemma_flat2_decode(p, nx, ny * nz);
    lemma_flat2_decode(p / nx, ny, nz);
}

/// The 2D layout is row-major: the origin is position 0, a step along a row
/// moves one position, and a step to the next row moves `nx` positions.
pub proof fn law_flat2_row_major(i: int, j: int, nx: int)
    ensures
        flat2(0, 0, nx) == 0,
        flat2(i + 1, j, nx) == flat2(i, j, nx) + 1,
        flat2(i, j + 1, nx) == flat2(i, j, nx) + nx,
{
    assert(nx * 0 == 0) by (nonlinear_arith);
    assert(nx * (j + 1) == nx * j + nx) by (nonlinear_arith);
}

/// The 3D layout has `i` fastest and `k` slowest: the origin is position 0,
/// and steps along x, y and z move 1, `nx` and `nx * ny` positions.
pub proof fn law_flat3_layout(i: int, j: int, k: int, nx: int, ny: int)
    ensures
        flat3(0, 0, 0, nx, ny) == 0,
        flat3(i + 1, j, k, nx, ny) == flat3(i, j, k, nx, ny) + 1,
        flat3(i, j + 1, k, nx, ny) == flat3(i, j, k, nx, ny) + nx,
        flat3(i, j, k + 1, nx, ny) == flat3(i, j, k, nx, ny) + nx * ny,
{
    assert(nx * (0 + ny * 0) == 0) by (nonlinear_arith);
    assert(nx * (j + 1 + ny * k) == nx * (j + ny * k) + nx) by (nonlinear_arith);
    assert(nx * (j + ny * (k + 1)) == nx * (j + ny * k) + nx * ny) by (nonlinear_arith);
}

} // verus!
