//! The linked-cell mesh: bin counts along the three lattice directions,
//! the periodic wrap of an integer stencil position onto a primary bin, and
//! the lattice image that the wrap crosses.

use vstd::prelude::*;
use crate::error::Error;

verus! {

/// Largest number of linked cells a mesh may have.
pub const MAX_CELLS: i64 = 16_777_216;

/// Largest bin count along one lattice direction.
pub const MAX_BINS: i32 = 1_000_000;

/// Bin counts `nx, ny, nz` of a mesh of linked cells.
#[derive(Clone, Copy, Debug, PartialEq, Eq, Structural)]
pub struct Mesh {
    /// Bins along the first lattice vector.
    pub nx: i32,
    /// Bins along the second lattice vector.
    pub ny: i32,
    /// Bins along the third lattice vector.
    pub nz: i32,
}

/// The number of cells of a mesh with these counts.
pub open spec fn cell_count(nx: int, ny: int, nz: int) -> int {
    nx * ny * nz
}

/// The primary cell that the stencil position `(x, y, z)` wraps onto.
pub open spec fn wrapped_cell(m: Mesh, x: int, y: int, z: int) -> int {
    ((z % (m.nz as int)) * m.ny + (y % (m.ny as int))) * m.nx + (x % (m.nx as int))
}

proof fn lemma_cell_index_bounds(cx: int, cy: int, cz: int, nx: int, ny: int, nz: int)
    requires
        0 <= cx < nx,
        0 <= cy < ny,
        0 <= cz < nz,
    ensures
        0 <= (cz * ny + cy) * nx + cx < nx * ny * nz,
        0 <= cz * ny + cy < ny * nz,
        0 <= cz * ny <= ny * nz,
        ny * nz <= nx * ny * nz,
{
    assert(0 <= cz * ny <= ny * nz) by (nonlinear_arith)
        requires 0 <= cy < ny, 0 <= cz < nz;
    assert(ny * nz <= nx * ny * nz) by (nonlinear_arith)
        requires 0 <= cx < nx, 0 <= cy < ny, 0 <= cz < nz;
    assert(0 <= cz * ny + cy < ny * nz) by (nonlinear_arith)
        requires 0 <= cy < ny, 0 <= cz < nz;
    let p = cz * ny + cy;
    assert(0 <= p * nx + cx < (ny * nz) * nx) by (nonlinear_arith)
        requires 0 <= cx < nx, 0 <= p < ny * nz;
    assert((ny * nz) * nx == nx * ny * nz) by (nonlinear_arith);
}

/// A wrapped stencil position names a cell of the mesh.
pub proof fn lemma_wrapped_cell_bounds(m: Mesh, x: int, y: int, z: int)
    requires
        m.wf(),
    ensures
        0 <= wrapped_cell(m, x, y, z) < m.cells(),
{
    lemma_cell_index_bounds(x % (m.nx as int), y % (m.ny as int), z % (m.nz as int), m.nx as int, m.ny as int, m.nz as int);
}


/// `x` modulo `n`, in `0..n`.
fn rem_euclid(x: i32, n: i32) -> (r: i32)
    requires
        n > 0,
    ensures
        r == (x as int) % (n as int),
        0 <= r < n,
{
    match x.checked_rem_euclid(n) {
        Some(v) => v,
        None => 0,
    }
}

/// The floor of `x / n`.
fn div_euclid(x: i32, n: i32) -> (r: i32)
    requires
        n > 0,
    ensures
        r == (x as int) / (n as int),
{
    proof {
        assert(i32::MIN <= (x as int) / (n as int) <= i32::MAX) by (nonlinear_arith)
            requires n > 0, i32::MIN <= x <= i32::MAX;
    }
    match x.checked_div_euclid(n) {
        Some(v) => v,
        None => 0,
    }
}

impl Mesh {
    /// Counts in range, as the bin count along each direction is.
    pub open spec fn wf(&self) -> bool {
        &&& 1 <= self.nx <= MAX_BINS
        &&& 1 <= self.ny <= MAX_BINS
        &&& 1 <= self.nz <= MAX_BINS
        &&& cell_count(self.nx as int, self.ny as int, self.nz as int) <= MAX_CELLS
    }

    /// The number of cells.
    pub open spec fn cells(&self) -> int {
        cell_count(self.nx as int, self.ny as int, self.nz as int)
    }

    /// A mesh of `nx * ny * nz` cells; `TooManyCells` when that product is
    /// above `MAX_CELLS`.
    pub fn new(nx: i32, ny: i32, nz: i32) -> (r: Result<Mesh, Error>)
        requires
            1 <= nx <= MAX_BINS,
            1 <= ny <= MAX_BINS,
            1 <= nz <= MAX_BINS,
        ensures
            match r {
                Ok(m) => m == (Mesh { nx, ny, nz }) && m.wf(),
                Err(e) => e == Error::TooManyCells && cell_count(nx as int, ny as int, nz as int)
                    > MAX_CELLS,
            },
            r is Ok <==> cell_count(nx as int, ny as int, nz as int) <= MAX_CELLS,
    {
        proof {
            assert(0 < nx * ny * nz) by (nonlinear_arith)
                requires nx >= 1, ny >= 1, nz >= 1;
        }
        let ncell = mesh_cells(nx, ny, nz);
        match ncell {
            Ok(_) => Ok(Mesh { nx, ny, nz }),
            Err(e) => Err(e),
        }
    }

    /// The number of cells, as a length.
    pub fn len(&self) -> (n: usize)
        requires
            self.wf(),
        ensures
            n == self.cells(),
    {
        proof {
            assert(0 < self.nx * self.ny * self.nz) by (nonlinear_arith)
                requires self.nx >= 1, self.ny >= 1, self.nz >= 1;
            assert(self.nx * self.ny <= self.nx * self.ny * self.nz) by (nonlinear_arith)
                requires self.nx >= 1, self.ny >= 1, self.nz >= 1;
        }
        let p = (self.nx as i64) * (self.ny as i64) * (self.nz as i64);
        p as usize
    }

    /// The primary cell that the stencil position `(x, y, z)` wraps onto
    /// (`rem_euclid` along each direction).
    pub fn wrap(&self, x: i32, y: i32, z: i32) -> (c: usize)
        requires
            self.wf(),
        ensures
            c == wrapped_cell(*self, x as int, y as int, z as int),
            c < self.cells(),
    {
        let cx = rem_euclid(x, self.nx);
        let cy = rem_euclid(y, self.ny);
        let cz = rem_euclid(z, self.nz);
        proof {
            lemma_cell_index_bounds(cx as int, cy as int, cz as int, self.nx as int, self.ny as int, self.nz as int);
        }
        ((cz * self.ny + cy) * self.nx + cx) as usize
    }

    /// The lattice image that the stencil position `(x, y, z)` lies in
    /// (`div_euclid` along each direction).
    pub fn image(&self, x: i32, y: i32, z: i32) -> (s: (i32, i32, i32))
        requires
            self.wf(),
        ensures
            s.0 == (x as int) / (self.nx as int),
            s.1 == (y as int) / (self.ny as int),
            s.2 == (z as int) / (self.nz as int),
    {
        (div_euclid(x, self.nx), div_euclid(y, self.ny), div_euclid(z, self.nz))
    }

    /// The last shell a k-nearest walk may expand to: half the largest
    /// count, plus one.
    pub fn max_reach(&self) -> (r: i32)
        requires
            self.wf(),
        ensures
            r == max3(self.nx as int, self.ny as int, self.nz as int) / 2 + 1,
            1 <= r <= MAX_BINS / 2 + 1,
    {
        let mut m = self.nx;
        if self.ny > m {
            m = self.ny;
        }
        if self.nz > m {
            m = self.nz;
        }
        m / 2 + 1
    }

    /// Clamps a raw bin position into the mesh: each coordinate into
    /// `0..=n-1`.
    pub fn clamp(&self, b: (i32, i32, i32)) -> (r: (i32, i32, i32))
        requires
            self.wf(),
        ensures
            r.0 == clamp_to(b.0 as int, self.nx as int - 1),
            r.1 == clamp_to(b.1 as int, self.ny as int - 1),
            r.2 == clamp_to(b.2 as int, self.nz as int - 1),
    {
        (clamp_i32(b.0, self.nx - 1), clamp_i32(b.1, self.ny - 1), clamp_i32(b.2, self.nz - 1))
    }
}

/// The largest of three integers.
pub open spec fn max3(a: int, b: int, c: int) -> int {
    if a >= b && a >= c {
        a
    } else if b >= c {
        b
    } else {
        c
    }
}

/// `x` clamped into `0..=hi`.
pub open spec fn clamp_to(x: int, hi: int) -> int {
    if x < 0 {
        0
    } else if x > hi {
        hi
    } else {
        x
    }
}

fn clamp_i32(x: i32, hi: i32) -> (r: i32)
    requires
        hi >= 0,
    ensures
        r == clamp_to(x as int, hi as int),
{
    if x < 0 {
        0
    } else if x > hi {
        hi
    } else {
        x
    }
}

/// The cell count `nx * ny * nz`, or `TooManyCells` when it is not in
/// `1..=MAX_CELLS` (an overflowing product included).
pub fn mesh_cells(nx: i32, ny: i32, nz: i32) -> (r: Result<usize, Error>)
    ensures
        match r {
            Ok(c) => 0 < cell_count(nx as int, ny as int, nz as int) <= MAX_CELLS && c == cell_count(
                nx as int,
                ny as int,
                nz as int,
            ),
            Err(e) => e == Error::TooManyCells && !(0 < cell_count(nx as int, ny as int, nz as int)
                <= MAX_CELLS),
        },
{
    let a = nx as i64;
    let b = ny as i64;
    let c = nz as i64;
    proof {
        assert(i64::MIN <= a * b <= i64::MAX) by (nonlinear_arith)
            requires i32::MIN <= a <= i32::MAX, i32::MIN <= b <= i32::MAX;
    }
    let ab = a * b;
    match ab.checked_mul(c) {
        Some(v) => {
            if v > 0 && v <= MAX_CELLS {
                Ok(v as usize)
            } else {
                Err(Error::TooManyCells)
            }
        },
        None => {
            proof {
                // the product left the i64 range, so it is far above the cap
                assert(!(0 < ab * c <= MAX_CELLS));
            }
            Err(Error::TooManyCells)
        },
    }
}

} // verus!
