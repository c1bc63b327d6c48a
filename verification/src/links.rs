//! Linked cells: every active point is chained onto the list of the cell
//! its bin falls in. `head[c]` is the first point of cell `c` (or `-1`) and
//! `next[i]` the point after `i` in its cell (or `-1`).

use vstd::prelude::*;
use crate::mesh::{Mesh, wrapped_cell, clamp_to};

verus! {

/// The points reached from `x` by following `next`, `x` first.
pub open spec fn chain(next: Seq<isize>, x: int) -> Seq<usize>
    decreases x,
{
    if x < 0 || x >= next.len() {
        Seq::empty()
    } else if next[x] < 0 || next[x] >= x {
        seq![x as usize]
    } else {
        seq![x as usize] + chain(next, next[x] as int)
    }
}

/// The cell that the bin `b` of a mesh names.
pub open spec fn bin_cell(m: Mesh, b: (i32, i32, i32)) -> int {
    wrapped_cell(m, b.0 as int, b.1 as int, b.2 as int)
}

/// The points among the first `u` of `active` whose bin lies in cell `c`,
/// last first.
pub open spec fn cell_members(
    m: Mesh,
    bins: Seq<(i32, i32, i32)>,
    active: Seq<usize>,
    c: int,
    u: int,
) -> Seq<usize>
    decreases u,
{
    if u <= 0 {
        Seq::empty()
    } else {
        let i = active[u - 1];
        if bin_cell(m, bins[i as int]) == c {
            seq![i] + cell_members(m, bins, active, c, u - 1)
        } else {
            cell_members(m, bins, active, c, u - 1)
        }
    }
}

/// `active` names distinct points of `0..n` in increasing order.
pub open spec fn increasing_below(active: Seq<usize>, n: int) -> bool {
    &&& forall|t: int| 0 <= t < active.len() ==> (#[trigger] active[t]) < n
    &&& forall|a: int, b: int| 0 <= a < b < active.len() ==> #[trigger] active[a] < #[trigger] active[b]
}

/// The mesh, the clamped bin of every point, and the cell lists.
pub struct LinkedCells {
    /// The mesh the points are binned on.
    pub mesh: Mesh,
    /// The bin of every point, inside the mesh.
    pub bins: Vec<(i32, i32, i32)>,
    /// First point of each cell, or `-1`.
    pub head: Vec<isize>,
    /// Next point of the same cell, or `-1`.
    pub next: Vec<isize>,
}

impl LinkedCells {
    /// Shape and range of the lists.
    pub open spec fn wf(&self) -> bool {
        &&& self.mesh.wf()
        &&& self.head@.len() == self.mesh.cells()
        &&& self.next@.len() == self.bins@.len()
        &&& self.bins@.len() < isize::MAX
        &&& forall|i: int| 0 <= i < self.next@.len() ==> -1 <= #[trigger] self.next@[i] < i
        &&& forall|c: int| 0 <= c < self.head@.len() ==> -1 <= #[trigger] self.head@[c] < self.next@.len()
        &&& forall|i: int|
            0 <= i < self.bins@.len() ==> {
                &&& 0 <= (#[trigger] self.bins@[i]).0 < self.mesh.nx
                &&& 0 <= self.bins@[i].1 < self.mesh.ny
                &&& 0 <= self.bins@[i].2 < self.mesh.nz
            }
    }

    /// The points of cell `c`, in list order.
    pub open spec fn cell_list(&self, c: int) -> Seq<usize> {
        chain(self.next@, self.head@[c] as int)
    }

    /// Bins every point (clamping `raw` into the mesh) and chains each point
    /// of `active`, in order, onto the front of its cell's list: the list of
    /// a cell holds its active points, largest index first.
    pub fn build(mesh: Mesh, raw: &Vec<(i32, i32, i32)>, active: &Vec<usize>) -> (lc: LinkedCells)
        requires
            mesh.wf(),
            raw@.len() < isize::MAX,
            increasing_below(active@, raw@.len() as int),
        ensures
            lc.wf(),
            lc.mesh == mesh,
            lc.bins@.len() == raw@.len(),
            forall|i: int|
                0 <= i < raw@.len() ==> #[trigger] lc.bins@[i] == (
                    clamp_to(raw@[i].0 as int, mesh.nx - 1) as i32,
                    clamp_to(raw@[i].1 as int, mesh.ny - 1) as i32,
                    clamp_to(raw@[i].2 as int, mesh.nz - 1) as i32,
                ),
            forall|c: int|
                0 <= c < mesh.cells() ==> #[trigger] lc.cell_list(c) == cell_members(
                    mesh,
                    lc.bins@,
                    active@,
                    c,
                    active@.len() as int,
                ),
    {
        let n = raw.len();
        let mut bins: Vec<(i32, i32, i32)> = Vec::new();
        let mut i: usize = 0;
        while i < n
            invariant
                n == raw@.len(),
                mesh.wf(),
                0 <= i <= n,
                bins@.len() == i,
                forall|t: int|
                    0 <= t < i ==> #[trigger] bins@[t] == (
                        clamp_to(raw@[t].0 as int, mesh.nx - 1) as i32,
                        clamp_to(raw@[t].1 as int, mesh.ny - 1) as i32,
                        clamp_to(raw@[t].2 as int, mesh.nz - 1) as i32,
                    ),
            decreases n - i,
        {
            bins.push(mesh.clamp(raw[i]));
            i = i + 1;
        }
        let ncell = mesh.len();
        let mut head: Vec<isize> = Vec::new();
        let mut c: usize = 0;
        while c < ncell
            invariant
                0 <= c <= ncell,
                head@.len() == c,
                forall|t: int| 0 <= t < c ==> #[trigger] head@[t] == -1,
            decreases ncell - c,
        {
            head.push(-1);
            c = c + 1;
        }
        let mut next: Vec<isize> = Vec::new();
        let mut i: usize = 0;
        while i < n
            invariant
                0 <= i <= n,
                next@.len() == i,
                forall|t: int| 0 <= t < i ==> #[trigger] next@[t] == -1,
            decreases n - i,
        {
            next.push(-1);
            i = i + 1;
        }
        proof {
            assert forall|c: int| 0 <= c < ncell implies #[trigger] chain(next@, head@[c] as int)
                == cell_members(mesh, bins@, active@, c, 0) by {}
        }
        let na = active.len();
        let mut u: usize = 0;
        while u < na
            invariant
                mesh.wf(),
                n == raw@.len(),
                n < isize::MAX,
                na == active@.len(),
                increasing_below(active@, n as int),
                ncell == mesh.cells(),
                0 <= u <= na,
                head@.len() == ncell,
                next@.len() == n,
                bins@.len() == n,
                forall|t: int|
                    0 <= t < n ==> {
                        &&& 0 <= (#[trigger] bins@[t]).0 < mesh.nx
                        &&& 0 <= bins@[t].1 < mesh.ny
                        &&& 0 <= bins@[t].2 < mesh.nz
                    },
                forall|t: int| 0 <= t < n ==> -1 <= #[trigger] next@[t] < t,
                forall|c: int|
                    0 <= c < ncell ==> -1 <= #[trigger] head@[c] && (head@[c] < if u < na {
                        active@[u as int] as int
                    } else {
                        n as int
                    }),
                forall|c: int|
                    0 <= c < ncell ==> #[trigger] chain(next@, head@[c] as int) == cell_members(
                        mesh,
                        bins@,
                        active@,
                        c,
                        u as int,
                    ),
            decreases na - u,
        {
            let p = active[u];
            let b = bins[p];
            let c = mesh.wrap(b.0, b.1, b.2);
            let ghost next0 = next@;
            let ghost head0 = head@;
            let h = head[c];
            next.set(p, h);
            head.set(c, p as isize);
            proof {
                assert forall|c2: int| 0 <= c2 < ncell implies #[trigger] chain(next@, head@[c2] as int)
                    == cell_members(mesh, bins@, active@, c2, u + 1) by {
                    if c2 == c {
                        lemma_chain_frame(next0, p as int, h, h as int);
                        assert(next@ == next0.update(p as int, h));
                        assert(chain(next@, p as int) == seq![p] + chain(next@, h as int));
                    } else {
                        lemma_chain_frame(next0, p as int, h, head0[c2] as int);
                        assert(next@ == next0.update(p as int, h));
                    }
                }
                assert forall|c2: int| 0 <= c2 < ncell implies -1 <= #[trigger] head@[c2] && (head@[c2] < if u
                    + 1 < na {
                    active@[u + 1] as int
                } else {
                    n as int
                }) by {
                    if u + 1 < na {
                        assert(active@[u as int] < active@[u + 1]);
                    }
                }
            }
            u = u + 1;
        }
        LinkedCells { mesh, bins, head, next }
    }
}

/// Following `next` from `x` reads `next` only at points up to `x`.
proof fn lemma_chain_frame(next: Seq<isize>, i: int, v: isize, x: int)
    requires
        0 <= i < next.len(),
        x < i,
    ensures
        chain(next.update(i, v), x) == chain(next, x),
    decreases x,
{
    if x >= 0 && 0 <= next[x] < x {
        lemma_chain_frame(next, i, v, next[x] as int);
    }
}

} // verus!
