//! A k-nearest search is a function of its inputs: its walk depends on
//! the cell lists only through the points they list, in order, and a row
//! is the one arrangement, nearest first, of what the heap holds.

use vstd::prelude::*;
use crate::kheap::lemma_sorted_arrangement_unique;
use crate::links::{LinkedCells, chain};
use crate::mesh::{Mesh, wrapped_cell};
use crate::search::{linked_rows, lists_hold};
use crate::select::{search_error, selected};
use crate::shell::shell;
use crate::walk::{visit, offset_pushes, offsets_pushes, walk_pushes, stop_reach, source_pushes, stencil};

verus! {

/// Following two lists that name the same points offers the same
/// candidates.
proof fn lemma_visit_follows_list<F: Fn(usize, usize, i32, i32, i32) -> u64>(
    f: F,
    n1: Seq<isize>,
    x1: int,
    n2: Seq<isize>,
    x2: int,
    i: usize,
    s: (i32, i32, i32),
)
    requires
        n1.len() <= usize::MAX,
        n2.len() <= usize::MAX,
        chain(n1, x1) == chain(n2, x2),
    ensures
        visit(f, n1, x1, i, s) == visit(f, n2, x2, i, s),
    decreases x1,
{
    let c1 = chain(n1, x1);
    let c2 = chain(n2, x2);
    let in1 = 0 <= x1 < n1.len();
    let in2 = 0 <= x2 < n2.len();
    if in1 {
        assert(c1[0] == x1 as usize);
    }
    if in2 {
        assert(c2[0] == x2 as usize);
    }
    if in1 && in2 {
        assert(x1 == x2);
        let stop1 = n1[x1] < 0 || n1[x1] >= x1;
        let stop2 = n2[x2] < 0 || n2[x2] >= x2;
        let r1 = if stop1 { Seq::<usize>::empty() } else { chain(n1, n1[x1] as int) };
        let r2 = if stop2 { Seq::<usize>::empty() } else { chain(n2, n2[x2] as int) };
        assert(c1 =~= seq![x1 as usize] + r1);
        assert(c2 =~= seq![x2 as usize] + r2);
        assert(r1 =~= c1.drop_first());
        assert(r2 =~= c2.drop_first());
        if !stop1 {
            assert(chain(n1, n1[x1] as int).len() > 0);
        }
        if !stop2 {
            assert(chain(n2, n2[x2] as int).len() > 0);
        }
        if !stop1 && !stop2 {
            lemma_visit_follows_list(f, n1, n1[x1] as int, n2, n2[x2] as int, i, s);
        }
    } else if in1 {
        assert(c1.len() > 0);
    } else if in2 {
        assert(c2.len() > 0);
    }
}

/// Two linked-cell structures on one mesh, with the same bins and lists
/// that name the same points in the same order.
pub open spec fn same_lists(lc1: LinkedCells, lc2: LinkedCells) -> bool {
    &&& lc1.wf()
    &&& lc2.wf()
    &&& lc1.mesh == lc2.mesh
    &&& lc1.bins@ == lc2.bins@
    &&& forall|c: int| 0 <= c < lc1.mesh.cells() ==> #[trigger] lc1.cell_list(c) == lc2.cell_list(c)
}

proof fn lemma_offsets_follow_lists<F: Fn(usize, usize, i32, i32, i32) -> u64>(
    f: F,
    lc1: LinkedCells,
    lc2: LinkedCells,
    i: usize,
    offs: Seq<(i32, i32, i32)>,
    q: int,
)
    requires
        same_lists(lc1, lc2),
        i < lc1.bins@.len(),
    ensures
        offsets_pushes(f, lc1, i, offs, q) == offsets_pushes(f, lc2, i, offs, q),
    decreases q,
{
    if q > 0 {
        lemma_offsets_follow_lists(f, lc1, lc2, i, offs, q - 1);
        let o = offs[q - 1];
        let p = stencil(lc1, i, o);
        let c = wrapped_cell(lc1.mesh, p.0, p.1, p.2);
        crate::mesh::lemma_wrapped_cell_bounds(lc1.mesh, p.0, p.1, p.2);
        assert(lc1.cell_list(c) == lc2.cell_list(c));
        let s = (
            (p.0 / (lc1.mesh.nx as int)) as i32,
            (p.1 / (lc1.mesh.ny as int)) as i32,
            (p.2 / (lc1.mesh.nz as int)) as i32,
        );
        lemma_visit_follows_list(f, lc1.next@, lc1.head@[c] as int, lc2.next@, lc2.head@[c] as int, i, s);
        assert(offset_pushes(f, lc1, i, o) == offset_pushes(f, lc2, i, o));
    }
}

proof fn lemma_walk_follows_lists<F: Fn(usize, usize, i32, i32, i32) -> u64>(
    f: F,
    lc1: LinkedCells,
    lc2: LinkedCells,
    i: usize,
    reach: int,
)
    requires
        same_lists(lc1, lc2),
        i < lc1.bins@.len(),
    ensures
        walk_pushes(f, lc1, i, reach) == walk_pushes(f, lc2, i, reach),
    decreases reach,
{
    if reach > 0 {
        lemma_walk_follows_lists(f, lc1, lc2, i, reach - 1);
        lemma_offsets_follow_lists(f, lc1, lc2, i, shell(reach), shell(reach).len() as int);
    }
}

proof fn lemma_stop_follows_lists<F: Fn(usize, usize, i32, i32, i32) -> u64>(
    f: F,
    lc1: LinkedCells,
    lc2: LinkedCells,
    i: usize,
    k: nat,
    bounds: Seq<u64>,
    reach: int,
    last: int,
)
    requires
        same_lists(lc1, lc2),
        i < lc1.bins@.len(),
    ensures
        stop_reach(f, lc1, i, k, bounds, reach, last) == stop_reach(f, lc2, i, k, bounds, reach, last),
    decreases last - reach,
{
    lemma_walk_follows_lists(f, lc1, lc2, i, reach);
    if reach < last {
        lemma_stop_follows_lists(f, lc1, lc2, i, k, bounds, reach + 1, last);
    }
}

/// A source's walk offers the same candidates over any two structures with
/// the same mesh, bins and lists.
pub proof fn lemma_pushes_follow_lists<F: Fn(usize, usize, i32, i32, i32) -> u64>(
    f: F,
    lc1: LinkedCells,
    lc2: LinkedCells,
    i: usize,
    k: nat,
    bounds: Seq<u64>,
)
    requires
        same_lists(lc1, lc2),
        i < lc1.bins@.len(),
    ensures
        source_pushes(f, lc1, i, k, bounds) == source_pushes(f, lc2, i, k, bounds),
{
    let last = crate::walk::last_reach(lc1);
    lemma_stop_follows_lists(f, lc1, lc2, i, k, bounds, 1, last);
    lemma_walk_follows_lists(f, lc1, lc2, i, stop_reach(f, lc1, i, k, bounds, 1, last));
}

/// Two searches on the same mesh, points, active set, bound, stop bounds
/// and key function give the same rows.
pub proof fn lemma_linked_rows_determined<F: Fn(usize, usize, i32, i32, i32) -> u64>(
    mesh: Mesh,
    raw: Seq<(i32, i32, i32)>,
    active: Seq<usize>,
    k: nat,
    bounds: Seq<u64>,
    f: F,
    rows1: Seq<(usize, Vec<(u64, usize)>)>,
    rows2: Seq<(usize, Vec<(u64, usize)>)>,
)
    requires
        crate::links::increasing_below(active, raw.len() as int),
        linked_rows(mesh, raw, active, k, bounds, f, rows1),
        linked_rows(mesh, raw, active, k, bounds, f, rows2),
    ensures
        rows1.len() == rows2.len(),
        forall|t: int|
            0 <= t < rows1.len() ==> (#[trigger] rows1[t]).0 == rows2[t].0 && rows1[t].1@ == rows2[t].1@,
{
    let lc1 = choose|lc: LinkedCells|
        {
            &&& lc.wf()
            &&& lc.mesh == mesh
            &&& lc.bins@.len() == raw.len()
            &&& forall|i: int|
                0 <= i < raw.len() ==> #[trigger] lc.bins@[i] == (
                    crate::mesh::clamp_to(raw[i].0 as int, mesh.nx - 1) as i32,
                    crate::mesh::clamp_to(raw[i].1 as int, mesh.ny - 1) as i32,
                    crate::mesh::clamp_to(raw[i].2 as int, mesh.nz - 1) as i32,
                )
            &&& lists_hold(lc, active)
            &&& forall|t: int|
                0 <= t < rows1.len() ==> {
                    &&& (#[trigger] rows1[t]).0 == active[t]
                    &&& crate::kheap::sorted_pairs(rows1[t].1@)
                    &&& rows1[t].1@.to_multiset() == crate::kheap::heap_after(
                        k,
                        source_pushes(f, lc, active[t], k, bounds),
                    ).to_multiset()
                }
        };
    let lc2 = choose|lc: LinkedCells|
        {
            &&& lc.wf()
            &&& lc.mesh == mesh
            &&& lc.bins@.len() == raw.len()
            &&& forall|i: int|
                0 <= i < raw.len() ==> #[trigger] lc.bins@[i] == (
                    crate::mesh::clamp_to(raw[i].0 as int, mesh.nx - 1) as i32,
                    crate::mesh::clamp_to(raw[i].1 as int, mesh.ny - 1) as i32,
                    crate::mesh::clamp_to(raw[i].2 as int, mesh.nz - 1) as i32,
                )
            &&& lists_hold(lc, active)
            &&& forall|t: int|
                0 <= t < rows2.len() ==> {
                    &&& (#[trigger] rows2[t]).0 == active[t]
                    &&& crate::kheap::sorted_pairs(rows2[t].1@)
                    &&& rows2[t].1@.to_multiset() == crate::kheap::heap_after(
                        k,
                        source_pushes(f, lc, active[t], k, bounds),
                    ).to_multiset()
                }
        };
    assert(lc1.bins@ =~= lc2.bins@);
    assert forall|c: int| 0 <= c < lc1.mesh.cells() implies #[trigger] lc1.cell_list(c) == lc2.cell_list(c) by {
        assert(lc1.cell_list(c) == crate::links::cell_members(lc1.mesh, lc1.bins@, active, c, active.len() as int));
        assert(lc2.cell_list(c) == crate::links::cell_members(lc2.mesh, lc2.bins@, active, c, active.len() as int));
    }
    assert forall|t: int| 0 <= t < rows1.len() implies (#[trigger] rows1[t]).0 == rows2[t].0 && rows1[t].1@
        == rows2[t].1@ by {
        assert(active[t] < raw.len());
        lemma_pushes_follow_lists(f, lc1, lc2, active[t], k, bounds);
        lemma_sorted_arrangement_unique(rows1[t].1@, rows2[t].1@);
    }
}

/// A search with no mask and one with a mask that keeps every point are
/// refused alike, and on the same mesh, points, bound, stop bounds and key
/// function give the same rows.
pub proof fn lemma_no_mask_same_rows<F: Fn(usize, usize, i32, i32, i32) -> u64>(
    ones: Seq<bool>,
    mesh: Mesh,
    raw: Seq<(i32, i32, i32)>,
    k: nat,
    bounds: Seq<u64>,
    f: F,
    rows1: Seq<(usize, Vec<(u64, usize)>)>,
    rows2: Seq<(usize, Vec<(u64, usize)>)>,
)
    requires
        raw.len() < isize::MAX,
        ones.len() == raw.len(),
        forall|i: int| 0 <= i < ones.len() ==> #[trigger] ones[i],
        linked_rows(mesh, raw, selected(None, raw.len() as int), k, bounds, f, rows1),
        linked_rows(mesh, raw, selected(Some(ones), raw.len() as int), k, bounds, f, rows2),
    ensures
        search_error(raw.len(), k, None) == search_error(raw.len(), k, Some(ones)),
        rows1.len() == rows2.len(),
        forall|t: int|
            0 <= t < rows1.len() ==> (#[trigger] rows1[t]).0 == rows2[t].0 && rows1[t].1@ == rows2[t].1@,
{
    crate::select::lemma_no_mask_keeps_all(raw.len(), ones);
    crate::select::lemma_selected_increasing(None, raw.len() as int);
    lemma_linked_rows_determined(mesh, raw, selected(None, raw.len() as int), k, bounds, f, rows1, rows2);
}

} // verus!
