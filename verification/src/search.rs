//! The k-nearest search over linked cells, and what its walk sees: every
//! candidate is an active point other than the source, a walk that runs to
//! the last reach sees every one of them, so each row holds
//! `min(k, n_active - 1)` neighbours; and stopping early loses nothing when
//! the stop bounds are honest.

use vstd::prelude::*;
use crate::kheap::{k_best, holds_index, is_best_push, indices_within, lemma_full_within, sorted_pairs, heap_after};
use crate::mesh::{Mesh, clamp_to};
use crate::packed::rows_fit;
use crate::links::{LinkedCells, cell_members, chain, bin_cell, increasing_below};
use crate::mesh::{wrapped_cell, max3};
use crate::shell::{shell, chebyshev, lemma_shells_tile_cube, MAX_REACH};
use crate::walk::{
    visit, offset_pushes, offsets_pushes, walk_pushes, stops_at, stop_reach, last_reach, source_pushes,
    stencil, pair_key,
};

verus! {

/// The cell lists of `lc` hold exactly the points of `active`, by bin.
pub open spec fn lists_hold(lc: LinkedCells, active: Seq<usize>) -> bool {
    forall|c: int|
        0 <= c < lc.mesh.cells() ==> #[trigger] lc.cell_list(c) == cell_members(
            lc.mesh,
            lc.bins@,
            active,
            c,
            active.len() as int,
        )
}

/// The indices a sequence of candidates names.
pub open spec fn pushed_indices(h: Seq<(u64, usize)>) -> Set<usize> {
    Set::new(|j: usize| exists|t: int| 0 <= t < h.len() && (#[trigger] h[t]).1 == j)
}

/// Members of a cell are points of `active`.
proof fn lemma_members_active(m: crate::mesh::Mesh, bins: Seq<(i32, i32, i32)>, active: Seq<usize>, c: int, u: int)
    requires
        0 <= u <= active.len(),
    ensures
        forall|x: usize| #[trigger] cell_members(m, bins, active, c, u).contains(x) ==> active.contains(x),
        forall|t: int|
            0 <= t < u && bin_cell(m, bins[active[t] as int]) == c ==> #[trigger] cell_members(m, bins, active, c, u).contains(
                active[t],
            ),
    decreases u,
{
    if u > 0 {
        lemma_members_active(m, bins, active, c, u - 1);
        let i = active[u - 1];
        let rest = cell_members(m, bins, active, c, u - 1);
        if bin_cell(m, bins[i as int]) == c {
            crate::shell::lemma_seq_add_contains(seq![i], rest);
            assert(seq![i].contains(i)) by {
                assert(seq![i][0] == i);
            }
            assert forall|x: usize| #[trigger] cell_members(m, bins, active, c, u).contains(x) implies active.contains(x) by {
                if x == i {
                    assert(active[u - 1] == x);
                } else {
                    assert(seq![i].contains(x) ==> x == i);
                }
            }
        }
    }
}

/// Every candidate met along a list is on the list and is not the source;
/// every listed point other than the source is met.
proof fn lemma_visit_indices<F: Fn(usize, usize, i32, i32, i32) -> u64>(
    f: F,
    next: Seq<isize>,
    x: int,
    i: usize,
    s: (i32, i32, i32),
)
    requires
        next.len() <= usize::MAX,
    ensures
        forall|t: int|
            0 <= t < visit(f, next, x, i, s).len() ==> (#[trigger] visit(f, next, x, i, s)[t]).1 != i
                && chain(next, x).contains(visit(f, next, x, i, s)[t].1),
        forall|y: usize| #[trigger] chain(next, x).contains(y) && y != i ==> pushed_indices(visit(f, next, x, i, s)).contains(y),
    decreases x,
{
    if x >= 0 && x < next.len() {
        let here = if x != i {
            seq![(pair_key(f, i, x as usize, s.0, s.1, s.2), x as usize)]
        } else {
            Seq::<(u64, usize)>::empty()
        };
        let v = visit(f, next, x, i, s);
        let ch = chain(next, x);
        if next[x] < 0 || next[x] >= x {
            assert(v == here);
            assert(ch == seq![x as usize]);
            assert forall|y: usize| #[trigger] ch.contains(y) && y != i implies pushed_indices(v).contains(y) by {
                let t = choose|t: int| 0 <= t < ch.len() && ch[t] == y;
                assert(v[0].1 == y);
            }
            assert forall|t: int| 0 <= t < v.len() implies (#[trigger] v[t]).1 != i && ch.contains(v[t].1) by {
                assert(x != i);
                assert(here.len() == 1);
                assert(v[t] == here[t]);
                assert(here[0].1 == x as usize);
                assert(v[t].1 != i);
                assert(ch[0] == v[t].1);
                assert(ch.contains(v[t].1));
            }
        } else {
            lemma_visit_indices(f, next, next[x] as int, i, s);
            let rv = visit(f, next, next[x] as int, i, s);
            let rc = chain(next, next[x] as int);
            assert(v == here + rv);
            assert(ch == seq![x as usize] + rc);
            assert forall|y: usize| #[trigger] ch.contains(y) && y != i implies pushed_indices(v).contains(y) by {
                let t = choose|t: int| 0 <= t < ch.len() && ch[t] == y;
                if t == 0 {
                    assert(v[0].1 == y);
                } else {
                    assert(rc[t - 1] == y);
                    assert(rc.contains(y));
                    assert(pushed_indices(rv).contains(y));
                    let w = choose|w: int| 0 <= w < rv.len() && (#[trigger] rv[w]).1 == y;
                    assert(v[here.len() + w] == rv[w]);
                }
            }
            assert forall|t: int| 0 <= t < v.len() implies (#[trigger] v[t]).1 != i && ch.contains(v[t].1) by {
                if t < here.len() {
                    assert(v[t] == here[t]);
                    assert(ch[0] == v[t].1);
                } else {
                    assert(v[t] == rv[t - here.len()]);
                    let w = choose|w: int| 0 <= w < rc.len() && rc[w] == rv[t - here.len()].1;
                    assert(ch[w + 1] == rc[w]);
                }
            }
        }
    }
}

/// Every candidate of a walk is a point of `active` other than the source.
proof fn lemma_walk_indices<F: Fn(usize, usize, i32, i32, i32) -> u64>(
    f: F,
    lc: LinkedCells,
    active: Seq<usize>,
    i: usize,
    r: int,
)
    requires
        lc.wf(),
        lists_hold(lc, active),
        i < lc.bins@.len(),
        r <= MAX_REACH,
    ensures
        forall|t: int|
            0 <= t < walk_pushes(f, lc, i, r).len() ==> (#[trigger] walk_pushes(f, lc, i, r)[t]).1 != i
                && active.contains(walk_pushes(f, lc, i, r)[t].1),
    decreases r,
{
    if r > 0 {
        lemma_walk_indices(f, lc, active, i, r - 1);
        crate::shell::lemma_shell_contents(r);
        lemma_offsets_indices(f, lc, active, i, r, shell(r).len() as int);
        let a = walk_pushes(f, lc, i, r - 1);
        let b = offsets_pushes(f, lc, i, shell(r), shell(r).len() as int);
        assert(walk_pushes(f, lc, i, r) == a + b);
        assert forall|t: int| 0 <= t < (a + b).len() implies (#[trigger] (a + b)[t]).1 != i && active.contains((a + b)[t].1) by {
            if t < a.len() {
                assert((a + b)[t] == a[t]);
            } else {
                assert((a + b)[t] == b[t - a.len()]);
            }
        }
    }
}

proof fn lemma_offsets_indices<F: Fn(usize, usize, i32, i32, i32) -> u64>(
    f: F,
    lc: LinkedCells,
    active: Seq<usize>,
    i: usize,
    r: int,
    q: int,
)
    requires
        lc.wf(),
        lists_hold(lc, active),
        i < lc.bins@.len(),
        1 <= r <= MAX_REACH,
        q <= shell(r).len(),
        forall|p: (i32, i32, i32)|
            #[trigger] shell(r).contains(p) ==> crate::shell::in_shell(r, p.0 as int, p.1 as int, p.2 as int),
    ensures
        forall|t: int|
            0 <= t < offsets_pushes(f, lc, i, shell(r), q).len() ==> (#[trigger] offsets_pushes(
                f,
                lc,
                i,
                shell(r),
                q,
            )[t]).1 != i && active.contains(offsets_pushes(f, lc, i, shell(r), q)[t].1),
    decreases q,
{
    if q > 0 {
        lemma_offsets_indices(f, lc, active, i, r, q - 1);
        let o = shell(r)[q - 1];
        assert(shell(r).contains(o));
        let p = stencil(lc, i, o);
        let c = wrapped_cell(lc.mesh, p.0, p.1, p.2);
        let s = (
            (p.0 / (lc.mesh.nx as int)) as i32,
            (p.1 / (lc.mesh.ny as int)) as i32,
            (p.2 / (lc.mesh.nz as int)) as i32,
        );
        crate::mesh::lemma_wrapped_cell_bounds(lc.mesh, p.0, p.1, p.2);
        lemma_visit_indices(f, lc.next@, lc.head@[c] as int, i, s);
        lemma_members_active(lc.mesh, lc.bins@, active, c, active.len() as int);
        assert(lc.cell_list(c) == cell_members(lc.mesh, lc.bins@, active, c, active.len() as int));
        let a = offsets_pushes(f, lc, i, shell(r), q - 1);
        let b = offset_pushes(f, lc, i, o);
        assert(offsets_pushes(f, lc, i, shell(r), q) == a + b);
        assert forall|t: int| 0 <= t < (a + b).len() implies (#[trigger] (a + b)[t]).1 != i && active.contains((a + b)[t].1) by {
            if t < a.len() {
                assert((a + b)[t] == a[t]);
            } else {
                assert((a + b)[t] == b[t - a.len()]);
                assert(chain(lc.next@, lc.head@[c] as int).contains(b[t - a.len()].1));
            }
        }
    }
}

/// An offset along one direction that carries bin `bi` onto bin `bj`
/// within `reach`.
spec fn axis_step(bi: int, bj: int, n: int, reach: int) -> int {
    let d = bj - bi;
    if d > reach {
        d - n
    } else if d < -reach {
        d + n
    } else {
        d
    }
}

proof fn lemma_axis_step(bi: int, bj: int, n: int, reach: int)
    requires
        0 <= bi < n,
        0 <= bj < n,
        n + 1 <= 2 * reach,
    ensures
        -reach <= axis_step(bi, bj, n, reach) <= reach,
        (bi + axis_step(bi, bj, n, reach)) % n == bj,
{
    let d = bj - bi;
    vstd::arithmetic::div_mod::lemma_small_mod(bj as nat, n as nat);
    if d > reach {
        vstd::arithmetic::div_mod::lemma_mod_sub_multiples_vanish(bj, n);
        assert(bi + (d - n) == -n + bj);
    } else if d < -reach {
        vstd::arithmetic::div_mod::lemma_mod_add_multiples_vanish(bj, n);
        assert(bi + (d + n) == n + bj);
    }
}

/// Some offset within the last reach carries the bin of `i` onto the cell
/// of bin `bj`.
proof fn lemma_offset_reaches(lc: LinkedCells, i: usize, bj: (i32, i32, i32)) -> (o: (i32, i32, i32))
    requires
        lc.wf(),
        i < lc.bins@.len(),
        0 <= bj.0 < lc.mesh.nx,
        0 <= bj.1 < lc.mesh.ny,
        0 <= bj.2 < lc.mesh.nz,
    ensures
        chebyshev(o.0 as int, o.1 as int, o.2 as int) <= last_reach(lc),
        ({
            let p = stencil(lc, i, o);
            wrapped_cell(lc.mesh, p.0, p.1, p.2) == bin_cell(lc.mesh, bj)
        }),
{
    let m = lc.mesh;
    let r = last_reach(lc);
    let bi = lc.bins@[i as int];
    assert(m.nx + 1 <= 2 * r && m.ny + 1 <= 2 * r && m.nz + 1 <= 2 * r) by {
        let mx = max3(m.nx as int, m.ny as int, m.nz as int);
        assert(mx + 1 <= 2 * (mx / 2 + 1));
    }
    lemma_axis_step(bi.0 as int, bj.0 as int, m.nx as int, r);
    lemma_axis_step(bi.1 as int, bj.1 as int, m.ny as int, r);
    lemma_axis_step(bi.2 as int, bj.2 as int, m.nz as int, r);
    vstd::arithmetic::div_mod::lemma_small_mod(bj.0 as nat, m.nx as nat);
    vstd::arithmetic::div_mod::lemma_small_mod(bj.1 as nat, m.ny as nat);
    vstd::arithmetic::div_mod::lemma_small_mod(bj.2 as nat, m.nz as nat);
    (
        axis_step(bi.0 as int, bj.0 as int, m.nx as int, r) as i32,
        axis_step(bi.1 as int, bj.1 as int, m.ny as int, r) as i32,
        axis_step(bi.2 as int, bj.2 as int, m.nz as int, r) as i32,
    )
}

/// The candidates at an offset are among those at every longer prefix of
/// the offsets that holds it.
proof fn lemma_offsets_prefix<F: Fn(usize, usize, i32, i32, i32) -> u64>(
    f: F,
    lc: LinkedCells,
    i: usize,
    offs: Seq<(i32, i32, i32)>,
    q: int,
    big: int,
)
    requires
        0 <= q < big <= offs.len(),
    ensures
        pushed_indices(offset_pushes(f, lc, i, offs[q])).subset_of(pushed_indices(offsets_pushes(f, lc, i, offs, big))),
    decreases big,
{
    let a = offsets_pushes(f, lc, i, offs, big - 1);
    let b = offset_pushes(f, lc, i, offs[big - 1]);
    assert(offsets_pushes(f, lc, i, offs, big) == a + b);
    if q < big - 1 {
        lemma_offsets_prefix(f, lc, i, offs, q, big - 1);
    }
    assert forall|j: usize| pushed_indices(offset_pushes(f, lc, i, offs[q])).contains(j) implies pushed_indices(
        a + b,
    ).contains(j) by {
        if q == big - 1 {
            let t = choose|t: int| 0 <= t < b.len() && (#[trigger] b[t]).1 == j;
            assert((a + b)[a.len() + t] == b[t]);
        } else {
            assert(pushed_indices(a).contains(j));
            let t = choose|t: int| 0 <= t < a.len() && (#[trigger] a[t]).1 == j;
            assert((a + b)[t] == a[t]);
        }
    }
}

/// Shells walked earlier stay among the candidates of later reaches.
proof fn lemma_walk_prefix<F: Fn(usize, usize, i32, i32, i32) -> u64>(
    f: F,
    lc: LinkedCells,
    i: usize,
    r: int,
    big: int,
)
    requires
        1 <= r <= big,
    ensures
        pushed_indices(offsets_pushes(f, lc, i, shell(r), shell(r).len() as int)).subset_of(
            pushed_indices(walk_pushes(f, lc, i, big)),
        ),
    decreases big,
{
    let a = walk_pushes(f, lc, i, big - 1);
    let b = offsets_pushes(f, lc, i, shell(big), shell(big).len() as int);
    assert(walk_pushes(f, lc, i, big) == a + b);
    if r < big {
        lemma_walk_prefix(f, lc, i, r, big - 1);
    }
    assert forall|j: usize| pushed_indices(offsets_pushes(f, lc, i, shell(r), shell(r).len() as int)).contains(j)
        implies pushed_indices(a + b).contains(j) by {
        if r == big {
            let t = choose|t: int| 0 <= t < b.len() && (#[trigger] b[t]).1 == j;
            assert((a + b)[a.len() + t] == b[t]);
        } else {
            assert(pushed_indices(a).contains(j));
            let t = choose|t: int| 0 <= t < a.len() && (#[trigger] a[t]).1 == j;
            assert((a + b)[t] == a[t]);
        }
    }
}

/// A walk that reaches the last shell meets every active point other than
/// the source.
pub proof fn lemma_walk_meets_all<F: Fn(usize, usize, i32, i32, i32) -> u64>(
    f: F,
    lc: LinkedCells,
    active: Seq<usize>,
    i: usize,
)
    requires
        lc.wf(),
        lists_hold(lc, active),
        increasing_below(active, lc.bins@.len() as int),
        i < lc.bins@.len(),
    ensures
        forall|j: usize|
            active.contains(j) && j != i ==> #[trigger] pushed_indices(walk_pushes(f, lc, i, last_reach(lc))).contains(j),
{
    let big = last_reach(lc);
    assert forall|j: usize| active.contains(j) && j != i implies #[trigger] pushed_indices(
        walk_pushes(f, lc, i, big),
    ).contains(j) by {
        let tj = choose|t: int| 0 <= t < active.len() && active[t] == j;
        let bj = lc.bins@[j as int];
        let o = lemma_offset_reaches(lc, i, bj);
        assert(1 <= big <= MAX_REACH);
        lemma_shells_tile_cube(big, o);
        let c0 = chebyshev(o.0 as int, o.1 as int, o.2 as int);
        let home = if c0 <= 1 { 1 } else { c0 };
        assert(shell(home).contains(o));
        let q = choose|q: int| 0 <= q < shell(home).len() && shell(home)[q] == o;
        let c = bin_cell(lc.mesh, bj);
        crate::mesh::lemma_wrapped_cell_bounds(lc.mesh, bj.0 as int, bj.1 as int, bj.2 as int);
        lemma_members_active(lc.mesh, lc.bins@, active, c, active.len() as int);
        assert(lc.cell_list(c).contains(j));
        let p = stencil(lc, i, o);
        let s = (
            (p.0 / (lc.mesh.nx as int)) as i32,
            (p.1 / (lc.mesh.ny as int)) as i32,
            (p.2 / (lc.mesh.nz as int)) as i32,
        );
        lemma_visit_indices(f, lc.next@, lc.head@[c] as int, i, s);
        assert(pushed_indices(offset_pushes(f, lc, i, o)).contains(j));
        lemma_offsets_prefix(f, lc, i, shell(home), q, shell(home).len() as int);
        lemma_walk_prefix(f, lc, i, home, big);
    }
}

/// The reach a walk stops at lies in `reach..=last`, and is `last` unless
/// the walk stopped there.
proof fn lemma_stop_reach_range<F: Fn(usize, usize, i32, i32, i32) -> u64>(
    f: F,
    lc: LinkedCells,
    i: usize,
    k: nat,
    bounds: Seq<u64>,
    reach: int,
    last: int,
)
    requires
        reach <= last,
    ensures
        reach <= stop_reach(f, lc, i, k, bounds, reach, last) <= last,
        stop_reach(f, lc, i, k, bounds, reach, last) == last || stops_at(
            f,
            lc,
            i,
            k,
            bounds,
            stop_reach(f, lc, i, k, bounds, reach, last),
        ),
    decreases last - reach,
{
    if reach < last && !stops_at(f, lc, i, k, bounds, reach) {
        lemma_stop_reach_range(f, lc, i, k, bounds, reach + 1, last);
    }
}

/// A best choice holds `min(k, d)` candidates, `d` the number of distinct
/// pushed indices.
pub proof fn lemma_k_best_len(es: Seq<(u64, usize)>, h: Seq<(u64, usize)>, k: nat)
    requires
        k_best(es, h, k),
    ensures
        pushed_indices(h).finite(),
        es.len() == if k <= pushed_indices(h).len() { k } else { pushed_indices(h).len() },
{
    broadcast use vstd::set::group_set_axioms;
    let all = crate::kheap::index_seq(h).to_set();
    let pushed = pushed_indices(h);
    assert(pushed =~= all) by {
        assert forall|j: usize| pushed.contains(j) <==> all.contains(j) by {
            if pushed.contains(j) {
                let t = choose|t: int| 0 <= t < h.len() && (#[trigger] h[t]).1 == j;
                assert(crate::kheap::index_seq(h)[t] == j);
            }
            if all.contains(j) {
                let t = choose|t: int| 0 <= t < h.len() && crate::kheap::index_seq(h)[t] == j;
                assert(h[t].1 == j);
            }
        }
    }
    let ids = crate::kheap::index_seq(es);
    assert(ids.no_duplicates()) by {
        assert forall|a: int, c: int| 0 <= a < ids.len() && 0 <= c < ids.len() && a != c implies ids[a] != ids[c] by {
            if a < c {
                assert(es[a].1 != es[c].1);
            } else {
                assert(es[c].1 != es[a].1);
            }
        }
    }
    ids.unique_seq_to_set();
    let held = ids.to_set();
    assert(held.subset_of(pushed)) by {
        assert forall|j: usize| held.contains(j) implies pushed.contains(j) by {
            let s = choose|s: int| 0 <= s < ids.len() && ids[s] == j;
            assert(is_best_push(h, es[s]));
            let t = choose|t: int| 0 <= t < h.len() && #[trigger] h[t] == es[s];
            assert(h[t].1 == j);
        }
    }
    vstd::set_lib::lemma_len_subset(held, pushed);
    if es.len() < k {
        assert(pushed.subset_of(held)) by {
            assert forall|j: usize| pushed.contains(j) implies held.contains(j) by {
                let t = choose|t: int| 0 <= t < h.len() && (#[trigger] h[t]).1 == j;
                if !holds_index(es, h[t].1) {
                    assert(es.len() == k);
                }
                let s = choose|s: int| 0 <= s < es.len() && #[trigger] es[s].1 == j;
                assert(ids[s] == j);
            }
        }
        vstd::set_lib::lemma_len_subset(pushed, held);
    }
}

/// Each row of the k-nearest walk over lists built from `active` holds
/// `min(k, n_active - 1)` neighbours, each an active point other than the
/// source.
pub proof fn lemma_row_len<F: Fn(usize, usize, i32, i32, i32) -> u64>(
    f: F,
    lc: LinkedCells,
    active: Seq<usize>,
    i: usize,
    k: nat,
    bounds: Seq<u64>,
    row: Seq<(u64, usize)>,
)
    requires
        lc.wf(),
        lists_hold(lc, active),
        increasing_below(active, lc.bins@.len() as int),
        active.contains(i),
        k_best(row, source_pushes(f, lc, i, k, bounds), k),
    ensures
        row.len() == if k <= active.len() - 1 { k } else { (active.len() - 1) as nat },
        forall|s: int| 0 <= s < row.len() ==> (#[trigger] row[s]).1 != i && active.contains(row[s].1),
{
    broadcast use vstd::set::group_set_axioms;
    let last = last_reach(lc);
    let stop = stop_reach(f, lc, i, k, bounds, 1, last);
    let h = source_pushes(f, lc, i, k, bounds);
    let ti = choose|t: int| 0 <= t < active.len() && active[t] == i;
    assert(i < lc.bins@.len());
    assert(1 <= last <= MAX_REACH);
    lemma_stop_reach_range(f, lc, i, k, bounds, 1, last);
    lemma_walk_indices(f, lc, active, i, stop);
    lemma_k_best_len(row, h, k);
    let others = active.to_set().remove(i);
    assert(active.no_duplicates()) by {
        assert forall|a: int, b: int| 0 <= a < active.len() && 0 <= b < active.len() && a != b implies active[a]
            != active[b] by {
            if a < b {
                assert(active[a] < active[b]);
            } else {
                assert(active[b] < active[a]);
            }
        }
    }
    active.unique_seq_to_set();
    assert(active.to_set().contains(i));
    assert(others.len() == active.len() - 1);
    let pushed = pushed_indices(h);
    assert(pushed.subset_of(others)) by {
        assert forall|j: usize| pushed.contains(j) implies others.contains(j) by {
            let t = choose|t: int| 0 <= t < h.len() && (#[trigger] h[t]).1 == j;
        }
    }
    vstd::set_lib::lemma_len_subset(pushed, others);
    assert forall|s: int| 0 <= s < row.len() implies (#[trigger] row[s]).1 != i && active.contains(row[s].1) by {
        assert(is_best_push(h, row[s]));
        let t = choose|t: int| 0 <= t < h.len() && #[trigger] h[t] == row[s];
    }
    if stops_at(f, lc, i, k, bounds, stop) {
        lemma_full_within(row, h, k, bounds[stop]);
        let within = indices_within(h, bounds[stop]);
        assert(within.subset_of(pushed)) by {
            assert forall|j: usize| within.contains(j) implies pushed.contains(j) by {
                let t = choose|t: int| 0 <= t < h.len() && (#[trigger] h[t]).1 == j && h[t].0 <= bounds[stop];
            }
        }
        vstd::set_lib::lemma_len_subset(within, pushed);
    } else {
        assert(stop == last);
        lemma_walk_meets_all(f, lc, active, i);
        assert(others.subset_of(pushed)) by {
            assert forall|j: usize| others.contains(j) implies pushed.contains(j) by {
                assert(active.contains(j) && j != i);
            }
        }
        vstd::set_lib::lemma_len_subset(others, pushed);
    }
}

/// The candidates of the first shells are a prefix of those of more shells.
proof fn lemma_walk_is_prefix<F: Fn(usize, usize, i32, i32, i32) -> u64>(
    f: F,
    lc: LinkedCells,
    i: usize,
    r: int,
    big: int,
)
    requires
        r <= big,
    ensures
        walk_pushes(f, lc, i, r).len() <= walk_pushes(f, lc, i, big).len(),
        forall|t: int|
            0 <= t < walk_pushes(f, lc, i, r).len() ==> #[trigger] walk_pushes(f, lc, i, big)[t]
                == walk_pushes(f, lc, i, r)[t],
    decreases big - r,
{
    if r < big {
        lemma_walk_is_prefix(f, lc, i, r, big - 1);
        if big > 0 {
            let a = walk_pushes(f, lc, i, big - 1);
            let b = offsets_pushes(f, lc, i, shell(big), shell(big).len() as int);
            assert(walk_pushes(f, lc, i, big) == a + b);
            assert forall|t: int| 0 <= t < walk_pushes(f, lc, i, r).len() implies #[trigger] walk_pushes(
                f,
                lc,
                i,
                big,
            )[t] == walk_pushes(f, lc, i, r)[t] by {
                assert((a + b)[t] == a[t]);
            }
        }
    }
}

/// Stopping early loses nothing when the bounds are honest: if every
/// candidate the walk would meet after the shell it stopped at has a key no
/// smaller than that shell's bound, the row it returns is also a best
/// choice from the whole walk up to the last reach.
pub proof fn lemma_early_stop_loses_nothing<F: Fn(usize, usize, i32, i32, i32) -> u64>(
    f: F,
    lc: LinkedCells,
    i: usize,
    k: nat,
    bounds: Seq<u64>,
    row: Seq<(u64, usize)>,
)
    requires
        k_best(row, source_pushes(f, lc, i, k, bounds), k),
        1 <= last_reach(lc),
        ({
            let stop = stop_reach(f, lc, i, k, bounds, 1, last_reach(lc));
            let seen = walk_pushes(f, lc, i, stop);
            let all = walk_pushes(f, lc, i, last_reach(lc));
            forall|t: int| seen.len() <= t < all.len() ==> (#[trigger] all[t]).0 >= bounds[stop]
        }),
    ensures
        k_best(row, walk_pushes(f, lc, i, last_reach(lc)), k),
{
    let last = last_reach(lc);
    let stop = stop_reach(f, lc, i, k, bounds, 1, last);
    let seen = walk_pushes(f, lc, i, stop);
    let all = walk_pushes(f, lc, i, last);
    lemma_stop_reach_range(f, lc, i, k, bounds, 1, last);
    if stop < last {
        let b = bounds[stop];
        lemma_full_within(row, seen, k, b);
        lemma_walk_is_prefix(f, lc, i, stop, last);
        assert forall|s: int| 0 <= s < row.len() implies is_best_push(all, #[trigger] row[s]) by {
            assert(is_best_push(seen, row[s]));
            let t = choose|t: int| 0 <= t < seen.len() && #[trigger] seen[t] == row[s];
            assert(all[t] == seen[t]);
            assert forall|u: int| 0 <= u < all.len() && (#[trigger] all[u]).1 == row[s].1 implies row[s].0 <= all[u].0 by {
                if u < seen.len() {
                    assert(all[u] == seen[u]);
                }
            }
        }
        assert forall|u: int| 0 <= u < all.len() && !holds_index(row, (#[trigger] all[u]).1) implies {
            &&& row.len() == k
            &&& forall|s: int| 0 <= s < row.len() ==> (#[trigger] row[s]).0 <= all[u].0
        } by {
            if u < seen.len() {
                assert(all[u] == seen[u]);
            }
        }
    }
}

/// The rows a linked-cell search gives: one per active source, in order,
/// each the candidates that a heap of bound `k` holds after the source's
/// walk over cell lists that hold `active`, nearest first.
pub open spec fn linked_rows<F: Fn(usize, usize, i32, i32, i32) -> u64>(
    mesh: Mesh,
    raw: Seq<(i32, i32, i32)>,
    active: Seq<usize>,
    k: nat,
    bounds: Seq<u64>,
    f: F,
    rows: Seq<(usize, Vec<(u64, usize)>)>,
) -> bool {
    &&& rows.len() == active.len()
    &&& exists|lc: LinkedCells|
        {
            &&& lc.wf()
            &&& lc.mesh == mesh
            &&& lc.bins@.len() == raw.len()
            &&& forall|i: int|
                0 <= i < raw.len() ==> #[trigger] lc.bins@[i] == (
                    clamp_to(raw[i].0 as int, mesh.nx - 1) as i32,
                    clamp_to(raw[i].1 as int, mesh.ny - 1) as i32,
                    clamp_to(raw[i].2 as int, mesh.nz - 1) as i32,
                )
            &&& lists_hold(lc, active)
            &&& forall|t: int|
                0 <= t < rows.len() ==> {
                    &&& (#[trigger] rows[t]).0 == active[t]
                    &&& sorted_pairs(rows[t].1@)
                    &&& rows[t].1@.to_multiset() == heap_after(
                        k,
                        source_pushes(f, lc, active[t], k, bounds),
                    ).to_multiset()
                }
        }
}

/// Bins the points on `mesh`, links the active ones and walks every active
/// source: each row is a best choice of `min(k, n_active - 1)` neighbours,
/// every one an active point other than its source, nearest first.
pub fn knearest_linked<F: Fn(usize, usize, i32, i32, i32) -> u64>(
    mesh: Mesh,
    raw: &Vec<(i32, i32, i32)>,
    active: &Vec<usize>,
    k: usize,
    bounds: &Vec<u64>,
    key: &F,
) -> (rows: Vec<(usize, Vec<(u64, usize)>)>)
    requires
        mesh.wf(),
        raw@.len() < isize::MAX,
        increasing_below(active@, raw@.len() as int),
        bounds@.len() > max3(mesh.nx as int, mesh.ny as int, mesh.nz as int) / 2 + 1,
        crate::walk::key_function(*key),
    ensures
        rows@.len() == active@.len(),
        rows_fit(rows@, raw@.len() as nat, k as nat),
        forall|t: int|
            0 <= t < rows@.len() ==> {
                &&& (#[trigger] rows@[t]).0 == active@[t]
                &&& sorted_pairs(rows@[t].1@)
                &&& rows@[t].1@.len() == if k <= active@.len() - 1 {
                    k as int
                } else {
                    active@.len() - 1
                }
                &&& forall|s: int|
                    0 <= s < rows@[t].1@.len() ==> (#[trigger] rows@[t].1@[s]).1 != active@[t] && active@.contains(
                        rows@[t].1@[s].1,
                    )
            },
        exists|lc: LinkedCells|
            {
                &&& lc.wf()
                &&& lc.mesh == mesh
                &&& lc.bins@.len() == raw@.len()
                &&& forall|i: int|
                    0 <= i < raw@.len() ==> #[trigger] lc.bins@[i] == (
                        clamp_to(raw@[i].0 as int, mesh.nx - 1) as i32,
                        clamp_to(raw@[i].1 as int, mesh.ny - 1) as i32,
                        clamp_to(raw@[i].2 as int, mesh.nz - 1) as i32,
                    )
                &&& lists_hold(lc, active@)
                &&& forall|t: int|
                    0 <= t < rows@.len() ==> k_best(
                        #[trigger] rows@[t].1@,
                        source_pushes(*key, lc, active@[t], k as nat, bounds@),
                        k as nat,
                    )
            },
        linked_rows(mesh, raw@, active@, k as nat, bounds@, *key, rows@),
{
    let lc = LinkedCells::build(mesh, raw, active);
    let rows = crate::walk::walk_all(&lc, active, k, bounds, key);
    proof {
        assert forall|t: int| 0 <= t < rows@.len() implies {
            &&& rows@[t].1@.len() == if k <= active@.len() - 1 {
                k as int
            } else {
                active@.len() - 1
            }
            &&& forall|s: int|
                0 <= s < rows@[t].1@.len() ==> (#[trigger] rows@[t].1@[s]).1 != active@[t] && active@.contains(
                    rows@[t].1@[s].1,
                )
        } by {
            assert(active@.contains(active@[t]));
            lemma_row_len(*key, lc, active@, active@[t], k as nat, bounds@, rows@[t].1@);
        }
    }
    rows
}

/// A linked-cell search written into the packed buffer `out` of `n * k`
/// slots: slot `i * k + t` holds the `t`-th neighbour of active source `i`
/// (or `-1` past the end of its row), and every slot of an inactive point
/// is `-1`. The rows are returned for their keys.
pub fn knearest_linked_into<F: Fn(usize, usize, i32, i32, i32) -> u64>(
    mesh: Mesh,
    raw: &Vec<(i32, i32, i32)>,
    active: &Vec<usize>,
    k: usize,
    bounds: &Vec<u64>,
    key: &F,
    out: &mut [i32],
) -> (rows: Vec<(usize, Vec<(u64, usize)>)>)
    requires
        mesh.wf(),
        raw@.len() < isize::MAX,
        increasing_below(active@, raw@.len() as int),
        bounds@.len() > max3(mesh.nx as int, mesh.ny as int, mesh.nz as int) / 2 + 1,
        crate::walk::key_function(*key),
        old(out)@.len() == raw@.len() * k,
    ensures
        linked_rows(mesh, raw@, active@, k as nat, bounds@, *key, rows@),
        rows_fit(rows@, raw@.len() as nat, k as nat),
        final(out)@.len() == raw@.len() * k,
        forall|u: int, t: int|
            0 <= u < active@.len() && 0 <= t < k ==> #[trigger] final(out)@[active@[u] * k + t]
                == crate::packed::index_slot(rows@[u].1@, t),
        forall|i: int, t: int|
            0 <= i < raw@.len() && 0 <= t < k && !active@.contains(i as usize) ==> #[trigger] final(out)@[i * k
                + t] == -1,
{
    let rows = knearest_linked(mesh, raw, active, k, bounds, key);
    crate::packed::pack_indices(&rows, raw.len(), k, out);
    proof {
        assert forall|u: int, t: int|
            0 <= u < active@.len() && 0 <= t < k implies #[trigger] out@[active@[u] * k + t]
                == crate::packed::index_slot(rows@[u].1@, t) by {
            assert(rows@[u].0 == active@[u]);
            assert(out@[rows@[u].0 * k + t] == crate::packed::index_slot(rows@[u].1@, t));
        }
        assert forall|i: int, t: int|
            0 <= i < raw@.len() && 0 <= t < k && !active@.contains(i as usize) implies #[trigger] out@[i * k + t]
                == -1 by {
            assert forall|u: int| 0 <= u < rows@.len() implies (#[trigger] rows@[u]).0 != i by {
                assert(rows@[u].0 == active@[u]);
                assert(active@.contains(active@[u]));
            }
        }
    }
    rows
}

} // verus!
