//! The k-nearest walk over Chebyshev shells of linked cells.
//!
//! For a source `i` in bin `b`, shell `reach` visits every offset `o` of
//! that shell in walk order; the stencil position `b + o` wraps onto a
//! primary cell, and crosses the lattice image `floor((b + o) / n)`. Every
//! point `j != i` on that cell's list is offered to the source's heap with
//! the key the caller gives for the pair `(i, j)` under that image. The same
//! primary cell may come up under several images: each is a separate visit.
//! After each shell the walk stops once at least `k` distinct candidates
//! have a key within the bound the caller gives for that reach; otherwise it
//! goes on up to the mesh's last reach.

use vstd::prelude::*;
use crate::kheap::{KHeap, k_best, sorted_pairs, indices_within, lemma_full_within, heap_after};
use crate::links::{LinkedCells, increasing_below};
use crate::packed::rows_fit;
use crate::mesh::wrapped_cell;
use crate::shell::{shell, shell_offsets, MAX_REACH};

verus! {

/// The key the caller's function gives for the pair `(i, j)` under the
/// lattice image `(na, nb, nc)`.
pub open spec fn pair_key<F: Fn(usize, usize, i32, i32, i32) -> u64>(
    f: F,
    i: usize,
    j: usize,
    na: i32,
    nb: i32,
    nc: i32,
) -> u64 {
    choose|r: u64| call_ensures(f, (i, j, na, nb, nc), r)
}

/// The caller's key function accepts every pair and gives one key for it.
pub open spec fn key_function<F: Fn(usize, usize, i32, i32, i32) -> u64>(f: F) -> bool {
    &&& forall|a: (usize, usize, i32, i32, i32)| call_requires(f, a)
    &&& forall|a: (usize, usize, i32, i32, i32), r1: u64, r2: u64|
        call_ensures(f, a, r1) && call_ensures(f, a, r2) ==> r1 == r2
}

/// The candidates offered while following a cell list from `x` under the
/// image `s`, skipping the source itself.
pub open spec fn visit<F: Fn(usize, usize, i32, i32, i32) -> u64>(
    f: F,
    next: Seq<isize>,
    x: int,
    i: usize,
    s: (i32, i32, i32),
) -> Seq<(u64, usize)>
    decreases x,
{
    if x < 0 || x >= next.len() {
        Seq::empty()
    } else {
        let here = if x != i {
            seq![(pair_key(f, i, x as usize, s.0, s.1, s.2), x as usize)]
        } else {
            Seq::empty()
        };
        if next[x] < 0 || next[x] >= x {
            here
        } else {
            here + visit(f, next, next[x] as int, i, s)
        }
    }
}

/// The stencil position of source `i` moved by `o`.
pub open spec fn stencil(lc: LinkedCells, i: usize, o: (i32, i32, i32)) -> (int, int, int) {
    let b = lc.bins@[i as int];
    (b.0 + o.0, b.1 + o.1, b.2 + o.2)
}

/// The candidates offered at offset `o` of source `i`.
pub open spec fn offset_pushes<F: Fn(usize, usize, i32, i32, i32) -> u64>(
    f: F,
    lc: LinkedCells,
    i: usize,
    o: (i32, i32, i32),
) -> Seq<(u64, usize)> {
    let p = stencil(lc, i, o);
    let c = wrapped_cell(lc.mesh, p.0, p.1, p.2);
    let s = (
        (p.0 / (lc.mesh.nx as int)) as i32,
        (p.1 / (lc.mesh.ny as int)) as i32,
        (p.2 / (lc.mesh.nz as int)) as i32,
    );
    visit(f, lc.next@, lc.head@[c] as int, i, s)
}

/// The candidates offered at the first `q` offsets of `offs`.
pub open spec fn offsets_pushes<F: Fn(usize, usize, i32, i32, i32) -> u64>(
    f: F,
    lc: LinkedCells,
    i: usize,
    offs: Seq<(i32, i32, i32)>,
    q: int,
) -> Seq<(u64, usize)>
    decreases q,
{
    if q <= 0 {
        Seq::empty()
    } else {
        offsets_pushes(f, lc, i, offs, q - 1) + offset_pushes(f, lc, i, offs[q - 1])
    }
}

/// The candidates offered in shells `1..=reach`, in walk order.
pub open spec fn walk_pushes<F: Fn(usize, usize, i32, i32, i32) -> u64>(
    f: F,
    lc: LinkedCells,
    i: usize,
    reach: int,
) -> Seq<(u64, usize)>
    decreases reach,
{
    if reach <= 0 {
        Seq::empty()
    } else {
        walk_pushes(f, lc, i, reach - 1) + offsets_pushes(
            f,
            lc,
            i,
            shell(reach),
            shell(reach).len() as int,
        )
    }
}

/// After shell `reach`, at least `k` distinct candidates have a key within
/// the bound of that reach.
pub open spec fn stops_at<F: Fn(usize, usize, i32, i32, i32) -> u64>(
    f: F,
    lc: LinkedCells,
    i: usize,
    k: nat,
    bounds: Seq<u64>,
    reach: int,
) -> bool {
    indices_within(walk_pushes(f, lc, i, reach), bounds[reach]).len() >= k
}

/// The first reach from `reach` on at which the walk stops, or `last`.
pub open spec fn stop_reach<F: Fn(usize, usize, i32, i32, i32) -> u64>(
    f: F,
    lc: LinkedCells,
    i: usize,
    k: nat,
    bounds: Seq<u64>,
    reach: int,
    last: int,
) -> int
    decreases last - reach,
{
    if reach >= last || stops_at(f, lc, i, k, bounds, reach) {
        reach
    } else {
        stop_reach(f, lc, i, k, bounds, reach + 1, last)
    }
}

/// The last reach of the walk on this mesh.
pub open spec fn last_reach(lc: LinkedCells) -> int {
    crate::mesh::max3(lc.mesh.nx as int, lc.mesh.ny as int, lc.mesh.nz as int) / 2 + 1
}

/// The candidates of a source's whole walk.
pub open spec fn source_pushes<F: Fn(usize, usize, i32, i32, i32) -> u64>(
    f: F,
    lc: LinkedCells,
    i: usize,
    k: nat,
    bounds: Seq<u64>,
) -> Seq<(u64, usize)> {
    walk_pushes(f, lc, i, stop_reach(f, lc, i, k, bounds, 1, last_reach(lc)))
}

/// The `k` nearest candidates of source `i`, nearest first.
///
/// `bounds[reach]` is the key of the squared radius that shell `reach`
/// is known to cover.
pub fn walk<F: Fn(usize, usize, i32, i32, i32) -> u64>(
    lc: &LinkedCells,
    i: usize,
    k: usize,
    bounds: &Vec<u64>,
    key: &F,
) -> (r: Vec<(u64, usize)>)
    requires
        lc.wf(),
        i < lc.bins@.len(),
        bounds@.len() > last_reach(*lc),
        key_function(*key),
    ensures
        sorted_pairs(r@),
        k_best(r@, source_pushes(*key, *lc, i, k as nat, bounds@), k as nat),
        r@.to_multiset() == heap_after(k as nat, source_pushes(*key, *lc, i, k as nat, bounds@)).to_multiset(),
{
    let ghost f = *key;
    let ghost last = last_reach(*lc);
    let mut heap = KHeap::new(k);
    let b = lc.bins[i];
    let max_reach = lc.mesh.max_reach();
    let mut reach: i32 = 1;
    loop
        invariant_except_break
            heap.history() == walk_pushes(f, *lc, i, reach - 1),
            stop_reach(f, *lc, i, k as nat, bounds@, 1, last) == stop_reach(
                f,
                *lc,
                i,
                k as nat,
                bounds@,
                reach as int,
                last,
            ),
        invariant
            lc.wf(),
            i < lc.bins@.len(),
            b == lc.bins@[i as int],
            bounds@.len() > last,
            key_function(f),
            f == *key,
            max_reach == last,
            last == last_reach(*lc),
            1 <= max_reach <= MAX_REACH,
            1 <= reach <= max_reach,
            heap.wf(),
            heap.capacity() == k,
        ensures
            heap.history() == source_pushes(f, *lc, i, k as nat, bounds@),
        decreases max_reach - reach,
    {
        let offs = shell_offsets(reach);
        proof {
            crate::shell::lemma_shell_contents(reach as int);
        }
        let ghost base = heap.history();
        let no = offs.len();
        let mut q: usize = 0;
        while q < no
            invariant
                lc.wf(),
                i < lc.bins@.len(),
                b == lc.bins@[i as int],
                key_function(f),
                f == *key,
                1 <= reach <= MAX_REACH,
                offs@ == shell(reach as int),
                no == offs@.len(),
                0 <= q <= no,
                heap.wf(),
                heap.capacity() == k,
                heap.history() == base + offsets_pushes(f, *lc, i, offs@, q as int),
                forall|p: (i32, i32, i32)|
                    #[trigger] shell(reach as int).contains(p) ==> crate::shell::in_shell(
                        reach as int,
                        p.0 as int,
                        p.1 as int,
                        p.2 as int,
                    ),
            decreases no - q,
        {
            let o = offs[q];
            assert(shell(reach as int).contains(o)) by {
                assert(offs@[q as int] == o);
            }
            let jx = b.0 + o.0;
            let jy = b.1 + o.1;
            let jz = b.2 + o.2;
            let c = lc.mesh.wrap(jx, jy, jz);
            let s = lc.mesh.image(jx, jy, jz);
            let ghost here = base + offsets_pushes(f, *lc, i, offs@, q as int);
            let ghost target = visit(f, lc.next@, lc.head@[c as int] as int, i, s);
            assert(target == offset_pushes(f, *lc, i, o));
            let mut j: isize = lc.head[c];
            let ghost mut acc: Seq<(u64, usize)> = Seq::empty();
            while j >= 0
                invariant
                    lc.wf(),
                    key_function(f),
                    f == *key,
                    -1 <= j < lc.next@.len(),
                    heap.wf(),
                    heap.capacity() == k,
                    heap.history() == here + acc,
                    acc + visit(f, lc.next@, j as int, i, s) == target,
                decreases j + 1,
            {
                let ju = j as usize;
                let ghost rest = visit(f, lc.next@, lc.next@[j as int] as int, i, s);
                if ju != i {
                    let kv = key(i, ju, s.0, s.1, s.2);
                    assert(kv == pair_key(f, i, ju, s.0, s.1, s.2));
                    heap.push(kv, ju);
                    proof {
                        let one = seq![(kv, ju)];
                        assert(visit(f, lc.next@, j as int, i, s) == one + rest);
                        assert(heap.history() =~= here + (acc + one));
                        assert((acc + one) + rest =~= acc + (one + rest));
                        acc = acc + one;
                    }
                } else {
                    assert(visit(f, lc.next@, j as int, i, s) =~= rest);
                }
                j = lc.next[ju];
            }
            proof {
                assert(acc =~= target);
                assert(heap.history() =~= base + offsets_pushes(f, *lc, i, offs@, q + 1));
            }
            q = q + 1;
        }
        assert(heap.history() == walk_pushes(f, *lc, i, reach as int));
        let bound = bounds[reach as usize];
        let mut done = false;
        if heap.full() {
            if heap.len() == 0 {
                done = true;
            } else if heap.worst() <= bound {
                done = true;
            }
        }
        proof {
            lemma_full_within(heap@, heap.history(), k as nat, bound);
            if done {
                assert(heap@.len() == k);
                assert(stops_at(f, *lc, i, k as nat, bounds@, reach as int));
            } else {
                if heap@.len() == k {
                    let s = choose|s: int| 0 <= s < heap@.len() && heap@[s].0 > bound;
                }
                assert(!stops_at(f, *lc, i, k as nat, bounds@, reach as int));
            }
        }
        if done {
            assert(stop_reach(f, *lc, i, k as nat, bounds@, reach as int, last) == reach);
            break;
        }
        if reach == max_reach {
            assert(stop_reach(f, *lc, i, k as nat, bounds@, reach as int, last) == reach);
            break;
        }
        assert(stop_reach(f, *lc, i, k as nat, bounds@, reach as int, last) == stop_reach(
            f,
            *lc,
            i,
            k as nat,
            bounds@,
            reach + 1,
            last,
        ));
        reach = reach + 1;
    }
    heap.finish()
}

/// The `k` nearest candidates of every source in `sources`, in order.
pub fn walk_all<F: Fn(usize, usize, i32, i32, i32) -> u64>(
    lc: &LinkedCells,
    sources: &Vec<usize>,
    k: usize,
    bounds: &Vec<u64>,
    key: &F,
) -> (rows: Vec<(usize, Vec<(u64, usize)>)>)
    requires
        lc.wf(),
        increasing_below(sources@, lc.bins@.len() as int),
        bounds@.len() > last_reach(*lc),
        key_function(*key),
    ensures
        rows@.len() == sources@.len(),
        rows_fit(rows@, lc.bins@.len() as nat, k as nat),
        forall|t: int|
            0 <= t < rows@.len() ==> {
                &&& (#[trigger] rows@[t]).0 == sources@[t]
                &&& sorted_pairs(rows@[t].1@)
                &&& k_best(rows@[t].1@, source_pushes(*key, *lc, sources@[t], k as nat, bounds@), k as nat)
                &&& rows@[t].1@.to_multiset() == heap_after(
                    k as nat,
                    source_pushes(*key, *lc, sources@[t], k as nat, bounds@),
                ).to_multiset()
            },
{
    let mut rows: Vec<(usize, Vec<(u64, usize)>)> = Vec::new();
    let ns = sources.len();
    let mut t: usize = 0;
    while t < ns
        invariant
            lc.wf(),
            ns == sources@.len(),
            increasing_below(sources@, lc.bins@.len() as int),
            bounds@.len() > last_reach(*lc),
            key_function(*key),
            0 <= t <= ns,
            rows@.len() == t,
            forall|u: int| 0 <= u < t ==> (#[trigger] rows@[u]).1@.len() <= k,
            forall|u: int|
                0 <= u < t ==> {
                    &&& (#[trigger] rows@[u]).0 == sources@[u]
                    &&& sorted_pairs(rows@[u].1@)
                    &&& k_best(rows@[u].1@, source_pushes(*key, *lc, sources@[u], k as nat, bounds@), k as nat)
                    &&& rows@[u].1@.to_multiset() == heap_after(
                        k as nat,
                        source_pushes(*key, *lc, sources@[u], k as nat, bounds@),
                    ).to_multiset()
                },
        decreases ns - t,
    {
        let i = sources[t];
        let row = walk(lc, i, k, bounds, key);
        rows.push((i, row));
        t = t + 1;
    }
    proof {
        assert forall|u: int, v: int| 0 <= u < v < rows@.len() implies (#[trigger] rows@[u]).0 != (
        #[trigger] rows@[v]).0 by {
            assert(sources@[u] < sources@[v]);
        }
    }
    rows
}

} // verus!
