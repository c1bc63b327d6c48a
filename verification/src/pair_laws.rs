//! What the cutoff pair walk lists, stated apart from how it walks: every
//! atom-image pair within the covered reach whose key is below the cutoff,
//! each exactly once; its mirror too; and the half list is the full list
//! cut to the canonical side.

use vstd::prelude::*;
use crate::links::{LinkedCells, chain, increasing_below};
use crate::search::lists_hold;
use crate::shell::{chebyshev, lemma_seq_add_contains, lemma_seq_add_no_dup};
use crate::walk::pair_key;
use crate::mesh::wrapped_cell;
use crate::pairs::{
    PairHit, canonical_side, pair_visit, offset_pairs, offsets_pairs, shells_pairs, sources_pairs,
};
use crate::shell::shell;

verus! {

/// The hit lies on the canonical side of its pair.
pub open spec fn canonical_hit(h: PairHit) -> bool {
    canonical_side(h.0 as int, h.1 as int, (h.2.0 as int, h.2.1 as int, h.2.2 as int))
}

/// The canonical-side test as a filter.
pub open spec fn canonical_filter() -> spec_fn(PairHit) -> bool {
    |h: PairHit| canonical_hit(h)
}

proof fn lemma_filter_one(h: PairHit, keep: bool)
    ensures
        (if keep { seq![h] } else { Seq::<PairHit>::empty() }).filter(canonical_filter()) == if keep
            && canonical_hit(h) {
            seq![h]
        } else {
            Seq::<PairHit>::empty()
        },
{
    reveal_with_fuel(Seq::filter, 2);
    if keep {
        assert(seq![h].drop_last() =~= Seq::<PairHit>::empty());
    }
}

proof fn lemma_visit_half<F: Fn(usize, usize, i32, i32, i32) -> u64>(
    f: F,
    next: Seq<isize>,
    x: int,
    i: usize,
    s: (i32, i32, i32),
    cut: u64,
)
    requires
        next.len() <= usize::MAX,
    ensures
        pair_visit(f, next, x, i, s, cut, true) == pair_visit(f, next, x, i, s, cut, false).filter(
            canonical_filter(),
        ),
    decreases x,
{
    broadcast use Seq::filter_distributes_over_add;
    if x >= 0 && x < next.len() {
        let key = crate::walk::pair_key(f, i, x as usize, s.0, s.1, s.2);
        let zero_self = x == i && s.0 == 0 && s.1 == 0 && s.2 == 0;
        let h = (i, x as usize, s, key);
        lemma_filter_one(h, !zero_self && key < cut);
        assert(canonical_hit(h) == canonical_side(i as int, x, (s.0 as int, s.1 as int, s.2 as int)));
        if !(next[x] < 0 || next[x] >= x) {
            lemma_visit_half(f, next, next[x] as int, i, s, cut);
        }
    } else {
        reveal_with_fuel(Seq::filter, 1);
    }
}

proof fn lemma_offsets_half<F: Fn(usize, usize, i32, i32, i32) -> u64>(
    f: F,
    lc: LinkedCells,
    i: usize,
    offs: Seq<(i32, i32, i32)>,
    q: int,
    cut: u64,
)
    requires
        lc.wf(),
    ensures
        offsets_pairs(f, lc, i, offs, q, cut, true) == offsets_pairs(f, lc, i, offs, q, cut, false).filter(
            canonical_filter(),
        ),
    decreases q,
{
    broadcast use Seq::filter_distributes_over_add;
    if q > 0 {
        lemma_offsets_half(f, lc, i, offs, q - 1, cut);
        let o = offs[q - 1];
        let p = crate::walk::stencil(lc, i, o);
        let c = wrapped_cell(lc.mesh, p.0, p.1, p.2);
        let s = (
            (p.0 / (lc.mesh.nx as int)) as i32,
            (p.1 / (lc.mesh.ny as int)) as i32,
            (p.2 / (lc.mesh.nz as int)) as i32,
        );
        lemma_visit_half(f, lc.next@, lc.head@[c] as int, i, s, cut);
    } else {
        reveal_with_fuel(Seq::filter, 1);
    }
}

proof fn lemma_shells_half<F: Fn(usize, usize, i32, i32, i32) -> u64>(
    f: F,
    lc: LinkedCells,
    i: usize,
    reach: int,
    cut: u64,
)
    requires
        lc.wf(),
    ensures
        shells_pairs(f, lc, i, reach, cut, true) == shells_pairs(f, lc, i, reach, cut, false).filter(
            canonical_filter(),
        ),
    decreases reach,
{
    broadcast use Seq::filter_distributes_over_add;
    if reach > 0 {
        lemma_shells_half(f, lc, i, reach - 1, cut);
        lemma_offsets_half(f, lc, i, shell(reach), shell(reach).len() as int, cut);
    } else {
        reveal_with_fuel(Seq::filter, 1);
    }
}

/// The half list is the full list cut to the canonical side of each pair,
/// in the same order.
pub proof fn lemma_half_list_is_filtered_full_list<F: Fn(usize, usize, i32, i32, i32) -> u64>(
    f: F,
    lc: LinkedCells,
    sources: Seq<usize>,
    u: int,
    reach: int,
    cut: u64,
)
    requires
        lc.wf(),
    ensures
        sources_pairs(f, lc, sources, u, reach, cut, true) == sources_pairs(
            f,
            lc,
            sources,
            u,
            reach,
            cut,
            false,
        ).filter(canonical_filter()),
    decreases u,
{
    broadcast use Seq::filter_distributes_over_add;
    if u > 0 {
        lemma_half_list_is_filtered_full_list(f, lc, sources, u - 1, reach, cut);
        lemma_shells_half(f, lc, sources[u - 1], reach, cut);
    } else {
        reveal_with_fuel(Seq::filter, 1);
    }
}

/// The offset that carries the bin of `i` onto the bin of `x` in the
/// lattice image `s`: `s * n + bin(x) - bin(i)` along each direction.
pub open spec fn hit_offset(lc: LinkedCells, i: usize, x: usize, s: (i32, i32, i32)) -> (int, int, int) {
    let bi = lc.bins@[i as int];
    let bx = lc.bins@[x as int];
    (
        s.0 * lc.mesh.nx + bx.0 - bi.0,
        s.1 * lc.mesh.ny + bx.1 - bi.1,
        s.2 * lc.mesh.nz + bx.2 - bi.2,
    )
}

/// The shell an offset belongs to.
pub open spec fn home_shell(o: (int, int, int)) -> int {
    let c = chebyshev(o.0, o.1, o.2);
    if c <= 1 {
        1
    } else {
        c
    }
}

/// The pair `(i, x)` under image `s` is listed by a pair walk over
/// `active` up to `reach`: `x` is active, the image lies within the walked
/// shells, it is no zero-shift self pair, its key is below `cut`, and a
/// half list keeps only the canonical side.
pub open spec fn pair_listed<F: Fn(usize, usize, i32, i32, i32) -> u64>(
    f: F,
    lc: LinkedCells,
    active: Seq<usize>,
    i: usize,
    x: usize,
    s: (i32, i32, i32),
    reach: int,
    cut: u64,
    half: bool,
) -> bool {
    &&& active.contains(x)
    &&& home_shell(hit_offset(lc, i, x, s)) <= reach
    &&& !(x == i && s == (0i32, 0i32, 0i32))
    &&& pair_key(f, i, x, s.0, s.1, s.2) < cut
    &&& (!half || canonical_side(i as int, x as int, (s.0 as int, s.1 as int, s.2 as int)))
}

/// `next` only ever points back.
pub open spec fn points_back(next: Seq<isize>) -> bool {
    &&& next.len() <= usize::MAX
    &&& forall|j: int| 0 <= j < next.len() ==> #[trigger] next[j] < j
}

proof fn lemma_chain_shape(next: Seq<isize>, x: int)
    requires
        points_back(next),
    ensures
        chain(next, x).no_duplicates(),
        forall|t: int| 0 <= t < chain(next, x).len() ==> 0 <= #[trigger] chain(next, x)[t] <= x,
    decreases x,
{
    if x >= 0 && x < next.len() && 0 <= next[x] < x {
        lemma_chain_shape(next, next[x] as int);
        let rest = chain(next, next[x] as int);
        assert(chain(next, x) == seq![x as usize] + rest);
        assert forall|y: usize| seq![x as usize].contains(y) implies !rest.contains(y) by {
            assert(seq![x as usize][0] == y);
            if rest.contains(y) {
                let t = choose|t: int| 0 <= t < rest.len() && rest[t] == y;
            }
        }
        lemma_seq_add_no_dup(seq![x as usize], rest);
        assert forall|t: int| 0 <= t < chain(next, x).len() implies 0 <= #[trigger] chain(next, x)[t] <= x by {
            if t > 0 {
                assert(chain(next, x)[t] == rest[t - 1]);
            }
        }
    }
}

/// The hits met along a list: exactly its points that pass the tests, each
/// once, all under image `s` and from source `i`.
proof fn lemma_visit_exact<F: Fn(usize, usize, i32, i32, i32) -> u64>(
    f: F,
    next: Seq<isize>,
    x: int,
    i: usize,
    s: (i32, i32, i32),
    cut: u64,
    half: bool,
)
    requires
        points_back(next),
    ensures
        pair_visit(f, next, x, i, s, cut, half).no_duplicates(),
        forall|h: PairHit|
            #[trigger] pair_visit(f, next, x, i, s, cut, half).contains(h) <==> {
                &&& h.0 == i
                &&& h.2 == s
                &&& chain(next, x).contains(h.1)
                &&& h.3 == pair_key(f, i, h.1, s.0, s.1, s.2)
                &&& !(h.1 == i && s == (0i32, 0i32, 0i32))
                &&& h.3 < cut
                &&& (!half || canonical_side(i as int, h.1 as int, (s.0 as int, s.1 as int, s.2 as int)))
            },
    decreases x,
{
    let v = pair_visit(f, next, x, i, s, cut, half);
    if x >= 0 && x < next.len() {
        let key = pair_key(f, i, x as usize, s.0, s.1, s.2);
        let zero_self = x == i && s.0 == 0 && s.1 == 0 && s.2 == 0;
        let keep = !zero_self && key < cut && (!half || canonical_side(i as int, x, (s.0 as int, s.1 as int, s.2 as int)));
        let here = if keep {
            seq![(i, x as usize, s, key)]
        } else {
            Seq::<PairHit>::empty()
        };
        let rest = if next[x] < 0 || next[x] >= x {
            Seq::<PairHit>::empty()
        } else {
            pair_visit(f, next, next[x] as int, i, s, cut, half)
        };
        let rc = if next[x] < 0 || next[x] >= x {
            Seq::<usize>::empty()
        } else {
            chain(next, next[x] as int)
        };
        assert(v =~= here + rest);
        assert(chain(next, x) =~= seq![x as usize] + rc);
        if !(next[x] < 0 || next[x] >= x) {
            lemma_visit_exact(f, next, next[x] as int, i, s, cut, half);
            lemma_chain_shape(next, next[x] as int);
        }
        lemma_seq_add_contains(here, rest);
        lemma_seq_add_contains(seq![x as usize], rc);
        assert forall|h: PairHit| here.contains(h) implies !rest.contains(h) by {
            assert(here[0] == h);
            if rest.contains(h) {
                let t = choose|t: int| 0 <= t < rc.len() && rc[t] == h.1;
            }
        }
        lemma_seq_add_no_dup(here, rest);
        assert forall|h: PairHit|
            #[trigger] v.contains(h) <==> {
                &&& h.0 == i
                &&& h.2 == s
                &&& chain(next, x).contains(h.1)
                &&& h.3 == pair_key(f, i, h.1, s.0, s.1, s.2)
                &&& !(h.1 == i && s == (0i32, 0i32, 0i32))
                &&& h.3 < cut
                &&& (!half || canonical_side(i as int, h.1 as int, (s.0 as int, s.1 as int, s.2 as int)))
            } by {
            if here.contains(h) {
                assert(here[0] == h);
            }
            if h.1 == x as usize && h.0 == i && h.2 == s && h.3 == key && keep {
                assert(here[0] == h);
            }
            if seq![x as usize].contains(h.1) {
                assert(seq![x as usize][0] == h.1);
            }
            if h.1 == x as usize {
                assert(seq![x as usize][0] == h.1);
            }
        }
    }
}

/// An offset as a triple of integers.
pub open spec fn as_ints(o: (i32, i32, i32)) -> (int, int, int) {
    (o.0 as int, o.1 as int, o.2 as int)
}

/// What a hit must pass besides where it lies: its key is the pair's key
/// and below `cut`, it is no zero-shift self pair, and a half list keeps
/// only the canonical side.
pub open spec fn hit_passes<F: Fn(usize, usize, i32, i32, i32) -> u64>(
    f: F,
    h: PairHit,
    cut: u64,
    half: bool,
) -> bool {
    &&& h.3 == pair_key(f, h.0, h.1, h.2.0, h.2.1, h.2.2)
    &&& !(h.1 == h.0 && h.2 == (0i32, 0i32, 0i32))
    &&& h.3 < cut
    &&& (!half || canonical_hit(h))
}

/// Along one direction, position `p` lies in bin `b` of image `q` exactly
/// when `p == q * n + b`.
proof fn lemma_axis_split(p: int, n: int, b: int, q: int)
    requires
        n >= 1,
        0 <= b < n,
    ensures
        (p % n == b && p / n == q) <==> q * n + b == p,
{
    vstd::arithmetic::div_mod::lemma_fundamental_div_mod(p, n);
    if q * n + b == p {
        vstd::arithmetic::div_mod::lemma_fundamental_div_mod_converse(p, n, q, b);
    }
    if p % n == b && p / n == q {
        assert(n * (p / n) == q * n) by (nonlinear_arith)
            requires p / n == q;
    }
}

/// Cell indices of in-range bins are equal only for equal bins.
proof fn lemma_cell_index_injective(m: crate::mesh::Mesh, a: (int, int, int), b: (int, int, int))
    requires
        m.wf(),
        0 <= a.0 < m.nx,
        0 <= a.1 < m.ny,
        0 <= a.2 < m.nz,
        0 <= b.0 < m.nx,
        0 <= b.1 < m.ny,
        0 <= b.2 < m.nz,
        (a.2 * m.ny + a.1) * m.nx + a.0 == (b.2 * m.ny + b.1) * m.nx + b.0,
    ensures
        a == b,
{
    let nx = m.nx as int;
    let ny = m.ny as int;
    let x = (a.2 * ny + a.1) * nx + a.0;
    assert(a.2 * ny + a.1 >= 0 && b.2 * ny + b.1 >= 0) by (nonlinear_arith)
        requires 0 <= a.1, 0 <= a.2, 0 <= b.1, 0 <= b.2, ny >= 1;
    vstd::arithmetic::div_mod::lemma_fundamental_div_mod_converse(x, nx, a.2 * ny + a.1, a.0);
    vstd::arithmetic::div_mod::lemma_fundamental_div_mod_converse(x, nx, b.2 * ny + b.1, b.0);
    let y = a.2 * ny + a.1;
    vstd::arithmetic::div_mod::lemma_fundamental_div_mod_converse(y, ny, a.2, a.1);
    vstd::arithmetic::div_mod::lemma_fundamental_div_mod_converse(y, ny, b.2, b.1);
}

/// The members of cell `c` among the first `u` points of `active` are
/// exactly those points whose bin falls in `c`.
proof fn lemma_members_exact(m: crate::mesh::Mesh, bins: Seq<(i32, i32, i32)>, active: Seq<usize>, c: int, u: int)
    requires
        0 <= u <= active.len(),
    ensures
        forall|x: usize|
            #[trigger] crate::links::cell_members(m, bins, active, c, u).contains(x) <==> (active.take(u).contains(x)
                && crate::links::bin_cell(m, bins[x as int]) == c),
    decreases u,
{
    if u > 0 {
        lemma_members_exact(m, bins, active, c, u - 1);
        let i = active[u - 1];
        let rest = crate::links::cell_members(m, bins, active, c, u - 1);
        let pre = active.take(u - 1);
        let cur = active.take(u);
        assert(cur =~= pre.push(i));
        lemma_seq_add_contains(seq![i], rest);
        assert forall|x: usize| cur.contains(x) <==> (pre.contains(x) || x == i) by {
            if cur.contains(x) {
                let t = choose|t: int| 0 <= t < cur.len() && #[trigger] cur[t] == x;
                if t < u - 1 {
                    assert(pre[t] == x);
                }
            }
            if pre.contains(x) {
                let t = choose|t: int| 0 <= t < pre.len() && #[trigger] pre[t] == x;
                assert(cur[t] == x);
            }
            if x == i {
                assert(cur[u - 1] == x);
            }
        }
        assert forall|x: usize| seq![i].contains(x) <==> x == i by {
            if x == i {
                assert(seq![i][0] == x);
            }
        }
    } else {
        assert(active.take(0) =~= Seq::<usize>::empty());
    }
}

/// The quotient of `p` by a positive `n` lies between `0` and `p`.
proof fn lemma_quotient_bounds(p: int, n: int)
    requires
        n >= 1,
    ensures
        p >= 0 ==> 0 <= p / n <= p,
        p < 0 ==> p <= p / n < 0,
{
    vstd::arithmetic::div_mod::lemma_fundamental_div_mod(p, n);
    let q = p / n;
    let r = p % n;
    assert((p >= 0 ==> 0 <= q <= p) && (p < 0 ==> p <= q < 0)) by (nonlinear_arith)
        requires p == n * q + r, 0 <= r < n, n >= 1;
}

/// Along one direction, the stencil position `p` wraps onto bin `b` with
/// image `q` (as the walk computes it) exactly when `p == q * n + b`.
proof fn lemma_axis_hit(p: int, n: int, b: int, q: i32)
    requires
        1 <= n <= crate::mesh::MAX_BINS,
        0 <= b < n,
        -crate::shell::MAX_REACH <= p <= crate::mesh::MAX_BINS + crate::shell::MAX_REACH,
    ensures
        (p % n == b && q == (p / n) as i32) <==> q * n + b == p,
{
    lemma_quotient_bounds(p, n);
    assert(i32::MIN <= p / n <= i32::MAX);
    lemma_axis_split(p, n, b, q as int);
}

/// The hits at offset `o` of source `i`: exactly the active points `x`
/// and images `s` that the offset carries `i` onto, each once, that pass
/// the tests.
proof fn lemma_offset_exact<F: Fn(usize, usize, i32, i32, i32) -> u64>(
    f: F,
    lc: LinkedCells,
    active: Seq<usize>,
    i: usize,
    o: (i32, i32, i32),
    cut: u64,
    half: bool,
)
    requires
        lc.wf(),
        lists_hold(lc, active),
        increasing_below(active, lc.bins@.len() as int),
        i < lc.bins@.len(),
        -crate::shell::MAX_REACH <= o.0 <= crate::shell::MAX_REACH,
        -crate::shell::MAX_REACH <= o.1 <= crate::shell::MAX_REACH,
        -crate::shell::MAX_REACH <= o.2 <= crate::shell::MAX_REACH,
    ensures
        offset_pairs(f, lc, i, o, cut, half).no_duplicates(),
        forall|h: PairHit|
            #[trigger] offset_pairs(f, lc, i, o, cut, half).contains(h) <==> {
                &&& h.0 == i
                &&& hit_offset(lc, i, h.1, h.2) == as_ints(o)
                &&& active.contains(h.1)
                &&& hit_passes(f, h, cut, half)
            },
{
    let m = lc.mesh;
    let p = crate::walk::stencil(lc, i, o);
    let c = wrapped_cell(m, p.0, p.1, p.2);
    let s = ((p.0 / (m.nx as int)) as i32, (p.1 / (m.ny as int)) as i32, (p.2 / (m.nz as int)) as i32);
    let bi = lc.bins@[i as int];
    crate::mesh::lemma_wrapped_cell_bounds(m, p.0, p.1, p.2);
    assert(lc.cell_list(c) == crate::links::cell_members(m, lc.bins@, active, c, active.len() as int));
    lemma_members_exact(m, lc.bins@, active, c, active.len() as int);
    assert(active.take(active.len() as int) =~= active);
    lemma_visit_exact(f, lc.next@, lc.head@[c] as int, i, s, cut, half);
    assert forall|h: PairHit|
        #[trigger] offset_pairs(f, lc, i, o, cut, half).contains(h) <==> {
            &&& h.0 == i
            &&& hit_offset(lc, i, h.1, h.2) == as_ints(o)
            &&& active.contains(h.1)
            &&& hit_passes(f, h, cut, half)
        } by {
        if active.contains(h.1) {
            let t = choose|t: int| 0 <= t < active.len() && #[trigger] active[t] == h.1;
            assert(h.1 < lc.bins@.len());
            let bx = lc.bins@[h.1 as int];
            lemma_axis_hit(p.0, m.nx as int, bx.0 as int, h.2.0);
            lemma_axis_hit(p.1, m.ny as int, bx.1 as int, h.2.1);
            lemma_axis_hit(p.2, m.nz as int, bx.2 as int, h.2.2);
            vstd::arithmetic::div_mod::lemma_small_mod(bx.0 as nat, m.nx as nat);
            vstd::arithmetic::div_mod::lemma_small_mod(bx.1 as nat, m.ny as nat);
            vstd::arithmetic::div_mod::lemma_small_mod(bx.2 as nat, m.nz as nat);
            let pm = (p.0 % (m.nx as int), p.1 % (m.ny as int), p.2 % (m.nz as int));
            let bxi = (bx.0 as int, bx.1 as int, bx.2 as int);
            if crate::links::bin_cell(m, bx) == c {
                lemma_cell_index_injective(m, bxi, pm);
            }
        }
    }
}

/// The hits at the first `q` offsets of `offs`: those that one of these
/// offsets carries the source onto, each once.
proof fn lemma_offsets_exact<F: Fn(usize, usize, i32, i32, i32) -> u64>(
    f: F,
    lc: LinkedCells,
    active: Seq<usize>,
    i: usize,
    offs: Seq<(i32, i32, i32)>,
    q: int,
    cut: u64,
    half: bool,
)
    requires
        lc.wf(),
        lists_hold(lc, active),
        increasing_below(active, lc.bins@.len() as int),
        i < lc.bins@.len(),
        0 <= q <= offs.len(),
        offs.no_duplicates(),
        forall|t: int|
            0 <= t < offs.len() ==> {
                &&& -crate::shell::MAX_REACH <= (#[trigger] offs[t]).0 <= crate::shell::MAX_REACH
                &&& -crate::shell::MAX_REACH <= offs[t].1 <= crate::shell::MAX_REACH
                &&& -crate::shell::MAX_REACH <= offs[t].2 <= crate::shell::MAX_REACH
            },
    ensures
        offsets_pairs(f, lc, i, offs, q, cut, half).no_duplicates(),
        forall|h: PairHit|
            #[trigger] offsets_pairs(f, lc, i, offs, q, cut, half).contains(h) <==> {
                &&& h.0 == i
                &&& exists|t: int| 0 <= t < q && as_ints(#[trigger] offs[t]) == hit_offset(lc, i, h.1, h.2)
                &&& active.contains(h.1)
                &&& hit_passes(f, h, cut, half)
            },
    decreases q,
{
    if q > 0 {
        lemma_offsets_exact(f, lc, active, i, offs, q - 1, cut, half);
        let o = offs[q - 1];
        lemma_offset_exact(f, lc, active, i, o, cut, half);
        let a = offsets_pairs(f, lc, i, offs, q - 1, cut, half);
        let b = offset_pairs(f, lc, i, o, cut, half);
        lemma_seq_add_contains(a, b);
        assert forall|h: PairHit| a.contains(h) implies !b.contains(h) by {
            if b.contains(h) {
                let t = choose|t: int| 0 <= t < q - 1 && as_ints(#[trigger] offs[t]) == hit_offset(lc, i, h.1, h.2);
                assert(offs[t] == offs[q - 1]);
            }
        }
        lemma_seq_add_no_dup(a, b);
        assert forall|h: PairHit|
            #[trigger] offsets_pairs(f, lc, i, offs, q, cut, half).contains(h) <==> {
                &&& h.0 == i
                &&& exists|t: int| 0 <= t < q && as_ints(#[trigger] offs[t]) == hit_offset(lc, i, h.1, h.2)
                &&& active.contains(h.1)
                &&& hit_passes(f, h, cut, half)
            } by {
            if exists|t: int| 0 <= t < q && as_ints(#[trigger] offs[t]) == hit_offset(lc, i, h.1, h.2) {
                let t = choose|t: int| 0 <= t < q && as_ints(#[trigger] offs[t]) == hit_offset(lc, i, h.1, h.2);
                if t < q - 1 {
                    assert(exists|t: int| 0 <= t < q - 1 && as_ints(#[trigger] offs[t]) == hit_offset(lc, i, h.1, h.2));
                }
            }
            if exists|t: int| 0 <= t < q - 1 && as_ints(#[trigger] offs[t]) == hit_offset(lc, i, h.1, h.2) {
                let t = choose|t: int| 0 <= t < q - 1 && as_ints(#[trigger] offs[t]) == hit_offset(lc, i, h.1, h.2);
                assert(0 <= t < q && as_ints(offs[t]) == hit_offset(lc, i, h.1, h.2));
            }
            if as_ints(o) == hit_offset(lc, i, h.1, h.2) {
                assert(0 <= q - 1 < q && as_ints(offs[q - 1]) == hit_offset(lc, i, h.1, h.2));
            }
        }
    }
}

/// An offset lies in shell `r` exactly when `r` is its home shell; shell
/// `r` lists exactly those offsets.
proof fn lemma_shell_home(r: int, d: (int, int, int))
    requires
        1 <= r <= crate::shell::MAX_REACH,
    ensures
        (exists|t: int| 0 <= t < shell(r).len() && as_ints(#[trigger] shell(r)[t]) == d) <==> home_shell(d) == r,
        forall|t: int|
            0 <= t < shell(r).len() ==> {
                &&& -crate::shell::MAX_REACH <= (#[trigger] shell(r)[t]).0 <= crate::shell::MAX_REACH
                &&& -crate::shell::MAX_REACH <= shell(r)[t].1 <= crate::shell::MAX_REACH
                &&& -crate::shell::MAX_REACH <= shell(r)[t].2 <= crate::shell::MAX_REACH
            },
{
    crate::shell::lemma_shell_contents(r);
    assert forall|t: int| 0 <= t < shell(r).len() implies {
        &&& -crate::shell::MAX_REACH <= (#[trigger] shell(r)[t]).0 <= crate::shell::MAX_REACH
        &&& -crate::shell::MAX_REACH <= shell(r)[t].1 <= crate::shell::MAX_REACH
        &&& -crate::shell::MAX_REACH <= shell(r)[t].2 <= crate::shell::MAX_REACH
    } by {
        assert(shell(r).contains(shell(r)[t]));
    }
    if exists|t: int| 0 <= t < shell(r).len() && as_ints(#[trigger] shell(r)[t]) == d {
        let t = choose|t: int| 0 <= t < shell(r).len() && as_ints(#[trigger] shell(r)[t]) == d;
        assert(shell(r).contains(shell(r)[t]));
    }
    if home_shell(d) == r {
        let o = (d.0 as i32, d.1 as i32, d.2 as i32);
        assert(crate::shell::in_shell(r, o.0 as int, o.1 as int, o.2 as int));
        assert(shell(r).contains(o));
        let t = choose|t: int| 0 <= t < shell(r).len() && shell(r)[t] == o;
        assert(as_ints(shell(r)[t]) == d);
    }
}

/// The hits of source `i` in shells `1..=r`: those whose home shell is at
/// most `r`, each once.
proof fn lemma_shells_exact<F: Fn(usize, usize, i32, i32, i32) -> u64>(
    f: F,
    lc: LinkedCells,
    active: Seq<usize>,
    i: usize,
    r: int,
    cut: u64,
    half: bool,
)
    requires
        lc.wf(),
        lists_hold(lc, active),
        increasing_below(active, lc.bins@.len() as int),
        i < lc.bins@.len(),
        0 <= r <= crate::shell::MAX_REACH,
    ensures
        shells_pairs(f, lc, i, r, cut, half).no_duplicates(),
        forall|h: PairHit|
            #[trigger] shells_pairs(f, lc, i, r, cut, half).contains(h) <==> {
                &&& h.0 == i
                &&& home_shell(hit_offset(lc, i, h.1, h.2)) <= r
                &&& active.contains(h.1)
                &&& hit_passes(f, h, cut, half)
            },
    decreases r,
{
    if r > 0 {
        lemma_shells_exact(f, lc, active, i, r - 1, cut, half);
        let offs = shell(r);
        crate::shell::lemma_shell_no_dup(r);
        crate::shell::lemma_shell_contents(r);
        assert forall|d: (int, int, int)|
            (exists|t: int| 0 <= t < offs.len() && as_ints(#[trigger] offs[t]) == d) <==> home_shell(d) == r by {
            lemma_shell_home(r, d);
        }
        lemma_shell_home(r, (0, 0, 0));
        lemma_offsets_exact(f, lc, active, i, offs, offs.len() as int, cut, half);
        let a = shells_pairs(f, lc, i, r - 1, cut, half);
        let b = offsets_pairs(f, lc, i, offs, offs.len() as int, cut, half);
        lemma_seq_add_contains(a, b);
        lemma_seq_add_no_dup(a, b);
    } else {
        assert forall|d: (int, int, int)| home_shell(d) >= 1 by {}
    }
}

/// The hits of the first `u` sources: those from one of these sources
/// whose home shell is at most `r`, each once.
proof fn lemma_sources_exact<F: Fn(usize, usize, i32, i32, i32) -> u64>(
    f: F,
    lc: LinkedCells,
    active: Seq<usize>,
    sources: Seq<usize>,
    u: int,
    r: int,
    cut: u64,
    half: bool,
)
    requires
        lc.wf(),
        lists_hold(lc, active),
        increasing_below(active, lc.bins@.len() as int),
        increasing_below(sources, lc.bins@.len() as int),
        0 <= u <= sources.len(),
        0 <= r <= crate::shell::MAX_REACH,
    ensures
        sources_pairs(f, lc, sources, u, r, cut, half).no_duplicates(),
        forall|h: PairHit|
            #[trigger] sources_pairs(f, lc, sources, u, r, cut, half).contains(h) <==> {
                &&& sources.take(u).contains(h.0)
                &&& home_shell(hit_offset(lc, h.0, h.1, h.2)) <= r
                &&& active.contains(h.1)
                &&& hit_passes(f, h, cut, half)
            },
    decreases u,
{
    if u > 0 {
        lemma_sources_exact(f, lc, active, sources, u - 1, r, cut, half);
        let i = sources[u - 1];
        lemma_shells_exact(f, lc, active, i, r, cut, half);
        let a = sources_pairs(f, lc, sources, u - 1, r, cut, half);
        let b = shells_pairs(f, lc, i, r, cut, half);
        let pre = sources.take(u - 1);
        let cur = sources.take(u);
        assert(cur =~= pre.push(i));
        assert forall|x: usize| cur.contains(x) <==> (pre.contains(x) || x == i) by {
            if cur.contains(x) {
                let t = choose|t: int| 0 <= t < cur.len() && #[trigger] cur[t] == x;
                if t < u - 1 {
                    assert(pre[t] == x);
                }
            }
            if pre.contains(x) {
                let t = choose|t: int| 0 <= t < pre.len() && #[trigger] pre[t] == x;
                assert(cur[t] == x);
            }
            if x == i {
                assert(cur[u - 1] == x);
            }
        }
        assert forall|x: usize| pre.contains(x) implies x != i by {
            let t = choose|t: int| 0 <= t < pre.len() && #[trigger] pre[t] == x;
            assert(sources[t] < sources[u - 1]);
        }
        lemma_seq_add_contains(a, b);
        lemma_seq_add_no_dup(a, b);
    } else {
        assert(sources.take(0) =~= Seq::<usize>::empty());
    }
}

/// A pair walk lists each atom-image pair at most once, and lists exactly
/// the pairs `(i, x, s)` with `i` a source, `x` active, the image within
/// the walked shells, no zero-shift self pair, a key below `cut`, and (for
/// a half list) the canonical side. The key of each entry is the key of
/// its pair, so no `(i, x, s)` appears twice.
pub proof fn lemma_pair_list_exact<F: Fn(usize, usize, i32, i32, i32) -> u64>(
    f: F,
    lc: LinkedCells,
    active: Seq<usize>,
    sources: Seq<usize>,
    reach: int,
    cut: u64,
    half: bool,
)
    requires
        lc.wf(),
        lists_hold(lc, active),
        increasing_below(active, lc.bins@.len() as int),
        increasing_below(sources, lc.bins@.len() as int),
        0 <= reach <= crate::shell::MAX_REACH,
    ensures
        ({
            let l = sources_pairs(f, lc, sources, sources.len() as int, reach, cut, half);
            &&& l.no_duplicates()
            &&& forall|h: PairHit|
                #[trigger] l.contains(h) <==> {
                    &&& sources.contains(h.0)
                    &&& h.3 == pair_key(f, h.0, h.1, h.2.0, h.2.1, h.2.2)
                    &&& pair_listed(f, lc, active, h.0, h.1, h.2, reach, cut, half)
                }
            &&& forall|a: int, b: int|
                0 <= a < l.len() && 0 <= b < l.len() && (#[trigger] l[a]).0 == (#[trigger] l[b]).0 && l[a].1
                    == l[b].1 && l[a].2 == l[b].2 ==> a == b
        }),
{
    let l = sources_pairs(f, lc, sources, sources.len() as int, reach, cut, half);
    lemma_sources_exact(f, lc, active, sources, sources.len() as int, reach, cut, half);
    assert(sources.take(sources.len() as int) =~= sources);
    assert forall|a: int, b: int|
        0 <= a < l.len() && 0 <= b < l.len() && (#[trigger] l[a]).0 == (#[trigger] l[b]).0 && l[a].1 == l[b].1
            && l[a].2 == l[b].2 implies a == b by {
        assert(l.contains(l[a]));
        assert(l.contains(l[b]));
        assert(l[a] == l[b]);
    }
}

/// The key of a pair equals the key of its reverse: `x` from `i` under
/// image `s` is as far as `i` from `x` under `-s`.
pub open spec fn key_symmetric<F: Fn(usize, usize, i32, i32, i32) -> u64>(f: F) -> bool {
    forall|i: usize, x: usize, a: i32, b: i32, c: i32|
        a > i32::MIN && b > i32::MIN && c > i32::MIN ==> #[trigger] pair_key(f, i, x, a, b, c) == pair_key(
            f,
            x,
            i,
            (-a) as i32,
            (-b) as i32,
            (-c) as i32,
        )
}

/// The reverse of a hit: target and source swapped, image negated.
pub open spec fn mirror(h: PairHit) -> PairHit {
    (h.1, h.0, ((-h.2.0) as i32, (-h.2.1) as i32, (-h.2.2) as i32), h.3)
}

/// Along one direction, negating the image negates the offset.
proof fn lemma_image_negates(q: i32, n: int, bi: int, bx: int)
    requires
        1 <= n <= crate::mesh::MAX_BINS,
        0 <= bi < n,
        0 <= bx < n,
        -crate::shell::MAX_REACH <= q * n + bx - bi <= crate::shell::MAX_REACH,
    ensures
        q > i32::MIN,
        ((-q) as i32) * n + bi - bx == -(q * n + bx - bi),
{
    assert((q >= 0 ==> q <= q * n) && (q < 0 ==> q * n <= q)) by (nonlinear_arith)
        requires n >= 1;
    assert((-q) * n == -(q * n)) by (nonlinear_arith);
}

/// A full pair list over the active points holds the reverse of each of
/// its pairs, when the key of a pair equals the key of its reverse.
pub proof fn lemma_full_list_holds_mirrors<F: Fn(usize, usize, i32, i32, i32) -> u64>(
    f: F,
    lc: LinkedCells,
    active: Seq<usize>,
    reach: int,
    cut: u64,
)
    requires
        lc.wf(),
        lists_hold(lc, active),
        increasing_below(active, lc.bins@.len() as int),
        0 <= reach <= crate::shell::MAX_REACH,
        key_symmetric(f),
    ensures
        forall|h: PairHit|
            #[trigger] sources_pairs(f, lc, active, active.len() as int, reach, cut, false).contains(h)
                ==> sources_pairs(f, lc, active, active.len() as int, reach, cut, false).contains(mirror(h)),
{
    let l = sources_pairs(f, lc, active, active.len() as int, reach, cut, false);
    lemma_pair_list_exact(f, lc, active, active, reach, cut, false);
    assert forall|h: PairHit| #[trigger] l.contains(h) implies l.contains(mirror(h)) by {
        let m = lc.mesh;
        let t0 = choose|t: int| 0 <= t < active.len() && #[trigger] active[t] == h.0;
        let t1 = choose|t: int| 0 <= t < active.len() && #[trigger] active[t] == h.1;
        let bi = lc.bins@[h.0 as int];
        let bx = lc.bins@[h.1 as int];
        let ho = hit_offset(lc, h.0, h.1, h.2);
        lemma_image_negates(h.2.0, m.nx as int, bi.0 as int, bx.0 as int);
        lemma_image_negates(h.2.1, m.ny as int, bi.1 as int, bx.1 as int);
        lemma_image_negates(h.2.2, m.nz as int, bi.2 as int, bx.2 as int);
        let g = mirror(h);
        assert(hit_offset(lc, g.0, g.1, g.2) == (-ho.0, -ho.1, -ho.2));
        assert(pair_key(f, h.0, h.1, h.2.0, h.2.1, h.2.2) == pair_key(f, g.0, g.1, g.2.0, g.2.1, g.2.2));
    }
}

} // verus!
