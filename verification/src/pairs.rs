//! The cutoff pair list with integer cell shifts.
//!
//! Unlike the k-nearest walk, which keeps one image per neighbour, this
//! walk keeps every atom-image pair whose key is below the cutoff key,
//! periodic self-images included, and records the lattice image `S` of
//! the target.

use vstd::prelude::*;
use crate::error::Error;
use crate::links::{LinkedCells, increasing_below};
use crate::mesh::{wrapped_cell, MAX_BINS, Mesh};
use crate::shell::{shell, shell_offsets, MAX_REACH};
use crate::search::lists_hold;
use crate::pair_laws::{pair_listed, lemma_pair_list_exact};

verus! {

/// Largest number of periodic images a pair search may span.
pub const MAX_IMAGES: i64 = 16_777_216;

/// The canonical side of the pair `(i, j, S)` against `(j, i, -S)`: the
/// smaller index first; between images of one point, the shift whose
/// first nonzero component is negative; the zero-shift self pair counts.
pub open spec fn canonical_side(i: int, j: int, s: (int, int, int)) -> bool {
    if i != j {
        i < j
    } else if s.0 != 0 {
        s.0 < 0
    } else if s.1 != 0 {
        s.1 < 0
    } else if s.2 != 0 {
        s.2 < 0
    } else {
        true
    }
}

/// Whether a half list keeps the pair `(i, j, shift)`.
pub fn keep_half(i: usize, j: usize, shift: [i32; 3]) -> (r: bool)
    ensures
        r == canonical_side(i as int, j as int, (shift[0] as int, shift[1] as int, shift[2] as int)),
{
    if i != j {
        return i < j;
    }
    let mut a: usize = 0;
    while a < 3
        invariant
            0 <= a <= 3,
            i == j,
            forall|b: int| 0 <= b < a ==> shift[b] == 0,
        decreases 3 - a,
    {
        let s = shift[a];
        if s != 0 {
            return s < 0;
        }
        a = a + 1;
    }
    true
}

/// Of a pair and its reverse, a half list keeps exactly one; the
/// zero-shift self pair is its own reverse.
pub proof fn lemma_half_list_keeps_one_side(i: int, j: int, s: (int, int, int))
    ensures
        (i == j && s == (0int, 0int, 0int)) ==> canonical_side(i, j, s),
        !(i == j && s == (0int, 0int, 0int)) ==> (canonical_side(i, j, s) != canonical_side(j, i, (-s.0, -s.1, -s.2))),
{
}

/// The product of the image factors `2 r + 1` along the three directions.
pub open spec fn image_product(r: (int, int, int)) -> int {
    (2 * r.0 + 1) * (2 * r.1 + 1) * (2 * r.2 + 1)
}

/// The number of periodic images `(2 r_a + 1)` multiplied over the three
/// directions, or `TooManyImages` when it exceeds `MAX_IMAGES`.
pub fn image_count(repeats: [i32; 3]) -> (r: Result<i64, Error>)
    requires
        repeats[0] >= 0,
        repeats[1] >= 0,
        repeats[2] >= 0,
    ensures
        match r {
            Ok(c) => c == image_product((repeats[0] as int, repeats[1] as int, repeats[2] as int)) && c
                <= MAX_IMAGES,
            Err(e) => e == Error::TooManyImages && image_product(
                (repeats[0] as int, repeats[1] as int, repeats[2] as int),
            ) > MAX_IMAGES,
        },
{
    let ghost f0 = 2 * repeats[0] + 1;
    let ghost f1 = 2 * repeats[1] + 1;
    let ghost f2 = 2 * repeats[2] + 1;
    let mut count: i64 = 1;
    let mut a: usize = 0;
    while a < 3
        invariant
            0 <= a <= 3,
            repeats[0] >= 0,
            repeats[1] >= 0,
            repeats[2] >= 0,
            f0 == 2 * repeats[0] + 1,
            f1 == 2 * repeats[1] + 1,
            f2 == 2 * repeats[2] + 1,
            1 <= count <= MAX_IMAGES,
            count == if a == 0 {
                1
            } else if a == 1 {
                f0
            } else if a == 2 {
                f0 * f1
            } else {
                f0 * f1 * f2
            },
        decreases 3 - a,
    {
        let factor = 2 * (repeats[a] as i64) + 1;
        if count > MAX_IMAGES / factor {
            proof {
                assert(count * factor > MAX_IMAGES) by (nonlinear_arith)
                    requires count > MAX_IMAGES / factor, factor >= 1;
                assert(f0 >= 1 && f1 >= 1 && f2 >= 1);
                if a == 0 {
                    assert(f0 * f1 * f2 >= f0) by (nonlinear_arith)
                        requires f0 >= 1, f1 >= 1, f2 >= 1;
                } else if a == 1 {
                    assert(f0 * f1 * f2 >= f0 * f1) by (nonlinear_arith)
                        requires f0 >= 1, f1 >= 1, f2 >= 1;
                }
            }
            return Err(Error::TooManyImages);
        }
        proof {
            assert(count * factor <= MAX_IMAGES) by (nonlinear_arith)
                requires count <= MAX_IMAGES / factor, factor >= 1, count >= 1;
            assert(count * factor >= 1) by (nonlinear_arith)
                requires factor >= 1, count >= 1;
        }
        count = count * factor;
        a = a + 1;
    }
    Ok(count)
}

/// The last shell a pair walk may expand to: the cutoff's reach in cells,
/// every direction's image span in cells, and at least one.
pub open spec fn pair_last_reach(reach_cut: int, repeats: (int, int, int), m: Mesh) -> int {
    let a = if reach_cut >= repeats.0 * m.nx { reach_cut } else { repeats.0 * m.nx };
    let b = if a >= repeats.1 * m.ny { a } else { repeats.1 * m.ny };
    let c = if b >= repeats.2 * m.nz { b } else { repeats.2 * m.nz };
    if c >= 1 { c } else { 1 }
}

/// The last shell of a pair walk is the largest of the cutoff's reach in
/// cells, each direction's image span in cells, and one: no smaller reach
/// covers them all.
pub proof fn lemma_pair_last_reach_is_largest_span(reach_cut: int, repeats: (int, int, int), m: Mesh)
    ensures
        pair_last_reach(reach_cut, repeats, m) >= 1,
        pair_last_reach(reach_cut, repeats, m) >= reach_cut,
        pair_last_reach(reach_cut, repeats, m) >= repeats.0 * m.nx,
        pair_last_reach(reach_cut, repeats, m) >= repeats.1 * m.ny,
        pair_last_reach(reach_cut, repeats, m) >= repeats.2 * m.nz,
        ({
            let r = pair_last_reach(reach_cut, repeats, m);
            r == 1 || r == reach_cut || r == repeats.0 * m.nx || r == repeats.1 * m.ny || r == repeats.2 * m.nz
        }),
{
}

/// The last shell a pair walk may expand to.
pub fn pair_reach(reach_cut: i32, repeats: [i32; 3], mesh: &Mesh) -> (r: i32)
    requires
        mesh.wf(),
        0 <= reach_cut <= MAX_REACH,
        0 <= repeats[0] * mesh.nx <= MAX_REACH,
        0 <= repeats[1] * mesh.ny <= MAX_REACH,
        0 <= repeats[2] * mesh.nz <= MAX_REACH,
    ensures
        r == pair_last_reach(reach_cut as int, (repeats[0] as int, repeats[1] as int, repeats[2] as int), *mesh),
        1 <= r <= MAX_REACH,
        r >= reach_cut,
        r >= repeats[0] * mesh.nx,
        r >= repeats[1] * mesh.ny,
        r >= repeats[2] * mesh.nz,
        r == 1 || r == reach_cut || r == repeats[0] * mesh.nx || r == repeats[1] * mesh.ny || r
            == repeats[2] * mesh.nz,
{
    proof {
        lemma_pair_last_reach_is_largest_span(reach_cut as int, (repeats[0] as int, repeats[1] as int, repeats[2] as int), *mesh);
    }
    let mut m = reach_cut;
    let a = repeats[0] * mesh.nx;
    if a > m {
        m = a;
    }
    let b = repeats[1] * mesh.ny;
    if b > m {
        m = b;
    }
    let c = repeats[2] * mesh.nz;
    if c > m {
        m = c;
    }
    if m < 1 {
        m = 1;
    }
    m
}

/// A pair found by the walk: source, target, the target's lattice image,
/// and the key of their squared distance under that image.
pub type PairHit = (usize, usize, (i32, i32, i32), u64);

/// The pairs found while following a cell list from `x` under the image
/// `s`: every point but the source's own zero-shift copy, whose key is
/// below `cut`, and (for a half list) on the canonical side.
pub open spec fn pair_visit<F: Fn(usize, usize, i32, i32, i32) -> u64>(
    f: F,
    next: Seq<isize>,
    x: int,
    i: usize,
    s: (i32, i32, i32),
    cut: u64,
    half: bool,
) -> Seq<PairHit>
    decreases x,
{
    if x < 0 || x >= next.len() {
        Seq::empty()
    } else {
        let key = crate::walk::pair_key(f, i, x as usize, s.0, s.1, s.2);
        let zero_self = x == i && s.0 == 0 && s.1 == 0 && s.2 == 0;
        let here = if !zero_self && key < cut && (!half || canonical_side(
            i as int,
            x,
            (s.0 as int, s.1 as int, s.2 as int),
        )) {
            seq![(i, x as usize, s, key)]
        } else {
            Seq::empty()
        };
        if next[x] < 0 || next[x] >= x {
            here
        } else {
            here + pair_visit(f, next, next[x] as int, i, s, cut, half)
        }
    }
}

/// The pairs found at offset `o` of source `i`.
pub open spec fn offset_pairs<F: Fn(usize, usize, i32, i32, i32) -> u64>(
    f: F,
    lc: LinkedCells,
    i: usize,
    o: (i32, i32, i32),
    cut: u64,
    half: bool,
) -> Seq<PairHit> {
    let p = crate::walk::stencil(lc, i, o);
    let c = wrapped_cell(lc.mesh, p.0, p.1, p.2);
    let s = (
        (p.0 / (lc.mesh.nx as int)) as i32,
        (p.1 / (lc.mesh.ny as int)) as i32,
        (p.2 / (lc.mesh.nz as int)) as i32,
    );
    pair_visit(f, lc.next@, lc.head@[c] as int, i, s, cut, half)
}

/// The pairs found at the first `q` offsets of `offs`.
pub open spec fn offsets_pairs<F: Fn(usize, usize, i32, i32, i32) -> u64>(
    f: F,
    lc: LinkedCells,
    i: usize,
    offs: Seq<(i32, i32, i32)>,
    q: int,
    cut: u64,
    half: bool,
) -> Seq<PairHit>
    decreases q,
{
    if q <= 0 {
        Seq::empty()
    } else {
        offsets_pairs(f, lc, i, offs, q - 1, cut, half) + offset_pairs(f, lc, i, offs[q - 1], cut, half)
    }
}

/// The pairs of source `i` found in shells `1..=reach`.
pub open spec fn shells_pairs<F: Fn(usize, usize, i32, i32, i32) -> u64>(
    f: F,
    lc: LinkedCells,
    i: usize,
    reach: int,
    cut: u64,
    half: bool,
) -> Seq<PairHit>
    decreases reach,
{
    if reach <= 0 {
        Seq::empty()
    } else {
        shells_pairs(f, lc, i, reach - 1, cut, half) + offsets_pairs(
            f,
            lc,
            i,
            shell(reach),
            shell(reach).len() as int,
            cut,
            half,
        )
    }
}

/// The first reach from `reach` on whose shell covers the cutoff, or `last`.
pub open spec fn cover_reach(covered: Seq<bool>, reach: int, last: int) -> int
    decreases last - reach,
{
    if reach >= last || covered[reach] {
        reach
    } else {
        cover_reach(covered, reach + 1, last)
    }
}

/// The reach a source's pair walk stops at is the first reach from `reach`
/// on whose shell covers the cutoff, or `last` when none up to it does: it
/// lies between `reach` and `last`, is `last` or covered, and no reach
/// before it is covered.
pub proof fn lemma_cover_reach_is_first_covered(covered: Seq<bool>, reach: int, last: int)
    requires
        reach <= last,
    ensures
        reach <= cover_reach(covered, reach, last) <= last,
        cover_reach(covered, reach, last) == last || covered[cover_reach(covered, reach, last)],
        forall|q: int| reach <= q < cover_reach(covered, reach, last) ==> !#[trigger] covered[q],
    decreases last - reach,
{
    if !(reach >= last || covered[reach]) {
        lemma_cover_reach_is_first_covered(covered, reach + 1, last);
    }
}

/// The pairs of the first `u` sources, in order.
pub open spec fn sources_pairs<F: Fn(usize, usize, i32, i32, i32) -> u64>(
    f: F,
    lc: LinkedCells,
    sources: Seq<usize>,
    u: int,
    reach: int,
    cut: u64,
    half: bool,
) -> Seq<PairHit>
    decreases u,
{
    if u <= 0 {
        Seq::empty()
    } else {
        sources_pairs(f, lc, sources, u - 1, reach, cut, half) + shells_pairs(
            f,
            lc,
            sources[u - 1],
            reach,
            cut,
            half,
        )
    }
}

/// Every atom-image pair of the sources whose key is below `cut`, source
/// by source; each source walks shells up to the first reach that
/// `covered` marks (or `last`). A half list keeps one side of each pair.
/// When the cell lists hold the sources, the list names each pair once and
/// holds exactly the pairs that `pair_listed` describes.
pub fn pairs_walk<F: Fn(usize, usize, i32, i32, i32) -> u64>(
    lc: &LinkedCells,
    sources: &Vec<usize>,
    last: i32,
    covered: &Vec<bool>,
    cut: u64,
    half: bool,
    key: &F,
) -> (r: Vec<PairHit>)
    requires
        lc.wf(),
        increasing_below(sources@, lc.bins@.len() as int),
        1 <= last <= MAX_REACH,
        covered@.len() > last,
        crate::walk::key_function(*key),
    ensures
        r@ == sources_pairs(
            *key,
            *lc,
            sources@,
            sources@.len() as int,
            cover_reach(covered@, 1, last as int),
            cut,
            half,
        ),
        lists_hold(*lc, sources@) ==> {
            &&& r@.no_duplicates()
            &&& forall|h: PairHit|
                #[trigger] r@.contains(h) <==> {
                    &&& sources@.contains(h.0)
                    &&& h.3 == crate::walk::pair_key(*key, h.0, h.1, h.2.0, h.2.1, h.2.2)
                    &&& pair_listed(*key, *lc, sources@, h.0, h.1, h.2, cover_reach(covered@, 1, last as int), cut, half)
                }
        },
        lists_hold(*lc, sources@) ==> forall|h: PairHit|
            ({
                let home = crate::pair_laws::home_shell(crate::pair_laws::hit_offset(*lc, h.0, h.1, h.2));
                &&& sources@.contains(h.0)
                &&& sources@.contains(h.1)
                &&& h.3 == crate::walk::pair_key(*key, h.0, h.1, h.2.0, h.2.1, h.2.2)
                &&& !(h.1 == h.0 && h.2 == (0i32, 0i32, 0i32))
                &&& h.3 < cut
                &&& (!half || canonical_side(h.0 as int, h.1 as int, (h.2.0 as int, h.2.1 as int, h.2.2 as int)))
                &&& home <= last
                &&& forall|q: int| 1 <= q < home ==> !#[trigger] covered@[q]
            }) ==> #[trigger] r@.contains(h),
{
    let ghost f = *key;
    let ghost stop = cover_reach(covered@, 1, last as int);
    let mut out: Vec<PairHit> = Vec::new();
    let ns = sources.len();
    let mut u: usize = 0;
    while u < ns
        invariant
            lc.wf(),
            increasing_below(sources@, lc.bins@.len() as int),
            1 <= last <= MAX_REACH,
            covered@.len() > last,
            crate::walk::key_function(f),
            f == *key,
            stop == cover_reach(covered@, 1, last as int),
            ns == sources@.len(),
            0 <= u <= ns,
            out@ == sources_pairs(f, *lc, sources@, u as int, stop, cut, half),
        decreases ns - u,
    {
        let i = sources[u];
        let b = lc.bins[i];
        let ghost base = out@;
        let mut reach: i32 = 1;
        loop
            invariant_except_break
                out@ == base + shells_pairs(f, *lc, i, reach - 1, cut, half),
                stop == cover_reach(covered@, reach as int, last as int),
            invariant
                lc.wf(),
                i < lc.bins@.len(),
                b == lc.bins@[i as int],
                1 <= last <= MAX_REACH,
                covered@.len() > last,
                crate::walk::key_function(f),
                f == *key,
                1 <= reach <= last,
            ensures
                out@ == base + shells_pairs(f, *lc, i, stop, cut, half),
            decreases last - reach,
        {
            let offs = shell_offsets(reach);
            proof {
                crate::shell::lemma_shell_contents(reach as int);
            }
            let ghost sbase = out@;
            let no = offs.len();
            let mut q: usize = 0;
            while q < no
                invariant
                    lc.wf(),
                    i < lc.bins@.len(),
                    b == lc.bins@[i as int],
                    crate::walk::key_function(f),
                    f == *key,
                    1 <= reach <= MAX_REACH,
                    offs@ == shell(reach as int),
                    no == offs@.len(),
                    0 <= q <= no,
                    out@ == sbase + offsets_pairs(f, *lc, i, offs@, q as int, cut, half),
                    forall|p: (i32, i32, i32)|
                        #[trigger] shell(reach as int).contains(p) ==> crate::shell::in_shell(
                            reach as int,
                            p.0 as int,
                            p.1 as int,
                            p.2 as int,
                        ),
                decreases no - q,
            {
                let o = offs[q];
                assert(shell(reach as int).contains(o)) by {
                    assert(offs@[q as int] == o);
                }
                let jx = b.0 + o.0;
                let jy = b.1 + o.1;
                let jz = b.2 + o.2;
                let c = lc.mesh.wrap(jx, jy, jz);
                let s = lc.mesh.image(jx, jy, jz);
                let ghost here = sbase + offsets_pairs(f, *lc, i, offs@, q as int, cut, half);
                let ghost target = pair_visit(f, lc.next@, lc.head@[c as int] as int, i, s, cut, half);
                assert(target == offset_pairs(f, *lc, i, o, cut, half));
                let mut j: isize = lc.head[c];
                let ghost mut acc: Seq<PairHit> = Seq::empty();
                while j >= 0
                    invariant
                        lc.wf(),
                        crate::walk::key_function(f),
                        f == *key,
                        -1 <= j < lc.next@.len(),
                        out@ == here + acc,
                        acc + pair_visit(f, lc.next@, j as int, i, s, cut, half) == target,
                    decreases j + 1,
                {
                    let ju = j as usize;
                    let ghost rest = pair_visit(f, lc.next@, lc.next@[j as int] as int, i, s, cut, half);
                    let zero_self = ju == i && s.0 == 0 && s.1 == 0 && s.2 == 0;
                    if !zero_self {
                        let kv = key(i, ju, s.0, s.1, s.2);
                        assert(kv == crate::walk::pair_key(f, i, ju, s.0, s.1, s.2));
                        let shift = [s.0, s.1, s.2];
                        if kv < cut && (!half || keep_half(i, ju, shift)) {
                            out.push((i, ju, s, kv));
                            proof {
                                let one = seq![(i, ju, s, kv)];
                                assert(pair_visit(f, lc.next@, j as int, i, s, cut, half) == one + rest);
                                assert(out@ =~= here + (acc + one));
                                assert((acc + one) + rest =~= acc + (one + rest));
                                acc = acc + one;
                            }
                        } else {
                            assert(pair_visit(f, lc.next@, j as int, i, s, cut, half) =~= rest);
                        }
                    } else {
                        assert(pair_visit(f, lc.next@, j as int, i, s, cut, half) =~= rest);
                    }
                    j = lc.next[ju];
                }
                proof {
                    assert(acc =~= target);
                    assert(out@ =~= sbase + offsets_pairs(f, *lc, i, offs@, q + 1, cut, half));
                }
                q = q + 1;
            }
            assert(out@ =~= base + shells_pairs(f, *lc, i, reach as int, cut, half));
            if covered[reach as usize] {
                assert(cover_reach(covered@, reach as int, last as int) == reach);
                break;
            }
            if reach == last {
                assert(cover_reach(covered@, reach as int, last as int) == reach);
                break;
            }
            assert(cover_reach(covered@, reach as int, last as int) == cover_reach(covered@, reach + 1, last as int));
            reach = reach + 1;
        }
        proof {
            assert(out@ =~= sources_pairs(f, *lc, sources@, u + 1, stop, cut, half));
        }
        u = u + 1;
    }
    proof {
        lemma_cover_reach_is_first_covered(covered@, 1, last as int);
        if lists_hold(*lc, sources@) {
            lemma_pair_list_exact(f, *lc, sources@, sources@, stop, cut, half);
            assert forall|h: PairHit|
                ({
                    let home = crate::pair_laws::home_shell(crate::pair_laws::hit_offset(*lc, h.0, h.1, h.2));
                    &&& sources@.contains(h.0)
                    &&& sources@.contains(h.1)
                    &&& h.3 == crate::walk::pair_key(*key, h.0, h.1, h.2.0, h.2.1, h.2.2)
                    &&& !(h.1 == h.0 && h.2 == (0i32, 0i32, 0i32))
                    &&& h.3 < cut
                    &&& (!half || canonical_side(h.0 as int, h.1 as int, (h.2.0 as int, h.2.1 as int, h.2.2 as int)))
                    &&& home <= last
                    &&& forall|q: int| 1 <= q < home ==> !#[trigger] covered@[q]
                }) implies #[trigger] out@.contains(h) by {
                let home = crate::pair_laws::home_shell(crate::pair_laws::hit_offset(*lc, h.0, h.1, h.2));
                if home > stop {
                    assert(!covered@[stop]);
                }
            }
        }
    }
    out
}

/// A hit is below the cutoff, is no zero-shift self pair, and for a half
/// list lies on the canonical side.
pub open spec fn hit_ok(h: PairHit, cut: u64, half: bool) -> bool {
    &&& h.3 < cut
    &&& !(h.0 == h.1 && h.2 == (0i32, 0i32, 0i32))
    &&& (half ==> canonical_side(h.0 as int, h.1 as int, (h.2.0 as int, h.2.1 as int, h.2.2 as int)))
}

proof fn lemma_concat_ok(a: Seq<PairHit>, b: Seq<PairHit>, cut: u64, half: bool)
    requires
        forall|t: int| 0 <= t < a.len() ==> hit_ok(#[trigger] a[t], cut, half),
        forall|t: int| 0 <= t < b.len() ==> hit_ok(#[trigger] b[t], cut, half),
    ensures
        forall|t: int| 0 <= t < (a + b).len() ==> hit_ok(#[trigger] (a + b)[t], cut, half),
{
    assert forall|t: int| 0 <= t < (a + b).len() implies hit_ok(#[trigger] (a + b)[t], cut, half) by {
        if t < a.len() {
            assert((a + b)[t] == a[t]);
        } else {
            assert((a + b)[t] == b[t - a.len()]);
        }
    }
}

proof fn lemma_visit_ok<F: Fn(usize, usize, i32, i32, i32) -> u64>(
    f: F,
    next: Seq<isize>,
    x: int,
    i: usize,
    s: (i32, i32, i32),
    cut: u64,
    half: bool,
)
    requires
        next.len() <= usize::MAX,
    ensures
        forall|t: int|
            0 <= t < pair_visit(f, next, x, i, s, cut, half).len() ==> hit_ok(
                #[trigger] pair_visit(f, next, x, i, s, cut, half)[t],
                cut,
                half,
            ),
    decreases x,
{
    if x >= 0 && x < next.len() {
        let key = crate::walk::pair_key(f, i, x as usize, s.0, s.1, s.2);
        let zero_self = x == i && s.0 == 0 && s.1 == 0 && s.2 == 0;
        let here = if !zero_self && key < cut && (!half || canonical_side(
            i as int,
            x,
            (s.0 as int, s.1 as int, s.2 as int),
        )) {
            seq![(i, x as usize, s, key)]
        } else {
            Seq::<PairHit>::empty()
        };
        assert forall|t: int| 0 <= t < here.len() implies hit_ok(#[trigger] here[t], cut, half) by {
            assert(here[t] == (i, x as usize, s, key));
        }
        if !(next[x] < 0 || next[x] >= x) {
            lemma_visit_ok(f, next, next[x] as int, i, s, cut, half);
            lemma_concat_ok(here, pair_visit(f, next, next[x] as int, i, s, cut, half), cut, half);
        }
    }
}

proof fn lemma_offsets_ok<F: Fn(usize, usize, i32, i32, i32) -> u64>(
    f: F,
    lc: LinkedCells,
    i: usize,
    offs: Seq<(i32, i32, i32)>,
    q: int,
    cut: u64,
    half: bool,
)
    requires
        lc.wf(),
    ensures
        forall|t: int|
            0 <= t < offsets_pairs(f, lc, i, offs, q, cut, half).len() ==> hit_ok(
                #[trigger] offsets_pairs(f, lc, i, offs, q, cut, half)[t],
                cut,
                half,
            ),
    decreases q,
{
    if q > 0 {
        lemma_offsets_ok(f, lc, i, offs, q - 1, cut, half);
        let o = offs[q - 1];
        let p = crate::walk::stencil(lc, i, o);
        let c = wrapped_cell(lc.mesh, p.0, p.1, p.2);
        let s = (
            (p.0 / (lc.mesh.nx as int)) as i32,
            (p.1 / (lc.mesh.ny as int)) as i32,
            (p.2 / (lc.mesh.nz as int)) as i32,
        );
        lemma_visit_ok(f, lc.next@, lc.head@[c] as int, i, s, cut, half);
        lemma_concat_ok(offsets_pairs(f, lc, i, offs, q - 1, cut, half), offset_pairs(f, lc, i, o, cut, half), cut, half);
    }
}

proof fn lemma_shells_ok<F: Fn(usize, usize, i32, i32, i32) -> u64>(
    f: F,
    lc: LinkedCells,
    i: usize,
    reach: int,
    cut: u64,
    half: bool,
)
    requires
        lc.wf(),
    ensures
        forall|t: int|
            0 <= t < shells_pairs(f, lc, i, reach, cut, half).len() ==> hit_ok(
                #[trigger] shells_pairs(f, lc, i, reach, cut, half)[t],
                cut,
                half,
            ),
    decreases reach,
{
    if reach > 0 {
        lemma_shells_ok(f, lc, i, reach - 1, cut, half);
        lemma_offsets_ok(f, lc, i, shell(reach), shell(reach).len() as int, cut, half);
        lemma_concat_ok(
            shells_pairs(f, lc, i, reach - 1, cut, half),
            offsets_pairs(f, lc, i, shell(reach), shell(reach).len() as int, cut, half),
            cut,
            half,
        );
    }
}

/// Every hit of a pair walk is below the cutoff key, none is the
/// zero-shift self pair (periodic self-images may be hits), and a half
/// list holds only canonical sides.
pub proof fn lemma_pair_hits_ok<F: Fn(usize, usize, i32, i32, i32) -> u64>(
    f: F,
    lc: LinkedCells,
    sources: Seq<usize>,
    u: int,
    reach: int,
    cut: u64,
    half: bool,
)
    requires
        lc.wf(),
    ensures
        forall|t: int|
            0 <= t < sources_pairs(f, lc, sources, u, reach, cut, half).len() ==> hit_ok(
                #[trigger] sources_pairs(f, lc, sources, u, reach, cut, half)[t],
                cut,
                half,
            ),
    decreases u,
{
    if u > 0 {
        lemma_pair_hits_ok(f, lc, sources, u - 1, reach, cut, half);
        lemma_shells_ok(f, lc, sources[u - 1], reach, cut, half);
        lemma_concat_ok(
            sources_pairs(f, lc, sources, u - 1, reach, cut, half),
            shells_pairs(f, lc, sources[u - 1], reach, cut, half),
            cut,
            half,
        );
    }
}

} // verus!
