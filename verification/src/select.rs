//! Which points take part in a search, and the checks a search makes on
//! its arguments before it runs.

use vstd::prelude::*;
use crate::error::Error;
use crate::kheap::{pair_le, sorted_pairs, sort_candidates, distinct_indices};
use crate::links::increasing_below;

verus! {

/// The mask as a sequence, when there is one.
pub open spec fn mask_view(mask: Option<&[bool]>) -> Option<Seq<bool>> {
    match mask {
        Some(m) => Some(m@),
        None => None,
    }
}

/// Point `i` is kept: no mask, or a mask entry that is `true` (an entry
/// beyond the mask's end counts as `false`).
pub open spec fn kept(mask: Option<Seq<bool>>, i: int) -> bool {
    match mask {
        None => true,
        Some(m) => 0 <= i < m.len() && m[i],
    }
}

/// The kept points among the first `u`, in increasing order.
pub open spec fn selected(mask: Option<Seq<bool>>, u: int) -> Seq<usize>
    decreases u,
{
    if u <= 0 {
        Seq::empty()
    } else {
        selected(mask, u - 1) + if kept(mask, u - 1) {
            seq![(u - 1) as usize]
        } else {
            Seq::empty()
        }
    }
}

pub(crate) proof fn lemma_selected_increasing(mask: Option<Seq<bool>>, u: int)
    requires
        0 <= u <= usize::MAX,
    ensures
        increasing_below(selected(mask, u), u),
        forall|i: int| 0 <= i < u ==> (#[trigger] selected(mask, u).contains(i as usize) <==> kept(mask, i)),
    decreases u,
{
    if u > 0 {
        lemma_selected_increasing(mask, u - 1);
        let a = selected(mask, u - 1);
        let s = selected(mask, u);
        assert forall|i: int| 0 <= i < u implies (#[trigger] s.contains(i as usize) <==> kept(mask, i)) by {
            if kept(mask, u - 1) {
                assert(s == a.push((u - 1) as usize));
                if i == u - 1 {
                    assert(s[a.len() as int] == (u - 1) as usize);
                } else {
                    if s.contains(i as usize) {
                        let t = choose|t: int| 0 <= t < s.len() && s[t] == i as usize;
                        if t < a.len() {
                            assert(a[t] == i as usize);
                        }
                    }
                    if a.contains(i as usize) {
                        let t = choose|t: int| 0 <= t < a.len() && a[t] == i as usize;
                        assert(s[t] == i as usize);
                    }
                }
            } else {
                assert(s =~= a);
            }
        }
    }
}

/// The points of `0..n` that the mask keeps (all of them without a mask),
/// in increasing order.
pub fn active_indices(n: usize, mask: Option<&[bool]>) -> (a: Vec<usize>)
    ensures
        a@ == selected(mask_view(mask), n as int),
        increasing_below(a@, n as int),
{
    let mut a: Vec<usize> = Vec::new();
    let mut i: usize = 0;
    while i < n
        invariant
            0 <= i <= n,
            a@ == selected(mask_view(mask), i as int),
        decreases n - i,
    {
        let keep = match mask {
            None => true,
            Some(m) => i < m.len() && m[i],
        };
        if keep {
            a.push(i);
        }
        proof {
            assert(a@ =~= selected(mask_view(mask), i + 1));
        }
        i = i + 1;
    }
    proof {
        lemma_selected_increasing(mask_view(mask), n as int);
    }
    a
}

/// A search with no mask selects what a mask of `n` times `true` selects.
pub proof fn lemma_no_mask_keeps_all(n: nat, ones: Seq<bool>)
    requires
        ones.len() == n,
        forall|i: int| 0 <= i < n ==> #[trigger] ones[i],
    ensures
        selected(None, n as int) == selected(Some(ones), n as int),
{
    lemma_selected_prefix_agree(n as int, ones);
}

proof fn lemma_selected_prefix_agree(u: int, ones: Seq<bool>)
    requires
        u <= ones.len(),
        forall|i: int| 0 <= i < ones.len() ==> #[trigger] ones[i],
    ensures
        selected(None, u) == selected(Some(ones), u),
    decreases u,
{
    if u > 0 {
        lemma_selected_prefix_agree(u - 1, ones);
        assert(kept(Some(ones), u - 1));
    }
}

/// The error a k-nearest search reports before it runs, if any: `k == 0`
/// first, then an empty point list, then a mask whose length is not `n`.
pub open spec fn search_error(n: nat, k: nat, mask: Option<Seq<bool>>) -> Option<Error> {
    if k == 0 {
        Some(Error::ZeroK)
    } else if n == 0 {
        Some(Error::Empty)
    } else if mask is Some && mask->0.len() != n {
        Some(Error::MaskLen)
    } else {
        None
    }
}

/// Checks the arguments of a k-nearest search.
pub fn validate_search(n: usize, k: usize, mask: Option<&[bool]>) -> (r: Result<(), Error>)
    ensures
        match search_error(n as nat, k as nat, mask_view(mask)) {
            Some(e) => r == Err::<(), Error>(e),
            None => r is Ok,
        },
{
    if k == 0 {
        return Err(Error::ZeroK);
    }
    if n == 0 {
        return Err(Error::Empty);
    }
    match mask {
        Some(m) => {
            if m.len() != n {
                return Err(Error::MaskLen);
            }
        },
        None => {},
    }
    Ok(())
}

/// The key the caller's function gives for the pair `(i, j)`.
pub open spec fn direct_key<F: Fn(usize, usize) -> u64>(f: F, i: usize, j: usize) -> u64 {
    choose|r: u64| call_ensures(f, (i, j), r)
}

/// The caller's pair function accepts every pair and gives one key for it.
pub open spec fn direct_key_function<F: Fn(usize, usize) -> u64>(f: F) -> bool {
    &&& forall|a: (usize, usize)| call_requires(f, a)
    &&& forall|a: (usize, usize), r1: u64, r2: u64| call_ensures(f, a, r1) && call_ensures(f, a, r2) ==> r1 == r2
}

/// The candidates of source `i`: every other point of `active`, with its
/// key, in the order of `active`.
pub open spec fn all_pairs<F: Fn(usize, usize) -> u64>(f: F, active: Seq<usize>, i: usize, u: int) -> Seq<(u64, usize)>
    decreases u,
{
    if u <= 0 {
        Seq::empty()
    } else {
        all_pairs(f, active, i, u - 1) + if active[u - 1] != i {
            seq![(direct_key(f, i, active[u - 1]), active[u - 1])]
        } else {
            Seq::empty()
        }
    }
}

/// `r` is the first `k` of `c` in candidate order: sorted, taken from `c`,
/// as long as `c` allows, and nothing left out comes before anything kept.
pub open spec fn first_k(r: Seq<(u64, usize)>, c: Seq<(u64, usize)>, k: nat) -> bool {
    &&& r.len() == if c.len() < k { c.len() } else { k }
    &&& sorted_pairs(r)
    &&& distinct_indices(r)
    &&& forall|s: int| 0 <= s < r.len() ==> c.contains(#[trigger] r[s])
    &&& forall|x: (u64, usize)|
        c.contains(x) && !r.contains(x) ==> forall|s: int| 0 <= s < r.len() ==> pair_le(#[trigger] r[s], x)
}

proof fn lemma_all_pairs_indices<F: Fn(usize, usize) -> u64>(f: F, active: Seq<usize>, i: usize, u: int)
    requires
        0 <= u <= active.len(),
        forall|a: int, b: int| 0 <= a < b < active.len() ==> #[trigger] active[a] < #[trigger] active[b],
    ensures
        distinct_indices(all_pairs(f, active, i, u)),
        forall|s: int|
            0 <= s < all_pairs(f, active, i, u).len() ==> exists|t: int|
                0 <= t < u && #[trigger] all_pairs(f, active, i, u)[s].1 == active[t],
        all_pairs(f, active, i, u).len() <= u,
    decreases u,
{
    if u > 0 {
        lemma_all_pairs_indices(f, active, i, u - 1);
        let a = all_pairs(f, active, i, u - 1);
        let s = all_pairs(f, active, i, u);
        assert forall|p: int| 0 <= p < s.len() implies exists|t: int|
            0 <= t < u && #[trigger] s[p].1 == active[t] by {
            if p < a.len() {
                assert(s[p] == a[p]);
                let t = choose|t: int| 0 <= t < u - 1 && #[trigger] a[p].1 == active[t];
            } else {
                assert(s[p].1 == active[u - 1]);
            }
        }
        assert forall|x: int, y: int| 0 <= x < y < s.len() implies #[trigger] s[x].1 != #[trigger] s[y].1 by {
            if y < a.len() {
                assert(s[x] == a[x] && s[y] == a[y]);
            } else {
                assert(s[x] == a[x]);
                let t = choose|t: int| 0 <= t < u - 1 && #[trigger] a[x].1 == active[t];
                assert(active[t] < active[u - 1]);
            }
        }
    }
}

/// The brute-force neighbours of every kept point: all other kept points,
/// sorted by key then index, cut to `k`. It refuses its arguments as the
/// k-nearest search does.
pub fn brute_rows<F: Fn(usize, usize) -> u64>(n: usize, k: usize, mask: Option<&[bool]>, key: &F) -> (r:
    Result<Vec<(usize, Vec<(u64, usize)>)>, Error>)
    requires
        direct_key_function(*key),
    ensures
        match search_error(n as nat, k as nat, mask_view(mask)) {
            Some(e) => r == Err::<Vec<(usize, Vec<(u64, usize)>)>, Error>(e),
            None => r is Ok,
        },
        r matches Ok(rows) ==> {
            let active = selected(mask_view(mask), n as int);
            &&& rows@.len() == active.len()
            &&& forall|t: int|
                0 <= t < rows@.len() ==> {
                    &&& (#[trigger] rows@[t]).0 == active[t]
                    &&& first_k(rows@[t].1@, all_pairs(*key, active, active[t], active.len() as int), k as nat)
                }
        },
{
    match validate_search(n, k, mask) {
        Ok(()) => {},
        Err(e) => {
            return Err(e);
        },
    }
    let active = active_indices(n, mask);
    let na = active.len();
    let mut rows: Vec<(usize, Vec<(u64, usize)>)> = Vec::new();
    let mut t: usize = 0;
    while t < na
        invariant
            direct_key_function(*key),
            active@ == selected(mask_view(mask), n as int),
            increasing_below(active@, n as int),
            na == active@.len(),
            0 <= t <= na,
            rows@.len() == t,
            forall|u: int|
                0 <= u < t ==> {
                    &&& (#[trigger] rows@[u]).0 == active@[u]
                    &&& first_k(rows@[u].1@, all_pairs(*key, active@, active@[u], na as int), k as nat)
                },
        decreases na - t,
    {
        let i = active[t];
        let mut cands: Vec<(u64, usize)> = Vec::new();
        let mut u: usize = 0;
        while u < na
            invariant
                direct_key_function(*key),
                na == active@.len(),
                0 <= u <= na,
                cands@ == all_pairs(*key, active@, i, u as int),
            decreases na - u,
        {
            let j = active[u];
            if j != i {
                let kv = key(i, j);
                assert(kv == direct_key(*key, i, j));
                cands.push((kv, j));
            }
            proof {
                assert(cands@ =~= all_pairs(*key, active@, i, u + 1));
            }
            u = u + 1;
        }
        proof {
            lemma_all_pairs_indices(*key, active@, i, na as int);
        }
        let ghost c = cands@;
        let mut sorted = sort_candidates(cands);
        let ghost s0 = sorted@;
        sorted.truncate(k);
        proof {
            lemma_sorted_prefix_first_k(c, s0, sorted@, k as nat);
        }
        rows.push((i, sorted));
        t = t + 1;
    }
    Ok(rows)
}

/// The first `k` of a sorted arrangement of candidates with distinct
/// indices are the first `k` in candidate order.
proof fn lemma_sorted_prefix_first_k(c: Seq<(u64, usize)>, s: Seq<(u64, usize)>, r: Seq<(u64, usize)>, k: nat)
    requires
        distinct_indices(c),
        sorted_pairs(s),
        s.to_multiset() == c.to_multiset(),
        s.len() == c.len(),
        r == if k <= s.len() {
            s.subrange(0, k as int)
        } else {
            s
        },
    ensures
        first_k(r, c, k),
{
    broadcast use vstd::seq_lib::group_to_multiset_ensures;
    broadcast use vstd::multiset::group_multiset_axioms;
    assert forall|x: (u64, usize)| s.contains(x) <==> c.contains(x) by {
        assert(s.to_multiset().count(x) == c.to_multiset().count(x));
        assert(s.contains(x) <==> s.to_multiset().count(x) > 0);
        assert(c.contains(x) <==> c.to_multiset().count(x) > 0);
    }
    assert(c.no_duplicates()) by {
        assert forall|a: int, b: int| 0 <= a < c.len() && 0 <= b < c.len() && a != b implies c[a] != c[b] by {
            if a < b {
                assert(c[a].1 != c[b].1);
            } else {
                assert(c[b].1 != c[a].1);
            }
        }
    }
    c.lemma_multiset_has_no_duplicates();
    s.lemma_multiset_has_no_duplicates_conv();
    assert forall|a: int, b: int| 0 <= a < b < s.len() implies #[trigger] s[a].1 != #[trigger] s[b].1 by {
        assert(s.contains(s[a]) && s.contains(s[b]));
        let ca = choose|p: int| 0 <= p < c.len() && c[p] == s[a];
        let cb = choose|p: int| 0 <= p < c.len() && c[p] == s[b];
        if ca < cb {
            assert(c[ca].1 != c[cb].1);
        } else if cb < ca {
            assert(c[cb].1 != c[ca].1);
        }
    }
    assert forall|p: int| 0 <= p < r.len() implies c.contains(#[trigger] r[p]) by {
        assert(r[p] == s[p]);
        assert(s.contains(s[p]));
    }
    assert forall|x: (u64, usize)| c.contains(x) && !r.contains(x) implies forall|p: int|
        0 <= p < r.len() ==> pair_le(#[trigger] r[p], x) by {
        assert(s.contains(x));
        let q = choose|q: int| 0 <= q < s.len() && s[q] == x;
        if q < r.len() {
            assert(r[q] == x);
        }
        assert forall|p: int| 0 <= p < r.len() implies pair_le(#[trigger] r[p], x) by {
            assert(r[p] == s[p]);
            assert(p < q);
        }
    }
}

} // verus!
