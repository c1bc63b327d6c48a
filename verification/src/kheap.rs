//! The bounded per-source candidate set.
//!
//! A candidate is a pair `(key, index)`: `key` orders candidates (the
//! caller's integer stand-in for a squared distance) and `index` names the
//! neighbour. The heap keeps at most `k` candidates, one per index: a second
//! push of an index that is held keeps the smaller key, and once the heap is
//! full a new index replaces the worst held one when its key is smaller.

use vstd::prelude::*;

verus! {

/// `a` comes no later than `b`: by key, then by index.
pub open spec fn pair_le(a: (u64, usize), b: (u64, usize)) -> bool {
    a.0 < b.0 || (a.0 == b.0 && a.1 <= b.1)
}

/// `s` is ordered by key, ties by index.
pub open spec fn sorted_pairs(s: Seq<(u64, usize)>) -> bool {
    forall|a: int, b: int| 0 <= a < b < s.len() ==> pair_le(#[trigger] s[a], #[trigger] s[b])
}

/// Some element of `es` has index `j`.
pub open spec fn holds_index(es: Seq<(u64, usize)>, j: usize) -> bool {
    exists|s: int| 0 <= s < es.len() && #[trigger] es[s].1 == j
}

/// No two elements of `es` share an index.
pub open spec fn distinct_indices(es: Seq<(u64, usize)>) -> bool {
    forall|a: int, b: int| 0 <= a < b < es.len() ==> #[trigger] es[a].1 != #[trigger] es[b].1
}

/// `e` was pushed, and no push of its index has a smaller key.
pub open spec fn is_best_push(h: Seq<(u64, usize)>, e: (u64, usize)) -> bool {
    &&& exists|t: int| 0 <= t < h.len() && #[trigger] h[t] == e
    &&& forall|t: int| 0 <= t < h.len() && (#[trigger] h[t]).1 == e.1 ==> e.0 <= h[t].0
}

/// `es` is a best choice of at most `k` candidates from the pushes `h`:
/// one element per index, each with the smallest key pushed for it; every
/// pushed index that is left out was left out because `es` is full and the
/// left-out key is no smaller than any key kept.
pub open spec fn k_best(es: Seq<(u64, usize)>, h: Seq<(u64, usize)>, k: nat) -> bool {
    &&& es.len() <= k
    &&& distinct_indices(es)
    &&& forall|s: int| 0 <= s < es.len() ==> is_best_push(h, #[trigger] es[s])
    &&& forall|t: int|
        0 <= t < h.len() && !holds_index(es, (#[trigger] h[t]).1) ==> {
            &&& es.len() == k
            &&& forall|s: int| 0 <= s < es.len() ==> (#[trigger] es[s]).0 <= h[t].0
        }
}

/// A best choice is full with every key within `b` exactly when at least
/// `k` distinct pushed indices have a key within `b`. The walk stops on the
/// left side; the right side speaks of the pushes alone.
pub proof fn lemma_full_within(es: Seq<(u64, usize)>, h: Seq<(u64, usize)>, k: nat, b: u64)
    requires
        k_best(es, h, k),
    ensures
        indices_within(h, b).finite(),
        (es.len() == k && forall|s: int| 0 <= s < es.len() ==> (#[trigger] es[s]).0 <= b)
            <==> indices_within(h, b).len() >= k,
{
    broadcast use vstd::seq_lib::group_seq_properties;
    broadcast use vstd::set::group_set_axioms;
    let within = indices_within(h, b);
    let all = index_seq(h).to_set();
    assert(within.subset_of(all)) by {
        assert forall|j: usize| within.contains(j) implies all.contains(j) by {
            let t = choose|t: int| 0 <= t < h.len() && (#[trigger] h[t]).1 == j && h[t].0 <= b;
            assert(index_seq(h)[t] == j);
        }
    }
    vstd::set_lib::lemma_len_subset(within, all);
    let ids = index_seq(es);
    assert(ids.no_duplicates()) by {
        assert forall|a: int, c: int| 0 <= a < ids.len() && 0 <= c < ids.len() && a != c implies ids[a] != ids[c] by {
            if a < c {
                assert(es[a].1 != es[c].1);
            } else {
                assert(es[c].1 != es[a].1);
            }
        }
    }
    ids.unique_seq_to_set();
    let held = ids.to_set();
    if es.len() == k && forall|s: int| 0 <= s < es.len() ==> (#[trigger] es[s]).0 <= b {
        assert(held.subset_of(within)) by {
            assert forall|j: usize| held.contains(j) implies within.contains(j) by {
                let s = choose|s: int| 0 <= s < ids.len() && ids[s] == j;
                assert(is_best_push(h, es[s]));
                let t = choose|t: int| 0 <= t < h.len() && #[trigger] h[t] == es[s];
                assert(h[t].1 == j && h[t].0 <= b);
            }
        }
        vstd::set_lib::lemma_len_subset(held, within);
    } else {
        if es.len() < k {
            assert(within.subset_of(held)) by {
                assert forall|j: usize| within.contains(j) implies held.contains(j) by {
                    let t = choose|t: int| 0 <= t < h.len() && (#[trigger] h[t]).1 == j && h[t].0 <= b;
                    if !holds_index(es, h[t].1) {
                        assert(es.len() == k);
                    }
                    let s = choose|s: int| 0 <= s < es.len() && #[trigger] es[s].1 == j;
                    assert(ids[s] == j);
                }
            }
            vstd::set_lib::lemma_len_subset(within, held);
        } else {
            let s0 = choose|s: int| 0 <= s < es.len() && !((#[trigger] es[s]).0 <= b);
            let smaller = held.remove(es[s0].1);
            assert(held.contains(ids[s0]));
            assert(within.subset_of(smaller)) by {
                assert forall|j: usize| within.contains(j) implies smaller.contains(j) by {
                    let t = choose|t: int| 0 <= t < h.len() && (#[trigger] h[t]).1 == j && h[t].0 <= b;
                    if !holds_index(es, h[t].1) {
                        assert(es[s0].0 <= h[t].0);
                    }
                    let s = choose|s: int| 0 <= s < es.len() && #[trigger] es[s].1 == j;
                    assert(ids[s] == j);
                    if j == es[s0].1 {
                        assert(is_best_push(h, es[s0]));
                        assert(es[s0].0 <= h[t].0);
                    }
                }
            }
            vstd::set_lib::lemma_len_subset(within, smaller);
        }
    }
}

/// A best choice stays one under any reordering.
pub proof fn lemma_k_best_reordered(es: Seq<(u64, usize)>, rs: Seq<(u64, usize)>, h: Seq<(u64, usize)>, k: nat)
    requires
        k_best(es, h, k),
        rs.to_multiset() == es.to_multiset(),
    ensures
        k_best(rs, h, k),
{
    broadcast use vstd::seq_lib::group_to_multiset_ensures;
    broadcast use vstd::multiset::group_multiset_axioms;
    assert(rs.len() == es.len()) by {
        rs.to_multiset_ensures();
        es.to_multiset_ensures();
    }
    assert forall|x: (u64, usize)| rs.contains(x) <==> es.contains(x) by {
        rs.to_multiset_ensures();
        es.to_multiset_ensures();
        assert(rs.to_multiset().count(x) == es.to_multiset().count(x));
        assert(rs.contains(x) <==> rs.to_multiset().count(x) > 0);
        assert(es.contains(x) <==> es.to_multiset().count(x) > 0);
    }
    assert(es.no_duplicates()) by {
        assert forall|a: int, b: int| 0 <= a < es.len() && 0 <= b < es.len() && a != b implies es[a] != es[b] by {
            if a < b {
                assert(es[a].1 != es[b].1);
            } else {
                assert(es[b].1 != es[a].1);
            }
        }
    }
    es.lemma_multiset_has_no_duplicates();
    rs.lemma_multiset_has_no_duplicates_conv();
    assert forall|a: int, b: int| 0 <= a < b < rs.len() implies #[trigger] rs[a].1 != #[trigger] rs[b].1 by {
        assert(rs.contains(rs[a]) && rs.contains(rs[b]));
        let sa = choose|s: int| 0 <= s < es.len() && es[s] == rs[a];
        let sb = choose|s: int| 0 <= s < es.len() && es[s] == rs[b];
        assert(rs[a] != rs[b]);
        if sa < sb {
            assert(es[sa].1 != es[sb].1);
        } else if sb < sa {
            assert(es[sb].1 != es[sa].1);
        }
    }
    assert forall|s: int| 0 <= s < rs.len() implies is_best_push(h, #[trigger] rs[s]) by {
        assert(rs.contains(rs[s]));
        let t = choose|t: int| 0 <= t < es.len() && es[t] == rs[s];
        assert(is_best_push(h, es[t]));
    }
    assert forall|j: usize| holds_index(rs, j) <==> holds_index(es, j) by {
        if holds_index(rs, j) {
            let s = choose|s: int| 0 <= s < rs.len() && #[trigger] rs[s].1 == j;
            assert(rs.contains(rs[s]));
            let t = choose|t: int| 0 <= t < es.len() && es[t] == rs[s];
            assert(es[t].1 == j);
        }
        if holds_index(es, j) {
            let s = choose|s: int| 0 <= s < es.len() && #[trigger] es[s].1 == j;
            assert(es.contains(es[s]));
            let t = choose|t: int| 0 <= t < rs.len() && rs[t] == es[s];
            assert(rs[t].1 == j);
        }
    }
    assert forall|t: int| 0 <= t < h.len() && !holds_index(rs, (#[trigger] h[t]).1) implies {
        &&& rs.len() == k
        &&& forall|s: int| 0 <= s < rs.len() ==> (#[trigger] rs[s]).0 <= h[t].0
    } by {
        assert forall|s: int| 0 <= s < rs.len() implies (#[trigger] rs[s]).0 <= h[t].0 by {
            assert(rs.contains(rs[s]));
            let u = choose|u: int| 0 <= u < es.len() && es[u] == rs[s];
            assert(es[u].0 <= h[t].0);
        }
    }
}

/// The slot of the first largest key, the one a full heap evicts.
pub open spec fn worst_slot(es: Seq<(u64, usize)>) -> int {
    choose|w: int| is_worst_slot(es, w)
}

/// `w` holds a largest key, and every slot before it a smaller one.
pub open spec fn is_worst_slot(es: Seq<(u64, usize)>, w: int) -> bool {
    &&& 0 <= w < es.len()
    &&& forall|s: int| 0 <= s < es.len() ==> (#[trigger] es[s]).0 <= es[w].0
    &&& forall|s: int| 0 <= s < w ==> (#[trigger] es[s]).0 < es[w].0
}

/// The slot that holds index `j`.
pub open spec fn slot_of(es: Seq<(u64, usize)>, j: usize) -> int {
    choose|s: int| 0 <= s < es.len() && #[trigger] es[s].1 == j
}

/// What one push does to the held candidates: a held index keeps the
/// smaller key in its slot; a new index is appended while fewer than `k`
/// are held; otherwise it takes the slot of the first largest key, and
/// only when its key is strictly smaller (an equal key never evicts).
pub open spec fn push_effect(es: Seq<(u64, usize)>, k: nat, key: u64, j: usize) -> Seq<(u64, usize)> {
    if holds_index(es, j) {
        let s = slot_of(es, j);
        if key < es[s].0 {
            es.update(s, (key, j))
        } else {
            es
        }
    } else if es.len() < k {
        es.push((key, j))
    } else if es.len() == 0 {
        es
    } else {
        let w = worst_slot(es);
        if key < es[w].0 {
            es.update(w, (key, j))
        } else {
            es
        }
    }
}

/// The held candidates after the pushes `h` into an empty heap of bound `k`.
pub open spec fn heap_after(k: nat, h: Seq<(u64, usize)>) -> Seq<(u64, usize)>
    decreases h.len(),
{
    if h.len() == 0 {
        Seq::empty()
    } else {
        push_effect(heap_after(k, h.drop_last()), k, h.last().0, h.last().1)
    }
}

/// Two arrangements of the same candidates ordered by key, ties by index,
/// are the same sequence.
pub proof fn lemma_sorted_arrangement_unique(a: Seq<(u64, usize)>, b: Seq<(u64, usize)>)
    requires
        sorted_pairs(a),
        sorted_pairs(b),
        a.to_multiset() == b.to_multiset(),
    ensures
        a == b,
    decreases a.len(),
{
    broadcast use vstd::seq_lib::group_to_multiset_ensures;
    broadcast use vstd::multiset::group_multiset_axioms;
    a.to_multiset_ensures();
    b.to_multiset_ensures();
    if a.len() == 0 {
        if b.len() > 0 {
            assert(b.contains(b[0]));
        }
        assert(a =~= b);
    } else {
        assert(a.contains(a.last()));
        assert(b.len() > 0) by {
            if b.len() == 0 {
                assert(b.to_multiset().count(a.last()) == 0);
            }
        }
        assert(b.contains(b.last()));
        let x = a.last();
        let y = b.last();
        assert(a.to_multiset().count(x) > 0);
        assert(b.to_multiset().count(y) > 0);
        assert(b.contains(x));
        assert(a.contains(y));
        let sx = choose|s: int| 0 <= s < b.len() && b[s] == x;
        let sy = choose|s: int| 0 <= s < a.len() && a[s] == y;
        if sx < b.len() - 1 {
            assert(pair_le(b[sx], b[b.len() - 1]));
        }
        if sy < a.len() - 1 {
            assert(pair_le(a[sy], a[a.len() - 1]));
        }
        assert(x == y);
        let a1 = a.drop_last();
        let b1 = b.drop_last();
        assert(a =~= a1.push(x));
        assert(b =~= b1.push(x));
        a1.to_multiset_ensures();
        b1.to_multiset_ensures();
        assert(a1.to_multiset() =~= b1.to_multiset()) by {
            assert(a1.to_multiset().insert(x) == b1.to_multiset().insert(x));
            assert forall|z: (u64, usize)| a1.to_multiset().count(z) == b1.to_multiset().count(z) by {
                assert(a1.to_multiset().insert(x).count(z) == b1.to_multiset().insert(x).count(z));
            }
        }
        assert(sorted_pairs(a1)) by {
            assert forall|p: int, q: int| 0 <= p < q < a1.len() implies pair_le(#[trigger] a1[p], #[trigger] a1[q]) by {
                assert(a1[p] == a[p] && a1[q] == a[q]);
            }
        }
        assert(sorted_pairs(b1)) by {
            assert forall|p: int, q: int| 0 <= p < q < b1.len() implies pair_le(#[trigger] b1[p], #[trigger] b1[q]) by {
                assert(b1[p] == b[p] && b1[q] == b[q]);
            }
        }
        lemma_sorted_arrangement_unique(a1, b1);
    }
}

/// Bounded set of the `k` best candidates of a source.
pub struct KHeap {
    entries: Vec<(u64, usize)>,
    k: usize,
    pushed: Ghost<Seq<(u64, usize)>>,
}

impl View for KHeap {
    type V = Seq<(u64, usize)>;

    closed spec fn view(&self) -> Seq<(u64, usize)> {
        self.entries@
    }
}


/// The set of indices that have some pushed key no larger than `b`.
pub open spec fn indices_within(h: Seq<(u64, usize)>, b: u64) -> Set<usize> {
    Set::new(|j: usize| exists|t: int| 0 <= t < h.len() && (#[trigger] h[t]).1 == j && h[t].0 <= b)
}

/// The indices of a sequence of candidates.
pub open spec fn index_seq(es: Seq<(u64, usize)>) -> Seq<usize> {
    es.map_values(|e: (u64, usize)| e.1)
}

/// Inserting `x` at `p` adds one `x` to the multiset.
proof fn lemma_insert_multiset(s: Seq<(u64, usize)>, p: int, x: (u64, usize))
    requires
        0 <= p <= s.len(),
    ensures
        s.insert(p, x).to_multiset() == s.to_multiset().insert(x),
{
    broadcast use vstd::seq_lib::group_seq_properties;
    broadcast use vstd::multiset::group_multiset_properties;
    let t = s.insert(p, x);
    s.insert_ensures(p, x);
    assert(t.remove(p) =~= s);
    t.to_multiset_ensures();
    assert(t.contains(x)) by {
        assert(t[p] == x);
    }
    assert(t.to_multiset() =~= s.to_multiset().insert(x));
}

/// Sorts candidates by key, ties by index (insertion sort).
pub fn sort_candidates(v: Vec<(u64, usize)>) -> (r: Vec<(u64, usize)>)
    ensures
        sorted_pairs(r@),
        r@.to_multiset() == v@.to_multiset(),
        r@.len() == v@.len(),
{
    broadcast use vstd::seq_lib::group_seq_properties;
    let mut out: Vec<(u64, usize)> = Vec::new();
    let n = v.len();
    let mut i: usize = 0;
    while i < n
        invariant
            n == v@.len(),
            0 <= i <= n,
            sorted_pairs(out@),
            out@.to_multiset() == v@.subrange(0, i as int).to_multiset(),
            out@.len() == i,
        decreases n - i,
    {
        let x = v[i];
        let m = out.len();
        let mut p: usize = 0;
        while p < m && !(x.0 < out[p].0 || (x.0 == out[p].0 && x.1 < out[p].1))
            invariant
                m == out@.len(),
                0 <= p <= m,
                forall|q: int| 0 <= q < p ==> pair_le(#[trigger] out@[q], x),
            decreases m - p,
        {
            p = p + 1;
        }
        let ghost o0 = out@;
        out.insert(p, x);
        proof {
            lemma_insert_multiset(o0, p as int, x);
            assert(v@.subrange(0, i + 1) =~= v@.subrange(0, i as int).push(x));
            v@.subrange(0, i as int).to_multiset_ensures();
            o0.insert_ensures(p as int, x);
            let o1 = out@;
            assert forall|a: int, b: int| 0 <= a < b < o1.len() implies pair_le(#[trigger] o1[a], #[trigger] o1[b]) by {
                if b < p {
                    assert(o1[a] == o0[a] && o1[b] == o0[b]);
                } else if b == p {
                    assert(o1[a] == o0[a]);
                } else if a < p {
                    assert(o1[a] == o0[a] && o1[b] == o0[b - 1]);
                    assert(pair_le(o0[a], x));
                    assert(p < m);
                    if a < p {
                        assert(pair_le(o0[p as int], o0[b - 1]) || p == b - 1);
                    }
                } else if a == p {
                    assert(o1[b] == o0[b - 1]);
                    assert(pair_le(o0[p as int], o0[b - 1]) || p == b - 1);
                } else {
                    assert(o1[a] == o0[a - 1] && o1[b] == o0[b - 1]);
                }
            }
        }
        i = i + 1;
    }
    assert(v@.subrange(0, n as int) =~= v@);
    out
}

impl KHeap {
    /// Every candidate pushed so far, in order.
    pub closed spec fn history(&self) -> Seq<(u64, usize)> {
        self.pushed@
    }

    /// The bound `k` the heap was made with.
    pub closed spec fn capacity(&self) -> nat {
        self.k as nat
    }

    /// The held candidates are a best choice from the history.
    pub open spec fn wf(&self) -> bool {
        &&& k_best(self@, self.history(), self.capacity())
        &&& self@ == heap_after(self.capacity(), self.history())
    }

    /// An empty heap that keeps at most `k` candidates.
    pub fn new(k: usize) -> (h: Self)
        ensures
            h@ == Seq::<(u64, usize)>::empty(),
            h.history() == Seq::<(u64, usize)>::empty(),
            h.capacity() == k,
            h.wf(),
    {
        KHeap { entries: Vec::new(), k, pushed: Ghost(Seq::empty()) }
    }

    /// The number of held candidates.
    pub fn len(&self) -> (n: usize)
        ensures
            n == self@.len(),
    {
        self.entries.len()
    }

    /// Whether `k` candidates are held.
    pub fn full(&self) -> (b: bool)
        ensures
            b == (self@.len() >= self.capacity()),
    {
        self.entries.len() >= self.k
    }

    /// The largest held key.
    pub fn worst(&self) -> (w: u64)
        requires
            self@.len() > 0,
        ensures
            exists|s: int| 0 <= s < self@.len() && #[trigger] self@[s].0 == w,
            forall|s: int| 0 <= s < self@.len() ==> (#[trigger] self@[s]).0 <= w,
    {
        let n = self.entries.len();
        let mut w = self.entries[0].0;
        let mut t: usize = 1;
        while t < n
            invariant
                n == self@.len(),
                1 <= t <= n,
                exists|s: int| 0 <= s < self@.len() && #[trigger] self@[s].0 == w,
                forall|s: int| 0 <= s < t ==> (#[trigger] self@[s]).0 <= w,
            decreases n - t,
        {
            let v = self.entries[t].0;
            if v > w {
                w = v;
            }
            t = t + 1;
        }
        w
    }

    /// The held candidates, nearest first (by key, ties by index).
    pub fn finish(self) -> (r: Vec<(u64, usize)>)
        requires
            self.wf(),
        ensures
            k_best(r@, self.history(), self.capacity()),
            sorted_pairs(r@),
            r@.to_multiset() == self@.to_multiset(),
            r@.len() == self@.len(),
            r@.to_multiset() == heap_after(self.capacity(), self.history()).to_multiset(),
    {
        let r = sort_candidates(self.entries);
        proof {
            lemma_k_best_reordered(self@, r@, self.history(), self.capacity());
        }
        r
    }

    /// Offers the candidate `(key, j)`.
    pub fn push(&mut self, key: u64, j: usize)
        requires
            old(self).wf(),
        ensures
            final(self).wf(),
            final(self).history() == old(self).history().push((key, j)),
            final(self).capacity() == old(self).capacity(),
            final(self)@ == push_effect(old(self)@, old(self).capacity(), key, j),
    {
        let ghost h0 = self.pushed@;
        let ghost e0 = self.entries@;
        let ghost h1 = h0.push((key, j));
        self.pushed = Ghost(h1);
        assert(h1[h0.len() as int] == (key, j));
        assert(forall|t: int| 0 <= t < h0.len() ==> h1[t] == h0[t]);
        assert(h1.drop_last() =~= h0);
        assert(heap_after(self.k as nat, h1) == push_effect(e0, self.k as nat, key, j));
        let n = self.entries.len();
        let mut t: usize = 0;
        while t < n
            invariant
                n == self.entries@.len(),
                self.entries@ == e0,
                self.pushed@ == h1,
                self.k == old(self).k,
                k_best(e0, h0, self.k as nat),
                h1 == h0.push((key, j)),
                h0 == old(self).pushed@,
                heap_after(self.k as nat, h1) == push_effect(e0, self.k as nat, key, j),
                e0 == old(self)@,
                0 <= t <= n,
                forall|s: int| 0 <= s < t ==> (#[trigger] e0[s]).1 != j,
            decreases n - t,
        {
            if self.entries[t].1 == j {
                proof {
                    assert(holds_index(e0, j));
                    let s0 = slot_of(e0, j);
                    if s0 < t {
                        assert(e0[s0].1 != e0[t as int].1);
                    } else if s0 > t {
                        assert(e0[t as int].1 != e0[s0].1);
                    }
                    assert(s0 == t);
                }
                if key < self.entries[t].0 {
                    self.entries.set(t, (key, j));
                    proof {
                        let e1 = self.entries@;
                        assert forall|s: int| 0 <= s < e1.len() implies is_best_push(h1, #[trigger] e1[s]) by {
                            if s == t {
                                assert(h1[h0.len() as int] == e1[s]);
                            } else {
                                assert(is_best_push(h0, e0[s]));
                                let w = choose|w: int| 0 <= w < h0.len() && h0[w] == e0[s];
                                assert(h1[w] == e1[s]);
                            }
                        }
                        assert forall|u: int| 0 <= u < h1.len() && !holds_index(e1, (#[trigger] h1[u]).1) implies {
                            &&& e1.len() == self.k
                            &&& forall|s: int| 0 <= s < e1.len() ==> (#[trigger] e1[s]).0 <= h1[u].0
                        } by {
                            if u == h0.len() {
                                assert(e1[t as int].1 == j);
                            } else {
                                assert(h1[u] == h0[u]);
                                if holds_index(e0, h0[u].1) {
                                    let s = choose|s: int| 0 <= s < e0.len() && e0[s].1 == h0[u].1;
                                    if s == t {
                                        assert(e1[s].1 == h0[u].1);
                                    } else {
                                        assert(e1[s].1 == h0[u].1);
                                    }
                                }
                                assert forall|s: int| 0 <= s < e1.len() implies (#[trigger] e1[s]).0 <= h1[u].0 by {
                                    assert(e0[s].0 <= h0[u].0);
                                }
                            }
                        }
                    }
                } else {
                    proof {
                        assert forall|s: int| 0 <= s < e0.len() implies is_best_push(h1, #[trigger] e0[s]) by {
                            assert(is_best_push(h0, e0[s]));
                            let w = choose|w: int| 0 <= w < h0.len() && h0[w] == e0[s];
                            assert(h1[w] == e0[s]);
                        }
                        assert forall|u: int| 0 <= u < h1.len() && !holds_index(e0, (#[trigger] h1[u]).1) implies {
                            &&& e0.len() == self.k
                            &&& forall|s: int| 0 <= s < e0.len() ==> (#[trigger] e0[s]).0 <= h1[u].0
                        } by {
                            if u == h0.len() {
                                assert(e0[t as int].1 == j);
                            } else {
                                assert(h1[u] == h0[u]);
                            }
                        }
                    }
                }
                return;
            }
            t = t + 1;
        }
        assert(!holds_index(e0, j));
        proof {
            assert forall|s: int| 0 <= s < e0.len() implies is_best_push(h1, #[trigger] e0[s]) by {
                assert(is_best_push(h0, e0[s]));
                let w = choose|w: int| 0 <= w < h0.len() && h0[w] == e0[s];
                assert(h1[w] == e0[s]);
            }
        }
        if n < self.k {
            self.entries.push((key, j));
            proof {
                let e1 = self.entries@;
                assert(forall|s: int| 0 <= s < e0.len() ==> e1[s] == e0[s]);
                assert forall|u: int| 0 <= u < h0.len() implies (#[trigger] h0[u]).1 != j by {
                    if h0[u].1 == j {
                        assert(!holds_index(e0, h0[u].1));
                    }
                }
                assert forall|s: int| 0 <= s < e1.len() implies is_best_push(h1, #[trigger] e1[s]) by {
                    if s == n {
                        assert(h1[h0.len() as int] == e1[s]);
                    }
                }
                assert forall|u: int| 0 <= u < h1.len() && !holds_index(e1, (#[trigger] h1[u]).1) implies {
                    &&& e1.len() == self.k
                    &&& forall|s: int| 0 <= s < e1.len() ==> (#[trigger] e1[s]).0 <= h1[u].0
                } by {
                    if u == h0.len() {
                        assert(e1[n as int].1 == j);
                    } else {
                        assert(h1[u] == h0[u]);
                        if !holds_index(e0, h0[u].1) {
                            assert(e0.len() == self.k);
                        } else {
                            let s = choose|s: int| 0 <= s < e0.len() && e0[s].1 == h0[u].1;
                            assert(e1[s].1 == h0[u].1);
                        }
                    }
                }
            }
            return;
        }
        if n == 0 {
            proof {
                assert forall|u: int| 0 <= u < h1.len() && !holds_index(e0, (#[trigger] h1[u]).1) implies {
                    &&& e0.len() == self.k
                    &&& forall|s: int| 0 <= s < e0.len() ==> (#[trigger] e0[s]).0 <= h1[u].0
                } by {}
            }
            return;
        }
        let mut worst: usize = 0;
        let mut t: usize = 1;
        while t < n
            invariant
                n == self.entries@.len(),
                self.entries@ == e0,
                1 <= t <= n,
                worst < t,
                forall|s: int| 0 <= s < t ==> (#[trigger] e0[s]).0 <= e0[worst as int].0,
                forall|s: int| 0 <= s < worst ==> (#[trigger] e0[s]).0 < e0[worst as int].0,
            decreases n - t,
        {
            if self.entries[t].0 > self.entries[worst].0 {
                worst = t;
            }
            t = t + 1;
        }
        proof {
            assert(is_worst_slot(e0, worst as int));
            let w0 = worst_slot(e0);
            assert(is_worst_slot(e0, w0));
            if w0 < worst {
                assert(e0[w0].0 < e0[worst as int].0);
            } else if w0 > worst {
                assert(e0[worst as int].0 < e0[w0].0);
            }
            assert(w0 == worst);
        }
        if key < self.entries[worst].0 {
            let ghost ev = e0[worst as int];
            self.entries.set(worst, (key, j));
            proof {
                let e1 = self.entries@;
                assert(is_best_push(h0, ev));
                assert forall|s: int| 0 <= s < e1.len() implies is_best_push(h1, #[trigger] e1[s]) by {
                    if s == worst {
                        assert(h1[h0.len() as int] == e1[s]);
                        assert forall|u: int| 0 <= u < h1.len() && (#[trigger] h1[u]).1 == j implies key <= h1[u].0 by {
                            if u < h0.len() {
                                assert(h1[u] == h0[u]);
                                assert(!holds_index(e0, h0[u].1));
                                assert(e0[worst as int].0 <= h0[u].0);
                            }
                        }
                    } else {
                        assert(e1[s] == e0[s]);
                    }
                }
                assert forall|a: int, b: int| 0 <= a < b < e1.len() implies #[trigger] e1[a].1 != #[trigger] e1[b].1 by {
                    if a == worst {
                        assert(e0[b].1 != j);
                    } else if b == worst {
                        assert(e0[a].1 != j);
                    } else {
                        assert(e0[a].1 != e0[b].1);
                    }
                }
                assert forall|u: int| 0 <= u < h1.len() && !holds_index(e1, (#[trigger] h1[u]).1) implies {
                    &&& e1.len() == self.k
                    &&& forall|s: int| 0 <= s < e1.len() ==> (#[trigger] e1[s]).0 <= h1[u].0
                } by {
                    if u == h0.len() {
                        assert(e1[worst as int].1 == j);
                    } else {
                        assert(h1[u] == h0[u]);
                        if h0[u].1 == ev.1 {
                            // the evicted index: its pushes are no smaller than its best key
                            assert(ev.0 <= h0[u].0);
                            assert forall|s: int| 0 <= s < e1.len() implies (#[trigger] e1[s]).0 <= h1[u].0 by {
                                if s != worst {
                                    assert(e0[s].0 <= ev.0);
                                }
                            }
                        } else {
                            if holds_index(e0, h0[u].1) {
                                let s = choose|s: int| 0 <= s < e0.len() && e0[s].1 == h0[u].1;
                                assert(s != worst);
                                assert(e1[s].1 == h0[u].1);
                            }
                            assert forall|s: int| 0 <= s < e1.len() implies (#[trigger] e1[s]).0 <= h1[u].0 by {
                                if s != worst {
                                    assert(e0[s].0 <= h0[u].0);
                                } else {
                                    assert(e0[worst as int].0 <= h0[u].0);
                                }
                            }
                        }
                    }
                }
            }
        } else {
            proof {
                assert forall|u: int| 0 <= u < h1.len() && !holds_index(e0, (#[trigger] h1[u]).1) implies {
                    &&& e0.len() == self.k
                    &&& forall|s: int| 0 <= s < e0.len() ==> (#[trigger] e0[s]).0 <= h1[u].0
                } by {
                    if u < h0.len() {
                        assert(h1[u] == h0[u]);
                    } else {
                        assert forall|s: int| 0 <= s < e0.len() implies (#[trigger] e0[s]).0 <= h1[u].0 by {
                            assert(e0[s].0 <= e0[worst as int].0);
                        }
                    }
                }
            }
        }
    }
}

} // verus!
