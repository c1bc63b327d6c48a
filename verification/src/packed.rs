//! The packed `n * k` output layout: the neighbours of source `i` occupy
//! slots `i * k ..`, nearest first, and every slot no neighbour fills holds
//! a fill value (`-1` for indices). A frame-major batch lays `n_frames`
//! such blocks one after another.

use vstd::prelude::*;
use crate::error::Error;

verus! {

/// The error a packed write reports before it touches its buffers, if
/// any: `n * k` that does not fit a length, then an index buffer whose
/// length is not `n * k`, then a distance buffer of another length.
pub open spec fn packed_error(n: nat, k: nat, nn_len: nat, d2_len: Option<nat>) -> Option<Error> {
    if n * k > usize::MAX {
        Some(Error::Overflow)
    } else if n * k != nn_len {
        Some(Error::BufferSize)
    } else if d2_len is Some && d2_len->0 != nn_len {
        Some(Error::BufferSize)
    } else {
        None
    }
}

/// Checks the buffers of a packed write.
pub fn validate_packed(n: usize, k: usize, nn_len: usize, d2_len: Option<usize>) -> (r: Result<(), Error>)
    ensures
        match packed_error(
            n as nat,
            k as nat,
            nn_len as nat,
            match d2_len {
                Some(l) => Some(l as nat),
                None => None,
            },
        ) {
            Some(e) => r == Err::<(), Error>(e),
            None => r is Ok,
        },
{
    match n.checked_mul(k) {
        Some(need) => {
            if need != nn_len {
                return Err(Error::BufferSize);
            }
        },
        None => {
            return Err(Error::Overflow);
        },
    }
    match d2_len {
        Some(l) => {
            if l != nn_len {
                return Err(Error::BufferSize);
            }
        },
        None => {},
    }
    Ok(())
}

/// The error a frame-major batch reports before it runs any frame, if
/// any: no frames; `n * n_frames` overflowing; a point list of another
/// length; `n * n_frames * k` overflowing; an index buffer of another
/// length; a distance buffer of another length.
pub open spec fn frames_error(
    n: nat,
    n_frames: nat,
    xyz_len: nat,
    k: nat,
    nn_len: nat,
    d2_len: Option<nat>,
) -> Option<Error> {
    if n_frames == 0 {
        Some(Error::Empty)
    } else if n * n_frames > usize::MAX {
        Some(Error::Overflow)
    } else if xyz_len != n * n_frames {
        Some(Error::BufferSize)
    } else if n * n_frames * k > usize::MAX {
        Some(Error::Overflow)
    } else if nn_len != n * n_frames * k {
        Some(Error::BufferSize)
    } else if d2_len is Some && d2_len->0 != n * n_frames * k {
        Some(Error::BufferSize)
    } else {
        None
    }
}

/// Checks the arguments of a frame-major batch.
pub fn validate_frames(
    n: usize,
    n_frames: usize,
    xyz_len: usize,
    k: usize,
    nn_len: usize,
    d2_len: Option<usize>,
) -> (r: Result<(), Error>)
    ensures
        match frames_error(
            n as nat,
            n_frames as nat,
            xyz_len as nat,
            k as nat,
            nn_len as nat,
            match d2_len {
                Some(l) => Some(l as nat),
                None => None,
            },
        ) {
            Some(e) => r == Err::<(), Error>(e),
            None => r is Ok,
        },
{
    if n_frames == 0 {
        return Err(Error::Empty);
    }
    let n_pts = match n.checked_mul(n_frames) {
        Some(v) => v,
        None => {
            return Err(Error::Overflow);
        },
    };
    if xyz_len != n_pts {
        return Err(Error::BufferSize);
    }
    let need = match n_pts.checked_mul(k) {
        Some(v) => v,
        None => {
            return Err(Error::Overflow);
        },
    };
    if nn_len != need {
        return Err(Error::BufferSize);
    }
    match d2_len {
        Some(l) => {
            if l != need {
                return Err(Error::BufferSize);
            }
        },
        None => {},
    }
    Ok(())
}

/// The point range `lo..hi` and the slot range `nn_lo..nn_hi` of frame `f`.
pub fn frame_span(f: usize, n: usize, n_frames: usize, k: usize) -> (r: (usize, usize, usize, usize))
    requires
        f < n_frames,
        n * n_frames * k <= usize::MAX,
        n * n_frames <= usize::MAX,
    ensures
        r.0 == f * n,
        r.1 == f * n + n,
        r.2 == f * n * k,
        r.3 == f * n * k + n * k,
        r.1 <= n * n_frames,
        r.3 <= n * n_frames * k,
{
    proof {
        assert(f * n + n <= n * n_frames) by (nonlinear_arith)
            requires f < n_frames;
        assert((f * n + n) * k <= n * n_frames * k) by (nonlinear_arith)
            requires f * n + n <= n * n_frames;
        assert((f * n + n) * k == f * n * k + n * k) by (nonlinear_arith);
        assert(0 <= f * n * k) by (nonlinear_arith);
        assert(0 <= n * k) by (nonlinear_arith);
    }
    let lo = f * n;
    let hi = lo + n;
    let nn_lo = f * n * k;
    let nn_hi = nn_lo + n * k;
    (lo, hi, nn_lo, nn_hi)
}

/// The sources of `rows` are distinct points of `0..n`, and no row is
/// longer than `k`.
pub open spec fn rows_fit<V>(rows: Seq<(usize, Vec<(u64, V)>)>, n: nat, k: nat) -> bool {
    &&& forall|u: int| 0 <= u < rows.len() ==> (#[trigger] rows[u]).0 < n && rows[u].1@.len() <= k
    &&& forall|u: int, v: int| 0 <= u < v < rows.len() ==> (#[trigger] rows[u]).0 != (#[trigger] rows[v]).0
}

proof fn lemma_slot(i: int, t: int, k: int, n: int)
    requires
        0 <= i < n,
        0 <= t < k,
    ensures
        0 <= i * k + t < n * k,
        (i * k + t) / k == i,
        (i * k + t) % k == t,
{
    assert(0 <= i * k + t < n * k) by (nonlinear_arith)
        requires 0 <= i < n, 0 <= t < k;
    vstd::arithmetic::div_mod::lemma_fundamental_div_mod_converse(i * k + t, k, i, t);
}

/// The index slot value: the `t`-th neighbour of a row, or `-1`.
pub open spec fn index_slot(row: Seq<(u64, usize)>, t: int) -> i32 {
    if t < row.len() {
        row[t].1 as i32
    } else {
        -1i32
    }
}

/// The key slot value: the key of the `t`-th neighbour of a row, or `fill`.
pub open spec fn key_slot(row: Seq<(u64, usize)>, t: int, fill: u64) -> u64 {
    if t < row.len() {
        row[t].0
    } else {
        fill
    }
}

/// Writes the neighbour indices of `rows` into the packed buffer `out` of
/// `n * k` slots; every other slot becomes `-1`.
pub fn pack_indices(rows: &Vec<(usize, Vec<(u64, usize)>)>, n: usize, k: usize, out: &mut [i32])
    requires
        old(out)@.len() == n * k,
        rows_fit(rows@, n as nat, k as nat),
    ensures
        final(out)@.len() == n * k,
        forall|u: int, t: int|
            0 <= u < rows@.len() && 0 <= t < k ==> #[trigger] final(out)@[rows@[u].0 * k + t]
                == index_slot(rows@[u].1@, t),
        forall|i: int, t: int|
            0 <= i < n && 0 <= t < k && (forall|u: int| 0 <= u < rows@.len() ==> (#[trigger] rows@[u]).0 != i)
                ==> #[trigger] final(out)@[i * k + t] == -1,
{
    let len = out.len();
    let mut p: usize = 0;
    while p < len
        invariant
            out@.len() == len,
            0 <= p <= len,
            forall|q: int| 0 <= q < p ==> #[trigger] out@[q] == -1,
        decreases len - p,
    {
        out[p] = -1;
        p = p + 1;
    }
    let nr = rows.len();
    let mut u: usize = 0;
    while u < nr
        invariant
            out@.len() == len,
            len == n * k,
            nr == rows@.len(),
            rows_fit(rows@, n as nat, k as nat),
            0 <= u <= nr,
            forall|v: int, t: int|
                0 <= v < u && 0 <= t < k ==> #[trigger] out@[rows@[v].0 * k + t] == index_slot(rows@[v].1@, t),
            forall|q: int|
                0 <= q < len && (forall|v: int| 0 <= v < u ==> (#[trigger] rows@[v]).0 != q / (k as int))
                    ==> #[trigger] out@[q] == -1,
        decreases nr - u,
    {
        let i = rows[u].0;
        let row = &rows[u].1;
        let m = row.len();
        proof {
            assert forall|s: int| 0 <= s < k implies #[trigger] out@[i * k + s] == -1 by {
                lemma_slot(i as int, s, k as int, n as int);
                assert forall|v: int| 0 <= v < u implies (#[trigger] rows@[v]).0 != (i * k + s) / (k as int) by {
                    assert(rows@[v].0 != rows@[u as int].0);
                }
            }
        }
        let mut t: usize = 0;
        while t < m
            invariant
                out@.len() == len,
                len == n * k,
                nr == rows@.len(),
                rows_fit(rows@, n as nat, k as nat),
                0 <= u < nr,
                i == rows@[u as int].0,
                row@ == rows@[u as int].1@,
                m == row@.len(),
                m <= k,
                0 <= t <= m,
                forall|v: int, s: int|
                    0 <= v < u && 0 <= s < k ==> #[trigger] out@[rows@[v].0 * k + s] == index_slot(rows@[v].1@, s),
                forall|s: int| 0 <= s < t ==> #[trigger] out@[i * k + s] == index_slot(row@, s),
                forall|s: int| t <= s < k ==> #[trigger] out@[i * k + s] == -1,
                forall|q: int|
                    0 <= q < len && q / (k as int) != i && (forall|v: int| 0 <= v < u ==> (#[trigger] rows@[v]).0 != q / (k as int))
                        ==> #[trigger] out@[q] == -1,
            decreases m - t,
        {
            proof {
                lemma_slot(i as int, t as int, k as int, n as int);
            }
            let slot = i * k + t;
            let j = row[t].1;
            let ghost before = out@;
            out[slot] = j as i32;
            proof {
                assert forall|v: int, s: int| 0 <= v < u && 0 <= s < k implies #[trigger] out@[rows@[v].0 * k + s]
                    == index_slot(rows@[v].1@, s) by {
                    lemma_slot(rows@[v].0 as int, s, k as int, n as int);
                    assert(rows@[v].0 != i);
                }
                assert forall|s: int| t < s < k implies #[trigger] out@[i * k + s] == -1 by {
                    lemma_slot(i as int, s, k as int, n as int);
                }
            }
            t = t + 1;
        }
        proof {
            assert forall|s: int| 0 <= s < k implies #[trigger] out@[rows@[u as int].0 * k + s] == index_slot(
                rows@[u as int].1@,
                s,
            ) by {
                if s >= m {
                    assert(out@[i * k + s] == -1);
                }
            }
        }
        u = u + 1;
    }
    proof {
        assert forall|i: int, t: int|
            0 <= i < n && 0 <= t < k && (forall|v: int| 0 <= v < rows@.len() ==> (#[trigger] rows@[v]).0 != i)
                implies #[trigger] out@[i * k + t] == -1 by {
            lemma_slot(i, t, k as int, n as int);
        }
    }
}

/// Writes the neighbour keys of `rows` into the packed buffer `out` of
/// `n * k` slots; every other slot becomes `fill`.
pub fn pack_keys(rows: &Vec<(usize, Vec<(u64, usize)>)>, n: usize, k: usize, fill: u64, out: &mut [u64])
    requires
        old(out)@.len() == n * k,
        rows_fit(rows@, n as nat, k as nat),
    ensures
        final(out)@.len() == n * k,
        forall|u: int, t: int|
            0 <= u < rows@.len() && 0 <= t < k ==> #[trigger] final(out)@[rows@[u].0 * k + t]
                == key_slot(rows@[u].1@, t, fill),
        forall|i: int, t: int|
            0 <= i < n && 0 <= t < k && (forall|u: int| 0 <= u < rows@.len() ==> (#[trigger] rows@[u]).0 != i)
                ==> #[trigger] final(out)@[i * k + t] == fill,
{
    let len = out.len();
    let mut p: usize = 0;
    while p < len
        invariant
            out@.len() == len,
            0 <= p <= len,
            forall|q: int| 0 <= q < p ==> #[trigger] out@[q] == fill,
        decreases len - p,
    {
        out[p] = fill;
        p = p + 1;
    }
    let nr = rows.len();
    let mut u: usize = 0;
    while u < nr
        invariant
            out@.len() == len,
            len == n * k,
            nr == rows@.len(),
            rows_fit(rows@, n as nat, k as nat),
            0 <= u <= nr,
            forall|v: int, t: int|
                0 <= v < u && 0 <= t < k ==> #[trigger] out@[rows@[v].0 * k + t] == key_slot(rows@[v].1@, t, fill),
            forall|q: int|
                0 <= q < len && (forall|v: int| 0 <= v < u ==> (#[trigger] rows@[v]).0 != q / (k as int))
                    ==> #[trigger] out@[q] == fill,
        decreases nr - u,
    {
        let i = rows[u].0;
        let row = &rows[u].1;
        let m = row.len();
        proof {
            assert forall|s: int| 0 <= s < k implies #[trigger] out@[i * k + s] == fill by {
                lemma_slot(i as int, s, k as int, n as int);
                assert forall|v: int| 0 <= v < u implies (#[trigger] rows@[v]).0 != (i * k + s) / (k as int) by {
                    assert(rows@[v].0 != rows@[u as int].0);
                }
            }
        }
        let mut t: usize = 0;
        while t < m
            invariant
                out@.len() == len,
                len == n * k,
                nr == rows@.len(),
                rows_fit(rows@, n as nat, k as nat),
                0 <= u < nr,
                i == rows@[u as int].0,
                row@ == rows@[u as int].1@,
                m == row@.len(),
                m <= k,
                0 <= t <= m,
                forall|v: int, s: int|
                    0 <= v < u && 0 <= s < k ==> #[trigger] out@[rows@[v].0 * k + s] == key_slot(rows@[v].1@, s, fill),
                forall|s: int| 0 <= s < t ==> #[trigger] out@[i * k + s] == key_slot(row@, s, fill),
                forall|s: int| t <= s < k ==> #[trigger] out@[i * k + s] == fill,
                forall|q: int|
                    0 <= q < len && q / (k as int) != i && (forall|v: int| 0 <= v < u ==> (#[trigger] rows@[v]).0 != q / (k as int))
                        ==> #[trigger] out@[q] == fill,
            decreases m - t,
        {
            proof {
                lemma_slot(i as int, t as int, k as int, n as int);
            }
            let slot = i * k + t;
            let key = row[t].0;
            let ghost before = out@;
            out[slot] = key;
            proof {
                assert forall|v: int, s: int| 0 <= v < u && 0 <= s < k implies #[trigger] out@[rows@[v].0 * k + s]
                    == key_slot(rows@[v].1@, s, fill) by {
                    lemma_slot(rows@[v].0 as int, s, k as int, n as int);
                    assert(rows@[v].0 != i);
                }
                assert forall|s: int| t < s < k implies #[trigger] out@[i * k + s] == fill by {
                    lemma_slot(i as int, s, k as int, n as int);
                }
            }
            t = t + 1;
        }
        proof {
            assert forall|s: int| 0 <= s < k implies #[trigger] out@[rows@[u as int].0 * k + s] == key_slot(
                rows@[u as int].1@,
                s,
                fill,
            ) by {
                if s >= m {
                    assert(out@[i * k + s] == fill);
                }
            }
        }
        u = u + 1;
    }
    proof {
        assert forall|i: int, t: int|
            0 <= i < n && 0 <= t < k && (forall|v: int| 0 <= v < rows@.len() ==> (#[trigger] rows@[v]).0 != i)
                implies #[trigger] out@[i * k + t] == fill by {
            lemma_slot(i, t, k as int, n as int);
        }
    }
}

} // verus!
