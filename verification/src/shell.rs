//! Chebyshev shells of integer stencil offsets.
//!
//! Shell `reach` is the surface `max(|dx|, |dy|, |dz|) == reach` of the
//! cube of side `2 * reach + 1`; shell `1` also holds the home offset
//! `(0, 0, 0)`. Offsets come out with `dx` outermost and `dz` innermost,
//! each ascending.

use vstd::prelude::*;

verus! {

/// Largest reach a shell may be asked for: a stencil position (a bin below
/// `MAX_BINS` moved by up to this much) and the loop bound past it stay
/// within `i32`.
pub const MAX_REACH: i32 = 2_146_483_646;

/// Absolute value.
pub open spec fn abs_int(x: int) -> int {
    if x < 0 {
        -x
    } else {
        x
    }
}

/// Chebyshev norm of an offset.
pub open spec fn chebyshev(dx: int, dy: int, dz: int) -> int {
    let a = abs_int(dx);
    let b = abs_int(dy);
    let c = abs_int(dz);
    if a >= b && a >= c {
        a
    } else if b >= c {
        b
    } else {
        c
    }
}

/// The offset lies in the cube of the shell and on its surface (every
/// offset of the cube counts for shell `1`).
pub open spec fn in_shell(reach: int, dx: int, dy: int, dz: int) -> bool {
    &&& -reach <= dx <= reach
    &&& -reach <= dy <= reach
    &&& -reach <= dz <= reach
    &&& (reach == 1 || abs_int(dx) == reach || abs_int(dy) == reach || abs_int(dz) == reach)
}

/// Shell offsets `(dx, dy, dz)` with `dz < hi`, for fixed `dx`, `dy`.
pub open spec fn shell_row(reach: int, dx: int, dy: int, hi: int) -> Seq<(i32, i32, i32)>
    decreases hi + reach,
{
    if hi <= -reach {
        Seq::empty()
    } else {
        shell_row(reach, dx, dy, hi - 1) + if in_shell(reach, dx, dy, hi - 1) {
            seq![(dx as i32, dy as i32, (hi - 1) as i32)]
        } else {
            Seq::empty()
        }
    }
}

/// Shell offsets with `dy < hi`, for fixed `dx`.
pub open spec fn shell_plane(reach: int, dx: int, hi: int) -> Seq<(i32, i32, i32)>
    decreases hi + reach,
{
    if hi <= -reach {
        Seq::empty()
    } else {
        shell_plane(reach, dx, hi - 1) + shell_row(reach, dx, hi - 1, reach + 1)
    }
}

/// Shell offsets with `dx < hi`.
pub open spec fn shell_cube(reach: int, hi: int) -> Seq<(i32, i32, i32)>
    decreases hi + reach,
{
    if hi <= -reach {
        Seq::empty()
    } else {
        shell_cube(reach, hi - 1) + shell_plane(reach, hi - 1, reach + 1)
    }
}

/// The offsets of shell `reach`, in walk order.
pub open spec fn shell(reach: int) -> Seq<(i32, i32, i32)> {
    shell_cube(reach, reach + 1)
}

proof fn lemma_row_contents(reach: int, dx: int, dy: int, hi: int)
    requires
        1 <= reach <= MAX_REACH,
        -reach <= dx <= reach,
        -reach <= dy <= reach,
        -reach <= hi <= reach + 1,
    ensures
        forall|p: (i32, i32, i32)|
            #[trigger] shell_row(reach, dx, dy, hi).contains(p) <==> (p.0 == dx && p.1 == dy && -reach <= p.2 < hi
                && in_shell(reach, dx, dy, p.2 as int)),
    decreases hi + reach,
{
    if hi > -reach {
        lemma_row_contents(reach, dx, dy, hi - 1);
        let a = shell_row(reach, dx, dy, hi - 1);
        let b = if in_shell(reach, dx, dy, hi - 1) {
            seq![(dx as i32, dy as i32, (hi - 1) as i32)]
        } else {
            Seq::<(i32, i32, i32)>::empty()
        };
        assert(shell_row(reach, dx, dy, hi) == a + b);
        lemma_seq_add_contains(a, b);
        assert forall|p: (i32, i32, i32)|
            #[trigger] shell_row(reach, dx, dy, hi).contains(p) <==> (p.0 == dx && p.1 == dy && -reach <= p.2 < hi
                && in_shell(reach, dx, dy, p.2 as int)) by {
            if b.contains(p) {
                assert(b[0] == p);
            }
            if p.0 == dx && p.1 == dy && p.2 == hi - 1 && in_shell(reach, dx, dy, p.2 as int) {
                assert(b[0] == p);
                assert(b.contains(p));
            }
        }
    } else {
        assert forall|p: (i32, i32, i32)|
            #[trigger] shell_row(reach, dx, dy, hi).contains(p) <==> (p.0 == dx && p.1 == dy && -reach <= p.2 < hi
                && in_shell(reach, dx, dy, p.2 as int)) by {
            assert(shell_row(reach, dx, dy, hi).len() == 0);
        }
    }
}

/// An element of a concatenation is an element of one of its parts.
pub proof fn lemma_seq_add_contains<A>(a: Seq<A>, b: Seq<A>)
    ensures
        forall|p: A| #[trigger] (a + b).contains(p) <==> (a.contains(p) || b.contains(p)),
{
    assert forall|p: A| #[trigger] (a + b).contains(p) <==> (a.contains(p) || b.contains(p)) by {
        if (a + b).contains(p) {
            let t = choose|t: int| 0 <= t < (a + b).len() && (a + b)[t] == p;
            if t >= a.len() {
                assert(b[t - a.len()] == p);
            }
        }
        if a.contains(p) {
            let t = choose|t: int| 0 <= t < a.len() && a[t] == p;
            assert((a + b)[t] == p);
        }
        if b.contains(p) {
            let t = choose|t: int| 0 <= t < b.len() && b[t] == p;
            assert((a + b)[a.len() + t] == p);
        }
    }
}

proof fn lemma_plane_contents(reach: int, dx: int, hi: int)
    requires
        1 <= reach <= MAX_REACH,
        -reach <= dx <= reach,
        -reach <= hi <= reach + 1,
    ensures
        forall|p: (i32, i32, i32)|
            #[trigger] shell_plane(reach, dx, hi).contains(p) <==> (p.0 == dx && -reach <= p.1 < hi && in_shell(
                reach,
                dx,
                p.1 as int,
                p.2 as int,
            )),
    decreases hi + reach,
{
    if hi > -reach {
        lemma_plane_contents(reach, dx, hi - 1);
        lemma_row_contents(reach, dx, hi - 1, reach + 1);
        lemma_seq_add_contains(shell_plane(reach, dx, hi - 1), shell_row(reach, dx, hi - 1, reach + 1));
        assert(shell_plane(reach, dx, hi) == shell_plane(reach, dx, hi - 1) + shell_row(reach, dx, hi - 1, reach + 1));
        assert forall|p: (i32, i32, i32)|
            #[trigger] shell_plane(reach, dx, hi).contains(p) <==> (p.0 == dx && -reach <= p.1 < hi && in_shell(
                reach,
                dx,
                p.1 as int,
                p.2 as int,
            )) by {
            assert(shell_plane(reach, dx, hi - 1).contains(p) == (p.0 == dx && -reach <= p.1 < hi - 1 && in_shell(
                reach, dx, p.1 as int, p.2 as int)));
            assert(shell_row(reach, dx, hi - 1, reach + 1).contains(p) == (p.0 == dx && p.1 == hi - 1 && -reach <= p.2 < reach + 1
                && in_shell(reach, dx, hi - 1, p.2 as int)));
        }
    } else {
        assert(shell_plane(reach, dx, hi).len() == 0);
    }
}

proof fn lemma_cube_contents(reach: int, hi: int)
    requires
        1 <= reach <= MAX_REACH,
        -reach <= hi <= reach + 1,
    ensures
        forall|p: (i32, i32, i32)|
            #[trigger] shell_cube(reach, hi).contains(p) <==> (-reach <= p.0 < hi && in_shell(
                reach,
                p.0 as int,
                p.1 as int,
                p.2 as int,
            )),
    decreases hi + reach,
{
    if hi > -reach {
        lemma_cube_contents(reach, hi - 1);
        lemma_plane_contents(reach, hi - 1, reach + 1);
        lemma_seq_add_contains(shell_cube(reach, hi - 1), shell_plane(reach, hi - 1, reach + 1));
        assert(shell_cube(reach, hi) == shell_cube(reach, hi - 1) + shell_plane(reach, hi - 1, reach + 1));
        assert forall|p: (i32, i32, i32)|
            #[trigger] shell_cube(reach, hi).contains(p) <==> (-reach <= p.0 < hi && in_shell(
                reach,
                p.0 as int,
                p.1 as int,
                p.2 as int,
            )) by {
            assert(shell_cube(reach, hi - 1).contains(p) == (-reach <= p.0 < hi - 1 && in_shell(
                reach, p.0 as int, p.1 as int, p.2 as int)));
            assert(shell_plane(reach, hi - 1, reach + 1).contains(p) == (p.0 == hi - 1 && -reach <= p.1 < reach + 1 && in_shell(
                reach, hi - 1, p.1 as int, p.2 as int)));
        }
    } else {
        assert(shell_cube(reach, hi).len() == 0);
    }
}

/// Shell `reach` holds exactly the offsets that lie in it.
pub proof fn lemma_shell_contents(reach: int)
    requires
        1 <= reach <= MAX_REACH,
    ensures
        forall|p: (i32, i32, i32)|
            #[trigger] shell(reach).contains(p) <==> in_shell(reach, p.0 as int, p.1 as int, p.2 as int),
{
    lemma_cube_contents(reach, reach + 1);
}

/// The shells `1..=reach` tile the cube of side `2 * reach + 1`: an offset
/// with Chebyshev norm at most `reach` lies in exactly one of them, the
/// shell of its own norm (shell `1` for the home offset), and no shell
/// holds an offset beyond its own reach.
pub proof fn lemma_shells_tile_cube(reach: int, p: (i32, i32, i32))
    requires
        1 <= reach <= MAX_REACH,
    ensures
        chebyshev(p.0 as int, p.1 as int, p.2 as int) <= reach ==> {
            let home = if chebyshev(p.0 as int, p.1 as int, p.2 as int) <= 1 {
                1
            } else {
                chebyshev(p.0 as int, p.1 as int, p.2 as int)
            };
            &&& shell(home).contains(p)
            &&& forall|r: int| 1 <= r <= reach && r != home ==> !(#[trigger] shell(r).contains(p))
        },
        forall|r: int|
            1 <= r <= MAX_REACH && #[trigger] shell(r).contains(p) ==> chebyshev(p.0 as int, p.1 as int, p.2 as int) <= r,
{
    let c = chebyshev(p.0 as int, p.1 as int, p.2 as int);
    assert forall|r: int| 1 <= r <= MAX_REACH && #[trigger] shell(r).contains(p) implies c <= r by {
        lemma_shell_contents(r);
    }
    if c <= reach {
        let home = if c <= 1 { 1 } else { c };
        lemma_shell_contents(home);
        assert forall|r: int| 1 <= r <= reach && r != home implies !(#[trigger] shell(r).contains(p)) by {
            lemma_shell_contents(r);
        }
    }
}

/// Two sequences without repeats and without a common element concatenate
/// to one without repeats.
pub proof fn lemma_seq_add_no_dup<A>(a: Seq<A>, b: Seq<A>)
    requires
        a.no_duplicates(),
        b.no_duplicates(),
        forall|x: A| a.contains(x) ==> !b.contains(x),
    ensures
        (a + b).no_duplicates(),
{
    assert forall|i: int, j: int| 0 <= i < (a + b).len() && 0 <= j < (a + b).len() && i != j implies (a + b)[i]
        != (a + b)[j] by {
        if i < a.len() && j < a.len() {
            assert((a + b)[i] == a[i] && (a + b)[j] == a[j]);
        } else if i >= a.len() && j >= a.len() {
            assert((a + b)[i] == b[i - a.len()] && (a + b)[j] == b[j - a.len()]);
        } else if i < a.len() {
            assert((a + b)[i] == a[i] && (a + b)[j] == b[j - a.len()]);
            assert(a.contains(a[i]));
            assert(b.contains(b[j - a.len()]));
        } else {
            assert((a + b)[j] == a[j] && (a + b)[i] == b[i - a.len()]);
            assert(a.contains(a[j]));
            assert(b.contains(b[i - a.len()]));
        }
    }
}

proof fn lemma_row_no_dup(reach: int, dx: int, dy: int, hi: int)
    requires
        1 <= reach <= MAX_REACH,
        -reach <= dx <= reach,
        -reach <= dy <= reach,
        -reach <= hi <= reach + 1,
    ensures
        shell_row(reach, dx, dy, hi).no_duplicates(),
    decreases hi + reach,
{
    if hi > -reach {
        lemma_row_no_dup(reach, dx, dy, hi - 1);
        lemma_row_contents(reach, dx, dy, hi - 1);
        let a = shell_row(reach, dx, dy, hi - 1);
        let b = if in_shell(reach, dx, dy, hi - 1) {
            seq![(dx as i32, dy as i32, (hi - 1) as i32)]
        } else {
            Seq::<(i32, i32, i32)>::empty()
        };
        assert(shell_row(reach, dx, dy, hi) == a + b);
        assert forall|x: (i32, i32, i32)| a.contains(x) implies !b.contains(x) by {
            if b.contains(x) {
                assert(b[0] == x);
            }
        }
        lemma_seq_add_no_dup(a, b);
    }
}

proof fn lemma_plane_no_dup(reach: int, dx: int, hi: int)
    requires
        1 <= reach <= MAX_REACH,
        -reach <= dx <= reach,
        -reach <= hi <= reach + 1,
    ensures
        shell_plane(reach, dx, hi).no_duplicates(),
    decreases hi + reach,
{
    if hi > -reach {
        lemma_plane_no_dup(reach, dx, hi - 1);
        lemma_plane_contents(reach, dx, hi - 1);
        lemma_row_no_dup(reach, dx, hi - 1, reach + 1);
        lemma_row_contents(reach, dx, hi - 1, reach + 1);
        let a = shell_plane(reach, dx, hi - 1);
        let b = shell_row(reach, dx, hi - 1, reach + 1);
        assert(shell_plane(reach, dx, hi) == a + b);
        assert forall|x: (i32, i32, i32)| a.contains(x) implies !b.contains(x) by {}
        lemma_seq_add_no_dup(a, b);
    }
}

proof fn lemma_cube_no_dup(reach: int, hi: int)
    requires
        1 <= reach <= MAX_REACH,
        -reach <= hi <= reach + 1,
    ensures
        shell_cube(reach, hi).no_duplicates(),
    decreases hi + reach,
{
    if hi > -reach {
        lemma_cube_no_dup(reach, hi - 1);
        lemma_cube_contents(reach, hi - 1);
        lemma_plane_no_dup(reach, hi - 1, reach + 1);
        lemma_plane_contents(reach, hi - 1, reach + 1);
        let a = shell_cube(reach, hi - 1);
        let b = shell_plane(reach, hi - 1, reach + 1);
        assert(shell_cube(reach, hi) == a + b);
        assert forall|x: (i32, i32, i32)| a.contains(x) implies !b.contains(x) by {}
        lemma_seq_add_no_dup(a, b);
    }
}

/// No offset comes up twice in a shell.
pub proof fn lemma_shell_no_dup(reach: int)
    requires
        1 <= reach <= MAX_REACH,
    ensures
        shell(reach).no_duplicates(),
{
    lemma_cube_no_dup(reach, reach + 1);
}

fn abs_i32(x: i32) -> (r: i32)
    requires
        x > i32::MIN,
    ensures
        r == abs_int(x as int),
{
    if x < 0 {
        -x
    } else {
        x
    }
}

/// The offsets of shell `reach`, in walk order.
pub fn shell_offsets(reach: i32) -> (v: Vec<(i32, i32, i32)>)
    requires
        1 <= reach <= MAX_REACH,
    ensures
        v@ == shell(reach as int),
{
    let mut out: Vec<(i32, i32, i32)> = Vec::new();
    let mut dx: i32 = -reach;
    while dx <= reach
        invariant
            1 <= reach <= MAX_REACH,
            -reach <= dx <= reach + 1,
            out@ == shell_cube(reach as int, dx as int),
        decreases reach + 1 - dx,
    {
        let mut dy: i32 = -reach;
        while dy <= reach
            invariant
                1 <= reach <= MAX_REACH,
                -reach <= dx <= reach,
                -reach <= dy <= reach + 1,
                out@ == shell_cube(reach as int, dx as int) + shell_plane(reach as int, dx as int, dy as int),
            decreases reach + 1 - dy,
        {
            let mut dz: i32 = -reach;
            while dz <= reach
                invariant
                    1 <= reach <= MAX_REACH,
                    -reach <= dx <= reach,
                    -reach <= dy <= reach,
                    -reach <= dz <= reach + 1,
                    out@ == shell_cube(reach as int, dx as int) + shell_plane(reach as int, dx as int, dy as int)
                        + shell_row(reach as int, dx as int, dy as int, dz as int),
                decreases reach + 1 - dz,
            {
                let ghost before = out@;
                let on_surface = reach == 1 || abs_i32(dx) == reach || abs_i32(dy) == reach
                    || abs_i32(dz) == reach;
                if on_surface {
                    out.push((dx, dy, dz));
                }
                proof {
                    let r = reach as int;
                    assert(shell_row(r, dx as int, dy as int, dz + 1) == shell_row(r, dx as int, dy as int, dz as int)
                        + if in_shell(r, dx as int, dy as int, dz as int) {
                        seq![(dx, dy, dz)]
                    } else {
                        Seq::<(i32, i32, i32)>::empty()
                    });
                    assert(out@ =~= shell_cube(r, dx as int) + shell_plane(r, dx as int, dy as int)
                        + shell_row(r, dx as int, dy as int, dz + 1));
                }
                dz = dz + 1;
            }
            proof {
                let r = reach as int;
                assert(shell_plane(r, dx as int, dy + 1) == shell_plane(r, dx as int, dy as int)
                    + shell_row(r, dx as int, dy as int, r + 1));
                assert(out@ =~= shell_cube(r, dx as int) + shell_plane(r, dx as int, dy + 1));
            }
            dy = dy + 1;
        }
        proof {
            let r = reach as int;
            assert(shell_cube(r, dx + 1) == shell_cube(r, dx as int) + shell_plane(r, dx as int, r + 1));
            assert(out@ =~= shell_cube(r, dx + 1));
        }
        dx = dx + 1;
    }
    out
}

} // verus!
