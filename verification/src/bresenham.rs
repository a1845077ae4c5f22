use vstd::prelude::*;

verus! {

/// Magnitude of an integer.
pub open spec fn mag(d: int) -> int {
    if d >= 0 {
        d
    } else {
        -d
    }
}

/// Sign of an integer: -1, 0 or 1.
pub open spec fn sign(d: int) -> int {
    if d > 0 {
        1
    } else if d < 0 {
        -1
    } else {
        0
    }
}

/// Lexicographic order on coordinates; the direction in which the raster
/// walk is evaluated.
pub open spec fn lex_le(x0: int, y0: int, x1: int, y1: int) -> bool {
    x0 < x1 || (x0 == x1 && y0 <= y1)
}

/// The points visited by the raster walk from step `k` up to step `dmaj`,
/// starting at `(x, y)` with accumulated error `err`.
///
/// Each step advances one cell along the dominant axis (direction `(mjx,
/// mjy)`) and accumulates `dmin` into the error term; whenever twice the
/// accumulated error exceeds `dmaj`, the walk also advances one cell along
/// the minor axis (direction `(mnx, mny)`) and pays `dmaj` back out of the
/// error term.
pub open spec fn walk(
    x: int,
    y: int,
    mjx: int,
    mjy: int,
    mnx: int,
    mny: int,
    dmaj: int,
    dmin: int,
    err: int,
    k: int,
) -> Seq<(int, int)>
    decreases dmaj - k,
{
    if k >= dmaj {
        seq![(x, y)]
    } else if 2 * (err + dmin) > dmaj {
        seq![(x, y)] + walk(
            x + mjx + mnx,
            y + mjy + mny,
            mjx,
            mjy,
            mnx,
            mny,
            dmaj,
            dmin,
            err + dmin - dmaj,
            k + 1,
        )
    } else {
        seq![(x, y)] + walk(x + mjx, y + mjy, mjx, mjy, mnx, mny, dmaj, dmin, err + dmin, k + 1)
    }
}

/// The raster points from `(x0, y0)` to `(x1, y1)`, walked in that
/// direction: the dominant axis is the one with the larger coordinate
/// distance, and the walk starts with an error term of zero.
pub open spec fn canon_trace(x0: int, y0: int, x1: int, y1: int) -> Seq<(int, int)> {
    let dx = x1 - x0;
    let dy = y1 - y0;
    let adx = mag(dx);
    let ady = mag(dy);
    if adx >= ady {
        walk(x0, y0, sign(dx), 0, 0, sign(dy), adx, ady, 0, 0)
    } else {
        walk(x0, y0, 0, sign(dy), sign(dx), 0, ady, adx, 0, 0)
    }
}

/// The points of the raster segment from `(x0, y0)` to `(x1, y1)`, both
/// inclusive, in traversal order.
///
/// The walk itself is always evaluated in the lexicographically increasing
/// direction; tracing against that order yields exactly the reversed
/// sequence, so tracing B to A is always the reverse of tracing A to B.
pub open spec fn trace_spec(x0: int, y0: int, x1: int, y1: int) -> Seq<(int, int)> {
    if lex_le(x0, y0, x1, y1) {
        canon_trace(x0, y0, x1, y1)
    } else {
        canon_trace(x1, y1, x0, y0).reverse()
    }
}

/// The length of a raster walk: one point per step along the dominant axis,
/// plus the starting point.
proof fn lemma_walk_len(
    x: int,
    y: int,
    mjx: int,
    mjy: int,
    mnx: int,
    mny: int,
    dmaj: int,
    dmin: int,
    err: int,
    k: int,
)
    requires
        k <= dmaj,
    ensures
        walk(x, y, mjx, mjy, mnx, mny, dmaj, dmin, err, k).len() == dmaj - k + 1,
    decreases dmaj - k,
{
    if k < dmaj {
        if 2 * (err + dmin) > dmaj {
            lemma_walk_len(
                x + mjx + mnx,
                y + mjy + mny,
                mjx,
                mjy,
                mnx,
                mny,
                dmaj,
                dmin,
                err + dmin - dmaj,
                k + 1,
            );
        } else {
            lemma_walk_len(x + mjx, y + mjy, mjx, mjy, mnx, mny, dmaj, dmin, err + dmin, k + 1);
        }
    }
}

/// The product of a sign and the matching magnitude is the number itself.
proof fn lemma_sign_mag(d: int)
    ensures
        sign(d) * mag(d) == d,
{
    if d > 0 {
        assert(sign(d) * mag(d) == 1 * d);
    } else if d < 0 {
        assert(sign(d) * mag(d) == (-1) * (-d));
    } else {
        assert(sign(d) * mag(d) == 0 * 0);
    }
}

/// Shape of a raster walk: its length, its first and last points, and a
/// bound of one cell per axis on every single step.
proof fn lemma_walk_shape(
    x: int,
    y: int,
    mjx: int,
    mjy: int,
    mnx: int,
    mny: int,
    dmaj: int,
    dmin: int,
    err: int,
    k: int,
    off: int,
)
    requires
        0 <= k <= dmaj,
        0 <= dmin <= dmaj,
        err == k * dmin - off * dmaj,
        0 <= off <= dmin,
        -dmaj <= 2 * err <= dmaj,
        mjx == 0 || mnx == 0,
        mjy == 0 || mny == 0,
        mag(mjx) <= 1,
        mag(mjy) <= 1,
        mag(mnx) <= 1,
        mag(mny) <= 1,
    ensures
        walk(x, y, mjx, mjy, mnx, mny, dmaj, dmin, err, k).len() == dmaj - k + 1,
        walk(x, y, mjx, mjy, mnx, mny, dmaj, dmin, err, k)[0] == (x, y),
        walk(x, y, mjx, mjy, mnx, mny, dmaj, dmin, err, k).last() == ((
            x + mjx * (dmaj - k) + mnx * (dmin - off),
            y + mjy * (dmaj - k) + mny * (dmin - off),
        )),
        forall|i: int|
            1 <= i <= dmaj - k ==> mag(
                (#[trigger] walk(x, y, mjx, mjy, mnx, mny, dmaj, dmin, err, k)[i]).0 - walk(
                    x,
                    y,
                    mjx,
                    mjy,
                    mnx,
                    mny,
                    dmaj,
                    dmin,
                    err,
                    k,
                )[i - 1].0,
            ) <= 1 && mag(
                walk(x, y, mjx, mjy, mnx, mny, dmaj, dmin, err, k)[i].1 - walk(
                    x,
                    y,
                    mjx,
                    mjy,
                    mnx,
                    mny,
                    dmaj,
                    dmin,
                    err,
                    k,
                )[i - 1].1,
            ) <= 1,
    decreases dmaj - k,
{
    let w = walk(x, y, mjx, mjy, mnx, mny, dmaj, dmin, err, k);
    if k == dmaj {
        assert(off == dmin) by (nonlinear_arith)
            requires
                err == k * dmin - off * dmaj,
                k == dmaj,
                -dmaj <= 2 * err <= dmaj,
                0 <= off <= dmin,
                0 <= dmin <= dmaj,
        ;
        assert(mnx * (dmin - off) == 0) by (nonlinear_arith)
            requires
                off == dmin,
        ;
        assert(mny * (dmin - off) == 0) by (nonlinear_arith)
            requires
                off == dmin,
        ;
        assert(mjx * (dmaj - k) == 0) by (nonlinear_arith)
            requires
                k == dmaj,
        ;
        assert(mjy * (dmaj - k) == 0) by (nonlinear_arith)
            requires
                k == dmaj,
        ;
    } else {
        let e2 = err + dmin;
        if 2 * e2 > dmaj {
            let err2 = e2 - dmaj;
            assert(off < dmin) by (nonlinear_arith)
                requires
                    err == k * dmin - off * dmaj,
                    2 * (err + dmin) > dmaj,
                    0 <= k < dmaj,
                    0 <= off <= dmin,
            ;
            assert(err2 == (k + 1) * dmin - (off + 1) * dmaj) by (nonlinear_arith)
                requires
                    err == k * dmin - off * dmaj,
                    err2 == err + dmin - dmaj,
            ;
            lemma_walk_shape(
                x + mjx + mnx,
                y + mjy + mny,
                mjx,
                mjy,
                mnx,
                mny,
                dmaj,
                dmin,
                err2,
                k + 1,
                off + 1,
            );
            let w2 = walk(x + mjx + mnx, y + mjy + mny, mjx, mjy, mnx, mny, dmaj, dmin, err2, k + 1);
            assert(w == seq![(x, y)] + w2);
            assert((x + mjx + mnx) + mjx * (dmaj - k - 1) + mnx * (dmin - off - 1) == x + mjx * (
            dmaj - k) + mnx * (dmin - off)) by (nonlinear_arith);
            assert((y + mjy + mny) + mjy * (dmaj - k - 1) + mny * (dmin - off - 1) == y + mjy * (
            dmaj - k) + mny * (dmin - off)) by (nonlinear_arith);
            assert(w.last() == w2.last());
            assert forall|i: int| 1 <= i <= dmaj - k implies mag(
                (#[trigger] w[i]).0 - w[i - 1].0,
            ) <= 1 && mag(w[i].1 - w[i - 1].1) <= 1 by {
                if i == 1 {
                    assert(w[1] == w2[0]);
                    assert(w[0] == (x, y));
                } else {
                    assert(w[i] == w2[i - 1]);
                    assert(w[i - 1] == w2[i - 2]);
                }
            }
        } else {
            assert(e2 == (k + 1) * dmin - off * dmaj) by (nonlinear_arith)
                requires
                    err == k * dmin - off * dmaj,
                    e2 == err + dmin,
            ;
            lemma_walk_shape(x + mjx, y + mjy, mjx, mjy, mnx, mny, dmaj, dmin, e2, k + 1, off);
            let w2 = walk(x + mjx, y + mjy, mjx, mjy, mnx, mny, dmaj, dmin, e2, k + 1);
            assert(w == seq![(x, y)] + w2);
            assert((x + mjx) + mjx * (dmaj - k - 1) + mnx * (dmin - off) == x + mjx * (dmaj - k)
                + mnx * (dmin - off)) by (nonlinear_arith);
            assert((y + mjy) + mjy * (dmaj - k - 1) + mny * (dmin - off) == y + mjy * (dmaj - k)
                + mny * (dmin - off)) by (nonlinear_arith);
            assert(w.last() == w2.last());
            assert forall|i: int| 1 <= i <= dmaj - k implies mag(
                (#[trigger] w[i]).0 - w[i - 1].0,
            ) <= 1 && mag(w[i].1 - w[i - 1].1) <= 1 by {
                if i == 1 {
                    assert(w[1] == w2[0]);
                    assert(w[0] == (x, y));
                } else {
                    assert(w[i] == w2[i - 1]);
                    assert(w[i - 1] == w2[i - 2]);
                }
            }
        }
    }
}

/// Shape of a directed trace: endpoints and the per-step bound.
pub(crate) proof fn lemma_canon_shape(x0: int, y0: int, x1: int, y1: int)
    ensures
        canon_trace(x0, y0, x1, y1).len() == 1 + if mag(x1 - x0) >= mag(y1 - y0) {
            mag(x1 - x0)
        } else {
            mag(y1 - y0)
        },
        canon_trace(x0, y0, x1, y1)[0] == (x0, y0),
        canon_trace(x0, y0, x1, y1).last() == (x1, y1),
        forall|i: int|
            1 <= i < canon_trace(x0, y0, x1, y1).len() ==> mag(
                (#[trigger] canon_trace(x0, y0, x1, y1)[i]).0 - canon_trace(x0, y0, x1, y1)[i
                    - 1].0,
            ) <= 1 && mag(
                canon_trace(x0, y0, x1, y1)[i].1 - canon_trace(x0, y0, x1, y1)[i - 1].1,
            ) <= 1,
{
    let dx = x1 - x0;
    let dy = y1 - y0;
    lemma_sign_mag(dx);
    lemma_sign_mag(dy);
    if mag(dx) >= mag(dy) {
        lemma_walk_shape(x0, y0, sign(dx), 0, 0, sign(dy), mag(dx), mag(dy), 0, 0, 0);
        assert(sign(dx) * (mag(dx) - 0) == dx);
        assert(sign(dy) * (mag(dy) - 0) == dy);
    } else {
        lemma_walk_shape(x0, y0, 0, sign(dy), sign(dx), 0, mag(dy), mag(dx), 0, 0, 0);
        assert(sign(dy) * (mag(dy) - 0) == dy);
        assert(sign(dx) * (mag(dx) - 0) == dx);
    }
}

/// Law: a traced segment always starts at its first endpoint and ends at its
/// second, and consecutive raster points differ by at most 1 on each axis.
pub proof fn lemma_trace_endpoints(x0: int, y0: int, x1: int, y1: int)
    ensures
        trace_spec(x0, y0, x1, y1).len() >= 1,
        trace_spec(x0, y0, x1, y1)[0] == (x0, y0),
        trace_spec(x0, y0, x1, y1).last() == (x1, y1),
        forall|i: int|
            1 <= i < trace_spec(x0, y0, x1, y1).len() ==> mag(
                (#[trigger] trace_spec(x0, y0, x1, y1)[i]).0 - trace_spec(x0, y0, x1, y1)[i
                    - 1].0,
            ) <= 1 && mag(
                trace_spec(x0, y0, x1, y1)[i].1 - trace_spec(x0, y0, x1, y1)[i - 1].1,
            ) <= 1,
{
    let t = trace_spec(x0, y0, x1, y1);
    if lex_le(x0, y0, x1, y1) {
        lemma_canon_shape(x0, y0, x1, y1);
    } else {
        let c = canon_trace(x1, y1, x0, y0);
        lemma_canon_shape(x1, y1, x0, y0);
        assert(t == c.reverse());
        assert(t.len() == c.len());
        assert forall|i: int| 0 <= i < t.len() implies t[i] == c[c.len() - 1 - i] by {}
        assert(t[0] == c[c.len() - 1]);
        assert(t.last() == c[0]);
        assert forall|i: int| 1 <= i < t.len() implies mag((#[trigger] t[i]).0 - t[i - 1].0)
            <= 1 && mag(t[i].1 - t[i - 1].1) <= 1 by {
            let j = c.len() - i;
            assert(t[i] == c[j - 1]);
            assert(t[i - 1] == c[j]);
            assert(mag(c[j].0 - c[j - 1].0) <= 1 && mag(c[j].1 - c[j - 1].1) <= 1);
        }
    }
}

/// Law: tracing from B to A yields exactly the reverse of tracing from A to
/// B.
pub proof fn lemma_trace_symmetric(x0: int, y0: int, x1: int, y1: int)
    ensures
        trace_spec(x0, y0, x1, y1).reverse() == trace_spec(x1, y1, x0, y0),
{
    if lex_le(x0, y0, x1, y1) && lex_le(x1, y1, x0, y0) {
        assert(x0 == x1 && y0 == y1);
        lemma_canon_shape(x0, y0, x1, y1);
        let c = canon_trace(x0, y0, x1, y1);
        assert(c.len() == 1);
        assert(c.reverse() =~= c);
    } else if lex_le(x0, y0, x1, y1) {
        assert(trace_spec(x1, y1, x0, y0) == canon_trace(x0, y0, x1, y1).reverse());
    } else {
        let c = canon_trace(x1, y1, x0, y0);
        assert(trace_spec(x0, y0, x1, y1) == c.reverse());
        assert(trace_spec(x1, y1, x0, y0) == c);
        assert(c.reverse().reverse() =~= c);
    }
}

/// Core of the rasterizer: walks from `(x0, y0)` to `(x1, y1)` and returns
/// exactly the points of `canon_trace`.
#[verifier::loop_isolation(false)]
#[verifier::rlimit(100)]
fn canon_line(x0: i32, y0: i32, x1: i32, y1: i32) -> (r: Vec<(i32, i32)>)
    ensures
        r@.len() == canon_trace(x0 as int, y0 as int, x1 as int, y1 as int).len(),
        r@.len() >= 1,
        forall|i: int|
            0 <= i < r@.len() ==> ((#[trigger] r@[i]).0 as int, r@[i].1 as int) == canon_trace(
                x0 as int,
                y0 as int,
                x1 as int,
                y1 as int,
            )[i],
{
    let dx: i64 = x1 as i64 - x0 as i64;
    let dy: i64 = y1 as i64 - y0 as i64;
    let sx: i64 = if dx > 0 {
        1
    } else if dx < 0 {
        -1
    } else {
        0
    };
    let sy: i64 = if dy > 0 {
        1
    } else if dy < 0 {
        -1
    } else {
        0
    };
    let adx: i64 = if dx >= 0 {
        dx
    } else {
        -dx
    };
    let ady: i64 = if dy >= 0 {
        dy
    } else {
        -dy
    };
    let (mjx, mjy, mnx, mny, dmaj, dmin): (i64, i64, i64, i64, i64, i64) = if adx >= ady {
        (sx, 0, 0, sy, adx, ady)
    } else {
        (0, sy, sx, 0, ady, adx)
    };
    let ghost canon = canon_trace(x0 as int, y0 as int, x1 as int, y1 as int);
    proof {
        assert(canon == walk(
            x0 as int,
            y0 as int,
            mjx as int,
            mjy as int,
            mnx as int,
            mny as int,
            dmaj as int,
            dmin as int,
            0,
            0,
        ));
        lemma_walk_len(
            x0 as int,
            y0 as int,
            mjx as int,
            mjy as int,
            mnx as int,
            mny as int,
            dmaj as int,
            dmin as int,
            0,
            0,
        );
    }
    let mut x: i64 = x0 as i64;
    let mut y: i64 = y0 as i64;
    let mut err: i64 = 0;
    let mut k: i64 = 0;
    let ghost mut off: int = 0;
    let mut r: Vec<(i32, i32)> = Vec::new();
    r.push((x0, y0));
    while k < dmaj
        invariant
            0 <= k <= dmaj,
            err == k * dmin - off * dmaj,
            0 <= off <= dmin,
            -dmaj <= 2 * err <= dmaj,
            x == x0 + mjx * k + mnx * off,
            y == y0 + mjy * k + mny * off,
            mag(x - x0) <= 2 * k,
            mag(y - y0) <= 2 * k,
            r@.len() == k + 1,
            forall|i: int|
                0 <= i < r@.len() ==> ((#[trigger] r@[i]).0 as int, r@[i].1 as int) == canon[i],
            canon.subrange(k as int, canon.len() as int) == walk(
                x as int,
                y as int,
                mjx as int,
                mjy as int,
                mnx as int,
                mny as int,
                dmaj as int,
                dmin as int,
                err as int,
                k as int,
            ),
        decreases dmaj - k,
    {
        let ghost (ox, oy, oerr, ok) = (x as int, y as int, err as int, k as int);
        let ghost prev_walk = walk(
            ox,
            oy,
            mjx as int,
            mjy as int,
            mnx as int,
            mny as int,
            dmaj as int,
            dmin as int,
            oerr,
            ok,
        );
        let e2: i64 = err + dmin;
        if 2 * e2 > dmaj {
            proof {
                assert(off < dmin) by (nonlinear_arith)
                    requires
                        err == k * dmin - off * dmaj,
                        2 * (err + dmin) > dmaj,
                        0 <= k < dmaj,
                        0 <= off <= dmin,
                ;
                assert((e2 - dmaj) as int == (k + 1) * dmin - (off + 1) * dmaj) by (nonlinear_arith)
                    requires
                        err == k * dmin - off * dmaj,
                        e2 == err + dmin,
                ;
            }
            x = x + mjx + mnx;
            y = y + mjy + mny;
            err = e2 - dmaj;
            proof {
                off = off + 1;
            }
        } else {
            proof {
                assert(e2 as int == (k + 1) * dmin - off * dmaj) by (nonlinear_arith)
                    requires
                        err == k * dmin - off * dmaj,
                        e2 == err + dmin,
                ;
            }
            x = x + mjx;
            y = y + mjy;
            err = e2;
        }
        k = k + 1;
        proof {
            lemma_axis_in_box(
                x0 as int,
                x1 as int,
                mjx as int,
                mnx as int,
                k as int,
                off,
                dmaj as int,
                dmin as int,
                x as int,
            );
            lemma_axis_in_box(
                y0 as int,
                y1 as int,
                mjy as int,
                mny as int,
                k as int,
                off,
                dmaj as int,
                dmin as int,
                y as int,
            );
            let cur_walk = walk(
                x as int,
                y as int,
                mjx as int,
                mjy as int,
                mnx as int,
                mny as int,
                dmaj as int,
                dmin as int,
                err as int,
                k as int,
            );
            lemma_walk_len(
                x as int,
                y as int,
                mjx as int,
                mjy as int,
                mnx as int,
                mny as int,
                dmaj as int,
                dmin as int,
                err as int,
                k as int,
            );
            assert(prev_walk == seq![(ox, oy)] + cur_walk);
            assert(canon.subrange(ok, canon.len() as int) == prev_walk);
            assert forall|i: int| 0 <= i < canon.len() - k implies canon[k as int + i]
                == cur_walk[i] by {
                assert(canon.subrange(ok, canon.len() as int)[i + 1] == canon[ok + i + 1]);
                assert(prev_walk[i + 1] == cur_walk[i]);
            }
            assert(canon.subrange(k as int, canon.len() as int) =~= cur_walk);
            assert(cur_walk[0] == (x as int, y as int));
            assert(canon[k as int] == (x as int, y as int));
        }
        r.push((x as i32, y as i32));
    }
    proof {
        assert(r@.len() == canon.len());
    }
    r
}

/// Every point of the walk stays between the two endpoint coordinates on
/// each axis.
proof fn lemma_axis_in_box(
    c0: int,
    c1: int,
    mj: int,
    mn: int,
    k: int,
    off: int,
    dmaj: int,
    dmin: int,
    c: int,
)
    by (nonlinear_arith)
    requires
        c == c0 + mj * k + mn * off,
        0 <= k <= dmaj,
        0 <= off <= dmin,
        dmin <= dmaj,
        (mj == sign(c1 - c0) && mn == 0 && dmaj == mag(c1 - c0)) || (mj == 0 && mn == sign(
            c1 - c0,
        ) && dmin == mag(c1 - c0)),
    ensures
        c0 <= c1 ==> c0 <= c <= c1,
        c1 <= c0 ==> c1 <= c <= c0,
{
}

/// Produces every grid cell that the ideal straight segment from `(x0, y0)`
/// to `(x1, y1)` passes through, in traversal order, both endpoints
/// inclusive.
pub fn bresenham_line(x0: i32, y0: i32, x1: i32, y1: i32) -> (r: Vec<(i32, i32)>)
    ensures
        r@.len() == trace_spec(x0 as int, y0 as int, x1 as int, y1 as int).len(),
        r@.len() >= 1,
        forall|i: int|
            0 <= i < r@.len() ==> ((#[trigger] r@[i]).0 as int, r@[i].1 as int) == trace_spec(
                x0 as int,
                y0 as int,
                x1 as int,
                y1 as int,
            )[i],
{
    if x0 < x1 || (x0 == x1 && y0 <= y1) {
        canon_line(x0, y0, x1, y1)
    } else {
        let c = canon_line(x1, y1, x0, y0);
        let ghost canon = canon_trace(x1 as int, y1 as int, x0 as int, y0 as int);
        let mut r: Vec<(i32, i32)> = Vec::new();
        let mut i: usize = c.len();
        while i > 0
            invariant
                i <= c@.len(),
                c@.len() == canon.len(),
                r@.len() == c@.len() - i,
                forall|j: int| 0 <= j < r@.len() ==> #[trigger] r@[j] == c@[c@.len() - 1 - j],
                forall|j: int|
                    0 <= j < c@.len() ==> ((#[trigger] c@[j]).0 as int, c@[j].1 as int)
                        == canon[j],
            decreases i,
        {
            i = i - 1;
            let p = c[i];
            r.push(p);
        }
        proof {
            assert(trace_spec(x0 as int, y0 as int, x1 as int, y1 as int) == canon.reverse());
            assert(canon.reverse().len() == canon.len());
            assert forall|j: int| 0 <= j < r@.len() implies ((#[trigger] r@[j]).0 as int,
            r@[j].1 as int) == canon.reverse()[j] by {
                assert(r@[j] == c@[c@.len() - 1 - j]);
            }
        }
        r
    }
}

} // verus!
