//! Integer 2-D points and the small amount of geometry the trail logic needs:
//! squared distances, an integer square root, and movement of a point toward a
//! target by a given distance.

use vstd::prelude::*;

verus! {

/// A 2-D point with integer coordinates.
#[derive(Clone, Copy, Debug, PartialEq, Eq, Structural)]
pub struct Pos {
    pub x: i32,
    pub y: i32,
}

impl Pos {
    pub fn new(x: i32, y: i32) -> (p: Pos)
        ensures
            p.x == x,
            p.y == y,
    {
        Pos { x, y }
    }
}

/// The squared Euclidean distance between two points, as a mathematical integer.
pub open spec fn dist_sq_spec(a: Pos, b: Pos) -> int {
    (a.x - b.x) * (a.x - b.x) + (a.y - b.y) * (a.y - b.y)
}

/// Squared distance between two points. Coordinate differences fit in `i64`,
/// and each square fits in `u64`, so the sum is computed in `u128`.
pub fn dist_sq(a: Pos, b: Pos) -> (d: u128)
    ensures
        d == dist_sq_spec(a, b),
{
    let dx: i64 = a.x as i64 - b.x as i64;
    let dy: i64 = a.y as i64 - b.y as i64;
    let adx: u64 = if dx < 0 { (-dx) as u64 } else { dx as u64 };
    let ady: u64 = if dy < 0 { (-dy) as u64 } else { dy as u64 };
    assert(adx * adx == dx * dx && adx * adx < 0x1_0000_0000_0000_0000) by (nonlinear_arith)
        requires
            adx == if dx < 0 { -dx as int } else { dx as int },
            -0x1_0000_0000 < dx < 0x1_0000_0000,
    ;
    assert(ady * ady == dy * dy && ady * ady < 0x1_0000_0000_0000_0000) by (nonlinear_arith)
        requires
            ady == if dy < 0 { -dy as int } else { dy as int },
            -0x1_0000_0000 < dy < 0x1_0000_0000,
    ;
    let dx2: u64 = adx * adx;
    let dy2: u64 = ady * ady;
    dx2 as u128 + dy2 as u128
}

/// The squared distance of two points fits well below `2^65`.
pub proof fn lemma_dist_sq_bound(a: Pos, b: Pos)
    ensures
        0 <= dist_sq_spec(a, b) < 0x2_0000_0000_0000_0000,
{
    let dx: int = a.x - b.x;
    let dy: int = a.y - b.y;
    assert(0 <= dx * dx < 0x1_0000_0000_0000_0000 && 0 <= dy * dy < 0x1_0000_0000_0000_0000)
        by (nonlinear_arith)
        requires
            -0x1_0000_0000 < dx < 0x1_0000_0000,
            -0x1_0000_0000 < dy < 0x1_0000_0000,
    ;
}

/// The integer square root: the largest `r` with `r * r <= n`.
pub open spec fn isqrt_spec(n: int) -> int
    decreases n,
{
    if n <= 0 {
        0
    } else {
        let r: int = isqrt_spec(n - 1);
        if (r + 1) * (r + 1) <= n {
            r + 1
        } else {
            r
        }
    }
}

/// `isqrt_spec(n)` is bracketed by the squares around `n`.
pub proof fn lemma_isqrt_spec_bounds(n: int)
    requires
        n >= 0,
    ensures
        0 <= isqrt_spec(n),
        isqrt_spec(n) * isqrt_spec(n) <= n,
        n < (isqrt_spec(n) + 1) * (isqrt_spec(n) + 1),
    decreases n,
{
    if n > 0 {
        lemma_isqrt_spec_bounds(n - 1);
        let r: int = isqrt_spec(n - 1);
        if (r + 1) * (r + 1) <= n {
            assert(n < (r + 2) * (r + 2)) by (nonlinear_arith)
                requires
                    n - 1 < (r + 1) * (r + 1),
                    (r + 1) * (r + 1) <= n,
                    r >= 0,
            ;
        }
    }
}

/// Only one value satisfies the integer-square-root bracket.
pub proof fn lemma_isqrt_unique(n: int, r: int)
    requires
        n >= 0,
        r >= 0,
        r * r <= n,
        n < (r + 1) * (r + 1),
    ensures
        r == isqrt_spec(n),
{
    lemma_isqrt_spec_bounds(n);
    let s: int = isqrt_spec(n);
    assert(r == s) by (nonlinear_arith)
        requires
            r >= 0,
            s >= 0,
            r * r <= n,
            n < (r + 1) * (r + 1),
            s * s <= n,
            n < (s + 1) * (s + 1),
    ;
}

/// Integer square root by binary search.
pub fn isqrt(n: u128) -> (r: u64)
    ensures
        r == isqrt_spec(n as int),
{
    let mut lo: u128 = 0;
    let mut hi: u128 = 0x1_0000_0000_0000_0000;
    assert((n as int) < hi * hi) by (nonlinear_arith)
        requires
            hi == 0x1_0000_0000_0000_0000int,
            n as int <= 0xffff_ffff_ffff_ffff_ffff_ffff_ffff_ffffint,
    ;
    while hi - lo > 1
        invariant
            0 <= lo < hi <= 0x1_0000_0000_0000_0000,
            lo * lo <= n as int,
            (n as int) < hi * hi,
        decreases hi - lo,
    {
        let mid: u128 = lo + (hi - lo) / 2;
        assert(lo < mid < hi);
        assert(mid * mid <= 0xffff_ffff_ffff_ffff_ffff_ffff_ffff_ffffint) by (nonlinear_arith)
            requires
                0 < mid < 0x1_0000_0000_0000_0000int,
        ;
        if mid * mid <= n {
            lo = mid;
        } else {
            hi = mid;
        }
    }
    proof {
        lemma_isqrt_unique(n as int, lo as int);
    }
    lo as u64
}

/// The signed offset `delta * d / dist`, rounded toward zero.
pub open spec fn step_toward(delta: int, d: int, dist: int) -> int {
    if delta >= 0 {
        (delta * d) / dist
    } else {
        -((-delta * d) / dist)
    }
}

/// The rounded offset never overshoots: it lies between 0 and `delta`
/// whenever `0 <= d <= dist`.
pub proof fn lemma_step_toward_bounded(delta: int, d: int, dist: int)
    requires
        0 <= d <= dist,
        0 < dist,
    ensures
        delta >= 0 ==> 0 <= step_toward(delta, d, dist) <= delta,
        delta < 0 ==> delta <= step_toward(delta, d, dist) <= 0,
{
    let a: int = if delta >= 0 { delta } else { -delta };
    assert(0 <= (a * d) / dist <= a) by (nonlinear_arith)
        requires
            a >= 0,
            0 <= d <= dist,
            0 < dist,
    ;
}

/// Where a point moving from `from` straight toward `to` by `d` units ends up:
/// at `to` itself if `d` covers the whole remaining distance, and otherwise
/// `d/dist` of the way there, each coordinate offset rounded toward `from`.
pub open spec fn advance_spec(from: Pos, to: Pos, d: u64) -> Pos {
    let dsq: int = dist_sq_spec(from, to);
    if d * d >= dsq {
        to
    } else {
        let dist: int = isqrt_spec(dsq);
        Pos {
            x: (from.x + step_toward(to.x - from.x, d as int, dist)) as i32,
            y: (from.y + step_toward(to.y - from.y, d as int, dist)) as i32,
        }
    }
}

/// One coordinate of the move: `from + delta * d / dist`, rounded toward `from`.
fn step_coord(from: i32, to: i32, d: u64, dist: u64) -> (r: i32)
    requires
        0 < dist,
        d <= dist,
    ensures
        r == from + step_toward(to - from, d as int, dist as int),
{
    let delta: i64 = to as i64 - from as i64;
    let mag: u64 = if delta < 0 { (-delta) as u64 } else { delta as u64 };
    assert((mag as int) * (d as int) < 0x1_0000_0000_0000_0000_0000_0000int) by (nonlinear_arith)
        requires
            0 <= (mag as int) < 0x1_0000_0000int,
            0 <= (d as int) < 0x1_0000_0000_0000_0000int,
    ;
    let step128: u128 = (mag as u128) * (d as u128) / (dist as u128);
    proof {
        lemma_step_toward_bounded(delta as int, d as int, dist as int);
        assert(step128 <= mag) by (nonlinear_arith)
            requires
                step128 == (mag as int) * (d as int) / (dist as int),
                mag >= 0,
                0 <= (d as int) <= (dist as int),
                0 < dist as int,
        ;
        if delta >= 0 {
            assert(step128 == step_toward(delta as int, d as int, dist as int));
        } else {
            assert(step128 == -step_toward(delta as int, d as int, dist as int));
        }
    }
    let step: i64 = step128 as i64;
    if delta < 0 {
        (from as i64 - step) as i32
    } else {
        (from as i64 + step) as i32
    }
}

/// Move `from` toward `to` by `d` units, stopping exactly at `to` when the
/// remaining distance is no more than `d`.
pub fn advance_toward(from: Pos, to: Pos, d: u64) -> (p: Pos)
    ensures
        p == advance_spec(from, to, d),
        d * d >= dist_sq_spec(from, to) ==> p == to,
{
    let dsq: u128 = dist_sq(from, to);
    assert((d as int) * (d as int) <= 0xffff_ffff_ffff_ffff_ffff_ffff_ffff_ffffint)
        by (nonlinear_arith)
        requires
            0 <= (d as int) < 0x1_0000_0000_0000_0000int,
    ;
    let dd: u128 = (d as u128) * (d as u128);
    proof {
        lemma_dist_sq_bound(from, to);
    }
    if dd >= dsq {
        to
    } else {
        let dist: u64 = isqrt(dsq);
        proof {
            lemma_isqrt_spec_bounds(dsq as int);
            assert(d <= dist) by (nonlinear_arith)
                requires
                    (d as int) * (d as int) < dsq as int,
                    (dsq as int) < (dist as int + 1) * (dist as int + 1),
                    d >= 0,
                    dist >= 0,
            ;
            assert(dist >= 1) by (nonlinear_arith)
                requires
                    (dist as int) * (dist as int) <= dsq as int,
                    dsq as int >= 1,
                    (dsq as int) < (dist as int + 1) * (dist as int + 1),
                    dist >= 0,
            ;
        }
        let x: i32 = step_coord(from.x, to.x, d, dist);
        let y: i32 = step_coord(from.y, to.y, d, dist);
        proof {
            lemma_step_toward_bounded(to.x - from.x, d as int, dist as int);
            lemma_step_toward_bounded(to.y - from.y, d as int, dist as int);
        }
        Pos { x, y }
    }
}

} // verus!
