//! Fixed-point geometry: coordinate bounds, squared Euclidean distance,
//! and the floor of an integer square root.

use vstd::prelude::*;

verus! {

/// Largest magnitude a coordinate may have. Together with `MAX_DIMS` and
/// `MAX_POINTS` this keeps every squared distance and every inertia sum
/// far below `u128::MAX`, so the arithmetic below is proved overflow-free.
pub const COORD_LIMIT: i64 = 1_000_000_000_000;

/// Largest dimensionality a point may have.
pub const MAX_DIMS: usize = 1024;

/// Largest number of points one dataset may hold.
pub const MAX_POINTS: usize = 1_000_000;

pub open spec fn sq(x: int) -> int {
    x * x
}

pub open spec fn coord_ok(x: i64) -> bool {
    -COORD_LIMIT <= x <= COORD_LIMIT
}

pub open spec fn point_ok(p: Seq<i64>) -> bool {
    &&& p.len() <= MAX_DIMS
    &&& forall|a: int| 0 <= a < p.len() ==> coord_ok(#[trigger] p[a])
}

pub open spec fn points_ok(ps: Seq<Seq<i64>>) -> bool {
    &&& ps.len() <= MAX_POINTS
    &&& forall|i: int| 0 <= i < ps.len() ==> point_ok(#[trigger] ps[i])
}

/// Every point has exactly `d` coordinates.
pub open spec fn uniform_dims(ps: Seq<Seq<i64>>, d: int) -> bool {
    forall|i: int| 0 <= i < ps.len() ==> (#[trigger] ps[i]).len() == d
}

/// Squared Euclidean distance between two points of equal dimensionality.
pub open spec fn dist_sq(p: Seq<i64>, q: Seq<i64>) -> int
    decreases p.len(),
{
    if p.len() == 0 {
        0
    } else {
        dist_sq(p.drop_last(), q.drop_last()) + sq(p.last() - q.last())
    }
}

pub proof fn lemma_sq_bound(x: int, b: int)
    requires
        -b <= x <= b,
    ensures
        0 <= sq(x) <= b * b,
{
    assert(x * x >= 0) by (nonlinear_arith);
    assert(-b <= x <= b ==> x * x <= b * b) by (nonlinear_arith);
}

/// Squares grow with their argument on the non-negative side.
pub proof fn lemma_sq_monotonic(x: int, y: int)
    requires
        0 <= x <= y,
    ensures
        sq(x) <= sq(y),
{
    assert(0 <= x <= y ==> x * x <= y * y) by (nonlinear_arith);
}

/// For points of equal dimensionality the squared distance is symmetric.
pub proof fn lemma_dist_sq_sym(p: Seq<i64>, q: Seq<i64>)
    requires
        p.len() == q.len(),
    ensures
        dist_sq(p, q) == dist_sq(q, p),
    decreases p.len(),
{
    if p.len() > 0 {
        lemma_dist_sq_sym(p.drop_last(), q.drop_last());
        let x = p.last() - q.last();
        let y = q.last() - p.last();
        assert(sq(x) == sq(y)) by (nonlinear_arith)
            requires x == -y, sq(x) == x * x, sq(y) == y * y,
        ;
    }
}

pub proof fn lemma_dist_sq_self(p: Seq<i64>)
    ensures
        dist_sq(p, p) == 0,
    decreases p.len(),
{
    if p.len() > 0 {
        lemma_dist_sq_self(p.drop_last());
        assert(sq(0) == 0) by (nonlinear_arith);
    }
}

/// With all coordinates bounded by `b`, the squared distance is at most
/// `4 * b * b` per axis.
pub proof fn lemma_dist_sq_bound(p: Seq<i64>, q: Seq<i64>, b: int)
    requires
        p.len() == q.len(),
        b >= 0,
        forall|a: int| 0 <= a < p.len() ==> -b <= #[trigger] p[a] <= b,
        forall|a: int| 0 <= a < q.len() ==> -b <= #[trigger] q[a] <= b,
    ensures
        0 <= dist_sq(p, q) <= p.len() * (4 * b * b),
    decreases p.len(),
{
    if p.len() == 0 {
    } else {
        lemma_dist_sq_bound(p.drop_last(), q.drop_last(), b);
        lemma_sq_bound(p.last() - q.last(), 2 * b);
        assert((2 * b) * (2 * b) == 4 * b * b) by (nonlinear_arith);
        assert((p.len() - 1) * (4 * b * b) + 4 * b * b == p.len() * (4 * b * b))
            by (nonlinear_arith);
    }
}

/// Squared Euclidean distance, executable.
pub fn dist_sq_exec(p: &Vec<i64>, q: &Vec<i64>) -> (r: u128)
    requires
        p@.len() == q@.len(),
        point_ok(p@),
        point_ok(q@),
    ensures
        r == dist_sq(p@, q@),
{
    let n: usize = p.len();
    let mut acc: u128 = 0;
    let mut a: usize = 0;
    while a < n
        invariant
            a <= n,
            n == p@.len() == q@.len(),
            point_ok(p@),
            point_ok(q@),
            acc == dist_sq(p@.take(a as int), q@.take(a as int)),
        decreases n - a,
    {
        let diff: i128 = (p[a] as i128) - (q[a] as i128);
        proof {
            lemma_sq_bound(diff as int, 2 * COORD_LIMIT);
            lemma_dist_sq_bound(p@.take(a as int), q@.take(a as int), COORD_LIMIT as int);
            assert((a as int) * (4 * (COORD_LIMIT as int) * (COORD_LIMIT as int))
                <= (MAX_DIMS as int) * (4 * (COORD_LIMIT as int) * (COORD_LIMIT as int)))
                by (nonlinear_arith)
                requires a as int <= MAX_DIMS as int,
            ;
        }
        let term: u128 = (diff * diff) as u128;
        acc = acc + term;
        proof {
            let pa = p@.take(a + 1 as int);
            let qa = q@.take(a + 1 as int);
            assert(pa.drop_last() =~= p@.take(a as int));
            assert(qa.drop_last() =~= q@.take(a as int));
            assert(pa.last() == p@[a as int]);
            assert(qa.last() == q@[a as int]);
        }
        a = a + 1;
    }
    proof {
        assert(p@.take(n as int) =~= p@);
        assert(q@.take(n as int) =~= q@);
    }
    acc
}

/// Floor of the square root of a non-negative integer.
pub open spec fn sqrt_floor(x: int) -> int
    decreases x,
{
    if x < 1 {
        0
    } else {
        let r = sqrt_floor(x - 1);
        if sq(r + 1) <= x {
            r + 1
        } else {
            r
        }
    }
}

pub proof fn lemma_sqrt_floor_props(x: int)
    requires
        x >= 0,
    ensures
        sqrt_floor(x) >= 0,
        sq(sqrt_floor(x)) <= x,
        sq(sqrt_floor(x) + 1) > x,
    decreases x,
{
    if x < 1 {
        assert(sq(1) == 1);
    } else {
        lemma_sqrt_floor_props(x - 1);
        let r = sqrt_floor(x - 1);
        if sq(r + 1) <= x {
            assert(sq(r + 2) > x) by (nonlinear_arith)
                requires r >= 0, sq(r + 1) > x - 1, sq(r + 1) == (r + 1) * (r + 1),
                    sq(r + 2) == (r + 2) * (r + 2),
            ;
        }
    }
}

/// Any `r` whose square brackets `x` is the floor square root of `x`.
pub proof fn lemma_sqrt_floor_unique(x: int, r: int)
    requires
        x >= 0,
        r >= 0,
        sq(r) <= x,
        sq(r + 1) > x,
    ensures
        r == sqrt_floor(x),
{
    lemma_sqrt_floor_props(x);
    let s = sqrt_floor(x);
    if r < s {
        lemma_sq_monotonic(r + 1, s);
        assert(sq(s) <= x);
    }
    if s < r {
        lemma_sq_monotonic(s + 1, r);
        assert(sq(r) <= x);
    }
}

/// Floor square root, executable, by bisection over the answer.
pub fn isqrt(x: u128) -> (r: u128)
    ensures
        r == sqrt_floor(x as int),
        sq(r as int) <= x as int,
        sq(r as int + 1) > x as int,
        r < 0x1_0000_0000_0000_0000u128,
{
    let mut lo: u128 = 0;
    let mut hi: u128 = 0x1_0000_0000_0000_0000;
    proof {
        assert(sq(hi as int) > x as int) by (nonlinear_arith)
            requires
                hi as int == 0x1_0000_0000_0000_0000int,
                x as int <= 0xffff_ffff_ffff_ffff_ffff_ffff_ffff_ffffint,
                sq(hi as int) == (hi as int) * (hi as int),
        ;
    }
    while lo + 1 < hi
        invariant
            lo < hi,
            hi <= 0x1_0000_0000_0000_0000u128,
            sq(lo as int) <= x as int,
            sq(hi as int) > x as int,
        decreases hi - lo,
    {
        let mid: u128 = lo + (hi - lo) / 2;
        proof {
            assert((mid as int) * (mid as int)
                <= 0xffff_ffff_ffff_ffff_int * 0xffff_ffff_ffff_ffff_int)
                by (nonlinear_arith)
                requires 0 <= mid as int <= 0xffff_ffff_ffff_ffff_int,
            ;
        }
        let m2: u128 = mid * mid;
        if m2 <= x {
            lo = mid;
        } else {
            hi = mid;
        }
    }
    proof {
        lemma_sqrt_floor_unique(x as int, lo as int);
    }
    lo
}

} // verus!
