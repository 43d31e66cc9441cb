//! Integer points, squared distances, floor square roots and truncating
//! division.
use vstd::prelude::*;

verus! {

/// A point or a vector in the plane, in length units.
#[derive(Clone, Copy, Debug, PartialEq, Eq, Structural)]
pub struct Point {
    pub x: i64,
    pub y: i64,
}

impl Point {
    pub fn new(x: i64, y: i64) -> (r: Point)
        ensures
            r.x == x,
            r.y == y,
    {
        Point { x, y }
    }
}

/// Squared Euclidean length of the vector `(dx, dy)`.
pub open spec fn sq_len(dx: int, dy: int) -> int {
    dx * dx + dy * dy
}

/// Squared Euclidean distance between two points.
pub open spec fn sq_dist(p: Point, q: Point) -> int {
    sq_len(p.x - q.x, p.y - q.y)
}

/// `r` is the integer square root of `v`, rounded down.
pub open spec fn is_floor_sqrt(r: int, v: int) -> bool {
    0 <= r && r * r <= v && v < (r + 1) * (r + 1)
}

/// The Euclidean distance of two points, rounded down to a whole unit.
pub open spec fn dist(p: Point, q: Point) -> int {
    floor_sqrt(sq_dist(p, q))
}

/// The integer square root of `v`, rounded down (zero for negative `v`).
pub open spec fn floor_sqrt(v: int) -> int {
    if v < 0 {
        0
    } else {
        choose|r: int| is_floor_sqrt(r, v)
    }
}

/// Truncating division, as the machine divides: the quotient is rounded
/// toward zero.
pub open spec fn tdiv(a: int, b: int) -> int {
    if a >= 0 {
        a / b
    } else {
        -((-a) / b)
    }
}

/// A squared length is non-negative and at least the square of either
/// component.
pub proof fn lemma_sq_len_nonneg(dx: int, dy: int)
    ensures
        sq_len(dx, dy) >= 0,
        sq_len(dx, dy) >= dx * dx,
        sq_len(dx, dy) >= dy * dy,
{
    assert(dx * dx >= 0) by (nonlinear_arith);
    assert(dy * dy >= 0) by (nonlinear_arith);
}

/// The rounded-down square root is unique.
pub proof fn lemma_floor_sqrt_unique(r1: int, r2: int, v: int)
    requires
        is_floor_sqrt(r1, v),
        is_floor_sqrt(r2, v),
    ensures
        r1 == r2,
{
    if r1 < r2 {
        lemma_square_le(r1 + 1, r2);
    } else if r2 < r1 {
        lemma_square_le(r2 + 1, r1);
    }
}

/// A witness of the rounded-down square root fixes `floor_sqrt`.
pub proof fn lemma_floor_sqrt_is(r: int, v: int)
    requires
        is_floor_sqrt(r, v),
    ensures
        floor_sqrt(v) == r,
{
    let c = choose|c: int| is_floor_sqrt(c, v);
    assert(is_floor_sqrt(c, v));
    lemma_floor_sqrt_unique(c, r, v);
}

/// The integer square root of `v`, rounded down, by bisection.
pub fn isqrt(v: u128) -> (r: u64)
    ensures
        is_floor_sqrt(r as int, v as int),
        r == floor_sqrt(v as int),
{
    // lo * lo <= v < hi * hi
    let mut lo: u128 = 0;
    let mut hi: u128 = 0x1_0000_0000_0000_0000;
    assert(v < hi * hi);
    while hi - lo > 1
        invariant
            lo < hi <= 0x1_0000_0000_0000_0000,
            lo * lo <= v,
            v < hi * hi,
        decreases hi - lo,
    {
        let mid: u128 = lo + (hi - lo) / 2;
        assert(mid < 0x1_0000_0000_0000_0000);
        assert(mid * mid < 0x1_0000_0000_0000_0000_0000_0000_0000_0000) by (nonlinear_arith)
            requires
                mid < 0x1_0000_0000_0000_0000,
        ;
        if mid * mid <= v {
            lo = mid;
        } else {
            hi = mid;
        }
    }
    assert(hi == lo + 1);
    proof {
        lemma_floor_sqrt_is(lo as int, v as int);
    }
    lo as u64
}

/// Truncating division of a signed value by a positive one.
pub fn div_trunc(a: i128, b: i128) -> (q: i128)
    requires
        b > 0,
        a > i128::MIN,
    ensures
        q == tdiv(a as int, b as int),
{
    if a >= 0 {
        a / b
    } else {
        let n: i128 = -a;
        -(n / b)
    }
}

/// A rounded-down square root exists for every non-negative value.
pub proof fn lemma_floor_sqrt_exists(v: int)
    requires
        v >= 0,
    ensures
        is_floor_sqrt(floor_sqrt(v), v),
{
    let r = lemma_sqrt_witness(v);
    assert(is_floor_sqrt(r, v));
}

proof fn lemma_sqrt_witness(v: int) -> (r: int)
    requires
        v >= 0,
    ensures
        is_floor_sqrt(r, v),
    decreases v,
{
    if v == 0 {
        assert(is_floor_sqrt(0, 0));
        0
    } else {
        let p = lemma_sqrt_witness(v - 1);
        assert(p * p <= v - 1 && v - 1 < (p + 1) * (p + 1));
        if (p + 1) * (p + 1) <= v {
            assert((p + 1) * (p + 1) == v) by (nonlinear_arith)
                requires
                    p * p <= v - 1,
                    v - 1 < (p + 1) * (p + 1),
                    (p + 1) * (p + 1) <= v,
            ;
            assert(v < (p + 2) * (p + 2)) by (nonlinear_arith)
                requires
                    (p + 1) * (p + 1) == v,
                    p >= 0,
            ;
            assert(is_floor_sqrt(p + 1, v));
            p + 1
        } else {
            assert(is_floor_sqrt(p, v));
            p
        }
    }
}

/// The rounded-down square root of a value below `b * b` is below `b`.
pub proof fn lemma_floor_sqrt_bound(v: int, b: int)
    requires
        0 <= v <= b * b,
        b >= 0,
    ensures
        0 <= floor_sqrt(v) <= b,
{
    lemma_floor_sqrt_exists(v);
    let r = floor_sqrt(v);
    if r > b {
        assert(r * r > b * b) by (nonlinear_arith)
            requires
                r > b,
                b >= 0,
        ;
    }
}

/// A component of a vector is no longer than the rounded-down length.
pub proof fn lemma_component_le_len(dx: int, dy: int, len: int)
    requires
        is_floor_sqrt(len, sq_len(dx, dy)),
    ensures
        -len <= dx <= len,
{
    lemma_sq_len_nonneg(dx, dy);
    if dx > len {
        assert(dx * dx >= (len + 1) * (len + 1)) by (nonlinear_arith)
            requires
                dx >= len + 1,
                len >= 0,
        ;
    }
    if dx < -len {
        assert(dx * dx >= (len + 1) * (len + 1)) by (nonlinear_arith)
            requires
                -dx >= len + 1,
                len >= 0,
        ;
    }
}

/// Dividing a value of magnitude at most `m * b` by `b` gives magnitude at
/// most `m`.
pub proof fn lemma_tdiv_bound(a: int, b: int, m: int)
    requires
        b > 0,
        m >= 0,
        -m * b <= a <= m * b,
    ensures
        -m <= tdiv(a, b) <= m,
{
    if a >= 0 {
        assert(a / b <= m) by (nonlinear_arith)
            requires
                0 <= a <= m * b,
                b > 0,
        ;
        assert(a / b >= 0) by (nonlinear_arith)
            requires
                0 <= a,
                b > 0,
        ;
    } else {
        let n = -a;
        assert(n <= m * b) by (nonlinear_arith)
            requires
                n == -a,
                -m * b <= a,
        ;
        assert(n / b <= m) by (nonlinear_arith)
            requires
                0 <= n <= m * b,
                b > 0,
        ;
        assert(n / b >= 0) by (nonlinear_arith)
            requires
                0 <= n,
                b > 0,
        ;
    }
}

/// Truncating division is odd in its dividend.
pub proof fn lemma_tdiv_odd(a: int, b: int)
    requires
        b > 0,
    ensures
        tdiv(-a, b) == -tdiv(a, b),
{
    if a > 0 {
    } else if a < 0 {
    } else {
        assert(0int / b == 0) by (nonlinear_arith)
            requires
                b > 0,
        ;
    }
}

/// A value at least `x` squared has a square root of at least `x`.
pub proof fn lemma_floor_sqrt_ge(x: int, v: int)
    requires
        x >= 0,
        x * x <= v,
    ensures
        floor_sqrt(v) >= x,
{
    assert(v >= 0) by (nonlinear_arith)
        requires
            x * x <= v,
    ;
    lemma_floor_sqrt_exists(v);
    let r = floor_sqrt(v);
    if r < x {
        lemma_square_le(r + 1, x);
    }
}

/// Squaring keeps the order of non-negative values.
pub proof fn lemma_square_le(a: int, b: int)
    requires
        0 <= a <= b,
    ensures
        a * a <= b * b,
{
    assert(a * a <= b * b) by (nonlinear_arith)
        requires
            0 <= a <= b,
    ;
}

} // verus!
