//! Integer arithmetic primitives shared by the unfolding pipeline: floor
//! square root, division truncated toward zero, squared distances, and the
//! (scaled) Heron area form used to recognize degenerate triangles.

use vstd::prelude::*;
use crate::Point3;
use crate::COORD_LIMIT;

verus! {

/// 2^63, the search ceiling of `int_sqrt`.
pub const SQRT_CEIL: u128 = 9223372036854775808;

/// 2^126, the largest admitted `int_sqrt` input bound.
pub const SQRT_INPUT_CEIL: u128 = 85070591730234615865843651857942052864;

/// Floor of the square root of `n` (0 for negative `n`).
pub open spec fn sqrt_floor(n: int) -> int
    decreases n,
{
    if n < 1 {
        0
    } else {
        let r = sqrt_floor(n - 1);
        if (r + 1) * (r + 1) <= n {
            r + 1
        } else {
            r
        }
    }
}

/// `sqrt_floor(n)` is the unique integer whose square brackets `n`.
pub proof fn lemma_sqrt_floor_bracket(n: int)
    requires
        n >= 0,
    ensures
        0 <= sqrt_floor(n),
        sqrt_floor(n) * sqrt_floor(n) <= n,
        n < (sqrt_floor(n) + 1) * (sqrt_floor(n) + 1),
    decreases n,
{
    if n < 1 {
    } else {
        lemma_sqrt_floor_bracket(n - 1);
        let r = sqrt_floor(n - 1);
        if (r + 1) * (r + 1) <= n {
            assert(n - 1 < (r + 1) * (r + 1));
            assert((r + 1) * (r + 1) == n);
            assert((r + 2) * (r + 2) == (r + 1) * (r + 1) + 2 * r + 3) by (nonlinear_arith);
        } else {
        }
    }
}

/// Any integer whose square brackets `n` is `sqrt_floor(n)`.
pub proof fn lemma_sqrt_floor_unique(n: int, r: int)
    requires
        0 <= r,
        r * r <= n,
        n < (r + 1) * (r + 1),
    ensures
        r == sqrt_floor(n),
{
    lemma_sqrt_floor_bracket(n);
    let s = sqrt_floor(n);
    if r < s {
        assert((r + 1) * (r + 1) <= s * s) by (nonlinear_arith)
            requires
                0 <= r + 1 <= s,
        ;
    }
    if s < r {
        assert((s + 1) * (s + 1) <= r * r) by (nonlinear_arith)
            requires
                0 <= s + 1 <= r,
        ;
    }
}

/// An upper bound on a square is an upper bound on `sqrt_floor`.
pub proof fn lemma_sqrt_floor_bounded(n: int, b: int)
    requires
        0 <= n,
        0 <= b,
        n < (b + 1) * (b + 1),
    ensures
        sqrt_floor(n) <= b,
{
    lemma_sqrt_floor_bracket(n);
    let s = sqrt_floor(n);
    if b < s {
        assert((b + 1) * (b + 1) <= s * s) by (nonlinear_arith)
            requires
                0 <= b + 1 <= s,
        ;
    }
}

/// Floor square root by bisection.
pub fn int_sqrt(n: u128) -> (r: u128)
    requires
        n < SQRT_INPUT_CEIL,
    ensures
        r == sqrt_floor(n as int),
        r * r <= n,
        n < (r + 1) * (r + 1),
        r < SQRT_CEIL,
{
    let mut lo: u128 = 0;
    let mut hi: u128 = SQRT_CEIL;
    assert(SQRT_CEIL * SQRT_CEIL == SQRT_INPUT_CEIL) by (nonlinear_arith);
    while lo + 1 < hi
        invariant
            lo < hi,
            hi <= SQRT_CEIL,
            n < SQRT_INPUT_CEIL,
            lo * lo <= n,
            n < hi * hi,
        decreases hi - lo,
    {
        let mid = lo + (hi - lo) / 2;
        assert(lo < mid < hi);
        assert(mid * mid < SQRT_INPUT_CEIL) by (nonlinear_arith)
            requires
                0 <= mid < SQRT_CEIL,
                SQRT_CEIL * SQRT_CEIL == SQRT_INPUT_CEIL,
        ;
        if mid * mid <= n {
            lo = mid;
        } else {
            hi = mid;
        }
    }
    proof {
        assert(hi == lo + 1);
        lemma_sqrt_floor_unique(n as int, lo as int);
    }
    lo
}

/// Quotient of `n` by positive `d`, truncated toward zero.
pub open spec fn div_trunc(n: int, d: int) -> int {
    if n >= 0 {
        n / d
    } else {
        -((-n) / d)
    }
}

/// Truncating division never overshoots a multiple of the divisor that
/// bounds the dividend.
pub proof fn lemma_div_trunc_bound(n: int, d: int, q: int)
    requires
        1 <= d,
        0 <= q,
        -(q * d) <= n <= q * d,
    ensures
        -q <= div_trunc(n, d) <= q,
{
    if n >= 0 {
        vstd::arithmetic::div_mod::lemma_div_is_ordered(n, q * d, d);
        vstd::arithmetic::div_mod::lemma_div_by_multiple(q, d);
        vstd::arithmetic::div_mod::lemma_div_pos_is_pos(n, d);
        assert(n / d <= (q * d) / d);
        assert((q * d) / d == q);
        assert(0 <= n / d);
        assert(div_trunc(n, d) == n / d);
    } else {
        vstd::arithmetic::div_mod::lemma_div_is_ordered(-n, q * d, d);
        vstd::arithmetic::div_mod::lemma_div_by_multiple(q, d);
        vstd::arithmetic::div_mod::lemma_div_pos_is_pos(-n, d);
        assert((-n) / d <= (q * d) / d);
        assert((q * d) / d == q);
        assert(0 <= (-n) / d);
        assert(div_trunc(n, d) == -((-n) / d));
        assert(-q <= -((-n) / d) <= 0);
    }
}

/// Division truncated toward zero, on magnitudes that stay well inside
/// the 128-bit range.
pub fn div_toward_zero(n: i128, d: i128) -> (q: i128)
    requires
        1 <= d,
        -170141183460469231731687303715884105727 <= n,
    ensures
        q == div_trunc(n as int, d as int),
{
    if n >= 0 {
        let m: u128 = n as u128;
        let dd: u128 = d as u128;
        let qq: u128 = m / dd;
        proof {
            vstd::arithmetic::div_mod::lemma_div_is_ordered_by_denominator(m as int, 1, dd as int);
            vstd::arithmetic::div_mod::lemma_div_pos_is_pos(m as int, dd as int);
        }
        qq as i128
    } else {
        let m: u128 = (-n) as u128;
        let dd: u128 = d as u128;
        let qq: u128 = m / dd;
        proof {
            vstd::arithmetic::div_mod::lemma_div_is_ordered_by_denominator(m as int, 1, dd as int);
            vstd::arithmetic::div_mod::lemma_div_pos_is_pos(m as int, dd as int);
        }
        -(qq as i128)
    }
}

/// Sixteen times the squared area of a triangle with squared side lengths
/// `x`, `y`, `z` (Heron's formula, symmetric in the three sides).
pub open spec fn heron16(x: int, y: int, z: int) -> int {
    2 * x * y + 2 * y * z + 2 * z * x - x * x - y * y - z * z
}

/// The form of `heron16` the unfolding step actually computes.
pub proof fn lemma_heron16_as_discriminant(x: int, y: int, z: int)
    ensures
        heron16(x, y, z) == 4 * x * y - (x + y - z) * (x + y - z),
{
    assert(2 * x * y + 2 * y * z + 2 * z * x - x * x - y * y - z * z == 4 * x * y - (x + y - z) * (
    x + y - z)) by (nonlinear_arith);
}

/// Squared Euclidean distance between two 3-D points.
pub open spec fn dist3_sq(a: Point3, b: Point3) -> int {
    (a.x - b.x) * (a.x - b.x) + (a.y - b.y) * (a.y - b.y) + (a.z - b.z) * (a.z - b.z)
}

/// A point whose coordinates all lie within the admitted input range.
pub open spec fn point3_bounded(p: Point3) -> bool {
    -COORD_LIMIT <= p.x <= COORD_LIMIT && -COORD_LIMIT <= p.y <= COORD_LIMIT && -COORD_LIMIT <= p.z
        <= COORD_LIMIT
}

/// Largest squared distance between two in-range 3-D points:
/// `3 * (2 * COORD_LIMIT)^2`.
pub const DIST3_SQ_MAX: i64 = 12582912;

/// Squared distance of two in-range points, with its range.
pub fn sq_dist3(a: Point3, b: Point3) -> (r: i64)
    requires
        point3_bounded(a),
        point3_bounded(b),
    ensures
        r == dist3_sq(a, b),
        0 <= r <= DIST3_SQ_MAX,
{
    let dx = a.x - b.x;
    let dy = a.y - b.y;
    let dz = a.z - b.z;
    proof {
        assert(dx * dx <= 4194304 && dx * dx >= 0) by (nonlinear_arith)
            requires
                -2048 <= dx <= 2048,
        ;
        assert(dy * dy <= 4194304 && dy * dy >= 0) by (nonlinear_arith)
            requires
                -2048 <= dy <= 2048,
        ;
        assert(dz * dz <= 4194304 && dz * dz >= 0) by (nonlinear_arith)
            requires
                -2048 <= dz <= 2048,
        ;
    }
    dx * dx + dy * dy + dz * dz
}

} // verus!
