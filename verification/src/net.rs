//! Unfolding proper: the rigid placement of each face into the plane.
//!
//! The root face is laid down canonically (first vertex at the origin,
//! first edge along the x-axis); every other face is placed by hinging it
//! open about the edge it shares with its already-placed parent. The two
//! shared vertices are copied from the parent exactly, and the free vertex
//! is resolved, from the child's own 3-D edge lengths, to the side of the
//! shared edge away from the parent's free vertex.

use vstd::prelude::*;
use crate::geom::div_trunc;
use crate::geom::div_toward_zero;
use crate::geom::dist3_sq;
use crate::geom::heron16;
use crate::geom::int_sqrt;
use crate::geom::lemma_heron16_as_discriminant;
use crate::geom::lemma_sqrt_floor_bounded;
use crate::geom::lemma_sqrt_floor_bracket;
use crate::geom::point3_bounded;
use crate::geom::sq_dist3;
use crate::geom::sqrt_floor;
use crate::geom::DIST3_SQ_MAX;
use crate::mesh::he_dest;
use crate::mesh::he_endpoints;
use crate::mesh::he_origin;
use crate::mesh::tri_vertex;
use crate::mesh::HalfEdgeMesh;
use crate::tree::SpanningTree;
use crate::tree::TreeLink;
use crate::Point2;
use crate::Point3;
use crate::UnfoldError;
use crate::MAX_FACES;

verus! {

/// Largest coordinate magnitude the placement kernel admits for
/// already-placed points: 2^39.
pub const PLACED_LIMIT: i64 = 549755813888;

/// Bound on how far one placement step can move past its parent's
/// coordinates: 2^26.
pub const GROWTH_LIMIT: i64 = 67108864;

/// Absolute value.
pub open spec fn iabs(n: int) -> int {
    if n >= 0 {
        n
    } else {
        -n
    }
}

/// Maximum of two integers.
pub open spec fn imax(a: int, b: int) -> int {
    if a >= b {
        a
    } else {
        b
    }
}

/// Squared planar distance.
pub open spec fn dist2_sq(a: Point2, b: Point2) -> int {
    (a.x - b.x) * (a.x - b.x) + (a.y - b.y) * (a.y - b.y)
}

/// Sign that puts the apex on the side of the directed edge `p -> q`
/// opposite the reference point `f` (ties fall to the left side).
pub open spec fn side_sign(p: Point2, q: Point2, f: Point2) -> int {
    let cross = (q.x - p.x) * (f.y - p.y) - (q.y - p.y) * (f.x - p.x);
    if cross > 0 {
        -1
    } else {
        1
    }
}

/// X coordinate of the apex of a triangle hinged on the placed segment
/// `p -> q`, whose free vertex lies at squared 3-D distance `a2` from
/// `p`'s vertex and `b2` from `q`'s; `sgn == 1` places it to the left of
/// `p -> q`. If the placed segment has collapsed to a point the apex
/// falls on `p`.
pub open spec fn apex_x(p: Point2, q: Point2, a2: int, b2: int, sgn: int) -> int {
    let ex = q.x - p.x;
    let ey = q.y - p.y;
    let d2 = ex * ex + ey * ey;
    if d2 == 0 {
        p.x as int
    } else {
        let t1 = d2 + a2 - b2;
        let s16 = 4 * d2 * a2 - t1 * t1;
        let t2 = sqrt_floor(
            if s16 > 0 {
                s16
            } else {
                0
            },
        );
        div_trunc((p.x + q.x) * d2 + (a2 - b2) * ex - sgn * t2 * ey, 2 * d2)
    }
}

/// Y coordinate of the hinged apex; see `apex_x`.
pub open spec fn apex_y(p: Point2, q: Point2, a2: int, b2: int, sgn: int) -> int {
    let ex = q.x - p.x;
    let ey = q.y - p.y;
    let d2 = ex * ex + ey * ey;
    if d2 == 0 {
        p.y as int
    } else {
        let t1 = d2 + a2 - b2;
        let s16 = 4 * d2 * a2 - t1 * t1;
        let t2 = sqrt_floor(
            if s16 > 0 {
                s16
            } else {
                0
            },
        );
        div_trunc((p.y + q.y) * d2 + (a2 - b2) * ey + sgn * t2 * ex, 2 * d2)
    }
}

/// Edge lengths are preserved by the hinge up to integer rounding: with
/// the exact (un-rounded) square root `w` of the area term, the apex's
/// offset numerators from `p` in `apex_x`/`apex_y` put the free vertex
/// at squared distance exactly `a2` from `p` and `b2` from `q`, scaled
/// by `(2 * d2)^2`. The floor square root and the truncating division
/// each move the apex by less than one grid unit from that exact point.
pub proof fn lemma_hinge_preserves_lengths(
    ex: int,
    ey: int,
    d2: int,
    a2: int,
    b2: int,
    t1: int,
    w: int,
)
    requires
        d2 == ex * ex + ey * ey,
        t1 == d2 + a2 - b2,
        w * w == 4 * d2 * a2 - t1 * t1,
    ensures
        ({
            let nx = t1 * ex - w * ey;
            let ny = t1 * ey + w * ex;
            &&& nx * nx + ny * ny == (2 * d2) * (2 * d2) * a2
            &&& (nx - 2 * d2 * ex) * (nx - 2 * d2 * ex) + (ny - 2 * d2 * ey) * (ny - 2 * d2 * ey)
                == (2 * d2) * (2 * d2) * b2
        }),
{
    let nx = t1 * ex - w * ey;
    let ny = t1 * ey + w * ex;
    lemma_rotation_norm(t1, w, ex, ey);
    assert((t1 * t1 + w * w) * (ex * ex + ey * ey) == (2 * d2) * (2 * d2) * a2)
        by (nonlinear_arith)
        requires
            d2 == ex * ex + ey * ey,
            t1 * t1 + w * w == 4 * d2 * a2,
    ;
    let mx = nx - 2 * d2 * ex;
    let my = ny - 2 * d2 * ey;
    let u1 = t1 - 2 * d2;
    assert(mx == u1 * ex - w * ey && my == u1 * ey + w * ex) by (nonlinear_arith)
        requires
            mx == nx - 2 * d2 * ex,
            my == ny - 2 * d2 * ey,
            nx == t1 * ex - w * ey,
            ny == t1 * ey + w * ex,
            u1 == t1 - 2 * d2,
    ;
    lemma_rotation_norm(u1, w, ex, ey);
    assert(u1 * u1 + w * w == 4 * d2 * b2) by (nonlinear_arith)
        requires
            w * w == 4 * d2 * a2 - t1 * t1,
            t1 == d2 + a2 - b2,
            u1 == t1 - 2 * d2,
    ;
    assert((4 * d2 * b2) * (ex * ex + ey * ey) == (2 * d2) * (2 * d2) * b2) by (nonlinear_arith)
        requires
            d2 == ex * ex + ey * ey,
    ;
}

/// Applying the scaled rotation `(c, s)` to `(x, y)` scales the squared
/// norm by `c^2 + s^2`.
proof fn lemma_rotation_norm(c: int, s: int, x: int, y: int)
    ensures
        (c * x - s * y) * (c * x - s * y) + (c * y + s * x) * (c * y + s * x) == (c * c + s * s) * (
        x * x + y * y),
{
    let p1 = c * x;
    let p2 = s * y;
    let p3 = c * y;
    let p4 = s * x;
    assert(p1 * p2 == p3 * p4) by (nonlinear_arith)
        requires
            p1 == c * x,
            p2 == s * y,
            p3 == c * y,
            p4 == s * x,
    ;
    assert((p1 - p2) * (p1 - p2) == p1 * p1 - 2 * (p1 * p2) + p2 * p2) by (nonlinear_arith);
    assert((p3 + p4) * (p3 + p4) == p3 * p3 + 2 * (p3 * p4) + p4 * p4) by (nonlinear_arith);
    assert(p1 * p1 + p4 * p4 == (c * c + s * s) * (x * x)) by (nonlinear_arith)
        requires
            p1 == c * x,
            p4 == s * x,
    ;
    assert(p2 * p2 + p3 * p3 == (c * c + s * s) * (y * y)) by (nonlinear_arith)
        requires
            p2 == s * y,
            p3 == c * y,
    ;
    assert((c * c + s * s) * (x * x) + (c * c + s * s) * (y * y) == (c * c + s * s) * (x * x + y
        * y)) by (nonlinear_arith);
}

/// Place the apex of a triangle hinged on the placed segment `p -> q`.
///
/// Computes exactly `apex_x`/`apex_y`, and moves at most `GROWTH_LIMIT`
/// past the segment's own coordinate range.
fn place_apex(p: Point2, q: Point2, a2: i64, b2: i64, sgn: i64) -> (r: Point2)
    requires
        -PLACED_LIMIT <= p.x <= PLACED_LIMIT,
        -PLACED_LIMIT <= p.y <= PLACED_LIMIT,
        -PLACED_LIMIT <= q.x <= PLACED_LIMIT,
        -PLACED_LIMIT <= q.y <= PLACED_LIMIT,
        0 <= a2 <= DIST3_SQ_MAX,
        0 <= b2 <= DIST3_SQ_MAX,
        sgn == 1 || sgn == -1,
    ensures
        r.x == apex_x(p, q, a2 as int, b2 as int, sgn as int),
        r.y == apex_y(p, q, a2 as int, b2 as int, sgn as int),
        iabs(r.x as int) <= imax(iabs(p.x as int), iabs(q.x as int)) + GROWTH_LIMIT,
        iabs(r.y as int) <= imax(iabs(p.y as int), iabs(q.y as int)) + GROWTH_LIMIT,
{
    let px = p.x as i128;
    let py = p.y as i128;
    let qx = q.x as i128;
    let qy = q.y as i128;
    let ex = qx - px;
    let ey = qy - py;
    proof {
        assert(ex * ex <= 1208925819614629174706176 && ex * ex >= 0) by (nonlinear_arith)
            requires
                -1099511627776 <= ex <= 1099511627776,
        ;
        assert(ey * ey <= 1208925819614629174706176 && ey * ey >= 0) by (nonlinear_arith)
            requires
                -1099511627776 <= ey <= 1099511627776,
        ;
    }
    let d2 = ex * ex + ey * ey;
    if d2 == 0 {
        return Point2 { x: p.x, y: p.y };
    }
    let a2i = a2 as i128;
    let b2i = b2 as i128;
    let t1 = d2 + a2i - b2i;
    let t1a = if t1 >= 0 {
        t1
    } else {
        -t1
    };
    let ghost s16g: int = 4 * (d2 as int) * (a2i as int) - (t1 as int) * (t1 as int);
    let ghost s16c: int = if s16g > 0 {
        s16g
    } else {
        0
    };
    proof {
        assert(4 * d2 * a2i <= 121694457621910022543683507716096 && 4 * d2 * a2i >= 0)
            by (nonlinear_arith)
            requires
                1 <= d2 <= 2417851639229258349412352,
                0 <= a2i <= 12582912,
        ;
    }
    let t2: i128;
    if t1a > 18014398509481984 {
        proof {
            assert(t1 * t1 > 4 * d2 * a2i) by (nonlinear_arith)
                requires
                    t1a > 18014398509481984,
                    t1a == t1 || t1a == -t1,
                    t1 * t1 == t1a * t1a,
                    0 <= 4 * d2 * a2i <= 121694457621910022543683507716096,
            ;
            assert(s16c == 0);
        }
        t2 = 0;
    } else {
        proof {
            assert(t1 * t1 <= 324518553658426726783156020576256 && t1 * t1 >= 0)
                by (nonlinear_arith)
                requires
                    -18014398509481984 <= t1 <= 18014398509481984,
            ;
        }
        let s16 = 4 * d2 * a2i - t1 * t1;
        if s16 > 0 {
            let rt = int_sqrt(s16 as u128);
            proof {
                assert(rt * rt <= s16 as u128);
            }
            t2 = rt as i128;
        } else {
            t2 = 0;
        }
    }
    proof {
        lemma_sqrt_floor_bracket(s16c);
        if s16c > 0 {
            lemma_sqrt_floor_bounded(s16c, 11258999068426240);
            assert(s16c < (11258999068426240 + 1) * (11258999068426240 + 1)) by (nonlinear_arith)
                requires
                    s16c <= 121694457621910022543683507716096,
            ;
        }
        assert(t2 == sqrt_floor(s16c));
        assert(0 <= t2 <= 11258999068426240);
    }
    let sg = sgn as i128;
    proof {
        assert(-5316911983139663491615228241121378304 <= (px + qx) * d2
            <= 5316911983139663491615228241121378304) by (nonlinear_arith)
            requires
                -2199023255552 <= px + qx <= 2199023255552,
                0 <= d2 <= 2417851639229258349412352,
        ;
        assert(-5316911983139663491615228241121378304 <= (py + qy) * d2
            <= 5316911983139663491615228241121378304) by (nonlinear_arith)
            requires
                -2199023255552 <= py + qy <= 2199023255552,
                0 <= d2 <= 2417851639229258349412352,
        ;
        assert(-13835058055282163712 <= (a2i - b2i) * ex <= 13835058055282163712)
            by (nonlinear_arith)
            requires
                -12582912 <= a2i - b2i <= 12582912,
                -1099511627776 <= ex <= 1099511627776,
        ;
        assert(-13835058055282163712 <= (a2i - b2i) * ey <= 13835058055282163712)
            by (nonlinear_arith)
            requires
                -12582912 <= a2i - b2i <= 12582912,
                -1099511627776 <= ey <= 1099511627776,
        ;
        assert(-12379400392853802748991242240 <= sg * t2 * ey <= 12379400392853802748991242240)
            by (nonlinear_arith)
            requires
                sg == 1 || sg == -1,
                0 <= t2 <= 11258999068426240,
                -1099511627776 <= ey <= 1099511627776,
        ;
        assert(-12379400392853802748991242240 <= sg * t2 * ex <= 12379400392853802748991242240)
            by (nonlinear_arith)
            requires
                sg == 1 || sg == -1,
                0 <= t2 <= 11258999068426240,
                -1099511627776 <= ex <= 1099511627776,
        ;
    }
    proof {
        assert(-11258999068426240 <= sg * t2 <= 11258999068426240) by (nonlinear_arith)
            requires
                sg == 1 || sg == -1,
                0 <= t2 <= 11258999068426240,
        ;
    }
    let numx = (px + qx) * d2 + (a2i - b2i) * ex - sg * t2 * ey;
    let numy = (py + qy) * d2 + (a2i - b2i) * ey + sg * t2 * ex;
    proof {
        assert((-(ey as int)) * (-(ey as int)) == (ey as int) * (ey as int)) by (nonlinear_arith);
        assert(sg as int * (t2 as int) * (-(ey as int)) == -(sg as int * (t2 as int) * (
        ey as int))) by (nonlinear_arith);
        lemma_apex_num_bound(
            px as int + qx as int,
            a2i as int,
            b2i as int,
            ex as int,
            -(ey as int),
            d2 as int,
            sg as int,
            t2 as int,
            s16c,
        );
        lemma_apex_num_bound(
            py as int + qy as int,
            a2i as int,
            b2i as int,
            ey as int,
            ex as int,
            d2 as int,
            sg as int,
            t2 as int,
            s16c,
        );
    }
    proof {
        let kx = iabs(px as int + qx as int) / 2 + 6305649;
        let ky = iabs(py as int + qy as int) / 2 + 6305649;
        assert(kx * (2 * (d2 as int)) == 2 * (d2 as int) * kx) by (nonlinear_arith);
        assert(ky * (2 * (d2 as int)) == 2 * (d2 as int) * ky) by (nonlinear_arith);
    }
    let rx = div_toward_zero(numx, 2 * d2);
    let ry = div_toward_zero(numy, 2 * d2);
    proof {
        let kx = iabs(px as int + qx as int) / 2 + 6305649;
        let ky = iabs(py as int + qy as int) / 2 + 6305649;
        crate::geom::lemma_div_trunc_bound(numx as int, 2 * (d2 as int), kx);
        crate::geom::lemma_div_trunc_bound(numy as int, 2 * (d2 as int), ky);
        let mx = imax(iabs(p.x as int), iabs(q.x as int));
        let my = imax(iabs(p.y as int), iabs(q.y as int));
        vstd::arithmetic::div_mod::lemma_div_is_ordered(iabs(px as int + qx as int), 2 * mx, 2);
        vstd::arithmetic::div_mod::lemma_div_multiples_vanish(mx, 2);
        vstd::arithmetic::div_mod::lemma_div_is_ordered(iabs(py as int + qy as int), 2 * my, 2);
        vstd::arithmetic::div_mod::lemma_div_multiples_vanish(my, 2);
        assert(iabs(px as int + qx as int) / 2 <= mx);
        assert(iabs(py as int + qy as int) / 2 <= my);
    }
    Point2 { x: rx as i64, y: ry as i64 }
}

/// The numerator of one apex coordinate is at most
/// `2 * d2 * (|s| / 2 + 6305649)`, where `s` is the placed coordinate sum:
/// each step stays within `GROWTH_LIMIT` of its parent's range.
proof fn lemma_apex_num_bound(
    s: int,
    a2: int,
    b2: int,
    e1: int,
    e2: int,
    d2: int,
    sg: int,
    t2: int,
    s16c: int,
)
    requires
        1 <= d2,
        e1 * e1 <= d2,
        e2 * e2 <= d2,
        0 <= a2 <= 12582912,
        0 <= b2 <= 12582912,
        sg == 1 || sg == -1,
        0 <= t2,
        t2 * t2 <= s16c,
        s16c <= 4 * d2 * a2,
    ensures
        -(2 * d2 * (iabs(s) / 2 + 6305649)) <= s * d2 + (a2 - b2) * e1 + sg * t2 * e2 <= 2 * d2 * (
        iabs(s) / 2 + 6305649),
{
    let sa = sqrt_floor(a2);
    let sd = sqrt_floor(d2);
    lemma_sqrt_floor_bracket(a2);
    lemma_sqrt_floor_bracket(d2);
    lemma_sqrt_floor_bounded(a2, 3547);
    assert(sd >= 1) by {
        if sd == 0 {
            assert(d2 < 1) by (nonlinear_arith)
                requires
                    sd == 0,
                    d2 < (sd + 1) * (sd + 1),
            ;
        }
    }
    // |e1| <= d2 and |e2| <= sd
    assert(iabs(e1) <= d2) by (nonlinear_arith)
        requires
            e1 * e1 <= d2,
            1 <= d2,
    ;
    assert(iabs(e2) <= sd) by (nonlinear_arith)
        requires
            e2 * e2 <= d2,
            0 <= sd,
            d2 < (sd + 1) * (sd + 1),
    ;
    // t2 <= 2 * (sd + 1) * (sa + 1)
    assert(4 * d2 * a2 < (2 * ((sd + 1) * (sa + 1))) * (2 * ((sd + 1) * (sa + 1))))
        by (nonlinear_arith)
        requires
            0 <= d2 < (sd + 1) * (sd + 1),
            0 <= a2 < (sa + 1) * (sa + 1),
            sd >= 0,
            sa >= 0,
    ;
    assert(t2 <= 2 * ((sd + 1) * (sa + 1))) by (nonlinear_arith)
        requires
            0 <= t2,
            t2 * t2 <= 4 * d2 * a2,
            4 * d2 * a2 < (2 * ((sd + 1) * (sa + 1))) * (2 * ((sd + 1) * (sa + 1))),
            sd >= 0,
            sa >= 0,
    ;
    // t2 * |e2| <= 8 * d2 * (sa + 1)
    assert(t2 * iabs(e2) <= 8 * d2 * (sa + 1)) by (nonlinear_arith)
        requires
            0 <= t2 <= 2 * ((sd + 1) * (sa + 1)),
            0 <= iabs(e2) <= sd,
            1 <= sd,
            sd * sd <= d2,
            0 <= sa,
    ;
    // assemble the three terms
    assert(t2 * iabs(e2) <= 8 * d2 * 3548) by (nonlinear_arith)
        requires
            t2 * iabs(e2) <= 8 * d2 * (sa + 1),
            0 <= sa <= 3547,
            1 <= d2,
    ;
    assert(iabs((a2 - b2) * e1) <= 12582912 * d2) by (nonlinear_arith)
        requires
            -12582912 <= a2 - b2 <= 12582912,
            iabs(e1) <= d2,
            1 <= d2,
    ;
    assert(iabs(sg * t2 * e2) <= 8 * d2 * 3548) by (nonlinear_arith)
        requires
            sg == 1 || sg == -1,
            0 <= t2,
            t2 * iabs(e2) <= 8 * d2 * 3548,
    ;
    assert(iabs(s * d2) <= iabs(s) * d2) by (nonlinear_arith)
        requires
            1 <= d2,
    ;
    let total = iabs(s) * d2 + 12582912 * d2 + 8 * d2 * 3548;
    assert(iabs(s * d2 + (a2 - b2) * e1 + sg * t2 * e2) <= total);
    assert(total <= 2 * d2 * (iabs(s) / 2 + 6305649)) by (nonlinear_arith)
        requires
            total == iabs(s) * d2 + 12582912 * d2 + 8 * d2 * 3548,
            1 <= d2,
            0 <= iabs(s),
            iabs(s) / 2 >= (iabs(s) - 1) / 2,
            iabs(s) <= 2 * (iabs(s) / 2) + 1,
    ;
}

/// 3-D position of the `k % 3`-rd corner of face `f`.
pub open spec fn corner3(m: HalfEdgeMesh, f: int, k: int) -> Point3 {
    m.vertices@[tri_vertex(m.faces@[f], k) as int]
}

/// Face `f`'s 3-D edge lengths cannot form a triangle of positive area.
pub open spec fn face_degenerate(m: HalfEdgeMesh, f: int) -> bool {
    heron16(
        dist3_sq(corner3(m, f, 0), corner3(m, f, 1)),
        dist3_sq(corner3(m, f, 0), corner3(m, f, 2)),
        dist3_sq(corner3(m, f, 1), corner3(m, f, 2)),
    ) <= 0
}

/// All mesh vertices lie within the admitted coordinate range.
pub open spec fn mesh_coords_bounded(m: HalfEdgeMesh) -> bool {
    forall|v: int| 0 <= v < m.vertices@.len() ==> point3_bounded(#[trigger] m.vertices@[v])
}

/// The `k % 3`-rd point of a placed triangle.
pub open spec fn tri_pt(pp: (Point2, Point2, Point2), k: int) -> Point2 {
    if k % 3 == 0 {
        pp.0
    } else if k % 3 == 1 {
        pp.1
    } else {
        pp.2
    }
}

/// A placed triangle whose `k % 3`-rd point is `s0`, followed by `s1`
/// and then `apex`.
pub open spec fn mk_tri(k: int, s0: Point2, s1: Point2, apex: Point2) -> (Point2, Point2, Point2) {
    if k % 3 == 0 {
        (s0, s1, apex)
    } else if k % 3 == 1 {
        (apex, s0, s1)
    } else {
        (s1, apex, s0)
    }
}

/// All six coordinates of a placed triangle are bounded by `b`.
pub open spec fn tri_bounded(tt: (Point2, Point2, Point2), b: int) -> bool {
    &&& iabs(tt.0.x as int) <= b && iabs(tt.0.y as int) <= b
    &&& iabs(tt.1.x as int) <= b && iabs(tt.1.y as int) <= b
    &&& iabs(tt.2.x as int) <= b && iabs(tt.2.y as int) <= b
}

/// The canonical placement of the root face: first vertex at the origin,
/// first edge along the positive x-axis, apex to the left.
pub open spec fn root_tri(m: HalfEdgeMesh, f: int) -> (Point2, Point2, Point2) {
    let el = sqrt_floor(dist3_sq(corner3(m, f, 0), corner3(m, f, 1)));
    let p0 = Point2 { x: 0, y: 0 };
    let p1 = Point2 { x: el as i64, y: 0 };
    let a2 = dist3_sq(corner3(m, f, 0), corner3(m, f, 2));
    let b2 = dist3_sq(corner3(m, f, 1), corner3(m, f, 2));
    (
        p0,
        p1,
        Point2 { x: apex_x(p0, p1, a2, b2, 1) as i64, y: apex_y(p0, p1, a2, b2, 1) as i64 },
    )
}

/// The placement of a child face given its parent's placed triangle
/// `pp` and the tree link `l` into the child `c`: the two shared
/// vertices are copied from the parent, and the apex is hinged open to
/// the side away from the parent's free vertex.
pub open spec fn child_tri(m: HalfEdgeMesh, l: TreeLink, c: int, pp: (Point2, Point2, Point2)) -> (
    Point2,
    Point2,
    Point2,
) {
    let h = l.via as int;
    let j = h % 3;
    let t = m.twin@[h]->Some_0 as int;
    let k = t % 3;
    let u = he_origin(m.faces@, h);
    let cu = he_origin(m.faces@, t);
    let cv = he_dest(m.faces@, t);
    let pu = tri_pt(pp, j);
    let pv = tri_pt(pp, j + 1);
    let pf = tri_pt(pp, j + 2);
    let s0 = if cu == u {
        pu
    } else {
        pv
    };
    let s1 = if cu == u {
        pv
    } else {
        pu
    };
    let w = corner3(m, c, k + 2);
    let a2 = dist3_sq(m.vertices@[cu as int], w);
    let b2 = dist3_sq(m.vertices@[cv as int], w);
    let sgn = side_sign(s0, s1, pf);
    mk_tri(
        k,
        s0,
        s1,
        Point2 { x: apex_x(s0, s1, a2, b2, sgn) as i64, y: apex_y(s0, s1, a2, b2, sgn) as i64 },
    )
}

/// The relation between a mesh, a spanning tree and a finished layout:
/// exactly the tree's faces are placed, the root canonically, and every
/// other face by hinging off its parent's placement.
pub open spec fn layout_valid(
    m: HalfEdgeMesh,
    tr: SpanningTree,
    lay: Seq<Option<(Point2, Point2, Point2)>>,
) -> bool {
    &&& lay.len() == m.faces@.len()
    &&& forall|f: int| 0 <= f < lay.len() ==> ((#[trigger] lay[f]) is Some <==> tr.in_tree(f))
    &&& 0 <= tr.root < lay.len()
    &&& lay[tr.root as int] == Some(root_tri(m, tr.root as int))
    &&& forall|c: int|
        0 <= c < lay.len() && c != tr.root ==> ((#[trigger] tr.parent@[c]) matches Some(l) ==> (0
            <= l.parent < lay.len() && (lay[l.parent as int] matches Some(pt) && lay[c] == Some(
            child_tri(m, l, c, pt)))))
}

/// Whether face `f`'s 3-D edge lengths degenerate (zero area).
fn check_degenerate(m: &HalfEdgeMesh, f: usize) -> (r: bool)
    requires
        m.wf(),
        f < m.faces@.len(),
        mesh_coords_bounded(*m),
    ensures
        r == face_degenerate(*m, f as int),
{
    let (c0, c1, c2) = m.face_positions(f);
    proof {
        assert(point3_bounded(m.vertices@[m.faces@[f as int].0 as int]));
        assert(point3_bounded(m.vertices@[m.faces@[f as int].1 as int]));
        assert(point3_bounded(m.vertices@[m.faces@[f as int].2 as int]));
    }
    let d01 = sq_dist3(c0, c1);
    let d02 = sq_dist3(c0, c2);
    let d12 = sq_dist3(c1, c2);
    let t1c = d01 + d02 - d12;
    proof {
        assert(4 * d01 * d02 <= 633318697598976 && 4 * d01 * d02 >= 0) by (nonlinear_arith)
            requires
                0 <= d01 <= 12582912,
                0 <= d02 <= 12582912,
        ;
        assert(t1c * t1c <= 633318697598976 && t1c * t1c >= 0) by (nonlinear_arith)
            requires
                -12582912 <= t1c <= 25165824,
        ;
        lemma_heron16_as_discriminant(d01 as int, d02 as int, d12 as int);
    }
    let her = 4 * d01 * d02 - t1c * t1c;
    her <= 0
}

/// Canonical placement of the root face.
fn place_root(m: &HalfEdgeMesh, f: usize) -> (tt: (Point2, Point2, Point2))
    requires
        m.wf(),
        mesh_coords_bounded(*m),
        f < m.faces@.len(),
    ensures
        tt == root_tri(*m, f as int),
        tri_bounded(tt, 3548 + GROWTH_LIMIT as int),
{
    let (c0, c1, c2) = m.face_positions(f);
    proof {
        assert(point3_bounded(m.vertices@[m.faces@[f as int].0 as int]));
        assert(point3_bounded(m.vertices@[m.faces@[f as int].1 as int]));
        assert(point3_bounded(m.vertices@[m.faces@[f as int].2 as int]));
    }
    let d01 = sq_dist3(c0, c1);
    let a2 = sq_dist3(c0, c2);
    let b2 = sq_dist3(c1, c2);
    proof {
        lemma_sqrt_floor_bracket(d01 as int);
        lemma_sqrt_floor_bounded(d01 as int, 3547);
        assert(12582912 < 3548 * 3548) by (nonlinear_arith);
    }
    let el64 = int_sqrt(d01 as u128) as i64;
    let p0 = Point2 { x: 0, y: 0 };
    let p1 = Point2 { x: el64, y: 0 };
    let apex = place_apex(p0, p1, a2, b2, 1);
    (p0, p1, apex)
}

/// Placement of child face `c` hinged on its parent's placed triangle.
#[verifier::rlimit(80)]
fn place_child(
    m: &HalfEdgeMesh,
    l: TreeLink,
    c: usize,
    pt: (Point2, Point2, Point2),
    Ghost(b): Ghost<int>,
) -> (tt: (Point2, Point2, Point2))
    requires
        m.wf(),
        mesh_coords_bounded(*m),
        (c as int) < m.faces@.len(),
        (l.parent as int) < m.faces@.len(),
        l.via < m.twin@.len(),
        (l.via as int) / 3 == l.parent,
        m.twin@[l.via as int] matches Some(t) && t as int / 3 == c,
        0 <= b,
        tri_bounded(pt, b),
        b + GROWTH_LIMIT <= PLACED_LIMIT,
    ensures
        tt == child_tri(*m, l, c as int, pt),
        tri_bounded(tt, b + GROWTH_LIMIT),
{
    let h = l.via;
    let j = h % 3;
    let tw = m.twin[h].unwrap();
    let k = tw % 3;
    proof {
        assert(tw as int / 3 == c as int);
    }
    let (u, _v) = he_endpoints(&m.faces, h);
    let (cu, cv) = he_endpoints(&m.faces, tw);
    proof {
        assert(3 * (tw as int / 3) + (tw as int % 3) == tw as int) by (nonlinear_arith);
        assert(cu == tri_vertex(m.faces@[c as int], k as int));
        assert(cv == tri_vertex(m.faces@[c as int], k as int + 1));
        assert(cu < m.vertices@.len() && cv < m.vertices@.len());
    }
    let pu = if j == 0 {
        pt.0
    } else if j == 1 {
        pt.1
    } else {
        pt.2
    };
    let pv2 = if j == 0 {
        pt.1
    } else if j == 1 {
        pt.2
    } else {
        pt.0
    };
    let pf2 = if j == 0 {
        pt.2
    } else if j == 1 {
        pt.0
    } else {
        pt.1
    };
    let s0 = if cu == u {
        pu
    } else {
        pv2
    };
    let s1 = if cu == u {
        pv2
    } else {
        pu
    };
    let wslot = (k + 2) % 3;
    let tri_c = m.faces[c];
    let wi = if wslot == 0 {
        tri_c.0
    } else if wslot == 1 {
        tri_c.1
    } else {
        tri_c.2
    };
    proof {
        assert(wi == tri_vertex(m.faces@[c as int], k as int + 2));
        assert(wi < m.vertices@.len());
        assert(point3_bounded(m.vertices@[wi as int]));
        assert(point3_bounded(m.vertices@[cu as int]));
        assert(point3_bounded(m.vertices@[cv as int]));
    }
    let wp = m.vertices[wi];
    let cup = m.vertices[cu];
    let cvp = m.vertices[cv];
    let a2 = sq_dist3(cup, wp);
    let b2 = sq_dist3(cvp, wp);
    let sx0 = s0.x as i128;
    let sy0 = s0.y as i128;
    let sx1 = s1.x as i128;
    let sy1 = s1.y as i128;
    let fx = pf2.x as i128;
    let fy = pf2.y as i128;
    proof {
        assert((sx1 - sx0) * (fy - sy0) <= 1208925819614629174706176 && (sx1 - sx0) * (fy - sy0)
            >= -1208925819614629174706176) by (nonlinear_arith)
            requires
                -1099511627776 <= sx1 - sx0 <= 1099511627776,
                -1099511627776 <= fy - sy0 <= 1099511627776,
        ;
        assert((sy1 - sy0) * (fx - sx0) <= 1208925819614629174706176 && (sy1 - sy0) * (fx - sx0)
            >= -1208925819614629174706176) by (nonlinear_arith)
            requires
                -1099511627776 <= sy1 - sy0 <= 1099511627776,
                -1099511627776 <= fx - sx0 <= 1099511627776,
        ;
    }
    let cross = (sx1 - sx0) * (fy - sy0) - (sy1 - sy0) * (fx - sx0);
    let sgn: i64 = if cross > 0 {
        -1
    } else {
        1
    };
    proof {
        assert(sgn as int == side_sign(s0, s1, pf2));
    }
    let apex = place_apex(s0, s1, a2, b2, sgn);
    let triple = if k == 0 {
        (s0, s1, apex)
    } else if k == 1 {
        (apex, s0, s1)
    } else {
        (s1, apex, s0)
    };
    proof {
        assert(pu == tri_pt(pt, j as int));
        assert(pv2 == tri_pt(pt, j as int + 1));
        assert(pf2 == tri_pt(pt, j as int + 2));
        assert(triple == mk_tri(k as int, s0, s1, apex));
        assert(triple == child_tri(*m, l, c as int, pt));
    }
    triple
}

/// Unfold every face covered by the tree into the plane.
///
/// Succeeds if and only if no covered face is degenerate; on success the
/// result satisfies `layout_valid`, which pins every placement. On
/// failure the reported face is the first degenerate one in traversal
/// order, and nothing is returned.
#[verifier::rlimit(100)]
pub fn unfold_layout(m: &HalfEdgeMesh, tr: &SpanningTree) -> (r: Result<
    Vec<Option<(Point2, Point2, Point2)>>,
    UnfoldError,
>)
    requires
        m.wf(),
        tr.valid_for(*m),
        mesh_coords_bounded(*m),
        m.faces@.len() <= MAX_FACES,
    ensures
        match r {
            Ok(lay) => {
                &&& layout_valid(*m, *tr, lay@)
                &&& forall|c: int|
                    0 <= c < m.faces@.len() && tr.in_tree(c) ==> !face_degenerate(*m, c)
            },
            Err(e) => match e {
                UnfoldError::DegenerateFace { face } => {
                    &&& (face as int) < m.faces@.len()
                    &&& tr.in_tree(face as int)
                    &&& face_degenerate(*m, face as int)
                    &&& exists|i: int|
                        0 <= i < tr.order@.len() && #[trigger] tr.order@[i] == face && (forall|
                            j: int,
                        |
                            0 <= j < i ==> !#[trigger] face_degenerate(*m, tr.order@[j] as int))
                },
                _ => false,
            },
        },
{
    let nf = m.face_count();
    let n = tr.size();
    proof {
        crate::tree::lemma_distinct_bounded_len(tr.order@, nf as int);
    }
    let mut lay: Vec<Option<(Point2, Point2, Point2)>> = vec![None; nf];
    let mut i: usize = 0;
    while i < n
        invariant
            m.wf(),
            tr.valid_for(*m),
            mesh_coords_bounded(*m),
            nf == m.faces@.len(),
            nf <= MAX_FACES,
            n == tr.order@.len(),
            n <= nf,
            i <= n,
            lay@.len() == nf,
            forall|f: int|
                0 <= f < nf ==> ((#[trigger] lay@[f]) is Some <==> exists|j: int|
                    0 <= j < i && tr.order@[j] == f),
            forall|f: int|
                0 <= f < nf ==> ((#[trigger] lay@[f]) matches Some(tt) ==> tri_bounded(
                    tt,
                    3548 + (GROWTH_LIMIT as int) * (i as int),
                )),
            i >= 1 ==> lay@[tr.root as int] == Some(root_tri(*m, tr.root as int)),
            forall|c: int|
                0 <= c < nf && c != tr.root ==> ((#[trigger] lay@[c]) is Some ==> (tr.parent@[c]
                    matches Some(l) ==> (0 <= l.parent < nf && (lay@[l.parent as int] matches Some(
                pt) && lay@[c] == Some(child_tri(*m, l, c, pt)))))),
            forall|j: int| 0 <= j < i ==> !#[trigger] face_degenerate(*m, tr.order@[j] as int),
        decreases n - i,
    {
        let f = tr.order[i];
        assert(f < nf);
        let deg = check_degenerate(m, f);
        if deg {
            proof {
                assert(tr.order@[i as int] == f);
            }
            return Err(UnfoldError::DegenerateFace { face: f });
        }
        let ghost old_lay = lay@;
        proof {
            assert forall|jj: int| 0 <= jj < i implies tr.order@[jj] != f by {
                if tr.order@[jj] == f {
                    assert(!tr.order@.no_duplicates());
                }
            }
            assert(lay@[f as int] is None);
        }
        if i == 0 {
            let tt = place_root(m, f);
            lay[f] = Some(tt);
            proof {
                assert(f == tr.root);
                assert((GROWTH_LIMIT as int) * ((i + 1) as int) == GROWTH_LIMIT as int);
                assert forall|ff: int| 0 <= ff < nf && lay@[ff] is Some implies exists|j: int|
                    0 <= j < i + 1 && #[trigger] tr.order@[j] == ff by {
                    assert(ff == f as int);
                    assert(tr.order@[i as int] == ff);
                }
            }
        } else {
            let l = tr.parent[f].unwrap();
            proof {
                assert(tr.parent@[tr.order@[i as int] as int] matches Some(ll) && ll == l);
                assert(tr.link_ok(*m, f as int, l));
            }
            let p = l.parent;
            proof {
                let ghost ii = i as int;
                assert(tr.parent@[tr.order@[ii] as int] matches Some(ll) && exists|j2: int|
                    0 <= j2 < ii && tr.order@[j2] == ll.parent);
                assert(lay@[p as int] is Some);
            }
            let pt = lay[p].unwrap();
            let ghost bnd: int = 3548 + (GROWTH_LIMIT as int) * (i as int);
            proof {
                assert(tri_bounded(pt, bnd));
                assert((GROWTH_LIMIT as int) * (i as int) <= (GROWTH_LIMIT as int) * (
                MAX_FACES as int)) by (nonlinear_arith)
                    requires
                        0 <= i <= MAX_FACES,
                ;
                assert((GROWTH_LIMIT as int) * ((i + 1) as int) == (GROWTH_LIMIT as int) * (
                i as int) + GROWTH_LIMIT as int) by (nonlinear_arith);
            }
            let triple = place_child(m, l, f, pt, Ghost(bnd));
            lay[f] = Some(triple);
            proof {
                assert forall|ff: int| 0 <= ff < nf && lay@[ff] is Some implies exists|j2: int|
                    0 <= j2 < i + 1 && #[trigger] tr.order@[j2] == ff by {
                    if ff == f as int {
                        assert(tr.order@[i as int] == ff);
                    } else {
                        assert(old_lay[ff] is Some);
                        let j2 = choose|j2: int| 0 <= j2 < i && #[trigger] tr.order@[j2] == ff;
                        assert(tr.order@[j2] == ff);
                    }
                }
                assert forall|c: int|
                    0 <= c < nf && c != tr.root && (#[trigger] lay@[c]) is Some implies (
                tr.parent@[c] matches Some(l2) ==> (0 <= l2.parent < nf && (lay@[l2.parent as int]
                    matches Some(pt2) && lay@[c] == Some(child_tri(*m, l2, c, pt2))))) by {
                    if c == f as int {
                        assert(lay@[l.parent as int] == old_lay[l.parent as int]);
                    } else {
                        assert(lay@[c] == old_lay[c]);
                        if old_lay[c] is Some {
                            match tr.parent@[c] {
                                Some(l2) => {
                                    assert(old_lay[l2.parent as int] matches Some(pt2)
                                        && old_lay[c] == Some(child_tri(*m, l2, c, pt2)));
                                    assert(l2.parent as int != f as int) by {
                                        if l2.parent as int == f as int {
                                            assert(old_lay[f as int] is Some);
                                        }
                                    }
                                    assert(lay@[l2.parent as int] == old_lay[l2.parent as int]);
                                },
                                None => {},
                            }
                        }
                    }
                }
            }
        }
        i = i + 1;
    }
    proof {
        assert forall|c: int|
            0 <= c < nf && c != tr.root && (#[trigger] tr.parent@[c]) is Some implies lay@[c]
            is Some by {
            assert(tr.in_tree(c));
        }
        assert forall|c: int| 0 <= c < nf && tr.in_tree(c) implies !face_degenerate(*m, c) by {
            let j = choose|j: int| 0 <= j < tr.order@.len() && #[trigger] tr.order@[j] == c;
            assert(!face_degenerate(*m, tr.order@[j] as int));
        }
    }
    Ok(lay)
}

/// The flat point sequence of a layout: three points per placed face,
/// in face-index order, skipping faces outside the tree.
pub open spec fn flatten_layout(lay: Seq<Option<(Point2, Point2, Point2)>>) -> Seq<Point2>
    decreases lay.len(),
{
    if lay.len() == 0 {
        Seq::empty()
    } else {
        let rest = flatten_layout(lay.drop_last());
        match lay.last() {
            Some(tt) => rest + seq![tt.0, tt.1, tt.2],
            None => rest,
        }
    }
}

/// Flatten a layout into the net's point sequence: triangle `i` of the
/// output is the `i`-th placed face in face-index order, its three
/// points in the face's own vertex order.
pub fn flatten_net(lay: &Vec<Option<(Point2, Point2, Point2)>>) -> (v: Vec<Point2>)
    ensures
        v@ == flatten_layout(lay@),
{
    let mut v: Vec<Point2> = Vec::new();
    let mut f: usize = 0;
    while f < lay.len()
        invariant
            f <= lay@.len(),
            v@ == flatten_layout(lay@.take(f as int)),
        decreases lay@.len() - f,
    {
        proof {
            assert(lay@.take(f as int + 1).drop_last() =~= lay@.take(f as int));
            assert(lay@.take(f as int + 1).last() == lay@[f as int]);
        }
        match lay[f] {
            Some(tt) => {
                v.push(tt.0);
                v.push(tt.1);
                v.push(tt.2);
                proof {
                    assert(v@ =~= flatten_layout(lay@.take(f as int + 1)));
                }
            },
            None => {
                proof {
                    assert(v@ =~= flatten_layout(lay@.take(f as int + 1)));
                }
            },
        }
        f = f + 1;
    }
    proof {
        assert(lay@.take(lay@.len() as int) =~= lay@);
    }
    v
}

/// Derive the spanning tree rooted at `seed` and unfold the mesh into a
/// flat point sequence, three points per reachable face.
pub fn unfold(m: &HalfEdgeMesh, seed: usize) -> (r: Result<Vec<Point2>, UnfoldError>)
    requires
        m.wf(),
        mesh_coords_bounded(*m),
        m.faces@.len() <= MAX_FACES,
    ensures
        match r {
            Ok(v) => exists|tr: SpanningTree, lay: Seq<Option<(Point2, Point2, Point2)>>|
                tr.valid_for(*m) && tr.root == seed && (tr.order@, tr.parent@)
                    == crate::tree::bfs_result(*m, seed) && #[trigger] layout_valid(*m, tr, lay)
                    && v@ == flatten_layout(lay),
            Err(e) => match e {
                UnfoldError::SeedFaceOutOfRange { seed: s } => s == seed && seed
                    >= m.faces@.len(),
                UnfoldError::DegenerateFace { face } => (face as int) < m.faces@.len()
                    && face_degenerate(*m, face as int) && exists|tr: SpanningTree|
                    tr.valid_for(*m) && tr.root == seed && #[trigger] tr.in_tree(face as int),
                _ => false,
            },
        },
{
    let tr = match crate::tree::build_spanning_tree(m, seed) {
        Ok(tr) => tr,
        Err(e) => {
            return Err(e);
        },
    };
    let lay = match unfold_layout(m, &tr) {
        Ok(lay) => lay,
        Err(e) => {
            proof {
                match e {
                    UnfoldError::DegenerateFace { face } => {
                        assert(tr.valid_for(*m) && tr.root == seed && tr.in_tree(face as int));
                    },
                    _ => {},
                }
            }
            return Err(e);
        },
    };
    let v = flatten_net(&lay);
    proof {
        assert(tr.valid_for(*m) && tr.root == seed && (tr.order@, tr.parent@)
            == crate::tree::bfs_result(*m, seed) && layout_valid(*m, tr, lay@) && v@
            == flatten_layout(lay@));
    }
    Ok(v)
}

/// Shared-edge preservation: for every non-root face of the tree, the
/// two placed shared-edge vertices of its triangle coincide exactly with
/// the parent triangle's placed points for the same mesh vertices.
pub proof fn lemma_shared_edge_preserved(
    m: HalfEdgeMesh,
    tr: SpanningTree,
    lay: Seq<Option<(Point2, Point2, Point2)>>,
    c: int,
)
    requires
        m.wf(),
        tr.valid_for(m),
        layout_valid(m, tr, lay),
        0 <= c < m.faces@.len(),
        tr.in_tree(c),
        c != tr.root,
    ensures
        tr.parent@[c] is Some,
        ({
            let l = tr.parent@[c]->Some_0;
            let h = l.via as int;
            let j = h % 3;
            let t = m.twin@[h]->Some_0 as int;
            let k = t % 3;
            let u = he_origin(m.faces@, h);
            let v = he_dest(m.faces@, h);
            let cu = he_origin(m.faces@, t);
            let cv = he_dest(m.faces@, t);
            let ct = lay[c]->Some_0;
            let pt = lay[l.parent as int]->Some_0;
            &&& lay[c] is Some
            &&& lay[l.parent as int] is Some
            &&& (cu == u || cu == v)
            &&& cv == (if cu == u {
                v
            } else {
                u
            })
            &&& tri_pt(ct, k) == (if cu == u {
                tri_pt(pt, j)
            } else {
                tri_pt(pt, j + 1)
            })
            &&& tri_pt(ct, k + 1) == (if cu == u {
                tri_pt(pt, j + 1)
            } else {
                tri_pt(pt, j)
            })
        }),
{
    let l = tr.parent@[c]->Some_0;
    assert(tr.link_ok(m, c, l));
    let h = l.via as int;
    let t = m.twin@[h]->Some_0 as int;
    let k = t % 3;
    assert(m.twin@[h] matches Some(tt) && tt as int == t);
    assert(crate::mesh::same_pair(m.faces@, h, t));
    assert(lay[c] == Some(child_tri(m, l, c, lay[l.parent as int]->Some_0)));
    let pt = lay[l.parent as int]->Some_0;
    let ct = child_tri(m, l, c, pt);
    assert(0 <= k < 3);
    if k == 0 {
    } else if k == 1 {
    } else {
    }
}

/// A spanning tree admits exactly one layout: unfolding is a function of
/// mesh and tree, so repeating an unfold reproduces its output exactly.
pub proof fn lemma_unfold_deterministic(
    m: HalfEdgeMesh,
    tr: SpanningTree,
    r1: Seq<Option<(Point2, Point2, Point2)>>,
    r2: Seq<Option<(Point2, Point2, Point2)>>,
)
    requires
        tr.valid_for(m),
        layout_valid(m, tr, r1),
        layout_valid(m, tr, r2),
    ensures
        r1 == r2,
{
    assert forall|f: int| 0 <= f < r1.len() implies r1[f] == r2[f] by {
        if tr.in_tree(f) {
            let i = choose|i: int| 0 <= i < tr.order@.len() && tr.order@[i] == f;
            lemma_layout_unique_at(m, tr, r1, r2, i);
        } else {
            assert(r1[f] is None && r2[f] is None);
        }
    }
    assert(r1 =~= r2);
}

/// Two valid layouts agree on the face visited `i`-th, by induction on
/// the traversal order.
proof fn lemma_layout_unique_at(
    m: HalfEdgeMesh,
    tr: SpanningTree,
    r1: Seq<Option<(Point2, Point2, Point2)>>,
    r2: Seq<Option<(Point2, Point2, Point2)>>,
    i: int,
)
    requires
        tr.valid_for(m),
        layout_valid(m, tr, r1),
        layout_valid(m, tr, r2),
        0 <= i < tr.order@.len(),
    ensures
        r1[tr.order@[i] as int] == r2[tr.order@[i] as int],
    decreases i,
{
    let c = tr.order@[i] as int;
    if i == 0 {
        assert(c == tr.root);
    } else {
        assert(c != tr.root) by {
            if c == tr.root {
                assert(tr.order@[i] == tr.order@[0]);
                assert(!tr.order@.no_duplicates());
            }
        }
        assert(tr.parent@[tr.order@[i] as int] matches Some(l) && exists|j: int|
            0 <= j < i && tr.order@[j] == l.parent);
        let l = tr.parent@[c]->Some_0;
        let j = choose|j: int| 0 <= j < i && tr.order@[j] == l.parent;
        lemma_layout_unique_at(m, tr, r1, r2, j);
        assert(r1[l.parent as int] == r2[l.parent as int]);
        assert(tr.in_tree(c));
        assert(r1[c] is Some && r2[c] is Some);
    }
}

} // verus!
