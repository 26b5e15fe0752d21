//! Bounding extents and centroid of an unfolded net, used by callers to
//! center and scale the net on a display surface.

use vstd::prelude::*;
use crate::geom::div_trunc;
use crate::geom::div_toward_zero;
use crate::net::iabs;
use crate::net::PLACED_LIMIT;
use crate::Point2;

verus! {

/// Largest x coordinate of a nonempty point sequence.
pub open spec fn max_x_of(s: Seq<Point2>) -> int
    decreases s.len(),
{
    if s.len() <= 1 {
        s[0].x as int
    } else {
        let rest = max_x_of(s.drop_last());
        if s.last().x > rest {
            s.last().x as int
        } else {
            rest
        }
    }
}

/// Smallest x coordinate of a nonempty point sequence.
pub open spec fn min_x_of(s: Seq<Point2>) -> int
    decreases s.len(),
{
    if s.len() <= 1 {
        s[0].x as int
    } else {
        let rest = min_x_of(s.drop_last());
        if s.last().x < rest {
            s.last().x as int
        } else {
            rest
        }
    }
}

/// Largest y coordinate of a nonempty point sequence.
pub open spec fn max_y_of(s: Seq<Point2>) -> int
    decreases s.len(),
{
    if s.len() <= 1 {
        s[0].y as int
    } else {
        let rest = max_y_of(s.drop_last());
        if s.last().y > rest {
            s.last().y as int
        } else {
            rest
        }
    }
}

/// Smallest y coordinate of a nonempty point sequence.
pub open spec fn min_y_of(s: Seq<Point2>) -> int
    decreases s.len(),
{
    if s.len() <= 1 {
        s[0].y as int
    } else {
        let rest = min_y_of(s.drop_last());
        if s.last().y < rest {
            s.last().y as int
        } else {
            rest
        }
    }
}

/// Sum of the x coordinates.
pub open spec fn sum_x_of(s: Seq<Point2>) -> int
    decreases s.len(),
{
    if s.len() == 0 {
        0
    } else {
        sum_x_of(s.drop_last()) + s.last().x
    }
}

/// Sum of the y coordinates.
pub open spec fn sum_y_of(s: Seq<Point2>) -> int
    decreases s.len(),
{
    if s.len() == 0 {
        0
    } else {
        sum_y_of(s.drop_last()) + s.last().y
    }
}

/// The extrema are attained and dominate every coordinate.
pub proof fn lemma_extents_attained(s: Seq<Point2>)
    requires
        s.len() > 0,
    ensures
        forall|i: int| 0 <= i < s.len() ==> (#[trigger] s[i]).x <= max_x_of(s),
        forall|i: int| 0 <= i < s.len() ==> (#[trigger] s[i]).x >= min_x_of(s),
        forall|i: int| 0 <= i < s.len() ==> (#[trigger] s[i]).y <= max_y_of(s),
        forall|i: int| 0 <= i < s.len() ==> (#[trigger] s[i]).y >= min_y_of(s),
        exists|i: int| 0 <= i < s.len() && (#[trigger] s[i]).x == max_x_of(s),
        exists|i: int| 0 <= i < s.len() && (#[trigger] s[i]).x == min_x_of(s),
        exists|i: int| 0 <= i < s.len() && (#[trigger] s[i]).y == max_y_of(s),
        exists|i: int| 0 <= i < s.len() && (#[trigger] s[i]).y == min_y_of(s),
    decreases s.len(),
{
    if s.len() == 1 {
        assert(s[0].x == max_x_of(s));
    } else {
        lemma_extents_attained(s.drop_last());
        assert forall|i: int| 0 <= i < s.len() implies (#[trigger] s[i]).x <= max_x_of(s) && s[i].x
            >= min_x_of(s) && s[i].y <= max_y_of(s) && s[i].y >= min_y_of(s) by {
            if i < s.len() - 1 {
                assert(s[i] == s.drop_last()[i]);
            }
        }
        let j1 = choose|i: int|
            0 <= i < s.drop_last().len() && (#[trigger] s.drop_last()[i]).x == max_x_of(
                s.drop_last(),
            );
        assert(s[j1].x == max_x_of(s.drop_last()));
        let j2 = choose|i: int|
            0 <= i < s.drop_last().len() && (#[trigger] s.drop_last()[i]).x == min_x_of(
                s.drop_last(),
            );
        assert(s[j2].x == min_x_of(s.drop_last()));
        let j3 = choose|i: int|
            0 <= i < s.drop_last().len() && (#[trigger] s.drop_last()[i]).y == max_y_of(
                s.drop_last(),
            );
        assert(s[j3].y == max_y_of(s.drop_last()));
        let j4 = choose|i: int|
            0 <= i < s.drop_last().len() && (#[trigger] s.drop_last()[i]).y == min_y_of(
                s.drop_last(),
            );
        assert(s[j4].y == min_y_of(s.drop_last()));
        assert(s[s.len() - 1] == s.last());
    }
}

/// Bounding extents and centroid of a net.
#[derive(Clone, Copy, PartialEq, Eq, Structural, Debug)]
pub struct LayoutStats {
    /// `max - min` of the x coordinates (0 for an empty net).
    pub width: i64,
    /// `max - min` of the y coordinates (0 for an empty net).
    pub height: i64,
    /// Arithmetic mean of all points, truncated toward zero; the origin
    /// for an empty net.
    pub centroid: Point2,
}

/// Every point's coordinates lie within the placement range.
pub open spec fn points_bounded(s: Seq<Point2>) -> bool {
    forall|i: int|
        0 <= i < s.len() ==> iabs((#[trigger] s[i]).x as int) <= PLACED_LIMIT && iabs(
            s[i].y as int,
        ) <= PLACED_LIMIT
}

/// Compute the bounding extents and the centroid of a net.
pub fn layout_stats(points: &Vec<Point2>) -> (s: LayoutStats)
    requires
        points_bounded(points@),
    ensures
        points@.len() == 0 ==> s == (LayoutStats {
            width: 0,
            height: 0,
            centroid: Point2 { x: 0, y: 0 },
        }),
        points@.len() > 0 ==> {
            &&& s.width == max_x_of(points@) - min_x_of(points@)
            &&& s.height == max_y_of(points@) - min_y_of(points@)
            &&& s.centroid.x == div_trunc(sum_x_of(points@), points@.len() as int)
            &&& s.centroid.y == div_trunc(sum_y_of(points@), points@.len() as int)
        },
{
    let n = points.len();
    if n == 0 {
        return LayoutStats { width: 0, height: 0, centroid: Point2 { x: 0, y: 0 } };
    }
    let first = points[0];
    let mut maxx: i64 = first.x;
    let mut minx: i64 = first.x;
    let mut maxy: i64 = first.y;
    let mut miny: i64 = first.y;
    let mut sx: i128 = 0;
    let mut sy: i128 = 0;
    let mut i: usize = 0;
    proof {
        assert(points@.take(1).drop_last() =~= points@.take(0));
    }
    while i < n
        invariant
            n == points@.len(),
            n > 0,
            i <= n,
            points_bounded(points@),
            i > 0 ==> maxx == max_x_of(points@.take(i as int)),
            i > 0 ==> minx == min_x_of(points@.take(i as int)),
            i > 0 ==> maxy == max_y_of(points@.take(i as int)),
            i > 0 ==> miny == min_y_of(points@.take(i as int)),
            i == 0 ==> maxx == points@[0].x && minx == points@[0].x && maxy == points@[0].y && miny
                == points@[0].y,
            sx == sum_x_of(points@.take(i as int)),
            sy == sum_y_of(points@.take(i as int)),
            -(i as int * PLACED_LIMIT) <= sx <= i as int * PLACED_LIMIT,
            -(i as int * PLACED_LIMIT) <= sy <= i as int * PLACED_LIMIT,
        decreases n - i,
    {
        let p = points[i];
        proof {
            assert(points@.take(i as int + 1).drop_last() =~= points@.take(i as int));
            assert(points@.take(i as int + 1).last() == points@[i as int]);
            assert(iabs(points@[i as int].x as int) <= PLACED_LIMIT);
            assert(iabs(points@[i as int].y as int) <= PLACED_LIMIT);
            assert((i as int + 1) * PLACED_LIMIT == i as int * PLACED_LIMIT + PLACED_LIMIT)
                by (nonlinear_arith);
            assert(i as int * PLACED_LIMIT <= 170141183460469231731687303715884105 * 1)
                by (nonlinear_arith)
                requires
                    0 <= i as int <= 18446744073709551615,
                    PLACED_LIMIT == 549755813888,
            ;
        }
        if p.x > maxx {
            maxx = p.x;
        }
        if p.x < minx {
            minx = p.x;
        }
        if p.y > maxy {
            maxy = p.y;
        }
        if p.y < miny {
            miny = p.y;
        }
        sx = sx + p.x as i128;
        sy = sy + p.y as i128;
        i = i + 1;
    }
    proof {
        assert(points@.take(n as int) =~= points@);
    }
    let cn = n as i128;
    let cx = div_toward_zero(sx, cn);
    let cy = div_toward_zero(sy, cn);
    proof {
        crate::geom::lemma_div_trunc_bound(sx as int, cn as int, PLACED_LIMIT as int);
        crate::geom::lemma_div_trunc_bound(sy as int, cn as int, PLACED_LIMIT as int);
        assert(PLACED_LIMIT as int * cn as int == cn as int * PLACED_LIMIT) by (nonlinear_arith);
        assert(n as int * PLACED_LIMIT <= PLACED_LIMIT as int * cn as int) by (nonlinear_arith)
            requires
                cn == n as int,
                0 <= n,
        ;
        lemma_extents_attained(points@);
        assert(points@[0].x <= maxx && points@[0].x >= minx);
    }
    LayoutStats {
        width: maxx - minx,
        height: maxy - miny,
        centroid: Point2 { x: cx as i64, y: cy as i64 },
    }
}

} // verus!
