//! Point-in-polygon containment by ray casting (the even-odd rule).
//!
//! A horizontal ray runs west from the point; for each polygon edge whose
//! latitude span strictly contains the point's latitude (half-open, so each
//! vertex counts for exactly one of its two edges), the edge's longitude at
//! the point's latitude is interpolated linearly and compared with the
//! point's longitude. The point lies inside exactly when the number of edges
//! crossing the ray is odd. Points exactly on a boundary have no defined
//! inclusion, as is inherent to the rule.
//!
//! All comparisons are exact: every angle is brought to the common finest
//! scale by [`Angle::kappa`] (see [`Angle::lemma_kappa_value`]), where the
//! interpolation becomes integer arithmetic.

use vstd::prelude::*;
use vstd::slice::slice_index_get;

use crate::angle::{Angle, DEGREE_BOUND, UNITS_PER_DEGREE_TOP};
use crate::coordinate::Coordinate;
use crate::rational::{rat, rat_lt, Rat};

verus! {

/// Whether the edge from `a` to `b` crosses the westward ray from `p`: the
/// point's latitude lies in the edge's half-open latitude span, and the
/// edge's longitude at that latitude — `lon1 - (lon1 - lon2) * (lat1 - lat) /
/// (lat1 - lat2)`, an exact rational over the common scale — is less than
/// the point's longitude.
pub open spec fn edge_crosses(p: Coordinate, a: Coordinate, b: Coordinate) -> bool {
    let pl = p.lat.kappa();
    let pm = p.lon.kappa();
    let l1 = a.lat.kappa();
    let m1 = a.lon.kappa();
    let l2 = b.lat.kappa();
    let m2 = b.lon.kappa();
    let span = (l1 <= pl && pl < l2) || (l2 <= pl && pl < l1);
    span && rat_lt(
        rat(m1 * (l1 - l2) - (m1 - m2) * (l1 - pl), (UNITS_PER_DEGREE_TOP as int) * (l1 - l2)),
        rat(pm, UNITS_PER_DEGREE_TOP as int),
    )
}

/// How many of the first `i` edges of the polygon cross the ray from `p`;
/// edge `k` runs from vertex `k` to the next vertex, wrapping around.
pub open spec fn crossings(p: Coordinate, area: Seq<Coordinate>, i: int) -> int
    decreases i,
{
    if i <= 0 {
        0
    } else {
        let j: int = if i == area.len() {
            0
        } else {
            i
        };
        crossings(p, area, i - 1) + if edge_crosses(p, area[i - 1], area[j]) {
            1int
        } else {
            0int
        }
    }
}

/// The interpolated-longitude comparison over the common scale equals an
/// integer sign test on the cross product of the edge's deltas.
proof fn lemma_det_sign(pl: int, pm: int, l1: int, m1: int, l2: int, m2: int, s: int)
    requires
        s > 0,
        l1 != l2,
    ensures
        rat_lt(rat(m1 * (l1 - l2) - (m1 - m2) * (l1 - pl), s * (l1 - l2)), rat(pm, s)) == (if l1
            > l2 {
            (m1 - pm) * (l1 - l2) - (m1 - m2) * (l1 - pl) < 0
        } else {
            (m1 - pm) * (l1 - l2) - (m1 - m2) * (l1 - pl) > 0
        }),
{
    let d = l1 - l2;
    let a = m1 * d - (m1 - m2) * (l1 - pl);
    let det = (m1 - pm) * d - (m1 - m2) * (l1 - pl);
    assert(det == a - pm * d) by (nonlinear_arith)
        requires
            d == l1 - l2,
            a == m1 * d - (m1 - m2) * (l1 - pl),
            det == (m1 - pm) * d - (m1 - m2) * (l1 - pl),
    ;
    if d > 0 {
        assert(s * d > 0) by (nonlinear_arith)
            requires
                s > 0,
                d > 0,
        ;
        assert(rat(a, s * d) == Rat { n: a, d: s * d });
        assert((a * s < pm * (s * d)) == (a < pm * d)) by (nonlinear_arith)
            requires
                s > 0,
        ;
    } else {
        assert(s * d < 0) by (nonlinear_arith)
            requires
                s > 0,
                d < 0,
        ;
        assert(rat(a, s * d) == Rat { n: -a, d: -(s * d) });
        assert(((-a) * s < pm * (-(s * d))) == (a > pm * d)) by (nonlinear_arith)
            requires
                s > 0,
        ;
    }
}

/// Whether the edge from `a` to `b` crosses the ray from `p`, executable.
fn edge_check(p: &Coordinate, a: &Coordinate, b: &Coordinate) -> (r: bool)
    ensures
        r == edge_crosses(*p, *a, *b),
{
    let pl: i64 = p.lat.kappa_i64();
    let pm: i64 = p.lon.kappa_i64();
    let l1: i64 = a.lat.kappa_i64();
    let m1: i64 = a.lon.kappa_i64();
    let l2: i64 = b.lat.kappa_i64();
    let m2: i64 = b.lon.kappa_i64();
    let span = (l1 <= pl && pl < l2) || (l2 <= pl && pl < l1);
    if !span {
        return false;
    }
    proof {
        let bound = DEGREE_BOUND * UNITS_PER_DEGREE_TOP;
        assert(bound == 3_607_200_000_000_000_000);
        assert({
            &&& -4 * (bound * bound) < (m1 - pm) * (l1 - l2) < 4 * (bound * bound)
            &&& -4 * (bound * bound) < (m1 - m2) * (l1 - pl) < 4 * (bound * bound)
        }) by (nonlinear_arith)
            requires
                -bound < pl < bound,
                -bound < pm < bound,
                -bound < l1 < bound,
                -bound < m1 < bound,
                -bound < l2 < bound,
                -bound < m2 < bound,
                bound == 3_607_200_000_000_000_000,
        ;
        assert(4 * (bound * bound) < 0x4000_0000_0000_0000_0000_0000_0000_0000int) by (
        nonlinear_arith)
            requires
                bound == 3_607_200_000_000_000_000,
        ;
        lemma_det_sign(
            pl as int,
            pm as int,
            l1 as int,
            m1 as int,
            l2 as int,
            m2 as int,
            UNITS_PER_DEGREE_TOP as int,
        );
    }
    let det: i128 = (m1 as i128 - pm as i128) * (l1 as i128 - l2 as i128) - (m1 as i128
        - m2 as i128) * (l1 as i128 - pl as i128);
    if l1 > l2 {
        det < 0
    } else {
        det > 0
    }
}

/// Whether `point` lies inside the polygon `area`, by the ray-casting rule:
/// true exactly when the polygon has at least three vertices and an odd
/// number of its edges cross the westward ray from the point. Fewer than
/// three vertices never contain a point.
pub fn is_point_in_area(point: &Coordinate, area: &[Coordinate]) -> (r: bool)
    ensures
        r == (area@.len() >= 3 && crossings(*point, area@, area@.len() as int) % 2 == 1),
        area@.len() < 3 ==> r == false,
{
    let n: usize = area.len();
    if n < 3 {
        return false;
    }
    let mut count: usize = 0;
    let mut i: usize = 0;
    while i < n
        invariant
            3 <= n == area@.len(),
            i <= n,
            count <= i,
            count == crossings(*point, area@, i as int),
        decreases n - i,
    {
        let j: usize = if i == n - 1 {
            0
        } else {
            i + 1
        };
        let c = edge_check(point, slice_index_get(area, i), slice_index_get(area, j));
        if c {
            count = count + 1;
        }
        i = i + 1;
    }
    count % 2 == 1
}

} // verus!
