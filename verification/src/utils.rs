use vstd::prelude::*;
use crate::vec2::{Vec2, bounded, in_range, cross, cross2};

verus! {

/// Fixed-point scale of blend factors: `BLEND_ONE` stands for 1.0.
pub const BLEND_ONE: i64 = 1000;

/// Linear interpolation `a + (b - a) * t` with `t` a blend factor scaled by
/// `BLEND_ONE`, rounded toward negative infinity.
pub open spec fn lerp_spec(a: int, b: int, t: int) -> int {
    a + ((b - a) * t) / (BLEND_ONE as int)
}

/// Linear interpolation between `a` and `b` by the blend factor `t`
/// (`0 <= t <= BLEND_ONE`).
pub fn lerp(a: i64, b: i64, t: i64) -> (r: i64)
    requires
        0 <= t <= BLEND_ONE,
        -1_000_000_000_000_000 <= a <= 1_000_000_000_000_000,
        -1_000_000_000_000_000 <= b <= 1_000_000_000_000_000,
    ensures
        r == lerp_spec(a as int, b as int, t as int),
        a <= b ==> a <= r <= b,
        b <= a ==> b <= r <= a,
{
    let diff = b - a;
    proof {
        assert(-2_000_000_000_000_000_000 <= diff * t <= 2_000_000_000_000_000_000)
            by (nonlinear_arith)
            requires -2_000_000_000_000_000 <= diff <= 2_000_000_000_000_000 && 0 <= t <= 1000;
    }
    let scaled = crate::vec2::floor_div(diff * t, BLEND_ONE);
    proof {
        if diff >= 0 {
            assert(0 <= (diff * t) / 1000 <= diff) by (nonlinear_arith)
                requires diff >= 0 && 0 <= t <= 1000;
        } else {
            assert(diff <= (diff * t) / 1000 <= 0) by (nonlinear_arith)
                requires diff < 0 && 0 <= t <= 1000;
        }
    }
    a + scaled
}

/// 2D cross product of two vectors.
pub fn cross_product(a: Vec2, b: Vec2) -> (r: i64)
    requires
        bounded(a, 2_000_000_000),
        bounded(b, 2_000_000_000),
    ensures
        r == cross(a, b),
        -8_000_000_000_000_000_000 <= r <= 8_000_000_000_000_000_000,
{
    proof {
        assert(-4_000_000_000_000_000_000 <= (a.x as int) * (b.y as int) <= 4_000_000_000_000_000_000
            && -4_000_000_000_000_000_000 <= (a.y as int) * (b.x as int) <= 4_000_000_000_000_000_000)
            by (nonlinear_arith)
            requires bounded(a, 2_000_000_000) && bounded(b, 2_000_000_000);
    }
    a.x * b.y - a.y * b.x
}

/// Denominator of the parametric solution for the intersection of segments
/// `(p1, p2)` and `(q1, q2)`: the cross product of their direction vectors.
pub open spec fn seg_den(p1: Vec2, p2: Vec2, q1: Vec2, q2: Vec2) -> int {
    cross2(p2.x - p1.x, p2.y - p1.y, q2.x - q1.x, q2.y - q1.y)
}

/// Numerator of the first segment's parameter `t` (scaled by `seg_den`).
pub open spec fn seg_tn(p1: Vec2, p2: Vec2, q1: Vec2, q2: Vec2) -> int {
    cross2(q1.x - p1.x, q1.y - p1.y, q2.x - q1.x, q2.y - q1.y)
}

/// Numerator of the second segment's parameter `u` (scaled by `seg_den`).
pub open spec fn seg_un(p1: Vec2, p2: Vec2, q1: Vec2, q2: Vec2) -> int {
    cross2(q1.x - p1.x, q1.y - p1.y, p2.x - p1.x, p2.y - p1.y)
}

/// The rational `n / d` lies in the closed unit interval `[0, 1]`.
pub open spec fn in_unit(n: int, d: int) -> bool {
    if d > 0 {
        0 <= n <= d
    } else {
        d <= n <= 0
    }
}

/// The two closed segments `(p1, p2)` and `(q1, q2)` meet in exactly one
/// point: their carrier lines are not parallel and the parametric solution
/// lies within both segments (endpoints included).  Parallel segments,
/// collinear or not, never satisfy this.
pub open spec fn seg_intersects(p1: Vec2, p2: Vec2, q1: Vec2, q2: Vec2) -> bool {
    let d = seg_den(p1, p2, q1, q2);
    &&& d != 0
    &&& in_unit(seg_tn(p1, p2, q1, q2), d)
    &&& in_unit(seg_un(p1, p2, q1, q2), d)
}

/// `base + (n / d) * delta` rounded toward `base` (the scaled offset is
/// computed on magnitudes and then signed), for `0 <= n <= d`.
pub open spec fn scaled_add(base: int, n: int, d: int, delta: int) -> int {
    if delta >= 0 {
        base + (n * delta) / d
    } else {
        base - (n * (-delta)) / d
    }
}

/// The intersection point of the two segments, with each coordinate rounded
/// toward the first segment's start point.
pub open spec fn intersect_point(p1: Vec2, p2: Vec2, q1: Vec2, q2: Vec2) -> Vec2 {
    let d = seg_den(p1, p2, q1, q2);
    let tn = seg_tn(p1, p2, q1, q2);
    let nn = if d > 0 { tn } else { -tn };
    let nd = if d > 0 { d } else { -d };
    Vec2 {
        x: scaled_add(p1.x as int, nn, nd, p2.x - p1.x) as i64,
        y: scaled_add(p1.y as int, nn, nd, p2.y - p1.y) as i64,
    }
}

/// Exec counterpart of `scaled_add`: `base` plus the fraction `n / d` of
/// `delta`, rounded toward `base`.
fn scaled_add_exec(base: i64, n: i64, d: i64, delta: i64) -> (r: i64)
    requires
        0 <= n <= d,
        1 <= d,
        -2_000_000_000 <= base <= 2_000_000_000,
        -2_000_000_000 <= delta <= 2_000_000_000,
    ensures
        r == scaled_add(base as int, n as int, d as int, delta as int),
        base - 2_000_000_000 <= r <= base + 2_000_000_000,
{
    let da: i64 = if delta >= 0 { delta } else { -delta };
    proof {
        assert(0 <= (n as int) * (da as int) <= 20_000_000_000_000_000_000_000_000_000)
            by (nonlinear_arith)
            requires 0 <= n as int <= 10_000_000_000_000_000_000 && 0 <= da as int <= 2_000_000_000;
    }
    let prod: i128 = (n as i128) * (da as i128);
    let q128: i128 = prod / (d as i128);
    proof {
        assert(prod as int <= (da as int) * (d as int)) by (nonlinear_arith)
            requires prod as int == (n as int) * (da as int) && 0 <= n <= d && 0 <= da;
        assert(q128 == prod as int / d as int);
        vstd::arithmetic::div_mod::lemma_div_is_ordered(0, prod as int, d as int);
        vstd::arithmetic::div_mod::lemma_div_is_ordered(
            prod as int, (da as int) * (d as int), d as int);
        vstd::arithmetic::div_mod::lemma_div_by_multiple(da as int, d as int);
        assert(0 as int / d as int == 0) by {
            vstd::arithmetic::div_mod::lemma_small_div_converse(0, d as int);
        };
        assert(0 <= q128 <= da as int);
    }
    let q: i64 = q128 as i64;
    if delta >= 0 {
        base + q
    } else {
        base - q
    }
}

/// Intersection of the closed segments `(line_1_start, line_1_end)` and
/// `(line_2_start, line_2_end)`.
///
/// Returns `Some` exactly when the segments meet within their finite extents
/// with non-parallel carrier lines (`seg_intersects`); parallel segments —
/// overlapping or not — yield `None`, mirroring how the parametric solution
/// degenerates when the direction cross product is zero.
pub fn line_intersect(
    line_1_start: Vec2,
    line_1_end: Vec2,
    line_2_start: Vec2,
    line_2_end: Vec2,
) -> (r: Option<Vec2>)
    requires
        in_range(line_1_start),
        in_range(line_1_end),
        in_range(line_2_start),
        in_range(line_2_end),
    ensures
        r is Some <==> seg_intersects(line_1_start, line_1_end, line_2_start, line_2_end),
        r is Some ==> r->Some_0 == intersect_point(
            line_1_start, line_1_end, line_2_start, line_2_end),
        r is Some ==> bounded(r->Some_0, 2_200_000_000),
{
    let line_1 = line_1_end.minus(line_1_start);
    let line_2 = line_2_end.minus(line_2_start);
    let r_cross_s = cross_product(line_1, line_2);
    let a_to_c = line_2_start.minus(line_1_start);
    if r_cross_s == 0 {
        return None;
    }
    let t_num = cross_product(a_to_c, line_2);
    let u_num = cross_product(a_to_c, line_1);
    let nd: i64 = if r_cross_s > 0 { r_cross_s } else { -r_cross_s };
    let tn: i64 = if r_cross_s > 0 { t_num } else { -t_num };
    let un: i64 = if r_cross_s > 0 { u_num } else { -u_num };
    if 0 <= tn && tn <= nd && 0 <= un && un <= nd {
        let px = scaled_add_exec(line_1_start.x, tn, nd, line_1.x);
        let py = scaled_add_exec(line_1_start.y, tn, nd, line_1.y);
        Some(Vec2::new(px, py))
    } else {
        None
    }
}

/// Segments whose direction vectors are parallel (zero cross product) are
/// never reported as intersecting, even when they are collinear and overlap.
pub proof fn lemma_parallel_segments_never_intersect(p1: Vec2, p2: Vec2, q1: Vec2, q2: Vec2)
    requires
        seg_den(p1, p2, q1, q2) == 0,
    ensures
        !seg_intersects(p1, p2, q1, q2),
{
}

} // verus!
