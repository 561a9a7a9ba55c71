use vstd::prelude::*;
use crate::vec2::{Vec2, bounded, in_range, cross2, DIR_ONE, sqrt_floor,
    normalize_or_zero_spec, normalize_or_zero, lemma_div_above, lemma_div_below};
use crate::utils::{line_intersect, seg_intersects};
use crate::level::Polygon;
use crate::Physics;

verus! {

/// Horizontal reach of the fixed inside-test ray of the collision pass.
pub const COLLISION_RAYCAST_DX: i64 = 20_000_000;

/// Vertical reach of the fixed inside-test ray of the collision pass.
pub const COLLISION_RAYCAST_DY: i64 = 10_000_000;

/// Distance below which an entity counts as touching an edge, in units.
pub const COLLISION_TOUCH_THRESHOLD: i64 = 500;

/// Configuration marker for the collision subsystem; the per-frame entry
/// point is `s_collision`.
pub struct CollisionPlugin;

/// End point of the collision pass's fixed tunnelling-test ray.
pub open spec fn collision_ray_end(p: Vec2) -> Vec2 {
    Vec2 {
        x: (p.x + COLLISION_RAYCAST_DX) as i64,
        y: (p.y + COLLISION_RAYCAST_DY) as i64,
    }
}

/// Sign of the determinant telling on which side of the directed line
/// `(line_start, line_end)` the point lies; points on the line count as the
/// positive side.
pub open spec fn side_of_line(line_start: Vec2, line_end: Vec2, point: Vec2) -> int {
    let det = cross2(
        line_end.x - line_start.x, line_end.y - line_start.y,
        point.x - line_start.x, point.y - line_start.y);
    if det < 0 { -1 } else { 1 }
}

/// Which side of the directed line a point lies on (`1` or `-1`; points on
/// the line count as positive).
pub fn side_of_line_detection(line_start: Vec2, line_end: Vec2, point: Vec2) -> (r: i64)
    requires
        in_range(line_start),
        in_range(line_end),
        bounded(point, 2_000_000_000 - 400_000_000),
    ensures
        r == side_of_line(line_start, line_end, point),
{
    let det = crate::utils::cross_product(
        line_end.minus(line_start), point.minus(line_start));
    if det < 0 { -1 } else { 1 }
}

/// Squared distance from the entity to the nearest point of the segment,
/// together with that nearest point: the orthogonal projection, clamped to
/// the segment's endpoints by the sign of the projection parameter
/// `pvlv / den` and rounded toward negative infinity.
pub open spec fn find_projection_spec(start: Vec2, end: Vec2, point: Vec2)
    -> (int, Vec2) {
    let pvx = point.x - start.x;
    let pvy = point.y - start.y;
    let lvx = end.x - start.x;
    let lvy = end.y - start.y;
    let den = lvx * lvx + lvy * lvy;
    let pvlv = pvx * lvx + pvy * lvy;
    if pvlv < 0 {
        (pvx * pvx + pvy * pvy, start)
    } else if pvlv > den {
        let ex = point.x - end.x;
        let ey = point.y - end.y;
        (ex * ex + ey * ey, end)
    } else {
        let px = (start.x * den + lvx * pvlv) / den;
        let py = (start.y * den + lvy * pvlv) / den;
        let dx = point.x - px;
        let dy = point.y - py;
        (dx * dx + dy * dy, Vec2 { x: px as i64, y: py as i64 })
    }
}

/// Projects `point` onto the segment `(start, end)` (clamped to the
/// endpoints) and returns the squared distance together with the nearest
/// point.  The entity radius does not enter the result; the parameter is
/// part of the resolver's call shape.
pub fn find_projection(start: Vec2, end: Vec2, point: Vec2, radius: i64) -> (r: (i64, Vec2))
    requires
        in_range(start),
        in_range(end),
        bounded(point, 500_000_000),
        start != end,
    ensures
        (r.0 as int, r.1) == find_projection_spec(start, end, point),
        r.0 >= 0,
        bounded(r.1, 200_000_000),
{
    let pvx = point.x - start.x;
    let pvy = point.y - start.y;
    let lvx = end.x - start.x;
    let lvy = end.y - start.y;
    proof {
        assert(0 <= lvx * lvx <= 160_000_000_000_000_000
            && 0 <= lvy * lvy <= 160_000_000_000_000_000
            && 1 <= lvx * lvx + lvy * lvy
            && -280_000_000_000_000_000 <= pvx * lvx <= 280_000_000_000_000_000
            && -280_000_000_000_000_000 <= pvy * lvy <= 280_000_000_000_000_000
            && 0 <= pvx * pvx <= 490_000_000_000_000_000
            && 0 <= pvy * pvy <= 490_000_000_000_000_000) by (nonlinear_arith)
            requires
                -400_000_000 <= lvx <= 400_000_000,
                -400_000_000 <= lvy <= 400_000_000,
                -700_000_000 <= pvx <= 700_000_000,
                -700_000_000 <= pvy <= 700_000_000,
                lvx != 0 || lvy != 0;
    }
    let den = lvx * lvx + lvy * lvy;
    let pvlv = pvx * lvx + pvy * lvy;
    if pvlv < 0 {
        return (pvx * pvx + pvy * pvy, start);
    }
    if pvlv > den {
        let ex = point.x - end.x;
        let ey = point.y - end.y;
        proof {
            assert(0 <= ex * ex <= 490_000_000_000_000_000
                && 0 <= ey * ey <= 490_000_000_000_000_000) by (nonlinear_arith)
                requires -700_000_000 <= ex <= 700_000_000 && -700_000_000 <= ey <= 700_000_000;
        }
        return (ex * ex + ey * ey, end);
    }
    // The projection parameter pvlv / den lies in [0, 1]: the nearest point
    // is interior to the segment.
    proof {
        assert(0 <= pvlv <= den);
        assert(-200_000_000 * (den as int) <= (start.x as int) * (den as int)
            && (start.x as int) * (den as int) <= 200_000_000 * (den as int)
            && -200_000_000 * (den as int) <= (start.y as int) * (den as int)
            && (start.y as int) * (den as int) <= 200_000_000 * (den as int)
            && -400_000_000 * (den as int) <= (lvx as int) * (pvlv as int)
            && (lvx as int) * (pvlv as int) <= 400_000_000 * (den as int)
            && -400_000_000 * (den as int) <= (lvy as int) * (pvlv as int)
            && (lvy as int) * (pvlv as int) <= 400_000_000 * (den as int))
            by (nonlinear_arith)
            requires
                in_range(start),
                -400_000_000 <= lvx <= 400_000_000,
                -400_000_000 <= lvy <= 400_000_000,
                0 <= pvlv <= den,
                den >= 1;
    }
    let numx: i128 = (start.x as i128) * (den as i128) + (lvx as i128) * (pvlv as i128);
    let numy: i128 = (start.y as i128) * (den as i128) + (lvy as i128) * (pvlv as i128);
    let px128 = crate::vec2::floor_div128(numx, den as i128);
    let py128 = crate::vec2::floor_div128(numy, den as i128);
    proof {
        lemma_div_above(numx as int, den as int, -600_000_000);
        lemma_div_below(numx as int, den as int, 600_000_001);
        lemma_div_above(numy as int, den as int, -600_000_000);
        lemma_div_below(numy as int, den as int, 600_000_001);
    }
    let px = px128 as i64;
    let py = py128 as i64;
    let dx = point.x - px;
    let dy = point.y - py;
    proof {
        assert(0 <= dx * dx <= 1_690_000_000_000_000_000
            && 0 <= dy * dy <= 1_690_000_000_000_000_000) by (nonlinear_arith)
            requires -1_300_000_000 <= dx <= 1_300_000_000 && -1_300_000_000 <= dy <= 1_300_000_000;
    }
    let dist_sq = dx * dx + dy * dy;
    // The interior projection lies within the segment's bounding box.
    proof {
        lemma_projection_in_box(start.x as int, lvx as int, pvlv as int, den as int);
        lemma_projection_in_box(start.y as int, lvy as int, pvlv as int, den as int);
    }
    (dist_sq, Vec2 { x: px, y: py })
}

/// An interior projection coordinate lies between the segment's endpoint
/// coordinates (up to the floor rounding).
proof fn lemma_projection_in_box(s: int, lv: int, pvlv: int, den: int)
    requires
        den >= 1,
        0 <= pvlv <= den,
        -200_000_000 <= s <= 200_000_000,
        -200_000_000 <= s + lv <= 200_000_000,
    ensures
        -200_000_000 <= (s * den + lv * pvlv) / den <= 200_000_000,
{
    // The interior projection interpolates between the endpoint coordinates.
    if lv >= 0 {
        assert(s * den <= s * den + lv * pvlv && s * den + lv * pvlv <= (s + lv) * den)
            by (nonlinear_arith)
            requires den >= 1 && 0 <= pvlv <= den && lv >= 0;
    } else {
        assert((s + lv) * den <= s * den + lv * pvlv && s * den + lv * pvlv <= s * den)
            by (nonlinear_arith)
            requires den >= 1 && 0 <= pvlv <= den && lv < 0;
    }
    assert(-200_000_000 * den <= s * den + lv * pvlv
        && s * den + lv * pvlv < 200_000_001 * den) by (nonlinear_arith)
        requires
            den >= 1
            && -200_000_000 <= s <= 200_000_000
            && -200_000_000 <= s + lv <= 200_000_000
            && (s * den <= s * den + lv * pvlv <= (s + lv) * den
                || (s + lv) * den <= s * den + lv * pvlv <= s * den);
    lemma_div_above(s * den + lv * pvlv, den, -200_000_000);
    lemma_div_below(s * den + lv * pvlv, den, 200_000_001);
}

/// State carried through the collision scan over one polygon's edges:
/// ray-crossing count (over collision-side-eligible edges only, so that a
/// wall's back face never flips the tunnelling parity), whether any edge is
/// penetrated, the per-axis positional correction, and the accumulated
/// contact normal.
pub open spec fn edge_step(
    pos: Vec2,
    prev: Vec2,
    radius: int,
    side: int,
    a: Vec2,
    b: Vec2,
    st: (int, bool, Vec2, Vec2),
) -> (int, bool, Vec2, Vec2) {
    if side_of_line(a, b, prev) != side {
        st
    } else {
        let counter = st.0
            + (if seg_intersects(a, b, pos, collision_ray_end(pos)) { 1int } else { 0int });
        if a == b {
            (counter, st.1, st.2, st.3)
        } else {
            edge_step_eligible(pos, radius, a, b, counter, st.1, st.2, st.3)
        }
    }
}

/// The projection, correction and normal work for one eligible edge.
pub open spec fn edge_step_eligible(
    pos: Vec2,
    radius: int,
    a: Vec2,
    b: Vec2,
    counter: int,
    colliding: bool,
    adj0: Vec2,
    nrm0: Vec2,
) -> (int, bool, Vec2, Vec2) {
    let pr = find_projection_spec(a, b, pos);
    let dist_sq = pr.0;
    let proj = pr.1;
    let colliding_line = dist_sq <= radius * radius;
    let touching = dist_sq
        <= (radius + COLLISION_TOUCH_THRESHOLD) * (radius + COLLISION_TOUCH_THRESHOLD);
    let ndir = normalize_or_zero_spec(
        Vec2 { x: (pos.x - proj.x) as i64, y: (pos.y - proj.y) as i64 });
    let nrm = if touching {
        Vec2 { x: (nrm0.x - ndir.x) as i64, y: (nrm0.y - ndir.y) as i64 }
    } else {
        nrm0
    };
    let adj = if colliding_line {
        let dist = sqrt_floor(dist_sq as nat) as int;
        let dx = (ndir.x * (radius - dist)) / (DIR_ONE as int);
        let dy = (ndir.y * (radius - dist)) / (DIR_ONE as int);
        let ax = if abs_spec(dx) > abs_spec(adj0.x as int) { dx } else { adj0.x as int };
        let ay = if abs_spec(dy) > abs_spec(adj0.y as int) { dy } else { adj0.y as int };
        Vec2 { x: ax as i64, y: ay as i64 }
    } else {
        adj0
    };
    (counter, colliding || colliding_line, adj, nrm)
}

/// Absolute value.
pub open spec fn abs_spec(x: int) -> int {
    if x >= 0 { x } else { -x }
}

/// Folds `edge_step` over the polygon's first `i` edges (consecutive point
/// pairs), starting from the given correction and normal accumulators.
pub open spec fn edges_fold(
    pos: Vec2,
    prev: Vec2,
    radius: int,
    side: int,
    pts: Seq<Vec2>,
    i: int,
    adj0: Vec2,
    nrm0: Vec2,
) -> (int, bool, Vec2, Vec2)
    decreases i,
{
    if i <= 1 {
        (0, false, adj0, nrm0)
    } else {
        edge_step(pos, prev, radius, side, pts[i - 2], pts[i - 1],
            edges_fold(pos, prev, radius, side, pts, i - 1, adj0, nrm0))
    }
}

/// One polygon's contribution: scans its edges, then teleports the entity
/// back to its previous position when it is penetrating and the fixed ray
/// crosses the polygon's boundary an odd number of times (tunnelling guard).
pub open spec fn poly_step(
    pos: Vec2,
    prev: Vec2,
    radius: int,
    poly: Polygon,
    adj0: Vec2,
    nrm0: Vec2,
) -> (Vec2, Vec2, Vec2) {
    let st = edges_fold(pos, prev, radius, poly.collision_side as int,
        poly.points@, poly.points@.len() as int, adj0, nrm0);
    let pos2 = if st.1 && st.0 % 2 == 1 { prev } else { pos };
    (pos2, st.2, st.3)
}

/// Folds `poly_step` over the first `n` polygons.
pub open spec fn polys_fold(
    pos: Vec2,
    prev: Vec2,
    radius: int,
    polys: Seq<Polygon>,
    n: int,
) -> (Vec2, Vec2, Vec2)
    decreases n,
{
    if n <= 0 {
        (pos, Vec2 { x: 0, y: 0 }, Vec2 { x: 0, y: 0 })
    } else {
        let st = polys_fold(pos, prev, radius, polys, n - 1);
        poly_step(st.0, prev, radius, polys[n - 1], st.1, st.2)
    }
}

/// The final state of one collision pass: the corrected position and the
/// updated physics (normalized contact normal; velocity with its component
/// along that normalized normal removed — wall sliding; position correction
/// applied).  A zero accumulated normal normalizes to zero and leaves the
/// velocity unchanged.
pub open spec fn s_collision_spec(pos: Vec2, phys: Physics, polys: Seq<Polygon>)
    -> (Vec2, Physics) {
    let st = polys_fold(pos, phys.prev_position, phys.radius as int,
        polys, polys.len() as int);
    let pos1 = st.0;
    let adj = st.1;
    let normal = normalize_or_zero_spec(st.2);
    let scale = (DIR_ONE as int) * (DIR_ONE as int);
    let dotv = phys.velocity.x * normal.x + phys.velocity.y * normal.y;
    let vax = (dotv * normal.x) / scale;
    let vay = (dotv * normal.y) / scale;
    let new_pos = Vec2 { x: (pos1.x + adj.x) as i64, y: (pos1.y + adj.y) as i64 };
    let new_phys = Physics {
        prev_position: phys.prev_position,
        velocity: Vec2 {
            x: (phys.velocity.x - vax) as i64,
            y: (phys.velocity.y - vay) as i64,
        },
        acceleration: phys.acceleration,
        radius: phys.radius,
        normal,
    };
    (new_pos, new_phys)
}

/// Total number of polygon points over the first `n` polygons.
pub open spec fn polys_points_total(polys: Seq<Polygon>, n: int) -> int
    decreases n,
{
    if n <= 0 {
        0
    } else {
        polys_points_total(polys, n - 1) + polys[n - 1].points@.len()
    }
}

/// Prefixes of the point total are non-negative and monotone.
proof fn lemma_points_total_mono(polys: Seq<Polygon>, m: int, n: int)
    requires
        0 <= m <= n,
    ensures
        0 <= polys_points_total(polys, m) <= polys_points_total(polys, n),
    decreases n,
{
    if n <= 0 {
    } else if m == n {
        lemma_points_total_mono(polys, m - 1, n - 1);
    } else {
        lemma_points_total_mono(polys, m, n - 1);
    }
}

/// Every polygon's points are in range and the level holds at most 19999
/// points in total — the exact budget under which the accumulated contact
/// normal (at most `DIR_ONE + 1` per axis per edge) stays within the
/// normalization routine's input range.
pub open spec fn polys_ok(polys: Seq<Polygon>) -> bool {
    &&& forall|k: int| 0 <= k < polys.len()
        ==> crate::level::all_in_range((#[trigger] polys[k]).points@)
    &&& polys_points_total(polys, polys.len() as int) <= 19_999
}

/// Absolute value.
fn abs_i64(x: i64) -> (r: i64)
    requires
        x > i64::MIN,
    ensures
        r == abs_spec(x as int),
{
    if x >= 0 { x } else { -x }
}

/// The floor square root never exceeds the root of an upper-bounding square.
proof fn lemma_sqrt_le(n: int, b: int)
    requires
        0 <= n,
        0 <= b,
        n <= b * b,
    ensures
        sqrt_floor(n as nat) <= b,
{
    crate::vec2::lemma_sqrt_floor_bounds(n as nat);
    let s = sqrt_floor(n as nat) as int;
    assert(s <= b) by (nonlinear_arith)
        requires s >= 0 && b >= 0 && s * s <= n && n <= b * b;
}

/// Scans one polygon's edges, accumulating the positional correction and
/// contact normal, and reports whether the entity must be teleported back to
/// its previous position (penetrating with an odd ray-crossing count).
#[verifier::rlimit(100)]
fn collide_polygon(
    pos: Vec2,
    prev: Vec2,
    radius: i64,
    polygon: &Polygon,
    adjustment: &mut Vec2,
    new_normal: &mut Vec2,
    Ghost(nbound): Ghost<int>,
) -> (teleport: bool)
    requires
        bounded(pos, 180_000_000),
        bounded(prev, 180_000_000),
        0 <= radius <= 1_000_000,
        crate::level::all_in_range(polygon.points@),
        bounded(*old(adjustment), 1_000_010),
        bounded(*old(new_normal), nbound),
        0 <= nbound,
        nbound + 100_001 * (polygon.points@.len() as int) <= 2_000_000_000,
    ensures
        ({
            let st = edges_fold(pos, prev, radius as int, polygon.collision_side as int,
                polygon.points@, polygon.points@.len() as int,
                *old(adjustment), *old(new_normal));
            &&& teleport == (st.1 && st.0 % 2 == 1)
            &&& *final(adjustment) == st.2
            &&& *final(new_normal) == st.3
        }),
        bounded(*final(adjustment), 1_000_010),
        bounded(*final(new_normal), nbound + 100_001 * (polygon.points@.len() as int)),
{
    let ghost adj0 = *adjustment;
    let ghost nrm0 = *new_normal;
    let ghost side_g = polygon.collision_side as int;
    let points = &polygon.points;
    let mut counter: i64 = 0;
    let mut colliding_with_polygon = false;
    let mut line_index: usize = 1;
    let n = points.len();
    if n < 1 {
        assert(edges_fold(pos, prev, radius as int, side_g, points@, n as int, adj0, nrm0)
            == (0int, false, adj0, nrm0));
        return false;
    }
    while line_index < n
        invariant
            1 <= line_index <= n || (n < 1 && line_index == 1),
            n == points@.len(),
            points == &polygon.points,
            side_g == polygon.collision_side as int,
            bounded(pos, 180_000_000),
            bounded(prev, 180_000_000),
            0 <= radius <= 1_000_000,
            crate::level::all_in_range(polygon.points@),
            0 <= nbound,
            nbound + 100_001 * (points@.len() as int) <= 2_000_000_000,
            0 <= counter <= line_index,
            (counter as int, colliding_with_polygon, *adjustment, *new_normal)
                == edges_fold(pos, prev, radius as int, side_g, points@,
                    line_index as int, adj0, nrm0),
            bounded(*adjustment, 1_000_010),
            bounded(*new_normal, nbound + 100_001 * (line_index as int - 1)),
        decreases n - line_index,
    {
        let start = points[line_index - 1];
        let end = points[line_index];
        let ghost st_before = (counter as int, colliding_with_polygon,
            *adjustment, *new_normal);
        // Only edges whose outside test at the previous position matches the
        // polygon's collision side take part — in the tunnelling parity too.
        let previous_side_of_line = side_of_line_detection(start, end, prev);
        if previous_side_of_line == polygon.collision_side {
        let ray_end = Vec2::new(pos.x + COLLISION_RAYCAST_DX, pos.y + COLLISION_RAYCAST_DY);
        assert(ray_end == collision_ray_end(pos));
        let intersection = line_intersect(start, end, pos, ray_end);
        if intersection.is_some() {
            counter += 1;
        }
        if !(start.x == end.x && start.y == end.y) {
            assert(start != end);
            let pr = find_projection(start, end, pos, radius);
            let dist_sq = pr.0;
            let projection = pr.1;
            proof {
                assert(0 <= radius * radius <= 1_000_000_000_000
                    && 0 <= (radius + COLLISION_TOUCH_THRESHOLD) * (radius + COLLISION_TOUCH_THRESHOLD)
                        <= 1_100_000_000_000) by (nonlinear_arith)
                    requires 0 <= radius <= 1_000_000;
            }
            let colliding_with_line = dist_sq <= radius * radius;
            colliding_with_polygon = colliding_with_polygon || colliding_with_line;
            let touching_line = dist_sq
                <= (radius + COLLISION_TOUCH_THRESHOLD) * (radius + COLLISION_TOUCH_THRESHOLD);
            let diff = pos.minus(projection);
            proof {
                assert(diff == (Vec2 {
                    x: (pos.x - projection.x) as i64, y: (pos.y - projection.y) as i64 }));
            }
            let ndir = normalize_or_zero(diff);
            if touching_line {
                *new_normal = Vec2 {
                    x: new_normal.x - ndir.x,
                    y: new_normal.y - ndir.y,
                };
            }
            if colliding_with_line {
                let dist = crate::vec2::isqrt(dist_sq);
                proof {
                    lemma_sqrt_le(dist_sq as int, radius as int);
                    assert(-100_001 * 1_000_000 <= ndir.x * (radius - dist)
                        && ndir.x * (radius - dist) <= 100_001 * 1_000_000
                        && -100_001 * 1_000_000 <= ndir.y * (radius - dist)
                        && ndir.y * (radius - dist) <= 100_001 * 1_000_000)
                        by (nonlinear_arith)
                        requires
                            bounded(ndir, 100_001) && 0 <= radius - dist <= 1_000_000;
                    lemma_div_above(ndir.x * (radius - dist), DIR_ONE as int, -1_000_010);
                    lemma_div_below(ndir.x * (radius - dist), DIR_ONE as int, 1_000_011);
                    lemma_div_above(ndir.y * (radius - dist), DIR_ONE as int, -1_000_010);
                    lemma_div_below(ndir.y * (radius - dist), DIR_ONE as int, 1_000_011);
                }
                let dx = crate::vec2::floor_div(ndir.x * (radius - dist), DIR_ONE);
                let dy = crate::vec2::floor_div(ndir.y * (radius - dist), DIR_ONE);
                let ax = if abs_i64(dx) > abs_i64(adjustment.x) { dx } else { adjustment.x };
                let ay = if abs_i64(dy) > abs_i64(adjustment.y) { dy } else { adjustment.y };
                *adjustment = Vec2 { x: ax, y: ay };
            }
        }
        }
        proof {
            assert((counter as int, colliding_with_polygon, *adjustment, *new_normal)
                == edge_step(pos, prev, radius as int, side_g,
                    points@[line_index as int - 1], points@[line_index as int], st_before));
        }
        line_index += 1;
    }
    colliding_with_polygon && counter % 2 == 1
}

/// One collision pass for one entity: casts the fixed tunnelling ray against
/// each polygon's collision-side-eligible edges, accumulates per-axis
/// positional corrections (keeping the largest magnitude per axis) and
/// contact normals from nearby edges, teleports the entity back to its
/// previous position when it has crossed a polygon boundary, removes the
/// velocity component along the normalized accumulated normal (wall
/// sliding), and applies the positional correction.
pub fn s_collision(position: &mut Vec2, physics: &mut Physics, polygons: &Vec<Polygon>)
    requires
        bounded(*old(position), 180_000_000),
        bounded(old(physics).prev_position, 180_000_000),
        bounded(old(physics).velocity, 1_000_000),
        0 <= old(physics).radius <= 1_000_000,
        polys_ok(polygons@),
    ensures
        ({
            let r = s_collision_spec(*old(position), *old(physics), polygons@);
            &&& *final(position) == r.0
            &&& *final(physics) == r.1
        }),
        bounded(final(physics).velocity, 3_100_000),
{
    let mut adjustment = Vec2::zero();
    let mut new_normal = Vec2::zero();
    let mut pos = *position;
    let mut pi: usize = 0;
    while pi < polygons.len()
        invariant
            0 <= pi <= polygons@.len(),
            polys_ok(polygons@),
            bounded(pos, 180_000_000),
            bounded(*old(position), 180_000_000),
            bounded(old(physics).prev_position, 180_000_000),
            bounded(old(physics).velocity, 1_000_000),
            0 <= old(physics).radius <= 1_000_000,
            *physics == *old(physics),
            (pos, adjustment, new_normal) == polys_fold(
                *old(position), old(physics).prev_position,
                old(physics).radius as int, polygons@, pi as int),
            bounded(adjustment, 1_000_010),
            bounded(new_normal, 100_001 * polys_points_total(polygons@, pi as int)),
        decreases polygons@.len() - pi,
    {
        let polygon = &polygons[pi];
        proof {
            lemma_points_total_mono(polygons@, pi as int, polygons@.len() as int);
            lemma_points_total_mono(polygons@, pi as int + 1, polygons@.len() as int);
            assert(polys_points_total(polygons@, pi as int + 1)
                == polys_points_total(polygons@, pi as int)
                    + polygon.points@.len());
            assert(0 <= 100_001 * polys_points_total(polygons@, pi as int)
                && 100_001 * polys_points_total(polygons@, pi as int)
                    + 100_001 * (polygon.points@.len() as int)
                    <= 100_001 * 19_999) by (nonlinear_arith)
                requires
                    0 <= polys_points_total(polygons@, pi as int),
                    polys_points_total(polygons@, pi as int)
                        + polygon.points@.len() <= 19_999;
        }
        let teleport = collide_polygon(
            pos, physics.prev_position, physics.radius, polygon,
            &mut adjustment, &mut new_normal,
            Ghost(100_001 * polys_points_total(polygons@, pi as int)));
        if teleport {
            pos = physics.prev_position;
        }
        proof {
            assert((pos, adjustment, new_normal) == polys_fold(
                *old(position), old(physics).prev_position,
                old(physics).radius as int, polygons@, pi as int + 1));
        }
        pi += 1;
    }
    proof {
        lemma_points_total_mono(polygons@, polygons@.len() as int, polygons@.len() as int);
        assert(100_001 * polys_points_total(polygons@, polygons@.len() as int)
            <= 100_001 * 19_999) by (nonlinear_arith)
            requires 0 <= polys_points_total(polygons@, polygons@.len() as int) <= 19_999;
    }
    // Normalize the accumulated normal and slide the velocity along it.
    let normal = normalize_or_zero(new_normal);
    proof {
        assert(-100_001_000_000 <= physics.velocity.x * normal.x
            && physics.velocity.x * normal.x <= 100_001_000_000
            && -100_001_000_000 <= physics.velocity.y * normal.y
            && physics.velocity.y * normal.y <= 100_001_000_000)
            by (nonlinear_arith)
            requires bounded(physics.velocity, 1_000_000) && bounded(normal, 100_001);
    }
    let dotv = physics.velocity.x * normal.x + physics.velocity.y * normal.y;
    proof {
        assert((DIR_ONE as int) * (DIR_ONE as int) == 10_000_000_000) by (nonlinear_arith);
        assert(-2_100_000 * 10_000_000_000 <= (dotv as int) * (normal.x as int)
            && (dotv as int) * (normal.x as int) < 2_100_000 * 10_000_000_000
            && -2_100_000 * 10_000_000_000 <= (dotv as int) * (normal.y as int)
            && (dotv as int) * (normal.y as int) < 2_100_000 * 10_000_000_000)
            by (nonlinear_arith)
            requires -200_002_000_000 <= dotv as int <= 200_002_000_000
                && bounded(normal, 100_001);
    }
    let scale: i64 = DIR_ONE * DIR_ONE;
    let vax = crate::vec2::floor_div(dotv * normal.x, scale);
    let vay = crate::vec2::floor_div(dotv * normal.y, scale);
    proof {
        lemma_div_above((dotv as int) * (normal.x as int), scale as int, -2_100_000);
        lemma_div_below((dotv as int) * (normal.x as int), scale as int, 2_100_000);
        lemma_div_above((dotv as int) * (normal.y as int), scale as int, -2_100_000);
        lemma_div_below((dotv as int) * (normal.y as int), scale as int, 2_100_000);
    }
    let new_velocity = Vec2 {
        x: physics.velocity.x - vax,
        y: physics.velocity.y - vay,
    };
    *physics = Physics {
        prev_position: physics.prev_position,
        velocity: new_velocity,
        acceleration: physics.acceleration,
        radius: physics.radius,
        normal,
    };
    *position = Vec2 {
        x: pos.x + adjustment.x,
        y: pos.y + adjustment.y,
    };
}

/// An entity of radius `R` approaching a straight vertical wall head-on from
/// the left never ends up with its centre nearer to the wall than `R`: for
/// any per-frame displacement that does not carry it past the wall line, the
/// collision pass either corrects it to exactly distance `R`, or — when it
/// has reached the wall line itself, or crossed the fixed test ray an odd
/// number of times — puts it back at its previous position, which was at
/// least `R` away, moved only farther from the wall.
#[verifier::rlimit(100)]
pub proof fn lemma_head_on_wall_never_penetrates(
    polys: Seq<Polygon>,
    pos: Vec2,
    phys: Physics,
    w: i64,
    y0: i64,
    y1: i64,
)
    requires
        polys.len() == 1,
        polys[0].points@ =~= seq![Vec2 { x: w, y: y0 }, Vec2 { x: w, y: y1 }],
        polys[0].collision_side == 1,
        in_range(Vec2 { x: w, y: y0 }),
        in_range(Vec2 { x: w, y: y1 }),
        bounded(pos, 180_000_000),
        bounded(phys.prev_position, 180_000_000),
        y0 < pos.y < y1,
        phys.prev_position.y == pos.y,
        1 <= phys.radius <= 1_000_000,
        phys.prev_position.x <= w - phys.radius,
        phys.prev_position.x <= pos.x <= w,
    ensures
        s_collision_spec(pos, phys, polys).0.x <= w - phys.radius,
{
    let prev = phys.prev_position;
    let radius = phys.radius as int;
    let a = Vec2 { x: w, y: y0 };
    let b = Vec2 { x: w, y: y1 };
    let dy01 = y1 - y0;
    let pvy = pos.y - y0;
    let zero = Vec2 { x: 0, y: 0 };
    // The whole pass reduces to one edge step from the initial state.
    assert(polys_fold(pos, prev, radius, polys, 0) == (pos, zero, zero));
    assert(polys[0].points@.len() == 2);
    assert(polys[0].points@[0] == a && polys[0].points@[1] == b);
    assert(edges_fold(pos, prev, radius, 1, polys[0].points@, 1, zero, zero)
        == (0int, false, zero, zero));
    let st = edges_fold(pos, prev, radius, 1, polys[0].points@, 2, zero, zero);
    assert(st == edge_step(pos, prev, radius, 1, a, b, (0int, false, zero, zero)));
    // The previous position lies on the wall's positive side.
    let det = cross2(b.x - a.x, b.y - a.y, prev.x - a.x, prev.y - a.y);
    assert(det == (b.x - a.x) * (prev.y - a.y) - (b.y - a.y) * (prev.x - a.x));
    assert(det > 0) by (nonlinear_arith)
        requires
            det == (b.x - a.x) * (prev.y - a.y) - (b.y - a.y) * (prev.x - a.x),
            b.x == a.x,
            b.y - a.y >= 1,
            prev.x - a.x <= -1;
    assert(side_of_line(a, b, prev) == 1);
    // The projection lands inside the segment, straight across from `pos`.
    let d0 = w - pos.x;
    let den = dy01 * dy01;
    let pvlv = pvy * dy01;
    assert(0 < pvlv && pvlv < den && den >= 1) by (nonlinear_arith)
        requires pvlv == pvy * dy01 && den == dy01 * dy01 && 0 < pvy && pvy < dy01;
    let pr = find_projection_spec(a, b, pos);
    assert(pr == (((pos.x - w) * (pos.x - w)) as int, Vec2 { x: w, y: pos.y })) by {
        assert((pos.x - a.x) * (b.x - a.x) + (pos.y - a.y) * (b.y - a.y) == pvlv)
            by (nonlinear_arith)
            requires a.x == b.x && pvlv == (pos.y - a.y) * (b.y - a.y);
        assert((b.x - a.x) * (b.x - a.x) + (b.y - a.y) * (b.y - a.y) == den)
            by (nonlinear_arith)
            requires a.x == b.x && den == (b.y - a.y) * (b.y - a.y);
        assert((a.x as int) * den == (w as int) * den + 0) by (nonlinear_arith)
            requires a.x == w;
        vstd::arithmetic::div_mod::lemma_fundamental_div_mod_converse(
            (a.x as int) * den, den, w as int, 0);
        assert((a.y as int) * den + (b.y - a.y) * pvlv == (pos.y as int) * den + 0)
            by (nonlinear_arith)
            requires
                den == dy01 * dy01 && pvlv == pvy * dy01
                && dy01 == b.y - a.y && pvy == pos.y - a.y;
        vstd::arithmetic::div_mod::lemma_fundamental_div_mod_converse(
            (a.y as int) * den + (b.y - a.y) * pvlv, den, pos.y as int, 0);
        assert((b.x - a.x) * pvlv == 0) by (nonlinear_arith) requires b.x == a.x;
    };
    let dist_sq = ((pos.x - w) * (pos.x - w)) as int;
    assert(dist_sq == d0 * d0) by (nonlinear_arith)
        requires dist_sq == (pos.x - w) * (pos.x - w) && d0 == w - pos.x;
    let colliding = dist_sq <= radius * radius;
    assert(colliding <==> d0 <= radius) by (nonlinear_arith)
        requires 0 <= d0 && 1 <= radius && dist_sq == d0 * d0
            && colliding == (dist_sq <= radius * radius);
    // The correction direction is straight back along the x axis.
    let dvec = Vec2 { x: (pos.x - w) as i64, y: 0 };
    let ndir = normalize_or_zero_spec(dvec);
    assert(crate::vec2::len_sq(dvec) == d0 * d0) by (nonlinear_arith)
        requires dvec.x == -d0 && dvec.y == 0;
    assert(d0 * d0 < (d0 + 1) * (d0 + 1)) by (nonlinear_arith) requires d0 >= 0;
    if pos.x < w {
        crate::vec2::lemma_sqrt_floor_unique((d0 * d0) as nat, d0 as nat);
        assert((dvec.x as int) * (DIR_ONE as int) == (-(DIR_ONE as int)) * (d0 as int) + 0)
            by (nonlinear_arith)
            requires dvec.x == -d0;
        vstd::arithmetic::div_mod::lemma_fundamental_div_mod_converse(
            (dvec.x as int) * (DIR_ONE as int), d0 as int, -(DIR_ONE as int), 0);
        assert(0int * (DIR_ONE as int) == 0int * (d0 as int) + 0) by (nonlinear_arith);
        vstd::arithmetic::div_mod::lemma_fundamental_div_mod_converse(
            0int * (DIR_ONE as int), d0 as int, 0, 0);
        assert(ndir == (Vec2 { x: (-(DIR_ONE as int)) as i64, y: 0 }));
    } else {
        assert(pos.x == w && d0 == 0);
        assert(dvec == zero);
        assert(ndir == zero);
    }
    if colliding {
        let dist = sqrt_floor(dist_sq as nat) as int;
        crate::vec2::lemma_sqrt_floor_unique((d0 * d0) as nat, d0 as nat);
        assert(dist == d0);
        if pos.x < w {
            // Correction of exactly radius - d0 back along x.
            assert((ndir.x as int) * (radius - dist) == (-(radius - d0)) * (DIR_ONE as int) + 0)
                by (nonlinear_arith)
                requires ndir.x as int == -(DIR_ONE as int) && dist == d0;
            vstd::arithmetic::div_mod::lemma_fundamental_div_mod_converse(
                (ndir.x as int) * (radius - dist), DIR_ONE as int, -(radius - d0), 0);
            assert((ndir.x as int) * (radius - dist) / (DIR_ONE as int) == -(radius - d0));
            assert(st.1);
            assert(st.2.x <= 0 && st.2.x == -(radius - d0) || st.2.x == 0);
            assert(st.2.x <= 0);
            assert(pos.x + st.2.x <= w - radius) by {
                if radius - d0 > 0 {
                    assert(st.2.x == -(radius - d0));
                } else {
                    assert(d0 >= radius);
                }
            };
            let final_pos = s_collision_spec(pos, phys, polys).0;
            if st.0 % 2 == 1 {
                assert(final_pos.x == prev.x + st.2.x);
            } else {
                assert(final_pos.x == pos.x + st.2.x);
            }
        } else {
            // Exactly on the wall line: the fixed ray starts on the segment,
            // so the crossing count is odd and the entity is teleported.
            let q2 = collision_ray_end(pos);
            let rden = crate::utils::seg_den(a, b, pos, q2);
            let rtn = crate::utils::seg_tn(a, b, pos, q2);
            let run = crate::utils::seg_un(a, b, pos, q2);
            assert(rden == (b.x - a.x) * (q2.y - pos.y) - (b.y - a.y) * (q2.x - pos.x));
            assert(rtn == (pos.x - a.x) * (q2.y - pos.y) - (pos.y - a.y) * (q2.x - pos.x));
            assert(run == (pos.x - a.x) * (b.y - a.y) - (pos.y - a.y) * (b.x - a.x));
            assert(rden < 0 && rden <= rtn && rtn <= 0 && run == 0) by (nonlinear_arith)
                requires
                    rden == (b.x - a.x) * (q2.y - pos.y) - (b.y - a.y) * (q2.x - pos.x),
                    rtn == (pos.x - a.x) * (q2.y - pos.y) - (pos.y - a.y) * (q2.x - pos.x),
                    run == (pos.x - a.x) * (b.y - a.y) - (pos.y - a.y) * (b.x - a.x),
                    b.x == a.x && pos.x == a.x,
                    q2.x - pos.x == COLLISION_RAYCAST_DX as int,
                    q2.y - pos.y == COLLISION_RAYCAST_DY as int,
                    0 < pos.y - a.y && pos.y - a.y < b.y - a.y;
            assert(seg_intersects(a, b, pos, q2));
            assert(st.0 == 1);
            assert(st.1);
            assert(st.2.x == 0) by {
                assert((0int * (radius - dist)) == 0int * (DIR_ONE as int) + 0) by (nonlinear_arith);
                vstd::arithmetic::div_mod::lemma_fundamental_div_mod_converse(
                    0int * (radius - dist), DIR_ONE as int, 0, 0);
            };
            let final_pos = s_collision_spec(pos, phys, polys).0;
            assert(final_pos.x == prev.x + 0);
        }
    } else {
        // No contact: the position is untouched and already far enough.
        assert(!st.1 && st.2 == zero);
        assert(d0 > radius);
        let final_pos = s_collision_spec(pos, phys, polys).0;
        assert(final_pos.x == pos.x);
    }
}

/// The horizontal counterpart: an entity approaching a straight horizontal
/// wall head-on from below never ends up with its centre nearer than its
/// radius.  (An exact statement is possible for axis-aligned walls, where
/// the fixed-point projection, square root and normalization all come out
/// without rounding; an obliquely oriented wall has no exactly representable
/// unit normal.)
#[verifier::rlimit(100)]
pub proof fn lemma_head_on_floor_never_penetrates(
    polys: Seq<Polygon>,
    pos: Vec2,
    phys: Physics,
    w: i64,
    x0: i64,
    x1: i64,
)
    requires
        polys.len() == 1,
        polys[0].points@ =~= seq![Vec2 { x: x0, y: w }, Vec2 { x: x1, y: w }],
        polys[0].collision_side == -1,
        in_range(Vec2 { x: x0, y: w }),
        in_range(Vec2 { x: x1, y: w }),
        bounded(pos, 180_000_000),
        bounded(phys.prev_position, 180_000_000),
        x0 < pos.x < x1,
        phys.prev_position.x == pos.x,
        1 <= phys.radius <= 1_000_000,
        phys.prev_position.y <= w - phys.radius,
        phys.prev_position.y <= pos.y <= w,
    ensures
        s_collision_spec(pos, phys, polys).0.y <= w - phys.radius,
{
    let prev = phys.prev_position;
    let radius = phys.radius as int;
    let a = Vec2 { x: x0, y: w };
    let b = Vec2 { x: x1, y: w };
    let dx01 = x1 - x0;
    let pvx = pos.x - x0;
    let zero = Vec2 { x: 0, y: 0 };
    // The whole pass reduces to one edge step from the initial state.
    assert(polys_fold(pos, prev, radius, polys, 0) == (pos, zero, zero));
    assert(polys[0].points@.len() == 2);
    assert(polys[0].points@[0] == a && polys[0].points@[1] == b);
    assert(edges_fold(pos, prev, radius, -1, polys[0].points@, 1, zero, zero)
        == (0int, false, zero, zero));
    let st = edges_fold(pos, prev, radius, -1, polys[0].points@, 2, zero, zero);
    assert(st == edge_step(pos, prev, radius, -1, a, b, (0int, false, zero, zero)));
    // The previous position lies below, on the wall's negative side.
    let det = cross2(b.x - a.x, b.y - a.y, prev.x - a.x, prev.y - a.y);
    assert(det == (b.x - a.x) * (prev.y - a.y) - (b.y - a.y) * (prev.x - a.x));
    assert(det < 0) by (nonlinear_arith)
        requires
            det == (b.x - a.x) * (prev.y - a.y) - (b.y - a.y) * (prev.x - a.x),
            b.y == a.y,
            b.x - a.x >= 1,
            prev.y - a.y <= -1;
    assert(side_of_line(a, b, prev) == -1);
    // The projection lands inside the segment, straight above `pos`.
    let d0 = w - pos.y;
    let den = dx01 * dx01;
    let pvlv = pvx * dx01;
    assert(0 < pvlv && pvlv < den && den >= 1) by (nonlinear_arith)
        requires pvlv == pvx * dx01 && den == dx01 * dx01 && 0 < pvx && pvx < dx01;
    let pr = find_projection_spec(a, b, pos);
    assert(pr == (((pos.y - w) * (pos.y - w)) as int, Vec2 { x: pos.x, y: w })) by {
        assert((pos.x - a.x) * (b.x - a.x) + (pos.y - a.y) * (b.y - a.y) == pvlv)
            by (nonlinear_arith)
            requires a.y == b.y && pvlv == (pos.x - a.x) * (b.x - a.x);
        assert((b.x - a.x) * (b.x - a.x) + (b.y - a.y) * (b.y - a.y) == den)
            by (nonlinear_arith)
            requires a.y == b.y && den == (b.x - a.x) * (b.x - a.x);
        assert((a.x as int) * den + (b.x - a.x) * pvlv == (pos.x as int) * den + 0)
            by (nonlinear_arith)
            requires
                den == dx01 * dx01 && pvlv == pvx * dx01
                && dx01 == b.x - a.x && pvx == pos.x - a.x;
        vstd::arithmetic::div_mod::lemma_fundamental_div_mod_converse(
            (a.x as int) * den + (b.x - a.x) * pvlv, den, pos.x as int, 0);
        assert((a.y as int) * den == (w as int) * den + 0) by (nonlinear_arith)
            requires a.y == w;
        vstd::arithmetic::div_mod::lemma_fundamental_div_mod_converse(
            (a.y as int) * den, den, w as int, 0);
        assert((b.y - a.y) * pvlv == 0) by (nonlinear_arith) requires b.y == a.y;
    };
    let dist_sq = ((pos.y - w) * (pos.y - w)) as int;
    assert(dist_sq == d0 * d0) by (nonlinear_arith)
        requires dist_sq == (pos.y - w) * (pos.y - w) && d0 == w - pos.y;
    let colliding = dist_sq <= radius * radius;
    assert(colliding <==> d0 <= radius) by (nonlinear_arith)
        requires 0 <= d0 && 1 <= radius && dist_sq == d0 * d0
            && colliding == (dist_sq <= radius * radius);
    // The correction direction is straight back down along the y axis.
    let dvec = Vec2 { x: 0, y: (pos.y - w) as i64 };
    let ndir = normalize_or_zero_spec(dvec);
    assert(crate::vec2::len_sq(dvec) == d0 * d0) by (nonlinear_arith)
        requires dvec.y == -d0 && dvec.x == 0;
    assert(d0 * d0 < (d0 + 1) * (d0 + 1)) by (nonlinear_arith) requires d0 >= 0;
    if pos.y < w {
        crate::vec2::lemma_sqrt_floor_unique((d0 * d0) as nat, d0 as nat);
        assert((dvec.y as int) * (DIR_ONE as int) == (-(DIR_ONE as int)) * (d0 as int) + 0)
            by (nonlinear_arith)
            requires dvec.y == -d0;
        vstd::arithmetic::div_mod::lemma_fundamental_div_mod_converse(
            (dvec.y as int) * (DIR_ONE as int), d0 as int, -(DIR_ONE as int), 0);
        assert(0int * (DIR_ONE as int) == 0int * (d0 as int) + 0) by (nonlinear_arith);
        vstd::arithmetic::div_mod::lemma_fundamental_div_mod_converse(
            0int * (DIR_ONE as int), d0 as int, 0, 0);
        assert(ndir == (Vec2 { x: 0, y: (-(DIR_ONE as int)) as i64 }));
    } else {
        assert(pos.y == w && d0 == 0);
        assert(dvec == zero);
        assert(ndir == zero);
    }
    if colliding {
        let dist = sqrt_floor(dist_sq as nat) as int;
        crate::vec2::lemma_sqrt_floor_unique((d0 * d0) as nat, d0 as nat);
        assert(dist == d0);
        if pos.y < w {
            // Correction of exactly radius - d0 back along y.
            assert((ndir.y as int) * (radius - dist) == (-(radius - d0)) * (DIR_ONE as int) + 0)
                by (nonlinear_arith)
                requires ndir.y as int == -(DIR_ONE as int) && dist == d0;
            vstd::arithmetic::div_mod::lemma_fundamental_div_mod_converse(
                (ndir.y as int) * (radius - dist), DIR_ONE as int, -(radius - d0), 0);
            assert((ndir.y as int) * (radius - dist) / (DIR_ONE as int) == -(radius - d0));
            assert(st.1);
            assert(st.2.y <= 0 && st.2.y == -(radius - d0) || st.2.y == 0);
            assert(st.2.y <= 0);
            assert(pos.y + st.2.y <= w - radius) by {
                if radius - d0 > 0 {
                    assert(st.2.y == -(radius - d0));
                } else {
                    assert(d0 >= radius);
                }
            };
            let final_pos = s_collision_spec(pos, phys, polys).0;
            if st.0 % 2 == 1 {
                assert(final_pos.y == prev.y + st.2.y);
            } else {
                assert(final_pos.y == pos.y + st.2.y);
            }
        } else {
            // Exactly on the wall line: the fixed ray starts on the segment,
            // so the crossing count is odd and the entity is teleported.
            let q2 = collision_ray_end(pos);
            let rden = crate::utils::seg_den(a, b, pos, q2);
            let rtn = crate::utils::seg_tn(a, b, pos, q2);
            let run = crate::utils::seg_un(a, b, pos, q2);
            assert(rden == (b.x - a.x) * (q2.y - pos.y) - (b.y - a.y) * (q2.x - pos.x));
            assert(rtn == (pos.x - a.x) * (q2.y - pos.y) - (pos.y - a.y) * (q2.x - pos.x));
            assert(run == (pos.x - a.x) * (b.y - a.y) - (pos.y - a.y) * (b.x - a.x));
            assert(rden > 0 && 0 <= rtn && rtn <= rden && run == 0) by (nonlinear_arith)
                requires
                    rden == (b.x - a.x) * (q2.y - pos.y) - (b.y - a.y) * (q2.x - pos.x),
                    rtn == (pos.x - a.x) * (q2.y - pos.y) - (pos.y - a.y) * (q2.x - pos.x),
                    run == (pos.x - a.x) * (b.y - a.y) - (pos.y - a.y) * (b.x - a.x),
                    b.y == a.y && pos.y == a.y,
                    q2.x - pos.x == COLLISION_RAYCAST_DX as int,
                    q2.y - pos.y == COLLISION_RAYCAST_DY as int,
                    0 < pos.x - a.x && pos.x - a.x < b.x - a.x;
            assert(seg_intersects(a, b, pos, q2));
            assert(st.0 == 1);
            assert(st.1);
            assert(st.2.y == 0) by {
                assert((0int * (radius - dist)) == 0int * (DIR_ONE as int) + 0) by (nonlinear_arith);
                vstd::arithmetic::div_mod::lemma_fundamental_div_mod_converse(
                    0int * (radius - dist), DIR_ONE as int, 0, 0);
            };
            let final_pos = s_collision_spec(pos, phys, polys).0;
            assert(final_pos.y == prev.y + 0);
        }
    } else {
        // No contact: the position is untouched and already far enough.
        assert(!st.1 && st.2 == zero);
        assert(d0 > radius);
        let final_pos = s_collision_spec(pos, phys, polys).0;
        assert(final_pos.y == pos.y);
    }
}

} // verus!
