use vstd::prelude::*;
use crate::vec2::{Vec2, bounded, in_range, len_sq, DIR_ONE,
    normalize_or_zero, normalize_or_zero_spec, floor_div, lemma_div_above, lemma_div_below};
use crate::utils::{line_intersect, seg_intersects, lerp, lerp_spec, BLEND_ONE};
use crate::spatial::{Edge, SpatialGrid};
use crate::level::Color;

verus! {

/// Maximum wander speed, in coordinate units per frame.
pub const WANDER_MAX_SPEED: i64 = 3_000;

/// Maximum flee speed, in coordinate units per frame.
pub const FLEE_MAX_SPEED: i64 = 5_000;

/// Reciprocal of the steering scale: the steering force is one tenth of the
/// difference between desired and current velocity.
pub const STEERING_DIV: i64 = 10;

/// Beyond this distance the AI always wanders, in coordinate units.
pub const AI_MAX_DETECTION_DISTANCE: i64 = 400_000;

/// Below this distance a visible player forces pure flee, in units.
pub const AI_MIN_FLEE_DISTANCE: i64 = 200_000;

/// Length of the obstruction test rays, in coordinate units.
pub const AI_RAYCAST_DISTANCE: i64 = 100_000;

/// Radius of the wander circle, in coordinate units.
pub const AI_WANDER_RADIUS: i64 = 50_000;

/// Largest per-frame wander angle displacement, in tenths of a degree.
pub const AI_WANDER_DISPLACE_RANGE: i64 = 172;

/// Below this movement (squared) the line-of-sight cache stays valid.
pub const LOS_CACHE_THRESHOLD: i64 = 5_000;

/// Squared speed below which a velocity counts as zero for direction
/// purposes.
pub const SMALL_VEL_SQ: i64 = 100;

/// Angle units in a full turn (tenths of a degree).
pub const ANGLE_FULL_TURN: i64 = 3600;

/// Marker for the flee-AI subsystem; the per-frame entry point is
/// `s_flee_ai_movement`, which must run before the collision pass.
pub struct FleeAIPlugin;

/// A flee-AI agent: its weight for each of the 16 sampled directions, its
/// persistent wander angle (tenths of a degree in `[0, 3600)`), its display
/// colour, and its flee/wander blend factor scaled by `BLEND_ONE`.
pub struct FleeAI {
    pub dir_weights: Vec<i64>,
    pub wander_angle: i64,
    pub color: Color,
    pub blend: i64,
}

/// Well-formedness of an agent's state.
pub open spec fn flee_ai_wf(ai: FleeAI) -> bool {
    &&& ai.dir_weights@.len() == 16
    &&& 0 <= ai.blend <= BLEND_ONE
    &&& 0 <= ai.wander_angle < ANGLE_FULL_TURN
}

/// Rational half-wave sine approximation on `[0, 1800]` tenths of a degree,
/// scaled by `DIR_ONE`.
pub open spec fn half_sine(x: int) -> int {
    let u = x * (1800 - x);
    (4 * u * (DIR_ONE as int)) / (4_050_000 - u)
}

/// Approximate sine of an angle in tenths of a degree, scaled by `DIR_ONE`.
pub open spec fn sin_deci(a: int) -> int {
    let m = a % (ANGLE_FULL_TURN as int);
    if m < 1800 {
        half_sine(m)
    } else {
        -half_sine(m - 1800)
    }
}

/// Approximate cosine of an angle in tenths of a degree, scaled by
/// `DIR_ONE`.
pub open spec fn cos_deci(a: int) -> int {
    sin_deci(a + 900)
}

/// Unit direction vector (scaled by `DIR_ONE`) for an angle in tenths of a
/// degree.
pub open spec fn from_angle_spec(a: int) -> Vec2 {
    Vec2 { x: cos_deci(a) as i64, y: sin_deci(a) as i64 }
}

/// The half-wave sine stays within `[0, DIR_ONE]`.
pub proof fn lemma_half_sine_bounds(x: int)
    requires
        0 <= x <= 1800,
    ensures
        0 <= half_sine(x) <= DIR_ONE,
{
    let u = x * (1800 - x);
    assert(0 <= u <= 810_000) by (nonlinear_arith)
        requires u == x * (1800 - x) && 0 <= x <= 1800;
    assert(0 <= 4 * u * (DIR_ONE as int)
        && 4 * u * (DIR_ONE as int) <= (DIR_ONE as int) * (4_050_000 - u)) by (nonlinear_arith)
        requires 0 <= u <= 810_000;
    lemma_div_above(4 * u * (DIR_ONE as int), 4_050_000 - u, 0);
    assert(4 * u * (DIR_ONE as int) < ((DIR_ONE as int) + 1) * (4_050_000 - u))
        by (nonlinear_arith)
        requires 0 <= u <= 810_000
            && 4 * u * (DIR_ONE as int) <= (DIR_ONE as int) * (4_050_000 - u);
    lemma_div_below(4 * u * (DIR_ONE as int), 4_050_000 - u, (DIR_ONE as int) + 1);
}

/// Direction vectors from angles are unit-bounded.
pub proof fn lemma_from_angle_bounded(a: int)
    ensures
        bounded(from_angle_spec(a), DIR_ONE as int),
{
    vstd::arithmetic::div_mod::lemma_mod_bound(a, ANGLE_FULL_TURN as int);
    vstd::arithmetic::div_mod::lemma_mod_bound(a + 900, ANGLE_FULL_TURN as int);
    let m = a % (ANGLE_FULL_TURN as int);
    if m < 1800 {
        lemma_half_sine_bounds(m);
    } else {
        lemma_half_sine_bounds(m - 1800);
    }
    let m2 = (a + 900) % (ANGLE_FULL_TURN as int);
    if m2 < 1800 {
        lemma_half_sine_bounds(m2);
    } else {
        lemma_half_sine_bounds(m2 - 1800);
    }
}

/// Euclidean remainder of `a` modulo the full turn.
fn wrap_angle(a: i64) -> (r: i64)
    requires
        -1_000_001_000 <= a <= 1_000_001_000,
    ensures
        r == (a as int) % (ANGLE_FULL_TURN as int),
        0 <= r < ANGLE_FULL_TURN,
{
    let q = floor_div(a, ANGLE_FULL_TURN);
    proof {
        vstd::arithmetic::div_mod::lemma_fundamental_div_mod(a as int, ANGLE_FULL_TURN as int);
        vstd::arithmetic::div_mod::lemma_mod_bound(a as int, ANGLE_FULL_TURN as int);
        assert((ANGLE_FULL_TURN as int) * q >= -1_100_000_000_000
            && (ANGLE_FULL_TURN as int) * q <= 1_100_000_000_000) by (nonlinear_arith)
            requires -280_000_000 <= q <= 280_000_000;
    }
    a - ANGLE_FULL_TURN * q
}

/// Unit direction vector (scaled by `DIR_ONE`) for an angle in tenths of a
/// degree, from a rational quarter-wave sine approximation.
pub fn from_angle(a: i64) -> (r: Vec2)
    requires
        -1_000_000_000 <= a <= 1_000_000_000,
    ensures
        r == from_angle_spec(a as int),
        bounded(r, DIR_ONE as int),
{
    let m = wrap_angle(a);
    let mc = wrap_angle_add(a);
    let y = half_wave(m);
    let x = half_wave(mc);
    proof {
        lemma_from_angle_bounded(a as int);
    }
    Vec2 { x, y }
}

/// Euclidean remainder of `a + 900` modulo the full turn.
fn wrap_angle_add(a: i64) -> (r: i64)
    requires
        -1_000_000_000 <= a <= 1_000_000_000,
    ensures
        r == (a as int + 900) % (ANGLE_FULL_TURN as int),
        0 <= r < ANGLE_FULL_TURN,
{
    wrap_angle(a + 900)
}

/// Signed sine value for a wrapped angle in `[0, 3600)`.
fn half_wave(m: i64) -> (r: i64)
    requires
        0 <= m < ANGLE_FULL_TURN,
    ensures
        r == (if m < 1800 { half_sine(m as int) } else { -half_sine(m as int - 1800) }),
{
    if m < 1800 {
        half_sine_exec(m)
    } else {
        -half_sine_exec(m - 1800)
    }
}

/// Exec counterpart of `half_sine`.
fn half_sine_exec(x: i64) -> (r: i64)
    requires
        0 <= x <= 1800,
    ensures
        r == half_sine(x as int),
        0 <= r <= DIR_ONE,
{
    proof {
        assert(0 <= x * (1800 - x) <= 810_000) by (nonlinear_arith) requires 0 <= x <= 1800;
    }
    let u = x * (1800 - x);
    proof {
        lemma_half_sine_bounds(x as int);
        assert(0 <= 4 * u * DIR_ONE) by (nonlinear_arith) requires u >= 0;
        assert(4 * u * (DIR_ONE as int) <= 324_000_000_000) by (nonlinear_arith)
            requires 0 <= u <= 810_000;
    }
    let num = 4 * u * DIR_ONE;
    let den = 4_050_000 - u;
    num / den
}

/// A per-agent cache of the last line-of-sight result, keyed on how far the
/// agent and the player have moved since it was stored.
pub struct LosCache {
    pub last_player_pos: Vec2,
    pub last_ai_pos: Vec2,
    pub cached_los_result: Option<bool>,
}

/// No stored edge blocks the straight line from `from` to `to`.
pub open spec fn visible_spec(edges: Seq<Edge>, from: Vec2, to: Vec2) -> bool {
    forall|k: int| 0 <= k < edges.len()
        ==> !seg_intersects((#[trigger] edges[k]).start, edges[k].end, from, to)
}

/// The cached result may be reused: neither the player nor the agent has
/// moved past the staleness threshold, and a result is stored.
pub open spec fn cache_usable(c: LosCache, ai: Vec2, player: Vec2) -> bool {
    let pdx = player.x - c.last_player_pos.x;
    let pdy = player.y - c.last_player_pos.y;
    let adx = ai.x - c.last_ai_pos.x;
    let ady = ai.y - c.last_ai_pos.y;
    &&& !(pdx * pdx + pdy * pdy > (LOS_CACHE_THRESHOLD as int) * (LOS_CACHE_THRESHOLD as int))
    &&& adx * adx + ady * ady < (LOS_CACHE_THRESHOLD as int) * (LOS_CACHE_THRESHOLD as int)
    &&& c.cached_los_result is Some
}

/// Line-of-sight test from the agent to the player through the spatial
/// grid, with a movement-keyed cache: if both stayed within the staleness
/// threshold the stored answer is reused, otherwise the ray is re-tested
/// against the edges along it and the cache refreshed.
pub fn can_see_player(
    cache: &mut LosCache,
    grid: &SpatialGrid,
    ai_pos: Vec2,
    player: Vec2,
) -> (r: bool)
    requires
        grid.wf(),
        in_range(ai_pos),
        in_range(player),
        in_range(old(cache).last_player_pos),
        in_range(old(cache).last_ai_pos),
    ensures
        r == (if cache_usable(*old(cache), ai_pos, player) {
            old(cache).cached_los_result->Some_0
        } else {
            visible_spec(grid.edges(), ai_pos, player)
        }),
        *final(cache) == (if cache_usable(*old(cache), ai_pos, player) {
            *old(cache)
        } else {
            LosCache {
                last_player_pos: player,
                last_ai_pos: ai_pos,
                cached_los_result: Some(visible_spec(grid.edges(), ai_pos, player)),
            }
        }),
{
    let pdx = player.x - cache.last_player_pos.x;
    let pdy = player.y - cache.last_player_pos.y;
    let adx = ai_pos.x - cache.last_ai_pos.x;
    let ady = ai_pos.y - cache.last_ai_pos.y;
    proof {
        assert(-160_000_000_000_000_000 <= pdx * pdx <= 160_000_000_000_000_000
            && -160_000_000_000_000_000 <= pdy * pdy <= 160_000_000_000_000_000
            && -160_000_000_000_000_000 <= adx * adx <= 160_000_000_000_000_000
            && -160_000_000_000_000_000 <= ady * ady <= 160_000_000_000_000_000)
            by (nonlinear_arith)
            requires
                -400_000_000 <= pdx <= 400_000_000,
                -400_000_000 <= pdy <= 400_000_000,
                -400_000_000 <= adx <= 400_000_000,
                -400_000_000 <= ady <= 400_000_000;
    }
    let player_moved = pdx * pdx + pdy * pdy > LOS_CACHE_THRESHOLD * LOS_CACHE_THRESHOLD;
    let ai_still = adx * adx + ady * ady < LOS_CACHE_THRESHOLD * LOS_CACHE_THRESHOLD;
    if !player_moved && ai_still && cache.cached_los_result.is_some() {
        let r = match cache.cached_los_result {
            Some(v) => v,
            None => false,
        };
        return r;
    }
    let edges = grid.edges_along_ray(ai_pos, player);
    let mut can_see = true;
    let mut i: usize = 0;
    while i < edges.len() && can_see
        invariant
            0 <= i <= edges@.len(),
            in_range(ai_pos),
            in_range(player),
            forall|k: int| 0 <= k < edges@.len() ==> grid.edges().contains(#[trigger] edges@[k]),
            forall|k: int| 0 <= k < edges@.len()
                ==> in_range((#[trigger] edges@[k]).start) && in_range(edges@[k].end),
            can_see ==> forall|k: int| 0 <= k < i
                ==> !seg_intersects((#[trigger] edges@[k]).start, edges@[k].end, ai_pos, player),
            !can_see ==> exists|k: int| 0 <= k < edges@.len()
                && seg_intersects((#[trigger] edges@[k]).start, edges@[k].end, ai_pos, player),
        decreases edges@.len() - i,
    {
        let e = edges[i];
        if line_intersect(e.start, e.end, ai_pos, player).is_some() {
            can_see = false;
        }
        i += 1;
    }
    proof {
        if can_see {
            assert forall|k: int| 0 <= k < grid.edges().len()
                implies !seg_intersects((#[trigger] grid.edges()[k]).start,
                    grid.edges()[k].end, ai_pos, player) by {
                let e = grid.edges()[k];
                assert(grid.edges().contains(e));
                if seg_intersects(e.start, e.end, ai_pos, player) {
                    assert(edges@.contains(e));
                    let j = choose|j: int| 0 <= j < edges@.len() && edges@[j] == e;
                }
            };
            assert(visible_spec(grid.edges(), ai_pos, player));
        } else {
            let k = choose|k: int| 0 <= k < edges@.len()
                && seg_intersects((#[trigger] edges@[k]).start, edges@[k].end, ai_pos, player);
            assert(grid.edges().contains(edges@[k]));
            let j = choose|j: int| 0 <= j < grid.edges().len() && grid.edges()[j] == edges@[k];
            assert(!visible_spec(grid.edges(), ai_pos, player));
        }
    }
    cache.last_player_pos = player;
    cache.last_ai_pos = ai_pos;
    cache.cached_los_result = Some(can_see);
    can_see
}

/// The `i`-th of the 16 evenly spaced sampling directions (22.5 degrees
/// apart), scaled by `DIR_ONE`.
pub open spec fn dir16(i: int) -> Vec2 {
    from_angle_spec(225 * i)
}

/// The 16 evenly spaced unit direction vectors.
pub fn get_direction_vectors() -> (r: Vec<Vec2>)
    ensures
        r@.len() == 16,
        forall|i: int| 0 <= i < 16 ==> #[trigger] r@[i] == dir16(i)
            && bounded(r@[i], DIR_ONE as int),
{
    let mut dirs: Vec<Vec2> = Vec::new();
    let mut i: i64 = 0;
    while i < 16
        invariant
            0 <= i <= 16,
            dirs@.len() == i,
            forall|k: int| 0 <= k < i ==> #[trigger] dirs@[k] == dir16(k)
                && bounded(dirs@[k], DIR_ONE as int),
        decreases 16 - i,
    {
        let d = from_angle(225 * i);
        dirs.push(d);
        i += 1;
    }
    dirs
}

/// The velocity's unit direction, or the wander-angle direction when the
/// velocity is (nearly) zero.
pub open spec fn heading_spec(velocity: Vec2, angle: int) -> Vec2 {
    if len_sq(velocity) > SMALL_VEL_SQ {
        normalize_or_zero_spec(velocity)
    } else {
        from_angle_spec(angle)
    }
}

/// The wander steering direction: the velocity direction projected forward
/// by the raycast distance gives a circle centre candidate; the persistent
/// wander angle, rotated by the heading, picks a point on the wander circle
/// around it; the result is the unit direction from the agent to that point.
pub open spec fn wander_dir_spec(velocity: Vec2, position: Vec2, angle: int) -> Vec2 {
    let vdir = heading_spec(velocity, angle);
    let wpx = position.x + (vdir.x * (AI_RAYCAST_DISTANCE as int)) / (DIR_ONE as int);
    let wpy = position.y + (vdir.y * (AI_RAYCAST_DISTANCE as int)) / (DIR_ONE as int);
    let rot = from_angle_spec(angle);
    let offx = ((rot.x * vdir.x - rot.y * vdir.y) * (AI_WANDER_RADIUS as int))
        / ((DIR_ONE as int) * (DIR_ONE as int));
    let offy = ((rot.x * vdir.y + rot.y * vdir.x) * (AI_WANDER_RADIUS as int))
        / ((DIR_ONE as int) * (DIR_ONE as int));
    normalize_or_zero_spec(Vec2 {
        x: (wpx + offx - position.x) as i64,
        y: (wpy + offy - position.y) as i64,
    })
}

/// Computes the wander direction from the current velocity, position and
/// wander angle, then advances the wander angle by a bounded random step
/// (wrapped into one turn) — the only randomness of the whole controller.
pub fn get_wander_dir(velocity: &Vec2, position: &Vec2, wander_angle: &mut i64) -> (r: Vec2)
    requires
        bounded(*velocity, 1_000_000),
        bounded(*position, 190_000_000),
        0 <= *old(wander_angle) < ANGLE_FULL_TURN,
    ensures
        r == wander_dir_spec(*velocity, *position, *old(wander_angle) as int),
        bounded(r, DIR_ONE as int + 1),
        exists|step: int|
            -AI_WANDER_DISPLACE_RANGE <= step <= AI_WANDER_DISPLACE_RANGE
            && *final(wander_angle)
                == (#[trigger] (*old(wander_angle) + step)) % (ANGLE_FULL_TURN as int),
        0 <= *final(wander_angle) < ANGLE_FULL_TURN,
{
    proof {
        assert(0 <= velocity.x * velocity.x <= 1_000_000_000_000
            && 0 <= velocity.y * velocity.y <= 1_000_000_000_000) by (nonlinear_arith)
            requires bounded(*velocity, 1_000_000);
    }
    let vel_sq = velocity.x * velocity.x + velocity.y * velocity.y;
    let vdir = if vel_sq > SMALL_VEL_SQ {
        normalize_or_zero(*velocity)
    } else {
        from_angle(*wander_angle)
    };
    proof {
        assert(vdir == heading_spec(*velocity, *old(wander_angle) as int));
        assert(bounded(vdir, DIR_ONE as int + 1));
        assert(-100_001 * 100_000 <= vdir.x * AI_RAYCAST_DISTANCE
            && vdir.x * AI_RAYCAST_DISTANCE <= 100_001 * 100_000
            && -100_001 * 100_000 <= vdir.y * AI_RAYCAST_DISTANCE
            && vdir.y * AI_RAYCAST_DISTANCE <= 100_001 * 100_000) by (nonlinear_arith)
            requires bounded(vdir, 100_001);
        lemma_div_above(vdir.x * (AI_RAYCAST_DISTANCE as int), DIR_ONE as int, -100_001);
        lemma_div_below(vdir.x * (AI_RAYCAST_DISTANCE as int), DIR_ONE as int, 100_002);
        lemma_div_above(vdir.y * (AI_RAYCAST_DISTANCE as int), DIR_ONE as int, -100_001);
        lemma_div_below(vdir.y * (AI_RAYCAST_DISTANCE as int), DIR_ONE as int, 100_002);
    }
    let wpx = position.x + floor_div(vdir.x * AI_RAYCAST_DISTANCE, DIR_ONE);
    let wpy = position.y + floor_div(vdir.y * AI_RAYCAST_DISTANCE, DIR_ONE);
    let rot = from_angle(*wander_angle);
    proof {
        assert(-10_000_100_000 <= rot.x * vdir.x && rot.x * vdir.x <= 10_000_100_000
            && -10_000_100_000 <= rot.y * vdir.y && rot.y * vdir.y <= 10_000_100_000
            && -10_000_100_000 <= rot.x * vdir.y && rot.x * vdir.y <= 10_000_100_000
            && -10_000_100_000 <= rot.y * vdir.x && rot.y * vdir.x <= 10_000_100_000)
            by (nonlinear_arith)
            requires bounded(rot, 100_000) && bounded(vdir, 100_001);
        assert((DIR_ONE as int) * (DIR_ONE as int) == 10_000_000_000) by (nonlinear_arith);
    }
    let cross_term = rot.x * vdir.x - rot.y * vdir.y;
    let dot_term = rot.x * vdir.y + rot.y * vdir.x;
    proof {
        assert(-1_000_020_000_000_000 <= cross_term * AI_WANDER_RADIUS
            && cross_term * AI_WANDER_RADIUS <= 1_000_020_000_000_000
            && -1_000_020_000_000_000 <= dot_term * AI_WANDER_RADIUS
            && dot_term * AI_WANDER_RADIUS <= 1_000_020_000_000_000) by (nonlinear_arith)
            requires -20_000_300_000 <= cross_term <= 20_000_300_000
                && -20_000_300_000 <= dot_term <= 20_000_300_000;
        lemma_div_above(cross_term * (AI_WANDER_RADIUS as int), 10_000_000_000, -100_002);
        lemma_div_below(cross_term * (AI_WANDER_RADIUS as int), 10_000_000_000, 100_003);
        lemma_div_above(dot_term * (AI_WANDER_RADIUS as int), 10_000_000_000, -100_002);
        lemma_div_below(dot_term * (AI_WANDER_RADIUS as int), 10_000_000_000, 100_003);
    }
    let scale = DIR_ONE * DIR_ONE;
    let offx = floor_div(cross_term * AI_WANDER_RADIUS, scale);
    let offy = floor_div(dot_term * AI_WANDER_RADIUS, scale);
    let circle_x = wpx + offx;
    let circle_y = wpy + offy;
    let to_target = Vec2 { x: circle_x - position.x, y: circle_y - position.y };
    let r = normalize_or_zero(to_target);
    // Advance the persistent wander angle by a bounded random step.
    let step = crate::random::random_in_range(
        -AI_WANDER_DISPLACE_RANGE, AI_WANDER_DISPLACE_RANGE);
    let new_angle = wrap_angle(*wander_angle + step);
    proof {
        assert(new_angle == ((*old(wander_angle) + step as int)
            % (ANGLE_FULL_TURN as int)));
    }
    *wander_angle = new_angle;
    r
}

/// The first not-yet-used index with the strictly largest weight, scanning
/// from `i` with the best candidate so far: mirrors a stable descending sort
/// consuming its maxima.
pub open spec fn scan_best_from(weights: Seq<i64>, used: Seq<bool>, i: int, best: Option<int>)
    -> Option<int>
    decreases 16 - i,
{
    if i < 0 || i >= 16 {
        best
    } else {
        let better = match best {
            Option::None => !used[i],
            Option::Some(b) => !used[i] && weights[i] > weights[b],
        };
        scan_best_from(weights, used, i + 1, if better { Option::Some(i) } else { best })
    }
}

/// The order in which the 16 directions are tried: repeatedly take the first
/// unused index of maximal weight.
pub open spec fn order_rec(weights: Seq<i64>, used: Seq<bool>, k: int) -> Seq<int>
    decreases k,
{
    if k <= 0 {
        Seq::empty()
    } else {
        match scan_best_from(weights, used, 0, Option::None) {
            Option::None => Seq::empty(),
            Option::Some(m) => seq![m] + order_rec(weights, used.update(m, true), k - 1),
        }
    }
}

/// The full descending, index-stable order of the 16 direction weights.
pub open spec fn sort_order(weights: Seq<i64>) -> Seq<int> {
    order_rec(weights, Seq::new(16, |i: int| false), 16)
}

/// A found best index is a valid unused index.
pub proof fn lemma_scan_best_valid(weights: Seq<i64>, used: Seq<bool>, i: int, best: Option<int>)
    requires
        best is Some ==> 0 <= best->Some_0 < 16 && !used[best->Some_0],
        scan_best_from(weights, used, i, best) is Some,
    ensures
        ({
            let m = scan_best_from(weights, used, i, best)->Some_0;
            0 <= m < 16 && !used[m]
        }),
    decreases 16 - i,
{
    if i < 0 || i >= 16 {
    } else {
        let better = match best {
            Option::None => !used[i],
            Option::Some(b) => !used[i] && weights[i] > weights[b],
        };
        lemma_scan_best_valid(weights, used, i + 1,
            if better { Option::Some(i) } else { best });
    }
}

/// Exec scan for the first unused index of maximal weight.
fn scan_best(weights: &Vec<i64>, used: &Vec<bool>) -> (r: Option<usize>)
    requires
        weights@.len() == 16,
        used@.len() == 16,
    ensures
        r is Some <==> scan_best_from(weights@, used@, 0, Option::None) is Some,
        r is Some ==> Option::Some(r->Some_0 as int)
            == scan_best_from(weights@, used@, 0, Option::None),
{
    let mut best: Option<usize> = None;
    let mut i: usize = 0;
    while i < 16
        invariant
            0 <= i <= 16,
            weights@.len() == 16,
            used@.len() == 16,
            best is Some ==> 0 <= best->Some_0 < 16,
            scan_best_from(weights@, used@, 0, Option::None)
                == scan_best_from(weights@, used@, i as int,
                    match best {
                        Option::Some(b) => Option::Some(b as int),
                        Option::None => Option::None,
                    }),
        decreases 16 - i,
    {
        let better = match best {
            None => !used[i],
            Some(b) => !used[i] && weights[i] > weights[b],
        };
        if better {
            best = Some(i);
        }
        i += 1;
    }
    best
}

/// Orders the 16 direction indices by descending weight (ties keep the
/// smaller index first), by repeatedly taking the first unused maximum.
pub fn sort_dir_indices(weights: &Vec<i64>) -> (r: Vec<usize>)
    requires
        weights@.len() == 16,
    ensures
        r@.len() == sort_order(weights@).len(),
        forall|k: int| 0 <= k < r@.len()
            ==> #[trigger] (r@[k] as int) == sort_order(weights@)[k]
                && 0 <= r@[k] < 16,
{
    let mut used: Vec<bool> = Vec::new();
    let mut j: usize = 0;
    while j < 16
        invariant
            0 <= j <= 16,
            used@.len() == j,
            forall|k: int| 0 <= k < j ==> !(#[trigger] used@[k]),
        decreases 16 - j,
    {
        used.push(false);
        j += 1;
    }
    proof {
        assert(used@ =~= Seq::new(16, |i: int| false));
    }
    let mut order: Vec<usize> = Vec::new();
    let mut k: usize = 0;
    while k < 16
        invariant
            0 <= k <= 16,
            weights@.len() == 16,
            used@.len() == 16,
            order@.len() <= k,
            forall|m: int| 0 <= m < order@.len() ==> 0 <= #[trigger] order@[m] < 16,
            sort_order(weights@) == Seq::new(order@.len(), |m: int| order@[m] as int)
                + order_rec(weights@, used@, 16 - order@.len()),
            order@.len() < k ==> scan_best_from(weights@, used@, 0, Option::None) is None,
        decreases 16 - k,
    {
        if order.len() < k {
            // No unused index remains; the order is complete.
            k += 1;
        } else {
            let found = scan_best(&weights, &used);
            match found {
                None => {
                    assert(order_rec(weights@, used@, 16 - order@.len() as int)
                        =~= Seq::<int>::empty());
                    k += 1;
                },
                Some(m) => {
                    proof {
                        lemma_scan_best_valid(weights@, used@, 0, Option::None);
                    }
                    let ghost used0 = used@;
                    let ghost order0 = order@;
                    order.push(m);
                    used[m] = true;
                    proof {
                        assert(used@ =~= used0.update(m as int, true));
                        assert(order_rec(weights@, used0, 16 - order0.len() as int)
                            == seq![m as int] + order_rec(weights@, used@,
                                16 - order0.len() as int - 1));
                        assert(Seq::new(order@.len(), |mm: int| order@[mm] as int)
                            =~= Seq::new(order0.len(), |mm: int| order0[mm] as int)
                                + seq![m as int]);
                        assert(Seq::new(order0.len(), |mm: int| order0[mm] as int)
                            + (seq![m as int] + order_rec(weights@, used@,
                                16 - order@.len() as int))
                            =~= Seq::new(order@.len(), |mm: int| order@[mm] as int)
                                + order_rec(weights@, used@, 16 - order@.len() as int));
                    }
                    k += 1;
                },
            }
        }
    }
    proof {
        if order@.len() < 16 {
            assert(order_rec(weights@, used@, 16 - order@.len() as int)
                =~= Seq::<int>::empty());
        } else {
            assert(order_rec(weights@, used@, 0) =~= Seq::<int>::empty());
        }
        assert(sort_order(weights@) =~= Seq::new(order@.len(), |m: int| order@[m] as int));
    }
    order
}

/// Componentwise negation.
pub open spec fn neg_spec(v: Vec2) -> Vec2 {
    Vec2 { x: (-v.x) as i64, y: (-v.y) as i64 }
}

/// Blend factor after one frame: invisible targets push it toward pure
/// wander at one unit per millisecond (capped at 100 ms per step); a visible
/// target sets it to the clamped interpolation of its distance between the
/// flee and detection thresholds.
pub open spec fn blend_update(blend0: int, can_see: bool, distance: int, delta_ms: int) -> int {
    if !can_see {
        let d = if delta_ms > 100 { 100int } else { delta_ms };
        if blend0 + d > BLEND_ONE { BLEND_ONE as int } else { blend0 + d }
    } else {
        if distance >= AI_MIN_FLEE_DISTANCE {
            let raw = ((distance - AI_MIN_FLEE_DISTANCE) * (BLEND_ONE as int))
                / ((AI_MAX_DETECTION_DISTANCE - AI_MIN_FLEE_DISTANCE) as int);
            if raw < 0 {
                0
            } else if raw > BLEND_ONE {
                BLEND_ONE as int
            } else {
                raw
            }
        } else {
            0
        }
    }
}

/// Distance between two points, rounded down.
pub open spec fn dist_spec(a: Vec2, b: Vec2) -> int {
    let dx = b.x - a.x;
    let dy = b.y - a.y;
    crate::vec2::sqrt_floor((dx * dx + dy * dy) as nat) as int
}

/// The flee direction: away from the player, falling back to the reversed
/// velocity, and finally to a fixed rightward direction, when degenerate.
pub open spec fn flee_dir_spec(pos: Vec2, player: Vec2, velocity: Vec2) -> Vec2 {
    let tp = Vec2 { x: (player.x - pos.x) as i64, y: (player.y - pos.y) as i64 };
    if len_sq(tp) > SMALL_VEL_SQ {
        neg_spec(normalize_or_zero_spec(tp))
    } else if len_sq(velocity) > SMALL_VEL_SQ {
        neg_spec(normalize_or_zero_spec(velocity))
    } else {
        Vec2 { x: DIR_ONE, y: 0 }
    }
}

/// Componentwise interpolation of the flee and wander directions.
pub open spec fn blended_dir_spec(flee: Vec2, wander: Vec2, blend: int) -> Vec2 {
    Vec2 {
        x: lerp_spec(flee.x as int, wander.x as int, blend) as i64,
        y: lerp_spec(flee.y as int, wander.y as int, blend) as i64,
    }
}

/// Dot-product score of each of the 16 directions against the blended
/// heading.
pub open spec fn weights_spec(blended: Vec2) -> Seq<i64> {
    Seq::new(16, |i: int| crate::vec2::dot(dir16(i), blended) as i64)
}

/// End point of the obstruction test ray in direction `dir`.
pub open spec fn ray_target(pos: Vec2, dir: Vec2) -> Vec2 {
    Vec2 {
        x: (pos.x + (dir.x * (AI_RAYCAST_DISTANCE as int)) / (DIR_ONE as int)) as i64,
        y: (pos.y + (dir.y * (AI_RAYCAST_DISTANCE as int)) / (DIR_ONE as int)) as i64,
    }
}

/// First direction in the given preference order whose test ray is
/// unobstructed.
pub open spec fn select_dir_rec(edges: Seq<Edge>, pos: Vec2, order: Seq<int>, k: int)
    -> Option<Vec2>
    decreases order.len() - k,
{
    if k < 0 || k >= order.len() {
        Option::None
    } else if visible_spec(edges, pos, ray_target(pos, dir16(order[k]))) {
        Option::Some(dir16(order[k]))
    } else {
        select_dir_rec(edges, pos, order, k + 1)
    }
}

/// The movement direction: the best-scoring unobstructed sampled direction,
/// or the normalized blended heading when every direction is obstructed.
pub open spec fn actual_dir_spec(edges: Seq<Edge>, pos: Vec2, weights: Seq<i64>, blended: Vec2)
    -> Vec2 {
    match select_dir_rec(edges, pos, sort_order(weights), 0) {
        Option::Some(d) => d,
        Option::None => normalize_or_zero_spec(blended),
    }
}

/// The desired speed: between flee and wander maximum, by the blend factor.
pub open spec fn desired_speed_spec(blend: int) -> int {
    lerp_spec(FLEE_MAX_SPEED as int, WANDER_MAX_SPEED as int, blend)
}

/// Steering acceleration and resulting velocity for a chosen direction.
pub open spec fn ai_steer_spec(velocity: Vec2, dir: Vec2, blend: int) -> (Vec2, Vec2) {
    let sp = desired_speed_spec(blend);
    let dx = (dir.x * sp) / (DIR_ONE as int);
    let dy = (dir.y * sp) / (DIR_ONE as int);
    let ax = (dx - velocity.x) / (STEERING_DIV as int);
    let ay = (dy - velocity.y) / (STEERING_DIV as int);
    (
        Vec2 { x: ax as i64, y: ay as i64 },
        Vec2 { x: (velocity.x + ax) as i64, y: (velocity.y + ay) as i64 },
    )
}

/// Tests whether any stored edge blocks the segment from `from` to `to`.
fn ray_clear(grid: &SpatialGrid, from: Vec2, to: Vec2) -> (r: bool)
    requires
        grid.wf(),
        in_range(from),
        in_range(to),
    ensures
        r == visible_spec(grid.edges(), from, to),
{
    let edges = grid.edges_along_ray(from, to);
    let mut clear = true;
    let mut i: usize = 0;
    while i < edges.len() && clear
        invariant
            0 <= i <= edges@.len(),
            in_range(from),
            in_range(to),
            forall|k: int| 0 <= k < edges@.len() ==> grid.edges().contains(#[trigger] edges@[k]),
            forall|k: int| 0 <= k < edges@.len()
                ==> in_range((#[trigger] edges@[k]).start) && in_range(edges@[k].end),
            clear ==> forall|k: int| 0 <= k < i
                ==> !seg_intersects((#[trigger] edges@[k]).start, edges@[k].end, from, to),
            !clear ==> exists|k: int| 0 <= k < edges@.len()
                && seg_intersects((#[trigger] edges@[k]).start, edges@[k].end, from, to),
            forall|e: Edge| grid.edges().contains(e)
                && seg_intersects(e.start, e.end, from, to) ==> edges@.contains(e),
        decreases edges@.len() - i,
    {
        let e = edges[i];
        if line_intersect(e.start, e.end, from, to).is_some() {
            clear = false;
        }
        i += 1;
    }
    proof {
        if clear {
            assert forall|k: int| 0 <= k < grid.edges().len()
                implies !seg_intersects((#[trigger] grid.edges()[k]).start,
                    grid.edges()[k].end, from, to) by {
                let e = grid.edges()[k];
                assert(grid.edges().contains(e));
                if seg_intersects(e.start, e.end, from, to) {
                    assert(edges@.contains(e));
                    let j = choose|j: int| 0 <= j < edges@.len() && edges@[j] == e;
                }
            };
        } else {
            let k = choose|k: int| 0 <= k < edges@.len()
                && seg_intersects((#[trigger] edges@[k]).start, edges@[k].end, from, to);
            assert(grid.edges().contains(edges@[k]));
            let j = choose|j: int| 0 <= j < grid.edges().len() && grid.edges()[j] == edges@[k];
        }
    }
    clear
}

/// Picks the best-scoring unobstructed direction, in order.
fn choose_direction(
    grid: &SpatialGrid,
    pos: Vec2,
    order: &Vec<usize>,
    blended: Vec2,
    Ghost(weights): Ghost<Seq<i64>>,
) -> (r: Vec2)
    requires
        grid.wf(),
        bounded(pos, 190_000_000),
        bounded(blended, DIR_ONE as int + 1),
        weights.len() == 16,
        order@.len() == sort_order(weights).len(),
        forall|k: int| 0 <= k < order@.len()
            ==> #[trigger] (order@[k] as int) == sort_order(weights)[k] && 0 <= order@[k] < 16,
    ensures
        r == actual_dir_spec(grid.edges(), pos, weights, blended),
        bounded(r, DIR_ONE as int + 1),
{
    let mut k: usize = 0;
    while k < order.len()
        invariant
            0 <= k <= order@.len(),
            grid.wf(),
            bounded(pos, 190_000_000),
            bounded(blended, DIR_ONE as int + 1),
            weights.len() == 16,
            order@.len() == sort_order(weights).len(),
            forall|kk: int| 0 <= kk < order@.len()
                ==> #[trigger] (order@[kk] as int) == sort_order(weights)[kk]
                    && 0 <= order@[kk] < 16,
            select_dir_rec(grid.edges(), pos, sort_order(weights), 0)
                == select_dir_rec(grid.edges(), pos, sort_order(weights), k as int),
        decreases order@.len() - k,
    {
        let idx = order[k];
        let dir = from_angle(225 * (idx as i64));
        proof {
            assert(dir == dir16(sort_order(weights)[k as int]));
            assert(-10_000_000_000 <= dir.x * AI_RAYCAST_DISTANCE
                && dir.x * AI_RAYCAST_DISTANCE <= 10_000_000_000
                && -10_000_000_000 <= dir.y * AI_RAYCAST_DISTANCE
                && dir.y * AI_RAYCAST_DISTANCE <= 10_000_000_000) by (nonlinear_arith)
                requires bounded(dir, 100_000);
            lemma_div_above(dir.x * (AI_RAYCAST_DISTANCE as int), DIR_ONE as int, -100_000);
            lemma_div_below(dir.x * (AI_RAYCAST_DISTANCE as int), DIR_ONE as int, 100_001);
            lemma_div_above(dir.y * (AI_RAYCAST_DISTANCE as int), DIR_ONE as int, -100_000);
            lemma_div_below(dir.y * (AI_RAYCAST_DISTANCE as int), DIR_ONE as int, 100_001);
        }
        let tx = pos.x + floor_div(dir.x * AI_RAYCAST_DISTANCE, DIR_ONE);
        let ty = pos.y + floor_div(dir.y * AI_RAYCAST_DISTANCE, DIR_ONE);
        let target = Vec2 { x: tx, y: ty };
        assert(target == ray_target(pos, dir16(sort_order(weights)[k as int])));
        if ray_clear(grid, pos, target) {
            proof {
                lemma_from_angle_bounded(225 * (sort_order(weights)[k as int]));
            }
            return dir;
        }
        k += 1;
    }
    let r = normalize_or_zero(blended);
    r
}

/// One frame of the flee-AI controller for one agent.
///
/// Checks line of sight to the player (through the movement-keyed cache),
/// updates the flee/wander blend and display colour, records the previous
/// position, blends the flee and wander directions, scores the 16 sampled
/// directions against the blended heading, steers along the best-scoring
/// unobstructed one (falling back to the blended heading itself), and
/// integrates velocity and position.  The persistent wander angle advances
/// by a bounded random step — the only nondeterministic output.
#[verifier::rlimit(100)]
pub fn s_flee_ai_movement(
    position: &mut Vec2,
    physics: &mut crate::Physics,
    ai: &mut FleeAI,
    cache: &mut LosCache,
    grid: &SpatialGrid,
    player: Vec2,
    delta_ms: u64,
)
    requires
        grid.wf(),
        bounded(*old(position), 190_000_000),
        bounded(old(physics).velocity, 1_000_000),
        in_range(player),
        in_range(old(cache).last_player_pos),
        in_range(old(cache).last_ai_pos),
        flee_ai_wf(*old(ai)),
        delta_ms <= 1_000_000,
    ensures
        ({
            let see = if cache_usable(*old(cache), *old(position), player) {
                old(cache).cached_los_result->Some_0
            } else {
                visible_spec(grid.edges(), *old(position), player)
            };
            let dist = dist_spec(*old(position), player);
            let blend = blend_update(old(ai).blend as int, see, dist, delta_ms as int);
            let fdir = flee_dir_spec(*old(position), player, old(physics).velocity);
            let wdir = wander_dir_spec(old(physics).velocity, *old(position),
                old(ai).wander_angle as int);
            let bdir = blended_dir_spec(fdir, wdir, blend);
            let w = weights_spec(bdir);
            let adir = actual_dir_spec(grid.edges(), *old(position), w, bdir);
            let sv = ai_steer_spec(old(physics).velocity, adir, blend);
            &&& final(ai).blend == blend
            &&& final(ai).color == (Color { r: (1000 - blend) as u16, g: blend as u16, b: 0 })
            &&& final(ai).dir_weights@ == w
            &&& final(physics).prev_position == *old(position)
            &&& final(physics).acceleration == sv.0
            &&& final(physics).velocity == sv.1
            &&& final(physics).radius == old(physics).radius
            &&& final(physics).normal == old(physics).normal
            &&& final(position).x == old(position).x + sv.1.x
            &&& final(position).y == old(position).y + sv.1.y
            &&& *final(cache) == (if cache_usable(*old(cache), *old(position), player) {
                    *old(cache)
                } else {
                    LosCache {
                        last_player_pos: player,
                        last_ai_pos: *old(position),
                        cached_los_result: Some(
                            visible_spec(grid.edges(), *old(position), player)),
                    }
                })
            &&& flee_ai_wf(*final(ai))
            &&& bounded(final(physics).velocity, 1_000_000)
        }),
        exists|step: int|
            -AI_WANDER_DISPLACE_RANGE <= step <= AI_WANDER_DISPLACE_RANGE
            && final(ai).wander_angle
                == (#[trigger] (old(ai).wander_angle + step)) % (ANGLE_FULL_TURN as int),
{
    let ai_pos = *position;
    let see = can_see_player(cache, grid, ai_pos, player);
    // Distance to the player.
    let dxp = player.x - ai_pos.x;
    let dyp = player.y - ai_pos.y;
    proof {
        assert(0 <= dxp * dxp <= 160_000_000_000_000_000
            && 0 <= dyp * dyp <= 160_000_000_000_000_000) by (nonlinear_arith)
            requires -400_000_000 <= dxp <= 400_000_000 && -400_000_000 <= dyp <= 400_000_000;
    }
    let distance = crate::vec2::isqrt(dxp * dxp + dyp * dyp);
    proof {
        assert(distance <= 600_000_000) by (nonlinear_arith)
            requires distance >= 0
                && (distance as int) * (distance as int) <= 320_000_000_000_000_000;
    }
    // Blend factor.
    let blend: i64 = if !see {
        let d = if delta_ms > 100 { 100i64 } else { delta_ms as i64 };
        let candidate = ai.blend + d;
        if candidate > BLEND_ONE { BLEND_ONE } else { candidate }
    } else {
        if distance >= AI_MIN_FLEE_DISTANCE {
            proof {
                assert(0 <= (distance - AI_MIN_FLEE_DISTANCE) * 1000
                    <= 1_000_000_000_000) by (nonlinear_arith)
                    requires 0 <= distance - AI_MIN_FLEE_DISTANCE <= 1_000_000_000;
            }
            let raw = floor_div((distance - AI_MIN_FLEE_DISTANCE) * BLEND_ONE,
                AI_MAX_DETECTION_DISTANCE - AI_MIN_FLEE_DISTANCE);
            proof {
                lemma_div_above((distance as int - AI_MIN_FLEE_DISTANCE as int) * 1000,
                    200_000, 0);
                lemma_div_below((distance as int - AI_MIN_FLEE_DISTANCE as int) * 1000,
                    200_000, 5_000_001);
            }
            if raw < 0 { 0 } else if raw > BLEND_ONE { BLEND_ONE } else { raw }
        } else {
            0
        }
    };
    ai.color = Color { r: (1000 - blend) as u16, g: blend as u16, b: 0 };
    physics.prev_position = ai_pos;
    // Flee direction.
    let to_player = Vec2 { x: dxp, y: dyp };
    proof {
        assert(len_sq(to_player) == dxp * dxp + dyp * dyp);
        assert(0 <= physics.velocity.x * physics.velocity.x <= 1_000_000_000_000
            && 0 <= physics.velocity.y * physics.velocity.y <= 1_000_000_000_000)
            by (nonlinear_arith)
            requires bounded(physics.velocity, 1_000_000);
    }
    let flee_dir: Vec2 = if dxp * dxp + dyp * dyp > SMALL_VEL_SQ {
        let n = normalize_or_zero(to_player);
        Vec2 { x: -n.x, y: -n.y }
    } else {
        let vsq = physics.velocity.x * physics.velocity.x
            + physics.velocity.y * physics.velocity.y;
        if vsq > SMALL_VEL_SQ {
            let n = normalize_or_zero(physics.velocity);
            Vec2 { x: -n.x, y: -n.y }
        } else {
            Vec2 { x: DIR_ONE, y: 0 }
        }
    };
    proof {
        assert(flee_dir == flee_dir_spec(ai_pos, player, physics.velocity));
        assert(bounded(flee_dir, DIR_ONE as int + 1));
    }
    // Wander direction (advances the wander angle randomly).
    let wander_dir = get_wander_dir(&physics.velocity, &ai_pos, &mut ai.wander_angle);
    // Blend the two directions.
    let bx = lerp(flee_dir.x, wander_dir.x, blend);
    let by = lerp(flee_dir.y, wander_dir.y, blend);
    let blended = Vec2 { x: bx, y: by };
    proof {
        assert(blended == blended_dir_spec(flee_dir,
            wander_dir_spec(old(physics).velocity, *old(position),
                old(ai).wander_angle as int), blend as int));
        assert(bounded(blended, DIR_ONE as int + 1));
    }
    // Score the 16 directions.
    let dirs = get_direction_vectors();
    let mut weights: Vec<i64> = Vec::new();
    let mut i: usize = 0;
    while i < 16
        invariant
            0 <= i <= 16,
            dirs@.len() == 16,
            forall|k: int| 0 <= k < 16 ==> #[trigger] dirs@[k] == dir16(k)
                && bounded(dirs@[k], DIR_ONE as int),
            bounded(blended, DIR_ONE as int + 1),
            weights@.len() == i,
            forall|k: int| 0 <= k < i
                ==> #[trigger] weights@[k] == weights_spec(blended)[k],
        decreases 16 - i,
    {
        let d = dirs[i];
        proof {
            assert(-11_000_000_000 <= d.x * blended.x && d.x * blended.x <= 11_000_000_000
                && -11_000_000_000 <= d.y * blended.y && d.y * blended.y <= 11_000_000_000)
                by (nonlinear_arith)
                requires bounded(d, 100_000) && bounded(blended, 100_001);
        }
        let wv = d.x * blended.x + d.y * blended.y;
        weights.push(wv);
        i += 1;
    }
    proof {
        assert(weights@ =~= weights_spec(blended));
    }
    let order = sort_dir_indices(&weights);
    let actual_dir = choose_direction(grid, ai_pos, &order, blended,
        Ghost(weights_spec(blended)));
    // Steering update.
    let speed = lerp(FLEE_MAX_SPEED, WANDER_MAX_SPEED, blend);
    proof {
        assert(-500_005_000 <= actual_dir.x * speed && actual_dir.x * speed <= 500_005_000
            && -500_005_000 <= actual_dir.y * speed && actual_dir.y * speed <= 500_005_000)
            by (nonlinear_arith)
            requires bounded(actual_dir, 100_001) && 0 <= speed <= 5_000;
        lemma_div_above(actual_dir.x * (speed as int), DIR_ONE as int, -5_001);
        lemma_div_below(actual_dir.x * (speed as int), DIR_ONE as int, 5_002);
        lemma_div_above(actual_dir.y * (speed as int), DIR_ONE as int, -5_001);
        lemma_div_below(actual_dir.y * (speed as int), DIR_ONE as int, 5_002);
    }
    let desired_x = floor_div(actual_dir.x * speed, DIR_ONE);
    let desired_y = floor_div(actual_dir.y * speed, DIR_ONE);
    let steer_x = floor_div(desired_x - physics.velocity.x, STEERING_DIV);
    let steer_y = floor_div(desired_y - physics.velocity.y, STEERING_DIV);
    proof {
        lemma_ai_steer_bounds(physics.velocity.x as int, desired_x as int);
        lemma_ai_steer_bounds(physics.velocity.y as int, desired_y as int);
    }
    let new_velocity = Vec2 {
        x: physics.velocity.x + steer_x,
        y: physics.velocity.y + steer_y,
    };
    physics.acceleration = Vec2 { x: steer_x, y: steer_y };
    physics.velocity = new_velocity;
    *position = Vec2 {
        x: position.x + new_velocity.x,
        y: position.y + new_velocity.y,
    };
    ai.dir_weights = weights;
    ai.blend = blend;
}

/// The blend after a frame where the target is visible and within the flee
/// distance is exactly zero: pure flee.
pub proof fn lemma_blend_visible_close_is_flee(blend0: int, distance: int, delta_ms: int)
    requires
        distance < AI_MIN_FLEE_DISTANCE,
    ensures
        blend_update(blend0, true, distance, delta_ms) == 0,
{
}

/// While the target stays invisible, the blend never decreases, never
/// exceeds one, and once it reaches one it stays clamped there.
pub proof fn lemma_blend_invisible_step(blend0: int, distance: int, delta_ms: int)
    requires
        0 <= blend0 <= BLEND_ONE,
        0 <= delta_ms,
    ensures
        blend0 <= blend_update(blend0, false, distance, delta_ms) <= BLEND_ONE,
        blend0 == BLEND_ONE ==> blend_update(blend0, false, distance, delta_ms) == BLEND_ONE,
        blend0 + (if delta_ms > 100 { 100int } else { delta_ms }) >= BLEND_ONE
            ==> blend_update(blend0, false, distance, delta_ms) == BLEND_ONE,
{
}

/// The blend after a run of frames with the target invisible throughout
/// (each frame contributing its elapsed milliseconds).
pub open spec fn blend_iterate(blend0: int, deltas: Seq<int>) -> int
    decreases deltas.len(),
{
    if deltas.len() == 0 {
        blend0
    } else {
        blend_iterate(blend_update(blend0, false, 0, deltas[0]), deltas.drop_first())
    }
}

/// Total frame time with each frame capped at the 100 ms overshoot guard.
pub open spec fn capped_sum(deltas: Seq<int>) -> int
    decreases deltas.len(),
{
    if deltas.len() == 0 {
        0
    } else {
        (if deltas[0] > 100 { 100int } else { deltas[0] }) + capped_sum(deltas.drop_first())
    }
}

/// A sum of capped non-negative frame times is non-negative.
proof fn lemma_capped_sum_nonneg(deltas: Seq<int>)
    requires
        forall|k: int| 0 <= k < deltas.len() ==> #[trigger] deltas[k] >= 0,
    ensures
        capped_sum(deltas) >= 0,
    decreases deltas.len(),
{
    if deltas.len() > 0 {
        let rest = deltas.drop_first();
        assert(forall|k: int| 0 <= k < rest.len() ==> #[trigger] rest[k] >= 0) by {
            assert(forall|k: int| 0 <= k < rest.len() ==> rest[k] == deltas[k + 1]);
        };
        lemma_capped_sum_nonneg(rest);
    }
}

/// With the target invisible for long enough — capped frame times summing to
/// at least the remaining gap — the blend converges to exactly one and stays
/// clamped there.
pub proof fn lemma_blend_converges(blend0: int, deltas: Seq<int>)
    requires
        0 <= blend0 <= BLEND_ONE,
        forall|k: int| 0 <= k < deltas.len() ==> #[trigger] deltas[k] >= 0,
        capped_sum(deltas) >= BLEND_ONE - blend0,
    ensures
        blend_iterate(blend0, deltas) == BLEND_ONE,
    decreases deltas.len(),
{
    if deltas.len() == 0 {
        assert(blend0 == BLEND_ONE);
    } else {
        let d0 = deltas[0];
        let b1 = blend_update(blend0, false, 0, d0);
        lemma_blend_invisible_step(blend0, 0, d0);
        let rest = deltas.drop_first();
        assert(forall|k: int| 0 <= k < rest.len() ==> #[trigger] rest[k] >= 0) by {
            assert(forall|k: int| 0 <= k < rest.len() ==> rest[k] == deltas[k + 1]);
        };
        let cap0 = if d0 > 100 { 100int } else { d0 };
        if blend0 + cap0 >= BLEND_ONE {
            assert(b1 == BLEND_ONE);
            lemma_capped_sum_nonneg(rest);
            lemma_blend_converges(b1, rest);
        } else {
            assert(b1 == blend0 + cap0);
            assert(capped_sum(rest) >= BLEND_ONE - b1);
            lemma_blend_converges(b1, rest);
        }
    }
}

/// A scan over all-unused indices returns the unique maximum.
proof fn lemma_scan_max(weights: Seq<i64>, used: Seq<bool>, i: int, acc: Option<int>, best: int)
    requires
        weights.len() == 16,
        used.len() == 16,
        forall|j: int| 0 <= j < 16 ==> !(#[trigger] used[j]),
        0 <= best < 16,
        forall|j: int| 0 <= j < 16 && j != best
            ==> (#[trigger] weights[j]) < weights[best],
        0 <= i <= 16,
        i <= best ==> (acc is None
            || (0 <= acc->Some_0 < 16 && weights[acc->Some_0] < weights[best])),
        i > best ==> acc == Option::Some(best),
    ensures
        scan_best_from(weights, used, i, acc) == Option::Some(best),
    decreases 16 - i,
{
    if i >= 16 {
    } else {
        let better = match acc {
            Option::None => !used[i],
            Option::Some(b) => !used[i] && weights[i] > weights[b],
        };
        let next = if better { Option::Some(i) } else { acc };
        if i == best {
            assert(better);
        }
        lemma_scan_max(weights, used, i + 1, next, best);
    }
}

/// Exact interpolation at full blend: interpolating all the way lands on the
/// second argument.
proof fn lemma_lerp_full(a: int, b: int)
    ensures
        lerp_spec(a, b, BLEND_ONE as int) == b,
{
    let d = b - a;
    assert(d * 1000 == d * 1000 + 0) by (nonlinear_arith);
    vstd::arithmetic::div_mod::lemma_fundamental_div_mod_converse(
        d * 1000, 1000, d, 0);
}

/// At the wander-only extreme — blend forced to one, no direction obstructed
/// — the controller's blended heading is exactly the wander direction, and
/// the direction it selects is the unique sampled direction whose dot
/// product with that wander direction is maximal.
pub proof fn lemma_wander_extreme_selects_max(
    edges: Seq<Edge>,
    pos: Vec2,
    fdir: Vec2,
    wdir: Vec2,
    best: int,
)
    requires
        0 <= best < 16,
        forall|j: int| 0 <= j < 16 && j != best
            ==> crate::vec2::dot(#[trigger] dir16(j), wdir)
                < crate::vec2::dot(dir16(best), wdir),
        bounded(wdir, DIR_ONE as int + 1),
        forall|j: int| 0 <= j < 16
            ==> visible_spec(edges, pos, ray_target(pos, #[trigger] dir16(j))),
    ensures
        blended_dir_spec(fdir, wdir, BLEND_ONE as int) == wdir,
        actual_dir_spec(edges, pos,
            weights_spec(wdir), wdir) == dir16(best),
{
    lemma_lerp_full(fdir.x as int, wdir.x as int);
    lemma_lerp_full(fdir.y as int, wdir.y as int);
    assert(blended_dir_spec(fdir, wdir, BLEND_ONE as int) == wdir);
    let w = weights_spec(wdir);
    // The direction weights are in-range dot products, so the unique maximum
    // carries over to the weight sequence.
    assert forall|j: int| 0 <= j < 16 implies
        #[trigger] w[j] == crate::vec2::dot(dir16(j), wdir) by {
        lemma_from_angle_bounded(225 * j);
        assert(-22_000_200_000 <= crate::vec2::dot(dir16(j), wdir) <= 22_000_200_000)
            by (nonlinear_arith)
            requires bounded(dir16(j), 100_000) && bounded(wdir, 100_001);
    };
    let used0 = Seq::new(16, |i: int| false);
    lemma_scan_max(w, used0, 0, Option::None, best);
    assert(sort_order(w)[0] == best) by {
        assert(order_rec(w, used0, 16)
            == seq![best] + order_rec(w, used0.update(best, true), 15));
    };
    assert(sort_order(w).len() >= 1);
    assert(visible_spec(edges, pos, ray_target(pos, dir16(best))));
    assert(select_dir_rec(edges, pos, sort_order(w), 0) == Option::Some(dir16(best)));
}

/// One steering step keeps a bounded velocity bounded.
proof fn lemma_ai_steer_bounds(v: int, d: int)
    requires
        -1_000_000 <= v <= 1_000_000,
        -5_001 <= d <= 5_001,
    ensures
        -1_000_000 <= v + (d - v) / 10 <= 1_000_000,
        -200_000 <= (d - v) / 10 <= 200_000,
{
    lemma_div_above(d - v, 10, -100_501);
    lemma_div_below(d - v, 10, 100_501);
    vstd::arithmetic::div_mod::lemma_fundamental_div_mod(d - v, 10);
    assert(-1_000_000 <= v + (d - v) / 10 <= 1_000_000) by (nonlinear_arith)
        requires
            (d - v) == 10 * ((d - v) / 10) + (d - v) % 10,
            0 <= (d - v) % 10 < 10,
            -1_000_000 <= v <= 1_000_000,
            -5_001 <= d <= 5_001;
}

} // verus!
