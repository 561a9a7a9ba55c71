use flee_ai::vec2::Vec2;
use flee_ai::level::{Polygon, Color};
use flee_ai::spatial::SpatialGrid;
use flee_ai::flee::{FleeAI, LosCache, s_flee_ai_movement, get_direction_vectors,
    AI_WANDER_DISPLACE_RANGE};
use flee_ai::collisions::{s_collision, find_projection};
use flee_ai::{Physics, InputDir, PlayerPosition, s_player_movement};

fn v(x: i64, y: i64) -> Vec2 {
    Vec2 { x, y }
}

fn grey() -> Color {
    Color { r: 500, g: 500, b: 500 }
}

fn wall_at(x: i64, y0: i64, y1: i64) -> Polygon {
    Polygon {
        points: vec![v(x, y0), v(x, y1)],
        collision_side: 1,
        color: grey(),
    }
}

fn physics_at(prev: Vec2, velocity: Vec2, radius: i64) -> Physics {
    Physics {
        prev_position: prev,
        velocity,
        acceleration: v(0, 0),
        radius,
        normal: v(0, 0),
    }
}

fn fresh_cache() -> LosCache {
    LosCache {
        last_player_pos: v(0, 0),
        last_ai_pos: v(0, 0),
        cached_los_result: None,
    }
}

fn fresh_ai(blend: i64, wander_angle: i64) -> FleeAI {
    FleeAI {
        dir_weights: vec![0; 16],
        wander_angle,
        color: grey(),
        blend,
    }
}

#[test]
fn head_on_wall_stops_at_radius() {
    // An entity of radius 1000 that ends its move 500 units short of the
    // wall is pushed back to exactly its radius.  (The wall extends only
    // below the approach line, so the fixed up-right test ray misses it and
    // the positional correction, not the tunnelling guard, resolves it.)
    let polys = vec![wall_at(0, -100_000, 0)];
    let mut pos = v(-500, 0);
    let mut phys = physics_at(v(-5_000, 0), v(0, 0), 1_000);
    s_collision(&mut pos, &mut phys, &polys);
    assert_eq!(pos.x, -1_000);
    assert_eq!(pos.y, 0);
}

#[test]
fn head_on_wall_tunnelling_guard_restores_previous_position() {
    // With the wall crossing the fixed test ray, a penetrating entity is put
    // back at its previous position (and the correction pushes it farther).
    let polys = vec![wall_at(0, -100_000, 100_000)];
    let mut pos = v(-500, 0);
    let mut phys = physics_at(v(-5_000, 0), v(0, 0), 1_000);
    s_collision(&mut pos, &mut phys, &polys);
    assert_eq!(pos, v(-5_500, 0));
}

#[test]
fn head_on_wall_never_penetrates_across_speeds() {
    // Sweeping approach speeds up to the distance to the wall: the centre
    // never ends up nearer than the radius.
    let radius = 1_000i64;
    let prev = v(-5_000, 0);
    for speed in (0..=5_000).step_by(137) {
        let polys = vec![wall_at(0, -100_000, 100_000)];
        let mut pos = v(prev.x + speed, 0);
        let mut phys = physics_at(prev, v(speed, 0), radius);
        s_collision(&mut pos, &mut phys, &polys);
        assert!(pos.x <= -radius, "speed {} ended at {}", speed, pos.x);
    }
}

#[test]
fn wall_contact_slides_velocity() {
    // Touching the wall removes the velocity component toward it and
    // reports the contact normal.
    let polys = vec![wall_at(0, -100_000, 100_000)];
    let mut pos = v(-900, 0);
    let mut phys = physics_at(v(-900, 0), v(500, 0), 1_000);
    s_collision(&mut pos, &mut phys, &polys);
    assert_eq!(pos, v(-1_000, 0));
    assert_eq!(phys.velocity, v(0, 0));
    assert_eq!(phys.normal, v(100_000, 0));
}

#[test]
fn head_on_floor_stops_at_radius() {
    // The horizontal counterpart: approaching a floor segment from below
    // stops the centre exactly one radius short of it.  (The crossing point
    // of the fixed test ray lies outside the segment here.)
    let polys = vec![Polygon {
        points: vec![v(-100_000, 0), v(0, 0)],
        collision_side: -1,
        color: grey(),
    }];
    let mut pos = v(-500, -500);
    let mut phys = physics_at(v(-500, -5_000), v(0, 0), 1_000);
    s_collision(&mut pos, &mut phys, &polys);
    assert_eq!(pos, v(-500, -1_000));
}

#[test]
fn projection_clamps_to_endpoints_with_plain_distance() {
    // Past either endpoint the nearest point is that endpoint and the
    // squared distance is the plain one; the radius plays no part.
    let (d, p) = find_projection(v(0, 0), v(10, 0), v(-5, 0), 1);
    assert_eq!((d, p), (25, v(0, 0)));
    let (d, p) = find_projection(v(0, 0), v(10, 0), v(15, 3), 1);
    assert_eq!((d, p), (34, v(10, 0)));
    let (d, p) = find_projection(v(0, 0), v(10, 0), v(4, 7), 1);
    assert_eq!((d, p), (49, v(4, 0)));
    // Far past the end the nearest point is still the end, however large the
    // projection parameter.
    let (d, p) = find_projection(v(0, 0), v(10, 0), v(30, 0), 1);
    assert_eq!((d, p), (400, v(10, 0)));
    let (d, p) = find_projection(v(0, 0), v(10, 0), v(-25, 0), 1);
    assert_eq!((d, p), (625, v(0, 0)));
}

#[test]
fn many_small_polygons_within_budget() {
    // The collision pass admits levels by total point count, not by a fixed
    // polygon count: a hundred separate wall segments pass through cleanly.
    let mut polys = Vec::new();
    for k in 1..=100 {
        polys.push(wall_at(10_000 * k, -5_000, 5_000));
    }
    let mut pos = v(-50_000, 0);
    let mut phys = physics_at(v(-50_000, 0), v(300, 0), 1_000);
    s_collision(&mut pos, &mut phys, &polys);
    assert_eq!(pos, v(-50_000, 0));
    assert_eq!(phys.velocity, v(300, 0));
}

#[test]
fn sliding_uses_the_normalized_normal() {
    // Two stacked wall segments touch the entity with co-directed normals;
    // the velocity component along the normalized normal is removed exactly
    // once, leaving zero, not over-corrected by the doubled raw sum.
    let polys = vec![
        wall_at(0, -100_000, 0),
        wall_at(0, 0, 100_000),
    ];
    let mut pos = v(-900, 0);
    let mut phys = physics_at(v(-900, 0), v(500, 0), 1_000);
    s_collision(&mut pos, &mut phys, &polys);
    assert_eq!(phys.velocity, v(0, 0));
    assert_eq!(phys.normal, v(100_000, 0));
    assert_eq!(pos, v(-1_000, 0));
}

#[test]
fn tunnelling_parity_ignores_filtered_edges() {
    // One polygon: a wall the entity penetrates (eligible, crossed by the
    // fixed test ray) and a far horizontal edge on the wrong collision side
    // that the ray also crosses.  Only the eligible crossing counts, so the
    // parity is odd and the entity is put back at its previous position.
    let poly = Polygon {
        points: vec![v(5_000, 1_000), v(0, 1_000), v(0, -100_000)],
        collision_side: -1,
        color: grey(),
    };
    let mut pos = v(-900, 0);
    let mut phys = physics_at(v(-3_000, 0), v(0, 0), 1_000);
    s_collision(&mut pos, &mut phys, &vec![poly]);
    assert_eq!(pos, v(-3_100, 0));
}

#[test]
fn clear_of_walls_nothing_changes() {
    let polys = vec![wall_at(0, -100_000, 100_000)];
    let mut pos = v(-50_000, 0);
    let mut phys = physics_at(v(-50_000, 0), v(300, 400), 1_000);
    s_collision(&mut pos, &mut phys, &polys);
    assert_eq!(pos, v(-50_000, 0));
    assert_eq!(phys.velocity, v(300, 400));
    assert_eq!(phys.normal, v(0, 0));
}

#[test]
fn player_steering_accelerates_toward_input() {
    let mut pos = v(0, 0);
    let mut phys = physics_at(v(0, 0), v(0, 0), 12_000);
    let input = InputDir { dir: v(100_000, 0) };
    let mut ppos = PlayerPosition { position: v(0, 0) };
    s_player_movement(&mut pos, &mut phys, &input, &mut ppos);
    assert_eq!(phys.acceleration, v(500, 0));
    assert_eq!(phys.velocity, v(500, 0));
    assert_eq!(pos, v(500, 0));
    assert_eq!(ppos.position, v(500, 0));
    assert_eq!(phys.prev_position, v(0, 0));
}

#[test]
fn blend_converges_to_wander_when_blocked() {
    // A wall between the agent and the player holds visibility false; ten
    // 100 ms frames push the blend to exactly one, where it stays.
    let polys = vec![wall_at(5_000, -200_000, 200_000)];
    let grid = SpatialGrid::new(&polys, 10_000);
    let player = v(10_000, 0);
    let mut pos = v(0, 0);
    let mut phys = physics_at(v(0, 0), v(0, 0), 8_000);
    let mut ai = fresh_ai(0, 900);
    let mut cache = fresh_cache();
    for _ in 0..10 {
        // Hold the agent still so only the blend evolves.
        let held = pos;
        s_flee_ai_movement(&mut pos, &mut phys, &mut ai, &mut cache, &grid,
            player, 100);
        pos = held;
        phys.velocity = v(0, 0);
    }
    assert_eq!(ai.blend, 1_000);
    s_flee_ai_movement(&mut pos, &mut phys, &mut ai, &mut cache, &grid, player, 100);
    assert_eq!(ai.blend, 1_000);
}

#[test]
fn blend_is_zero_when_player_close_and_visible() {
    let polys: Vec<Polygon> = vec![];
    let grid = SpatialGrid::new(&polys, 10_000);
    let player = v(50_000, 0);
    let mut pos = v(0, 0);
    let mut phys = physics_at(v(0, 0), v(0, 0), 8_000);
    let mut ai = fresh_ai(700, 900);
    let mut cache = fresh_cache();
    s_flee_ai_movement(&mut pos, &mut phys, &mut ai, &mut cache, &grid, player, 16);
    assert_eq!(ai.blend, 0);
    assert_eq!(ai.color.r, 1_000);
    assert_eq!(ai.color.g, 0);
}

#[test]
fn wander_extreme_selects_best_scoring_direction() {
    // Player visible but beyond the detection range: blend is exactly one,
    // the heading is the pure wander direction, and with nothing obstructed
    // the agent steers along the direction with the maximal dot product —
    // here the rightward direction.
    let polys: Vec<Polygon> = vec![];
    let grid = SpatialGrid::new(&polys, 10_000);
    let player = v(500_000, 0);
    let mut pos = v(0, 0);
    // Fast rightward motion and wander angle zero: the wander target lies
    // straight ahead to the right.
    let mut phys = physics_at(v(0, 0), v(100_000, 0), 8_000);
    let mut ai = fresh_ai(1_000, 0);
    let mut cache = fresh_cache();
    s_flee_ai_movement(&mut pos, &mut phys, &mut ai, &mut cache, &grid, player, 16);
    assert_eq!(ai.blend, 1_000);
    // The rightward direction scores the unique maximum weight.
    let dirs = get_direction_vectors();
    assert_eq!(dirs[0], v(100_000, 0));
    let w0 = ai.dir_weights[0];
    for k in 1..16 {
        assert!(ai.dir_weights[k] < w0);
    }
    // Selected desired velocity: rightward at wander speed (3000); steering
    // one tenth of the gap from 100000.
    assert_eq!(phys.acceleration, v((3_000 - 100_000) / 10, 0));
    // The wander angle stays within one turn and moved by a bounded step.
    assert!(0 <= ai.wander_angle && ai.wander_angle < 3_600);
    assert!(ai.wander_angle <= AI_WANDER_DISPLACE_RANGE
        || ai.wander_angle >= 3_600 - AI_WANDER_DISPLACE_RANGE);
}

#[test]
fn random_channels_stay_in_range() {
    // The level builder's colours come from the random wrapper: every
    // channel must stay within the fixed-point unit range, and it is
    // vanishingly unlikely that many draws all land on one value.
    let grid: Vec<Vec<u32>> = vec![
        vec![1, 1, 1, 1],
        vec![1, 0, 0, 1],
        vec![1, 0, 0, 1],
        vec![1, 1, 1, 1],
    ];
    let mut seen = Vec::new();
    for _ in 0..8 {
        let (polys, _, _) = flee_ai::level::generate_level_polygons(&grid, 10).unwrap();
        for p in &polys {
            assert!(p.color.r <= 1_000 && p.color.g <= 1_000 && p.color.b <= 1_000);
            seen.push((p.color.r, p.color.g, p.color.b));
        }
    }
    let first = seen[0];
    assert!(seen.iter().any(|c| *c != first));
}
