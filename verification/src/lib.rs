pub mod vec2;
pub mod utils;
pub mod level;
pub mod random;
pub mod spatial;
pub mod collisions;
pub mod flee;

use vstd::prelude::*;
use crate::vec2::{Vec2, bounded, DIR_ONE};

verus! {

/// Maximum player speed, in coordinate units per frame.
pub const PLAYER_MAX_SPEED: i64 = 5_000;

/// Reciprocal of the player steering scale: the steering force is one tenth
/// of the difference between desired and current velocity.
pub const PLAYER_STEERING_DIV: i64 = 10;

/// Default player collision radius, in coordinate units.
pub const PLAYER_RADIUS: i64 = 12_000;

/// Default AI collision radius, in coordinate units.
pub const AI_RADIUS: i64 = 8_000;

/// Per-entity physics state: where it was last frame, how it moves, its
/// collision radius, and the surface normal accumulated by the last
/// collision pass (a direction scaled by `DIR_ONE`).
pub struct Physics {
    pub prev_position: Vec2,
    pub velocity: Vec2,
    pub acceleration: Vec2,
    pub radius: i64,
    pub normal: Vec2,
}

/// The level geometry shared by every entity: its boundary polygons, the
/// tile cell size in coordinate units, and the grid's pixel size and
/// half-size in coordinate units.
pub struct Level {
    pub polygons: Vec<crate::level::Polygon>,
    pub grid_size: i64,
    pub size: Vec2,
    pub half_size: Vec2,
}

/// The player's input direction for this frame, scaled by `DIR_ONE`.
pub struct InputDir {
    pub dir: Vec2,
}

/// The player's position, read by the AI every frame.
pub struct PlayerPosition {
    pub position: Vec2,
}

/// Whether debug overlay data should be emitted; never affects simulation.
pub struct GizmosVisible {
    pub visible: bool,
}

/// Marker for the player-controlled entity.
pub struct Player {}

/// The desired velocity for a player input direction: the direction scaled
/// to the maximum player speed.
pub open spec fn desired_player_velocity(dir: Vec2) -> Vec2 {
    Vec2 {
        x: ((dir.x * PLAYER_MAX_SPEED) / (DIR_ONE as int)) as i64,
        y: ((dir.y * PLAYER_MAX_SPEED) / (DIR_ONE as int)) as i64,
    }
}

/// Velocity after one steering step toward `desired`: the current velocity
/// plus a tenth of the remaining difference, rounded toward negative
/// infinity.
pub open spec fn steer_velocity(velocity: Vec2, desired: Vec2) -> Vec2 {
    Vec2 {
        x: (velocity.x + (desired.x - velocity.x) / (PLAYER_STEERING_DIV as int)) as i64,
        y: (velocity.y + (desired.y - velocity.y) / (PLAYER_STEERING_DIV as int)) as i64,
    }
}

/// The desired player velocity never exceeds the maximum speed (plus the
/// rounding unit).
proof fn lemma_desired_bounds(dir: Vec2)
    requires
        bounded(dir, DIR_ONE as int + 1),
    ensures
        bounded(desired_player_velocity(dir), 5_001),
{
    assert(-(DIR_ONE as int + 1) * 5_000 <= dir.x * 5_000 <= (DIR_ONE as int + 1) * 5_000
        && -(DIR_ONE as int + 1) * 5_000 <= dir.y * 5_000 <= (DIR_ONE as int + 1) * 5_000)
        by (nonlinear_arith)
        requires bounded(dir, DIR_ONE as int + 1);
    crate::vec2::lemma_div_above(dir.x * 5_000, DIR_ONE as int, -5_001);
    crate::vec2::lemma_div_below(dir.x * 5_000, DIR_ONE as int, 5_002);
    crate::vec2::lemma_div_above(dir.y * 5_000, DIR_ONE as int, -5_001);
    crate::vec2::lemma_div_below(dir.y * 5_000, DIR_ONE as int, 5_002);
}

/// One steering step keeps a bounded velocity bounded.
proof fn lemma_steer_bounds(v: int, d: int)
    requires
        -1_000_000 <= v <= 1_000_000,
        -5_001 <= d <= 5_001,
    ensures
        -1_000_000 <= v + (d - v) / 10 <= 1_000_000,
        -200_000 <= (d - v) / 10 <= 200_000,
{
    crate::vec2::lemma_div_above(d - v, 10, -100_501);
    crate::vec2::lemma_div_below(d - v, 10, 100_501);
    vstd::arithmetic::div_mod::lemma_fundamental_div_mod(d - v, 10);
    assert(-1_000_000 <= v + (d - v) / 10 <= 1_000_000) by (nonlinear_arith)
        requires
            (d - v) == 10 * ((d - v) / 10) + (d - v) % 10,
            0 <= (d - v) % 10 < 10,
            -1_000_000 <= v <= 1_000_000,
            -5_001 <= d <= 5_001;
}

/// Advances the player by one frame of steering: the desired velocity is the
/// input direction at maximum speed; the acceleration is the steering force
/// toward it; velocity and position integrate it.  Records the previous
/// position for the collision pass and publishes the new position.
pub fn s_player_movement(
    position: &mut Vec2,
    physics: &mut Physics,
    input_dir: &InputDir,
    player_pos: &mut PlayerPosition,
)
    requires
        bounded(*old(position), 190_000_000),
        bounded(old(physics).velocity, 1_000_000),
        bounded(input_dir.dir, DIR_ONE as int + 1),
    ensures
        final(physics).prev_position == *old(position),
        final(physics).velocity == steer_velocity(
            old(physics).velocity, desired_player_velocity(input_dir.dir)),
        final(physics).acceleration.x
            == final(physics).velocity.x - old(physics).velocity.x,
        final(physics).acceleration.y
            == final(physics).velocity.y - old(physics).velocity.y,
        bounded(final(physics).velocity, 1_000_000),
        final(position).x == old(position).x + final(physics).velocity.x,
        final(position).y == old(position).y + final(physics).velocity.y,
        final(physics).radius == old(physics).radius,
        final(physics).normal == old(physics).normal,
        final(player_pos).position == *final(position),
{
    let prev = *position;
    let desired_x = crate::vec2::floor_div(input_dir.dir.x * PLAYER_MAX_SPEED, DIR_ONE);
    let desired_y = crate::vec2::floor_div(input_dir.dir.y * PLAYER_MAX_SPEED, DIR_ONE);
    proof {
        lemma_desired_bounds(input_dir.dir);
    }
    let steer_x = crate::vec2::floor_div(desired_x - physics.velocity.x, PLAYER_STEERING_DIV);
    let steer_y = crate::vec2::floor_div(desired_y - physics.velocity.y, PLAYER_STEERING_DIV);
    proof {
        lemma_steer_bounds(physics.velocity.x as int, desired_x as int);
        lemma_steer_bounds(physics.velocity.y as int, desired_y as int);
    }
    let new_velocity = Vec2 {
        x: physics.velocity.x + steer_x,
        y: physics.velocity.y + steer_y,
    };
    *physics = Physics {
        prev_position: prev,
        velocity: new_velocity,
        acceleration: Vec2 { x: steer_x, y: steer_y },
        radius: physics.radius,
        normal: physics.normal,
    };
    *position = Vec2 {
        x: position.x + new_velocity.x,
        y: position.y + new_velocity.y,
    };
    player_pos.position = *position;
}

} // verus!
