use flee_ai::vec2::{Vec2, isqrt, normalize_or_zero, floor_div};
use flee_ai::utils::{line_intersect, cross_product, lerp};
use flee_ai::level::{point_in_polygon, calculate_winding_order};

fn v(x: i64, y: i64) -> Vec2 {
    Vec2 { x, y }
}

#[test]
fn crossing_segments_intersect() {
    let r = line_intersect(v(0, 0), v(10, 0), v(5, -5), v(5, 5));
    assert_eq!(r, Some(v(5, 0)));
}

#[test]
fn touching_segments_intersect() {
    // Touching at an endpoint still counts.
    let r = line_intersect(v(0, 0), v(10, 0), v(10, 0), v(10, 7));
    assert_eq!(r, Some(v(10, 0)));
}

#[test]
fn parallel_segments_do_not_intersect() {
    let r = line_intersect(v(0, 0), v(10, 0), v(0, 1), v(10, 1));
    assert!(r.is_none());
}

#[test]
fn collinear_overlapping_segments_do_not_intersect() {
    // Degenerate case preserved: collinear overlap yields None.
    let r = line_intersect(v(0, 0), v(10, 0), v(5, 0), v(15, 0));
    assert!(r.is_none());
}

#[test]
fn disjoint_segments_do_not_intersect() {
    let r = line_intersect(v(0, 0), v(10, 0), v(20, -5), v(20, 5));
    assert!(r.is_none());
}

#[test]
fn cross_product_formula() {
    assert_eq!(cross_product(v(2, 3), v(4, 5)), 2 * 5 - 3 * 4);
    assert_eq!(cross_product(v(1, 0), v(0, 1)), 1);
}

#[test]
fn lerp_exact_values() {
    assert_eq!(lerp(0, 1000, 500), 500);
    assert_eq!(lerp(5000, 3000, 0), 5000);
    assert_eq!(lerp(5000, 3000, 1000), 3000);
    assert_eq!(lerp(-100, 100, 250), -50);
}

#[test]
fn isqrt_exact_values() {
    assert_eq!(isqrt(0), 0);
    assert_eq!(isqrt(1), 1);
    assert_eq!(isqrt(2), 1);
    assert_eq!(isqrt(144), 12);
    assert_eq!(isqrt(145), 12);
    assert_eq!(isqrt(1_000_000), 1000);
}

#[test]
fn floor_div_rounds_toward_negative_infinity() {
    assert_eq!(floor_div(7, 2), 3);
    assert_eq!(floor_div(-7, 2), -4);
    assert_eq!(floor_div(-6, 2), -3);
}

#[test]
fn normalize_or_zero_scales_to_unit() {
    // A 3-4-5 triangle normalizes exactly.
    assert_eq!(normalize_or_zero(v(30_000, 40_000)), v(60_000, 80_000));
    assert_eq!(normalize_or_zero(v(0, 0)), v(0, 0));
    assert_eq!(normalize_or_zero(v(-7, 0)), v(-100_000, 0));
}

#[test]
fn point_in_polygon_square() {
    let square = vec![v(-10, -10), v(10, -10), v(10, 10), v(-10, 10), v(-10, -10)];
    assert!(point_in_polygon(&square, v(0, 0)));
    assert!(!point_in_polygon(&square, v(50, 50)));
    assert!(!point_in_polygon(&square, v(-50, 0)));
}

#[test]
fn point_in_polygon_rotation_invariant() {
    // Re-rooting the closed point list leaves the inside test unchanged.
    let square = vec![v(-10, -10), v(10, -10), v(10, 10), v(-10, 10), v(-10, -10)];
    let rotated1 = vec![v(10, -10), v(10, 10), v(-10, 10), v(-10, -10), v(10, -10)];
    let rotated2 = vec![v(10, 10), v(-10, 10), v(-10, -10), v(10, -10), v(10, 10)];
    for p in [v(0, 0), v(3, 7), v(50, 50), v(-11, 0), v(9, 9)] {
        let a = point_in_polygon(&square, p);
        assert_eq!(point_in_polygon(&rotated1, p), a);
        assert_eq!(point_in_polygon(&rotated2, p), a);
    }
}

#[test]
fn winding_order_sign() {
    // y grows downward in grid space before the transform, so this order is
    // one winding; the reverse is the other.
    let cw = vec![v(0, 0), v(10, 0), v(10, 10), v(0, 10), v(0, 0)];
    let ccw = vec![v(0, 0), v(0, 10), v(10, 10), v(10, 0), v(0, 0)];
    let w1 = calculate_winding_order(&cw);
    let w2 = calculate_winding_order(&ccw);
    assert!(w1 < 0);
    assert!(w2 > 0);
    assert_eq!(w1, -w2);
}
