use flee_ai::vec2::Vec2;
use flee_ai::level::{generate_level_polygons, weld_edges, point_in_polygon,
    calculate_winding_order, LevelError};

fn v(x: i64, y: i64) -> Vec2 {
    Vec2 { x, y }
}

#[test]
fn empty_grid_is_rejected() {
    let grid: Vec<Vec<u32>> = vec![];
    let r = generate_level_polygons(&grid, 10);
    assert_eq!(r.err(), Some(LevelError::EmptyGrid));
}

#[test]
fn empty_rows_are_rejected() {
    let grid: Vec<Vec<u32>> = vec![vec![], vec![]];
    let r = generate_level_polygons(&grid, 10);
    assert_eq!(r.err(), Some(LevelError::EmptyGrid));
}

#[test]
fn non_positive_cell_size_is_rejected() {
    let grid: Vec<Vec<u32>> = vec![vec![1]];
    assert_eq!(generate_level_polygons(&grid, 0).err(),
        Some(LevelError::NonPositiveCellSize));
    assert_eq!(generate_level_polygons(&grid, -5).err(),
        Some(LevelError::NonPositiveCellSize));
}

#[test]
fn error_messages_describe_the_fault() {
    assert!(LevelError::EmptyGrid.message().contains("row"));
    assert!(LevelError::NonPositiveCellSize.message().contains("positive"));
}

#[test]
fn single_solid_tile_builds_one_square() {
    let grid: Vec<Vec<u32>> = vec![vec![1]];
    let (polys, size, half) = generate_level_polygons(&grid, 10).unwrap();
    // Pixel size of the 1x1 grid at cell size 10, and half of it.
    assert_eq!(size, v(10, 10));
    assert_eq!(half, v(5, 5));
    assert_eq!(polys.len(), 1);
    let p = &polys[0];
    // A closed square centred on the origin, which therefore encloses it.
    assert_eq!(p.points.first(), p.points.last());
    assert_eq!(p.points.len(), 5);
    for q in &p.points {
        assert_eq!(q.x.abs(), 5);
        assert_eq!(q.y.abs(), 5);
    }
    // The origin lies inside, so the collision side is inverted.
    assert!(point_in_polygon(&p.points, v(0, 0)));
    let w = calculate_winding_order(&p.points);
    let sign: i64 = if w >= 0 { 1 } else { -1 };
    assert_eq!(p.collision_side, -sign);
}

#[test]
fn border_ring_grid_builds_interior_boundary() {
    // A 4x4 grid whose border tiles are solid and whose 2x2 interior is
    // empty, at cell size 10: the interior boundary must come out as exactly
    // one closed polygon enclosing the origin, with its collision side
    // inverted.  (The outer boundary forms its own polygon.)
    let grid: Vec<Vec<u32>> = vec![
        vec![1, 1, 1, 1],
        vec![1, 0, 0, 1],
        vec![1, 0, 0, 1],
        vec![1, 1, 1, 1],
    ];
    let (polys, size, half) = generate_level_polygons(&grid, 10).unwrap();
    assert_eq!(size, v(40, 40));
    assert_eq!(half, v(20, 20));
    assert_eq!(polys.len(), 2);
    // Exactly one polygon is the interior boundary (spanning +-10).
    let inner: Vec<_> = polys.iter()
        .filter(|p| p.points.iter().all(|q| q.x.abs() <= 10 && q.y.abs() <= 10))
        .collect();
    assert_eq!(inner.len(), 1);
    let p = inner[0];
    assert_eq!(p.points.first(), p.points.last());
    assert_eq!(p.points.len(), 5);
    // It encloses the origin, so it is container-flagged: inverted side.
    assert!(point_in_polygon(&p.points, v(0, 0)));
    let w = calculate_winding_order(&p.points);
    let sign: i64 = if w >= 0 { 1 } else { -1 };
    assert_eq!(p.collision_side, -sign);
    // Both boundaries enclose the origin here, so both carry the shared
    // container colour.
    assert!(point_in_polygon(&polys[0].points, v(0, 0)));
    assert!(point_in_polygon(&polys[1].points, v(0, 0)));
    assert_eq!(polys[0].color, polys[1].color);
}

#[test]
fn triangle_tile_emits_hypotenuse() {
    // A lone bottom-left right triangle: hypotenuse plus two outward sides.
    let grid: Vec<Vec<u32>> = vec![vec![2]];
    let (polys, _size, _half) = generate_level_polygons(&grid, 10).unwrap();
    assert_eq!(polys.len(), 1);
    let p = &polys[0];
    assert_eq!(p.points.first(), p.points.last());
    // Triangle: three corners, closed.
    assert_eq!(p.points.len(), 4);
}

#[test]
fn weld_merges_collinear_pair_exactly() {
    // Horizontal, vertical, and diagonal runs each weld into the single
    // edge spanning the two outer endpoints, with no drift.
    let mut horiz = vec![v(0, 0), v(10, 0), v(10, 0), v(20, 0)];
    weld_edges(&mut horiz);
    assert_eq!(horiz, vec![v(0, 0), v(20, 0)]);

    let mut vert = vec![v(5, 5), v(5, 15), v(5, 15), v(5, 30)];
    weld_edges(&mut vert);
    assert_eq!(vert, vec![v(5, 5), v(5, 30)]);

    let mut diag = vec![v(0, 0), v(7, 7), v(7, 7), v(21, 21)];
    weld_edges(&mut diag);
    assert_eq!(diag, vec![v(0, 0), v(21, 21)]);
}

#[test]
fn weld_keeps_non_collinear_edges() {
    let edges = vec![v(0, 0), v(10, 0), v(10, 0), v(10, 10)];
    let mut welded = edges.clone();
    weld_edges(&mut welded);
    assert_eq!(welded, edges);
}

#[test]
fn weld_is_idempotent() {
    // Welding an already-welded edge set produces no further change.
    let mut edges = vec![
        v(0, 0), v(10, 0),
        v(10, 0), v(20, 0),
        v(20, 0), v(20, 10),
        v(20, 10), v(20, 25),
    ];
    weld_edges(&mut edges);
    let after_first = edges.clone();
    weld_edges(&mut edges);
    assert_eq!(edges, after_first);
    // The two collinear runs collapsed to two edges.
    assert_eq!(after_first.len(), 4);
}
