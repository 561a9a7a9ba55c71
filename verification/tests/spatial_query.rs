use flee_ai::vec2::Vec2;
use flee_ai::level::{Polygon, Color};
use flee_ai::spatial::SpatialGrid;
use flee_ai::utils::line_intersect;

fn v(x: i64, y: i64) -> Vec2 {
    Vec2 { x, y }
}

fn grey() -> Color {
    Color { r: 500, g: 500, b: 500 }
}

fn sample_polygons() -> Vec<Polygon> {
    vec![
        Polygon {
            points: vec![v(-50, -50), v(50, -50), v(50, 50), v(-50, 50), v(-50, -50)],
            collision_side: 1,
            color: grey(),
        },
        Polygon {
            points: vec![v(100, 0), v(120, 0), v(120, 35), v(100, 35), v(100, 0)],
            collision_side: -1,
            color: grey(),
        },
        Polygon {
            points: vec![v(-200, 100), v(-150, 170), v(-90, 100), v(-200, 100)],
            collision_side: 1,
            color: grey(),
        },
    ]
}

fn all_edges(polys: &[Polygon]) -> Vec<(Vec2, Vec2)> {
    let mut out = Vec::new();
    for p in polys {
        for i in 1..p.points.len() {
            out.push((p.points[i - 1], p.points[i]));
        }
    }
    out
}

#[test]
fn query_includes_every_brute_force_hit() {
    // The spatial query must return a superset of the edges a brute-force
    // scan over all level edges finds intersecting, for a spread of query
    // segments and cell sizes.
    let polys = sample_polygons();
    let edges = all_edges(&polys);
    let queries = [
        (v(0, 0), v(300, 10)),
        (v(-300, -300), v(300, 300)),
        (v(-10, 111), v(111, -10)),
        (v(-250, 120), v(250, 120)),
        (v(49, 49), v(51, 51)),
        (v(0, -500), v(0, 500)),
        (v(-170, 160), v(-130, 90)),
    ];
    for cell_size in [7i64, 10, 33, 100] {
        let grid = SpatialGrid::new(&polys, cell_size);
        for (qa, qb) in queries {
            let found = grid.edges_along_ray(qa, qb);
            for (s, e) in &edges {
                if line_intersect(*s, *e, qa, qb).is_some() {
                    assert!(
                        found.iter().any(|f| f.start == *s && f.end == *e),
                        "missing edge for cell size {}", cell_size
                    );
                }
            }
        }
    }
}

#[test]
fn query_returns_only_level_edges_without_duplicates() {
    let polys = sample_polygons();
    let edges = all_edges(&polys);
    let grid = SpatialGrid::new(&polys, 25);
    let found = grid.edges_along_ray(v(-300, -300), v(300, 300));
    for f in &found {
        assert!(edges.iter().any(|(s, e)| f.start == *s && f.end == *e));
    }
    for i in 0..found.len() {
        for j in (i + 1)..found.len() {
            assert!(!(found[i].start == found[j].start && found[i].end == found[j].end));
        }
    }
}
