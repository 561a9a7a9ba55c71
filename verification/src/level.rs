use vstd::prelude::*;
use crate::vec2::{Vec2, bounded, in_range};
use crate::utils::{line_intersect, seg_intersects};

verus! {

/// Horizontal reach of the fixed inside-test ray (a long, deliberately
/// non-axis-aligned direction, so it never runs along a grid edge).
pub const PIP_RAY_X: i64 = 2_000_000;

/// Vertical reach of the fixed inside-test ray.
pub const PIP_RAY_Y: i64 = 1_000_000;

/// End point of the inside-test ray cast from `p`.
pub open spec fn pip_ray_end(p: Vec2) -> Vec2 {
    Vec2 { x: (p.x + PIP_RAY_X) as i64, y: (p.y + PIP_RAY_Y) as i64 }
}

/// A query point far enough inside the coordinate range that the test ray
/// stays in range too.
pub open spec fn pip_point_ok(p: Vec2) -> bool {
    bounded(p, 198_000_000)
}

/// Number of polygon boundary segments (consecutive point pairs) that the
/// segment `(a, b)` intersects.
pub open spec fn crossings(pts: Seq<Vec2>, a: Vec2, b: Vec2) -> nat
    decreases pts.len(),
{
    if pts.len() < 2 {
        0
    } else {
        crossings(pts.drop_last(), a, b) + (
            if seg_intersects(pts[pts.len() - 2], pts[pts.len() - 1], a, b) {
                1nat
            } else {
                0nat
            }
        )
    }
}

/// A point counts as inside when the fixed ray cast from it crosses the
/// polygon's boundary an odd number of times.
pub open spec fn point_in_polygon_spec(pts: Seq<Vec2>, p: Vec2) -> bool {
    crossings(pts, p, pip_ray_end(p)) % 2 == 1
}

/// All points of a sequence lie within the supported coordinate range.
pub open spec fn all_in_range(pts: Seq<Vec2>) -> bool {
    forall|i: int| 0 <= i < pts.len() ==> in_range(#[trigger] pts[i])
}

/// Tests whether `point` lies inside the closed polygon traced by
/// `polygon_lines`, by counting how often a fixed long ray from the point
/// crosses the boundary (odd count: inside).
pub fn point_in_polygon(polygon_lines: &Vec<Vec2>, point: Vec2) -> (r: bool)
    requires
        all_in_range(polygon_lines@),
        pip_point_ok(point),
    ensures
        r == point_in_polygon_spec(polygon_lines@, point),
{
    let test_line_start = point;
    let test_line_end = Vec2::new(point.x + PIP_RAY_X, point.y + PIP_RAY_Y);
    let mut intersect_counter: usize = 0;
    let mut i: usize = 1;
    if polygon_lines.len() < 2 {
        assert(crossings(polygon_lines@, point, pip_ray_end(point)) == 0);
        return false;
    }
    while i < polygon_lines.len()
        invariant
            1 <= i <= polygon_lines.len(),
            polygon_lines.len() >= 2,
            all_in_range(polygon_lines@),
            pip_point_ok(point),
            test_line_start == point,
            test_line_end == pip_ray_end(point),
            intersect_counter <= i,
            intersect_counter == crossings(
                polygon_lines@.subrange(0, i as int), point, pip_ray_end(point)),
        decreases polygon_lines.len() - i,
    {
        let start = polygon_lines[i - 1];
        let end = polygon_lines[i];
        let intersection = line_intersect(start, end, test_line_start, test_line_end);
        proof {
            let sub1 = polygon_lines@.subrange(0, i + 1 as int);
            assert(sub1.drop_last() =~= polygon_lines@.subrange(0, i as int));
        }
        if intersection.is_some() {
            intersect_counter += 1;
        }
        i += 1;
    }
    proof {
        assert(polygon_lines@.subrange(0, polygon_lines@.len() as int) =~= polygon_lines@);
    }
    intersect_counter % 2 == 1
}

/// The closed polygon's point list, re-rooted to start at vertex `k` of its
/// body (the list without the repeated closing point).
pub open spec fn rotate_closed(pts: Seq<Vec2>, k: int) -> Seq<Vec2> {
    let body = pts.drop_last();
    let rot = body.subrange(k, body.len() as int) + body.subrange(0, k);
    rot.push(rot[0])
}

/// Splits the crossing count at the front edge.
proof fn lemma_crossings_front(s: Seq<Vec2>, a: Vec2, b: Vec2)
    requires
        s.len() >= 2,
    ensures
        crossings(s, a, b) == (if seg_intersects(s[0], s[1], a, b) { 1nat } else { 0nat })
            + crossings(s.subrange(1, s.len() as int), a, b),
    decreases s.len(),
{
    let n = s.len() as int;
    let tail = s.subrange(1, n);
    if s.len() == 2 {
        assert(s.drop_last().len() == 1);
        assert(crossings(s.drop_last(), a, b) == 0);
        assert(tail.len() == 1);
        assert(crossings(tail, a, b) == 0);
        assert(crossings(s, a, b)
            == (if seg_intersects(s[0], s[1], a, b) { 1nat } else { 0nat }));
    } else {
        let sd = s.drop_last();
        lemma_crossings_front(sd, a, b);
        assert(sd[0] == s[0] && sd[1] == s[1]);
        assert(tail.drop_last() =~= sd.subrange(1, sd.len() as int));
        assert(tail[tail.len() - 1] == s[n - 1]);
        assert(tail[tail.len() - 2] == s[n - 2]);
        assert(crossings(tail, a, b) == crossings(tail.drop_last(), a, b)
            + (if seg_intersects(s[n - 2], s[n - 1], a, b) { 1nat } else { 0nat }));
        assert(crossings(s, a, b) == crossings(sd, a, b)
            + (if seg_intersects(s[n - 2], s[n - 1], a, b) { 1nat } else { 0nat }));
    }
}

/// Appending a point adds exactly the closing edge's crossing.
proof fn lemma_crossings_push(s: Seq<Vec2>, x: Vec2, a: Vec2, b: Vec2)
    requires
        s.len() >= 1,
    ensures
        crossings(s.push(x), a, b) == crossings(s, a, b)
            + (if seg_intersects(s[s.len() - 1], x, a, b) { 1nat } else { 0nat }),
{
    assert(s.push(x).drop_last() =~= s);
}

/// Re-rooting a closed polygon at its second vertex leaves the crossing
/// count unchanged.
proof fn lemma_crossings_rotate1(pts: Seq<Vec2>, a: Vec2, b: Vec2)
    requires
        pts.len() >= 3,
        pts[0] == pts[pts.len() - 1],
    ensures
        crossings(rotate_closed(pts, 1), a, b) == crossings(pts, a, b),
{
    let n = pts.len() - 1;
    let body = pts.drop_last();
    let rot = body.subrange(1, n as int) + body.subrange(0, 1);
    assert(rot =~= pts.subrange(1, (n + 1) as int));
    assert(rot[0] == pts[1]);
    lemma_crossings_front(pts, a, b);
    lemma_crossings_push(rot, rot[0], a, b);
    assert(rot[rot.len() - 1] == body[0]);
    assert(pts[0] == body[0]);
    assert(rotate_closed(pts, 1) == rot.push(rot[0]));
}

/// Re-rooting at `k` equals re-rooting at `k - 1` and then once more.
proof fn lemma_rotate_closed_step(pts: Seq<Vec2>, k: int)
    requires
        pts.len() >= 3,
        pts[0] == pts[pts.len() - 1],
        1 <= k < pts.len() - 1,
    ensures
        rotate_closed(pts, k) =~= rotate_closed(rotate_closed(pts, k - 1), 1),
{
    let n = pts.len() - 1;
    let body = pts.drop_last();
    let prev = rotate_closed(pts, k - 1);
    let prev_body = prev.drop_last();
    assert(prev_body =~= body.subrange(k - 1, n as int) + body.subrange(0, k - 1));
    let rot = prev_body.subrange(1, n as int) + prev_body.subrange(0, 1);
    assert(rot =~= body.subrange(k, n as int) + body.subrange(0, k));
    assert(rotate_closed(prev, 1) == rot.push(rot[0]));
}

/// The inside test is invariant under re-rooting the same closed polygon's
/// point list at any of its vertices: the boundary edges are the same, so the
/// fixed ray crosses them the same number of times.
pub proof fn lemma_point_in_polygon_rotation(pts: Seq<Vec2>, p: Vec2, k: int)
    requires
        pts.len() >= 2,
        pts[0] == pts[pts.len() - 1],
        0 <= k < pts.len() - 1,
    ensures
        point_in_polygon_spec(rotate_closed(pts, k), p)
            == point_in_polygon_spec(pts, p),
    decreases k,
{
    let body = pts.drop_last();
    if k == 0 {
        let rot = body.subrange(0, body.len() as int) + body.subrange(0, 0);
        assert(rot =~= body);
        assert(rotate_closed(pts, 0) =~= pts);
    } else {
        lemma_point_in_polygon_rotation(pts, p, k - 1);
        let prev = rotate_closed(pts, k - 1);
        assert(pts.len() >= 3);
        lemma_rotate_closed_step(pts, k);
        let prev_body = prev.drop_last();
        assert(prev_body =~= body.subrange(k - 1, body.len() as int)
            + body.subrange(0, k - 1));
        assert(prev.len() == pts.len());
        assert(prev[0] == prev[prev.len() - 1]);
        lemma_crossings_rotate1(prev, p, pip_ray_end(p));
        assert(rotate_closed(pts, k) =~= rotate_closed(prev, 1));
    }
}

/// The two edge direction vectors are both non-degenerate and collinear
/// (their cross product vanishes): the exact-arithmetic counterpart of a
/// normalized dot product with absolute value one.
pub open spec fn collinear_dirs(l1s: Vec2, l1e: Vec2, l2s: Vec2, l2e: Vec2) -> bool {
    let d1x = l1s.x - l1e.x;
    let d1y = l1s.y - l1e.y;
    let d2x = l2s.x - l2e.x;
    let d2y = l2s.y - l2e.y;
    &&& (d1x != 0 || d1y != 0)
    &&& (d2x != 0 || d2y != 0)
    &&& crate::vec2::cross2(d1x, d1y, d2x, d2y) == 0
}

/// If the two edges share an endpoint, the pair of their non-shared
/// endpoints, checked in a fixed priority order (start/start, start/end,
/// end/start, end/end).
pub open spec fn shared_unique(l1s: Vec2, l1e: Vec2, l2s: Vec2, l2e: Vec2)
    -> Option<(Vec2, Vec2)> {
    if l1s == l2s {
        Some((l1e, l2e))
    } else if l1s == l2e {
        Some((l1e, l2s))
    } else if l1e == l2s {
        Some((l1s, l2e))
    } else if l1e == l2e {
        Some((l1s, l2s))
    } else {
        None
    }
}

/// Edges `i` and `j` of the flat point-pair list share an endpoint and are
/// collinear, so the weld pass may replace them by a single edge.
pub open spec fn edge_pair_mergeable(s: Seq<Vec2>, i: int, j: int) -> bool {
    &&& i != j
    &&& shared_unique(s[2 * i], s[2 * i + 1], s[2 * j], s[2 * j + 1]) is Some
    &&& collinear_dirs(s[2 * i], s[2 * i + 1], s[2 * j], s[2 * j + 1])
}

/// First mergeable edge pair at or after scan position `(i, j)`, in the scan
/// order of the weld pass (outer index `i`, inner index `j`).
pub open spec fn find_merge_from(s: Seq<Vec2>, i: int, j: int) -> Option<(int, int)>
    decreases s.len() / 2 - i, s.len() / 2 - j,
{
    let n = s.len() as int / 2;
    if i < 0 || j < 0 || i >= n {
        None
    } else if j >= n {
        find_merge_from(s, i + 1, 0)
    } else if edge_pair_mergeable(s, i, j) {
        Some((i, j))
    } else {
        find_merge_from(s, i, j + 1)
    }
}

/// First mergeable edge pair of the whole list, if any.
pub open spec fn find_merge(s: Seq<Vec2>) -> Option<(int, int)> {
    find_merge_from(s, 0, 0)
}

/// Replaces edges `i` and `j` by the single edge joining their non-shared
/// endpoints: the four old points are removed (highest index first) and the
/// two unique endpoints are appended as a new edge.
pub open spec fn apply_merge(s: Seq<Vec2>, i: int, j: int) -> Seq<Vec2> {
    let u = shared_unique(s[2 * i], s[2 * i + 1], s[2 * j], s[2 * j + 1])->Some_0;
    let lo = if i < j { i } else { j };
    let hi = if i < j { j } else { i };
    s.remove(2 * hi + 1).remove(2 * hi).remove(2 * lo + 1).remove(2 * lo).push(u.0).push(u.1)
}

/// A found merge position is a well-formed pair of distinct edge indices.
pub proof fn lemma_find_merge_valid(s: Seq<Vec2>, i: int, j: int)
    requires
        find_merge_from(s, i, j) is Some,
    ensures
        ({
            let (a, b) = find_merge_from(s, i, j)->Some_0;
            &&& 0 <= a < s.len() / 2
            &&& 0 <= b < s.len() / 2
            &&& a != b
            &&& edge_pair_mergeable(s, a, b)
        }),
    decreases s.len() / 2 - i, s.len() / 2 - j,
{
    let n = s.len() as int / 2;
    if i < 0 || j < 0 || i >= n {
    } else if j >= n {
        lemma_find_merge_valid(s, i + 1, 0);
    } else if edge_pair_mergeable(s, i, j) {
    } else {
        lemma_find_merge_valid(s, i, j + 1);
    }
}

/// Result of exhaustively welding: repeatedly merge the first mergeable pair
/// until none remains.
pub open spec fn weld_spec(s: Seq<Vec2>) -> Seq<Vec2>
    decreases s.len(),
    via weld_spec_decreases
{
    match find_merge(s) {
        Some(ij) => weld_spec(apply_merge(s, ij.0, ij.1)),
        None => s,
    }
}

#[via_fn]
proof fn weld_spec_decreases(s: Seq<Vec2>) {
    match find_merge(s) {
        Some(ij) => {
            lemma_find_merge_valid(s, 0, 0);
            assert(apply_merge(s, ij.0, ij.1).len() == s.len() - 2);
        },
        None => {},
    }
}

/// Removing an element keeps every remaining point in range.
proof fn lemma_remove_in_range(s: Seq<Vec2>, i: int)
    requires
        all_in_range(s),
        0 <= i < s.len(),
    ensures
        all_in_range(s.remove(i)),
{
    assert forall|k: int| 0 <= k < s.remove(i).len() implies in_range(#[trigger] s.remove(i)[k]) by {
        if k < i {
            assert(s.remove(i)[k] == s[k]);
        } else {
            assert(s.remove(i)[k] == s[k + 1]);
        }
    }
}

/// Finds the first mergeable edge pair in scan order, if any.
fn find_merge_exec(pts: &Vec<Vec2>) -> (r: Option<(usize, usize)>)
    requires
        all_in_range(pts@),
    ensures
        r is Some <==> find_merge(pts@) is Some,
        r is Some ==> find_merge(pts@)->Some_0
            == (r->Some_0.0 as int, r->Some_0.1 as int),
{
    let n = pts.len() / 2;
    let mut i: usize = 0;
    while i < n
        invariant
            0 <= i <= n,
            n == pts@.len() / 2,
            n <= usize::MAX / 2,
            all_in_range(pts@),
            find_merge(pts@) == find_merge_from(pts@, i as int, 0),
        decreases n - i,
    {
        let mut j: usize = 0;
        while j < n
            invariant
                0 <= i < n,
                0 <= j <= n,
                n == pts@.len() / 2,
                n <= usize::MAX / 2,
                all_in_range(pts@),
                find_merge(pts@) == find_merge_from(pts@, i as int, j as int),
            decreases n - j,
        {
            if i != j {
                let l1s = pts[2 * i];
                let l1e = pts[2 * i + 1];
                let l2s = pts[2 * j];
                let l2e = pts[2 * j + 1];
                let has_shared = l1s == l2s || l1s == l2e || l1e == l2s || l1e == l2e;
                if has_shared {
                    let d1 = l1s.minus(l1e);
                    let d2 = l2s.minus(l2e);
                    let nonzero = (d1.x != 0 || d1.y != 0) && (d2.x != 0 || d2.y != 0);
                    if nonzero && crate::utils::cross_product(d1, d2) == 0 {
                        assert(edge_pair_mergeable(pts@, i as int, j as int));
                        return Some((i, j));
                    }
                }
                assert(!edge_pair_mergeable(pts@, i as int, j as int));
            }
            j += 1;
        }
        i += 1;
    }
    assert(find_merge_from(pts@, i as int, 0) is None);
    None
}

/// The weld pass: repeatedly merges collinear edge pairs that share exactly
/// one endpoint into a single edge joining their non-shared endpoints, until
/// no further merge is possible.
pub fn weld_edges(line_points: &mut Vec<Vec2>)
    requires
        all_in_range(old(line_points)@),
    ensures
        final(line_points)@ == weld_spec(old(line_points)@),
        all_in_range(final(line_points)@),
        find_merge(final(line_points)@) is None,
{
    loop
        invariant
            all_in_range(line_points@),
            weld_spec(line_points@) == weld_spec(old(line_points)@),
        decreases line_points@.len(),
    {
        let found = find_merge_exec(line_points);
        match found {
            None => {
                assert(weld_spec(line_points@) == line_points@);
                return;
            },
            Some((i, j)) => {
                proof {
                    lemma_find_merge_valid(line_points@, 0, 0);
                }
                let ghost prev = line_points@;
                let ln = line_points.len();
                assert(2 * (i as int) + 1 < ln);
                let l1s = line_points[2 * i];
                let l1e = line_points[2 * i + 1];
                let l2s = line_points[2 * j];
                let l2e = line_points[2 * j + 1];
                let (u1, u2) = if l1s == l2s {
                    (l1e, l2e)
                } else if l1s == l2e {
                    (l1e, l2s)
                } else if l1e == l2s {
                    (l1s, l2e)
                } else {
                    (l1s, l2s)
                };
                let (lo, hi) = if i < j { (i, j) } else { (j, i) };
                line_points.remove(2 * hi + 1);
                line_points.remove(2 * hi);
                line_points.remove(2 * lo + 1);
                line_points.remove(2 * lo);
                line_points.push(u1);
                line_points.push(u2);
                proof {
                    assert(line_points@ == apply_merge(prev, i as int, j as int));
                    lemma_remove_in_range(prev, 2 * hi + 1);
                    lemma_remove_in_range(prev.remove(2 * hi + 1), 2 * hi);
                    lemma_remove_in_range(prev.remove(2 * hi + 1).remove(2 * hi), 2 * lo + 1);
                    lemma_remove_in_range(
                        prev.remove(2 * hi + 1).remove(2 * hi).remove(2 * lo + 1), 2 * lo);
                    assert(all_in_range(line_points@)) by {
                        let base = prev.remove(2 * hi + 1).remove(2 * hi)
                            .remove(2 * lo + 1).remove(2 * lo);
                        assert(forall|k: int| 0 <= k < line_points@.len() ==>
                            line_points@[k] == (if k < base.len() { base[k] }
                                else if k == base.len() { u1 } else { u2 }));
                    };
                }
            },
        }
    }
}

/// Welding an already-welded edge list is the identity: a second weld pass
/// over the result of a first one produces no further change.
pub proof fn lemma_weld_idempotent(s: Seq<Vec2>)
    ensures
        weld_spec(weld_spec(s)) == weld_spec(s),
{
    lemma_weld_normal(s);
}

/// After welding, no mergeable pair remains.
pub proof fn lemma_weld_normal(s: Seq<Vec2>)
    ensures
        find_merge(weld_spec(s)) is None,
    decreases s.len(),
{
    match find_merge(s) {
        Some(ij) => {
            lemma_find_merge_valid(s, 0, 0);
            lemma_weld_normal(apply_merge(s, ij.0, ij.1));
        },
        None => {},
    }
}

/// Welding a pair of collinear edges `(a, b)` and `(b, c)` that share exactly
/// the endpoint `b` produces exactly one merged edge spanning the two
/// non-shared endpoints — no drift, whatever the orientation.
pub proof fn lemma_weld_collinear_pair(a: Vec2, b: Vec2, c: Vec2)
    requires
        a != b,
        b != c,
        a != c,
        collinear_dirs(a, b, b, c),
    ensures
        weld_spec(seq![a, b, b, c]) == seq![a, c],
{
    let s = seq![a, b, b, c];
    assert(s.len() == 4 && s[0] == a && s[1] == b && s[2] == b && s[3] == c);
    assert(shared_unique(a, b, b, c) == Some((a, c)));
    assert(edge_pair_mergeable(s, 0, 1));
    assert(!edge_pair_mergeable(s, 0, 0));
    assert(find_merge_from(s, 0, 0) == find_merge_from(s, 0, 1));
    assert(find_merge(s) == Some((0int, 1int)));
    let m = apply_merge(s, 0, 1);
    assert(m =~= seq![a, c]);
    let t = seq![a, c];
    assert(t.len() == 2);
    assert(find_merge_from(t, 0, 0) == find_merge_from(t, 0, 1));
    assert(find_merge_from(t, 0, 1) == find_merge_from(t, 1, 0));
    assert(find_merge_from(t, 1, 0) is None);
    assert(weld_spec(t) == t);
    assert(weld_spec(s) == weld_spec(m));
}

/// View of a grid of tile codes as a sequence of rows.
pub open spec fn gview(grid: &Vec<Vec<u32>>) -> Seq<Seq<u32>> {
    Seq::new(grid@.len(), |i: int| grid@[i]@)
}

/// The grid is rectangular: every row has the width of the first.
pub open spec fn rect_grid(grid: Seq<Seq<u32>>) -> bool {
    forall|y: int| 0 <= y < grid.len() ==> #[trigger] grid[y].len() == grid[0].len()
}

/// The tile at `(x, y)` counts as empty: out of bounds, or code 0.
pub open spec fn tile_empty(grid: Seq<Seq<u32>>, x: int, y: int) -> bool {
    ||| x < 0
    ||| y < 0
    ||| y >= grid.len()
    ||| x >= grid[y].len()
    ||| grid[y][x] == 0
}

/// Grid-space corner point `(x * gs, y * gs)`.
pub open spec fn grid_corner(gs: int, x: int, y: int) -> Vec2 {
    Vec2 { x: (x * gs) as i64, y: (y * gs) as i64 }
}

/// Boundary edge points emitted for one tile, as consecutive point pairs in
/// the emission order of the level builder.  Solid squares emit an edge on
/// each side with an empty neighbour; triangles emit their hypotenuse
/// unconditionally plus the outward axis-aligned sides with empty neighbours.
pub open spec fn tile_edge_points(grid: Seq<Seq<u32>>, gs: int, x: int, y: int) -> Seq<Vec2> {
    let a = grid_corner(gs, x, y);
    let b = grid_corner(gs, x, y + 1);
    let c = grid_corner(gs, x + 1, y);
    let d = grid_corner(gs, x + 1, y + 1);
    let left = if tile_empty(grid, x - 1, y) { seq![a, b] } else { Seq::<Vec2>::empty() };
    let right = if tile_empty(grid, x + 1, y) { seq![c, d] } else { Seq::<Vec2>::empty() };
    let top = if tile_empty(grid, x, y - 1) { seq![a, c] } else { Seq::<Vec2>::empty() };
    let bottom = if tile_empty(grid, x, y + 1) { seq![b, d] } else { Seq::<Vec2>::empty() };
    let tile = grid[y][x];
    if tile == 1 {
        left + right + top + bottom
    } else if tile == 2 {
        seq![a, d] + bottom + left
    } else if tile == 3 {
        seq![c, b] + bottom + right
    } else if tile == 4 {
        seq![b, c] + top + left
    } else if tile == 5 {
        seq![d, a] + top + right
    } else {
        Seq::<Vec2>::empty()
    }
}

/// Edge points of the first `n` tiles of row `y`.
pub open spec fn row_edges_upto(grid: Seq<Seq<u32>>, gs: int, y: int, n: int) -> Seq<Vec2>
    decreases n,
{
    if n <= 0 {
        Seq::empty()
    } else {
        row_edges_upto(grid, gs, y, n - 1) + tile_edge_points(grid, gs, n - 1, y)
    }
}

/// Edge points of the first `n` rows of the grid.
pub open spec fn grid_edges_upto(grid: Seq<Seq<u32>>, gs: int, n: int) -> Seq<Vec2>
    decreases n,
{
    if n <= 0 {
        Seq::empty()
    } else {
        grid_edges_upto(grid, gs, n - 1) + row_edges_upto(grid, gs, n - 1, grid[0].len() as int)
    }
}

/// All boundary edge points of the grid, in emission order.
pub open spec fn grid_edges(grid: Seq<Seq<u32>>, gs: int) -> Seq<Vec2> {
    grid_edges_upto(grid, gs, grid.len() as int)
}

/// Grid-space corner point of cell `(x, y)`.
fn corner(gs: i64, x: usize, y: usize) -> (r: Vec2)
    requires
        1 <= gs,
        (x as int) * gs <= crate::vec2::MAX_COORD,
        (y as int) * gs <= crate::vec2::MAX_COORD,
    ensures
        r == grid_corner(gs as int, x as int, y as int),
        0 <= r.x <= crate::vec2::MAX_COORD,
        0 <= r.y <= crate::vec2::MAX_COORD,
{
    proof {
        assert(x as int <= (x as int) * gs && y as int <= (y as int) * gs
            && 0 <= (x as int) * gs && 0 <= (y as int) * gs) by (nonlinear_arith)
            requires gs >= 1 && x as int >= 0 && y as int >= 0;
    }
    Vec2 { x: (x as i64) * gs, y: (y as i64) * gs }
}

/// All tile corner coordinates stay within range when the whole grid does.
proof fn lemma_corner_bounds(gs: int, x: int, y: int, cols: int, rows: int)
    requires
        1 <= gs,
        0 <= x <= cols,
        0 <= y <= rows,
        cols * gs <= crate::vec2::MAX_COORD,
        rows * gs <= crate::vec2::MAX_COORD,
    ensures
        0 <= x * gs <= crate::vec2::MAX_COORD,
        0 <= y * gs <= crate::vec2::MAX_COORD,
        in_range(grid_corner(gs, x, y)),
{
    assert(0 <= x * gs <= cols * gs && 0 <= y * gs <= rows * gs) by (nonlinear_arith)
        requires 1 <= gs && 0 <= x <= cols && 0 <= y <= rows;
}

/// Pushes the boundary edges of one tile onto the point list.
#[verifier::rlimit(50)]
fn emit_tile(
    line_points: &mut Vec<Vec2>,
    tile: u32,
    a: Vec2,
    b: Vec2,
    c: Vec2,
    d: Vec2,
    left_empty: bool,
    right_empty: bool,
    top_empty: bool,
    bottom_empty: bool,
    Ghost(g): Ghost<Seq<Seq<u32>>>,
    Ghost(gsi): Ghost<int>,
    Ghost(x): Ghost<int>,
    Ghost(y): Ghost<int>,
)
    requires
        0 <= y < g.len(),
        0 <= x < g[y].len(),
        tile == g[y][x],
        a == grid_corner(gsi, x, y),
        b == grid_corner(gsi, x, y + 1),
        c == grid_corner(gsi, x + 1, y),
        d == grid_corner(gsi, x + 1, y + 1),
        left_empty == tile_empty(g, x - 1, y),
        right_empty == tile_empty(g, x + 1, y),
        top_empty == tile_empty(g, x, y - 1),
        bottom_empty == tile_empty(g, x, y + 1),
        in_range(a) && in_range(b) && in_range(c) && in_range(d),
        all_in_range(old(line_points)@),
    ensures
        final(line_points)@ == old(line_points)@ + tile_edge_points(g, gsi, x, y),
        all_in_range(final(line_points)@),
{
    let ghost before = line_points@;
    if tile == 1 {
        if left_empty {
            line_points.push(a);
            line_points.push(b);
        }
        if right_empty {
            line_points.push(c);
            line_points.push(d);
        }
        if top_empty {
            line_points.push(a);
            line_points.push(c);
        }
        if bottom_empty {
            line_points.push(b);
            line_points.push(d);
        }
    } else if tile == 2 {
        line_points.push(a);
        line_points.push(d);
        if bottom_empty {
            line_points.push(b);
            line_points.push(d);
        }
        if left_empty {
            line_points.push(a);
            line_points.push(b);
        }
    } else if tile == 3 {
        line_points.push(c);
        line_points.push(b);
        if bottom_empty {
            line_points.push(b);
            line_points.push(d);
        }
        if right_empty {
            line_points.push(c);
            line_points.push(d);
        }
    } else if tile == 4 {
        line_points.push(b);
        line_points.push(c);
        if top_empty {
            line_points.push(a);
            line_points.push(c);
        }
        if left_empty {
            line_points.push(a);
            line_points.push(b);
        }
    } else if tile == 5 {
        line_points.push(d);
        line_points.push(a);
        if top_empty {
            line_points.push(a);
            line_points.push(c);
        }
        if right_empty {
            line_points.push(c);
            line_points.push(d);
        }
    }
    proof {
        assert(line_points@ =~= before + tile_edge_points(g, gsi, x, y));
    }
}

/// Emits the boundary edges of every solid tile, in grid space.
#[verifier::rlimit(50)]
fn emit_grid_edges(grid: &Vec<Vec<u32>>, grid_size: i64) -> (r: Vec<Vec2>)
    requires
        rect_grid(gview(grid)),
        grid@.len() >= 1,
        gview(grid)[0].len() >= 1,
        1 <= grid_size,
        (gview(grid)[0].len() as int) * (grid_size as int) <= crate::vec2::MAX_COORD,
        (grid@.len() as int) * (grid_size as int) <= crate::vec2::MAX_COORD,
    ensures
        r@ == grid_edges(gview(grid), grid_size as int),
        all_in_range(r@),
{
    let ghost g = gview(grid);
    let ghost gsi = grid_size as int;
    let rows = grid.len();
    let cols = grid[0].len();
    let mut line_points: Vec<Vec2> = Vec::new();
    let mut y: usize = 0;
    while y < rows
        invariant
            0 <= y <= rows,
            rows == g.len(),
            cols == g[0].len(),
            rect_grid(g),
            g == gview(grid),
            gsi == grid_size as int,
            rows >= 1,
            cols >= 1,
            1 <= grid_size,
            (cols as int) * gsi <= crate::vec2::MAX_COORD,
            (rows as int) * gsi <= crate::vec2::MAX_COORD,
            line_points@ == grid_edges_upto(g, gsi, y as int),
            all_in_range(line_points@),
        decreases rows - y,
    {
        let mut x: usize = 0;
        while x < cols
            invariant
                0 <= y < rows,
                0 <= x <= cols,
                rows == g.len(),
                cols == g[0].len(),
                rect_grid(g),
                g == gview(grid),
                gsi == grid_size as int,
                rows >= 1,
                cols >= 1,
                1 <= grid_size,
                (cols as int) * gsi <= crate::vec2::MAX_COORD,
                (rows as int) * gsi <= crate::vec2::MAX_COORD,
                line_points@ == grid_edges_upto(g, gsi, y as int)
                    + row_edges_upto(g, gsi, y as int, x as int),
                all_in_range(line_points@),
            decreases cols - x,
        {
            proof {
                lemma_corner_bounds(gsi, x as int, y as int, cols as int, rows as int);
                lemma_corner_bounds(gsi, x + 1 as int, y as int, cols as int, rows as int);
                lemma_corner_bounds(gsi, x as int, y + 1 as int, cols as int, rows as int);
                lemma_corner_bounds(gsi, x + 1 as int, y + 1 as int, cols as int, rows as int);
                assert(g[y as int] == grid@[y as int]@);
                if y as int + 1 < rows {
                    assert(g[y as int + 1] == grid@[y as int + 1]@);
                    assert(g[y as int + 1].len() == cols);
                }
                if y as int - 1 >= 0 {
                    assert(g[y as int - 1] == grid@[y as int - 1]@);
                    assert(g[y as int - 1].len() == cols);
                }
            }
            let row = &grid[y];
            assert(row@.len() == cols);
            let tile = row[x];
            assert(tile == g[y as int][x as int]);
            let a = corner(grid_size, x, y);
            let b = corner(grid_size, x, y + 1);
            let c = corner(grid_size, x + 1, y);
            let d = corner(grid_size, x + 1, y + 1);
            // Neighbour emptiness, with out-of-bounds counting as empty.
            let left_empty = x == 0 || grid[y][x - 1] == 0;
            let right_empty = x == cols - 1 || grid[y][x + 1] == 0;
            let top_empty = y == 0 || grid[y - 1][x] == 0;
            let bottom_empty = y == rows - 1 || grid[y + 1][x] == 0;
            proof {
                assert(left_empty == tile_empty(g, x as int - 1, y as int));
                assert(right_empty == tile_empty(g, x as int + 1, y as int));
                assert(top_empty == tile_empty(g, x as int, y as int - 1));
                assert(bottom_empty == tile_empty(g, x as int, y as int + 1));
            }
            emit_tile(&mut line_points, tile, a, b, c, d,
                left_empty, right_empty, top_empty, bottom_empty,
                Ghost(g), Ghost(gsi), Ghost(x as int), Ghost(y as int));
            proof {
                assert(row_edges_upto(g, gsi, y as int, x + 1 as int)
                    =~= row_edges_upto(g, gsi, y as int, x as int)
                        + tile_edge_points(g, gsi, x as int, y as int));
                assert(line_points@ =~= grid_edges_upto(g, gsi, y as int)
                    + row_edges_upto(g, gsi, y as int, x + 1 as int));
            }
            x += 1;
        }
        proof {
            assert(grid_edges_upto(g, gsi, y + 1 as int)
                =~= grid_edges_upto(g, gsi, y as int)
                    + row_edges_upto(g, gsi, y as int, cols as int));
        }
        y += 1;
    }
    line_points
}

/// One term of the shoelace sum for the directed edge `(p1, p2)`.
pub open spec fn winding_term(p1: Vec2, p2: Vec2) -> int {
    (p2.x - p1.x) * (p2.y + p1.y)
}

/// Shoelace sum over the first `n` edges of the point list, each point paired
/// with its successor (wrapping around to the front).
pub open spec fn winding_sum_upto(pts: Seq<Vec2>, n: int) -> int
    decreases n,
{
    if n <= 0 || pts.len() == 0 {
        0
    } else {
        winding_sum_upto(pts, n - 1) + winding_term(pts[n - 1], pts[(n % pts.len() as int)])
    }
}

/// Shoelace sum of the whole point list; its sign gives the winding order.
pub open spec fn winding_sum(pts: Seq<Vec2>) -> int {
    winding_sum_upto(pts, pts.len() as int)
}

/// Signed shoelace sum of the vertex list.  Positive means one winding
/// direction, negative the other; the caller takes the sign.
pub fn calculate_winding_order(vertices: &Vec<Vec2>) -> (r: i128)
    requires
        all_in_range(vertices@),
    ensures
        r == winding_sum(vertices@),
{
    let mut sum: i128 = 0;
    let mut i: usize = 0;
    let n = vertices.len();
    if n == 0 {
        return 0;
    }
    while i < n
        invariant
            0 <= i <= n,
            n == vertices.len(),
            n >= 1,
            all_in_range(vertices@),
            sum == winding_sum_upto(vertices@, i as int),
            -160_000_000_000_000_000 * (i as int) <= sum
                <= 160_000_000_000_000_000 * (i as int),
        decreases n - i,
    {
        let p1 = vertices[i];
        let p2 = vertices[if i + 1 == n { 0 } else { i + 1 }];
        proof {
            assert((i + 1) as int % n as int == if i + 1 == n { 0int } else { i + 1 }) by {
                if i + 1 == n {
                    assert(n as int % n as int == 0) by {
                        vstd::arithmetic::div_mod::lemma_mod_self_0(n as int);
                    };
                } else {
                    vstd::arithmetic::div_mod::lemma_small_mod((i + 1) as nat, n as nat);
                }
            };
            assert(-160_000_000_000_000_000 <= winding_term(p1, p2) <= 160_000_000_000_000_000)
                by (nonlinear_arith)
                requires in_range(p1) && in_range(p2);
            assert(-160_000_000_000_000_000 * ((i + 1) as int)
                == -160_000_000_000_000_000 * (i as int) - 160_000_000_000_000_000
                && 160_000_000_000_000_000 * ((i + 1) as int)
                == 160_000_000_000_000_000 * (i as int) + 160_000_000_000_000_000)
                by (nonlinear_arith);
            assert(-160_000_000_000_000_000 * (n as int) >= -160_000_000_000_000_000 * 18_500_000_000_000_000_000
                && 160_000_000_000_000_000 * (n as int) <= 160_000_000_000_000_000 * 18_500_000_000_000_000_000)
                by (nonlinear_arith)
                requires 0 <= n as int <= 18_500_000_000_000_000_000;
        }
        let term = ((p2.x - p1.x) as i128) * ((p2.y + p1.y) as i128);
        proof {
            assert(term == winding_term(p1, p2));
        }
        sum = sum + term;
        i += 1;
    }
    sum
}

/// Display colour of a polygon, each channel a fixed-point fraction of one
/// (0 ..= 1000).  Cosmetic only: no geometric contract depends on it.
#[derive(Clone, Copy, Debug, PartialEq, Eq, Structural)]
pub struct Color {
    pub r: u16,
    pub g: u16,
    pub b: u16,
}

/// A closed (or defensively kept open) boundary loop of the level, with the
/// side of its edges that counts as solid for collision, and a display
/// colour.
pub struct Polygon {
    pub points: Vec<Vec2>,
    pub collision_side: i64,
    pub color: Color,
}

/// Why a level build was rejected.
#[derive(Clone, Copy, Debug, PartialEq, Eq, Structural)]
pub enum LevelError {
    /// The tile grid has no rows or no columns.
    EmptyGrid,
    /// The cell size is zero or negative.
    NonPositiveCellSize,
}

impl LevelError {
    /// A short description of the error.
    pub fn message(&self) -> (r: &'static str)
        ensures
            *self is EmptyGrid
                ==> r@ == "level grid must have at least one row and one column"@,
            *self is NonPositiveCellSize
                ==> r@ == "level cell size must be positive"@,
    {
        match self {
            LevelError::EmptyGrid => "level grid must have at least one row and one column",
            LevelError::NonPositiveCellSize => "level cell size must be positive",
        }
    }
}

/// Horizontal shift that centres the level: half its pixel width, negated.
pub open spec fn level_offset_x(cols: int, gs: int) -> int {
    -((cols * gs) / 2)
}

/// Vertical shift that centres the level (the vertical axis is also flipped).
pub open spec fn level_offset_y(rows: int, gs: int) -> int {
    (rows * gs) / 2
}

/// Centres a grid-space point and flips its vertical axis.
pub open spec fn transform_point(p: Vec2, offx: int, offy: int) -> Vec2 {
    Vec2 { x: (p.x + offx) as i64, y: (-p.y + offy) as i64 }
}

/// Centres and flips a whole point list.
pub open spec fn transform_points(pts: Seq<Vec2>, offx: int, offy: int) -> Seq<Vec2> {
    pts.map_values(|p: Vec2| transform_point(p, offx, offy))
}

/// First remaining edge (scanning from index `i`) that continues a chain
/// ending at `cur`; returns the edge index and the point that extends the
/// chain (the edge's other endpoint).
pub open spec fn find_continuation(lines: Seq<Vec2>, cur: Vec2, i: int) -> Option<(int, Vec2)>
    decreases lines.len() / 2 - i,
{
    let n = lines.len() as int / 2;
    if i < 0 || i >= n {
        None
    } else if lines[2 * i] == cur {
        Some((i, lines[2 * i + 1]))
    } else if lines[2 * i + 1] == cur {
        Some((i, lines[2 * i]))
    } else {
        find_continuation(lines, cur, i + 1)
    }
}

/// A found continuation is a valid edge index whose edge touches `cur`.
pub proof fn lemma_find_continuation_valid(lines: Seq<Vec2>, cur: Vec2, i: int)
    requires
        find_continuation(lines, cur, i) is Some,
    ensures
        ({
            let (idx, next) = find_continuation(lines, cur, i)->Some_0;
            &&& 0 <= idx < lines.len() / 2
            &&& next == lines[2 * idx] || next == lines[2 * idx + 1]
        }),
    decreases lines.len() / 2 - i,
{
    let n = lines.len() as int / 2;
    if i < 0 || i >= n {
    } else if lines[2 * i] == cur {
    } else if lines[2 * i + 1] == cur {
    } else {
        lemma_find_continuation_valid(lines, cur, i + 1);
    }
}

/// Greedily extends `chain` with remaining edges that share its open
/// endpoint, until the chain closes or no continuation exists; returns the
/// finished chain and the remaining edges.
pub open spec fn extract_loop(chain: Seq<Vec2>, lines: Seq<Vec2>) -> (Seq<Vec2>, Seq<Vec2>)
    decreases lines.len(),
    via extract_loop_decreases
{
    if chain.len() < 1 || chain[0] == chain[chain.len() - 1] {
        (chain, lines)
    } else {
        match find_continuation(lines, chain[chain.len() - 1], 0) {
            None => (chain, lines),
            Some((i, next)) => extract_loop(
                chain.push(next), lines.remove(2 * i + 1).remove(2 * i)),
        }
    }
}

#[via_fn]
proof fn extract_loop_decreases(chain: Seq<Vec2>, lines: Seq<Vec2>) {
    if chain.len() >= 1 && chain[0] != chain[chain.len() - 1] {
        match find_continuation(lines, chain[chain.len() - 1], 0) {
            None => {},
            Some((i, next)) => {
                lemma_find_continuation_valid(lines, chain[chain.len() - 1], 0);
            },
        }
    }
}

/// The remaining edges after extracting one loop are a subset of the input.
pub proof fn lemma_extract_loop_len(chain: Seq<Vec2>, lines: Seq<Vec2>)
    ensures
        extract_loop(chain, lines).1.len() <= lines.len(),
    decreases lines.len(),
{
    if chain.len() >= 1 && chain[0] != chain[chain.len() - 1] {
        match find_continuation(lines, chain[chain.len() - 1], 0) {
            None => {},
            Some((i, next)) => {
                lemma_find_continuation_valid(lines, chain[chain.len() - 1], 0);
                lemma_extract_loop_len(
                    chain.push(next), lines.remove(2 * i + 1).remove(2 * i));
            },
        }
    }
}

/// Greedily consumes the edge list into chains: each chain starts with the
/// first remaining edge and is extended until it closes or gets stuck.
pub open spec fn assemble(lines: Seq<Vec2>) -> Seq<Seq<Vec2>>
    decreases lines.len(),
    via assemble_decreases
{
    if lines.len() < 2 {
        Seq::empty()
    } else {
        let chain0 = seq![lines[0], lines[1]];
        let rest0 = lines.remove(0).remove(0);
        let pr = extract_loop(chain0, rest0);
        seq![pr.0] + assemble(pr.1)
    }
}

#[via_fn]
proof fn assemble_decreases(lines: Seq<Vec2>) {
    if lines.len() >= 2 {
        let chain0 = seq![lines[0], lines[1]];
        let rest0 = lines.remove(0).remove(0);
        lemma_extract_loop_len(chain0, rest0);
    }
}

/// The origin of the world coordinate system.
pub open spec fn origin() -> Vec2 {
    Vec2 { x: 0, y: 0 }
}

/// `p` lies within the axis-aligned box `[0, w] x [0, h]`.
pub open spec fn in_box(p: Vec2, w: int, h: int) -> bool {
    &&& 0 <= p.x <= w
    &&& 0 <= p.y <= h
}

/// Every point of the list lies within the box.
pub open spec fn all_in_box(pts: Seq<Vec2>, w: int, h: int) -> bool {
    forall|k: int| 0 <= k < pts.len() ==> in_box(#[trigger] pts[k], w, h)
}

/// The emitted points of one tile all lie within the level's pixel box.
proof fn lemma_tile_points_in_box(g: Seq<Seq<u32>>, gs: int, x: int, y: int, cols: int, rows: int)
    requires
        1 <= gs,
        0 <= x < cols,
        0 <= y < rows,
        cols * gs <= crate::vec2::MAX_COORD,
        rows * gs <= crate::vec2::MAX_COORD,
    ensures
        all_in_box(tile_edge_points(g, gs, x, y), cols * gs, rows * gs),
{
    lemma_corner_bounds(gs, x, y, cols, rows);
    lemma_corner_bounds(gs, x + 1, y, cols, rows);
    lemma_corner_bounds(gs, x, y + 1, cols, rows);
    lemma_corner_bounds(gs, x + 1, y + 1, cols, rows);
    assert(x * gs <= cols * gs && (x + 1) * gs <= cols * gs
        && y * gs <= rows * gs && (y + 1) * gs <= rows * gs) by (nonlinear_arith)
        requires 1 <= gs && 0 <= x < cols && 0 <= y < rows;
    let a = grid_corner(gs, x, y);
    let b = grid_corner(gs, x, y + 1);
    let c = grid_corner(gs, x + 1, y);
    let d = grid_corner(gs, x + 1, y + 1);
    let pts = tile_edge_points(g, gs, x, y);
    assert forall|k: int| 0 <= k < pts.len() implies in_box(#[trigger] pts[k], cols * gs, rows * gs) by {
        assert(pts[k] == a || pts[k] == b || pts[k] == c || pts[k] == d);
    }
}

/// All points emitted for a row prefix lie within the level's pixel box.
proof fn lemma_row_edges_in_box(g: Seq<Seq<u32>>, gs: int, y: int, n: int, cols: int, rows: int)
    requires
        1 <= gs,
        0 <= y < rows,
        n <= cols,
        cols * gs <= crate::vec2::MAX_COORD,
        rows * gs <= crate::vec2::MAX_COORD,
    ensures
        all_in_box(row_edges_upto(g, gs, y, n), cols * gs, rows * gs),
    decreases n,
{
    if n > 0 {
        lemma_row_edges_in_box(g, gs, y, n - 1, cols, rows);
        lemma_tile_points_in_box(g, gs, n - 1, y, cols, rows);
    }
}

/// All points emitted for a grid prefix lie within the level's pixel box.
proof fn lemma_grid_edges_in_box(g: Seq<Seq<u32>>, gs: int, n: int, rows: int)
    requires
        1 <= gs,
        n <= rows,
        rows == g.len(),
        g[0].len() * gs <= crate::vec2::MAX_COORD,
        rows * gs <= crate::vec2::MAX_COORD,
        g[0].len() >= 1,
    ensures
        all_in_box(grid_edges_upto(g, gs, n), g[0].len() * gs, rows * gs),
    decreases n,
{
    if n > 0 {
        lemma_grid_edges_in_box(g, gs, n - 1, rows);
        lemma_row_edges_in_box(g, gs, n - 1, g[0].len() as int, g[0].len() as int, rows);
    }
}

/// Every element of a sequence with one element removed occurs in it.
proof fn lemma_remove_subset(s: Seq<Vec2>, i: int)
    requires
        0 <= i < s.len(),
    ensures
        forall|k: int| 0 <= k < s.remove(i).len() ==> s.contains(#[trigger] s.remove(i)[k]),
{
    assert forall|k: int| 0 <= k < s.remove(i).len() implies s.contains(#[trigger] s.remove(i)[k]) by {
        if k < i {
            assert(s.remove(i)[k] == s[k]);
        } else {
            assert(s.remove(i)[k] == s[k + 1]);
        }
    }
}

/// Merging two edges only rearranges points that already occur in the list.
proof fn lemma_apply_merge_subset(s: Seq<Vec2>, i: int, j: int)
    requires
        0 <= i < s.len() / 2,
        0 <= j < s.len() / 2,
        edge_pair_mergeable(s, i, j),
    ensures
        forall|k: int| 0 <= k < apply_merge(s, i, j).len()
            ==> s.contains(#[trigger] apply_merge(s, i, j)[k]),
{
    let u = shared_unique(s[2 * i], s[2 * i + 1], s[2 * j], s[2 * j + 1])->Some_0;
    let lo = if i < j { i } else { j };
    let hi = if i < j { j } else { i };
    let s1 = s.remove(2 * hi + 1);
    let s2 = s1.remove(2 * hi);
    let s3 = s2.remove(2 * lo + 1);
    let s4 = s3.remove(2 * lo);
    lemma_remove_subset(s, 2 * hi + 1);
    lemma_remove_subset(s1, 2 * hi);
    lemma_remove_subset(s2, 2 * lo + 1);
    lemma_remove_subset(s3, 2 * lo);
    assert(s.contains(u.0) && s.contains(u.1)) by {
        assert(s.contains(s[2 * i]) && s.contains(s[2 * i + 1])
            && s.contains(s[2 * j]) && s.contains(s[2 * j + 1]));
    };
    let m = apply_merge(s, i, j);
    assert forall|k: int| 0 <= k < m.len() implies s.contains(#[trigger] m[k]) by {
        if k < s4.len() {
            assert(m[k] == s4[k]);
            let e = s4[k];
            assert(s3.contains(e));
            let k3 = choose|k3: int| 0 <= k3 < s3.len() && s3[k3] == e;
            assert(s2.contains(e));
            let k2 = choose|k2: int| 0 <= k2 < s2.len() && s2[k2] == e;
            assert(s1.contains(e));
            let k1 = choose|k1: int| 0 <= k1 < s1.len() && s1[k1] == e;
            assert(s.contains(e));
        } else if k == s4.len() {
            assert(m[k] == u.0);
        } else {
            assert(m[k] == u.1);
        }
    }
}

/// Welding only rearranges points that already occur in the input list.
pub proof fn lemma_weld_subset(s: Seq<Vec2>)
    ensures
        forall|k: int| 0 <= k < weld_spec(s).len() ==> s.contains(#[trigger] weld_spec(s)[k]),
    decreases s.len(),
{
    match find_merge(s) {
        Some(ij) => {
            lemma_find_merge_valid(s, 0, 0);
            let m = apply_merge(s, ij.0, ij.1);
            lemma_apply_merge_subset(s, ij.0, ij.1);
            lemma_weld_subset(m);
            assert forall|k: int| 0 <= k < weld_spec(s).len()
                implies s.contains(#[trigger] weld_spec(s)[k]) by {
                assert(weld_spec(s) == weld_spec(m));
                assert(m.contains(weld_spec(m)[k]));
                let km = choose|km: int| 0 <= km < m.len() && m[km] == weld_spec(m)[k];
                assert(s.contains(m[km]));
            }
        },
        None => {},
    }
}

/// Collision side of an assembled loop: the sign of its shoelace sum
/// (non-negative counting as positive, mirroring the sign function on a
/// floating sum), negated when the loop encloses the origin and is therefore
/// the container.
pub open spec fn loop_collision_side(pts: Seq<Vec2>) -> int {
    let sign: int = if winding_sum(pts) >= 0 { 1 } else { -1 };
    if point_in_polygon_spec(pts, origin()) {
        -sign
    } else {
        sign
    }
}

/// The point lists of a polygon sequence.
pub open spec fn polys_points(ps: Seq<Polygon>) -> Seq<Seq<Vec2>> {
    Seq::new(ps.len(), |k: int| ps[k].points@)
}

/// The boundary loops a grid builds to: its tile edges, welded, centred, and
/// assembled into chains.
pub open spec fn level_loops(g: Seq<Seq<u32>>, gs: int) -> Seq<Seq<Vec2>> {
    let offx = level_offset_x(g[0].len() as int, gs);
    let offy = level_offset_y(g.len() as int, gs);
    assemble(transform_points(weld_spec(grid_edges(g, gs)), offx, offy))
}

/// A colour with uniformly random channels.
fn random_color() -> (c: Color)
    ensures
        c.r <= 1000 && c.g <= 1000 && c.b <= 1000,
{
    let r = crate::random::random_in_range(0, 1000);
    let g = crate::random::random_in_range(0, 1000);
    let b = crate::random::random_in_range(0, 1000);
    Color { r: r as u16, g: g as u16, b: b as u16 }
}

/// Centres all points and flips their vertical axis.
fn transform_level_points(
    pts: &mut Vec<Vec2>,
    offx: i64,
    offy: i64,
    Ghost(w): Ghost<int>,
    Ghost(h): Ghost<int>,
)
    requires
        all_in_box(old(pts)@, w, h),
        0 <= w <= 190_000_000,
        0 <= h <= 190_000_000,
        offx == -(w / 2),
        offy == h / 2,
    ensures
        final(pts)@ == transform_points(old(pts)@, offx as int, offy as int),
        forall|k: int| 0 <= k < final(pts)@.len()
            ==> bounded(#[trigger] final(pts)@[k], 95_000_001),
{
    let n = pts.len();
    let mut i: usize = 0;
    while i < n
        invariant
            0 <= i <= n,
            n == pts@.len(),
            all_in_box(old(pts)@, w, h),
            0 <= w <= 190_000_000,
            0 <= h <= 190_000_000,
            offx == -(w / 2),
            offy == h / 2,
            pts@.len() == old(pts)@.len(),
            forall|k: int| i <= k < n ==> #[trigger] pts@[k] == old(pts)@[k],
            forall|k: int| 0 <= k < i ==> #[trigger] pts@[k]
                == transform_point(old(pts)@[k], offx as int, offy as int),
            forall|k: int| 0 <= k < i ==> bounded(#[trigger] pts@[k], 95_000_001),
        decreases n - i,
    {
        let p = pts[i];
        pts[i] = Vec2 { x: p.x + offx, y: -p.y + offy };
        i += 1;
    }
    proof {
        assert(pts@ =~= transform_points(old(pts)@, offx as int, offy as int));
    }
}

/// Finds the first remaining edge that continues a chain ending at `cur`,
/// returning its index and the point that extends the chain.
fn find_continuation_exec(lines: &Vec<Vec2>, cur: Vec2) -> (r: Option<(usize, Vec2)>)
    ensures
        r is Some <==> find_continuation(lines@, cur, 0) is Some,
        r is Some ==> find_continuation(lines@, cur, 0)->Some_0
            == (r->Some_0.0 as int, r->Some_0.1),
{
    let n = lines.len() / 2;
    let mut i: usize = 0;
    while i < n
        invariant
            0 <= i <= n,
            n == lines@.len() / 2,
            n <= usize::MAX / 2,
            find_continuation(lines@, cur, 0) == find_continuation(lines@, cur, i as int),
        decreases n - i,
    {
        let s = lines[2 * i];
        let e = lines[2 * i + 1];
        if s == cur {
            return Some((i, e));
        }
        if e == cur {
            return Some((i, s));
        }
        i += 1;
    }
    None
}

/// Builds the level's boundary polygons from a rectangular grid of tile
/// codes (0 empty, 1 solid square, 2–5 the four right-triangle orientations,
/// anything else inert) and the pixel size of one grid cell.
///
/// Emits each solid tile's outward-facing edges, welds collinear runs into
/// long edges, centres the level around the origin with the vertical axis
/// flipped, and greedily assembles the edges into closed loops.  Each loop's
/// collision side is the sign of its winding order, inverted for the loop
/// that encloses the origin (the container).  Loops that fail to close are
/// kept open rather than rejected.  Returns the polygons together with the
/// grid's pixel size and half-size, in coordinate units.
///
/// Colours are cosmetic and random; all container edges share one colour.
#[verifier::rlimit(50)]
pub fn generate_level_polygons(grid: &Vec<Vec<u32>>, grid_size: i64)
    -> (r: Result<(Vec<Polygon>, Vec2, Vec2), LevelError>)
    requires
        rect_grid(gview(grid)),
        grid@.len() >= 1 && grid_size >= 1 ==> (
            (gview(grid)[0].len() as int) * (grid_size as int) <= 190_000_000
            && (grid@.len() as int) * (grid_size as int) <= 190_000_000
        ),
    ensures
        r == Err::<(Vec<Polygon>, Vec2, Vec2), LevelError>(LevelError::EmptyGrid)
            <==> (grid@.len() == 0 || gview(grid)[0].len() == 0),
        r == Err::<(Vec<Polygon>, Vec2, Vec2), LevelError>(LevelError::NonPositiveCellSize)
            <==> (grid@.len() >= 1 && gview(grid)[0].len() >= 1 && grid_size <= 0),
        r is Ok <==> (grid@.len() >= 1 && gview(grid)[0].len() >= 1 && grid_size >= 1),
        r is Ok ==> ({
            let g = gview(grid);
            let loops = level_loops(g, grid_size as int);
            let polys = r->Ok_0.0;
            &&& polys_points(polys@) == loops
            &&& forall|k: int| 0 <= k < polys@.len()
                ==> (#[trigger] polys@[k]).collision_side == loop_collision_side(loops[k])
            &&& r->Ok_0.1 == (Vec2 {
                    x: ((g[0].len() as int) * grid_size) as i64,
                    y: ((g.len() as int) * grid_size) as i64,
                })
            &&& r->Ok_0.2 == (Vec2 {
                    x: (((g[0].len() as int) * grid_size) / 2) as i64,
                    y: (((g.len() as int) * grid_size) / 2) as i64,
                })
            &&& forall|k1: int, k2: int| 0 <= k1 < polys@.len() && 0 <= k2 < polys@.len()
                && point_in_polygon_spec((#[trigger] polys@[k1]).points@, origin())
                && point_in_polygon_spec((#[trigger] polys@[k2]).points@, origin())
                ==> polys@[k1].color == polys@[k2].color
        }),
{
    let rows = grid.len();
    if rows == 0 {
        return Err(LevelError::EmptyGrid);
    }
    let cols = grid[0].len();
    assert(cols == gview(grid)[0].len());
    if cols == 0 {
        return Err(LevelError::EmptyGrid);
    }
    if grid_size < 1 {
        return Err(LevelError::NonPositiveCellSize);
    }
    let ghost g = gview(grid);
    let ghost gsi = grid_size as int;
    let mut line_points = emit_grid_edges(grid, grid_size);
    proof {
        lemma_grid_edges_in_box(g, gsi, rows as int, rows as int);
    }
    let ghost emitted = line_points@;
    weld_edges(&mut line_points);
    proof {
        lemma_weld_subset(emitted);
        assert forall|k: int| 0 <= k < line_points@.len()
            implies in_box(#[trigger] line_points@[k],
                (cols as int) * gsi, (rows as int) * gsi) by {
            assert(emitted.contains(line_points@[k]));
            let ke = choose|ke: int| 0 <= ke < emitted.len() && emitted[ke] == line_points@[k];
        }
    }
    proof {
        assert(cols as int <= (cols as int) * gsi && rows as int <= (rows as int) * gsi
            && 1 <= (cols as int) * gsi && 1 <= (rows as int) * gsi) by (nonlinear_arith)
            requires cols as int >= 1 && rows as int >= 1 && gsi >= 1;
    }
    let w = (cols as i64) * grid_size;
    let h = (rows as i64) * grid_size;
    let offset_x = -(w / 2);
    let offset_y = h / 2;
    transform_level_points(&mut line_points, offset_x, offset_y,
        Ghost((cols as int) * gsi), Ghost((rows as int) * gsi));
    let ghost shifted = line_points@;
    proof {
        assert(shifted == transform_points(weld_spec(grid_edges(g, gsi)),
            level_offset_x(cols as int, gsi), level_offset_y(rows as int, gsi)));
    }
    // Assemble the edges into loops and classify each one.
    let mut polygons: Vec<Polygon> = Vec::new();
    let container_color = random_color();
    while line_points.len() >= 2
        invariant
            polys_points(polygons@) + assemble(line_points@) == assemble(shifted),
            forall|k: int| 0 <= k < polygons@.len()
                ==> (#[trigger] polygons@[k]).collision_side
                    == loop_collision_side(polygons@[k].points@),
            forall|k: int| 0 <= k < polygons@.len()
                && point_in_polygon_spec((#[trigger] polygons@[k]).points@, origin())
                ==> polygons@[k].color == container_color,
            forall|k: int| 0 <= k < line_points@.len()
                ==> bounded(#[trigger] line_points@[k], 95_000_001),
        decreases line_points@.len(),
    {
        let ghost lines0 = line_points@;
        let first_start = line_points[0];
        let first_end = line_points[1];
        let mut polygon_lines: Vec<Vec2> = Vec::new();
        polygon_lines.push(first_start);
        polygon_lines.push(first_end);
        line_points.remove(0);
        line_points.remove(0);
        proof {
            assert(polygon_lines@ =~= seq![lines0[0], lines0[1]]);
            assert(line_points@ == lines0.remove(0).remove(0));
        }
        let ghost chain0 = polygon_lines@;
        let ghost rest0 = line_points@;
        let start_vert = first_start;
        let mut current_vert = first_end;
        loop
            invariant
                polygon_lines@.len() >= 2,
                start_vert == polygon_lines@[0],
                current_vert == polygon_lines@[polygon_lines@.len() - 1],
                extract_loop(polygon_lines@, line_points@) == extract_loop(chain0, rest0),
                forall|k: int| 0 <= k < line_points@.len()
                    ==> bounded(#[trigger] line_points@[k], 95_000_001),
                forall|k: int| 0 <= k < polygon_lines@.len()
                    ==> bounded(#[trigger] polygon_lines@[k], 95_000_001),
            ensures
                polygon_lines@.len() >= 2,
                start_vert == polygon_lines@[0],
                current_vert == polygon_lines@[polygon_lines@.len() - 1],
                extract_loop(polygon_lines@, line_points@) == extract_loop(chain0, rest0),
                start_vert == current_vert
                    || find_continuation(line_points@, current_vert, 0) is None,
                forall|k: int| 0 <= k < line_points@.len()
                    ==> bounded(#[trigger] line_points@[k], 95_000_001),
                forall|k: int| 0 <= k < polygon_lines@.len()
                    ==> bounded(#[trigger] polygon_lines@[k], 95_000_001),
            decreases line_points@.len(),
        {
            if start_vert == current_vert {
                break;
            }
            let found = find_continuation_exec(&line_points, current_vert);
            match found {
                None => {
                    break;
                },
                Some((i, next)) => {
                    proof {
                        lemma_find_continuation_valid(line_points@, current_vert, 0);
                    }
                    let ln = line_points.len();
                    assert(2 * (i as int) + 1 < ln as int);
                    let ghost before = line_points@;
                    polygon_lines.push(next);
                    line_points.remove(2 * i + 1);
                    line_points.remove(2 * i);
                    current_vert = next;
                    proof {
                        assert forall|k: int| 0 <= k < line_points@.len()
                            implies bounded(#[trigger] line_points@[k], 95_000_001) by {
                            let b1 = before.remove(2 * i + 1);
                            if k < 2 * i {
                                assert(line_points@[k] == b1[k]);
                                assert(b1[k] == before[k]);
                            } else {
                                assert(line_points@[k] == b1[k + 1]);
                                if k + 1 < 2 * i + 1 {
                                    assert(b1[k + 1] == before[k + 1]);
                                } else {
                                    assert(b1[k + 1] == before[k + 2]);
                                }
                            }
                        };
                        assert(bounded(next, 95_000_001)) by {
                            assert(next == before[2 * i] || next == before[2 * i + 1]);
                        };
                    }
                },
            }
        }
        proof {
            assert(extract_loop(polygon_lines@, line_points@)
                == (polygon_lines@, line_points@));
            assert((polygon_lines@, line_points@) == extract_loop(chain0, rest0));
            lemma_extract_loop_len(chain0, rest0);
            assert(line_points@.len() <= lines0.len() - 2);
            assert(assemble(lines0) == seq![polygon_lines@] + assemble(line_points@));
            assert(forall|k: int| 0 <= k < polygon_lines@.len()
                ==> in_range(#[trigger] polygon_lines@[k]));
        }
        let is_container = point_in_polygon(&polygon_lines, Vec2::zero());
        let winding = calculate_winding_order(&polygon_lines);
        let mut collision_side: i64 = if winding >= 0 { 1 } else { -1 };
        if is_container {
            collision_side = -collision_side;
        }
        let color = if is_container { container_color } else { random_color() };
        let ghost polys_before = polygons@;
        polygons.push(Polygon { points: polygon_lines, collision_side, color });
        proof {
            assert(polys_points(polygons@)
                =~= polys_points(polys_before).push(polygons@[polygons@.len() - 1].points@));
            assert(polys_points(polygons@) + assemble(line_points@)
                =~= polys_points(polys_before) + (seq![polygons@[polygons@.len() - 1].points@]
                    + assemble(line_points@)));
        }
    }
    proof {
        assert(assemble(line_points@) =~= Seq::<Seq<Vec2>>::empty());
        assert(polys_points(polygons@) =~= polys_points(polygons@) + assemble(line_points@));
    }
    let size = Vec2::new(w, h);
    let half_size = Vec2::new(w / 2, h / 2);
    Ok((polygons, size, half_size))
}

} // verus!
