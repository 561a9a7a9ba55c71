use vstd::prelude::*;
use crate::vec2::{Vec2, in_range};
use crate::utils::{seg_intersects, seg_den, seg_tn, seg_un};

verus! {

/// An edge segment held by the spatial grid for raycast queries.
#[derive(Clone, Copy, Debug, PartialEq, Eq, Structural)]
pub struct Edge {
    pub start: Vec2,
    pub end: Vec2,
}

/// Absolute value.
pub open spec fn abs_i(x: int) -> int {
    if x >= 0 { x } else { -x }
}

/// Maximum of two integers.
pub open spec fn max_i(a: int, b: int) -> int {
    if a >= b { a } else { b }
}

/// Minimum of two integers.
pub open spec fn min_i(a: int, b: int) -> int {
    if a <= b { a } else { b }
}

/// Number of sampling steps used to walk a segment across the grid: the
/// ceiling of its Chebyshev length over the cell size, plus one.
pub open spec fn seg_steps(a: Vec2, b: Vec2, cs: int) -> int {
    let m = max_i(abs_i(b.x - a.x), abs_i(b.y - a.y));
    (m + cs - 1) / cs + 1
}

/// Grid cell column of the `i`-th sample point's x coordinate.
pub open spec fn sample_cell_x(a: Vec2, b: Vec2, cs: int, i: int) -> int {
    let n = seg_steps(a, b, cs);
    (a.x + ((b.x - a.x) * i) / n) / cs
}

/// Grid cell row of the `i`-th sample point's y coordinate.
pub open spec fn sample_cell_y(a: Vec2, b: Vec2, cs: int, i: int) -> int {
    let n = seg_steps(a, b, cs);
    (a.y + ((b.y - a.y) * i) / n) / cs
}

/// The cell `(cx, cy)` lies within the cell bounding box of some consecutive
/// sample pair of the segment: these are exactly the cells the grid walk
/// visits for the segment, and they cover every cell the segment passes
/// through.
pub open spec fn seg_covers(a: Vec2, b: Vec2, cs: int, cx: int, cy: int) -> bool {
    exists|i: int|
        0 <= i < seg_steps(a, b, cs)
            && min_i(#[trigger] sample_cell_x(a, b, cs, i), sample_cell_x(a, b, cs, i + 1))
                <= cx
            && cx <= max_i(sample_cell_x(a, b, cs, i), sample_cell_x(a, b, cs, i + 1))
            && min_i(sample_cell_y(a, b, cs, i), sample_cell_y(a, b, cs, i + 1)) <= cy
            && cy <= max_i(sample_cell_y(a, b, cs, i), sample_cell_y(a, b, cs, i + 1))
}

/// Division stays below `k` when the dividend is below `k * b`.
proof fn lemma_div_below(a: int, b: int, k: int)
    requires
        b > 0,
        a < k * b,
    ensures
        a / b < k,
{
    vstd::arithmetic::div_mod::lemma_fundamental_div_mod(a, b);
    assert(a / b < k) by (nonlinear_arith)
        requires a == b * (a / b) + a % b && 0 <= a % b < b && a < k * b && b > 0;
}

/// Division stays at or above `k` when the dividend is at least `k * b`.
proof fn lemma_div_above(a: int, b: int, k: int)
    requires
        b > 0,
        k * b <= a,
    ensures
        k <= a / b,
{
    vstd::arithmetic::div_mod::lemma_fundamental_div_mod(a, b);
    assert(k <= a / b) by (nonlinear_arith)
        requires a == b * (a / b) + a % b && 0 <= a % b < b && k * b <= a && b > 0;
}

/// Scaling dividend and divisor by the same positive factor keeps the
/// quotient.
proof fn lemma_div_scale(f: int, c: int, d: int)
    requires
        c > 0,
        d > 0,
    ensures
        (f * d) / (c * d) == f / c,
{
    vstd::arithmetic::div_mod::lemma_fundamental_div_mod(f, c);
    let q = f / c;
    let r = f % c;
    assert(f * d == (c * d) * q + r * d && 0 <= r * d < c * d) by (nonlinear_arith)
        requires f == c * q + r && 0 <= r < c && d > 0;
    vstd::arithmetic::div_mod::lemma_fundamental_div_mod_converse(f * d, c * d, q, r * d);
}

/// The cell of any point on the segment — given as the rational
/// `(nx / dd, ny / dd)` with parameter `tn / dd` in the unit interval — lies
/// within the cell bounding box of one consecutive sample pair, on one axis.
proof fn lemma_axis_covered(s: int, d: int, cs: int, n: int, tn: int, dd: int, i: int)
    requires
        cs >= 1,
        n >= 1,
        dd >= 1,
        0 <= tn <= dd,
        0 <= i < n,
        i * dd <= tn * n <= (i + 1) * dd,
    ensures
        ({
            let fi = s + (d * i) / n;
            let fj = s + (d * (i + 1)) / n;
            let cell = (s * dd + d * tn) / (dd * cs);
            min_i(fi / cs, fj / cs) <= cell <= max_i(fi / cs, fj / cs)
        }),
{
    let fi = s + (d * i) / n;
    let fj = s + (d * (i + 1)) / n;
    let nx = s * dd + d * tn;
    let cell = nx / (dd * cs);
    assert(dd * cs >= 1 && cs * dd == dd * cs) by (nonlinear_arith)
        requires dd >= 1 && cs >= 1;
    let qi = (d * i) / n;
    let qj = (d * (i + 1)) / n;
    vstd::arithmetic::div_mod::lemma_fundamental_div_mod(d * i, n);
    vstd::arithmetic::div_mod::lemma_fundamental_div_mod(d * (i + 1), n);
    let ri = (d * i) % n;
    let rj = (d * (i + 1)) % n;
    // Work out which floored sample bounds the point from below and above.
    if d >= 0 {
        // fi * dd <= nx
        assert(qi * dd <= d * tn) by (nonlinear_arith)
            requires
                d * i == n * qi + ri && 0 <= ri < n,
                i * dd <= tn * n,
                d >= 0 && n >= 1 && dd >= 1;
        // nx < (fj + 1) * dd
        assert(d * tn < (qj + 1) * dd) by (nonlinear_arith)
            requires
                d * (i + 1) == n * qj + rj && 0 <= rj < n,
                tn * n <= (i + 1) * dd,
                d >= 0 && n >= 1 && dd >= 1;
        assert(fi * dd <= nx && nx < (fj + 1) * dd) by (nonlinear_arith)
            requires
                qi * dd <= d * tn && d * tn < (qj + 1) * dd
                && fi == s + qi && fj == s + qj && nx == s * dd + d * tn && dd >= 1;
        // Lower bound: fi / cs <= cell.
        lemma_div_scale(fi, cs, dd);
        assert((fi * dd) / (cs * dd) == fi / cs);
        assert(cs * dd == dd * cs && fi * dd <= nx) by (nonlinear_arith)
            requires fi * dd <= nx;
        vstd::arithmetic::div_mod::lemma_div_is_ordered(fi * dd, nx, dd * cs);
        assert(fi / cs <= cell);
        // Upper bound: cell <= fj / cs.
        vstd::arithmetic::div_mod::lemma_fundamental_div_mod(fj, cs);
        let qf = fj / cs;
        assert(nx < (qf + 1) * (dd * cs)) by (nonlinear_arith)
            requires
                nx < (fj + 1) * dd && fj == cs * qf + fj % cs && 0 <= fj % cs < cs
                && dd >= 1 && cs >= 1;
        lemma_div_below(nx, dd * cs, qf + 1);
        assert(dd * cs > 0) by (nonlinear_arith) requires dd >= 1 && cs >= 1;
        assert(cell <= fj / cs);
        assert(min_i(fi / cs, fj / cs) <= cell <= max_i(fi / cs, fj / cs));
    } else {
        // Mirror image: the segment runs leftward, so fj bounds from below.
        assert(qj * dd <= d * tn) by (nonlinear_arith)
            requires
                d * (i + 1) == n * qj + rj && 0 <= rj < n,
                tn * n <= (i + 1) * dd,
                d < 0 && n >= 1 && dd >= 1;
        // nx < (fi + 1) * dd:
        assert(d * tn < (qi + 1) * dd) by (nonlinear_arith)
            requires
                d * i == n * qi + ri && 0 <= ri < n,
                i * dd <= tn * n,
                d < 0 && n >= 1 && dd >= 1;
        assert(fj * dd <= nx && nx < (fi + 1) * dd) by (nonlinear_arith)
            requires
                qj * dd <= d * tn && d * tn < (qi + 1) * dd
                && fi == s + qi && fj == s + qj && nx == s * dd + d * tn && dd >= 1;
        lemma_div_scale(fj, cs, dd);
        assert((fj * dd) / (cs * dd) == fj / cs);
        assert(cs * dd == dd * cs) by (nonlinear_arith);
        vstd::arithmetic::div_mod::lemma_div_is_ordered(fj * dd, nx, dd * cs);
        assert(fj / cs <= cell);
        vstd::arithmetic::div_mod::lemma_fundamental_div_mod(fi, cs);
        let qf = fi / cs;
        assert(nx < (qf + 1) * (dd * cs)) by (nonlinear_arith)
            requires
                nx < (fi + 1) * dd && fi == cs * qf + fi % cs && 0 <= fi % cs < cs
                && dd >= 1 && cs >= 1;
        lemma_div_below(nx, dd * cs, qf + 1);
        assert(dd * cs > 0) by (nonlinear_arith) requires dd >= 1 && cs >= 1;
        assert(cell <= fi / cs);
        assert(min_i(fi / cs, fj / cs) <= cell <= max_i(fi / cs, fj / cs));
    }
}

/// Any point on the segment — written as the rational point
/// `((a.x * dd + (b.x - a.x) * tn) / dd, ...)` with `tn / dd` in `[0, 1]` —
/// has its grid cell among the cells the segment's sample walk covers.
proof fn lemma_on_segment_covered(a: Vec2, b: Vec2, cs: int, tn: int, dd: int)
    requires
        cs >= 1,
        dd >= 1,
        0 <= tn <= dd,
    ensures
        ({
            let nx = a.x * dd + (b.x - a.x) * tn;
            let ny = a.y * dd + (b.y - a.y) * tn;
            seg_covers(a, b, cs, nx / (dd * cs), ny / (dd * cs))
        }),
{
    let n = seg_steps(a, b, cs);
    assert(n >= 1) by {
        let m = max_i(abs_i(b.x - a.x), abs_i(b.y - a.y));
        assert(m >= 0);
        lemma_div_above(m + cs - 1, cs, 0);
    };
    // Pick the sample interval containing the parameter tn / dd.
    let i0 = (tn * n) / dd;
    let i = if i0 < n { i0 } else { n - 1 };
    assert(0 <= i0) by {
        assert(0 <= tn * n) by (nonlinear_arith) requires tn >= 0 && n >= 1;
        lemma_div_above(tn * n, dd, 0);
    };
    assert(i0 <= n) by {
        assert(tn * n < (n + 1) * dd) by (nonlinear_arith)
            requires tn <= dd && n >= 1 && dd >= 1;
        lemma_div_below(tn * n, dd, n + 1);
    };
    if i0 < n {
        vstd::arithmetic::div_mod::lemma_fundamental_div_mod(tn * n, dd);
        assert(i * dd <= tn * n <= (i + 1) * dd) by (nonlinear_arith)
            requires
                tn * n == dd * i + (tn * n) % dd && 0 <= (tn * n) % dd < dd && dd >= 1;
    } else {
        // i0 == n, which forces tn * n == n * dd.
        vstd::arithmetic::div_mod::lemma_fundamental_div_mod(tn * n, dd);
        assert(tn * n == n * dd) by (nonlinear_arith)
            requires
                tn * n == dd * n + (tn * n) % dd && 0 <= (tn * n) % dd < dd
                && tn <= dd && n >= 1 && dd >= 1;
        assert(i * dd <= tn * n <= (i + 1) * dd) by (nonlinear_arith)
            requires tn * n == n * dd && i == n - 1 && dd >= 1;
    }
    lemma_axis_covered(a.x as int, b.x - a.x, cs, n, tn, dd, i);
    lemma_axis_covered(a.y as int, b.y - a.y, cs, n, tn, dd, i);
    assert(dd * cs >= 1) by (nonlinear_arith) requires dd >= 1 && cs >= 1;
    let nx = a.x * dd + (b.x - a.x) * tn;
    let ny = a.y * dd + (b.y - a.y) * tn;
    assert(sample_cell_x(a, b, cs, i) == (a.x + ((b.x - a.x) * i) / n) / cs);
    assert(seg_covers(a, b, cs, nx / (dd * cs), ny / (dd * cs))) by {
        assert(0 <= i < n
            && min_i(sample_cell_x(a, b, cs, i), sample_cell_x(a, b, cs, i + 1))
                <= nx / (dd * cs)
            && nx / (dd * cs) <= max_i(sample_cell_x(a, b, cs, i), sample_cell_x(a, b, cs, i + 1))
            && min_i(sample_cell_y(a, b, cs, i), sample_cell_y(a, b, cs, i + 1))
                <= ny / (dd * cs)
            && ny / (dd * cs) <= max_i(sample_cell_y(a, b, cs, i), sample_cell_y(a, b, cs, i + 1)));
    };
}

/// Two intersecting segments always share a covered cell: the cell of their
/// intersection point is covered by both segments' sample walks.
#[verifier::rlimit(100)]
pub proof fn lemma_cross_seg_covered(p1: Vec2, p2: Vec2, q1: Vec2, q2: Vec2, cs: int)
    requires
        cs >= 1,
        seg_intersects(p1, p2, q1, q2),
    ensures
        exists|cx: int, cy: int|
            #[trigger] seg_covers(p1, p2, cs, cx, cy) && #[trigger] seg_covers(q1, q2, cs, cx, cy),
{
    let den = seg_den(p1, p2, q1, q2);
    let tn = seg_tn(p1, p2, q1, q2);
    let un = seg_un(p1, p2, q1, q2);
    let dd = if den > 0 { den } else { -den };
    let tnn = if den > 0 { tn } else { -tn };
    let unn = if den > 0 { un } else { -un };
    let rx = p2.x - p1.x;
    let ry = p2.y - p1.y;
    let sx = q2.x - q1.x;
    let sy = q2.y - q1.y;
    let cx0 = q1.x - p1.x;
    let cy0 = q1.y - p1.y;
    // The two parametric forms describe the same point (Cramer's rule).
    assert(cx0 * den == tn * rx - un * sx) by (nonlinear_arith)
        requires
            den == rx * sy - ry * sx,
            tn == cx0 * sy - cy0 * sx,
            un == cx0 * ry - cy0 * rx;
    assert(cy0 * den == tn * ry - un * sy) by (nonlinear_arith)
        requires
            den == rx * sy - ry * sx,
            tn == cx0 * sy - cy0 * sx,
            un == cx0 * ry - cy0 * rx;
    assert(cx0 * dd == tnn * rx - unn * sx && cy0 * dd == tnn * ry - unn * sy)
        by (nonlinear_arith)
        requires
            cx0 * den == tn * rx - un * sx,
            cy0 * den == tn * ry - un * sy,
            dd == (if den > 0 { den } else { -den }),
            tnn == (if den > 0 { tn } else { -tn }),
            unn == (if den > 0 { un } else { -un });
    assert(p1.x * dd + rx * tnn == q1.x * dd + sx * unn
        && p1.y * dd + ry * tnn == q1.y * dd + sy * unn) by (nonlinear_arith)
        requires
            cx0 * dd == tnn * rx - unn * sx,
            cy0 * dd == tnn * ry - unn * sy,
            cx0 == q1.x - p1.x && cy0 == q1.y - p1.y;
    lemma_on_segment_covered(p1, p2, cs, tnn, dd);
    lemma_on_segment_covered(q1, q2, cs, unn, dd);
    let nx = p1.x * dd + rx * tnn;
    let ny = p1.y * dd + ry * tnn;
    assert(seg_covers(p1, p2, cs, nx / (dd * cs), ny / (dd * cs)));
    assert(seg_covers(q1, q2, cs, nx / (dd * cs), ny / (dd * cs)));
}

/// The cell pair list contains the cell `(cx, cy)`.
pub open spec fn cells_contain(r: Seq<(i64, i64)>, cx: int, cy: int) -> bool {
    exists|k: int| 0 <= k < r.len() && (#[trigger] r[k]).0 == cx && r[k].1 == cy
}

/// The cell `(cx, cy)` lies in the bounding box of samples `i` and `i + 1`.
pub open spec fn pair_covers(a: Vec2, b: Vec2, cs: int, i: int, cx: int, cy: int) -> bool {
    &&& min_i(sample_cell_x(a, b, cs, i), sample_cell_x(a, b, cs, i + 1)) <= cx
    &&& cx <= max_i(sample_cell_x(a, b, cs, i), sample_cell_x(a, b, cs, i + 1))
    &&& min_i(sample_cell_y(a, b, cs, i), sample_cell_y(a, b, cs, i + 1)) <= cy
    &&& cy <= max_i(sample_cell_y(a, b, cs, i), sample_cell_y(a, b, cs, i + 1))
}

/// `seg_covers` unrolled to its witness pair.
pub proof fn lemma_seg_covers_pairs(a: Vec2, b: Vec2, cs: int, cx: int, cy: int)
    ensures
        seg_covers(a, b, cs, cx, cy)
            <==> exists|i: int| 0 <= i < seg_steps(a, b, cs)
                && #[trigger] pair_covers(a, b, cs, i, cx, cy),
{
    if seg_covers(a, b, cs, cx, cy) {
        let i = choose|i: int| 0 <= i < seg_steps(a, b, cs)
            && min_i(#[trigger] sample_cell_x(a, b, cs, i), sample_cell_x(a, b, cs, i + 1)) <= cx
            && cx <= max_i(sample_cell_x(a, b, cs, i), sample_cell_x(a, b, cs, i + 1))
            && min_i(sample_cell_y(a, b, cs, i), sample_cell_y(a, b, cs, i + 1)) <= cy
            && cy <= max_i(sample_cell_y(a, b, cs, i), sample_cell_y(a, b, cs, i + 1));
        assert(pair_covers(a, b, cs, i, cx, cy));
    }
    if exists|i: int| 0 <= i < seg_steps(a, b, cs) && #[trigger] pair_covers(a, b, cs, i, cx, cy) {
        let i = choose|i: int| 0 <= i < seg_steps(a, b, cs)
            && #[trigger] pair_covers(a, b, cs, i, cx, cy);
        assert(min_i(sample_cell_x(a, b, cs, i), sample_cell_x(a, b, cs, i + 1)) <= cx);
    }
}

/// The grid cell column (or row) of one sample point of the segment walk.
fn sample_cell(a_c: i64, d: i64, i: i64, n: i64, cs: i64) -> (c: i64)
    requires
        1 <= n <= 2_000_000_000,
        0 <= i <= n,
        -600_000_000 <= d <= 600_000_000,
        -300_000_000 <= a_c <= 300_000_000,
        1 <= cs,
    ensures
        c == (a_c + ((d as int) * (i as int)) / (n as int)) / (cs as int),
        -900_000_000 <= c <= 900_000_000,
{
    proof {
        assert(-1_200_000_000_000_000_000 <= (d as int) * (i as int)
            <= 1_200_000_000_000_000_000) by (nonlinear_arith)
            requires -600_000_000 <= d as int <= 600_000_000 && 0 <= i as int <= 2_000_000_000;
    }
    let prod = d * i;
    let q = crate::vec2::floor_div(prod, n);
    proof {
        if d >= 0 {
            assert((d as int) * (i as int) <= 600_000_000 * (n as int)) by (nonlinear_arith)
                requires 0 <= d as int <= 600_000_000 && 0 <= i as int <= n as int;
            lemma_div_below(prod as int, n as int, 600_000_001);
            lemma_div_above(prod as int, n as int, 0);
        } else {
            assert(-600_000_000 * (n as int) <= (d as int) * (i as int) && (d as int) * (i as int) <= 0)
                by (nonlinear_arith)
                requires -600_000_000 <= d as int <= 0 && 0 <= i as int <= n as int;
            lemma_div_above(prod as int, n as int, -600_000_000);
            lemma_div_below(prod as int, n as int, 1);
        }
    }
    let coord = a_c + q;
    let c = crate::vec2::floor_div(coord, cs);
    proof {
        assert(-900_000_000 * (cs as int) <= coord as int
            && (coord as int) < 900_000_001 * (cs as int)) by (nonlinear_arith)
            requires -900_000_001 < coord as int && (coord as int) < 900_000_001 && cs as int >= 1;
        lemma_div_above(coord as int, cs as int, -900_000_000);
        lemma_div_below(coord as int, cs as int, 900_000_001);
    }
    c
}

/// No cell occurs twice in the list.
pub open spec fn distinct_cells(r: Seq<(i64, i64)>) -> bool {
    forall|k1: int, k2: int| 0 <= k1 < k2 < r.len() ==> r[k1] != r[k2]
}

/// Linear scan for a cell value.
fn contains_cell(cells: &Vec<(i64, i64)>, cx: i64, cy: i64) -> (r: bool)
    ensures
        r == cells_contain(cells@, cx as int, cy as int),
{
    let mut k: usize = 0;
    while k < cells.len()
        invariant
            0 <= k <= cells@.len(),
            forall|j: int| 0 <= j < k
                ==> !((#[trigger] cells@[j]).0 == cx && cells@[j].1 == cy),
        decreases cells@.len() - k,
    {
        let c = cells[k];
        if c.0 == cx && c.1 == cy {
            return true;
        }
        k += 1;
    }
    false
}

/// Walks the segment at cell-sized steps and collects, for each consecutive
/// sample pair, every cell in the pair's cell bounding box, each cell once.
/// The result is a duplicate-free superset of all cells the segment passes
/// through.
#[verifier::rlimit(50)]
fn cells_for_segment(a: Vec2, b: Vec2, cell_size: i64) -> (r: Vec<(i64, i64)>)
    requires
        1 <= cell_size <= 1_000_000_000,
        in_range(a),
        in_range(b),
    ensures
        forall|cx: int, cy: int| seg_covers(a, b, cell_size as int, cx, cy)
            ==> cells_contain(r@, cx, cy),
        forall|k: int| 0 <= k < r@.len()
            ==> -900_000_000 <= (#[trigger] r@[k]).0 <= 900_000_000
                && -900_000_000 <= r@[k].1 <= 900_000_000,
        distinct_cells(r@),
{
    let ghost csi = cell_size as int;
    let dx = b.x - a.x;
    let dy = b.y - a.y;
    let adx = if dx >= 0 { dx } else { -dx };
    let ady = if dy >= 0 { dy } else { -dy };
    let m = if adx >= ady { adx } else { ady };
    let n = (m + cell_size - 1) / cell_size + 1;
    proof {
        assert(n == seg_steps(a, b, csi));
        assert((m as int + cell_size - 1) / cell_size as int >= 0) by {
            lemma_div_above(m as int + cell_size - 1, cell_size as int, 0);
        };
        assert((m as int + cell_size - 1) / cell_size as int <= m) by {
            assert(m as int + cell_size - 1 < (m as int + 1) * cell_size) by (nonlinear_arith)
                requires m as int >= 0 && cell_size as int >= 1;
            lemma_div_below(m as int + cell_size - 1, cell_size as int, m as int + 1);
        };
    }
    let mut cells: Vec<(i64, i64)> = Vec::new();
    let mut i: i64 = 0;
    while i < n
        invariant
            0 <= i <= n,
            1 <= n <= 2_000_000_000,
            n == seg_steps(a, b, csi),
            csi == cell_size as int,
            1 <= cell_size <= 1_000_000_000,
            in_range(a),
            in_range(b),
            dx == b.x - a.x,
            dy == b.y - a.y,
            forall|ii: int, cx: int, cy: int| 0 <= ii < i
                && #[trigger] pair_covers(a, b, csi, ii, cx, cy)
                ==> cells_contain(cells@, cx, cy),
            forall|k: int| 0 <= k < cells@.len()
                ==> -900_000_000 <= (#[trigger] cells@[k]).0 <= 900_000_000
                    && -900_000_000 <= cells@[k].1 <= 900_000_000,
            distinct_cells(cells@),
        decreases n - i,
    {
        let cx1 = sample_cell(a.x, dx, i, n, cell_size);
        let cx2 = sample_cell(a.x, dx, i + 1, n, cell_size);
        let cy1 = sample_cell(a.y, dy, i, n, cell_size);
        let cy2 = sample_cell(a.y, dy, i + 1, n, cell_size);
        proof {
            assert(cx1 == sample_cell_x(a, b, csi, i as int));
            assert(cx2 == sample_cell_x(a, b, csi, i as int + 1));
            assert(cy1 == sample_cell_y(a, b, csi, i as int));
            assert(cy2 == sample_cell_y(a, b, csi, i as int + 1));
        }
        let xlo = if cx1 <= cx2 { cx1 } else { cx2 };
        let xhi = if cx1 <= cx2 { cx2 } else { cx1 };
        let ylo = if cy1 <= cy2 { cy1 } else { cy2 };
        let yhi = if cy1 <= cy2 { cy2 } else { cy1 };
        let mut cx = xlo;
        while cx <= xhi
            invariant
                xlo <= cx <= xhi + 1,
                -900_000_000 <= xlo && xhi <= 900_000_000,
                -900_000_000 <= ylo && yhi <= 900_000_000,
                ylo <= yhi,
                forall|px: int, py: int| xlo <= px < cx && ylo <= py <= yhi
                    ==> cells_contain(cells@, px, py),
                forall|ii: int, px: int, py: int| 0 <= ii < i
                    && #[trigger] pair_covers(a, b, csi, ii, px, py)
                    ==> cells_contain(cells@, px, py),
                forall|k: int| 0 <= k < cells@.len()
                    ==> -900_000_000 <= (#[trigger] cells@[k]).0 <= 900_000_000
                        && -900_000_000 <= cells@[k].1 <= 900_000_000,
                distinct_cells(cells@),
            decreases xhi - cx + 1,
        {
            let mut cy = ylo;
            while cy <= yhi
                invariant
                    ylo <= cy <= yhi + 1,
                    xlo <= cx <= xhi,
                    -900_000_000 <= xlo && xhi <= 900_000_000,
                    -900_000_000 <= ylo && yhi <= 900_000_000,
                    forall|py: int| ylo <= py < cy ==> cells_contain(cells@, cx as int, py),
                    forall|px: int, py: int| xlo <= px < cx && ylo <= py <= yhi
                        ==> cells_contain(cells@, px, py),
                    forall|ii: int, px: int, py: int| 0 <= ii < i
                        && #[trigger] pair_covers(a, b, csi, ii, px, py)
                        ==> cells_contain(cells@, px, py),
                    forall|k: int| 0 <= k < cells@.len()
                        ==> -900_000_000 <= (#[trigger] cells@[k]).0 <= 900_000_000
                            && -900_000_000 <= cells@[k].1 <= 900_000_000,
                    distinct_cells(cells@),
                decreases yhi - cy + 1,
            {
                let ghost prev = cells@;
                let ghost cy0 = cy as int;
                let already = contains_cell(&cells, cx, cy);
                if !already {
                    cells.push((cx, cy));
                }
                proof {
                    if !already {
                        assert(cells@[cells@.len() - 1] == (cx, cy));
                        assert forall|k1: int, k2: int| 0 <= k1 < k2 < cells@.len()
                            implies cells@[k1] != cells@[k2] by {
                            if k2 == cells@.len() - 1 {
                                assert(cells@[k1] == prev[k1]);
                            } else {
                                assert(cells@[k1] == prev[k1] && cells@[k2] == prev[k2]);
                            }
                        };
                    }
                    assert(cells_contain(cells@, cx as int, cy as int));
                    assert forall|px: int, py: int| cells_contain(prev, px, py)
                        implies cells_contain(cells@, px, py) by {
                        let k = choose|k: int| 0 <= k < prev.len()
                            && (#[trigger] prev[k]).0 == px && prev[k].1 == py;
                        assert(cells@[k] == prev[k]);
                    };
                }
                cy += 1;
                proof {
                    assert forall|py: int| ylo <= py < cy
                        implies cells_contain(cells@, cx as int, py) by {
                        if py < cy0 {
                            assert(cells_contain(prev, cx as int, py));
                        }
                    };
                    assert forall|px: int, py: int| xlo <= px < cx && ylo <= py <= yhi
                        implies cells_contain(cells@, px, py) by {
                        assert(cells_contain(prev, px, py));
                    };
                    assert forall|ii: int, px: int, py: int| 0 <= ii < i
                        && #[trigger] pair_covers(a, b, csi, ii, px, py)
                        implies cells_contain(cells@, px, py) by {
                        assert(cells_contain(prev, px, py));
                    };
                }
            }
            cx += 1;
        }
        proof {
            assert forall|ii: int, px: int, py: int| 0 <= ii < i + 1
                && #[trigger] pair_covers(a, b, csi, ii, px, py)
                implies cells_contain(cells@, px, py) by {
                if ii == i as int {
                    assert(xlo as int <= px <= xhi as int && ylo as int <= py <= yhi as int);
                }
            };
        }
        i += 1;
    }
    proof {
        assert forall|px: int, py: int| seg_covers(a, b, csi, px, py)
            implies cells_contain(cells@, px, py) by {
            lemma_seg_covers_pairs(a, b, csi, px, py);
            let ii = choose|ii: int| 0 <= ii < seg_steps(a, b, csi)
                && #[trigger] pair_covers(a, b, csi, ii, px, py);
        };
    }
    cells
}

/// Packs a cell coordinate pair into one map key.
pub open spec fn cell_key(cx: int, cy: int) -> int {
    (cx + 2_147_483_648) * 4_294_967_296 + (cy + 2_147_483_648)
}

/// Exec counterpart of `cell_key`.
fn cell_key_exec(cx: i64, cy: i64) -> (k: u64)
    requires
        -900_000_000 <= cx <= 900_000_000,
        -900_000_000 <= cy <= 900_000_000,
    ensures
        k == cell_key(cx as int, cy as int),
{
    proof {
        assert(0 <= (cx + 2_147_483_648) * 4_294_967_296
            && (cx + 2_147_483_648) * 4_294_967_296
                <= 4_294_967_295 * 4_294_967_296) by (nonlinear_arith)
            requires 0 <= cx + 2_147_483_648 <= 4_294_967_295;
    }
    ((cx + 2_147_483_648) as u64) * 4_294_967_296u64 + ((cy + 2_147_483_648) as u64)
}

/// All edges of one polygon's point chain, in order.
pub open spec fn poly_edges_of(points: Seq<Vec2>) -> Seq<Edge> {
    Seq::new(
        if points.len() == 0 { 0nat } else { (points.len() - 1) as nat },
        |i: int| Edge { start: points[i], end: points[i + 1] },
    )
}

/// All edges of the first `n` polygons, in order.
pub open spec fn poly_edges_upto(polys: Seq<crate::level::Polygon>, n: int) -> Seq<Edge>
    decreases n,
{
    if n <= 0 {
        Seq::empty()
    } else {
        poly_edges_upto(polys, n - 1) + poly_edges_of(polys[n - 1].points@)
    }
}

/// All edges of all polygons, in order.
pub open spec fn poly_edges(polys: Seq<crate::level::Polygon>) -> Seq<Edge> {
    poly_edges_upto(polys, polys.len() as int)
}

/// Grid-based spatial hash over level edges.
///
/// Partitions polygon edges into square cells so that a raycast only has to
/// test the edges stored in the cells along its path, instead of every edge
/// of the level.
pub struct SpatialGrid {
    cell_size: i64,
    grid: vstd::hash_map::HashMapWithView<u64, Vec<Edge>>,
    edges: Ghost<Seq<Edge>>,
}

impl SpatialGrid {
    /// The edges the grid was built from.
    pub closed spec fn edges(&self) -> Seq<Edge> {
        self.edges@
    }

    /// The grid's cell size.
    pub closed spec fn cell_size_spec(&self) -> int {
        self.cell_size as int
    }

    /// Structural invariant: every stored edge is in range; every edge is
    /// registered in the bucket of every cell its sample walk covers; and
    /// buckets hold nothing but stored edges.
    pub closed spec fn wf(&self) -> bool {
        &&& 1 <= self.cell_size <= 1_000_000_000
        &&& forall|k: int| 0 <= k < self.edges@.len()
            ==> in_range((#[trigger] self.edges@[k]).start) && in_range(self.edges@[k].end)
        &&& forall|e: Edge, cx: int, cy: int|
            #![trigger self.edges@.contains(e), seg_covers(e.start, e.end, self.cell_size as int, cx, cy)]
            self.edges@.contains(e)
                && seg_covers(e.start, e.end, self.cell_size as int, cx, cy)
            ==> self.grid@.contains_key(cell_key(cx, cy) as u64)
                && self.grid@[cell_key(cx, cy) as u64]@.contains(e)
        &&& forall|k: u64, j: int|
            self.grid@.contains_key(k) && 0 <= j < self.grid@[k]@.len()
            ==> self.edges@.contains(#[trigger] self.grid@[k]@[j])
    }

    /// Builds the spatial grid from all edges of the level polygons: each
    /// edge is inserted into the bucket of every grid cell its sample walk
    /// covers, at most once per cell (the walk's cell list is
    /// duplicate-free), though an edge may live in many cells.
    pub fn new(polygons: &Vec<crate::level::Polygon>, cell_size: i64) -> (r: SpatialGrid)
        requires
            1 <= cell_size <= 1_000_000_000,
            forall|pi: int| 0 <= pi < polygons@.len()
                ==> crate::level::all_in_range((#[trigger] polygons@[pi]).points@),
        ensures
            r.wf(),
            r.edges() == poly_edges(polygons@),
            r.cell_size_spec() == cell_size,
    {
        broadcast use vstd::std_specs::hash::group_hash_axioms;
        let mut grid: vstd::hash_map::HashMapWithView<u64, Vec<Edge>> =
            vstd::hash_map::HashMapWithView::new();
        let ghost mut eds: Seq<Edge> = Seq::empty();
        let mut pi: usize = 0;
        while pi < polygons.len()
            invariant
                0 <= pi <= polygons@.len(),
                1 <= cell_size <= 1_000_000_000,
                forall|pj: int| 0 <= pj < polygons@.len()
                    ==> crate::level::all_in_range((#[trigger] polygons@[pj]).points@),
                eds == poly_edges_upto(polygons@, pi as int),
                forall|k: int| 0 <= k < eds.len()
                    ==> in_range((#[trigger] eds[k]).start) && in_range(eds[k].end),
                forall|e: Edge, cx: int, cy: int|
                    #![trigger eds.contains(e), seg_covers(e.start, e.end, cell_size as int, cx, cy)]
                    eds.contains(e) && seg_covers(e.start, e.end, cell_size as int, cx, cy)
                    ==> grid@.contains_key(cell_key(cx, cy) as u64)
                        && grid@[cell_key(cx, cy) as u64]@.contains(e),
                forall|k: u64, j: int|
                    grid@.contains_key(k) && 0 <= j < grid@[k]@.len()
                    ==> eds.contains(#[trigger] grid@[k]@[j]),
            decreases polygons@.len() - pi,
        {
            let points = &polygons[pi].points;
            let mut ei: usize = 1;
            let ghost poly_prev = eds;
            while ei < points.len()
                invariant
                    1 <= ei,
                    points@.len() >= 2 ==> ei <= points@.len(),
                    points@.len() < 2 ==> ei == 1,
                    points == &polygons@[pi as int].points,
                    0 <= pi < polygons@.len(),
                    1 <= cell_size <= 1_000_000_000,
                    forall|pj: int| 0 <= pj < polygons@.len()
                        ==> crate::level::all_in_range((#[trigger] polygons@[pj]).points@),
                    eds == poly_prev + poly_edges_of(points@).subrange(0, ei as int - 1),
                    forall|k: int| 0 <= k < eds.len()
                        ==> in_range((#[trigger] eds[k]).start) && in_range(eds[k].end),
                    forall|e: Edge, cx: int, cy: int|
                        #![trigger eds.contains(e), seg_covers(e.start, e.end, cell_size as int, cx, cy)]
                        eds.contains(e) && seg_covers(e.start, e.end, cell_size as int, cx, cy)
                        ==> grid@.contains_key(cell_key(cx, cy) as u64)
                            && grid@[cell_key(cx, cy) as u64]@.contains(e),
                    forall|k: u64, j: int|
                        grid@.contains_key(k) && 0 <= j < grid@[k]@.len()
                        ==> eds.contains(#[trigger] grid@[k]@[j]),
                decreases points@.len() - ei,
            {
                let start = points[ei - 1];
                let end = points[ei];
                let edge = Edge { start, end };
                let ghost eds_before = eds;
                proof {
                    eds = eds.push(edge);
                    assert(poly_edges_of(points@)[ei as int - 1] == edge);
                    assert(eds =~= poly_prev + poly_edges_of(points@).subrange(0, ei as int));
                    assert(eds[eds.len() - 1] == edge);
                    assert forall|x: Edge| eds_before.contains(x) implies eds.contains(x) by {
                        let kk = choose|kk: int| 0 <= kk < eds_before.len() && eds_before[kk] == x;
                        assert(eds[kk] == x);
                    };
                    assert forall|k2: u64, j2: int|
                        grid@.contains_key(k2) && 0 <= j2 < grid@[k2]@.len()
                        implies eds.contains(#[trigger] grid@[k2]@[j2]) by {
                        assert(eds_before.contains(grid@[k2]@[j2]));
                    };
                }
                let cells = cells_for_segment(start, end, cell_size);
                let mut ci: usize = 0;
                while ci < cells.len()
                    invariant
                        0 <= ci <= cells@.len(),
                        1 <= cell_size <= 1_000_000_000,
                        eds == eds_before.push(edge),
                        forall|k: int| 0 <= k < cells@.len()
                            ==> -900_000_000 <= (#[trigger] cells@[k]).0 <= 900_000_000
                                && -900_000_000 <= cells@[k].1 <= 900_000_000,
                        forall|e: Edge, cx: int, cy: int|
                            #![trigger eds_before.contains(e), seg_covers(e.start, e.end, cell_size as int, cx, cy)]
                            eds_before.contains(e)
                                && seg_covers(e.start, e.end, cell_size as int, cx, cy)
                            ==> grid@.contains_key(cell_key(cx, cy) as u64)
                                && grid@[cell_key(cx, cy) as u64]@.contains(e),
                        forall|j: int| 0 <= j < ci
                            ==> grid@.contains_key(
                                    cell_key((#[trigger] cells@[j]).0 as int, cells@[j].1 as int) as u64)
                                && grid@[cell_key(cells@[j].0 as int, cells@[j].1 as int) as u64]@
                                    .contains(edge),
                        forall|k: u64, j: int|
                            grid@.contains_key(k) && 0 <= j < grid@[k]@.len()
                            ==> eds.contains(#[trigger] grid@[k]@[j]),
                    decreases cells@.len() - ci,
                {
                    let (cx, cy) = cells[ci];
                    let key = cell_key_exec(cx, cy);
                    let ghost gprev = grid@;
                    let mut bucket: Vec<Edge> = match grid.remove(&key) {
                        Some(v) => v,
                        None => Vec::new(),
                    };
                    bucket.push(edge);
                    grid.insert(key, bucket);
                    proof {
                        assert(grid@[key]@[grid@[key]@.len() - 1] == edge);
                        assert forall|e: Edge, px: int, py: int|
                            eds_before.contains(e)
                                && seg_covers(e.start, e.end, cell_size as int, px, py)
                            implies grid@.contains_key(cell_key(px, py) as u64)
                                && grid@[cell_key(px, py) as u64]@.contains(e) by {
                            let k2 = cell_key(px, py) as u64;
                            if k2 == key {
                                assert(gprev[k2]@.contains(e));
                                let jj = choose|jj: int| 0 <= jj < gprev[k2]@.len()
                                    && gprev[k2]@[jj] == e;
                                assert(grid@[k2]@[jj] == e);
                            } else {
                                assert(grid@[k2]@ == gprev[k2]@);
                            }
                        };
                        assert forall|k2: u64, j2: int|
                            grid@.contains_key(k2) && 0 <= j2 < grid@[k2]@.len()
                            implies eds.contains(#[trigger] grid@[k2]@[j2]) by {
                            if k2 == key {
                                if gprev.contains_key(k2) {
                                    if j2 < gprev[k2]@.len() {
                                        assert(grid@[k2]@[j2] == gprev[k2]@[j2]);
                                        assert(eds.contains(gprev[k2]@[j2]));
                                    } else {
                                        assert(grid@[k2]@[j2] == edge);
                                        assert(eds[eds.len() - 1] == edge);
                                    }
                                } else {
                                    assert(grid@[k2]@[j2] == edge);
                                    assert(eds[eds.len() - 1] == edge);
                                }
                            } else {
                                assert(grid@[k2]@ == gprev[k2]@);
                            }
                        };
                        assert forall|j: int| 0 <= j < ci + 1
                            implies grid@.contains_key(
                                    cell_key((#[trigger] cells@[j]).0 as int, cells@[j].1 as int) as u64)
                                && grid@[cell_key(cells@[j].0 as int, cells@[j].1 as int) as u64]@
                                    .contains(edge) by {
                            let k2 = cell_key(cells@[j].0 as int, cells@[j].1 as int) as u64;
                            if j < ci {
                                if k2 == key {
                                    let jj = choose|jj: int| 0 <= jj < gprev[k2]@.len()
                                        && gprev[k2]@[jj] == edge;
                                    assert(grid@[k2]@[jj] == edge);
                                } else {
                                    assert(grid@[k2]@ == gprev[k2]@);
                                }
                            }
                        };
                    }
                    ci += 1;
                }
                proof {
                    assert forall|e: Edge, px: int, py: int|
                        eds.contains(e) && seg_covers(e.start, e.end, cell_size as int, px, py)
                        implies grid@.contains_key(cell_key(px, py) as u64)
                            && grid@[cell_key(px, py) as u64]@.contains(e) by {
                        if e == edge {
                            assert(cells_contain(cells@, px, py));
                            let j = choose|j: int| 0 <= j < cells@.len()
                                && (#[trigger] cells@[j]).0 == px && cells@[j].1 == py;
                        } else {
                            assert(eds_before.contains(e)) by {
                                let ke = choose|ke: int| 0 <= ke < eds.len() && eds[ke] == e;
                                assert(eds_before[ke] == e);
                            };
                        }
                    };
                    assert forall|k: int| 0 <= k < eds.len()
                        implies in_range((#[trigger] eds[k]).start) && in_range(eds[k].end) by {
                        if k == eds.len() - 1 {
                            assert(in_range(edge.start) && in_range(edge.end));
                        }
                    };
                }
                ei += 1;
            }
            proof {
                if points@.len() >= 2 {
                    assert(ei == points@.len());
                    assert(poly_edges_of(points@).subrange(0, poly_edges_of(points@).len() as int)
                        =~= poly_edges_of(points@));
                } else {
                    assert(poly_edges_of(points@).len() == 0);
                    assert(poly_edges_of(points@).subrange(0, 0) =~= poly_edges_of(points@));
                }
                assert(eds =~= poly_edges_upto(polygons@, pi as int + 1));
            }
            pi += 1;
        }
        SpatialGrid { cell_size, grid, edges: Ghost(eds) }
    }

    /// All stored edges whose sample-walk cells intersect the query
    /// segment's sample-walk cells, without duplicates.
    ///
    /// The result is guaranteed to be a superset of the stored edges that
    /// actually intersect the query segment (no false negatives), and a
    /// subset of the stored edges; callers must not assume any ordering.
    pub fn edges_along_ray(&self, start: Vec2, end: Vec2) -> (r: Vec<Edge>)
        requires
            self.wf(),
            in_range(start),
            in_range(end),
        ensures
            forall|k: int| 0 <= k < r@.len() ==> self.edges().contains(#[trigger] r@[k]),
            forall|e: Edge| self.edges().contains(e)
                && seg_intersects(e.start, e.end, start, end) ==> r@.contains(e),
            forall|k1: int, k2: int| 0 <= k1 < k2 < r@.len() ==> r@[k1] != r@[k2],
            forall|k: int| 0 <= k < r@.len()
                ==> in_range((#[trigger] r@[k]).start) && in_range(r@[k].end),
    {
        let mut edges: Vec<Edge> = Vec::new();
        let cells = cells_for_segment(start, end, self.cell_size);
        let mut ci: usize = 0;
        while ci < cells.len()
            invariant
                0 <= ci <= cells@.len(),
                self.wf(),
                forall|k: int| 0 <= k < cells@.len()
                    ==> -900_000_000 <= (#[trigger] cells@[k]).0 <= 900_000_000
                        && -900_000_000 <= cells@[k].1 <= 900_000_000,
                forall|k: int| 0 <= k < edges@.len()
                    ==> self.edges().contains(#[trigger] edges@[k]),
                forall|j: int, e: Edge|
                    #![trigger self.grid@[cell_key(cells@[j].0 as int, cells@[j].1 as int) as u64]@.contains(e)]
                    0 <= j < ci
                    && self.grid@.contains_key(
                        cell_key(cells@[j].0 as int, cells@[j].1 as int) as u64)
                    && self.grid@[cell_key(cells@[j].0 as int, cells@[j].1 as int) as u64]@
                        .contains(e)
                    ==> edges@.contains(e),
                forall|k1: int, k2: int| 0 <= k1 < k2 < edges@.len()
                    ==> edges@[k1] != edges@[k2],
            decreases cells@.len() - ci,
        {
            let (cx, cy) = cells[ci];
            let key = cell_key_exec(cx, cy);
            let bucket = self.grid.get(&key);
            match bucket {
                Some(cell_edges) => {
                    let mut j: usize = 0;
                    while j < cell_edges.len()
                        invariant
                            0 <= j <= cell_edges@.len(),
                            self.wf(),
                            cell_edges@ == self.grid@[key]@,
                            self.grid@.contains_key(key),
                            forall|k: int| 0 <= k < edges@.len()
                                ==> self.edges().contains(#[trigger] edges@[k]),
                            forall|jj: int, e: Edge|
                                #![trigger self.grid@[cell_key(cells@[jj].0 as int, cells@[jj].1 as int) as u64]@.contains(e)]
                                0 <= jj < ci
                                && self.grid@.contains_key(
                                    cell_key(cells@[jj].0 as int, cells@[jj].1 as int) as u64)
                                && self.grid@[cell_key(cells@[jj].0 as int, cells@[jj].1 as int) as u64]@
                                    .contains(e)
                                ==> edges@.contains(e),
                            forall|jj: int| 0 <= jj < j
                                ==> edges@.contains(#[trigger] cell_edges@[jj]),
                            forall|k1: int, k2: int| 0 <= k1 < k2 < edges@.len()
                                ==> edges@[k1] != edges@[k2],
                        decreases cell_edges@.len() - j,
                    {
                        let e = cell_edges[j];
                        let ghost eprev = edges@;
                        if !contains_edge(&edges, e) {
                            edges.push(e);
                            proof {
                                assert(edges@[edges@.len() - 1] == e);
                                assert forall|k: int| 0 <= k < eprev.len()
                                    implies edges@[k] == eprev[k] by {};
                            }
                        }
                        proof {
                            assert(edges@.contains(e));
                            assert forall|x: Edge| eprev.contains(x)
                                implies edges@.contains(x) by {
                                let kk = choose|kk: int| 0 <= kk < eprev.len() && eprev[kk] == x;
                                assert(edges@[kk] == x);
                            };
                        }
                        j += 1;
                    }
                },
                None => {},
            }
            ci += 1;
        }
        proof {
            assert forall|k: int| 0 <= k < edges@.len()
                implies in_range((#[trigger] edges@[k]).start) && in_range(edges@[k].end) by {
                assert(self.edges().contains(edges@[k]));
                let j = choose|j: int| 0 <= j < self.edges().len()
                    && self.edges()[j] == edges@[k];
            };
            assert forall|e: Edge| self.edges().contains(e)
                && seg_intersects(e.start, e.end, start, end)
                implies edges@.contains(e) by {
                lemma_cross_seg_covered(e.start, e.end, start, end, self.cell_size as int);
                let (px, py) = choose|px: int, py: int|
                    #[trigger] seg_covers(e.start, e.end, self.cell_size as int, px, py)
                    && #[trigger] seg_covers(start, end, self.cell_size as int, px, py);
                assert(cells_contain(cells@, px, py));
                let j = choose|j: int| 0 <= j < cells@.len()
                    && (#[trigger] cells@[j]).0 == px && cells@[j].1 == py;
                assert(self.grid@.contains_key(cell_key(px, py) as u64)
                    && self.grid@[cell_key(px, py) as u64]@.contains(e));
            };
        }
        edges
    }
}

/// Linear scan for an edge value.
fn contains_edge(v: &Vec<Edge>, e: Edge) -> (r: bool)
    ensures
        r == v@.contains(e),
{
    let mut i: usize = 0;
    while i < v.len()
        invariant
            0 <= i <= v@.len(),
            forall|k: int| 0 <= k < i ==> v@[k] != e,
        decreases v@.len() - i,
    {
        if v[i] == e {
            return true;
        }
        i += 1;
    }
    proof {
        assert(!v@.contains(e));
    }
    false
}

} // verus!
