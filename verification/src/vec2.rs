use vstd::prelude::*;

verus! {

/// Largest coordinate magnitude the geometry routines accept.  Positions and
/// polygon vertices are fixed-point integers (1000 units per world pixel), so
/// this leaves room for every intermediate cross product to stay inside `i64`.
pub const MAX_COORD: i64 = 200_000_000;

/// A two-dimensional point or vector with fixed-point integer coordinates.
#[derive(Clone, Copy, Debug, PartialEq, Eq, Structural)]
pub struct Vec2 {
    pub x: i64,
    pub y: i64,
}

/// Both coordinates of `v` lie within `[-b, b]`.
pub open spec fn bounded(v: Vec2, b: int) -> bool {
    &&& -b <= v.x <= b
    &&& -b <= v.y <= b
}

/// `v` lies within the coordinate range the geometry supports.
pub open spec fn in_range(v: Vec2) -> bool {
    bounded(v, MAX_COORD as int)
}

/// Cross product of the raw coordinate pairs `(ax, ay)` and `(bx, by)`.
pub open spec fn cross2(ax: int, ay: int, bx: int, by: int) -> int {
    ax * by - ay * bx
}

/// Cross product of two vectors.
pub open spec fn cross(a: Vec2, b: Vec2) -> int {
    cross2(a.x as int, a.y as int, b.x as int, b.y as int)
}

/// Dot product of two vectors.
pub open spec fn dot(a: Vec2, b: Vec2) -> int {
    a.x * b.x + a.y * b.y
}

/// Squared Euclidean length of `v`.
pub open spec fn len_sq(v: Vec2) -> int {
    v.x * v.x + v.y * v.y
}

impl Vec2 {
    /// Builds a vector from its two coordinates.
    pub fn new(x: i64, y: i64) -> (r: Vec2)
        ensures
            r == (Vec2 { x, y }),
    {
        Vec2 { x, y }
    }

    /// The zero vector.
    pub fn zero() -> (r: Vec2)
        ensures
            r == (Vec2 { x: 0, y: 0 }),
    {
        Vec2 { x: 0, y: 0 }
    }

    /// Componentwise difference.
    pub fn minus(self, o: Vec2) -> (r: Vec2)
        requires
            bounded(self, 2_000_000_000),
            bounded(o, 2_000_000_000),
        ensures
            r.x == self.x - o.x,
            r.y == self.y - o.y,
    {
        Vec2 { x: self.x - o.x, y: self.y - o.y }
    }

    /// Componentwise sum.
    pub fn plus(self, o: Vec2) -> (r: Vec2)
        requires
            bounded(self, 2_000_000_000),
            bounded(o, 2_000_000_000),
        ensures
            r.x == self.x + o.x,
            r.y == self.y + o.y,
    {
        Vec2 { x: self.x + o.x, y: self.y + o.y }
    }
}

/// Floor division (quotient rounded toward negative infinity) for a positive
/// divisor, matching the mathematical division on `int`.
pub fn floor_div(a: i64, b: i64) -> (q: i64)
    requires
        b > 0,
        a > i64::MIN,
    ensures
        q == (a as int) / (b as int),
{
    if a >= 0 {
        let q = a / b;
        assert(q == a as int / b as int);
        q
    } else {
        let na = -a;
        let q = na / b;
        let r = na % b;
        proof {
            assert(na == q * b + r && 0 <= r < b) by {
                vstd::arithmetic::div_mod::lemma_fundamental_div_mod(na as int, b as int);
            };
            if r == 0 {
                assert((-q) * b == a) by (nonlinear_arith)
                    requires na == q * b && na == -a;
                assert(a as int / b as int == -q) by {
                    vstd::arithmetic::div_mod::lemma_fundamental_div_mod_converse(
                        a as int, b as int, -q as int, 0);
                };
            } else {
                assert(a == (-q - 1) * b + (b - r)) by (nonlinear_arith)
                    requires na == q * b + r && na == -a;
                assert(a as int / b as int == -q - 1) by {
                    vstd::arithmetic::div_mod::lemma_fundamental_div_mod_converse(
                        a as int, b as int, -q - 1 as int, b - r as int);
                };
            }
        }
        if r == 0 { -q } else { -q - 1 }
    }
}

/// Floor of the exact square root of a non-negative integer, defined
/// recursively so that it is total and exactly characterised.
pub open spec fn sqrt_floor(n: nat) -> nat
    decreases n,
{
    if n == 0 {
        0
    } else {
        let s = sqrt_floor((n - 1) as nat);
        if (s + 1) * (s + 1) <= n {
            s + 1
        } else {
            s
        }
    }
}

/// `sqrt_floor(n)` is the unique `r` with `r * r <= n < (r + 1) * (r + 1)`.
pub proof fn lemma_sqrt_floor_unique(n: nat, r: nat)
    requires
        r * r <= n,
        n < (r + 1) * (r + 1),
    ensures
        r == sqrt_floor(n),
    decreases n,
{
    if n == 0 {
        assert(r == 0) by (nonlinear_arith)
            requires r * r <= 0;
    } else {
        let s = sqrt_floor((n - 1) as nat);
        lemma_sqrt_floor_bounds((n - 1) as nat);
        // s * s <= n - 1 < (s + 1) * (s + 1)
        assert(r == if (s + 1) * (s + 1) <= n { s + 1 } else { s }) by (nonlinear_arith)
            requires
                r * r <= n,
                n < (r + 1) * (r + 1),
                s * s <= n - 1,
                n - 1 < (s + 1) * (s + 1),
                n >= 1;
    }
}

/// The defining bounds of `sqrt_floor`.
pub proof fn lemma_sqrt_floor_bounds(n: nat)
    ensures
        sqrt_floor(n) * sqrt_floor(n) <= n,
        n < (sqrt_floor(n) + 1) * (sqrt_floor(n) + 1),
    decreases n,
{
    if n == 0 {
        assert(n < (sqrt_floor(n) + 1) * (sqrt_floor(n) + 1)) by (nonlinear_arith)
            requires n == 0 && sqrt_floor(n) == 0;
    } else {
        lemma_sqrt_floor_bounds((n - 1) as nat);
        let s = sqrt_floor((n - 1) as nat);
        if (s + 1) * (s + 1) <= n {
            assert(sqrt_floor(n) == s + 1);
            assert(sqrt_floor(n) * sqrt_floor(n) <= n
                && n < (sqrt_floor(n) + 1) * (sqrt_floor(n) + 1)) by (nonlinear_arith)
                requires
                    sqrt_floor(n) == s + 1,
                    (s + 1) * (s + 1) <= n,
                    n - 1 < (s + 1) * (s + 1);
        } else {
            assert(sqrt_floor(n) == s);
            assert(sqrt_floor(n) * sqrt_floor(n) <= n
                && n < (sqrt_floor(n) + 1) * (sqrt_floor(n) + 1)) by (nonlinear_arith)
                requires
                    sqrt_floor(n) == s,
                    s * s <= n - 1,
                    !((s + 1) * (s + 1) <= n);
        }
    }
}

/// Integer square root: the floor of the square root of `n`.
pub fn isqrt(n: i64) -> (r: i64)
    requires
        n >= 0,
    ensures
        0 <= r,
        r == sqrt_floor(n as nat),
        r * r <= n < (r + 1) * (r + 1),
{
    let mut lo: i64 = 0;
    let mut hi: i64 = 3_037_000_500;
    proof {
        assert((3_037_000_500 as int) * (3_037_000_500 as int) > i64::MAX as int)
            by (nonlinear_arith);
    }
    while lo + 1 < hi
        invariant
            0 <= lo < hi <= 3_037_000_500,
            lo * lo <= n,
            (n as int) < (hi as int) * (hi as int),
        decreases hi - lo,
    {
        let mid = lo + (hi - lo) / 2;
        assert(lo < mid < hi);
        proof {
            assert((mid as int) * (mid as int) <= 3_037_000_499 * 3_037_000_499)
                by (nonlinear_arith)
                requires 0 <= mid as int <= 3_037_000_499;
            assert(3_037_000_499 * 3_037_000_499 < i64::MAX as int) by (nonlinear_arith);
        }
        let sq = mid * mid;
        if sq <= n {
            lo = mid;
        } else {
            hi = mid;
        }
    }
    proof {
        lemma_sqrt_floor_unique(n as nat, lo as nat);
    }
    lo
}

/// Fixed-point scale of unit direction vectors: `DIR_ONE` stands for length
/// one.
pub const DIR_ONE: i64 = 100_000;

/// Division stays below `k` when the dividend is below `k * b`.
pub proof fn lemma_div_below(a: int, b: int, k: int)
    requires
        b > 0,
        a < k * b,
    ensures
        a / b < k,
{
    vstd::arithmetic::div_mod::lemma_fundamental_div_mod(a, b);
    assert(a / b < k) by (nonlinear_arith)
        requires a == b * (a / b) + a % b && 0 <= a % b < b && a < k * b && b > 0;
}

/// Division stays at or above `k` when the dividend is at least `k * b`.
pub proof fn lemma_div_above(a: int, b: int, k: int)
    requires
        b > 0,
        k * b <= a,
    ensures
        k <= a / b,
{
    vstd::arithmetic::div_mod::lemma_fundamental_div_mod(a, b);
    assert(k <= a / b) by (nonlinear_arith)
        requires a == b * (a / b) + a % b && 0 <= a % b < b && k * b <= a && b > 0;
}

/// Floor division for wide intermediate values.
pub fn floor_div128(a: i128, b: i128) -> (q: i128)
    requires
        b > 0,
        a > i128::MIN,
    ensures
        q == (a as int) / (b as int),
{
    if a >= 0 {
        a / b
    } else {
        let na = -a;
        let q = na / b;
        let r = na % b;
        proof {
            assert(na == q * b + r && 0 <= r < b) by {
                vstd::arithmetic::div_mod::lemma_fundamental_div_mod(na as int, b as int);
            };
            if r == 0 {
                assert((-q) * b == a) by (nonlinear_arith)
                    requires na == q * b && na == -a;
                assert(a as int / b as int == -q) by {
                    vstd::arithmetic::div_mod::lemma_fundamental_div_mod_converse(
                        a as int, b as int, -q as int, 0);
                };
            } else {
                assert(a == (-q - 1) * b + (b - r)) by (nonlinear_arith)
                    requires na == q * b + r && na == -a;
                assert(a as int / b as int == -q - 1) by {
                    vstd::arithmetic::div_mod::lemma_fundamental_div_mod_converse(
                        a as int, b as int, -q - 1 as int, b - r as int);
                };
            }
        }
        if r == 0 { -q } else { -q - 1 }
    }
}

/// Direction of `v` scaled to length `DIR_ONE`, or the zero vector when `v`
/// is zero: a "normalize or zero" that can never produce an undefined value.
pub open spec fn normalize_or_zero_spec(v: Vec2) -> Vec2 {
    if v.x == 0 && v.y == 0 {
        Vec2 { x: 0, y: 0 }
    } else {
        let n = sqrt_floor(len_sq(v) as nat) as int;
        Vec2 {
            x: ((v.x * DIR_ONE) / n) as i64,
            y: ((v.y * DIR_ONE) / n) as i64,
        }
    }
}

/// Scales `v` to length `DIR_ONE` (rounded toward negative infinity), or
/// returns the zero vector when `v` is zero.
pub fn normalize_or_zero(v: Vec2) -> (r: Vec2)
    requires
        bounded(v, 2_000_000_000),
    ensures
        r == normalize_or_zero_spec(v),
        bounded(r, DIR_ONE as int + 1),
{
    if v.x == 0 && v.y == 0 {
        return Vec2 { x: 0, y: 0 };
    }
    proof {
        assert(0 <= (v.x as int) * (v.x as int) <= 4_000_000_000_000_000_000
            && 0 <= (v.y as int) * (v.y as int) <= 4_000_000_000_000_000_000
            && 1 <= (v.x as int) * (v.x as int) + (v.y as int) * (v.y as int))
            by (nonlinear_arith)
            requires bounded(v, 2_000_000_000) && !(v.x == 0 && v.y == 0);
    }
    let sq = v.x * v.x + v.y * v.y;
    assert(sq == len_sq(v));
    let n = isqrt(sq);
    proof {
        assert(n >= 1) by (nonlinear_arith)
            requires n >= 0 && (n + 1) * (n + 1) > sq as int && sq >= 1;
        let ax = if v.x >= 0 { v.x as int } else { -(v.x as int) };
        let ay = if v.y >= 0 { v.y as int } else { -(v.y as int) };
        assert(0 <= ax <= n && 0 <= ay <= n) by (nonlinear_arith)
            requires
                sq as int == (v.x as int) * (v.x as int) + (v.y as int) * (v.y as int),
                ax == (if v.x as int >= 0 { v.x as int } else { -(v.x as int) }),
                ay == (if v.y as int >= 0 { v.y as int } else { -(v.y as int) }),
                n >= 0,
                (sq as int) < (n + 1) * (n + 1);
        assert(-(n as int) * DIR_ONE <= (v.x as int) * DIR_ONE
            && (v.x as int) * DIR_ONE <= (n as int) * DIR_ONE
            && -(n as int) * DIR_ONE <= (v.y as int) * DIR_ONE
            && (v.y as int) * DIR_ONE <= (n as int) * DIR_ONE) by (nonlinear_arith)
            requires -n <= v.x as int <= n && -n <= v.y as int <= n && n >= 1;
        lemma_div_above((v.x as int) * DIR_ONE, n as int, -(DIR_ONE as int));
        lemma_div_below((v.x as int) * DIR_ONE, n as int, DIR_ONE as int + 1);
        lemma_div_above((v.y as int) * DIR_ONE, n as int, -(DIR_ONE as int));
        lemma_div_below((v.y as int) * DIR_ONE, n as int, DIR_ONE as int + 1);
    }
    let rx = floor_div(v.x * DIR_ONE, n);
    let ry = floor_div(v.y * DIR_ONE, n);
    Vec2 { x: rx, y: ry }
}

} // verus!
