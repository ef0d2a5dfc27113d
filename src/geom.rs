use vstd::prelude::*;
use vstd::arithmetic::mul::lemma_mul_inequality;
use crate::fixed::{abs, div_floor, div_trunc, div_trunc_exec, isqrt_ceil, lemma_root_ceil, root_ceil, ONE};

verus! {

/// Bound on every coordinate: positions saturate here.
pub const COORD_LIMIT: i64 = 4294967296;

/// Bound on the configured speeds.
pub const SPEED_LIMIT: i64 = 4194304;

/// Bound on the velocity components that a flock holds between ticks.
pub const VEL_LIMIT: i64 = 16777216;

/// A point or a vector in fixed point (`ONE` per unit).
#[derive(Clone, Copy, Debug, PartialEq, Eq, Structural)]
pub struct Vec2 {
    pub x: i64,
    pub y: i64,
}

/// A rotation, given by its cosine and sine in fixed point.
#[derive(Clone, Copy, Debug, PartialEq, Eq, Structural)]
pub struct Turn {
    pub cos: i64,
    pub sin: i64,
}

impl Turn {
    /// A rotation: cosine and sine in `[-ONE, ONE]`, with `cos² + sin²` equal to
    /// `ONE²` up to the rounding of each to a whole unit.
    pub open spec fn wf(self) -> bool {
        &&& -ONE <= self.cos <= ONE
        &&& -ONE <= self.sin <= ONE
        &&& ONE * ONE - 2 * ONE <= self.cos * self.cos + self.sin * self.sin <= ONE * ONE + 2 * ONE
    }
}

/// `r` has the speed of `v` up to rounding: their squared lengths differ by at
/// most `2 / ONE` of `|v|²` plus `4 (|v.x| + |v.y|) + 2`.
pub open spec fn keeps_speed(v: Vec2, r: Vec2) -> bool {
    ONE * abs(r.sq_len() - v.sq_len()) <= 2 * v.sq_len() + ONE * (4 * (abs(v.x as int) + abs(v.y as int)) + 2)
}

/// Squared length of a floored fixed-point quotient, bounded around the
/// square of the numerator.
proof fn lemma_floor_sq(xx: int, n: int)
    requires
        n == xx / (ONE as int),
    ensures
        ONE * ONE * (n * n) <= xx * xx + 2 * ONE * abs(xx) + ONE * ONE,
        xx * xx - 2 * ONE * abs(xx) <= ONE * ONE * (n * n),
{
    let e = xx - ONE * n;
    assert(0 <= e < ONE) by (nonlinear_arith)
        requires n == xx / (ONE as int), e == xx - ONE * n;
    assert(ONE * ONE * (n * n) == (xx - e) * (xx - e)) by (nonlinear_arith)
        requires e == xx - ONE * n;
    assert((xx - e) * (xx - e) == xx * xx - 2 * xx * e + e * e) by (nonlinear_arith);
    assert(-2 * xx * e <= 2 * ONE * abs(xx) && -2 * xx * e >= -2 * ONE * abs(xx)) by (nonlinear_arith)
        requires 0 <= e < ONE;
    assert(0 <= e * e <= ONE * ONE) by (nonlinear_arith)
        requires 0 <= e < ONE;
    assert(ONE * ONE * (n * n) <= xx * xx + 2 * ONE * abs(xx) + ONE * ONE) by (nonlinear_arith)
        requires
            ONE * ONE * (n * n) == xx * xx - 2 * xx * e + e * e,
            -2 * xx * e <= 2 * ONE * abs(xx),
            e * e <= ONE * ONE,
    ;
    assert(xx * xx - 2 * ONE * abs(xx) <= ONE * ONE * (n * n)) by (nonlinear_arith)
        requires
            ONE * ONE * (n * n) == xx * xx - 2 * xx * e + e * e,
            -2 * xx * e >= -2 * ONE * abs(xx),
            e * e >= 0,
    ;
}

/// A turn by a well-formed `Turn` keeps the speed up to rounding.
proof fn lemma_rotation_speed(v: Vec2, t: Turn, r: Vec2)
    requires
        t.wf(),
        r.x == (t.cos * v.x - t.sin * v.y) / ONE as int,
        r.y == (t.sin * v.x + t.cos * v.y) / ONE as int,
    ensures
        keeps_speed(v, r),
{
    let c = t.cos as int;
    let s = t.sin as int;
    let x = v.x as int;
    let y = v.y as int;
    let xx = c * x - s * y;
    let yy = s * x + c * y;
    let nx = r.x as int;
    let ny = r.y as int;
    let sv = x * x + y * y;
    let b = abs(x) + abs(y);
    let n2 = c * c + s * s;
    let p = c * x;
    let q = s * y;
    let u = s * x;
    let w = c * y;
    assert((p - q) * (p - q) == p * p - 2 * (p * q) + q * q) by (nonlinear_arith);
    assert((u + w) * (u + w) == u * u + 2 * (u * w) + w * w) by (nonlinear_arith);
    assert(p * q == u * w) by (nonlinear_arith)
        requires p == c * x, q == s * y, u == s * x, w == c * y;
    assert(p * p == (c * c) * (x * x)) by (nonlinear_arith)
        requires p == c * x;
    assert(q * q == (s * s) * (y * y)) by (nonlinear_arith)
        requires q == s * y;
    assert(u * u == (s * s) * (x * x)) by (nonlinear_arith)
        requires u == s * x;
    assert(w * w == (c * c) * (y * y)) by (nonlinear_arith)
        requires w == c * y;
    let cc = c * c;
    let ss = s * s;
    let xq = x * x;
    let yq = y * y;
    assert((cc + ss) * (xq + yq) == cc * xq + cc * yq + ss * xq + ss * yq) by (nonlinear_arith);
    assert(xx * xx + yy * yy == n2 * sv);
    assert(abs(xx) <= ONE * b) by (nonlinear_arith)
        requires xx == c * x - s * y, -ONE <= c <= ONE, -ONE <= s <= ONE, b == abs(x) + abs(y);
    assert(abs(yy) <= ONE * b) by (nonlinear_arith)
        requires yy == s * x + c * y, -ONE <= c <= ONE, -ONE <= s <= ONE, b == abs(x) + abs(y);
    lemma_floor_sq(xx, nx);
    lemma_floor_sq(yy, ny);
    assert(sv >= 0) by (nonlinear_arith)
        requires sv == x * x + y * y;
    assert((ONE * ONE - 2 * ONE) * sv <= n2 * sv <= (ONE * ONE + 2 * ONE) * sv) by (nonlinear_arith)
        requires ONE * ONE - 2 * ONE <= n2 <= ONE * ONE + 2 * ONE, sv >= 0;
    let rr = nx * nx + ny * ny;
    assert(ONE * ONE * rr <= (ONE * ONE + 2 * ONE) * sv + 4 * ONE * ONE * b + 2 * ONE * ONE) by (nonlinear_arith)
        requires
            ONE * ONE * (nx * nx) <= xx * xx + 2 * ONE * abs(xx) + ONE * ONE,
            ONE * ONE * (ny * ny) <= yy * yy + 2 * ONE * abs(yy) + ONE * ONE,
            xx * xx + yy * yy == n2 * sv,
            n2 * sv <= (ONE * ONE + 2 * ONE) * sv,
            abs(xx) <= ONE * b,
            abs(yy) <= ONE * b,
            rr == nx * nx + ny * ny,
    ;
    assert(ONE * ONE * rr >= (ONE * ONE - 2 * ONE) * sv - 4 * ONE * ONE * b) by (nonlinear_arith)
        requires
            xx * xx - 2 * ONE * abs(xx) <= ONE * ONE * (nx * nx),
            yy * yy - 2 * ONE * abs(yy) <= ONE * ONE * (ny * ny),
            xx * xx + yy * yy == n2 * sv,
            (ONE * ONE - 2 * ONE) * sv <= n2 * sv,
            abs(xx) <= ONE * b,
            abs(yy) <= ONE * b,
            rr == nx * nx + ny * ny,
    ;
    assert(ONE * abs(rr - sv) <= 2 * sv + ONE * (4 * b + 2)) by (nonlinear_arith)
        requires
            ONE * ONE * rr <= (ONE * ONE + 2 * ONE) * sv + 4 * ONE * ONE * b + 2 * ONE * ONE,
            ONE * ONE * rr >= (ONE * ONE - 2 * ONE) * sv - 4 * ONE * ONE * b,
    ;
    assert(r.sq_len() == rr && v.sq_len() == sv);
}

impl Vec2 {
    pub open spec fn within(self, b: int) -> bool {
        abs(self.x as int) <= b && abs(self.y as int) <= b
    }

    pub open spec fn sq_len(self) -> int {
        self.x * self.x + self.y * self.y
    }
}

pub open spec fn sq(x: int) -> int {
    x * x
}

/// `v` turned by `t`: the matrix with columns `(cos, sin)` and `(-sin, cos)` applied to `v`.
pub open spec fn rotated(v: Vec2, t: Turn) -> Vec2 {
    Vec2 {
        x: ((t.cos * v.x - t.sin * v.y) / ONE as int) as i64,
        y: ((t.sin * v.x + t.cos * v.y) / ONE as int) as i64,
    }
}

/// Linear interpolation from `a` toward `b` by the fixed-point factor `f`.
pub open spec fn lerp_spec(a: int, b: int, f: int) -> int {
    a + ((b - a) * f) / ONE as int
}

pub open spec fn lerped(a: Vec2, b: Vec2, f: int) -> Vec2 {
    Vec2 { x: lerp_spec(a.x as int, b.x as int, f) as i64, y: lerp_spec(a.y as int, b.y as int, f) as i64 }
}

/// Precision factor used when rescaling short vectors.
pub open spec fn rescale_factor(s: int) -> int {
    if s < 0x1_0000_0000 {
        ONE as int
    } else {
        1
    }
}

/// `v` rescaled to length `m` (toward zero in each component); the zero vector
/// becomes `(m, 0)`.
#[verifier::opaque]
pub open spec fn rescaled(v: Vec2, m: int) -> Vec2 {
    if v.x == 0 && v.y == 0 {
        Vec2 { x: m as i64, y: 0 }
    } else {
        let k = rescale_factor(v.sq_len());
        let r = root_ceil((v.sq_len() * k * k) as nat) as int;
        Vec2 { x: div_trunc(v.x * m * k, r) as i64, y: div_trunc(v.y * m * k, r) as i64 }
    }
}

/// `v` turned by `t`; see `rotated`.
pub fn rotate(v: Vec2, t: Turn) -> (r: Vec2)
    requires
        t.wf(),
        v.within(0x100_0000_0000_0000),
    ensures
        r == rotated(v, t),
        r.within(2 * abs(v.x as int) + 2 * abs(v.y as int) + 1),
        keeps_speed(v, r),
{
    let c = t.cos as i128;
    let s = t.sin as i128;
    let x = v.x as i128;
    let y = v.y as i128;
    proof {
        assert(abs(c * x) <= ONE * abs(x as int)) by (nonlinear_arith)
            requires -ONE <= c <= ONE;
        assert(abs(s * y) <= ONE * abs(y as int)) by (nonlinear_arith)
            requires -ONE <= s <= ONE;
        assert(abs(s * x) <= ONE * abs(x as int)) by (nonlinear_arith)
            requires -ONE <= s <= ONE;
        assert(abs(c * y) <= ONE * abs(y as int)) by (nonlinear_arith)
            requires -ONE <= c <= ONE;
    }
    let nx = div_floor(c * x - s * y, ONE as i128);
    let ny = div_floor(s * x + c * y, ONE as i128);
    proof {
        let b = abs(x as int) + abs(y as int);
        assert(abs(nx as int) <= b + 1) by (nonlinear_arith)
            requires nx == (c * x - s * y) / (ONE as int), abs(c * x - s * y) <= ONE * b;
        assert(abs(ny as int) <= b + 1) by (nonlinear_arith)
            requires ny == (s * x + c * y) / (ONE as int), abs(s * x + c * y) <= ONE * b;
    }
    let r = Vec2 { x: nx as i64, y: ny as i64 };
    proof {
        lemma_rotation_speed(v, t, r);
    }
    r
}

/// One component of a lerp.
fn lerp1(a: i64, b: i64, f: i64) -> (r: i64)
    requires
        0 <= f <= ONE,
        abs(a as int) <= 0x100_0000_0000_0000,
        abs(b as int) <= 0x100_0000_0000_0000,
    ensures
        r == lerp_spec(a as int, b as int, f as int),
        abs(r as int) <= abs(a as int) + abs(b as int) + 1,
{
    let diff = b as i128 - a as i128;
    assert(abs(diff * f) <= 0x200_0000_0000_0000 * ONE) by (nonlinear_arith)
        requires abs(diff as int) <= 0x200_0000_0000_0000, 0 <= f <= ONE;
    let d = diff * (f as i128);
    proof {
        assert(abs(d as int) <= ONE * abs(b - a)) by (nonlinear_arith)
            requires d == (b - a) * f, 0 <= f <= ONE;
    }
    let q = div_floor(d, ONE as i128);
    proof {
        assert(abs(q as int) <= abs(b - a) + 1) by (nonlinear_arith)
            requires q == (d as int) / (ONE as int), abs(d as int) <= ONE * abs(b - a);
    }
    let r = a as i128 + q;
    proof {
        assert((b - a) * f == d);
        if b >= a {
            assert(0 <= q <= b - a) by (nonlinear_arith)
                requires q == (d as int) / (ONE as int), d == (b - a) * f, 0 <= f <= ONE, b >= a;
        } else {
            assert(b - a - 1 <= q <= 0) by (nonlinear_arith)
                requires q == (d as int) / (ONE as int), d == (b - a) * f, 0 <= f <= ONE, b < a;
        }
    }
    r as i64
}

/// Componentwise `lerp_spec` from `a` toward `b`.
pub fn lerp(a: Vec2, b: Vec2, f: i64) -> (r: Vec2)
    requires
        0 <= f <= ONE,
        a.within(0x100_0000_0000_0000),
        b.within(0x100_0000_0000_0000),
    ensures
        r == lerped(a, b, f as int),
        abs(r.x as int) <= abs(a.x as int) + abs(b.x as int) + 1,
        abs(r.y as int) <= abs(a.y as int) + abs(b.y as int) + 1,
{
    Vec2 { x: lerp1(a.x, b.x, f), y: lerp1(a.y, b.y, f) }
}

/// The magnitude of a truncated quotient is the floor of the magnitudes' quotient.
proof fn lemma_div_trunc_abs(a: int, r: int)
    requires
        r > 0,
    ensures
        abs(div_trunc(a, r)) == abs(a) / r,
{
    if a < 0 {
        assert((-a) / r >= 0) by (nonlinear_arith)
            requires a < 0, r > 0;
    } else {
        assert(a / r >= 0) by (nonlinear_arith)
            requires a >= 0, r > 0;
    }
}

/// Bounds on a vector rescaled by `rescaled`: its length never exceeds the
/// target `m`, and falls short of it by a tolerance linear in `m`.
proof fn lemma_rescale_bounds(x: int, y: int, m: int, k: int, r: int)
    requires
        x * x + y * y >= 1,
        k >= 1,
        r >= ONE,
        r * r >= (x * x + y * y) * k * k,
        (r - 1) * (r - 1) < (x * x + y * y) * k * k,
        m >= 0,
    ensures
        ({
            let u = div_trunc(x * m * k, r);
            let w = div_trunc(y * m * k, r);
            &&& u * u + w * w <= m * m
            &&& abs(u) <= m
            &&& abs(w) <= m
            &&& m <= SPEED_LIMIT ==> m * m <= u * u + w * w + 132 * m + 2
        }),
{
    let u = div_trunc(x * m * k, r);
    let w = div_trunc(y * m * k, r);
    let aa = abs(x) * m * k;
    let bb = abs(y) * m * k;
    assert(abs(x * m * k) == aa) by (nonlinear_arith)
        requires aa == abs(x) * m * k, m >= 0, k >= 1;
    assert(abs(y * m * k) == bb) by (nonlinear_arith)
        requires bb == abs(y) * m * k, m >= 0, k >= 1;
    lemma_div_trunc_abs(x * m * k, r);
    lemma_div_trunc_abs(y * m * k, r);
    let uu = abs(u);
    let ww = abs(w);
    assert(uu * r <= aa < uu * r + r) by (nonlinear_arith)
        requires uu == aa / r, r > 0;
    assert(ww * r <= bb < ww * r + r) by (nonlinear_arith)
        requires ww == bb / r, r > 0;
    assert(uu >= 0 && ww >= 0 && aa >= 0 && bb >= 0) by (nonlinear_arith)
        requires uu == abs(u), ww == abs(w), aa == abs(x) * m * k, bb == abs(y) * m * k, m >= 0, k >= 1;
    let s = x * x + y * y;
    let t = s * k * k;
    let mk = m * k;
    assert(aa == abs(x) * mk && bb == abs(y) * mk) by (nonlinear_arith)
        requires aa == abs(x) * m * k, bb == abs(y) * m * k, mk == m * k;
    assert(abs(x) * abs(x) == x * x && abs(y) * abs(y) == y * y) by (nonlinear_arith);
    assert(aa * aa == (x * x) * (mk * mk)) by (nonlinear_arith)
        requires aa == abs(x) * mk, abs(x) * abs(x) == x * x;
    assert(bb * bb == (y * y) * (mk * mk)) by (nonlinear_arith)
        requires bb == abs(y) * mk, abs(y) * abs(y) == y * y;
    let x2 = x * x;
    let y2 = y * y;
    let mk2 = mk * mk;
    assert(aa * aa + bb * bb == (x2 + y2) * mk2) by (nonlinear_arith)
        requires aa * aa == x2 * mk2, bb * bb == y2 * mk2;
    assert(mk2 == (m * m) * (k * k)) by (nonlinear_arith)
        requires mk == m * k, mk2 == mk * mk;
    assert(t == (x2 + y2) * (k * k)) by (nonlinear_arith)
        requires t == s * k * k, s == x2 + y2;
    let m2 = m * m;
    let k2 = k * k;
    assert((x2 + y2) * (m2 * k2) == m2 * ((x2 + y2) * k2)) by (nonlinear_arith);
    assert(aa * aa + bb * bb == m * m * t);
    let r2 = r * r;
    lemma_sq_mono(uu * r, aa);
    lemma_sq_mono(ww * r, bb);
    assert(uu * uu * r2 == (uu * r) * (uu * r) && ww * ww * r2 == (ww * r) * (ww * r)) by (nonlinear_arith)
        requires r2 == r * r;
    lemma_mul_inequality(t, r2, m * m);
    assert(t * (m * m) == m * m * t && r2 * (m * m) == m * m * r2) by (nonlinear_arith);
    let p = uu * uu + ww * ww;
    assert(p * r2 == uu * uu * r2 + ww * ww * r2) by (nonlinear_arith)
        requires p == uu * uu + ww * ww;
    assert(p <= m * m) by (nonlinear_arith)
        requires p * r2 <= m * m * r2, r2 > 0;
    assert(u * u == uu * uu && w * w == ww * ww) by (nonlinear_arith)
        requires uu == abs(u), ww == abs(w);
    assert(uu * uu <= m * m && ww * ww <= m * m) by (nonlinear_arith)
        requires p == uu * uu + ww * ww, p <= m * m;
    assert(uu <= m) by (nonlinear_arith)
        requires uu * uu <= m * m, uu >= 0, m >= 0;
    assert(ww <= m) by (nonlinear_arith)
        requires ww * ww <= m * m, ww >= 0, m >= 0;
    if m <= SPEED_LIMIT {
        assert((uu + 1) * r == uu * r + r && (ww + 1) * r == ww * r + r) by (nonlinear_arith);
        lemma_sq_mono(aa, (uu + 1) * r);
        lemma_sq_mono(bb, (ww + 1) * r);
        let e = (uu + 1) * (uu + 1) + (ww + 1) * (ww + 1);
        assert(((uu + 1) * r) * ((uu + 1) * r) + ((ww + 1) * r) * ((ww + 1) * r) == e * r2) by (nonlinear_arith)
            requires e == (uu + 1) * (uu + 1) + (ww + 1) * (ww + 1), r2 == r * r;
        let q = p + 4 * m + 2;
        assert(e <= q) by (nonlinear_arith)
            requires
                e == (uu + 1) * (uu + 1) + (ww + 1) * (ww + 1),
                q == uu * uu + ww * ww + 4 * m + 2,
                uu <= m,
                ww <= m,
        ;
        lemma_mul_inequality(e, q, r2);
        let d2 = (r - 1) * (r - 1);
        lemma_mul_inequality(d2, t, m * m);
        assert(d2 * (m * m) == m * m * d2) by (nonlinear_arith);
        assert(m * m * d2 <= q * r2);
        assert(m * m * r - 2 * m * m <= q * r) by (nonlinear_arith)
            requires m * m * d2 <= q * r2, d2 == (r - 1) * (r - 1), r2 == r * r, r > 0;
        assert(2 * m * m <= 128 * m * r) by (nonlinear_arith)
            requires m <= SPEED_LIMIT, r >= ONE, m >= 0;
        assert(m * m <= q + 128 * m) by (nonlinear_arith)
            requires m * m * r - 2 * m * m <= q * r, 2 * m * m <= 128 * m * r, r > 0;
    }
}

proof fn lemma_sq_mono(a: int, b: int)
    requires
        0 <= a <= b,
    ensures
        a * a <= b * b,
{
    assert(a * a <= b * b) by (nonlinear_arith)
        requires 0 <= a <= b;
}

/// `v` rescaled to length `m`; see `rescaled`.
pub fn rescale(v: Vec2, m: i64) -> (r: Vec2)
    requires
        v.within(0x100_0000_0000_0000),
        0 <= m <= COORD_LIMIT,
    ensures
        r == rescaled(v, m as int),
        r.within(m as int),
        r.sq_len() <= m * m,
        m <= SPEED_LIMIT ==> m * m <= r.sq_len() + 132 * m + 2,
{
    reveal(rescaled);
    if v.x == 0 && v.y == 0 {
        proof {
            assert(m * m + 0 * 0 == m * m) by (nonlinear_arith);
        }
        return Vec2 { x: m, y: 0 };
    }
    let x = v.x as i128;
    let y = v.y as i128;
    assert(x * x <= 0x100_0000_0000_0000 * 0x100_0000_0000_0000) by (nonlinear_arith)
        requires abs(x as int) <= 0x100_0000_0000_0000;
    assert(y * y <= 0x100_0000_0000_0000 * 0x100_0000_0000_0000) by (nonlinear_arith)
        requires abs(y as int) <= 0x100_0000_0000_0000;
    assert(x * x + y * y >= 1) by (nonlinear_arith)
        requires x != 0 || y != 0;
    let s: u128 = (x * x + y * y) as u128;
    let k: i128 = if s < 0x1_0000_0000 { ONE as i128 } else { 1 };
    let sk: u128 = s * (k * k) as u128;
    assert(sk == s * k * k) by (nonlinear_arith)
        requires sk == s * (k * k);
    let r = isqrt_ceil(sk);
    proof {
        lemma_root_ceil(sk as nat);
        assert(sk >= ONE * ONE) by (nonlinear_arith)
            requires sk == s * k * k, s >= 1, (s < 0x1_0000_0000 && k == ONE) || (s >= 0x1_0000_0000 && k == 1);
        assert(r >= ONE) by (nonlinear_arith)
            requires r * r >= sk, sk >= ONE * ONE, r >= 0;
        lemma_rescale_bounds(x as int, y as int, m as int, k as int, r as int);
    }
    let mk = (m as i128) * k;
    assert(abs(x * mk) <= 0x100_0000_0000_0000 * 0x1_0000_0000 * 0x1_0000) by (nonlinear_arith)
        requires mk == m * k, 0 <= m <= COORD_LIMIT, abs(x as int) <= 0x100_0000_0000_0000, 1 <= k <= ONE;
    assert(abs(y * mk) <= 0x100_0000_0000_0000 * 0x1_0000_0000 * 0x1_0000) by (nonlinear_arith)
        requires mk == m * k, 0 <= m <= COORD_LIMIT, abs(y as int) <= 0x100_0000_0000_0000, 1 <= k <= ONE;
    let nx = div_trunc_exec(x * mk, r);
    let ny = div_trunc_exec(y * mk, r);
    assert(x * mk == x * m * k && y * mk == y * m * k) by (nonlinear_arith)
        requires mk == m * k;
    Vec2 { x: nx as i64, y: ny as i64 }
}

} // verus!
