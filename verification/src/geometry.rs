//! Fixed-point 3D vector math and the ray–sphere intersection test.
//!
//! Positions and distances are whole scene units held in `i64`. Directions,
//! normals and other unit-scale quantities are fixed-point values scaled by
//! `UNIT` (the vector of length one has magnitude `UNIT`). Division and
//! square root truncate toward zero; the spec functions state the exact
//! truncated value each operation returns.

use vstd::prelude::*;
use vstd::arithmetic::div_mod::lemma_div_is_ordered;
use vstd::arithmetic::div_mod::lemma_div_is_ordered_by_denominator;
use vstd::arithmetic::div_mod::lemma_div_pos_is_pos;
use vstd::math::abs;

verus! {

/// Fixed-point one: unit-scale values are multiples of `1 / UNIT`.
pub const UNIT: i64 = 65536;

/// Bound on the components accepted by the vector operations; products of
/// two such components stay well inside `i64`.
pub const VMAX: i64 = 0x4000_0000;

/// Bound on scene coordinates and radii (whole units) accepted by the
/// intersection test.
pub const POS_MAX: i64 = 0x100000;

/// A three-component vector of fixed-point integers.
#[derive(Clone, Copy, PartialEq, Eq, Structural, Debug)]
pub struct Vec3 {
    pub x: i64,
    pub y: i64,
    pub z: i64,
}

/// Every component lies in `[-b, b]`.
pub open spec fn bounded(v: Vec3, b: int) -> bool {
    &&& -b <= v.x <= b
    &&& -b <= v.y <= b
    &&& -b <= v.z <= b
}

pub open spec fn add_spec(a: Vec3, b: Vec3) -> Vec3 {
    Vec3 { x: (a.x + b.x) as i64, y: (a.y + b.y) as i64, z: (a.z + b.z) as i64 }
}

pub open spec fn sub_spec(a: Vec3, b: Vec3) -> Vec3 {
    Vec3 { x: (a.x - b.x) as i64, y: (a.y - b.y) as i64, z: (a.z - b.z) as i64 }
}

pub open spec fn mul_spec(a: Vec3, b: Vec3) -> Vec3 {
    Vec3 { x: (a.x * b.x) as i64, y: (a.y * b.y) as i64, z: (a.z * b.z) as i64 }
}

pub open spec fn scale_spec(v: Vec3, s: int) -> Vec3 {
    Vec3 { x: (v.x * s) as i64, y: (v.y * s) as i64, z: (v.z * s) as i64 }
}

pub open spec fn dot_spec(a: Vec3, b: Vec3) -> int {
    a.x * b.x + a.y * b.y + a.z * b.z
}

/// The squared length of `v`.
pub open spec fn norm2_spec(v: Vec3) -> int {
    dot_spec(v, v)
}

/// Integer square root, truncated: the greatest `r` with `r * r <= n`.
pub open spec fn isqrt_spec(n: int) -> int
    decreases n,
{
    if n < 1 {
        0
    } else {
        let r = isqrt_spec(n - 1);
        if (r + 1) * (r + 1) <= n {
            r + 1
        } else {
            r
        }
    }
}

/// Division truncated toward zero, as the executable code performs it.
pub open spec fn div_trunc(a: int, b: int) -> int {
    if a >= 0 {
        a / b
    } else {
        -((-a) / b)
    }
}

/// The truncated length of `v`.
pub open spec fn mag_spec(v: Vec3) -> int {
    isqrt_spec(norm2_spec(v))
}

/// `v` rescaled so that a vector of length one has magnitude `UNIT`,
/// components truncated toward zero.
pub open spec fn normalize_spec(v: Vec3) -> Vec3 {
    Vec3 {
        x: div_trunc(v.x * UNIT, mag_spec(v)) as i64,
        y: div_trunc(v.y * UNIT, mag_spec(v)) as i64,
        z: div_trunc(v.z * UNIT, mag_spec(v)) as i64,
    }
}

/// `isqrt_spec(n)` really is the truncated square root of `n`.
pub proof fn lemma_isqrt_bounds(n: int)
    requires
        n >= 0,
    ensures
        0 <= isqrt_spec(n),
        isqrt_spec(n) * isqrt_spec(n) <= n,
        n < (isqrt_spec(n) + 1) * (isqrt_spec(n) + 1),
    decreases n,
{
    if n < 1 {
        assert(isqrt_spec(n) == 0);
    } else {
        lemma_isqrt_bounds(n - 1);
        let r = isqrt_spec(n - 1);
        if (r + 1) * (r + 1) <= n {
            assert(n - 1 < (r + 1) * (r + 1));
            assert(n < (r + 2) * (r + 2)) by (nonlinear_arith)
                requires
                    0 <= r,
                    n <= (r + 1) * (r + 1),
            ;
        }
    }
}

/// Only one non-negative integer sits between the two squares.
pub proof fn lemma_isqrt_unique(n: int, r: int)
    requires
        n >= 0,
        r >= 0,
        r * r <= n,
        n < (r + 1) * (r + 1),
    ensures
        r == isqrt_spec(n),
{
    lemma_isqrt_bounds(n);
    let s = isqrt_spec(n);
    assert(r == s) by (nonlinear_arith)
        requires
            r >= 0,
            s >= 0,
            r * r <= n,
            n < (r + 1) * (r + 1),
            s * s <= n,
            n < (s + 1) * (s + 1),
    ;
}

/// Truncated division shrinks magnitudes: a numerator within `amax` divided
/// by anything at least `bmin` stays within `amax / bmin`.
pub proof fn lemma_div_trunc_bound(a: int, b: int, amax: int, bmin: int)
    requires
        -amax <= a <= amax,
        0 <= amax,
        1 <= bmin <= b,
    ensures
        -(amax / bmin) <= div_trunc(a, b) <= amax / bmin,
{
    if a >= 0 {
        lemma_div_pos_is_pos(a, b);
        lemma_div_is_ordered_by_denominator(a, bmin, b);
        lemma_div_is_ordered(a, amax, bmin);
        lemma_div_pos_is_pos(amax, bmin);
    } else {
        lemma_div_pos_is_pos(-a, b);
        lemma_div_is_ordered_by_denominator(-a, bmin, b);
        lemma_div_is_ordered(-a, amax, bmin);
        lemma_div_pos_is_pos(amax, bmin);
    }
}

/// Integer square root, truncated toward zero.
pub fn isqrt(n: u64) -> (r: u64)
    ensures
        r * r <= n < (r + 1) * (r + 1),
        r as int == isqrt_spec(n as int),
{
    let mut lo: u64 = 0;
    let mut hi: u64 = 0x1_0000_0000;
    proof {
        assert((0x1_0000_0000u64 as int) * (0x1_0000_0000u64 as int) == 0x1_0000_0000_0000_0000int);
    }
    while lo + 1 < hi
        invariant
            lo < hi,
            hi <= 0x1_0000_0000u64,
            (lo as int) * (lo as int) <= n as int,
            (n as int) < (hi as int) * (hi as int),
        decreases hi - lo,
    {
        let mid = lo + (hi - lo) / 2;
        proof {
            assert((mid as int) * (mid as int) <= 0xFFFF_FFFFu64 * 0xFFFF_FFFFu64)
                by (nonlinear_arith)
                requires
                    0 <= mid as int <= 0xFFFF_FFFFu64,
            ;
        }
        if mid * mid <= n {
            lo = mid;
        } else {
            hi = mid;
        }
    }
    proof {
        lemma_isqrt_unique(n as int, lo as int);
    }
    lo
}

/// Division truncated toward zero, the quotient the hardware would give.
pub(crate) fn div_trunc_i64(a: i64, b: i64) -> (r: i64)
    requires
        b >= 1,
        a > i64::MIN,
    ensures
        r as int == div_trunc(a as int, b as int),
{
    if a >= 0 {
        proof {
            lemma_div_pos_is_pos(a as int, b as int);
            lemma_div_is_ordered_by_denominator(a as int, 1, b as int);
        }
        ((a as u64) / (b as u64)) as i64
    } else {
        proof {
            lemma_div_pos_is_pos(-(a as int), b as int);
            lemma_div_is_ordered_by_denominator(-(a as int), 1, b as int);
        }
        -((((-a) as u64) / (b as u64)) as i64)
    }
}

impl Vec3 {
    pub fn new(x: i64, y: i64, z: i64) -> (v: Vec3)
        ensures
            v == (Vec3 { x, y, z }),
    {
        Vec3 { x, y, z }
    }

    /// Component-wise sum.
    pub fn add(self, other: Vec3) -> (r: Vec3)
        requires
            bounded(self, 0x3FFF_FFFF_FFFF_FFFF),
            bounded(other, 0x3FFF_FFFF_FFFF_FFFF),
        ensures
            r == add_spec(self, other),
    {
        Vec3 { x: self.x + other.x, y: self.y + other.y, z: self.z + other.z }
    }

    /// Component-wise difference.
    pub fn sub(self, other: Vec3) -> (r: Vec3)
        requires
            bounded(self, 0x3FFF_FFFF_FFFF_FFFF),
            bounded(other, 0x3FFF_FFFF_FFFF_FFFF),
        ensures
            r == sub_spec(self, other),
    {
        Vec3 { x: self.x - other.x, y: self.y - other.y, z: self.z - other.z }
    }

    /// Component-wise product.
    pub fn mul(self, other: Vec3) -> (r: Vec3)
        requires
            bounded(self, VMAX as int),
            bounded(other, VMAX as int),
        ensures
            r == mul_spec(self, other),
    {
        proof {
            lemma_bounded_products(self, other);
        }
        Vec3 { x: self.x * other.x, y: self.y * other.y, z: self.z * other.z }
    }

    /// Every component multiplied by the integer `s`.
    pub fn scale(self, s: i64) -> (r: Vec3)
        requires
            bounded(self, VMAX as int),
            -VMAX <= s <= VMAX,
        ensures
            r == scale_spec(self, s as int),
    {
        proof {
            lemma_bounded_products(self, Vec3 { x: s, y: s, z: s });
        }
        Vec3 { x: self.x * s, y: self.y * s, z: self.z * s }
    }

    /// The dot product.
    pub fn dot(self, other: Vec3) -> (r: i64)
        requires
            bounded(self, VMAX as int),
            bounded(other, VMAX as int),
        ensures
            r as int == dot_spec(self, other),
    {
        proof {
            lemma_bounded_products(self, other);
        }
        self.x * other.x + self.y * other.y + self.z * other.z
    }
}

/// Products of components bounded by `VMAX` fit comfortably in `i64`.
proof fn lemma_bounded_products(a: Vec3, b: Vec3)
    requires
        bounded(a, VMAX as int),
        bounded(b, VMAX as int),
    ensures
        -0x1000_0000_0000_0000 <= a.x * b.x <= 0x1000_0000_0000_0000,
        -0x1000_0000_0000_0000 <= a.y * b.y <= 0x1000_0000_0000_0000,
        -0x1000_0000_0000_0000 <= a.z * b.z <= 0x1000_0000_0000_0000,
{
    assert(-0x1000_0000_0000_0000 <= a.x * b.x <= 0x1000_0000_0000_0000
        && -0x1000_0000_0000_0000 <= a.y * b.y <= 0x1000_0000_0000_0000
        && -0x1000_0000_0000_0000 <= a.z * b.z <= 0x1000_0000_0000_0000) by (nonlinear_arith)
        requires
            bounded(a, VMAX as int),
            bounded(b, VMAX as int),
    ;
}

/// The squared length of a bounded vector is non-negative and fits `i64`.
pub proof fn lemma_norm2_bounds(v: Vec3)
    requires
        bounded(v, VMAX as int),
    ensures
        0 <= norm2_spec(v) <= 0x3000_0000_0000_0000,
        v.x * v.x <= norm2_spec(v),
        v.y * v.y <= norm2_spec(v),
        v.z * v.z <= norm2_spec(v),
{
    assert(0 <= v.x * v.x + v.y * v.y + v.z * v.z <= 0x3000_0000_0000_0000
        && v.x * v.x >= 0 && v.y * v.y >= 0 && v.z * v.z >= 0) by (nonlinear_arith)
        requires
            bounded(v, VMAX as int),
    ;
}

/// The truncated length of `v`.
pub fn magnitude(v: Vec3) -> (r: i64)
    requires
        bounded(v, VMAX as int),
    ensures
        r as int == mag_spec(v),
        0 <= r <= 0x8000_0000i64,
{
    proof {
        lemma_norm2_bounds(v);
    }
    let n2 = v.dot(v);
    let r = isqrt(n2 as u64);
    proof {
        assert(r as int <= 0x8000_0000) by (nonlinear_arith)
            requires
                (r as int) * (r as int) <= 0x3000_0000_0000_0000,
                0 <= r as int,
        ;
    }
    r as i64
}

/// Rescale `v` so that a vector of length one has magnitude `UNIT`; each
/// component of the result is truncated toward zero and no larger in
/// magnitude than `UNIT`.
pub fn normalize(vector: Vec3) -> (r: Vec3)
    requires
        bounded(vector, VMAX as int),
        norm2_spec(vector) >= 1,
    ensures
        r == normalize_spec(vector),
        bounded(r, UNIT as int),
{
    proof {
        lemma_norm2_bounds(vector);
        lemma_isqrt_bounds(norm2_spec(vector));
        if isqrt_spec(norm2_spec(vector)) == 0 {
            assert(norm2_spec(vector) < (0 + 1) * (0 + 1));
        }
        assert(mag_spec(vector) >= 1);
    }
    let bar = magnitude(vector);
    proof {
        lemma_component_within_unit(vector, bar as int);
    }
    let rx = div_trunc_i64(vector.x * UNIT, bar);
    let ry = div_trunc_i64(vector.y * UNIT, bar);
    let rz = div_trunc_i64(vector.z * UNIT, bar);
    Vec3 { x: rx, y: ry, z: rz }
}

/// Each component of `v` scaled by `UNIT` and divided by the magnitude of
/// `v` lands in `[-UNIT, UNIT]`, because no component exceeds the length.
proof fn lemma_component_within_unit(v: Vec3, bar: int)
    requires
        bounded(v, VMAX as int),
        bar == mag_spec(v),
        bar >= 1,
    ensures
        -(UNIT as int) <= div_trunc(v.x * UNIT, bar) <= UNIT as int,
        -(UNIT as int) <= div_trunc(v.y * UNIT, bar) <= UNIT as int,
        -(UNIT as int) <= div_trunc(v.z * UNIT, bar) <= UNIT as int,
        -0x2000_0000_0000_0000 <= v.x * UNIT <= 0x2000_0000_0000_0000,
        -0x2000_0000_0000_0000 <= v.y * UNIT <= 0x2000_0000_0000_0000,
        -0x2000_0000_0000_0000 <= v.z * UNIT <= 0x2000_0000_0000_0000,
{
    lemma_norm2_bounds(v);
    lemma_isqrt_bounds(norm2_spec(v));
    assert(bar <= 0x8000_0000) by (nonlinear_arith)
        requires
            0 <= bar,
            bar * bar <= 0x3000_0000_0000_0000,
    ;
    // the magnitude dominates the absolute value of every component
    assert(-bar <= v.x <= bar && -bar <= v.y <= bar && -bar <= v.z <= bar) by (nonlinear_arith)
        requires
            v.x * v.x <= norm2_spec(v),
            v.y * v.y <= norm2_spec(v),
            v.z * v.z <= norm2_spec(v),
            norm2_spec(v) < (bar + 1) * (bar + 1),
            0 <= bar,
    ;
    assert(-(bar * UNIT) <= v.x * UNIT <= bar * UNIT
        && -(bar * UNIT) <= v.y * UNIT <= bar * UNIT
        && -(bar * UNIT) <= v.z * UNIT <= bar * UNIT
        && 0 <= bar * UNIT <= 0x2000_0000_0000_0000) by (nonlinear_arith)
        requires
            -bar <= v.x <= bar,
            -bar <= v.y <= bar,
            -bar <= v.z <= bar,
            1 <= bar <= 0x8000_0000,
    ;
    assert((bar * UNIT) / bar == UNIT) by (nonlinear_arith)
        requires
            bar >= 1,
    ;
    lemma_div_trunc_bound(v.x * UNIT, bar, bar * UNIT, bar);
    lemma_div_trunc_bound(v.y * UNIT, bar, bar * UNIT, bar);
    lemma_div_trunc_bound(v.z * UNIT, bar, bar * UNIT, bar);
}

/// Truncated division against its divisor: the quotient's magnitude times
/// the divisor brackets the numerator's magnitude.
proof fn lemma_div_trunc_window(a: int, m: int)
    requires
        m >= 1,
    ensures
        abs(div_trunc(a, m)) * m <= abs(a),
        abs(a) < (abs(div_trunc(a, m)) + 1) * m,
        0 <= abs(div_trunc(a, m)),
{
    if a >= 0 {
        let q = a / m;
        lemma_div_pos_is_pos(a, m);
        vstd::arithmetic::div_mod::lemma_fundamental_div_mod(a, m);
        assert((q + 1) * m == q * m + m) by (nonlinear_arith);
        assert(q * m == m * q) by (nonlinear_arith);
    } else {
        let q = (-a) / m;
        lemma_div_pos_is_pos(-a, m);
        vstd::arithmetic::div_mod::lemma_fundamental_div_mod(-a, m);
        assert((q + 1) * m == q * m + m) by (nonlinear_arith);
        assert(q * m == m * q) by (nonlinear_arith);
    }
}

/// Truncated division leaves a remainder smaller than the divisor:
/// `a - div_trunc(a, m) * m` lies strictly within `(-m, m)`.
proof fn lemma_div_trunc_remainder(a: int, m: int)
    requires
        m >= 1,
    ensures
        -m < a - div_trunc(a, m) * m < m,
{
    if a >= 0 {
        let q = a / m;
        vstd::arithmetic::div_mod::lemma_fundamental_div_mod(a, m);
        assert(q * m == m * q) by (nonlinear_arith);
    } else {
        let q = (-a) / m;
        vstd::arithmetic::div_mod::lemma_fundamental_div_mod(-a, m);
        assert((-q) * m == -(m * q)) by (nonlinear_arith);
    }
}

/// Normalizing any vector at least an eighth of a unit long gives a vector
/// whose magnitude is `UNIT` within a tolerance of eight, and within
/// `-4..+2` once the vector is at least half a unit long: the fixed-point
/// form of "a normalized vector has length one". Shorter vectors are too
/// coarse for the claim and are left out.
pub proof fn lemma_normalize_unit_magnitude(v: Vec3)
    requires
        bounded(v, VMAX as int),
        norm2_spec(v) >= 0x400_0000,
    ensures
        UNIT - 4 <= mag_spec(normalize_spec(v)) <= UNIT + 8,
        norm2_spec(v) >= 0x4000_0000 ==> mag_spec(normalize_spec(v)) <= UNIT + 2,
{
    let n = norm2_spec(v);
    let m = mag_spec(v);
    let u = UNIT as int;
    lemma_norm2_bounds(v);
    lemma_isqrt_bounds(n);
    lemma_isqrt_lower(n, 0x2000);
    assert(m <= 0x8000_0000) by (nonlinear_arith)
        requires
            0 <= m,
            m * m <= 0x3000_0000_0000_0000,
    ;
    lemma_component_within_unit(v, m);
    let r = normalize_spec(v);
    let sx = abs(r.x as int);
    let sy = abs(r.y as int);
    let sz = abs(r.z as int);
    lemma_div_trunc_window(v.x * u, m);
    lemma_div_trunc_window(v.y * u, m);
    lemma_div_trunc_window(v.z * u, m);
    assert(sx == abs(div_trunc(v.x * u, m)) && sy == abs(div_trunc(v.y * u, m))
        && sz == abs(div_trunc(v.z * u, m)));
    let ax = abs(v.x * u);
    let ay = abs(v.y * u);
    let az = abs(v.z * u);
    // square the per-component windows
    assert(sx * sx * (m * m) <= (v.x * u) * (v.x * u)
        && (v.x * u) * (v.x * u) < (sx + 1) * (sx + 1) * (m * m)) by (nonlinear_arith)
        requires
            0 <= sx,
            m >= 1,
            0 <= ax,
            ax == v.x * u || ax == -(v.x * u),
            sx * m <= ax,
            ax < (sx + 1) * m,
    ;
    assert(sy * sy * (m * m) <= (v.y * u) * (v.y * u)
        && (v.y * u) * (v.y * u) < (sy + 1) * (sy + 1) * (m * m)) by (nonlinear_arith)
        requires
            0 <= sy,
            m >= 1,
            0 <= ay,
            ay == v.y * u || ay == -(v.y * u),
            sy * m <= ay,
            ay < (sy + 1) * m,
    ;
    assert(sz * sz * (m * m) <= (v.z * u) * (v.z * u)
        && (v.z * u) * (v.z * u) < (sz + 1) * (sz + 1) * (m * m)) by (nonlinear_arith)
        requires
            0 <= sz,
            m >= 1,
            0 <= az,
            az == v.z * u || az == -(v.z * u),
            sz * m <= az,
            az < (sz + 1) * m,
    ;
    // the squared numerators sum to u^2 * n
    assert((v.x * u) * (v.x * u) == (u * u) * (v.x * v.x)) by (nonlinear_arith);
    assert((v.y * u) * (v.y * u) == (u * u) * (v.y * v.y)) by (nonlinear_arith);
    assert((v.z * u) * (v.z * u) == (u * u) * (v.z * v.z)) by (nonlinear_arith);
    assert((u * u) * (v.x * v.x) + (u * u) * (v.y * v.y) + (u * u) * (v.z * v.z)
        == (u * u) * n) by (nonlinear_arith)
        requires
            n == v.x * v.x + v.y * v.y + v.z * v.z,
    ;
    assert((v.x * u) * (v.x * u) + (v.y * u) * (v.y * u) + (v.z * u) * (v.z * u)
        == (u * u) * n);
    let s2 = sx * sx + sy * sy + sz * sz;
    let t2 = (sx + 1) * (sx + 1) + (sy + 1) * (sy + 1) + (sz + 1) * (sz + 1);
    assert(s2 * (m * m) <= (u * u) * n && (u * u) * n < t2 * (m * m)) by (nonlinear_arith)
        requires
            sx * sx * (m * m) <= (v.x * u) * (v.x * u),
            sy * sy * (m * m) <= (v.y * u) * (v.y * u),
            sz * sz * (m * m) <= (v.z * u) * (v.z * u),
            (v.x * u) * (v.x * u) < (sx + 1) * (sx + 1) * (m * m),
            (v.y * u) * (v.y * u) < (sy + 1) * (sy + 1) * (m * m),
            (v.z * u) * (v.z * u) < (sz + 1) * (sz + 1) * (m * m),
            (v.x * u) * (v.x * u) + (v.y * u) * (v.y * u) + (v.z * u) * (v.z * u)
                == (u * u) * n,
            s2 == sx * sx + sy * sy + sz * sz,
            t2 == (sx + 1) * (sx + 1) + (sy + 1) * (sy + 1) + (sz + 1) * (sz + 1),
    ;
    // lower bound: u^2 * n is at least u^2 * m^2, so t2 exceeds u^2
    assert(t2 > u * u) by (nonlinear_arith)
        requires
            m >= 1,
            m * m <= n,
            (u * u) * n < t2 * (m * m),
            u == 65536,
    ;
    assert(s2 >= u * u - 6 * u - 2) by (nonlinear_arith)
        requires
            t2 == (sx + 1) * (sx + 1) + (sy + 1) * (sy + 1) + (sz + 1) * (sz + 1),
            s2 == sx * sx + sy * sy + sz * sz,
            t2 > u * u,
            0 <= sx <= u,
            0 <= sy <= u,
            0 <= sz <= u,
    ;
    // upper bound: n is under (m + 1)^2, and m is at least u / 8
    assert(s2 < (u + 8) * (u + 8)) by (nonlinear_arith)
        requires
            s2 * (m * m) <= (u * u) * n,
            n < (m + 1) * (m + 1),
            0x2000 <= m,
            u == 65536,
            0 <= s2,
    ;
    assert(norm2_spec(r) == s2) by (nonlinear_arith)
        requires
            norm2_spec(r) == (r.x as int) * (r.x as int) + (r.y as int) * (r.y as int)
                + (r.z as int) * (r.z as int),
            sx == r.x as int || sx == -(r.x as int),
            sy == r.y as int || sy == -(r.y as int),
            sz == r.z as int || sz == -(r.z as int),
            s2 == sx * sx + sy * sy + sz * sz,
    ;
    lemma_isqrt_lower(norm2_spec(r), u - 4);
    lemma_isqrt_upper(norm2_spec(r), u + 8);
    if n >= 0x4000_0000 {
        lemma_isqrt_lower(n, 0x8000);
        assert(s2 < (u + 2) * (u + 2)) by (nonlinear_arith)
            requires
                s2 * (m * m) <= (u * u) * n,
                n < (m + 1) * (m + 1),
                0x8000 <= m,
                u == 65536,
                0 <= s2,
        ;
        lemma_isqrt_upper(norm2_spec(r), u + 2);
    }
}

/// A product of values bounded by `am` and `bm` is bounded by `am * bm`.
pub proof fn lemma_mul_bound(a: int, b: int, am: int, bm: int)
    requires
        -am <= a <= am,
        -bm <= b <= bm,
        0 <= am,
        0 <= bm,
    ensures
        -(am * bm) <= a * b <= am * bm,
{
    assert(-(am * bm) <= a * b <= am * bm) by (nonlinear_arith)
        requires
            -am <= a <= am,
            -bm <= b <= bm,
            0 <= am,
            0 <= bm,
    ;
}

/// A dot product of vectors bounded by `am` and `bm` is bounded by
/// `3 * (am * bm)`.
pub proof fn lemma_dot_bound(a: Vec3, b: Vec3, am: int, bm: int)
    requires
        bounded(a, am),
        bounded(b, bm),
        0 <= am,
        0 <= bm,
    ensures
        -(3 * (am * bm)) <= dot_spec(a, b) <= 3 * (am * bm),
{
    assert(-(3 * (am * bm)) <= a.x * b.x + a.y * b.y + a.z * b.z <= 3 * (am * bm))
        by (nonlinear_arith)
        requires
            bounded(a, am),
            bounded(b, bm),
            0 <= am,
            0 <= bm,
    ;
}

/// If `n` is at most `c` squared, its truncated root is at most `c`.
pub proof fn lemma_isqrt_upper(n: int, c: int)
    requires
        0 <= n,
        0 <= c,
        n <= c * c,
    ensures
        isqrt_spec(n) <= c,
{
    lemma_isqrt_bounds(n);
    assert(isqrt_spec(n) <= c) by (nonlinear_arith)
        requires
            0 <= isqrt_spec(n),
            isqrt_spec(n) * isqrt_spec(n) <= n,
            n <= c * c,
            0 <= c,
    ;
}

/// If `c` squared is at most `n`, the truncated root of `n` is at least `c`.
pub proof fn lemma_isqrt_lower(n: int, c: int)
    requires
        0 <= c,
        c * c <= n,
    ensures
        c <= isqrt_spec(n),
{
    lemma_isqrt_bounds(n);
    assert(c <= isqrt_spec(n)) by (nonlinear_arith)
        requires
            0 <= c,
            c * c <= n,
            n < (isqrt_spec(n) + 1) * (isqrt_spec(n) + 1),
            0 <= isqrt_spec(n),
    ;
}

/// The dot product is symmetric, `add` and `mul` are commutative, and
/// scaling by one changes nothing.
pub proof fn lemma_vector_algebra(a: Vec3, b: Vec3, v: Vec3)
    ensures
        dot_spec(a, b) == dot_spec(b, a),
        add_spec(a, b) == add_spec(b, a),
        mul_spec(a, b) == mul_spec(b, a),
        scale_spec(v, 1) == v,
{
    assert(a.x * b.x == b.x * a.x && a.y * b.y == b.y * a.y && a.z * b.z == b.z * a.z
        && v.x * 1 == v.x && v.y * 1 == v.y && v.z * 1 == v.z) by (nonlinear_arith);
}

/// A sphere in the scene: its center and radius stay inside `POS_MAX`,
/// so the intersection arithmetic cannot overflow.
#[derive(Clone, Copy, PartialEq, Eq, Structural, Debug)]
pub struct Sphere {
    pub center: Vec3,
    pub radius: i64,
}

/// A usable ray direction: unit scale up to a factor of two in either
/// direction, stated over the squared length.
pub open spec fn dir_ok(d: Vec3) -> bool {
    &&& bounded(d, 2 * (UNIT as int))
    &&& 4 * dot_spec(d, d) >= (UNIT as int) * (UNIT as int)
}

/// Vector from the ray origin to the sphere's center.
pub open spec fn isect_u(s: Sphere, origin: Vec3) -> Vec3 {
    sub_spec(s.center, origin)
}

/// Truncated length of the direction vector (close to `UNIT` for a
/// normalized direction).
pub open spec fn isect_md(dir: Vec3) -> int {
    isqrt_spec(dot_spec(dir, dir))
}

/// Length of the projection of `u` onto the ray, in whole units.
pub open spec fn isect_t(s: Sphere, origin: Vec3, dir: Vec3) -> int {
    div_trunc(dot_spec(isect_u(s, origin), dir), isect_md(dir))
}

/// Offset from the origin to the point of the ray line closest to the
/// center.
pub open spec fn isect_qp0(s: Sphere, origin: Vec3, dir: Vec3) -> Vec3 {
    let t = isect_t(s, origin, dir);
    Vec3 {
        x: div_trunc(dir.x * t, UNIT as int) as i64,
        y: div_trunc(dir.y * t, UNIT as int) as i64,
        z: div_trunc(dir.z * t, UNIT as int) as i64,
    }
}

/// Squared distance from the center to the closest point of the ray line.
pub open spec fn isect_dist2(s: Sphere, origin: Vec3, dir: Vec3) -> int {
    let dv = sub_spec(isect_u(s, origin), isect_qp0(s, origin, dir));
    dot_spec(dv, dv)
}

/// The ray line passes within the sphere's radius of its center.
pub open spec fn isect_hit(s: Sphere, origin: Vec3, dir: Vec3) -> bool {
    isect_dist2(s, origin, dir) <= s.radius * s.radius
}

/// Parametric distance along the ray to the reported intersection point.
pub open spec fn isect_range(s: Sphere, origin: Vec3, dir: Vec3) -> int {
    isqrt_spec(dot_spec(isect_qp0(s, origin, dir), isect_qp0(s, origin, dir)))
        - isqrt_spec(s.radius * s.radius + isect_dist2(s, origin, dir))
}

/// The reported intersection point: the origin advanced `range` units
/// along the direction.
pub open spec fn isect_point(s: Sphere, origin: Vec3, dir: Vec3) -> Vec3 {
    let range = isect_range(s, origin, dir);
    add_spec(
        origin,
        Vec3 {
            x: div_trunc(dir.x * range, UNIT as int) as i64,
            y: div_trunc(dir.y * range, UNIT as int) as i64,
            z: div_trunc(dir.z * range, UNIT as int) as i64,
        },
    )
}

/// The exact offset from the center to the reported hit point, at `UNIT`
/// scale: `(origin - center) * UNIT + dir * range` with no truncation at
/// all.
pub open spec fn isect_offset(s: Sphere, origin: Vec3, dir: Vec3) -> Vec3 {
    let range = isect_range(s, origin, dir);
    Vec3 {
        x: ((origin.x - s.center.x) * UNIT + dir.x * range) as i64,
        y: ((origin.y - s.center.y) * UNIT + dir.y * range) as i64,
        z: ((origin.z - s.center.z) * UNIT + dir.z * range) as i64,
    }
}

/// The surface normal at the reported point. Where the exact `UNIT`-scale
/// offset from the center fits the fixed-point window it is normalized
/// directly, keeping sub-unit precision; for hit points thousands of units
/// out, the whole-unit offset is normalized instead, which is then long
/// enough to be just as accurate. The zero vector appears exactly when the
/// reported hit point is the sphere's center itself, the one configuration
/// in which the intersection formula defines no normal.
pub open spec fn isect_normal(s: Sphere, origin: Vec3, dir: Vec3) -> Vec3 {
    let ws = isect_offset(s, origin, dir);
    if bounded(ws, 0x2001_0000) {
        if norm2_spec(ws) >= 1 {
            normalize_spec(ws)
        } else {
            Vec3 { x: 0, y: 0, z: 0 }
        }
    } else {
        normalize_spec(sub_spec(isect_point(s, origin, dir), s.center))
    }
}

impl Sphere {
    /// Center and radius small enough for the intersection arithmetic.
    pub open spec fn wf(self) -> bool {
        &&& bounded(self.center, POS_MAX as int)
        &&& 1 <= self.radius <= POS_MAX
    }

    /// Move the sphere to a new depth, keeping x and y.
    pub fn update_z(&mut self, z: i64)
        ensures
            final(self).center == (Vec3 { x: old(self).center.x, y: old(self).center.y, z }),
            final(self).radius == old(self).radius,
    {
        self.center = Vec3 { x: self.center.x, y: self.center.y, z };
    }

    /// Whether the ray from `origin` along `dir` meets this sphere; on a
    /// hit, the parametric distance to the intersection point and the
    /// surface normal there. The ray line hits exactly when the squared
    /// perpendicular distance from the center is at most the squared
    /// radius; a tangent ray counts as a hit, and a range behind the
    /// origin is reported negative, not suppressed. Whenever the reported
    /// hit point lies at least an eighth of a unit from the center, the
    /// normal is unit length within `-4..+8` of `UNIT`; it is the zero
    /// vector exactly when the hit point is the center itself, the one
    /// configuration in which the formula defines no normal.
    pub fn intersect(&self, origin: Vec3, dir: Vec3) -> (res: Option<(i64, Vec3)>)
        requires
            self.wf(),
            bounded(origin, POS_MAX as int),
            dir_ok(dir),
        ensures
            res is Some <==> isect_hit(*self, origin, dir),
            res matches Some(rn) ==> rn.0 as int == isect_range(*self, origin, dir)
                && rn.1 == isect_normal(*self, origin, dir),
            res matches Some(rn) ==> (norm2_spec(isect_offset(*self, origin, dir)) >= 0x400_0000
                ==> UNIT - 4 <= mag_spec(rn.1) <= UNIT + 8),
            res matches Some(rn) ==> (norm2_spec(isect_offset(*self, origin, dir)) == 0
                ==> rn.1 == (Vec3 { x: 0, y: 0, z: 0 })),
    {
        proof {
            lemma_dot_bound(dir, dir, 2 * (UNIT as int), 2 * (UNIT as int));
        }
        let u = self.center.sub(origin);
        let dd = dir.dot(dir);
        let mdu = isqrt(dd as u64);
        proof {
            lemma_isqrt_lower(dd as int, 0x8000);
            lemma_isqrt_upper(dd as int, 0x40000);
            lemma_dot_bound(u, dir, 0x200000, 0x20000);
        }
        let md = mdu as i64;
        let ud = u.dot(dir);
        let t = div_trunc_i64(ud, md);
        proof {
            lemma_div_trunc_bound(ud as int, md as int, 0xC0_0000_0000, 0x8000);
            lemma_mul_bound(dir.x as int, t as int, 0x20000, 0x1800000);
            lemma_mul_bound(dir.y as int, t as int, 0x20000, 0x1800000);
            lemma_mul_bound(dir.z as int, t as int, 0x20000, 0x1800000);
            lemma_div_trunc_bound(dir.x * t, UNIT as int, 0x300_0000_0000, UNIT as int);
            lemma_div_trunc_bound(dir.y * t, UNIT as int, 0x300_0000_0000, UNIT as int);
            lemma_div_trunc_bound(dir.z * t, UNIT as int, 0x300_0000_0000, UNIT as int);
        }
        let qp0 = Vec3 {
            x: div_trunc_i64(dir.x * t, UNIT),
            y: div_trunc_i64(dir.y * t, UNIT),
            z: div_trunc_i64(dir.z * t, UNIT),
        };
        let dv = u.sub(qp0);
        proof {
            lemma_norm2_bounds(dv);
            lemma_dot_bound(dv, dv, 0x320_0000, 0x320_0000);
            lemma_mul_bound(self.radius as int, self.radius as int, 0x100000, 0x100000);
        }
        let dist2 = dv.dot(dv);
        if dist2 > self.radius * self.radius {
            None
        } else {
            proof {
                lemma_norm2_bounds(qp0);
                lemma_dot_bound(qp0, qp0, 0x300_0000, 0x300_0000);
            }
            let q2 = qp0.dot(qp0);
            let qlenu = isqrt(q2 as u64);
            proof {
                lemma_isqrt_upper(q2 as int, 0x800_0000);
            }
            let qlen = qlenu as i64;
            let rr = self.radius * self.radius + dist2;
            let rootu = isqrt(rr as u64);
            proof {
                lemma_isqrt_upper(rr as int, 0x800_0000);
            }
            let root = rootu as i64;
            proof {
                let range = qlen - root;
                lemma_mul_bound(dir.x as int, range as int, 0x20000, 0x800_0000);
                lemma_mul_bound(dir.y as int, range as int, 0x20000, 0x800_0000);
                lemma_mul_bound(dir.z as int, range as int, 0x20000, 0x800_0000);
                lemma_div_trunc_bound(dir.x * range, UNIT as int, 0x1000_0000_0000, UNIT as int);
                lemma_div_trunc_bound(dir.y * range, UNIT as int, 0x1000_0000_0000, UNIT as int);
                lemma_div_trunc_bound(dir.z * range, UNIT as int, 0x1000_0000_0000, UNIT as int);
            }
            let range = qlen - root;
            proof {
                lemma_mul_bound(origin.x - self.center.x, UNIT as int, 0x200000, 0x10000);
                lemma_mul_bound(origin.y - self.center.y, UNIT as int, 0x200000, 0x10000);
                lemma_mul_bound(origin.z - self.center.z, UNIT as int, 0x200000, 0x10000);
            }
            let ws = Vec3 {
                x: (origin.x - self.center.x) * UNIT + dir.x * range,
                y: (origin.y - self.center.y) * UNIT + dir.y * range,
                z: (origin.z - self.center.z) * UNIT + dir.z * range,
            };
            let normal: Vec3;
            if ws.x >= -0x2001_0000 && ws.x <= 0x2001_0000 && ws.y >= -0x2001_0000
                && ws.y <= 0x2001_0000 && ws.z >= -0x2001_0000 && ws.z <= 0x2001_0000 {
                proof {
                    lemma_norm2_bounds(ws);
                }
                let n2 = ws.dot(ws);
                normal = if n2 >= 1 {
                    normalize(ws)
                } else {
                    Vec3 { x: 0, y: 0, z: 0 }
                };
            } else {
                let pt = Vec3 {
                    x: origin.x + div_trunc_i64(dir.x * range, UNIT),
                    y: origin.y + div_trunc_i64(dir.y * range, UNIT),
                    z: origin.z + div_trunc_i64(dir.z * range, UNIT),
                };
                let w = pt.sub(self.center);
                proof {
                    lemma_offset_links(*self, origin, dir);
                    lemma_norm2_bounds(w);
                }
                normal = normalize(w);
            }
            proof {
                if norm2_spec(isect_offset(*self, origin, dir)) >= 0x400_0000 {
                    lemma_isect_normal_unit(*self, origin, dir);
                }
                if norm2_spec(isect_offset(*self, origin, dir)) == 0 {
                    let wss = isect_offset(*self, origin, dir);
                    assert(wss.x == 0 && wss.y == 0 && wss.z == 0) by (nonlinear_arith)
                        requires
                            wss.x * wss.x + wss.y * wss.y + wss.z * wss.z == 0,
                    ;
                }
            }
            Some((range, normal))
        }
    }
}

/// A ray cast from the sphere's own center always reports a hit: the
/// closest point of the ray line is the center itself, at perpendicular
/// distance zero, the reported range is exactly minus the radius, and the
/// returned normal is unit length up to fixed-point truncation.
pub proof fn lemma_center_ray_hits(s: Sphere, dir: Vec3)
    requires
        s.wf(),
        dir_ok(dir),
    ensures
        isect_hit(s, s.center, dir),
        isect_range(s, s.center, dir) == -s.radius,
        UNIT - 4 <= mag_spec(isect_normal(s, s.center, dir)) <= UNIT + 8,
{
    let u = isect_u(s, s.center);
    assert(u.x == 0 && u.y == 0 && u.z == 0);
    assert(u.x * dir.x == 0 && u.y * dir.y == 0 && u.z * dir.z == 0) by (nonlinear_arith)
        requires
            u.x == 0,
            u.y == 0,
            u.z == 0,
    ;
    assert(dot_spec(u, dir) == 0);
    lemma_isqrt_lower(dot_spec(dir, dir), 1);
    vstd::arithmetic::div_mod::lemma_div_of0(isect_md(dir));
    assert(isect_t(s, s.center, dir) == 0);
    let t = isect_t(s, s.center, dir);
    assert(dir.x * t == 0 && dir.y * t == 0 && dir.z * t == 0) by (nonlinear_arith)
        requires
            t == 0,
    ;
    vstd::arithmetic::div_mod::lemma_div_of0(UNIT as int);
    let qp0 = isect_qp0(s, s.center, dir);
    assert(qp0.x == 0 && qp0.y == 0 && qp0.z == 0);
    let dv = sub_spec(u, qp0);
    assert(dv.x == 0 && dv.y == 0 && dv.z == 0);
    assert(dv.x * dv.x == 0 && dv.y * dv.y == 0 && dv.z * dv.z == 0) by (nonlinear_arith)
        requires
            dv.x == 0,
            dv.y == 0,
            dv.z == 0,
    ;
    assert(isect_dist2(s, s.center, dir) == 0);
    assert(s.radius * s.radius >= 1) by (nonlinear_arith)
        requires
            s.radius >= 1,
    ;
    // the reported range: the offset to the closest point is zero, so the
    // range is minus the root of the radius squared
    assert(qp0.x * qp0.x == 0 && qp0.y * qp0.y == 0 && qp0.z * qp0.z == 0) by (nonlinear_arith)
        requires
            qp0.x == 0,
            qp0.y == 0,
            qp0.z == 0,
    ;
    assert(dot_spec(qp0, qp0) == 0);
    assert(isqrt_spec(0) == 0);
    assert(s.radius * s.radius < (s.radius + 1) * (s.radius + 1)) by (nonlinear_arith)
        requires
            s.radius >= 1,
    ;
    lemma_isqrt_unique(s.radius * s.radius, s.radius as int);
    assert(isect_range(s, s.center, dir) == -s.radius);
    // the exact offset is the direction scaled by minus the radius, so its
    // squared length is at least the radius squared times a quarter UNIT
    // squared: comfortably past the unit-normal threshold
    let ws = isect_offset(s, s.center, dir);
    lemma_mul_bound(dir.x as int, -(s.radius as int), 0x20000, 0x100000);
    lemma_mul_bound(dir.y as int, -(s.radius as int), 0x20000, 0x100000);
    lemma_mul_bound(dir.z as int, -(s.radius as int), 0x20000, 0x100000);
    assert(ws.x == dir.x * (-(s.radius as int)) && ws.y == dir.y * (-(s.radius as int))
        && ws.z == dir.z * (-(s.radius as int)));
    assert(norm2_spec(ws) >= 0x4000_0000) by (nonlinear_arith)
        requires
            norm2_spec(ws) == ws.x * ws.x + ws.y * ws.y + ws.z * ws.z,
            ws.x == dir.x * (-(s.radius as int)),
            ws.y == dir.y * (-(s.radius as int)),
            ws.z == dir.z * (-(s.radius as int)),
            dir.x * dir.x + dir.y * dir.y + dir.z * dir.z >= 0x4000_0000,
            s.radius >= 1,
    ;
    lemma_isect_normal_unit(s, s.center, dir);
}

/// What `intersect` reports stays small: the range fits well inside `i64`
/// and the normal is unit-scale. Callers that feed the result into further
/// fixed-point arithmetic rely on these windows.
pub proof fn lemma_isect_result_bounds(s: Sphere, origin: Vec3, dir: Vec3)
    requires
        s.wf(),
        bounded(origin, POS_MAX as int),
        dir_ok(dir),
    ensures
        -0x800_0000 <= isect_range(s, origin, dir) <= 0x800_0000,
        bounded(isect_normal(s, origin, dir), UNIT as int),
        bounded(sub_spec(isect_point(s, origin, dir), s.center), VMAX as int),
{
    lemma_dot_bound(dir, dir, 2 * (UNIT as int), 2 * (UNIT as int));
    lemma_isqrt_lower(dot_spec(dir, dir), 0x8000);
    let u = isect_u(s, origin);
    lemma_dot_bound(u, dir, 0x200000, 0x20000);
    lemma_div_trunc_bound(dot_spec(u, dir), isect_md(dir), 0xC0_0000_0000, 0x8000);
    let t = isect_t(s, origin, dir);
    lemma_mul_bound(dir.x as int, t, 0x20000, 0x1800000);
    lemma_mul_bound(dir.y as int, t, 0x20000, 0x1800000);
    lemma_mul_bound(dir.z as int, t, 0x20000, 0x1800000);
    lemma_div_trunc_bound(dir.x * t, UNIT as int, 0x300_0000_0000, UNIT as int);
    lemma_div_trunc_bound(dir.y * t, UNIT as int, 0x300_0000_0000, UNIT as int);
    lemma_div_trunc_bound(dir.z * t, UNIT as int, 0x300_0000_0000, UNIT as int);
    let qp0 = isect_qp0(s, origin, dir);
    lemma_norm2_bounds(qp0);
    lemma_dot_bound(qp0, qp0, 0x300_0000, 0x300_0000);
    let dv = sub_spec(u, qp0);
    lemma_norm2_bounds(dv);
    lemma_dot_bound(dv, dv, 0x320_0000, 0x320_0000);
    lemma_mul_bound(s.radius as int, s.radius as int, 0x100000, 0x100000);
    lemma_isqrt_bounds(dot_spec(qp0, qp0));
    lemma_isqrt_upper(dot_spec(qp0, qp0), 0x800_0000);
    let rr = s.radius * s.radius + isect_dist2(s, origin, dir);
    lemma_isqrt_bounds(rr);
    lemma_isqrt_upper(rr, 0x800_0000);
    let range = isect_range(s, origin, dir);
    lemma_mul_bound(dir.x as int, range, 0x20000, 0x800_0000);
    lemma_mul_bound(dir.y as int, range, 0x20000, 0x800_0000);
    lemma_mul_bound(dir.z as int, range, 0x20000, 0x800_0000);
    lemma_div_trunc_bound(dir.x * range, UNIT as int, 0x1000_0000_0000, UNIT as int);
    lemma_div_trunc_bound(dir.y * range, UNIT as int, 0x1000_0000_0000, UNIT as int);
    lemma_div_trunc_bound(dir.z * range, UNIT as int, 0x1000_0000_0000, UNIT as int);
    let pt = isect_point(s, origin, dir);
    let ws = isect_offset(s, origin, dir);
    if bounded(ws, 0x2001_0000) {
        if norm2_spec(ws) >= 1 {
            lemma_norm2_bounds(ws);
            lemma_isqrt_lower(norm2_spec(ws), 1);
            lemma_component_within_unit(ws, mag_spec(ws));
        }
    } else {
        lemma_offset_links(s, origin, dir);
        let w = sub_spec(pt, s.center);
        lemma_norm2_bounds(w);
        lemma_isqrt_lower(norm2_spec(w), 1);
        lemma_component_within_unit(w, mag_spec(w));
    }
}

/// Relates the exact `UNIT`-scale offset to the whole-unit offset: each
/// component of `isect_offset` is within `UNIT` of `UNIT` times the
/// matching component of the hit-point-minus-center vector, so an offset
/// past the fixed-point window forces a whole-unit offset of thousands of
/// units.
proof fn lemma_offset_links(s: Sphere, origin: Vec3, dir: Vec3)
    requires
        s.wf(),
        bounded(origin, POS_MAX as int),
        dir_ok(dir),
        -0x800_0000 <= isect_range(s, origin, dir) <= 0x800_0000,
    ensures
        !bounded(isect_offset(s, origin, dir), 0x2001_0000) ==> norm2_spec(
            sub_spec(isect_point(s, origin, dir), s.center),
        ) >= 0x400_0000,
{
    let range = isect_range(s, origin, dir);
    let ws = isect_offset(s, origin, dir);
    let pt = isect_point(s, origin, dir);
    let w = sub_spec(pt, s.center);
    lemma_mul_bound(dir.x as int, range, 0x20000, 0x800_0000);
    lemma_mul_bound(dir.y as int, range, 0x20000, 0x800_0000);
    lemma_mul_bound(dir.z as int, range, 0x20000, 0x800_0000);
    lemma_div_trunc_bound(dir.x * range, UNIT as int, 0x1000_0000_0000, UNIT as int);
    lemma_div_trunc_bound(dir.y * range, UNIT as int, 0x1000_0000_0000, UNIT as int);
    lemma_div_trunc_bound(dir.z * range, UNIT as int, 0x1000_0000_0000, UNIT as int);
    lemma_mul_bound(origin.x - s.center.x, UNIT as int, 0x200000, 0x10000);
    lemma_mul_bound(origin.y - s.center.y, UNIT as int, 0x200000, 0x10000);
    lemma_mul_bound(origin.z - s.center.z, UNIT as int, 0x200000, 0x10000);
    lemma_div_trunc_remainder(dir.x * range, UNIT as int);
    lemma_div_trunc_remainder(dir.y * range, UNIT as int);
    lemma_div_trunc_remainder(dir.z * range, UNIT as int);
    let qx = div_trunc(dir.x * range, UNIT as int);
    let qy = div_trunc(dir.y * range, UNIT as int);
    let qz = div_trunc(dir.z * range, UNIT as int);
    assert(w.x == origin.x + qx - s.center.x && w.y == origin.y + qy - s.center.y
        && w.z == origin.z + qz - s.center.z);
    assert((origin.x + qx - s.center.x) * UNIT == (origin.x - s.center.x) * UNIT + qx * UNIT
        && (origin.y + qy - s.center.y) * UNIT == (origin.y - s.center.y) * UNIT + qy * UNIT
        && (origin.z + qz - s.center.z) * UNIT == (origin.z - s.center.z) * UNIT + qz * UNIT)
        by (nonlinear_arith);
    assert(-65536 < ws.x - w.x * 65536 < 65536);
    assert(-65536 < ws.y - w.y * 65536 < 65536);
    assert(-65536 < ws.z - w.z * 65536 < 65536);
    if !bounded(ws, 0x2001_0000) {
        lemma_norm2_bounds(w);
        if !(-0x2001_0000 <= ws.x <= 0x2001_0000) {
            assert(w.x * w.x >= 0x400_0000) by (nonlinear_arith)
                requires
                    -65536 < ws.x - w.x * 65536 < 65536,
                    ws.x > 0x2001_0000 || ws.x < -0x2001_0000,
            ;
        } else if !(-0x2001_0000 <= ws.y <= 0x2001_0000) {
            assert(w.y * w.y >= 0x400_0000) by (nonlinear_arith)
                requires
                    -65536 < ws.y - w.y * 65536 < 65536,
                    ws.y > 0x2001_0000 || ws.y < -0x2001_0000,
            ;
        } else {
            assert(w.z * w.z >= 0x400_0000) by (nonlinear_arith)
                requires
                    -65536 < ws.z - w.z * 65536 < 65536,
                    ws.z > 0x2001_0000 || ws.z < -0x2001_0000,
            ;
        }
    }
}

/// Whenever the reported hit point stands at least an eighth of a unit
/// from the sphere's center, the reported normal has magnitude `UNIT`
/// within `-4..+8`: the returned surface normal is unit length up to
/// fixed-point truncation, for every admitted radius.
pub proof fn lemma_isect_normal_unit(s: Sphere, origin: Vec3, dir: Vec3)
    requires
        s.wf(),
        bounded(origin, POS_MAX as int),
        dir_ok(dir),
        norm2_spec(isect_offset(s, origin, dir)) >= 0x400_0000,
    ensures
        UNIT - 4 <= mag_spec(isect_normal(s, origin, dir)) <= UNIT + 8,
{
    lemma_isect_result_bounds(s, origin, dir);
    let ws = isect_offset(s, origin, dir);
    if bounded(ws, 0x2001_0000) {
        lemma_normalize_unit_magnitude(ws);
    } else {
        lemma_offset_links(s, origin, dir);
        let w = sub_spec(isect_point(s, origin, dir), s.center);
        lemma_normalize_unit_magnitude(w);
    }
}

} // verus!
