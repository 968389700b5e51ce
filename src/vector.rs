//! Fixed-point 3-vectors and their normalization.

use vstd::arithmetic::div_mod::{lemma_fundamental_div_mod, lemma_mod_bound};
use vstd::prelude::*;

verus! {

/// Fixed-point units in 1.0: a unit-length vector has length `ONE`.
pub const ONE: i64 = 65536;

/// Largest magnitude of a component that `normalize_vector3` accepts.
pub const COMPONENT_LIMIT: i64 = 1099511627776;

/// A 3-vector in fixed point, `ONE` units to 1.0.
#[derive(Clone, Copy, PartialEq, Eq, Structural, Debug)]
pub struct FixedVec3 {
    pub x: i64,
    pub y: i64,
    pub z: i64,
}

impl FixedVec3 {
    pub fn new(x: i64, y: i64, z: i64) -> (v: FixedVec3)
        ensures
            v == (FixedVec3 { x, y, z }),
    {
        FixedVec3 { x, y, z }
    }

    pub open spec fn bounded(self) -> bool {
        &&& -COMPONENT_LIMIT <= self.x <= COMPONENT_LIMIT
        &&& -COMPONENT_LIMIT <= self.y <= COMPONENT_LIMIT
        &&& -COMPONENT_LIMIT <= self.z <= COMPONENT_LIMIT
    }

    /// The squared length.
    pub open spec fn norm2(self) -> int {
        self.x * self.x + self.y * self.y + self.z * self.z
    }
}

/// `c` is within `COMPONENT_LIMIT` in magnitude.
pub fn fits_component(c: i64) -> (r: bool)
    ensures
        r == (-COMPONENT_LIMIT <= c <= COMPONENT_LIMIT),
{
    -COMPONENT_LIMIT <= c && c <= COMPONENT_LIMIT
}

/// `r` is the integer square root of `n`.
pub open spec fn is_isqrt(n: int, r: int) -> bool {
    0 <= r && r * r <= n < (r + 1) * (r + 1)
}

/// `a / d` rounded toward zero, for a positive `d`.
pub open spec fn div_toward_zero(a: int, d: int) -> int {
    if a >= 0 {
        a / d
    } else {
        -((-a) / d)
    }
}

/// The vector scaled to length `ONE`, each component rounded toward zero;
/// the zero vector stays zero.
pub open spec fn normalized(v: FixedVec3, len: int) -> FixedVec3 {
    if len == 0 {
        v
    } else {
        FixedVec3 {
            x: div_toward_zero(v.x * ONE, len) as i64,
            y: div_toward_zero(v.y * ONE, len) as i64,
            z: div_toward_zero(v.z * ONE, len) as i64,
        }
    }
}

/// The integer square root of a non-negative `n`.
pub open spec fn isqrt_of(n: int) -> int {
    choose|r: int| is_isqrt(n, r)
}

/// `v` with each component multiplied by `ONE`.
pub open spec fn lift(v: FixedVec3) -> FixedVec3 {
    FixedVec3 { x: (v.x * ONE) as i64, y: (v.y * ONE) as i64, z: (v.z * ONE) as i64 }
}

/// `v` scaled to length `ONE`: each component times `ONE * ONE`, divided by
/// the integer square root of `ONE * ONE` times the squared length, rounded
/// toward zero. The zero vector stays zero.
pub open spec fn unit(v: FixedVec3) -> FixedVec3 {
    normalized(lift(v), isqrt_of(lift(v).norm2()))
}

/// Lifting a bounded vector multiplies each component, and the squared
/// length by `ONE * ONE`, without overflow.
pub proof fn lemma_lift(v: FixedVec3)
    requires
        v.bounded(),
    ensures
        lift(v).x == v.x * ONE,
        lift(v).y == v.y * ONE,
        lift(v).z == v.z * ONE,
        lift(v).norm2() == ONE * ONE * v.norm2(),
        0 <= v.norm2(),
{
    let l = COMPONENT_LIMIT as int;
    assert(-(l * ONE) <= v.x * ONE <= l * ONE) by (nonlinear_arith)
        requires
            -l <= v.x <= l,
    ;
    assert(-(l * ONE) <= v.y * ONE <= l * ONE) by (nonlinear_arith)
        requires
            -l <= v.y <= l,
    ;
    assert(-(l * ONE) <= v.z * ONE <= l * ONE) by (nonlinear_arith)
        requires
            -l <= v.z <= l,
    ;
    let (x, y, z) = (v.x as int, v.y as int, v.z as int);
    assert((x * ONE) * (x * ONE) + (y * ONE) * (y * ONE) + (z * ONE) * (z * ONE) == ONE * ONE * (x
        * x + y * y + z * z)) by (nonlinear_arith);
    assert(0 <= x * x + y * y + z * z) by (nonlinear_arith);
}

/// Every non-negative integer has an integer square root.
pub proof fn lemma_isqrt_exists(n: nat)
    ensures
        is_isqrt(n as int, isqrt_of(n as int)),
    decreases n,
{
    if n == 0 {
        assert(is_isqrt(0, 0));
    } else {
        lemma_isqrt_exists((n - 1) as nat);
        let r = isqrt_of(n - 1);
        if (r + 1) * (r + 1) <= n {
            assert((r + 1) * (r + 1) == n);
            assert((r + 2) * (r + 2) > n) by (nonlinear_arith)
                requires
                    (r + 1) * (r + 1) == n,
                    r >= 0,
            ;
            assert(is_isqrt(n as int, r + 1));
        } else {
            assert(is_isqrt(n as int, r));
        }
    }
}

/// A normalized bounded vector has every component within `ONE`, and the
/// zero vector normalizes to zero.
pub proof fn lemma_unit_within_one(v: FixedVec3)
    requires
        v.bounded(),
    ensures
        -ONE <= unit(v).x <= ONE,
        -ONE <= unit(v).y <= ONE,
        -ONE <= unit(v).z <= ONE,
        v.norm2() == 0 ==> unit(v) == (FixedVec3 { x: 0, y: 0, z: 0 }),
        v.norm2() == 0 ==> v == (FixedVec3 { x: 0, y: 0, z: 0 }),
        isqrt_of(lift(v).norm2()) > 0 ==> {
            &&& -ONE <= div_toward_zero(lift(v).x * ONE, isqrt_of(lift(v).norm2())) <= ONE
            &&& -ONE <= div_toward_zero(lift(v).y * ONE, isqrt_of(lift(v).norm2())) <= ONE
            &&& -ONE <= div_toward_zero(lift(v).z * ONE, isqrt_of(lift(v).norm2())) <= ONE
        },
        v.norm2() > 0 ==> isqrt_of(lift(v).norm2()) >= ONE,
        is_isqrt(lift(v).norm2(), isqrt_of(lift(v).norm2())),
{
    lemma_lift(v);
    let w = lift(v);
    let (x, y, z) = (w.x as int, w.y as int, w.z as int);
    assert(0 <= x * x && 0 <= y * y && 0 <= z * z) by (nonlinear_arith);
    lemma_isqrt_exists(w.norm2() as nat);
    let len = isqrt_of(w.norm2());
    if v.norm2() > 0 {
        assert(w.norm2() >= ONE * ONE) by (nonlinear_arith)
            requires
                w.norm2() == ONE * ONE * v.norm2(),
                v.norm2() >= 1,
        ;
        assert(len >= ONE) by (nonlinear_arith)
            requires
                w.norm2() < (len + 1) * (len + 1),
                w.norm2() >= ONE * ONE,
                len >= 0,
        ;
    }
    if len > 0 {
        lemma_component_le_length(x, y * y + z * z, len);
        lemma_component_le_length(y, x * x + z * z, len);
        lemma_component_le_length(z, x * x + y * y, len);
    } else {
        assert((len + 1) * (len + 1) == 1) by (nonlinear_arith)
            requires
                len == 0,
        ;
        assert(x == 0 && y == 0 && z == 0) by (nonlinear_arith)
            requires
                x * x + y * y + z * z < 1,
        ;
        assert(v.norm2() == 0) by (nonlinear_arith)
            requires
                x * x + y * y + z * z == ONE * ONE * v.norm2(),
                x == 0 && y == 0 && z == 0,
        ;
    }
    if v.norm2() == 0 {
        assert(w.norm2() == 0);
        assert(len == 0) by (nonlinear_arith)
            requires
                len * len <= 0,
                len >= 0,
        ;
        assert(x == 0 && y == 0 && z == 0) by (nonlinear_arith)
            requires
                x * x + y * y + z * z == 0,
                0 <= x * x && 0 <= y * y && 0 <= z * z,
        ;
        assert(v.x == 0 && v.y == 0 && v.z == 0) by (nonlinear_arith)
            requires
                x == v.x * ONE && y == v.y * ONE && z == v.z * ONE,
                x == 0 && y == 0 && z == 0,
        ;
    }
}

/// A non-zero bounded vector normalizes to unit length up to rounding: its
/// squared length lies strictly between `ONE * ONE - 6 * ONE - 3` and
/// `(ONE + 1) * (ONE + 1)`.
pub proof fn lemma_unit_length(v: FixedVec3)
    requires
        v.bounded(),
        v.norm2() > 0,
    ensures
        ONE * ONE - 6 * ONE - 3 < unit(v).norm2() < (ONE + 1) * (ONE + 1),
{
    lemma_unit_within_one(v);
    let w = lift(v);
    let len = isqrt_of(w.norm2());
    let n = w.norm2();
    lemma_lift(v);
    let o = ONE as int;
    let u = unit(v);
    let (q0, a0) = lemma_scaled_component(w.x as int, len);
    let (q1, a1) = lemma_scaled_component(w.y as int, len);
    let (q2, a2) = lemma_scaled_component(w.z as int, len);
    assert(u.x * u.x == q0 * q0 && u.y * u.y == q1 * q1 && u.z * u.z == q2 * q2) by (nonlinear_arith)
        requires
            u.x == q0 || u.x == -q0,
            u.y == q1 || u.y == -q1,
            u.z == q2 || u.z == -q2,
    ;
    assert(a0 * a0 + a1 * a1 + a2 * a2 == o * o * n) by (nonlinear_arith)
        requires
            a0 * a0 == w.x * w.x * (o * o),
            a1 * a1 == w.y * w.y * (o * o),
            a2 * a2 == w.z * w.z * (o * o),
            n == w.x * w.x + w.y * w.y + w.z * w.z,
    ;
    let sq = q0 * q0 + q1 * q1 + q2 * q2;
    // Lower bound: each scaled component is below (q + 1) * len.
    let (b0, b1, b2) = ((q0 + 1) * (q0 + 1), (q1 + 1) * (q1 + 1), (q2 + 1) * (q2 + 1));
    assert(a0 * a0 < len * len * b0) by (nonlinear_arith)
        requires
            0 <= a0 < (q0 + 1) * len,
            b0 == (q0 + 1) * (q0 + 1),
    ;
    assert(a1 * a1 < len * len * b1) by (nonlinear_arith)
        requires
            0 <= a1 < (q1 + 1) * len,
            b1 == (q1 + 1) * (q1 + 1),
    ;
    assert(a2 * a2 < len * len * b2) by (nonlinear_arith)
        requires
            0 <= a2 < (q2 + 1) * len,
            b2 == (q2 + 1) * (q2 + 1),
    ;
    assert(len * len * (b0 + b1 + b2) == len * len * b0 + len * len * b1 + len * len * b2)
        by (nonlinear_arith);
    assert(o * o * n < len * len * ((q0 + 1) * (q0 + 1) + (q1 + 1) * (q1 + 1) + (q2 + 1) * (q2 + 1)));
    assert(len * len * (o * o) <= len * len * ((q0 + 1) * (q0 + 1) + (q1 + 1) * (q1 + 1) + (q2 + 1)
        * (q2 + 1))) by (nonlinear_arith)
        requires
            len * len <= n,
            o * o * n < len * len * ((q0 + 1) * (q0 + 1) + (q1 + 1) * (q1 + 1) + (q2 + 1) * (q2 + 1)),
            o > 0,
    ;
    assert(o * o < (q0 + 1) * (q0 + 1) + (q1 + 1) * (q1 + 1) + (q2 + 1) * (q2 + 1)) by (nonlinear_arith)
        requires
            len * len * (o * o) <= len * len * ((q0 + 1) * (q0 + 1) + (q1 + 1) * (q1 + 1) + (q2 + 1)
                * (q2 + 1)),
            o * o * n < len * len * ((q0 + 1) * (q0 + 1) + (q1 + 1) * (q1 + 1) + (q2 + 1) * (q2 + 1)),
            len * len <= n,
            len > 0,
    ;
    assert(sq > o * o - 6 * o - 3) by (nonlinear_arith)
        requires
            o * o < (q0 + 1) * (q0 + 1) + (q1 + 1) * (q1 + 1) + (q2 + 1) * (q2 + 1),
            sq == q0 * q0 + q1 * q1 + q2 * q2,
            0 <= q0 <= o,
            0 <= q1 <= o,
            0 <= q2 <= o,
    ;
    if len >= o {
        assert(len * len * (q0 * q0) <= a0 * a0) by (nonlinear_arith)
            requires
                0 <= q0 * len <= a0,
        ;
        assert(len * len * (q1 * q1) <= a1 * a1) by (nonlinear_arith)
            requires
                0 <= q1 * len <= a1,
        ;
        assert(len * len * (q2 * q2) <= a2 * a2) by (nonlinear_arith)
            requires
                0 <= q2 * len <= a2,
        ;
        assert(len * len * sq == len * len * (q0 * q0) + len * len * (q1 * q1) + len * len * (q2
            * q2)) by (nonlinear_arith)
            requires
                sq == q0 * q0 + q1 * q1 + q2 * q2,
        ;
        assert(o * o * n < o * o * ((len + 1) * (len + 1))) by (nonlinear_arith)
            requires
                n < (len + 1) * (len + 1),
                o > 0,
        ;
        assert(len * len * sq < o * o * ((len + 1) * (len + 1)));
        if sq >= (o + 1) * (o + 1) {
            assert(len * len * ((o + 1) * (o + 1)) >= o * o * ((len + 1) * (len + 1)))
                by (nonlinear_arith)
                requires
                    len >= o,
                    o > 0,
            ;
            assert(len * len * sq >= len * len * ((o + 1) * (o + 1))) by (nonlinear_arith)
                requires
                    sq >= (o + 1) * (o + 1),
            ;
        }
    }
}

/// The magnitude `q` of a normalized component and the magnitude `a` of the
/// scaled component it comes from: `q * len <= a < (q + 1) * len`.
proof fn lemma_scaled_component(c: int, len: int) -> (r: (int, int))
    requires
        len > 0,
    ensures
        0 <= r.0,
        0 <= r.1,
        r.0 * len <= r.1 < (r.0 + 1) * len,
        r.1 * r.1 == c * c * (ONE * ONE),
        div_toward_zero(c * ONE, len) == r.0 || div_toward_zero(c * ONE, len) == -r.0,
{
    let a = if c >= 0 { c * ONE } else { -(c * ONE) };
    assert(a >= 0) by (nonlinear_arith)
        requires
            a == (if c >= 0 { c * ONE } else { -(c * ONE) }),
    ;
    assert(a * a == c * c * (ONE * ONE)) by (nonlinear_arith)
        requires
            a == c * ONE || a == -(c * ONE),
    ;
    lemma_fundamental_div_mod(a, len);
    lemma_mod_bound(a, len);
    let q = a / len;
    assert(0 <= q) by (nonlinear_arith)
        requires
            a == len * q + a % len,
            0 <= a % len < len,
            a >= 0,
            len > 0,
    ;
    assert(q * len <= a < (q + 1) * len) by (nonlinear_arith)
        requires
            a == len * q + a % len,
            0 <= a % len < len,
    ;
    if c < 0 {
        assert(c * ONE < 0 || c * ONE == 0) by (nonlinear_arith)
            requires
                c < 0,
        ;
        assert(c * ONE < 0) by (nonlinear_arith)
            requires
                c < 0,
        ;
    } else {
        assert(c * ONE >= 0) by (nonlinear_arith)
            requires
                c >= 0,
        ;
    }
    (q, a)
}

/// Lagrange's identity: |r x f|^2 == |r|^2 |f|^2 - (r . f)^2.
pub proof fn lemma_lagrange(rx: int, ry: int, rz: int, fx: int, fy: int, fz: int)
    ensures
        (ry * fz - rz * fy) * (ry * fz - rz * fy) + (rz * fx - rx * fz) * (rz * fx - rx * fz) + (rx
            * fy - ry * fx) * (rx * fy - ry * fx) == (rx * rx + ry * ry + rz * rz) * (fx * fx + fy * fy
            + fz * fz) - (rx * fx + ry * fy + rz * fz) * (rx * fx + ry * fy + rz * fz),
{
    let (x0, x1, x2) = (rx * rx, ry * ry, rz * rz);
    let (y0, y1, y2) = (fx * fx, fy * fy, fz * fz);
    let (p0, p1, p2) = (rx * fx, ry * fy, rz * fz);
    let m01 = (rx * ry) * (fx * fy);
    let m02 = (rx * rz) * (fx * fz);
    let m12 = (ry * rz) * (fy * fz);
    let (a1, b1) = (ry * fz, rz * fy);
    let (a2, b2) = (rz * fx, rx * fz);
    let (a3, b3) = (rx * fy, ry * fx);
    assert((a1 - b1) * (a1 - b1) == a1 * a1 - 2 * (a1 * b1) + b1 * b1) by (nonlinear_arith);
    assert((a2 - b2) * (a2 - b2) == a2 * a2 - 2 * (a2 * b2) + b2 * b2) by (nonlinear_arith);
    assert((a3 - b3) * (a3 - b3) == a3 * a3 - 2 * (a3 * b3) + b3 * b3) by (nonlinear_arith);
    assert(a1 * a1 == x1 * y2) by (nonlinear_arith)
        requires
            a1 == ry * fz,
            x1 == ry * ry,
            y2 == fz * fz,
    ;
    assert(b1 * b1 == x2 * y1) by (nonlinear_arith)
        requires
            b1 == rz * fy,
            x2 == rz * rz,
            y1 == fy * fy,
    ;
    assert(a1 * b1 == m12) by (nonlinear_arith)
        requires
            a1 == ry * fz,
            b1 == rz * fy,
            m12 == (ry * rz) * (fy * fz),
    ;
    assert(a2 * a2 == x2 * y0) by (nonlinear_arith)
        requires
            a2 == rz * fx,
            x2 == rz * rz,
            y0 == fx * fx,
    ;
    assert(b2 * b2 == x0 * y2) by (nonlinear_arith)
        requires
            b2 == rx * fz,
            x0 == rx * rx,
            y2 == fz * fz,
    ;
    assert(a2 * b2 == m02) by (nonlinear_arith)
        requires
            a2 == rz * fx,
            b2 == rx * fz,
            m02 == (rx * rz) * (fx * fz),
    ;
    assert(a3 * a3 == x0 * y1) by (nonlinear_arith)
        requires
            a3 == rx * fy,
            x0 == rx * rx,
            y1 == fy * fy,
    ;
    assert(b3 * b3 == x1 * y0) by (nonlinear_arith)
        requires
            b3 == ry * fx,
            x1 == ry * ry,
            y0 == fx * fx,
    ;
    assert(a3 * b3 == m01) by (nonlinear_arith)
        requires
            a3 == rx * fy,
            b3 == ry * fx,
            m01 == (rx * ry) * (fx * fy),
    ;
    assert((x0 + x1 + x2) * (y0 + y1 + y2) == x0 * y0 + x0 * y1 + x0 * y2 + x1 * y0 + x1 * y1 + x1
        * y2 + x2 * y0 + x2 * y1 + x2 * y2) by (nonlinear_arith);
    assert((p0 + p1 + p2) * (p0 + p1 + p2) == p0 * p0 + p1 * p1 + p2 * p2 + 2 * (p0 * p1) + 2 * (p0
        * p2) + 2 * (p1 * p2)) by (nonlinear_arith);
    assert(p0 * p0 == x0 * y0) by (nonlinear_arith)
        requires
            p0 == rx * fx,
            x0 == rx * rx,
            y0 == fx * fx,
    ;
    assert(p1 * p1 == x1 * y1) by (nonlinear_arith)
        requires
            p1 == ry * fy,
            x1 == ry * ry,
            y1 == fy * fy,
    ;
    assert(p2 * p2 == x2 * y2) by (nonlinear_arith)
        requires
            p2 == rz * fz,
            x2 == rz * rz,
            y2 == fz * fz,
    ;
    assert(p0 * p1 == m01) by (nonlinear_arith)
        requires
            p0 == rx * fx,
            p1 == ry * fy,
            m01 == (rx * ry) * (fx * fy),
    ;
    assert(p0 * p2 == m02) by (nonlinear_arith)
        requires
            p0 == rx * fx,
            p2 == rz * fz,
            m02 == (rx * rz) * (fx * fz),
    ;
    assert(p1 * p2 == m12) by (nonlinear_arith)
        requires
            p1 == ry * fy,
            p2 == rz * fz,
            m12 == (ry * rz) * (fy * fz),
    ;
}

/// Integer square roots are unique.
pub proof fn lemma_isqrt_unique(n: int, r1: int, r2: int)
    requires
        is_isqrt(n, r1),
        is_isqrt(n, r2),
    ensures
        r1 == r2,
{
    if r1 < r2 {
        assert((r1 + 1) * (r1 + 1) <= r2 * r2) by (nonlinear_arith)
            requires
                0 <= r1 + 1 <= r2,
        ;
    } else if r2 < r1 {
        assert((r2 + 1) * (r2 + 1) <= r1 * r1) by (nonlinear_arith)
            requires
                0 <= r2 + 1 <= r1,
        ;
    }
}

/// The integer square root of `n`, by bisection.
pub fn isqrt(n: u128) -> (r: u128)
    requires
        n < 0x4_0000_0000_0000_0000_0000_0000_0000,
    ensures
        is_isqrt(n as int, r as int),
        r <= 0x200_0000_0000_0000,
{
    let mut lo: u128 = 0;
    let mut hi: u128 = 0x200_0000_0000_0000 + 1;
    assert(hi * hi > n) by (nonlinear_arith)
        requires
            hi == 0x200_0000_0000_0000 + 1,
            n < 0x4_0000_0000_0000_0000_0000_0000_0000,
    ;
    while lo + 1 < hi
        invariant
            lo < hi <= 0x200_0000_0000_0000 + 1,
            lo * lo <= n,
            n < hi * hi,
        decreases hi - lo,
    {
        let mid = lo + (hi - lo) / 2;
        assert(mid * mid <= 0x200_0000_0000_0001 * 0x200_0000_0000_0001) by (nonlinear_arith)
            requires
                mid <= 0x200_0000_0000_0001,
        ;
        if mid * mid <= n {
            lo = mid;
        } else {
            hi = mid;
        }
    }
    lo
}

fn div_toward_zero_exec(a: i128, d: i128) -> (q: i128)
    requires
        d > 0,
        a > i128::MIN,
    ensures
        q == div_toward_zero(a as int, d as int),
{
    if a >= 0 {
        a / d
    } else {
        -((-a) / d)
    }
}

/// Scales `v` to length `ONE`, each component rounded toward zero. A zero
/// vector is left as it is; any other vector comes out of unit length up to
/// rounding.
pub fn normalize_vector3(v: &mut FixedVec3)
    requires
        old(v).bounded(),
    ensures
        *final(v) == unit(*old(v)),
        -ONE <= final(v).x <= ONE,
        -ONE <= final(v).y <= ONE,
        -ONE <= final(v).z <= ONE,
        old(v).norm2() == 0 ==> *final(v) == *old(v),
        old(v).norm2() > 0 ==> ONE * ONE - 6 * ONE - 3 < final(v).norm2() < (ONE + 1) * (ONE
            + 1),
{
    proof {
        lemma_lift(*v);
        lemma_unit_within_one(*v);
        if v.norm2() > 0 {
            lemma_unit_length(*v);
        }
    }
    let ghost w = lift(*v);
    let x: i128 = v.x as i128 * 65536;
    let y: i128 = v.y as i128 * 65536;
    let z: i128 = v.z as i128 * 65536;
    proof {
        let l = 0x100_0000_0000_0000int;
        assert(x * x <= l * l && y * y <= l * l && z * z <= l * l) by (nonlinear_arith)
            requires
                -l <= x <= l,
                -l <= y <= l,
                -l <= z <= l,
        ;
        assert(0 <= x * x && 0 <= y * y && 0 <= z * z) by (nonlinear_arith);
    }
    let n: u128 = (x * x + y * y + z * z) as u128;
    let len = isqrt(n) as i128;
    assert(n as int == w.norm2());
    proof {
        lemma_isqrt_unique(w.norm2(), len as int, isqrt_of(w.norm2()));
    }
    if len > 0 {
        assert(-ONE <= div_toward_zero(x * 65536, len as int) <= ONE);
        assert(-ONE <= div_toward_zero(y * 65536, len as int) <= ONE);
        assert(-ONE <= div_toward_zero(z * 65536, len as int) <= ONE);
        let nx = div_toward_zero_exec(x * 65536, len);
        let ny = div_toward_zero_exec(y * 65536, len);
        let nz = div_toward_zero_exec(z * 65536, len);
        v.x = nx as i64;
        v.y = ny as i64;
        v.z = nz as i64;
    }
    assert(*v == unit(*old(v)));
}

/// A component is at most the length in magnitude, so scaling it by
/// `ONE / len` keeps it within `ONE`.
proof fn lemma_component_le_length(c: int, rest: int, len: int)
    requires
        0 <= rest,
        len > 0,
        c * c + rest < (len + 1) * (len + 1),
    ensures
        -ONE <= div_toward_zero(c * ONE, len) <= ONE,
{
    assert(-len <= c <= len) by (nonlinear_arith)
        requires
            c * c < (len + 1) * (len + 1),
            len > 0,
    ;
    let m = if c >= 0 { c } else { -c };
    assert(m * ONE <= len * ONE) by (nonlinear_arith)
        requires
            0 <= m <= len,
    ;
    assert(0 <= m * ONE) by (nonlinear_arith)
        requires
            0 <= m,
    ;
    assert((m * ONE) / len <= ONE) by (nonlinear_arith)
        requires
            0 <= m * ONE <= len * ONE,
            len > 0,
    ;
    assert(0 <= (m * ONE) / len) by (nonlinear_arith)
        requires
            0 <= m * ONE,
            len > 0,
    ;
    if c < 0 {
        assert(-c * ONE == -(c * ONE)) by (nonlinear_arith);
    }
}

} // verus!
