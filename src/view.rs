//! The look-at view matrix in fixed point.

use crate::lighting::dot;
use crate::raster::floor_div;
use crate::transform::{Mat4, Vec4};
use crate::vector::{
    div_toward_zero, isqrt_of, lemma_lagrange, lemma_lift, lemma_unit_length, lemma_unit_within_one, lift,
    normalize_vector3, unit, FixedVec3, ONE,
};
use vstd::arithmetic::div_mod::{lemma_fundamental_div_mod, lemma_mod_bound};
use vstd::prelude::*;

verus! {

/// Largest magnitude of a component of the eye or target position.
pub const VIEW_LIMIT: i64 = 137438953472;

/// Largest magnitude of a component of the up vector.
pub const UP_LIMIT: i64 = 8388608;

pub open spec fn within(v: FixedVec3, limit: int) -> bool {
    -limit <= v.x <= limit && -limit <= v.y <= limit && -limit <= v.z <= limit
}

pub open spec fn minus(a: FixedVec3, b: FixedVec3) -> FixedVec3 {
    FixedVec3 { x: (a.x - b.x) as i64, y: (a.y - b.y) as i64, z: (a.z - b.z) as i64 }
}

pub open spec fn cross(a: FixedVec3, b: FixedVec3) -> FixedVec3 {
    FixedVec3 {
        x: (a.y * b.z - a.z * b.y) as i64,
        y: (a.z * b.x - a.x * b.z) as i64,
        z: (a.x * b.y - a.y * b.x) as i64,
    }
}

/// Each component divided by `ONE`, rounded down.
pub open spec fn scaled_down(v: FixedVec3) -> FixedVec3 {
    FixedVec3 {
        x: (v.x as int / ONE as int) as i64,
        y: (v.y as int / ONE as int) as i64,
        z: (v.z as int / ONE as int) as i64,
    }
}

/// The camera basis: forward toward the target, right = forward x up and
/// true up = right x forward, the first two normalized.
pub open spec fn view_basis(eye: FixedVec3, target: FixedVec3, up: FixedVec3) -> (
    FixedVec3,
    FixedVec3,
    FixedVec3,
) {
    let f = unit(minus(target, eye));
    let r = unit(cross(f, up));
    let u = scaled_down(cross(r, f));
    (r, u, f)
}

/// Rows right, up and -forward, each translated by minus its projection of the eye.
pub open spec fn view_matrix(eye: FixedVec3, target: FixedVec3, up: FixedVec3) -> Mat4 {
    let (r, u, f) = view_basis(eye, target, up);
    Mat4 {
        r0: Vec4 { x: r.x, y: r.y, z: r.z, w: (-(dot(r, eye) / ONE as int)) as i64 },
        r1: Vec4 { x: u.x, y: u.y, z: u.z, w: (-(dot(u, eye) / ONE as int)) as i64 },
        r2: Vec4 {
            x: (-f.x) as i64,
            y: (-f.y) as i64,
            z: (-f.z) as i64,
            w: (dot(f, eye) / ONE as int) as i64,
        },
        r3: Vec4 { x: 0, y: 0, z: 0, w: ONE },
    }
}

fn cross_exec(a: &FixedVec3, b: &FixedVec3) -> (r: FixedVec3)
    requires
        within(*a, ONE as int),
        within(*b, UP_LIMIT as int),
    ensures
        r == cross(*a, *b),
        within(r, 2 * ONE * UP_LIMIT),
        r.x == a.y * b.z - a.z * b.y,
        r.y == a.z * b.x - a.x * b.z,
        r.z == a.x * b.y - a.y * b.x,
{
    proof {
        lemma_small_product(a.x as int, b.y as int);
        lemma_small_product(a.x as int, b.z as int);
        lemma_small_product(a.y as int, b.x as int);
        lemma_small_product(a.y as int, b.z as int);
        lemma_small_product(a.z as int, b.x as int);
        lemma_small_product(a.z as int, b.y as int);
    }
    FixedVec3 {
        x: a.y * b.z - a.z * b.y,
        y: a.z * b.x - a.x * b.z,
        z: a.x * b.y - a.y * b.x,
    }
}

proof fn lemma_small_product(a: int, b: int)
    requires
        -ONE <= a <= ONE,
        -UP_LIMIT <= b <= UP_LIMIT,
    ensures
        -(ONE * UP_LIMIT) <= a * b <= ONE * UP_LIMIT,
{
    assert(-(65536 * 8388608) <= a * b <= 65536 * 8388608) by (nonlinear_arith)
        requires
            -65536 <= a <= 65536,
            -8388608 <= b <= 8388608,
    ;
}

fn dot_over_one(a: &FixedVec3, b: &FixedVec3) -> (r: i64)
    requires
        within(*a, 2 * ONE as int),
        within(*b, VIEW_LIMIT as int),
    ensures
        r == dot(*a, *b) / ONE as int,
        -(6 * VIEW_LIMIT) <= r <= 6 * VIEW_LIMIT,
{
    let ghost l = VIEW_LIMIT as int;
    let ghost t = 2 * ONE as int;
    proof {
        assert(-(t * l) <= a.x * b.x <= t * l) by (nonlinear_arith)
            requires
                -t <= a.x <= t,
                -l <= b.x <= l,
        ;
        assert(-(t * l) <= a.y * b.y <= t * l) by (nonlinear_arith)
            requires
                -t <= a.y <= t,
                -l <= b.y <= l,
        ;
        assert(-(t * l) <= a.z * b.z <= t * l) by (nonlinear_arith)
            requires
                -t <= a.z <= t,
                -l <= b.z <= l,
        ;
    }
    let s: i128 = (a.x as i128) * (b.x as i128) + (a.y as i128) * (b.y as i128) + (a.z as i128) * (
    b.z as i128);
    let q = floor_div(s, ONE as i128);
    proof {
        let si = s as int;
        lemma_fundamental_div_mod(si, ONE as int);
        assert(-(6 * l) <= q <= 6 * l) by (nonlinear_arith)
            requires
                si == ONE * q + si % (ONE as int),
                0 <= si % (ONE as int) < ONE,
                -(3 * t * l) <= si <= 3 * t * l,
                t == 2 * ONE,
                l == VIEW_LIMIT,
        ;
    }
    q as i64
}

proof fn lemma_unit_cross_bound(a: FixedVec3, b: FixedVec3)
    requires
        within(a, ONE as int),
        within(b, ONE as int),
    ensures
        within(cross(a, b), 2 * ONE * ONE),
        -2 * ONE * ONE <= a.y * b.z - a.z * b.y <= 2 * ONE * ONE,
        -2 * ONE * ONE <= a.z * b.x - a.x * b.z <= 2 * ONE * ONE,
        -2 * ONE * ONE <= a.x * b.y - a.y * b.x <= 2 * ONE * ONE,
{
    let o = ONE as int;
    assert forall|p: int, q: int| -o <= p <= o && -o <= q <= o implies -(o * o) <= #[trigger] (p
        * q) <= o * o by {
        assert(-(o * o) <= p * q <= o * o) by (nonlinear_arith)
            requires
                -o <= p <= o,
                -o <= q <= o,
        ;
    }
    assert(-(o * o) <= a.y * b.z <= o * o);
    assert(-(o * o) <= a.z * b.y <= o * o);
    assert(-(o * o) <= a.z * b.x <= o * o);
    assert(-(o * o) <= a.x * b.z <= o * o);
    assert(-(o * o) <= a.x * b.y <= o * o);
    assert(-(o * o) <= a.y * b.x <= o * o);
}

proof fn lemma_floor_one_bound(w: int)
    requires
        -2 * ONE * ONE <= w <= 2 * ONE * ONE,
    ensures
        -2 * ONE <= w / (ONE as int) <= 2 * ONE,
{
    lemma_fundamental_div_mod(w, ONE as int);
    let o = ONE as int;
    assert(-2 * o <= w / o <= 2 * o) by (nonlinear_arith)
        requires
            w == o * (w / o) + w % o,
            0 <= w % o < o,
            -2 * o * o <= w <= 2 * o * o,
            o == 65536,
    ;
}

/// The look-at view matrix of a camera at `eye` facing `target`, with `up`
/// giving the vertical.
pub fn create_view_matrix(eye: &FixedVec3, target: &FixedVec3, up: &FixedVec3) -> (m: Mat4)
    requires
        within(*eye, VIEW_LIMIT as int),
        within(*target, VIEW_LIMIT as int),
        within(*up, UP_LIMIT as int),
    ensures
        m == view_matrix(*eye, *target, *up),
        m.in_range(),
{
    let mut f = FixedVec3 { x: target.x - eye.x, y: target.y - eye.y, z: target.z - eye.z };
    normalize_vector3(&mut f);
    let mut r = cross_exec(&f, up);
    normalize_vector3(&mut r);
    let w = cross_exec(&r, &f);
    let u = FixedVec3 {
        x: floor_div(w.x as i128, ONE as i128) as i64,
        y: floor_div(w.y as i128, ONE as i128) as i64,
        z: floor_div(w.z as i128, ONE as i128) as i64,
    };
    proof {
        lemma_unit_cross_bound(r, f);
        lemma_floor_one_bound(w.x as int);
        lemma_floor_one_bound(w.y as int);
        lemma_floor_one_bound(w.z as int);
    }
    let rx = dot_over_one(&r, eye);
    let ux = dot_over_one(&u, eye);
    let fx = dot_over_one(&f, eye);
    Mat4 {
        r0: Vec4 { x: r.x, y: r.y, z: r.z, w: -rx },
        r1: Vec4 { x: u.x, y: u.y, z: u.z, w: -ux },
        r2: Vec4 { x: -f.x, y: -f.y, z: -f.z, w: fx },
        r3: Vec4 { x: 0, y: 0, z: 0, w: ONE },
    }
}

/// A cross product is orthogonal to both of its factors.
proof fn lemma_cross_orthogonal(ax: int, ay: int, az: int, bx: int, by: int, bz: int)
    ensures
        (ay * bz - az * by) * ax + (az * bx - ax * bz) * ay + (ax * by - ay * bx) * az == 0,
        (ay * bz - az * by) * bx + (az * bx - ax * bz) * by + (ax * by - ay * bx) * bz == 0,
{
    assert((ay * bz - az * by) * ax == ax * ay * bz - ax * az * by) by (nonlinear_arith);
    assert((az * bx - ax * bz) * ay == ay * az * bx - ax * ay * bz) by (nonlinear_arith);
    assert((ax * by - ay * bx) * az == ax * az * by - ay * az * bx) by (nonlinear_arith);
    assert((ay * bz - az * by) * bx == ay * bx * bz - az * bx * by) by (nonlinear_arith);
    assert((az * bx - ax * bz) * by == az * bx * by - ax * by * bz) by (nonlinear_arith);
    assert((ax * by - ay * bx) * bz == ax * by * bz - ay * bx * bz) by (nonlinear_arith);
}

/// Rounding each component of a vector orthogonal to `g` keeps its dot
/// product with `g` below `3 * ONE`: here `k * a == d * q + s` per component.
proof fn lemma_rounded_dot(
    q: (int, int, int),
    a: (int, int, int),
    s: (int, int, int),
    g: (int, int, int),
    k: int,
    d: int,
)
    requires
        d > 0,
        k * a.0 == d * q.0 + s.0,
        k * a.1 == d * q.1 + s.1,
        k * a.2 == d * q.2 + s.2,
        -d < s.0 < d,
        -d < s.1 < d,
        -d < s.2 < d,
        -ONE <= g.0 <= ONE,
        -ONE <= g.1 <= ONE,
        -ONE <= g.2 <= ONE,
        a.0 * g.0 + a.1 * g.1 + a.2 * g.2 == 0,
    ensures
        -3 * ONE < q.0 * g.0 + q.1 * g.1 + q.2 * g.2 < 3 * ONE,
{
    let o = ONE as int;
    let e = s.0 * g.0 + s.1 * g.1 + s.2 * g.2;
    let t = q.0 * g.0 + q.1 * g.1 + q.2 * g.2;
    assert(d * (q.0 * g.0) == k * (a.0 * g.0) - s.0 * g.0) by (nonlinear_arith)
        requires
            k * a.0 == d * q.0 + s.0,
    ;
    assert(d * (q.1 * g.1) == k * (a.1 * g.1) - s.1 * g.1) by (nonlinear_arith)
        requires
            k * a.1 == d * q.1 + s.1,
    ;
    assert(d * (q.2 * g.2) == k * (a.2 * g.2) - s.2 * g.2) by (nonlinear_arith)
        requires
            k * a.2 == d * q.2 + s.2,
    ;
    assert(d * t == d * (q.0 * g.0) + d * (q.1 * g.1) + d * (q.2 * g.2)) by (nonlinear_arith)
        requires
            t == q.0 * g.0 + q.1 * g.1 + q.2 * g.2,
    ;
    assert(k * (a.0 * g.0) + k * (a.1 * g.1) + k * (a.2 * g.2) == k * (a.0 * g.0 + a.1 * g.1 + a.2
        * g.2)) by (nonlinear_arith);
    assert(k * (a.0 * g.0 + a.1 * g.1 + a.2 * g.2) == 0) by (nonlinear_arith)
        requires
            a.0 * g.0 + a.1 * g.1 + a.2 * g.2 == 0,
    ;
    assert(d * t == -e);
    assert forall|x: int, y: int| -d < x < d && -o <= y <= o implies -((d - 1) * o) <= #[trigger] (x
        * y) <= (d - 1) * o by {
        assert(-((d - 1) * o) <= x * y <= (d - 1) * o) by (nonlinear_arith)
            requires
                -d < x < d,
                -o <= y <= o,
        ;
    }
    assert(-((d - 1) * o) <= s.0 * g.0 <= (d - 1) * o);
    assert(-((d - 1) * o) <= s.1 * g.1 <= (d - 1) * o);
    assert(-((d - 1) * o) <= s.2 * g.2 <= (d - 1) * o);
    assert(-3 * o < t < 3 * o) by (nonlinear_arith)
        requires
            d * t == -e,
            -(3 * ((d - 1) * o)) <= e <= 3 * ((d - 1) * o),
            d > 0,
            o > 0,
    ;
}

/// `a` is `d` times its quotient rounded toward zero, plus a remainder
/// smaller than `d` in magnitude.
proof fn lemma_toward_zero_remainder(a: int, d: int)
    requires
        d > 0,
    ensures
        -d < a - d * div_toward_zero(a, d) < d,
{
    if a >= 0 {
        lemma_fundamental_div_mod(a, d);
        lemma_mod_bound(a, d);
    } else {
        lemma_fundamental_div_mod(-a, d);
        lemma_mod_bound(-a, d);
        let q = (-a) / d;
        assert(d * (-q) == -(d * q)) by (nonlinear_arith);
        assert(div_toward_zero(a, d) == -q);
    }
}

/// `w` is `ONE` times its quotient rounded down, plus a remainder in `0..ONE`.
proof fn lemma_floor_remainder(w: int)
    ensures
        0 <= w - ONE * (w / (ONE as int)) < ONE,
{
    lemma_fundamental_div_mod(w, ONE as int);
    lemma_mod_bound(w, ONE as int);
}

/// The rows right, up and forward of the view matrix are mutually
/// orthogonal up to fixed-point rounding: each pairwise dot product is
/// smaller than `3 * ONE` in magnitude, where two parallel rows of unit
/// length would give `ONE * ONE`.
pub proof fn lemma_view_basis_orthogonal(eye: FixedVec3, target: FixedVec3, up: FixedVec3)
    requires
        within(eye, VIEW_LIMIT as int),
        within(target, VIEW_LIMIT as int),
        within(up, UP_LIMIT as int),
    ensures
        ({
            let (r, u, f) = view_basis(eye, target, up);
            &&& -3 * ONE < dot(r, f) < 3 * ONE
            &&& -3 * ONE < dot(u, f) < 3 * ONE
            &&& -3 * ONE < dot(u, r) < 3 * ONE
        }),
{
    let d = minus(target, eye);
    lemma_unit_within_one(d);
    let f = unit(d);
    lemma_cross_bounds(f, up);
    let c = cross(f, up);
    lemma_unit_within_one(c);
    let r = unit(c);
    lemma_cross_orthogonal(f.x as int, f.y as int, f.z as int, up.x as int, up.y as int, up.z as int);
    lemma_lift(c);
    let a = lift(c);
    let len = isqrt_of(a.norm2());
    if c.norm2() == 0 {
        assert(dot(r, f) == 0);
    } else {
        lemma_toward_zero_remainder(a.x * ONE, len);
        lemma_toward_zero_remainder(a.y * ONE, len);
        lemma_toward_zero_remainder(a.z * ONE, len);
        assert(a.x * f.x + a.y * f.y + a.z * f.z == 0) by (nonlinear_arith)
            requires
                a.x == c.x * ONE,
                a.y == c.y * ONE,
                a.z == c.z * ONE,
                c.x * f.x + c.y * f.y + c.z * f.z == 0,
        ;
        lemma_rounded_dot(
            (r.x as int, r.y as int, r.z as int),
            (a.x as int, a.y as int, a.z as int),
            (
                a.x * ONE - len * div_toward_zero(a.x * ONE, len),
                a.y * ONE - len * div_toward_zero(a.y * ONE, len),
                a.z * ONE - len * div_toward_zero(a.z * ONE, len),
            ),
            (f.x as int, f.y as int, f.z as int),
            ONE as int,
            len,
        );
    }
    lemma_unit_cross_bound(r, f);
    let w = cross(r, f);
    let u = scaled_down(w);
    lemma_floor_one_bound(w.x as int);
    lemma_floor_one_bound(w.y as int);
    lemma_floor_one_bound(w.z as int);
    lemma_floor_remainder(w.x as int);
    lemma_floor_remainder(w.y as int);
    lemma_floor_remainder(w.z as int);
    lemma_cross_orthogonal(r.x as int, r.y as int, r.z as int, f.x as int, f.y as int, f.z as int);
    let rem = (
        w.x - ONE * (w.x as int / ONE as int),
        w.y - ONE * (w.y as int / ONE as int),
        w.z - ONE * (w.z as int / ONE as int),
    );
    lemma_rounded_dot(
        (u.x as int, u.y as int, u.z as int),
        (w.x as int, w.y as int, w.z as int),
        rem,
        (f.x as int, f.y as int, f.z as int),
        1,
        ONE as int,
    );
    lemma_rounded_dot(
        (u.x as int, u.y as int, u.z as int),
        (w.x as int, w.y as int, w.z as int),
        rem,
        (r.x as int, r.y as int, r.z as int),
        1,
        ONE as int,
    );
}

/// For a non-degenerate triple (eye and target apart, forward and up not
/// parallel) the right and forward rows of the view
/// matrix have unit length up to rounding: their squared lengths lie
/// strictly between `ONE * ONE - 6 * ONE - 3` and `(ONE + 1) * (ONE + 1)`.
pub proof fn lemma_view_rows_unit_length(eye: FixedVec3, target: FixedVec3, up: FixedVec3)
    requires
        within(eye, VIEW_LIMIT as int),
        within(target, VIEW_LIMIT as int),
        within(up, UP_LIMIT as int),
        minus(target, eye).norm2() > 0,
        cross(unit(minus(target, eye)), up).norm2() > 0,
    ensures
        ({
            let (r, u, f) = view_basis(eye, target, up);
            &&& ONE * ONE - 6 * ONE - 3 < r.norm2() < (ONE + 1) * (ONE + 1)
            &&& ONE * ONE - 6 * ONE - 3 < f.norm2() < (ONE + 1) * (ONE + 1)
        }),
{
    let d = minus(target, eye);
    lemma_unit_within_one(d);
    lemma_unit_length(d);
    let f = unit(d);
    lemma_cross_bounds(f, up);
    lemma_unit_length(cross(f, up));
}

/// For a non-degenerate triple the true-up row of the view matrix has unit
/// length up to rounding: its squared length lies strictly between
/// `ONE * ONE - 24 * ONE` and `ONE * ONE + 17 * ONE`.
pub proof fn lemma_view_up_unit_length(eye: FixedVec3, target: FixedVec3, up: FixedVec3)
    requires
        within(eye, VIEW_LIMIT as int),
        within(target, VIEW_LIMIT as int),
        within(up, UP_LIMIT as int),
        minus(target, eye).norm2() > 0,
        cross(unit(minus(target, eye)), up).norm2() > 0,
    ensures
        ({
            let (r, u, f) = view_basis(eye, target, up);
            ONE * ONE - 24 * ONE < u.norm2() < ONE * ONE + 17 * ONE
        }),
{
    lemma_view_rows_unit_length(eye, target, up);
    lemma_view_basis_orthogonal(eye, target, up);
    let d = minus(target, eye);
    lemma_unit_within_one(d);
    let f = unit(d);
    lemma_cross_bounds(f, up);
    lemma_unit_within_one(cross(f, up));
    let r = unit(cross(f, up));
    lemma_unit_cross_bound(r, f);
    let w = cross(r, f);
    let u = scaled_down(w);
    lemma_floor_one_bound(w.x as int);
    lemma_floor_one_bound(w.y as int);
    lemma_floor_one_bound(w.z as int);
    lemma_floor_remainder(w.x as int);
    lemma_floor_remainder(w.y as int);
    lemma_floor_remainder(w.z as int);
    lemma_lagrange(r.x as int, r.y as int, r.z as int, f.x as int, f.y as int, f.z as int);
    let o = ONE as int;
    let rr = r.norm2();
    let ff = f.norm2();
    let dd = dot(r, f);
    let ww = w.x * w.x + w.y * w.y + w.z * w.z;
    assert(ww == rr * ff - dd * dd);
    let lo = o * o - 6 * o - 3;
    let hi = (o + 1) * (o + 1);
    assert(lo * lo < rr * ff < hi * hi) by (nonlinear_arith)
        requires
            lo < rr < hi,
            lo < ff < hi,
            lo > 0,
    ;
    assert(dd * dd < 9 * o * o) by (nonlinear_arith)
        requires
            -3 * o < dd < 3 * o,
    ;
    assert(0 <= dd * dd) by (nonlinear_arith);
    assert(o * o * o * o - 12 * o * o * o < ww < o * o * o * o + 4 * o * o * o + 6 * o * o + 4 * o + 1)
        by (nonlinear_arith)
        requires
            ww == rr * ff - dd * dd,
            lo * lo < rr * ff < hi * hi,
            dd * dd < 9 * o * o,
            lo == o * o - 6 * o - 3,
            hi == (o + 1) * (o + 1),
            0 <= dd * dd,
            o == 65536,
    ;
    let (t0, t1, t2) = (
        w.x - o * (w.x as int / o),
        w.y - o * (w.y as int / o),
        w.z - o * (w.z as int / o),
    );
    lemma_rounded_square(w.x as int, u.x as int, t0);
    lemma_rounded_square(w.y as int, u.y as int, t1);
    lemma_rounded_square(w.z as int, u.z as int, t2);
    assert(o * o * u.norm2() == o * o * (u.x * u.x) + o * o * (u.y * u.y) + o * o * (u.z * u.z))
        by (nonlinear_arith);
    assert(o * o * (o * o - 24 * o) < o * o * u.norm2() < o * o * (o * o + 17 * o)) by (nonlinear_arith)
        requires
            o * o * u.norm2() == o * o * (u.x * u.x) + o * o * (u.y * u.y) + o * o * (u.z * u.z),
            o * o * (u.x * u.x) <= w.x * w.x + 4 * o * o * o,
            o * o * (u.y * u.y) <= w.y * w.y + 4 * o * o * o,
            o * o * (u.z * u.z) <= w.z * w.z + 4 * o * o * o,
            o * o * (u.x * u.x) >= w.x * w.x - 4 * o * o * o,
            o * o * (u.y * u.y) >= w.y * w.y - 4 * o * o * o,
            o * o * (u.z * u.z) >= w.z * w.z - 4 * o * o * o,
            ww == w.x * w.x + w.y * w.y + w.z * w.z,
            o * o * o * o - 12 * o * o * o < ww < o * o * o * o + 4 * o * o * o + 6 * o * o + 4 * o + 1,
            o == 65536,
    ;
    assert(o * o - 24 * o < u.norm2() < o * o + 17 * o) by (nonlinear_arith)
        requires
            o * o * (o * o - 24 * o) < o * o * u.norm2() < o * o * (o * o + 17 * o),
            o > 0,
    ;
}

/// `ONE * q == w - t` with `0 <= t < ONE` and `|w| <= 2 * ONE * ONE`
/// puts `ONE^2 q^2` within `4 * ONE^3` of `w^2`.
proof fn lemma_rounded_square(w: int, q: int, t: int)
    requires
        q == w / (ONE as int),
        t == w - ONE * q,
        0 <= t < ONE,
        -2 * ONE * ONE <= w <= 2 * ONE * ONE,
    ensures
        w * w - 4 * ONE * ONE * ONE <= ONE * ONE * (q * q) <= w * w + 4 * ONE * ONE * ONE,
{
    assert(ONE * ONE * (q * q) == (w - t) * (w - t)) by (nonlinear_arith)
        requires
            ONE * q == w - t,
    ;
    assert((w - t) * (w - t) == w * w - 2 * (w * t) + t * t) by (nonlinear_arith);
    assert(-2 * ONE * ONE * (ONE - 1) <= w * t <= 2 * ONE * ONE * (ONE - 1)) by (nonlinear_arith)
        requires
            -2 * ONE * ONE <= w <= 2 * ONE * ONE,
            0 <= t <= ONE - 1,
    ;
    assert(0 <= t * t <= (ONE - 1) * (ONE - 1)) by (nonlinear_arith)
        requires
            0 <= t <= ONE - 1,
    ;
}

proof fn lemma_cross_bounds(f: FixedVec3, up: FixedVec3)
    requires
        within(f, ONE as int),
        within(up, UP_LIMIT as int),
    ensures
        cross(f, up).x == f.y * up.z - f.z * up.y,
        cross(f, up).y == f.z * up.x - f.x * up.z,
        cross(f, up).z == f.x * up.y - f.y * up.x,
        cross(f, up).bounded(),
{
    lemma_small_product(f.x as int, up.y as int);
    lemma_small_product(f.x as int, up.z as int);
    lemma_small_product(f.y as int, up.x as int);
    lemma_small_product(f.y as int, up.z as int);
    lemma_small_product(f.z as int, up.x as int);
    lemma_small_product(f.z as int, up.y as int);
}

} // verus!
