//! Per-fragment attribute interpolation and Lambertian lighting, in fixed point.

use crate::raster::{weighted_mean, Fragment, ATTRIBUTE_LIMIT};
use crate::vector::{
    lemma_lagrange, lemma_lift, lemma_unit_length, lemma_unit_within_one, normalize_vector3, unit, FixedVec3,
    ONE,
};
use vstd::prelude::*;

verus! {

/// Every component of `v` is at most `ATTRIBUTE_LIMIT` in magnitude.
pub open spec fn within_limit(v: FixedVec3) -> bool {
    &&& -ATTRIBUTE_LIMIT <= v.x <= ATTRIBUTE_LIMIT
    &&& -ATTRIBUTE_LIMIT <= v.y <= ATTRIBUTE_LIMIT
    &&& -ATTRIBUTE_LIMIT <= v.z <= ATTRIBUTE_LIMIT
}

/// The Lambertian intensity is at most `ONE + 2`: the cosine of two unit
/// vectors, up to rounding.
pub proof fn lemma_lambert_bounded(normal: FixedVec3, light_dir: FixedVec3)
    requires
        normal.bounded(),
        light_dir.bounded(),
    ensures
        0 <= lambert(normal, light_dir) <= ONE + 2,
{
    lemma_unit_within_one(normal);
    lemma_unit_within_one(light_dir);
    lemma_lift(normal);
    lemma_lift(light_dir);
    let a = unit(normal);
    let b = unit(light_dir);
    let d = dot(a, b);
    let o = ONE as int;
    if normal.norm2() == 0 {
        assert(a == FixedVec3 { x: 0, y: 0, z: 0 });
        assert(d == 0) by (nonlinear_arith)
            requires
                d == a.x * b.x + a.y * b.y + a.z * b.z,
                a.x == 0 && a.y == 0 && a.z == 0,
        ;
    } else if light_dir.norm2() == 0 {
        assert(b == FixedVec3 { x: 0, y: 0, z: 0 });
        assert(d == 0) by (nonlinear_arith)
            requires
                d == a.x * b.x + a.y * b.y + a.z * b.z,
                b.x == 0 && b.y == 0 && b.z == 0,
        ;
    } else {
        lemma_unit_length(normal);
        lemma_unit_length(light_dir);
        lemma_lagrange(a.x as int, a.y as int, a.z as int, b.x as int, b.y as int, b.z as int);
        let (cx, cy, cz) = (a.y * b.z - a.z * b.y, a.z * b.x - a.x * b.z, a.x * b.y - a.y * b.x);
        assert(0 <= cx * cx + cy * cy + cz * cz) by (nonlinear_arith);
        let na = a.norm2();
        let nb = b.norm2();
        assert(d * d <= na * nb);
        assert(na * nb < (o + 1) * (o + 1) * ((o + 1) * (o + 1))) by (nonlinear_arith)
            requires
                0 < na < (o + 1) * (o + 1),
                0 < nb < (o + 1) * (o + 1),
        ;
        assert(d < (o + 1) * (o + 1)) by (nonlinear_arith)
            requires
                d * d < (o + 1) * (o + 1) * ((o + 1) * (o + 1)),
        ;
        if d > 0 {
            assert(d / o <= o + 2) by (nonlinear_arith)
                requires
                    0 < d < (o + 1) * (o + 1),
                    o == 65536,
            ;
            assert(0 <= d / o) by (nonlinear_arith)
                requires
                    0 < d,
                    o == 65536,
            ;
        }
    }
}

/// The weighted mean of three values with the fragment's weights, rounded down.
pub open spec fn mean_at(f: Fragment, a: int, b: int, c: int) -> int {
    (f.w1 * a + f.w2 * b + f.w3 * c) / (f.area as int)
}

/// The weighted mean of three vectors at a fragment, component by component.
pub open spec fn mean_vec(f: Fragment, a: FixedVec3, b: FixedVec3, c: FixedVec3) -> FixedVec3 {
    FixedVec3 {
        x: mean_at(f, a.x as int, b.x as int, c.x as int) as i64,
        y: mean_at(f, a.y as int, b.y as int, c.y as int) as i64,
        z: mean_at(f, a.z as int, b.z as int, c.z as int) as i64,
    }
}

pub open spec fn dot(a: FixedVec3, b: FixedVec3) -> int {
    a.x * b.x + a.y * b.y + a.z * b.z
}

pub open spec fn difference(a: FixedVec3, b: FixedVec3) -> FixedVec3 {
    FixedVec3 { x: (a.x - b.x) as i64, y: (a.y - b.y) as i64, z: (a.z - b.z) as i64 }
}

/// Lambertian intensity in fixed point: the positive part of the cosine
/// between the normalized normal and the normalized light direction.
pub open spec fn lambert(normal: FixedVec3, light_dir: FixedVec3) -> int {
    let d = dot(unit(normal), unit(light_dir));
    if d > 0 {
        d / (ONE as int)
    } else {
        0
    }
}

/// Interpolates three vertex attributes at a fragment.
pub fn interpolate_vec3(f: &Fragment, a: &FixedVec3, b: &FixedVec3, c: &FixedVec3) -> (r: FixedVec3)
    requires
        f.wf(),
        within_limit(*a),
        within_limit(*b),
        within_limit(*c),
    ensures
        r == mean_vec(*f, *a, *b, *c),
        within_limit(r),
{
    let x = weighted_mean(f.w1, f.w2, f.w3, f.area, a.x, b.x, c.x);
    let y = weighted_mean(f.w1, f.w2, f.w3, f.area, a.y, b.y, c.y);
    let z = weighted_mean(f.w1, f.w2, f.w3, f.area, a.z, b.z, c.z);
    FixedVec3 { x, y, z }
}

/// The Lambertian intensity of a surface with this normal lit from this direction.
pub fn lambert_intensity(normal: &FixedVec3, light_dir: &FixedVec3) -> (r: i64)
    requires
        normal.bounded(),
        light_dir.bounded(),
    ensures
        r == lambert(*normal, *light_dir),
        0 <= r <= ONE + 2,
{
    proof {
        lemma_lambert_bounded(*normal, *light_dir);
    }
    let mut n = *normal;
    normalize_vector3(&mut n);
    let mut l = *light_dir;
    normalize_vector3(&mut l);
    proof {
        let o = ONE as int;
        assert(-(o * o) <= n.x * l.x <= o * o) by (nonlinear_arith)
            requires
                -o <= n.x <= o,
                -o <= l.x <= o,
        ;
        assert(-(o * o) <= n.y * l.y <= o * o) by (nonlinear_arith)
            requires
                -o <= n.y <= o,
                -o <= l.y <= o,
        ;
        assert(-(o * o) <= n.z * l.z <= o * o) by (nonlinear_arith)
            requires
                -o <= n.z <= o,
                -o <= l.z <= o,
        ;
    }
    let d = n.x * l.x + n.y * l.y + n.z * l.z;
    if d > 0 {
        d / ONE
    } else {
        0
    }
}

/// Lights a fragment: its world position is the weighted mean of the vertex
/// positions, its normal the weighted mean of the vertex normals, and its
/// intensity the Lambertian term toward the point light. Returns the
/// intensity and the world position.
pub fn light_fragment(
    f: &Fragment,
    normals: &[FixedVec3; 3],
    positions: &[FixedVec3; 3],
    light: &FixedVec3,
) -> (r: (i64, FixedVec3))
    requires
        f.wf(),
        within_limit(normals[0]),
        within_limit(normals[1]),
        within_limit(normals[2]),
        within_limit(positions[0]),
        within_limit(positions[1]),
        within_limit(positions[2]),
        within_limit(*light),
    ensures
        r.1 == mean_vec(*f, positions[0], positions[1], positions[2]),
        r.0 == lambert(
            mean_vec(*f, normals[0], normals[1], normals[2]),
            difference(*light, r.1),
        ),
        0 <= r.0 <= ONE + 2,
{
    let world = interpolate_vec3(f, &positions[0], &positions[1], &positions[2]);
    let normal = interpolate_vec3(f, &normals[0], &normals[1], &normals[2]);
    let light_dir = FixedVec3 { x: light.x - world.x, y: light.y - world.y, z: light.z - world.z };
    let intensity = lambert_intensity(&normal, &light_dir);
    (intensity, world)
}

} // verus!
