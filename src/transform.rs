//! The transform pipeline in fixed point: model, view and projection
//! matrices, the perspective divide and the viewport mapping.
//!
//! Matrix entries and vector components carry `ONE` units to 1.0, so a
//! matrix-vector product divides each row's dot product by `ONE`, rounding
//! down. A stage whose result leaves `VALUE_LIMIT` yields `None`.

use crate::raster::{floor_div, ScreenPoint, COORD_LIMIT, SUBPIXEL};
use crate::vector::{fits_component, lemma_lift, normalize_vector3, unit, FixedVec3, ONE};
use vstd::prelude::*;

verus! {

/// Largest magnitude of a matrix entry or vector component.
pub const VALUE_LIMIT: i64 = 1099511627776;

/// The depth of the far plane in the rasterizer's units: NDC z of 1 through
/// `create_viewport_matrix` and `screen_point`.
pub const FAR_PLANE_DEPTH: i64 = 65280;

/// Fixed-point units per screen subpixel.
pub const UNITS_PER_SUBPIXEL: i64 = 256;

/// A homogeneous 4-vector in fixed point.
#[derive(Clone, Copy, PartialEq, Eq, Structural, Debug)]
pub struct Vec4 {
    pub x: i64,
    pub y: i64,
    pub z: i64,
    pub w: i64,
}

/// A 4x4 matrix in fixed point, row by row.
#[derive(Clone, Copy, PartialEq, Eq, Structural, Debug)]
pub struct Mat4 {
    pub r0: Vec4,
    pub r1: Vec4,
    pub r2: Vec4,
    pub r3: Vec4,
}

/// The matrices that carry a model-space point to the screen.
#[derive(Clone, Copy, PartialEq, Eq, Structural, Debug)]
pub struct Transforms {
    pub model: Mat4,
    pub view: Mat4,
    pub projection: Mat4,
    pub viewport: Mat4,
}

pub open spec fn in_range(x: int) -> bool {
    -VALUE_LIMIT <= x <= VALUE_LIMIT
}

impl Vec4 {
    pub fn new(x: i64, y: i64, z: i64, w: i64) -> (v: Vec4)
        ensures
            v == (Vec4 { x, y, z, w }),
    {
        Vec4 { x, y, z, w }
    }

    pub open spec fn in_range(self) -> bool {
        in_range(self.x as int) && in_range(self.y as int) && in_range(self.z as int) && in_range(
            self.w as int,
        )
    }
}

impl Mat4 {
    pub open spec fn in_range(self) -> bool {
        self.r0.in_range() && self.r1.in_range() && self.r2.in_range() && self.r3.in_range()
    }
}

impl Transforms {
    pub open spec fn in_range(self) -> bool {
        self.model.in_range() && self.view.in_range() && self.projection.in_range()
            && self.viewport.in_range()
    }
}

/// One row of a fixed-point matrix-vector product, rounded down.
pub open spec fn row_times(r: Vec4, v: Vec4) -> int {
    (r.x * v.x + r.y * v.y + r.z * v.z + r.w * v.w) / (ONE as int)
}

/// The product `m * v`, or `None` when a component leaves `VALUE_LIMIT`.
pub open spec fn mat_vec(m: Mat4, v: Vec4) -> Option<Vec4> {
    let x = row_times(m.r0, v);
    let y = row_times(m.r1, v);
    let z = row_times(m.r2, v);
    let w = row_times(m.r3, v);
    if in_range(x) && in_range(y) && in_range(z) && in_range(w) {
        Some(Vec4 { x: x as i64, y: y as i64, z: z as i64, w: w as i64 })
    } else {
        None
    }
}

/// `a / d` rounded down, for a non-zero `d`.
pub open spec fn div_floor(a: int, d: int) -> int {
    if d > 0 {
        a / d
    } else {
        (-a) / (-d)
    }
}

/// The perspective divide: x, y and z over w, or the clip coordinates
/// themselves when w is zero; `None` when a result leaves `VALUE_LIMIT`.
pub open spec fn perspective(clip: Vec4) -> Option<Vec4> {
    if clip.w == 0 {
        Some(Vec4 { w: ONE, ..clip })
    } else {
        let x = div_floor(clip.x * ONE, clip.w as int);
        let y = div_floor(clip.y * ONE, clip.w as int);
        let z = div_floor(clip.z * ONE, clip.w as int);
        if in_range(x) && in_range(y) && in_range(z) {
            Some(Vec4 { x: x as i64, y: y as i64, z: z as i64, w: ONE })
        } else {
            None
        }
    }
}

/// A point in homogeneous form.
pub open spec fn point(p: FixedVec3) -> Vec4 {
    Vec4 { x: p.x, y: p.y, z: p.z, w: ONE }
}

/// A direction in homogeneous form: translation does not apply.
pub open spec fn direction(n: FixedVec3) -> Vec4 {
    Vec4 { x: n.x, y: n.y, z: n.z, w: 0 }
}

/// Model -> world -> view -> clip -> NDC -> screen, in fixed point.
pub open spec fn screen_of(t: Transforms, p: FixedVec3) -> Option<Vec4> {
    match mat_vec(t.model, point(p)) {
        None => None,
        Some(world) => match mat_vec(t.view, world) {
            None => None,
            Some(view) => match mat_vec(t.projection, view) {
                None => None,
                Some(clip) => match perspective(clip) {
                    None => None,
                    Some(ndc) => mat_vec(t.viewport, ndc),
                },
            },
        },
    }
}

/// A screen position in the rasterizer's subpixel units, or `None` when it
/// is outside the rasterizer's range.
pub open spec fn to_subpixels(s: Vec4) -> Option<ScreenPoint> {
    let x = (s.x as int) / (UNITS_PER_SUBPIXEL as int);
    let y = (s.y as int) / (UNITS_PER_SUBPIXEL as int);
    let z = (s.z as int) / (UNITS_PER_SUBPIXEL as int);
    if -COORD_LIMIT <= x <= COORD_LIMIT && -COORD_LIMIT <= y <= COORD_LIMIT && -COORD_LIMIT <= z
        <= COORD_LIMIT {
        Some(ScreenPoint { x: x as i64, y: y as i64, z: z as i64 })
    } else {
        None
    }
}

fn fits(x: i128) -> (r: bool)
    ensures
        r == in_range(x as int),
{
    -(VALUE_LIMIT as i128) <= x && x <= VALUE_LIMIT as i128
}

fn row_times_exec(r: &Vec4, v: &Vec4) -> (q: i128)
    requires
        r.in_range(),
        v.in_range(),
    ensures
        q == row_times(*r, *v),
{
    proof {
        lemma_product_in_range(r.x as int, v.x as int);
        lemma_product_in_range(r.y as int, v.y as int);
        lemma_product_in_range(r.z as int, v.z as int);
        lemma_product_in_range(r.w as int, v.w as int);
    }
    let s: i128 = (r.x as i128) * (v.x as i128) + (r.y as i128) * (v.y as i128) + (r.z as i128) * (
    v.z as i128) + (r.w as i128) * (v.w as i128);
    floor_div(s, ONE as i128)
}

proof fn lemma_product_in_range(a: int, b: int)
    requires
        in_range(a),
        in_range(b),
    ensures
        -0x1_0000_0000_0000_0000_0000 <= a * b <= 0x1_0000_0000_0000_0000_0000,
{
    assert(-0x1_0000_0000_0000_0000_0000 <= a * b <= 0x1_0000_0000_0000_0000_0000)
        by (nonlinear_arith)
        requires
            -0x100_0000_0000 <= a <= 0x100_0000_0000,
            -0x100_0000_0000 <= b <= 0x100_0000_0000,
    ;
}

/// Multiplies a matrix with a homogeneous vector; `None` when a component
/// of the product leaves `VALUE_LIMIT`.
pub fn multiply_matrix_vector4(m: &Mat4, v: &Vec4) -> (r: Option<Vec4>)
    requires
        m.in_range(),
        v.in_range(),
    ensures
        r == mat_vec(*m, *v),
{
    let x = row_times_exec(&m.r0, v);
    let y = row_times_exec(&m.r1, v);
    let z = row_times_exec(&m.r2, v);
    let w = row_times_exec(&m.r3, v);
    if fits(x) && fits(y) && fits(z) && fits(w) {
        Some(Vec4 { x: x as i64, y: y as i64, z: z as i64, w: w as i64 })
    } else {
        None
    }
}

fn div_floor_exec(a: i128, d: i128) -> (q: i128)
    requires
        d != 0,
        -0x100_0000_0000_0000_0000_0000 <= a <= 0x100_0000_0000_0000_0000_0000,
        -0x100_0000_0000_0000_0000_0000 <= d <= 0x100_0000_0000_0000_0000_0000,
    ensures
        q == div_floor(a as int, d as int),
{
    if d > 0 {
        floor_div(a, d)
    } else {
        floor_div(-a, -d)
    }
}

/// The perspective divide; a zero w passes the clip coordinates through.
pub fn perspective_divide(clip: &Vec4) -> (r: Option<Vec4>)
    requires
        clip.in_range(),
    ensures
        r == perspective(*clip),
{
    if clip.w == 0 {
        return Some(Vec4 { w: ONE, ..*clip });
    }
    let w = clip.w as i128;
    let x = div_floor_exec(clip.x as i128 * 65536i128, w);
    let y = div_floor_exec(clip.y as i128 * 65536i128, w);
    let z = div_floor_exec(clip.z as i128 * 65536i128, w);
    if fits(x) && fits(y) && fits(z) {
        Some(Vec4 { x: x as i64, y: y as i64, z: z as i64, w: ONE })
    } else {
        None
    }
}

/// Carries a model-space point through model, view, projection, the
/// perspective divide and the viewport; `None` when a stage leaves the range.
pub fn transform_point(t: &Transforms, p: &FixedVec3) -> (r: Option<Vec4>)
    requires
        t.in_range(),
        point(*p).in_range(),
    ensures
        r == screen_of(*t, *p),
{
    let hp = Vec4 { x: p.x, y: p.y, z: p.z, w: ONE };
    let world = match multiply_matrix_vector4(&t.model, &hp) {
        Some(v) => v,
        None => return None,
    };
    let view = match multiply_matrix_vector4(&t.view, &world) {
        Some(v) => v,
        None => return None,
    };
    let clip = match multiply_matrix_vector4(&t.projection, &view) {
        Some(v) => v,
        None => return None,
    };
    let ndc = match perspective_divide(&clip) {
        Some(v) => v,
        None => return None,
    };
    multiply_matrix_vector4(&t.viewport, &ndc)
}

/// Converts a screen position to the rasterizer's subpixel units, rounding down.
pub fn screen_point(s: &Vec4) -> (r: Option<ScreenPoint>)
    ensures
        r == to_subpixels(*s),
{
    let x = floor_div(s.x as i128, UNITS_PER_SUBPIXEL as i128);
    let y = floor_div(s.y as i128, UNITS_PER_SUBPIXEL as i128);
    let z = floor_div(s.z as i128, UNITS_PER_SUBPIXEL as i128);
    let l = COORD_LIMIT as i128;
    if -l <= x && x <= l && -l <= y && y <= l && -l <= z && z <= l {
        Some(ScreenPoint { x: x as i64, y: y as i64, z: z as i64 })
    } else {
        None
    }
}

/// The world-space normal: the model matrix applied to the normal as a
/// direction, then normalized (a zero vector stays zero); `None` when the
/// product leaves the range that normalization accepts.
pub open spec fn world_normal(model: Mat4, n: FixedVec3) -> Option<FixedVec3> {
    match mat_vec(model, direction(n)) {
        Some(d) => {
            let v = FixedVec3 { x: d.x, y: d.y, z: d.z };
            if v.bounded() {
                Some(unit(v))
            } else {
                None
            }
        },
        None => None,
    }
}

/// Transforms a normal by the model matrix and normalizes it.
pub fn transform_normal(n: &FixedVec3, model: &Mat4) -> (r: Option<FixedVec3>)
    requires
        model.in_range(),
        direction(*n).in_range(),
    ensures
        r == world_normal(*model, *n),
        ({
            match r {
                Some(u) => u.norm2() == 0 || ONE * ONE - 6 * ONE - 3 < u.norm2() < (ONE + 1) * (
                ONE + 1),
                None => true,
            }
        }),
{
    let d = match multiply_matrix_vector4(model, &Vec4 { x: n.x, y: n.y, z: n.z, w: 0 }) {
        Some(v) => v,
        None => return None,
    };
    let mut v = FixedVec3 { x: d.x, y: d.y, z: d.z };
    if !(fits_component(v.x) && fits_component(v.y) && fits_component(v.z)) {
        return None;
    }
    let ghost before = v;
    proof {
        lemma_lift(before);
    }
    normalize_vector3(&mut v);
    assert(v.norm2() == 0 || ONE * ONE - 6 * ONE - 3 < v.norm2() < (ONE + 1) * (ONE + 1));
    Some(v)
}

/// The screen position of a model-space point in the rasterizer's subpixel
/// units, when every stage stays in range.
pub open spec fn screen_position(t: Transforms, p: FixedVec3) -> Option<ScreenPoint> {
    match screen_of(t, p) {
        Some(s) => to_subpixels(s),
        None => None,
    }
}

/// A vertex through the transform pipeline: its screen position, ready for
/// the rasterizer, and its world-space normal.
pub fn vertex_shader(t: &Transforms, position: &FixedVec3, normal: &FixedVec3) -> (r: (
    Option<ScreenPoint>,
    Option<FixedVec3>,
))
    requires
        t.in_range(),
        point(*position).in_range(),
        direction(*normal).in_range(),
    ensures
        r.0 == screen_position(*t, *position),
        r.1 == world_normal(t.model, *normal),
{
    let screen = match transform_point(t, position) {
        Some(s) => screen_point(&s),
        None => None,
    };
    (screen, transform_normal(normal, &t.model))
}

/// Largest magnitude of a viewport corner or size, in pixels.
pub const VIEWPORT_LIMIT: i32 = 4194304;

/// Maps NDC x and y in [-1, 1] to pixels, y growing downward, and scales
/// NDC z by 255.
pub open spec fn viewport_matrix(x: int, y: int, width: int, height: int) -> Mat4 {
    let half_w = width * (ONE / 2);
    let half_h = height * (ONE / 2);
    Mat4 {
        r0: Vec4 { x: half_w as i64, y: 0, z: 0, w: (x * ONE + half_w) as i64 },
        r1: Vec4 { x: 0, y: (-half_h) as i64, z: 0, w: (y * ONE + half_h) as i64 },
        r2: Vec4 { x: 0, y: 0, z: (255 * ONE) as i64, w: 0 },
        r3: Vec4 { x: 0, y: 0, z: 0, w: ONE },
    }
}

/// The viewport matrix of a `width x height` pixel rectangle at (x, y).
pub fn create_viewport_matrix(x: i32, y: i32, width: i32, height: i32) -> (m: Mat4)
    requires
        -VIEWPORT_LIMIT <= x <= VIEWPORT_LIMIT,
        -VIEWPORT_LIMIT <= y <= VIEWPORT_LIMIT,
        -VIEWPORT_LIMIT <= width <= VIEWPORT_LIMIT,
        -VIEWPORT_LIMIT <= height <= VIEWPORT_LIMIT,
    ensures
        m == viewport_matrix(x as int, y as int, width as int, height as int),
        m.in_range(),
{
    let half_w = width as i64 * (ONE / 2);
    let half_h = height as i64 * (ONE / 2);
    Mat4 {
        r0: Vec4 { x: half_w, y: 0, z: 0, w: x as i64 * ONE + half_w },
        r1: Vec4 { x: 0, y: -half_h, z: 0, w: y as i64 * ONE + half_h },
        r2: Vec4 { x: 0, y: 0, z: 255 * ONE, w: 0 },
        r3: Vec4 { x: 0, y: 0, z: 0, w: ONE },
    }
}

/// The symmetric perspective projection for a focal length `focal`
/// (the cotangent of half the vertical field of view), an aspect ratio
/// and near and far planes, all in fixed point; entries rounded down.
/// `None` when an entry leaves `VALUE_LIMIT`.
pub open spec fn projection_matrix(focal: int, aspect: int, near: int, far: int) -> Option<Mat4> {
    let sx = (focal * ONE) / aspect;
    let sz = div_floor(-(far + near) * ONE, far - near);
    let tz = div_floor(-(2 * far * near), far - near);
    if in_range(sx) && in_range(focal) && in_range(sz) && in_range(tz) {
        Some(
            Mat4 {
                r0: Vec4 { x: sx as i64, y: 0, z: 0, w: 0 },
                r1: Vec4 { x: 0, y: focal as i64, z: 0, w: 0 },
                r2: Vec4 { x: 0, y: 0, z: sz as i64, w: tz as i64 },
                r3: Vec4 { x: 0, y: 0, z: (-ONE) as i64, w: 0 },
            },
        )
    } else {
        None
    }
}

/// Builds the perspective projection matrix.
pub fn create_projection_matrix(focal: i64, aspect: i64, near: i64, far: i64) -> (m: Option<Mat4>)
    requires
        0 < aspect,
        near != far,
        in_range(focal as int),
        in_range(near as int),
        in_range(far as int),
    ensures
        m == projection_matrix(focal as int, aspect as int, near as int, far as int),
{
    proof {
        let (n, f) = (near as int, far as int);
        assert(-0x100_0000_0000_0000_0000_0000 <= 2 * f * n <= 0x100_0000_0000_0000_0000_0000)
            by (nonlinear_arith)
            requires
                in_range(n),
                in_range(f),
        ;
    }
    let sx = floor_div(focal as i128 * 65536i128, aspect as i128);
    let depth = far as i128 - near as i128;
    let sz = div_floor_exec(-(far as i128 + near as i128) * ONE as i128, depth);
    let tz = div_floor_exec(-(2 * far as i128 * near as i128), depth);
    if fits(sx) && fits(focal as i128) && fits(sz) && fits(tz) {
        Some(
            Mat4 {
                r0: Vec4 { x: sx as i64, y: 0, z: 0, w: 0 },
                r1: Vec4 { x: 0, y: focal, z: 0, w: 0 },
                r2: Vec4 { x: 0, y: 0, z: sz as i64, w: tz as i64 },
                r3: Vec4 { x: 0, y: 0, z: -ONE, w: 0 },
            },
        )
    } else {
        None
    }
}

} // verus!
