use solar_renderer::framebuffer::{Color, Framebuffer, FAR_DEPTH};
use solar_renderer::lighting::light_fragment;
use solar_renderer::raster::{triangle, ScreenPoint};
use solar_renderer::render::draw_fragments;
use solar_renderer::view::create_view_matrix;
use solar_renderer::transform::{
    create_projection_matrix, create_viewport_matrix, multiply_matrix_vector4, perspective_divide, screen_point, transform_normal, transform_point,
    vertex_shader, Mat4, Transforms, Vec4, FAR_PLANE_DEPTH, VALUE_LIMIT,
};
use solar_renderer::vector::{FixedVec3, ONE};

fn row(x: i64, y: i64, z: i64, w: i64) -> Vec4 {
    Vec4::new(x, y, z, w)
}

fn identity() -> Mat4 {
    Mat4 {
        r0: row(ONE, 0, 0, 0),
        r1: row(0, ONE, 0, 0),
        r2: row(0, 0, ONE, 0),
        r3: row(0, 0, 0, ONE),
    }
}

fn fixed(v: f32) -> i64 {
    (v * ONE as f32).round() as i64
}

#[test]
fn identity_keeps_the_vector() {
    let v = row(3, -7, 11, ONE);
    assert_eq!(multiply_matrix_vector4(&identity(), &v), Some(v));
}

#[test]
fn product_rounds_down() {
    let half = Mat4 {
        r0: row(ONE / 2, 0, 0, 0),
        r1: row(0, ONE / 2, 0, 0),
        r2: row(0, 0, 0, 0),
        r3: row(0, 0, 0, ONE),
    };
    let r = multiply_matrix_vector4(&half, &row(3, -3, 5, 1)).unwrap();
    assert_eq!(r, row(1, -2, 0, 1));
}

#[test]
fn product_out_of_range_is_none() {
    let big = Mat4 {
        r0: row(VALUE_LIMIT, 0, 0, 0),
        r1: row(0, 0, 0, 0),
        r2: row(0, 0, 0, 0),
        r3: row(0, 0, 0, 0),
    };
    assert_eq!(multiply_matrix_vector4(&big, &row(VALUE_LIMIT, 0, 0, 0)), None);
}

#[test]
fn perspective_divides_by_w() {
    let r = perspective_divide(&row(2 * ONE, -ONE, ONE, 2 * ONE)).unwrap();
    assert_eq!(r, row(ONE, -ONE / 2, ONE / 2, ONE));
    let neg = perspective_divide(&row(ONE, -1, 0, -2 * ONE)).unwrap();
    assert_eq!(neg, row(-ONE / 2, 0, 0, ONE));
    let small = perspective_divide(&row(-1, 1, 0, 3 * ONE)).unwrap();
    assert_eq!(small, row(-1, 0, 0, ONE));
}

#[test]
fn perspective_with_zero_w_passes_through() {
    let r = perspective_divide(&row(5, -6, 7, 0)).unwrap();
    assert_eq!(r, row(5, -6, 7, ONE));
}

#[test]
fn screen_point_rounds_down_to_subpixels() {
    assert_eq!(
        screen_point(&row(256 * 10, -257, 512, ONE)),
        Some(ScreenPoint::new(10, -2, 2))
    );
    assert_eq!(screen_point(&row(VALUE_LIMIT, 0, 0, ONE)), None);
}

#[test]
fn identity_pipeline_keeps_the_point() {
    let t = Transforms { model: identity(), view: identity(), projection: identity(), viewport: identity() };
    let p = FixedVec3::new(ONE, -2 * ONE, 3);
    assert_eq!(transform_point(&t, &p), Some(row(ONE, -2 * ONE, 3, ONE)));
}

#[test]
fn normal_ignores_translation_and_is_normalized() {
    let mut model = identity();
    model.r0.w = 5 * ONE;
    model.r1.w = -9 * ONE;
    let n = transform_normal(&FixedVec3::new(0, 3 * ONE, 0), &model);
    assert_eq!(n, Some(FixedVec3::new(0, ONE, 0)));
    let zero = transform_normal(&FixedVec3::new(0, 0, 0), &model);
    assert_eq!(zero, Some(FixedVec3::new(0, 0, 0)));
}

/// A unit octahedron seen from (0, 0, 5), lit from (5, 5, 5), on a 64 x 64 target.
fn render_unit_shape(model: Mat4) -> (Framebuffer, usize) {
    let (w, h) = (64i32, 64i32);
    let fov: f32 = std::f32::consts::PI / 3.0;
    let (near, far) = (0.1f32, 100.0f32);
    let t_half = (fov / 2.0).tan();
    let view = create_view_matrix(
        &FixedVec3::new(0, 0, 5 * ONE),
        &FixedVec3::new(0, 0, 0),
        &FixedVec3::new(0, ONE, 0),
    );
    let projection = Mat4 {
        r0: row(fixed(1.0 / t_half), 0, 0, 0),
        r1: row(0, fixed(1.0 / t_half), 0, 0),
        r2: row(0, 0, fixed(-(far + near) / (far - near)), fixed(-(2.0 * far * near) / (far - near))),
        r3: row(0, 0, -ONE, 0),
    };
    let viewport = create_viewport_matrix(0, 0, w, h);
    let t = Transforms { model, view, projection, viewport };
    let corners = [
        FixedVec3::new(ONE, 0, 0),
        FixedVec3::new(-ONE, 0, 0),
        FixedVec3::new(0, ONE, 0),
        FixedVec3::new(0, -ONE, 0),
        FixedVec3::new(0, 0, ONE),
        FixedVec3::new(0, 0, -ONE),
    ];
    let faces = [
        [0, 2, 4], [2, 1, 4], [1, 3, 4], [3, 0, 4],
        [2, 0, 5], [1, 2, 5], [3, 1, 5], [0, 3, 5],
    ];
    let light = FixedVec3::new(5 * ONE, 5 * ONE, 5 * ONE);
    let mut fb = Framebuffer::new(w, h);
    let mut written = 0;
    for face in faces.iter() {
        let pts: Vec<ScreenPoint> = face
            .iter()
            .map(|&i| screen_point(&transform_point(&t, &corners[i]).unwrap()).unwrap())
            .collect();
        let normals = [corners[face[0]], corners[face[1]], corners[face[2]]];
        let positions = normals;
        let frags = triangle(&pts[0], &pts[1], &pts[2], w, h);
        written += frags.len();
        let colors: Vec<Color> = frags
            .iter()
            .map(|f| {
                let (intensity, _) = light_fragment(f, &normals, &positions, &light);
                let g = (intensity * 255 / ONE).clamp(0, 255) as u8;
                Color::new(g, g, g, 255)
            })
            .collect();
        draw_fragments(&mut fb, &frags, &colors, FAR_PLANE_DEPTH);
    }
    (fb, written)
}

#[test]
fn unit_shape_renders_at_the_center() {
    let (w, h) = (64i32, 64i32);
    let (fb, written) = render_unit_shape(identity());
    assert!(written > 0);
    let mut covered = 0;
    for y in 0..h {
        for x in 0..w {
            if fb.depth_at(x, y) != Some(FAR_DEPTH) {
                covered += 1;
                assert!((x - 32).abs() <= 13 && (y - 32).abs() <= 13, "pixel ({x}, {y})");
            }
        }
    }
    assert!(covered > 100);
    assert_ne!(fb.depth_at(32, 32), Some(FAR_DEPTH));
    assert_ne!(fb.depth_at(31, 31), Some(FAR_DEPTH));
    // The front vertex is nearer than the rim.
    let center = fb.depth_at(31, 31).unwrap();
    let rim = fb.depth_at(32 + 8, 31).unwrap();
    assert!(center < rim);
}

#[test]
fn viewport_maps_ndc_square_to_pixels() {
    let m = create_viewport_matrix(0, 0, 64, 64);
    let expected = Mat4 {
        r0: row(32 * ONE, 0, 0, 32 * ONE),
        r1: row(0, -32 * ONE, 0, 32 * ONE),
        r2: row(0, 0, 255 * ONE, 0),
        r3: row(0, 0, 0, ONE),
    };
    assert_eq!(m, expected);
    let odd = create_viewport_matrix(10, -4, 5, 3);
    assert_eq!(odd.r0, row(5 * ONE / 2, 0, 0, 10 * ONE + 5 * ONE / 2));
    assert_eq!(odd.r1, row(0, -3 * ONE / 2, 0, -4 * ONE + 3 * ONE / 2));
    // NDC (-1, 1) is the top-left corner, (1, -1) the bottom-right.
    let tl = multiply_matrix_vector4(&m, &row(-ONE, ONE, 0, ONE)).unwrap();
    assert_eq!((tl.x, tl.y), (0, 0));
    let br = multiply_matrix_vector4(&m, &row(ONE, -ONE, 0, ONE)).unwrap();
    assert_eq!((br.x, br.y), (64 * ONE, 64 * ONE));
}

#[test]
fn projection_entries() {
    let m = create_projection_matrix(ONE, 2 * ONE, ONE, 3 * ONE).unwrap();
    assert_eq!(m.r0, row(ONE / 2, 0, 0, 0));
    assert_eq!(m.r1, row(0, ONE, 0, 0));
    assert_eq!(m.r2, row(0, 0, -2 * ONE, -3 * ONE));
    assert_eq!(m.r3, row(0, 0, -ONE, 0));
    let rounded = create_projection_matrix(ONE, 3 * ONE, ONE, 4 * ONE).unwrap();
    // 1/3 and -5/3 and -8/3 rounded down in fixed point.
    assert_eq!(rounded.r0.x, 21845);
    assert_eq!(rounded.r2.z, -109227);
    assert_eq!(rounded.r2.w, -174763);
}

#[test]
fn projection_out_of_range_is_none() {
    assert_eq!(create_projection_matrix(VALUE_LIMIT, 1, ONE, 2 * ONE), None);
}

#[test]
fn farther_points_get_larger_depth() {
    let m = create_projection_matrix(ONE, ONE, ONE / 10, 100 * ONE).unwrap();
    let depth_at = |z: i64| {
        let clip = multiply_matrix_vector4(&m, &row(0, 0, z, ONE)).unwrap();
        perspective_divide(&clip).unwrap().z
    };
    assert!(depth_at(-ONE) < depth_at(-2 * ONE));
    assert!(depth_at(-2 * ONE) < depth_at(-50 * ONE));
}

#[test]
fn vertex_shader_gives_screen_position_and_normal() {
    let viewport = create_viewport_matrix(0, 0, 64, 64);
    let t = Transforms { model: identity(), view: identity(), projection: identity(), viewport };
    let (screen, normal) =
        vertex_shader(&t, &FixedVec3::new(ONE / 2, 0, ONE / 4), &FixedVec3::new(0, 0, -7));
    // x = 32 + 0.5 * 32 = 48 pixels, y = 32 pixels, z = 0.25 * 255.
    assert_eq!(screen, Some(ScreenPoint::new(48 * 256, 32 * 256, 255 * 64)));
    assert_eq!(normal, Some(FixedVec3::new(0, 0, -ONE)));
}

/// The same shape moved 200 units away, beyond the far plane at 100.
#[test]
fn shape_beyond_far_plane_writes_nothing() {
    let mut model = identity();
    model.r2.w = -200 * ONE;
    let (fb, _) = render_unit_shape(model);
    for y in 0..64 {
        for x in 0..64 {
            assert_eq!(fb.depth_at(x, y), Some(FAR_DEPTH));
        }
    }
}
