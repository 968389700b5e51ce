use solar_renderer::transform::{Mat4, Vec4};
use solar_renderer::vector::{FixedVec3, ONE};
use solar_renderer::view::create_view_matrix;

fn dot3(a: &Vec4, b: &Vec4) -> i64 {
    a.x * b.x + a.y * b.y + a.z * b.z
}

#[test]
fn view_from_positive_z_toward_origin() {
    let m = create_view_matrix(
        &FixedVec3::new(0, 0, 5 * ONE),
        &FixedVec3::new(0, 0, 0),
        &FixedVec3::new(0, ONE, 0),
    );
    let expected = Mat4 {
        r0: Vec4::new(ONE, 0, 0, 0),
        r1: Vec4::new(0, ONE, 0, 0),
        r2: Vec4::new(0, 0, ONE, -5 * ONE),
        r3: Vec4::new(0, 0, 0, ONE),
    };
    assert_eq!(m, expected);
}

#[test]
fn view_basis_is_orthonormal_up_to_rounding() {
    let cases = [
        ((0, 5, 15), (0, 0, 0), (0, 1, 0)),
        ((3, 4, 5), (-1, 2, 0), (0, 1, 0)),
        ((-7, 2, 1), (4, -3, 9), (1, 2, 0)),
    ];
    for (e, t, u) in cases {
        let f = |v: (i64, i64, i64)| FixedVec3::new(v.0 * ONE, v.1 * ONE, v.2 * ONE);
        let m = create_view_matrix(&f(e), &f(t), &f(u));
        let (r, up, fwd) = (m.r0, m.r1, m.r2);
        assert!(dot3(&r, &fwd).abs() < 3 * ONE);
        assert!(dot3(&up, &fwd).abs() < 3 * ONE);
        assert!(dot3(&up, &r).abs() < 3 * ONE);
        for row in [&r, &up, &fwd] {
            let len2 = dot3(row, row);
            assert!((len2 - ONE * ONE).abs() < 8 * ONE, "squared length {len2}");
        }
        assert_eq!(m.r3, Vec4::new(0, 0, 0, ONE));
    }
}

#[test]
fn view_translation_moves_eye_to_origin() {
    let eye = FixedVec3::new(2 * ONE, -ONE, 4 * ONE);
    let m = create_view_matrix(&eye, &FixedVec3::new(0, 0, 0), &FixedVec3::new(0, ONE, 0));
    let p = Vec4::new(eye.x, eye.y, eye.z, ONE);
    for row in [m.r0, m.r1, m.r2] {
        let v = (dot3(&row, &p) + row.w * ONE) / ONE;
        assert!(v.abs() <= 3, "eye maps to {v}");
    }
}

#[test]
fn view_basis_is_unit_for_close_eye_and_target() {
    let m = create_view_matrix(
        &FixedVec3::new(0, 0, 0),
        &FixedVec3::new(1, 1, 0),
        &FixedVec3::new(0, 0, ONE),
    );
    for row in [&m.r0, &m.r1, &m.r2] {
        let len2 = dot3(row, row);
        assert!((len2 - ONE * ONE).abs() < 24 * ONE, "squared length {len2}");
    }
    assert_eq!(m.r2, Vec4::new(-46341, -46341, 0, 0));
}
