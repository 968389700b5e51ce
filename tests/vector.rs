use solar_renderer::vector::{isqrt, normalize_vector3, FixedVec3, ONE};

#[test]
fn isqrt_exact_values() {
    assert_eq!(isqrt(0), 0);
    assert_eq!(isqrt(1), 1);
    assert_eq!(isqrt(15), 3);
    assert_eq!(isqrt(16), 4);
    assert_eq!(isqrt(17), 4);
    assert_eq!(isqrt(1 << 40), 1 << 20);
}

#[test]
fn normalize_axis_vector() {
    let mut v = FixedVec3::new(0, 3 * ONE, 0);
    normalize_vector3(&mut v);
    assert_eq!(v, FixedVec3::new(0, ONE, 0));
    let mut w = FixedVec3::new(-5, 0, 0);
    normalize_vector3(&mut w);
    assert_eq!(w, FixedVec3::new(-ONE, 0, 0));
}

#[test]
fn normalize_diagonal_vector() {
    // |(3, 4, 0)| = 5.
    let mut v = FixedVec3::new(3000, -4000, 0);
    normalize_vector3(&mut v);
    assert_eq!(v, FixedVec3::new(39321, -52428, 0));
}

#[test]
fn normalize_zero_vector_stays_zero() {
    let mut v = FixedVec3::new(0, 0, 0);
    normalize_vector3(&mut v);
    assert_eq!(v, FixedVec3::new(0, 0, 0));
}

#[test]
fn normalize_short_vectors_to_unit_length() {
    let mut v = FixedVec3::new(1, 1, 0);
    normalize_vector3(&mut v);
    assert_eq!(v, FixedVec3::new(46341, 46341, 0));
    let mut w = FixedVec3::new(0, 0, -1);
    normalize_vector3(&mut w);
    assert_eq!(w, FixedVec3::new(0, 0, -ONE));
    for (x, y, z) in [(1, 2, 3), (-7, 0, 1), (3, -3, 3)] {
        let mut u = FixedVec3::new(x, y, z);
        normalize_vector3(&mut u);
        let len2 = u.x * u.x + u.y * u.y + u.z * u.z;
        assert!(len2 > ONE * ONE - 6 * ONE - 3 && len2 < (ONE + 1) * (ONE + 1));
    }
}
