use solar_renderer::lighting::{interpolate_vec3, lambert_intensity, light_fragment};
use solar_renderer::raster::Fragment;
use solar_renderer::vector::{FixedVec3, ONE};

fn frag(w1: i64, w2: i64, w3: i64) -> Fragment {
    Fragment { x: 0, y: 0, depth: 0, w1, w2, w3, area: w1 + w2 + w3 }
}

#[test]
fn interpolation_is_weighted_mean_rounded_down() {
    let f = frag(1, 1, 2);
    let a = FixedVec3::new(4, 0, -1);
    let b = FixedVec3::new(8, 1, -1);
    let c = FixedVec3::new(0, 2, -1);
    // x: (4 + 8 + 0) / 4 = 3; y: (0 + 1 + 4) / 4 = 1.25 -> 1; z: -4 / 4 = -1.
    assert_eq!(interpolate_vec3(&f, &a, &b, &c), FixedVec3::new(3, 1, -1));
    let g = frag(1, 2, 0);
    // (0 + 2 * -1 + 0) / 3 rounds down to -1.
    let r = interpolate_vec3(&g, &FixedVec3::new(0, 0, 0), &FixedVec3::new(-1, 0, 0), &c);
    assert_eq!(r.x, -1);
}

#[test]
fn lambert_facing_light_is_full() {
    let n = FixedVec3::new(0, 0, ONE);
    assert_eq!(lambert_intensity(&n, &FixedVec3::new(0, 0, 5 * ONE)), ONE);
}

#[test]
fn lambert_at_45_degrees() {
    let n = FixedVec3::new(0, 0, ONE);
    assert_eq!(lambert_intensity(&n, &FixedVec3::new(ONE, 0, ONE)), 46340);
}

#[test]
fn lambert_facing_away_or_sideways_is_zero() {
    let n = FixedVec3::new(0, ONE, 0);
    assert_eq!(lambert_intensity(&n, &FixedVec3::new(0, -ONE, 0)), 0);
    assert_eq!(lambert_intensity(&n, &FixedVec3::new(ONE, 0, 0)), 0);
}

#[test]
fn lambert_zero_normal_is_zero() {
    let n = FixedVec3::new(0, 0, 0);
    assert_eq!(lambert_intensity(&n, &FixedVec3::new(0, ONE, 0)), 0);
}

#[test]
fn light_fragment_at_a_vertex() {
    let f = frag(1, 0, 0);
    let normals = [
        FixedVec3::new(0, ONE, 0),
        FixedVec3::new(ONE, 0, 0),
        FixedVec3::new(0, 0, ONE),
    ];
    let positions = [
        FixedVec3::new(0, ONE, 0),
        FixedVec3::new(ONE, 0, 0),
        FixedVec3::new(0, 0, ONE),
    ];
    let light = FixedVec3::new(0, 10 * ONE, 0);
    let (intensity, world) = light_fragment(&f, &normals, &positions, &light);
    assert_eq!(world, FixedVec3::new(0, ONE, 0));
    assert_eq!(intensity, ONE);
}

#[test]
fn lambert_with_short_vectors_stays_at_most_one() {
    let n = FixedVec3::new(1, 0, 0);
    assert_eq!(lambert_intensity(&n, &FixedVec3::new(3, 0, 0)), ONE);
    let m = FixedVec3::new(1, 1, 1);
    let i = lambert_intensity(&m, &FixedVec3::new(2, 2, 2));
    assert!(i <= ONE + 2 && i >= ONE - 3);
}
