use solar_renderer::noise::{fbm_octaves, gradient_direction, MAX_OCTAVES};

#[test]
fn octaves_are_clamped() {
    assert_eq!(fbm_octaves(0), 1);
    assert_eq!(fbm_octaves(-3), 1);
    assert_eq!(fbm_octaves(1), 1);
    assert_eq!(fbm_octaves(3), 3);
    assert_eq!(fbm_octaves(4), 4);
    assert_eq!(fbm_octaves(9), MAX_OCTAVES);
}

#[test]
fn gradient_directions() {
    assert_eq!(gradient_direction(0), (1, 1, 0));
    assert_eq!(gradient_direction(1), (-1, 1, 0));
    assert_eq!(gradient_direction(3), (-1, -1, 0));
    assert_eq!(gradient_direction(5), (-1, 0, 1));
    assert_eq!(gradient_direction(12), (1, 1, 0));
    assert_eq!(gradient_direction(13), (0, -1, 1));
    assert_eq!(gradient_direction(14), (-1, 1, 0));
    assert_eq!(gradient_direction(15), (0, -1, -1));
}

#[test]
fn gradient_uses_low_four_bits() {
    assert_eq!(gradient_direction(21), gradient_direction(5));
    assert_eq!(gradient_direction(-1), gradient_direction(15));
    assert_eq!(gradient_direction(255), gradient_direction(15));
}
