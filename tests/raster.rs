use solar_renderer::framebuffer::{Color, Framebuffer};
use solar_renderer::raster::{triangle, Fragment, ScreenPoint, SUBPIXEL};
use solar_renderer::render::draw_fragments;
use solar_renderer::transform::FAR_PLANE_DEPTH;

fn px(x: i64, y: i64, z: i64) -> ScreenPoint {
    ScreenPoint::new(x * SUBPIXEL, y * SUBPIXEL, z)
}

#[test]
fn right_triangle_covers_lower_left_half() {
    // Vertices on pixel corners (0,0), (4,0), (0,4).
    let frags = triangle(&px(0, 0, 0), &px(4, 0, 0), &px(0, 4, 0), 10, 10);
    let pixels: Vec<(i32, i32)> = frags.iter().map(|f| (f.x, f.y)).collect();
    let expected = vec![
        (0, 0), (1, 0), (2, 0), (3, 0),
        (0, 1), (1, 1), (2, 1),
        (0, 2), (1, 2),
        (0, 3),
    ];
    assert_eq!(pixels, expected);
}

#[test]
fn weights_sum_to_area_and_are_nonnegative() {
    let a = ScreenPoint::new(130, 70, 0);
    let b = ScreenPoint::new(1900, 500, 0);
    let c = ScreenPoint::new(600, 2000, 0);
    let frags = triangle(&a, &b, &c, 16, 16);
    assert!(!frags.is_empty());
    for f in &frags {
        assert!(f.w1 >= 0 && f.w2 >= 0 && f.w3 >= 0);
        assert_eq!(f.w1 + f.w2 + f.w3, f.area);
        // The weights rebuild the pixel center.
        let cx = f.x as i64 * SUBPIXEL + SUBPIXEL / 2;
        let cy = f.y as i64 * SUBPIXEL + SUBPIXEL / 2;
        assert_eq!(f.w1 * a.x + f.w2 * b.x + f.w3 * c.x, f.area * cx);
        assert_eq!(f.w1 * a.y + f.w2 * b.y + f.w3 * c.y, f.area * cy);
    }
}

#[test]
fn winding_order_does_not_change_coverage() {
    let a = px(1, 1, 0);
    let b = px(7, 2, 0);
    let c = px(3, 6, 0);
    let ccw = triangle(&a, &b, &c, 10, 10);
    let cw = triangle(&a, &c, &b, 10, 10);
    let p1: Vec<(i32, i32)> = ccw.iter().map(|f| (f.x, f.y)).collect();
    let p2: Vec<(i32, i32)> = cw.iter().map(|f| (f.x, f.y)).collect();
    assert_eq!(p1, p2);
    for f in ccw.iter().chain(cw.iter()) {
        assert!(f.area > 0);
    }
}

#[test]
fn degenerate_triangle_has_no_fragments() {
    let frags = triangle(&px(0, 0, 0), &px(2, 2, 0), &px(5, 5, 0), 10, 10);
    assert!(frags.is_empty());
    let point = triangle(&px(3, 3, 0), &px(3, 3, 0), &px(3, 3, 0), 10, 10);
    assert!(point.is_empty());
}

#[test]
fn fragments_are_clipped_to_target() {
    let frags = triangle(&px(-5, -5, 0), &px(20, -5, 0), &px(-5, 20, 0), 4, 3);
    assert_eq!(frags.len(), 12);
    assert!(frags.iter().all(|f| f.x >= 0 && f.x < 4 && f.y >= 0 && f.y < 3));
}

#[test]
fn triangle_off_target_has_no_fragments() {
    let frags = triangle(&px(20, 20, 0), &px(30, 20, 0), &px(20, 30, 0), 10, 10);
    assert!(frags.is_empty());
}

#[test]
fn depth_is_weighted_mean_rounded_down() {
    // Constant depth across the triangle.
    let flat = triangle(&px(0, 0, 300), &px(8, 0, 300), &px(0, 8, 300), 10, 10);
    assert!(flat.iter().all(|f| f.depth == 300));
    // Depth varying along x: z = 0 at x = 0 and z = 800 at x = 8 pixels.
    let ramp = triangle(&px(0, 0, 0), &px(8, 0, 800), &px(0, 8, 0), 10, 10);
    let f = ramp.iter().find(|f| f.x == 0 && f.y == 0).unwrap();
    // Center (0.5, 0.5) pixels: weight of b is 0.5 / 8 of the area.
    assert_eq!(f.depth, 50);
    let neg = triangle(&px(0, 0, 0), &px(8, 0, -800), &px(0, 8, 0), 10, 10);
    let g = neg.iter().find(|f| f.x == 1 && f.y == 0).unwrap();
    assert_eq!(g.depth, -150);
    let odd = triangle(&px(0, 0, 0), &px(3, 0, -1), &px(0, 3, 0), 10, 10);
    let h = odd.iter().find(|f| f.x == 0 && f.y == 0).unwrap();
    // -1 * (0.5 / 3) rounds down to -1.
    assert_eq!(h.depth, -1);
}

#[test]
fn nearer_triangle_wins_regardless_of_order() {
    let near = [px(0, 0, 256), px(6, 0, 256), px(0, 6, 256)];
    let far = [px(0, 0, 512), px(6, 0, 512), px(0, 6, 512)];
    let near_color = Color::new(200, 10, 10, 255);
    let far_color = Color::new(10, 10, 200, 255);
    let near_frags = triangle(&near[0], &near[1], &near[2], 8, 8);
    let far_frags = triangle(&far[0], &far[1], &far[2], 8, 8);
    let near_colors = vec![near_color; near_frags.len()];
    let far_colors = vec![far_color; far_frags.len()];

    let mut a = Framebuffer::new(8, 8);
    draw_fragments(&mut a, &near_frags, &near_colors, FAR_PLANE_DEPTH);
    draw_fragments(&mut a, &far_frags, &far_colors, FAR_PLANE_DEPTH);
    let mut b = Framebuffer::new(8, 8);
    draw_fragments(&mut b, &far_frags, &far_colors, FAR_PLANE_DEPTH);
    draw_fragments(&mut b, &near_frags, &near_colors, FAR_PLANE_DEPTH);

    assert_eq!(a.color_at(1, 1), Some(near_color));
    assert_eq!(b.color_at(1, 1), Some(near_color));
    assert_eq!(a.color_buffer(), b.color_buffer());
    assert_eq!(a.depth_at(1, 1), Some(256));
}

#[test]
fn draw_fragments_writes_each_pixel() {
    let frags = vec![
        Fragment { x: 0, y: 0, depth: 5, w1: 1, w2: 0, w3: 0, area: 1 },
        Fragment { x: 1, y: 0, depth: 5, w1: 1, w2: 0, w3: 0, area: 1 },
        Fragment { x: 1, y: 0, depth: 9, w1: 1, w2: 0, w3: 0, area: 1 },
    ];
    let colors = vec![
        Color::new(1, 2, 3, 255),
        Color::new(4, 5, 6, 255),
        Color::new(7, 8, 9, 255),
    ];
    let mut fb = Framebuffer::new(2, 1);
    draw_fragments(&mut fb, &frags, &colors, FAR_PLANE_DEPTH);
    assert_eq!(fb.color_at(0, 0), Some(Color::new(1, 2, 3, 255)));
    assert_eq!(fb.color_at(1, 0), Some(Color::new(4, 5, 6, 255)));
}

#[test]
fn fragments_beyond_far_are_discarded() {
    let frags = vec![
        Fragment { x: 0, y: 0, depth: FAR_PLANE_DEPTH + 1, w1: 1, w2: 0, w3: 0, area: 1 },
        Fragment { x: 1, y: 0, depth: FAR_PLANE_DEPTH, w1: 1, w2: 0, w3: 0, area: 1 },
    ];
    let colors = vec![Color::new(9, 9, 9, 255), Color::new(7, 7, 7, 255)];
    let mut fb = Framebuffer::new(2, 1);
    draw_fragments(&mut fb, &frags, &colors, FAR_PLANE_DEPTH);
    assert_eq!(fb.color_at(0, 0), Some(Color::black()));
    assert_eq!(fb.color_at(1, 0), Some(Color::new(7, 7, 7, 255)));
}
