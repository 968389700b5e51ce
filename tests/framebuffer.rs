use solar_renderer::framebuffer::{Color, Framebuffer, FAR_DEPTH};

fn red() -> Color {
    Color::new(255, 0, 0, 255)
}

fn blue() -> Color {
    Color::new(0, 0, 255, 255)
}

#[test]
fn new_buffer_is_black_and_far() {
    let fb = Framebuffer::new(4, 3);
    assert_eq!(fb.width(), 4);
    assert_eq!(fb.height(), 3);
    assert_eq!(fb.color_buffer().len(), 12);
    for c in fb.color_buffer() {
        assert_eq!(*c, Color::black());
    }
    assert_eq!(fb.depth_at(3, 2), Some(FAR_DEPTH));
}

#[test]
fn point_writes_nearer_depth() {
    let mut fb = Framebuffer::new(4, 3);
    fb.point(1, 2, 100, red());
    assert_eq!(fb.color_at(1, 2), Some(red()));
    assert_eq!(fb.depth_at(1, 2), Some(100));
    assert_eq!(fb.color_buffer()[2 * 4 + 1], red());
}

#[test]
fn point_out_of_bounds_is_ignored() {
    let mut fb = Framebuffer::new(4, 3);
    fb.point(-1, 0, 1, red());
    fb.point(4, 0, 1, red());
    fb.point(0, 3, 1, red());
    fb.point(0, -5, 1, red());
    assert!(fb.color_buffer().iter().all(|c| *c == Color::black()));
    assert_eq!(fb.color_at(4, 0), None);
    assert_eq!(fb.depth_at(0, -1), None);
}

#[test]
fn equal_depth_keeps_first_write() {
    let mut fb = Framebuffer::new(2, 2);
    fb.point(0, 0, 50, red());
    fb.point(0, 0, 50, blue());
    assert_eq!(fb.color_at(0, 0), Some(red()));
}

#[test]
fn depth_at_far_is_never_written() {
    let mut fb = Framebuffer::new(2, 2);
    fb.point(1, 1, FAR_DEPTH, red());
    assert_eq!(fb.color_at(1, 1), Some(Color::black()));
}

#[test]
fn writing_twice_equals_writing_once() {
    let mut once = Framebuffer::new(3, 3);
    once.point(1, 1, 7, red());
    let mut twice = Framebuffer::new(3, 3);
    twice.point(1, 1, 7, red());
    twice.point(1, 1, 7, red());
    assert_eq!(once.color_buffer(), twice.color_buffer());
    assert_eq!(once.depth_at(1, 1), twice.depth_at(1, 1));
}

#[test]
fn nearer_write_wins_in_either_order() {
    let mut far_first = Framebuffer::new(3, 3);
    far_first.point(2, 0, 20, red());
    far_first.point(2, 0, 10, blue());
    let mut near_first = Framebuffer::new(3, 3);
    near_first.point(2, 0, 10, blue());
    near_first.point(2, 0, 20, red());
    assert_eq!(far_first.color_at(2, 0), Some(blue()));
    assert_eq!(near_first.color_at(2, 0), Some(blue()));
    assert_eq!(far_first.depth_at(2, 0), Some(10));
    assert_eq!(near_first.depth_at(2, 0), Some(10));
}

#[test]
fn negative_depths_compare_as_nearer() {
    let mut fb = Framebuffer::new(1, 1);
    fb.point(0, 0, 3, red());
    fb.point(0, 0, -3, blue());
    assert_eq!(fb.color_at(0, 0), Some(blue()));
}

#[test]
fn clear_resets_to_background_and_far() {
    let mut fb = Framebuffer::new(3, 2);
    let bg = Color::new(5, 5, 15, 255);
    fb.set_background_color(bg);
    assert_eq!(fb.color_at(0, 0), Some(Color::black()));
    fb.point(0, 0, -1000, red());
    fb.point(2, 1, 1000, red());
    fb.clear();
    for c in fb.color_buffer() {
        assert_eq!(*c, bg);
    }
    for y in 0..2 {
        for x in 0..3 {
            assert_eq!(fb.depth_at(x, y), Some(FAR_DEPTH));
        }
    }
    fb.point(2, 1, FAR_DEPTH - 1, blue());
    assert_eq!(fb.color_at(2, 1), Some(blue()));
    assert_eq!(fb.background_color(), bg);
}

#[test]
fn empty_buffer_accepts_no_pixel() {
    let mut fb = Framebuffer::new(0, 0);
    fb.point(0, 0, 1, red());
    fb.clear();
    assert!(fb.color_buffer().is_empty());
    assert_eq!(fb.color_at(0, 0), None);
}
