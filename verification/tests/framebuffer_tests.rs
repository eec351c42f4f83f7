use rasterizer::color::Color;
use rasterizer::framebuffer::Framebuffer;

const BLACK: Color = Color { r: 0, g: 0, b: 0 };
const WHITE: Color = Color { r: 255, g: 255, b: 255 };

fn painted(fb: &Framebuffer, color: Color) -> Vec<(u32, u32)> {
    let mut found = Vec::new();
    for y in 0..fb.height() {
        for x in 0..fb.width() {
            if fb.color_at(x, y) == Some(color) {
                found.push((x, y));
            }
        }
    }
    found
}

#[test]
fn new_surface_is_black() {
    let fb = Framebuffer::new(4, 3);
    assert_eq!(fb.width(), 4);
    assert_eq!(fb.height(), 3);
    assert_eq!(painted(&fb, BLACK).len(), 12);
}

#[test]
fn empty_surfaces_hold_no_pixel() {
    let mut fb = Framebuffer::new(0, 5);
    fb.point(0, 0);
    fb.line(0, 0, 3, 3);
    assert_eq!(fb.color_at(0, 0), None);
    let mut fb = Framebuffer::new(5, 0);
    fb.point(0, 0);
    fb.clear();
    assert_eq!(fb.color_at(0, 0), None);
}

#[test]
fn color_at_is_none_outside() {
    let fb = Framebuffer::new(4, 3);
    assert_eq!(fb.color_at(3, 2), Some(BLACK));
    assert_eq!(fb.color_at(4, 2), None);
    assert_eq!(fb.color_at(3, 3), None);
    assert_eq!(fb.color_at(u32::MAX, 0), None);
}

#[test]
fn point_writes_the_current_color_at_one_pixel() {
    let mut fb = Framebuffer::new(4, 3);
    fb.set_current_color(0x102030);
    fb.point(2, 1);
    assert_eq!(painted(&fb, Color::new(0x10, 0x20, 0x30)), vec![(2, 1)]);
    assert_eq!(painted(&fb, BLACK).len(), 11);
}

#[test]
fn point_keeps_rows_and_columns_apart() {
    let mut fb = Framebuffer::new(3, 5);
    fb.set_current_color(0xFFFFFF);
    fb.point(1, 4);
    assert_eq!(painted(&fb, WHITE), vec![(1, 4)]);
    fb.point(2, 0);
    assert_eq!(painted(&fb, WHITE), vec![(2, 0), (1, 4)]);
}

#[test]
fn point_outside_the_surface_is_ignored() {
    let mut fb = Framebuffer::new(4, 3);
    fb.set_current_color(0xFFFFFF);
    fb.point(4, 0);
    fb.point(0, 3);
    fb.point(u32::MAX, u32::MAX);
    fb.plot(usize::MAX, 0);
    fb.plot(0, usize::MAX);
    assert_eq!(painted(&fb, WHITE), vec![]);
}

#[test]
fn plot_does_not_wrap_large_coordinates_into_the_surface() {
    let mut fb = Framebuffer::new(8, 8);
    fb.set_current_color(0xFFFFFF);
    if usize::BITS > 32 {
        let far = (1u64 << 32) as usize;
        fb.plot(far + 1, 1);
        fb.plot(1, far + 1);
    }
    assert_eq!(painted(&fb, WHITE), vec![]);
    fb.plot(1, 1);
    assert_eq!(painted(&fb, WHITE), vec![(1, 1)]);
}

#[test]
fn clear_fills_with_the_background_color() {
    let mut fb = Framebuffer::new(3, 2);
    fb.set_current_color(0xFFFFFF);
    fb.point(1, 1);
    fb.set_background_color(0x336699);
    assert_eq!(painted(&fb, WHITE), vec![(1, 1)]);
    assert_eq!(painted(&fb, BLACK).len(), 5);
    fb.clear();
    assert_eq!(painted(&fb, Color::new(0x33, 0x66, 0x99)).len(), 6);
}

#[test]
fn setting_colors_changes_no_pixel() {
    let mut fb = Framebuffer::new(3, 2);
    fb.set_background_color(0xFF0000);
    fb.set_current_color(0x00FF00);
    assert_eq!(painted(&fb, BLACK).len(), 6);
}

#[test]
fn line_draws_the_rasterized_pixels() {
    let mut fb = Framebuffer::new(10, 10);
    fb.set_current_color(0xFFFFFF);
    fb.line(0, 0, 5, 0);
    assert_eq!(painted(&fb, WHITE), vec![(0, 0), (1, 0), (2, 0), (3, 0), (4, 0), (5, 0)]);
    let mut fb = Framebuffer::new(10, 10);
    fb.set_current_color(0xFFFFFF);
    fb.line(0, 0, 3, 3);
    assert_eq!(painted(&fb, WHITE), vec![(0, 0), (1, 1), (2, 2), (3, 3)]);
}

#[test]
fn line_is_clipped_by_the_surface_only() {
    let mut fb = Framebuffer::new(4, 4);
    fb.set_current_color(0xFFFFFF);
    fb.line(2, 1, 9, 1);
    assert_eq!(painted(&fb, WHITE), vec![(2, 1), (3, 1)]);
    fb.line(20, 20, 30, 25);
    assert_eq!(painted(&fb, WHITE), vec![(2, 1), (3, 1)]);
}

#[test]
fn line_in_either_direction_paints_the_same() {
    for &(x0, y0, x1, y1) in &[(0usize, 0usize, 2usize, 1usize), (1, 7, 6, 0), (3, 3, 9, 5)] {
        let mut forward = Framebuffer::new(10, 10);
        forward.set_current_color(0xFFFFFF);
        forward.line(x0, y0, x1, y1);
        let mut backward = Framebuffer::new(10, 10);
        backward.set_current_color(0xFFFFFF);
        backward.line(x1, y1, x0, y0);
        assert_eq!(painted(&forward, WHITE), painted(&backward, WHITE));
    }
}
