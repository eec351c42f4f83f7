use rasterizer::color::Color;
use rasterizer::framebuffer::Framebuffer;
use rasterizer::polygon::{draw_polygon, fill_polygon, scanline_crossings, sort_ascending};

const WHITE: Color = Color { r: 255, g: 255, b: 255 };

fn canvas(width: u32, height: u32) -> Framebuffer {
    let mut fb = Framebuffer::new(width, height);
    fb.set_current_color(0xFFFFFF);
    fb
}

fn painted(fb: &Framebuffer) -> Vec<(u32, u32)> {
    let mut found = Vec::new();
    for y in 0..fb.height() {
        for x in 0..fb.width() {
            if fb.color_at(x, y) == Some(WHITE) {
                found.push((x, y));
            }
        }
    }
    found
}

fn rows(spans: &[(u32, u32, u32)]) -> Vec<(u32, u32)> {
    let mut pixels = Vec::new();
    for &(y, xa, xb) in spans {
        for x in xa..=xb {
            pixels.push((x, y));
        }
    }
    pixels
}

#[test]
fn outlined_and_filled_triangle_covers_the_right_triangle() {
    let triangle = [(0, 0), (4, 0), (0, 4)];
    let mut fb = canvas(10, 10);
    draw_polygon(&mut fb, &triangle);
    fill_polygon(&mut fb, &triangle);
    assert_eq!(
        painted(&fb),
        rows(&[(0, 0, 4), (1, 0, 3), (2, 0, 2), (3, 0, 1), (4, 0, 0)])
    );
}

#[test]
fn filled_triangle_stops_one_row_short_of_its_tip() {
    let mut fb = canvas(10, 10);
    fill_polygon(&mut fb, &[(0, 0), (4, 0), (0, 4)]);
    assert_eq!(painted(&fb), rows(&[(0, 0, 4), (1, 0, 3), (2, 0, 2), (3, 0, 1)]));
}

#[test]
fn triangle_outline_is_its_three_lines() {
    let mut fb = canvas(10, 10);
    draw_polygon(&mut fb, &[(0, 0), (4, 0), (0, 4)]);
    let mut expected = rows(&[(0, 0, 4), (1, 0, 0), (2, 0, 0), (3, 0, 0), (4, 0, 0)]);
    expected.extend([(3, 1), (2, 2), (1, 3)]);
    expected.sort_by_key(|&(x, y)| (y, x));
    assert_eq!(painted(&fb), expected);
}

#[test]
fn fewer_than_three_vertices_write_nothing() {
    let mut fb = canvas(10, 10);
    fill_polygon(&mut fb, &[]);
    fill_polygon(&mut fb, &[(1, 1)]);
    fill_polygon(&mut fb, &[(1, 1), (5, 5)]);
    draw_polygon(&mut fb, &[]);
    draw_polygon(&mut fb, &[(1, 1)]);
    draw_polygon(&mut fb, &[(1, 1), (5, 5)]);
    assert_eq!(painted(&fb), vec![]);
}

#[test]
fn square_is_filled_once_per_row_and_not_on_its_bottom_edge() {
    let mut fb = canvas(10, 10);
    fill_polygon(&mut fb, &[(1, 1), (4, 1), (4, 4), (1, 4)]);
    assert_eq!(painted(&fb), rows(&[(1, 1, 4), (2, 1, 4), (3, 1, 4)]));
}

#[test]
fn vertex_order_does_not_change_the_square() {
    let mut fb = canvas(10, 10);
    fill_polygon(&mut fb, &[(1, 4), (4, 4), (4, 1), (1, 1)]);
    assert_eq!(painted(&fb), rows(&[(1, 1, 4), (2, 1, 4), (3, 1, 4)]));
}

#[test]
fn trapezoid_with_horizontal_top_and_bottom() {
    let mut fb = canvas(12, 8);
    fill_polygon(&mut fb, &[(3, 1), (6, 1), (9, 4), (0, 4)]);
    assert_eq!(painted(&fb), rows(&[(1, 3, 6), (2, 2, 7), (3, 1, 8)]));
}

#[test]
fn degenerate_polygon_on_one_row_fills_nothing() {
    let mut fb = canvas(10, 10);
    fill_polygon(&mut fb, &[(1, 2), (5, 2), (8, 2)]);
    assert_eq!(painted(&fb), vec![]);
}

#[test]
fn crossing_is_truncated_toward_the_start_column() {
    assert_eq!(scanline_crossings(&[(0, 0), (4, 0), (2, 4)], 1), vec![1, 4]);
    assert_eq!(scanline_crossings(&[(0, 0), (4, 0), (2, 4)], 3), vec![2, 3]);
    assert_eq!(scanline_crossings(&[(2, 4), (4, 0), (0, 0)], 1), vec![0, 3]);
    assert_eq!(scanline_crossings(&[(0, 0), (5, 0), (0, 3)], 1), vec![0, 4]);
    assert_eq!(scanline_crossings(&[(0, 0), (5, 0), (0, 3)], 2), vec![0, 2]);
}

#[test]
fn crossings_skip_horizontal_edges_and_count_shared_vertices_once() {
    let diamond = [(3, 0), (6, 3), (3, 6), (0, 3)];
    assert_eq!(scanline_crossings(&diamond, 0), vec![3, 3]);
    assert_eq!(scanline_crossings(&diamond, 3), vec![6, 0]);
    assert_eq!(scanline_crossings(&diamond, 6), Vec::<usize>::new());
    assert_eq!(scanline_crossings(&diamond, 7), Vec::<usize>::new());
    let square = [(1, 1), (4, 1), (4, 4), (1, 4)];
    assert_eq!(scanline_crossings(&square, 1), vec![1, 4]);
    assert_eq!(scanline_crossings(&square, 4), Vec::<usize>::new());
    assert_eq!(scanline_crossings(&[], 0), Vec::<usize>::new());
}

#[test]
fn crossings_are_exact_for_large_coordinates() {
    let big = usize::MAX;
    assert_eq!(scanline_crossings(&[(0, 0), (big, big), (0, big)], big / 2), vec![0, big / 2]);
    assert_eq!(scanline_crossings(&[(big, 0), (0, big), (big, big)], 1), vec![big, big - 1]);
}

#[test]
fn sort_ascending_orders_and_keeps_duplicates() {
    let mut v = vec![5, 1, 4, 1, 0, 9, 4];
    sort_ascending(&mut v);
    assert_eq!(v, vec![0, 1, 1, 4, 4, 5, 9]);
    let mut empty: Vec<usize> = Vec::new();
    sort_ascending(&mut empty);
    assert_eq!(empty, Vec::<usize>::new());
}

#[test]
fn diamond_is_filled_between_its_crossings() {
    let mut fb = canvas(10, 10);
    fill_polygon(&mut fb, &[(3, 0), (6, 3), (3, 6), (0, 3)]);
    assert_eq!(
        painted(&fb),
        rows(&[(0, 3, 3), (1, 2, 4), (2, 1, 5), (3, 0, 6), (4, 1, 5), (5, 2, 4)])
    );
}

#[test]
fn concave_polygon_has_two_spans_on_a_row() {
    let mut fb = canvas(12, 8);
    fill_polygon(&mut fb, &[(0, 0), (2, 4), (4, 0), (6, 4), (8, 0), (8, 6), (0, 6)]);
    let got = painted(&fb);
    let row2: Vec<(u32, u32)> = got.iter().copied().filter(|p| p.1 == 2).collect();
    assert_eq!(row2, rows(&[(2, 0, 1), (2, 3, 5), (2, 7, 8)]));
    let row5: Vec<(u32, u32)> = got.iter().copied().filter(|p| p.1 == 5).collect();
    assert_eq!(row5, rows(&[(5, 0, 8)]));
    assert!(got.iter().all(|p| p.1 <= 5));
}

#[test]
fn fill_is_clipped_by_the_surface_only() {
    let mut fb = canvas(4, 3);
    fill_polygon(&mut fb, &[(2, 1), (9, 1), (9, 7), (2, 7)]);
    assert_eq!(painted(&fb), rows(&[(1, 2, 3), (2, 2, 3)]));
    let mut fb = canvas(4, 3);
    fill_polygon(&mut fb, &[(20, 10), (30, 10), (25, 20)]);
    assert_eq!(painted(&fb), vec![]);
}

#[test]
fn filled_pixels_follow_the_even_odd_rule() {
    let polygon = [(1, 1), (9, 2), (5, 5), (8, 9), (2, 8), (4, 4)];
    let mut fb = canvas(12, 12);
    fill_polygon(&mut fb, &polygon);
    for y in 0..12u32 {
        let crossings = scanline_crossings(&polygon, y as usize);
        assert_eq!(crossings.len() % 2, 0);
        for x in 0..12u32 {
            let left = crossings.iter().filter(|&&c| c < x as usize).count();
            let on = crossings.contains(&(x as usize));
            let filled = fb.color_at(x, y) == Some(WHITE);
            assert_eq!(filled, left % 2 == 1 || on);
        }
    }
}

#[test]
fn fill_uses_the_current_color_and_keeps_the_rest() {
    let mut fb = Framebuffer::new(6, 6);
    fb.set_background_color(0x0000FF);
    fb.clear();
    fb.set_current_color(0xFFFF00);
    fill_polygon(&mut fb, &[(1, 1), (4, 1), (4, 4), (1, 4)]);
    for y in 0..6u32 {
        for x in 0..6u32 {
            let inside = (1..=4).contains(&x) && (1..=3).contains(&y);
            let expected = if inside { Color::new(255, 255, 0) } else { Color::new(0, 0, 255) };
            assert_eq!(fb.color_at(x, y), Some(expected));
        }
    }
}
