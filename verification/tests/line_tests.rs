use rasterizer::line::rasterize_line;

fn sorted(mut pixels: Vec<(usize, usize)>) -> Vec<(usize, usize)> {
    pixels.sort();
    pixels
}

#[test]
fn horizontal_line_has_six_pixels() {
    assert_eq!(
        rasterize_line(0, 0, 5, 0),
        vec![(0, 0), (1, 0), (2, 0), (3, 0), (4, 0), (5, 0)]
    );
}

#[test]
fn diagonal_line_has_four_pixels() {
    assert_eq!(rasterize_line(0, 0, 3, 3), vec![(0, 0), (1, 1), (2, 2), (3, 3)]);
}

#[test]
fn vertical_line_runs_downwards_and_upwards() {
    assert_eq!(rasterize_line(2, 1, 2, 4), vec![(2, 1), (2, 2), (2, 3), (2, 4)]);
    assert_eq!(rasterize_line(2, 4, 2, 1), vec![(2, 4), (2, 3), (2, 2), (2, 1)]);
}

#[test]
fn equal_endpoints_give_one_pixel() {
    assert_eq!(rasterize_line(7, 9, 7, 9), vec![(7, 9)]);
    assert_eq!(rasterize_line(0, 0, 0, 0), vec![(0, 0)]);
}

#[test]
fn shallow_line_rounds_to_the_nearest_row() {
    assert_eq!(
        rasterize_line(0, 0, 5, 2),
        vec![(0, 0), (1, 0), (2, 1), (3, 1), (4, 2), (5, 2)]
    );
}

#[test]
fn steep_line_steps_along_y() {
    assert_eq!(
        rasterize_line(1, 0, 3, 6),
        vec![(1, 0), (1, 1), (2, 2), (2, 3), (2, 4), (3, 5), (3, 6)]
    );
}

#[test]
fn a_tie_goes_to_the_smaller_coordinate_in_both_directions() {
    assert_eq!(rasterize_line(0, 0, 2, 1), vec![(0, 0), (1, 0), (2, 1)]);
    assert_eq!(rasterize_line(2, 1, 0, 0), vec![(2, 1), (1, 0), (0, 0)]);
    assert_eq!(rasterize_line(0, 1, 2, 0), vec![(0, 1), (1, 0), (2, 0)]);
    assert_eq!(rasterize_line(0, 0, 1, 2), vec![(0, 0), (0, 1), (1, 2)]);
}

#[test]
fn line_contains_both_endpoints() {
    for &(x0, y0, x1, y1) in &[
        (0usize, 0usize, 9usize, 4usize),
        (9, 4, 0, 0),
        (3, 8, 5, 1),
        (12, 0, 0, 12),
        (4, 4, 4, 4),
        (0, 7, 1, 0),
    ] {
        let pixels = rasterize_line(x0, y0, x1, y1);
        assert_eq!(pixels.first(), Some(&(x0, y0)));
        assert_eq!(pixels.last(), Some(&(x1, y1)));
    }
}

#[test]
fn swapped_endpoints_give_the_reversed_line() {
    for x1 in 0..12usize {
        for y1 in 0..12usize {
            let forward = rasterize_line(5, 6, x1, y1);
            let mut backward = rasterize_line(x1, y1, 5, 6);
            assert_eq!(sorted(forward.clone()), sorted(backward.clone()));
            backward.reverse();
            assert_eq!(forward, backward);
        }
    }
}

#[test]
fn line_is_connected_and_visits_no_pixel_twice() {
    for x1 in 0..10usize {
        for y1 in 0..10usize {
            let pixels = rasterize_line(4, 5, x1, y1);
            let dx = if x1 > 4 { x1 - 4 } else { 4 - x1 };
            let dy = if y1 > 5 { y1 - 5 } else { 5 - y1 };
            assert_eq!(pixels.len(), dx.max(dy) + 1);
            for pair in pixels.windows(2) {
                let step_x = pair[0].0.abs_diff(pair[1].0);
                let step_y = pair[0].1.abs_diff(pair[1].1);
                assert!(step_x <= 1 && step_y <= 1);
                assert!(step_x + step_y >= 1);
            }
            let mut unique = sorted(pixels.clone());
            unique.dedup();
            assert_eq!(unique.len(), pixels.len());
        }
    }
}

#[test]
fn line_far_from_the_origin() {
    let base = usize::MAX - 3;
    assert_eq!(
        rasterize_line(base, base, usize::MAX, base + 1),
        vec![(base, base), (base + 1, base), (base + 2, base + 1), (base + 3, base + 1)]
    );
}
