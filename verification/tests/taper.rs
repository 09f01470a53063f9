use wasm_paint::PaintCanvas;

/// The canvas as rows of text: `#` for a pixel of the given color, `.` for
/// a white one.
fn picture(canvas: &PaintCanvas, width: usize, height: usize, color: (u8, u8, u8)) -> Vec<String> {
    let bytes = canvas.get_pixels();
    let mut rows = Vec::new();
    for y in 0..height {
        let mut row = String::new();
        for x in 0..width {
            let at = (y * width + x) * 4;
            let pixel = (bytes[at], bytes[at + 1], bytes[at + 2], bytes[at + 3]);
            if pixel == (color.0, color.1, color.2, 255) {
                row.push('#');
            } else {
                assert_eq!(pixel, (255, 255, 255, 255));
                row.push('.');
            }
        }
        rows.push(row);
    }
    rows
}

/// The radius of a brush that grows evenly from `start_size` to `end_size`
/// along a line, after `step` of its steps.
fn tapered(x0: i32, y0: i32, x1: i32, y1: i32, start_size: i32, end_size: i32, step: u32) -> i32 {
    let dx = (x1 - x0).abs();
    let dy = (y1 - y0).abs();
    let total = ((dx * dx + dy * dy) as f32).sqrt();
    let progress = if total > 0.0 { step as f32 / total } else { 0.0 };
    let size = start_size as f32 + (end_size - start_size) as f32 * progress;
    (size / 2.0) as i32
}

#[test]
fn radius_is_asked_once_for_each_point_in_order() {
    let seen = std::cell::RefCell::new(Vec::new());
    let mut canvas = PaintCanvas::new(8, 8);
    canvas.draw_line_gradient_size(1, 1, 6, 3, 0, 0, 0, |step| {
        seen.borrow_mut().push(step);
        0
    });
    assert_eq!(seen.into_inner(), vec![0, 1, 2, 3, 4, 5]);
}

#[test]
fn radius_without_positive_value_draws_the_thin_line() {
    for radius in [0, -1, i32::MIN] {
        let mut canvas = PaintCanvas::new(8, 8);
        canvas.draw_line_gradient_size(0, 0, 5, 2, 1, 2, 3, |_| radius);
        let mut thin = PaintCanvas::new(8, 8);
        thin.draw_line(0, 0, 5, 2, 1, 2, 3, 1);
        assert_eq!(canvas.get_pixels(), thin.get_pixels());
    }
}

#[test]
fn each_point_gets_the_radius_of_its_step() {
    let mut canvas = PaintCanvas::new(9, 5);
    canvas.draw_line_gradient_size(1, 2, 7, 2, 1, 2, 3, |step| if step == 3 { 2 } else { 0 });
    assert_eq!(
        picture(&canvas, 9, 5, (1, 2, 3)),
        vec![
            "....#....",
            "...###...",
            ".#######.",
            "...###...",
            "....#....",
        ]
    );
}

#[test]
fn growing_brush_widens_the_line() {
    let mut canvas = PaintCanvas::new(12, 9);
    canvas.draw_line_gradient_size(1, 4, 10, 4, 7, 7, 7, |step| {
        tapered(1, 4, 10, 4, 1, 7, step)
    });
    assert_eq!(
        picture(&canvas, 12, 9, (7, 7, 7)),
        vec![
            "............",
            ".........##.",
            "......######",
            "...#########",
            ".###########",
            "...#########",
            "......######",
            ".........##.",
            "............",
        ]
    );
}

#[test]
fn taper_radii_follow_the_step_count() {
    let along: Vec<i32> = (0..10).map(|step| tapered(1, 4, 10, 4, 1, 7, step)).collect();
    assert_eq!(along, vec![0, 0, 1, 1, 1, 2, 2, 2, 3, 3]);
    let diagonal: Vec<i32> = (0..7).map(|step| tapered(0, 0, 6, 6, 2, 6, step)).collect();
    assert_eq!(diagonal, vec![1, 1, 1, 1, 1, 2, 2]);
    assert_eq!(tapered(2, 2, 2, 2, 5, 1, 0), 2);
}

#[test]
fn diagonal_steps_count_as_one() {
    let mut canvas = PaintCanvas::new(9, 9);
    canvas.draw_line_gradient_size(0, 0, 6, 6, 5, 5, 5, |step| tapered(0, 0, 6, 6, 2, 6, step));
    let mut stamped = PaintCanvas::new(9, 9);
    for (k, radius) in [1, 1, 1, 1, 1, 2, 2].into_iter().enumerate() {
        stamped.draw_circle(k as i32, k as i32, radius, 5, 5, 5);
    }
    assert_eq!(canvas.get_pixels(), stamped.get_pixels());
}

#[test]
fn equal_sizes_at_both_ends_draw_the_fixed_brush() {
    for size in [-3, 0, 1, 2, 3, 4, 7] {
        for (x0, y0, x1, y1) in [(1, 1, 8, 4), (8, 8, 2, 0), (4, 4, 4, 4), (0, 9, 9, 0)] {
            let mut tapering = PaintCanvas::new(10, 10);
            tapering.draw_line_gradient_size(x0, y0, x1, y1, 3, 2, 1, |step| {
                tapered(x0, y0, x1, y1, size, size, step)
            });
            let mut fixed = PaintCanvas::new(10, 10);
            fixed.draw_line(x0, y0, x1, y1, 3, 2, 1, size);
            assert_eq!(tapering.get_pixels(), fixed.get_pixels(), "size {size}");
        }
    }
}

#[test]
fn single_point_line_uses_the_first_radius() {
    let mut canvas = PaintCanvas::new(5, 5);
    canvas.draw_line_gradient_size(2, 2, 2, 2, 8, 8, 8, |step| tapered(2, 2, 2, 2, 5, 1, step));
    assert_eq!(
        picture(&canvas, 5, 5, (8, 8, 8)),
        vec!["..#..", ".###.", "#####", ".###.", "..#.."]
    );
}
