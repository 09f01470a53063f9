use wasm_paint::PaintCanvas;

const WHITE: (u8, u8, u8, u8) = (255, 255, 255, 255);

fn pixel_at(canvas: &PaintCanvas, width: usize, x: usize, y: usize) -> (u8, u8, u8, u8) {
    let bytes = canvas.get_pixels();
    let at = (y * width + x) * 4;
    (bytes[at], bytes[at + 1], bytes[at + 2], bytes[at + 3])
}

/// The pixels of a `width` by `height` canvas that are not white, row by row.
fn colored(canvas: &PaintCanvas, width: usize, height: usize) -> Vec<(usize, usize)> {
    let mut found = Vec::new();
    for y in 0..height {
        for x in 0..width {
            if pixel_at(canvas, width, x, y) != WHITE {
                found.push((x, y));
            }
        }
    }
    found
}

#[test]
fn fresh_canvas_is_opaque_white() {
    let canvas = PaintCanvas::new(4, 4);
    let bytes = canvas.get_pixels();
    assert_eq!(bytes.len(), 64);
    assert!(bytes.iter().all(|&byte| byte == 255));
}

#[test]
fn try_new_gives_the_same_canvas_as_new() {
    let canvas = PaintCanvas::try_new(3, 5).expect("a small canvas fits");
    assert_eq!(canvas.get_pixels(), PaintCanvas::new(3, 5).get_pixels());
    assert_eq!(canvas.get_pixels().len(), 60);
}

#[test]
fn try_new_refuses_a_buffer_too_large_to_allocate() {
    match PaintCanvas::try_new(u32::MAX, u32::MAX) {
        Ok(_) => panic!("a canvas of 2^64 pixels cannot be allocated"),
        Err(error) => {
            assert_eq!(error.width, u32::MAX);
            assert_eq!(error.height, u32::MAX);
        }
    }
}

#[test]
fn zero_sized_canvas_is_empty_and_ignores_drawing() {
    for (width, height) in [(0, 0), (0, 7), (7, 0)] {
        let mut canvas = PaintCanvas::new(width, height);
        assert_eq!(canvas.get_pixels().len(), 0);
        canvas.clear(1, 2, 3);
        canvas.draw_point(0, 0, 1, 2, 3);
        canvas.draw_circle(0, 0, 3, 1, 2, 3);
        canvas.draw_line(-2, -2, 2, 2, 1, 2, 3, 3);
        canvas.draw_line_gradient_size(-2, 0, 2, 0, 1, 2, 3, |step| step as i32);
        assert_eq!(canvas.get_pixels().len(), 0);
    }
}

#[test]
fn draw_point_sets_the_four_bytes_of_one_pixel() {
    let mut canvas = PaintCanvas::new(4, 4);
    canvas.draw_point(1, 1, 255, 0, 0);
    let bytes = canvas.get_pixels();
    assert_eq!(&bytes[20..24], &[255, 0, 0, 255]);
    for (at, &byte) in bytes.iter().enumerate() {
        if !(20..24).contains(&at) {
            assert_eq!(byte, 255, "byte {at}");
        }
    }
}

#[test]
fn draw_point_changes_no_other_pixel() {
    let mut canvas = PaintCanvas::new(5, 3);
    canvas.clear(10, 20, 30);
    canvas.draw_point(4, 2, 1, 2, 3);
    for y in 0..3 {
        for x in 0..5 {
            let expected = if (x, y) == (4, 2) { (1, 2, 3, 255) } else { (10, 20, 30, 255) };
            assert_eq!(pixel_at(&canvas, 5, x, y), expected);
        }
    }
}

#[test]
fn draw_point_outside_the_canvas_changes_nothing() {
    let mut canvas = PaintCanvas::new(4, 3);
    canvas.draw_point(2, 1, 9, 9, 9);
    let before = canvas.get_pixels().to_vec();
    for (x, y) in [
        (-1, 0),
        (0, -1),
        (4, 0),
        (0, 3),
        (4, 3),
        (-1, -1),
        (i32::MAX, 1),
        (1, i32::MAX),
        (i32::MIN, 1),
        (1, i32::MIN),
    ] {
        canvas.draw_point(x, y, 1, 2, 3);
        assert_eq!(canvas.get_pixels(), &before[..], "point ({x}, {y})");
    }
}

#[test]
fn draw_point_reaches_every_corner() {
    let mut canvas = PaintCanvas::new(3, 2);
    for (x, y) in [(0, 0), (2, 0), (0, 1), (2, 1)] {
        canvas.draw_point(x, y, 7, 8, 9);
        assert_eq!(pixel_at(&canvas, 3, x as usize, y as usize), (7, 8, 9, 255));
    }
    assert_eq!(colored(&canvas, 3, 2), vec![(0, 0), (2, 0), (0, 1), (2, 1)]);
}

#[test]
fn clear_sets_every_pixel() {
    let mut canvas = PaintCanvas::new(3, 2);
    canvas.draw_point(1, 1, 5, 6, 7);
    canvas.clear(10, 20, 30);
    let bytes = canvas.get_pixels();
    assert_eq!(bytes.len(), 24);
    for pixel in bytes.chunks(4) {
        assert_eq!(pixel, &[10, 20, 30, 255]);
    }
}

#[test]
fn clear_twice_is_clear_once() {
    let mut once = PaintCanvas::new(4, 4);
    once.draw_circle(2, 2, 1, 1, 1, 1);
    once.clear(40, 50, 60);
    let mut twice = PaintCanvas::new(4, 4);
    twice.draw_circle(2, 2, 1, 1, 1, 1);
    twice.clear(40, 50, 60);
    twice.clear(40, 50, 60);
    assert_eq!(once.get_pixels(), twice.get_pixels());
}

#[test]
fn alpha_stays_opaque_after_every_operation() {
    let mut canvas = PaintCanvas::new(6, 6);
    canvas.clear(0, 0, 0);
    canvas.draw_point(1, 1, 0, 0, 0);
    canvas.draw_circle(3, 3, 2, 0, 0, 0);
    canvas.draw_line(0, 5, 5, 0, 0, 0, 0, 3);
    canvas.draw_line_gradient_size(0, 0, 5, 5, 0, 0, 0, |step| step as i32 / 2);
    for pixel in canvas.get_pixels().chunks(4) {
        assert_eq!(pixel, &[0, 0, 0, 255]);
    }
}

#[test]
fn draw_circle_of_radius_one_is_a_plus() {
    let mut canvas = PaintCanvas::new(4, 4);
    canvas.draw_circle(1, 1, 1, 0, 0, 255);
    assert_eq!(colored(&canvas, 4, 4), vec![(1, 0), (0, 1), (1, 1), (2, 1), (1, 2)]);
    for (x, y) in [(1, 0), (0, 1), (1, 1), (2, 1), (1, 2)] {
        assert_eq!(pixel_at(&canvas, 4, x, y), (0, 0, 255, 255));
    }
}

#[test]
fn draw_circle_fills_the_disc() {
    let mut canvas = PaintCanvas::new(9, 9);
    canvas.draw_circle(4, 4, 3, 1, 2, 3);
    for y in 0..9i32 {
        for x in 0..9i32 {
            let inside = (x - 4) * (x - 4) + (y - 4) * (y - 4) <= 9;
            let expected = if inside { (1, 2, 3, 255) } else { WHITE };
            assert_eq!(pixel_at(&canvas, 9, x as usize, y as usize), expected, "({x}, {y})");
        }
    }
}

#[test]
fn draw_circle_is_clipped_at_the_border() {
    let mut canvas = PaintCanvas::new(4, 4);
    canvas.draw_circle(0, 0, 2, 1, 2, 3);
    assert_eq!(
        colored(&canvas, 4, 4),
        vec![(0, 0), (1, 0), (2, 0), (0, 1), (1, 1), (0, 2)]
    );
    let mut far = PaintCanvas::new(4, 4);
    far.draw_circle(-5, 9, 2, 1, 2, 3);
    far.draw_circle(i32::MAX, i32::MIN, 3, 1, 2, 3);
    assert!(colored(&far, 4, 4).is_empty());
}

#[test]
fn draw_circle_without_a_positive_radius_draws_nothing() {
    let mut canvas = PaintCanvas::new(4, 4);
    canvas.draw_point(3, 3, 4, 5, 6);
    let before = canvas.get_pixels().to_vec();
    for radius in [0, -1, -7, i32::MIN] {
        canvas.draw_circle(1, 1, radius, 0, 0, 255);
        assert_eq!(canvas.get_pixels(), &before[..], "radius {radius}");
    }
}

#[test]
fn buffer_stays_where_it_is() {
    let mut canvas = PaintCanvas::new(16, 16);
    let start = canvas.get_pixels().as_ptr();
    canvas.clear(1, 2, 3);
    canvas.draw_circle(8, 8, 30, 4, 5, 6);
    canvas.draw_line(-5, 3, 40, 12, 7, 8, 9, 6);
    assert_eq!(canvas.get_pixels().as_ptr(), start);
    assert_eq!(canvas.get_pixels().len(), 16 * 16 * 4);
}
