use olive::canvas::Canvas;

fn body_offset(data: &[u8]) -> usize {
    let mut count = 0;
    for (i, b) in data.iter().enumerate() {
        if *b == b'\n' {
            count += 1;
            if count == 2 {
                return i + 1;
            }
        }
    }
    panic!("missing header");
}

fn rgb_at(data: &[u8], w: usize, x: usize, y: usize) -> (u8, u8, u8) {
    let off = body_offset(data) + 3 * (y * w + x);
    (data[off], data[off + 1], data[off + 2])
}

#[test]
fn new_serializes_to_zero_body() {
    let canvas = Canvas::new(4, 3);
    let data = canvas.ppm_data();
    let off = body_offset(&data);
    assert_eq!(&data[..off], b"P6\n4 3 255\n");
    assert_eq!(data.len() - off, 4 * 3 * 3);
    for b in &data[off..] {
        assert_eq!(*b, 0u8);
    }
}

#[test]
fn fill_writes_low_bytes_in_rgb_order() {
    let mut canvas = Canvas::new(2, 2);
    canvas.fill(0xAABBCCDD);
    let data = canvas.ppm_data();
    for y in 0..2 {
        for x in 0..2 {
            assert_eq!(rgb_at(&data, 2, x, y), (0xDD, 0xCC, 0xBB));
        }
    }
}

#[test]
fn fill_twice_same_as_once() {
    let mut once = Canvas::new(5, 4);
    let mut twice = Canvas::new(5, 4);
    once.fill(0x123456);
    twice.fill(0x123456);
    twice.fill(0x123456);
    assert_eq!(once.ppm_data(), twice.ppm_data());
}

#[test]
fn full_rect_spares_last_row_and_column() {
    let mut canvas = Canvas::new(3, 3);
    canvas.fill_rect(0x00FF00, 0, 0, 3, 3);
    let data = canvas.ppm_data();
    for y in 0..3 {
        for x in 0..3 {
            let expected = if x < 2 && y < 2 { (0, 0xFF, 0) } else { (0, 0, 0) };
            assert_eq!(rgb_at(&data, 3, x, y), expected);
        }
    }
}

#[test]
fn full_rect_on_unit_canvas_paints_nothing() {
    // the corners are clamped to [0, w-1] = [0, 0], so the range is empty
    let mut canvas = Canvas::new(1, 1);
    canvas.fill_rect(0xFFFFFF, 0, 0, 1, 1);
    let data = canvas.ppm_data();
    assert_eq!(rgb_at(&data, 1, 0, 0), (0, 0, 0));
}

#[test]
fn offcanvas_rect_paints_nothing() {
    let mut canvas = Canvas::new(5, 4);
    canvas.fill(0x181818);
    let before = canvas.ppm_data();
    canvas.fill_rect(0x1818DD, -100, -100, 50, 50);
    assert_eq!(canvas.ppm_data(), before);
}

#[test]
fn rect_clamps_to_canvas() {
    let mut canvas = Canvas::new(5, 4);
    canvas.fill_rect(0x0000FF, -2, 1, 4, 10);
    let data = canvas.ppm_data();
    for y in 0..4 {
        for x in 0..5 {
            let painted = x < 2 && (1..3).contains(&y);
            let expected = if painted { (0xFF, 0, 0) } else { (0, 0, 0) };
            assert_eq!(rgb_at(&data, 5, x, y), expected);
        }
    }
}

#[test]
fn zero_size_rect_paints_nothing() {
    let mut canvas = Canvas::new(4, 4);
    let before = canvas.ppm_data();
    canvas.fill_rect(0xFFFFFF, 1, 1, 0, 3);
    canvas.fill_rect(0xFFFFFF, 1, 1, 3, 0);
    assert_eq!(canvas.ppm_data(), before);
}

#[test]
fn circle_edge_pixels() {
    let mut canvas = Canvas::new(16, 16);
    canvas.fill_circle(0xFF0000, 8, 8, 4);
    let data = canvas.ppm_data();
    // center and the pixel just inside the radius are painted
    assert_eq!(rgb_at(&data, 16, 8, 8), (0, 0, 0xFF));
    assert_eq!(rgb_at(&data, 16, 8 + 3, 8), (0, 0, 0xFF));
    // the pixel exactly at the radius is excluded (strict inequality)
    assert_eq!(rgb_at(&data, 16, 8 + 4, 8), (0, 0, 0));
}

#[test]
fn circle_offcanvas_center_paints_nothing() {
    let mut canvas = Canvas::new(8, 6);
    let before = canvas.ppm_data();
    canvas.fill_circle(0x00FF00, 16, 12, 3);
    assert_eq!(canvas.ppm_data(), before);
}

#[test]
fn diagonal_line_pixels() {
    let mut canvas = Canvas::new(4, 4);
    canvas.line(0xFFFFFF, 0, 0, 3, 3);
    let data = canvas.ppm_data();
    for y in 0..4 {
        for x in 0..4 {
            let expected = if x == y { (0xFF, 0xFF, 0xFF) } else { (0, 0, 0) };
            assert_eq!(rgb_at(&data, 4, x, y), expected);
        }
    }
}

#[test]
fn shallow_line_is_connected() {
    let mut canvas = Canvas::new(5, 3);
    canvas.line(0xFFFFFF, 0, 0, 4, 2);
    let data = canvas.ppm_data();
    let painted = [(0, 0), (1, 1), (2, 1), (3, 2), (4, 2)];
    for y in 0..3 {
        for x in 0..5 {
            let expected = if painted.contains(&(x, y)) {
                (0xFF, 0xFF, 0xFF)
            } else {
                (0, 0, 0)
            };
            assert_eq!(rgb_at(&data, 5, x, y), expected);
        }
    }
    // endpoints present, and each successive painted pixel is 8-adjacent
    assert_eq!(painted[0], (0, 0));
    assert_eq!(painted[painted.len() - 1], (4, 2));
    for pair in painted.windows(2) {
        let dx = (pair[1].0 as i64 - pair[0].0 as i64).abs();
        let dy = (pair[1].1 as i64 - pair[0].1 as i64).abs();
        assert!(dx <= 1 && dy <= 1 && (dx, dy) != (0, 0));
    }
}

#[test]
fn degenerate_line_paints_one_pixel() {
    let mut canvas = Canvas::new(4, 4);
    canvas.line(0x0000FF, 2, 1, 2, 1);
    let data = canvas.ppm_data();
    for y in 0..4 {
        for x in 0..4 {
            let expected = if (x, y) == (2, 1) { (0xFF, 0, 0) } else { (0, 0, 0) };
            assert_eq!(rgb_at(&data, 4, x, y), expected);
        }
    }
}

#[test]
fn line_clamps_endpoints_to_border() {
    let mut canvas = Canvas::new(4, 4);
    canvas.line(0xFFFFFF, -10, 2, 10, 2);
    let data = canvas.ppm_data();
    for y in 0..4 {
        for x in 0..4 {
            let expected = if y == 2 { (0xFF, 0xFF, 0xFF) } else { (0, 0, 0) };
            assert_eq!(rgb_at(&data, 4, x, y), expected);
        }
    }
}

#[test]
fn vertical_line_pixels() {
    let mut canvas = Canvas::new(3, 5);
    canvas.line(0x123456, 1, 0, 1, 4);
    let data = canvas.ppm_data();
    for y in 0..5 {
        for x in 0..3 {
            let expected = if x == 1 { (0x56, 0x34, 0x12) } else { (0, 0, 0) };
            assert_eq!(rgb_at(&data, 3, x, y), expected);
        }
    }
}
