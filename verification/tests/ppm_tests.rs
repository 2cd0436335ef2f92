use olive::canvas::Canvas;

fn parse(data: &[u8]) -> (usize, usize, Vec<u32>) {
    assert_eq!(&data[..3], b"P6\n");
    let mut i = 3;
    let mut w: usize = 0;
    while data[i].is_ascii_digit() {
        w = w * 10 + (data[i] - b'0') as usize;
        i += 1;
    }
    assert_eq!(data[i], b' ');
    i += 1;
    let mut h: usize = 0;
    while data[i].is_ascii_digit() {
        h = h * 10 + (data[i] - b'0') as usize;
        i += 1;
    }
    assert_eq!(&data[i..i + 5], b" 255\n");
    i += 5;
    assert_eq!(data.len() - i, 3 * w * h);
    let mut pixels = Vec::with_capacity(w * h);
    for p in 0..w * h {
        let r = data[i + 3 * p] as u32;
        let g = data[i + 3 * p + 1] as u32;
        let b = data[i + 3 * p + 2] as u32;
        pixels.push(r | (g << 8) | (b << 16));
    }
    (w, h, pixels)
}

#[test]
fn header_holds_decimal_dimensions() {
    let canvas = Canvas::new(123, 45);
    let data = canvas.ppm_data();
    assert_eq!(&data[..b"P6\n123 45 255\n".len()], b"P6\n123 45 255\n");
}

#[test]
fn round_trip_recovers_grid() {
    let mut canvas = Canvas::new(3, 2);
    canvas.fill(0x101010);
    canvas.fill_rect(0xDD3311, 1, 0, 1, 1);
    canvas.line(0x44AA77, 0, 1, 2, 1);
    let data = canvas.ppm_data();
    let (w, h, pixels) = parse(&data);
    assert_eq!((w, h), (3, 2));
    assert_eq!(
        pixels,
        vec![0x101010, 0xDD3311, 0x101010, 0x44AA77, 0x44AA77, 0x44AA77]
    );
}

#[test]
fn round_trip_drops_high_byte() {
    let mut canvas = Canvas::new(2, 1);
    canvas.fill(0xFF123456);
    let data = canvas.ppm_data();
    let (w, h, pixels) = parse(&data);
    assert_eq!((w, h), (2, 1));
    assert_eq!(pixels, vec![0x123456, 0x123456]);
}

#[test]
fn body_is_row_major_top_row_first() {
    let mut canvas = Canvas::new(2, 2);
    canvas.fill_rect(0x0000FF, 0, 0, 1, 1); // paints only (0, 0)
    let data = canvas.ppm_data();
    let (_, _, pixels) = parse(&data);
    assert_eq!(pixels, vec![0x0000FF, 0, 0, 0]);
}
