use launcher::bitmap::Bitmap;
use launcher::surface::{push_row, Bgra};
use launcher::xpm::{parse_xpm, XpmError};

const SMALL: &str = "/* XPM */\nstatic char *small[] = {\n\"2 2 2 1\",\n\"a c #FF8000\",\n\"b c None\",\n\"ab\",\n\"ba\"\n};\n";

fn error_of(text: &str, stride: usize) -> XpmError {
    match parse_xpm(text) {
        Err(e) => e,
        Ok(x) => x.pixels(stride).unwrap_err(),
    }
}

#[test]
fn small_pixmap() {
    let x = parse_xpm(SMALL).unwrap();
    assert_eq!((x.header.width, x.header.height), (2, 2));
    assert_eq!(
        x.pixels(8).unwrap(),
        [0, 128, 255, 255, 0, 0, 0, 0, 0, 0, 0, 0, 0, 128, 255, 255]
    );
}

#[test]
fn pixmap_rows_are_padded_to_the_stride() {
    let x = parse_xpm(SMALL).unwrap();
    let v = x.pixels(12).unwrap();
    assert_eq!(v.len(), 24);
    assert_eq!(&v[0..12], [0, 128, 255, 255, 0, 0, 0, 0, 0, 0, 0, 0]);
    assert_eq!(&v[12..24], [0, 0, 0, 0, 0, 128, 255, 255, 0, 0, 0, 0]);
}

#[test]
fn pixmap_with_carriage_returns_and_short_colours() {
    let x = parse_xpm("\"1 1 1 2 extra\",\r\n\"xy\tc #18f\",\r\n\"xy\"\r\n").unwrap();
    assert_eq!(x.pixels(4).unwrap(), [255, 136, 17, 255]);
}

#[test]
fn pixmap_key_that_no_colour_names_stays_clear() {
    let x = parse_xpm("\"2 1 1 1\"\n\"a c #010203\"\n\"?a\"").unwrap();
    assert_eq!(x.pixels(8).unwrap(), [0, 0, 0, 0, 3, 2, 1, 255]);
}

#[test]
fn pixmap_key_given_twice_takes_the_later_colour() {
    let x = parse_xpm("\"1 1 2 1\"\n\"a c #111111\"\n\"a c #222222\"\n\"a\"").unwrap();
    assert_eq!(x.pixels(4).unwrap(), [34, 34, 34, 255]);
}

#[test]
fn pixmap_header_numbers_may_have_a_plus() {
    let x = parse_xpm("\"+1 +1 +1 +1\"\n\"a c #+1+2+3\"\n\"a\"").unwrap();
    assert_eq!(x.pixels(4).unwrap(), [3, 2, 1, 255]);
}

#[test]
fn pixmap_keys_of_several_bytes() {
    let x = parse_xpm("\"2 1 2 2\"\n\"é c #00f\"\n\"ab c #0f0\"\n\"abé\"").unwrap();
    assert_eq!(x.pixels(8).unwrap(), [0, 255, 0, 255, 255, 0, 0, 255]);
}

#[test]
fn malformed_pixmaps() {
    for text in [
        "",
        "no strings",
        "\"1 1 1\"",
        "\"1 1 x 1\"",
        "\"4294967296 1 1 1\"",
        "\"1 1 1 1\"",
        "\"1 1 1 1\"\n\"a #ffffff\"",
        "\"1 1 1 1\"\n\"a c red\"",
        "\"1 1 1 1\"\n\"a c #ffff\"",
        "\"1 1 1 1\"\n\"a c #gggggg\"",
        "\"1 1 1 1\"\n\"a c #ffffff\"",
    ] {
        assert_eq!(error_of(text, 4), XpmError::Malformed, "{}", text);
    }
}

#[test]
fn pixmaps_cut_where_they_cannot_be() {
    for text in [
        "\"1 1 1 9\"\n\"a c #fff\"\n\"a\"",
        "\"1 1 1 1\"\n\"é c #fff\"\n\"é\"",
        "\"2 1 1 1\"\n\"a c #fff\"\n\"a\"",
        "\"1 1 1 1\"\n\"a c #\u{20ac}\"\n\"a\"",
    ] {
        assert_eq!(error_of(text, 8), XpmError::Cut, "{}", text);
    }
}

#[test]
fn first_failure_of_a_pixmap_decides() {
    assert_eq!(
        error_of("\"1 1 2 1\"\n\"a c red\"\n\"é c #fff\"", 4),
        XpmError::Malformed
    );
    assert_eq!(
        error_of("\"1 1 2 1\"\n\"é c #fff\"\n\"a c red\"", 4),
        XpmError::Cut
    );
}

#[test]
fn pixel_lies_at_its_place() {
    let p = |n: u8| Bgra {
        b: n,
        g: n + 1,
        r: n + 2,
        a: n + 3,
    };
    let mut out = Vec::new();
    push_row(&mut out, &vec![p(10), p(20)], 9);
    push_row(&mut out, &vec![p(30), p(40)], 9);
    assert_eq!(out.len(), 18);
    assert_eq!(&out[9 + 4..9 + 8], [40, 41, 42, 43]);
    assert_eq!(out[8], 0);
}

#[test]
fn picture_without_alpha() {
    let mut file = b"P6\n2 1\n255\n".to_vec();
    file.extend([255, 0, 7, 1, 128, 255]);
    let read = image::load_from_memory_with_format(&file, image::ImageFormat::Pnm)
        .unwrap()
        .to_rgba8();
    let (width, height) = read.dimensions();
    let m = Bitmap::new(width, height, read.into_raw()).unwrap();
    assert_eq!((m.width, m.height), (2, 1));
    assert_eq!(m.data, [255, 0, 7, 255, 1, 128, 255, 255]);
    assert_eq!(m.pixels(8), [7, 0, 255, 255, 255, 128, 1, 255]);
}

#[test]
fn picture_colours_are_multiplied_by_alpha() {
    let m = Bitmap::new(1, 3, vec![255, 100, 0, 128, 9, 9, 9, 0, 1, 2, 3, 255]).unwrap();
    assert_eq!(
        m.pixels(4),
        [0, 50, 128, 128, 0, 0, 0, 0, 3, 2, 1, 255]
    );
}

#[test]
fn picture_rows_are_padded_to_the_stride() {
    let m = Bitmap::new(1, 2, vec![1, 2, 3, 255, 4, 5, 6, 255]).unwrap();
    assert_eq!(m.pixels(6), [3, 2, 1, 255, 0, 0, 6, 5, 4, 255, 0, 0]);
}

#[test]
fn picture_pixel_lies_at_its_place() {
    let data: Vec<u8> = (0..24).map(|i| if i % 4 == 3 { 255 } else { i }).collect();
    let m = Bitmap::new(3, 2, data).unwrap();
    let bytes = m.pixels(13);
    assert_eq!(bytes.len(), 26);
    assert_eq!(&bytes[13 + 4 * 2..13 + 4 * 3], [22, 21, 20, 255]);
    assert_eq!(bytes[12], 0);
}

#[test]
fn picture_needs_four_bytes_for_each_pixel() {
    assert!(Bitmap::new(1, 1, vec![0; 3]).is_none());
    assert!(Bitmap::new(u32::MAX, u32::MAX, vec![0; 16]).is_none());
    assert!(Bitmap::new(1, 1, vec![0; 5]).is_some());
    assert_eq!(Bitmap::new(0, 7, vec![]).unwrap().pixels(0), []);
    assert_eq!(Bitmap::new(7, 0, vec![]).unwrap().pixels(28), []);
}
