use ray_tracer::canvas::{pixel_position, Canvas};
use ray_tracer::ppm::Rgb8;

type Color = (f64, f64, f64);

const BLACK: Color = (0.0, 0.0, 0.0);

fn rgb(red: u8, green: u8, blue: u8) -> Rgb8 {
    Rgb8 { red, green, blue }
}

#[test]
fn test_creating_a_canvas() {
    let c = Canvas::new(10, 20, BLACK);
    assert_eq!(c.width, 10);
    assert_eq!(c.height, 20);
    for y in 0..20 {
        for x in 0..10 {
            assert_eq!(c.pixel_at(x, y), &(0.0, 0.0, 0.0));
        }
    }
}

#[test]
fn test_writing_pixels_to_a_canvas() {
    let mut c = Canvas::new(10, 20, BLACK);
    let red = (1.0, 0.0, 0.0);
    c.write_pixel(2, 3, &red);
    assert_eq!(c.pixel_at(2, 3), &red);
}

#[test]
fn writing_outside_the_canvas_changes_nothing() {
    let mut c = Canvas::new(4, 3, BLACK);
    let red = (1.0, 0.0, 0.0);
    c.write_pixel(4, 0, &red);
    c.write_pixel(0, 3, &red);
    assert!(c.pixels.iter().all(|p| *p == BLACK));
    assert_eq!(c.pixels.len(), 12);
}

#[test]
fn writing_a_pixel_touches_only_that_pixel() {
    let mut c = Canvas::new(3, 2, 0u32);
    c.write_pixel(1, 1, &7);
    assert_eq!(c.pixels, vec![0, 0, 0, 0, 7, 0]);
}

#[test]
fn pixels_are_stored_row_by_row() {
    let c = Canvas::from_pixels(3, 2, vec![1, 2, 3, 4, 5, 6]);
    assert_eq!(*c.pixel_at(0, 0), 1);
    assert_eq!(*c.pixel_at(2, 0), 3);
    assert_eq!(*c.pixel_at(0, 1), 4);
    assert_eq!(*c.pixel_at(2, 1), 6);
}

#[test]
fn pixel_position_walks_rows_in_order() {
    assert_eq!(pixel_position(11, 0), (0, 0));
    assert_eq!(pixel_position(11, 10), (10, 0));
    assert_eq!(pixel_position(11, 11), (0, 1));
    assert_eq!(pixel_position(11, 60), (5, 5));
    assert_eq!(pixel_position(1, 7), (0, 7));
}

#[test]
fn test_contructing_the_ppm_header() {
    let c = Canvas::new(5, 3, rgb(0, 0, 0));
    let ppm = c.to_ppm();
    assert!(ppm.starts_with("P3\n5 3\n255\n"));
}

#[test]
fn test_contructing_ppm_pixel_data() {
    let mut c = Canvas::new(5, 3, rgb(0, 0, 0));
    let c1 = rgb(255, 0, 0);
    let c2 = rgb(0, 127, 0);
    let c3 = rgb(0, 0, 255);
    c.write_pixel(0, 0, &c1);
    c.write_pixel(2, 1, &c2);
    c.write_pixel(4, 2, &c3);
    let ppm = c.to_ppm();
    ppm.lines().enumerate().for_each(|(i, line)| match i {
        3 => assert_eq!(line, "255 0 0 0 0 0 0 0 0 0 0 0 0 0 0"),
        4 => assert_eq!(line, "0 0 0 0 0 0 0 127 0 0 0 0 0 0 0"),
        5 => assert_eq!(line, "0 0 0 0 0 0 0 0 0 0 0 0 0 0 255"),
        _ => (),
    });
    assert_eq!(ppm.lines().count(), 3 + 3);
}

#[test]
fn test_splitting_long_lines_in_ppm_files() {
    let mut c = Canvas::new(10, 2, rgb(0, 0, 0));
    let color = rgb(255, 204, 153);
    for y in 0..2 {
        for x in 0..10 {
            c.write_pixel(x, y, &color);
        }
    }
    let ppm = c.to_ppm();
    ppm.lines().enumerate().for_each(|(i, line)| match i {
        3 => assert_eq!(
            line,
            "255 204 153 255 204 153 255 204 153 255 204 153 255 204 153 255 204"
        ),
        4 => assert_eq!(line, "153 255 204 153 255 204 153 255 204 153 255 204 153"),
        5 => assert_eq!(
            line,
            "255 204 153 255 204 153 255 204 153 255 204 153 255 204 153 255 204"
        ),
        6 => assert_eq!(line, "153 255 204 153 255 204 153 255 204 153 255 204 153"),
        _ => (),
    });
    assert_eq!(ppm.lines().count(), 3 + 2 * 2);
}

#[test]
fn test_ppm_files_are_terminated_by_a_newline_character() {
    let c = Canvas::new(5, 3, rgb(0, 0, 0));
    let ppm = c.to_ppm();
    assert_eq!(ppm.chars().last(), Some('\n'));
}

#[test]
fn ppm_of_a_single_pixel() {
    let c = Canvas::new(1, 1, rgb(0, 12, 255));
    assert_eq!(c.to_ppm(), "P3\n1 1\n255\n0 12 255\n");
}

#[test]
fn ppm_of_an_empty_image_is_the_header() {
    let c = Canvas::new(0, 0, rgb(1, 2, 3));
    assert_eq!(c.to_ppm(), "P3\n0 0\n255\n");
}

#[test]
fn ppm_of_a_wide_canvas_writes_multi_digit_sizes() {
    let c = Canvas::new(123, 1, rgb(9, 10, 100));
    let ppm = c.to_ppm();
    assert!(ppm.starts_with("P3\n123 1\n255\n9 10 100 9 10 100"));
}

#[test]
fn ppm_lines_never_exceed_seventy_characters() {
    let c = Canvas::new(40, 3, rgb(255, 255, 255));
    let ppm = c.to_ppm();
    for line in ppm.lines() {
        assert!(line.len() <= 70);
    }
    // 120 three-digit values per row: 17 values fill a line of 67
    // characters, so each row takes 8 lines.
    assert_eq!(ppm.lines().count(), 3 + 3 * 8);
}

#[test]
fn ppm_line_filled_exactly_to_the_limit() {
    // 33 values "100", then "10", "1", "1": the second line ends exactly
    // at 70 characters.
    let mut pixels = Vec::new();
    for _ in 0..11 {
        pixels.push(rgb(100, 100, 100));
    }
    pixels.push(rgb(10, 1, 1));
    let c = Canvas::from_pixels(12, 1, pixels);
    let ppm = c.to_ppm();
    let lines: Vec<&str> = ppm.lines().collect();
    // 17 three-digit values and a space each take 17 * 4 - 1 = 67
    // characters; one more value would need 71.
    assert_eq!(lines[3].len(), 67);
    assert_eq!(lines[4], "100 100 100 100 100 100 100 100 100 100 100 100 100 100 100 100 10 1 1");
    assert_eq!(lines[4].len(), 70);
    assert_eq!(lines.len(), 5);
}

#[test]
fn rgb8_ppm_value_joins_channels() {
    assert_eq!(rgb(255, 127, 0).ppm_value(), "255 127 0");
    assert_eq!(rgb(255, 0, 0).ppm_value(), "255 0 0");
    assert_eq!(rgb(7, 42, 199).ppm_value(), "7 42 199");
}
