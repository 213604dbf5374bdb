use pgm_median::image::{Image, PgmError};
use pgm_median::reader::parse_pgm;
use pgm_median::writer::{render_pgm, render_rows};

#[test]
fn exact_layout() {
    let text = render_pgm(2, 2, &vec![10, 20, 30, 40]).unwrap();
    assert_eq!(text, "P2\n2 2\n255\n10 20 \n30 40 \n");
}

#[test]
fn exact_layout_of_one_row() {
    let text = render_pgm(3, 1, &vec![0, 255, 7]).unwrap();
    assert_eq!(text, "P2\n3 1\n255\n0 255 7 \n");
}

#[test]
fn exact_layout_of_one_column() {
    let text = render_pgm(1, 3, &vec![1, 2, 3]).unwrap();
    assert_eq!(text, "P2\n1 3\n255\n1 \n2 \n3 \n");
}

#[test]
fn empty_images_have_a_header_only() {
    assert_eq!(render_pgm(0, 0, &vec![]).unwrap(), "P2\n0 0\n255\n");
    assert_eq!(render_pgm(0, 3, &vec![]).unwrap(), "P2\n0 3\n255\n");
    assert_eq!(render_pgm(4000000000, 0, &vec![]).unwrap(), "P2\n4000000000 0\n255\n");
}

#[test]
fn the_greatest_gray_value_is_always_255() {
    let text = render_pgm(2, 1, &vec![1, 2]).unwrap();
    assert_eq!(text.lines().nth(2), Some("255"));
}

#[test]
fn pixels_without_a_width_are_refused() {
    assert_eq!(render_pgm(0, 0, &vec![1]), Err(PgmError::ShapeMismatch));
    assert_eq!(render_pgm(0, 3, &vec![1, 2, 3]), Err(PgmError::ShapeMismatch));
}

#[test]
fn the_writer_takes_any_number_of_pixels() {
    assert_eq!(render_pgm(2, 2, &vec![1, 2, 3]).unwrap(), "P2\n2 2\n255\n1 2 \n3 ");
    assert_eq!(render_pgm(2, 2, &vec![1, 2, 3, 4, 5]).unwrap(), "P2\n2 2\n255\n1 2 \n3 4 \n5 ");
    assert_eq!(render_pgm(2, 1, &vec![1, 2, 3, 4]).unwrap(), "P2\n2 1\n255\n1 2 \n3 4 \n");
    assert_eq!(render_pgm(3, 3, &vec![7]).unwrap(), "P2\n3 3\n255\n7 ");
    assert_eq!(render_pgm(1, 1, &vec![]).unwrap(), "P2\n1 1\n255\n");
    assert_eq!(render_pgm(2, 0, &vec![9, 8]).unwrap(), "P2\n2 0\n255\n9 8 \n");
}

#[test]
fn a_last_row_that_is_not_full_ends_without_a_line_feed() {
    assert_eq!(render_rows(2, &vec![1, 2, 3]), "1 2 \n3 ");
    assert_eq!(render_rows(3, &vec![1, 2]), "1 2 ");
    assert_eq!(render_rows(2, &vec![1, 2, 3, 4]), "1 2 \n3 4 \n");
    assert_eq!(render_rows(5, &vec![]), "");
}

#[test]
fn every_value_is_written_in_decimal() {
    let pixels: Vec<u8> = (0..=255u8).collect();
    let text = render_rows(256, &pixels);
    let mut expected = String::new();
    for v in 0..=255u32 {
        expected.push_str(&v.to_string());
        expected.push(' ');
    }
    expected.push('\n');
    assert_eq!(text, expected);
}

#[test]
fn what_is_written_is_read_back() {
    let cases: Vec<(u32, u32, Vec<u8>)> = vec![
        (1, 1, vec![0]),
        (2, 2, vec![10, 20, 30, 40]),
        (3, 2, vec![0, 1, 9, 10, 99, 100]),
        (1, 4, vec![255, 254, 101, 110]),
        (4, 1, vec![5, 50, 200, 0]),
        (0, 2, vec![]),
        (2, 0, vec![]),
    ];
    for (width, height, pixels) in cases {
        let text = render_pgm(width, height, &pixels).unwrap();
        assert_eq!(parse_pgm(&text), Ok(Image { width, height, pixels }));
    }
}

#[test]
fn what_is_written_is_read_back_without_the_last_line_feed() {
    let text = render_pgm(2, 2, &vec![1, 2, 3, 4]).unwrap();
    let cut = text.strip_suffix('\n').unwrap();
    assert_eq!(parse_pgm(cut), Ok(Image { width: 2, height: 2, pixels: vec![1, 2, 3, 4] }));
}

#[test]
fn rows_that_are_not_full_are_read_back() {
    let text = render_pgm(2, 2, &vec![1, 2, 3]).unwrap();
    assert_eq!(parse_pgm(&text), Ok(Image { width: 2, height: 2, pixels: vec![1, 2, 3] }));
    let text = render_pgm(3, 0, &vec![4, 5, 6, 7]).unwrap();
    assert_eq!(parse_pgm(&text), Ok(Image { width: 3, height: 0, pixels: vec![4, 5, 6, 7] }));
}

#[test]
fn the_empty_image_is_not_read_back() {
    let text = render_pgm(0, 0, &vec![]).unwrap();
    assert_eq!(parse_pgm(&text), Err(PgmError::InvalidHeight));
}

#[test]
fn large_dimensions_are_written_in_full() {
    let text = render_pgm(u32::MAX, 0, &vec![]).unwrap();
    assert_eq!(text, "P2\n4294967295 0\n255\n");
    assert_eq!(parse_pgm(&text), Ok(Image { width: u32::MAX, height: 0, pixels: vec![] }));
}
