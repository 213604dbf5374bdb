use pgm_median::image::{Image, PgmError};
use pgm_median::reader::{parse_pgm, Phase, Reader};

fn image(width: u32, height: u32, pixels: Vec<u8>) -> Image {
    Image { width, height, pixels }
}

fn chars(text: &str) -> Vec<char> {
    text.chars().collect()
}

#[test]
fn reads_a_plain_file() {
    let text = "P2\n3 2\n255\n1 2 3\n4 5 6\n";
    assert_eq!(parse_pgm(text), Ok(image(3, 2, vec![1, 2, 3, 4, 5, 6])));
}

#[test]
fn comments_are_passed_over_everywhere() {
    let text = "# first\nP2\n# size\n2 2\n  # gray\n255\n1 2\n# between rows\n3 4\n#last";
    assert_eq!(parse_pgm(text), Ok(image(2, 2, vec![1, 2, 3, 4])));
}

#[test]
fn a_comment_may_hold_numbers() {
    let text = "P2\n# 9 9\n2 1\n# 7\n255\n# 1 2 3\n5 6\n";
    assert_eq!(parse_pgm(text), Ok(image(2, 1, vec![5, 6])));
}

#[test]
fn a_number_sign_inside_a_line_is_no_comment() {
    assert_eq!(parse_pgm("P2\n1 1\n255\n7 # seven\n"), Err(PgmError::InvalidPixel));
}

#[test]
fn the_last_line_feed_may_be_missing() {
    assert_eq!(parse_pgm("P2\n2 1\n255\n8 9"), Ok(image(2, 1, vec![8, 9])));
    assert_eq!(parse_pgm("P2\n2 1\n255\n8 9\n"), Ok(image(2, 1, vec![8, 9])));
}

#[test]
fn the_tag_may_be_missing() {
    assert_eq!(parse_pgm("2 1\n255\n8 9\n"), Ok(image(2, 1, vec![8, 9])));
}

#[test]
fn another_tag_is_no_tag() {
    assert_eq!(parse_pgm("p2\n2 1\n255\n8 9\n"), Err(PgmError::InvalidWidth));
    assert_eq!(parse_pgm("P 2\n2 1\n255\n8 9\n"), Err(PgmError::InvalidWidth));
    assert_eq!(parse_pgm("P22\n2 1\n255\n8 9\n"), Err(PgmError::InvalidWidth));
}

#[test]
fn without_a_line_of_one_number_there_are_no_pixels() {
    assert_eq!(parse_pgm("P2\n2 2\n"), Ok(image(2, 2, vec![])));
    assert_eq!(parse_pgm("P2\n2 2\n1 2\n3 4\n"), Ok(image(2, 2, vec![])));
}

#[test]
fn the_value_of_the_third_line_is_not_looked_at() {
    assert_eq!(parse_pgm("P2\n1 1\n15\n200\n"), Ok(image(1, 1, vec![200])));
    assert_eq!(parse_pgm("P2\n1 1\n4294967295\n200\n"), Ok(image(1, 1, vec![200])));
    // too large for 32 bits: no number, so the header goes on
    assert_eq!(parse_pgm("P2\n1 1\n4294967296\n200\n9\n"), Ok(image(1, 1, vec![9])));
}

#[test]
fn header_lines_that_are_no_number_are_passed_over() {
    assert_eq!(parse_pgm("P2\n1 1\nhello\nP2\n\n255 255\n255\n3\n"), Ok(image(1, 1, vec![3])));
}

#[test]
fn empty_text_is_an_empty_image() {
    assert_eq!(parse_pgm(""), Ok(image(0, 0, vec![])));
    assert_eq!(parse_pgm("P2"), Ok(image(0, 0, vec![])));
    assert_eq!(parse_pgm("P2\n"), Ok(image(0, 0, vec![])));
}

#[test]
fn an_empty_line_before_the_dimensions_is_an_error() {
    assert_eq!(parse_pgm("\n"), Err(PgmError::InvalidWidth));
    assert_eq!(parse_pgm("P2\n\n2 2\n255\n"), Err(PgmError::InvalidWidth));
    assert_eq!(parse_pgm("P2\n   \n2 2\n255\n"), Err(PgmError::InvalidWidth));
}

#[test]
fn bad_dimensions() {
    assert_eq!(parse_pgm("P2\nx 2\n255\n"), Err(PgmError::InvalidWidth));
    assert_eq!(parse_pgm("P2\n-1 2\n255\n"), Err(PgmError::InvalidWidth));
    assert_eq!(parse_pgm("P2\n4294967296 2\n255\n"), Err(PgmError::InvalidWidth));
    assert_eq!(parse_pgm("P2\n2\n255\n"), Err(PgmError::InvalidHeight));
    assert_eq!(parse_pgm("P2\n2 y\n255\n"), Err(PgmError::InvalidHeight));
    assert_eq!(parse_pgm("P2\n2 2.5\n255\n"), Err(PgmError::InvalidHeight));
    assert_eq!(parse_pgm("P2\n2 4294967296\n255\n"), Err(PgmError::InvalidHeight));
    assert_eq!(parse_pgm("P2\nx y\n255\n"), Err(PgmError::InvalidWidth));
}

#[test]
fn largest_dimensions() {
    assert_eq!(
        parse_pgm("P2\n4294967295 4294967295\n255\n"),
        Ok(image(u32::MAX, u32::MAX, vec![]))
    );
}

#[test]
fn further_words_on_the_line_of_the_dimensions_are_passed_over() {
    assert_eq!(parse_pgm("P2\n2 1 255 junk\n255\n8 9\n"), Ok(image(2, 1, vec![8, 9])));
}

#[test]
fn zero_dimensions_are_asked_for_again() {
    assert_eq!(parse_pgm("P2\n0 0\n3 1\n255\n1 2 3\n"), Ok(image(3, 1, vec![1, 2, 3])));
    assert_eq!(parse_pgm("P2\n0 0\n255\n"), Err(PgmError::InvalidHeight));
    assert_eq!(parse_pgm("P2\n0 5\n255\n"), Ok(image(0, 5, vec![])));
    assert_eq!(parse_pgm("P2\n5 0\n255\n"), Ok(image(5, 0, vec![])));
}

#[test]
fn bad_pixels() {
    assert_eq!(parse_pgm("P2\n1 1\n255\n256\n"), Err(PgmError::InvalidPixel));
    assert_eq!(parse_pgm("P2\n1 1\n255\n-1\n"), Err(PgmError::InvalidPixel));
    assert_eq!(parse_pgm("P2\n1 1\n255\n1.0\n"), Err(PgmError::InvalidPixel));
    assert_eq!(parse_pgm("P2\n1 1\n255\n0x10\n"), Err(PgmError::InvalidPixel));
    assert_eq!(parse_pgm("P2\n2 1\n255\n1 two\n"), Err(PgmError::InvalidPixel));
    assert_eq!(parse_pgm("P2\n1 1\n255\nP2\n"), Err(PgmError::InvalidPixel));
    assert_eq!(parse_pgm("P2\n1 1\n255\n+\n"), Err(PgmError::InvalidPixel));
    assert_eq!(parse_pgm("P2\n1 1\n255\n1+\n"), Err(PgmError::InvalidPixel));
    assert_eq!(parse_pgm("P2\n1 1\n255\n++1\n"), Err(PgmError::InvalidPixel));
}

#[test]
fn numbers_may_have_a_plus_sign_and_leading_zeros() {
    assert_eq!(
        parse_pgm("P2\n+2 002\n+255\n+1 007 0000000000000000000255 +0\n"),
        Ok(image(2, 2, vec![1, 7, 255, 0]))
    );
}

#[test]
fn pixel_bounds() {
    assert_eq!(parse_pgm("P2\n2 1\n255\n0 255\n"), Ok(image(2, 1, vec![0, 255])));
}

#[test]
fn the_pixel_count_is_taken_as_it_is() {
    assert_eq!(parse_pgm("P2\n2 2\n255\n1 2 3\n"), Ok(image(2, 2, vec![1, 2, 3])));
    assert_eq!(parse_pgm("P2\n1 1\n255\n1 2 3\n"), Ok(image(1, 1, vec![1, 2, 3])));
}

#[test]
fn rows_of_the_text_need_not_be_rows_of_the_image() {
    assert_eq!(parse_pgm("P2\n2 2\n255\n1\n2 3 4\n"), Ok(image(2, 2, vec![1, 2, 3, 4])));
    assert_eq!(parse_pgm("P2\n2 2\n255\n\n1 2 3 4\n\n\n"), Ok(image(2, 2, vec![1, 2, 3, 4])));
}

#[test]
fn all_white_space_separates() {
    let text = "\tP2 \r\n 2\u{a0}1\u{3000}\r\n\u{2003}255\u{85}\r\n 8\t9\u{2028}10\u{b}11 \r\n";
    assert_eq!(parse_pgm(text), Ok(image(2, 1, vec![8, 9, 10, 11])));
}

#[test]
fn a_zero_width_space_is_no_white_space() {
    assert_eq!(parse_pgm("P2\n1 1\n255\n8\u{200b}9\n"), Err(PgmError::InvalidPixel));
}

#[test]
fn other_digits_are_no_digits() {
    assert_eq!(parse_pgm("P2\n1 1\n255\n\u{661}\n"), Err(PgmError::InvalidPixel));
}

#[test]
fn the_reader_walks_through_its_phases() {
    let reader = Reader::new();
    assert_eq!(reader.phase(), Phase::ExpectingDimensions);
    assert_eq!((reader.width, reader.height, reader.reading_pixels), (0, 0, false));

    let reader = reader.feed_line(&chars("  P2  ")).unwrap();
    assert_eq!(reader.phase(), Phase::ExpectingDimensions);

    let reader = reader.feed_line(&chars("# a comment")).unwrap();
    assert_eq!(reader.phase(), Phase::ExpectingDimensions);

    let reader = reader.feed_line(&chars("4 3")).unwrap();
    assert_eq!(reader.phase(), Phase::ExpectingMaxValue);
    assert_eq!((reader.width, reader.height), (4, 3));

    let reader = reader.feed_line(&chars("not a number")).unwrap();
    assert_eq!(reader.phase(), Phase::ExpectingMaxValue);

    let reader = reader.feed_line(&chars(" 255 ")).unwrap();
    assert_eq!(reader.phase(), Phase::ReadingPixels);
    assert_eq!(reader.pixels, Vec::<u8>::new());

    let reader = reader.feed_line(&chars("1 2 3 4")).unwrap();
    let reader = reader.feed_line(&chars("   # still a comment")).unwrap();
    let reader = reader.feed_line(&chars("")).unwrap();
    let reader = reader.feed_line(&chars("5")).unwrap();
    assert_eq!(reader.phase(), Phase::ReadingPixels);
    assert_eq!(reader.pixels, vec![1, 2, 3, 4, 5]);

    let failed = reader.clone().feed_line(&chars("6 seven"));
    assert_eq!(failed, Err(PgmError::InvalidPixel));

    let image = reader.finish();
    assert_eq!(image, Image { width: 4, height: 3, pixels: vec![1, 2, 3, 4, 5] });
}

#[test]
fn a_line_feed_inside_a_fed_line_is_white_space() {
    let reader = Reader::new().feed_line(&chars("2\n3")).unwrap();
    assert_eq!((reader.width, reader.height), (2, 3));
}

#[test]
fn copies_are_equal() {
    let first = image(2, 1, vec![3, 4]);
    assert_eq!(first.clone(), first);
    let reader = Reader::new().feed_line(&chars("2 1")).unwrap();
    assert_eq!(reader.clone(), reader);
}

#[test]
fn error_messages_differ() {
    assert_eq!(PgmError::InvalidWidth.message(), "Invalid width");
    assert_eq!(PgmError::InvalidHeight.message(), "Invalid height");
    assert_eq!(PgmError::InvalidPixel.message(), "Invalid pixel value");
    assert_eq!(
        PgmError::ShapeMismatch.message(),
        "Pixel count does not match width and height"
    );
}

#[test]
fn well_formed_images() {
    assert!(image(2, 2, vec![1, 2, 3, 4]).is_well_formed());
    assert!(image(0, 0, vec![]).is_well_formed());
    assert!(image(0, 9, vec![]).is_well_formed());
    assert!(!image(2, 2, vec![1, 2, 3]).is_well_formed());
    assert!(!image(0, 0, vec![1]).is_well_formed());
    assert!(!image(u32::MAX, u32::MAX, vec![1]).is_well_formed());
}
