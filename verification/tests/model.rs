use pgm_median::image::PgmError;
use pgm_median::{apply_median_filter, parse_pgm, render_pgm};

/// A small generator of pseudo-random numbers, the same on every run.
struct Lcg(u64);

impl Lcg {
    fn next(&mut self) -> u64 {
        self.0 = self.0.wrapping_mul(6364136223846793005).wrapping_add(1442695040888963407);
        self.0 >> 33
    }

    fn below(&mut self, bound: u64) -> u64 {
        self.next() % bound
    }
}

/// The reader written line by line with the standard library.
fn read_with_std(text: &str) -> Result<(u32, u32, Vec<u8>), PgmError> {
    let mut width: u32 = 0;
    let mut height: u32 = 0;
    let mut pixels: Vec<u8> = Vec::new();
    let mut reading_pixels = false;
    for line in text.lines() {
        let line = line.trim();
        if line.starts_with('#') {
            continue;
        }
        if !reading_pixels {
            if line == "P2" {
                continue;
            } else if width == 0 && height == 0 {
                let dims: Vec<&str> = line.split_whitespace().collect();
                width = dims
                    .first()
                    .and_then(|w| w.parse().ok())
                    .ok_or(PgmError::InvalidWidth)?;
                height = dims
                    .get(1)
                    .and_then(|h| h.parse().ok())
                    .ok_or(PgmError::InvalidHeight)?;
            } else if line.parse::<u32>().is_ok() {
                reading_pixels = true;
            }
            continue;
        }
        for value in line.split_whitespace() {
            pixels.push(value.parse().map_err(|_| PgmError::InvalidPixel)?);
        }
    }
    Ok((width, height, pixels))
}

/// The filter written with the standard library's sort.
fn filter_with_std(width: u32, height: u32, pixels: &[u8]) -> Vec<u8> {
    let mut out = pixels.to_vec();
    for y in 0..height as i64 {
        for x in 0..width as i64 {
            let mut values: Vec<u8> = Vec::new();
            for dx in -1..=1i64 {
                for dy in -1..=1i64 {
                    let (nx, ny) = (x + dx, y + dy);
                    if nx >= 0 && ny >= 0 && nx < width as i64 && ny < height as i64 {
                        values.push(pixels[(ny * width as i64 + nx) as usize]);
                    }
                }
            }
            values.sort();
            out[(y * width as i64 + x) as usize] = values[values.len() / 2];
        }
    }
    out
}

/// The writer written with the standard library's formatting.
fn write_with_std(width: u32, height: u32, pixels: &[u8]) -> String {
    let mut content = String::new();
    content.push_str("P2\n");
    content.push_str(&format!("{} {}\n255\n", width, height));
    for (i, pixel) in pixels.iter().enumerate() {
        content.push_str(&format!("{} ", pixel));
        if (i + 1) % width as usize == 0 {
            content.push('\n');
        }
    }
    content
}

fn random_text(rng: &mut Lcg, alphabet: &[&str], max_len: u64) -> String {
    let len = rng.below(max_len + 1);
    let mut text = String::new();
    for _ in 0..len {
        text.push_str(alphabet[rng.below(alphabet.len() as u64) as usize]);
    }
    text
}

fn random_image(rng: &mut Lcg) -> (u32, u32, Vec<u8>) {
    let width = rng.below(7) as u32;
    let height = rng.below(7) as u32;
    let spread = [2u64, 4, 256][rng.below(3) as usize];
    let pixels = (0..width * height).map(|_| rng.below(spread) as u8).collect();
    (width, height, pixels)
}

#[test]
fn reader_agrees_with_the_standard_library_on_random_texts() {
    let alphabet = [
        "P2", "P", "2", "#", " ", " ", "\n", "\n", "\n", "\t", "\r\n", "\r", "0", "1", "5", "25",
        "255", "256", "7 8 9", "+", "-", "x", "\u{a0}", "\u{2028}", "\u{200b}", "4294967295",
        "4294967296", "3 2\n", "0 0\n", "P2\n", "# c\n", "255\n",
    ];
    let mut rng = Lcg(1);
    for _ in 0..20000 {
        let text = random_text(&mut rng, &alphabet, 14);
        let got = parse_pgm(&text).map(|image| (image.width, image.height, image.pixels));
        assert_eq!(got, read_with_std(&text), "{:?}", text);
    }
}

#[test]
fn reader_agrees_with_the_standard_library_behind_a_header() {
    let alphabet = [
        " ", " ", "\n", "\t", "\r\n", "0", "1", "9", "12", "255", "256", "007", "+3", "#", "# 4\n",
        "-1", "\u{3000}", "1.5",
    ];
    let mut rng = Lcg(2);
    for _ in 0..20000 {
        let mut text = String::from("P2\n4 4\n255\n");
        text.push_str(&random_text(&mut rng, &alphabet, 12));
        let got = parse_pgm(&text).map(|image| (image.width, image.height, image.pixels));
        assert_eq!(got, read_with_std(&text), "{:?}", text);
    }
}

#[test]
fn filter_agrees_with_the_standard_library_on_random_images() {
    let mut rng = Lcg(3);
    for _ in 0..3000 {
        let (width, height, pixels) = random_image(&mut rng);
        let got = apply_median_filter(width, height, &pixels);
        assert_eq!(got, Ok(filter_with_std(width, height, &pixels)));
    }
}

#[test]
fn writer_agrees_with_the_standard_library_on_random_images() {
    let mut rng = Lcg(4);
    for _ in 0..3000 {
        let (width, height, pixels) = random_image(&mut rng);
        let got = render_pgm(width, height, &pixels);
        assert_eq!(got, Ok(write_with_std(width, height, &pixels)));
    }
}

#[test]
fn writer_agrees_with_the_standard_library_on_any_number_of_pixels() {
    let mut rng = Lcg(7);
    for _ in 0..3000 {
        let width = 1 + rng.below(6) as u32;
        let height = rng.below(7) as u32;
        let count = rng.below(30);
        let pixels: Vec<u8> = (0..count).map(|_| rng.below(256) as u8).collect();
        let text = render_pgm(width, height, &pixels);
        assert_eq!(text, Ok(write_with_std(width, height, &pixels)));
        let got = parse_pgm(&text.unwrap()).map(|image| (image.width, image.height, image.pixels));
        assert_eq!(got, Ok((width, height, pixels)));
    }
}

#[test]
fn random_images_are_read_back() {
    let mut rng = Lcg(5);
    for _ in 0..3000 {
        let (width, height, pixels) = random_image(&mut rng);
        let text = render_pgm(width, height, &pixels).unwrap();
        let got = parse_pgm(&text).map(|image| (image.width, image.height, image.pixels));
        if width == 0 && height == 0 {
            assert_eq!(got, Err(PgmError::InvalidHeight));
        } else {
            assert_eq!(got, Ok((width, height, pixels)));
        }
    }
}

#[test]
fn comment_lines_change_nothing_in_random_texts() {
    let alphabet = ["P2\n", "3 2\n", "255\n", "1 2 3\n", "4 5\n", "6\n", "x\n", "\n", "0 0\n"];
    let comments = ["#", "# a comment", "  #255", "\t# 1 2 3 ", "#P2", "##"];
    let mut rng = Lcg(6);
    for _ in 0..5000 {
        let before = random_text(&mut rng, &alphabet, 5);
        let after = random_text(&mut rng, &alphabet, 5);
        let comment = comments[rng.below(comments.len() as u64) as usize];
        let with = format!("{}{}\n{}", before, comment, after);
        let without = format!("{}{}", before, after);
        assert_eq!(parse_pgm(&with), parse_pgm(&without), "{:?}", with);
    }
}
