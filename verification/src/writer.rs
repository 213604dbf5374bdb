//! Writing the plain-text PGM format.
//!
//! The text starts with the tag `P2`, the line of the dimensions and the
//! line `255`. The pixels follow, each in decimal notation with one space
//! behind it, and a line feed behind the last pixel of each row. The writer
//! takes the pixels as they come: it writes rows of the width given, however
//! many pixels there are, and the height only into the header.

use vstd::prelude::*;
use vstd::string::StringExecFns;
use crate::decimal::{decimal, push_decimal};
use crate::image::PgmError;

verus! {

/// The header: the tag, the dimensions and the greatest gray value, which is
/// always written as 255.
pub open spec fn header_text(width: nat, height: nat) -> Seq<char> {
    seq!['P', '2', '\n'] + decimal(width) + seq![' '] + decimal(height) + seq![
        '\n',
        '2',
        '5',
        '5',
        '\n',
    ]
}

/// Tells whether the pixel at index `i` is the last of its row.
pub open spec fn ends_row(width: nat, i: int) -> bool {
    (i + 1) % (width as int) == 0
}

/// The text of the pixel at index `i`: its value, a space, and a line feed
/// where the pixel ends a row.
pub open spec fn pixel_text(width: nat, pixels: Seq<u8>, i: int) -> Seq<char> {
    decimal(pixels[i] as nat).push(' ') + if ends_row(width, i) {
        seq!['\n']
    } else {
        Seq::empty()
    }
}

/// The text of the first `n` pixels.
pub open spec fn rows_text(width: nat, pixels: Seq<u8>, n: nat) -> Seq<char>
    decreases n,
{
    if n == 0 {
        Seq::empty()
    } else {
        rows_text(width, pixels, (n - 1) as nat) + pixel_text(width, pixels, n - 1)
    }
}

/// The text of an image.
pub open spec fn pgm_text(width: nat, height: nat, pixels: Seq<u8>) -> Seq<char> {
    header_text(width, height) + rows_text(width, pixels, pixels.len())
}

/// Appends the header of an image of the given dimensions.
fn push_header(out: &mut String, width: u32, height: u32)
    ensures
        final(out)@ == old(out)@ + header_text(width as nat, height as nat),
{
    proof {
        reveal_strlit("P2\n");
        reveal_strlit(" ");
        reveal_strlit("\n255\n");
    }
    out.append("P2\n");
    push_decimal(out, width);
    out.append(" ");
    push_decimal(out, height);
    out.append("\n255\n");
    assert(out@ == old(out)@ + header_text(width as nat, height as nat));
}

/// The text of the pixels in rows of `width`: each value with a space behind
/// it, and a line feed behind every `width`-th value. Where the number of
/// pixels is no multiple of `width`, no line feed ends the last row.
pub fn render_rows(width: u32, pixels: &Vec<u8>) -> (text: String)
    requires
        width > 0,
    ensures
        text@ == rows_text(width as nat, pixels@, pixels@.len()),
{
    let mut text = String::new();
    let mut i: usize = 0;
    while i < pixels.len()
        invariant
            width > 0,
            i <= pixels@.len(),
            text@ == rows_text(width as nat, pixels@, i as nat),
        decreases pixels@.len() - i,
    {
        proof {
            reveal_strlit(" ");
            reveal_strlit("\n");
        }
        let ghost before = text@;
        push_decimal(&mut text, pixels[i] as u32);
        text.append(" ");
        if (i + 1) % width as usize == 0 {
            text.append("\n");
        }
        assert(text@ == before + pixel_text(width as nat, pixels@, i as int));
        i += 1;
    }
    text
}

/// The text of an image: the header, then the pixels in rows of `width`.
/// The number of pixels need not be the width times the height: each row
/// takes `width` of them, and a last row that is not full ends without a line
/// feed.
///
/// Fails with `ShapeMismatch`, and only then, when there are pixels to write
/// and the width is zero, so that no row can take them.
pub fn render_pgm(width: u32, height: u32, pixels: &Vec<u8>) -> (r: Result<String, PgmError>)
    ensures
        match r {
            Ok(text) => (width > 0 || pixels@.len() == 0) && text@ == pgm_text(
                width as nat,
                height as nat,
                pixels@,
            ),
            Err(e) => width == 0 && pixels@.len() > 0 && e == PgmError::ShapeMismatch,
        },
{
    if width == 0 && pixels.len() > 0 {
        return Err(PgmError::ShapeMismatch);
    }
    let mut text = String::new();
    push_header(&mut text, width, height);
    if width > 0 {
        let rows = render_rows(width, pixels);
        text.append(rows.as_str());
    } else {
        assert(text@ + Seq::<char>::empty() == text@);
    }
    Ok(text)
}

} // verus!
