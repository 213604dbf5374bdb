//! Reading back what was written.
//!
//! The text that the writer gives for an image denotes that image: the
//! reader finds in it the width, the height and the pixels that were
//! written.

use vstd::prelude::*;
use crate::chars::{is_space, lines, trim, words};
use crate::chars::{
    lemma_lines_first, lemma_trim_is_subrange, lemma_words_blank, lemma_words_concat,
    lemma_words_single,
};
use crate::decimal::{decimal, digits_value, is_digit, parse_decimal};
use crate::decimal::lemma_decimal_digits;
use crate::image::{ImageView, PgmError};
use crate::reader::{initial_state, parsed, read_dimensions, read_pixels, run, step, ReaderView};
use crate::reader::lemma_pixel_lines_are_words;
use crate::writer::{header_text, pgm_text, pixel_text, rows_text};

verus! {

/// The decimal notations of the values of `pixels`, one word for each.
spec fn decimal_words(pixels: Seq<u8>) -> Seq<Seq<char>> {
    Seq::new(pixels.len(), |i: int| decimal(pixels[i] as nat))
}

/// Tells whether `s` is made of digits, spaces and line feeds only.
spec fn plain(s: Seq<char>) -> bool {
    forall|i: int| 0 <= i < s.len() ==> is_digit(#[trigger] s[i]) || s[i] == ' ' || s[i] == '\n'
}

/// The state behind the header of an image of the given dimensions.
spec fn behind_header(width: nat, height: nat) -> ReaderView {
    ReaderView { width, height, reading_pixels: true, pixels: Seq::empty() }
}

/// A text that neither starts nor ends with white space is its own trimmed
/// form.
proof fn lemma_trim_keeps(s: Seq<char>)
    requires
        s.len() > 0,
        !is_space(s[0]),
        !is_space(s.last()),
    ensures
        trim(s) == s,
{
    lemma_trim_is_subrange(s);
    assert(s.subrange(0, s.len() as int) == s);
}

/// The decimal notation of a number is one word.
proof fn lemma_decimal_is_word(n: nat)
    ensures
        decimal(n).len() > 0,
        forall|i: int| 0 <= i < decimal(n).len() ==> !is_space(decimal(n)[i]),
        words(decimal(n)) == seq![decimal(n)],
        plain(decimal(n)),
{
    lemma_decimal_digits(n);
    lemma_words_single(decimal(n));
}

/// The words of the text of the first `n` pixels are the decimal notations of
/// those pixels.
proof fn lemma_words_of_rows(width: nat, pixels: Seq<u8>, n: nat)
    requires
        n <= pixels.len(),
    ensures
        words(rows_text(width, pixels, n)) == decimal_words(pixels.take(n as int)),
        plain(rows_text(width, pixels, n)),
        n > 0 ==> rows_text(width, pixels, n).len() > 0 && is_space(
            rows_text(width, pixels, n).last(),
        ),
    decreases n,
{
    if n == 0 {
        assert(words(rows_text(width, pixels, n)) == decimal_words(pixels.take(n as int)));
    } else {
        let before = rows_text(width, pixels, (n - 1) as nat);
        let number = decimal(pixels[n - 1] as nat);
        let this = pixel_text(width, pixels, n - 1);
        let gap = this.skip(number.len() as int);
        lemma_words_of_rows(width, pixels, (n - 1) as nat);
        lemma_decimal_is_word(pixels[n - 1] as nat);
        assert(this == number + gap);
        lemma_words_blank(gap);
        lemma_words_concat(number, gap);
        lemma_words_concat(before, this);
        assert(words(this) == seq![number]);
        assert(decimal_words(pixels.take(n - 1)).push(number) == decimal_words(
            pixels.take(n as int),
        ));
        assert(words(before) + seq![number] == words(before).push(number));
    }
}

/// Reading the decimal notations of pixels appends those pixels.
proof fn lemma_read_decimal_words(gathered: Seq<u8>, pixels: Seq<u8>)
    ensures
        read_pixels(gathered, decimal_words(pixels)) == Ok::<Seq<u8>, PgmError>(gathered + pixels),
    decreases pixels.len(),
{
    if pixels.len() == 0 {
        assert(gathered + pixels == gathered);
    } else {
        lemma_decimal_digits(pixels[0] as nat);
        assert(decimal_words(pixels).drop_first() == decimal_words(pixels.drop_first()));
        lemma_read_decimal_words(gathered.push(pixels[0]), pixels.drop_first());
        assert(gathered.push(pixels[0]) + pixels.drop_first() == gathered + pixels);
    }
}

/// The line of the dimensions, as written, is one line that starts with a
/// digit, is its own trimmed form, and gives back the dimensions.
proof fn lemma_dimensions_read_back(width: nat, height: nat)
    requires
        width <= u32::MAX,
        height <= u32::MAX,
    ensures
        ({
            let line = decimal(width) + seq![' '] + decimal(height);
            &&& read_dimensions(line) == Ok::<(nat, nat), PgmError>((width, height))
            &&& trim(line) == line
            &&& is_digit(line[0])
            &&& forall|i: int| 0 <= i < line.len() ==> line[i] != '\n'
        }),
{
    let w = decimal(width);
    let h = decimal(height);
    let line = w + seq![' '] + h;
    lemma_decimal_is_word(width);
    lemma_decimal_is_word(height);
    lemma_decimal_digits(width);
    lemma_decimal_digits(height);
    assert(line[0] == w[0]);
    assert(line.last() == h.last());
    lemma_trim_keeps(line);
    assert(line == w + (seq![' '] + h));
    lemma_words_concat(w, seq![' '] + h);
    lemma_words_blank(seq![' ']);
    lemma_words_concat(seq![' '], h);
    assert(words(line) == seq![w] + (Seq::<Seq<char>>::empty() + seq![h]));
    assert(words(line) == seq![w, h]);
    assert forall|i: int| 0 <= i < line.len() implies line[i] != '\n' by {
        if i < w.len() {
            assert(is_digit(w[i]));
        } else if i > w.len() {
            assert(is_digit(h[i - w.len() - 1]));
        }
    }
}

/// The line `255` is its own trimmed form, one word, and a number.
proof fn lemma_max_value_line(line: Seq<char>)
    requires
        line == seq!['2', '5', '5'],
    ensures
        trim(line) == line,
        words(line) == seq![line],
        parse_decimal(line, u32::MAX as nat) == Some(255nat),
{
    lemma_trim_keeps(line);
    lemma_words_single(line);
    let two = line.drop_last().drop_last();
    assert(two.drop_last() == Seq::<char>::empty());
    assert(digits_value(two.drop_last()) == 0);
    assert(digits_value(two) == 2);
    assert(digits_value(line.drop_last()) == 25);
    assert(digits_value(line) == 255);
}

/// Where a dimension is not zero, the header as written takes the reader
/// from its first state to the state behind the header. Where both are zero,
/// the reader still waits for the dimensions when it meets the line `255`,
/// and finds no height in it.
proof fn lemma_header_read(width: nat, height: nat, rest: Seq<char>)
    requires
        width <= u32::MAX,
        height <= u32::MAX,
    ensures
        run(initial_state(), lines(header_text(width, height) + rest)) == if width == 0 && height
            == 0 {
            Err::<ReaderView, PgmError>(PgmError::InvalidHeight)
        } else {
            run(behind_header(width, height), lines(rest))
        },
{
    let tag = seq!['P', '2'];
    let dims = decimal(width) + seq![' '] + decimal(height);
    let max = seq!['2', '5', '5'];
    let feed = seq!['\n'];
    let text = header_text(width, height) + rest;
    let body = lines(rest);
    lemma_trim_keeps(tag);
    lemma_dimensions_read_back(width, height);
    lemma_max_value_line(max);

    // The text is three lines of header and the rest.
    assert(text == tag + feed + (dims + feed + (max + feed + rest)));
    lemma_lines_first(tag, dims + feed + (max + feed + rest));
    lemma_lines_first(dims, max + feed + rest);
    lemma_lines_first(max, rest);
    let from_dims = seq![dims] + (seq![max] + body);
    assert(lines(text) == seq![tag] + from_dims);
    assert((seq![tag] + from_dims).drop_first() == from_dims);
    assert(from_dims.drop_first() == seq![max] + body);
    assert((seq![max] + body).drop_first() == body);

    // The tag leaves the first state as it is, the second line sets the
    // dimensions, the third ends the header.
    let s0 = initial_state();
    let s1 = ReaderView { width, height, ..s0 };
    assert(step(s0, tag) == Ok::<ReaderView, PgmError>(s0));
    assert(step(s0, dims) == Ok::<ReaderView, PgmError>(s1));
    assert(run(s0, lines(text)) == run(s0, from_dims));
    assert(run(s0, from_dims) == run(s1, seq![max] + body));
    if width == 0 && height == 0 {
        assert(step(s1, max) == Err::<ReaderView, PgmError>(PgmError::InvalidHeight));
    } else {
        assert(step(s1, max) == Ok::<ReaderView, PgmError>(behind_header(width, height)));
    }
}

/// Reading back the text of an image gives the image: its width, its height
/// and its pixels. This holds of every image but those whose width and height
/// are both zero, and it holds whether or not the last row is full.
pub proof fn lemma_round_trip(width: nat, height: nat, pixels: Seq<u8>)
    requires
        width <= u32::MAX,
        height <= u32::MAX,
        width > 0 || height > 0,
    ensures
        parsed(pgm_text(width, height, pixels)) == Ok::<ImageView, PgmError>(
            ImageView { width, height, pixels },
        ),
{
    let rows = rows_text(width, pixels, pixels.len());
    let start = behind_header(width, height);
    lemma_header_read(width, height, rows);
    lemma_words_of_rows(width, pixels, pixels.len());
    assert(pixels.take(pixels.len() as int) == pixels);
    assert forall|i: int| 0 <= i < rows.len() implies rows[i] != '#' by {
        assert(is_digit(rows[i]) || rows[i] == ' ' || rows[i] == '\n');
    }
    lemma_pixel_lines_are_words(start, rows);
    lemma_read_decimal_words(Seq::empty(), pixels);
    assert(Seq::<u8>::empty() + pixels == pixels);
    assert(run(start, lines(rows)) == Ok::<ReaderView, PgmError>(ReaderView { pixels, ..start }));
}

/// Where width and height are both zero the text is not read back: the
/// reader, which takes a width and a height of zero for dimensions not yet
/// given, looks for them in the line `255` and finds no height.
pub proof fn lemma_no_round_trip_without_dimensions(pixels: Seq<u8>)
    ensures
        parsed(pgm_text(0, 0, pixels)) == Err::<ImageView, PgmError>(PgmError::InvalidHeight),
{
    lemma_header_read(0, 0, rows_text(0, pixels, pixels.len()));
}

} // verus!
