//! Reading the plain-text PGM format, line by line.
//!
//! The reader is a small state machine. Each line of the text moves it from
//! one state to the next, or stops it with an error; what it has gathered at
//! the end of the text is the image.

use vstd::prelude::*;
use vstd::slice::slice_subrange;
use crate::chars::{
    after_line, line_end, line_len, lines, next_word, to_chars, trim, trimmed, words,
};
use crate::chars::{
    lemma_line_len_bound, lemma_lines_concat, lemma_lines_final_line_feed, lemma_lines_first,
    lemma_trim_is_subrange, lemma_words_concat, lemma_words_trim,
};
use crate::decimal::{parse_decimal, parse_u32, parse_u8};
use crate::image::{Image, ImageView, PgmError};

verus! {

/// What the reader has gathered so far, as a mathematical value.
pub struct ReaderView {
    pub width: nat,
    pub height: nat,
    pub reading_pixels: bool,
    pub pixels: Seq<u8>,
}

/// What the reader expects of the next line that is neither a comment nor,
/// in the header, the format tag.
#[derive(Debug, Clone, Copy, PartialEq, Eq, Structural)]
pub enum Phase {
    /// The header, as long as width and height are both zero: the next line
    /// holds the dimensions.
    ExpectingDimensions,
    /// The header, once a dimension is set: a line that is one number ends
    /// the header, any other line is passed over.
    ExpectingMaxValue,
    /// Behind the header: every word of every line is a pixel.
    ReadingPixels,
}

/// The state before the first line.
pub open spec fn initial_state() -> ReaderView {
    ReaderView { width: 0, height: 0, reading_pixels: false, pixels: Seq::empty() }
}

/// The phase that a state is in.
pub open spec fn phase_of(state: ReaderView) -> Phase {
    if state.reading_pixels {
        Phase::ReadingPixels
    } else if state.width == 0 && state.height == 0 {
        Phase::ExpectingDimensions
    } else {
        Phase::ExpectingMaxValue
    }
}

/// A comment is a line that, trimmed, starts with a number sign.
pub open spec fn is_comment(line: Seq<char>) -> bool {
    line.len() > 0 && line[0] == '#'
}

/// The format tag is a line that, trimmed, is exactly `P2`.
pub open spec fn is_tag(line: Seq<char>) -> bool {
    line == seq!['P', '2']
}

/// Width and height as the line of the dimensions gives them: its first two
/// words, each an unsigned number of 32 bits. Further words are passed over.
pub open spec fn read_dimensions(line: Seq<char>) -> Result<(nat, nat), PgmError> {
    let found = words(line);
    if found.len() < 1 || parse_decimal(found[0], u32::MAX as nat) is None {
        Err(PgmError::InvalidWidth)
    } else if found.len() < 2 || parse_decimal(found[1], u32::MAX as nat) is None {
        Err(PgmError::InvalidHeight)
    } else {
        Ok(
            (
                parse_decimal(found[0], u32::MAX as nat)->0,
                parse_decimal(found[1], u32::MAX as nat)->0,
            ),
        )
    }
}

/// `pixels` with the values of `found` appended, where each word of `found`
/// is a number from 0 to 255.
pub open spec fn read_pixels(pixels: Seq<u8>, found: Seq<Seq<char>>) -> Result<Seq<u8>, PgmError>
    decreases found.len(),
{
    if found.len() == 0 {
        Ok(pixels)
    } else {
        match parse_decimal(found[0], u8::MAX as nat) {
            Some(value) => read_pixels(pixels.push(value as u8), found.drop_first()),
            None => Err(PgmError::InvalidPixel),
        }
    }
}

/// The state after one more line, given without its line feed.
pub open spec fn step(state: ReaderView, raw: Seq<char>) -> Result<ReaderView, PgmError> {
    let line = trim(raw);
    if is_comment(line) {
        Ok(state)
    } else {
        match phase_of(state) {
            Phase::ReadingPixels => match read_pixels(state.pixels, words(line)) {
                Ok(pixels) => Ok(ReaderView { pixels, ..state }),
                Err(e) => Err(e),
            },
            Phase::ExpectingDimensions => if is_tag(line) {
                Ok(state)
            } else {
                match read_dimensions(line) {
                    Ok((width, height)) => Ok(ReaderView { width, height, ..state }),
                    Err(e) => Err(e),
                }
            },
            Phase::ExpectingMaxValue => if parse_decimal(line, u32::MAX as nat) is Some {
                Ok(ReaderView { reading_pixels: true, ..state })
            } else {
                Ok(state)
            },
        }
    }
}

/// The state after a sequence of lines, or the error of the first line that
/// has one.
pub open spec fn run(state: ReaderView, text_lines: Seq<Seq<char>>) -> Result<ReaderView, PgmError>
    decreases text_lines.len(),
{
    if text_lines.len() == 0 {
        Ok(state)
    } else {
        match step(state, text_lines[0]) {
            Ok(next) => run(next, text_lines.drop_first()),
            Err(e) => Err(e),
        }
    }
}

/// The image that a state holds. Nothing relates the number of pixels to the
/// dimensions: the reader hands on what the text holds.
pub open spec fn image_of(state: ReaderView) -> ImageView {
    ImageView { width: state.width, height: state.height, pixels: state.pixels }
}

/// The image that a text denotes, or the error that reading it ends in.
pub open spec fn parsed(text: Seq<char>) -> Result<ImageView, PgmError> {
    match run(initial_state(), lines(text)) {
        Ok(state) => Ok(image_of(state)),
        Err(e) => Err(e),
    }
}

/// Reading the words of two sequences in a row is reading the first, then
/// the second; an error in the first ends it.
pub proof fn lemma_read_pixels_concat(
    pixels: Seq<u8>,
    first: Seq<Seq<char>>,
    second: Seq<Seq<char>>,
)
    ensures
        read_pixels(pixels, first + second) == match read_pixels(pixels, first) {
            Ok(more) => read_pixels(more, second),
            Err(e) => Err(e),
        },
    decreases first.len(),
{
    if first.len() == 0 {
        assert(first + second == second);
    } else {
        assert((first + second).drop_first() == first.drop_first() + second);
        match parse_decimal(first[0], u8::MAX as nat) {
            Some(value) => {
                lemma_read_pixels_concat(pixels.push(value as u8), first.drop_first(), second);
            },
            None => {},
        }
    }
}

/// Running over the lines of two sequences in a row is running over the
/// first, then over the second; an error in the first ends it.
pub proof fn lemma_run_concat(state: ReaderView, first: Seq<Seq<char>>, second: Seq<Seq<char>>)
    ensures
        run(state, first + second) == match run(state, first) {
            Ok(next) => run(next, second),
            Err(e) => Err(e),
        },
    decreases first.len(),
{
    if first.len() == 0 {
        assert(first + second == second);
    } else {
        assert((first + second).drop_first() == first.drop_first() + second);
        match step(state, first[0]) {
            Ok(next) => {
                lemma_run_concat(next, first.drop_first(), second);
            },
            Err(e) => {},
        }
    }
}

/// A comment changes nothing, in whatever state it is read.
pub proof fn lemma_comment_keeps_state(state: ReaderView, line: Seq<char>)
    requires
        is_comment(trim(line)),
    ensures
        step(state, line) == Ok::<ReaderView, PgmError>(state),
{
}

/// A comment line leaves no trace in what is read: a text with a comment
/// line between two of its lines, in the header or among the pixel data,
/// denotes what the text without that line denotes.
pub proof fn lemma_comment_line_ignored(before: Seq<char>, comment: Seq<char>, after: Seq<char>)
    requires
        before.len() == 0 || before.last() == '\n',
        forall|i: int| 0 <= i < comment.len() ==> comment[i] != '\n',
        is_comment(trim(comment)),
    ensures
        parsed(before + (comment + seq!['\n'] + after)) == parsed(before + after),
{
    let start = initial_state();
    lemma_lines_concat(before, comment + seq!['\n'] + after);
    lemma_lines_concat(before, after);
    lemma_lines_first(comment, after);
    lemma_run_concat(start, lines(before), seq![comment] + lines(after));
    lemma_run_concat(start, lines(before), lines(after));
    match run(start, lines(before)) {
        Ok(state) => {
            assert((seq![comment] + lines(after)).drop_first() == lines(after));
        },
        Err(e) => {},
    }
}

/// A comment in the last line, with no line feed behind it, leaves no trace
/// either.
pub proof fn lemma_final_comment_ignored(before: Seq<char>, comment: Seq<char>)
    requires
        before.len() == 0 || before.last() == '\n',
        forall|i: int| 0 <= i < comment.len() ==> comment[i] != '\n',
        is_comment(trim(comment)),
    ensures
        parsed(before + comment) == parsed(before),
{
    lemma_trim_is_subrange(comment);
    lemma_lines_final_line_feed(before + comment);
    assert((before + comment).push('\n') == before + (comment + seq!['\n'] + Seq::<char>::empty()));
    lemma_comment_line_ignored(before, comment, Seq::<char>::empty());
    assert(before + Seq::<char>::empty() == before);
}

/// The line feed at the end of the last line can be left out.
pub proof fn lemma_final_line_feed_optional(text: Seq<char>)
    requires
        text.len() > 0,
        text.last() != '\n',
    ensures
        parsed(text.push('\n')) == parsed(text),
{
    lemma_lines_final_line_feed(text);
}

/// Behind the header, and without comments, the lines do not matter: the
/// pixels read are the words of the whole text.
pub proof fn lemma_pixel_lines_are_words(state: ReaderView, text: Seq<char>)
    requires
        state.reading_pixels,
        forall|i: int| 0 <= i < text.len() ==> text[i] != '#',
    ensures
        run(state, lines(text)) == match read_pixels(state.pixels, words(text)) {
            Ok(pixels) => Ok::<ReaderView, PgmError>(ReaderView { pixels, ..state }),
            Err(e) => Err(e),
        },
    decreases text.len(),
{
    if text.len() > 0 {
        let n = line_len(text) as int;
        let line = text.take(n);
        let rest = after_line(text);
        lemma_line_len_bound(text);
        let (a, b) = lemma_trim_is_subrange(line);
        lemma_words_trim(line);
        assert(!is_comment(trim(line))) by {
            if trim(line).len() > 0 {
                assert(trim(line)[0] == text[a]);
            }
        }
        let tail = text.skip(n);
        assert(text == line + tail);
        lemma_words_concat(line, tail);
        if n < text.len() {
            assert(tail.skip(1) == rest);
            assert(words(tail) == words(rest));
        } else {
            assert(tail == rest);
        }
        assert(words(text) == words(line) + words(rest));
        lemma_read_pixels_concat(state.pixels, words(line), words(rest));
        assert(lines(text).drop_first() == lines(rest));
        match step(state, line) {
            Ok(next) => {
                assert forall|i: int| 0 <= i < rest.len() implies rest[i] != '#' by {
                    assert(rest[i] == text[n + 1 + i]);
                }
                lemma_pixel_lines_are_words(next, rest);
            },
            Err(e) => {},
        }
    } else {
        assert(words(text) == Seq::<Seq<char>>::empty());
    }
}

/// The state of a reader between two lines.
#[derive(Debug, PartialEq, Eq)]
pub struct Reader {
    pub width: u32,
    pub height: u32,
    pub reading_pixels: bool,
    pub pixels: Vec<u8>,
}

impl View for Reader {
    type V = ReaderView;

    open spec fn view(&self) -> ReaderView {
        ReaderView {
            width: self.width as nat,
            height: self.height as nat,
            reading_pixels: self.reading_pixels,
            pixels: self.pixels@,
        }
    }
}

impl Clone for Reader {
    fn clone(&self) -> (copy: Reader)
        ensures
            copy@ == self@,
    {
        Reader {
            width: self.width,
            height: self.height,
            reading_pixels: self.reading_pixels,
            pixels: self.pixels.clone(),
        }
    }
}

/// Tells whether the trimmed line starts with a number sign.
fn line_is_comment(line: &[char]) -> (b: bool)
    ensures
        b == is_comment(line@),
{
    line.len() > 0 && line[0] == '#'
}

/// Tells whether the trimmed line is the format tag.
fn line_is_tag(line: &[char]) -> (b: bool)
    ensures
        b == is_tag(line@),
{
    let b = line.len() == 2 && line[0] == 'P' && line[1] == '2';
    assert(b == (line@ =~= seq!['P', '2']));
    b
}

/// Reads width and height from the line of the dimensions.
fn dimensions_of(line: &[char]) -> (r: Result<(u32, u32), PgmError>)
    ensures
        r matches Ok((w, h)) ==> read_dimensions(line@) == Ok::<(nat, nat), PgmError>(
            (w as nat, h as nat),
        ),
        r matches Err(e) ==> read_dimensions(line@) == Err::<(nat, nat), PgmError>(e),
{
    assert(line@.skip(0) == line@);
    let (start, end) = match next_word(line, 0) {
        Some(extent) => extent,
        None => {
            return Err(PgmError::InvalidWidth);
        },
    };
    let width = match parse_u32(slice_subrange(line, start, end)) {
        Some(width) => width,
        None => {
            return Err(PgmError::InvalidWidth);
        },
    };
    let (start, end) = match next_word(line, end) {
        Some(extent) => extent,
        None => {
            return Err(PgmError::InvalidHeight);
        },
    };
    let height = match parse_u32(slice_subrange(line, start, end)) {
        Some(height) => height,
        None => {
            return Err(PgmError::InvalidHeight);
        },
    };
    Ok((width, height))
}

/// Appends the pixels of one line of pixel data.
fn append_pixels(pixels: &mut Vec<u8>, line: &[char]) -> (r: Result<(), PgmError>)
    ensures
        r is Ok ==> read_pixels(old(pixels)@, words(line@)) == Ok::<Seq<u8>, PgmError>(
            final(pixels)@,
        ),
        r matches Err(e) ==> read_pixels(old(pixels)@, words(line@)) == Err::<Seq<u8>, PgmError>(e),
{
    let mut from: usize = 0;
    assert(line@.skip(0) == line@);
    loop
        invariant
            from <= line@.len(),
            read_pixels(old(pixels)@, words(line@)) == read_pixels(
                pixels@,
                words(line@.skip(from as int)),
            ),
        decreases line@.len() - from,
    {
        let (start, end) = match next_word(line, from) {
            Some(extent) => extent,
            None => {
                return Ok(());
            },
        };
        let ghost found = words(line@.skip(from as int));
        assert(found.drop_first() == words(line@.skip(end as int)));
        match parse_u8(slice_subrange(line, start, end)) {
            Some(value) => {
                pixels.push(value);
            },
            None => {
                return Err(PgmError::InvalidPixel);
            },
        }
        from = end;
    }
}

impl Reader {
    /// A reader before the first line.
    pub fn new() -> (reader: Reader)
        ensures
            reader@ == initial_state(),
    {
        Reader { width: 0, height: 0, reading_pixels: false, pixels: Vec::new() }
    }

    /// The phase that the reader is in.
    pub fn phase(&self) -> (phase: Phase)
        ensures
            phase == phase_of(self@),
    {
        if self.reading_pixels {
            Phase::ReadingPixels
        } else if self.width == 0 && self.height == 0 {
            Phase::ExpectingDimensions
        } else {
            Phase::ExpectingMaxValue
        }
    }

    /// Takes in one line, given without its line feed, and gives the reader
    /// after it, or the error that the line has.
    pub fn feed_line(self, raw: &[char]) -> (r: Result<Reader, PgmError>)
        ensures
            r matches Ok(next) ==> step(self@, raw@) == Ok::<ReaderView, PgmError>(next@),
            r matches Err(e) ==> step(self@, raw@) == Err::<ReaderView, PgmError>(e),
    {
        let line = trimmed(raw);
        if line_is_comment(line) {
            return Ok(self);
        }
        match self.phase() {
            Phase::ReadingPixels => {
                let mut pixels = self.pixels;
                match append_pixels(&mut pixels, line) {
                    Ok(()) => Ok(
                        Reader {
                            width: self.width,
                            height: self.height,
                            reading_pixels: true,
                            pixels,
                        },
                    ),
                    Err(e) => Err(e),
                }
            },
            Phase::ExpectingDimensions => {
                if line_is_tag(line) {
                    Ok(self)
                } else {
                    match dimensions_of(line) {
                        Ok((width, height)) => Ok(
                            Reader { width, height, reading_pixels: false, pixels: self.pixels },
                        ),
                        Err(e) => Err(e),
                    }
                }
            },
            Phase::ExpectingMaxValue => {
                if parse_u32(line).is_some() {
                    Ok(
                        Reader {
                            width: self.width,
                            height: self.height,
                            reading_pixels: true,
                            pixels: self.pixels,
                        },
                    )
                } else {
                    Ok(self)
                }
            },
        }
    }

    /// The image that the reader has gathered.
    pub fn finish(self) -> (image: Image)
        ensures
            image@ == image_of(self@),
    {
        Image { width: self.width, height: self.height, pixels: self.pixels }
    }
}

/// Reads an image from the text of a plain PGM file.
///
/// Lines are trimmed; a line that then starts with `#` is passed over
/// wherever it stands. In the header a line `P2` is passed over, the first
/// other line gives width and height, and the next line that is one number
/// ends the header. Behind the header every word is a pixel from 0 to 255.
pub fn parse_pgm(text: &str) -> (r: Result<Image, PgmError>)
    ensures
        r matches Ok(image) ==> parsed(text@) == Ok::<ImageView, PgmError>(image@),
        r matches Err(e) ==> parsed(text@) == Err::<ImageView, PgmError>(e),
{
    let chars = to_chars(text);
    let mut reader = Reader::new();
    let mut from: usize = 0;
    assert(chars@.skip(0) == chars@);
    while from < chars.len()
        invariant
            from <= chars@.len(),
            chars@ == text@,
            run(initial_state(), lines(text@)) == run(reader@, lines(chars@.skip(from as int))),
        decreases chars@.len() - from,
    {
        let end = line_end(chars.as_slice(), from);
        let line = slice_subrange(chars.as_slice(), from, end);
        let ghost rest = chars@.skip(from as int);
        let next_from = if end < chars.len() {
            end + 1
        } else {
            end
        };
        proof {
            lemma_line_len_bound(rest);
            assert(rest.take(end - from) == line@);
            assert(after_line(rest) == chars@.skip(next_from as int));
            assert(lines(rest).drop_first() == lines(chars@.skip(next_from as int)));
        }
        match reader.feed_line(line) {
            Ok(next) => {
                reader = next;
            },
            Err(e) => {
                return Err(e);
            },
        }
        from = next_from;
    }
    Ok(reader.finish())
}

} // verus!
