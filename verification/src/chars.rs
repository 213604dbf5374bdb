//! Characters and character sequences: white space, lines, words, trimming.
//!
//! Text is modelled as `Seq<char>`. A line ends at a line feed, a word is a
//! maximal run of characters that are not white space.

use vstd::prelude::*;
use vstd::slice::slice_subrange;
use vstd::std_specs::iter::IteratorSpec;

verus! {

/// The characters with the Unicode property `White_Space`.
pub open spec fn is_space(c: char) -> bool {
    ||| '\u{9}' <= c <= '\u{D}'
    ||| c == ' '
    ||| c == '\u{85}'
    ||| c == '\u{A0}'
    ||| c == '\u{1680}'
    ||| '\u{2000}' <= c <= '\u{200A}'
    ||| c == '\u{2028}'
    ||| c == '\u{2029}'
    ||| c == '\u{202F}'
    ||| c == '\u{205F}'
    ||| c == '\u{3000}'
}

/// The number of characters of `s` before its first line feed, or the length
/// of `s` where it holds none.
pub open spec fn line_len(s: Seq<char>) -> nat
    decreases s.len(),
{
    if s.len() == 0 || s[0] == '\n' {
        0
    } else {
        1 + line_len(s.skip(1))
    }
}

/// What follows the first line of `s`: the text behind its first line feed,
/// or nothing where `s` holds no line feed.
pub open spec fn after_line(s: Seq<char>) -> Seq<char> {
    if line_len(s) < s.len() {
        s.skip(line_len(s) as int + 1)
    } else {
        Seq::empty()
    }
}

/// The lines of `s`, without their line feeds. A line feed ends a line, so
/// text that ends in one has no empty last line, and the empty text has no
/// line at all.
pub open spec fn lines(s: Seq<char>) -> Seq<Seq<char>>
    decreases s.len(),
{
    if s.len() == 0 {
        Seq::empty()
    } else {
        seq![s.take(line_len(s) as int)] + lines(after_line(s))
    }
}

/// The number of characters of `s` before its first white space, or the
/// length of `s` where it holds none.
pub open spec fn word_len(s: Seq<char>) -> nat
    decreases s.len(),
{
    if s.len() == 0 || is_space(s[0]) {
        0
    } else {
        1 + word_len(s.skip(1))
    }
}

/// The words of `s`: its maximal runs of characters that are not white space,
/// in order.
pub open spec fn words(s: Seq<char>) -> Seq<Seq<char>>
    decreases s.len(),
{
    if s.len() == 0 {
        Seq::empty()
    } else if is_space(s[0]) {
        words(s.skip(1))
    } else {
        proof {
            lemma_word_len_bound(s);
        }
        seq![s.take(word_len(s) as int)] + words(s.skip(word_len(s) as int))
    }
}

/// `s` without its leading white space.
pub open spec fn trim_start(s: Seq<char>) -> Seq<char>
    decreases s.len(),
{
    if s.len() > 0 && is_space(s[0]) {
        trim_start(s.skip(1))
    } else {
        s
    }
}

/// `s` without its trailing white space.
pub open spec fn trim_end(s: Seq<char>) -> Seq<char>
    decreases s.len(),
{
    if s.len() > 0 && is_space(s.last()) {
        trim_end(s.drop_last())
    } else {
        s
    }
}

/// `s` without its leading and trailing white space.
pub open spec fn trim(s: Seq<char>) -> Seq<char> {
    trim_end(trim_start(s))
}

/// A line is no longer than the text it starts.
pub proof fn lemma_line_len_bound(s: Seq<char>)
    ensures
        line_len(s) <= s.len(),
        line_len(s) < s.len() ==> s[line_len(s) as int] == '\n',
        forall|i: int| 0 <= i < line_len(s) ==> s[i] != '\n',
    decreases s.len(),
{
    if s.len() == 0 || s[0] == '\n' {
    } else {
        lemma_line_len_bound(s.skip(1));
        assert forall|i: int| 0 <= i < line_len(s) implies s[i] != '\n' by {
            if i > 0 {
                assert(s[i] == s.skip(1)[i - 1]);
            }
        }
    }
}

/// A word is no longer than the text it starts, and not empty where the text
/// starts with a character that is no white space.
pub proof fn lemma_word_len_bound(s: Seq<char>)
    ensures
        word_len(s) <= s.len(),
        s.len() > 0 && !is_space(s[0]) ==> word_len(s) >= 1,
        word_len(s) < s.len() ==> is_space(s[word_len(s) as int]),
        forall|i: int| 0 <= i < word_len(s) ==> !is_space(s[i]),
    decreases s.len(),
{
    if s.len() == 0 || is_space(s[0]) {
    } else {
        lemma_word_len_bound(s.skip(1));
        assert forall|i: int| 0 <= i < word_len(s) implies !is_space(s[i]) by {
            if i > 0 {
                assert(s[i] == s.skip(1)[i - 1]);
            }
        }
    }
}

/// The first `n` characters are the first line where none of them is a line
/// feed and a line feed, or the end of the text, follows them.
pub proof fn lemma_line_len_is(s: Seq<char>, n: int)
    requires
        0 <= n <= s.len(),
        forall|i: int| 0 <= i < n ==> s[i] != '\n',
        n < s.len() ==> s[n] == '\n',
    ensures
        line_len(s) == n,
    decreases n,
{
    if n > 0 {
        lemma_line_len_is(s.skip(1), n - 1);
    }
}

/// The first `n` characters are the first word where none of them is white
/// space and white space, or the end of the text, follows them.
pub proof fn lemma_word_len_is(s: Seq<char>, n: int)
    requires
        0 <= n <= s.len(),
        forall|i: int| 0 <= i < n ==> !is_space(s[i]),
        n < s.len() ==> is_space(s[n]),
    ensures
        word_len(s) == n,
    decreases n,
{
    if n > 0 {
        lemma_word_len_is(s.skip(1), n - 1);
    }
}

/// A line and its line feed before a text are the first line of the whole.
pub proof fn lemma_lines_first(line: Seq<char>, rest: Seq<char>)
    requires
        forall|i: int| 0 <= i < line.len() ==> line[i] != '\n',
    ensures
        lines(line + seq!['\n'] + rest) == seq![line] + lines(rest),
{
    let s = line + seq!['\n'] + rest;
    lemma_line_len_is(s, line.len() as int);
    assert(s.take(line.len() as int) == line);
    assert(after_line(s) == rest);
}

/// The lines of two texts put together are the lines of the first and the
/// lines of the second, where the first is empty or ends in a line feed.
pub proof fn lemma_lines_concat(a: Seq<char>, b: Seq<char>)
    requires
        a.len() == 0 || a.last() == '\n',
    ensures
        lines(a + b) == lines(a) + lines(b),
    decreases a.len(),
{
    if a.len() == 0 {
        assert(a + b == b);
        assert(lines(a) + lines(b) == lines(b));
    } else {
        let n = line_len(a) as int;
        lemma_line_len_bound(a);
        assert(n < a.len());
        lemma_line_len_is(a + b, n);
        assert((a + b).take(n) == a.take(n));
        assert(after_line(a + b) == after_line(a) + b);
        lemma_lines_concat(after_line(a), b);
        assert(lines(a + b) == seq![a.take(n)] + (lines(after_line(a)) + lines(b)));
        assert(seq![a.take(n)] + (lines(after_line(a)) + lines(b)) == lines(a) + lines(b));
    }
}

/// A line feed at the end of a text adds no line: a last line has the same
/// content with and without it.
pub proof fn lemma_lines_final_line_feed(s: Seq<char>)
    requires
        s.len() > 0,
        s.last() != '\n',
    ensures
        lines(s.push('\n')) == lines(s),
    decreases s.len(),
{
    let n = line_len(s) as int;
    let t = s.push('\n');
    lemma_line_len_bound(s);
    lemma_line_len_is(t, n);
    assert(t.take(n) == s.take(n));
    if n == s.len() {
        assert(after_line(t) == Seq::<char>::empty());
    } else {
        assert(after_line(t) == after_line(s).push('\n'));
        lemma_lines_final_line_feed(after_line(s));
    }
}

/// The words of two texts put together are the words of the first and the
/// words of the second, unless a word runs across the joint: the first text
/// is empty or ends in white space, or the second is empty or starts with
/// white space.
pub proof fn lemma_words_concat(a: Seq<char>, b: Seq<char>)
    requires
        a.len() == 0 || is_space(a.last()) || b.len() == 0 || is_space(b[0]),
    ensures
        words(a + b) == words(a) + words(b),
    decreases a.len(),
{
    if a.len() == 0 {
        assert(a + b == b);
        assert(words(a) + words(b) == words(b));
    } else if b.len() == 0 {
        assert(a + b == a);
        assert(words(a) + words(b) == words(a));
    } else if is_space(a[0]) {
        assert((a + b).skip(1) == a.skip(1) + b);
        lemma_words_concat(a.skip(1), b);
    } else {
        let n = word_len(a) as int;
        lemma_word_len_bound(a);
        lemma_word_len_is(a + b, n);
        lemma_word_len_bound(a + b);
        assert((a + b).take(n) == a.take(n));
        assert((a + b).skip(n) == a.skip(n) + b);
        lemma_words_concat(a.skip(n), b);
        assert(words(a + b) == seq![a.take(n)] + (words(a.skip(n)) + words(b)));
        assert(seq![a.take(n)] + (words(a.skip(n)) + words(b)) == words(a) + words(b));
    }
}

/// A text without white space, and not empty, is one word.
pub proof fn lemma_words_single(word: Seq<char>)
    requires
        word.len() > 0,
        forall|i: int| 0 <= i < word.len() ==> !is_space(word[i]),
    ensures
        words(word) == seq![word],
{
    lemma_word_len_is(word, word.len() as int);
    assert(word.take(word.len() as int) == word);
    assert(word.skip(word.len() as int) == Seq::<char>::empty());
    assert(words(word.skip(word.len() as int)) == Seq::<Seq<char>>::empty());
}

/// A text of white space only holds no word.
pub proof fn lemma_words_blank(s: Seq<char>)
    requires
        forall|i: int| 0 <= i < s.len() ==> is_space(s[i]),
    ensures
        words(s) == Seq::<Seq<char>>::empty(),
    decreases s.len(),
{
    if s.len() > 0 {
        lemma_words_blank(s.skip(1));
    }
}

/// What trimming leaves is a stretch of the text: it starts at an index
/// `start` and has every character from there to its end.
pub proof fn lemma_trim_is_subrange(s: Seq<char>) -> (extent: (int, int))
    ensures
        0 <= extent.0 <= extent.1 <= s.len(),
        trim(s) == s.subrange(extent.0, extent.1),
        forall|i: int| 0 <= i < extent.0 ==> is_space(s[i]),
        forall|i: int| extent.1 <= i < s.len() ==> is_space(s[i]),
        extent.0 < extent.1 ==> !is_space(s[extent.0]) && !is_space(s[extent.1 - 1]),
{
    let start = lemma_trim_start_is_skip(s);
    let end = lemma_trim_end_is_take(s.skip(start));
    assert(s.skip(start).take(end) == s.subrange(start, start + end));
    assert forall|i: int| start + end <= i < s.len() implies is_space(s[i]) by {
        assert(s[i] == s.skip(start)[i - start]);
    }
    if end > 0 {
        assert(s[start + end - 1] == s.skip(start)[end - 1]);
    }
    (start, start + end)
}

/// Trimming at the start leaves the text from some index on.
pub proof fn lemma_trim_start_is_skip(s: Seq<char>) -> (start: int)
    ensures
        0 <= start <= s.len(),
        trim_start(s) == s.skip(start),
        forall|i: int| 0 <= i < start ==> is_space(s[i]),
        start < s.len() ==> !is_space(s[start]),
    decreases s.len(),
{
    if s.len() > 0 && is_space(s[0]) {
        let inner = lemma_trim_start_is_skip(s.skip(1));
        assert(s.skip(1).skip(inner) == s.skip(inner + 1));
        assert forall|i: int| 0 <= i < inner + 1 implies is_space(s[i]) by {
            if i > 0 {
                assert(s[i] == s.skip(1)[i - 1]);
            }
        }
        inner + 1
    } else {
        assert(s.skip(0) == s);
        0
    }
}

/// Trimming at the end leaves the text up to some index.
pub proof fn lemma_trim_end_is_take(s: Seq<char>) -> (end: int)
    ensures
        0 <= end <= s.len(),
        trim_end(s) == s.take(end),
        forall|i: int| end <= i < s.len() ==> is_space(s[i]),
        end > 0 ==> !is_space(s[end - 1]),
    decreases s.len(),
{
    if s.len() > 0 && is_space(s.last()) {
        let inner = lemma_trim_end_is_take(s.drop_last());
        assert(s.drop_last().take(inner) == s.take(inner));
        assert forall|i: int| inner <= i < s.len() implies is_space(s[i]) by {
            if i < s.len() - 1 {
                assert(s[i] == s.drop_last()[i]);
            }
        }
        inner
    } else {
        assert(s.take(s.len() as int) == s);
        s.len() as int
    }
}

/// Trimming a text changes none of its words.
pub proof fn lemma_words_trim(s: Seq<char>)
    ensures
        words(trim(s)) == words(s),
{
    let (start, end) = lemma_trim_is_subrange(s);
    let head = s.take(start);
    let body = s.subrange(start, end);
    let tail = s.skip(end);
    lemma_words_blank(head);
    lemma_words_blank(tail);
    assert(s == head + (body + tail));
    lemma_words_concat(body, tail);
    lemma_words_concat(head, body + tail);
    assert(words(s) == words(head) + (words(body) + words(tail)));
    assert(words(head) + (words(body) + words(tail)) == words(body));
}

/// Tells whether `c` is white space.
pub fn char_is_space(c: char) -> (b: bool)
    ensures
        b == is_space(c),
{
    ('\u{9}' <= c && c <= '\u{D}') || c == ' ' || c == '\u{85}' || c == '\u{A0}' || c == '\u{1680}'
        || ('\u{2000}' <= c && c <= '\u{200A}') || c == '\u{2028}' || c == '\u{2029}' || c
        == '\u{202F}' || c == '\u{205F}' || c == '\u{3000}'
}

/// The characters of `text`, in order.
pub fn to_chars(text: &str) -> (chars: Vec<char>)
    ensures
        chars@ == text@,
{
    let mut chars: Vec<char> = Vec::new();
    let mut rest = text.chars();
    loop
        invariant
            rest.obeys_prophetic_iter_laws(),
            rest.decrease() is Some,
            chars@ + rest.remaining() == text@,
        ensures
            chars@ == text@,
        decreases rest.decrease()->0,
    {
        match rest.next() {
            Some(c) => {
                chars.push(c);
            },
            None => {
                assert(chars@ + Seq::<char>::empty() == chars@);
                break ;
            },
        }
    }
    chars
}

/// The index at which the line that starts at `from` ends: that of the next
/// line feed, or the length of `text`.
pub fn line_end(text: &[char], from: usize) -> (end: usize)
    requires
        from <= text@.len(),
    ensures
        from <= end <= text@.len(),
        end - from == line_len(text@.skip(from as int)),
{
    let mut end: usize = from;
    while end < text.len() && text[end] != '\n'
        invariant
            from <= end <= text@.len(),
            forall|i: int| from <= i < end ==> text@[i] != '\n',
        decreases text@.len() - end,
    {
        end += 1;
    }
    proof {
        lemma_line_len_is(text@.skip(from as int), end - from);
    }
    end
}

/// The index at which the word that starts at `from` ends: that of the next
/// white space, or the length of `text`.
pub fn word_end(text: &[char], from: usize) -> (end: usize)
    requires
        from <= text@.len(),
    ensures
        from <= end <= text@.len(),
        end - from == word_len(text@.skip(from as int)),
{
    let mut end: usize = from;
    while end < text.len() && !char_is_space(text[end])
        invariant
            from <= end <= text@.len(),
            forall|i: int| from <= i < end ==> !is_space(text@[i]),
        decreases text@.len() - end,
    {
        end += 1;
    }
    proof {
        lemma_word_len_is(text@.skip(from as int), end - from);
    }
    end
}

/// The extent of the first word of `text` at or behind `from`, if there is
/// one: the index of its first character and the index behind its last.
pub fn next_word(text: &[char], from: usize) -> (found: Option<(usize, usize)>)
    requires
        from <= text@.len(),
    ensures
        found is None ==> {
            &&& words(text@.skip(from as int)) == Seq::<Seq<char>>::empty()
            &&& forall|i: int| from <= i < text@.len() ==> is_space(text@[i])
        },
        found matches Some((start, end)) ==> {
            &&& from <= start < end <= text@.len()
            &&& forall|i: int| from <= i < start ==> is_space(text@[i])
            &&& end - start == word_len(text@.skip(start as int))
            &&& words(text@.skip(from as int)) == seq![text@.subrange(start as int, end as int)]
                + words(text@.skip(end as int))
        },
{
    let mut start: usize = from;
    while start < text.len() && char_is_space(text[start])
        invariant
            from <= start <= text@.len(),
            forall|i: int| from <= i < start ==> is_space(text@[i]),
            words(text@.skip(from as int)) == words(text@.skip(start as int)),
        decreases text@.len() - start,
    {
        proof {
            assert(text@.skip(start as int).skip(1) == text@.skip(start + 1));
        }
        start += 1;
    }
    if start == text.len() {
        return None;
    }
    let end = word_end(text, start);
    proof {
        let rest = text@.skip(start as int);
        lemma_word_len_bound(rest);
        assert(rest.take(end - start) == text@.subrange(start as int, end as int));
        assert(rest.skip(end - start) == text@.skip(end as int));
    }
    Some((start, end))
}

/// `line` without its leading and trailing white space.
pub fn trimmed(line: &[char]) -> (inner: &[char])
    ensures
        inner@ == trim(line@),
{
    let mut start: usize = 0;
    assert(line@.skip(0) == line@);
    while start < line.len() && char_is_space(line[start])
        invariant
            start <= line@.len(),
            trim_start(line@) == trim_start(line@.skip(start as int)),
        decreases line@.len() - start,
    {
        proof {
            assert(line@.skip(start as int).skip(1) == line@.skip(start + 1));
        }
        start += 1;
    }
    let mut end: usize = line.len();
    while end > start && char_is_space(line[end - 1])
        invariant
            start <= end <= line@.len(),
            trim_end(line@.skip(start as int)) == trim_end(
                line@.subrange(start as int, end as int),
            ),
        decreases end,
    {
        proof {
            assert(line@.subrange(start as int, end as int).drop_last() == line@.subrange(
                start as int,
                end - 1,
            ));
        }
        end -= 1;
    }
    proof {
        assert(line@.skip(start as int) == line@.subrange(start as int, line@.len() as int));
    }
    slice_subrange(line, start, end)
}

} // verus!
