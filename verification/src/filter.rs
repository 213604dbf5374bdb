//! The median filter over the 3x3 neighbourhood of each pixel.
//!
//! The neighbourhood of a position is made of the positions at most one
//! column and one row away that lie inside the image, the position itself
//! among them. The filtered pixel is the value in the middle of the sorted
//! neighbourhood: of `n` sorted values the one at index `n / 2`, which for an
//! even `n` is the upper of the two in the middle.

use vstd::prelude::*;
use vstd::relations::{sorted_by, total_ordering};
use crate::image::{fits_shape, shape_fits, PgmError};

verus! {

/// Tells whether column `x` of row `y` lies inside the image.
pub open spec fn in_image(width: nat, height: nat, x: int, y: int) -> bool {
    0 <= x < width && 0 <= y < height
}

/// The pixel in column `x` of row `y`.
pub open spec fn pixel_at(width: nat, pixels: Seq<u8>, x: int, y: int) -> u8 {
    pixels[y * width + x]
}

/// The pixel in column `x` of row `y` as a sequence of one value, or the
/// empty sequence where the position lies outside the image.
pub open spec fn sample(width: nat, height: nat, pixels: Seq<u8>, x: int, y: int) -> Seq<u8> {
    if in_image(width, height, x, y) {
        seq![pixel_at(width, pixels, x, y)]
    } else {
        Seq::empty()
    }
}

/// What column `x` gives to the neighbourhood of a position in row `y`: its
/// pixels in the rows `y - 1`, `y` and `y + 1`, as far as they exist.
pub open spec fn column_samples(
    width: nat,
    height: nat,
    pixels: Seq<u8>,
    x: int,
    y: int,
) -> Seq<u8> {
    sample(width, height, pixels, x, y - 1) + sample(width, height, pixels, x, y) + sample(
        width,
        height,
        pixels,
        x,
        y + 1,
    )
}

/// The neighbourhood of column `x` of row `y`: the pixels at most one column
/// and one row away, column by column from the left, each from the top.
pub open spec fn neighborhood(width: nat, height: nat, pixels: Seq<u8>, x: int, y: int) -> Seq<
    u8,
> {
    column_samples(width, height, pixels, x - 1, y) + column_samples(width, height, pixels, x, y)
        + column_samples(width, height, pixels, x + 1, y)
}

/// The ascending sequence `s` with `v` put in behind the last value that is
/// not greater.
pub open spec fn insert_sorted(s: Seq<u8>, v: u8) -> Seq<u8>
    decreases s.len(),
{
    if s.len() == 0 || s.last() <= v {
        s.push(v)
    } else {
        insert_sorted(s.drop_last(), v).push(s.last())
    }
}

/// The values of `s` in ascending order.
pub open spec fn sorted(s: Seq<u8>) -> Seq<u8>
    decreases s.len(),
{
    if s.len() == 0 {
        s
    } else {
        insert_sorted(sorted(s.drop_last()), s.last())
    }
}

/// Tells whether the values of `s` ascend.
pub open spec fn ascending(s: Seq<u8>) -> bool {
    forall|i: int, j: int| 0 <= i <= j < s.len() ==> s[i] <= s[j]
}

/// The median of `s`: of its values in ascending order the one at index
/// `s.len() / 2`.
pub open spec fn median(s: Seq<u8>) -> u8 {
    sorted(s)[s.len() as int / 2]
}

/// The filtered value of the pixel at index `i`.
pub open spec fn filtered_pixel(width: nat, height: nat, pixels: Seq<u8>, i: int) -> u8 {
    median(neighborhood(width, height, pixels, i % (width as int), i / (width as int)))
}

/// The filtered image: each pixel is the median of its neighbourhood in the
/// image as it was given.
pub open spec fn filtered(width: nat, height: nat, pixels: Seq<u8>) -> Seq<u8> {
    Seq::new(pixels.len(), |i: int| filtered_pixel(width, height, pixels, i))
}

/// A position inside the image has an index of its own among the pixels:
/// the rows before it, which are full, and the columns before it in its row.
pub proof fn lemma_index_of_position(width: nat, height: nat, x: int, y: int)
    requires
        in_image(width, height, x, y),
    ensures
        0 <= y * width <= y * width + x < width * height,
{
    assert(0 <= y * width <= y * width + x < width * height) by (nonlinear_arith)
        requires
            0 <= x < width,
            0 <= y < height,
    ;
}

/// An index among the pixels is that of a position inside the image: the
/// column is the index modulo the width, the row the index divided by it.
pub proof fn lemma_position_of_index(width: nat, height: nat, i: int)
    requires
        0 <= i < width * height,
    ensures
        width > 0,
        in_image(width, height, i % (width as int), i / (width as int)),
{
    let w = width as int;
    assert(w > 0 && 0 <= i / w < height && 0 <= i % w < w) by (nonlinear_arith)
        requires
            0 <= i < w * height,
            0 <= w,
    ;
}

/// Putting a value into a sequence behind the last value that is not greater
/// puts it at index `at`, where every value from `at` on is greater and the
/// one before `at` is not.
pub proof fn lemma_insert_sorted_at(s: Seq<u8>, v: u8, at: int)
    requires
        0 <= at <= s.len(),
        at > 0 ==> s[at - 1] <= v,
        forall|k: int| at <= k < s.len() ==> s[k] > v,
    ensures
        insert_sorted(s, v) == s.insert(at, v),
    decreases s.len() - at,
{
    if at == s.len() {
        assert(s.push(v) == s.insert(at, v));
    } else {
        lemma_insert_sorted_at(s.drop_last(), v, at);
        assert(s.drop_last().insert(at, v).push(s.last()) == s.insert(at, v));
    }
}

/// Putting a value into a sequence keeps every value and adds the one.
pub proof fn lemma_insert_sorted_permutes(s: Seq<u8>, v: u8)
    ensures
        insert_sorted(s, v).len() == s.len() + 1,
        insert_sorted(s, v).to_multiset() == s.to_multiset().insert(v),
    decreases s.len(),
{
    broadcast use vstd::seq_lib::group_to_multiset_ensures;

    if s.len() == 0 || s.last() <= v {
    } else {
        let rest = s.drop_last();
        lemma_insert_sorted_permutes(rest, v);
        assert(rest.push(s.last()) == s);
        assert(insert_sorted(s, v).to_multiset() == rest.to_multiset().insert(v).insert(s.last()));
        assert(s.to_multiset() == rest.to_multiset().insert(s.last()));
    }
}

/// Putting a value into an ascending sequence gives an ascending sequence.
pub proof fn lemma_insert_sorted_ascends(s: Seq<u8>, v: u8)
    requires
        ascending(s),
    ensures
        ascending(insert_sorted(s, v)),
        insert_sorted(s, v).len() == s.len() + 1,
        forall|k: int|
            0 <= k < s.len() + 1 ==> #[trigger] insert_sorted(s, v)[k] == v || exists|m: int|
                0 <= m < s.len() && s[m] == insert_sorted(s, v)[k],
    decreases s.len(),
{
    if s.len() == 0 || s.last() <= v {
        assert forall|k: int| 0 <= k < s.len() + 1 implies #[trigger] insert_sorted(s, v)[k] == v
            || exists|m: int| 0 <= m < s.len() && s[m] == insert_sorted(s, v)[k] by {
            if k < s.len() {
                assert(s[k] == insert_sorted(s, v)[k]);
            }
        }
    } else {
        let rest = s.drop_last();
        let inner = insert_sorted(rest, v);
        lemma_insert_sorted_ascends(rest, v);
        assert forall|i: int, j: int| 0 <= i <= j < inner.len() + 1 implies inner.push(s.last())[i]
            <= inner.push(s.last())[j] by {
            if j == inner.len() && i < inner.len() {
                if inner[i] != v {
                    let m = choose|m: int| 0 <= m < rest.len() && rest[m] == inner[i];
                    assert(s[m] <= s[s.len() - 1]);
                }
            }
        }
        assert forall|k: int| 0 <= k < s.len() + 1 implies #[trigger] insert_sorted(s, v)[k] == v
            || exists|m: int| 0 <= m < s.len() && s[m] == insert_sorted(s, v)[k] by {
            if k < inner.len() {
                if inner[k] != v {
                    let m = choose|m: int| 0 <= m < rest.len() && rest[m] == inner[k];
                    assert(s[m] == insert_sorted(s, v)[k]);
                }
            } else {
                assert(s[s.len() - 1] == insert_sorted(s, v)[k]);
            }
        }
    }
}

/// Sorting keeps the length and puts the values in ascending order.
pub proof fn lemma_sorted_ascends(s: Seq<u8>)
    ensures
        sorted(s).len() == s.len(),
        ascending(sorted(s)),
    decreases s.len(),
{
    if s.len() > 0 {
        lemma_sorted_ascends(s.drop_last());
        lemma_insert_sorted_ascends(sorted(s.drop_last()), s.last());
    }
}

/// Sorting keeps every value, as often as it occurs.
pub proof fn lemma_sorted_permutes(s: Seq<u8>)
    ensures
        sorted(s).to_multiset() == s.to_multiset(),
    decreases s.len(),
{
    broadcast use vstd::seq_lib::group_to_multiset_ensures;

    if s.len() > 0 {
        let rest = s.drop_last();
        lemma_sorted_permutes(rest);
        lemma_insert_sorted_permutes(sorted(rest), s.last());
        assert(rest.push(s.last()) == s);
    }
}

/// Sorting gives the one ascending sequence that holds every value as often
/// as the sequence sorted: whatever ascends and holds the same values is the
/// sorted sequence.
pub proof fn lemma_sorted_is_unique(s: Seq<u8>, t: Seq<u8>)
    requires
        ascending(t),
        t.to_multiset() == s.to_multiset(),
    ensures
        t == sorted(s),
{
    let leq = |a: u8, b: u8| a <= b;
    lemma_sorted_ascends(s);
    lemma_sorted_permutes(s);
    assert(total_ordering(leq));
    assert(sorted_by(t, leq));
    assert(sorted_by(sorted(s), leq));
    vstd::seq_lib::lemma_sorted_unique(t, sorted(s), leq);
}

/// The values of `values` in ascending order.
pub fn sorted_copy(values: &Vec<u8>) -> (out: Vec<u8>)
    ensures
        out@ == sorted(values@),
{
    let mut out: Vec<u8> = Vec::new();
    let mut i: usize = 0;
    assert(values@.take(0) == Seq::<u8>::empty());
    while i < values.len()
        invariant
            i <= values@.len(),
            out@ == sorted(values@.take(i as int)),
        decreases values@.len() - i,
    {
        let v = values[i];
        proof {
            lemma_sorted_ascends(values@.take(i as int));
        }
        let mut at: usize = out.len();
        while at > 0 && out[at - 1] > v
            invariant
                at <= out@.len(),
                forall|k: int| at <= k < out@.len() ==> out@[k] > v,
            decreases at,
        {
            at -= 1;
        }
        proof {
            lemma_insert_sorted_at(out@, v, at as int);
            assert(values@.take(i + 1).drop_last() == values@.take(i as int));
        }
        out.insert(at, v);
        i += 1;
    }
    assert(values@.take(i as int) == values@);
    out
}

/// The median of `values`.
pub fn median_of(values: &Vec<u8>) -> (m: u8)
    requires
        values@.len() > 0,
    ensures
        m == median(values@),
{
    let ordered = sorted_copy(values);
    proof {
        lemma_sorted_ascends(values@);
    }
    ordered[ordered.len() / 2]
}

/// Appends the pixel in column `x` of row `y`, if the position lies inside
/// the image.
fn push_sample(values: &mut Vec<u8>, width: u32, height: u32, pixels: &Vec<u8>, x: i64, y: i64)
    requires
        shape_fits(width as nat, height as nat, pixels@.len()),
    ensures
        final(values)@ == old(values)@ + sample(
            width as nat,
            height as nat,
            pixels@,
            x as int,
            y as int,
        ),
{
    let count = pixels.len();
    if 0 <= x && x < width as i64 && 0 <= y && y < height as i64 {
        proof {
            lemma_index_of_position(width as nat, height as nat, x as int, y as int);
            assert(y * width + x < count);
        }
        let index: usize = y as usize * width as usize + x as usize;
        values.push(pixels[index]);
        assert(values@ == old(values)@ + seq![pixels@[index as int]]);
    } else {
        assert(values@ == old(values)@ + Seq::<u8>::empty());
    }
}

/// Appends what column `x` gives to the neighbourhood of a position in row
/// `y`.
fn push_column(values: &mut Vec<u8>, width: u32, height: u32, pixels: &Vec<u8>, x: i64, y: i64)
    requires
        shape_fits(width as nat, height as nat, pixels@.len()),
        -1 <= y <= u32::MAX,
    ensures
        final(values)@ == old(values)@ + column_samples(
            width as nat,
            height as nat,
            pixels@,
            x as int,
            y as int,
        ),
{
    push_sample(values, width, height, pixels, x, y - 1);
    push_sample(values, width, height, pixels, x, y);
    push_sample(values, width, height, pixels, x, y + 1);
}

/// The neighbourhood of column `x` of row `y` in an image with one pixel for
/// each position.
pub fn neighbors(width: u32, height: u32, pixels: &Vec<u8>, x: u32, y: u32) -> (values: Vec<u8>)
    requires
        shape_fits(width as nat, height as nat, pixels@.len()),
    ensures
        values@ == neighborhood(width as nat, height as nat, pixels@, x as int, y as int),
{
    let mut values: Vec<u8> = Vec::new();
    push_column(&mut values, width, height, pixels, x as i64 - 1, y as i64);
    push_column(&mut values, width, height, pixels, x as i64, y as i64);
    push_column(&mut values, width, height, pixels, x as i64 + 1, y as i64);
    values
}

/// A position inside the image is in its own neighbourhood, which so holds at
/// least one value and never more than nine: all nine where the position is
/// not on the border, and at least four where the image has two columns and
/// two rows or more.
pub proof fn lemma_neighborhood_len(width: nat, height: nat, pixels: Seq<u8>, x: int, y: int)
    requires
        in_image(width, height, x, y),
    ensures
        1 <= neighborhood(width, height, pixels, x, y).len() <= 9,
        width >= 2 && height >= 2 ==> neighborhood(width, height, pixels, x, y).len() >= 4,
        0 < x < width - 1 && 0 < y < height - 1 ==> neighborhood(width, height, pixels, x, y).len()
            == 9,
{
}

/// The median of a sequence that is not empty is one of its values.
pub proof fn lemma_median_is_member(s: Seq<u8>)
    requires
        s.len() > 0,
    ensures
        s.contains(median(s)),
{
    broadcast use vstd::seq_lib::group_to_multiset_ensures;

    lemma_sorted_ascends(s);
    lemma_sorted_permutes(s);
    let m = median(s);
    assert(sorted(s)[s.len() as int / 2] == m);
    assert(sorted(s).contains(m));
    assert(sorted(s).to_multiset().count(m) > 0);
    assert(s.to_multiset().count(m) > 0);
}

/// Every value of a neighbourhood is a pixel of the image.
pub proof fn lemma_neighborhood_of_pixels(
    width: nat,
    height: nat,
    pixels: Seq<u8>,
    x: int,
    y: int,
    k: int,
)
    requires
        shape_fits(width, height, pixels.len()),
        0 <= k < neighborhood(width, height, pixels, x, y).len(),
    ensures
        exists|i: int|
            0 <= i < pixels.len() && pixels[i] == neighborhood(width, height, pixels, x, y)[k],
{
    assert forall|nx: int, ny: int| in_image(width, height, nx, ny) implies 0 <= ny * width + nx
        < pixels.len() by {
        lemma_index_of_position(width, height, nx, ny);
    }
    let n = neighborhood(width, height, pixels, x, y);
    let a = column_samples(width, height, pixels, x - 1, y);
    let b = column_samples(width, height, pixels, x, y);
    let c = column_samples(width, height, pixels, x + 1, y);
    let nx = if k < a.len() {
        x - 1
    } else if k < a.len() + b.len() {
        x
    } else {
        x + 1
    };
    let kk = if k < a.len() {
        k
    } else if k < a.len() + b.len() {
        k - a.len()
    } else {
        k - a.len() - b.len()
    };
    let col = column_samples(width, height, pixels, nx, y);
    assert(n[k] == col[kk]);
    let s0 = sample(width, height, pixels, nx, y - 1);
    let s1 = sample(width, height, pixels, nx, y);
    let s2 = sample(width, height, pixels, nx, y + 1);
    let ny = if kk < s0.len() {
        y - 1
    } else if kk < s0.len() + s1.len() {
        y
    } else {
        y + 1
    };
    assert(in_image(width, height, nx, ny));
    assert(col[kk] == pixel_at(width, pixels, nx, ny));
    assert(pixels[ny * width + nx] == n[k]);
}

/// The filter makes up no value: every pixel of the filtered image is a pixel
/// of the image given.
pub proof fn lemma_filtered_values_are_pixels(width: nat, height: nat, pixels: Seq<u8>, i: int)
    requires
        shape_fits(width, height, pixels.len()),
        0 <= i < pixels.len(),
    ensures
        pixels.contains(filtered(width, height, pixels)[i]),
{
    let w = width as int;
    lemma_position_of_index(width, height, i);
    let around = neighborhood(width, height, pixels, i % w, i / w);
    lemma_neighborhood_len(width, height, pixels, i % w, i / w);
    lemma_median_is_member(around);
    let k = choose|k: int| 0 <= k < around.len() && around[k] == median(around);
    lemma_neighborhood_of_pixels(width, height, pixels, i % w, i / w, k);
}

/// A sequence of equal values is its own sorted form.
pub proof fn lemma_sorted_constant(s: Seq<u8>, value: u8)
    requires
        forall|i: int| 0 <= i < s.len() ==> s[i] == value,
    ensures
        sorted(s) == s,
    decreases s.len(),
{
    if s.len() > 0 {
        lemma_sorted_constant(s.drop_last(), value);
        assert(s.drop_last().push(s.last()) == s);
    }
}

/// The filter leaves a uniform image as it is, however often it is applied:
/// the median of equal values is that value.
pub proof fn lemma_filter_keeps_uniform(width: nat, height: nat, pixels: Seq<u8>, value: u8)
    requires
        shape_fits(width, height, pixels.len()),
        forall|i: int| 0 <= i < pixels.len() ==> pixels[i] == value,
    ensures
        filtered(width, height, pixels) == pixels,
        filtered(width, height, filtered(width, height, pixels)) == pixels,
{
    assert forall|i: int| 0 <= i < pixels.len() implies filtered_pixel(width, height, pixels, i)
        == value by {
        let w = width as int;
        lemma_position_of_index(width, height, i);
        let around = neighborhood(width, height, pixels, i % w, i / w);
        lemma_neighborhood_len(width, height, pixels, i % w, i / w);
        assert forall|k: int| 0 <= k < around.len() implies around[k] == value by {
            lemma_neighborhood_of_pixels(width, height, pixels, i % w, i / w, k);
        }
        lemma_sorted_constant(around, value);
    }
    assert(filtered(width, height, pixels) == pixels);
}

/// An image of one pixel is left as it is: the pixel is its only neighbour.
pub proof fn lemma_filter_keeps_single_pixel(value: u8)
    ensures
        filtered(1, 1, seq![value]) == seq![value],
{
    lemma_filter_keeps_uniform(1, 1, seq![value], value);
}

/// Replaces every pixel by the median of its 3x3 neighbourhood, taken from
/// the image as it was given.
///
/// Fails with `ShapeMismatch`, and only then, when the number of pixels is
/// not the width times the height.
pub fn apply_median_filter(width: u32, height: u32, pixels: &Vec<u8>) -> (r: Result<
    Vec<u8>,
    PgmError,
>)
    ensures
        match r {
            Ok(out) => {
                &&& shape_fits(width as nat, height as nat, pixels@.len())
                &&& out@.len() == pixels@.len()
                &&& out@ == filtered(width as nat, height as nat, pixels@)
            },
            Err(e) => !shape_fits(width as nat, height as nat, pixels@.len()) && e
                == PgmError::ShapeMismatch,
        },
{
    if !fits_shape(width, height, pixels.len()) {
        return Err(PgmError::ShapeMismatch);
    }
    let mut out: Vec<u8> = Vec::new();
    let mut i: usize = 0;
    while i < pixels.len()
        invariant
            i <= pixels@.len(),
            shape_fits(width as nat, height as nat, pixels@.len()),
            out@.len() == i,
            forall|k: int|
                0 <= k < i ==> out@[k] == filtered_pixel(width as nat, height as nat, pixels@, k),
        decreases pixels@.len() - i,
    {
        proof {
            lemma_position_of_index(width as nat, height as nat, i as int);
        }
        let x = (i % width as usize) as u32;
        let y = (i / width as usize) as u32;
        let values = neighbors(width, height, pixels, x, y);
        proof {
            lemma_neighborhood_len(width as nat, height as nat, pixels@, x as int, y as int);
        }
        out.push(median_of(&values));
        i += 1;
    }
    Ok(out)
}

} // verus!
