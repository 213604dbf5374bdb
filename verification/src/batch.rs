//! One file of a batch: which directory entries are taken, what happens to
//! the text of one, and where the result goes.

use vstd::prelude::*;
use vstd::string::StringExecFns;
use crate::filter::{apply_median_filter, filtered};
use crate::image::PgmError;
use crate::reader::{parse_pgm, parsed};
use crate::writer::{pgm_text, render_pgm};

verus! {

/// The text of the filtered image for the text of an image, or the error
/// that hinders it: that of the reader, or `ShapeMismatch` where the text
/// does not hold one pixel for each position.
pub open spec fn denoised_text(text: Seq<char>) -> Result<Seq<char>, PgmError> {
    match parsed(text) {
        Ok(image) => if image.well_formed() {
            Ok(
                pgm_text(
                    image.width,
                    image.height,
                    filtered(image.width, image.height, image.pixels),
                ),
            )
        } else {
            Err(PgmError::ShapeMismatch)
        },
        Err(e) => Err(e),
    }
}

/// Reads an image from `text`, filters it, and gives the text of the result.
pub fn denoise_pgm(text: &str) -> (r: Result<String, PgmError>)
    ensures
        r matches Ok(out) ==> denoised_text(text@) == Ok::<Seq<char>, PgmError>(out@),
        r matches Err(e) ==> denoised_text(text@) == Err::<Seq<char>, PgmError>(e),
{
    let image = match parse_pgm(text) {
        Ok(image) => image,
        Err(e) => {
            return Err(e);
        },
    };
    let pixels = match apply_median_filter(image.width, image.height, &image.pixels) {
        Ok(pixels) => pixels,
        Err(e) => {
            return Err(e);
        },
    };
    render_pgm(image.width, image.height, &pixels)
}

/// Tells whether a directory entry is taken: it is a regular file, and its
/// extension is exactly `pgm`.
pub open spec fn is_taken(is_file: bool, extension: Option<Seq<char>>) -> bool {
    is_file && extension == Some(seq!['p', 'g', 'm'])
}

/// Tells whether a directory entry is taken, given whether it is a regular
/// file and what extension its name has, if any.
pub fn takes_entry(is_file: bool, extension: Option<&str>) -> (taken: bool)
    ensures
        taken == is_taken(
            is_file,
            match extension {
                Some(e) => Some(e@),
                None => None,
            },
        ),
{
    proof {
        reveal_strlit("pgm");
    }
    match extension {
        Some(e) => {
            let wanted = String::from_str("pgm");
            let found = String::from_str(e);
            assert(wanted@ =~= seq!['p', 'g', 'm']);
            is_file && found == wanted
        },
        None => false,
    }
}

/// The path of the output file for an input file with the given stem: the
/// stem with `_modified.pgm` behind it, in the output directory.
pub open spec fn output_path_text(output_directory: Seq<char>, stem: Seq<char>) -> Seq<char> {
    output_directory + seq!['/'] + stem + seq![
        '_',
        'm',
        'o',
        'd',
        'i',
        'f',
        'i',
        'e',
        'd',
        '.',
        'p',
        'g',
        'm',
    ]
}

/// The path of the output file for an input file with the given stem.
pub fn output_path(output_directory: &str, stem: &str) -> (path: String)
    ensures
        path@ == output_path_text(output_directory@, stem@),
{
    proof {
        reveal_strlit("/");
        reveal_strlit("_modified.pgm");
    }
    let mut path = String::from_str(output_directory);
    path.append("/");
    path.append(stem);
    path.append("_modified.pgm");
    assert(path@ == output_path_text(output_directory@, stem@));
    path
}

/// The line that reports a file as done: a fixed sentence and the path of
/// the output file.
pub fn confirmation(output_path: &str) -> (line: String)
    ensures
        line@ == "Filtro de mediana aplicado e salvo em "@ + output_path@,
{
    let mut line = String::from_str("Filtro de mediana aplicado e salvo em ");
    line.append(output_path);
    line
}

} // verus!
