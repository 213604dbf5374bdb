//! Median denoising of plain-text PGM images.
//!
//! The crate reads the ASCII "P2" flavour of the Portable Gray Map format,
//! replaces every pixel by the median of its 3x3 neighbourhood and renders
//! the result back to text. Every function carries a contract over
//! mathematical sequences, and Verus proves each body against its contract.
//!
//! - [`chars`] and [`decimal`]: white space, lines, words and decimal numbers;
//! - [`image`]: the image and the errors;
//! - [`reader`]: from text to image;
//! - [`filter`]: the median filter;
//! - [`writer`]: from image to text;
//! - [`roundtrip`]: what is written is read back;
//! - [`batch`]: one file of a batch, from its text to the text of the result.

pub mod batch;
pub mod chars;
pub mod decimal;
pub mod filter;
pub mod image;
pub mod reader;
pub mod roundtrip;
pub mod writer;

pub use crate::batch::denoise_pgm;
pub use crate::filter::apply_median_filter;
pub use crate::image::{Image, PgmError};
pub use crate::reader::parse_pgm;
pub use crate::writer::render_pgm;
