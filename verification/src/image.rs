//! The image, its mathematical view, and what can go wrong with one.

use vstd::prelude::*;

verus! {

/// Why an image could not be read, filtered or written.
#[derive(Debug, Clone, Copy, PartialEq, Eq, Structural)]
pub enum PgmError {
    /// The line of the dimensions is empty or does not start with a number.
    InvalidWidth,
    /// The line of the dimensions has no second word, or one that is no number.
    InvalidHeight,
    /// A word among the pixel data is no number from 0 to 255.
    InvalidPixel,
    /// The pixels do not go with the dimensions: the filter was given a
    /// number of pixels that is not the width times the height, or the writer
    /// was given pixels and a width of zero.
    ShapeMismatch,
}

impl PgmError {
    /// A short description of the error.
    pub fn message(&self) -> (text: &'static str)
        ensures
            text@ == match *self {
                PgmError::InvalidWidth => "Invalid width"@,
                PgmError::InvalidHeight => "Invalid height"@,
                PgmError::InvalidPixel => "Invalid pixel value"@,
                PgmError::ShapeMismatch => "Pixel count does not match width and height"@,
            },
    {
        match self {
            PgmError::InvalidWidth => "Invalid width",
            PgmError::InvalidHeight => "Invalid height",
            PgmError::InvalidPixel => "Invalid pixel value",
            PgmError::ShapeMismatch => "Pixel count does not match width and height",
        }
    }
}

/// A gray-scale image: `pixels` holds the rows one after the other, so the
/// pixel in column `x` of row `y` stands at index `y * width + x`.
#[derive(Debug, PartialEq, Eq)]
pub struct Image {
    pub width: u32,
    pub height: u32,
    pub pixels: Vec<u8>,
}

/// An image as a mathematical value.
pub struct ImageView {
    pub width: nat,
    pub height: nat,
    pub pixels: Seq<u8>,
}

impl View for Image {
    type V = ImageView;

    open spec fn view(&self) -> ImageView {
        ImageView { width: self.width as nat, height: self.height as nat, pixels: self.pixels@ }
    }
}

/// Tells whether `count` pixels fill an image of the given width and height.
pub open spec fn shape_fits(width: nat, height: nat, count: nat) -> bool {
    count == width * height
}

impl ImageView {
    /// An image is well formed when it has one pixel for each position.
    pub open spec fn well_formed(self) -> bool {
        shape_fits(self.width, self.height, self.pixels.len())
    }
}

/// Tells whether `count` pixels fill an image of the given width and height.
pub fn fits_shape(width: u32, height: u32, count: usize) -> (fits: bool)
    ensures
        fits == shape_fits(width as nat, height as nat, count as nat),
{
    proof {
        assert(0 <= width * height <= 0xffff_ffff * 0xffff_ffff) by (nonlinear_arith)
            requires
                0 <= width <= 0xffff_ffff,
                0 <= height <= 0xffff_ffff,
        ;
    }
    let area: u64 = width as u64 * height as u64;
    count as u64 == area
}

impl Image {
    /// Tells whether the image has one pixel for each position.
    pub fn is_well_formed(&self) -> (ok: bool)
        ensures
            ok == self@.well_formed(),
    {
        fits_shape(self.width, self.height, self.pixels.len())
    }
}

impl Clone for Image {
    fn clone(&self) -> (copy: Image)
        ensures
            copy@ == self@,
    {
        Image { width: self.width, height: self.height, pixels: self.pixels.clone() }
    }
}

} // verus!
