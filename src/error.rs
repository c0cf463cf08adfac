//! The ways an image operation can fail.
use vstd::prelude::*;

verus! {

#[derive(Clone, Copy, Debug, PartialEq, Eq, Structural)]
pub enum FormatError {
    /// The file does not exist.
    NotFound,
    /// The path does not end in `.ppm`, or a header line is malformed.
    InvalidInput,
    /// The declared maximum channel value exceeds 255.
    OutOfRange,
    /// Pixel data came before the dimension line.
    UninitializedImage,
    /// A channel token is not a number from 0 to 255, or a pixel line does not
    /// hold whole triples.
    InvalidPixelValue,
    /// The number of pixels read differs from width times height.
    SizeMismatch,
    /// A pixel position lies past the end of the pixel sequence.
    IndexOutOfBounds,
    /// The file could not be read or written.
    IoError,
}

} // verus!
