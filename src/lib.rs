//! An in-memory RGB image with a reader and writer for the plain-text PPM
//! format and two whole-image pixel transforms.
pub mod error;
pub mod image;
pub mod lemmas;
pub mod lines;
pub mod pixel;
pub mod ppm;
pub mod text;
pub mod writer;

pub use error::FormatError;
pub use image::Image;
pub use pixel::Pixel;
pub use ppm::check_extension;
