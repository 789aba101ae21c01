//! Bitmap output type and the decoding interface.

use crate::error::Error;
use vstd::prelude::*;

verus! {

/// Stores a single frame of image data in a simple bitmap form.
#[derive(Debug)]
pub struct Bitmap {
    /// The number of color channels in the image, e.g. 3 for RGB.
    pub channels: u8,
    /// The size of the image as (width, height).
    pub size: (u16, u16),
    /// The raw bitmap data, row-major, samples interleaved per pixel.
    pub data: Vec<u8>,
}

impl Bitmap {
    /// A bitmap is well formed when its buffer holds exactly one sample per
    /// channel for every pixel.
    pub open spec fn wf(&self) -> bool {
        self.data@.len() == self.size.0 as int * self.size.1 as int * self.channels as int
    }
}

/// Used to decode an image; implemented by each supported image format.
pub trait ImageDecoder<'data>: Sized {
    /// Supplies the decoder with the image data.
    fn new(image_data: &'data [u8]) -> Self;

    /// Decodes the image.
    fn decode(&self) -> Result<Bitmap, Error>;
}

/// Used to encode an image; implemented by each supported output format.
/// Implementations live with the surrounding application, since writing a
/// file is input/output the decoder core never performs.
pub trait ImageEncoder<'bitmap>: Sized {
    /// Supplies the encoder with a raw bitmap to encode.
    fn new(bitmap: &'bitmap Bitmap) -> Self;

    /// Encodes the bitmap and saves the result to a file at the given
    /// path.
    fn encode_to_file(&self, path: &str) -> Result<(), Error>;
}

} // verus!
