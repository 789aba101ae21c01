//! Decoder for JPEG images.

pub mod header;
pub mod jpeg_core;
pub mod jpeg_reader;
pub mod transform;
pub mod zigzag;

use crate::error::{same_error, Error};
use crate::image::{Bitmap, ImageDecoder};
use crate::jpeg::header::{header_walk, walk_start};
use crate::jpeg::jpeg_reader::{next_marker_spec, word_at, JPEGMarker};
use vstd::prelude::*;

verus! {

/// Contains JPEG image data.
pub struct JPEGDecoder<'data> {
    image_data: &'data [u8],
}

impl<'data> JPEGDecoder<'data> {
    /// The bytes this decoder reads.
    pub closed spec fn data_spec(&self) -> Seq<u8> {
        self.image_data@
    }

    /// Initializes the JPEG decoder from a byte slice.
    pub fn new(image_data: &'data [u8]) -> (r: Self)
        ensures
            r.data_spec() == image_data@,
    {
        Self { image_data }
    }

    /// Decodes the image: parses the headers, then decodes the scan. The
    /// stream must open with SOI and pass the segment walk of
    /// [`header_walk`]; on success the bitmap holds three channels, the
    /// frame's unpadded size, and one byte per channel and pixel.
    pub fn decode(&self) -> (r: Result<Bitmap, Error>)
        ensures
            r matches Ok(bmp) ==> bmp.wf() && bmp.channels == 3,
            ({
                let s = self.data_spec();
                let first = next_marker_spec(s, 0);
                &&& (first matches Err(e) ==> r matches Err(e2) && same_error(e2, e))
                &&& (first matches Ok(m) && m.0 != JPEGMarker::SOI ==> {
                    &&& r matches Err(e2)
                    &&& same_error(e2, Error::Malformed("missing SOI"))
                })
                &&& match first {
                    Err(_) => true,
                    Ok((m0, pw)) => m0 == JPEGMarker::SOI ==> match header_walk(
                        s,
                        pw,
                        walk_start(),
                    ) {
                        Err(e) => r matches Err(e2) && same_error(e2, e),
                        Ok((st, sosp, endp)) => st.sof matches Some(so) && (r matches Ok(bmp)
                            ==> bmp.size == (word_at(s, so + 5) as u16, word_at(s, so + 3) as u16)),
                    },
                }
            }),
    {
        let mut decoder = jpeg_core::JPEGDecoder::new(self.image_data);
        let header = match decoder.parse() {
            Ok(h) => h,
            Err(e) => {
                return Err(e);
            },
        };
        decoder.read_scan(&header)
    }
}

impl<'data> ImageDecoder<'data> for JPEGDecoder<'data> {
    fn new(image_data: &'data [u8]) -> Self {
        JPEGDecoder::new(image_data)
    }

    fn decode(&self) -> Result<Bitmap, Error> {
        JPEGDecoder::decode(self)
    }
}

} // verus!
