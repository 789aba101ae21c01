//! Decoding of baseline sequential JPEG byte streams into RGB bitmaps.
//!
//! The decoder parses the segment structure (quantization tables, Huffman
//! tables, frame and scan headers), unstuffs the entropy-coded data, decodes
//! the DC/AC coefficients, dequantizes and un-zig-zags them, applies a
//! fixed-point inverse DCT, upsamples subsampled chroma planes and converts
//! YCbCr samples to interleaved RGB bytes.

pub mod bitstream;
pub mod error;
pub mod image;
pub mod jpeg;
