use rust_image_decoder::bitstream::Bitstream;
use rust_image_decoder::error::Error;
use rust_image_decoder::jpeg::header::{pad, HuffmanTable, HuffmanTableType};
use rust_image_decoder::jpeg::jpeg_core::upsample_plane;
use rust_image_decoder::jpeg::jpeg_reader::{JPEGMarker, JPEGParser};
use rust_image_decoder::jpeg::transform::ycbcr_to_rgb;
use rust_image_decoder::jpeg::zigzag::{zigzag_index, zigzag_inv};

#[test]
fn bitstream_msb_first() {
    let data: Vec<u8> = vec![0xB1, 0xA5];
    let mut bs = Bitstream::new(data.as_slice());
    assert_eq!(bs.read_bits(4).unwrap(), 0xB);
    assert_eq!(bs.read_bits(8).unwrap(), 0x1A);
    assert_eq!(bs.read_bits(4).unwrap(), 0x5);
}

#[test]
fn bitstream_read_past_end() {
    let data: Vec<u8> = vec![0xB1];
    let mut bs = Bitstream::new(data.as_slice());
    assert_eq!(bs.read_bits(4).unwrap(), 0xB);
    let r = bs.read_bits(8);
    assert!(matches!(r, Err(Error::InternalError(m)) if m == "read past end"));
}

#[test]
fn bitstream_too_many_bits() {
    let data: Vec<u8> = vec![0; 16];
    let mut bs = Bitstream::new(data.as_slice());
    assert!(matches!(bs.read_bits(65), Err(Error::InternalError(_))));
    assert_eq!(bs.read_bits(64).unwrap(), 0);
}

#[test]
fn huffman_canonical_codes() {
    let mut counts = vec![0u8; 16];
    counts[1] = 3;
    counts[2] = 1;
    let mut table = HuffmanTable {
        table_type: HuffmanTableType::Dc,
        destination_id: 0,
        bitcode_counts: counts,
        symbols: vec![0, 1, 2, 3],
        codes: vec![],
    };
    table.generate_codes().unwrap();
    // First code of length 3 is 2 * (first code of length 2 + its count):
    // 2 * (0 + 3) = 6, and codes of one length are consecutive.
    assert_eq!(table.codes, vec![0, 1, 2, 6]);
}

#[test]
fn huffman_invalid_counts() {
    let mut counts = vec![0u8; 16];
    counts[0] = 3; // three codes of one bit cannot exist
    let mut table = HuffmanTable {
        table_type: HuffmanTableType::Dc,
        destination_id: 0,
        bitcode_counts: counts,
        symbols: vec![0, 1, 2],
        codes: vec![],
    };
    let r = table.generate_codes();
    assert!(matches!(r, Err(Error::Malformed(m)) if m == "invalid Huffman table"));
}

#[test]
fn zigzag_bijection() {
    let mut seen = vec![false; 64];
    let mut i: usize = 0;
    while i < 64 {
        let j = zigzag_index(i);
        assert!(j < 64);
        assert!(!seen[j]);
        seen[j] = true;
        assert_eq!(zigzag_inv(j), i);
        i += 1;
    }
    assert_eq!(zigzag_index(0), 0);
    assert_eq!(zigzag_index(1), 1);
    assert_eq!(zigzag_index(2), 8);
    assert_eq!(zigzag_index(63), 63);
}

#[test]
fn pad_rounds_up() {
    assert_eq!(pad((13, 9), (8, 8)), (16, 16));
    assert_eq!(pad((16, 8), (8, 8)), (16, 8));
    assert_eq!(pad((1, 1), (16, 16)), (16, 16));
}

#[test]
fn upsample_identity() {
    let plane: Vec<i16> = vec![1, 2, 3, 4];
    let out = upsample_plane(&plane, 2, 2, 1, 1);
    assert_eq!(out, plane);
}

#[test]
fn upsample_two_by_two() {
    let mut src: Vec<i16> = vec![0; 16];
    src[0] = 1;
    src[1] = 2;
    src[4] = 3;
    src[5] = 4;
    let out = upsample_plane(&src, 4, 4, 2, 2);
    assert_eq!(out, vec![1, 1, 2, 2, 1, 1, 2, 2, 3, 3, 4, 4, 3, 3, 4, 4]);
}

#[test]
fn ycbcr_zero_is_mid_gray() {
    assert_eq!(ycbcr_to_rgb((0, 0, 0)), (128, 128, 128));
}

#[test]
fn ycbcr_red() {
    let (r, g, b) = ycbcr_to_rgb((-52, -43, 127));
    assert_eq!((r, g, b), (254, 1, 0));
}

#[test]
fn ycbcr_clamps() {
    let (r, _g, b) = ycbcr_to_rgb((127, 127, 127));
    assert_eq!(r, 255);
    assert_eq!(b, 255);
    let (r2, g2, b2) = ycbcr_to_rgb((-128, -128, -128));
    assert_eq!(r2, 0);
    assert_eq!(g2, 135);
    assert_eq!(b2, 0);
}

#[test]
fn marker_classification() {
    assert_eq!(JPEGParser::to_marker(0xFFD8).unwrap(), JPEGMarker::SOI);
    assert_eq!(JPEGParser::to_marker(0xFFC0).unwrap(), JPEGMarker::SOF0);
    assert!(matches!(JPEGParser::to_marker(0xFFC2), Err(Error::UnsupportedFeature(_))));
    assert!(matches!(JPEGParser::to_marker(0x1234), Err(Error::Malformed(_))));
    assert!(matches!(JPEGParser::to_marker(0xFF00), Err(Error::Malformed(_))));
    assert!(matches!(JPEGParser::to_marker(0xFFFF), Err(Error::Malformed(_))));
}

#[test]
fn error_messages() {
    assert_eq!(Error::Malformed("missing SOI").message(), "missing SOI");
    assert_eq!(Error::UnsupportedFeature("x").message(), "x");
}

#[test]
fn parser_positions() {
    let data: Vec<u8> = vec![1, 2, 3];
    let mut p = JPEGParser::new(data.as_slice());
    assert_eq!(p.position(), 0);
    assert_eq!(p.read_next_byte().unwrap(), 1);
    assert_eq!(p.position(), 1);
    assert_eq!(p.read_next_word().unwrap(), 0x0203);
    assert_eq!(p.position(), 3);
    assert!(matches!(p.read_next_byte(), Err(Error::Malformed(m)) if m == "unexpected end of input"));
}
