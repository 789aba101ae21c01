use rust_image_decoder::jpeg::jpeg_reader::{JPEGMarker, JPEGParser};

fn test_header() -> Vec<u8> {
    vec![
        0xFF, 0xD8, // Start of image
        0xFF, 0xC0, // Start of frame
        0, 17, // Length
        8, // Precision
        0, 128, // Height
        0, 128, // Width
        3, // Component count
        0, 0, 0, 0, 0, 0, 0, 0, 0, // Component data
        0xFF, 0xFE, // Comment
        0, 3, // Length
        65, // Content
        0xFF, 0xD8, // Invalid marker
    ]
}

#[test]
fn read_words() {
    let data = test_header();
    let mut reader = JPEGParser::new(data.as_slice());
    assert_eq!(reader.read_next_byte().unwrap(), 0xFF);
    assert_eq!(reader.read_next_byte().unwrap(), 0xD8);

    assert_eq!(reader.read_next_word().unwrap(), 0xFFC0);
}

#[test]
fn read_markers() {
    let data = test_header();
    let mut reader = JPEGParser::new(data.as_slice());
    assert_eq!(reader.read_next_marker().unwrap(), JPEGMarker::SOI);
    assert_eq!(reader.read_next_marker().unwrap(), JPEGMarker::SOF0);
    assert!(!reader.skip_marker_with_length().is_err());
    assert_eq!(reader.read_next_marker().unwrap(), JPEGMarker::COM);
}
