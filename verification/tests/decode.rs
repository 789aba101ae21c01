use rust_image_decoder::error::Error;
use rust_image_decoder::jpeg::JPEGDecoder;

fn push_segment(v: &mut Vec<u8>, marker: u8, payload: &[u8]) {
    v.push(0xFF);
    v.push(marker);
    let len = (payload.len() + 2) as u16;
    v.push((len >> 8) as u8);
    v.push((len & 0xFF) as u8);
    v.extend_from_slice(payload);
}

fn dqt_all_ones() -> Vec<u8> {
    let mut p = vec![0x00u8];
    p.extend(vec![1u8; 64]);
    p
}

fn dht(info: u8, counts: [u8; 16], symbols: &[u8]) -> Vec<u8> {
    let mut p = vec![info];
    p.extend_from_slice(&counts);
    p.extend_from_slice(symbols);
    p
}

fn sof(width: u16, height: u16, comps: &[(u8, u8, u8)]) -> Vec<u8> {
    let mut p = vec![
        8,
        (height >> 8) as u8,
        (height & 0xFF) as u8,
        (width >> 8) as u8,
        (width & 0xFF) as u8,
        comps.len() as u8,
    ];
    for c in comps {
        p.push(c.0);
        p.push(c.1);
        p.push(c.2);
    }
    p
}

fn sos() -> Vec<u8> {
    vec![3, 1, 0x00, 2, 0x00, 3, 0x00, 0, 63, 0]
}

struct Bits {
    v: Vec<bool>,
}

impl Bits {
    fn new() -> Self {
        Bits { v: vec![] }
    }

    fn push(&mut self, value: u64, n: usize) {
        let mut i = n;
        while i > 0 {
            i -= 1;
            self.v.push((value >> i) & 1 == 1);
        }
    }

    /// Packs the bits MSB-first, padding the last byte with ones, and
    /// applies 0xFF -> 0xFF 0x00 byte stuffing.
    fn to_stuffed_bytes(&self) -> Vec<u8> {
        let mut bytes: Vec<u8> = vec![];
        let mut cur: u8 = 0;
        let mut nbits = 0;
        for &b in &self.v {
            cur = (cur << 1) | (b as u8);
            nbits += 1;
            if nbits == 8 {
                bytes.push(cur);
                cur = 0;
                nbits = 0;
            }
        }
        if nbits > 0 {
            while nbits < 8 {
                cur = (cur << 1) | 1;
                nbits += 1;
            }
            bytes.push(cur);
        }
        let mut out = vec![];
        for b in bytes {
            out.push(b);
            if b == 0xFF {
                out.push(0x00);
            }
        }
        out
    }
}

fn simple_tables(jpeg: &mut Vec<u8>) {
    // One all-ones quantization table, destination 0.
    push_segment(jpeg, 0xDB, &dqt_all_ones());
    // DC table: a single one-bit code 0 for category 0.
    let mut dc_counts = [0u8; 16];
    dc_counts[0] = 1;
    push_segment(jpeg, 0xC4, &dht(0x00, dc_counts, &[0]));
    // AC table: a single one-bit code 0 for EOB.
    let mut ac_counts = [0u8; 16];
    ac_counts[0] = 1;
    push_segment(jpeg, 0xC4, &dht(0x10, ac_counts, &[0x00]));
}

/// A complete 8x8 4:4:4 JPEG whose every data unit codes DC category 0 and
/// an immediate EOB.
fn all_zero_jpeg() -> Vec<u8> {
    let mut jpeg = vec![0xFF, 0xD8];
    simple_tables(&mut jpeg);
    push_segment(&mut jpeg, 0xC0, &sof(8, 8, &[(1, 0x11, 0), (2, 0x11, 0), (3, 0x11, 0)]));
    push_segment(&mut jpeg, 0xDA, &sos());
    let mut bits = Bits::new();
    for _ in 0..3 {
        bits.push(0, 1); // DC category 0
        bits.push(0, 1); // EOB
    }
    jpeg.extend(bits.to_stuffed_bytes());
    jpeg.push(0xFF);
    jpeg.push(0xD9);
    jpeg
}

#[test]
fn minimal_all_zero_dct() {
    let jpeg = all_zero_jpeg();
    let decoder = JPEGDecoder::new(jpeg.as_slice());
    let bmp = decoder.decode().unwrap();
    assert_eq!(bmp.channels, 3);
    assert_eq!(bmp.size, (8, 8));
    assert_eq!(bmp.data.len(), 8 * 8 * 3);
    for &b in &bmp.data {
        assert_eq!(b, 128);
    }
}

#[test]
fn solid_red_420() {
    let mut jpeg = vec![0xFF, 0xD8];
    push_segment(&mut jpeg, 0xDB, &dqt_all_ones());
    // DC table: three two-bit codes 00, 01, 10 for categories 0, 9, 10.
    let mut dc_counts = [0u8; 16];
    dc_counts[1] = 3;
    push_segment(&mut jpeg, 0xC4, &dht(0x00, dc_counts, &[0, 9, 10]));
    let mut ac_counts = [0u8; 16];
    ac_counts[0] = 1;
    push_segment(&mut jpeg, 0xC4, &dht(0x10, ac_counts, &[0x00]));
    // 4:2:0 sampling: Y at 2x2, Cb and Cr at 1x1.
    push_segment(&mut jpeg, 0xC0, &sof(16, 16, &[(1, 0x22, 0), (2, 0x11, 0), (3, 0x11, 0)]));
    push_segment(&mut jpeg, 0xDA, &sos());
    let mut bits = Bits::new();
    // First Y unit: DC category 9, raw value 95 codes a difference of
    // -416, whose inverse DCT gives a constant plane of -52.
    bits.push(0b01, 2);
    bits.push(95, 9);
    bits.push(0, 1);
    // Remaining three Y units: zero difference.
    for _ in 0..3 {
        bits.push(0b00, 2);
        bits.push(0, 1);
    }
    // Cb: difference -344 (category 9, raw 167) -> constant -43.
    bits.push(0b01, 2);
    bits.push(167, 9);
    bits.push(0, 1);
    // Cr: difference 1016 (category 10) -> constant 127.
    bits.push(0b10, 2);
    bits.push(1016, 10);
    bits.push(0, 1);
    jpeg.extend(bits.to_stuffed_bytes());
    jpeg.push(0xFF);
    jpeg.push(0xD9);

    let decoder = JPEGDecoder::new(jpeg.as_slice());
    let bmp = decoder.decode().unwrap();
    assert_eq!(bmp.size, (16, 16));
    assert_eq!(bmp.data.len(), 16 * 16 * 3);
    let mut i = 0;
    while i < bmp.data.len() {
        assert!(bmp.data[i] >= 254, "red at {} was {}", i, bmp.data[i]);
        assert!(bmp.data[i + 1] <= 1, "green at {} was {}", i, bmp.data[i + 1]);
        assert!(bmp.data[i + 2] <= 1, "blue at {} was {}", i, bmp.data[i + 2]);
        i += 3;
    }
}

#[test]
fn marker_fill_tolerance() {
    // Extra 0xFF fill bytes before the SOF0 marker must be skipped.
    let mut jpeg = vec![0xFF, 0xD8];
    simple_tables(&mut jpeg);
    jpeg.push(0xFF);
    jpeg.push(0xFF);
    push_segment(&mut jpeg, 0xC0, &sof(8, 8, &[(1, 0x11, 0), (2, 0x11, 0), (3, 0x11, 0)]));
    push_segment(&mut jpeg, 0xDA, &sos());
    let mut bits = Bits::new();
    for _ in 0..3 {
        bits.push(0, 2);
    }
    jpeg.extend(bits.to_stuffed_bytes());
    jpeg.push(0xFF);
    jpeg.push(0xD9);
    let decoder = JPEGDecoder::new(jpeg.as_slice());
    let bmp = decoder.decode().unwrap();
    assert_eq!(bmp.size, (8, 8));
}

#[test]
fn byte_stuffed_coefficient() {
    // Entropy data 0xFF 0x00 0xA5 ...: the bitstream must see the bits of
    // 0xFF followed by those of 0xA5.
    let mut jpeg = vec![0xFF, 0xD8];
    push_segment(&mut jpeg, 0xDB, &dqt_all_ones());
    // DC table: code 0 -> category 0, code 10 -> category 0, and the
    // all-ones eight-bit code 11111111 -> category 3.
    let mut dc_counts = [0u8; 16];
    dc_counts[0] = 1;
    dc_counts[1] = 1;
    dc_counts[7] = 64;
    let mut dc_syms = vec![0u8; 66];
    dc_syms[65] = 3;
    push_segment(&mut jpeg, 0xC4, &dht(0x00, dc_counts, &dc_syms));
    // AC table: code 0 -> EOB, code 10 -> run 1, size 1.
    let mut ac_counts = [0u8; 16];
    ac_counts[0] = 1;
    ac_counts[1] = 1;
    push_segment(&mut jpeg, 0xC4, &dht(0x10, ac_counts, &[0x00, 0x11]));
    push_segment(&mut jpeg, 0xC0, &sof(8, 8, &[(1, 0x11, 0), (2, 0x11, 0), (3, 0x11, 0)]));
    push_segment(&mut jpeg, 0xDA, &sos());
    // Entropy bytes 0xFF 0xA5 0x80 parse as: Y: DC 11111111 (category 3),
    // value 101, EOB 0; Cb: DC 0, AC 10 + bit, AC 10 + bit, EOB; Cr: DC 0,
    // EOB. Stuffing turns 0xFF into 0xFF 0x00 on the wire.
    jpeg.extend_from_slice(&[0xFF, 0x00, 0xA5, 0x80]);
    jpeg.push(0xFF);
    jpeg.push(0xD9);
    assert!(jpeg.windows(3).any(|w| w == [0xFF, 0x00, 0xA5]));
    let decoder = JPEGDecoder::new(jpeg.as_slice());
    let bmp = decoder.decode().unwrap();
    assert_eq!(bmp.size, (8, 8));
    assert_eq!(bmp.data.len(), 192);
}

#[test]
fn unsupported_sof2() {
    let jpeg: Vec<u8> = vec![0xFF, 0xD8, 0xFF, 0xC2, 0x00, 0x05, 1, 2, 3];
    let decoder = JPEGDecoder::new(jpeg.as_slice());
    let r = decoder.decode();
    assert!(matches!(r, Err(Error::UnsupportedFeature(_))));
}

#[test]
fn truncated_scan() {
    let mut jpeg = all_zero_jpeg();
    // Drop the EOI marker: the entropy stream never terminates.
    jpeg.truncate(jpeg.len() - 2);
    let decoder = JPEGDecoder::new(jpeg.as_slice());
    let r = decoder.decode();
    assert!(matches!(r, Err(Error::Malformed(m)) if m == "unexpected end of input"));
}

#[test]
fn missing_soi() {
    let jpeg: Vec<u8> = vec![0x00, 0x01, 0x02];
    let decoder = JPEGDecoder::new(jpeg.as_slice());
    assert!(matches!(decoder.decode(), Err(Error::Malformed(_))));
}

#[test]
fn missing_frame_header() {
    let mut jpeg = vec![0xFF, 0xD8];
    simple_tables(&mut jpeg);
    push_segment(&mut jpeg, 0xDA, &sos());
    let decoder = JPEGDecoder::new(jpeg.as_slice());
    let r = decoder.decode();
    assert!(matches!(r, Err(Error::Malformed(m)) if m == "missing frame header"));
}

#[test]
fn empty_entropy_stream() {
    let mut jpeg = vec![0xFF, 0xD8];
    simple_tables(&mut jpeg);
    push_segment(&mut jpeg, 0xC0, &sof(8, 8, &[(1, 0x11, 0), (2, 0x11, 0), (3, 0x11, 0)]));
    push_segment(&mut jpeg, 0xDA, &sos());
    jpeg.push(0xFF);
    jpeg.push(0xD9);
    let decoder = JPEGDecoder::new(jpeg.as_slice());
    let r = decoder.decode();
    assert!(matches!(r, Err(Error::InternalError(m)) if m == "read past end"));
}

#[test]
fn unsupported_precision() {
    let mut jpeg = vec![0xFF, 0xD8];
    simple_tables(&mut jpeg);
    let mut payload = sof(8, 8, &[(1, 0x11, 0), (2, 0x11, 0), (3, 0x11, 0)]);
    payload[0] = 12;
    push_segment(&mut jpeg, 0xC0, &payload);
    push_segment(&mut jpeg, 0xDA, &sos());
    jpeg.push(0xFF);
    jpeg.push(0xD9);
    let decoder = JPEGDecoder::new(jpeg.as_slice());
    let r = decoder.decode();
    assert!(matches!(r, Err(Error::UnsupportedFeature(m)) if m == "unsupported precision"));
}

#[test]
fn comment_segment_skipped() {
    let mut jpeg = vec![0xFF, 0xD8];
    push_segment(&mut jpeg, 0xFE, &[65, 66, 67]);
    simple_tables(&mut jpeg);
    push_segment(&mut jpeg, 0xC0, &sof(8, 8, &[(1, 0x11, 0), (2, 0x11, 0), (3, 0x11, 0)]));
    push_segment(&mut jpeg, 0xDA, &sos());
    let mut bits = Bits::new();
    for _ in 0..3 {
        bits.push(0, 2);
    }
    jpeg.extend(bits.to_stuffed_bytes());
    jpeg.push(0xFF);
    jpeg.push(0xD9);
    let decoder = JPEGDecoder::new(jpeg.as_slice());
    assert!(decoder.decode().is_ok());
}

#[test]
fn restart_interval_unsupported() {
    let mut jpeg = vec![0xFF, 0xD8];
    push_segment(&mut jpeg, 0xDD, &[0x00, 0x04]);
    let decoder = JPEGDecoder::new(jpeg.as_slice());
    assert!(matches!(decoder.decode(), Err(Error::UnsupportedFeature(_))));
}

#[test]
fn non_integer_sampling_ratio() {
    // Y sampled 3x3 with 2x2 chroma: the ratios 3/2 are not integers.
    let mut jpeg = vec![0xFF, 0xD8];
    simple_tables(&mut jpeg);
    push_segment(&mut jpeg, 0xC0, &sof(8, 8, &[(1, 0x33, 0), (2, 0x22, 0), (3, 0x22, 0)]));
    push_segment(&mut jpeg, 0xDA, &sos());
    jpeg.push(0xFF);
    jpeg.push(0xD9);
    let decoder = JPEGDecoder::new(jpeg.as_slice());
    let r = decoder.decode();
    assert!(matches!(r, Err(Error::Malformed(m)) if m == "non-integer sampling ratio"));
}

#[test]
fn later_dqt_overwrites() {
    // Two DQT segments for destination 0: the later all-ones table must
    // replace the earlier all-twos table.
    let mut jpeg = vec![0xFF, 0xD8];
    let mut twos = vec![0x00u8];
    twos.extend(vec![2u8; 64]);
    push_segment(&mut jpeg, 0xDB, &twos);
    push_segment(&mut jpeg, 0xDB, &dqt_all_ones());
    let mut dc_counts = [0u8; 16];
    dc_counts[1] = 3;
    push_segment(&mut jpeg, 0xC4, &dht(0x00, dc_counts, &[0, 9, 10]));
    let mut ac_counts = [0u8; 16];
    ac_counts[0] = 1;
    push_segment(&mut jpeg, 0xC4, &dht(0x10, ac_counts, &[0x00]));
    push_segment(&mut jpeg, 0xC0, &sof(8, 8, &[(1, 0x11, 0), (2, 0x11, 0), (3, 0x11, 0)]));
    push_segment(&mut jpeg, 0xDA, &sos());
    let mut bits = Bits::new();
    // Y: DC category 9, raw 95 -> difference -416 -> samples -52 with the
    // all-ones table, but -104 were the all-twos table still in effect.
    bits.push(0b01, 2);
    bits.push(95, 9);
    bits.push(0, 1);
    // Cb, Cr: zero difference.
    for _ in 0..2 {
        bits.push(0b00, 2);
        bits.push(0, 1);
    }
    jpeg.extend(bits.to_stuffed_bytes());
    jpeg.push(0xFF);
    jpeg.push(0xD9);
    let decoder = JPEGDecoder::new(jpeg.as_slice());
    let bmp = decoder.decode().unwrap();
    for &b in &bmp.data {
        assert_eq!(b, 76);
    }
}

#[test]
fn legal_run_to_position_63() {
    // The AC loop may end exactly at coefficient 63 without an EOB: three
    // ZRL symbols and a run of 14 place the last coefficient at 63.
    let mut jpeg = vec![0xFF, 0xD8];
    push_segment(&mut jpeg, 0xDB, &dqt_all_ones());
    let mut dc_counts = [0u8; 16];
    dc_counts[0] = 1;
    push_segment(&mut jpeg, 0xC4, &dht(0x00, dc_counts, &[0]));
    // AC table: 0 -> EOB, 10 -> ZRL, 110 -> run 14, size 1.
    let mut ac_counts = [0u8; 16];
    ac_counts[0] = 1;
    ac_counts[1] = 1;
    ac_counts[2] = 1;
    push_segment(&mut jpeg, 0xC4, &dht(0x10, ac_counts, &[0x00, 0xF0, 0xE1]));
    push_segment(&mut jpeg, 0xC0, &sof(8, 8, &[(1, 0x11, 0), (2, 0x11, 0), (3, 0x11, 0)]));
    push_segment(&mut jpeg, 0xDA, &sos());
    let mut bits = Bits::new();
    // Y: DC category 0; ZRL to 16, 32, 48; then run 14, size 1 -> k = 63.
    bits.push(0, 1);
    for _ in 0..3 {
        bits.push(0b10, 2);
    }
    bits.push(0b110, 3);
    bits.push(1, 1);
    // Cb, Cr: DC category 0, immediate EOB.
    for _ in 0..2 {
        bits.push(0, 1);
        bits.push(0, 1);
    }
    jpeg.extend(bits.to_stuffed_bytes());
    jpeg.push(0xFF);
    jpeg.push(0xD9);
    let decoder = JPEGDecoder::new(jpeg.as_slice());
    let bmp = decoder.decode().unwrap();
    assert_eq!(bmp.size, (8, 8));
}

#[test]
fn overflowing_run_is_malformed() {
    // Five runs of 14 with one coefficient each would place the fifth
    // coefficient at position 75, past 63.
    let mut jpeg = vec![0xFF, 0xD8];
    push_segment(&mut jpeg, 0xDB, &dqt_all_ones());
    let mut dc_counts = [0u8; 16];
    dc_counts[0] = 1;
    push_segment(&mut jpeg, 0xC4, &dht(0x00, dc_counts, &[0]));
    let mut ac_counts = [0u8; 16];
    ac_counts[0] = 1;
    ac_counts[1] = 1;
    push_segment(&mut jpeg, 0xC4, &dht(0x10, ac_counts, &[0x00, 0xE1]));
    push_segment(&mut jpeg, 0xC0, &sof(8, 8, &[(1, 0x11, 0), (2, 0x11, 0), (3, 0x11, 0)]));
    push_segment(&mut jpeg, 0xDA, &sos());
    let mut bits = Bits::new();
    bits.push(0, 1); // DC category 0
    for _ in 0..5 {
        bits.push(0b10, 2); // run 14, size 1
        bits.push(1, 1);
    }
    jpeg.extend(bits.to_stuffed_bytes());
    jpeg.push(0xFF);
    jpeg.push(0xD9);
    let decoder = JPEGDecoder::new(jpeg.as_slice());
    let r = decoder.decode();
    assert!(matches!(r, Err(Error::Malformed(m)) if m == "run length overflow"));
}
