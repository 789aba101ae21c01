//! JPEG header structures and the segment parsers that populate them:
//! quantization tables, Huffman tables, frame and scan descriptors, and the
//! derived MCU geometry.

use crate::error::{same_error, Error};
use crate::jpeg::jpeg_reader::{
    next_marker_spec, skip_segment_spec, word_at, JPEGMarker, JPEGParser,
};
use crate::jpeg::zigzag::{zigzag_inv, zz_inv};
use vstd::arithmetic::power2::{
    lemma2_to64, lemma2_to64_rest, lemma_pow2_strictly_increases, lemma_pow2_unfold, pow2,
};
use vstd::prelude::*;

verus! {

broadcast use crate::jpeg::jpeg_reader::lemma_parser_in_bounds;

/// Class of a Huffman table: AC or DC coefficients.
#[derive(PartialEq, Eq, Structural, Debug, Clone, Copy)]
pub enum HuffmanTableType {
    Ac,
    Dc,
}

/// Intended use of a quantization table, by destination id.
#[derive(PartialEq, Eq, Structural, Debug, Clone, Copy)]
pub enum QuantizationTableType {
    Luma,
    Chroma,
}

/// Number of canonical codes of bit length shorter than `l` (1-based); for
/// `l == 17` this is the total number of codes.
pub open spec fn code_offset(counts: Seq<u8>, l: int) -> int
    decreases l,
{
    if l <= 1 {
        0
    } else {
        code_offset(counts, l - 1) + counts[l - 2]
    }
}

/// First canonical code value of bit length `l`: code generation starts at 0
/// and, after all codes of a length are emitted, the running code is shifted
/// left by one before the next length begins.
pub open spec fn first_code(counts: Seq<u8>, l: int) -> int
    decreases l,
{
    if l <= 1 {
        0
    } else {
        (first_code(counts, l - 1) + counts[l - 2]) * 2
    }
}

/// Every code of every bit length fits in its bit length; exactly then can
/// canonical codes be generated without exceeding 16 bits.
pub open spec fn valid_counts(counts: Seq<u8>) -> bool {
    forall|l: int|
        1 <= l <= 16 ==> #[trigger] first_code(counts, l) + counts[l - 1] <= pow2(l as nat)
}

/// `codes` lists the canonical codes derived from `counts`: for each bit
/// length the codes are consecutive values starting at the length's first
/// code.
pub open spec fn codes_wf(counts: Seq<u8>, codes: Seq<u16>) -> bool {
    &&& codes.len() == code_offset(counts, 17)
    &&& forall|l: int, j: int|
        #![trigger first_code(counts, l), codes[j]]
        1 <= l <= 16 && code_offset(counts, l) <= j < code_offset(counts, l) + counts[l - 1]
            ==> codes[j] == first_code(counts, l) + j - code_offset(counts, l)
}

/// Codes of lower lengths come first.
pub proof fn lemma_code_offset_monotone(counts: Seq<u8>, l1: int, l2: int)
    requires
        l1 <= l2,
    ensures
        code_offset(counts, l1) <= code_offset(counts, l2),
    decreases l2 - l1,
{
    if l1 < l2 {
        lemma_code_offset_monotone(counts, l1, l2 - 1);
        if l2 >= 2 {
            assert(code_offset(counts, l2) == code_offset(counts, l2 - 1) + counts[l2 - 2]);
        }
    }
}

/// Huffman canonicity, step law: the first code of a bit length is twice the
/// sum of the previous length's first code and its code count.
pub proof fn lemma_huffman_first_code_step(counts: Seq<u8>, l: int)
    requires
        2 <= l,
    ensures
        first_code(counts, l) == 2 * (first_code(counts, l - 1) + counts[l - 2]),
{
}

/// Huffman canonicity, consecutiveness law: two adjacent codes of the same
/// bit length differ by exactly one.
pub proof fn lemma_huffman_codes_consecutive(counts: Seq<u8>, codes: Seq<u16>, l: int, j: int)
    requires
        codes_wf(counts, codes),
        1 <= l <= 16,
        code_offset(counts, l) <= j,
        j + 1 < code_offset(counts, l) + counts[l - 1],
    ensures
        codes[j + 1] == codes[j] + 1,
{
    assert(codes[j] == first_code(counts, l) + j - code_offset(counts, l));
    assert(codes[j + 1] == first_code(counts, l) + (j + 1) - code_offset(counts, l));
}

/// Defines a JPEG Huffman table.
#[derive(Debug)]
pub struct HuffmanTable {
    /// Whether the table codes DC or AC coefficients.
    pub table_type: HuffmanTableType,
    /// Destination id the table was stored under (0 or 1).
    pub destination_id: u8,
    /// For each bit length `i + 1` (16 entries), the number of codes.
    pub bitcode_counts: Vec<u8>,
    /// The symbol each code decodes to, in code order.
    pub symbols: Vec<u8>,
    /// The canonical code values, parallel to `symbols`.
    pub codes: Vec<u16>,
}

impl HuffmanTable {
    /// Counts, symbols and codes are consistent: 16 count entries, one
    /// symbol and one canonical code per counted code.
    pub open spec fn wf(&self) -> bool {
        &&& self.bitcode_counts@.len() == 16
        &&& valid_counts(self.bitcode_counts@)
        &&& self.symbols@.len() == code_offset(self.bitcode_counts@, 17)
        &&& codes_wf(self.bitcode_counts@, self.codes@)
    }

    /// Fills `codes` with the canonical codes derived from `bitcode_counts`;
    /// fails when some code would exceed its bit length (and so, within 16
    /// lengths, 16 bits).
    pub fn generate_codes(&mut self) -> (r: Result<(), Error>)
        requires
            old(self).bitcode_counts@.len() == 16,
            old(self).codes@.len() == 0,
        ensures
            final(self).table_type == old(self).table_type,
            final(self).destination_id == old(self).destination_id,
            final(self).bitcode_counts@ == old(self).bitcode_counts@,
            final(self).symbols@ == old(self).symbols@,
            valid_counts(old(self).bitcode_counts@) ==> r == Ok::<(), Error>(()) && codes_wf(
                old(self).bitcode_counts@,
                final(self).codes@,
            ),
            !valid_counts(old(self).bitcode_counts@) ==> {
                &&& r matches Err(e)
                &&& same_error(e, Error::Malformed("invalid Huffman table"))
            },
    {
        let ghost counts = self.bitcode_counts@;
        proof {
            lemma2_to64();
        }
        let mut code: u32 = 0;
        let mut limit: u32 = 2;
        let mut l: usize = 1;
        #[verifier::loop_isolation(false)]
        while l <= 16
            invariant
                self.bitcode_counts@ == counts,
                counts.len() == 16,
                self.table_type == old(self).table_type,
                self.destination_id == old(self).destination_id,
                self.symbols@ == old(self).symbols@,
                1 <= l <= 17,
                code as int == first_code(counts, l as int),
                limit as int == pow2(l as nat),
                limit <= 0x20000,
                code <= limit,
                self.codes@.len() == code_offset(counts, l as int),
                forall|l2: int, j: int|
                    #![trigger first_code(counts, l2), self.codes@[j]]
                    1 <= l2 < l && code_offset(counts, l2) <= j < code_offset(counts, l2)
                        + counts[l2 - 1] ==> self.codes@[j] == first_code(counts, l2) + j
                        - code_offset(counts, l2),
                forall|l2: int|
                    1 <= l2 < l ==> #[trigger] first_code(counts, l2) + counts[l2 - 1] <= pow2(
                        l2 as nat,
                    ),
            decreases 17 - l,
        {
            let count = self.bitcode_counts[l - 1];
            let mut c: usize = 0;
            proof {
                if (l as nat) < 16 {
                    lemma_pow2_strictly_increases(l as nat, 16);
                }
            }
            #[verifier::loop_isolation(false)]
            while c < count as usize
                invariant
                    self.bitcode_counts@ == counts,
                    counts.len() == 16,
                    self.table_type == old(self).table_type,
                    self.destination_id == old(self).destination_id,
                    self.symbols@ == old(self).symbols@,
                    1 <= l <= 16,
                    count == counts[l - 1],
                    c <= count as usize,
                    code as int == first_code(counts, l as int) + c,
                    limit as int == pow2(l as nat),
                    limit <= 0x10000,
                    code <= limit,
                    self.codes@.len() == code_offset(counts, l as int) + c,
                    forall|l2: int, j: int|
                        #![trigger first_code(counts, l2), self.codes@[j]]
                        1 <= l2 < l && code_offset(counts, l2) <= j < code_offset(counts, l2)
                            + counts[l2 - 1] ==> self.codes@[j] == first_code(counts, l2) + j
                            - code_offset(counts, l2),
                    forall|j: int|
                        code_offset(counts, l as int) <= j < code_offset(counts, l as int) + c
                            ==> self.codes@[j] == first_code(counts, l as int) + j - code_offset(
                            counts,
                            l as int,
                        ),
                    forall|l2: int|
                        1 <= l2 < l ==> #[trigger] first_code(counts, l2) + counts[l2 - 1] <= pow2(
                            l2 as nat,
                        ),
                decreases count as usize - c,
            {
                if code >= limit {
                    proof {
                        assert(first_code(counts, l as int) + counts[l - 1] > pow2(l as nat));
                        assert(!valid_counts(counts));
                    }
                    return Err(Error::Malformed("invalid Huffman table"));
                }
                let ghost cs0 = self.codes@;
                self.codes.push(code as u16);
                proof {
                    assert forall|l2: int, j: int|
                        #![trigger first_code(counts, l2), self.codes@[j]]
                        1 <= l2 < l && code_offset(counts, l2) <= j < code_offset(counts, l2)
                            + counts[l2 - 1] implies self.codes@[j] == first_code(counts, l2) + j
                        - code_offset(counts, l2) by {
                        lemma_code_offset_monotone(counts, 1, l2);
                        lemma_code_offset_monotone(counts, l2 + 1, l as int);
                        assert(code_offset(counts, l2 + 1) == code_offset(counts, l2) + counts[l2
                            - 1]);
                        let vv = (first_code(counts, l as int) + c) as u16;
                        assert(self.codes@ == cs0.push(vv));
                        assert(j < cs0.len());
                        assert(cs0[j] == first_code(counts, l2) + j - code_offset(counts, l2));
                        assert(cs0.push(vv)[j] == cs0[j]);
                        assert(self.codes@[j] == cs0[j]);
                    };
                }
                code = code + 1;
                c = c + 1;
            }
            proof {
                lemma_pow2_unfold((l + 1) as nat);
            }
            code = code * 2;
            limit = limit * 2;
            l = l + 1;
            assert(self.codes@.len() == code_offset(counts, l as int));
            assert(code as int == first_code(counts, l as int));
        }
        proof {
            assert(valid_counts(counts));
            assert(codes_wf(counts, self.codes@));
        }
        Ok(())
    }
}

/// Defines a JPEG quantization table: an 8x8 matrix, already un-zig-zagged,
/// stored row-major as 64 entries.
#[derive(Debug)]
pub struct QuantizationTable {
    /// Luma for destination 0, chroma for destination 1.
    pub table_type: QuantizationTableType,
    /// 0 for 8-bit entries, 1 for 16-bit entries.
    pub precision: u8,
    /// Destination id the table was stored under (0 or 1).
    pub destination_id: u8,
    /// The 64 entries, row-major: cell `(row, col)` is `table[8 * row + col]`.
    pub table: Vec<u16>,
}

impl QuantizationTable {
    /// The matrix holds exactly 64 entries.
    pub open spec fn wf(&self) -> bool {
        self.table@.len() == 64
    }
}

impl Default for QuantizationTable {
    /// An all-zero luma table for destination 0.
    fn default() -> (r: Self)
        ensures
            r.wf(),
            r.table_type == QuantizationTableType::Luma,
            r.precision == 0,
            r.destination_id == 0,
            forall|j: int| 0 <= j < 64 ==> #[trigger] r.table@[j] == 0u16,
    {
        let mut table: Vec<u16> = Vec::new();
        let mut i: usize = 0;
        #[verifier::loop_isolation(false)]
        while i < 64
            invariant
                i <= 64,
                table@.len() == i,
                forall|j: int| 0 <= j < i ==> #[trigger] table@[j] == 0u16,
            decreases 64 - i,
        {
            table.push(0);
            i = i + 1;
        }
        Self { table_type: QuantizationTableType::Luma, precision: 0, destination_id: 0, table }
    }
}

/// One component descriptor from the frame header.
#[derive(Debug, Clone, Copy)]
pub struct FrameComponent {
    /// Component identifier byte (1 = Y, 2 = Cb, 3 = Cr).
    pub identifier: u8,
    /// Horizontal and vertical sampling factors.
    pub xy_sampling_factor: (u8, u8),
    /// Quantization table destination id this component uses.
    pub qtable_id: u8,
}

/// One component descriptor from the scan header.
#[derive(Debug, Clone, Copy)]
pub struct ScanComponent {
    /// Component selector; matches a frame component identifier.
    pub selector: u8,
    /// DC Huffman table destination id.
    pub dc_table: u8,
    /// AC Huffman table destination id.
    pub ac_table: u8,
}

/// A frame component paired with its scan component, by position.
#[derive(Debug, Clone, Copy)]
pub struct Component {
    /// The frame header descriptor.
    pub frame: FrameComponent,
    /// The scan header descriptor.
    pub scan: ScanComponent,
}

/// Contents of the scan header.
#[derive(Debug)]
pub struct ScanInfo {
    /// The scan's component descriptors, in scan order.
    pub components: Vec<ScanComponent>,
    /// Spectral selection start and end; 0 and 63 for baseline.
    pub spectral_selection: (u8, u8),
    /// Successive approximation; 0 for baseline.
    pub successive_approximation: u8,
}

/// Contents of the frame header.
#[derive(Debug)]
pub struct FrameInfo {
    /// Sample precision in bits; 8 for baseline.
    pub precision: u8,
    /// Unpadded image size as (width, height).
    pub image_size: (u16, u16),
    /// Image size rounded up to whole MCUs.
    pub padded_size: (u16, u16),
    /// The frame's component descriptors.
    pub components: Vec<FrameComponent>,
}

/// Derived MCU geometry.
#[derive(Debug)]
pub struct MCUInfo {
    /// Maximum horizontal and vertical sampling factors over all components.
    pub max_xy_sampling_factor: (u8, u8),
    /// MCU size in pixels: 8 times the maximum sampling factors.
    pub mcu_size: (u8, u8),
    /// Number of whole MCUs covered by the unpadded image.
    pub mcu_dimensions: (u16, u16),
    /// Number of MCUs covering the padded image.
    pub mcu_padded_dimensions: (u16, u16),
}

/// Everything read from the headers of a JPEG stream, up to and including
/// the start-of-scan segment.
#[derive(Debug)]
pub struct HeaderInfo {
    /// The frame header.
    pub frame_info: FrameInfo,
    /// The scan header.
    pub scan_info: ScanInfo,
    /// Frame and scan components paired by position.
    pub components: Vec<Component>,
    /// AC Huffman tables for destinations 0 and 1.
    pub ac_huff_tables: (Option<HuffmanTable>, Option<HuffmanTable>),
    /// DC Huffman tables for destinations 0 and 1.
    pub dc_huff_tables: (Option<HuffmanTable>, Option<HuffmanTable>),
    /// Quantization tables for destinations 0 and 1.
    pub quant_tables: (Option<QuantizationTable>, Option<QuantizationTable>),
    /// Byte offset of the first entropy-coded scan byte.
    pub header_length: usize,
    /// Derived MCU geometry.
    pub mcu_info: MCUInfo,
}

/// `w` rounded up to the next multiple of `b`.
pub open spec fn pad1(w: int, b: int) -> int
    recommends
        b > 0,
{
    if w % b == 0 {
        w
    } else {
        w + b - w % b
    }
}

/// Padding to a block multiple yields a multiple of the block size that is
/// at most one block larger than the original extent.
pub proof fn lemma_pad1(w: int, b: int)
    requires
        0 <= w,
        0 < b,
    ensures
        pad1(w, b) % b == 0,
        w <= pad1(w, b) < w + b,
        pad1(w, b) == b * (pad1(w, b) / b),
{
    assert(pad1(w, b) % b == 0 && w <= pad1(w, b) < w + b) by (nonlinear_arith)
        requires
            0 <= w,
            0 < b,
    ;
    assert(pad1(w, b) == b * (pad1(w, b) / b)) by (nonlinear_arith)
        requires
            0 < b,
            pad1(w, b) % b == 0,
    ;
}

/// Rounds both extents of `unpadded` up to whole multiples of `block_size`.
pub fn pad(unpadded: (u16, u16), block_size: (u8, u8)) -> (r: (u16, u16))
    requires
        block_size.0 > 0,
        block_size.1 > 0,
        pad1(unpadded.0 as int, block_size.0 as int) <= u16::MAX,
        pad1(unpadded.1 as int, block_size.1 as int) <= u16::MAX,
    ensures
        r.0 as int == pad1(unpadded.0 as int, block_size.0 as int),
        r.1 as int == pad1(unpadded.1 as int, block_size.1 as int),
{
    let mut result: (u16, u16) = (0, 0);
    proof {
        assert(unpadded.0 % (block_size.0 as u16) <= unpadded.0 && unpadded.1 % (block_size.1
            as u16) <= unpadded.1) by (nonlinear_arith)
            requires
                block_size.0 > 0,
                block_size.1 > 0,
        ;
    }
    let rem0 = unpadded.0 % (block_size.0 as u16);
    if rem0 == 0 {
        result.0 = unpadded.0;
    } else {
        result.0 = unpadded.0 - rem0 + block_size.0 as u16;
    }
    let rem1 = unpadded.1 % (block_size.1 as u16);
    if rem1 == 0 {
        result.1 = unpadded.1;
    } else {
        result.1 = unpadded.1 - rem1 + block_size.1 as u16;
    }
    result
}

/// Error raised when a stream ends before a read completes.
pub open spec fn eof_err() -> Error {
    Error::Malformed("unexpected end of input")
}

/// Whether the frame component descriptor at `q` carries one of the three
/// supported component identifiers.
pub open spec fn fc_id_ok(s: Seq<u8>, q: int) -> bool {
    1 <= s[q] <= 3
}

/// Whether the frame component descriptor at `q` carries sampling factors
/// in the supported range 1 to 4.
pub open spec fn fc_sampling_ok(s: Seq<u8>, q: int) -> bool {
    &&& 1 <= s[q + 1] / 16 <= 4
    &&& 1 <= s[q + 1] % 16 <= 4
}

/// First error raised while parsing a start-of-frame segment at `p` (the
/// position of the length word), or `None` when the parse succeeds.
pub open spec fn sof_err(s: Seq<u8>, p: int) -> Option<Error> {
    if p + 3 > s.len() {
        Some(eof_err())
    } else if s[p + 2] != 8 {
        Some(Error::UnsupportedFeature("unsupported precision"))
    } else if p + 8 > s.len() {
        Some(eof_err())
    } else if s[p + 7] != 3 {
        Some(Error::UnsupportedFeature("unsupported component count"))
    } else if p + 11 > s.len() {
        Some(eof_err())
    } else if !fc_id_ok(s, p + 8) {
        Some(Error::UnsupportedFeature("unsupported component identifier"))
    } else if !fc_sampling_ok(s, p + 8) {
        Some(Error::Malformed("invalid sampling factor"))
    } else if p + 14 > s.len() {
        Some(eof_err())
    } else if !fc_id_ok(s, p + 11) {
        Some(Error::UnsupportedFeature("unsupported component identifier"))
    } else if s[p + 11] == s[p + 8] {
        Some(Error::Malformed("duplicate component identifier"))
    } else if !fc_sampling_ok(s, p + 11) {
        Some(Error::Malformed("invalid sampling factor"))
    } else if p + 17 > s.len() {
        Some(eof_err())
    } else if !fc_id_ok(s, p + 14) {
        Some(Error::UnsupportedFeature("unsupported component identifier"))
    } else if s[p + 14] == s[p + 8] || s[p + 14] == s[p + 11] {
        Some(Error::Malformed("duplicate component identifier"))
    } else if !fc_sampling_ok(s, p + 14) {
        Some(Error::Malformed("invalid sampling factor"))
    } else {
        None
    }
}

/// The frame component described by the three bytes at `q`.
pub open spec fn fc_at(s: Seq<u8>, q: int) -> FrameComponent {
    FrameComponent {
        identifier: s[q],
        xy_sampling_factor: (s[q + 1] / 16, s[q + 1] % 16),
        qtable_id: s[q + 2],
    }
}

/// First error raised while parsing a start-of-scan segment at `p`, or
/// `None` when the parse succeeds.
pub open spec fn sos_err(s: Seq<u8>, p: int) -> Option<Error> {
    if p + 3 > s.len() {
        Some(eof_err())
    } else if s[p + 2] != 3 {
        Some(Error::Malformed("inconsistent component count"))
    } else if p + 5 > s.len() {
        Some(eof_err())
    } else if !(1 <= s[p + 3] <= 3) {
        Some(Error::UnsupportedFeature("unsupported component identifier"))
    } else if s[p + 4] / 16 > 1 || s[p + 4] % 16 > 1 {
        Some(Error::UnsupportedFeature("unsupported huffman table destination"))
    } else if p + 7 > s.len() {
        Some(eof_err())
    } else if !(1 <= s[p + 5] <= 3) {
        Some(Error::UnsupportedFeature("unsupported component identifier"))
    } else if s[p + 6] / 16 > 1 || s[p + 6] % 16 > 1 {
        Some(Error::UnsupportedFeature("unsupported huffman table destination"))
    } else if p + 9 > s.len() {
        Some(eof_err())
    } else if !(1 <= s[p + 7] <= 3) {
        Some(Error::UnsupportedFeature("unsupported component identifier"))
    } else if s[p + 8] / 16 > 1 || s[p + 8] % 16 > 1 {
        Some(Error::UnsupportedFeature("unsupported huffman table destination"))
    } else if p + 12 > s.len() {
        Some(eof_err())
    } else if s[p + 9] != 0 || s[p + 10] != 63 {
        Some(Error::UnsupportedFeature("unsupported spectral selection"))
    } else if s[p + 11] != 0 {
        Some(Error::UnsupportedFeature("unsupported successive approximation"))
    } else {
        None
    }
}

/// The scan component described by the two bytes at `q`.
pub open spec fn sc_at(s: Seq<u8>, q: int) -> ScanComponent {
    ScanComponent { selector: s[q], dc_table: s[q + 1] / 16, ac_table: s[q + 1] % 16 }
}

impl HeaderInfo {
    /// Reads a start-of-frame segment: precision, image size and the three
    /// component descriptors, validating the supported subset.
    fn read_start_of_frame(reader: &mut JPEGParser) -> (r: Result<FrameInfo, Error>)
        requires
            old(reader).wf(),
        ensures
            final(reader).wf(),
            final(reader).stream() == old(reader).stream(),
            ({
                let s = old(reader).stream();
                let p = old(reader).spec_pos();
                match r {
                    Ok(fi) => {
                        &&& sof_err(s, p) is None
                        &&& final(reader).spec_pos() == p + 17
                        &&& fi.precision == 8
                        &&& fi.image_size == (
                            word_at(s, p + 5) as u16,
                            word_at(s, p + 3) as u16,
                        )
                        &&& fi.padded_size == (0u16, 0u16)
                        &&& fi.components@.len() == 3
                        &&& forall|i: int|
                            0 <= i < 3 ==> #[trigger] fi.components@[i] == fc_at(s, p + 8 + 3 * i)
                    },
                    Err(e) => {
                        &&& sof_err(s, p) matches Some(e2)
                        &&& same_error(e, e2)
                    },
                }
            }),
    {
        let _struct_size = match reader.read_next_word() {
            Ok(w) => w,
            Err(e) => return Err(e),
        };
        let precision = match reader.read_next_byte() {
            Ok(b) => b,
            Err(e) => return Err(e),
        };
        if precision != 8 {
            return Err(Error::UnsupportedFeature("unsupported precision"));
        }
        let height = match reader.read_next_word() {
            Ok(w) => w,
            Err(e) => return Err(e),
        };
        let width = match reader.read_next_word() {
            Ok(w) => w,
            Err(e) => return Err(e),
        };
        let component_count = match reader.read_next_byte() {
            Ok(b) => b,
            Err(e) => return Err(e),
        };
        if component_count != 3 {
            return Err(Error::UnsupportedFeature("unsupported component count"));
        }
        let mut components: Vec<FrameComponent> = Vec::new();
        let mut i: usize = 0;
        #[verifier::loop_isolation(false)]
        while i < 3
            invariant
                reader.wf(),
                reader.stream() == old(reader).stream(),
                reader.spec_pos() == old(reader).spec_pos() + 8 + 3 * i,
                i <= 3,
                components@.len() == i,
                forall|k: int|
                    0 <= k < i ==> #[trigger] components@[k] == fc_at(
                        old(reader).stream(),
                        old(reader).spec_pos() + 8 + 3 * k,
                    ),
                sof_err(old(reader).stream(), old(reader).spec_pos()) == sof_err_from(
                    old(reader).stream(),
                    old(reader).spec_pos(),
                    i as int,
                ),
            decreases 3 - i,
        {
            proof {
                reveal_with_fuel(sof_err_from, 4);
            }
            let identifier = match reader.read_next_byte() {
                Ok(b) => b,
                Err(e) => return Err(e),
            };
            let sample_factors = match reader.read_next_byte() {
                Ok(b) => b,
                Err(e) => return Err(e),
            };
            let qtable_id = match reader.read_next_byte() {
                Ok(b) => b,
                Err(e) => return Err(e),
            };
            if identifier < 1 || identifier > 3 {
                return Err(Error::UnsupportedFeature("unsupported component identifier"));
            }
            let mut k: usize = 0;
            #[verifier::loop_isolation(false)]
            while k < i
                invariant
                    k <= i,
                    forall|k2: int| 0 <= k2 < k ==> #[trigger] components@[k2].identifier != identifier,
                decreases i - k,
            {
                if components[k].identifier == identifier {
                    return Err(Error::Malformed("duplicate component identifier"));
                }
                k = k + 1;
            }
            let h = sample_factors / 16;
            let v = sample_factors % 16;
            if h < 1 || h > 4 || v < 1 || v > 4 {
                proof {
                    let s2 = old(reader).stream();
                    let p2 = old(reader).spec_pos();
                    let q2 = p2 + 8 + 3 * i;
                    assert(identifier == s2[q2]);
                    assert(sample_factors == s2[q2 + 1]);
                    assert(fc_id_ok(s2, q2));
                    assert(!fc_sampling_ok(s2, q2));
                    assert(p2 + 11 + 3 * i <= s2.len());
                    assert(s2[p2 + 2] == 8);
                    assert(s2[p2 + 7] == 3);
                    if i >= 1 {
                        assert(components@[0] == fc_at(s2, p2 + 8));
                        assert(components@[0].identifier == s2[p2 + 8]);
                        assert(components@[0].identifier != identifier);
                    }
                    if i == 2 {
                        assert(components@[1] == fc_at(s2, p2 + 11));
                        assert(components@[1].identifier == s2[p2 + 11]);
                        assert(components@[1].identifier != identifier);
                    }
                    assert(sof_err_from(s2, p2, i as int) == Some(Error::Malformed(
                        "invalid sampling factor",
                    )));
                }
                return Err(Error::Malformed("invalid sampling factor"));
            }
            let ghost comps0 = components@;
            components.push(FrameComponent { identifier, xy_sampling_factor: (h, v), qtable_id });
            proof {
                let s2 = old(reader).stream();
                let p2 = old(reader).spec_pos();
                let q2 = p2 + 8 + 3 * i;
                assert forall|k: int| 0 <= k < i implies components@[k] == comps0[k] by {}
                assert(components@[i as int] == fc_at(s2, q2));
                assert(fc_id_ok(s2, q2));
                assert(fc_sampling_ok(s2, q2));
                if i >= 1 {
                    assert(components@[0] == fc_at(s2, p2 + 8));
                    assert(components@[0].identifier == s2[p2 + 8]);
                    assert(components@[0].identifier != identifier);
                }
                if i == 2 {
                    assert(components@[1] == fc_at(s2, p2 + 11));
                    assert(components@[1].identifier == s2[p2 + 11]);
                    assert(components@[1].identifier != identifier);
                }
                assert(sof_err_from(s2, p2, i as int) == sof_err_from(s2, p2, i + 1));
            }
            i = i + 1;
        }
        Ok(
            FrameInfo {
                precision,
                image_size: (width, height),
                padded_size: (0, 0),
                components,
            },
        )
    }
}

/// Value of the `i`-th zig-zag-ordered quantization entry whose encoding
/// starts at `q`, for entry precision `prec` (0 = one byte, 1 = one word).
pub open spec fn dqt_entry(s: Seq<u8>, q: int, prec: int, i: int) -> int {
    if prec == 0 {
        s[q + i] as int
    } else {
        word_at(s, q + 2 * i)
    }
}

/// The quantization table `t` holds exactly what the descriptor at `q`
/// defines for destination `dest`: its precision and its 64 entries,
/// un-zig-zagged into row-major order.
pub open spec fn qt_defined_at(s: Seq<u8>, q: int, t: QuantizationTable, dest: int) -> bool {
    &&& t.destination_id as int == dest
    &&& t.table_type == (if dest == 0 {
        QuantizationTableType::Luma
    } else {
        QuantizationTableType::Chroma
    })
    &&& t.precision as int == s[q] as int / 16
    &&& t.table@.len() == 64
    &&& forall|j: int|
        0 <= j < 64 ==> #[trigger] t.table@[j] as int == dqt_entry(
            s,
            q + 1,
            s[q] as int / 16,
            zz_inv(j),
        )
}

/// `t` is present exactly when a defining descriptor offset is recorded,
/// and then matches it.
pub open spec fn opt_qt_matches(
    t: Option<QuantizationTable>,
    o: Option<int>,
    s: Seq<u8>,
    dest: int,
) -> bool {
    match (t, o) {
        (Option::None, Option::None) => true,
        (Option::Some(t), Option::Some(q)) => qt_defined_at(s, q, t, dest),
        _ => false,
    }
}

/// Parses quantization-table descriptors from `q` up to exactly `end`,
/// returning for each destination the offset of its last defining
/// descriptor; mirrors one DQT segment body.
pub open spec fn dqt_seg_spec(s: Seq<u8>, q: int, end: int, acc: (Option<int>, Option<int>)) -> Result<
    (Option<int>, Option<int>),
    Error,
>
    decreases end - q,
{
    if q >= end {
        if q == end {
            Ok(acc)
        } else {
            Err(Error::Malformed("invalid segment length"))
        }
    } else if q + 1 > s.len() {
        Err(eof_err())
    } else if s[q] % 16 > 1 {
        Err(Error::UnsupportedFeature("unsupported quantization table destination"))
    } else if s[q] / 16 > 1 {
        Err(Error::Malformed("invalid precision value"))
    } else if q + 1 + (if s[q] / 16 == 0 {
        64int
    } else {
        128int
    }) > s.len() {
        Err(eof_err())
    } else if q + 1 + (if s[q] / 16 == 0 {
        64int
    } else {
        128int
    }) > end {
        Err(Error::Malformed("invalid segment length"))
    } else {
        dqt_seg_spec(
            s,
            q + 1 + (if s[q] / 16 == 0 {
                64int
            } else {
                128int
            }),
            end,
            if s[q] % 16 == 0 {
                (Some(q), acc.1)
            } else {
                (acc.0, Some(q))
            },
        )
    }
}

/// Result of parsing a whole DQT segment whose length word stands at `p`.
pub open spec fn dqt_spec(s: Seq<u8>, p: int) -> Result<(Option<int>, Option<int>), Error> {
    if p + 2 > s.len() {
        Err(eof_err())
    } else if word_at(s, p) < 2 {
        Err(Error::Malformed("invalid segment length"))
    } else {
        dqt_seg_spec(s, p + 2, p + word_at(s, p), (None, None))
    }
}

/// The 16 code counts of the Huffman table descriptor at `q`.
pub open spec fn counts_at(s: Seq<u8>, q: int) -> Seq<u8> {
    Seq::new(16, |k: int| s[q + 1 + k])
}

/// The Huffman table `t` holds exactly what the descriptor at `q` defines
/// for `class` (0 = DC, 1 = AC) and destination `dest`: its counts, its
/// symbols, and the canonical codes they determine.
pub open spec fn ht_defined_at(s: Seq<u8>, q: int, t: HuffmanTable, class: int, dest: int) -> bool {
    &&& t.destination_id as int == dest
    &&& t.table_type == (if class == 0 {
        HuffmanTableType::Dc
    } else {
        HuffmanTableType::Ac
    })
    &&& t.bitcode_counts@ == counts_at(s, q)
    &&& valid_counts(t.bitcode_counts@)
    &&& t.symbols@.len() == code_offset(t.bitcode_counts@, 17)
    &&& forall|k: int| 0 <= k < t.symbols@.len() ==> #[trigger] t.symbols@[k] == s[q + 17 + k]
    &&& codes_wf(t.bitcode_counts@, t.codes@)
}

/// `t` is present exactly when a defining descriptor offset is recorded,
/// and then matches it.
pub open spec fn opt_ht_matches(
    t: Option<HuffmanTable>,
    o: Option<int>,
    s: Seq<u8>,
    class: int,
    dest: int,
) -> bool {
    match (t, o) {
        (Option::None, Option::None) => true,
        (Option::Some(t), Option::Some(q)) => ht_defined_at(s, q, t, class, dest),
        _ => false,
    }
}

/// Parses Huffman-table descriptors from `q` up to exactly `end`,
/// returning for each class and destination the offset of its last
/// defining descriptor, as `((dc0, dc1), (ac0, ac1))`.
pub open spec fn dht_seg_spec(
    s: Seq<u8>,
    q: int,
    end: int,
    acc: ((Option<int>, Option<int>), (Option<int>, Option<int>)),
) -> Result<((Option<int>, Option<int>), (Option<int>, Option<int>)), Error>
    decreases end - q,
    via dht_seg_spec_decreases
{
    if q >= end {
        if q == end {
            Ok(acc)
        } else {
            Err(Error::Malformed("invalid segment length"))
        }
    } else if q + 1 > s.len() {
        Err(eof_err())
    } else if s[q] / 16 > 1 {
        Err(Error::Malformed("invalid huffman table class"))
    } else if s[q] % 16 > 1 {
        Err(Error::UnsupportedFeature("unsupported huffman table destination"))
    } else if q + 17 > s.len() {
        Err(eof_err())
    } else if q + 17 + code_offset(counts_at(s, q), 17) > s.len() {
        Err(eof_err())
    } else if q + 17 + code_offset(counts_at(s, q), 17) > end {
        Err(Error::Malformed("invalid segment length"))
    } else if !valid_counts(counts_at(s, q)) {
        Err(Error::Malformed("invalid Huffman table"))
    } else {
        dht_seg_spec(
            s,
            q + 17 + code_offset(counts_at(s, q), 17),
            end,
            ({
                let slot = Some(q);
                if s[q] / 16 == 0 {
                    (
                        if s[q] % 16 == 0 {
                            (slot, acc.0.1)
                        } else {
                            (acc.0.0, slot)
                        },
                        acc.1,
                    )
                } else {
                    (
                        acc.0,
                        if s[q] % 16 == 0 {
                            (slot, acc.1.1)
                        } else {
                            (acc.1.0, slot)
                        },
                    )
                }
            }),
        )
    }
}

#[via_fn]
proof fn dht_seg_spec_decreases(
    s: Seq<u8>,
    q: int,
    end: int,
    acc: ((Option<int>, Option<int>), (Option<int>, Option<int>)),
) {
    lemma_code_offset_monotone(counts_at(s, q), 1, 17);
}

/// Result of parsing a whole DHT segment whose length word stands at `p`.
pub open spec fn dht_spec(s: Seq<u8>, p: int) -> Result<
    ((Option<int>, Option<int>), (Option<int>, Option<int>)),
    Error,
> {
    if p + 2 > s.len() {
        Err(eof_err())
    } else if word_at(s, p) < 2 {
        Err(Error::Malformed("invalid segment length"))
    } else {
        dht_seg_spec(s, p + 2, p + word_at(s, p), ((None, None), (None, None)))
    }
}

impl HeaderInfo {
    /// Reads a start-of-scan segment, leaving the cursor at the start of
    /// the entropy-coded scan data.
    fn read_start_of_scan(reader: &mut JPEGParser) -> (r: Result<ScanInfo, Error>)
        requires
            old(reader).wf(),
        ensures
            final(reader).wf(),
            final(reader).stream() == old(reader).stream(),
            ({
                let s = old(reader).stream();
                let p = old(reader).spec_pos();
                match r {
                    Ok(si) => {
                        &&& sos_err(s, p) is None
                        &&& final(reader).spec_pos() == p + 12
                        &&& si.components@.len() == 3
                        &&& forall|i: int|
                            0 <= i < 3 ==> #[trigger] si.components@[i] == sc_at(s, p + 3 + 2 * i)
                        &&& si.spectral_selection == (0u8, 63u8)
                        &&& si.successive_approximation == 0
                    },
                    Err(e) => {
                        &&& sos_err(s, p) matches Some(e2)
                        &&& same_error(e, e2)
                    },
                }
            }),
    {
        let _struct_size = match reader.read_next_word() {
            Ok(w) => w,
            Err(e) => return Err(e),
        };
        let component_count = match reader.read_next_byte() {
            Ok(b) => b,
            Err(e) => return Err(e),
        };
        if component_count != 3 {
            return Err(Error::Malformed("inconsistent component count"));
        }
        let mut components: Vec<ScanComponent> = Vec::new();
        let sel0 = match reader.read_next_byte() {
            Ok(b) => b,
            Err(e) => return Err(e),
        };
        let tables0 = match reader.read_next_byte() {
            Ok(b) => b,
            Err(e) => return Err(e),
        };
        if sel0 < 1 || sel0 > 3 {
            return Err(Error::UnsupportedFeature("unsupported component identifier"));
        }
        if tables0 / 16 > 1 || tables0 % 16 > 1 {
            return Err(Error::UnsupportedFeature("unsupported huffman table destination"));
        }
        components.push(
            ScanComponent { selector: sel0, dc_table: tables0 / 16, ac_table: tables0 % 16 },
        );
        let sel1 = match reader.read_next_byte() {
            Ok(b) => b,
            Err(e) => return Err(e),
        };
        let tables1 = match reader.read_next_byte() {
            Ok(b) => b,
            Err(e) => return Err(e),
        };
        if sel1 < 1 || sel1 > 3 {
            return Err(Error::UnsupportedFeature("unsupported component identifier"));
        }
        if tables1 / 16 > 1 || tables1 % 16 > 1 {
            return Err(Error::UnsupportedFeature("unsupported huffman table destination"));
        }
        components.push(
            ScanComponent { selector: sel1, dc_table: tables1 / 16, ac_table: tables1 % 16 },
        );
        let sel2 = match reader.read_next_byte() {
            Ok(b) => b,
            Err(e) => return Err(e),
        };
        let tables2 = match reader.read_next_byte() {
            Ok(b) => b,
            Err(e) => return Err(e),
        };
        if sel2 < 1 || sel2 > 3 {
            return Err(Error::UnsupportedFeature("unsupported component identifier"));
        }
        if tables2 / 16 > 1 || tables2 % 16 > 1 {
            return Err(Error::UnsupportedFeature("unsupported huffman table destination"));
        }
        components.push(
            ScanComponent { selector: sel2, dc_table: tables2 / 16, ac_table: tables2 % 16 },
        );
        let spectral_start = match reader.read_next_byte() {
            Ok(b) => b,
            Err(e) => return Err(e),
        };
        let spectral_end = match reader.read_next_byte() {
            Ok(b) => b,
            Err(e) => return Err(e),
        };
        let successive_approximation = match reader.read_next_byte() {
            Ok(b) => b,
            Err(e) => return Err(e),
        };
        if spectral_start != 0 || spectral_end != 63 {
            return Err(Error::UnsupportedFeature("unsupported spectral selection"));
        }
        if successive_approximation != 0 {
            return Err(Error::UnsupportedFeature("unsupported successive approximation"));
        }
        Ok(
            ScanInfo {
                components,
                spectral_selection: (spectral_start, spectral_end),
                successive_approximation,
            },
        )
    }
}

impl HeaderInfo {
    /// Reads one DQT segment: any number of quantization tables, each
    /// un-zig-zagged into row-major order and stored by destination id.
    /// Later tables for the same destination overwrite earlier ones.
    fn read_quantization_tables(reader: &mut JPEGParser) -> (r: Result<
        (Option<QuantizationTable>, Option<QuantizationTable>),
        Error,
    >)
        requires
            old(reader).wf(),
        ensures
            final(reader).wf(),
            final(reader).stream() == old(reader).stream(),
            ({
                let s = old(reader).stream();
                let p = old(reader).spec_pos();
                match dqt_spec(s, p) {
                    Ok(acc) => {
                        &&& r matches Ok(ts)
                        &&& opt_qt_matches(ts.0, acc.0, s, 0)
                        &&& opt_qt_matches(ts.1, acc.1, s, 1)
                        &&& final(reader).spec_pos() == p + word_at(s, p)
                    },
                    Err(e) => {
                        &&& r matches Err(e2)
                        &&& same_error(e2, e)
                    },
                }
            }),
    {
        let ghost s = old(reader).stream();
        let ghost p = old(reader).spec_pos();
        let len_w = match reader.read_next_word() {
            Ok(w) => w,
            Err(e) => return Err(e),
        };
        if len_w < 2 {
            return Err(Error::Malformed("invalid segment length"));
        }
        let mut left: usize = (len_w - 2) as usize;
        let mut t0: Option<QuantizationTable> = None;
        let mut t1: Option<QuantizationTable> = None;
        let ghost mut acc: (Option<int>, Option<int>) = (None, None);
        #[verifier::loop_isolation(false)]
        while left > 0
            invariant
                reader.wf(),
                reader.stream() == s,
                left <= word_at(s, p) - 2,
                reader.spec_pos() == p + word_at(s, p) - left,
                dqt_seg_spec(s, p + 2, p + word_at(s, p), (None, None)) == dqt_seg_spec(
                    s,
                    reader.spec_pos(),
                    p + word_at(s, p),
                    acc,
                ),
                opt_qt_matches(t0, acc.0, s, 0),
                opt_qt_matches(t1, acc.1, s, 1),
            decreases left,
        {
            let ghost q = reader.spec_pos();
            let info = match reader.read_next_byte() {
                Ok(b) => b,
                Err(e) => return Err(e),
            };
            let precision = info / 16;
            let destination_id = info % 16;
            if destination_id > 1 {
                return Err(Error::UnsupportedFeature("unsupported quantization table destination"));
            }
            if precision > 1 {
                return Err(Error::Malformed("invalid precision value"));
            }
            let mut zagged: Vec<u16> = Vec::new();
            let mut i: usize = 0;
            #[verifier::loop_isolation(false)]
            while i < 64
                invariant
                    reader.wf(),
                    reader.stream() == s,
                    i <= 64,
                    zagged@.len() == i,
                    reader.spec_pos() == q + 1 + (if precision == 0 {
                        i as int
                    } else {
                        2 * i
                    }),
                    forall|k: int|
                        0 <= k < i ==> #[trigger] zagged@[k] as int == dqt_entry(
                            s,
                            q + 1,
                            precision as int,
                            k,
                        ),
                decreases 64 - i,
            {
                if precision == 0 {
                    let b = match reader.read_next_byte() {
                        Ok(b) => b,
                        Err(e) => return Err(e),
                    };
                    zagged.push(b as u16);
                } else {
                    let w = match reader.read_next_word() {
                        Ok(w) => w,
                        Err(e) => return Err(e),
                    };
                    zagged.push(w);
                }
                i = i + 1;
            }
            let mut table: Vec<u16> = Vec::new();
            let mut j: usize = 0;
            #[verifier::loop_isolation(false)]
            while j < 64
                invariant
                    j <= 64,
                    table@.len() == j,
                    forall|k: int|
                        0 <= k < j ==> #[trigger] table@[k] as int == dqt_entry(
                            s,
                            q + 1,
                            precision as int,
                            zz_inv(k),
                        ),
                decreases 64 - j,
            {
                let zi = zigzag_inv(j);
                table.push(zagged[zi]);
                j = j + 1;
            }
            let qt = QuantizationTable {
                table_type: if destination_id == 0 {
                    QuantizationTableType::Luma
                } else {
                    QuantizationTableType::Chroma
                },
                precision,
                destination_id,
                table,
            };
            proof {
                assert(qt_defined_at(s, q, qt, destination_id as int));
            }
            let consumed: usize = if precision == 0 {
                65
            } else {
                129
            };
            proof {
                let end = p + word_at(s, p);
                assert(q < end);
                assert(reader.spec_pos() == q + consumed);
                assert(q + 1 <= s.len());
                assert(s[q] == info);
                assert(s[q] % 16 <= 1);
                assert(s[q] / 16 <= 1);
                assert(s[q] / 16 == precision as int);
                assert(q + 1 + (if s[q] / 16 == 0 {
                    64int
                } else {
                    128int
                }) == q + consumed);
                assert(q + consumed <= s.len());
            }
            if consumed > left {
                proof {
                    let end = p + word_at(s, p);
                    assert(q + consumed > end);
                    assert(dqt_seg_spec(s, q, end, acc) == Err::<
                        (Option<int>, Option<int>),
                        Error,
                    >(Error::Malformed("invalid segment length")));
                }
                return Err(Error::Malformed("invalid segment length"));
            }
            let ghost acc_prev = acc;
            if destination_id == 0 {
                t0 = Some(qt);
                proof {
                    acc = (Some(q), acc.1);
                }
            } else {
                t1 = Some(qt);
                proof {
                    acc = (acc.0, Some(q));
                }
            }
            proof {
                let end = p + word_at(s, p);
                assert(q + consumed <= end);
                assert(dqt_seg_spec(s, q, end, acc_prev) == dqt_seg_spec(
                    s,
                    q + consumed,
                    end,
                    acc,
                ));
            }
            left = left - consumed;
        }
        Ok((t0, t1))
    }
}

impl HeaderInfo {
    /// Reads one DHT segment: any number of Huffman tables, each with its
    /// canonical codes generated, stored by class and destination id as
    /// `((ac0, ac1), (dc0, dc1))`. Later tables for the same class and
    /// destination overwrite earlier ones.
    fn read_huffman_tables(reader: &mut JPEGParser) -> (r: Result<
        (
            (Option<HuffmanTable>, Option<HuffmanTable>),
            (Option<HuffmanTable>, Option<HuffmanTable>),
        ),
        Error,
    >)
        requires
            old(reader).wf(),
        ensures
            final(reader).wf(),
            final(reader).stream() == old(reader).stream(),
            ({
                let s = old(reader).stream();
                let p = old(reader).spec_pos();
                match dht_spec(s, p) {
                    Ok(acc) => {
                        &&& r matches Ok(ts)
                        &&& opt_ht_matches(ts.1.0, acc.0.0, s, 0, 0)
                        &&& opt_ht_matches(ts.1.1, acc.0.1, s, 0, 1)
                        &&& opt_ht_matches(ts.0.0, acc.1.0, s, 1, 0)
                        &&& opt_ht_matches(ts.0.1, acc.1.1, s, 1, 1)
                        &&& final(reader).spec_pos() == p + word_at(s, p)
                    },
                    Err(e) => {
                        &&& r matches Err(e2)
                        &&& same_error(e2, e)
                    },
                }
            }),
    {
        let ghost s = old(reader).stream();
        let ghost p = old(reader).spec_pos();
        let len_w = match reader.read_next_word() {
            Ok(w) => w,
            Err(e) => return Err(e),
        };
        if len_w < 2 {
            return Err(Error::Malformed("invalid segment length"));
        }
        let mut left: usize = (len_w - 2) as usize;
        let mut dc0: Option<HuffmanTable> = None;
        let mut dc1: Option<HuffmanTable> = None;
        let mut ac0: Option<HuffmanTable> = None;
        let mut ac1: Option<HuffmanTable> = None;
        let ghost mut acc: ((Option<int>, Option<int>), (Option<int>, Option<int>)) = (
            (None, None),
            (None, None),
        );
        #[verifier::loop_isolation(false)]
        while left > 0
            invariant
                reader.wf(),
                reader.stream() == s,
                left <= word_at(s, p) - 2,
                reader.spec_pos() == p + word_at(s, p) - left,
                dht_seg_spec(s, p + 2, p + word_at(s, p), ((None, None), (None, None)))
                    == dht_seg_spec(s, reader.spec_pos(), p + word_at(s, p), acc),
                opt_ht_matches(dc0, acc.0.0, s, 0, 0),
                opt_ht_matches(dc1, acc.0.1, s, 0, 1),
                opt_ht_matches(ac0, acc.1.0, s, 1, 0),
                opt_ht_matches(ac1, acc.1.1, s, 1, 1),
            decreases left,
        {
            let ghost q = reader.spec_pos();
            let info = match reader.read_next_byte() {
                Ok(b) => b,
                Err(e) => return Err(e),
            };
            let class = info / 16;
            let destination_id = info % 16;
            if class > 1 {
                return Err(Error::Malformed("invalid huffman table class"));
            }
            if destination_id > 1 {
                return Err(Error::UnsupportedFeature("unsupported huffman table destination"));
            }
            let mut bitcode_counts: Vec<u8> = Vec::new();
            let mut i: usize = 0;
            let mut size: usize = 0;
            #[verifier::loop_isolation(false)]
            while i < 16
                invariant
                    reader.wf(),
                    reader.stream() == s,
                    i <= 16,
                    bitcode_counts@.len() == i,
                    reader.spec_pos() == q + 1 + i,
                    forall|k: int| 0 <= k < i ==> #[trigger] bitcode_counts@[k] == s[q + 1 + k],
                    size <= 255 * i,
                    size as int == code_offset(bitcode_counts@, i + 1),
                decreases 16 - i,
            {
                let count = match reader.read_next_byte() {
                    Ok(b) => b,
                    Err(e) => return Err(e),
                };
                let ghost size0 = size as int;
                let ghost bc0 = bitcode_counts@;
                bitcode_counts.push(count);
                size = size + count as usize;
                proof {
                    assert(bitcode_counts@ == bc0.push(count));
                    lemma_code_offset_push(bc0, count, i as int);
                }
                i = i + 1;
            }
            proof {
                assert(bitcode_counts@ =~= counts_at(s, q));
            }
            let mut symbols: Vec<u8> = Vec::new();
            let mut k: usize = 0;
            #[verifier::loop_isolation(false)]
            while k < size
                invariant
                    reader.wf(),
                    reader.stream() == s,
                    k <= size,
                    symbols@.len() == k,
                    reader.spec_pos() == q + 17 + k,
                    forall|k2: int| 0 <= k2 < k ==> #[trigger] symbols@[k2] == s[q + 17 + k2],
                decreases size - k,
            {
                let b = match reader.read_next_byte() {
                    Ok(b) => b,
                    Err(e) => return Err(e),
                };
                symbols.push(b);
                k = k + 1;
            }
            let consumed: usize = 17 + size;
            proof {
                let end = p + word_at(s, p);
                assert(q < end);
                assert(reader.spec_pos() == q + consumed);
                assert(s[q] == info);
                assert(q + 17 + code_offset(counts_at(s, q), 17) == q + consumed);
            }
            if consumed > left {
                proof {
                    let end = p + word_at(s, p);
                    assert(dht_seg_spec(s, q, end, acc) == Err::<
                        ((Option<int>, Option<int>), (Option<int>, Option<int>)),
                        Error,
                    >(Error::Malformed("invalid segment length")));
                }
                return Err(Error::Malformed("invalid segment length"));
            }
            let mut table = HuffmanTable {
                table_type: if class == 0 {
                    HuffmanTableType::Dc
                } else {
                    HuffmanTableType::Ac
                },
                destination_id,
                bitcode_counts,
                symbols,
                codes: Vec::new(),
            };
            match table.generate_codes() {
                Ok(()) => {},
                Err(e) => {
                    proof {
                        assert(!valid_counts(counts_at(s, q)));
                    }
                    return Err(e);
                },
            }
            proof {
                assert(valid_counts(counts_at(s, q)));
                assert(ht_defined_at(s, q, table, class as int, destination_id as int));
            }
            let ghost acc_prev = acc;
            if class == 0 {
                if destination_id == 0 {
                    dc0 = Some(table);
                    proof {
                        acc = ((Some(q), acc.0.1), acc.1);
                    }
                } else {
                    dc1 = Some(table);
                    proof {
                        acc = ((acc.0.0, Some(q)), acc.1);
                    }
                }
            } else {
                if destination_id == 0 {
                    ac0 = Some(table);
                    proof {
                        acc = (acc.0, (Some(q), acc.1.1));
                    }
                } else {
                    ac1 = Some(table);
                    proof {
                        acc = (acc.0, (acc.1.0, Some(q)));
                    }
                }
            }
            proof {
                let end = p + word_at(s, p);
                assert(q + consumed <= end);
                assert(dht_seg_spec(s, q, end, acc_prev) == dht_seg_spec(
                    s,
                    q + consumed,
                    end,
                    acc,
                ));
            }
            left = left - consumed;
        }
        Ok(((ac0, ac1), (dc0, dc1)))
    }
}

/// Appending one count extends the total by that count.
proof fn lemma_code_offset_push(counts: Seq<u8>, count: u8, i: int)
    requires
        0 <= i,
        counts.len() == i,
    ensures
        code_offset(counts.push(count), i + 2) == code_offset(counts, i + 1) + count,
        forall|l: int|
            l <= i + 1 ==> #[trigger] code_offset(counts.push(count), l) == code_offset(counts, l),
    decreases i + 2,
{
    assert forall|l: int| l <= i + 1 implies #[trigger] code_offset(counts.push(count), l)
        == code_offset(counts, l) by {
        lemma_code_offset_prefix(counts, count, l);
    }
    assert(code_offset(counts.push(count), i + 2) == code_offset(counts.push(count), i + 1)
        + counts.push(count)[i]);
}

/// The running total over a strict prefix ignores an appended count.
proof fn lemma_code_offset_prefix(counts: Seq<u8>, count: u8, l: int)
    requires
        l <= counts.len() + 1,
    ensures
        code_offset(counts.push(count), l) == code_offset(counts, l),
    decreases (if l >= 0 {
        l
    } else {
        0
    }),
{
    if l > 1 {
        lemma_code_offset_prefix(counts, count, l - 1);
        assert(counts.push(count)[l - 2] == counts[l - 2]);
    }
}

/// Rest of the start-of-frame error chain once the first `i` component
/// descriptors were accepted.
pub open spec fn sof_err_from(s: Seq<u8>, p: int, i: int) -> Option<Error>
    decreases 3 - i,
{
    if i <= 0 {
        sof_err(s, p)
    } else if i == 1 {
        if p + 14 > s.len() {
            Some(eof_err())
        } else if !fc_id_ok(s, p + 11) {
            Some(Error::UnsupportedFeature("unsupported component identifier"))
        } else if s[p + 11] == s[p + 8] {
            Some(Error::Malformed("duplicate component identifier"))
        } else if !fc_sampling_ok(s, p + 11) {
            Some(Error::Malformed("invalid sampling factor"))
        } else {
            sof_err_from(s, p, 2)
        }
    } else if i == 2 {
        if p + 17 > s.len() {
            Some(eof_err())
        } else if !fc_id_ok(s, p + 14) {
            Some(Error::UnsupportedFeature("unsupported component identifier"))
        } else if s[p + 14] == s[p + 8] || s[p + 14] == s[p + 11] {
            Some(Error::Malformed("duplicate component identifier"))
        } else if !fc_sampling_ok(s, p + 14) {
            Some(Error::Malformed("invalid sampling factor"))
        } else {
            None
        }
    } else {
        None
    }
}


/// Largest of three values.
pub open spec fn max3(a: int, b: int, c: int) -> int {
    if a >= b && a >= c {
        a
    } else if b >= c {
        b
    } else {
        c
    }
}

/// A stored Huffman table, when present, is well formed and carries the
/// class and destination of its slot.
pub open spec fn opt_table_ok(t: Option<HuffmanTable>, class: int, dest: int) -> bool {
    t matches Some(tab) ==> {
        &&& tab.wf()
        &&& tab.destination_id as int == dest
        &&& tab.table_type == (if class == 0 {
            HuffmanTableType::Dc
        } else {
            HuffmanTableType::Ac
        })
    }
}

/// A stored quantization table, when present, is well formed and carries
/// the destination of its slot.
pub open spec fn opt_qtable_ok(t: Option<QuantizationTable>, dest: int) -> bool {
    t matches Some(tab) ==> {
        &&& tab.wf()
        &&& tab.destination_id as int == dest
    }
}

impl HeaderInfo {
    /// The DC Huffman table stored under destination id `id`.
    pub open spec fn dc_table_spec(&self, id: int) -> Option<HuffmanTable> {
        if id == 0 {
            self.dc_huff_tables.0
        } else {
            self.dc_huff_tables.1
        }
    }

    /// The AC Huffman table stored under destination id `id`.
    pub open spec fn ac_table_spec(&self, id: int) -> Option<HuffmanTable> {
        if id == 0 {
            self.ac_huff_tables.0
        } else {
            self.ac_huff_tables.1
        }
    }

    /// The quantization table stored under destination id `id`.
    pub open spec fn quant_table_spec(&self, id: int) -> Option<QuantizationTable> {
        if id == 0 {
            self.quant_tables.0
        } else {
            self.quant_tables.1
        }
    }

    /// Maximum horizontal sampling factor over the three components.
    pub open spec fn hmax_spec(&self) -> int {
        max3(
            self.frame_info.components@[0].xy_sampling_factor.0 as int,
            self.frame_info.components@[1].xy_sampling_factor.0 as int,
            self.frame_info.components@[2].xy_sampling_factor.0 as int,
        )
    }

    /// Maximum vertical sampling factor over the three components.
    pub open spec fn vmax_spec(&self) -> int {
        max3(
            self.frame_info.components@[0].xy_sampling_factor.1 as int,
            self.frame_info.components@[1].xy_sampling_factor.1 as int,
            self.frame_info.components@[2].xy_sampling_factor.1 as int,
        )
    }

    /// A complete, internally consistent header for the supported baseline
    /// subset: exactly three paired components with factors and identifiers
    /// in range, every referenced table present and well formed, and the MCU
    /// geometry derived from the sampling factors and image size.
    pub open spec fn wf(&self) -> bool {
        &&& self.frame_info.precision == 8
        &&& self.frame_info.components@.len() == 3
        &&& self.scan_info.components@.len() == 3
        &&& self.components@.len() == 3
        &&& forall|i: int|
            0 <= i < 3 ==> #[trigger] self.components@[i].frame == self.frame_info.components@[i]
        &&& forall|i: int|
            0 <= i < 3 ==> #[trigger] self.components@[i].scan == self.scan_info.components@[i]
        &&& forall|i: int|
            0 <= i < 3 ==> {
                let c = #[trigger] self.components@[i];
                &&& 1 <= c.frame.identifier <= 3
                &&& 1 <= c.frame.xy_sampling_factor.0 <= 4
                &&& 1 <= c.frame.xy_sampling_factor.1 <= 4
                &&& c.frame.qtable_id <= 1
                &&& 1 <= c.scan.selector <= 3
                &&& c.scan.dc_table <= 1
                &&& c.scan.ac_table <= 1
                &&& self.dc_table_spec(c.scan.dc_table as int) is Some
                &&& self.ac_table_spec(c.scan.ac_table as int) is Some
                &&& self.quant_table_spec(c.frame.qtable_id as int) is Some
                &&& self.hmax_spec() % (c.frame.xy_sampling_factor.0 as int) == 0
                &&& self.vmax_spec() % (c.frame.xy_sampling_factor.1 as int) == 0
            }
        &&& opt_table_ok(self.dc_huff_tables.0, 0, 0)
        &&& opt_table_ok(self.dc_huff_tables.1, 0, 1)
        &&& opt_table_ok(self.ac_huff_tables.0, 1, 0)
        &&& opt_table_ok(self.ac_huff_tables.1, 1, 1)
        &&& opt_qtable_ok(self.quant_tables.0, 0)
        &&& opt_qtable_ok(self.quant_tables.1, 1)
        &&& self.mcu_info.max_xy_sampling_factor.0 as int == self.hmax_spec()
        &&& self.mcu_info.max_xy_sampling_factor.1 as int == self.vmax_spec()
        &&& self.mcu_info.mcu_size.0 as int == 8 * self.hmax_spec()
        &&& self.mcu_info.mcu_size.1 as int == 8 * self.vmax_spec()
        &&& self.frame_info.padded_size.0 as int == pad1(
            self.frame_info.image_size.0 as int,
            self.mcu_info.mcu_size.0 as int,
        )
        &&& self.frame_info.padded_size.1 as int == pad1(
            self.frame_info.image_size.1 as int,
            self.mcu_info.mcu_size.1 as int,
        )
        &&& self.frame_info.padded_size.0 as int == self.mcu_info.mcu_padded_dimensions.0 as int
            * self.mcu_info.mcu_size.0 as int
        &&& self.frame_info.padded_size.1 as int == self.mcu_info.mcu_padded_dimensions.1 as int
            * self.mcu_info.mcu_size.1 as int
    }

    /// Reads header info from a given parser positioned at the start of a
    /// JPEG stream: checks the SOI marker, consumes segments up to and
    /// including the start-of-scan header, and leaves the cursor at the
    /// first entropy-coded scan byte. On success the returned header is
    /// well formed and records that position as `header_length`.
    #[verifier::rlimit(100)]
    pub fn read_header_info(reader: &mut JPEGParser) -> (r: Result<HeaderInfo, Error>)
        requires
            old(reader).wf(),
        ensures
            final(reader).wf(),
            final(reader).stream() == old(reader).stream(),
            r matches Ok(h) ==> h.wf() && h.header_length as int == final(reader).spec_pos(),
            ({
                let first = next_marker_spec(old(reader).stream(), old(reader).spec_pos());
                &&& (first matches Err(e) ==> r matches Err(e2) && same_error(e2, e))
                &&& (first matches Ok(m) && m.0 != JPEGMarker::SOI ==> {
                    &&& r matches Err(e2)
                    &&& same_error(e2, Error::Malformed("missing SOI"))
                })
            }),
            ({
                let s = old(reader).stream();
                match next_marker_spec(s, old(reader).spec_pos()) {
                    Err(_) => true,
                    Ok((m0, pw)) => m0 == JPEGMarker::SOI ==> match header_walk(
                        s,
                        pw,
                        walk_start(),
                    ) {
                        Err(e) => r matches Err(e2) && same_error(e2, e),
                        Ok((st, sosp, endp)) => {
                            &&& r matches Ok(h)
                            &&& final(reader).spec_pos() == endp
                            &&& st.sof matches Some(so) && frame_defined_at(s, so, h.frame_info)
                            &&& opt_ht_matches(h.dc_huff_tables.0, st.dc0, s, 0, 0)
                            &&& opt_ht_matches(h.dc_huff_tables.1, st.dc1, s, 0, 1)
                            &&& opt_ht_matches(h.ac_huff_tables.0, st.ac0, s, 1, 0)
                            &&& opt_ht_matches(h.ac_huff_tables.1, st.ac1, s, 1, 1)
                            &&& opt_qt_matches(h.quant_tables.0, st.q0, s, 0)
                            &&& opt_qt_matches(h.quant_tables.1, st.q1, s, 1)
                            &&& forall|i: int|
                                0 <= i < 3 ==> #[trigger] h.scan_info.components@[i] == sc_at(
                                    s,
                                    sosp + 3 + 2 * i,
                                )
                        },
                    },
                }
            }),
    {
        let marker = match reader.read_next_marker() {
            Ok(m) => m,
            Err(e) => return Err(e),
        };
        if marker != JPEGMarker::SOI {
            return Err(Error::Malformed("missing SOI"));
        }
        let ghost s = reader.stream();
        let ghost pstart = reader.spec_pos();
        let ghost mut st = walk_start();
        let ghost mut sof_off: int = 0;
        let mut frame: Option<FrameInfo> = None;
        let mut dc_tables: (Option<HuffmanTable>, Option<HuffmanTable>) = (None, None);
        let mut ac_tables: (Option<HuffmanTable>, Option<HuffmanTable>) = (None, None);
        let mut quant_tables: (Option<QuantizationTable>, Option<QuantizationTable>) = (
            None,
            None,
        );
        #[verifier::loop_isolation(false)]
        loop
            invariant
                reader.wf(),
                reader.stream() == old(reader).stream(),
                frame matches Some(fi) ==> {
                    &&& fi.precision == 8
                    &&& fi.components@.len() == 3
                    &&& forall|i: int|
                        0 <= i < 3 ==> {
                            let c = #[trigger] fi.components@[i];
                            &&& 1 <= c.identifier <= 3
                            &&& 1 <= c.xy_sampling_factor.0 <= 4
                            &&& 1 <= c.xy_sampling_factor.1 <= 4
                        }
                },
                opt_table_ok(dc_tables.0, 0, 0),
                opt_table_ok(dc_tables.1, 0, 1),
                opt_table_ok(ac_tables.0, 1, 0),
                opt_table_ok(ac_tables.1, 1, 1),
                opt_qtable_ok(quant_tables.0, 0),
                opt_qtable_ok(quant_tables.1, 1),
                header_walk(s, pstart, walk_start()) == header_walk(s, reader.spec_pos(), st),
                opt_ht_matches(dc_tables.0, st.dc0, s, 0, 0),
                opt_ht_matches(dc_tables.1, st.dc1, s, 0, 1),
                opt_ht_matches(ac_tables.0, st.ac0, s, 1, 0),
                opt_ht_matches(ac_tables.1, st.ac1, s, 1, 1),
                opt_qt_matches(quant_tables.0, st.q0, s, 0),
                opt_qt_matches(quant_tables.1, st.q1, s, 1),
                st.sof == (if frame is Some {
                    Some(sof_off)
                } else {
                    None::<int>
                }),
                frame matches Some(fi) ==> frame_defined_at(s, sof_off, fi),
            decreases reader.stream().len() - reader.spec_pos(),
        {
            let ghost pos0 = reader.spec_pos();
            proof {
                crate::jpeg::jpeg_reader::lemma_next_marker_advances(
                    reader.stream(),
                    reader.spec_pos(),
                );
            }
            let marker = match reader.read_next_marker() {
                Ok(m) => m,
                Err(e) => return Err(e),
            };
            match marker {
                JPEGMarker::EOI => {
                    proof {
                        assert(header_walk(s, pos0, st) == Err::<
                            (HeaderWalkState, int, int),
                            Error,
                        >(Error::Malformed("unexpected EOI marker")));
                    }
                    return Err(Error::Malformed("unexpected EOI marker"));
                },
                JPEGMarker::SOF0 => {
                    let ghost seg = reader.spec_pos();
                    let fi = match Self::read_start_of_frame(reader) {
                        Ok(fi) => fi,
                        Err(e) => {
                            proof {
                                match sof_err(s, seg) {
                                    Some(e2) => {
                                        assert(header_walk(s, pos0, st) == Err::<
                                            (HeaderWalkState, int, int),
                                            Error,
                                        >(e2));
                                    },
                                    None => {
                                        assert(false);
                                    },
                                }
                            }
                            return Err(e);
                        },
                    };
                    proof {
                        let st2 = HeaderWalkState {
                            sof: Some(seg),
                            dc0: st.dc0,
                            dc1: st.dc1,
                            ac0: st.ac0,
                            ac1: st.ac1,
                            q0: st.q0,
                            q1: st.q1,
                        };
                        assert(header_walk(s, pos0, st) == header_walk(s, seg + 17, st2));
                        st = st2;
                        sof_off = seg;
                        assert(frame_defined_at(s, seg, fi));
                    }
                    proof {
                        assert forall|i: int| 0 <= i < 3 implies {
                            let c = #[trigger] fi.components@[i];
                            &&& 1 <= c.identifier <= 3
                            &&& 1 <= c.xy_sampling_factor.0 <= 4
                            &&& 1 <= c.xy_sampling_factor.1 <= 4
                        } by {
                            assert(fi.components@[i] == fc_at(
                                reader.stream(),
                                seg + 8 + 3 * i,
                            ));
                            if i == 0 {
                                assert(fc_id_ok(reader.stream(), seg + 8));
                                assert(fc_sampling_ok(reader.stream(), seg + 8));
                            } else if i == 1 {
                                assert(fc_id_ok(reader.stream(), seg + 11));
                                assert(fc_sampling_ok(reader.stream(), seg + 11));
                            } else {
                                assert(fc_id_ok(reader.stream(), seg + 14));
                                assert(fc_sampling_ok(reader.stream(), seg + 14));
                            }
                        }
                    }
                    frame = Some(fi);
                },
                JPEGMarker::DHT => {
                    let ghost seg = reader.spec_pos();
                    let tables = match Self::read_huffman_tables(reader) {
                        Ok(t) => t,
                        Err(e) => {
                            proof {
                                match dht_spec(s, seg) {
                                    Err(e2) => {
                                        assert(header_walk(s, pos0, st) == Err::<
                                            (HeaderWalkState, int, int),
                                            Error,
                                        >(e2));
                                    },
                                    Ok(_) => {
                                        assert(false);
                                    },
                                }
                            }
                            return Err(e);
                        },
                    };
                    let (new_ac, new_dc) = tables;
                    if let Some(t) = new_dc.0 {
                        dc_tables.0 = Some(t);
                    }
                    if let Some(t) = new_dc.1 {
                        dc_tables.1 = Some(t);
                    }
                    if let Some(t) = new_ac.0 {
                        ac_tables.0 = Some(t);
                    }
                    if let Some(t) = new_ac.1 {
                        ac_tables.1 = Some(t);
                    }
                    proof {
                        match dht_spec(s, seg) {
                            Ok(acc) => {
                                let st2 = HeaderWalkState {
                                    sof: st.sof,
                                    dc0: override_slot(st.dc0, acc.0.0),
                                    dc1: override_slot(st.dc1, acc.0.1),
                                    ac0: override_slot(st.ac0, acc.1.0),
                                    ac1: override_slot(st.ac1, acc.1.1),
                                    q0: st.q0,
                                    q1: st.q1,
                                };
                                assert(header_walk(s, pos0, st) == header_walk(
                                    s,
                                    seg + word_at(s, seg),
                                    st2,
                                ));
                                st = st2;
                            },
                            Err(_) => {
                                assert(false);
                            },
                        }
                    }
                },
                JPEGMarker::DQT => {
                    let ghost seg = reader.spec_pos();
                    let tables = match Self::read_quantization_tables(reader) {
                        Ok(t) => t,
                        Err(e) => {
                            proof {
                                match dqt_spec(s, seg) {
                                    Err(e2) => {
                                        assert(header_walk(s, pos0, st) == Err::<
                                            (HeaderWalkState, int, int),
                                            Error,
                                        >(e2));
                                    },
                                    Ok(_) => {
                                        assert(false);
                                    },
                                }
                            }
                            return Err(e);
                        },
                    };
                    if let Some(t) = tables.0 {
                        quant_tables.0 = Some(t);
                    }
                    if let Some(t) = tables.1 {
                        quant_tables.1 = Some(t);
                    }
                    proof {
                        match dqt_spec(s, seg) {
                            Ok(acc) => {
                                let st2 = HeaderWalkState {
                                    sof: st.sof,
                                    dc0: st.dc0,
                                    dc1: st.dc1,
                                    ac0: st.ac0,
                                    ac1: st.ac1,
                                    q0: override_slot(st.q0, acc.0),
                                    q1: override_slot(st.q1, acc.1),
                                };
                                assert(header_walk(s, pos0, st) == header_walk(
                                    s,
                                    seg + word_at(s, seg),
                                    st2,
                                ));
                                st = st2;
                            },
                            Err(_) => {
                                assert(false);
                            },
                        }
                    }
                },
                JPEGMarker::RST => {
                    proof {
                        assert(header_walk(s, pos0, st) == Err::<
                            (HeaderWalkState, int, int),
                            Error,
                        >(Error::UnsupportedFeature("restart intervals are not supported")));
                    }
                    return Err(Error::UnsupportedFeature("restart intervals are not supported"));
                },
                JPEGMarker::RST0 | JPEGMarker::RST1 | JPEGMarker::RST2 | JPEGMarker::RST3
                    | JPEGMarker::RST4 | JPEGMarker::RST5 | JPEGMarker::RST6
                    | JPEGMarker::RST7 => {
                    proof {
                        assert(header_walk(s, pos0, st) == Err::<
                            (HeaderWalkState, int, int),
                            Error,
                        >(Error::UnsupportedFeature("restart markers are not supported")));
                    }
                    return Err(Error::UnsupportedFeature("restart markers are not supported"));
                },
                JPEGMarker::SOS => {
                    let ghost sosp = reader.spec_pos();
                    let scan = match Self::read_start_of_scan(reader) {
                        Ok(si) => si,
                        Err(e) => {
                            proof {
                                match sos_err(s, sosp) {
                                    Some(e2) => {
                                        assert(header_walk(s, pos0, st) == Err::<
                                            (HeaderWalkState, int, int),
                                            Error,
                                        >(e2));
                                    },
                                    None => {
                                        assert(false);
                                    },
                                }
                            }
                            return Err(e);
                        },
                    };
                    let ghost sos_pos = reader.spec_pos() - 12;
                    let mut fi = match frame {
                        Some(f) => f,
                        None => {
                            proof {
                                assert(header_walk(s, pos0, st) == Err::<
                                    (HeaderWalkState, int, int),
                                    Error,
                                >(Error::Malformed("missing frame header")));
                            }
                            return Err(Error::Malformed("missing frame header"));
                        },
                    };
                    proof {
                        assert(fi.components@[0] == fc_at(s, sof_off + 8));
                        assert(fi.components@[1] == fc_at(s, sof_off + 11));
                        assert(fi.components@[2] == fc_at(s, sof_off + 14));
                        assert(scan.components@[0] == sc_at(s, sos_pos + 3));
                        assert(scan.components@[1] == sc_at(s, sos_pos + 5));
                        assert(scan.components@[2] == sc_at(s, sos_pos + 7));
                    }
                    proof {
                        assert forall|i: int| 0 <= i < 3 implies {
                            let c = #[trigger] scan.components@[i];
                            &&& 1 <= c.selector <= 3
                            &&& c.dc_table <= 1
                            &&& c.ac_table <= 1
                        } by {
                            assert(scan.components@[i] == sc_at(
                                reader.stream(),
                                sos_pos + 3 + 2 * i,
                            ));
                            if i == 0 {
                                assert(1 <= reader.stream()[sos_pos + 3] <= 3);
                                assert(reader.stream()[sos_pos + 4] / 16 <= 1);
                                assert(reader.stream()[sos_pos + 4] % 16 <= 1);
                            } else if i == 1 {
                                assert(1 <= reader.stream()[sos_pos + 5] <= 3);
                                assert(reader.stream()[sos_pos + 6] / 16 <= 1);
                                assert(reader.stream()[sos_pos + 6] % 16 <= 1);
                            } else {
                                assert(1 <= reader.stream()[sos_pos + 7] <= 3);
                                assert(reader.stream()[sos_pos + 8] / 16 <= 1);
                                assert(reader.stream()[sos_pos + 8] % 16 <= 1);
                            }
                        }
                    }
                    let h0 = fi.components[0].xy_sampling_factor.0;
                    let h1 = fi.components[1].xy_sampling_factor.0;
                    let h2 = fi.components[2].xy_sampling_factor.0;
                    let v0 = fi.components[0].xy_sampling_factor.1;
                    let v1 = fi.components[1].xy_sampling_factor.1;
                    let v2 = fi.components[2].xy_sampling_factor.1;
                    let hmax = if h0 >= h1 && h0 >= h2 {
                        h0
                    } else if h1 >= h2 {
                        h1
                    } else {
                        h2
                    };
                    let vmax = if v0 >= v1 && v0 >= v2 {
                        v0
                    } else if v1 >= v2 {
                        v1
                    } else {
                        v2
                    };
                    let mut i: usize = 0;
                    #[verifier::loop_isolation(false)]
                    while i < 3
                        invariant
                            i <= 3,
                            forall|k: int|
                                0 <= k < i ==> {
                                    let c = #[trigger] fi.components@[k];
                                    &&& hmax as int % (c.xy_sampling_factor.0 as int) == 0
                                    &&& vmax as int % (c.xy_sampling_factor.1 as int) == 0
                                },
                        decreases 3 - i,
                    {
                        let c = &fi.components[i];
                        if hmax % c.xy_sampling_factor.0 != 0 || vmax % c.xy_sampling_factor.1
                            != 0 {
                            proof {
                                assert(sos_stage_err(s, sof_off, sos_pos, st) == Some(
                                    Error::Malformed("non-integer sampling ratio"),
                                ));
                                assert(header_walk(s, pos0, st) == Err::<
                                    (HeaderWalkState, int, int),
                                    Error,
                                >(Error::Malformed("non-integer sampling ratio")));
                            }
                            return Err(Error::Malformed("non-integer sampling ratio"));
                        }
                        i = i + 1;
                    }
                    let mcu_w: u8 = 8 * hmax;
                    let mcu_h: u8 = 8 * vmax;
                    let width = fi.image_size.0;
                    let height = fi.image_size.1;
                    let remw = width % (mcu_w as u16);
                    let remh = height % (mcu_h as u16);
                    proof {
                        assert(width % (mcu_w as u16) <= width && height % (mcu_h as u16)
                            <= height) by (nonlinear_arith)
                            requires
                                mcu_w > 0,
                                mcu_h > 0,
                        ;
                    }
                    if remw != 0 && width - remw > 65535 - (mcu_w as u16) {
                        proof {
                            assert(pad1(word_at(s, sof_off + 5), 8 * (hmax as int)) > 0xFFFF);
                            assert(sos_stage_err(s, sof_off, sos_pos, st) == Some(
                                Error::Malformed("image too large"),
                            ));
                            assert(header_walk(s, pos0, st) == Err::<
                                (HeaderWalkState, int, int),
                                Error,
                            >(Error::Malformed("image too large")));
                        }
                        return Err(Error::Malformed("image too large"));
                    }
                    if remh != 0 && height - remh > 65535 - (mcu_h as u16) {
                        proof {
                            assert(pad1(word_at(s, sof_off + 3), 8 * (vmax as int)) > 0xFFFF);
                            assert(sos_stage_err(s, sof_off, sos_pos, st) == Some(
                                Error::Malformed("image too large"),
                            ));
                            assert(header_walk(s, pos0, st) == Err::<
                                (HeaderWalkState, int, int),
                                Error,
                            >(Error::Malformed("image too large")));
                        }
                        return Err(Error::Malformed("image too large"));
                    }
                    let padded = pad((width, height), (mcu_w, mcu_h));
                    proof {
                        lemma_pad1(width as int, mcu_w as int);
                        lemma_pad1(height as int, mcu_h as int);
                    }
                    fi.padded_size = padded;
                    let mcu_dimensions = (width / (mcu_w as u16), height / (mcu_h as u16));
                    let mcu_padded_dimensions = (
                        padded.0 / (mcu_w as u16),
                        padded.1 / (mcu_h as u16),
                    );
                    proof {
                        let pw = pad1(width as int, mcu_w as int);
                        let ph = pad1(height as int, mcu_h as int);
                        assert(pw == mcu_padded_dimensions.0 as int * (mcu_w as int))
                            by (nonlinear_arith)
                            requires
                                pw == (mcu_w as int) * (pw / (mcu_w as int)),
                                mcu_padded_dimensions.0 as int == pw / (mcu_w as int),
                        ;
                        assert(ph == mcu_padded_dimensions.1 as int * (mcu_h as int))
                            by (nonlinear_arith)
                            requires
                                ph == (mcu_h as int) * (ph / (mcu_h as int)),
                                mcu_padded_dimensions.1 as int == ph / (mcu_h as int),
                        ;
                    }
                    let mut components: Vec<Component> = Vec::new();
                    let mut i: usize = 0;
                    #[verifier::loop_isolation(false)]
                    while i < 3
                        invariant
                            i <= 3,
                            components@.len() == i,
                            forall|k: int|
                                0 <= k < i ==> #[trigger] components@[k].frame
                                    == fi.components@[k],
                            forall|k: int|
                                0 <= k < i ==> #[trigger] components@[k].scan
                                    == scan.components@[k],
                        decreases 3 - i,
                    {
                        components.push(
                            Component { frame: fi.components[i], scan: scan.components[i] },
                        );
                        i = i + 1;
                    }
                    let mut i: usize = 0;
                    #[verifier::loop_isolation(false)]
                    while i < 3
                        invariant
                            i <= 3,
                            forall|k: int|
                                0 <= k < i ==> {
                                    let c = #[trigger] components@[k];
                                    &&& (if c.scan.dc_table == 0 {
                                        dc_tables.0 is Some
                                    } else {
                                        dc_tables.1 is Some
                                    })
                                    &&& (if c.scan.ac_table == 0 {
                                        ac_tables.0 is Some
                                    } else {
                                        ac_tables.1 is Some
                                    })
                                    &&& c.frame.qtable_id <= 1
                                    &&& (if c.frame.qtable_id == 0 {
                                        quant_tables.0 is Some
                                    } else {
                                        quant_tables.1 is Some
                                    })
                                },
                            forall|k: int|
                                0 <= k < i ==> !#[trigger] sos_huff_missing(s, sos_pos, st, k)
                                    && !sos_quant_missing(s, sof_off, st, k),
                        decreases 3 - i,
                    {
                        proof {
                            assert(components@[i as int].scan == scan.components@[i as int]);
                            assert(components@[i as int].frame == fi.components@[i as int]);
                            if i == 1 || i == 2 {
                                assert(!sos_huff_missing(s, sos_pos, st, 0));
                                assert(!sos_quant_missing(s, sof_off, st, 0));
                            }
                            if i == 2 {
                                assert(!sos_huff_missing(s, sos_pos, st, 1));
                                assert(!sos_quant_missing(s, sof_off, st, 1));
                            }
                        }
                        let c = &components[i];
                        let dc_present = if c.scan.dc_table == 0 {
                            dc_tables.0.is_some()
                        } else {
                            dc_tables.1.is_some()
                        };
                        if !dc_present {
                            proof {
                                assert(sos_huff_missing(s, sos_pos, st, i as int));
                                assert(sos_stage_err(s, sof_off, sos_pos, st) == Some(
                                    Error::Malformed("missing huffman table"),
                                ));
                                assert(header_walk(s, pos0, st) == Err::<
                                    (HeaderWalkState, int, int),
                                    Error,
                                >(Error::Malformed("missing huffman table")));
                            }
                            return Err(Error::Malformed("missing huffman table"));
                        }
                        let ac_present = if c.scan.ac_table == 0 {
                            ac_tables.0.is_some()
                        } else {
                            ac_tables.1.is_some()
                        };
                        if !ac_present {
                            proof {
                                assert(sos_huff_missing(s, sos_pos, st, i as int));
                                assert(sos_stage_err(s, sof_off, sos_pos, st) == Some(
                                    Error::Malformed("missing huffman table"),
                                ));
                                assert(header_walk(s, pos0, st) == Err::<
                                    (HeaderWalkState, int, int),
                                    Error,
                                >(Error::Malformed("missing huffman table")));
                            }
                            return Err(Error::Malformed("missing huffman table"));
                        }
                        if c.frame.qtable_id > 1 {
                            proof {
                                assert(!sos_huff_missing(s, sos_pos, st, i as int));
                                assert(sos_quant_missing(s, sof_off, st, i as int));
                                assert(sos_stage_err(s, sof_off, sos_pos, st) == Some(
                                    Error::Malformed("missing quantization table"),
                                ));
                                assert(header_walk(s, pos0, st) == Err::<
                                    (HeaderWalkState, int, int),
                                    Error,
                                >(Error::Malformed("missing quantization table")));
                            }
                            return Err(Error::Malformed("missing quantization table"));
                        }
                        let q_present = if c.frame.qtable_id == 0 {
                            quant_tables.0.is_some()
                        } else {
                            quant_tables.1.is_some()
                        };
                        if !q_present {
                            proof {
                                assert(!sos_huff_missing(s, sos_pos, st, i as int));
                                assert(sos_quant_missing(s, sof_off, st, i as int));
                                assert(sos_stage_err(s, sof_off, sos_pos, st) == Some(
                                    Error::Malformed("missing quantization table"),
                                ));
                                assert(header_walk(s, pos0, st) == Err::<
                                    (HeaderWalkState, int, int),
                                    Error,
                                >(Error::Malformed("missing quantization table")));
                            }
                            return Err(Error::Malformed("missing quantization table"));
                        }
                        proof {
                            assert(!sos_huff_missing(s, sos_pos, st, i as int));
                            assert(!sos_quant_missing(s, sof_off, st, i as int));
                        }
                        i = i + 1;
                    }
                    proof {
                        assert(!sos_huff_missing(s, sos_pos, st, 0));
                        assert(!sos_quant_missing(s, sof_off, st, 0));
                        assert(!sos_huff_missing(s, sos_pos, st, 1));
                        assert(!sos_quant_missing(s, sof_off, st, 1));
                        assert(!sos_huff_missing(s, sos_pos, st, 2));
                        assert(!sos_quant_missing(s, sof_off, st, 2));
                        assert(sos_stage_err(s, sof_off, sos_pos, st) is None);
                        assert(header_walk(s, pos0, st) == Ok::<
                            (HeaderWalkState, int, int),
                            Error,
                        >((st, sos_pos, sos_pos + 12)));
                    }
                    let header_length = reader.position();
                    let result = HeaderInfo {
                        frame_info: fi,
                        scan_info: scan,
                        components,
                        ac_huff_tables: ac_tables,
                        dc_huff_tables: dc_tables,
                        quant_tables,
                        header_length,
                        mcu_info: MCUInfo {
                            max_xy_sampling_factor: (hmax, vmax),
                            mcu_size: (mcu_w, mcu_h),
                            mcu_dimensions,
                            mcu_padded_dimensions,
                        },
                    };
                    proof {
                        assert(result.frame_info.precision == 8);
                        assert(result.frame_info.components@.len() == 3);
                        assert(result.scan_info.components@.len() == 3);
                        assert(result.components@.len() == 3);
                        assert(forall|i: int|
                            0 <= i < 3 ==> #[trigger] result.components@[i].frame
                                == result.frame_info.components@[i]);
                        assert(forall|i: int|
                            0 <= i < 3 ==> #[trigger] result.components@[i].scan
                                == result.scan_info.components@[i]);
                        assert forall|i: int| 0 <= i < 3 implies {
                            let c = #[trigger] result.components@[i];
                            &&& 1 <= c.frame.identifier <= 3
                            &&& 1 <= c.frame.xy_sampling_factor.0 <= 4
                            &&& 1 <= c.frame.xy_sampling_factor.1 <= 4
                            &&& c.frame.qtable_id <= 1
                            &&& 1 <= c.scan.selector <= 3
                            &&& c.scan.dc_table <= 1
                            &&& c.scan.ac_table <= 1
                            &&& result.dc_table_spec(c.scan.dc_table as int) is Some
                            &&& result.ac_table_spec(c.scan.ac_table as int) is Some
                            &&& result.quant_table_spec(c.frame.qtable_id as int) is Some
                        } by {
                            assert(result.components@[i].frame == fi.components@[i]);
                            assert(result.components@[i].scan == scan.components@[i]);
                        }
                        assert(opt_table_ok(result.dc_huff_tables.0, 0, 0));
                        assert(opt_table_ok(result.dc_huff_tables.1, 0, 1));
                        assert(opt_table_ok(result.ac_huff_tables.0, 1, 0));
                        assert(opt_table_ok(result.ac_huff_tables.1, 1, 1));
                        assert(opt_qtable_ok(result.quant_tables.0, 0));
                        assert(opt_qtable_ok(result.quant_tables.1, 1));
                        assert(result.mcu_info.max_xy_sampling_factor.0 as int
                            == result.hmax_spec());
                        assert(result.mcu_info.max_xy_sampling_factor.1 as int
                            == result.vmax_spec());
                        assert(result.mcu_info.mcu_size.0 as int == 8 * result.hmax_spec());
                        assert(result.mcu_info.mcu_size.1 as int == 8 * result.vmax_spec());
                        assert(result.frame_info.padded_size.0 as int == pad1(
                            result.frame_info.image_size.0 as int,
                            result.mcu_info.mcu_size.0 as int,
                        ));
                        assert(result.frame_info.padded_size.1 as int == pad1(
                            result.frame_info.image_size.1 as int,
                            result.mcu_info.mcu_size.1 as int,
                        ));
                        assert(result.frame_info.padded_size.0 as int
                            == result.mcu_info.mcu_padded_dimensions.0 as int
                            * result.mcu_info.mcu_size.0 as int);
                        assert(result.frame_info.padded_size.1 as int
                            == result.mcu_info.mcu_padded_dimensions.1 as int
                            * result.mcu_info.mcu_size.1 as int);
                        assert(result.wf());
                        assert(frame_defined_at(s, sof_off, result.frame_info));
                        assert forall|i: int| 0 <= i < 3 implies #[trigger] result.scan_info.components@[i]
                            == sc_at(s, sos_pos + 3 + 2 * i) by {
                            if i == 0 {
                                assert(scan.components@[0] == sc_at(s, sos_pos + 3));
                            } else if i == 1 {
                                assert(scan.components@[1] == sc_at(s, sos_pos + 5));
                            } else {
                                assert(scan.components@[2] == sc_at(s, sos_pos + 7));
                            }
                        }
                    }
                    return Ok(result);
                },
                _ => {
                    let ghost seg = reader.spec_pos();
                    match reader.skip_marker_with_length() {
                        Ok(()) => {
                            proof {
                                assert(header_walk(s, pos0, st) == header_walk(
                                    s,
                                    reader.spec_pos(),
                                    st,
                                ));
                            }
                        },
                        Err(e) => {
                            proof {
                                match skip_segment_spec(s, seg) {
                                    Err(e2) => {
                                        assert(header_walk(s, pos0, st) == Err::<
                                            (HeaderWalkState, int, int),
                                            Error,
                                        >(e2));
                                    },
                                    Ok(_) => {
                                        assert(false);
                                    },
                                }
                            }
                            return Err(e);
                        },
                    }
                },
            }
        }
    }
}


/// Offsets of the defining segments seen so far in the header walk: the
/// last start-of-frame payload and the last defining descriptor for each
/// table slot.
pub ghost struct HeaderWalkState {
    pub sof: Option<int>,
    pub dc0: Option<int>,
    pub dc1: Option<int>,
    pub ac0: Option<int>,
    pub ac1: Option<int>,
    pub q0: Option<int>,
    pub q1: Option<int>,
}

/// The walk state before any segment was seen.
pub open spec fn walk_start() -> HeaderWalkState {
    HeaderWalkState { sof: None, dc0: None, dc1: None, ac0: None, ac1: None, q0: None, q1: None }
}

/// A later defining descriptor overrides an earlier one.
pub open spec fn override_slot(older: Option<int>, newer: Option<int>) -> Option<int> {
    if newer is Some {
        newer
    } else {
        older
    }
}

/// The frame info `fi` holds exactly what the start-of-frame payload at `q`
/// defines (its padded size is derived later and not constrained here).
pub open spec fn frame_defined_at(s: Seq<u8>, q: int, fi: FrameInfo) -> bool {
    &&& sof_err(s, q) is None
    &&& fi.precision == 8
    &&& fi.image_size == (word_at(s, q + 5) as u16, word_at(s, q + 3) as u16)
    &&& fi.components@.len() == 3
    &&& forall|i: int| 0 <= i < 3 ==> #[trigger] fi.components@[i] == fc_at(s, q + 8 + 3 * i)
}

/// Scan component `i` references a Huffman table slot the walk has not yet
/// filled.
pub open spec fn sos_huff_missing(s: Seq<u8>, sosp: int, st: HeaderWalkState, i: int) -> bool {
    let t = s[sosp + 4 + 2 * i];
    ||| (if t as int / 16 == 0 {
        st.dc0 is None
    } else {
        st.dc1 is None
    })
    ||| (if t as int % 16 == 0 {
        st.ac0 is None
    } else {
        st.ac1 is None
    })
}

/// Frame component `i` references a quantization table destination outside
/// 0..=1 or one the walk has not yet filled.
pub open spec fn sos_quant_missing(s: Seq<u8>, so: int, st: HeaderWalkState, i: int) -> bool {
    let q = s[so + 10 + 3 * i];
    ||| q > 1
    ||| (if q == 0 {
        st.q0 is None
    } else {
        st.q1 is None
    })
}

/// The checks performed once the start-of-scan header is read, in order:
/// integral sampling ratios, a padded size that fits 16 bits, and, for
/// each component in turn, its Huffman and quantization tables present.
pub open spec fn sos_stage_err(s: Seq<u8>, so: int, sosp: int, st: HeaderWalkState) -> Option<
    Error,
> {
    let h0 = s[so + 9] as int / 16;
    let h1 = s[so + 12] as int / 16;
    let h2 = s[so + 15] as int / 16;
    let v0 = s[so + 9] as int % 16;
    let v1 = s[so + 12] as int % 16;
    let v2 = s[so + 15] as int % 16;
    let hm = max3(h0, h1, h2);
    let vm = max3(v0, v1, v2);
    if hm % h0 != 0 || vm % v0 != 0 || hm % h1 != 0 || vm % v1 != 0 || hm % h2 != 0 || vm % v2
        != 0 {
        Some(Error::Malformed("non-integer sampling ratio"))
    } else if pad1(word_at(s, so + 5), 8 * hm) > 0xFFFF || pad1(word_at(s, so + 3), 8 * vm)
        > 0xFFFF {
        Some(Error::Malformed("image too large"))
    } else if sos_huff_missing(s, sosp, st, 0) {
        Some(Error::Malformed("missing huffman table"))
    } else if sos_quant_missing(s, so, st, 0) {
        Some(Error::Malformed("missing quantization table"))
    } else if sos_huff_missing(s, sosp, st, 1) {
        Some(Error::Malformed("missing huffman table"))
    } else if sos_quant_missing(s, so, st, 1) {
        Some(Error::Malformed("missing quantization table"))
    } else if sos_huff_missing(s, sosp, st, 2) {
        Some(Error::Malformed("missing huffman table"))
    } else if sos_quant_missing(s, so, st, 2) {
        Some(Error::Malformed("missing quantization table"))
    } else {
        None
    }
}

/// The segment walk from `p` (just after the SOI marker) to the start of
/// the scan: each marker either defines header state, is skipped over its
/// length, or ends the walk. On success it returns the final state, the
/// start-of-scan payload position and the position of the first
/// entropy-coded byte; every failure is the first error the walk meets.
pub open spec fn header_walk(s: Seq<u8>, p: int, st: HeaderWalkState) -> Result<
    (HeaderWalkState, int, int),
    Error,
>
    decreases (if p < s.len() {
        s.len() - p
    } else {
        0
    })
    via header_walk_decreases
{
    match next_marker_spec(s, p) {
        Err(e) => Err(e),
        Ok((m, p1)) => {
            if m == JPEGMarker::EOI {
                Err(Error::Malformed("unexpected EOI marker"))
            } else if m == JPEGMarker::SOF0 {
                match sof_err(s, p1) {
                    Some(e) => Err(e),
                    None => header_walk(
                        s,
                        p1 + 17,
                        HeaderWalkState {
                            sof: Some(p1),
                            dc0: st.dc0,
                            dc1: st.dc1,
                            ac0: st.ac0,
                            ac1: st.ac1,
                            q0: st.q0,
                            q1: st.q1,
                        },
                    ),
                }
            } else if m == JPEGMarker::DHT {
                match dht_spec(s, p1) {
                    Err(e) => Err(e),
                    Ok(acc) => header_walk(
                        s,
                        p1 + word_at(s, p1),
                        HeaderWalkState {
                            sof: st.sof,
                            dc0: override_slot(st.dc0, acc.0.0),
                            dc1: override_slot(st.dc1, acc.0.1),
                            ac0: override_slot(st.ac0, acc.1.0),
                            ac1: override_slot(st.ac1, acc.1.1),
                            q0: st.q0,
                            q1: st.q1,
                        },
                    ),
                }
            } else if m == JPEGMarker::DQT {
                match dqt_spec(s, p1) {
                    Err(e) => Err(e),
                    Ok(acc) => header_walk(
                        s,
                        p1 + word_at(s, p1),
                        HeaderWalkState {
                            sof: st.sof,
                            dc0: st.dc0,
                            dc1: st.dc1,
                            ac0: st.ac0,
                            ac1: st.ac1,
                            q0: override_slot(st.q0, acc.0),
                            q1: override_slot(st.q1, acc.1),
                        },
                    ),
                }
            } else if m == JPEGMarker::RST {
                Err(Error::UnsupportedFeature("restart intervals are not supported"))
            } else if m == JPEGMarker::RST0 || m == JPEGMarker::RST1 || m == JPEGMarker::RST2
                || m == JPEGMarker::RST3 || m == JPEGMarker::RST4 || m == JPEGMarker::RST5 || m
                == JPEGMarker::RST6 || m == JPEGMarker::RST7 {
                Err(Error::UnsupportedFeature("restart markers are not supported"))
            } else if m == JPEGMarker::SOS {
                match sos_err(s, p1) {
                    Some(e) => Err(e),
                    None => match st.sof {
                        None => Err(Error::Malformed("missing frame header")),
                        Some(so) => match sos_stage_err(s, so, p1, st) {
                            Some(e) => Err(e),
                            None => Ok((st, p1, p1 + 12)),
                        },
                    },
                }
            } else {
                match skip_segment_spec(s, p1) {
                    Err(e) => Err(e),
                    Ok(p2) => header_walk(s, p2, st),
                }
            }
        },
    }
}

#[via_fn]
proof fn header_walk_decreases(s: Seq<u8>, p: int, st: HeaderWalkState) {
    crate::jpeg::jpeg_reader::lemma_next_marker_advances(s, p);
}

} // verus!
