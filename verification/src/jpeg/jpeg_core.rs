//! Core JPEG scan decoding: entropy-data extraction with byte-unstuffing,
//! Huffman symbol decoding, DC/AC coefficient decoding with sign extension,
//! dequantization with un-zig-zagging, the inverse DCT, chroma upsampling
//! and bitmap assembly.

use crate::bitstream::{bit_at, bits_val, Bitstream};
use crate::error::{same_error, Error};
use crate::image::Bitmap;
use crate::jpeg::header::{
    code_offset, frame_defined_at, header_walk, opt_ht_matches, opt_qt_matches, sc_at, walk_start,
    HeaderInfo, HuffmanTable, QuantizationTable,
};
use crate::jpeg::jpeg_reader::{next_marker_spec, JPEGMarker, JPEGParser};
use crate::jpeg::transform::{clamp_to_u8, idct_block, idct_value, rgb_of, ycbcr_to_rgb};
use crate::jpeg::zigzag::{zigzag_inv, zz_inv};
use vstd::arithmetic::power2::{lemma2_to64, lemma_pow2_strictly_increases, pow2};
use vstd::prelude::*;

verus! {

broadcast use crate::bitstream::lemma_bitstream_in_bounds, crate::jpeg::jpeg_reader::lemma_parser_in_bounds;

/// A vector of `n` zero samples.
fn zero_plane(n: usize) -> (r: Vec<i16>)
    ensures
        r@.len() == n,
        forall|i: int| 0 <= i < n ==> r@[i] == 0i16,
{
    let mut v: Vec<i16> = Vec::new();
    let mut i: usize = 0;
    #[verifier::loop_isolation(false)]
    while i < n
        invariant
            i <= n,
            v@.len() == i,
            forall|k: int| 0 <= k < i ==> v@[k] == 0i16,
        decreases n - i,
    {
        v.push(0i16);
        i = i + 1;
    }
    v
}

/// Three sample planes of one decoded MCU, each sized to the full MCU
/// (`8 Hmax` by `8 Vmax`) and stored row-major.
#[derive(Debug)]
pub struct Macroblock {
    y: Vec<i16>,
    cb: Vec<i16>,
    cr: Vec<i16>,
}

impl Macroblock {
    /// The plane selected by a component selector: 1 = Y, 2 = Cb, 3 = Cr.
    pub closed spec fn component_spec(&self, selector: int) -> Seq<i16> {
        if selector == 1 {
            self.y@
        } else if selector == 2 {
            self.cb@
        } else {
            self.cr@
        }
    }

    /// All three planes hold one sample per pixel of the MCU.
    pub closed spec fn wf(&self, mcu_w: int, mcu_h: int) -> bool {
        &&& self.y@.len() == mcu_w * mcu_h
        &&& self.cb@.len() == mcu_w * mcu_h
        &&& self.cr@.len() == mcu_w * mcu_h
    }

    /// Creates a macroblock of zeroed planes for the given maximum sampling
    /// factors.
    pub fn new(block_sample_size: (u8, u8)) -> (r: Self)
        ensures
            r.wf(8 * block_sample_size.0 as int, 8 * block_sample_size.1 as int),
            forall|sel: int, i: int|
                0 <= i < 64 * block_sample_size.0 as int * block_sample_size.1 as int
                    ==> #[trigger] r.component_spec(sel)[i] == 0i16,
    {
        let w: usize = 8 * block_sample_size.0 as usize;
        let h: usize = 8 * block_sample_size.1 as usize;
        proof {
            assert(w * h <= 0x400000) by (nonlinear_arith)
                requires
                    w <= 2040,
                    h <= 2040,
            ;
        }
        let n = w * h;
        proof {
            assert(w * h == 64 * block_sample_size.0 as int * block_sample_size.1 as int)
                by (nonlinear_arith)
                requires
                    w == 8 * block_sample_size.0 as int,
                    h == 8 * block_sample_size.1 as int,
            ;
        }
        Self { y: zero_plane(n), cb: zero_plane(n), cr: zero_plane(n) }
    }

    /// The plane for a component selector: 1 = Y, 2 = Cb, 3 = Cr.
    pub fn get_component(&self, selector: u8) -> (r: &Vec<i16>)
        requires
            1 <= selector <= 3,
        ensures
            r@ == self.component_spec(selector as int),
    {
        match selector {
            1 => &self.y,
            2 => &self.cb,
            _ => &self.cr,
        }
    }

    /// Replaces the plane for a component selector.
    fn set_component(&mut self, selector: u8, plane: Vec<i16>)
        requires
            1 <= selector <= 3,
        ensures
            final(self).component_spec(selector as int) == plane@,
            forall|sel: int|
                1 <= sel <= 3 && sel != selector ==> #[trigger] final(self).component_spec(sel)
                    == old(self).component_spec(sel),
    {
        match selector {
            1 => {
                self.y = plane;
            },
            2 => {
                self.cb = plane;
            },
            _ => {
                self.cr = plane;
            },
        }
    }
}

/// `2^e` as a 16-bit value.
fn pow2_u16(e: u8) -> (r: u16)
    requires
        e <= 15,
    ensures
        r as int == pow2(e as nat),
{
    proof {
        lemma2_to64();
    }
    match e {
        0 => 1,
        1 => 2,
        2 => 4,
        3 => 8,
        4 => 16,
        5 => 32,
        6 => 64,
        7 => 128,
        8 => 256,
        9 => 512,
        10 => 1024,
        11 => 2048,
        12 => 4096,
        13 => 8192,
        14 => 16384,
        _ => 32768,
    }
}

/// Sign extension of a `t`-bit magnitude `v`: when the leading bit is 0 the
/// coded value is negative, `v - (2^t - 1)`; otherwise it is `v` itself.
pub open spec fn extend_spec(v: int, t: int) -> int {
    if t > 0 && v < pow2((t - 1) as nat) {
        v - (pow2(t as nat) - 1)
    } else {
        v
    }
}

/// Sign-extension law: for a category `t` between 1 and 15 and any `t`-bit
/// raw value `v`, the decoded coefficient is `v` exactly when `v` is at
/// least `2^(t-1)`, is `v - (2^t - 1)` otherwise, and always lies in
/// `[-(2^t - 1), 2^t - 1]`.
pub proof fn lemma_sign_extension(v: int, t: int)
    requires
        1 <= t <= 15,
        0 <= v < pow2(t as nat),
    ensures
        v >= pow2((t - 1) as nat) ==> extend_spec(v, t) == v,
        v < pow2((t - 1) as nat) ==> extend_spec(v, t) == v - (pow2(t as nat) - 1),
        -(pow2(t as nat) - 1) <= extend_spec(v, t) <= pow2(t as nat) - 1,
{
    lemma2_to64();
    if t > 1 {
        lemma_pow2_strictly_increases((t - 1) as nat, t as nat);
    }
    vstd::arithmetic::power2::lemma_pow2_pos((t - 1) as nat);
}

/// Decodes a `size`-category magnitude read from the bitstream into a
/// signed coefficient.
fn extend_coefficient(value: u64, size: u8) -> (r: i16)
    requires
        size <= 15,
        value < pow2(size as nat),
    ensures
        r as int == extend_spec(value as int, size as int),
{
    proof {
        lemma2_to64();
        if size >= 1 {
            lemma_sign_extension(value as int, size as int);
        }
    }
    if size == 0 {
        value as i16
    } else {
        let half = pow2_u16(size - 1);
        let full = pow2_u16(size);
        if (value as u16) < half {
            (value as i32 - (full as i32 - 1)) as i16
        } else {
            value as i16
        }
    }
}

/// Signed 16-bit interpretation of an unsigned 16-bit value, as two's
/// complement reinterpretation.
pub open spec fn u16_as_i16(v: int) -> int {
    if v >= 0x8000 {
        v - 0x10000
    } else {
        v
    }
}

/// Reinterprets an unsigned 16-bit quantization entry as signed.
fn u16_to_i16(v: u16) -> (r: i16)
    ensures
        r as int == u16_as_i16(v as int),
{
    if v >= 0x8000 {
        ((v as i32) - 0x10000) as i16
    } else {
        v as i16
    }
}

/// The dequantized, un-zig-zagged coefficient for row-major cell `j`: the
/// zig-zag coefficient that lands on `j`, times the quantization entry for
/// `j`, with wrapping 16-bit multiplication.
pub open spec fn dequant_spec(cs: Seq<i16>, q: Seq<u16>, j: int) -> i16 {
    vstd::wrapping::i16_specs::wrapping_mul(cs[zz_inv(j)], u16_as_i16(q[j] as int) as i16)
}

/// Dequantizes a zig-zag-ordered coefficient block against a quantization
/// table, producing the row-major 8x8 frequency block.
fn dequantize_unit(cs: &Vec<i16>, q: &QuantizationTable) -> (r: Vec<i16>)
    requires
        cs@.len() == 64,
        q.wf(),
    ensures
        r@.len() == 64,
        forall|j: int| 0 <= j < 64 ==> #[trigger] r@[j] == dequant_spec(cs@, q.table@, j),
{
    let mut out: Vec<i16> = Vec::new();
    let mut j: usize = 0;
    #[verifier::loop_isolation(false)]
    while j < 64
        invariant
            j <= 64,
            out@.len() == j,
            forall|k: int| 0 <= k < j ==> #[trigger] out@[k] == dequant_spec(cs@, q.table@, k),
        decreases 64 - j,
    {
        let zi = zigzag_inv(j);
        let qv = u16_to_i16(q.table[j]);
        out.push(cs[zi].wrapping_mul(qv));
        j = j + 1;
    }
    out
}

/// Writes an 8x8 sample block into a plane of width `w` at block origin
/// `(bx, by)`; every other cell keeps its value.
fn write_block(plane: &mut Vec<i16>, w: usize, h: usize, block: &Vec<i16>, bx: usize, by: usize)
    requires
        old(plane)@.len() == w * h,
        w * h <= usize::MAX,
        block@.len() == 64,
        bx + 8 <= w,
        by + 8 <= h,
    ensures
        final(plane)@.len() == w * h,
        forall|x: int, y: int|
            #![trigger final(plane)@[y * w + x]]
            0 <= x < w && 0 <= y < h ==> final(plane)@[y * w + x] == (if bx <= x < bx + 8 && by
                <= y < by + 8 {
                block@[8 * (y - by) + (x - bx)]
            } else {
                old(plane)@[y * w + x]
            }),
{
    let ghost p0 = old(plane)@;
    let mut yy: usize = 0;
    #[verifier::loop_isolation(false)]
    while yy < 8
        invariant
            yy <= 8,
            plane@.len() == w * h,
            forall|x: int, y: int|
                #![trigger plane@[y * w + x]]
                0 <= x < w && 0 <= y < h ==> plane@[y * w + x] == (if bx <= x < bx + 8 && by <= y
                    < by + yy {
                    block@[8 * (y - by) + (x - bx)]
                } else {
                    p0[y * w + x]
                }),
        decreases 8 - yy,
    {
        let mut xx: usize = 0;
        #[verifier::loop_isolation(false)]
        while xx < 8
            invariant
                xx <= 8,
                yy < 8,
                plane@.len() == w * h,
                forall|x: int, y: int|
                    #![trigger plane@[y * w + x]]
                    0 <= x < w && 0 <= y < h ==> plane@[y * w + x] == (if bx <= x < bx + 8 && by
                        <= y < by + yy {
                        block@[8 * (y - by) + (x - bx)]
                    } else if y == by + yy && bx <= x < bx + xx {
                        block@[8 * (y - by) + (x - bx)]
                    } else {
                        p0[y * w + x]
                    }),
            decreases 8 - xx,
        {
            proof {
                assert((by + yy) * w + (bx + xx) < w * h) by (nonlinear_arith)
                    requires
                        by + yy < h,
                        bx + xx < w,
                        w > 0,
                ;
            }
            let idx = (by + yy) * w + (bx + xx);
            let ghost pl0 = plane@;
            let v = block[8 * yy + xx];
            plane[idx] = v;
            proof {
                assert(plane@ == pl0.update(idx as int, v));
                assert forall|x: int, y: int|
                    #![trigger plane@[y * w + x]]
                    0 <= x < w && 0 <= y < h implies plane@[y * w + x] == (if y == by + yy && x
                    == bx + xx {
                    v
                } else {
                    pl0[y * w + x]
                }) by {
                    assert(0 <= y * w + x < w * h) by (nonlinear_arith)
                        requires
                            0 <= x < w,
                            0 <= y < h,
                    ;
                    if y == by + yy && x == bx + xx {
                        assert(y * w + x == idx);
                    } else {
                        assert(y * w + x != idx as int) by (nonlinear_arith)
                            requires
                                0 <= x < w,
                                0 <= y < h,
                                0 <= bx + xx < w,
                                0 <= by + yy < h,
                                idx == (by + yy) * w + (bx + xx),
                                !(y == by + yy && x == bx + xx),
                        ;
                        assert(plane@[y * w + x] == pl0[y * w + x]);
                    }
                }
            }
            xx = xx + 1;
        }
        yy = yy + 1;
    }
}

/// Nearest-neighbor upsampling of a plane by integer ratios: output cell
/// `(x, y)` is copied from `(x / hr, y / vr)`. With both ratios 1 the
/// output equals the input, so upsampling at full resolution is the
/// identity.
pub fn upsample_plane(src: &Vec<i16>, w: usize, h: usize, hr: usize, vr: usize) -> (r: Vec<i16>)
    requires
        src@.len() == w * h,
        w * h <= usize::MAX,
        hr >= 1,
        vr >= 1,
    ensures
        r@.len() == w * h,
        forall|x: int, y: int|
            #![trigger r@[y * w + x]]
            0 <= x < w && 0 <= y < h ==> r@[y * w + x] == src@[(y / (vr as int)) * w + x / (
            hr as int)],
        hr == 1 && vr == 1 ==> r@ == src@,
{
    let mut out: Vec<i16> = Vec::new();
    let mut y: usize = 0;
    #[verifier::loop_isolation(false)]
    while y < h
        invariant
            y <= h,
            out@.len() == y * w,
            forall|x2: int, y2: int|
                #![trigger out@[y2 * w + x2]]
                0 <= x2 < w && 0 <= y2 < y ==> out@[y2 * w + x2] == src@[(y2 / (vr as int)) * w
                    + x2 / (hr as int)],
        decreases h - y,
    {
        let sy = y / vr;
        let mut x: usize = 0;
        #[verifier::loop_isolation(false)]
        while x < w
            invariant
                x <= w,
                y < h,
                sy == y as int / vr as int,
                out@.len() == y * w + x,
                forall|x2: int, y2: int|
                    #![trigger out@[y2 * w + x2]]
                    0 <= x2 < w && 0 <= y2 < y ==> out@[y2 * w + x2] == src@[(y2 / (vr as int)) * w
                        + x2 / (hr as int)],
                forall|x2: int|
                    0 <= x2 < x ==> #[trigger] out@[(y as int) * w + x2] == src@[((y as int) / (
                    vr as int)) * w + x2 / (hr as int)],
            decreases w - x,
        {
            let sx = x / hr;
            proof {
                assert(sy * w + sx < w * h && sy * w + sx >= 0) by (nonlinear_arith)
                    requires
                        sy == y as int / vr as int,
                        sx == x as int / hr as int,
                        0 <= x < w,
                        0 <= y < h,
                        vr >= 1,
                        hr >= 1,
                        w > 0,
                ;
            }
            let ghost o0 = out@;
            out.push(src[sy * w + sx]);
            proof {
                assert(y * w + x + 1 == out@.len());
                assert forall|x2: int, y2: int|
                    #![trigger out@[y2 * w + x2]]
                    0 <= x2 < w && 0 <= y2 < y implies out@[y2 * w + x2] == src@[(y2 / (
                vr as int)) * w + x2 / (hr as int)] by {
                    assert(0 <= y2 * w + x2 < y * w) by (nonlinear_arith)
                        requires
                            0 <= x2 < w,
                            0 <= y2 < y,
                    ;
                    assert(out@[y2 * w + x2] == o0[y2 * w + x2]);
                }
            }
            x = x + 1;
        }
        proof {
            assert((y as int + 1) * w == y * w + w) by (nonlinear_arith);
            assert forall|x2: int, y2: int|
                #![trigger out@[y2 * w + x2]]
                0 <= x2 < w && 0 <= y2 < y + 1 implies out@[y2 * w + x2] == src@[(y2 / (
            vr as int)) * w + x2 / (hr as int)] by {
                if y2 == y as int {
                    assert(out@[(y as int) * w + x2] == src@[((y as int) / (vr as int)) * w + x2
                        / (hr as int)]);
                }
            }
        }
        y = y + 1;
    }
    proof {
        assert(h * w == w * h) by (nonlinear_arith);
    }
    proof {
        if hr == 1 && vr == 1 {
            assert forall|j: int| 0 <= j < w * h implies out@[j] == src@[j] by {
                let yj = j / (w as int);
                let xj = j % (w as int);
                vstd::arithmetic::div_mod::lemma_fundamental_div_mod(j, w as int);
                assert(0 <= xj < w && 0 <= yj < h && j == yj * w + xj) by (nonlinear_arith)
                    requires
                        w > 0,
                        h > 0,
                        0 <= j < w * h,
                        j == (w as int) * yj + xj,
                        0 <= xj < w,
                ;
                assert(out@[yj * (w as int) + xj] == src@[(yj / 1) * (w as int) + xj / 1]);
            }
            assert(out@ =~= src@);
        }
    }
    out
}

/// Running DC prediction: starts at `init` and adds each difference in
/// turn with wrapping 16-bit addition.
pub open spec fn run_predictor(init: i16, diffs: Seq<i16>) -> i16
    decreases diffs.len(),
{
    if diffs.len() == 0 {
        init
    } else {
        vstd::wrapping::i16_specs::wrapping_add(
            run_predictor(init, diffs.drop_last()),
            diffs.last(),
        )
    }
}

/// Sum of a sequence of 16-bit differences, as an unbounded integer.
pub open spec fn sum_i16(s: Seq<i16>) -> int
    decreases s.len(),
{
    if s.len() == 0 {
        0
    } else {
        sum_i16(s.drop_last()) + s.last()
    }
}

/// DC-predictor law: across any run of decoded blocks, the final predictor
/// for a component equals the sum of all its decoded DC differences,
/// modulo the wrapping of 16-bit addition.
pub proof fn lemma_dc_predictor_sum(init: i16, diffs: Seq<i16>)
    ensures
        (run_predictor(init, diffs) - (init + sum_i16(diffs))) % 0x10000 == 0,
    decreases diffs.len(),
{
    if diffs.len() > 0 {
        lemma_dc_predictor_sum(init, diffs.drop_last());
        let prev = run_predictor(init, diffs.drop_last());
        let prevsum = init + sum_i16(diffs.drop_last());
        let d = diffs.last();
        let wrapped = vstd::wrapping::i16_specs::wrapping_add(prev, d);
        assert((wrapped - (prevsum + d)) % 0x10000 == 0) by (nonlinear_arith)
            requires
                (prev - prevsum) % 0x10000 == 0,
                wrapped == prev + d || wrapped == prev + d - 0x10000 || wrapped == prev + d
                    + 0x10000,
        ;
    }
}


/// Prepends already-unstuffed bytes to the result of unstuffing the rest.
pub open spec fn unstuff_prepend(acc: Seq<u8>, r: Result<(Seq<u8>, int), Error>) -> Result<
    (Seq<u8>, int),
    Error,
> {
    match r {
        Ok((rest, e)) => Ok((acc + rest, e)),
        Err(e) => Err(e),
    }
}

/// Unstuffs the entropy-coded data of `s` starting at `p`: plain bytes are
/// kept, a `0xFF 0x00` pair yields a single `0xFF`, a second `0xFF` after a
/// `0xFF` is marker fill and is dropped, an EOI marker ends the data
/// (returning the payload and the position just past the marker), any other
/// marker is unsupported, and running out of bytes is malformed.
pub open spec fn unstuff(s: Seq<u8>, p: int) -> Result<(Seq<u8>, int), Error>
    decreases s.len() - p,
{
    if p < 0 || p >= s.len() {
        Err(Error::Malformed("unexpected end of input"))
    } else if s[p] != 0xFF {
        unstuff_prepend(seq![s[p]], unstuff(s, p + 1))
    } else if p + 1 >= s.len() {
        Err(Error::Malformed("unexpected end of input"))
    } else if s[p + 1] == 0x00 {
        unstuff_prepend(seq![0xFFu8], unstuff(s, p + 2))
    } else if s[p + 1] == 0xFF {
        unstuff(s, p + 1)
    } else if s[p + 1] == 0xD9 {
        Ok((Seq::empty(), p + 2))
    } else {
        Err(Error::UnsupportedFeature("marker inside scan data"))
    }
}

/// Prepending byte by byte is the same as prepending the grown prefix.
proof fn lemma_unstuff_prepend_assoc(acc: Seq<u8>, x: u8, r: Result<(Seq<u8>, int), Error>)
    ensures
        unstuff_prepend(acc, unstuff_prepend(seq![x], r)) == unstuff_prepend(acc.push(x), r),
{
    match r {
        Ok((rest, e)) => {
            assert(acc + (seq![x] + rest) =~= acc.push(x) + rest);
        },
        Err(_) => {},
    }
}

/// Byte-stuffed encoding of a payload: each `0xFF` becomes `0xFF 0x00`,
/// every other byte stands for itself.
pub open spec fn stuff(b: Seq<u8>) -> Seq<u8>
    decreases b.len(),
{
    if b.len() == 0 {
        Seq::empty()
    } else {
        (if b[0] == 0xFF {
            seq![0xFFu8, 0x00u8]
        } else {
            seq![b[0]]
        }) + stuff(b.subrange(1, b.len() as int))
    }
}

/// Byte-stuffing round trip: unstuffing a stuffed payload followed by an
/// EOI marker yields exactly the payload back, and stops exactly at the
/// embedded EOI, whatever bytes surround the scan.
pub proof fn lemma_byte_stuffing_round_trip(
    payload: Seq<u8>,
    prefix: Seq<u8>,
    s: Seq<u8>,
    suffix: Seq<u8>,
)
    requires
        s == prefix + stuff(payload) + seq![0xFFu8, 0xD9u8] + suffix,
    ensures
        unstuff(s, prefix.len() as int) == Ok::<(Seq<u8>, int), Error>(
            (payload, prefix.len() as int + stuff(payload).len() as int + 2),
        ),
    decreases payload.len(),
{
    let p = prefix.len() as int;
    if payload.len() == 0 {
        assert(stuff(payload) =~= Seq::<u8>::empty());
        assert(s[p] == 0xFF);
        assert(s[p + 1] == 0xD9);
        assert(unstuff(s, p) == Ok::<(Seq<u8>, int), Error>((Seq::empty(), p + 2)));
        assert(payload =~= Seq::<u8>::empty());
    } else {
        let b0 = payload[0];
        let rest = payload.subrange(1, payload.len() as int);
        if b0 == 0xFF {
            let prefix2 = prefix + seq![0xFFu8, 0x00u8];
            assert(s =~= prefix2 + stuff(rest) + seq![0xFFu8, 0xD9u8] + suffix);
            lemma_byte_stuffing_round_trip(rest, prefix2, s, suffix);
            assert(s[p] == 0xFF);
            assert(s[p + 1] == 0x00);
            assert(unstuff(s, p) == unstuff_prepend(seq![0xFFu8], unstuff(s, p + 2)));
            assert(seq![0xFFu8] + rest =~= payload);
        } else {
            let prefix2 = prefix + seq![b0];
            assert(s =~= prefix2 + stuff(rest) + seq![0xFFu8, 0xD9u8] + suffix);
            lemma_byte_stuffing_round_trip(rest, prefix2, s, suffix);
            assert(s[p] == b0);
            assert(unstuff(s, p) == unstuff_prepend(seq![b0], unstuff(s, p + 1)));
            assert(seq![b0] + rest =~= payload);
        }
    }
}

/// Decodes one JPEG stream: drives the header parse, then the scan decode.
pub struct JPEGDecoder<'data> {
    reader: JPEGParser<'data>,
    dc_predictions: Vec<i16>,
}

impl<'data> JPEGDecoder<'data> {
    /// The bytes being decoded.
    pub closed spec fn stream(&self) -> Seq<u8> {
        self.reader.stream()
    }

    /// The reader's current byte offset.
    pub closed spec fn spec_pos(&self) -> int {
        self.reader.spec_pos()
    }

    /// The reader never runs past the stream.
    pub closed spec fn wf(&self) -> bool {
        self.reader.wf()
    }

    /// Creates a decoder over `data`.
    pub fn new(data: &'data [u8]) -> (r: Self)
        ensures
            r.wf(),
            r.stream() == data@,
            r.spec_pos() == 0,
    {
        Self { reader: JPEGParser::new(data), dc_predictions: Vec::new() }
    }

    /// Parses the headers up to and including the start-of-scan segment,
    /// leaving the cursor at the first entropy-coded byte: the stream must
    /// open with SOI, and the segment walk of [`header_walk`] decides the
    /// result, with the returned header tied to its defining segments.
    pub fn parse(&mut self) -> (r: Result<HeaderInfo, Error>)
        requires
            old(self).wf(),
        ensures
            final(self).wf(),
            final(self).stream() == old(self).stream(),
            r matches Ok(h) ==> h.wf() && h.header_length as int == final(self).spec_pos(),
            ({
                let first = next_marker_spec(old(self).stream(), old(self).spec_pos());
                &&& (first matches Err(e) ==> r matches Err(e2) && same_error(e2, e))
                &&& (first matches Ok(m) && m.0 != JPEGMarker::SOI ==> {
                    &&& r matches Err(e2)
                    &&& same_error(e2, Error::Malformed("missing SOI"))
                })
            }),
            ({
                let s = old(self).stream();
                match next_marker_spec(s, old(self).spec_pos()) {
                    Err(_) => true,
                    Ok((m0, pw)) => m0 == JPEGMarker::SOI ==> match header_walk(
                        s,
                        pw,
                        walk_start(),
                    ) {
                        Err(e) => r matches Err(e2) && same_error(e2, e),
                        Ok((st, sosp, endp)) => {
                            &&& r matches Ok(h)
                            &&& final(self).spec_pos() == endp
                            &&& st.sof matches Some(so) && frame_defined_at(s, so, h.frame_info)
                            &&& opt_ht_matches(h.dc_huff_tables.0, st.dc0, s, 0, 0)
                            &&& opt_ht_matches(h.dc_huff_tables.1, st.dc1, s, 0, 1)
                            &&& opt_ht_matches(h.ac_huff_tables.0, st.ac0, s, 1, 0)
                            &&& opt_ht_matches(h.ac_huff_tables.1, st.ac1, s, 1, 1)
                            &&& opt_qt_matches(h.quant_tables.0, st.q0, s, 0)
                            &&& opt_qt_matches(h.quant_tables.1, st.q1, s, 1)
                            &&& forall|i: int|
                                0 <= i < 3 ==> #[trigger] h.scan_info.components@[i] == sc_at(
                                    s,
                                    sosp + 3 + 2 * i,
                                )
                        },
                    },
                }
            }),
    {
        HeaderInfo::read_header_info(&mut self.reader)
    }

    /// Extracts the entropy-coded scan data from the cursor up to the EOI
    /// marker, undoing `0xFF 0x00` byte stuffing as [`unstuff`] describes.
    fn read_huffman_data(&mut self) -> (r: Result<Vec<u8>, Error>)
        requires
            old(self).wf(),
        ensures
            final(self).wf(),
            final(self).stream() == old(self).stream(),
            match unstuff(old(self).stream(), old(self).spec_pos()) {
                Ok((payload, e)) => {
                    &&& r matches Ok(v) && v@ == payload
                    &&& final(self).spec_pos() == e
                },
                Err(err) => r matches Err(e2) && same_error(e2, err),
            },
    {
        let ghost s = self.stream();
        let ghost p0 = self.spec_pos();
        let mut out: Vec<u8> = Vec::new();
        let mut b = match self.reader.read_next_byte() {
            Ok(b) => b,
            Err(e) => return Err(e),
        };
        #[verifier::loop_isolation(false)]
        loop
            invariant
                self.reader.wf(),
                self.reader.stream() == s,
                1 <= self.reader.spec_pos() <= s.len(),
                b == s[self.reader.spec_pos() - 1],
                unstuff(s, p0) == unstuff_prepend(out@, unstuff(s, self.reader.spec_pos() - 1)),
            decreases s.len() - self.reader.spec_pos(),
        {
            let ghost q = self.reader.spec_pos() - 1;
            if b != 0xFF {
                proof {
                    lemma_unstuff_prepend_assoc(out@, b, unstuff(s, q + 1));
                }
                out.push(b);
                b = match self.reader.read_next_byte() {
                    Ok(nb) => nb,
                    Err(e) => return Err(e),
                };
                continue ;
            }
            let c = match self.reader.read_next_byte() {
                Ok(c) => c,
                Err(e) => return Err(e),
            };
            if c == 0x00 {
                proof {
                    lemma_unstuff_prepend_assoc(out@, 0xFFu8, unstuff(s, q + 2));
                }
                out.push(0xFF);
                b = match self.reader.read_next_byte() {
                    Ok(nb) => nb,
                    Err(e) => return Err(e),
                };
                continue ;
            }
            if c == 0xFF {
                b = c;
                continue ;
            }
            if c == 0xD9 {
                proof {
                    assert(out@ + Seq::<u8>::empty() =~= out@);
                }
                return Ok(out);
            }
            return Err(Error::UnsupportedFeature("marker inside scan data"));
        }
    }
}


/// Linear scan of the canonical codes in `[j, end)` for `code`, returning
/// the symbol of the first match.
pub open spec fn huff_scan(t: HuffmanTable, code: int, j: int, end: int) -> Option<u8>
    decreases end - j,
{
    if j >= end {
        None
    } else if t.codes@[j] as int == code {
        Some(t.symbols@[j])
    } else {
        huff_scan(t, code, j + 1, end)
    }
}

/// Huffman decoding of one symbol from the bit stream `s` at bit position
/// `p`: bits are shifted into `code` one at a time; after each bit, the
/// codes of the current length are scanned, and the first match yields its
/// symbol. No match within 16 bits is unsupported; running out of bits is
/// an internal error. Returns the symbol, the bit count read less one, and
/// the next bit position.
pub open spec fn huff_decode_spec(t: HuffmanTable, s: Seq<u8>, p: int, l: int, code: int) -> Result<
    (u8, int, int),
    Error,
>
    decreases 16 - l,
{
    if l >= 16 {
        Err(Error::UnsupportedFeature("code exceeds 16 bits"))
    } else if p < 0 || p >= 8 * s.len() {
        Err(Error::InternalError("read past end"))
    } else {
        let code2 = 2 * code + bit_at(s, p);
        match huff_scan(
            t,
            code2,
            code_offset(t.bitcode_counts@, l + 1),
            code_offset(t.bitcode_counts@, l + 1) + t.bitcode_counts@[l],
        ) {
            Some(sym) => Ok((sym, l, p + 1)),
            None => huff_decode_spec(t, s, p + 1, l + 1, code2),
        }
    }
}

/// Decodes one Huffman symbol from the bitstream using `table`, returning
/// the symbol and the number of bits read less one.
fn decode_next_value(bitstream: &mut Bitstream, table: &HuffmanTable) -> (r: Result<
    (u8, u8),
    Error,
>)
    requires
        old(bitstream).wf(),
        table.wf(),
    ensures
        final(bitstream).wf(),
        final(bitstream).stream() == old(bitstream).stream(),
        match huff_decode_spec(
            *table,
            old(bitstream).stream(),
            old(bitstream).bit_pos(),
            0,
            0,
        ) {
            Ok((sym, l, p2)) => {
                &&& r matches Ok(v) && v.0 == sym && v.1 as int == l
                &&& final(bitstream).bit_pos() == p2
            },
            Err(e) => {
                &&& r matches Err(e2) && same_error(e2, e)
                &&& (same_error(e, Error::UnsupportedFeature("code exceeds 16 bits"))
                    ==> final(bitstream).bit_pos() == old(bitstream).bit_pos() + 16)
                &&& (same_error(e, Error::InternalError("read past end"))
                    ==> final(bitstream).bit_pos() == 8 * old(bitstream).stream().len())
            },
        },
{
    let ghost s = bitstream.stream();
    let ghost p0 = bitstream.bit_pos();
    let ghost counts = table.bitcode_counts@;
    let codes_len = table.codes.len();
    let mut code: u32 = 0;
    let mut code_cursor: usize = 0;
    let mut i: usize = 0;
    #[verifier::loop_isolation(false)]
    while i < 16
        invariant
            bitstream.wf(),
            bitstream.stream() == s,
            i <= 16,
            bitstream.bit_pos() == p0 + i,
            code as int == bits_val(s, p0, i as nat),
            code < 0x10000,
            code_cursor as int == code_offset(counts, i as int + 1),
            code_cursor <= codes_len,
            codes_len == table.codes@.len(),
            huff_decode_spec(*table, s, p0, 0, 0) == huff_decode_spec(
                *table,
                s,
                p0 + i,
                i as int,
                code as int,
            ),
        decreases 16 - i,
    {
        proof {
            crate::bitstream::lemma_bits_val_bound(s, p0, i as nat);
            if i < 16 {
                lemma_pow2_strictly_increases(i as nat, 16);
            }
            lemma2_to64();
        }
        let bit = match bitstream.read_bits(1) {
            Ok(v) => v,
            Err(e) => {
                return Err(e);
            },
        };
        proof {
            crate::bitstream::lemma_bits_val_bound(s, p0 + i, 1);
            assert(bits_val(s, p0 + i, 0) == 0);
            assert(bits_val(s, p0 + i, 1) == bit_at(s, p0 + i));
        }
        code = code * 2 + bit as u32;
        let ghost code2 = code as int;
        let count = table.bitcode_counts[i];
        proof {
            crate::jpeg::header::lemma_code_offset_monotone(counts, i as int + 2, 17);
            assert(code_offset(counts, i as int + 2) == code_offset(counts, i as int + 1)
                + counts[i as int]);
        }
        let ghost scan_end = code_offset(counts, i as int + 1) + counts[i as int];
        let mut c: usize = 0;
        #[verifier::loop_isolation(false)]
        while c < count as usize
            invariant
                c <= count as usize,
                code_cursor as int == code_offset(counts, i as int + 1) + c,
                code_cursor <= codes_len,
                huff_scan(*table, code2, code_offset(counts, i as int + 1), scan_end)
                    == huff_scan(*table, code2, code_cursor as int, scan_end),
            decreases count as usize - c,
        {
            if code == table.codes[code_cursor] as u32 {
                return Ok((table.symbols[code_cursor], i as u8));
            }
            code_cursor = code_cursor + 1;
            c = c + 1;
        }
        i = i + 1;
    }
    Err(Error::UnsupportedFeature("code exceeds 16 bits"))
}

/// A block of 64 zero coefficients.
pub open spec fn zero64() -> Seq<i16> {
    Seq::new(64, |i: int| 0i16)
}

/// Decoding of one DC coefficient: a Huffman-coded category, then that
/// many raw bits, sign-extended and added to the running prediction with
/// wrapping 16-bit addition. Returns the new prediction, the difference
/// and the next bit position.
pub open spec fn dc_decode_spec(dc: HuffmanTable, s: Seq<u8>, p: int, pred: i16) -> Result<
    (i16, i16, int),
    Error,
> {
    match huff_decode_spec(dc, s, p, 0, 0) {
        Err(e) => Err(e),
        Ok((t, l, p1)) => {
            if t > 15 {
                Err(Error::Malformed("invalid coefficient category"))
            } else if p1 + t > 8 * s.len() {
                Err(Error::InternalError("read past end"))
            } else {
                let diff = extend_spec(bits_val(s, p1, t as nat), t as int) as i16;
                Ok((vstd::wrapping::i16_specs::wrapping_add(pred, diff), diff, p1 + t))
            }
        },
    }
}

/// Decoding of the AC coefficients of one data unit, starting after
/// coefficient `k`: `0x00` ends the block, `0xF0` skips sixteen zeros, and
/// any other symbol skips its run of zeros and places one sign-extended
/// coefficient. A run past position 63 is malformed.
pub open spec fn ac_decode_spec(ac: HuffmanTable, s: Seq<u8>, p: int, k: int, cs: Seq<i16>) -> Result<
    (Seq<i16>, int),
    Error,
>
    decreases 63 - k,
{
    if k >= 63 {
        Ok((cs, p))
    } else {
        match huff_decode_spec(ac, s, p, 0, 0) {
            Err(e) => Err(e),
            Ok((rs, l, p1)) => {
                if rs == 0x00 {
                    Ok((cs, p1))
                } else if rs == 0xF0 {
                    if k + 16 > 63 {
                        Err(Error::Malformed("run length overflow"))
                    } else {
                        ac_decode_spec(ac, s, p1, k + 16, cs)
                    }
                } else {
                    let run = rs as int / 16;
                    let size = rs as int % 16;
                    let k2 = k + 1 + run;
                    if k2 > 63 {
                        Err(Error::Malformed("run length overflow"))
                    } else if p1 + size > 8 * s.len() {
                        Err(Error::InternalError("read past end"))
                    } else {
                        ac_decode_spec(
                            ac,
                            s,
                            p1 + size,
                            k2,
                            cs.update(k2, extend_spec(bits_val(s, p1, size as nat), size) as i16),
                        )
                    }
                }
            },
        }
    }
}

/// Decoding of one complete data unit: the DC coefficient at zig-zag
/// position 0, then the AC coefficients. Returns the 64 zig-zag-ordered
/// coefficients, the new DC prediction, the DC difference and the next bit
/// position.
pub open spec fn unit_spec(
    dc: HuffmanTable,
    ac: HuffmanTable,
    s: Seq<u8>,
    p: int,
    pred: i16,
) -> Result<(Seq<i16>, i16, i16, int), Error> {
    match dc_decode_spec(dc, s, p, pred) {
        Err(e) => Err(e),
        Ok((np, diff, p1)) => match ac_decode_spec(ac, s, p1, 0, zero64().update(0, np)) {
            Err(e) => Err(e),
            Ok((cs, p2)) => Ok((cs, np, diff, p2)),
        },
    }
}

/// Decodes one data unit's 64 zig-zag-ordered coefficients and updates the
/// DC prediction, as [`unit_spec`] describes.
fn decode_data_unit(
    bitstream: &mut Bitstream,
    dc_table: &HuffmanTable,
    ac_table: &HuffmanTable,
    pred: i16,
) -> (r: Result<(Vec<i16>, i16), Error>)
    requires
        old(bitstream).wf(),
        dc_table.wf(),
        ac_table.wf(),
    ensures
        final(bitstream).wf(),
        final(bitstream).stream() == old(bitstream).stream(),
        match unit_spec(*dc_table, *ac_table, old(bitstream).stream(), old(bitstream).bit_pos(), pred) {
            Ok((cs, np, diff, p2)) => {
                &&& r matches Ok(u) && u.0@ == cs && u.1 == np && u.0@.len() == 64
                &&& final(bitstream).bit_pos() == p2
            },
            Err(e) => r matches Err(e2) && same_error(e2, e),
        },
{
    let ghost s = bitstream.stream();
    let ghost p0 = bitstream.bit_pos();
    let dc_sym = match decode_next_value(bitstream, dc_table) {
        Ok(v) => v.0,
        Err(e) => {
            return Err(e);
        },
    };
    if dc_sym > 15 {
        return Err(Error::Malformed("invalid coefficient category"));
    }
    let ghost p1 = bitstream.bit_pos();
    let raw = match bitstream.read_bits(dc_sym as usize) {
        Ok(v) => v,
        Err(e) => {
            return Err(e);
        },
    };
    proof {
        crate::bitstream::lemma_bits_val_bound(s, p1, dc_sym as nat);
        if dc_sym >= 1 {
            lemma_sign_extension(raw as int, dc_sym as int);
        }
    }
    let diff = extend_coefficient(raw, dc_sym);
    let np = pred.wrapping_add(diff);
    let mut coeffs = zero_plane(64);
    coeffs[0] = np;
    proof {
        assert(coeffs@ =~= zero64().update(0, np));
    }
    let ghost ps = bitstream.bit_pos();
    let ghost cs0 = coeffs@;
    let mut k: usize = 0;
    #[verifier::loop_isolation(false)]
    loop
        invariant
            bitstream.wf(),
            bitstream.stream() == s,
            k <= 63,
            coeffs@.len() == 64,
            ac_decode_spec(*ac_table, s, ps, 0, cs0) == ac_decode_spec(
                *ac_table,
                s,
                bitstream.bit_pos(),
                k as int,
                coeffs@,
            ),
        decreases 63 - k,
    {
        if k >= 63 {
            return Ok((coeffs, np));
        }
        let rs = match decode_next_value(bitstream, ac_table) {
            Ok(v) => v.0,
            Err(e) => {
                return Err(e);
            },
        };
        if rs == 0x00 {
            return Ok((coeffs, np));
        }
        if rs == 0xF0 {
            if k + 16 > 63 {
                return Err(Error::Malformed("run length overflow"));
            }
            k = k + 16;
            continue ;
        }
        let run = (rs / 16) as usize;
        let size = rs % 16;
        let k2 = k + 1 + run;
        if k2 > 63 {
            return Err(Error::Malformed("run length overflow"));
        }
        let ghost pk = bitstream.bit_pos();
        let raw2 = match bitstream.read_bits(size as usize) {
            Ok(v) => v,
            Err(e) => {
                return Err(e);
            },
        };
        proof {
            crate::bitstream::lemma_bits_val_bound(s, pk, size as nat);
            if size >= 1 {
                lemma_sign_extension(raw2 as int, size as int);
            }
        }
        let co = extend_coefficient(raw2, size);
        coeffs[k2] = co;
        k = k2;
    }
}


/// The sample of component `sel` (1 = Y, 2 = Cb, 3 = Cr) at image pixel
/// `(x, y)`, read from the decoded macroblock grid.
pub open spec fn sample_at(blocks: Seq<Macroblock>, h: HeaderInfo, sel: int, x: int, y: int) -> i16 {
    let mw = h.mcu_info.mcu_size.0 as int;
    let mh = h.mcu_info.mcu_size.1 as int;
    let pd0 = h.mcu_info.mcu_padded_dimensions.0 as int;
    blocks[(y / mh) * pd0 + x / mw].component_spec(sel)[(y % mh) * mw + x % mw]
}

/// The RGB bytes of image pixel `(x, y)`: its three component samples run
/// through the YCbCr-to-RGB conversion.
pub open spec fn pixel_rgb(blocks: Seq<Macroblock>, h: HeaderInfo, x: int, y: int) -> (
    int,
    int,
    int,
) {
    rgb_of(
        sample_at(blocks, h, 1, x, y) as int,
        sample_at(blocks, h, 2, x, y) as int,
        sample_at(blocks, h, 3, x, y) as int,
    )
}


/// The table held in an optional slot; meaningful only when the slot is
/// filled, as a well-formed header guarantees for every referenced table.
pub open spec fn some_ht(o: Option<HuffmanTable>) -> HuffmanTable {
    match o {
        Some(t) => t,
        None => vstd::pervasive::arbitrary(),
    }
}

/// The DC prediction and bit position after decoding `n` consecutive data
/// units of one component.
pub open spec fn preds_chain(
    dc: HuffmanTable,
    ac: HuffmanTable,
    s: Seq<u8>,
    p: int,
    pred: i16,
    n: int,
) -> Result<(i16, int), Error>
    decreases n,
{
    if n <= 0 {
        Ok((pred, p))
    } else {
        match unit_spec(dc, ac, s, p, pred) {
            Err(e) => Err(e),
            Ok((cs, np, diff, p1)) => preds_chain(dc, ac, s, p1, np, n - 1),
        }
    }
}

/// The DC predictions and bit position after decoding one MCU: each
/// component in header order decodes its `Hi * Vi` data units, threading
/// the prediction indexed by its selector.
pub open spec fn block_preds_spec(
    h: HeaderInfo,
    s: Seq<u8>,
    p: int,
    preds: Seq<i16>,
    ci: int,
) -> Result<(Seq<i16>, int), Error>
    decreases 3 - ci,
{
    if ci >= 3 {
        Ok((preds, p))
    } else {
        let comp = h.components@[ci];
        let dct = some_ht(h.dc_table_spec(comp.scan.dc_table as int));
        let act = some_ht(h.ac_table_spec(comp.scan.ac_table as int));
        let sel = comp.scan.selector as int;
        let n_units = comp.frame.xy_sampling_factor.1 as int
            * comp.frame.xy_sampling_factor.0 as int;
        match preds_chain(dct, act, s, p, preds[sel], n_units) {
            Err(e) => Err(e),
            Ok((np, p1)) => block_preds_spec(h, s, p1, preds.update(sel, np), ci + 1),
        }
    }
}


/// Prepends already-decoded MCU plane triples to the rest of a grid decode.
pub open spec fn blocks_prepend(
    acc: Seq<(Seq<i16>, Seq<i16>, Seq<i16>)>,
    r: Result<(Seq<(Seq<i16>, Seq<i16>, Seq<i16>)>, Seq<i16>, int), Error>,
) -> Result<(Seq<(Seq<i16>, Seq<i16>, Seq<i16>)>, Seq<i16>, int), Error> {
    match r {
        Ok((rest, pf, pe)) => Ok((acc + rest, pf, pe)),
        Err(e) => Err(e),
    }
}

/// Prepending one MCU at a time is the same as prepending the grown prefix.
proof fn lemma_blocks_prepend_assoc(
    acc: Seq<(Seq<i16>, Seq<i16>, Seq<i16>)>,
    x: (Seq<i16>, Seq<i16>, Seq<i16>),
    r: Result<(Seq<(Seq<i16>, Seq<i16>, Seq<i16>)>, Seq<i16>, int), Error>,
)
    ensures
        blocks_prepend(acc, blocks_prepend(seq![x], r)) == blocks_prepend(acc.push(x), r),
{
    match r {
        Ok((rest, pf, pe)) => {
            assert(acc + (seq![x] + rest) =~= acc.push(x) + rest);
        },
        Err(_) => {},
    }
}

/// The plane triples of `n` MCUs decoded in row-major grid order, with the
/// final DC predictions and bit position.
pub open spec fn grid_blocks_spec(
    h: HeaderInfo,
    s: Seq<u8>,
    p: int,
    preds: Seq<i16>,
    n: int,
) -> Result<(Seq<(Seq<i16>, Seq<i16>, Seq<i16>)>, Seq<i16>, int), Error>
    decreases n,
{
    if n <= 0 {
        Ok((Seq::empty(), preds, p))
    } else {
        let msz = h.mcu_info.mcu_size.0 as int * h.mcu_info.mcu_size.1 as int;
        match block_planes_spec(
            h,
            s,
            p,
            preds,
            (zero_plane_spec(msz), zero_plane_spec(msz), zero_plane_spec(msz)),
            0,
        ) {
            Err(e) => Err(e),
            Ok((planes, preds2, p2)) => blocks_prepend(
                seq![planes],
                grid_blocks_spec(h, s, p2, preds2, n - 1),
            ),
        }
    }
}

/// The sample of component `sel` at image pixel `(x, y)`, read from the
/// decoded grid's plane triples.
pub open spec fn chain_sample(
    pbs: Seq<(Seq<i16>, Seq<i16>, Seq<i16>)>,
    h: HeaderInfo,
    sel: int,
    x: int,
    y: int,
) -> i16 {
    let mw = h.mcu_info.mcu_size.0 as int;
    let mh = h.mcu_info.mcu_size.1 as int;
    let pd0 = h.mcu_info.mcu_padded_dimensions.0 as int;
    let t = pbs[(y / mh) * pd0 + x / mw];
    (if sel == 1 {
        t.0
    } else if sel == 2 {
        t.1
    } else {
        t.2
    })[(y % mh) * mw + x % mw]
}

/// Four zeroed DC predictions, one per possible component selector.
pub open spec fn zero_preds() -> Seq<i16> {
    Seq::new(4, |i: int| 0i16)
}

/// The DC predictions and bit position after decoding `n` MCUs in
/// row-major grid order.
pub open spec fn grid_preds_spec(
    h: HeaderInfo,
    s: Seq<u8>,
    p: int,
    preds: Seq<i16>,
    n: int,
) -> Result<(Seq<i16>, int), Error>
    decreases n,
{
    if n <= 0 {
        Ok((preds, p))
    } else {
        match block_preds_spec(h, s, p, preds, 0) {
            Err(e) => Err(e),
            Ok((preds2, p2)) => grid_preds_spec(h, s, p2, preds2, n - 1),
        }
    }
}


/// The table held in an optional quantization slot; meaningful only when
/// the slot is filled, as a well-formed header guarantees.
pub open spec fn some_qt(o: Option<QuantizationTable>) -> QuantizationTable {
    match o {
        Some(t) => t,
        None => vstd::pervasive::arbitrary(),
    }
}

/// A plane of `n` zero samples.
pub open spec fn zero_plane_spec(n: int) -> Seq<i16> {
    Seq::new(n as nat, |i: int| 0i16)
}

/// Row-major inverse-DCT output of one data unit: its zig-zag coefficients
/// dequantized against `q`, un-zig-zagged and transformed.
pub open spec fn unit_samples(cs: Seq<i16>, q: Seq<u16>) -> Seq<i16> {
    Seq::new(
        64,
        |j: int| idct_value(Seq::new(64, |k: int| dequant_spec(cs, q, k)), j % 8, j / 8) as i16,
    )
}

/// Prepends already-decoded unit sample blocks to the rest of a component
/// decode.
pub open spec fn units_prepend(
    acc: Seq<Seq<i16>>,
    r: Result<(Seq<Seq<i16>>, i16, int), Error>,
) -> Result<(Seq<Seq<i16>>, i16, int), Error> {
    match r {
        Ok((rest, fp, pe)) => Ok((acc + rest, fp, pe)),
        Err(e) => Err(e),
    }
}

/// Prepending block by block is the same as prepending the grown prefix.
proof fn lemma_units_prepend_assoc(
    acc: Seq<Seq<i16>>,
    x: Seq<i16>,
    r: Result<(Seq<Seq<i16>>, i16, int), Error>,
)
    ensures
        units_prepend(acc, units_prepend(seq![x], r)) == units_prepend(acc.push(x), r),
{
    match r {
        Ok((rest, fp, pe)) => {
            assert(acc + (seq![x] + rest) =~= acc.push(x) + rest);
        },
        Err(_) => {},
    }
}

/// The sample blocks of `n` consecutive data units of one component,
/// together with the final DC prediction and bit position.
pub open spec fn comp_units_spec(
    dc: HuffmanTable,
    ac: HuffmanTable,
    q: Seq<u16>,
    s: Seq<u8>,
    p: int,
    pred: i16,
    n: int,
) -> Result<(Seq<Seq<i16>>, i16, int), Error>
    decreases n,
{
    if n <= 0 {
        Ok((Seq::empty(), pred, p))
    } else {
        match unit_spec(dc, ac, s, p, pred) {
            Err(e) => Err(e),
            Ok((cs, np, diff, p1)) => units_prepend(
                seq![unit_samples(cs, q)],
                comp_units_spec(dc, ac, q, s, p1, np, n - 1),
            ),
        }
    }
}

/// The plane one component contributes to the macroblock: every cell maps
/// through the upsampling ratios to its data unit's inverse-DCT sample.
pub open spec fn comp_plane_spec(
    units: Seq<Seq<i16>>,
    hi: int,
    hr: int,
    vr: int,
    w: int,
    h: int,
) -> Seq<i16> {
    Seq::new(
        (w * h) as nat,
        |idx: int|
            {
                let sy = (idx / w) / vr;
                let sx = (idx % w) / hr;
                units[(sy / 8) * hi + sx / 8][8 * (sy % 8) + sx % 8]
            },
    )
}

/// The three macroblock planes, DC predictions and bit position after
/// decoding one MCU: each component in header order decodes its data
/// units, and its upsampled plane replaces the one its selector names.
pub open spec fn block_planes_spec(
    h: HeaderInfo,
    s: Seq<u8>,
    p: int,
    preds: Seq<i16>,
    planes: (Seq<i16>, Seq<i16>, Seq<i16>),
    ci: int,
) -> Result<((Seq<i16>, Seq<i16>, Seq<i16>), Seq<i16>, int), Error>
    decreases 3 - ci,
{
    if ci >= 3 {
        Ok((planes, preds, p))
    } else {
        let comp = h.components@[ci];
        let dct = some_ht(h.dc_table_spec(comp.scan.dc_table as int));
        let act = some_ht(h.ac_table_spec(comp.scan.ac_table as int));
        let q = some_qt(h.quant_table_spec(comp.frame.qtable_id as int)).table@;
        let sel = comp.scan.selector as int;
        let hi = comp.frame.xy_sampling_factor.0 as int;
        let vi = comp.frame.xy_sampling_factor.1 as int;
        match comp_units_spec(dct, act, q, s, p, preds[sel], vi * hi) {
            Err(e) => Err(e),
            Ok((units, np, p1)) => {
                let plane = comp_plane_spec(
                    units,
                    hi,
                    h.hmax_spec() / hi,
                    h.vmax_spec() / vi,
                    h.mcu_info.mcu_size.0 as int,
                    h.mcu_info.mcu_size.1 as int,
                );
                block_planes_spec(
                    h,
                    s,
                    p1,
                    preds.update(sel, np),
                    (
                        if sel == 1 {
                            plane
                        } else {
                            planes.0
                        },
                        if sel == 2 {
                            plane
                        } else {
                            planes.1
                        },
                        if sel == 3 {
                            plane
                        } else {
                            planes.2
                        },
                    ),
                    ci + 1,
                )
            },
        }
    }
}


/// Decodes one component's grid of `vi * hi` data units into its upsampled
/// MCU-sized plane, as [`comp_units_spec`] and [`comp_plane_spec`]
/// describe, returning the plane and the final DC prediction.
#[verifier::rlimit(100)]
#[verifier::spinoff_prover]
fn decode_component(
    bitstream: &mut Bitstream,
    dc_table: &HuffmanTable,
    ac_table: &HuffmanTable,
    qtable: &QuantizationTable,
    hi: u8,
    vi: u8,
    hr: u8,
    vr: u8,
    mcu_w: usize,
    mcu_h: usize,
    pred: i16,
) -> (r: Result<(Vec<i16>, i16), Error>)
    requires
        old(bitstream).wf(),
        dc_table.wf(),
        ac_table.wf(),
        qtable.wf(),
        1 <= hi <= 4,
        1 <= vi <= 4,
        hr >= 1,
        vr >= 1,
        mcu_w as int == 8 * (hi as int) * (hr as int),
        mcu_h as int == 8 * (vi as int) * (vr as int),
        mcu_w <= 32,
        mcu_h <= 32,
    ensures
        final(bitstream).wf(),
        final(bitstream).stream() == old(bitstream).stream(),
        match preds_chain(
            *dc_table,
            *ac_table,
            old(bitstream).stream(),
            old(bitstream).bit_pos(),
            pred,
            vi as int * hi as int,
        ) {
            Err(e) => r matches Err(e2) && same_error(e2, e),
            Ok((np, p1)) => {
                &&& r matches Ok(u) && u.1 == np
                &&& final(bitstream).bit_pos() == p1
            },
        },
        match comp_units_spec(
            *dc_table,
            *ac_table,
            qtable.table@,
            old(bitstream).stream(),
            old(bitstream).bit_pos(),
            pred,
            vi as int * hi as int,
        ) {
            Err(e) => r matches Err(e2) && same_error(e2, e),
            Ok((units, np, p1)) => {
                &&& r matches Ok(u)
                &&& u.0@ == comp_plane_spec(
                    units,
                    hi as int,
                    hr as int,
                    vr as int,
                    mcu_w as int,
                    mcu_h as int,
                )
                &&& u.0@.len() == mcu_w as int * mcu_h as int
                &&& u.1 == np
                &&& final(bitstream).bit_pos() == p1
            },
        },
{
    let ghost dct = *dc_table;
    let ghost act = *ac_table;
    let ghost qseq = qtable.table@;
    let ghost p_ci = bitstream.bit_pos();
    let ghost pred0 = pred;
    let ghost n_units = vi as int * hi as int;
    let ghost mut units: Seq<Seq<i16>> = Seq::empty();
    proof {
        assert(mcu_w * mcu_h <= 1024) by (nonlinear_arith)
            requires
                mcu_w <= 32,
                mcu_h <= 32,
        ;
    }
    let mut cur: i16 = pred;
    let mut plane = zero_plane(mcu_w * mcu_h);
    let mut mcu_row: u8 = 0;
    #[verifier::loop_isolation(false)]
    while mcu_row < vi
        invariant
            mcu_row <= vi,
            bitstream.wf(),
            bitstream.stream() == old(bitstream).stream(),
            plane@.len() == mcu_w * mcu_h,
            preds_chain(dct, act, old(bitstream).stream(), p_ci, pred0, n_units) == preds_chain(
                dct,
                act,
                old(bitstream).stream(),
                bitstream.bit_pos(),
                cur,
                n_units - mcu_row as int * hi as int,
            ),
            units.len() == mcu_row as int * hi as int,
            comp_units_spec(dct, act, qseq, old(bitstream).stream(), p_ci, pred0, n_units)
                == units_prepend(
                units,
                comp_units_spec(
                    dct,
                    act,
                    qseq,
                    old(bitstream).stream(),
                    bitstream.bit_pos(),
                    cur,
                    n_units - mcu_row as int * hi as int,
                ),
            ),
            forall|idx: int|
                0 <= idx < mcu_w as int * mcu_h as int ==> #[trigger] plane@[idx] == ({
                    let yy = idx / (mcu_w as int);
                    let xx = idx % (mcu_w as int);
                    if xx < 8 * hi as int && yy < 8 * vi as int && (yy / 8) * (hi as int) + xx
                        / 8 < units.len() {
                        units[(yy / 8) * (hi as int) + xx / 8][8 * (yy % 8) + xx % 8]
                    } else {
                        0i16
                    }
                }),
        decreases vi - mcu_row,
    {
        let mut mcu_col: u8 = 0;
        #[verifier::loop_isolation(false)]
        while mcu_col < hi
            invariant
                mcu_col <= hi,
                mcu_row < vi,
                bitstream.wf(),
                bitstream.stream() == old(bitstream).stream(),
                plane@.len() == mcu_w * mcu_h,
                preds_chain(dct, act, old(bitstream).stream(), p_ci, pred0, n_units)
                    == preds_chain(
                    dct,
                    act,
                    old(bitstream).stream(),
                    bitstream.bit_pos(),
                    cur,
                    n_units - (mcu_row as int * hi as int + mcu_col as int),
                ),
                units.len() == mcu_row as int * hi as int + mcu_col as int,
                comp_units_spec(dct, act, qseq, old(bitstream).stream(), p_ci, pred0, n_units)
                    == units_prepend(
                    units,
                    comp_units_spec(
                        dct,
                        act,
                        qseq,
                        old(bitstream).stream(),
                        bitstream.bit_pos(),
                        cur,
                        n_units - (mcu_row as int * hi as int + mcu_col as int),
                    ),
                ),
                forall|idx: int|
                    0 <= idx < mcu_w as int * mcu_h as int ==> #[trigger] plane@[idx] == ({
                        let yy = idx / (mcu_w as int);
                        let xx = idx % (mcu_w as int);
                        if xx < 8 * hi as int && yy < 8 * vi as int && (yy / 8) * (hi as int)
                            + xx / 8 < units.len() {
                            units[(yy / 8) * (hi as int) + xx / 8][8 * (yy % 8) + xx % 8]
                        } else {
                            0i16
                        }
                    }),
            decreases hi - mcu_col,
        {
            proof {
                let row_i = mcu_row as int;
                let col_i = mcu_col as int;
                assert(row_i * hi as int + col_i < n_units) by (nonlinear_arith)
                    requires
                        n_units == vi as int * hi as int,
                        0 <= row_i < vi as int,
                        0 <= col_i < hi as int,
                ;
            }
            let unit = match decode_data_unit(bitstream, dc_table, ac_table, cur) {
                Ok(u) => u,
                Err(e) => {
                    return Err(e);
                },
            };
            let (coeffs, np) = unit;
            cur = np;
            let d = dequantize_unit(&coeffs, qtable);
            let samples = idct_block(&d);
            proof {
                assert(d@ =~= Seq::new(64, |k: int| dequant_spec(coeffs@, qseq, k)));
                assert forall|j: int| 0 <= j < 64 implies samples@[j] == unit_samples(
                    coeffs@,
                    qseq,
                )[j] by {
                    assert(samples@[8 * (j / 8) + (j % 8)] as int == idct_value(d@, j % 8, j / 8));
                }
                assert(samples@ =~= unit_samples(coeffs@, qseq));
                lemma_units_prepend_assoc(
                    units,
                    unit_samples(coeffs@, qseq),
                    comp_units_spec(
                        dct,
                        act,
                        qseq,
                        old(bitstream).stream(),
                        bitstream.bit_pos(),
                        np,
                        n_units - (mcu_row as int * hi as int + mcu_col as int) - 1,
                    ),
                );
            }
            let ghost pl_before = plane@;
            let ghost units_before = units;
            proof {
                units = units.push(unit_samples(coeffs@, qseq));
                assert(8 * (mcu_col as int) + 8 <= mcu_w as int && 8 * (mcu_row as int) + 8
                    <= mcu_h as int) by (nonlinear_arith)
                    requires
                        mcu_w as int == 8 * (hi as int) * (hr as int),
                        mcu_h as int == 8 * (vi as int) * (vr as int),
                        mcu_col < hi,
                        mcu_row < vi,
                        hr >= 1,
                        vr >= 1,
                ;
            }
            write_block(&mut plane, mcu_w, mcu_h, &samples, 8 * mcu_col as usize, 8 * mcu_row as usize);
            proof {
                let wi = mcu_w as int;
                let hii = hi as int;
                let row_i = mcu_row as int;
                let col_i = mcu_col as int;
                let nold = units_before.len() as int;
                assert forall|idx: int| 0 <= idx < wi * (mcu_h as int) implies #[trigger] plane@[idx]
                    == ({
                    let yy = idx / wi;
                    let xx = idx % wi;
                    if xx < 8 * hii && yy < 8 * vi as int && (yy / 8) * hii + xx / 8
                        < units.len() {
                        units[(yy / 8) * hii + xx / 8][8 * (yy % 8) + xx % 8]
                    } else {
                        0i16
                    }
                }) by {
                    vstd::arithmetic::div_mod::lemma_fundamental_div_mod(idx, wi);
                    let yy = idx / wi;
                    let xx = idx % wi;
                    assert(0 <= xx < wi && 0 <= yy < mcu_h as int) by (nonlinear_arith)
                        requires
                            wi > 0,
                            0 <= idx < wi * (mcu_h as int),
                            idx == wi * yy + xx,
                            0 <= xx < wi,
                    ;
                    assert(yy * wi + xx == idx) by (nonlinear_arith)
                        requires
                            idx == wi * yy + xx,
                    ;
                    assert(plane@[yy * wi + xx] == (if 8 * col_i <= xx < 8 * col_i + 8 && 8
                        * row_i <= yy < 8 * row_i + 8 {
                        samples@[8 * (yy - 8 * row_i) + (xx - 8 * col_i)]
                    } else {
                        pl_before[yy * wi + xx]
                    }));
                    if 8 * col_i <= xx < 8 * col_i + 8 && 8 * row_i <= yy < 8 * row_i + 8 {
                        assert(yy / 8 == row_i && xx / 8 == col_i);
                        assert(yy % 8 == yy - 8 * row_i && xx % 8 == xx - 8 * col_i);
                        assert((yy / 8) * hii + xx / 8 == nold);
                        assert(units[nold] == unit_samples(coeffs@, qseq));
                    } else {
                        assert(plane@[yy * wi + xx] == pl_before[yy * wi + xx]);
                        if xx < 8 * hii && yy < 8 * vi as int {
                            assert((yy / 8) * hii + xx / 8 != nold) by (nonlinear_arith)
                                requires
                                    0 <= yy / 8,
                                    0 <= xx / 8 < hii,
                                    0 <= col_i < hii,
                                    (yy / 8) != row_i || (xx / 8) != col_i,
                                    nold == row_i * hii + col_i,
                            ;
                            if (yy / 8) * hii + xx / 8 < nold {
                                assert(units[(yy / 8) * hii + xx / 8] == units_before[(yy / 8)
                                    * hii + xx / 8]);
                            }
                        }
                    }
                }
            }
            mcu_col = mcu_col + 1;
        }
        proof {
            assert((mcu_row as int + 1) * hi as int == mcu_row as int * hi as int + hi as int)
                by (nonlinear_arith);
        }
        mcu_row = mcu_row + 1;
    }
    proof {
        assert(preds_chain(dct, act, old(bitstream).stream(), bitstream.bit_pos(), cur, 0)
            == Ok::<(i16, int), Error>((cur, bitstream.bit_pos())));
        assert(units + Seq::<Seq<i16>>::empty() =~= units);
        assert(comp_units_spec(dct, act, qseq, old(bitstream).stream(), p_ci, pred0, n_units)
            == Ok::<(Seq<Seq<i16>>, i16, int), Error>((units, cur, bitstream.bit_pos())));
    }
    let ghost pl_units = plane@;
    if hr > 1 || vr > 1 {
        plane = upsample_plane(&plane, mcu_w, mcu_h, hr as usize, vr as usize);
    }
    proof {
        let wi = mcu_w as int;
        let hhi = mcu_h as int;
        let hii = hi as int;
        let vii = vi as int;
        let hri = hr as int;
        let vri = vr as int;
        assert forall|idx: int| 0 <= idx < wi * hhi implies #[trigger] plane@[idx]
            == comp_plane_spec(units, hii, hri, vri, wi, hhi)[idx] by {
            vstd::arithmetic::div_mod::lemma_fundamental_div_mod(idx, wi);
            let yy = idx / wi;
            let xx = idx % wi;
            assert(0 <= xx < wi && 0 <= yy < hhi) by (nonlinear_arith)
                requires
                    wi > 0,
                    0 <= idx < wi * hhi,
                    idx == wi * yy + xx,
                    0 <= xx < wi,
            ;
            assert(yy * wi + xx == idx) by (nonlinear_arith)
                requires
                    idx == wi * yy + xx,
            ;
            let sy = yy / vri;
            let sx = xx / hri;
            assert(0 <= sx < 8 * hii && 0 <= sy < 8 * vii) by (nonlinear_arith)
                requires
                    sx == xx / hri,
                    sy == yy / vri,
                    0 <= xx < wi,
                    0 <= yy < hhi,
                    wi == 8 * hii * hri,
                    hhi == 8 * vii * vri,
                    hri >= 1,
                    vri >= 1,
            ;
            assert((sy / 8) * hii + sx / 8 < vii * hii) by (nonlinear_arith)
                requires
                    0 <= sx < 8 * hii,
                    0 <= sy < 8 * vii,
            ;
            if hr > 1 || vr > 1 {
                assert(plane@[yy * wi + xx] == pl_units[sy * wi + sx]);
                assert(0 <= sy * wi + sx < wi * hhi) by (nonlinear_arith)
                    requires
                        0 <= sx < wi,
                        0 <= sy < hhi,
                        wi > 0,
                ;
                vstd::arithmetic::div_mod::lemma_fundamental_div_mod(sy * wi + sx, wi);
                assert((sy * wi + sx) / wi == sy && (sy * wi + sx) % wi == sx)
                    by (nonlinear_arith)
                    requires
                        0 <= sx < wi,
                        0 <= sy,
                        wi > 0,
                ;
                assert(pl_units[sy * wi + sx] == units[(sy / 8) * hii + sx / 8][8 * (sy % 8) + sx
                    % 8]);
            } else {
                assert(sy == yy && sx == xx) by (nonlinear_arith)
                    requires
                        sy == yy / vri,
                        sx == xx / hri,
                        vri == 1,
                        hri == 1,
                        yy >= 0,
                        xx >= 0,
                ;
                assert(plane@[yy * wi + xx] == units[(yy / 8) * hii + xx / 8][8 * (yy % 8) + xx
                    % 8]);
            }
        }
        assert(plane@ =~= comp_plane_spec(units, hii, hri, vri, wi, hhi));
    }
    Ok((plane, cur))
}

impl<'data> JPEGDecoder<'data> {
    /// Decodes one MCU: for each component in header order, its grid of
    /// data units (entropy decode, dequantize, un-zig-zag, inverse DCT),
    /// then nearest-neighbor upsampling of subsampled planes to the MCU
    /// size.
    #[verifier::rlimit(100)]
    fn decode_block(&mut self, bitstream: &mut Bitstream, header: &HeaderInfo) -> (r: Result<
        Macroblock,
        Error,
    >)
        requires
            old(self).wf(),
            old(self).dc_predictions@.len() == 4,
            old(bitstream).wf(),
            header.wf(),
        ensures
            final(self).wf(),
            final(self).stream() == old(self).stream(),
            final(self).spec_pos() == old(self).spec_pos(),
            final(self).dc_predictions@.len() == 4,
            final(bitstream).wf(),
            final(bitstream).stream() == old(bitstream).stream(),
            match block_preds_spec(
                *header,
                old(bitstream).stream(),
                old(bitstream).bit_pos(),
                old(self).dc_predictions@,
                0,
            ) {
                Ok((preds2, p2)) => {
                    &&& r matches Ok(b) && b.wf(
                        header.mcu_info.mcu_size.0 as int,
                        header.mcu_info.mcu_size.1 as int,
                    )
                    &&& final(self).dc_predictions@ == preds2
                    &&& final(bitstream).bit_pos() == p2
                },
                Err(e) => r matches Err(e2) && same_error(e2, e),
            },
            ({
                let msz = header.mcu_info.mcu_size.0 as int * header.mcu_info.mcu_size.1 as int;
                match block_planes_spec(
                    *header,
                    old(bitstream).stream(),
                    old(bitstream).bit_pos(),
                    old(self).dc_predictions@,
                    (zero_plane_spec(msz), zero_plane_spec(msz), zero_plane_spec(msz)),
                    0,
                ) {
                    Ok((planes, preds3, p3)) => {
                        &&& r matches Ok(b)
                        &&& b.component_spec(1) == planes.0
                        &&& b.component_spec(2) == planes.1
                        &&& b.component_spec(3) == planes.2
                        &&& final(self).dc_predictions@ == preds3
                        &&& final(bitstream).bit_pos() == p3
                    },
                    Err(e) => r matches Err(e2) && same_error(e2, e),
                }
            }),
    {
        let mut block = Macroblock::new(header.mcu_info.max_xy_sampling_factor);
        let hmax = header.mcu_info.max_xy_sampling_factor.0;
        let vmax = header.mcu_info.max_xy_sampling_factor.1;
        let mcu_w = header.mcu_info.mcu_size.0 as usize;
        let mcu_h = header.mcu_info.mcu_size.1 as usize;
        proof {
            assert(header.components@[0].frame == header.frame_info.components@[0]);
            assert(header.components@[1].frame == header.frame_info.components@[1]);
            assert(header.components@[2].frame == header.frame_info.components@[2]);
            assert(hmax <= 4 && vmax <= 4 && hmax >= 1 && vmax >= 1);
            assert(mcu_w * mcu_h <= 1024) by (nonlinear_arith)
                requires
                    mcu_w <= 32,
                    mcu_h <= 32,
            ;
            assert(8 * header.mcu_info.max_xy_sampling_factor.0 as int == mcu_w as int);
            assert(8 * header.mcu_info.max_xy_sampling_factor.1 as int == mcu_h as int);
            assert(64 * header.mcu_info.max_xy_sampling_factor.0 as int
                * header.mcu_info.max_xy_sampling_factor.1 as int == mcu_w as int * (
            mcu_h as int)) by (nonlinear_arith)
                requires
                    mcu_w as int == 8 * header.mcu_info.max_xy_sampling_factor.0 as int,
                    mcu_h as int == 8 * header.mcu_info.max_xy_sampling_factor.1 as int,
            ;
            assert(block.component_spec(1) =~= zero_plane_spec(mcu_w as int * mcu_h as int));
            assert(block.component_spec(2) =~= zero_plane_spec(mcu_w as int * mcu_h as int));
            assert(block.component_spec(3) =~= zero_plane_spec(mcu_w as int * mcu_h as int));
        }
        let mut ci: usize = 0;
        #[verifier::loop_isolation(false)]
        while ci < 3
            invariant
                ci <= 3,
                self.wf(),
                self.stream() == old(self).stream(),
                self.spec_pos() == old(self).spec_pos(),
                self.dc_predictions@.len() == 4,
                bitstream.wf(),
                bitstream.stream() == old(bitstream).stream(),
                block.wf(mcu_w as int, mcu_h as int),
                block_preds_spec(
                    *header,
                    old(bitstream).stream(),
                    old(bitstream).bit_pos(),
                    old(self).dc_predictions@,
                    0,
                ) == block_preds_spec(
                    *header,
                    old(bitstream).stream(),
                    bitstream.bit_pos(),
                    self.dc_predictions@,
                    ci as int,
                ),
                block_planes_spec(
                    *header,
                    old(bitstream).stream(),
                    old(bitstream).bit_pos(),
                    old(self).dc_predictions@,
                    (
                        zero_plane_spec(mcu_w as int * mcu_h as int),
                        zero_plane_spec(mcu_w as int * mcu_h as int),
                        zero_plane_spec(mcu_w as int * mcu_h as int),
                    ),
                    0,
                ) == block_planes_spec(
                    *header,
                    old(bitstream).stream(),
                    bitstream.bit_pos(),
                    self.dc_predictions@,
                    (block.component_spec(1), block.component_spec(2), block.component_spec(3)),
                    ci as int,
                ),
            decreases 3 - ci,
        {
            let ghost preds_ci = self.dc_predictions@;
            let ghost p_ci = bitstream.bit_pos();
            let comp = &header.components[ci];
            let sel = comp.scan.selector;
            let dc_table = match (if comp.scan.dc_table == 0 {
                &header.dc_huff_tables.0
            } else {
                &header.dc_huff_tables.1
            }) {
                Some(t) => t,
                None => {
                    proof {
                        assert(false);
                    }
                    return Err(Error::InternalError("missing table"));
                },
            };
            let ac_table = match (if comp.scan.ac_table == 0 {
                &header.ac_huff_tables.0
            } else {
                &header.ac_huff_tables.1
            }) {
                Some(t) => t,
                None => {
                    proof {
                        assert(false);
                    }
                    return Err(Error::InternalError("missing table"));
                },
            };
            let qtable = match (if comp.frame.qtable_id == 0 {
                &header.quant_tables.0
            } else {
                &header.quant_tables.1
            }) {
                Some(t) => t,
                None => {
                    proof {
                        assert(false);
                    }
                    return Err(Error::InternalError("missing table"));
                },
            };
            proof {
                assert(*dc_table == some_ht(header.dc_table_spec(comp.scan.dc_table as int)));
                assert(*ac_table == some_ht(header.ac_table_spec(comp.scan.ac_table as int)));
                assert(*qtable == some_qt(header.quant_table_spec(comp.frame.qtable_id as int)));
            }
            let ghost qseq = qtable.table@;
            let ghost planes_ci = (
                block.component_spec(1),
                block.component_spec(2),
                block.component_spec(3),
            );
            let ghost mut units: Seq<Seq<i16>> = Seq::empty();
            let hi = comp.frame.xy_sampling_factor.0;
            let vi = comp.frame.xy_sampling_factor.1;
            let ghost dct = *dc_table;
            let ghost act = *ac_table;
            let ghost qseq = qtable.table@;
            let ghost pred0 = self.dc_predictions@[sel as int];
            let ghost n_units = vi as int * hi as int;
            let ghost p_ci2 = bitstream.bit_pos();
            proof {
                assert(hi <= hmax && vi <= vmax);
                assert(hmax % hi == 0 && vmax % vi == 0);
                assert(self.dc_predictions@ =~= preds_ci.update(
                    sel as int,
                    self.dc_predictions@[sel as int],
                ));
            }
            let hr = hmax / hi;
            let vr = vmax / vi;
            proof {
                assert(hmax as int / hi as int >= 1 && vmax as int / vi as int >= 1)
                    by (nonlinear_arith)
                    requires
                        1 <= hi <= hmax,
                        1 <= vi <= vmax,
                ;
                assert(hr as int * hi as int == hmax as int && vr as int * vi as int
                    == vmax as int) by (nonlinear_arith)
                    requires
                        hr == hmax as int / hi as int,
                        vr == vmax as int / vi as int,
                        hmax as int % hi as int == 0,
                        vmax as int % vi as int == 0,
                        hi >= 1,
                        vi >= 1,
                ;
                assert(mcu_w as int == 8 * (hi as int) * (hr as int)) by (nonlinear_arith)
                    requires
                        mcu_w as int == 8 * (hmax as int),
                        hmax as int == hr as int * hi as int,
                ;
                assert(mcu_h as int == 8 * (vi as int) * (vr as int)) by (nonlinear_arith)
                    requires
                        mcu_h as int == 8 * (vmax as int),
                        vmax as int == vr as int * vi as int,
                ;
            }
            let pred = self.dc_predictions[sel as usize];
            let outcome = decode_component(
                bitstream,
                dc_table,
                ac_table,
                qtable,
                hi,
                vi,
                hr,
                vr,
                mcu_w,
                mcu_h,
                pred,
            );
            let (plane, np) = match outcome {
                Ok(u) => u,
                Err(e) => {
                    return Err(e);
                },
            };
            let ghost preds_before = self.dc_predictions@;
            self.dc_predictions[sel as usize] = np;
            proof {
                assert(self.dc_predictions@ == preds_before.update(sel as int, np));
                assert(self.dc_predictions@ =~= preds_ci.update(sel as int, np));
                assert(hr as int == header.hmax_spec() / (hi as int));
                assert(vr as int == header.vmax_spec() / (vi as int));
                match comp_units_spec(dct, act, qseq, old(bitstream).stream(), p_ci, pred0, n_units) {
                    Ok((units_g, np_g, p1_g)) => {
                        assert(plane@ == comp_plane_spec(
                            units_g,
                            hi as int,
                            hr as int,
                            vr as int,
                            mcu_w as int,
                            mcu_h as int,
                        ));
                        assert(np_g == np);
                        assert(p1_g == bitstream.bit_pos());
                    },
                    Err(_) => {
                        assert(false);
                    },
                }
            }
            proof {
                assert(1 <= sel <= 3);
                assert(plane@.len() == mcu_w as int * mcu_h as int);
            }
            let ghost b0 = block;
            block.set_component(sel, plane);
            proof {
                assert(block.component_spec(sel as int).len() == mcu_w as int * mcu_h as int);
                if sel != 1 {
                    assert(block.component_spec(1) == b0.component_spec(1));
                }
                if sel != 2 {
                    assert(block.component_spec(2) == b0.component_spec(2));
                }
                if sel != 3 {
                    assert(block.component_spec(3) == b0.component_spec(3));
                }
                assert(block.wf(mcu_w as int, mcu_h as int));
                assert(block_planes_spec(
                    *header,
                    old(bitstream).stream(),
                    p_ci,
                    preds_ci,
                    planes_ci,
                    ci as int,
                ) == block_planes_spec(
                    *header,
                    old(bitstream).stream(),
                    bitstream.bit_pos(),
                    self.dc_predictions@,
                    (block.component_spec(1), block.component_spec(2), block.component_spec(3)),
                    ci as int + 1,
                ));
            }
            ci = ci + 1;
        }
        Ok(block)
    }

    /// Assembles the output bitmap: for every unpadded image pixel, reads
    /// the three component samples from its macroblock and converts them
    /// to interleaved RGB bytes.
    fn blocks_to_bitmap(blocks: &Vec<Macroblock>, header: &HeaderInfo) -> (r: Bitmap)
        requires
            header.wf(),
            blocks@.len() == header.mcu_info.mcu_padded_dimensions.0 as int
                * header.mcu_info.mcu_padded_dimensions.1 as int,
            forall|i: int|
                0 <= i < blocks@.len() ==> (#[trigger] blocks@[i]).wf(
                    header.mcu_info.mcu_size.0 as int,
                    header.mcu_info.mcu_size.1 as int,
                ),
        ensures
            r.channels == 3,
            r.size == header.frame_info.image_size,
            r.data@.len() == 3 * header.frame_info.image_size.0 as int
                * header.frame_info.image_size.1 as int,
            forall|x: int, y: int|
                #![trigger r.data@[3 * (y * header.frame_info.image_size.0 as int + x)]]
                0 <= x < header.frame_info.image_size.0 as int && 0 <= y
                    < header.frame_info.image_size.1 as int ==> {
                    let w = header.frame_info.image_size.0 as int;
                    let px = pixel_rgb(blocks@, *header, x, y);
                    &&& r.data@[3 * (y * w + x)] as int == px.0
                    &&& r.data@[3 * (y * w + x) + 1] as int == px.1
                    &&& r.data@[3 * (y * w + x) + 2] as int == px.2
                },
    {
        let width = header.frame_info.image_size.0;
        let height = header.frame_info.image_size.1;
        let ghost w = width as int;
        let mcu_w = header.mcu_info.mcu_size.0 as u16;
        let mcu_h = header.mcu_info.mcu_size.1 as u16;
        proof {
            assert(header.components@[0].frame == header.frame_info.components@[0]);
            assert(header.components@[1].frame == header.frame_info.components@[1]);
            assert(header.components@[2].frame == header.frame_info.components@[2]);
            assert(8 <= mcu_w <= 32 && 8 <= mcu_h <= 32);
        }
        let pd0 = header.mcu_info.mcu_padded_dimensions.0 as usize;
        let mut data: Vec<u8> = Vec::new();
        let mut y: u16 = 0;
        #[verifier::loop_isolation(false)]
        while y < height
            invariant
                y <= height,
                data@.len() == 3 * ((y as int) * w),
                forall|x2: int, y2: int|
                    #![trigger data@[3 * (y2 * w + x2)]]
                    0 <= x2 < w && 0 <= y2 < y ==> {
                        let px = pixel_rgb(blocks@, *header, x2, y2);
                        &&& data@[3 * (y2 * w + x2)] as int == px.0
                        &&& data@[3 * (y2 * w + x2) + 1] as int == px.1
                        &&& data@[3 * (y2 * w + x2) + 2] as int == px.2
                    },
            decreases height - y,
        {
            let mut x: u16 = 0;
            #[verifier::loop_isolation(false)]
            while x < width
                invariant
                    x <= width,
                    y < height,
                    data@.len() == 3 * ((y as int) * w + x as int),
                    forall|x2: int, y2: int|
                        #![trigger data@[3 * (y2 * w + x2)]]
                        0 <= x2 < w && 0 <= y2 < y ==> {
                            let px = pixel_rgb(blocks@, *header, x2, y2);
                            &&& data@[3 * (y2 * w + x2)] as int == px.0
                            &&& data@[3 * (y2 * w + x2) + 1] as int == px.1
                            &&& data@[3 * (y2 * w + x2) + 2] as int == px.2
                        },
                    forall|x2: int|
                        #![trigger data@[3 * ((y as int) * w + x2)]]
                        0 <= x2 < x ==> {
                            let px = pixel_rgb(blocks@, *header, x2, y as int);
                            &&& data@[3 * ((y as int) * w + x2)] as int == px.0
                            &&& data@[3 * ((y as int) * w + x2) + 1] as int == px.1
                            &&& data@[3 * ((y as int) * w + x2) + 2] as int == px.2
                        },
                decreases width - x,
            {
                let block_y = (y / mcu_h) as usize;
                let block_x = (x / mcu_w) as usize;
                let pixel_y = (y % mcu_h) as usize;
                let pixel_x = (x % mcu_w) as usize;
                proof {
                    let pd0i = header.mcu_info.mcu_padded_dimensions.0 as int;
                    let pd1i = header.mcu_info.mcu_padded_dimensions.1 as int;
                    assert(block_y < pd1i && block_x < pd0i) by (nonlinear_arith)
                        requires
                            block_y == y as int / mcu_h as int,
                            block_x == x as int / mcu_w as int,
                            y < height,
                            x < width,
                            height <= pd1i * mcu_h as int,
                            width <= pd0i * mcu_w as int,
                            mcu_h > 0,
                            mcu_w > 0,
                    ;
                    assert(block_y * pd0i + block_x < pd1i * pd0i && 0 <= block_y * pd0i
                        + block_x && block_y * pd0i + block_x < 0x100000000) by (nonlinear_arith)
                        requires
                            0 <= block_y < pd1i,
                            0 <= block_x < pd0i,
                            pd1i <= 0xFFFF,
                            pd0i <= 0xFFFF,
                    ;
                    assert(pd1i * pd0i == pd0i * pd1i) by (nonlinear_arith);
                    assert(pixel_y * mcu_w as int + pixel_x < mcu_w as int * mcu_h as int && 0
                        <= pixel_y * mcu_w as int + pixel_x && pixel_y * mcu_w as int + pixel_x
                        <= 1024) by (nonlinear_arith)
                        requires
                            0 <= pixel_y < mcu_h as int,
                            0 <= pixel_x < mcu_w as int,
                            mcu_w <= 32,
                            mcu_h <= 32,
                    ;
                }
                let bi = block_y * pd0 + block_x;
                let pi = pixel_y * (mcu_w as usize) + pixel_x;
                let mb = &blocks[bi];
                let yv = mb.get_component(1)[pi];
                let cb = mb.get_component(2)[pi];
                let cr = mb.get_component(3)[pi];
                let rgb = ycbcr_to_rgb((yv, cb, cr));
                let ghost d0 = data@;
                data.push(rgb.0);
                data.push(rgb.1);
                data.push(rgb.2);
                proof {
                    let xi = x as int;
                    let yi = y as int;
                    assert(yv == sample_at(blocks@, *header, 1, xi, yi));
                    assert(cb == sample_at(blocks@, *header, 2, xi, yi));
                    assert(cr == sample_at(blocks@, *header, 3, xi, yi));
                    assert forall|x2: int, y2: int|
                        #![trigger data@[3 * (y2 * w + x2)]]
                        0 <= x2 < w && 0 <= y2 < yi implies {
                        let px = pixel_rgb(blocks@, *header, x2, y2);
                        &&& data@[3 * (y2 * w + x2)] as int == px.0
                        &&& data@[3 * (y2 * w + x2) + 1] as int == px.1
                        &&& data@[3 * (y2 * w + x2) + 2] as int == px.2
                    } by {
                        assert(0 <= 3 * (y2 * w + x2) && 3 * (y2 * w + x2) + 2 < d0.len())
                            by (nonlinear_arith)
                            requires
                                0 <= x2 < w,
                                0 <= y2 < yi,
                                d0.len() == 3 * (yi * w + xi),
                                0 <= xi,
                        ;
                        assert(data@[3 * (y2 * w + x2)] == d0[3 * (y2 * w + x2)]);
                        assert(data@[3 * (y2 * w + x2) + 1] == d0[3 * (y2 * w + x2) + 1]);
                        assert(data@[3 * (y2 * w + x2) + 2] == d0[3 * (y2 * w + x2) + 2]);
                    }
                    assert forall|x2: int|
                        #![trigger data@[3 * (yi * w + x2)]]
                        0 <= x2 < xi + 1 implies {
                        let px = pixel_rgb(blocks@, *header, x2, yi);
                        &&& data@[3 * (yi * w + x2)] as int == px.0
                        &&& data@[3 * (yi * w + x2) + 1] as int == px.1
                        &&& data@[3 * (yi * w + x2) + 2] as int == px.2
                    } by {
                        if x2 < xi {
                            assert(0 <= 3 * (yi * w + x2) && 3 * (yi * w + x2) + 2 < d0.len());
                            assert(data@[3 * (yi * w + x2)] == d0[3 * (yi * w + x2)]);
                            assert(data@[3 * (yi * w + x2) + 1] == d0[3 * (yi * w + x2) + 1]);
                            assert(data@[3 * (yi * w + x2) + 2] == d0[3 * (yi * w + x2) + 2]);
                        } else {
                            assert(3 * (yi * w + x2) == d0.len());
                        }
                    }
                }
                x = x + 1;
            }
            proof {
                assert(3 * (((y as int) + 1) * w) == 3 * ((y as int) * w + (w as int)))
                    by (nonlinear_arith);
            }
            y = y + 1;
        }
        proof {
            assert(3 * header.frame_info.image_size.0 as int
                * header.frame_info.image_size.1 as int == 3 * ((height as int) * w))
                by (nonlinear_arith)
                requires
                    w == header.frame_info.image_size.0 as int,
                    height as int == header.frame_info.image_size.1 as int,
            ;
        }
        Bitmap { channels: 3, size: (width, height), data }
    }

    /// Decodes the entropy-coded scan into a bitmap: extracts and unstuffs
    /// the scan data, decodes every MCU of the padded grid in row-major
    /// order, and assembles the unpadded image. On success the bitmap has
    /// three channels, the frame's unpadded size, and one byte per channel
    /// and pixel.
    pub fn read_scan(&mut self, header: &HeaderInfo) -> (r: Result<Bitmap, Error>)
        requires
            old(self).wf(),
            header.wf(),
        ensures
            final(self).wf(),
            final(self).stream() == old(self).stream(),
            match unstuff(old(self).stream(), old(self).spec_pos()) {
                Err(e) => r matches Err(e2) && same_error(e2, e),
                Ok((payload, epos)) => match grid_preds_spec(
                    *header,
                    payload,
                    0,
                    zero_preds(),
                    header.mcu_info.mcu_padded_dimensions.0 as int
                        * header.mcu_info.mcu_padded_dimensions.1 as int,
                ) {
                    Err(e) => r matches Err(e2) && same_error(e2, e),
                    Ok((pf, pend)) => {
                        &&& r matches Ok(bmp)
                        &&& bmp.channels == 3
                        &&& bmp.size == header.frame_info.image_size
                        &&& bmp.wf()
                    },
                },
            },
            match unstuff(old(self).stream(), old(self).spec_pos()) {
                Err(_) => true,
                Ok((payload, epos)) => match grid_blocks_spec(
                    *header,
                    payload,
                    0,
                    zero_preds(),
                    header.mcu_info.mcu_padded_dimensions.0 as int
                        * header.mcu_info.mcu_padded_dimensions.1 as int,
                ) {
                    Err(e) => r matches Err(e2) && same_error(e2, e),
                    Ok((pbs, pf, pend)) => {
                        &&& r matches Ok(bmp)
                        &&& forall|x: int, y: int|
                            #![trigger bmp.data@[3 * (y * header.frame_info.image_size.0 as int + x)]]
                            0 <= x < header.frame_info.image_size.0 as int && 0 <= y
                                < header.frame_info.image_size.1 as int ==> {
                                let w = header.frame_info.image_size.0 as int;
                                let px = rgb_of(
                                    chain_sample(pbs, *header, 1, x, y) as int,
                                    chain_sample(pbs, *header, 2, x, y) as int,
                                    chain_sample(pbs, *header, 3, x, y) as int,
                                );
                                &&& bmp.data@[3 * (y * w + x)] as int == px.0
                                &&& bmp.data@[3 * (y * w + x) + 1] as int == px.1
                                &&& bmp.data@[3 * (y * w + x) + 2] as int == px.2
                            }
                    },
                },
            },
    {
        let huffman_data = match self.read_huffman_data() {
            Ok(v) => v,
            Err(e) => {
                return Err(e);
            },
        };
        let mut bitstream = Bitstream::new(huffman_data.as_slice());
        self.dc_predictions = zero_plane(4);
        proof {
            assert(self.dc_predictions@ =~= zero_preds());
        }
        let pd0 = header.mcu_info.mcu_padded_dimensions.0;
        let pd1 = header.mcu_info.mcu_padded_dimensions.1;
        let ghost payload = huffman_data@;
        let ghost total = pd0 as int * pd1 as int;
        proof {
            let p0i = pd0 as int;
            let p1i = pd1 as int;
            assert(p0i * p1i == p1i * p0i) by (nonlinear_arith);
        }
        let mut blocks: Vec<Macroblock> = Vec::new();
        let ghost mut pblocks: Seq<(Seq<i16>, Seq<i16>, Seq<i16>)> = Seq::empty();
        let mut vert: u16 = 0;
        #[verifier::loop_isolation(false)]
        while vert < pd1
            invariant
                vert <= pd1,
                self.wf(),
                self.stream() == old(self).stream(),
                self.dc_predictions@.len() == 4,
                bitstream.wf(),
                bitstream.stream() == payload,
                grid_preds_spec(*header, payload, 0, zero_preds(), total) == grid_preds_spec(
                    *header,
                    payload,
                    bitstream.bit_pos(),
                    self.dc_predictions@,
                    total - vert as int * pd0 as int,
                ),
                pblocks.len() == blocks@.len(),
                grid_blocks_spec(*header, payload, 0, zero_preds(), total) == blocks_prepend(
                    pblocks,
                    grid_blocks_spec(
                        *header,
                        payload,
                        bitstream.bit_pos(),
                        self.dc_predictions@,
                        total - vert as int * pd0 as int,
                    ),
                ),
                forall|i: int|
                    0 <= i < blocks@.len() ==> #[trigger] blocks@[i].component_spec(1)
                        == pblocks[i].0 && blocks@[i].component_spec(2) == pblocks[i].1
                        && blocks@[i].component_spec(3) == pblocks[i].2,
                blocks@.len() == vert as int * pd0 as int,
                forall|i: int|
                    0 <= i < blocks@.len() ==> (#[trigger] blocks@[i]).wf(
                        header.mcu_info.mcu_size.0 as int,
                        header.mcu_info.mcu_size.1 as int,
                    ),
            decreases pd1 - vert,
        {
            let mut horiz: u16 = 0;
            #[verifier::loop_isolation(false)]
            while horiz < pd0
                invariant
                    horiz <= pd0,
                    vert < pd1,
                    self.wf(),
                    self.stream() == old(self).stream(),
                    self.dc_predictions@.len() == 4,
                    bitstream.wf(),
                    bitstream.stream() == payload,
                    grid_preds_spec(*header, payload, 0, zero_preds(), total)
                        == grid_preds_spec(
                        *header,
                        payload,
                        bitstream.bit_pos(),
                        self.dc_predictions@,
                        total - (vert as int * pd0 as int + horiz as int),
                    ),
                    pblocks.len() == blocks@.len(),
                    grid_blocks_spec(*header, payload, 0, zero_preds(), total) == blocks_prepend(
                        pblocks,
                        grid_blocks_spec(
                            *header,
                            payload,
                            bitstream.bit_pos(),
                            self.dc_predictions@,
                            total - (vert as int * pd0 as int + horiz as int),
                        ),
                    ),
                    forall|i: int|
                        0 <= i < blocks@.len() ==> #[trigger] blocks@[i].component_spec(1)
                            == pblocks[i].0 && blocks@[i].component_spec(2) == pblocks[i].1
                            && blocks@[i].component_spec(3) == pblocks[i].2,
                    blocks@.len() == vert as int * pd0 as int + horiz as int,
                    forall|i: int|
                        0 <= i < blocks@.len() ==> (#[trigger] blocks@[i]).wf(
                            header.mcu_info.mcu_size.0 as int,
                            header.mcu_info.mcu_size.1 as int,
                        ),
                decreases pd0 - horiz,
            {
                proof {
                    let vi2 = vert as int;
                    let hi2 = horiz as int;
                    let p0i = pd0 as int;
                    let p1i = pd1 as int;
                    assert(vi2 * p0i + hi2 + 1 <= 0x100000000 && vi2 * p0i + hi2 < total)
                        by (nonlinear_arith)
                        requires
                            0 <= vi2 < p1i <= 0xFFFF,
                            0 <= p0i <= 0xFFFF,
                            0 <= hi2 < p0i,
                            total == p0i * p1i,
                    ;
                }
                let ghost p_blk = bitstream.bit_pos();
                let ghost preds_blk = self.dc_predictions@;
                let b = match self.decode_block(&mut bitstream, header) {
                    Ok(b) => b,
                    Err(e) => {
                        return Err(e);
                    },
                };
                proof {
                    match block_planes_spec(
                        *header,
                        payload,
                        p_blk,
                        preds_blk,
                        (
                            zero_plane_spec(
                                header.mcu_info.mcu_size.0 as int
                                    * header.mcu_info.mcu_size.1 as int,
                            ),
                            zero_plane_spec(
                                header.mcu_info.mcu_size.0 as int
                                    * header.mcu_info.mcu_size.1 as int,
                            ),
                            zero_plane_spec(
                                header.mcu_info.mcu_size.0 as int
                                    * header.mcu_info.mcu_size.1 as int,
                            ),
                        ),
                        0,
                    ) {
                        Ok((planes, preds2, p2)) => {
                            assert(b.component_spec(1) == planes.0);
                            assert(b.component_spec(2) == planes.1);
                            assert(b.component_spec(3) == planes.2);
                            lemma_blocks_prepend_assoc(
                                pblocks,
                                planes,
                                grid_blocks_spec(*header, payload, p2, preds2, total - (
                                vert as int * pd0 as int + horiz as int) - 1),
                            );
                            pblocks = pblocks.push(planes);
                        },
                        Err(_) => {
                            assert(false);
                        },
                    }
                }
                let ghost blocks0 = blocks@;
                blocks.push(b);
                proof {
                    assert forall|i: int| 0 <= i < blocks@.len() implies #[trigger] blocks@[
                        i
                    ].component_spec(1) == pblocks[i].0 && blocks@[i].component_spec(2)
                        == pblocks[i].1 && blocks@[i].component_spec(3) == pblocks[i].2 by {
                        if i < blocks0.len() {
                            assert(blocks@[i] == blocks0[i]);
                        }
                    }
                }
                horiz = horiz + 1;
            }
            proof {
                assert((vert as int + 1) * pd0 as int == vert as int * pd0 as int + pd0 as int)
                    by (nonlinear_arith);
            }
            vert = vert + 1;
        }
        proof {
            assert(pd1 as int * pd0 as int == pd0 as int * pd1 as int) by (nonlinear_arith);
        }
        proof {
            assert(pblocks + Seq::<(Seq<i16>, Seq<i16>, Seq<i16>)>::empty() =~= pblocks);
            assert(grid_blocks_spec(*header, payload, 0, zero_preds(), total) == Ok::<
                (Seq<(Seq<i16>, Seq<i16>, Seq<i16>)>, Seq<i16>, int),
                Error,
            >((pblocks, self.dc_predictions@, bitstream.bit_pos())));
        }
        let bmp = Self::blocks_to_bitmap(&blocks, header);
        proof {
            assert(bmp.data@.len() == bmp.size.0 as int * bmp.size.1 as int * 3)
                by (nonlinear_arith)
                requires
                    bmp.data@.len() == 3 * bmp.size.0 as int * bmp.size.1 as int,
            ;
            let wd = header.frame_info.image_size.0 as int;
            let ht = header.frame_info.image_size.1 as int;
            let mw = header.mcu_info.mcu_size.0 as int;
            let mh = header.mcu_info.mcu_size.1 as int;
            let p0i = pd0 as int;
            let p1i = pd1 as int;
            assert forall|x: int, y: int|
                #![trigger bmp.data@[3 * (y * wd + x)]]
                0 <= x < wd && 0 <= y < ht implies {
                let px = rgb_of(
                    chain_sample(pblocks, *header, 1, x, y) as int,
                    chain_sample(pblocks, *header, 2, x, y) as int,
                    chain_sample(pblocks, *header, 3, x, y) as int,
                );
                &&& bmp.data@[3 * (y * wd + x)] as int == px.0
                &&& bmp.data@[3 * (y * wd + x) + 1] as int == px.1
                &&& bmp.data@[3 * (y * wd + x) + 2] as int == px.2
            } by {
                let bi = (y / mh) * p0i + x / mw;
                assert(y / mh < p1i && x / mw < p0i) by (nonlinear_arith)
                    requires
                        0 <= y < ht,
                        0 <= x < wd,
                        ht <= p1i * mh,
                        wd <= p0i * mw,
                        mh > 0,
                        mw > 0,
                ;
                assert(0 <= bi < p1i * p0i) by (nonlinear_arith)
                    requires
                        bi == (y / mh) * p0i + x / mw,
                        0 <= y / mh < p1i,
                        0 <= x / mw < p0i,
                ;
                assert(p1i * p0i == p0i * p1i) by (nonlinear_arith);
                assert(blocks@[bi].component_spec(1) == pblocks[bi].0);
                assert(blocks@[bi].component_spec(2) == pblocks[bi].1);
                assert(blocks@[bi].component_spec(3) == pblocks[bi].2);
                assert(chain_sample(pblocks, *header, 1, x, y) == sample_at(
                    blocks@,
                    *header,
                    1,
                    x,
                    y,
                ));
                assert(chain_sample(pblocks, *header, 2, x, y) == sample_at(
                    blocks@,
                    *header,
                    2,
                    x,
                    y,
                ));
                assert(chain_sample(pblocks, *header, 3, x, y) == sample_at(
                    blocks@,
                    *header,
                    3,
                    x,
                    y,
                ));
            }
        }
        Ok(bmp)
    }
}

} // verus!
