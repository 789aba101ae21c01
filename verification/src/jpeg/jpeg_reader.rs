//! Byte-level reader over a JPEG stream: big-endian reads, marker
//! recognition with marker-fill tolerance, and segment skipping.

use crate::error::{same_error, Error};
use vstd::prelude::*;

verus! {

/// Identifies a JPEG segment. Each marker stands for the 16-bit big-endian
/// word `0xFFxx` given by [`marker_of`].
#[allow(non_camel_case_types)]
#[derive(PartialEq, Eq, Structural, Debug, Clone, Copy)]
pub enum JPEGMarker {
    APP0,
    APP1,
    APP2,
    APP3,
    APP4,
    APP5,
    APP6,
    APP7,
    APP8,
    APP9,
    APP10,
    APP11,
    APP12,
    APP13,
    APP14,
    APP15,
    RESERVED1,
    RESERVED2,
    RESERVED3,
    RESERVED4,
    RESERVED5,
    RESERVED6,
    RESERVED7,
    RESERVED8,
    RESERVED9,
    RESERVED10,
    RESERVED11,
    RESERVED12,
    RESERVED13,
    RST0,
    RST1,
    RST2,
    RST3,
    RST4,
    RST5,
    RST6,
    RST7,
    DHP,
    EXP,
    DHT,
    DQT,
    EOI,
    RST,
    SOF0,
    SOI,
    SOS,
    COM,
}

/// The marker identified by a 16-bit word, or `None` when the word is not a
/// recognized marker value.
pub open spec fn marker_of(w: int) -> Option<JPEGMarker> {
    if w == 0xFFE0 {
        Some(JPEGMarker::APP0)
    } else if w == 0xFFE1 {
        Some(JPEGMarker::APP1)
    } else if w == 0xFFE2 {
        Some(JPEGMarker::APP2)
    } else if w == 0xFFE3 {
        Some(JPEGMarker::APP3)
    } else if w == 0xFFE4 {
        Some(JPEGMarker::APP4)
    } else if w == 0xFFE5 {
        Some(JPEGMarker::APP5)
    } else if w == 0xFFE6 {
        Some(JPEGMarker::APP6)
    } else if w == 0xFFE7 {
        Some(JPEGMarker::APP7)
    } else if w == 0xFFE8 {
        Some(JPEGMarker::APP8)
    } else if w == 0xFFE9 {
        Some(JPEGMarker::APP9)
    } else if w == 0xFFEA {
        Some(JPEGMarker::APP10)
    } else if w == 0xFFEB {
        Some(JPEGMarker::APP11)
    } else if w == 0xFFEC {
        Some(JPEGMarker::APP12)
    } else if w == 0xFFED {
        Some(JPEGMarker::APP13)
    } else if w == 0xFFEE {
        Some(JPEGMarker::APP14)
    } else if w == 0xFFEF {
        Some(JPEGMarker::APP15)
    } else if w == 0xFF01 {
        Some(JPEGMarker::RESERVED1)
    } else if w == 0xFF02 {
        Some(JPEGMarker::RESERVED2)
    } else if w == 0xFF03 {
        Some(JPEGMarker::RESERVED3)
    } else if w == 0xFF04 {
        Some(JPEGMarker::RESERVED4)
    } else if w == 0xFF05 {
        Some(JPEGMarker::RESERVED5)
    } else if w == 0xFF06 {
        Some(JPEGMarker::RESERVED6)
    } else if w == 0xFF07 {
        Some(JPEGMarker::RESERVED7)
    } else if w == 0xFF08 {
        Some(JPEGMarker::RESERVED8)
    } else if w == 0xFF09 {
        Some(JPEGMarker::RESERVED9)
    } else if w == 0xFF0A {
        Some(JPEGMarker::RESERVED10)
    } else if w == 0xFF0B {
        Some(JPEGMarker::RESERVED11)
    } else if w == 0xFF0C {
        Some(JPEGMarker::RESERVED12)
    } else if w == 0xFF0D {
        Some(JPEGMarker::RESERVED13)
    } else if w == 0xFFD0 {
        Some(JPEGMarker::RST0)
    } else if w == 0xFFD1 {
        Some(JPEGMarker::RST1)
    } else if w == 0xFFD2 {
        Some(JPEGMarker::RST2)
    } else if w == 0xFFD3 {
        Some(JPEGMarker::RST3)
    } else if w == 0xFFD4 {
        Some(JPEGMarker::RST4)
    } else if w == 0xFFD5 {
        Some(JPEGMarker::RST5)
    } else if w == 0xFFD6 {
        Some(JPEGMarker::RST6)
    } else if w == 0xFFD7 {
        Some(JPEGMarker::RST7)
    } else if w == 0xFFDE {
        Some(JPEGMarker::DHP)
    } else if w == 0xFFDF {
        Some(JPEGMarker::EXP)
    } else if w == 0xFFC4 {
        Some(JPEGMarker::DHT)
    } else if w == 0xFFDB {
        Some(JPEGMarker::DQT)
    } else if w == 0xFFD9 {
        Some(JPEGMarker::EOI)
    } else if w == 0xFFDD {
        Some(JPEGMarker::RST)
    } else if w == 0xFFC0 {
        Some(JPEGMarker::SOF0)
    } else if w == 0xFFD8 {
        Some(JPEGMarker::SOI)
    } else if w == 0xFFDA {
        Some(JPEGMarker::SOS)
    } else if w == 0xFFFE {
        Some(JPEGMarker::COM)
    } else {
        None
    }
}

/// The big-endian 16-bit word formed by the two bytes of `s` at `p`.
pub open spec fn word_at(s: Seq<u8>, p: int) -> int
    recommends
        0 <= p,
        p + 2 <= s.len(),
{
    s[p] as int * 256 + s[p + 1] as int
}

/// The marker found by scanning past marker-fill `0xFF` bytes starting at
/// `p`, together with the position just after it; mirrors the tail of
/// [`JPEGParser::read_next_marker`] after an initial `0xFFFF` word.
pub open spec fn fill_marker_spec(s: Seq<u8>, p: int) -> Result<(JPEGMarker, int), Error>
    decreases s.len() - p,
{
    if p < 0 || p >= s.len() {
        Err(Error::Malformed("unexpected end of input"))
    } else if s[p] == 0xFF {
        fill_marker_spec(s, p + 1)
    } else if s[p] == 0x00 {
        Err(Error::Malformed("invalid JPEG file"))
    } else {
        match marker_of(0xFF00 + s[p] as int) {
            Some(m) => Ok((m, p + 1)),
            None => Err(Error::UnsupportedFeature("unrecognized marker")),
        }
    }
}

/// The next marker in `s` at position `p` and the position just after it:
/// a recognized `0xFFxx` word is returned, extra `0xFF` fill bytes are
/// skipped, a word without a leading `0xFF` or a `0xFF 0x00` pair is
/// malformed, and an unrecognized `0xFFxx` word is unsupported.
pub open spec fn next_marker_spec(s: Seq<u8>, p: int) -> Result<(JPEGMarker, int), Error> {
    if p < 0 || p + 2 > s.len() {
        Err(Error::Malformed("unexpected end of input"))
    } else {
        let hi = s[p] as int;
        let lo = s[p + 1] as int;
        match marker_of(hi * 256 + lo) {
            Some(m) => Ok((m, p + 2)),
            None => if hi != 0xFF {
                Err(Error::Malformed("invalid JPEG file"))
            } else if lo == 0xFF {
                fill_marker_spec(s, p + 2)
            } else if lo == 0x00 {
                Err(Error::Malformed("invalid JPEG file"))
            } else {
                Err(Error::UnsupportedFeature("unrecognized marker"))
            },
        }
    }
}

/// Cursor over a borrowed JPEG byte stream.
pub struct JPEGParser<'data> {
    data: &'data [u8],
    pos: usize,
}

impl<'data> JPEGParser<'data> {
    /// The bytes the parser reads from.
    pub closed spec fn stream(&self) -> Seq<u8> {
        self.data@
    }

    /// The current byte offset into the stream.
    pub closed spec fn spec_pos(&self) -> int {
        self.pos as int
    }

    /// The cursor never moves past the end of the stream.
    pub closed spec fn wf(&self) -> bool {
        self.pos <= self.data@.len()
    }

    /// Creates a parser positioned at the start of `data`.
    pub fn new(data: &'data [u8]) -> (r: Self)
        ensures
            r.wf(),
            r.stream() == data@,
            r.spec_pos() == 0,
    {
        Self { data, pos: 0 }
    }

    /// Current byte offset.
    pub fn position(&self) -> (r: usize)
        ensures
            r as int == self.spec_pos(),
    {
        self.pos
    }

    /// Reads one byte and advances; fails when the stream is exhausted.
    pub fn read_next_byte(&mut self) -> (r: Result<u8, Error>)
        requires
            old(self).wf(),
        ensures
            final(self).wf(),
            final(self).stream() == old(self).stream(),
            old(self).spec_pos() < old(self).stream().len() ==> {
                &&& r == Ok::<u8, Error>(old(self).stream()[old(self).spec_pos()])
                &&& final(self).spec_pos() == old(self).spec_pos() + 1
            },
            old(self).spec_pos() >= old(self).stream().len() ==> {
                &&& r matches Err(e) && same_error(e, Error::Malformed("unexpected end of input"))
                &&& final(self).spec_pos() == old(self).spec_pos()
            },
    {
        if self.pos < self.data.len() {
            let b = self.data[self.pos];
            self.pos = self.pos + 1;
            Ok(b)
        } else {
            Err(Error::Malformed("unexpected end of input"))
        }
    }

    /// Reads a big-endian 16-bit word and advances by two bytes; fails when
    /// fewer than two bytes remain.
    pub fn read_next_word(&mut self) -> (r: Result<u16, Error>)
        requires
            old(self).wf(),
        ensures
            final(self).wf(),
            final(self).stream() == old(self).stream(),
            old(self).spec_pos() + 2 <= old(self).stream().len() ==> {
                &&& r matches Ok(w) && w as int == word_at(old(self).stream(), old(self).spec_pos())
                &&& final(self).spec_pos() == old(self).spec_pos() + 2
            },
            old(self).spec_pos() + 2 > old(self).stream().len() ==> {
                &&& r matches Err(e) && same_error(e, Error::Malformed("unexpected end of input"))
                &&& final(self).spec_pos() == old(self).spec_pos()
            },
    {
        if self.data.len() - self.pos >= 2 {
            let b0 = self.data[self.pos];
            let b1 = self.data[self.pos + 1];
            self.pos = self.pos + 2;
            Ok((b0 as u16) * 256 + (b1 as u16))
        } else {
            Err(Error::Malformed("unexpected end of input"))
        }
    }

    /// Classifies a 16-bit word as a marker. An unrecognized `0xFFxx` word
    /// (other than `0xFF00` and `0xFFFF`) is an unsupported feature; any
    /// other unrecognized word is malformed.
    pub fn to_marker(word: u16) -> (r: Result<JPEGMarker, Error>)
        ensures
            match marker_of(word as int) {
                Some(m) => r == Ok::<JPEGMarker, Error>(m),
                None => {
                    &&& r matches Err(e)
                    &&& if word as int / 256 == 0xFF && word as int % 256 != 0x00 && word as int
                        % 256 != 0xFF {
                        same_error(e, Error::UnsupportedFeature("unrecognized marker"))
                    } else {
                        same_error(e, Error::Malformed("invalid JPEG file"))
                    }
                },
            },
    {
        let r = match word {
            0xFFE0 => Ok(JPEGMarker::APP0),
            0xFFE1 => Ok(JPEGMarker::APP1),
            0xFFE2 => Ok(JPEGMarker::APP2),
            0xFFE3 => Ok(JPEGMarker::APP3),
            0xFFE4 => Ok(JPEGMarker::APP4),
            0xFFE5 => Ok(JPEGMarker::APP5),
            0xFFE6 => Ok(JPEGMarker::APP6),
            0xFFE7 => Ok(JPEGMarker::APP7),
            0xFFE8 => Ok(JPEGMarker::APP8),
            0xFFE9 => Ok(JPEGMarker::APP9),
            0xFFEA => Ok(JPEGMarker::APP10),
            0xFFEB => Ok(JPEGMarker::APP11),
            0xFFEC => Ok(JPEGMarker::APP12),
            0xFFED => Ok(JPEGMarker::APP13),
            0xFFEE => Ok(JPEGMarker::APP14),
            0xFFEF => Ok(JPEGMarker::APP15),
            0xFF01 => Ok(JPEGMarker::RESERVED1),
            0xFF02 => Ok(JPEGMarker::RESERVED2),
            0xFF03 => Ok(JPEGMarker::RESERVED3),
            0xFF04 => Ok(JPEGMarker::RESERVED4),
            0xFF05 => Ok(JPEGMarker::RESERVED5),
            0xFF06 => Ok(JPEGMarker::RESERVED6),
            0xFF07 => Ok(JPEGMarker::RESERVED7),
            0xFF08 => Ok(JPEGMarker::RESERVED8),
            0xFF09 => Ok(JPEGMarker::RESERVED9),
            0xFF0A => Ok(JPEGMarker::RESERVED10),
            0xFF0B => Ok(JPEGMarker::RESERVED11),
            0xFF0C => Ok(JPEGMarker::RESERVED12),
            0xFF0D => Ok(JPEGMarker::RESERVED13),
            0xFFD0 => Ok(JPEGMarker::RST0),
            0xFFD1 => Ok(JPEGMarker::RST1),
            0xFFD2 => Ok(JPEGMarker::RST2),
            0xFFD3 => Ok(JPEGMarker::RST3),
            0xFFD4 => Ok(JPEGMarker::RST4),
            0xFFD5 => Ok(JPEGMarker::RST5),
            0xFFD6 => Ok(JPEGMarker::RST6),
            0xFFD7 => Ok(JPEGMarker::RST7),
            0xFFDE => Ok(JPEGMarker::DHP),
            0xFFDF => Ok(JPEGMarker::EXP),
            0xFFC4 => Ok(JPEGMarker::DHT),
            0xFFDB => Ok(JPEGMarker::DQT),
            0xFFD9 => Ok(JPEGMarker::EOI),
            0xFFDD => Ok(JPEGMarker::RST),
            0xFFC0 => Ok(JPEGMarker::SOF0),
            0xFFD8 => Ok(JPEGMarker::SOI),
            0xFFDA => Ok(JPEGMarker::SOS),
            0xFFFE => Ok(JPEGMarker::COM),
            _ => {
                if word / 256 == 0xFF && word % 256 != 0x00 && word % 256 != 0xFF {
                    Err(Error::UnsupportedFeature("unrecognized marker"))
                } else {
                    Err(Error::Malformed("invalid JPEG file"))
                }
            },
        };
        r
    }

    /// Reads the next marker, consuming any run of `0xFF` marker-fill bytes
    /// that precedes it, as described by [`next_marker_spec`].
    pub fn read_next_marker(&mut self) -> (r: Result<JPEGMarker, Error>)
        requires
            old(self).wf(),
        ensures
            final(self).wf(),
            final(self).stream() == old(self).stream(),
            match next_marker_spec(old(self).stream(), old(self).spec_pos()) {
                Ok((m, p2)) => r == Ok::<JPEGMarker, Error>(m) && final(self).spec_pos() == p2,
                Err(e) => r matches Err(e2) && same_error(e2, e),
            },
    {
        let word = match self.read_next_word() {
            Ok(w) => w,
            Err(e) => {
                return Err(e);
            },
        };
        proof {
            lemma_word_parts(
                word,
                old(self).stream()[old(self).spec_pos()],
                old(self).stream()[old(self).spec_pos() + 1],
            );
        }
        match Self::to_marker(word) {
            Ok(m) => {
                return Ok(m);
            },
            Err(_) => {
            },
        }
        if word / 256 != 0xFF {
            return Err(Error::Malformed("invalid JPEG file"));
        }
        if word == 0xFFFF {
            loop
                invariant
                    self.wf(),
                    self.stream() == old(self).stream(),
                    0 <= self.spec_pos() <= self.stream().len(),
                    next_marker_spec(old(self).stream(), old(self).spec_pos())
                        == fill_marker_spec(self.stream(), self.spec_pos()),
                decreases self.stream().len() - self.spec_pos(),
            {
                let b = match self.read_next_byte() {
                    Ok(b) => b,
                    Err(e) => {
                        return Err(e);
                    },
                };
                if b == 0xFF {
                    continue ;
                }
                if b == 0x00 {
                    return Err(Error::Malformed("invalid JPEG file"));
                }
                return match Self::to_marker(0xFF00 + b as u16) {
                    Ok(m) => Ok(m),
                    Err(_) => Err(Error::UnsupportedFeature("unrecognized marker")),
                };
            }
        }
        if word % 256 == 0x00 {
            return Err(Error::Malformed("invalid JPEG file"));
        }
        Err(Error::UnsupportedFeature("unrecognized marker"))
    }

    /// Skips a length-prefixed segment: reads the 16-bit length and advances
    /// past the remaining `length - 2` payload bytes.
    pub fn skip_marker_with_length(&mut self) -> (r: Result<(), Error>)
        requires
            old(self).wf(),
        ensures
            final(self).wf(),
            final(self).stream() == old(self).stream(),
            match skip_segment_spec(old(self).stream(), old(self).spec_pos()) {
                Ok(p2) => r == Ok::<(), Error>(()) && final(self).spec_pos() == p2,
                Err(e) => r matches Err(e2) && same_error(e2, e),
            },
    {
        let len = match self.read_next_word() {
            Ok(w) => w,
            Err(e) => {
                return Err(e);
            },
        };
        if len < 2 {
            return Err(Error::Malformed("invalid segment length"));
        }
        let skip = (len - 2) as usize;
        if self.data.len() - self.pos >= skip {
            self.pos = self.pos + skip;
            Ok(())
        } else {
            Err(Error::Malformed("unexpected end of input"))
        }
    }
}

/// The position just after a length-prefixed segment starting at `p`, or the
/// error raised while skipping it.
pub open spec fn skip_segment_spec(s: Seq<u8>, p: int) -> Result<int, Error> {
    if p < 0 || p + 2 > s.len() {
        Err(Error::Malformed("unexpected end of input"))
    } else if word_at(s, p) < 2 {
        Err(Error::Malformed("invalid segment length"))
    } else if p + word_at(s, p) > s.len() {
        Err(Error::Malformed("unexpected end of input"))
    } else {
        Ok(p + word_at(s, p))
    }
}

/// A well-formed parser's position lies within its stream.
pub broadcast proof fn lemma_parser_in_bounds<'a>(parser: &JPEGParser<'a>)
    requires
        #[trigger] parser.wf(),
    ensures
        0 <= parser.spec_pos() <= parser.stream().len(),
{
}

/// A successful marker scan past fill bytes lands strictly further on.
pub proof fn lemma_fill_marker_advances(s: Seq<u8>, p: int)
    ensures
        fill_marker_spec(s, p) matches Ok((m, p2)) ==> p < p2 <= s.len(),
    decreases s.len() - p,
{
    if 0 <= p < s.len() && s[p] == 0xFF {
        lemma_fill_marker_advances(s, p + 1);
    }
}

/// A successful marker read consumes at least its two-byte word and stays
/// within the stream.
pub proof fn lemma_next_marker_advances(s: Seq<u8>, p: int)
    ensures
        next_marker_spec(s, p) matches Ok((m, p2)) ==> p + 2 <= p2 <= s.len(),
{
    if 0 <= p && p + 2 <= s.len() {
        lemma_fill_marker_advances(s, p + 2);
    }
}

/// Splitting a big-endian word into its two bytes.
proof fn lemma_word_parts(w: u16, a: u8, b: u8)
    requires
        w as int == a as int * 256 + b as int,
    ensures
        w as int / 256 == a as int,
        w as int % 256 == b as int,
{
    assert(w as int / 256 == a as int && w as int % 256 == b as int) by (nonlinear_arith)
        requires
            w as int == a as int * 256 + b as int,
            0 <= a < 256,
            0 <= b < 256,
    ;
}

} // verus!
