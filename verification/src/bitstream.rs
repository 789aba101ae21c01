//! MSB-first bit reader over a byte buffer.

use crate::error::{same_error, Error};
use vstd::arithmetic::power2::{
    lemma2_to64, lemma2_to64_rest, lemma_pow2_strictly_increases, pow2,
};
use vstd::prelude::*;

verus! {

/// The bit of `s` at overall bit index `k`, counting the most significant
/// bit of each byte first. The result is 0 or 1.
pub open spec fn bit_at(s: Seq<u8>, k: int) -> u8
    recommends
        0 <= k < 8 * s.len(),
{
    1u8 & (s[k / 8] >> ((7 - k % 8) as u8))
}

/// The unsigned value of the `n` bits of `s` starting at bit index `p`,
/// most significant bit first.
pub open spec fn bits_val(s: Seq<u8>, p: int, n: nat) -> int
    decreases n,
{
    if n == 0 {
        0
    } else {
        bits_val(s, p, (n - 1) as nat) * 2 + bit_at(s, p + n - 1)
    }
}

/// A single bit is 0 or 1.
proof fn lemma_bit_at_le_one(s: Seq<u8>, k: int)
    ensures
        0 <= bit_at(s, k) <= 1,
{
    let b = s[k / 8];
    let sh = (7 - k % 8) as u8;
    assert(1u8 & (b >> sh) <= 1) by (bit_vector);
}

/// An `n`-bit value lies below `2^n`.
pub proof fn lemma_bits_val_bound(s: Seq<u8>, p: int, n: nat)
    ensures
        0 <= bits_val(s, p, n) < pow2(n),
    decreases n,
{
    if n == 0 {
        assert(pow2(0) == 1) by {
            lemma2_to64();
        }
    } else {
        lemma_bits_val_bound(s, p, (n - 1) as nat);
        lemma_bit_at_le_one(s, p + n - 1);
        assert(pow2(n) == 2 * pow2((n - 1) as nat)) by {
            vstd::arithmetic::power2::lemma_pow2_unfold(n);
        }
    }
}

/// Bit index `8 * b + c` with `c < 8` lies in byte `b` at intra-byte
/// position `c`.
proof fn lemma_bit_index_parts(b: int, c: int)
    requires
        0 <= b,
        0 <= c < 8,
    ensures
        (8 * b + c) / 8 == b,
        (8 * b + c) % 8 == c,
{
    assert((8 * b + c) / 8 == b && (8 * b + c) % 8 == c) by (nonlinear_arith)
        requires
            0 <= b,
            0 <= c < 8,
    ;
}

/// A well-formed bitstream's cursor lies within its buffer.
pub broadcast proof fn lemma_bitstream_in_bounds<'a>(b: &Bitstream<'a>)
    requires
        #[trigger] b.wf(),
    ensures
        0 <= b.bit_pos() <= 8 * b.stream().len(),
{
}

/// Bitstream reader. Reads up to 64 bits at a time out of a byte buffer,
/// most significant bit of each byte first.
#[derive(Debug)]
pub struct Bitstream<'data> {
    data: &'data [u8],
    byte_cursor: usize,
    bit_cursor: u8,
}

impl<'data> Bitstream<'data> {
    /// The bytes the bitstream reads from.
    pub closed spec fn stream(&self) -> Seq<u8> {
        self.data@
    }

    /// The index of the next bit to be read.
    pub closed spec fn bit_pos(&self) -> int {
        8 * self.byte_cursor + self.bit_cursor
    }

    /// The cursor stays inside the buffer: within the current byte and never
    /// past the end.
    pub closed spec fn wf(&self) -> bool {
        &&& self.byte_cursor <= self.data@.len()
        &&& self.bit_cursor < 8
        &&& (self.byte_cursor == self.data@.len() ==> self.bit_cursor == 0)
    }

    /// Creates a new bitstream positioned at the first bit of `data`.
    pub fn new(data: &'data [u8]) -> (r: Self)
        ensures
            r.wf(),
            r.stream() == data@,
            r.bit_pos() == 0,
    {
        Self { data, byte_cursor: 0, bit_cursor: 0 }
    }

    /// Reads `bits` bits (at most 64) and returns them as an unsigned value
    /// whose high-order bit is the first bit consumed.
    pub fn read_bits(&mut self, bits: usize) -> (r: Result<u64, Error>)
        requires
            old(self).wf(),
        ensures
            final(self).wf(),
            final(self).stream() == old(self).stream(),
            bits > 64 ==> {
                &&& r matches Err(e) && same_error(
                    e,
                    Error::InternalError("Can't read more than 64 bits at a time"),
                )
                &&& final(self).bit_pos() == old(self).bit_pos()
            },
            bits <= 64 && old(self).bit_pos() + bits > 8 * old(self).stream().len() ==> {
                &&& r matches Err(e) && same_error(e, Error::InternalError("read past end"))
                &&& final(self).bit_pos() == old(self).bit_pos()
            },
            bits <= 64 && old(self).bit_pos() + bits <= 8 * old(self).stream().len() ==> {
                &&& r matches Ok(v) && v as int == bits_val(
                    old(self).stream(),
                    old(self).bit_pos(),
                    bits as nat,
                )
                &&& final(self).bit_pos() == old(self).bit_pos() + bits
            },
    {
        if bits > 64 {
            return Err(Error::InternalError("Can't read more than 64 bits at a time"));
        }
        // Check that `bits` more bits are available without risking overflow
        // in the position arithmetic.
        let remaining_bytes = self.data.len() - self.byte_cursor;
        if remaining_bytes < 9 {
            let remaining_bits = remaining_bytes * 8 - self.bit_cursor as usize;
            if bits > remaining_bits {
                return Err(Error::InternalError("read past end"));
            }
        }
        let ghost s = self.stream();
        let ghost p0 = self.bit_pos();
        let mut value: u64 = 0;
        let mut i: usize = 0;
        while i < bits
            invariant
                self.wf(),
                self.stream() == s,
                i <= bits <= 64,
                self.bit_pos() == p0 + i,
                p0 + bits <= 8 * s.len(),
                value as int == bits_val(s, p0, i as nat),
            decreases bits - i,
        {
            proof {
                lemma_bit_index_parts(self.byte_cursor as int, self.bit_cursor as int);
                lemma_bits_val_bound(s, p0, i as nat);
                if i < 63 {
                    lemma_pow2_strictly_increases(i as nat, 63);
                }
                lemma2_to64_rest();
                lemma_bit_at_le_one(s, p0 + i);
            }
            let current_byte = self.data[self.byte_cursor];
            let current_bit = 1u8 & (current_byte >> (7 - self.bit_cursor));
            assert(current_bit == bit_at(s, p0 + i));
            value = value * 2 + current_bit as u64;
            self.bit_cursor = self.bit_cursor + 1;
            if self.bit_cursor == 8 {
                self.byte_cursor = self.byte_cursor + 1;
                self.bit_cursor = 0;
            }
            i = i + 1;
        }
        Ok(value)
    }
}

} // verus!
