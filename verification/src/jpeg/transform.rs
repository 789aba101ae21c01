//! Fixed-point inverse DCT and YCbCr-to-RGB conversion.
//!
//! Cosine factors are scaled by 8192 (2^13); an inverse-DCT output sample is
//! the 64-term sum divided by `4 * 8192 * 8192 = 2^28`, truncated toward
//! zero and clamped to the signed 16-bit range. Color conversion uses
//! coefficients scaled by 4096 (2^12) and the same truncating division.

use vstd::prelude::*;

verus! {

/// Scaled DCT basis factor: `C(u) * cos((2x+1) u pi / 16) * 8192`, rounded
/// to the nearest integer, with `C(0) = 1/sqrt(2)` and `C(u>0) = 1`.
pub open spec fn cc(u: int, x: int) -> int {
    if u == 0 {
        if x == 0 {
            5793
        } else if x == 1 {
            5793
        } else if x == 2 {
            5793
        } else if x == 3 {
            5793
        } else if x == 4 {
            5793
        } else if x == 5 {
            5793
        } else if x == 6 {
            5793
        } else {
            5793
        }
    } else if u == 1 {
        if x == 0 {
            8035
        } else if x == 1 {
            6811
        } else if x == 2 {
            4551
        } else if x == 3 {
            1598
        } else if x == 4 {
            -1598
        } else if x == 5 {
            -4551
        } else if x == 6 {
            -6811
        } else {
            -8035
        }
    } else if u == 2 {
        if x == 0 {
            7568
        } else if x == 1 {
            3135
        } else if x == 2 {
            -3135
        } else if x == 3 {
            -7568
        } else if x == 4 {
            -7568
        } else if x == 5 {
            -3135
        } else if x == 6 {
            3135
        } else {
            7568
        }
    } else if u == 3 {
        if x == 0 {
            6811
        } else if x == 1 {
            -1598
        } else if x == 2 {
            -8035
        } else if x == 3 {
            -4551
        } else if x == 4 {
            4551
        } else if x == 5 {
            8035
        } else if x == 6 {
            1598
        } else {
            -6811
        }
    } else if u == 4 {
        if x == 0 {
            5793
        } else if x == 1 {
            -5793
        } else if x == 2 {
            -5793
        } else if x == 3 {
            5793
        } else if x == 4 {
            5793
        } else if x == 5 {
            -5793
        } else if x == 6 {
            -5793
        } else {
            5793
        }
    } else if u == 5 {
        if x == 0 {
            4551
        } else if x == 1 {
            -8035
        } else if x == 2 {
            1598
        } else if x == 3 {
            6811
        } else if x == 4 {
            -6811
        } else if x == 5 {
            -1598
        } else if x == 6 {
            8035
        } else {
            -4551
        }
    } else if u == 6 {
        if x == 0 {
            3135
        } else if x == 1 {
            -7568
        } else if x == 2 {
            7568
        } else if x == 3 {
            -3135
        } else if x == 4 {
            -3135
        } else if x == 5 {
            7568
        } else if x == 6 {
            -7568
        } else {
            3135
        }
    } else {
        if x == 0 {
            1598
        } else if x == 1 {
            -4551
        } else if x == 2 {
            6811
        } else if x == 3 {
            -8035
        } else if x == 4 {
            8035
        } else if x == 5 {
            -6811
        } else if x == 6 {
            4551
        } else {
            -1598
        }
    }
}

/// Executable table of the scaled DCT basis factors.
pub fn cc_val(u: usize, x: usize) -> (r: i32)
    requires
        u < 8,
        x < 8,
    ensures
        r as int == cc(u as int, x as int),
{
    match u {
        0 => match x {
            0 => 5793,
            1 => 5793,
            2 => 5793,
            3 => 5793,
            4 => 5793,
            5 => 5793,
            6 => 5793,
            _ => 5793,
        },
        1 => match x {
            0 => 8035,
            1 => 6811,
            2 => 4551,
            3 => 1598,
            4 => -1598,
            5 => -4551,
            6 => -6811,
            _ => -8035,
        },
        2 => match x {
            0 => 7568,
            1 => 3135,
            2 => -3135,
            3 => -7568,
            4 => -7568,
            5 => -3135,
            6 => 3135,
            _ => 7568,
        },
        3 => match x {
            0 => 6811,
            1 => -1598,
            2 => -8035,
            3 => -4551,
            4 => 4551,
            5 => 8035,
            6 => 1598,
            _ => -6811,
        },
        4 => match x {
            0 => 5793,
            1 => -5793,
            2 => -5793,
            3 => 5793,
            4 => 5793,
            5 => -5793,
            6 => -5793,
            _ => 5793,
        },
        5 => match x {
            0 => 4551,
            1 => -8035,
            2 => 1598,
            3 => 6811,
            4 => -6811,
            5 => -1598,
            6 => 8035,
            _ => -4551,
        },
        6 => match x {
            0 => 3135,
            1 => -7568,
            2 => 7568,
            3 => -3135,
            4 => -3135,
            5 => 7568,
            6 => -7568,
            _ => 3135,
        },
        _ => match x {
            0 => 1598,
            1 => -4551,
            2 => 6811,
            3 => -8035,
            4 => 8035,
            5 => -6811,
            6 => 4551,
            _ => -1598,
        },
    }
}

/// Every scaled basis factor lies within `[-8192, 8192]`.
pub proof fn lemma_cc_bound(u: int, x: int)
    requires
        0 <= u < 8,
        0 <= x < 8,
    ensures
        -8192 <= cc(u, x) <= 8192,
{
}

/// Sum over rows `v < n` of `cc(v, y) * d[8 * v + u]`: the contribution of
/// column `u` of the coefficient block to output row `y`.
pub open spec fn idct_col_sum(d: Seq<i16>, u: int, y: int, n: int) -> int
    decreases n,
{
    if n <= 0 {
        0
    } else {
        idct_col_sum(d, u, y, n - 1) + cc(n - 1, y) * d[8 * (n - 1) + u]
    }
}

/// Sum over columns `u < n` of `cc(u, x)` times the column sums: the full
/// scaled inverse-DCT numerator for output cell `(x, y)`.
pub open spec fn idct_sum(d: Seq<i16>, x: int, y: int, n: int) -> int
    decreases n,
{
    if n <= 0 {
        0
    } else {
        idct_sum(d, x, y, n - 1) + cc(n - 1, x) * idct_col_sum(d, n - 1, y, 8)
    }
}

/// Integer division truncated toward zero, as Rust's `/` behaves.
pub open spec fn tdiv(n: int, d: int) -> int
    recommends
        d > 0,
{
    if n >= 0 {
        n / d
    } else {
        -((-n) / d)
    }
}

/// `v` clamped to the signed 16-bit range.
pub open spec fn clamp_i16_spec(v: int) -> int {
    if v < -32768 {
        -32768
    } else if v > 32767 {
        32767
    } else {
        v
    }
}

/// `v` clamped to `0..=255`.
pub open spec fn clamp_u8_spec(v: int) -> int {
    if v < 0 {
        0
    } else if v > 255 {
        255
    } else {
        v
    }
}

/// The inverse-DCT output sample at cell `(x, y)` of the 8x8 coefficient
/// block `d` (row-major, `d[8 * v + u]` holding frequency `(v, u)`).
pub open spec fn idct_value(d: Seq<i16>, x: int, y: int) -> int {
    clamp_i16_spec(tdiv(idct_sum(d, x, y, 8), 0x10000000))
}

/// A column sum over `n` rows is bounded by `n` times the largest term.
proof fn lemma_idct_col_sum_bound(d: Seq<i16>, u: int, y: int, n: int)
    requires
        d.len() == 64,
        0 <= u < 8,
        0 <= y < 8,
        0 <= n <= 8,
    ensures
        -n * 0x10000000 <= idct_col_sum(d, u, y, n) <= n * 0x10000000,
    decreases n,
{
    if n > 0 {
        lemma_idct_col_sum_bound(d, u, y, n - 1);
        lemma_cc_bound(n - 1, y);
        let term = cc(n - 1, y) * d[8 * (n - 1) + u];
        assert(-0x10000000 <= term <= 0x10000000) by (nonlinear_arith)
            requires
                term == cc(n - 1, y) * d[8 * (n - 1) + u],
                -8192 <= cc(n - 1, y) <= 8192,
                -32768 <= d[8 * (n - 1) + u] <= 32767,
        ;
    }
}

/// The full numerator over `n` columns is bounded by `n` times the largest
/// column contribution.
proof fn lemma_idct_sum_bound(d: Seq<i16>, x: int, y: int, n: int)
    requires
        d.len() == 64,
        0 <= x < 8,
        0 <= y < 8,
        0 <= n <= 8,
    ensures
        -n * 0x100000000000 <= idct_sum(d, x, y, n) <= n * 0x100000000000,
    decreases n,
{
    if n > 0 {
        lemma_idct_sum_bound(d, x, y, n - 1);
        lemma_cc_bound(n - 1, x);
        lemma_idct_col_sum_bound(d, n - 1, y, 8);
        let term = cc(n - 1, x) * idct_col_sum(d, n - 1, y, 8);
        assert(-0x100000000000 <= term <= 0x100000000000) by (nonlinear_arith)
            requires
                term == cc(n - 1, x) * idct_col_sum(d, n - 1, y, 8),
                -8192 <= cc(n - 1, x) <= 8192,
                -0x80000000 <= idct_col_sum(d, n - 1, y, 8) <= 0x80000000,
        ;
    }
}

/// Divides `n` by `d`, truncating toward zero.
pub fn div_trunc(n: i64, d: u64) -> (r: i64)
    requires
        d > 0,
        -0x4000_0000_0000_0000 < n < 0x4000_0000_0000_0000,
        d < 0x4000_0000_0000_0000,
    ensures
        r as int == tdiv(n as int, d as int),
{
    if n >= 0 {
        ((n as u64) / d) as i64
    } else {
        let m = ((-n) as u64) / d;
        -(m as i64)
    }
}

/// `v` clamped to the signed 16-bit range.
pub fn clamp_to_i16(v: i64) -> (r: i16)
    ensures
        r as int == clamp_i16_spec(v as int),
{
    if v < -32768 {
        -32768
    } else if v > 32767 {
        32767
    } else {
        v as i16
    }
}

/// `v` clamped to `0..=255`.
pub fn clamp_to_u8(v: i64) -> (r: u8)
    ensures
        r as int == clamp_u8_spec(v as int),
{
    if v < 0 {
        0
    } else if v > 255 {
        255
    } else {
        v as u8
    }
}

/// Computes the 8x8 inverse DCT of the row-major coefficient block `d`,
/// returning the row-major sample block: cell `(x, y)` holds
/// [`idct_value`]`(d, x, y)`.
pub fn idct_block(d: &Vec<i16>) -> (r: Vec<i16>)
    requires
        d@.len() == 64,
    ensures
        r@.len() == 64,
        forall|x: int, y: int|
            #![trigger r@[8 * y + x]]
            0 <= x < 8 && 0 <= y < 8 ==> r@[8 * y + x] as int == idct_value(d@, x, y),
{
    let mut out: Vec<i16> = Vec::new();
    let mut y: usize = 0;
    #[verifier::loop_isolation(false)]
    while y < 8
        invariant
            y <= 8,
            out@.len() == 8 * y,
            forall|x2: int, y2: int|
                #![trigger out@[8 * y2 + x2]]
                0 <= x2 < 8 && 0 <= y2 < y ==> out@[8 * y2 + x2] as int == idct_value(d@, x2, y2),
        decreases 8 - y,
    {
        let mut x: usize = 0;
        #[verifier::loop_isolation(false)]
        while x < 8
            invariant
                x <= 8,
                y < 8,
                out@.len() == 8 * y + x,
                forall|x2: int, y2: int|
                    #![trigger out@[8 * y2 + x2]]
                    0 <= x2 < 8 && 0 <= y2 < y ==> out@[8 * y2 + x2] as int == idct_value(
                        d@,
                        x2,
                        y2,
                    ),
                forall|x2: int|
                    0 <= x2 < x ==> out@[8 * (y as int) + x2] as int == idct_value(
                        d@,
                        x2,
                        y as int,
                    ),
        decreases 8 - x,
        {
            let mut acc: i64 = 0;
            let mut u: usize = 0;
            #[verifier::loop_isolation(false)]
            while u < 8
                invariant
                    u <= 8,
                    x < 8,
                    y < 8,
                    acc as int == idct_sum(d@, x as int, y as int, u as int),
                    -(u as int) * 0x100000000000 <= acc as int <= (u as int) * 0x100000000000,
                decreases 8 - u,
            {
                let mut col: i64 = 0;
                let mut v: usize = 0;
                #[verifier::loop_isolation(false)]
                while v < 8
                    invariant
                        v <= 8,
                        u < 8,
                        x < 8,
                        y < 8,
                        col as int == idct_col_sum(d@, u as int, y as int, v as int),
                        -(v as int) * 0x10000000 <= col as int <= (v as int) * 0x10000000,
                    decreases 8 - v,
                {
                    let f = cc_val(v, y);
                    let coeff = d[8 * v + u];
                    proof {
                        lemma_cc_bound(v as int, y as int);
                        assert(-0x10000000 <= (f as int) * (coeff as int) <= 0x10000000)
                            by (nonlinear_arith)
                            requires
                                -8192 <= f as int <= 8192,
                                -32768 <= coeff as int <= 32767,
                        ;
                    }
                    col = col + (f as i64) * (coeff as i64);
                    v = v + 1;
                }
                let f = cc_val(u, x);
                proof {
                    lemma_cc_bound(u as int, x as int);
                    assert(-0x100000000000 <= (f as int) * (col as int) <= 0x100000000000)
                        by (nonlinear_arith)
                        requires
                            -8192 <= f as int <= 8192,
                            -0x80000000 <= col as int <= 0x80000000,
                    ;
                }
                acc = acc + (f as i64) * col;
                u = u + 1;
            }
            let q = div_trunc(acc, 0x10000000);
            let sample = clamp_to_i16(q);
            out.push(sample);
            x = x + 1;
        }
        y = y + 1;
    }
    out
}

/// The red, green and blue values produced from one signed YCbCr sample
/// triple: scaled integer forms of `R = 1.402 Cr + Y`,
/// `B = 1.772 Cb + Y` and `G = Y - 0.344136 Cb - 0.714136 Cr`, each
/// level-shifted by 128, truncated toward zero and clamped to a byte.
pub open spec fn rgb_of(yv: int, cb: int, cr: int) -> (int, int, int) {
    (
        clamp_u8_spec(tdiv(cr * 5743, 4096) + yv + 128),
        clamp_u8_spec(tdiv(yv * 4096 - cb * 1410 - cr * 2925, 4096) + 128),
        clamp_u8_spec(tdiv(cb * 7258, 4096) + yv + 128),
    )
}

/// Converts one YCbCr sample triple to RGB bytes.
pub fn ycbcr_to_rgb(y_cb_cr: (i16, i16, i16)) -> (r: (u8, u8, u8))
    ensures
        r.0 as int == rgb_of(y_cb_cr.0 as int, y_cb_cr.1 as int, y_cb_cr.2 as int).0,
        r.1 as int == rgb_of(y_cb_cr.0 as int, y_cb_cr.1 as int, y_cb_cr.2 as int).1,
        r.2 as int == rgb_of(y_cb_cr.0 as int, y_cb_cr.1 as int, y_cb_cr.2 as int).2,
{
    let lum = y_cb_cr.0 as i64;
    let cb = y_cb_cr.1 as i64;
    let cr = y_cb_cr.2 as i64;
    let red = clamp_to_u8(div_trunc(cr * 5743, 4096) + lum + 128);
    let green = clamp_to_u8(div_trunc(lum * 4096 - cb * 1410 - cr * 2925, 4096) + 128);
    let blue = clamp_to_u8(div_trunc(cb * 7258, 4096) + lum + 128);
    (red, green, blue)
}

} // verus!
