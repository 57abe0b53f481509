//! Conversion of captured pixels to the format that H.264 encoders take.
//!
//! A sample is a weighted sum of a pixel's red, green and blue, with weights such
//! as 0.257, evaluated in double precision from left to right. Here the sum is
//! evaluated over integers, in units of 2^-56, of which the double nearest to
//! every weight is a whole number.

use vstd::prelude::*;
#[allow(unused_imports)]
use vstd::arithmetic::power2::{pow2, lemma2_to64, lemma2_to64_rest};
use crate::rounding::round_significant;
#[allow(unused_imports)]
use crate::rounding::{lemma_significant_error, significant};

verus! {

/// The number one in units of 2^-56.
pub const UNIT: i128 = 0x100_0000_0000_0000;

/// Binary digits in the significand of a double-precision number.
pub const DOUBLE_BITS: u32 = 53;

/// The double nearest to 0.257.
pub const W257: i128 = 18518801667747480;

/// The double nearest to 0.504.
pub const W504: i128 = 36317027395115680;

/// The double nearest to 0.098.
pub const W098: i128 = 7061644215716938;

/// The double nearest to 0.148.
pub const W148: i128 = 10664523917613334;

/// The double nearest to 0.291.
pub const W291: i128 = 20968759865037028;

/// The double nearest to 0.439.
pub const W439: i128 = 31633283782650364;

/// The double nearest to 0.368.
pub const W368: i128 = 26517194605957480;

/// The double nearest to 0.071.
pub const W071: i128 = 5116089176692883;

/// `v` rounded to double precision: to 53 significant digits, whatever its sign.
pub open spec fn double(v: int) -> int {
    if v < 0 {
        -(significant((-v) as nat, DOUBLE_BITS as nat) as int)
    } else {
        significant(v as nat, DOUBLE_BITS as nat) as int
    }
}

/// `wr * r + wg * g + wb * b + offset`, with every product and every sum rounded to
/// double precision, from left to right. Weights and result are in units of 2^-56.
pub open spec fn weighted(wr: int, r: u8, wg: int, g: u8, wb: int, b: u8, offset: int) -> int {
    double(double(double(double(wr * r) + double(wg * g)) + double(wb * b)) + offset * UNIT)
}

/// A weighted sum as a sample: clamped to the range from 0 to 255, then cut to a
/// whole number.
pub open spec fn sample(v: int) -> int {
    if v < 0 {
        0
    } else if v > 255 * UNIT {
        255
    } else {
        v / (UNIT as int)
    }
}

/// Luma of a pixel: `0.257 * r + 0.504 * g + 0.098 * b + 16`.
pub open spec fn luma_of(r: u8, g: u8, b: u8) -> int {
    sample(weighted(W257 as int, r, W504 as int, g, W098 as int, b, 16))
}

/// Blue-difference chroma of a pixel: `-0.148 * r - 0.291 * g + 0.439 * b + 128`.
pub open spec fn chroma_u_of(r: u8, g: u8, b: u8) -> int {
    sample(weighted(-W148, r, -W291, g, W439 as int, b, 128))
}

/// Red-difference chroma of a pixel: `0.439 * r - 0.368 * g - 0.071 * b + 128`.
pub open spec fn chroma_v_of(r: u8, g: u8, b: u8) -> int {
    sample(weighted(W439 as int, r, -W368, g, -W071, b, 128))
}

/// Every sum on the way to a weighted sum is below 256.
spec fn partial_sums_fit(wr: int, r: u8, wg: int, g: u8, wb: int, b: u8, offset: int) -> bool {
    let first = double(wr * r) + double(wg * g);
    let second = double(first) + double(wb * b);
    &&& fits(wr * r) && fits(wg * g) && fits(wb * b)
    &&& fits(first) && fits(second) && fits(double(second) + offset * UNIT)
}

spec fn fits(v: int) -> bool {
    -256 * UNIT < v < 256 * UNIT
}

/// Rounding a sum of less than 256 to double precision moves it by at most 2^-46.
proof fn lemma_double_error(v: int)
    requires
        fits(v),
    ensures
        -1024 <= double(v) - v <= 1024,
{
    lemma2_to64();
    lemma2_to64_rest();
    let magnitude: nat = if v < 0 { (-v) as nat } else { v as nat };
    lemma_significant_error(magnitude, 53, 11);
}

/// A weight given in thousandths, up to its rounding to double precision.
spec fn near(weight: int, thousandths: int) -> bool {
    -4000 <= 1000 * weight - thousandths * UNIT <= 4000
}

proof fn lemma_term(weight: int, thousandths: int, c: u8)
    requires
        near(weight, thousandths),
        -504 <= thousandths <= 504,
    ensures
        -1020000 <= 1000 * (weight * c) - thousandths * c * UNIT <= 1020000,
        -129 * UNIT <= weight * c <= 129 * UNIT,
        -1024 <= double(weight * c) - weight * c <= 1024,
{
    assert(1000 * (weight * c) - thousandths * c * UNIT == (1000 * weight - thousandths * UNIT) * c)
        by (nonlinear_arith);
    let d = 1000 * weight - thousandths * UNIT;
    assert(-1020000 <= d * c <= 1020000) by (nonlinear_arith)
        requires
            -4000 <= d <= 4000,
            0 <= c <= 255,
    ;
    assert(-504 * 255 * UNIT <= thousandths * c * UNIT <= 504 * 255 * UNIT) by (nonlinear_arith)
        requires
            -504 <= thousandths <= 504,
            0 <= c <= 255,
            UNIT == 0x100_0000_0000_0000,
    ;
    lemma_double_error(weight * c);
}

/// Evaluating in double precision moves a weighted sum by less than 2^-30 from the
/// sum with exact weights.
proof fn lemma_weighted_near(
    wr: int,
    tr: int,
    r: u8,
    wg: int,
    tg: int,
    g: u8,
    wb: int,
    tb: int,
    b: u8,
    offset: int,
)
    requires
        near(wr, tr),
        near(wg, tg),
        near(wb, tb),
        -504 <= tr <= 504,
        -504 <= tg <= 504,
        -504 <= tb <= 504,
        -250000 <= tr * r + tg * g <= 250000,
        -250000 <= tr * r + tg * g + tb * b <= 250000,
        0 <= tr * r + tg * g + tb * b + 1000 * offset <= 250000,
        0 <= offset <= 128,
    ensures
        partial_sums_fit(wr, r, wg, g, wb, b, offset),
        -0x4000_0000 < 1000 * weighted(wr, r, wg, g, wb, b, offset) - (tr * r + tg * g + tb * b
            + 1000 * offset) * UNIT < 0x4000_0000,
{
    lemma_term(wr, tr, r);
    lemma_term(wg, tg, g);
    lemma_term(wb, tb, b);
    let a1 = double(wr * r) + double(wg * g);
    assert((tr * r + tg * g) * UNIT == tr * r * UNIT + tg * g * UNIT) by (nonlinear_arith);
    assert((tr * r + tg * g + tb * b) * UNIT == tr * r * UNIT + tg * g * UNIT + tb * b * UNIT)
        by (nonlinear_arith);
    assert((tr * r + tg * g + tb * b + 1000 * offset) * UNIT == tr * r * UNIT + tg * g * UNIT + tb
        * b * UNIT + 1000 * offset * UNIT) by (nonlinear_arith);
    let n1 = tr * r + tg * g;
    let n2 = tr * r + tg * g + tb * b;
    let n3 = tr * r + tg * g + tb * b + 1000 * offset;
    assert(-250000 * UNIT <= n1 * UNIT <= 250000 * UNIT);
    assert(-250000 * UNIT <= n2 * UNIT <= 250000 * UNIT);
    assert(0 <= n3 * UNIT <= 250000 * UNIT);
    lemma_double_error(a1);
    let a2 = double(a1) + double(wb * b);
    lemma_double_error(a2);
    let a3 = double(a2) + offset * UNIT;
    assert(1000 * (offset * UNIT) == 1000 * offset * UNIT) by (nonlinear_arith);
    lemma_double_error(a3);
}

/// The whole part of a weighted sum in terms of the exact sum `n` in thousandths.
proof fn lemma_whole_part(v: int, n: int)
    requires
        -0x4000_0000 < 1000 * v - n * UNIT < 0x4000_0000,
        1000 <= n <= 250000,
    ensures
        n % 1000 != 0 ==> sample(v) == n / 1000,
        n % 1000 == 0 ==> n / 1000 - 1 <= sample(v) <= n / 1000,
{
    let q = n / 1000;
    let rest = n % 1000;
    assert(n * UNIT == 1000 * (q * UNIT) + rest * UNIT) by (nonlinear_arith)
        requires
            n == 1000 * q + rest,
    ;
    let u = UNIT as int;
    vstd::arithmetic::div_mod::lemma_fundamental_div_mod(v, u);
    vstd::arithmetic::div_mod::lemma_mod_bound(v, u);
    assert((q + 1) * u == q * u + u) by (nonlinear_arith);
    assert((q - 1) * u == q * u - u) by (nonlinear_arith);
    let w = v / u;
    if rest != 0 {
        assert(q * u <= v < (q + 1) * u);
        assert(w == q) by (nonlinear_arith)
            requires
                q * u <= v < (q + 1) * u,
                u * w <= v < u * w + u,
                u > 0,
        ;
    } else {
        assert((q - 1) * u <= v < (q + 1) * u);
        assert(q - 1 <= w <= q) by (nonlinear_arith)
            requires
                (q - 1) * u <= v < (q + 1) * u,
                u * w <= v < u * w + u,
                u > 0,
        ;
    }
}

/// The luma of a pixel is the whole part of the exact weighted sum; where that sum
/// is a whole number it may be one less, by the rounding of double precision.
pub proof fn lemma_luma_accurate(r: u8, g: u8, b: u8)
    ensures
        ({
            let n = 257 * r + 504 * g + 98 * b + 16000;
            &&& n % 1000 != 0 ==> luma_of(r, g, b) == n / 1000
            &&& n % 1000 == 0 ==> n / 1000 - 1 <= luma_of(r, g, b) <= n / 1000
        }),
{
    lemma_weighted_near(W257 as int, 257, r, W504 as int, 504, g, W098 as int, 98, b, 16);
    lemma_whole_part(
        weighted(W257 as int, r, W504 as int, g, W098 as int, b, 16),
        257 * r + 504 * g + 98 * b + 16000,
    );
}

/// The blue-difference chroma of a pixel is the whole part of the exact weighted
/// sum; where that sum is a whole number it may be one less.
pub proof fn lemma_chroma_u_accurate(r: u8, g: u8, b: u8)
    ensures
        ({
            let n = -148 * r - 291 * g + 439 * b + 128000;
            &&& n % 1000 != 0 ==> chroma_u_of(r, g, b) == n / 1000
            &&& n % 1000 == 0 ==> n / 1000 - 1 <= chroma_u_of(r, g, b) <= n / 1000
        }),
{
    lemma_weighted_near(-W148, -148, r, -W291, -291, g, W439 as int, 439, b, 128);
    lemma_whole_part(
        weighted(-W148, r, -W291, g, W439 as int, b, 128),
        -148 * r - 291 * g + 439 * b + 128000,
    );
}

/// The red-difference chroma of a pixel is the whole part of the exact weighted
/// sum; where that sum is a whole number it may be one less.
pub proof fn lemma_chroma_v_accurate(r: u8, g: u8, b: u8)
    ensures
        ({
            let n = 439 * r - 368 * g - 71 * b + 128000;
            &&& n % 1000 != 0 ==> chroma_v_of(r, g, b) == n / 1000
            &&& n % 1000 == 0 ==> n / 1000 - 1 <= chroma_v_of(r, g, b) <= n / 1000
        }),
{
    lemma_weighted_near(W439 as int, 439, r, -W368, -368, g, -W071, -71, b, 128);
    lemma_whole_part(
        weighted(W439 as int, r, -W368, g, -W071, b, 128),
        439 * r - 368 * g - 71 * b + 128000,
    );
}

/// Rounds to double precision.
fn round_double(v: i128) -> (r: i128)
    requires
        fits(v as int),
    ensures
        r == double(v as int),
        -512 * UNIT < r < 512 * UNIT,
{
    if v < 0 {
        -(round_significant((-v) as u64, DOUBLE_BITS) as i128)
    } else {
        round_significant(v as u64, DOUBLE_BITS) as i128
    }
}

/// Evaluates a weighted sum in double precision.
fn evaluate(wr: i128, r: u8, wg: i128, g: u8, wb: i128, b: u8, offset: i128) -> (v: i128)
    requires
        -UNIT <= wr <= UNIT,
        -UNIT <= wg <= UNIT,
        -UNIT <= wb <= UNIT,
        0 <= offset <= 128,
        partial_sums_fit(wr as int, r, wg as int, g, wb as int, b, offset as int),
    ensures
        v == weighted(wr as int, r, wg as int, g, wb as int, b, offset as int),
{
    proof {
        assert(forall|w: i128, c: u8| -UNIT <= w <= UNIT ==> -255 * UNIT <= #[trigger] (w * c) <= 255
            * UNIT) by (nonlinear_arith);
    }
    let red: i128 = round_double(wr * (r as i128));
    let green: i128 = round_double(wg * (g as i128));
    let blue: i128 = round_double(wb * (b as i128));
    let first: i128 = round_double(red + green);
    let second: i128 = round_double(first + blue);
    round_double(second + offset * UNIT)
}

/// Cuts a weighted sum to a sample.
fn to_sample(v: i128) -> (r: u8)
    ensures
        r == sample(v as int),
{
    if v < 0 {
        0
    } else if v > 255 * UNIT {
        255
    } else {
        (v / UNIT) as u8
    }
}

/// Computes the luma of a pixel. The exact weighted sum decides, unless it is a
/// whole number: then the rounding of double precision does.
pub fn luma(r: u8, g: u8, b: u8) -> (y: u8)
    ensures
        y == luma_of(r, g, b),
{
    let n: i64 = 257 * (r as i64) + 504 * (g as i64) + 98 * (b as i64) + 16000;
    proof {
        lemma_luma_accurate(r, g, b);
    }
    if n % 1000 != 0 {
        (n / 1000) as u8
    } else {
        proof {
            lemma_weighted_near(W257 as int, 257, r, W504 as int, 504, g, W098 as int, 98, b, 16);
        }
        to_sample(evaluate(W257, r, W504, g, W098, b, 16))
    }
}

/// Computes the blue-difference chroma of a pixel.
pub fn chroma_u(r: u8, g: u8, b: u8) -> (u: u8)
    ensures
        u == chroma_u_of(r, g, b),
{
    let n: i64 = 128000 + 439 * (b as i64) - 148 * (r as i64) - 291 * (g as i64);
    proof {
        lemma_chroma_u_accurate(r, g, b);
    }
    if n % 1000 != 0 {
        (n / 1000) as u8
    } else {
        proof {
            lemma_weighted_near(-W148, -148, r, -W291, -291, g, W439 as int, 439, b, 128);
        }
        to_sample(evaluate(-W148, r, -W291, g, W439, b, 128))
    }
}

/// Computes the red-difference chroma of a pixel.
pub fn chroma_v(r: u8, g: u8, b: u8) -> (v: u8)
    ensures
        v == chroma_v_of(r, g, b),
{
    let n: i64 = 128000 + 439 * (r as i64) - 368 * (g as i64) - 71 * (b as i64);
    proof {
        lemma_chroma_v_accurate(r, g, b);
    }
    if n % 1000 != 0 {
        (n / 1000) as u8
    } else {
        proof {
            lemma_weighted_near(W439 as int, 439, r, -W368, -368, g, -W071, -71, b, 128);
        }
        to_sample(evaluate(W439, r, -W368, g, -W071, b, 128))
    }
}

/// The frame sizes that can be converted: even in both directions, or without a pixel.
pub open spec fn convertible(width: int, height: int) -> bool {
    (width % 2 == 0 && height % 2 == 0) || width == 0 || height == 0
}

/// The luma plane of a frame of BGRA pixels, `width` to a row.
pub open spec fn luma_plane(bgra: Seq<u8>, width: int, height: int) -> Seq<u8> {
    Seq::new(
        (width * height) as nat,
        |i: int| luma_of(bgra[4 * i + 2], bgra[4 * i + 1], bgra[4 * i]) as u8,
    )
}

/// The chroma plane of a frame of BGRA pixels: for each block of two by two pixels
/// the two chroma samples of its top left pixel, side by side.
pub open spec fn chroma_plane(bgra: Seq<u8>, width: int, height: int) -> Seq<u8> {
    Seq::new(
        (width * (height / 2)) as nat,
        |i: int|
            {
                let p = 2 * (i / width) * width + i % width / 2 * 2;
                if i % width % 2 == 0 {
                    chroma_u_of(bgra[4 * p + 2], bgra[4 * p + 1], bgra[4 * p]) as u8
                } else {
                    chroma_v_of(bgra[4 * p + 2], bgra[4 * p + 1], bgra[4 * p]) as u8
                }
            },
    )
}

/// Converts a frame of BGRA pixels to the two planes of the NV12 format.
pub fn bgra_to_nv12(bgra: &[u8], width: usize, height: usize) -> (planes: (Vec<u8>, Vec<u8>))
    requires
        convertible(width as int, height as int),
        bgra@.len() >= width * height * 4,
    ensures
        planes.0@ == luma_plane(bgra@, width as int, height as int),
        planes.1@ == chroma_plane(bgra@, width as int, height as int),
{
    let mut y_plane: Vec<u8> = Vec::new();
    let mut uv_plane: Vec<u8> = Vec::new();
    if width == 0 || height == 0 {
        proof {
            assert(width * height == 0 && width * (height / 2) == 0) by (nonlinear_arith)
                requires
                    width == 0 || height == 0,
            ;
            assert(y_plane@ =~= luma_plane(bgra@, width as int, height as int));
            assert(uv_plane@ =~= chroma_plane(bgra@, width as int, height as int));
        }
        return (y_plane, uv_plane);
    }
    let size: usize = bgra.len();
    assert(width * height <= usize::MAX && width * height >= 0) by (nonlinear_arith)
        requires
            size >= width * height * 4,
            width >= 0,
            height >= 0,
    ;
    let count: usize = width * height;
    let mut i: usize = 0;
    while i < count
        invariant
            i <= count,
            count == width * height,
            bgra@.len() == size >= 4 * count,
            y_plane@ =~= luma_plane(bgra@, width as int, height as int).take(i as int),
        decreases count - i,
    {
        let y: u8 = luma(bgra[4 * i + 2], bgra[4 * i + 1], bgra[4 * i]);
        y_plane.push(y);
        i = i + 1;
    }
    let mut row: usize = 0;
    proof {
        assert(0 * width == 0);
    }
    while row < height / 2
        invariant
            width > 0,
            width % 2 == 0,
            height % 2 == 0,
            row <= height / 2,
            count == width * height,
            bgra@.len() == size >= 4 * count,
            uv_plane@ =~= chroma_plane(bgra@, width as int, height as int).take(row * width),
        decreases height / 2 - row,
    {
        proof {
            assert((row + 1) * width <= (height / 2) * width && row * width + width == (row + 1)
                * width && 2 * ((height / 2) * width) == count && (height / 2) * width == width * (
            height / 2)) by (nonlinear_arith)
                requires
                    row < height / 2,
                    height % 2 == 0,
                    count == width * height,
            ;
            assert(2 * row * width == 2 * (row * width)) by (nonlinear_arith);
        }
        let start: usize = 2 * row * width;
        let mut col: usize = 0;
        while col < width
            invariant
                width > 0,
                width % 2 == 0,
                row < height / 2,
                col <= width,
                col % 2 == 0,
                start == 2 * (row * width),
                start + 2 * width <= count,
                (row + 1) * width <= width * (height / 2),
                row * width + width == (row + 1) * width,
                bgra@.len() == size >= 4 * count,
                uv_plane@ =~= chroma_plane(bgra@, width as int, height as int).take(
                    row * width + col,
                ),
            decreases width - col,
        {
            let p: usize = start + col;
            let u: u8 = chroma_u(bgra[4 * p + 2], bgra[4 * p + 1], bgra[4 * p]);
            let v: u8 = chroma_v(bgra[4 * p + 2], bgra[4 * p + 1], bgra[4 * p]);
            proof {
                let plane = chroma_plane(bgra@, width as int, height as int);
                let at = row * width + col;
                lemma_row_and_column(row as int, width as int, col as int);
                lemma_row_and_column(row as int, width as int, col + 1);
                assert(2 * row * width == start) by (nonlinear_arith)
                    requires
                        start == 2 * (row * width),
                ;
                assert(plane[at] == u);
                assert(plane[at + 1] == v);
            }
            uv_plane.push(u);
            uv_plane.push(v);
            col = col + 2;
        }
        row = row + 1;
    }
    proof {
        assert(row * width == width * (height / 2)) by (nonlinear_arith)
            requires
                row == height / 2,
        ;
    }
    (y_plane, uv_plane)
}

/// Row and column can be told from the place in a row after row layout.
pub proof fn lemma_row_and_column(row: int, width: int, col: int)
    requires
        0 <= row,
        0 <= col < width,
    ensures
        (row * width + col) / width == row,
        (row * width + col) % width == col,
{
    vstd::arithmetic::div_mod::lemma_fundamental_div_mod_converse(
        row * width + col,
        width,
        row,
        col,
    );
}

/// Where the samples of a frame stand: the luma of the pixel in column `x` of row `y` at
/// the same place of the luma plane, one after the other and row after row; and for
/// each square of two by two pixels, in the row of squares that it is in, the two
/// chroma samples of its top left pixel. Blue is the first byte of a pixel, red the
/// third.
pub proof fn lemma_samples_in_place(bgra: Seq<u8>, width: int, height: int, x: int, y: int)
    requires
        0 <= x < width,
        0 <= y < height,
        width % 2 == 0,
        height % 2 == 0,
    ensures
        ({
            let at = 4 * (y * width + x);
            let corner = 4 * ((y - y % 2) * width + (x - x % 2));
            let pair = (y / 2) * width + (x - x % 2);
            let luma = luma_plane(bgra, width, height);
            let chroma = chroma_plane(bgra, width, height);
            &&& luma.len() == width * height
            &&& 2 * chroma.len() == width * height
            &&& 0 <= y * width + x < luma.len()
            &&& 0 <= pair && pair + 1 < chroma.len()
            &&& luma[y * width + x] == luma_of(bgra[at + 2], bgra[at + 1], bgra[at]) as u8
            &&& chroma[pair] == chroma_u_of(bgra[corner + 2], bgra[corner + 1], bgra[corner]) as u8
            &&& chroma[pair + 1] == chroma_v_of(
                bgra[corner + 2],
                bgra[corner + 1],
                bgra[corner],
            ) as u8
        }),
{
    let col = x - x % 2;
    let row = y / 2;
    assert(y - y % 2 == 2 * row);
    assert(width * height >= 0 && 0 <= y * width + x < width * height && 2 * (width * (height / 2))
        == width * height && 0 <= row * width && row * width + width <= width * (height / 2))
        by (nonlinear_arith)
        requires
            0 <= x < width,
            0 <= y < height,
            height % 2 == 0,
            row == y / 2,
    ;
    assert(2 * row * width == (2 * row) * width);
    assert(col + 1 < width);
    lemma_row_and_column(row, width, col);
    lemma_row_and_column(row, width, col + 1);
    assert((col + 1) / 2 * 2 == col && col / 2 * 2 == col);
}

} // verus!
