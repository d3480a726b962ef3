//! Raster images of the graphic spaces: BMP headers, decoding to RGB
//! pixels and back, and the pixels of a DIB.

use vstd::prelude::*;
use crate::formats::reader::{u16_at, u32_at};
use crate::formats::writer::{le16_bytes, le32_bytes, Writer};
use std::collections::BTreeMap;

pub mod api;
pub mod svg;

verus! {

pub type Handle = u32;

#[derive(Debug, Clone)]
pub struct Pen {
    pub color: u32,
    pub style: u16,
    pub width: u16,
    pub rop: u16,
}

#[derive(Debug, Clone)]
pub struct Brush {
    pub color: u32,
    pub style: u16,
    pub hatch: u16,
    pub rop: u16,
    pub dib: Handle,
}

#[derive(Debug, Clone)]
pub struct Font {
    pub height: i32,
    pub weight: i32,
    pub italic: bool,
    pub underline: bool,
    pub face: String,
}

#[derive(Debug, Clone)]
pub struct TextPart {
    pub fg: u32,
    pub bg: u32,
    pub font: Handle,
    pub string: Handle,
}

/// `|v|` of the `i32` whose bits are `v`.
pub open spec fn abs_bits(v: u32) -> u32 {
    if v >= 0x8000_0000 {
        (0x1_0000_0000 - v) as u32
    } else {
        v
    }
}

fn abs_of_bits(v: u32) -> (r: u32)
    ensures
        r == abs_bits(v),
{
    if v >= 0x8000_0000 {
        (0x1_0000_0000u64 - v as u64) as u32
    } else {
        v
    }
}

/// The signature `BM`.
pub open spec fn is_bm(b: Seq<u8>) -> bool {
    b.len() >= 2 && b[0] == 0x42 && b[1] == 0x4D
}

/// Width and height from a BMP header; `(0, 0)` when there is none.
pub open spec fn bmp_dims(b: Seq<u8>) -> (u32, u32) {
    if b.len() >= 26 && is_bm(b) {
        (abs_bits(u32_at(b, 18)), abs_bits(u32_at(b, 22)))
    } else {
        (0, 0)
    }
}

fn u32_of(b: &[u8], i: usize) -> (v: u32)
    requires
        i + 4 <= b@.len(),
    ensures
        v == u32_at(b@, i as int),
{
    crate::formats::reader::u32_from(b[i], b[i + 1], b[i + 2], b[i + 3])
}

/// Width and height of a raster from its BMP header.
pub fn bmp_size(bmp: &[u8]) -> (r: (u32, u32))
    ensures
        r == bmp_dims(bmp@),
{
    if bmp.len() >= 26 && bmp[0] == 0x42 && bmp[1] == 0x4D {
        (abs_of_bits(u32_of(bmp, 18)), abs_of_bits(u32_of(bmp, 22)))
    } else {
        (0, 0)
    }
}

/// Bits per pixel.
pub open spec fn bmp_bpp(b: Seq<u8>) -> int {
    u16_at(b, 28) as int
}

/// No compression, or bit fields with 32 bits per pixel.
pub open spec fn compression_ok(b: Seq<u8>) -> bool {
    u32_at(b, 30) == 0 || (u32_at(b, 30) == 3 && bmp_bpp(b) == 32)
}

/// The rows are stored bottom up unless the height is negative.
pub open spec fn top_down(b: Seq<u8>) -> bool {
    u32_at(b, 22) >= 0x8000_0000
}

/// Bytes per stored row: rounded up to whole 32-bit words.
pub open spec fn bmp_stride(w: int, bpp: int) -> int {
    ((w * bpp + 31) / 32) * 4
}

/// `2^n` for `n <= 8`.
pub open spec fn small_pow2(n: int) -> int {
    if n == 0 {
        1
    } else if n == 1 {
        2
    } else if n == 2 {
        4
    } else if n == 3 {
        8
    } else if n == 4 {
        16
    } else if n == 5 {
        32
    } else if n == 6 {
        64
    } else if n == 7 {
        128
    } else {
        256
    }
}

/// Colours of the palette: as the header says, or all that the bits can
/// name; no palette above 8 bits.
pub open spec fn bmp_colors(b: Seq<u8>) -> int {
    if bmp_bpp(b) <= 8 {
        if u32_at(b, 46) == 0 {
            small_pow2(bmp_bpp(b))
        } else {
            u32_at(b, 46) as int
        }
    } else {
        0
    }
}

/// Where the palette starts: after the file header and the info header.
pub open spec fn palette_at(b: Seq<u8>) -> int {
    14 + u32_at(b, 14)
}

/// Bytes of the palette that the file holds.
pub open spec fn palette_len(b: Seq<u8>) -> int {
    let want = bmp_colors(b) * 4;
    let have = b.len() - palette_at(b);
    if want <= have {
        want
    } else {
        have
    }
}

/// Where the stored row for picture row `row` (counted from the top)
/// starts.
pub open spec fn line_at(b: Seq<u8>, row: int) -> int {
    let h = abs_bits(u32_at(b, 22)) as int;
    let src = if top_down(b) {
        row
    } else {
        h - 1 - row
    };
    u32_at(b, 10) + src * bmp_stride(abs_bits(u32_at(b, 18)) as int, bmp_bpp(b))
}

/// Every stored row lies inside the file.
pub open spec fn lines_fit(b: Seq<u8>) -> bool {
    forall|row: int|
        0 <= row < abs_bits(u32_at(b, 22)) ==> #[trigger] line_at(b, row) + bmp_stride(
            abs_bits(u32_at(b, 18)) as int,
            bmp_bpp(b),
        ) <= b.len()
}

/// Bits per pixel that the decoder knows.
pub open spec fn known_bpp(bpp: int) -> bool {
    bpp == 1 || bpp == 4 || bpp == 8 || bpp == 24 || bpp == 32
}

/// Entry `idx` of the palette as (r, g, b); black past its end.
pub open spec fn palette_rgb(b: Seq<u8>, idx: int) -> (u8, u8, u8) {
    if idx * 4 + 3 <= palette_len(b) {
        let p = palette_at(b) + idx * 4;
        (b[p + 2], b[p + 1], b[p])
    } else {
        (0, 0, 0)
    }
}

/// The palette index of pixel `x` of the stored row at `l`.
pub open spec fn palette_index(b: Seq<u8>, l: int, x: int) -> int {
    let bpp = bmp_bpp(b);
    if bpp == 8 {
        b[l + x] as int
    } else if bpp == 4 {
        ((b[l + x / 2] >> (if x % 2 == 0 {
            4u8
        } else {
            0u8
        })) & 15u8) as int
    } else {
        ((b[l + x / 8] >> ((7 - x % 8) as u8)) & 1u8) as int
    }
}

/// The colour (r, g, b) of pixel `x` of picture row `row`.
pub open spec fn pixel_rgb(b: Seq<u8>, row: int, x: int) -> (u8, u8, u8) {
    let l = line_at(b, row);
    let bpp = bmp_bpp(b);
    if bpp == 24 {
        (b[l + x * 3 + 2], b[l + x * 3 + 1], b[l + x * 3])
    } else if bpp == 32 {
        (b[l + x * 4 + 2], b[l + x * 4 + 1], b[l + x * 4])
    } else {
        palette_rgb(b, palette_index(b, l, x))
    }
}

/// A pixel of a 32-bit picture is read from its four bytes (blue, green,
/// red, then a byte that is not read) in the order of the other pictures: it
/// has the colour of the pixel of a 24-bit picture whose three bytes are its
/// first three, and the colour of the palette entry of an 8-bit picture
/// whose four bytes are its four.
pub proof fn law_32_bit_channels(b: Seq<u8>, row: int, x: int, b2: Seq<u8>, row2: int, x2: int)
    requires
        bmp_bpp(b) == 32,
        bmp_bpp(b2) == 24 || bmp_bpp(b2) == 8,
        bmp_bpp(b2) == 24 ==> {
            let o = line_at(b, row) + x * 4;
            let o2 = line_at(b2, row2) + x2 * 3;
            b[o] == b2[o2] && b[o + 1] == b2[o2 + 1] && b[o + 2] == b2[o2 + 2]
        },
        bmp_bpp(b2) == 8 ==> {
            let o = line_at(b, row) + x * 4;
            let idx = palette_index(b2, line_at(b2, row2), x2);
            let q = palette_at(b2) + idx * 4;
            idx * 4 + 3 <= palette_len(b2) && b[o] == b2[q] && b[o + 1] == b2[q + 1] && b[o + 2] == b2[q + 2]
        },
    ensures
        pixel_rgb(b, row, x) == pixel_rgb(b2, row2, x2),
{
}

/// Byte `c` (0 red, 1 green, 2 blue) of a colour.
pub open spec fn channel(rgb: (u8, u8, u8), c: int) -> u8 {
    if c == 0 {
        rgb.0
    } else if c == 1 {
        rgb.1
    } else {
        rgb.2
    }
}

/// The pixels, row by row from the top, three bytes (r, g, b) each.
pub open spec fn decoded_rgb(b: Seq<u8>) -> Seq<u8> {
    let w = abs_bits(u32_at(b, 18)) as int;
    let h = abs_bits(u32_at(b, 22)) as int;
    Seq::new(
        (w * h * 3) as nat,
        |k: int| channel(pixel_rgb(b, (k / 3) / w, (k / 3) % w), k % 3),
    )
}

/// What `decode_bmp` gives: width, height and pixels of a BMP of 1, 4 or 8
/// bits with a palette, or of 24 or 32 bits, not compressed.
pub open spec fn decoded_bmp(b: Seq<u8>) -> Option<(u32, u32, Seq<u8>)> {
    let w = abs_bits(u32_at(b, 18));
    let h = abs_bits(u32_at(b, 22));
    if b.len() < 54 || !is_bm(b) || !compression_ok(b) {
        None
    } else if !lines_fit(b) || (w > 0 && h > 0 && !known_bpp(bmp_bpp(b))) {
        None
    } else {
        Some((w, h, decoded_rgb(b)))
    }
}

/// The inputs that `decode_bmp` reads without running off the data: the
/// palette starts inside the file, the number of pixels fits 32 bits and
/// the pixel bytes fit memory.
pub open spec fn decodable(b: Seq<u8>) -> bool {
    (b.len() >= 54 && is_bm(b) && compression_ok(b)) ==> {
        let w = abs_bits(u32_at(b, 18)) as int;
        let h = abs_bits(u32_at(b, 22)) as int;
        &&& palette_at(b) <= b.len()
        &&& w * h <= u32::MAX
        &&& w * h * 3 <= usize::MAX
    }
}

fn small_pow2_of(n: u64) -> (r: u64)
    requires
        n <= 8,
    ensures
        r == small_pow2(n as int),
{
    if n == 0 {
        1
    } else if n == 1 {
        2
    } else if n == 2 {
        4
    } else if n == 3 {
        8
    } else if n == 4 {
        16
    } else if n == 5 {
        32
    } else if n == 6 {
        64
    } else if n == 7 {
        128
    } else {
        256
    }
}

/// The bytes that pixel `x` uses lie inside its stored row.
pub proof fn lemma_stride_bound(w: int, bpp: int, x: int)
    requires
        0 <= x < w,
        known_bpp(bpp),
    ensures
        bpp == 24 ==> x * 3 + 2 < bmp_stride(w, bpp),
        bpp == 32 ==> x * 4 + 2 < bmp_stride(w, bpp),
        bpp == 8 ==> x < bmp_stride(w, bpp),
        bpp == 4 ==> x / 2 < bmp_stride(w, bpp),
        bpp == 1 ==> x / 8 < bmp_stride(w, bpp),
{
    if bpp == 24 {
        assert(x * 3 + 2 < ((w * 24 + 31) / 32) * 4) by (nonlinear_arith)
            requires
                0 <= x < w,
        ;
    } else if bpp == 32 {
        assert(x * 4 + 2 < ((w * 32 + 31) / 32) * 4) by (nonlinear_arith)
            requires
                0 <= x < w,
        ;
    } else if bpp == 8 {
        assert(x < ((w * 8 + 31) / 32) * 4) by (nonlinear_arith)
            requires
                0 <= x < w,
        ;
    } else if bpp == 4 {
        assert(x / 2 < ((w * 4 + 31) / 32) * 4) by (nonlinear_arith)
            requires
                0 <= x < w,
        ;
    } else {
        assert(x / 8 < ((w * 1 + 31) / 32) * 4) by (nonlinear_arith)
            requires
                0 <= x < w,
        ;
    }
}

/// Where pixel `(row, x)` of a `w`-wide picture lies among the bytes.
pub proof fn lemma_pixel_pos(row: int, x: int, w: int, h: int)
    requires
        0 <= row < h,
        0 <= x < w,
    ensures
        0 <= row * w + x < w * h,
        (row * w + x) * 3 + 3 <= w * h * 3,
        forall|c: int|
            0 <= c < 3 ==> (#[trigger] (((row * w + x) * 3 + c) / 3)) == row * w + x && ((row * w
                + x) * 3 + c) % 3 == c,
        (row * w + x) / w == row,
        (row * w + x) % w == x,
{
    assert(0 <= row * w + x < w * h) by (nonlinear_arith)
        requires
            0 <= row < h,
            0 <= x < w,
    ;
    assert forall|c: int| 0 <= c < 3 implies (#[trigger] (((row * w + x) * 3 + c) / 3)) == row * w
        + x && ((row * w + x) * 3 + c) % 3 == c by {
        vstd::arithmetic::div_mod::lemma_fundamental_div_mod_converse(
            (row * w + x) * 3 + c,
            3,
            row * w + x,
            c,
        );
    }
    vstd::arithmetic::div_mod::lemma_fundamental_div_mod_converse(row * w + x, w, row, x);
}

/// Decodes a BMP to pixels (r, g, b) row by row from the top. Knows 1, 4
/// and 8 bits with a palette, 24 and 32 bits, without compression.
#[verifier::spinoff_prover]
#[verifier::rlimit(60)]
pub fn decode_bmp(bmp: &[u8]) -> (r: Option<(u32, u32, Vec<u8>)>)
    requires
        decodable(bmp@),
    ensures
        match decoded_bmp(bmp@) {
            Some((w, h, p)) => r matches Some((w2, h2, v)) && w2 == w && h2 == h && v@ == p,
            None => r is None,
        },
{
    let ghost b = bmp@;
    if bmp.len() < 54 || bmp[0] != 0x42 || bmp[1] != 0x4D {
        return None;
    }
    let offset = u32_of(bmp, 10) as u64;
    let header = u32_of(bmp, 14) as u64;
    let wb = u32_of(bmp, 18);
    let hb = u32_of(bmp, 22);
    let bpp = crate::formats::reader::u16_from(bmp[28], bmp[29]) as u64;
    let compression = u32_of(bmp, 30);
    if compression != 0 && !(compression == 3 && bpp == 32) {
        return None;
    }
    let w = abs_of_bits(wb);
    let h = abs_of_bits(hb);
    let top = hb >= 0x8000_0000;
    let colors: u64 = if bpp <= 8 {
        let n = u32_of(bmp, 46) as u64;
        if n == 0 {
            small_pow2_of(bpp)
        } else {
            n
        }
    } else {
        0
    };
    let pal_at: u64 = 14 + header;
    let have: u64 = bmp.len() as u64 - pal_at;
    let pal_len: u64 = if colors * 4 <= have {
        colors * 4
    } else {
        have
    };
    assert(pal_len == palette_len(b));
    assert(w as u64 * bpp <= 0xFFFF_FFFF * 0xFFFF) by (nonlinear_arith)
        requires
            w <= 0xFFFF_FFFF,
            bpp <= 0xFFFF,
    ;
    let stride: u64 = ((w as u64 * bpp + 31) / 32) * 4;
    assert(stride == bmp_stride(w as int, bpp as int));
    assert(w * h <= u32::MAX);
    proof {
        assert(stride <= w * 8192 + 4) by (nonlinear_arith)
            requires
                stride == ((w as u64 * bpp + 31) / 32) * 4,
                bpp <= 65535,
        ;
        assert(h * stride <= w * h * 8192 + 4 * h) by (nonlinear_arith)
            requires
                stride <= w * 8192 + 4,
        ;
    }
    let n = bmp.len();
    let mut out: Vec<u8> = Vec::new();
    let mut row: u64 = 0;
    while row < h as u64
        invariant
            b == bmp@,
            54 <= b.len(),
            is_bm(b),
            compression_ok(b),
            decodable(b),
            w == abs_bits(u32_at(b, 18)),
            h == abs_bits(u32_at(b, 22)),
            top == top_down(b),
            offset == u32_at(b, 10),
            bpp == bmp_bpp(b),
            stride == bmp_stride(w as int, bpp as int),
            h * stride <= w * h * 8192 + 4 * h,
            stride <= w * 8192 + 4,
            w * h <= u32::MAX,
            n == b.len(),
            pal_at == palette_at(b),
            pal_len == palette_len(b),
            row <= h,
            forall|r: int| 0 <= r < row ==> #[trigger] line_at(b, r) + stride <= b.len(),
            (w > 0 && row > 0) ==> known_bpp(bpp as int),
            out@ == decoded_rgb(b).take(row * w * 3),
        decreases h - row,
    {
        let src: u64 = if top {
            row
        } else {
            h as u64 - 1 - row
        };
        proof {
            assert(src * stride <= h * stride) by (nonlinear_arith)
                requires
                    src < h,
            ;
        }
        proof {
            assert(w * h * 8192 + 4 * h <= 0xFFFF_FFFF * 8192 + 4 * 0xFFFF_FFFF) by (nonlinear_arith)
                requires
                    w * h <= u32::MAX,
                    h <= 0xFFFF_FFFF,
            ;
        }
        let start: u64 = offset + src * stride;
        assert(start == line_at(b, row as int));
        if start + stride > bmp.len() as u64 {
            return None;
        }
        let mut x: u64 = 0;
        while x < w as u64
            invariant
                b == bmp@,
                54 <= b.len(),
                w == abs_bits(u32_at(b, 18)),
                h == abs_bits(u32_at(b, 22)),
                bpp == bmp_bpp(b),
                stride == bmp_stride(w as int, bpp as int),
                pal_at == palette_at(b),
                pal_len == palette_len(b),
                pal_at <= b.len(),
                row < h,
                start == line_at(b, row as int),
                start + stride <= b.len(),
                n == b.len(),
                x <= w,
                (w > 0 && (row > 0 || x > 0)) ==> known_bpp(bpp as int),
                out@ == decoded_rgb(b).take((row * w + x) * 3),
            decreases w - x,
        {
            if !(bpp == 1 || bpp == 4 || bpp == 8 || bpp == 24 || bpp == 32) {
                return None;
            }
            proof {
                lemma_stride_bound(w as int, bpp as int, x as int);
                lemma_pixel_pos(row as int, x as int, w as int, h as int);
            }
            assert(bpp == 24 ==> start + x * 3 + 2 < b.len());
            assert(bpp == 32 ==> start + x * 4 + 2 < b.len());
            let (r, g, bb) = if bpp == 24 {
                let o = (start + x * 3) as usize;
                (bmp[o + 2], bmp[o + 1], bmp[o])
            } else if bpp == 32 {
                let o = (start + x * 4) as usize;
                (bmp[o + 2], bmp[o + 1], bmp[o])
            } else {
                let l = start as usize;
                let xi = x as usize;
                let idx: u64 = if bpp == 8 {
                    bmp[l + xi] as u64
                } else if bpp == 4 {
                    ((bmp[l + xi / 2] >> (if xi % 2 == 0 {
                        4u8
                    } else {
                        0u8
                    })) & 15u8) as u64
                } else {
                    ((bmp[l + xi / 8] >> ((7 - xi % 8) as u8)) & 1u8) as u64
                };
                assert(idx == palette_index(b, start as int, x as int));
                if idx * 4 + 3 <= pal_len {
                    let p = (pal_at + idx * 4) as usize;
                    (bmp[p + 2], bmp[p + 1], bmp[p])
                } else {
                    (0u8, 0u8, 0u8)
                }
            };
            assert((r, g, bb) == pixel_rgb(b, row as int, x as int));
            let ghost k = (row * w + x) * 3;
            out.push(r);
            out.push(g);
            out.push(bb);
            proof {
                let d = decoded_rgb(b);
                assert(d[k] == r);
                assert(d[k + 1] == g);
                assert(d[k + 2] == bb);
                assert(out@ =~= d.take(k + 3));
                assert((row * w + x + 1) * 3 == k + 3);
            }
            x = x + 1;
        }
        proof {
            assert((row * w + w) * 3 == (row + 1) * w * 3) by (nonlinear_arith);
        }
        row = row + 1;
    }
    proof {
        assert(h * w * 3 == w * h * 3) by (nonlinear_arith);
        assert(out@ =~= decoded_rgb(b));
    }
    Some((w, h, out))
}

/// Bytes per row of a 24-bit BMP: three per pixel, rounded up to four.
pub open spec fn stride24(w: int) -> int {
    ((w * 3 + 3) / 4) * 4
}

/// The 54 bytes of the headers of a 24-bit BMP: file header, then
/// `BITMAPINFOHEADER` with one plane, no compression and 16 zero bytes of
/// resolution and colour counts. The sizes are taken modulo 2³².
pub open spec fn bmp24_head(w: u32, h: u32) -> Seq<u8> {
    let image = stride24(w as int) * h;
    seq![0x42u8, 0x4D] + le32_bytes(((54 + image) % 0x1_0000_0000) as u32) + le32_bytes(0)
        + le32_bytes(54) + le32_bytes(40) + le32_bytes(w) + le32_bytes(h) + le16_bytes(1)
        + le16_bytes(24) + le32_bytes(0) + le32_bytes((image % 0x1_0000_0000) as u32) + Seq::new(
        16,
        |k: int| 0u8,
    )
}

/// One stored row: each pixel as (b, g, r), then zeros up to the stride.
pub open spec fn row24(w: int, rgb: Seq<u8>, row: int) -> Seq<u8> {
    Seq::new(
        (w * 3) as nat,
        |k: int|
            {
                let o = (row * w + k / 3) * 3;
                if k % 3 == 0 {
                    rgb[o + 2]
                } else if k % 3 == 1 {
                    rgb[o + 1]
                } else {
                    rgb[o]
                }
            },
    ) + Seq::new((stride24(w) - w * 3) as nat, |k: int| 0u8)
}

/// The stored rows `h - 1` down to `r`: the file keeps the bottom row
/// first.
pub open spec fn rows24(w: int, h: int, rgb: Seq<u8>, r: int) -> Seq<u8>
    decreases h - r,
{
    if r >= h || r < 0 {
        Seq::empty()
    } else {
        rows24(w, h, rgb, r + 1) + row24(w, rgb, r)
    }
}

/// The 24-bit BMP of `w × h` pixels (r, g, b), rows from the top.
pub open spec fn encoded_bmp24(w: u32, h: u32, rgb: Seq<u8>) -> Seq<u8> {
    bmp24_head(w, h) + rows24(w as int, h as int, rgb, 0)
}

/// The pixels (three bytes each) that `encode_bmp24` reads are there, and
/// the file fits memory.
pub open spec fn encodable(w: u32, h: u32, rgb: Seq<u8>) -> bool {
    &&& w * h * 3 <= rgb.len()
    &&& 54 + stride24(w as int) * h <= usize::MAX
}

/// Encodes pixels (r, g, b), rows from the top, as a 24-bit BMP.
#[verifier::spinoff_prover]
pub fn encode_bmp24(w: u32, h: u32, rgb: &[u8]) -> (out: Vec<u8>)
    requires
        encodable(w, h, rgb@),
    ensures
        out@ == encoded_bmp24(w, h, rgb@),
{
    let stride: u64 = ((w as u64 * 3 + 3) / 4) * 4;
    proof {
        assert(stride <= w * 3 + 3) by (nonlinear_arith)
            requires
                stride == ((w as u64 * 3 + 3) / 4) * 4,
        ;
        assert(stride * h <= usize::MAX);
        assert(stride >= w * 3) by (nonlinear_arith)
            requires
                stride == ((w as u64 * 3 + 3) / 4) * 4,
        ;
    }
    let image: u64 = stride * h as u64;
    let size: u64 = 54 + image;
    let mut wr = Writer::new();
    wr.u8(0x42);
    wr.u8(0x4D);
    wr.u32((size % 0x1_0000_0000) as u32);
    wr.u32(0);
    wr.u32(54);
    wr.u32(40);
    wr.u32(w);
    wr.u32(h);
    wr.u16(1);
    wr.u16(24);
    wr.u32(0);
    wr.u32((image % 0x1_0000_0000) as u32);
    let mut z: usize = 0;
    while z < 16
        invariant
            z <= 16,
            wr.data@ == seq![0x42u8, 0x4D] + le32_bytes(((54 + stride24(w as int) * h) % 0x1_0000_0000) as u32)
                + le32_bytes(0) + le32_bytes(54) + le32_bytes(40) + le32_bytes(w) + le32_bytes(h)
                + le16_bytes(1) + le16_bytes(24) + le32_bytes(0) + le32_bytes(
                ((stride24(w as int) * h) % 0x1_0000_0000) as u32,
            ) + Seq::new(z as nat, |k: int| 0u8),
        decreases 16 - z,
    {
        wr.u8(0);
        proof {
            assert(Seq::new(z as nat, |k: int| 0u8).push(0u8) =~= Seq::new((z + 1) as nat, |k: int| 0u8));
        }
        z = z + 1;
    }
    let mut out = wr.data;
    let n = rgb.len();
    assert(out@ =~= bmp24_head(w, h) + rows24(w as int, h as int, rgb@, h as int));
    let mut row: u64 = h as u64;
    while row > 0
        invariant
            row <= h,
            encodable(w, h, rgb@),
            n == rgb@.len(),
            stride == stride24(w as int),
            stride >= w * 3,
            stride <= w * 3 + 3,
            out@ == bmp24_head(w, h) + rows24(w as int, h as int, rgb@, row as int),
        decreases row,
    {
        row = row - 1;
        let ghost before = out@;
        proof {
            assert((row + 1) * w * 3 <= w * h * 3) by (nonlinear_arith)
                requires
                    row < h,
            ;
        }
        let mut x: u64 = 0;
        while x < w as u64
            invariant
                row < h,
                x <= w,
                encodable(w, h, rgb@),
                (row + 1) * w * 3 <= rgb@.len(),
                n == rgb@.len(),
                out@ == before + Seq::new(
                    (x * 3) as nat,
                    |k: int|
                        {
                            let o = (row * w + k / 3) * 3;
                            if k % 3 == 0 {
                                rgb@[o + 2]
                            } else if k % 3 == 1 {
                                rgb@[o + 1]
                            } else {
                                rgb@[o]
                            }
                        },
                ),
            decreases w - x,
        {
            proof {
                assert((row * w + x) * 3 + 3 <= (row + 1) * w * 3) by (nonlinear_arith)
                    requires
                        x < w,
                ;
                lemma_pixel_pos(row as int, x as int, w as int, h as int);
            }
            let o = ((row * w as u64 + x) * 3) as usize;
            out.push(rgb[o + 2]);
            out.push(rgb[o + 1]);
            out.push(rgb[o]);
            proof {
                let f = |k: int|
                    {
                        let o = (row * w + k / 3) * 3;
                        if k % 3 == 0 {
                            rgb@[o + 2]
                        } else if k % 3 == 1 {
                            rgb@[o + 1]
                        } else {
                            rgb@[o]
                        }
                    };
                assert forall|c: int| 0 <= c < 3 implies (#[trigger] ((x * 3 + c) / 3)) == x && (x * 3
                    + c) % 3 == c by {
                    vstd::arithmetic::div_mod::lemma_fundamental_div_mod_converse(x * 3 + c, 3, x as int, c);
                }
                assert(Seq::new((x * 3) as nat, f).push(rgb@[o as int + 2]).push(rgb@[o as int + 1]).push(
                    rgb@[o as int],
                ) =~= Seq::new((x * 3 + 3) as nat, f));
            }
            x = x + 1;
        }
        let mut pad: u64 = w as u64 * 3;
        while pad < stride
            invariant
                w * 3 <= pad <= stride,
                out@ == before + Seq::new(
                    (w * 3) as nat,
                    |k: int|
                        {
                            let o = (row * w + k / 3) * 3;
                            if k % 3 == 0 {
                                rgb@[o + 2]
                            } else if k % 3 == 1 {
                                rgb@[o + 1]
                            } else {
                                rgb@[o]
                            }
                        },
                ) + Seq::new((pad - w * 3) as nat, |k: int| 0u8),
            decreases stride - pad,
        {
            out.push(0);
            proof {
                assert(Seq::new((pad - w * 3) as nat, |k: int| 0u8).push(0u8) =~= Seq::new(
                    (pad + 1 - w * 3) as nat,
                    |k: int| 0u8,
                ));
            }
            pad = pad + 1;
        }
        proof {
            assert(out@ =~= before + row24(w as int, rgb@, row as int));
        }
    }
    out
}

/// A raster of a graphic space: its BMP, a mask, the file it came from, and
/// its pixels (r, g, b) once they were read. `bmp` is encoded anew from the
/// pixels once per step (`flush`), not on every change of a pixel.
#[derive(Debug, Clone)]
pub struct Dib {
    pub bmp: Vec<u8>,
    pub mask: Vec<u8>,
    pub file: Option<String>,
    pub width: u32,
    pub height: u32,
    pub pixels: Option<Vec<u8>>,
    pub dirty: bool,
}

/// The value `0x00BBGGRR` of the pixel whose bytes (r, g, b) start at `o`.
pub open spec fn rgb_value(p: Seq<u8>, o: int) -> u32 {
    (p[o] + p[o + 1] * 256 + p[o + 2] * 65536) as u32
}

/// The pixels with those at `o` set to the colour `0x00BBGGRR`.
pub open spec fn set_rgb(p: Seq<u8>, o: int, color: u32) -> Seq<u8> {
    p.update(o, (color % 256) as u8).update(o + 1, ((color / 256) % 256) as u8).update(
        o + 2,
        ((color / 65536) % 256) as u8,
    )
}

/// Where the pixel `(x, y)` of a `w`-wide picture starts.
pub open spec fn pixel_offset(w: u32, x: int, y: int) -> int {
    (y * w + x) * 3
}

pub open spec fn in_picture(x: i64, y: i64, w: u32, h: u32) -> bool {
    0 <= x < w && 0 <= y < h
}

impl Dib {
    /// Width, height and pixels: those held, else those the BMP decodes to.
    pub open spec fn loaded(&self) -> Option<(u32, u32, Seq<u8>)> {
        match self.pixels {
            Some(p) => Some((self.width, self.height, p@)),
            None => decoded_bmp(self.bmp@),
        }
    }

    /// The pixel `(x, y)` can be reached: the BMP can be read, and a pixel
    /// inside the picture lies inside the pixels, at an offset that fits
    /// 32 bits.
    pub open spec fn reachable(&self, x: i64, y: i64) -> bool {
        &&& (self.pixels is None ==> decodable(self.bmp@))
        &&& match self.loaded() {
            Some((w, h, p)) => in_picture(x, y, w, h) ==> pixel_offset(w, x as int, y as int) + 2
                < p.len() && pixel_offset(w, x as int, y as int) <= u32::MAX,
            None => true,
        }
    }

    /// The fields other than the pixels and the size stay.
    pub open spec fn same_source(&self, other: &Dib) -> bool {
        &&& self.bmp@ == other.bmp@
        &&& self.mask@ == other.mask@
        &&& self.file == other.file
    }

    /// A raster from a BMP; the size is read from its header, the pixels
    /// on first use.
    pub fn new(bmp: Vec<u8>, mask: Vec<u8>, file: Option<String>) -> (d: Self)
        ensures
            d.bmp@ == bmp@,
            d.mask@ == mask@,
            d.file == file,
            (d.width, d.height) == bmp_dims(bmp@),
            d.pixels is None,
            !d.dirty,
    {
        let (width, height) = bmp_size(bmp.as_slice());
        Dib { bmp, mask, file, width, height, pixels: None, dirty: false }
    }

    fn ensure_pixels(&mut self) -> (r: Option<()>)
        requires
            old(self).pixels is None ==> decodable(old(self).bmp@),
        ensures
            final(self).same_source(old(self)),
            final(self).dirty == old(self).dirty,
            match old(self).loaded() {
                Some((w, h, p)) => r is Some && final(self).loaded() == Some((w, h, p))
                    && final(self).pixels is Some,
                None => r is None && final(self).pixels is None && final(self).width == old(
                    self,
                ).width && final(self).height == old(self).height,
            },
    {
        if self.pixels.is_none() {
            match decode_bmp(self.bmp.as_slice()) {
                Some((w, h, rgb)) => {
                    self.width = w;
                    self.height = h;
                    self.pixels = Some(rgb);
                },
                None => {
                    return None;
                },
            }
        }
        Some(())
    }

    /// The colour `0x00BBGGRR` of the pixel `(x, y)`; `None` outside the
    /// picture or when the BMP cannot be read.
    pub fn pixel(&mut self, x: i64, y: i64) -> (r: Option<u32>)
        requires
            old(self).reachable(x, y),
        ensures
            final(self).same_source(old(self)),
            final(self).dirty == old(self).dirty,
            match old(self).loaded() {
                Some((w, h, p)) => final(self).loaded() == Some((w, h, p)) && final(self).pixels is Some
                    && r == if in_picture(x, y, w, h) {
                    Some(rgb_value(p, pixel_offset(w, x as int, y as int)))
                } else {
                    None
                },
                None => r is None && final(self).pixels is None,
            },
    {
        if self.ensure_pixels().is_none() {
            return None;
        }
        if x < 0 || y < 0 || x >= self.width as i64 || y >= self.height as i64 {
            return None;
        }
        let o = ((y as u32 * self.width + x as u32) * 3) as usize;
        assert(o == pixel_offset(self.width, x as int, y as int));
        assert(in_picture(x, y, self.width, self.height));
        match &self.pixels {
            Some(p) => {
                assert(self.loaded() == Some((self.width, self.height, p@)));
                let n = p.len();
                assert(o + 2 < n);
                let a = p[o] as u32;
                let b = p[o + 1] as u32;
                let c = p[o + 2] as u32;
                assert(a | (b << 8) | (c << 16) == a + b * 256 + c * 65536) by (bit_vector)
                    requires
                        a < 256,
                        b < 256,
                        c < 256,
                ;
                Some(a | (b << 8) | (c << 16))
            },
            None => None,
        }
    }

    /// Sets the pixel `(x, y)` to the colour `0x00BBGGRR` (the top byte is
    /// dropped) and marks the raster changed; `None` outside the picture or
    /// when the BMP cannot be read.
    pub fn set_pixel(&mut self, x: i64, y: i64, color: u32) -> (r: Option<()>)
        requires
            old(self).reachable(x, y),
        ensures
            final(self).same_source(old(self)),
            match old(self).loaded() {
                Some((w, h, p)) => final(self).width == w && final(self).height == h && if in_picture(
                    x,
                    y,
                    w,
                    h,
                ) {
                    r is Some && final(self).dirty && final(self).loaded() == Some(
                        (w, h, set_rgb(p, pixel_offset(w, x as int, y as int), color)),
                    )
                } else {
                    r is None && final(self).dirty == old(self).dirty && final(self).loaded() == Some(
                        (w, h, p),
                    )
                },
                None => r is None && final(self).pixels is None && final(self).dirty == old(
                    self,
                ).dirty,
            },
    {
        if self.ensure_pixels().is_none() {
            return None;
        }
        if x < 0 || y < 0 || x >= self.width as i64 || y >= self.height as i64 {
            return None;
        }
        let o = ((y as u32 * self.width + x as u32) * 3) as usize;
        assert(o == pixel_offset(self.width, x as int, y as int));
        let mut p = match self.pixels.take() {
            Some(p) => p,
            None => {
                return None;
            },
        };
        assert((color & 0xff) == color % 256 && ((color >> 8) & 0xff) == (color / 256) % 256 && ((
        color >> 16) & 0xff) == (color / 65536) % 256) by (bit_vector);
        let v0 = (color & 0xff) as u8;
        let v1 = ((color >> 8) & 0xff) as u8;
        let v2 = ((color >> 16) & 0xff) as u8;
        let n = p.len();
        assert(o + 2 < n);
        p.set(o, v0);
        p.set(o + 1, v1);
        p.set(o + 2, v2);
        self.pixels = Some(p);
        self.dirty = true;
        Some(())
    }

    /// Encodes changed pixels back into `bmp`.
    pub fn flush(&mut self)
        requires
            old(self).dirty ==> (old(self).pixels matches Some(p) ==> encodable(
                old(self).width,
                old(self).height,
                p@,
            )),
        ensures
            final(self).mask@ == old(self).mask@,
            final(self).file == old(self).file,
            final(self).width == old(self).width,
            final(self).height == old(self).height,
            final(self).pixels == old(self).pixels,
            !final(self).dirty,
            final(self).bmp@ == if old(self).dirty && old(self).pixels is Some {
                encoded_bmp24(old(self).width, old(self).height, old(self).pixels.unwrap()@)
            } else {
                old(self).bmp@
            },
            old(self).dirty && old(self).pixels is Some && old(self).width < 0x8000_0000 && old(
                self,
            ).height < 0x8000_0000 && old(self).width * old(self).height <= u32::MAX && old(
                self,
            ).pixels.unwrap()@.len() == old(self).width * old(self).height * 3 ==> decoded_bmp(
                final(self).bmp@,
            ) == Some((old(self).width, old(self).height, old(self).pixels.unwrap()@)),
    {
        if self.dirty {
            match &self.pixels {
                Some(p) => {
                    let n = p.len();
                    proof {
                        if self.width < 0x8000_0000 && self.height < 0x8000_0000 && self.width
                            * self.height <= u32::MAX && p@.len() == self.width * self.height * 3 {
                            law_bmp24_round_trip(self.width, self.height, p@);
                        }
                    }
                    self.bmp = encode_bmp24(self.width, self.height, p.as_slice());
                },
                None => {},
            }
            self.dirty = false;
        }
    }
}

/// A pixel read after it was set gives the colour set, without its top
/// byte.
pub proof fn law_pixel_after_set(p: Seq<u8>, o: int, color: u32)
    requires
        0 <= o,
        o + 2 < p.len(),
    ensures
        rgb_value(set_rgb(p, o, color), o) == color % 0x100_0000,
        set_rgb(p, o, color).len() == p.len(),
{
    let q = set_rgb(p, o, color);
    assert(q[o] == (color % 256) as u8);
    assert(q[o + 1] == ((color / 256) % 256) as u8);
    assert(q[o + 2] == ((color / 65536) % 256) as u8);
    assert((color % 256) + ((color / 256) % 256) * 256 + ((color / 65536) % 256) * 65536 == color
        % 0x100_0000) by (bit_vector);
}

/// Setting a pixel leaves the other pixels as they were.
pub proof fn law_set_keeps_other_pixels(p: Seq<u8>, o: int, color: u32, i: int)
    requires
        0 <= o,
        o + 2 < p.len(),
        0 <= i < p.len(),
        i < o || o + 2 < i,
    ensures
        set_rgb(p, o, color)[i] == p[i],
{
}

/// Where pixels of a picture lie: inside its bytes, and apart for two
/// different pixels.
pub proof fn lemma_pixel_offsets(w: u32, h: u32, x: i64, y: i64, x2: i64, y2: i64)
    requires
        in_picture(x, y, w, h),
        in_picture(x2, y2, w, h),
    ensures
        0 <= pixel_offset(w, x as int, y as int),
        pixel_offset(w, x as int, y as int) + 2 < w * h * 3,
        (x, y) != (x2, y2) ==> pixel_offset(w, x as int, y as int) + 3 <= pixel_offset(
            w,
            x2 as int,
            y2 as int,
        ) || pixel_offset(w, x2 as int, y2 as int) + 3 <= pixel_offset(w, x as int, y as int),
{
    let (xi, yi, x2i, y2i, wi, hi) = (x as int, y as int, x2 as int, y2 as int, w as int, h as int);
    assert(0 <= yi * wi + xi && yi * wi + xi < wi * hi) by (nonlinear_arith)
        requires
            0 <= xi < wi,
            0 <= yi < hi,
    ;
    if (x, y) != (x2, y2) {
        assert(yi * wi + xi != y2i * wi + x2i) by (nonlinear_arith)
            requires
                0 <= xi < wi,
                0 <= x2i < wi,
                0 <= yi,
                0 <= y2i,
                xi != x2i || yi != y2i,
        {
            if yi < y2i {
                assert(yi * wi + wi <= y2i * wi);
            } else if y2i < yi {
                assert(y2i * wi + wi <= yi * wi);
            }
        }
    }
}

/// On the pixels of a raster (`w` by `h`, three bytes a pixel), setting
/// the pixel `(x, y)` to a colour, as `Dib::set_pixel` does, makes `Dib::pixel`
/// read that colour without its top byte there, and every other pixel of
/// the picture read as before.
pub proof fn law_dib_set_then_read(
    w: u32,
    h: u32,
    p: Seq<u8>,
    x: i64,
    y: i64,
    x2: i64,
    y2: i64,
    color: u32,
)
    requires
        p.len() == w * h * 3,
        in_picture(x, y, w, h),
        in_picture(x2, y2, w, h),
        (x2, y2) != (x, y),
    ensures
        ({
            let q = set_rgb(p, pixel_offset(w, x as int, y as int), color);
            &&& q.len() == p.len()
            &&& rgb_value(q, pixel_offset(w, x as int, y as int)) == color % 0x100_0000
            &&& rgb_value(q, pixel_offset(w, x2 as int, y2 as int)) == rgb_value(
                p,
                pixel_offset(w, x2 as int, y2 as int),
            )
        }),
{
    let o = pixel_offset(w, x as int, y as int);
    let o2 = pixel_offset(w, x2 as int, y2 as int);
    lemma_pixel_offsets(w, h, x, y, x2, y2);
    lemma_pixel_offsets(w, h, x2, y2, x, y);
    law_pixel_after_set(p, o, color);
    law_set_keeps_other_pixels(p, o, color, o2);
    law_set_keeps_other_pixels(p, o, color, o2 + 1);
    law_set_keeps_other_pixels(p, o, color, o2 + 2);
}

/// A raster that `encode_bmp24` made reads back through a `Dib` pixel by
/// pixel: every pixel of the picture can be reached, and the pixels it
/// loads are those encoded, so `pixel` gives each one's colour and
/// `set_pixel` changes only the one it is given (`law_dib_set_then_read`).
pub proof fn law_encoded_dib(w: u32, h: u32, rgb: Seq<u8>, d: Dib, x: i64, y: i64)
    requires
        w < 0x8000_0000,
        h < 0x8000_0000,
        w * h * 3 <= u32::MAX,
        rgb.len() == w * h * 3,
        encodable(w, h, rgb),
        d.bmp@ == encoded_bmp24(w, h, rgb),
        d.pixels is None,
        in_picture(x, y, w, h),
    ensures
        d.reachable(x, y),
        d.loaded() == Some((w, h, rgb)),
{
    assert(w * h <= u32::MAX) by (nonlinear_arith)
        requires
            w * h * 3 <= u32::MAX,
    ;
    law_bmp24_round_trip(w, h, rgb);
    lemma_pixel_offsets(w, h, x, y, x, y);
}

/// The smallest handle from 1 on that a table does not use. Objects, pens,
/// brushes, fonts, strings, texts and rasters are numbered apart, and a new
/// entry takes the smallest free number.
pub fn lowest_free<T>(table: &BTreeMap<Handle, T>) -> (h: Handle)
    requires
        exists|f: Handle| 1 <= f && !table@.contains_key(f),
    ensures
        1 <= h,
        !table@.contains_key(h),
        forall|j: Handle| 1 <= j < h ==> table@.contains_key(j),
{
    broadcast use vstd::laws_cmp::group_laws_cmp;
    let mut h: Handle = 1;
    while table.contains_key(&h)
        invariant
            1 <= h,
            exists|f: Handle| 1 <= f && !table@.contains_key(f),
            forall|j: Handle| 1 <= j < h ==> table@.contains_key(j),
        decreases u32::MAX - h,
    {
        proof {
            let f = choose|f: Handle| 1 <= f && !table@.contains_key(f);
            if h == u32::MAX {
                assert(table@.contains_key(f));
            }
        }
        h = h + 1;
    }
    h
}

pub proof fn lemma_row24_len(w: int, rgb: Seq<u8>, row: int)
    requires
        0 <= w,
    ensures
        row24(w, rgb, row).len() == stride24(w),
{
    assert(stride24(w) >= w * 3) by (nonlinear_arith)
        requires
            0 <= w,
    ;
}

pub proof fn lemma_rows24_len(w: int, h: int, rgb: Seq<u8>, r: int)
    requires
        0 <= w,
        0 <= r <= h,
    ensures
        rows24(w, h, rgb, r).len() == (h - r) * stride24(w),
    decreases h - r,
{
    if r < h {
        lemma_rows24_len(w, h, rgb, r + 1);
        lemma_row24_len(w, rgb, r);
        assert(rows24(w, h, rgb, r) == rows24(w, h, rgb, r + 1) + row24(w, rgb, r));
        assert((h - r - 1) * stride24(w) + stride24(w) == (h - r) * stride24(w)) by (nonlinear_arith);
    } else {
        assert((h - r) * stride24(w) == 0) by (nonlinear_arith)
            requires
                r == h,
        ;
    }
}

/// The stored row of picture row `row` lies `h - 1 - row` strides into
/// the rows.
pub proof fn lemma_rows24_at(w: int, h: int, rgb: Seq<u8>, r: int, row: int, j: int)
    requires
        0 <= w,
        0 <= r <= row < h,
        0 <= j < stride24(w),
    ensures
        rows24(w, h, rgb, r)[(h - 1 - row) * stride24(w) + j] == row24(w, rgb, row)[j],
    decreases h - r,
{
    let st = stride24(w);
    lemma_rows24_len(w, h, rgb, r + 1);
    lemma_row24_len(w, rgb, r);
    if row == r {
        assert(rows24(w, h, rgb, r) == rows24(w, h, rgb, r + 1) + row24(w, rgb, r));
    } else {
        lemma_rows24_at(w, h, rgb, r + 1, row, j);
        assert((h - 1 - row) * st + j < (h - 1 - r) * st) by (nonlinear_arith)
            requires
                r < row,
                0 <= j < st,
        ;
        assert(rows24(w, h, rgb, r) == rows24(w, h, rgb, r + 1) + row24(w, rgb, r));
    }
}

/// The header fields that `decode_bmp` reads in a 24-bit BMP written by
/// `encode_bmp24`.
#[verifier::spinoff_prover]
pub proof fn lemma_bmp24_head(w: u32, h: u32, rest: Seq<u8>)
    ensures
        ({
            let b = bmp24_head(w, h) + rest;
            &&& b.len() == 54 + rest.len()
            &&& b[0] == 0x42 && b[1] == 0x4D
            &&& u32_at(b, 10) == 54
            &&& u32_at(b, 14) == 40
            &&& u32_at(b, 18) == w
            &&& u32_at(b, 22) == h
            &&& u16_at(b, 28) == 24
            &&& u32_at(b, 30) == 0
        }),
{
    let image = stride24(w as int) * h;
    let size = ((54 + image) % 0x1_0000_0000) as u32;
    let z = Seq::new(16, |k: int| 0u8);
    let b = bmp24_head(w, h) + rest;
    let p2 = seq![0x42u8, 0x4D];
    let t1 = le32_bytes(0) + le32_bytes(54) + le32_bytes(40) + le32_bytes(w) + le32_bytes(h)
        + le16_bytes(1) + le16_bytes(24) + le32_bytes(0) + le32_bytes((image % 0x1_0000_0000) as u32)
        + z + rest;
    assert(b =~= p2 + le32_bytes(size) + t1);
    let a10 = p2 + le32_bytes(size) + le32_bytes(0);
    let t2 = le32_bytes(40) + le32_bytes(w) + le32_bytes(h) + le16_bytes(1) + le16_bytes(24)
        + le32_bytes(0) + le32_bytes((image % 0x1_0000_0000) as u32) + z + rest;
    assert(b =~= a10 + le32_bytes(54) + t2);
    crate::formats::writer::law_u32_round_trip(a10, 54, t2);
    let a14 = a10 + le32_bytes(54);
    let t3 = le32_bytes(w) + le32_bytes(h) + le16_bytes(1) + le16_bytes(24) + le32_bytes(0)
        + le32_bytes((image % 0x1_0000_0000) as u32) + z + rest;
    assert(b =~= a14 + le32_bytes(40) + t3);
    crate::formats::writer::law_u32_round_trip(a14, 40, t3);
    let a18 = a14 + le32_bytes(40);
    let t4 = le32_bytes(h) + le16_bytes(1) + le16_bytes(24) + le32_bytes(0) + le32_bytes(
        (image % 0x1_0000_0000) as u32,
    ) + z + rest;
    assert(b =~= a18 + le32_bytes(w) + t4);
    crate::formats::writer::law_u32_round_trip(a18, w, t4);
    let a22 = a18 + le32_bytes(w);
    let t5 = le16_bytes(1) + le16_bytes(24) + le32_bytes(0) + le32_bytes(
        (image % 0x1_0000_0000) as u32,
    ) + z + rest;
    assert(b =~= a22 + le32_bytes(h) + t5);
    crate::formats::writer::law_u32_round_trip(a22, h, t5);
    let a28 = a22 + le32_bytes(h) + le16_bytes(1);
    let t6 = le32_bytes(0) + le32_bytes((image % 0x1_0000_0000) as u32) + z + rest;
    assert(b =~= a28 + le16_bytes(24) + t6);
    crate::formats::writer::law_u16_round_trip(a28, 24, t6);
    let a30 = a28 + le16_bytes(24);
    let t7 = le32_bytes((image % 0x1_0000_0000) as u32) + z + rest;
    assert(b =~= a30 + le32_bytes(0) + t7);
    crate::formats::writer::law_u32_round_trip(a30, 0, t7);
}

/// `bmp_stride` at 24 bits is `stride24`.
pub proof fn lemma_stride24(w: int)
    requires
        0 <= w,
    ensures
        bmp_stride(w, 24) == stride24(w),
{
    let q = (w * 3 + 3) / 4;
    let r = (w * 3 + 3) % 4;
    vstd::arithmetic::div_mod::lemma_fundamental_div_mod(w * 3 + 3, 4);
    assert(w * 24 + 31 == q * 32 + (8 * r + 7));
    vstd::arithmetic::div_mod::lemma_fundamental_div_mod_converse(w * 24 + 31, 32, q, 8 * r + 7);
}

/// Each stored row of an encoded BMP holds its picture row.
proof fn lemma_encoded_rows(w: u32, h: u32, rgb: Seq<u8>, row: int, j: int)
    requires
        0 <= row < h,
        0 <= j < stride24(w as int),
    ensures
        encoded_bmp24(w, h, rgb)[54 + (h - 1 - row) * stride24(w as int) + j] == row24(
            w as int,
            rgb,
            row,
        )[j],
{
    let st = stride24(w as int);
    let rs = rows24(w as int, h as int, rgb, 0);
    lemma_bmp24_head(w, h, rs);
    lemma_rows24_len(w as int, h as int, rgb, 0);
    lemma_rows24_at(w as int, h as int, rgb, 0, row, j);
    assert((h - 1 - row) * st + j < h * st) by (nonlinear_arith)
        requires
            0 <= row < h,
            0 <= j < st,
    ;
}

/// One byte of the decoded pixels of a 24-bit BMP whose rows hold the
/// pixels `rgb`, bottom row first.
#[verifier::spinoff_prover]
#[verifier::rlimit(60)]
proof fn lemma_decoded_byte(b: Seq<u8>, w: u32, h: u32, rgb: Seq<u8>, k: int)
    requires
        w < 0x8000_0000,
        h < 0x8000_0000,
        bmp_bpp(b) == 24,
        u32_at(b, 10) == 54,
        u32_at(b, 18) == w,
        u32_at(b, 22) == h,
        rgb.len() == w * h * 3,
        0 <= k < rgb.len(),
        forall|row: int, j: int|
            0 <= row < h && 0 <= j < stride24(w as int) ==> b[54 + (h - 1 - row) * stride24(w as int)
                + j] == #[trigger] row24(w as int, rgb, row)[j],
    ensures
        decoded_rgb(b)[k] == rgb[k],
{
    let st = stride24(w as int);
    lemma_stride24(w as int);
    let p = k / 3;
    let c = k % 3;
    assert(w > 0) by (nonlinear_arith)
        requires
            0 <= k < w * h * 3,
    ;
    let row = p / w as int;
    let x = p % w as int;
    vstd::arithmetic::div_mod::lemma_fundamental_div_mod(k, 3);
    vstd::arithmetic::div_mod::lemma_fundamental_div_mod(p, w as int);
    assert(0 <= row < h) by (nonlinear_arith)
        requires
            row == p / w as int,
            p == k / 3,
            0 <= k < w * h * 3,
            w > 0,
    ;
    assert(0 <= x < w);
    let l = line_at(b, row);
    assert(l == 54 + (h - 1 - row) * st);
    lemma_stride_bound(w as int, 24, x);
    let o = (row * w + x) * 3;
    assert(o == p * 3);
    let r24 = row24(w as int, rgb, row);
    assert(b[l + x * 3] == r24[x * 3]);
    assert(b[l + x * 3 + 1] == r24[x * 3 + 1]);
    assert(b[l + x * 3 + 2] == r24[x * 3 + 2]);
    assert forall|j: int| 0 <= j < 3 implies (#[trigger] ((x * 3 + j) / 3)) == x && (x * 3 + j) % 3
        == j by {
        vstd::arithmetic::div_mod::lemma_fundamental_div_mod_converse(x * 3 + j, 3, x, j);
    }
    assert(r24[x * 3] == rgb[o + 2]);
    assert(r24[x * 3 + 1] == rgb[o + 1]);
    assert(r24[x * 3 + 2] == rgb[o]);
    assert(pixel_rgb(b, row, x) == (rgb[o], rgb[o + 1], rgb[o + 2]));
    assert(k == o + c);
}

/// A 24-bit BMP, not compressed, bottom row first, whose rows hold the
/// pixels `rgb`, decodes to them.
#[verifier::spinoff_prover]
#[verifier::rlimit(60)]
proof fn lemma_decoded_of(b: Seq<u8>, w: u32, h: u32, rgb: Seq<u8>)
    requires
        w < 0x8000_0000,
        h < 0x8000_0000,
        w * h <= u32::MAX,
        w * h * 3 <= usize::MAX,
        b.len() == 54 + h * stride24(w as int),
        b[0] == 0x42 && b[1] == 0x4D,
        u32_at(b, 10) == 54,
        u32_at(b, 14) == 40,
        u32_at(b, 18) == w,
        u32_at(b, 22) == h,
        u16_at(b, 28) == 24,
        u32_at(b, 30) == 0,
        rgb.len() == w * h * 3,
        forall|row: int, j: int|
            0 <= row < h && 0 <= j < stride24(w as int) ==> b[54 + (h - 1 - row) * stride24(w as int)
                + j] == #[trigger] row24(w as int, rgb, row)[j],
    ensures
        decodable(b),
        decoded_bmp(b) == Some((w, h, rgb)),
{
    let st = stride24(w as int);
    lemma_stride24(w as int);
    assert(st >= 0) by (nonlinear_arith)
        requires
            st == ((w * 3 + 3) / 4) * 4,
            w >= 0,
    ;
    assert(abs_bits(u32_at(b, 18)) == w);
    assert(abs_bits(u32_at(b, 22)) == h);
    assert(!top_down(b));
    assert(palette_at(b) == 54);
    assert forall|row: int| 0 <= row < h implies #[trigger] line_at(b, row) + bmp_stride(
        w as int,
        bmp_bpp(b),
    ) <= b.len() by {
        assert((h - 1 - row) * st + st <= h * st) by (nonlinear_arith)
            requires
                0 <= row < h,
                st >= 0,
        ;
    }
    assert(lines_fit(b));
    assert(decoded_rgb(b).len() == rgb.len());
    assert forall|k: int| 0 <= k < rgb.len() implies decoded_rgb(b)[k] == rgb[k] by {
        lemma_decoded_byte(b, w, h, rgb, k);
    }
    assert(decoded_rgb(b) =~= rgb);
}

/// A 24-bit BMP written by `encode_bmp24` decodes to the same pixels: the
/// raster a DIB flushes reads back as the pixels it held. Width and height
/// stay below 2³¹ (the header keeps them as signed numbers), the number of
/// pixels fits 32 bits and the pixel bytes fit memory.
#[verifier::spinoff_prover]
pub proof fn law_bmp24_round_trip(w: u32, h: u32, rgb: Seq<u8>)
    requires
        w < 0x8000_0000,
        h < 0x8000_0000,
        w * h <= u32::MAX,
        w * h * 3 <= usize::MAX,
        rgb.len() == w * h * 3,
        encodable(w, h, rgb),
    ensures
        decodable(encoded_bmp24(w, h, rgb)),
        decoded_bmp(encoded_bmp24(w, h, rgb)) == Some((w, h, rgb)),
{
    let b = encoded_bmp24(w, h, rgb);
    lemma_bmp24_head(w, h, rows24(w as int, h as int, rgb, 0));
    lemma_rows24_len(w as int, h as int, rgb, 0);
    assert(b.len() == 54 + h * stride24(w as int));
    assert forall|row: int, j: int|
        0 <= row < h && 0 <= j < stride24(w as int) implies b[54 + (h - 1 - row) * stride24(w as int)
        + j] == #[trigger] row24(w as int, rgb, row)[j] by {
        lemma_encoded_rows(w, h, rgb, row, j);
    }
    lemma_decoded_of(b, w, h, rgb);
}

} // verus!
