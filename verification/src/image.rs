//! Shared image types: an axis-aligned rectangle and a row-major image with
//! one (gray) or three (RGB) interleaved channels.

use vstd::prelude::*;
use vstd::utf8::{valid_utf8, decode_utf8};
use crate::ppm::{GrayImage, encode_pgm, encode_ppm_rgb, pgm_encoding, ppm_encoding};
use crate::text::{IntErrorKind, parse_uint, parse_uint_str, int_result, ascii_bytes, trimmed, trim, nth_word, word_at, utf8_decode, chars_of};
use crate::http::slice_bytes;

verus! {

/// Axis-aligned rectangle with integer origin and size.
#[derive(Debug, Clone, Copy, PartialEq, Eq, Structural)]
pub struct Rect {
    pub x: i32,
    pub y: i32,
    pub w: i32,
    pub h: i32,
}

/// `max(v, 0)` over integers.
pub open spec fn nonneg(v: int) -> int {
    if v < 0 { 0 } else { v }
}

impl Rect {
    pub fn new(x: i32, y: i32, w: i32, h: i32) -> (r: Self)
        ensures
            r == (Rect { x, y, w, h }),
    {
        Self { x, y, w, h }
    }

    /// Exclusive right edge.
    pub fn right(&self) -> (r: i32)
        requires
            i32::MIN <= self.x + self.w <= i32::MAX,
        ensures
            r == self.x + self.w,
    {
        self.x + self.w
    }

    /// Exclusive bottom edge.
    pub fn bottom(&self) -> (r: i32)
        requires
            i32::MIN <= self.y + self.h <= i32::MAX,
        ensures
            r == self.y + self.h,
    {
        self.y + self.h
    }

    /// Area, counting a negative side as zero.
    pub fn area(&self) -> (r: i32)
        requires
            nonneg(self.w as int) * nonneg(self.h as int) <= i32::MAX,
        ensures
            r == nonneg(self.w as int) * nonneg(self.h as int),
    {
        let w = if self.w < 0 { 0 } else { self.w };
        let h = if self.h < 0 { 0 } else { self.h };
        w * h
    }
}

/// Row-major image; pixel `(x, y)` channel `c` lives at `(y * width + x) * channels + c`.
#[derive(Debug, Clone)]
pub struct Image {
    pub width: usize,
    pub height: usize,
    pub channels: usize,
    pub data: Vec<u8>,
}

impl Image {
    /// The buffer holds exactly `width * height * channels` bytes.
    pub open spec fn wf(&self) -> bool {
        self.data@.len() == self.width * self.height * self.channels
    }

    /// Byte of channel `c` at pixel `(x, y)`.
    pub open spec fn at(&self, x: int, y: int, c: int) -> u8 {
        self.data@[(y * self.width + x) * self.channels + c]
    }

    pub fn from_grayscale(width: usize, height: usize, data: Vec<u8>) -> (img: Self)
        requires
            data@.len() == width * height,
        ensures
            img.width == width,
            img.height == height,
            img.channels == 1,
            img.data@ == data@,
            img.wf(),
    {
        Self { width, height, channels: 1, data }
    }

    pub fn from_rgb(width: usize, height: usize, data: Vec<u8>) -> (img: Self)
        requires
            data@.len() == width * height * 3,
        ensures
            img.width == width,
            img.height == height,
            img.channels == 3,
            img.data@ == data@,
            img.wf(),
    {
        Self { width, height, channels: 3, data }
    }
}

/// ITU-R BT.601 luma in fixed point: `(77 r + 150 g + 29 b) / 256`.
pub open spec fn luma(r: u8, g: u8, b: u8) -> u8 {
    ((77 * r + 150 * g + 29 * b) / 256) as u8
}

/// The gray buffer of an image: the data itself for one channel, otherwise the
/// luma of the bytes at `3 i`, `3 i + 1`, `3 i + 2` for each pixel `i`.
pub open spec fn gray_of(img: Image) -> Seq<u8> {
    if img.channels == 1 {
        img.data@
    } else {
        Seq::new(
            (img.width * img.height) as nat,
            |i: int| luma(img.data@[i * 3], img.data@[i * 3 + 1], img.data@[i * 3 + 2]),
        )
    }
}

/// Flat index of channel `c` of pixel `(x, y)` in a `w`-wide image with `ch` channels.
pub open spec fn flat(x: int, y: int, c: int, w: int, ch: int) -> int {
    (y * w + x) * ch + c
}

/// Flat indices of a pixel cover `[p * ch, p * ch + ch)`, below `n * ch` for `p < n`.
pub proof fn lemma_flat_bound(p: int, c: int, n: int, ch: int)
    requires
        0 <= p < n,
        0 <= c < ch,
    ensures
        0 <= p * ch + c < n * ch,
        p * ch + c <= n * ch - 1,
{
    assert(p * ch + ch <= n * ch) by (nonlinear_arith)
        requires
            p + 1 <= n,
            0 <= ch,
    ;
    assert(0 <= p * ch) by (nonlinear_arith)
        requires
            0 <= p,
            0 <= ch,
    ;
}

/// A byte of another pixel lies outside the block of pixel `p2`.
pub proof fn lemma_flat_outside(p1: int, c1: int, p2: int, ch: int)
    requires
        0 <= p1,
        0 <= p2,
        p1 != p2,
        0 <= c1 < ch,
    ensures
        p1 * ch + c1 < p2 * ch || p1 * ch + c1 >= p2 * ch + ch,
{
    if p1 < p2 {
        assert(p1 * ch + ch <= p2 * ch) by (nonlinear_arith)
            requires
                p1 + 1 <= p2,
                0 <= ch,
        ;
    } else {
        assert(p2 * ch + ch <= p1 * ch) by (nonlinear_arith)
            requires
                p2 + 1 <= p1,
                0 <= ch,
        ;
    }
}

/// Copies `n` bytes from `src[s..]` into `out[dst..]`, leaving the rest.
pub fn copy_bytes(out: &mut Vec<u8>, dst: usize, src: &[u8], s: usize, n: usize)
    requires
        dst + n <= old(out)@.len(),
        s + n <= src@.len(),
    ensures
        final(out)@.len() == old(out)@.len(),
        forall|k: int| 0 <= k < n ==> #[trigger] final(out)@[dst + k] == src@[s + k],
        forall|k: int|
            0 <= k < old(out)@.len() && (k < dst || k >= dst + n) ==> #[trigger] final(out)@[k]
                == old(out)@[k],
{
    let sl = src.len();
    let ol = out.len();
    let mut k: usize = 0;
    while k < n
        invariant
            sl == src@.len(),
            ol == old(out)@.len(),
            dst + n <= old(out)@.len(),
            s + n <= src@.len(),
            k <= n,
            out@.len() == old(out)@.len(),
            forall|kk: int| 0 <= kk < k ==> #[trigger] out@[dst + kk] == src@[s + kk],
            forall|kk: int|
                0 <= kk < old(out)@.len() && (kk < dst || kk >= dst + n) ==> #[trigger] out@[kk]
                    == old(out)@[kk],
        decreases n - k,
    {
        let v = src[s + k];
        out.set(dst + k, v);
        k = k + 1;
    }
}

impl Image {
    /// Gray copy: the data itself for one channel, else the fixed-point luma of
    /// the bytes at `3 i .. 3 i + 2` for each pixel `i`.
    pub fn to_grayscale(&self) -> (g: Vec<u8>)
        requires
            self.channels == 1 || self.data@.len() >= 3 * (self.width * self.height),
            self.width * self.height <= usize::MAX,
        ensures
            g@ == gray_of(*self),
    {
        if self.channels == 1 {
            return self.data.clone();
        }
        let n = self.width * self.height;
        let dl = self.data.len();
        let mut out: Vec<u8> = vec![0u8; n];
        let mut i: usize = 0;
        while i < n
            invariant
                dl == self.data@.len(),
                self.channels != 1,
                n == self.width * self.height,
                self.data@.len() >= 3 * n,
                out@.len() == n,
                i <= n,
                forall|k: int| 0 <= k < i ==> #[trigger] out@[k] == luma(
                    self.data@[k * 3],
                    self.data@[k * 3 + 1],
                    self.data@[k * 3 + 2],
                ),
            decreases n - i,
        {
            let r = self.data[i * 3] as u32;
            let g = self.data[i * 3 + 1] as u32;
            let b = self.data[i * 3 + 2] as u32;
            let s = 77 * r + 150 * g + 29 * b;
            assert(s >> 8u32 == s / 256) by (bit_vector);
            out.set(i, (s >> 8) as u8);
            i = i + 1;
        }
        proof {
            assert(out@ =~= gray_of(*self));
        }
        out
    }

    /// The part of the rectangle `(x, y, w, h)` that lies inside the image,
    /// with the same channels.
    pub fn crop(&self, x: usize, y: usize, w: usize, h: usize) -> (out: Self)
        requires
            self.wf(),
            self.width * self.height <= usize::MAX,
            x + w <= usize::MAX,
            y + h <= usize::MAX,
        ensures
            out.wf(),
            out.channels == self.channels,
            out.width == (if x + w < self.width { x + w } else { self.width as int }) - (if x
                < self.width { x as int } else { self.width as int }),
            out.height == (if y + h < self.height { y + h } else { self.height as int }) - (if y
                < self.height { y as int } else { self.height as int }),
            forall|i: int, j: int, c: int|
                0 <= i < out.width && 0 <= j < out.height && 0 <= c < out.channels ==> #[trigger] out.at(
                    i,
                    j,
                    c,
                ) == self.at(
                    (if x < self.width { x as int } else { self.width as int }) + i,
                    (if y < self.height { y as int } else { self.height as int }) + j,
                    c,
                ),
    {
        let x0 = if x < self.width { x } else { self.width };
        let y0 = if y < self.height { y } else { self.height };
        let x1 = if x + w < self.width { x + w } else { self.width };
        let y1 = if y + h < self.height { y + h } else { self.height };
        let cw = x1 - x0;
        let chh = y1 - y0;
        let nch = self.channels;
        let dl = self.data.len();
        proof {
            assert(cw * chh <= self.width * self.height) by (nonlinear_arith)
                requires
                    cw <= self.width,
                    chh <= self.height,
            ;
            assert(cw * chh * nch <= self.width * self.height * nch) by (nonlinear_arith)
                requires
                    cw * chh <= self.width * self.height,
                    0 <= nch,
            ;
        }
        let mut out: Vec<u8> = vec![0u8; cw * chh * nch];
        let ol = out.len();
        let mut j: usize = 0;
        while j < chh
            invariant
                self.wf(),
                self.width * self.height <= usize::MAX,
                cw * chh <= self.width * self.height,
                dl == self.data@.len(),
                ol == out@.len(),
                nch == self.channels,
                x0 + cw <= self.width,
                y0 + chh <= self.height,
                out@.len() == cw * chh * nch,
                j <= chh,
                forall|ii: int, jj: int, c: int|
                    0 <= ii < cw && 0 <= jj < j && 0 <= c < nch ==> #[trigger] out@[flat(ii, jj, c, cw as int, nch as int)]
                        == self.at(x0 + ii, y0 + jj, c),
            decreases chh - j,
        {
            let mut i: usize = 0;
            while i < cw
                invariant
                    self.wf(),
                    self.width * self.height <= usize::MAX,
                    cw * chh <= self.width * self.height,
                    dl == self.data@.len(),
                    ol == out@.len(),
                    nch == self.channels,
                    x0 + cw <= self.width,
                    y0 + chh <= self.height,
                    out@.len() == cw * chh * nch,
                    j < chh,
                    i <= cw,
                    forall|ii: int, jj: int, c: int|
                        0 <= ii < cw && 0 <= jj < chh && 0 <= c < nch && (jj < j || (jj == j && ii < i))
                            ==> #[trigger] out@[flat(ii, jj, c, cw as int, nch as int)] == self.at(
                            x0 + ii,
                            y0 + jj,
                            c,
                        ),
                decreases cw - i,
            {
                let ghost p = j * cw + i;
                let ghost q = (y0 + j) * self.width + x0 + i;
                proof {
                    crate::ppm::lemma_index_in_grid(i as int, j as int, cw as int, chh as int);
                    crate::ppm::lemma_index_in_grid(x0 + i, y0 + j, self.width as int, self.height as int);
                    if nch > 0 {
                        lemma_flat_bound(p, nch - 1, (cw * chh) as int, nch as int);
                        lemma_flat_bound(q, nch - 1, (self.width * self.height) as int, nch as int);
                    } else {
                        assert(p * nch == 0) by (nonlinear_arith) requires nch == 0;
                        assert(q * nch == 0) by (nonlinear_arith) requires nch == 0;
                    }
                    assert(0 <= j * cw) by (nonlinear_arith);
                    assert(0 <= p * nch) by (nonlinear_arith) requires 0 <= p;
                    assert(0 <= (y0 + j) * self.width) by (nonlinear_arith);
                    assert(0 <= q * nch) by (nonlinear_arith) requires 0 <= q;
                }
                let dst = (j * cw + i) * nch;
                let src = ((y0 + j) * self.width + x0 + i) * nch;
                let ghost before = out@;
                copy_bytes(&mut out, dst, self.data.as_slice(), src, nch);
                proof {
                    assert forall|ii: int, jj: int, c: int|
                        0 <= ii < cw && 0 <= jj < chh && 0 <= c < nch && (jj < j || (jj == j && ii < i + 1))
                            implies #[trigger] out@[flat(ii, jj, c, cw as int, nch as int)] == self.at(
                            x0 + ii,
                            y0 + jj,
                            c,
                        ) by {
                        let pp = jj * cw + ii;
                        crate::ppm::lemma_index_in_grid(ii, jj, cw as int, chh as int);
                        lemma_flat_bound(pp, c, (cw * chh) as int, nch as int);
                        if ii == i && jj == j {
                            assert(out@[dst + c] == self.data@[src + c]);
                        } else {
                            crate::ppm::lemma_grid_distinct(ii, jj, i as int, j as int, cw as int);
                            lemma_flat_outside(pp, c, p, nch as int);
                            assert(out@[pp * nch + c] == before[pp * nch + c]);
                        }
                    }
                }
                i = i + 1;
            }
            j = j + 1;
        }
        let r = Self { width: cw, height: chh, channels: nch, data: out };
        proof {
            assert forall|i: int, j: int, c: int|
                0 <= i < r.width && 0 <= j < r.height && 0 <= c < r.channels implies #[trigger] r.at(i, j, c)
                    == self.at(x0 + i, y0 + j, c) by {
                assert(r.at(i, j, c) == out@[flat(i, j, c, cw as int, nch as int)]);
            }
        }
        r
    }
}


/// The RGB bytes of an image with three or more channels: the first three
/// channels of each pixel.
pub open spec fn first_three(img: Image) -> Seq<u8> {
    Seq::new(
        (img.width * img.height * 3) as nat,
        |k: int| img.data@[(k / 3) * img.channels + k % 3],
    )
}

impl Image {
    /// The file a `save_ppm` writes: binary PGM for one channel, else binary
    /// PPM of the first three channels.
    pub fn ppm_bytes(&self) -> (r: Vec<u8>)
        requires
            self.wf(),
            self.width <= u32::MAX,
            self.height <= u32::MAX,
            self.channels == 1 || self.channels >= 3 || self.width * self.height == 0,
            self.width * self.height * 3 <= usize::MAX,
        ensures
            self.channels == 1 ==> r@ == pgm_encoding(self.width as u32, self.height as u32, self.data@),
            self.channels != 1 ==> r@ == ppm_encoding(
                self.width as u32,
                self.height as u32,
                if self.channels == 3 { self.data@ } else { first_three(*self) },
            ),
    {
        if self.channels == 1 {
            let g = GrayImage { w: self.width as u32, h: self.height as u32, data: self.data.clone() };
            return encode_pgm(&g);
        }
        let np = self.width * self.height;
        let ch = self.channels;
        if ch == 3 {
            let rgb = self.data.clone();
            return encode_ppm_rgb(self.width as u32, self.height as u32, rgb.as_slice());
        }
        let mut rgb: Vec<u8> = Vec::new();
        proof {
            if np > 0 {
                assert(ch >= 3);
                assert(np * ch == self.data@.len()) by (nonlinear_arith)
                    requires
                        np == self.width * self.height,
                        self.data@.len() == self.width * self.height * ch,
                ;
            }
        }
        let total = self.data.len();
        let mut px: usize = 0;
        while px < np
            invariant
                total == self.data@.len(),
                np == self.width * self.height,
                ch == self.channels,
                self.wf(),
                np > 0 ==> ch >= 3,
                np > 0 ==> np * ch == self.data@.len(),
                np * 3 <= usize::MAX,
                px <= np,
                rgb@.len() == px * 3,
                forall|k: int| 0 <= k < px * 3 ==> #[trigger] rgb@[k] == self.data@[(k / 3) * ch + k % 3],
            decreases np - px,
        {
            proof {
                lemma_flat_bound(px as int, 2, np as int, ch as int);
            }
            let base = px * ch;
            let ghost before = rgb@;
            rgb.push(self.data[base]);
            rgb.push(self.data[base + 1]);
            rgb.push(self.data[base + 2]);
            proof {
                assert forall|k: int| 0 <= k < (px + 1) * 3 implies #[trigger] rgb@[k] == self.data@[(k / 3) * ch
                    + k % 3] by {
                    if k < px * 3 {
                        assert(rgb@[k] == before[k]);
                    } else {
                        assert(k / 3 == px);
                    }
                }
            }
            px = px + 1;
        }
        proof {
            assert(rgb@ =~= first_three(*self));
        }
        encode_ppm_rgb(self.width as u32, self.height as u32, rgb.as_slice())
    }
}

// ---------------------------------------------------------------------------
// Reading RGB PPM (P6) files line by line

/// Why an RGB PPM (P6) file could not be read.
#[derive(Debug, Clone, Copy, PartialEq, Eq, Structural)]
pub enum RgbPpmError {
    /// A header line is not valid UTF-8.
    NotUtf8,
    /// The first line, trimmed, is not `P6`.
    NotP6,
    /// The file ends before the size line.
    HeaderEof,
    /// The size line has no width.
    MissingWidth,
    BadWidth(IntErrorKind),
    /// The size line has no height.
    MissingHeight,
    BadHeight(IntErrorKind),
    /// The file ends before the maxval line.
    MaxvalEof,
    BadMaxval(IntErrorKind),
    /// Only 8-bit samples are supported.
    MaxvalTooLarge(u32),
    /// No byte follows the maxval line.
    MissingSeparator,
    /// Fewer pixel bytes than the size announces.
    NotEnoughData,
}

/// Where the line starting at `p` ends: just past its `\n`, or at the end.
pub open spec fn nl_end(b: Seq<u8>, p: int) -> int
    decreases b.len() - p,
{
    if p < 0 || p >= b.len() {
        b.len() as int
    } else if b[p] == 10u8 {
        p + 1
    } else {
        nl_end(b, p + 1)
    }
}

pub proof fn lemma_nl_end(b: Seq<u8>, p: int)
    requires
        0 <= p <= b.len(),
    ensures
        p <= nl_end(b, p) <= b.len(),
        p < b.len() ==> p < nl_end(b, p),
    decreases b.len() - p,
{
    if p < b.len() && b[p] != 10u8 {
        lemma_nl_end(b, p + 1);
    }
}

/// The text of the line `[p, nl_end(b, p))`, trimmed.
pub open spec fn line_trimmed(b: Seq<u8>, p: int) -> Seq<char> {
    trimmed(decode_utf8(b.subrange(p, nl_end(b, p))))
}

/// The start of the first line at or after `p` that is neither blank nor a
/// comment (`#` after trimming); `eof` when the bytes run out first.
pub open spec fn content_line(b: Seq<u8>, p: int, eof: RgbPpmError) -> Result<int, RgbPpmError>
    decreases b.len() - p,
{
    if p < 0 || p >= b.len() {
        Err(eof)
    } else if !valid_utf8(b.subrange(p, nl_end(b, p))) {
        Err(RgbPpmError::NotUtf8)
    } else {
        let t = line_trimmed(b, p);
        if t.len() == 0 || t[0] == '#' {
            proof {
                lemma_nl_end(b, p);
            }
            content_line(b, nl_end(b, p), eof)
        } else {
            Ok(p)
        }
    }
}

/// The header of an RGB PPM file read line by line: `P6`, then (past blank
/// and comment lines) a line whose first two words are the width and height,
/// then a maxval line of at most 255, then one separator byte. Gives width,
/// height and where the pixels start.
pub open spec fn rgb_ppm_header(b: Seq<u8>) -> Result<(int, int, int), RgbPpmError> {
    let e0 = nl_end(b, 0);
    if !valid_utf8(b.subrange(0, e0)) {
        Err(RgbPpmError::NotUtf8)
    } else if line_trimmed(b, 0) != seq!['P', '6'] {
        Err(RgbPpmError::NotP6)
    } else {
        match content_line(b, e0, RgbPpmError::HeaderEof) {
            Err(e) => Err(e),
            Ok(p1) => {
                let s1 = decode_utf8(b.subrange(p1, nl_end(b, p1)));
                match nth_word(s1, 0, 0) {
                    None => Err(RgbPpmError::MissingWidth),
                    Some(ws) => match parse_uint(ascii_bytes(ws), usize::MAX as int) {
                        Err(k) => Err(RgbPpmError::BadWidth(k)),
                        Ok(w) => match nth_word(s1, 0, 1) {
                            None => Err(RgbPpmError::MissingHeight),
                            Some(hs) => match parse_uint(ascii_bytes(hs), usize::MAX as int) {
                                Err(k) => Err(RgbPpmError::BadHeight(k)),
                                Ok(h) => match content_line(b, nl_end(b, p1), RgbPpmError::MaxvalEof) {
                                    Err(e) => Err(e),
                                    Ok(p2) => match parse_uint(ascii_bytes(line_trimmed(b, p2)), u32::MAX as int) {
                                        Err(k) => Err(RgbPpmError::BadMaxval(k)),
                                        Ok(m) => if m > 255 {
                                            Err(RgbPpmError::MaxvalTooLarge(m as u32))
                                        } else if nl_end(b, p2) >= b.len() {
                                            Err(RgbPpmError::MissingSeparator)
                                        } else {
                                            Ok((w, h, nl_end(b, p2) + 1))
                                        },
                                    },
                                },
                            },
                        },
                    },
                }
            },
        }
    }
}

fn nl_end_exec(b: &[u8], p: usize) -> (e: usize)
    requires
        p <= b@.len(),
    ensures
        e == nl_end(b@, p as int),
{
    let n = b.len();
    let mut q = p;
    while q < n && b[q] != 10u8
        invariant
            p <= q <= n,
            n == b@.len(),
            nl_end(b@, q as int) == nl_end(b@, p as int),
        decreases n - q,
    {
        q = q + 1;
    }
    if q < n { q + 1 } else { n }
}

/// The decoded line at `p`, if it is valid UTF-8.
fn line_at(b: &[u8], p: usize) -> (r: Option<String>)
    requires
        p <= b@.len(),
    ensures
        r is Some <==> valid_utf8(b@.subrange(p as int, nl_end(b@, p as int))),
        r matches Some(s) ==> s@ == decode_utf8(b@.subrange(p as int, nl_end(b@, p as int))),
{
    let e = nl_end_exec(b, p);
    proof {
        lemma_nl_end(b@, p as int);
    }
    let bytes = slice_bytes(b, p, e);
    match utf8_decode(bytes.as_slice()) {
        None => None,
        Some(s) => Some(s.to_string()),
    }
}

fn content_line_exec(b: &[u8], p: usize, eof: RgbPpmError) -> (r: Result<usize, RgbPpmError>)
    requires
        p <= b@.len(),
    ensures
        match content_line(b@, p as int, eof) {
            Ok(q) => r == Ok::<usize, RgbPpmError>(q as usize) && 0 <= q < b@.len() && valid_utf8(
                b@.subrange(q, nl_end(b@, q)),
            ),
            Err(e) => r == Err::<usize, RgbPpmError>(e),
        },
{
    let n = b.len();
    let mut q = p;
    while q < n
        invariant
            p <= q <= n,
            n == b@.len(),
            content_line(b@, q as int, eof) == content_line(b@, p as int, eof),
        decreases n - q,
    {
        let line = match line_at(b, q) {
            None => {
                return Err(RgbPpmError::NotUtf8);
            },
            Some(s) => s,
        };
        let t = trim(line.as_str());
        let cs = chars_of(t);
        let e = nl_end_exec(b, q);
        proof {
            lemma_nl_end(b@, q as int);
        }
        if cs.len() == 0 || cs[0] == '#' {
            q = e;
        } else {
            return Ok(q);
        }
    }
    Err(eof)
}

/// Reads the header of an RGB PPM (P6) file line by line: width, height and
/// where the pixel bytes start.
pub fn ppm_rgb_header(bytes: &[u8]) -> (r: Result<(usize, usize, usize), RgbPpmError>)
    ensures
        match rgb_ppm_header(bytes@) {
            Ok(t) => r matches Ok(v) && v.0 == t.0 && v.1 == t.1 && v.2 == t.2,
            Err(e) => r == Err::<(usize, usize, usize), RgbPpmError>(e),
        },
{
    let ghost b = bytes@;
    let n = bytes.len();
    let first = match line_at(bytes, 0) {
        None => {
            proof {
                assert(!valid_utf8(b.subrange(0, nl_end(b, 0))));
                assert(rgb_ppm_header(b) == Err::<(int, int, int), RgbPpmError>(RgbPpmError::NotUtf8));
            }
            return Err(RgbPpmError::NotUtf8);
        },
        Some(s) => s,
    };
    let t0 = trim(first.as_str());
    let c0 = chars_of(t0);
    if !(c0.len() == 2 && c0[0] == 'P' && c0[1] == '6') {
        proof {
            if line_trimmed(b, 0) == seq!['P', '6'] {
                assert(c0@ == seq!['P', '6']);
            }
            assert(rgb_ppm_header(b) == Err::<(int, int, int), RgbPpmError>(RgbPpmError::NotP6));
        }
        return Err(RgbPpmError::NotP6);
    }
    proof {
        assert(c0@ =~= seq!['P', '6']);
        assert(line_trimmed(b, 0) == seq!['P', '6']);
    }
    let e0 = nl_end_exec(bytes, 0);
    proof {
        lemma_nl_end(b, 0);
    }
    let p1 = match content_line_exec(bytes, e0, RgbPpmError::HeaderEof) {
        Ok(q) => q,
        Err(e) => {
            return Err(e);
        },
    };
    let dims = match line_at(bytes, p1) {
        Some(s) => s,
        None => {
            return Err(RgbPpmError::NotUtf8);
        },
    };
    let ghost s1 = decode_utf8(b.subrange(p1 as int, nl_end(b, p1 as int)));
    proof {
        assert(dims@ == s1);
        assert(content_line(b, nl_end(b, 0), RgbPpmError::HeaderEof) == Ok::<int, RgbPpmError>(p1 as int));
    }
    let w = match word_at(dims.as_str(), 0) {
        None => {
            proof {
                assert(nth_word(s1, 0, 0) is None);
            }
            return Err(RgbPpmError::MissingWidth);
        },
        Some(ws) => match parse_uint_str(ws, usize::MAX as u64) {
            Err(k) => {
                return Err(RgbPpmError::BadWidth(k));
            },
            Ok(v) => v as usize,
        },
    };
    let h = match word_at(dims.as_str(), 1) {
        None => {
            proof {
                assert(nth_word(s1, 0, 1) is None);
            }
            return Err(RgbPpmError::MissingHeight);
        },
        Some(hs) => match parse_uint_str(hs, usize::MAX as u64) {
            Err(k) => {
                proof {
                    assert(parse_uint(ascii_bytes(hs@), usize::MAX as int) == Err::<int, IntErrorKind>(k));
                }
                return Err(RgbPpmError::BadHeight(k));
            },
            Ok(v) => v as usize,
        },
    };
    let e1 = nl_end_exec(bytes, p1);
    proof {
        lemma_nl_end(b, p1 as int);
    }
    let p2 = match content_line_exec(bytes, e1, RgbPpmError::MaxvalEof) {
        Ok(q) => q,
        Err(e) => {
            proof {
                assert(content_line(b, nl_end(b, p1 as int), RgbPpmError::MaxvalEof) == Err::<int, RgbPpmError>(e));
            }
            return Err(e);
        },
    };
    let mline = match line_at(bytes, p2) {
        Some(s) => s,
        None => {
            return Err(RgbPpmError::NotUtf8);
        },
    };
    let m = match parse_uint_str(trim(mline.as_str()), u32::MAX as u64) {
        Err(k) => {
            return Err(RgbPpmError::BadMaxval(k));
        },
        Ok(v) => v as u32,
    };
    if m > 255 {
        return Err(RgbPpmError::MaxvalTooLarge(m));
    }
    let e2 = nl_end_exec(bytes, p2);
    if e2 >= n {
        return Err(RgbPpmError::MissingSeparator);
    }
    Ok((w, h, e2 + 1))
}

/// The pixels of an RGB PPM file whose header ends at `off`: `w * h * 3`
/// bytes from there, or `NotEnoughData` when fewer remain.
pub fn ppm_rgb_image(bytes: &[u8], w: usize, h: usize, off: usize) -> (r: Result<Image, RgbPpmError>)
    requires
        w * h * 3 <= usize::MAX,
        off <= bytes@.len(),
    ensures
        off + w * h * 3 <= bytes@.len() ==> (r matches Ok(img) && img.width == w && img.height == h
            && img.channels == 3 && img.wf() && img.data@ == bytes@.subrange(off as int, off + w * h * 3)),
        off + w * h * 3 > bytes@.len() ==> r == Err::<Image, RgbPpmError>(RgbPpmError::NotEnoughData),
{
    let n = w * h * 3;
    if bytes.len() - off < n {
        return Err(RgbPpmError::NotEnoughData);
    }
    let data = slice_bytes(bytes, off, off + n);
    Ok(Image::from_rgb(w, h, data))
}

} // verus!
