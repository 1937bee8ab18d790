//! 8-bit gray images and the binary PGM (P5) / PPM (P6) formats:
//! `P5\n<width> <height>\n<maxval>\n<raw bytes>`; `#` starts a comment that
//! runs to the end of its line.

use vstd::prelude::*;
use vstd::utf8::valid_utf8;
use crate::text::{
    ascii_ws, is_ascii_ws, IntErrorKind, parse_uint, parse_uint_bytes, int_result, dec_digits,
    push_decimal, lemma_dec_digits_parse, lemma_dec_digits_shape, lemma_ascii_valid_utf8, is_digit,
    utf8_valid,
};

verus! {

/// 8-bit gray image, row-major; `data` holds `w * h` bytes.
#[derive(Debug, Clone)]
pub struct GrayImage {
    pub w: u32,
    pub h: u32,
    pub data: Vec<u8>,
}

impl GrayImage {
    pub open spec fn wf(&self) -> bool {
        self.data@.len() == self.w * self.h
    }

    /// All-black image of the given size.
    pub fn new(w: u32, h: u32) -> (img: Self)
        requires
            w * h <= usize::MAX,
        ensures
            img.w == w,
            img.h == h,
            img.data@ == Seq::new((w * h) as nat, |i: int| 0u8),
            img.wf(),
    {
        let n = (w as usize) * (h as usize);
        let data = vec![0u8; n];
        proof {
            assert(data@ =~= Seq::new((w * h) as nat, |i: int| 0u8));
        }
        Self { w, h, data }
    }

    /// Pixel at `(x, y)`; the index is computed in `u32` as `y * w + x`.
    pub fn pixel(&self, x: u32, y: u32) -> (v: u8)
        requires
            y * self.w + x <= u32::MAX,
            y * self.w + x < self.data@.len(),
        ensures
            v == self.data@[y * self.w + x],
    {
        self.data[(y * self.w + x) as usize]
    }

    pub fn set_pixel(&mut self, x: u32, y: u32, v: u8)
        requires
            y * old(self).w + x <= u32::MAX,
            y * old(self).w + x < old(self).data@.len(),
        ensures
            final(self).w == old(self).w,
            final(self).h == old(self).h,
            final(self).data@ == old(self).data@.update(y * old(self).w + x, v),
    {
        let idx = (y * self.w + x) as usize;
        self.data.set(idx, v);
    }

    /// Copies the part of the rectangle `(x, y, w, h)` that lies inside the
    /// image.
    pub fn crop(&self, x: i32, y: i32, w: i32, h: i32) -> (out: Self)
        requires
            self.wf(),
            self.w <= i32::MAX,
            self.h <= i32::MAX,
            self.w * self.h <= u32::MAX,
            i32::MIN <= x + w <= i32::MAX,
            i32::MIN <= y + h <= i32::MAX,
        ensures
            out.wf(),
            out.w == crop_len(x as int, w as int, self.w as int),
            out.h == crop_len(y as int, h as int, self.h as int),
            forall|i: int, j: int|
                0 <= i < out.w && 0 <= j < out.h ==> #[trigger] out.data@[j * out.w + i]
                    == self.data@[(crop_start(y as int) + j) * self.w + crop_start(x as int) + i],
    {
        let x0: u32 = if x < 0 { 0 } else { x as u32 };
        let y0: u32 = if y < 0 { 0 } else { y as u32 };
        let xe = x + w;
        let ye = y + h;
        let xe0 = if xe < 0 { 0 } else { xe };
        let ye0 = if ye < 0 { 0 } else { ye };
        let x1: u32 = if xe0 < self.w as i32 { xe0 as u32 } else { self.w };
        let y1: u32 = if ye0 < self.h as i32 { ye0 as u32 } else { self.h };
        let cw: u32 = if x1 > x0 { x1 - x0 } else { 0 };
        let ch: u32 = if y1 > y0 { y1 - y0 } else { 0 };
        proof {
            assert(cw as int * ch as int <= self.w as int * self.h as int) by (nonlinear_arith)
                requires
                    cw <= self.w,
                    ch <= self.h,
            ;
        }
        let mut out = Self::new(cw, ch);
        let mut j: u32 = 0;
        while j < ch
            invariant
                self.wf(),
                self.w * self.h <= u32::MAX,
                j <= ch,
                cw <= self.w,
                ch <= self.h,
                cw as int * ch as int <= self.w as int * self.h as int,
                out.w == cw,
                out.h == ch,
                out.wf(),
                cw > 0 ==> x0 + cw <= self.w,
                ch > 0 ==> y0 + ch <= self.h,
                x0 == crop_start(x as int),
                y0 == crop_start(y as int),
                forall|i: int, jj: int|
                    0 <= i < cw && 0 <= jj < j ==> #[trigger] out.data@[jj * cw + i]
                        == self.data@[(y0 + jj) * self.w + x0 + i],
            decreases ch - j,
        {
            let mut i: u32 = 0;
            while i < cw
                invariant
                    self.wf(),
                    self.w * self.h <= u32::MAX,
                    i <= cw,
                    j < ch,
                    cw <= self.w,
                    ch <= self.h,
                    cw as int * ch as int <= self.w as int * self.h as int,
                    out.w == cw,
                    out.h == ch,
                    out.wf(),
                    cw > 0 ==> x0 + cw <= self.w,
                    ch > 0 ==> y0 + ch <= self.h,
                    forall|ii: int, jj: int|
                        0 <= ii < cw && 0 <= jj < j ==> #[trigger] out.data@[jj * cw + ii]
                            == self.data@[(y0 + jj) * self.w + x0 + ii],
                    forall|ii: int| 0 <= ii < i ==> #[trigger] out.data@[j * cw + ii]
                        == self.data@[(y0 + j) * self.w + x0 + ii],
                decreases cw - i,
            {
                proof {
                    lemma_index_in_grid(x0 + i, y0 + j, self.w as int, self.h as int);
                    lemma_index_in_grid(i as int, j as int, cw as int, ch as int);
                }
                let v = self.pixel(x0 + i, y0 + j);
                let ghost before = out.data@;
                out.set_pixel(i, j, v);
                proof {
                    assert forall|ii: int, jj: int|
                        0 <= ii < cw && 0 <= jj < j implies #[trigger] out.data@[jj * cw + ii]
                            == self.data@[(y0 + jj) * self.w + x0 + ii] by {
                        lemma_grid_distinct(ii, jj, i as int, j as int, cw as int);
                        lemma_index_in_grid(ii, jj, cw as int, ch as int);
                    }
                    assert forall|ii: int| 0 <= ii < i + 1 implies #[trigger] out.data@[j * cw + ii]
                        == self.data@[(y0 + j) * self.w + x0 + ii] by {
                        if ii < i {
                            lemma_grid_distinct(ii, j as int, i as int, j as int, cw as int);
                            lemma_index_in_grid(ii, j as int, cw as int, ch as int);
                        }
                    }
                }
                i = i + 1;
            }
            j = j + 1;
        }
        out
    }
}

/// First kept coordinate of a crop along one axis.
pub open spec fn crop_start(p: int) -> int {
    if p < 0 { 0 } else { p }
}

/// Kept length of a crop along one axis: `[max(p, 0), clamp(p + len, 0, limit))`.
pub open spec fn crop_len(p: int, len: int, limit: int) -> int {
    let e = if p + len < 0 { 0 } else { p + len };
    let e1 = if e < limit { e } else { limit };
    if e1 > crop_start(p) { e1 - crop_start(p) } else { 0 }
}

/// A point inside a `w x h` grid has a row-major index below `w * h`.
pub proof fn lemma_index_in_grid(x: int, y: int, w: int, h: int)
    requires
        0 <= x < w,
        0 <= y < h,
    ensures
        0 <= y * w + x < w * h,
        y * w + x <= (h - 1) * w + (w - 1),
{
    assert(y * w <= (h - 1) * w) by (nonlinear_arith)
        requires
            0 <= y <= h - 1,
            0 <= w,
    ;
    assert((h - 1) * w + w == h * w) by (nonlinear_arith);
    assert(0 <= y * w) by (nonlinear_arith)
        requires
            0 <= y,
            0 <= w,
    ;
}

/// Distinct cells of a row-major grid have distinct indices.
pub proof fn lemma_grid_distinct(x1: int, y1: int, x2: int, y2: int, w: int)
    requires
        0 <= x1 < w,
        0 <= x2 < w,
        0 <= y1,
        0 <= y2,
        x1 != x2 || y1 != y2,
    ensures
        y1 * w + x1 != y2 * w + x2,
{
    if y1 == y2 {
    } else if y1 < y2 {
        assert(y1 * w + w <= y2 * w) by (nonlinear_arith)
            requires
                y1 < y2,
                0 <= w,
        ;
    } else {
        assert(y2 * w + w <= y1 * w) by (nonlinear_arith)
            requires
                y2 < y1,
                0 <= w,
        ;
    }
}

impl GrayImage {
    /// Replaces every pixel `v` by `lut[v]`.
    pub fn map_pixels(&mut self, lut: &[u8])
        requires
            lut@.len() == 256,
        ensures
            final(self).w == old(self).w,
            final(self).h == old(self).h,
            final(self).data@ == Seq::new(old(self).data@.len(), |i: int| lut@[old(self).data@[i] as int]),
    {
        let n = self.data.len();
        let mut i: usize = 0;
        while i < n
            invariant
                n == self.data@.len(),
                n == old(self).data@.len(),
                self.w == old(self).w,
                self.h == old(self).h,
                lut@.len() == 256,
                i <= n,
                forall|k: int| 0 <= k < i ==> #[trigger] self.data@[k] == lut@[old(self).data@[k] as int],
                forall|k: int| i <= k < n ==> #[trigger] self.data@[k] == old(self).data@[k],
            decreases n - i,
        {
            let v = lut[self.data[i] as usize];
            self.data.set(i, v);
            i = i + 1;
        }
        proof {
            assert(self.data@ =~= Seq::new(old(self).data@.len(), |i: int| lut@[old(self).data@[i] as int]));
        }
    }
}

// ---------------------------------------------------------------------------
// PGM parsing

/// Position after the whitespace and `#` comments that start at `i`;
/// `comment` tells whether `i` lies inside a comment.
pub open spec fn skip_pgm(b: Seq<u8>, i: int, comment: bool) -> int
    decreases b.len() - i,
{
    if i >= b.len() {
        i
    } else if comment {
        if b[i] == 10u8 {
            skip_pgm(b, i + 1, false)
        } else {
            skip_pgm(b, i + 1, true)
        }
    } else if b[i] == 35u8 {
        skip_pgm(b, i + 1, true)
    } else if is_ascii_ws(b[i]) {
        skip_pgm(b, i + 1, false)
    } else {
        i
    }
}

/// End of the token starting at `i`: the next ASCII whitespace or the end.
pub open spec fn token_end(b: Seq<u8>, i: int) -> int
    decreases b.len() - i,
{
    if i >= b.len() {
        b.len() as int
    } else if is_ascii_ws(b[i]) {
        i
    } else {
        token_end(b, i + 1)
    }
}

/// Reading one numeric header field that starts at `i`.
pub enum FieldRead {
    Truncated,
    NonUtf8,
    Bad(IntErrorKind),
    Value(int, int),
}

pub open spec fn read_field(b: Seq<u8>, i: int, max: int) -> FieldRead {
    let s = skip_pgm(b, i, false);
    if s >= b.len() {
        FieldRead::Truncated
    } else {
        let e = token_end(b, s);
        let t = b.subrange(s, e);
        if !valid_utf8(t) {
            FieldRead::NonUtf8
        } else {
            match parse_uint(t, max) {
                Err(k) => FieldRead::Bad(k),
                Ok(v) => FieldRead::Value(v, e),
            }
        }
    }
}

/// Outcome of parsing a PGM byte stream.
pub enum PgmParse {
    Parsed(u32, u32, Seq<u8>),
    Truncated,
    NonUtf8Token,
    NotP5(Seq<u8>),
    BadWidth(IntErrorKind),
    BadHeight(IntErrorKind),
    BadMaxval(IntErrorKind),
    MaxvalTooLarge(u32),
    NotEnoughData(nat, nat),
}

/// The magic token `P5`.
pub open spec fn p5() -> Seq<u8> {
    seq![80u8, 53u8]
}

pub open spec fn pgm_parse(b: Seq<u8>) -> PgmParse {
    let s = skip_pgm(b, 0, false);
    if s >= b.len() {
        PgmParse::Truncated
    } else {
        let e = token_end(b, s);
        let m = b.subrange(s, e);
        if !valid_utf8(m) {
            PgmParse::NonUtf8Token
        } else if m != p5() {
            PgmParse::NotP5(m)
        } else {
            match read_field(b, e, u32::MAX as int) {
                FieldRead::Truncated => PgmParse::Truncated,
                FieldRead::NonUtf8 => PgmParse::NonUtf8Token,
                FieldRead::Bad(k) => PgmParse::BadWidth(k),
                FieldRead::Value(w, e1) => match read_field(b, e1, u32::MAX as int) {
                    FieldRead::Truncated => PgmParse::Truncated,
                    FieldRead::NonUtf8 => PgmParse::NonUtf8Token,
                    FieldRead::Bad(k) => PgmParse::BadHeight(k),
                    FieldRead::Value(h, e2) => match read_field(b, e2, u32::MAX as int) {
                        FieldRead::Truncated => PgmParse::Truncated,
                        FieldRead::NonUtf8 => PgmParse::NonUtf8Token,
                        FieldRead::Bad(k) => PgmParse::BadMaxval(k),
                        FieldRead::Value(mv, e3) => {
                            if mv > 255 {
                                PgmParse::MaxvalTooLarge(mv as u32)
                            } else {
                                let i = if e3 < b.len() && is_ascii_ws(b[e3]) {
                                    e3 + 1
                                } else {
                                    e3
                                };
                                let n = w * h;
                                if b.len() - i < n {
                                    PgmParse::NotEnoughData(n as nat, (b.len() - i) as nat)
                                } else {
                                    PgmParse::Parsed(w as u32, h as u32, b.subrange(i, i + n))
                                }
                            }
                        },
                    },
                },
            }
        }
    }
}

/// Why a PGM byte stream was rejected.
#[derive(Debug, Clone, PartialEq, Eq)]
pub enum PgmError {
    /// The header ended before a token.
    Truncated,
    /// A header token is not valid UTF-8.
    NonUtf8Token,
    /// The magic token is not `P5`; holds the token.
    NotP5(Vec<u8>),
    BadWidth(IntErrorKind),
    BadHeight(IntErrorKind),
    BadMaxval(IntErrorKind),
    /// Only 8-bit images are supported.
    MaxvalTooLarge(u32),
    /// Fewer pixel bytes than `width * height`.
    NotEnoughData { need: u64, have: u64 },
}

pub open spec fn pgm_outcome(r: Result<GrayImage, PgmError>) -> PgmParse {
    match r {
        Ok(img) => PgmParse::Parsed(img.w, img.h, img.data@),
        Err(PgmError::Truncated) => PgmParse::Truncated,
        Err(PgmError::NonUtf8Token) => PgmParse::NonUtf8Token,
        Err(PgmError::NotP5(m)) => PgmParse::NotP5(m@),
        Err(PgmError::BadWidth(k)) => PgmParse::BadWidth(k),
        Err(PgmError::BadHeight(k)) => PgmParse::BadHeight(k),
        Err(PgmError::BadMaxval(k)) => PgmParse::BadMaxval(k),
        Err(PgmError::MaxvalTooLarge(v)) => PgmParse::MaxvalTooLarge(v),
        Err(PgmError::NotEnoughData { need, have }) => PgmParse::NotEnoughData(
            need as nat,
            have as nat,
        ),
    }
}

proof fn lemma_skip_pgm_bounds(b: Seq<u8>, i: int, c: bool)
    requires
        0 <= i,
    ensures
        i <= skip_pgm(b, i, c),
        i <= b.len() ==> skip_pgm(b, i, c) <= b.len(),
        skip_pgm(b, i, c) < b.len() ==> !is_ascii_ws(b[skip_pgm(b, i, c)]) && b[skip_pgm(b, i, c)] != 35u8,
    decreases b.len() - i,
{
    if i < b.len() {
        if c || b[i] == 35u8 || is_ascii_ws(b[i]) {
            lemma_skip_pgm_bounds(b, i + 1, if c { b[i] != 10u8 } else { b[i] == 35u8 });
        }
    }
}

proof fn lemma_token_end_bounds(b: Seq<u8>, i: int)
    requires
        0 <= i <= b.len(),
    ensures
        i <= token_end(b, i) <= b.len(),
        token_end(b, i) < b.len() ==> is_ascii_ws(b[token_end(b, i)]),
        forall|j: int| i <= j < token_end(b, i) ==> !is_ascii_ws(#[trigger] b[j]),
    decreases b.len() - i,
{
    if i < b.len() && !is_ascii_ws(b[i]) {
        lemma_token_end_bounds(b, i + 1);
    }
}

/// Skips whitespace and comments from `i` (PGM header rules).
fn skip_ws(bytes: &[u8], start: usize) -> (r: usize)
    requires
        start <= bytes@.len(),
    ensures
        r == skip_pgm(bytes@, start as int, false),
        start <= r <= bytes@.len(),
{
    let n = bytes.len();
    let mut i = start;
    let ghost i0 = start;
    proof {
        lemma_skip_pgm_bounds(bytes@, i0 as int, false);
    }
    while i < n
        invariant
            i0 == start,
            i0 <= i <= n,
            n == bytes@.len(),
            skip_pgm(bytes@, i0 as int, false) == skip_pgm(bytes@, i as int, false),
        decreases n - i,
    {
        let c = bytes[i];
        let ghost before = i;
        if c == 35u8 {
            i = i + 1;
            while i < n && bytes[i] != 10u8
                invariant
                    i0 <= i <= n,
                    n == bytes@.len(),
                    skip_pgm(bytes@, i0 as int, false) == skip_pgm(bytes@, i as int, true),
                    before < i,
                decreases n - i,
            {
                i = i + 1;
            }
            proof {
                if i < n {
                    assert(skip_pgm(bytes@, i as int, true) == skip_pgm(bytes@, i + 1, false));
                    assert(skip_pgm(bytes@, i as int, false) == skip_pgm(bytes@, i + 1, false));
                }
            }
        } else if ascii_ws(c) {
            i = i + 1;
        } else {
            return i;
        }
    }
    i
}

/// End of the token that starts at `i`.
fn token_end_exec(bytes: &[u8], i: usize) -> (r: usize)
    requires
        i <= bytes@.len(),
    ensures
        r == token_end(bytes@, i as int),
        i <= r <= bytes@.len(),
{
    let n = bytes.len();
    let mut j = i;
    proof {
        lemma_token_end_bounds(bytes@, i as int);
    }
    while j < n && !ascii_ws(bytes[j])
        invariant
            i <= j <= n,
            n == bytes@.len(),
            token_end(bytes@, i as int) == token_end(bytes@, j as int),
        decreases n - j,
    {
        j = j + 1;
    }
    j
}

/// Copies `bytes[start..end]`.
fn copy_range(bytes: &[u8], start: usize, end: usize) -> (r: Vec<u8>)
    requires
        start <= end <= bytes@.len(),
    ensures
        r@ == bytes@.subrange(start as int, end as int),
{
    let mut out: Vec<u8> = Vec::with_capacity(end - start);
    let mut k = start;
    while k < end
        invariant
            start <= k <= end <= bytes@.len(),
            out@ == bytes@.subrange(start as int, k as int),
        decreases end - k,
    {
        out.push(bytes[k]);
        k = k + 1;
        proof {
            assert(out@ =~= bytes@.subrange(start as int, k as int));
        }
    }
    out
}

/// A numeric header field, or why it could not be read.
enum FieldErr {
    Truncated,
    NonUtf8,
    Bad(IntErrorKind),
}

spec fn field_matches(r: Result<(u64, usize), FieldErr>, f: FieldRead) -> bool {
    match r {
        Ok((v, e)) => f == FieldRead::Value(v as int, e as int),
        Err(FieldErr::Truncated) => f == FieldRead::Truncated,
        Err(FieldErr::NonUtf8) => f == FieldRead::NonUtf8,
        Err(FieldErr::Bad(k)) => f == FieldRead::Bad(k),
    }
}

fn read_field_exec(bytes: &[u8], i: usize, max: u64) -> (r: Result<(u64, usize), FieldErr>)
    requires
        i <= bytes@.len(),
    ensures
        field_matches(r, read_field(bytes@, i as int, max as int)),
        r matches Ok((v, e)) ==> v <= max && i <= e <= bytes@.len(),
{
    let s = skip_ws(bytes, i);
    if s >= bytes.len() {
        return Err(FieldErr::Truncated);
    }
    let e = token_end_exec(bytes, s);
    let tok = copy_range(bytes, s, e);
    if !utf8_valid(tok.as_slice()) {
        return Err(FieldErr::NonUtf8);
    }
    match parse_uint_bytes(tok.as_slice(), max) {
        Err(k) => Err(FieldErr::Bad(k)),
        Ok(v) => Ok((v, e)),
    }
}

/// Parses a PGM (P5) byte stream already held in memory.
pub fn parse_pgm_bytes(bytes: &[u8]) -> (r: Result<GrayImage, PgmError>)
    ensures
        pgm_outcome(r) == pgm_parse(bytes@),
        r matches Ok(img) ==> img.wf(),
{
    let s = skip_ws(bytes, 0);
    if s >= bytes.len() {
        return Err(PgmError::Truncated);
    }
    let e = token_end_exec(bytes, s);
    let magic = copy_range(bytes, s, e);
    if !utf8_valid(magic.as_slice()) {
        return Err(PgmError::NonUtf8Token);
    }
    if !(magic.len() == 2 && magic[0] == 80u8 && magic[1] == 53u8) {
        proof {
            if magic@ == p5() {
                assert(magic@.len() == 2 && magic@[0] == 80u8 && magic@[1] == 53u8);
            }
        }
        return Err(PgmError::NotP5(magic));
    }
    proof {
        assert(magic@ =~= p5());
    }
    let (w, e1) = match read_field_exec(bytes, e, u32::MAX as u64) {
        Ok(p) => p,
        Err(FieldErr::Truncated) => return Err(PgmError::Truncated),
        Err(FieldErr::NonUtf8) => return Err(PgmError::NonUtf8Token),
        Err(FieldErr::Bad(k)) => return Err(PgmError::BadWidth(k)),
    };
    let (h, e2) = match read_field_exec(bytes, e1, u32::MAX as u64) {
        Ok(p) => p,
        Err(FieldErr::Truncated) => return Err(PgmError::Truncated),
        Err(FieldErr::NonUtf8) => return Err(PgmError::NonUtf8Token),
        Err(FieldErr::Bad(k)) => return Err(PgmError::BadHeight(k)),
    };
    let (maxv, e3) = match read_field_exec(bytes, e2, u32::MAX as u64) {
        Ok(p) => p,
        Err(FieldErr::Truncated) => return Err(PgmError::Truncated),
        Err(FieldErr::NonUtf8) => return Err(PgmError::NonUtf8Token),
        Err(FieldErr::Bad(k)) => return Err(PgmError::BadMaxval(k)),
    };
    if maxv > 255 {
        return Err(PgmError::MaxvalTooLarge(maxv as u32));
    }
    let mut i = e3;
    if i < bytes.len() && ascii_ws(bytes[i]) {
        i = i + 1;
    }
    proof {
        assert(w as int * h as int <= u32::MAX as int * u32::MAX as int) by (nonlinear_arith)
            requires
                w <= u32::MAX,
                h <= u32::MAX,
        ;
    }
    let n = w * h;
    let have = bytes.len() - i;
    if (have as u64) < n {
        return Err(PgmError::NotEnoughData { need: n, have: have as u64 });
    }
    let data = copy_range(bytes, i, i + n as usize);
    Ok(GrayImage { w: w as u32, h: h as u32, data })
}


// ---------------------------------------------------------------------------
// PPM (P6) reading, token by token

/// Position just past the first line feed at or after `i`, if there is one.
pub open spec fn after_newline(b: Seq<u8>, i: int) -> Option<int>
    decreases b.len() - i,
{
    if i < 0 || i >= b.len() {
        None
    } else if b[i] == 10u8 {
        Some(i + 1)
    } else {
        after_newline(b, i + 1)
    }
}

/// Start of the next token at or after `i`, skipping ASCII whitespace and
/// `#` comments (each through its line feed); `Err(inside_comment)` when the
/// bytes run out first.
pub open spec fn token_start(b: Seq<u8>, i: int) -> Result<int, bool>
    decreases b.len() - i, 1int,
{
    if i < 0 || i >= b.len() {
        Err(false)
    } else if b[i] == 35u8 {
        match after_newline(b, i + 1) {
            None => Err(true),
            Some(j) => {
                proof {
                    lemma_after_newline(b, i + 1);
                }
                token_start(b, j)
            },
        }
    } else if is_ascii_ws(b[i]) {
        token_start(b, i + 1)
    } else {
        Ok(i)
    }
}

/// End of a token whose bytes continue at `k`, and where reading resumes: a
/// whitespace byte ends it and is left unread; a `#` ends it and its comment
/// is consumed through the line feed (or to the end).
pub open spec fn token_stop(b: Seq<u8>, k: int) -> (int, int)
    decreases b.len() - k,
{
    if k < 0 || k >= b.len() {
        (b.len() as int, b.len() as int)
    } else if b[k] == 35u8 {
        (
            k,
            match after_newline(b, k + 1) {
                Some(j) => j,
                None => b.len() as int,
            },
        )
    } else if is_ascii_ws(b[k]) {
        (k, k)
    } else {
        token_stop(b, k + 1)
    }
}

/// One token read at `i`: `Ok((start, end, next))`, or why the bytes ran out
/// (`true`: inside a comment).
pub open spec fn next_token(b: Seq<u8>, i: int) -> Result<(int, int, int), bool> {
    match token_start(b, i) {
        Err(c) => Err(c),
        Ok(s) => {
            let (e, nx) = token_stop(b, s + 1);
            Ok((s, e, nx))
        },
    }
}

pub proof fn lemma_after_newline(b: Seq<u8>, i: int)
    requires
        0 <= i,
    ensures
        after_newline(b, i) matches Some(j) ==> i < j <= b.len(),
    decreases b.len() - i,
{
    if i < b.len() && b[i] != 10u8 {
        lemma_after_newline(b, i + 1);
    }
}

proof fn lemma_token_start(b: Seq<u8>, i: int)
    requires
        0 <= i,
    ensures
        token_start(b, i) matches Ok(s) ==> i <= s < b.len(),
    decreases b.len() - i,
{
    if 0 <= i < b.len() {
        if b[i] == 35u8 {
            lemma_after_newline(b, i + 1);
            match after_newline(b, i + 1) {
                Some(j) => {
                    lemma_token_start(b, j);
                },
                None => {},
            }
        } else if is_ascii_ws(b[i]) {
            lemma_token_start(b, i + 1);
        }
    }
}

proof fn lemma_token_stop(b: Seq<u8>, k: int)
    requires
        0 <= k <= b.len(),
    ensures
        k <= token_stop(b, k).0 <= token_stop(b, k).1 <= b.len(),
    decreases b.len() - k,
{
    if k < b.len() {
        if b[k] == 35u8 {
            lemma_after_newline(b, k + 1);
        } else if !is_ascii_ws(b[k]) {
            lemma_token_stop(b, k + 1);
        }
    }
}

fn after_newline_exec(b: &[u8], i: usize) -> (r: Option<usize>)
    requires
        i <= b@.len(),
    ensures
        r matches Some(j) ==> after_newline(b@, i as int) == Some(j as int),
        r is None ==> after_newline(b@, i as int) is None,
{
    let n = b.len();
    let mut k = i;
    while k < n && b[k] != 10u8
        invariant
            n == b@.len(),
            i <= k <= n,
            after_newline(b@, i as int) == after_newline(b@, k as int),
        decreases n - k,
    {
        k = k + 1;
    }
    if k < n {
        Some(k + 1)
    } else {
        None
    }
}

/// Reads one header token at `i`.
fn next_token_exec(b: &[u8], i: usize) -> (r: Result<(usize, usize, usize), bool>)
    requires
        i <= b@.len(),
    ensures
        match next_token(b@, i as int) {
            Ok(t) => r matches Ok(v) && v.0 == t.0 && v.1 == t.1 && v.2 == t.2,
            Err(c) => r == Err::<(usize, usize, usize), bool>(c),
        },
        r matches Ok(v) ==> v.0 < v.1 <= v.2 <= b@.len(),
{
    let n = b.len();
    let mut k = i;
    loop
        invariant
            n == b@.len(),
            i <= k <= n,
            token_start(b@, i as int) == token_start(b@, k as int),
        ensures
            k < n,
            token_start(b@, i as int) == Ok::<int, bool>(k as int),
        decreases n - k,
    {
        if k >= n {
            return Err(false);
        }
        let c = b[k];
        if c == 35u8 {
            match after_newline_exec(b, k + 1) {
                None => {
                    return Err(true);
                },
                Some(j) => {
                    proof {
                        lemma_after_newline(b@, k + 1);
                    }
                    k = j;
                },
            }
        } else if ascii_ws(c) {
            k = k + 1;
        } else {
            break;
        }
    }
    let s = k;
    let mut e = s + 1;
    proof {
        lemma_token_stop(b@, s + 1);
    }
    while e < n && b[e] != 35u8 && !ascii_ws(b[e])
        invariant
            n == b@.len(),
            s < e <= n,
            token_stop(b@, s + 1) == token_stop(b@, e as int),
        decreases n - e,
    {
        e = e + 1;
    }
    if e < n && b[e] == 35u8 {
        proof {
            lemma_after_newline(b@, e + 1);
        }
        let nx = match after_newline_exec(b, e + 1) {
            Some(j) => j,
            None => n,
        };
        Ok((s, e, nx))
    } else {
        Ok((s, e, e))
    }
}

/// Outcome of reading a P6 header.
pub enum P6Header {
    /// Width, height, and where the pixel bytes start.
    Dims(u32, u32, int),
    /// The bytes ended before a token (`true`: inside a comment).
    Eof(bool),
    NonUtf8Token,
    NotP6(Seq<u8>),
    BadWidth(IntErrorKind),
    BadHeight(IntErrorKind),
    BadMaxval(IntErrorKind),
    /// No byte follows the maxval token.
    MissingSeparator,
}

/// A numeric token `t` read as a `u32`, the UTF-8 check first.
pub open spec fn u32_token(t: Seq<u8>) -> Option<Result<int, IntErrorKind>> {
    if !valid_utf8(t) {
        None
    } else {
        Some(parse_uint(t, u32::MAX as int))
    }
}

/// Reading a P6 header: the tokens `P6`, width, height and maxval (which
/// must parse as `u32` but is not checked further), then one separator byte.
pub open spec fn p6_header(b: Seq<u8>) -> P6Header {
    match next_token(b, 0) {
        Err(c) => P6Header::Eof(c),
        Ok((s0, e0, n0)) => {
            let m = b.subrange(s0, e0);
            if !valid_utf8(m) {
                P6Header::NonUtf8Token
            } else if m != seq![80u8, 54u8] {
                P6Header::NotP6(m)
            } else {
                match next_token(b, n0) {
                    Err(c) => P6Header::Eof(c),
                    Ok((s1, e1, n1)) => match u32_token(b.subrange(s1, e1)) {
                        None => P6Header::NonUtf8Token,
                        Some(Err(k)) => P6Header::BadWidth(k),
                        Some(Ok(w)) => match next_token(b, n1) {
                            Err(c) => P6Header::Eof(c),
                            Ok((s2, e2, n2)) => match u32_token(b.subrange(s2, e2)) {
                                None => P6Header::NonUtf8Token,
                                Some(Err(k)) => P6Header::BadHeight(k),
                                Some(Ok(h)) => match next_token(b, n2) {
                                    Err(c) => P6Header::Eof(c),
                                    Ok((s3, e3, n3)) => match u32_token(b.subrange(s3, e3)) {
                                        None => P6Header::NonUtf8Token,
                                        Some(Err(k)) => P6Header::BadMaxval(k),
                                        Some(Ok(_)) => if n3 >= b.len() {
                                            P6Header::MissingSeparator
                                        } else {
                                            P6Header::Dims(w as u32, h as u32, n3 + 1)
                                        },
                                    },
                                },
                            },
                        },
                    },
                }
            }
        },
    }
}

/// Why a PPM (P6) byte stream was rejected.
#[derive(Debug, Clone, PartialEq, Eq)]
pub enum PpmError {
    /// The bytes ended before a header token (`true`: inside a comment).
    Eof(bool),
    /// A header token is not valid UTF-8.
    NonUtf8Token,
    /// The magic token is not `P6`; holds the token.
    NotP6(Vec<u8>),
    BadWidth(IntErrorKind),
    BadHeight(IntErrorKind),
    BadMaxval(IntErrorKind),
    /// No separator byte after the header.
    MissingSeparator,
    /// Fewer than `3 * width * height` pixel bytes.
    NotEnoughData { need: usize, have: usize },
}

/// Reads a P6 header: width, height and the offset of the pixel bytes.
pub fn parse_ppm_header(bytes: &[u8]) -> (r: Result<(u32, u32, usize), PpmError>)
    ensures
        match p6_header(bytes@) {
            P6Header::Dims(w, h, off) => r matches Ok(v) && v.0 == w && v.1 == h && v.2 == off,
            P6Header::Eof(c) => r == Err::<(u32, u32, usize), PpmError>(PpmError::Eof(c)),
            P6Header::NonUtf8Token => r == Err::<(u32, u32, usize), PpmError>(PpmError::NonUtf8Token),
            P6Header::NotP6(m) => r matches Err(PpmError::NotP6(v)) && v@ == m,
            P6Header::BadWidth(k) => r == Err::<(u32, u32, usize), PpmError>(PpmError::BadWidth(k)),
            P6Header::BadHeight(k) => r == Err::<(u32, u32, usize), PpmError>(PpmError::BadHeight(k)),
            P6Header::BadMaxval(k) => r == Err::<(u32, u32, usize), PpmError>(PpmError::BadMaxval(k)),
            P6Header::MissingSeparator => r == Err::<(u32, u32, usize), PpmError>(PpmError::MissingSeparator),
        },
        r matches Ok(v) ==> v.2 <= bytes@.len(),
{
    let n = bytes.len();
    let (s0, e0, n0) = match next_token_exec(bytes, 0) {
        Err(c) => {
            return Err(PpmError::Eof(c));
        },
        Ok(t) => t,
    };
    let magic = copy_range(bytes, s0, e0);
    if !utf8_valid(magic.as_slice()) {
        return Err(PpmError::NonUtf8Token);
    }
    if !(magic.len() == 2 && magic[0] == 80u8 && magic[1] == 54u8) {
        proof {
            if magic@ == seq![80u8, 54u8] {
                assert(magic@.len() == 2 && magic@[0] == 80u8 && magic@[1] == 54u8);
            }
        }
        return Err(PpmError::NotP6(magic));
    }
    proof {
        assert(magic@ =~= seq![80u8, 54u8]);
    }
    let (s1, e1, n1) = match next_token_exec(bytes, n0) {
        Err(c) => {
            return Err(PpmError::Eof(c));
        },
        Ok(t) => t,
    };
    let wt = copy_range(bytes, s1, e1);
    if !utf8_valid(wt.as_slice()) {
        return Err(PpmError::NonUtf8Token);
    }
    let w = match parse_uint_bytes(wt.as_slice(), u32::MAX as u64) {
        Err(k) => {
            return Err(PpmError::BadWidth(k));
        },
        Ok(v) => v as u32,
    };
    let (s2, e2, n2) = match next_token_exec(bytes, n1) {
        Err(c) => {
            return Err(PpmError::Eof(c));
        },
        Ok(t) => t,
    };
    let ht = copy_range(bytes, s2, e2);
    if !utf8_valid(ht.as_slice()) {
        return Err(PpmError::NonUtf8Token);
    }
    let h = match parse_uint_bytes(ht.as_slice(), u32::MAX as u64) {
        Err(k) => {
            return Err(PpmError::BadHeight(k));
        },
        Ok(v) => v as u32,
    };
    let (s3, e3, n3) = match next_token_exec(bytes, n2) {
        Err(c) => {
            return Err(PpmError::Eof(c));
        },
        Ok(t) => t,
    };
    let mt = copy_range(bytes, s3, e3);
    if !utf8_valid(mt.as_slice()) {
        return Err(PpmError::NonUtf8Token);
    }
    match parse_uint_bytes(mt.as_slice(), u32::MAX as u64) {
        Err(k) => {
            return Err(PpmError::BadMaxval(k));
        },
        Ok(_) => {},
    }
    if n3 >= n {
        return Err(PpmError::MissingSeparator);
    }
    Ok((w, h, n3 + 1))
}

/// BT.601 gray of one RGB pixel in integer arithmetic: `(299 r + 587 g + 114 b) / 1000`.
pub open spec fn bt601(r: u8, g: u8, b: u8) -> u8 {
    let y = (299 * r + 587 * g + 114 * b) / 1000;
    (if y > 255 { 255 } else { y }) as u8
}

/// Converts the `w * h` RGB pixels at `off` to gray.
pub fn ppm_gray_pixels(bytes: &[u8], w: u32, h: u32, off: usize) -> (r: Result<GrayImage, PpmError>)
    requires
        off <= bytes@.len(),
        w * h * 3 <= usize::MAX,
    ensures
        bytes@.len() - off < w * h * 3 ==> r == Err::<GrayImage, PpmError>(
            PpmError::NotEnoughData { need: (w * h * 3) as usize, have: (bytes@.len() - off) as usize },
        ),
        bytes@.len() - off >= w * h * 3 ==> (r matches Ok(img) && img.w == w && img.h == h && img.wf()
            && img.data@ == Seq::new(
            (w * h) as nat,
            |i: int| bt601(bytes@[off + 3 * i], bytes@[off + 3 * i + 1], bytes@[off + 3 * i + 2]),
        )),
{
    proof {
        assert(w * h <= w * h * 3);
    }
    let np = (w as usize) * (h as usize);
    let need = np * 3;
    let len = bytes.len();
    let have = len - off;
    if have < need {
        return Err(PpmError::NotEnoughData { need, have });
    }
    let mut gray: Vec<u8> = Vec::new();
    let mut i: usize = 0;
    while i < np
        invariant
            len == bytes@.len(),
            np == w * h,
            need == np * 3,
            off + need <= bytes@.len(),
            i <= np,
            gray@ == Seq::new(
                i as nat,
                |k: int| bt601(bytes@[off + 3 * k], bytes@[off + 3 * k + 1], bytes@[off + 3 * k + 2]),
            ),
        decreases np - i,
    {
        let r = bytes[off + i * 3] as u32;
        let g = bytes[off + i * 3 + 1] as u32;
        let b = bytes[off + i * 3 + 2] as u32;
        let y = (299 * r + 587 * g + 114 * b) / 1000;
        let v = if y > 255 { 255u8 } else { y as u8 };
        gray.push(v);
        i = i + 1;
        proof {
            assert(gray@ =~= Seq::new(
                i as nat,
                |k: int| bt601(bytes@[off + 3 * k], bytes@[off + 3 * k + 1], bytes@[off + 3 * k + 2]),
            ));
        }
    }
    Ok(GrayImage { w, h, data: gray })
}

// ---------------------------------------------------------------------------
// PGM / PPM encoding

/// `P5\n<w> <h>\n255\n` followed by the pixels.
pub open spec fn pgm_encoding(w: u32, h: u32, data: Seq<u8>) -> Seq<u8> {
    seq![80u8, 53u8, 10u8] + dec_digits(w as nat) + seq![32u8] + dec_digits(h as nat) + seq![
        10u8,
        50u8,
        53u8,
        53u8,
        10u8,
    ] + data
}

/// `P6\n<w> <h>\n255\n` followed by the interleaved RGB bytes.
pub open spec fn ppm_encoding(w: u32, h: u32, rgb: Seq<u8>) -> Seq<u8> {
    seq![80u8, 54u8, 10u8] + dec_digits(w as nat) + seq![32u8] + dec_digits(h as nat) + seq![
        10u8,
        50u8,
        53u8,
        53u8,
        10u8,
    ] + rgb
}

fn push_header(out: &mut Vec<u8>, kind: u8, w: u32, h: u32)
    ensures
        final(out)@ == old(out)@ + seq![80u8, kind, 10u8] + dec_digits(w as nat) + seq![32u8]
            + dec_digits(h as nat) + seq![10u8, 50u8, 53u8, 53u8, 10u8],
{
    out.push(80u8);
    out.push(kind);
    out.push(10u8);
    push_decimal(out, w as u64);
    out.push(32u8);
    push_decimal(out, h as u64);
    out.push(10u8);
    out.push(50u8);
    out.push(53u8);
    out.push(53u8);
    out.push(10u8);
    proof {
        assert(final(out)@ =~= old(out)@ + seq![80u8, kind, 10u8] + dec_digits(w as nat) + seq![32u8]
            + dec_digits(h as nat) + seq![10u8, 50u8, 53u8, 53u8, 10u8]);
    }
}

fn append_all(out: &mut Vec<u8>, src: &[u8])
    ensures
        final(out)@ == old(out)@ + src@,
{
    let mut k: usize = 0;
    while k < src.len()
        invariant
            k <= src@.len(),
            out@ == old(out)@ + src@.subrange(0, k as int),
        decreases src@.len() - k,
    {
        out.push(src[k]);
        k = k + 1;
        proof {
            assert(out@ =~= old(out)@ + src@.subrange(0, k as int));
        }
    }
    proof {
        assert(src@.subrange(0, k as int) =~= src@);
    }
}

/// The bytes of a binary PGM file holding `img`.
pub fn encode_pgm(img: &GrayImage) -> (r: Vec<u8>)
    ensures
        r@ == pgm_encoding(img.w, img.h, img.data@),
{
    let mut out: Vec<u8> = Vec::new();
    push_header(&mut out, 53u8, img.w, img.h);
    append_all(&mut out, img.data.as_slice());
    proof {
        assert(out@ =~= pgm_encoding(img.w, img.h, img.data@));
    }
    out
}

/// The bytes of a binary PPM file with the given size and RGB bytes.
pub fn encode_ppm_rgb(w: u32, h: u32, rgb: &[u8]) -> (r: Vec<u8>)
    requires
        rgb@.len() == w * h * 3,
    ensures
        r@ == ppm_encoding(w, h, rgb@),
{
    let mut out: Vec<u8> = Vec::new();
    push_header(&mut out, 54u8, w, h);
    append_all(&mut out, rgb);
    proof {
        assert(out@ =~= ppm_encoding(w, h, rgb@));
    }
    out
}

} // verus!

verus! {

proof fn lemma_token_end_at(b: Seq<u8>, s: int, e: int)
    requires
        0 <= s <= e <= b.len(),
        forall|j: int| s <= j < e ==> !is_ascii_ws(#[trigger] b[j]),
        e == b.len() || is_ascii_ws(b[e]),
    ensures
        token_end(b, s) == e,
    decreases e - s,
{
    if s < e {
        lemma_token_end_at(b, s + 1, e);
    }
}

/// Reads back a decimal field rendered at `s..s + len` and followed by whitespace.
proof fn lemma_read_decimal_field(b: Seq<u8>, start: int, s: int, n: nat, max: int)
    requires
        0 <= start < s,
        s + dec_digits(n).len() < b.len(),
        forall|j: int| start <= j < s ==> is_ascii_ws(#[trigger] b[j]) && b[j] != 35u8,
        b.subrange(s, s + dec_digits(n).len()) == dec_digits(n),
        is_ascii_ws(b[s + dec_digits(n).len()]),
        n <= max,
    ensures
        read_field(b, start, max) == FieldRead::Value(n as int, s + dec_digits(n).len()),
    decreases s - start,
{
    let d = dec_digits(n);
    lemma_dec_digits_shape(n);
    if start + 1 < s {
        lemma_read_decimal_field(b, start + 1, s, n, max);
        assert(skip_pgm(b, start, false) == skip_pgm(b, start + 1, false));
    } else {
        assert(b[s] == d[0]);
        assert(is_digit(d[0]));
        assert(skip_pgm(b, s, false) == s);
        assert(skip_pgm(b, start, false) == s);
        assert forall|j: int| s <= j < s + d.len() implies !is_ascii_ws(#[trigger] b[j]) by {
            assert(b[j] == d[j - s]);
            assert(is_digit(d[j - s]));
        }
        lemma_token_end_at(b, s, s + d.len());
        assert forall|j: int| 0 <= j < d.len() implies d[j] < 128u8 by {
            assert(is_digit(d[j]));
        }
        lemma_ascii_valid_utf8(d);
        lemma_dec_digits_parse(n, max);
    }
}

/// Writing an image as PGM and parsing the bytes gives the same image back.
pub proof fn lemma_pgm_roundtrip(w: u32, h: u32, data: Seq<u8>)
    requires
        data.len() == w * h,
    ensures
        pgm_parse(pgm_encoding(w, h, data)) == PgmParse::Parsed(w, h, data),
{
    let dw = dec_digits(w as nat);
    let dh = dec_digits(h as nat);
    let b = pgm_encoding(w, h, data);
    lemma_dec_digits_shape(w as nat);
    lemma_dec_digits_shape(h as nat);
    let lw = dw.len() as int;
    let lh = dh.len() as int;
    let p = 4 + lw + lh;
    assert(b.len() == p + 5 + data.len());
    assert(b[0] == 80u8);
    assert(b[1] == 53u8);
    assert(b[2] == 10u8);
    assert(b[3 + lw] == 32u8);
    assert(b[p] == 10u8);
    assert(b[p + 1] == 50u8);
    assert(b[p + 2] == 53u8);
    assert(b[p + 3] == 53u8);
    assert(b[p + 4] == 10u8);
    // magic
    assert(skip_pgm(b, 0, false) == 0);
    lemma_token_end_at(b, 0, 2);
    assert(b.subrange(0, 2) =~= p5());
    lemma_ascii_valid_utf8(p5());
    // width
    assert(b.subrange(3, 3 + lw) =~= dw);
    lemma_read_decimal_field(b, 2, 3, w as nat, u32::MAX as int);
    // height
    assert(b.subrange(4 + lw, 4 + lw + lh) =~= dh);
    lemma_read_decimal_field(b, 3 + lw, 4 + lw, h as nat, u32::MAX as int);
    // maxval
    reveal_with_fuel(dec_digits, 3);
    assert(dec_digits(255) =~= seq![50u8, 53u8, 53u8]);
    assert(b.subrange(p + 1, p + 4) =~= dec_digits(255));
    lemma_read_decimal_field(b, p, p + 1, 255, u32::MAX as int);
    assert(b.subrange(p + 5, p + 5 + w * h) =~= data);
}

} // verus!
