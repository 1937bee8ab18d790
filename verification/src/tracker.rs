//! Integer side of face tracking: the square face patch a track descriptor is
//! computed from, and reading the tracks of an earlier `tracks.json`.

use vstd::prelude::*;
use crate::image::{Image, Rect, nonneg, flat, lemma_flat_bound};
use crate::ppm::lemma_index_in_grid;
use crate::text::{IntErrorKind, parse_uint, parse_uint_bytes, int_result, ascii_bytes, trimmed, trim, chars_of};
use crate::http::slice_bytes;
use vstd::string::StringSliceAdditionalSpecFns;

verus! {

/// Channel 0 of the image at face-box offset `(i, j)`: coordinates are
/// `face.x + i`, `face.y + j`, negative ones taken as 0; 0 outside the image.
pub open spec fn face_gray(img: Image, face: Rect, i: int, j: int) -> u8 {
    let ax = nonneg(face.x + i);
    let ay = nonneg(face.y + j);
    if ax < img.width && ay < img.height {
        img.at(ax, ay, 0)
    } else {
        0
    }
}

/// The side of the centred square cut from the face box (sides below 1 count as 1).
pub open spec fn patch_side(face: Rect) -> int {
    let cw = if face.w < 1 { 1int } else { face.w as int };
    let ch = if face.h < 1 { 1int } else { face.h as int };
    if cw < ch { cw } else { ch }
}

/// Pixel `(x, y)` of the `fw` x `fh` patch: the centred square of the face
/// box, scaled by nearest neighbour (`x * side / (fw as int)`, capped at `side - 1`).
pub open spec fn patch_pixel(img: Image, face: Rect, fw: int, fh: int, x: int, y: int) -> u8 {
    let cw = if face.w < 1 { 1int } else { face.w as int };
    let ch = if face.h < 1 { 1int } else { face.h as int };
    let side = patch_side(face);
    let ox = (cw - side) / 2;
    let oy = (ch - side) / 2;
    let sx = if x * side / (fw as int) < side - 1 { x * side / (fw as int) } else { side - 1 };
    let sy = if y * side / (fh as int) < side - 1 { y * side / (fh as int) } else { side - 1 };
    face_gray(img, face, ox + sx, oy + sy)
}

/// The gray `fw` x `fh` patch a track compares faces by.
pub fn face_patch(img: &Image, face: &Rect, fw: usize, fh: usize) -> (r: Vec<u8>)
    requires
        img.wf(),
        img.channels >= 1,
        fw >= 1,
        fh >= 1,
        fw * fh <= usize::MAX,
        face.x + face.w <= i32::MAX,
        face.y + face.h <= i32::MAX,
        face.w * fw <= usize::MAX,
        face.h * fh <= usize::MAX,
    ensures
        r@.len() == fw * fh,
        forall|x: int, y: int|
            0 <= x < fw && 0 <= y < fh ==> #[trigger] r@[y * fw + x] == patch_pixel(*img, *face, fw as int, fh as int, x, y),
{
    let cw: usize = if face.w < 1 { 1 } else { face.w as usize };
    let ch: usize = if face.h < 1 { 1 } else { face.h as usize };
    let side = if cw < ch { cw } else { ch };
    let ox = (cw - side) / 2;
    let oy = (ch - side) / 2;
    let mut out: Vec<u8> = Vec::new();
    let total = img.data.len();
    let mut y: usize = 0;
    while y < fh
        invariant
            total == img.data@.len(),
            img.wf(),
            img.channels >= 1,
            fw >= 1,
            fh >= 1,
            fw * fh <= usize::MAX,
            face.x + face.w <= i32::MAX,
            face.y + face.h <= i32::MAX,
            face.w * fw <= usize::MAX,
            face.h * fh <= usize::MAX,
            cw == (if face.w < 1 { 1int } else { face.w as int }),
            ch == (if face.h < 1 { 1int } else { face.h as int }),
            side == patch_side(*face),
            ox == (cw - side) / 2,
            oy == (ch - side) / 2,
            y <= fh,
            out@.len() == y * fw,
            forall|xx: int, yy: int|
                0 <= xx < fw && 0 <= yy < y ==> #[trigger] out@[yy * fw + xx] == patch_pixel(
                    *img,
                    *face,
                    fw as int,
                    fh as int,
                    xx,
                    yy,
                ),
        decreases fh - y,
    {
        proof {
            assert(y * side <= fh * side) by (nonlinear_arith)
                requires
                    y <= fh,
            ;
            assert(fh * side <= fh * ch) by (nonlinear_arith)
                requires
                    side <= ch,
            ;
            if face.h >= 1 {
                assert(fh * ch == face.h * fh) by (nonlinear_arith)
                    requires
                        ch == face.h,
                ;
            }
            assert(y * side / (fh as int) <= side) by (nonlinear_arith)
                requires
                    y <= fh,
                    fh >= 1,
            ;
        }
        let q = y * side / fh;
        let sy = if q < side - 1 { q } else { side - 1 };
        let mut x: usize = 0;
        while x < fw
            invariant
                total == img.data@.len(),
                img.wf(),
                img.channels >= 1,
                fw >= 1,
                fh >= 1,
                fw * fh <= usize::MAX,
                face.x + face.w <= i32::MAX,
                face.y + face.h <= i32::MAX,
                face.w * fw <= usize::MAX,
                cw == (if face.w < 1 { 1int } else { face.w as int }),
                ch == (if face.h < 1 { 1int } else { face.h as int }),
                side == patch_side(*face),
                ox == (cw - side) / 2,
                oy == (ch - side) / 2,
                y < fh,
                sy == (if y * side / (fh as int) < side - 1 { y * side / (fh as int) } else { side - 1 }),
                x <= fw,
                out@.len() == y * fw + x,
                forall|xx: int, yy: int|
                    0 <= xx < fw && 0 <= yy < y ==> #[trigger] out@[yy * fw + xx] == patch_pixel(
                        *img,
                        *face,
                        fw as int,
                        fh as int,
                        xx,
                        yy,
                    ),
                forall|xx: int| 0 <= xx < x ==> #[trigger] out@[y * fw + xx] == patch_pixel(*img, *face, fw as int, fh as int, xx, y as int),
            decreases fw - x,
        {
            proof {
                assert(x * side <= fw * side) by (nonlinear_arith)
                    requires
                        x <= fw,
                ;
                assert(fw * side <= fw * cw) by (nonlinear_arith)
                    requires
                        side <= cw,
                ;
                if face.w >= 1 {
                    assert(fw * cw == face.w * fw) by (nonlinear_arith)
                        requires
                            cw == face.w,
                    ;
                }
                assert(x * side / (fw as int) <= side) by (nonlinear_arith)
                    requires
                        x <= fw,
                        fw >= 1,
                ;
                assert(y * fw + x < fw * fh) by (nonlinear_arith)
                    requires
                        y < fh,
                        x < fw,
                ;
            }
            let p = x * side / fw;
            let sx = if p < side - 1 { p } else { side - 1 };
            let ix = face.x as i64 + (ox + sx) as i64;
            let iy = face.y as i64 + (oy + sy) as i64;
            let ax: usize = if ix < 0 { 0 } else { ix as usize };
            let ay: usize = if iy < 0 { 0 } else { iy as usize };
            let v = if ax < img.width && ay < img.height {
                proof {
                    assert(img.width * img.height <= (img.width * img.height) * img.channels) by (nonlinear_arith)
                        requires
                            img.channels >= 1,
                    ;
                    assert(img.width * img.height * img.channels == (img.width * img.height) * img.channels) by (nonlinear_arith);
                    lemma_index_in_grid(ax as int, ay as int, img.width as int, img.height as int);
                    lemma_flat_bound(ay * img.width + ax, 0, img.width * img.height, img.channels as int);
                    assert(img.width * img.height * img.channels == (img.width * img.height) * img.channels) by (nonlinear_arith);
                }
                img.data[(ay * img.width + ax) * img.channels]
            } else {
                0
            };
            let ghost before = out@;
            out.push(v);
            proof {
                assert forall|xx: int, yy: int|
                    0 <= xx < fw && 0 <= yy < y implies #[trigger] out@[yy * fw + xx] == patch_pixel(
                    *img,
                    *face,
                    fw as int,
                    fh as int,
                    xx,
                    yy,
                ) by {
                    assert(yy * fw + xx < y * fw) by (nonlinear_arith)
                        requires
                            yy < y,
                            xx < fw,
                    ;
                    assert(out@[yy * fw + xx] == before[yy * fw + xx]);
                }
            }
            x = x + 1;
        }
        proof {
            assert((y + 1) * fw == y * fw + fw) by (nonlinear_arith);
        }
        y = y + 1;
    }
    proof {
        assert(out@.len() == fh * fw);
        assert(fh * fw == fw * fh) by (nonlinear_arith);
    }
    out
}

// ---------------------------------------------------------------------------
// Reading the tracks of an earlier run

/// `s` cut at every `sep`: always at least one piece, possibly empty ones.
pub open spec fn split_on(s: Seq<char>, sep: char) -> Seq<Seq<char>>
    decreases s.len(),
{
    if s.len() == 0 {
        seq![Seq::<char>::empty()]
    } else {
        let p = split_on(s.drop_last(), sep);
        if s.last() == sep {
            p.push(Seq::<char>::empty())
        } else {
            p.update(p.len() - 1, p.last().push(s.last()))
        }
    }
}

proof fn lemma_split_on_nonempty(s: Seq<char>, sep: char)
    ensures
        split_on(s, sep).len() >= 1,
    decreases s.len(),
{
    if s.len() > 0 {
        lemma_split_on_nonempty(s.drop_last(), sep);
    }
}

/// An `i32` read with the rules of Rust's `from_str`: an optional sign, then
/// decimal digits, within `i32`'s range.
pub open spec fn parse_i32(t: Seq<u8>) -> Option<int> {
    if t.len() >= 2 && t[0] == 45u8 {
        if t[1] == 43u8 {
            None
        } else {
            match parse_uint(t.subrange(1, t.len() as int), 2147483648) {
                Ok(v) => Some(-v),
                Err(_) => None,
            }
        }
    } else {
        match parse_uint(t, 2147483647) {
            Ok(v) => Some(v),
            Err(_) => None,
        }
    }
}

/// The values of the pieces that read as `i32` (each piece trimmed first).
pub open spec fn parsed_values(pieces: Seq<Seq<char>>) -> Seq<int>
    decreases pieces.len(),
{
    if pieces.len() == 0 {
        Seq::empty()
    } else {
        let rest = parsed_values(pieces.drop_last());
        match parse_i32(ascii_bytes(trimmed(pieces.last()))) {
            Some(v) => rest.push(v),
            None => rest,
        }
    }
}

/// A box `x, y, w, h` written as a comma-separated list: the four values
/// when exactly four pieces read as integers, else all zeros.
pub open spec fn box_list(s: Seq<char>) -> Seq<int> {
    let v = parsed_values(split_on(s, ','));
    if v.len() == 4 {
        v
    } else {
        seq![0int, 0, 0, 0]
    }
}

/// Parses an `i32` with the rules of Rust's `from_str`.
pub fn parse_i32_str(s: &str) -> (r: Option<i32>)
    ensures
        match parse_i32(ascii_bytes(s@)) {
            Some(v) => r matches Some(x) && x as int == v,
            None => r is None,
        },
{
    let cs = chars_of(s);
    let n = cs.len();
    let mut bytes: Vec<u8> = Vec::new();
    let mut i: usize = 0;
    while i < n
        invariant
            n == s@.len(),
            cs@ == s@,
            i <= n,
            bytes@ == ascii_bytes(s@).subrange(0, i as int),
        decreases n - i,
    {
        let c = cs[i];
        let u = c as u32;
        let b: u8 = if u < 128 { u as u8 } else { 0xFFu8 };
        bytes.push(b);
        i = i + 1;
        proof {
            assert(bytes@ =~= ascii_bytes(s@).subrange(0, i as int));
        }
    }
    proof {
        assert(bytes@ =~= ascii_bytes(s@));
    }
    if n >= 2 && bytes[0] == 45u8 {
        if bytes[1] == 43u8 {
            return None;
        }
        let mag = slice_bytes(bytes.as_slice(), 1, n);
        match parse_uint_bytes(mag.as_slice(), 2147483648u64) {
            Ok(v) => {
                proof {
                    assert(int_result(Ok::<u64, IntErrorKind>(v)) == Ok::<int, IntErrorKind>(v as int));
                }
                if v == 2147483648u64 {
                    Some(-2147483647i32 - 1)
                } else {
                    let m = v as i32;
                    Some(-m)
                }
            },
            Err(_) => None,
        }
    } else {
        match parse_uint_bytes(bytes.as_slice(), 2147483647u64) {
            Ok(v) => {
                proof {
                    assert(int_result(Ok::<u64, IntErrorKind>(v)) == Ok::<int, IntErrorKind>(v as int));
                }
                Some(v as i32)
            },
            Err(_) => None,
        }
    }
}

/// Reads a box `x, y, w, h` from its comma-separated text; anything but
/// exactly four integers gives `[0, 0, 0, 0]`.
pub fn parse_box_list(s: &str) -> (r: [i32; 4])
    ensures
        forall|k: int| 0 <= k < 4 ==> #[trigger] r@[k] as int == box_list(s@)[k],
{
    let cs = chars_of(s);
    let n = cs.len();
    let mut vals: Vec<i32> = Vec::new();
    let mut done: Ghost<Seq<Seq<char>>> = Ghost(Seq::empty());
    let mut start: usize = 0;
    let mut k: usize = 0;
    proof {
        assert(s@.subrange(0, 0) =~= Seq::<char>::empty());
        assert(split_on(s@.subrange(0, 0), ',') =~= done@.push(s@.subrange(0, 0)));
    }
    while k < n
        invariant
            n == s@.len(),
            cs@ == s@,
            start <= k <= n,
            split_on(s@.subrange(0, k as int), ',') == done@.push(s@.subrange(start as int, k as int)),
            vals@.len() == parsed_values(done@).len(),
            forall|q: int| 0 <= q < vals@.len() ==> #[trigger] vals@[q] as int == parsed_values(done@)[q],
        decreases n - k,
    {
        let ghost before = s@.subrange(0, k as int);
        assert(s@.subrange(0, k + 1).drop_last() =~= before);
        if cs[k] == ',' {
            let piece = s.substring_char(start, k);
            let ghost pieces = done@.push(s@.subrange(start as int, k as int));
            assert(pieces.drop_last() =~= done@);
            assert(pieces.last() == piece@);
            let t = trim(piece);
            let ghost old_vals = vals@;
            match parse_i32_str(t) {
                Some(v) => {
                    vals.push(v);
                    assert(parsed_values(pieces) == parsed_values(done@).push(v as int));
                    assert forall|q: int| 0 <= q < vals@.len() implies #[trigger] vals@[q] as int == parsed_values(pieces)[q] by {
                        if q < old_vals.len() {
                            assert(vals@[q] == old_vals[q]);
                        }
                    }
                },
                None => {
                    assert(parsed_values(pieces) == parsed_values(done@));
                },
            }
            proof {
                done@ = pieces;
                assert(s@.subrange(k + 1, k + 1) =~= Seq::<char>::empty());
            }
            start = k + 1;
        } else {
            proof {
                let p = split_on(before, ',');
                assert(s@.subrange(start as int, k + 1) =~= s@.subrange(start as int, k as int).push(s@[k as int]));
                assert(p.update(p.len() - 1, p.last().push(s@[k as int])) =~= done@.push(s@.subrange(start as int, k + 1)));
            }
        }
        k = k + 1;
    }
    let last = s.substring_char(start, n);
    let ghost pieces = done@.push(s@.subrange(start as int, n as int));
    proof {
        assert(s@.subrange(0, n as int) =~= s@);
        assert(pieces.drop_last() =~= done@);
        assert(pieces == split_on(s@, ','));
        assert(pieces.last() == last@);
    }
    let t = trim(last);
    let ghost old_vals = vals@;
    match parse_i32_str(t) {
        Some(v) => {
            vals.push(v);
            assert(parsed_values(pieces) == parsed_values(done@).push(v as int));
            assert forall|q: int| 0 <= q < vals@.len() implies #[trigger] vals@[q] as int == parsed_values(pieces)[q] by {
                if q < old_vals.len() {
                    assert(vals@[q] == old_vals[q]);
                }
            }
        },
        None => {
            assert(parsed_values(pieces) == parsed_values(done@));
        },
    }
    if vals.len() == 4 {
        [vals[0], vals[1], vals[2], vals[3]]
    } else {
        [0, 0, 0, 0]
    }
}

/// `"face_id":`
pub open spec fn face_id_key() -> Seq<u8> {
    seq![34u8, 102, 97, 99, 101, 95, 105, 100, 34, 58]
}

/// `"sample_box":`
pub open spec fn sample_box_key() -> Seq<u8> {
    seq![34u8, 115, 97, 109, 112, 108, 101, 95, 98, 111, 120, 34, 58]
}

/// `"gallery":`
pub open spec fn gallery_key() -> Seq<u8> {
    seq![34u8, 103, 97, 108, 108, 101, 114, 121, 34, 58]
}

/// The first place at or after `i` where `pat` occurs in `b`.
pub open spec fn find_from(b: Seq<u8>, pat: Seq<u8>, i: int) -> Option<int>
    decreases b.len() - i,
{
    if i < 0 || i + pat.len() > b.len() {
        None
    } else if b.subrange(i, i + pat.len()) == pat {
        Some(i)
    } else if i >= b.len() {
        None
    } else {
        find_from(b, pat, i + 1)
    }
}

pub proof fn lemma_find_from(b: Seq<u8>, pat: Seq<u8>, i: int)
    ensures
        find_from(b, pat, i) matches Some(p) ==> i <= p && p + pat.len() <= b.len() && b.subrange(
            p,
            p + pat.len(),
        ) == pat,
    decreases b.len() - i,
{
    if !(i < 0 || i + pat.len() > b.len()) && b.subrange(i, i + pat.len()) != pat && i < b.len() {
        lemma_find_from(b, pat, i + 1);
    }
}

/// A byte that is whitespace when read as the character of the same value.
pub open spec fn is_byte_ws(c: u8) -> bool {
    (9 <= c <= 13) || c == 32 || c == 0x85 || c == 0xA0
}

/// End of the run of whitespace bytes from `j`.
pub open spec fn ws_end(b: Seq<u8>, j: int) -> int
    decreases b.len() - j,
{
    if 0 <= j < b.len() && is_byte_ws(b[j]) {
        ws_end(b, j + 1)
    } else {
        j
    }
}

/// End of the run of ASCII digits from `j`.
pub open spec fn digits_end(b: Seq<u8>, j: int) -> int
    decreases b.len() - j,
{
    if 0 <= j < b.len() && 48 <= b[j] <= 57 {
        digits_end(b, j + 1)
    } else {
        j
    }
}

pub proof fn lemma_run_ends(b: Seq<u8>, j: int)
    requires
        0 <= j <= b.len(),
    ensures
        j <= ws_end(b, j) <= b.len(),
        j <= digits_end(b, j) <= b.len(),
    decreases b.len() - j,
{
    if j < b.len() {
        lemma_run_ends(b, j + 1);
    }
}

/// The text between the first `[` and the first `]` after the first `key`
/// at or after `j`, as a byte range `(start, end)`; `start > end` when the
/// `]` comes first.
pub open spec fn span_after(b: Seq<u8>, key: Seq<u8>, j: int) -> Option<(int, int)> {
    match find_from(b, key, j) {
        None => None,
        Some(p) => {
            let s = p + key.len();
            match (find_from(b, seq![91u8], s), find_from(b, seq![93u8], s)) {
                (Some(l), Some(r)) => Some((l + 1, r)),
                _ => None,
            }
        },
    }
}

/// A track listed in an earlier report: its id and where its box and
/// gallery lists are.
pub open spec fn prior_entry(b: Seq<u8>, id: int, j: int) -> (int, Option<(int, int)>, Option<(int, int)>) {
    (id, span_after(b, sample_box_key(), j), span_after(b, gallery_key(), j))
}

/// The tracks of an earlier report, read from `i` on: each `"face_id":`,
/// whitespace, then digits that read as a `u32` gives an entry; the box and
/// gallery lists are the first ones after those digits. The scan stops when
/// no more than 30 bytes are left at its position.
pub open spec fn scan_tracks(b: Seq<u8>, i: int) -> Seq<(int, Option<(int, int)>, Option<(int, int)>)>
    decreases b.len() - i,
{
    if i < 0 || !(i + 30 < b.len()) {
        Seq::empty()
    } else {
        match find_from(b, face_id_key(), i) {
            None => Seq::empty(),
            Some(abs) => {
                proof {
                    lemma_find_from(b, face_id_key(), i);
                    lemma_run_ends(b, abs + 10);
                    lemma_run_ends(b, ws_end(b, abs + 10));
                }
                let j0 = ws_end(b, abs + 10);
                let j = digits_end(b, j0);
                let rest = scan_tracks(b, j);
                match parse_uint(b.subrange(j0, j), 4294967295) {
                    Ok(id) => seq![prior_entry(b, id, j)] + rest,
                    Err(_) => rest,
                }
            },
        }
    }
}

/// A track read from an earlier report. The byte ranges index the report's
/// text; a range whose start exceeds its end means `]` came before `[`.
pub struct PriorEntry {
    pub face_id: u32,
    pub box_span: Option<(usize, usize)>,
    pub gallery_span: Option<(usize, usize)>,
}

pub open spec fn span_view(o: Option<(usize, usize)>) -> Option<(int, int)> {
    match o {
        Some((a, b)) => Some((a as int, b as int)),
        None => None,
    }
}

impl View for PriorEntry {
    type V = (int, Option<(int, int)>, Option<(int, int)>);

    open spec fn view(&self) -> Self::V {
        (self.face_id as int, span_view(self.box_span), span_view(self.gallery_span))
    }
}

fn find_from_exec(b: &[u8], pat: &[u8], i: usize) -> (r: Option<usize>)
    requires
        i <= b@.len(),
    ensures
        span_view_at(r) == find_from(b@, pat@, i as int),
{
    let n = b.len();
    let m = pat.len();
    let mut k = i;
    while k <= n && n - k >= m
        invariant
            i <= k,
            n == b@.len(),
            m == pat@.len(),
            find_from(b@, pat@, i as int) == find_from(b@, pat@, k as int),
        decreases n - k,
    {
        let mut q: usize = 0;
        while q < m && b[k + q] == pat[q]
            invariant
                k + m <= n,
                m == pat@.len(),
                n == b@.len(),
                q <= m,
                forall|t: int| 0 <= t < q ==> #[trigger] b@[k + t] == pat@[t],
            decreases m - q,
        {
            q = q + 1;
        }
        if q == m {
            proof {
                assert forall|t: int| 0 <= t < m implies #[trigger] b@.subrange(k as int, k + m)[t] == pat@[t] by {
                    assert(b@[k + t] == pat@[t]);
                }
                assert(b@.subrange(k as int, k + m) =~= pat@);
            }
            return Some(k);
        }
        proof {
            assert(b@.subrange(k as int, k + m)[q as int] != pat@[q as int]);
        }
        k = k + 1;
    }
    None
}

pub open spec fn span_view_at(r: Option<usize>) -> Option<int> {
    match r {
        Some(p) => Some(p as int),
        None => None,
    }
}

fn span_after_exec(b: &[u8], key: &[u8], j: usize) -> (r: Option<(usize, usize)>)
    requires
        j <= b@.len(),
    ensures
        span_view(r) == span_after(b@, key@, j as int),
{
    let n = b.len();
    let kl = key.len();
    match find_from_exec(b, key, j) {
        None => None,
        Some(p) => {
            proof {
                lemma_find_from(b@, key@, j as int);
                assert(find_from(b@, key@, j as int) == Some(p as int));
                assert(p + kl <= n);
            }
            let s = p + kl;
            let lb: [u8; 1] = [91u8];
            let rb: [u8; 1] = [93u8];
            proof {
                assert(lb@ =~= seq![91u8]);
                assert(rb@ =~= seq![93u8]);
            }
            let l = find_from_exec(b, &lb, s);
            let r = find_from_exec(b, &rb, s);
            match (l, r) {
                (Some(l), Some(r)) => {
                    proof {
                        lemma_find_from(b@, seq![91u8], s as int);
                        assert(find_from(b@, seq![91u8], s as int) == Some(l as int));
                        assert(l + 1 <= n);
                    }
                    Some((l + 1, r))
                },
                _ => None,
            }
        },
    }
}

/// Lists the tracks of an earlier `tracks.json` report: for each
/// `"face_id": N`, the id and where the following `"sample_box"` and
/// `"gallery"` lists are in the text.
pub fn scan_prior_tracks(content: &str) -> (r: Vec<PriorEntry>)
    ensures
        r@.len() == scan_tracks(content.spec_bytes(), 0).len(),
        forall|k: int| 0 <= k < r@.len() ==> #[trigger] r@[k]@ == scan_tracks(content.spec_bytes(), 0)[k],
{
    let b = content.as_bytes();
    let n = b.len();
    let fk: [u8; 10] = [34u8, 102, 97, 99, 101, 95, 105, 100, 34, 58];
    let sk: [u8; 13] = [34u8, 115, 97, 109, 112, 108, 101, 95, 98, 111, 120, 34, 58];
    let gk: [u8; 10] = [34u8, 103, 97, 108, 108, 101, 114, 121, 34, 58];
    proof {
        assert(fk@ =~= face_id_key());
        assert(sk@ =~= sample_box_key());
        assert(gk@ =~= gallery_key());
    }
    let ghost bs = b@;
    let mut out: Vec<PriorEntry> = Vec::new();
    let mut i: usize = 0;
    while i < n && n - i > 30
        invariant
            bs == b@,
            bs == content.spec_bytes(),
            n == bs.len(),
            i <= n,
            fk@ == face_id_key(),
            sk@ == sample_box_key(),
            gk@ == gallery_key(),
            out@.len() + scan_tracks(bs, i as int).len() == scan_tracks(bs, 0).len(),
            forall|k: int| 0 <= k < out@.len() ==> #[trigger] out@[k]@ == scan_tracks(bs, 0)[k],
            forall|k: int|
                0 <= k < scan_tracks(bs, i as int).len() ==> #[trigger] scan_tracks(bs, i as int)[k]
                    == scan_tracks(bs, 0)[out@.len() + k],
        ensures
            out@.len() == scan_tracks(bs, 0).len(),
            forall|k: int| 0 <= k < out@.len() ==> #[trigger] out@[k]@ == scan_tracks(bs, 0)[k],
        decreases n - i,
    {
        let abs = match find_from_exec(b, &fk, i) {
            None => {
                proof {
                    assert(scan_tracks(bs, i as int).len() == 0);
                }
                break;
            },
            Some(a) => a,
        };
        proof {
            lemma_find_from(bs, face_id_key(), i as int);
            lemma_run_ends(bs, abs + 10);
        }
        let mut j = abs + 10;
        while j < n && (9u8 <= b[j] && b[j] <= 13u8 || b[j] == 32u8 || b[j] == 0x85u8 || b[j] == 0xA0u8)
            invariant
                n == bs.len(),
                bs == b@,
                abs + 10 <= j <= n,
                ws_end(bs, j as int) == ws_end(bs, abs + 10),
            decreases n - j,
        {
            j = j + 1;
        }
        let j0 = j;
        proof {
            lemma_run_ends(bs, j0 as int);
        }
        while j < n && 48u8 <= b[j] && b[j] <= 57u8
            invariant
                n == bs.len(),
                bs == b@,
                j0 <= j <= n,
                digits_end(bs, j as int) == digits_end(bs, j0 as int),
            decreases n - j,
        {
            j = j + 1;
        }
        let ghost rest = scan_tracks(bs, j as int);
        let digits = slice_bytes(b, j0, j);
        let ghost whole = scan_tracks(bs, i as int);
        match parse_uint_bytes(digits.as_slice(), 4294967295u64) {
            Ok(id) => {
                let bsp = span_after_exec(b, &sk, j);
                let gsp = span_after_exec(b, &gk, j);
                let e = PriorEntry { face_id: id as u32, box_span: bsp, gallery_span: gsp };
                proof {
                    assert(int_result(Ok::<u64, IntErrorKind>(id)) == Ok::<int, IntErrorKind>(id as int));
                    assert(whole == seq![prior_entry(bs, id as int, j as int)] + rest);
                    assert(e@ == prior_entry(bs, id as int, j as int));
                }
                let ghost old_out = out@;
                out.push(e);
                proof {
                    assert forall|k: int| 0 <= k < out@.len() implies #[trigger] out@[k]@ == scan_tracks(bs, 0)[k] by {
                        if k < old_out.len() {
                            assert(out@[k] == old_out[k]);
                        } else {
                            assert(whole[0] == e@);
                        }
                    }
                    assert forall|k: int| 0 <= k < rest.len() implies #[trigger] rest[k] == scan_tracks(bs, 0)[out@.len() + k] by {
                        assert(rest[k] == whole[k + 1]);
                    }
                }
            },
            Err(_) => {
                proof {
                    assert(whole == rest);
                }
            },
        }
        i = j;
    }
    out
}

} // verus!
