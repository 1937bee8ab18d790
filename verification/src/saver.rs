//! Annotating frames: rectangle outlines in one colour or a per-track
//! palette, and text labels in a small bitmap font.

use vstd::prelude::*;
use crate::image::{Image, Rect, flat, nonneg, lemma_flat_bound, lemma_flat_outside};
use crate::ppm::{lemma_index_in_grid, lemma_grid_distinct};
use crate::http::rfind_char;
use crate::text::{ascii_bytes, chars_of, parse_uint, parse_uint_str, push_padded, zero_padded, dec_chars, dec_digits, digit_char, parse_digits, lemma_dec_digits_parse, IntErrorKind};
use vstd::string::StringExecFns;

verus! {

/// `new` is `old` with each pixel where `on` holds set to `color`, over the
/// channels both have; every other byte is kept.
pub open spec fn painted(new: Image, old: Image, on: spec_fn(int, int) -> bool, color: Seq<u8>) -> bool {
    &&& new.width == old.width
    &&& new.height == old.height
    &&& new.channels == old.channels
    &&& new.data@.len() == old.data@.len()
    &&& forall|x: int, y: int, c: int|
        0 <= x < old.width && 0 <= y < old.height && 0 <= c < old.channels ==> #[trigger] new.at(x, y, c)
            == if on(x, y) && c < color.len() {
            color[c]
        } else {
            old.at(x, y, c)
        }
}

/// Byte `(x, y, c)` of a well-formed image is in range, and distinct
/// coordinates give distinct bytes.
proof fn lemma_byte(x: int, y: int, c: int, x2: int, y2: int, c2: int, w: int, h: int, ch: int)
    requires
        0 <= x < w,
        0 <= y < h,
        0 <= c < ch,
        0 <= x2 < w,
        0 <= y2 < h,
        0 <= c2 < ch,
    ensures
        0 <= flat(x, y, c, w, ch) < w * h * ch,
        (x != x2 || y != y2 || c != c2) ==> flat(x, y, c, w, ch) != flat(x2, y2, c2, w, ch),
{
    lemma_index_in_grid(x, y, w, h);
    lemma_flat_bound(y * w + x, c, w * h, ch);
    assert(w * h * ch == (w * h) * ch) by (nonlinear_arith);
    if x != x2 || y != y2 {
        lemma_grid_distinct(x, y, x2, y2, w);
        lemma_index_in_grid(x2, y2, w, h);
        lemma_flat_outside(y * w + x, c, y2 * w + x2, ch);
    }
}

/// Sets the channels of pixel `(x, y)` to `color`; outside the image nothing changes.
fn set_pixel(img: &mut Image, x: usize, y: usize, color: &[u8])
    requires
        old(img).wf(),
        old(img).width * old(img).height <= usize::MAX,
    ensures
        painted(*final(img), *old(img), |px: int, py: int| px == x && py == y, color@),
{
    if x >= img.width || y >= img.height {
        return;
    }
    let total = img.data.len();
    let ghost w = img.width as int;
    let ghost h = img.height as int;
    let ghost ch = img.channels as int;
    proof {
        lemma_index_in_grid(x as int, y as int, w, h);
        assert((y * w + x) * ch <= (w * h) * ch) by (nonlinear_arith)
            requires
                y * w + x <= w * h,
                0 <= ch,
        ;
        assert(w * h * ch == (w * h) * ch) by (nonlinear_arith);
        assert(y * w <= y * w + x);
    }
    let idx = (y * img.width + x) * img.channels;
    let n = if img.channels < color.len() { img.channels } else { color.len() };
    let mut i: usize = 0;
    while i < n
        invariant
            img.width == old(img).width,
            img.height == old(img).height,
            img.channels == old(img).channels,
            img.data@.len() == old(img).data@.len(),
            total == img.data@.len(),
            old(img).wf(),
            idx == flat(x as int, y as int, 0, w, ch),
            w == img.width,
            h == img.height,
            ch == img.channels,
            x < w,
            y < h,
            n <= ch,
            n <= color@.len(),
            i <= n,
            forall|q: int|
                0 <= q < img.data@.len() ==> #[trigger] img.data@[q] == if idx <= q < idx + i {
                    color@[q - idx]
                } else {
                    old(img).data@[q]
                },
        decreases n - i,
    {
        proof {
            lemma_byte(x as int, y as int, i as int, x as int, y as int, i as int, w, h, ch);
        }
        img.data.set(idx + i, color[i]);
        i = i + 1;
    }
    proof {
        assert forall|px: int, py: int, c: int|
            0 <= px < w && 0 <= py < h && 0 <= c < ch implies #[trigger] img.at(px, py, c) == if px == x && py
            == y && c < color@.len() {
            color@[c]
        } else {
            old(img).at(px, py, c)
        } by {
            lemma_byte(px, py, c, x as int, y as int, 0, w, h, ch);
            if px == x && py == y {
            } else {
                lemma_grid_distinct(px, py, x as int, y as int, w);
                lemma_index_in_grid(px, py, w, h);
                lemma_index_in_grid(x as int, y as int, w, h);
                lemma_flat_outside(py * w + px, c, y * w + x, ch);
            }
        }
    }
}


/// The smaller of two integers.
pub open spec fn min_int(a: int, b: int) -> int {
    if a < b { a } else { b }
}

/// Whether pixel `(px, py)` lies on the outline drawn for `r` in a `w` x `h`
/// image. The outline runs from `(max(x, 0), max(y, 0))` to
/// `(min(x + w, w - 1), min(y + h, h - 1))`: its top and bottom rows span that
/// column range, its left and right columns that row range (even where the
/// column range is empty).
pub open spec fn on_outline(r: Rect, w: int, h: int, px: int, py: int) -> bool {
    let x0 = nonneg(r.x as int);
    let y0 = nonneg(r.y as int);
    let x1 = min_int(r.x + r.w, w - 1);
    let y1 = min_int(r.y + r.h, h - 1);
    ||| x0 <= px <= x1 && (py == y0 || py == y1)
    ||| y0 <= py <= y1 && (px == x0 || px == x1)
}

/// The outline of `r` can be drawn in a `w` x `h` image: the far edges fit in
/// `i32` and the clamped far corner is not left of or above the image.
pub open spec fn rect_drawable(r: Rect, w: int, h: int) -> bool {
    &&& 1 <= w <= i32::MAX
    &&& 1 <= h <= i32::MAX
    &&& 0 <= r.x + r.w <= i32::MAX
    &&& 0 <= r.y + r.h <= i32::MAX
}

/// Draws the one-pixel outline of `r` in `color`.
fn draw_single_rect(img: &mut Image, r: &Rect, color: &[u8])
    requires
        old(img).wf(),
        old(img).width * old(img).height <= usize::MAX,
        rect_drawable(*r, old(img).width as int, old(img).height as int),
    ensures
        painted(
            *final(img),
            *old(img),
            |px: int, py: int| on_outline(*r, old(img).width as int, old(img).height as int, px, py),
            color@,
        ),
{
    let ghost w = img.width as int;
    let ghost h = img.height as int;
    let x0: usize = if r.x < 0 { 0 } else { r.x as usize };
    let y0: usize = if r.y < 0 { 0 } else { r.y as usize };
    let wl = img.width as i32 - 1;
    let hl = img.height as i32 - 1;
    let xe = r.x + r.w;
    let ye = r.y + r.h;
    let x1 = (if xe < wl { xe } else { wl }) as usize;
    let y1 = (if ye < hl { ye } else { hl }) as usize;
    let mut x = x0;
    while x <= x1
        invariant
            img.wf(),
            img.width == old(img).width,
            img.height == old(img).height,
            img.channels == old(img).channels,
            img.data@.len() == old(img).data@.len(),
            img.width * img.height <= usize::MAX,
            w == img.width,
            h == img.height,
            x1 < w,
            x0 <= x,
            x <= x1 + 1 || x == x0,
            forall|px: int, py: int, c: int|
                0 <= px < w && 0 <= py < h && 0 <= c < img.channels ==> #[trigger] img.at(px, py, c) == if x0
                    <= px < x && (py == y0 || py == y1) && c < color@.len() {
                    color@[c]
                } else {
                    old(img).at(px, py, c)
                },
        decreases x1 + 1 - x,
    {
        set_pixel(img, x, y0, color);
        set_pixel(img, x, y1, color);
        x = x + 1;
    }
    let mut y = y0;
    while y <= y1
        invariant
            img.wf(),
            img.width == old(img).width,
            img.height == old(img).height,
            img.channels == old(img).channels,
            img.data@.len() == old(img).data@.len(),
            img.width * img.height <= usize::MAX,
            w == img.width,
            h == img.height,
            y1 < h,
            y0 <= y,
            y <= y1 + 1 || y == y0,
            forall|px: int, py: int, c: int|
                0 <= px < w && 0 <= py < h && 0 <= c < img.channels ==> #[trigger] img.at(px, py, c) == if ((x0
                    <= px <= x1 && (py == y0 || py == y1)) || (y0 <= py < y && (px == x0 || px == x1))) && c
                    < color@.len() {
                    color@[c]
                } else {
                    old(img).at(px, py, c)
                },
        decreases y1 + 1 - y,
    {
        set_pixel(img, x0, y, color);
        set_pixel(img, x1, y, color);
        y = y + 1;
    }
}

/// Whether one of the first `n` outlines of `rs` passes through `(px, py)`.
pub open spec fn covered(rs: Seq<Rect>, n: int, w: int, h: int, px: int, py: int) -> bool
    decreases n,
{
    n > 0 && (on_outline(rs[n - 1], w, h, px, py) || covered(rs, n - 1, w, h, px, py))
}

/// Draws the outlines of all `rects` in one colour.
pub fn draw_rects_color(img: &mut Image, rects: &[Rect], color: &[u8])
    requires
        old(img).wf(),
        old(img).width * old(img).height <= usize::MAX,
        forall|i: int|
            0 <= i < rects@.len() ==> rect_drawable(#[trigger] rects@[i], old(img).width as int, old(img).height as int),
    ensures
        painted(
            *final(img),
            *old(img),
            |px: int, py: int| covered(rects@, rects@.len() as int, old(img).width as int, old(img).height as int, px, py),
            color@,
        ),
{
    let ghost w = img.width as int;
    let ghost h = img.height as int;
    let n = rects.len();
    let mut i: usize = 0;
    while i < n
        invariant
            n == rects@.len(),
            i <= n,
            img.wf(),
            img.width == old(img).width,
            img.height == old(img).height,
            img.channels == old(img).channels,
            img.data@.len() == old(img).data@.len(),
            img.width * img.height <= usize::MAX,
            w == img.width,
            h == img.height,
            forall|k: int| 0 <= k < rects@.len() ==> rect_drawable(#[trigger] rects@[k], w, h),
            forall|px: int, py: int, c: int|
                0 <= px < w && 0 <= py < h && 0 <= c < img.channels ==> #[trigger] img.at(px, py, c) == if covered(
                    rects@,
                    i as int,
                    w,
                    h,
                    px,
                    py,
                ) && c < color@.len() {
                    color@[c]
                } else {
                    old(img).at(px, py, c)
                },
        decreases n - i,
    {
        draw_single_rect(img, &rects[i], color);
        i = i + 1;
    }
}

/// Draws the outlines of all `rects` in white.
pub fn draw_rects(img: &mut Image, rects: &[Rect])
    requires
        old(img).wf(),
        old(img).width * old(img).height <= usize::MAX,
        forall|i: int|
            0 <= i < rects@.len() ==> rect_drawable(#[trigger] rects@[i], old(img).width as int, old(img).height as int),
    ensures
        painted(
            *final(img),
            *old(img),
            |px: int, py: int| covered(rects@, rects@.len() as int, old(img).width as int, old(img).height as int, px, py),
            seq![255u8],
        ),
{
    let white: [u8; 1] = [255];
    draw_rects_color(img, rects, white.as_slice());
    proof {
        assert(white@ =~= seq![255u8]);
    }
}


/// The track palette: red, green, blue, yellow, purple, cyan, orange.
pub open spec fn palette_rgb(k: int) -> Seq<u8> {
    if k == 0 {
        seq![255u8, 80, 80]
    } else if k == 1 {
        seq![80u8, 220, 80]
    } else if k == 2 {
        seq![80u8, 150, 255]
    } else if k == 3 {
        seq![255u8, 220, 80]
    } else if k == 4 {
        seq![220u8, 80, 255]
    } else if k == 5 {
        seq![80u8, 230, 230]
    } else {
        seq![255u8, 160, 80]
    }
}

/// Colour for track `id` in a `ch`-channel image: its palette entry, or on
/// fewer than three channels the mean of that entry's components.
pub open spec fn track_color(id: u32, ch: int) -> Seq<u8> {
    let rgb = palette_rgb(id as int % 7);
    if ch >= 3 {
        rgb
    } else {
        seq![((rgb[0] + rgb[1] + rgb[2]) / 3) as u8]
    }
}

/// Track id of rectangle `i`: `ids[i]`, or 0 past the end of `ids`.
pub open spec fn id_at(ids: Seq<u32>, i: int) -> u32 {
    if 0 <= i < ids.len() { ids[i] } else { 0 }
}

/// The RGB colour of track `id`: the palette cycles through seven colours.
pub fn palette_color(id: u32) -> (r: (u8, u8, u8))
    ensures
        seq![r.0, r.1, r.2] == palette_rgb(id as int % 7),
{
    let k = id % 7;
    if k == 0 {
        (255, 80, 80)
    } else if k == 1 {
        (80, 220, 80)
    } else if k == 2 {
        (80, 150, 255)
    } else if k == 3 {
        (255, 220, 80)
    } else if k == 4 {
        (220, 80, 255)
    } else if k == 5 {
        (80, 230, 230)
    } else {
        (255, 160, 80)
    }
}

/// Byte `(x, y, c)` after drawing the first `n` outlines, each in its track
/// colour: the last outline through the pixel wins.
pub open spec fn palette_value(old: Image, rs: Seq<Rect>, ids: Seq<u32>, n: int, x: int, y: int, c: int) -> u8
    decreases n,
{
    if n <= 0 {
        old.at(x, y, c)
    } else if on_outline(rs[n - 1], old.width as int, old.height as int, x, y) && c < track_color(
        id_at(ids, n - 1),
        old.channels as int,
    ).len() {
        track_color(id_at(ids, n - 1), old.channels as int)[c]
    } else {
        palette_value(old, rs, ids, n - 1, x, y, c)
    }
}

/// Draws each rectangle's outline in the palette colour of its track id.
pub fn draw_rects_palette(img: &mut Image, rects: &[Rect], face_ids: &[u32])
    requires
        old(img).wf(),
        old(img).width * old(img).height <= usize::MAX,
        forall|i: int|
            0 <= i < rects@.len() ==> rect_drawable(#[trigger] rects@[i], old(img).width as int, old(img).height as int),
    ensures
        final(img).width == old(img).width,
        final(img).height == old(img).height,
        final(img).channels == old(img).channels,
        final(img).wf(),
        forall|x: int, y: int, c: int|
            0 <= x < old(img).width && 0 <= y < old(img).height && 0 <= c < old(img).channels ==> #[trigger] final(img).at(x, y, c)
                == palette_value(*old(img), rects@, face_ids@, rects@.len() as int, x, y, c),
{
    let palette: [(u8, u8, u8); 7] = [
        (255, 80, 80),
        (80, 220, 80),
        (80, 150, 255),
        (255, 220, 80),
        (220, 80, 255),
        (80, 230, 230),
        (255, 160, 80),
    ];
    let ghost w = img.width as int;
    let ghost h = img.height as int;
    let n = rects.len();
    let mut i: usize = 0;
    while i < n
        invariant
            n == rects@.len(),
            i <= n,
            img.wf(),
            img.width == old(img).width,
            img.height == old(img).height,
            img.channels == old(img).channels,
            img.data@.len() == old(img).data@.len(),
            img.width * img.height <= usize::MAX,
            w == img.width,
            h == img.height,
            palette@ == seq![
                (255u8, 80u8, 80u8),
                (80u8, 220u8, 80u8),
                (80u8, 150u8, 255u8),
                (255u8, 220u8, 80u8),
                (220u8, 80u8, 255u8),
                (80u8, 230u8, 230u8),
                (255u8, 160u8, 80u8),
            ],
            forall|k: int| 0 <= k < rects@.len() ==> rect_drawable(#[trigger] rects@[k], w, h),
            forall|x: int, y: int, c: int|
                0 <= x < w && 0 <= y < h && 0 <= c < img.channels ==> #[trigger] img.at(x, y, c) == palette_value(
                    *old(img),
                    rects@,
                    face_ids@,
                    i as int,
                    x,
                    y,
                    c,
                ),
        decreases n - i,
    {
        let id: u32 = if i < face_ids.len() { face_ids[i] } else { 0 };
        let (pr, pg, pb) = palette[(id as usize) % 7];
        proof {
            let k = id as int % 7;
            assert(palette_rgb(k) == seq![pr, pg, pb]);
        }
        if img.channels >= 3 {
            let color: [u8; 3] = [pr, pg, pb];
            draw_single_rect(img, &rects[i], color.as_slice());
            proof {
                assert(color@ =~= track_color(id, img.channels as int));
            }
        } else {
            let lum = ((pr as u32 + pg as u32 + pb as u32) / 3) as u8;
            let color: [u8; 1] = [lum];
            draw_single_rect(img, &rects[i], color.as_slice());
            proof {
                assert(color@ =~= track_color(id, img.channels as int));
            }
        }
        i = i + 1;
    }
}

/// The 5x8 bitmap font: row `gy` of a glyph as a 5-bit mask, leftmost column
/// in the high bit. Letters ignore case; characters without a glyph are blank.
pub open spec fn glyph_rows(c: char) -> Seq<u8> {
    if c == 'A' || c == 'a' {
        seq![0b01100, 0b10010, 0b10010, 0b11110, 0b10010, 0b10010, 0b10010, 0b00000]
    } else if c == 'B' || c == 'b' {
        seq![0b11100, 0b10010, 0b10010, 0b11100, 0b10010, 0b10010, 0b11100, 0b00000]
    } else if c == 'C' || c == 'c' {
        seq![0b01110, 0b10000, 0b10000, 0b10000, 0b10000, 0b10000, 0b01110, 0b00000]
    } else if c == 'D' || c == 'd' {
        seq![0b11100, 0b10010, 0b10010, 0b10010, 0b10010, 0b10010, 0b11100, 0b00000]
    } else if c == 'E' || c == 'e' {
        seq![0b11110, 0b10000, 0b10000, 0b11100, 0b10000, 0b10000, 0b11110, 0b00000]
    } else if c == 'F' || c == 'f' {
        seq![0b11110, 0b10000, 0b10000, 0b11100, 0b10000, 0b10000, 0b10000, 0b00000]
    } else if c == 'G' || c == 'g' {
        seq![0b01110, 0b10000, 0b10000, 0b10110, 0b10010, 0b10010, 0b01110, 0b00000]
    } else if c == 'H' || c == 'h' {
        seq![0b10010, 0b10010, 0b10010, 0b11110, 0b10010, 0b10010, 0b10010, 0b00000]
    } else if c == 'I' || c == 'i' {
        seq![0b01110, 0b00100, 0b00100, 0b00100, 0b00100, 0b00100, 0b01110, 0b00000]
    } else if c == 'J' || c == 'j' {
        seq![0b00111, 0b00010, 0b00010, 0b00010, 0b00010, 0b10010, 0b01100, 0b00000]
    } else if c == 'K' || c == 'k' {
        seq![0b10010, 0b10100, 0b11000, 0b10000, 0b11000, 0b10100, 0b10010, 0b00000]
    } else if c == 'L' || c == 'l' {
        seq![0b10000, 0b10000, 0b10000, 0b10000, 0b10000, 0b10000, 0b11110, 0b00000]
    } else if c == 'M' || c == 'm' {
        seq![0b10001, 0b11011, 0b10101, 0b10001, 0b10001, 0b10001, 0b10001, 0b00000]
    } else if c == 'N' || c == 'n' {
        seq![0b10001, 0b11001, 0b10101, 0b10011, 0b10001, 0b10001, 0b10001, 0b00000]
    } else if c == 'O' || c == 'o' || c == '0' {
        seq![0b01110, 0b10001, 0b10001, 0b10001, 0b10001, 0b10001, 0b01110, 0b00000]
    } else if c == 'P' || c == 'p' {
        seq![0b11100, 0b10010, 0b10010, 0b11100, 0b10000, 0b10000, 0b10000, 0b00000]
    } else if c == 'Q' || c == 'q' {
        seq![0b01110, 0b10001, 0b10001, 0b10001, 0b10101, 0b10010, 0b01101, 0b00000]
    } else if c == 'R' || c == 'r' {
        seq![0b11100, 0b10010, 0b10010, 0b11100, 0b10100, 0b10010, 0b10010, 0b00000]
    } else if c == 'S' || c == 's' || c == '5' {
        seq![0b01110, 0b10000, 0b10000, 0b01100, 0b00010, 0b00010, 0b11100, 0b00000]
    } else if c == 'T' || c == 't' {
        seq![0b11111, 0b00100, 0b00100, 0b00100, 0b00100, 0b00100, 0b00100, 0b00000]
    } else if c == 'U' || c == 'u' {
        seq![0b10001, 0b10001, 0b10001, 0b10001, 0b10001, 0b10001, 0b01110, 0b00000]
    } else if c == 'V' || c == 'v' {
        seq![0b10001, 0b10001, 0b10001, 0b10001, 0b10001, 0b01010, 0b00100, 0b00000]
    } else if c == 'W' || c == 'w' {
        seq![0b10001, 0b10001, 0b10001, 0b10101, 0b10101, 0b10101, 0b01010, 0b00000]
    } else if c == 'X' || c == 'x' {
        seq![0b10001, 0b01010, 0b00100, 0b00100, 0b00100, 0b01010, 0b10001, 0b00000]
    } else if c == 'Y' || c == 'y' {
        seq![0b10001, 0b01010, 0b00100, 0b00100, 0b00100, 0b00100, 0b00100, 0b00000]
    } else if c == 'Z' || c == 'z' || c == '2' {
        seq![0b11111, 0b00010, 0b00100, 0b01000, 0b01000, 0b10000, 0b11111, 0b00000]
    } else if c == '1' {
        seq![0b00100, 0b01100, 0b00100, 0b00100, 0b00100, 0b00100, 0b01110, 0b00000]
    } else if c == '3' {
        seq![0b11100, 0b00010, 0b00010, 0b01100, 0b00010, 0b00010, 0b11100, 0b00000]
    } else if c == '4' {
        seq![0b00010, 0b00110, 0b01010, 0b10010, 0b11111, 0b00010, 0b00010, 0b00000]
    } else if c == '6' {
        seq![0b01110, 0b10000, 0b10000, 0b11100, 0b10010, 0b10010, 0b01100, 0b00000]
    } else if c == '7' {
        seq![0b11111, 0b00010, 0b00100, 0b00100, 0b01000, 0b01000, 0b01000, 0b00000]
    } else if c == '8' {
        seq![0b01110, 0b10010, 0b10010, 0b01100, 0b10010, 0b10010, 0b01110, 0b00000]
    } else if c == '9' {
        seq![0b01110, 0b10010, 0b10010, 0b01111, 0b00010, 0b00010, 0b01110, 0b00000]
    } else if c == '-' || c == '_' {
        seq![0b00000, 0b00000, 0b00000, 0b00000, 0b00000, 0b11110, 0b00000, 0b00000]
    } else if c == ':' {
        seq![0b00000, 0b00100, 0b00000, 0b00000, 0b00000, 0b00100, 0b00000, 0b00000]
    } else if c == '.' || c == ',' {
        seq![0b00000, 0b00000, 0b00000, 0b00000, 0b00000, 0b00000, 0b00100, 0b00000]
    } else {
        seq![0u8, 0, 0, 0, 0, 0, 0, 0]
    }
}

/// Whether column `gx` of row `gy` of the glyph of `c` is set.
pub open spec fn glyph_bit(c: char, gy: int, gx: int) -> bool {
    (glyph_rows(c)[gy] >> ((4 - gx) as u8)) & 1u8 == 1u8
}

/// The label font as the pixel grid of each glyph: 8 rows of 5 cells, 1 for
/// ink. Letters ignore case; characters without a glyph are blank.
pub open spec fn font_cells(c: char) -> Seq<Seq<u8>> {
    if c == 'A' || c == 'a' {
        seq![
            seq![0u8, 1, 1, 0, 0], seq![1u8, 0, 0, 1, 0], seq![1u8, 0, 0, 1, 0], seq![1u8, 1, 1, 1, 0],
            seq![1u8, 0, 0, 1, 0], seq![1u8, 0, 0, 1, 0], seq![1u8, 0, 0, 1, 0], seq![0u8, 0, 0, 0, 0],
        ]
    } else if c == 'B' || c == 'b' {
        seq![
            seq![1u8, 1, 1, 0, 0], seq![1u8, 0, 0, 1, 0], seq![1u8, 0, 0, 1, 0], seq![1u8, 1, 1, 0, 0],
            seq![1u8, 0, 0, 1, 0], seq![1u8, 0, 0, 1, 0], seq![1u8, 1, 1, 0, 0], seq![0u8, 0, 0, 0, 0],
        ]
    } else if c == 'C' || c == 'c' {
        seq![
            seq![0u8, 1, 1, 1, 0], seq![1u8, 0, 0, 0, 0], seq![1u8, 0, 0, 0, 0], seq![1u8, 0, 0, 0, 0],
            seq![1u8, 0, 0, 0, 0], seq![1u8, 0, 0, 0, 0], seq![0u8, 1, 1, 1, 0], seq![0u8, 0, 0, 0, 0],
        ]
    } else if c == 'D' || c == 'd' {
        seq![
            seq![1u8, 1, 1, 0, 0], seq![1u8, 0, 0, 1, 0], seq![1u8, 0, 0, 1, 0], seq![1u8, 0, 0, 1, 0],
            seq![1u8, 0, 0, 1, 0], seq![1u8, 0, 0, 1, 0], seq![1u8, 1, 1, 0, 0], seq![0u8, 0, 0, 0, 0],
        ]
    } else if c == 'E' || c == 'e' {
        seq![
            seq![1u8, 1, 1, 1, 0], seq![1u8, 0, 0, 0, 0], seq![1u8, 0, 0, 0, 0], seq![1u8, 1, 1, 0, 0],
            seq![1u8, 0, 0, 0, 0], seq![1u8, 0, 0, 0, 0], seq![1u8, 1, 1, 1, 0], seq![0u8, 0, 0, 0, 0],
        ]
    } else if c == 'F' || c == 'f' {
        seq![
            seq![1u8, 1, 1, 1, 0], seq![1u8, 0, 0, 0, 0], seq![1u8, 0, 0, 0, 0], seq![1u8, 1, 1, 0, 0],
            seq![1u8, 0, 0, 0, 0], seq![1u8, 0, 0, 0, 0], seq![1u8, 0, 0, 0, 0], seq![0u8, 0, 0, 0, 0],
        ]
    } else if c == 'G' || c == 'g' {
        seq![
            seq![0u8, 1, 1, 1, 0], seq![1u8, 0, 0, 0, 0], seq![1u8, 0, 0, 0, 0], seq![1u8, 0, 1, 1, 0],
            seq![1u8, 0, 0, 1, 0], seq![1u8, 0, 0, 1, 0], seq![0u8, 1, 1, 1, 0], seq![0u8, 0, 0, 0, 0],
        ]
    } else if c == 'H' || c == 'h' {
        seq![
            seq![1u8, 0, 0, 1, 0], seq![1u8, 0, 0, 1, 0], seq![1u8, 0, 0, 1, 0], seq![1u8, 1, 1, 1, 0],
            seq![1u8, 0, 0, 1, 0], seq![1u8, 0, 0, 1, 0], seq![1u8, 0, 0, 1, 0], seq![0u8, 0, 0, 0, 0],
        ]
    } else if c == 'I' || c == 'i' {
        seq![
            seq![0u8, 1, 1, 1, 0], seq![0u8, 0, 1, 0, 0], seq![0u8, 0, 1, 0, 0], seq![0u8, 0, 1, 0, 0],
            seq![0u8, 0, 1, 0, 0], seq![0u8, 0, 1, 0, 0], seq![0u8, 1, 1, 1, 0], seq![0u8, 0, 0, 0, 0],
        ]
    } else if c == 'J' || c == 'j' {
        seq![
            seq![0u8, 0, 1, 1, 1], seq![0u8, 0, 0, 1, 0], seq![0u8, 0, 0, 1, 0], seq![0u8, 0, 0, 1, 0],
            seq![0u8, 0, 0, 1, 0], seq![1u8, 0, 0, 1, 0], seq![0u8, 1, 1, 0, 0], seq![0u8, 0, 0, 0, 0],
        ]
    } else if c == 'K' || c == 'k' {
        seq![
            seq![1u8, 0, 0, 1, 0], seq![1u8, 0, 1, 0, 0], seq![1u8, 1, 0, 0, 0], seq![1u8, 0, 0, 0, 0],
            seq![1u8, 1, 0, 0, 0], seq![1u8, 0, 1, 0, 0], seq![1u8, 0, 0, 1, 0], seq![0u8, 0, 0, 0, 0],
        ]
    } else if c == 'L' || c == 'l' {
        seq![
            seq![1u8, 0, 0, 0, 0], seq![1u8, 0, 0, 0, 0], seq![1u8, 0, 0, 0, 0], seq![1u8, 0, 0, 0, 0],
            seq![1u8, 0, 0, 0, 0], seq![1u8, 0, 0, 0, 0], seq![1u8, 1, 1, 1, 0], seq![0u8, 0, 0, 0, 0],
        ]
    } else if c == 'M' || c == 'm' {
        seq![
            seq![1u8, 0, 0, 0, 1], seq![1u8, 1, 0, 1, 1], seq![1u8, 0, 1, 0, 1], seq![1u8, 0, 0, 0, 1],
            seq![1u8, 0, 0, 0, 1], seq![1u8, 0, 0, 0, 1], seq![1u8, 0, 0, 0, 1], seq![0u8, 0, 0, 0, 0],
        ]
    } else if c == 'N' || c == 'n' {
        seq![
            seq![1u8, 0, 0, 0, 1], seq![1u8, 1, 0, 0, 1], seq![1u8, 0, 1, 0, 1], seq![1u8, 0, 0, 1, 1],
            seq![1u8, 0, 0, 0, 1], seq![1u8, 0, 0, 0, 1], seq![1u8, 0, 0, 0, 1], seq![0u8, 0, 0, 0, 0],
        ]
    } else if c == 'O' || c == 'o' || c == '0' {
        seq![
            seq![0u8, 1, 1, 1, 0], seq![1u8, 0, 0, 0, 1], seq![1u8, 0, 0, 0, 1], seq![1u8, 0, 0, 0, 1],
            seq![1u8, 0, 0, 0, 1], seq![1u8, 0, 0, 0, 1], seq![0u8, 1, 1, 1, 0], seq![0u8, 0, 0, 0, 0],
        ]
    } else if c == 'P' || c == 'p' {
        seq![
            seq![1u8, 1, 1, 0, 0], seq![1u8, 0, 0, 1, 0], seq![1u8, 0, 0, 1, 0], seq![1u8, 1, 1, 0, 0],
            seq![1u8, 0, 0, 0, 0], seq![1u8, 0, 0, 0, 0], seq![1u8, 0, 0, 0, 0], seq![0u8, 0, 0, 0, 0],
        ]
    } else if c == 'Q' || c == 'q' {
        seq![
            seq![0u8, 1, 1, 1, 0], seq![1u8, 0, 0, 0, 1], seq![1u8, 0, 0, 0, 1], seq![1u8, 0, 0, 0, 1],
            seq![1u8, 0, 1, 0, 1], seq![1u8, 0, 0, 1, 0], seq![0u8, 1, 1, 0, 1], seq![0u8, 0, 0, 0, 0],
        ]
    } else if c == 'R' || c == 'r' {
        seq![
            seq![1u8, 1, 1, 0, 0], seq![1u8, 0, 0, 1, 0], seq![1u8, 0, 0, 1, 0], seq![1u8, 1, 1, 0, 0],
            seq![1u8, 0, 1, 0, 0], seq![1u8, 0, 0, 1, 0], seq![1u8, 0, 0, 1, 0], seq![0u8, 0, 0, 0, 0],
        ]
    } else if c == 'S' || c == 's' || c == '5' {
        seq![
            seq![0u8, 1, 1, 1, 0], seq![1u8, 0, 0, 0, 0], seq![1u8, 0, 0, 0, 0], seq![0u8, 1, 1, 0, 0],
            seq![0u8, 0, 0, 1, 0], seq![0u8, 0, 0, 1, 0], seq![1u8, 1, 1, 0, 0], seq![0u8, 0, 0, 0, 0],
        ]
    } else if c == 'T' || c == 't' {
        seq![
            seq![1u8, 1, 1, 1, 1], seq![0u8, 0, 1, 0, 0], seq![0u8, 0, 1, 0, 0], seq![0u8, 0, 1, 0, 0],
            seq![0u8, 0, 1, 0, 0], seq![0u8, 0, 1, 0, 0], seq![0u8, 0, 1, 0, 0], seq![0u8, 0, 0, 0, 0],
        ]
    } else if c == 'U' || c == 'u' {
        seq![
            seq![1u8, 0, 0, 0, 1], seq![1u8, 0, 0, 0, 1], seq![1u8, 0, 0, 0, 1], seq![1u8, 0, 0, 0, 1],
            seq![1u8, 0, 0, 0, 1], seq![1u8, 0, 0, 0, 1], seq![0u8, 1, 1, 1, 0], seq![0u8, 0, 0, 0, 0],
        ]
    } else if c == 'V' || c == 'v' {
        seq![
            seq![1u8, 0, 0, 0, 1], seq![1u8, 0, 0, 0, 1], seq![1u8, 0, 0, 0, 1], seq![1u8, 0, 0, 0, 1],
            seq![1u8, 0, 0, 0, 1], seq![0u8, 1, 0, 1, 0], seq![0u8, 0, 1, 0, 0], seq![0u8, 0, 0, 0, 0],
        ]
    } else if c == 'W' || c == 'w' {
        seq![
            seq![1u8, 0, 0, 0, 1], seq![1u8, 0, 0, 0, 1], seq![1u8, 0, 0, 0, 1], seq![1u8, 0, 1, 0, 1],
            seq![1u8, 0, 1, 0, 1], seq![1u8, 0, 1, 0, 1], seq![0u8, 1, 0, 1, 0], seq![0u8, 0, 0, 0, 0],
        ]
    } else if c == 'X' || c == 'x' {
        seq![
            seq![1u8, 0, 0, 0, 1], seq![0u8, 1, 0, 1, 0], seq![0u8, 0, 1, 0, 0], seq![0u8, 0, 1, 0, 0],
            seq![0u8, 0, 1, 0, 0], seq![0u8, 1, 0, 1, 0], seq![1u8, 0, 0, 0, 1], seq![0u8, 0, 0, 0, 0],
        ]
    } else if c == 'Y' || c == 'y' {
        seq![
            seq![1u8, 0, 0, 0, 1], seq![0u8, 1, 0, 1, 0], seq![0u8, 0, 1, 0, 0], seq![0u8, 0, 1, 0, 0],
            seq![0u8, 0, 1, 0, 0], seq![0u8, 0, 1, 0, 0], seq![0u8, 0, 1, 0, 0], seq![0u8, 0, 0, 0, 0],
        ]
    } else if c == 'Z' || c == 'z' || c == '2' {
        seq![
            seq![1u8, 1, 1, 1, 1], seq![0u8, 0, 0, 1, 0], seq![0u8, 0, 1, 0, 0], seq![0u8, 1, 0, 0, 0],
            seq![0u8, 1, 0, 0, 0], seq![1u8, 0, 0, 0, 0], seq![1u8, 1, 1, 1, 1], seq![0u8, 0, 0, 0, 0],
        ]
    } else if c == '1' {
        seq![
            seq![0u8, 0, 1, 0, 0], seq![0u8, 1, 1, 0, 0], seq![0u8, 0, 1, 0, 0], seq![0u8, 0, 1, 0, 0],
            seq![0u8, 0, 1, 0, 0], seq![0u8, 0, 1, 0, 0], seq![0u8, 1, 1, 1, 0], seq![0u8, 0, 0, 0, 0],
        ]
    } else if c == '3' {
        seq![
            seq![1u8, 1, 1, 0, 0], seq![0u8, 0, 0, 1, 0], seq![0u8, 0, 0, 1, 0], seq![0u8, 1, 1, 0, 0],
            seq![0u8, 0, 0, 1, 0], seq![0u8, 0, 0, 1, 0], seq![1u8, 1, 1, 0, 0], seq![0u8, 0, 0, 0, 0],
        ]
    } else if c == '4' {
        seq![
            seq![0u8, 0, 0, 1, 0], seq![0u8, 0, 1, 1, 0], seq![0u8, 1, 0, 1, 0], seq![1u8, 0, 0, 1, 0],
            seq![1u8, 1, 1, 1, 1], seq![0u8, 0, 0, 1, 0], seq![0u8, 0, 0, 1, 0], seq![0u8, 0, 0, 0, 0],
        ]
    } else if c == '6' {
        seq![
            seq![0u8, 1, 1, 1, 0], seq![1u8, 0, 0, 0, 0], seq![1u8, 0, 0, 0, 0], seq![1u8, 1, 1, 0, 0],
            seq![1u8, 0, 0, 1, 0], seq![1u8, 0, 0, 1, 0], seq![0u8, 1, 1, 0, 0], seq![0u8, 0, 0, 0, 0],
        ]
    } else if c == '7' {
        seq![
            seq![1u8, 1, 1, 1, 1], seq![0u8, 0, 0, 1, 0], seq![0u8, 0, 1, 0, 0], seq![0u8, 0, 1, 0, 0],
            seq![0u8, 1, 0, 0, 0], seq![0u8, 1, 0, 0, 0], seq![0u8, 1, 0, 0, 0], seq![0u8, 0, 0, 0, 0],
        ]
    } else if c == '8' {
        seq![
            seq![0u8, 1, 1, 1, 0], seq![1u8, 0, 0, 1, 0], seq![1u8, 0, 0, 1, 0], seq![0u8, 1, 1, 0, 0],
            seq![1u8, 0, 0, 1, 0], seq![1u8, 0, 0, 1, 0], seq![0u8, 1, 1, 1, 0], seq![0u8, 0, 0, 0, 0],
        ]
    } else if c == '9' {
        seq![
            seq![0u8, 1, 1, 1, 0], seq![1u8, 0, 0, 1, 0], seq![1u8, 0, 0, 1, 0], seq![0u8, 1, 1, 1, 1],
            seq![0u8, 0, 0, 1, 0], seq![0u8, 0, 0, 1, 0], seq![0u8, 1, 1, 1, 0], seq![0u8, 0, 0, 0, 0],
        ]
    } else if c == '-' || c == '_' {
        seq![
            seq![0u8, 0, 0, 0, 0], seq![0u8, 0, 0, 0, 0], seq![0u8, 0, 0, 0, 0], seq![0u8, 0, 0, 0, 0],
            seq![0u8, 0, 0, 0, 0], seq![1u8, 1, 1, 1, 0], seq![0u8, 0, 0, 0, 0], seq![0u8, 0, 0, 0, 0],
        ]
    } else if c == ':' {
        seq![
            seq![0u8, 0, 0, 0, 0], seq![0u8, 0, 1, 0, 0], seq![0u8, 0, 0, 0, 0], seq![0u8, 0, 0, 0, 0],
            seq![0u8, 0, 0, 0, 0], seq![0u8, 0, 1, 0, 0], seq![0u8, 0, 0, 0, 0], seq![0u8, 0, 0, 0, 0],
        ]
    } else if c == '.' || c == ',' {
        seq![
            seq![0u8, 0, 0, 0, 0], seq![0u8, 0, 0, 0, 0], seq![0u8, 0, 0, 0, 0], seq![0u8, 0, 0, 0, 0],
            seq![0u8, 0, 0, 0, 0], seq![0u8, 0, 0, 0, 0], seq![0u8, 0, 1, 0, 0], seq![0u8, 0, 0, 0, 0],
        ]
    } else {
        Seq::new(8, |gy: int| seq![0u8, 0, 0, 0, 0])
    }
}


/// The number a row of five 0/1 cells stands for, leftmost cell highest.
pub open spec fn cells_value(r: Seq<u8>) -> int {
    16 * r[0] + 8 * r[1] + 4 * r[2] + 2 * r[3] + r[4]
}

#[verifier::rlimit(100)]
proof fn lemma_font_row(c: char, gy: int)
    requires
        0 <= gy < 8,
    ensures
        glyph_rows(c).len() == 8,
        font_cells(c).len() == 8,
        font_cells(c)[gy].len() == 5,
        forall|gx: int| 0 <= gx < 5 ==> #[trigger] font_cells(c)[gy][gx] <= 1,
        glyph_rows(c)[gy] as int == cells_value(font_cells(c)[gy]),
{
    if c == 'A' || c == 'a' {
        assert(glyph_rows(c)[gy] as int == cells_value(font_cells(c)[gy])) by {
            if gy == 0 {
            } else if gy == 1 {
            } else if gy == 2 {
            } else if gy == 3 {
            } else if gy == 4 {
            } else if gy == 5 {
            } else if gy == 6 {
            } else {
            }
        }
    } else if c == 'B' || c == 'b' {
        assert(glyph_rows(c)[gy] as int == cells_value(font_cells(c)[gy])) by {
            if gy == 0 {
            } else if gy == 1 {
            } else if gy == 2 {
            } else if gy == 3 {
            } else if gy == 4 {
            } else if gy == 5 {
            } else if gy == 6 {
            } else {
            }
        }
    } else if c == 'C' || c == 'c' {
        assert(glyph_rows(c)[gy] as int == cells_value(font_cells(c)[gy])) by {
            if gy == 0 {
            } else if gy == 1 {
            } else if gy == 2 {
            } else if gy == 3 {
            } else if gy == 4 {
            } else if gy == 5 {
            } else if gy == 6 {
            } else {
            }
        }
    } else if c == 'D' || c == 'd' {
        assert(glyph_rows(c)[gy] as int == cells_value(font_cells(c)[gy])) by {
            if gy == 0 {
            } else if gy == 1 {
            } else if gy == 2 {
            } else if gy == 3 {
            } else if gy == 4 {
            } else if gy == 5 {
            } else if gy == 6 {
            } else {
            }
        }
    } else if c == 'E' || c == 'e' {
        assert(glyph_rows(c)[gy] as int == cells_value(font_cells(c)[gy])) by {
            if gy == 0 {
            } else if gy == 1 {
            } else if gy == 2 {
            } else if gy == 3 {
            } else if gy == 4 {
            } else if gy == 5 {
            } else if gy == 6 {
            } else {
            }
        }
    } else if c == 'F' || c == 'f' {
        assert(glyph_rows(c)[gy] as int == cells_value(font_cells(c)[gy])) by {
            if gy == 0 {
            } else if gy == 1 {
            } else if gy == 2 {
            } else if gy == 3 {
            } else if gy == 4 {
            } else if gy == 5 {
            } else if gy == 6 {
            } else {
            }
        }
    } else if c == 'G' || c == 'g' {
        assert(glyph_rows(c)[gy] as int == cells_value(font_cells(c)[gy])) by {
            if gy == 0 {
            } else if gy == 1 {
            } else if gy == 2 {
            } else if gy == 3 {
            } else if gy == 4 {
            } else if gy == 5 {
            } else if gy == 6 {
            } else {
            }
        }
    } else if c == 'H' || c == 'h' {
        assert(glyph_rows(c)[gy] as int == cells_value(font_cells(c)[gy])) by {
            if gy == 0 {
            } else if gy == 1 {
            } else if gy == 2 {
            } else if gy == 3 {
            } else if gy == 4 {
            } else if gy == 5 {
            } else if gy == 6 {
            } else {
            }
        }
    } else if c == 'I' || c == 'i' {
        assert(glyph_rows(c)[gy] as int == cells_value(font_cells(c)[gy])) by {
            if gy == 0 {
            } else if gy == 1 {
            } else if gy == 2 {
            } else if gy == 3 {
            } else if gy == 4 {
            } else if gy == 5 {
            } else if gy == 6 {
            } else {
            }
        }
    } else if c == 'J' || c == 'j' {
        assert(glyph_rows(c)[gy] as int == cells_value(font_cells(c)[gy])) by {
            if gy == 0 {
            } else if gy == 1 {
            } else if gy == 2 {
            } else if gy == 3 {
            } else if gy == 4 {
            } else if gy == 5 {
            } else if gy == 6 {
            } else {
            }
        }
    } else if c == 'K' || c == 'k' {
        assert(glyph_rows(c)[gy] as int == cells_value(font_cells(c)[gy])) by {
            if gy == 0 {
            } else if gy == 1 {
            } else if gy == 2 {
            } else if gy == 3 {
            } else if gy == 4 {
            } else if gy == 5 {
            } else if gy == 6 {
            } else {
            }
        }
    } else if c == 'L' || c == 'l' {
        assert(glyph_rows(c)[gy] as int == cells_value(font_cells(c)[gy])) by {
            if gy == 0 {
            } else if gy == 1 {
            } else if gy == 2 {
            } else if gy == 3 {
            } else if gy == 4 {
            } else if gy == 5 {
            } else if gy == 6 {
            } else {
            }
        }
    } else if c == 'M' || c == 'm' {
        assert(glyph_rows(c)[gy] as int == cells_value(font_cells(c)[gy])) by {
            if gy == 0 {
            } else if gy == 1 {
            } else if gy == 2 {
            } else if gy == 3 {
            } else if gy == 4 {
            } else if gy == 5 {
            } else if gy == 6 {
            } else {
            }
        }
    } else if c == 'N' || c == 'n' {
        assert(glyph_rows(c)[gy] as int == cells_value(font_cells(c)[gy])) by {
            if gy == 0 {
            } else if gy == 1 {
            } else if gy == 2 {
            } else if gy == 3 {
            } else if gy == 4 {
            } else if gy == 5 {
            } else if gy == 6 {
            } else {
            }
        }
    } else if c == 'O' || c == 'o' || c == '0' {
        assert(glyph_rows(c)[gy] as int == cells_value(font_cells(c)[gy])) by {
            if gy == 0 {
            } else if gy == 1 {
            } else if gy == 2 {
            } else if gy == 3 {
            } else if gy == 4 {
            } else if gy == 5 {
            } else if gy == 6 {
            } else {
            }
        }
    } else if c == 'P' || c == 'p' {
        assert(glyph_rows(c)[gy] as int == cells_value(font_cells(c)[gy])) by {
            if gy == 0 {
            } else if gy == 1 {
            } else if gy == 2 {
            } else if gy == 3 {
            } else if gy == 4 {
            } else if gy == 5 {
            } else if gy == 6 {
            } else {
            }
        }
    } else if c == 'Q' || c == 'q' {
        assert(glyph_rows(c)[gy] as int == cells_value(font_cells(c)[gy])) by {
            if gy == 0 {
            } else if gy == 1 {
            } else if gy == 2 {
            } else if gy == 3 {
            } else if gy == 4 {
            } else if gy == 5 {
            } else if gy == 6 {
            } else {
            }
        }
    } else if c == 'R' || c == 'r' {
        assert(glyph_rows(c)[gy] as int == cells_value(font_cells(c)[gy])) by {
            if gy == 0 {
            } else if gy == 1 {
            } else if gy == 2 {
            } else if gy == 3 {
            } else if gy == 4 {
            } else if gy == 5 {
            } else if gy == 6 {
            } else {
            }
        }
    } else if c == 'S' || c == 's' || c == '5' {
        assert(glyph_rows(c)[gy] as int == cells_value(font_cells(c)[gy])) by {
            if gy == 0 {
            } else if gy == 1 {
            } else if gy == 2 {
            } else if gy == 3 {
            } else if gy == 4 {
            } else if gy == 5 {
            } else if gy == 6 {
            } else {
            }
        }
    } else if c == 'T' || c == 't' {
        assert(glyph_rows(c)[gy] as int == cells_value(font_cells(c)[gy])) by {
            if gy == 0 {
            } else if gy == 1 {
            } else if gy == 2 {
            } else if gy == 3 {
            } else if gy == 4 {
            } else if gy == 5 {
            } else if gy == 6 {
            } else {
            }
        }
    } else if c == 'U' || c == 'u' {
        assert(glyph_rows(c)[gy] as int == cells_value(font_cells(c)[gy])) by {
            if gy == 0 {
            } else if gy == 1 {
            } else if gy == 2 {
            } else if gy == 3 {
            } else if gy == 4 {
            } else if gy == 5 {
            } else if gy == 6 {
            } else {
            }
        }
    } else if c == 'V' || c == 'v' {
        assert(glyph_rows(c)[gy] as int == cells_value(font_cells(c)[gy])) by {
            if gy == 0 {
            } else if gy == 1 {
            } else if gy == 2 {
            } else if gy == 3 {
            } else if gy == 4 {
            } else if gy == 5 {
            } else if gy == 6 {
            } else {
            }
        }
    } else if c == 'W' || c == 'w' {
        assert(glyph_rows(c)[gy] as int == cells_value(font_cells(c)[gy])) by {
            if gy == 0 {
            } else if gy == 1 {
            } else if gy == 2 {
            } else if gy == 3 {
            } else if gy == 4 {
            } else if gy == 5 {
            } else if gy == 6 {
            } else {
            }
        }
    } else if c == 'X' || c == 'x' {
        assert(glyph_rows(c)[gy] as int == cells_value(font_cells(c)[gy])) by {
            if gy == 0 {
            } else if gy == 1 {
            } else if gy == 2 {
            } else if gy == 3 {
            } else if gy == 4 {
            } else if gy == 5 {
            } else if gy == 6 {
            } else {
            }
        }
    } else if c == 'Y' || c == 'y' {
        assert(glyph_rows(c)[gy] as int == cells_value(font_cells(c)[gy])) by {
            if gy == 0 {
            } else if gy == 1 {
            } else if gy == 2 {
            } else if gy == 3 {
            } else if gy == 4 {
            } else if gy == 5 {
            } else if gy == 6 {
            } else {
            }
        }
    } else if c == 'Z' || c == 'z' || c == '2' {
        assert(glyph_rows(c)[gy] as int == cells_value(font_cells(c)[gy])) by {
            if gy == 0 {
            } else if gy == 1 {
            } else if gy == 2 {
            } else if gy == 3 {
            } else if gy == 4 {
            } else if gy == 5 {
            } else if gy == 6 {
            } else {
            }
        }
    } else if c == '1' {
        assert(glyph_rows(c)[gy] as int == cells_value(font_cells(c)[gy])) by {
            if gy == 0 {
            } else if gy == 1 {
            } else if gy == 2 {
            } else if gy == 3 {
            } else if gy == 4 {
            } else if gy == 5 {
            } else if gy == 6 {
            } else {
            }
        }
    } else if c == '3' {
        assert(glyph_rows(c)[gy] as int == cells_value(font_cells(c)[gy])) by {
            if gy == 0 {
            } else if gy == 1 {
            } else if gy == 2 {
            } else if gy == 3 {
            } else if gy == 4 {
            } else if gy == 5 {
            } else if gy == 6 {
            } else {
            }
        }
    } else if c == '4' {
        assert(glyph_rows(c)[gy] as int == cells_value(font_cells(c)[gy])) by {
            if gy == 0 {
            } else if gy == 1 {
            } else if gy == 2 {
            } else if gy == 3 {
            } else if gy == 4 {
            } else if gy == 5 {
            } else if gy == 6 {
            } else {
            }
        }
    } else if c == '6' {
        assert(glyph_rows(c)[gy] as int == cells_value(font_cells(c)[gy])) by {
            if gy == 0 {
            } else if gy == 1 {
            } else if gy == 2 {
            } else if gy == 3 {
            } else if gy == 4 {
            } else if gy == 5 {
            } else if gy == 6 {
            } else {
            }
        }
    } else if c == '7' {
        assert(glyph_rows(c)[gy] as int == cells_value(font_cells(c)[gy])) by {
            if gy == 0 {
            } else if gy == 1 {
            } else if gy == 2 {
            } else if gy == 3 {
            } else if gy == 4 {
            } else if gy == 5 {
            } else if gy == 6 {
            } else {
            }
        }
    } else if c == '8' {
        assert(glyph_rows(c)[gy] as int == cells_value(font_cells(c)[gy])) by {
            if gy == 0 {
            } else if gy == 1 {
            } else if gy == 2 {
            } else if gy == 3 {
            } else if gy == 4 {
            } else if gy == 5 {
            } else if gy == 6 {
            } else {
            }
        }
    } else if c == '9' {
        assert(glyph_rows(c)[gy] as int == cells_value(font_cells(c)[gy])) by {
            if gy == 0 {
            } else if gy == 1 {
            } else if gy == 2 {
            } else if gy == 3 {
            } else if gy == 4 {
            } else if gy == 5 {
            } else if gy == 6 {
            } else {
            }
        }
    } else if c == '-' || c == '_' {
        assert(glyph_rows(c)[gy] as int == cells_value(font_cells(c)[gy])) by {
            if gy == 0 {
            } else if gy == 1 {
            } else if gy == 2 {
            } else if gy == 3 {
            } else if gy == 4 {
            } else if gy == 5 {
            } else if gy == 6 {
            } else {
            }
        }
    } else if c == ':' {
        assert(glyph_rows(c)[gy] as int == cells_value(font_cells(c)[gy])) by {
            if gy == 0 {
            } else if gy == 1 {
            } else if gy == 2 {
            } else if gy == 3 {
            } else if gy == 4 {
            } else if gy == 5 {
            } else if gy == 6 {
            } else {
            }
        }
    } else if c == '.' || c == ',' {
        assert(glyph_rows(c)[gy] as int == cells_value(font_cells(c)[gy])) by {
            if gy == 0 {
            } else if gy == 1 {
            } else if gy == 2 {
            } else if gy == 3 {
            } else if gy == 4 {
            } else if gy == 5 {
            } else if gy == 6 {
            } else {
            }
        }
    }
}

proof fn lemma_mask_bits(r: u8, a: u8, b: u8, c: u8, d: u8, e: u8)
    requires
        a <= 1 && b <= 1 && c <= 1 && d <= 1 && e <= 1,
        r as int == 16 * a + 8 * b + 4 * c + 2 * d + e,
    ensures
        ((r >> 4u8) & 1u8 == 1u8) == (a == 1u8),
        ((r >> 3u8) & 1u8 == 1u8) == (b == 1u8),
        ((r >> 2u8) & 1u8 == 1u8) == (c == 1u8),
        ((r >> 1u8) & 1u8 == 1u8) == (d == 1u8),
        ((r >> 0u8) & 1u8 == 1u8) == (e == 1u8),
{
    assert(r == 16u8 * a + 8u8 * b + 4u8 * c + 2u8 * d + e);
    assert(({
        &&& ((r >> 4u8) & 1u8 == 1u8) == (a == 1u8)
        &&& ((r >> 3u8) & 1u8 == 1u8) == (b == 1u8)
        &&& ((r >> 2u8) & 1u8 == 1u8) == (c == 1u8)
        &&& ((r >> 1u8) & 1u8 == 1u8) == (d == 1u8)
        &&& ((r >> 0u8) & 1u8 == 1u8) == (e == 1u8)
    })) by (bit_vector)
        requires
            a <= 1 && b <= 1 && c <= 1 && d <= 1 && e <= 1,
            r == 16u8 * a + 8u8 * b + 4u8 * c + 2u8 * d + e,
    ;
}

/// Each glyph of the label font is its pixel grid: bit `(gx, gy)` of the
/// glyph of `c` is set exactly where `font_cells(c)` has ink.
pub proof fn lemma_glyph_font(c: char, gy: int, gx: int)
    requires
        0 <= gy < 8,
        0 <= gx < 5,
    ensures
        glyph_bit(c, gy, gx) == (font_cells(c)[gy][gx] == 1u8),
{
    lemma_font_row(c, gy);
    let cells = font_cells(c)[gy];
    assert(cells[0] <= 1 && cells[1] <= 1 && cells[2] <= 1 && cells[3] <= 1 && cells[4] <= 1);
    lemma_mask_bits(glyph_rows(c)[gy], cells[0], cells[1], cells[2], cells[3], cells[4]);
    assert((4 - gx) as u8 == 4u8 - gx as u8);
}

/// The glyph of `c` as row masks.
fn char_to_glyph(c: char) -> (rows: [u8; 8])
    ensures
        rows@ == glyph_rows(c),
{
    match c {
        'A' | 'a' => [0b01100, 0b10010, 0b10010, 0b11110, 0b10010, 0b10010, 0b10010, 0b00000],
        'B' | 'b' => [0b11100, 0b10010, 0b10010, 0b11100, 0b10010, 0b10010, 0b11100, 0b00000],
        'C' | 'c' => [0b01110, 0b10000, 0b10000, 0b10000, 0b10000, 0b10000, 0b01110, 0b00000],
        'D' | 'd' => [0b11100, 0b10010, 0b10010, 0b10010, 0b10010, 0b10010, 0b11100, 0b00000],
        'E' | 'e' => [0b11110, 0b10000, 0b10000, 0b11100, 0b10000, 0b10000, 0b11110, 0b00000],
        'F' | 'f' => [0b11110, 0b10000, 0b10000, 0b11100, 0b10000, 0b10000, 0b10000, 0b00000],
        'G' | 'g' => [0b01110, 0b10000, 0b10000, 0b10110, 0b10010, 0b10010, 0b01110, 0b00000],
        'H' | 'h' => [0b10010, 0b10010, 0b10010, 0b11110, 0b10010, 0b10010, 0b10010, 0b00000],
        'I' | 'i' => [0b01110, 0b00100, 0b00100, 0b00100, 0b00100, 0b00100, 0b01110, 0b00000],
        'J' | 'j' => [0b00111, 0b00010, 0b00010, 0b00010, 0b00010, 0b10010, 0b01100, 0b00000],
        'K' | 'k' => [0b10010, 0b10100, 0b11000, 0b10000, 0b11000, 0b10100, 0b10010, 0b00000],
        'L' | 'l' => [0b10000, 0b10000, 0b10000, 0b10000, 0b10000, 0b10000, 0b11110, 0b00000],
        'M' | 'm' => [0b10001, 0b11011, 0b10101, 0b10001, 0b10001, 0b10001, 0b10001, 0b00000],
        'N' | 'n' => [0b10001, 0b11001, 0b10101, 0b10011, 0b10001, 0b10001, 0b10001, 0b00000],
        'O' | 'o' | '0' => [0b01110, 0b10001, 0b10001, 0b10001, 0b10001, 0b10001, 0b01110, 0b00000],
        'P' | 'p' => [0b11100, 0b10010, 0b10010, 0b11100, 0b10000, 0b10000, 0b10000, 0b00000],
        'Q' | 'q' => [0b01110, 0b10001, 0b10001, 0b10001, 0b10101, 0b10010, 0b01101, 0b00000],
        'R' | 'r' => [0b11100, 0b10010, 0b10010, 0b11100, 0b10100, 0b10010, 0b10010, 0b00000],
        'S' | 's' | '5' => [0b01110, 0b10000, 0b10000, 0b01100, 0b00010, 0b00010, 0b11100, 0b00000],
        'T' | 't' => [0b11111, 0b00100, 0b00100, 0b00100, 0b00100, 0b00100, 0b00100, 0b00000],
        'U' | 'u' => [0b10001, 0b10001, 0b10001, 0b10001, 0b10001, 0b10001, 0b01110, 0b00000],
        'V' | 'v' => [0b10001, 0b10001, 0b10001, 0b10001, 0b10001, 0b01010, 0b00100, 0b00000],
        'W' | 'w' => [0b10001, 0b10001, 0b10001, 0b10101, 0b10101, 0b10101, 0b01010, 0b00000],
        'X' | 'x' => [0b10001, 0b01010, 0b00100, 0b00100, 0b00100, 0b01010, 0b10001, 0b00000],
        'Y' | 'y' => [0b10001, 0b01010, 0b00100, 0b00100, 0b00100, 0b00100, 0b00100, 0b00000],
        'Z' | 'z' | '2' => [0b11111, 0b00010, 0b00100, 0b01000, 0b01000, 0b10000, 0b11111, 0b00000],
        '1' => [0b00100, 0b01100, 0b00100, 0b00100, 0b00100, 0b00100, 0b01110, 0b00000],
        '3' => [0b11100, 0b00010, 0b00010, 0b01100, 0b00010, 0b00010, 0b11100, 0b00000],
        '4' => [0b00010, 0b00110, 0b01010, 0b10010, 0b11111, 0b00010, 0b00010, 0b00000],
        '6' => [0b01110, 0b10000, 0b10000, 0b11100, 0b10010, 0b10010, 0b01100, 0b00000],
        '7' => [0b11111, 0b00010, 0b00100, 0b00100, 0b01000, 0b01000, 0b01000, 0b00000],
        '8' => [0b01110, 0b10010, 0b10010, 0b01100, 0b10010, 0b10010, 0b01110, 0b00000],
        '9' => [0b01110, 0b10010, 0b10010, 0b01111, 0b00010, 0b00010, 0b01110, 0b00000],
        '-' | '_' => [0b00000, 0b00000, 0b00000, 0b00000, 0b00000, 0b11110, 0b00000, 0b00000],
        ':' => [0b00000, 0b00100, 0b00000, 0b00000, 0b00000, 0b00100, 0b00000, 0b00000],
        '.' | ',' => [0b00000, 0b00000, 0b00000, 0b00000, 0b00000, 0b00000, 0b00100, 0b00000],
        _ => [0; 8],
    }
}

/// Column a label pixel lands in: `v`, clamped to the last column.
pub open spec fn clamp_col(v: int, w: int) -> int {
    if w == 0 { 0 } else { min_int(v, w - 1) }
}

/// Cell `(xx, yy)` of the label box, whose bottom edge sits just above row
/// `y` and whose left edge is column `x`, lands on pixel `(px, py)`.
pub open spec fn box_cell(x: int, y: int, w: int, tw: int, xx: int, yy: int, px: int, py: int) -> bool {
    &&& 0 <= xx < tw
    &&& 0 <= yy < 12
    &&& px == clamp_col(x + xx, w)
    &&& py == nonneg(y - 12 + yy)
}

/// Pixel `(px, py)` is covered by the label box.
pub open spec fn in_box(x: int, y: int, w: int, tw: int, px: int, py: int) -> bool {
    exists|xx: int, yy: int| #[trigger] box_cell(x, y, w, tw, xx, yy, px, py)
}

/// As `in_box`, for the cells before `(xx0, yy0)` in row-major order.
pub open spec fn box_upto(x: int, y: int, w: int, tw: int, yy0: int, xx0: int, px: int, py: int) -> bool {
    exists|xx: int, yy: int|
        #[trigger] box_cell(x, y, w, tw, xx, yy, px, py) && (yy < yy0 || (yy == yy0 && xx < xx0))
}

/// Set bit `(gx, gy)` of the glyph of character `ci` lands on pixel `(px, py)`:
/// glyphs are 5 columns wide with one blank column between them, and inset
/// by 2 pixels in the label box.
pub open spec fn glyph_cell(
    cs: Seq<char>,
    x: int,
    y: int,
    w: int,
    ci: int,
    gy: int,
    gx: int,
    px: int,
    py: int,
) -> bool {
    &&& 0 <= ci < cs.len()
    &&& 0 <= gy < 8
    &&& 0 <= gx < 5
    &&& glyph_bit(cs[ci], gy, gx)
    &&& px == clamp_col(x + 2 + ci * 6 + gx, w)
    &&& py == nonneg(y - 10 + gy)
}

/// Pixel `(px, py)` is covered by a set bit of the label's glyphs.
pub open spec fn in_glyphs(cs: Seq<char>, x: int, y: int, w: int, px: int, py: int) -> bool {
    exists|ci: int, gy: int, gx: int| #[trigger] glyph_cell(cs, x, y, w, ci, gy, gx, px, py)
}

/// As `in_glyphs`, for the bits before `(ci0, gy0, gx0)` in drawing order.
pub open spec fn glyph_upto(
    cs: Seq<char>,
    x: int,
    y: int,
    w: int,
    ci0: int,
    gy0: int,
    gx0: int,
    px: int,
    py: int,
) -> bool {
    exists|ci: int, gy: int, gx: int|
        #[trigger] glyph_cell(cs, x, y, w, ci, gy, gx, px, py) && (ci < ci0 || (ci == ci0 && (gy < gy0 || (gy
            == gy0 && gx < gx0))))
}

/// Label background: dark red on colour images, light gray on gray ones.
pub open spec fn label_bg(ch: int) -> Seq<u8> {
    if ch >= 3 { seq![0u8, 0, 200] } else { seq![200u8] }
}

/// Label text colour: white on colour images, black on gray ones.
pub open spec fn label_fg(ch: int) -> Seq<u8> {
    if ch >= 3 { seq![255u8, 255, 255] } else { seq![0u8] }
}

/// Byte `(px, py, c)` after drawing a label: text colour on set glyph bits,
/// else background colour in the box, else the old byte.
pub open spec fn label_value(old: Image, cs: Seq<char>, x: int, y: int, tw: int, px: int, py: int, c: int) -> u8 {
    let w = old.width as int;
    let fg = label_fg(old.channels as int);
    let bg = label_bg(old.channels as int);
    if in_glyphs(cs, x, y, w, px, py) && c < fg.len() {
        fg[c]
    } else if in_box(x, y, w, tw, px, py) && c < bg.len() {
        bg[c]
    } else {
        old.at(px, py, c)
    }
}

proof fn lemma_box_step(x: int, y: int, w: int, tw: int, yy0: int, xx0: int, px: int, py: int)
    ensures
        box_upto(x, y, w, tw, yy0, xx0 + 1, px, py) == (box_upto(x, y, w, tw, yy0, xx0, px, py) || box_cell(
            x,
            y,
            w,
            tw,
            xx0,
            yy0,
            px,
            py,
        )),
        box_upto(x, y, w, tw, yy0, tw, px, py) == box_upto(x, y, w, tw, yy0 + 1, 0, px, py),
        box_upto(x, y, w, tw, 12, 0, px, py) == in_box(x, y, w, tw, px, py),
        !box_upto(x, y, w, tw, 0, 0, px, py),
{
    if box_upto(x, y, w, tw, yy0, xx0 + 1, px, py) {
        let (a, b) = choose|a: int, b: int|
            #[trigger] box_cell(x, y, w, tw, a, b, px, py) && (b < yy0 || (b == yy0 && a < xx0 + 1));
        if !(b == yy0 && a == xx0) {
            assert(box_upto(x, y, w, tw, yy0, xx0, px, py));
        }
    }
    if box_cell(x, y, w, tw, xx0, yy0, px, py) {
        assert(box_upto(x, y, w, tw, yy0, xx0 + 1, px, py));
    }
    if box_upto(x, y, w, tw, yy0, xx0, px, py) {
        let (a, b) = choose|a: int, b: int|
            #[trigger] box_cell(x, y, w, tw, a, b, px, py) && (b < yy0 || (b == yy0 && a < xx0));
        assert(box_upto(x, y, w, tw, yy0, xx0 + 1, px, py));
    }
    if box_upto(x, y, w, tw, yy0, tw, px, py) {
        let (a, b) = choose|a: int, b: int|
            #[trigger] box_cell(x, y, w, tw, a, b, px, py) && (b < yy0 || (b == yy0 && a < tw));
        assert(box_upto(x, y, w, tw, yy0 + 1, 0, px, py));
    }
    if box_upto(x, y, w, tw, yy0 + 1, 0, px, py) {
        let (a, b) = choose|a: int, b: int|
            #[trigger] box_cell(x, y, w, tw, a, b, px, py) && (b < yy0 + 1 || (b == yy0 + 1 && a < 0));
        assert(box_upto(x, y, w, tw, yy0, tw, px, py));
    }
    if in_box(x, y, w, tw, px, py) {
        let (a, b) = choose|a: int, b: int| #[trigger] box_cell(x, y, w, tw, a, b, px, py);
        assert(box_upto(x, y, w, tw, 12, 0, px, py));
    }
}

proof fn lemma_glyph_step(cs: Seq<char>, x: int, y: int, w: int, ci0: int, gy0: int, gx0: int, px: int, py: int)
    ensures
        glyph_upto(cs, x, y, w, ci0, gy0, gx0 + 1, px, py) == (glyph_upto(cs, x, y, w, ci0, gy0, gx0, px, py)
            || glyph_cell(cs, x, y, w, ci0, gy0, gx0, px, py)),
        glyph_upto(cs, x, y, w, ci0, gy0, 5, px, py) == glyph_upto(cs, x, y, w, ci0, gy0 + 1, 0, px, py),
        glyph_upto(cs, x, y, w, ci0, 8, 0, px, py) == glyph_upto(cs, x, y, w, ci0 + 1, 0, 0, px, py),
        glyph_upto(cs, x, y, w, cs.len() as int, 0, 0, px, py) == in_glyphs(cs, x, y, w, px, py),
        !glyph_upto(cs, x, y, w, 0, 0, 0, px, py),
{
    if glyph_upto(cs, x, y, w, ci0, gy0, gx0 + 1, px, py) {
        let (a, b, d) = choose|a: int, b: int, d: int|
            #[trigger] glyph_cell(cs, x, y, w, a, b, d, px, py) && (a < ci0 || (a == ci0 && (b < gy0 || (b
                == gy0 && d < gx0 + 1))));
        if !(a == ci0 && b == gy0 && d == gx0) {
            assert(glyph_upto(cs, x, y, w, ci0, gy0, gx0, px, py));
        }
    }
    if glyph_cell(cs, x, y, w, ci0, gy0, gx0, px, py) {
        assert(glyph_upto(cs, x, y, w, ci0, gy0, gx0 + 1, px, py));
    }
    if glyph_upto(cs, x, y, w, ci0, gy0, gx0, px, py) {
        let (a, b, d) = choose|a: int, b: int, d: int|
            #[trigger] glyph_cell(cs, x, y, w, a, b, d, px, py) && (a < ci0 || (a == ci0 && (b < gy0 || (b
                == gy0 && d < gx0))));
        assert(glyph_upto(cs, x, y, w, ci0, gy0, gx0 + 1, px, py));
    }
    if glyph_upto(cs, x, y, w, ci0, gy0, 5, px, py) {
        let (a, b, d) = choose|a: int, b: int, d: int|
            #[trigger] glyph_cell(cs, x, y, w, a, b, d, px, py) && (a < ci0 || (a == ci0 && (b < gy0 || (b
                == gy0 && d < 5))));
        assert(glyph_upto(cs, x, y, w, ci0, gy0 + 1, 0, px, py));
    }
    if glyph_upto(cs, x, y, w, ci0, gy0 + 1, 0, px, py) {
        let (a, b, d) = choose|a: int, b: int, d: int|
            #[trigger] glyph_cell(cs, x, y, w, a, b, d, px, py) && (a < ci0 || (a == ci0 && (b < gy0 + 1 || (b
                == gy0 + 1 && d < 0))));
        assert(glyph_upto(cs, x, y, w, ci0, gy0, 5, px, py));
    }
    if glyph_upto(cs, x, y, w, ci0, 8, 0, px, py) {
        let (a, b, d) = choose|a: int, b: int, d: int|
            #[trigger] glyph_cell(cs, x, y, w, a, b, d, px, py) && (a < ci0 || (a == ci0 && (b < 8 || (b == 8
                && d < 0))));
        assert(glyph_upto(cs, x, y, w, ci0 + 1, 0, 0, px, py));
    }
    if glyph_upto(cs, x, y, w, ci0 + 1, 0, 0, px, py) {
        let (a, b, d) = choose|a: int, b: int, d: int|
            #[trigger] glyph_cell(cs, x, y, w, a, b, d, px, py) && (a < ci0 + 1 || (a == ci0 + 1 && (b < 0 || (b
                == 0 && d < 0))));
        assert(glyph_upto(cs, x, y, w, ci0, 8, 0, px, py));
    }
    if in_glyphs(cs, x, y, w, px, py) {
        let (a, b, d) = choose|a: int, b: int, d: int| #[trigger] glyph_cell(cs, x, y, w, a, b, d, px, py);
        assert(glyph_upto(cs, x, y, w, cs.len() as int, 0, 0, px, py));
    }
}


proof fn lemma_glyph_at(cs: Seq<char>, x: int, y: int, w: int, ci: int, gy: int, gx: int)
    requires
        0 <= x,
        10 <= y,
        x + 6 * cs.len() < w,
        0 <= ci < cs.len(),
        0 <= gy < 8,
        0 <= gx < 5,
    ensures
        in_glyphs(cs, x, y, w, x + 2 + 6 * ci + gx, y - 10 + gy) == glyph_bit(cs[ci], gy, gx),
{
    let px = x + 2 + 6 * ci + gx;
    let py = y - 10 + gy;
    assert(6 * ci <= 6 * (cs.len() - 1)) by (nonlinear_arith)
        requires
            ci <= cs.len() - 1,
    ;
    assert(clamp_col(px, w) == px);
    assert(nonneg(py) == py);
    if glyph_bit(cs[ci], gy, gx) {
        assert(glyph_cell(cs, x, y, w, ci, gy, gx, px, py));
    }
    if in_glyphs(cs, x, y, w, px, py) {
        let (a, b, d) = choose|a: int, b: int, d: int| #[trigger] glyph_cell(cs, x, y, w, a, b, d, px, py);
        assert(6 * a <= 6 * (cs.len() - 1)) by (nonlinear_arith)
            requires
                a <= cs.len() - 1,
        ;
        assert(clamp_col(x + 2 + a * 6 + d, w) == x + 2 + a * 6 + d);
        assert(a == ci && d == gx) by (nonlinear_arith)
            requires
                a * 6 + d == 6 * ci + gx,
                0 <= d < 5,
                0 <= gx < 5,
        ;
        assert(b == gy);
    }
}

/// Where a label fits (its glyph columns inside the image, its glyph rows
/// below the top), each character is drawn as its glyph in the label font:
/// cell `(gx, gy)` of character `ci` lands on pixel
/// `(x + 2 + 6 ci + gx, y - 10 + gy)`, which takes the text colour where the
/// glyph has ink and the background colour elsewhere.
pub proof fn lemma_label_glyph_pixels(old: Image, cs: Seq<char>, x: int, y: int, tw: int, ci: int, gy: int, gx: int, c: int)
    requires
        0 <= x,
        10 <= y,
        x + 6 * cs.len() < old.width,
        6 * cs.len() < tw,
        0 <= ci < cs.len(),
        0 <= gy < 8,
        0 <= gx < 5,
        0 <= c < label_fg(old.channels as int).len(),
    ensures
        label_value(old, cs, x, y, tw, x + 2 + 6 * ci + gx, y - 10 + gy, c) == if font_cells(cs[ci])[gy][gx] == 1u8 {
            label_fg(old.channels as int)[c]
        } else {
            label_bg(old.channels as int)[c]
        },
{
    let w = old.width as int;
    let px = x + 2 + 6 * ci + gx;
    let py = y - 10 + gy;
    lemma_glyph_font(cs[ci], gy, gx);
    lemma_glyph_at(cs, x, y, w, ci, gy, gx);
    assert(6 * ci + gx + 2 < tw) by (nonlinear_arith)
        requires
            ci <= cs.len() - 1,
            gx < 5,
            6 * cs.len() < tw,
    ;
    assert(clamp_col(px, w) == px);
    assert(box_cell(x, y, w, tw, 2 + 6 * ci + gx, gy + 2, px, py));
    assert(in_box(x, y, w, tw, px, py));
}

/// Writes `label` in the bitmap font on a filled box whose bottom-left corner
/// is at `(x, y)` (negative coordinates count as 0); pixels past the right
/// edge land on the last column, rows above the top on row 0.
pub fn draw_label(img: &mut Image, x: i32, y: i32, label: &str)
    requires
        old(img).wf(),
        old(img).width * old(img).height <= usize::MAX,
        old(img).width > 0 || old(img).height == 0 || old(img).channels == 0,
        label.len() * 6 + 4 + i32::MAX <= usize::MAX,
        label@.len() * 6 + 4 + i32::MAX <= usize::MAX,
    ensures
        final(img).width == old(img).width,
        final(img).height == old(img).height,
        final(img).channels == old(img).channels,
        final(img).wf(),
        forall|px: int, py: int, c: int|
            0 <= px < old(img).width && 0 <= py < old(img).height && 0 <= c < old(img).channels ==> #[trigger] final(img).at(px, py, c)
                == label_value(
                *old(img),
                label@,
                nonneg(x as int),
                nonneg(y as int),
                label.len() * 6 + 4,
                px,
                py,
                c,
            ),
{
    let xs: usize = if x < 0 { 0 } else { x as usize };
    let ys: usize = if y < 0 { 0 } else { y as usize };
    let ch = img.channels;
    let bg: Vec<u8> = if ch >= 3 { vec![0u8, 0u8, 200u8] } else { vec![200u8] };
    let fg: Vec<u8> = if ch >= 3 { vec![255u8, 255u8, 255u8] } else { vec![0u8] };
    let font_w: usize = 5;
    let font_h: usize = 8;
    let pad: usize = 2;
    let text_w = label.len() * (font_w + 1) + pad * 2;
    let text_h = font_h + pad * 2;
    let wl: usize = if img.width == 0 { 0 } else { img.width - 1 };
    let ghost w = img.width as int;
    let ghost h = img.height as int;
    let ghost xi = xs as int;
    let ghost yi = ys as int;
    let ghost twi = text_w as int;
    proof {
        assert(bg@ =~= label_bg(ch as int));
        assert(fg@ =~= label_fg(ch as int));
    }
    let mut yy: usize = 0;
    while yy < text_h
        invariant
            text_h == 12,
            yy <= text_h,
            twi == text_w,
            xi == xs,
            yi == ys,
            xs <= i32::MAX,
            ys <= i32::MAX,
            text_w + i32::MAX <= usize::MAX,
            wl == (if w == 0 { 0 } else { w - 1 }),
            img.wf(),
            img.width == old(img).width,
            img.height == old(img).height,
            img.channels == old(img).channels,
            img.width * img.height <= usize::MAX,
            w == img.width,
            h == img.height,
            bg@ == label_bg(img.channels as int),
            forall|px: int, py: int, c: int|
                0 <= px < w && 0 <= py < h && 0 <= c < img.channels ==> #[trigger] img.at(px, py, c) == if box_upto(
                    xi,
                    yi,
                    w,
                    twi,
                    yy as int,
                    0,
                    px,
                    py,
                ) && c < bg@.len() {
                    bg@[c]
                } else {
                    old(img).at(px, py, c)
                },
        decreases text_h - yy,
    {
        let mut xx: usize = 0;
        while xx < text_w
            invariant
                text_h == 12,
                yy < text_h,
                xx <= text_w,
                twi == text_w,
                xi == xs,
                yi == ys,
                xs <= i32::MAX,
                ys <= i32::MAX,
                text_w + i32::MAX <= usize::MAX,
                wl == (if w == 0 { 0 } else { w - 1 }),
                img.wf(),
                img.width == old(img).width,
                img.height == old(img).height,
                img.channels == old(img).channels,
                img.width * img.height <= usize::MAX,
                w == img.width,
                h == img.height,
                bg@ == label_bg(img.channels as int),
                forall|px: int, py: int, c: int|
                    0 <= px < w && 0 <= py < h && 0 <= c < img.channels ==> #[trigger] img.at(px, py, c) == if box_upto(
                        xi,
                        yi,
                        w,
                        twi,
                        yy as int,
                        xx as int,
                        px,
                        py,
                    ) && c < bg@.len() {
                        bg@[c]
                    } else {
                        old(img).at(px, py, c)
                    },
            decreases text_w - xx,
        {
            let px = if xs + xx < wl { xs + xx } else { wl };
            let py = if ys + yy >= text_h { ys + yy - text_h } else { 0 };
            let ghost before = *img;
            if py < img.height {
                set_pixel(img, px, py, bg.as_slice());
            }
            proof {
                assert forall|qx: int, qy: int, c: int|
                    0 <= qx < w && 0 <= qy < h && 0 <= c < img.channels implies #[trigger] img.at(qx, qy, c) == if box_upto(
                    xi,
                    yi,
                    w,
                    twi,
                    yy as int,
                    xx + 1,
                    qx,
                    qy,
                ) && c < bg@.len() {
                    bg@[c]
                } else {
                    old(img).at(qx, qy, c)
                } by {
                    lemma_box_step(xi, yi, w, twi, yy as int, xx as int, qx, qy);
                    assert(box_cell(xi, yi, w, twi, xx as int, yy as int, qx, qy) <==> (qx == px && qy == py));
                    assert(before.at(qx, qy, c) == if box_upto(xi, yi, w, twi, yy as int, xx as int, qx, qy) && c
                        < bg@.len() {
                        bg@[c]
                    } else {
                        old(img).at(qx, qy, c)
                    });
                }
            }
            xx = xx + 1;
        }
        proof {
            assert forall|qx: int, qy: int, c: int|
                0 <= qx < w && 0 <= qy < h && 0 <= c < img.channels implies #[trigger] img.at(qx, qy, c) == if box_upto(
                xi,
                yi,
                w,
                twi,
                yy + 1,
                0,
                qx,
                qy,
            ) && c < bg@.len() {
                bg@[c]
            } else {
                old(img).at(qx, qy, c)
            } by {
                lemma_box_step(xi, yi, w, twi, yy as int, 0, qx, qy);
            }
        }
        yy = yy + 1;
    }
    let ghost boxed = *img;
    proof {
        assert forall|qx: int, qy: int, c: int|
            0 <= qx < w && 0 <= qy < h && 0 <= c < img.channels implies #[trigger] boxed.at(qx, qy, c) == if in_box(
            xi,
            yi,
            w,
            twi,
            qx,
            qy,
        ) && c < bg@.len() {
            bg@[c]
        } else {
            old(img).at(qx, qy, c)
        } by {
            lemma_box_step(xi, yi, w, twi, 12, 0, qx, qy);
        }
    }
    let cs = crate::text::chars_of(label);
    let nc = cs.len();
    let mut ci: usize = 0;
    while ci < nc
        invariant
            nc == cs@.len(),
            cs@ == label@,
            nc * 6 + 4 + i32::MAX <= usize::MAX,
            ci <= nc,
            font_h == 8,
            font_w == 5,
            pad == 2,
            xi == xs,
            yi == ys,
            xs <= i32::MAX,
            ys <= i32::MAX,
            wl == (if w == 0 { 0 } else { w - 1 }),
            img.wf(),
            img.width == old(img).width,
            img.height == old(img).height,
            img.channels == old(img).channels,
            img.width * img.height <= usize::MAX,
            w == img.width,
            h == img.height,
            fg@ == label_fg(img.channels as int),
            forall|px: int, py: int, c: int|
                0 <= px < w && 0 <= py < h && 0 <= c < img.channels ==> #[trigger] img.at(px, py, c) == if glyph_upto(
                    label@,
                    xi,
                    yi,
                    w,
                    ci as int,
                    0,
                    0,
                    px,
                    py,
                ) && c < fg@.len() {
                    fg@[c]
                } else {
                    boxed.at(px, py, c)
                },
        decreases nc - ci,
    {
        let glyph = char_to_glyph(cs[ci]);
        let mut gy: usize = 0;
        while gy < font_h
            invariant
                font_h == 8,
                font_w == 5,
                pad == 2,
                gy <= font_h,
                glyph@ == glyph_rows(label@[ci as int]),
                nc == cs@.len(),
                cs@ == label@,
                nc * 6 + 4 + i32::MAX <= usize::MAX,
                ci < nc,
                xi == xs,
                yi == ys,
                xs <= i32::MAX,
                ys <= i32::MAX,
                wl == (if w == 0 { 0 } else { w - 1 }),
                img.wf(),
                img.width == old(img).width,
                img.height == old(img).height,
                img.channels == old(img).channels,
                img.width * img.height <= usize::MAX,
                w == img.width,
                h == img.height,
                fg@ == label_fg(img.channels as int),
                forall|px: int, py: int, c: int|
                    0 <= px < w && 0 <= py < h && 0 <= c < img.channels ==> #[trigger] img.at(px, py, c) == if glyph_upto(
                        label@,
                        xi,
                        yi,
                        w,
                        ci as int,
                        gy as int,
                        0,
                        px,
                        py,
                    ) && c < fg@.len() {
                        fg@[c]
                    } else {
                        boxed.at(px, py, c)
                    },
            decreases font_h - gy,
        {
            let mut gx: usize = 0;
            while gx < font_w
                invariant
                    font_w == 5,
                    pad == 2,
                    gx <= font_w,
                    gy < 8,
                    glyph@ == glyph_rows(label@[ci as int]),
                    nc == cs@.len(),
                    cs@ == label@,
                    nc * 6 + 4 + i32::MAX <= usize::MAX,
                    ci < nc,
                    xi == xs,
                    yi == ys,
                    xs <= i32::MAX,
                    ys <= i32::MAX,
                    wl == (if w == 0 { 0 } else { w - 1 }),
                    img.wf(),
                    img.width == old(img).width,
                    img.height == old(img).height,
                    img.channels == old(img).channels,
                    img.width * img.height <= usize::MAX,
                    w == img.width,
                    h == img.height,
                    fg@ == label_fg(img.channels as int),
                    forall|px: int, py: int, c: int|
                        0 <= px < w && 0 <= py < h && 0 <= c < img.channels ==> #[trigger] img.at(px, py, c) == if glyph_upto(
                            label@,
                            xi,
                            yi,
                            w,
                            ci as int,
                            gy as int,
                            gx as int,
                            px,
                            py,
                        ) && c < fg@.len() {
                            fg@[c]
                        } else {
                            boxed.at(px, py, c)
                        },
                decreases font_w - gx,
            {
                let ghost before = *img;
                let bit = (glyph[gy] >> ((4 - gx) as u8)) & 1 == 1;
                proof {
                    assert(ci * (font_w + 1) == ci * 6) by (nonlinear_arith)
                        requires
                            font_w == 5,
                    ;
                }
                let px = if xs + pad + ci * (font_w + 1) + gx < wl { xs + pad + ci * (font_w + 1) + gx } else { wl };
                let py = if ys + pad + gy >= 12 { ys + pad + gy - 12 } else { 0 };
                if bit {
                    if py < img.height {
                        set_pixel(img, px, py, fg.as_slice());
                    }
                }
                proof {
                    assert(bit == glyph_bit(label@[ci as int], gy as int, gx as int));
                    assert forall|qx: int, qy: int, c: int|
                        0 <= qx < w && 0 <= qy < h && 0 <= c < img.channels implies #[trigger] img.at(qx, qy, c)
                        == if glyph_upto(label@, xi, yi, w, ci as int, gy as int, gx + 1, qx, qy) && c < fg@.len() {
                        fg@[c]
                    } else {
                        boxed.at(qx, qy, c)
                    } by {
                        lemma_glyph_step(label@, xi, yi, w, ci as int, gy as int, gx as int, qx, qy);
                        assert(glyph_cell(label@, xi, yi, w, ci as int, gy as int, gx as int, qx, qy) <==> (bit
                            && qx == px && qy == py));
                        assert(before.at(qx, qy, c) == if glyph_upto(
                            label@,
                            xi,
                            yi,
                            w,
                            ci as int,
                            gy as int,
                            gx as int,
                            qx,
                            qy,
                        ) && c < fg@.len() {
                            fg@[c]
                        } else {
                            boxed.at(qx, qy, c)
                        });
                    }
                }
                gx = gx + 1;
            }
            proof {
                assert forall|qx: int, qy: int, c: int|
                    0 <= qx < w && 0 <= qy < h && 0 <= c < img.channels implies #[trigger] img.at(qx, qy, c) == if glyph_upto(
                    label@,
                    xi,
                    yi,
                    w,
                    ci as int,
                    gy + 1,
                    0,
                    qx,
                    qy,
                ) && c < fg@.len() {
                    fg@[c]
                } else {
                    boxed.at(qx, qy, c)
                } by {
                    lemma_glyph_step(label@, xi, yi, w, ci as int, gy as int, 0, qx, qy);
                }
            }
            gy = gy + 1;
        }
        proof {
            assert forall|qx: int, qy: int, c: int|
                0 <= qx < w && 0 <= qy < h && 0 <= c < img.channels implies #[trigger] img.at(qx, qy, c) == if glyph_upto(
                label@,
                xi,
                yi,
                w,
                ci + 1,
                0,
                0,
                qx,
                qy,
            ) && c < fg@.len() {
                fg@[c]
            } else {
                boxed.at(qx, qy, c)
            } by {
                lemma_glyph_step(label@, xi, yi, w, ci as int, 0, 0, qx, qy);
            }
        }
        ci = ci + 1;
    }
    proof {
        assert forall|qx: int, qy: int, c: int|
            0 <= qx < w && 0 <= qy < h && 0 <= c < img.channels implies #[trigger] img.at(qx, qy, c) == label_value(
            *old(img),
            label@,
            xi,
            yi,
            twi,
            qx,
            qy,
            c,
        ) by {
            lemma_glyph_step(label@, xi, yi, w, nc as int, 0, 0, qx, qy);
        }
    }
}


// ---------------------------------------------------------------------------
// Frame names and time stamps

/// Every character is an ASCII digit (vacuously so for the empty string).
pub open spec fn all_digits(s: Seq<char>) -> bool {
    forall|i: int| 0 <= i < s.len() ==> '0' <= #[trigger] s[i] <= '9'
}

/// `s` ends with `ms`.
pub open spec fn ends_ms(s: Seq<char>) -> bool {
    s.len() >= 2 && s[s.len() - 2] == 'm' && s[s.len() - 1] == 's'
}

/// `s` with every trailing `ms` removed.
pub open spec fn trim_ms(s: Seq<char>) -> Seq<char>
    decreases s.len(),
{
    if ends_ms(s) {
        trim_ms(s.subrange(0, s.len() - 2))
    } else {
        s
    }
}

/// `s` read as a `u64`, or 0 when it is not one.
pub open spec fn u64_or_zero(s: Seq<char>) -> u64 {
    match parse_uint(ascii_bytes(s), u64::MAX as int) {
        Ok(v) => v as u64,
        Err(_) => 0,
    }
}

/// Start of the `_`-separated part of `s` that ends at `to`.
pub open spec fn part_start(s: Seq<char>, to: int) -> int {
    match rfind_char(s, '_', to) {
        Some(i) => i + 1,
        None => 0,
    }
}

/// Milliseconds and frame number in a frame file stem: `<frame>_..._<ms>ms`
/// (as the frames this program saves are named), or `..._<frame>` with a
/// numeric last part (as extracted frames are named); 0 where absent.
pub open spec fn frame_stamp_spec(name: Seq<char>) -> (u64, u64) {
    let ls = part_start(name, name.len() as int);
    let last = name.subrange(ls, name.len() as int);
    if ends_ms(last) {
        let t = trim_ms(last);
        let ms = if all_digits(t) { u64_or_zero(t) } else { 0 };
        let fr = if ls > 0 {
            u64_or_zero(name.subrange(part_start(name, ls - 1), ls - 1))
        } else {
            0
        };
        (ms, fr)
    } else if all_digits(last) {
        (0, u64_or_zero(last))
    } else {
        (0, 0)
    }
}

proof fn lemma_rfind_char(s: Seq<char>, c: char, to: int)
    requires
        0 <= to <= s.len(),
    ensures
        rfind_char(s, c, to) matches Some(i) ==> 0 <= i < to && s[i] == c,
    decreases to,
{
    if to > 0 && s[to - 1] != c {
        lemma_rfind_char(s, c, to - 1);
    }
}

fn part_start_exec(cs: &Vec<char>, to: usize) -> (r: usize)
    requires
        to <= cs@.len(),
    ensures
        r == part_start(cs@, to as int),
        r <= to,
{
    let mut i = to;
    while i > 0 && cs[i - 1] != '_'
        invariant
            i <= to <= cs@.len(),
            rfind_char(cs@, '_', to as int) == rfind_char(cs@, '_', i as int),
        decreases i,
    {
        i = i - 1;
    }
    i
}

fn all_digits_exec(cs: &Vec<char>, a: usize, b: usize) -> (r: bool)
    requires
        a <= b <= cs@.len(),
    ensures
        r == all_digits(cs@.subrange(a as int, b as int)),
{
    let mut i = a;
    while i < b
        invariant
            a <= i <= b <= cs@.len(),
            forall|k: int| a <= k < i ==> '0' <= #[trigger] cs@[k] <= '9',
        decreases b - i,
    {
        if !('0' <= cs[i] && cs[i] <= '9') {
            proof {
                assert(cs@.subrange(a as int, b as int)[i - a] == cs@[i as int]);
            }
            return false;
        }
        i = i + 1;
    }
    proof {
        assert forall|k: int| 0 <= k < b - a implies '0' <= #[trigger] cs@.subrange(a as int, b as int)[k] <= '9' by {
            assert(cs@.subrange(a as int, b as int)[k] == cs@[a + k]);
        }
    }
    true
}

fn u64_or_zero_exec(s: &str) -> (r: u64)
    ensures
        r == u64_or_zero(s@),
{
    match parse_uint_str(s, u64::MAX) {
        Ok(v) => v,
        Err(_) => 0,
    }
}

/// Reads the milliseconds and frame number out of a frame file stem.
pub fn frame_stamp(name: &str) -> (r: (u64, u64))
    ensures
        r == frame_stamp_spec(name@),
{
    let cs = chars_of(name);
    let n = cs.len();
    let ls = part_start_exec(&cs, n);
    let last = name.substring_char(ls, n);
    let ln = n - ls;
    if ln >= 2 && cs[n - 2] == 'm' && cs[n - 1] == 's' {
        let mut e = n;
        while e - ls >= 2 && cs[e - 2] == 'm' && cs[e - 1] == 's'
            invariant
                n == cs@.len(),
                cs@ == name@,
                ls <= e <= n,
                last@ == name@.subrange(ls as int, n as int),
                trim_ms(last@) == trim_ms(name@.subrange(ls as int, e as int)),
            decreases e,
        {
            proof {
                let u = name@.subrange(ls as int, e as int);
                assert(ends_ms(u));
                assert(u.subrange(0, u.len() - 2) =~= name@.subrange(ls as int, e - 2));
            }
            e = e - 2;
        }
        proof {
            let u = name@.subrange(ls as int, e as int);
            assert(!ends_ms(u));
        }
        let ms = if all_digits_exec(&cs, ls, e) {
            u64_or_zero_exec(name.substring_char(ls, e))
        } else {
            0
        };
        let fr = if ls > 0 {
            let ps = part_start_exec(&cs, ls - 1);
            u64_or_zero_exec(name.substring_char(ps, ls - 1))
        } else {
            0
        };
        proof {
            assert(ends_ms(last@));
        }
        (ms, fr)
    } else {
        proof {
            assert(!ends_ms(last@));
        }
        if all_digits_exec(&cs, ls, n) {
            (0, u64_or_zero_exec(last))
        } else {
            (0, 0)
        }
    }
}

/// The text a frame time of `total_ms` milliseconds is written as in file
/// names: `HHh-MMm-SSs-mmmms`.
pub open spec fn hms_text(total_ms: nat) -> Seq<char> {
    zero_padded(total_ms / 3600000, 2) + seq!['h', '-'] + zero_padded((total_ms % 3600000) / 60000, 2) + seq![
        'm',
        '-',
    ] + zero_padded((total_ms % 60000) / 1000, 2) + seq!['s', '-'] + zero_padded(total_ms % 1000, 3) + seq![
        'm',
        's',
    ]
}

/// Formats a frame time given in whole milliseconds.
pub fn format_hms(total_ms: u64) -> (s: String)
    ensures
        s@ == hms_text(total_ms as nat),
{
    proof {
        reveal_strlit("h-");
        reveal_strlit("m-");
        reveal_strlit("s-");
        reveal_strlit("ms");
    }
    let mut s = String::new();
    push_padded(&mut s, total_ms / 3_600_000, 2);
    s.append("h-");
    push_padded(&mut s, (total_ms % 3_600_000) / 60_000, 2);
    s.append("m-");
    push_padded(&mut s, (total_ms % 60_000) / 1000, 2);
    s.append("s-");
    push_padded(&mut s, total_ms % 1000, 3);
    s.append("ms");
    proof {
        assert(s@ =~= hms_text(total_ms as nat));
    }
    s
}

/// The file stem of saved frame `index` taken at `total_ms`:
/// `<index, 4 digits>_<HHh-MMm-SSs-mmmms>`.
pub fn frame_stem(index: u64, total_ms: u64) -> (s: String)
    ensures
        s@ == zero_padded(index as nat, 4) + seq!['_'] + hms_text(total_ms as nat),
{
    let mut s = String::new();
    push_padded(&mut s, index, 4);
    let sep = "_";
    proof {
        reveal_strlit("_");
    }
    s.append(sep);
    let t = format_hms(total_ms);
    s.append(t.as_str());
    proof {
        assert(s@ =~= zero_padded(index as nat, 4) + seq!['_'] + hms_text(total_ms as nat));
    }
    s
}

proof fn lemma_dec_chars_digits(n: nat)
    ensures
        dec_chars(n).len() >= 1,
        forall|j: int| 0 <= j < dec_chars(n).len() ==> '0' <= #[trigger] dec_chars(n)[j] <= '9',
        ascii_bytes(dec_chars(n)) == dec_digits(n),
    decreases n,
{
    if n >= 10 {
        lemma_dec_chars_digits(n / 10);
        let d = dec_chars(n);
        assert forall|j: int| 0 <= j < d.len() implies '0' <= #[trigger] d[j] <= '9' by {
            if j < dec_chars(n / 10).len() {
                assert(d[j] == dec_chars(n / 10)[j]);
            } else {
                assert(d[j] == digit_char((n % 10) as int));
            }
        }
        assert(ascii_bytes(d) =~= dec_digits(n)) by {
            assert forall|j: int| 0 <= j < d.len() implies #[trigger] ascii_bytes(d)[j] == dec_digits(n)[j] by {
                if j < dec_chars(n / 10).len() {
                    assert(d[j] == dec_chars(n / 10)[j]);
                    assert(ascii_bytes(dec_chars(n / 10))[j] == dec_digits(n / 10)[j]);
                }
            }
        }
    } else {
        assert(ascii_bytes(dec_chars(n)) =~= dec_digits(n));
    }
}

proof fn lemma_zero_padded_digits(n: nat, w: nat)
    ensures
        zero_padded(n, w).len() >= 1,
        zero_padded(n, w).len() >= w,
        forall|j: int| 0 <= j < zero_padded(n, w).len() ==> '0' <= #[trigger] zero_padded(n, w)[j] <= '9',
        zero_padded(n, w).last() == dec_chars(n).last(),
{
    lemma_dec_chars_digits(n);
    let d = dec_chars(n);
    if d.len() < w {
        let z = Seq::new((w - d.len()) as nat, |i: int| '0');
        assert forall|j: int| 0 <= j < zero_padded(n, w).len() implies '0' <= #[trigger] zero_padded(n, w)[j] <= '9' by {
            if j < z.len() {
                assert(zero_padded(n, w)[j] == '0');
            } else {
                assert(zero_padded(n, w)[j] == d[j - z.len()]);
            }
        }
    }
}

/// A run of ASCII zeros reads as 0.
proof fn lemma_parse_zeros(z: Seq<u8>, max: int)
    requires
        forall|j: int| 0 <= j < z.len() ==> #[trigger] z[j] == 48u8,
        max >= 0,
    ensures
        parse_digits(z, max) == Ok::<int, IntErrorKind>(0),
    decreases z.len(),
{
    if z.len() > 0 {
        lemma_parse_zeros(z.drop_last(), max);
    }
}

/// Digits after a prefix that reads as 0 read as they do alone.
proof fn lemma_parse_after_zero(p: Seq<u8>, d: Seq<u8>, max: int)
    requires
        parse_digits(p, max) == Ok::<int, IntErrorKind>(0),
    ensures
        parse_digits(p + d, max) == parse_digits(d, max),
    decreases d.len(),
{
    if d.len() == 0 {
        assert(p + d =~= p);
    } else {
        lemma_parse_after_zero(p, d.drop_last(), max);
        assert((p + d).drop_last() =~= p + d.drop_last());
        assert((p + d).last() == d.last());
    }
}

/// A zero-padded number reads back as itself.
proof fn lemma_zero_padded_parse(n: nat, w: nat, max: int)
    requires
        n <= max,
    ensures
        parse_uint(ascii_bytes(zero_padded(n, w)), max) == Ok::<int, IntErrorKind>(n as int),
{
    lemma_dec_chars_digits(n);
    lemma_dec_digits_parse(n, max);
    let d = dec_chars(n);
    if d.len() < w {
        let z = Seq::new((w - d.len()) as nat, |i: int| '0');
        let zb = ascii_bytes(z);
        assert(ascii_bytes(z + d) =~= zb + dec_digits(n));
        assert forall|j: int| 0 <= j < zb.len() implies #[trigger] zb[j] == 48u8 by {
            assert(z[j] == '0');
        }
        lemma_parse_zeros(zb, max);
        lemma_parse_after_zero(zb, dec_digits(n), max);
        assert((zb + dec_digits(n))[0] == 48u8);
    }
}

proof fn lemma_rfind_last(s: Seq<char>, c: char, i: int, to: int)
    requires
        0 <= i < to <= s.len(),
        s[i] == c,
        forall|k: int| i < k < to ==> #[trigger] s[k] != c,
    ensures
        rfind_char(s, c, to) == Some(i),
    decreases to,
{
    if to - 1 > i {
        lemma_rfind_last(s, c, i, to - 1);
    }
}

proof fn lemma_rfind_none(s: Seq<char>, c: char, to: int)
    requires
        0 <= to <= s.len(),
        forall|k: int| 0 <= k < to ==> #[trigger] s[k] != c,
    ensures
        rfind_char(s, c, to) is None,
    decreases to,
{
    if to > 0 {
        lemma_rfind_none(s, c, to - 1);
    }
}

/// Reading back the name of a saved frame gives its index; the time part,
/// which is not all digits, reads as 0 milliseconds.
pub proof fn lemma_frame_stem_reads_index(index: u64, total_ms: u64)
    ensures
        frame_stamp_spec(zero_padded(index as nat, 4) + seq!['_'] + hms_text(total_ms as nat)) == (0u64, index),
{
    let ms = total_ms as nat;
    let zp = zero_padded(index as nat, 4);
    let h = hms_text(ms);
    let name = zp + seq!['_'] + h;
    let p = zp.len() as int;
    let a = zero_padded(ms / 3600000, 2);
    let b = zero_padded((ms % 3600000) / 60000, 2);
    let c = zero_padded((ms % 60000) / 1000, 2);
    let d = zero_padded(ms % 1000, 3);
    lemma_zero_padded_digits(index as nat, 4);
    lemma_zero_padded_digits(ms / 3600000, 2);
    lemma_zero_padded_digits((ms % 3600000) / 60000, 2);
    lemma_zero_padded_digits((ms % 60000) / 1000, 2);
    lemma_zero_padded_digits(ms % 1000, 3);
    assert(h =~= a + seq!['h', '-'] + b + seq!['m', '-'] + c + seq!['s', '-'] + d + seq!['m', 's']);
    assert forall|k: int| 0 <= k < h.len() implies #[trigger] h[k] != '_' by {
        let o1 = a.len() as int;
        let o2 = o1 + 2 + b.len();
        let o3 = o2 + 2 + c.len();
        let o4 = o3 + 2 + d.len();
        if k < o1 {
            assert(h[k] == a[k]);
        } else if k < o1 + 2 {
        } else if k < o2 {
            assert(h[k] == b[k - o1 - 2]);
        } else if k < o2 + 2 {
        } else if k < o3 {
            assert(h[k] == c[k - o2 - 2]);
        } else if k < o3 + 2 {
        } else if k < o4 {
            assert(h[k] == d[k - o3 - 2]);
        }
    }
    assert forall|k: int| p < k < name.len() implies #[trigger] name[k] != '_' by {
        assert(name[k] == h[k - p - 1]);
    }
    lemma_rfind_last(name, '_', p, name.len() as int);
    assert(part_start(name, name.len() as int) == p + 1);
    let last = name.subrange(p + 1, name.len() as int);
    assert(last =~= h);
    assert(ends_ms(last));
    let t = last.subrange(0, last.len() - 2);
    assert(t.last() == d.last());
    assert(!ends_ms(t));
    assert(trim_ms(t) == t);
    assert(trim_ms(last) == t);
    assert(t[a.len() as int] == 'h');
    assert(!all_digits(t));
    assert forall|k: int| 0 <= k < p implies #[trigger] name[k] != '_' by {
        assert(name[k] == zp[k]);
    }
    lemma_rfind_none(name, '_', p);
    assert(part_start(name, p) == 0);
    assert(name.subrange(0, p) =~= zp);
    lemma_zero_padded_parse(index as nat, 4, u64::MAX as int);
}

} // verus!
