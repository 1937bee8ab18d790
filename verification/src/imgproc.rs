//! Summed-area tables (integral images) with O(1) rectangle sums, the
//! cumulative histogram behind histogram equalization, and the grouping of
//! related items (overlapping detections) into connected components.

use vstd::prelude::*;
use crate::image::{Image, gray_of};
use crate::ppm::GrayImage;

verus! {

/// `f(x0, y) + ... + f(x1 - 1, y)`.
pub open spec fn row_sum(f: spec_fn(int, int) -> int, y: int, x0: int, x1: int) -> int
    decreases x1 - x0,
{
    if x1 <= x0 {
        0
    } else {
        row_sum(f, y, x0, x1 - 1) + f(x1 - 1, y)
    }
}

/// Sum of `f` over the cells `x0 <= x < x1`, `y0 <= y < y1`.
pub open spec fn grid_sum(f: spec_fn(int, int) -> int, x0: int, x1: int, y0: int, y1: int) -> int
    decreases y1 - y0,
{
    if y1 <= y0 {
        0
    } else {
        grid_sum(f, x0, x1, y0, y1 - 1) + row_sum(f, y1 - 1, x0, x1)
    }
}

/// Entry `(x, y)` of a table with `w + 1` columns.
pub open spec fn table_at(t: Seq<u64>, w: int, x: int, y: int) -> int {
    t[y * (w + 1) + x] as int
}

/// The cell value a table encodes: the inclusion-exclusion of its four corners.
pub open spec fn cell_of(t: Seq<u64>, w: int) -> spec_fn(int, int) -> int {
    |x: int, y: int|
        table_at(t, w, x + 1, y + 1) - table_at(t, w, x, y + 1) - table_at(t, w, x + 1, y)
            + table_at(t, w, x, y)
}

/// A summed-area table over a `w x h` grid: `(w + 1) * (h + 1)` entries, zero
/// first row and column, and no negative cell.
pub open spec fn is_sat(t: Seq<u64>, w: int, h: int) -> bool {
    &&& t.len() == (w + 1) * (h + 1)
    &&& forall|x: int| 0 <= x <= w ==> #[trigger] table_at(t, w, x, 0) == 0
    &&& forall|y: int| 0 <= y <= h ==> #[trigger] table_at(t, w, 0, y) == 0
    &&& forall|x: int, y: int| 0 <= x < w && 0 <= y < h ==> #[trigger] cell_of(t, w)(x, y) >= 0
}

/// Gray value (or its square) of pixel `(x, y)` in a row-major buffer of width `w`.
pub open spec fn pixel_term(p: Seq<u8>, w: int, sq: bool) -> spec_fn(int, int) -> int {
    |x: int, y: int|
        {
            let v = p[y * w + x] as int;
            if sq {
                v * v
            } else {
                v
            }
        }
}

/// Integral image of a gray image plus the integral image of its squares.
#[derive(Debug, Clone)]
pub struct IntegralImage {
    pub width: u32,
    pub height: u32,
    pub data: Vec<u64>,
    /// Table of squared values, same shape as `data`.
    pub sq_data: Vec<u64>,
}

impl IntegralImage {
    pub open spec fn wf(&self) -> bool {
        &&& is_sat(self.data@, self.width as int, self.height as int)
        &&& is_sat(self.sq_data@, self.width as int, self.height as int)
    }

    /// Gray value of pixel `(x, y)` that the table encodes.
    pub open spec fn pixel(&self) -> spec_fn(int, int) -> int {
        cell_of(self.data@, self.width as int)
    }

    /// Squared gray value of pixel `(x, y)` that the squares table encodes.
    pub open spec fn pixel_sq(&self) -> spec_fn(int, int) -> int {
        cell_of(self.sq_data@, self.width as int)
    }
}

/// Inclusion-exclusion over one row telescopes.
proof fn lemma_row_telescope(t: Seq<u64>, w: int, y: int, x0: int, x1: int)
    requires
        x0 <= x1,
    ensures
        row_sum(cell_of(t, w), y, x0, x1) == (table_at(t, w, x1, y + 1) - table_at(t, w, x0, y + 1))
            - (table_at(t, w, x1, y) - table_at(t, w, x0, y)),
    decreases x1 - x0,
{
    if x0 < x1 {
        lemma_row_telescope(t, w, y, x0, x1 - 1);
    }
}

/// The four-corner formula equals the sum of the cells of the rectangle.
pub proof fn lemma_grid_telescope(t: Seq<u64>, w: int, x0: int, x1: int, y0: int, y1: int)
    requires
        x0 <= x1,
        y0 <= y1,
    ensures
        grid_sum(cell_of(t, w), x0, x1, y0, y1) == table_at(t, w, x1, y1) - table_at(t, w, x0, y1)
            - table_at(t, w, x1, y0) + table_at(t, w, x0, y0),
    decreases y1 - y0,
{
    if y0 < y1 {
        lemma_grid_telescope(t, w, x0, x1, y0, y1 - 1);
        lemma_row_telescope(t, w, y1 - 1, x0, x1);
    }
}

proof fn lemma_row_sum_bounds(f: spec_fn(int, int) -> int, y: int, x0: int, x1: int, m: int)
    requires
        x0 <= x1,
        m >= 0,
        forall|x: int| x0 <= x < x1 ==> 0 <= #[trigger] f(x, y) <= m,
    ensures
        0 <= row_sum(f, y, x0, x1) <= m * (x1 - x0),
    decreases x1 - x0,
{
    if x0 < x1 {
        lemma_row_sum_bounds(f, y, x0, x1 - 1, m);
        assert(m * (x1 - 1 - x0) + m == m * (x1 - x0)) by (nonlinear_arith);
    }
}

/// A sum of values in `[0, m]` lies in `[0, m * area]`.
pub proof fn lemma_grid_sum_bounds(f: spec_fn(int, int) -> int, x0: int, x1: int, y0: int, y1: int, m: int)
    requires
        x0 <= x1,
        y0 <= y1,
        m >= 0,
        forall|x: int, y: int| x0 <= x < x1 && y0 <= y < y1 ==> 0 <= #[trigger] f(x, y) <= m,
    ensures
        0 <= grid_sum(f, x0, x1, y0, y1) <= m * (x1 - x0) * (y1 - y0),
    decreases y1 - y0,
{
    if y0 < y1 {
        lemma_grid_sum_bounds(f, x0, x1, y0, y1 - 1, m);
        lemma_row_sum_bounds(f, y1 - 1, x0, x1, m);
        assert(m * (x1 - x0) * (y1 - 1 - y0) + m * (x1 - x0) == m * (x1 - x0) * (y1 - y0))
            by (nonlinear_arith);
    }
}

proof fn lemma_row_sum_nonneg(f: spec_fn(int, int) -> int, y: int, x0: int, x1: int)
    requires
        forall|x: int| x0 <= x < x1 ==> 0 <= #[trigger] f(x, y),
    ensures
        0 <= row_sum(f, y, x0, x1),
    decreases x1 - x0,
{
    if x0 < x1 {
        lemma_row_sum_nonneg(f, y, x0, x1 - 1);
    }
}

proof fn lemma_grid_sum_nonneg(f: spec_fn(int, int) -> int, x0: int, x1: int, y0: int, y1: int)
    requires
        forall|x: int, y: int| x0 <= x < x1 && y0 <= y < y1 ==> 0 <= #[trigger] f(x, y),
    ensures
        0 <= grid_sum(f, x0, x1, y0, y1),
    decreases y1 - y0,
{
    if y0 < y1 {
        lemma_grid_sum_nonneg(f, x0, x1, y0, y1 - 1);
        lemma_row_sum_nonneg(f, y1 - 1, x0, x1);
    }
}

/// Two functions that agree on a rectangle have the same sum over it.
pub proof fn lemma_grid_sum_ext(
    f: spec_fn(int, int) -> int,
    g: spec_fn(int, int) -> int,
    x0: int,
    x1: int,
    y0: int,
    y1: int,
)
    requires
        forall|x: int, y: int| x0 <= x < x1 && y0 <= y < y1 ==> #[trigger] f(x, y) == g(x, y),
    ensures
        grid_sum(f, x0, x1, y0, y1) == grid_sum(g, x0, x1, y0, y1),
    decreases y1 - y0,
{
    if y0 < y1 {
        lemma_grid_sum_ext(f, g, x0, x1, y0, y1 - 1);
        lemma_row_sum_ext(f, g, y1 - 1, x0, x1);
    }
}

proof fn lemma_row_sum_ext(f: spec_fn(int, int) -> int, g: spec_fn(int, int) -> int, y: int, x0: int, x1: int)
    requires
        forall|x: int| x0 <= x < x1 ==> #[trigger] f(x, y) == g(x, y),
    ensures
        row_sum(f, y, x0, x1) == row_sum(g, y, x0, x1),
    decreases x1 - x0,
{
    if x0 < x1 {
        lemma_row_sum_ext(f, g, y, x0, x1 - 1);
    }
}

/// A rectangle with an empty side sums to zero.
proof fn lemma_grid_sum_empty(f: spec_fn(int, int) -> int, x0: int, x1: int, y0: int, y1: int)
    requires
        x1 <= x0 || y1 <= y0,
    ensures
        grid_sum(f, x0, x1, y0, y1) == 0,
    decreases y1 - y0,
{
    if y0 < y1 {
        lemma_grid_sum_empty(f, x0, x1, y0, y1 - 1);
    }
}

/// In a summed-area table, moving the right or bottom edge outward never
/// decreases an entry.
proof fn lemma_sat_differences(t: Seq<u64>, w: int, h: int, x0: int, x2: int, y0: int, y2: int)
    requires
        is_sat(t, w, h),
        0 <= x0 <= x2 <= w,
        0 <= y0 <= y2 <= h,
    ensures
        table_at(t, w, x2, y2) - table_at(t, w, x2, y0) >= 0,
        table_at(t, w, x0, y2) - table_at(t, w, x0, y0) >= 0,
        table_at(t, w, x2, y2) - table_at(t, w, x2, y0) - (table_at(t, w, x0, y2) - table_at(
            t,
            w,
            x0,
            y0,
        )) == grid_sum(cell_of(t, w), x0, x2, y0, y2),
        grid_sum(cell_of(t, w), x0, x2, y0, y2) >= 0,
{
    lemma_grid_telescope(t, w, 0, x2, y0, y2);
    lemma_grid_telescope(t, w, 0, x0, y0, y2);
    lemma_grid_telescope(t, w, x0, x2, y0, y2);
    assert forall|x: int, y: int| 0 <= x < x2 && y0 <= y < y2 implies 0 <= #[trigger] cell_of(t, w)(x, y) by {}
    lemma_grid_sum_nonneg(cell_of(t, w), 0, x2, y0, y2);
    lemma_grid_sum_nonneg(cell_of(t, w), 0, x0, y0, y2);
    lemma_grid_sum_nonneg(cell_of(t, w), x0, x2, y0, y2);
}

/// Row-major index `y * stride + x`.
fn data_at(data: &[u64], stride: usize, x: usize, y: usize) -> (v: u64)
    requires
        y * stride + x < data@.len(),
    ensures
        v == data@[y * stride + x],
{
    let n = data.len();
    proof {
        assert(0 <= y * stride) by (nonlinear_arith);
        assert(y * stride + x < n);
    }
    data[y * stride + x]
}

/// Clamped start of a window along one axis.
pub open spec fn clamp_start(p: int) -> int {
    if p < 0 { 0 } else { p }
}

/// Clamped end of a window along one axis.
pub open spec fn clamp_end(p: int, len: int, limit: int) -> int {
    if clamp_start(p) + len < limit { clamp_start(p) + len } else { limit }
}

impl IntegralImage {
    /// Sum over the four corners of a window of one table.
    fn corner_sum(t: &Vec<u64>, width: u32, height: u32, x: i32, y: i32, w: i32, h: i32) -> (r: u64)
        requires
            is_sat(t@, width as int, height as int),
        ensures
            r == (if w <= 0 || h <= 0 {
                0
            } else {
                grid_sum(
                    cell_of(t@, width as int),
                    clamp_start(x as int),
                    clamp_end(x as int, w as int, width as int),
                    clamp_start(y as int),
                    clamp_end(y as int, h as int, height as int),
                )
            }),
    {
        if w <= 0 || h <= 0 {
            return 0;
        }
        let tl = t.len();
        proof {
            assert((width + 1) * (height + 1) >= width + 1) by (nonlinear_arith);
        }
        let stride = (width as usize) + 1;
        let x0: usize = if x < 0 { 0 } else { x as usize };
        let y0: usize = if y < 0 { 0 } else { y as usize };
        let x2: usize = if x0 + (w as usize) < width as usize { x0 + w as usize } else { width as usize };
        let y2: usize = if y0 + (h as usize) < height as usize { y0 + h as usize } else { height as usize };
        if x2 <= x0 || y2 <= y0 {
            proof {
                lemma_grid_sum_empty(cell_of(t@, width as int), x0 as int, x2 as int, y0 as int, y2 as int);
            }
            return 0;
        }
        proof {
            lemma_sat_differences(t@, width as int, height as int, x0 as int, x2 as int, y0 as int, y2 as int);
            crate::ppm::lemma_index_in_grid(x2 as int, y2 as int, stride as int, height + 1);
            crate::ppm::lemma_index_in_grid(x0 as int, y0 as int, stride as int, height + 1);
            crate::ppm::lemma_index_in_grid(x2 as int, y0 as int, stride as int, height + 1);
            crate::ppm::lemma_index_in_grid(x0 as int, y2 as int, stride as int, height + 1);
            assert((height + 1) * stride == (width + 1) * (height + 1)) by (nonlinear_arith)
                requires
                    stride == width + 1,
            ;
        }
        let a = data_at(t.as_slice(), stride, x0, y0);
        let b = data_at(t.as_slice(), stride, x2, y0);
        let c = data_at(t.as_slice(), stride, x0, y2);
        let d = data_at(t.as_slice(), stride, x2, y2);
        (d - b) - (c - a)
    }

    /// Sum of the pixels of the window `(x, y, w, h)` clipped to the image;
    /// zero for an empty window.
    pub fn sum(&self, x: i32, y: i32, w: i32, h: i32) -> (r: u64)
        requires
            self.wf(),
        ensures
            r == (if w <= 0 || h <= 0 {
                0
            } else {
                grid_sum(
                    self.pixel(),
                    clamp_start(x as int),
                    clamp_end(x as int, w as int, self.width as int),
                    clamp_start(y as int),
                    clamp_end(y as int, h as int, self.height as int),
                )
            }),
    {
        Self::corner_sum(&self.data, self.width, self.height, x, y, w, h)
    }

    /// Sum of the squared pixels of the same window as [`IntegralImage::sum`].
    pub fn sum_sq(&self, x: i32, y: i32, w: i32, h: i32) -> (r: u64)
        requires
            self.wf(),
        ensures
            r == (if w <= 0 || h <= 0 {
                0
            } else {
                grid_sum(
                    self.pixel_sq(),
                    clamp_start(x as int),
                    clamp_end(x as int, w as int, self.width as int),
                    clamp_start(y as int),
                    clamp_end(y as int, h as int, self.height as int),
                )
            }),
    {
        Self::corner_sum(&self.sq_data, self.width, self.height, x, y, w, h)
    }
}

/// Table entry `(c, r)` while row `y + 1` is filled up to column `x`.
spec fn partial_entry(p: Seq<u8>, w: int, sq: bool, c: int, r: int, y: int, x: int) -> int {
    if r <= y || (r == y + 1 && c <= x) {
        grid_sum(pixel_term(p, w, sq), 0, c, 0, r)
    } else {
        0
    }
}

proof fn lemma_pixel_term_bound(p: Seq<u8>, w: int, sq: bool)
    ensures
        forall|x: int, y: int| 0 <= #[trigger] pixel_term(p, w, sq)(x, y) <= (if sq { 65025int } else { 255int }),
{
    assert forall|x: int, y: int| 0 <= #[trigger] pixel_term(p, w, sq)(x, y) <= (if sq { 65025int } else { 255int }) by {
        let v = p[y * w + x] as int;
        assert(0 <= v <= 255);
        if sq {
            assert(0 <= v * v <= 65025) by (nonlinear_arith)
                requires
                    0 <= v <= 255,
            ;
        }
    }
}

/// Summed-area table of the values (or their squares) of a `w x h` image.
fn build_table(pixels: &[u8], w: u32, h: u32, sq: bool) -> (t: Vec<u64>)
    requires
        pixels@.len() == w * h,
        (w + 1) * (h + 1) <= usize::MAX,
        65025 * w * h <= u64::MAX,
    ensures
        t@.len() == (w + 1) * (h + 1),
        forall|c: int, r: int|
            0 <= c <= w && 0 <= r <= h ==> #[trigger] table_at(t@, w as int, c, r) == grid_sum(
                pixel_term(pixels@, w as int, sq),
                0,
                c,
                0,
                r,
            ),
{
    let ghost f = pixel_term(pixels@, w as int, sq);
    let ghost m: int = if sq { 65025 } else { 255 };
    proof {
        lemma_pixel_term_bound(pixels@, w as int, sq);
        assert((w + 1) * (h + 1) >= w + 1) by (nonlinear_arith);
        assert((w + 1) * (h + 1) == (h + 1) * (w + 1)) by (nonlinear_arith);
        assert((w + 1) * (h + 1) >= h + 1) by (nonlinear_arith);
    }
    let plen = pixels.len();
    let width = w as usize;
    let height = h as usize;
    let stride = width + 1;
    let size = (height + 1) * stride;
    let mut t: Vec<u64> = vec![0u64; size];
    let mut y: usize = 0;
    proof {
        assert forall|c: int, r: int| 0 <= c <= w && 0 <= r <= h implies #[trigger] table_at(t@, w as int, c, r)
            == partial_entry(pixels@, w as int, sq, c, r, y as int - 1, w as int) by {
            crate::ppm::lemma_index_in_grid(c, r, stride as int, h + 1);
            assert(t@[r * (w + 1) + c] == 0u64);
        }
    }
    while y < height
        invariant
            width == w,
            height == h,
            stride == width + 1,
            size == (height + 1) * stride,
            pixels@.len() == w * h,
            plen == pixels@.len(),
            65025 * w * h <= u64::MAX,
            t@.len() == size,
            y <= height,
            f == pixel_term(pixels@, w as int, sq),
            m == (if sq { 65025int } else { 255int }),
            forall|x: int, yy: int| 0 <= #[trigger] f(x, yy) <= m,
            forall|c: int, r: int|
                0 <= c <= w && 0 <= r <= h ==> #[trigger] table_at(t@, w as int, c, r)
                    == partial_entry(pixels@, w as int, sq, c, r, y as int - 1, w as int),
        decreases height - y,
    {
        let mut acc: u64 = 0;
        let mut x: usize = 0;
        proof {
            assert forall|c: int, r: int| 0 <= c <= w && 0 <= r <= h implies #[trigger] table_at(t@, w as int, c, r)
                == partial_entry(pixels@, w as int, sq, c, r, y as int, 0) by {
                if r == y + 1 && c == 0 {
                    lemma_grid_sum_empty(f, 0, 0, 0, r);
                }
            }
        }
        while x < width
            invariant
                width == w,
                height == h,
                stride == width + 1,
                size == (height + 1) * stride,
                pixels@.len() == w * h,
                plen == pixels@.len(),
                65025 * w * h <= u64::MAX,
                t@.len() == size,
                y < height,
                x <= width,
                f == pixel_term(pixels@, w as int, sq),
                m == (if sq { 65025int } else { 255int }),
                forall|xx: int, yy: int| 0 <= #[trigger] f(xx, yy) <= m,
                acc == row_sum(f, y as int, 0, x as int),
                forall|c: int, r: int|
                    0 <= c <= w && 0 <= r <= h ==> #[trigger] table_at(t@, w as int, c, r)
                        == partial_entry(pixels@, w as int, sq, c, r, y as int, x as int),
            decreases width - x,
        {
            proof {
                crate::ppm::lemma_index_in_grid(x as int, y as int, w as int, h as int);
                crate::ppm::lemma_index_in_grid(x + 1, y as int, stride as int, h + 1);
                crate::ppm::lemma_index_in_grid(x + 1, y + 1, stride as int, h + 1);
                lemma_row_sum_bounds(f, y as int, 0, x + 1, m);
                lemma_grid_sum_bounds(f, 0, x + 1, 0, y + 1, m);
                assert(m * (x + 1) * (y + 1) <= 65025 * w * h) by (nonlinear_arith)
                    requires
                        0 <= m <= 65025,
                        x + 1 <= w,
                        y + 1 <= h,
                ;
                assert(table_at(t@, w as int, x + 1, y as int) == grid_sum(f, 0, x + 1, 0, y as int));
                assert(0 <= y * width) by (nonlinear_arith);
                assert(0 <= y * stride) by (nonlinear_arith);
                assert(0 <= (y + 1) * stride) by (nonlinear_arith);
            }
            let v = pixels[y * width + x] as u64;
            let term: u64 = if sq { v * v } else { v };
            proof {
                assert(term == f(x as int, y as int));
            }
            acc = acc + term;
            let above = t[y * stride + x + 1];
            let idx = (y + 1) * stride + x + 1;
            let ghost old_t = t@;
            proof {
                assert(grid_sum(f, 0, x + 1, 0, y + 1) == grid_sum(f, 0, x + 1, 0, y as int) + row_sum(f, y as int, 0, x + 1));
            }
            t.set(idx, above + acc);
            proof {
                assert forall|c: int, r: int| 0 <= c <= w && 0 <= r <= h implies #[trigger] table_at(t@, w as int, c, r)
                    == partial_entry(pixels@, w as int, sq, c, r, y as int, x + 1) by {
                    crate::ppm::lemma_index_in_grid(c, r, stride as int, h + 1);
                    if c != x + 1 || r != y + 1 {
                        crate::ppm::lemma_grid_distinct(c, r, x + 1, y + 1, stride as int);
                        assert(table_at(t@, w as int, c, r) == table_at(old_t, w as int, c, r));
                    }
                }
            }
            x = x + 1;
        }
        y = y + 1;
    }
    t
}

impl IntegralImage {
    /// Integral images of a `w x h` gray buffer and of its squares.
    pub fn from_gray_raw(pixels: &[u8], w: u32, h: u32) -> (r: Self)
        requires
            pixels@.len() == w * h,
            (w + 1) * (h + 1) <= usize::MAX,
            65025 * w * h <= u64::MAX,
        ensures
            r.width == w,
            r.height == h,
            r.wf(),
            forall|x: int, y: int|
                0 <= x < w && 0 <= y < h ==> #[trigger] r.pixel()(x, y) == pixels@[y * w + x] as int
                    && r.pixel_sq()(x, y) == pixels@[y * w + x] as int * pixels@[y * w + x] as int,
    {
        let data = build_table(pixels, w, h, false);
        let sq_data = build_table(pixels, w, h, true);
        let r = Self { width: w, height: h, data, sq_data };
        proof {
            lemma_table_cells(r.data@, pixels@, w as int, h as int, false);
            lemma_table_cells(r.sq_data@, pixels@, w as int, h as int, true);
        }
        r
    }

    /// Integral images of the gray version of `img`.
    pub fn from_image(img: &Image) -> (r: Self)
        requires
            img.wf(),
            img.channels == 1 || img.data@.len() >= 3 * (img.width * img.height),
            img.width <= u32::MAX,
            img.height <= u32::MAX,
            (img.width + 1) * (img.height + 1) <= usize::MAX,
            65025 * img.width * img.height <= u64::MAX,
        ensures
            r.width == img.width,
            r.height == img.height,
            r.wf(),
            forall|x: int, y: int|
                0 <= x < img.width && 0 <= y < img.height ==> #[trigger] r.pixel()(x, y)
                    == gray_of(*img)[y * img.width + x] as int,
    {
        proof {
            assert((img.width + 1) * (img.height + 1) >= img.width * img.height) by (nonlinear_arith);
            if img.channels == 1 {
                assert(img.width * img.height * 1 == img.width * img.height);
            }
        }
        let gray = img.to_grayscale();
        Self::from_gray_raw(gray.as_slice(), img.width as u32, img.height as u32)
    }

    pub fn from_gray(img: &GrayImage) -> (r: Self)
        requires
            img.wf(),
            (img.w + 1) * (img.h + 1) <= usize::MAX,
            65025 * img.w * img.h <= u64::MAX,
        ensures
            r.width == img.w,
            r.height == img.h,
            r.wf(),
            forall|x: int, y: int|
                0 <= x < img.w && 0 <= y < img.h ==> #[trigger] r.pixel()(x, y) == img.data@[y * img.w
                    + x] as int,
    {
        Self::from_gray_raw(img.data.as_slice(), img.w, img.h)
    }
}

/// A table whose entries are the prefix sums of an image encodes that image
/// and is a summed-area table.
proof fn lemma_table_cells(t: Seq<u64>, p: Seq<u8>, w: int, h: int, sq: bool)
    requires
        0 <= w,
        0 <= h,
        t.len() == (w + 1) * (h + 1),
        forall|c: int, r: int|
            0 <= c <= w && 0 <= r <= h ==> #[trigger] table_at(t, w, c, r) == grid_sum(
                pixel_term(p, w, sq),
                0,
                c,
                0,
                r,
            ),
    ensures
        is_sat(t, w, h),
        forall|x: int, y: int|
            0 <= x < w && 0 <= y < h ==> #[trigger] cell_of(t, w)(x, y) == pixel_term(p, w, sq)(x, y),
{
    let f = pixel_term(p, w, sq);
    lemma_pixel_term_bound(p, w, sq);
    assert forall|x: int| 0 <= x <= w implies #[trigger] table_at(t, w, x, 0) == 0 by {}
    assert forall|y: int| 0 <= y <= h implies #[trigger] table_at(t, w, 0, y) == 0 by {
        lemma_grid_sum_empty(f, 0, 0, 0, y);
    }
    assert forall|x: int, y: int| 0 <= x < w && 0 <= y < h implies #[trigger] cell_of(t, w)(x, y) == f(x, y) by {
        assert(table_at(t, w, x + 1, y + 1) == grid_sum(f, 0, x + 1, 0, y + 1));
        assert(table_at(t, w, x, y + 1) == grid_sum(f, 0, x, 0, y + 1));
        assert(table_at(t, w, x + 1, y) == grid_sum(f, 0, x + 1, 0, y));
        assert(table_at(t, w, x, y) == grid_sum(f, 0, x, 0, y));
    }
}

/// Number of entries of `s` equal to `v`.
pub open spec fn count_eq(s: Seq<u8>, v: int) -> nat
    decreases s.len(),
{
    if s.len() == 0 {
        0
    } else {
        count_eq(s.drop_last(), v) + if s.last() as int == v { 1nat } else { 0nat }
    }
}

/// Number of entries of `s` that are at most `v`.
pub open spec fn count_le(s: Seq<u8>, v: int) -> nat
    decreases v + 1,
{
    if v < 0 {
        0
    } else {
        count_le(s, v - 1) + count_eq(s, v)
    }
}

proof fn lemma_count_le_step(s: Seq<u8>, v: int)
    requires
        s.len() > 0,
    ensures
        count_le(s, v) == count_le(s.drop_last(), v) + if s.last() as int <= v { 1nat } else { 0nat },
    decreases v + 1,
{
    if v >= 0 {
        lemma_count_le_step(s, v - 1);
    }
}

/// Every entry is at most 255, so `count_le(s, 255)` counts all of `s`.
pub proof fn lemma_count_le_total(s: Seq<u8>, v: int)
    ensures
        count_le(s, v) <= s.len(),
        v >= 255 ==> count_le(s, v) == s.len(),
    decreases s.len(),
{
    if s.len() > 0 {
        lemma_count_le_step(s, v);
        lemma_count_le_total(s.drop_last(), v);
    } else {
        lemma_count_le_empty(s, v);
    }
}

proof fn lemma_count_le_empty(s: Seq<u8>, v: int)
    requires
        s.len() == 0,
    ensures
        count_le(s, v) == 0,
    decreases v + 1,
{
    if v >= 0 {
        lemma_count_le_empty(s, v - 1);
    }
}

/// Cumulative histogram of a gray buffer: entry `i` counts the pixels whose
/// value is at most `i`; the last entry is the number of pixels.
pub fn cumulative_histogram(gray: &[u8]) -> (cdf: Vec<u32>)
    requires
        gray@.len() <= u32::MAX,
    ensures
        cdf@.len() == 256,
        forall|i: int| 0 <= i < 256 ==> #[trigger] cdf@[i] as int == count_le(gray@, i),
        cdf@[255] as int == gray@.len(),
{
    let n = gray.len();
    let mut hist: Vec<u32> = vec![0u32; 256];
    let mut k: usize = 0;
    while k < n
        invariant
            n == gray@.len(),
            n <= u32::MAX,
            k <= n,
            hist@.len() == 256,
            forall|b: int| 0 <= b < 256 ==> #[trigger] hist@[b] as int == count_eq(gray@.subrange(0, k as int), b),
        decreases n - k,
    {
        let v = gray[k] as usize;
        proof {
            assert(gray@.subrange(0, k + 1).drop_last() =~= gray@.subrange(0, k as int));
            lemma_count_eq_bound(gray@.subrange(0, k as int), v as int);
        }
        let old_count = hist[v];
        hist.set(v, old_count + 1);
        k = k + 1;
    }
    proof {
        assert(gray@.subrange(0, n as int) =~= gray@);
    }
    let mut cdf: Vec<u32> = vec![0u32; 256];
    let mut acc: u32 = 0;
    let mut i: usize = 0;
    while i < 256
        invariant
            n == gray@.len(),
            n <= u32::MAX,
            i <= 256,
            hist@.len() == 256,
            cdf@.len() == 256,
            forall|b: int| 0 <= b < 256 ==> #[trigger] hist@[b] as int == count_eq(gray@, b),
            acc as int == count_le(gray@, i as int - 1),
            forall|b: int| 0 <= b < i ==> #[trigger] cdf@[b] as int == count_le(gray@, b),
        decreases 256 - i,
    {
        proof {
            lemma_count_le_total(gray@, i as int);
        }
        acc = acc + hist[i];
        cdf.set(i, acc);
        i = i + 1;
    }
    proof {
        lemma_count_le_total(gray@, 255);
    }
    cdf
}

proof fn lemma_count_eq_bound(s: Seq<u8>, v: int)
    ensures
        count_eq(s, v) <= s.len(),
    decreases s.len(),
{
    if s.len() > 0 {
        lemma_count_eq_bound(s.drop_last(), v);
    }
}


/// Maps a gray buffer through a 256-entry table into a fresh `w * h` buffer;
/// bytes past the end of `gray` stay 0. An empty buffer maps to an empty one.
pub fn apply_lut(gray: &[u8], w: usize, h: usize, lut: &[u8]) -> (out: Vec<u8>)
    requires
        lut@.len() == 256,
        gray@.len() <= w * h,
        w * h <= usize::MAX,
    ensures
        gray@.len() == 0 ==> out@.len() == 0,
        gray@.len() > 0 ==> out@ == Seq::new(
            (w * h) as nat,
            |i: int| if i < gray@.len() { lut@[gray@[i] as int] } else { 0u8 },
        ),
{
    if gray.len() == 0 {
        return Vec::new();
    }
    let n = w * h;
    let g = gray.len();
    let mut out: Vec<u8> = Vec::new();
    let mut i: usize = 0;
    while i < n
        invariant
            n == w * h,
            g == gray@.len(),
            g <= n,
            lut@.len() == 256,
            i <= n,
            out@ == Seq::new(i as nat, |k: int| if k < gray@.len() { lut@[gray@[k] as int] } else { 0u8 }),
        decreases n - i,
    {
        let v = if i < g { lut[gray[i] as usize] } else { 0u8 };
        out.push(v);
        i = i + 1;
        proof {
            assert(out@ =~= Seq::new(i as nat, |k: int| if k < gray@.len() { lut@[gray@[k] as int] } else { 0u8 }));
        }
    }
    out
}

// ---------------------------------------------------------------------------
// Grouping: connected components of a symmetric relation (overlapping
// detections, linked tracks)

/// `t` is an `n x n` matrix.
pub open spec fn square(t: Seq<Vec<bool>>) -> bool {
    forall|i: int| 0 <= i < t.len() ==> #[trigger] t[i]@.len() == t.len()
}

/// The relation `t` is symmetric.
pub open spec fn symmetric(t: Seq<Vec<bool>>) -> bool {
    forall|i: int, j: int| 0 <= i < t.len() && 0 <= j < t.len() ==> #[trigger] t[i]@[j] == #[trigger] t[j]@[i]
}

/// `u` and `v` are related (e.g. two detections overlap).
pub open spec fn edge(t: Seq<Vec<bool>>, u: int, v: int) -> bool {
    0 <= u < t.len() && 0 <= v < t.len() && t[u]@[v]
}

/// `p` is a walk along the relation.
pub open spec fn is_walk(t: Seq<Vec<bool>>, p: Seq<int>) -> bool {
    &&& p.len() >= 1
    &&& 0 <= p[0] < t.len()
    &&& forall|k: int| 0 <= k < p.len() - 1 ==> #[trigger] edge(t, p[k], p[k + 1])
}

/// `v` is reachable from `u` through a chain of related pairs.
pub open spec fn connected(t: Seq<Vec<bool>>, u: int, v: int) -> bool {
    exists|p: Seq<int>| #[trigger] is_walk(t, p) && p[0] == u && p.last() == v
}

proof fn lemma_walk_step(t: Seq<Vec<bool>>, u: int, w: int, v: int)
    requires
        connected(t, u, w),
        edge(t, w, v),
    ensures
        connected(t, u, v),
{
    let p = choose|p: Seq<int>| #[trigger] is_walk(t, p) && p[0] == u && p.last() == w;
    let q = p.push(v);
    assert forall|k: int| 0 <= k < q.len() - 1 implies #[trigger] edge(t, q[k], q[k + 1]) by {
        if k < p.len() - 1 {
            assert(q[k] == p[k] && q[k + 1] == p[k + 1]);
        } else {
            assert(q[k] == w && q[k + 1] == v);
        }
    }
    assert(is_walk(t, q));
}

proof fn lemma_connected_self(t: Seq<Vec<bool>>, u: int)
    requires
        0 <= u < t.len(),
    ensures
        connected(t, u, u),
{
    let p = seq![u];
    assert(is_walk(t, p));
}

/// A set of vertices (those labelled `c`) that no related pair leaves contains
/// everything reachable from its members.
proof fn lemma_closed_reach(t: Seq<Vec<bool>>, lab: Seq<usize>, c: usize, u: int, v: int)
    requires
        lab.len() == t.len(),
        forall|x: int, y: int|
        #![trigger edge(t, x, y)]
        edge(t, x, y) && lab[x] == c ==> lab[y] == c,
        0 <= u < t.len(),
        lab[u] == c,
        connected(t, u, v),
    ensures
        0 <= v < t.len(),
        lab[v] == c,
{
    let p = choose|p: Seq<int>| #[trigger] is_walk(t, p) && p[0] == u && p.last() == v;
    lemma_walk_labels(t, lab, c, p, p.len() - 1);
}

proof fn lemma_walk_labels(t: Seq<Vec<bool>>, lab: Seq<usize>, c: usize, p: Seq<int>, k: int)
    requires
        lab.len() == t.len(),
        forall|x: int, y: int|
        #![trigger edge(t, x, y)]
        edge(t, x, y) && lab[x] == c ==> lab[y] == c,
        is_walk(t, p),
        lab[p[0]] == c,
        0 <= k < p.len(),
    ensures
        0 <= p[k] < t.len(),
        lab[p[k]] == c,
    decreases k,
{
    if k > 0 {
        let j = k - 1;
        lemma_walk_labels(t, lab, c, p, j);
        assert(edge(t, p[j], p[j + 1]));
    }
}

/// Number of vertices among the first `k` still without a label.
pub open spec fn num_unlabelled(lab: Seq<usize>, k: int, none: usize) -> nat
    decreases k,
{
    if k <= 0 {
        0
    } else {
        num_unlabelled(lab, k - 1, none) + if lab[k - 1] == none { 1nat } else { 0nat }
    }
}

proof fn lemma_label_one(lab: Seq<usize>, k: int, none: usize, v: int, c: usize)
    requires
        0 <= v < lab.len(),
        lab[v] == none,
        c != none,
        0 <= k <= lab.len(),
    ensures
        num_unlabelled(lab.update(v, c), k, none) == if v < k { num_unlabelled(lab, k, none) - 1 } else {
            num_unlabelled(lab, k, none) as int
        },
        v < k ==> num_unlabelled(lab, k, none) >= 1,
    decreases k,
{
    if k > 0 {
        lemma_label_one(lab, k - 1, none, v, c);
    }
}

/// Labels everything reachable from `s` with `c`, given that labels below
/// `c` form closed sets and `s` has none.
fn flood(t: &[Vec<bool>], lab: &mut Vec<usize>, s: usize, c: usize, none: usize)
    requires
        square(t@),
        symmetric(t@),
        old(lab)@.len() == t@.len(),
        s < t@.len(),
        none == t@.len(),
        c < none,
        old(lab)@[s as int] == none,
        forall|v: int| 0 <= v < t@.len() ==> old(lab)@[v] < c || old(lab)@[v] == none,
        forall|x: int, y: int|
        #![trigger edge(t@, x, y)]
       
            edge(t@, x, y) && old(lab)@[x] != none ==> old(lab)@[y] == old(lab)@[x],
    ensures
        final(lab)@.len() == t@.len(),
        forall|v: int| 0 <= v < t@.len() && old(lab)@[v] != none ==> #[trigger] final(lab)@[v] == old(lab)@[v],
        forall|v: int|
            0 <= v < t@.len() && old(lab)@[v] == none ==> (#[trigger] final(lab)@[v] == c <==> connected(t@, s as int, v)),
        forall|v: int| 0 <= v < t@.len() && old(lab)@[v] == none ==> #[trigger] final(lab)@[v] == c || final(lab)@[v] == none,
        forall|x: int, y: int|
        #![trigger edge(t@, x, y)]
       
            edge(t@, x, y) && final(lab)@[x] != none ==> final(lab)@[y] == final(lab)@[x],
{
    let n = t.len();
    let ghost lab0 = lab@;
    lab.set(s, c);
    proof {
        lemma_connected_self(t@, s as int);
    }
    let mut stack: Vec<usize> = vec![s];
    while stack.len() > 0
        invariant
            n == t@.len(),
            square(t@),
            symmetric(t@),
            none == n,
            c < none,
            s < n,
            lab0.len() == n,
            lab@.len() == n,
            lab@[s as int] == c,
            stack@.no_duplicates(),
            forall|k: int| 0 <= k < stack@.len() ==> #[trigger] stack@[k] < n && lab@[stack@[k] as int] == c,
            forall|v: int| 0 <= v < n && lab0[v] != none ==> #[trigger] lab@[v] == lab0[v],
            forall|v: int| 0 <= v < n && lab0[v] == none ==> #[trigger] lab@[v] == c || lab@[v] == none,
            forall|v: int| 0 <= v < n && #[trigger] lab@[v] == c ==> lab0[v] == none && connected(t@, s as int, v),
            forall|v: int| 0 <= v < n ==> lab0[v] < c || lab0[v] == none,
            forall|x: int, y: int|
        #![trigger edge(t@, x, y)]
       
                edge(t@, x, y) && lab0[x] != none ==> lab0[y] == lab0[x],
            forall|x: int, y: int|
        #![trigger edge(t@, x, y)]
       
                edge(t@, x, y) && lab@[x] == c && !stack@.contains(x as usize) ==> lab@[y] == c,
        decreases num_unlabelled(lab@, n as int, none), stack@.len(),
    {
        let ghost st0 = stack@;
        let u = stack.pop().unwrap();
        let ghost st1 = stack@;
        let ghost unl0 = num_unlabelled(lab@, n as int, none);
        let ghost lab_u = lab@;
        proof {
            assert(st1 == st0.drop_last() && u == st0.last());
            assert(!st1.contains(u)) by {
                if st1.contains(u) {
                    let k = choose|k: int| 0 <= k < st1.len() && st1[k] == u;
                    assert(st0[k] == st0[st0.len() - 1]);
                }
            }
            assert forall|k1: int, k2: int| 0 <= k1 < k2 < st1.len() implies st1[k1] != st1[k2] by {
                assert(st1[k1] == st0[k1] && st1[k2] == st0[k2]);
            }
            assert forall|k: int| 0 <= k < st1.len() implies #[trigger] st1[k] < n && lab@[st1[k] as int] == c by {
                assert(st1[k] == st0[k]);
            }
            assert forall|x: int, y: int|
                #![trigger edge(t@, x, y)]
                edge(t@, x, y) && lab@[x] == c && x != u && !st1.contains(x as usize) implies lab@[y] == c by {
                assert(!st0.contains(x as usize)) by {
                    if st0.contains(x as usize) {
                        let k = choose|k: int| 0 <= k < st0.len() && st0[k] == x as usize;
                        if k < st1.len() {
                            assert(st1[k] == st0[k]);
                        }
                    }
                }
            }
        }
        let mut v: usize = 0;
        while v < n
            invariant
                n == t@.len(),
                square(t@),
                symmetric(t@),
                none == n,
                c < none,
                s < n,
                u < n,
                lab_u[u as int] == c,
                lab0.len() == n,
                lab@.len() == n,
                lab@[u as int] == c,
                lab@[s as int] == c,
                v <= n,
                stack@.no_duplicates(),
                !stack@.contains(u),
                forall|k: int| 0 <= k < stack@.len() ==> #[trigger] stack@[k] < n && lab@[stack@[k] as int] == c,
                forall|w: int| 0 <= w < n && lab0[w] != none ==> #[trigger] lab@[w] == lab0[w],
                forall|w: int| 0 <= w < n && lab0[w] == none ==> #[trigger] lab@[w] == c || lab@[w] == none,
                forall|w: int| 0 <= w < n && #[trigger] lab@[w] == c ==> lab0[w] == none && connected(t@, s as int, w),
                forall|w: int| 0 <= w < n ==> lab0[w] < c || lab0[w] == none,
                forall|x: int, y: int|
        #![trigger edge(t@, x, y)]
       
                    edge(t@, x, y) && lab0[x] != none ==> lab0[y] == lab0[x],
                forall|x: int, y: int|
        #![trigger edge(t@, x, y)]
       
                    edge(t@, x, y) && lab@[x] == c && x != u && !stack@.contains(x as usize) ==> lab@[y] == c,
                forall|w: int| 0 <= w < v && edge(t@, u as int, w) ==> #[trigger] lab@[w] == c,
                num_unlabelled(lab@, n as int, none) < unl0 || stack@.len() <= st1.len(),
                num_unlabelled(lab@, n as int, none) <= unl0,
            decreases n - v,
        {
            let row = &t[u];
            assert(row@.len() == n);
            if row[v] && lab[v] == none {
                proof {
                    lemma_walk_step(t@, s as int, u as int, v as int);
                    lemma_label_one(lab@, n as int, none, v as int, c);
                }
                let ghost before = stack@;
                lab.set(v, c);
                stack.push(v);
                proof {
                    assert forall|k1: int, k2: int| 0 <= k1 < k2 < stack@.len() implies stack@[k1] != stack@[k2] by {
                        if k2 == before.len() {
                            assert(stack@[k1] == before[k1]);
                        } else {
                            assert(stack@[k1] == before[k1] && stack@[k2] == before[k2]);
                        }
                    }
                    assert(!stack@.contains(u)) by {
                        if stack@.contains(u) {
                            let k = choose|k: int| 0 <= k < stack@.len() && stack@[k] == u;
                            if k < before.len() {
                                assert(before[k] == u);
                            }
                        }
                    }
                    assert forall|x: int, y: int|
        #![trigger edge(t@, x, y)]
       
                        edge(t@, x, y) && lab@[x] == c && x != u && !stack@.contains(x as usize) implies lab@[y] == c by {
                        if x != v {
                            assert(!before.contains(x as usize)) by {
                                if before.contains(x as usize) {
                                    let k = choose|k: int| 0 <= k < before.len() && before[k] == x as usize;
                                    assert(stack@[k] == before[k]);
                                }
                            }
                        } else {
                            assert(stack@[before.len() as int] == v);
                        }
                    }
                }
            } else if row[v] {
                proof {
                    if lab@[v as int] != c {
                        assert(lab@[v as int] != none);
                        assert(lab0[v as int] != none);
                        assert(edge(t@, v as int, u as int));
                        assert(t@[v as int]@[u as int] == t@[u as int]@[v as int]);
                        assert(lab0[u as int] == lab0[v as int]);
                        assert(false);
                    }
                }
            }
            v = v + 1;
        }
    }
    proof {
        assert forall|w: int|
            0 <= w < t@.len() && lab0[w] == none implies (#[trigger] lab@[w] == c <==> connected(t@, s as int, w)) by {
            if connected(t@, s as int, w) {
                assert forall|x: int, y: int|
        #![trigger edge(t@, x, y)]
        edge(t@, x, y) && lab@[x] == c implies lab@[y] == c by {
                    assert(!stack@.contains(x as usize));
                }
                lemma_closed_reach(t@, lab@, c, s as int, w);
            }
        }
        assert forall|x: int, y: int|
        #![trigger edge(t@, x, y)]
        edge(t@, x, y) && lab@[x] != none implies lab@[y] == lab@[x] by {
            if lab@[x] == c {
                assert(!stack@.contains(x as usize));
            } else {
                assert(lab0[x] != none);
                assert(lab0[y] == lab0[x]);
            }
        }
    }
}

/// Vertex `v` is in one of the groups.
pub open spec fn in_some_group(groups: Seq<Vec<usize>>, v: int) -> bool {
    exists|c: int| 0 <= c < groups.len() && #[trigger] groups[c]@.contains(v as usize)
}

/// The groups of the relation `t` (such as overlapping detections): its
/// connected components, each listed in increasing order, the groups
/// ordered by their smallest member.
pub fn overlap_groups(t: &[Vec<bool>]) -> (groups: Vec<Vec<usize>>)
    requires
        square(t@),
        symmetric(t@),
    ensures
        forall|c: int| 0 <= c < groups@.len() ==> #[trigger] groups@[c]@.len() >= 1,
        forall|c: int, k: int|
            0 <= c < groups@.len() && 0 <= k < groups@[c]@.len() ==> #[trigger] groups@[c]@[k] < t@.len(),
        forall|c: int, k1: int, k2: int|
            0 <= c < groups@.len() && 0 <= k1 < k2 < groups@[c]@.len() ==> #[trigger] groups@[c]@[k1]
                < #[trigger] groups@[c]@[k2],
        forall|c: int, v: int|
            0 <= c < groups@.len() && 0 <= v < t@.len() ==> (connected(t@, groups@[c]@[0] as int, v)
                <==> #[trigger] groups@[c]@.contains(v as usize)),
        forall|v: int| 0 <= v < t@.len() ==> #[trigger] in_some_group(groups@, v),
        forall|c1: int, c2: int|
            0 <= c1 < c2 < groups@.len() ==> #[trigger] groups@[c1]@[0] < #[trigger] groups@[c2]@[0],
{
    let n = t.len();
    let none = n;
    let mut lab: Vec<usize> = Vec::new();
    let mut i: usize = 0;
    while i < n
        invariant
            i <= n,
            lab@.len() == i,
            forall|v: int| 0 <= v < i ==> #[trigger] lab@[v] == none,
        decreases n - i,
    {
        lab.push(none);
        i = i + 1;
    }
    let mut starts: Vec<usize> = Vec::new();
    let mut s: usize = 0;
    while s < n
        invariant
            n == t@.len(),
            none == n,
            square(t@),
            symmetric(t@),
            s <= n,
            lab@.len() == n,
            starts@.len() <= s,
            forall|v: int| 0 <= v < s ==> #[trigger] lab@[v] != none,
            forall|v: int| 0 <= v < n ==> #[trigger] lab@[v] < starts@.len() || lab@[v] == none,
            forall|x: int, y: int|
                #![trigger edge(t@, x, y)]
                edge(t@, x, y) && lab@[x] != none ==> lab@[y] == lab@[x],
            forall|c: int| 0 <= c < starts@.len() ==> #[trigger] starts@[c] < s && lab@[starts@[c] as int] == c,
            forall|c1: int, c2: int| 0 <= c1 < c2 < starts@.len() ==> #[trigger] starts@[c1] < #[trigger] starts@[c2],
            forall|v: int|
                0 <= v < n && #[trigger] lab@[v] != none ==> connected(t@, starts@[lab@[v] as int] as int, v)
                    && starts@[lab@[v] as int] <= v,
        decreases n - s,
    {
        if lab[s] == none {
            let c = starts.len();
            let ghost lab0 = lab@;
            proof {
                lemma_connected_self(t@, s as int);
            }
            flood(t, &mut lab, s, c, none);
            assert(lab@[s as int] == c);
            let ghost st0 = starts@;
            starts.push(s);
            proof {
                assert forall|v: int| 0 <= v < n && #[trigger] lab@[v] != none implies connected(
                    t@,
                    starts@[lab@[v] as int] as int,
                    v,
                ) && starts@[lab@[v] as int] <= v by {
                    if lab0[v] == none {
                        assert(lab@[v] == c);
                        assert(starts@[c as int] == s);
                        if v < s {
                            assert(lab0[v] != none);
                        }
                    } else {
                        assert(lab@[v] == lab0[v]);
                        assert(starts@[lab@[v] as int] == st0[lab0[v] as int]);
                    }
                }
                assert forall|cc: int| 0 <= cc < starts@.len() implies #[trigger] starts@[cc] < s + 1 && lab@[starts@[cc] as int] == cc by {
                    if cc < st0.len() {
                        assert(starts@[cc] == st0[cc]);
                        assert(lab0[st0[cc] as int] == cc);
                    }
                }
                assert forall|c1: int, c2: int| 0 <= c1 < c2 < starts@.len() implies #[trigger] starts@[c1] < #[trigger] starts@[c2] by {
                    assert(starts@[c1] == st0[c1]);
                }
            }
        }
        s = s + 1;
    }
    let count = starts.len();
    let mut groups: Vec<Vec<usize>> = Vec::new();
    let mut c: usize = 0;
    while c < count
        invariant
            n == t@.len(),
            none == n,
            square(t@),
            symmetric(t@),
            lab@.len() == n,
            count == starts@.len(),
            c <= count,
            groups@.len() == c,
            forall|v: int| 0 <= v < n ==> #[trigger] lab@[v] < count,
            forall|cc: int| 0 <= cc < count ==> #[trigger] starts@[cc] < n && lab@[starts@[cc] as int] == cc,
            forall|v: int|
                0 <= v < n ==> connected(t@, starts@[#[trigger] lab@[v] as int] as int, v) && starts@[lab@[v] as int] <= v,
            forall|cc: int, k: int|
                0 <= cc < c && 0 <= k < groups@[cc]@.len() ==> #[trigger] groups@[cc]@[k] < n
                    && lab@[groups@[cc]@[k] as int] == cc,
            forall|cc: int, k1: int, k2: int|
                0 <= cc < c && 0 <= k1 < k2 < groups@[cc]@.len() ==> #[trigger] groups@[cc]@[k1]
                    < #[trigger] groups@[cc]@[k2],
            forall|cc: int, v: int|
                0 <= cc < c && 0 <= v < n && lab@[v] == cc ==> #[trigger] groups@[cc]@.contains(v as usize),
            forall|cc: int| 0 <= cc < c ==> #[trigger] groups@[cc]@.len() >= 1 && groups@[cc]@[0] == starts@[cc],
        decreases count - c,
    {
        let mut m: Vec<usize> = Vec::new();
        let mut v: usize = 0;
        while v < n
            invariant
                n == lab@.len(),
                c < count,
                count == starts@.len(),
                starts@[c as int] < n,
                lab@[starts@[c as int] as int] == c,
                forall|w: int| 0 <= w < n ==> starts@[#[trigger] lab@[w] as int] <= w,
                v <= n,
                forall|k: int| 0 <= k < m@.len() ==> #[trigger] m@[k] < v && lab@[m@[k] as int] == c,
                forall|k1: int, k2: int| 0 <= k1 < k2 < m@.len() ==> #[trigger] m@[k1] < #[trigger] m@[k2],
                forall|w: int| 0 <= w < v && lab@[w] == c ==> #[trigger] m@.contains(w as usize),
                v > starts@[c as int] ==> m@.len() >= 1 && m@[0] == starts@[c as int],
                v <= starts@[c as int] ==> m@.len() == 0,
            decreases n - v,
        {
            if lab[v] == c {
                let ghost m0 = m@;
                m.push(v);
                proof {
                    assert(m@[m0.len() as int] == v);
                    assert forall|w: int| 0 <= w < v + 1 && lab@[w] == c implies #[trigger] m@.contains(w as usize) by {
                        if w < v {
                            assert(m0.contains(w as usize));
                            let k = choose|k: int| 0 <= k < m0.len() && m0[k] == w as usize;
                            assert(m@[k] == m0[k]);
                        } else {
                            assert(m@[m0.len() as int] == w as usize);
                        }
                    }
                    assert forall|k1: int, k2: int| 0 <= k1 < k2 < m@.len() implies #[trigger] m@[k1] < #[trigger] m@[k2] by {
                        assert(m@[k1] == m0[k1] || k1 == m0.len());
                        if k2 < m0.len() {
                            assert(m@[k1] == m0[k1] && m@[k2] == m0[k2]);
                        } else {
                            assert(m@[k1] == m0[k1]);
                        }
                    }
                    if v == starts@[c as int] {
                        assert(m0.len() == 0);
                    } else {
                        assert(starts@[lab@[v as int] as int] <= v);
                        assert(m@[0] == m0[0]);
                    }
                }
            }
            v = v + 1;
        }
        let ghost g0 = groups@;
        groups.push(m);
        proof {
            assert forall|cc: int, v2: int|
                0 <= cc < c + 1 && 0 <= v2 < n && lab@[v2] == cc implies #[trigger] groups@[cc]@.contains(v2 as usize) by {
                if cc < c {
                    assert(groups@[cc] == g0[cc]);
                }
            }
            assert forall|cc: int, k: int|
                0 <= cc < c + 1 && 0 <= k < groups@[cc]@.len() implies #[trigger] groups@[cc]@[k] < n
                    && lab@[groups@[cc]@[k] as int] == cc by {
                if cc < c {
                    assert(groups@[cc] == g0[cc]);
                }
            }
            assert forall|cc: int, k1: int, k2: int|
                0 <= cc < c + 1 && 0 <= k1 < k2 < groups@[cc]@.len() implies #[trigger] groups@[cc]@[k1]
                    < #[trigger] groups@[cc]@[k2] by {
                if cc < c {
                    assert(groups@[cc] == g0[cc]);
                }
            }
            assert forall|cc: int| 0 <= cc < c + 1 implies #[trigger] groups@[cc]@.len() >= 1 && groups@[cc]@[0] == starts@[cc] by {
                if cc < c {
                    assert(groups@[cc] == g0[cc]);
                }
            }
        }
        c = c + 1;
    }
    proof {
        assert forall|cc: int, v: int|
            0 <= cc < groups@.len() && 0 <= v < t@.len() implies (connected(t@, groups@[cc]@[0] as int, v)
                <==> #[trigger] groups@[cc]@.contains(v as usize)) by {
            let st = starts@[cc] as int;
            assert(groups@[cc]@[0] == starts@[cc]);
            if groups@[cc]@.contains(v as usize) {
                let k = choose|k: int| 0 <= k < groups@[cc]@.len() && groups@[cc]@[k] == v as usize;
                assert(lab@[v] == cc);
                assert(connected(t@, starts@[lab@[v] as int] as int, v));
            }
            if connected(t@, st, v) {
                lemma_closed_reach(t@, lab@, cc as usize, st, v);
            }
        }
        assert forall|v: int| 0 <= v < t@.len() implies #[trigger] in_some_group(groups@, v) by {
            let cc = lab@[v] as int;
            assert(groups@[cc]@.contains(v as usize));
        }
        assert forall|c1: int, c2: int| 0 <= c1 < c2 < groups@.len() implies #[trigger] groups@[c1]@[0]
            < #[trigger] groups@[c2]@[0] by {
            assert(groups@[c1]@[0] == starts@[c1] && groups@[c2]@[0] == starts@[c2]);
        }
    }
    groups
}

proof fn lemma_connected_sym(t: Seq<Vec<bool>>, u: int, v: int)
    requires
        symmetric(t),
        connected(t, u, v),
    ensures
        connected(t, v, u),
{
    let p = choose|p: Seq<int>| #[trigger] is_walk(t, p) && p[0] == u && p.last() == v;
    let q = Seq::new(p.len(), |i: int| p[p.len() - 1 - i]);
    assert forall|k: int| 0 <= k < q.len() - 1 implies #[trigger] edge(t, q[k], q[k + 1]) by {
        let a = p.len() - 2 - k;
        assert(edge(t, p[a], p[a + 1]));
        assert(q[k] == p[a + 1] && q[k + 1] == p[a]);
        assert(t[p[a]]@[p[a + 1]] == t[p[a + 1]]@[p[a]]);
    }
    assert(q[0] == v);
    assert(0 <= q[0] < t.len()) by {
        if p.len() >= 2 {
            let a = p.len() - 2;
            assert(edge(t, p[a], p[a + 1]));
        } else {
            assert(q[0] == p[0]);
        }
    }
    assert(is_walk(t, q));
}

proof fn lemma_connected_trans(t: Seq<Vec<bool>>, u: int, v: int, w: int)
    requires
        connected(t, u, v),
        connected(t, v, w),
    ensures
        connected(t, u, w),
{
    let p = choose|p: Seq<int>| #[trigger] is_walk(t, p) && p[0] == u && p.last() == v;
    let q = choose|q: Seq<int>| #[trigger] is_walk(t, q) && q[0] == v && q.last() == w;
    let r = p + q.drop_first();
    assert forall|k: int| 0 <= k < r.len() - 1 implies #[trigger] edge(t, r[k], r[k + 1]) by {
        if k < p.len() - 1 {
            assert(r[k] == p[k] && r[k + 1] == p[k + 1]);
        } else if k == p.len() - 1 {
            assert(r[k] == v && r[k + 1] == q[1]);
            assert(edge(t, q[0], q[1]));
        } else {
            let a = k - p.len() + 1;
            assert(r[k] == q[a] && r[k + 1] == q[a + 1]);
            assert(edge(t, q[a], q[a + 1]));
        }
    }
    assert(is_walk(t, r));
    if q.len() == 1 {
        assert(r.last() == p.last());
    } else {
        assert(r.last() == q.last());
    }
}

/// `groups` is what `overlap_groups` gives for `t`.
pub open spec fn groups_of(t: Seq<Vec<bool>>, groups: Seq<Vec<usize>>) -> bool {
    &&& forall|c: int| 0 <= c < groups.len() ==> #[trigger] groups[c]@.len() >= 1
    &&& forall|c: int, k: int|
        0 <= c < groups.len() && 0 <= k < groups[c]@.len() ==> #[trigger] groups[c]@[k] < t.len()
    &&& forall|c: int, k1: int, k2: int|
        0 <= c < groups.len() && 0 <= k1 < k2 < groups[c]@.len() ==> #[trigger] groups[c]@[k1]
            < #[trigger] groups[c]@[k2]
    &&& forall|c: int, v: int|
        0 <= c < groups.len() && 0 <= v < t.len() ==> (connected(t, groups[c]@[0] as int, v)
            <==> #[trigger] groups[c]@.contains(v as usize))
    &&& forall|c1: int, c2: int| 0 <= c1 < c2 < groups.len() ==> #[trigger] groups[c1]@[0] < #[trigger] groups[c2]@[0]
}

/// No item belongs to two groups.
pub proof fn lemma_groups_disjoint(t: Seq<Vec<bool>>, groups: Seq<Vec<usize>>, c1: int, c2: int, v: int)
    requires
        square(t),
        symmetric(t),
        groups_of(t, groups),
        0 <= c1 < c2 < groups.len(),
        0 <= v < t.len(),
    ensures
        !(groups[c1]@.contains(v as usize) && groups[c2]@.contains(v as usize)),
{
    if groups[c1]@.contains(v as usize) && groups[c2]@.contains(v as usize) {
        let a = groups[c1]@[0] as int;
        let b = groups[c2]@[0] as int;
        assert(groups[c1]@.len() >= 1 && groups[c2]@.len() >= 1);
        assert(a < t.len() && b < t.len());
        assert(connected(t, a, v));
        assert(connected(t, b, v));
        lemma_connected_sym(t, a, v);
        lemma_connected_trans(t, b, v, a);
        assert(groups[c2]@.contains(a as usize));
        let k = choose|k: int| 0 <= k < groups[c2]@.len() && groups[c2]@[k] == a as usize;
        if k > 0 {
            assert(groups[c2]@[0] < groups[c2]@[k]);
        }
        assert(a < b);
    }
}

} // verus!
