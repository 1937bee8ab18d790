//! Pieces of the HTML report that are pure data: the face thumbnails, their
//! crop box, and base64 (RFC 4648, with padding) for embedding PNG bytes.

use vstd::prelude::*;
use vstd::string::StringExecFns;
use crate::image::nonneg;

verus! {

/// A track's face thumbnail, PNG bytes in base64.
#[derive(Clone)]
pub struct Thumbnail {
    pub face_id: u32,
    pub png_base64: String,
}

impl Default for Thumbnail {
    fn default() -> (t: Self)
        ensures
            t.face_id == 0,
            t.png_base64@ == Seq::<char>::empty(),
    {
        Thumbnail { face_id: 0, png_base64: String::new() }
    }
}

/// The base64 alphabet: `A`-`Z`, `a`-`z`, `0`-`9`, `+`, `/`.
pub open spec fn b64_alphabet() -> Seq<char> {
    "ABCDEFGHIJKLMNOPQRSTUVWXYZabcdefghijklmnopqrstuvwxyz0123456789+/"@
}

/// Base64 digit for a 6-bit value.
pub open spec fn b64_digit(v: int) -> char {
    b64_alphabet()[v]
}

/// The four digits of a 24-bit group `v`, the last `pad` of them replaced by `=`.
pub open spec fn b64_quad(v: int, pad: int) -> Seq<char> {
    seq![
        b64_digit(v / 262144),
        b64_digit((v / 4096) % 64),
        if pad >= 2 { '=' } else { b64_digit((v / 64) % 64) },
        if pad >= 1 { '=' } else { b64_digit(v % 64) },
    ]
}

/// Base64 of `data`: each 3-byte group as 4 digits; a final group of 1 or 2
/// bytes is zero-filled and padded with `==` or `=`.
pub open spec fn base64(data: Seq<u8>) -> Seq<char>
    decreases data.len(),
{
    if data.len() >= 3 {
        b64_quad(data[0] * 65536 + data[1] * 256 + data[2], 0) + base64(data.subrange(3, data.len() as int))
    } else if data.len() == 2 {
        b64_quad(data[0] * 65536 + data[1] * 256, 1)
    } else if data.len() == 1 {
        b64_quad(data[0] * 65536, 2)
    } else {
        Seq::empty()
    }
}

/// Appends base64 digit `v`.
fn push_digit(s: &mut String, v: u8)
    requires
        v < 64,
    ensures
        final(s)@ == old(s)@.push(b64_digit(v as int)),
{
    let table = "ABCDEFGHIJKLMNOPQRSTUVWXYZabcdefghijklmnopqrstuvwxyz0123456789+/";
    proof {
        reveal_strlit("ABCDEFGHIJKLMNOPQRSTUVWXYZabcdefghijklmnopqrstuvwxyz0123456789+/");
    }
    let d = table.substring_char(v as usize, v as usize + 1);
    s.append(d);
    proof {
        assert(d@ =~= seq![b64_digit(v as int)]);
        assert(final(s)@ =~= old(s)@.push(b64_digit(v as int)));
    }
}

fn push_pad(s: &mut String)
    ensures
        final(s)@ == old(s)@.push('='),
{
    let eq = "=";
    proof {
        reveal_strlit("=");
    }
    s.append(eq);
    proof {
        assert(final(s)@ =~= old(s)@.push('='));
    }
}

/// The four 6-bit fields of the 24-bit group `b0 b1 b2`, by shifts and masks.
proof fn lemma_sextets(b0: u8, b1: u8, b2: u8)
    ensures
        (b0 >> 2u8) as int == (b0 as int * 65536 + b1 as int * 256 + b2 as int) / 262144,
        (((b0 & 3u8) << 4u8) | (b1 >> 4u8)) as int == ((b0 as int * 65536 + b1 as int * 256 + b2 as int) / 4096)
            % 64,
        (((b1 & 15u8) << 2u8) | (b2 >> 6u8)) as int == ((b0 as int * 65536 + b1 as int * 256 + b2 as int) / 64)
            % 64,
        (b2 & 63u8) as int == (b0 as int * 65536 + b1 as int * 256 + b2 as int) % 64,
        ((b0 & 3u8) << 4u8) as int == ((b0 as int * 65536) / 4096) % 64,
        ((b1 & 15u8) << 2u8) as int == ((b0 as int * 65536 + b1 as int * 256) / 64) % 64,
{
    assert((b0 >> 2u8) as int == (b0 as int * 65536 + b1 as int * 256 + b2 as int) / 262144) by (bit_vector);
    assert((((b0 & 3u8) << 4u8) | (b1 >> 4u8)) as int == ((b0 as int * 65536 + b1 as int * 256 + b2 as int)
        / 4096) % 64) by (bit_vector);
    assert((((b1 & 15u8) << 2u8) | (b2 >> 6u8)) as int == ((b0 as int * 65536 + b1 as int * 256 + b2 as int)
        / 64) % 64) by (bit_vector);
    assert((b2 & 63u8) as int == (b0 as int * 65536 + b1 as int * 256 + b2 as int) % 64) by (bit_vector);
    assert(((b0 & 3u8) << 4u8) as int == ((b0 as int * 65536) / 4096) % 64) by (bit_vector);
    assert(((b1 & 15u8) << 2u8) as int == ((b0 as int * 65536 + b1 as int * 256) / 64) % 64) by (bit_vector);
}

/// Encodes bytes as base64.
pub fn base64_encode(data: &[u8]) -> (s: String)
    ensures
        s@ == base64(data@),
{
    let n = data.len();
    let mut s = String::new();
    let mut i: usize = 0;
    proof {
        assert(data@.subrange(0, n as int) =~= data@);
        assert(s@ =~= Seq::<char>::empty());
        assert(Seq::<char>::empty() + base64(data@) =~= base64(data@));
    }
    while n - i >= 3
        invariant
            n == data@.len(),
            i <= n,
            s@ + base64(data@.subrange(i as int, n as int)) == base64(data@),
        decreases n - i,
    {
        let b0 = data[i];
        let b1 = data[i + 1];
        let b2 = data[i + 2];
        let ghost rest = data@.subrange(i as int, n as int);
        let ghost v = b0 as int * 65536 + b1 as int * 256 + b2 as int;
        proof {
            assert(rest[0] == b0 && rest[1] == b1 && rest[2] == b2);
            assert(rest.subrange(3, rest.len() as int) =~= data@.subrange(i + 3, n as int));
            lemma_sextets(b0, b1, b2);
        }
        let ghost s0 = s@;
        push_digit(&mut s, b0 >> 2);
        push_digit(&mut s, ((b0 & 3) << 4) | (b1 >> 4));
        push_digit(&mut s, ((b1 & 15) << 2) | (b2 >> 6));
        push_digit(&mut s, b2 & 63);
        proof {
            assert(s@ =~= s0 + b64_quad(v, 0));
        }
        i = i + 3;
    }
    let rem = n - i;
    let ghost rest = data@.subrange(i as int, n as int);
    if rem == 1 {
        let b0 = data[i];
        proof {
            lemma_sextets(b0, 0, 0);
        }
        let ghost s0 = s@;
        push_digit(&mut s, b0 >> 2);
        push_digit(&mut s, (b0 & 3) << 4);
        push_pad(&mut s);
        push_pad(&mut s);
        proof {
            assert(rest[0] == b0);
            assert(s@ =~= s0 + b64_quad(b0 as int * 65536, 2));
        }
    } else if rem == 2 {
        let b0 = data[i];
        let b1 = data[i + 1];
        proof {
            lemma_sextets(b0, b1, 0);
        }
        let ghost s0 = s@;
        push_digit(&mut s, b0 >> 2);
        push_digit(&mut s, ((b0 & 3) << 4) | (b1 >> 4));
        push_digit(&mut s, (b1 & 15) << 2);
        push_pad(&mut s);
        proof {
            assert(rest[0] == b0 && rest[1] == b1);
            assert(s@ =~= s0 + b64_quad(b0 as int * 65536 + b1 as int * 256, 1));
        }
    } else {
        proof {
            assert(rest.len() == 0);
            assert(base64(rest) =~= Seq::<char>::empty());
            assert(s@ + Seq::<char>::empty() =~= s@);
        }
    }
    s
}


/// Base64 turns every started group of 3 bytes into 4 characters.
pub proof fn lemma_base64_len(data: Seq<u8>)
    ensures
        base64(data).len() == 4 * ((data.len() + 2) / 3),
    decreases data.len(),
{
    if data.len() >= 3 {
        lemma_base64_len(data.subrange(3, data.len() as int));
    }
}

/// The crop box of a thumbnail: the track's sample box `[x, y, w, h]` cut to
/// the image, as `(x, y, width, height)`; `None` when nothing is left.
pub open spec fn thumbnail_box_spec(b: Seq<i32>, width: int, height: int) -> Option<(int, int, int, int)> {
    let x0 = nonneg(b[0] as int);
    let y0 = nonneg(b[1] as int);
    let x1 = if b[0] + b[2] < width { b[0] + b[2] } else { width };
    let y1 = if b[1] + b[3] < height { b[1] + b[3] } else { height };
    if x1 <= x0 || y1 <= y0 {
        None
    } else {
        Some((x0, y0, x1 - x0, y1 - y0))
    }
}

/// Computes the thumbnail crop box of a track.
pub fn thumbnail_box(b: [i32; 4], width: usize, height: usize) -> (r: Option<(usize, usize, usize, usize)>)
    requires
        width <= i32::MAX,
        height <= i32::MAX,
        0 <= b@[0] + b@[2] <= i32::MAX,
        0 <= b@[1] + b@[3] <= i32::MAX,
    ensures
        match thumbnail_box_spec(b@, width as int, height as int) {
            None => r is None,
            Some(t) => r matches Some(v) && v.0 == t.0 && v.1 == t.1 && v.2 == t.2 && v.3 == t.3,
        },
{
    let x0: usize = if b[0] < 0 { 0 } else { b[0] as usize };
    let y0: usize = if b[1] < 0 { 0 } else { b[1] as usize };
    let xe = b[0] + b[2];
    let ye = b[1] + b[3];
    let x1: usize = if xe < width as i32 { xe as usize } else { width };
    let y1: usize = if ye < height as i32 { ye as usize } else { height };
    if x1 <= x0 || y1 <= y0 {
        return None;
    }
    Some((x0, y0, x1 - x0, y1 - y0))
}

/// Stride between the frames a track card shows: a fifth of the frames,
/// at least one.
pub open spec fn sample_step(n: int) -> int {
    if n / 5 < 1 { 1 } else { n / 5 }
}

/// How many frames a track card shows: every `sample_step(n)`-th frame,
/// at most five.
pub open spec fn sample_count(n: int) -> int {
    let st = sample_step(n);
    let c = n / st + if n % st == 0 { 0int } else { 1int };
    if c < 5 { c } else { 5 }
}

/// Indices of the frames a track card shows: every `sample_step(n)`-th
/// frame from the first, at most five.
pub fn sample_indices(n: usize) -> (r: Vec<usize>)
    ensures
        r@.len() == sample_count(n as int),
        forall|k: int| 0 <= k < r@.len() ==> #[trigger] r@[k] == k * sample_step(n as int),
{
    let step: usize = if n / 5 < 1 { 1 } else { n / 5 };
    assert(n / step < usize::MAX) by (nonlinear_arith)
        requires
            step == if n / 5 < 1 { 1 } else { n / 5 },
            n <= usize::MAX,
            usize::MAX > 10,
    ;
    let c0: usize = n / step + if n % step == 0 { 0 } else { 1 };
    let count: usize = if c0 < 5 { c0 } else { 5 };
    let mut r: Vec<usize> = Vec::new();
    let mut k: usize = 0;
    while k < count
        invariant
            step == sample_step(n as int),
            step >= 1,
            c0 == n / step + if n % step == 0 { 0int } else { 1int },
            count <= c0,
            count <= 5,
            k <= count,
            r@.len() == k,
            forall|kk: int| 0 <= kk < k ==> #[trigger] r@[kk] == kk * step,
        decreases count - k,
    {
        assert(k * step < n) by (nonlinear_arith)
            requires
                k < c0,
                c0 == n / step + if n % step == 0 { 0int } else { 1int },
                step >= 1,
        ;
        r.push(k * step);
        k = k + 1;
    }
    r
}

} // verus!
