//! PNG encoder for 8-bit gray images: signature, IHDR / IDAT / IEND chunks
//! with CRC-32, and a zlib stream of uncompressed ("stored") deflate blocks
//! closed by an Adler-32 checksum.

use vstd::prelude::*;
use crate::image::Image;

verus! {

/// The reflected CRC-32 polynomial used by PNG.
pub open spec fn crc_poly() -> u32 {
    0xEDB88320u32
}

/// One bit step of the CRC register.
pub open spec fn crc_step(s: u32) -> u32 {
    if s & 1u32 != 0u32 {
        (s >> 1u32) ^ crc_poly()
    } else {
        s >> 1u32
    }
}

/// `n` bit steps.
pub open spec fn crc_steps(s: u32, n: nat) -> u32
    decreases n,
{
    if n == 0 {
        s
    } else {
        crc_step(crc_steps(s, (n - 1) as nat))
    }
}

/// Register after absorbing one byte.
pub open spec fn crc_byte(s: u32, b: u8) -> u32 {
    crc_steps(s ^ (b as u32), 8)
}

/// Register after absorbing `data` from state `s`.
pub open spec fn crc_update(s: u32, data: Seq<u8>) -> u32
    decreases data.len(),
{
    if data.len() == 0 {
        s
    } else {
        crc_byte(crc_update(s, data.drop_last()), data.last())
    }
}

/// CRC-32 of `data`: start from all ones, absorb, invert.
pub open spec fn crc32(data: Seq<u8>) -> u32 {
    !crc_update(0xFFFF_FFFFu32, data)
}

/// Absorbing `a` then `b` is absorbing `a + b`.
pub proof fn lemma_crc_concat(s: u32, a: Seq<u8>, b: Seq<u8>)
    ensures
        crc_update(crc_update(s, a), b) == crc_update(s, a + b),
    decreases b.len(),
{
    if b.len() > 0 {
        lemma_crc_concat(s, a, b.drop_last());
        assert((a + b).drop_last() =~= a + b.drop_last());
        assert((a + b).last() == b.last());
    } else {
        assert(a + b =~= a);
    }
}

/// CRC-32 register.
struct Crc {
    state: u32,
}

impl Crc {
    fn new() -> (c: Self)
        ensures
            c.state == 0xFFFF_FFFFu32,
    {
        Self { state: 0xFFFF_FFFFu32 }
    }

    fn update(&mut self, data: &[u8])
        ensures
            final(self).state == crc_update(old(self).state, data@),
    {
        let n = data.len();
        let mut i: usize = 0;
        while i < n
            invariant
                n == data@.len(),
                i <= n,
                self.state == crc_update(old(self).state, data@.subrange(0, i as int)),
            decreases n - i,
        {
            proof {
                assert(data@.subrange(0, i + 1).drop_last() =~= data@.subrange(0, i as int));
            }
            let mut st = self.state ^ (data[i] as u32);
            let ghost start = st;
            let mut k: usize = 0;
            while k < 8
                invariant
                    k <= 8,
                    st == crc_steps(start, k as nat),
                decreases 8 - k,
            {
                if st & 1 != 0 {
                    st = (st >> 1) ^ 0xEDB88320u32;
                } else {
                    st = st >> 1;
                }
                k = k + 1;
            }
            self.state = st;
            i = i + 1;
        }
        proof {
            assert(data@.subrange(0, n as int) =~= data@);
        }
    }

    fn finalize(&self) -> (r: u32)
        ensures
            r == !self.state,
    {
        !self.state
    }
}

/// Running Adler-32 sums `(a, b)` after `data`.
pub open spec fn adler_sums(data: Seq<u8>) -> (u32, u32)
    decreases data.len(),
{
    if data.len() == 0 {
        (1u32, 0u32)
    } else {
        let (a, b) = adler_sums(data.drop_last());
        let a2 = ((a + data.last()) % 65521) as u32;
        (a2, ((b + a2) % 65521) as u32)
    }
}

/// Adler-32 checksum: `b << 16 | a`.
pub open spec fn adler32_spec(data: Seq<u8>) -> u32 {
    let (a, b) = adler_sums(data);
    (b << 16u32) | a
}

proof fn lemma_adler_sums_bound(data: Seq<u8>)
    ensures
        adler_sums(data).0 < 65521,
        adler_sums(data).1 < 65521,
    decreases data.len(),
{
    if data.len() > 0 {
        lemma_adler_sums_bound(data.drop_last());
    }
}

/// Adler-32 (zlib checksum).
fn adler32(data: &[u8]) -> (r: u32)
    ensures
        r == adler32_spec(data@),
{
    let mut a: u32 = 1;
    let mut b: u32 = 0;
    let n = data.len();
    let mut i: usize = 0;
    while i < n
        invariant
            n == data@.len(),
            i <= n,
            (a, b) == adler_sums(data@.subrange(0, i as int)),
            a < 65521,
            b < 65521,
        decreases n - i,
    {
        proof {
            assert(data@.subrange(0, i + 1).drop_last() =~= data@.subrange(0, i as int));
        }
        a = (a + data[i] as u32) % 65521;
        b = (b + a) % 65521;
        i = i + 1;
    }
    proof {
        assert(data@.subrange(0, n as int) =~= data@);
    }
    (b << 16) | a
}

/// The Paeth predictor of PNG filter type 4.
pub open spec fn paeth_spec(a: u8, b: u8, c: u8) -> u8 {
    let p = a + b - c;
    let pa = if p - a < 0 { a - p } else { p - a };
    let pb = if p - b < 0 { b - p } else { p - b };
    let pc = if p - c < 0 { c - p } else { p - c };
    if pa <= pb && pa <= pc {
        a
    } else if pb <= pc {
        b
    } else {
        c
    }
}

fn paeth(a: u8, b: u8, c: u8) -> (r: u8)
    ensures
        r == paeth_spec(a, b, c),
{
    let a = a as i32;
    let b = b as i32;
    let c = c as i32;
    let p = a + b - c;
    let pa = if p - a < 0 { a - p } else { p - a };
    let pb = if p - b < 0 { b - p } else { p - b };
    let pc = if p - c < 0 { c - p } else { p - c };
    if pa <= pb && pa <= pc {
        a as u8
    } else if pb <= pc {
        b as u8
    } else {
        c as u8
    }
}

/// Scanlines with filter type 0 (None): each row of `w` bytes preceded by a 0.
pub open spec fn filtered_rows(data: Seq<u8>, w: int, h: int) -> Seq<u8>
    decreases h,
{
    if h <= 0 {
        Seq::empty()
    } else {
        filtered_rows(data, w, h - 1) + seq![0u8] + data.subrange((h - 1) * w, h * w)
    }
}

fn filter_none(img: &Image) -> (out: Vec<u8>)
    requires
        img.data@.len() >= img.width * img.height,
    ensures
        out@ == filtered_rows(img.data@, img.width as int, img.height as int),
{
    let w = img.width;
    let h = img.height;
    let dl = img.data.len();
    let mut out: Vec<u8> = Vec::new();
    let mut y: usize = 0;
    while y < h
        invariant
            w == img.width,
            h == img.height,
            dl == img.data@.len(),
            dl >= w * h,
            y <= h,
            out@ == filtered_rows(img.data@, w as int, y as int),
        decreases h - y,
    {
        proof {
            assert((y + 1) * w <= w * h) by (nonlinear_arith)
                requires
                    y + 1 <= h,
            ;
            assert(y * w + w == (y + 1) * w) by (nonlinear_arith);
            assert(0 <= y * w) by (nonlinear_arith);
        }
        out.push(0u8);
        let row_start = y * w;
        let ghost before = out@;
        let mut k: usize = 0;
        while k < w
            invariant
                w == img.width,
                dl == img.data@.len(),
                row_start + w <= dl,
                k <= w,
                out@ == before + img.data@.subrange(row_start as int, row_start + k),
            decreases w - k,
        {
            out.push(img.data[row_start + k]);
            k = k + 1;
            proof {
                assert(out@ =~= before + img.data@.subrange(row_start as int, row_start + k));
            }
        }
        proof {
            assert(out@ =~= filtered_rows(img.data@, w as int, y + 1));
        }
        y = y + 1;
    }
    out
}

/// Big-endian bytes of a `u32`.
pub open spec fn be32(v: u32) -> Seq<u8> {
    seq![(v >> 24u32) as u8, (v >> 16u32) as u8, (v >> 8u32) as u8, v as u8]
}

fn push_be32(out: &mut Vec<u8>, v: u32)
    ensures
        final(out)@ == old(out)@ + be32(v),
{
    out.push((v >> 24) as u8);
    out.push((v >> 16) as u8);
    out.push((v >> 8) as u8);
    out.push(v as u8);
    proof {
        assert(final(out)@ =~= old(out)@ + be32(v));
    }
}

fn push_all(out: &mut Vec<u8>, src: &[u8])
    ensures
        final(out)@ == old(out)@ + src@,
{
    let n = src.len();
    let mut k: usize = 0;
    while k < n
        invariant
            n == src@.len(),
            k <= n,
            out@ == old(out)@ + src@.subrange(0, k as int),
        decreases n - k,
    {
        out.push(src[k]);
        k = k + 1;
        proof {
            assert(out@ =~= old(out)@ + src@.subrange(0, k as int));
        }
    }
    proof {
        assert(src@.subrange(0, n as int) =~= src@);
    }
}

/// The 8-byte PNG signature.
pub open spec fn png_signature() -> Seq<u8> {
    seq![0x89u8, 0x50u8, 0x4Eu8, 0x47u8, 0x0Du8, 0x0Au8, 0x1Au8, 0x0Au8]
}

fn write_signature(w: &mut Vec<u8>)
    ensures
        final(w)@ == old(w)@ + png_signature(),
{
    w.push(0x89u8);
    w.push(0x50u8);
    w.push(0x4Eu8);
    w.push(0x47u8);
    w.push(0x0Du8);
    w.push(0x0Au8);
    w.push(0x1Au8);
    w.push(0x0Au8);
    proof {
        assert(final(w)@ =~= old(w)@ + png_signature());
    }
}

/// A PNG chunk: length, type, data, and the CRC-32 of type and data.
pub open spec fn chunk_bytes(kind: Seq<u8>, data: Seq<u8>) -> Seq<u8> {
    be32(data.len() as u32) + kind + data + be32(crc32(kind + data))
}

fn write_chunk(w: &mut Vec<u8>, chunk_type: &[u8; 4], data: &[u8])
    ensures
        final(w)@ == old(w)@ + chunk_bytes(chunk_type@, data@),
{
    let len = data.len() as u32;
    push_be32(w, len);
    push_all(w, chunk_type.as_slice());
    push_all(w, data);
    let mut crc = Crc::new();
    crc.update(chunk_type.as_slice());
    crc.update(data);
    proof {
        lemma_crc_concat(0xFFFF_FFFFu32, chunk_type@, data@);
    }
    push_be32(w, crc.finalize());
    proof {
        assert(final(w)@ =~= old(w)@ + chunk_bytes(chunk_type@, data@));
    }
}

/// Uncompressed deflate blocks of at most 65535 bytes covering `d[pos..]`;
/// the last block carries the final flag.
pub open spec fn stored_blocks(d: Seq<u8>, pos: int) -> Seq<u8>
    decreases d.len() - pos,
{
    if pos < 0 || pos >= d.len() {
        Seq::empty()
    } else {
        let bl = if d.len() - pos < 65535 { d.len() - pos } else { 65535 };
        let fin: u8 = if pos + bl == d.len() { 1 } else { 0 };
        let nl = 65535 - bl;
        seq![fin, (bl % 256) as u8, (bl / 256) as u8, (nl % 256) as u8, (nl / 256) as u8] + d.subrange(
            pos,
            pos + bl,
        ) + stored_blocks(d, pos + bl)
    }
}

/// zlib stream: header `78 01`, stored blocks, Adler-32 of the payload.
pub open spec fn zlib_stored(d: Seq<u8>) -> Seq<u8> {
    seq![0x78u8, 0x01u8] + stored_blocks(d, 0) + be32(adler32_spec(d))
}

fn zlib_store(filtered: &[u8]) -> (z: Vec<u8>)
    ensures
        z@ == zlib_stored(filtered@),
{
    let n = filtered.len();
    let mut zlib: Vec<u8> = Vec::new();
    zlib.push(0x78u8);
    zlib.push(0x01u8);
    let mut pos: usize = 0;
    while pos < n
        invariant
            n == filtered@.len(),
            pos <= n,
            zlib@ + stored_blocks(filtered@, pos as int) == seq![0x78u8, 0x01u8] + stored_blocks(
                filtered@,
                0,
            ),
        decreases n - pos,
    {
        let block_len: usize = if n - pos < 65535 { n - pos } else { 65535 };
        let bfinal: u8 = if pos + block_len == n { 1 } else { 0 };
        let nlen: usize = 65535 - block_len;
        let ghost before = zlib@;
        zlib.push(bfinal);
        zlib.push((block_len % 256) as u8);
        zlib.push((block_len / 256) as u8);
        zlib.push((nlen % 256) as u8);
        zlib.push((nlen / 256) as u8);
        let mut k: usize = 0;
        let ghost mid = zlib@;
        while k < block_len
            invariant
                n == filtered@.len(),
                pos + block_len <= n,
                k <= block_len,
                zlib@ == mid + filtered@.subrange(pos as int, pos + k),
            decreases block_len - k,
        {
            zlib.push(filtered[pos + k]);
            k = k + 1;
            proof {
                assert(zlib@ =~= mid + filtered@.subrange(pos as int, pos + k));
            }
        }
        proof {
            let blk = seq![bfinal, (block_len % 256) as u8, (block_len / 256) as u8, (nlen % 256) as u8, (nlen / 256) as u8]
                + filtered@.subrange(pos as int, pos + block_len);
            assert(zlib@ =~= before + blk);
            assert(stored_blocks(filtered@, pos as int) == blk + stored_blocks(filtered@, pos + block_len));
            assert(zlib@ + stored_blocks(filtered@, pos + block_len) =~= before + stored_blocks(filtered@, pos as int));
        }
        pos = pos + block_len;
    }
    proof {
        assert(stored_blocks(filtered@, pos as int) =~= Seq::<u8>::empty());
        assert(zlib@ =~= seq![0x78u8, 0x01u8] + stored_blocks(filtered@, 0));
    }
    let ghost before = zlib@;
    push_be32(&mut zlib, adler32(filtered));
    zlib
}

/// IHDR payload: width, height, bit depth 8, gray, deflate, no filter choice, no interlace.
pub open spec fn ihdr_bytes(w: u32, h: u32) -> Seq<u8> {
    be32(w) + be32(h) + seq![8u8, 0u8, 0u8, 0u8, 0u8]
}

pub open spec fn chunk_ihdr() -> Seq<u8> {
    seq![73u8, 72u8, 68u8, 82u8]
}

pub open spec fn chunk_idat() -> Seq<u8> {
    seq![73u8, 68u8, 65u8, 84u8]
}

pub open spec fn chunk_iend() -> Seq<u8> {
    seq![73u8, 69u8, 78u8, 68u8]
}

/// The complete PNG file for a gray image.
pub open spec fn png_file(img: Image) -> Seq<u8> {
    let filtered = filtered_rows(img.data@, img.width as int, img.height as int);
    png_signature() + chunk_bytes(chunk_ihdr(), ihdr_bytes(img.width as u32, img.height as u32))
        + chunk_bytes(chunk_idat(), zlib_stored(filtered)) + chunk_bytes(chunk_iend(), Seq::empty())
}

/// Why an image could not be encoded as PNG.
#[derive(Debug, Clone, Copy, PartialEq, Eq, Structural)]
pub enum PngError {
    /// Only one-channel (gray) images are supported; holds the channel count.
    NotGray(usize),
}

/// Appends the PNG encoding of a gray image to `file`; other channel counts
/// are rejected and leave `file` unchanged.
pub fn write_png_to_writer(img: &Image, file: &mut Vec<u8>) -> (r: Result<(), PngError>)
    requires
        img.wf(),
    ensures
        img.channels != 1 ==> r == Err::<(), PngError>(PngError::NotGray(img.channels)) && final(file)@
            == old(file)@,
        img.channels == 1 ==> r is Ok && final(file)@ == old(file)@ + png_file(*img),
{
    let w = img.width as u32;
    let h = img.height as u32;
    if img.channels != 1 {
        return Err(PngError::NotGray(img.channels));
    }
    proof {
        assert(img.width * img.height * 1 == img.width * img.height);
    }
    write_signature(file);
    let mut ihdr: Vec<u8> = Vec::new();
    push_be32(&mut ihdr, w);
    push_be32(&mut ihdr, h);
    ihdr.push(8u8);
    ihdr.push(0u8);
    ihdr.push(0u8);
    ihdr.push(0u8);
    ihdr.push(0u8);
    proof {
        assert(ihdr@ =~= ihdr_bytes(w, h));
    }
    let kind_ihdr: [u8; 4] = [73u8, 72u8, 68u8, 82u8];
    let kind_idat: [u8; 4] = [73u8, 68u8, 65u8, 84u8];
    let kind_iend: [u8; 4] = [73u8, 69u8, 78u8, 68u8];
    proof {
        assert(kind_ihdr@ =~= chunk_ihdr());
        assert(kind_idat@ =~= chunk_idat());
        assert(kind_iend@ =~= chunk_iend());
    }
    write_chunk(file, &kind_ihdr, ihdr.as_slice());
    let filtered = filter_none(img);
    let zlib = zlib_store(filtered.as_slice());
    write_chunk(file, &kind_idat, zlib.as_slice());
    let empty: Vec<u8> = Vec::new();
    write_chunk(file, &kind_iend, empty.as_slice());
    proof {
        assert(empty@ =~= Seq::<u8>::empty());
        assert(final(file)@ =~= old(file)@ + png_file(*img));
    }
    let _ = paeth;
    Ok(())
}


/// The big-endian number held by the four bytes of `f` from `at` on.
pub open spec fn read_be32(f: Seq<u8>, at: int) -> int {
    f[at] as int * 0x100_0000 + f[at + 1] as int * 0x1_0000 + f[at + 2] as int * 0x100 + f[at + 3] as int
}

proof fn lemma_be32_reads(v: u32)
    ensures
        read_be32(be32(v), 0) == v as int,
{
    let b0 = (v >> 24u32) as u8;
    let b1 = (v >> 16u32) as u8;
    let b2 = (v >> 8u32) as u8;
    let b3 = v as u8;
    assert(b0 as u64 * 0x100_0000u64 + b1 as u64 * 0x1_0000u64 + b2 as u64 * 0x100u64 + b3 as u64 == v as u64)
        by (bit_vector)
        requires
            b0 == (v >> 24u32) as u8,
            b1 == (v >> 16u32) as u8,
            b2 == (v >> 8u32) as u8,
            b3 == v as u8,
    ;
}

/// The header of an encoded gray image: after the 8-byte signature comes a
/// 13-byte `IHDR` chunk whose payload starts with the width and then the
/// height, each as four big-endian bytes, followed by bit depth 8 and colour
/// type 0 (gray).
pub proof fn lemma_png_header(img: Image)
    requires
        img.wf(),
        img.channels == 1,
        img.width <= u32::MAX,
        img.height <= u32::MAX,
    ensures
        ({
            let f = png_file(img);
            &&& f.len() > 33
            &&& f.subrange(0, 8) == png_signature()
            &&& read_be32(f, 8) == 13
            &&& f.subrange(12, 16) == seq![73u8, 72u8, 68u8, 82u8]
            &&& read_be32(f, 16) == img.width as int
            &&& read_be32(f, 20) == img.height as int
            &&& f[24] == 8u8
            &&& f[25] == 0u8
        }),
{
    let w = img.width as u32;
    let h = img.height as u32;
    let f = png_file(img);
    let filtered = filtered_rows(img.data@, img.width as int, img.height as int);
    let ihdr = ihdr_bytes(w, h);
    let c1 = chunk_bytes(chunk_ihdr(), ihdr);
    let rest = chunk_bytes(chunk_idat(), zlib_stored(filtered)) + chunk_bytes(chunk_iend(), Seq::empty());
    assert(f =~= png_signature() + c1 + rest);
    assert(ihdr.len() == 13);
    lemma_be32_reads(13u32);
    lemma_be32_reads(w);
    lemma_be32_reads(h);
    assert(f.subrange(0, 8) =~= png_signature());
    assert(forall|t: int| 0 <= t < 4 ==> f[8 + t] == be32(13u32)[t]);
    assert(forall|t: int| 0 <= t < 4 ==> f[12 + t] == chunk_ihdr()[t]);
    assert(forall|t: int| 0 <= t < 4 ==> f[16 + t] == be32(w)[t]);
    assert(forall|t: int| 0 <= t < 4 ==> f[20 + t] == be32(h)[t]);
    assert(f.subrange(12, 16) =~= seq![73u8, 72u8, 68u8, 82u8]);
    assert(f[24] == ihdr[8]);
    assert(f[25] == ihdr[9]);
}


/// Reads a run of stored deflate blocks: each block is a final flag, a
/// little-endian length and its complement, then that many bytes; reading
/// ends after the block with the final flag. `None` when a block is cut
/// short, its length check fails, or no final block comes.
pub open spec fn inflate_stored(z: Seq<u8>) -> Option<Seq<u8>>
    decreases z.len(),
{
    if z.len() < 5 {
        None
    } else {
        let len = z[1] as int + 256 * z[2] as int;
        let nlen = z[3] as int + 256 * z[4] as int;
        if len + nlen != 65535 || 5 + len > z.len() || z[0] > 1 {
            None
        } else if z[0] == 1 {
            Some(z.subrange(5, 5 + len))
        } else {
            match inflate_stored(z.subrange(5 + len, z.len() as int)) {
                Some(rest) => Some(z.subrange(5, 5 + len) + rest),
                None => None,
            }
        }
    }
}

proof fn lemma_stored_blocks_inflate(d: Seq<u8>, pos: int)
    requires
        0 <= pos < d.len(),
    ensures
        inflate_stored(stored_blocks(d, pos)) == Some(d.subrange(pos, d.len() as int)),
    decreases d.len() - pos,
{
    let bl = if d.len() - pos < 65535 { d.len() - pos } else { 65535 };
    let fin: u8 = if pos + bl == d.len() { 1 } else { 0 };
    let nl = 65535 - bl;
    let head = seq![fin, (bl % 256) as u8, (bl / 256) as u8, (nl % 256) as u8, (nl / 256) as u8];
    let z = stored_blocks(d, pos);
    let rest = stored_blocks(d, pos + bl);
    assert(z == head + d.subrange(pos, pos + bl) + rest);
    assert(z[1] as int + 256 * z[2] as int == bl);
    assert(z[3] as int + 256 * z[4] as int == nl);
    assert(z.subrange(5, 5 + bl) =~= d.subrange(pos, pos + bl));
    if pos + bl < d.len() {
        assert(z.subrange(5 + bl, z.len() as int) =~= rest);
        lemma_stored_blocks_inflate(d, pos + bl);
        assert(d.subrange(pos, pos + bl) + d.subrange(pos + bl, d.len() as int) =~= d.subrange(pos, d.len() as int));
    }
}

/// The image data of an encoded gray image with at least one row reads back:
/// the `IDAT` chunk follows the `IHDR` chunk and its payload is
/// the zlib header `78 01`, stored deflate blocks that decode to the
/// scanlines, and the Adler-32 of the scanlines; the scanlines are the rows
/// in order, each led by filter byte 0 and holding the row's pixels.
pub proof fn lemma_png_image_data(img: Image)
    requires
        img.wf(),
        img.channels == 1,
        img.height > 0,
    ensures
        ({
            let w = img.width as int;
            let h = img.height as int;
            let rows = filtered_rows(img.data@, w, h);
            let z = zlib_stored(rows);
            let f = png_file(img);
            &&& f.len() >= 45 + z.len()
            &&& f.subrange(37, 41) == seq![73u8, 68u8, 65u8, 84u8]
            &&& f.subrange(41, 41 + z.len() as int) == z
            &&& z.subrange(0, 2) == seq![0x78u8, 0x01u8]
            &&& inflate_stored(z.subrange(2, z.len() - 4)) == Some(rows)
            &&& read_be32(z, z.len() - 4) == adler32_spec(rows) as int
            &&& rows.len() == h * (w + 1)
            &&& forall|y: int| 0 <= y < h ==> rows[#[trigger] (y * (w + 1))] == 0u8
            &&& forall|y: int, x: int| 0 <= y < h && 0 <= x < w ==> rows[#[trigger] (y * (w + 1) + 1 + x)] == img.data@[y * w + x]
        }),
{
    let w = img.width as int;
    let h = img.height as int;
    assert(img.data@.len() == w * h) by {
        assert(img.width * img.height * 1 == img.width * img.height);
    }
    lemma_filtered_layout(img.data@, w, h);
    let rows = filtered_rows(img.data@, w, h);
    assert(rows.len() > 0) by {
        assert(h * (w + 1) >= 1) by (nonlinear_arith)
            requires
                h >= 1,
                w >= 0,
        ;
    }
    let z = zlib_stored(rows);
    let blocks = stored_blocks(rows, 0);
    assert(z.subrange(0, 2) =~= seq![0x78u8, 0x01u8]);
    assert(z.subrange(2, z.len() - 4) =~= blocks);
    lemma_stored_blocks_inflate(rows, 0);
    assert(rows.subrange(0, rows.len() as int) =~= rows);
    let tail = be32(adler32_spec(rows));
    assert(forall|t: int| 0 <= t < 4 ==> z[z.len() - 4 + t] == tail[t]);
    lemma_be32_reads(adler32_spec(rows));
    let f = png_file(img);
    let c1 = chunk_bytes(chunk_ihdr(), ihdr_bytes(img.width as u32, img.height as u32));
    let c2 = chunk_bytes(chunk_idat(), z);
    let c3 = chunk_bytes(chunk_iend(), Seq::empty());
    assert(c1.len() == 25);
    assert(f == png_signature() + c1 + c2 + c3);
    assert(f.subrange(37, 41) =~= chunk_idat());
    assert(f.subrange(41, 41 + z.len() as int) =~= z);
}

proof fn lemma_filtered_layout(data: Seq<u8>, w: int, h: int)
    requires
        0 <= w,
        0 <= h,
        data.len() >= w * h,
    ensures
        ({
            let rows = filtered_rows(data, w, h);
            &&& rows.len() == h * (w + 1)
            &&& forall|y: int| 0 <= y < h ==> rows[#[trigger] (y * (w + 1))] == 0u8
            &&& forall|y: int, x: int| 0 <= y < h && 0 <= x < w ==> rows[#[trigger] (y * (w + 1) + 1 + x)] == data[y * w + x]
        }),
    decreases h,
{
    if h > 0 {
        assert(w * (h - 1) <= w * h) by (nonlinear_arith)
            requires
                w >= 0,
                h >= 1,
        ;
        assert((h - 1) * w == w * (h - 1) && h * w == w * h) by (nonlinear_arith);
        lemma_filtered_layout(data, w, h - 1);
        let prev = filtered_rows(data, w, h - 1);
        let rows = filtered_rows(data, w, h);
        let base = (h - 1) * (w + 1);
        assert(prev.len() == base);
        assert(h * (w + 1) == base + 1 + w) by (nonlinear_arith)
            requires
                base == (h - 1) * (w + 1),
        ;
        assert(h * w - (h - 1) * w == w && 0 <= (h - 1) * w) by (nonlinear_arith)
            requires
                w >= 0,
                h >= 1,
        ;
        let last = data.subrange((h - 1) * w, h * w);
        assert(last.len() == w);
        assert(rows == prev + seq![0u8] + last);
        assert forall|y: int| 0 <= y < h implies rows[#[trigger] (y * (w + 1))] == 0u8 by {
            if y < h - 1 {
                assert(y * (w + 1) + w + 1 <= base) by (nonlinear_arith)
                    requires
                        y <= h - 2,
                        w >= 0,
                        base == (h - 1) * (w + 1),
                ;
            } else {
                assert(y * (w + 1) == base);
            }
        }
        assert forall|y: int, x: int| 0 <= y < h && 0 <= x < w implies rows[#[trigger] (y * (w + 1) + 1 + x)] == data[y * w + x] by {
            let idx = y * (w + 1) + 1 + x;
            if y < h - 1 {
                assert(y * (w + 1) + w + 1 <= base) by (nonlinear_arith)
                    requires
                        y <= h - 2,
                        w >= 0,
                        base == (h - 1) * (w + 1),
                ;
                assert(rows[idx] == prev[idx]);
                assert(prev[y * (w + 1) + 1 + x] == data[y * w + x]);
            } else {
                assert(y * (w + 1) == base);
                assert(y * w == (h - 1) * w);
                assert(idx == base + 1 + x);
                assert(rows[idx] == last[x]);
            }
        }
    }
}

} // verus!
