//! Plain-HTTP download helpers: splitting a URL, naming the downloaded file,
//! and taking a response apart (header end, status code, body length).

use vstd::prelude::*;
use vstd::utf8::{valid_utf8, decode_utf8};
use crate::text::{
    ascii_bytes, chars_of, int_result, lowercase, parse_uint, parse_uint_str, strip_prefix, to_lowercase,
    trim, trimmed, utf8_decode, IntErrorKind,
};

verus! {

/// Position of the first `c` in `s` at or after `from`, or `s.len()`.
pub open spec fn find_char(s: Seq<char>, c: char, from: int) -> int
    decreases s.len() - from,
{
    if from < 0 || from >= s.len() {
        s.len() as int
    } else if s[from] == c {
        from
    } else {
        find_char(s, c, from + 1)
    }
}

/// Position of the last `c` in `s` before `to`, if any.
pub open spec fn rfind_char(s: Seq<char>, c: char, to: int) -> Option<int>
    decreases to,
{
    if to <= 0 || to > s.len() {
        None
    } else if s[to - 1] == c {
        Some(to - 1)
    } else {
        rfind_char(s, c, to - 1)
    }
}

proof fn lemma_find_char(s: Seq<char>, c: char, from: int)
    requires
        0 <= from <= s.len(),
    ensures
        from <= find_char(s, c, from) <= s.len(),
        find_char(s, c, from) < s.len() ==> s[find_char(s, c, from)] == c,
        forall|t: int| from <= t < find_char(s, c, from) ==> s[t] != c,
    decreases s.len() - from,
{
    if from < s.len() && s[from] != c {
        lemma_find_char(s, c, from + 1);
    }
}

/// Finds the first `c` at or after `from` in the characters `cs`.
fn find_char_exec(cs: &Vec<char>, c: char, from: usize) -> (r: usize)
    requires
        from <= cs@.len(),
    ensures
        r == find_char(cs@, c, from as int),
{
    let n = cs.len();
    let mut i = from;
    while i < n && cs[i] != c
        invariant
            n == cs@.len(),
            from <= i <= n,
            find_char(cs@, c, from as int) == find_char(cs@, c, i as int),
        decreases n - i,
    {
        i = i + 1;
    }
    i
}

/// Why a URL cannot be downloaded.
#[derive(Debug, Clone, Copy, PartialEq, Eq, Structural)]
pub enum UrlError {
    /// Neither `http://` nor `https://`.
    UnsupportedScheme,
    /// `https://` needs TLS, which this program does not have.
    HttpsUnsupported,
}

/// Host, port and path of an `http://` or `https://` URL: the path starts at
/// the first `/` after the scheme (`/` when there is none), the port follows
/// the first `:` of the host part (80, or 443 for https, when it is absent or
/// not a `u16`).
pub open spec fn url_parts(url: Seq<char>) -> Option<(Seq<char>, u16, Seq<char>)> {
    let is_http = "http://"@.is_prefix_of(url);
    let is_https = "https://"@.is_prefix_of(url);
    if !is_http && !is_https {
        None
    } else {
        let rest = if is_http {
            url.subrange(7, url.len() as int)
        } else {
            url.subrange(8, url.len() as int)
        };
        let sl = find_char(rest, '/', 0);
        let host_port = rest.subrange(0, sl);
        let path = if sl < rest.len() {
            rest.subrange(sl, rest.len() as int)
        } else {
            "/"@
        };
        let default_port: u16 = if is_https { 443 } else { 80 };
        let co = find_char(host_port, ':', 0);
        if co < host_port.len() {
            let port = match parse_uint(
                ascii_bytes(host_port.subrange(co + 1, host_port.len() as int)),
                u16::MAX as int,
            ) {
                Ok(p) => p as u16,
                Err(_) => default_port,
            };
            Some((host_port.subrange(0, co), port, path))
        } else {
            Some((host_port, default_port, path))
        }
    }
}

/// Splits an `http://` URL into host, port and path.
pub fn parse_url(url: &str) -> (r: Result<(String, u16, String), UrlError>)
    ensures
        url_parts(url@) is None ==> r == Err::<(String, u16, String), UrlError>(UrlError::UnsupportedScheme),
        url_parts(url@) is Some && "https://"@.is_prefix_of(url@) ==> r == Err::<(String, u16, String), UrlError>(
            UrlError::HttpsUnsupported,
        ),
        url_parts(url@) is Some && !"https://"@.is_prefix_of(url@) ==> (r matches Ok(v) && (v.0@, v.1, v.2@)
            == url_parts(url@).unwrap()),
{
    proof {
        reveal_strlit("http://");
        reveal_strlit("https://");
        reveal_strlit("/");
    }
    let (rest, is_https) = match strip_prefix(url, "http://") {
        Some(r) => (r, false),
        None => match strip_prefix(url, "https://") {
            Some(r) => (r, true),
            None => {
                return Err(UrlError::UnsupportedScheme);
            },
        },
    };
    proof {
        if is_https {
            assert(!"http://"@.is_prefix_of(url@));
        } else {
            assert(!"https://"@.is_prefix_of(url@)) by {
                assert("http://"@[4] == ':');
                assert(url@.subrange(0, 7)[4] == url@[4]);
                assert(url@[4] == ':');
                assert("https://"@[4] == 's');
            }
        }
    }
    let cs = chars_of(rest);
    let n = cs.len();
    let sl = find_char_exec(&cs, '/', 0);
    proof {
        lemma_find_char(rest@, '/', 0);
    }
    let host_port = rest.substring_char(0, sl);
    let path = if sl < n {
        rest.substring_char(sl, n)
    } else {
        "/"
    };
    let default_port: u16 = if is_https { 443 } else { 80 };
    let hcs = chars_of(host_port);
    let hn = hcs.len();
    let co = find_char_exec(&hcs, ':', 0);
    proof {
        lemma_find_char(host_port@, ':', 0);
    }
    let (host, port) = if co < hn {
        let port = match parse_uint_str(host_port.substring_char(co + 1, hn), 65535) {
            Ok(p) => p as u16,
            Err(_) => default_port,
        };
        (host_port.substring_char(0, co).to_string(), port)
    } else {
        (host_port.to_string(), default_port)
    };
    if is_https {
        return Err(UrlError::HttpsUnsupported);
    }
    Ok((host, port, path.to_string()))
}

/// Position just past the last character of `s[..to]` that is not `c`.
pub open spec fn trim_end_char(s: Seq<char>, c: char, to: int) -> int
    decreases to,
{
    if to <= 0 {
        0
    } else if s[to - 1] == c {
        trim_end_char(s, c, to - 1)
    } else {
        to
    }
}

/// The file name a download is saved under: the URL's last path segment
/// (trailing slashes ignored) cut at the first `?` and then at the first `&`;
/// `download` when the URL has no `/`.
pub open spec fn url_filename(url: Seq<char>) -> Seq<char> {
    let e = trim_end_char(url, '/', url.len() as int);
    let t = url.subrange(0, e);
    match rfind_char(t, '/', e) {
        None => "download"@,
        Some(i) => {
            let name = t.subrange(i + 1, e);
            if name.len() == 0 {
                "download"@
            } else {
                let q = name.subrange(0, find_char(name, '?', 0));
                q.subrange(0, find_char(q, '&', 0))
            }
        },
    }
}

/// Names the file a URL is downloaded to.
pub fn extract_filename(url: &str) -> (r: String)
    ensures
        r@ == url_filename(url@),
{
    proof {
        reveal_strlit("download");
    }
    let cs = chars_of(url);
    let n = cs.len();
    let mut e = n;
    while e > 0 && cs[e - 1] == '/'
        invariant
            n == url@.len(),
            cs@ == url@,
            e <= n,
            trim_end_char(url@, '/', n as int) == trim_end_char(url@, '/', e as int),
        decreases e,
    {
        e = e - 1;
    }
    let ghost t = url@.subrange(0, e as int);
    let mut i = e;
    while i > 0 && cs[i - 1] != '/'
        invariant
            n == url@.len(),
            cs@ == url@,
            e <= n,
            i <= e,
            t == url@.subrange(0, e as int),
            rfind_char(t, '/', e as int) == rfind_char(t, '/', i as int),
        decreases i,
    {
        i = i - 1;
    }
    if i == 0 {
        return "download".to_string();
    }
    let name = url.substring_char(i, e);
    if e == i {
        return "download".to_string();
    }
    let ncs = chars_of(name);
    let q = find_char_exec(&ncs, '?', 0);
    proof {
        lemma_find_char(name@, '?', 0);
    }
    let qs = name.substring_char(0, q);
    let qcs = chars_of(qs);
    let a = find_char_exec(&qcs, '&', 0);
    proof {
        lemma_find_char(qs@, '&', 0);
        assert(t.subrange(i - 1 + 1, e as int) =~= name@);
    }
    qs.substring_char(0, a).to_string()
}

/// First position `i` with `i + 4 < data.len()` where `\r\n\r\n` starts.
pub open spec fn header_end(data: Seq<u8>, from: int) -> Option<int>
    decreases data.len() - from,
{
    if from < 0 || from + 4 >= data.len() {
        None
    } else if data[from] == 13 && data[from + 1] == 10 && data[from + 2] == 13 && data[from + 3] == 10 {
        Some(from)
    } else {
        header_end(data, from + 1)
    }
}

/// Where the header of an HTTP response ends: the first blank-line marker
/// `\r\n\r\n` that does not reach the last byte.
pub fn find_header_end(data: &[u8]) -> (r: Option<usize>)
    ensures
        r matches Some(i) ==> header_end(data@, 0) == Some(i as int),
        r is None ==> header_end(data@, 0) is None,
{
    let n = data.len();
    let lim = if n >= 4 { n - 4 } else { 0 };
    let mut i: usize = 0;
    while i < lim
        invariant
            n == data@.len(),
            lim == (if n >= 4 { n - 4 } else { 0 }),
            i <= lim,
            header_end(data@, 0) == header_end(data@, i as int),
        decreases lim - i,
    {
        if data[i] == 13 && data[i + 1] == 10 && data[i + 2] == 13 && data[i + 3] == 10 {
            return Some(i);
        }
        i = i + 1;
    }
    None
}


/// Position of the first byte at or after `from` for which the line ends
/// (`\r` or `\n` when `cr` holds, else `\n` only), or `s.len()`.
pub open spec fn line_end(s: Seq<u8>, from: int, cr: bool) -> int
    decreases s.len() - from,
{
    if from < 0 || from >= s.len() {
        s.len() as int
    } else if s[from] == 10 || (cr && s[from] == 13) {
        from
    } else {
        line_end(s, from + 1, cr)
    }
}

/// Position of the first byte `b` of `s` at or after `from` and before `to`, or `to`.
pub open spec fn find_byte(s: Seq<u8>, b: u8, from: int, to: int) -> int
    decreases to - from,
{
    if from < 0 || from >= to {
        to
    } else if s[from] == b {
        from
    } else {
        find_byte(s, b, from + 1, to)
    }
}

pub proof fn lemma_line_end(s: Seq<u8>, from: int, cr: bool)
    requires
        0 <= from <= s.len(),
    ensures
        from <= line_end(s, from, cr) <= s.len(),
    decreases s.len() - from,
{
    if from < s.len() && !(s[from] == 10 || (cr && s[from] == 13)) {
        lemma_line_end(s, from + 1, cr);
    }
}

proof fn lemma_find_byte(s: Seq<u8>, b: u8, from: int, to: int)
    requires
        0 <= from <= to,
    ensures
        from <= find_byte(s, b, from, to) <= to,
    decreases to - from,
{
    if from < to && s[from] != b {
        lemma_find_byte(s, b, from + 1, to);
    }
}

fn line_end_exec(s: &[u8], from: usize, cr: bool) -> (r: usize)
    requires
        from <= s@.len(),
    ensures
        r == line_end(s@, from as int, cr),
        from <= r <= s@.len(),
{
    let n = s.len();
    let mut i = from;
    while i < n && !(s[i] == 10 || (cr && s[i] == 13))
        invariant
            n == s@.len(),
            from <= i <= n,
            line_end(s@, from as int, cr) == line_end(s@, i as int, cr),
        decreases n - i,
    {
        i = i + 1;
    }
    i
}

fn find_byte_exec(s: &[u8], b: u8, from: usize, to: usize) -> (r: usize)
    requires
        from <= to <= s@.len(),
    ensures
        r == find_byte(s@, b, from as int, to as int),
        from <= r <= to,
{
    let mut i = from;
    while i < to && s[i] != b
        invariant
            from <= i <= to,
            to <= s@.len(),
            find_byte(s@, b, from as int, to as int) == find_byte(s@, b, i as int, to as int),
        decreases to - i,
    {
        i = i + 1;
    }
    i
}

/// The status code of a response header: the second space-separated word of
/// its first line, read as a `u32` when it is UTF-8 and a number, else 0.
pub open spec fn status_code(header: Seq<u8>) -> u32 {
    let le = line_end(header, 0, true);
    let sp1 = find_byte(header, 32, 0, le);
    if sp1 >= le {
        0
    } else {
        let sp2 = find_byte(header, 32, sp1 + 1, le);
        let word = header.subrange(sp1 + 1, sp2);
        if !valid_utf8(word) {
            0
        } else {
            match parse_uint(ascii_bytes(decode_utf8(word)), u32::MAX as int) {
                Ok(v) => v as u32,
                Err(_) => 0,
            }
        }
    }
}

/// Reads the status code from a response header.
pub fn parse_status(header: &[u8]) -> (r: u32)
    ensures
        r == status_code(header@),
{
    let le = line_end_exec(header, 0, true);
    let sp1 = find_byte_exec(header, 32, 0, le);
    if sp1 >= le {
        return 0;
    }
    let sp2 = find_byte_exec(header, 32, sp1 + 1, le);
    let word = slice_bytes(header, sp1 + 1, sp2);
    match utf8_decode(word.as_slice()) {
        None => 0,
        Some(s) => match parse_uint_str(s, u32::MAX as u64) {
            Ok(v) => v as u32,
            Err(_) => 0,
        },
    }
}

/// A copy of `s[a..b]`.
pub fn slice_bytes(s: &[u8], a: usize, b: usize) -> (r: Vec<u8>)
    requires
        a <= b <= s@.len(),
    ensures
        r@ == s@.subrange(a as int, b as int),
{
    let mut r: Vec<u8> = Vec::new();
    let mut i = a;
    while i < b
        invariant
            a <= i <= b,
            b <= s@.len(),
            r@ == s@.subrange(a as int, i as int),
        decreases b - i,
    {
        r.push(s[i]);
        i = i + 1;
        proof {
            assert(r@ =~= s@.subrange(a as int, i as int));
        }
    }
    r
}

/// The `Content-Length` of a header, looking at its `\n`-separated lines from
/// the one starting at `start` on: the first line (less a trailing `\r`) that
/// is UTF-8 and whose lower-case form starts with `content-length:` decides,
/// with the rest of it, trimmed, read as a `usize` (`None` if it is not one).
pub open spec fn content_length_from(h: Seq<u8>, start: int) -> Option<usize>
    decreases h.len() - start,
{
    if start < 0 || start > h.len() {
        None
    } else {
        let e = line_end(h, start, false);
        let raw = h.subrange(start, e);
        let line = if raw.len() > 0 && raw.last() == 13 {
            raw.drop_last()
        } else {
            raw
        };
        let key = "content-length:"@;
        if valid_utf8(line) && key.is_prefix_of(lowercase(decode_utf8(line))) {
            let lower = lowercase(decode_utf8(line));
            match parse_uint(ascii_bytes(trimmed(lower.subrange(key.len() as int, lower.len() as int))), usize::MAX as int) {
                Ok(v) => Some(v as usize),
                Err(_) => None,
            }
        } else if e >= h.len() {
            None
        } else {
            proof {
                lemma_line_end(h, start, false);
            }
            content_length_from(h, e + 1)
        }
    }
}

/// Reads the `Content-Length` field of a response header.
pub fn parse_content_length(header: &[u8]) -> (r: Option<usize>)
    ensures
        r == content_length_from(header@, 0),
{
    proof {
        reveal_strlit("content-length:");
    }
    let n = header.len();
    let mut start: usize = 0;
    loop
        invariant
            n == header@.len(),
            start <= n,
            content_length_from(header@, 0) == content_length_from(header@, start as int),
        decreases n - start,
    {
        let e = line_end_exec(header, start, false);
        let mut raw = slice_bytes(header, start, e);
        let rl = raw.len();
        if rl > 0 && raw[rl - 1] == 13 {
            raw.pop();
            proof {
                assert(raw@ =~= header@.subrange(start as int, e as int).drop_last());
            }
        }
        match utf8_decode(raw.as_slice()) {
            Some(s) => {
                let lower = to_lowercase(s);
                match strip_prefix(lower.as_str(), "content-length:") {
                    Some(rest) => {
                        let v = trim(rest);
                        return match parse_uint_str(v, usize::MAX as u64) {
                            Ok(x) => Some(x as usize),
                            Err(_) => None,
                        };
                    },
                    None => {},
                }
            },
            None => {},
        }
        if e >= n {
            return None;
        }
        start = e + 1;
    }
}

/// Why a response carries no usable body.
#[derive(Debug, Clone, Copy, PartialEq, Eq, Structural)]
pub enum HttpError {
    /// No end of header was found.
    Incomplete,
    /// The status was neither 200 nor 206.
    Status(u32),
}

/// The body of a complete response: what follows the header, cut to the
/// `Content-Length` when there is one.
pub open spec fn response_body(resp: Seq<u8>) -> Result<Seq<u8>, HttpError> {
    match header_end(resp, 0) {
        None => Err(HttpError::Incomplete),
        Some(he) => {
            let head = resp.subrange(0, he);
            let st = status_code(head);
            let start = he + 4;
            if st != 200 && st != 206 {
                Err(HttpError::Status(st))
            } else {
                match content_length_from(head, 0) {
                    Some(cl) => Ok(
                        resp.subrange(start, if start + cl < resp.len() { start + cl } else { resp.len() as int }),
                    ),
                    None => Ok(resp.subrange(start, resp.len() as int)),
                }
            }
        },
    }
}

/// Takes the body out of a downloaded response.
pub fn http_body(resp: &[u8]) -> (r: Result<Vec<u8>, HttpError>)
    requires
        header_end(resp@, 0) matches Some(he) ==> (content_length_from(resp@.subrange(0, he), 0) matches Some(
            cl) ==> he + 4 + cl <= usize::MAX),
    ensures
        match response_body(resp@) {
            Ok(b) => r matches Ok(v) && v@ == b,
            Err(e) => r == Err::<Vec<u8>, HttpError>(e),
        },
{
    let he = match find_header_end(resp) {
        None => {
            return Err(HttpError::Incomplete);
        },
        Some(he) => he,
    };
    proof {
        lemma_header_end(resp@, 0);
        assert(header_end(resp@, 0) == Some(he as int));
        assert(he + 4 < resp@.len());
    }
    let head = slice_bytes(resp, 0, he);
    let status = parse_status(head.as_slice());
    if status != 200 && status != 206 {
        return Err(HttpError::Status(status));
    }
    let n = resp.len();
    let start = he + 4;
    match parse_content_length(head.as_slice()) {
        Some(cl) => {
            let end = if start + cl < n { start + cl } else { n };
            Ok(slice_bytes(resp, start, end))
        },
        None => Ok(slice_bytes(resp, start, n)),
    }
}

proof fn lemma_header_end(data: Seq<u8>, from: int)
    requires
        0 <= from,
    ensures
        header_end(data, from) matches Some(i) ==> from <= i && i + 4 < data.len(),
    decreases data.len() - from,
{
    if from + 4 < data.len() {
        lemma_header_end(data, from + 1);
    }
}

} // verus!
