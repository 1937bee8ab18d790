//! Line-oriented readers for the text model files: a header line
//! `<key> <a> <b>` or `<key> <n>` followed by `n` value lines.

use vstd::prelude::*;
use crate::text::{
    IntErrorKind, parse_uint, parse_uint_str, int_result, trim, trimmed, strip_prefix, word_at,
    nth_word, ascii_bytes,
};
use crate::tracker::{parse_i32, parse_i32_str};

verus! {

/// A decimal `usize`, or 0 when the text does not parse.
pub open spec fn usize_or_zero(s: Seq<char>) -> int {
    match parse_uint(ascii_bytes(s), usize::MAX as int) {
        Ok(v) => v,
        Err(_) => 0,
    }
}

/// What follows `key` in the trimmed line, trimmed again; empty when the
/// line does not start with `key`.
pub open spec fn after_key(line: Seq<char>, key: Seq<char>) -> Seq<char> {
    let t = trimmed(line);
    if key.is_prefix_of(t) {
        trimmed(t.subrange(key.len() as int, t.len() as int))
    } else {
        Seq::empty()
    }
}

/// Field `k` of a header line `<key> <a> <b>`: the `k`-th word after the key,
/// read as a `usize`, or 0 when missing or unreadable.
pub open spec fn header_field(line: Seq<char>, key: Seq<char>, k: nat) -> int {
    match nth_word(after_key(line, key), 0, k) {
        Some(w) => usize_or_zero(w),
        None => 0,
    }
}

/// The next line of a line cursor, or the empty line once the lines run out.
pub open spec fn line_or_empty(lines: Seq<String>, pos: int) -> Seq<char> {
    if 0 <= pos < lines.len() {
        lines[pos]@
    } else {
        Seq::empty()
    }
}

fn after_key_exec<'a>(line: &'a str, key: &str) -> (r: &'a str)
    ensures
        r@ == after_key(line@, key@),
{
    let t = trim(line);
    match strip_prefix(t, key) {
        Some(rest) => trim(rest),
        None => {
            let e = t.substring_char(0, 0);
            proof {
                assert(e@ =~= Seq::<char>::empty());
            }
            e
        },
    }
}

fn usize_or_zero_exec(s: &str) -> (r: usize)
    ensures
        r == usize_or_zero(s@),
{
    match parse_uint_str(s, usize::MAX as u64) {
        Ok(v) => v as usize,
        Err(_) => 0,
    }
}

/// Reads a header line `<key> <a> <b>` at the cursor and advances it;
/// missing or unreadable numbers read as 0.
pub fn parse_header(lines: &[String], pos: &mut usize, key: &str) -> (r: (usize, usize))
    requires
        *old(pos) <= lines@.len(),
    ensures
        *final(pos) == if *old(pos) < lines@.len() { *old(pos) + 1 } else { *old(pos) as int },
        r.0 == header_field(line_or_empty(lines@, *old(pos) as int), key@, 0),
        r.1 == header_field(line_or_empty(lines@, *old(pos) as int), key@, 1),
{
    let empty = String::new();
    let line: &str = if *pos < lines.len() {
        let l = lines[*pos].as_str();
        *pos = *pos + 1;
        l
    } else {
        empty.as_str()
    };
    let rest = after_key_exec(line, key);
    let x = match word_at(rest, 0) {
        Some(w) => usize_or_zero_exec(w),
        None => 0,
    };
    let y = match word_at(rest, 1) {
        Some(w) => usize_or_zero_exec(w),
        None => 0,
    };
    (x, y)
}

/// Why a list could not be read.
#[derive(Debug, Clone, Copy, PartialEq, Eq, Structural)]
pub enum ListError {
    /// No header line at the cursor.
    MissingHeader,
    /// Fewer value lines than the header announces.
    Truncated,
}

/// Count announced by a header line `<key> <n>`; 0 when unreadable.
pub open spec fn list_len(line: Seq<char>, key: Seq<char>) -> int {
    usize_or_zero(after_key(line, key))
}

/// Reads the header line `<key> <n>` of a list at the cursor and advances
/// past it, giving `n` (0 when unreadable).
pub fn parse_list_header(lines: &[String], pos: &mut usize, key: &str) -> (r: Result<usize, ListError>)
    requires
        *old(pos) <= lines@.len(),
    ensures
        *old(pos) == lines@.len() ==> r == Err::<usize, ListError>(ListError::MissingHeader)
            && *final(pos) == *old(pos),
        *old(pos) < lines@.len() ==> r == Ok::<usize, ListError>(
            list_len(lines@[*old(pos) as int]@, key@) as usize,
        ) && *final(pos) == *old(pos) + 1,
{
    if *pos >= lines.len() {
        return Err(ListError::MissingHeader);
    }
    let header = lines[*pos].as_str();
    *pos = *pos + 1;
    Ok(usize_or_zero_exec(after_key_exec(header, key)))
}

/// Reads `<key> <n>` and then `n` lines, each a trimmed `usize` (0 when
/// unreadable).
pub fn parse_list_usize(lines: &[String], pos: &mut usize, key: &str) -> (r: Result<Vec<usize>, ListError>)
    requires
        *old(pos) <= lines@.len(),
    ensures
        *old(pos) == lines@.len() ==> r == Err::<Vec<usize>, ListError>(ListError::MissingHeader),
        *old(pos) < lines@.len() ==> {
            let n = list_len(lines@[*old(pos) as int]@, key@);
            &&& (*old(pos) + 1 + n <= lines@.len()) == (r is Ok)
            &&& (r is Ok ==> *final(pos) == *old(pos) + 1 + n)
            &&& (r is Err ==> r == Err::<Vec<usize>, ListError>(ListError::Truncated) && *final(pos)
                == lines@.len())
            &&& (r matches Ok(v) ==> v@.len() == n && forall|k: int|
                0 <= k < n ==> #[trigger] v@[k] == usize_or_zero(trimmed(lines@[*old(pos) + 1 + k]@)))
        },
{
    if *pos >= lines.len() {
        return Err(ListError::MissingHeader);
    }
    let header = lines[*pos].as_str();
    *pos = *pos + 1;
    let n = usize_or_zero_exec(after_key_exec(header, key));
    let ghost p0 = *pos;
    let mut out: Vec<usize> = Vec::new();
    let mut k: usize = 0;
    while k < n
        invariant
            p0 == *old(pos) + 1,
            *old(pos) < lines@.len(),
            n == list_len(lines@[*old(pos) as int]@, key@),
            p0 <= lines@.len(),
            *pos == p0 + k,
            *pos <= lines@.len(),
            k <= n,
            out@.len() == k,
            forall|kk: int| 0 <= kk < k ==> #[trigger] out@[kk] == usize_or_zero(trimmed(lines@[p0 + kk]@)),
        decreases n - k,
    {
        if *pos >= lines.len() {
            return Err(ListError::Truncated);
        }
        let l = trim(lines[*pos].as_str());
        *pos = *pos + 1;
        out.push(usize_or_zero_exec(l));
        k = k + 1;
    }
    Ok(out)
}

/// Reads `<key> <n>` and then `n` raw lines; missing lines read as empty.
pub fn parse_list_str(lines: &[String], pos: &mut usize, key: &str) -> (r: Result<Vec<String>, ListError>)
    requires
        *old(pos) <= lines@.len(),
    ensures
        *old(pos) == lines@.len() ==> r == Err::<Vec<String>, ListError>(ListError::MissingHeader),
        *old(pos) < lines@.len() ==> {
            let n = list_len(lines@[*old(pos) as int]@, key@);
            &&& r matches Ok(v)
            &&& v@.len() == n
            &&& forall|k: int| 0 <= k < n ==> #[trigger] v@[k]@ == line_or_empty(lines@, *old(pos) + 1 + k)
            &&& *final(pos) == if *old(pos) + 1 + n <= lines@.len() { *old(pos) + 1 + n } else { lines@.len() as int }
        },
{
    if *pos >= lines.len() {
        return Err(ListError::MissingHeader);
    }
    let header = lines[*pos].as_str();
    *pos = *pos + 1;
    let n = usize_or_zero_exec(after_key_exec(header, key));
    let ghost p0 = *pos;
    let mut out: Vec<String> = Vec::new();
    let mut k: usize = 0;
    while k < n
        invariant
            p0 == *old(pos) + 1,
            *old(pos) < lines@.len(),
            n == list_len(lines@[*old(pos) as int]@, key@),
            p0 <= lines@.len(),
            *pos == if p0 + k <= lines@.len() { p0 + k } else { lines@.len() as int },
            k <= n,
            out@.len() == k,
            forall|kk: int| 0 <= kk < k ==> #[trigger] out@[kk]@ == line_or_empty(lines@, p0 + kk),
        decreases n - k,
    {
        if *pos < lines.len() {
            let s = lines[*pos].clone();
            *pos = *pos + 1;
            out.push(s);
        } else {
            out.push(String::new());
        }
        k = k + 1;
    }
    Ok(out)
}

/// Word `k` of `s` read as a `usize`, or `d` when missing or unreadable.
pub open spec fn word_usize_or(s: Seq<char>, k: nat, d: int) -> int {
    match nth_word(s, 0, k) {
        Some(w) => match parse_uint(ascii_bytes(w), usize::MAX as int) {
            Ok(v) => v,
            Err(_) => d,
        },
        None => d,
    }
}

/// Word `k` of `s` read as an `i32`, or `d` when missing or unreadable.
pub open spec fn word_i32_or(s: Seq<char>, k: nat, d: int) -> int {
    match nth_word(s, 0, k) {
        Some(w) => match parse_i32(ascii_bytes(w)) {
            Some(v) => v,
            None => d,
        },
        None => d,
    }
}

/// The parameters line of an LBPH model, `params <grid_x> <grid_y>
/// <radius> <neighbors>`: each missing or unreadable value takes its
/// default (8, 8, 1, 8); `None` when the line does not start with `params `.
pub fn lbph_params(line: &str) -> (r: Option<(usize, usize, i32, i32)>)
    ensures
        !"params "@.is_prefix_of(line@) ==> r is None,
        "params "@.is_prefix_of(line@) ==> {
            let rest = line@.subrange(7, line@.len() as int);
            r matches Some(p) && p.0 == word_usize_or(rest, 0, 8) && p.1 == word_usize_or(rest, 1, 8)
                && p.2 == word_i32_or(rest, 2, 1) && p.3 == word_i32_or(rest, 3, 8)
        },
{
    proof {
        reveal_strlit("params ");
    }
    let rest = match strip_prefix(line, "params ") {
        None => {
            return None;
        },
        Some(r) => r,
    };
    let gx = match word_at(rest, 0) {
        Some(w) => match parse_uint_str(w, usize::MAX as u64) {
            Ok(v) => v as usize,
            Err(_) => 8,
        },
        None => 8,
    };
    let gy = match word_at(rest, 1) {
        Some(w) => match parse_uint_str(w, usize::MAX as u64) {
            Ok(v) => v as usize,
            Err(_) => 8,
        },
        None => 8,
    };
    let radius = match word_at(rest, 2) {
        Some(w) => match parse_i32_str(w) {
            Some(v) => v,
            None => 1,
        },
        None => 1,
    };
    let neighbors = match word_at(rest, 3) {
        Some(w) => match parse_i32_str(w) {
            Some(v) => v,
            None => 8,
        },
        None => 8,
    };
    Some((gx, gy, radius, neighbors))
}

} // verus!
