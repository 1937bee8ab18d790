//! Byte-level text helpers shared by the codecs and parsers: ASCII whitespace,
//! unsigned decimal parsing with the rules of Rust's `from_str` for unsigned
//! integers, decimal rendering, and UTF-8 validity.

use vstd::prelude::*;
use vstd::string::StringExecFns;
use vstd::utf8::{valid_utf8, decode_utf8, partial_valid_utf8, partial_valid_utf8_extend_ascii_block, is_leading_byte_width_1};

verus! {

/// ASCII whitespace as `u8::is_ascii_whitespace` defines it: space, tab,
/// line feed, form feed and carriage return.
pub open spec fn is_ascii_ws(b: u8) -> bool {
    b == 0x20u8 || b == 0x09u8 || b == 0x0Au8 || b == 0x0Cu8 || b == 0x0Du8
}

pub fn ascii_ws(b: u8) -> (r: bool)
    ensures
        r == is_ascii_ws(b),
{
    b == 0x20u8 || b == 0x09u8 || b == 0x0Au8 || b == 0x0Cu8 || b == 0x0Du8
}

/// Why a decimal token was rejected, in the order Rust reports it.
#[derive(Debug, Clone, Copy, PartialEq, Eq, Structural)]
pub enum IntErrorKind {
    Empty,
    InvalidDigit,
    PosOverflow,
}

pub open spec fn is_digit(b: u8) -> bool {
    48u8 <= b <= 57u8
}

/// Digit-by-digit reading from the left: the first offending byte decides the
/// error; a value above `max` is an overflow.
pub open spec fn parse_digits(t: Seq<u8>, max: int) -> Result<int, IntErrorKind>
    decreases t.len(),
{
    if t.len() == 0 {
        Ok(0)
    } else {
        match parse_digits(t.drop_last(), max) {
            Err(e) => Err(e),
            Ok(v) => {
                if !is_digit(t.last()) {
                    Err(IntErrorKind::InvalidDigit)
                } else if v * 10 + (t.last() - 48) > max {
                    Err(IntErrorKind::PosOverflow)
                } else {
                    Ok(v * 10 + (t.last() - 48))
                }
            },
        }
    }
}

/// Unsigned decimal parsing: an optional leading `+`, then at least one digit.
pub open spec fn parse_uint(t: Seq<u8>, max: int) -> Result<int, IntErrorKind> {
    if t.len() == 0 {
        Err(IntErrorKind::Empty)
    } else if (t[0] == 43u8 || t[0] == 45u8) && t.len() == 1 {
        Err(IntErrorKind::InvalidDigit)
    } else if t[0] == 43u8 {
        parse_digits(t.subrange(1, t.len() as int), max)
    } else {
        parse_digits(t, max)
    }
}

pub open spec fn int_result(r: Result<u64, IntErrorKind>) -> Result<int, IntErrorKind> {
    match r {
        Ok(v) => Ok(v as int),
        Err(e) => Err(e),
    }
}

/// Once a prefix fails, the whole sequence fails the same way.
pub proof fn lemma_parse_digits_prefix_err(t: Seq<u8>, j: int, max: int)
    requires
        0 <= j <= t.len(),
        parse_digits(t.subrange(0, j), max) is Err,
    ensures
        parse_digits(t, max) == parse_digits(t.subrange(0, j), max),
    decreases t.len(),
{
    if j == t.len() {
        assert(t.subrange(0, j) =~= t);
    } else {
        assert(t.drop_last().subrange(0, j) =~= t.subrange(0, j));
        lemma_parse_digits_prefix_err(t.drop_last(), j, max);
    }
}

/// A successful parse never exceeds `max`.
pub proof fn lemma_parse_digits_bound(t: Seq<u8>, max: int)
    requires
        max >= 0,
    ensures
        parse_digits(t, max) matches Ok(v) ==> 0 <= v <= max,
    decreases t.len(),
{
    if t.len() > 0 {
        lemma_parse_digits_bound(t.drop_last(), max);
    }
}

/// Parses `t[start..]` digit by digit with overflow detection above `max`.
fn parse_digit_run(t: &[u8], start: usize, max: u64) -> (r: Result<u64, IntErrorKind>)
    requires
        start <= t@.len(),
    ensures
        int_result(r) == parse_digits(t@.subrange(start as int, t@.len() as int), max as int),
{
    let n = t.len();
    let mut acc: u64 = 0;
    let mut i = start;
    assert(t@.subrange(start as int, start as int) =~= Seq::<u8>::empty());
    while i < n
        invariant
            start <= i <= n,
            n == t@.len(),
            acc <= max,
            parse_digits(t@.subrange(start as int, i as int), max as int) == Ok::<int, IntErrorKind>(acc as int),
        decreases n - i,
    {
        let ghost s = t@.subrange(start as int, n as int);
        assert(t@.subrange(start as int, i + 1).drop_last() =~= t@.subrange(start as int, i as int));
        assert(s.subrange(0, i + 1 - start) =~= t@.subrange(start as int, i + 1));
        let b = t[i];
        if !(b >= 48u8 && b <= 57u8) {
            proof {
                lemma_parse_digits_prefix_err(s, i + 1 - start, max as int);
            }
            return Err(IntErrorKind::InvalidDigit);
        }
        let d = (b - 48u8) as u64;
        if (acc as u128) * 10 + (d as u128) > max as u128 {
            proof {
                lemma_parse_digits_prefix_err(s, i + 1 - start, max as int);
            }
            return Err(IntErrorKind::PosOverflow);
        }
        acc = acc * 10 + d;
        i = i + 1;
    }
    Ok(acc)
}

/// Parses an unsigned decimal token with the rules of Rust's `from_str`,
/// rejecting values above `max`.
pub fn parse_uint_bytes(t: &[u8], max: u64) -> (r: Result<u64, IntErrorKind>)
    ensures
        int_result(r) == parse_uint(t@, max as int),
        r matches Ok(v) ==> v <= max,
{
    let n = t.len();
    if n == 0 {
        return Err(IntErrorKind::Empty);
    }
    if (t[0] == 43u8 || t[0] == 45u8) && n == 1 {
        return Err(IntErrorKind::InvalidDigit);
    }
    let start: usize = if t[0] == 43u8 { 1 } else { 0 };
    assert(t@.subrange(0, n as int) =~= t@);
    let r = parse_digit_run(t, start, max);
    proof {
        lemma_parse_digits_bound(t@.subrange(start as int, n as int), max as int);
    }
    r
}

/// Decimal rendering without leading zeros.
pub open spec fn dec_digits(n: nat) -> Seq<u8>
    decreases n,
{
    if n < 10 {
        seq![(n + 48) as u8]
    } else {
        dec_digits(n / 10).push((n % 10 + 48) as u8)
    }
}

/// Appends the decimal digits of `n`.
pub fn push_decimal(out: &mut Vec<u8>, n: u64)
    ensures
        final(out)@ == old(out)@ + dec_digits(n as nat),
    decreases n,
{
    if n >= 10 {
        push_decimal(out, n / 10);
    }
    out.push((n % 10 + 48) as u8);
    proof {
        assert(final(out)@ =~= old(out)@ + dec_digits(n as nat));
    }
}

pub proof fn lemma_dec_digits_shape(n: nat)
    ensures
        dec_digits(n).len() >= 1,
        forall|j: int| 0 <= j < dec_digits(n).len() ==> #[trigger] is_digit(dec_digits(n)[j]),
    decreases n,
{
    if n >= 10 {
        lemma_dec_digits_shape(n / 10);
        assert forall|j: int| 0 <= j < dec_digits(n).len() implies #[trigger] is_digit(dec_digits(n)[j]) by {
            if j < dec_digits(n / 10).len() {
                assert(dec_digits(n)[j] == dec_digits(n / 10)[j]);
            }
        }
    }
}

/// Rendering then parsing gives the number back.
#[verifier::spinoff_prover]
pub proof fn lemma_dec_digits_parse(n: nat, max: int)
    requires
        n <= max,
    ensures
        parse_digits(dec_digits(n), max) == Ok::<int, IntErrorKind>(n as int),
        parse_uint(dec_digits(n), max) == Ok::<int, IntErrorKind>(n as int),
    decreases n,
{
    if n < 10 {
        let s = dec_digits(n);
        assert(s.drop_last() =~= Seq::<u8>::empty());
    } else {
        lemma_dec_digits_parse(n / 10, max);
        let s = dec_digits(n);
        assert(s.drop_last() =~= dec_digits(n / 10));
    }
    lemma_dec_digits_shape(n);
    assert(is_digit(dec_digits(n)[0]));
}

/// Sequences of ASCII bytes are valid UTF-8.
pub proof fn lemma_ascii_valid_utf8(s: Seq<u8>)
    requires
        forall|j: int| 0 <= j < s.len() ==> s[j] < 128u8,
    ensures
        valid_utf8(s),
{
    assert(s.subrange(0, 0) =~= Seq::<u8>::empty());
    assert(valid_utf8(Seq::<u8>::empty()));
    assert(partial_valid_utf8(s, 0));
    assert forall|i: int| 0 <= 0 <= i < s.len() <= s.len() implies #[trigger] is_leading_byte_width_1(s[i]) by {
        assert(s[i] < 128u8);
    }
    partial_valid_utf8_extend_ascii_block(s, 0, s.len() as int);
    assert(s.subrange(0, s.len() as int) =~= s);
}

/// `std::str::from_utf8`: the text `bytes` encode when they are valid UTF-8.
#[verifier::external_body]
pub(crate) fn utf8_decode(bytes: &[u8]) -> (r: Option<&str>)
    ensures
        r is Some <==> valid_utf8(bytes@),
        r matches Some(s) ==> s@ == decode_utf8(bytes@),
{
    match std::str::from_utf8(bytes) {
        Ok(s) => Some(s),
        Err(_) => None,
    }
}

/// Whether `bytes` is valid UTF-8.
pub fn utf8_valid(bytes: &[u8]) -> (r: bool)
    ensures
        r == valid_utf8(bytes@),
{
    utf8_decode(bytes).is_some()
}

// ---------------------------------------------------------------------------
// Character-level helpers for `&str`

/// Unicode `White_Space`, the set `char::is_whitespace` tests.
pub open spec fn is_uws(c: char) -> bool {
    let u = c as u32;
    (9 <= u <= 13) || u == 32 || u == 0x85 || u == 0xA0 || u == 0x1680 || (0x2000 <= u <= 0x200A)
        || u == 0x2028 || u == 0x2029 || u == 0x202F || u == 0x205F || u == 0x3000
}

pub fn uws(c: char) -> (r: bool)
    ensures
        r == is_uws(c),
{
    let u = c as u32;
    (9 <= u && u <= 13) || u == 32 || u == 0x85 || u == 0xA0 || u == 0x1680 || (0x2000 <= u && u
        <= 0x200A) || u == 0x2028 || u == 0x2029 || u == 0x202F || u == 0x205F || u == 0x3000
}

/// The characters of `s`.
pub fn chars_of(s: &str) -> (v: Vec<char>)
    ensures
        v@ == s@,
{
    broadcast use vstd::string::group_string_axioms;

    let mut v: Vec<char> = Vec::new();
    for c in it: s.chars()
        invariant
            v@ == it.history(),
    {
        v.push(c);
    }
    assert(v@ =~= s@);
    v
}

/// Character-wise equality of two strings.
pub fn str_eq(a: &str, b: &str) -> (r: bool)
    ensures
        r == (a@ == b@),
{
    let ca = chars_of(a);
    let cb = chars_of(b);
    if ca.len() != cb.len() {
        return false;
    }
    let n = ca.len();
    let mut i: usize = 0;
    while i < n
        invariant
            n == ca@.len(),
            n == cb@.len(),
            ca@ == a@,
            cb@ == b@,
            i <= n,
            forall|k: int| 0 <= k < i ==> ca@[k] == cb@[k],
        decreases n - i,
    {
        if ca[i] != cb[i] {
            return false;
        }
        i = i + 1;
    }
    assert(a@ =~= b@);
    true
}

/// First position at or after `i` that is not whitespace (or the end).
pub open spec fn skip_uws(s: Seq<char>, i: int) -> int
    decreases s.len() - i,
{
    if i >= s.len() {
        s.len() as int
    } else if is_uws(s[i]) {
        skip_uws(s, i + 1)
    } else {
        i
    }
}

/// End of the run of non-whitespace characters that starts at `i`.
pub open spec fn word_end(s: Seq<char>, i: int) -> int
    decreases s.len() - i,
{
    if i >= s.len() {
        s.len() as int
    } else if is_uws(s[i]) {
        i
    } else {
        word_end(s, i + 1)
    }
}

/// Position after the last non-whitespace character before `j` (0 if none).
pub open spec fn rskip_uws(s: Seq<char>, j: int) -> int
    decreases j,
{
    if j <= 0 {
        0
    } else if is_uws(s[j - 1]) {
        rskip_uws(s, j - 1)
    } else {
        j
    }
}

/// `s` without leading and trailing whitespace, as `str::trim` gives it.
pub open spec fn trimmed(s: Seq<char>) -> Seq<char> {
    let lo = skip_uws(s, 0);
    let hi = rskip_uws(s, s.len() as int);
    if lo < hi {
        s.subrange(lo, hi)
    } else {
        Seq::empty()
    }
}

/// The `k`-th maximal run of non-whitespace characters at or after `i`, as
/// `str::split_whitespace` yields them.
pub open spec fn nth_word(s: Seq<char>, i: int, k: nat) -> Option<Seq<char>>
    decreases s.len() - i, k,
{
    let st = skip_uws(s, i);
    if i < 0 || st >= s.len() {
        None
    } else {
        let e = word_end(s, st);
        proof {
            lemma_skip_uws_bounds(s, i);
            lemma_word_end_bounds(s, st);
        }
        if k == 0 {
            Some(s.subrange(st, e))
        } else if e <= i {
            None
        } else {
            nth_word(s, e, (k - 1) as nat)
        }
    }
}

pub proof fn lemma_skip_uws_bounds(s: Seq<char>, i: int)
    requires
        0 <= i <= s.len(),
    ensures
        i <= skip_uws(s, i) <= s.len(),
        skip_uws(s, i) < s.len() ==> !is_uws(s[skip_uws(s, i)]),
    decreases s.len() - i,
{
    if i < s.len() && is_uws(s[i]) {
        lemma_skip_uws_bounds(s, i + 1);
    }
}

pub proof fn lemma_word_end_bounds(s: Seq<char>, i: int)
    requires
        0 <= i <= s.len(),
    ensures
        i <= word_end(s, i) <= s.len(),
        i < s.len() && !is_uws(s[i]) ==> i < word_end(s, i),
    decreases s.len() - i,
{
    if i < s.len() && !is_uws(s[i]) {
        lemma_word_end_bounds(s, i + 1);
    }
}

proof fn lemma_rskip_uws_bounds(s: Seq<char>, j: int)
    requires
        0 <= j <= s.len(),
    ensures
        0 <= rskip_uws(s, j) <= j,
        rskip_uws(s, j) > 0 ==> !is_uws(s[rskip_uws(s, j) - 1]),
    decreases j,
{
    if j > 0 && is_uws(s[j - 1]) {
        lemma_rskip_uws_bounds(s, j - 1);
    }
}

fn skip_uws_exec(s: &Vec<char>, i: usize) -> (r: usize)
    requires
        i <= s@.len(),
    ensures
        r == skip_uws(s@, i as int),
{
    let n = s.len();
    let mut j = i;
    while j < n && uws(s[j])
        invariant
            i <= j <= n,
            n == s@.len(),
            skip_uws(s@, i as int) == skip_uws(s@, j as int),
        decreases n - j,
    {
        j = j + 1;
    }
    j
}

fn word_end_exec(s: &Vec<char>, i: usize) -> (r: usize)
    requires
        i <= s@.len(),
    ensures
        r == word_end(s@, i as int),
{
    let n = s.len();
    let mut j = i;
    while j < n && !uws(s[j])
        invariant
            i <= j <= n,
            n == s@.len(),
            word_end(s@, i as int) == word_end(s@, j as int),
        decreases n - j,
    {
        j = j + 1;
    }
    j
}

/// `s` without leading and trailing whitespace.
pub fn trim(s: &str) -> (r: &str)
    ensures
        r@ == trimmed(s@),
{
    let cs = chars_of(s);
    let n = cs.len();
    let lo = skip_uws_exec(&cs, 0);
    let mut hi = n;
    while hi > 0 && uws(cs[hi - 1])
        invariant
            hi <= n,
            n == cs@.len(),
            cs@ == s@,
            rskip_uws(s@, n as int) == rskip_uws(s@, hi as int),
        decreases hi,
    {
        hi = hi - 1;
    }
    proof {
        lemma_skip_uws_bounds(s@, 0);
        lemma_rskip_uws_bounds(s@, n as int);
    }
    if lo < hi {
        s.substring_char(lo, hi)
    } else {
        let e = s.substring_char(0, 0);
        proof {
            assert(e@ =~= Seq::<char>::empty());
        }
        e
    }
}

/// `s` after `key` when `s` starts with `key`.
pub fn strip_prefix<'a>(s: &'a str, key: &str) -> (r: Option<&'a str>)
    ensures
        key@.is_prefix_of(s@) ==> (r matches Some(t) && t@ == s@.subrange(key@.len() as int, s@.len() as int)),
        !key@.is_prefix_of(s@) ==> r is None,
{
    let cs = chars_of(s);
    let ck = chars_of(key);
    let n = cs.len();
    let m = ck.len();
    if m > n {
        return None;
    }
    let mut i: usize = 0;
    while i < m
        invariant
            n == s@.len(),
            m == key@.len(),
            m <= n,
            cs@ == s@,
            ck@ == key@,
            i <= m,
            forall|k: int| 0 <= k < i ==> s@[k] == key@[k],
        decreases m - i,
    {
        if cs[i] != ck[i] {
            return None;
        }
        i = i + 1;
    }
    Some(s.substring_char(m, n))
}

/// The `k`-th whitespace-separated word of `s`, if there is one.
pub fn word_at<'a>(s: &'a str, k: usize) -> (r: Option<&'a str>)
    ensures
        match nth_word(s@, 0, k as nat) {
            Some(w) => r matches Some(x) && x@ == w,
            None => r is None,
        },
{
    let cs = chars_of(s);
    let n = cs.len();
    let mut i: usize = 0;
    let mut left = k;
    loop
        invariant
            n == s@.len(),
            cs@ == s@,
            i <= n,
            left <= k,
            nth_word(s@, 0, k as nat) == nth_word(s@, i as int, left as nat),
        decreases n - i, left,
    {
        let st = skip_uws_exec(&cs, i);
        proof {
            lemma_skip_uws_bounds(s@, i as int);
        }
        if st >= n {
            return None;
        }
        let e = word_end_exec(&cs, st);
        proof {
            lemma_word_end_bounds(s@, st as int);
        }
        if left == 0 {
            return Some(s.substring_char(st, e));
        }
        if e <= i {
            return None;
        }
        i = e;
        left = left - 1;
    }
}

/// Each character as one byte: ASCII as itself, anything else as `0xFF`
/// (which is never a digit, sign or whitespace).
pub open spec fn ascii_bytes(s: Seq<char>) -> Seq<u8> {
    Seq::new(s.len(), |i: int| if (s[i] as u32) < 128 { (s[i] as u32) as u8 } else { 0xFFu8 })
}

/// Parses an unsigned decimal string with the rules of Rust's `from_str`,
/// rejecting values above `max`.
pub fn parse_uint_str(s: &str, max: u64) -> (r: Result<u64, IntErrorKind>)
    ensures
        int_result(r) == parse_uint(ascii_bytes(s@), max as int),
        r matches Ok(v) ==> v <= max,
{
    let cs = chars_of(s);
    let n = cs.len();
    let mut bytes: Vec<u8> = Vec::new();
    let mut i: usize = 0;
    while i < n
        invariant
            n == s@.len(),
            cs@ == s@,
            i <= n,
            bytes@ == ascii_bytes(s@).subrange(0, i as int),
        decreases n - i,
    {
        let c = cs[i];
        let u = c as u32;
        let b: u8 = if u < 128 { u as u8 } else { 0xFFu8 };
        proof {
            assert((c as u32) == u);
        }
        bytes.push(b);
        i = i + 1;
        proof {
            assert(bytes@ =~= ascii_bytes(s@).subrange(0, i as int));
        }
    }
    proof {
        assert(bytes@ =~= ascii_bytes(s@));
    }
    parse_uint_bytes(bytes.as_slice(), max)
}

/// Full Unicode lower-case mapping of a string (`str::to_lowercase`).
pub uninterp spec fn lowercase(s: Seq<char>) -> Seq<char>;

/// `str::to_lowercase`: the string with every character replaced by its
/// Unicode lower-case mapping. What that mapping is, is left to std.
#[verifier::external_body]
pub(crate) fn to_lowercase(s: &str) -> (r: String)
    ensures
        r@ == lowercase(s@),
{
    s.to_lowercase()
}

/// An owned copy of `s`.
pub fn string_from(s: &str) -> (r: String)
    ensures
        r@ == s@,
{
    s.to_owned()
}


// ---------------------------------------------------------------------------
// Decimal text

/// The decimal digit character for `d` in `0..10`.
pub open spec fn digit_char(d: int) -> char {
    (48 + d) as char
}

/// Decimal representation of `n` as characters, without leading zeros.
pub open spec fn dec_chars(n: nat) -> Seq<char>
    decreases n,
{
    if n < 10 {
        seq![digit_char(n as int)]
    } else {
        dec_chars(n / 10).push(digit_char((n % 10) as int))
    }
}

/// `n` in decimal, left-padded with zeros to at least `width` characters
/// (what `{:0width$}` prints).
pub open spec fn zero_padded(n: nat, width: nat) -> Seq<char> {
    let d = dec_chars(n);
    if d.len() < width {
        Seq::new((width - d.len()) as nat, |i: int| '0') + d
    } else {
        d
    }
}

/// Appends the decimal digits of `n`.
pub fn push_dec(s: &mut String, n: u64)
    ensures
        final(s)@ == old(s)@ + dec_chars(n as nat),
    decreases n,
{
    if n >= 10 {
        push_dec(s, n / 10);
    }
    let d = (n % 10) as usize;
    let digits = "0123456789";
    proof {
        reveal_strlit("0123456789");
    }
    let piece = digits.substring_char(d, d + 1);
    s.append(piece);
    proof {
        assert(piece@ =~= seq![digit_char(d as int)]);
        if n >= 10 {
            assert(final(s)@ =~= old(s)@ + dec_chars(n as nat));
        } else {
            assert(final(s)@ =~= old(s)@ + dec_chars(n as nat));
        }
    }
}

proof fn lemma_dec_chars_len(n: nat)
    ensures
        1 <= dec_chars(n).len(),
        n < 10 ==> dec_chars(n).len() == 1,
        10 <= n < 100 ==> dec_chars(n).len() == 2,
        100 <= n < 1000 ==> dec_chars(n).len() == 3,
        1000 <= n < 10000 ==> dec_chars(n).len() == 4,
        n >= 10 ==> dec_chars(n).len() == dec_chars(n / 10).len() + 1,
    decreases n,
{
    if n >= 10 {
        lemma_dec_chars_len(n / 10);
    }
}

/// Appends `n` in decimal, zero-padded to `width` characters.
pub fn push_padded(s: &mut String, n: u64, width: usize)
    ensures
        final(s)@ == old(s)@ + zero_padded(n as nat, width as nat),
{
    let mut tmp = String::new();
    push_dec(&mut tmp, n);
    let len = tmp.as_str().unicode_len();
    let mut k = len;
    let zero = "0";
    proof {
        reveal_strlit("0");
        assert(zero@ =~= seq!['0']);
    }
    let ghost s0 = s@;
    while k < width
        invariant
            len == dec_chars(n as nat).len(),
            zero@ == seq!['0'],
            tmp@ == Seq::<char>::empty() + dec_chars(n as nat),
            len <= k <= width || (k == len && width <= len),
            s@ == s0 + Seq::new((k - len) as nat, |i: int| '0'),
        decreases width - k,
    {
        let ghost before = s@;
        s.append(zero);
        k = k + 1;
        proof {
            assert(s@ == before + seq!['0']);
            assert(s@ =~= s0 + Seq::new((k - len) as nat, |i: int| '0'));
        }
    }
    s.append(tmp.as_str());
    proof {
        assert(tmp@ =~= dec_chars(n as nat));
        if len < width {
            assert(s@ =~= s0 + zero_padded(n as nat, width as nat));
        } else {
            assert(Seq::new((k - len) as nat, |i: int| '0') =~= Seq::<char>::empty());
            assert(s@ =~= s0 + zero_padded(n as nat, width as nat));
        }
    }
}

} // verus!
