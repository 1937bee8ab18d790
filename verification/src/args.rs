//! Command-line vocabulary shared by the subcommands.

use vstd::prelude::*;
use crate::text::{lowercase, to_lowercase, str_eq, string_from, chars_of, parse_uint, parse_uint_str, ascii_bytes, int_result, IntErrorKind};

verus! {

/// Face recognition algorithm chosen for `train`.
#[derive(Debug, Clone, Copy, PartialEq, Eq, Structural)]
pub enum Algorithm {
    Eigenfaces,
    Fisherfaces,
    LBPH,
}

/// The algorithm a lower-case name stands for.
pub open spec fn algorithm_named(lower: Seq<char>) -> Option<Algorithm> {
    if lower == "eigenfaces"@ || lower == "eigen"@ || lower == "pca"@ {
        Some(Algorithm::Eigenfaces)
    } else if lower == "fisherfaces"@ || lower == "fisher"@ || lower == "lda"@ {
        Some(Algorithm::Fisherfaces)
    } else if lower == "lbph"@ {
        Some(Algorithm::LBPH)
    } else {
        None
    }
}

impl Algorithm {
    /// Looks up an already lower-cased algorithm name.
    pub fn from_lowercase(lower: &str) -> (r: Option<Self>)
        ensures
            r == algorithm_named(lower@),
    {
        if str_eq(lower, "eigenfaces") || str_eq(lower, "eigen") || str_eq(lower, "pca") {
            Some(Algorithm::Eigenfaces)
        } else if str_eq(lower, "fisherfaces") || str_eq(lower, "fisher") || str_eq(lower, "lda") {
            Some(Algorithm::Fisherfaces)
        } else if str_eq(lower, "lbph") {
            Some(Algorithm::LBPH)
        } else {
            None
        }
    }

    /// Parses an algorithm name case-insensitively (Unicode lower-casing);
    /// an unknown name comes back as the error.
    pub fn from_str(s: &str) -> (r: Result<Self, String>)
        ensures
            match algorithm_named(lowercase(s@)) {
                Some(a) => r == Ok::<Self, String>(a),
                None => r matches Err(e) && e@ == s@,
            },
    {
        let lower = to_lowercase(s);
        match Self::from_lowercase(lower.as_str()) {
            Some(a) => Ok(a),
            None => Err(string_from(s)),
        }
    }
}

/// Takes the value that follows the flag at `*i`, advancing `*i` onto it;
/// fails (holding the flag) when the flag is last.
pub fn take_str(args: &[String], i: &mut usize) -> (r: Result<String, String>)
    requires
        *old(i) < args@.len(),
    ensures
        *old(i) + 1 < args@.len() ==> *final(i) == *old(i) + 1 && r == Ok::<String, String>(
            args@[*old(i) + 1],
        ),
        *old(i) + 1 >= args@.len() ==> *final(i) == *old(i) && r == Err::<String, String>(
            args@[*old(i) as int],
        ),
{
    let n = args.len();
    if n - *i <= 1 {
        return Err(args[*i].clone());
    }
    *i = *i + 1;
    Ok(args[*i].clone())
}


/// Options of the `train` subcommand.
#[derive(Debug)]
pub struct TrainOpts {
    pub dataset: String,
    pub model_out: String,
    pub algorithm: Algorithm,
    pub num_components: usize,
    pub size: (usize, usize),
}

impl Clone for TrainOpts {
    fn clone(&self) -> (o: Self)
        ensures
            o@ == self@,
    {
        Self {
            dataset: self.dataset.clone(),
            model_out: self.model_out.clone(),
            algorithm: self.algorithm,
            num_components: self.num_components,
            size: (self.size.0, self.size.1),
        }
    }
}

impl View for TrainOpts {
    type V = (Seq<char>, Seq<char>, Algorithm, usize, (usize, usize));

    open spec fn view(&self) -> Self::V {
        (self.dataset@, self.model_out@, self.algorithm, self.num_components, self.size)
    }
}

/// Why a command line was rejected; positions index the argument list.
#[derive(Debug, Clone, Copy, PartialEq, Eq, Structural)]
pub enum ArgError {
    /// The flag at this position is the last argument but needs a value.
    MissingValue(usize),
    /// The argument at this position is not a flag of the subcommand.
    UnknownArg(usize),
    /// The value at this position names no algorithm.
    UnknownAlgorithm(usize),
    /// A numeric value failed to parse.
    BadNumber(IntErrorKind),
    /// `train` was given no dataset.
    MissingDataset,
}

/// The contents of an argument list.
pub open spec fn arg_views(args: Seq<String>) -> Seq<Seq<char>> {
    Seq::new(args.len(), |i: int| args[i]@)
}

/// Options `train` starts from: model `face_model.bin`, Eigenfaces, 50
/// components, 92x112 images, no dataset.
pub open spec fn train_defaults() -> (Seq<char>, Seq<char>, Algorithm, usize, (usize, usize)) {
    (Seq::empty(), "face_model.bin"@, Algorithm::Eigenfaces, 50, (92, 112))
}

/// Number of `'x'` characters in `s`.
pub open spec fn count_x(s: Seq<char>) -> int
    decreases s.len(),
{
    if s.len() == 0 {
        0
    } else {
        count_x(s.drop_last()) + if s.last() == 'x' { 1int } else { 0int }
    }
}

/// Position of the first `'x'` in `s` (its length when there is none).
pub open spec fn first_x(s: Seq<char>) -> int
    decreases s.len(),
{
    if s.len() == 0 {
        0
    } else if s[0] == 'x' {
        0
    } else {
        1 + first_x(s.drop_first())
    }
}

/// A `WxH` size value: with exactly one `'x'`, both sides parsed as `usize`
/// (the first failure is the error); otherwise `None`, and the size stays.
pub open spec fn size_value(s: Seq<char>) -> Option<Result<(usize, usize), IntErrorKind>> {
    if count_x(s) != 1 {
        None
    } else {
        let p = first_x(s);
        match parse_uint(ascii_bytes(s.subrange(0, p)), usize::MAX as int) {
            Err(e) => Some(Err(e)),
            Ok(w) => match parse_uint(ascii_bytes(s.subrange(p + 1, s.len() as int)), usize::MAX as int) {
                Err(e) => Some(Err(e)),
                Ok(h) => Some(Ok((w as usize, h as usize))),
            },
        }
    }
}

/// Scans the `train` flags from position `i` on with options `st`: the options
/// at the end, `None` when help was asked for, or the first error.
pub open spec fn train_scan(
    args: Seq<Seq<char>>,
    i: int,
    st: (Seq<char>, Seq<char>, Algorithm, usize, (usize, usize)),
) -> Result<Option<(Seq<char>, Seq<char>, Algorithm, usize, (usize, usize))>, ArgError>
    decreases args.len() - i,
{
    if i < 0 || i >= args.len() {
        Ok(Some(st))
    } else {
        let a = args[i];
        let has_value = i + 1 < args.len();
        if a == "--dataset"@ || a == "-d"@ {
            if !has_value {
                Err(ArgError::MissingValue(i as usize))
            } else {
                train_scan(args, i + 2, (args[i + 1], st.1, st.2, st.3, st.4))
            }
        } else if a == "--out"@ || a == "-m"@ || a == "-o"@ {
            if !has_value {
                Err(ArgError::MissingValue(i as usize))
            } else {
                train_scan(args, i + 2, (st.0, args[i + 1], st.2, st.3, st.4))
            }
        } else if a == "--algorithm"@ || a == "-a"@ {
            if !has_value {
                Err(ArgError::MissingValue(i as usize))
            } else {
                match algorithm_named(lowercase(args[i + 1])) {
                    Some(al) => train_scan(args, i + 2, (st.0, st.1, al, st.3, st.4)),
                    None => Err(ArgError::UnknownAlgorithm((i + 1) as usize)),
                }
            }
        } else if a == "--components"@ || a == "-k"@ {
            if !has_value {
                Err(ArgError::MissingValue(i as usize))
            } else {
                match parse_uint(ascii_bytes(args[i + 1]), usize::MAX as int) {
                    Ok(k) => train_scan(args, i + 2, (st.0, st.1, st.2, k as usize, st.4)),
                    Err(e) => Err(ArgError::BadNumber(e)),
                }
            }
        } else if a == "--size"@ {
            if !has_value {
                Err(ArgError::MissingValue(i as usize))
            } else {
                match size_value(args[i + 1]) {
                    None => train_scan(args, i + 2, st),
                    Some(Ok(wh)) => train_scan(args, i + 2, (st.0, st.1, st.2, st.3, wh)),
                    Some(Err(e)) => Err(ArgError::BadNumber(e)),
                }
            }
        } else if a == "--help"@ || a == "-h"@ {
            Ok(None)
        } else {
            Err(ArgError::UnknownArg(i as usize))
        }
    }
}

/// The outcome of parsing `train`'s arguments: the options, `None` for help,
/// or the first error; a missing dataset is an error once all flags are read.
pub open spec fn train_parse(args: Seq<Seq<char>>) -> Result<
    Option<(Seq<char>, Seq<char>, Algorithm, usize, (usize, usize))>,
    ArgError,
> {
    match train_scan(args, 0, train_defaults()) {
        Ok(Some(st)) => if st.0.len() == 0 {
            Err(ArgError::MissingDataset)
        } else {
            Ok(Some(st))
        },
        other => other,
    }
}

/// Parses a `WxH` size value (see `size_value`).
pub fn parse_size(s: &str) -> (r: Option<Result<(usize, usize), IntErrorKind>>)
    ensures
        r == size_value(s@),
{
    let cs = chars_of(s);
    let n = cs.len();
    let mut count: usize = 0;
    let mut pos: usize = n;
    let mut i: usize = 0;
    while i < n
        invariant
            n == s@.len(),
            cs@ == s@,
            i <= n,
            count <= i,
            count == count_x(s@.subrange(0, i as int)),
            count == 0 ==> pos == n,
            count > 0 ==> pos == first_x(s@) && pos < i && s@[pos as int] == 'x',
            count == 0 ==> forall|t: int| 0 <= t < i ==> s@[t] != 'x',
        decreases n - i,
    {
        proof {
            assert(s@.subrange(0, i + 1).drop_last() =~= s@.subrange(0, i as int));
        }
        if cs[i] == 'x' {
            if count == 0 {
                pos = i;
                proof {
                    lemma_first_x(s@, i as int);
                }
            }
            count = count + 1;
        }
        i = i + 1;
    }
    proof {
        assert(s@.subrange(0, n as int) =~= s@);
    }
    if count != 1 {
        return None;
    }
    let w = parse_uint_str(s.substring_char(0, pos), usize::MAX as u64);
    match w {
        Err(e) => Some(Err(e)),
        Ok(wv) => {
            let h = parse_uint_str(s.substring_char(pos + 1, n), usize::MAX as u64);
            match h {
                Err(e) => Some(Err(e)),
                Ok(hv) => Some(Ok((wv as usize, hv as usize))),
            }
        },
    }
}

/// The first `'x'` of `s` is at `p` when `s[p]` is one and none comes before.
proof fn lemma_first_x(s: Seq<char>, p: int)
    requires
        0 <= p < s.len(),
        s[p] == 'x',
        forall|t: int| 0 <= t < p ==> s[t] != 'x',
    ensures
        first_x(s) == p,
    decreases p,
{
    if p > 0 {
        assert forall|t: int| 0 <= t < p - 1 implies s.drop_first()[t] != 'x' by {
            assert(s.drop_first()[t] == s[t + 1]);
        }
        lemma_first_x(s.drop_first(), p - 1);
    }
}

/// Parses the arguments of `train` (after the subcommand): `--dataset`/`-d`,
/// `--out`/`-m`/`-o`, `--algorithm`/`-a`, `--components`/`-k`, `--size WxH`
/// and `--help`/`-h`. `Ok(None)` means help was asked for.
pub fn parse_train(args: &[String]) -> (r: Result<Option<TrainOpts>, ArgError>)
    ensures
        match train_parse(arg_views(args@)) {
            Ok(Some(v)) => r matches Ok(Some(o)) && o@ == v,
            Ok(None) => r matches Ok(None),
            Err(e) => r == Err::<Option<TrainOpts>, ArgError>(e),
        },
{
    let ghost av = arg_views(args@);
    let mut dataset = String::new();
    let mut model_out = string_from("face_model.bin");
    let mut algorithm = Algorithm::Eigenfaces;
    let mut num_components: usize = 50;
    let mut size_w: usize = 92;
    let mut size_h: usize = 112;
    let n = args.len();
    let mut i: usize = 0;
    proof {
        reveal_strlit("face_model.bin");
        assert(dataset@ =~= Seq::<char>::empty());
    }
    while i < n
        invariant
            n == args@.len(),
            av == arg_views(args@),
            i <= n,
            train_scan(av, 0, train_defaults()) == train_scan(
                av,
                i as int,
                (dataset@, model_out@, algorithm, num_components, (size_w, size_h)),
            ),
        decreases n - i,
    {
        let a = args[i].as_str();
        let has_value = n - i > 1;
        proof {
            assert(av[i as int] == a@);
            if has_value {
                assert(av[i + 1] == args@[i + 1]@);
            }
        }
        if str_eq(a, "--dataset") || str_eq(a, "-d") {
            if !has_value {
                return Err(ArgError::MissingValue(i));
            }
            dataset = args[i + 1].clone();
            i = i + 2;
        } else if str_eq(a, "--out") || str_eq(a, "-m") || str_eq(a, "-o") {
            if !has_value {
                return Err(ArgError::MissingValue(i));
            }
            model_out = args[i + 1].clone();
            i = i + 2;
        } else if str_eq(a, "--algorithm") || str_eq(a, "-a") {
            if !has_value {
                return Err(ArgError::MissingValue(i));
            }
            match Algorithm::from_str(args[i + 1].as_str()) {
                Ok(al) => {
                    algorithm = al;
                },
                Err(_) => {
                    return Err(ArgError::UnknownAlgorithm(i + 1));
                },
            }
            i = i + 2;
        } else if str_eq(a, "--components") || str_eq(a, "-k") {
            if !has_value {
                return Err(ArgError::MissingValue(i));
            }
            match parse_uint_str(args[i + 1].as_str(), usize::MAX as u64) {
                Ok(k) => {
                    num_components = k as usize;
                },
                Err(e) => {
                    return Err(ArgError::BadNumber(e));
                },
            }
            i = i + 2;
        } else if str_eq(a, "--size") {
            if !has_value {
                return Err(ArgError::MissingValue(i));
            }
            match parse_size(args[i + 1].as_str()) {
                None => {},
                Some(Ok((sw, sh))) => {
                    size_w = sw;
                    size_h = sh;
                },
                Some(Err(e)) => {
                    return Err(ArgError::BadNumber(e));
                },
            }
            i = i + 2;
        } else if str_eq(a, "--help") || str_eq(a, "-h") {
            return Ok(None);
        } else {
            return Err(ArgError::UnknownArg(i));
        }
    }
    if dataset.as_str().unicode_len() == 0 {
        return Err(ArgError::MissingDataset);
    }
    Ok(Some(TrainOpts { dataset, model_out, algorithm, num_components, size: (size_w, size_h) }))
}

/// `short` is another spelling of the `train` flag `long`.
pub open spec fn train_alias(long: Seq<char>, short: Seq<char>) -> bool {
    ||| long == "--dataset"@ && short == "-d"@
    ||| long == "--out"@ && (short == "-o"@ || short == "-m"@)
    ||| long == "--algorithm"@ && short == "-a"@
    ||| long == "--components"@ && short == "-k"@
    ||| long == "--help"@ && short == "-h"@
}

proof fn lemma_train_scan_from(a1: Seq<Seq<char>>, a2: Seq<Seq<char>>, i: int, st: (Seq<char>, Seq<char>, Algorithm, usize, (usize, usize)))
    requires
        0 <= i,
        a1.len() == a2.len(),
        forall|t: int| i <= t < a1.len() ==> a1[t] == a2[t],
    ensures
        train_scan(a1, i, st) == train_scan(a2, i, st),
    decreases a1.len() - i,
{
    if i < a1.len() {
        assert(a1[i] == a2[i]);
    }
    if i + 1 < a1.len() {
        assert(a1[i + 1] == a2[i + 1]);
        lemma_train_steps_from(a1, a2, i, st);
    }
}

/// The scans of `a1` and `a2` from `i + 2` on agree for each state a flag at `i` may pass on.
proof fn lemma_train_steps_from(a1: Seq<Seq<char>>, a2: Seq<Seq<char>>, i: int, st: (Seq<char>, Seq<char>, Algorithm, usize, (usize, usize)))
    requires
        0 <= i,
        i + 1 < a1.len(),
        a1.len() == a2.len(),
        forall|t: int| i + 2 <= t < a1.len() ==> a1[t] == a2[t],
    ensures
        ({
            let v = a1[i + 1];
            &&& train_scan(a1, i + 2, (v, st.1, st.2, st.3, st.4)) == train_scan(a2, i + 2, (v, st.1, st.2, st.3, st.4))
            &&& train_scan(a1, i + 2, (st.0, v, st.2, st.3, st.4)) == train_scan(a2, i + 2, (st.0, v, st.2, st.3, st.4))
            &&& train_scan(a1, i + 2, st) == train_scan(a2, i + 2, st)
            &&& (algorithm_named(lowercase(v)) matches Some(al) ==> train_scan(a1, i + 2, (st.0, st.1, al, st.3, st.4))
                == train_scan(a2, i + 2, (st.0, st.1, al, st.3, st.4)))
            &&& (parse_uint(ascii_bytes(v), usize::MAX as int) matches Ok(k) ==> train_scan(a1, i + 2, (st.0, st.1, st.2, k as usize, st.4))
                == train_scan(a2, i + 2, (st.0, st.1, st.2, k as usize, st.4)))
            &&& (size_value(v) matches Some(Ok(wh)) ==> train_scan(a1, i + 2, (st.0, st.1, st.2, st.3, wh))
                == train_scan(a2, i + 2, (st.0, st.1, st.2, st.3, wh)))
        }),
    decreases a1.len() - i, 0int,
{
    let v = a1[i + 1];
    lemma_train_scan_from(a1, a2, i + 2, (v, st.1, st.2, st.3, st.4));
    lemma_train_scan_from(a1, a2, i + 2, (st.0, v, st.2, st.3, st.4));
    lemma_train_scan_from(a1, a2, i + 2, st);
    if let Some(al) = algorithm_named(lowercase(v)) {
        lemma_train_scan_from(a1, a2, i + 2, (st.0, st.1, al, st.3, st.4));
    }
    if let Ok(k) = parse_uint(ascii_bytes(v), usize::MAX as int) {
        lemma_train_scan_from(a1, a2, i + 2, (st.0, st.1, st.2, k as usize, st.4));
    }
    if let Some(Ok(wh)) = size_value(v) {
        lemma_train_scan_from(a1, a2, i + 2, (st.0, st.1, st.2, st.3, wh));
    }
}

proof fn lemma_train_scan_prefix(pre: Seq<Seq<char>>, rest: Seq<Seq<char>>, i: int, st: (Seq<char>, Seq<char>, Algorithm, usize, (usize, usize)))
    requires
        0 <= i <= pre.len(),
        train_scan(pre, i, st) is Ok,
        train_scan(pre, i, st)->Ok_0 is Some,
    ensures
        train_scan(pre + rest, i, st) == train_scan(pre + rest, pre.len() as int, train_scan(pre, i, st)->Ok_0->Some_0),
    decreases pre.len() - i,
{
    let all = pre + rest;
    if i < pre.len() {
        assert(all[i] == pre[i]);
        if i + 1 < pre.len() {
            assert(all[i + 1] == pre[i + 1]);
            let a = pre[i];
            let v = pre[i + 1];
            if a == "-d"@ || a == "--dataset"@ {
                lemma_train_scan_prefix(pre, rest, i + 2, (v, st.1, st.2, st.3, st.4));
            } else if a == "--out"@ || a == "-m"@ || a == "-o"@ {
                lemma_train_scan_prefix(pre, rest, i + 2, (st.0, v, st.2, st.3, st.4));
            } else if a == "--algorithm"@ || a == "-a"@ {
                match algorithm_named(lowercase(v)) {
                    Some(al) => lemma_train_scan_prefix(pre, rest, i + 2, (st.0, st.1, al, st.3, st.4)),
                    None => {},
                }
            } else if a == "-k"@ || a == "--components"@ {
                match parse_uint(ascii_bytes(v), usize::MAX as int) {
                    Ok(k) => lemma_train_scan_prefix(pre, rest, i + 2, (st.0, st.1, st.2, k as usize, st.4)),
                    Err(_) => {},
                }
            } else if a == "--size"@ {
                match size_value(v) {
                    Some(Ok(wh)) => lemma_train_scan_prefix(pre, rest, i + 2, (st.0, st.1, st.2, st.3, wh)),
                    None => lemma_train_scan_prefix(pre, rest, i + 2, st),
                    _ => {},
                }
            }
        }
    }
}

proof fn lemma_train_alias_at(args: Seq<Seq<char>>, i: int, st: (Seq<char>, Seq<char>, Algorithm, usize, (usize, usize)), long: Seq<char>, short: Seq<char>)
    requires
        train_alias(long, short),
        0 <= i < args.len(),
        args[i] == long,
    ensures
        train_scan(args, i, st) == train_scan(args.update(i, short), i, st),
{
    reveal_strlit("--dataset");
    reveal_strlit("-d");
    reveal_strlit("--out");
    reveal_strlit("-m");
    reveal_strlit("-o");
    reveal_strlit("--algorithm");
    reveal_strlit("-a");
    reveal_strlit("--components");
    reveal_strlit("-k");
    reveal_strlit("--size");
    reveal_strlit("--help");
    reveal_strlit("-h");
    assert("-d"@[1] == 'd' && "-m"@[1] == 'm' && "-o"@[1] == 'o' && "-a"@[1] == 'a' && "-k"@[1] == 'k'
        && "-h"@[1] == 'h');
    assert("--dataset"@.len() == 9 && "--out"@.len() == 5 && "--algorithm"@.len() == 11 && "--components"@.len()
        == 12 && "--size"@.len() == 6 && "--help"@.len() == 6 && "--size"@[2] == 's' && "--help"@[2] == 'h');
    let a2 = args.update(i, short);
    assert(a2[i] == short);
    if i + 1 < args.len() {
        assert(a2[i + 1] == args[i + 1]);
        lemma_train_steps_from(args, a2, i, st);
    }
}

/// `train` with only a dataset gets the documented defaults: model file
/// `face_model.bin`, Eigenfaces, 50 components and 92x112 images.
pub proof fn lemma_train_defaults(dataset: Seq<char>)
    requires
        dataset.len() > 0,
    ensures
        train_parse(seq!["--dataset"@, dataset]) == Ok::<_, ArgError>(
            Some((dataset, "face_model.bin"@, Algorithm::Eigenfaces, 50usize, (92usize, 112usize))),
        ),
{
    let args = seq!["--dataset"@, dataset];
    assert(train_scan(args, 2, (dataset, "face_model.bin"@, Algorithm::Eigenfaces, 50usize, (92usize, 112usize)))
        == Ok::<_, ArgError>(Some((dataset, "face_model.bin"@, Algorithm::Eigenfaces, 50usize, (92usize, 112usize)))));
}

/// The long and short spellings of a `train` flag mean the same: wherever a
/// flag stands (after a run of complete flags `pre`), writing `-d` for
/// `--dataset`, `-o` or `-m` for `--out`, `-a` for `--algorithm`, `-k` for
/// `--components` or `-h` for `--help` leaves the outcome unchanged.
pub proof fn lemma_train_aliases(pre: Seq<Seq<char>>, long: Seq<char>, short: Seq<char>, rest: Seq<Seq<char>>)
    requires
        train_alias(long, short),
        train_scan(pre, 0, train_defaults()) is Ok,
        train_scan(pre, 0, train_defaults())->Ok_0 is Some,
    ensures
        train_parse(pre.push(long) + rest) == train_parse(pre.push(short) + rest),
{
    let n = pre.len() as int;
    let a1 = pre.push(long) + rest;
    let a2 = pre.push(short) + rest;
    let s2 = train_scan(pre, 0, train_defaults())->Ok_0->Some_0;
    assert(a1 =~= pre + seq![long].add(rest));
    assert(a2 =~= pre + seq![short].add(rest));
    lemma_train_scan_prefix(pre, seq![long].add(rest), 0, train_defaults());
    lemma_train_scan_prefix(pre, seq![short].add(rest), 0, train_defaults());
    assert(a1[n] == long);
    assert(a2 =~= a1.update(n, short));
    lemma_train_alias_at(a1, n, s2, long, short);
}

/// Options of the `benchmark` subcommand; the mode and algorithm names are
/// kept as given and read when the benchmark starts.
#[derive(Debug)]
pub struct BenchOpts {
    pub dataset: String,
    pub out: Option<String>,
    pub mode: String,
    pub algorithm: String,
    pub folds: usize,
    pub max_pairs: usize,
    pub seed: u64,
    pub size: (usize, usize),
}

pub open spec fn opt_view(o: Option<String>) -> Option<Seq<char>> {
    match o {
        Some(s) => Some(s@),
        None => None,
    }
}

impl View for BenchOpts {
    type V = (Seq<char>, Option<Seq<char>>, Seq<char>, Seq<char>, usize, usize, u64, (usize, usize));

    open spec fn view(&self) -> Self::V {
        (
            self.dataset@,
            opt_view(self.out),
            self.mode@,
            self.algorithm@,
            self.folds,
            self.max_pairs,
            self.seed,
            self.size,
        )
    }
}

/// Options `benchmark` starts from: both tasks, Eigenfaces, 5 folds, at most
/// 2000 pairs, seed 42, 92x112 images, no dataset, default report path.
pub open spec fn bench_defaults() -> (Seq<char>, Option<Seq<char>>, Seq<char>, Seq<char>, usize, usize, u64, (usize, usize)) {
    (Seq::empty(), None, "both"@, "eigenfaces"@, 5, 2000, 42, (92, 112))
}

/// Scans the `benchmark` flags from position `i` on with options `st`: the
/// options at the end, `None` when help was asked for, or the first error.
pub open spec fn bench_scan(
    args: Seq<Seq<char>>,
    i: int,
    st: (Seq<char>, Option<Seq<char>>, Seq<char>, Seq<char>, usize, usize, u64, (usize, usize)),
) -> Result<Option<(Seq<char>, Option<Seq<char>>, Seq<char>, Seq<char>, usize, usize, u64, (usize, usize))>, ArgError>
    decreases args.len() - i,
{
    if i < 0 || i >= args.len() {
        Ok(Some(st))
    } else {
        let a = args[i];
        let has_value = i + 1 < args.len();
        let takes_value = a == "--dataset"@ || a == "-d"@ || a == "--out"@ || a == "-o"@ || a == "--mode"@
            || a == "--algorithm"@ || a == "-a"@ || a == "--folds"@ || a == "-k"@ || a == "--max-pairs"@
            || a == "--seed"@ || a == "--size"@;
        if a == "--help"@ || a == "-h"@ {
            Ok(None)
        } else if !takes_value {
            Err(ArgError::UnknownArg(i as usize))
        } else if !has_value {
            Err(ArgError::MissingValue(i as usize))
        } else {
            let v = args[i + 1];
            if a == "--dataset"@ || a == "-d"@ {
                bench_scan(args, i + 2, (v, st.1, st.2, st.3, st.4, st.5, st.6, st.7))
            } else if a == "--out"@ || a == "-o"@ {
                bench_scan(args, i + 2, (st.0, Some(v), st.2, st.3, st.4, st.5, st.6, st.7))
            } else if a == "--mode"@ {
                bench_scan(args, i + 2, (st.0, st.1, v, st.3, st.4, st.5, st.6, st.7))
            } else if a == "--algorithm"@ || a == "-a"@ {
                bench_scan(args, i + 2, (st.0, st.1, st.2, v, st.4, st.5, st.6, st.7))
            } else if a == "--folds"@ || a == "-k"@ {
                match parse_uint(ascii_bytes(v), usize::MAX as int) {
                    Ok(k) => bench_scan(args, i + 2, (st.0, st.1, st.2, st.3, k as usize, st.5, st.6, st.7)),
                    Err(e) => Err(ArgError::BadNumber(e)),
                }
            } else if a == "--max-pairs"@ {
                match parse_uint(ascii_bytes(v), usize::MAX as int) {
                    Ok(k) => bench_scan(args, i + 2, (st.0, st.1, st.2, st.3, st.4, k as usize, st.6, st.7)),
                    Err(e) => Err(ArgError::BadNumber(e)),
                }
            } else if a == "--seed"@ {
                match parse_uint(ascii_bytes(v), u64::MAX as int) {
                    Ok(k) => bench_scan(args, i + 2, (st.0, st.1, st.2, st.3, st.4, st.5, k as u64, st.7)),
                    Err(e) => Err(ArgError::BadNumber(e)),
                }
            } else {
                match size_value(v) {
                    None => bench_scan(args, i + 2, st),
                    Some(Ok(wh)) => bench_scan(args, i + 2, (st.0, st.1, st.2, st.3, st.4, st.5, st.6, wh)),
                    Some(Err(e)) => Err(ArgError::BadNumber(e)),
                }
            }
        }
    }
}

/// The outcome of parsing `benchmark`'s arguments; a missing dataset is an
/// error once all flags are read.
pub open spec fn bench_parse(args: Seq<Seq<char>>) -> Result<
    Option<(Seq<char>, Option<Seq<char>>, Seq<char>, Seq<char>, usize, usize, u64, (usize, usize))>,
    ArgError,
> {
    match bench_scan(args, 0, bench_defaults()) {
        Ok(Some(st)) => if st.0.len() == 0 {
            Err(ArgError::MissingDataset)
        } else {
            Ok(Some(st))
        },
        other => other,
    }
}

fn is_value_flag(a: &str) -> (r: bool)
    ensures
        r == (a@ == "--dataset"@ || a@ == "-d"@ || a@ == "--out"@ || a@ == "-o"@ || a@ == "--mode"@
            || a@ == "--algorithm"@ || a@ == "-a"@ || a@ == "--folds"@ || a@ == "-k"@ || a@ == "--max-pairs"@
            || a@ == "--seed"@ || a@ == "--size"@),
{
    str_eq(a, "--dataset") || str_eq(a, "-d") || str_eq(a, "--out") || str_eq(a, "-o") || str_eq(a, "--mode")
        || str_eq(a, "--algorithm") || str_eq(a, "-a") || str_eq(a, "--folds") || str_eq(a, "-k")
        || str_eq(a, "--max-pairs") || str_eq(a, "--seed") || str_eq(a, "--size")
}

/// Parses the arguments of `benchmark` (after the subcommand):
/// `--dataset`/`-d`, `--out`/`-o`, `--mode`, `--algorithm`/`-a`,
/// `--folds`/`-k`, `--max-pairs`, `--seed`, `--size WxH` and `--help`/`-h`.
/// `Ok(None)` means help was asked for.
pub fn parse_benchmark(args: &[String]) -> (r: Result<Option<BenchOpts>, ArgError>)
    ensures
        match bench_parse(arg_views(args@)) {
            Ok(Some(v)) => r matches Ok(Some(o)) && o@ == v,
            Ok(None) => r matches Ok(None),
            Err(e) => r == Err::<Option<BenchOpts>, ArgError>(e),
        },
{
    let ghost av = arg_views(args@);
    let mut o = BenchOpts {
        dataset: String::new(),
        out: None,
        mode: string_from("both"),
        algorithm: string_from("eigenfaces"),
        folds: 5,
        max_pairs: 2000,
        seed: 42,
        size: (92, 112),
    };
    let n = args.len();
    let mut i: usize = 0;
    proof {
        reveal_strlit("both");
        reveal_strlit("eigenfaces");
        assert(o.dataset@ =~= Seq::<char>::empty());
        assert(o@ == bench_defaults());
    }
    while i < n
        invariant
            n == args@.len(),
            av == arg_views(args@),
            i <= n,
            bench_scan(av, 0, bench_defaults()) == bench_scan(av, i as int, o@),
        decreases n - i,
    {
        let a = args[i].as_str();
        let has_value = n - i > 1;
        proof {
            assert(av[i as int] == a@);
            if has_value {
                assert(av[i + 1] == args@[i + 1]@);
            }
        }
        if str_eq(a, "--help") || str_eq(a, "-h") {
            return Ok(None);
        }
        if !is_value_flag(a) {
            return Err(ArgError::UnknownArg(i));
        }
        if !has_value {
            return Err(ArgError::MissingValue(i));
        }
        let v = args[i + 1].as_str();
        if str_eq(a, "--dataset") || str_eq(a, "-d") {
            o.dataset = string_from(v);
        } else if str_eq(a, "--out") || str_eq(a, "-o") {
            o.out = Some(string_from(v));
        } else if str_eq(a, "--mode") {
            o.mode = string_from(v);
        } else if str_eq(a, "--algorithm") || str_eq(a, "-a") {
            o.algorithm = string_from(v);
        } else if str_eq(a, "--folds") || str_eq(a, "-k") {
            match parse_uint_str(v, usize::MAX as u64) {
                Ok(k) => {
                    o.folds = k as usize;
                },
                Err(e) => {
                    return Err(ArgError::BadNumber(e));
                },
            }
        } else if str_eq(a, "--max-pairs") {
            match parse_uint_str(v, usize::MAX as u64) {
                Ok(k) => {
                    o.max_pairs = k as usize;
                },
                Err(e) => {
                    return Err(ArgError::BadNumber(e));
                },
            }
        } else if str_eq(a, "--seed") {
            match parse_uint_str(v, u64::MAX) {
                Ok(k) => {
                    o.seed = k;
                },
                Err(e) => {
                    return Err(ArgError::BadNumber(e));
                },
            }
        } else {
            match parse_size(v) {
                None => {},
                Some(Ok(wh)) => {
                    o.size = wh;
                },
                Some(Err(e)) => {
                    return Err(ArgError::BadNumber(e));
                },
            }
        }
        i = i + 2;
    }
    if o.dataset.as_str().unicode_len() == 0 {
        return Err(ArgError::MissingDataset);
    }
    Ok(Some(o))
}

} // verus!
