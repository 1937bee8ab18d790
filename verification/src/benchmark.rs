//! Recognition benchmark utilities: option vocabulary, a seeded xorshift64
//! generator, stratified K-fold splits and same/different pair sampling.

use vstd::prelude::*;
use vstd::multiset::Multiset;
use crate::text::{lowercase, to_lowercase, str_eq, string_from, push_padded, zero_padded};
use vstd::string::StringExecFns;

verus! {

/// Which benchmark tasks to run.
#[derive(Debug, Clone, Copy, PartialEq, Eq, Structural)]
pub enum Mode {
    Identification,
    Verification,
    Both,
}

/// The mode a lower-case name stands for.
pub open spec fn mode_named(lower: Seq<char>) -> Option<Mode> {
    if lower == "identification"@ || lower == "id"@ || lower == "identify"@ {
        Some(Mode::Identification)
    } else if lower == "verification"@ || lower == "ver"@ || lower == "verify"@ {
        Some(Mode::Verification)
    } else if lower == "both"@ || lower == "all"@ {
        Some(Mode::Both)
    } else {
        None
    }
}

impl Mode {
    /// Looks up an already lower-cased mode name.
    pub fn from_lowercase(lower: &str) -> (r: Option<Self>)
        ensures
            r == mode_named(lower@),
    {
        if str_eq(lower, "identification") || str_eq(lower, "id") || str_eq(lower, "identify") {
            Some(Mode::Identification)
        } else if str_eq(lower, "verification") || str_eq(lower, "ver") || str_eq(lower, "verify") {
            Some(Mode::Verification)
        } else if str_eq(lower, "both") || str_eq(lower, "all") {
            Some(Mode::Both)
        } else {
            None
        }
    }

    /// Parses a mode name case-insensitively; an unknown name comes back as
    /// the error.
    pub fn from_str(s: &str) -> (r: Result<Self, String>)
        ensures
            match mode_named(lowercase(s@)) {
                Some(m) => r == Ok::<Self, String>(m),
                None => r matches Err(e) && e@ == s@,
            },
    {
        let lower = to_lowercase(s);
        match Self::from_lowercase(lower.as_str()) {
            Some(m) => Ok(m),
            None => Err(string_from(s)),
        }
    }
}

/// Algorithm under benchmark.
#[derive(Debug, Clone, Copy, PartialEq, Eq, Structural)]
pub enum Algorithm {
    Eigenfaces,
    Fisherfaces,
    LBPH,
}

/// The algorithm a lower-case name stands for.
pub open spec fn algorithm_named(lower: Seq<char>) -> Option<Algorithm> {
    if lower == "eigenfaces"@ || lower == "eigen"@ || lower == "pca"@ {
        Some(Algorithm::Eigenfaces)
    } else if lower == "fisherfaces"@ || lower == "fisher"@ || lower == "lda"@ {
        Some(Algorithm::Fisherfaces)
    } else if lower == "lbph"@ {
        Some(Algorithm::LBPH)
    } else {
        None
    }
}

impl Algorithm {
    /// Looks up an already lower-cased algorithm name.
    pub fn from_lowercase(lower: &str) -> (r: Option<Self>)
        ensures
            r == algorithm_named(lower@),
    {
        if str_eq(lower, "eigenfaces") || str_eq(lower, "eigen") || str_eq(lower, "pca") {
            Some(Algorithm::Eigenfaces)
        } else if str_eq(lower, "fisherfaces") || str_eq(lower, "fisher") || str_eq(lower, "lda") {
            Some(Algorithm::Fisherfaces)
        } else if str_eq(lower, "lbph") {
            Some(Algorithm::LBPH)
        } else {
            None
        }
    }

    /// Parses an algorithm name case-insensitively; an unknown name comes
    /// back as the error.
    pub fn from_str(s: &str) -> (r: Result<Self, String>)
        ensures
            match algorithm_named(lowercase(s@)) {
                Some(a) => r == Ok::<Self, String>(a),
                None => r matches Err(e) && e@ == s@,
            },
    {
        let lower = to_lowercase(s);
        match Self::from_lowercase(lower.as_str()) {
            Some(a) => Ok(a),
            None => Err(string_from(s)),
        }
    }
}

/// Benchmark settings.
#[derive(Debug)]
pub struct Options {
    pub mode: Mode,
    pub algorithm: Algorithm,
    /// K of the K-fold cross validation.
    pub folds: usize,
    /// Upper bound on the number of verification pairs.
    pub max_pairs: usize,
    pub seed: u64,
    /// Image size `(width, height)` for training and recognition.
    pub size: (usize, usize),
    /// Training samples per class (0 = automatic).
    pub train_per_fold: usize,
}

impl Clone for Options {
    fn clone(&self) -> (o: Self)
        ensures
            o == *self,
    {
        Self {
            mode: self.mode,
            algorithm: self.algorithm,
            folds: self.folds,
            max_pairs: self.max_pairs,
            seed: self.seed,
            size: (self.size.0, self.size.1),
            train_per_fold: self.train_per_fold,
        }
    }
}

impl Default for Options {
    fn default() -> (o: Self)
        ensures
            o.mode == Mode::Both,
            o.algorithm == Algorithm::Eigenfaces,
            o.folds == 5,
            o.max_pairs == 2000,
            o.seed == 42,
            o.size == (92usize, 112usize),
            o.train_per_fold == 0,
    {
        Self {
            mode: Mode::Both,
            algorithm: Algorithm::Eigenfaces,
            folds: 5,
            max_pairs: 2000,
            seed: 42,
            size: (92, 112),
            train_per_fold: 0,
        }
    }
}

// ---------------------------------------------------------------------------
// xorshift64

/// One xorshift64 step (shifts 13, 7, 17).
pub open spec fn xorshift(x: u64) -> u64 {
    let a = x ^ (x << 13u64);
    let b = a ^ (a >> 7u64);
    b ^ (b << 17u64)
}

/// State a seed starts from; zero would be a fixed point, so it is replaced.
pub open spec fn seed_state(seed: u64) -> u64 {
    if seed == 0 {
        0x9E3779B97F4A7C15u64
    } else {
        seed
    }
}

/// Draw in `[0, n)` (in `[0, 1)` for `n == 0`) from the state after one step.
pub open spec fn range_draw(state: u64, n: usize) -> usize {
    ((state as usize) as int % (if n == 0 { 1int } else { n as int })) as usize
}

/// Seeded xorshift64 generator.
pub struct Rng(u64);

impl View for Rng {
    type V = u64;

    closed spec fn view(&self) -> u64 {
        self.0
    }
}

impl Rng {
    pub fn new(seed: u64) -> (r: Self)
        ensures
            r@ == seed_state(seed),
    {
        Self(if seed == 0 { 0x9E3779B97F4A7C15u64 } else { seed })
    }

    /// Advances the state one step and returns it.
    pub fn next_u64(&mut self) -> (x: u64)
        ensures
            x == xorshift(old(self)@),
            final(self)@ == x,
    {
        let mut x = self.0;
        x ^= x << 13;
        x ^= x >> 7;
        x ^= x << 17;
        self.0 = x;
        x
    }

    /// Next draw reduced modulo `max(n, 1)`.
    pub fn gen_range(&mut self, n: usize) -> (r: usize)
        ensures
            final(self)@ == xorshift(old(self)@),
            r == range_draw(final(self)@, n),
            r < (if n == 0 { 1 } else { n as int }),
    {
        let m = if n == 0 { 1 } else { n };
        (self.next_u64() as usize) % m
    }

    /// Fisher-Yates shuffle: for `i` from the last index down to 1, swap `i`
    /// with a draw in `[0, i]`.
    pub fn shuffle(&mut self, v: &mut Vec<usize>)
        ensures
            (final(self)@, final(v)@) == fisher_yates(old(self)@, old(v)@, old(v)@.len() - 1),
            final(v)@.to_multiset() == old(v)@.to_multiset(),
            final(v)@.len() == old(v)@.len(),
    {
        let ghost s0 = self@;
        let ghost v0 = v@;
        let n = v.len();
        let mut i = n;
        while i > 1
            invariant
                i <= n,
                n == v@.len(),
                v0.len() == n,
                fisher_yates(s0, v0, n - 1) == fisher_yates(self@, v@, i - 1),
                v@.to_multiset() == v0.to_multiset(),
            decreases i,
        {
            i = i - 1;
            let j = self.gen_range(i + 1);
            let a = v[i];
            let b = v[j];
            let ghost before = v@;
            v.set(i, b);
            v.set(j, a);
            proof {
                lemma_swap_multiset(before, i as int, j as int);
                assert(v@ == before.update(i as int, before[j as int]).update(j as int, before[i as int]));
            }
        }
    }
}

/// The Fisher-Yates pass over positions `i, i - 1, ..., 1`: state and sequence after it.
pub open spec fn fisher_yates(s: u64, v: Seq<usize>, i: int) -> (u64, Seq<usize>)
    decreases i,
{
    if i < 1 {
        (s, v)
    } else {
        let s2 = xorshift(s);
        let j = range_draw(s2, (i + 1) as usize) as int;
        fisher_yates(s2, v.update(i, v[j]).update(j, v[i]), i - 1)
    }
}

/// Swapping two entries keeps the multiset of entries.
pub proof fn lemma_swap_multiset<A>(s: Seq<A>, i: int, j: int)
    requires
        0 <= i < s.len(),
        0 <= j < s.len(),
    ensures
        s.update(i, s[j]).update(j, s[i]).to_multiset() == s.to_multiset(),
{
    broadcast use vstd::seq_lib::to_multiset_update, vstd::seq_lib::to_multiset_contains,
        vstd::multiset::group_multiset_properties, vstd::multiset::group_multiset_axioms;

    let s1 = s.update(i, s[j]);
    if i == j {
        assert(s1.update(j, s[i]) =~= s);
    } else {
        assert(s1[j] == s[j]);
        assert(s1.to_multiset() == s.to_multiset().insert(s[j]).remove(s[i]));
        assert(s1.update(j, s[i]).to_multiset() == s1.to_multiset().insert(s[i]).remove(s[j]));
        let m = s.to_multiset();
        assert(s.contains(s[i]));
        assert(m.count(s[i]) > 0);
        assert(m.insert(s[j]).remove(s[i]).insert(s[i]).remove(s[j]) =~= m);
    }
}

// ---------------------------------------------------------------------------
// Stratified K-fold split

/// Number of entries of `cs` below `x`: where `x` goes in a sorted `cs`.
pub open spec fn count_below(cs: Seq<usize>, x: usize) -> int
    decreases cs.len(),
{
    if cs.len() == 0 {
        0
    } else {
        count_below(cs.drop_last(), x) + if cs.last() < x { 1int } else { 0int }
    }
}

/// `cs` with `x` inserted at its sorted place, unless it is already there.
pub open spec fn sorted_insert(cs: Seq<usize>, x: usize) -> Seq<usize> {
    let p = count_below(cs, x);
    if p < cs.len() && cs[p] == x {
        cs
    } else {
        cs.insert(p, x)
    }
}

/// The distinct labels, in increasing order.
pub open spec fn class_list(labels: Seq<usize>) -> Seq<usize>
    decreases labels.len(),
{
    if labels.len() == 0 {
        Seq::empty()
    } else {
        sorted_insert(class_list(labels.drop_last()), labels.last())
    }
}

/// Indices below `n` whose label is `c`, in increasing order.
pub open spec fn members(labels: Seq<usize>, c: usize, n: int) -> Seq<usize>
    decreases n,
{
    if n <= 0 {
        Seq::empty()
    } else {
        members(labels, c, n - 1) + if labels[n - 1] == c { seq![(n - 1) as usize] } else { Seq::empty() }
    }
}

/// Each class's members shuffled in turn with one generator, classes in the
/// order of `cs`: the final state and the shuffled lists.
pub open spec fn class_shuffles(labels: Seq<usize>, cs: Seq<usize>, s: u64) -> (u64, Seq<Seq<usize>>)
    decreases cs.len(),
{
    if cs.len() == 0 {
        (s, Seq::empty())
    } else {
        let (s1, ps) = class_shuffles(labels, cs.drop_last(), s);
        let m = members(labels, cs.last(), labels.len() as int);
        let (s2, p) = fisher_yates(s1, m, m.len() - 1);
        (s2, ps.push(p))
    }
}

/// Entries of `p` at positions congruent to `j` modulo `k`, in order.
pub open spec fn every_kth(p: Seq<usize>, j: int, k: int) -> Seq<usize>
    decreases p.len(),
{
    if p.len() == 0 {
        Seq::empty()
    } else {
        every_kth(p.drop_last(), j, k) + if (p.len() - 1) % k == j { seq![p.last()] } else { Seq::empty() }
    }
}

/// Fold `j`: for each class in turn, the entries its list deals to fold `j`.
pub open spec fn fold_of(ps: Seq<Seq<usize>>, j: int, k: int) -> Seq<usize>
    decreases ps.len(),
{
    if ps.len() == 0 {
        Seq::empty()
    } else {
        fold_of(ps.drop_last(), j, k) + every_kth(ps.last(), j, k)
    }
}

/// The contents of a list of vectors.
pub open spec fn views(vs: Seq<Vec<usize>>) -> Seq<Seq<usize>> {
    Seq::new(vs.len(), |i: int| vs[i]@)
}

/// The K folds: every class shuffled (in increasing label order, one
/// generator seeded with `seed`), then its `i`-th member dealt to fold `i mod k`.
pub open spec fn kfold(labels: Seq<usize>, k: int, seed: u64) -> Seq<Seq<usize>> {
    let ps = class_shuffles(labels, class_list(labels), seed_state(seed)).1;
    Seq::new(k as nat, |j: int| fold_of(ps, j, k))
}

fn class_list_exec(labels: &[usize]) -> (cs: Vec<usize>)
    ensures
        cs@ == class_list(labels@),
{
    let n = labels.len();
    let mut cs: Vec<usize> = Vec::new();
    let mut i: usize = 0;
    while i < n
        invariant
            n == labels@.len(),
            i <= n,
            cs@ == class_list(labels@.subrange(0, i as int)),
        decreases n - i,
    {
        let x = labels[i];
        let m = cs.len();
        let mut p: usize = 0;
        let mut t: usize = 0;
        while t < m
            invariant
                m == cs@.len(),
                t <= m,
                p <= t,
                p == count_below(cs@.subrange(0, t as int), x),
            decreases m - t,
        {
            proof {
                assert(cs@.subrange(0, t + 1).drop_last() =~= cs@.subrange(0, t as int));
            }
            if cs[t] < x {
                p = p + 1;
            }
            t = t + 1;
        }
        proof {
            assert(cs@.subrange(0, m as int) =~= cs@);
            assert(labels@.subrange(0, i + 1).drop_last() =~= labels@.subrange(0, i as int));
        }
        if !(p < m && cs[p] == x) {
            cs.insert(p, x);
        }
        i = i + 1;
    }
    proof {
        assert(labels@.subrange(0, n as int) =~= labels@);
    }
    cs
}

fn members_exec(labels: &[usize], c: usize) -> (m: Vec<usize>)
    ensures
        m@ == members(labels@, c, labels@.len() as int),
{
    let n = labels.len();
    let mut m: Vec<usize> = Vec::new();
    let mut i: usize = 0;
    while i < n
        invariant
            n == labels@.len(),
            i <= n,
            m@ == members(labels@, c, i as int),
        decreases n - i,
    {
        if labels[i] == c {
            m.push(i);
        }
        i = i + 1;
        proof {
            assert(m@ =~= members(labels@, c, i as int));
        }
    }
    m
}

fn every_kth_exec(out: &mut Vec<usize>, p: &Vec<usize>, j: usize, k: usize)
    requires
        k > 0,
    ensures
        final(out)@ == old(out)@ + every_kth(p@, j as int, k as int),
{
    let n = p.len();
    let mut i: usize = 0;
    while i < n
        invariant
            k > 0,
            n == p@.len(),
            i <= n,
            out@ == old(out)@ + every_kth(p@.subrange(0, i as int), j as int, k as int),
        decreases n - i,
    {
        proof {
            assert(p@.subrange(0, i + 1).drop_last() =~= p@.subrange(0, i as int));
        }
        if i % k == j {
            out.push(p[i]);
        }
        i = i + 1;
        proof {
            assert(out@ =~= old(out)@ + every_kth(p@.subrange(0, i as int), j as int, k as int));
        }
    }
    proof {
        assert(p@.subrange(0, n as int) =~= p@);
    }
}

/// Splits sample indices into `k` folds, class by class: each class's indices
/// are shuffled and dealt round-robin, so every fold gets a balanced share of
/// every class.
pub fn stratified_kfold(labels: &[usize], k: usize, seed: u64) -> (folds: Vec<Vec<usize>>)
    requires
        k > 0 || labels@.len() == 0,
    ensures
        views(folds@) == kfold(labels@, k as int, seed),
{
    let cs = class_list_exec(labels);
    let mut rng = Rng::new(seed);
    let mut shuffled: Vec<Vec<usize>> = Vec::new();
    let nc = cs.len();
    let mut t: usize = 0;
    while t < nc
        invariant
            nc == cs@.len(),
            cs@ == class_list(labels@),
            t <= nc,
            (rng@, views(shuffled@)) == class_shuffles(labels@, cs@.subrange(0, t as int), seed_state(seed)),
        decreases nc - t,
    {
        let mut m = members_exec(labels, cs[t]);
        rng.shuffle(&mut m);
        let ghost before = views(shuffled@);
        shuffled.push(m);
        proof {
            assert(cs@.subrange(0, t + 1).drop_last() =~= cs@.subrange(0, t as int));
            assert(views(shuffled@) =~= before.push(m@));
        }
        t = t + 1;
    }
    proof {
        assert(cs@.subrange(0, nc as int) =~= cs@);
    }
    let ghost ps = views(shuffled@);
    let mut folds: Vec<Vec<usize>> = Vec::new();
    if nc == 0 {
        let mut j: usize = 0;
        while j < k
            invariant
                nc == 0,
                ps == class_shuffles(labels@, class_list(labels@), seed_state(seed)).1,
                ps.len() == 0,
                j <= k,
                views(folds@) =~= Seq::new(j as nat, |jj: int| fold_of(ps, jj, k as int)),
            decreases k - j,
        {
            let ghost before = folds@;
            let e: Vec<usize> = Vec::new();
            folds.push(e);
            proof {
                assert(views(before).len() == j);
                assert(before.len() == j);
                assert(folds@ == before.push(e));
                assert(folds@[j as int] == e);
                assert(e@ =~= Seq::<usize>::empty());
                assert(fold_of(ps, j as int, k as int) =~= Seq::<usize>::empty());
                assert(folds@[j as int]@ =~= fold_of(ps, j as int, k as int));
            }
            j = j + 1;
            proof {
                assert forall|jj: int| 0 <= jj < j implies #[trigger] views(folds@)[jj] == fold_of(ps, jj, k as int) by {
                    if jj < j - 1 {
                        assert(folds@[jj] == before[jj]);
                        assert(views(before)[jj] == fold_of(ps, jj, k as int));
                    }
                }
                assert(views(folds@) =~= Seq::new(j as nat, |jj: int| fold_of(ps, jj, k as int)));
            }
        }
        return folds;
    }
    proof {
        assert(labels@.len() > 0) by {
            if labels@.len() == 0 {
                assert(class_list(labels@) =~= Seq::<usize>::empty());
            }
        }
    }
    let mut j: usize = 0;
    while j < k
        invariant
            k > 0,
            ps == views(shuffled@),
            ps == class_shuffles(labels@, class_list(labels@), seed_state(seed)).1,
            j <= k,
            views(folds@) =~= Seq::new(j as nat, |jj: int| fold_of(ps, jj, k as int)),
        decreases k - j,
    {
        let mut f: Vec<usize> = Vec::new();
        let mut t2: usize = 0;
        while t2 < shuffled.len()
            invariant
                k > 0,
                ps == views(shuffled@),
                t2 <= ps.len(),
                f@ == fold_of(ps.subrange(0, t2 as int), j as int, k as int),
            decreases ps.len() - t2,
        {
            proof {
                assert(ps.subrange(0, t2 + 1).drop_last() =~= ps.subrange(0, t2 as int));
                assert(ps.subrange(0, t2 + 1).last() == shuffled@[t2 as int]@);
            }
            every_kth_exec(&mut f, &shuffled[t2], j, k);
            t2 = t2 + 1;
        }
        proof {
            assert(ps.subrange(0, ps.len() as int) =~= ps);
        }
        let ghost before = folds@;
        let ghost fv = f@;
        assert(fv == fold_of(ps, j as int, k as int));
        folds.push(f);
        proof {
            assert(views(before).len() == j);
            assert(before.len() == j);
            assert(folds@ == before.push(f));
            assert(folds@[j as int] == f);
            assert(folds@[j as int]@ == fv);
        }
        j = j + 1;
        proof {
            assert forall|jj: int| 0 <= jj < j implies #[trigger] views(folds@)[jj] == fold_of(ps, jj, k as int) by {
                if jj < j - 1 {
                    assert(folds@[jj] == before[jj]);
                    assert(views(before)[jj] == fold_of(ps, jj, k as int));
                }
            }
            assert(views(folds@) =~= Seq::new(j as nat, |jj: int| fold_of(ps, jj, k as int)));
        }
    }
    folds
}

// ---------------------------------------------------------------------------
// Verification pairs

/// Two sample indices and whether they show the same person.
#[derive(Debug, Clone, Copy)]
pub struct Pair {
    pub i: usize,
    pub j: usize,
    pub same: bool,
}

/// Same-person pairs of neighbouring members `(m[t], m[t + 1])`.
pub open spec fn consecutive_pairs(m: Seq<usize>) -> Seq<Pair>
    decreases m.len(),
{
    if m.len() < 2 {
        Seq::empty()
    } else {
        consecutive_pairs(m.drop_last()).push(Pair { i: m[m.len() - 2], j: m.last(), same: true })
    }
}

/// Same-person pairs of all classes of `cs`, class after class.
pub open spec fn positive_pairs(labels: Seq<usize>, cs: Seq<usize>) -> Seq<Pair>
    decreases cs.len(),
{
    if cs.len() == 0 {
        Seq::empty()
    } else {
        positive_pairs(labels, cs.drop_last()) + consecutive_pairs(
            members(labels, cs.last(), labels.len() as int),
        )
    }
}

/// `count` draws in `[0, keep.len())`, each marking its slot; final state and marks.
pub open spec fn mark_keep(s: u64, keep: Seq<bool>, count: nat) -> (u64, Seq<bool>)
    decreases count,
{
    if count == 0 {
        (s, keep)
    } else {
        let (s1, k1) = mark_keep(s, keep, (count - 1) as nat);
        let s2 = xorshift(s1);
        (s2, k1.update(range_draw(s2, keep.len() as usize) as int, true))
    }
}

/// The entries of `pos` whose slot is marked, in order.
pub open spec fn kept(pos: Seq<Pair>, keep: Seq<bool>) -> Seq<Pair>
    decreases pos.len(),
{
    if pos.len() == 0 {
        Seq::empty()
    } else {
        kept(pos.drop_last(), keep) + if keep[pos.len() - 1] { seq![pos.last()] } else { Seq::empty() }
    }
}

/// Same-person pairs after down-sampling to `max_pairs / 2` draws when there
/// are more than that.
pub open spec fn sampled_positives(labels: Seq<usize>, max_pairs: usize, seed: u64) -> Seq<Pair> {
    let pos = positive_pairs(labels, class_list(labels));
    if pos.len() > max_pairs / 2 {
        kept(pos, mark_keep(seed_state(seed), Seq::new(pos.len(), |t: int| false), (max_pairs / 2) as nat).1)
    } else {
        pos
    }
}

/// Whether `neg` already holds the unordered pair `{a, b}`.
pub open spec fn has_pair(neg: Seq<Pair>, a: usize, b: usize) -> bool {
    exists|t: int|
        0 <= t < neg.len() && ((neg[t].i == a && neg[t].j == b) || (neg[t].i == b && neg[t].j == a))
}

/// Rejection sampling of different-person pairs: two draws per attempt, a
/// draw pair is kept when the indices differ, the labels differ and the
/// unordered pair is new; stops at `target` pairs or `20 * target` attempts.
pub open spec fn neg_sample(labels: Seq<usize>, target: int, s: u64, neg: Seq<Pair>, attempts: int) -> Seq<Pair>
    decreases target * 20 - attempts,
{
    if !(neg.len() < target && attempts < target * 20) {
        neg
    } else {
        let s1 = xorshift(s);
        let a = range_draw(s1, labels.len() as usize);
        let s2 = xorshift(s1);
        let b = range_draw(s2, labels.len() as usize);
        if a == b || labels[a as int] == labels[b as int] || has_pair(neg, a, b) {
            neg_sample(labels, target, s2, neg, attempts + 1)
        } else {
            neg_sample(labels, target, s2, neg.push(Pair { i: a, j: b, same: false }), attempts + 1)
        }
    }
}

/// `0, 1, ..., n - 1`.
pub open spec fn iota(n: int) -> Seq<usize> {
    Seq::new(n as nat, |t: int| t as usize)
}

/// All pairs before the final shuffle: the sampled positives, then as many
/// negatives as could be found.
pub open spec fn unshuffled_pairs(labels: Seq<usize>, max_pairs: usize, seed: u64) -> Seq<Pair> {
    let pos = sampled_positives(labels, max_pairs, seed);
    pos + neg_sample(labels, pos.len() as int, seed_state(((seed as nat * 0x9E3779B97F4A7C15nat) % 0x1_0000_0000_0000_0000nat) as u64), Seq::empty(), 0)
}

/// The pairs in shuffled order: a generator seeded with `seed` first shuffles a
/// throw-away index list, then the index list that orders the result.
pub open spec fn pairs_spec(labels: Seq<usize>, max_pairs: usize, seed: u64) -> Seq<Pair> {
    let all = unshuffled_pairs(labels, max_pairs, seed);
    let n = all.len() as int;
    let s1 = fisher_yates(seed_state(seed), iota(n), n - 1).0;
    let order = fisher_yates(s1, iota(n), n - 1).1;
    Seq::new(n as nat, |t: int| all[order[t] as int])
}

fn consecutive_pairs_exec(out: &mut Vec<Pair>, m: &Vec<usize>)
    ensures
        final(out)@ == old(out)@ + consecutive_pairs(m@),
{
    let n = m.len();
    let mut t: usize = 1;
    proof {
        if n >= 1 {
            assert(m@.subrange(0, 1).len() < 2);
        }
        assert(consecutive_pairs(m@.subrange(0, 0)) =~= Seq::<Pair>::empty());
        assert(consecutive_pairs(m@.subrange(0, if n >= 1 { 1int } else { 0int })) =~= Seq::<Pair>::empty());
    }
    if n == 0 {
        proof {
            assert(m@ =~= m@.subrange(0, 0));
            assert(out@ =~= old(out)@ + consecutive_pairs(m@));
        }
        return;
    }
    while t < n
        invariant
            n == m@.len(),
            1 <= t <= n,
            out@ == old(out)@ + consecutive_pairs(m@.subrange(0, t as int)),
        decreases n - t,
    {
        proof {
            assert(m@.subrange(0, t + 1).drop_last() =~= m@.subrange(0, t as int));
        }
        out.push(Pair { i: m[t - 1], j: m[t], same: true });
        t = t + 1;
        proof {
            assert(out@ =~= old(out)@ + consecutive_pairs(m@.subrange(0, t as int)));
        }
    }
    proof {
        assert(m@.subrange(0, n as int) =~= m@);
    }
}

fn has_pair_exec(neg: &Vec<Pair>, a: usize, b: usize) -> (r: bool)
    ensures
        r == has_pair(neg@, a, b),
{
    let (ka, kb) = if a < b { (a, b) } else { (b, a) };
    let n = neg.len();
    let mut t: usize = 0;
    while t < n
        invariant
            n == neg@.len(),
            t <= n,
            ka == (if a < b { a } else { b }),
            kb == (if a < b { b } else { a }),
            forall|tt: int|
                0 <= tt < t ==> !((neg@[tt].i == a && neg@[tt].j == b) || (neg@[tt].i == b && neg@[tt].j
                    == a)),
        decreases n - t,
    {
        let p = neg[t];
        let (pa, pb) = if p.i < p.j { (p.i, p.j) } else { (p.j, p.i) };
        if pa == ka && pb == kb {
            return true;
        }
        t = t + 1;
    }
    false
}

/// Same-person pairs (neighbouring members of each class) and as many
/// different-person pairs, randomly sampled, in shuffled order. Same-person
/// pairs are down-sampled when there are more than `max_pairs / 2`.
pub fn generate_pairs(labels: &[usize], max_pairs: usize, seed: u64) -> (r: Vec<Pair>)
    requires
        labels@.len() * 20 <= usize::MAX,
    ensures
        r@ == pairs_spec(labels@, max_pairs, seed),
{
    let n = labels.len();
    let cs = class_list_exec(labels);
    let nc = cs.len();
    let mut pos: Vec<Pair> = Vec::new();
    let mut t: usize = 0;
    while t < nc
        invariant
            nc == cs@.len(),
            cs@ == class_list(labels@),
            t <= nc,
            pos@ == positive_pairs(labels@, cs@.subrange(0, t as int)),
        decreases nc - t,
    {
        let m = members_exec(labels, cs[t]);
        proof {
            assert(cs@.subrange(0, t + 1).drop_last() =~= cs@.subrange(0, t as int));
        }
        consecutive_pairs_exec(&mut pos, &m);
        t = t + 1;
    }
    proof {
        assert(cs@.subrange(0, nc as int) =~= cs@);
        lemma_positive_pairs_len(labels@);
    }
    let half = max_pairs / 2;
    if pos.len() > half {
        let mut rng = Rng::new(seed);
        let np = pos.len();
        let mut keep: Vec<bool> = vec![false; np];
        proof {
            assert(keep@ =~= Seq::new(np as nat, |t: int| false));
        }
        let ghost k0 = keep@;
        let mut c: usize = 0;
        while c < half
            invariant
                np == pos@.len(),
                np > 0,
                c <= half,
                k0 == Seq::new(np as nat, |t: int| false),
                (rng@, keep@) == mark_keep(seed_state(seed), k0, c as nat),
                keep@.len() == np,
            decreases half - c,
        {
            let idx = rng.gen_range(np);
            keep.set(idx, true);
            c = c + 1;
        }
        let mut new_pos: Vec<Pair> = Vec::new();
        let mut q: usize = 0;
        while q < np
            invariant
                np == pos@.len(),
                keep@.len() == np,
                q <= np,
                new_pos@ == kept(pos@.subrange(0, q as int), keep@),
            decreases np - q,
        {
            proof {
                assert(pos@.subrange(0, q + 1).drop_last() =~= pos@.subrange(0, q as int));
            }
            if keep[q] {
                new_pos.push(pos[q]);
            }
            q = q + 1;
            proof {
                assert(new_pos@ =~= kept(pos@.subrange(0, q as int), keep@));
            }
        }
        proof {
            assert(pos@.subrange(0, np as int) =~= pos@);
            lemma_kept_len(pos@, keep@);
        }
        pos = new_pos;
    }
    let target = pos.len();
    let ghost pos_spec = pos@;
    proof {
        assert(pos_spec == sampled_positives(labels@, max_pairs, seed));
        assert(target <= n);
    }
    let mut rng = Rng::new(seed.wrapping_mul(0x9E3779B97F4A7C15u64));
    let mut neg: Vec<Pair> = Vec::new();
    let mut attempts: usize = 0;
    let ghost s_neg0 = rng@;
    while neg.len() < target && attempts < target * 20
        invariant
            n == labels@.len(),
            target <= n,
            n * 20 <= usize::MAX,
            attempts <= target * 20,
            neg_sample(labels@, target as int, s_neg0, Seq::empty(), 0) == neg_sample(
                labels@,
                target as int,
                rng@,
                neg@,
                attempts as int,
            ),
        decreases target * 20 - attempts,
    {
        attempts = attempts + 1;
        let a = rng.gen_range(n);
        let b = rng.gen_range(n);
        proof {
            assert(n > 0);
        }
        if a == b {
            continue;
        }
        if labels[a] == labels[b] {
            continue;
        }
        if has_pair_exec(&neg, a, b) {
            continue;
        }
        neg.push(Pair { i: a, j: b, same: false });
    }
    let ghost neg_spec = neg@;
    let mut all_pairs = pos;
    let mut k: usize = 0;
    let nn = neg.len();
    let ghost pos_len = all_pairs@.len();
    while k < nn
        invariant
            nn == neg@.len(),
            k <= nn,
            all_pairs@ == pos_spec + neg@.subrange(0, k as int),
        decreases nn - k,
    {
        all_pairs.push(neg[k]);
        k = k + 1;
        proof {
            assert(all_pairs@ =~= pos_spec + neg@.subrange(0, k as int));
        }
    }
    proof {
        assert(neg@.subrange(0, nn as int) =~= neg@);
    }
    let total = all_pairs.len();
    let mut rng2 = Rng::new(seed);
    let mut scratch = iota_exec(total);
    rng2.shuffle(&mut scratch);
    let mut indices = iota_exec(total);
    rng2.shuffle(&mut indices);
    let mut out: Vec<Pair> = Vec::new();
    let mut q: usize = 0;
    proof {
        lemma_perm_in_range(indices@, total as int);
    }
    while q < total
        invariant
            total == all_pairs@.len(),
            indices@.len() == total,
            forall|t: int| 0 <= t < total ==> #[trigger] indices@[t] < total,
            q <= total,
            out@ == Seq::new(q as nat, |t: int| all_pairs@[indices@[t] as int]),
        decreases total - q,
    {
        out.push(all_pairs[indices[q]]);
        q = q + 1;
        proof {
            assert(out@ =~= Seq::new(q as nat, |t: int| all_pairs@[indices@[t] as int]));
        }
    }
    out
}

fn iota_exec(n: usize) -> (v: Vec<usize>)
    ensures
        v@ == iota(n as int),
{
    let mut v: Vec<usize> = Vec::new();
    let mut t: usize = 0;
    while t < n
        invariant
            t <= n,
            v@ == iota(t as int),
        decreases n - t,
    {
        v.push(t);
        t = t + 1;
        proof {
            assert(v@ =~= iota(t as int));
        }
    }
    v
}

proof fn lemma_consecutive_pairs_len(m: Seq<usize>)
    ensures
        consecutive_pairs(m).len() <= m.len(),
    decreases m.len(),
{
    if m.len() >= 2 {
        lemma_consecutive_pairs_len(m.drop_last());
    }
}

proof fn lemma_kept_len(pos: Seq<Pair>, keep: Seq<bool>)
    ensures
        kept(pos, keep).len() <= pos.len(),
    decreases pos.len(),
{
    if pos.len() > 0 {
        lemma_kept_len(pos.drop_last(), keep);
    }
}

/// Strictly increasing.
pub open spec fn strictly_sorted(cs: Seq<usize>) -> bool {
    forall|a: int, b: int| 0 <= a < b < cs.len() ==> cs[a] < cs[b]
}

/// In a strictly increasing list, `count_below` is where the entries below `x` end.
proof fn lemma_count_below(cs: Seq<usize>, x: usize)
    requires
        strictly_sorted(cs),
    ensures
        0 <= count_below(cs, x) <= cs.len(),
        forall|t: int| 0 <= t < count_below(cs, x) ==> cs[t] < x,
        forall|t: int| count_below(cs, x) <= t < cs.len() ==> cs[t] >= x,
    decreases cs.len(),
{
    if cs.len() > 0 {
        let d = cs.drop_last();
        assert(strictly_sorted(d));
        lemma_count_below(d, x);
        let p = count_below(d, x);
        assert forall|t: int| 0 <= t < d.len() implies #[trigger] cs[t] == d[t] by {}
        if cs.last() < x {
            assert forall|t: int| 0 <= t < d.len() implies d[t] < x by {
                assert(cs[t] < cs[cs.len() - 1]);
            }
            if p < d.len() {
                assert(d[p] >= x);
            }
            assert(count_below(cs, x) == cs.len());
            assert forall|t: int| 0 <= t < count_below(cs, x) implies cs[t] < x by {
                if t < d.len() {
                    assert(d[t] < x);
                }
            }
        } else {
            assert(count_below(cs, x) == p);
            assert forall|t: int| count_below(cs, x) <= t < cs.len() implies cs[t] >= x by {
                if t < d.len() {
                    assert(d[t] >= x);
                }
            }
            assert forall|t: int| 0 <= t < count_below(cs, x) implies cs[t] < x by {
                assert(d[t] < x);
            }
        }
    }
}

/// The class list is strictly increasing, holds every label and nothing else.
pub proof fn lemma_class_list(labels: Seq<usize>)
    ensures
        strictly_sorted(class_list(labels)),
        forall|i: int| 0 <= i < labels.len() ==> class_list(labels).contains(#[trigger] labels[i]),
        forall|t: int| 0 <= t < class_list(labels).len() ==> labels.contains(#[trigger] class_list(labels)[t]),
    decreases labels.len(),
{
    if labels.len() > 0 {
        let d = labels.drop_last();
        let x = labels.last();
        let c0 = class_list(d);
        lemma_class_list(d);
        lemma_count_below(c0, x);
        let p = count_below(c0, x);
        let cs = class_list(labels);
        assert(cs == sorted_insert(c0, x));
        assert forall|i: int| 0 <= i < d.len() implies #[trigger] labels[i] == d[i] by {}
        if p < c0.len() && c0[p] == x {
            assert(cs == c0);
            assert forall|i: int| 0 <= i < labels.len() implies cs.contains(#[trigger] labels[i]) by {
                if i < d.len() {
                    assert(labels[i] == d[i]);
                    assert(c0.contains(d[i]));
                } else {
                    assert(cs[p] == x);
                }
            }
            assert forall|t: int| 0 <= t < cs.len() implies labels.contains(#[trigger] cs[t]) by {
                assert(d.contains(c0[t]));
                let w = choose|w: int| 0 <= w < d.len() && d[w] == c0[t];
                assert(labels[w] == d[w]);
            }
        } else {
            c0.insert_ensures(p, x);
            assert(cs == c0.insert(p, x));
            assert forall|a: int, b: int| 0 <= a < b < cs.len() implies cs[a] < cs[b] by {
                if b < p {
                } else if b == p {
                } else if a < p {
                    assert(cs[b] == c0[b - 1]);
                    if a < b - 1 {
                        assert(c0[a] < c0[b - 1]);
                    }
                } else if a == p {
                    assert(cs[b] == c0[b - 1]);
                    assert(c0[p] >= x);
                    assert(c0[p] != x);
                    if b - 1 > p {
                        assert(c0[p] < c0[b - 1]);
                    }
                } else {
                    assert(cs[a] == c0[a - 1]);
                    assert(cs[b] == c0[b - 1]);
                    assert(c0[a - 1] < c0[b - 1]);
                }
            }
            assert forall|i: int| 0 <= i < labels.len() implies cs.contains(#[trigger] labels[i]) by {
                if i < d.len() {
                    assert(labels[i] == d[i]);
                    assert(c0.contains(d[i]));
                    let w = choose|w: int| 0 <= w < c0.len() && c0[w] == d[i];
                    if w < p {
                        assert(cs[w] == c0[w]);
                    } else {
                        assert(cs[w + 1] == c0[w]);
                    }
                } else {
                    assert(cs[p] == x);
                }
            }
            assert forall|t: int| 0 <= t < cs.len() implies labels.contains(#[trigger] cs[t]) by {
                if t == p {
                    assert(labels[labels.len() - 1] == x);
                } else {
                    let u = if t < p { t } else { t - 1 };
                    assert(cs[t] == c0[u]);
                    assert(d.contains(c0[u]));
                    let w = choose|w: int| 0 <= w < d.len() && d[w] == c0[u];
                    assert(labels[w] == d[w]);
                }
            }
        }
    }
}

/// How often `x` occurs in `cs`.
pub open spec fn occurrences(cs: Seq<usize>, x: usize) -> int
    decreases cs.len(),
{
    if cs.len() == 0 {
        0
    } else {
        occurrences(cs.drop_last(), x) + if cs.last() == x { 1int } else { 0int }
    }
}

proof fn lemma_occurrences_once(cs: Seq<usize>, x: usize)
    requires
        strictly_sorted(cs),
    ensures
        occurrences(cs, x) == if cs.contains(x) { 1int } else { 0int },
    decreases cs.len(),
{
    if cs.len() > 0 {
        let d = cs.drop_last();
        assert(strictly_sorted(d));
        lemma_occurrences_once(d, x);
        if cs.last() == x {
            assert(!d.contains(x)) by {
                if d.contains(x) {
                    let w = choose|w: int| 0 <= w < d.len() && d[w] == x;
                    assert(cs[w] < cs[cs.len() - 1]);
                }
            }
        } else {
            assert(cs.contains(x) == d.contains(x)) by {
                if cs.contains(x) {
                    let w = choose|w: int| 0 <= w < cs.len() && cs[w] == x;
                    assert(d[w] == x);
                }
                if d.contains(x) {
                    let w = choose|w: int| 0 <= w < d.len() && d[w] == x;
                    assert(cs[w] == x);
                }
            }
        }
    }
}

/// Total number of members below `n` of the classes of `cs`.
pub open spec fn members_total(labels: Seq<usize>, cs: Seq<usize>, n: int) -> int
    decreases cs.len(),
{
    if cs.len() == 0 {
        0
    } else {
        members_total(labels, cs.drop_last(), n) + members(labels, cs.last(), n).len()
    }
}

proof fn lemma_members_total_step(labels: Seq<usize>, cs: Seq<usize>, n: int)
    requires
        1 <= n <= labels.len(),
    ensures
        members_total(labels, cs, n) == members_total(labels, cs, n - 1) + occurrences(cs, labels[n - 1]),
    decreases cs.len(),
{
    if cs.len() > 0 {
        lemma_members_total_step(labels, cs.drop_last(), n);
    }
}

/// Over the classes of a strictly increasing list that holds every label,
/// the members below `n` number `n`.
proof fn lemma_members_total(labels: Seq<usize>, cs: Seq<usize>, n: int)
    requires
        0 <= n <= labels.len(),
        strictly_sorted(cs),
        forall|i: int| 0 <= i < labels.len() ==> cs.contains(#[trigger] labels[i]),
    ensures
        members_total(labels, cs, n) == n,
    decreases n,
{
    if n == 0 {
        lemma_members_total_zero(labels, cs);
    } else {
        lemma_members_total(labels, cs, n - 1);
        lemma_members_total_step(labels, cs, n);
        lemma_occurrences_once(cs, labels[n - 1]);
    }
}

proof fn lemma_members_total_zero(labels: Seq<usize>, cs: Seq<usize>)
    ensures
        members_total(labels, cs, 0) == 0,
    decreases cs.len(),
{
    if cs.len() > 0 {
        lemma_members_total_zero(labels, cs.drop_last());
    }
}

proof fn lemma_positive_pairs_bound(labels: Seq<usize>, cs: Seq<usize>)
    ensures
        positive_pairs(labels, cs).len() <= members_total(labels, cs, labels.len() as int),
    decreases cs.len(),
{
    if cs.len() > 0 {
        lemma_positive_pairs_bound(labels, cs.drop_last());
        lemma_consecutive_pairs_len(members(labels, cs.last(), labels.len() as int));
    }
}

proof fn lemma_positive_pairs_len(labels: Seq<usize>)
    ensures
        positive_pairs(labels, class_list(labels)).len() <= labels.len(),
{
    lemma_class_list(labels);
    lemma_positive_pairs_bound(labels, class_list(labels));
    lemma_members_total(labels, class_list(labels), labels.len() as int);
}

/// The entries of a permutation of `0..n` are below `n`.
proof fn lemma_perm_in_range(v: Seq<usize>, n: int)
    requires
        0 <= n <= usize::MAX,
        v.to_multiset() == iota(n).to_multiset(),
    ensures
        forall|t: int| 0 <= t < v.len() ==> #[trigger] v[t] < n,
{
    broadcast use vstd::seq_lib::to_multiset_contains;

    assert forall|t: int| 0 <= t < v.len() implies #[trigger] v[t] < n by {
        assert(v.contains(v[t]));
        assert(v.to_multiset().count(v[t]) > 0);
        assert(iota(n).to_multiset().count(v[t]) > 0);
        assert(iota(n).contains(v[t]));
        let w = choose|w: int| 0 <= w < iota(n).len() && iota(n)[w] == v[t];
        assert(iota(n)[w] == w as usize);
    }
}


// ---------------------------------------------------------------------------
// What the K-fold split keeps

/// All entries of a list of sequences, as one multiset.
pub open spec fn union_all(ps: Seq<Seq<usize>>) -> Multiset<usize>
    decreases ps.len(),
{
    if ps.len() == 0 {
        Multiset::empty()
    } else {
        union_all(ps.drop_last()).add(ps.last().to_multiset())
    }
}

proof fn lemma_empty_to_multiset(s: Seq<usize>)
    requires
        s.len() == 0,
    ensures
        s.to_multiset() == Multiset::<usize>::empty(),
{
    broadcast use vstd::seq_lib::to_multiset_len, vstd::multiset::lemma_multiset_empty_len;

    assert(s.to_multiset().len() == 0);
}

proof fn lemma_single_to_multiset(x: usize)
    ensures
        seq![x].to_multiset() == Multiset::singleton(x),
{
    broadcast use vstd::multiset::group_multiset_axioms;

    lemma_empty_to_multiset(Seq::<usize>::empty());
    assert(seq![x] =~= Seq::<usize>::empty().push(x));
    vstd::seq_lib::to_multiset_build(Seq::<usize>::empty(), x);
    assert(Multiset::<usize>::empty().insert(x) =~= Multiset::singleton(x));
}

/// A Fisher-Yates pass keeps the length and the multiset of entries.
pub proof fn lemma_fisher_yates_perm(s: u64, v: Seq<usize>, i: int)
    requires
        i < v.len(),
    ensures
        fisher_yates(s, v, i).1.len() == v.len(),
        fisher_yates(s, v, i).1.to_multiset() == v.to_multiset(),
    decreases i,
{
    if i >= 1 {
        let s2 = xorshift(s);
        let j = range_draw(s2, (i + 1) as usize) as int;
        assert(0 <= j < i + 1) by {
            assert(((s2 as usize) as int % (i + 1)) < i + 1);
        }
        lemma_swap_multiset(v, i, j);
        lemma_fisher_yates_perm(s2, v.update(i, v[j]).update(j, v[i]), i - 1);
    }
}

/// Each shuffled class list holds exactly that class's members.
proof fn lemma_class_shuffles_perm(labels: Seq<usize>, cs: Seq<usize>, s: u64)
    ensures
        class_shuffles(labels, cs, s).1.len() == cs.len(),
        forall|c: int|
            0 <= c < cs.len() ==> (#[trigger] class_shuffles(labels, cs, s).1[c]).to_multiset()
                == members(labels, cs[c], labels.len() as int).to_multiset(),
    decreases cs.len(),
{
    if cs.len() > 0 {
        let d = cs.drop_last();
        lemma_class_shuffles_perm(labels, d, s);
        let (s1, ps) = class_shuffles(labels, d, s);
        let m = members(labels, cs.last(), labels.len() as int);
        lemma_fisher_yates_perm(s1, m, m.len() - 1);
        let out = class_shuffles(labels, cs, s).1;
        assert forall|c: int| 0 <= c < cs.len() implies (#[trigger] out[c]).to_multiset()
            == members(labels, cs[c], labels.len() as int).to_multiset() by {
            if c < d.len() {
                assert(out[c] == ps[c]);
                assert(cs[c] == d[c]);
            }
        }
    }
}

/// Dealing a list round-robin to `k` folds: the first `jmax` folds' entries.
pub open spec fn dealt_union(p: Seq<usize>, k: int, jmax: int) -> Multiset<usize>
    decreases jmax,
{
    if jmax <= 0 {
        Multiset::empty()
    } else {
        dealt_union(p, k, jmax - 1).add(every_kth(p, jmax - 1, k).to_multiset())
    }
}

proof fn lemma_dealt_union_step(p: Seq<usize>, k: int, jmax: int)
    requires
        p.len() > 0,
        k > 0,
        0 <= jmax <= k,
    ensures
        dealt_union(p, k, jmax) == if (p.len() - 1) % k < jmax {
            dealt_union(p.drop_last(), k, jmax).insert(p.last())
        } else {
            dealt_union(p.drop_last(), k, jmax)
        },
    decreases jmax,
{
    broadcast use vstd::seq_lib::lemma_multiset_commutative, vstd::multiset::group_multiset_axioms;

    if jmax > 0 {
        lemma_dealt_union_step(p, k, jmax - 1);
        let d = p.drop_last();
        let j = jmax - 1;
        let e = every_kth(p, j, k);
        assert(e == every_kth(d, j, k) + if (p.len() - 1) % k == j { seq![p.last()] } else { Seq::empty() });
        if (p.len() - 1) % k == j {
            lemma_single_to_multiset(p.last());
        } else {
            lemma_empty_to_multiset(Seq::<usize>::empty());
        }
        assert(dealt_union(p, k, jmax) =~= if (p.len() - 1) % k < jmax {
            dealt_union(d, k, jmax).insert(p.last())
        } else {
            dealt_union(d, k, jmax)
        });
    }
}

/// Dealt to all `k` folds, a list's entries are all there, once each.
proof fn lemma_dealt_union_all(p: Seq<usize>, k: int)
    requires
        k > 0,
    ensures
        dealt_union(p, k, k) == p.to_multiset(),
    decreases p.len(),
{
    broadcast use vstd::seq_lib::to_multiset_build, vstd::multiset::group_multiset_axioms;

    if p.len() == 0 {
        lemma_dealt_union_empty(p, k, k);
        lemma_empty_to_multiset(p);
    } else {
        let d = p.drop_last();
        lemma_dealt_union_all(d, k);
        lemma_dealt_union_step(p, k, k);
        assert(d.push(p.last()) =~= p);
    }
}

proof fn lemma_dealt_union_empty(p: Seq<usize>, k: int, jmax: int)
    requires
        p.len() == 0,
    ensures
        dealt_union(p, k, jmax) == Multiset::<usize>::empty(),
    decreases jmax,
{
    broadcast use vstd::multiset::group_multiset_axioms;

    if jmax > 0 {
        lemma_dealt_union_empty(p, k, jmax - 1);
        assert(every_kth(p, jmax - 1, k) =~= Seq::<usize>::empty());
        lemma_empty_to_multiset(Seq::<usize>::empty());
        assert(dealt_union(p, k, jmax) =~= Multiset::empty());
    }
}

/// The first `jmax` folds, as one multiset.
pub open spec fn folds_union(ps: Seq<Seq<usize>>, k: int, jmax: int) -> Multiset<usize> {
    union_all(Seq::new(jmax as nat, |j: int| fold_of(ps, j, k)))
}

proof fn lemma_folds_union_step(ps: Seq<Seq<usize>>, k: int, jmax: int)
    requires
        ps.len() > 0,
        0 <= jmax,
    ensures
        folds_union(ps, k, jmax) == folds_union(ps.drop_last(), k, jmax).add(dealt_union(ps.last(), k, jmax)),
    decreases jmax,
{
    broadcast use vstd::seq_lib::lemma_multiset_commutative, vstd::multiset::group_multiset_axioms;

    let d = ps.drop_last();
    if jmax == 0 {
        assert(Seq::new(0, |j: int| fold_of(ps, j, k)) =~= Seq::<Seq<usize>>::empty());
        assert(Seq::new(0, |j: int| fold_of(d, j, k)) =~= Seq::<Seq<usize>>::empty());
        assert(folds_union(ps, k, jmax) =~= folds_union(d, k, jmax).add(dealt_union(ps.last(), k, jmax)));
    } else {
        lemma_folds_union_step(ps, k, jmax - 1);
        let a = Seq::new(jmax as nat, |j: int| fold_of(ps, j, k));
        let b = Seq::new(jmax as nat, |j: int| fold_of(d, j, k));
        assert(a.drop_last() =~= Seq::new((jmax - 1) as nat, |j: int| fold_of(ps, j, k)));
        assert(b.drop_last() =~= Seq::new((jmax - 1) as nat, |j: int| fold_of(d, j, k)));
        assert(a.last() == fold_of(d, jmax - 1, k) + every_kth(ps.last(), jmax - 1, k));
        assert(folds_union(ps, k, jmax) =~= folds_union(d, k, jmax).add(dealt_union(ps.last(), k, jmax)));
    }
}

proof fn lemma_folds_union_all(ps: Seq<Seq<usize>>, k: int)
    requires
        k > 0,
    ensures
        folds_union(ps, k, k) == union_all(ps),
    decreases ps.len(),
{
    broadcast use vstd::multiset::group_multiset_axioms;

    if ps.len() == 0 {
        lemma_folds_union_nothing(ps, k, k);
    } else {
        lemma_folds_union_all(ps.drop_last(), k);
        lemma_folds_union_step(ps, k, k);
        lemma_dealt_union_all(ps.last(), k);
    }
}

proof fn lemma_folds_union_nothing(ps: Seq<Seq<usize>>, k: int, jmax: int)
    requires
        ps.len() == 0,
        0 <= jmax,
    ensures
        folds_union(ps, k, jmax) == Multiset::<usize>::empty(),
    decreases jmax,
{
    broadcast use vstd::multiset::group_multiset_axioms;

    if jmax > 0 {
        lemma_folds_union_nothing(ps, k, jmax - 1);
        let a = Seq::new(jmax as nat, |j: int| fold_of(ps, j, k));
        assert(a.drop_last() =~= Seq::new((jmax - 1) as nat, |j: int| fold_of(ps, j, k)));
        assert(a.last() =~= Seq::<usize>::empty());
        lemma_empty_to_multiset(Seq::<usize>::empty());
        assert(folds_union(ps, k, jmax) =~= Multiset::empty());
    }
}

/// Lists with the same multisets, entry by entry, have the same union.
proof fn lemma_union_all_congruent(ps: Seq<Seq<usize>>, qs: Seq<Seq<usize>>)
    requires
        ps.len() == qs.len(),
        forall|c: int| 0 <= c < ps.len() ==> (#[trigger] ps[c]).to_multiset() == qs[c].to_multiset(),
    ensures
        union_all(ps) == union_all(qs),
    decreases ps.len(),
{
    if ps.len() > 0 {
        lemma_union_all_congruent(ps.drop_last(), qs.drop_last());
        assert(ps.last().to_multiset() == qs.last().to_multiset()) by {
            assert(ps[ps.len() - 1] == ps.last());
        }
    }
}

/// Members below `n` of each class of `cs`.
pub open spec fn class_members(labels: Seq<usize>, cs: Seq<usize>, n: int) -> Seq<Seq<usize>> {
    Seq::new(cs.len(), |c: int| members(labels, cs[c], n))
}

proof fn lemma_members_union_step(labels: Seq<usize>, cs: Seq<usize>, n: int, x: usize)
    requires
        1 <= n <= labels.len(),
        labels.len() <= usize::MAX,
    ensures
        union_all(class_members(labels, cs, n)).count(x) == union_all(class_members(labels, cs, n - 1)).count(x)
            + if x == n - 1 { occurrences(cs, labels[n - 1]) } else { 0int },
    decreases cs.len(),
{
    broadcast use vstd::seq_lib::lemma_multiset_commutative, vstd::multiset::group_multiset_axioms,
        vstd::seq_lib::to_multiset_build;

    if cs.len() == 0 {
        assert(class_members(labels, cs, n) =~= Seq::<Seq<usize>>::empty());
        assert(class_members(labels, cs, n - 1) =~= Seq::<Seq<usize>>::empty());
    } else {
        let d = cs.drop_last();
        lemma_members_union_step(labels, d, n, x);
        assert(class_members(labels, cs, n).drop_last() =~= class_members(labels, d, n));
        assert(class_members(labels, cs, n - 1).drop_last() =~= class_members(labels, d, n - 1));
        let c = cs.last();
        let m1 = members(labels, c, n - 1);
        assert(class_members(labels, cs, n).last() == members(labels, c, n));
        assert(class_members(labels, cs, n - 1).last() == m1);
        let v = (n - 1) as usize;
        if labels[n - 1] == c {
            assert(members(labels, c, n) =~= m1.push(v));
            assert(members(labels, c, n).to_multiset().count(x) == m1.to_multiset().count(x) + if x == v { 1int } else { 0int });
        } else {
            assert(members(labels, c, n) =~= m1);
        }
        assert(occurrences(cs, labels[n - 1]) == occurrences(d, labels[n - 1]) + if c == labels[n - 1] { 1int } else { 0int });
        assert(union_all(class_members(labels, cs, n)) == union_all(class_members(labels, d, n)).add(members(labels, c, n).to_multiset()));
        assert(union_all(class_members(labels, cs, n - 1)) == union_all(class_members(labels, d, n - 1)).add(m1.to_multiset()));
        assert(x == n - 1 <==> x == v);
    }
}

/// Over a strictly increasing list holding every label, the classes' members
/// below `n` are `0..n`, each once.
proof fn lemma_members_union(labels: Seq<usize>, cs: Seq<usize>, n: int)
    requires
        0 <= n <= labels.len(),
        labels.len() <= usize::MAX,
        strictly_sorted(cs),
        forall|i: int| 0 <= i < labels.len() ==> cs.contains(#[trigger] labels[i]),
    ensures
        union_all(class_members(labels, cs, n)) == iota(n).to_multiset(),
    decreases n,
{
    broadcast use vstd::multiset::group_multiset_axioms, vstd::seq_lib::to_multiset_build;

    if n == 0 {
        lemma_members_union_zero(labels, cs);
        assert(iota(0) =~= Seq::<usize>::empty());
        lemma_empty_to_multiset(iota(0));
    } else {
        lemma_members_union(labels, cs, n - 1);
        lemma_occurrences_once(cs, labels[n - 1]);
        assert(iota(n) =~= iota(n - 1).push((n - 1) as usize));
        assert forall|x: usize| #[trigger] union_all(class_members(labels, cs, n)).count(x)
            == iota(n).to_multiset().count(x) by {
            lemma_members_union_step(labels, cs, n, x);
        }
        assert(union_all(class_members(labels, cs, n)) =~= iota(n).to_multiset());
    }
}

proof fn lemma_members_union_zero(labels: Seq<usize>, cs: Seq<usize>)
    ensures
        union_all(class_members(labels, cs, 0)) == Multiset::<usize>::empty(),
    decreases cs.len(),
{
    broadcast use vstd::multiset::group_multiset_axioms;

    if cs.len() > 0 {
        lemma_members_union_zero(labels, cs.drop_last());
        assert(class_members(labels, cs, 0).drop_last() =~= class_members(labels, cs.drop_last(), 0));
        assert(members(labels, cs.last(), 0) =~= Seq::<usize>::empty());
        lemma_empty_to_multiset(Seq::<usize>::empty());
        assert(union_all(class_members(labels, cs, 0)) =~= Multiset::empty());
    }
}

/// The K folds partition the sample indices: together they hold every index
/// `0..n` exactly once.
pub proof fn lemma_kfold_partition(labels: Seq<usize>, k: int, seed: u64)
    requires
        k > 0,
        labels.len() <= usize::MAX,
    ensures
        union_all(kfold(labels, k, seed)) == iota(labels.len() as int).to_multiset(),
{
    let cs = class_list(labels);
    let ps = class_shuffles(labels, cs, seed_state(seed)).1;
    let n = labels.len() as int;
    lemma_class_list(labels);
    lemma_class_shuffles_perm(labels, cs, seed_state(seed));
    assert(kfold(labels, k, seed) == Seq::new(k as nat, |j: int| fold_of(ps, j, k)));
    lemma_folds_union_all(ps, k);
    lemma_union_all_congruent(ps, class_members(labels, cs, n));
    lemma_members_union(labels, cs, n);
}


/// Entries `x` of `s` with `labels[x] == c`.
pub open spec fn label_count(s: Seq<usize>, labels: Seq<usize>, c: usize) -> int
    decreases s.len(),
{
    if s.len() == 0 {
        0
    } else {
        label_count(s.drop_last(), labels, c) + if labels[s.last() as int] == c { 1int } else { 0int }
    }
}

proof fn lemma_label_count_concat(a: Seq<usize>, b: Seq<usize>, labels: Seq<usize>, c: usize)
    ensures
        label_count(a + b, labels, c) == label_count(a, labels, c) + label_count(b, labels, c),
    decreases b.len(),
{
    if b.len() == 0 {
        assert(a + b =~= a);
    } else {
        lemma_label_count_concat(a, b.drop_last(), labels, c);
        assert((a + b).drop_last() =~= a + b.drop_last());
    }
}

/// A list whose entries all carry label `l` counts all or nothing.
proof fn lemma_label_count_uniform(s: Seq<usize>, labels: Seq<usize>, l: usize, c: usize)
    requires
        forall|t: int| 0 <= t < s.len() ==> labels[#[trigger] s[t] as int] == l,
    ensures
        label_count(s, labels, c) == if l == c { s.len() as int } else { 0int },
    decreases s.len(),
{
    if s.len() > 0 {
        let d = s.drop_last();
        assert forall|t: int| 0 <= t < d.len() implies labels[#[trigger] d[t] as int] == l by {
            assert(d[t] == s[t]);
        }
        lemma_label_count_uniform(d, labels, l, c);
    }
}

/// Positions `t < m` with `t % k == j`: how many entries of an `m`-long list
/// a round-robin deal gives fold `j`.
pub open spec fn dealt_count(m: int, j: int, k: int) -> int
    decreases m,
{
    if m <= 0 {
        0
    } else {
        dealt_count(m - 1, j, k) + if (m - 1) % k == j { 1int } else { 0int }
    }
}

proof fn lemma_every_kth(p: Seq<usize>, j: int, k: int)
    ensures
        every_kth(p, j, k).len() == dealt_count(p.len() as int, j, k),
        forall|t: int| 0 <= t < every_kth(p, j, k).len() ==> p.contains(#[trigger] every_kth(p, j, k)[t]),
    decreases p.len(),
{
    if p.len() > 0 {
        let d = p.drop_last();
        lemma_every_kth(d, j, k);
        let e = every_kth(p, j, k);
        assert forall|t: int| 0 <= t < e.len() implies p.contains(#[trigger] e[t]) by {
            if t < every_kth(d, j, k).len() {
                assert(e[t] == every_kth(d, j, k)[t]);
                assert(d.contains(e[t]));
                let w = choose|w: int| 0 <= w < d.len() && d[w] == e[t];
                assert(p[w] == d[w]);
            } else {
                assert(e[t] == p.last());
                assert(p[p.len() - 1] == p.last());
            }
        }
    }
}

/// Round-robin dealing is as even as it can be: fold `j` of `k` gets
/// `(m + k - 1 - j) / k` of `m` entries, which is `m / k` or `m / k + 1`.
pub proof fn lemma_dealt_count(m: int, j: int, k: int)
    requires
        0 <= m,
        0 <= j < k,
    ensures
        dealt_count(m, j, k) == (m + k - 1 - j) / k,
        m / k <= dealt_count(m, j, k) <= m / k + 1,
    decreases m,
{
    let a = m + k - 1 - j;
    let q = m / k;
    let r = m % k;
    vstd::arithmetic::div_mod::lemma_fundamental_div_mod(m, k);
    assert(m == k * q + r);
    if r + k - 1 - j < k {
        vstd::arithmetic::div_mod::lemma_fundamental_div_mod_converse(a, k, q, r + k - 1 - j);
    } else {
        assert((q + 1) * k == q * k + k) by (nonlinear_arith);
        vstd::arithmetic::div_mod::lemma_fundamental_div_mod_converse(a, k, q + 1, r - 1 - j);
    }
    if m > 0 {
        lemma_dealt_count(m - 1, j, k);
        let m1 = m - 1;
        let q1 = m1 / k;
        let r1 = m1 % k;
        vstd::arithmetic::div_mod::lemma_fundamental_div_mod(m1, k);
        assert(m1 == k * q1 + r1);
        let a1 = a - 1;
        if r1 + k - 1 - j < k {
            vstd::arithmetic::div_mod::lemma_fundamental_div_mod_converse(a1, k, q1, r1 + k - 1 - j);
        } else {
            assert((q1 + 1) * k == q1 * k + k) by (nonlinear_arith);
            vstd::arithmetic::div_mod::lemma_fundamental_div_mod_converse(a1, k, q1 + 1, r1 - 1 - j);
        }
        if r1 == k - 1 {
            assert((q1 + 1) * k == q1 * k + k) by (nonlinear_arith);
            vstd::arithmetic::div_mod::lemma_fundamental_div_mod_converse(m, k, q1 + 1, 0);
        } else {
            vstd::arithmetic::div_mod::lemma_fundamental_div_mod_converse(m, k, q1, r1 + 1);
        }
    }
}

/// Members of class `c` are indices below `n` labelled `c`.
proof fn lemma_members_labelled(labels: Seq<usize>, c: usize, n: int)
    requires
        n <= labels.len(),
        labels.len() <= usize::MAX,
    ensures
        forall|t: int|
            0 <= t < members(labels, c, n).len() ==> #[trigger] members(labels, c, n)[t] < n
                && labels[members(labels, c, n)[t] as int] == c,
        !labels.subrange(0, if n < 0 { 0 } else { n }).contains(c) ==> members(labels, c, n).len() == 0,
    decreases n,
{
    if n > 0 {
        lemma_members_labelled(labels, c, n - 1);
        let m = members(labels, c, n);
        let m1 = members(labels, c, n - 1);
        assert forall|t: int| 0 <= t < m.len() implies #[trigger] m[t] < n && labels[m[t] as int] == c by {
            if t < m1.len() {
                assert(m[t] == m1[t]);
            }
        }
        if !labels.subrange(0, n).contains(c) {
            assert(labels.subrange(0, n)[n - 1] == labels[n - 1]);
            assert(!labels.subrange(0, n - 1).contains(c)) by {
                if labels.subrange(0, n - 1).contains(c) {
                    let w = choose|w: int| 0 <= w < n - 1 && #[trigger] labels.subrange(0, n - 1)[w] == c;
                    assert(labels.subrange(0, n)[w] == c);
                }
            }
        }
    }
}

/// Class-`c` entries of fold `j` when each list `ps[i]` holds class `cs[i]`.
proof fn lemma_fold_label_count(
    labels: Seq<usize>,
    cs: Seq<usize>,
    ps: Seq<Seq<usize>>,
    j: int,
    k: int,
    c: usize,
)
    requires
        ps.len() == cs.len(),
        strictly_sorted(cs),
        forall|i: int, t: int|
            0 <= i < ps.len() && 0 <= t < ps[i].len() ==> labels[#[trigger] ps[i][t] as int] == cs[i],
    ensures
        label_count(fold_of(ps, j, k), labels, c) == if cs.contains(c) {
            dealt_count(ps[cs.index_of(c)].len() as int, j, k)
        } else {
            0int
        },
    decreases ps.len(),
{
    if ps.len() > 0 {
        let d = ps.drop_last();
        let dc = cs.drop_last();
        assert(strictly_sorted(dc));
        assert forall|i: int, t: int| 0 <= i < d.len() && 0 <= t < d[i].len() implies labels[#[trigger] d[i][t] as int]
            == dc[i] by {
            assert(d[i] == ps[i]);
        }
        lemma_fold_label_count(labels, dc, d, j, k, c);
        let p = ps.last();
        let e = every_kth(p, j, k);
        lemma_every_kth(p, j, k);
        assert forall|t: int| 0 <= t < e.len() implies labels[#[trigger] e[t] as int] == cs.last() by {
            assert(p.contains(e[t]));
            let w = choose|w: int| 0 <= w < p.len() && p[w] == e[t];
            assert(ps[ps.len() - 1][w] == p[w]);
        }
        lemma_label_count_uniform(e, labels, cs.last(), c);
        lemma_label_count_concat(fold_of(d, j, k), e, labels, c);
        if cs.last() == c {
            assert(!dc.contains(c)) by {
                if dc.contains(c) {
                    let w = choose|w: int| 0 <= w < dc.len() && dc[w] == c;
                    assert(cs[w] < cs[cs.len() - 1]);
                }
            }
            assert(cs.contains(c)) by {
                assert(cs[cs.len() - 1] == c);
            }
            assert(cs.index_of(c) == cs.len() - 1) by {
                let w = cs.index_of(c);
                if w < cs.len() - 1 {
                    assert(cs[w] < cs[cs.len() - 1]);
                }
            }
        } else {
            assert(cs.contains(c) == dc.contains(c)) by {
                if cs.contains(c) {
                    let w = choose|w: int| 0 <= w < cs.len() && cs[w] == c;
                    assert(dc[w] == c);
                }
                if dc.contains(c) {
                    let w = choose|w: int| 0 <= w < dc.len() && dc[w] == c;
                    assert(cs[w] == c);
                }
            }
            if cs.contains(c) {
                assert(cs.index_of(c) == dc.index_of(c)) by {
                    let a = cs.index_of(c);
                    let b = dc.index_of(c);
                    assert(cs[b] == c);
                    if a < b {
                        assert(dc[a] == c);
                    }
                }
                assert(ps[cs.index_of(c)] == d[dc.index_of(c)]);
            }
        }
    }
}

/// The K folds are stratified: fold `j` holds `(m + k - 1 - j) / k` of the
/// `m` samples of each class, which is `m / k` or `m / k + 1`.
pub proof fn lemma_kfold_balanced(labels: Seq<usize>, k: int, seed: u64, j: int, c: usize)
    requires
        0 <= j < k,
        labels.len() <= usize::MAX,
    ensures
        ({
            let m = members(labels, c, labels.len() as int).len() as int;
            &&& label_count(kfold(labels, k, seed)[j], labels, c) == (m + k - 1 - j) / k
            &&& m / k <= label_count(kfold(labels, k, seed)[j], labels, c) <= m / k + 1
        }),
{
    broadcast use vstd::seq_lib::to_multiset_contains;

    let n = labels.len() as int;
    let cs = class_list(labels);
    let ps = class_shuffles(labels, cs, seed_state(seed)).1;
    lemma_class_list(labels);
    lemma_class_shuffles_perm(labels, cs, seed_state(seed));
    assert forall|i: int, t: int| 0 <= i < ps.len() && 0 <= t < ps[i].len() implies labels[#[trigger] ps[i][t] as int]
        == cs[i] by {
        let x = ps[i][t];
        assert(ps[i].contains(x));
        assert(ps[i].to_multiset().count(x) > 0);
        let mm = members(labels, cs[i], n);
        assert(mm.to_multiset().count(x) > 0);
        assert(mm.contains(x));
        let w = choose|w: int| 0 <= w < mm.len() && mm[w] == x;
        lemma_members_labelled(labels, cs[i], n);
    }
    lemma_fold_label_count(labels, cs, ps, j, k, c);
    assert(kfold(labels, k, seed)[j] == fold_of(ps, j, k));
    let m = members(labels, c, n).len() as int;
    lemma_dealt_count(m, j, k);
    if cs.contains(c) {
        let i = cs.index_of(c);
        assert(ps[i].to_multiset() == members(labels, c, n).to_multiset());
        vstd::seq_lib::to_multiset_len(ps[i]);
        vstd::seq_lib::to_multiset_len(members(labels, c, n));
    } else {
        lemma_members_labelled(labels, c, n);
        assert(labels.subrange(0, n) =~= labels);
        assert(!labels.contains(c)) by {
            if labels.contains(c) {
                let w = choose|w: int| 0 <= w < n && labels[w] == c;
                assert(cs.contains(labels[w]));
            }
        }
    }
}


// ---------------------------------------------------------------------------
// What the pair sampler promises

/// Indices in range and distinct, flagged "same" exactly when the labels agree.
pub open spec fn pair_ok(labels: Seq<usize>, p: Pair) -> bool {
    &&& p.i < labels.len()
    &&& p.j < labels.len()
    &&& p.i != p.j
    &&& (p.same <==> labels[p.i as int] == labels[p.j as int])
}

/// Every pair of `ps` is well-formed and flagged `same`.
pub open spec fn all_ok(labels: Seq<usize>, ps: Seq<Pair>, same: bool) -> bool {
    forall|t: int| 0 <= t < ps.len() ==> pair_ok(labels, #[trigger] ps[t]) && ps[t].same == same
}

proof fn lemma_members_sorted(labels: Seq<usize>, c: usize, n: int)
    requires
        n <= labels.len(),
        labels.len() <= usize::MAX,
    ensures
        strictly_sorted(members(labels, c, n)),
    decreases n,
{
    if n > 0 {
        lemma_members_sorted(labels, c, n - 1);
        lemma_members_labelled(labels, c, n - 1);
    }
}

proof fn lemma_consecutive_pairs_ok(labels: Seq<usize>, m: Seq<usize>, c: usize)
    requires
        strictly_sorted(m),
        forall|t: int| 0 <= t < m.len() ==> #[trigger] m[t] < labels.len() && labels[m[t] as int] == c,
    ensures
        all_ok(labels, consecutive_pairs(m), true),
    decreases m.len(),
{
    if m.len() >= 2 {
        let d = m.drop_last();
        assert(strictly_sorted(d));
        assert forall|t: int| 0 <= t < d.len() implies #[trigger] d[t] < labels.len() && labels[d[t] as int] == c by {
            assert(d[t] == m[t]);
        }
        lemma_consecutive_pairs_ok(labels, d, c);
        assert(m[m.len() - 2] < m[m.len() - 1]);
    }
}

proof fn lemma_positive_pairs_ok(labels: Seq<usize>, cs: Seq<usize>)
    requires
        labels.len() <= usize::MAX,
    ensures
        all_ok(labels, positive_pairs(labels, cs), true),
    decreases cs.len(),
{
    if cs.len() > 0 {
        lemma_positive_pairs_ok(labels, cs.drop_last());
        let n = labels.len() as int;
        let m = members(labels, cs.last(), n);
        lemma_members_sorted(labels, cs.last(), n);
        lemma_members_labelled(labels, cs.last(), n);
        lemma_consecutive_pairs_ok(labels, m, cs.last());
        let a = positive_pairs(labels, cs.drop_last());
        let b = consecutive_pairs(m);
        assert forall|t: int| 0 <= t < (a + b).len() implies pair_ok(labels, #[trigger] (a + b)[t]) && (a
            + b)[t].same == true by {
            if t < a.len() {
                assert((a + b)[t] == a[t]);
            } else {
                assert((a + b)[t] == b[t - a.len()]);
            }
        }
    }
}

proof fn lemma_kept_ok(labels: Seq<usize>, pos: Seq<Pair>, keep: Seq<bool>, same: bool)
    requires
        all_ok(labels, pos, same),
    ensures
        all_ok(labels, kept(pos, keep), same),
        kept(pos, keep).len() <= pos.len(),
    decreases pos.len(),
{
    if pos.len() > 0 {
        let d = pos.drop_last();
        assert forall|t: int| 0 <= t < d.len() implies pair_ok(labels, #[trigger] d[t]) && d[t].same == same by {
            assert(d[t] == pos[t]);
        }
        lemma_kept_ok(labels, d, keep, same);
        let a = kept(d, keep);
        let b: Seq<Pair> = if keep[pos.len() - 1] { seq![pos.last()] } else { Seq::empty() };
        assert(pos[pos.len() - 1] == pos.last());
        assert forall|t: int| 0 <= t < (a + b).len() implies pair_ok(labels, #[trigger] (a + b)[t]) && (a
            + b)[t].same == same by {
            if t < a.len() {
                assert((a + b)[t] == a[t]);
            } else {
                assert((a + b)[t] == b[t - a.len()]);
            }
        }
    }
}

proof fn lemma_neg_sample_ok(labels: Seq<usize>, target: int, s: u64, neg: Seq<Pair>, attempts: int)
    requires
        all_ok(labels, neg, false),
        neg.len() <= target || target < 0,
        labels.len() <= usize::MAX,
    ensures
        all_ok(labels, neg_sample(labels, target, s, neg, attempts), false),
        neg_sample(labels, target, s, neg, attempts).len() <= if target < 0 { neg.len() as int } else { target },
    decreases target * 20 - attempts,
{
    if neg.len() < target && attempts < target * 20 {
        let n = labels.len();
        let s1 = xorshift(s);
        let a = range_draw(s1, n as usize);
        let s2 = xorshift(s1);
        let b = range_draw(s2, n as usize);
        if a == b || labels[a as int] == labels[b as int] || has_pair(neg, a, b) {
            lemma_neg_sample_ok(labels, target, s2, neg, attempts + 1);
        } else {
            if n > 0 {
                assert(((s1 as usize) as int % (n as int)) < n);
                assert(((s2 as usize) as int % (n as int)) < n);
            } else {
                assert(a == 0 && b == 0);
            }
            let neg2 = neg.push(Pair { i: a, j: b, same: false });
            assert forall|t: int| 0 <= t < neg2.len() implies pair_ok(labels, #[trigger] neg2[t]) && neg2[t].same
                == false by {
                if t < neg.len() {
                    assert(neg2[t] == neg[t]);
                }
            }
            lemma_neg_sample_ok(labels, target, s2, neg2, attempts + 1);
        }
    }
}

/// The sampled pairs: the same-person pairs join two different samples of one
/// person, the different-person pairs two samples of different people; there
/// are never more different-person pairs than same-person ones; and the result
/// is these pairs in a shuffled order, each pair well-formed.
pub proof fn lemma_pairs_balanced(labels: Seq<usize>, max_pairs: usize, seed: u64)
    requires
        labels.len() * 20 <= usize::MAX,
    ensures
        ({
            let pos = sampled_positives(labels, max_pairs, seed);
            let all = unshuffled_pairs(labels, max_pairs, seed);
            let neg = all.subrange(pos.len() as int, all.len() as int);
            let r = pairs_spec(labels, max_pairs, seed);
            &&& all_ok(labels, pos, true)
            &&& all_ok(labels, neg, false)
            &&& neg.len() <= pos.len()
            &&& r.len() == all.len()
            &&& forall|t: int| 0 <= t < r.len() ==> pair_ok(labels, #[trigger] r[t])
        }),
{
    let n = labels.len() as int;
    let cs = class_list(labels);
    let pos0 = positive_pairs(labels, cs);
    lemma_positive_pairs_ok(labels, cs);
    let pos = sampled_positives(labels, max_pairs, seed);
    if pos0.len() > max_pairs / 2 {
        let keep = mark_keep(seed_state(seed), Seq::new(pos0.len(), |t: int| false), (max_pairs / 2) as nat).1;
        lemma_kept_ok(labels, pos0, keep, true);
    }
    let s_neg = seed_state(((seed as nat * 0x9E3779B97F4A7C15nat) % 0x1_0000_0000_0000_0000nat) as u64);
    let neg = neg_sample(labels, pos.len() as int, s_neg, Seq::empty(), 0);
    lemma_neg_sample_ok(labels, pos.len() as int, s_neg, Seq::empty(), 0);
    let all = unshuffled_pairs(labels, max_pairs, seed);
    assert(all == pos + neg);
    assert(all.subrange(pos.len() as int, all.len() as int) =~= neg);
    let total = all.len() as int;
    let s1 = fisher_yates(seed_state(seed), iota(total), total - 1).0;
    let order = fisher_yates(s1, iota(total), total - 1).1;
    if total > 0 {
        lemma_fisher_yates_perm(s1, iota(total), total - 1);
    } else {
        assert(order == iota(total));
    }
    assert(total <= usize::MAX) by {
        lemma_positive_pairs_len(labels);
        lemma_kept_len(pos0, mark_keep(seed_state(seed), Seq::new(pos0.len(), |t: int| false), (max_pairs / 2) as nat).1);
        assert(pos.len() <= n);
        assert(neg.len() <= pos.len());
    }
    lemma_perm_in_range(order, total);
    let r = pairs_spec(labels, max_pairs, seed);
    assert forall|t: int| 0 <= t < r.len() implies pair_ok(labels, #[trigger] r[t]) by {
        let u = order[t] as int;
        assert(r[t] == all[u]);
        if u < pos.len() {
            assert(all[u] == pos[u]);
        } else {
            assert(all[u] == neg[u - pos.len()]);
        }
    }
}


// ---------------------------------------------------------------------------
// Report time stamps

/// Gregorian leap year.
pub open spec fn is_leap(y: int) -> bool {
    (y % 4 == 0 && y % 100 != 0) || y % 400 == 0
}

pub open spec fn year_len(y: int) -> int {
    if is_leap(y) { 366 } else { 365 }
}

/// Year and day of that year reached by counting `d` days from day 0 of `y`.
pub open spec fn year_day(y: int, d: int) -> (int, int)
    decreases d,
{
    if d < year_len(y) {
        (y, d)
    } else {
        year_day(y + 1, d - year_len(y))
    }
}

/// Length of month `m` (1 = January).
pub open spec fn month_len(m: int, leap: bool) -> int {
    if m == 2 {
        if leap { 29 } else { 28 }
    } else if m == 4 || m == 6 || m == 9 || m == 11 {
        30
    } else {
        31
    }
}

/// Month and day of month reached by counting `d` days from the first of month `m`.
pub open spec fn month_day(m: int, d: int, leap: bool) -> (int, int)
    decreases 13 - m,
{
    if m > 12 || d < month_len(m, leap) {
        (m, d)
    } else {
        month_day(m + 1, d - month_len(m, leap), leap)
    }
}

/// `YYYY-MM-DD hh:mm:ss UTC` for `now` seconds after 1970-01-01 00:00 UTC.
pub open spec fn utc_text(now: nat) -> Seq<char> {
    let (y, r) = year_day(1970, (now / 86400) as int);
    let (m, dd) = month_day(1, r, is_leap(y));
    let st = now % 86400;
    zero_padded(y as nat, 4) + seq!['-'] + zero_padded(m as nat, 2) + seq!['-'] + zero_padded((dd + 1) as nat, 2)
        + seq![' '] + zero_padded(st / 3600, 2) + seq![':'] + zero_padded((st % 3600) / 60, 2) + seq![':']
        + zero_padded(st % 60, 2) + seq![' ', 'U', 'T', 'C']
}

fn leap_exec(y: u64) -> (r: bool)
    ensures
        r == is_leap(y as int),
{
    (y % 4 == 0 && y % 100 != 0) || y % 400 == 0
}

/// Formats a Unix time (seconds) as a UTC date and time.
pub fn format_utc(now: u64) -> (s: String)
    ensures
        s@ == utc_text(now as nat),
{
    let days = now / 86400;
    let mut year: u64 = 1970;
    let mut rem: u64 = days;
    loop
        invariant
            1970 <= year <= 1970 + days - rem,
            rem <= days,
            days == now / 86400,
            year_day(1970, days as int) == year_day(year as int, rem as int),
        ensures
            year_day(1970, days as int) == (year as int, rem as int),
            rem < year_len(year as int),
        decreases rem,
    {
        let dy: u64 = if leap_exec(year) { 366 } else { 365 };
        if rem < dy {
            break;
        }
        rem = rem - dy;
        year = year + 1;
    }
    let leap = leap_exec(year);
    let month_days: [u64; 12] = if leap {
        [31, 29, 31, 30, 31, 30, 31, 31, 30, 31, 30, 31]
    } else {
        [31, 28, 31, 30, 31, 30, 31, 31, 30, 31, 30, 31]
    };
    let mut month: u64 = 1;
    let mut k: usize = 0;
    while k < 12
        invariant
            k <= 12,
            month == k + 1,
            rem <= 366,
            leap == is_leap(year as int),
            forall|t: int| 0 <= t < 12 ==> #[trigger] month_days@[t] == month_len(t + 1, leap),
            month_day(1, year_day(1970, days as int).1, leap) == month_day(month as int, rem as int, leap),
        ensures
            month_day(1, year_day(1970, days as int).1, leap) == (month as int, rem as int),
        decreases 12 - k,
    {
        let dm = month_days[k];
        if rem < dm {
            break;
        }
        rem = rem - dm;
        month = month + 1;
        k = k + 1;
    }
    let day = rem + 1;
    let st = now % 86400;
    let mut s = String::new();
    proof {
        reveal_strlit("-");
        reveal_strlit(" ");
        reveal_strlit(":");
        reveal_strlit(" UTC");
    }
    push_padded(&mut s, year, 4);
    s.append("-");
    push_padded(&mut s, month, 2);
    s.append("-");
    push_padded(&mut s, day, 2);
    s.append(" ");
    push_padded(&mut s, st / 3600, 2);
    s.append(":");
    push_padded(&mut s, (st % 3600) / 60, 2);
    s.append(":");
    push_padded(&mut s, st % 60, 2);
    s.append(" UTC");
    proof {
        assert(s@ =~= utc_text(now as nat));
    }
    s
}


// ---------------------------------------------------------------------------
// How many different-person pairs are drawn

/// The generator state after `k` steps from `s`.
pub open spec fn xorshift_iter(s: u64, k: nat) -> u64
    decreases k,
{
    if k == 0 {
        s
    } else {
        xorshift(xorshift_iter(s, (k - 1) as nat))
    }
}

/// The two sample indices drawn by attempt `t` (counted from 0) of a
/// generator started in state `s0`: its outputs `2t + 1` and `2t + 2`.
pub open spec fn attempt_draw(n: usize, s0: u64, t: nat) -> (usize, usize) {
    (range_draw(xorshift_iter(s0, 2 * t + 1), n), range_draw(xorshift_iter(s0, 2 * t + 2), n))
}

/// The different-person pairs accepted in the first `m` attempts, with no
/// limit on their number: an attempt is kept when its two samples differ,
/// belong to different people and form a pair not kept before.
pub open spec fn accepted_pairs(labels: Seq<usize>, s0: u64, m: nat) -> Seq<Pair>
    decreases m,
{
    if m == 0 {
        Seq::empty()
    } else {
        let prev = accepted_pairs(labels, s0, (m - 1) as nat);
        let (a, b) = attempt_draw(labels.len() as usize, s0, (m - 1) as nat);
        if a == b || labels[a as int] == labels[b as int] || has_pair(prev, a, b) {
            prev
        } else {
            prev.push(Pair { i: a, j: b, same: false })
        }
    }
}

/// State the different-person sampling of `generate_pairs` starts from.
pub open spec fn negative_seed(seed: u64) -> u64 {
    seed_state(((seed as nat * 0x9E3779B97F4A7C15nat) % 0x1_0000_0000_0000_0000nat) as u64)
}

proof fn lemma_accepted_prefix(labels: Seq<usize>, s0: u64, m1: nat, m2: nat)
    requires
        m1 <= m2,
    ensures
        accepted_pairs(labels, s0, m1).len() <= accepted_pairs(labels, s0, m2).len(),
        accepted_pairs(labels, s0, m2).take(accepted_pairs(labels, s0, m1).len() as int) == accepted_pairs(labels, s0, m1),
    decreases m2,
{
    let p1 = accepted_pairs(labels, s0, m1);
    if m1 == m2 {
        assert(p1.take(p1.len() as int) =~= p1);
    } else {
        lemma_accepted_prefix(labels, s0, m1, (m2 - 1) as nat);
        let prev = accepted_pairs(labels, s0, (m2 - 1) as nat);
        let cur = accepted_pairs(labels, s0, m2);
        assert(cur == prev || cur == prev.push(cur.last()));
        if cur != prev {
            assert(cur.take(p1.len() as int) =~= prev.take(p1.len() as int));
        }
    }
}

proof fn lemma_neg_sample_accepted(labels: Seq<usize>, target: int, s0: u64, att: nat)
    requires
        0 <= target,
        att <= target * 20,
        accepted_pairs(labels, s0, att).len() <= target,
    ensures
        ({
            let all = accepted_pairs(labels, s0, (target * 20) as nat);
            let found = if all.len() < target { all.len() as int } else { target };
            neg_sample(labels, target, xorshift_iter(s0, 2 * att), accepted_pairs(labels, s0, att), att as int)
                == all.take(found)
        }),
    decreases target * 20 - att,
{
    let m = (target * 20) as nat;
    let all = accepted_pairs(labels, s0, m);
    let found = if all.len() < target { all.len() as int } else { target };
    let neg = accepted_pairs(labels, s0, att);
    let s = xorshift_iter(s0, 2 * att);
    lemma_accepted_prefix(labels, s0, att, m);
    if !(neg.len() < target && att < target * 20) {
        if neg.len() >= target {
            assert(found == target);
        } else {
            assert(att == m);
            assert(all.take(found) =~= all);
        }
    } else {
        assert(xorshift_iter(s0, 2 * att + 1) == xorshift(s));
        assert(xorshift_iter(s0, 2 * att + 2) == xorshift(xorshift(s)));
        assert(2 * (att + 1) == 2 * att + 2);
        assert(accepted_pairs(labels, s0, att + 1) == {
            let (a, b) = attempt_draw(labels.len() as usize, s0, att);
            if a == b || labels[a as int] == labels[b as int] || has_pair(neg, a, b) {
                neg
            } else {
                neg.push(Pair { i: a, j: b, same: false })
            }
        });
        lemma_neg_sample_accepted(labels, target, s0, att + 1);
    }
}

/// Different-person pairs are drawn until there are as many as same-person
/// pairs, or until 20 attempts per same-person pair are spent: the pairs are
/// the (down-sampled) same-person pairs followed by the first
/// `min(pos, found)` different-person pairs accepted in `20 * pos` attempts,
/// `pos` being the number of same-person pairs. So there are exactly twice as
/// many pairs as same-person pairs whenever those attempts find enough.
pub proof fn lemma_pairs_fill(labels: Seq<usize>, max_pairs: usize, seed: u64)
    ensures
        ({
            let pos = sampled_positives(labels, max_pairs, seed);
            let tries = accepted_pairs(labels, negative_seed(seed), (pos.len() * 20) as nat);
            let found = if tries.len() < pos.len() { tries.len() as int } else { pos.len() as int };
            &&& unshuffled_pairs(labels, max_pairs, seed) == pos + tries.take(found)
            &&& pairs_spec(labels, max_pairs, seed).len() == pos.len() + found
            &&& (tries.len() >= pos.len() ==> pairs_spec(labels, max_pairs, seed).len() == 2 * pos.len())
        }),
{
    let pos = sampled_positives(labels, max_pairs, seed);
    let s0 = negative_seed(seed);
    assert(xorshift_iter(s0, 0) == s0);
    assert(accepted_pairs(labels, s0, 0) =~= Seq::<Pair>::empty());
    lemma_neg_sample_accepted(labels, pos.len() as int, s0, 0);
}

} // verus!
