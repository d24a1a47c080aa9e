//! Resolution of slide and presentation names: exact matches first, then
//! fuzzy ones scored by the skim matcher, then a substring fallback for
//! very short queries.
use vstd::prelude::*;
use crate::config::MatchingConfig;
use crate::text;
use fuzzy_matcher::skim::SkimMatcherV2;
use fuzzy_matcher::FuzzyMatcher;

verus! {

broadcast use vstd::string::group_string_axioms;

/// `fuzzy_matcher::skim::SkimMatcherV2`, carried as an opaque value.
#[verifier::external_type_specification]
#[verifier::external_body]
pub struct ExSkimMatcherV2(SkimMatcherV2);

/// Name for the score `SkimMatcherV2::fuzzy_match` gives `choice` against
/// `pattern` under the matcher's default configuration.
pub uninterp spec fn skim_score(choice: Seq<char>, pattern: Seq<char>) -> Option<i64>;

/// A matcher with skim's default configuration (`SkimMatcherV2::default`).
#[verifier::external_body]
fn default_skim_matcher() -> (m: SkimMatcherV2) {
    SkimMatcherV2::default()
}

/// Calls `FuzzyMatcher::fuzzy_match` of `SkimMatcherV2`. The score is named,
/// not stated; the source shows that an empty pattern scores `Some(0)`.
/// The matchers of this library are only ever built by
/// `SkimMatcherV2::default`, whose configuration the name assumes.
#[verifier::external_body]
fn skim_fuzzy_match(m: &SkimMatcherV2, choice: &str, pattern: &str) -> (r: Option<i64>)
    ensures
        r == skim_score(choice@, pattern@),
        pattern@.len() == 0 ==> r == Some(0i64),
{
    m.fuzzy_match(choice, pattern)
}

/// Error when matching fails unexpectedly.
#[derive(Debug, Clone)]
pub struct MatchError {
    pub message: String,
}

/// Kinds of matches, in order of priority.
#[derive(Debug, Clone, Copy, PartialEq, Eq, Structural)]
pub enum MatchType {
    /// Exact anchor match.
    Anchor,
    /// Exact string match.
    Exact,
    /// Fuzzy string match.
    Fuzzy,
    /// Numeric index match.
    Index,
}

/// A match: the candidate, its score (higher is better) and its kind.
#[derive(Debug)]
pub struct MatchResult {
    pub value: String,
    pub score: i64,
    pub match_type: MatchType,
}

/// A match as plain values.
pub type MatchView = (Seq<char>, i64, MatchType);

impl MatchResult {
    pub open spec fn view(&self) -> MatchView {
        (self.value@, self.score, self.match_type)
    }

    /// A copy of this match.
    pub fn duplicate(&self) -> (r: MatchResult)
        ensures
            r.view() == self.view(),
    {
        MatchResult { value: self.value.clone(), score: self.score, match_type: self.match_type }
    }
}

pub open spec fn views(v: Seq<MatchResult>) -> Seq<MatchView> {
    v.map_values(|m: MatchResult| m.view())
}

/// Result of resolving a query to one candidate.
#[derive(Debug)]
pub enum ResolveResult {
    /// Exactly one match.
    Found(MatchResult),
    /// No match.
    NotFound,
    /// Several matches; the user must choose.
    Multiple(Vec<MatchResult>),
}

/// A resolution as plain values.
pub enum ResolveView {
    Found(MatchView),
    NotFound,
    Multiple(Seq<MatchView>),
}

impl ResolveResult {
    pub open spec fn view(&self) -> ResolveView {
        match self {
            ResolveResult::Found(m) => ResolveView::Found(m.view()),
            ResolveResult::NotFound => ResolveView::NotFound,
            ResolveResult::Multiple(v) => ResolveView::Multiple(views(v@)),
        }
    }
}

/// How the matches of a query resolve: none found; exactly one; the first
/// when it is exact and the second is not, or when its score is more than
/// twice the second's (saturating); otherwise all of them, for the user to
/// choose from.
pub open spec fn resolve_spec(all: Seq<MatchView>) -> ResolveView {
    if all.len() == 0 {
        ResolveView::NotFound
    } else if all.len() == 1 {
        ResolveView::Found(all[0])
    } else if all[0].2 == MatchType::Exact && all[1].2 != MatchType::Exact {
        ResolveView::Found(all[0])
    } else if all[0].1 > sat_double(all[1].1) {
        ResolveView::Found(all[0])
    } else {
        ResolveView::Multiple(all)
    }
}

/// Resolves names against candidates with a configured threshold and cap.
pub struct SldrMatcher {
    config: MatchingConfig,
    matcher: SkimMatcherV2,
}

pub open spec fn md_ext() -> Seq<char> {
    seq!['.', 'm', 'd']
}

/// A path with its `.md` endings removed.
pub open spec fn normalize_spec(p: Seq<char>) -> Seq<char> {
    text::trim_end_matches(p, md_ext())
}

/// The part of a path after its last `/`.
pub open spec fn name_spec(p: Seq<char>) -> Seq<char> {
    match text::rfind(p, seq!['/']) {
        Some(i) => p.skip(i + 1),
        None => p,
    }
}

/// Sort rank of a match kind.
pub open spec fn type_rank(t: MatchType) -> int {
    match t {
        MatchType::Anchor => 0,
        MatchType::Exact => 1,
        MatchType::Fuzzy => 2,
        MatchType::Index => 3,
    }
}

/// `a` may stay before `b`: lower kind rank, or equal rank and a score at
/// least as high.
pub open spec fn sorts_before(a: MatchView, b: MatchView) -> bool {
    type_rank(a.2) < type_rank(b.2) || (type_rank(a.2) == type_rank(b.2) && a.1 >= b.1)
}

/// `x` inserted into `sorted` after every element that may stay before it.
pub open spec fn insert_sorted(sorted: Seq<MatchView>, x: MatchView) -> Seq<MatchView>
    decreases sorted.len(),
{
    if sorted.len() == 0 {
        seq![x]
    } else if sorts_before(sorted.last(), x) {
        sorted.push(x)
    } else {
        insert_sorted(sorted.drop_last(), x).push(sorted.last())
    }
}

/// The stable sort of `s` by kind rank, then by score, highest first.
pub open spec fn sort_matches(s: Seq<MatchView>) -> Seq<MatchView>
    decreases s.len(),
{
    if s.len() == 0 {
        s
    } else {
        insert_sorted(sort_matches(s.drop_last()), s.last())
    }
}

/// The better of two optional scores.
pub open spec fn best_score(a: Option<i64>, b: Option<i64>) -> Option<i64> {
    match (a, b) {
        (Some(p), Some(n)) => Some(if p >= n { p } else { n }),
        (Some(p), None) => Some(p),
        (None, Some(n)) => Some(n),
        (None, None) => None,
    }
}

/// Some match in `acc` is for `cand`.
pub open spec fn listed_in(acc: Seq<MatchView>, cand: Seq<char>) -> bool {
    exists|k: int| 0 <= k < acc.len() && (#[trigger] acc[k]).0 == cand
}

/// What one candidate adds to the matches collected so far, for the
/// lowercased normalized query `ql` and its lowercased name `qn`.
pub open spec fn candidate_step(
    acc: Seq<MatchView>,
    cand: Seq<char>,
    ql: Seq<char>,
    qn: Seq<char>,
    threshold: i64,
) -> Seq<MatchView> {
    let cnorm = normalize_spec(cand);
    let cl = text::lowercase(cnorm);
    let cn = text::lowercase(name_spec(cnorm));
    if cl == ql || cn == ql || cl == qn {
        acc.push((cand, i64::MAX, MatchType::Exact))
    } else {
        let acc1 = match best_score(skim_score(cl, ql), skim_score(cn, qn)) {
            Some(s) => if s >= threshold {
                acc.push((cand, s, MatchType::Fuzzy))
            } else {
                acc
            },
            None => acc,
        };
        if text::byte_len(qn) <= 3 && text::contains(cn, qn) && !listed_in(acc1, cand) {
            acc1.push((cand, (text::byte_len(qn) * 50) as i64, MatchType::Fuzzy))
        } else {
            acc1
        }
    }
}

/// The matches of all candidates, in candidate order.
pub open spec fn collect_matches(
    cands: Seq<Seq<char>>,
    ql: Seq<char>,
    qn: Seq<char>,
    threshold: i64,
) -> Seq<MatchView>
    decreases cands.len(),
{
    if cands.len() == 0 {
        Seq::empty()
    } else {
        candidate_step(collect_matches(cands.drop_last(), ql, qn, threshold), cands.last(), ql, qn, threshold)
    }
}

/// All matches of `query` among `cands`: nothing for an empty query or no
/// candidates; otherwise the collected matches, stably sorted and cut to
/// `max` entries.
pub open spec fn find_all_spec(query: Seq<char>, cands: Seq<Seq<char>>, threshold: i64, max: usize) -> Seq<
    MatchView,
> {
    if query.len() == 0 || cands.len() == 0 {
        Seq::empty()
    } else {
        let qnorm = normalize_spec(query);
        let sorted = sort_matches(
            collect_matches(cands, text::lowercase(qnorm), text::lowercase(name_spec(qnorm)), threshold),
        );
        if sorted.len() > max {
            sorted.take(max as int)
        } else {
            sorted
        }
    }
}

/// A path with its `.md` endings removed.
fn normalize_path(path: &[char]) -> (r: Vec<char>)
    ensures
        r@ == normalize_spec(path@),
{
    let md: Vec<char> = vec!['.', 'm', 'd'];
    assert(md@ =~= md_ext());
    text::trim_end_matches_chars(path, md.as_slice())
}

/// The part of a path after its last `/`.
fn extract_name(path: &[char]) -> (r: Vec<char>)
    ensures
        r@ == name_spec(path@),
{
    match text::rfind_char(path, '/') {
        Some(i) => {
            let r = text::slice_vec(path, i + 1, path.len());
            assert(r@ =~= path@.skip(i + 1));
            r
        },
        None => text::slice_vec(path, 0, path.len()),
    }
}

/// Insert `x` into `out` (sorted) after every element that may stay before it.
fn insert_match(out: &mut Vec<MatchResult>, x: MatchResult)
    ensures
        views(final(out)@) == insert_sorted(views(old(out)@), x.view()),
{
    let ghost v = views(out@);
    let ghost xv = x.view();
    let mut j: usize = out.len();
    assert(v.take(j as int) =~= v);
    assert(v.skip(j as int) =~= Seq::<MatchView>::empty());
    while j > 0 && !(type_order(out[j - 1].match_type) < type_order(x.match_type) || (type_order(
        out[j - 1].match_type,
    ) == type_order(x.match_type) && out[j - 1].score >= x.score))
        invariant
            j <= out.len(),
            v == views(out@),
            xv == x.view(),
            insert_sorted(v, xv) == insert_sorted(v.take(j as int), xv) + v.skip(j as int),
        decreases j,
    {
        let ghost t = v.take(j as int);
        assert(t.drop_last() =~= v.take(j - 1));
        assert(t.last() == v[j - 1]);
        assert(seq![v[j - 1]] + v.skip(j as int) =~= v.skip(j - 1));
        assert(insert_sorted(t, xv) == insert_sorted(v.take(j - 1), xv).push(v[j - 1]));
        assert(insert_sorted(v.take(j - 1), xv).push(v[j - 1]) + v.skip(j as int) =~= insert_sorted(
            v.take(j - 1),
            xv,
        ) + v.skip(j - 1));
        j -= 1;
    }
    proof {
        if j > 0 {
            assert(v.take(j as int).last() == v[j - 1]);
        }
    }
    out.insert(j, x);
    assert(views(out@) =~= v.take(j as int).push(xv) + v.skip(j as int));
}

/// Sort rank of a match kind.
fn type_order(t: MatchType) -> (r: u8)
    ensures
        r == type_rank(t),
{
    match t {
        MatchType::Anchor => 0,
        MatchType::Exact => 1,
        MatchType::Fuzzy => 2,
        MatchType::Index => 3,
    }
}

/// The stable sort of `v` (see [`sort_matches`]).
fn sort_results(v: &Vec<MatchResult>) -> (r: Vec<MatchResult>)
    ensures
        views(r@) == sort_matches(views(v@)),
{
    let mut out: Vec<MatchResult> = Vec::new();
    let mut i: usize = 0;
    assert(views(v@).take(0) =~= Seq::<MatchView>::empty());
    while i < v.len()
        invariant
            i <= v.len(),
            views(out@) == sort_matches(views(v@).take(i as int)),
        decreases v.len() - i,
    {
        let x = v[i].duplicate();
        assert(views(v@).take(i + 1).drop_last() =~= views(v@).take(i as int));
        insert_match(&mut out, x);
        i += 1;
    }
    assert(views(v@).take(v.len() as int) =~= views(v@));
    out
}

/// Whether a match for `value` is already listed.
fn listed(results: &Vec<MatchResult>, value: &String) -> (b: bool)
    ensures
        b == listed_in(views(results@), value@),
{
    let mut i: usize = 0;
    while i < results.len()
        invariant
            i <= results.len(),
            forall|k: int| 0 <= k < i ==> (#[trigger] views(results@)[k]).0 != value@,
        decreases results.len() - i,
    {
        if results[i].value == *value {
            assert(views(results@)[i as int].0 == value@);
            return true;
        }
        i += 1;
    }
    false
}

impl SldrMatcher {
    /// The minimum fuzzy score this matcher accepts.
    pub closed spec fn threshold(&self) -> i64 {
        self.config.threshold
    }

    /// The most matches this matcher lists.
    pub closed spec fn max_suggestions(&self) -> usize {
        self.config.max_suggestions
    }

    /// A matcher with the given configuration.
    pub fn new(config: MatchingConfig) -> (m: Self)
        ensures
            m.threshold() == config.threshold,
            m.max_suggestions() == config.max_suggestions,
    {
        SldrMatcher { config, matcher: default_skim_matcher() }
    }

    /// What one candidate adds to `results` (see [`candidate_step`]).
    fn push_candidate(
        &self,
        results: &mut Vec<MatchResult>,
        candidate: &String,
        ql: &Vec<char>,
        qn: &Vec<char>,
    )
        ensures
            views(final(results)@) == candidate_step(
                views(old(results)@),
                candidate@,
                ql@,
                qn@,
                self.config.threshold,
            ),
    {
        let cc = text::chars_of(candidate.as_str());
        let cnorm = normalize_path(cc.as_slice());
        let cl = text::lowercase_chars(cnorm.as_slice());
        let cname = extract_name(cnorm.as_slice());
        let cn = text::lowercase_chars(cname.as_slice());
        let ghost acc = views(results@);
        if text::eq_chars(cl.as_slice(), ql.as_slice()) || text::eq_chars(cn.as_slice(), ql.as_slice())
            || text::eq_chars(cl.as_slice(), qn.as_slice()) {
            results.push(
                MatchResult { value: candidate.clone(), score: i64::MAX, match_type: MatchType::Exact },
            );
            assert(views(results@) =~= acc.push((candidate@, i64::MAX, MatchType::Exact)));
            return;
        }
        let cl_s = text::string_of(cl.as_slice());
        let ql_s = text::string_of(ql.as_slice());
        let cn_s = text::string_of(cn.as_slice());
        let qn_s = text::string_of(qn.as_slice());
        let path_score = skim_fuzzy_match(&self.matcher, cl_s.as_str(), ql_s.as_str());
        let name_score = skim_fuzzy_match(&self.matcher, cn_s.as_str(), qn_s.as_str());
        let best = match (path_score, name_score) {
            (Some(p), Some(n)) => Some(if p >= n { p } else { n }),
            (Some(p), None) => Some(p),
            (None, Some(n)) => Some(n),
            (None, None) => None,
        };
        assert(best == best_score(skim_score(cl@, ql@), skim_score(cn@, qn@)));
        if let Some(score) = best {
            if score >= self.config.threshold {
                results.push(
                    MatchResult { value: candidate.clone(), score, match_type: MatchType::Fuzzy },
                );
                assert(views(results@) =~= acc.push((candidate@, score, MatchType::Fuzzy)));
            }
        }
        let ghost acc1 = views(results@);
        assert(acc1 == match best_score(skim_score(cl@, ql@), skim_score(cn@, qn@)) {
            Some(s) => if s >= self.config.threshold {
                acc.push((candidate@, s, MatchType::Fuzzy))
            } else {
                acc
            },
            None => acc,
        });
        if qn.len() <= 3 {
            let bl = text::byte_len_chars(qn.as_slice());
            if bl <= 3 && text::contains_chars(cn.as_slice(), qn.as_slice()) && !listed(
                results,
                candidate,
            ) {
                let sub: i64 = (bl * 50) as i64;
                results.push(
                    MatchResult { value: candidate.clone(), score: sub, match_type: MatchType::Fuzzy },
                );
                assert(views(results@) =~= acc1.push(
                    (candidate@, (text::byte_len(qn@) * 50) as i64, MatchType::Fuzzy),
                ));
            }
        } else {
            proof {
                text::lemma_byte_len_ge_len(qn@);
            }
        }
    }

    /// All matches of `query` among `candidates`, best first: exact matches
    /// before fuzzy ones, higher scores first, ties in candidate order, at
    /// most `max_suggestions` of them.
    pub fn find_all(&self, query: &str, candidates: &[String]) -> (r: Vec<MatchResult>)
        ensures
            views(r@) == find_all_spec(
                query@,
                text::string_views(candidates@),
                self.threshold(),
                self.max_suggestions(),
            ),
    {
        let qc = text::chars_of(query);
        if qc.len() == 0 || candidates.len() == 0 {
            return Vec::new();
        }
        let qnorm = normalize_path(qc.as_slice());
        let ql = text::lowercase_chars(qnorm.as_slice());
        let qname = extract_name(qnorm.as_slice());
        let qn = text::lowercase_chars(qname.as_slice());
        let ghost cands = text::string_views(candidates@);
        let mut results: Vec<MatchResult> = Vec::new();
        let mut i: usize = 0;
        assert(cands.take(0) =~= Seq::<Seq<char>>::empty());
        while i < candidates.len()
            invariant
                i <= candidates.len(),
                cands == text::string_views(candidates@),
                views(results@) == collect_matches(cands.take(i as int), ql@, qn@, self.config.threshold),
            decreases candidates.len() - i,
        {
            assert(cands.take(i + 1).drop_last() =~= cands.take(i as int));
            assert(cands.take(i + 1).last() == candidates@[i as int]@);
            self.push_candidate(&mut results, &candidates[i], &ql, &qn);
            i += 1;
        }
        assert(cands.take(candidates.len() as int) =~= cands);
        let mut sorted = sort_results(&results);
        let ghost s = views(sorted@);
        if sorted.len() > self.config.max_suggestions {
            sorted.truncate(self.config.max_suggestions);
            assert(views(sorted@) =~= s.take(self.config.max_suggestions as int));
        }
        sorted
    }

    /// The first of `find_all`, if any.
    pub fn find_best(&self, query: &str, candidates: &[String]) -> (r: Option<MatchResult>)
        ensures
            ({
                let all = find_all_spec(
                    query@,
                    text::string_views(candidates@),
                    self.threshold(),
                    self.max_suggestions(),
                );
                match r {
                    Some(m) => all.len() > 0 && m.view() == all[0],
                    None => all.len() == 0,
                }
            }),
    {
        let all = self.find_all(query, candidates);
        if all.len() == 0 {
            None
        } else {
            Some(all[0].duplicate())
        }
    }

    /// Resolve `query` to one match (see [`resolve_spec`]).
    pub fn resolve(&self, query: &str, candidates: &[String]) -> (r: ResolveResult)
        ensures
            r.view() == resolve_spec(
                find_all_spec(
                    query@,
                    text::string_views(candidates@),
                    self.threshold(),
                    self.max_suggestions(),
                ),
            ),
    {
        let mut matches = self.find_all(query, candidates);
        if matches.len() == 0 {
            return ResolveResult::NotFound;
        }
        if matches.len() == 1 {
            let m = matches.swap_remove(0);
            return ResolveResult::Found(m);
        }
        let first_exact = matches[0].match_type == MatchType::Exact;
        let second_exact = matches[1].match_type == MatchType::Exact;
        if first_exact && !second_exact {
            return ResolveResult::Found(matches[0].duplicate());
        }
        if matches[0].score > saturating_double(matches[1].score) {
            return ResolveResult::Found(matches[0].duplicate());
        }
        ResolveResult::Multiple(matches)
    }
}

/// `2 * s`, saturated at the bounds of `i64`.
fn saturating_double(s: i64) -> (r: i64)
    ensures
        r == sat_double(s),
{
    if s > i64::MAX / 2 {
        i64::MAX
    } else if s < i64::MIN / 2 {
        i64::MIN
    } else {
        s * 2
    }
}

/// `2 * s`, saturated at the bounds of `i64`.
pub open spec fn sat_double(s: i64) -> i64 {
    if 2 * s > i64::MAX {
        i64::MAX
    } else if 2 * s < i64::MIN {
        i64::MIN
    } else {
        (2 * s) as i64
    }
}

/// Matches in the order [`sorts_before`] gives.
pub open spec fn matches_sorted(s: Seq<MatchView>) -> bool {
    forall|i: int, j: int| 0 <= i < j < s.len() ==> sorts_before(#[trigger] s[i], #[trigger] s[j])
}

proof fn lemma_insert_sorted(s: Seq<MatchView>, x: MatchView)
    requires
        matches_sorted(s),
    ensures
        matches_sorted(insert_sorted(s, x)),
        insert_sorted(s, x).len() == s.len() + 1,
        forall|y: MatchView| #[trigger] insert_sorted(s, x).contains(y) <==> (y == x || s.contains(y)),
    decreases s.len(),
{
    let r = insert_sorted(s, x);
    if s.len() == 0 {
        assert forall|y: MatchView| r.contains(y) <==> (y == x || s.contains(y)) by {
            if r.contains(y) {
                assert(r[0] == y);
            }
            if y == x {
                assert(r[0] == y);
            }
        }
    } else {
        let last = s.last();
        let front = s.drop_last();
        assert(s[s.len() - 1] == last);
        if sorts_before(last, x) {
            assert forall|i: int, j: int| 0 <= i < j < r.len() implies sorts_before(#[trigger] r[i], #[trigger] r[j]) by {
                if j < s.len() {
                    assert(r[i] == s[i] && r[j] == s[j]);
                } else if i < s.len() - 1 {
                    assert(r[i] == s[i]);
                    assert(sorts_before(s[i], last));
                }
            }
            assert forall|y: MatchView| r.contains(y) <==> (y == x || s.contains(y)) by {
                if r.contains(y) {
                    let k = choose|k: int| 0 <= k < r.len() && r[k] == y;
                    if k < s.len() {
                        assert(s[k] == y);
                    }
                }
                if y == x {
                    assert(r[s.len() as int] == y);
                }
                if s.contains(y) {
                    let k = choose|k: int| 0 <= k < s.len() && s[k] == y;
                    assert(r[k] == y);
                }
            }
        } else {
            assert forall|i: int, j: int| 0 <= i < j < front.len() implies sorts_before(#[trigger] front[i], #[trigger] front[j]) by {
                assert(front[i] == s[i] && front[j] == s[j]);
            }
            lemma_insert_sorted(front, x);
            let m = insert_sorted(front, x);
            assert(r == m.push(last));
            assert forall|i: int| 0 <= i < m.len() implies sorts_before(#[trigger] m[i], last) by {
                assert(m.contains(m[i]));
                if m[i] != x {
                    assert(front.contains(m[i]));
                    let k = choose|k: int| 0 <= k < front.len() && front[k] == m[i];
                    assert(s[k] == front[k]);
                }
            }
            assert forall|i: int, j: int| 0 <= i < j < r.len() implies sorts_before(#[trigger] r[i], #[trigger] r[j]) by {
                if j == m.len() {
                    assert(r[i] == m[i]);
                } else {
                    assert(r[i] == m[i] && r[j] == m[j]);
                }
            }
            assert forall|y: MatchView| r.contains(y) <==> (y == x || s.contains(y)) by {
                if r.contains(y) {
                    let k = choose|k: int| 0 <= k < r.len() && r[k] == y;
                    if k < m.len() {
                        assert(m.contains(y));
                        if y != x {
                            assert(front.contains(y));
                            let k2 = choose|k2: int| 0 <= k2 < front.len() && front[k2] == y;
                            assert(s[k2] == y);
                        }
                    } else {
                        assert(s[s.len() - 1] == y);
                    }
                }
                if y == x {
                    assert(m.contains(x));
                    let k = choose|k: int| 0 <= k < m.len() && m[k] == y;
                    assert(r[k] == y);
                }
                if s.contains(y) {
                    let k = choose|k: int| 0 <= k < s.len() && s[k] == y;
                    if k < s.len() - 1 {
                        assert(front[k] == y);
                        assert(front.contains(y));
                        assert(m.contains(y));
                        let k2 = choose|k2: int| 0 <= k2 < m.len() && m[k2] == y;
                        assert(r[k2] == y);
                    } else {
                        assert(r[m.len() as int] == y);
                    }
                }
            }
        }
    }
}

pub(crate) proof fn lemma_sort_matches(s: Seq<MatchView>)
    ensures
        matches_sorted(sort_matches(s)),
        sort_matches(s).len() == s.len(),
        forall|y: MatchView| #[trigger] sort_matches(s).contains(y) <==> s.contains(y),
    decreases s.len(),
{
    if s.len() > 0 {
        lemma_sort_matches(s.drop_last());
        lemma_insert_sorted(sort_matches(s.drop_last()), s.last());
        assert forall|y: MatchView| #[trigger] sort_matches(s).contains(y) <==> s.contains(y) by {
            if y == s.last() {
                assert(s[s.len() - 1] == y);
            }
            if s.drop_last().contains(y) {
                let k = choose|k: int| 0 <= k < s.drop_last().len() && s.drop_last()[k] == y;
                assert(s[k] == y);
            }
            if s.contains(y) && y != s.last() {
                let k = choose|k: int| 0 <= k < s.len() && s[k] == y;
                assert(k != s.len() - 1);
                assert(s.drop_last()[k] == y);
            }
        }
    }
}

/// A candidate names the query exactly: its normalized, lowercased path
/// or name is the query's, or its path is the query's name.
pub open spec fn names_exactly(cand: Seq<char>, query: Seq<char>) -> bool {
    let q = normalize_spec(query);
    let ql = text::lowercase(q);
    let qn = text::lowercase(name_spec(q));
    let c = normalize_spec(cand);
    let cl = text::lowercase(c);
    let cn = text::lowercase(name_spec(c));
    cl == ql || cn == ql || cl == qn
}

proof fn lemma_collect_extends(cands: Seq<Seq<char>>, ql: Seq<char>, qn: Seq<char>, threshold: i64)
    requires
        cands.len() > 0,
    ensures
        ({
            let acc = collect_matches(cands.drop_last(), ql, qn, threshold);
            let r = collect_matches(cands, ql, qn, threshold);
            acc.len() <= r.len() && forall|k: int| 0 <= k < acc.len() ==> #[trigger] r[k] == acc[k]
        }),
{
    let acc = collect_matches(cands.drop_last(), ql, qn, threshold);
    let r = collect_matches(cands, ql, qn, threshold);
    let cand = cands.last();
    let cnorm = normalize_spec(cand);
    let cl = text::lowercase(cnorm);
    let cn = text::lowercase(name_spec(cnorm));
    if !(cl == ql || cn == ql || cl == qn) {
        let acc1 = match best_score(skim_score(cl, ql), skim_score(cn, qn)) {
            Some(s) => if s >= threshold {
                acc.push((cand, s, MatchType::Fuzzy))
            } else {
                acc
            },
            None => acc,
        };
        assert forall|k: int| 0 <= k < acc.len() implies #[trigger] r[k] == acc[k] by {
            assert(acc1[k] == acc[k]);
        }
    }
}

proof fn lemma_exact_collected(cands: Seq<Seq<char>>, query: Seq<char>, threshold: i64, j: int)
    requires
        0 <= j < cands.len(),
        names_exactly(cands[j], query),
    ensures
        exists|k: int|
            0 <= k < collect_matches(
                cands,
                text::lowercase(normalize_spec(query)),
                text::lowercase(name_spec(normalize_spec(query))),
                threshold,
            ).len() && (#[trigger] collect_matches(
                cands,
                text::lowercase(normalize_spec(query)),
                text::lowercase(name_spec(normalize_spec(query))),
                threshold,
            )[k]).2 == MatchType::Exact,
    decreases cands.len(),
{
    let ql = text::lowercase(normalize_spec(query));
    let qn = text::lowercase(name_spec(normalize_spec(query)));
    lemma_collect_extends(cands, ql, qn, threshold);
    let acc = collect_matches(cands.drop_last(), ql, qn, threshold);
    let r = collect_matches(cands, ql, qn, threshold);
    if j == cands.len() - 1 {
        assert(r[acc.len() as int].2 == MatchType::Exact);
    } else {
        assert(cands.drop_last()[j] == cands[j]);
        lemma_exact_collected(cands.drop_last(), query, threshold, j);
        let k = choose|k: int| 0 <= k < acc.len() && (#[trigger] acc[k]).2 == MatchType::Exact;
        assert(r[k] == acc[k]);
    }
}

/// The matches of a search come best first (by kind, then score), never
/// more than the cap; and when a candidate names the query exactly, an
/// exact match comes first (unless the cap is zero).
pub proof fn lemma_find_all_ordered(query: Seq<char>, cands: Seq<Seq<char>>, threshold: i64, max: usize)
    ensures
        matches_sorted(find_all_spec(query, cands, threshold, max)),
        find_all_spec(query, cands, threshold, max).len() <= max,
        (max > 0 && query.len() > 0 && exists|j: int| 0 <= j < cands.len() && names_exactly(#[trigger] cands[j], query))
            ==> find_all_spec(query, cands, threshold, max).len() > 0 && find_all_spec(
            query,
            cands,
            threshold,
            max,
        )[0].2 == MatchType::Exact,
{
    if query.len() > 0 && cands.len() > 0 {
        let qnorm = normalize_spec(query);
        let c = collect_matches(cands, text::lowercase(qnorm), text::lowercase(name_spec(qnorm)), threshold);
        lemma_sort_matches(c);
        let sorted = sort_matches(c);
        let all = find_all_spec(query, cands, threshold, max);
        if sorted.len() > max {
            assert forall|i: int, j: int| 0 <= i < j < all.len() implies sorts_before(#[trigger] all[i], #[trigger] all[j]) by {
                assert(all[i] == sorted[i] && all[j] == sorted[j]);
            }
        }
        if max > 0 && exists|j: int| 0 <= j < cands.len() && names_exactly(#[trigger] cands[j], query) {
            let j0 = choose|j: int| 0 <= j < cands.len() && names_exactly(#[trigger] cands[j], query);
            lemma_exact_collected(cands, query, threshold, j0);
            let k = choose|k: int| 0 <= k < c.len() && (#[trigger] c[k]).2 == MatchType::Exact;
            assert(c.contains(c[k]));
            assert(sorted.contains(c[k]));
            let j = choose|j: int| 0 <= j < sorted.len() && sorted[j] == c[k];
            assert(all[0] == sorted[0]);
            if j > 0 {
                assert(sorts_before(sorted[0], sorted[j]));
            }
            assert(type_rank(sorted[0].2) <= 1);
            lemma_no_anchor(cands, text::lowercase(qnorm), text::lowercase(name_spec(qnorm)), threshold);
            assert(sorted.contains(sorted[0]));
            assert(c.contains(sorted[0]));
            let i0 = choose|i0: int| 0 <= i0 < c.len() && c[i0] == sorted[0];
            assert(c[i0].2 != MatchType::Anchor);
        }
    }
}

proof fn lemma_no_anchor(cands: Seq<Seq<char>>, ql: Seq<char>, qn: Seq<char>, threshold: i64)
    ensures
        forall|k: int|
            0 <= k < collect_matches(cands, ql, qn, threshold).len() ==> (#[trigger] collect_matches(
                cands,
                ql,
                qn,
                threshold,
            )[k]).2 != MatchType::Anchor,
    decreases cands.len(),
{
    if cands.len() > 0 {
        lemma_no_anchor(cands.drop_last(), ql, qn, threshold);
        lemma_collect_extends(cands, ql, qn, threshold);
        let acc = collect_matches(cands.drop_last(), ql, qn, threshold);
        let r = collect_matches(cands, ql, qn, threshold);
        assert forall|k: int| 0 <= k < r.len() implies (#[trigger] r[k]).2 != MatchType::Anchor by {
            if k < acc.len() {
                assert(r[k] == acc[k]);
            }
        }
    }
}

/// Every match other than an exact or anchor one scores at least zero.
pub open spec fn fuzzy_nonneg(ms: Seq<MatchView>) -> bool {
    forall|k: int|
        0 <= k < ms.len() && (#[trigger] ms[k]).2 != MatchType::Exact && ms[k].2 != MatchType::Anchor ==> ms[k].1
            >= 0
}

proof fn lemma_collect_nonneg(cands: Seq<Seq<char>>, ql: Seq<char>, qn: Seq<char>, threshold: i64)
    requires
        threshold >= 0,
    ensures
        fuzzy_nonneg(collect_matches(cands, ql, qn, threshold)),
    decreases cands.len(),
{
    if cands.len() > 0 {
        lemma_collect_nonneg(cands.drop_last(), ql, qn, threshold);
        let acc = collect_matches(cands.drop_last(), ql, qn, threshold);
        let r = collect_matches(cands, ql, qn, threshold);
        assert forall|k: int|
            0 <= k < r.len() && (#[trigger] r[k]).2 != MatchType::Exact && r[k].2 != MatchType::Anchor implies r[k].1
                >= 0 by {
            if k < acc.len() {
                assert(r[k] == acc[k]) by {
                    let cand = cands.last();
                    let cnorm = normalize_spec(cand);
                    let cl = text::lowercase(cnorm);
                    let cn = text::lowercase(name_spec(cnorm));
                    if !(cl == ql || cn == ql || cl == qn) {
                        let acc1 = match best_score(skim_score(cl, ql), skim_score(cn, qn)) {
                            Some(s) => if s >= threshold {
                                acc.push((cand, s, MatchType::Fuzzy))
                            } else {
                                acc
                            },
                            None => acc,
                        };
                        assert(acc1[k] == acc[k]);
                    }
                }
            } else {
                let cand = cands.last();
                let cnorm = normalize_spec(cand);
                let cn = text::lowercase(name_spec(cnorm));
                if text::byte_len(qn) <= 3 {
                    assert(text::byte_len(qn) * 50 <= 150);
                }
            }
        }
    }
}

/// The matches `find_all_spec` lists other than exact ones all score at
/// least zero when the threshold is at least zero.
pub proof fn lemma_find_all_nonneg(query: Seq<char>, cands: Seq<Seq<char>>, threshold: i64, max: usize)
    requires
        threshold >= 0,
    ensures
        fuzzy_nonneg(find_all_spec(query, cands, threshold, max)),
{
    if query.len() > 0 && cands.len() > 0 {
        let qnorm = normalize_spec(query);
        let c = collect_matches(cands, text::lowercase(qnorm), text::lowercase(name_spec(qnorm)), threshold);
        lemma_collect_nonneg(cands, text::lowercase(qnorm), text::lowercase(name_spec(qnorm)), threshold);
        lemma_sort_matches(c);
        let sorted = sort_matches(c);
        assert forall|k: int|
            0 <= k < sorted.len() && (#[trigger] sorted[k]).2 != MatchType::Exact && sorted[k].2 != MatchType::Anchor implies sorted[k].1
                >= 0 by {
            assert(sorted.contains(sorted[k]));
            assert(c.contains(sorted[k]));
            let j = choose|j: int| 0 <= j < c.len() && c[j] == sorted[k];
            assert(c[j].2 != MatchType::Exact);
        }
        let r = find_all_spec(query, cands, threshold, max);
        assert forall|k: int|
            0 <= k < r.len() && (#[trigger] r[k]).2 != MatchType::Exact && r[k].2 != MatchType::Anchor implies r[k].1
                >= 0 by {
            assert(r[k] == sorted[k]);
        }
    }
}

proof fn lemma_exact_entry(cands: Seq<Seq<char>>, query: Seq<char>, threshold: i64, j: int)
    requires
        0 <= j < cands.len(),
        names_exactly(cands[j], query),
    ensures
        collect_matches(
            cands,
            text::lowercase(normalize_spec(query)),
            text::lowercase(name_spec(normalize_spec(query))),
            threshold,
        ).contains((cands[j], i64::MAX, MatchType::Exact)),
    decreases cands.len(),
{
    let ql = text::lowercase(normalize_spec(query));
    let qn = text::lowercase(name_spec(normalize_spec(query)));
    lemma_collect_extends(cands, ql, qn, threshold);
    let acc = collect_matches(cands.drop_last(), ql, qn, threshold);
    let r = collect_matches(cands, ql, qn, threshold);
    if j == cands.len() - 1 {
        assert(r[acc.len() as int] == (cands[j], i64::MAX, MatchType::Exact));
    } else {
        assert(cands.drop_last()[j] == cands[j]);
        lemma_exact_entry(cands.drop_last(), query, threshold, j);
        let k = choose|k: int| 0 <= k < acc.len() && acc[k] == (cands[j], i64::MAX, MatchType::Exact);
        assert(r[k] == acc[k]);
    }
}

proof fn lemma_exact_scores_max(cands: Seq<Seq<char>>, ql: Seq<char>, qn: Seq<char>, threshold: i64)
    ensures
        forall|k: int|
            0 <= k < collect_matches(cands, ql, qn, threshold).len() && (#[trigger] collect_matches(
                cands,
                ql,
                qn,
                threshold,
            )[k]).2 == MatchType::Exact ==> collect_matches(cands, ql, qn, threshold)[k].1 == i64::MAX,
    decreases cands.len(),
{
    if cands.len() > 0 {
        lemma_exact_scores_max(cands.drop_last(), ql, qn, threshold);
        lemma_collect_extends(cands, ql, qn, threshold);
        let acc = collect_matches(cands.drop_last(), ql, qn, threshold);
        let r = collect_matches(cands, ql, qn, threshold);
        assert forall|k: int| 0 <= k < r.len() && (#[trigger] r[k]).2 == MatchType::Exact implies r[k].1 == i64::MAX by {
            if k < acc.len() {
                assert(r[k] == acc[k]);
            }
        }
    }
}

/// When two different candidates both name the query exactly, resolving
/// never picks one of them: the user is given every match to choose from
/// (as long as the matcher lists at least two).
pub proof fn lemma_two_exact_names_ask(
    query: Seq<char>,
    cands: Seq<Seq<char>>,
    threshold: i64,
    max: usize,
    j1: int,
    j2: int,
)
    requires
        query.len() > 0,
        max >= 2,
        0 <= j1 < cands.len(),
        0 <= j2 < cands.len(),
        cands[j1] != cands[j2],
        names_exactly(cands[j1], query),
        names_exactly(cands[j2], query),
    ensures
        resolve_spec(find_all_spec(query, cands, threshold, max)) == ResolveView::Multiple(
            find_all_spec(query, cands, threshold, max),
        ),
{
    let ql = text::lowercase(normalize_spec(query));
    let qn = text::lowercase(name_spec(normalize_spec(query)));
    let c = collect_matches(cands, ql, qn, threshold);
    lemma_exact_entry(cands, query, threshold, j1);
    lemma_exact_entry(cands, query, threshold, j2);
    lemma_exact_scores_max(cands, ql, qn, threshold);
    lemma_no_anchor(cands, ql, qn, threshold);
    lemma_sort_matches(c);
    let sorted = sort_matches(c);
    let e1 = (cands[j1], i64::MAX, MatchType::Exact);
    let e2 = (cands[j2], i64::MAX, MatchType::Exact);
    assert(sorted.contains(e1) && sorted.contains(e2));
    let p1 = choose|p: int| 0 <= p < sorted.len() && sorted[p] == e1;
    let p2 = choose|p: int| 0 <= p < sorted.len() && sorted[p] == e2;
    assert(p1 != p2);
    assert forall|t: int| 0 <= t < 2 implies (#[trigger] sorted[t]).2 == MatchType::Exact && sorted[t].1 == i64::MAX by {
        assert(sorted.contains(sorted[t]));
        let i0 = choose|i0: int| 0 <= i0 < c.len() && c[i0] == sorted[t];
        assert(c[i0].2 != MatchType::Anchor);
        if sorted[t].2 != MatchType::Exact {
            let p = if p1 > t {
                p1
            } else {
                p2
            };
            assert(p > t);
            assert(sorts_before(sorted[t], sorted[p]));
        }
        assert(c[i0].2 == MatchType::Exact);
    }
    let all = find_all_spec(query, cands, threshold, max);
    assert(all[0] == sorted[0] && all[1] == sorted[1]);
    assert(all.len() >= 2);
    assert(sat_double(i64::MAX) == i64::MAX);
}

/// What resolving promises of any list of matches (best first):
/// nothing is found exactly when there is no match; what is found is the
/// best match; a choice offers every match, and only when there are at
/// least two; a lone exact match ahead of inexact ones is taken; a match
/// scoring more than twice the runner-up is taken; and two leading
/// matches of the same kind whose scores are not that far apart (the
/// runner-up not negative) are never decided between.
pub proof fn lemma_resolve_outcomes(all: Seq<MatchView>)
    ensures
        resolve_spec(all) is NotFound <==> all.len() == 0,
        resolve_spec(all) matches ResolveView::Found(m) ==> m == all[0],
        resolve_spec(all) matches ResolveView::Multiple(ms) ==> ms == all && all.len() >= 2,
        all.len() >= 2 && all[0].2 == MatchType::Exact && all[1].2 != MatchType::Exact ==> resolve_spec(all)
            == ResolveView::Found(all[0]),
        all.len() >= 2 && i64::MIN <= 2 * all[1].1 <= i64::MAX && all[0].1 > 2 * all[1].1 ==> resolve_spec(all)
            == ResolveView::Found(all[0]),
        all.len() >= 2 && all[0].2 == all[1].2 && 0 <= all[1].1 && all[0].1 <= 2 * all[1].1 ==> resolve_spec(all)
            == ResolveView::Multiple(all),
{
}

/// A candidate that names the lowercased query `ql` (or its name `qn`)
/// exactly.
pub open spec fn exact_for(cand: Seq<char>, ql: Seq<char>, qn: Seq<char>) -> bool {
    let c = normalize_spec(cand);
    let cl = text::lowercase(c);
    let cn = text::lowercase(name_spec(c));
    cl == ql || cn == ql || cl == qn
}

/// Every collected match is of a candidate; an exact one of a candidate
/// that names the query exactly; and each candidate gives at most one
/// match, so different candidates give no repeated match.
proof fn lemma_collect_sources(cands: Seq<Seq<char>>, ql: Seq<char>, qn: Seq<char>, threshold: i64)
    ensures
        ({
            let c = collect_matches(cands, ql, qn, threshold);
            &&& forall|k: int|
                0 <= k < c.len() ==> exists|j: int| 0 <= j < cands.len() && #[trigger] cands[j] == (#[trigger] c[k]).0
            &&& forall|k: int|
                0 <= k < c.len() && (#[trigger] c[k]).2 == MatchType::Exact ==> exact_for(c[k].0, ql, qn)
            &&& cands.no_duplicates() ==> c.no_duplicates()
        }),
    decreases cands.len(),
{
    if cands.len() > 0 {
        let init = cands.drop_last();
        lemma_collect_sources(init, ql, qn, threshold);
        lemma_collect_extends(cands, ql, qn, threshold);
        let acc = collect_matches(init, ql, qn, threshold);
        let r = collect_matches(cands, ql, qn, threshold);
        let cand = cands.last();
        assert(cands[cands.len() - 1] == cand);
        assert forall|k: int| acc.len() <= k < r.len() implies (#[trigger] r[k]).0 == cand && (r[k].2
            == MatchType::Exact ==> exact_for(cand, ql, qn)) by {}
        assert(r.len() <= acc.len() + 1) by {
            let cnorm = normalize_spec(cand);
            let cl = text::lowercase(cnorm);
            let cn = text::lowercase(name_spec(cnorm));
            if !(cl == ql || cn == ql || cl == qn) {
                let acc1 = match best_score(skim_score(cl, ql), skim_score(cn, qn)) {
                    Some(sc) => if sc >= threshold {
                        acc.push((cand, sc, MatchType::Fuzzy))
                    } else {
                        acc
                    },
                    None => acc,
                };
                if acc1.len() > acc.len() {
                    assert(acc1[acc.len() as int].0 == cand);
                    assert(listed_in(acc1, cand));
                }
            }
        }
        assert forall|k: int| 0 <= k < r.len() implies exists|j: int|
            0 <= j < cands.len() && #[trigger] cands[j] == (#[trigger] r[k]).0 by {
            if k < acc.len() {
                assert(r[k] == acc[k]);
                let j = choose|j: int| 0 <= j < init.len() && #[trigger] init[j] == acc[k].0;
                assert(cands[j] == init[j]);
            } else {
                assert(cands[cands.len() - 1] == r[k].0);
            }
        }
        assert forall|k: int| 0 <= k < r.len() && (#[trigger] r[k]).2 == MatchType::Exact implies exact_for(
            r[k].0,
            ql,
            qn,
        ) by {
            if k < acc.len() {
                assert(r[k] == acc[k]);
            }
        }
        if cands.no_duplicates() {
            assert(init.no_duplicates()) by {
                assert forall|a: int, b: int| 0 <= a < init.len() && 0 <= b < init.len() && a != b implies init[a]
                    != init[b] by {
                    assert(init[a] == cands[a] && init[b] == cands[b]);
                }
            }
            assert forall|a: int, b: int| 0 <= a < r.len() && 0 <= b < r.len() && a != b implies r[a] != r[b] by {
                if a < acc.len() && b < acc.len() {
                    assert(r[a] == acc[a] && r[b] == acc[b]);
                } else if a < acc.len() {
                    assert(r[a] == acc[a]);
                    let j = choose|j: int| 0 <= j < init.len() && #[trigger] init[j] == acc[a].0;
                    assert(cands[j] == init[j]);
                    assert(j != cands.len() - 1);
                } else if b < acc.len() {
                    assert(r[b] == acc[b]);
                    let j = choose|j: int| 0 <= j < init.len() && #[trigger] init[j] == acc[b].0;
                    assert(cands[j] == init[j]);
                    assert(j != cands.len() - 1);
                }
            }
        }
    }
}

proof fn lemma_insert_sorted_no_dup(sorted: Seq<MatchView>, x: MatchView)
    requires
        matches_sorted(sorted),
        sorted.no_duplicates(),
        !sorted.contains(x),
    ensures
        insert_sorted(sorted, x).no_duplicates(),
    decreases sorted.len(),
{
    let r = insert_sorted(sorted, x);
    if sorted.len() == 0 {
    } else if sorts_before(sorted.last(), x) {
        assert forall|a: int, b: int| 0 <= a < r.len() && 0 <= b < r.len() && a != b implies r[a] != r[b] by {
            if a < sorted.len() && b < sorted.len() {
            } else if a < sorted.len() {
                assert(r[a] == sorted[a]);
            } else if b < sorted.len() {
                assert(r[b] == sorted[b]);
            }
        }
    } else {
        let init = sorted.drop_last();
        assert forall|i: int, j: int| 0 <= i < j < init.len() implies sorts_before(#[trigger] init[i], #[trigger] init[j]) by {
            assert(init[i] == sorted[i] && init[j] == sorted[j]);
        }
        assert forall|a: int, b: int| 0 <= a < init.len() && 0 <= b < init.len() && a != b implies init[a]
            != init[b] by {
            assert(init[a] == sorted[a] && init[b] == sorted[b]);
        }
        assert(!init.contains(x)) by {
            if init.contains(x) {
                let k = choose|k: int| 0 <= k < init.len() && init[k] == x;
                assert(sorted[k] == x);
            }
        }
        lemma_insert_sorted_no_dup(init, x);
        lemma_insert_sorted(init, x);
        let inner = insert_sorted(init, x);
        let last = sorted.last();
        assert(r == inner.push(last));
        assert(!inner.contains(last)) by {
            if inner.contains(last) {
                assert(last == x || init.contains(last));
                if init.contains(last) {
                    let k = choose|k: int| 0 <= k < init.len() && init[k] == last;
                    assert(sorted[k] == sorted[sorted.len() - 1]);
                }
            }
        }
        assert forall|a: int, b: int| 0 <= a < r.len() && 0 <= b < r.len() && a != b implies r[a] != r[b] by {
            if a < inner.len() && b < inner.len() {
                assert(r[a] == inner[a] && r[b] == inner[b]);
            } else if a < inner.len() {
                assert(r[a] == inner[a]);
            } else if b < inner.len() {
                assert(r[b] == inner[b]);
            }
        }
    }
}

proof fn lemma_sort_no_dup(s: Seq<MatchView>)
    requires
        s.no_duplicates(),
    ensures
        sort_matches(s).no_duplicates(),
    decreases s.len(),
{
    if s.len() > 0 {
        let init = s.drop_last();
        assert forall|a: int, b: int| 0 <= a < init.len() && 0 <= b < init.len() && a != b implies init[a]
            != init[b] by {
            assert(init[a] == s[a] && init[b] == s[b]);
        }
        lemma_sort_no_dup(init);
        lemma_sort_matches(init);
        assert(!sort_matches(init).contains(s.last())) by {
            if sort_matches(init).contains(s.last()) {
                assert(init.contains(s.last()));
                let k = choose|k: int| 0 <= k < init.len() && init[k] == s.last();
                assert(s[k] == s[s.len() - 1]);
            }
        }
        lemma_insert_sorted_no_dup(sort_matches(init), s.last());
    }
}

/// When exactly one of the (distinct) candidates names the query exactly,
/// resolving finds that candidate, as an exact match.
pub proof fn lemma_unique_exact_name_found(query: Seq<char>, cands: Seq<Seq<char>>, threshold: i64, max: usize, j: int)
    requires
        query.len() > 0,
        max >= 1,
        cands.no_duplicates(),
        0 <= j < cands.len(),
        names_exactly(cands[j], query),
        forall|k: int| 0 <= k < cands.len() && k != j ==> !names_exactly(#[trigger] cands[k], query),
    ensures
        resolve_spec(find_all_spec(query, cands, threshold, max)) == ResolveView::Found(
            (cands[j], i64::MAX, MatchType::Exact),
        ),
{
    let ql = text::lowercase(normalize_spec(query));
    let qn = text::lowercase(name_spec(normalize_spec(query)));
    let c = collect_matches(cands, ql, qn, threshold);
    let e = (cands[j], i64::MAX, MatchType::Exact);
    lemma_exact_entry(cands, query, threshold, j);
    lemma_exact_scores_max(cands, ql, qn, threshold);
    lemma_no_anchor(cands, ql, qn, threshold);
    lemma_collect_sources(cands, ql, qn, threshold);
    lemma_sort_matches(c);
    lemma_sort_no_dup(c);
    let sorted = sort_matches(c);
    assert(sorted.contains(e));
    let p = choose|p: int| 0 <= p < sorted.len() && sorted[p] == e;
    // Every exact match in the sorted list is the one of candidate `j`.
    assert forall|t: int| 0 <= t < sorted.len() && (#[trigger] sorted[t]).2 == MatchType::Exact implies sorted[t]
        == e by {
        assert(sorted.contains(sorted[t]));
        let i0 = choose|i0: int| 0 <= i0 < c.len() && c[i0] == sorted[t];
        let k = choose|k: int| 0 <= k < cands.len() && #[trigger] cands[k] == c[i0].0;
        assert(exact_for(c[i0].0, ql, qn));
        assert(names_exactly(cands[k], query));
        assert(k == j);
    }
    // The first entry is exact.
    assert(sorted[0].2 == MatchType::Exact) by {
        assert(sorted.contains(sorted[0]));
        let i0 = choose|i0: int| 0 <= i0 < c.len() && c[i0] == sorted[0];
        assert(c[i0].2 != MatchType::Anchor);
        if sorted[0].2 != MatchType::Exact && p > 0 {
            assert(sorts_before(sorted[0], sorted[p]));
        }
    }
    assert(sorted[0] == e);
    if sorted.len() >= 2 {
        assert(sorted[1] != sorted[0]);
        assert(sorted[1].2 != MatchType::Exact);
    }
    let all = find_all_spec(query, cands, threshold, max);
    assert(all[0] == sorted[0]);
    if all.len() >= 2 {
        assert(all[1] == sorted[1]);
    }
}

} // verus!
