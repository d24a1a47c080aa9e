//! Adding slides to a playlist: the requested names are split, each is
//! resolved among the slide names, and every new slide is inserted at the
//! requested position (in request order) or appended.
use vstd::prelude::*;
use crate::fuzzy::{self, MatchResult, ResolveResult, ResolveView, SldrMatcher};
use crate::text;

verus! {

broadcast use vstd::string::group_string_axioms;

/// A character that separates requested slide names.
pub open spec fn is_request_sep(c: char) -> bool {
    c == ',' || c == ' '
}

/// `names` with the trimmed `piece` added when it is not blank.
pub open spec fn keep_name(names: Seq<Seq<char>>, piece: Seq<char>) -> Seq<Seq<char>> {
    if text::trim(piece).len() > 0 {
        names.push(text::trim(piece))
    } else {
        names
    }
}

/// Reading `s` from the left: the names finished so far and the piece
/// being read.
pub open spec fn request_scan(s: Seq<char>) -> (Seq<Seq<char>>, Seq<char>)
    decreases s.len(),
{
    if s.len() == 0 {
        (Seq::empty(), Seq::empty())
    } else {
        let (done, cur) = request_scan(s.drop_last());
        if is_request_sep(s.last()) {
            (keep_name(done, cur), Seq::empty())
        } else {
            (done, cur.push(s.last()))
        }
    }
}

/// The slide names of a request: the pieces between commas and spaces,
/// trimmed, blank ones left out.
pub open spec fn split_request(s: Seq<char>) -> Seq<Seq<char>> {
    keep_name(request_scan(s).0, request_scan(s).1)
}

/// The names requested in `request` (see [`split_request`]).
pub fn request_names(request: &str) -> (r: Vec<String>)
    ensures
        text::string_views(r@) == split_request(request@),
{
    let cs = text::chars_of(request);
    let mut done: Vec<String> = Vec::new();
    let mut cur: Vec<char> = Vec::new();
    let mut i: usize = 0;
    assert(cs@.take(0) =~= Seq::<char>::empty());
    assert(text::string_views(done@) =~= Seq::<Seq<char>>::empty());
    while i < cs.len()
        invariant
            i <= cs.len(),
            cs@ == request@,
            (text::string_views(done@), cur@) == request_scan(cs@.take(i as int)),
        decreases cs.len() - i,
    {
        assert(cs@.take(i + 1).drop_last() =~= cs@.take(i as int));
        assert(cs@.take(i + 1).last() == cs@[i as int]);
        let c = cs[i];
        if c == ',' || c == ' ' {
            let t = text::trim_chars(cur.as_slice());
            if t.len() > 0 {
                let ghost before = text::string_views(done@);
                done.push(text::string_of(t.as_slice()));
                assert(text::string_views(done@) =~= before.push(t@));
            }
            cur = Vec::new();
        } else {
            cur.push(c);
        }
        i += 1;
    }
    assert(cs@.take(cs.len() as int) =~= cs@);
    let t = text::trim_chars(cur.as_slice());
    if t.len() > 0 {
        let ghost before = text::string_views(done@);
        done.push(text::string_of(t.as_slice()));
        assert(text::string_views(done@) =~= before.push(t@));
    }
    done
}

/// What became of one requested name.
#[derive(Debug)]
pub enum AddOutcome {
    /// The slide it resolved to was added.
    Added(String),
    /// The slide it resolved to was already in the playlist.
    AlreadyPresent(String),
    /// No slide matched the name.
    NotFound(String),
    /// Several slides matched the name; the candidates are listed.
    Multiple(String, Vec<String>),
}

pub enum AddOutcomeView {
    Added(Seq<char>),
    AlreadyPresent(Seq<char>),
    NotFound(Seq<char>),
    Multiple(Seq<char>, Seq<Seq<char>>),
}

impl AddOutcome {
    pub open spec fn view(&self) -> AddOutcomeView {
        match self {
            AddOutcome::Added(s) => AddOutcomeView::Added(s@),
            AddOutcome::AlreadyPresent(s) => AddOutcomeView::AlreadyPresent(s@),
            AddOutcome::NotFound(s) => AddOutcomeView::NotFound(s@),
            AddOutcome::Multiple(s, v) => AddOutcomeView::Multiple(s@, text::string_views(v@)),
        }
    }
}

pub open spec fn outcome_views(v: Seq<AddOutcome>) -> Seq<AddOutcomeView> {
    v.map_values(|o: AddOutcome| o.view())
}

/// Where the next slide goes: at the requested position (no further than
/// the end) shifted past the slides added before it.
pub open spec fn insert_index(len: nat, p: usize, added: nat) -> int {
    (if p <= len {
        p as int
    } else {
        len as int
    }) + added
}

/// One requested name applied to the playlist `list`, of which `added`
/// slides were added by this request so far.
pub open spec fn add_step(
    list: Seq<Seq<char>>,
    added: nat,
    position: Option<usize>,
    name: Seq<char>,
    r: ResolveView,
) -> (Seq<Seq<char>>, nat, AddOutcomeView) {
    match r {
        ResolveView::Found(m) => if list.contains(m.0) {
            (list, added, AddOutcomeView::AlreadyPresent(m.0))
        } else {
            let l2 = match position {
                Some(p) => list.insert(insert_index(list.len(), p, added), m.0),
                None => list.push(m.0),
            };
            (l2, added + 1, AddOutcomeView::Added(m.0))
        },
        ResolveView::NotFound => (list, added, AddOutcomeView::NotFound(name)),
        ResolveView::Multiple(ms) => (
            list,
            added,
            AddOutcomeView::Multiple(name, ms.map_values(|m: fuzzy::MatchView| m.0)),
        ),
    }
}

/// The requested names applied one after another: the playlist, how many
/// slides were added, and one outcome per name.
pub open spec fn add_fold(
    slides: Seq<Seq<char>>,
    reqs: Seq<Seq<char>>,
    position: Option<usize>,
    names: Seq<Seq<char>>,
    thr: i64,
    max: usize,
) -> (Seq<Seq<char>>, nat, Seq<AddOutcomeView>)
    decreases reqs.len(),
{
    if reqs.len() == 0 {
        (slides, 0, Seq::empty())
    } else {
        let (l, a, o) = add_fold(slides, reqs.drop_last(), position, names, thr, max);
        let (l2, a2, oc) = add_step(
            l,
            a,
            position,
            reqs.last(),
            fuzzy::resolve_spec(fuzzy::find_all_spec(reqs.last(), names, thr, max)),
        );
        (l2, a2, o.push(oc))
    }
}

/// Each added slide lengthens the playlist by one.
proof fn lemma_add_fold_len(
    slides: Seq<Seq<char>>,
    reqs: Seq<Seq<char>>,
    position: Option<usize>,
    names: Seq<Seq<char>>,
    thr: i64,
    max: usize,
)
    requires
        position matches Some(p) ==> p <= slides.len(),
    ensures
        add_fold(slides, reqs, position, names, thr, max).0.len() == slides.len() + add_fold(
            slides,
            reqs,
            position,
            names,
            thr,
            max,
        ).1,
        add_fold(slides, reqs, position, names, thr, max).2.len() == reqs.len(),
    decreases reqs.len(),
{
    if reqs.len() > 0 {
        lemma_add_fold_len(slides, reqs.drop_last(), position, names, thr, max);
    }
}

fn contains_string(list: &Vec<String>, s: &str) -> (b: bool)
    ensures
        b == text::string_views(list@).contains(s@),
{
    let sc = text::chars_of(s);
    let mut i: usize = 0;
    while i < list.len()
        invariant
            i <= list.len(),
            sc@ == s@,
            forall|k: int| 0 <= k < i ==> list@[k]@ != s@,
        decreases list.len() - i,
    {
        let lc = text::chars_of(list[i].as_str());
        if text::eq_chars(lc.as_slice(), sc.as_slice()) {
            assert(text::string_views(list@)[i as int] == s@);
            return true;
        }
        i += 1;
    }
    assert forall|k: int| 0 <= k < text::string_views(list@).len() implies text::string_views(list@)[k]
        != s@ by {
        assert(text::string_views(list@)[k] == list@[k]@);
    }
    false
}

fn match_values(ms: &Vec<MatchResult>) -> (r: Vec<String>)
    ensures
        text::string_views(r@) == fuzzy::views(ms@).map_values(|m: fuzzy::MatchView| m.0),
{
    let mut out: Vec<String> = Vec::new();
    let mut i: usize = 0;
    while i < ms.len()
        invariant
            i <= ms.len(),
            text::string_views(out@) == fuzzy::views(ms@).map_values(|m: fuzzy::MatchView| m.0).take(
                i as int,
            ),
        decreases ms.len() - i,
    {
        let ghost before = text::string_views(out@);
        let v = ms[i].value.clone();
        let ghost cv = v@;
        assert(fuzzy::views(ms@)[i as int] == ms@[i as int].view());
        out.push(v);
        assert(text::string_views(out@) =~= before.push(cv));
        assert(text::string_views(out@) =~= fuzzy::views(ms@).map_values(|m: fuzzy::MatchView| m.0).take(
            i + 1,
        ));
        i += 1;
    }
    assert(fuzzy::views(ms@).map_values(|m: fuzzy::MatchView| m.0).take(ms.len() as int) =~= fuzzy::views(
        ms@,
    ).map_values(|m: fuzzy::MatchView| m.0));
    out
}

/// Add the slides named in `request` (separated by commas or spaces) to
/// the playlist `slides`: each name is resolved among `names`; a slide
/// found once and not yet present is inserted at `position` (after the
/// slides this request already placed there) or appended. A request that
/// names nothing is refused. One outcome comes back per requested name.
pub fn add_to_playlist(
    slides: &[String],
    request: &str,
    position: Option<usize>,
    names: &[String],
    matcher: &SldrMatcher,
) -> (r: Result<(Vec<String>, Vec<AddOutcome>), String>)
    requires
        position matches Some(p) ==> p <= slides.len(),
    ensures
        r is Err <==> split_request(request@).len() == 0,
        r matches Ok((v, o)) ==> {
            let (l, _, oc) = add_fold(
                text::string_views(slides@),
                split_request(request@),
                position,
                text::string_views(names@),
                matcher.threshold(),
                matcher.max_suggestions(),
            );
            &&& text::string_views(v@) == l
            &&& outcome_views(o@) == oc
        },
{
    let reqs = request_names(request);
    if reqs.len() == 0 {
        return Err("No slides specified".to_string());
    }
    let ghost sv = text::string_views(slides@);
    let ghost rv = text::string_views(reqs@);
    let ghost nv = text::string_views(names@);
    let ghost thr = matcher.threshold();
    let ghost max = matcher.max_suggestions();
    let mut list: Vec<String> = Vec::new();
    let mut j: usize = 0;
    while j < slides.len()
        invariant
            j <= slides.len(),
            text::string_views(list@) == text::string_views(slides@).take(j as int),
        decreases slides.len() - j,
    {
        let ghost before = text::string_views(list@);
        let v = slides[j].clone();
        let ghost cv = v@;
        list.push(v);
        assert(text::string_views(list@) =~= before.push(cv));
        assert(text::string_views(list@) =~= text::string_views(slides@).take(j + 1));
        j += 1;
    }
    assert(text::string_views(slides@).take(slides.len() as int) =~= sv);
    let mut outcomes: Vec<AddOutcome> = Vec::new();
    let mut added: usize = 0;
    let mut i: usize = 0;
    assert(rv.take(0) =~= Seq::<Seq<char>>::empty());
    assert(outcome_views(outcomes@) =~= Seq::<AddOutcomeView>::empty());
    while i < reqs.len()
        invariant
            i <= reqs.len(),
            rv == text::string_views(reqs@),
            sv == text::string_views(slides@),
            nv == text::string_views(names@),
            thr == matcher.threshold(),
            max == matcher.max_suggestions(),
            position matches Some(p) ==> p <= sv.len(),
            added <= i,
            ({
                let (l, a, oc) = add_fold(sv, rv.take(i as int), position, nv, thr, max);
                &&& text::string_views(list@) == l
                &&& added == a
                &&& outcome_views(outcomes@) == oc
            }),
        decreases reqs.len() - i,
    {
        proof {
            lemma_add_fold_len(sv, rv.take(i as int), position, nv, thr, max);
        }
        assert(rv.take(i + 1).drop_last() =~= rv.take(i as int));
        assert(rv.take(i + 1).last() == reqs@[i as int]@);
        let name = &reqs[i];
        let ghost lb = text::string_views(list@);
        let ghost ob = outcome_views(outcomes@);
        match matcher.resolve(name.as_str(), names) {
            ResolveResult::Found(m) => {
                if contains_string(&list, m.value.as_str()) {
                    let o = AddOutcome::AlreadyPresent(m.value);
                    outcomes.push(o);
                    assert(outcome_views(outcomes@) =~= ob.push(o.view()));
                } else {
                    let ghost mv = m.value@;
                    let v2 = m.value.clone();
                    match position {
                        Some(p) => {
                            let at = if p <= list.len() {
                                p
                            } else {
                                list.len()
                            };
                            list.insert(at + added, m.value);
                            assert(text::string_views(list@) =~= lb.insert(
                                insert_index(lb.len(), p, added as nat),
                                mv,
                            ));
                        },
                        None => {
                            list.push(m.value);
                            assert(text::string_views(list@) =~= lb.push(mv));
                        },
                    }
                    let o = AddOutcome::Added(v2);
                    outcomes.push(o);
                    assert(outcome_views(outcomes@) =~= ob.push(o.view()));
                    added += 1;
                }
            },
            ResolveResult::NotFound => {
                let o = AddOutcome::NotFound(name.clone());
                outcomes.push(o);
                assert(outcome_views(outcomes@) =~= ob.push(o.view()));
            },
            ResolveResult::Multiple(ms) => {
                let vals = match_values(&ms);
                let o = AddOutcome::Multiple(name.clone(), vals);
                outcomes.push(o);
                assert(outcome_views(outcomes@) =~= ob.push(o.view()));
            },
        }
        i += 1;
    }
    assert(rv.take(reqs.len() as int) =~= rv);
    Ok((list, outcomes))
}

proof fn lemma_insert_keeps(list: Seq<Seq<char>>, idx: int, v: Seq<char>)
    requires
        0 <= idx <= list.len(),
        list.no_duplicates(),
        !list.contains(v),
    ensures
        list.insert(idx, v).no_duplicates(),
        list.insert(idx, v).contains(v),
        forall|x: Seq<char>| list.contains(x) ==> #[trigger] list.insert(idx, v).contains(x),
{
    list.insert_ensures(idx, v);
    let l2 = list.insert(idx, v);
    // Where each element of `l2` came from.
    let src = |i: int| if i < idx { i } else { i - 1 };
    assert forall|i: int, j: int| 0 <= i < l2.len() && 0 <= j < l2.len() && i != j implies l2[i] != l2[j] by {
        if i != idx && j != idx {
            if i < idx {
                assert(l2[i] == list[i]);
            } else {
                assert(l2[i] == list[i - 1]);
            }
            if j < idx {
                assert(l2[j] == list[j]);
            } else {
                assert(l2[j] == list[j - 1]);
            }
            assert(src(i) != src(j));
        } else if i == idx {
            if j < idx {
                assert(l2[j] == list[j]);
            } else {
                assert(l2[j] == list[j - 1]);
            }
        } else {
            if i < idx {
                assert(l2[i] == list[i]);
            } else {
                assert(l2[i] == list[i - 1]);
            }
        }
    }
    assert(l2[idx] == v);
    assert forall|x: Seq<char>| list.contains(x) implies #[trigger] l2.contains(x) by {
        let k = choose|k: int| 0 <= k < list.len() && list[k] == x;
        if k < idx {
            assert(l2[k] == x);
        } else {
            assert(l2[k + 1] == x);
        }
    }
}

proof fn lemma_add_step_keeps(
    list: Seq<Seq<char>>,
    added: nat,
    position: Option<usize>,
    name: Seq<char>,
    r: ResolveView,
)
    requires
        list.no_duplicates(),
        position matches Some(p) ==> p + added <= list.len(),
    ensures
        add_step(list, added, position, name, r).0.no_duplicates(),
        forall|x: Seq<char>| list.contains(x) ==> #[trigger] add_step(list, added, position, name, r).0.contains(x),
        add_step(list, added, position, name, r).2 matches AddOutcomeView::Added(v) ==> add_step(
            list,
            added,
            position,
            name,
            r,
        ).0.contains(v),
{
    if let ResolveView::Found(m) = r {
        if !list.contains(m.0) {
            match position {
                Some(p) => {
                    lemma_insert_keeps(list, insert_index(list.len(), p, added), m.0);
                },
                None => {
                    lemma_insert_keeps(list, list.len() as int, m.0);
                    assert(list.insert(list.len() as int, m.0) =~= list.push(m.0));
                },
            }
        }
    }
}

/// Adding slides keeps every slide the playlist had, adds each slide the
/// outcomes report as added, and puts no slide in twice: a playlist
/// without repeats stays without repeats.
pub proof fn lemma_add_keeps_and_never_repeats(
    slides: Seq<Seq<char>>,
    reqs: Seq<Seq<char>>,
    position: Option<usize>,
    names: Seq<Seq<char>>,
    thr: i64,
    max: usize,
)
    requires
        position matches Some(p) ==> p <= slides.len(),
        slides.no_duplicates(),
    ensures
        ({
            let (l, _, o) = add_fold(slides, reqs, position, names, thr, max);
            &&& l.no_duplicates()
            &&& forall|x: Seq<char>| slides.contains(x) ==> #[trigger] l.contains(x)
            &&& forall|i: int|
                0 <= i < o.len() ==> (#[trigger] o[i] matches AddOutcomeView::Added(v) ==> l.contains(v))
        }),
    decreases reqs.len(),
{
    lemma_add_fold_len(slides, reqs, position, names, thr, max);
    if reqs.len() > 0 {
        let prev = reqs.drop_last();
        lemma_add_keeps_and_never_repeats(slides, prev, position, names, thr, max);
        lemma_add_fold_len(slides, prev, position, names, thr, max);
        let (l, a, o) = add_fold(slides, prev, position, names, thr, max);
        let r = fuzzy::resolve_spec(fuzzy::find_all_spec(reqs.last(), names, thr, max));
        lemma_add_step_keeps(l, a, position, reqs.last(), r);
        let (l2, a2, oc) = add_step(l, a, position, reqs.last(), r);
        let o2 = o.push(oc);
        assert forall|i: int| 0 <= i < o2.len() implies (#[trigger] o2[i] matches AddOutcomeView::Added(
            v,
        ) ==> l2.contains(v)) by {
            if i < o.len() {
                assert(o2[i] == o[i]);
            }
        }
    }
}

/// How many outcomes report a slide as added.
pub open spec fn added_count(o: Seq<AddOutcomeView>) -> nat
    decreases o.len(),
{
    if o.len() == 0 {
        0
    } else {
        added_count(o.drop_last()) + if o.last() is Added {
            1nat
        } else {
            0nat
        }
    }
}

proof fn lemma_added_count(
    slides: Seq<Seq<char>>,
    reqs: Seq<Seq<char>>,
    position: Option<usize>,
    names: Seq<Seq<char>>,
    thr: i64,
    max: usize,
)
    ensures
        add_fold(slides, reqs, position, names, thr, max).1 == added_count(
            add_fold(slides, reqs, position, names, thr, max).2,
        ),
    decreases reqs.len(),
{
    if reqs.len() > 0 {
        lemma_added_count(slides, reqs.drop_last(), position, names, thr, max);
        let o = add_fold(slides, reqs, position, names, thr, max).2;
        assert(o.drop_last() =~= add_fold(slides, reqs.drop_last(), position, names, thr, max).2);
    }
}

/// A requested position no further than the end of a list of `len`.
pub open spec fn clamp_position(position: Option<usize>, len: nat) -> Option<usize> {
    match position {
        Some(p) => if p <= len {
            Some(p)
        } else {
            Some(len as usize)
        },
        None => None,
    }
}

fn count_added(o: &Vec<AddOutcome>) -> (n: usize)
    ensures
        n == added_count(outcome_views(o@)),
{
    let mut n: usize = 0;
    let mut i: usize = 0;
    while i < o.len()
        invariant
            i <= o.len(),
            n <= i,
            n == added_count(outcome_views(o@).take(i as int)),
        decreases o.len() - i,
    {
        assert(outcome_views(o@).take(i + 1).drop_last() =~= outcome_views(o@).take(i as int));
        assert(outcome_views(o@).take(i + 1).last() == o@[i as int].view());
        if let AddOutcome::Added(_) = &o[i] {
            n += 1;
        }
        i += 1;
    }
    assert(outcome_views(o@).take(o.len() as int) =~= outcome_views(o@));
    n
}

/// [`add_to_playlist`] with the requested position clamped to the end of
/// the playlist. The flag tells when the position lay past the end and two
/// or more slides were added: the second of them would then be inserted
/// past the end of the list, which the command refuses as a failure.
pub fn add_clamped(
    slides: &[String],
    request: &str,
    position: Option<usize>,
    names: &[String],
    matcher: &SldrMatcher,
) -> (r: Result<(Vec<String>, Vec<AddOutcome>, bool), String>)
    ensures
        r is Err <==> split_request(request@).len() == 0,
        r matches Ok((v, o, past)) ==> {
            let (l, a, oc) = add_fold(
                text::string_views(slides@),
                split_request(request@),
                clamp_position(position, slides@.len()),
                text::string_views(names@),
                matcher.threshold(),
                matcher.max_suggestions(),
            );
            &&& text::string_views(v@) == l
            &&& outcome_views(o@) == oc
            &&& past == (position matches Some(p) && p > slides@.len() && a >= 2)
        },
{
    let at = match position {
        Some(p) => if p <= slides.len() {
            Some(p)
        } else {
            Some(slides.len())
        },
        None => None,
    };
    match add_to_playlist(slides, request, at, names, matcher) {
        Ok((v, o)) => {
            proof {
                lemma_added_count(
                    text::string_views(slides@),
                    split_request(request@),
                    at,
                    text::string_views(names@),
                    matcher.threshold(),
                    matcher.max_suggestions(),
                );
            }
            let n = count_added(&o);
            let past = match position {
                Some(p) => p > slides.len() && n >= 2,
                None => false,
            };
            Ok((v, o, past))
        },
        Err(e) => Err(e),
    }
}

/// A decimal digit.
pub open spec fn is_digit(c: char) -> bool {
    '0' <= c && c <= '9'
}

/// The value of a string of decimal digits.
pub open spec fn digits_value(s: Seq<char>) -> nat
    decreases s.len(),
{
    if s.len() == 0 {
        0
    } else {
        digits_value(s.drop_last()) * 10 + (s.last() as nat - '0' as nat) as nat
    }
}

/// The part of `s` after an optional leading `+`.
pub open spec fn index_digits(s: Seq<char>) -> Seq<char> {
    if s.len() > 0 && s[0] == '+' {
        s.skip(1)
    } else {
        s
    }
}

/// Every character of `d` is a decimal digit.
pub open spec fn all_digits(d: Seq<char>) -> bool {
    forall|i: int| 0 <= i < d.len() ==> is_digit(#[trigger] d[i])
}

/// What reading `s` as a `usize` gives (as `str::parse::<usize>` does):
/// an optional `+` and then at least one digit, nothing else, the value
/// fitting a `usize`.
pub open spec fn parse_index_spec(s: Seq<char>) -> Option<nat> {
    let d = index_digits(s);
    if d.len() > 0 && all_digits(d) && digits_value(d) <= usize::MAX {
        Some(digits_value(d))
    } else {
        None
    }
}

proof fn lemma_digits_value_grows(s: Seq<char>, i: int)
    requires
        0 <= i <= s.len(),
        forall|k: int| 0 <= k < s.len() ==> is_digit(#[trigger] s[k]),
    ensures
        digits_value(s.take(i)) <= digits_value(s),
    decreases s.len() - i,
{
    if i < s.len() {
        lemma_digits_value_grows(s, i + 1);
        assert(s.take(i + 1).drop_last() =~= s.take(i));
    } else {
        assert(s.take(i) =~= s);
    }
}

/// Read `s` as an index (see [`parse_index_spec`]).
pub fn parse_index(s: &str) -> (r: Option<usize>)
    ensures
        match r {
            Some(n) => parse_index_spec(s@) == Some(n as nat),
            None => parse_index_spec(s@) is None,
        },
{
    let c = text::chars_of(s);
    let start: usize = if c.len() > 0 && c[0] == '+' {
        1
    } else {
        0
    };
    let ghost d = index_digits(s@);
    assert(d =~= c@.skip(start as int));
    if start >= c.len() {
        assert(d.len() == 0);
        assert(parse_index_spec(s@) is None);
        return None;
    }
    let mut v: usize = 0;
    let mut i: usize = start;
    assert(d.take(0) =~= Seq::<char>::empty());
    while i < c.len()
        invariant
            start <= i <= c.len(),
            c@ == s@,
            d == c@.skip(start as int),
            d == index_digits(s@),
            forall|k: int| 0 <= k < i - start ==> is_digit(#[trigger] d[k]),
            v as nat == digits_value(d.take(i - start)),
        decreases c.len() - i,
    {
        let ch = c[i];
        assert(d[i - start] == ch);
        if !('0' <= ch && ch <= '9') {
            assert(0 <= i - start < d.len());
            assert(!is_digit(d[i - start]));
            assert(!all_digits(d));
            assert(parse_index_spec(s@) is None);
            return None;
        }
        let dv = (ch as u32 - '0' as u32) as usize;
        assert(d.take(i - start + 1).drop_last() =~= d.take(i - start));
        assert(d.take(i - start + 1).last() == ch);
        if v > (usize::MAX - dv) / 10 {
            proof {
                assert forall|k: int| 0 <= k < i - start + 1 implies is_digit(#[trigger] d[k]) by {}
                let ghost whole = d;
                assert(digits_value(d.take(i - start + 1)) == v * 10 + dv) by {
                    assert((ch as nat - '0' as nat) as nat == dv);
                }
                assert(v * 10 + dv > usize::MAX) by (nonlinear_arith)
                    requires
                        v > (usize::MAX - dv) / 10,
                        dv <= 9,
                ;
                if all_digits(d) {
                    lemma_digits_value_grows(d, i - start + 1);
                }
            }
            return None;
        }
        assert(v * 10 + dv <= usize::MAX) by (nonlinear_arith)
            requires
                v <= (usize::MAX - dv) / 10,
                dv <= 9,
        ;
        v = v * 10 + dv;
        assert((ch as nat - '0' as nat) as nat == dv);
        i += 1;
    }
    assert(d.take(c.len() - start) =~= d);
    Some(v)
}

/// The first index of `v` in `list`.
pub open spec fn first_index(list: Seq<Seq<char>>, v: Seq<char>, from: int) -> Option<int>
    decreases list.len() - from,
{
    if from < 0 || from >= list.len() {
        None
    } else if list[from] == v {
        Some(from)
    } else {
        first_index(list, v, from + 1)
    }
}

/// `idx` with `i` added at its end unless it holds it already.
pub open spec fn add_index(idx: Seq<int>, i: int) -> Seq<int> {
    if idx.contains(i) {
        idx
    } else {
        idx.push(i)
    }
}

/// One removal reference applied to the indices chosen so far: the slide
/// it names in the playlist, else the index it is, else an error.
pub open spec fn removal_step(idx: Seq<int>, slides: Seq<Seq<char>>, r: Seq<char>, res: ResolveView) -> Result<
    Seq<int>,
    Seq<char>,
> {
    match res {
        ResolveView::Found(m) => match first_index(slides, m.0, 0) {
            Some(i) => Ok(add_index(idx, i)),
            None => Ok(idx),
        },
        ResolveView::NotFound => match parse_index_spec(r) {
            Some(n) => if n < slides.len() {
                Ok(add_index(idx, n as int))
            } else {
                Err(
                    "Index "@ + text::decimal(n) + " out of range (playlist has "@ + text::decimal(slides.len())
                        + " slides)"@,
                )
            },
            None => Err("Slide '"@ + r + "' not found in playlist"@),
        },
        ResolveView::Multiple(ms) => Err(
            "Ambiguous slide reference '"@ + r + "'. Candidates: "@ + text::join(
                ms.map_values(|m: fuzzy::MatchView| m.0),
                ", "@,
            ),
        ),
    }
}

/// The indices of the slides the references name, each once in the order
/// first named, or the error of the first reference that names none.
pub open spec fn removal_fold(slides: Seq<Seq<char>>, refs: Seq<Seq<char>>, thr: i64, max: usize) -> Result<
    Seq<int>,
    Seq<char>,
>
    decreases refs.len(),
{
    if refs.len() == 0 {
        Ok(Seq::empty())
    } else {
        match removal_fold(slides, refs.drop_last(), thr, max) {
            Ok(idx) => removal_step(
                idx,
                slides,
                refs.last(),
                fuzzy::resolve_spec(fuzzy::find_all_spec(refs.last(), slides, thr, max)),
            ),
            Err(e) => Err(e),
        }
    }
}

fn first_index_of(list: &[String], v: &str) -> (r: Option<usize>)
    ensures
        match r {
            Some(i) => first_index(text::string_views(list@), v@, 0) == Some(i as int),
            None => first_index(text::string_views(list@), v@, 0) is None,
        },
{
    let vc = text::chars_of(v);
    let ghost lv = text::string_views(list@);
    let mut i: usize = 0;
    while i < list.len()
        invariant
            i <= list.len(),
            vc@ == v@,
            lv == text::string_views(list@),
            first_index(lv, v@, 0) == first_index(lv, v@, i as int),
        decreases list.len() - i,
    {
        let lc = text::chars_of(list[i].as_str());
        assert(lv[i as int] == list@[i as int]@);
        if text::eq_chars(lc.as_slice(), vc.as_slice()) {
            return Some(i);
        }
        i += 1;
    }
    None
}

fn push_index(idx: &mut Vec<usize>, i: usize)
    ensures
        final(idx)@.map_values(|k: usize| k as int) == add_index(old(idx)@.map_values(|k: usize| k as int), i as int),
{
    let ghost before = idx@.map_values(|k: usize| k as int);
    let mut j: usize = 0;
    while j < idx.len()
        invariant
            j <= idx.len(),
            before == idx@.map_values(|k: usize| k as int),
            forall|k: int| 0 <= k < j ==> idx@[k] != i,
        decreases idx.len() - j,
    {
        if idx[j] == i {
            assert(before[j as int] == i as int);
            assert(before.contains(i as int));
            return;
        }
        j += 1;
    }
    assert(!before.contains(i as int)) by {
        if before.contains(i as int) {
            let k = choose|k: int| 0 <= k < before.len() && before[k] == i as int;
            assert(idx@[k] == i);
        }
    }
    idx.push(i);
    assert(idx@.map_values(|k: usize| k as int) =~= before.push(i as int));
}

/// The indices of the playlist slides a removal request names (see
/// [`removal_fold`]): each reference is resolved among the playlist's
/// slides, and a reference that matches none is read as an index.
pub fn removal_indices(slides: &[String], request: &str, matcher: &SldrMatcher) -> (r: Result<Vec<usize>, String>)
    ensures
        match removal_fold(
            text::string_views(slides@),
            split_request(request@),
            matcher.threshold(),
            matcher.max_suggestions(),
        ) {
            Ok(idx) => r matches Ok(v) && v@.map_values(|k: usize| k as int) == idx,
            Err(e) => r matches Err(m) && m@ == e,
        },
{
    let refs = request_names(request);
    let ghost sv = text::string_views(slides@);
    let ghost rv = text::string_views(refs@);
    let mut idx: Vec<usize> = Vec::new();
    let mut i: usize = 0;
    assert(rv.take(0) =~= Seq::<Seq<char>>::empty());
    assert(idx@.map_values(|k: usize| k as int) =~= Seq::<int>::empty());
    while i < refs.len()
        invariant
            i <= refs.len(),
            sv == text::string_views(slides@),
            rv == text::string_views(refs@),
            rv == split_request(request@),
            removal_fold(sv, rv.take(i as int), matcher.threshold(), matcher.max_suggestions()) == Ok::<
                Seq<int>,
                Seq<char>,
            >(idx@.map_values(|k: usize| k as int)),
        decreases refs.len() - i,
    {
        assert(rv.take(i + 1).drop_last() =~= rv.take(i as int));
        assert(rv.take(i + 1).last() == refs@[i as int]@);
        let r = refs[i].as_str();
        match matcher.resolve(r, slides) {
            ResolveResult::Found(m) => {
                match first_index_of(slides, m.value.as_str()) {
                    Some(k) => {
                        push_index(&mut idx, k);
                    },
                    None => {},
                }
            },
            ResolveResult::NotFound => match parse_index(r) {
                Some(n) => {
                    if n < slides.len() {
                        push_index(&mut idx, n);
                    } else {
                        let mut msg = "Index ".to_string();
                        text::append_decimal(&mut msg, n as u64);
                        text::append(&mut msg, " out of range (playlist has ");
                        text::append_decimal(&mut msg, slides.len() as u64);
                        text::append(&mut msg, " slides)");
                        proof {
                            lemma_fold_err_stays(sv, rv, i as int + 1, matcher.threshold(), matcher.max_suggestions());
                        }
                        return Err(msg);
                    }
                },
                None => {
                    let mut msg = "Slide '".to_string();
                    text::append(&mut msg, r);
                    text::append(&mut msg, "' not found in playlist");
                    proof {
                        lemma_fold_err_stays(sv, rv, i as int + 1, matcher.threshold(), matcher.max_suggestions());
                    }
                    return Err(msg);
                },
            },
            ResolveResult::Multiple(ms) => {
                let vals = match_values(&ms);
                let vc = text::chars_all(vals.as_slice());
                let sep = text::chars_of(", ");
                let joined = text::join_chars(&vc, sep.as_slice());
                let mut msg = "Ambiguous slide reference '".to_string();
                text::append(&mut msg, r);
                text::append(&mut msg, "'. Candidates: ");
                let js = text::string_of(joined.as_slice());
                text::append(&mut msg, js.as_str());
                proof {
                    assert(text::views(vc@) == text::string_views(vals@));
                    lemma_fold_err_stays(sv, rv, i as int + 1, matcher.threshold(), matcher.max_suggestions());
                }
                return Err(msg);
            },
        }
        i += 1;
    }
    assert(rv.take(refs.len() as int) =~= rv);
    Ok(idx)
}

/// Once a reference fails, the whole request fails with its error.
proof fn lemma_fold_err_stays(slides: Seq<Seq<char>>, refs: Seq<Seq<char>>, i: int, thr: i64, max: usize)
    requires
        0 < i <= refs.len(),
        removal_fold(slides, refs.take(i), thr, max) is Err,
    ensures
        removal_fold(slides, refs, thr, max) == removal_fold(slides, refs.take(i), thr, max),
    decreases refs.len() - i,
{
    if i < refs.len() {
        assert(refs.take(i + 1).drop_last() =~= refs.take(i));
        lemma_fold_err_stays(slides, refs, i + 1, thr, max);
    } else {
        assert(refs.take(i) =~= refs);
    }
}

/// The playlist without the slides at `indices`, the others kept in order.
pub open spec fn kept_slides(slides: Seq<Seq<char>>, indices: Seq<int>) -> Seq<Seq<char>>
    decreases slides.len(),
{
    if slides.len() == 0 {
        Seq::empty()
    } else if indices.contains(slides.len() - 1) {
        kept_slides(slides.drop_last(), indices)
    } else {
        kept_slides(slides.drop_last(), indices).push(slides.last())
    }
}

/// The playlist without the slides at `indices` (see [`kept_slides`]).
pub fn remove_slides(slides: &[String], indices: &[usize]) -> (r: Vec<String>)
    ensures
        text::string_views(r@) == kept_slides(text::string_views(slides@), indices@.map_values(|k: usize| k as int)),
{
    let ghost sv = text::string_views(slides@);
    let ghost iv = indices@.map_values(|k: usize| k as int);
    let mut out: Vec<String> = Vec::new();
    let mut i: usize = 0;
    assert(sv.take(0) =~= Seq::<Seq<char>>::empty());
    while i < slides.len()
        invariant
            i <= slides.len(),
            sv == text::string_views(slides@),
            iv == indices@.map_values(|k: usize| k as int),
            text::string_views(out@) == kept_slides(sv.take(i as int), iv),
        decreases slides.len() - i,
    {
        assert(sv.take(i + 1).drop_last() =~= sv.take(i as int));
        assert(sv.take(i + 1).last() == slides@[i as int]@);
        let mut found = false;
        let mut j: usize = 0;
        while j < indices.len()
            invariant
                j <= indices.len(),
                iv == indices@.map_values(|k: usize| k as int),
                found ==> iv.contains(i as int),
                !found ==> forall|k: int| 0 <= k < j ==> indices@[k] != i,
            decreases indices.len() - j,
        {
            if indices[j] == i {
                assert(iv[j as int] == i as int);
                found = true;
            }
            j += 1;
        }
        if !found {
            assert(!iv.contains(i as int)) by {
                if iv.contains(i as int) {
                    let k = choose|k: int| 0 <= k < iv.len() && iv[k] == i as int;
                    assert(indices@[k] == i);
                }
            }
            let ghost before = text::string_views(out@);
            let c = slides[i].clone();
            let ghost cv = c@;
            out.push(c);
            assert(text::string_views(out@) =~= before.push(cv));
        }
        i += 1;
    }
    assert(sv.take(slides.len() as int) =~= sv);
    out
}

} // verus!
