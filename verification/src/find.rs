//! One ranking over the slide library: fuzzy on names plus full text over
//! title, tags, topic, description and body. Deterministic: the same
//! library and query always give the same order.
use vstd::prelude::*;
use crate::config::MatchingConfig;
use crate::fuzzy::{self, MatchType, SldrMatcher};
use crate::slide::{Slide, SlideCollection};
use crate::text;

verus! {

broadcast use vstd::string::group_string_axioms;

/// Where a query matched inside one slide, with a short excerpt.
#[derive(Debug, Clone, PartialEq, Eq)]
pub struct FieldHit {
    /// `name`, `title`, `tags`, `topic`, `description`, or `body`.
    pub field: String,
    /// The matching text: the tag, the title, or a window of body text
    /// around the first hit.
    pub snippet: String,
}

/// One ranked slide.
#[derive(Debug, Clone, PartialEq, Eq)]
pub struct Hit {
    pub relative_path: String,
    pub name: String,
    pub title: Option<String>,
    /// Effective layout (`layout:` field, else `default`).
    pub layout: String,
    pub tags: Vec<String>,
    pub topic: Option<String>,
    /// Higher is better; only meaningful for ordering within one query.
    pub score: i64,
    pub matched: Vec<FieldHit>,
}

/// Filters and cap of a search.
#[derive(Debug, Clone)]
pub struct FindOpts {
    /// Keep only slides carrying at least one of these tags (any case).
    pub tags: Vec<String>,
    /// Keep only slides whose topic contains this (any case).
    pub topic: Option<String>,
    /// Cap on the number of results; `None` keeps everything.
    pub limit: Option<usize>,
}

impl Default for FindOpts {
    fn default() -> (o: Self)
        ensures
            o.tags@.len() == 0,
            o.topic is None,
            o.limit is None,
    {
        FindOpts { tags: Vec::new(), topic: None, limit: None }
    }
}

pub const W_NAME_EXACT: i64 = 1000;
pub const W_TITLE: i64 = 400;
pub const W_TAG: i64 = 300;
pub const W_TOPIC: i64 = 200;
pub const W_DESCRIPTION: i64 = 120;
pub const W_BODY: i64 = 80;
/// Per additional body occurrence, capped.
pub const W_BODY_MORE: i64 = 10;
pub const BODY_MORE_CAP: i64 = 50;
pub const SNIPPET_RADIUS: usize = 60;

/// The largest char index `k` from `k0` on whose byte offset in `s` is at
/// most `b` (the char boundary at or below `b`).
pub open spec fn floor_char(s: Seq<char>, b: int, k: int) -> int
    decreases s.len() - k,
{
    if k < s.len() && text::byte_len(s.take(k + 1)) <= b {
        floor_char(s, b, k + 1)
    } else {
        k
    }
}

/// The smallest char index `k` from `k0` on whose byte offset in `s` is at
/// least `b`, or the end of `s` (the char boundary at or above `b`).
pub open spec fn ceil_char(s: Seq<char>, b: int, k: int) -> int
    decreases s.len() - k,
{
    if k < s.len() && text::byte_len(s.take(k)) < b {
        ceil_char(s, b, k + 1)
    } else {
        k
    }
}

pub open spec fn ellipsis() -> Seq<char> {
    seq!['\u{2026}']
}

/// A one-line window of `text` around byte offset `pos`: up to
/// `SNIPPET_RADIUS` bytes on each side, widened to char boundaries, white
/// space collapsed to single spaces, with `…` where text was cut off.
pub open spec fn snippet_spec(t: Seq<char>, pos: int) -> Seq<char> {
    let total = text::byte_len(t) as int;
    let p = if pos < total {
        pos
    } else {
        total
    };
    let sb = if p >= SNIPPET_RADIUS {
        p - SNIPPET_RADIUS
    } else {
        0
    };
    let sk = floor_char(t, sb, 0);
    let ek = ceil_char(t, p + SNIPPET_RADIUS, 0);
    let window = text::join(text::words(t.subrange(sk, ek)), seq![' ']);
    (if sk > 0 {
        ellipsis()
    } else {
        Seq::empty()
    }) + window + (if ek < t.len() {
        ellipsis()
    } else {
        Seq::empty()
    })
}

proof fn lemma_byte_len_step(s: Seq<char>, k: int)
    requires
        0 <= k < s.len(),
    ensures
        text::byte_len(s.take(k + 1)) == text::byte_len(s.take(k)) + text::utf8_width(s[k]),
{
    assert(s.take(k + 1).drop_last() =~= s.take(k));
}

proof fn lemma_floor_le(s: Seq<char>, b: int, k: int)
    requires
        0 <= k <= s.len(),
    ensures
        k <= floor_char(s, b, k) <= s.len(),
    decreases s.len() - k,
{
    if k < s.len() && text::byte_len(s.take(k + 1)) <= b {
        lemma_floor_le(s, b, k + 1);
    }
}

proof fn lemma_ceil_le(s: Seq<char>, b: int, k: int)
    requires
        0 <= k <= s.len(),
    ensures
        k <= ceil_char(s, b, k) <= s.len(),
    decreases s.len() - k,
{
    if k < s.len() && text::byte_len(s.take(k)) < b {
        lemma_ceil_le(s, b, k + 1);
    }
}

/// The window of `text` around byte offset `pos` (see [`snippet_spec`]).
pub fn snippet(t: &str, pos: usize) -> (r: String)
    ensures
        r@ == snippet_spec(t@, pos as int),
{
    let s = text::chars_of(t);
    let n = s.len();
    let ghost sq = s@;
    let pos_w: u128 = pos as u128;
    // p = min(pos, total bytes)
    let mut k: usize = 0;
    let mut acc: u128 = 0;
    assert(sq.take(0) =~= Seq::<char>::empty());
    while k < n && acc + (text::utf8_width_of(s[k]) as u128) <= pos_w
        invariant
            k <= n == sq.len(),
            n == s.len(),
            sq == s@,
            sq == t@,
            acc == text::byte_len(sq.take(k as int)),
            acc <= pos_w,
            pos_w == pos,
            forall|j: int| 0 <= j <= k ==> text::byte_len(#[trigger] sq.take(j)) <= acc,
        decreases n - k,
    {
        proof {
            lemma_byte_len_step(sq, k as int);
        }
        acc = acc + (text::utf8_width_of(s[k]) as u128);
        k += 1;
    }
    let ghost total = text::byte_len(sq) as int;
    let p: u128 = if k == n {
        assert(sq.take(n as int) =~= sq);
        acc
    } else {
        proof {
            lemma_byte_len_step(sq, k as int);
            lemma_prefix_bytes_le(sq, k + 1);
        }
        pos_w
    };
    assert(p == if (pos as int) < total {
        pos as int
    } else {
        total
    });
    let sb: u128 = if p >= 60 {
        p - 60
    } else {
        0
    };
    // floor boundary of sb
    let mut sk: usize = 0;
    let mut a: u128 = 0;
    while sk < n && a + (text::utf8_width_of(s[sk]) as u128) <= sb
        invariant
            sk <= n == sq.len(),
            n == s.len(),
            sq == s@,
            a == text::byte_len(sq.take(sk as int)),
            a <= sb,
            sb <= p <= pos_w,
            pos_w == pos,
            floor_char(sq, sb as int, 0) == floor_char(sq, sb as int, sk as int),
        decreases n - sk,
    {
        proof {
            lemma_byte_len_step(sq, sk as int);
        }
        a = a + (text::utf8_width_of(s[sk]) as u128);
        sk += 1;
    }
    proof {
        if sk < n {
            lemma_byte_len_step(sq, sk as int);
        }
    }
    assert(floor_char(sq, sb as int, 0) == sk);
    // ceil boundary of p + radius
    let eb: u128 = p + 60;
    let mut ek: usize = 0;
    let mut e: u128 = 0;
    while ek < n && e < eb
        invariant
            ek <= n == sq.len(),
            n == s.len(),
            sq == s@,
            e == text::byte_len(sq.take(ek as int)),
            e <= eb + 4,
            pos_w == pos,
            ceil_char(sq, eb as int, 0) == ceil_char(sq, eb as int, ek as int),
            eb == p + 60,
            p <= pos_w,
        decreases n - ek,
    {
        proof {
            lemma_byte_len_step(sq, ek as int);
        }
        e = e + (text::utf8_width_of(s[ek]) as u128);
        ek += 1;
    }
    assert(ceil_char(sq, eb as int, 0) == ek);
    proof {
        lemma_floor_le(sq, sb as int, 0);
    }
    if sk > ek {
        // the floor of a smaller offset never passes the ceiling
        proof {
            lemma_floor_ceil(sq, sb as int, eb as int);
        }
    }
    let window = text::slice_vec(s.as_slice(), sk, ek);
    let ws = text::words_of(window.as_slice());
    let sep: Vec<char> = vec![' '];
    assert(sep@ =~= seq![' ']);
    let body = text::join_chars(&ws, sep.as_slice());
    let mut out: Vec<char> = Vec::new();
    if sk > 0 {
        out.push('\u{2026}');
    }
    text::push_all(&mut out, body.as_slice());
    if ek < n {
        out.push('\u{2026}');
    }
    assert(out@ =~= snippet_spec(t@, pos as int));
    text::string_of(out.as_slice())
}

proof fn lemma_prefix_bytes_le(s: Seq<char>, k: int)
    requires
        0 <= k <= s.len(),
    ensures
        text::byte_len(s.take(k)) <= text::byte_len(s),
    decreases s.len() - k,
{
    if k < s.len() {
        lemma_byte_len_step(s, k);
        lemma_prefix_bytes_le(s, k + 1);
    } else {
        assert(s.take(k) =~= s);
    }
}

proof fn lemma_floor_ceil(s: Seq<char>, lo: int, hi: int)
    requires
        0 <= lo <= hi,
    ensures
        floor_char(s, lo, 0) <= ceil_char(s, hi, 0),
{
    lemma_floor_ceil_from(s, lo, hi, 0);
}

proof fn lemma_floor_ceil_from(s: Seq<char>, lo: int, hi: int, k: int)
    requires
        0 <= lo <= hi,
        0 <= k <= s.len(),
        text::byte_len(s.take(k)) <= lo,
    ensures
        floor_char(s, lo, k) <= ceil_char(s, hi, k),
    decreases s.len() - k,
{
    lemma_ceil_le(s, hi, k);
    if k < s.len() && text::byte_len(s.take(k + 1)) <= lo {
        lemma_floor_ceil_from(s, lo, hi, k + 1);
        assert(text::byte_len(s.take(k)) < hi) by {
            lemma_byte_len_step(s, k);
        }
    }
}

/// A field hit as plain values.
pub type FieldView = (Seq<char>, Seq<char>);

pub open spec fn field_views(v: Seq<FieldHit>) -> Seq<FieldView> {
    v.map_values(|h: FieldHit| (h.field@, h.snippet@))
}

/// Some hit in `v` is for `field`.
pub open spec fn has_field(v: Seq<FieldView>, field: Seq<char>) -> bool {
    exists|k: int| 0 <= k < v.len() && (#[trigger] v[k]).0 == field
}

/// `v` with a hit for `field` added, unless it has one already.
pub open spec fn push_unique_spec(v: Seq<FieldView>, field: Seq<char>, snippet: Seq<char>) -> Seq<
    FieldView,
> {
    if has_field(v, field) {
        v
    } else {
        v.push((field, snippet))
    }
}

/// Add a hit for `field` unless `v` has one already.
pub fn push_unique(v: &mut Vec<FieldHit>, field: &str, snippet: String)
    ensures
        field_views(final(v)@) == push_unique_spec(field_views(old(v)@), field@, snippet@),
{
    let f = field.to_string();
    let mut i: usize = 0;
    while i < v.len()
        invariant
            i <= v.len(),
            f@ == field@,
            forall|k: int| 0 <= k < i ==> (#[trigger] field_views(v@)[k]).0 != field@,
        decreases v.len() - i,
    {
        if v[i].field == f {
            assert(field_views(v@)[i as int].0 == field@);
            return;
        }
        i += 1;
    }
    let ghost before = field_views(v@);
    v.push(FieldHit { field: f, snippet });
    assert(field_views(v@) =~= before.push((field@, snippet@)));
}

/// Number of non-overlapping occurrences of `pat` in `s` from `from` on,
/// left to right (an empty pattern occurs at every char boundary).
pub open spec fn count_from(s: Seq<char>, pat: Seq<char>, from: int) -> int
    decreases s.len() + 1 - from,
{
    if from < 0 || from > s.len() {
        0
    } else if pat.len() == 0 {
        s.len() - from + 1
    } else {
        proof {
            text::lemma_find_from_spec(s, pat, from);
        }
        match text::find_from(s, pat, from) {
            Some(i) => 1 + count_from(s, pat, i + pat.len()),
            None => 0,
        }
    }
}

proof fn lemma_count_nonneg(s: Seq<char>, pat: Seq<char>, from: int)
    ensures
        0 <= count_from(s, pat, from),
        pat.len() > 0 && 0 <= from <= s.len() && text::find_from(s, pat, from) is Some ==> count_from(
            s,
            pat,
            from,
        ) >= 1,
    decreases s.len() + 1 - from,
{
    if 0 <= from <= s.len() && pat.len() > 0 {
        text::lemma_find_from_spec(s, pat, from);
        match text::find_from(s, pat, from) {
            Some(i) => {
                lemma_count_nonneg(s, pat, i + pat.len());
            },
            None => {},
        }
    }
}

proof fn lemma_count_bound(s: Seq<char>, pat: Seq<char>, from: int)
    requires
        pat.len() > 0,
    ensures
        0 <= from <= s.len() ==> count_from(s, pat, from) <= s.len() + 1 - from,
        from > s.len() ==> count_from(s, pat, from) == 0,
    decreases s.len() + 1 - from,
{
    if 0 <= from <= s.len() && pat.len() > 0 {
        text::lemma_find_from_spec(s, pat, from);
        match text::find_from(s, pat, from) {
            Some(i) => {
                lemma_count_bound(s, pat, i + pat.len());
            },
            None => {},
        }
    }
}

/// Number of non-overlapping occurrences of a non-empty `pat` in `s`.
fn count_matches(s: &[char], pat: &[char]) -> (n: usize)
    requires
        pat@.len() > 0,
    ensures
        n == count_from(s@, pat@, 0),
{
    let mut n: usize = 0;
    let mut from: usize = 0;
    proof {
        lemma_count_bound(s@, pat@, 0);
    }
    loop
        invariant
            from <= s.len(),
            pat.len() > 0,
            n + count_from(s@, pat@, from as int) == count_from(s@, pat@, 0),
            n <= from,
        decreases s.len() + 1 - from,
    {
        proof {
            text::lemma_find_from_spec(s@, pat@, from as int);
        }
        match text::find_at(s, pat, from) {
            Some(i) => {
                proof {
                    lemma_count_bound(s@, pat@, i + pat.len());
                }
                n = n + 1;
                from = i + pat.len();
            },
            None => {
                return n;
            },
        }
    }
}

pub open spec fn or_empty(o: Option<String>) -> Seq<char> {
    match o {
        Some(s) => s@,
        None => Seq::empty(),
    }
}

/// The texts of a slide that a query is matched against, lowercased where
/// the match ignores case.
pub struct SlideText {
    pub title: Seq<char>,
    pub title_l: Seq<char>,
    pub topic_l: Seq<char>,
    pub desc: Seq<char>,
    pub desc_l: Seq<char>,
    pub body_l: Seq<char>,
    pub name_l: Seq<char>,
    pub tags: Seq<Seq<char>>,
    pub tags_l: Seq<Seq<char>>,
}

pub open spec fn slide_text(s: Slide) -> SlideText {
    let tags = text::string_views(s.metadata.tags@);
    SlideText {
        title: or_empty(s.metadata.title),
        title_l: text::lowercase(or_empty(s.metadata.title)),
        topic_l: text::lowercase(or_empty(s.metadata.topic)),
        desc: or_empty(s.metadata.description),
        desc_l: text::lowercase(or_empty(s.metadata.description)),
        body_l: text::lowercase(s.content@),
        name_l: text::lowercase(s.relative_path@),
        tags,
        tags_l: tags.map_values(|t: Seq<char>| text::lowercase(t)),
    }
}

/// Index of the first tag at or after `from` that contains `tok`.
pub open spec fn first_tag(tags_l: Seq<Seq<char>>, tok: Seq<char>, from: int) -> Option<int>
    decreases tags_l.len() - from,
{
    if from < 0 || from >= tags_l.len() {
        None
    } else if text::contains(tags_l[from], tok) {
        Some(from)
    } else {
        first_tag(tags_l, tok, from + 1)
    }
}

/// The running state of scoring a slide token by token.
pub struct ScoreState {
    pub score: int,
    pub all_hit: bool,
    pub matched: Seq<FieldView>,
    pub body_first: Option<int>,
}

/// What a body hit adds: `W_BODY`, plus `W_BODY_MORE` per further
/// occurrence, at most `BODY_MORE_CAP`.
pub open spec fn body_points(body_l: Seq<char>, tok: Seq<char>) -> int {
    let extra = count_from(body_l, tok, 0) - 1;
    let more = if extra < 0 {
        0
    } else if extra > BODY_MORE_CAP / W_BODY_MORE {
        BODY_MORE_CAP / W_BODY_MORE
    } else {
        extra
    };
    W_BODY + more * W_BODY_MORE
}

/// Where one token lands in a slide's texts.
pub struct TokenHits {
    pub name: bool,
    pub title: bool,
    pub tag: Option<int>,
    pub topic: bool,
    pub desc: bool,
    pub body: Option<int>,
}

pub open spec fn token_hits(tok: Seq<char>, x: SlideText) -> TokenHits {
    TokenHits {
        name: text::contains(x.name_l, tok),
        title: x.title_l.len() > 0 && text::contains(x.title_l, tok),
        tag: first_tag(x.tags_l, tok, 0),
        topic: x.topic_l.len() > 0 && text::contains(x.topic_l, tok),
        desc: x.desc_l.len() > 0 && text::contains(x.desc_l, tok),
        body: text::find(x.body_l, tok),
    }
}

/// Points of one token's hits.
pub open spec fn hit_points(h: TokenHits, tok: Seq<char>, x: SlideText) -> int {
    (if h.title {
        W_TITLE as int
    } else {
        0
    }) + (if h.tag is Some {
        W_TAG as int
    } else {
        0
    }) + (if h.topic {
        W_TOPIC as int
    } else {
        0
    }) + (if h.desc {
        W_DESCRIPTION as int
    } else {
        0
    }) + (if h.body is Some {
        body_points(x.body_l, tok)
    } else {
        0
    })
}

/// The earliest body offset (in bytes) after one token's hits.
pub open spec fn next_body_first(prev: Option<int>, h: TokenHits, x: SlideText) -> Option<int> {
    match h.body {
        Some(i) => {
            let b = text::byte_len(x.body_l.take(i)) as int;
            Some(
                match prev {
                    Some(p) => if p <= b {
                        p
                    } else {
                        b
                    },
                    None => b,
                },
            )
        },
        None => prev,
    }
}

/// One token: points for each field it occurs in, the first matching tag
/// recorded, the earliest body offset (in bytes) kept, and whether the
/// token landed anywhere.
pub open spec fn token_step(st: ScoreState, tok: Seq<char>, x: SlideText) -> ScoreState {
    let h = token_hits(tok, x);
    ScoreState {
        score: st.score + hit_points(h, tok, x),
        all_hit: st.all_hit && (h.name || h.title || h.tag is Some || h.topic || h.desc
            || h.body is Some),
        matched: match h.tag {
            Some(k) => push_unique_spec(st.matched, "tags"@, x.tags[k]),
            None => st.matched,
        },
        body_first: next_body_first(st.body_first, h, x),
    }
}

/// The state after all tokens, left to right.
pub open spec fn score_tokens(tokens: Seq<Seq<char>>, x: SlideText) -> ScoreState
    decreases tokens.len(),
{
    if tokens.len() == 0 {
        ScoreState { score: 0, all_hit: true, matched: Seq::empty(), body_first: None }
    } else {
        token_step(score_tokens(tokens.drop_last(), x), tokens.last(), x)
    }
}

/// Some token occurs in `hay`.
pub open spec fn any_in(tokens: Seq<Seq<char>>, hay: Seq<char>) -> bool {
    exists|k: int| 0 <= k < tokens.len() && text::contains(hay, #[trigger] tokens[k])
}

pub open spec fn clamp_usize(p: int) -> int {
    if p > usize::MAX {
        usize::MAX as int
    } else {
        p
    }
}

/// The field hits of a slide every token landed in: tags (recorded per
/// token), then title, topic, description and a body snippet.
pub open spec fn text_matches(st: ScoreState, tokens: Seq<Seq<char>>, x: SlideText, s: Slide) -> Seq<
    FieldView,
> {
    let m1 = if any_in(tokens, x.title_l) && x.title.len() > 0 {
        push_unique_spec(st.matched, "title"@, x.title)
    } else {
        st.matched
    };
    let m2 = if any_in(tokens, x.topic_l) && s.metadata.topic is Some {
        push_unique_spec(m1, "topic"@, s.metadata.topic->0@)
    } else {
        m1
    };
    let m3 = if any_in(tokens, x.desc_l) && x.desc.len() > 0 {
        push_unique_spec(m2, "description"@, x.desc)
    } else {
        m2
    };
    match st.body_first {
        Some(p) => push_unique_spec(m3, "body"@, snippet_spec(s.content@, clamp_usize(p))),
        None => m3,
    }
}

/// What a fuzzy name match adds: `W_NAME_EXACT` for an exact or anchor
/// match, else its score capped below `W_TITLE`.
pub open spec fn fuzzy_points(score: i64, mt: MatchType) -> int {
    match mt {
        MatchType::Exact | MatchType::Anchor => W_NAME_EXACT as int,
        _ => if score < W_TITLE - 1 {
            score as int
        } else {
            W_TITLE - 1
        },
    }
}

/// A hit as plain values.
pub struct HitView {
    pub relative_path: Seq<char>,
    pub name: Seq<char>,
    pub title: Option<Seq<char>>,
    pub layout: Seq<char>,
    pub tags: Seq<Seq<char>>,
    pub topic: Option<Seq<char>>,
    pub score: int,
    pub matched: Seq<FieldView>,
}

impl Hit {
    pub open spec fn view(&self) -> HitView {
        HitView {
            relative_path: self.relative_path@,
            name: self.name@,
            title: text::opt_seq(self.title),
            layout: self.layout@,
            tags: text::string_views(self.tags@),
            topic: text::opt_seq(self.topic),
            score: self.score as int,
            matched: field_views(self.matched@),
        }
    }
}

/// How a slide ranks for `tokens`: the text score when every token landed
/// somewhere (else nothing), plus the fuzzy name points; no hit at zero.
pub open spec fn score_spec(s: Slide, tokens: Seq<Seq<char>>, fuzzy: Option<(i64, MatchType)>) -> Option<
    HitView,
> {
    let x = slide_text(s);
    let st = score_tokens(tokens, x);
    let score0 = if st.all_hit {
        st.score
    } else {
        0
    };
    let m0 = if st.all_hit {
        text_matches(st, tokens, x, s)
    } else {
        Seq::empty()
    };
    let score = match fuzzy {
        Some(f) => score0 + fuzzy_points(f.0, f.1),
        None => score0,
    };
    let matched = match fuzzy {
        Some(f) => push_unique_spec(m0, "name"@, s.relative_path@),
        None => m0,
    };
    if score == 0 {
        None
    } else {
        Some(
            HitView {
                relative_path: s.relative_path@,
                name: s.name@,
                title: text::opt_seq(s.metadata.title),
                layout: match s.metadata.layout {
                    Some(l) => l@,
                    None => "default"@,
                },
                tags: text::string_views(s.metadata.tags@),
                topic: text::opt_seq(s.metadata.topic),
                score,
                matched,
            },
        )
    }
}

/// The texts of a slide (see [`SlideText`]) as characters.
struct Texts {
    title: Vec<char>,
    title_l: Vec<char>,
    topic_l: Vec<char>,
    desc: Vec<char>,
    desc_l: Vec<char>,
    body_l: Vec<char>,
    name_l: Vec<char>,
    tags_l: Vec<Vec<char>>,
}

impl Texts {
    spec fn holds(&self, x: SlideText) -> bool {
        &&& self.title@ == x.title
        &&& self.title_l@ == x.title_l
        &&& self.topic_l@ == x.topic_l
        &&& self.desc@ == x.desc
        &&& self.desc_l@ == x.desc_l
        &&& self.body_l@ == x.body_l
        &&& self.name_l@ == x.name_l
        &&& text::views(self.tags_l@) == x.tags_l
        &&& x.tags_l.len() == x.tags.len()
    }
}

fn or_empty_str(o: &Option<String>) -> (r: String)
    ensures
        r@ == or_empty(*o),
{
    match o {
        Some(s) => s.clone(),
        None => String::new(),
    }
}

fn texts_of(s: &Slide) -> (t: Texts)
    ensures
        t.holds(slide_text(*s)),
{
    let title = or_empty_str(&s.metadata.title);
    let topic = or_empty_str(&s.metadata.topic);
    let desc = or_empty_str(&s.metadata.description);
    Texts {
        title: text::chars_of(title.as_str()),
        title_l: text::lower(title.as_str()),
        topic_l: text::lower(topic.as_str()),
        desc: text::chars_of(desc.as_str()),
        desc_l: text::lower(desc.as_str()),
        body_l: text::lower(s.content.as_str()),
        name_l: text::lower(s.relative_path.as_str()),
        tags_l: text::lower_all(&s.metadata.tags),
    }
}

/// Index of the first tag that contains `tok`.
fn first_tag_of(tags_l: &Vec<Vec<char>>, tok: &[char]) -> (r: Option<usize>)
    ensures
        match first_tag(text::views(tags_l@), tok@, 0) {
            Some(k) => r == Some(k as usize),
            None => r is None,
        },
{
    let mut i: usize = 0;
    while i < tags_l.len()
        invariant
            i <= tags_l.len(),
            first_tag(text::views(tags_l@), tok@, 0) == first_tag(text::views(tags_l@), tok@, i as int),
        decreases tags_l.len() - i,
    {
        if text::contains_chars(tags_l[i].as_slice(), tok) {
            return Some(i);
        }
        i += 1;
    }
    None
}

proof fn lemma_first_tag(tags_l: Seq<Seq<char>>, tok: Seq<char>, from: int)
    ensures
        first_tag(tags_l, tok, from) matches Some(k) ==> from <= k < tags_l.len() && text::contains(
            tags_l[k],
            tok,
        ),
    decreases tags_l.len() - from,
{
    if 0 <= from < tags_l.len() && !text::contains(tags_l[from], tok) {
        lemma_first_tag(tags_l, tok, from + 1);
    }
}

/// Byte offset of char index `k` in `s`.
fn byte_offset(s: &[char], k: usize) -> (r: u128)
    requires
        k <= s.len(),
    ensures
        r == text::byte_len(s@.take(k as int)),
        r <= 4 * k,
{
    let mut acc: u128 = 0;
    let mut i: usize = 0;
    assert(s@.take(0) =~= Seq::<char>::empty());
    while i < k
        invariant
            i <= k <= s.len(),
            acc == text::byte_len(s@.take(i as int)),
            acc <= 4 * i,
        decreases k - i,
    {
        proof {
            lemma_byte_len_step(s@, i as int);
        }
        acc = acc + (text::utf8_width_of(s[i]) as u128);
        i += 1;
    }
    acc
}

/// The running state of scoring, as executable values.
struct Scoring {
    score: i64,
    all_hit: bool,
    matched: Vec<FieldHit>,
    body_first: Option<u128>,
}

impl Scoring {
    spec fn state(&self) -> ScoreState {
        ScoreState {
            score: self.score as int,
            all_hit: self.all_hit,
            matched: field_views(self.matched@),
            body_first: match self.body_first {
                Some(p) => Some(p as int),
                None => None,
            },
        }
    }
}

/// Record the tag a token landed in, if any.
fn push_tag(matched: &mut Vec<FieldHit>, s: &Slide, tag: Option<usize>, Ghost(x): Ghost<SlideText>)
    requires
        x == slide_text(*s),
        tag matches Some(k) ==> k < x.tags.len(),
    ensures
        field_views(final(matched)@) == match tag {
            Some(k) => push_unique_spec(field_views(old(matched)@), "tags"@, x.tags[k as int]),
            None => field_views(old(matched)@),
        },
{
    match tag {
        Some(k) => {
            assert(x.tags[k as int] == s.metadata.tags@[k as int]@);
            push_unique(matched, "tags", s.metadata.tags[k].clone());
        },
        None => {},
    }
}

/// Where one token lands (see [`token_hits`]).
fn hits_of(t: &Texts, tok: &[char], Ghost(x): Ghost<SlideText>) -> (r: (
    bool,
    bool,
    Option<usize>,
    bool,
    bool,
    Option<usize>,
))
    requires
        t.holds(x),
    ensures
        ({
            let h = token_hits(tok@, x);
            &&& r.0 == h.name
            &&& r.1 == h.title
            &&& match h.tag {
                Some(k) => r.2 == Some(k as usize) && 0 <= k < x.tags.len() && k < t.tags_l.len(),
                None => r.2 is None,
            }
            &&& r.3 == h.topic
            &&& r.4 == h.desc
            &&& match h.body {
                Some(i) => r.5 == Some(i as usize) && 0 <= i <= x.body_l.len() && i <= t.body_l.len(),
                None => r.5 is None,
            }
        }),
{
    let name_hit = text::contains_chars(t.name_l.as_slice(), tok);
    let title_hit = t.title_l.len() > 0 && text::contains_chars(t.title_l.as_slice(), tok);
    let tag = first_tag_of(&t.tags_l, tok);
    proof {
        lemma_first_tag(text::views(t.tags_l@), tok@, 0);
    }
    let topic_hit = t.topic_l.len() > 0 && text::contains_chars(t.topic_l.as_slice(), tok);
    let desc_hit = t.desc_l.len() > 0 && text::contains_chars(t.desc_l.as_slice(), tok);
    let body = text::find_chars(t.body_l.as_slice(), tok);
    proof {
        text::lemma_find_from_spec(t.body_l@, tok@, 0);
    }
    (name_hit, title_hit, tag, topic_hit, desc_hit, body)
}

/// Points of a body hit (see [`body_points`]).
fn body_points_of(body_l: &[char], tok: &[char]) -> (p: i64)
    requires
        text::find(body_l@, tok@) is Some,
    ensures
        p == body_points(body_l@, tok@),
        W_BODY <= p <= W_BODY + BODY_MORE_CAP,
{
    if tok.len() == 0 {
        let more: i64 = if body_l.len() > 5 {
            5
        } else {
            body_l.len() as i64
        };
        return W_BODY + more * W_BODY_MORE;
    }
    proof {
        lemma_count_nonneg(body_l@, tok@, 0);
    }
    let cnt = count_matches(body_l, tok);
    let extra = cnt - 1;
    let more: i64 = if extra > 5 {
        5
    } else {
        extra as i64
    };
    W_BODY + more * W_BODY_MORE
}

/// One token (see [`token_step`]).
#[verifier::rlimit(30)]
fn score_token(t: &Texts, s: &Slide, tok: &[char], st: &mut Scoring)
    requires
        t.holds(slide_text(*s)),
        0 <= old(st).score <= i64::MAX - 1150,
    ensures
        final(st).state() == token_step(old(st).state(), tok@, slide_text(*s)),
        old(st).score <= final(st).score <= old(st).score + 1150,
{
    let ghost x = slide_text(*s);
    let ghost h = token_hits(tok@, x);
    let (name_hit, title_hit, tag, topic_hit, desc_hit, body) = hits_of(t, tok, Ghost(x));
    proof {
        match tag {
            Some(k) => {
                assert(h.tag == Some(k as int));
            },
            None => {
                assert(h.tag is None);
            },
        }
        match body {
            Some(i) => {
                assert(h.body == Some(i as int));
            },
            None => {
                assert(h.body is None);
            },
        }
    }
    let ghost old_matched = field_views(st.matched@);
    let ghost old_first = st.state().body_first;
    let mut add: i64 = 0;
    if title_hit {
        add = add + W_TITLE;
    }
    if tag.is_some() {
        add = add + W_TAG;
    }
    if topic_hit {
        add = add + W_TOPIC;
    }
    if desc_hit {
        add = add + W_DESCRIPTION;
    }
    match body {
        Some(i) => {
            add = add + body_points_of(t.body_l.as_slice(), tok);
            let b = byte_offset(t.body_l.as_slice(), i);
            st.body_first = match st.body_first {
                Some(p) => Some(if p <= b {
                    p
                } else {
                    b
                }),
                None => Some(b),
            };
        },
        None => {},
    }
    assert(add == hit_points(h, tok@, x));
    st.score = st.score + add;
    push_tag(&mut st.matched, s, tag, Ghost(x));
    let hit = name_hit || title_hit || tag.is_some() || topic_hit || desc_hit || body.is_some();
    st.all_hit = st.all_hit && hit;
    let ghost want = token_step(old(st).state(), tok@, x);
    assert(old_matched == old(st).state().matched);
    assert(old_first == old(st).state().body_first);
    assert(want.body_first == next_body_first(old_first, h, x));
    assert(st.state().score == want.score);
    assert(st.state().all_hit == want.all_hit);
    assert(st.state().matched == want.matched);
    assert(st.state().body_first == want.body_first);
}

/// Some token occurs in `hay`.
fn any_token_in(tokens: &Vec<Vec<char>>, hay: &[char]) -> (b: bool)
    ensures
        b == any_in(text::views(tokens@), hay@),
{
    let mut i: usize = 0;
    while i < tokens.len()
        invariant
            i <= tokens.len(),
            forall|k: int| 0 <= k < i ==> !text::contains(hay@, #[trigger] text::views(tokens@)[k]),
        decreases tokens.len() - i,
    {
        if text::contains_chars(hay, tokens[i].as_slice()) {
            assert(text::contains(hay@, text::views(tokens@)[i as int]));
            return true;
        }
        i += 1;
    }
    false
}

fn clamp_to_usize(p: u128) -> (r: usize)
    ensures
        r == clamp_usize(p as int),
{
    if p > usize::MAX as u128 {
        usize::MAX
    } else {
        p as usize
    }
}

/// How one slide ranks for the query `tokens`, with its fuzzy name match
/// if any (see [`score_spec`]). `None` when it scores zero.
pub fn score_slide(s: &Slide, tokens: &[String], fuzzy: Option<(i64, MatchType)>) -> (r: Option<Hit>)
    requires
        tokens@.len() <= 1_000_000_000_000_000,
    ensures
        match score_spec(*s, text::string_views(tokens@), fuzzy) {
            Some(h) => r matches Some(hit) && hit.view() == h,
            None => r is None,
        },
{
    let ghost x = slide_text(*s);
    let ghost toks = text::string_views(tokens@);
    let t = texts_of(s);
    let tv = text::chars_all(tokens);
    let mut st = Scoring { score: 0, all_hit: true, matched: Vec::new(), body_first: None };
    let mut i: usize = 0;
    assert(toks.take(0) =~= Seq::<Seq<char>>::empty());
    assert(field_views(st.matched@) =~= Seq::<FieldView>::empty());
    while i < tv.len()
        invariant
            i <= tv.len() == tokens@.len() <= 1_000_000_000_000_000,
            text::views(tv@) == toks,
            toks == text::string_views(tokens@),
            t.holds(x),
            x == slide_text(*s),
            st.state() == score_tokens(toks.take(i as int), x),
            0 <= st.score <= 1150 * i,
        decreases tv.len() - i,
    {
        assert(toks.take(i + 1).drop_last() =~= toks.take(i as int));
        assert(toks[i as int] == tokens@[i as int]@);
        score_token(&t, s, tv[i].as_slice(), &mut st);
        i += 1;
    }
    assert(toks.take(tv.len() as int) =~= toks);
    let mut score: i64 = 0;
    let mut matched: Vec<FieldHit> = Vec::new();
    assert(field_views(matched@) =~= Seq::<FieldView>::empty());
    if st.all_hit {
        score = st.score;
        matched = st.matched;
        if any_token_in(&tv, t.title_l.as_slice()) && t.title.len() > 0 {
            push_unique(&mut matched, "title", text::string_of(t.title.as_slice()));
        }
        if any_token_in(&tv, t.topic_l.as_slice()) {
            match &s.metadata.topic {
                Some(tp) => {
                    push_unique(&mut matched, "topic", tp.clone());
                },
                None => {},
            }
        }
        if any_token_in(&tv, t.desc_l.as_slice()) && t.desc.len() > 0 {
            push_unique(&mut matched, "description", text::string_of(t.desc.as_slice()));
        }
        match st.body_first {
            Some(p) => {
                let sn = snippet(s.content.as_str(), clamp_to_usize(p));
                push_unique(&mut matched, "body", sn);
            },
            None => {},
        }
    }
    match fuzzy {
        Some((fscore, mt)) => {
            let add: i64 = match mt {
                MatchType::Exact | MatchType::Anchor => W_NAME_EXACT,
                _ => if fscore < W_TITLE - 1 {
                    fscore
                } else {
                    W_TITLE - 1
                },
            };
            score = score + add;
            push_unique(&mut matched, "name", s.relative_path.clone());
        },
        None => {},
    }
    if score == 0 {
        return None;
    }
    let layout = match &s.metadata.layout {
        Some(l) => l.clone(),
        None => "default".to_string(),
    };
    Some(
        Hit {
            relative_path: s.relative_path.clone(),
            name: s.name.clone(),
            title: text::clone_opt(&s.metadata.title),
            layout,
            tags: text::clone_strings(&s.metadata.tags),
            topic: text::clone_opt(&s.metadata.topic),
            score,
            matched,
        },
    )
}

/// Whether a slide passes the (lowercased) tag and topic filters: it
/// carries one of the tags (any case), and its topic contains the topic.
pub open spec fn passes_spec(s: Slide, tags: Seq<Seq<char>>, topic: Option<Seq<char>>) -> bool {
    let mine = text::string_views(s.metadata.tags@).map_values(|t: Seq<char>| text::lowercase(t));
    &&& (tags.len() == 0 || exists|i: int, j: int|
        0 <= i < tags.len() && 0 <= j < mine.len() && #[trigger] mine[j] == #[trigger] tags[i])
    &&& match topic {
        Some(t) => s.metadata.topic is Some && text::contains(
            text::lowercase(s.metadata.topic->0@),
            t,
        ),
        None => true,
    }
}

/// Whether a slide passes the tag filter `tags` and the topic filter
/// `topic`, both already lowercased.
pub fn passes_filters(s: &Slide, tags: &[String], topic: Option<&str>) -> (b: bool)
    ensures
        b == passes_spec(*s, text::string_views(tags@), crate::slide::opt_str(topic)),
{
    let ghost tv = text::string_views(tags@);
    if tags.len() > 0 {
        let mine = text::lower_all(&s.metadata.tags);
        let ghost mv = text::views(mine@);
        let mut found = false;
        let mut i: usize = 0;
        while i < tags.len() && !found
            invariant
                i <= tags.len(),
                tv == text::string_views(tags@),
                mv == text::views(mine@),
                found ==> exists|a: int, c: int|
                    0 <= a < tv.len() && 0 <= c < mv.len() && #[trigger] mv[c] == #[trigger] tv[a],
                !found ==> forall|a: int, c: int|
                    0 <= a < i && 0 <= c < mv.len() ==> #[trigger] mv[c] != #[trigger] tv[a],
            decreases tags.len() - i,
        {
            let tc = text::chars_of(tags[i].as_str());
            let mut j: usize = 0;
            while j < mine.len() && !found
                invariant
                    i < tags.len(),
                    j <= mine.len(),
                    tv == text::string_views(tags@),
                    mv == text::views(mine@),
                    tc@ == tv[i as int],
                    found ==> exists|a: int, c: int|
                        0 <= a < tv.len() && 0 <= c < mv.len() && #[trigger] mv[c] == #[trigger] tv[a],
                    !found ==> forall|a: int, c: int|
                        0 <= a < i && 0 <= c < mv.len() ==> #[trigger] mv[c] != #[trigger] tv[a],
                    !found ==> forall|c: int| 0 <= c < j ==> #[trigger] mv[c] != tv[i as int],
                decreases mine.len() - j,
            {
                if text::eq_chars(mine[j].as_slice(), tc.as_slice()) {
                    assert(mv[j as int] == tv[i as int]);
                    found = true;
                }
                j += 1;
            }
            i += 1;
        }
        if !found {
            return false;
        }
    }
    match topic {
        Some(t) => match &s.metadata.topic {
            Some(mine) => {
                let ml = text::lower(mine.as_str());
                let tc = text::chars_of(t);
                text::contains_chars(ml.as_slice(), tc.as_slice())
            },
            None => false,
        },
        None => true,
    }
}

/// The score and kind of the first fuzzy match for `path`.
pub open spec fn fuzzy_for(fz: Seq<fuzzy::MatchView>, path: Seq<char>, from: int) -> Option<
    (i64, MatchType),
>
    decreases fz.len() - from,
{
    if from < 0 || from >= fz.len() {
        None
    } else if fz[from].0 == path {
        Some((fz[from].1, fz[from].2))
    } else {
        fuzzy_for(fz, path, from + 1)
    }
}

/// The hits of all slides that pass the filters, in slide order.
pub open spec fn collect_hits(
    slides: Seq<Slide>,
    tokens: Seq<Seq<char>>,
    fz: Seq<fuzzy::MatchView>,
    tags: Seq<Seq<char>>,
    topic: Option<Seq<char>>,
) -> Seq<HitView>
    decreases slides.len(),
{
    if slides.len() == 0 {
        Seq::empty()
    } else {
        let prev = collect_hits(slides.drop_last(), tokens, fz, tags, topic);
        let s = slides.last();
        if passes_spec(s, tags, topic) {
            match score_spec(s, tokens, fuzzy_for(fz, s.relative_path@, 0)) {
                Some(h) => prev.push(h),
                None => prev,
            }
        } else {
            prev
        }
    }
}


/// `a` may stay before `b`: a higher score, or an equal score and a path
/// not after `b`'s.
pub open spec fn hit_before(a: HitView, b: HitView) -> bool {
    a.score > b.score || (a.score == b.score && !text::seq_lt(b.relative_path, a.relative_path))
}

pub open spec fn insert_hit(sorted: Seq<HitView>, x: HitView) -> Seq<HitView>
    decreases sorted.len(),
{
    if sorted.len() == 0 {
        seq![x]
    } else if hit_before(sorted.last(), x) {
        sorted.push(x)
    } else {
        insert_hit(sorted.drop_last(), x).push(sorted.last())
    }
}

/// The stable sort of hits by score, highest first, then by path.
pub open spec fn sort_hits(s: Seq<HitView>) -> Seq<HitView>
    decreases s.len(),
{
    if s.len() == 0 {
        s
    } else {
        insert_hit(sort_hits(s.drop_last()), s.last())
    }
}

/// The tokens of a query: its words, lowercased.
pub open spec fn query_tokens(query: Seq<char>) -> Seq<Seq<char>> {
    text::words(text::trim(query)).map_values(|w: Seq<char>| text::lowercase(w))
}

/// What a search returns: nothing for a blank query; otherwise the hits of
/// the slides that pass the filters (each with its first fuzzy name match
/// from an uncapped matcher), by score then path, cut to the limit.
pub open spec fn find_spec(
    query: Seq<char>,
    slides: Seq<Slide>,
    threshold: i64,
    tags: Seq<Seq<char>>,
    topic: Option<Seq<char>>,
    limit: Option<usize>,
) -> Seq<HitView> {
    let q = text::trim(query);
    if q.len() == 0 {
        Seq::empty()
    } else {
        let names = slides.map_values(|s: Slide| s.relative_path@);
        let fz = fuzzy::find_all_spec(q, names, threshold, usize::MAX);
        let sorted = sort_hits(
            collect_hits(
                slides,
                query_tokens(query),
                fz,
                tags.map_values(|t: Seq<char>| text::lowercase(t)),
                match topic {
                    Some(t) => Some(text::lowercase(t)),
                    None => None,
                },
            ),
        );
        match limit {
            Some(n) => if sorted.len() > n {
                sorted.take(n as int)
            } else {
                sorted
            },
            None => sorted,
        }
    }
}

pub open spec fn hit_views(v: Seq<Hit>) -> Seq<HitView> {
    v.map_values(|h: Hit| h.view())
}


/// Whether hit `a` may stay before hit `b` (see [`hit_before`]).
fn may_precede(a: &Hit, b: &Hit) -> (r: bool)
    ensures
        r == hit_before(a.view(), b.view()),
{
    if a.score != b.score {
        return a.score > b.score;
    }
    let ap = text::chars_of(a.relative_path.as_str());
    let bp = text::chars_of(b.relative_path.as_str());
    !text::chars_lt(bp.as_slice(), ap.as_slice())
}

/// Insert `x` into the sorted `out` after every hit that may stay before it.
fn insert_hit_exec(out: &mut Vec<Hit>, x: Hit)
    ensures
        hit_views(final(out)@) == insert_hit(hit_views(old(out)@), x.view()),
{
    let ghost v = hit_views(out@);
    let ghost xv = x.view();
    let mut j: usize = out.len();
    assert(v.take(j as int) =~= v);
    assert(v.skip(j as int) =~= Seq::<HitView>::empty());
    while j > 0 && !may_precede(&out[j - 1], &x)
        invariant
            j <= out.len(),
            v == hit_views(out@),
            xv == x.view(),
            insert_hit(v, xv) == insert_hit(v.take(j as int), xv) + v.skip(j as int),
        decreases j,
    {
        let ghost t = v.take(j as int);
        assert(t.drop_last() =~= v.take(j - 1));
        assert(t.last() == v[j - 1]);
        assert(insert_hit(t, xv) == insert_hit(v.take(j - 1), xv).push(v[j - 1]));
        assert(insert_hit(v.take(j - 1), xv).push(v[j - 1]) + v.skip(j as int) =~= insert_hit(
            v.take(j - 1),
            xv,
        ) + v.skip(j - 1));
        j -= 1;
    }
    proof {
        if j > 0 {
            assert(v.take(j as int).last() == v[j - 1]);
        }
    }
    out.insert(j, x);
    assert(hit_views(out@) =~= v.take(j as int).push(xv) + v.skip(j as int));
}

/// The stable sort of `hits` (see [`sort_hits`]).
fn sort_hits_exec(hits: Vec<Hit>) -> (r: Vec<Hit>)
    ensures
        hit_views(r@) == sort_hits(hit_views(hits@)),
{
    let ghost all = hit_views(hits@);
    let mut src = hits;
    let mut out: Vec<Hit> = Vec::new();
    let ghost mut i: int = 0;
    assert(all.take(0) =~= Seq::<HitView>::empty());
    assert(all.skip(0) =~= all);
    while src.len() > 0
        invariant
            0 <= i <= all.len(),
            hit_views(src@) == all.skip(i),
            hit_views(out@) == sort_hits(all.take(i)),
        decreases src.len(),
    {
        let ghost prev = src@;
        let x = src.remove(0);
        proof {
            assert(x == prev[0]);
            assert(hit_views(prev)[0] == prev[0].view());
            assert(hit_views(prev).len() == prev.len());
            assert(prev.len() > 0);
            assert(i < all.len());
            assert(hit_views(prev)[0] == all.skip(i)[0]);
            assert(all.skip(i)[0] == all[i]);
            assert(x.view() == all[i]);
            assert(hit_views(src@) =~= hit_views(prev).drop_first());
            assert(hit_views(src@) =~= all.skip(i + 1));
            assert(all.take(i + 1).drop_last() =~= all.take(i));
        }
        insert_hit_exec(&mut out, x);
        proof {
            i = i + 1;
        }
    }
    assert(all.skip(i).len() == 0);
    assert(all.take(i) =~= all);
    out
}

/// The first fuzzy match for `path`, as score and kind.
fn fuzzy_lookup(fz: &Vec<fuzzy::MatchResult>, path: &String) -> (r: Option<(i64, MatchType)>)
    ensures
        r == fuzzy_for(fuzzy::views(fz@), path@, 0),
{
    let mut i: usize = 0;
    while i < fz.len()
        invariant
            i <= fz.len(),
            fuzzy_for(fuzzy::views(fz@), path@, 0) == fuzzy_for(fuzzy::views(fz@), path@, i as int),
        decreases fz.len() - i,
    {
        if fz[i].value == *path {
            return Some((fz[i].score, fz[i].match_type));
        }
        i += 1;
    }
    None
}

/// Lowercased copies of `v`.
fn lower_strings(v: &Vec<String>) -> (r: Vec<String>)
    ensures
        text::string_views(r@) == text::string_views(v@).map_values(|t: Seq<char>| text::lowercase(t)),
{
    let mut out: Vec<String> = Vec::new();
    let mut i: usize = 0;
    while i < v.len()
        invariant
            i <= v.len(),
            text::string_views(out@) == text::string_views(v@).map_values(
                |t: Seq<char>| text::lowercase(t),
            ).take(i as int),
        decreases v.len() - i,
    {
        let ghost before = text::string_views(out@);
        let l = text::to_lowercase(v[i].as_str());
        assert(l@ == text::string_views(v@).map_values(|t: Seq<char>| text::lowercase(t))[i as int]);
        out.push(l);
        i += 1;
        assert(text::string_views(out@) =~= before.push(l@));
        assert(text::string_views(out@) =~= text::string_views(v@).map_values(
            |t: Seq<char>| text::lowercase(t),
        ).take(i as int));
    }
    assert(text::string_views(v@).map_values(|t: Seq<char>| text::lowercase(t)).take(
        v.len() as int,
    ) =~= text::string_views(v@).map_values(|t: Seq<char>| text::lowercase(t)));
    out
}

proof fn lemma_words_len(s: Seq<char>)
    ensures
        text::words(s).len() <= s.len(),
    decreases s.len(),
{
    let t = text::trim_start(s);
    text::lemma_trim_start(s);
    if t.len() > 0 {
        text::lemma_ws_index(t, 1);
        let k = text::ws_index(t, 0);
        lemma_words_len(t.skip(k));
    }
}

/// Rank the slides of `slides` against `query` (see [`find_spec`]). Every
/// whitespace-separated token must occur somewhere in a slide for a text
/// hit; a fuzzy name match counts on its own.
pub fn find(query: &str, slides: &SlideCollection, matching: &MatchingConfig, opts: &FindOpts) -> (r:
    Vec<Hit>)
    requires
        query@.len() <= 1_000_000_000_000_000,
    ensures
        hit_views(r@) == find_spec(
            query@,
            slides.slides@,
            matching.threshold,
            text::string_views(opts.tags@),
            text::opt_seq(opts.topic),
            opts.limit,
        ),
{
    let qa = text::chars_of(query);
    let qc = text::trim_chars(qa.as_slice());
    if qc.len() == 0 {
        return Vec::new();
    }
    let q = text::string_of(qc.as_slice());
    let ws = text::words_of(qc.as_slice());
    let words = text::strings_of(&ws);
    let tokens = lower_strings(&words);
    proof {
        lemma_words_len(qc@);
        text::lemma_trim_len(query@);
        assert(text::string_views(tokens@) =~= query_tokens(query@));
    }
    let matcher = SldrMatcher::new(
        MatchingConfig {
            resolution_order: text::clone_strings(&matching.resolution_order),
            threshold: matching.threshold,
            max_suggestions: usize::MAX,
        },
    );
    let names = slides.names();
    assert(text::string_views(names@) =~= slides.slides@.map_values(|s: Slide| s.relative_path@));
    let fz = matcher.find_all(q.as_str(), names.as_slice());
    let tag_filter = lower_strings(&opts.tags);
    let topic_filter: Option<String> = match &opts.topic {
        Some(t) => Some(text::to_lowercase(t.as_str())),
        None => None,
    };
    let ghost tf = text::string_views(opts.tags@).map_values(|t: Seq<char>| text::lowercase(t));
    let ghost pf = match text::opt_seq(opts.topic) {
        Some(t) => Some(text::lowercase(t)),
        None => None,
    };
    let ghost tk = query_tokens(query@);
    let ghost fzv = fuzzy::views(fz@);
    let mut hits: Vec<Hit> = Vec::new();
    let mut i: usize = 0;
    assert(slides.slides@.take(0) =~= Seq::<Slide>::empty());
    while i < slides.slides.len()
        invariant
            i <= slides.slides.len(),
            text::string_views(tokens@) == tk,
            tokens@.len() <= 1_000_000_000_000_000,
            text::string_views(tag_filter@) == tf,
            text::opt_seq(topic_filter) == pf,
            fzv == fuzzy::views(fz@),
            hit_views(hits@) == collect_hits(slides.slides@.take(i as int), tk, fzv, tf, pf),
        decreases slides.slides.len() - i,
    {
        let s = &slides.slides[i];
        assert(slides.slides@.take(i + 1).drop_last() =~= slides.slides@.take(i as int));
        let topic_ref: Option<&str> = match &topic_filter {
            Some(t) => Some(t.as_str()),
            None => None,
        };
        if passes_filters(s, tag_filter.as_slice(), topic_ref) {
            let fuzzy = fuzzy_lookup(&fz, &s.relative_path);
            match score_slide(s, tokens.as_slice(), fuzzy) {
                Some(h) => {
                    let ghost before = hit_views(hits@);
                    hits.push(h);
                    assert(hit_views(hits@) =~= before.push(h.view()));
                },
                None => {},
            }
        }
        i += 1;
    }
    assert(slides.slides@.take(slides.slides.len() as int) =~= slides.slides@);
    let mut sorted = sort_hits_exec(hits);
    match opts.limit {
        Some(n) => {
            if sorted.len() > n {
                let ghost sv = hit_views(sorted@);
                sorted.truncate(n);
                assert(hit_views(sorted@) =~= sv.take(n as int));
            }
        },
        None => {},
    }
    sorted
}

/// A token lands in some field of a slide: its name, title, a tag, its
/// topic, description or body.
pub open spec fn lands(tok: Seq<char>, x: SlideText) -> bool {
    let h = token_hits(tok, x);
    h.name || h.title || h.tag is Some || h.topic || h.desc || h.body is Some
}

proof fn lemma_all_hit(tokens: Seq<Seq<char>>, x: SlideText)
    ensures
        score_tokens(tokens, x).all_hit <==> forall|k: int| 0 <= k < tokens.len() ==> lands(#[trigger] tokens[k], x),
    decreases tokens.len(),
{
    if tokens.len() > 0 {
        lemma_all_hit(tokens.drop_last(), x);
        if score_tokens(tokens, x).all_hit {
            assert forall|k: int| 0 <= k < tokens.len() implies lands(#[trigger] tokens[k], x) by {
                if k < tokens.len() - 1 {
                    assert(tokens.drop_last()[k] == tokens[k]);
                }
            }
        } else if forall|k: int| 0 <= k < tokens.len() ==> lands(#[trigger] tokens[k], x) {
            assert forall|k: int| 0 <= k < tokens.drop_last().len() implies lands(#[trigger] tokens.drop_last()[k], x) by {
                assert(tokens.drop_last()[k] == tokens[k]);
            }
            assert(lands(tokens[tokens.len() - 1], x));
        }
    }
}

/// Without a match on its name, a slide is a hit only when every query
/// token lands in one of its fields.
pub proof fn lemma_every_token_lands(s: Slide, tokens: Seq<Seq<char>>)
    ensures
        score_spec(s, tokens, None) is Some ==> forall|k: int| 0 <= k < tokens.len() ==> lands(#[trigger] tokens[k], slide_text(s)),
{
    lemma_all_hit(tokens, slide_text(s));
}


/// Hits in ranking order: each may stay before every later one.
pub open spec fn ranked(s: Seq<HitView>) -> bool {
    forall|i: int, j: int| 0 <= i < j < s.len() ==> hit_before(#[trigger] s[i], #[trigger] s[j])
}

proof fn lemma_hit_before_total(a: HitView, b: HitView)
    ensures
        hit_before(a, b) || hit_before(b, a),
{
    if a.score == b.score && text::seq_lt(b.relative_path, a.relative_path) && text::seq_lt(
        a.relative_path,
        b.relative_path,
    ) {
        text::lemma_seq_lt_transitive(a.relative_path, b.relative_path, a.relative_path);
        text::lemma_seq_lt_irreflexive(a.relative_path);
    }
}

proof fn lemma_hit_before_transitive(a: HitView, b: HitView, c: HitView)
    requires
        hit_before(a, b),
        hit_before(b, c),
    ensures
        hit_before(a, c),
{
    if a.score == b.score && b.score == c.score {
        if text::seq_lt(c.relative_path, a.relative_path) {
            if a.relative_path == b.relative_path {
            } else {
                text::lemma_seq_lt_total(a.relative_path, b.relative_path);
                if b.relative_path == c.relative_path {
                } else {
                    text::lemma_seq_lt_total(b.relative_path, c.relative_path);
                    text::lemma_seq_lt_transitive(a.relative_path, b.relative_path, c.relative_path);
                    text::lemma_seq_lt_transitive(c.relative_path, a.relative_path, c.relative_path);
                    text::lemma_seq_lt_irreflexive(c.relative_path);
                }
            }
        }
    }
}

proof fn lemma_insert_hit(sorted: Seq<HitView>, x: HitView)
    requires
        ranked(sorted),
    ensures
        ranked(insert_hit(sorted, x)),
        insert_hit(sorted, x).len() == sorted.len() + 1,
        forall|y: HitView| #[trigger] insert_hit(sorted, x).contains(y) <==> (sorted.contains(y) || y == x),
    decreases sorted.len(),
{
    let r = insert_hit(sorted, x);
    if sorted.len() == 0 {
        assert forall|y: HitView| #[trigger] r.contains(y) <==> (sorted.contains(y) || y == x) by {
            if y == x {
                assert(r[0] == y);
            }
        }
    } else if hit_before(sorted.last(), x) {
        assert forall|i: int, j: int| 0 <= i < j < r.len() implies hit_before(#[trigger] r[i], #[trigger] r[j]) by {
            if j == sorted.len() {
                assert(r[i] == sorted[i]);
                if i < sorted.len() - 1 {
                    lemma_hit_before_transitive(sorted[i], sorted.last(), x);
                }
            } else {
                assert(r[i] == sorted[i]);
                assert(r[j] == sorted[j]);
            }
        }
        assert forall|y: HitView| #[trigger] r.contains(y) <==> (sorted.contains(y) || y == x) by {
            if r.contains(y) {
                let k = choose|k: int| 0 <= k < r.len() && r[k] == y;
                if k < sorted.len() {
                    assert(sorted[k] == y);
                }
            }
            if sorted.contains(y) {
                let k = choose|k: int| 0 <= k < sorted.len() && sorted[k] == y;
                assert(r[k] == y);
            }
            if y == x {
                assert(r[sorted.len() as int] == y);
            }
        }
    } else {
        let init = sorted.drop_last();
        let l = sorted.last();
        assert(ranked(init)) by {
            assert forall|i: int, j: int| 0 <= i < j < init.len() implies hit_before(#[trigger] init[i], #[trigger] init[j]) by {
                assert(init[i] == sorted[i]);
                assert(init[j] == sorted[j]);
            }
        }
        lemma_insert_hit(init, x);
        let mid = insert_hit(init, x);
        lemma_hit_before_total(l, x);
        assert(r == mid.push(l));
        assert forall|y: HitView| #[trigger] mid.contains(y) implies hit_before(y, l) by {
            if y == x {
            } else {
                assert(init.contains(y));
                let k = choose|k: int| 0 <= k < init.len() && init[k] == y;
                assert(sorted[k] == y);
            }
        }
        assert forall|i: int, j: int| 0 <= i < j < r.len() implies hit_before(#[trigger] r[i], #[trigger] r[j]) by {
            if j == mid.len() {
                assert(r[i] == mid[i]);
                assert(mid.contains(mid[i]));
            } else {
                assert(r[i] == mid[i]);
                assert(r[j] == mid[j]);
            }
        }
        assert forall|y: HitView| #[trigger] r.contains(y) <==> (sorted.contains(y) || y == x) by {
            assert(mid.contains(y) <==> (init.contains(y) || y == x));
            if r.contains(y) {
                let k = choose|k: int| 0 <= k < r.len() && r[k] == y;
                if k < mid.len() {
                    assert(mid[k] == y);
                    if init.contains(y) {
                        let m = choose|m: int| 0 <= m < init.len() && init[m] == y;
                        assert(sorted[m] == y);
                    }
                } else {
                    assert(sorted[sorted.len() - 1] == y);
                }
            }
            if sorted.contains(y) {
                let k = choose|k: int| 0 <= k < sorted.len() && sorted[k] == y;
                if k < sorted.len() - 1 {
                    assert(init[k] == y);
                    let m = choose|m: int| 0 <= m < mid.len() && mid[m] == y;
                    assert(r[m] == y);
                } else {
                    assert(r[mid.len() as int] == y);
                }
            }
            if y == x {
                let m = choose|m: int| 0 <= m < mid.len() && mid[m] == y;
                assert(r[m] == y);
            }
        }
    }
}

proof fn lemma_sort_hits(s: Seq<HitView>)
    ensures
        ranked(sort_hits(s)),
        sort_hits(s).len() == s.len(),
        forall|y: HitView| #[trigger] sort_hits(s).contains(y) <==> s.contains(y),
    decreases s.len(),
{
    if s.len() > 0 {
        let init = s.drop_last();
        lemma_sort_hits(init);
        lemma_insert_hit(sort_hits(init), s.last());
        assert forall|y: HitView| #[trigger] sort_hits(s).contains(y) <==> s.contains(y) by {
            assert(sort_hits(init).contains(y) <==> init.contains(y));
            if init.contains(y) {
                let k = choose|k: int| 0 <= k < init.len() && init[k] == y;
                assert(s[k] == y);
            }
            if s.contains(y) {
                let k = choose|k: int| 0 <= k < s.len() && s[k] == y;
                if k < s.len() - 1 {
                    assert(init[k] == y);
                }
            }
            if y == s.last() {
                assert(s[s.len() - 1] == y);
            }
        }
    }
}

/// Search results come in ranking order (highest score first, equal scores
/// by path), never more than the limit, and only slides that pass the
/// filters and score; a blank query finds nothing.
pub proof fn lemma_find_ranked(
    query: Seq<char>,
    slides: Seq<Slide>,
    threshold: i64,
    tags: Seq<Seq<char>>,
    topic: Option<Seq<char>>,
    limit: Option<usize>,
)
    ensures
        ranked(find_spec(query, slides, threshold, tags, topic, limit)),
        limit matches Some(n) ==> find_spec(query, slides, threshold, tags, topic, limit).len() <= n,
        text::trim(query).len() == 0 ==> find_spec(query, slides, threshold, tags, topic, limit).len() == 0,
{
    let q = text::trim(query);
    if q.len() > 0 {
        let names = slides.map_values(|s: Slide| s.relative_path@);
        let fz = fuzzy::find_all_spec(q, names, threshold, usize::MAX);
        let hits = collect_hits(
            slides,
            query_tokens(query),
            fz,
            tags.map_values(|t: Seq<char>| text::lowercase(t)),
            match topic {
                Some(t) => Some(text::lowercase(t)),
                None => None,
            },
        );
        lemma_sort_hits(hits);
        let sorted = sort_hits(hits);
        match limit {
            Some(n) => {
                if sorted.len() > n {
                    let t = sorted.take(n as int);
                    assert forall|i: int, j: int| 0 <= i < j < t.len() implies hit_before(#[trigger] t[i], #[trigger] t[j]) by {
                        assert(t[i] == sorted[i]);
                        assert(t[j] == sorted[j]);
                    }
                }
            },
            None => {},
        }
    }
}

/// A search with a limit of `n` returns the first `n` hits of the same
/// search without a limit (all of them when there are fewer).
pub proof fn lemma_find_limit_prefix(
    query: Seq<char>,
    slides: Seq<Slide>,
    threshold: i64,
    tags: Seq<Seq<char>>,
    topic: Option<Seq<char>>,
    n: usize,
)
    ensures
        ({
            let all = find_spec(query, slides, threshold, tags, topic, None);
            find_spec(query, slides, threshold, tags, topic, Some(n)) == if all.len() > n {
                all.take(n as int)
            } else {
                all
            }
        }),
{
}

/// No two hits share a path.
pub open spec fn distinct_paths(h: Seq<HitView>) -> bool {
    forall|i: int, j: int| 0 <= i < j < h.len() ==> (#[trigger] h[i]).relative_path != (#[trigger] h[j]).relative_path
}

/// No two slides share a relative path.
pub open spec fn distinct_slide_paths(slides: Seq<Slide>) -> bool {
    forall|i: int, j: int|
        0 <= i < j < slides.len() ==> (#[trigger] slides[i]).relative_path@ != (#[trigger] slides[j]).relative_path@
}

proof fn lemma_score_tokens_nonneg(tokens: Seq<Seq<char>>, x: SlideText)
    ensures
        score_tokens(tokens, x).score >= 0,
    decreases tokens.len(),
{
    if tokens.len() > 0 {
        lemma_score_tokens_nonneg(tokens.drop_last(), x);
    }
}

proof fn lemma_fuzzy_for_in(fz: Seq<fuzzy::MatchView>, path: Seq<char>, from: int)
    ensures
        fuzzy_for(fz, path, from) matches Some(f) ==> exists|k: int| 0 <= k < fz.len() && #[trigger] fz[k].1 == f.0 && fz[k].2 == f.1,
    decreases fz.len() - from,
{
    if 0 <= from < fz.len() && fz[from].0 != path {
        lemma_fuzzy_for_in(fz, path, from + 1);
    }
}

/// Every hit of a slide scores above zero when its fuzzy points are not
/// negative.
proof fn lemma_score_spec_pos(s: Slide, tokens: Seq<Seq<char>>, fz: Seq<fuzzy::MatchView>)
    requires
        fuzzy::fuzzy_nonneg(fz),
    ensures
        score_spec(s, tokens, fuzzy_for(fz, s.relative_path@, 0)) matches Some(h) ==> h.score > 0,
{
    lemma_score_tokens_nonneg(tokens, slide_text(s));
    lemma_fuzzy_for_in(fz, s.relative_path@, 0);
    match fuzzy_for(fz, s.relative_path@, 0) {
        Some(f) => {
            let k = choose|k: int| 0 <= k < fz.len() && #[trigger] fz[k].1 == f.0 && fz[k].2 == f.1;
            assert(fz[k].2 != fuzzy::MatchType::Exact && fz[k].2 != fuzzy::MatchType::Anchor ==> fz[k].1 >= 0);
            assert(fuzzy_points(f.0, f.1) >= 0);
        },
        None => {},
    }
}

proof fn lemma_collect_hits_props(
    slides: Seq<Slide>,
    tokens: Seq<Seq<char>>,
    fz: Seq<fuzzy::MatchView>,
    tags: Seq<Seq<char>>,
    topic: Option<Seq<char>>,
)
    requires
        fuzzy::fuzzy_nonneg(fz),
    ensures
        ({
            let h = collect_hits(slides, tokens, fz, tags, topic);
            &&& forall|i: int| 0 <= i < h.len() ==> (#[trigger] h[i]).score > 0
            &&& forall|i: int|
                0 <= i < h.len() ==> exists|j: int| 0 <= j < slides.len() && #[trigger] slides[j].relative_path@ == (
                #[trigger] h[i]).relative_path
            &&& distinct_slide_paths(slides) ==> distinct_paths(h)
        }),
    decreases slides.len(),
{
    if slides.len() > 0 {
        let init = slides.drop_last();
        lemma_collect_hits_props(init, tokens, fz, tags, topic);
        let prev = collect_hits(init, tokens, fz, tags, topic);
        let h = collect_hits(slides, tokens, fz, tags, topic);
        let sl = slides.last();
        lemma_score_spec_pos(sl, tokens, fz);
        assert forall|i: int| 0 <= i < prev.len() implies exists|j: int|
            0 <= j < slides.len() && #[trigger] slides[j].relative_path@ == (#[trigger] prev[i]).relative_path by {
            let j = choose|j: int| 0 <= j < init.len() && #[trigger] init[j].relative_path@ == prev[i].relative_path;
            assert(slides[j] == init[j]);
        }
        if h != prev {
            let hit = score_spec(sl, tokens, fuzzy_for(fz, sl.relative_path@, 0)).unwrap();
            assert(h == prev.push(hit));
            assert(hit.relative_path == sl.relative_path@);
            assert(slides[slides.len() - 1] == sl);
            assert forall|i: int| 0 <= i < h.len() implies exists|j: int|
                0 <= j < slides.len() && #[trigger] slides[j].relative_path@ == (#[trigger] h[i]).relative_path by {
                if i < prev.len() {
                    assert(h[i] == prev[i]);
                } else {
                    assert(slides[slides.len() - 1].relative_path@ == h[i].relative_path);
                }
            }
            if distinct_slide_paths(slides) {
                assert forall|a: int, b: int| 0 <= a < b < init.len() implies (#[trigger] init[a]).relative_path@
                    != (#[trigger] init[b]).relative_path@ by {
                    assert(init[a] == slides[a] && init[b] == slides[b]);
                }
                assert forall|a: int, b: int| 0 <= a < b < h.len() implies (#[trigger] h[a]).relative_path
                    != (#[trigger] h[b]).relative_path by {
                    if b == prev.len() {
                        let j = choose|j: int| 0 <= j < init.len() && #[trigger] init[j].relative_path@ == prev[a].relative_path;
                        assert(slides[j] == init[j]);
                        assert(h[a] == prev[a]);
                    } else {
                        assert(h[a] == prev[a] && h[b] == prev[b]);
                    }
                }
            }
        }
    }
}

proof fn lemma_insert_hit_distinct(sorted: Seq<HitView>, x: HitView)
    requires
        ranked(sorted),
        distinct_paths(sorted),
        forall|i: int| 0 <= i < sorted.len() ==> (#[trigger] sorted[i]).relative_path != x.relative_path,
    ensures
        distinct_paths(insert_hit(sorted, x)),
    decreases sorted.len(),
{
    let r = insert_hit(sorted, x);
    if sorted.len() == 0 {
    } else if hit_before(sorted.last(), x) {
        assert forall|a: int, b: int| 0 <= a < b < r.len() implies (#[trigger] r[a]).relative_path != (
        #[trigger] r[b]).relative_path by {
            assert(r[a] == sorted[a]);
            if b < sorted.len() {
                assert(r[b] == sorted[b]);
            }
        }
    } else {
        let init = sorted.drop_last();
        assert forall|i: int, j: int| 0 <= i < j < init.len() implies hit_before(#[trigger] init[i], #[trigger] init[j]) by {
            assert(init[i] == sorted[i] && init[j] == sorted[j]);
        }
        assert forall|a: int, b: int| 0 <= a < b < init.len() implies (#[trigger] init[a]).relative_path != (
        #[trigger] init[b]).relative_path by {
            assert(init[a] == sorted[a] && init[b] == sorted[b]);
        }
        assert forall|i: int| 0 <= i < init.len() implies (#[trigger] init[i]).relative_path != x.relative_path by {
            assert(init[i] == sorted[i]);
        }
        lemma_insert_hit_distinct(init, x);
        lemma_insert_hit(init, x);
        let inner = insert_hit(init, x);
        let last = sorted.last();
        assert(r == inner.push(last));
        assert forall|a: int, b: int| 0 <= a < b < r.len() implies (#[trigger] r[a]).relative_path != (
        #[trigger] r[b]).relative_path by {
            if b == inner.len() {
                assert(r[a] == inner[a]);
                assert(inner.contains(inner[a]));
                assert(init.contains(inner[a]) || inner[a] == x);
                if init.contains(inner[a]) {
                    let k = choose|k: int| 0 <= k < init.len() && init[k] == inner[a];
                    assert(sorted[k] == init[k]);
                    assert(sorted[sorted.len() - 1] == last);
                }
            } else {
                assert(r[a] == inner[a] && r[b] == inner[b]);
            }
        }
    }
}

proof fn lemma_sort_hits_props(s: Seq<HitView>)
    ensures
        distinct_paths(s) ==> distinct_paths(sort_hits(s)),
        (forall|i: int| 0 <= i < s.len() ==> (#[trigger] s[i]).score > 0) ==> forall|i: int|
            0 <= i < sort_hits(s).len() ==> (#[trigger] sort_hits(s)[i]).score > 0,
    decreases s.len(),
{
    lemma_sort_hits(s);
    let r = sort_hits(s);
    if forall|i: int| 0 <= i < s.len() ==> (#[trigger] s[i]).score > 0 {
        assert forall|i: int| 0 <= i < r.len() implies (#[trigger] r[i]).score > 0 by {
            assert(r.contains(r[i]));
            let k = choose|k: int| 0 <= k < s.len() && s[k] == r[i];
        }
    }
    if s.len() > 0 && distinct_paths(s) {
        let init = s.drop_last();
        assert forall|a: int, b: int| 0 <= a < b < init.len() implies (#[trigger] init[a]).relative_path != (
        #[trigger] init[b]).relative_path by {
            assert(init[a] == s[a] && init[b] == s[b]);
        }
        lemma_sort_hits_props(init);
        lemma_sort_hits(init);
        let si = sort_hits(init);
        assert forall|i: int| 0 <= i < si.len() implies (#[trigger] si[i]).relative_path != s.last().relative_path by {
            assert(si.contains(si[i]));
            let k = choose|k: int| 0 <= k < init.len() && init[k] == si[i];
            assert(init[k] == s[k]);
            assert(s[s.len() - 1] == s.last());
        }
        lemma_insert_hit_distinct(si, s.last());
    }
}

/// Search results rank strictly when slide paths are distinct and the
/// match threshold is not negative: a hit comes before the next one by a
/// higher score, or by an equal score and an earlier path; and every hit
/// scores above zero.
pub proof fn lemma_find_strictly_ranked(
    query: Seq<char>,
    slides: Seq<Slide>,
    threshold: i64,
    tags: Seq<Seq<char>>,
    topic: Option<Seq<char>>,
    limit: Option<usize>,
)
    requires
        distinct_slide_paths(slides),
        threshold >= 0,
    ensures
        ({
            let h = find_spec(query, slides, threshold, tags, topic, limit);
            &&& forall|i: int, j: int|
                0 <= i < j < h.len() ==> (#[trigger] h[i]).score > (#[trigger] h[j]).score || (h[i].score
                    == h[j].score && text::seq_lt(h[i].relative_path, h[j].relative_path))
            &&& forall|i: int| 0 <= i < h.len() ==> (#[trigger] h[i]).score > 0
        }),
{
    lemma_find_ranked(query, slides, threshold, tags, topic, limit);
    let q = text::trim(query);
    if q.len() > 0 {
        let names = slides.map_values(|s: Slide| s.relative_path@);
        let fz = fuzzy::find_all_spec(q, names, threshold, usize::MAX);
        fuzzy::lemma_find_all_nonneg(q, names, threshold, usize::MAX);
        let lt = tags.map_values(|t: Seq<char>| text::lowercase(t));
        let tp = match topic {
            Some(t) => Some(text::lowercase(t)),
            None => None,
        };
        let hits = collect_hits(slides, query_tokens(query), fz, lt, tp);
        lemma_collect_hits_props(slides, query_tokens(query), fz, lt, tp);
        lemma_sort_hits_props(hits);
        let sorted = sort_hits(hits);
        let h = find_spec(query, slides, threshold, tags, topic, limit);
        assert forall|i: int| 0 <= i < h.len() implies h[i] == sorted[i] by {}
        assert forall|i: int, j: int| 0 <= i < j < h.len() implies (#[trigger] h[i]).score > (
        #[trigger] h[j]).score || (h[i].score == h[j].score && text::seq_lt(h[i].relative_path, h[j].relative_path)) by {
            assert(h[i] == sorted[i] && h[j] == sorted[j]);
            assert(hit_before(h[i], h[j]));
            if h[i].score == h[j].score {
                text::lemma_seq_lt_total(h[i].relative_path, h[j].relative_path);
            }
        }
        assert forall|i: int| 0 <= i < h.len() implies (#[trigger] h[i]).score > 0 by {
            assert(h[i] == sorted[i]);
        }
    }
}

} // verus!
