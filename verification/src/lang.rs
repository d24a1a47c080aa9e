//! In-file language blocks. All languages of a slide live in one file; only
//! the prose varies. A `::lang:xx::` marker line starts a block for language
//! `xx`; content before the first marker is shared by every language; a
//! slide with no markers is language-neutral and renders unchanged. Markers
//! inside ``` or ~~~ code fences are ignored.
use vstd::prelude::*;
use crate::text;

verus! {

/// How a slide's content was selected for a requested language.
#[derive(Debug, Clone, PartialEq, Eq)]
pub enum LanguageOutcome {
    /// No language markers: the slide is language-neutral.
    Neutral,
    /// The requested (or deck-default) language was present.
    Found(String),
    /// The slide lacks the requested language; another was substituted.
    Fallback { requested: String, used: String, available: Vec<String> },
}

/// Result of selecting one language from a slide's content.
#[derive(Debug)]
pub struct LanguageSelection {
    pub content: String,
    pub outcome: LanguageOutcome,
}

pub open spec fn lang_prefix() -> Seq<char> {
    seq![':', ':', 'l', 'a', 'n', 'g', ':']
}

pub open spec fn colons() -> Seq<char> {
    seq![':', ':']
}

/// A character allowed in a language code.
pub open spec fn is_code_char(c: char) -> bool {
    ('a' <= c && c <= 'z') || ('A' <= c && c <= 'Z') || ('0' <= c && c <= '9') || c == '-' || c
        == '_'
}

/// The code of a marker line `::lang:<code>::` (white space around the
/// line and around the code tolerated), before lowercasing.
pub open spec fn marker_code(line: Seq<char>) -> Option<Seq<char>> {
    let t = text::trim(line);
    let p = lang_prefix();
    if text::starts_with(t, p) && text::ends_with(t.skip(p.len() as int), colons()) {
        let inner = t.subrange(p.len() as int, t.len() - 2);
        let code = text::trim(inner);
        if code.len() > 0 && forall|i: int| 0 <= i < code.len() ==> is_code_char(#[trigger] code[i]) {
            Some(code)
        } else {
            None
        }
    } else {
        None
    }
}

/// A line opening or closing a code fence.
pub open spec fn is_fence(line: Seq<char>) -> bool {
    text::starts_with(text::trim(line), seq!['`', '`', '`']) || text::starts_with(text::trim(line), seq!['~', '~', '~'])
}

/// First index of `code` among `codes`.
pub open spec fn position_of(codes: Seq<Seq<char>>, code: Seq<char>) -> Option<int>
    decreases codes.len(),
{
    if codes.len() == 0 {
        None
    } else {
        match position_of(codes.drop_last(), code) {
            Some(i) => Some(i),
            None => if codes.last() == code {
                Some(codes.len() - 1)
            } else {
                None
            },
        }
    }
}

/// The state of splitting a slide into its shared prefix and its language
/// sections, line by line.
pub struct LangSplit {
    pub shared: Seq<char>,
    pub codes: Seq<Seq<char>>,
    pub bodies: Seq<Seq<char>>,
    pub current: Option<int>,
    pub in_fence: bool,
}

pub open spec fn split_start() -> LangSplit {
    LangSplit { shared: seq![], codes: seq![], bodies: seq![], current: None, in_fence: false }
}

/// One line: a fence line toggles the fence; a marker outside a fence
/// switches to (or opens) its language's section; any other line goes,
/// with its `\n`, to the current section or to the shared prefix.
pub open spec fn split_step(st: LangSplit, line: Seq<char>) -> LangSplit {
    let fence = if is_fence(line) { !st.in_fence } else { st.in_fence };
    let marker = if fence { None } else { marker_code(line) };
    match marker {
        Some(raw) => {
            let code = text::lowercase(raw);
            match position_of(st.codes, code) {
                Some(i) => LangSplit { current: Some(i), in_fence: fence, ..st },
                None => LangSplit {
                    shared: st.shared,
                    codes: st.codes.push(code),
                    bodies: st.bodies.push(seq![]),
                    current: Some(st.codes.len() as int),
                    in_fence: fence,
                },
            }
        },
        None => match st.current {
            Some(i) => LangSplit {
                bodies: st.bodies.update(i, st.bodies[i] + line.push('\n')),
                in_fence: fence,
                ..st
            },
            None => LangSplit { shared: st.shared + line.push('\n'), in_fence: fence, ..st },
        },
    }
}

pub open spec fn split_lines_fold(ls: Seq<Seq<char>>) -> LangSplit
    decreases ls.len(),
{
    if ls.len() == 0 {
        split_start()
    } else {
        split_step(split_lines_fold(ls.drop_last()), ls.last())
    }
}

/// Shared prefix and per-language sections of `content`; a language that
/// appears more than once has its sections concatenated in source order.
pub open spec fn split_spec(content: Seq<char>) -> LangSplit {
    split_lines_fold(text::lines(content))
}

pub open spec fn split_wf(st: LangSplit) -> bool {
    &&& st.codes.len() == st.bodies.len()
    &&& st.current matches Some(i) ==> 0 <= i < st.codes.len()
}

pub proof fn lemma_position_of(codes: Seq<Seq<char>>, code: Seq<char>)
    ensures
        match position_of(codes, code) {
            Some(i) => 0 <= i < codes.len() && codes[i] == code && forall|j: int|
                0 <= j < i ==> codes[j] != code,
            None => forall|j: int| 0 <= j < codes.len() ==> codes[j] != code,
        },
    decreases codes.len(),
{
    if codes.len() > 0 {
        let init = codes.drop_last();
        lemma_position_of(init, code);
        assert forall|j: int| 0 <= j < init.len() implies init[j] == codes[j] by {}
    }
}

pub proof fn lemma_split_wf(ls: Seq<Seq<char>>)
    ensures
        split_wf(split_lines_fold(ls)),
    decreases ls.len(),
{
    if ls.len() > 0 {
        lemma_split_wf(ls.drop_last());
        lemma_position_of(split_lines_fold(ls.drop_last()).codes, text::lowercase(
            marker_code(ls.last())->0,
        ));
    }
}

/// Each language appears once among the codes of a split: a language whose
/// marker occurs several times keeps one section, its parts concatenated.
pub proof fn lemma_codes_distinct(content: Seq<char>)
    ensures
        forall|i: int, j: int|
            0 <= i < j < split_spec(content).codes.len() ==> split_spec(content).codes[i]
                != split_spec(content).codes[j],
{
    lemma_fold_codes_distinct(text::lines(content));
}

proof fn lemma_fold_codes_distinct(ls: Seq<Seq<char>>)
    ensures
        forall|i: int, j: int|
            0 <= i < j < split_lines_fold(ls).codes.len() ==> split_lines_fold(ls).codes[i]
                != split_lines_fold(ls).codes[j],
    decreases ls.len(),
{
    if ls.len() > 0 {
        let prev = split_lines_fold(ls.drop_last());
        lemma_fold_codes_distinct(ls.drop_last());
        let m = marker_code(ls.last());
        if m is Some {
            lemma_position_of(prev.codes, text::lowercase(m->0));
        }
    }
}

/// The content chosen from `shared` and one language `body`: the shared
/// prefix, a separating newline when needed, the body, trailing white space
/// cut to a single `\n`.
pub open spec fn assemble(shared: Seq<char>, body: Seq<char>) -> Seq<char> {
    let sep: Seq<char> = if shared.len() > 0 && !text::ends_with(shared, seq!['\n', '\n']) && body.len()
        > 0 {
        seq!['\n']
    } else {
        seq![]
    };
    text::trim_end(shared + sep + body).push('\n')
}

/// The language actually used: the target if present, else the deck
/// default if present, else the first language.
pub open spec fn used_index(codes: Seq<Seq<char>>, target: Seq<char>, default: Seq<char>) -> int {
    match position_of(codes, target) {
        Some(i) => i,
        None => match position_of(codes, default) {
            Some(j) => j,
            None => 0,
        },
    }
}


fn code_char(c: char) -> (b: bool)
    ensures
        b == is_code_char(c),
{
    ('a' <= c && c <= 'z') || ('A' <= c && c <= 'Z') || ('0' <= c && c <= '9') || c == '-' || c
        == '_'
}

/// A language marker line: `::lang:de::` (white-space tolerant).
#[verifier::loop_isolation(false)]
fn parse_marker(line: &[char]) -> (r: Option<Vec<char>>)
    ensures
        match r {
            Some(c) => marker_code(line@) == Some(c@),
            None => marker_code(line@) is None,
        },
{
    let t = text::trim_chars(line);
    let p: Vec<char> = vec![':', ':', 'l', 'a', 'n', 'g', ':'];
    assert(p@ =~= lang_prefix());
    if !text::starts_with_chars(t.as_slice(), p.as_slice()) {
        return None;
    }
    let rest = text::slice_vec(t.as_slice(), 7, t.len());
    assert(rest@ =~= t@.skip(7));
    let c: Vec<char> = vec![':', ':'];
    assert(c@ =~= colons());
    if !text::ends_with_chars(rest.as_slice(), c.as_slice()) {
        return None;
    }
    let inner = text::slice_vec(t.as_slice(), 7, t.len() - 2);
    let code = text::trim_chars(inner.as_slice());
    if code.len() == 0 {
        return None;
    }
    let mut i: usize = 0;
    while i < code.len()
        invariant
            i <= code.len(),
            forall|j: int| 0 <= j < i ==> is_code_char(#[trigger] code@[j]),
        decreases code.len() - i,
    {
        if !code_char(code[i]) {
            assert(!is_code_char(code@[i as int]));
            return None;
        }
        i += 1;
    }
    Some(code)
}

fn fence_line(line: &[char]) -> (b: bool)
    ensures
        b == is_fence(line@),
{
    let t = text::trim_chars(line);
    let a: Vec<char> = vec!['`', '`', '`'];
    let b: Vec<char> = vec!['~', '~', '~'];
    assert(a@ =~= seq!['`', '`', '`']);
    assert(b@ =~= seq!['~', '~', '~']);
    text::starts_with_chars(t.as_slice(), a.as_slice()) || text::starts_with_chars(
        t.as_slice(),
        b.as_slice(),
    )
}

fn find_code(codes: &Vec<Vec<char>>, code: &[char]) -> (r: Option<usize>)
    ensures
        match r {
            Some(i) => position_of(text::views(codes@), code@) == Some(i as int),
            None => position_of(text::views(codes@), code@) is None,
        },
{
    let ghost vs = text::views(codes@);
    proof {
        lemma_position_of(vs, code@);
    }
    let mut i: usize = 0;
    while i < codes.len()
        invariant
            i <= codes.len(),
            vs == text::views(codes@),
            forall|j: int| 0 <= j < i ==> vs[j] != code@,
        decreases codes.len() - i,
    {
        if text::eq_chars(codes[i].as_slice(), code) {
            proof {
                lemma_position_first(vs, code@, i as int);
            }
            return Some(i);
        }
        i += 1;
    }
    None
}

proof fn lemma_position_first(codes: Seq<Seq<char>>, code: Seq<char>, i: int)
    requires
        0 <= i < codes.len(),
        codes[i] == code,
        forall|j: int| 0 <= j < i ==> codes[j] != code,
    ensures
        position_of(codes, code) == Some(i),
{
    lemma_position_of(codes, code);
}

pub open spec fn opt_int(o: Option<usize>) -> Option<int> {
    match o {
        Some(i) => Some(i as int),
        None => None,
    }
}

/// Split content into the shared prefix, the language codes in order of
/// first appearance, and each language's concatenated sections.
fn split_languages(content: &[char]) -> (r: (Vec<char>, Vec<Vec<char>>, Vec<Vec<char>>))
    ensures
        r.0@ == split_spec(content@).shared,
        text::views(r.1@) == split_spec(content@).codes,
        text::views(r.2@) == split_spec(content@).bodies,
{
    let ls = text::split_lines(content);
    let ghost lv = text::views(ls@);
    let mut shared: Vec<char> = Vec::new();
    let mut codes: Vec<Vec<char>> = Vec::new();
    let mut bodies: Vec<Vec<char>> = Vec::new();
    let mut current: Option<usize> = None;
    let mut in_fence = false;
    let mut k: usize = 0;
    assert(lv.take(0) =~= Seq::<Seq<char>>::empty());
    assert(text::views(codes@) =~= Seq::<Seq<char>>::empty());
    assert(text::views(bodies@) =~= Seq::<Seq<char>>::empty());
    assert(shared@ =~= Seq::<char>::empty());
    while k < ls.len()
        invariant
            k <= ls.len(),
            lv == text::views(ls@),
            lv == text::lines(content@),
            split_lines_fold(lv.take(k as int)) == (LangSplit {
                shared: shared@,
                codes: text::views(codes@),
                bodies: text::views(bodies@),
                current: opt_int(current),
                in_fence: in_fence,
            }),
            codes.len() == bodies.len(),
            current matches Some(i) ==> i < codes.len(),
        decreases ls.len() - k,
    {
        let line = ls[k].as_slice();
        assert(line@ == lv[k as int]);
        assert(lv.take(k + 1).drop_last() =~= lv.take(k as int));
        let ghost st = split_lines_fold(lv.take(k as int));
        let fence = if fence_line(line) {
            !in_fence
        } else {
            in_fence
        };
        let marker = if fence {
            None
        } else {
            parse_marker(line)
        };
        match marker {
            Some(raw) => {
                let code = text::lowercase_chars(raw.as_slice());
                match find_code(&codes, code.as_slice()) {
                    Some(i) => {
                        proof {
                            lemma_position_of(text::views(codes@), code@);
                        }
                        current = Some(i);
                    },
                    None => {
                        let ghost cv = codes@;
                        let ghost bv = bodies@;
                        let n = codes.len();
                        codes.push(code);
                        bodies.push(Vec::new());
                        current = Some(n);
                        assert(text::views(codes@) =~= text::views(cv).push(code@));
                        assert(text::views(bodies@) =~= text::views(bv).push(Seq::<char>::empty()));
                    },
                }
            },
            None => {
                match current {
                    Some(i) => {
                        let ghost bv = bodies@;
                        let mut b = bodies.remove(i);
                        text::push_all(&mut b, line);
                        b.push('\n');
                        bodies.insert(i, b);
                        assert(text::views(bodies@) =~= text::views(bv).update(
                            i as int,
                            text::views(bv)[i as int] + line@.push('\n'),
                        ));
                    },
                    None => {
                        text::push_all(&mut shared, line);
                        shared.push('\n');
                    },
                }
            },
        }
        in_fence = fence;
        k += 1;
        assert(split_lines_fold(lv.take(k as int)).shared =~= shared@);
    }
    assert(lv.take(ls.len() as int) =~= lv);
    (shared, codes, bodies)
}


/// The language asked for: `requested` if given, else the deck default,
/// lowercased.
pub open spec fn target_code(requested: Option<Seq<char>>, deck_default: Seq<char>) -> Seq<char> {
    text::lowercase(
        match requested {
            Some(q) => q,
            None => deck_default,
        },
    )
}

pub open spec fn opt_view(o: Option<&str>) -> Option<Seq<char>> {
    match o {
        Some(s) => Some(s@),
        None => None,
    }
}

/// Languages present in a slide's content, in source order.
pub fn available_languages(content: &str) -> (r: Vec<String>)
    ensures
        text::string_views(r@) == split_spec(content@).codes,
{
    let cv = text::chars_of(content);
    let (_shared, codes, _bodies) = split_languages(cv.as_slice());
    text::strings_of(&codes)
}

/// Select one language from a slide's content.
///
/// - No markers: content unchanged (`Neutral`).
/// - The target is `requested` if given, else `deck_default`.
/// - Target present: shared prefix + that language's sections (`Found`).
/// - Target absent: the deck default's sections, or the first language's,
///   reported as `Fallback` so the build can warn loudly.
pub fn select_language(content: &str, requested: Option<&str>, deck_default: &str) -> (r:
    LanguageSelection)
    ensures
        split_spec(content@).codes.len() == 0 ==> r.content@ == content@ && r.outcome
            is Neutral,
        split_spec(content@).codes.len() > 0 ==> ({
            let st = split_spec(content@);
            let target = target_code(opt_view(requested), deck_default@);
            let u = used_index(st.codes, target, text::lowercase(deck_default@));
            &&& r.content@ == assemble(st.shared, st.bodies[u])
            &&& match position_of(st.codes, target) {
                Some(i) => r.outcome matches LanguageOutcome::Found(f) && f@ == st.codes[i] && u
                    == i,
                None => r.outcome matches LanguageOutcome::Fallback { requested: q, used, available }
                    && q@ == target && used@ == st.codes[u] && text::string_views(available@)
                    == st.codes,
            }
        }),
{
    let cv = text::chars_of(content);
    let (shared, codes, bodies) = split_languages(cv.as_slice());
    proof {
        lemma_split_wf(text::lines(content@));
    }
    if codes.len() == 0 {
        return LanguageSelection { content: text::string_of(cv.as_slice()), outcome: LanguageOutcome::Neutral };
    }
    let tq: &str = match requested {
        Some(q) => q,
        None => deck_default,
    };
    let target = text::chars_of(text::to_lowercase(tq).as_str());
    let default_code = text::chars_of(text::to_lowercase(deck_default).as_str());
    proof {
        lemma_position_of(text::views(codes@), target@);
        lemma_position_of(text::views(codes@), default_code@);
    }
    let (u, fell_back) = match find_code(&codes, target.as_slice()) {
        Some(i) => (i, false),
        None => match find_code(&codes, default_code.as_slice()) {
            Some(j) => (j, true),
            None => (0, true),
        },
    };
    let body = bodies[u].as_slice();
    let mut c = shared;
    let nn: Vec<char> = vec!['\n', '\n'];
    assert(nn@ =~= seq!['\n', '\n']);
    let ghost sh = c@;
    if c.len() > 0 && !text::ends_with_chars(c.as_slice(), nn.as_slice()) && body.len() > 0 {
        c.push('\n');
    }
    text::push_all(&mut c, body);
    proof {
        let sep: Seq<char> = if sh.len() > 0 && !text::ends_with(sh, seq!['\n', '\n']) && body@.len()
            > 0 {
            seq!['\n']
        } else {
            seq![]
        };
        assert(c@ =~= sh + sep + body@);
    }
    let mut t = text::trim_end_chars(c.as_slice());
    t.push('\n');
    let used = text::string_of(codes[u].as_slice());
    let outcome = if fell_back {
        LanguageOutcome::Fallback {
            requested: text::string_of(target.as_slice()),
            used,
            available: text::strings_of(&codes),
        }
    } else {
        LanguageOutcome::Found(used)
    };
    LanguageSelection { content: text::string_of(t.as_slice()), outcome }
}

} // verus!
