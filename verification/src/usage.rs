//! Where-used: which playlists reference a slide and which slides use a
//! layout. Playlist entries resolve to slides the way a non-interactive
//! build does (exact name or path first, then the fuzzy matcher); an entry
//! that stays ambiguous counts for nobody and is reported instead.
use vstd::prelude::*;
use crate::fuzzy::{self, ResolveResult, SldrMatcher};
use crate::presentation::Playlist;
use crate::slide::{self, Slide, SlideCollection};
use crate::text;

verus! {

broadcast use vstd::string::group_string_axioms;

/// One playlist that references a slide.
#[derive(Debug, Clone, PartialEq, Eq)]
pub struct PlaylistRef {
    pub name: String,
    pub title: Option<String>,
    pub flavor: Option<String>,
    /// 1-based position of the slide in the playlist.
    pub position: usize,
    /// Number of slides in that playlist.
    pub of: usize,
}

/// A playlist entry that did not resolve to exactly one slide.
#[derive(Debug, Clone, PartialEq, Eq)]
pub struct Unresolved {
    pub playlist: String,
    pub entry: String,
    pub reason: String,
}

/// The last git commit that touched a path.
#[derive(Debug, Clone, PartialEq, Eq)]
pub struct GitTouch {
    /// ISO-8601 committer date.
    pub date: String,
    pub commit: String,
}

/// Slide to playlists, for a whole library. `slides` pairs a slide's
/// library-relative path with the playlists referencing it; each path
/// occurs once.
#[derive(Debug, Clone)]
pub struct UsageIndex {
    pub slides: Vec<(String, Vec<PlaylistRef>)>,
    pub playlists: usize,
    pub unresolved: Vec<Unresolved>,
}

/// Everything known about one slide's use.
#[derive(Debug, Clone)]
pub struct SlideUsage {
    pub slide: String,
    pub playlists: Vec<PlaylistRef>,
    pub last_touched: Option<GitTouch>,
}

/// Everything known about one layout's use.
#[derive(Debug, Clone)]
pub struct LayoutUsage {
    pub layout: String,
    pub slides: Vec<String>,
}

/// A playlist reference as plain values.
pub type RefView = (Seq<char>, Option<Seq<char>>, Option<Seq<char>>, usize, usize);

/// An unresolved entry as plain values.
pub type UnresolvedView = (Seq<char>, Seq<char>, Seq<char>);

impl PlaylistRef {
    pub open spec fn view(&self) -> RefView {
        (self.name@, text::opt_seq(self.title), text::opt_seq(self.flavor), self.position, self.of)
    }
}

impl Unresolved {
    pub open spec fn view(&self) -> UnresolvedView {
        (self.playlist@, self.entry@, self.reason@)
    }
}

pub open spec fn ref_views(v: Seq<PlaylistRef>) -> Seq<RefView> {
    v.map_values(|r: PlaylistRef| r.view())
}

pub open spec fn unresolved_views(v: Seq<Unresolved>) -> Seq<UnresolvedView> {
    v.map_values(|u: Unresolved| u.view())
}

/// The paths of `v`, in order.
pub open spec fn index_keys(v: Seq<(String, Vec<PlaylistRef>)>) -> Seq<Seq<char>> {
    v.map_values(|e: (String, Vec<PlaylistRef>)| e.0@)
}

/// Each path occurs once.
pub open spec fn keys_distinct(v: Seq<(String, Vec<PlaylistRef>)>) -> bool {
    forall|i: int, j: int|
        0 <= i < j < v.len() ==> (#[trigger] v[i]).0@ != (#[trigger] v[j]).0@
}

/// The index as a map from path to references.
pub open spec fn index_map(v: Seq<(String, Vec<PlaylistRef>)>) -> Map<Seq<char>, Seq<RefView>>
    decreases v.len(),
{
    if v.len() == 0 {
        Map::empty()
    } else {
        index_map(v.drop_last()).insert(v.last().0@, ref_views(v.last().1@))
    }
}

impl UsageIndex {
    pub open spec fn map(&self) -> Map<Seq<char>, Seq<RefView>> {
        index_map(self.slides@)
    }

    pub open spec fn wf(&self) -> bool {
        keys_distinct(self.slides@)
    }
}

proof fn lemma_index_dom(v: Seq<(String, Vec<PlaylistRef>)>, k: Seq<char>)
    requires
        keys_distinct(v),
    ensures
        index_map(v).dom().contains(k) <==> exists|i: int| 0 <= i < v.len() && (#[trigger] v[i]).0@ == k,
        forall|i: int| 0 <= i < v.len() && (#[trigger] v[i]).0@ == k ==> index_map(v)[k] == ref_views(
            v[i].1@,
        ),
    decreases v.len(),
{
    if v.len() > 0 {
        let d = v.drop_last();
        assert forall|i: int, j: int| 0 <= i < j < d.len() implies (#[trigger] d[i]).0@ != (
        #[trigger] d[j]).0@ by {
            assert(d[i] == v[i] && d[j] == v[j]);
        }
        lemma_index_dom(d, k);
        if index_map(v).dom().contains(k) && v.last().0@ != k {
            let i = choose|i: int| 0 <= i < d.len() && (#[trigger] d[i]).0@ == k;
            assert(v[i] == d[i]);
        }
        assert forall|i: int| 0 <= i < v.len() && (#[trigger] v[i]).0@ == k implies index_map(v)[k]
            == ref_views(v[i].1@) by {
            if i < v.len() - 1 {
                assert(d[i] == v[i]);
                assert(v.last().0@ != k);
            }
        }
        if exists|i: int| 0 <= i < v.len() && (#[trigger] v[i]).0@ == k {
            let i = choose|i: int| 0 <= i < v.len() && (#[trigger] v[i]).0@ == k;
            if i < v.len() - 1 {
                assert(d[i] == v[i]);
            }
        }
    }
}

proof fn lemma_index_update(v: Seq<(String, Vec<PlaylistRef>)>, j: int, e: (String, Vec<PlaylistRef>))
    requires
        keys_distinct(v),
        0 <= j < v.len(),
        e.0@ == v[j].0@,
    ensures
        keys_distinct(v.update(j, e)),
        index_map(v.update(j, e)) == index_map(v).insert(e.0@, ref_views(e.1@)),
    decreases v.len(),
{
    let u = v.update(j, e);
    assert forall|a: int, b: int| 0 <= a < b < u.len() implies (#[trigger] u[a]).0@ != (
    #[trigger] u[b]).0@ by {
        assert(u[a].0@ == v[a].0@ && u[b].0@ == v[b].0@);
        assert(v[a].0@ != v[b].0@);
    }
    let d = v.drop_last();
    assert forall|a: int, b: int| 0 <= a < b < d.len() implies (#[trigger] d[a]).0@ != (
    #[trigger] d[b]).0@ by {
        assert(d[a] == v[a] && d[b] == v[b]);
    }
    if j == v.len() - 1 {
        assert(u.drop_last() =~= d);
        lemma_index_dom(d, e.0@);
        assert forall|i: int| 0 <= i < d.len() implies (#[trigger] d[i]).0@ != e.0@ by {
            assert(d[i] == v[i]);
        }
        assert(!index_map(d).dom().contains(e.0@));
        assert(index_map(u) =~= index_map(v).insert(e.0@, ref_views(e.1@)));
    } else {
        lemma_index_update(d, j, e);
        assert(u.drop_last() =~= d.update(j, e));
        assert(v.last().0@ != e.0@);
        assert(index_map(u) =~= index_map(v).insert(e.0@, ref_views(e.1@)));
    }
}

/// Index of the entry for `key`.
fn find_key(v: &Vec<(String, Vec<PlaylistRef>)>, key: &String) -> (r: Option<usize>)
    ensures
        match r {
            Some(j) => j < v@.len() && v@[j as int].0@ == key@,
            None => forall|i: int| 0 <= i < v@.len() ==> (#[trigger] v@[i]).0@ != key@,
        },
{
    let mut i: usize = 0;
    while i < v.len()
        invariant
            i <= v.len(),
            forall|k: int| 0 <= k < i ==> (#[trigger] v@[k]).0@ != key@,
        decreases v.len() - i,
    {
        if v[i].0 == *key {
            return Some(i);
        }
        i += 1;
    }
    None
}

/// Add `r` to the references of `key`.
fn add_ref(v: &mut Vec<(String, Vec<PlaylistRef>)>, key: String, r: PlaylistRef)
    requires
        keys_distinct(old(v)@),
    ensures
        keys_distinct(final(v)@),
        index_map(final(v)@) == index_map(old(v)@).insert(
            key@,
            (if index_map(old(v)@).dom().contains(key@) {
                index_map(old(v)@)[key@]
            } else {
                Seq::empty()
            }).push(r.view()),
        ),
{
    let ghost rv = r.view();
    proof {
        lemma_index_dom(v@, key@);
    }
    match find_key(v, &key) {
        Some(j) => {
            let ghost before = v@;
            let (k, mut refs) = v.remove(j);
            let ghost old_refs = ref_views(refs@);
            assert(old_refs == index_map(before)[key@]);
            refs.push(r);
            assert(ref_views(refs@) =~= old_refs.push(rv));
            let ghost e = (k, refs);
            v.insert(j, (k, refs));
            assert(v@ =~= before.update(j as int, e));
            proof {
                lemma_index_update(before, j as int, e);
            }
        },
        None => {
            let ghost before = v@;
            let mut refs: Vec<PlaylistRef> = Vec::new();
            refs.push(r);
            assert(ref_views(refs@) =~= Seq::<RefView>::empty().push(rv));
            let ghost e = (key, refs);
            v.push((key, refs));
            assert(v@.drop_last() =~= before);
            assert forall|a: int, b: int| 0 <= a < b < v@.len() implies (#[trigger] v@[a]).0@ != (
            #[trigger] v@[b]).0@ by {
                if b == v@.len() - 1 {
                    assert(v@[a] == before[a]);
                } else {
                    assert(v@[a] == before[a] && v@[b] == before[b]);
                }
            }
        },
    }
}

pub open spec fn ambiguous_reason(ms: Seq<fuzzy::MatchView>) -> Seq<char> {
    "ambiguous: "@ + text::join(ms.map_values(|m: fuzzy::MatchView| m.0), ", "@)
}

/// How a playlist entry resolves: the slide it names exactly, else the one
/// slide the matcher resolves it to; otherwise the reason it does not.
pub open spec fn resolve_entry_spec(
    entry: Seq<char>,
    slides: Seq<Slide>,
    threshold: i64,
    max: usize,
) -> Result<Seq<char>, Seq<char>> {
    match slide::first_named(slides, entry, 0) {
        Some(i) => Ok(slides[i].relative_path@),
        None => match fuzzy::resolve_spec(
            fuzzy::find_all_spec(entry, slides.map_values(|s: Slide| s.relative_path@), threshold, max),
        ) {
            fuzzy::ResolveView::Found(m) => match slide::first_named(slides, m.0, 0) {
                Some(j) => Ok(slides[j].relative_path@),
                None => Err("matched a name that is not in the library"@),
            },
            fuzzy::ResolveView::NotFound => Err("no slide matches"@),
            fuzzy::ResolveView::Multiple(ms) => Err(ambiguous_reason(ms)),
        },
    }
}

proof fn lemma_first_named(slides: Seq<Slide>, name: Seq<char>, from: int)
    ensures
        slide::first_named(slides, name, from) matches Some(i) ==> from <= i < slides.len(),
    decreases slides.len() - from,
{
    if 0 <= from < slides.len() && !slide::names_slide(slides[from], name) {
        lemma_first_named(slides, name, from + 1);
    }
}

fn ambiguous(ms: &Vec<fuzzy::MatchResult>) -> (s: String)
    ensures
        s@ == ambiguous_reason(fuzzy::views(ms@)),
{
    let mut vals: Vec<Vec<char>> = Vec::new();
    let mut i: usize = 0;
    while i < ms.len()
        invariant
            i <= ms.len(),
            text::views(vals@) == fuzzy::views(ms@).map_values(|m: fuzzy::MatchView| m.0).take(
                i as int,
            ),
        decreases ms.len() - i,
    {
        let ghost before = text::views(vals@);
        let c = text::chars_of(ms[i].value.as_str());
        let ghost cv = c@;
        vals.push(c);
        assert(text::views(vals@) =~= before.push(cv));
        i += 1;
        assert(text::views(vals@) =~= fuzzy::views(ms@).map_values(|m: fuzzy::MatchView| m.0).take(
            i as int,
        ));
    }
    assert(fuzzy::views(ms@).map_values(|m: fuzzy::MatchView| m.0).take(ms.len() as int)
        =~= fuzzy::views(ms@).map_values(|m: fuzzy::MatchView| m.0));
    let sep: Vec<char> = vec![',', ' '];
    assert(sep@ =~= ", "@) by {
        reveal_strlit(", ");
    }
    let joined = text::join_chars(&vals, sep.as_slice());
    let mut out = "ambiguous: ".to_string();
    let js = text::string_of(joined.as_slice());
    text::append(&mut out, js.as_str());
    out
}

/// Resolve one playlist entry the way a non-interactive build does.
fn resolve_entry(entry: &String, slides: &SlideCollection, names: &Vec<String>, matcher: &SldrMatcher) -> (r:
    Result<String, String>)
    requires
        text::string_views(names@) == slides.slides@.map_values(|s: Slide| s.relative_path@),
    ensures
        match r {
            Ok(p) => resolve_entry_spec(entry@, slides.slides@, matcher.threshold(), matcher.max_suggestions())
                == Ok::<Seq<char>, Seq<char>>(p@),
            Err(e) => resolve_entry_spec(entry@, slides.slides@, matcher.threshold(), matcher.max_suggestions())
                == Err::<Seq<char>, Seq<char>>(e@),
        },
{
    proof {
        lemma_first_named(slides.slides@, entry@, 0);
    }
    match slides.find(entry.as_str()) {
        Some(s) => {
            return Ok(s.relative_path.clone());
        },
        None => {},
    }
    match matcher.resolve(entry.as_str(), names.as_slice()) {
        ResolveResult::Found(m) => {
            proof {
                lemma_first_named(slides.slides@, m.value@, 0);
            }
            match slides.find(m.value.as_str()) {
                Some(s) => Ok(s.relative_path.clone()),
                None => Err("matched a name that is not in the library".to_string()),
            }
        },
        ResolveResult::NotFound => Err("no slide matches".to_string()),
        ResolveResult::Multiple(ms) => Err(ambiguous(&ms)),
    }
}

/// The index state while playlists are walked.
pub struct UsageState {
    pub index: Map<Seq<char>, Seq<RefView>>,
    pub unresolved: Seq<UnresolvedView>,
}

/// The state after the first `k` entries of one playlist.
pub open spec fn entries_fold(
    st: UsageState,
    stem: Seq<char>,
    p: Playlist,
    k: nat,
    slides: Seq<Slide>,
    threshold: i64,
    max: usize,
) -> UsageState
    decreases k,
{
    if k == 0 {
        st
    } else {
        let prev = entries_fold(st, stem, p, (k - 1) as nat, slides, threshold, max);
        let entry = p.slides@[k - 1]@;
        match resolve_entry_spec(entry, slides, threshold, max) {
            Ok(rel) => UsageState {
                index: prev.index.insert(
                    rel,
                    (if prev.index.dom().contains(rel) {
                        prev.index[rel]
                    } else {
                        Seq::empty()
                    }).push(
                        (
                            stem,
                            text::opt_seq(p.title),
                            text::opt_seq(p.flavor),
                            k as usize,
                            p.slides@.len() as usize,
                        ),
                    ),
                ),
                unresolved: prev.unresolved,
            },
            Err(reason) => UsageState {
                index: prev.index,
                unresolved: prev.unresolved.push((stem, entry, reason)),
            },
        }
    }
}

/// The state after the first `k` playlists.
pub open spec fn playlists_fold(
    st: UsageState,
    pls: Seq<(String, Playlist)>,
    k: nat,
    slides: Seq<Slide>,
    threshold: i64,
    max: usize,
) -> UsageState
    decreases k,
{
    if k == 0 {
        st
    } else {
        let prev = playlists_fold(st, pls, (k - 1) as nat, slides, threshold, max);
        let (stem, p) = pls[k - 1];
        entries_fold(prev, stem@, p, p.slides@.len(), slides, threshold, max)
    }
}

impl UsageIndex {
    /// Index already-loaded playlists (`(file stem, playlist)` pairs):
    /// every entry that resolves adds a reference, at its 1-based position,
    /// to its slide; every other entry is added to `unresolved`, after the
    /// ones given.
    pub fn from_playlists(
        playlists: &[(String, Playlist)],
        slides: &SlideCollection,
        matcher: &SldrMatcher,
        unresolved: Vec<Unresolved>,
    ) -> (r: UsageIndex)
        ensures
            r.wf(),
            r.playlists == playlists@.len(),
            ({
                let st = playlists_fold(
                    UsageState { index: Map::empty(), unresolved: unresolved_views(unresolved@) },
                    playlists@,
                    playlists@.len(),
                    slides.slides@,
                    matcher.threshold(),
                    matcher.max_suggestions(),
                );
                &&& r.map() == st.index
                &&& unresolved_views(r.unresolved@) == st.unresolved
            }),
    {
        let names = slides.names();
        assert(text::string_views(names@) =~= slides.slides@.map_values(|s: Slide| s.relative_path@));
        let ghost thr = matcher.threshold();
        let ghost max = matcher.max_suggestions();
        let ghost init = UsageState { index: Map::empty(), unresolved: unresolved_views(unresolved@) };
        let mut index: Vec<(String, Vec<PlaylistRef>)> = Vec::new();
        let mut unresolved = unresolved;
        assert(index_map(index@) =~= Map::<Seq<char>, Seq<RefView>>::empty());
        let mut pi: usize = 0;
        while pi < playlists.len()
            invariant
                pi <= playlists.len(),
                keys_distinct(index@),
                text::string_views(names@) == slides.slides@.map_values(|s: Slide| s.relative_path@),
                ({
                    let st = playlists_fold(init, playlists@, pi as nat, slides.slides@, thr, max);
                    &&& index_map(index@) == st.index
                    &&& unresolved_views(unresolved@) == st.unresolved
                }),
                thr == matcher.threshold(),
                max == matcher.max_suggestions(),
            decreases playlists.len() - pi,
        {
            let stem = &playlists[pi].0;
            let playlist = &playlists[pi].1;
            let of = playlist.slides.len();
            let ghost base = playlists_fold(init, playlists@, pi as nat, slides.slides@, thr, max);
            let mut i: usize = 0;
            while i < playlist.slides.len()
                invariant
                    i <= playlist.slides.len() == of,
                    keys_distinct(index@),
                    text::string_views(names@) == slides.slides@.map_values(|s: Slide| s.relative_path@),
                    ({
                        let st = entries_fold(base, stem@, *playlist, i as nat, slides.slides@, thr, max);
                        &&& index_map(index@) == st.index
                        &&& unresolved_views(unresolved@) == st.unresolved
                    }),
                    thr == matcher.threshold(),
                    max == matcher.max_suggestions(),
                decreases playlist.slides.len() - i,
            {
                let entry = &playlist.slides[i];
                match resolve_entry(entry, slides, &names, matcher) {
                    Ok(rel) => {
                        let r = PlaylistRef {
                            name: stem.clone(),
                            title: text::clone_opt(&playlist.title),
                            flavor: text::clone_opt(&playlist.flavor),
                            position: i + 1,
                            of,
                        };
                        add_ref(&mut index, rel, r);
                    },
                    Err(reason) => {
                        let ghost before = unresolved_views(unresolved@);
                        let u = Unresolved { playlist: stem.clone(), entry: entry.clone(), reason };
                        let ghost uv = u.view();
                        unresolved.push(u);
                        assert(unresolved_views(unresolved@) =~= before.push(uv));
                    },
                }
                i += 1;
            }
            pi += 1;
        }
        UsageIndex { slides: index, playlists: playlists.len(), unresolved }
    }

    /// The playlists referencing the slide at `relative_path` (none when it
    /// is not indexed).
    pub fn of(&self, relative_path: &str) -> (r: &[PlaylistRef])
        requires
            self.wf(),
        ensures
            ref_views(r@) == if self.map().dom().contains(relative_path@) {
                self.map()[relative_path@]
            } else {
                Seq::empty()
            },
    {
        proof {
            lemma_index_dom(self.slides@, relative_path@);
        }
        let key = relative_path.to_string();
        match find_key(&self.slides, &key) {
            Some(j) => self.slides[j].1.as_slice(),
            None => {
                let empty: &[PlaylistRef] = &[];
                assert(ref_views(empty@) =~= Seq::<RefView>::empty());
                empty
            },
        }
    }

    /// The slides no playlist references, in library order.
    pub fn unused<'a>(&self, slides: &'a SlideCollection) -> (r: Vec<&'a str>)
        requires
            self.wf(),
        ensures
            r@.map_values(|s: &str| s@) == slides.slides@.filter(
                |s: Slide| !self.map().dom().contains(s.relative_path@),
            ).map_values(|s: Slide| s.relative_path@),
    {
        let ghost pred = |s: Slide| !self.map().dom().contains(s.relative_path@);
        let mut out: Vec<&'a str> = Vec::new();
        let mut i: usize = 0;
        assert(slides.slides@.take(0).filter(pred) =~= Seq::<Slide>::empty());
        while i < slides.slides.len()
            invariant
                i <= slides.slides.len(),
                self.wf(),
                pred == (|s: Slide| !self.map().dom().contains(s.relative_path@)),
                out@.map_values(|s: &str| s@) == slides.slides@.take(i as int).filter(pred).map_values(
                    |s: Slide| s.relative_path@,
                ),
            decreases slides.slides.len() - i,
        {
            let s = &slides.slides[i];
            proof {
                lemma_index_dom(self.slides@, s.relative_path@);
                assert(slides.slides@.take(i + 1).drop_last() =~= slides.slides@.take(i as int));
                slides.slides@.take(i as int).lemma_filter_push(slides.slides@[i as int], pred);
                assert(slides.slides@.take(i as int).push(slides.slides@[i as int]) =~= slides.slides@.take(i + 1));
            }
            let found = find_key(&self.slides, &s.relative_path);
            if found.is_none() {
                let ghost before = out@.map_values(|x: &str| x@);
                out.push(s.relative_path.as_str());
                assert(out@.map_values(|x: &str| x@) =~= before.push(s.relative_path@));
            }
            i += 1;
            assert(out@.map_values(|x: &str| x@) =~= slides.slides@.take(i as int).filter(pred).map_values(
                |x: Slide| x.relative_path@,
            ));
        }
        assert(slides.slides@.take(slides.slides.len() as int) =~= slides.slides@);
        out
    }
}

/// A slide's effective layout: its `layout:` field, else `default`.
pub open spec fn effective_layout(s: Slide) -> Seq<char> {
    match s.metadata.layout {
        Some(l) => l@,
        None => "default"@,
    }
}

/// The slides whose effective layout is `layout`, in library order.
pub fn slides_using_layout<'a>(layout: &str, slides: &'a SlideCollection) -> (r: Vec<&'a str>)
    ensures
        r@.map_values(|s: &str| s@) == slides.slides@.filter(|s: Slide| effective_layout(s) == layout@).map_values(
            |s: Slide| s.relative_path@,
        ),
{
    let ghost pred = |s: Slide| effective_layout(s) == layout@;
    let lc = text::chars_of(layout);
    let dflt = text::chars_of("default");
    let mut out: Vec<&'a str> = Vec::new();
    let mut i: usize = 0;
    assert(slides.slides@.take(0).filter(pred) =~= Seq::<Slide>::empty());
    while i < slides.slides.len()
        invariant
            i <= slides.slides.len(),
            lc@ == layout@,
            dflt@ == "default"@,
            pred == (|s: Slide| effective_layout(s) == layout@),
            out@.map_values(|s: &str| s@) == slides.slides@.take(i as int).filter(pred).map_values(
                |s: Slide| s.relative_path@,
            ),
        decreases slides.slides.len() - i,
    {
        let s = &slides.slides[i];
        proof {
            assert(slides.slides@.take(i + 1).drop_last() =~= slides.slides@.take(i as int));
            slides.slides@.take(i as int).lemma_filter_push(slides.slides@[i as int], pred);
            assert(slides.slides@.take(i as int).push(slides.slides@[i as int]) =~= slides.slides@.take(i + 1));
        }
        let eff = match &s.metadata.layout {
            Some(l) => text::chars_of(l.as_str()),
            None => dflt.clone(),
        };
        if text::eq_chars(eff.as_slice(), lc.as_slice()) {
            let ghost before = out@.map_values(|x: &str| x@);
            out.push(s.relative_path.as_str());
            assert(out@.map_values(|x: &str| x@) =~= before.push(s.relative_path@));
        }
        i += 1;
        assert(out@.map_values(|x: &str| x@) =~= slides.slides@.take(i as int).filter(pred).map_values(
            |x: Slide| x.relative_path@,
        ));
    }
    assert(slides.slides@.take(slides.slides.len() as int) =~= slides.slides@);
    out
}


/// What one entry of a playlist contributes: the reference it adds to the
/// slide it resolves to, or the report of why it resolves to none.
pub open spec fn entry_accounted(
    st: UsageState,
    stem: Seq<char>,
    p: Playlist,
    k: int,
    slides: Seq<Slide>,
    threshold: i64,
    max: usize,
) -> bool {
    let entry = p.slides@[k]@;
    match resolve_entry_spec(entry, slides, threshold, max) {
        Ok(rel) => st.index.dom().contains(rel) && st.index[rel].contains(
            (stem, text::opt_seq(p.title), text::opt_seq(p.flavor), (k + 1) as usize, p.slides@.len() as usize),
        ),
        Err(reason) => st.unresolved.contains((stem, entry, reason)),
    }
}

proof fn lemma_entries_fold_grows(
    st: UsageState,
    stem: Seq<char>,
    p: Playlist,
    k1: nat,
    k2: nat,
    slides: Seq<Slide>,
    threshold: i64,
    max: usize,
)
    requires
        k1 <= k2 <= p.slides@.len(),
    ensures
        ({
            let a = entries_fold(st, stem, p, k1, slides, threshold, max);
            let b = entries_fold(st, stem, p, k2, slides, threshold, max);
            &&& forall|rel: Seq<char>, x: RefView|
                a.index.dom().contains(rel) && #[trigger] a.index[rel].contains(x) ==> b.index.dom().contains(rel)
                    && b.index[rel].contains(x)
            &&& forall|u: UnresolvedView| #[trigger] a.unresolved.contains(u) ==> b.unresolved.contains(u)
        }),
    decreases k2,
{
    if k1 < k2 {
        lemma_entries_fold_grows(st, stem, p, k1, (k2 - 1) as nat, slides, threshold, max);
        let a = entries_fold(st, stem, p, k1, slides, threshold, max);
        let m = entries_fold(st, stem, p, (k2 - 1) as nat, slides, threshold, max);
        let b = entries_fold(st, stem, p, k2, slides, threshold, max);
        assert forall|rel: Seq<char>, x: RefView|
            a.index.dom().contains(rel) && #[trigger] a.index[rel].contains(x) implies b.index.dom().contains(rel)
                && b.index[rel].contains(x) by {
            assert(m.index.dom().contains(rel) && m.index[rel].contains(x));
            let j = choose|j: int| 0 <= j < m.index[rel].len() && m.index[rel][j] == x;
            let entry = p.slides@[k2 - 1]@;
            match resolve_entry_spec(entry, slides, threshold, max) {
                Ok(r2) => {
                    if r2 == rel {
                        assert(b.index[rel][j] == x);
                    }
                },
                Err(_) => {},
            }
        }
        assert forall|u: UnresolvedView| #[trigger] a.unresolved.contains(u) implies b.unresolved.contains(u) by {
            assert(m.unresolved.contains(u));
            let j = choose|j: int| 0 <= j < m.unresolved.len() && m.unresolved[j] == u;
            let entry = p.slides@[k2 - 1]@;
            match resolve_entry_spec(entry, slides, threshold, max) {
                Ok(_) => {},
                Err(reason) => {
                    assert(b.unresolved[j] == u);
                },
            }
        }
    }
}

/// Every entry of a playlist is accounted for once the playlist is
/// indexed: an entry that resolves is a reference, at its 1-based position,
/// of the slide it resolves to; an entry that does not (no match, or an
/// ambiguous one) is reported with its reason instead of being guessed.
pub proof fn lemma_every_entry_accounted(
    st: UsageState,
    stem: Seq<char>,
    p: Playlist,
    k: int,
    slides: Seq<Slide>,
    threshold: i64,
    max: usize,
)
    requires
        0 <= k < p.slides@.len(),
    ensures
        entry_accounted(
            entries_fold(st, stem, p, p.slides@.len(), slides, threshold, max),
            stem,
            p,
            k,
            slides,
            threshold,
            max,
        ),
{
    let n = p.slides@.len();
    let after = entries_fold(st, stem, p, (k + 1) as nat, slides, threshold, max);
    let entry = p.slides@[k]@;
    match resolve_entry_spec(entry, slides, threshold, max) {
        Ok(rel) => {
            let x = (stem, text::opt_seq(p.title), text::opt_seq(p.flavor), (k + 1) as usize, n as usize);
            assert(after.index[rel].last() == x);
            assert(after.index[rel].contains(x));
        },
        Err(reason) => {
            assert(after.unresolved.last() == (stem, entry, reason));
            assert(after.unresolved.contains((stem, entry, reason)));
        },
    }
    lemma_entries_fold_grows(st, stem, p, (k + 1) as nat, n, slides, threshold, max);
}

} // verus!
