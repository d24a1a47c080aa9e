//! The rules of `sldr show <what> <name>`: which kind of source is asked
//! for, and how a name resolves against the layouts or flavors on offer
//! (sorted, without repeats; exact first, then fuzzy), failing with the
//! available set or the candidates in the message.
use vstd::prelude::*;
use crate::fuzzy::{self, ResolveResult, SldrMatcher};
use crate::text;

verus! {

broadcast use vstd::string::group_string_axioms;

/// What `show` prints the source of.
#[derive(Debug, Clone, Copy, PartialEq, Eq, Structural)]
pub enum ShowTarget {
    Layout,
    Flavor,
}

/// The target a (lowercased) word names, if any.
pub open spec fn target_of(w: Seq<char>) -> Option<ShowTarget> {
    if w == "layout"@ || w == "layouts"@ {
        Some(ShowTarget::Layout)
    } else if w == "flavor"@ || w == "flavors"@ || w == "flavour"@ || w == "flavours"@ {
        Some(ShowTarget::Flavor)
    } else {
        None
    }
}

fn is(s: &str, lit: &str) -> (b: bool)
    ensures
        b == (s@ == lit@),
{
    let a = text::chars_of(s);
    let c = text::chars_of(lit);
    text::eq_chars(a.as_slice(), c.as_slice())
}

/// The kind of source `what` asks for, compared in lower case; any other
/// word is refused with the two forms that work.
pub fn show_target(what: &str) -> (r: Result<ShowTarget, String>)
    ensures
        match target_of(text::lowercase(what@)) {
            Some(t) => r == Ok::<ShowTarget, String>(t),
            None => r matches Err(e) && e@ == "Don't know how to show '"@ + text::lowercase(what@)
                + "'. Try: sldr show layout <name> | sldr show flavor <name>"@,
        },
{
    let w = text::to_lowercase(what);
    let ws = w.as_str();
    if is(ws, "layout") || is(ws, "layouts") {
        Ok(ShowTarget::Layout)
    } else if is(ws, "flavor") || is(ws, "flavors") || is(ws, "flavour") || is(ws, "flavours") {
        Ok(ShowTarget::Flavor)
    } else {
        let mut e = String::new();
        text::append(&mut e, "Don't know how to show '");
        text::append(&mut e, ws);
        text::append(&mut e, "'. Try: sldr show layout <name> | sldr show flavor <name>");
        Err(e)
    }
}

/// `x` put into the strictly ascending `sorted` at its place, unless it is
/// already there.
pub open spec fn insert_unique(sorted: Seq<Seq<char>>, x: Seq<char>) -> Seq<Seq<char>>
    decreases sorted.len(),
{
    if sorted.len() == 0 {
        seq![x]
    } else if sorted[0] == x {
        sorted
    } else if text::seq_lt(x, sorted[0]) {
        seq![x] + sorted
    } else {
        seq![sorted[0]] + insert_unique(sorted.drop_first(), x)
    }
}

/// The items of `s` in ascending code point order, each once (what a sort
/// followed by a dedup leaves).
pub open spec fn sorted_set(s: Seq<Seq<char>>) -> Seq<Seq<char>>
    decreases s.len(),
{
    if s.len() == 0 {
        Seq::empty()
    } else {
        insert_unique(sorted_set(s.drop_last()), s.last())
    }
}

/// Every item precedes the next one.
pub open spec fn strictly_ascending(s: Seq<Seq<char>>) -> bool {
    forall|i: int, j: int| 0 <= i < j < s.len() ==> text::seq_lt(#[trigger] s[i], #[trigger] s[j])
}

proof fn lemma_insert_unique(sorted: Seq<Seq<char>>, x: Seq<char>)
    requires
        strictly_ascending(sorted),
    ensures
        strictly_ascending(insert_unique(sorted, x)),
        forall|y: Seq<char>| #[trigger] insert_unique(sorted, x).contains(y) <==> (sorted.contains(y) || y == x),
    decreases sorted.len(),
{
    let r = insert_unique(sorted, x);
    if sorted.len() == 0 {
        assert forall|y: Seq<char>| r.contains(y) <==> (sorted.contains(y) || y == x) by {
            if r.contains(y) {
                assert(r[0] == x);
            }
            if y == x {
                assert(r[0] == y);
            }
        }
    } else if sorted[0] == x {
        assert forall|y: Seq<char>| r.contains(y) <==> (sorted.contains(y) || y == x) by {
            if y == x {
                assert(sorted[0] == y);
            }
        }
    } else if text::seq_lt(x, sorted[0]) {
        assert forall|i: int, j: int| 0 <= i < j < r.len() implies text::seq_lt(#[trigger] r[i], #[trigger] r[j]) by {
            if i == 0 {
                assert(r[i] == x);
                assert(r[j] == sorted[j - 1]);
                if j - 1 > 0 {
                    assert(text::seq_lt(sorted[0], sorted[j - 1]));
                    text::lemma_seq_lt_transitive(x, sorted[0], sorted[j - 1]);
                }
            } else {
                assert(r[i] == sorted[i - 1]);
                assert(r[j] == sorted[j - 1]);
            }
        }
        assert forall|y: Seq<char>| r.contains(y) <==> (sorted.contains(y) || y == x) by {
            if r.contains(y) {
                let k = choose|k: int| 0 <= k < r.len() && r[k] == y;
                if k > 0 {
                    assert(sorted[k - 1] == y);
                }
            }
            if sorted.contains(y) {
                let k = choose|k: int| 0 <= k < sorted.len() && sorted[k] == y;
                assert(r[k + 1] == y);
            }
            if y == x {
                assert(r[0] == y);
            }
        }
    } else {
        let rest = sorted.drop_first();
        assert(strictly_ascending(rest)) by {
            assert forall|i: int, j: int| 0 <= i < j < rest.len() implies text::seq_lt(#[trigger] rest[i], #[trigger] rest[j]) by {
                assert(rest[i] == sorted[i + 1]);
                assert(rest[j] == sorted[j + 1]);
            }
        }
        lemma_insert_unique(rest, x);
        let tail = insert_unique(rest, x);
        assert(r == seq![sorted[0]] + tail);
        text::lemma_seq_lt_total(x, sorted[0]);
        assert forall|i: int, j: int| 0 <= i < j < r.len() implies text::seq_lt(#[trigger] r[i], #[trigger] r[j]) by {
            if i == 0 {
                assert(r[j] == tail[j - 1]);
                assert(tail.contains(tail[j - 1]));
                let y = tail[j - 1];
                if y == x {
                } else {
                    assert(rest.contains(y));
                    let k = choose|k: int| 0 <= k < rest.len() && rest[k] == y;
                    assert(sorted[k + 1] == y);
                    assert(text::seq_lt(sorted[0], sorted[k + 1]));
                }
            } else {
                assert(r[i] == tail[i - 1]);
                assert(r[j] == tail[j - 1]);
            }
        }
        assert forall|y: Seq<char>| r.contains(y) <==> (sorted.contains(y) || y == x) by {
            if r.contains(y) {
                let k = choose|k: int| 0 <= k < r.len() && r[k] == y;
                if k > 0 {
                    assert(tail[k - 1] == y);
                    assert(tail.contains(y));
                    if rest.contains(y) {
                        let m = choose|m: int| 0 <= m < rest.len() && rest[m] == y;
                        assert(sorted[m + 1] == y);
                    }
                } else {
                    assert(sorted[0] == y);
                }
            }
            if sorted.contains(y) {
                let k = choose|k: int| 0 <= k < sorted.len() && sorted[k] == y;
                if k == 0 {
                    assert(r[0] == y);
                } else {
                    assert(rest[k - 1] == y);
                    assert(rest.contains(y));
                    assert(insert_unique(rest, x).contains(y));
                    assert(tail.contains(y));
                    let m = choose|m: int| 0 <= m < tail.len() && tail[m] == y;
                    assert(r[m + 1] == y);
                }
            }
            if y == x {
                assert(insert_unique(rest, x).contains(y));
                assert(tail.contains(y));
                let m = choose|m: int| 0 <= m < tail.len() && tail[m] == y;
                assert(r[m + 1] == y);
            }
        }
    }
}

/// What a sort and dedup leave is in strictly ascending order and holds
/// exactly the items it was given.
pub proof fn lemma_sorted_set(s: Seq<Seq<char>>)
    ensures
        strictly_ascending(sorted_set(s)),
        forall|y: Seq<char>| #[trigger] sorted_set(s).contains(y) <==> s.contains(y),
    decreases s.len(),
{
    if s.len() > 0 {
        let init = s.drop_last();
        lemma_sorted_set(init);
        lemma_insert_unique(sorted_set(init), s.last());
        assert(sorted_set(s) == insert_unique(sorted_set(init), s.last()));
        assert forall|y: Seq<char>| #[trigger] sorted_set(s).contains(y) <==> s.contains(y) by {
            assert(insert_unique(sorted_set(init), s.last()).contains(y) <==> (sorted_set(init).contains(y) || y == s.last()));
            assert(sorted_set(init).contains(y) <==> init.contains(y));
            if y == s.last() {
                assert(s[s.len() - 1] == y);
            }
            if init.contains(y) {
                let k = choose|k: int| 0 <= k < init.len() && init[k] == y;
                assert(s[k] == y);
            }
            if s.contains(y) {
                let k = choose|k: int| 0 <= k < s.len() && s[k] == y;
                if k < s.len() - 1 {
                    assert(init[k] == y);
                }
            }
        }
    }
}

/// The place where `x` goes in `sorted`: the first item it does not follow.
proof fn lemma_insert_at(sorted: Seq<Seq<char>>, x: Seq<char>, p: int)
    requires
        0 <= p <= sorted.len(),
        forall|k: int| 0 <= k < p ==> text::seq_lt(#[trigger] sorted[k], x),
        p < sorted.len() ==> !text::seq_lt(sorted[p], x),
    ensures
        p < sorted.len() && sorted[p] == x ==> insert_unique(sorted, x) == sorted,
        !(p < sorted.len() && sorted[p] == x) ==> insert_unique(sorted, x) == sorted.insert(p, x),
    decreases sorted.len(),
{
    if sorted.len() == 0 {
        assert(seq![x] =~= sorted.insert(p, x));
    } else if p == 0 {
        if sorted[0] != x {
            text::lemma_seq_lt_total(x, sorted[0]);
            assert(seq![x] + sorted =~= sorted.insert(0, x));
        }
    } else {
        let rest = sorted.drop_first();
        assert(text::seq_lt(sorted[0], x));
        text::lemma_seq_lt_irreflexive(x);
        if text::seq_lt(x, sorted[0]) {
            text::lemma_seq_lt_transitive(x, sorted[0], x);
        }
        assert forall|k: int| 0 <= k < p - 1 implies text::seq_lt(#[trigger] rest[k], x) by {
            assert(rest[k] == sorted[k + 1]);
        }
        lemma_insert_at(rest, x, p - 1);
        if p < sorted.len() && sorted[p] == x {
            assert(rest[p - 1] == x);
            assert(seq![sorted[0]] + rest =~= sorted);
        } else {
            assert(seq![sorted[0]] + rest.insert(p - 1, x) =~= sorted.insert(p, x));
        }
    }
}

/// The strings of `v`, sorted and without repeats (see [`sorted_set`]).
pub fn sort_unique(v: &Vec<String>) -> (r: Vec<String>)
    ensures
        text::string_views(r@) == sorted_set(text::string_views(v@)),
{
    let ghost vs = text::string_views(v@);
    let mut out: Vec<String> = Vec::new();
    let mut i: usize = 0;
    assert(vs.take(0) =~= Seq::<Seq<char>>::empty());
    assert(text::string_views(out@) =~= Seq::<Seq<char>>::empty());
    while i < v.len()
        invariant
            i <= v@.len(),
            vs == text::string_views(v@),
            text::string_views(out@) == sorted_set(vs.take(i as int)),
        decreases v@.len() - i,
    {
        let ghost ov = text::string_views(out@);
        proof {
            lemma_sorted_set(vs.take(i as int));
        }
        let x = v[i].as_str();
        let xc = text::chars_of(x);
        let mut p: usize = 0;
        while p < out.len()
            invariant
                p <= out@.len(),
                ov == text::string_views(out@),
                xc@ == x@,
                forall|k: int| 0 <= k < p ==> text::seq_lt(#[trigger] ov[k], x@),
            ensures
                p <= out@.len(),
                forall|k: int| 0 <= k < p ==> text::seq_lt(#[trigger] ov[k], x@),
                p < out@.len() ==> !text::seq_lt(ov[p as int], x@),
            decreases out@.len() - p,
        {
            let pc = text::chars_of(out[p].as_str());
            if !text::chars_lt(pc.as_slice(), xc.as_slice()) {
                break;
            }
            p += 1;
        }
        let mut present = false;
        if p < out.len() {
            let pc = text::chars_of(out[p].as_str());
            present = text::eq_chars(pc.as_slice(), xc.as_slice());
        }
        proof {
            lemma_insert_at(ov, x@, p as int);
            assert(vs.take(i + 1).drop_last() =~= vs.take(i as int));
            assert(vs.take(i + 1).last() == x@);
        }
        if !present {
            out.insert(p, v[i].clone());
            assert(text::string_views(out@) =~= ov.insert(p as int, x@));
        }
        i += 1;
    }
    assert(vs.take(v@.len() as int) =~= vs);
    out
}

/// The names of some matches.
pub open spec fn match_names(ms: Seq<fuzzy::MatchView>) -> Seq<Seq<char>> {
    ms.map_values(|m: fuzzy::MatchView| m.0)
}

/// The outcome of resolving `name` among `candidates` once they are sorted
/// and without repeats: the one match's name; or, when nothing matches, a
/// message that lists every candidate; or, when several do, one that lists
/// them.
pub open spec fn resolve_name_spec(kind: Seq<char>, name: Seq<char>, cands: Seq<Seq<char>>, thr: i64, max: usize) -> Result<Seq<char>, Seq<char>> {
    match fuzzy::resolve_spec(fuzzy::find_all_spec(name, cands, thr, max)) {
        fuzzy::ResolveView::Found(m) => Ok(m.0),
        fuzzy::ResolveView::NotFound => Err(
            kind + " '"@ + name + "' not found. Available: "@ + text::join(cands, ", "@),
        ),
        fuzzy::ResolveView::Multiple(ms) => Err(
            "Ambiguous "@ + kind + " '"@ + name + "'. Candidates: "@ + text::join(match_names(ms), ", "@),
        ),
    }
}

fn joined(v: &Vec<String>) -> (r: String)
    ensures
        r@ == text::join(text::string_views(v@), ", "@),
{
    let cs = text::chars_all(v.as_slice());
    let sep = text::chars_of(", ");
    let j = text::join_chars(&cs, sep.as_slice());
    text::string_of(j.as_slice())
}

/// Resolve `name` against `candidates` (sorted, repeats dropped), the
/// error naming `kind` (see [`resolve_name_spec`]).
pub fn resolve_name(matcher: &SldrMatcher, kind: &str, name: &str, candidates: Vec<String>) -> (r: Result<String, String>)
    ensures
        match (r, resolve_name_spec(
            kind@,
            name@,
            sorted_set(text::string_views(candidates@)),
            matcher.threshold(),
            matcher.max_suggestions(),
        )) {
            (Ok(v), Ok(w)) => v@ == w,
            (Err(e), Err(f)) => e@ == f,
            _ => false,
        },
{
    let cands = sort_unique(&candidates);
    match matcher.resolve(name, cands.as_slice()) {
        ResolveResult::Found(m) => Ok(m.value),
        ResolveResult::NotFound => {
            let mut e = String::new();
            text::append(&mut e, kind);
            text::append(&mut e, " '");
            text::append(&mut e, name);
            text::append(&mut e, "' not found. Available: ");
            let list = joined(&cands);
            text::append(&mut e, list.as_str());
            Err(e)
        },
        ResolveResult::Multiple(matches) => {
            let mut names: Vec<String> = Vec::new();
            let mut i: usize = 0;
            while i < matches.len()
                invariant
                    i <= matches@.len(),
                    text::string_views(names@) == match_names(fuzzy::views(matches@)).take(i as int),
                decreases matches@.len() - i,
            {
                let ghost before = text::string_views(names@);
                assert(match_names(fuzzy::views(matches@))[i as int] == matches@[i as int].value@);
                let c = matches[i].value.clone();
                assert(c@ == matches@[i as int].value@);
                names.push(c);
                assert(text::string_views(names@) =~= before.push(c@));
                assert(match_names(fuzzy::views(matches@)).take(i + 1) =~= match_names(fuzzy::views(matches@)).take(i as int).push(c@));
                i += 1;
            }
            assert(match_names(fuzzy::views(matches@)).take(matches@.len() as int) =~= match_names(
                fuzzy::views(matches@),
            ));
            let mut e = String::new();
            text::append(&mut e, "Ambiguous ");
            text::append(&mut e, kind);
            text::append(&mut e, " '");
            text::append(&mut e, name);
            text::append(&mut e, "'. Candidates: ");
            let list = joined(&names);
            text::append(&mut e, list.as_str());
            Err(e)
        },
    }
}

} // verus!
