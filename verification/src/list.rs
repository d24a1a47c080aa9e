//! The rules of `sldr ls <what>`: which listing a word asks for, the index
//! entry a flavor becomes (the shape agents match a brief against), and
//! the scaffold entries (bundled ones in their order, each marked
//! installed or not, then the custom ones installed beside them).
use vstd::prelude::*;
use crate::cli::{md_ext, Scaffold};
use crate::flavor::{Density, Flavor, Formality, Scheme};
use crate::text;

verus! {

broadcast use vstd::string::group_string_axioms;

/// The listings `ls` offers.
#[derive(Debug, Clone, Copy, PartialEq, Eq, Structural)]
pub enum ListKind {
    Slides,
    Presentations,
    Playlists,
    Flavors,
    Scaffolds,
    Layouts,
}

/// The listing a (lowercased) word names, if any.
pub open spec fn list_kind_of(w: Seq<char>) -> Option<ListKind> {
    if w == "slides"@ || w == "slide"@ || w == "s"@ {
        Some(ListKind::Slides)
    } else if w == "presentations"@ || w == "presentation"@ || w == "p"@ {
        Some(ListKind::Presentations)
    } else if w == "playlists"@ || w == "playlist"@ || w == "pl"@ {
        Some(ListKind::Playlists)
    } else if w == "flavors"@ || w == "flavor"@ || w == "f"@ {
        Some(ListKind::Flavors)
    } else if w == "scaffolds"@ || w == "scaffold"@ || w == "sc"@ {
        Some(ListKind::Scaffolds)
    } else if w == "layouts"@ || w == "layout"@ || w == "la"@ {
        Some(ListKind::Layouts)
    } else {
        None
    }
}

fn is(s: &str, lit: &str) -> (b: bool)
    ensures
        b == (s@ == lit@),
{
    let a = text::chars_of(s);
    let c = text::chars_of(lit);
    text::eq_chars(a.as_slice(), c.as_slice())
}

/// The listing `what` asks for, compared in lower case; any other word is
/// answered with the listings on offer.
pub fn list_target(what: &str) -> (r: Result<ListKind, String>)
    ensures
        match list_kind_of(text::lowercase(what@)) {
            Some(k) => r == Ok::<ListKind, String>(k),
            None => r matches Err(e) && e@ == "Unknown type '"@ + what@
                + "'. Use: slides, presentations, playlists, flavors, or scaffolds"@,
        },
{
    let w = text::to_lowercase(what);
    let ws = w.as_str();
    if is(ws, "slides") || is(ws, "slide") || is(ws, "s") {
        Ok(ListKind::Slides)
    } else if is(ws, "presentations") || is(ws, "presentation") || is(ws, "p") {
        Ok(ListKind::Presentations)
    } else if is(ws, "playlists") || is(ws, "playlist") || is(ws, "pl") {
        Ok(ListKind::Playlists)
    } else if is(ws, "flavors") || is(ws, "flavor") || is(ws, "f") {
        Ok(ListKind::Flavors)
    } else if is(ws, "scaffolds") || is(ws, "scaffold") || is(ws, "sc") {
        Ok(ListKind::Scaffolds)
    } else if is(ws, "layouts") || is(ws, "layout") || is(ws, "la") {
        Ok(ListKind::Layouts)
    } else {
        let mut e = String::new();
        text::append(&mut e, "Unknown type '");
        text::append(&mut e, what);
        text::append(&mut e, "'. Use: slides, presentations, playlists, flavors, or scaffolds");
        Err(e)
    }
}

/// A flavor in the index: its slug, display name (the slug when it has
/// none), tagline (its description) and curation.
#[derive(Debug, Clone)]
pub struct FlavorEntry {
    pub slug: String,
    pub name: String,
    pub tagline: Option<String>,
    pub mood: Vec<String>,
    pub occasion: Vec<String>,
    pub tone: Vec<String>,
    pub formality: Option<Formality>,
    pub density: Option<Density>,
    pub scheme: Option<Scheme>,
    pub best_for: Option<String>,
    pub avoid_for: Option<String>,
}

impl FlavorEntry {
    /// The index entry of a flavor.
    pub fn from_flavor(f: &Flavor) -> (e: FlavorEntry)
        ensures
            e.slug@ == f.name@,
            e.name@ == match f.display_name {
                Some(d) => d@,
                None => f.name@,
            },
            text::opt_seq(e.tagline) == text::opt_seq(f.description),
            text::string_views(e.mood@) == text::string_views(f.curation.mood@),
            text::string_views(e.occasion@) == text::string_views(f.curation.occasion@),
            text::string_views(e.tone@) == text::string_views(f.curation.tone@),
            e.formality == f.curation.formality,
            e.density == f.curation.density,
            e.scheme == f.curation.scheme,
            text::opt_seq(e.best_for) == text::opt_seq(f.curation.best_for),
            text::opt_seq(e.avoid_for) == text::opt_seq(f.curation.avoid_for),
    {
        let c = &f.curation;
        FlavorEntry {
            slug: f.name.clone(),
            name: match &f.display_name {
                Some(d) => d.clone(),
                None => f.name.clone(),
            },
            tagline: text::clone_opt(&f.description),
            mood: text::clone_strings(&c.mood),
            occasion: text::clone_strings(&c.occasion),
            tone: text::clone_strings(&c.tone),
            formality: c.formality,
            density: c.density,
            scheme: c.scheme,
            best_for: text::clone_opt(&c.best_for),
            avoid_for: text::clone_opt(&c.avoid_for),
        }
    }
}

/// A scaffold in the listing: its name without `.md`, whether it is
/// installed, whether it is bundled.
#[derive(Debug, Clone)]
pub struct ScaffoldEntry {
    pub name: String,
    pub installed: bool,
    pub bundled: bool,
}

/// A scaffold entry as plain values.
pub type ScaffoldView = (Seq<char>, bool, bool);

pub open spec fn scaffold_views(v: Seq<ScaffoldEntry>) -> Seq<ScaffoldView> {
    v.map_values(|e: ScaffoldEntry| (e.name@, e.installed, e.bundled))
}

/// The entries of the first `k` bundled scaffolds.
pub open spec fn bundled_entries(bundled: Seq<Scaffold>, installed: Seq<Seq<char>>, k: int) -> Seq<ScaffoldView>
    decreases k,
{
    if k <= 0 {
        Seq::empty()
    } else {
        bundled_entries(bundled, installed, k - 1).push(
            (text::trim_end_matches(bundled[k - 1].name@, md_ext()), installed.contains(bundled[k - 1].name@), true),
        )
    }
}

/// Whether a bundled scaffold has the file name `n`.
pub open spec fn is_bundled(bundled: Seq<Scaffold>, n: Seq<char>) -> bool {
    exists|i: int| 0 <= i < bundled.len() && #[trigger] bundled[i].name@ == n
}

/// The entries of the custom scaffolds among the first `k` installed file
/// names: those not bundled, each once.
pub open spec fn custom_entries(bundled: Seq<Scaffold>, installed: Seq<Seq<char>>, k: int) -> Seq<ScaffoldView>
    decreases k,
{
    if k <= 0 {
        Seq::empty()
    } else {
        let n = installed[k - 1];
        let rest = custom_entries(bundled, installed, k - 1);
        if is_bundled(bundled, n) || installed.take(k - 1).contains(n) {
            rest
        } else {
            rest.push((text::trim_end_matches(n, md_ext()), true, false))
        }
    }
}

/// The scaffold listing: every bundled scaffold in order, marked installed
/// when its file name is among `installed`, then every other installed
/// file name once, in the order given.
pub open spec fn scaffold_entries_spec(bundled: Seq<Scaffold>, installed: Seq<Seq<char>>) -> Seq<ScaffoldView> {
    bundled_entries(bundled, installed, bundled.len() as int) + custom_entries(bundled, installed, installed.len() as int)
}

fn contains_name(names: &[String], n: &str, upto: usize) -> (r: bool)
    requires
        upto <= names@.len(),
    ensures
        r == text::string_views(names@).take(upto as int).contains(n@),
{
    let ghost sv = text::string_views(names@).take(upto as int);
    let mut i: usize = 0;
    while i < upto
        invariant
            i <= upto <= names@.len(),
            sv == text::string_views(names@).take(upto as int),
            forall|k: int| 0 <= k < i ==> sv[k] != n@,
        decreases upto - i,
    {
        if is(names[i].as_str(), n) {
            assert(sv[i as int] == n@);
            return true;
        }
        i += 1;
    }
    false
}

fn bundled_has(bundled: &[Scaffold], n: &str) -> (r: bool)
    ensures
        r == is_bundled(bundled@, n@),
{
    let mut i: usize = 0;
    while i < bundled.len()
        invariant
            i <= bundled@.len(),
            forall|k: int| 0 <= k < i ==> bundled@[k].name@ != n@,
        decreases bundled@.len() - i,
    {
        if is(bundled[i].name, n) {
            return true;
        }
        i += 1;
    }
    false
}

fn without_md(name: &str) -> (r: String)
    ensures
        r@ == text::trim_end_matches(name@, md_ext()),
{
    let cs = text::chars_of(name);
    let ext = text::chars_of(".md");
    assert(ext@ =~= md_ext()) by {
        reveal_strlit(".md");
    }
    let t = text::trim_end_matches_chars(cs.as_slice(), ext.as_slice());
    text::string_of(t.as_slice())
}

/// The scaffold listing (see [`scaffold_entries_spec`]); `installed` are
/// the `.md` file names found in the scaffold directory.
pub fn scaffold_entries(bundled: &[Scaffold], installed: &[String]) -> (r: Vec<ScaffoldEntry>)
    ensures
        scaffold_views(r@) == scaffold_entries_spec(bundled@, text::string_views(installed@)),
{
    let ghost iv = text::string_views(installed@);
    let mut out: Vec<ScaffoldEntry> = Vec::new();
    let mut i: usize = 0;
    assert(scaffold_views(out@) =~= Seq::<ScaffoldView>::empty());
    while i < bundled.len()
        invariant
            i <= bundled@.len(),
            iv == text::string_views(installed@),
            scaffold_views(out@) == bundled_entries(bundled@, iv, i as int),
        decreases bundled@.len() - i,
    {
        let b = &bundled[i];
        let inst = contains_name(installed, b.name, installed.len());
        assert(iv.take(installed@.len() as int) =~= iv);
        let e = ScaffoldEntry { name: without_md(b.name), installed: inst, bundled: true };
        let ghost before = scaffold_views(out@);
        out.push(e);
        assert(scaffold_views(out@) =~= bundled_entries(bundled@, iv, i + 1));
        i += 1;
    }
    let ghost head = scaffold_views(out@);
    let mut j: usize = 0;
    assert(head + custom_entries(bundled@, iv, 0) =~= head);
    while j < installed.len()
        invariant
            j <= installed@.len(),
            iv == text::string_views(installed@),
            head == bundled_entries(bundled@, iv, bundled@.len() as int),
            scaffold_views(out@) == head + custom_entries(bundled@, iv, j as int),
        decreases installed@.len() - j,
    {
        let n = installed[j].as_str();
        assert(iv[j as int] == n@);
        let skip = bundled_has(bundled, n) || contains_name(installed, n, j);
        let ghost before = scaffold_views(out@);
        if !skip {
            let e = ScaffoldEntry { name: without_md(n), installed: true, bundled: false };
            out.push(e);
            assert(scaffold_views(out@) =~= before.push((e.name@, true, false)));
        }
        assert(scaffold_views(out@) =~= head + custom_entries(bundled@, iv, j + 1));
        j += 1;
    }
    out
}

} // verus!
