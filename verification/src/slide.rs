//! Slides: frontmatter metadata, per-language chrome, and slide collections.
//! Paths are strings in their Unix form. The YAML of a frontmatter block is
//! parsed outside the library; here it is located and split off the body.
use vstd::prelude::*;
use crate::text;

verus! {

broadcast use vstd::string::group_string_axioms;

/// Per-language overrides for the translatable framed-chrome fields. A field
/// left unset falls back to the slide's top-level value.
#[derive(Debug, Clone)]
pub struct ChromeTranslation {
    pub title: Option<String>,
    pub subtitle: Option<String>,
    pub source: Option<String>,
    pub source_url: Option<String>,
    pub footer: Option<String>,
}

impl Default for ChromeTranslation {
    fn default() -> (t: Self)
        ensures
            t.title is None,
            t.subtitle is None,
            t.source is None,
            t.source_url is None,
            t.footer is None,
    {
        ChromeTranslation { title: None, subtitle: None, source: None, source_url: None, footer: None }
    }
}

/// Metadata from a slide's YAML frontmatter. `translations` pairs a
/// language code with its chrome overrides; a lookup takes the first pair
/// whose code matches.
#[derive(Debug, Clone)]
pub struct SlideMetadata {
    pub title: Option<String>,
    pub description: Option<String>,
    pub subtitle: Option<String>,
    pub source: Option<String>,
    pub source_url: Option<String>,
    pub footer: Option<String>,
    pub topic: Option<String>,
    pub tags: Vec<String>,
    pub layout: Option<String>,
    pub align: Option<String>,
    pub valign: Option<String>,
    pub research_area: Option<String>,
    pub author: Option<String>,
    pub created: Option<String>,
    pub modified: Option<String>,
    pub translations: Vec<(String, ChromeTranslation)>,
}

impl Default for SlideMetadata {
    fn default() -> (m: Self)
        ensures
            m.title is None,
            m.description is None,
            m.subtitle is None,
            m.source is None,
            m.source_url is None,
            m.footer is None,
            m.topic is None,
            m.tags@.len() == 0,
            m.layout is None,
            m.align is None,
            m.valign is None,
            m.research_area is None,
            m.author is None,
            m.created is None,
            m.modified is None,
            m.translations@.len() == 0,
    {
        SlideMetadata {
            title: None,
            description: None,
            subtitle: None,
            source: None,
            source_url: None,
            footer: None,
            topic: None,
            tags: Vec::new(),
            layout: None,
            align: None,
            valign: None,
            research_area: None,
            author: None,
            created: None,
            modified: None,
            translations: Vec::new(),
        }
    }
}

/// The framed-chrome fields resolved for one language, plus a gap signal:
/// `untranslated_to` names the requested language when the slide has chrome
/// but no override block for it.
#[derive(Debug, Clone)]
pub struct ResolvedChrome {
    pub title: Option<String>,
    pub subtitle: Option<String>,
    pub source: Option<String>,
    pub source_url: Option<String>,
    pub footer: Option<String>,
    pub untranslated_to: Option<String>,
}

/// The override block for language `key`: the first pair whose code is `key`.
pub open spec fn lookup_block(tr: Seq<(String, ChromeTranslation)>, key: Seq<char>) -> Option<
    ChromeTranslation,
>
    decreases tr.len(),
{
    if tr.len() == 0 {
        None
    } else if tr[0].0@ == key {
        Some(tr[0].1)
    } else {
        lookup_block(tr.drop_first(), key)
    }
}

/// A field resolved against an optional override block: the block's value
/// when it has one, else the top-level value.
pub open spec fn resolved(
    block: Option<ChromeTranslation>,
    field: spec_fn(ChromeTranslation) -> Option<String>,
    base: Option<String>,
) -> Option<Seq<char>> {
    match block {
        Some(b) => if field(b) is Some {
            text::opt_seq(field(b))
        } else {
            text::opt_seq(base)
        },
        None => text::opt_seq(base),
    }
}

/// The language the chrome is resolved for: the requested one, else the
/// deck default, lowercased.
pub open spec fn chrome_target(requested: Option<Seq<char>>, deck_default: Seq<char>) -> Seq<char> {
    text::lowercase(
        match requested {
            Some(q) => q,
            None => deck_default,
        },
    )
}

pub open spec fn opt_str(o: Option<&str>) -> Option<Seq<char>> {
    match o {
        Some(s) => Some(s@),
        None => None,
    }
}

impl SlideMetadata {
    pub open spec fn has_chrome(&self) -> bool {
        self.title is Some || self.subtitle is Some || self.source is Some
    }

    /// Resolve the framed-chrome fields for one language. The target is
    /// `requested` when given, else `deck_default` (lowercased). Each field
    /// takes the target's override when present, else the top-level value.
    /// `untranslated_to` is set exactly when a language other than the deck
    /// default is targeted, the slide has no block for it, and it has chrome.
    pub fn chrome_for(&self, requested: Option<&str>, deck_default: &str) -> (r: ResolvedChrome)
        ensures
            ({
                let t = chrome_target(opt_str(requested), deck_default@);
                let b = lookup_block(self.translations@, t);
                &&& text::opt_seq(r.title) == resolved(b, |c: ChromeTranslation| c.title, self.title)
                &&& text::opt_seq(r.subtitle) == resolved(
                    b,
                    |c: ChromeTranslation| c.subtitle,
                    self.subtitle,
                )
                &&& text::opt_seq(r.source) == resolved(b, |c: ChromeTranslation| c.source, self.source)
                &&& text::opt_seq(r.source_url) == resolved(
                    b,
                    |c: ChromeTranslation| c.source_url,
                    self.source_url,
                )
                &&& text::opt_seq(r.footer) == resolved(b, |c: ChromeTranslation| c.footer, self.footer)
                &&& text::opt_seq(r.untranslated_to) == if t != text::lowercase(deck_default@)
                    && b is None && self.has_chrome() {
                    Some(t)
                } else {
                    None
                }
            }),
    {
        let default = text::to_lowercase(deck_default);
        let target = match requested {
            Some(q) => text::to_lowercase(q),
            None => text::to_lowercase(deck_default),
        };
        let block = find_block(&self.translations, &target);
        let has_chrome = self.title.is_some() || self.subtitle.is_some() || self.source.is_some();
        let untranslated_to = if target != default && block.is_none() && has_chrome {
            Some(target.clone())
        } else {
            None
        };
        let (title, subtitle, source, source_url, footer) = match block {
            Some(b) => (
                pick(&b.title, &self.title),
                pick(&b.subtitle, &self.subtitle),
                pick(&b.source, &self.source),
                pick(&b.source_url, &self.source_url),
                pick(&b.footer, &self.footer),
            ),
            None => (
                text::clone_opt(&self.title),
                text::clone_opt(&self.subtitle),
                text::clone_opt(&self.source),
                text::clone_opt(&self.source_url),
                text::clone_opt(&self.footer),
            ),
        };
        ResolvedChrome { title, subtitle, source, source_url, footer, untranslated_to }
    }
}

/// `over` when set, else `base`.
fn pick(over: &Option<String>, base: &Option<String>) -> (r: Option<String>)
    ensures
        text::opt_seq(r) == if over is Some {
            text::opt_seq(*over)
        } else {
            text::opt_seq(*base)
        },
{
    match over {
        Some(s) => Some(s.clone()),
        None => text::clone_opt(base),
    }
}

/// The first override block whose code equals `key`.
fn find_block<'a>(tr: &'a Vec<(String, ChromeTranslation)>, key: &String) -> (r: Option<
    &'a ChromeTranslation,
>)
    ensures
        match lookup_block(tr@, key@) {
            Some(b) => r == Some(&b),
            None => r is None,
        },
{
    let mut i: usize = 0;
    assert(tr@.subrange(0, tr@.len() as int) =~= tr@);
    while i < tr.len()
        invariant
            i <= tr.len(),
            lookup_block(tr@, key@) == lookup_block(tr@.subrange(i as int, tr@.len() as int), key@),
        decreases tr.len() - i,
    {
        let ghost rest = tr@.subrange(i as int, tr@.len() as int);
        if tr[i].0 == *key {
            return Some(&tr[i].1);
        }
        assert(rest.drop_first() =~= tr@.subrange(i + 1, tr@.len() as int));
        i += 1;
    }
    None
}

/// A markdown file split at its frontmatter: the YAML text between the
/// opening `---` and the closing `\n---` (trimmed), and the body after it.
pub struct Frontmatter {
    pub yaml: Option<String>,
    pub body: String,
}

pub open spec fn dashes() -> Seq<char> {
    seq!['-', '-', '-']
}

pub open spec fn closing_dashes() -> Seq<char> {
    seq!['\n', '-', '-', '-']
}

/// How a file's text splits: trimmed; when it opens with `---` and a later
/// line starts with `---`, the YAML between them and the body after both
/// come back trimmed; otherwise there is no YAML and the body is the whole
/// trimmed text.
pub open spec fn frontmatter_spec(content: Seq<char>) -> (Option<Seq<char>>, Seq<char>) {
    let c = text::trim(content);
    if !text::starts_with(c, dashes()) {
        (None, c)
    } else {
        let rest = c.skip(3);
        match text::find(rest, closing_dashes()) {
            Some(e) => (Some(text::trim(rest.take(e))), text::trim(rest.skip(e + 4))),
            None => (None, c),
        }
    }
}

/// Split a markdown file into its frontmatter YAML and its body.
pub fn split_frontmatter(content: &str) -> (r: Frontmatter)
    ensures
        text::opt_seq(r.yaml) == frontmatter_spec(content@).0,
        r.body@ == frontmatter_spec(content@).1,
{
    let all = text::chars_of(content);
    let c = text::trim_chars(all.as_slice());
    let d: Vec<char> = vec!['-', '-', '-'];
    assert(d@ =~= dashes());
    if !text::starts_with_chars(c.as_slice(), d.as_slice()) {
        return Frontmatter { yaml: None, body: text::string_of(c.as_slice()) };
    }
    let rest = text::slice_vec(c.as_slice(), 3, c.len());
    assert(rest@ =~= c@.skip(3));
    let close: Vec<char> = vec!['\n', '-', '-', '-'];
    assert(close@ =~= closing_dashes());
    match text::find_chars(rest.as_slice(), close.as_slice()) {
        Some(e) => {
            proof {
                text::lemma_find_from_spec(rest@, close@, 0);
            }
            let head = text::slice_vec(rest.as_slice(), 0, e);
            assert(head@ =~= rest@.take(e as int));
            let tail = text::slice_vec(rest.as_slice(), e + 4, rest.len());
            assert(tail@ =~= rest@.skip(e + 4));
            let y = text::trim_chars(head.as_slice());
            let b = text::trim_chars(tail.as_slice());
            Frontmatter { yaml: Some(text::string_of(y.as_slice())), body: text::string_of(b.as_slice()) }
        },
        None => Frontmatter { yaml: None, body: text::string_of(c.as_slice()) },
    }
}

/// A single slide file.
#[derive(Debug, Clone)]
pub struct Slide {
    /// Path of the slide file.
    pub path: String,
    /// Path relative to the slide directory.
    pub relative_path: String,
    /// Slide name (file name without extension).
    pub name: String,
    /// Metadata parsed from the frontmatter.
    pub metadata: SlideMetadata,
    /// Markdown content without the frontmatter.
    pub content: String,
}

/// The last `/`-separated segment of a path.
pub open spec fn file_name(p: Seq<char>) -> Seq<char> {
    match text::rfind(p, seq!['/']) {
        Some(i) => p.skip(i + 1),
        None => p,
    }
}

/// The file name without its extension: everything before the last `.`,
/// unless that dot is the first character. `None` when the file name is
/// empty or `..`.
pub open spec fn file_stem(p: Seq<char>) -> Option<Seq<char>> {
    let n = file_name(p);
    if n.len() == 0 || n == seq!['.', '.'] {
        None
    } else {
        match text::rfind(n, seq!['.']) {
            Some(k) => if k > 0 {
                Some(n.take(k))
            } else {
                Some(n)
            },
            None => Some(n),
        }
    }
}

/// `path` relative to `base`: what follows `base` and a separator when
/// `path` lies under `base`, the empty path when they are equal.
pub open spec fn strip_base(path: Seq<char>, base: Seq<char>) -> Option<Seq<char>> {
    let b = text::trim_end_matches(base, seq!['/']);
    if path == b {
        Some(Seq::empty())
    } else if text::starts_with(path, b + seq!['/']) {
        Some(path.skip(b.len() as int + 1))
    } else {
        None
    }
}

pub open spec fn unknown() -> Seq<char> {
    "unknown"@
}

/// The stem of a path's file name (see [`file_stem`]).
pub fn stem_of(path: &str) -> (r: Option<String>)
    ensures
        text::opt_seq(r) == file_stem(path@),
{
    let p = text::chars_of(path);
    let n = match text::rfind_char(p.as_slice(), '/') {
        Some(i) => {
            proof {
                text::lemma_rfind_upto_spec(p@, seq!['/'], p@.len() - 1);
            }
            text::slice_vec(p.as_slice(), i + 1, p.len())
        },
        None => p.clone(),
    };
    assert(n@ =~= file_name(path@));
    if n.len() == 0 || (n.len() == 2 && n[0] == '.' && n[1] == '.') {
        assert(n@.len() == 0 || n@ =~= seq!['.', '.']);
        return None;
    }
    assert(n@ != seq!['.', '.']);
    match text::rfind_char(n.as_slice(), '.') {
        Some(k) => {
            if k > 0 {
                let stem = text::slice_vec(n.as_slice(), 0, k);
                assert(stem@ =~= n@.take(k as int));
                Some(text::string_of(stem.as_slice()))
            } else {
                Some(text::string_of(n.as_slice()))
            }
        },
        None => Some(text::string_of(n.as_slice())),
    }
}

/// `path` relative to `base` (see [`strip_base`]).
pub fn relative_to(path: &str, base: &str) -> (r: Option<String>)
    ensures
        text::opt_seq(r) == strip_base(path@, base@),
{
    let p = text::chars_of(path);
    let bc = text::chars_of(base);
    let slash: Vec<char> = vec!['/'];
    assert(slash@ =~= seq!['/']);
    let b = text::trim_end_matches_chars(bc.as_slice(), slash.as_slice());
    if text::eq_chars(p.as_slice(), b.as_slice()) {
        return Some(String::new());
    }
    let mut bs = b.clone();
    bs.push('/');
    assert(bs@ =~= b@ + seq!['/']);
    if text::starts_with_chars(p.as_slice(), bs.as_slice()) {
        let rest = text::slice_vec(p.as_slice(), bs.len(), p.len());
        assert(rest@ =~= p@.skip(b@.len() as int + 1));
        Some(text::string_of(rest.as_slice()))
    } else {
        None
    }
}

impl Slide {
    /// A slide from an in-memory markdown file. `metadata` is what the
    /// file's frontmatter YAML (see [`split_frontmatter`]) parses to; the
    /// slide keeps the body that follows the frontmatter.
    pub fn from_str(name: &str, virtual_path: &str, content: &str, metadata: SlideMetadata) -> (r:
        Slide)
        ensures
            r.name@ == name@,
            r.path@ == virtual_path@,
            r.relative_path@ == virtual_path@,
            r.metadata == metadata,
            r.content@ == frontmatter_spec(content@).1,
    {
        let fm = split_frontmatter(content);
        Slide {
            path: virtual_path.to_string(),
            relative_path: virtual_path.to_string(),
            name: name.to_string(),
            metadata,
            content: fm.body,
        }
    }

    /// A slide read from `path` under the slide directory `base`: its name
    /// is the file stem (`unknown` when there is none), its relative path is
    /// `path` relative to `base` (or `path` itself when it is not under
    /// `base`), and its body follows the frontmatter of `content`.
    pub fn load_with_base(path: &str, base: &str, content: &str, metadata: SlideMetadata) -> (r:
        Slide)
        ensures
            r.name@ == match file_stem(path@) {
                Some(s) => s,
                None => unknown(),
            },
            r.path@ == path@,
            r.relative_path@ == match strip_base(path@, base@) {
                Some(rel) => rel,
                None => path@,
            },
            r.metadata == metadata,
            r.content@ == frontmatter_spec(content@).1,
    {
        let fm = split_frontmatter(content);
        let name = match stem_of(path) {
            Some(s) => s,
            None => "unknown".to_string(),
        };
        let relative_path = match relative_to(path, base) {
            Some(rel) => rel,
            None => path.to_string(),
        };
        Slide { path: path.to_string(), relative_path, name, metadata, content: fm.body }
    }
}

/// The slides of a directory.
#[derive(Debug)]
pub struct SlideCollection {
    /// All slides, ordered by relative path.
    pub slides: Vec<Slide>,
    /// The slide directory.
    pub base_dir: String,
}

pub open spec fn md_ext() -> Seq<char> {
    seq!['.', 'm', 'd']
}

/// Whether `s` is the slide asked for by `name`: by name, by relative path,
/// or by relative path with `.md` endings removed.
pub open spec fn names_slide(s: Slide, name: Seq<char>) -> bool {
    let n = text::trim_end_matches(name, md_ext());
    s.name@ == n || s.relative_path@ == name || text::trim_end_matches(s.relative_path@, md_ext())
        == n
}

/// Index of the first slide at or after `from` that `name` names.
pub open spec fn first_named(slides: Seq<Slide>, name: Seq<char>, from: int) -> Option<int>
    decreases slides.len() - from,
{
    if from < 0 || from >= slides.len() {
        None
    } else if names_slide(slides[from], name) {
        Some(from)
    } else {
        first_named(slides, name, from + 1)
    }
}

impl SlideCollection {
    /// The relative paths of all slides, in order.
    pub fn names(&self) -> (r: Vec<String>)
        ensures
            r@.len() == self.slides@.len(),
            forall|i: int| 0 <= i < r@.len() ==> #[trigger] r@[i]@ == self.slides@[i].relative_path@,
    {
        let mut out: Vec<String> = Vec::new();
        let mut i: usize = 0;
        while i < self.slides.len()
            invariant
                i <= self.slides.len(),
                out@.len() == i,
                forall|j: int| 0 <= j < i ==> #[trigger] out@[j]@ == self.slides@[j].relative_path@,
            decreases self.slides.len() - i,
        {
            out.push(self.slides[i].relative_path.clone());
            i += 1;
        }
        out
    }

    /// The first slide named by `name` (see [`names_slide`]).
    pub fn find(&self, name: &str) -> (r: Option<&Slide>)
        ensures
            match first_named(self.slides@, name@, 0) {
                Some(i) => r == Some(&self.slides@[i]),
                None => r is None,
            },
    {
        let nm = text::chars_of(name);
        let md: Vec<char> = vec!['.', 'm', 'd'];
        assert(md@ =~= md_ext());
        let n = text::trim_end_matches_chars(nm.as_slice(), md.as_slice());
        let mut i: usize = 0;
        while i < self.slides.len()
            invariant
                i <= self.slides.len(),
                n@ == text::trim_end_matches(name@, md_ext()),
                md@ == md_ext(),
                nm@ == name@,
                first_named(self.slides@, name@, 0) == first_named(self.slides@, name@, i as int),
            decreases self.slides.len() - i,
        {
            let s = &self.slides[i];
            let sn = text::chars_of(s.name.as_str());
            let rp = text::chars_of(s.relative_path.as_str());
            let rp_trim = text::trim_end_matches_chars(rp.as_slice(), md.as_slice());
            if text::eq_chars(sn.as_slice(), n.as_slice()) || text::eq_chars(rp.as_slice(), nm.as_slice())
                || text::eq_chars(rp_trim.as_slice(), n.as_slice()) {
                return Some(s);
            }
            i += 1;
        }
        None
    }
}

/// The YAML double-quote escape of one character.
pub open spec fn yaml_escape_char(c: char) -> Seq<char> {
    if c == '\\' {
        seq!['\\', '\\']
    } else if c == '"' {
        seq!['\\', '"']
    } else {
        seq![c]
    }
}

pub open spec fn yaml_escape(s: Seq<char>) -> Seq<char>
    decreases s.len(),
{
    if s.len() == 0 {
        s
    } else {
        yaml_escape(s.drop_last()) + yaml_escape_char(s.last())
    }
}

/// `s` double-quoted, with backslashes and quotes escaped.
pub open spec fn quoted(s: Seq<char>) -> Seq<char> {
    seq!['"'] + yaml_escape(s) + seq!['"']
}

/// `s` as a double-quoted YAML scalar.
pub fn yaml_quote(s: &str) -> (r: String)
    ensures
        r@ == quoted(s@),
{
    let c = text::chars_of(s);
    let mut out: Vec<char> = Vec::new();
    out.push('"');
    let mut i: usize = 0;
    assert(c@.take(0) =~= Seq::<char>::empty());
    while i < c.len()
        invariant
            i <= c.len(),
            out@ == seq!['"'] + yaml_escape(c@.take(i as int)),
        decreases c.len() - i,
    {
        assert(c@.take(i + 1).drop_last() =~= c@.take(i as int));
        let ch = c[i];
        if ch == '\\' {
            out.push('\\');
            out.push('\\');
        } else if ch == '"' {
            out.push('\\');
            out.push('"');
        } else {
            out.push(ch);
        }
        i += 1;
        assert(out@ =~= seq!['"'] + yaml_escape(c@.take(i as int)));
    }
    out.push('"');
    assert(c@.take(c.len() as int) =~= c@);
    assert(out@ =~= quoted(s@));
    text::string_of(out.as_slice())
}

/// Per-language chrome and body of one slide being created. Every field is
/// optional: only what differs from the default language is given.
#[derive(Debug, Clone)]
pub struct SlideTranslation {
    pub title: Option<String>,
    pub subtitle: Option<String>,
    pub source: Option<String>,
    pub source_url: Option<String>,
    pub footer: Option<String>,
    /// This language's body text, written after the shared content in a
    /// `::lang:<code>::` block.
    pub content: Option<String>,
}

impl Default for SlideTranslation {
    fn default() -> (t: Self)
        ensures
            t.title is None,
            t.subtitle is None,
            t.source is None,
            t.source_url is None,
            t.footer is None,
            t.content is None,
    {
        SlideTranslation { title: None, subtitle: None, source: None, source_url: None, footer: None, content: None }
    }
}

/// A slide to create, as an agent describes it.
#[derive(Debug, Clone)]
pub struct SlideInput {
    /// File name of the slide, without the `.md` extension.
    pub name: String,
    pub title: String,
    pub description: Option<String>,
    pub tags: Vec<String>,
    pub layout: String,
    pub align: Option<String>,
    pub valign: Option<String>,
    pub subtitle: Option<String>,
    pub source: Option<String>,
    pub source_url: Option<String>,
    pub footer: Option<String>,
    /// The body without frontmatter; with translations, the part shared by
    /// all languages.
    pub content: String,
    /// Per-language overrides by language code, in ascending code order,
    /// each code once (see [`translations_ordered`]).
    pub translations: Vec<(String, SlideTranslation)>,
    /// Sub-directory of the slides folder (overrides the batch's).
    pub directory: Option<String>,
}

/// Several slides to create at once.
#[derive(Debug, Clone)]
pub struct SlideInputBatch {
    pub slides: Vec<SlideInput>,
    /// Sub-directory of the slides folder for every slide of the batch.
    pub directory: Option<String>,
}

/// Translation codes in strictly ascending order, so each code once.
pub open spec fn translations_ordered(tr: Seq<(String, SlideTranslation)>) -> bool {
    forall|i: int, j: int| 0 <= i < j < tr.len() ==> text::seq_lt(#[trigger] tr[i].0@, #[trigger] tr[j].0@)
}

/// The codes of the translations, in order.
pub open spec fn translation_codes(tr: Seq<(String, SlideTranslation)>) -> Seq<Seq<char>> {
    tr.map_values(|p: (String, SlideTranslation)| p.0@)
}

/// A translation sets some chrome field.
pub open spec fn has_chrome(t: SlideTranslation) -> bool {
    t.title is Some || t.subtitle is Some || t.source is Some || t.source_url is Some || t.footer is Some
}

/// The frontmatter line of an optional chrome field of a translation.
pub open spec fn chrome_field_line(key: Seq<char>, v: Option<String>) -> Seq<char> {
    match v {
        Some(x) => "    "@ + key + ": "@ + quoted(x@) + "\n"@,
        None => Seq::empty(),
    }
}

/// The frontmatter lines of the translations that set chrome: the code,
/// then each set field, quoted.
pub open spec fn chrome_lines(tr: Seq<(String, SlideTranslation)>) -> Seq<char>
    decreases tr.len(),
{
    if tr.len() == 0 {
        Seq::empty()
    } else {
        let (code, t) = tr.last();
        chrome_lines(tr.drop_last()) + if has_chrome(t) {
            "  "@ + code@ + ":\n"@ + chrome_field_line("title"@, t.title) + chrome_field_line("subtitle"@, t.subtitle)
                + chrome_field_line("source"@, t.source) + chrome_field_line("source_url"@, t.source_url)
                + chrome_field_line("footer"@, t.footer)
        } else {
            Seq::empty()
        }
    }
}

/// The `translations:` block of the frontmatter: present when some
/// translation sets chrome.
pub open spec fn chrome_block(tr: Seq<(String, SlideTranslation)>) -> Seq<char> {
    if exists|i: int| 0 <= i < tr.len() && has_chrome(#[trigger] tr[i].1) {
        "translations:\n"@ + chrome_lines(tr)
    } else {
        Seq::empty()
    }
}

/// A language body is paired with a `::content::` marker when the shared
/// body holds an `::image::` and the language body holds neither marker.
pub open spec fn needs_content_marker(shared: Seq<char>, body: Seq<char>) -> bool {
    text::contains(shared, "::image::"@) && !text::contains(body, "::content::"@) && !text::contains(
        body,
        "::image::"@,
    )
}

/// The `::lang:<code>::` blocks of the translations that give body text,
/// each trimmed.
pub open spec fn lang_blocks(shared: Seq<char>, tr: Seq<(String, SlideTranslation)>) -> Seq<char>
    decreases tr.len(),
{
    if tr.len() == 0 {
        Seq::empty()
    } else {
        let (code, t) = tr.last();
        lang_blocks(shared, tr.drop_last()) + match t.content {
            Some(c) => "\n\n::lang:"@ + code@ + "::\n"@ + if needs_content_marker(shared, text::trim(c@)) {
                "::content::\n"@
            } else {
                Seq::empty()
            } + text::trim(c@),
            None => Seq::empty(),
        }
    }
}

/// A frontmatter line `key: value` for an optional field, the value written
/// by `write`.
pub open spec fn field_line(key: Seq<char>, v: Option<String>, quote: bool) -> Seq<char> {
    match v {
        Some(x) => key + ": "@ + if quote {
            quoted(x@)
        } else {
            x@
        } + "\n"@,
        None => Seq::empty(),
    }
}

/// The frontmatter of a slide being created.
pub open spec fn input_frontmatter(s: SlideInput) -> Seq<char> {
    "---\n"@ + "title: "@ + quoted(s.title@) + "\n"@ + match s.description {
        Some(d) => "description: \""@ + d@ + "\"\n"@,
        None => "description: \"\"\n"@,
    } + if s.tags.len() == 0 {
        "tags: []\n"@
    } else {
        "tags: ["@ + text::join(text::string_views(s.tags@), ", "@) + "]\n"@
    } + "layout: "@ + s.layout@ + "\n"@ + field_line("subtitle"@, s.subtitle, true) + field_line(
        "source"@,
        s.source,
        true,
    ) + field_line("source_url"@, s.source_url, true) + field_line("footer"@, s.footer, true) + field_line(
        "align"@,
        s.align,
        false,
    ) + field_line("valign"@, s.valign, false) + chrome_block(s.translations@) + "---\n\n"@
}

/// The markdown file of a slide being created: frontmatter, the shared body
/// without trailing white space, the language blocks, ending in a newline.
pub open spec fn input_markdown(s: SlideInput) -> Seq<char> {
    let out = input_frontmatter(s) + text::trim_end(s.content@) + lang_blocks(s.content@, s.translations@);
    if text::ends_with(out, "\n"@) {
        out
    } else {
        out.push('\n')
    }
}

/// The `title`, `description`, `tags` and `layout` lines (see
/// [`head_lines`]).
#[verifier::spinoff_prover]
fn head_text(s: &SlideInput) -> (r: String)
    ensures
        r@ == head_lines(*s),
{
    let mut out = String::new();
    text::append(&mut out, "title: ");
    let qt = yaml_quote(s.title.as_str());
    text::append(&mut out, qt.as_str());
    text::append(&mut out, "\n");
    assert(out@ =~= title_line(*s));
    match &s.description {
        Some(d) => {
            text::append(&mut out, "description: \"");
            text::append(&mut out, d.as_str());
            text::append(&mut out, "\"\n");
        },
        None => text::append(&mut out, "description: \"\"\n"),
    }
    assert(out@ =~= title_line(*s) + description_line(*s));
    if s.tags.len() == 0 {
        text::append(&mut out, "tags: []\n");
    } else {
        let tags = text::chars_all(s.tags.as_slice());
        let sep = text::chars_of(", ");
        let joined = text::join_chars(&tags, sep.as_slice());
        let j = text::string_of(joined.as_slice());
        text::append(&mut out, "tags: [");
        text::append(&mut out, j.as_str());
        text::append(&mut out, "]\n");
    }
    assert(out@ =~= title_line(*s) + description_line(*s) + tags_line(*s));
    text::append(&mut out, "layout: ");
    text::append(&mut out, s.layout.as_str());
    text::append(&mut out, "\n");
    assert(out@ =~= head_lines(*s));
    out
}

/// The lines of the optional fields (see [`optional_lines`]).
fn optional_text(s: &SlideInput) -> (r: String)
    ensures
        r@ == optional_lines(*s),
{
    let mut out = String::new();
    push_field(&mut out, "subtitle", &s.subtitle, true);
    push_field(&mut out, "source", &s.source, true);
    push_field(&mut out, "source_url", &s.source_url, true);
    push_field(&mut out, "footer", &s.footer, true);
    push_field(&mut out, "align", &s.align, false);
    push_field(&mut out, "valign", &s.valign, false);
    assert(out@ =~= optional_lines(*s));
    out
}

/// Append the frontmatter line of a translation's chrome field.
fn push_chrome_field(out: &mut String, key: &str, v: &Option<String>)
    ensures
        final(out)@ == old(out)@ + chrome_field_line(key@, *v),
{
    if let Some(x) = v {
        text::append(out, "    ");
        text::append(out, key);
        text::append(out, ": ");
        let q = yaml_quote(x.as_str());
        text::append(out, q.as_str());
        text::append(out, "\n");
    }
}

/// Append a frontmatter line `key: value` for an optional field.
fn push_field(out: &mut String, key: &str, v: &Option<String>, quote: bool)
    ensures
        final(out)@ == old(out)@ + field_line(key@, *v, quote),
{
    if let Some(x) = v {
        text::append(out, key);
        text::append(out, ": ");
        if quote {
            let q = yaml_quote(x.as_str());
            text::append(out, q.as_str());
        } else {
            text::append(out, x.as_str());
        }
        text::append(out, "\n");
    }
}

fn translation_has_chrome(t: &SlideTranslation) -> (b: bool)
    ensures
        b == has_chrome(*t),
{
    t.title.is_some() || t.subtitle.is_some() || t.source.is_some() || t.source_url.is_some() || t.footer.is_some()
}

/// The `translations:` block (see [`chrome_block`]).
fn chrome_text(tr: &Vec<(String, SlideTranslation)>) -> (r: String)
    ensures
        r@ == chrome_block(tr@),
{
    let mut any = false;
    let mut lines = String::new();
    let mut i: usize = 0;
    assert(tr@.take(0) =~= Seq::<(String, SlideTranslation)>::empty());
    while i < tr.len()
        invariant
            i <= tr.len(),
            lines@ == chrome_lines(tr@.take(i as int)),
            any == exists|k: int| 0 <= k < i && has_chrome(#[trigger] tr@[k].1),
        decreases tr.len() - i,
    {
        let (code, t) = &tr[i];
        assert(tr@.take(i + 1).drop_last() =~= tr@.take(i as int));
        assert(tr@.take(i + 1).last() == tr@[i as int]);
        if translation_has_chrome(t) {
            any = true;
            text::append(&mut lines, "  ");
            text::append(&mut lines, code.as_str());
            text::append(&mut lines, ":\n");
            push_chrome_field(&mut lines, "title", &t.title);
            push_chrome_field(&mut lines, "subtitle", &t.subtitle);
            push_chrome_field(&mut lines, "source", &t.source);
            push_chrome_field(&mut lines, "source_url", &t.source_url);
            push_chrome_field(&mut lines, "footer", &t.footer);
        }
        i += 1;
    }
    assert(tr@.take(tr.len() as int) =~= tr@);
    if any {
        let mut out = "translations:\n".to_string();
        text::append(&mut out, lines.as_str());
        out
    } else {
        String::new()
    }
}

/// The language blocks (see [`lang_blocks`]).
fn lang_text(shared: &str, tr: &Vec<(String, SlideTranslation)>) -> (r: String)
    ensures
        r@ == lang_blocks(shared@, tr@),
{
    let sc = text::chars_of(shared);
    let image = text::chars_of("::image::");
    let marker = text::chars_of("::content::");
    let has_image = text::contains_chars(sc.as_slice(), image.as_slice());
    let mut out = String::new();
    let mut i: usize = 0;
    assert(tr@.take(0) =~= Seq::<(String, SlideTranslation)>::empty());
    while i < tr.len()
        invariant
            i <= tr.len(),
            out@ == lang_blocks(shared@, tr@.take(i as int)),
            has_image == text::contains(shared@, "::image::"@),
            image@ == "::image::"@,
            marker@ == "::content::"@,
        decreases tr.len() - i,
    {
        let (code, t) = &tr[i];
        assert(tr@.take(i + 1).drop_last() =~= tr@.take(i as int));
        assert(tr@.take(i + 1).last() == tr@[i as int]);
        if let Some(c) = &t.content {
            let cc = text::chars_of(c.as_str());
            let body = text::trim_chars(cc.as_slice());
            text::append(&mut out, "\n\n::lang:");
            text::append(&mut out, code.as_str());
            text::append(&mut out, "::\n");
            if has_image && !text::contains_chars(body.as_slice(), marker.as_slice()) && !text::contains_chars(
                body.as_slice(),
                image.as_slice(),
            ) {
                text::append(&mut out, "::content::\n");
            }
            let b = text::string_of(body.as_slice());
            text::append(&mut out, b.as_str());
        }
        i += 1;
    }
    assert(tr@.take(tr.len() as int) =~= tr@);
    out
}

impl SlideInput {
    /// Set the translation for language `code`, replacing one already set,
    /// keeping the codes in ascending order.
    pub fn set_translation(&mut self, code: &str, t: SlideTranslation)
        requires
            translations_ordered(old(self).translations@),
        ensures
            translations_ordered(final(self).translations@),
            exists|k: int|
                0 <= k < final(self).translations@.len() && (#[trigger] final(self).translations@[k]).0@ == code@
                    && final(self).translations@[k].1 == t,
            forall|k: int|
                0 <= k < final(self).translations@.len() && (#[trigger] final(self).translations@[k]).0@ != code@
                    ==> old(self).translations@.contains(final(self).translations@[k]),
            forall|k: int|
                0 <= k < old(self).translations@.len() && (#[trigger] old(self).translations@[k]).0@ != code@
                    ==> final(self).translations@.contains(old(self).translations@[k]),
    {
        let cc = text::chars_of(code);
        let mut j: usize = 0;
        while j < self.translations.len() && text::chars_lt(
            text::chars_of(self.translations[j].0.as_str()).as_slice(),
            cc.as_slice(),
        )
            invariant
                j <= self.translations.len(),
                cc@ == code@,
                translations_ordered(self.translations@),
                forall|k: int| 0 <= k < j ==> text::seq_lt(#[trigger] self.translations@[k].0@, code@),
            decreases self.translations.len() - j,
        {
            j += 1;
        }
        let ghost before = self.translations@;
        let same = j < self.translations.len() && text::eq_chars(
            text::chars_of(self.translations[j].0.as_str()).as_slice(),
            cc.as_slice(),
        );
        proof {
            if j < before.len() && !same {
                assert(!text::seq_lt(before[j as int].0@, code@));
                text::lemma_seq_lt_total(before[j as int].0@, code@);
            }
        }
        if same {
            self.translations.set(j, (code.to_string(), t));
            assert forall|a: int, b: int| 0 <= a < b < self.translations@.len() implies text::seq_lt(
                #[trigger] self.translations@[a].0@,
                #[trigger] self.translations@[b].0@,
            ) by {
                assert(self.translations@[a].0@ == before[a].0@);
                assert(self.translations@[b].0@ == before[b].0@);
            }
            assert(self.translations@[j as int].0@ == code@);
            assert forall|k: int| 0 <= k < self.translations@.len() && (#[trigger] self.translations@[k]).0@ != code@ implies before.contains(self.translations@[k]) by {
                assert(k != j);
                assert(before[k] == self.translations@[k]);
            }
            assert forall|k: int| 0 <= k < before.len() && (#[trigger] before[k]).0@ != code@ implies self.translations@.contains(before[k]) by {
                assert(k != j);
                assert(before[k] == self.translations@[k]);
            }
        } else {
            self.translations.insert(j, (code.to_string(), t));
            let ghost after = self.translations@;
            assert(after[j as int].0@ == code@);
            assert forall|a: int, b: int| 0 <= a < b < after.len() implies text::seq_lt(
                #[trigger] after[a].0@,
                #[trigger] after[b].0@,
            ) by {
                if b < j {
                    assert(after[a] == before[a] && after[b] == before[b]);
                } else if b == j {
                    assert(after[a] == before[a]);
                } else if a > j {
                    assert(after[a] == before[a - 1] && after[b] == before[b - 1]);
                } else if a == j {
                    assert(after[b] == before[b - 1]);
                    if b - 1 > j {
                        text::lemma_seq_lt_transitive(code@, before[j as int].0@, before[b - 1].0@);
                    }
                } else {
                    assert(after[a] == before[a] && after[b] == before[b - 1]);
                    if b - 1 >= j {
                        assert(text::seq_lt(before[a].0@, before[b - 1].0@));
                    }
                }
            }
            assert forall|k: int| 0 <= k < after.len() && (#[trigger] after[k]).0@ != code@ implies before.contains(after[k]) by {
                if k < j {
                    assert(after[k] == before[k]);
                } else {
                    assert(k > j);
                    assert(after[k] == before[k - 1]);
                }
            }
            assert forall|k: int| 0 <= k < before.len() && (#[trigger] before[k]).0@ != code@ implies after.contains(before[k]) by {
                if k < j {
                    assert(after[k] == before[k]);
                } else {
                    assert(after[k + 1] == before[k]);
                }
            }
        }
    }

    /// The markdown file of the slide: frontmatter with the chrome of every
    /// translation that sets some, the shared body, then one
    /// `::lang:<code>::` block per translation that gives body text (see
    /// [`input_markdown`]).
    pub fn to_markdown(&self) -> (r: String)
        ensures
            r@ == input_markdown(*self),
    {
        let mut out = "---\n".to_string();
        let ghost p = out@;
        let head = head_text(self);
        text::append(&mut out, head.as_str());
        let opt = optional_text(self);
        text::append(&mut out, opt.as_str());
        let chrome = chrome_text(&self.translations);
        text::append(&mut out, chrome.as_str());
        assert(out@ =~= p + frontmatter_lines(*self));
        text::append(&mut out, "---\n\n");
        proof {
            lemma_input_frontmatter(*self);
        }
        assert(out@ == input_frontmatter(*self));
        let cc = text::chars_of(self.content.as_str());
        let body = text::trim_end_chars(cc.as_slice());
        let b = text::string_of(body.as_slice());
        text::append(&mut out, b.as_str());
        let langs = lang_text(self.content.as_str(), &self.translations);
        text::append(&mut out, langs.as_str());
        let oc = text::chars_of(out.as_str());
        let nl = text::chars_of("\n");
        if !text::ends_with_chars(oc.as_slice(), nl.as_slice()) {
            out.push('\n');
        }
        out
    }

    /// The directory of the slide: its own, else the batch's.
    pub fn effective_directory(&self, batch_dir: Option<&str>) -> (r: Option<String>)
        ensures
            text::opt_seq(r) == match self.directory {
                Some(d) => Some(d@),
                None => opt_str(batch_dir),
            },
    {
        match &self.directory {
            Some(d) => Some(d.clone()),
            None => match batch_dir {
                Some(b) => Some(b.to_string()),
                None => None,
            },
        }
    }
}


/// `x` placed into `sorted` before the first slide whose relative path
/// comes after its own (after those with an equal one).
pub open spec fn insert_by_path(sorted: Seq<Slide>, x: Slide) -> Seq<Slide>
    decreases sorted.len(),
{
    if sorted.len() == 0 {
        seq![x]
    } else if text::seq_lt(x.relative_path@, sorted[0].relative_path@) {
        seq![x] + sorted
    } else {
        seq![sorted[0]] + insert_by_path(sorted.drop_first(), x)
    }
}

/// The slides in ascending order of relative path, slides of equal path in
/// their given order (a stable sort).
pub open spec fn sort_by_path(s: Seq<Slide>) -> Seq<Slide>
    decreases s.len(),
{
    if s.len() == 0 {
        Seq::empty()
    } else {
        insert_by_path(sort_by_path(s.drop_last()), s.last())
    }
}

/// Slides in ascending order of relative path.
pub open spec fn sorted_by_path(s: Seq<Slide>) -> bool {
    forall|a: int, b: int| 0 <= a < b < s.len() ==> !text::seq_lt(#[trigger] s[b].relative_path@, #[trigger] s[a].relative_path@)
}

proof fn lemma_insert_by_path_at(sorted: Seq<Slide>, x: Slide, p: int)
    requires
        0 <= p <= sorted.len(),
        forall|k: int| 0 <= k < p ==> !text::seq_lt(x.relative_path@, #[trigger] sorted[k].relative_path@),
        p < sorted.len() ==> text::seq_lt(x.relative_path@, sorted[p].relative_path@),
    ensures
        insert_by_path(sorted, x) == sorted.insert(p, x),
    decreases sorted.len(),
{
    if sorted.len() == 0 {
        assert(seq![x] =~= sorted.insert(p, x));
    } else if p == 0 {
        assert(seq![x] + sorted =~= sorted.insert(0, x));
    } else {
        let rest = sorted.drop_first();
        assert forall|k: int| 0 <= k < p - 1 implies !text::seq_lt(x.relative_path@, #[trigger] rest[k].relative_path@) by {
            assert(rest[k] == sorted[k + 1]);
        }
        lemma_insert_by_path_at(rest, x, p - 1);
        assert(seq![sorted[0]] + rest.insert(p - 1, x) =~= sorted.insert(p, x));
    }
}

proof fn lemma_insert_by_path_sorted(sorted: Seq<Slide>, x: Slide)
    requires
        sorted_by_path(sorted),
    ensures
        sorted_by_path(insert_by_path(sorted, x)),
        insert_by_path(sorted, x).len() == sorted.len() + 1,
        forall|y: Slide| #[trigger] insert_by_path(sorted, x).contains(y) <==> (sorted.contains(y) || y == x),
    decreases sorted.len(),
{
    let r = insert_by_path(sorted, x);
    if sorted.len() == 0 {
        assert forall|y: Slide| #[trigger] r.contains(y) <==> (sorted.contains(y) || y == x) by {
            if y == x {
                assert(r[0] == y);
            }
        }
    } else if text::seq_lt(x.relative_path@, sorted[0].relative_path@) {
        assert forall|a: int, b: int| 0 <= a < b < r.len() implies !text::seq_lt(#[trigger] r[b].relative_path@, #[trigger] r[a].relative_path@) by {
            assert(r[b] == sorted[b - 1]);
            if a == 0 {
                if text::seq_lt(r[b].relative_path@, x.relative_path@) {
                    if b - 1 > 0 {
                        assert(!text::seq_lt(sorted[b - 1].relative_path@, sorted[0].relative_path@));
                        text::lemma_seq_lt_transitive(sorted[b - 1].relative_path@, x.relative_path@, sorted[0].relative_path@);
                    } else {
                        text::lemma_seq_lt_transitive(x.relative_path@, sorted[0].relative_path@, x.relative_path@);
                        text::lemma_seq_lt_irreflexive(x.relative_path@);
                    }
                }
            } else {
                assert(r[a] == sorted[a - 1]);
            }
        }
        assert forall|y: Slide| #[trigger] r.contains(y) <==> (sorted.contains(y) || y == x) by {
            if r.contains(y) {
                let k = choose|k: int| 0 <= k < r.len() && r[k] == y;
                if k > 0 {
                    assert(sorted[k - 1] == y);
                }
            }
            if sorted.contains(y) {
                let k = choose|k: int| 0 <= k < sorted.len() && sorted[k] == y;
                assert(r[k + 1] == y);
            }
            if y == x {
                assert(r[0] == y);
            }
        }
    } else {
        let rest = sorted.drop_first();
        assert(sorted_by_path(rest)) by {
            assert forall|a: int, b: int| 0 <= a < b < rest.len() implies !text::seq_lt(#[trigger] rest[b].relative_path@, #[trigger] rest[a].relative_path@) by {
                assert(rest[a] == sorted[a + 1]);
                assert(rest[b] == sorted[b + 1]);
            }
        }
        lemma_insert_by_path_sorted(rest, x);
        let tail = insert_by_path(rest, x);
        assert(r == seq![sorted[0]] + tail);
        assert forall|a: int, b: int| 0 <= a < b < r.len() implies !text::seq_lt(#[trigger] r[b].relative_path@, #[trigger] r[a].relative_path@) by {
            if a == 0 {
                assert(r[b] == tail[b - 1]);
                assert(tail.contains(tail[b - 1]));
                if tail[b - 1] != x {
                    let m = choose|m: int| 0 <= m < rest.len() && rest[m] == tail[b - 1];
                    assert(sorted[m + 1] == rest[m]);
                }
            } else {
                assert(r[a] == tail[a - 1]);
                assert(r[b] == tail[b - 1]);
            }
        }
        assert forall|y: Slide| #[trigger] r.contains(y) <==> (sorted.contains(y) || y == x) by {
            assert(tail.contains(y) <==> (rest.contains(y) || y == x));
            if r.contains(y) {
                let k = choose|k: int| 0 <= k < r.len() && r[k] == y;
                if k > 0 {
                    assert(tail[k - 1] == y);
                    if rest.contains(y) {
                        let m = choose|m: int| 0 <= m < rest.len() && rest[m] == y;
                        assert(sorted[m + 1] == y);
                    }
                } else {
                    assert(sorted[0] == y);
                }
            }
            if sorted.contains(y) {
                let k = choose|k: int| 0 <= k < sorted.len() && sorted[k] == y;
                if k == 0 {
                    assert(r[0] == y);
                } else {
                    assert(rest[k - 1] == y);
                    let m = choose|m: int| 0 <= m < tail.len() && tail[m] == y;
                    assert(r[m + 1] == y);
                }
            }
            if y == x {
                let m = choose|m: int| 0 <= m < tail.len() && tail[m] == y;
                assert(r[m + 1] == y);
            }
        }
    }
}

/// The slides of a collection come in ascending order of relative path,
/// all of them: sorting loses and adds none.
pub proof fn lemma_sort_by_path_sorted(s: Seq<Slide>)
    ensures
        sorted_by_path(sort_by_path(s)),
        sort_by_path(s).len() == s.len(),
        forall|y: Slide| #[trigger] sort_by_path(s).contains(y) <==> s.contains(y),
    decreases s.len(),
{
    if s.len() > 0 {
        let init = s.drop_last();
        lemma_sort_by_path_sorted(init);
        lemma_insert_by_path_sorted(sort_by_path(init), s.last());
        assert forall|y: Slide| #[trigger] sort_by_path(s).contains(y) <==> s.contains(y) by {
            assert(sort_by_path(init).contains(y) <==> init.contains(y));
            if init.contains(y) {
                let k = choose|k: int| 0 <= k < init.len() && init[k] == y;
                assert(s[k] == y);
            }
            if s.contains(y) {
                let k = choose|k: int| 0 <= k < s.len() && s[k] == y;
                if k < s.len() - 1 {
                    assert(init[k] == y);
                }
            }
            if y == s.last() {
                assert(s[s.len() - 1] == y);
            }
        }
    }
}

fn path_before(a: &Slide, b: &Slide) -> (r: bool)
    ensures
        r == text::seq_lt(a.relative_path@, b.relative_path@),
{
    let x = text::chars_of(a.relative_path.as_str());
    let y = text::chars_of(b.relative_path.as_str());
    text::chars_lt(x.as_slice(), y.as_slice())
}

fn insert_slide(out: &mut Vec<Slide>, x: Slide)
    ensures
        final(out)@ == insert_by_path(old(out)@, x),
{
    let mut p: usize = 0;
    while p < out.len()
        invariant
            p <= out@.len(),
            out@ == old(out)@,
            forall|k: int| 0 <= k < p ==> !text::seq_lt(x.relative_path@, #[trigger] out@[k].relative_path@),
        ensures
            p <= out@.len(),
            out@ == old(out)@,
            forall|k: int| 0 <= k < p ==> !text::seq_lt(x.relative_path@, #[trigger] out@[k].relative_path@),
            p < out@.len() ==> text::seq_lt(x.relative_path@, out@[p as int].relative_path@),
        decreases out@.len() - p,
    {
        if path_before(&x, &out[p]) {
            break;
        }
        p += 1;
    }
    proof {
        lemma_insert_by_path_at(out@, x, p as int);
    }
    out.insert(p, x);
}

impl SlideCollection {
    /// The slides loaded from a directory, in ascending order of relative
    /// path (see [`sort_by_path`]).
    pub fn from_loaded(slides: Vec<Slide>, base_dir: String) -> (c: SlideCollection)
        ensures
            c.slides@ == sort_by_path(slides@),
            c.base_dir == base_dir,
    {
        let mut v = slides;
        let ghost orig = v@;
        let mut out: Vec<Slide> = Vec::new();
        let mut i: usize = 0;
        assert(orig.take(0) =~= Seq::<Slide>::empty());
        let n0 = v.len();
        assert(orig.len() == n0);
        while v.len() > 0
            invariant
                orig.len() <= usize::MAX,
                i + v@.len() == orig.len(),
                v@ == orig.skip(i as int),
                out@ == sort_by_path(orig.take(i as int)),
            decreases v@.len(),
        {
            let x = v.remove(0);
            proof {
                assert(x == orig[i as int]);
                assert(orig.take(i + 1).drop_last() =~= orig.take(i as int));
                assert(orig.take(i + 1).last() == x);
            }
            insert_slide(&mut out, x);
            i += 1;
            assert(v@ =~= orig.skip(i as int));
        }
        assert(orig.take(i as int) =~= orig);
        SlideCollection { slides: out, base_dir }
    }
}


/// A slide file to be written: the slide's name, its path, its markdown.
#[derive(Debug, Clone)]
pub struct SlideFile {
    pub name: String,
    pub path: String,
    pub content: String,
}

/// Where a slide of a batch is written: `<name>.md` in its directory (its
/// own, else the batch's) below the slide directory, or directly in the
/// slide directory when it has none.
pub open spec fn slide_file_path(slide_dir: Seq<char>, s: SlideInput, batch_dir: Option<Seq<char>>) -> Seq<char> {
    let file = s.name@ + ".md"@;
    let dir = match s.directory {
        Some(d) => Some(d@),
        None => batch_dir,
    };
    match dir {
        Some(d) => crate::config::join(crate::config::join(slide_dir, d), file),
        None => crate::config::join(slide_dir, file),
    }
}

impl SlideInputBatch {
    /// The files the slides of this batch become, in order (see
    /// [`slide_file_path`] and [`input_markdown`]).
    pub fn files(&self, slide_dir: &str) -> (r: Vec<SlideFile>)
        ensures
            r@.len() == self.slides@.len(),
            forall|i: int|
                0 <= i < r@.len() ==> {
                    &&& (#[trigger] r@[i]).name@ == self.slides@[i].name@
                    &&& r@[i].path@ == slide_file_path(slide_dir@, self.slides@[i], text::opt_seq(self.directory))
                    &&& r@[i].content@ == input_markdown(self.slides@[i])
                },
    {
        let mut out: Vec<SlideFile> = Vec::new();
        let mut i: usize = 0;
        while i < self.slides.len()
            invariant
                i <= self.slides@.len(),
                out@.len() == i,
                forall|k: int|
                    0 <= k < i ==> {
                        &&& (#[trigger] out@[k]).name@ == self.slides@[k].name@
                        &&& out@[k].path@ == slide_file_path(slide_dir@, self.slides@[k], text::opt_seq(self.directory))
                        &&& out@[k].content@ == input_markdown(self.slides@[k])
                    },
            decreases self.slides@.len() - i,
        {
            let s = &self.slides[i];
            let mut file = s.name.clone();
            text::append(&mut file, ".md");
            let dir = s.effective_directory(match &self.directory {
                Some(d) => Some(d.as_str()),
                None => None,
            });
            let path = match &dir {
                Some(d) => {
                    let under = crate::config::join_path(slide_dir, d.as_str());
                    crate::config::join_path(under.as_str(), file.as_str())
                },
                None => crate::config::join_path(slide_dir, file.as_str()),
            };
            let f = SlideFile { name: s.name.clone(), path, content: s.to_markdown() };
            out.push(f);
            i += 1;
        }
        out
    }
}


/// Text made of whole lines none of which starts with `-`: empty, or it
/// opens with no `-`, ends with a line break, and no break inside is
/// followed by `-`.
pub open spec fn dashless_lines(s: Seq<char>) -> bool {
    s.len() == 0 || (s[0] != '-' && s.last() == '\n' && forall|i: int|
        0 <= i < s.len() - 1 && #[trigger] s[i] == '\n' ==> s[i + 1] != '-')
}

proof fn lemma_dashless_concat(a: Seq<char>, b: Seq<char>)
    requires
        dashless_lines(a),
        dashless_lines(b),
    ensures
        dashless_lines(a + b),
{
    if a.len() == 0 {
        assert(a + b =~= b);
    } else if b.len() == 0 {
        assert(a + b =~= a);
    } else {
        let c = a + b;
        assert forall|i: int| 0 <= i < c.len() - 1 && #[trigger] c[i] == '\n' implies c[i + 1] != '-' by {
            if i < a.len() - 1 {
                assert(c[i] == a[i] && c[i + 1] == a[i + 1]);
            } else if i == a.len() - 1 {
                assert(c[i + 1] == b[0]);
            } else {
                assert(c[i] == b[i - a.len()] && c[i + 1] == b[i + 1 - a.len()]);
            }
        }
    }
}

/// One line: `head` (not starting with `-`), `body`, and `end` (ending in
/// the line's only break).
proof fn lemma_one_line(head: Seq<char>, body: Seq<char>, end: Seq<char>)
    requires
        head.len() > 0,
        head[0] != '-',
        text::single_line(head),
        text::single_line(body),
        end.len() > 0,
        end.last() == '\n',
        text::single_line(end.drop_last()),
    ensures
        dashless_lines(head + body + end),
{
    let l = head + body + end;
    assert(l[0] == head[0]);
    assert(l.last() == end.last());
    assert forall|i: int| 0 <= i < l.len() - 1 && #[trigger] l[i] == '\n' implies l[i + 1] != '-' by {
        if i < head.len() {
            assert(l[i] == head[i]);
        } else if i < head.len() + body.len() {
            assert(l[i] == body[i - head.len()]);
        } else {
            assert(l[i] == end[i - head.len() - body.len()]);
            assert(end.drop_last()[i - head.len() - body.len()] == end[i - head.len() - body.len()]);
        }
    }
}

proof fn lemma_escape_single_line(s: Seq<char>)
    requires
        text::single_line(s),
    ensures
        text::single_line(yaml_escape(s)),
    decreases s.len(),
{
    if s.len() > 0 {
        lemma_escape_single_line(s.drop_last());
        let a = yaml_escape(s.drop_last());
        let b = yaml_escape_char(s.last());
        assert(s.last() != '\n');
        assert forall|i: int| 0 <= i < (a + b).len() implies (a + b)[i] != '\n' by {
            if i >= a.len() {
                assert((a + b)[i] == b[i - a.len()]);
            }
        }
    }
}

proof fn lemma_quoted_single_line(s: Seq<char>)
    requires
        text::single_line(s),
    ensures
        text::single_line(quoted(s)),
{
    lemma_escape_single_line(s);
    let e = yaml_escape(s);
    assert forall|i: int| 0 <= i < quoted(s).len() implies quoted(s)[i] != '\n' by {
        if 0 < i < quoted(s).len() - 1 {
            assert(quoted(s)[i] == e[i - 1]);
        }
    }
}

/// A set value holds no line break.
pub open spec fn single_line_opt(v: Option<String>) -> bool {
    match v {
        Some(x) => text::single_line(x@),
        None => true,
    }
}

/// The frontmatter of a slide being created can be read back: no value it
/// writes holds a line break (quoting keeps quotes and backslashes, not
/// breaks).
pub open spec fn single_line_fields(s: SlideInput) -> bool {
    &&& text::single_line(s.title@)
    &&& single_line_opt(s.description)
    &&& forall|i: int| 0 <= i < s.tags@.len() ==> text::single_line(#[trigger] s.tags@[i]@)
    &&& text::single_line(s.layout@)
    &&& single_line_opt(s.subtitle)
    &&& single_line_opt(s.source)
    &&& single_line_opt(s.source_url)
    &&& single_line_opt(s.footer)
    &&& single_line_opt(s.align)
    &&& single_line_opt(s.valign)
    &&& forall|i: int|
        0 <= i < s.translations@.len() ==> {
            let (code, t) = #[trigger] s.translations@[i];
            &&& text::single_line(code@)
            &&& single_line_opt(t.title)
            &&& single_line_opt(t.subtitle)
            &&& single_line_opt(t.source)
            &&& single_line_opt(t.source_url)
            &&& single_line_opt(t.footer)
        }
}

/// The `title`, `description`, `tags` and `layout` lines of a slide being
/// created.
pub open spec fn title_line(s: SlideInput) -> Seq<char> {
    "title: "@ + quoted(s.title@) + "\n"@
}

pub open spec fn description_line(s: SlideInput) -> Seq<char> {
    match s.description {
        Some(d) => "description: \""@ + d@ + "\"\n"@,
        None => "description: \"\"\n"@,
    }
}

pub open spec fn tags_line(s: SlideInput) -> Seq<char> {
    if s.tags.len() == 0 {
        "tags: []\n"@
    } else {
        "tags: ["@ + text::join(text::string_views(s.tags@), ", "@) + "]\n"@
    }
}

pub open spec fn layout_line(s: SlideInput) -> Seq<char> {
    "layout: "@ + s.layout@ + "\n"@
}

pub open spec fn head_lines(s: SlideInput) -> Seq<char> {
    title_line(s) + description_line(s) + tags_line(s) + layout_line(s)
}

/// The lines of the optional fields of a slide being created.
pub open spec fn optional_lines(s: SlideInput) -> Seq<char> {
    field_line("subtitle"@, s.subtitle, true) + field_line("source"@, s.source, true) + field_line(
        "source_url"@,
        s.source_url,
        true,
    ) + field_line("footer"@, s.footer, true) + field_line("align"@, s.align, false) + field_line(
        "valign"@,
        s.valign,
        false,
    )
}

/// The lines between the opening and the closing `---` of a slide being
/// created.
pub open spec fn frontmatter_lines(s: SlideInput) -> Seq<char> {
    head_lines(s) + optional_lines(s) + chrome_block(s.translations@)
}

proof fn lemma_field_line(key: Seq<char>, v: Option<String>, quote: bool)
    requires
        key.len() > 0,
        key[0] != '-',
        text::single_line(key),
        single_line_opt(v),
    ensures
        dashless_lines(field_line(key, v, quote)),
{
    reveal_strlit(": ");
    reveal_strlit("\n");
    if let Some(x) = v {
        let head = key + ": "@;
        assert(head[0] == key[0]);
        assert forall|i: int| 0 <= i < head.len() implies head[i] != '\n' by {
            if i >= key.len() {
                assert(head[i] == ": "@[i - key.len()]);
            }
        }
        let body = if quote {
            quoted(x@)
        } else {
            x@
        };
        if quote {
            lemma_quoted_single_line(x@);
        }
        assert("\n"@.drop_last() =~= Seq::<char>::empty());
        lemma_one_line(head, body, "\n"@);
        assert(field_line(key, v, quote) =~= head + body + "\n"@);
    }
}

proof fn lemma_chrome_field_line(key: Seq<char>, v: Option<String>)
    requires
        key.len() > 0,
        text::single_line(key),
        single_line_opt(v),
    ensures
        dashless_lines(chrome_field_line(key, v)),
{
    reveal_strlit("    ");
    reveal_strlit(": ");
    reveal_strlit("\n");
    if let Some(x) = v {
        let head = "    "@ + key + ": "@;
        assert(head[0] == ' ');
        assert forall|i: int| 0 <= i < head.len() implies head[i] != '\n' by {
            if 4 <= i < 4 + key.len() {
                assert(head[i] == key[i - 4]);
            } else if i >= 4 + key.len() {
                assert(head[i] == ": "@[i - 4 - key.len()]);
            }
        }
        lemma_quoted_single_line(x@);
        assert("\n"@.drop_last() =~= Seq::<char>::empty());
        lemma_one_line(head, quoted(x@), "\n"@);
        assert(chrome_field_line(key, v) =~= head + quoted(x@) + "\n"@);
    }
}

proof fn lemma_chrome_lines(tr: Seq<(String, SlideTranslation)>)
    requires
        forall|i: int|
            0 <= i < tr.len() ==> {
                let (code, t) = #[trigger] tr[i];
                &&& text::single_line(code@)
                &&& single_line_opt(t.title)
                &&& single_line_opt(t.subtitle)
                &&& single_line_opt(t.source)
                &&& single_line_opt(t.source_url)
                &&& single_line_opt(t.footer)
            },
    ensures
        dashless_lines(chrome_lines(tr)),
    decreases tr.len(),
{
    if tr.len() > 0 {
        let init = tr.drop_last();
        assert forall|i: int| 0 <= i < init.len() implies {
            let (code, t) = #[trigger] init[i];
            &&& text::single_line(code@)
            &&& single_line_opt(t.title)
            &&& single_line_opt(t.subtitle)
            &&& single_line_opt(t.source)
            &&& single_line_opt(t.source_url)
            &&& single_line_opt(t.footer)
        } by {
            assert(init[i] == tr[i]);
        }
        lemma_chrome_lines(init);
        let (code, t) = tr.last();
        assert(tr[tr.len() - 1] == tr.last());
        if has_chrome(t) {
            reveal_strlit("  ");
            reveal_strlit(":\n");
            reveal_strlit("title");
            reveal_strlit("subtitle");
            reveal_strlit("source");
            reveal_strlit("source_url");
            reveal_strlit("footer");
            let head = "  "@ + code@;
            assert(head[0] == ' ');
            assert forall|i: int| 0 <= i < head.len() implies head[i] != '\n' by {
                if i >= 2 {
                    assert(head[i] == code@[i - 2]);
                }
            }
            assert(":\n"@.drop_last() =~= seq![':']);
            lemma_one_line(head, Seq::empty(), ":\n"@);
            assert(head + Seq::<char>::empty() + ":\n"@ =~= "  "@ + code@ + ":\n"@);
            lemma_chrome_field_line("title"@, t.title);
            lemma_chrome_field_line("subtitle"@, t.subtitle);
            lemma_chrome_field_line("source"@, t.source);
            lemma_chrome_field_line("source_url"@, t.source_url);
            lemma_chrome_field_line("footer"@, t.footer);
            let b0 = "  "@ + code@ + ":\n"@;
            let b1 = b0 + chrome_field_line("title"@, t.title);
            lemma_dashless_concat(b0, chrome_field_line("title"@, t.title));
            let b2 = b1 + chrome_field_line("subtitle"@, t.subtitle);
            lemma_dashless_concat(b1, chrome_field_line("subtitle"@, t.subtitle));
            let b3 = b2 + chrome_field_line("source"@, t.source);
            lemma_dashless_concat(b2, chrome_field_line("source"@, t.source));
            let b4 = b3 + chrome_field_line("source_url"@, t.source_url);
            lemma_dashless_concat(b3, chrome_field_line("source_url"@, t.source_url));
            let b5 = b4 + chrome_field_line("footer"@, t.footer);
            lemma_dashless_concat(b4, chrome_field_line("footer"@, t.footer));
            lemma_dashless_concat(chrome_lines(init), b5);
        } else {
            assert(chrome_lines(tr) =~= chrome_lines(init));
        }
    }
}

proof fn lemma_title_line(s: SlideInput)
    requires
        text::single_line(s.title@),
    ensures
        dashless_lines(title_line(s)),
        title_line(s).len() > 0,
        title_line(s)[0] == 't',
{
    reveal_strlit("title: ");
    reveal_strlit("\n");
    assert("\n"@.drop_last() =~= Seq::<char>::empty());
    lemma_quoted_single_line(s.title@);
    lemma_one_line("title: "@, quoted(s.title@), "\n"@);
}

proof fn lemma_description_line(s: SlideInput)
    requires
        single_line_opt(s.description),
    ensures
        dashless_lines(description_line(s)),
{
    reveal_strlit("description: ");
    reveal_strlit("description: \"");
    reveal_strlit("description: \"\"\n");
    reveal_strlit("\"\n");
    reveal_strlit("\n");
    match s.description {
        Some(d) => {
            assert("\"\n"@.drop_last() =~= seq!['"']);
            lemma_one_line("description: \""@, d@, "\"\n"@);
        },
        None => {
            assert("\"\n"@.drop_last() =~= seq!['"']);
            assert("description: \"\"\n"@ =~= "description: \""@ + Seq::<char>::empty() + "\"\n"@);
            lemma_one_line("description: \""@, Seq::empty(), "\"\n"@);
        },
    }
}

proof fn lemma_tags_line(s: SlideInput)
    requires
        forall|i: int| 0 <= i < s.tags@.len() ==> text::single_line(#[trigger] s.tags@[i]@),
    ensures
        dashless_lines(tags_line(s)),
{
    reveal_strlit("tags: []\n");
    reveal_strlit("tags: [");
    reveal_strlit("]\n");
    assert("]\n"@.drop_last() =~= seq![']']);
    if s.tags.len() == 0 {
        assert("tags: []\n"@ =~= "tags: ["@ + Seq::<char>::empty() + "]\n"@);
        lemma_one_line("tags: ["@, Seq::empty(), "]\n"@);
    } else {
        assert forall|i: int| 0 <= i < text::string_views(s.tags@).len() implies text::single_line(
            #[trigger] text::string_views(s.tags@)[i],
        ) by {
            assert(text::string_views(s.tags@)[i] == s.tags@[i]@);
        }
        lemma_join_single_line_sep();
        text::lemma_join_single_line(text::string_views(s.tags@), ", "@);
        lemma_one_line("tags: ["@, text::join(text::string_views(s.tags@), ", "@), "]\n"@);
    }
}

proof fn lemma_layout_line(s: SlideInput)
    requires
        text::single_line(s.layout@),
    ensures
        dashless_lines(layout_line(s)),
{
    reveal_strlit("layout: ");
    reveal_strlit("\n");
    assert("\n"@.drop_last() =~= Seq::<char>::empty());
    lemma_one_line("layout: "@, s.layout@, "\n"@);
}

proof fn lemma_head_lines(s: SlideInput)
    requires
        single_line_fields(s),
    ensures
        dashless_lines(head_lines(s)),
        head_lines(s).len() > 0,
        head_lines(s)[0] == 't',
{
    lemma_title_line(s);
    lemma_description_line(s);
    lemma_tags_line(s);
    lemma_layout_line(s);
    let a1 = title_line(s) + description_line(s);
    lemma_dashless_concat(title_line(s), description_line(s));
    let a2 = a1 + tags_line(s);
    lemma_dashless_concat(a1, tags_line(s));
    lemma_dashless_concat(a2, layout_line(s));
    assert(head_lines(s)[0] == title_line(s)[0]);
}

proof fn lemma_optional_lines(s: SlideInput)
    requires
        single_line_fields(s),
    ensures
        dashless_lines(optional_lines(s)),
{
    reveal_strlit("subtitle");
    reveal_strlit("source");
    reveal_strlit("source_url");
    reveal_strlit("footer");
    reveal_strlit("align");
    reveal_strlit("valign");
    lemma_field_line("subtitle"@, s.subtitle, true);
    lemma_field_line("source"@, s.source, true);
    lemma_field_line("source_url"@, s.source_url, true);
    lemma_field_line("footer"@, s.footer, true);
    lemma_field_line("align"@, s.align, false);
    lemma_field_line("valign"@, s.valign, false);
    let a4 = field_line("subtitle"@, s.subtitle, true);
    let a5 = a4 + field_line("source"@, s.source, true);
    lemma_dashless_concat(a4, field_line("source"@, s.source, true));
    let a6 = a5 + field_line("source_url"@, s.source_url, true);
    lemma_dashless_concat(a5, field_line("source_url"@, s.source_url, true));
    let a7 = a6 + field_line("footer"@, s.footer, true);
    lemma_dashless_concat(a6, field_line("footer"@, s.footer, true));
    let a8 = a7 + field_line("align"@, s.align, false);
    lemma_dashless_concat(a7, field_line("align"@, s.align, false));
    lemma_dashless_concat(a8, field_line("valign"@, s.valign, false));
}

proof fn lemma_chrome_block(s: SlideInput)
    requires
        single_line_fields(s),
    ensures
        dashless_lines(chrome_block(s.translations@)),
{
    if exists|i: int| 0 <= i < s.translations@.len() && has_chrome(#[trigger] s.translations@[i].1) {
        lemma_chrome_lines(s.translations@);
        reveal_strlit("translations:\n");
        reveal_strlit("translations:");
        reveal_strlit("\n");
        assert("\n"@.drop_last() =~= Seq::<char>::empty());
        assert("translations:\n"@ =~= "translations:"@ + Seq::<char>::empty() + "\n"@);
        lemma_one_line("translations:"@, Seq::empty(), "\n"@);
        lemma_dashless_concat("translations:\n"@, chrome_lines(s.translations@));
    } else {
        assert(chrome_block(s.translations@) =~= Seq::<char>::empty());
    }
}

proof fn lemma_frontmatter_lines(s: SlideInput)
    requires
        single_line_fields(s),
    ensures
        dashless_lines(frontmatter_lines(s)),
        frontmatter_lines(s).len() > 0,
        frontmatter_lines(s)[0] == 't',
{
    lemma_head_lines(s);
    lemma_optional_lines(s);
    lemma_chrome_block(s);
    let a = head_lines(s) + optional_lines(s);
    lemma_dashless_concat(head_lines(s), optional_lines(s));
    lemma_dashless_concat(a, chrome_block(s.translations@));
    assert(frontmatter_lines(s)[0] == head_lines(s)[0]);
}

proof fn lemma_join_single_line_sep()
    ensures
        text::single_line(", "@),
{
    reveal_strlit(", ");
}

/// The frontmatter written for a slide is its lines between two `---`
/// markers.
#[verifier::spinoff_prover]
#[verifier::rlimit(100)]
proof fn lemma_input_frontmatter(s: SlideInput)
    ensures
        input_frontmatter(s) == "---\n"@ + frontmatter_lines(s) + "---\n\n"@,
{
    let p = "---\n"@;
    let t = title_line(s);
    let d = description_line(s);
    let g = tags_line(s);
    let l = layout_line(s);
    let x1 = p + "title: "@ + quoted(s.title@) + "\n"@;
    assert(x1 =~= p + t);
    let x2 = x1 + d;
    assert(x2 =~= p + (t + d));
    let x3 = x2 + g;
    assert(x3 =~= p + (t + d + g));
    let x4 = x3 + "layout: "@ + s.layout@ + "\n"@;
    assert(x4 =~= p + head_lines(s));
    let f1 = field_line("subtitle"@, s.subtitle, true);
    let f2 = field_line("source"@, s.source, true);
    let f3 = field_line("source_url"@, s.source_url, true);
    let f4 = field_line("footer"@, s.footer, true);
    let f5 = field_line("align"@, s.align, false);
    let f6 = field_line("valign"@, s.valign, false);
    let h = head_lines(s);
    let x5 = x4 + f1;
    assert(x5 =~= p + (h + f1));
    let x6 = x5 + f2;
    assert(x6 =~= p + (h + (f1 + f2)));
    let x7 = x6 + f3;
    assert(x7 =~= p + (h + (f1 + f2 + f3)));
    let x8 = x7 + f4;
    assert(x8 =~= p + (h + (f1 + f2 + f3 + f4)));
    let x9 = x8 + f5;
    assert(x9 =~= p + (h + (f1 + f2 + f3 + f4 + f5)));
    let x10 = x9 + f6;
    assert(x10 =~= p + (h + optional_lines(s)));
    let c = chrome_block(s.translations@);
    let x11 = x10 + c;
    assert(x11 =~= p + frontmatter_lines(s));
    assert(input_frontmatter(s) == x11 + "---\n\n"@);
}

/// What a written file holds once trimmed: the frontmatter up to its
/// closing `---`, then, when anything follows, a blank line and the
/// trimmed rest.
pub open spec fn written_tail(y: Seq<char>) -> Seq<char> {
    if text::trim_end(y).len() > 0 {
        "\n\n"@ + text::trim_end(y)
    } else {
        Seq::empty()
    }
}

#[verifier::spinoff_prover]
#[verifier::rlimit(40)]
proof fn lemma_written_trim(s: SlideInput)
    requires
        single_line_fields(s),
    ensures
        text::trim(input_markdown(s)) == "---\n"@ + frontmatter_lines(s) + "---"@ + written_tail(
            text::trim_end(s.content@) + lang_blocks(s.content@, s.translations@),
        ),
{
    reveal_strlit("---\n");
    reveal_strlit("---\n\n");
    reveal_strlit("---");
    reveal_strlit("\n\n");
    reveal_strlit("\n");
    lemma_input_frontmatter(s);
    let l = frontmatter_lines(s);
    let f0 = "---\n"@ + l + "---"@;
    let f = input_frontmatter(s);
    assert(f =~= f0 + "\n\n"@);
    let y = text::trim_end(s.content@) + lang_blocks(s.content@, s.translations@);
    let out = f + text::trim_end(s.content@) + lang_blocks(s.content@, s.translations@);
    assert(out =~= f + y);
    let m = input_markdown(s);
    assert(out[0] == '-');
    assert(m[0] == '-');
    assert(text::trim_start(m) == m);
    if !text::ends_with(out, "\n"@) {
        assert(m.drop_last() =~= out);
        assert(text::trim_end(m) == text::trim_end(out));
    }
    assert(text::trim_end(m) == text::trim_end(out));
    text::lemma_trim_end_concat(f0, "\n\n"@);
    assert("\n\n"@.drop_last() =~= "\n"@);
    assert("\n"@.drop_last() =~= Seq::<char>::empty());
    assert(text::trim_end("\n"@) == text::trim_end(Seq::<char>::empty()));
    assert(text::trim_end("\n\n"@).len() == 0);
    assert(f0.last() == '-');
    assert(text::trim_end(f0) == f0);
    text::lemma_trim_end_concat(f, y);
    let t = text::trim_end(y);
    if t.len() > 0 {
        assert(f + t =~= f0 + written_tail(y));
    } else {
        assert(f0 =~= f0 + written_tail(y));
    }
}

/// The first `\n---` after the opening marker is the closing one.
#[verifier::spinoff_prover]
#[verifier::rlimit(40)]
proof fn lemma_closing_at(l: Seq<char>, g: Seq<char>)
    requires
        dashless_lines(l),
        l.len() > 0,
        l[0] == 't',
    ensures
        text::find("\n"@ + l + "---"@ + g, closing_dashes()) == Some(l.len() as int),
{
    reveal_strlit("\n");
    reveal_strlit("---");
    let r = "\n"@ + l + "---"@ + g;
    let cd = closing_dashes();
    let n = l.len() as int;
    text::lemma_find_from_spec(r, cd, 0);
    assert(r[n] == l[n - 1]);
    assert(r.subrange(n, n + 4) =~= cd);
    assert(text::occurs_at(r, cd, n));
    assert forall|j: int| 0 <= j < n implies !text::occurs_at(r, cd, j) by {
        if text::occurs_at(r, cd, j) {
            assert(r.subrange(j, j + 4)[0] == r[j]);
            assert(r.subrange(j, j + 4)[1] == r[j + 1]);
            assert(r[j + 1] == l[j]);
            if j > 0 {
                assert(r[j] == l[j - 1]);
                assert(l[j - 1] == '\n');
            }
        }
    }
}

/// Trimming what sits between the markers gives the trimmed lines.
#[verifier::spinoff_prover]
#[verifier::rlimit(40)]
proof fn lemma_yaml_trim(l: Seq<char>)
    requires
        dashless_lines(l),
        l.len() > 0,
        l[0] == 't',
    ensures
        text::trim("\n"@ + l.drop_last()) == text::trim(l),
{
    reveal_strlit("\n");
    let x = l.drop_last();
    assert(l.len() > 1);
    assert(x[0] == 't');
    assert(("\n"@ + x).drop_first() =~= x);
    assert(text::trim_start("\n"@ + x) == text::trim_start(x));
    assert(text::trim_start(x) == x);
    assert(text::trim_start(l) == l);
    assert(text::trim_end(l) == text::trim_end(x));
}

/// Trimming the part after the closing marker gives the trimmed body.
#[verifier::spinoff_prover]
#[verifier::rlimit(40)]
proof fn lemma_body_trim(y: Seq<char>)
    ensures
        text::trim(written_tail(y)) == text::trim(y),
{
    reveal_strlit("\n\n");
    reveal_strlit("\n");
    let t = text::trim_end(y);
    text::lemma_trim_commute(y);
    if t.len() > 0 {
        let g = "\n\n"@ + t;
        assert(g.drop_first() =~= "\n"@ + t);
        assert(("\n"@ + t).drop_first() =~= t);
        assert(g[0] == '\n');
        assert(("\n"@ + t)[0] == '\n');
        assert(text::trim_start(g) == text::trim_start("\n"@ + t));
        assert(text::trim_start("\n"@ + t) == text::trim_start(t));
        text::lemma_trim_commute(t);
        text::lemma_trim_end_idempotent(y);
    } else {
        assert(text::trim_start(t) == t);
        assert(written_tail(y) =~= Seq::<char>::empty());
        assert(text::trim_start(Seq::<char>::empty()) == Seq::<char>::empty());
    }
}

/// A slide written by `to_markdown` splits back where it was joined: the
/// YAML read from it is exactly the lines written between the `---`
/// markers (trimmed), and its body is the shared body followed by the
/// language blocks (trimmed). This holds whenever no value written into
/// the frontmatter holds a line break.
#[verifier::spinoff_prover]
#[verifier::rlimit(60)]
pub proof fn lemma_written_slide_splits(s: SlideInput)
    requires
        single_line_fields(s),
    ensures
        frontmatter_spec(input_markdown(s)) == (
            Some(text::trim(frontmatter_lines(s))),
            text::trim(text::trim_end(s.content@) + lang_blocks(s.content@, s.translations@)),
        ),
{
    reveal_strlit("---\n");
    reveal_strlit("---");
    reveal_strlit("\n");
    lemma_frontmatter_lines(s);
    lemma_written_trim(s);
    let l = frontmatter_lines(s);
    let y = text::trim_end(s.content@) + lang_blocks(s.content@, s.translations@);
    let g = written_tail(y);
    let c = "---\n"@ + l + "---"@ + g;
    assert(c.take(3) =~= dashes());
    assert(text::starts_with(c, dashes()));
    let rest = c.skip(3);
    assert(rest =~= "\n"@ + l + "---"@ + g);
    lemma_closing_at(l, g);
    assert(rest.take(l.len() as int) =~= "\n"@ + l.drop_last());
    assert(rest.skip(l.len() as int + 4) =~= g);
    lemma_yaml_trim(l);
    lemma_body_trim(y);
}

/// The block one translation adds to a written slide: its marker, the
/// content marker when needed, and its trimmed body text.
pub open spec fn lang_block(shared: Seq<char>, code: Seq<char>, c: Seq<char>) -> Seq<char> {
    "\n\n::lang:"@ + code + "::\n"@ + if needs_content_marker(shared, text::trim(c)) {
        "::content::\n"@
    } else {
        Seq::empty()
    } + text::trim(c)
}

proof fn lemma_contains_left(a: Seq<char>, b: Seq<char>, p: Seq<char>)
    requires
        text::contains(a, p),
    ensures
        text::contains(a + b, p),
{
    let i = choose|i: int| text::occurs_at(a, p, i);
    assert((a + b).subrange(i, i + p.len()) =~= a.subrange(i, i + p.len()));
    assert(text::occurs_at(a + b, p, i));
}

proof fn lemma_contains_right(a: Seq<char>, b: Seq<char>, p: Seq<char>)
    requires
        text::contains(b, p),
    ensures
        text::contains(a + b, p),
{
    let i = choose|i: int| text::occurs_at(b, p, i);
    assert((a + b).subrange(a.len() + i, a.len() + i + p.len()) =~= b.subrange(i, i + p.len()));
    assert(text::occurs_at(a + b, p, a.len() + i));
}

proof fn lemma_contains_self(p: Seq<char>)
    ensures
        text::contains(p, p),
{
    assert(p.subrange(0, p.len() as int) =~= p);
    assert(text::occurs_at(p, p, 0));
}

proof fn lemma_lang_blocks_hold(shared: Seq<char>, tr: Seq<(String, SlideTranslation)>, i: int)
    requires
        0 <= i < tr.len(),
        tr[i].1.content is Some,
    ensures
        text::contains(lang_blocks(shared, tr), lang_block(shared, tr[i].0@, tr[i].1.content.unwrap()@)),
    decreases tr.len(),
{
    let init = tr.drop_last();
    let (code, t) = tr.last();
    let blk = match t.content {
        Some(c) => "\n\n::lang:"@ + code@ + "::\n"@ + if needs_content_marker(shared, text::trim(c@)) {
            "::content::\n"@
        } else {
            Seq::empty()
        } + text::trim(c@),
        None => Seq::empty(),
    };
    assert(lang_blocks(shared, tr) == lang_blocks(shared, init) + blk);
    if i == tr.len() - 1 {
        assert(blk == lang_block(shared, tr[i].0@, tr[i].1.content.unwrap()@));
        lemma_contains_self(blk);
        lemma_contains_right(lang_blocks(shared, init), blk, blk);
    } else {
        assert(init[i] == tr[i]);
        lemma_lang_blocks_hold(shared, init, i);
        lemma_contains_left(
            lang_blocks(shared, init),
            blk,
            lang_block(shared, tr[i].0@, tr[i].1.content.unwrap()@),
        );
    }
}

/// A slide written by `to_markdown` holds, for every translation that
/// gives body text, that text (trimmed) under its `::lang:<code>::` marker,
/// after a `::content::` marker when the shared body holds an image marker
/// and the text holds neither marker.
pub proof fn lemma_translations_written(s: SlideInput, i: int)
    requires
        0 <= i < s.translations@.len(),
        s.translations@[i].1.content is Some,
    ensures
        text::contains(
            input_markdown(s),
            lang_block(s.content@, s.translations@[i].0@, s.translations@[i].1.content.unwrap()@),
        ),
{
    let blk = lang_block(s.content@, s.translations@[i].0@, s.translations@[i].1.content.unwrap()@);
    let lb = lang_blocks(s.content@, s.translations@);
    lemma_lang_blocks_hold(s.content@, s.translations@, i);
    let head = input_frontmatter(s) + text::trim_end(s.content@);
    lemma_contains_right(head, lb, blk);
    let out = head + lb;
    if !text::ends_with(out, "\n"@) {
        assert(out.push('\n') =~= out + seq!['\n']);
        lemma_contains_left(out, seq!['\n'], blk);
    }
}

} // verus!
