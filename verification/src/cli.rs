//! The command-line tool's own rules, apart from its I/O: media references
//! of a slide, localized labels, page script injection, scaffold text,
//! file-name sanitizing, YAML scalars, output paths, and the outcome of an
//! interchange conversion. Paths are strings in their Unix form.
use vstd::prelude::*;
use crate::fuzzy::{self, ResolveResult, SldrMatcher};
use crate::report::{Conversion, Disposition, Rejected, Report};
use crate::slide;
use crate::text;
pub use crate::slide::yaml_quote;

verus! {

broadcast use vstd::string::group_string_axioms;

/// The script that prepares a page for PDF printing.
pub const PRINT_PREP_SCRIPT: &'static str = "\n<script>\n// When loaded with ?print query param, prepare for PDF export\nif (window.location.search.includes('print')) {\n  document.addEventListener('DOMContentLoaded', function() {\n    // Show all slides simultaneously for print\n    document.querySelectorAll('.sldr-slide').forEach(function(s) {\n      s.classList.add('active');\n      s.style.display = 'flex';\n      s.style.position = 'relative';\n      s.style.pageBreakAfter = 'always';\n    });\n    // Per-page logos: the deck-level .sldr-logos overlay is a single\n    // absolutely-positioned element, so in paged media it only lands on the\n    // first page. Clone each slide's matching logos (by data-logo-layouts)\n    // into the slide itself so every printed page carries its own logos.\n    var overlay = document.querySelector('.sldr-logos');\n    if (overlay) {\n      var logos = Array.prototype.slice.call(overlay.querySelectorAll('.sldr-logo'));\n      document.querySelectorAll('.sldr-slide').forEach(function(slide) {\n        var layout = slide.getAttribute('data-layout') || '';\n        var holder = null;\n        logos.forEach(function(logo) {\n          var list = (logo.getAttribute('data-logo-layouts') || '').split(/\\s+/);\n          if (list.indexOf('all') !== -1 || list.indexOf(layout) !== -1) {\n            if (!holder) { holder = document.createElement('div'); holder.className = 'sldr-logos'; }\n            var clone = logo.cloneNode(true);\n            clone.classList.add('sldr-logo-on');\n            holder.appendChild(clone);\n          }\n        });\n        if (holder) slide.appendChild(holder);\n      });\n      overlay.style.display = 'none';\n    }\n    // Hide toolbar and nav\n    var toolbar = document.querySelector('.sldr-toolbar');\n    if (toolbar) toolbar.style.display = 'none';\n    var nav = document.querySelector('.sldr-nav');\n    if (nav) nav.style.display = 'none';\n    var progress = document.querySelector('.sldr-progress');\n    if (progress) progress.style.display = 'none';\n    // Shrink-to-fit every slide once they're all laid out for print (the\n    // presenter's per-slide fit hook only runs for the active slide).\n    requestAnimationFrame(function() {\n      if (window.__sldrFitAll) window.__sldrFitAll();\n    });\n  });\n}\n</script>\n";

/// The script that reloads a page when the server signals a rebuild.
pub const LIVE_RELOAD_SCRIPT: &'static str = "\n<script>\n(function() {\n  var es = new EventSource('/__sldr_reload');\n  es.onmessage = function(e) {\n    if (e.data === 'reload') {\n      window.location.reload();\n    }\n  };\n  es.onerror = function() {\n    // Reconnect on error (server restart)\n    setTimeout(function() { window.location.reload(); }, 1000);\n  };\n})();\n</script>\n";

pub open spec fn bang_open() -> Seq<char> {
    seq!['!', '[']
}

pub open spec fn link_mid() -> Seq<char> {
    seq![']', '(']
}

/// A reference a bundle carries: not empty, not a URL, data URI or
/// absolute path.
pub open spec fn bundled_ref(t: Seq<char>) -> bool {
    &&& t.len() > 0
    &&& !text::starts_with(t, "http://"@)
    &&& !text::starts_with(t, "https://"@)
    &&& !text::starts_with(t, "data:"@)
    &&& !text::starts_with(t, seq!['/'])
}

/// The targets of the markdown images in `rest`, left to right: after each
/// `![`, the text between the next `](` and the next `)`, trimmed, when
/// [`bundled_ref`] holds of it. Scanning stops at the first image that is
/// not closed.
pub open spec fn media_refs_spec(rest: Seq<char>) -> Seq<Seq<char>>
    decreases rest.len(),
{
    match text::find(rest, bang_open()) {
        None => Seq::empty(),
        Some(start) => {
            let r = rest.skip(start);
            match text::find(r, link_mid()) {
                None => Seq::empty(),
                Some(open) => {
                    let after = r.skip(open + 2);
                    match text::find(after, seq![')']) {
                        None => Seq::empty(),
                        Some(close) => {
                            proof {
                                text::lemma_find_from_spec(rest, bang_open(), 0);
                                text::lemma_find_from_spec(r, link_mid(), 0);
                                text::lemma_find_from_spec(after, seq![')'], 0);
                            }
                            let t = text::trim(after.take(close));
                            (if bundled_ref(t) {
                                seq![t]
                            } else {
                                Seq::empty()
                            }) + media_refs_spec(after.skip(close + 1))
                        },
                    }
                },
            }
        },
    }
}

fn is_bundled_ref(t: &[char]) -> (b: bool)
    ensures
        b == bundled_ref(t@),
{
    let http = text::chars_of("http://");
    let https = text::chars_of("https://");
    let data = text::chars_of("data:");
    let slash: Vec<char> = vec!['/'];
    assert(slash@ =~= seq!['/']);
    t.len() > 0 && !text::starts_with_chars(t, http.as_slice()) && !text::starts_with_chars(
        t,
        https.as_slice(),
    ) && !text::starts_with_chars(t, data.as_slice()) && !text::starts_with_chars(t, slash.as_slice())
}

fn push_media_refs(out: &mut Vec<Vec<char>>, rest: &[char])
    ensures
        text::views(final(out)@) == text::views(old(out)@) + media_refs_spec(rest@),
    decreases rest.len(),
{
    let bo: Vec<char> = vec!['!', '['];
    assert(bo@ =~= bang_open());
    let lm: Vec<char> = vec![']', '('];
    assert(lm@ =~= link_mid());
    let cp: Vec<char> = vec![')'];
    assert(cp@ =~= seq![')']);
    proof {
        text::lemma_find_from_spec(rest@, bang_open(), 0);
    }
    let start = match text::find_chars(rest, bo.as_slice()) {
        Some(s) => s,
        None => {
            assert(text::views(out@) =~= text::views(old(out)@) + media_refs_spec(rest@));
            return;
        },
    };
    let r = text::slice_vec(rest, start, rest.len());
    assert(r@ =~= rest@.skip(start as int));
    proof {
        text::lemma_find_from_spec(r@, link_mid(), 0);
    }
    let open = match text::find_chars(r.as_slice(), lm.as_slice()) {
        Some(o) => o,
        None => {
            assert(text::views(out@) =~= text::views(old(out)@) + media_refs_spec(rest@));
            return;
        },
    };
    let after = text::slice_vec(r.as_slice(), open + 2, r.len());
    assert(after@ =~= r@.skip(open + 2));
    proof {
        text::lemma_find_from_spec(after@, seq![')'], 0);
    }
    let close = match text::find_chars(after.as_slice(), cp.as_slice()) {
        Some(c) => c,
        None => {
            assert(text::views(out@) =~= text::views(old(out)@) + media_refs_spec(rest@));
            return;
        },
    };
    let inner = text::slice_vec(after.as_slice(), 0, close);
    assert(inner@ =~= after@.take(close as int));
    let t = text::trim_chars(inner.as_slice());
    let ghost mid = text::views(out@);
    if is_bundled_ref(t.as_slice()) {
        let ghost tv = t@;
        out.push(t);
        assert(text::views(out@) =~= mid.push(tv));
    }
    let tail = text::slice_vec(after.as_slice(), close + 1, after.len());
    assert(tail@ =~= after@.skip(close + 1));
    push_media_refs(out, tail.as_slice());
    assert(text::views(out@) =~= text::views(old(out)@) + media_refs_spec(rest@));
}

/// The relative media targets of a slide's markdown images, in order (see
/// [`media_refs_spec`]).
pub fn markdown_media_refs(content: &str) -> (r: Vec<String>)
    ensures
        text::string_views(r@) == media_refs_spec(content@),
{
    let c = text::chars_of(content);
    let mut out: Vec<Vec<char>> = Vec::new();
    assert(text::views(out@) =~= Seq::<Seq<char>>::empty());
    push_media_refs(&mut out, c.as_slice());
    assert(text::views(out@) =~= media_refs_spec(content@));
    text::strings_of(&out)
}

/// The source of the first markdown image in `md`: the first word between
/// the `](` after the first `![` and the next `)`; none when a piece is
/// missing or the word is empty.
pub open spec fn img_src_spec(md: Seq<char>) -> Option<Seq<char>> {
    match text::find(md, bang_open()) {
        None => None,
        Some(start) => match text::find(md.skip(start), link_mid()) {
            None => None,
            Some(o) => {
                let open = o + start + 2;
                match text::find(md.skip(open), seq![')']) {
                    None => None,
                    Some(c) => {
                        let w = text::first_word(md.subrange(open, c + open));
                        if w.len() > 0 {
                            Some(w)
                        } else {
                            None
                        }
                    },
                }
            },
        },
    }
}

/// The source of the first markdown image in `md` (see [`img_src_spec`]).
pub fn extract_img_src(md: &str) -> (r: Option<String>)
    ensures
        text::opt_seq(r) == img_src_spec(md@),
{
    let m = text::chars_of(md);
    let bo: Vec<char> = vec!['!', '['];
    assert(bo@ =~= bang_open());
    let lm: Vec<char> = vec![']', '('];
    assert(lm@ =~= link_mid());
    let cp: Vec<char> = vec![')'];
    assert(cp@ =~= seq![')']);
    proof {
        text::lemma_find_from_spec(m@, bang_open(), 0);
    }
    let start = match text::find_chars(m.as_slice(), bo.as_slice()) {
        Some(s) => s,
        None => return None,
    };
    let r = text::slice_vec(m.as_slice(), start, m.len());
    assert(r@ =~= m@.skip(start as int));
    proof {
        text::lemma_find_from_spec(r@, link_mid(), 0);
    }
    let o = match text::find_chars(r.as_slice(), lm.as_slice()) {
        Some(o) => o,
        None => return None,
    };
    let open = o + start + 2;
    let after = text::slice_vec(m.as_slice(), open, m.len());
    assert(after@ =~= m@.skip(open as int));
    proof {
        text::lemma_find_from_spec(after@, seq![')'], 0);
    }
    let c = match text::find_chars(after.as_slice(), cp.as_slice()) {
        Some(c) => c,
        None => return None,
    };
    let inner = text::slice_vec(m.as_slice(), open, c + open);
    let w = text::first_word_chars(inner.as_slice());
    if w.len() > 0 {
        Some(text::string_of(w.as_slice()))
    } else {
        None
    }
}

/// The localized "Source:" label of a language code.
pub open spec fn label_of(code: Seq<char>) -> Option<Seq<char>> {
    if code == "en"@ {
        Some("Source:"@)
    } else if code == "de"@ {
        Some("Quelle:"@)
    } else if code == "fr"@ {
        Some("Source :"@)
    } else if code == "es"@ {
        Some("Fuente:"@)
    } else if code == "it"@ {
        Some("Fonte:"@)
    } else if code == "pt"@ {
        Some("Fonte:"@)
    } else if code == "nl"@ {
        Some("Bron:"@)
    } else {
        None
    }
}

fn label_for(code: &[char]) -> (r: Option<&'static str>)
    ensures
        slide::opt_str(r) == label_of(code@),
{
    let en = text::chars_of("en");
    let de = text::chars_of("de");
    let fr = text::chars_of("fr");
    let es = text::chars_of("es");
    let it = text::chars_of("it");
    let pt = text::chars_of("pt");
    let nl = text::chars_of("nl");
    if text::eq_chars(code, en.as_slice()) {
        Some("Source:")
    } else if text::eq_chars(code, de.as_slice()) {
        Some("Quelle:")
    } else if text::eq_chars(code, fr.as_slice()) {
        Some("Source :")
    } else if text::eq_chars(code, es.as_slice()) {
        Some("Fuente:")
    } else if text::eq_chars(code, it.as_slice()) {
        Some("Fonte:")
    } else if text::eq_chars(code, pt.as_slice()) {
        Some("Fonte:")
    } else if text::eq_chars(code, nl.as_slice()) {
        Some("Bron:")
    } else {
        None
    }
}

/// The "Source:" label for the requested language (else the deck
/// default), falling back to the deck default's label, then to English.
pub open spec fn source_label_spec(requested: Option<Seq<char>>, default_lang: Seq<char>) -> Seq<char> {
    let target = text::lowercase(
        match requested {
            Some(q) => q,
            None => default_lang,
        },
    );
    match label_of(target) {
        Some(l) => l,
        None => match label_of(text::lowercase(default_lang)) {
            Some(l) => l,
            None => "Source:"@,
        },
    }
}

/// The localized "Source:" label (see [`source_label_spec`]).
pub fn source_label(requested: Option<&str>, default_lang: &str) -> (r: &'static str)
    ensures
        r@ == source_label_spec(slide::opt_str(requested), default_lang@),
{
    let target = match requested {
        Some(q) => text::lower(q),
        None => text::lower(default_lang),
    };
    match label_for(target.as_slice()) {
        Some(l) => l,
        None => {
            let d = text::lower(default_lang);
            match label_for(d.as_slice()) {
                Some(l) => l,
                None => "Source:",
            }
        },
    }
}

pub open spec fn body_close() -> Seq<char> {
    "</body>"@
}

/// `script` put before the last `</body>` of `html`, else appended.
pub open spec fn inject_spec(html: Seq<char>, script: Seq<char>) -> Seq<char> {
    match text::rfind(html, body_close()) {
        Some(pos) => html.take(pos) + script + html.skip(pos),
        None => html + script,
    }
}

/// Put `script` before the last `</body>` of `html` (see [`inject_spec`]).
pub fn inject_script(html: &str, script: &str) -> (r: String)
    ensures
        r@ == inject_spec(html@, script@),
{
    let h = text::chars_of(html);
    let bc = text::chars_of("</body>");
    match text::rfind_chars(h.as_slice(), bc.as_slice()) {
        Some(pos) => {
            proof {
                text::lemma_rfind_upto_spec(h@, bc@, h@.len() - bc@.len());
            }
            let head = text::slice_vec(h.as_slice(), 0, pos);
            let tail = text::slice_vec(h.as_slice(), pos, h.len());
            let mut out = text::string_of(head.as_slice());
            text::append(&mut out, script);
            let ts = text::string_of(tail.as_slice());
            text::append(&mut out, ts.as_str());
            assert(out@ =~= inject_spec(html@, script@));
            out
        },
        None => {
            let mut out = html.to_string();
            text::append(&mut out, script);
            out
        },
    }
}

/// The page with the print-preparation script injected.
pub fn inject_print_prep(html: &str) -> (r: String)
    ensures
        r@ == inject_spec(html@, PRINT_PREP_SCRIPT@),
{
    inject_script(html, PRINT_PREP_SCRIPT)
}

/// The page with the live-reload script injected.
pub fn inject_live_reload(html: &str) -> (r: String)
    ensures
        r@ == inject_spec(html@, LIVE_RELOAD_SCRIPT@),
{
    inject_script(html, LIVE_RELOAD_SCRIPT)
}

/// `_` and `-` turned into spaces: a file stem as a title.
pub open spec fn humanize_spec(s: Seq<char>) -> Seq<char> {
    s.map_values(|c: char| if c == '_' || c == '-' { ' ' } else { c })
}

/// A file stem as a title: `_` and `-` become spaces.
pub fn humanize(s: &[char]) -> (r: Vec<char>)
    ensures
        r@ == humanize_spec(s@),
{
    let mut out: Vec<char> = Vec::new();
    let mut i: usize = 0;
    while i < s.len()
        invariant
            i <= s.len(),
            out@ == humanize_spec(s@.take(i as int)),
        decreases s.len() - i,
    {
        let c = s[i];
        out.push(if c == '_' || c == '-' { ' ' } else { c });
        i += 1;
        assert(out@ =~= humanize_spec(s@.take(i as int)));
    }
    assert(s@.take(s.len() as int) =~= s@);
    out
}

/// Every occurrence of the non-empty `pat` in `s` replaced by `rep`, left
/// to right, without overlaps.
pub open spec fn replace_spec(s: Seq<char>, pat: Seq<char>, rep: Seq<char>) -> Seq<char>
    decreases s.len(),
{
    if pat.len() == 0 {
        s
    } else {
        match text::find(s, pat) {
            Some(i) => {
                proof {
                    text::lemma_find_from_spec(s, pat, 0);
                }
                s.take(i) + rep + replace_spec(s.skip(i + pat.len()), pat, rep)
            },
            None => s,
        }
    }
}

/// Replace every occurrence of the non-empty `pat` in `s` by `rep`.
pub fn replace_chars(s: &[char], pat: &[char], rep: &[char]) -> (r: Vec<char>)
    requires
        pat@.len() > 0,
    ensures
        r@ == replace_spec(s@, pat@, rep@),
    decreases s.len(),
{
    proof {
        text::lemma_find_from_spec(s@, pat@, 0);
    }
    match text::find_chars(s, pat) {
        Some(i) => {
            let mut out = text::slice_vec(s, 0, i);
            text::push_all(&mut out, rep);
            let tail = text::slice_vec(s, i + pat.len(), s.len());
            assert(tail@ =~= s@.skip(i + pat.len()));
            let rest = replace_chars(tail.as_slice(), pat, rep);
            text::push_all(&mut out, rest.as_slice());
            assert(out@ =~= replace_spec(s@, pat@, rep@));
            out
        },
        None => text::slice_vec(s, 0, s.len()),
    }
}

pub open spec fn md_ext() -> Seq<char> {
    seq!['.', 'm', 'd']
}

/// A scaffold with its tokens filled: `{{title}}` becomes the humanized
/// stem of `name`, then `{{name}}` the stem (`name` without `.md`).
pub open spec fn apply_tokens_spec(content: Seq<char>, name: Seq<char>) -> Seq<char> {
    let stem = text::trim_end_matches(name, md_ext());
    replace_spec(replace_spec(content, "{{title}}"@, humanize_spec(stem)), "{{name}}"@, stem)
}

/// Fill a scaffold's tokens (see [`apply_tokens_spec`]).
pub fn apply_tokens(content: &str, name: &str) -> (r: String)
    ensures
        r@ == apply_tokens_spec(content@, name@),
{
    let c = text::chars_of(content);
    let n = text::chars_of(name);
    let md: Vec<char> = vec!['.', 'm', 'd'];
    assert(md@ =~= md_ext());
    let stem = text::trim_end_matches_chars(n.as_slice(), md.as_slice());
    let title = humanize(stem.as_slice());
    let tt = text::chars_of("{{title}}");
    let nt = text::chars_of("{{name}}");
    proof {
        reveal_strlit("{{title}}");
        reveal_strlit("{{name}}");
    }
    let step = replace_chars(c.as_slice(), tt.as_slice(), title.as_slice());
    let done = replace_chars(step.as_slice(), nt.as_slice(), stem.as_slice());
    text::string_of(done.as_slice())
}

pub const SCAFFOLD_HEAD: &'static str = "---\ntitle: ";

pub const SCAFFOLD_MID: &'static str = "\ndescription: \"\"\ntags: []\nlayout: default\n---\n\n# ";

pub const SCAFFOLD_TAIL: &'static str = "\n\n<!-- Your slide content here -->\n";

/// A new slide titled `title`: frontmatter with the default layout, and a
/// heading.
pub open spec fn scaffold_text(title: Seq<char>) -> Seq<char> {
    SCAFFOLD_HEAD@ + title + SCAFFOLD_MID@ + title + SCAFFOLD_TAIL@
}

fn scaffold_for(title: &[char]) -> (r: String)
    ensures
        r@ == scaffold_text(title@),
{
    let t = text::string_of(title);
    let mut out = SCAFFOLD_HEAD.to_string();
    text::append(&mut out, t.as_str());
    text::append(&mut out, SCAFFOLD_MID);
    text::append(&mut out, t.as_str());
    text::append(&mut out, SCAFFOLD_TAIL);
    out
}

/// The default scaffold of a new slide, titled by its humanized name
/// (without `.md`).
pub fn default_slide_scaffold(name: &str) -> (r: String)
    ensures
        r@ == scaffold_text(humanize_spec(text::trim_end_matches(name@, md_ext()))),
{
    let n = text::chars_of(name);
    let md: Vec<char> = vec!['.', 'm', 'd'];
    assert(md@ =~= md_ext());
    let stem = text::trim_end_matches_chars(n.as_slice(), md.as_slice());
    let title = humanize(stem.as_slice());
    scaffold_for(title.as_slice())
}

/// The default template of a new slide, titled by the humanized stem of
/// its file name (the name itself when it has no stem).
pub fn default_slide_template(name: &str) -> (r: String)
    ensures
        r@ == scaffold_text(
            humanize_spec(
                match slide::file_stem(name@) {
                    Some(s) => s,
                    None => name@,
                },
            ),
        ),
{
    let base = match slide::stem_of(name) {
        Some(s) => text::chars_of(s.as_str()),
        None => text::chars_of(name),
    };
    let title = humanize(base.as_slice());
    scaffold_for(title.as_slice())
}

/// A template filled for a derived slide: `{{title}}` becomes the
/// humanized file stem of `name` (the name itself when it has none), then
/// `{{name}}` the name as given.
pub open spec fn template_tokens_spec(content: Seq<char>, name: Seq<char>) -> Seq<char> {
    let base = match slide::file_stem(name) {
        Some(s) => s,
        None => name,
    };
    replace_spec(replace_spec(content, "{{title}}"@, humanize_spec(base)), "{{name}}"@, name)
}

/// Fill a template for a derived slide (see [`template_tokens_spec`]).
pub fn apply_template_tokens(content: &str, name: &str) -> (r: String)
    ensures
        r@ == template_tokens_spec(content@, name@),
{
    let c = text::chars_of(content);
    let n = text::chars_of(name);
    let base = match slide::stem_of(name) {
        Some(s) => text::chars_of(s.as_str()),
        None => text::chars_of(name),
    };
    let title = humanize(base.as_slice());
    let tt = text::chars_of("{{title}}");
    let nt = text::chars_of("{{name}}");
    proof {
        reveal_strlit("{{title}}");
        reveal_strlit("{{name}}");
    }
    let step = replace_chars(c.as_slice(), tt.as_slice(), title.as_slice());
    let done = replace_chars(step.as_slice(), nt.as_slice(), n.as_slice());
    text::string_of(done.as_slice())
}

/// A character kept in an uploaded file name: ASCII letters and digits,
/// `.`, `-` and `_`.
pub open spec fn file_name_char(c: char) -> bool {
    ('a' <= c && c <= 'z') || ('A' <= c && c <= 'Z') || ('0' <= c && c <= '9') || c == '.' || c
        == '-' || c == '_'
}

/// `name` with every other character replaced by `_`.
pub open spec fn sanitize_spec(name: Seq<char>) -> Seq<char> {
    name.map_values(|c: char| if file_name_char(c) { c } else { '_' })
}

/// An uploaded file name made safe (see [`sanitize_spec`]).
pub fn sanitize_filename(name: &str) -> (r: String)
    ensures
        r@ == sanitize_spec(name@),
{
    let n = text::chars_of(name);
    let mut out: Vec<char> = Vec::new();
    let mut i: usize = 0;
    while i < n.len()
        invariant
            i <= n.len(),
            out@ == sanitize_spec(n@.take(i as int)),
        decreases n.len() - i,
    {
        let c = n[i];
        let keep = ('a' <= c && c <= 'z') || ('A' <= c && c <= 'Z') || ('0' <= c && c <= '9') || c
            == '.' || c == '-' || c == '_';
        out.push(if keep { c } else { '_' });
        i += 1;
        assert(out@ =~= sanitize_spec(n@.take(i as int)));
    }
    assert(n@.take(n.len() as int) =~= n@);
    text::string_of(out.as_slice())
}

/// A character that makes a plain YAML scalar misread when it leads.
pub open spec fn yaml_special(c: char) -> bool {
    c == '-' || c == '[' || c == '{' || c == '*' || c == '&' || c == '!' || c == '|' || c == '>' || c
        == '\'' || c == '"' || c == '@' || c == '`'
}

/// A YAML scalar: quoted when it holds `:` or `#`, leads with a special
/// character, or has surrounding white space; bare otherwise.
pub open spec fn yaml_value_spec(s: Seq<char>) -> Seq<char> {
    if text::contains(s, seq![':']) || text::contains(s, seq!['#']) || (s.len() > 0 && yaml_special(
        s[0],
    )) || text::trim(s) != s {
        crate::slide::quoted(s)
    } else {
        s
    }
}

/// `s` as a YAML scalar (see [`yaml_value_spec`]).
pub fn yaml_value(s: &str) -> (r: String)
    ensures
        r@ == yaml_value_spec(s@),
{
    let c = text::chars_of(s);
    let colon: Vec<char> = vec![':'];
    assert(colon@ =~= seq![':']);
    let hash: Vec<char> = vec!['#'];
    assert(hash@ =~= seq!['#']);
    let t = text::trim_chars(c.as_slice());
    let lead = c.len() > 0 && {
        let f = c[0];
        f == '-' || f == '[' || f == '{' || f == '*' || f == '&' || f == '!' || f == '|' || f == '>'
            || f == '\'' || f == '"' || f == '@' || f == '`'
    };
    if text::contains_chars(c.as_slice(), colon.as_slice()) || text::contains_chars(
        c.as_slice(),
        hash.as_slice(),
    ) || lead || !text::eq_chars(t.as_slice(), c.as_slice()) {
        yaml_quote(s)
    } else {
        s.to_string()
    }
}

/// The layout a slide gets when none is named.
pub fn default_layout() -> (s: String)
    ensures
        s@ == "default"@,
{
    "default".to_string()
}

/// The extension of a path's file name: what follows its last `.`, when
/// that dot is not the first character.
pub open spec fn extension_spec(p: Seq<char>) -> Option<Seq<char>> {
    let n = slide::file_name(p);
    if n.len() == 0 || n == seq!['.', '.'] {
        None
    } else {
        match text::rfind(n, seq!['.']) {
            Some(k) => if k > 0 {
                Some(n.skip(k + 1))
            } else {
                None
            },
            None => None,
        }
    }
}

/// Everything up to and including a path's last `/`.
pub open spec fn parent_prefix(p: Seq<char>) -> Seq<char> {
    match text::rfind(p, seq!['/']) {
        Some(i) => p.take(i + 1),
        None => Seq::empty(),
    }
}

/// `path` with extension `ext`: unchanged when it has it already (or has
/// no file stem), else its file stem with `.ext`.
pub open spec fn ensure_ext_spec(path: Seq<char>, ext: Seq<char>) -> Seq<char> {
    if extension_spec(path) == Some(ext) {
        path
    } else {
        match slide::file_stem(path) {
            Some(stem) => parent_prefix(path) + stem + (if ext.len() > 0 {
                seq!['.'] + ext
            } else {
                Seq::empty()
            }),
            None => path,
        }
    }
}

pub(crate) fn extension_of(p: &[char]) -> (r: Option<Vec<char>>)
    ensures
        match r {
            Some(e) => extension_spec(p@) == Some(e@),
            None => extension_spec(p@) is None,
        },
{
    let n = match text::rfind_char(p, '/') {
        Some(i) => text::slice_vec(p, i + 1, p.len()),
        None => text::slice_vec(p, 0, p.len()),
    };
    assert(n@ =~= slide::file_name(p@));
    if n.len() == 0 || (n.len() == 2 && n[0] == '.' && n[1] == '.') {
        assert(n@.len() == 0 || n@ =~= seq!['.', '.']);
        return None;
    }
    assert(n@ != seq!['.', '.']);
    match text::rfind_char(n.as_slice(), '.') {
        Some(k) => {
            if k > 0 {
                let e = text::slice_vec(n.as_slice(), k + 1, n.len());
                assert(e@ =~= n@.skip(k + 1));
                Some(e)
            } else {
                None
            }
        },
        None => None,
    }
}

fn parent_of(p: &[char]) -> (r: Vec<char>)
    ensures
        r@ == parent_prefix(p@),
{
    match text::rfind_char(p, '/') {
        Some(i) => {
            let r = text::slice_vec(p, 0, i + 1);
            assert(r@ =~= p@.take(i + 1));
            r
        },
        None => Vec::new(),
    }
}

/// The file name of a new slide: the name itself when its extension is
/// `md` in any case, otherwise the name with `.md` added.
pub open spec fn new_slide_file_spec(name: Seq<char>) -> Seq<char> {
    match extension_spec(name) {
        Some(e) => if crate::package::ascii_lower(e) == md_ext().skip(1) {
            name
        } else {
            name + md_ext()
        },
        None => name + md_ext(),
    }
}

/// The file name of a new slide (see [`new_slide_file_spec`]).
pub fn new_slide_file(name: &str) -> (r: String)
    ensures
        r@ == new_slide_file_spec(name@),
{
    let n = text::chars_of(name);
    let md: Vec<char> = vec!['m', 'd'];
    assert(md@ =~= md_ext().skip(1));
    let keep = match extension_of(n.as_slice()) {
        Some(e) => {
            let l = crate::package::ascii_lower_chars(e.as_slice());
            text::eq_chars(l.as_slice(), md.as_slice())
        },
        None => false,
    };
    if keep {
        name.to_string()
    } else {
        let mut out = name.to_string();
        text::append(&mut out, ".md");
        proof {
            reveal_strlit(".md");
        }
        assert(".md"@ =~= md_ext());
        out
    }
}

/// Force a path's extension (`foo.pdf` becomes `foo.pptx`).
pub fn ensure_ext(path: &str, ext: &str) -> (r: String)
    ensures
        r@ == ensure_ext_spec(path@, ext@),
{
    let p = text::chars_of(path);
    let e = text::chars_of(ext);
    match extension_of(p.as_slice()) {
        Some(cur) => {
            if text::eq_chars(cur.as_slice(), e.as_slice()) {
                return path.to_string();
            }
        },
        None => {},
    }
    match slide::stem_of(path) {
        Some(stem) => {
            let mut out = parent_of(p.as_slice());
            text::push_str(&mut out, stem.as_str());
            if e.len() > 0 {
                out.push('.');
                text::push_all(&mut out, e.as_slice());
            }
            assert(out@ =~= ensure_ext_spec(path@, ext@));
            text::string_of(out.as_slice())
        },
        None => path.to_string(),
    }
}

/// `.lang` put before a path's extension (`foo.pdf` with `de` becomes
/// `foo.de.pdf`); the extension defaults to `pdf` and the stem to `export`.
pub open spec fn lang_suffix_spec(path: Seq<char>, lang: Seq<char>) -> Seq<char> {
    let ext = match extension_spec(path) {
        Some(e) => e,
        None => "pdf"@,
    };
    let stem = match slide::file_stem(path) {
        Some(s) => s,
        None => "export"@,
    };
    parent_prefix(path) + stem + seq!['.'] + lang + seq!['.'] + ext
}

/// Insert `.lang` before a path's extension (see [`lang_suffix_spec`]).
pub fn insert_lang_suffix(path: &str, lang: &str) -> (r: String)
    ensures
        r@ == lang_suffix_spec(path@, lang@),
{
    let p = text::chars_of(path);
    let ext = match extension_of(p.as_slice()) {
        Some(e) => e,
        None => text::chars_of("pdf"),
    };
    let stem = match slide::stem_of(path) {
        Some(s) => text::chars_of(s.as_str()),
        None => text::chars_of("export"),
    };
    let mut out = parent_of(p.as_slice());
    text::push_all(&mut out, stem.as_slice());
    out.push('.');
    text::push_str(&mut out, lang);
    out.push('.');
    text::push_all(&mut out, ext.as_slice());
    assert(out@ =~= lang_suffix_spec(path@, lang@));
    text::string_of(out.as_slice())
}

/// Resolved build parameters carried beside a bundle's sources.
#[derive(Debug, Clone)]
pub struct Manifest {
    pub sldr_version: String,
    pub playlist: String,
    /// Resolved flavor embed set; the first is active.
    pub flavors: Vec<String>,
    /// Resolved language embed set; empty means the deck default only.
    pub languages: Vec<String>,
    pub default_language: String,
}

/// Exit codes of the commands: success, partial failure, failure.
pub struct ExitCodes;

impl ExitCodes {
    pub const SUCCESS: u8 = 0;
    pub const PARTIAL_FAILURE: u8 = 1;
    pub const FAILURE: u8 = 1;
}

/// What the `zones` command is asked for.
pub struct ZonesArgs<'a> {
    pub slide: &'a str,
    /// Override of the slide's layout.
    pub layout: Option<&'a str>,
    /// Flavor to resolve chrome against; none means the configured default.
    pub flavor: Option<&'a str>,
    pub lang: Option<&'a str>,
    pub json: bool,
}

/// One file of a bundled flavor.
pub struct FlavorFile {
    pub name: &'static str,
    pub content: &'static str,
}

/// A bundled flavor: its directory name and its files.
pub struct BundledFlavor {
    pub slug: &'static str,
    pub files: &'static [FlavorFile],
}

/// One file of the bundled reference deck.
pub struct ReferenceFile {
    pub name: &'static str,
    pub content: &'static str,
}

/// A bundled slide scaffold.
pub struct Scaffold {
    pub name: &'static str,
    pub content: &'static str,
}

/// A bundled slide template.
pub struct Template {
    pub name: &'static str,
    pub content: &'static str,
}

/// Index of the first scaffold at or after `from` whose name is `name`.
pub open spec fn scaffold_index(sc: Seq<Scaffold>, name: Seq<char>, from: int) -> Option<int>
    decreases sc.len() - from,
{
    if from < 0 || from >= sc.len() {
        None
    } else if sc[from].name@ == name {
        Some(from)
    } else {
        scaffold_index(sc, name, from + 1)
    }
}

/// The bundled scaffold for `name`: the one named `<name>.md` (with `.md`
/// endings of `name` removed first).
pub fn find_scaffold<'a>(scaffolds: &'a [Scaffold], name: &str) -> (r: Option<&'a Scaffold>)
    ensures
        match scaffold_index(scaffolds@, text::trim_end_matches(name@, md_ext()) + md_ext(), 0) {
            Some(i) => r == Some(&scaffolds@[i]),
            None => r is None,
        },
{
    let n = text::chars_of(name);
    let md: Vec<char> = vec!['.', 'm', 'd'];
    assert(md@ =~= md_ext());
    let mut want = text::trim_end_matches_chars(n.as_slice(), md.as_slice());
    text::push_all(&mut want, md.as_slice());
    let ghost w = want@;
    assert(w == text::trim_end_matches(name@, md_ext()) + md_ext());
    let mut i: usize = 0;
    while i < scaffolds.len()
        invariant
            i <= scaffolds.len(),
            want@ == w,
            w == text::trim_end_matches(name@, md_ext()) + md_ext(),
            scaffold_index(scaffolds@, w, 0) == scaffold_index(scaffolds@, w, i as int),
        decreases scaffolds.len() - i,
    {
        let sn = text::chars_of(scaffolds[i].name);
        if text::eq_chars(sn.as_slice(), want.as_slice()) {
            assert(scaffolds@[i as int].name@ == w);
            assert(scaffold_index(scaffolds@, w, i as int) == Some(i as int));
            return Some(&scaffolds[i]);
        }
        i += 1;
    }
    None
}

/// Interchange policy: reject any reported loss (strict, the default) or
/// permit reported omissions and baking; conflicts always fail.
#[derive(Debug, Clone)]
pub struct Options {
    pub strict: bool,
    pub allow_lossy: bool,
    /// Where to write the fidelity report as JSON.
    pub report_json: Option<String>,
}

impl Default for Options {
    fn default() -> (o: Self)
        ensures
            !o.strict,
            !o.allow_lossy,
            o.report_json is None,
    {
        Options { strict: false, allow_lossy: false, report_json: None }
    }
}

/// Why a conversion failed: refused with its report, or invalid input
/// (with the error's text).
#[derive(Debug)]
pub enum ConversionError {
    Rejected(Rejected),
    Invalid(String),
}

pub const INVALID_INPUT_REMEDY: &'static str = "Resolve the invalid input: ";

/// The report a failure leaves: the refused report, or one conflicting
/// `invalid_input` finding for invalid input.
pub open spec fn failure_findings(e: ConversionError) -> Seq<crate::report::FindingView> {
    match e {
        ConversionError::Rejected(Rejected(r)) => crate::report::finding_views(r.findings@),
        ConversionError::Invalid(msg) => seq![
            crate::report::FindingView {
                slide: None,
                part: "package"@,
                element: "preflight"@,
                feature: "invalid_input"@,
                severity: crate::report::Severity::Error,
                disposition: Disposition::Conflicting,
                remedy: INVALID_INPUT_REMEDY@ + msg@,
            },
        ],
    }
}

impl Options {
    /// The report a failed conversion leaves (see [`failure_findings`]).
    pub fn failure_report(&self, error: &ConversionError) -> (r: Report)
        ensures
            crate::report::finding_views(r.findings@) == failure_findings(*error),
            error matches ConversionError::Invalid(_) ==> r.schema_version == 1,
            error matches ConversionError::Rejected(Rejected(rep)) ==> r.schema_version == rep.schema_version,
    {
        match error {
            ConversionError::Rejected(Rejected(rep)) => rep.duplicate(),
            ConversionError::Invalid(msg) => {
                let mut report = Report::default();
                let mut remedy = INVALID_INPUT_REMEDY.to_string();
                text::append(&mut remedy, msg.as_str());
                report.record(
                    None,
                    "package",
                    "preflight",
                    "invalid_input",
                    Disposition::Conflicting,
                    remedy.as_str(),
                );
                assert(crate::report::finding_views(report.findings@) =~= failure_findings(*error));
                report
            },
        }
    }

    /// A conversion's value, or its failure together with the report that
    /// must be published for it.
    pub fn diagnose<T>(&self, result: Result<T, ConversionError>) -> (r: Result<T, (Report, ConversionError)>)
        ensures
            match result {
                Ok(v) => r matches Ok(w) && w == v,
                Err(e) => r matches Err((rep, e2)) && e2 == e && crate::report::finding_views(rep.findings@)
                    == failure_findings(e),
            },
    {
        match result {
            Ok(v) => Ok(v),
            Err(e) => {
                let report = self.failure_report(&e);
                Err((report, e))
            },
        }
    }

    /// A converted value with its report when the policy accepts it;
    /// otherwise the failure with the report to publish. A conversion that
    /// succeeded is refused exactly when its report holds a conflict, or,
    /// unless lossy output is allowed, an omission or a baked feature.
    pub fn resolve<T>(&self, result: Result<Conversion<T>, ConversionError>) -> (r: Result<
        (T, Report),
        (Report, ConversionError),
    >)
        ensures
            match result {
                Ok(c) => {
                    &&& (r is Err <==> crate::report::report_blocked(c.report, self.allow_lossy))
                    &&& r matches Ok((v, rep)) ==> v == c.value && rep == c.report
                    &&& r matches Err((rep, e2)) ==> rep == c.report && (e2 matches ConversionError::Rejected(
                        Rejected(x),
                    ) && x.schema_version == c.report.schema_version && crate::report::finding_views(
                        x.findings@,
                    ) == crate::report::finding_views(c.report.findings@))
                },
                Err(e) => r matches Err((rep, e2)) && e2 == e && crate::report::finding_views(rep.findings@)
                    == failure_findings(e),
            },
    {
        match self.diagnose(result) {
            Ok(c) => match c.report.enforce(self.allow_lossy) {
                Ok(()) => Ok((c.value, c.report)),
                Err(rej) => Err((c.report, ConversionError::Rejected(rej))),
            },
            Err(f) => Err(f),
        }
    }
}

/// A path component that names something: not empty and not `.`.
pub open spec fn named_component(c: Seq<char>) -> bool {
    c.len() > 0 && c != seq!['.']
}

/// The pieces of `ps` that name something, in order.
pub open spec fn named_components(ps: Seq<Seq<char>>) -> Seq<Seq<char>>
    decreases ps.len(),
{
    if ps.len() == 0 {
        Seq::empty()
    } else if named_component(ps.last()) {
        named_components(ps.drop_last()).push(ps.last())
    } else {
        named_components(ps.drop_last())
    }
}

/// The components of the path `p`: its `/`-separated pieces, empty ones
/// and `.` left out.
pub open spec fn path_components(p: Seq<char>) -> Seq<Seq<char>> {
    named_components(crate::package::split_on(p, '/'))
}

/// A report written at `report` would overwrite or land inside
/// `destination` (both absolute and resolved): its components begin with
/// all of the destination's.
pub open spec fn report_inside_spec(report: Seq<char>, destination: Seq<char>) -> bool {
    let r = path_components(report);
    let d = path_components(destination);
    d.len() <= r.len() && r.take(d.len() as int) == d
}

pub(crate) fn components_of(p: &str) -> (r: Vec<Vec<char>>)
    ensures
        text::views(r@) == path_components(p@),
{
    let cs = text::chars_of(p);
    let pieces = crate::package::split_chars(cs.as_slice(), '/');
    let mut out: Vec<Vec<char>> = Vec::new();
    let mut i: usize = 0;
    while i < pieces.len()
        invariant
            i <= pieces.len(),
            text::views(pieces@) == crate::package::split_on(p@, '/'),
            text::views(out@) == named_components(text::views(pieces@).take(i as int)),
        decreases pieces.len() - i,
    {
        let ghost before = text::views(pieces@).take(i as int);
        let ghost after = text::views(pieces@).take(i as int + 1);
        assert(after.drop_last() =~= before);
        assert(after.last() == pieces@[i as int]@);
        let c = &pieces[i];
        let dot = c.len() == 1 && c[0] == '.';
        if c.len() > 0 && !dot {
            proof {
                if c@ == seq!['.'] {
                    assert(c@[0] == '.');
                }
            }
            let ghost vb = text::views(out@);
            out.push(text::slice_vec(c.as_slice(), 0, c.len()));
            assert(c@.subrange(0, c@.len() as int) =~= c@);
            assert(text::views(out@) =~= vb.push(c@));
        } else {
            proof {
                if c.len() == 1 {
                    assert(c@ =~= seq!['.']);
                }
            }
        }
        i += 1;
    }
    assert(text::views(pieces@).take(pieces.len() as int) =~= text::views(pieces@));
    out
}

/// Whether a report written at `report` would overwrite or land inside
/// `destination` (see [`report_inside_spec`]); the caller resolves both
/// paths to absolute ones first.
pub fn report_inside(report: &str, destination: &str) -> (b: bool)
    ensures
        b == report_inside_spec(report@, destination@),
{
    let r = components_of(report);
    let d = components_of(destination);
    if d.len() > r.len() {
        return false;
    }
    let mut i: usize = 0;
    while i < d.len()
        invariant
            d.len() <= r.len(),
            i <= d.len(),
            text::views(r@) == path_components(report@),
            text::views(d@) == path_components(destination@),
            forall|k: int| 0 <= k < i ==> r@[k]@ == d@[k]@,
        decreases d.len() - i,
    {
        if !text::eq_chars(r[i].as_slice(), d[i].as_slice()) {
            assert(text::views(r@)[i as int] == r@[i as int]@);
            assert(text::views(d@)[i as int] == d@[i as int]@);
            assert(text::views(r@).take(d.len() as int)[i as int] == r@[i as int]@);
            assert(text::views(r@).take(d.len() as int)[i as int] != text::views(d@)[i as int]);
            assert(text::views(r@).take(d.len() as int) != text::views(d@));
            assert(text::views(d@).len() == d.len());
            return false;
        }
        i += 1;
    }
    assert(text::views(r@).take(d.len() as int) =~= text::views(d@));
    true
}

/// How one skeleton reference resolves among the slide names: the name it
/// resolves to (the first of several), or none.
pub open spec fn reference_target(all: Seq<fuzzy::MatchView>) -> Option<Seq<char>> {
    match fuzzy::resolve_spec(all) {
        fuzzy::ResolveView::Found(m) => Some(m.0),
        fuzzy::ResolveView::Multiple(ms) => Some(ms[0].0),
        fuzzy::ResolveView::NotFound => None,
    }
}

/// The references of a skeleton that resolve, with their slide, and those
/// that do not, each in order.
pub open spec fn check_spec(refs: Seq<Seq<char>>, names: Seq<Seq<char>>, thr: i64, max: usize) -> (
    Seq<(Seq<char>, Seq<char>)>,
    Seq<Seq<char>>,
)
    decreases refs.len(),
{
    if refs.len() == 0 {
        (Seq::empty(), Seq::empty())
    } else {
        let (f, m) = check_spec(refs.drop_last(), names, thr, max);
        let rf = refs.last();
        match reference_target(fuzzy::find_all_spec(rf, names, thr, max)) {
            Some(t) => (f.push((rf, t)), m),
            None => (f, m.push(rf)),
        }
    }
}

/// Sort skeleton references into resolved (with the slide they resolve to)
/// and missing (see [`check_spec`]).
pub fn check_references(refs: &[String], names: &[String], matcher: &SldrMatcher) -> (r: (
    Vec<(String, String)>,
    Vec<String>,
))
    ensures
        ({
            let (f, m) = check_spec(
                text::string_views(refs@),
                text::string_views(names@),
                matcher.threshold(),
                matcher.max_suggestions(),
            );
            &&& r.0@.map_values(|p: (String, String)| (p.0@, p.1@)) == f
            &&& text::string_views(r.1@) == m
        }),
{
    let ghost rv = text::string_views(refs@);
    let ghost nv = text::string_views(names@);
    let mut found: Vec<(String, String)> = Vec::new();
    let mut missing: Vec<String> = Vec::new();
    let mut i: usize = 0;
    assert(rv.take(0) =~= Seq::<Seq<char>>::empty());
    assert(found@.map_values(|p: (String, String)| (p.0@, p.1@)) =~= Seq::<(Seq<char>, Seq<char>)>::empty());
    assert(text::string_views(missing@) =~= Seq::<Seq<char>>::empty());
    while i < refs.len()
        invariant
            i <= refs.len(),
            rv == text::string_views(refs@),
            nv == text::string_views(names@),
            ({
                let (f, m) = check_spec(rv.take(i as int), nv, matcher.threshold(), matcher.max_suggestions());
                &&& found@.map_values(|p: (String, String)| (p.0@, p.1@)) == f
                &&& text::string_views(missing@) == m
            }),
        decreases refs.len() - i,
    {
        assert(rv.take(i + 1).drop_last() =~= rv.take(i as int));
        assert(rv.take(i + 1).last() == refs@[i as int]@);
        let rf = &refs[i];
        let ghost fb = found@.map_values(|p: (String, String)| (p.0@, p.1@));
        let ghost mb = text::string_views(missing@);
        match matcher.resolve(rf.as_str(), names) {
            ResolveResult::Found(m) => {
                let pair = (rf.clone(), m.value);
                let ghost pv = (pair.0@, pair.1@);
                found.push(pair);
                assert(found@.map_values(|p: (String, String)| (p.0@, p.1@)) =~= fb.push(pv));
            },
            ResolveResult::Multiple(ms) => {
                let pair = (rf.clone(), ms[0].value.clone());
                let ghost pv = (pair.0@, pair.1@);
                found.push(pair);
                assert(found@.map_values(|p: (String, String)| (p.0@, p.1@)) =~= fb.push(pv));
            },
            ResolveResult::NotFound => {
                let c = rf.clone();
                let ghost cv = c@;
                missing.push(c);
                assert(text::string_views(missing@) =~= mb.push(cv));
            },
        }
        i += 1;
    }
    assert(rv.take(refs.len() as int) =~= rv);
    (found, missing)
}

} // verus!
