//! The rules of a native deck export: which zone fields a slide fills from
//! its resolved chrome and the segments of its body, which images can be
//! embedded as pictures, and the numbered names tried when a file exists.
//! Splitting a body into segments is the renderer's work; what it yields
//! reaches this module as [`Segments`].
use vstd::prelude::*;
use crate::cli::{extension_of, extension_spec, source_label, source_label_spec};
use crate::deck::ZoneContent;
use crate::package::{ascii_lower, ascii_lower_chars};
use crate::slide::{self, ResolvedChrome};
use crate::text;

verus! {

broadcast use vstd::string::group_string_axioms;

/// The segments of a slide body: an optional heading, the main content,
/// left and right columns, and an image block.
#[derive(Debug, Clone)]
pub struct Segments {
    pub heading: Option<String>,
    pub content: Option<String>,
    pub left: Option<String>,
    pub right: Option<String>,
    pub image: Option<String>,
}

/// A zone field as plain values: the zone name and its content.
pub enum FieldView {
    Text(Seq<char>, Seq<char>),
    Markdown(Seq<char>, Seq<char>),
    Picture(Seq<char>, Seq<u8>, Seq<char>, Option<(i64, i64)>),
}

pub open spec fn field_view(f: (String, ZoneContent)) -> FieldView {
    match f.1 {
        ZoneContent::Text(t) => FieldView::Text(f.0@, t@),
        ZoneContent::Markdown(m) => FieldView::Markdown(f.0@, m@),
        ZoneContent::Picture { bytes, ext, fit } => FieldView::Picture(f.0@, bytes@, ext@, fit),
    }
}

pub open spec fn field_views(v: Seq<(String, ZoneContent)>) -> Seq<FieldView> {
    v.map_values(|f: (String, ZoneContent)| field_view(f))
}

/// A text field when the value is set.
pub open spec fn text_field(zone: Seq<char>, v: Option<Seq<char>>) -> Seq<FieldView> {
    match v {
        Some(t) => seq![FieldView::Text(zone, t)],
        None => Seq::empty(),
    }
}

/// A markdown field when the value is set.
pub open spec fn markdown_field(zone: Seq<char>, v: Option<Seq<char>>) -> Seq<FieldView> {
    match v {
        Some(t) => seq![FieldView::Markdown(zone, t)],
        None => Seq::empty(),
    }
}

/// The source line: the localized label, the source, and its link in
/// parentheses when there is one.
pub open spec fn source_text(label: Seq<char>, src: Seq<char>, url: Option<Seq<char>>) -> Seq<char> {
    match url {
        Some(u) => label + " "@ + src + " ("@ + u + ")"@,
        None => label + " "@ + src,
    }
}

/// The fields of a slide, in order: headline, subheadline, footer (the
/// slide's, else the flavor's), source, heading, content, left, right, and
/// the image when it could be embedded.
pub open spec fn slide_fields_spec(
    chrome: ResolvedChrome,
    flavor_footer: Option<Seq<char>>,
    lang: Option<Seq<char>>,
    default_lang: Seq<char>,
    segments: Segments,
    picture: Option<(Seq<u8>, Seq<char>, Option<(i64, i64)>)>,
) -> Seq<FieldView> {
    let footer = match chrome.footer {
        Some(f) => Some(f@),
        None => flavor_footer,
    };
    let source = match chrome.source {
        Some(s) => seq![FieldView::Text("source"@, source_text(source_label_spec(lang, default_lang), s@, text::opt_seq(chrome.source_url)))],
        None => Seq::empty(),
    };
    let image = match picture {
        Some((b, e, fit)) => seq![FieldView::Picture("image"@, b, e, fit)],
        None => Seq::empty(),
    };
    text_field("headline"@, text::opt_seq(chrome.title)) + text_field("subheadline"@, text::opt_seq(chrome.subtitle))
        + text_field("footer"@, footer) + source + markdown_field("heading"@, text::opt_seq(segments.heading))
        + markdown_field("content"@, text::opt_seq(segments.content)) + markdown_field("left"@, text::opt_seq(segments.left))
        + markdown_field("right"@, text::opt_seq(segments.right)) + image
}

fn push_text(fields: &mut Vec<(String, ZoneContent)>, zone: &str, v: &Option<String>)
    ensures
        field_views(final(fields)@) == field_views(old(fields)@) + text_field(zone@, text::opt_seq(*v)),
{
    let ghost before = field_views(fields@);
    if let Some(t) = v {
        fields.push((zone.to_string(), ZoneContent::Text(t.clone())));
    }
    assert(field_views(fields@) =~= before + text_field(zone@, text::opt_seq(*v)));
}

fn push_markdown(fields: &mut Vec<(String, ZoneContent)>, zone: &str, v: &Option<String>)
    ensures
        field_views(final(fields)@) == field_views(old(fields)@) + markdown_field(zone@, text::opt_seq(*v)),
{
    let ghost before = field_views(fields@);
    if let Some(t) = v {
        fields.push((zone.to_string(), ZoneContent::Markdown(t.clone())));
    }
    assert(field_views(fields@) =~= before + markdown_field(zone@, text::opt_seq(*v)));
}

/// The zone fields of one slide of a native deck (see
/// [`slide_fields_spec`]). `picture` is the slide's image, already read
/// and judged embeddable (see [`picture_ext`]), with its fitted extent.
pub fn slide_fields(
    chrome: &ResolvedChrome,
    flavor_footer: &Option<String>,
    lang: Option<&str>,
    default_lang: &str,
    segments: &Segments,
    picture: Option<(Vec<u8>, String, Option<(i64, i64)>)>,
) -> (r: Vec<(String, ZoneContent)>)
    ensures
        field_views(r@) == slide_fields_spec(
            *chrome,
            text::opt_seq(*flavor_footer),
            slide::opt_str(lang),
            default_lang@,
            *segments,
            match picture {
                Some((b, e, fit)) => Some((b@, e@, fit)),
                None => None,
            },
        ),
{
    let mut fields: Vec<(String, ZoneContent)> = Vec::new();
    assert(field_views(fields@) =~= Seq::<FieldView>::empty());
    push_text(&mut fields, "headline", &chrome.title);
    push_text(&mut fields, "subheadline", &chrome.subtitle);
    let footer = match &chrome.footer {
        Some(f) => Some(f.clone()),
        None => text::clone_opt(flavor_footer),
    };
    push_text(&mut fields, "footer", &footer);
    let ghost g = field_views(fields@);
    if let Some(src) = &chrome.source {
        let label = source_label(lang, default_lang);
        let mut t = String::new();
        text::append(&mut t, label);
        text::append(&mut t, " ");
        text::append(&mut t, src.as_str());
        if let Some(u) = &chrome.source_url {
            text::append(&mut t, " (");
            text::append(&mut t, u.as_str());
            text::append(&mut t, ")");
        }
        let ghost tv = t@;
        fields.push(("source".to_string(), ZoneContent::Text(t)));
        assert(field_views(fields@) =~= g.push(FieldView::Text("source"@, tv)));
    }
    push_markdown(&mut fields, "heading", &segments.heading);
    push_markdown(&mut fields, "content", &segments.content);
    push_markdown(&mut fields, "left", &segments.left);
    push_markdown(&mut fields, "right", &segments.right);
    let ghost h = field_views(fields@);
    match picture {
        Some((bytes, ext, fit)) => {
            let ghost bv = bytes@;
            let ghost ev = ext@;
            fields.push(("image".to_string(), ZoneContent::Picture { bytes, ext, fit }));
            assert(field_views(fields@) =~= h + seq![FieldView::Picture("image"@, bv, ev, fit)]);
        },
        None => {
            assert(field_views(fields@) =~= h);
        },
    }
    fields
}

/// The media extension an image source embeds with: none for remote
/// (`http://`, `https://`) and inline (`data:`) sources; else its file
/// extension in ASCII lower case, `png`, `gif` and `jpeg` as they are and
/// `jpg` as `jpeg`; none for any other.
pub open spec fn picture_ext_spec(src: Seq<char>) -> Option<Seq<char>> {
    if text::starts_with(src, "http://"@) || text::starts_with(src, "https://"@) || text::starts_with(src, "data:"@) {
        None
    } else {
        match extension_spec(src) {
            Some(e) => {
                let l = ascii_lower(e);
                if l == "png"@ || l == "gif"@ || l == "jpeg"@ {
                    Some(l)
                } else if l == "jpg"@ {
                    Some("jpeg"@)
                } else {
                    None
                }
            },
            None => None,
        }
    }
}

fn is(s: &[char], lit: &str) -> (b: bool)
    ensures
        b == (s@ == lit@),
{
    let c = text::chars_of(lit);
    text::eq_chars(s, c.as_slice())
}

/// The media extension an image source embeds with (see
/// [`picture_ext_spec`]).
pub fn picture_ext(src: &str) -> (r: Option<String>)
    ensures
        text::opt_seq(r) == picture_ext_spec(src@),
{
    let s = text::chars_of(src);
    let http = text::chars_of("http://");
    let https = text::chars_of("https://");
    let data = text::chars_of("data:");
    if text::starts_with_chars(s.as_slice(), http.as_slice()) || text::starts_with_chars(s.as_slice(), https.as_slice())
        || text::starts_with_chars(s.as_slice(), data.as_slice()) {
        return None;
    }
    match extension_of(s.as_slice()) {
        Some(e) => {
            let l = ascii_lower_chars(e.as_slice());
            if is(l.as_slice(), "png") || is(l.as_slice(), "gif") || is(l.as_slice(), "jpeg") {
                Some(text::string_of(l.as_slice()))
            } else if is(l.as_slice(), "jpg") {
                Some("jpeg".to_string())
            } else {
                None
            }
        },
        None => None,
    }
}

/// The `n`th alternative to a taken file name: `-<n>` before its last
/// `.` (or at its end when it has none).
pub open spec fn numbered_name_spec(filename: Seq<char>, n: nat) -> Seq<char> {
    match text::rfind(filename, seq!['.']) {
        Some(i) => filename.take(i) + "-"@ + text::decimal(n) + filename.skip(i),
        None => filename + "-"@ + text::decimal(n),
    }
}

/// The `n`th alternative name tried when `filename` is taken (see
/// [`numbered_name_spec`]).
pub fn numbered_name(filename: &str, n: u64) -> (r: String)
    ensures
        r@ == numbered_name_spec(filename@, n as nat),
{
    let s = text::chars_of(filename);
    let mut out = String::new();
    match text::rfind_char(s.as_slice(), '.') {
        Some(i) => {
            let stem = text::slice_vec(s.as_slice(), 0, i);
            let ext = text::slice_vec(s.as_slice(), i, s.len());
            let st = text::string_of(stem.as_slice());
            let et = text::string_of(ext.as_slice());
            assert(stem@ =~= s@.take(i as int));
            assert(ext@ =~= s@.skip(i as int));
            text::append(&mut out, st.as_str());
            text::append(&mut out, "-");
            text::append_decimal(&mut out, n);
            text::append(&mut out, et.as_str());
        },
        None => {
            text::append(&mut out, filename);
            text::append(&mut out, "-");
            text::append_decimal(&mut out, n);
        },
    }
    out
}

} // verus!
