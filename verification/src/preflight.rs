//! Export accounting at the zone/content boundary: before a deck is written,
//! every layout, zone and field of every slide is checked for what the
//! native writer cannot project, and each such thing becomes a finding.
//! Markdown is tokenized by pulldown-cmark (every extension on); which of
//! its events have no native text mapping is this module's own rule.
use vstd::prelude::*;
use crate::deck::{LayoutDef, SlideInput, Zone, ZoneContent, ZoneRep};
use crate::report::{finding_views, severity_of, Disposition, FindingView, Report};
use crate::text;
use pulldown_cmark::{Event, Options, Parser, Tag};

verus! {

broadcast use vstd::string::group_string_axioms;

pub const ZONES_REMEDY: &'static str = "Annotate this layout with zones or use --flatten";
pub const LAYOUT_CSS_REMEDY: &'static str = "Native zones do not project custom layout CSS; use explicit lossy/flatten policy";
pub const DUPLICATE_ZONE_REMEDY: &'static str = "Give each zone a unique name";
pub const GEOMETRY_REMEDY: &'static str = "Use finite positive geometry inside the slide";
pub const REP_REMEDY: &'static str = "Native shape/region baking is not implemented for this zone";
pub const DUPLICATE_FIELD_REMEDY: &'static str = "Resolve duplicate field ownership";
pub const UNMAPPED_REMEDY: &'static str = "Declare a compatible zone; this field would be omitted";
pub const IMAGE_REMEDY: &'static str = "Supply nonempty supported image bytes and extension";
pub const CONTENT_REMEDY: &'static str = "Editable text or positioned image; font metrics and line wrapping depend on the editor";
pub const MARKDOWN_REMEDY: &'static str = "Only paragraphs, unordered bullets, emphasis and inline code have native text mappings";

/// The markdown events the accounting tells apart.
#[derive(Debug, Clone, Copy, PartialEq, Eq, Structural)]
pub enum MdMark {
    Image,
    Link,
    Heading,
    CodeBlock,
    OrderedList,
    Table,
    BlockQuote,
    Strikethrough,
    FootnoteDefinition,
    FootnoteReference,
    Html,
    InlineHtml,
    InlineMath,
    DisplayMath,
    TaskListMarker,
    Rule,
    HardBreak,
    Other,
}

/// Name for the events pulldown-cmark's `Parser::new_ext` yields for
/// `markdown` with every extension on, walked with their source offsets:
/// each event classified (the start of an image, link, heading, code block,
/// ordered list, table, block quote, strikethrough or footnote definition;
/// a footnote reference, block or inline HTML, inline or display math, a
/// task-list marker, a rule, a hard break; `Other` for anything else) with
/// the byte offset where it starts.
pub uninterp spec fn md_marks(markdown: Seq<char>) -> Seq<(MdMark, usize)>;

/// The start-tag part of a mark (`Other` for the rest).
pub open spec fn start_mark(m: MdMark) -> MdMark {
    match m {
        MdMark::Image | MdMark::Link | MdMark::Heading | MdMark::CodeBlock | MdMark::OrderedList
        | MdMark::Table | MdMark::BlockQuote | MdMark::Strikethrough | MdMark::FootnoteDefinition => m,
        _ => MdMark::Other,
    }
}

/// The non-start part of a mark (`Other` for the rest).
pub open spec fn event_mark(m: MdMark) -> MdMark {
    match m {
        MdMark::FootnoteReference | MdMark::Html | MdMark::InlineHtml | MdMark::InlineMath
        | MdMark::DisplayMath | MdMark::TaskListMarker | MdMark::Rule | MdMark::HardBreak => m,
        _ => MdMark::Other,
    }
}

/// For each event of `markdown` (see [`md_marks`]), its start-tag mark
/// (`Other` unless it starts one of the containers told apart).
#[verifier::external_body]
fn md_start_marks(markdown: &str) -> (r: Vec<MdMark>)
    ensures
        r@ == md_marks(markdown@).map_values(|m: (MdMark, usize)| start_mark(m.0)),
{
    Parser::new_ext(markdown, Options::all()).into_offset_iter().map(|(e, _)| match e {
        Event::Start(Tag::Image { .. }) => MdMark::Image,
        Event::Start(Tag::Link { .. }) => MdMark::Link,
        Event::Start(Tag::Heading { .. }) => MdMark::Heading,
        Event::Start(Tag::CodeBlock(_)) => MdMark::CodeBlock,
        Event::Start(Tag::List(Some(_))) => MdMark::OrderedList,
        Event::Start(Tag::Table(_)) => MdMark::Table,
        Event::Start(Tag::BlockQuote(_)) => MdMark::BlockQuote,
        Event::Start(Tag::Strikethrough) => MdMark::Strikethrough,
        Event::Start(Tag::FootnoteDefinition(_)) => MdMark::FootnoteDefinition,
        _ => MdMark::Other,
    }).collect()
}

/// For each event of `markdown` (see [`md_marks`]), its mark if it is one
/// of the other events told apart (`Other` if not).
#[verifier::external_body]
fn md_event_marks(markdown: &str) -> (r: Vec<MdMark>)
    ensures
        r@ == md_marks(markdown@).map_values(|m: (MdMark, usize)| event_mark(m.0)),
{
    Parser::new_ext(markdown, Options::all()).into_offset_iter().map(|(e, _)| match e {
        Event::FootnoteReference(_) => MdMark::FootnoteReference,
        Event::Html(_) => MdMark::Html,
        Event::InlineHtml(_) => MdMark::InlineHtml,
        Event::InlineMath(_) => MdMark::InlineMath,
        Event::DisplayMath(_) => MdMark::DisplayMath,
        Event::TaskListMarker(_) => MdMark::TaskListMarker,
        Event::Rule => MdMark::Rule,
        Event::HardBreak => MdMark::HardBreak,
        _ => MdMark::Other,
    }).collect()
}

/// For each event of `markdown` (see [`md_marks`]), the byte offset where
/// it starts.
#[verifier::external_body]
fn md_offsets(markdown: &str) -> (r: Vec<usize>)
    ensures
        r@ == md_marks(markdown@).map_values(|m: (MdMark, usize)| m.1),
{
    Parser::new_ext(markdown, Options::all()).into_offset_iter().map(|(_, range)| range.start).collect()
}

/// The feature an event has that the native writer cannot map; none for
/// the events it maps.
pub open spec fn mark_feature(m: MdMark) -> Option<Seq<char>> {
    match m {
        MdMark::Image => Some("inline_image"@),
        MdMark::Link => Some("hyperlink"@),
        MdMark::Heading => Some("heading_depth_collapsed"@),
        MdMark::CodeBlock => Some("code_block_structure"@),
        MdMark::OrderedList => Some("ordered_list_numbering"@),
        MdMark::Table => Some("table"@),
        MdMark::BlockQuote => Some("blockquote"@),
        MdMark::Strikethrough => Some("strikethrough"@),
        MdMark::FootnoteDefinition | MdMark::FootnoteReference => Some("footnote"@),
        MdMark::Html | MdMark::InlineHtml => Some("html"@),
        MdMark::InlineMath | MdMark::DisplayMath => Some("math"@),
        MdMark::TaskListMarker => Some("task_list"@),
        MdMark::Rule => Some("horizontal_rule"@),
        MdMark::HardBreak => Some("hard_line_break"@),
        MdMark::Other => None,
    }
}

fn feature_of(m: MdMark) -> (r: Option<&'static str>)
    ensures
        match r {
            Some(f) => mark_feature(m) == Some(f@),
            None => mark_feature(m) is None,
        },
{
    match m {
        MdMark::Image => Some("inline_image"),
        MdMark::Link => Some("hyperlink"),
        MdMark::Heading => Some("heading_depth_collapsed"),
        MdMark::CodeBlock => Some("code_block_structure"),
        MdMark::OrderedList => Some("ordered_list_numbering"),
        MdMark::Table => Some("table"),
        MdMark::BlockQuote => Some("blockquote"),
        MdMark::Strikethrough => Some("strikethrough"),
        MdMark::FootnoteDefinition | MdMark::FootnoteReference => Some("footnote"),
        MdMark::Html | MdMark::InlineHtml => Some("html"),
        MdMark::InlineMath | MdMark::DisplayMath => Some("math"),
        MdMark::TaskListMarker => Some("task_list"),
        MdMark::Rule => Some("horizontal_rule"),
        MdMark::HardBreak => Some("hard_line_break"),
        MdMark::Other => None,
    }
}

/// A finding located in a slide part.
pub open spec fn at(part: Seq<char>, element: Seq<char>, feature: Seq<char>, d: Disposition, remedy: Seq<char>) -> FindingView {
    FindingView { slide: Some(part), part, element, feature, severity: severity_of(d), disposition: d, remedy }
}

/// The findings of the first `k` events of a markdown field: one per event
/// without a native mapping, located at `<zone>@<offset>`.
pub open spec fn md_findings(part: Seq<char>, zone: Seq<char>, marks: Seq<(MdMark, usize)>, k: int) -> Seq<FindingView>
    decreases k,
{
    if k <= 0 {
        Seq::empty()
    } else {
        md_findings(part, zone, marks, k - 1) + match mark_feature(marks[k - 1].0) {
            Some(f) => seq![at(part, zone + "@"@ + text::decimal(marks[k - 1].1 as nat), f, Disposition::Unsupported, MARKDOWN_REMEDY@)],
            None => Seq::empty(),
        }
    }
}

/// The findings of a markdown field.
pub open spec fn markdown_spec(md: Seq<char>, part: Seq<char>, zone: Seq<char>) -> Seq<FindingView> {
    md_findings(part, zone, md_marks(md), md_marks(md).len() as int)
}

/// Record what a markdown field holds that has no native text mapping.
fn markdown(md: &str, part: &str, zone: &str, report: &mut Report)
    ensures
        final(report).schema_version == old(report).schema_version,
        finding_views(final(report).findings@) == finding_views(old(report).findings@) + markdown_spec(md@, part@, zone@),
{
    let starts = md_start_marks(md);
    let events = md_event_marks(md);
    let offsets = md_offsets(md);
    let ghost marks = md_marks(md@);
    let ghost before = finding_views(report.findings@);
    let mut i: usize = 0;
    while i < starts.len()
        invariant
            i <= starts.len(),
            events.len() == starts.len(),
            offsets.len() == starts.len(),
            marks == md_marks(md@),
            starts@ == marks.map_values(|m: (MdMark, usize)| start_mark(m.0)),
            events@ == marks.map_values(|m: (MdMark, usize)| event_mark(m.0)),
            offsets@ == marks.map_values(|m: (MdMark, usize)| m.1),
            report.schema_version == old(report).schema_version,
            finding_views(report.findings@) == before + md_findings(part@, zone@, marks, i as int),
        decreases starts.len() - i,
    {
        let m = match starts[i] {
            MdMark::Other => events[i],
            m => m,
        };
        assert(m == marks[i as int].0) by {
            assert(starts@[i as int] == start_mark(marks[i as int].0));
            assert(events@[i as int] == event_mark(marks[i as int].0));
        }
        assert(offsets@[i as int] == marks[i as int].1);
        let ghost prev = finding_views(report.findings@);
        match feature_of(m) {
            Some(f) => {
                let mut element = String::new();
                text::append(&mut element, zone);
                text::append(&mut element, "@");
                text::append_decimal(&mut element, offsets[i] as u64);
                report.record(Some(part), part, element.as_str(), f, Disposition::Unsupported, MARKDOWN_REMEDY);
                assert(finding_views(report.findings@) =~= before + md_findings(part@, zone@, marks, i + 1));
            },
            None => {
                assert(finding_views(report.findings@) =~= before + md_findings(part@, zone@, marks, i + 1));
            },
        }
        i += 1;
    }
    assert(marks.len() == starts.len());
}

/// The slide part of the slide at index `i`.
pub open spec fn part_of(i: nat) -> Seq<char> {
    "ppt/slides/slide"@ + text::decimal(i + 1) + ".xml"@
}

/// The feature token of a representation the native writer cannot build.
pub open spec fn rep_token(r: ZoneRep) -> Option<Seq<char>> {
    match r {
        ZoneRep::Shape => Some("shape"@),
        ZoneRep::Bake => Some("bake"@),
        _ => None,
    }
}

/// Whether a zone before index `j` has the name of zone `j`.
pub open spec fn zone_named_before(zones: Seq<Zone>, j: int) -> bool {
    exists|k: int| 0 <= k < j && #[trigger] zones[k].name@ == zones[j].name@
}

/// The findings of one zone: a repeated name, a box that is not valid, a
/// representation the native writer cannot build.
pub open spec fn zone_spec(part: Seq<char>, zones: Seq<Zone>, j: int) -> Seq<FindingView> {
    let z = zones[j];
    let dup = if zone_named_before(zones, j) {
        seq![at(part, z.name@, "duplicate_zone"@, Disposition::Conflicting, DUPLICATE_ZONE_REMEDY@)]
    } else {
        Seq::empty()
    };
    let geo = if !z.geometry_valid {
        seq![at(part, z.name@, "invalid_geometry"@, Disposition::Conflicting, GEOMETRY_REMEDY@)]
    } else {
        Seq::empty()
    };
    let rep = match rep_token(z.rep) {
        Some(t) => seq![at(part, z.name@, t, Disposition::Unsupported, REP_REMEDY@)],
        None => Seq::empty(),
    };
    dup + geo + rep
}

/// The findings of the first `k` zones.
pub open spec fn zones_spec(part: Seq<char>, zones: Seq<Zone>, k: int) -> Seq<FindingView>
    decreases k,
{
    if k <= 0 {
        Seq::empty()
    } else {
        zones_spec(part, zones, k - 1) + zone_spec(part, zones, k - 1)
    }
}

/// The index of the first zone named `name`.
pub open spec fn first_zone(zones: Seq<Zone>, name: Seq<char>, from: int) -> Option<int>
    decreases zones.len() - from,
{
    if from < 0 || from >= zones.len() {
        None
    } else if zones[from].name@ == name {
        Some(from)
    } else {
        first_zone(zones, name, from + 1)
    }
}

/// Whether a field can be placed: its zone exists and takes a picture
/// (any zone does) or is a text placeholder with a placeholder type.
pub open spec fn field_supported(zones: Seq<Zone>, name: Seq<char>, c: ZoneContent) -> bool {
    match first_zone(zones, name, 0) {
        Some(k) => match c {
            ZoneContent::Picture { .. } => true,
            _ => zones[k].rep == ZoneRep::PlaceholderText && zones[k].ph is Some,
        },
        None => false,
    }
}

/// The image extensions the native writer embeds.
pub open spec fn image_ext_ok(ext: Seq<char>) -> bool {
    ext == "png"@ || ext == "jpeg"@ || ext == "jpg"@ || ext == "gif"@
}

/// Whether a field before index `j` has the name of field `j`.
pub open spec fn field_named_before(fields: Seq<(String, ZoneContent)>, j: int) -> bool {
    exists|k: int| 0 <= k < j && #[trigger] fields[k].0@ == fields[j].0@
}

/// The findings of one field: a repeated name; then either that it cannot
/// be placed, or what its content loses (markdown without native mapping,
/// an image that is empty or of another kind) and that it was converted.
pub open spec fn field_spec(part: Seq<char>, zones: Seq<Zone>, fields: Seq<(String, ZoneContent)>, j: int) -> Seq<FindingView> {
    let name = fields[j].0@;
    let c = fields[j].1;
    let dup = if field_named_before(fields, j) {
        seq![at(part, name, "duplicate_field"@, Disposition::Conflicting, DUPLICATE_FIELD_REMEDY@)]
    } else {
        Seq::empty()
    };
    if !field_supported(zones, name, c) {
        dup + seq![at(part, name, "unmapped_field"@, Disposition::Unsupported, UNMAPPED_REMEDY@)]
    } else {
        let content = match c {
            ZoneContent::Markdown(md) => markdown_spec(md@, part, name),
            ZoneContent::Picture { bytes, ext, .. } => if bytes@.len() == 0 || !image_ext_ok(ext@) {
                seq![at(part, name, "invalid_image"@, Disposition::Conflicting, IMAGE_REMEDY@)]
            } else {
                Seq::empty()
            },
            ZoneContent::Text(_) => Seq::empty(),
        };
        dup + content + seq![at(part, name, "zone_content"@, Disposition::Converted, CONTENT_REMEDY@)]
    }
}

/// The findings of the first `k` fields.
pub open spec fn fields_spec(part: Seq<char>, zones: Seq<Zone>, fields: Seq<(String, ZoneContent)>, k: int) -> Seq<FindingView>
    decreases k,
{
    if k <= 0 {
        Seq::empty()
    } else {
        fields_spec(part, zones, fields, k - 1) + field_spec(part, zones, fields, k - 1)
    }
}

/// The findings of one slide: a layout without zones, custom layout CSS
/// that is not blank, then its zones and its fields.
pub open spec fn slide_spec(part: Seq<char>, layout: LayoutDef, fields: Seq<(String, ZoneContent)>) -> Seq<FindingView> {
    let zones = layout.zones@;
    let empty = if zones.len() == 0 {
        seq![at(part, layout.name@, "missing_zones"@, Disposition::Unsupported, ZONES_REMEDY@)]
    } else {
        Seq::empty()
    };
    let css = match layout.css {
        Some(c) => if text::trim(c@).len() > 0 {
            seq![at(part, "layout"@, "custom_css"@, Disposition::Unsupported, LAYOUT_CSS_REMEDY@)]
        } else {
            Seq::empty()
        },
        None => Seq::empty(),
    };
    empty + css + zones_spec(part, zones, zones.len() as int) + fields_spec(part, zones, fields, fields.len() as int)
}

/// The findings of the first `k` slides.
pub open spec fn deck_spec(slides: Seq<SlideInput>, k: int) -> Seq<FindingView>
    decreases k,
{
    if k <= 0 {
        Seq::empty()
    } else {
        deck_spec(slides, k - 1) + slide_spec(part_of((k - 1) as nat), *slides[k - 1].layout, slides[k - 1].fields@)
    }
}

fn same(a: &str, b: &str) -> (r: bool)
    ensures
        r == (a@ == b@),
{
    let x = text::chars_of(a);
    let y = text::chars_of(b);
    text::eq_chars(x.as_slice(), y.as_slice())
}

fn zone_named_earlier(zones: &Vec<Zone>, j: usize) -> (r: bool)
    requires
        j < zones@.len(),
    ensures
        r == zone_named_before(zones@, j as int),
{
    let mut k: usize = 0;
    while k < j
        invariant
            k <= j < zones@.len(),
            forall|m: int| 0 <= m < k ==> zones@[m].name@ != zones@[j as int].name@,
        decreases j - k,
    {
        if same(zones[k].name.as_str(), zones[j].name.as_str()) {
            return true;
        }
        k += 1;
    }
    false
}

fn field_named_earlier(fields: &Vec<(String, ZoneContent)>, j: usize) -> (r: bool)
    requires
        j < fields@.len(),
    ensures
        r == field_named_before(fields@, j as int),
{
    let mut k: usize = 0;
    while k < j
        invariant
            k <= j < fields@.len(),
            forall|m: int| 0 <= m < k ==> fields@[m].0@ != fields@[j as int].0@,
        decreases j - k,
    {
        if same(fields[k].0.as_str(), fields[j].0.as_str()) {
            return true;
        }
        k += 1;
    }
    false
}

fn find_zone(zones: &Vec<Zone>, name: &str) -> (r: Option<usize>)
    ensures
        match r {
            Some(k) => first_zone(zones@, name@, 0) == Some(k as int) && k < zones@.len() && zones@[k as int].name@ == name@,
            None => first_zone(zones@, name@, 0) is None,
        },
{
    let mut k: usize = 0;
    while k < zones.len()
        invariant
            k <= zones@.len(),
            first_zone(zones@, name@, 0) == first_zone(zones@, name@, k as int),
        decreases zones@.len() - k,
    {
        if same(zones[k].name.as_str(), name) {
            return Some(k);
        }
        k += 1;
    }
    None
}

fn zone_checks(part: &str, zones: &Vec<Zone>, report: &mut Report)
    ensures
        final(report).schema_version == old(report).schema_version,
        finding_views(final(report).findings@) == finding_views(old(report).findings@) + zones_spec(part@, zones@, zones@.len() as int),
{
    let ghost before = finding_views(report.findings@);
    let mut j: usize = 0;
    while j < zones.len()
        invariant
            j <= zones@.len(),
            report.schema_version == old(report).schema_version,
            finding_views(report.findings@) == before + zones_spec(part@, zones@, j as int),
        decreases zones@.len() - j,
    {
        let z = &zones[j];
        let ghost g0 = finding_views(report.findings@);
        if zone_named_earlier(zones, j) {
            report.record(Some(part), part, z.name.as_str(), "duplicate_zone", Disposition::Conflicting, DUPLICATE_ZONE_REMEDY);
        }
        if !z.geometry_valid {
            report.record(Some(part), part, z.name.as_str(), "invalid_geometry", Disposition::Conflicting, GEOMETRY_REMEDY);
        }
        match z.rep {
            ZoneRep::Shape => {
                report.record(Some(part), part, z.name.as_str(), "shape", Disposition::Unsupported, REP_REMEDY);
            },
            ZoneRep::Bake => {
                report.record(Some(part), part, z.name.as_str(), "bake", Disposition::Unsupported, REP_REMEDY);
            },
            _ => {},
        }
        assert(finding_views(report.findings@) =~= g0 + zone_spec(part@, zones@, j as int));
        j += 1;
    }
}

fn image_ext_supported(ext: &str) -> (r: bool)
    ensures
        r == image_ext_ok(ext@),
{
    same(ext, "png") || same(ext, "jpeg") || same(ext, "jpg") || same(ext, "gif")
}

fn field_check(part: &str, zones: &Vec<Zone>, fields: &Vec<(String, ZoneContent)>, j: usize, report: &mut Report)
    requires
        j < fields@.len(),
    ensures
        final(report).schema_version == old(report).schema_version,
        finding_views(final(report).findings@) == finding_views(old(report).findings@) + field_spec(part@, zones@, fields@, j as int),
{
    let ghost g0 = finding_views(report.findings@);
    let name = fields[j].0.as_str();
    let content = &fields[j].1;
    if field_named_earlier(fields, j) {
        report.record(Some(part), part, name, "duplicate_field", Disposition::Conflicting, DUPLICATE_FIELD_REMEDY);
    }
    let ghost g1 = finding_views(report.findings@);
    let supported = match find_zone(zones, name) {
        Some(k) => match content {
            ZoneContent::Picture { .. } => true,
            _ => zones[k].rep == ZoneRep::PlaceholderText && zones[k].ph.is_some(),
        },
        None => false,
    };
    if !supported {
        report.record(Some(part), part, name, "unmapped_field", Disposition::Unsupported, UNMAPPED_REMEDY);
        assert(finding_views(report.findings@) =~= g0 + field_spec(part@, zones@, fields@, j as int));
        return;
    }
    match content {
        ZoneContent::Markdown(md) => {
            markdown(md.as_str(), part, name, report);
        },
        ZoneContent::Picture { bytes, ext, .. } => {
            if bytes.len() == 0 || !image_ext_supported(ext.as_str()) {
                report.record(Some(part), part, name, "invalid_image", Disposition::Conflicting, IMAGE_REMEDY);
            }
        },
        ZoneContent::Text(_) => {},
    }
    let ghost g2 = finding_views(report.findings@);
    report.record(Some(part), part, name, "zone_content", Disposition::Converted, CONTENT_REMEDY);
    assert(finding_views(report.findings@) =~= g0 + field_spec(part@, zones@, fields@, j as int));
}

fn slide_checks(part: &str, layout: &LayoutDef, fields: &Vec<(String, ZoneContent)>, report: &mut Report)
    ensures
        final(report).schema_version == old(report).schema_version,
        finding_views(final(report).findings@) == finding_views(old(report).findings@) + slide_spec(part@, *layout, fields@),
{
    let ghost g0 = finding_views(report.findings@);
    if layout.zones.len() == 0 {
        report.record(Some(part), part, layout.name.as_str(), "missing_zones", Disposition::Unsupported, ZONES_REMEDY);
    }
    if let Some(css) = &layout.css {
        let cs = text::chars_of(css.as_str());
        let t = text::trim_chars(cs.as_slice());
        if t.len() > 0 {
            report.record(Some(part), part, "layout", "custom_css", Disposition::Unsupported, LAYOUT_CSS_REMEDY);
        }
    }
    let ghost g1 = finding_views(report.findings@);
    zone_checks(part, &layout.zones, report);
    let ghost g2 = finding_views(report.findings@);
    let mut j: usize = 0;
    while j < fields.len()
        invariant
            j <= fields@.len(),
            report.schema_version == old(report).schema_version,
            finding_views(report.findings@) == g2 + fields_spec(part@, layout.zones@, fields@, j as int),
        decreases fields@.len() - j,
    {
        field_check(part, &layout.zones, fields, j, report);
        j += 1;
    }
    assert(finding_views(report.findings@) =~= g0 + slide_spec(part@, *layout, fields@));
}

/// The accounting of a deck before it is written: for each slide (part
/// `ppt/slides/slide<n>.xml`), in order, what [`slide_spec`] lists.
pub fn deck(slides: &[SlideInput]) -> (r: Report)
    ensures
        r.schema_version == 1,
        finding_views(r.findings@) == deck_spec(slides@, slides@.len() as int),
{
    let mut report = Report::default();
    assert(finding_views(report.findings@) =~= Seq::<FindingView>::empty());
    let mut i: usize = 0;
    while i < slides.len()
        invariant
            i <= slides@.len(),
            report.schema_version == 1,
            finding_views(report.findings@) == deck_spec(slides@, i as int),
        decreases slides@.len() - i,
    {
        let mut part = String::new();
        text::append(&mut part, "ppt/slides/slide");
        text::append_decimal(&mut part, (i + 1) as u64);
        text::append(&mut part, ".xml");
        assert(part@ == part_of(i as nat));
        slide_checks(part.as_str(), slides[i].layout, &slides[i].fields, &mut report);
        i += 1;
    }
    report
}


/// Whether a finding accounts for the field `name`: its content was
/// converted, or the field would be omitted.
pub open spec fn accounts_for(f: FindingView, name: Seq<char>) -> bool {
    f.element == name && (f.feature == "zone_content"@ || f.feature == "unmapped_field"@)
}

proof fn lemma_field_accounted(part: Seq<char>, zones: Seq<Zone>, fields: Seq<(String, ZoneContent)>, j: int)
    requires
        0 <= j < fields.len(),
    ensures
        field_spec(part, zones, fields, j).len() > 0,
        accounts_for(field_spec(part, zones, fields, j).last(), fields[j].0@),
{
}

proof fn lemma_fields_accounted(part: Seq<char>, zones: Seq<Zone>, fields: Seq<(String, ZoneContent)>, m: int, j: int)
    requires
        0 <= j < m <= fields.len(),
    ensures
        exists|k: int| 0 <= k < fields_spec(part, zones, fields, m).len() && #[trigger] accounts_for(
            fields_spec(part, zones, fields, m)[k],
            fields[j].0@,
        ),
    decreases m,
{
    let prev = fields_spec(part, zones, fields, m - 1);
    let cur = field_spec(part, zones, fields, m - 1);
    assert(fields_spec(part, zones, fields, m) == prev + cur);
    if j == m - 1 {
        lemma_field_accounted(part, zones, fields, j);
        let k = prev.len() + cur.len() - 1;
        assert((prev + cur)[k] == cur.last());
        assert(accounts_for(fields_spec(part, zones, fields, m)[k], fields[j].0@));
    } else {
        lemma_fields_accounted(part, zones, fields, m - 1, j);
        let k = choose|k: int| 0 <= k < prev.len() && #[trigger] accounts_for(prev[k], fields[j].0@);
        assert((prev + cur)[k] == prev[k]);
        assert(accounts_for(fields_spec(part, zones, fields, m)[k], fields[j].0@));
    }
}

/// Every field of a slide is accounted for: among the slide's findings is
/// one that names the field and says that its content was converted or
/// that the field would be omitted.
pub proof fn lemma_every_field_accounted(part: Seq<char>, layout: LayoutDef, fields: Seq<(String, ZoneContent)>, j: int)
    requires
        0 <= j < fields.len(),
    ensures
        exists|k: int| 0 <= k < slide_spec(part, layout, fields).len() && #[trigger] accounts_for(
            slide_spec(part, layout, fields)[k],
            fields[j].0@,
        ),
{
    let zones = layout.zones@;
    let fs = fields_spec(part, zones, fields, fields.len() as int);
    lemma_fields_accounted(part, zones, fields, fields.len() as int, j);
    let k = choose|k: int| 0 <= k < fs.len() && #[trigger] accounts_for(fs[k], fields[j].0@);
    let s = slide_spec(part, layout, fields);
    let head = s.subrange(0, s.len() - fs.len());
    assert(s =~= head + fs);
    let n = head.len() + k;
    assert(s[n] == fs[k]);
    assert(accounts_for(s[n], fields[j].0@));
}

} // verus!
