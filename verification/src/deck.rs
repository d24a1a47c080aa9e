//! Editable PowerPoint decks and templates from layouts: every layout zone
//! whose representation is placeholder text becomes a slideLayout
//! placeholder, and in a filled deck each slide fills its layout's
//! placeholders with chrome and markdown bodies as native text, and its
//! picture zones with embedded images. Zone geometry is held in EMU; the
//! package is written by the zip crate.
use vstd::prelude::*;
use crate::mdooxml;
use crate::pptx::{self, Theme};
use crate::text;
use std::io::Write;
use zip::CompressionMethod;
use zip::result::ZipResult;
use zip::write::SimpleFileOptions;
use zip::ZipWriter;
use std::io::Cursor;

verus! {

broadcast use vstd::string::group_string_axioms;

/// A template placeholder shape, split around its fields: id, label, ph, idx_attr, x, y, cx, cy, label.
pub const LP_0: &'static str = "<p:sp><p:nvSpPr><p:cNvPr id=\"";
pub const LP_1: &'static str = "\" name=\"";
pub const LP_2: &'static str = "\"/><p:cNvSpPr><a:spLocks noGrp=\"1\"/></p:cNvSpPr><p:nvPr><p:ph type=\"";
pub const LP_3: &'static str = "\"";
pub const LP_4: &'static str = "/></p:nvPr></p:nvSpPr>\n<p:spPr><a:xfrm><a:off x=\"";
pub const LP_5: &'static str = "\" y=\"";
pub const LP_6: &'static str = "\"/><a:ext cx=\"";
pub const LP_7: &'static str = "\" cy=\"";
pub const LP_8: &'static str = "\"/></a:xfrm></p:spPr>\n<p:txBody><a:bodyPr/><a:lstStyle/><a:p><a:r><a:rPr lang=\"en-US\"/><a:t>";
pub const LP_9: &'static str = "</a:t></a:r></a:p></p:txBody></p:sp>";

/// A filled text placeholder shape (its first four pieces are those of `LP`), split around its fields: id, label, ph, idx_attr, paragraphs.
pub const TP_4: &'static str = "/></p:nvPr></p:nvSpPr>\n<p:spPr/><p:txBody><a:bodyPr/><a:lstStyle/>";
pub const TP_5: &'static str = "</p:txBody></p:sp>";

/// A picture shape, split around its fields: id, label, rel, x, y, cx, cy.
pub const PIC_0: &'static str = "<p:pic><p:nvPicPr><p:cNvPr id=\"";
pub const PIC_1: &'static str = "\" name=\"";
pub const PIC_2: &'static str = "\"/><p:cNvPicPr><a:picLocks noChangeAspect=\"1\"/></p:cNvPicPr><p:nvPr/></p:nvPicPr>\n<p:blipFill><a:blip r:embed=\"rId";
pub const PIC_3: &'static str = "\"/><a:stretch><a:fillRect/></a:stretch></p:blipFill>\n<p:spPr><a:xfrm><a:off x=\"";
pub const PIC_4: &'static str = "\" y=\"";
pub const PIC_5: &'static str = "\"/><a:ext cx=\"";
pub const PIC_6: &'static str = "\" cy=\"";
pub const PIC_7: &'static str = "\"/></a:xfrm><a:prstGeom prst=\"rect\"><a:avLst/></a:prstGeom></p:spPr></p:pic>";

/// An image relationship, split around its fields: rel, media_n, ext.
pub const IMG_REL_0: &'static str = "<Relationship Id=\"rId";
pub const IMG_REL_1: &'static str = "\" Type=\"http://schemas.openxmlformats.org/officeDocument/2006/relationships/image\" Target=\"../media/image";
pub const IMG_REL_2: &'static str = ".";
pub const IMG_REL_3: &'static str = "\"/>";

/// A slide layout part, split around its fields: typ, name, sps.
pub const SLX_0: &'static str = "<?xml version=\"1.0\" encoding=\"UTF-8\" standalone=\"yes\"?>\n<p:sldLayout xmlns:a=\"http://schemas.openxmlformats.org/drawingml/2006/main\" xmlns:r=\"http://schemas.openxmlformats.org/officeDocument/2006/relationships\" xmlns:p=\"http://schemas.openxmlformats.org/presentationml/2006/main\" type=\"";
pub const SLX_1: &'static str = "\" preserve=\"1\">\n<p:cSld name=\"";
pub const SLX_2: &'static str = "\"><p:spTree><p:nvGrpSpPr><p:cNvPr id=\"1\" name=\"\"/><p:cNvGrpSpPr/><p:nvPr/></p:nvGrpSpPr><p:grpSpPr/>\n";
pub const SLX_3: &'static str = "\n</p:spTree></p:cSld>\n<p:clrMapOvr><a:overrideClrMapping bg1=\"dk1\" tx1=\"lt1\" bg2=\"dk2\" tx2=\"lt2\" accent1=\"accent1\" accent2=\"accent2\" accent3=\"accent3\" accent4=\"accent4\" accent5=\"accent5\" accent6=\"accent6\" hlink=\"hlink\" folHlink=\"folHlink\"/></p:clrMapOvr>\n</p:sldLayout>";

/// A slide part, split around its fields: shapes.
pub const SLD_0: &'static str = "<?xml version=\"1.0\" encoding=\"UTF-8\" standalone=\"yes\"?>\n<p:sld xmlns:a=\"http://schemas.openxmlformats.org/drawingml/2006/main\" xmlns:r=\"http://schemas.openxmlformats.org/officeDocument/2006/relationships\" xmlns:p=\"http://schemas.openxmlformats.org/presentationml/2006/main\">\n<p:cSld><p:spTree><p:nvGrpSpPr><p:cNvPr id=\"1\" name=\"\"/><p:cNvGrpSpPr/><p:nvPr/></p:nvGrpSpPr><p:grpSpPr/>\n";
pub const SLD_1: &'static str = "\n</p:spTree></p:cSld></p:sld>";

/// The relationships of a slide, split around its fields: layout_index, image_rels.
pub const SLD_RELS_0: &'static str = "<?xml version=\"1.0\" encoding=\"UTF-8\" standalone=\"yes\"?>\n<Relationships xmlns=\"http://schemas.openxmlformats.org/package/2006/relationships\">\n<Relationship Id=\"rId1\" Type=\"http://schemas.openxmlformats.org/officeDocument/2006/relationships/slideLayout\" Target=\"../slideLayouts/slideLayout";
pub const SLD_RELS_1: &'static str = ".xml\"/>\n";
pub const SLD_RELS_2: &'static str = "\n</Relationships>";

/// How a layout zone is represented in PowerPoint.
#[derive(Debug, Clone, Copy, PartialEq, Eq, Structural)]
pub enum ZoneRep {
    /// An editable text placeholder.
    PlaceholderText,
    /// A positioned picture.
    Picture,
    /// A drawn shape.
    Shape,
    /// A region baked into an image.
    Bake,
}

/// One zone of a layout, its box in EMU.
#[derive(Debug, Clone)]
pub struct Zone {
    pub name: String,
    pub rep: ZoneRep,
    /// The placeholder type (`title`, `body`, ...), for placeholder zones.
    pub ph: Option<String>,
    /// The placeholder index.
    pub idx: Option<u32>,
    pub x: i64,
    pub y: i64,
    pub w: i64,
    pub h: i64,
    /// Whether the percent box the zone was declared with is finite,
    /// positive and inside the slide (to a hundredth of a percent); that
    /// floating-point test is made where the percentages live.
    pub geometry_valid: bool,
}

/// A layout: its name, zones, and the custom CSS it carries, if any.
#[derive(Debug, Clone)]
pub struct LayoutDef {
    pub name: String,
    pub zones: Vec<Zone>,
    pub css: Option<String>,
}

/// Content destined for one zone of a slide, keyed by the zone's name.
#[derive(Debug, Clone)]
pub enum ZoneContent {
    /// Single-line chrome (headline, footer, source): one paragraph without
    /// bullet.
    Text(String),
    /// A markdown body, converted to paragraphs.
    Markdown(String),
    /// An image embedded as a positioned picture; `ext` is its media
    /// extension. `fit`, when given, is the picture's extent in EMU once
    /// fitted inside its zone keeping its aspect (the picture is then
    /// centered); none fills the zone box.
    Picture { bytes: Vec<u8>, ext: String, fit: Option<(i64, i64)> },
}

/// One slide of a deck: its layout and the content of its zones.
#[derive(Debug, Clone)]
pub struct SlideInput<'a> {
    pub layout: &'a LayoutDef,
    /// `(zone name, content)` pairs; a zone without one renders empty.
    pub fields: Vec<(String, ZoneContent)>,
}

/// A layout as it becomes a slideLayout: its name, the layout `type`
/// token, and its placeholder-text zones.
#[derive(Debug, Clone)]
pub struct TemplateLayout {
    pub name: String,
    pub typ: String,
    pub placeholders: Vec<Zone>,
}

/// A value a signed 64-bit integer holds.
pub open spec fn in_i64(v: int) -> bool {
    i64::MIN <= v <= i64::MAX
}

/// The picture placement of zone `z` with content `c` stays within signed
/// 64-bit integers: for a picture fitted to `(fx, fy)`, the slack of the
/// zone over the picture and the centered offset (other contents need no
/// arithmetic).
pub open spec fn fit_in_range(z: Zone, c: Option<ZoneContent>) -> bool {
    match c {
        Some(ZoneContent::Picture { fit: Some((fx, fy)), .. }) => {
            &&& i64::MIN < z.w - fx <= i64::MAX
            &&& i64::MIN < z.h - fy <= i64::MAX
            &&& in_i64(z.x + half(z.w - fx))
            &&& in_i64(z.y + half(z.h - fy))
        },
        _ => true,
    }
}

/// A zone that becomes a template placeholder.
pub open spec fn is_placeholder(z: Zone) -> bool {
    z.rep == ZoneRep::PlaceholderText && z.ph is Some
}

/// `n` in decimal, with a `-` when negative.
pub open spec fn signed_decimal(n: int) -> Seq<char> {
    if n < 0 {
        seq!['-'] + text::decimal((-n) as nat)
    } else {
        text::decimal(n as nat)
    }
}

/// The escaped, title-cased name of a zone, as shapes are labelled.
pub open spec fn zone_label(z: Zone) -> Seq<char> {
    pptx::escape_spec(pptx::title_case_spec(z.name@))
}

/// The placeholder type of a zone (`body` when unset).
pub open spec fn ph_of(z: Zone) -> Seq<char> {
    match z.ph {
        Some(p) => p@,
        None => "body"@,
    }
}

/// The ` idx="n"` attribute of a zone with an index.
pub open spec fn idx_attr(z: Zone) -> Seq<char> {
    match z.idx {
        Some(i) => " idx=\""@ + text::decimal(i as nat) + "\""@,
        None => Seq::empty(),
    }
}

/// How many of the zones are `body` placeholders.
pub open spec fn body_count(zs: Seq<Zone>) -> nat
    decreases zs.len(),
{
    if zs.len() == 0 {
        0
    } else {
        body_count(zs.drop_last()) + if text::opt_seq(zs.last().ph) == Some("body"@) {
            1nat
        } else {
            0nat
        }
    }
}

/// The `type` token of a slideLayout: `twoObj` with two or more body
/// placeholders, `obj` otherwise.
pub open spec fn layout_type_spec(placeholders: Seq<Zone>) -> Seq<char> {
    if body_count(placeholders) >= 2 {
        "twoObj"@
    } else {
        "obj"@
    }
}

/// The placeholder-text zones among `zs`, in order.
pub open spec fn placeholders_of(zs: Seq<Zone>) -> Seq<Zone>
    decreases zs.len(),
{
    if zs.len() == 0 {
        Seq::empty()
    } else if is_placeholder(zs.last()) {
        placeholders_of(zs.drop_last()).push(zs.last())
    } else {
        placeholders_of(zs.drop_last())
    }
}

/// A template layout as plain values: name, type token, placeholders.
pub type TemplateView = (Seq<char>, Seq<char>, Seq<Zone>);

impl TemplateLayout {
    pub open spec fn view(&self) -> TemplateView {
        (self.name@, self.typ@, self.placeholders@)
    }
}

pub open spec fn template_views(v: Seq<TemplateLayout>) -> Seq<TemplateView> {
    v.map_values(|t: TemplateLayout| t.view())
}

/// The template layouts of `defs`, in order: each with its placeholder
/// zones, those left with none dropped.
pub open spec fn template_layouts_spec(defs: Seq<LayoutDef>) -> Seq<TemplateView>
    decreases defs.len(),
{
    if defs.len() == 0 {
        Seq::empty()
    } else {
        let d = defs.last();
        let ps = placeholders_of(d.zones@);
        let before = template_layouts_spec(defs.drop_last());
        if ps.len() > 0 {
            before.push((d.name@, layout_type_spec(ps), ps))
        } else {
            before
        }
    }
}

/// Append `n` in decimal, with a `-` when negative.
fn append_signed(s: &mut String, n: i64)
    ensures
        final(s)@ == old(s)@ + signed_decimal(n as int),
{
    if n < 0 {
        s.push('-');
        let m: u64 = if n == i64::MIN {
            9223372036854775808u64
        } else {
            (-n) as u64
        };
        text::append_decimal(s, m);
    } else {
        text::append_decimal(s, n as u64);
    }
}

fn copy_opt(o: &Option<String>) -> (r: Option<String>)
    ensures
        r == *o,
{
    match o {
        Some(x) => Some(x.clone()),
        None => None,
    }
}

/// A copy of a zone.
fn copy_zone(z: &Zone) -> (r: Zone)
    ensures
        r == *z,
{
    Zone {
        name: z.name.clone(),
        rep: z.rep,
        ph: copy_opt(&z.ph),
        idx: z.idx,
        x: z.x,
        y: z.y,
        w: z.w,
        h: z.h,
        geometry_valid: z.geometry_valid,
    }
}

fn zone_is_placeholder(z: &Zone) -> (b: bool)
    ensures
        b == is_placeholder(*z),
{
    z.rep == ZoneRep::PlaceholderText && z.ph.is_some()
}

/// The slideLayout `type` token (see [`layout_type_spec`]).
pub fn layout_type(placeholders: &[Zone]) -> (r: &'static str)
    ensures
        r@ == layout_type_spec(placeholders@),
{
    let body = text::chars_of("body");
    let mut n: usize = 0;
    let mut i: usize = 0;
    assert(placeholders@.take(0) =~= Seq::<Zone>::empty());
    while i < placeholders.len()
        invariant
            i <= placeholders.len(),
            body@ == "body"@,
            n == body_count(placeholders@.take(i as int)),
            n <= i,
        decreases placeholders.len() - i,
    {
        let z = &placeholders[i];
        assert(placeholders@.take(i + 1).drop_last() =~= placeholders@.take(i as int));
        let is_body = match &z.ph {
            Some(p) => {
                let pc = text::chars_of(p.as_str());
                text::eq_chars(pc.as_slice(), body.as_slice())
            },
            None => false,
        };
        if is_body {
            n += 1;
        }
        i += 1;
    }
    assert(placeholders@.take(placeholders.len() as int) =~= placeholders@);
    if n >= 2 {
        "twoObj"
    } else {
        "obj"
    }
}

/// The placeholder-text zones of a layout, copied (see
/// [`placeholders_of`]).
fn placeholder_zones(def: &LayoutDef) -> (r: Vec<Zone>)
    ensures
        r@ == placeholders_of(def.zones@),
{
    let mut out: Vec<Zone> = Vec::new();
    let mut i: usize = 0;
    assert(def.zones@.take(0) =~= Seq::<Zone>::empty());
    while i < def.zones.len()
        invariant
            i <= def.zones.len(),
            out@ == placeholders_of(def.zones@.take(i as int)),
        decreases def.zones.len() - i,
    {
        let z = &def.zones[i];
        assert(def.zones@.take(i + 1).drop_last() =~= def.zones@.take(i as int));
        if zone_is_placeholder(z) {
            out.push(copy_zone(z));
        }
        i += 1;
    }
    assert(def.zones@.take(def.zones.len() as int) =~= def.zones@);
    out
}

/// The template layouts of `layouts` (see [`template_layouts_spec`]).
pub fn to_template_layouts(layouts: &[&LayoutDef]) -> (r: Vec<TemplateLayout>)
    ensures
        template_views(r@) == template_layouts_spec(layouts@.map_values(|d: &LayoutDef| *d)),
{
    let ghost defs = layouts@.map_values(|d: &LayoutDef| *d);
    let mut out: Vec<TemplateLayout> = Vec::new();
    let mut i: usize = 0;
    assert(defs.take(0) =~= Seq::<LayoutDef>::empty());
    assert(template_views(out@) =~= Seq::<TemplateView>::empty());
    while i < layouts.len()
        invariant
            i <= layouts.len(),
            defs == layouts@.map_values(|d: &LayoutDef| *d),
            template_views(out@) == template_layouts_spec(defs.take(i as int)),
        decreases layouts.len() - i,
    {
        let d = layouts[i];
        assert(defs.take(i + 1).drop_last() =~= defs.take(i as int));
        assert(defs.take(i + 1).last() == *d);
        let ps = placeholder_zones(d);
        if ps.len() > 0 {
            let typ = layout_type(ps.as_slice());
            let t = TemplateLayout { name: d.name.clone(), typ: typ.to_string(), placeholders: ps };
            let ghost before = template_views(out@);
            out.push(t);
            assert(template_views(out@) =~= before.push(t.view()));
        }
        i += 1;
    }
    assert(defs.take(layouts.len() as int) =~= defs);
    out
}

/// Append `n` in decimal.
fn append_wide(s: &mut String, n: u128)
    ensures
        final(s)@ == old(s)@ + text::decimal(n as nat),
{
    let mut v: Vec<char> = Vec::new();
    text::push_decimal_wide(&mut v, n);
    assert(v@ =~= text::decimal(n as nat));
    let t = text::string_of(v.as_slice());
    text::append(s, t.as_str());
}

/// A layout's zones include a placeholder-text zone.
pub open spec fn eligible(d: LayoutDef) -> bool {
    d.zones@.len() > 0 && placeholders_of(d.zones@).len() > 0
}

/// A layout has zones, none of them a placeholder-text zone.
pub open spec fn skipped(d: LayoutDef) -> bool {
    d.zones@.len() > 0 && placeholders_of(d.zones@).len() == 0
}

/// `x` put into `sorted` after every layout whose name does not come after
/// its own.
pub open spec fn insert_layout(sorted: Seq<LayoutDef>, x: LayoutDef) -> Seq<LayoutDef>
    decreases sorted.len(),
{
    if sorted.len() == 0 {
        seq![x]
    } else if !text::seq_lt(x.name@, sorted.last().name@) {
        sorted.push(x)
    } else {
        insert_layout(sorted.drop_last(), x).push(sorted.last())
    }
}

/// `x` put into `sorted` after every name that does not come after it.
pub open spec fn insert_name(sorted: Seq<Seq<char>>, x: Seq<char>) -> Seq<Seq<char>>
    decreases sorted.len(),
{
    if sorted.len() == 0 {
        seq![x]
    } else if !text::seq_lt(x, sorted.last()) {
        sorted.push(x)
    } else {
        insert_name(sorted.drop_last(), x).push(sorted.last())
    }
}

/// The eligible layouts of `defs` in name order (stable) and the names of
/// the skipped ones in order (see [`eligible`], [`skipped`]).
pub open spec fn select_spec(defs: Seq<LayoutDef>) -> (Seq<LayoutDef>, Seq<Seq<char>>)
    decreases defs.len(),
{
    if defs.len() == 0 {
        (Seq::empty(), Seq::empty())
    } else {
        let (e, k) = select_spec(defs.drop_last());
        let d = defs.last();
        if eligible(d) {
            (insert_layout(e, d), k)
        } else if skipped(d) {
            (e, insert_name(k, d.name@))
        } else {
            (e, k)
        }
    }
}

/// Whether a layout has a placeholder-text zone.
fn has_placeholder(d: &LayoutDef) -> (b: bool)
    ensures
        b == (placeholders_of(d.zones@).len() > 0),
{
    let ps = placeholder_zones(d);
    ps.len() > 0
}

/// The layouts that can become template slideLayouts, those with a
/// placeholder-text zone, in name order; and the names, in order, of the
/// layouts whose zones are all pictures, shapes or baked regions (see
/// [`select_spec`]). Layouts without zones are left out of both.
pub fn select_layouts<'a>(defs: &'a [LayoutDef]) -> (r: (Vec<&'a LayoutDef>, Vec<&'a str>))
    ensures
        r.0@.map_values(|d: &LayoutDef| *d) == select_spec(defs@).0,
        r.1@.map_values(|n: &str| n@) == select_spec(defs@).1,
{
    let mut eligible_defs: Vec<&'a LayoutDef> = Vec::new();
    let mut skipped_names: Vec<&'a str> = Vec::new();
    let mut i: usize = 0;
    assert(defs@.take(0) =~= Seq::<LayoutDef>::empty());
    assert(eligible_defs@.map_values(|d: &LayoutDef| *d) =~= Seq::<LayoutDef>::empty());
    assert(skipped_names@.map_values(|n: &str| n@) =~= Seq::<Seq<char>>::empty());
    while i < defs.len()
        invariant
            i <= defs.len(),
            eligible_defs@.map_values(|d: &LayoutDef| *d) == select_spec(defs@.take(i as int)).0,
            skipped_names@.map_values(|n: &str| n@) == select_spec(defs@.take(i as int)).1,
        decreases defs.len() - i,
    {
        let d = &defs[i];
        assert(defs@.take(i + 1).drop_last() =~= defs@.take(i as int));
        assert(defs@.take(i + 1).last() == *d);
        if d.zones.len() > 0 {
            let dn = text::chars_of(d.name.as_str());
            if has_placeholder(d) {
                let ghost v = eligible_defs@.map_values(|x: &LayoutDef| *x);
                let mut j: usize = eligible_defs.len();
                assert(v.take(j as int) =~= v);
                assert(v.skip(j as int) =~= Seq::<LayoutDef>::empty());
                while j > 0 && text::chars_lt(
                    dn.as_slice(),
                    text::chars_of(eligible_defs[j - 1].name.as_str()).as_slice(),
                )
                    invariant
                        j <= eligible_defs.len(),
                        v == eligible_defs@.map_values(|x: &LayoutDef| *x),
                        dn@ == d.name@,
                        insert_layout(v, *d) == insert_layout(v.take(j as int), *d) + v.skip(j as int),
                    decreases j,
                {
                    let ghost t = v.take(j as int);
                    assert(t.drop_last() =~= v.take(j - 1));
                    assert(t.last() == v[j - 1]);
                    assert(insert_layout(t, *d) == insert_layout(v.take(j - 1), *d).push(v[j - 1]));
                    assert(insert_layout(v.take(j - 1), *d).push(v[j - 1]) + v.skip(j as int) =~= insert_layout(
                        v.take(j - 1),
                        *d,
                    ) + v.skip(j - 1));
                    j -= 1;
                }
                proof {
                    if j > 0 {
                        assert(v.take(j as int).last() == v[j - 1]);
                    }
                }
                eligible_defs.insert(j, d);
                assert(eligible_defs@.map_values(|x: &LayoutDef| *x) =~= v.take(j as int).push(*d) + v.skip(
                    j as int,
                ));
            } else {
                let ghost v = skipped_names@.map_values(|n: &str| n@);
                let mut j: usize = skipped_names.len();
                assert(v.take(j as int) =~= v);
                assert(v.skip(j as int) =~= Seq::<Seq<char>>::empty());
                while j > 0 && text::chars_lt(dn.as_slice(), text::chars_of(skipped_names[j - 1]).as_slice())
                    invariant
                        j <= skipped_names.len(),
                        v == skipped_names@.map_values(|n: &str| n@),
                        dn@ == d.name@,
                        insert_name(v, d.name@) == insert_name(v.take(j as int), d.name@) + v.skip(j as int),
                    decreases j,
                {
                    let ghost t = v.take(j as int);
                    assert(t.drop_last() =~= v.take(j - 1));
                    assert(t.last() == v[j - 1]);
                    assert(insert_name(t, d.name@) == insert_name(v.take(j - 1), d.name@).push(v[j - 1]));
                    assert(insert_name(v.take(j - 1), d.name@).push(v[j - 1]) + v.skip(j as int) =~= insert_name(
                        v.take(j - 1),
                        d.name@,
                    ) + v.skip(j - 1));
                    j -= 1;
                }
                proof {
                    if j > 0 {
                        assert(v.take(j as int).last() == v[j - 1]);
                    }
                }
                skipped_names.insert(j, d.name.as_str());
                assert(skipped_names@.map_values(|n: &str| n@) =~= v.take(j as int).push(d.name@) + v.skip(
                    j as int,
                ));
            }
        }
        i += 1;
    }
    assert(defs@.take(defs.len() as int) =~= defs@);
    (eligible_defs, skipped_names)
}

/// One template placeholder shape; `i` counts the placeholders before it.
pub open spec fn lp_xml(i: nat, z: Zone) -> Seq<char> {
    LP_0@ + text::decimal(i + 2) + LP_1@ + zone_label(z) + LP_2@ + ph_of(z) + LP_3@ + idx_attr(z) + LP_4@
        + signed_decimal(z.x as int) + LP_5@ + signed_decimal(z.y as int) + LP_6@ + signed_decimal(z.w as int)
        + LP_7@ + signed_decimal(z.h as int) + LP_8@ + zone_label(z) + LP_9@
}

/// The template placeholder shapes of `zs`, one after another.
pub open spec fn lp_list(zs: Seq<Zone>) -> Seq<char>
    decreases zs.len(),
{
    if zs.len() == 0 {
        Seq::empty()
    } else {
        lp_list(zs.drop_last()) + lp_xml((zs.len() - 1) as nat, zs.last())
    }
}

/// A slideLayout part: its type, escaped name, and one placeholder shape
/// per placeholder-text zone, its box in EMU.
pub open spec fn slide_layout_spec(t: TemplateView) -> Seq<char> {
    SLX_0@ + t.1 + SLX_1@ + pptx::escape_spec(t.0) + SLX_2@ + lp_list(t.2) + SLX_3@
}

/// Append the label of a zone (see [`zone_label`]).
fn append_label(s: &mut String, z: &Zone)
    ensures
        final(s)@ == old(s)@ + zone_label(*z),
{
    let t = pptx::title_case(z.name.as_str());
    let e = pptx::xml_escape(t.as_str());
    text::append(s, e.as_str());
}

/// Append the placeholder type and index attribute of a zone.
fn append_ph(s: &mut String, z: &Zone)
    ensures
        final(s)@ == old(s)@ + ph_of(*z) + LP_3@ + idx_attr(*z),
{
    match &z.ph {
        Some(p) => text::append(s, p.as_str()),
        None => text::append(s, "body"),
    }
    text::append(s, LP_3);
    if let Some(i) = z.idx {
        text::append(s, " idx=\"");
        text::append_decimal(s, i as u64);
        text::append(s, "\"");
    }
}

/// Append one template placeholder shape (see [`lp_xml`]).
fn append_lp(out: &mut String, i: usize, z: &Zone)
    ensures
        final(out)@ == old(out)@ + lp_xml(i as nat, *z),
{
    let ghost o = out@;
    text::append(out, LP_0);
    append_wide(out, (i as u128) + 2);
    text::append(out, LP_1);
    append_label(out, z);
    text::append(out, LP_2);
    append_ph(out, z);
    text::append(out, LP_4);
    let ghost a = out@;
    assert(a =~= o + (LP_0@ + text::decimal(i as nat + 2) + LP_1@ + zone_label(*z) + LP_2@ + ph_of(*z) + LP_3@ + idx_attr(*z)
        + LP_4@));
    append_signed(out, z.x);
    text::append(out, LP_5);
    append_signed(out, z.y);
    text::append(out, LP_6);
    append_signed(out, z.w);
    text::append(out, LP_7);
    append_signed(out, z.h);
    text::append(out, LP_8);
    append_label(out, z);
    text::append(out, LP_9);
    assert(out@ =~= a + (signed_decimal(z.x as int) + LP_5@ + signed_decimal(z.y as int) + LP_6@ + signed_decimal(
        z.w as int,
    ) + LP_7@ + signed_decimal(z.h as int) + LP_8@ + zone_label(*z) + LP_9@));
    assert(out@ =~= o + lp_xml(i as nat, *z));
}

/// The slideLayout part of a template layout (see
/// [`slide_layout_spec`]).
pub fn slide_layout_xml(layout: &TemplateLayout) -> (r: String)
    ensures
        r@ == slide_layout_spec(layout.view()),
{
    let mut out = SLX_0.to_string();
    text::append(&mut out, layout.typ.as_str());
    text::append(&mut out, SLX_1);
    let name = pptx::xml_escape(layout.name.as_str());
    text::append(&mut out, name.as_str());
    text::append(&mut out, SLX_2);
    let ghost head = out@;
    let ps = &layout.placeholders;
    let mut i: usize = 0;
    assert(ps@.take(0) =~= Seq::<Zone>::empty());
    while i < ps.len()
        invariant
            i <= ps.len(),
            out@ == head + lp_list(ps@.take(i as int)),
        decreases ps.len() - i,
    {
        let z = &ps[i];
        assert(ps@.take(i + 1).drop_last() =~= ps@.take(i as int));
        append_lp(&mut out, i, z);
        i += 1;
    }
    assert(ps@.take(ps.len() as int) =~= ps@);
    text::append(&mut out, SLX_3);
    out
}

/// Parts as plain values.
pub open spec fn text_part_views(v: Seq<(String, String)>) -> Seq<(Seq<char>, Seq<char>)> {
    v.map_values(|p: (String, String)| (p.0@, p.1@))
}

/// Binary parts as plain values.
pub open spec fn byte_part_views(v: Seq<(String, Vec<u8>)>) -> Seq<(Seq<char>, Seq<u8>)> {
    v.map_values(|p: (String, Vec<u8>)| (p.0@, p.1@))
}

/// How an entry is put into a zip archive.
#[derive(Clone, Copy, Debug, PartialEq, Eq, Structural)]
pub enum Compression {
    Deflated,
    Stored,
}

/// How the package parts are written: the XML text deflated, media
/// stored as they are.
pub open spec fn part_compression() -> (Compression, Compression) {
    (Compression::Deflated, Compression::Stored)
}

/// Name for the bytes of the zip archive the zip crate writes for `text`
/// (as UTF-8, each entry with `text_method`) followed by `media` (each
/// with `media_method`), each entry under its name, in order, with default
/// options otherwise (the crate's `time` feature off, so every entry
/// carries the same fixed date); or the crate's error text.
pub uninterp spec fn zip_bytes(
    text: Seq<(Seq<char>, Seq<char>)>,
    text_method: Compression,
    media: Seq<(Seq<char>, Seq<u8>)>,
    media_method: Compression,
) -> Result<Seq<u8>, Seq<char>>;

/// Write `text` and `media` into a zip archive with `zip::ZipWriter`, each
/// entry with the given method. The bytes are named, not stated.
#[verifier::external_body]
pub(crate) fn zip_mixed(
    text: &[(String, String)],
    text_method: Compression,
    media: &[(String, Vec<u8>)],
    media_method: Compression,
) -> (r: Result<Vec<u8>, String>)
    ensures
        match r {
            Ok(b) => zip_bytes(text_part_views(text@), text_method, byte_part_views(media@), media_method)
                == Ok::<Seq<u8>, Seq<char>>(b@),
            Err(e) => zip_bytes(text_part_views(text@), text_method, byte_part_views(media@), media_method)
                == Err::<Seq<u8>, Seq<char>>(e@),
        },
{
    let method = |c| match c {
        Compression::Deflated => CompressionMethod::Deflated,
        Compression::Stored => CompressionMethod::Stored,
    };
    let all = text.iter().map(|(p, c)| (p, c.as_bytes(), text_method)).chain(media.iter().map(|(p, b)| (p, b.as_slice(), media_method)));
    let write = || -> ZipResult<Vec<u8>> {
        let mut zip = ZipWriter::new(Cursor::new(Vec::new()));
        for (path, bytes, c) in all {
            zip.start_file(path.as_str(), SimpleFileOptions::default().compression_method(method(c)))?;
            zip.write_all(bytes)?;
        }
        Ok(zip.finish()?.into_inner())
    };
    write().map_err(|e| e.to_string())
}

/// The relationships part of the slide master with `n` layouts.
pub open spec fn master_rels_spec(n: nat) -> Seq<char> {
    pptx::SMR_HEAD@ + pptx::repeat(n, |k: nat| pptx::layout_rel(k)) + pptx::SMR_MID@ + text::decimal(n + 1)
        + pptx::SMR_TAIL@
}

/// The relationships part of a presentation with `n` slides.
pub open spec fn presentation_rels_spec(n: nat) -> Seq<char> {
    pptx::PR_HEAD@ + pptx::repeat0(n, |i: nat| pptx::slide_rel(i)) + pptx::PR_TAIL@
}

/// The parts every package has: content types, relationships, document
/// properties, presentation, theme and slide master, for `layouts`
/// layouts and `slides` slides, titled `title`.
pub open spec fn base_parts(theme: Theme, title: Seq<char>, layouts: nat, slides: nat) -> Seq<(Seq<char>, Seq<char>)> {
    seq![
        ("[Content_Types].xml"@, pptx::content_types_spec(layouts, slides)),
        ("_rels/.rels"@, pptx::ROOT_RELS@),
        ("docProps/core.xml"@, pptx::CP_HEAD@ + pptx::escape_spec(title) + pptx::CP_TAIL@),
        ("docProps/app.xml"@, pptx::APP_PROPS@),
        ("ppt/_rels/presentation.xml.rels"@, presentation_rels_spec(slides)),
        ("ppt/presentation.xml"@, pptx::presentation_spec(slides)),
        ("ppt/presProps.xml"@, pptx::PRES_PROPS@),
        ("ppt/theme/theme1.xml"@, pptx::theme_spec(theme)),
        ("ppt/slideMasters/_rels/slideMaster1.xml.rels"@, master_rels_spec(layouts)),
        ("ppt/slideMasters/slideMaster1.xml"@, pptx::slide_master_spec(layouts)),
    ]
}

/// The slideLayout parts of `sel`, each with its relationships part.
pub open spec fn layout_parts(sel: Seq<TemplateView>) -> Seq<(Seq<char>, Seq<char>)>
    decreases sel.len(),
{
    if sel.len() == 0 {
        Seq::empty()
    } else {
        let n = sel.len();
        layout_parts(sel.drop_last()) + seq![
            ("ppt/slideLayouts/slideLayout"@ + text::decimal(n) + ".xml"@, slide_layout_spec(sel.last())),
            ("ppt/slideLayouts/_rels/slideLayout"@ + text::decimal(n) + ".xml.rels"@, pptx::LAYOUT_RELS@),
        ]
    }
}

/// What a template over `layouts` is: refused without layouts, or when
/// none has a placeholder-text zone; otherwise the zip of the base parts
/// (no slides, titled after the theme) and the slideLayout parts.
pub open spec fn template_spec(theme: Theme, layouts: Seq<LayoutDef>) -> Result<Seq<u8>, Seq<char>> {
    if layouts.len() == 0 {
        Err("PPTX template needs at least one layout with placeholder zones"@)
    } else {
        let sel = template_layouts_spec(layouts);
        if sel.len() == 0 {
            Err("none of the given layouts declare placeholder-text zones"@)
        } else {
            zip_bytes(
                base_parts(theme, theme.name@ + " template"@, sel.len(), 0) + layout_parts(sel),
                part_compression().0,
                Seq::empty(),
                part_compression().1,
            )
        }
    }
}

/// Push the base parts (see [`base_parts`]).
fn push_base_parts(parts: &mut Vec<(String, String)>, theme: &Theme, title: &str, layouts: usize, slides: usize)
    requires
        layouts <= isize::MAX,
        slides <= isize::MAX,
    ensures
        text_part_views(final(parts)@) == text_part_views(old(parts)@) + base_parts(
            *theme,
            title@,
            layouts as nat,
            slides as nat,
        ),
{
    let ghost before = text_part_views(parts@);
    parts.push(("[Content_Types].xml".to_string(), pptx::content_types(layouts, slides)));
    parts.push(("_rels/.rels".to_string(), pptx::root_rels()));
    parts.push(("docProps/core.xml".to_string(), pptx::core_props(title)));
    parts.push(("docProps/app.xml".to_string(), pptx::app_props()));
    parts.push(("ppt/_rels/presentation.xml.rels".to_string(), pptx::presentation_rels(slides)));
    parts.push(("ppt/presentation.xml".to_string(), pptx::presentation_xml(slides)));
    parts.push(("ppt/presProps.xml".to_string(), pptx::pres_props()));
    parts.push(("ppt/theme/theme1.xml".to_string(), pptx::theme_xml(theme)));
    parts.push(("ppt/slideMasters/_rels/slideMaster1.xml.rels".to_string(), pptx::slide_master_rels(layouts)));
    parts.push(("ppt/slideMasters/slideMaster1.xml".to_string(), pptx::slide_master_xml(layouts)));
    assert(text_part_views(parts@) =~= before + base_parts(*theme, title@, layouts as nat, slides as nat));
}

/// Push the slideLayout parts of `sel` (see [`layout_parts`]).
fn push_layout_parts(parts: &mut Vec<(String, String)>, sel: &Vec<TemplateLayout>)
    ensures
        text_part_views(final(parts)@) == text_part_views(old(parts)@) + layout_parts(template_views(sel@)),
{
    let ghost before = text_part_views(parts@);
    let ghost tv = template_views(sel@);
    let mut i: usize = 0;
    assert(tv.take(0) =~= Seq::<TemplateView>::empty());
    assert(before + layout_parts(tv.take(0)) =~= before);
    while i < sel.len()
        invariant
            i <= sel.len(),
            tv == template_views(sel@),
            text_part_views(parts@) == before + layout_parts(tv.take(i as int)),
        decreases sel.len() - i,
    {
        assert(tv.take(i + 1).drop_last() =~= tv.take(i as int));
        assert(tv.take(i + 1).last() == sel@[i as int].view());
        let ghost mid = text_part_views(parts@);
        let mut name = "ppt/slideLayouts/slideLayout".to_string();
        append_wide(&mut name, (i as u128) + 1);
        text::append(&mut name, ".xml");
        let mut rels = "ppt/slideLayouts/_rels/slideLayout".to_string();
        append_wide(&mut rels, (i as u128) + 1);
        text::append(&mut rels, ".xml.rels");
        let x = slide_layout_xml(&sel[i]);
        let ghost p1 = (name@, x@);
        let ghost p2 = (rels@, pptx::LAYOUT_RELS@);
        parts.push((name, x));
        parts.push((rels, pptx::slide_layout_rels()));
        assert(text_part_views(parts@) =~= mid + seq![p1, p2]);
        i += 1;
    }
    assert(tv.take(sel.len() as int) =~= tv);
}

/// The template `.pptx` of `theme` over `layouts` (see
/// [`template_spec`]): theme, master and one slideLayout per layout with
/// placeholder-text zones, and no slides.
pub fn build_template(theme: &Theme, layouts: &[&LayoutDef]) -> (r: Result<Vec<u8>, String>)
    requires
        layouts.len() <= isize::MAX,
    ensures
        match r {
            Ok(b) => template_spec(*theme, layouts@.map_values(|d: &LayoutDef| *d)) == Ok::<Seq<u8>, Seq<char>>(b@),
            Err(e) => template_spec(*theme, layouts@.map_values(|d: &LayoutDef| *d)) == Err::<Seq<u8>, Seq<char>>(e@),
        },
{
    if layouts.len() == 0 {
        return Err("PPTX template needs at least one layout with placeholder zones".to_string());
    }
    let selected = to_template_layouts(layouts);
    if selected.len() == 0 {
        return Err("none of the given layouts declare placeholder-text zones".to_string());
    }
    proof {
        lemma_template_layouts_len(layouts@.map_values(|d: &LayoutDef| *d));
    }
    let mut parts: Vec<(String, String)> = Vec::new();
    let mut title = theme.name.clone();
    text::append(&mut title, " template");
    push_base_parts(&mut parts, theme, title.as_str(), selected.len(), 0);
    push_layout_parts(&mut parts, &selected);
    let empty: Vec<(String, Vec<u8>)> = Vec::new();
    assert(text_part_views(Seq::<(String, String)>::empty()) =~= Seq::<(Seq<char>, Seq<char>)>::empty());
    assert(byte_part_views(empty@) =~= Seq::<(Seq<char>, Seq<u8>)>::empty());
    zip_mixed(parts.as_slice(), Compression::Deflated, empty.as_slice(), Compression::Stored)
}

proof fn lemma_template_layouts_len(defs: Seq<LayoutDef>)
    ensures
        template_layouts_spec(defs).len() <= defs.len(),
    decreases defs.len(),
{
    if defs.len() > 0 {
        lemma_template_layouts_len(defs.drop_last());
    }
}

/// `n / 2` rounded toward zero.
pub open spec fn half(n: int) -> int {
    if n >= 0 {
        n / 2
    } else {
        -((-n) / 2)
    }
}

/// The content a slide gives zone `name`: that of the last field so named.
pub open spec fn field_for(fields: Seq<(String, ZoneContent)>, name: Seq<char>) -> Option<ZoneContent>
    decreases fields.len(),
{
    if fields.len() == 0 {
        None
    } else if fields.last().0@ == name {
        Some(fields.last().1)
    } else {
        field_for(fields.drop_last(), name)
    }
}

/// All paragraphs one after another.
pub open spec fn concat(ps: Seq<Seq<char>>) -> Seq<char>
    decreases ps.len(),
{
    if ps.len() == 0 {
        Seq::empty()
    } else {
        concat(ps.drop_last()) + ps.last()
    }
}

/// The state of building one slide: its shapes and image relationships so
/// far, the next shape id and relationship number, and the media parts of
/// the deck so far.
pub struct SlideBuild {
    pub shapes: Seq<char>,
    pub rels: Seq<char>,
    pub next_id: nat,
    pub next_rel: nat,
    pub media: Seq<(Seq<char>, Seq<u8>)>,
}

/// What one zone adds to a slide: a picture content becomes a positioned
/// picture (centered at its fitted extent, or filling the zone box) with
/// its image part and relationship; otherwise a placeholder-text zone
/// becomes a placeholder filled with the content's paragraphs (an empty
/// paragraph when it has none); any other zone adds nothing.
pub open spec fn zone_step(st: SlideBuild, z: Zone, content: Option<ZoneContent>) -> SlideBuild {
    match content {
        Some(ZoneContent::Picture { bytes, ext, fit }) => {
            let n = st.media.len() + 1;
            let (x, y, cx, cy) = match fit {
                Some((fx, fy)) => (z.x + half(z.w - fx), z.y + half(z.h - fy), fx as int, fy as int),
                None => (z.x as int, z.y as int, z.w as int, z.h as int),
            };
            SlideBuild {
                shapes: st.shapes + PIC_0@ + text::decimal(st.next_id) + PIC_1@ + zone_label(z) + PIC_2@ + text::decimal(
                    st.next_rel,
                ) + PIC_3@ + signed_decimal(x) + PIC_4@ + signed_decimal(y) + PIC_5@ + signed_decimal(cx) + PIC_6@
                    + signed_decimal(cy) + PIC_7@,
                rels: st.rels + IMG_REL_0@ + text::decimal(st.next_rel) + IMG_REL_1@ + text::decimal(n) + IMG_REL_2@
                    + ext@ + IMG_REL_3@,
                next_id: st.next_id + 1,
                next_rel: st.next_rel + 1,
                media: st.media.push(("ppt/media/image"@ + text::decimal(n) + "."@ + ext@, bytes@)),
            }
        },
        _ => if is_placeholder(z) {
            let paragraphs = match content {
                Some(ZoneContent::Text(t)) => mdooxml::plain_paragraph_spec(t@),
                Some(ZoneContent::Markdown(m)) => concat(mdooxml::paragraphs_spec(m@)),
                _ => mdooxml::plain_paragraph_spec(Seq::empty()),
            };
            SlideBuild {
                shapes: st.shapes + LP_0@ + text::decimal(st.next_id) + LP_1@ + zone_label(z) + LP_2@ + ph_of(z) + LP_3@
                    + idx_attr(z) + TP_4@ + paragraphs + TP_5@,
                next_id: st.next_id + 1,
                ..st
            }
        } else {
            st
        },
    }
}

/// The walk over a slide's zones.
pub open spec fn slide_walk(st: SlideBuild, zones: Seq<Zone>, fields: Seq<(String, ZoneContent)>) -> SlideBuild
    decreases zones.len(),
{
    if zones.len() == 0 {
        st
    } else {
        let z = zones.last();
        zone_step(slide_walk(st, zones.drop_last(), fields), z, field_for(fields, z.name@))
    }
}

/// A slide part around its shapes.
pub open spec fn slide_xml_spec(shapes: Seq<char>) -> Seq<char> {
    SLD_0@ + shapes + SLD_1@
}

/// A slide's relationships: its slideLayout, then its images.
pub open spec fn slide_rels_spec(layout_index: nat, rels: Seq<char>) -> Seq<char> {
    SLD_RELS_0@ + text::decimal(layout_index) + SLD_RELS_1@ + rels + SLD_RELS_2@
}

/// A slide whose fitted pictures are placed within signed 64-bit integers
/// (see [`fit_in_range`]).
pub open spec fn slide_ok(layout: LayoutDef, fields: Seq<(String, ZoneContent)>) -> bool {
    forall|k: int|
        0 <= k < layout.zones@.len() ==> fit_in_range(
            #[trigger] layout.zones@[k],
            field_for(fields, layout.zones@[k].name@),
        )
}

/// The content for zone `name` (see [`field_for`]).
fn lookup<'a>(fields: &'a Vec<(String, ZoneContent)>, name: &str) -> (r: Option<&'a ZoneContent>)
    ensures
        match field_for(fields@, name@) {
            Some(c) => r == Some(&c),
            None => r is None,
        },
        r matches Some(c) ==> exists|k: int| 0 <= k < fields@.len() && fields@[k].1 == *c,
{
    let nc = text::chars_of(name);
    let mut j: usize = fields.len();
    assert(fields@.take(j as int) =~= fields@);
    while j > 0
        invariant
            j <= fields.len(),
            nc@ == name@,
            field_for(fields@, name@) == field_for(fields@.take(j as int), name@),
        decreases j,
    {
        assert(fields@.take(j as int).last() == fields@[j - 1]);
        assert(fields@.take(j as int).drop_last() =~= fields@.take(j - 1));
        let fc = text::chars_of(fields[j - 1].0.as_str());
        if text::eq_chars(fc.as_slice(), nc.as_slice()) {
            return Some(&fields[j - 1].1);
        }
        j -= 1;
    }
    assert(fields@.take(0) =~= Seq::<(String, ZoneContent)>::empty());
    None
}

/// All paragraphs one after another (see [`concat`]).
fn concat_exec(ps: &Vec<String>) -> (r: String)
    ensures
        r@ == concat(text::string_views(ps@)),
{
    let ghost v = text::string_views(ps@);
    let mut out = String::new();
    let mut i: usize = 0;
    assert(v.take(0) =~= Seq::<Seq<char>>::empty());
    while i < ps.len()
        invariant
            i <= ps.len(),
            v == text::string_views(ps@),
            out@ == concat(v.take(i as int)),
        decreases ps.len() - i,
    {
        assert(v.take(i + 1).drop_last() =~= v.take(i as int));
        text::append(&mut out, ps[i].as_str());
        i += 1;
    }
    assert(v.take(ps.len() as int) =~= v);
    out
}

/// `n / 2` rounded toward zero.
fn half_exec(n: i64) -> (r: i64)
    requires
        n > i64::MIN,
    ensures
        r == half(n as int),
{
    if n >= 0 {
        n / 2
    } else {
        -((-n) / 2)
    }
}

/// The state of building one slide.
struct Build {
    shapes: String,
    rels: String,
    next_id: u128,
    next_rel: u128,
}

/// The walk's starting state over the deck's media so far.
pub open spec fn slide_start(media: Seq<(Seq<char>, Seq<u8>)>) -> SlideBuild {
    SlideBuild { shapes: Seq::empty(), rels: Seq::empty(), next_id: 2, next_rel: 2, media }
}

/// Add one zone to a slide being built (see [`zone_step`]).
fn add_zone(b: &mut Build, media: &mut Vec<(String, Vec<u8>)>, z: &Zone, content: Option<&ZoneContent>)
    requires
        fit_in_range(
            *z,
            match content {
                Some(c) => Some(*c),
                None => None,
            },
        ),
        old(b).next_id < u64::MAX,
        old(b).next_rel < u64::MAX,
    ensures
        ({
            let before = SlideBuild {
                shapes: old(b).shapes@,
                rels: old(b).rels@,
                next_id: old(b).next_id as nat,
                next_rel: old(b).next_rel as nat,
                media: byte_part_views(old(media)@),
            };
            let after = zone_step(
                before,
                *z,
                match content {
                    Some(c) => Some(*c),
                    None => None,
                },
            );
            &&& final(b).shapes@ == after.shapes
            &&& final(b).rels@ == after.rels
            &&& final(b).next_id == after.next_id
            &&& final(b).next_rel == after.next_rel
            &&& byte_part_views(final(media)@) == after.media
        }),
        final(b).next_id <= old(b).next_id + 1,
        final(b).next_rel <= old(b).next_rel + 1,
{
    match content {
        Some(ZoneContent::Picture { bytes, ext, fit }) => {
            let n: u128 = (media.len() as u128) + 1;
            let (x, y, cx, cy) = match fit {
                Some((fx, fy)) => (z.x + half_exec(z.w - *fx), z.y + half_exec(z.h - *fy), *fx, *fy),
                None => (z.x, z.y, z.w, z.h),
            };
            let ghost s0 = b.shapes@;
            let ghost r0 = b.rels@;
            text::append(&mut b.shapes, PIC_0);
            append_wide(&mut b.shapes, b.next_id);
            text::append(&mut b.shapes, PIC_1);
            append_label(&mut b.shapes, z);
            text::append(&mut b.shapes, PIC_2);
            append_wide(&mut b.shapes, b.next_rel);
            text::append(&mut b.shapes, PIC_3);
            append_signed(&mut b.shapes, x);
            text::append(&mut b.shapes, PIC_4);
            append_signed(&mut b.shapes, y);
            text::append(&mut b.shapes, PIC_5);
            append_signed(&mut b.shapes, cx);
            text::append(&mut b.shapes, PIC_6);
            append_signed(&mut b.shapes, cy);
            text::append(&mut b.shapes, PIC_7);
            assert(b.shapes@ =~= s0 + PIC_0@ + text::decimal(b.next_id as nat) + PIC_1@ + zone_label(*z) + PIC_2@
                + text::decimal(b.next_rel as nat) + PIC_3@ + signed_decimal(x as int) + PIC_4@ + signed_decimal(
                y as int,
            ) + PIC_5@ + signed_decimal(cx as int) + PIC_6@ + signed_decimal(cy as int) + PIC_7@);
            text::append(&mut b.rels, IMG_REL_0);
            append_wide(&mut b.rels, b.next_rel);
            text::append(&mut b.rels, IMG_REL_1);
            append_wide(&mut b.rels, n);
            text::append(&mut b.rels, IMG_REL_2);
            text::append(&mut b.rels, ext.as_str());
            text::append(&mut b.rels, IMG_REL_3);
            assert(b.rels@ =~= r0 + IMG_REL_0@ + text::decimal(b.next_rel as nat) + IMG_REL_1@ + text::decimal(n as nat)
                + IMG_REL_2@ + ext@ + IMG_REL_3@);
            let mut path = "ppt/media/image".to_string();
            append_wide(&mut path, n);
            text::append(&mut path, ".");
            text::append(&mut path, ext.as_str());
            let ghost before = byte_part_views(media@);
            let bv = vstd::slice::slice_to_vec(bytes.as_slice());
            let ghost entry = (path@, bv@);
            media.push((path, bv));
            assert(byte_part_views(media@) =~= before.push(entry));
            b.next_id = b.next_id + 1;
            b.next_rel = b.next_rel + 1;
        },
        _ => {
            if zone_is_placeholder(z) {
                let paragraphs = match content {
                    Some(ZoneContent::Text(t)) => mdooxml::plain_paragraph(t.as_str()),
                    Some(ZoneContent::Markdown(m)) => concat_exec(&mdooxml::to_paragraphs(m.as_str())),
                    _ => {
                        proof {
                            reveal_strlit("");
                        }
                        mdooxml::plain_paragraph("")
                    },
                };
                let ghost s0 = b.shapes@;
                text::append(&mut b.shapes, LP_0);
                append_wide(&mut b.shapes, b.next_id);
                text::append(&mut b.shapes, LP_1);
                append_label(&mut b.shapes, z);
                text::append(&mut b.shapes, LP_2);
                append_ph(&mut b.shapes, z);
                text::append(&mut b.shapes, TP_4);
                text::append(&mut b.shapes, paragraphs.as_str());
                text::append(&mut b.shapes, TP_5);
                assert(b.shapes@ =~= s0 + LP_0@ + text::decimal(b.next_id as nat) + LP_1@ + zone_label(*z) + LP_2@
                    + ph_of(*z) + LP_3@ + idx_attr(*z) + TP_4@ + paragraphs@ + TP_5@);
                b.next_id = b.next_id + 1;
            }
        },
    }
}

/// One slide's part and relationships part (see [`slide_walk`]), its
/// pictures added to `media`.
fn build_slide(slide: &SlideInput, layout_index: usize, media: &mut Vec<(String, Vec<u8>)>) -> (r: (String, String))
    requires
        slide_ok(*slide.layout, slide.fields@),
        slide.layout.zones@.len() <= isize::MAX,
    ensures
        ({
            let st = slide_walk(slide_start(byte_part_views(old(media)@)), slide.layout.zones@, slide.fields@);
            &&& r.0@ == slide_xml_spec(st.shapes)
            &&& r.1@ == slide_rels_spec(layout_index as nat, st.rels)
            &&& byte_part_views(final(media)@) == st.media
        }),
{
    let ghost m0 = byte_part_views(media@);
    let zones = &slide.layout.zones;
    let mut b = Build { shapes: String::new(), rels: String::new(), next_id: 2, next_rel: 2 };
    let mut i: usize = 0;
    assert(zones@.take(0) =~= Seq::<Zone>::empty());
    while i < zones.len()
        invariant
            i <= zones.len(),
            zones@.len() <= isize::MAX,
            zones == slide.layout.zones,
            slide_ok(*slide.layout, slide.fields@),
            b.next_id <= i + 2,
            b.next_rel <= i + 2,
            ({
                let st = slide_walk(slide_start(m0), zones@.take(i as int), slide.fields@);
                &&& b.shapes@ == st.shapes
                &&& b.rels@ == st.rels
                &&& b.next_id == st.next_id
                &&& b.next_rel == st.next_rel
                &&& byte_part_views(media@) == st.media
            }),
        decreases zones.len() - i,
    {
        let z = &zones[i];
        assert(zones@.take(i + 1).drop_last() =~= zones@.take(i as int));
        assert(zones@.take(i + 1).last() == *z);
        let content = lookup(&slide.fields, z.name.as_str());
        assert(fit_in_range(zones@[i as int], field_for(slide.fields@, zones@[i as int].name@)));
        add_zone(&mut b, media, z, content);
        i += 1;
    }
    assert(zones@.take(zones.len() as int) =~= zones@);
    let mut xml = SLD_0.to_string();
    text::append(&mut xml, b.shapes.as_str());
    text::append(&mut xml, SLD_1);
    let mut rels = SLD_RELS_0.to_string();
    text::append_decimal(&mut rels, layout_index as u64);
    text::append(&mut rels, SLD_RELS_1);
    text::append(&mut rels, b.rels.as_str());
    text::append(&mut rels, SLD_RELS_2);
    (xml, rels)
}

/// A layout a deck can show natively: some zone is an editable text
/// placeholder or a picture.
pub open spec fn deck_eligible(d: LayoutDef) -> bool {
    exists|k: int|
        0 <= k < d.zones@.len() && (is_placeholder(#[trigger] d.zones@[k]) || d.zones@[k].rep == ZoneRep::Picture)
}

/// Some layout of `ls` is named `name`.
pub open spec fn has_layout_named(ls: Seq<LayoutDef>, name: Seq<char>) -> bool {
    exists|k: int| 0 <= k < ls.len() && (#[trigger] ls[k]).name@ == name
}

/// The layouts of the slides, each name once in first-seen order, and
/// the names, each once, of the layouts a deck cannot show.
pub open spec fn deck_layouts(layouts: Seq<LayoutDef>) -> (Seq<LayoutDef>, Seq<Seq<char>>)
    decreases layouts.len(),
{
    if layouts.len() == 0 {
        (Seq::empty(), Seq::empty())
    } else {
        let (distinct, bad) = deck_layouts(layouts.drop_last());
        let d = layouts.last();
        if !deck_eligible(d) {
            if bad.contains(d.name@) {
                (distinct, bad)
            } else {
                (distinct, bad.push(d.name@))
            }
        } else if has_layout_named(distinct, d.name@) {
            (distinct, bad)
        } else {
            (distinct.push(d), bad)
        }
    }
}

/// The names in order (see [`insert_name`]).
pub open spec fn sort_names(ns: Seq<Seq<char>>) -> Seq<Seq<char>>
    decreases ns.len(),
{
    if ns.len() == 0 {
        ns
    } else {
        insert_name(sort_names(ns.drop_last()), ns.last())
    }
}

/// The 1-based position of the template layout named `name`.
pub open spec fn layout_position(ts: Seq<TemplateView>, name: Seq<char>) -> Option<nat>
    decreases ts.len(),
{
    if ts.len() == 0 {
        None
    } else if ts.last().0 == name {
        Some(ts.len())
    } else {
        layout_position(ts.drop_last(), name)
    }
}

/// The slide parts of a deck so far, and its media.
pub type DeckBuild = (Seq<(Seq<char>, Seq<char>)>, Seq<(Seq<char>, Seq<u8>)>);

/// The slide parts of `slides` (the `i`-th numbered `i + 1`), each built
/// over the media of the slides before it.
pub open spec fn slide_parts(slides: Seq<SlideInput>, ts: Seq<TemplateView>) -> DeckBuild
    decreases slides.len(),
{
    if slides.len() == 0 {
        (Seq::empty(), Seq::empty())
    } else {
        let (parts, media) = slide_parts(slides.drop_last(), ts);
        let s = slides.last();
        let n = slides.len();
        let st = slide_walk(slide_start(media), s.layout.zones@, s.fields@);
        let li = match layout_position(ts, s.layout.name@) {
            Some(p) => p,
            None => 0,
        };
        (
            parts + seq![
                ("ppt/slides/slide"@ + text::decimal(n) + ".xml"@, slide_xml_spec(st.shapes)),
                ("ppt/slides/_rels/slide"@ + text::decimal(n) + ".xml.rels"@, slide_rels_spec(li, st.rels)),
            ],
            st.media,
        )
    }
}

/// The refusal of a deck with layouts it cannot show.
pub open spec fn not_eligible_message(names: Seq<Seq<char>>) -> Seq<char> {
    "These layouts have no PPTX placeholder zones, so their slides can't export as editable PowerPoint: "@
        + text::join(names, ", "@)
        + ". Annotate them with `<!-- sldr:zone \u{2026} rep=placeholder-text \u{2026} -->`, or export with `--flatten` (screenshot mode)."@
}

/// What a deck of `slides` is: refused without slides, or when a slide's
/// layout can show nothing natively (naming those layouts in order);
/// otherwise the zip of the base parts, one slideLayout per distinct
/// layout with placeholder zones, and the slides with their pictures.
pub open spec fn deck_spec(theme: Theme, title: Seq<char>, slides: Seq<SlideInput>) -> Result<Seq<u8>, Seq<char>> {
    if slides.len() == 0 {
        Err("PPTX deck needs at least one slide"@)
    } else {
        let (distinct, bad) = deck_layouts(slides.map_values(|s: SlideInput| *s.layout));
        if bad.len() > 0 {
            Err(not_eligible_message(sort_names(bad)))
        } else if picture_only(distinct).len() > 0 {
            Err(not_eligible_message(sort_names(picture_only(distinct))))
        } else {
            let ts = template_layouts_spec(distinct);
            let (sp, media) = slide_parts(slides, ts);
            zip_bytes(
                base_parts(theme, title, ts.len(), slides.len()) + layout_parts(ts) + sp,
                part_compression().0,
                media,
                part_compression().1,
            )
        }
    }
}

/// The names of the layouts among `ls` that show only pictures: no
/// placeholder-text zone, so no slideLayout can hold their slides.
pub open spec fn picture_only(ls: Seq<LayoutDef>) -> Seq<Seq<char>>
    decreases ls.len(),
{
    if ls.len() == 0 {
        Seq::empty()
    } else if placeholders_of(ls.last().zones@).len() == 0 {
        picture_only(ls.drop_last()).push(ls.last().name@)
    } else {
        picture_only(ls.drop_last())
    }
}

/// Every slide's layout has a slideLayout once the deck's layouts are all
/// ones it can show.
pub open spec fn deck_indexable(slides: Seq<SlideInput>) -> bool {
    let (distinct, bad) = deck_layouts(slides.map_values(|s: SlideInput| *s.layout));
    bad.len() == 0 ==> forall|i: int|
        0 <= i < slides.len() ==> layout_position(template_layouts_spec(distinct), (#[trigger] slides[i]).layout.name@)
            is Some
}

/// Whether a deck can show a layout (see [`deck_eligible`]).
fn is_deck_eligible(d: &LayoutDef) -> (b: bool)
    ensures
        b == deck_eligible(*d),
{
    let mut k: usize = 0;
    while k < d.zones.len()
        invariant
            k <= d.zones.len(),
            forall|j: int|
                0 <= j < k ==> !(is_placeholder(#[trigger] d.zones@[j]) || d.zones@[j].rep == ZoneRep::Picture),
        decreases d.zones.len() - k,
    {
        let z = &d.zones[k];
        if zone_is_placeholder(z) || z.rep == ZoneRep::Picture {
            assert(is_placeholder(d.zones@[k as int]) || d.zones@[k as int].rep == ZoneRep::Picture);
            return true;
        }
        k += 1;
    }
    false
}

/// Whether some layout of `ls` is named `name`.
fn has_named(ls: &Vec<&LayoutDef>, name: &str) -> (b: bool)
    ensures
        b == has_layout_named(ls@.map_values(|d: &LayoutDef| *d), name@),
{
    let ghost v = ls@.map_values(|d: &LayoutDef| *d);
    let nc = text::chars_of(name);
    let mut k: usize = 0;
    while k < ls.len()
        invariant
            k <= ls.len(),
            v == ls@.map_values(|d: &LayoutDef| *d),
            nc@ == name@,
            forall|j: int| 0 <= j < k ==> (#[trigger] v[j]).name@ != name@,
        decreases ls.len() - k,
    {
        assert(v[k as int] == *ls@[k as int]);
        let c = text::chars_of(ls[k].name.as_str());
        if text::eq_chars(c.as_slice(), nc.as_slice()) {
            return true;
        }
        k += 1;
    }
    false
}

/// Whether `v` holds `x`.
fn holds_name(v: &Vec<String>, x: &str) -> (b: bool)
    ensures
        b == text::string_views(v@).contains(x@),
{
    let xc = text::chars_of(x);
    let mut i: usize = 0;
    while i < v.len()
        invariant
            i <= v.len(),
            xc@ == x@,
            forall|k: int| 0 <= k < i ==> text::string_views(v@)[k] != x@,
        decreases v.len() - i,
    {
        let c = text::chars_of(v[i].as_str());
        if text::eq_chars(c.as_slice(), xc.as_slice()) {
            assert(text::string_views(v@)[i as int] == x@);
            return true;
        }
        i += 1;
    }
    false
}

/// The names in order (see [`sort_names`]).
fn sort_names_exec(ns: &Vec<String>) -> (r: Vec<Vec<char>>)
    ensures
        text::views(r@) == sort_names(text::string_views(ns@)),
{
    let ghost all = text::string_views(ns@);
    let mut out: Vec<Vec<char>> = Vec::new();
    let mut i: usize = 0;
    assert(all.take(0) =~= Seq::<Seq<char>>::empty());
    assert(text::views(out@) =~= Seq::<Seq<char>>::empty());
    while i < ns.len()
        invariant
            i <= ns.len(),
            all == text::string_views(ns@),
            text::views(out@) == sort_names(all.take(i as int)),
        decreases ns.len() - i,
    {
        assert(all.take(i + 1).drop_last() =~= all.take(i as int));
        assert(all.take(i + 1).last() == ns@[i as int]@);
        let x = text::chars_of(ns[i].as_str());
        let ghost v = text::views(out@);
        let mut j: usize = out.len();
        assert(v.take(j as int) =~= v);
        assert(v.skip(j as int) =~= Seq::<Seq<char>>::empty());
        while j > 0 && text::chars_lt(x.as_slice(), out[j - 1].as_slice())
            invariant
                j <= out.len(),
                v == text::views(out@),
                insert_name(v, x@) == insert_name(v.take(j as int), x@) + v.skip(j as int),
            decreases j,
        {
            let ghost t = v.take(j as int);
            assert(t.drop_last() =~= v.take(j - 1));
            assert(t.last() == v[j - 1]);
            assert(insert_name(t, x@) == insert_name(v.take(j - 1), x@).push(v[j - 1]));
            assert(insert_name(v.take(j - 1), x@).push(v[j - 1]) + v.skip(j as int) =~= insert_name(v.take(j - 1), x@)
                + v.skip(j - 1));
            j -= 1;
        }
        proof {
            if j > 0 {
                assert(v.take(j as int).last() == v[j - 1]);
            }
        }
        let ghost xv = x@;
        out.insert(j, x);
        assert(text::views(out@) =~= v.take(j as int).push(xv) + v.skip(j as int));
        i += 1;
    }
    assert(all.take(ns.len() as int) =~= all);
    out
}

/// The 1-based position of the template layout named `name` (see
/// [`layout_position`]).
fn position_of(ts: &Vec<TemplateLayout>, name: &str) -> (r: usize)
    ensures
        r == match layout_position(template_views(ts@), name@) {
            Some(p) => p,
            None => 0,
        },
{
    let ghost tv = template_views(ts@);
    let nc = text::chars_of(name);
    let mut j: usize = ts.len();
    assert(tv.take(j as int) =~= tv);
    while j > 0
        invariant
            j <= ts.len(),
            tv == template_views(ts@),
            nc@ == name@,
            layout_position(tv, name@) == layout_position(tv.take(j as int), name@),
        decreases j,
    {
        assert(tv.take(j as int).last() == ts@[j - 1].view());
        assert(tv.take(j as int).drop_last() =~= tv.take(j - 1));
        let c = text::chars_of(ts[j - 1].name.as_str());
        if text::eq_chars(c.as_slice(), nc.as_slice()) {
            return j;
        }
        j -= 1;
    }
    0
}

/// The refusal naming `names`, sorted (see [`not_eligible_message`]).
fn refusal_message(names: &Vec<String>) -> (m: String)
    ensures
        m@ == not_eligible_message(sort_names(text::string_views(names@))),
{
    let sorted = sort_names_exec(names);
    let sep = text::chars_of(", ");
    let joined = text::join_chars(&sorted, sep.as_slice());
    let mut m = "These layouts have no PPTX placeholder zones, so their slides can't export as editable PowerPoint: ".to_string();
    let j = text::string_of(joined.as_slice());
    text::append(&mut m, j.as_str());
    text::append(
        &mut m,
        ". Annotate them with `<!-- sldr:zone \u{2026} rep=placeholder-text \u{2026} -->`, or export with `--flatten` (screenshot mode).",
    );
    m
}

/// An editable deck of `slides` titled `title` (see [`deck_spec`]): every
/// slide fills the placeholders of its layout with native text and its
/// picture zones with embedded images. A slide whose layout can show
/// nothing natively, or only pictures (no placeholder-text zone), refuses
/// the whole deck, naming the layouts.
#[verifier::rlimit(50)]
pub fn build_deck(theme: &Theme, title: &str, slides: &[SlideInput]) -> (r: Result<Vec<u8>, String>)
    requires
        slides.len() <= isize::MAX,
        forall|i: int|
            0 <= i < slides.len() ==> slide_ok(*(#[trigger] slides@[i]).layout, slides@[i].fields@)
                && slides@[i].layout.zones@.len() <= isize::MAX,
    ensures
        match r {
            Ok(b) => deck_spec(*theme, title@, slides@) == Ok::<Seq<u8>, Seq<char>>(b@),
            Err(e) => deck_spec(*theme, title@, slides@) == Err::<Seq<u8>, Seq<char>>(e@),
        },
{
    if slides.len() == 0 {
        return Err("PPTX deck needs at least one slide".to_string());
    }
    let ghost defs = slides@.map_values(|s: SlideInput| *s.layout);
    let mut distinct: Vec<&LayoutDef> = Vec::new();
    let mut bad: Vec<String> = Vec::new();
    let mut i: usize = 0;
    assert(defs.take(0) =~= Seq::<LayoutDef>::empty());
    assert(distinct@.map_values(|d: &LayoutDef| *d) =~= Seq::<LayoutDef>::empty());
    assert(text::string_views(bad@) =~= Seq::<Seq<char>>::empty());
    while i < slides.len()
        invariant
            i <= slides.len(),
            defs == slides@.map_values(|s: SlideInput| *s.layout),
            distinct@.len() <= i,
            distinct@.map_values(|d: &LayoutDef| *d) == deck_layouts(defs.take(i as int)).0,
            text::string_views(bad@) == deck_layouts(defs.take(i as int)).1,
        decreases slides.len() - i,
    {
        let d = slides[i].layout;
        assert(defs.take(i + 1).drop_last() =~= defs.take(i as int));
        assert(defs.take(i + 1).last() == *d);
        if !is_deck_eligible(d) {
            if !holds_name(&bad, d.name.as_str()) {
                let ghost before = text::string_views(bad@);
                bad.push(d.name.clone());
                assert(text::string_views(bad@) =~= before.push(d.name@));
            }
        } else if !has_named(&distinct, d.name.as_str()) {
            let ghost before = distinct@.map_values(|x: &LayoutDef| *x);
            distinct.push(d);
            assert(distinct@.map_values(|x: &LayoutDef| *x) =~= before.push(*d));
        }
        i += 1;
    }
    assert(defs.take(slides.len() as int) =~= defs);
    if bad.len() > 0 {
        return Err(refusal_message(&bad));
    }
    let ghost dv = distinct@.map_values(|d: &LayoutDef| *d);
    let mut pics: Vec<String> = Vec::new();
    let mut q: usize = 0;
    assert(dv.take(0) =~= Seq::<LayoutDef>::empty());
    assert(text::string_views(pics@) =~= Seq::<Seq<char>>::empty());
    while q < distinct.len()
        invariant
            q <= distinct.len(),
            dv == distinct@.map_values(|d: &LayoutDef| *d),
            text::string_views(pics@) == picture_only(dv.take(q as int)),
        decreases distinct.len() - q,
    {
        assert(dv.take(q + 1).drop_last() =~= dv.take(q as int));
        assert(dv.take(q + 1).last() == *distinct@[q as int]);
        let zs = placeholder_zones(distinct[q]);
        if zs.len() == 0 {
            let ghost before = text::string_views(pics@);
            let c = distinct[q].name.clone();
            pics.push(c);
            assert(text::string_views(pics@) =~= before.push(distinct@[q as int].name@));
        }
        q += 1;
    }
    assert(dv.take(distinct.len() as int) =~= dv);
    if pics.len() > 0 {
        return Err(refusal_message(&pics));
    }
    proof {
        lemma_deck_indexable(slides@);
    }
    let layouts = to_template_layouts(distinct.as_slice());
    proof {
        lemma_template_layouts_len(distinct@.map_values(|d: &LayoutDef| *d));
    }
    let ghost ts = template_views(layouts@);
    let mut parts: Vec<(String, String)> = Vec::new();
    push_base_parts(&mut parts, theme, title, layouts.len(), slides.len());
    push_layout_parts(&mut parts, &layouts);
    let ghost head = text_part_views(parts@);
    let mut media: Vec<(String, Vec<u8>)> = Vec::new();
    let mut k: usize = 0;
    assert(slides@.take(0) =~= Seq::<SlideInput>::empty());
    assert(byte_part_views(media@) =~= Seq::<(Seq<char>, Seq<u8>)>::empty());
    while k < slides.len()
        invariant
            k <= slides.len(),
            ts == template_views(layouts@),
            forall|i: int|
                0 <= i < slides.len() ==> slide_ok(*(#[trigger] slides@[i]).layout, slides@[i].fields@)
                    && slides@[i].layout.zones@.len() <= isize::MAX,
            text_part_views(parts@) == head + slide_parts(slides@.take(k as int), ts).0,
            byte_part_views(media@) == slide_parts(slides@.take(k as int), ts).1,
        decreases slides.len() - k,
    {
        let s = &slides[k];
        assert(slides@.take(k + 1).drop_last() =~= slides@.take(k as int));
        assert(slides@.take(k + 1).last() == *s);
        let li = position_of(&layouts, s.layout.name.as_str());
        let ghost before = text_part_views(parts@);
        let (xml, rels) = build_slide(s, li, &mut media);
        let mut xn = "ppt/slides/slide".to_string();
        append_wide(&mut xn, (k as u128) + 1);
        text::append(&mut xn, ".xml");
        let mut rn = "ppt/slides/_rels/slide".to_string();
        append_wide(&mut rn, (k as u128) + 1);
        text::append(&mut rn, ".xml.rels");
        let ghost p1 = (xn@, xml@);
        let ghost p2 = (rn@, rels@);
        parts.push((xn, xml));
        parts.push((rn, rels));
        assert(text_part_views(parts@) =~= before + seq![p1, p2]);
        k += 1;
    }
    assert(slides@.take(slides.len() as int) =~= slides@);
    zip_mixed(parts.as_slice(), Compression::Deflated, media.as_slice(), Compression::Stored)
}

proof fn lemma_deck_layouts_bad(ls: Seq<LayoutDef>)
    ensures
        deck_layouts(ls).1.len() == 0 ==> forall|i: int| 0 <= i < ls.len() ==> deck_eligible(#[trigger] ls[i]),
    decreases ls.len(),
{
    if ls.len() > 0 {
        lemma_deck_layouts_bad(ls.drop_last());
        let (distinct, bad) = deck_layouts(ls.drop_last());
        if deck_layouts(ls).1.len() == 0 {
            if !deck_eligible(ls.last()) {
                if bad.contains(ls.last().name@) {
                    assert(bad.len() > 0);
                }
            }
            assert forall|i: int| 0 <= i < ls.len() implies deck_eligible(#[trigger] ls[i]) by {
                if i < ls.len() - 1 {
                    assert(ls.drop_last()[i] == ls[i]);
                }
            }
        }
    }
}

/// A deck is only ever made of slides whose layouts it can show: a deck
/// that is built has slides, and every slide's layout has a placeholder
/// or picture zone.
pub proof fn lemma_deck_shows_every_layout(theme: Theme, title: Seq<char>, slides: Seq<SlideInput>)
    ensures
        deck_spec(theme, title, slides) is Ok ==> slides.len() > 0 && forall|i: int|
            0 <= i < slides.len() ==> deck_eligible(*(#[trigger] slides[i]).layout),
{
    let ls = slides.map_values(|s: SlideInput| *s.layout);
    lemma_deck_layouts_bad(ls);
    if deck_spec(theme, title, slides) is Ok {
        assert forall|i: int| 0 <= i < slides.len() implies deck_eligible(*(#[trigger] slides[i]).layout) by {
            assert(ls[i] == *slides[i].layout);
        }
    }
}

proof fn lemma_placeholders_of(zs: Seq<Zone>)
    ensures
        forall|k: int| 0 <= k < placeholders_of(zs).len() ==> is_placeholder(#[trigger] placeholders_of(zs)[k]),
    decreases zs.len(),
{
    if zs.len() > 0 {
        lemma_placeholders_of(zs.drop_last());
        let before = placeholders_of(zs.drop_last());
        let r = placeholders_of(zs);
        assert forall|k: int| 0 <= k < r.len() implies is_placeholder(#[trigger] r[k]) by {
            if k < before.len() {
                assert(r[k] == before[k]);
            }
        }
    }
}

proof fn lemma_template_layouts(defs: Seq<LayoutDef>)
    ensures
        forall|k: int|
            0 <= k < template_layouts_spec(defs).len() ==> (#[trigger] template_layouts_spec(defs)[k]).2.len() > 0
                && forall|j: int|
                0 <= j < template_layouts_spec(defs)[k].2.len() ==> is_placeholder(
                    #[trigger] template_layouts_spec(defs)[k].2[j],
                ),
    decreases defs.len(),
{
    if defs.len() > 0 {
        lemma_template_layouts(defs.drop_last());
        lemma_placeholders_of(defs.last().zones@);
        let before = template_layouts_spec(defs.drop_last());
        let r = template_layouts_spec(defs);
        assert forall|k: int| 0 <= k < r.len() implies (#[trigger] r[k]).2.len() > 0 && forall|j: int|
            0 <= j < r[k].2.len() ==> is_placeholder(#[trigger] r[k].2[j]) by {
            if k < before.len() {
                assert(r[k] == before[k]);
            }
        }
    }
}

/// A template that is built has layouts, and each of its slideLayouts
/// carries at least one placeholder, each an editable text placeholder.
pub proof fn lemma_template_has_placeholders(theme: Theme, layouts: Seq<LayoutDef>)
    ensures
        template_spec(theme, layouts) is Ok ==> layouts.len() > 0 && template_layouts_spec(layouts).len() > 0,
        forall|k: int|
            0 <= k < template_layouts_spec(layouts).len() ==> (#[trigger] template_layouts_spec(layouts)[k]).2.len()
                > 0 && forall|j: int|
                0 <= j < template_layouts_spec(layouts)[k].2.len() ==> is_placeholder(
                    #[trigger] template_layouts_spec(layouts)[k].2[j],
                ),
{
    lemma_template_layouts(layouts);
}

/// Every layout a deck can show is among its distinct layouts by name.
proof fn lemma_deck_layouts_named(ls: Seq<LayoutDef>)
    ensures
        forall|i: int|
            0 <= i < ls.len() && deck_eligible(#[trigger] ls[i]) ==> has_layout_named(deck_layouts(ls).0, ls[i].name@),
    decreases ls.len(),
{
    if ls.len() > 0 {
        let init = ls.drop_last();
        lemma_deck_layouts_named(init);
        let (distinct, bad) = deck_layouts(init);
        let d2 = deck_layouts(ls).0;
        assert forall|i: int| 0 <= i < ls.len() && deck_eligible(#[trigger] ls[i]) implies has_layout_named(
            d2,
            ls[i].name@,
        ) by {
            if i < ls.len() - 1 {
                assert(init[i] == ls[i]);
                assert(has_layout_named(distinct, ls[i].name@));
                let k = choose|k: int| 0 <= k < distinct.len() && (#[trigger] distinct[k]).name@ == ls[i].name@;
                if d2 != distinct {
                    assert(d2 == distinct.push(ls.last()));
                    assert(d2[k] == distinct[k]);
                }
                assert(d2[k].name@ == ls[i].name@);
            } else {
                if !has_layout_named(distinct, ls.last().name@) {
                    assert(d2 == distinct.push(ls.last()));
                    assert(d2[distinct.len() as int] == ls.last());
                }
            }
        }
    }
}

/// With no picture-only layout, every named layout has a slideLayout.
proof fn lemma_position_of_named(ls: Seq<LayoutDef>, name: Seq<char>)
    requires
        picture_only(ls).len() == 0,
        has_layout_named(ls, name),
    ensures
        layout_position(template_layouts_spec(ls), name) is Some,
    decreases ls.len(),
{
    let init = ls.drop_last();
    let d = ls.last();
    assert(placeholders_of(d.zones@).len() > 0);
    let ts = template_layouts_spec(ls);
    assert(ts == template_layouts_spec(init).push(
        (d.name@, layout_type_spec(placeholders_of(d.zones@)), placeholders_of(d.zones@)),
    ));
    assert(ts.drop_last() =~= template_layouts_spec(init));
    if d.name@ != name {
        let k = choose|k: int| 0 <= k < ls.len() && (#[trigger] ls[k]).name@ == name;
        assert(k < ls.len() - 1);
        assert(init[k] == ls[k]);
        assert(has_layout_named(init, name));
        lemma_position_of_named(init, name);
    }
}

/// A deck whose layouts are all ones it can show, none of them showing
/// only pictures, has a slideLayout for every slide.
proof fn lemma_deck_indexable(slides: Seq<SlideInput>)
    requires
        deck_layouts(slides.map_values(|s: SlideInput| *s.layout)).1.len() == 0,
        picture_only(deck_layouts(slides.map_values(|s: SlideInput| *s.layout)).0).len() == 0,
    ensures
        deck_indexable(slides),
{
    let defs = slides.map_values(|s: SlideInput| *s.layout);
    let distinct = deck_layouts(defs).0;
    lemma_deck_layouts_bad(defs);
    lemma_deck_layouts_named(defs);
    assert forall|i: int| 0 <= i < slides.len() implies layout_position(
        template_layouts_spec(distinct),
        (#[trigger] slides[i]).layout.name@,
    ) is Some by {
        assert(defs[i] == *slides[i].layout);
        assert(deck_eligible(defs[i]));
        lemma_position_of_named(distinct, defs[i].name@);
    }
}

} // verus!
