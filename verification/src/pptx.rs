//! Native PPTX part builders: the theme taken from a flavor, and the XML
//! parts of a package (content types, relationships, presentation, master)
//! as exact text.
use vstd::prelude::*;
use crate::flavor::Flavor;
use crate::report::{Disposition, Report};
use crate::text;

verus! {

broadcast use vstd::string::group_string_axioms;

pub const CT_HEAD: &'static str = "<?xml version=\"1.0\" encoding=\"UTF-8\" standalone=\"yes\"?>\n<Types xmlns=\"http://schemas.openxmlformats.org/package/2006/content-types\">\n<Default Extension=\"rels\" ContentType=\"application/vnd.openxmlformats-package.relationships+xml\"/>\n<Default Extension=\"xml\" ContentType=\"application/xml\"/>\n<Default Extension=\"png\" ContentType=\"image/png\"/>\n<Default Extension=\"jpeg\" ContentType=\"image/jpeg\"/>\n<Default Extension=\"jpg\" ContentType=\"image/jpeg\"/>\n<Override PartName=\"/ppt/presentation.xml\" ContentType=\"application/vnd.openxmlformats-officedocument.presentationml.presentation.main+xml\"/>\n<Override PartName=\"/ppt/presProps.xml\" ContentType=\"application/vnd.openxmlformats-officedocument.presentationml.presProps+xml\"/>\n<Override PartName=\"/ppt/theme/theme1.xml\" ContentType=\"application/vnd.openxmlformats-officedocument.theme+xml\"/>\n<Override PartName=\"/ppt/slideMasters/slideMaster1.xml\" ContentType=\"application/vnd.openxmlformats-officedocument.presentationml.slideMaster+xml\"/>\n";

pub const CT_TAIL: &'static str = "\n<Override PartName=\"/docProps/core.xml\" ContentType=\"application/vnd.openxmlformats-package.core-properties+xml\"/>\n<Override PartName=\"/docProps/app.xml\" ContentType=\"application/vnd.openxmlformats-officedocument.extended-properties+xml\"/>\n</Types>";

pub const PR_HEAD: &'static str = "<?xml version=\"1.0\" encoding=\"UTF-8\" standalone=\"yes\"?>\n<Relationships xmlns=\"http://schemas.openxmlformats.org/package/2006/relationships\">\n<Relationship Id=\"rId1\" Type=\"http://schemas.openxmlformats.org/officeDocument/2006/relationships/slideMaster\" Target=\"slideMasters/slideMaster1.xml\"/>\n<Relationship Id=\"rId2\" Type=\"http://schemas.openxmlformats.org/officeDocument/2006/relationships/theme\" Target=\"theme/theme1.xml\"/>\n<Relationship Id=\"rId3\" Type=\"http://schemas.openxmlformats.org/officeDocument/2006/relationships/presProps\" Target=\"presProps.xml\"/>\n";

pub const PR_TAIL: &'static str = "\n</Relationships>";

pub const PX_HEAD: &'static str = "<?xml version=\"1.0\" encoding=\"UTF-8\" standalone=\"yes\"?>\n<p:presentation xmlns:a=\"http://schemas.openxmlformats.org/drawingml/2006/main\" xmlns:r=\"http://schemas.openxmlformats.org/officeDocument/2006/relationships\" xmlns:p=\"http://schemas.openxmlformats.org/presentationml/2006/main\">\n<p:sldMasterIdLst><p:sldMasterId id=\"2147483648\" r:id=\"rId1\"/></p:sldMasterIdLst>\n";

pub const PX_TAIL: &'static str = "\n<p:sldSz cx=\"12192000\" cy=\"6858000\" type=\"screen16x9\"/>\n<p:notesSz cx=\"6858000\" cy=\"9144000\"/>\n</p:presentation>";

pub const SMR_HEAD: &'static str = "<?xml version=\"1.0\" encoding=\"UTF-8\" standalone=\"yes\"?>\n<Relationships xmlns=\"http://schemas.openxmlformats.org/package/2006/relationships\">\n";

pub const SMR_MID: &'static str = "\n<Relationship Id=\"rId";

pub const SMR_TAIL: &'static str = "\" Type=\"http://schemas.openxmlformats.org/officeDocument/2006/relationships/theme\" Target=\"../theme/theme1.xml\"/>\n</Relationships>";

pub const SM_A: &'static str = "<?xml version=\"1.0\" encoding=\"UTF-8\" standalone=\"yes\"?>\n<p:sldMaster xmlns:a=\"http://schemas.openxmlformats.org/drawingml/2006/main\" xmlns:r=\"http://schemas.openxmlformats.org/officeDocument/2006/relationships\" xmlns:p=\"http://schemas.openxmlformats.org/presentationml/2006/main\">\n<p:cSld><p:bg><p:bgPr><a:solidFill><a:schemeClr val=\"dk1\"/></a:solidFill><a:effectLst/></p:bgPr></p:bg>\n<p:spTree><p:nvGrpSpPr><p:cNvPr id=\"1\" name=\"\"/><p:cNvGrpSpPr/><p:nvPr/></p:nvGrpSpPr><p:grpSpPr/>\n<p:sp><p:nvSpPr><p:cNvPr id=\"2\" name=\"Title Placeholder\"/><p:cNvSpPr><a:spLocks noGrp=\"1\"/></p:cNvSpPr><p:nvPr><p:ph type=\"title\"/></p:nvPr></p:nvSpPr>\n<p:spPr><a:xfrm><a:off x=\"";

pub const SM_B: &'static str = "\" y=\"";

pub const SM_C: &'static str = "\"/><a:ext cx=\"";

pub const SM_D: &'static str = "\" cy=\"";

pub const SM_E: &'static str = "\"/></a:xfrm></p:spPr>\n<p:txBody><a:bodyPr/><a:lstStyle/><a:p><a:r><a:rPr lang=\"en-US\"/><a:t>Master title</a:t></a:r></a:p></p:txBody></p:sp>\n</p:spTree></p:cSld>\n<p:clrMap bg1=\"dk1\" tx1=\"lt1\" bg2=\"dk2\" tx2=\"lt2\" accent1=\"accent1\" accent2=\"accent2\" accent3=\"accent3\" accent4=\"accent4\" accent5=\"accent5\" accent6=\"accent6\" hlink=\"hlink\" folHlink=\"folHlink\"/>\n<p:sldLayoutIdLst>";

pub const SM_F: &'static str = "</p:sldLayoutIdLst>\n<p:txStyles>\n<p:titleStyle><a:lvl1pPr><a:defRPr sz=\"2800\" b=\"1\"><a:solidFill><a:schemeClr val=\"tx1\"/></a:solidFill><a:latin typeface=\"+mj-lt\"/></a:defRPr></a:lvl1pPr></p:titleStyle>\n<p:bodyStyle><a:lvl1pPr marL=\"285750\" indent=\"-285750\"><a:buFont typeface=\"Arial\"/><a:buChar char=\"&#9642;\"/><a:defRPr sz=\"1800\"><a:solidFill><a:schemeClr val=\"tx1\"/></a:solidFill><a:latin typeface=\"+mn-lt\"/></a:defRPr></a:lvl1pPr></p:bodyStyle>\n<p:otherStyle><a:defPPr><a:defRPr lang=\"en-US\"/></a:defPPr></p:otherStyle>\n</p:txStyles>\n</p:sldMaster>";

pub const TH_0: &'static str = "<?xml version=\"1.0\" encoding=\"UTF-8\" standalone=\"yes\"?>\n<a:theme xmlns:a=\"http://schemas.openxmlformats.org/drawingml/2006/main\" name=\"";

pub const TH_1: &'static str = "\">\n<a:themeElements>\n<a:clrScheme name=\"sldr\">\n<a:dk1><a:srgbClr val=\"";

pub const TH_2: &'static str = "\"/></a:dk1><a:lt1><a:srgbClr val=\"";

pub const TH_3: &'static str = "\"/></a:lt1>\n<a:dk2><a:srgbClr val=\"";

pub const TH_4: &'static str = "\"/></a:dk2><a:lt2><a:srgbClr val=\"";

pub const TH_5: &'static str = "\"/></a:lt2>\n<a:accent1><a:srgbClr val=\"";

pub const TH_6: &'static str = "\"/></a:accent1><a:accent2><a:srgbClr val=\"";

pub const TH_7: &'static str = "\"/></a:accent2>\n<a:accent3><a:srgbClr val=\"";

pub const TH_8: &'static str = "\"/></a:accent3><a:accent4><a:srgbClr val=\"";

pub const TH_9: &'static str = "\"/></a:accent4>\n<a:accent5><a:srgbClr val=\"";

pub const TH_10: &'static str = "\"/></a:accent5><a:accent6><a:srgbClr val=\"";

pub const TH_11: &'static str = "\"/></a:accent6>\n<a:hlink><a:srgbClr val=\"";

pub const TH_12: &'static str = "\"/></a:hlink><a:folHlink><a:srgbClr val=\"";

pub const TH_13: &'static str = "\"/></a:folHlink>\n</a:clrScheme>\n<a:fontScheme name=\"sldr\">\n<a:majorFont><a:latin typeface=\"";

pub const TH_14: &'static str = "\"/><a:ea typeface=\"\"/><a:cs typeface=\"\"/></a:majorFont>\n<a:minorFont><a:latin typeface=\"";

pub const TH_15: &'static str = "\"/><a:ea typeface=\"\"/><a:cs typeface=\"\"/></a:minorFont>\n</a:fontScheme>\n<a:fmtScheme name=\"sldr\">\n<a:fillStyleLst>\n<a:solidFill><a:schemeClr val=\"phClr\"/></a:solidFill>\n<a:solidFill><a:schemeClr val=\"phClr\"/></a:solidFill>\n<a:solidFill><a:schemeClr val=\"phClr\"/></a:solidFill>\n</a:fillStyleLst>\n<a:lnStyleLst>\n<a:ln w=\"6350\"><a:solidFill><a:schemeClr val=\"phClr\"/></a:solidFill></a:ln>\n<a:ln w=\"12700\"><a:solidFill><a:schemeClr val=\"phClr\"/></a:solidFill></a:ln>\n<a:ln w=\"19050\"><a:solidFill><a:schemeClr val=\"phClr\"/></a:solidFill></a:ln>\n</a:lnStyleLst>\n<a:effectStyleLst>\n<a:effectStyle><a:effectLst/></a:effectStyle>\n<a:effectStyle><a:effectLst/></a:effectStyle>\n<a:effectStyle><a:effectLst/></a:effectStyle>\n</a:effectStyleLst>\n<a:bgFillStyleLst>\n<a:solidFill><a:schemeClr val=\"phClr\"/></a:solidFill>\n<a:solidFill><a:schemeClr val=\"phClr\"/></a:solidFill>\n<a:solidFill><a:schemeClr val=\"phClr\"/></a:solidFill>\n</a:bgFillStyleLst>\n</a:fmtScheme>\n</a:themeElements>\n</a:theme>";

pub const ROOT_RELS: &'static str = "<?xml version=\"1.0\" encoding=\"UTF-8\" standalone=\"yes\"?>\n<Relationships xmlns=\"http://schemas.openxmlformats.org/package/2006/relationships\">\n<Relationship Id=\"rId1\" Type=\"http://schemas.openxmlformats.org/officeDocument/2006/relationships/officeDocument\" Target=\"ppt/presentation.xml\"/>\n<Relationship Id=\"rId2\" Type=\"http://schemas.openxmlformats.org/package/2006/relationships/metadata/core-properties\" Target=\"docProps/core.xml\"/>\n<Relationship Id=\"rId3\" Type=\"http://schemas.openxmlformats.org/officeDocument/2006/relationships/extended-properties\" Target=\"docProps/app.xml\"/>\n</Relationships>";

pub const CP_HEAD: &'static str = "<?xml version=\"1.0\" encoding=\"UTF-8\" standalone=\"yes\"?>\n<cp:coreProperties xmlns:cp=\"http://schemas.openxmlformats.org/package/2006/metadata/core-properties\" xmlns:dc=\"http://purl.org/dc/elements/1.1/\"><dc:title>";

pub const CP_TAIL: &'static str = "</dc:title><dc:creator>sldr</dc:creator></cp:coreProperties>";

pub const APP_PROPS: &'static str = "<?xml version=\"1.0\" encoding=\"UTF-8\" standalone=\"yes\"?>\n<Properties xmlns=\"http://schemas.openxmlformats.org/officeDocument/2006/extended-properties\"><Application>sldr</Application></Properties>";

pub const PRES_PROPS: &'static str = "<?xml version=\"1.0\" encoding=\"UTF-8\" standalone=\"yes\"?>\n<p:presentationPr xmlns:a=\"http://schemas.openxmlformats.org/drawingml/2006/main\" xmlns:r=\"http://schemas.openxmlformats.org/officeDocument/2006/relationships\" xmlns:p=\"http://schemas.openxmlformats.org/presentationml/2006/main\"/>";

pub const LAYOUT_RELS: &'static str = "<?xml version=\"1.0\" encoding=\"UTF-8\" standalone=\"yes\"?>\n<Relationships xmlns=\"http://schemas.openxmlformats.org/package/2006/relationships\">\n<Relationship Id=\"rId1\" Type=\"http://schemas.openxmlformats.org/officeDocument/2006/relationships/slideMaster\" Target=\"../slideMasters/slideMaster1.xml\"/>\n</Relationships>";


/// Theme colors and fonts of a package. Colors are 6-digit uppercase hex
/// without `#`.
#[derive(Debug, Clone)]
pub struct Theme {
    /// Theme name.
    pub name: String,
    /// `dk1`: slide background.
    pub dk1: String,
    /// `lt1`: primary text.
    pub lt1: String,
    /// `accent1`: primary accent.
    pub accent1: String,
    /// `accent2`: secondary accent.
    pub accent2: String,
    /// `lt2`: subtle surface.
    pub lt2: String,
    /// `accent4`: muted.
    pub accent4: String,
    /// Heading typeface.
    pub major_font: String,
    /// Body typeface.
    pub minor_font: String,
}

pub open spec fn is_hex(c: char) -> bool {
    ('0' <= c && c <= '9') || ('a' <= c && c <= 'f') || ('A' <= c && c <= 'F')
}

/// ASCII uppercase of a hex digit.
pub open spec fn hex_upper(c: char) -> char {
    if c == 'a' {
        'A'
    } else if c == 'b' {
        'B'
    } else if c == 'c' {
        'C'
    } else if c == 'd' {
        'D'
    } else if c == 'e' {
        'E'
    } else if c == 'f' {
        'F'
    } else {
        c
    }
}

/// `s` without its leading `c`s.
pub open spec fn strip_leading(s: Seq<char>, c: char) -> Seq<char>
    decreases s.len(),
{
    if s.len() > 0 && s[0] == c {
        strip_leading(s.drop_first(), c)
    } else {
        s
    }
}

/// A CSS color as bare 6-digit uppercase hex: `#rgb` and `#rrggbb` (any
/// number of leading `#`, surrounding white space ignored); anything else
/// has none.
pub open spec fn norm_hex_spec(color: Option<Seq<char>>) -> Option<Seq<char>> {
    match color {
        None => None,
        Some(c0) => hex_body(strip_leading(text::trim(c0), '#')),
    }
}

/// Every character of `c` is a hex digit.
pub open spec fn all_hex(c: Seq<char>) -> bool {
    forall|i: int| 0 <= i < c.len() ==> is_hex(#[trigger] c[i])
}

/// Six hex digits uppercased, or three doubled and uppercased.
pub open spec fn hex_body(c: Seq<char>) -> Option<Seq<char>> {
    if (c.len() == 6 || c.len() == 3) && all_hex(c) {
        if c.len() == 6 {
            Some(c.map_values(|ch: char| hex_upper(ch)))
        } else {
            Some(
                seq![
                    hex_upper(c[0]),
                    hex_upper(c[0]),
                    hex_upper(c[1]),
                    hex_upper(c[1]),
                    hex_upper(c[2]),
                    hex_upper(c[2]),
                ],
            )
        }
    } else {
        None
    }
}

fn hex_digit(c: char) -> (b: bool)
    ensures
        b == is_hex(c),
{
    ('0' <= c && c <= '9') || ('a' <= c && c <= 'f') || ('A' <= c && c <= 'F')
}

fn upper_hex(c: char) -> (r: char)
    ensures
        r == hex_upper(c),
{
    if c == 'a' {
        'A'
    } else if c == 'b' {
        'B'
    } else if c == 'c' {
        'C'
    } else if c == 'd' {
        'D'
    } else if c == 'e' {
        'E'
    } else if c == 'f' {
        'F'
    } else {
        c
    }
}

/// A CSS color as bare 6-digit uppercase hex (see [`norm_hex_spec`]).
#[verifier::loop_isolation(false)]
pub fn norm_hex(color: Option<&str>) -> (r: Option<String>)
    ensures
        text::opt_seq(r) == norm_hex_spec(crate::slide::opt_str(color)),
{
    let c0 = match color {
        Some(c) => c,
        None => return None,
    };
    let all = text::chars_of(c0);
    let t = text::trim_chars(all.as_slice());
    let mut a: usize = 0;
    assert(t@.skip(0) =~= t@);
    while a < t.len() && t[a] == '#'
        invariant
            a <= t.len(),
            strip_leading(t@, '#') == strip_leading(t@.skip(a as int), '#'),
        decreases t.len() - a,
    {
        assert(t@.skip(a as int).drop_first() =~= t@.skip(a + 1));
        a += 1;
    }
    let c = text::slice_vec(t.as_slice(), a, t.len());
    assert(c@ =~= t@.skip(a as int));
    assert(c@ == strip_leading(t@, '#'));
    if c.len() != 6 && c.len() != 3 {
        return None;
    }
    let mut i: usize = 0;
    while i < c.len()
        invariant
            i <= c.len(),
            forall|k: int| 0 <= k < i ==> is_hex(#[trigger] c@[k]),
        decreases c.len() - i,
    {
        if !hex_digit(c[i]) {
            assert(!is_hex(c@[i as int]));
            assert(!all_hex(c@));
            return None;
        }
        i += 1;
    }
    let mut out: Vec<char> = Vec::new();
    if c.len() == 6 {
        let mut j: usize = 0;
        while j < 6
            invariant
                j <= 6,
                c@.len() == 6,
                out@ == c@.take(j as int).map_values(|ch: char| hex_upper(ch)),
            decreases 6 - j,
        {
            out.push(upper_hex(c[j]));
            j += 1;
            assert(out@ =~= c@.take(j as int).map_values(|ch: char| hex_upper(ch)));
        }
        assert(c@.take(6) =~= c@);
    } else {
        out.push(upper_hex(c[0]));
        out.push(upper_hex(c[0]));
        out.push(upper_hex(c[1]));
        out.push(upper_hex(c[1]));
        out.push(upper_hex(c[2]));
        out.push(upper_hex(c[2]));
    }
    Some(text::string_of(out.as_slice()))
}

pub open spec fn is_quote(c: char) -> bool {
    c == '"' || c == '\''
}

pub open spec fn strip_quotes_start(s: Seq<char>) -> Seq<char>
    decreases s.len(),
{
    if s.len() > 0 && is_quote(s[0]) {
        strip_quotes_start(s.drop_first())
    } else {
        s
    }
}

pub open spec fn strip_quotes_end(s: Seq<char>) -> Seq<char>
    decreases s.len(),
{
    if s.len() > 0 && is_quote(s.last()) {
        strip_quotes_end(s.drop_last())
    } else {
        s
    }
}

/// The first family of a CSS font stack, trimmed and without quotes;
/// `Arial` when there is none.
pub open spec fn clean_font_spec(font: Option<Seq<char>>) -> Seq<char> {
    match font {
        Some(f) => {
            let first = f.take(text::index_of(f, ',', 0));
            let name = strip_quotes_end(strip_quotes_start(text::trim(first)));
            if name.len() > 0 {
                name
            } else {
                "Arial"@
            }
        },
        None => "Arial"@,
    }
}

/// The first family of a CSS font stack (see [`clean_font_spec`]).
pub fn clean_font(font: Option<&str>) -> (r: String)
    ensures
        r@ == clean_font_spec(crate::slide::opt_str(font)),
{
    let f = match font {
        Some(f) => f,
        None => return "Arial".to_string(),
    };
    let fc = text::chars_of(f);
    let e = text::index_of_char(fc.as_slice(), ',', 0);
    proof {
        text::lemma_index_of(fc@, ',', 0);
    }
    let first = text::slice_vec(fc.as_slice(), 0, e);
    assert(first@ =~= fc@.take(text::index_of(fc@, ',', 0)));
    let t = text::trim_chars(first.as_slice());
    let mut a: usize = 0;
    assert(t@.subrange(0, t@.len() as int) =~= t@);
    while a < t.len() && (t[a] == '"' || t[a] == '\'')
        invariant
            a <= t.len(),
            strip_quotes_start(t@) == strip_quotes_start(t@.subrange(a as int, t@.len() as int)),
        decreases t.len() - a,
    {
        assert(t@.subrange(a as int, t@.len() as int).drop_first() =~= t@.subrange(a + 1, t@.len() as int));
        a += 1;
    }
    let mut b: usize = t.len();
    assert(strip_quotes_start(t@) == t@.subrange(a as int, b as int));
    while b > a && (t[b - 1] == '"' || t[b - 1] == '\'')
        invariant
            a <= b <= t.len(),
            strip_quotes_end(strip_quotes_start(t@)) == strip_quotes_end(t@.subrange(a as int, b as int)),
        decreases b,
    {
        assert(t@.subrange(a as int, b as int).drop_last() =~= t@.subrange(a as int, b - 1));
        b -= 1;
    }
    if b == a {
        return "Arial".to_string();
    }
    let name = text::slice_vec(t.as_slice(), a, b);
    text::string_of(name.as_slice())
}

/// ASCII uppercase of `c`.
pub open spec fn ascii_upper(c: char) -> char {
    if 'a' <= c && c <= 'z' {
        ((c as u32) - 32) as char
    } else {
        c
    }
}

fn to_ascii_upper(c: char) -> (r: char)
    ensures
        r == ascii_upper(c),
{
    if 'a' <= c && c <= 'z' {
        let u: u8 = (c as u8) - 32;
        u as char
    } else {
        c
    }
}

/// `s` with its first character in ASCII uppercase.
pub open spec fn title_case_spec(s: Seq<char>) -> Seq<char> {
    if s.len() == 0 {
        s
    } else {
        seq![ascii_upper(s[0])] + s.drop_first()
    }
}

/// `headline` becomes `Headline`: the first character in ASCII uppercase.
pub fn title_case(s: &str) -> (r: String)
    ensures
        r@ == title_case_spec(s@),
{
    let c = text::chars_of(s);
    if c.len() == 0 {
        return String::new();
    }
    let mut out: Vec<char> = Vec::new();
    out.push(to_ascii_upper(c[0]));
    let rest = text::slice_vec(c.as_slice(), 1, c.len());
    text::push_all(&mut out, rest.as_slice());
    assert(out@ =~= title_case_spec(s@));
    text::string_of(out.as_slice())
}

/// The XML escape of one character: `&`, `<`, `>` and `"` become entities.
pub open spec fn escape_char(c: char) -> Seq<char> {
    if c == '&' {
        "&amp;"@
    } else if c == '<' {
        "&lt;"@
    } else if c == '>' {
        "&gt;"@
    } else if c == '"' {
        "&quot;"@
    } else {
        seq![c]
    }
}

/// `s` with `&`, `<`, `>` and `"` escaped.
pub open spec fn escape_spec(s: Seq<char>) -> Seq<char>
    decreases s.len(),
{
    if s.len() == 0 {
        s
    } else {
        escape_spec(s.drop_last()) + escape_char(s.last())
    }
}

/// Append `s`, XML-escaped, to `out`.
fn append_escaped(out: &mut String, s: &str)
    ensures
        final(out)@ == old(out)@ + escape_spec(s@),
{
    let c = text::chars_of(s);
    let mut i: usize = 0;
    assert(c@.take(0) =~= Seq::<char>::empty());
    while i < c.len()
        invariant
            i <= c.len(),
            c@ == s@,
            out@ == old(out)@ + escape_spec(c@.take(i as int)),
        decreases c.len() - i,
    {
        let ch = c[i];
        assert(c@.take(i + 1).drop_last() =~= c@.take(i as int));
        if ch == '&' {
            text::append(out, "&amp;");
        } else if ch == '<' {
            text::append(out, "&lt;");
        } else if ch == '>' {
            text::append(out, "&gt;");
        } else if ch == '"' {
            text::append(out, "&quot;");
        } else {
            out.push(ch);
        }
        i += 1;
        assert(out@ =~= old(out)@ + escape_spec(c@.take(i as int)));
    }
    assert(c@.take(c.len() as int) =~= c@);
}

/// `s` with `&`, `<`, `>` and `"` escaped.
pub fn xml_escape(s: &str) -> (r: String)
    ensures
        r@ == escape_spec(s@),
{
    let mut out = String::new();
    append_escaped(&mut out, s);
    assert(out@ =~= escape_spec(s@));
    out
}

/// A normalized color, or the fallback.
fn hex_or(color: Option<&str>, fallback: &str) -> (r: String)
    ensures
        r@ == match norm_hex_spec(crate::slide::opt_str(color)) {
            Some(h) => h,
            None => fallback@,
        },
{
    match norm_hex(color) {
        Some(h) => h,
        None => fallback.to_string(),
    }
}

pub open spec fn hex_or_spec(color: Option<Seq<char>>, fallback: Seq<char>) -> Seq<char> {
    match norm_hex_spec(color) {
        Some(h) => h,
        None => fallback,
    }
}

impl Theme {
    /// A theme from resolved colors and font names: each color normalized
    /// to bare uppercase hex, falling back to its default when it is not a
    /// plain hex triple; each font reduced to one family.
    pub fn from_parts(
        name: &str,
        dk1: Option<&str>,
        lt1: Option<&str>,
        accent1: Option<&str>,
        accent2: Option<&str>,
        lt2: Option<&str>,
        accent4: Option<&str>,
        major_font: Option<&str>,
        minor_font: Option<&str>,
    ) -> (t: Theme)
        ensures
            t.name@ == name@,
            t.dk1@ == hex_or_spec(crate::slide::opt_str(dk1), "0F172A"@),
            t.lt1@ == hex_or_spec(crate::slide::opt_str(lt1), "FFFFFF"@),
            t.accent1@ == hex_or_spec(crate::slide::opt_str(accent1), "3B82F6"@),
            t.accent2@ == hex_or_spec(crate::slide::opt_str(accent2), "F59E0B"@),
            t.lt2@ == hex_or_spec(crate::slide::opt_str(lt2), "E2E8F0"@),
            t.accent4@ == hex_or_spec(crate::slide::opt_str(accent4), "94A3B8"@),
            t.major_font@ == clean_font_spec(crate::slide::opt_str(major_font)),
            t.minor_font@ == clean_font_spec(crate::slide::opt_str(minor_font)),
    {
        Theme {
            name: name.to_string(),
            dk1: hex_or(dk1, "0F172A"),
            lt1: hex_or(lt1, "FFFFFF"),
            accent1: hex_or(accent1, "3B82F6"),
            accent2: hex_or(accent2, "F59E0B"),
            lt2: hex_or(lt2, "E2E8F0"),
            accent4: hex_or(accent4, "94A3B8"),
            major_font: clean_font(major_font),
            minor_font: clean_font(minor_font),
        }
    }
}

/// The first of two optional strings that is set.
pub open spec fn or_ref(a: Option<String>, b: Option<String>) -> Option<Seq<char>> {
    match a {
        Some(s) => Some(s@),
        None => text::opt_seq(b),
    }
}

fn as_ref_str(o: &Option<String>) -> (r: Option<&str>)
    ensures
        crate::slide::opt_str(r) == text::opt_seq(*o),
{
    match o {
        Some(s) => Some(s.as_str()),
        None => None,
    }
}

fn first_set<'a>(a: &'a Option<String>, b: &'a Option<String>) -> (r: Option<&'a str>)
    ensures
        crate::slide::opt_str(r) == or_ref(*a, *b),
{
    match a {
        Some(s) => Some(s.as_str()),
        None => as_ref_str(b),
    }
}

impl Theme {
    /// The theme of a flavor: named by its display name (else its name),
    /// `dk1` from the background, `lt1` from the text, accents from accent
    /// (else primary) and secondary (else accent), `lt2` from the surface,
    /// `accent4` from the dim text (else muted), fonts from the heading and
    /// body fonts.
    pub fn from_flavor(flavor: &Flavor) -> (t: Theme)
        ensures
            t.name@ == match flavor.display_name {
                Some(d) => d@,
                None => flavor.name@,
            },
            t.dk1@ == hex_or_spec(text::opt_seq(flavor.colors.background), "0F172A"@),
            t.lt1@ == hex_or_spec(text::opt_seq(flavor.colors.text), "FFFFFF"@),
            t.accent1@ == hex_or_spec(or_ref(flavor.colors.accent, flavor.colors.primary), "3B82F6"@),
            t.accent2@ == hex_or_spec(or_ref(flavor.colors.secondary, flavor.colors.accent), "F59E0B"@),
            t.lt2@ == hex_or_spec(text::opt_seq(flavor.colors.surface), "E2E8F0"@),
            t.accent4@ == hex_or_spec(or_ref(flavor.colors.text_dim, flavor.colors.muted), "94A3B8"@),
            t.major_font@ == clean_font_spec(text::opt_seq(flavor.typography.heading_font)),
            t.minor_font@ == clean_font_spec(text::opt_seq(flavor.typography.body_font)),
    {
        let c = &flavor.colors;
        let ty = &flavor.typography;
        let name: &str = match &flavor.display_name {
            Some(d) => d.as_str(),
            None => flavor.name.as_str(),
        };
        Theme::from_parts(
            name,
            as_ref_str(&c.background),
            as_ref_str(&c.text),
            first_set(&c.accent, &c.primary),
            first_set(&c.secondary, &c.accent),
            as_ref_str(&c.surface),
            first_set(&c.text_dim, &c.muted),
            as_ref_str(&ty.heading_font),
            as_ref_str(&ty.body_font),
        )
    }
}

/// The theme part: color, font and format schemes.
pub open spec fn theme_spec(t: Theme) -> Seq<char> {
    TH_0@ + escape_spec(t.name@) + TH_1@ + t.dk1@ + TH_2@ + t.lt1@ + TH_3@ + t.dk1@ + TH_4@ + t.lt2@ + TH_5@ + t.accent1@ + TH_6@ + t.accent2@ + TH_7@ + t.lt2@ + TH_8@ + t.accent4@ + TH_9@ + t.accent1@ + TH_10@ + t.accent2@ + TH_11@ + t.accent1@ + TH_12@ + t.accent4@ + TH_13@ + escape_spec(t.major_font@) + TH_14@ + escape_spec(t.minor_font@) + TH_15@
}

/// The theme part of `t`.
#[verifier::rlimit(60)]
pub fn theme_xml(t: &Theme) -> (s: String)
    ensures
        s@ == theme_spec(*t),
{
    let mut s = String::new();
    assert(s@ =~= Seq::<char>::empty());
    text::append(&mut s, TH_0);
    let ghost a0 = TH_0@;
    assert(s@ =~= a0);
    append_escaped(&mut s, t.name.as_str());
    let ghost a1 = a0 + escape_spec(t.name@);
    assert(s@ =~= a1);
    text::append(&mut s, TH_1);
    let ghost a2 = a1 + TH_1@;
    assert(s@ =~= a2);
    text::append(&mut s, t.dk1.as_str());
    let ghost a3 = a2 + t.dk1@;
    assert(s@ =~= a3);
    text::append(&mut s, TH_2);
    let ghost a4 = a3 + TH_2@;
    assert(s@ =~= a4);
    text::append(&mut s, t.lt1.as_str());
    let ghost a5 = a4 + t.lt1@;
    assert(s@ =~= a5);
    text::append(&mut s, TH_3);
    let ghost a6 = a5 + TH_3@;
    assert(s@ =~= a6);
    text::append(&mut s, t.dk1.as_str());
    let ghost a7 = a6 + t.dk1@;
    assert(s@ =~= a7);
    text::append(&mut s, TH_4);
    let ghost a8 = a7 + TH_4@;
    assert(s@ =~= a8);
    text::append(&mut s, t.lt2.as_str());
    let ghost a9 = a8 + t.lt2@;
    assert(s@ =~= a9);
    text::append(&mut s, TH_5);
    let ghost a10 = a9 + TH_5@;
    assert(s@ =~= a10);
    text::append(&mut s, t.accent1.as_str());
    let ghost a11 = a10 + t.accent1@;
    assert(s@ =~= a11);
    text::append(&mut s, TH_6);
    let ghost a12 = a11 + TH_6@;
    assert(s@ =~= a12);
    text::append(&mut s, t.accent2.as_str());
    let ghost a13 = a12 + t.accent2@;
    assert(s@ =~= a13);
    text::append(&mut s, TH_7);
    let ghost a14 = a13 + TH_7@;
    assert(s@ =~= a14);
    text::append(&mut s, t.lt2.as_str());
    let ghost a15 = a14 + t.lt2@;
    assert(s@ =~= a15);
    text::append(&mut s, TH_8);
    let ghost a16 = a15 + TH_8@;
    assert(s@ =~= a16);
    text::append(&mut s, t.accent4.as_str());
    let ghost a17 = a16 + t.accent4@;
    assert(s@ =~= a17);
    text::append(&mut s, TH_9);
    let ghost a18 = a17 + TH_9@;
    assert(s@ =~= a18);
    text::append(&mut s, t.accent1.as_str());
    let ghost a19 = a18 + t.accent1@;
    assert(s@ =~= a19);
    text::append(&mut s, TH_10);
    let ghost a20 = a19 + TH_10@;
    assert(s@ =~= a20);
    text::append(&mut s, t.accent2.as_str());
    let ghost a21 = a20 + t.accent2@;
    assert(s@ =~= a21);
    text::append(&mut s, TH_11);
    let ghost a22 = a21 + TH_11@;
    assert(s@ =~= a22);
    text::append(&mut s, t.accent1.as_str());
    let ghost a23 = a22 + t.accent1@;
    assert(s@ =~= a23);
    text::append(&mut s, TH_12);
    let ghost a24 = a23 + TH_12@;
    assert(s@ =~= a24);
    text::append(&mut s, t.accent4.as_str());
    let ghost a25 = a24 + t.accent4@;
    assert(s@ =~= a25);
    text::append(&mut s, TH_13);
    let ghost a26 = a25 + TH_13@;
    assert(s@ =~= a26);
    append_escaped(&mut s, t.major_font.as_str());
    let ghost a27 = a26 + escape_spec(t.major_font@);
    assert(s@ =~= a27);
    text::append(&mut s, TH_14);
    let ghost a28 = a27 + TH_14@;
    assert(s@ =~= a28);
    append_escaped(&mut s, t.minor_font.as_str());
    let ghost a29 = a28 + escape_spec(t.minor_font@);
    assert(s@ =~= a29);
    text::append(&mut s, TH_15);
    let ghost a30 = a29 + TH_15@;
    assert(s@ =~= a30);
    s
}

pub const CT_LAYOUT_A: &'static str = "<Override PartName=\"/ppt/slideLayouts/slideLayout";

pub const CT_LAYOUT_B: &'static str = ".xml\" ContentType=\"application/vnd.openxmlformats-officedocument.presentationml.slideLayout+xml\"/>";

pub const CT_SLIDE_A: &'static str = "<Override PartName=\"/ppt/slides/slide";

pub const CT_SLIDE_B: &'static str = ".xml\" ContentType=\"application/vnd.openxmlformats-officedocument.presentationml.slide+xml\"/>";

pub const PR_ITEM_A: &'static str = "<Relationship Id=\"rId";

pub const PR_ITEM_B: &'static str = "\" Type=\"http://schemas.openxmlformats.org/officeDocument/2006/relationships/slide\" Target=\"slides/slide";

pub const PR_ITEM_C: &'static str = ".xml\"/>";

pub const PX_ID_A: &'static str = "<p:sldId id=\"";

pub const PX_ID_B: &'static str = "\" r:id=\"rId";

pub const PX_ID_C: &'static str = "\"/>";

pub const PX_LIST_OPEN: &'static str = "<p:sldIdLst>";

pub const PX_LIST_CLOSE: &'static str = "</p:sldIdLst>";

pub const SMR_ITEM_A: &'static str = "<Relationship Id=\"rId";

pub const SMR_ITEM_B: &'static str = "\" Type=\"http://schemas.openxmlformats.org/officeDocument/2006/relationships/slideLayout\" Target=\"../slideLayouts/slideLayout";

pub const SMR_ITEM_C: &'static str = ".xml\"/>";

pub const SM_ID_A: &'static str = "<p:sldLayoutId id=\"";

pub const SM_ID_B: &'static str = "\" r:id=\"rId";

pub const SM_ID_C: &'static str = "\"/>";

/// The slide width in EMU (16:9).
pub const SLIDE_W_EMU: u64 = 12192000;

/// The slide height in EMU (16:9).
pub const SLIDE_H_EMU: u64 = 6858000;

/// `v` or, when larger, the largest `u64` (as a float converts).
pub open spec fn saturate_u64(v: int) -> int {
    if v > u64::MAX {
        u64::MAX as int
    } else {
        v
    }
}

/// `t` tenths of a percent of the slide width, in EMU, rounded, saturating
/// at the largest `u64`.
pub fn emu_x_tenths(t: u64) -> (r: u64)
    ensures
        r == saturate_u64((SLIDE_W_EMU * t + 500) / 1000),
{
    let w: u128 = 12192000;
    let v: u128 = (w * (t as u128) + 500) / 1000;
    if v > 0xFFFF_FFFF_FFFF_FFFFu128 {
        0xFFFF_FFFF_FFFF_FFFFu64
    } else {
        v as u64
    }
}

/// `t` tenths of a percent of the slide height, in EMU, rounded,
/// saturating at the largest `u64`.
pub fn emu_y_tenths(t: u64) -> (r: u64)
    ensures
        r == saturate_u64((SLIDE_H_EMU * t + 500) / 1000),
{
    let h: u128 = 6858000;
    let v: u128 = (h * (t as u128) + 500) / 1000;
    if v > 0xFFFF_FFFF_FFFF_FFFFu128 {
        0xFFFF_FFFF_FFFF_FFFFu64
    } else {
        v as u64
    }
}

pub open spec fn layout_override(n: nat) -> Seq<char> {
    CT_LAYOUT_A@ + text::decimal(n) + CT_LAYOUT_B@
}

pub open spec fn slide_override(n: nat) -> Seq<char> {
    CT_SLIDE_A@ + text::decimal(n) + CT_SLIDE_B@
}

/// `item(1) + … + item(k)`.
pub open spec fn repeat(k: nat, item: spec_fn(nat) -> Seq<char>) -> Seq<char>
    decreases k,
{
    if k == 0 {
        Seq::empty()
    } else {
        repeat((k - 1) as nat, item) + item(k)
    }
}

/// The content-types part: defaults, the fixed overrides, one override per
/// slide layout and per slide, numbered from 1.
pub open spec fn content_types_spec(layouts: nat, slides: nat) -> Seq<char> {
    CT_HEAD@ + repeat(layouts, |n: nat| layout_override(n)) + repeat(slides, |n: nat| slide_override(n))
        + CT_TAIL@
}

/// The content-types part for `layout_count` layouts and `slide_count` slides.
pub fn content_types(layout_count: usize, slide_count: usize) -> (s: String)
    ensures
        s@ == content_types_spec(layout_count as nat, slide_count as nat),
{
    let mut s = String::new();
    text::append(&mut s, CT_HEAD);
    let ghost head = s@;
    let mut n: usize = 0;
    while n < layout_count
        invariant
            n <= layout_count,
            s@ == head + repeat(n as nat, |k: nat| layout_override(k)),
        decreases layout_count - n,
    {
        n += 1;
        text::append(&mut s, CT_LAYOUT_A);
        text::append_decimal(&mut s, n as u64);
        text::append(&mut s, CT_LAYOUT_B);
        assert(s@ =~= head + repeat(n as nat, |k: nat| layout_override(k)));
    }
    let ghost mid = s@;
    let mut m: usize = 0;
    while m < slide_count
        invariant
            m <= slide_count,
            s@ == mid + repeat(m as nat, |k: nat| slide_override(k)),
        decreases slide_count - m,
    {
        m += 1;
        text::append(&mut s, CT_SLIDE_A);
        text::append_decimal(&mut s, m as u64);
        text::append(&mut s, CT_SLIDE_B);
        assert(s@ =~= mid + repeat(m as nat, |k: nat| slide_override(k)));
    }
    text::append(&mut s, CT_TAIL);
    assert(s@ =~= content_types_spec(layout_count as nat, slide_count as nat));
    s
}

/// The package relationships part.
pub fn root_rels() -> (s: String)
    ensures
        s@ == ROOT_RELS@,
{
    ROOT_RELS.to_string()
}

/// The extended-properties part.
pub fn app_props() -> (s: String)
    ensures
        s@ == APP_PROPS@,
{
    APP_PROPS.to_string()
}

/// The presentation-properties part.
pub fn pres_props() -> (s: String)
    ensures
        s@ == PRES_PROPS@,
{
    PRES_PROPS.to_string()
}

/// The relationships of a slide layout: its master.
pub fn slide_layout_rels() -> (s: String)
    ensures
        s@ == LAYOUT_RELS@,
{
    LAYOUT_RELS.to_string()
}

/// The core-properties part titled `title` (escaped), created by sldr.
pub fn core_props(title: &str) -> (s: String)
    ensures
        s@ == CP_HEAD@ + escape_spec(title@) + CP_TAIL@,
{
    let mut s = String::new();
    text::append(&mut s, CP_HEAD);
    append_escaped(&mut s, title);
    text::append(&mut s, CP_TAIL);
    s
}

/// The relationship of slide `i + 1` (id `rId(4 + i)`).
pub open spec fn slide_rel(i: nat) -> Seq<char> {
    PR_ITEM_A@ + text::decimal(4 + i) + PR_ITEM_B@ + text::decimal(i + 1) + PR_ITEM_C@
}

/// `item(0) + … + item(k - 1)`.
pub open spec fn repeat0(k: nat, item: spec_fn(nat) -> Seq<char>) -> Seq<char>
    decreases k,
{
    if k == 0 {
        Seq::empty()
    } else {
        repeat0((k - 1) as nat, item) + item((k - 1) as nat)
    }
}

/// The presentation relationships: master, theme and properties as
/// `rId1` to `rId3`, then slide `i + 1` as `rId(4 + i)`.
pub fn presentation_rels(slide_count: usize) -> (s: String)
    requires
        slide_count <= u64::MAX - 4,
    ensures
        s@ == PR_HEAD@ + repeat0(slide_count as nat, |i: nat| slide_rel(i)) + PR_TAIL@,
{
    let mut s = String::new();
    text::append(&mut s, PR_HEAD);
    let ghost head = s@;
    let mut i: usize = 0;
    while i < slide_count
        invariant
            i <= slide_count <= u64::MAX - 4,
            s@ == head + repeat0(i as nat, |k: nat| slide_rel(k)),
        decreases slide_count - i,
    {
        text::append(&mut s, PR_ITEM_A);
        text::append_decimal(&mut s, 4 + i as u64);
        text::append(&mut s, PR_ITEM_B);
        text::append_decimal(&mut s, i as u64 + 1);
        text::append(&mut s, PR_ITEM_C);
        i += 1;
        assert(s@ =~= head + repeat0(i as nat, |k: nat| slide_rel(k)));
    }
    text::append(&mut s, PR_TAIL);
    s
}

/// The id entry of slide `i + 1`: id `256 + i`, relationship `rId(4 + i)`.
pub open spec fn slide_id(i: nat) -> Seq<char> {
    PX_ID_A@ + text::decimal(256 + i) + PX_ID_B@ + text::decimal(4 + i) + PX_ID_C@
}

/// The presentation part: master, slide list (absent without slides), and
/// the 16:9 slide size.
pub open spec fn presentation_spec(slides: nat) -> Seq<char> {
    PX_HEAD@ + (if slides == 0 {
        Seq::empty()
    } else {
        PX_LIST_OPEN@ + repeat0(slides, |i: nat| slide_id(i)) + PX_LIST_CLOSE@
    }) + PX_TAIL@
}

/// The presentation part for `slide_count` slides.
pub fn presentation_xml(slide_count: usize) -> (s: String)
    requires
        slide_count <= u64::MAX - 256,
    ensures
        s@ == presentation_spec(slide_count as nat),
{
    let mut s = String::new();
    text::append(&mut s, PX_HEAD);
    if slide_count > 0 {
        text::append(&mut s, PX_LIST_OPEN);
        let ghost head = s@;
        let mut i: usize = 0;
        while i < slide_count
            invariant
                i <= slide_count <= u64::MAX - 256,
                s@ == head + repeat0(i as nat, |k: nat| slide_id(k)),
            decreases slide_count - i,
        {
            text::append(&mut s, PX_ID_A);
            text::append_decimal(&mut s, 256 + i as u64);
            text::append(&mut s, PX_ID_B);
            text::append_decimal(&mut s, 4 + i as u64);
            text::append(&mut s, PX_ID_C);
            i += 1;
            assert(s@ =~= head + repeat0(i as nat, |k: nat| slide_id(k)));
        }
        text::append(&mut s, PX_LIST_CLOSE);
    }
    text::append(&mut s, PX_TAIL);
    assert(s@ =~= presentation_spec(slide_count as nat));
    s
}

/// The relationship of slide layout `n` (id `rIdn`).
pub open spec fn layout_rel(n: nat) -> Seq<char> {
    SMR_ITEM_A@ + text::decimal(n) + SMR_ITEM_B@ + text::decimal(n) + SMR_ITEM_C@
}

/// The master's relationships: its layouts `rId1`…, then its theme.
pub fn slide_master_rels(layout_count: usize) -> (s: String)
    requires
        layout_count < u64::MAX,
    ensures
        s@ == SMR_HEAD@ + repeat(layout_count as nat, |n: nat| layout_rel(n)) + SMR_MID@ + text::decimal(
            layout_count as nat + 1,
        ) + SMR_TAIL@,
{
    let mut s = String::new();
    text::append(&mut s, SMR_HEAD);
    let ghost head = s@;
    let mut n: usize = 0;
    while n < layout_count
        invariant
            n <= layout_count < u64::MAX,
            s@ == head + repeat(n as nat, |k: nat| layout_rel(k)),
        decreases layout_count - n,
    {
        n += 1;
        text::append(&mut s, SMR_ITEM_A);
        text::append_decimal(&mut s, n as u64);
        text::append(&mut s, SMR_ITEM_B);
        text::append_decimal(&mut s, n as u64);
        text::append(&mut s, SMR_ITEM_C);
        assert(s@ =~= head + repeat(n as nat, |k: nat| layout_rel(k)));
    }
    text::append(&mut s, SMR_MID);
    text::append_decimal(&mut s, layout_count as u64 + 1);
    text::append(&mut s, SMR_TAIL);
    s
}

/// The layout id entry of layout `n`: id `2147483648 + n`, `rIdn`.
pub open spec fn layout_id(n: nat) -> Seq<char> {
    SM_ID_A@ + text::decimal(2147483648 + n) + SM_ID_B@ + text::decimal(n) + SM_ID_C@
}

/// The master: dark background, a title placeholder at 4.4%/6.3% of the
/// slide sized 70%×12%, the layout ids, and the text styles with the square
/// bullet.
pub open spec fn slide_master_spec(layouts: nat) -> Seq<char> {
    SM_A@ + text::decimal(536448) + SM_B@ + text::decimal(432054) + SM_C@ + text::decimal(8534400)
        + SM_D@ + text::decimal(822960) + SM_E@ + repeat(layouts, |n: nat| layout_id(n)) + SM_F@
}

/// The slide master over `layout_count` layouts.
pub fn slide_master_xml(layout_count: usize) -> (s: String)
    requires
        layout_count <= u64::MAX - 2147483648,
    ensures
        s@ == slide_master_spec(layout_count as nat),
{
    let mut s = String::new();
    text::append(&mut s, SM_A);
    text::append_decimal(&mut s, emu_x_tenths(44));
    text::append(&mut s, SM_B);
    text::append_decimal(&mut s, emu_y_tenths(63));
    text::append(&mut s, SM_C);
    text::append_decimal(&mut s, emu_x_tenths(700));
    text::append(&mut s, SM_D);
    text::append_decimal(&mut s, emu_y_tenths(120));
    text::append(&mut s, SM_E);
    let ghost head = s@;
    let mut n: usize = 0;
    while n < layout_count
        invariant
            n <= layout_count <= u64::MAX - 2147483648,
            s@ == head + repeat(n as nat, |k: nat| layout_id(k)),
        decreases layout_count - n,
    {
        n += 1;
        text::append(&mut s, SM_ID_A);
        text::append_decimal(&mut s, 2147483648u64 + n as u64);
        text::append(&mut s, SM_ID_B);
        text::append_decimal(&mut s, n as u64);
        text::append(&mut s, SM_ID_C);
        assert(s@ =~= head + repeat(n as nat, |k: nat| layout_id(k)));
    }
    text::append(&mut s, SM_F);
    assert(s@ =~= slide_master_spec(layout_count as nat));
    s
}

pub const LOGO_REMEDY: &'static str = "Logo is not yet supplied to native PPTX; retain HTML or choose explicit lossy export";

pub const CSS_REMEDY: &'static str = "CSS is not interpreted by the native PPTX writer";

pub const BACKGROUND_REMEDY: &'static str = "Only colors.background currently maps to the master; CSS backgrounds/effects do not";

pub const COLOR_REMEDY: &'static str = "Native palette requires #RGB or #RRGGBB; fallback color would be used";

/// An unsupported flavor feature, located in the `flavor` part.
pub open spec fn flavor_finding(element: Seq<char>, feature: Seq<char>, remedy: Seq<char>) -> crate::report::FindingView {
    crate::report::FindingView {
        slide: None,
        part: "flavor"@,
        element,
        feature,
        severity: crate::report::Severity::Warning,
        disposition: Disposition::Unsupported,
        remedy,
    }
}

/// One finding per placed logo, `logos/0` onwards.
pub open spec fn logo_findings(k: nat) -> Seq<crate::report::FindingView>
    decreases k,
{
    if k == 0 {
        Seq::empty()
    } else {
        logo_findings((k - 1) as nat).push(
            flavor_finding("logos/"@ + text::decimal((k - 1) as nat), "logo_asset"@, LOGO_REMEDY@),
        )
    }
}

/// The finding for a color that is set but is no hex triple.
pub open spec fn color_finding(name: Seq<char>, color: Option<String>) -> Seq<crate::report::FindingView> {
    match color {
        Some(c) => if norm_hex_spec(Some(c@)) is None {
            seq![flavor_finding(name, "non_hex_color"@, COLOR_REMEDY@)]
        } else {
            Seq::empty()
        },
        None => Seq::empty(),
    }
}

/// What the native writer cannot project from a flavor: its logos, custom
/// CSS that is not blank, a background override, and colors that are not
/// hex triples (background, text, accent, primary, secondary, surface, dim
/// text, muted, in that order).
pub open spec fn flavor_report_spec(f: Flavor) -> Seq<crate::report::FindingView> {
    let css = if f.custom_css is Some && text::trim(f.custom_css->0@).len() > 0 {
        seq![flavor_finding("custom_css"@, "custom_css"@, CSS_REMEDY@)]
    } else {
        Seq::empty()
    };
    let bg = if f.background.background_type is Some || f.background.value is Some || f.background.opacity is Some {
        seq![flavor_finding("background"@, "background_override"@, BACKGROUND_REMEDY@)]
    } else {
        Seq::empty()
    };
    logo_findings(f.logos@.len()) + css + bg + color_finding("background"@, f.colors.background)
        + color_finding("text"@, f.colors.text) + color_finding("accent"@, f.colors.accent) + color_finding(
        "primary"@,
        f.colors.primary,
    ) + color_finding("secondary"@, f.colors.secondary) + color_finding("surface"@, f.colors.surface)
        + color_finding("text_dim"@, f.colors.text_dim) + color_finding("muted"@, f.colors.muted)
}

fn record_color(report: &mut Report, name: &str, color: &Option<String>)
    ensures
        final(report).schema_version == old(report).schema_version,
        crate::report::finding_views(final(report).findings@) == crate::report::finding_views(
            old(report).findings@,
        ) + color_finding(name@, *color),
{
    match color {
        Some(c) => {
            if norm_hex(Some(c.as_str())).is_none() {
                report.record(None, "flavor", name, "non_hex_color", Disposition::Unsupported, COLOR_REMEDY);
            } else {
                assert(crate::report::finding_views(report.findings@) =~= crate::report::finding_views(
                    old(report).findings@,
                ) + color_finding(name@, *color));
            }
        },
        None => {
            assert(crate::report::finding_views(report.findings@) =~= crate::report::finding_views(
                old(report).findings@,
            ) + color_finding(name@, *color));
        },
    }
}

/// Report the flavor features the native writer does not project (see
/// [`flavor_report_spec`]); every one is unsupported.
#[verifier::rlimit(60)]
pub fn flavor_report(flavor: &Flavor) -> (r: Report)
    ensures
        r.schema_version == 1,
        crate::report::finding_views(r.findings@) == flavor_report_spec(*flavor),
{
    let mut report = Report::default();
    assert(crate::report::finding_views(report.findings@) =~= Seq::<crate::report::FindingView>::empty());
    let mut i: usize = 0;
    while i < flavor.logos.len()
        invariant
            i <= flavor.logos@.len(),
            report.schema_version == 1,
            crate::report::finding_views(report.findings@) == logo_findings(i as nat),
        decreases flavor.logos@.len() - i,
    {
        let mut element = String::new();
        text::append(&mut element, "logos/");
        text::append_decimal(&mut element, i as u64);
        report.record(None, "flavor", element.as_str(), "logo_asset", Disposition::Unsupported, LOGO_REMEDY);
        i += 1;
    }
    let ghost g0 = crate::report::finding_views(report.findings@);
    let css_blank = match &flavor.custom_css {
        Some(css) => {
            let cs = text::chars_of(css.as_str());
            let t = text::trim_chars(cs.as_slice());
            t.len() == 0
        },
        None => true,
    };
    if !css_blank {
        report.record(None, "flavor", "custom_css", "custom_css", Disposition::Unsupported, CSS_REMEDY);
    }
    let ghost g1 = crate::report::finding_views(report.findings@);
    if flavor.background.background_type.is_some() || flavor.background.value.is_some() || flavor.background.opacity.is_some() {
        report.record(
            None,
            "flavor",
            "background",
            "background_override",
            Disposition::Unsupported,
            BACKGROUND_REMEDY,
        );
    }
    let ghost g2 = crate::report::finding_views(report.findings@);
    let c = &flavor.colors;
    record_color(&mut report, "background", &c.background);
    record_color(&mut report, "text", &c.text);
    record_color(&mut report, "accent", &c.accent);
    record_color(&mut report, "primary", &c.primary);
    record_color(&mut report, "secondary", &c.secondary);
    record_color(&mut report, "surface", &c.surface);
    record_color(&mut report, "text_dim", &c.text_dim);
    record_color(&mut report, "muted", &c.muted);
    assert(crate::report::finding_views(report.findings@) =~= flavor_report_spec(*flavor));
    report
}

/// An uppercase hex digit.
pub open spec fn is_upper_hex(c: char) -> bool {
    ('0' <= c && c <= '9') || ('A' <= c && c <= 'F')
}

/// Six uppercase hex digits, as a theme color is written.
pub open spec fn upper_hex6(s: Seq<char>) -> bool {
    s.len() == 6 && forall|i: int| 0 <= i < s.len() ==> is_upper_hex(#[trigger] s[i])
}

/// One font family, as a theme font is written: not empty, no comma.
pub open spec fn one_family(f: Seq<char>) -> bool {
    f.len() > 0 && forall|i: int| 0 <= i < f.len() ==> #[trigger] f[i] != ','
}

pub open spec fn lacks(s: Seq<char>, c: char) -> bool {
    forall|i: int| 0 <= i < s.len() ==> #[trigger] s[i] != c
}

proof fn lemma_lacks_trim_start(s: Seq<char>, c: char)
    requires
        lacks(s, c),
    ensures
        lacks(text::trim_start(s), c),
    decreases s.len(),
{
    if s.len() > 0 && text::is_ws(s[0]) {
        assert forall|i: int| 0 <= i < s.drop_first().len() implies #[trigger] s.drop_first()[i] != c by {
            assert(s.drop_first()[i] == s[i + 1]);
        }
        lemma_lacks_trim_start(s.drop_first(), c);
    }
}

proof fn lemma_lacks_trim_end(s: Seq<char>, c: char)
    requires
        lacks(s, c),
    ensures
        lacks(text::trim_end(s), c),
    decreases s.len(),
{
    if s.len() > 0 && text::is_ws(s.last()) {
        assert forall|i: int| 0 <= i < s.drop_last().len() implies #[trigger] s.drop_last()[i] != c by {
            assert(s.drop_last()[i] == s[i]);
        }
        lemma_lacks_trim_end(s.drop_last(), c);
    }
}

proof fn lemma_lacks_quotes_start(s: Seq<char>, c: char)
    requires
        lacks(s, c),
    ensures
        lacks(strip_quotes_start(s), c),
    decreases s.len(),
{
    if s.len() > 0 && is_quote(s[0]) {
        assert forall|i: int| 0 <= i < s.drop_first().len() implies #[trigger] s.drop_first()[i] != c by {
            assert(s.drop_first()[i] == s[i + 1]);
        }
        lemma_lacks_quotes_start(s.drop_first(), c);
    }
}

proof fn lemma_lacks_quotes_end(s: Seq<char>, c: char)
    requires
        lacks(s, c),
    ensures
        lacks(strip_quotes_end(s), c),
    decreases s.len(),
{
    if s.len() > 0 && is_quote(s.last()) {
        assert forall|i: int| 0 <= i < s.drop_last().len() implies #[trigger] s.drop_last()[i] != c by {
            assert(s.drop_last()[i] == s[i]);
        }
        lemma_lacks_quotes_end(s.drop_last(), c);
    }
}

proof fn lemma_hex_or_upper(color: Option<Seq<char>>, fallback: Seq<char>)
    requires
        upper_hex6(fallback),
    ensures
        upper_hex6(hex_or_spec(color, fallback)),
{
    if let Some(c0) = color {
        let c = strip_leading(text::trim(c0), '#');
        if let Some(h) = hex_body(c) {
            assert forall|i: int| 0 <= i < h.len() implies is_upper_hex(#[trigger] h[i]) by {
                if c.len() == 6 {
                    assert(h[i] == hex_upper(c[i]));
                    assert(is_hex(c[i]));
                } else {
                    assert(is_hex(c[0]) && is_hex(c[1]) && is_hex(c[2]));
                }
            }
        }
    }
}

proof fn lemma_clean_font_one_family(font: Option<Seq<char>>)
    ensures
        one_family(clean_font_spec(font)),
{
    reveal_strlit("Arial");
    if let Some(f) = font {
        text::lemma_index_of(f, ',', 0);
        let first = f.take(text::index_of(f, ',', 0));
        assert forall|i: int| 0 <= i < first.len() implies #[trigger] first[i] != ',' by {
            assert(first[i] == f[i]);
        }
        lemma_lacks_trim_start(first, ',');
        lemma_lacks_trim_end(text::trim_start(first), ',');
        lemma_lacks_quotes_start(text::trim(first), ',');
        lemma_lacks_quotes_end(strip_quotes_start(text::trim(first)), ',');
    }
}

/// Every theme built from parts is well formed, whatever the parts: each
/// of its six colors is six uppercase hex digits (a color that is no hex
/// triple falls back to its default), and each font is one family, not
/// empty and without a comma.
pub proof fn lemma_theme_parts_well_formed(color: Option<Seq<char>>, font: Option<Seq<char>>)
    ensures
        upper_hex6(hex_or_spec(color, "0F172A"@)),
        upper_hex6(hex_or_spec(color, "FFFFFF"@)),
        upper_hex6(hex_or_spec(color, "3B82F6"@)),
        upper_hex6(hex_or_spec(color, "F59E0B"@)),
        upper_hex6(hex_or_spec(color, "E2E8F0"@)),
        upper_hex6(hex_or_spec(color, "94A3B8"@)),
        one_family(clean_font_spec(font)),
{
    reveal_strlit("0F172A");
    reveal_strlit("FFFFFF");
    reveal_strlit("3B82F6");
    reveal_strlit("F59E0B");
    reveal_strlit("E2E8F0");
    reveal_strlit("94A3B8");
    lemma_hex_or_upper(color, "0F172A"@);
    lemma_hex_or_upper(color, "FFFFFF"@);
    lemma_hex_or_upper(color, "3B82F6"@);
    lemma_hex_or_upper(color, "F59E0B"@);
    lemma_hex_or_upper(color, "E2E8F0"@);
    lemma_hex_or_upper(color, "94A3B8"@);
    lemma_clean_font_one_family(font);
}

} // verus!
