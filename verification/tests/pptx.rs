use sldr::flavor::{ColorScheme, Flavor, LogoPlacement, Opacity};
use sldr::pptx::{
    clean_font, content_types, core_props, flavor_report, norm_hex, presentation_rels, presentation_xml,
    slide_master_rels, slide_master_xml, theme_xml, title_case, xml_escape, Theme,
};
use sldr::report::{Disposition, Report, Severity};

fn theme() -> Theme {
    Theme::from_parts(
        "sldr demo",
        Some("#0F172A"),
        Some("#FFFFFF"),
        Some("#3B82F6"),
        Some("#F59E0B"),
        Some("#E2E8F0"),
        Some("#94A3B8"),
        Some("Inter, sans-serif"),
        Some("Inter"),
    )
}

#[test]
fn test_norm_hex_and_clean_font() {
    assert_eq!(norm_hex(Some("#0f172a")).as_deref(), Some("0F172A"));
    assert_eq!(norm_hex(Some("fff")).as_deref(), Some("FFFFFF"));
    assert_eq!(norm_hex(Some("rgb(1,2,3)")), None);
    assert_eq!(norm_hex(None), None);
    assert_eq!(clean_font(Some("\"Inter\", sans-serif")), "Inter");
    assert_eq!(clean_font(None), "Arial");
}

#[test]
fn norm_hex_edge_cases() {
    assert_eq!(norm_hex(Some("  ##abc ")).as_deref(), Some("AABBCC"));
    assert_eq!(norm_hex(Some("#12345")), None);
    assert_eq!(norm_hex(Some("#ggg")), None);
    assert_eq!(clean_font(Some(" , serif")), "Arial");
    assert_eq!(clean_font(Some("'Fira Code'")), "Fira Code");
}

#[test]
fn theme_part_carries_colors_and_fonts() {
    let t = theme_xml(&theme());
    assert!(t.contains(r#"<a:dk1><a:srgbClr val="0F172A"/></a:dk1>"#));
    assert!(t.contains(r#"<a:accent1><a:srgbClr val="3B82F6"/></a:accent1>"#));
    assert!(t.contains(r#"<a:latin typeface="Inter"/>"#));
    assert!(t.contains(r#"name="sldr demo""#));
}

#[test]
fn theme_falls_back_on_bad_colors() {
    let t = Theme::from_parts("x", Some("red"), None, None, None, None, None, None, None);
    assert_eq!(t.dk1, "0F172A");
    assert_eq!(t.lt1, "FFFFFF");
    assert_eq!(t.accent1, "3B82F6");
    assert_eq!(t.major_font, "Arial");
}

#[test]
fn theme_from_flavor_uses_fallback_chain() {
    let mut f = Flavor::default();
    f.colors = ColorScheme { primary: Some("#112233".into()), muted: Some("#445566".into()), ..Default::default() };
    let t = Theme::from_flavor(&f);
    assert_eq!(t.name, "Default");
    assert_eq!(t.accent1, "112233");
    assert_eq!(t.accent4, "445566");
}

#[test]
fn master_part_declares_square_bullet() {
    let m = slide_master_xml(1);
    assert!(m.contains(r#"<a:buChar char="&#9642;"/>"#));
    assert!(m.contains(r#"<a:off x="536448" y="432054"/>"#));
    assert!(m.contains(r#"<p:sldLayoutId id="2147483649" r:id="rId1"/>"#));
}

#[test]
fn part_builders_number_their_entries() {
    let ct = content_types(2, 1);
    assert!(ct.contains("/ppt/slideLayouts/slideLayout2.xml"));
    assert!(ct.contains("/ppt/slides/slide1.xml"));
    assert!(!ct.contains("slide2.xml\" ContentType=\"application/vnd.openxmlformats-officedocument.presentationml.slide+xml"));
    let pr = presentation_rels(2);
    assert!(pr.contains(r#"<Relationship Id="rId5" Type="http://schemas.openxmlformats.org/officeDocument/2006/relationships/slide" Target="slides/slide2.xml"/>"#));
    let px = presentation_xml(0);
    assert!(!px.contains("sldIdLst"));
    let px = presentation_xml(2);
    assert!(px.contains(r#"<p:sldIdLst><p:sldId id="256" r:id="rId4"/><p:sldId id="257" r:id="rId5"/></p:sldIdLst>"#));
    let smr = slide_master_rels(2);
    assert!(smr.contains(r#"Id="rId3" Type="http://schemas.openxmlformats.org/officeDocument/2006/relationships/theme""#));
    assert!(core_props("A & B").contains("<dc:title>A &amp; B</dc:title>"));
}

#[test]
fn title_case_and_escape() {
    assert_eq!(title_case("headline"), "Headline");
    assert_eq!(title_case("two-cols"), "Two-cols");
    assert_eq!(title_case(""), "");
    assert_eq!(xml_escape("a<b>&\"c\""), "a&lt;b&gt;&amp;&quot;c&quot;");
}

#[test]
fn flavor_report_lists_unsupported_features() {
    let mut f = Flavor::default();
    let logo = LogoPlacement {
        file: "logo.svg".into(),
        position: "top-right".into(),
        x: None,
        y: None,
        width: "100px".into(),
        opacity: "0.8".into(),
        layouts: vec!["all".into()],
    };
    f.logos = vec![logo.clone(), logo];
    f.custom_css = Some("  ".into());
    f.background.opacity = Some(Opacity { text: "1".into(), below_one: false });
    f.colors.accent = Some("oklch(0.7 0.1 200)".into());
    f.colors.text = Some("#fff".into());
    let r = flavor_report(&f);
    let elems: Vec<&str> = r.findings.iter().map(|x| x.element.as_str()).collect();
    assert_eq!(elems, vec!["logos/0", "logos/1", "background", "accent"]);
    assert!(r.findings.iter().all(|x| x.disposition == Disposition::Unsupported && x.severity == Severity::Warning));
    assert!(r.enforce(false).is_err());
    assert!(r.enforce(true).is_ok());
}

#[test]
fn report_record_enforce_and_render() {
    let mut r = Report::default();
    assert_eq!(r.schema_version, 1);
    r.record(Some("s1"), "ppt/slides/slide1.xml", "title", "text", Disposition::Converted, "ok");
    assert_eq!(r.findings[0].severity, Severity::Info);
    assert!(r.enforce(false).is_ok());
    assert_eq!(r.render(), "");
    r.record(None, "ppt/x.xml", "pic", "image", Disposition::Baked, "baked");
    assert_eq!(r.findings[1].severity, Severity::Warning);
    assert!(r.enforce(true).is_ok());
    let err = r.enforce(false).unwrap_err();
    assert_eq!(err.0.findings.len(), 2);
    assert_eq!(r.render(), "Baked: ppt/x.xml#pic: image \u{2014} baked\n");
    r.record(None, "p", "e", "f", Disposition::Conflicting, "fix");
    assert_eq!(r.findings[2].severity, Severity::Error);
    assert!(r.enforce(true).is_err());
    assert!(err.render().starts_with("PPTX conversion rejected; destination unchanged\n"));
}

#[test]
fn theme_from_any_parts_is_well_formed() {
    let t = Theme::from_parts(
        "x",
        Some("#abc"),
        Some("not a color"),
        Some("  ##12aB9f "),
        None,
        Some("#12345"),
        Some(""),
        Some("'Fira Sans', Arial, sans-serif"),
        Some(" , Arial"),
    );
    for h in [&t.dk1, &t.lt1, &t.accent1, &t.accent2, &t.lt2, &t.accent4] {
        assert_eq!(h.len(), 6);
        assert!(h.chars().all(|c| matches!(c, '0'..='9' | 'A'..='F')));
    }
    assert_eq!(t.dk1, "AABBCC");
    assert_eq!(t.lt1, "FFFFFF");
    assert_eq!(t.accent1, "12AB9F");
    assert_eq!(t.lt2, "E2E8F0");
    assert_eq!(t.major_font, "Fira Sans");
    assert_eq!(t.minor_font, "Arial");
    assert!(!t.major_font.contains(',') && !t.minor_font.contains(','));
}
