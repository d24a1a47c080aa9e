use sldr::deck::{LayoutDef, SlideInput, Zone, ZoneContent, ZoneRep};
use sldr::preflight::deck;
use sldr::report::{Disposition, Report};

fn zone(name: &str, rep: ZoneRep, ph: Option<&str>) -> Zone {
    Zone { name: name.into(), rep, ph: ph.map(String::from), idx: None, x: 0, y: 0, w: 100, h: 100, geometry_valid: true }
}

fn framed() -> LayoutDef {
    LayoutDef {
        name: "framed".into(),
        zones: vec![
            zone("headline", ZoneRep::PlaceholderText, Some("title")),
            zone("footer", ZoneRep::PlaceholderText, Some("body")),
            zone("content", ZoneRep::PlaceholderText, Some("body")),
        ],
        css: None,
    }
}

fn features(r: &Report) -> Vec<(String, String)> {
    r.findings.iter().map(|f| (f.element.clone(), f.feature.clone())).collect()
}

#[test]
fn unsupported_zones_fields_and_markdown_are_accounted_for() {
    let mut layout = framed();
    layout.zones[0].rep = ZoneRep::Shape;
    layout.zones[1].rep = ZoneRep::Bake;
    let slides = [SlideInput { layout: &layout, fields: vec![
        ("content".into(), ZoneContent::Markdown("![missing](absent.png)\n\n<div>Effect</div>".into())),
        ("unknown".into(), ZoneContent::Text("Unmapped".into())),
    ] }];
    let report = deck(&slides);
    for feature in ["shape", "bake", "inline_image", "html", "unmapped_field"] {
        assert!(report.findings.iter().any(|f| f.feature == feature), "{feature}");
    }
    assert!(report.enforce(false).is_err());
    assert!(report.enforce(true).is_ok());
}

#[test]
fn clean_slide_only_records_converted_content() {
    let layout = framed();
    let slides = [SlideInput { layout: &layout, fields: vec![
        ("headline".into(), ZoneContent::Text("Title".into())),
        ("content".into(), ZoneContent::Markdown("- one\n- two *em* `code`".into())),
    ] }];
    let report = deck(&slides);
    assert_eq!(features(&report), vec![
        ("headline".to_string(), "zone_content".to_string()),
        ("content".to_string(), "zone_content".to_string()),
    ]);
    assert!(report.findings.iter().all(|f| f.disposition == Disposition::Converted
        && f.part == "ppt/slides/slide1.xml" && f.slide.as_deref() == Some("ppt/slides/slide1.xml")));
    assert!(report.enforce(false).is_ok());
}

#[test]
fn markdown_findings_carry_their_offsets() {
    let layout = framed();
    let slides = [SlideInput { layout: &layout, fields: vec![
        ("content".into(), ZoneContent::Markdown("![a](b.png)\n\n1. first\n\n---\n".into())),
    ] }];
    let report = deck(&slides);
    assert_eq!(features(&report), vec![
        ("content@0".to_string(), "inline_image".to_string()),
        ("content@13".to_string(), "ordered_list_numbering".to_string()),
        ("content@23".to_string(), "horizontal_rule".to_string()),
        ("content".to_string(), "zone_content".to_string()),
    ]);
}

#[test]
fn layout_zone_and_field_conflicts() {
    let mut layout = framed();
    layout.zones.push(zone("content", ZoneRep::PlaceholderText, Some("body")));
    layout.zones[0].geometry_valid = false;
    layout.css = Some(".x { color: red }".into());
    let slides = [
        SlideInput { layout: &layout, fields: vec![
            ("content".into(), ZoneContent::Text("a".into())),
            ("content".into(), ZoneContent::Text("b".into())),
            ("headline".into(), ZoneContent::Picture { bytes: vec![], ext: "png".into(), fit: None }),
            ("footer".into(), ZoneContent::Picture { bytes: vec![1], ext: "bmp".into(), fit: None }),
        ] },
    ];
    let report = deck(&slides);
    assert_eq!(features(&report), vec![
        ("layout".to_string(), "custom_css".to_string()),
        ("headline".to_string(), "invalid_geometry".to_string()),
        ("content".to_string(), "duplicate_zone".to_string()),
        ("content".to_string(), "zone_content".to_string()),
        ("content".to_string(), "duplicate_field".to_string()),
        ("content".to_string(), "zone_content".to_string()),
        ("headline".to_string(), "invalid_image".to_string()),
        ("headline".to_string(), "zone_content".to_string()),
        ("footer".to_string(), "invalid_image".to_string()),
        ("footer".to_string(), "zone_content".to_string()),
    ]);
    assert!(report.enforce(true).is_err());
}

#[test]
fn layout_without_zones_and_second_slide_part() {
    let empty = LayoutDef { name: "image-grid".into(), zones: vec![], css: Some("   ".into()) };
    let layout = framed();
    let slides = [
        SlideInput { layout: &layout, fields: vec![] },
        SlideInput { layout: &empty, fields: vec![("content".into(), ZoneContent::Text("x".into()))] },
    ];
    let report = deck(&slides);
    assert_eq!(features(&report), vec![
        ("image-grid".to_string(), "missing_zones".to_string()),
        ("content".to_string(), "unmapped_field".to_string()),
    ]);
    assert!(report.findings.iter().all(|f| f.part == "ppt/slides/slide2.xml"));
}
