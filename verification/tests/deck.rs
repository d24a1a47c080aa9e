use sldr::deck::{
    build_deck, build_template, layout_type, select_layouts, slide_layout_xml, to_template_layouts, LayoutDef,
    SlideInput, Zone, ZoneContent, ZoneRep,
};
use sldr::pptx::Theme;

fn theme() -> Theme {
    Theme::from_parts(
        "sldr demo",
        Some("#0F172A"),
        Some("#FFFFFF"),
        Some("#3B82F6"),
        Some("#F59E0B"),
        Some("#E2E8F0"),
        Some("#94A3B8"),
        Some("Inter, sans-serif"),
        Some("Inter"),
    )
}

fn zone(name: &str, rep: ZoneRep, ph: Option<&str>, idx: Option<u32>, x: i64, y: i64, w: i64, h: i64) -> Zone {
    Zone { name: name.into(), rep, ph: ph.map(String::from), idx, x, y, w, h, geometry_valid: true }
}

/// The framed layout: headline, content and footer; x = 4.4% of the slide
/// width is 536448 EMU.
fn framed() -> LayoutDef {
    LayoutDef {
        name: "framed".into(),
        zones: vec![
            zone("headline", ZoneRep::PlaceholderText, Some("title"), None, 536448, 342900, 11119104, 822960),
            zone("content", ZoneRep::PlaceholderText, Some("body"), Some(1), 536448, 1371600, 11119104, 4572000),
            zone("footer", ZoneRep::PlaceholderText, Some("body"), Some(2), 536448, 6172200, 11119104, 342900),
        ],
        css: None,
    }
}

fn two_cols() -> LayoutDef {
    LayoutDef {
        name: "two-cols".into(),
        zones: vec![
            zone("title", ZoneRep::PlaceholderText, Some("title"), None, 0, 0, 12192000, 800000),
            zone("left", ZoneRep::PlaceholderText, Some("body"), Some(1), 0, 900000, 6000000, 5000000),
            zone("right", ZoneRep::PlaceholderText, Some("body"), Some(2), 6192000, 900000, 6000000, 5000000),
        ],
        css: None,
    }
}

fn image_left() -> LayoutDef {
    LayoutDef {
        name: "image-left".into(),
        zones: vec![
            zone("image", ZoneRep::Picture, None, None, 0, 0, 6096000, 6858000),
            zone("content", ZoneRep::PlaceholderText, Some("body"), Some(1), 6096000, 0, 6096000, 6858000),
        ],
        css: None,
    }
}

fn default_layout() -> LayoutDef {
    LayoutDef { name: "default".into(), zones: vec![], css: None }
}

fn image_grid() -> LayoutDef {
    LayoutDef { name: "image-grid".into(), zones: vec![], css: None }
}

fn parts_of(bytes: &[u8]) -> Vec<String> {
    let mut zip = zip::ZipArchive::new(std::io::Cursor::new(bytes)).unwrap();
    (0..zip.len()).map(|i| zip.by_index(i).unwrap().name().to_string()).collect()
}

fn read_part(bytes: &[u8], path: &str) -> String {
    let mut zip = zip::ZipArchive::new(std::io::Cursor::new(bytes)).unwrap();
    let mut f = zip.by_name(path).unwrap();
    let mut s = String::new();
    std::io::Read::read_to_string(&mut f, &mut s).unwrap();
    s
}

#[test]
fn test_build_deck_framed_slide() {
    let framed = framed();
    let slides = vec![SlideInput {
        layout: &framed,
        fields: vec![
            ("headline".into(), ZoneContent::Text("My Title".into())),
            ("content".into(), ZoneContent::Markdown("- one\n- two".into())),
            ("footer".into(), ZoneContent::Text("ACME".into())),
        ],
    }];
    let bytes = build_deck(&theme(), "Deck", &slides).unwrap();
    let names = parts_of(&bytes);
    assert!(names.contains(&"ppt/slides/slide1.xml".to_string()));
    assert!(names.contains(&"ppt/slides/_rels/slide1.xml.rels".to_string()));

    let slide = read_part(&bytes, "ppt/slides/slide1.xml");
    assert!(slide.contains("<a:t>My Title</a:t>"));
    assert!(slide.contains("<a:t>one</a:t>"));
    assert!(slide.contains("buChar char=\"&#9642;\""));
    assert!(slide.contains("<a:t>ACME</a:t>"));
    assert!(slide.contains(r#"type="title""#));
    assert!(slide.contains(r#"type="body" idx="1""#));

    let pres = read_part(&bytes, "ppt/presentation.xml");
    assert!(pres.contains("<p:sldIdLst>"));
    assert!(pres.contains("r:id=\"rId4\""));
}

#[test]
fn test_two_slides_share_one_layout() {
    let framed = framed();
    let slides = vec![
        SlideInput { layout: &framed, fields: vec![("headline".into(), ZoneContent::Text("A".into()))] },
        SlideInput { layout: &framed, fields: vec![("headline".into(), ZoneContent::Text("B".into()))] },
    ];
    let bytes = build_deck(&theme(), "Deck", &slides).unwrap();
    let names = parts_of(&bytes);
    assert!(names.contains(&"ppt/slides/slide2.xml".to_string()));
    assert!(names.contains(&"ppt/slideLayouts/slideLayout1.xml".to_string()));
    assert!(!names.contains(&"ppt/slideLayouts/slideLayout2.xml".to_string()));
}

#[test]
fn test_picture_zone_embeds_media_and_pic() {
    let image_left = image_left();
    let slides = vec![SlideInput {
        layout: &image_left,
        fields: vec![
            ("content".into(), ZoneContent::Markdown("- a point".into())),
            (
                "image".into(),
                ZoneContent::Picture { bytes: b"\x89PNG\r\n\x1a\n fake".to_vec(), ext: "png".into(), fit: None },
            ),
        ],
    }];
    let bytes = build_deck(&theme(), "Deck", &slides).unwrap();
    assert!(parts_of(&bytes).contains(&"ppt/media/image1.png".to_string()));
    let slide = read_part(&bytes, "ppt/slides/slide1.xml");
    assert!(slide.contains("<p:pic>"));
    assert!(slide.contains("r:embed=\"rId2\""));
    assert!(slide.contains("<a:t>a point</a:t>"));
    assert!(slide.contains("<a:off x=\"0\" y=\"0\"/><a:ext cx=\"6096000\" cy=\"6858000\"/>"));
    let rels = read_part(&bytes, "ppt/slides/_rels/slide1.xml.rels");
    assert!(rels.contains("../media/image1.png"));
    assert!(rels.contains("relationships/image"));
    assert!(rels.contains("slideLayouts/slideLayout1.xml"));
}

#[test]
fn test_baked_picture_in_text_zone_emits_aspect_fit_pic() {
    let framed = framed();
    // A 400x100 diagram fitted into the 11119104 EMU wide content zone.
    let fit = Some((11119104, 2779776));
    let slides = vec![SlideInput {
        layout: &framed,
        fields: vec![
            ("headline".into(), ZoneContent::Text("Title".into())),
            ("content".into(), ZoneContent::Picture { bytes: b"\x89PNG fake".to_vec(), ext: "png".into(), fit }),
        ],
    }];
    let bytes = build_deck(&theme(), "Deck", &slides).unwrap();
    let slide = read_part(&bytes, "ppt/slides/slide1.xml");
    assert!(slide.contains("<p:pic>"));
    assert!(slide.contains("<a:t>Title</a:t>"));
    assert!(!slide.contains(r#"type="body" idx="1""#));
    // Centered vertically: 1371600 + (4572000 - 2779776) / 2.
    assert!(slide.contains("<a:off x=\"536448\" y=\"2267712\"/><a:ext cx=\"11119104\" cy=\"2779776\"/>"));
    assert!(parts_of(&bytes).contains(&"ppt/media/image1.png".to_string()));
}

#[test]
fn test_layout_without_zones_fails_loud() {
    let collage = image_grid();
    let slides = vec![SlideInput { layout: &collage, fields: vec![("content".into(), ZoneContent::Markdown("hi".into()))] }];
    let err = build_deck(&theme(), "Deck", &slides).unwrap_err();
    assert!(err.contains("image-grid"));
    assert!(err.contains("--flatten"));
}

#[test]
fn deck_refusals_name_every_layout_once_in_order() {
    let b = LayoutDef { name: "b".into(), zones: vec![], css: None };
    let a = LayoutDef { name: "a".into(), zones: vec![zone("s", ZoneRep::Shape, None, None, 0, 0, 1, 1)], css: None };
    let slides = vec![
        SlideInput { layout: &b, fields: vec![] },
        SlideInput { layout: &a, fields: vec![] },
        SlideInput { layout: &b, fields: vec![] },
    ];
    assert_eq!(
        build_deck(&theme(), "Deck", &slides).unwrap_err(),
        "These layouts have no PPTX placeholder zones, so their slides can't export as editable PowerPoint: a, b. \
Annotate them with `<!-- sldr:zone \u{2026} rep=placeholder-text \u{2026} -->`, or export with `--flatten` (screenshot mode)."
    );
    assert_eq!(build_deck(&theme(), "Deck", &[]).unwrap_err(), "PPTX deck needs at least one slide");
}

#[test]
fn empty_zone_gets_empty_paragraph() {
    let framed = framed();
    let slides = vec![SlideInput { layout: &framed, fields: vec![] }];
    let bytes = build_deck(&theme(), "Deck", &slides).unwrap();
    let slide = read_part(&bytes, "ppt/slides/slide1.xml");
    assert_eq!(slide.matches("<a:t></a:t>").count(), 3);
    assert!(slide.contains("<p:cNvPr id=\"4\" name=\"Footer\"/>"));
}

#[test]
fn test_select_layouts_picks_zone_bearing() {
    let defs = vec![two_cols(), default_layout(), framed(), image_left(), LayoutDef {
        name: "pictures".into(),
        zones: vec![zone("a", ZoneRep::Picture, None, None, 0, 0, 1, 1)],
        css: None,
    }];
    let (eligible, skipped) = select_layouts(&defs);
    let names: Vec<&str> = eligible.iter().map(|d| d.name.as_str()).collect();
    assert_eq!(names, ["framed", "image-left", "two-cols"]);
    assert!(!names.contains(&"default"));
    assert_eq!(skipped, ["pictures"]);
}

#[test]
fn test_build_template_produces_expected_parts() {
    let framed = framed();
    let two = two_cols();
    let bytes = build_template(&theme(), &[&framed, &two]).unwrap();
    let names = parts_of(&bytes);
    for required in [
        "[Content_Types].xml",
        "_rels/.rels",
        "ppt/presentation.xml",
        "ppt/theme/theme1.xml",
        "ppt/slideMasters/slideMaster1.xml",
        "ppt/slideLayouts/slideLayout1.xml",
        "ppt/slideLayouts/slideLayout2.xml",
    ] {
        assert!(names.contains(&required.to_string()), "missing {required}");
    }
    assert!(!names.iter().any(|n| n.starts_with("ppt/slides/")));
    assert!(read_part(&bytes, "docProps/core.xml").contains("sldr demo template"));
}

#[test]
fn test_theme_colors_land_in_clrscheme() {
    let bytes = build_template(&theme(), &[&framed()]).unwrap();
    let t = read_part(&bytes, "ppt/theme/theme1.xml");
    assert!(t.contains(r#"<a:dk1><a:srgbClr val="0F172A"/></a:dk1>"#));
    assert!(t.contains(r#"<a:accent1><a:srgbClr val="3B82F6"/></a:accent1>"#));
    assert!(t.contains(r#"<a:latin typeface="Inter"/>"#));
    assert!(t.contains(r#"name="sldr demo""#));
}

#[test]
fn test_framed_layout_has_three_placeholders_in_emu() {
    let bytes = build_template(&theme(), &[&framed()]).unwrap();
    let l = read_part(&bytes, "ppt/slideLayouts/slideLayout1.xml");
    assert_eq!(l.matches("<p:ph ").count(), 3);
    assert!(l.contains(r#"type="title""#));
    assert!(l.contains(r#"type="body" idx="1""#));
    assert!(l.contains(r#"type="body" idx="2""#));
    assert!(l.contains("x=\"536448\""));
    assert!(l.contains(r#"type="twoObj""#));
}

#[test]
fn test_master_declares_square_bullet() {
    let bytes = build_template(&theme(), &[&framed()]).unwrap();
    let m = read_part(&bytes, "ppt/slideMasters/slideMaster1.xml");
    assert!(m.contains(r#"<a:buChar char="&#9642;"/>"#));
}

#[test]
fn test_empty_layouts_fails_loud() {
    let err = build_template(&theme(), &[]).unwrap_err();
    assert!(err.contains("at least one layout"));
    let d = default_layout();
    assert_eq!(
        build_template(&theme(), &[&d]).unwrap_err(),
        "none of the given layouts declare placeholder-text zones"
    );
}

#[test]
fn layout_type_and_template_layouts() {
    let f = framed();
    let il = image_left();
    assert_eq!(layout_type(&f.zones), "twoObj");
    assert_eq!(layout_type(&il.zones), "obj");
    let ts = to_template_layouts(&[&f, &default_layout(), &il]);
    assert_eq!(ts.len(), 2);
    assert_eq!(ts[1].name, "image-left");
    assert_eq!(ts[1].placeholders.len(), 1);
    let x = slide_layout_xml(&ts[1]);
    assert!(x.contains("<p:cSld name=\"image-left\">"));
    assert!(x.contains("<p:cNvPr id=\"2\" name=\"Content\"/>"));
    assert!(x.contains("<a:off x=\"6096000\" y=\"0\"/><a:ext cx=\"6096000\" cy=\"6858000\"/>"));
}

fn plain_deck() -> Vec<u8> {
    let framed = framed();
    build_deck(&theme(), "Synthetic", &[SlideInput {
        layout: &framed,
        fields: vec![("content".into(), ZoneContent::Markdown("- Original".into()))],
    }])
    .unwrap()
}

#[test]
fn plain_deck_is_deterministic_and_valid() {
    assert_eq!(plain_deck(), plain_deck());
    sldr::package::validate_package(&plain_deck()).unwrap().enforce(false).unwrap();
}

#[test]
fn picture_only_layout_refuses_the_deck() {
    let framed = framed();
    let pics = LayoutDef { name: "pictures".into(), zones: vec![zone("a", ZoneRep::Picture, None, None, 0, 0, 1, 1)], css: None };
    let slides = vec![SlideInput { layout: &framed, fields: vec![] }, SlideInput { layout: &pics, fields: vec![] }];
    let err = build_deck(&theme(), "Deck", &slides).unwrap_err();
    assert!(err.starts_with("These layouts have no PPTX placeholder zones"));
    assert!(err.contains(": pictures."));
}
