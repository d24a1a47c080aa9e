use sldr::mdooxml::{plain_paragraph, text_escape, to_paragraphs, INDENT_EMU};

#[test]
fn test_bullets_get_square_buchar() {
    let ps = to_paragraphs("- first\n- second");
    assert_eq!(ps.len(), 2);
    assert!(ps[0].contains("buChar char=\"&#9642;\""));
    assert!(ps[0].contains("<a:t>first</a:t>"));
    assert!(ps[1].contains("<a:t>second</a:t>"));
}

#[test]
fn test_plain_paragraph_gets_bunone() {
    let ps = to_paragraphs("Just a sentence.");
    assert_eq!(ps.len(), 1);
    assert!(ps[0].contains("<a:buNone/>"));
    assert!(!ps[0].contains("buChar"));
}

#[test]
fn test_bold_and_italic_runs() {
    let ps = to_paragraphs("normal **bold** and *italic*");
    let p = &ps[0];
    assert!(p.contains("b=\"1\""));
    assert!(p.contains("i=\"1\""));
    assert!(p.contains("<a:t>bold</a:t>"));
    assert!(p.contains("<a:t>italic</a:t>"));
}

#[test]
fn test_nested_list_levels() {
    let ps = to_paragraphs("- top\n    - nested");
    assert_eq!(ps.len(), 2);
    assert!(ps[0].contains(&format!("marL=\"{INDENT_EMU}\"")));
    assert!(ps[1].contains(&format!("marL=\"{}\"", INDENT_EMU * 2)));
    assert!(ps[1].contains("lvl=\"1\""));
}

#[test]
fn test_heading_is_bold_bulletless() {
    let ps = to_paragraphs("# Title\n\nbody");
    assert!(ps[0].contains("b=\"1\""));
    assert!(ps[0].contains("<a:buNone/>"));
    assert!(ps[0].contains("<a:t>Title</a:t>"));
}

#[test]
fn test_xml_escaping() {
    let ps = to_paragraphs("a < b & c");
    assert!(ps[0].contains("a &lt; b &amp; c"));
}

#[test]
fn test_empty_yields_one_empty_paragraph() {
    let ps = to_paragraphs("");
    assert_eq!(ps.len(), 1);
    assert!(ps[0].contains("<a:buNone/>"));
}

#[test]
fn test_inline_code_gets_mono_typeface() {
    let ps = to_paragraphs("use `cargo build` now");
    assert!(ps[0].contains("Consolas"));
    assert!(ps[0].contains("<a:t>cargo build</a:t>"));
}

#[test]
fn paragraph_text_is_exact() {
    let ps = to_paragraphs("Hello *you*");
    assert_eq!(
        ps,
        vec![
            "<a:p><a:pPr marL=\"0\" indent=\"0\"><a:buNone/></a:pPr>\
<a:r><a:rPr lang=\"en-US\"/><a:t>Hello </a:t></a:r>\
<a:r><a:rPr lang=\"en-US\" i=\"1\"/><a:t>you</a:t></a:r></a:p>"
                .to_string()
        ]
    );
}

#[test]
fn bullet_properties_are_exact() {
    let ps = to_paragraphs("- a");
    assert_eq!(
        ps[0],
        "<a:p><a:pPr marL=\"285750\" indent=\"-285750\"><a:buFont typeface=\"Arial\"/>\
<a:buChar char=\"&#9642;\"/></a:pPr><a:r><a:rPr lang=\"en-US\"/><a:t>a</a:t></a:r></a:p>"
    );
}

#[test]
fn soft_breaks_join_lines_with_a_space() {
    let ps = to_paragraphs("one\ntwo");
    assert_eq!(ps.len(), 1);
    assert!(ps[0].contains("<a:t>one two</a:t>"));
}

#[test]
fn code_block_lines_are_plain_paragraphs() {
    let ps = to_paragraphs("```\nlet x = 1;\n```\n\nafter");
    assert_eq!(ps.len(), 2);
    assert!(ps[0].contains("let x = 1;"));
    assert!(ps[0].contains("<a:buNone/>"));
    assert!(ps[1].contains("<a:t>after</a:t>"));
}

#[test]
fn plain_paragraph_escapes_its_text() {
    assert_eq!(
        plain_paragraph("A & B"),
        "<a:p><a:pPr marL=\"0\" indent=\"0\"><a:buNone/></a:pPr><a:r><a:rPr lang=\"en-US\"/><a:t>A &amp; B</a:t></a:r></a:p>"
    );
    assert_eq!(text_escape("<x> & \"y\""), "&lt;x&gt; &amp; \"y\"");
}
