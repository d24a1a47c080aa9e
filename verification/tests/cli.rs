use sldr::cli::{
    apply_tokens, check_references, default_layout, default_slide_scaffold, default_slide_template,
    ensure_ext, extract_img_src, find_scaffold, inject_live_reload, inject_print_prep, inject_script,
    insert_lang_suffix, markdown_media_refs, sanitize_filename, source_label, yaml_quote, yaml_value,
    apply_template_tokens, new_slide_file, report_inside, ConversionError, ExitCodes, Options, Scaffold, PRINT_PREP_SCRIPT,
};
use sldr::config::MatchingConfig;
use sldr::fuzzy::SldrMatcher;
use sldr::report::{Conversion, Disposition, Rejected, Report, Severity};

#[test]
fn extracts_relative_media_refs_only() {
    let md = "![a](img/x.png) ![b](https://e.com/y.png) ![c](data:image/png;base64,xx) ![d](/abs.png) ![e](../media/z.jpg)";
    assert_eq!(markdown_media_refs(md), vec!["img/x.png", "../media/z.jpg"]);
}

#[test]
fn media_refs_stop_at_unclosed_image() {
    assert_eq!(markdown_media_refs("![a]( a.png ) ![b](b.png"), vec!["a.png"]);
    assert!(markdown_media_refs("no images").is_empty());
}

#[test]
fn extract_img_src_takes_first_word() {
    assert_eq!(extract_img_src("x ![alt](media/a.png \"title\") y").as_deref(), Some("media/a.png"));
    assert_eq!(extract_img_src("![alt]( )"), None);
    assert_eq!(extract_img_src("no image"), None);
}

#[test]
fn source_label_falls_back() {
    assert_eq!(source_label(Some("DE"), "en"), "Quelle:");
    assert_eq!(source_label(None, "fr"), "Source :");
    assert_eq!(source_label(Some("xx"), "nl"), "Bron:");
    assert_eq!(source_label(Some("xx"), "yy"), "Source:");
}

#[test]
fn scripts_go_before_the_last_body_close() {
    assert_eq!(inject_script("<html><body>a</body></html>", "<s/>"), "<html><body>a<s/></body></html>");
    assert_eq!(inject_script("plain", "<s/>"), "plain<s/>");
    assert!(inject_print_prep("<body></body>").starts_with(&format!("<body>{PRINT_PREP_SCRIPT}")));
    assert!(inject_live_reload("x").starts_with("x\n<script>"));
}

#[test]
fn tokens_and_scaffolds() {
    assert_eq!(apply_tokens("# {{title}} ![i](media/{{name}}.png)", "my_first-slide.md"), "# my first slide ![i](media/my_first-slide.png)");
    let s = default_slide_scaffold("intro-talk.md");
    assert!(s.starts_with("---\ntitle: intro talk\n"));
    assert!(s.contains("# intro talk\n"));
    let t = default_slide_template("decks/my_slide.md");
    assert!(t.starts_with("---\ntitle: my slide\n"));
    assert_eq!(default_layout(), "default");
}

#[test]
fn file_names_and_yaml() {
    assert_eq!(sanitize_filename("my photo (1).PNG"), "my_photo__1_.PNG");
    assert_eq!(yaml_quote("a \"b\" \\c"), "\"a \\\"b\\\" \\\\c\"");
    assert_eq!(yaml_value("plain title"), "plain title");
    assert_eq!(yaml_value("a: b"), "\"a: b\"");
    assert_eq!(yaml_value("-dash"), "\"-dash\"");
    assert_eq!(yaml_value(" padded"), "\" padded\"");
}

#[test]
fn output_paths() {
    assert_eq!(ensure_ext("out/deck.pdf", "pptx"), "out/deck.pptx");
    assert_eq!(ensure_ext("out/deck.pptx", "pptx"), "out/deck.pptx");
    assert_eq!(ensure_ext("deck", "pdf"), "deck.pdf");
    assert_eq!(insert_lang_suffix("out/foo.pdf", "de"), "out/foo.de.pdf");
    assert_eq!(insert_lang_suffix("foo", "de"), "foo.de.pdf");
}

#[test]
fn bundled_scaffold_lookup() {
    let sc = [Scaffold { name: "title.md", content: "T" }, Scaffold { name: "cover.md", content: "C" }];
    assert_eq!(find_scaffold(&sc, "cover").unwrap().content, "C");
    assert_eq!(find_scaffold(&sc, "cover.md").unwrap().content, "C");
    assert!(find_scaffold(&sc, "none").is_none());
}

#[test]
fn interchange_outcomes() {
    let o = Options::default();
    assert!(!o.strict && !o.allow_lossy);
    let ok: Result<u8, ConversionError> = Ok(3);
    assert_eq!(o.diagnose(ok).unwrap(), 3);
    let bad: Result<u8, ConversionError> = Err(ConversionError::Invalid("boom".into()));
    let (rep, _) = o.diagnose(bad).unwrap_err();
    assert_eq!(rep.findings.len(), 1);
    assert_eq!(rep.findings[0].feature, "invalid_input");
    assert_eq!(rep.findings[0].severity, Severity::Error);
    assert_eq!(rep.findings[0].remedy, "Resolve the invalid input: boom");
    let mut r = Report::default();
    r.record(None, "p", "e", "f", Disposition::Baked, "x");
    let rejected: Result<Conversion<u8>, ConversionError> = Err(ConversionError::Rejected(Rejected(r)));
    let (rep, _) = o.resolve(rejected).unwrap_err();
    assert_eq!(rep.findings[0].disposition, Disposition::Baked);
    let conv: Result<Conversion<u8>, ConversionError> = Ok(Conversion { value: 9, report: Report::default() });
    let (v, rep) = o.resolve(conv).unwrap();
    assert_eq!(v, 9);
    assert!(rep.findings.is_empty());
    assert_eq!(ExitCodes::SUCCESS, 0);
    assert_eq!(ExitCodes::FAILURE, 1);
}

#[test]
fn skeleton_references_resolve_or_go_missing() {
    let matcher = SldrMatcher::new(MatchingConfig::default());
    let names: Vec<String> = vec!["ai/intro.md".into(), "ai/outro.md".into()];
    let refs: Vec<String> = vec!["intro".into(), "zzzz".into()];
    let (found, missing) = check_references(&refs, &names, &matcher);
    assert_eq!(found, vec![("intro".to_string(), "ai/intro.md".to_string())]);
    assert_eq!(missing, vec!["zzzz"]);
}

#[test]
fn strict_policy_refuses_reported_omission_and_lossy_accepts_it() {
    let mut report = Report::default();
    report.record(Some("1"), "ppt/slides/slide1.xml", "99", "chart", Disposition::Unsupported, "Remove it");
    let strict = Options { strict: true, allow_lossy: false, report_json: None };
    let conv = Ok(Conversion { value: 5u8, report: report.duplicate() });
    let (rep, err) = strict.resolve(conv).unwrap_err();
    assert!(rep.findings.iter().any(|f| f.element == "99"));
    match err {
        ConversionError::Rejected(Rejected(r)) => assert_eq!(r.findings[0].element, "99"),
        ConversionError::Invalid(_) => panic!("expected a rejection"),
    }
    let lossy = Options { strict: false, allow_lossy: true, report_json: None };
    let (v, rep) = lossy.resolve(Ok(Conversion { value: 5u8, report: report.duplicate() })).unwrap();
    assert_eq!(v, 5);
    assert_eq!(rep.findings.len(), 1);
    let mut conflict = Report::default();
    conflict.record(None, "package", "x", "dup", Disposition::Conflicting, "fix");
    assert!(lossy.resolve(Ok(Conversion { value: 1u8, report: conflict })).is_err());
}

#[test]
fn report_path_must_lie_outside_destination() {
    assert!(report_inside("/out/deck", "/out/deck"));
    assert!(report_inside("/out/deck/report.json", "/out/deck/"));
    assert!(report_inside("/out/./deck//r.json", "/out/deck"));
    assert!(!report_inside("/out/report.json", "/out/deck"));
    assert!(!report_inside("/out/deck2/r.json", "/out/deck"));
    assert!(!report_inside("/out", "/out/deck"));
}

#[test]
fn new_slide_file_names_end_in_md() {
    assert_eq!(new_slide_file("intro"), "intro.md");
    assert_eq!(new_slide_file("intro.md"), "intro.md");
    assert_eq!(new_slide_file("Intro.MD"), "Intro.MD");
    assert_eq!(new_slide_file("ai/transformers"), "ai/transformers.md");
    assert_eq!(new_slide_file("notes.txt"), "notes.txt.md");
    assert_eq!(new_slide_file(".md"), ".md.md");
}

#[test]
fn template_tokens_use_the_stem_for_title_and_the_name_as_given() {
    assert_eq!(
        apply_template_tokens("# {{title}} ![](media/{{name}}.png)", "ai/deep_dive-intro.md"),
        "# deep dive intro ![](media/ai/deep_dive-intro.md.png)"
    );
    assert_eq!(apply_template_tokens("{{title}}|{{name}}", "my_slide"), "my slide|my_slide");
}
