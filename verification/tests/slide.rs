use sldr::lang::select_language;
use sldr::slide::{
    split_frontmatter, ChromeTranslation, Slide, SlideCollection, SlideInput, SlideInputBatch, SlideMetadata,
    SlideTranslation,
};

fn s(v: &str) -> Option<String> {
    Some(v.to_string())
}

/// Metadata for the few frontmatter fields these tests use, read from YAML.
fn metadata_from_yaml(yaml: &str) -> SlideMetadata {
    let v: serde_yaml_ng::Value = serde_yaml_ng::from_str(yaml).unwrap();
    let field = |m: &serde_yaml_ng::Value, k: &str| m.get(k).and_then(|x| x.as_str()).map(String::from);
    let mut meta = SlideMetadata::default();
    meta.title = field(&v, "title");
    meta.subtitle = field(&v, "subtitle");
    meta.footer = field(&v, "footer");
    meta.layout = field(&v, "layout");
    if let Some(tags) = v.get("tags").and_then(|t| t.as_sequence()) {
        meta.tags = tags.iter().filter_map(|t| t.as_str().map(String::from)).collect();
    }
    if let Some(tr) = v.get("translations").and_then(|t| t.as_mapping()) {
        for (k, b) in tr {
            let mut t = ChromeTranslation::default();
            t.title = field(b, "title");
            t.subtitle = field(b, "subtitle");
            t.source = field(b, "source");
            t.source_url = field(b, "source_url");
            t.footer = field(b, "footer");
            meta.translations.push((k.as_str().unwrap().to_string(), t));
        }
    }
    meta
}

#[test]
fn test_parse_frontmatter() {
    let content = r"---
title: Test Slide
tags:
  - test
  - example
---

# Hello World

This is the content.
";
    let fm = split_frontmatter(content);
    let metadata = metadata_from_yaml(fm.yaml.as_deref().unwrap());
    assert_eq!(metadata.title, Some("Test Slide".to_string()));
    assert_eq!(metadata.tags, vec!["test", "example"]);
    assert!(fm.body.contains("# Hello World"));
    assert_eq!(fm.body, "# Hello World\n\nThis is the content.");
}

#[test]
fn test_parse_no_frontmatter() {
    let content = "# Just Markdown\n\nNo frontmatter here.";
    let fm = split_frontmatter(content);
    assert!(fm.yaml.is_none());
    assert!(fm.body.contains("# Just Markdown"));
}

#[test]
fn unterminated_frontmatter_is_all_body() {
    let fm = split_frontmatter("  ---\ntitle: x\n");
    assert!(fm.yaml.is_none());
    assert_eq!(fm.body, "---\ntitle: x");
}

#[test]
fn chrome_for_parses_translations_block() {
    let content = r#"---
title: Hello
subtitle: World
footer: "© Acme"
layout: framed
translations:
  de:
    title: Hallo
    subtitle: Welt
---
body
"#;
    let fm = split_frontmatter(content);
    let meta = metadata_from_yaml(fm.yaml.as_deref().unwrap());
    let de = meta.chrome_for(Some("de"), "en");
    assert_eq!(de.title.as_deref(), Some("Hallo"));
    assert_eq!(de.subtitle.as_deref(), Some("Welt"));
    assert_eq!(de.footer.as_deref(), Some("© Acme"));
    assert!(de.untranslated_to.is_none());
    assert_eq!(fm.body, "body");
}

#[test]
fn chrome_for_default_language_uses_top_level() {
    let mut meta = SlideMetadata { title: s("Hello"), ..Default::default() };
    meta.translations
        .push(("de".into(), ChromeTranslation { title: s("Hallo"), ..Default::default() }));
    let en = meta.chrome_for(Some("en"), "en");
    assert_eq!(en.title.as_deref(), Some("Hello"));
    assert!(en.untranslated_to.is_none());
    let none = meta.chrome_for(None, "en");
    assert_eq!(none.title.as_deref(), Some("Hello"));
}

#[test]
fn chrome_for_missing_block_flags_untranslated() {
    let meta = SlideMetadata { title: s("Hello"), ..Default::default() };
    let de = meta.chrome_for(Some("de"), "en");
    assert_eq!(de.title.as_deref(), Some("Hello"));
    assert_eq!(de.untranslated_to.as_deref(), Some("de"));
}

#[test]
fn chrome_for_no_chrome_never_warns() {
    let meta = SlideMetadata::default();
    let de = meta.chrome_for(Some("de"), "en");
    assert!(de.untranslated_to.is_none());
    assert!(de.title.is_none());
}

#[test]
fn chrome_for_is_case_insensitive_on_the_request() {
    let mut meta = SlideMetadata { title: s("Hello"), footer: s("F"), ..Default::default() };
    meta.translations.push(("de".into(), ChromeTranslation { title: s("Hallo"), ..Default::default() }));
    let de = meta.chrome_for(Some("DE"), "EN");
    assert_eq!(de.title.as_deref(), Some("Hallo"));
    assert_eq!(de.footer.as_deref(), Some("F"));
    assert!(de.untranslated_to.is_none());
}

#[test]
fn slide_from_str_keeps_body_after_frontmatter() {
    let md = "---\ntitle: T\n---\n\n# Body\n";
    let slide = Slide::from_str("intro", "genai/intro.md", md, SlideMetadata::default());
    assert_eq!(slide.content, "# Body");
    assert_eq!(slide.relative_path, "genai/intro.md");
    assert_eq!(slide.name, "intro");
    let body = select_language(&slide.content, Some("de"), "en");
    assert_eq!(body.content, "# Body");
}

#[test]
fn load_with_base_names_and_relativises() {
    let slide = Slide::load_with_base("/lib/slides/ai/intro.md", "/lib/slides/", "# x", SlideMetadata::default());
    assert_eq!(slide.name, "intro");
    assert_eq!(slide.relative_path, "ai/intro.md");
    let other = Slide::load_with_base("/elsewhere/.hidden", "/lib/slides", "", SlideMetadata::default());
    assert_eq!(other.name, ".hidden");
    assert_eq!(other.relative_path, "/elsewhere/.hidden");
}

fn coll() -> SlideCollection {
    let mk = |rel: &str, name: &str| Slide::from_str(name, rel, "", SlideMetadata::default());
    SlideCollection {
        slides: vec![mk("ai/intro.md", "intro"), mk("lora/concepts.md", "concepts"), mk("x.md.md", "x.md")],
        base_dir: "/lib/slides".to_string(),
    }
}

#[test]
fn collection_names_and_find() {
    let c = coll();
    assert_eq!(c.names(), vec!["ai/intro.md", "lora/concepts.md", "x.md.md"]);
    assert_eq!(c.find("intro").unwrap().relative_path, "ai/intro.md");
    assert_eq!(c.find("intro.md").unwrap().relative_path, "ai/intro.md");
    assert_eq!(c.find("lora/concepts").unwrap().name, "concepts");
    assert_eq!(c.find("x").unwrap().relative_path, "x.md.md");
    assert!(c.find("missing").is_none());
}

fn input(content: &str) -> SlideInput {
    SlideInput {
        name: "clip".into(),
        title: "Hello".into(),
        description: None,
        tags: vec![],
        layout: "framed-image".into(),
        align: None,
        valign: None,
        subtitle: Some("World".into()),
        source: Some("Source".into()),
        source_url: Some("https://example.com".into()),
        footer: None,
        content: content.into(),
        translations: vec![],
        directory: None,
    }
}

#[test]
fn slide_input_translations_compose_and_round_trip() {
    let mut input = input("::image::\n\n![x](media/clip.png)");
    input.set_translation(
        "en",
        SlideTranslation { content: Some("English text.".into()), ..Default::default() },
    );
    input.set_translation(
        "de",
        SlideTranslation {
            title: Some("Hallo".into()),
            subtitle: Some("Welt".into()),
            source: Some("Quelle".into()),
            content: Some("Deutscher Text.".into()),
            ..Default::default()
        },
    );

    let md = input.to_markdown();
    assert_eq!(md.matches("![x](media/clip.png)").count(), 1);
    assert!(md.contains("::lang:en::\n::content::\nEnglish text."));
    assert!(md.contains("::lang:de::\n::content::\nDeutscher Text."));

    let fm = split_frontmatter(&md);
    let meta = metadata_from_yaml(fm.yaml.as_deref().unwrap());
    let en = meta.chrome_for(Some("en"), "en");
    assert_eq!(en.title.as_deref(), Some("Hello"));
    assert_eq!(en.subtitle.as_deref(), Some("World"));
    let de = meta.chrome_for(Some("de"), "en");
    assert_eq!(de.title.as_deref(), Some("Hallo"));
    assert_eq!(de.subtitle.as_deref(), Some("Welt"));
    assert_eq!(de.source.as_deref(), Some("Quelle"));
    assert!(de.untranslated_to.is_none());

    let sel = select_language(&fm.body, Some("de"), "en");
    assert!(sel.content.contains("Deutscher Text."));
    assert!(sel.content.contains("media/clip.png"));
    assert!(!sel.content.contains("English text."));
}

#[test]
fn to_markdown_writes_exact_frontmatter() {
    let mut i = input("# Body\n\n");
    i.description = Some("About".into());
    i.tags = vec!["a".into(), "b".into()];
    i.align = Some("left".into());
    assert_eq!(
        i.to_markdown(),
        "---\ntitle: \"Hello\"\ndescription: \"About\"\ntags: [a, b]\nlayout: framed-image\n\
subtitle: \"World\"\nsource: \"Source\"\nsource_url: \"https://example.com\"\nalign: left\n---\n\n# Body\n"
    );
}

#[test]
fn to_markdown_without_optional_fields() {
    let mut i = input("");
    i.subtitle = None;
    i.source = None;
    i.source_url = None;
    assert_eq!(
        i.to_markdown(),
        "---\ntitle: \"Hello\"\ndescription: \"\"\ntags: []\nlayout: framed-image\n---\n\n"
    );
}

#[test]
fn translations_keep_code_order_and_replace() {
    let mut i = input("Shared");
    i.set_translation("fr", SlideTranslation { title: Some("Bonjour".into()), ..Default::default() });
    i.set_translation("de", SlideTranslation { title: Some("Hallo".into()), ..Default::default() });
    i.set_translation("fr", SlideTranslation { footer: Some("Pied \"x\"".into()), ..Default::default() });
    let codes: Vec<&str> = i.translations.iter().map(|(c, _)| c.as_str()).collect();
    assert_eq!(codes, ["de", "fr"]);
    let md = i.to_markdown();
    assert!(md.contains("translations:\n  de:\n    title: \"Hallo\"\n  fr:\n    footer: \"Pied \\\"x\\\"\"\n---\n\nShared\n"));
    assert!(!md.contains("Bonjour"));
}

#[test]
fn language_body_with_marker_is_not_doubled() {
    let mut i = input("::image::\n\n![x](a.png)");
    i.set_translation("en", SlideTranslation { content: Some("  ::content::\nText  \n".into()), ..Default::default() });
    let md = i.to_markdown();
    assert!(md.ends_with("\n\n::lang:en::\n::content::\nText\n"));
}

#[test]
fn effective_directory_prefers_the_slide() {
    let mut i = input("x");
    assert_eq!(i.effective_directory(Some("batch")), Some("batch".to_string()));
    assert_eq!(i.effective_directory(None), None);
    i.directory = Some("own".into());
    assert_eq!(i.effective_directory(Some("batch")), Some("own".to_string()));
    let batch = SlideInputBatch { slides: vec![i], directory: Some("batch".into()) };
    assert_eq!(batch.slides[0].effective_directory(batch.directory.as_deref()), Some("own".to_string()));
}

#[test]
fn loaded_slides_are_ordered_by_relative_path() {
    let s = |n: &str, p: &str| Slide::from_str(n, p, "body", SlideMetadata::default());
    let c = SlideCollection::from_loaded(
        vec![s("b", "genai/b.md"), s("a", "zeta/a.md"), s("intro", "genai/intro.md"), s("a2", "genai/a.md")],
        "/slides".into(),
    );
    assert_eq!(c.names(), vec!["genai/a.md", "genai/b.md", "genai/intro.md", "zeta/a.md"]);
    assert_eq!(c.base_dir, "/slides");
    assert_eq!(c.find("intro").unwrap().relative_path, "genai/intro.md");
}

#[test]
fn batch_files_land_in_their_directories() {
    let mut a = input("# A");
    a.name = "intro".into();
    let mut b = input("# B");
    b.name = "deep".into();
    b.directory = Some("ai".into());
    let batch = SlideInputBatch { slides: vec![a, b], directory: Some("topic".into()) };
    let files = batch.files("/lib/slides");
    assert_eq!(files.len(), 2);
    assert_eq!(files[0].name, "intro");
    assert_eq!(files[0].path, "/lib/slides/topic/intro.md");
    assert_eq!(files[1].path, "/lib/slides/ai/deep.md");
    assert_eq!(files[0].content, batch.slides[0].to_markdown());
    let plain = SlideInputBatch { slides: vec![input("x")], directory: None };
    assert_eq!(plain.files("/lib/slides/")[0].path, "/lib/slides/clip.md");
}

#[test]
fn written_slide_splits_at_its_own_markers() {
    // The body holds a `---` rule and trailing blank lines; the split still
    // happens at the closing marker that `to_markdown` wrote.
    let input = input("Intro\n---\nMore\n\n\n");
    let md = input.to_markdown();
    let fm = split_frontmatter(&md);
    assert_eq!(
        fm.yaml.as_deref(),
        Some(
            "title: \"Hello\"\ndescription: \"\"\ntags: []\nlayout: framed-image\nsubtitle: \"World\"\nsource: \"Source\"\nsource_url: \"https://example.com\""
        )
    );
    assert_eq!(fm.body, "Intro\n---\nMore");
}

#[test]
fn written_slide_with_empty_body_splits() {
    let input = input("   \n");
    let md = input.to_markdown();
    let fm = split_frontmatter(&md);
    assert!(fm.yaml.unwrap().starts_with("title: \"Hello\""));
    assert_eq!(fm.body, "");
}

#[test]
fn quoted_title_survives_and_description_is_written_raw() {
    let mut i = input("x");
    i.title = "Say \"hi\": now".into();
    i.description = Some("a: b".into());
    let md = i.to_markdown();
    assert!(md.contains("title: \"Say \\\"hi\\\": now\"\n"));
    assert!(md.contains("description: \"a: b\"\n"));
    let fm = split_frontmatter(&md);
    let v: serde_yaml_ng::Value = serde_yaml_ng::from_str(fm.yaml.as_deref().unwrap()).unwrap();
    assert_eq!(v["title"].as_str(), Some("Say \"hi\": now"));
    assert_eq!(v["description"].as_str(), Some("a: b"));
}
