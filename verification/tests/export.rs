use sldr::deck::ZoneContent;
use sldr::export::{numbered_name, picture_ext, slide_fields, Segments};
use sldr::slide::ResolvedChrome;

fn names(v: &[(String, ZoneContent)]) -> Vec<&str> {
    v.iter().map(|(n, _)| n.as_str()).collect()
}

fn text_of<'a>(v: &'a [(String, ZoneContent)], zone: &str) -> &'a str {
    match &v.iter().find(|(n, _)| n == zone).unwrap().1 {
        ZoneContent::Text(t) | ZoneContent::Markdown(t) => t.as_str(),
        ZoneContent::Picture { .. } => panic!("picture"),
    }
}

fn no_segments() -> Segments {
    Segments { heading: None, content: None, left: None, right: None, image: None }
}

#[test]
fn fields_follow_chrome_then_segments() {
    let chrome = ResolvedChrome {
        title: Some("Title".into()),
        subtitle: None,
        source: Some("Acme report".into()),
        source_url: Some("https://acme.test".into()),
        footer: None,
        untranslated_to: None,
    };
    let seg = Segments { heading: None, content: Some("- a".into()), left: Some("L".into()), right: None, image: Some("![x](x.png)".into()) };
    let f = slide_fields(&chrome, &Some("ACME".into()), Some("de"), "en", &seg, Some((vec![1, 2], "png".into(), None)));
    assert_eq!(names(&f), vec!["headline", "footer", "source", "content", "left", "image"]);
    assert_eq!(text_of(&f, "footer"), "ACME");
    assert_eq!(text_of(&f, "source"), "Quelle: Acme report (https://acme.test)");
    assert!(matches!(&f[5].1, ZoneContent::Picture { bytes, ext, fit: None } if bytes == &vec![1u8, 2] && ext == "png"));
}

#[test]
fn slide_footer_wins_and_source_without_link() {
    let chrome = ResolvedChrome {
        title: None,
        subtitle: Some("Sub".into()),
        source: Some("Paper".into()),
        source_url: None,
        footer: Some("Own".into()),
        untranslated_to: None,
    };
    let f = slide_fields(&chrome, &Some("ACME".into()), None, "en", &no_segments(), None);
    assert_eq!(names(&f), vec!["subheadline", "footer", "source"]);
    assert_eq!(text_of(&f, "footer"), "Own");
    assert_eq!(text_of(&f, "source"), "Source: Paper");
}

#[test]
fn only_local_rasters_embed() {
    assert_eq!(picture_ext("media/a.PNG"), Some("png".to_string()));
    assert_eq!(picture_ext("b.jpg"), Some("jpeg".to_string()));
    assert_eq!(picture_ext("c.JPEG"), Some("jpeg".to_string()));
    assert_eq!(picture_ext("d.gif"), Some("gif".to_string()));
    assert_eq!(picture_ext("e.svg"), None);
    assert_eq!(picture_ext("noext"), None);
    assert_eq!(picture_ext(".png"), None);
    assert_eq!(picture_ext("https://x/y.png"), None);
    assert_eq!(picture_ext("data:image/png;base64,AA"), None);
}

#[test]
fn numbered_names() {
    assert_eq!(numbered_name("logo.svg", 1), "logo-1.svg");
    assert_eq!(numbered_name("archive.tar.gz", 12), "archive.tar-12.gz");
    assert_eq!(numbered_name("README", 3), "README-3");
}
