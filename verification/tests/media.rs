use sldr::media::{media_kind, references, safe_file_name, MediaKind};
use sldr::slide::{Slide, SlideCollection, SlideMetadata};

#[test]
fn references_finds_markdown_and_html_locals_only() {
    let body = "![a](media/x.png)\n[link](not-image.md)\n<img src=\"media/y.jpg\">\n![u](https://x/y.png)\n<video src=\"../media/clip.mp4\"></video>\n![t](media/x.png \"title\")";
    assert_eq!(references(body), vec!["media/x.png", "media/y.jpg", "../media/clip.mp4"]);
}

#[test]
fn references_skip_absolute_and_data_sources() {
    let body = "![a](/abs.png)\n![b](data:image/png;base64,xx)\n![c](//cdn/x.png)\n<source src=\"media/a.webm\">\n![d](  media/d.gif  )";
    assert_eq!(references(body), vec!["media/d.gif", "media/a.webm"]);
}

#[test]
fn references_of_plain_text_is_empty() {
    assert!(references("no images here [x](y)").is_empty());
}

#[test]
fn media_kind_by_extension() {
    assert_eq!(media_kind("photo.PNG"), MediaKind::Image);
    assert_eq!(media_kind("clip.mp4"), MediaKind::Video);
    assert_eq!(media_kind("notes.txt"), MediaKind::Other);
}

#[test]
fn safe_file_name_rejects_paths_and_dots() {
    assert_eq!(safe_file_name("  logo.svg "), Some("logo.svg".to_string()));
    assert_eq!(safe_file_name(".hidden"), None);
    assert_eq!(safe_file_name("a/b.png"), None);
    assert_eq!(safe_file_name("a\\b.png"), None);
    assert_eq!(safe_file_name("a..b"), None);
    assert_eq!(safe_file_name("   "), None);
    assert_eq!(safe_file_name("bad\u{7}name"), None);
}

#[test]
fn resolve_listed_stays_in_media_folders() {
    let slides = "/lib/slides";
    let lib = "/lib/media";
    assert_eq!(
        sldr::media::resolve_listed(slides, lib, "genai/media/x.png").as_deref(),
        Some("/lib/slides/genai/media/x.png")
    );
    assert_eq!(sldr::media::resolve_listed(slides, lib, "../media/logo.svg").as_deref(), Some("/lib/media/logo.svg"));
    assert_eq!(sldr::media::resolve_listed(slides, lib, "../../etc/passwd"), None);
    assert_eq!(sldr::media::resolve_listed(slides, lib, "genai/a.md"), None);
    assert_eq!(
        sldr::media::resolve_listed(slides, lib, "./genai//media/./y.png").as_deref(),
        Some("/lib/slides/genai/media/y.png")
    );
    assert_eq!(sldr::media::resolve_listed(slides, lib, "/etc/media/x.png"), None);
    assert_eq!(sldr::media::resolve_listed(slides, lib, "genai/../../media/z.png").as_deref(), Some("/lib/media/z.png"));
}

#[test]
fn list_index_and_usage_across_folders() {
    let slides_dir = "/root/slides";
    let a = Slide::load_with_base(
        "/root/slides/genai/a.md",
        slides_dir,
        "![a](media/x.png)\n![l](../../media/logo.svg)\n",
        SlideMetadata::default(),
    );
    let b = Slide::load_with_base("/root/slides/genai/b.md", slides_dir, "![a](./media/x.png)\n", SlideMetadata::default());
    let coll = SlideCollection { slides: vec![a, b], base_dir: slides_dir.to_string() };
    let folders = vec![(
        "/root/slides/genai/media".to_string(),
        vec![
            ("/root/slides/genai/media/unused.png".to_string(), 1u64),
            ("/root/slides/genai/media/x.png".to_string(), 4u64),
        ],
    )];
    let library = vec![("/root/media/logo.svg".to_string(), 6u64)];
    let idx = sldr::media::list_media(slides_dir, &folders, Some(&library), &coll);
    let paths: Vec<&str> = idx.files.iter().map(|f| f.path.as_str()).collect();
    assert_eq!(paths, ["../media/logo.svg", "genai/media/unused.png", "genai/media/x.png"]);
    let x = &idx.files[2];
    assert_eq!(x.kind, MediaKind::Image);
    assert_eq!(x.bytes, 4);
    assert_eq!(x.used_by, vec!["genai/a.md", "genai/b.md"]);
    assert_eq!(x.folder, "genai");
    assert_eq!(x.file_name, "x.png");
    assert!(idx.files[1].used_by.is_empty());
    let logo = &idx.files[0];
    assert_eq!(logo.used_by, vec!["genai/a.md"]);
    assert_eq!(logo.folder, "");

    let lib = "/root/media";
    assert!(sldr::media::resolve_listed(slides_dir, lib, "genai/media/x.png").is_some());
    assert!(sldr::media::resolve_listed(slides_dir, lib, "../media/logo.svg").is_some());
    assert!(sldr::media::resolve_listed(slides_dir, lib, "../../etc/passwd").is_none());
    assert!(sldr::media::resolve_listed(slides_dir, lib, "genai/a.md").is_none(), "not in a media folder");
}

#[test]
fn top_level_media_folder_and_library_without_folder() {
    let coll = SlideCollection { slides: vec![], base_dir: "/s".to_string() };
    let folders = vec![("/s/media".to_string(), vec![("/s/media/clip.MP4".to_string(), 9u64)])];
    let idx = sldr::media::list_media("/s", &folders, None, &coll);
    assert_eq!(idx.files.len(), 1);
    assert_eq!(idx.files[0].path, "media/clip.MP4");
    assert_eq!(idx.files[0].folder, "");
    assert_eq!(idx.files[0].kind, MediaKind::Video);
}
