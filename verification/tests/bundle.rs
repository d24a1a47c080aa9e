use sldr::bundle::{
    bundle_archive, bundle_axes, bundle_default_language, bundle_entries, bundle_layouts, bundle_media_path,
    bundle_media_set,
};
use sldr::presentation::{Playlist, RenderOpts};
use sldr::slide::{Slide, SlideMetadata};

fn s(v: &str) -> String {
    v.to_string()
}

fn slide(rel: &str, layout: Option<&str>) -> Slide {
    let meta = SlideMetadata { layout: layout.map(String::from), ..Default::default() };
    Slide::from_str(rel.trim_end_matches(".md"), rel, "# x\n", meta)
}

#[test]
fn axes_split_on_commas_trimmed_without_blanks() {
    assert_eq!(bundle_axes(" dark , light,,  brand "), vec![s("dark"), s("light"), s("brand")]);
    assert!(bundle_axes(" , ").is_empty());
    assert_eq!(bundle_axes("a b"), vec![s("a b")]);
}

#[test]
fn default_language_falls_back_to_en() {
    let mut p = Playlist {
        name: s("talk"),
        title: None,
        description: None,
        slides: vec![],
        flavor: None,
        default_lang: None,
        render: RenderOpts::default(),
    };
    assert_eq!(bundle_default_language(&p), "en");
    p.default_lang = Some("de".into());
    assert_eq!(bundle_default_language(&p), "de");
}

#[test]
fn media_goes_below_slides_library_or_media() {
    assert_eq!(bundle_media_path("/lib/slides/ai/media/x.png", "/lib/slides/", "/lib"), "slides/ai/media/x.png");
    assert_eq!(bundle_media_path("/lib/media/logo.svg", "/lib/slides", "/lib"), "media/logo.svg");
    assert_eq!(bundle_media_path("/elsewhere/pic.jpg", "/lib/slides", "/lib"), "media/pic.jpg");
    assert_eq!(bundle_media_path("/lib/slidesx/a.png", "/lib/slides", "/other"), "media/a.png");
    assert_eq!(bundle_media_path("/lib/slides/a.png", "lib/slides", "/other"), "media/a.png");
}

#[test]
fn media_set_is_sorted_by_path_components_without_repeats() {
    let m = vec![
        (s("/l/a-b.png"), s("media/a-b.png")),
        (s("/l/a/b.png"), s("slides/a/b.png")),
        (s("/l/a-b.png"), s("media/a-b.png")),
        (s("/k/z.png"), s("media/z.png")),
    ];
    let set = bundle_media_set(&m);
    assert_eq!(
        set,
        vec![
            (s("/k/z.png"), s("media/z.png")),
            (s("/l/a/b.png"), s("slides/a/b.png")),
            (s("/l/a-b.png"), s("media/a-b.png")),
        ]
    );
}

#[test]
fn layouts_are_sorted_and_unique() {
    let sl = vec![slide("b.md", Some("two-col")), slide("a.md", None), slide("c.md", Some("cover")), slide("d.md", Some("two-col"))];
    assert_eq!(bundle_layouts(&sl), vec![s("cover"), s("two-col")]);
}

#[test]
fn entries_come_in_bundle_order() {
    let sl = vec![slide("ai/intro.md", None), slide("ai/outro.md", None)];
    let media = vec![(s("/l/slides/ai/media/x.png"), s("slides/ai/media/x.png")), (s("/e/a.png"), s("media/a.png"))];
    let ff = vec![(s("brand"), s("flavor.toml")), (s("brand"), s("assets/logo.svg"))];
    let layouts = vec![s("cover")];
    let names = bundle_entries(&sl, &media, &ff, &layouts);
    assert_eq!(
        names,
        vec![
            s("manifest.toml"),
            s("playlist.toml"),
            s("slides/ai/intro.md"),
            s("slides/ai/outro.md"),
            s("media/a.png"),
            s("slides/ai/media/x.png"),
            s("flavors/brand/flavor.toml"),
            s("flavors/brand/assets/logo.svg"),
            s("layouts/cover.html"),
        ]
    );
}

#[test]
fn archive_is_deterministic_and_readable() {
    let entries = vec![(s("manifest.toml"), b"playlist = \"x\"\n".to_vec()), (s("slides/a.md"), b"# A\n".to_vec())];
    let a = bundle_archive(&entries).unwrap();
    let b = bundle_archive(&entries).unwrap();
    assert_eq!(a, b);
    let mut z = zip::ZipArchive::new(std::io::Cursor::new(a)).unwrap();
    assert_eq!(z.len(), 2);
    assert_eq!(z.by_index(0).unwrap().name(), "manifest.toml");
    assert_eq!(z.by_index(1).unwrap().name(), "slides/a.md");
    assert_eq!(z.by_index(1).unwrap().compression(), zip::CompressionMethod::Deflated);
}
