use sldr::config::MatchingConfig;
use sldr::fuzzy::SldrMatcher;
use sldr::presentation::{Playlist, PlaylistInput, RenderOpts};
use sldr::slide::{Slide, SlideCollection, SlideMetadata};
use sldr::usage::{slides_using_layout, UsageIndex};

fn slide(name: &str, rel: &str, layout: Option<&str>) -> Slide {
    let meta = SlideMetadata { layout: layout.map(String::from), ..Default::default() };
    Slide::from_str(name, rel, "x", meta)
}

fn library() -> SlideCollection {
    SlideCollection {
        slides: vec![
            slide("intro", "genai/intro.md", Some("framed")),
            slide("loop", "genai/loop.md", None),
            slide("questions", "shared/questions.md", Some("cover")),
        ],
        base_dir: "/lib".to_string(),
    }
}

fn playlist(name: &str, slides: &[&str]) -> (String, Playlist) {
    (
        name.to_string(),
        Playlist {
            name: name.to_string(),
            title: None,
            description: None,
            slides: slides.iter().map(|s| s.to_string()).collect(),
            flavor: Some("byteowlz".into()),
            default_lang: None,
            render: RenderOpts::default(),
        },
    )
}

#[test]
fn index_counts_references_by_relative_path() {
    let lib = library();
    let matcher = SldrMatcher::new(MatchingConfig::default());
    let pls = vec![
        playlist("talk-a", &["genai/intro", "shared/questions.md"]),
        playlist("talk-b", &["genai/intro.md", "genai/loop", "questions"]),
    ];
    let idx = UsageIndex::from_playlists(&pls, &lib, &matcher, Vec::new());
    assert_eq!(idx.playlists, 2);
    let intro = idx.of("genai/intro.md");
    assert_eq!(intro.len(), 2);
    assert_eq!(intro[0].name, "talk-a");
    assert_eq!(intro[0].position, 1);
    assert_eq!(intro[0].of, 2);
    assert_eq!(intro[1].flavor.as_deref(), Some("byteowlz"));
    assert_eq!(idx.of("shared/questions.md").len(), 2);
    assert_eq!(idx.of("genai/loop.md").len(), 1);
    assert!(idx.unresolved.is_empty(), "{:?}", idx.unresolved);
    assert!(idx.unused(&lib).is_empty());
}

#[test]
fn unresolvable_entries_are_reported_not_guessed() {
    let lib = library();
    let matcher = SldrMatcher::new(MatchingConfig::default());
    let pls = vec![playlist("talk", &["genai/intro", "does-not-exist-anywhere"])];
    let idx = UsageIndex::from_playlists(&pls, &lib, &matcher, Vec::new());
    assert_eq!(idx.of("genai/intro.md").len(), 1);
    assert_eq!(idx.unresolved.len(), 1);
    assert_eq!(idx.unresolved[0].entry, "does-not-exist-anywhere");
    assert_eq!(idx.unresolved[0].reason, "no slide matches");
    let unused = idx.unused(&lib);
    assert_eq!(unused, vec!["genai/loop.md", "shared/questions.md"]);
    assert!(idx.of("nowhere.md").is_empty());
}

#[test]
fn layout_usage_defaults_missing_layout_to_default() {
    let lib = library();
    assert_eq!(slides_using_layout("framed", &lib), vec!["genai/intro.md"]);
    assert_eq!(slides_using_layout("default", &lib), vec!["genai/loop.md"]);
    assert!(slides_using_layout("two-cols", &lib).is_empty());
}

#[test]
fn playlist_from_input_sets_title_and_defaults() {
    let p = Playlist::from_input(PlaylistInput {
        name: "talk".into(),
        title: "Talk".into(),
        description: None,
        slides: vec!["a".into()],
        flavor: Some("f".into()),
        render: None,
    });
    assert_eq!(p.title.as_deref(), Some("Talk"));
    assert!(p.default_lang.is_none());
    assert!(p.render.transition.is_none());
    assert_eq!(p.slides, vec!["a"]);
}
