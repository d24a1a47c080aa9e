use sldr::presentation::playlist_from_dir;

fn v(xs: &[&str]) -> Vec<String> {
    xs.iter().map(|s| s.to_string()).collect()
}

#[test]
fn playlist_from_dir_names_titles_and_references() {
    let p = playlist_from_dir("/lib/slides/deep_learning-101", None, "/lib/slides", &v(&["intro.md", "sub/a.md"])).unwrap();
    assert_eq!(p.name, "deep_learning-101");
    assert_eq!(p.title.as_deref(), Some("deep learning 101"));
    assert_eq!(p.description.as_deref(), Some("Auto-generated from /lib/slides/deep_learning-101"));
    assert_eq!(p.slides, v(&["deep_learning-101/intro.md", "deep_learning-101/sub/a.md"]));
    assert!(p.flavor.is_none());
}

#[test]
fn playlist_from_dir_outside_the_slide_dir_keeps_found_paths() {
    let p = playlist_from_dir("/elsewhere/talk/", Some("mine"), "/lib/slides", &v(&["x.md"])).unwrap();
    assert_eq!(p.name, "mine");
    assert_eq!(p.slides, v(&["x.md"]));
    let p = playlist_from_dir("slides/talk", None, "slides", &v(&["x.md"])).unwrap();
    assert_eq!(p.slides, v(&["talk/x.md"]));
    let p = playlist_from_dir("/", None, "/lib", &v(&["x.md"])).unwrap();
    assert_eq!(p.name, "untitled");
    let p = playlist_from_dir("/a/..", None, "/lib", &v(&["x.md"])).unwrap();
    assert_eq!(p.name, "untitled");
}

#[test]
fn playlist_from_empty_dir_is_refused() {
    assert_eq!(playlist_from_dir("/lib/slides/x", None, "/lib/slides", &[]).unwrap_err(), "No slides found in '/lib/slides/x'");
}
