use sldr::config::{
    default_resolution_order, resolve_base, Config, CoreConfig, MatchingConfig, PresentationsConfig,
};

fn p(s: &str) -> Option<String> {
    Some(s.to_string())
}

#[test]
fn resolve_base_absolute_xdg_wins_on_any_os() {
    let xdg = p("/explicit/xdg");
    let home = p("/home/user");
    let win = p("C:\\Users\\u\\AppData\\Roaming");

    // unix
    assert_eq!(
        resolve_base(xdg.clone(), home.clone(), win.clone(), false, ".config"),
        p("/explicit/xdg")
    );
    // windows
    assert_eq!(
        resolve_base(xdg.clone(), home.clone(), win.clone(), true, ".config"),
        p("/explicit/xdg")
    );
}

#[test]
fn resolve_base_relative_xdg_is_ignored() {
    let xdg = p("relative/path");
    let home = p("/home/user");
    assert_eq!(resolve_base(xdg, home, None, false, ".config"), p("/home/user/.config"));
}

#[test]
fn resolve_base_unix_uses_home_not_library() {
    let home = p("/Users/user");
    let got = resolve_base(None, home, None, false, ".config");
    assert_eq!(got, p("/Users/user/.config"));
    let rendered = got.clone();
    assert_eq!(rendered.as_deref(), Some("/Users/user/.config"));
    assert!(!rendered.unwrap_or_default().contains("Library"));
}

#[test]
fn resolve_base_windows_uses_win_dir() {
    let win = p("C:\\Users\\u\\AppData\\Roaming");
    assert_eq!(resolve_base(None, p("/home/user"), win.clone(), true, ".config"), win);
}

#[test]
fn resolve_base_none_when_unresolvable() {
    assert_eq!(resolve_base(None, None, None, false, ".config"), None);
    assert_eq!(resolve_base(None, p("/h"), None, true, ".config"), None);
}

#[test]
fn resolve_base_home_with_trailing_separator() {
    assert_eq!(resolve_base(None, p("/home/u/"), None, false, ".cache"), p("/home/u/.cache"));
    assert_eq!(resolve_base(None, p("/home/u"), None, false, "/abs"), p("/abs"));
}

#[test]
fn test_default_config() {
    let core = CoreConfig::default();
    assert_eq!(core.default_flavor, "default");
    assert_eq!(core.dev_port, "3030");
    assert_eq!(core.library, "~/sldr");
    let pres = PresentationsConfig::default();
    assert_eq!(pres.slide_dir, "~/sldr/slides");
    let matching = MatchingConfig::default();
    assert_eq!(matching.threshold, 50);
    assert_eq!(matching.max_suggestions, 6);
    assert_eq!(matching.resolution_order, default_resolution_order());
    assert_eq!(default_resolution_order(), vec!["anchor", "exact", "fuzzy", "index", "interactive"]);
}

#[test]
fn test_expand_path() {
    let path = Config::expand_path("~/test");
    assert!(!path.contains('~'));
    assert!(path.ends_with("/test"));
}

#[test]
fn plain_paths_are_not_expanded() {
    assert_eq!(Config::expand_path("/srv/sldr/slides"), "/srv/sldr/slides");
    assert_eq!(Config::expand_path("relative/dir"), "relative/dir");
}

#[test]
fn directories_of_sldr_under_their_bases() {
    assert_eq!(Config::config_dir(Some("/home/u/.config")), "/home/u/.config/sldr");
    assert_eq!(Config::config_dir(None), "~/.config/sldr");
    assert_eq!(Config::data_dir(None), "~/.local/share/sldr");
    assert_eq!(Config::state_dir(Some("/s")), "/s/sldr");
    assert_eq!(Config::cache_dir(None), "~/.cache/sldr");
    assert_eq!(Config::config_file_path(Some("/home/u/.config")), "/home/u/.config/sldr/config.toml");
}

#[test]
fn configured_directories_are_expanded() {
    let mut c = Config::default();
    c.presentations.slide_dir = "/lib/slides".into();
    c.presentations.playlist_dir = "/lib/playlists".into();
    assert_eq!(c.slide_dir(), "/lib/slides");
    assert_eq!(c.playlist_dir(), "/lib/playlists");
}
