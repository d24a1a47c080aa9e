use sldr::config::MatchingConfig;
use sldr::fuzzy::SldrMatcher;
use sldr::show::{resolve_name, show_target, sort_unique, ShowTarget};

fn matcher() -> SldrMatcher {
    SldrMatcher::new(MatchingConfig {
        resolution_order: vec!["exact".to_string(), "fuzzy".to_string()],
        threshold: 50,
        max_suggestions: 6,
    })
}

fn c(v: &[&str]) -> Vec<String> {
    v.iter().map(|s| s.to_string()).collect()
}

#[test]
fn show_targets_are_case_insensitive() {
    assert_eq!(show_target("Layout"), Ok(ShowTarget::Layout));
    assert_eq!(show_target("layouts"), Ok(ShowTarget::Layout));
    assert_eq!(show_target("FLAVOUR"), Ok(ShowTarget::Flavor));
    assert_eq!(show_target("flavors"), Ok(ShowTarget::Flavor));
    assert_eq!(
        show_target("Theme"),
        Err("Don't know how to show 'theme'. Try: sldr show layout <name> | sldr show flavor <name>".to_string())
    );
}

#[test]
fn candidates_are_sorted_and_deduplicated() {
    assert_eq!(sort_unique(&c(&["two-cols", "framed", "cover", "framed", "Cover"])), c(&["Cover", "cover", "framed", "two-cols"]));
    assert_eq!(sort_unique(&c(&[])), c(&[]));
    assert_eq!(sort_unique(&c(&["b", "a", "b", "a"])), c(&["a", "b"]));
}

#[test]
fn exact_name_resolves() {
    let m = matcher();
    assert_eq!(resolve_name(&m, "Layout", "framed", c(&["two-cols", "framed", "cover", "framed"])), Ok("framed".to_string()));
}

#[test]
fn unknown_name_lists_every_candidate_once() {
    let m = matcher();
    assert_eq!(
        resolve_name(&m, "Layout", "qqq", c(&["two-cols", "framed", "cover", "framed"])),
        Err("Layout 'qqq' not found. Available: cover, framed, two-cols".to_string())
    );
}

#[test]
fn ambiguous_name_lists_the_candidates() {
    let m = matcher();
    let r = resolve_name(&m, "Flavor", "dark", c(&["dark-blue", "dark-red"]));
    let e = r.unwrap_err();
    assert!(e.starts_with("Ambiguous Flavor 'dark'. Candidates: "), "{e}");
    assert!(e.contains("dark-blue") && e.contains("dark-red"), "{e}");
}
