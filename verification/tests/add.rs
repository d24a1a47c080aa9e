use sldr::add::{add_clamped, add_to_playlist, parse_index, removal_indices, remove_slides, request_names, AddOutcome};
use sldr::config::MatchingConfig;
use sldr::fuzzy::SldrMatcher;

fn v(xs: &[&str]) -> Vec<String> {
    xs.iter().map(|s| s.to_string()).collect()
}

#[test]
fn request_splits_on_commas_and_spaces() {
    assert_eq!(request_names(" alpha, zebra  gamma,,\tdelta\t "), v(&["alpha", "zebra", "gamma", "delta"]));
    assert!(request_names(" , ,  ").is_empty());
}

#[test]
fn empty_request_is_refused() {
    let m = SldrMatcher::new(MatchingConfig::default());
    let r = add_to_playlist(&v(&["x.md"]), " ,, ", None, &v(&["ai/alpha.md"]), &m);
    assert_eq!(r.unwrap_err(), "No slides specified");
}

#[test]
fn found_slides_are_appended_and_missing_reported() {
    let m = SldrMatcher::new(MatchingConfig::default());
    let names = v(&["ai/alpha.md", "ai/zebra.md"]);
    let (list, out) = add_to_playlist(&v(&["x.md"]), "alpha,qqqqqq", None, &names, &m).unwrap();
    assert_eq!(list, v(&["x.md", "ai/alpha.md"]));
    assert_eq!(out.len(), 2);
    assert!(matches!(&out[0], AddOutcome::Added(s) if s == "ai/alpha.md"));
    assert!(matches!(&out[1], AddOutcome::NotFound(s) if s == "qqqqqq"));
}

#[test]
fn slides_go_in_at_the_position_in_request_order() {
    let m = SldrMatcher::new(MatchingConfig::default());
    let names = v(&["ai/alpha.md", "ai/zebra.md"]);
    let (list, _) = add_to_playlist(&v(&["x.md", "y.md"]), "alpha zebra", Some(1), &names, &m).unwrap();
    assert_eq!(list, v(&["x.md", "ai/alpha.md", "ai/zebra.md", "y.md"]));
}

#[test]
fn present_slides_are_not_added_twice() {
    let m = SldrMatcher::new(MatchingConfig::default());
    let names = v(&["ai/alpha.md", "ai/zebra.md"]);
    let (list, out) = add_to_playlist(&v(&["ai/alpha.md"]), "alpha alpha", Some(0), &names, &m).unwrap();
    assert_eq!(list, v(&["ai/alpha.md"]));
    assert!(out.iter().all(|o| matches!(o, AddOutcome::AlreadyPresent(s) if s == "ai/alpha.md")));
}

#[test]
fn position_past_the_end_is_clamped_and_flagged() {
    let m = SldrMatcher::new(MatchingConfig::default());
    let names = v(&["ai/alpha.md", "ai/zebra.md"]);
    let (list, _, past) = add_clamped(&v(&["x.md"]), "alpha", Some(9), &names, &m).unwrap();
    assert_eq!(list, v(&["x.md", "ai/alpha.md"]));
    assert!(!past);
    let (_, _, past) = add_clamped(&v(&["x.md"]), "alpha zebra", Some(9), &names, &m).unwrap();
    assert!(past);
    let (list, _, past) = add_clamped(&v(&["x.md"]), "alpha zebra", Some(0), &names, &m).unwrap();
    assert_eq!(list, v(&["ai/alpha.md", "ai/zebra.md", "x.md"]));
    assert!(!past);
}

#[test]
fn removal_resolves_names_then_indices() {
    let m = SldrMatcher::new(MatchingConfig::default());
    let pl = v(&["ai/alpha.md", "ai/zebra.md", "x.md"]);
    assert_eq!(removal_indices(&pl, "zebra, 0 zebra", &m).unwrap(), vec![1, 0]);
    assert_eq!(remove_slides(&pl, &[1, 0]), v(&["x.md"]));
    assert_eq!(
        removal_indices(&pl, "7", &m).unwrap_err(),
        "Index 7 out of range (playlist has 3 slides)"
    );
    assert_eq!(removal_indices(&pl, "qqqqqq", &m).unwrap_err(), "Slide 'qqqqqq' not found in playlist");
    assert!(removal_indices(&pl, "  ", &m).unwrap().is_empty());
    assert_eq!(parse_index("+12"), Some(12));
    assert_eq!(parse_index("1a"), None);
    assert_eq!(parse_index(""), None);
    assert_eq!(parse_index("+"), None);
    assert_eq!(parse_index("99999999999999999999999"), None);
}
