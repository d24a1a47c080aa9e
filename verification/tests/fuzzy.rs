use sldr::config::MatchingConfig;
use sldr::fuzzy::{MatchType, ResolveResult, SldrMatcher};

fn test_config() -> MatchingConfig {
    MatchingConfig {
        resolution_order: vec!["exact".to_string(), "fuzzy".to_string()],
        threshold: 50,
        max_suggestions: 6,
    }
}

fn c(v: &[&str]) -> Vec<String> {
    v.iter().map(|s| s.to_string()).collect()
}

#[test]
fn test_exact_match() {
    let matcher = SldrMatcher::new(test_config());
    let candidates = c(&["intro.md", "conclusion.md", "overview.md"]);
    let result = matcher.find_best("intro", &candidates);
    assert!(result.is_some());
    assert_eq!(result.unwrap().value, "intro.md");
}

#[test]
fn test_fuzzy_match() {
    let matcher = SldrMatcher::new(test_config());
    let candidates = c(&["introduction.md", "conclusion.md", "overview.md"]);
    let result = matcher.find_best("intro", &candidates);
    assert!(result.is_some());
    assert_eq!(result.unwrap().value, "introduction.md");
}

#[test]
fn test_no_match() {
    let matcher = SldrMatcher::new(test_config());
    let candidates = c(&["apple.md", "banana.md"]);
    assert!(matcher.find_best("xyz123", &candidates).is_none());
}

#[test]
fn test_subdir_exact_match() {
    let matcher = SldrMatcher::new(test_config());
    let candidates = c(&["lora/intro.md", "lora/concepts.md", "ai/intro.md"]);
    let result = matcher.find_best("lora/intro", &candidates);
    assert!(result.is_some());
    assert_eq!(result.unwrap().value, "lora/intro.md");
    let result = matcher.find_best("lora/intro.md", &candidates);
    assert!(result.is_some());
    assert_eq!(result.unwrap().value, "lora/intro.md");
}

#[test]
fn test_subdir_name_only_match() {
    let matcher = SldrMatcher::new(test_config());
    let candidates = c(&["lora/concepts.md", "lora/adapters.md"]);
    let result = matcher.find_best("concepts", &candidates);
    assert!(result.is_some());
    assert_eq!(result.unwrap().value, "lora/concepts.md");
}

#[test]
fn test_md_extension_normalization() {
    let matcher = SldrMatcher::new(test_config());
    let candidates = c(&["slide-one.md", "slide-two.md"]);
    let result = matcher.find_best("slide-one.md", &candidates);
    assert!(result.is_some());
    assert_eq!(result.unwrap().value, "slide-one.md");
    let result = matcher.find_best("slide-one", &candidates);
    assert!(result.is_some());
    assert_eq!(result.unwrap().value, "slide-one.md");
}

#[test]
fn empty_query_or_candidates_find_nothing() {
    let matcher = SldrMatcher::new(test_config());
    assert!(matcher.find_all("", &c(&["a.md"])).is_empty());
    assert!(matcher.find_all("a", &[]).is_empty());
}

#[test]
fn exact_matches_sort_first_and_cap_applies() {
    let mut cfg = test_config();
    cfg.max_suggestions = 1;
    let matcher = SldrMatcher::new(cfg);
    let all = matcher.find_all("intro", &c(&["introduction.md", "ai/intro.md"]));
    assert_eq!(all.len(), 1);
    assert_eq!(all[0].value, "ai/intro.md");
    assert_eq!(all[0].match_type, MatchType::Exact);
    assert_eq!(all[0].score, i64::MAX);
}

#[test]
fn short_query_substring_fallback_scores_by_length() {
    let matcher = SldrMatcher::new(MatchingConfig { threshold: 10_000, ..test_config() });
    let all = matcher.find_all("ab", &c(&["xxabyy.md"]));
    assert_eq!(all.len(), 1);
    assert_eq!(all[0].score, 100);
    assert_eq!(all[0].match_type, MatchType::Fuzzy);
}

#[test]
fn resolve_prefers_single_exact_and_reports_none() {
    let matcher = SldrMatcher::new(test_config());
    match matcher.resolve("intro", &c(&["intro.md", "introduction.md"])) {
        ResolveResult::Found(m) => assert_eq!(m.value, "intro.md"),
        other => panic!("expected Found, got {other:?}"),
    }
    assert!(matches!(matcher.resolve("zzz", &c(&["apple.md"])), ResolveResult::NotFound));
}
