use sldr::config::MatchingConfig;
use sldr::find::{find, snippet, FindOpts, Hit, W_NAME_EXACT};
use sldr::slide::{Slide, SlideCollection, SlideMetadata};

fn meta(title: Option<&str>, tags: &[&str], topic: Option<&str>, layout: Option<&str>) -> SlideMetadata {
    SlideMetadata {
        title: title.map(String::from),
        tags: tags.iter().map(|t| t.to_string()).collect(),
        topic: topic.map(String::from),
        layout: layout.map(String::from),
        ..Default::default()
    }
}

fn lib() -> SlideCollection {
    SlideCollection {
        slides: vec![
            Slide::from_str(
                "intro",
                "genai/intro.md",
                "---\ntitle: Why agents need evals\ntags: [agents, evals]\ntopic: agents\n---\nAn agent without an eval harness is a demo.\n",
                meta(Some("Why agents need evals"), &["agents", "evals"], Some("agents"), None),
            ),
            Slide::from_str(
                "loop",
                "genai/loop.md",
                "---\ntitle: The tool-use loop\ntags: [agents, tool-use]\n---\nModel, tool, observation. Repeat until the model answers.\n",
                meta(Some("The tool-use loop"), &["agents", "tool-use"], None, None),
            ),
            Slide::from_str(
                "crdt",
                "coedit/crdt.md",
                "---\ntitle: CRDT vs OT\n---\nTwo cursors, one file. Evals are irrelevant here.\n",
                meta(Some("CRDT vs OT"), &[], None, None),
            ),
            Slide::from_str(
                "cover",
                "shared/cover.md",
                "---\nlayout: cover\n---\n# Welcome\n",
                meta(None, &[], None, Some("cover")),
            ),
        ],
        base_dir: "/lib".to_string(),
    }
}

fn run(q: &str) -> Vec<Hit> {
    find(q, &lib(), &MatchingConfig::default(), &FindOpts::default())
}

#[test]
fn title_and_tag_hits_outrank_body_only() {
    let hits = run("evals");
    let paths: Vec<&str> = hits.iter().map(|h| h.relative_path.as_str()).collect();
    assert_eq!(paths, vec!["genai/intro.md", "coedit/crdt.md"]);
    assert!(hits[0].matched.iter().any(|m| m.field == "title"));
    assert!(hits[0].matched.iter().any(|m| m.field == "tags" && m.snippet == "evals"));
    let crdt = &hits[1];
    assert_eq!(crdt.matched.len(), 1);
    assert_eq!(crdt.matched[0].field, "body");
    assert!(crdt.matched[0].snippet.contains("Evals are irrelevant"));
}

#[test]
fn every_token_must_land_somewhere() {
    let bad = run("harness cursors");
    assert!(bad.is_empty(), "no slide has both, got {bad:?}");
    let hits = run("tool observation");
    assert_eq!(hits.len(), 1);
    assert_eq!(hits[0].relative_path, "genai/loop.md");
}

#[test]
fn fuzzy_name_finds_without_text_hit() {
    let hits = run("intr");
    assert_eq!(hits[0].relative_path, "genai/intro.md");
    assert!(hits[0].matched.iter().any(|m| m.field == "name"));
}

#[test]
fn exact_name_wins_over_everything() {
    let hits = run("crdt");
    assert_eq!(hits[0].relative_path, "coedit/crdt.md");
    assert!(hits[0].score >= W_NAME_EXACT);
}

#[test]
fn filters_and_limit_apply() {
    let o = FindOpts { tags: vec!["Tool-Use".into()], ..Default::default() };
    let hits = find("agents", &lib(), &MatchingConfig::default(), &o);
    assert_eq!(hits.len(), 1);
    assert_eq!(hits[0].relative_path, "genai/loop.md");
    let o = FindOpts { limit: Some(1), ..Default::default() };
    assert_eq!(find("agents", &lib(), &MatchingConfig::default(), &o).len(), 1);
    assert_eq!(hits[0].layout, "default");
}

#[test]
fn deterministic_order_and_empty_query() {
    assert!(run("").is_empty());
    assert!(run("   ").is_empty());
    let a = run("the");
    let b = run("the");
    assert_eq!(a, b);
}

#[test]
fn topic_filter_is_case_insensitive() {
    let o = FindOpts { topic: Some("AGENT".into()), ..Default::default() };
    let hits = find("agents", &lib(), &MatchingConfig::default(), &o);
    let paths: Vec<&str> = hits.iter().map(|h| h.relative_path.as_str()).collect();
    assert_eq!(paths, vec!["genai/intro.md"]);
}

#[test]
fn snippet_respects_char_boundaries() {
    let s = "ä".repeat(100) + "needle" + &"ö".repeat(100);
    let out = snippet(&s, s.find("needle").unwrap());
    assert!(out.contains("needle"));
    assert!(out.starts_with('…') && out.ends_with('…'));
}

#[test]
fn snippet_collapses_white_space_and_marks_cuts() {
    assert_eq!(snippet("a  b\n\tc", 0), "a b c");
    let long = "x".repeat(100) + " hit " + &"y".repeat(100);
    let out = snippet(&long, 100);
    assert_eq!(out, format!("…{} hit {}…", "x".repeat(60), "y".repeat(55)));
    assert_eq!(snippet("short", 1000), "short");
}

#[test]
fn limited_search_is_prefix_of_unlimited() {
    let all = find("agents", &lib(), &MatchingConfig::default(), &FindOpts::default());
    assert!(all.len() >= 2);
    for n in 0..=all.len() + 1 {
        let o = FindOpts { limit: Some(n), ..Default::default() };
        let some = find("agents", &lib(), &MatchingConfig::default(), &o);
        let k = n.min(all.len());
        let want: Vec<String> = all[..k].iter().map(|h| h.relative_path.clone()).collect();
        let got: Vec<String> = some.iter().map(|h| h.relative_path.clone()).collect();
        assert_eq!(got, want);
    }
}

#[test]
fn hits_rank_strictly_and_score_above_zero() {
    for q in ["agents", "evals", "tool", "crdt", "welcome"] {
        let h = find(q, &lib(), &MatchingConfig::default(), &FindOpts::default());
        assert!(h.iter().all(|x| x.score > 0));
        assert!(h.windows(2).all(|w| w[0].score > w[1].score
            || (w[0].score == w[1].score && w[0].relative_path < w[1].relative_path)));
    }
}
