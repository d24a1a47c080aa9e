use sldr::lang::{available_languages, select_language, LanguageOutcome};

const BILINGUAL: &str = "\
![diagram](arch.png)

::lang:en::
# Title
Body in English.

::lang:de::
# Titel
Inhalt auf Deutsch.
";

#[test]
fn neutral_slide_passes_through_unchanged() {
    let sel = select_language("# Hello\n\nNo markers here.\n", Some("de"), "en");
    assert_eq!(sel.outcome, LanguageOutcome::Neutral);
    assert_eq!(sel.content, "# Hello\n\nNo markers here.\n");
}

#[test]
fn selects_requested_language_with_shared_prefix() {
    let sel = select_language(BILINGUAL, Some("de"), "en");
    assert_eq!(sel.outcome, LanguageOutcome::Found("de".to_string()));
    assert!(sel.content.contains("![diagram](arch.png)"));
    assert!(sel.content.contains("# Titel"));
    assert!(!sel.content.contains("# Title\n"));
    assert!(!sel.content.contains("::lang:"));
}

#[test]
fn no_request_uses_deck_default() {
    let sel = select_language(BILINGUAL, None, "en");
    assert_eq!(sel.outcome, LanguageOutcome::Found("en".to_string()));
    assert!(sel.content.contains("# Title"));
    assert!(!sel.content.contains("# Titel"));
}

#[test]
fn missing_language_falls_back_to_deck_default_and_reports() {
    let sel = select_language(BILINGUAL, Some("fr"), "en");
    match sel.outcome {
        LanguageOutcome::Fallback { requested, used, available } => {
            assert_eq!(requested, "fr");
            assert_eq!(used, "en");
            assert_eq!(available, vec!["en", "de"]);
        }
        other => panic!("expected fallback, got {other:?}"),
    }
    assert!(sel.content.contains("# Title"));
}

#[test]
fn missing_default_falls_back_to_first_language() {
    let only_de = "::lang:de::\n# Titel\n";
    let sel = select_language(only_de, Some("fr"), "en");
    match sel.outcome {
        LanguageOutcome::Fallback { used, .. } => assert_eq!(used, "de"),
        other => panic!("expected fallback, got {other:?}"),
    }
}

#[test]
fn repeated_language_sections_concatenate() {
    let interleaved = "\
::lang:en::
First.
::lang:de::
Erstens.
::lang:en::
Second.
";
    let sel = select_language(interleaved, Some("en"), "en");
    assert!(sel.content.contains("First."));
    assert!(sel.content.contains("Second."));
    assert!(!sel.content.contains("Erstens."));
}

#[test]
fn marker_is_case_insensitive_and_whitespace_tolerant() {
    let content = "  ::lang:EN::  \nHello\n";
    let sel = select_language(content, Some("en"), "en");
    assert_eq!(sel.outcome, LanguageOutcome::Found("en".to_string()));
    assert!(sel.content.contains("Hello"));
}

#[test]
fn lists_available_languages_in_order() {
    assert_eq!(available_languages(BILINGUAL), vec!["en", "de"]);
    assert!(available_languages("plain content").is_empty());
}

#[test]
fn lang_markers_inside_code_fences_are_ignored() {
    let md = "::lang:en::\nReal English.\n```markdown\n::lang:de::\nthis is documentation\n```\nStill English.\n";
    let sel = select_language(md, Some("en"), "en");
    assert_eq!(sel.outcome, LanguageOutcome::Found("en".to_string()));
    assert!(sel.content.contains("Still English."));
    assert!(sel.content.contains("this is documentation"));
    assert_eq!(available_languages(md), vec!["en"]);
}

#[test]
fn selected_content_is_exact_for_bilingual_slide() {
    let sel = select_language(BILINGUAL, Some("DE"), "en");
    assert_eq!(sel.content, "![diagram](arch.png)\n\n# Titel\nInhalt auf Deutsch.\n");
}

#[test]
fn crlf_lines_and_separator_newline() {
    let sel = select_language("Shared\r\n::lang:en::\r\nBody\r\n", None, "en");
    assert_eq!(sel.content, "Shared\n\nBody\n");
}
