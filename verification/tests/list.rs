use sldr::cli::Scaffold;
use sldr::flavor::{Curation, Density, Flavor, Formality, Scheme};
use sldr::list::{list_target, scaffold_entries, FlavorEntry, ListKind};

#[test]
fn list_targets_and_aliases() {
    assert_eq!(list_target("Slides"), Ok(ListKind::Slides));
    assert_eq!(list_target("p"), Ok(ListKind::Presentations));
    assert_eq!(list_target("pl"), Ok(ListKind::Playlists));
    assert_eq!(list_target("F"), Ok(ListKind::Flavors));
    assert_eq!(list_target("sc"), Ok(ListKind::Scaffolds));
    assert_eq!(list_target("la"), Ok(ListKind::Layouts));
    assert_eq!(
        list_target("Decks"),
        Err("Unknown type 'Decks'. Use: slides, presentations, playlists, flavors, or scaffolds".to_string())
    );
}

#[test]
fn flavor_entry_maps_curation_to_bht_shape() {
    let mut flavor = Flavor::default();
    flavor.name = "editorial-serif".to_string();
    flavor.display_name = Some("Editorial Serif".to_string());
    flavor.description = Some("Magazine-grade serif headlines.".to_string());
    flavor.curation = Curation {
        mood: vec!["literary".into(), "warm".into()],
        tone: vec!["editorial".into()],
        occasion: vec!["essay".into()],
        formality: Some(Formality::MediumHigh),
        density: Some(Density::Low),
        scheme: Some(Scheme::Light),
        best_for: Some("long-form".into()),
        avoid_for: Some("dashboards".into()),
    };
    let entry = FlavorEntry::from_flavor(&flavor);
    assert_eq!(entry.slug, "editorial-serif");
    assert_eq!(entry.name, "Editorial Serif");
    assert_eq!(entry.tagline.as_deref(), Some("Magazine-grade serif headlines."));
    assert_eq!(entry.mood[0], "literary");
    assert_eq!(entry.formality, Some(Formality::MediumHigh));
    assert_eq!(entry.density, Some(Density::Low));
    assert_eq!(entry.scheme, Some(Scheme::Light));
    assert_eq!(entry.best_for.as_deref(), Some("long-form"));
}

#[test]
fn flavor_entry_omits_empty_fields() {
    let mut flavor = Flavor::default();
    flavor.name = "bare".to_string();
    flavor.display_name = None;
    flavor.description = None;
    let entry = FlavorEntry::from_flavor(&flavor);
    assert_eq!(entry.slug, "bare");
    assert_eq!(entry.name, "bare");
    assert!(entry.tagline.is_none());
    assert!(entry.mood.is_empty());
    assert!(entry.formality.is_none());
    assert!(entry.best_for.is_none());
}

const BUNDLED: &[Scaffold] = &[
    Scaffold { name: "title.md", content: "# {{title}}" },
    Scaffold { name: "two-cols.md", content: "" },
    Scaffold { name: "quote.md", content: "" },
];

#[test]
fn scaffold_listing_marks_installed_and_appends_custom() {
    let installed: Vec<String> = vec!["quote.md".into(), "mine.md".into(), "title.md".into(), "mine.md".into(), "x.md.md".into()];
    let entries = scaffold_entries(BUNDLED, &installed);
    let got: Vec<(&str, bool, bool)> = entries.iter().map(|e| (e.name.as_str(), e.installed, e.bundled)).collect();
    assert_eq!(got, vec![
        ("title", true, true),
        ("two-cols", false, true),
        ("quote", true, true),
        ("mine", true, false),
        ("x", true, false),
    ]);
    assert_eq!(scaffold_entries(BUNDLED, &[]).len(), 3);
}
