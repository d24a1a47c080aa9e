use sldr::flavor::{
    default_logo_layouts, default_logo_position, default_logo_width, BackgroundConfig, ColorScheme, Decoration,
    Flavor, FlavorCollection, LogoPlacement, Opacity,
};

fn logo(position: &str, x: Option<&str>, y: Option<&str>, layouts: &[&str]) -> LogoPlacement {
    LogoPlacement {
        file: "logo.svg".into(),
        position: position.into(),
        x: x.map(String::from),
        y: y.map(String::from),
        width: default_logo_width(),
        opacity: "0.8".into(),
        layouts: layouts.iter().map(|s| s.to_string()).collect(),
    }
}

#[test]
fn logo_defaults() {
    assert_eq!(default_logo_position(), "top-right");
    assert_eq!(default_logo_width(), "100px");
    assert_eq!(default_logo_layouts(), vec!["all".to_string()]);
}

#[test]
fn logo_presets_and_custom_offsets() {
    assert_eq!(
        logo("top-center", None, None, &["all"]).to_css_position(),
        "position:absolute;top:3%;left:50%;transform:translateX(-50%);width:100px;opacity:0.8;z-index:10;pointer-events:none;"
    );
    assert_eq!(
        logo("bottom-left", None, None, &["all"]).to_css_position(),
        "position:absolute;bottom:3%;left:3%;width:100px;opacity:0.8;z-index:10;pointer-events:none;"
    );
    assert_eq!(
        logo("somewhere", None, None, &["all"]).to_css_position(),
        "position:absolute;top:3%;right:3%;width:100px;opacity:0.8;z-index:10;pointer-events:none;"
    );
    assert_eq!(
        logo("bottom-left", Some("80%"), None, &["all"]).to_css_position(),
        "position:absolute;left:80%;top:auto;width:100px;opacity:0.8;z-index:10;pointer-events:none;"
    );
}

#[test]
fn logo_layout_filter() {
    assert!(logo("top-right", None, None, &["all"]).applies_to_layout("framed"));
    assert!(logo("top-right", None, None, &["cover", "framed"]).applies_to_layout("framed"));
    assert!(!logo("top-right", None, None, &["cover"]).applies_to_layout("framed"));
    assert!(!logo("top-right", None, None, &[]).applies_to_layout("framed"));
}

#[test]
fn default_flavor_css_is_an_empty_root_block() {
    let f = Flavor::default();
    assert_eq!(f.to_css_variables(None), ":root {\n}\n");
    assert_eq!(f.to_background_css(), "");
}

#[test]
fn css_variables_in_order_with_dark_block() {
    let mut f = Flavor::default();
    f.colors.primary = Some("#123".into());
    f.spacing.density = Some("compact".into());
    f.decoration = Decoration { accent: Some("dot-grid".into()), intensity: Some("0".into()), effect: None };
    let mut dark = ColorScheme::default();
    dark.background = Some("#000".into());
    f.dark_colors = Some(dark);
    assert_eq!(
        f.to_css_variables(Some("53.6")),
        ":root {\n  --sldr-primary: #123;\n  --sldr-density-scale: 0.85;\n  --sldr-atmosphere: 0;\n  --sldr-decoration-accent: dot-grid;\n  --sldr-head-width: 53.6%;\n}\nhtml.dark {\n  --sldr-background: #000;\n}\n"
    );
}

#[test]
fn background_css_by_kind() {
    let mut f = Flavor::default();
    f.background = BackgroundConfig { background_type: Some("color".into()), value: Some("#fff".into()), opacity: None };
    assert_eq!(f.to_background_css(), ".sldr-slide { background-color: #fff; }\n");
    f.background = BackgroundConfig { background_type: Some("image".into()), value: Some("bg.png".into()), opacity: None };
    assert_eq!(
        f.to_background_css(),
        ".sldr-slide { background-image: url('/bg.png'); background-size: cover; background-position: center; }\n"
    );
    f.background = BackgroundConfig { background_type: Some("svg".into()), value: Some("https://x/bg.svg".into()), opacity: None };
    assert!(f.to_background_css().contains("url('https://x/bg.svg')"));
    f.background = BackgroundConfig {
        background_type: Some("gradient".into()),
        value: Some("linear-gradient(red, blue)".into()),
        opacity: Some(Opacity { text: "0.5".into(), below_one: true }),
    };
    assert_eq!(
        f.to_background_css(),
        ".sldr-slide { background: linear-gradient(red, blue); }\n.sldr-slide::before { content: ''; position: absolute; inset: 0; background: inherit; opacity: 0.5; z-index: -1; }\n"
    );
    f.background = BackgroundConfig { background_type: Some("video".into()), value: Some("x".into()), opacity: Some(Opacity { text: "1".into(), below_one: false }) };
    assert_eq!(f.to_background_css(), "");
}

fn named(name: &str, desc: &str) -> Flavor {
    let mut f = Flavor::default();
    f.name = name.into();
    f.description = Some(desc.into());
    f
}

#[test]
fn collection_from_one_directory_is_sorted_by_name() {
    let c = FlavorCollection::from_loaded(
        vec![named("zen", "1"), named("aurora", "2"), named("mono", "3"), named("aurora", "4")],
        "/lib/flavors".into(),
    );
    assert_eq!(c.names(), vec!["aurora", "aurora", "mono", "zen"]);
    let descs: Vec<&str> = c.flavors.iter().map(|f| f.description.as_deref().unwrap()).collect();
    assert_eq!(descs, vec!["2", "4", "3", "1"]);
    assert_eq!(c.base_dir, "/lib/flavors");
    assert_eq!(c.find("aurora").unwrap().description.as_deref(), Some("2"));
    assert!(c.find("missing").is_none());
}

#[test]
fn earlier_directory_shadows_later_ones() {
    let library = FlavorCollection::from_loaded(vec![named("mono", "library"), named("zen", "library")], "/lib".into());
    let extras = FlavorCollection::from_loaded(vec![named("aurora", "extra"), named("mono", "extra")], "/cfg".into());
    let merged = FlavorCollection::merge(vec![library, extras]);
    assert_eq!(merged.names(), vec!["aurora", "mono", "zen"]);
    assert_eq!(merged.find("mono").unwrap().description.as_deref(), Some("library"));
    assert_eq!(merged.find("aurora").unwrap().description.as_deref(), Some("extra"));
    assert_eq!(merged.base_dir, "/lib");
    let none = FlavorCollection::merge(vec![]);
    assert!(none.flavors.is_empty());
    assert_eq!(none.base_dir, "");
}
