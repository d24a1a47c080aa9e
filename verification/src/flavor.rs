//! Flavors: the design tokens of a deck (colors, type, spacing, shape,
//! shadow, motion, code, curation) and the CSS custom properties they
//! become. Numeric tokens that are floating point (background opacity,
//! decoration intensity, logo opacity) reach the library as their decimal
//! renderings; the arithmetic on them stays with the caller.
use vstd::prelude::*;
use crate::text;

verus! {

broadcast use vstd::string::group_string_axioms;

/// Color scheme of a flavor; every color is a CSS value.
#[derive(Debug, Clone)]
pub struct ColorScheme {
    pub primary: Option<String>,
    pub secondary: Option<String>,
    pub background: Option<String>,
    pub text: Option<String>,
    pub accent: Option<String>,
    pub code_background: Option<String>,
    pub code_text: Option<String>,
    pub surface: Option<String>,
    pub surface2: Option<String>,
    pub border: Option<String>,
    pub border_bright: Option<String>,
    pub text_dim: Option<String>,
    pub accent_dim: Option<String>,
    pub muted: Option<String>,
}

impl Default for ColorScheme {
    fn default() -> (r: Self)
        ensures
            r.primary is None,
            r.secondary is None,
            r.background is None,
            r.text is None,
            r.accent is None,
            r.code_background is None,
            r.code_text is None,
            r.surface is None,
            r.surface2 is None,
            r.border is None,
            r.border_bright is None,
            r.text_dim is None,
            r.accent_dim is None,
            r.muted is None,
    {
        ColorScheme { primary: None, secondary: None, background: None, text: None, accent: None, code_background: None, code_text: None, surface: None, surface2: None, border: None, border_bright: None, text_dim: None, accent_dim: None, muted: None }
    }
}

/// Typography of a flavor.
#[derive(Debug, Clone)]
pub struct Typography {
    pub heading_font: Option<String>,
    pub body_font: Option<String>,
    pub code_font: Option<String>,
    pub base_size: Option<String>,
    pub type_scale: Option<String>,
    pub heading_weight: Option<String>,
    pub body_weight: Option<String>,
    pub heading_tracking: Option<String>,
    pub body_tracking: Option<String>,
    pub heading_leading: Option<String>,
    pub body_leading: Option<String>,
    pub heading_transform: Option<String>,
    pub eyebrow_transform: Option<String>,
    pub heading_wrap: Option<String>,
    pub body_wrap: Option<String>,
    pub font_features: Option<String>,
    pub optical_sizing: Option<String>,
}

impl Default for Typography {
    fn default() -> (r: Self)
        ensures
            r.heading_font is None,
            r.body_font is None,
            r.code_font is None,
            r.base_size is None,
            r.type_scale is None,
            r.heading_weight is None,
            r.body_weight is None,
            r.heading_tracking is None,
            r.body_tracking is None,
            r.heading_leading is None,
            r.body_leading is None,
            r.heading_transform is None,
            r.eyebrow_transform is None,
            r.heading_wrap is None,
            r.body_wrap is None,
            r.font_features is None,
            r.optical_sizing is None,
    {
        Typography { heading_font: None, body_font: None, code_font: None, base_size: None, type_scale: None, heading_weight: None, body_weight: None, heading_tracking: None, body_tracking: None, heading_leading: None, body_leading: None, heading_transform: None, eyebrow_transform: None, heading_wrap: None, body_wrap: None, font_features: None, optical_sizing: None }
    }
}

/// Spacing tokens of a flavor.
#[derive(Debug, Clone)]
pub struct Spacing {
    pub slide_padding_y: Option<String>,
    pub slide_padding_x: Option<String>,
    pub content_max_width: Option<String>,
    pub density: Option<String>,
    pub stack_gap: Option<String>,
}

impl Default for Spacing {
    fn default() -> (r: Self)
        ensures
            r.slide_padding_y is None,
            r.slide_padding_x is None,
            r.content_max_width is None,
            r.density is None,
            r.stack_gap is None,
    {
        Spacing { slide_padding_y: None, slide_padding_x: None, content_max_width: None, density: None, stack_gap: None }
    }
}

/// Shape tokens of a flavor.
#[derive(Debug, Clone)]
pub struct Shape {
    pub radius: Option<String>,
    pub radius_sm: Option<String>,
    pub radius_lg: Option<String>,
    pub border_width: Option<String>,
    pub border_style: Option<String>,
}

impl Default for Shape {
    fn default() -> (r: Self)
        ensures
            r.radius is None,
            r.radius_sm is None,
            r.radius_lg is None,
            r.border_width is None,
            r.border_style is None,
    {
        Shape { radius: None, radius_sm: None, radius_lg: None, border_width: None, border_style: None }
    }
}

/// Shadow tokens of a flavor.
#[derive(Debug, Clone)]
pub struct Shadow {
    pub sm: Option<String>,
    pub md: Option<String>,
    pub lg: Option<String>,
}

impl Default for Shadow {
    fn default() -> (r: Self)
        ensures
            r.sm is None,
            r.md is None,
            r.lg is None,
    {
        Shadow { sm: None, md: None, lg: None }
    }
}

/// Motion tokens of a flavor.
#[derive(Debug, Clone)]
pub struct Motion {
    pub transition: Option<String>,
    pub easing: Option<String>,
    pub duration: Option<String>,
    pub duration_fast: Option<String>,
    pub duration_slow: Option<String>,
    pub ease_out_quart: Option<String>,
    pub ease_out_expo: Option<String>,
}

impl Default for Motion {
    fn default() -> (r: Self)
        ensures
            r.transition is None,
            r.easing is None,
            r.duration is None,
            r.duration_fast is None,
            r.duration_slow is None,
            r.ease_out_quart is None,
            r.ease_out_expo is None,
    {
        Motion { transition: None, easing: None, duration: None, duration_fast: None, duration_slow: None, ease_out_quart: None, ease_out_expo: None }
    }
}

/// Code block styling.
#[derive(Debug, Clone)]
pub struct Code {
    pub syntax_theme: Option<String>,
    pub frame_style: Option<String>,
    pub line_numbers: Option<bool>,
}

impl Default for Code {
    fn default() -> (r: Self)
        ensures
            r.syntax_theme is None,
            r.frame_style is None,
            r.line_numbers is None,
    {
        Code { syntax_theme: None, frame_style: None, line_numbers: None }
    }
}

/// Audience formality a flavor is comfortable with.
#[derive(Debug, Clone, Copy, PartialEq, Eq, Structural)]
pub enum Formality {
    Low,
    MediumLow,
    Medium,
    MediumHigh,
    High,
}

/// How much content per slide a flavor holds comfortably.
#[derive(Debug, Clone, Copy, PartialEq, Eq, Structural)]
pub enum Density {
    Low,
    Medium,
    High,
}

/// Light, dark or mixed canvas preference.
#[derive(Debug, Clone, Copy, PartialEq, Eq, Structural)]
pub enum Scheme {
    Light,
    Dark,
    Mixed,
}

/// Curatorial metadata: how a flavor feels and where it fits.
#[derive(Debug, Clone)]
pub struct Curation {
    pub mood: Vec<String>,
    pub tone: Vec<String>,
    pub occasion: Vec<String>,
    pub formality: Option<Formality>,
    pub density: Option<Density>,
    pub scheme: Option<Scheme>,
    pub best_for: Option<String>,
    pub avoid_for: Option<String>,
}

impl Default for Curation {
    fn default() -> (r: Self)
        ensures
            r.mood@.len() == 0,
            r.tone@.len() == 0,
            r.occasion@.len() == 0,
            r.formality is None,
            r.density is None,
            r.scheme is None,
            r.best_for is None,
            r.avoid_for is None,
    {
        Curation {
            mood: Vec::new(),
            tone: Vec::new(),
            occasion: Vec::new(),
            formality: None,
            density: None,
            scheme: None,
            best_for: None,
            avoid_for: None,
        }
    }
}

/// The line `  --sldr-<name>: <value>;` of a set token; nothing for an
/// unset one.
pub open spec fn var_line(name: Seq<char>, value: Option<String>) -> Seq<char> {
    match value {
        Some(v) => "  --sldr-"@ + name + ": "@ + v@ + ";\n"@,
        None => Seq::empty(),
    }
}

/// Write the custom property `--sldr-<name>` when `value` is set.
pub fn write_var(css: &mut String, name: &str, value: &Option<String>)
    ensures
        final(css)@ == old(css)@ + var_line(name@, *value),
{
    match value {
        Some(v) => {
            text::append(css, "  --sldr-");
            text::append(css, name);
            text::append(css, ": ");
            text::append(css, v.as_str());
            text::append(css, ";\n");
            assert(css@ =~= old(css)@ + var_line(name@, *value));
        },
        None => {
            assert(css@ =~= old(css)@ + var_line(name@, *value));
        },
    }
}

/// The custom properties of a color scheme, in order.
pub open spec fn color_vars(c: ColorScheme) -> Seq<char> {
    var_line("primary"@, c.primary) + var_line("secondary"@, c.secondary) + var_line("background"@, c.background) + var_line("text"@, c.text) + var_line("accent"@, c.accent) + var_line("code-background"@, c.code_background) + var_line("code-text"@, c.code_text) + var_line("surface"@, c.surface) + var_line("surface2"@, c.surface2) + var_line("border"@, c.border) + var_line("border-bright"@, c.border_bright) + var_line("text-dim"@, c.text_dim) + var_line("accent-dim"@, c.accent_dim) + var_line("muted"@, c.muted)
}

/// Write the custom properties of a color scheme.
pub fn write_color_vars(css: &mut String, c: &ColorScheme)
    ensures
        final(css)@ == old(css)@ + color_vars(*c),
{
    write_var(css, "primary", &c.primary);
    write_var(css, "secondary", &c.secondary);
    write_var(css, "background", &c.background);
    write_var(css, "text", &c.text);
    write_var(css, "accent", &c.accent);
    write_var(css, "code-background", &c.code_background);
    write_var(css, "code-text", &c.code_text);
    write_var(css, "surface", &c.surface);
    write_var(css, "surface2", &c.surface2);
    write_var(css, "border", &c.border);
    write_var(css, "border-bright", &c.border_bright);
    write_var(css, "text-dim", &c.text_dim);
    write_var(css, "accent-dim", &c.accent_dim);
    write_var(css, "muted", &c.muted);
    assert(css@ =~= old(css)@ + color_vars(*c));
}

/// The custom properties of a typography, in order.
pub open spec fn typography_vars(t: Typography) -> Seq<char> {
    var_line("heading-font"@, t.heading_font) + var_line("body-font"@, t.body_font) + var_line("code-font"@, t.code_font) + var_line("base-size"@, t.base_size) + var_line("type-scale"@, t.type_scale) + var_line("heading-weight"@, t.heading_weight) + var_line("body-weight"@, t.body_weight) + var_line("heading-tracking"@, t.heading_tracking) + var_line("body-tracking"@, t.body_tracking) + var_line("heading-leading"@, t.heading_leading) + var_line("body-leading"@, t.body_leading) + var_line("heading-transform"@, t.heading_transform) + var_line("eyebrow-transform"@, t.eyebrow_transform) + var_line("heading-wrap"@, t.heading_wrap) + var_line("body-wrap"@, t.body_wrap) + var_line("font-features"@, t.font_features) + var_line("optical-sizing"@, t.optical_sizing)
}

/// Write the custom properties of a typography.
#[verifier::rlimit(80)]
pub fn write_typography_vars(css: &mut String, t: &Typography)
    ensures
        final(css)@ == old(css)@ + typography_vars(*t),
{
    write_var(css, "heading-font", &t.heading_font);
    write_var(css, "body-font", &t.body_font);
    write_var(css, "code-font", &t.code_font);
    write_var(css, "base-size", &t.base_size);
    write_var(css, "type-scale", &t.type_scale);
    write_var(css, "heading-weight", &t.heading_weight);
    write_var(css, "body-weight", &t.body_weight);
    write_var(css, "heading-tracking", &t.heading_tracking);
    write_var(css, "body-tracking", &t.body_tracking);
    write_var(css, "heading-leading", &t.heading_leading);
    write_var(css, "body-leading", &t.body_leading);
    write_var(css, "heading-transform", &t.heading_transform);
    write_var(css, "eyebrow-transform", &t.eyebrow_transform);
    write_var(css, "heading-wrap", &t.heading_wrap);
    write_var(css, "body-wrap", &t.body_wrap);
    write_var(css, "font-features", &t.font_features);
    write_var(css, "optical-sizing", &t.optical_sizing);
    assert(css@ =~= old(css)@ + typography_vars(*t));
}

/// The density scale a spacing density selects: `0.85` for `compact`,
/// `1.15` for `spacious`, `1` otherwise; nothing when unset.
pub open spec fn density_line(d: Option<String>) -> Seq<char> {
    match d {
        Some(v) => "  --sldr-density-scale: "@ + (if v@ == "compact"@ {
            "0.85"@
        } else if v@ == "spacious"@ {
            "1.15"@
        } else {
            "1"@
        }) + ";\n"@,
        None => Seq::empty(),
    }
}

fn write_density(css: &mut String, d: &Option<String>)
    ensures
        final(css)@ == old(css)@ + density_line(*d),
{
    match d {
        Some(v) => {
            let vc = text::chars_of(v.as_str());
            let compact = text::chars_of("compact");
            let spacious = text::chars_of("spacious");
            let scale = if text::eq_chars(vc.as_slice(), compact.as_slice()) {
                "0.85"
            } else if text::eq_chars(vc.as_slice(), spacious.as_slice()) {
                "1.15"
            } else {
                "1"
            };
            text::append(css, "  --sldr-density-scale: ");
            text::append(css, scale);
            text::append(css, ";\n");
            assert(css@ =~= old(css)@ + density_line(*d));
        },
        None => {
            assert(css@ =~= old(css)@ + density_line(*d));
        },
    }
}

/// The custom properties of a spacing, in order.
pub open spec fn spacing_vars(s: Spacing) -> Seq<char> {
    var_line("slide-padding-y"@, s.slide_padding_y) + var_line("slide-padding-x"@, s.slide_padding_x) + var_line("content-max-width"@, s.content_max_width) + var_line("stack-gap"@, s.stack_gap) + density_line(s.density)
}

/// Write the custom properties of a spacing.
pub fn write_spacing_vars(css: &mut String, s: &Spacing)
    ensures
        final(css)@ == old(css)@ + spacing_vars(*s),
{
    write_var(css, "slide-padding-y", &s.slide_padding_y);
    write_var(css, "slide-padding-x", &s.slide_padding_x);
    write_var(css, "content-max-width", &s.content_max_width);
    write_var(css, "stack-gap", &s.stack_gap);
    write_density(css, &s.density);
    assert(css@ =~= old(css)@ + spacing_vars(*s));
}

/// The custom properties of a shape, in order.
pub open spec fn shape_vars(s: Shape) -> Seq<char> {
    var_line("radius"@, s.radius) + var_line("radius-sm"@, s.radius_sm) + var_line("radius-lg"@, s.radius_lg) + var_line("border-width"@, s.border_width) + var_line("border-style"@, s.border_style)
}

/// Write the custom properties of a shape.
pub fn write_shape_vars(css: &mut String, s: &Shape)
    ensures
        final(css)@ == old(css)@ + shape_vars(*s),
{
    write_var(css, "radius", &s.radius);
    write_var(css, "radius-sm", &s.radius_sm);
    write_var(css, "radius-lg", &s.radius_lg);
    write_var(css, "border-width", &s.border_width);
    write_var(css, "border-style", &s.border_style);
    assert(css@ =~= old(css)@ + shape_vars(*s));
}

/// The custom properties of a shadow, in order.
pub open spec fn shadow_vars(s: Shadow) -> Seq<char> {
    var_line("shadow-sm"@, s.sm) + var_line("shadow-md"@, s.md) + var_line("shadow-lg"@, s.lg)
}

/// Write the custom properties of a shadow.
pub fn write_shadow_vars(css: &mut String, s: &Shadow)
    ensures
        final(css)@ == old(css)@ + shadow_vars(*s),
{
    write_var(css, "shadow-sm", &s.sm);
    write_var(css, "shadow-md", &s.md);
    write_var(css, "shadow-lg", &s.lg);
    assert(css@ =~= old(css)@ + shadow_vars(*s));
}

/// The custom properties of a motion (the duration is also written as `duration-base`), in order.
pub open spec fn motion_vars(m: Motion) -> Seq<char> {
    var_line("transition"@, m.transition) + var_line("easing"@, m.easing) + var_line("duration"@, m.duration) + var_line("duration-base"@, m.duration) + var_line("duration-fast"@, m.duration_fast) + var_line("duration-slow"@, m.duration_slow) + var_line("ease-out-quart"@, m.ease_out_quart) + var_line("ease-out-expo"@, m.ease_out_expo)
}

/// Write the custom properties of a motion (the duration is also written as `duration-base`).
pub fn write_motion_vars(css: &mut String, m: &Motion)
    ensures
        final(css)@ == old(css)@ + motion_vars(*m),
{
    write_var(css, "transition", &m.transition);
    write_var(css, "easing", &m.easing);
    write_var(css, "duration", &m.duration);
    write_var(css, "duration-base", &m.duration);
    write_var(css, "duration-fast", &m.duration_fast);
    write_var(css, "duration-slow", &m.duration_slow);
    write_var(css, "ease-out-quart", &m.ease_out_quart);
    write_var(css, "ease-out-expo", &m.ease_out_expo);
    assert(css@ =~= old(css)@ + motion_vars(*m));
}

/// A floating-point opacity as the library sees it: its decimal rendering
/// and whether it is below one, both taken where the number itself lives.
#[derive(Debug, Clone)]
pub struct Opacity {
    pub text: String,
    pub below_one: bool,
}

/// The background a flavor sets on every slide: a kind (`color`,
/// `gradient`, `image` or `svg`), its CSS value, and an opacity.
#[derive(Debug, Clone)]
pub struct BackgroundConfig {
    pub background_type: Option<String>,
    pub value: Option<String>,
    pub opacity: Option<Opacity>,
}

impl Default for BackgroundConfig {
    fn default() -> (r: Self)
        ensures
            r.background_type is None,
            r.value is None,
            r.opacity is None,
    {
        BackgroundConfig { background_type: None, value: None, opacity: None }
    }
}

/// Decorative ornaments: a named accent, the atmosphere intensity (as the
/// decimal rendering of its number) and an animated effect.
#[derive(Debug, Clone)]
pub struct Decoration {
    pub accent: Option<String>,
    pub intensity: Option<String>,
    pub effect: Option<String>,
}

impl Default for Decoration {
    fn default() -> (r: Self)
        ensures
            r.accent is None,
            r.intensity is None,
            r.effect is None,
    {
        Decoration { accent: None, intensity: None, effect: None }
    }
}

/// A logo slot: the asset file, a position preset or explicit offsets, a
/// width, an opacity (the decimal rendering of its number) and the layouts
/// it appears on (`all` for every one).
#[derive(Debug, Clone)]
pub struct LogoPlacement {
    pub file: String,
    pub position: String,
    pub x: Option<String>,
    pub y: Option<String>,
    pub width: String,
    pub opacity: String,
    pub layouts: Vec<String>,
}

/// A flavor: named design tokens.
#[derive(Debug, Clone)]
pub struct Flavor {
    pub name: String,
    pub display_name: Option<String>,
    pub description: Option<String>,
    pub curation: Curation,
    pub colors: ColorScheme,
    pub dark_colors: Option<ColorScheme>,
    pub typography: Typography,
    pub background: BackgroundConfig,
    pub spacing: Spacing,
    pub shape: Shape,
    pub shadow: Shadow,
    pub motion: Motion,
    pub decoration: Decoration,
    pub code: Code,
    pub font_imports: Vec<String>,
    pub logos: Vec<LogoPlacement>,
    pub footer: Option<String>,
    pub chrome_layouts: Vec<String>,
    pub assets_dir: Option<String>,
    pub custom_css: Option<String>,
}

impl Default for Flavor {
    fn default() -> (f: Self)
        ensures
            f.name@ == "default"@,
            f.display_name matches Some(d) && d@ == "Default"@,
            f.description matches Some(d) && d@ == "Default sldr flavor"@,
            f.dark_colors is None,
            f.background.background_type is None,
            f.background.value is None,
            f.background.opacity is None,
            f.decoration.intensity is None,
            f.decoration.accent is None,
            f.logos@.len() == 0,
            f.custom_css is None,
            f.footer is None,
    {
        Flavor {
            name: "default".to_string(),
            display_name: Some("Default".to_string()),
            description: Some("Default sldr flavor".to_string()),
            curation: Curation::default(),
            colors: ColorScheme::default(),
            dark_colors: None,
            typography: Typography::default(),
            background: BackgroundConfig::default(),
            spacing: Spacing::default(),
            shape: Shape::default(),
            shadow: Shadow::default(),
            motion: Motion::default(),
            decoration: Decoration::default(),
            code: Code::default(),
            font_imports: Vec::new(),
            logos: Vec::new(),
            footer: None,
            chrome_layouts: Vec::new(),
            assets_dir: None,
            custom_css: None,
        }
    }
}


/// The position preset a logo falls back to.
pub fn default_logo_position() -> (s: String)
    ensures
        s@ == "top-right"@,
{
    "top-right".to_string()
}

/// The width a logo gets when none is given.
pub fn default_logo_width() -> (s: String)
    ensures
        s@ == "100px"@,
{
    "100px".to_string()
}

/// The layouts a logo appears on when none are given: all of them.
pub fn default_logo_layouts() -> (v: Vec<String>)
    ensures
        v@.len() == 1,
        v@[0]@ == "all"@,
{
    let mut v: Vec<String> = Vec::new();
    v.push("all".to_string());
    v
}

/// The offsets and transform of a position preset; an unknown preset falls
/// back to `top-right`.
pub open spec fn preset_css(position: Seq<char>) -> (Seq<char>, Seq<char>) {
    if position == "top-left"@ {
        ("top:3%;left:3%;"@, ""@)
    } else if position == "top-center"@ {
        ("top:3%;left:50%;"@, "transform:translateX(-50%);"@)
    } else if position == "top-right"@ {
        ("top:3%;right:3%;"@, ""@)
    } else if position == "bottom-left"@ {
        ("bottom:3%;left:3%;"@, ""@)
    } else if position == "bottom-center"@ {
        ("bottom:3%;left:50%;"@, "transform:translateX(-50%);"@)
    } else if position == "bottom-right"@ {
        ("bottom:3%;right:3%;"@, ""@)
    } else {
        ("top:3%;right:3%;"@, ""@)
    }
}

/// An offset, or `auto` when it is not given.
pub open spec fn or_auto(o: Option<String>) -> Seq<char> {
    match o {
        Some(v) => v@,
        None => "auto"@,
    }
}

/// The inline CSS that places a logo: explicit offsets (either one given)
/// override the preset.
pub open spec fn css_position_spec(l: LogoPlacement) -> Seq<char> {
    if l.x is Some || l.y is Some {
        "position:absolute;left:"@ + or_auto(l.x) + ";top:"@ + or_auto(l.y) + ";width:"@ + l.width@
            + ";opacity:"@ + l.opacity@ + ";z-index:10;pointer-events:none;"@
    } else {
        "position:absolute;"@ + preset_css(l.position@).0 + preset_css(l.position@).1 + "width:"@ + l.width@
            + ";opacity:"@ + l.opacity@ + ";z-index:10;pointer-events:none;"@
    }
}

fn is_text(s: &str, lit: &str) -> (b: bool)
    ensures
        b == (s@ == lit@),
{
    let a = text::chars_of(s);
    let c = text::chars_of(lit);
    text::eq_chars(a.as_slice(), c.as_slice())
}

fn preset_of(position: &str) -> (r: (&'static str, &'static str))
    ensures
        r.0@ == preset_css(position@).0,
        r.1@ == preset_css(position@).1,
{
    if is_text(position, "top-left") {
        ("top:3%;left:3%;", "")
    } else if is_text(position, "top-center") {
        ("top:3%;left:50%;", "transform:translateX(-50%);")
    } else if is_text(position, "top-right") {
        ("top:3%;right:3%;", "")
    } else if is_text(position, "bottom-left") {
        ("bottom:3%;left:3%;", "")
    } else if is_text(position, "bottom-center") {
        ("bottom:3%;left:50%;", "transform:translateX(-50%);")
    } else if is_text(position, "bottom-right") {
        ("bottom:3%;right:3%;", "")
    } else {
        ("top:3%;right:3%;", "")
    }
}

impl LogoPlacement {
    /// Inline CSS that positions this logo absolutely within a slide.
    pub fn to_css_position(&self) -> (r: String)
        ensures
            r@ == css_position_spec(*self),
    {
        let mut css = String::new();
        if self.x.is_some() || self.y.is_some() {
            text::append(&mut css, "position:absolute;left:");
            match &self.x {
                Some(x) => text::append(&mut css, x.as_str()),
                None => text::append(&mut css, "auto"),
            }
            text::append(&mut css, ";top:");
            match &self.y {
                Some(y) => text::append(&mut css, y.as_str()),
                None => text::append(&mut css, "auto"),
            }
            text::append(&mut css, ";width:");
        } else {
            let (pos, transform) = preset_of(self.position.as_str());
            text::append(&mut css, "position:absolute;");
            text::append(&mut css, pos);
            text::append(&mut css, transform);
            text::append(&mut css, "width:");
        }
        text::append(&mut css, self.width.as_str());
        text::append(&mut css, ";opacity:");
        text::append(&mut css, self.opacity.as_str());
        text::append(&mut css, ";z-index:10;pointer-events:none;");
        css
    }

    /// Whether this logo appears on `layout`: it is listed, or `all` is.
    pub fn applies_to_layout(&self, layout: &str) -> (b: bool)
        ensures
            b == exists|i: int|
                0 <= i < self.layouts@.len() && (#[trigger] self.layouts@[i]@ == "all"@
                    || self.layouts@[i]@ == layout@),
    {
        let mut i: usize = 0;
        while i < self.layouts.len()
            invariant
                i <= self.layouts@.len(),
                forall|j: int|
                    0 <= j < i ==> !(#[trigger] self.layouts@[j]@ == "all"@ || self.layouts@[j]@ == layout@),
            decreases self.layouts@.len() - i,
        {
            let t = self.layouts[i].as_str();
            if is_text(t, "all") || is_text(t, layout) {
                return true;
            }
            i += 1;
        }
        false
    }
}

/// The decoration properties: the atmosphere intensity, then the accent.
pub open spec fn decoration_vars(d: Decoration) -> Seq<char> {
    let atmosphere = match d.intensity {
        Some(i) => "  --sldr-atmosphere: "@ + i@ + ";\n"@,
        None => Seq::empty(),
    };
    let accent = match d.accent {
        Some(a) => "  --sldr-decoration-accent: "@ + a@ + ";\n"@,
        None => Seq::empty(),
    };
    atmosphere + accent
}

/// Write the decoration properties.
pub fn write_decoration_vars(css: &mut String, d: &Decoration)
    ensures
        final(css)@ == old(css)@ + decoration_vars(*d),
{
    if let Some(i) = &d.intensity {
        text::append(css, "  --sldr-atmosphere: ");
        text::append(css, i.as_str());
        text::append(css, ";\n");
    }
    if let Some(a) = &d.accent {
        text::append(css, "  --sldr-decoration-accent: ");
        text::append(css, a.as_str());
        text::append(css, ";\n");
    }
    assert(css@ =~= old(css)@ + decoration_vars(*d));
}

/// The reserved headline width, when there is one.
pub open spec fn head_width_line(w: Option<Seq<char>>) -> Seq<char> {
    match w {
        Some(w) => "  --sldr-head-width: "@ + w + "%;\n"@,
        None => Seq::empty(),
    }
}

/// The dark-mode color overrides, when the flavor has them.
pub open spec fn dark_block(c: Option<ColorScheme>) -> Seq<char> {
    match c {
        Some(c) => "html.dark {\n"@ + color_vars(c) + "}\n"@,
        None => Seq::empty(),
    }
}

/// Every custom property of a flavor in a `:root` block, then the dark-mode
/// colors in an `html.dark` block.
pub open spec fn css_variables_spec(f: Flavor, head_width: Option<Seq<char>>) -> Seq<char> {
    ":root {\n"@ + color_vars(f.colors) + typography_vars(f.typography) + spacing_vars(f.spacing) + shape_vars(
        f.shape,
    ) + shadow_vars(f.shadow) + motion_vars(f.motion) + decoration_vars(f.decoration) + head_width_line(head_width)
        + "}\n"@ + dark_block(f.dark_colors)
}

/// Where a background image is served from: absolute paths and URLs as
/// they are, anything else from the site root.
pub open spec fn web_path(v: Seq<char>) -> Seq<char> {
    if text::starts_with(v, "/"@) || text::starts_with(v, "http"@) {
        v
    } else {
        "/"@ + v
    }
}

/// The rule a background kind and value give `.sldr-slide`; nothing for an
/// unknown kind.
pub open spec fn background_rule(t: Seq<char>, v: Seq<char>) -> Seq<char> {
    if t == "color"@ {
        ".sldr-slide { background-color: "@ + v + "; }\n"@
    } else if t == "gradient"@ {
        ".sldr-slide { background: "@ + v + "; }\n"@
    } else if t == "image"@ || t == "svg"@ {
        ".sldr-slide { background-image: url('"@ + web_path(v)
            + "'); background-size: cover; background-position: center; }\n"@
    } else {
        Seq::empty()
    }
}

/// The background CSS of a flavor: the rule of its kind and value (both
/// set), then a dimming layer when its opacity is below one.
pub open spec fn background_css_spec(b: BackgroundConfig) -> Seq<char> {
    let rule = match (b.background_type, b.value) {
        (Some(t), Some(v)) => background_rule(t@, v@),
        _ => Seq::empty(),
    };
    let dim = match b.opacity {
        Some(o) => if o.below_one {
            ".sldr-slide::before { content: ''; position: absolute; inset: 0; background: inherit; opacity: "@
                + o.text@ + "; z-index: -1; }\n"@
        } else {
            Seq::empty()
        },
        None => Seq::empty(),
    };
    rule + dim
}

impl Flavor {
    /// The CSS custom properties of this flavor. `head_width` is the
    /// `--sldr-head-width` percentage that the caller derived from the
    /// logos' percent coordinates (a floating-point computation), if any.
    #[verifier::rlimit(40)]
    pub fn to_css_variables(&self, head_width: Option<&str>) -> (r: String)
        ensures
            r@ == css_variables_spec(*self, match head_width {
                Some(w) => Some(w@),
                None => None,
            }),
    {
        let ghost hw = match head_width {
            Some(w) => Some(w@),
            None => None,
        };
        let mut css = String::new();
        text::append(&mut css, ":root {\n");
        write_color_vars(&mut css, &self.colors);
        write_typography_vars(&mut css, &self.typography);
        write_spacing_vars(&mut css, &self.spacing);
        write_shape_vars(&mut css, &self.shape);
        write_shadow_vars(&mut css, &self.shadow);
        write_motion_vars(&mut css, &self.motion);
        write_decoration_vars(&mut css, &self.decoration);
        let ghost body = css@;
        if let Some(w) = head_width {
            text::append(&mut css, "  --sldr-head-width: ");
            text::append(&mut css, w);
            text::append(&mut css, "%;\n");
            assert(css@ =~= body + head_width_line(hw));
        } else {
            assert(css@ =~= body + head_width_line(hw));
        }
        text::append(&mut css, "}\n");
        let ghost root = css@;
        if let Some(dark) = &self.dark_colors {
            text::append(&mut css, "html.dark {\n");
            write_color_vars(&mut css, dark);
            text::append(&mut css, "}\n");
            assert(css@ =~= root + dark_block(self.dark_colors));
        } else {
            assert(css@ =~= root + dark_block(self.dark_colors));
        }
        css
    }

    /// The background CSS of this flavor for the HTML renderer.
    pub fn to_background_css(&self) -> (r: String)
        ensures
            r@ == background_css_spec(self.background),
    {
        let mut css = String::new();
        let b = &self.background;
        if let (Some(t), Some(v)) = (&b.background_type, &b.value) {
            let ts = t.as_str();
            if is_text(ts, "color") {
                text::append(&mut css, ".sldr-slide { background-color: ");
                text::append(&mut css, v.as_str());
                text::append(&mut css, "; }\n");
            } else if is_text(ts, "gradient") {
                text::append(&mut css, ".sldr-slide { background: ");
                text::append(&mut css, v.as_str());
                text::append(&mut css, "; }\n");
            } else if is_text(ts, "image") || is_text(ts, "svg") {
                let vc = text::chars_of(v.as_str());
                let slash = text::chars_of("/");
                let http = text::chars_of("http");
                text::append(&mut css, ".sldr-slide { background-image: url('");
                if !(text::starts_with_chars(vc.as_slice(), slash.as_slice()) || text::starts_with_chars(
                    vc.as_slice(),
                    http.as_slice(),
                )) {
                    text::append(&mut css, "/");
                }
                text::append(&mut css, v.as_str());
                text::append(&mut css, "'); background-size: cover; background-position: center; }\n");
            }
        }
        let ghost g = css@;
        if let Some(o) = &b.opacity {
            if o.below_one {
                text::append(
                    &mut css,
                    ".sldr-slide::before { content: ''; position: absolute; inset: 0; background: inherit; opacity: ",
                );
                text::append(&mut css, o.text.as_str());
                text::append(&mut css, "; z-index: -1; }\n");
            }
        }
        assert(css@ =~= background_css_spec(self.background));
        css
    }
}


/// `x` placed into `sorted` before the first flavor whose name comes after
/// its own (after those with an equal name).
pub open spec fn insert_by_name(sorted: Seq<Flavor>, x: Flavor) -> Seq<Flavor>
    decreases sorted.len(),
{
    if sorted.len() == 0 {
        seq![x]
    } else if text::seq_lt(x.name@, sorted[0].name@) {
        seq![x] + sorted
    } else {
        seq![sorted[0]] + insert_by_name(sorted.drop_first(), x)
    }
}

/// The flavors in ascending order of name, flavors of equal name in their
/// given order (a stable sort).
pub open spec fn sort_by_name(s: Seq<Flavor>) -> Seq<Flavor>
    decreases s.len(),
{
    if s.len() == 0 {
        Seq::empty()
    } else {
        insert_by_name(sort_by_name(s.drop_last()), s.last())
    }
}

/// Whether a flavor among `fs` has the name `n`.
pub open spec fn has_flavor(fs: Seq<Flavor>, n: Seq<char>) -> bool {
    exists|i: int| 0 <= i < fs.len() && #[trigger] fs[i].name@ == n
}

/// `acc` with the flavors of `fs` added in order, each unless a flavor of
/// its name is already there.
pub open spec fn merge_into(acc: Seq<Flavor>, fs: Seq<Flavor>) -> Seq<Flavor>
    decreases fs.len(),
{
    if fs.len() == 0 {
        acc
    } else {
        let a = merge_into(acc, fs.drop_last());
        if has_flavor(a, fs.last().name@) {
            a
        } else {
            a.push(fs.last())
        }
    }
}

/// The flavors of several collections, highest priority first, each name
/// kept from the first collection (and the first flavor) that has it.
pub open spec fn merge_all(cs: Seq<Seq<Flavor>>) -> Seq<Flavor>
    decreases cs.len(),
{
    if cs.len() == 0 {
        Seq::empty()
    } else {
        merge_into(merge_all(cs.drop_last()), cs.last())
    }
}

/// The flavors found in one or more directories.
#[derive(Debug)]
pub struct FlavorCollection {
    pub flavors: Vec<Flavor>,
    pub base_dir: String,
}

pub open spec fn collection_flavors(cs: Seq<FlavorCollection>) -> Seq<Seq<Flavor>> {
    cs.map_values(|c: FlavorCollection| c.flavors@)
}

proof fn lemma_insert_by_name_at(sorted: Seq<Flavor>, x: Flavor, p: int)
    requires
        0 <= p <= sorted.len(),
        forall|k: int| 0 <= k < p ==> !text::seq_lt(x.name@, #[trigger] sorted[k].name@),
        p < sorted.len() ==> text::seq_lt(x.name@, sorted[p].name@),
    ensures
        insert_by_name(sorted, x) == sorted.insert(p, x),
    decreases sorted.len(),
{
    if sorted.len() == 0 {
        assert(seq![x] =~= sorted.insert(p, x));
    } else if p == 0 {
        assert(seq![x] + sorted =~= sorted.insert(0, x));
    } else {
        let rest = sorted.drop_first();
        assert forall|k: int| 0 <= k < p - 1 implies !text::seq_lt(x.name@, #[trigger] rest[k].name@) by {
            assert(rest[k] == sorted[k + 1]);
        }
        lemma_insert_by_name_at(rest, x, p - 1);
        assert(seq![sorted[0]] + rest.insert(p - 1, x) =~= sorted.insert(p, x));
    }
}

fn name_before(a: &Flavor, b: &Flavor) -> (r: bool)
    ensures
        r == text::seq_lt(a.name@, b.name@),
{
    let x = text::chars_of(a.name.as_str());
    let y = text::chars_of(b.name.as_str());
    text::chars_lt(x.as_slice(), y.as_slice())
}

fn insert_sorted(out: &mut Vec<Flavor>, x: Flavor)
    ensures
        final(out)@ == insert_by_name(old(out)@, x),
{
    let mut p: usize = 0;
    while p < out.len()
        invariant
            p <= out@.len(),
            out@ == old(out)@,
            forall|k: int| 0 <= k < p ==> !text::seq_lt(x.name@, #[trigger] out@[k].name@),
        ensures
            p <= out@.len(),
            out@ == old(out)@,
            forall|k: int| 0 <= k < p ==> !text::seq_lt(x.name@, #[trigger] out@[k].name@),
            p < out@.len() ==> text::seq_lt(x.name@, out@[p as int].name@),
        decreases out@.len() - p,
    {
        if name_before(&x, &out[p]) {
            break;
        }
        p += 1;
    }
    proof {
        lemma_insert_by_name_at(out@, x, p as int);
    }
    out.insert(p, x);
}

fn sort_flavors(v: Vec<Flavor>) -> (r: Vec<Flavor>)
    ensures
        r@ == sort_by_name(v@),
{
    let mut v = v;
    let ghost orig = v@;
    let mut out: Vec<Flavor> = Vec::new();
    let mut i: usize = 0;
    assert(orig.take(0) =~= Seq::<Flavor>::empty());
    let n0 = v.len();
    assert(orig.len() == n0);
    while v.len() > 0
        invariant
            orig.len() <= usize::MAX,
            i + v@.len() == orig.len(),
            v@ == orig.skip(i as int),
            out@ == sort_by_name(orig.take(i as int)),
        decreases v@.len(),
    {
        let x = v.remove(0);
        proof {
            assert(x == orig[i as int]);
            assert(orig.take(i + 1).drop_last() =~= orig.take(i as int));
            assert(orig.take(i + 1).last() == x);
        }
        insert_sorted(&mut out, x);
        i += 1;
        assert(v@ =~= orig.skip(i as int));
    }
    assert(orig.take(i as int) =~= orig);
    out
}

fn flavor_named(fs: &Vec<Flavor>, name: &str) -> (r: Option<usize>)
    ensures
        match r {
            Some(k) => k < fs@.len() && fs@[k as int].name@ == name@ && forall|m: int| 0 <= m < k ==> fs@[m].name@ != name@,
            None => !has_flavor(fs@, name@),
        },
{
    let mut k: usize = 0;
    while k < fs.len()
        invariant
            k <= fs@.len(),
            forall|m: int| 0 <= m < k ==> fs@[m].name@ != name@,
        decreases fs@.len() - k,
    {
        let a = text::chars_of(fs[k].name.as_str());
        let b = text::chars_of(name);
        if text::eq_chars(a.as_slice(), b.as_slice()) {
            return Some(k);
        }
        k += 1;
    }
    None
}

impl FlavorCollection {
    /// The flavors loaded from one directory, in ascending order of name
    /// (see [`sort_by_name`]).
    pub fn from_loaded(flavors: Vec<Flavor>, base_dir: String) -> (c: FlavorCollection)
        ensures
            c.flavors@ == sort_by_name(flavors@),
            c.base_dir == base_dir,
    {
        FlavorCollection { flavors: sort_flavors(flavors), base_dir }
    }

    /// The collections of several directories, highest priority first,
    /// merged: a name in an earlier directory shadows the same name in
    /// later ones (see [`merge_all`]); the result in ascending order of
    /// name, based at the first directory (none without any).
    pub fn merge(collections: Vec<FlavorCollection>) -> (c: FlavorCollection)
        ensures
            c.flavors@ == sort_by_name(merge_all(collection_flavors(collections@))),
            c.base_dir@ == if collections@.len() > 0 {
                collections@[0].base_dir@
            } else {
                Seq::<char>::empty()
            },
    {
        let mut cs = collections;
        let ghost orig = collection_flavors(cs@);
        let base_dir = if cs.len() > 0 {
            cs[0].base_dir.clone()
        } else {
            String::new()
        };
        let mut merged: Vec<Flavor> = Vec::new();
        let mut i: usize = 0;
        assert(orig.take(0) =~= Seq::<Seq<Flavor>>::empty());
        while cs.len() > 0
            invariant
                orig.len() <= usize::MAX,
                i + cs@.len() == orig.len(),
                collection_flavors(cs@) == orig.skip(i as int),
                merged@ == merge_all(orig.take(i as int)),
            decreases cs@.len(),
        {
            let ghost before = cs@;
            let c = cs.remove(0);
            let ghost fs = c.flavors@;
            assert(fs == orig[i as int]) by {
                assert(collection_flavors(before)[0] == before[0].flavors@);
                assert(orig.skip(i as int)[0] == orig[i as int]);
            }
            assert forall|k: int| 0 <= k < cs@.len() implies #[trigger] collection_flavors(cs@)[k] == orig.skip(i + 1)[k] by {
                assert(cs@[k] == before[k + 1]);
                assert(collection_flavors(before)[k + 1] == before[k + 1].flavors@);
                assert(orig.skip(i as int)[k + 1] == orig[i + 1 + k]);
            }
            let ghost start = merged@;
            let mut flavors = c.flavors;
            let mut j: usize = 0;
            assert(fs.take(0) =~= Seq::<Flavor>::empty());
            let m0 = flavors.len();
            assert(fs.len() == m0);
            while flavors.len() > 0
                invariant
                    fs.len() <= usize::MAX,
                    j + flavors@.len() == fs.len(),
                    flavors@ == fs.skip(j as int),
                    merged@ == merge_into(start, fs.take(j as int)),
                decreases flavors@.len(),
            {
                let f = flavors.remove(0);
                proof {
                    assert(f == fs[j as int]);
                    assert(fs.take(j + 1).drop_last() =~= fs.take(j as int));
                    assert(fs.take(j + 1).last() == f);
                }
                match flavor_named(&merged, f.name.as_str()) {
                    Some(k) => {},
                    None => {
                        merged.push(f);
                    },
                }
                j += 1;
                assert(flavors@ =~= fs.skip(j as int));
            }
            assert(fs.take(j as int) =~= fs);
            proof {
                assert(orig.take(i + 1).drop_last() =~= orig.take(i as int));
                assert(orig.take(i + 1).last() == fs);
            }
            i += 1;
            assert(collection_flavors(cs@) =~= orig.skip(i as int));
        }
        assert(orig.take(i as int) =~= orig);
        FlavorCollection { flavors: sort_flavors(merged), base_dir }
    }

    /// The names of the flavors, in order.
    pub fn names(&self) -> (r: Vec<String>)
        ensures
            text::string_views(r@) == self.flavors@.map_values(|f: Flavor| f.name@),
    {
        let mut out: Vec<String> = Vec::new();
        let mut i: usize = 0;
        while i < self.flavors.len()
            invariant
                i <= self.flavors@.len(),
                text::string_views(out@) == self.flavors@.map_values(|f: Flavor| f.name@).take(i as int),
            decreases self.flavors@.len() - i,
        {
            let ghost before = text::string_views(out@);
            let n = self.flavors[i].name.clone();
            assert(n@ == self.flavors@[i as int].name@);
            out.push(n);
            assert(text::string_views(out@) =~= before.push(n@));
            assert(text::string_views(out@) =~= self.flavors@.map_values(|f: Flavor| f.name@).take(i + 1));
            i += 1;
        }
        assert(self.flavors@.map_values(|f: Flavor| f.name@).take(i as int) =~= self.flavors@.map_values(
            |f: Flavor| f.name@,
        ));
        out
    }

    /// The first flavor named `name`.
    pub fn find(&self, name: &str) -> (r: Option<&Flavor>)
        ensures
            match r {
                Some(f) => exists|k: int|
                    0 <= k < self.flavors@.len() && self.flavors@[k] == *f && f.name@ == name@ && forall|m: int|
                        0 <= m < k ==> #[trigger] self.flavors@[m].name@ != name@,
                None => !has_flavor(self.flavors@, name@),
            },
    {
        match flavor_named(&self.flavors, name) {
            Some(k) => Some(&self.flavors[k]),
            None => None,
        }
    }
}


/// No two flavors share a name.
pub open spec fn names_distinct(fs: Seq<Flavor>) -> bool {
    forall|a: int, b: int| 0 <= a < b < fs.len() ==> #[trigger] fs[a].name@ != #[trigger] fs[b].name@
}

proof fn lemma_merge_into(acc: Seq<Flavor>, fs: Seq<Flavor>)
    ensures
        merge_into(acc, fs).len() >= acc.len(),
        forall|k: int| 0 <= k < acc.len() ==> #[trigger] merge_into(acc, fs)[k] == acc[k],
        forall|n: Seq<char>| #[trigger] has_flavor(merge_into(acc, fs), n) <==> (has_flavor(acc, n) || has_flavor(fs, n)),
        names_distinct(acc) ==> names_distinct(merge_into(acc, fs)),
    decreases fs.len(),
{
    if fs.len() > 0 {
        let init = fs.drop_last();
        let x = fs.last();
        lemma_merge_into(acc, init);
        let a = merge_into(acc, init);
        assert forall|n: Seq<char>| #[trigger] has_flavor(merge_into(acc, fs), n) <==> (has_flavor(acc, n) || has_flavor(fs, n)) by {
            assert(has_flavor(a, n) <==> (has_flavor(acc, n) || has_flavor(init, n)));
            if has_flavor(init, n) {
                let k = choose|k: int| 0 <= k < init.len() && #[trigger] init[k].name@ == n;
                assert(fs[k] == init[k]);
            }
            if has_flavor(fs, n) {
                let k = choose|k: int| 0 <= k < fs.len() && #[trigger] fs[k].name@ == n;
                if k < fs.len() - 1 {
                    assert(init[k] == fs[k]);
                }
            }
            if !has_flavor(a, x.name@) {
                let r = a.push(x);
                if has_flavor(a, n) {
                    let k = choose|k: int| 0 <= k < a.len() && #[trigger] a[k].name@ == n;
                    assert(r[k] == a[k]);
                }
                if has_flavor(r, n) {
                    let k = choose|k: int| 0 <= k < r.len() && #[trigger] r[k].name@ == n;
                    if k < a.len() {
                        assert(a[k] == r[k]);
                    }
                }
                assert(r[a.len() as int] == x);
            }
        }
        if names_distinct(acc) && !has_flavor(a, x.name@) {
            let r = a.push(x);
            assert forall|i: int, j: int| 0 <= i < j < r.len() implies #[trigger] r[i].name@ != #[trigger] r[j].name@ by {
                if j == a.len() {
                    assert(r[i] == a[i]);
                } else {
                    assert(r[i] == a[i]);
                    assert(r[j] == a[j]);
                }
            }
        }
    }
}

proof fn lemma_merge_into_keeps_first(acc: Seq<Flavor>, fs: Seq<Flavor>, j: int)
    requires
        0 <= j < fs.len(),
        !has_flavor(acc, fs[j].name@),
        forall|m: int| 0 <= m < j ==> #[trigger] fs[m].name@ != fs[j].name@,
    ensures
        merge_into(acc, fs).contains(fs[j]),
    decreases fs.len(),
{
    let init = fs.drop_last();
    let a = merge_into(acc, init);
    lemma_merge_into(acc, init);
    if j == fs.len() - 1 {
        if has_flavor(init, fs[j].name@) {
            let k = choose|k: int| 0 <= k < init.len() && #[trigger] init[k].name@ == fs[j].name@;
            assert(fs[k] == init[k]);
        }
        assert(!has_flavor(a, fs[j].name@));
        assert(merge_into(acc, fs) == a.push(fs[j]));
        assert(a.push(fs[j])[a.len() as int] == fs[j]);
    } else {
        assert forall|m: int| 0 <= m < j implies #[trigger] init[m].name@ != init[j].name@ by {
            assert(init[m] == fs[m]);
        }
        lemma_merge_into_keeps_first(acc, init, j);
        let k = choose|k: int| 0 <= k < a.len() && a[k] == fs[j];
        if !has_flavor(a, fs.last().name@) {
            assert(a.push(fs.last())[k] == a[k]);
        }
    }
}

proof fn lemma_merge_all(cs: Seq<Seq<Flavor>>)
    ensures
        names_distinct(merge_all(cs)),
        forall|n: Seq<char>| #[trigger] has_flavor(merge_all(cs), n) <==> exists|k: int| 0 <= k < cs.len() && #[trigger] has_flavor(cs[k], n),
    decreases cs.len(),
{
    if cs.len() > 0 {
        let init = cs.drop_last();
        lemma_merge_all(init);
        lemma_merge_into(merge_all(init), cs.last());
        assert forall|n: Seq<char>| #[trigger] has_flavor(merge_all(cs), n) <==> exists|k: int| 0 <= k < cs.len() && #[trigger] has_flavor(cs[k], n) by {
            if exists|k: int| 0 <= k < cs.len() && #[trigger] has_flavor(cs[k], n) {
                let k = choose|k: int| 0 <= k < cs.len() && #[trigger] has_flavor(cs[k], n);
                if k < cs.len() - 1 {
                    assert(init[k] == cs[k]);
                    assert(has_flavor(init[k], n));
                }
            }
            if has_flavor(merge_all(init), n) {
                let k = choose|k: int| 0 <= k < init.len() && #[trigger] has_flavor(init[k], n);
                assert(cs[k] == init[k]);
                assert(has_flavor(cs[k], n));
            }
            if has_flavor(cs.last(), n) {
                assert(has_flavor(cs[cs.len() - 1], n));
            }
        }
    }
}

proof fn lemma_merge_all_keeps_first(cs: Seq<Seq<Flavor>>, i: int, j: int)
    requires
        0 <= i < cs.len(),
        0 <= j < cs[i].len(),
        forall|k: int| 0 <= k < i ==> !has_flavor(#[trigger] cs[k], cs[i][j].name@),
        forall|m: int| 0 <= m < j ==> #[trigger] cs[i][m].name@ != cs[i][j].name@,
    ensures
        merge_all(cs).contains(cs[i][j]),
    decreases cs.len(),
{
    let init = cs.drop_last();
    let x = cs[i][j];
    lemma_merge_into(merge_all(init), cs.last());
    if i == cs.len() - 1 {
        lemma_merge_all(init);
        if has_flavor(merge_all(init), x.name@) {
            let k = choose|k: int| 0 <= k < init.len() && #[trigger] has_flavor(init[k], x.name@);
            assert(init[k] == cs[k]);
        }
        lemma_merge_into_keeps_first(merge_all(init), cs.last(), j);
    } else {
        assert forall|k: int| 0 <= k < i implies !has_flavor(#[trigger] init[k], init[i][j].name@) by {
            assert(init[k] == cs[k]);
        }
        lemma_merge_all_keeps_first(init, i, j);
        let k = choose|k: int| 0 <= k < merge_all(init).len() && merge_all(init)[k] == x;
        assert(merge_all(cs)[k] == merge_all(init)[k]);
    }
}

proof fn lemma_insert_by_name(sorted: Seq<Flavor>, x: Flavor)
    ensures
        forall|y: Flavor| #[trigger] insert_by_name(sorted, x).contains(y) <==> (sorted.contains(y) || y == x),
        names_distinct(sorted) && !has_flavor(sorted, x.name@) ==> names_distinct(insert_by_name(sorted, x)),
    decreases sorted.len(),
{
    let r = insert_by_name(sorted, x);
    if sorted.len() == 0 {
        assert forall|y: Flavor| #[trigger] r.contains(y) <==> (sorted.contains(y) || y == x) by {
            if y == x {
                assert(r[0] == y);
            }
        }
    } else if text::seq_lt(x.name@, sorted[0].name@) {
        assert forall|y: Flavor| #[trigger] r.contains(y) <==> (sorted.contains(y) || y == x) by {
            if r.contains(y) {
                let k = choose|k: int| 0 <= k < r.len() && r[k] == y;
                if k > 0 {
                    assert(sorted[k - 1] == y);
                }
            }
            if sorted.contains(y) {
                let k = choose|k: int| 0 <= k < sorted.len() && sorted[k] == y;
                assert(r[k + 1] == y);
            }
            if y == x {
                assert(r[0] == y);
            }
        }
        if names_distinct(sorted) && !has_flavor(sorted, x.name@) {
            assert forall|a: int, b: int| 0 <= a < b < r.len() implies #[trigger] r[a].name@ != #[trigger] r[b].name@ by {
                assert(r[b] == sorted[b - 1]);
                if a > 0 {
                    assert(r[a] == sorted[a - 1]);
                }
            }
        }
    } else {
        let rest = sorted.drop_first();
        lemma_insert_by_name(rest, x);
        let tail = insert_by_name(rest, x);
        assert(r == seq![sorted[0]] + tail);
        assert forall|y: Flavor| #[trigger] r.contains(y) <==> (sorted.contains(y) || y == x) by {
            assert(tail.contains(y) <==> (rest.contains(y) || y == x));
            if r.contains(y) {
                let k = choose|k: int| 0 <= k < r.len() && r[k] == y;
                if k > 0 {
                    assert(tail[k - 1] == y);
                    if rest.contains(y) {
                        let m = choose|m: int| 0 <= m < rest.len() && rest[m] == y;
                        assert(sorted[m + 1] == y);
                    }
                } else {
                    assert(sorted[0] == y);
                }
            }
            if sorted.contains(y) {
                let k = choose|k: int| 0 <= k < sorted.len() && sorted[k] == y;
                if k == 0 {
                    assert(r[0] == y);
                } else {
                    assert(rest[k - 1] == y);
                    let m = choose|m: int| 0 <= m < tail.len() && tail[m] == y;
                    assert(r[m + 1] == y);
                }
            }
            if y == x {
                let m = choose|m: int| 0 <= m < tail.len() && tail[m] == y;
                assert(r[m + 1] == y);
            }
        }
        if names_distinct(sorted) && !has_flavor(sorted, x.name@) {
            assert(names_distinct(rest)) by {
                assert forall|a: int, b: int| 0 <= a < b < rest.len() implies #[trigger] rest[a].name@ != #[trigger] rest[b].name@ by {
                    assert(rest[a] == sorted[a + 1]);
                    assert(rest[b] == sorted[b + 1]);
                }
            }
            assert(!has_flavor(rest, x.name@)) by {
                if has_flavor(rest, x.name@) {
                    let k = choose|k: int| 0 <= k < rest.len() && #[trigger] rest[k].name@ == x.name@;
                    assert(sorted[k + 1] == rest[k]);
                }
            }
            assert forall|a: int, b: int| 0 <= a < b < r.len() implies #[trigger] r[a].name@ != #[trigger] r[b].name@ by {
                if a == 0 {
                    assert(r[b] == tail[b - 1]);
                    assert(tail.contains(tail[b - 1]));
                    if tail[b - 1] == x {
                        assert(sorted[0].name@ != x.name@);
                    } else {
                        let m = choose|m: int| 0 <= m < rest.len() && rest[m] == tail[b - 1];
                        assert(sorted[m + 1] == rest[m]);
                    }
                } else {
                    assert(r[a] == tail[a - 1]);
                    assert(r[b] == tail[b - 1]);
                }
            }
        }
    }
}

proof fn lemma_sort_by_name(s: Seq<Flavor>)
    ensures
        forall|y: Flavor| #[trigger] sort_by_name(s).contains(y) <==> s.contains(y),
        names_distinct(s) ==> names_distinct(sort_by_name(s)),
    decreases s.len(),
{
    if s.len() > 0 {
        let init = s.drop_last();
        let x = s.last();
        lemma_sort_by_name(init);
        lemma_insert_by_name(sort_by_name(init), x);
        assert forall|y: Flavor| #[trigger] sort_by_name(s).contains(y) <==> s.contains(y) by {
            assert(sort_by_name(init).contains(y) <==> init.contains(y));
            if init.contains(y) {
                let k = choose|k: int| 0 <= k < init.len() && init[k] == y;
                assert(s[k] == y);
            }
            if s.contains(y) {
                let k = choose|k: int| 0 <= k < s.len() && s[k] == y;
                if k < s.len() - 1 {
                    assert(init[k] == y);
                }
            }
            if y == x {
                assert(s[s.len() - 1] == y);
            }
        }
        if names_distinct(s) {
            assert(names_distinct(init)) by {
                assert forall|a: int, b: int| 0 <= a < b < init.len() implies #[trigger] init[a].name@ != #[trigger] init[b].name@ by {
                    assert(init[a] == s[a]);
                    assert(init[b] == s[b]);
                }
            }
            assert(!has_flavor(sort_by_name(init), x.name@)) by {
                if has_flavor(sort_by_name(init), x.name@) {
                    let k = choose|k: int| 0 <= k < sort_by_name(init).len() && #[trigger] sort_by_name(init)[k].name@ == x.name@;
                    assert(sort_by_name(init).contains(sort_by_name(init)[k]));
                    let m = choose|m: int| 0 <= m < init.len() && init[m] == sort_by_name(init)[k];
                    assert(s[m] == init[m]);
                    assert(s[s.len() - 1] == x);
                }
            }
        }
    }
}

/// A flavor name in an earlier directory shadows the same name in later
/// ones: merging the directories' collections, highest priority first,
/// keeps no name twice, and the flavor it keeps under a name is the first
/// one of that name in the first directory that has it.
pub proof fn lemma_earlier_directory_wins(cs: Seq<Seq<Flavor>>, i: int, j: int)
    requires
        0 <= i < cs.len(),
        0 <= j < cs[i].len(),
        forall|k: int| 0 <= k < i ==> !has_flavor(#[trigger] cs[k], cs[i][j].name@),
        forall|m: int| 0 <= m < j ==> #[trigger] cs[i][m].name@ != cs[i][j].name@,
    ensures
        names_distinct(sort_by_name(merge_all(cs))),
        sort_by_name(merge_all(cs)).contains(cs[i][j]),
{
    lemma_merge_all(cs);
    lemma_merge_all_keeps_first(cs, i, j);
    lemma_sort_by_name(merge_all(cs));
}


/// Flavors in ascending order of name (equal names allowed).
pub open spec fn sorted_by_name(fs: Seq<Flavor>) -> bool {
    forall|a: int, b: int| 0 <= a < b < fs.len() ==> !text::seq_lt(#[trigger] fs[b].name@, #[trigger] fs[a].name@)
}

proof fn lemma_insert_by_name_sorted(sorted: Seq<Flavor>, x: Flavor)
    requires
        sorted_by_name(sorted),
    ensures
        sorted_by_name(insert_by_name(sorted, x)),
        insert_by_name(sorted, x).len() == sorted.len() + 1,
    decreases sorted.len(),
{
    let r = insert_by_name(sorted, x);
    if sorted.len() == 0 {
    } else if text::seq_lt(x.name@, sorted[0].name@) {
        assert forall|a: int, b: int| 0 <= a < b < r.len() implies !text::seq_lt(#[trigger] r[b].name@, #[trigger] r[a].name@) by {
            assert(r[b] == sorted[b - 1]);
            if a == 0 {
                if text::seq_lt(r[b].name@, x.name@) {
                    if b - 1 > 0 {
                        assert(!text::seq_lt(sorted[b - 1].name@, sorted[0].name@));
                        text::lemma_seq_lt_transitive(sorted[b - 1].name@, x.name@, sorted[0].name@);
                    } else {
                        text::lemma_seq_lt_transitive(x.name@, sorted[0].name@, x.name@);
                        text::lemma_seq_lt_irreflexive(x.name@);
                    }
                }
            } else {
                assert(r[a] == sorted[a - 1]);
            }
        }
    } else {
        let rest = sorted.drop_first();
        assert(sorted_by_name(rest)) by {
            assert forall|a: int, b: int| 0 <= a < b < rest.len() implies !text::seq_lt(#[trigger] rest[b].name@, #[trigger] rest[a].name@) by {
                assert(rest[a] == sorted[a + 1]);
                assert(rest[b] == sorted[b + 1]);
            }
        }
        lemma_insert_by_name_sorted(rest, x);
        lemma_insert_by_name(rest, x);
        let tail = insert_by_name(rest, x);
        assert(r == seq![sorted[0]] + tail);
        assert forall|a: int, b: int| 0 <= a < b < r.len() implies !text::seq_lt(#[trigger] r[b].name@, #[trigger] r[a].name@) by {
            if a == 0 {
                assert(r[b] == tail[b - 1]);
                assert(tail.contains(tail[b - 1]));
                if tail[b - 1] != x {
                    let m = choose|m: int| 0 <= m < rest.len() && rest[m] == tail[b - 1];
                    assert(sorted[m + 1] == rest[m]);
                }
            } else {
                assert(r[a] == tail[a - 1]);
                assert(r[b] == tail[b - 1]);
            }
        }
    }
}

/// The flavors of a collection come in ascending order of name, all of
/// them: sorting loses and adds none.
pub proof fn lemma_sort_by_name_sorted(s: Seq<Flavor>)
    ensures
        sorted_by_name(sort_by_name(s)),
        sort_by_name(s).len() == s.len(),
        forall|y: Flavor| #[trigger] sort_by_name(s).contains(y) <==> s.contains(y),
    decreases s.len(),
{
    lemma_sort_by_name(s);
    if s.len() > 0 {
        lemma_sort_by_name_sorted(s.drop_last());
        lemma_insert_by_name_sorted(sort_by_name(s.drop_last()), s.last());
    }
}

/// A vertical side a preset can name.
pub open spec fn vertical_side(v: Seq<char>) -> bool {
    v == "top"@ || v == "bottom"@
}

/// A horizontal side a preset can name.
pub open spec fn horizontal_side(h: Seq<char>) -> bool {
    h == "left"@ || h == "right"@
}

/// A logo without explicit offsets placed by a preset `<v>-<h>` (`v` being
/// `top` or `bottom`, `h` being `left` or `right`) sits 3% from exactly the
/// two sides the preset names, with no transform; `<v>-center` sits 3%
/// from the named side and centered across.
pub proof fn lemma_preset_names_its_sides(l: LogoPlacement, v: Seq<char>, h: Seq<char>)
    requires
        l.x is None,
        l.y is None,
        vertical_side(v),
        l.position@ == v + "-"@ + h,
        horizontal_side(h) || h == "center"@,
    ensures
        horizontal_side(h) ==> css_position_spec(l) == "position:absolute;"@ + v + ":3%;"@ + h + ":3%;"@ + "width:"@
            + l.width@ + ";opacity:"@ + l.opacity@ + ";z-index:10;pointer-events:none;"@,
        h == "center"@ ==> css_position_spec(l) == "position:absolute;"@ + v + ":3%;left:50%;"@
            + "transform:translateX(-50%);"@ + "width:"@ + l.width@ + ";opacity:"@ + l.opacity@
            + ";z-index:10;pointer-events:none;"@,
{
    reveal_strlit("top");
    reveal_strlit("bottom");
    reveal_strlit("left");
    reveal_strlit("right");
    reveal_strlit("center");
    reveal_strlit("-");
    reveal_strlit(":3%;");
    reveal_strlit(":3%;left:50%;");
    reveal_strlit("top-left");
    reveal_strlit("top-center");
    reveal_strlit("top-right");
    reveal_strlit("bottom-left");
    reveal_strlit("bottom-center");
    reveal_strlit("bottom-right");
    reveal_strlit("top:3%;left:3%;");
    reveal_strlit("top:3%;left:50%;");
    reveal_strlit("top:3%;right:3%;");
    reveal_strlit("bottom:3%;left:3%;");
    reveal_strlit("bottom:3%;left:50%;");
    reveal_strlit("bottom:3%;right:3%;");
    reveal_strlit("");
    let p = l.position@;
    let (a, b) = preset_css(p);
    if v == "top"@ {
        if h == "left"@ {
            assert(p =~= "top-left"@);
            assert(a =~= v + ":3%;"@ + h + ":3%;"@);
        } else if h == "right"@ {
            assert(p =~= "top-right"@);
            assert(p != "top-left"@ && p != "top-center"@);
            assert(a =~= v + ":3%;"@ + h + ":3%;"@);
        } else {
            assert(p =~= "top-center"@);
            assert(p != "top-left"@);
            assert(a =~= v + ":3%;left:50%;"@);
        }
    } else {
        if h == "left"@ {
            assert(p =~= "bottom-left"@);
            assert(p != "top-left"@ && p != "top-center"@ && p != "top-right"@);
            assert(a =~= v + ":3%;"@ + h + ":3%;"@);
        } else if h == "right"@ {
            assert(p =~= "bottom-right"@);
            assert(p != "top-left"@ && p != "top-center"@ && p != "top-right"@ && p != "bottom-left"@
                && p != "bottom-center"@);
            assert(a =~= v + ":3%;"@ + h + ":3%;"@);
        } else {
            assert(p =~= "bottom-center"@);
            assert(p != "top-left"@ && p != "top-center"@ && p != "top-right"@ && p != "bottom-left"@);
            assert(a =~= v + ":3%;left:50%;"@);
        }
    }
    if horizontal_side(h) {
        assert(b =~= Seq::<char>::empty());
        assert(css_position_spec(l) =~= "position:absolute;"@ + v + ":3%;"@ + h + ":3%;"@ + "width:"@ + l.width@
            + ";opacity:"@ + l.opacity@ + ";z-index:10;pointer-events:none;"@);
    } else {
        assert(css_position_spec(l) =~= "position:absolute;"@ + v + ":3%;left:50%;"@
            + "transform:translateX(-50%);"@ + "width:"@ + l.width@ + ";opacity:"@ + l.opacity@
            + ";z-index:10;pointer-events:none;"@);
    }
}

/// A logo whose position names none of the six presets is placed as a
/// `top-right` one would be.
pub proof fn lemma_unknown_preset_is_top_right(l: LogoPlacement, r: LogoPlacement)
    requires
        l.position@ != "top-left"@,
        l.position@ != "top-center"@,
        l.position@ != "top-right"@,
        l.position@ != "bottom-left"@,
        l.position@ != "bottom-center"@,
        l.position@ != "bottom-right"@,
        r.position@ == "top-right"@,
        l.x == r.x,
        l.y == r.y,
        l.width@ == r.width@,
        l.opacity@ == r.opacity@,
    ensures
        css_position_spec(l) == css_position_spec(r),
{
    reveal_strlit("top-left");
    reveal_strlit("top-center");
    reveal_strlit("top-right");
    assert("top-right"@[4] != "top-left"@[4]);
    assert("top-right"@[4] != "top-center"@[4]);
    assert(r.position@ != "top-left"@ && r.position@ != "top-center"@);
}

} // verus!
