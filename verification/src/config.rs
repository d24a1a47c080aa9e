//! Configuration values and base-directory resolution. Paths are handled as
//! strings in their Unix form: a path is absolute when it starts with `/`.
use vstd::prelude::*;
use crate::text;

verus! {

broadcast use vstd::string::group_string_axioms;

/// Core application settings.
pub struct CoreConfig {
    /// Library root: the tree carrying slides, layouts, flavors, playlists,
    /// scaffolds and media.
    pub library: String,
    /// Extra directory of slide scaffolds.
    pub scaffold_dir: String,
    /// Directory of user layouts.
    pub layout_dir: String,
    /// Directory of flavors.
    pub flavor_dir: String,
    /// Flavor used when none is named.
    pub default_flavor: String,
    /// Port of the local dev/watch server.
    pub dev_port: String,
    /// Preferred agent for slide generation.
    pub agent: String,
}

/// Presentations and slides settings.
pub struct PresentationsConfig {
    /// Directory of individual slide files.
    pub slide_dir: String,
    /// Directory of generated presentations.
    pub output_dir: String,
    /// Directory of presentation playlists.
    pub playlist_dir: String,
}

/// Fuzzy matching settings. `threshold` is the minimum fuzzy score (0-100)
/// as the integer the matcher compares against.
pub struct MatchingConfig {
    /// Order in which resolution methods are tried.
    pub resolution_order: Vec<String>,
    /// Minimum fuzzy match score.
    pub threshold: i64,
    /// Maximum number of suggestions.
    pub max_suggestions: usize,
}

pub fn default_library() -> (s: String)
    ensures
        s@ == "~/sldr"@,
{
    "~/sldr".to_string()
}

pub fn default_scaffold_dir() -> (s: String)
    ensures
        s@ == "~/.config/sldr/scaffolds"@,
{
    "~/.config/sldr/scaffolds".to_string()
}

pub fn default_layout_dir() -> (s: String)
    ensures
        s@ == "~/.config/sldr/layouts"@,
{
    "~/.config/sldr/layouts".to_string()
}

pub fn default_flavor_dir() -> (s: String)
    ensures
        s@ == "~/.config/sldr/flavors"@,
{
    "~/.config/sldr/flavors".to_string()
}

pub fn default_flavor() -> (s: String)
    ensures
        s@ == "default"@,
{
    "default".to_string()
}

pub fn default_dev_port() -> (s: String)
    ensures
        s@ == "3030"@,
{
    "3030".to_string()
}

pub fn default_agent() -> (s: String)
    ensures
        s@ == "opencode"@,
{
    "opencode".to_string()
}

pub fn default_slide_dir() -> (s: String)
    ensures
        s@ == "~/sldr/slides"@,
{
    "~/sldr/slides".to_string()
}

pub fn default_output_dir() -> (s: String)
    ensures
        s@ == "~/sldr/presentations"@,
{
    "~/sldr/presentations".to_string()
}

pub fn default_playlist_dir() -> (s: String)
    ensures
        s@ == "~/sldr/playlists"@,
{
    "~/sldr/playlists".to_string()
}

pub fn default_resolution_order() -> (v: Vec<String>)
    ensures
        v.len() == 5,
        v[0]@ == "anchor"@,
        v[1]@ == "exact"@,
        v[2]@ == "fuzzy"@,
        v[3]@ == "index"@,
        v[4]@ == "interactive"@,
{
    let mut v: Vec<String> = Vec::new();
    v.push("anchor".to_string());
    v.push("exact".to_string());
    v.push("fuzzy".to_string());
    v.push("index".to_string());
    v.push("interactive".to_string());
    v
}

/// The default minimum fuzzy score.
pub fn default_threshold() -> (t: i64)
    ensures
        t == 50,
{
    50
}

pub fn default_max_suggestions() -> (n: usize)
    ensures
        n == 6,
{
    6
}

impl Default for CoreConfig {
    fn default() -> (c: Self)
        ensures
            c.library@ == "~/sldr"@,
            c.scaffold_dir@ == "~/.config/sldr/scaffolds"@,
            c.layout_dir@ == "~/.config/sldr/layouts"@,
            c.flavor_dir@ == "~/.config/sldr/flavors"@,
            c.default_flavor@ == "default"@,
            c.dev_port@ == "3030"@,
            c.agent@ == "opencode"@,
    {
        CoreConfig {
            library: default_library(),
            scaffold_dir: default_scaffold_dir(),
            layout_dir: default_layout_dir(),
            flavor_dir: default_flavor_dir(),
            default_flavor: default_flavor(),
            dev_port: default_dev_port(),
            agent: default_agent(),
        }
    }
}

impl Default for PresentationsConfig {
    fn default() -> (c: Self)
        ensures
            c.slide_dir@ == "~/sldr/slides"@,
            c.output_dir@ == "~/sldr/presentations"@,
            c.playlist_dir@ == "~/sldr/playlists"@,
    {
        PresentationsConfig {
            slide_dir: default_slide_dir(),
            output_dir: default_output_dir(),
            playlist_dir: default_playlist_dir(),
        }
    }
}

impl Default for MatchingConfig {
    fn default() -> (c: Self)
        ensures
            c.resolution_order.len() == 5,
            c.threshold == 50,
            c.max_suggestions == 6,
    {
        MatchingConfig {
            resolution_order: default_resolution_order(),
            threshold: default_threshold(),
            max_suggestions: default_max_suggestions(),
        }
    }
}

/// A path is absolute when it starts at the root.
pub open spec fn is_absolute(p: Seq<char>) -> bool {
    p.len() > 0 && p[0] == '/'
}

/// `base` joined with `rel`: an absolute `rel` replaces `base`; otherwise a
/// separator is put between them unless `base` is empty or already ends
/// with one.
pub open spec fn join(base: Seq<char>, rel: Seq<char>) -> Seq<char> {
    if is_absolute(rel) {
        rel
    } else if base.len() == 0 || base.last() == '/' {
        base + rel
    } else {
        base + seq!['/'] + rel
    }
}

/// Base directory resolution: an absolute XDG value wins on any OS;
/// otherwise Windows uses its own directory and every other OS uses
/// `$HOME` joined with the XDG-style relative path.
pub open spec fn resolve_base_spec(
    xdg: Option<Seq<char>>,
    home: Option<Seq<char>>,
    win_dir: Option<Seq<char>>,
    is_windows: bool,
    unix_rel: Seq<char>,
) -> Option<Seq<char>> {
    if xdg is Some && is_absolute(xdg->0) {
        xdg
    } else if is_windows {
        win_dir
    } else {
        match home {
            Some(h) => Some(join(h, unix_rel)),
            None => None,
        }
    }
}

/// `base` joined with `rel` (see [`join`]).
pub fn join_path(base: &str, rel: &str) -> (r: String)
    ensures
        r@ == join(base@, rel@),
{
    let b = crate::text::chars_of(base);
    let r = crate::text::chars_of(rel);
    if r.len() > 0 && r[0] == '/' {
        return crate::text::string_of(r.as_slice());
    }
    let mut out = b.clone();
    if b.len() > 0 && b[b.len() - 1] != '/' {
        out.push('/');
    }
    crate::text::push_all(&mut out, r.as_slice());
    proof {
        if b@.len() == 0 || b@.last() == '/' {
            assert(out@ =~= b@ + r@);
        } else {
            assert(out@ =~= b@ + seq!['/'] + r@);
        }
    }
    crate::text::string_of(out.as_slice())
}

/// Resolve a base directory: an explicit absolute XDG value wins on any OS;
/// otherwise on Windows the Windows directory is used, and elsewhere
/// `$HOME` joined with `unix_rel`. `None` when nothing applies.
pub fn resolve_base(
    xdg: Option<String>,
    home: Option<String>,
    win_dir: Option<String>,
    is_windows: bool,
    unix_rel: &str,
) -> (r: Option<String>)
    ensures
        text::opt_seq(r) == resolve_base_spec(text::opt_seq(xdg), text::opt_seq(home), text::opt_seq(win_dir), is_windows, unix_rel@),
{
    if let Some(p) = xdg {
        let cs = crate::text::chars_of(p.as_str());
        if cs.len() > 0 && cs[0] == '/' {
            return Some(p);
        }
    }
    if is_windows {
        win_dir
    } else {
        match home {
            Some(h) => Some(join_path(h.as_str(), unix_rel)),
            None => None,
        }
    }
}

/// The whole configuration.
pub struct Config {
    pub config: CoreConfig,
    pub presentations: PresentationsConfig,
    pub matching: MatchingConfig,
}

impl Default for Config {
    fn default() -> (c: Self)
        ensures
            c.config.library@ == "~/sldr"@,
            c.presentations.slide_dir@ == "~/sldr/slides"@,
            c.matching.threshold == 50,
            c.matching.max_suggestions == 6,
    {
        Config {
            config: CoreConfig::default(),
            presentations: PresentationsConfig::default(),
            matching: MatchingConfig::default(),
        }
    }
}

/// A path that shell expansion leaves alone: no `$` anywhere and no
/// leading `~`.
pub open spec fn plain_path(p: Seq<char>) -> bool {
    !text::contains(p, seq!['$']) && !text::starts_with(p, seq!['~'])
}

/// `e` may be the shell expansion of `p`: it is `p` itself when `p` is
/// plain; without a `$`, only a leading `~` can be replaced (by the home
/// directory), so what follows it stays at the end. (What the home
/// directory and variables are depends on the environment.)
pub open spec fn expansion_of(p: Seq<char>, e: Seq<char>) -> bool {
    &&& plain_path(p) ==> e == p
    &&& (!text::contains(p, seq!['$']) && p.len() > 0) ==> text::ends_with(e, p.skip(1))
}

/// `shellexpand::full`: a leading `~` becomes the home directory and each
/// `$VAR` or `${VAR}` its value in the environment; on an unknown variable
/// the path comes back as it was. What comes back depends on the
/// environment, so only this is stated: a path with no `$` and no leading
/// `~` comes back unchanged, and a path with no `$` keeps everything after
/// its first character at the end.
#[verifier::external_body]
fn shell_expand(path: &str) -> (r: String)
    ensures
        expansion_of(path@, r@),
{
    match shellexpand::full(path) {
        Ok(e) => e.into_owned(),
        Err(_) => path.to_string(),
    }
}

impl Config {
    /// A path with `~` and environment variables expanded (see
    /// [`expansion_of`]).
    pub fn expand_path(path: &str) -> (r: String)
        ensures
            expansion_of(path@, r@),
    {
        shell_expand(path)
    }

    /// The slide directory, expanded.
    pub fn slide_dir(&self) -> (r: String)
        ensures
            expansion_of(self.presentations.slide_dir@, r@),
    {
        Self::expand_path(self.presentations.slide_dir.as_str())
    }

    /// The output directory, expanded.
    pub fn output_dir(&self) -> (r: String)
        ensures
            expansion_of(self.presentations.output_dir@, r@),
    {
        Self::expand_path(self.presentations.output_dir.as_str())
    }

    /// The playlist directory, expanded.
    pub fn playlist_dir(&self) -> (r: String)
        ensures
            expansion_of(self.presentations.playlist_dir@, r@),
    {
        Self::expand_path(self.presentations.playlist_dir.as_str())
    }

    /// The extra scaffold directory, expanded.
    pub fn scaffold_dir(&self) -> (r: String)
        ensures
            expansion_of(self.config.scaffold_dir@, r@),
    {
        Self::expand_path(self.config.scaffold_dir.as_str())
    }

    /// The user layout directory, expanded.
    pub fn layout_dir(&self) -> (r: String)
        ensures
            expansion_of(self.config.layout_dir@, r@),
    {
        Self::expand_path(self.config.layout_dir.as_str())
    }

    /// The library root, expanded.
    pub fn library(&self) -> (r: String)
        ensures
            expansion_of(self.config.library@, r@),
    {
        Self::expand_path(self.config.library.as_str())
    }

    /// The extra flavor directory, expanded.
    pub fn flavor_dir(&self) -> (r: String)
        ensures
            expansion_of(self.config.flavor_dir@, r@),
    {
        Self::expand_path(self.config.flavor_dir.as_str())
    }

    /// Flavor search directories, highest priority first: the library's
    /// `flavors`, then the configured flavor directory.
    pub fn flavor_dirs(&self) -> (r: Vec<String>)
        ensures
            r@.len() == 2,
            exists|e: Seq<char>| expansion_of(self.config.library@, e) && r@[0]@ == join(e, "flavors"@),
            expansion_of(self.config.flavor_dir@, r@[1]@),
    {
        let lib = self.library();
        let first = join_path(lib.as_str(), "flavors");
        vec![first, self.flavor_dir()]
    }

    /// Layout directories in load order (later loads override earlier
    /// ones): the configured layout directory, then the library's
    /// `layouts`.
    pub fn layout_dirs(&self) -> (r: Vec<String>)
        ensures
            r@.len() == 2,
            expansion_of(self.config.layout_dir@, r@[0]@),
            exists|e: Seq<char>| expansion_of(self.config.library@, e) && r@[1]@ == join(e, "layouts"@),
    {
        let first = self.layout_dir();
        let lib = self.library();
        vec![first, join_path(lib.as_str(), "layouts")]
    }

    /// Scaffold search directories, highest priority first: the library's
    /// `scaffolds`, then the configured scaffold directory.
    pub fn scaffold_dirs(&self) -> (r: Vec<String>)
        ensures
            r@.len() == 2,
            exists|e: Seq<char>| expansion_of(self.config.library@, e) && r@[0]@ == join(e, "scaffolds"@),
            expansion_of(self.config.scaffold_dir@, r@[1]@),
    {
        let lib = self.library();
        let first = join_path(lib.as_str(), "scaffolds");
        vec![first, self.scaffold_dir()]
    }
}

/// The directory of sldr under a base directory, or under `fallback` when
/// the base is unknown.
pub open spec fn sldr_dir_spec(base: Option<Seq<char>>, fallback: Seq<char>) -> Seq<char> {
    join(
        match base {
            Some(b) => b,
            None => fallback,
        },
        "sldr"@,
    )
}

impl Config {
    /// The configuration directory of sldr from the resolved XDG config
    /// base (see [`resolve_base`]), `~/.config` when unknown.
    pub fn config_dir(base: Option<&str>) -> (r: String)
        ensures
            r@ == sldr_dir_spec(crate::slide::opt_str(base), "~/.config"@),
    {
        join_path(base.unwrap_or("~/.config"), "sldr")
    }

    /// The data directory of sldr from the resolved XDG data base,
    /// `~/.local/share` when unknown.
    pub fn data_dir(base: Option<&str>) -> (r: String)
        ensures
            r@ == sldr_dir_spec(crate::slide::opt_str(base), "~/.local/share"@),
    {
        join_path(base.unwrap_or("~/.local/share"), "sldr")
    }

    /// The state directory of sldr from the resolved XDG state base,
    /// `~/.local/state` when unknown.
    pub fn state_dir(base: Option<&str>) -> (r: String)
        ensures
            r@ == sldr_dir_spec(crate::slide::opt_str(base), "~/.local/state"@),
    {
        join_path(base.unwrap_or("~/.local/state"), "sldr")
    }

    /// The cache directory of sldr from the resolved XDG cache base,
    /// `~/.cache` when unknown.
    pub fn cache_dir(base: Option<&str>) -> (r: String)
        ensures
            r@ == sldr_dir_spec(crate::slide::opt_str(base), "~/.cache"@),
    {
        join_path(base.unwrap_or("~/.cache"), "sldr")
    }

    /// The global configuration file, in the configuration directory.
    pub fn config_file_path(base: Option<&str>) -> (r: String)
        ensures
            r@ == join(sldr_dir_spec(crate::slide::opt_str(base), "~/.config"@), "config.toml"@),
    {
        let dir = Self::config_dir(base);
        join_path(dir.as_str(), "config.toml")
    }
}

} // verus!
