//! Playlists: the slides assembled for a talk, with rendering options.
use vstd::prelude::*;
use crate::text;

verus! {

broadcast use vstd::string::group_string_axioms;

/// Rendering options of a playlist.
#[derive(Debug, Clone)]
pub struct RenderOpts {
    pub theme: Option<String>,
    pub drawings: Option<bool>,
    /// Transition between slides: `fade`, `slide-left`, `slide-right`, `none`.
    pub transition: Option<String>,
    pub title: Option<String>,
    pub dark_mode: Option<bool>,
    /// Aspect ratio hint for export (`16/9`, `4/3`).
    pub aspect_ratio: Option<String>,
    pub canvas_width: Option<u32>,
    pub record: Option<bool>,
}

impl Default for RenderOpts {
    fn default() -> (r: Self)
        ensures
            r.theme is None,
            r.drawings is None,
            r.transition is None,
            r.title is None,
            r.dark_mode is None,
            r.aspect_ratio is None,
            r.canvas_width is None,
            r.record is None,
    {
        RenderOpts {
            theme: None,
            drawings: None,
            transition: None,
            title: None,
            dark_mode: None,
            aspect_ratio: None,
            canvas_width: None,
            record: None,
        }
    }
}

/// A presentation playlist: which slides a talk includes, in order.
#[derive(Debug, Clone)]
pub struct Playlist {
    pub name: String,
    pub title: Option<String>,
    pub description: Option<String>,
    /// Slide references (names or paths).
    pub slides: Vec<String>,
    pub flavor: Option<String>,
    /// Default language for slides with language blocks; the build's
    /// requested language takes precedence.
    pub default_lang: Option<String>,
    pub render: RenderOpts,
}

/// The input for creating a playlist.
#[derive(Debug, Clone)]
pub struct PlaylistInput {
    pub name: String,
    pub title: String,
    pub description: Option<String>,
    pub slides: Vec<String>,
    pub flavor: Option<String>,
    pub render: Option<RenderOpts>,
}

impl Playlist {
    /// The playlist an input describes: titled by it, with no default
    /// language and default rendering options when none are given.
    pub fn from_input(input: PlaylistInput) -> (p: Playlist)
        ensures
            p.name@ == input.name@,
            p.title matches Some(t) && t@ == input.title@,
            text::opt_seq(p.description) == text::opt_seq(input.description),
            p.slides@ == input.slides@,
            text::opt_seq(p.flavor) == text::opt_seq(input.flavor),
            p.default_lang is None,
            input.render is None ==> p.render.transition is None && p.render.title is None,
    {
        let render = match input.render {
            Some(r) => r,
            None => RenderOpts::default(),
        };
        Playlist {
            name: input.name,
            title: Some(input.title),
            description: input.description,
            slides: input.slides,
            flavor: input.flavor,
            default_lang: None,
            render,
        }
    }
}

/// A relative path that begins with a `.` component (`.` or `./…`).
pub open spec fn leading_cur(p: Seq<char>) -> bool {
    !crate::bundle::is_absolute(p) && crate::package::split_on(p, '/')[0] == seq!['.']
}

/// The components of `p` after its root, as `std::path` lists them: a
/// leading `.` of a relative path, then the pieces that name something.
pub open spec fn std_components(p: Seq<char>) -> Seq<Seq<char>> {
    (if leading_cur(p) {
        seq![seq!['.']]
    } else {
        Seq::empty()
    }) + crate::cli::path_components(p)
}

/// `rel` joined onto `base` as `Path::join` does: an absolute `rel`
/// replaces `base`; otherwise a `/` goes between them unless `base` is
/// empty or ends in one.
pub open spec fn join_path_spec(base: Seq<char>, rel: Seq<char>) -> Seq<char> {
    if crate::bundle::is_absolute(rel) {
        rel
    } else if base.len() == 0 || base.last() == '/' {
        base + rel
    } else {
        base + seq!['/'] + rel
    }
}

/// The components of `p` after those of `base` when `base` begins `p`
/// (both rooted or both not), as `Path::strip_prefix` finds them.
pub open spec fn strip_prefix_spec(p: Seq<char>, base: Seq<char>) -> Option<Seq<Seq<char>>> {
    let pc = std_components(p);
    let bc = std_components(base);
    if crate::bundle::is_absolute(p) == crate::bundle::is_absolute(base) && bc.len() <= pc.len() && pc.take(
        bc.len() as int,
    ) == bc {
        Some(pc.skip(bc.len() as int))
    } else {
        None
    }
}

/// How a slide found below the scanned directory is referenced: its place
/// below the slide directory (components joined by `/`), else its path as
/// found.
pub open spec fn dir_ref_spec(scan_dir: Seq<char>, slide_dir: Seq<char>, rel: Seq<char>) -> Seq<char> {
    match strip_prefix_spec(join_path_spec(scan_dir, rel), slide_dir) {
        Some(r) => text::join(r, seq!['/']),
        None => rel,
    }
}

/// The name a playlist made from a directory gets: the given one, else the
/// directory's last component, else `untitled`.
pub open spec fn dir_playlist_name(scan_dir: Seq<char>, name: Option<Seq<char>>) -> Seq<char> {
    match name {
        Some(n) => n,
        None => {
            let pc = std_components(scan_dir);
            if pc.len() > 0 && pc.last() != seq!['.'] && pc.last() != seq!['.', '.'] {
                pc.last()
            } else {
                "untitled"@
            }
        },
    }
}

/// The playlist made from the slides found below a directory, or the
/// refusal when none was found.
pub open spec fn playlist_from_dir_spec(
    scan_dir: Seq<char>,
    name: Option<Seq<char>>,
    slide_dir: Seq<char>,
    files: Seq<Seq<char>>,
) -> Result<(Seq<char>, Seq<char>, Seq<char>, Seq<Seq<char>>), Seq<char>> {
    if files.len() == 0 {
        Err("No slides found in '"@ + scan_dir + "'"@)
    } else {
        let n = dir_playlist_name(scan_dir, name);
        Ok(
            (
                n,
                crate::cli::humanize_spec(n),
                "Auto-generated from "@ + scan_dir,
                files.map_values(|f: Seq<char>| dir_ref_spec(scan_dir, slide_dir, f)),
            ),
        )
    }
}

/// A playlist as the plain values a directory gives it.
pub open spec fn dir_view(p: Playlist) -> (Seq<char>, Seq<char>, Seq<char>, Seq<Seq<char>>) {
    (
        p.name@,
        match p.title {
            Some(t) => t@,
            None => Seq::empty(),
        },
        match p.description {
            Some(d) => d@,
            None => Seq::empty(),
        },
        text::string_views(p.slides@),
    )
}

proof fn lemma_split_nonempty(p: Seq<char>)
    ensures
        crate::package::split_on(p, '/').len() > 0,
{
    text::lemma_index_of(p, '/', 0);
}

fn leading_cur_of(p: &[char]) -> (b: bool)
    ensures
        b == leading_cur(p@),
{
    let pieces = crate::package::split_chars(p, '/');
    proof {
        lemma_split_nonempty(p@);
        assert(text::views(pieces@).len() == pieces@.len());
    }
    let abs = p.len() > 0 && p[0] == '/';
    let first = &pieces[0];
    assert(text::views(pieces@)[0] == pieces@[0]@);
    let dot = first.len() == 1 && first[0] == '.';
    proof {
        if first@ == seq!['.'] {
            assert(first@[0] == '.');
        }
        if dot {
            assert(first@ =~= seq!['.']);
        }
    }
    !abs && dot
}

fn std_components_of(p: &str) -> (r: Vec<Vec<char>>)
    ensures
        text::views(r@) == std_components(p@),
{
    let pc = text::chars_of(p);
    let named = crate::cli::components_of(p);
    let mut out: Vec<Vec<char>> = Vec::new();
    if leading_cur_of(pc.as_slice()) {
        let dot: Vec<char> = vec!['.'];
        assert(dot@ =~= seq!['.']);
        out.push(dot);
        assert(text::views(out@) =~= seq![seq!['.']]);
    } else {
        assert(text::views(out@) =~= Seq::<Seq<char>>::empty());
    }
    let ghost head = text::views(out@);
    let mut i: usize = 0;
    while i < named.len()
        invariant
            i <= named.len(),
            text::views(out@) == head + text::views(named@).take(i as int),
        decreases named.len() - i,
    {
        let ghost before = text::views(out@);
        let c = text::slice_vec(named[i].as_slice(), 0, named[i].len());
        assert(named@[i as int]@.subrange(0, named@[i as int]@.len() as int) =~= named@[i as int]@);
        out.push(c);
        assert(text::views(out@) =~= before.push(named@[i as int]@));
        i += 1;
        assert(text::views(out@) =~= head + text::views(named@).take(i as int));
    }
    assert(text::views(named@).take(named.len() as int) =~= text::views(named@));
    out
}

fn join_path(base: &str, rel: &str) -> (r: String)
    ensures
        r@ == join_path_spec(base@, rel@),
{
    let b = text::chars_of(base);
    let rc = text::chars_of(rel);
    if rc.len() > 0 && rc[0] == '/' {
        return rel.to_string();
    }
    let mut out = base.to_string();
    if !(b.len() == 0 || b[b.len() - 1] == '/') {
        out.push('/');
    }
    text::append(&mut out, rel);
    out
}

fn dir_ref(scan_dir: &str, slide_dir: &str, rel: &str) -> (r: String)
    ensures
        r@ == dir_ref_spec(scan_dir@, slide_dir@, rel@),
{
    let full = join_path(scan_dir, rel);
    let pc = std_components_of(full.as_str());
    let bc = std_components_of(slide_dir);
    let fa = text::chars_of(full.as_str());
    let sa = text::chars_of(slide_dir);
    let fabs = fa.len() > 0 && fa[0] == '/';
    let sabs = sa.len() > 0 && sa[0] == '/';
    if fabs != sabs || bc.len() > pc.len() {
        return rel.to_string();
    }
    let mut i: usize = 0;
    while i < bc.len()
        invariant
            bc.len() <= pc.len(),
            i <= bc.len(),
            text::views(pc@) == std_components(full@),
            text::views(bc@) == std_components(slide_dir@),
            full@ == join_path_spec(scan_dir@, rel@),
            forall|k: int| 0 <= k < i ==> pc@[k]@ == bc@[k]@,
        decreases bc.len() - i,
    {
        if !text::eq_chars(pc[i].as_slice(), bc[i].as_slice()) {
            assert(text::views(pc@).take(bc.len() as int)[i as int] == pc@[i as int]@);
            assert(text::views(bc@)[i as int] == bc@[i as int]@);
            assert(text::views(pc@).take(bc.len() as int) != text::views(bc@));
            return rel.to_string();
        }
        i += 1;
    }
    assert(text::views(pc@).take(bc.len() as int) =~= text::views(bc@));
    let mut rest: Vec<Vec<char>> = Vec::new();
    let mut k: usize = bc.len();
    assert(text::views(rest@) =~= text::views(pc@).skip(bc.len() as int).take(0));
    while k < pc.len()
        invariant
            bc.len() <= k <= pc.len(),
            text::views(rest@) == text::views(pc@).skip(bc.len() as int).take(k - bc.len()),
        decreases pc.len() - k,
    {
        let ghost before = text::views(rest@);
        let piece = text::slice_vec(pc[k].as_slice(), 0, pc[k].len());
        assert(pc@[k as int]@.subrange(0, pc@[k as int]@.len() as int) =~= pc@[k as int]@);
        rest.push(piece);
        assert(text::views(rest@) =~= before.push(pc@[k as int]@));
        k += 1;
        assert(text::views(rest@) =~= text::views(pc@).skip(bc.len() as int).take(k - bc.len()));
    }
    assert(text::views(pc@).skip(bc.len() as int).take(pc.len() - bc.len()) =~= text::views(pc@).skip(
        bc.len() as int,
    ));
    let slash: Vec<char> = vec!['/'];
    assert(slash@ =~= seq!['/']);
    let j = text::join_chars(&rest, slash.as_slice());
    text::string_of(j.as_slice())
}

/// The playlist made from the slides found below `scan_dir` (their paths
/// `files`, relative to it), referenced from `slide_dir` (see
/// [`playlist_from_dir_spec`]); refused when none was found.
pub fn playlist_from_dir(scan_dir: &str, name: Option<&str>, slide_dir: &str, files: &[String]) -> (r: Result<
    Playlist,
    String,
>)
    ensures
        match playlist_from_dir_spec(scan_dir@, crate::slide::opt_str(name), slide_dir@, text::string_views(files@)) {
            Ok(v) => r matches Ok(p) && dir_view(p) == v && p.flavor is None && p.default_lang is None,
            Err(e) => r matches Err(m) && m@ == e,
        },
{
    if files.len() == 0 {
        let mut m = "No slides found in '".to_string();
        text::append(&mut m, scan_dir);
        text::append(&mut m, "'");
        return Err(m);
    }
    let n = match name {
        Some(n) => n.to_string(),
        None => {
            let pc = std_components_of(scan_dir);
            let mut out = "untitled".to_string();
            if pc.len() > 0 {
                let last = &pc[pc.len() - 1];
                assert(text::views(pc@).last() == pc@[pc.len() - 1]@);
                let dot = last.len() == 1 && last[0] == '.';
                let dots = last.len() == 2 && last[0] == '.' && last[1] == '.';
                proof {
                    if last@ == seq!['.'] {
                        assert(last@[0] == '.');
                    }
                    if last@ == seq!['.', '.'] {
                        assert(last@[0] == '.' && last@[1] == '.');
                    }
                    if dot {
                        assert(last@ =~= seq!['.']);
                    }
                    if dots {
                        assert(last@ =~= seq!['.', '.']);
                    }
                }
                if !dot && !dots {
                    out = text::string_of(last.as_slice());
                }
            }
            out
        },
    };
    let nc = text::chars_of(n.as_str());
    let title = text::string_of(crate::cli::humanize(nc.as_slice()).as_slice());
    let mut desc = "Auto-generated from ".to_string();
    text::append(&mut desc, scan_dir);
    let ghost fv = text::string_views(files@);
    let mut refs: Vec<String> = Vec::new();
    let mut i: usize = 0;
    while i < files.len()
        invariant
            i <= files.len(),
            fv == text::string_views(files@),
            text::string_views(refs@) == fv.map_values(|f: Seq<char>| dir_ref_spec(scan_dir@, slide_dir@, f)).take(
                i as int,
            ),
        decreases files.len() - i,
    {
        let ghost before = text::string_views(refs@);
        let r = dir_ref(scan_dir, slide_dir, files[i].as_str());
        let ghost rv = r@;
        refs.push(r);
        assert(fv[i as int] == files@[i as int]@);
        assert(text::string_views(refs@) =~= before.push(rv));
        i += 1;
        assert(text::string_views(refs@) =~= fv.map_values(|f: Seq<char>| dir_ref_spec(scan_dir@, slide_dir@, f)).take(
            i as int,
        ));
    }
    assert(fv.map_values(|f: Seq<char>| dir_ref_spec(scan_dir@, slide_dir@, f)).take(files.len() as int)
        =~= fv.map_values(|f: Seq<char>| dir_ref_spec(scan_dir@, slide_dir@, f)));
    Ok(
        Playlist {
            name: n,
            title: Some(title),
            description: Some(desc),
            slides: refs,
            flavor: None,
            default_lang: None,
            render: RenderOpts::default(),
        },
    )
}

} // verus!
