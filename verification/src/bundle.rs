//! The `.sldr` bundle: one playlist with everything it needs, as a plain
//! zip. This module decides what goes in and in which order: the axes,
//! where each media file lands, the sorted and de-duplicated media and
//! layout sets, the entry names, and the archive itself (deflated, with a
//! fixed date, so the same sources and axes give the same bytes).
use vstd::prelude::*;
use crate::cli::{components_of, path_components};
use crate::deck::{self, Compression};
use crate::presentation::Playlist;
use crate::slide::Slide;
use crate::text;

verus! {

broadcast use vstd::string::group_string_axioms;

/// `names` with the trimmed `piece` added when it is not blank.
pub open spec fn keep_axis(names: Seq<Seq<char>>, piece: Seq<char>) -> Seq<Seq<char>> {
    if text::trim(piece).len() > 0 {
        names.push(text::trim(piece))
    } else {
        names
    }
}

/// Reading `s` from the left: the values finished so far and the piece
/// being read.
pub open spec fn axes_scan(s: Seq<char>) -> (Seq<Seq<char>>, Seq<char>)
    decreases s.len(),
{
    if s.len() == 0 {
        (Seq::empty(), Seq::empty())
    } else {
        let (done, cur) = axes_scan(s.drop_last());
        if s.last() == ',' {
            (keep_axis(done, cur), Seq::empty())
        } else {
            (done, cur.push(s.last()))
        }
    }
}

/// The values of a comma-separated axis (flavors, languages): the pieces
/// between commas, trimmed, blank ones left out.
pub open spec fn split_axes_spec(s: Seq<char>) -> Seq<Seq<char>> {
    keep_axis(axes_scan(s).0, axes_scan(s).1)
}

/// The values of a comma-separated axis (see [`split_axes_spec`]).
pub fn bundle_axes(arg: &str) -> (r: Vec<String>)
    ensures
        text::string_views(r@) == split_axes_spec(arg@),
{
    let cs = text::chars_of(arg);
    let mut done: Vec<String> = Vec::new();
    let mut cur: Vec<char> = Vec::new();
    let mut i: usize = 0;
    assert(cs@.take(0) =~= Seq::<char>::empty());
    assert(text::string_views(done@) =~= Seq::<Seq<char>>::empty());
    while i < cs.len()
        invariant
            i <= cs.len(),
            cs@ == arg@,
            (text::string_views(done@), cur@) == axes_scan(cs@.take(i as int)),
        decreases cs.len() - i,
    {
        assert(cs@.take(i + 1).drop_last() =~= cs@.take(i as int));
        assert(cs@.take(i + 1).last() == cs@[i as int]);
        let c = cs[i];
        if c == ',' {
            let t = text::trim_chars(cur.as_slice());
            if t.len() > 0 {
                let ghost before = text::string_views(done@);
                done.push(text::string_of(t.as_slice()));
                assert(text::string_views(done@) =~= before.push(t@));
            }
            cur = Vec::new();
        } else {
            cur.push(c);
        }
        i += 1;
    }
    assert(cs@.take(cs.len() as int) =~= cs@);
    let t = text::trim_chars(cur.as_slice());
    if t.len() > 0 {
        let ghost before = text::string_views(done@);
        done.push(text::string_of(t.as_slice()));
        assert(text::string_views(done@) =~= before.push(t@));
    }
    done
}

/// The language a bundle is built for by default: the playlist's, else
/// `en`.
pub open spec fn default_language_spec(p: Playlist) -> Seq<char> {
    match p.default_lang {
        Some(l) => l@,
        None => "en"@,
    }
}

/// The default language of a bundle (see [`default_language_spec`]).
pub fn bundle_default_language(p: &Playlist) -> (r: String)
    ensures
        r@ == default_language_spec(*p),
{
    match &p.default_lang {
        Some(l) => l.clone(),
        None => "en".to_string(),
    }
}

/// An absolute path.
pub open spec fn is_absolute(p: Seq<char>) -> bool {
    p.len() > 0 && p[0] == '/'
}

/// The components of `p` after those of `base`, when `base` is an
/// absolute path whose components begin `p`'s (`p` being absolute).
pub open spec fn rest_after(p: Seq<char>, base: Seq<char>) -> Option<Seq<Seq<char>>> {
    let pc = path_components(p);
    let bc = path_components(base);
    if is_absolute(base) && bc.len() <= pc.len() && pc.take(bc.len() as int) == bc {
        Some(pc.skip(bc.len() as int))
    } else {
        None
    }
}

/// The last component of `p`, or nothing for the root.
pub open spec fn last_component(p: Seq<char>) -> Seq<char> {
    let pc = path_components(p);
    if pc.len() > 0 {
        pc.last()
    } else {
        Seq::empty()
    }
}

/// Where a media file (by its resolved path) goes in the bundle: under
/// `slides/` at its place below the slide directory; at its place below
/// the library; otherwise under `media/` by its file name. Places are
/// written as components joined by `/`, which for a resolved path (no
/// empty, `.` or `..` piece) is its own tail.
pub open spec fn media_zip_path_spec(canonical: Seq<char>, slide_dir: Seq<char>, library: Seq<char>) -> Seq<
    char,
> {
    match rest_after(canonical, slide_dir) {
        Some(r) => "slides/"@ + text::join(r, seq!['/']),
        None => match rest_after(canonical, library) {
            Some(r) => text::join(r, seq!['/']),
            None => "media/"@ + last_component(canonical),
        },
    }
}

fn starts_with_slash(p: &str) -> (b: bool)
    ensures
        b == is_absolute(p@),
{
    let c = text::chars_of(p);
    c.len() > 0 && c[0] == '/'
}

/// The components of `p` after those of `base` (see [`rest_after`]).
fn rest_of(p: &str, base: &str) -> (r: Option<Vec<Vec<char>>>)
    ensures
        match r {
            Some(v) => rest_after(p@, base@) == Some(text::views(v@)),
            None => rest_after(p@, base@) is None,
        },
{
    let pc = components_of(p);
    let bc = components_of(base);
    if !starts_with_slash(base) || bc.len() > pc.len() {
        return None;
    }
    let mut i: usize = 0;
    while i < bc.len()
        invariant
            bc.len() <= pc.len(),
            i <= bc.len(),
            text::views(pc@) == path_components(p@),
            text::views(bc@) == path_components(base@),
            forall|k: int| 0 <= k < i ==> pc@[k]@ == bc@[k]@,
        decreases bc.len() - i,
    {
        if !text::eq_chars(pc[i].as_slice(), bc[i].as_slice()) {
            assert(text::views(pc@).take(bc.len() as int)[i as int] == pc@[i as int]@);
            assert(text::views(bc@)[i as int] == bc@[i as int]@);
            assert(text::views(pc@).take(bc.len() as int) != text::views(bc@));
            return None;
        }
        i += 1;
    }
    assert(text::views(pc@).take(bc.len() as int) =~= text::views(bc@));
    let mut out: Vec<Vec<char>> = Vec::new();
    let mut k: usize = bc.len();
    assert(text::views(out@) =~= text::views(pc@).skip(bc.len() as int).take(0));
    while k < pc.len()
        invariant
            bc.len() <= k <= pc.len(),
            text::views(out@) == text::views(pc@).skip(bc.len() as int).take(k - bc.len()),
        decreases pc.len() - k,
    {
        let ghost before = text::views(out@);
        let piece = text::slice_vec(pc[k].as_slice(), 0, pc[k].len());
        assert(pc@[k as int]@.subrange(0, pc@[k as int]@.len() as int) =~= pc@[k as int]@);
        out.push(piece);
        assert(text::views(out@) =~= before.push(pc@[k as int]@));
        k += 1;
        assert(text::views(out@) =~= text::views(pc@).skip(bc.len() as int).take(k - bc.len()));
    }
    assert(text::views(pc@).skip(bc.len() as int).take(pc.len() - bc.len()) =~= text::views(pc@).skip(
        bc.len() as int,
    ));
    Some(out)
}

/// Where a media file goes in the bundle (see [`media_zip_path_spec`]);
/// `canonical` is the file's resolved path.
pub fn bundle_media_path(canonical: &str, slide_dir: &str, library: &str) -> (r: String)
    ensures
        r@ == media_zip_path_spec(canonical@, slide_dir@, library@),
{
    let slash: Vec<char> = vec!['/'];
    assert(slash@ =~= seq!['/']);
    match rest_of(canonical, slide_dir) {
        Some(rest) => {
            let j = text::join_chars(&rest, slash.as_slice());
            let mut out = "slides/".to_string();
            let js = text::string_of(j.as_slice());
            text::append(&mut out, js.as_str());
            out
        },
        None => match rest_of(canonical, library) {
            Some(rest) => {
                let j = text::join_chars(&rest, slash.as_slice());
                text::string_of(j.as_slice())
            },
            None => {
                let cc = components_of(canonical);
                let mut out = "media/".to_string();
                if cc.len() > 0 {
                    let last = &cc[cc.len() - 1];
                    assert(text::views(cc@).last() == cc@[cc.len() - 1]@);
                    let ls = text::string_of(last.as_slice());
                    text::append(&mut out, ls.as_str());
                } else {
                    assert(last_component(canonical@) =~= Seq::<char>::empty());
                    assert(out@ =~= "media/"@ + Seq::<char>::empty());
                }
                out
            },
        },
    }
}

/// The key by which media files are ordered: the components of the path
/// joined by NUL, which sorts paths component by component as resolved
/// paths compare.
pub open spec fn path_key(p: Seq<char>) -> Seq<char> {
    text::join(path_components(p), seq!['\0'])
}

/// One media entry `(resolved path, place in the bundle)` before another.
pub open spec fn media_lt(a: (Seq<char>, Seq<char>), b: (Seq<char>, Seq<char>)) -> bool {
    text::seq_lt(path_key(a.0), path_key(b.0)) || (path_key(a.0) == path_key(b.0) && text::seq_lt(a.1, b.1))
}

/// Two media entries that are the same: the same path and place.
pub open spec fn media_same(a: (Seq<char>, Seq<char>), b: (Seq<char>, Seq<char>)) -> bool {
    path_key(a.0) == path_key(b.0) && a.1 == b.1
}

/// `x` placed into `sorted` before the first entry it precedes, unless an
/// entry the same is there already.
pub open spec fn insert_media(sorted: Seq<(Seq<char>, Seq<char>)>, x: (Seq<char>, Seq<char>)) -> Seq<
    (Seq<char>, Seq<char>),
>
    decreases sorted.len(),
{
    if sorted.len() == 0 {
        seq![x]
    } else if media_same(sorted[0], x) {
        sorted
    } else if media_lt(x, sorted[0]) {
        seq![x] + sorted
    } else {
        seq![sorted[0]] + insert_media(sorted.drop_first(), x)
    }
}

/// The media entries, sorted and without repeats.
pub open spec fn media_set_spec(m: Seq<(Seq<char>, Seq<char>)>) -> Seq<(Seq<char>, Seq<char>)>
    decreases m.len(),
{
    if m.len() == 0 {
        Seq::empty()
    } else {
        insert_media(media_set_spec(m.drop_last()), m.last())
    }
}

pub open spec fn pair_views(v: Seq<(String, String)>) -> Seq<(Seq<char>, Seq<char>)> {
    v.map_values(|p: (String, String)| (p.0@, p.1@))
}

fn key_of(p: &str) -> (k: Vec<char>)
    ensures
        k@ == path_key(p@),
{
    let cs = components_of(p);
    let nul: Vec<char> = vec!['\0'];
    assert(nul@ =~= seq!['\0']);
    text::join_chars(&cs, nul.as_slice())
}

proof fn lemma_insert_media_split(sorted: Seq<(Seq<char>, Seq<char>)>, x: (Seq<char>, Seq<char>), i: int)
    requires
        0 <= i < sorted.len(),
        !media_same(sorted[i], x),
        !media_lt(x, sorted[i]),
    ensures
        insert_media(sorted.skip(i), x) == seq![sorted[i]] + insert_media(sorted.skip(i + 1), x),
{
    assert(sorted.skip(i)[0] == sorted[i]);
    assert(sorted.skip(i).drop_first() =~= sorted.skip(i + 1));
}

/// The media entries, sorted and without repeats (see [`media_set_spec`]).
pub fn bundle_media_set(media: &[(String, String)]) -> (r: Vec<(String, String)>)
    ensures
        pair_views(r@) == media_set_spec(pair_views(media@)),
{
    let ghost mv = pair_views(media@);
    let mut out: Vec<(String, String)> = Vec::new();
    let mut i: usize = 0;
    assert(mv.take(0) =~= Seq::<(Seq<char>, Seq<char>)>::empty());
    assert(pair_views(out@) =~= Seq::<(Seq<char>, Seq<char>)>::empty());
    while i < media.len()
        invariant
            i <= media.len(),
            mv == pair_views(media@),
            pair_views(out@) == media_set_spec(mv.take(i as int)),
        decreases media.len() - i,
    {
        assert(mv.take(i + 1).drop_last() =~= mv.take(i as int));
        assert(mv.take(i + 1).last() == mv[i as int]);
        let ghost ov = pair_views(out@);
        let ghost x = mv[i as int];
        let xk = key_of(media[i].0.as_str());
        let xz = text::chars_of(media[i].1.as_str());
        let mut p: usize = 0;
        let mut same = false;
        assert(ov.skip(0) =~= ov);
        while p < out.len()
            invariant_except_break
                !same,
            invariant
                p <= out.len(),
                ov == pair_views(out@),
                x == mv[i as int],
                mv == pair_views(media@),
                i < media.len(),
                xk@ == path_key(x.0),
                xz@ == x.1,
                insert_media(ov, x) == ov.take(p as int) + insert_media(ov.skip(p as int), x),
            ensures
                p <= out.len(),
                insert_media(ov, x) == ov.take(p as int) + insert_media(ov.skip(p as int), x),
                same ==> p < out.len() && media_same(ov[p as int], x),
                !same && p < out.len() ==> media_lt(x, ov[p as int]),
            decreases out.len() - p,
        {
            let pk = key_of(out[p].0.as_str());
            let pz = text::chars_of(out[p].1.as_str());
            assert(ov[p as int] == (out@[p as int].0@, out@[p as int].1@));
            if text::eq_chars(pk.as_slice(), xk.as_slice()) && text::eq_chars(pz.as_slice(), xz.as_slice()) {
                same = true;
                break;
            }
            let lt = text::chars_lt(xk.as_slice(), pk.as_slice()) || (text::eq_chars(
                xk.as_slice(),
                pk.as_slice(),
            ) && text::chars_lt(xz.as_slice(), pz.as_slice()));
            if lt {
                break;
            }
            proof {
                lemma_insert_media_split(ov, x, p as int);
                assert(ov.take(p as int) + seq![ov[p as int]] =~= ov.take(p + 1));
                assert(ov.take(p as int) + (seq![ov[p as int]] + insert_media(ov.skip(p + 1), x)) =~= ov.take(
                    p + 1,
                ) + insert_media(ov.skip(p + 1), x));
            }
            p += 1;
        }
        if same {
            proof {
                assert(ov.skip(p as int)[0] == ov[p as int]);
                assert(ov.take(p as int) + ov.skip(p as int) =~= ov);
            }
        } else {
            let e = (media[i].0.clone(), media[i].1.clone());
            out.insert(p, e);
            proof {
                if p < ov.len() {
                    assert(ov.skip(p as int)[0] == ov[p as int]);
                    text::lemma_seq_lt_irreflexive(x.1);
                    text::lemma_seq_lt_irreflexive(path_key(x.0));
                    assert(!media_same(ov[p as int], x));
                    assert(insert_media(ov.skip(p as int), x) == seq![x] + ov.skip(p as int));
                } else {
                    assert(ov.skip(p as int) =~= Seq::<(Seq<char>, Seq<char>)>::empty());
                }
                assert(pair_views(out@) =~= ov.insert(p as int, x));
                assert(ov.take(p as int) + (seq![x] + ov.skip(p as int)) =~= ov.insert(p as int, x));
            }
        }
        i += 1;
    }
    assert(mv.take(media.len() as int) =~= mv);
    out
}

/// The layouts the slides name, in slide order.
pub open spec fn slide_layouts(slides: Seq<Slide>) -> Seq<Seq<char>>
    decreases slides.len(),
{
    if slides.len() == 0 {
        Seq::empty()
    } else {
        let prev = slide_layouts(slides.drop_last());
        match slides.last().metadata.layout {
            Some(l) => prev.push(l@),
            None => prev,
        }
    }
}

/// The layouts the slides name, sorted and without repeats.
pub fn bundle_layouts(slides: &[Slide]) -> (r: Vec<String>)
    ensures
        text::string_views(r@) == crate::show::sorted_set(slide_layouts(slides@)),
{
    let mut names: Vec<String> = Vec::new();
    let mut i: usize = 0;
    assert(slides@.take(0) =~= Seq::<Slide>::empty());
    assert(text::string_views(names@) =~= Seq::<Seq<char>>::empty());
    while i < slides.len()
        invariant
            i <= slides.len(),
            text::string_views(names@) == slide_layouts(slides@.take(i as int)),
        decreases slides.len() - i,
    {
        assert(slides@.take(i + 1).drop_last() =~= slides@.take(i as int));
        assert(slides@.take(i + 1).last() == slides@[i as int]);
        if let Some(l) = &slides[i].metadata.layout {
            let ghost before = text::string_views(names@);
            let c = l.clone();
            names.push(c);
            assert(text::string_views(names@) =~= before.push(l@));
        }
        i += 1;
    }
    assert(slides@.take(slides.len() as int) =~= slides@);
    crate::show::sort_unique(&names)
}

/// The names of a bundle's entries, in order: the manifest, the playlist,
/// each slide under `slides/`, the media set at its places, each flavor
/// file under `flavors/<flavor>/`, each layout file under `layouts/`.
pub open spec fn bundle_order_spec(
    slide_paths: Seq<Seq<char>>,
    media: Seq<(Seq<char>, Seq<char>)>,
    flavor_files: Seq<(Seq<char>, Seq<char>)>,
    layouts: Seq<Seq<char>>,
) -> Seq<Seq<char>> {
    seq!["manifest.toml"@, "playlist.toml"@] + slide_paths.map_values(|p: Seq<char>| "slides/"@ + p)
        + media_set_spec(media).map_values(|m: (Seq<char>, Seq<char>)| m.1) + flavor_files.map_values(
        |f: (Seq<char>, Seq<char>)| "flavors/"@ + f.0 + "/"@ + f.1,
    ) + layouts.map_values(|l: Seq<char>| "layouts/"@ + l + ".html"@)
}

pub open spec fn slide_paths(slides: Seq<Slide>) -> Seq<Seq<char>> {
    slides.map_values(|s: Slide| s.relative_path@)
}

fn push_joined(out: &mut Vec<String>, a: &str, b: &str, c: &str, d: &str)
    ensures
        text::string_views(final(out)@) == text::string_views(old(out)@).push(a@ + b@ + c@ + d@),
{
    let mut s = a.to_string();
    text::append(&mut s, b);
    text::append(&mut s, c);
    text::append(&mut s, d);
    let ghost before = text::string_views(out@);
    let ghost sv = s@;
    out.push(s);
    assert(text::string_views(out@) =~= before.push(sv));
}

/// The names of a bundle's entries (see [`bundle_order_spec`]). `layouts`
/// are the layouts of [`bundle_layouts`] that have a file.
pub fn bundle_entries(
    slides: &[Slide],
    media: &[(String, String)],
    flavor_files: &[(String, String)],
    layouts: &[String],
) -> (r: Vec<String>)
    ensures
        text::string_views(r@) == bundle_order_spec(
            slide_paths(slides@),
            pair_views(media@),
            pair_views(flavor_files@),
            text::string_views(layouts@),
        ),
{
    let mut out: Vec<String> = Vec::new();
    push_joined(&mut out, "manifest.toml", "", "", "");
    push_joined(&mut out, "playlist.toml", "", "", "");
    proof {
        reveal_strlit("");
        assert("manifest.toml"@ + ""@ + ""@ + ""@ =~= "manifest.toml"@);
        assert("playlist.toml"@ + ""@ + ""@ + ""@ =~= "playlist.toml"@);
    }
    let ghost h = text::string_views(out@);
    assert(h =~= seq!["manifest.toml"@, "playlist.toml"@]);
    let ghost sp = slide_paths(slides@).map_values(|p: Seq<char>| "slides/"@ + p);
    let mut i: usize = 0;
    while i < slides.len()
        invariant
            i <= slides.len(),
            sp == slide_paths(slides@).map_values(|p: Seq<char>| "slides/"@ + p),
            text::string_views(out@) == h + sp.take(i as int),
        decreases slides.len() - i,
    {
        push_joined(&mut out, "slides/", slides[i].relative_path.as_str(), "", "");
        proof {
            reveal_strlit("");
        }
        assert(sp[i as int] == "slides/"@ + slides@[i as int].relative_path@);
        assert(text::string_views(out@) =~= h + sp.take(i + 1));
        i += 1;
    }
    assert(sp.take(slides.len() as int) =~= sp);
    let set = bundle_media_set(media);
    let ghost h2 = text::string_views(out@);
    let ghost ms = media_set_spec(pair_views(media@)).map_values(|m: (Seq<char>, Seq<char>)| m.1);
    let mut k: usize = 0;
    while k < set.len()
        invariant
            k <= set.len(),
            pair_views(set@) == media_set_spec(pair_views(media@)),
            ms == media_set_spec(pair_views(media@)).map_values(|m: (Seq<char>, Seq<char>)| m.1),
            text::string_views(out@) == h2 + ms.take(k as int),
        decreases set.len() - k,
    {
        push_joined(&mut out, set[k].1.as_str(), "", "", "");
        proof {
            reveal_strlit("");
        }
        assert(pair_views(set@)[k as int] == (set@[k as int].0@, set@[k as int].1@));
        assert(ms[k as int] == set@[k as int].1@);
        assert(text::string_views(out@) =~= h2 + ms.take(k + 1));
        k += 1;
    }
    assert(ms.take(set.len() as int) =~= ms);
    let ghost h3 = text::string_views(out@);
    let ghost fs = pair_views(flavor_files@).map_values(
        |f: (Seq<char>, Seq<char>)| "flavors/"@ + f.0 + "/"@ + f.1,
    );
    let mut j: usize = 0;
    while j < flavor_files.len()
        invariant
            j <= flavor_files.len(),
            fs == pair_views(flavor_files@).map_values(|f: (Seq<char>, Seq<char>)| "flavors/"@ + f.0 + "/"@ + f.1),
            text::string_views(out@) == h3 + fs.take(j as int),
        decreases flavor_files.len() - j,
    {
        push_joined(&mut out, "flavors/", flavor_files[j].0.as_str(), "/", flavor_files[j].1.as_str());
        assert(pair_views(flavor_files@)[j as int] == (flavor_files@[j as int].0@, flavor_files@[j as int].1@));
        assert(text::string_views(out@) =~= h3 + fs.take(j + 1));
        j += 1;
    }
    assert(fs.take(flavor_files.len() as int) =~= fs);
    let ghost h4 = text::string_views(out@);
    let ghost ls = text::string_views(layouts@).map_values(|l: Seq<char>| "layouts/"@ + l + ".html"@);
    let mut m: usize = 0;
    while m < layouts.len()
        invariant
            m <= layouts.len(),
            ls == text::string_views(layouts@).map_values(|l: Seq<char>| "layouts/"@ + l + ".html"@),
            text::string_views(out@) == h4 + ls.take(m as int),
        decreases layouts.len() - m,
    {
        push_joined(&mut out, "layouts/", layouts[m].as_str(), ".html", "");
        proof {
            reveal_strlit("");
        }
        assert(text::string_views(layouts@)[m as int] == layouts@[m as int]@);
        assert(text::string_views(out@) =~= h4 + ls.take(m + 1));
        m += 1;
    }
    assert(ls.take(layouts.len() as int) =~= ls);
    out
}

/// The bundle archive: every entry deflated, in order, with the zip
/// crate's fixed date, so the bytes depend on the entries alone.
pub fn bundle_archive(entries: &[(String, Vec<u8>)]) -> (r: Result<Vec<u8>, String>)
    ensures
        match r {
            Ok(b) => deck::zip_bytes(
                Seq::empty(),
                Compression::Deflated,
                deck::byte_part_views(entries@),
                Compression::Deflated,
            ) == Ok::<Seq<u8>, Seq<char>>(b@),
            Err(e) => deck::zip_bytes(
                Seq::empty(),
                Compression::Deflated,
                deck::byte_part_views(entries@),
                Compression::Deflated,
            ) == Err::<Seq<u8>, Seq<char>>(e@),
        },
{
    let none: Vec<(String, String)> = Vec::new();
    assert(deck::text_part_views(none@) =~= Seq::<(Seq<char>, Seq<char>)>::empty());
    deck::zip_mixed(none.as_slice(), Compression::Deflated, entries, Compression::Deflated)
}

/// Bundles are deterministic: the entry names are a function of the
/// slides, media references, flavor files and layouts alone, and the
/// archive of the same entries is the same bytes (no time of day goes in).
pub proof fn lemma_bundle_deterministic(
    slides1: Seq<Slide>,
    slides2: Seq<Slide>,
    media: Seq<(Seq<char>, Seq<char>)>,
    flavor_files: Seq<(Seq<char>, Seq<char>)>,
    layouts: Seq<Seq<char>>,
    contents: Seq<Seq<u8>>,
)
    requires
        slide_paths(slides1) == slide_paths(slides2),
    ensures
        ({
            let n1 = bundle_order_spec(slide_paths(slides1), media, flavor_files, layouts);
            let n2 = bundle_order_spec(slide_paths(slides2), media, flavor_files, layouts);
            let e1 = Seq::new(n1.len(), |i: int| (n1[i], contents[i]));
            let e2 = Seq::new(n2.len(), |i: int| (n2[i], contents[i]));
            &&& n1 == n2
            &&& deck::zip_bytes(Seq::empty(), Compression::Deflated, e1, Compression::Deflated) == deck::zip_bytes(
                Seq::empty(),
                Compression::Deflated,
                e2,
                Compression::Deflated,
            )
        }),
{
    let n1 = bundle_order_spec(slide_paths(slides1), media, flavor_files, layouts);
    let n2 = bundle_order_spec(slide_paths(slides2), media, flavor_files, layouts);
    assert(Seq::new(n1.len(), |i: int| (n1[i], contents[i])) =~= Seq::new(n2.len(), |i: int| (n2[i], contents[i])));
}

} // verus!
