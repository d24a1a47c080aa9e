//! Library media: which images and videos a slide body references, the kind
//! of a media file, and which upload names are safe to store beside a slide.
//! A slide's media lives in the `media/` folder next to it and is referenced
//! relatively (`media/x.png`).
use vstd::prelude::*;
use crate::text;

verus! {

#[derive(Debug, Clone, Copy, PartialEq, Eq)]
pub enum MediaKind {
    Image,
    Video,
    Other,
}

/// One file in a media folder.
#[derive(Debug, Clone, PartialEq, Eq)]
pub struct MediaFile {
    /// Path relative to the slide directory (`genai/media/x.png`, or
    /// `../media/logo.svg` for the library-level folder).
    pub path: String,
    /// The slide folder this belongs to; empty for the library-level folder.
    pub folder: String,
    pub file_name: String,
    pub kind: MediaKind,
    pub bytes: u64,
    /// Slides (relative paths) whose body references this file.
    pub used_by: Vec<String>,
}

#[derive(Debug, Clone, Default)]
pub struct MediaIndex {
    pub files: Vec<MediaFile>,
}

pub open spec fn image_exts() -> Seq<Seq<char>> {
    seq![
        seq!['.', 'p', 'n', 'g'],
        seq!['.', 'j', 'p', 'g'],
        seq!['.', 'j', 'p', 'e', 'g'],
        seq!['.', 'g', 'i', 'f'],
        seq!['.', 'b', 'm', 'p'],
        seq!['.', 't', 'i', 'f', 'f'],
        seq!['.', 't', 'i', 'f'],
        seq!['.', 'w', 'e', 'b', 'p'],
        seq!['.', 's', 'v', 'g'],
    ]
}

pub open spec fn video_exts() -> Seq<Seq<char>> {
    seq![
        seq!['.', 'm', 'p', '4'],
        seq!['.', 'w', 'e', 'b', 'm'],
        seq!['.', 'm', 'o', 'v'],
        seq!['.', 'm', 'k', 'v'],
        seq!['.', 'a', 'v', 'i'],
        seq!['.', 'o', 'g', 'v'],
    ]
}

pub open spec fn ends_with_any(s: Seq<char>, exts: Seq<Seq<char>>) -> bool {
    exists|i: int| 0 <= i < exts.len() && text::ends_with(s, #[trigger] exts[i])
}

/// The kind of a media file by its (case-insensitive) extension.
pub open spec fn media_kind_spec(name: Seq<char>) -> MediaKind {
    let l = text::lowercase(name);
    if ends_with_any(l, image_exts()) {
        MediaKind::Image
    } else if ends_with_any(l, video_exts()) {
        MediaKind::Video
    } else {
        MediaKind::Other
    }
}

fn ext_list(video: bool) -> (r: Vec<Vec<char>>)
    ensures
        text::views(r@) == if video { video_exts() } else { image_exts() },
{
    let r: Vec<Vec<char>> = if video {
        vec![
            vec!['.', 'm', 'p', '4'],
            vec!['.', 'w', 'e', 'b', 'm'],
            vec!['.', 'm', 'o', 'v'],
            vec!['.', 'm', 'k', 'v'],
            vec!['.', 'a', 'v', 'i'],
            vec!['.', 'o', 'g', 'v'],
        ]
    } else {
        vec![
            vec!['.', 'p', 'n', 'g'],
            vec!['.', 'j', 'p', 'g'],
            vec!['.', 'j', 'p', 'e', 'g'],
            vec!['.', 'g', 'i', 'f'],
            vec!['.', 'b', 'm', 'p'],
            vec!['.', 't', 'i', 'f', 'f'],
            vec!['.', 't', 'i', 'f'],
            vec!['.', 'w', 'e', 'b', 'p'],
            vec!['.', 's', 'v', 'g'],
        ]
    };
    assert(text::views(r@) =~= if video { video_exts() } else { image_exts() });
    r
}

fn ends_with_one_of(s: &[char], exts: &Vec<Vec<char>>) -> (b: bool)
    ensures
        b == ends_with_any(s@, text::views(exts@)),
{
    let mut i: usize = 0;
    while i < exts.len()
        invariant
            i <= exts.len(),
            forall|j: int| 0 <= j < i ==> !text::ends_with(s@, #[trigger] text::views(exts@)[j]),
        decreases exts.len() - i,
    {
        if text::ends_with_chars(s, exts[i].as_slice()) {
            assert(text::views(exts@)[i as int] == exts@[i as int]@);
            return true;
        }
        i += 1;
    }
    false
}

/// The kind of a media file by its extension, case-insensitively.
pub fn media_kind(name: &str) -> (k: MediaKind)
    ensures
        k == media_kind_spec(name@),
{
    let l = text::chars_of(text::to_lowercase(name).as_str());
    if ends_with_one_of(l.as_slice(), &ext_list(false)) {
        MediaKind::Image
    } else if ends_with_one_of(l.as_slice(), &ext_list(true)) {
        MediaKind::Video
    } else {
        MediaKind::Other
    }
}

/// Unicode general category Cc (what `char::is_control` tests).
pub open spec fn is_control(c: char) -> bool {
    ('\u{0}' <= c && c <= '\u{1f}') || ('\u{7f}' <= c && c <= '\u{9f}')
}

/// A bare file name: trimmed, not empty, no leading dot, no separators, no
/// `..`, no control characters.
pub open spec fn safe_file_name_spec(name: Seq<char>) -> Option<Seq<char>> {
    let n = text::trim(name);
    if n.len() == 0 || n[0] == '.' || text::contains(n, seq!['/']) || text::contains(
        n,
        seq!['\\'],
    ) || text::contains(n, seq!['.', '.']) || exists|i: int|
        0 <= i < n.len() && is_control(#[trigger] n[i]) {
        None
    } else {
        Some(n)
    }
}

/// A bare file name: no separators, no `..`, no leading dot, not empty.
#[verifier::loop_isolation(false)]
pub fn safe_file_name(name: &str) -> (r: Option<String>)
    ensures
        match r {
            Some(s) => safe_file_name_spec(name@) == Some(s@),
            None => safe_file_name_spec(name@) is None,
        },
{
    let cv = text::chars_of(name);
    let n = text::trim_chars(cv.as_slice());
    let slash: Vec<char> = vec!['/'];
    let back: Vec<char> = vec!['\\'];
    let dots: Vec<char> = vec!['.', '.'];
    assert(slash@ =~= seq!['/']);
    assert(back@ =~= seq!['\\']);
    assert(dots@ =~= seq!['.', '.']);
    if n.len() == 0 || n[0] == '.' || text::contains_chars(n.as_slice(), slash.as_slice())
        || text::contains_chars(n.as_slice(), back.as_slice()) || text::contains_chars(
        n.as_slice(),
        dots.as_slice(),
    ) {
        return None;
    }
    let mut i: usize = 0;
    while i < n.len()
        invariant
            i <= n.len(),
            forall|j: int| 0 <= j < i ==> !is_control(#[trigger] n@[j]),
        decreases n.len() - i,
    {
        let c = n[i];
        if ('\u{0}' <= c && c <= '\u{1f}') || ('\u{7f}' <= c && c <= '\u{9f}') {
            assert(is_control(n@[i as int]));
            return None;
        }
        i += 1;
    }
    Some(text::string_of(n.as_slice()))
}

pub open spec fn http() -> Seq<char> {
    seq!['h', 't', 't', 'p', ':', '/', '/']
}

pub open spec fn https() -> Seq<char> {
    seq!['h', 't', 't', 'p', 's', ':', '/', '/']
}

pub open spec fn data_uri() -> Seq<char> {
    seq!['d', 'a', 't', 'a', ':']
}

/// A reference that names a local file: not empty, not a URL, not a data
/// URI, not absolute.
pub open spec fn is_local_ref(s: Seq<char>) -> bool {
    &&& s.len() > 0
    &&& !text::starts_with(s, http())
    &&& !text::starts_with(s, https())
    &&& !text::starts_with(s, data_uri())
    &&& !text::starts_with(s, seq!['/'])
}

/// Add a trimmed local reference unless already present.
pub open spec fn push_local_spec(out: Seq<Seq<char>>, src: Seq<char>) -> Seq<Seq<char>> {
    let s = text::trim(src);
    if !is_local_ref(s) || out.contains(s) {
        out
    } else {
        out.push(s)
    }
}

pub open spec fn push_all_local(out: Seq<Seq<char>>, srcs: Seq<Seq<char>>) -> Seq<Seq<char>>
    decreases srcs.len(),
{
    if srcs.len() == 0 {
        out
    } else {
        push_all_local(push_local_spec(out, srcs[0]), srcs.drop_first())
    }
}

pub open spec fn link_open() -> Seq<char> {
    seq![']', '(']
}

pub open spec fn image_open() -> Seq<char> {
    seq!['!', '[']
}

/// Whether the `](` at the end of `before` closes an image (`![alt`).
pub open spec fn closes_image(before: Seq<char>) -> bool {
    match text::rfind(before, image_open()) {
        Some(b) => !text::contains(before.skip(b), seq![']']),
        None => false,
    }
}

/// The sources of markdown images `![alt](src "title")` in `rest`, in order.
pub open spec fn md_image_srcs(rest: Seq<char>) -> Seq<Seq<char>>
    decreases rest.len(),
{
    match text::find(rest, link_open()) {
        None => seq![],
        Some(i) => {
            let after = rest.skip(i + 2);
            match text::find(after, seq![')']) {
                None => seq![],
                Some(end) => {
                    proof {
                        text::lemma_find_from_spec(rest, link_open(), 0);
                        text::lemma_find_from_spec(after, seq![')'], 0);
                    }
                    let src = text::first_word(text::trim(after.take(end)));
                    let tail = md_image_srcs(after.skip(end));
                    if closes_image(rest.take(i)) {
                        seq![src] + tail
                    } else {
                        tail
                    }
                },
            }
        },
    }
}

pub open spec fn src_attr() -> Seq<char> {
    seq!['s', 'r', 'c', '=', '"']
}

/// The `src="..."` values of every `needle` tag in `r`, in order.
pub open spec fn tag_srcs(r: Seq<char>, needle: Seq<char>) -> Seq<Seq<char>>
    decreases r.len(),
{
    if needle.len() == 0 {
        seq![]
    } else {
        match text::find(r, needle) {
            None => seq![],
            Some(i) => {
                proof {
                    text::lemma_find_from_spec(r, needle, 0);
                }
                let tag = r.skip(i);
                let here: Seq<Seq<char>> = match text::find(tag, src_attr()) {
                    Some(s) => {
                        let v = tag.skip(s + 5);
                        match text::find(v, seq!['"']) {
                            Some(e) => seq![v.take(e)],
                            None => seq![],
                        }
                    },
                    None => seq![],
                };
                here + tag_srcs(tag.skip(needle.len() as int), needle)
            },
        }
    }
}

pub open spec fn img_tag() -> Seq<char> {
    seq!['<', 'i', 'm', 'g']
}

pub open spec fn video_tag() -> Seq<char> {
    seq!['<', 'v', 'i', 'd', 'e', 'o']
}

pub open spec fn source_tag() -> Seq<char> {
    seq!['<', 's', 'o', 'u', 'r', 'c', 'e']
}

/// Local image/video references of a slide body: markdown images, then
/// `<img src>`, `<video src>`, `<source src>`; URLs and data URIs skipped,
/// each reference once, in order of first appearance.
pub open spec fn references_spec(body: Seq<char>) -> Seq<Seq<char>> {
    let a = push_all_local(seq![], md_image_srcs(body));
    let b = push_all_local(a, tag_srcs(body, img_tag()));
    let c = push_all_local(b, tag_srcs(body, video_tag()));
    push_all_local(c, tag_srcs(body, source_tag()))
}


fn has_ref(out: &Vec<Vec<char>>, s: &[char]) -> (b: bool)
    ensures
        b == text::views(out@).contains(s@),
{
    let mut i: usize = 0;
    while i < out.len()
        invariant
            i <= out.len(),
            forall|j: int| 0 <= j < i ==> text::views(out@)[j] != s@,
        decreases out.len() - i,
    {
        if text::eq_chars(out[i].as_slice(), s) {
            assert(text::views(out@)[i as int] == s@);
            return true;
        }
        i += 1;
    }
    false
}

fn local_ref(s: &[char]) -> (b: bool)
    ensures
        b == is_local_ref(s@),
{
    let h: Vec<char> = vec!['h', 't', 't', 'p', ':', '/', '/'];
    let hs: Vec<char> = vec!['h', 't', 't', 'p', 's', ':', '/', '/'];
    let d: Vec<char> = vec!['d', 'a', 't', 'a', ':'];
    let sl: Vec<char> = vec!['/'];
    assert(h@ =~= http());
    assert(hs@ =~= https());
    assert(d@ =~= data_uri());
    assert(sl@ =~= seq!['/']);
    s.len() > 0 && !text::starts_with_chars(s, h.as_slice()) && !text::starts_with_chars(
        s,
        hs.as_slice(),
    ) && !text::starts_with_chars(s, d.as_slice()) && !text::starts_with_chars(s, sl.as_slice())
}

fn push_local(out: &mut Vec<Vec<char>>, src: &[char])
    ensures
        text::views(final(out)@) == push_local_spec(text::views(old(out)@), src@),
{
    let s = text::trim_chars(src);
    if local_ref(s.as_slice()) && !has_ref(out, s.as_slice()) {
        let ghost before = out@;
        out.push(s);
        assert(text::views(out@) =~= text::views(before).push(s@));
    }
}

fn push_md_image_refs(out: &mut Vec<Vec<char>>, rest: &[char])
    ensures
        text::views(final(out)@) == push_all_local(text::views(old(out)@), md_image_srcs(rest@)),
    decreases rest.len(),
{
    let lo: Vec<char> = vec![']', '('];
    assert(lo@ =~= link_open());
    let close: Vec<char> = vec![')'];
    assert(close@ =~= seq![')']);
    match text::find_chars(rest, lo.as_slice()) {
        None => {},
        Some(i) => {
            proof {
                text::lemma_find_from_spec(rest@, link_open(), 0);
            }
            let after = text::slice_vec(rest, i + 2, rest.len());
            assert(after@ =~= rest@.skip(i + 2));
            match text::find_chars(after.as_slice(), close.as_slice()) {
                None => {},
                Some(end) => {
                    proof {
                        text::lemma_find_from_spec(after@, seq![')'], 0);
                    }
                    let inner = text::slice_vec(after.as_slice(), 0, end);
                    assert(inner@ =~= after@.take(end as int));
                    let trimmed = text::trim_chars(inner.as_slice());
                    let src = text::first_word_chars(trimmed.as_slice());
                    let before = text::slice_vec(rest, 0, i);
                    assert(before@ =~= rest@.take(i as int));
                    let io: Vec<char> = vec!['!', '['];
                    assert(io@ =~= image_open());
                    let rb: Vec<char> = vec![']'];
                    assert(rb@ =~= seq![']']);
                    let is_img = match text::rfind_chars(before.as_slice(), io.as_slice()) {
                        Some(b) => {
                            proof {
                                text::lemma_rfind_upto_spec(
                                    before@,
                                    image_open(),
                                    before@.len() - image_open().len(),
                                );
                            }
                            let tail_b = text::slice_vec(before.as_slice(), b, before.len());
                            assert(tail_b@ =~= before@.skip(b as int));
                            !text::contains_chars(tail_b.as_slice(), rb.as_slice())
                        },
                        None => false,
                    };
                    let rest2 = text::slice_vec(after.as_slice(), end, after.len());
                    assert(rest2@ =~= after@.skip(end as int));
                    let ghost out0 = text::views(out@);
                    if is_img {
                        push_local(out, src.as_slice());
                        assert((seq![src@] + md_image_srcs(rest2@)).drop_first() =~= md_image_srcs(rest2@));
                    }
                    push_md_image_refs(out, rest2.as_slice());
                },
            }
        },
    }
}

fn push_tag_refs(out: &mut Vec<Vec<char>>, r: &[char], needle: &[char])
    requires
        needle@.len() > 0,
    ensures
        text::views(final(out)@) == push_all_local(text::views(old(out)@), tag_srcs(r@, needle@)),
    decreases r.len(),
{
    match text::find_chars(r, needle) {
        None => {},
        Some(i) => {
            proof {
                text::lemma_find_from_spec(r@, needle@, 0);
            }
            let tag = text::slice_vec(r, i, r.len());
            assert(tag@ =~= r@.skip(i as int));
            let sa: Vec<char> = vec!['s', 'r', 'c', '=', '"'];
            assert(sa@ =~= src_attr());
            let q: Vec<char> = vec!['"'];
            assert(q@ =~= seq!['"']);
            let ghost here: Seq<Seq<char>> = match text::find(tag@, src_attr()) {
                Some(s) => {
                    let v = tag@.skip(s + 5);
                    match text::find(v, seq!['"']) {
                        Some(e) => seq![v.take(e)],
                        None => seq![],
                    }
                },
                None => seq![],
            };
            let ghost out0 = text::views(out@);
            match text::find_chars(tag.as_slice(), sa.as_slice()) {
                Some(s) => {
                    proof {
                        text::lemma_find_from_spec(tag@, src_attr(), 0);
                    }
                    let v = text::slice_vec(tag.as_slice(), s + 5, tag.len());
                    assert(v@ =~= tag@.skip(s + 5));
                    match text::find_chars(v.as_slice(), q.as_slice()) {
                        Some(e) => {
                            proof {
                                text::lemma_find_from_spec(v@, seq!['"'], 0);
                            }
                            let val = text::slice_vec(v.as_slice(), 0, e);
                            assert(val@ =~= v@.take(e as int));
                            push_local(out, val.as_slice());
                            assert(push_all_local(out0, here) == push_local_spec(out0, val@)) by {
                                assert(here =~= seq![val@]);
                                assert(here.drop_first() =~= Seq::<Seq<char>>::empty());
                                assert(push_all_local(push_local_spec(out0, val@), Seq::<Seq<char>>::empty())
                                    == push_local_spec(out0, val@));
                            }
                        },
                        None => {
                            assert(push_all_local(out0, here) == out0);
                        },
                    }
                },
                None => {
                    assert(push_all_local(out0, here) == out0);
                },
            }
            let rest = text::slice_vec(tag.as_slice(), needle.len(), tag.len());
            assert(rest@ =~= tag@.skip(needle@.len() as int));
            proof {
                lemma_push_all_local_concat(out0, here, tag_srcs(rest@, needle@));
            }
            push_tag_refs(out, rest.as_slice(), needle);
        },
    }
}

/// Pushing the references of `a + b` is pushing those of `a`, then of `b`.
pub proof fn lemma_push_all_local_concat(
    out: Seq<Seq<char>>,
    a: Seq<Seq<char>>,
    b: Seq<Seq<char>>,
)
    ensures
        push_all_local(out, a + b) == push_all_local(push_all_local(out, a), b),
    decreases a.len(),
{
    if a.len() > 0 {
        assert((a + b).drop_first() =~= a.drop_first() + b);
        lemma_push_all_local_concat(push_local_spec(out, a[0]), a.drop_first(), b);
    } else {
        assert(a + b =~= b);
    }
}

/// Local image/video references in a slide body: `![alt](src)`,
/// `<img src>`, `<video src>`, `<source src>`. URLs and data URIs are
/// skipped; each reference is listed once, in order of first appearance.
pub fn references(body: &str) -> (r: Vec<String>)
    ensures
        text::string_views(r@) == references_spec(body@),
{
    let b = text::chars_of(body);
    let mut out: Vec<Vec<char>> = Vec::new();
    assert(text::views(out@) =~= Seq::<Seq<char>>::empty());
    push_md_image_refs(&mut out, b.as_slice());
    let img: Vec<char> = vec!['<', 'i', 'm', 'g'];
    assert(img@ =~= img_tag());
    push_tag_refs(&mut out, b.as_slice(), img.as_slice());
    let video: Vec<char> = vec!['<', 'v', 'i', 'd', 'e', 'o'];
    assert(video@ =~= video_tag());
    push_tag_refs(&mut out, b.as_slice(), video.as_slice());
    let source: Vec<char> = vec!['<', 's', 'o', 'u', 'r', 'c', 'e'];
    assert(source@ =~= source_tag());
    push_tag_refs(&mut out, b.as_slice(), source.as_slice());
    text::strings_of(&out)
}

/// The components left of a Unix path after lexical cleaning, walking
/// `pieces` onto `stack`: empty and `.` pieces vanish, `..` drops the
/// component before it (nothing above the start).
pub open spec fn clean_pieces(stack: Seq<Seq<char>>, pieces: Seq<Seq<char>>) -> Seq<Seq<char>>
    decreases pieces.len(),
{
    if pieces.len() == 0 {
        stack
    } else {
        let p = pieces[0];
        let next = if p.len() == 0 || p == seq!['.'] {
            stack
        } else if p == seq!['.', '.'] {
            if stack.len() > 0 {
                stack.drop_last()
            } else {
                stack
            }
        } else {
            stack.push(p)
        };
        clean_pieces(next, pieces.drop_first())
    }
}

/// A cleaned path: whether it is absolute, and its components.
pub type CleanPath = (bool, Seq<Seq<char>>);

/// `p` lexically cleaned.
pub open spec fn cleaned(p: Seq<char>) -> CleanPath {
    (text::starts_with(p, seq!['/']), clean_pieces(Seq::empty(), crate::package::split_on(p, '/')))
}

/// `p` joined onto `dir` (an absolute `p` replaces it), lexically cleaned.
pub open spec fn joined_clean(dir: Seq<char>, p: Seq<char>) -> CleanPath {
    if text::starts_with(p, seq!['/']) {
        cleaned(p)
    } else {
        (
            text::starts_with(dir, seq!['/']),
            clean_pieces(Seq::empty(), crate::package::split_on(dir, '/') + crate::package::split_on(p, '/')),
        )
    }
}

/// A cleaned path written out.
pub open spec fn render(c: CleanPath) -> Seq<char> {
    (if c.0 {
        seq!['/']
    } else {
        Seq::empty()
    }) + text::join(c.1, seq!['/'])
}

/// Where a listed media path may point: inside the slide directory, in a
/// folder named `media`; or directly in the library media folder.
pub open spec fn listed_target(slide_dir: Seq<char>, library_media: Seq<char>, path: Seq<char>) -> Option<Seq<char>> {
    let a = joined_clean(slide_dir, path);
    let d = cleaned(slide_dir);
    let l = cleaned(library_media);
    let in_slides = a.0 == d.0 && d.1.len() <= a.1.len() && a.1.take(d.1.len() as int) == d.1 && a.1.len() >= 2
        && a.1[a.1.len() - 2] == seq!['m', 'e', 'd', 'i', 'a'];
    let in_library = a.1.len() >= 1 && a.0 == l.0 && a.1.drop_last() == l.1;
    if in_slides || in_library {
        Some(render(a))
    } else {
        None
    }
}

/// Walk `pieces` onto `stack` (see [`clean_pieces`]).
fn clean_exec(pieces: &Vec<Vec<char>>) -> (r: Vec<Vec<char>>)
    ensures
        text::views(r@) == clean_pieces(Seq::empty(), text::views(pieces@)),
{
    let ghost all = text::views(pieces@);
    let mut stack: Vec<Vec<char>> = Vec::new();
    let mut i: usize = 0;
    assert(text::views(stack@) =~= Seq::<Seq<char>>::empty());
    assert(all.skip(0) =~= all);
    while i < pieces.len()
        invariant
            i <= pieces.len(),
            all == text::views(pieces@),
            clean_pieces(Seq::empty(), all) == clean_pieces(text::views(stack@), all.skip(i as int)),
        decreases pieces.len() - i,
    {
        let p = &pieces[i];
        assert(all.skip(i as int)[0] == p@);
        assert(all.skip(i as int).drop_first() =~= all.skip(i + 1));
        let ghost before = text::views(stack@);
        let dot = p.len() == 1 && p[0] == '.';
        let dots = p.len() == 2 && p[0] == '.' && p[1] == '.';
        proof {
            if p@.len() == 1 {
                assert(dot == (p@ == seq!['.'])) by {
                    if p@ == seq!['.'] {
                        assert(p@[0] == '.');
                    }
                    if dot {
                        assert(p@ =~= seq!['.']);
                    }
                }
            } else {
                assert(p@ != seq!['.']);
            }
            if p@.len() == 2 {
                assert(dots == (p@ == seq!['.', '.'])) by {
                    if p@ == seq!['.', '.'] {
                        assert(p@[0] == '.' && p@[1] == '.');
                    }
                    if dots {
                        assert(p@ =~= seq!['.', '.']);
                    }
                }
            } else {
                assert(p@ != seq!['.', '.']);
            }
        }
        if p.len() == 0 || dot {
        } else if dots {
            if stack.len() > 0 {
                stack.pop();
                assert(text::views(stack@) =~= before.drop_last());
            }
        } else {
            let q = text::slice_vec(p.as_slice(), 0, p.len());
            assert(q@ =~= p@);
            stack.push(q);
            assert(text::views(stack@) =~= before.push(p@));
        }
        i += 1;
    }
    assert(all.skip(pieces.len() as int) =~= Seq::<Seq<char>>::empty());
    stack
}

/// The pieces of a path split at `/`.
fn pieces_of(p: &[char]) -> (r: Vec<Vec<char>>)
    ensures
        text::views(r@) == crate::package::split_on(p@, '/'),
{
    crate::package::split_chars(p, '/')
}

/// Whether two component lists are equal.
fn same_parts(a: &[Vec<char>], b: &[Vec<char>]) -> (r: bool)
    ensures
        r == (text::views(a@) == text::views(b@)),
{
    if a.len() != b.len() {
        assert(text::views(a@).len() != text::views(b@).len());
        return false;
    }
    let mut i: usize = 0;
    while i < a.len()
        invariant
            i <= a.len(),
            a.len() == b.len(),
            forall|k: int| 0 <= k < i ==> text::views(a@)[k] == text::views(b@)[k],
        decreases a.len() - i,
    {
        if !text::eq_chars(a[i].as_slice(), b[i].as_slice()) {
            assert(text::views(a@)[i as int] != text::views(b@)[i as int]);
            return false;
        }
        i += 1;
    }
    assert(text::views(a@) =~= text::views(b@));
    true
}

/// The path a listed media path resolves to, when it stays inside the
/// slide directory's `media` folders or the library media folder (see
/// [`listed_target`]). Paths are Unix strings; whether a file is there is
/// for the caller to check.
pub fn resolve_listed(slide_dir: &str, library_media: &str, path: &str) -> (r: Option<String>)
    ensures
        match r {
            Some(p) => listed_target(slide_dir@, library_media@, path@) == Some(p@),
            None => listed_target(slide_dir@, library_media@, path@) is None,
        },
{
    let dc = text::chars_of(slide_dir);
    let pc = text::chars_of(path);
    let lc = text::chars_of(library_media);
    let slash: Vec<char> = vec!['/'];
    assert(slash@ =~= seq!['/']);
    let d_abs = text::starts_with_chars(dc.as_slice(), slash.as_slice());
    let l_abs = text::starts_with_chars(lc.as_slice(), slash.as_slice());
    let d_pieces = pieces_of(dc.as_slice());
    let (a_abs, a) = joined_clean_exec(dc.as_slice(), pc.as_slice());
    let d = clean_exec(&d_pieces);
    let lp = pieces_of(lc.as_slice());
    let l = clean_exec(&lp);
    let ghost av = text::views(a@);
    let ghost dv = text::views(d@);
    assert(joined_clean(slide_dir@, path@) == (a_abs, av));
    let ghost lv = text::views(l@);
    assert(cleaned(slide_dir@) == (d_abs, dv));
    assert(cleaned(library_media@) == (l_abs, lv));
    let mut in_slides = false;
    if a_abs == d_abs && d.len() <= a.len() && a.len() >= 2 {
        let head = &a.as_slice()[0..d.len()];
        assert(text::views(head@) =~= av.take(d.len() as int));
        if same_parts(head, d.as_slice()) {
            let media: Vec<char> = vec!['m', 'e', 'd', 'i', 'a'];
            assert(media@ =~= seq!['m', 'e', 'd', 'i', 'a']);
            assert(av[a.len() - 2] == a@[a.len() - 2]@);
            in_slides = text::eq_chars(a[a.len() - 2].as_slice(), media.as_slice());
        }
    }
    let mut in_library = false;
    if a.len() >= 1 && a_abs == l_abs {
        let front = &a.as_slice()[0..a.len() - 1];
        assert(text::views(front@) =~= av.drop_last());
        in_library = same_parts(front, l.as_slice());
    }
    if in_slides || in_library {
        let sep: Vec<char> = vec!['/'];
        assert(sep@ =~= seq!['/']);
        let joined = text::join_chars(&a, sep.as_slice());
        let mut out: Vec<char> = Vec::new();
        if a_abs {
            out.push('/');
        }
        text::push_all(&mut out, joined.as_slice());
        assert(out@ =~= render((a_abs, av)));
        Some(text::string_of(out.as_slice()))
    } else {
        None
    }
}

/// The pieces `ps[i..]` of a path that `Path::components` keeps as
/// components: every non-empty piece but `.`, except a `.` that leads a
/// relative path (`lead`).
pub open spec fn comps_from(ps: Seq<Seq<char>>, i: int, lead: bool) -> Seq<Seq<char>>
    decreases ps.len() - i,
{
    if i < 0 || i >= ps.len() {
        Seq::empty()
    } else if ps[i].len() > 0 && (ps[i] != seq!['.'] || (i == 0 && lead)) {
        seq![ps[i]] + comps_from(ps, i + 1, lead)
    } else {
        comps_from(ps, i + 1, lead)
    }
}

/// Whether a Unix path is absolute.
pub open spec fn is_abs(p: Seq<char>) -> bool {
    text::starts_with(p, seq!['/'])
}

/// The components of a Unix path, without its root.
pub open spec fn path_comps(p: Seq<char>) -> Seq<Seq<char>> {
    comps_from(crate::package::split_on(p, '/'), 0, !is_abs(p))
}

/// The components of a Unix path with its root, written as an empty
/// component (which no other component is).
pub open spec fn full_comps(p: Seq<char>) -> Seq<Seq<char>> {
    (if is_abs(p) {
        seq![Seq::<char>::empty()]
    } else {
        Seq::empty()
    }) + path_comps(p)
}

/// The file name of a path: its last component, unless that is `..` (or
/// a lone `.`); empty when there is none.
pub open spec fn file_name_of(p: Seq<char>) -> Seq<char> {
    let c = path_comps(p);
    if c.len() == 0 || c.last() == seq!['.', '.'] || c.last() == seq!['.'] {
        Seq::empty()
    } else {
        c.last()
    }
}

/// `/` for every `\\`.
pub open spec fn forward_slashes(s: Seq<char>) -> Seq<char> {
    s.map_values(|c: char| if c == '\\' { '/' } else { c })
}

/// The slide folder of a media folder: the path of its parent below the
/// slide directory; empty when it has no parent or lies elsewhere.
pub open spec fn rel_folder(folder: Seq<char>, slide_dir: Seq<char>) -> Seq<char> {
    let c = path_comps(folder);
    let parent = (if is_abs(folder) {
        seq![Seq::<char>::empty()]
    } else {
        Seq::empty()
    }) + c.drop_last();
    let base = full_comps(slide_dir);
    if c.len() > 0 && base.len() <= parent.len() && parent.take(base.len() as int) == base {
        forward_slashes(text::join(parent.skip(base.len() as int), seq!['/']))
    } else {
        Seq::empty()
    }
}

/// A cleaned path as a sequence of components, its root first as an empty
/// component: the order `Path` sorts by.
pub open spec fn key_comps(k: CleanPath) -> Seq<Seq<char>> {
    (if k.0 {
        seq![Seq::<char>::empty()]
    } else {
        Seq::empty()
    }) + k.1
}

/// Component sequences in lexicographic order.
pub open spec fn comps_lt(a: Seq<Seq<char>>, b: Seq<Seq<char>>) -> bool
    decreases a.len(),
{
    if b.len() == 0 {
        false
    } else if a.len() == 0 {
        true
    } else if a[0] != b[0] {
        text::seq_lt(a[0], b[0])
    } else {
        comps_lt(a.drop_first(), b.drop_first())
    }
}

/// A listed media file before usage: its cleaned path, the path as
/// listed, its slide folder, its name and its size.
pub struct EntryView {
    pub key: CleanPath,
    pub path: Seq<char>,
    pub folder: Seq<char>,
    pub name: Seq<char>,
    pub bytes: u64,
}

/// `e` put into `m` by key order; an entry with the same key is replaced.
pub open spec fn put_entry(m: Seq<EntryView>, e: EntryView) -> Seq<EntryView>
    decreases m.len(),
{
    if m.len() == 0 {
        seq![e]
    } else if m.last().key == e.key {
        m.drop_last().push(e)
    } else if comps_lt(key_comps(m.last().key), key_comps(e.key)) {
        m.push(e)
    } else {
        put_entry(m.drop_last(), e).push(m.last())
    }
}

/// A file found on disk: its path and size in bytes.
pub type FoundFile = (Seq<char>, u64);

/// The entries of the files of one media folder put into `m`.
pub open spec fn put_folder(m: Seq<EntryView>, slide_dir: Seq<char>, folder: Seq<char>, files: Seq<FoundFile>) -> Seq<
    EntryView,
>
    decreases files.len(),
{
    if files.len() == 0 {
        m
    } else {
        let rel = rel_folder(folder, slide_dir);
        let (path, bytes) = files.last();
        let name = file_name_of(path);
        let listed = if rel.len() == 0 {
            "media/"@ + name
        } else {
            rel + "/media/"@ + name
        };
        put_entry(
            put_folder(m, slide_dir, folder, files.drop_last()),
            EntryView { key: cleaned(path), path: listed, folder: rel, name, bytes },
        )
    }
}

/// The entries of every slide media folder, folder by folder.
pub open spec fn put_folders(m: Seq<EntryView>, slide_dir: Seq<char>, folders: Seq<(Seq<char>, Seq<FoundFile>)>) -> Seq<
    EntryView,
>
    decreases folders.len(),
{
    if folders.len() == 0 {
        m
    } else {
        let (folder, files) = folders.last();
        put_folder(put_folders(m, slide_dir, folders.drop_last()), slide_dir, folder, files)
    }
}

/// The entries of the library media folder's files.
pub open spec fn put_library(m: Seq<EntryView>, files: Seq<FoundFile>) -> Seq<EntryView>
    decreases files.len(),
{
    if files.len() == 0 {
        m
    } else {
        let (path, bytes) = files.last();
        let name = file_name_of(path);
        put_entry(
            put_library(m, files.drop_last()),
            EntryView { key: cleaned(path), path: "../media/"@ + name, folder: Seq::empty(), name, bytes },
        )
    }
}

/// Where reference `r` of the slide at `path` points, cleaned: resolved
/// against the slide's folder (the slide directory when the path has no
/// parent).
pub open spec fn ref_key(slide_dir: Seq<char>, path: Seq<char>, r: Seq<char>) -> CleanPath {
    let c = path_comps(path);
    if is_abs(r) {
        cleaned(r)
    } else if c.len() > 0 {
        (is_abs(path), clean_pieces(Seq::empty(), c.drop_last() + crate::package::split_on(r, '/')))
    } else {
        joined_clean(slide_dir, r)
    }
}

/// Some reference of the slide points at `key`.
pub open spec fn slide_uses(slide_dir: Seq<char>, s: crate::slide::Slide, key: CleanPath) -> bool {
    exists|j: int|
        0 <= j < references_spec(s.content@).len() && ref_key(slide_dir, s.path@, #[trigger] references_spec(
            s.content@,
        )[j]) == key
}

/// The slides (relative paths, in order, each once) some reference of
/// which points at `key`.
pub open spec fn users(slide_dir: Seq<char>, slides: Seq<crate::slide::Slide>, key: CleanPath) -> Seq<Seq<char>>
    decreases slides.len(),
{
    if slides.len() == 0 {
        Seq::empty()
    } else {
        let before = users(slide_dir, slides.drop_last(), key);
        let s = slides.last();
        if slide_uses(slide_dir, s, key) && !before.contains(s.relative_path@) {
            before.push(s.relative_path@)
        } else {
            before
        }
    }
}

fn is_dot(p: &[char]) -> (b: bool)
    ensures
        b == (p@ == seq!['.']),
{
    let b = p.len() == 1 && p[0] == '.';
    proof {
        if p@ == seq!['.'] {
            assert(p@[0] == '.');
        }
        if b {
            assert(p@ =~= seq!['.']);
        }
    }
    b
}

fn is_dot_dot(p: &[char]) -> (b: bool)
    ensures
        b == (p@ == seq!['.', '.']),
{
    let b = p.len() == 2 && p[0] == '.' && p[1] == '.';
    proof {
        if p@ == seq!['.', '.'] {
            assert(p@[0] == '.' && p@[1] == '.');
        }
        if b {
            assert(p@ =~= seq!['.', '.']);
        }
    }
    b
}

fn copy_chars(v: &Vec<char>) -> (r: Vec<char>)
    ensures
        r@ == v@,
{
    let r = text::slice_vec(v.as_slice(), 0, v.len());
    assert(r@ =~= v@);
    r
}

/// The components of a path without its root (see [`path_comps`]).
fn path_comps_exec(p: &[char]) -> (r: Vec<Vec<char>>)
    ensures
        text::views(r@) == path_comps(p@),
{
    let slash: Vec<char> = vec!['/'];
    assert(slash@ =~= seq!['/']);
    let lead = !text::starts_with_chars(p, slash.as_slice());
    let ps = pieces_of(p);
    let ghost pv = text::views(ps@);
    let mut out: Vec<Vec<char>> = Vec::new();
    let mut i: usize = ps.len();
    assert(text::views(out@) =~= Seq::<Seq<char>>::empty());
    while i > 0
        invariant
            i <= ps.len(),
            pv == text::views(ps@),
            lead == !is_abs(p@),
            text::views(out@) == comps_from(pv, i as int, lead),
        decreases i,
    {
        i -= 1;
        let q = &ps[i];
        assert(pv[i as int] == q@);
        let keep = q.len() > 0 && (!is_dot(q.as_slice()) || (i == 0 && lead));
        if keep {
            let ghost before = text::views(out@);
            out.insert(0, copy_chars(q));
            assert(text::views(out@) =~= seq![q@] + before);
        }
    }
    out
}

/// The file name of a path (see [`file_name_of`]).
fn file_name_exec(p: &[char]) -> (r: Vec<char>)
    ensures
        r@ == file_name_of(p@),
{
    let c = path_comps_exec(p);
    if c.len() == 0 {
        return Vec::new();
    }
    let last = &c[c.len() - 1];
    assert(text::views(c@).last() == last@);
    if is_dot_dot(last.as_slice()) || is_dot(last.as_slice()) {
        Vec::new()
    } else {
        copy_chars(last)
    }
}

/// Copies of the components `c[from..to]`.
fn comps_range(c: &Vec<Vec<char>>, from: usize, to: usize) -> (r: Vec<Vec<char>>)
    requires
        from <= to <= c.len(),
    ensures
        text::views(r@) == text::views(c@).subrange(from as int, to as int),
{
    let mut out: Vec<Vec<char>> = Vec::new();
    let mut k: usize = from;
    assert(text::views(out@) =~= text::views(c@).subrange(from as int, from as int));
    while k < to
        invariant
            from <= k <= to <= c.len(),
            text::views(out@) == text::views(c@).subrange(from as int, k as int),
        decreases to - k,
    {
        let ghost before = text::views(out@);
        out.push(copy_chars(&c[k]));
        assert(text::views(out@) =~= before.push(c@[k as int]@));
        k += 1;
        assert(text::views(out@) =~= text::views(c@).subrange(from as int, k as int));
    }
    out
}

/// The components of a path with its root (see [`full_comps`]).
fn full_comps_exec(p: &[char]) -> (r: Vec<Vec<char>>)
    ensures
        text::views(r@) == full_comps(p@),
{
    let slash: Vec<char> = vec!['/'];
    assert(slash@ =~= seq!['/']);
    let c = path_comps_exec(p);
    let mut out: Vec<Vec<char>> = Vec::new();
    if text::starts_with_chars(p, slash.as_slice()) {
        out.push(Vec::new());
    }
    let ghost head = text::views(out@);
    assert(head =~= (if is_abs(p@) {
        seq![Seq::<char>::empty()]
    } else {
        Seq::<Seq<char>>::empty()
    }));
    let mut k: usize = 0;
    assert(text::views(out@) =~= head + text::views(c@).take(0));
    while k < c.len()
        invariant
            k <= c.len(),
            text::views(out@) == head + text::views(c@).take(k as int),
        decreases c.len() - k,
    {
        let ghost before = text::views(out@);
        out.push(copy_chars(&c[k]));
        assert(text::views(out@) =~= before.push(c@[k as int]@));
        k += 1;
        assert(text::views(out@) =~= head + text::views(c@).take(k as int));
    }
    assert(text::views(c@).take(c.len() as int) =~= text::views(c@));
    out
}

/// `/` for every `\\` (see [`forward_slashes`]).
fn forward_slashes_exec(s: &[char]) -> (r: Vec<char>)
    ensures
        r@ == forward_slashes(s@),
{
    let mut out: Vec<char> = Vec::new();
    let mut i: usize = 0;
    while i < s.len()
        invariant
            i <= s.len(),
            out@ == forward_slashes(s@.take(i as int)),
        decreases s.len() - i,
    {
        let c = s[i];
        out.push(if c == '\\' { '/' } else { c });
        i += 1;
        assert(out@ =~= forward_slashes(s@.take(i as int)));
    }
    assert(s@.take(s.len() as int) =~= s@);
    out
}

/// The slide folder of a media folder (see [`rel_folder`]).
fn rel_folder_exec(folder: &[char], slide_dir: &[char]) -> (r: Vec<char>)
    ensures
        r@ == rel_folder(folder@, slide_dir@),
{
    let slash: Vec<char> = vec!['/'];
    assert(slash@ =~= seq!['/']);
    let c = path_comps_exec(folder);
    if c.len() == 0 {
        return Vec::new();
    }
    let full = full_comps_exec(folder);
    let ghost fv = text::views(full@);
    let ghost head = if is_abs(folder@) {
        seq![Seq::<char>::empty()]
    } else {
        Seq::<Seq<char>>::empty()
    };
    assert(fv == head + text::views(c@));
    assert(fv.len() == full.len());
    assert(text::views(c@).len() == c.len());
    let parent = comps_range(&full, 0, full.len() - 1);
    assert(text::views(parent@) =~= head + text::views(c@).drop_last());
    let base = full_comps_exec(slide_dir);
    if base.len() > parent.len() {
        return Vec::new();
    }
    let front = comps_range(&parent, 0, base.len());
    assert(text::views(front@) =~= text::views(parent@).take(base.len() as int));
    if !same_parts(front.as_slice(), base.as_slice()) {
        return Vec::new();
    }
    let rest = comps_range(&parent, base.len(), parent.len());
    assert(text::views(rest@) =~= text::views(parent@).skip(base.len() as int));
    let joined = text::join_chars(&rest, slash.as_slice());
    forward_slashes_exec(joined.as_slice())
}

/// Whether component sequence `a` comes before `b` (see [`comps_lt`]).
fn comps_lt_exec(a: &[Vec<char>], b: &[Vec<char>]) -> (r: bool)
    ensures
        r == comps_lt(text::views(a@), text::views(b@)),
{
    let ghost av = text::views(a@);
    let ghost bv = text::views(b@);
    let mut i: usize = 0;
    assert(av.skip(0) =~= av);
    assert(bv.skip(0) =~= bv);
    while i < a.len() && i < b.len() && text::eq_chars(a[i].as_slice(), b[i].as_slice())
        invariant
            i <= a.len(),
            i <= b.len(),
            av == text::views(a@),
            bv == text::views(b@),
            comps_lt(av, bv) == comps_lt(av.skip(i as int), bv.skip(i as int)),
        decreases a.len() - i,
    {
        assert(av.skip(i as int)[0] == av[i as int]);
        assert(bv.skip(i as int)[0] == bv[i as int]);
        assert(av.skip(i as int).drop_first() =~= av.skip(i + 1));
        assert(bv.skip(i as int).drop_first() =~= bv.skip(i + 1));
        i += 1;
    }
    if i == b.len() {
        false
    } else if i == a.len() {
        true
    } else {
        assert(av.skip(i as int)[0] == av[i as int]);
        assert(bv.skip(i as int)[0] == bv[i as int]);
        text::chars_lt(a[i].as_slice(), b[i].as_slice())
    }
}

/// A listed media file before usage.
struct Entry {
    abs: bool,
    key: Vec<Vec<char>>,
    path: String,
    folder: String,
    name: String,
    bytes: u64,
}

impl Entry {
    spec fn view(&self) -> EntryView {
        EntryView {
            key: (self.abs, text::views(self.key@)),
            path: self.path@,
            folder: self.folder@,
            name: self.name@,
            bytes: self.bytes,
        }
    }
}

spec fn entry_views(v: Seq<Entry>) -> Seq<EntryView> {
    v.map_values(|e: Entry| e.view())
}

/// The component sequence of a cleaned path (see [`key_comps`]).
fn key_comps_exec(abs: bool, key: &Vec<Vec<char>>) -> (r: Vec<Vec<char>>)
    ensures
        text::views(r@) == key_comps((abs, text::views(key@))),
{
    let mut out: Vec<Vec<char>> = Vec::new();
    if abs {
        out.push(Vec::new());
    }
    let ghost head = text::views(out@);
    let mut k: usize = 0;
    assert(text::views(out@) =~= head + text::views(key@).take(0));
    while k < key.len()
        invariant
            k <= key.len(),
            text::views(out@) == head + text::views(key@).take(k as int),
        decreases key.len() - k,
    {
        let ghost before = text::views(out@);
        out.push(copy_chars(&key[k]));
        assert(text::views(out@) =~= before.push(key@[k as int]@));
        k += 1;
        assert(text::views(out@) =~= head + text::views(key@).take(k as int));
    }
    assert(text::views(key@).take(key.len() as int) =~= text::views(key@));
    assert(text::views(out@) =~= key_comps((abs, text::views(key@))));
    out
}

/// Put an entry into `m` by key order (see [`put_entry`]).
fn put_entry_exec(m: &mut Vec<Entry>, e: Entry)
    ensures
        entry_views(final(m)@) == put_entry(entry_views(old(m)@), e.view()),
{
    let ghost v = entry_views(m@);
    let ghost ev = e.view();
    let ek = key_comps_exec(e.abs, &e.key);
    let mut j: usize = m.len();
    assert(v.take(j as int) =~= v);
    assert(v.skip(j as int) =~= Seq::<EntryView>::empty());
    while j > 0
        invariant
            j <= m.len(),
            v == entry_views(m@),
            v == entry_views(old(m)@),
            ev == e.view(),
            text::views(ek@) == key_comps(ev.key),
            put_entry(v, ev) == put_entry(v.take(j as int), ev) + v.skip(j as int),
        decreases j,
    {
        let t = &m[j - 1];
        let ghost tv = v.take(j as int);
        assert(tv.last() == v[j - 1]);
        assert(tv.drop_last() =~= v.take(j - 1));
        assert(v[j - 1] == t.view());
        let same = t.abs == e.abs && same_parts(t.key.as_slice(), e.key.as_slice());
        assert(same == (v[j - 1].key == ev.key));
        if same {
            assert(put_entry(tv, ev) == v.take(j - 1).push(ev));
            m.set(j - 1, e);
            assert(entry_views(m@) =~= v.take(j - 1).push(ev) + v.skip(j as int));
            return;
        }
        let tk = key_comps_exec(t.abs, &t.key);
        if comps_lt_exec(tk.as_slice(), ek.as_slice()) {
            assert(put_entry(tv, ev) == tv.push(ev));
            m.insert(j, e);
            assert(entry_views(m@) =~= v.take(j as int).push(ev) + v.skip(j as int));
            return;
        }
        assert(put_entry(tv, ev) == put_entry(v.take(j - 1), ev).push(v[j - 1]));
        assert(put_entry(v.take(j - 1), ev).push(v[j - 1]) + v.skip(j as int) =~= put_entry(v.take(j - 1), ev)
            + v.skip(j - 1));
        j -= 1;
    }
    m.insert(0, e);
    assert(entry_views(m@) =~= seq![ev] + v);
}

/// A cleaned path (see [`cleaned`]).
fn cleaned_exec(p: &[char]) -> (r: (bool, Vec<Vec<char>>))
    ensures
        (r.0, text::views(r.1@)) == cleaned(p@),
{
    let slash: Vec<char> = vec!['/'];
    assert(slash@ =~= seq!['/']);
    let abs = text::starts_with_chars(p, slash.as_slice());
    let ps = pieces_of(p);
    (abs, clean_exec(&ps))
}

/// Found files as plain values.
pub open spec fn found_views(v: Seq<(String, u64)>) -> Seq<FoundFile> {
    v.map_values(|f: (String, u64)| (f.0@, f.1))
}

/// Media folders as plain values.
pub open spec fn folder_views(v: Seq<(String, Vec<(String, u64)>)>) -> Seq<(Seq<char>, Seq<FoundFile>)> {
    v.map_values(|f: (String, Vec<(String, u64)>)| (f.0@, found_views(f.1@)))
}

/// Put the entries of one slide media folder into `m` (see
/// [`put_folder`]).
fn put_folder_exec(m: &mut Vec<Entry>, slide_dir: &[char], folder: &str, files: &Vec<(String, u64)>)
    ensures
        entry_views(final(m)@) == put_folder(entry_views(old(m)@), slide_dir@, folder@, found_views(files@)),
{
    let fc = text::chars_of(folder);
    let rel = rel_folder_exec(fc.as_slice(), slide_dir);
    let ghost fv = found_views(files@);
    let mut i: usize = 0;
    assert(fv.take(0) =~= Seq::<FoundFile>::empty());
    while i < files.len()
        invariant
            i <= files.len(),
            fv == found_views(files@),
            rel@ == rel_folder(folder@, slide_dir@),
            entry_views(m@) == put_folder(entry_views(old(m)@), slide_dir@, folder@, fv.take(i as int)),
        decreases files.len() - i,
    {
        let (path, bytes) = &files[i];
        assert(fv.take(i + 1).drop_last() =~= fv.take(i as int));
        assert(fv.take(i + 1).last() == (path@, *bytes));
        let pc = text::chars_of(path.as_str());
        let name = file_name_exec(pc.as_slice());
        let mut listed: Vec<char> = Vec::new();
        if rel.len() > 0 {
            text::push_all(&mut listed, rel.as_slice());
            text::push_str(&mut listed, "/media/");
        } else {
            text::push_str(&mut listed, "media/");
        }
        text::push_all(&mut listed, name.as_slice());
        let (abs, key) = cleaned_exec(pc.as_slice());
        let e = Entry {
            abs,
            key,
            path: text::string_of(listed.as_slice()),
            folder: text::string_of(rel.as_slice()),
            name: text::string_of(name.as_slice()),
            bytes: *bytes,
        };
        put_entry_exec(m, e);
        i += 1;
    }
    assert(fv.take(files.len() as int) =~= fv);
}

/// Put the entries of the library media folder into `m` (see
/// [`put_library`]).
fn put_library_exec(m: &mut Vec<Entry>, files: &Vec<(String, u64)>)
    ensures
        entry_views(final(m)@) == put_library(entry_views(old(m)@), found_views(files@)),
{
    let ghost fv = found_views(files@);
    let mut i: usize = 0;
    assert(fv.take(0) =~= Seq::<FoundFile>::empty());
    while i < files.len()
        invariant
            i <= files.len(),
            fv == found_views(files@),
            entry_views(m@) == put_library(entry_views(old(m)@), fv.take(i as int)),
        decreases files.len() - i,
    {
        let (path, bytes) = &files[i];
        assert(fv.take(i + 1).drop_last() =~= fv.take(i as int));
        assert(fv.take(i + 1).last() == (path@, *bytes));
        let pc = text::chars_of(path.as_str());
        let name = file_name_exec(pc.as_slice());
        let mut listed: Vec<char> = Vec::new();
        text::push_str(&mut listed, "../media/");
        text::push_all(&mut listed, name.as_slice());
        let (abs, key) = cleaned_exec(pc.as_slice());
        let e = Entry {
            abs,
            key,
            path: text::string_of(listed.as_slice()),
            folder: String::new(),
            name: text::string_of(name.as_slice()),
            bytes: *bytes,
        };
        put_entry_exec(m, e);
        i += 1;
    }
    assert(fv.take(files.len() as int) =~= fv);
}

/// A path joined onto a directory and cleaned (see [`joined_clean`]).
fn joined_clean_exec(dir: &[char], p: &[char]) -> (r: (bool, Vec<Vec<char>>))
    ensures
        (r.0, text::views(r.1@)) == joined_clean(dir@, p@),
{
    let slash: Vec<char> = vec!['/'];
    assert(slash@ =~= seq!['/']);
    if text::starts_with_chars(p, slash.as_slice()) {
        return cleaned_exec(p);
    }
    let d_abs = text::starts_with_chars(dir, slash.as_slice());
    let mut both = pieces_of(dir);
    let p_pieces = pieces_of(p);
    let ghost dv = text::views(both@);
    let mut j: usize = 0;
    assert(dv + text::views(p_pieces@).take(0) =~= dv);
    while j < p_pieces.len()
        invariant
            j <= p_pieces.len(),
            text::views(both@) == dv + text::views(p_pieces@).take(j as int),
        decreases p_pieces.len() - j,
    {
        let ghost before = text::views(both@);
        both.push(copy_chars(&p_pieces[j]));
        assert(text::views(both@) =~= before.push(p_pieces@[j as int]@));
        j += 1;
        assert(text::views(both@) =~= dv + text::views(p_pieces@).take(j as int));
    }
    assert(text::views(p_pieces@).take(p_pieces.len() as int) =~= text::views(p_pieces@));
    (d_abs, clean_exec(&both))
}

/// Where reference `r` of the slide at `path` points (see [`ref_key`]).
fn ref_key_exec(slide_dir: &[char], path: &[char], r: &[char]) -> (k: (bool, Vec<Vec<char>>))
    ensures
        (k.0, text::views(k.1@)) == ref_key(slide_dir@, path@, r@),
{
    let slash: Vec<char> = vec!['/'];
    assert(slash@ =~= seq!['/']);
    if text::starts_with_chars(r, slash.as_slice()) {
        return cleaned_exec(r);
    }
    let c = path_comps_exec(path);
    if c.len() == 0 {
        return joined_clean_exec(slide_dir, r);
    }
    let mut both = comps_range(&c, 0, c.len() - 1);
    assert(text::views(both@) =~= text::views(c@).drop_last());
    let rp = pieces_of(r);
    let ghost head = text::views(both@);
    let mut j: usize = 0;
    assert(head + text::views(rp@).take(0) =~= head);
    while j < rp.len()
        invariant
            j <= rp.len(),
            text::views(both@) == head + text::views(rp@).take(j as int),
        decreases rp.len() - j,
    {
        let ghost before = text::views(both@);
        both.push(copy_chars(&rp[j]));
        assert(text::views(both@) =~= before.push(rp@[j as int]@));
        j += 1;
        assert(text::views(both@) =~= head + text::views(rp@).take(j as int));
    }
    assert(text::views(rp@).take(rp.len() as int) =~= text::views(rp@));
    let abs = text::starts_with_chars(path, slash.as_slice());
    (abs, clean_exec(&both))
}

spec fn key_views(v: Seq<(bool, Vec<Vec<char>>)>) -> Seq<CleanPath> {
    v.map_values(|k: (bool, Vec<Vec<char>>)| (k.0, text::views(k.1@)))
}

/// Where each reference of a slide points.
fn slide_keys(slide_dir: &[char], s: &crate::slide::Slide) -> (r: Vec<(bool, Vec<Vec<char>>)>)
    ensures
        key_views(r@) == references_spec(s.content@).map_values(|x: Seq<char>| ref_key(slide_dir@, s.path@, x)),
{
    let refs = references(s.content.as_str());
    let ghost rv = text::string_views(refs@);
    let pc = text::chars_of(s.path.as_str());
    let mut out: Vec<(bool, Vec<Vec<char>>)> = Vec::new();
    let mut j: usize = 0;
    assert(key_views(out@) =~= rv.map_values(|x: Seq<char>| ref_key(slide_dir@, s.path@, x)).take(0));
    while j < refs.len()
        invariant
            j <= refs.len(),
            rv == text::string_views(refs@),
            rv == references_spec(s.content@),
            pc@ == s.path@,
            key_views(out@) == rv.map_values(|x: Seq<char>| ref_key(slide_dir@, s.path@, x)).take(j as int),
        decreases refs.len() - j,
    {
        let rc = text::chars_of(refs[j].as_str());
        let k = ref_key_exec(slide_dir, pc.as_slice(), rc.as_slice());
        let ghost before = key_views(out@);
        let ghost kv: CleanPath = (k.0, text::views(k.1@));
        out.push(k);
        assert(key_views(out@) =~= before.push(kv));
        j += 1;
        assert(key_views(out@) =~= rv.map_values(|x: Seq<char>| ref_key(slide_dir@, s.path@, x)).take(j as int));
    }
    assert(rv.map_values(|x: Seq<char>| ref_key(slide_dir@, s.path@, x)).take(refs.len() as int) =~= rv.map_values(
        |x: Seq<char>| ref_key(slide_dir@, s.path@, x),
    ));
    out
}

/// Whether some key of `keys` is `(abs, key)`.
fn has_key(keys: &Vec<(bool, Vec<Vec<char>>)>, abs: bool, key: &Vec<Vec<char>>) -> (b: bool)
    ensures
        b == exists|j: int| 0 <= j < keys@.len() && #[trigger] key_views(keys@)[j] == (abs, text::views(key@)),
{
    let mut j: usize = 0;
    while j < keys.len()
        invariant
            j <= keys.len(),
            forall|i: int| 0 <= i < j ==> #[trigger] key_views(keys@)[i] != (abs, text::views(key@)),
        decreases keys.len() - j,
    {
        let same = keys[j].0 == abs && same_parts(keys[j].1.as_slice(), key.as_slice());
        assert(key_views(keys@)[j as int] == (keys@[j as int].0, text::views(keys@[j as int].1@)));
        if same {
            return true;
        }
        j += 1;
    }
    false
}

/// A listed media file as plain values.
pub struct MediaFileView {
    pub path: Seq<char>,
    pub folder: Seq<char>,
    pub file_name: Seq<char>,
    pub kind: MediaKind,
    pub bytes: u64,
    pub used_by: Seq<Seq<char>>,
}

impl MediaFile {
    pub open spec fn view(&self) -> MediaFileView {
        MediaFileView {
            path: self.path@,
            folder: self.folder@,
            file_name: self.file_name@,
            kind: self.kind,
            bytes: self.bytes,
            used_by: text::string_views(self.used_by@),
        }
    }
}

pub open spec fn media_file_views(v: Seq<MediaFile>) -> Seq<MediaFileView> {
    v.map_values(|f: MediaFile| f.view())
}

/// The media index: the files of every slide media folder and of the
/// library media folder (when there is one), in the order of their cleaned
/// paths (a later file with the same cleaned path replacing an earlier
/// one), each with its kind, its size and the slides that reference it.
pub open spec fn media_index_spec(
    slide_dir: Seq<char>,
    folders: Seq<(Seq<char>, Seq<FoundFile>)>,
    library: Option<Seq<FoundFile>>,
    slides: Seq<crate::slide::Slide>,
) -> Seq<MediaFileView> {
    let m = put_folders(Seq::empty(), slide_dir, folders);
    let all = match library {
        Some(fs) => put_library(m, fs),
        None => m,
    };
    all.map_values(
        |e: EntryView|
            MediaFileView {
                path: e.path,
                folder: e.folder,
                file_name: e.name,
                kind: media_kind_spec(e.name),
                bytes: e.bytes,
                used_by: users(slide_dir, slides, e.key),
            },
    )
}

/// The slides that use the file at `(abs, key)` (see [`users`]).
fn users_exec(
    slide_dir: &[char],
    slides: &Vec<crate::slide::Slide>,
    keys: &Vec<Vec<(bool, Vec<Vec<char>>)>>,
    abs: bool,
    key: &Vec<Vec<char>>,
) -> (r: Vec<String>)
    requires
        keys.len() == slides.len(),
        forall|k: int|
            0 <= k < slides.len() ==> key_views(#[trigger] keys@[k]@) == references_spec(slides@[k].content@).map_values(
                |x: Seq<char>| ref_key(slide_dir@, slides@[k].path@, x),
            ),
    ensures
        text::string_views(r@) == users(slide_dir@, slides@, (abs, text::views(key@))),
{
    let ghost kv: CleanPath = (abs, text::views(key@));
    let mut out: Vec<String> = Vec::new();
    let mut i: usize = 0;
    assert(slides@.take(0) =~= Seq::<crate::slide::Slide>::empty());
    assert(text::string_views(out@) =~= Seq::<Seq<char>>::empty());
    while i < slides.len()
        invariant
            i <= slides.len(),
            keys.len() == slides.len(),
            kv == (abs, text::views(key@)),
            forall|k: int|
                0 <= k < slides.len() ==> key_views(#[trigger] keys@[k]@) == references_spec(
                    slides@[k].content@,
                ).map_values(|x: Seq<char>| ref_key(slide_dir@, slides@[k].path@, x)),
            text::string_views(out@) == users(slide_dir@, slides@.take(i as int), kv),
        decreases slides.len() - i,
    {
        let s = &slides[i];
        assert(slides@.take(i + 1).drop_last() =~= slides@.take(i as int));
        assert(slides@.take(i + 1).last() == slides@[i as int]);
        let uses = has_key(&keys[i], abs, key);
        let ghost ks = key_views(keys@[i as int]@);
        let ghost rs = references_spec(s.content@);
        assert(uses == slide_uses(slide_dir@, *s, kv)) by {
            if uses {
                let j = choose|j: int| 0 <= j < keys@[i as int]@.len() && #[trigger] ks[j] == kv;
                assert(ks[j] == ref_key(slide_dir@, s.path@, rs[j]));
            }
            if slide_uses(slide_dir@, *s, kv) {
                let j = choose|j: int| 0 <= j < rs.len() && ref_key(slide_dir@, s.path@, #[trigger] rs[j]) == kv;
                assert(ks[j] == kv);
            }
        }
        if uses && !seen_string(&out, &s.relative_path) {
            let ghost before = text::string_views(out@);
            out.push(s.relative_path.clone());
            assert(text::string_views(out@) =~= before.push(s.relative_path@));
        }
        i += 1;
    }
    assert(slides@.take(slides.len() as int) =~= slides@);
    out
}

/// Whether `v` holds `x`.
fn seen_string(v: &Vec<String>, x: &String) -> (b: bool)
    ensures
        b == text::string_views(v@).contains(x@),
{
    let mut i: usize = 0;
    while i < v.len()
        invariant
            i <= v.len(),
            forall|k: int| 0 <= k < i ==> text::string_views(v@)[k] != x@,
        decreases v.len() - i,
    {
        if v[i] == *x {
            assert(text::string_views(v@)[i as int] == x@);
            return true;
        }
        i += 1;
    }
    false
}

/// The media index of a library (see [`media_index_spec`]): `folders` are
/// the `media` folders found under the slide directory, each with its
/// files and their sizes; `library` the files of the library media folder
/// when it exists.
pub fn list_media(
    slide_dir: &str,
    folders: &Vec<(String, Vec<(String, u64)>)>,
    library: Option<&Vec<(String, u64)>>,
    slides: &crate::slide::SlideCollection,
) -> (r: MediaIndex)
    ensures
        media_file_views(r.files@) == media_index_spec(
            slide_dir@,
            folder_views(folders@),
            match library {
                Some(l) => Some(found_views(l@)),
                None => None,
            },
            slides.slides@,
        ),
{
    let sd = text::chars_of(slide_dir);
    let ghost fv = folder_views(folders@);
    let mut m: Vec<Entry> = Vec::new();
    assert(entry_views(m@) =~= Seq::<EntryView>::empty());
    let mut i: usize = 0;
    assert(fv.take(0) =~= Seq::<(Seq<char>, Seq<FoundFile>)>::empty());
    while i < folders.len()
        invariant
            i <= folders.len(),
            sd@ == slide_dir@,
            fv == folder_views(folders@),
            entry_views(m@) == put_folders(Seq::empty(), slide_dir@, fv.take(i as int)),
        decreases folders.len() - i,
    {
        assert(fv.take(i + 1).drop_last() =~= fv.take(i as int));
        assert(fv.take(i + 1).last() == (folders@[i as int].0@, found_views(folders@[i as int].1@)));
        put_folder_exec(&mut m, sd.as_slice(), folders[i].0.as_str(), &folders[i].1);
        i += 1;
    }
    assert(fv.take(folders.len() as int) =~= fv);
    if let Some(l) = library {
        put_library_exec(&mut m, l);
    }
    let ghost ev = entry_views(m@);
    let mut keys: Vec<Vec<(bool, Vec<Vec<char>>)>> = Vec::new();
    let mut k: usize = 0;
    while k < slides.slides.len()
        invariant
            k <= slides.slides.len(),
            sd@ == slide_dir@,
            keys.len() == k,
            forall|j: int|
                0 <= j < k ==> key_views(#[trigger] keys@[j]@) == references_spec(
                    slides.slides@[j].content@,
                ).map_values(|x: Seq<char>| ref_key(slide_dir@, slides.slides@[j].path@, x)),
        decreases slides.slides.len() - k,
    {
        keys.push(slide_keys(sd.as_slice(), &slides.slides[k]));
        k += 1;
    }
    let mut files: Vec<MediaFile> = Vec::new();
    let mut e: usize = 0;
    while e < m.len()
        invariant
            e <= m.len(),
            sd@ == slide_dir@,
            ev == entry_views(m@),
            keys.len() == slides.slides.len(),
            forall|j: int|
                0 <= j < slides.slides.len() ==> key_views(#[trigger] keys@[j]@) == references_spec(
                    slides.slides@[j].content@,
                ).map_values(|x: Seq<char>| ref_key(slide_dir@, slides.slides@[j].path@, x)),
            media_file_views(files@) == ev.take(e as int).map_values(
                |x: EntryView|
                    MediaFileView {
                        path: x.path,
                        folder: x.folder,
                        file_name: x.name,
                        kind: media_kind_spec(x.name),
                        bytes: x.bytes,
                        used_by: users(slide_dir@, slides.slides@, x.key),
                    },
            ),
        decreases m.len() - e,
    {
        let en = &m[e];
        assert(ev[e as int] == en.view());
        let used_by = users_exec(sd.as_slice(), &slides.slides, &keys, en.abs, &en.key);
        let f = MediaFile {
            path: en.path.clone(),
            folder: en.folder.clone(),
            file_name: en.name.clone(),
            kind: media_kind(en.name.as_str()),
            bytes: en.bytes,
            used_by,
        };
        let ghost before = media_file_views(files@);
        files.push(f);
        assert(media_file_views(files@) =~= before.push(f.view()));
        e += 1;
        assert(ev.take(e as int) =~= ev.take(e - 1).push(ev[e - 1]));
        assert(media_file_views(files@) =~= ev.take(e as int).map_values(
            |x: EntryView|
                MediaFileView {
                    path: x.path,
                    folder: x.folder,
                    file_name: x.name,
                    kind: media_kind_spec(x.name),
                    bytes: x.bytes,
                    used_by: users(slide_dir@, slides.slides@, x.key),
                },
        ));
    }
    assert(ev.take(m.len() as int) =~= ev);
    MediaIndex { files }
}

/// References that are all local and each listed once.
pub open spec fn local_and_distinct(refs: Seq<Seq<char>>) -> bool {
    &&& forall|k: int| 0 <= k < refs.len() ==> is_local_ref(#[trigger] refs[k])
    &&& forall|i: int, j: int| 0 <= i < j < refs.len() ==> #[trigger] refs[i] != #[trigger] refs[j]
}

proof fn lemma_push_all_local_keeps(out: Seq<Seq<char>>, srcs: Seq<Seq<char>>)
    requires
        local_and_distinct(out),
    ensures
        local_and_distinct(push_all_local(out, srcs)),
    decreases srcs.len(),
{
    if srcs.len() > 0 {
        let next = push_local_spec(out, srcs[0]);
        let t = text::trim(srcs[0]);
        if is_local_ref(t) && !out.contains(t) {
            assert forall|i: int, j: int| 0 <= i < j < next.len() implies #[trigger] next[i] != #[trigger] next[j] by {
                if j == out.len() {
                    assert(next[i] == out[i]);
                    assert(out.contains(out[i]));
                } else {
                    assert(next[i] == out[i] && next[j] == out[j]);
                }
            }
            assert forall|k: int| 0 <= k < next.len() implies is_local_ref(#[trigger] next[k]) by {
                if k < out.len() {
                    assert(next[k] == out[k]);
                }
            }
        }
        lemma_push_all_local_keeps(next, srcs.drop_first());
    }
}

/// The references found in a slide body are all local (no URL, data URI
/// or absolute path, never empty), each listed once.
pub proof fn lemma_references_local_and_distinct(body: Seq<char>)
    ensures
        local_and_distinct(references_spec(body)),
{
    let e: Seq<Seq<char>> = seq![];
    lemma_push_all_local_keeps(e, md_image_srcs(body));
    let a = push_all_local(e, md_image_srcs(body));
    lemma_push_all_local_keeps(a, tag_srcs(body, img_tag()));
    let b = push_all_local(a, tag_srcs(body, img_tag()));
    lemma_push_all_local_keeps(b, tag_srcs(body, video_tag()));
    let c = push_all_local(b, tag_srcs(body, video_tag()));
    lemma_push_all_local_keeps(c, tag_srcs(body, source_tag()));
}

/// Each slide is listed at most once among the users of a media file.
pub proof fn lemma_users_distinct(slide_dir: Seq<char>, slides: Seq<crate::slide::Slide>, key: CleanPath)
    ensures
        forall|i: int, j: int|
            0 <= i < j < users(slide_dir, slides, key).len() ==> #[trigger] users(slide_dir, slides, key)[i]
                != #[trigger] users(slide_dir, slides, key)[j],
    decreases slides.len(),
{
    if slides.len() > 0 {
        lemma_users_distinct(slide_dir, slides.drop_last(), key);
        let before = users(slide_dir, slides.drop_last(), key);
        let r = users(slide_dir, slides, key);
        assert forall|i: int, j: int| 0 <= i < j < r.len() implies #[trigger] r[i] != #[trigger] r[j] by {
            if j < before.len() {
                assert(r[i] == before[i] && r[j] == before[j]);
            } else {
                assert(r[i] == before[i]);
                assert(before.contains(before[i]));
            }
        }
    }
}

} // verus!
