//! A bounded, inert reader of OPC packages (the zip container of a PPTX):
//! safe part names, relationship part paths, and relationship targets
//! resolved inside the package without ever leaving it.
use vstd::prelude::*;
use crate::report::{Disposition, Finding, FindingView, Report, finding_views, severity_of};
use crate::text;
use crate::xml::{AttrView, NodeView, XmlDoc, attr_value, attr_views, has_tag, node_views};

verus! {

broadcast use vstd::string::group_string_axioms;

/// A character never allowed in a part name or relationship target.
pub open spec fn unsafe_char(c: char) -> bool {
    c == '\\' || c == ':' || c == '\0' || c == '%' || c == '?' || c == '#'
}

/// `s` split at every `c` (an empty string is one empty piece).
pub open spec fn split_on(s: Seq<char>, c: char) -> Seq<Seq<char>>
    decreases s.len(),
{
    let i = text::index_of(s, c, 0);
    if i >= s.len() {
        seq![s]
    } else {
        proof {
            text::lemma_index_of(s, c, 0);
        }
        seq![s.take(i)] + split_on(s.skip(i + 1), c)
    }
}

/// A safe part name: not empty, no unsafe character, and every
/// `/`-separated piece neither empty nor `.` nor `..`.
pub open spec fn safe_part_spec(path: Seq<char>) -> bool {
    &&& path.len() > 0
    &&& forall|i: int| 0 <= i < path.len() ==> !unsafe_char(#[trigger] path[i])
    &&& forall|k: int|
        0 <= k < split_on(path, '/').len() ==> {
            let p = #[trigger] split_on(path, '/')[k];
            p.len() > 0 && p != seq!['.'] && p != seq!['.', '.']
        }
}

fn has_unsafe_char(s: &[char]) -> (b: bool)
    ensures
        b == exists|i: int| 0 <= i < s@.len() && unsafe_char(#[trigger] s@[i]),
{
    let mut i: usize = 0;
    while i < s.len()
        invariant
            i <= s.len(),
            forall|k: int| 0 <= k < i ==> !unsafe_char(#[trigger] s@[k]),
        decreases s.len() - i,
    {
        let c = s[i];
        if c == '\\' || c == ':' || c == '\0' || c == '%' || c == '?' || c == '#' {
            assert(unsafe_char(s@[i as int]));
            return true;
        }
        i += 1;
    }
    false
}

/// The pieces of `s` split at `c`.
pub fn split_chars(s: &[char], c: char) -> (r: Vec<Vec<char>>)
    ensures
        text::views(r@) == split_on(s@, c),
    decreases s.len(),
{
    let i = text::index_of_char(s, c, 0);
    proof {
        text::lemma_index_of(s@, c, 0);
    }
    if i >= s.len() {
        let mut r: Vec<Vec<char>> = Vec::new();
        r.push(text::slice_vec(s, 0, s.len()));
        assert(s@.subrange(0, s@.len() as int) =~= s@);
        assert(text::views(r@) =~= seq![s@]);
        return r;
    }
    let head = text::slice_vec(s, 0, i);
    let tail = text::slice_vec(s, i + 1, s.len());
    assert(tail@ =~= s@.skip(i + 1));
    let rest = split_chars(tail.as_slice(), c);
    let mut r: Vec<Vec<char>> = Vec::new();
    r.push(head);
    let mut k: usize = 0;
    assert(text::views(r@) =~= seq![s@.take(i as int)] + text::views(rest@).take(0));
    while k < rest.len()
        invariant
            k <= rest.len(),
            text::views(r@) == seq![s@.take(i as int)] + text::views(rest@).take(k as int),
        decreases rest.len() - k,
    {
        let ghost before = text::views(r@);
        let piece = text::slice_vec(rest[k].as_slice(), 0, rest[k].len());
        assert(piece@ =~= rest@[k as int]@);
        r.push(piece);
        assert(text::views(r@) =~= before.push(rest@[k as int]@));
        k += 1;
        assert(text::views(r@) =~= seq![s@.take(i as int)] + text::views(rest@).take(k as int));
    }
    assert(text::views(rest@).take(rest.len() as int) =~= text::views(rest@));
    r
}

/// Whether a part name is safe (see [`safe_part_spec`]).
pub fn safe_part(path: &str) -> (b: bool)
    ensures
        b == safe_part_spec(path@),
{
    let p = text::chars_of(path);
    if p.len() == 0 || has_unsafe_char(p.as_slice()) {
        return false;
    }
    let pieces = split_chars(p.as_slice(), '/');
    let ghost sp = split_on(p@, '/');
    let mut k: usize = 0;
    while k < pieces.len()
        invariant
            k <= pieces.len(),
            text::views(pieces@) == sp,
            sp == split_on(path@, '/'),
            forall|j: int|
                0 <= j < k ==> {
                    let q = #[trigger] sp[j];
                    q.len() > 0 && q != seq!['.'] && q != seq!['.', '.']
                },
        decreases pieces.len() - k,
    {
        let q = &pieces[k];
        assert(q@ == sp[k as int]);
        if q.len() == 0 || (q.len() == 1 && q[0] == '.') || (q.len() == 2 && q[0] == '.' && q[1] == '.') {
            proof {
                if q@.len() == 1 {
                    assert(q@ =~= seq!['.']);
                }
                if q@.len() == 2 {
                    assert(q@ =~= seq!['.', '.']);
                }
            }
            return false;
        }
        assert(q@ != seq!['.']);
        assert(q@ != seq!['.', '.']);
        k += 1;
    }
    true
}

pub open spec fn rels_dir() -> Seq<char> {
    "/_rels/"@
}

pub open spec fn rels_ext() -> Seq<char> {
    ".rels"@
}

/// The relationship part of `owner`: `dir/_rels/name.rels` for
/// `dir/name`, `_rels/owner.rels` for a top-level owner.
pub open spec fn rels_path_spec(owner: Seq<char>) -> Seq<char> {
    match text::rfind(owner, seq!['/']) {
        Some(i) => owner.take(i) + rels_dir() + owner.skip(i + 1) + rels_ext(),
        None => "_rels/"@ + owner + rels_ext(),
    }
}

/// The relationship part of `owner` (see [`rels_path_spec`]).
pub fn rels_path(owner: &str) -> (r: String)
    ensures
        r@ == rels_path_spec(owner@),
{
    let o = text::chars_of(owner);
    let mut out: Vec<char> = Vec::new();
    match text::rfind_char(o.as_slice(), '/') {
        Some(i) => {
            let dir = text::slice_vec(o.as_slice(), 0, i);
            let name = text::slice_vec(o.as_slice(), i + 1, o.len());
            text::push_all(&mut out, dir.as_slice());
            text::push_str(&mut out, "/_rels/");
            text::push_all(&mut out, name.as_slice());
            text::push_str(&mut out, ".rels");
            assert(out@ =~= rels_path_spec(owner@));
        },
        None => {
            text::push_str(&mut out, "_rels/");
            text::push_all(&mut out, o.as_slice());
            text::push_str(&mut out, ".rels");
            assert(out@ =~= rels_path_spec(owner@));
        },
    }
    text::string_of(out.as_slice())
}

pub open spec fn root_rels_part() -> Seq<char> {
    "_rels/.rels"@
}

/// The owner of a relationship part: none for `_rels/.rels` (the package
/// itself); `dir/name` for `dir/_rels/name.rels` (at the last `/_rels/`);
/// otherwise the part is no relationship part.
pub open spec fn owner_path_spec(path: Seq<char>) -> Result<Seq<char>, Seq<char>> {
    if path == root_rels_part() {
        Ok(Seq::empty())
    } else {
        match text::rfind(path, rels_dir()) {
            None => Err("invalid relationship part path"@),
            Some(i) => {
                let name = path.skip(i + 7);
                if text::ends_with(name, rels_ext()) {
                    Ok(path.take(i) + seq!['/'] + name.take(name.len() - 5))
                } else {
                    Err("invalid rel suffix"@)
                }
            },
        }
    }
}

/// The owner of a relationship part (see [`owner_path_spec`]).
pub fn owner_path(path: &str) -> (r: Result<String, String>)
    ensures
        match r {
            Ok(o) => owner_path_spec(path@) == Ok::<Seq<char>, Seq<char>>(o@),
            Err(e) => owner_path_spec(path@) == Err::<Seq<char>, Seq<char>>(e@),
        },
{
    let p = text::chars_of(path);
    let root = text::chars_of("_rels/.rels");
    if text::eq_chars(p.as_slice(), root.as_slice()) {
        return Ok(String::new());
    }
    let rd = text::chars_of("/_rels/");
    proof {
        reveal_strlit("/_rels/");
        reveal_strlit(".rels");
    }
    assert(rd@.len() == 7);
    match text::rfind_chars(p.as_slice(), rd.as_slice()) {
        None => Err("invalid relationship part path".to_string()),
        Some(i) => {
            proof {
                text::lemma_rfind_upto_spec(p@, rd@, p@.len() - rd@.len());
            }
            assert(text::occurs_at(p@, rd@, i as int));
            assert(i + 7 <= p.len());
            let name = text::slice_vec(p.as_slice(), i + 7, p.len());
            assert(name@ =~= p@.skip(i + 7));
            let ext = text::chars_of(".rels");
            if text::ends_with_chars(name.as_slice(), ext.as_slice()) {
                let mut out = text::slice_vec(p.as_slice(), 0, i);
                out.push('/');
                let stem = text::slice_vec(name.as_slice(), 0, name.len() - 5);
                text::push_all(&mut out, stem.as_slice());
                assert(out@ =~= p@.take(i as int) + seq!['/'] + name@.take(name@.len() - 5));
                Ok(text::string_of(out.as_slice()))
            } else {
                Err("invalid rel suffix".to_string())
            }
        },
    }
}

pub open spec fn unsafe_target(target: Seq<char>) -> Seq<char> {
    "unsafe relationship target "@ + target
}

pub open spec fn traversal_error() -> Seq<char> {
    "relationship traversal beyond package root"@
}

pub open spec fn empty_component_error() -> Seq<char> {
    "empty relationship path component"@
}

/// The directory pieces of a part name: everything before its last `/`,
/// split at `/` (none for a top-level part).
pub open spec fn owner_dir_pieces(owner: Seq<char>) -> Seq<Seq<char>> {
    match text::rfind(owner, seq!['/']) {
        Some(i) => split_on(owner.take(i), '/'),
        None => Seq::empty(),
    }
}

/// Walk path pieces from `stack`: `..` goes up (an error above the package
/// root), `.` stays, an empty piece is an error, anything else goes down.
pub open spec fn walk(stack: Seq<Seq<char>>, pieces: Seq<Seq<char>>) -> Result<Seq<Seq<char>>, Seq<char>>
    decreases pieces.len(),
{
    if pieces.len() == 0 {
        Ok(stack)
    } else {
        let p = pieces[0];
        if p == seq!['.', '.'] {
            if stack.len() == 0 {
                Err(traversal_error())
            } else {
                walk(stack.drop_last(), pieces.drop_first())
            }
        } else if p == seq!['.'] {
            walk(stack, pieces.drop_first())
        } else if p.len() == 0 {
            Err(empty_component_error())
        } else {
            walk(stack.push(p), pieces.drop_first())
        }
    }
}

/// A relationship target resolved against its owner part: refused when it
/// holds an unsafe character; an absolute target starts at the package
/// root, a relative one in the owner's directory; the pieces are walked
/// (see [`walk`]) and the result must be a safe part name.
pub open spec fn resolve_spec(owner: Seq<char>, target: Seq<char>) -> Result<Seq<char>, Seq<char>> {
    if exists|i: int| 0 <= i < target.len() && unsafe_char(#[trigger] target[i]) {
        Err(unsafe_target(target))
    } else {
        let start = if text::starts_with(target, seq!['/']) {
            Seq::empty()
        } else {
            owner_dir_pieces(owner)
        };
        match walk(start, split_on(crate::pptx::strip_leading(target, '/'), '/')) {
            Err(e) => Err(e),
            Ok(st) => {
                let r = text::join(st, seq!['/']);
                if safe_part_spec(r) {
                    Ok(r)
                } else {
                    Err(unsafe_target(target))
                }
            },
        }
    }
}

fn unsafe_target_msg(target: &str) -> (r: String)
    ensures
        r@ == unsafe_target(target@),
{
    let mut m = "unsafe relationship target ".to_string();
    text::append(&mut m, target);
    m
}

/// Resolve a relationship target against its owner (see [`resolve_spec`]);
/// what comes back is always a safe part name.
#[verifier::loop_isolation(false)]
pub fn resolve(owner: &str, target: &str) -> (r: Result<String, String>)
    ensures
        match r {
            Ok(p) => resolve_spec(owner@, target@) == Ok::<Seq<char>, Seq<char>>(p@) && safe_part_spec(p@),
            Err(e) => resolve_spec(owner@, target@) == Err::<Seq<char>, Seq<char>>(e@),
        },
{
    let t = text::chars_of(target);
    if has_unsafe_char(t.as_slice()) {
        return Err(unsafe_target_msg(target));
    }
    let o = text::chars_of(owner);
    let mut stack: Vec<Vec<char>> = if t.len() > 0 && t[0] == '/' {
        Vec::new()
    } else {
        match text::rfind_char(o.as_slice(), '/') {
            Some(i) => {
                let dir = text::slice_vec(o.as_slice(), 0, i);
                assert(dir@ =~= o@.take(i as int));
                split_chars(dir.as_slice(), '/')
            },
            None => Vec::new(),
        }
    };
    proof {
        if t@.len() > 0 && t@[0] == '/' {
            assert(t@.take(1) =~= seq!['/']);
            assert(text::starts_with(t@, seq!['/']));
        } else {
            if text::starts_with(t@, seq!['/']) {
                assert(t@.take(1)[0] == '/');
            }
        }
    }
    let mut a: usize = 0;
    assert(t@.skip(0) =~= t@);
    while a < t.len() && t[a] == '/'
        invariant
            a <= t.len(),
            crate::pptx::strip_leading(t@, '/') == crate::pptx::strip_leading(t@.skip(a as int), '/'),
        decreases t.len() - a,
    {
        assert(t@.skip(a as int).drop_first() =~= t@.skip(a + 1));
        a += 1;
    }
    let rest = text::slice_vec(t.as_slice(), a, t.len());
    assert(rest@ =~= t@.skip(a as int));
    let pieces = split_chars(rest.as_slice(), '/');
    let ghost all = text::views(pieces@);
    let ghost start = text::views(stack@);
    let mut k: usize = 0;
    assert(all.skip(0) =~= all);
    assert(all == split_on(crate::pptx::strip_leading(target@, '/'), '/'));
    assert(start == (if text::starts_with(target@, seq!['/']) {
        Seq::<Seq<char>>::empty()
    } else {
        owner_dir_pieces(owner@)
    }));
    assert(!(exists|i: int| 0 <= i < target@.len() && unsafe_char(#[trigger] target@[i])));
    while k < pieces.len()
        invariant
            k <= pieces.len(),
            all == text::views(pieces@),
            walk(start, all) == walk(text::views(stack@), all.skip(k as int)),
        decreases pieces.len() - k,
    {
        let q = &pieces[k];
        let ghost rem = all.skip(k as int);
        assert(rem[0] == q@);
        assert(rem.drop_first() =~= all.skip(k + 1));
        if q.len() == 2 && q[0] == '.' && q[1] == '.' {
            assert(q@ =~= seq!['.', '.']);
            if stack.len() == 0 {
                assert(walk(text::views(stack@), rem) == Err::<Seq<Seq<char>>, Seq<char>>(traversal_error()));
                return Err("relationship traversal beyond package root".to_string());
            }
            let ghost before = text::views(stack@);
            stack.pop();
            assert(text::views(stack@) =~= before.drop_last());
        } else if q.len() == 1 && q[0] == '.' {
            assert(q@ =~= seq!['.']);
        } else if q.len() == 0 {
            assert(walk(text::views(stack@), rem) == Err::<Seq<Seq<char>>, Seq<char>>(empty_component_error()));
            return Err("empty relationship path component".to_string());
        } else {
            proof {
                if q@.len() == 2 {
                    assert(q@ != seq!['.', '.']);
                }
                if q@.len() == 1 {
                    assert(q@ != seq!['.']);
                }
            }
            let ghost before = text::views(stack@);
            let piece = text::slice_vec(q.as_slice(), 0, q.len());
            assert(piece@ =~= q@);
            stack.push(piece);
            assert(text::views(stack@) =~= before.push(q@));
        }
        k += 1;
    }
    assert(all.skip(pieces.len() as int) =~= Seq::<Seq<char>>::empty());
    let sep: Vec<char> = vec!['/'];
    assert(sep@ =~= seq!['/']);
    let joined = text::join_chars(&stack, sep.as_slice());
    let result = text::string_of(joined.as_slice());
    assert(walk(start, all) == Ok::<Seq<Seq<char>>, Seq<char>>(text::views(stack@)));
    if !safe_part(result.as_str()) {
        return Err(unsafe_target_msg(target));
    }
    Ok(result)
}

/// A relationship part's owner is the part it was made for: for every part
/// name inside a directory, and for the package itself (the empty name).
pub proof fn lemma_owner_of_rels_path(owner: Seq<char>)
    requires
        owner.len() == 0 || text::contains(owner, seq!['/']),
    ensures
        owner_path_spec(rels_path_spec(owner)) == Ok::<Seq<char>, Seq<char>>(owner),
{
    reveal_strlit("/_rels/");
    reveal_strlit(".rels");
    reveal_strlit("_rels/");
    reveal_strlit("_rels/.rels");
    text::lemma_rfind_upto_spec(owner, seq!['/'], owner.len() - 1);
    if owner.len() == 0 {
        assert(rels_path_spec(owner) =~= root_rels_part());
        assert(owner =~= Seq::<char>::empty());
    } else {
        let k = choose|k: int| text::occurs_at(owner, seq!['/'], k);
        assert(text::rfind(owner, seq!['/']) is Some);
        let i = text::rfind(owner, seq!['/'])->0;
        let dir = owner.take(i);
        let name = owner.skip(i + 1);
        let rp = rels_path_spec(owner);
        assert(rp =~= dir + rels_dir() + name + rels_ext());
        assert forall|j: int| 0 <= j < name.len() implies name[j] != '/' by {
            if name[j] == '/' {
                assert(owner.subrange(i + 1 + j, i + 2 + j) =~= seq!['/']);
                assert(text::occurs_at(owner, seq!['/'], i + 1 + j));
            }
        }
        let at = dir.len() as int;
        assert forall|j: int| at + 6 < j < rp.len() implies rp[j] != '/' by {
            if j < at + 7 + name.len() {
                assert(rp[j] == name[j - at - 7]);
            } else {
                assert(rp[j] == rels_ext()[j - at - 7 - name.len()]);
            }
        }
        assert(text::occurs_at(rp, rels_dir(), at)) by {
            assert(rp.subrange(at, at + 7) =~= rels_dir());
        }
        text::lemma_rfind_upto_spec(rp, rels_dir(), rp.len() - 7);
        let found = text::rfind(rp, rels_dir())->0;
        assert(found == at) by {
            if found > at {
                assert(rp.subrange(found, found + 7) == rels_dir());
                assert(rp.subrange(found, found + 7)[6] == rp[found + 6]);
                assert(rp[found + 6] == '/');
            }
        }
        let nm = rp.skip(found + 7);
        assert(nm =~= name + rels_ext());
        assert(text::ends_with(nm, rels_ext())) by {
            assert(nm.skip(nm.len() - 5) =~= rels_ext());
        }
        assert(nm.take(nm.len() - 5) =~= name);
        assert(rp.take(found) =~= dir);
        assert(owner[i] == '/') by {
            assert(owner.subrange(i, i + 1) == seq!['/']);
            assert(owner.subrange(i, i + 1)[0] == owner[i]);
        }
        assert(dir + seq!['/'] + name =~= owner);
        assert(rp != root_rels_part()) by {
            if rp == root_rels_part() {
                assert(rp[0] == '_');
                assert(rp.len() == 11);
                assert(name.len() + at == 0);
                assert(rp[at] == '/');
            }
        }
        assert(owner_path_spec(rp) == Ok::<Seq<char>, Seq<char>>(rp.take(found) + seq!['/'] + nm.take(nm.len() - 5)));
    }
}

/// The PresentationML namespace.
pub const P: &'static str = "http://schemas.openxmlformats.org/presentationml/2006/main";

/// The DrawingML namespace.
pub const A: &'static str = "http://schemas.openxmlformats.org/drawingml/2006/main";

/// The relationships namespace of attributes (`r:id`).
pub const R: &'static str = "http://schemas.openxmlformats.org/officeDocument/2006/relationships";

/// The namespace of relationship parts.
pub const REL: &'static str = "http://schemas.openxmlformats.org/package/2006/relationships";

/// The type of a slide relationship.
pub const SLIDE_REL_TYPE: &'static str = "http://schemas.openxmlformats.org/officeDocument/2006/relationships/slide";

/// Whether `bytes` are valid UTF-8 and, when they are, the text they
/// encode: `std::str::from_utf8`.
#[verifier::external_body]
fn utf8_text(bytes: &[u8]) -> (r: Option<&str>)
    ensures
        match r {
            Some(s) => vstd::utf8::valid_utf8(bytes@) && s@ == vstd::utf8::decode_utf8(bytes@),
            None => !vstd::utf8::valid_utf8(bytes@),
        },
{
    std::str::from_utf8(bytes).ok()
}

/// An OPC package: its parts by name, in ascending name order, each name
/// once.
#[derive(Debug, Clone)]
pub struct Package {
    pub parts: Vec<(String, Vec<u8>)>,
}

/// A part as plain values: its name and bytes.
pub type PartView = (Seq<char>, Seq<u8>);

pub open spec fn part_views(parts: Seq<(String, Vec<u8>)>) -> Seq<PartView> {
    parts.map_values(|p: (String, Vec<u8>)| (p.0@, p.1@))
}

impl View for Package {
    type V = Seq<PartView>;

    open spec fn view(&self) -> Seq<PartView> {
        part_views(self.parts@)
    }
}

/// A relationship of a part.
#[derive(Debug, Clone)]
pub struct Relationship {
    pub id: String,
    pub kind: String,
    /// The package part it points to (resolved), or the external target.
    pub target: String,
    pub external: bool,
}

/// A relationship as plain values: id, type, target, external.
pub type RelView = (Seq<char>, Seq<char>, Seq<char>, bool);

impl Relationship {
    pub open spec fn view(&self) -> RelView {
        (self.id@, self.kind@, self.target@, self.external)
    }
}

pub open spec fn rel_views(v: Seq<Relationship>) -> Seq<RelView> {
    v.map_values(|r: Relationship| r.view())
}

/// Index of the part named `name`.
pub open spec fn part_index(parts: Seq<PartView>, name: Seq<char>, from: int) -> Option<int>
    decreases parts.len() - from,
{
    if from < 0 || from >= parts.len() {
        None
    } else if parts[from].0 == name {
        Some(from)
    } else {
        part_index(parts, name, from + 1)
    }
}

proof fn lemma_part_index(parts: Seq<PartView>, name: Seq<char>, from: int)
    requires
        0 <= from,
    ensures
        part_index(parts, name, from) matches Some(i) ==> from <= i < parts.len() && parts[i].0 == name,
        part_index(parts, name, from) is None ==> forall|j: int|
            from <= j < parts.len() ==> (#[trigger] parts[j]).0 != name,
    decreases parts.len() - from,
{
    if 0 <= from < parts.len() && parts[from].0 != name {
        lemma_part_index(parts, name, from + 1);
    }
}

pub open spec fn missing_part(part: Seq<char>) -> Seq<char> {
    "missing part "@ + part
}

pub open spec fn non_utf8(part: Seq<char>) -> Seq<char> {
    "non-UTF8 XML part "@ + part
}

pub open spec fn malformed(part: Seq<char>) -> Seq<char> {
    "malformed XML in "@ + part
}

/// The text of a part: its bytes decoded as UTF-8.
pub open spec fn text_spec(parts: Seq<PartView>, part: Seq<char>) -> Result<Seq<char>, Seq<char>> {
    match part_index(parts, part, 0) {
        None => Err(missing_part(part)),
        Some(i) => if vstd::utf8::valid_utf8(parts[i].1) {
            Ok(vstd::utf8::decode_utf8(parts[i].1))
        } else {
            Err(non_utf8(part))
        },
    }
}

/// A parsed part: its nodes and attributes, or why it is malformed.
pub open spec fn xml_spec(parts: Seq<PartView>, part: Seq<char>) -> Result<
    (Seq<crate::xml::NodeView>, Seq<crate::xml::AttrView>),
    Seq<char>,
> {
    match text_spec(parts, part) {
        Err(e) => Err(e),
        Ok(t) => match crate::xml::parsed_document(t) {
            Some((n, a)) => Ok((n, a)),
            None => Err(malformed(part)),
        },
    }
}

fn msg(prefix: &str, rest: &str) -> (r: String)
    ensures
        r@ == prefix@ + rest@,
{
    let mut m = prefix.to_string();
    text::append(&mut m, rest);
    m
}

impl Package {
    /// Index of the part named `part`.
    pub fn find_part(&self, part: &str) -> (r: Option<usize>)
        ensures
            match part_index(self@, part@, 0) {
                Some(i) => r == Some(i as usize) && 0 <= i < self.parts.len(),
                None => r is None,
            },
    {
        proof {
            lemma_part_index(self@, part@, 0);
        }
        let pc = text::chars_of(part);
        let mut i: usize = 0;
        while i < self.parts.len()
            invariant
                i <= self.parts.len(),
                pc@ == part@,
                part_index(self@, part@, 0) == part_index(self@, part@, i as int),
            decreases self.parts.len() - i,
        {
            let nc = text::chars_of(self.parts[i].0.as_str());
            if text::eq_chars(nc.as_slice(), pc.as_slice()) {
                return Some(i);
            }
            i += 1;
        }
        None
    }

    /// The text of a part (see [`text_spec`]).
    pub fn text(&self, part: &str) -> (r: Result<&str, String>)
        ensures
            match r {
                Ok(t) => text_spec(self@, part@) == Ok::<Seq<char>, Seq<char>>(t@),
                Err(e) => text_spec(self@, part@) == Err::<Seq<char>, Seq<char>>(e@),
            },
    {
        proof {
            lemma_part_index(self@, part@, 0);
        }
        match self.find_part(part) {
            None => Err(msg("missing part ", part)),
            Some(i) => {
                let bytes = self.parts[i].1.as_slice();
                assert(bytes@ == self@[i as int].1);
                assert(part_index(self@, part@, 0) == Some(i as int));
                match utf8_text(bytes) {
                Some(t) => {
                    assert(text_spec(self@, part@) == Ok::<Seq<char>, Seq<char>>(t@));
                    Ok(t)
                },
                None => Err(msg("non-UTF8 XML part ", part)),
            }
            },
        }
    }

    /// A part parsed as XML (see [`xml_spec`]).
    pub fn xml(&self, part: &str) -> (r: Result<crate::xml::XmlDoc, String>)
        ensures
            match r {
                Ok(d) => xml_spec(self@, part@) == Ok::<
                    (Seq<crate::xml::NodeView>, Seq<crate::xml::AttrView>),
                    Seq<char>,
                >((crate::xml::node_views(d.nodes@), crate::xml::attr_views(d.attrs@))),
                Err(e) => xml_spec(self@, part@) == Err::<
                    (Seq<crate::xml::NodeView>, Seq<crate::xml::AttrView>),
                    Seq<char>,
                >(e@),
            },
    {
        let t = self.text(part)?;
        match crate::xml::XmlDoc::parse(t) {
            Ok(d) => Ok(d),
            Err(_) => Err(msg("malformed XML in ", part)),
        }
    }
}

/// Index of the first element among `nodes`, from `from` on.
pub open spec fn first_element(nodes: Seq<crate::xml::NodeView>, from: int) -> Option<int>
    decreases nodes.len() - from,
{
    if from < 0 || from >= nodes.len() {
        None
    } else if nodes[from].2 {
        Some(from)
    } else {
        first_element(nodes, from + 1)
    }
}

/// Node `n` is an element whose parent is the node with id `pid`.
pub open spec fn child_element(n: crate::xml::NodeView, pid: u32) -> bool {
    n.2 && n.1 == Some(pid)
}

pub open spec fn missing_attr(name: Seq<char>) -> Seq<char> {
    "missing "@ + name + " attribute"@
}

/// The value of attribute `name` (no namespace) of element `n`.
pub open spec fn attr_of(attrs: Seq<crate::xml::AttrView>, n: crate::xml::NodeView, name: Seq<char>) -> Option<Seq<char>> {
    crate::xml::attr_value(attrs, n.0, None, name, 0)
}

/// One child of a relationship part as a relationship: it must be a
/// `Relationship` element with an `Id` not in `seen`, a `Target` and a
/// `Type`; `TargetMode` is absent, `Internal` or `External`; an internal
/// target is resolved against the owner.
pub open spec fn rel_step(
    owner: Seq<char>,
    part: Seq<char>,
    attrs: Seq<crate::xml::AttrView>,
    n: crate::xml::NodeView,
    seen: Seq<Seq<char>>,
) -> Result<RelView, Seq<char>> {
    if !crate::xml::has_tag(n, Some(REL@), "Relationship"@) {
        Err("unknown relationship node in "@ + part)
    } else {
        match attr_of(attrs, n, "Id"@) {
            None => Err(missing_attr("Id"@)),
            Some(id) => if seen.contains(id) {
                Err("duplicate relationship ID "@ + id + " in "@ + part)
            } else {
                match attr_of(attrs, n, "Target"@) {
                    None => Err(missing_attr("Target"@)),
                    Some(target) => match attr_of(attrs, n, "Type"@) {
                        None => Err(missing_attr("Type"@)),
                        Some(kind) => {
                            let mode = attr_of(attrs, n, "TargetMode"@);
                            if mode is Some && mode->0 != "Internal"@ && mode->0 != "External"@ {
                                Err("invalid TargetMode in "@ + part)
                            } else {
                                let external = mode == Some("External"@);
                                if external {
                                    Ok((id, kind, target, external))
                                } else {
                                    match resolve_spec(owner, target) {
                                        Err(e) => Err(e),
                                        Ok(t) => Ok((id, kind, t, external)),
                                    }
                                }
                            }
                        },
                    },
                }
            },
        }
    }
}

/// The relationships of the element children of node `pid` among
/// `nodes[from..]`, in document order (see [`rel_step`]), stopping at the
/// first child that fails; `seen` holds the ids met before.
pub open spec fn rels_from(
    owner: Seq<char>,
    part: Seq<char>,
    attrs: Seq<crate::xml::AttrView>,
    nodes: Seq<crate::xml::NodeView>,
    pid: u32,
    from: int,
    seen: Seq<Seq<char>>,
) -> Result<Seq<RelView>, Seq<char>>
    decreases nodes.len() - from,
{
    if from < 0 || from >= nodes.len() {
        Ok(Seq::empty())
    } else if !child_element(nodes[from], pid) {
        rels_from(owner, part, attrs, nodes, pid, from + 1, seen)
    } else {
        match rel_step(owner, part, attrs, nodes[from], seen) {
            Err(e) => Err(e),
            Ok(r) => match rels_from(owner, part, attrs, nodes, pid, from + 1, seen.push(r.0)) {
                Err(e) => Err(e),
                Ok(rest) => Ok(seq![r] + rest),
            },
        }
    }
}

/// `done` followed by what `rest` gives, or the error of `rest`.
pub open spec fn then_rels(done: Seq<RelView>, rest: Result<Seq<RelView>, Seq<char>>) -> Result<Seq<RelView>, Seq<char>> {
    match rest {
        Ok(more) => Ok(done + more),
        Err(e) => Err(e),
    }
}

/// The relationships of `owner`: none when it has no relationship part;
/// otherwise those of the root element's children (see [`rels_from`]).
pub open spec fn rels_spec(parts: Seq<PartView>, owner: Seq<char>) -> Result<Seq<RelView>, Seq<char>> {
    let part = rels_path_spec(owner);
    if part_index(parts, part, 0) is None {
        Ok(Seq::empty())
    } else {
        match xml_spec(parts, part) {
            Err(e) => Err(e),
            Ok((nodes, attrs)) => match first_element(nodes, 0) {
                None => Err("document has no root element"@),
                Some(r) => rels_from(owner, part, attrs, nodes, nodes[r].0, 0, Seq::empty()),
            },
        }
    }
}

fn str_eq(a: &str, b: &str) -> (r: bool)
    ensures
        r == (a@ == b@),
{
    let ac = text::chars_of(a);
    let bc = text::chars_of(b);
    text::eq_chars(ac.as_slice(), bc.as_slice())
}

fn seen_contains(seen: &Vec<String>, id: &String) -> (r: bool)
    ensures
        r == text::string_views(seen@).contains(id@),
{
    let mut i: usize = 0;
    while i < seen.len()
        invariant
            i <= seen.len(),
            forall|k: int| 0 <= k < i ==> text::string_views(seen@)[k] != id@,
        decreases seen.len() - i,
    {
        if seen[i] == *id {
            assert(text::string_views(seen@)[i as int] == id@);
            return true;
        }
        i += 1;
    }
    false
}

proof fn lemma_first_element(nodes: Seq<crate::xml::NodeView>, from: int)
    requires
        0 <= from,
    ensures
        first_element(nodes, from) matches Some(i) ==> from <= i < nodes.len() && nodes[i].2,
    decreases nodes.len() - from,
{
    if from < nodes.len() && !nodes[from].2 {
        lemma_first_element(nodes, from + 1);
    }
}

fn missing_attr_msg(name: &str) -> (r: String)
    ensures
        r@ == missing_attr(name@),
{
    let mut m = "missing ".to_string();
    text::append(&mut m, name);
    text::append(&mut m, " attribute");
    m
}

/// One relationship element (the checks of [`rel_step`]).
fn relationship_of(
    owner: &str,
    part: &str,
    doc: &crate::xml::XmlDoc,
    n: &crate::xml::XmlNode,
    seen: &Vec<String>,
) -> (r: Result<Relationship, String>)
    ensures
        ({
            let spec = rel_step(owner@, part@, crate::xml::attr_views(doc.attrs@), n.view(), text::string_views(seen@));
            match r {
                Ok(rel) => spec == Ok::<RelView, Seq<char>>(rel.view()),
                Err(e) => spec == Err::<RelView, Seq<char>>(e@),
            }
        }),
{
    if !crate::xml::node_has_tag(n, Some(REL), "Relationship") {
        return Err(msg("unknown relationship node in ", part));
    }
    let id = match doc.attribute(n.id, None, "Id") {
        Some(v) => v,
        None => return Err(missing_attr_msg("Id")),
    };
    if seen_contains(seen, &id) {
        let mut m = "duplicate relationship ID ".to_string();
        text::append(&mut m, id.as_str());
        text::append(&mut m, " in ");
        text::append(&mut m, part);
        return Err(m);
    }
    let target = match doc.attribute(n.id, None, "Target") {
        Some(v) => v,
        None => return Err(missing_attr_msg("Target")),
    };
    let kind = match doc.attribute(n.id, None, "Type") {
        Some(v) => v,
        None => return Err(missing_attr_msg("Type")),
    };
    let external = match doc.attribute(n.id, None, "TargetMode") {
        None => false,
        Some(m) => {
            if str_eq(m.as_str(), "Internal") {
                proof {
                    reveal_strlit("Internal");
                    reveal_strlit("External");
                    assert("Internal"@[0] != "External"@[0]);
                }
                false
            } else if str_eq(m.as_str(), "External") {
                true
            } else {
                return Err(msg("invalid TargetMode in ", part));
            }
        },
    };
    let t = if external {
        target
    } else {
        match resolve(owner, target.as_str()) {
            Ok(t) => t,
            Err(e) => return Err(e),
        }
    };
    Ok(Relationship { id, kind, target: t, external })
}

impl Package {
    /// The relationships of `owner` (see [`rels_spec`]).
    pub fn rels(&self, owner: &str) -> (r: Result<Vec<Relationship>, String>)
        ensures
            match r {
                Ok(v) => rels_spec(self@, owner@) == Ok::<Seq<RelView>, Seq<char>>(rel_views(v@)),
                Err(e) => rels_spec(self@, owner@) == Err::<Seq<RelView>, Seq<char>>(e@),
            },
    {
        let part = rels_path(owner);
        if self.find_part(part.as_str()).is_none() {
            let empty: Vec<Relationship> = Vec::new();
            assert(rel_views(empty@) =~= Seq::<RelView>::empty());
            return Ok(empty);
        }
        let doc = self.xml(part.as_str())?;
        let ghost nv = crate::xml::node_views(doc.nodes@);
        let ghost av = crate::xml::attr_views(doc.attrs@);
        proof {
            lemma_first_element(nv, 0);
        }
        let mut ri: usize = 0;
        while ri < doc.nodes.len() && !doc.nodes[ri].element
            invariant
                ri <= doc.nodes.len(),
                nv == crate::xml::node_views(doc.nodes@),
                first_element(nv, 0) == first_element(nv, ri as int),
            decreases doc.nodes.len() - ri,
        {
            ri += 1;
        }
        if ri == doc.nodes.len() {
            return Err("document has no root element".to_string());
        }
        let root = doc.nodes[ri].id;
        assert(first_element(nv, 0) == Some(ri as int));
        let ghost total = rels_from(owner@, part@, av, nv, root, 0, Seq::empty());
        assert(rels_spec(self@, owner@) == total);
        let mut seen: Vec<String> = Vec::new();
        let mut out: Vec<Relationship> = Vec::new();
        let mut i: usize = 0;
        assert(rel_views(out@) =~= Seq::<RelView>::empty());
        assert(text::string_views(seen@) =~= Seq::<Seq<char>>::empty());
        while i < doc.nodes.len()
            invariant
                i <= doc.nodes.len(),
                nv == crate::xml::node_views(doc.nodes@),
                av == crate::xml::attr_views(doc.attrs@),
                rels_spec(self@, owner@) == total,
                total == then_rels(
                    rel_views(out@),
                    rels_from(owner@, part@, av, nv, root, i as int, text::string_views(seen@)),
                ),
            decreases doc.nodes.len() - i,
        {
            let n = &doc.nodes[i];
            assert(nv[i as int] == n.view());
            let is_child = n.element && match n.parent {
                Some(p) => p == root,
                None => false,
            };
            if is_child {
                let rel = match relationship_of(owner, part.as_str(), &doc, n, &seen) {
                    Ok(rel) => rel,
                    Err(e) => return Err(e),
                };
                let ghost old_out = rel_views(out@);
                let ghost old_seen = text::string_views(seen@);
                let ghost rest = rels_from(owner@, part@, av, nv, root, i + 1, text::string_views(seen@).push(rel.id@));
                seen.push(rel.id.clone());
                out.push(rel);
                proof {
                    assert(text::string_views(seen@) =~= old_seen.push(rel.id@));
                    assert(rel_views(out@) =~= old_out.push(rel.view()));
                    if let Ok(more) = rest {
                        assert(old_out + (seq![rel.view()] + more) =~= old_out.push(rel.view()) + more);
                    }
                }
            }
            i += 1;
        }
        assert(rel_views(out@) + Seq::<RelView>::empty() =~= rel_views(out@));
        Ok(out)
    }
}

/// The index of the first relationship among `rels[from..]` that is an
/// internal slide relationship with id `rid`.
pub open spec fn slide_rel(rels: Seq<RelView>, rid: Seq<char>, from: int) -> Option<int>
    decreases rels.len() - from,
{
    if from < 0 || from >= rels.len() {
        None
    } else if rels[from].0 == rid && rels[from].1 == SLIDE_REL_TYPE@ && !rels[from].3 {
        Some(from)
    } else {
        slide_rel(rels, rid, from + 1)
    }
}

/// The slide parts named by the `p:sldId` elements among `nodes[from..]`,
/// in document order, after `done`: each must carry an `r:id` naming an
/// internal slide relationship, and no slide part may come twice.
pub open spec fn slides_from(
    nodes: Seq<crate::xml::NodeView>,
    attrs: Seq<crate::xml::AttrView>,
    rels: Seq<RelView>,
    from: int,
    done: Seq<Seq<char>>,
) -> Result<Seq<Seq<char>>, Seq<char>>
    decreases nodes.len() - from,
{
    if from < 0 || from >= nodes.len() {
        Ok(done)
    } else if !crate::xml::has_tag(nodes[from], Some(P@), "sldId"@) {
        slides_from(nodes, attrs, rels, from + 1, done)
    } else {
        match crate::xml::attr_value(attrs, nodes[from].0, Some(R@), "id"@, 0) {
            None => Err("slide has no relationship"@),
            Some(rid) => match slide_rel(rels, rid, 0) {
                None => Err("missing/invalid slide relationship"@),
                Some(k) => if done.contains(rels[k].2) {
                    Err("duplicate slide target "@ + rels[k].2)
                } else {
                    slides_from(nodes, attrs, rels, from + 1, done.push(rels[k].2))
                },
            },
        }
    }
}

/// The part holding the presentation.
pub open spec fn presentation_part() -> Seq<char> {
    "ppt/presentation.xml"@
}

/// The slide parts of a package, in presentation order.
pub open spec fn slides_spec(parts: Seq<PartView>) -> Result<Seq<Seq<char>>, Seq<char>> {
    match xml_spec(parts, presentation_part()) {
        Err(e) => Err(e),
        Ok((nodes, attrs)) => match rels_spec(parts, presentation_part()) {
            Err(e) => Err(e),
            Ok(rels) => slides_from(nodes, attrs, rels, 0, Seq::empty()),
        },
    }
}

proof fn lemma_slide_rel(rels: Seq<RelView>, rid: Seq<char>, from: int)
    requires
        0 <= from,
    ensures
        slide_rel(rels, rid, from) matches Some(k) ==> from <= k < rels.len(),
    decreases rels.len() - from,
{
    if from < rels.len() && slide_rel(rels, rid, from) != Some(from) {
        lemma_slide_rel(rels, rid, from + 1);
    }
}

fn find_slide_rel(rels: &Vec<Relationship>, rid: &str) -> (r: Option<usize>)
    ensures
        r == match slide_rel(rel_views(rels@), rid@, 0) {
            Some(k) => Some(k as usize),
            None => None::<usize>,
        },
        r matches Some(k) ==> k < rels.len() && slide_rel(rel_views(rels@), rid@, 0) == Some(k as int),
        r is None ==> slide_rel(rel_views(rels@), rid@, 0) is None,
{
    let ghost rv = rel_views(rels@);
    proof {
        lemma_slide_rel(rv, rid@, 0);
    }
    let mut j: usize = 0;
    while j < rels.len()
        invariant
            j <= rels.len(),
            rv == rel_views(rels@),
            slide_rel(rv, rid@, 0) == slide_rel(rv, rid@, j as int),
        decreases rels.len() - j,
    {
        let r = &rels[j];
        assert(rv[j as int] == r.view());
        if str_eq(r.id.as_str(), rid) && str_eq(r.kind.as_str(), SLIDE_REL_TYPE) && !r.external {
            return Some(j);
        }
        j += 1;
    }
    None
}

impl Package {
    /// The slide parts of the package, in presentation order (see
    /// [`slides_spec`]).
    pub fn slides(&self) -> (r: Result<Vec<String>, String>)
        ensures
            match r {
                Ok(v) => slides_spec(self@) == Ok::<Seq<Seq<char>>, Seq<char>>(text::string_views(v@)),
                Err(e) => slides_spec(self@) == Err::<Seq<Seq<char>>, Seq<char>>(e@),
            },
    {
        let doc = self.xml("ppt/presentation.xml")?;
        let rels = self.rels("ppt/presentation.xml")?;
        let ghost nv = crate::xml::node_views(doc.nodes@);
        let ghost av = crate::xml::attr_views(doc.attrs@);
        let ghost rv = rel_views(rels@);
        let mut paths: Vec<String> = Vec::new();
        assert(text::string_views(paths@) =~= Seq::<Seq<char>>::empty());
        let mut i: usize = 0;
        while i < doc.nodes.len()
            invariant
                i <= doc.nodes.len(),
                nv == crate::xml::node_views(doc.nodes@),
                av == crate::xml::attr_views(doc.attrs@),
                rv == rel_views(rels@),
                slides_spec(self@) == slides_from(nv, av, rv, i as int, text::string_views(paths@)),
            decreases doc.nodes.len() - i,
        {
            let n = &doc.nodes[i];
            assert(nv[i as int] == n.view());
            if crate::xml::node_has_tag(n, Some(P), "sldId") {
                let rid = match doc.attribute(n.id, Some(R), "id") {
                    Some(v) => v,
                    None => return Err("slide has no relationship".to_string()),
                };
                let k = match find_slide_rel(&rels, rid.as_str()) {
                    Some(k) => k,
                    None => return Err("missing/invalid slide relationship".to_string()),
                };
                let target = &rels[k].target;
                assert(rv[k as int].2 == target@);
                if seen_contains(&paths, target) {
                    let mut m = "duplicate slide target ".to_string();
                    text::append(&mut m, target.as_str());
                    return Err(m);
                }
                let ghost before = text::string_views(paths@);
                paths.push(target.clone());
                assert(text::string_views(paths@) =~= before.push(target@));
            }
            i += 1;
        }
        Ok(paths)
    }
}

/// The part that declares the content types of all others.
pub open spec fn content_types_part() -> Seq<char> {
    "[Content_Types].xml"@
}

/// Some element named `tag` (in any namespace) carries attribute `attr`
/// (no namespace) with value `v`.
pub open spec fn declares(nodes: Seq<NodeView>, attrs: Seq<AttrView>, tag: Seq<char>, attr: Seq<char>, v: Seq<char>) -> bool {
    exists|i: int|
        0 <= i < nodes.len() && has_tag(#[trigger] nodes[i], None, tag) && attr_value(attrs, nodes[i].0, None, attr, 0)
            == Some(v)
}

/// What follows the last `.` of a part name; the whole name when it has
/// none.
pub open spec fn extension_of(part: Seq<char>) -> Seq<char> {
    match text::rfind(part, seq!['.']) {
        Some(i) => part.skip(i + 1),
        None => part,
    }
}

/// A part has a content type: it is the content-types part itself, an
/// `Override` names it, or a `Default` covers its extension.
pub open spec fn has_content_type(cn: Seq<NodeView>, ca: Seq<AttrView>, part: Seq<char>) -> bool {
    part == content_types_part() || declares(cn, ca, "Override"@, "PartName"@, seq!['/'] + part) || declares(
        cn,
        ca,
        "Default"@,
        "Extension"@,
        extension_of(part),
    )
}

/// The first fault among the shape ids (`p:cNvPr` `id`) of `nodes[from..]`:
/// one without an id, or one id met twice (`seen` holds those met
/// before).
pub open spec fn shape_id_fault(part: Seq<char>, nodes: Seq<NodeView>, attrs: Seq<AttrView>, from: int, seen: Seq<Seq<char>>) -> Option<
    Seq<char>,
>
    decreases nodes.len() - from,
{
    if from < 0 || from >= nodes.len() {
        None
    } else if !has_tag(nodes[from], Some(P@), "cNvPr"@) {
        shape_id_fault(part, nodes, attrs, from + 1, seen)
    } else {
        match attr_value(attrs, nodes[from].0, None, "id"@, 0) {
            None => Some(missing_attr("id"@)),
            Some(id) => if seen.contains(id) {
                Some("duplicate shape ID in "@ + part)
            } else {
                shape_id_fault(part, nodes, attrs, from + 1, seen.push(id))
            },
        }
    }
}

/// Some relationship has id `id`.
pub open spec fn has_rel_id(rels: Seq<RelView>, id: Seq<char>) -> bool {
    exists|k: int| 0 <= k < rels.len() && (#[trigger] rels[k]).0 == id
}

/// The first attribute among `attrs[from..]` in the relationships
/// namespace whose value names no relationship, as an error.
pub open spec fn unresolved_ref(part: Seq<char>, attrs: Seq<AttrView>, rels: Seq<RelView>, from: int) -> Option<Seq<char>>
    decreases attrs.len() - from,
{
    if from < 0 || from >= attrs.len() {
        None
    } else if attrs[from].1 == Some(R@) && !has_rel_id(rels, attrs[from].3) {
        Some("unresolved "@ + attrs[from].2 + "="@ + attrs[from].3 + " in "@ + part)
    } else {
        unresolved_ref(part, attrs, rels, from + 1)
    }
}

/// The remedy recorded for an external relationship.
pub open spec fn external_remedy() -> Seq<char> {
    "External target not fetched; import does not preserve this relationship"@
}

/// The finding a validated relationship of `part` contributes.
pub open spec fn rel_finding(part: Seq<char>, r: RelView) -> FindingView {
    let d = if r.3 {
        Disposition::Unsupported
    } else {
        Disposition::Converted
    };
    FindingView {
        slide: None,
        part,
        element: r.0,
        feature: "relationship:"@ + r.1,
        severity: severity_of(d),
        disposition: d,
        remedy: if r.3 {
            external_remedy()
        } else {
            "Internal target validated"@
        },
    }
}

/// The findings of the relationships `rels[from..]` of relationship part
/// `part`, or the first internal target missing from the package.
pub open spec fn rel_findings(parts: Seq<PartView>, part: Seq<char>, rels: Seq<RelView>, from: int) -> Result<
    Seq<FindingView>,
    Seq<char>,
>
    decreases rels.len() - from,
{
    if from < 0 || from >= rels.len() {
        Ok(Seq::empty())
    } else if !rels[from].3 && part_index(parts, rels[from].2, 0) is None {
        Err("missing relationship target "@ + rels[from].2 + " in "@ + part)
    } else {
        match rel_findings(parts, part, rels, from + 1) {
            Ok(rest) => Ok(seq![rel_finding(part, rels[from])] + rest),
            Err(e) => Err(e),
        }
    }
}

/// ASCII letters lowered, everything else kept.
pub open spec fn ascii_lower(s: Seq<char>) -> Seq<char> {
    s.map_values(|c: char| if 'A' <= c && c <= 'Z' { ((c as u8) + 32) as char } else { c })
}

/// A part name that shows macros, embedded objects or ActiveX controls.
pub open spec fn active_content(part: Seq<char>) -> bool {
    let l = ascii_lower(part);
    text::contains(l, "vbaproject"@) || text::contains(l, "/embeddings/"@) || text::contains(l, "activex"@)
}

/// The remedy recorded for active or embedded content.
pub open spec fn quarantine_remedy() -> Seq<char> {
    "Quarantine this package; macros/OLE/ActiveX are never executed or imported"@
}

/// The finding active or embedded content contributes.
pub open spec fn active_finding(part: Seq<char>) -> FindingView {
    FindingView {
        slide: None,
        part,
        element: "package"@,
        feature: "active_or_embedded_content"@,
        severity: severity_of(Disposition::Conflicting),
        disposition: Disposition::Conflicting,
        remedy: quarantine_remedy(),
    }
}

/// The structural checks of an XML or relationship part: shape ids are
/// present and distinct; a relationship part has an existing owner (or is
/// the package's) and internal targets inside the package; any other part
/// refers only to relationships it has.
pub open spec fn structural_findings(parts: Seq<PartView>, part: Seq<char>) -> Result<Seq<FindingView>, Seq<char>> {
    match xml_spec(parts, part) {
        Err(e) => Err(e),
        Ok((nodes, attrs)) => match shape_id_fault(part, nodes, attrs, 0, Seq::empty()) {
            Some(e) => Err(e),
            None => if text::ends_with(part, ".rels"@) {
                match owner_path_spec(part) {
                    Err(e) => Err(e),
                    Ok(owner) => if owner.len() > 0 && part_index(parts, owner, 0) is None {
                        Err("orphan relationships: "@ + part)
                    } else {
                        match rels_spec(parts, owner) {
                            Err(e) => Err(e),
                            Ok(rels) => rel_findings(parts, part, rels, 0),
                        }
                    },
                }
            } else {
                match rels_spec(parts, part) {
                    Err(e) => Err(e),
                    Ok(rels) => match unresolved_ref(part, attrs, rels, 0) {
                        Some(e) => Err(e),
                        None => Ok(Seq::empty()),
                    },
                }
            },
        },
    }
}

/// What validating one part contributes: it must have a content type; an
/// XML or relationship part passes [`structural_findings`]; active or
/// embedded content is recorded as conflicting.
pub open spec fn part_findings(parts: Seq<PartView>, cn: Seq<NodeView>, ca: Seq<AttrView>, part: Seq<char>) -> Result<
    Seq<FindingView>,
    Seq<char>,
> {
    if !has_content_type(cn, ca, part) {
        Err("missing content type for "@ + part)
    } else {
        let checked = if text::ends_with(part, ".xml"@) || text::ends_with(part, ".rels"@) {
            structural_findings(parts, part)
        } else {
            Ok(Seq::empty())
        };
        match checked {
            Err(e) => Err(e),
            Ok(fs) => Ok(
                if active_content(part) {
                    fs.push(active_finding(part))
                } else {
                    fs
                },
            ),
        }
    }
}

/// The findings of `parts[from..]` after `done`, or the first error.
pub open spec fn validate_from(
    parts: Seq<PartView>,
    cn: Seq<NodeView>,
    ca: Seq<AttrView>,
    from: int,
    done: Seq<FindingView>,
) -> Result<Seq<FindingView>, Seq<char>>
    decreases parts.len() - from,
{
    if from < 0 || from >= parts.len() {
        Ok(done)
    } else {
        match part_findings(parts, cn, ca, parts[from].0) {
            Err(e) => Err(e),
            Ok(fs) => validate_from(parts, cn, ca, from + 1, done + fs),
        }
    }
}

/// The findings of validating a package, part by part in name order.
pub open spec fn validate_spec(parts: Seq<PartView>) -> Result<Seq<FindingView>, Seq<char>> {
    match xml_spec(parts, content_types_part()) {
        Err(e) => Err(e),
        Ok((cn, ca)) => validate_from(parts, cn, ca, 0, Seq::empty()),
    }
}

/// Whether an element named `tag` carries `attr` with value `v` (see
/// [`declares`]).
fn declares_in(doc: &XmlDoc, tag: &str, attr: &str, v: &[char]) -> (b: bool)
    ensures
        b == declares(node_views(doc.nodes@), attr_views(doc.attrs@), tag@, attr@, v@),
{
    let ghost nv = node_views(doc.nodes@);
    let ghost av = attr_views(doc.attrs@);
    let mut i: usize = 0;
    while i < doc.nodes.len()
        invariant
            i <= doc.nodes.len(),
            nv == node_views(doc.nodes@),
            av == attr_views(doc.attrs@),
            forall|j: int|
                0 <= j < i ==> !(has_tag(#[trigger] nv[j], None, tag@) && attr_value(av, nv[j].0, None, attr@, 0)
                    == Some(v@)),
        decreases doc.nodes.len() - i,
    {
        let n = &doc.nodes[i];
        assert(nv[i as int] == n.view());
        if crate::xml::node_has_tag(n, None, tag) {
            match doc.attribute(n.id, None, attr) {
                Some(val) => {
                    let vc = text::chars_of(val.as_str());
                    if text::eq_chars(vc.as_slice(), v) {
                        return true;
                    }
                },
                None => {},
            }
        }
        i += 1;
    }
    false
}

/// The first fault among the shape ids of a document (see
/// [`shape_id_fault`]).
fn shape_fault(doc: &XmlDoc, part: &str) -> (r: Option<String>)
    ensures
        text::opt_seq(r) == shape_id_fault(part@, node_views(doc.nodes@), attr_views(doc.attrs@), 0, Seq::empty()),
{
    let ghost nv = node_views(doc.nodes@);
    let ghost av = attr_views(doc.attrs@);
    let mut seen: Vec<String> = Vec::new();
    assert(text::string_views(seen@) =~= Seq::<Seq<char>>::empty());
    let mut i: usize = 0;
    while i < doc.nodes.len()
        invariant
            i <= doc.nodes.len(),
            nv == node_views(doc.nodes@),
            av == attr_views(doc.attrs@),
            shape_id_fault(part@, nv, av, 0, Seq::empty()) == shape_id_fault(
                part@,
                nv,
                av,
                i as int,
                text::string_views(seen@),
            ),
        decreases doc.nodes.len() - i,
    {
        let n = &doc.nodes[i];
        assert(nv[i as int] == n.view());
        if crate::xml::node_has_tag(n, Some(P), "cNvPr") {
            let id = match doc.attribute(n.id, None, "id") {
                Some(v) => v,
                None => return Some(missing_attr_msg("id")),
            };
            if seen_contains(&seen, &id) {
                return Some(msg("duplicate shape ID in ", part));
            }
            let ghost before = text::string_views(seen@);
            seen.push(id);
            assert(text::string_views(seen@) =~= before.push(id@));
        }
        i += 1;
    }
    None
}

/// Whether some relationship has id `id`.
fn has_rel(rels: &Vec<Relationship>, id: &str) -> (b: bool)
    ensures
        b == has_rel_id(rel_views(rels@), id@),
{
    let ghost rv = rel_views(rels@);
    let mut k: usize = 0;
    while k < rels.len()
        invariant
            k <= rels.len(),
            rv == rel_views(rels@),
            forall|j: int| 0 <= j < k ==> (#[trigger] rv[j]).0 != id@,
        decreases rels.len() - k,
    {
        assert(rv[k as int] == rels[k as int].view());
        if str_eq(rels[k].id.as_str(), id) {
            return true;
        }
        k += 1;
    }
    false
}

/// The first reference of a document to a relationship it lacks (see
/// [`unresolved_ref`]).
fn unresolved(doc: &XmlDoc, rels: &Vec<Relationship>, part: &str) -> (r: Option<String>)
    ensures
        text::opt_seq(r) == unresolved_ref(part@, attr_views(doc.attrs@), rel_views(rels@), 0),
{
    let ghost av = attr_views(doc.attrs@);
    let mut i: usize = 0;
    while i < doc.attrs.len()
        invariant
            i <= doc.attrs.len(),
            av == attr_views(doc.attrs@),
            unresolved_ref(part@, av, rel_views(rels@), 0) == unresolved_ref(part@, av, rel_views(rels@), i as int),
        decreases doc.attrs.len() - i,
    {
        let a = &doc.attrs[i];
        assert(av[i as int] == a.view());
        let in_r = match &a.ns {
            Some(u) => str_eq(u.as_str(), R),
            None => false,
        };
        if in_r && !has_rel(rels, a.value.as_str()) {
            let mut m = "unresolved ".to_string();
            text::append(&mut m, a.name.as_str());
            text::append(&mut m, "=");
            text::append(&mut m, a.value.as_str());
            text::append(&mut m, " in ");
            text::append(&mut m, part);
            return Some(m);
        }
        i += 1;
    }
    None
}

/// ASCII letters of `s` lowered (see [`ascii_lower`]).
pub(crate) fn ascii_lower_chars(s: &[char]) -> (r: Vec<char>)
    ensures
        r@ == ascii_lower(s@),
{
    let mut out: Vec<char> = Vec::new();
    let mut i: usize = 0;
    while i < s.len()
        invariant
            i <= s.len(),
            out@ == ascii_lower(s@.take(i as int)),
        decreases s.len() - i,
    {
        let c = s[i];
        let d = if 'A' <= c && c <= 'Z' {
            ((c as u8) + 32) as char
        } else {
            c
        };
        let ghost before = out@;
        out.push(d);
        i += 1;
        assert(s@.take(i as int) =~= s@.take(i - 1).push(c));
        assert(ascii_lower(s@.take(i as int)) =~= before.push(d));
    }
    assert(s@.take(s.len() as int) =~= s@);
    out
}

/// Whether a part name shows active or embedded content (see
/// [`active_content`]).
fn is_active(part: &str) -> (b: bool)
    ensures
        b == active_content(part@),
{
    let pc = text::chars_of(part);
    let l = ascii_lower_chars(pc.as_slice());
    let a = text::chars_of("vbaproject");
    let b = text::chars_of("/embeddings/");
    let c = text::chars_of("activex");
    text::contains_chars(l.as_slice(), a.as_slice()) || text::contains_chars(l.as_slice(), b.as_slice())
        || text::contains_chars(l.as_slice(), c.as_slice())
}

impl Package {
    /// The findings of the relationships of relationship part `part` (see
    /// [`rel_findings`]).
    fn rel_findings_of(&self, part: &str, rels: &Vec<Relationship>) -> (r: Result<Vec<Finding>, String>)
        ensures
            match r {
                Ok(fs) => rel_findings(self@, part@, rel_views(rels@), 0) == Ok::<
                    Seq<FindingView>,
                    Seq<char>,
                >(finding_views(fs@)),
                Err(e) => rel_findings(self@, part@, rel_views(rels@), 0) == Err::<
                    Seq<FindingView>,
                    Seq<char>,
                >(e@),
            },
    {
        let ghost rv = rel_views(rels@);
        let mut rep = Report::default();
        let mut i: usize = 0;
        assert(finding_views(rep.findings@) =~= Seq::<FindingView>::empty());
        while i < rels.len()
            invariant
                i <= rels.len(),
                rv == rel_views(rels@),
                rel_findings(self@, part@, rv, 0) == match rel_findings(self@, part@, rv, i as int) {
                    Ok(rest) => Ok(finding_views(rep.findings@) + rest),
                    Err(e) => Err(e),
                },
            decreases rels.len() - i,
        {
            let rel = &rels[i];
            assert(rv[i as int] == rel.view());
            proof {
                lemma_part_index(self@, rel.target@, 0);
            }
            if !rel.external && self.find_part(rel.target.as_str()).is_none() {
                let mut m = "missing relationship target ".to_string();
                text::append(&mut m, rel.target.as_str());
                text::append(&mut m, " in ");
                text::append(&mut m, part);
                return Err(m);
            }
            let mut feature = "relationship:".to_string();
            text::append(&mut feature, rel.kind.as_str());
            let ghost before = finding_views(rep.findings@);
            if rel.external {
                rep.record(
                    None,
                    part,
                    rel.id.as_str(),
                    feature.as_str(),
                    Disposition::Unsupported,
                    "External target not fetched; import does not preserve this relationship",
                );
            } else {
                rep.record(
                    None,
                    part,
                    rel.id.as_str(),
                    feature.as_str(),
                    Disposition::Converted,
                    "Internal target validated",
                );
            }
            assert(finding_views(rep.findings@) == before.push(rel_finding(part@, rv[i as int])));
            proof {
                if let Ok(rest) = rel_findings(self@, part@, rv, i + 1) {
                    assert(before + (seq![rel_finding(part@, rv[i as int])] + rest) =~= before.push(
                        rel_finding(part@, rv[i as int]),
                    ) + rest);
                }
            }
            i += 1;
        }
        assert(finding_views(rep.findings@) + Seq::<FindingView>::empty() =~= finding_views(rep.findings@));
        Ok(rep.findings)
    }
}

impl Package {
    /// The structural checks of an XML or relationship part (see
    /// [`structural_findings`]).
    fn structural(&self, part: &str) -> (r: Result<Vec<Finding>, String>)
        ensures
            match r {
                Ok(fs) => structural_findings(self@, part@) == Ok::<Seq<FindingView>, Seq<char>>(
                    finding_views(fs@),
                ),
                Err(e) => structural_findings(self@, part@) == Err::<Seq<FindingView>, Seq<char>>(e@),
            },
    {
        let doc = self.xml(part)?;
        if let Some(e) = shape_fault(&doc, part) {
            return Err(e);
        }
        let pc = text::chars_of(part);
        let suffix = text::chars_of(".rels");
        if text::ends_with_chars(pc.as_slice(), suffix.as_slice()) {
            let owner = owner_path(part)?;
            proof {
                lemma_part_index(self@, owner@, 0);
            }
            if text::chars_of(owner.as_str()).len() > 0 && self.find_part(owner.as_str()).is_none() {
                return Err(msg("orphan relationships: ", part));
            }
            let rels = self.rels(owner.as_str())?;
            self.rel_findings_of(part, &rels)
        } else {
            let rels = self.rels(part)?;
            match unresolved(&doc, &rels, part) {
                Some(e) => Err(e),
                None => {
                    let none: Vec<Finding> = Vec::new();
                    assert(finding_views(none@) =~= Seq::<FindingView>::empty());
                    Ok(none)
                },
            }
        }
    }

    /// What validating one part contributes (see [`part_findings`]).
    fn part_check(&self, ct: &XmlDoc, part: &str) -> (r: Result<Vec<Finding>, String>)
        ensures
            match r {
                Ok(fs) => part_findings(self@, node_views(ct.nodes@), attr_views(ct.attrs@), part@) == Ok::<
                    Seq<FindingView>,
                    Seq<char>,
                >(finding_views(fs@)),
                Err(e) => part_findings(self@, node_views(ct.nodes@), attr_views(ct.attrs@), part@) == Err::<
                    Seq<FindingView>,
                    Seq<char>,
                >(e@),
            },
    {
        let pc = text::chars_of(part);
        let ct_name = text::chars_of("[Content_Types].xml");
        let is_ct = text::eq_chars(pc.as_slice(), ct_name.as_slice());
        let mut slash_part: Vec<char> = vec!['/'];
        text::push_all(&mut slash_part, pc.as_slice());
        assert(slash_part@ =~= seq!['/'] + part@);
        let ext: Vec<char> = match text::rfind_char(pc.as_slice(), '.') {
            Some(i) => text::slice_vec(pc.as_slice(), i + 1, pc.len()),
            None => pc.clone(),
        };
        assert(ext@ == extension_of(part@));
        if !is_ct && !declares_in(ct, "Override", "PartName", slash_part.as_slice()) && !declares_in(
            ct,
            "Default",
            "Extension",
            ext.as_slice(),
        ) {
            return Err(msg("missing content type for ", part));
        }
        let xml_suffix = text::chars_of(".xml");
        let rels_suffix = text::chars_of(".rels");
        let mut fs: Vec<Finding> = if text::ends_with_chars(pc.as_slice(), xml_suffix.as_slice())
            || text::ends_with_chars(pc.as_slice(), rels_suffix.as_slice()) {
            self.structural(part)?
        } else {
            let none: Vec<Finding> = Vec::new();
            assert(finding_views(none@) =~= Seq::<FindingView>::empty());
            none
        };
        if is_active(part) {
            let mut rep = Report { schema_version: 1, findings: fs };
            rep.record(
                None,
                part,
                "package",
                "active_or_embedded_content",
                Disposition::Conflicting,
                "Quarantine this package; macros/OLE/ActiveX are never executed or imported",
            );
            fs = rep.findings;
        }
        Ok(fs)
    }

    /// Validate the package's zip, XML, content-type and relationship
    /// closure without fetching any target (see [`validate_spec`]). This
    /// is structural evidence, not Office conformance.
    pub fn validate(&self) -> (r: Result<Report, String>)
        ensures
            match r {
                Ok(rep) => rep.schema_version == 1 && validate_spec(self@) == Ok::<
                    Seq<FindingView>,
                    Seq<char>,
                >(finding_views(rep.findings@)),
                Err(e) => validate_spec(self@) == Err::<Seq<FindingView>, Seq<char>>(e@),
            },
    {
        let ct = self.xml("[Content_Types].xml")?;
        let ghost cn = node_views(ct.nodes@);
        let ghost ca = attr_views(ct.attrs@);
        let mut report = Report::default();
        assert(finding_views(report.findings@) =~= Seq::<FindingView>::empty());
        let mut i: usize = 0;
        while i < self.parts.len()
            invariant
                i <= self.parts.len(),
                cn == node_views(ct.nodes@),
                ca == attr_views(ct.attrs@),
                report.schema_version == 1,
                validate_spec(self@) == validate_from(self@, cn, ca, i as int, finding_views(report.findings@)),
            decreases self.parts.len() - i,
        {
            let mut fs = self.part_check(&ct, self.parts[i].0.as_str())?;
            let ghost before = finding_views(report.findings@);
            let ghost added = finding_views(fs@);
            report.findings.append(&mut fs);
            assert(finding_views(report.findings@) =~= before + added);
            i += 1;
        }
        Ok(report)
    }
}

/// The most bytes one part may hold once decompressed (32 MiB).
pub const MAX_PART: u64 = 33554432;

/// The most bytes a package may hold, compressed or decompressed (128 MiB).
pub const MAX_TOTAL: u64 = 134217728;

/// The most entries a package may hold.
pub const MAX_PARTS: usize = 4096;

/// Name for what the zip crate lists of an archive: the error text of
/// `ZipArchive::new` when it refuses the bytes; otherwise, entry by entry
/// in index order, the entry's name and declared uncompressed size, or the
/// error text of `ZipArchive::by_index`.
pub uninterp spec fn zip_listing(bytes: Seq<u8>) -> Result<Seq<Result<(Seq<char>, u64), Seq<char>>>, Seq<char>>;

/// Name for what the zip crate yields when entry `index` of the archive is
/// read to its end through `Read::take(limit)`, or the error text.
pub uninterp spec fn zip_content(bytes: Seq<u8>, index: usize, limit: u64) -> Result<Seq<u8>, Seq<char>>;

/// An entry of a listing as plain values.
pub open spec fn entry_view(e: Result<(String, u64), String>) -> Result<(Seq<char>, u64), Seq<char>> {
    match e {
        Ok((name, size)) => Ok((name@, size)),
        Err(m) => Err(m@),
    }
}

/// A listing as plain values.
pub open spec fn listing_view(r: Result<Vec<Result<(String, u64), String>>, String>) -> Result<
    Seq<Result<(Seq<char>, u64), Seq<char>>>,
    Seq<char>,
> {
    match r {
        Ok(v) => Ok(v@.map_values(|e: Result<(String, u64), String>| entry_view(e))),
        Err(m) => Err(m@),
    }
}

/// Opens `bytes` with `zip::ZipArchive::new` and lists each entry's
/// `name()` and `size()` through `by_index`. The listing is named, not
/// stated.
#[verifier::external_body]
fn zip_list(bytes: &[u8]) -> (r: Result<Vec<Result<(String, u64), String>>, String>)
    ensures
        listing_view(r) == zip_listing(bytes@),
{
    let mut zip = zip::ZipArchive::new(std::io::Cursor::new(bytes)).map_err(|e| e.to_string())?;
    let n = zip.len();
    Ok((0..n).map(|i| match zip.by_index(i) {
        Ok(f) => Ok((f.name().to_owned(), f.size())),
        Err(e) => Err(e.to_string()),
    }).collect())
}

/// Opens `bytes` with `zip::ZipArchive::new` and reads entry `index`
/// (`by_index`) to its end through `Read::take(limit)`, so never more than
/// `limit` bytes. The bytes read are named, not stated.
#[verifier::external_body]
fn zip_read(bytes: &[u8], index: usize, limit: u64) -> (r: Result<Vec<u8>, String>)
    ensures
        match r {
            Ok(d) => zip_content(bytes@, index, limit) == Ok::<Seq<u8>, Seq<char>>(d@) && d@.len() <= limit,
            Err(e) => zip_content(bytes@, index, limit) == Err::<Seq<u8>, Seq<char>>(e@),
        },
{
    let mut zip = zip::ZipArchive::new(std::io::Cursor::new(bytes)).map_err(|e| e.to_string())?;
    let file = zip.by_index(index).map_err(|e| e.to_string())?;
    let mut data = Vec::new();
    std::io::Read::read_to_end(&mut std::io::Read::take(file, limit), &mut data).map_err(|e| e.to_string())?;
    Ok(data)
}

/// An entry name that the zip crate takes for a directory: one ending in
/// `/` or `\\`.
pub open spec fn zip_dir(name: Seq<char>) -> bool {
    name.len() > 0 && (name.last() == '/' || name.last() == '\\')
}

/// `x` inserted into `sorted` after every part whose name comes before
/// its own.
pub open spec fn insert_part(sorted: Seq<PartView>, x: PartView) -> Seq<PartView>
    decreases sorted.len(),
{
    if sorted.len() == 0 {
        seq![x]
    } else if text::seq_lt(sorted.last().0, x.0) {
        sorted.push(x)
    } else {
        insert_part(sorted.drop_last(), x).push(sorted.last())
    }
}

/// Some part is named `name`.
pub open spec fn has_part(parts: Seq<PartView>, name: Seq<char>) -> bool {
    exists|k: int| 0 <= k < parts.len() && (#[trigger] parts[k]).0 == name
}

/// The parts read from `entries[i..]` into `parts` (`total` bytes so far):
/// directories are skipped; a name must be safe and new, a part within
/// [`MAX_PART`] and the package within [`MAX_TOTAL`].
pub open spec fn read_from(
    bytes: Seq<u8>,
    entries: Seq<Result<(Seq<char>, u64), Seq<char>>>,
    i: int,
    parts: Seq<PartView>,
    total: int,
) -> Result<Seq<PartView>, Seq<char>>
    decreases entries.len() - i,
{
    if i < 0 || i >= entries.len() {
        Ok(parts)
    } else {
        match entries[i] {
            Err(e) => Err(e),
            Ok((name, size)) => if zip_dir(name) {
                read_from(bytes, entries, i + 1, parts, total)
            } else if !safe_part_spec(name) {
                Err("unsafe package path: "@ + name)
            } else if has_part(parts, name) {
                Err("duplicate package part: "@ + name)
            } else if size > MAX_PART {
                Err("part exceeds 32 MiB limit: "@ + name)
            } else {
                match zip_content(bytes, i as usize, (MAX_PART + 1) as u64) {
                    Err(e) => Err(e),
                    Ok(data) => if data.len() > MAX_PART || total + data.len() > MAX_TOTAL {
                        Err("package decompression limit exceeded"@)
                    } else {
                        read_from(bytes, entries, i + 1, insert_part(parts, (name, data)), total + data.len())
                    },
                }
            },
        }
    }
}

/// The parts of the package held in `bytes`, in name order.
pub open spec fn read_spec(bytes: Seq<u8>) -> Result<Seq<PartView>, Seq<char>> {
    if bytes.len() > MAX_TOTAL {
        Err("package exceeds 128 MiB limit"@)
    } else {
        match zip_listing(bytes) {
            Err(e) => Err(e),
            Ok(entries) => if entries.len() > MAX_PARTS {
                Err("package exceeds 4096 part limit"@)
            } else {
                read_from(bytes, entries, 0, Seq::empty(), 0)
            },
        }
    }
}

/// Whether the zip crate takes `name` for a directory (see [`zip_dir`]).
fn is_zip_dir(name: &str) -> (b: bool)
    ensures
        b == zip_dir(name@),
{
    let c = text::chars_of(name);
    c.len() > 0 && (c[c.len() - 1] == '/' || c[c.len() - 1] == '\\')
}

/// Insert a part into `parts` by name (see [`insert_part`]).
fn insert_part_exec(parts: &mut Vec<(String, Vec<u8>)>, name: String, data: Vec<u8>)
    ensures
        part_views(final(parts)@) == insert_part(part_views(old(parts)@), (name@, data@)),
{
    let ghost v = part_views(parts@);
    let ghost xv: PartView = (name@, data@);
    let nc = text::chars_of(name.as_str());
    let mut j: usize = parts.len();
    assert(v.take(j as int) =~= v);
    assert(v.skip(j as int) =~= Seq::<PartView>::empty());
    while j > 0 && !text::chars_lt(text::chars_of(parts[j - 1].0.as_str()).as_slice(), nc.as_slice())
        invariant
            j <= parts.len(),
            v == part_views(parts@),
            nc@ == name@,
            xv == (name@, data@),
            insert_part(v, xv) == insert_part(v.take(j as int), xv) + v.skip(j as int),
        decreases j,
    {
        let ghost t = v.take(j as int);
        assert(t.drop_last() =~= v.take(j - 1));
        assert(t.last() == v[j - 1]);
        assert(insert_part(t, xv) == insert_part(v.take(j - 1), xv).push(v[j - 1]));
        assert(insert_part(v.take(j - 1), xv).push(v[j - 1]) + v.skip(j as int) =~= insert_part(
            v.take(j - 1),
            xv,
        ) + v.skip(j - 1));
        j -= 1;
    }
    proof {
        if j > 0 {
            assert(v.take(j as int).last() == v[j - 1]);
        }
    }
    parts.insert(j, (name, data));
    assert(part_views(parts@) =~= v.take(j as int).push(xv) + v.skip(j as int));
}

impl Package {
    /// Read a package from the bytes of its zip (see [`read_spec`]): every
    /// entry but directories becomes a part, under a safe name met once,
    /// within the size limits.
    pub fn read(bytes: &[u8]) -> (r: Result<Package, String>)
        ensures
            match r {
                Ok(p) => read_spec(bytes@) == Ok::<Seq<PartView>, Seq<char>>(part_views(p.parts@)),
                Err(e) => read_spec(bytes@) == Err::<Seq<PartView>, Seq<char>>(e@),
            },
    {
        if bytes.len() as u64 > MAX_TOTAL {
            return Err("package exceeds 128 MiB limit".to_string());
        }
        let entries = zip_list(bytes)?;
        if entries.len() > MAX_PARTS {
            return Err("package exceeds 4096 part limit".to_string());
        }
        let ghost ev = entries@.map_values(|e: Result<(String, u64), String>| entry_view(e));
        let mut parts: Vec<(String, Vec<u8>)> = Vec::new();
        let mut total: u64 = 0;
        let mut i: usize = 0;
        assert(part_views(parts@) =~= Seq::<PartView>::empty());
        while i < entries.len()
            invariant
                i <= entries.len(),
                entries.len() <= MAX_PARTS,
                total <= MAX_TOTAL,
                ev == entries@.map_values(|e: Result<(String, u64), String>| entry_view(e)),
                read_spec(bytes@) == read_from(bytes@, ev, i as int, part_views(parts@), total as int),
            decreases entries.len() - i,
        {
            assert(ev[i as int] == entry_view(entries@[i as int]));
            let (name, size) = match &entries[i] {
                Ok((n, sz)) => (n, *sz),
                Err(e) => return Err(e.clone()),
            };
            if !is_zip_dir(name.as_str()) {
                if !safe_part(name.as_str()) {
                    return Err(msg("unsafe package path: ", name.as_str()));
                }
                proof {
                    lemma_part_index(part_views(parts@), name@, 0);
                    if has_part(part_views(parts@), name@) {
                        let k = choose|k: int| 0 <= k < parts@.len() && (#[trigger] part_views(parts@)[k]).0 == name@;
                        assert(part_views(parts@)[k].0 == name@);
                    }
                }
                let pkg = Package { parts };
                let found = pkg.find_part(name.as_str());
                parts = pkg.parts;
                if let Some(k) = found {
                    assert(part_views(parts@)[k as int].0 == name@);
                    return Err(msg("duplicate package part: ", name.as_str()));
                }
                if size > MAX_PART {
                    return Err(msg("part exceeds 32 MiB limit: ", name.as_str()));
                }
                let data = zip_read(bytes, i, MAX_PART + 1)?;
                let len = data.len() as u64;
                if len > MAX_PART || total + len > MAX_TOTAL {
                    return Err("package decompression limit exceeded".to_string());
                }
                total = total + len;
                insert_part_exec(&mut parts, name.clone(), data);
            }
            i += 1;
        }
        Ok(Package { parts })
    }
}

/// What validating the package held in `bytes` gives.
pub open spec fn validate_package_spec(bytes: Seq<u8>) -> Result<Seq<FindingView>, Seq<char>> {
    match read_spec(bytes) {
        Err(e) => Err(e),
        Ok(parts) => validate_spec(parts),
    }
}

/// Read the package held in `bytes` and validate its zip, XML,
/// content-type and relationship closure, without authorizing the import
/// of an outside deck. This is structural evidence, not Office
/// conformance.
pub fn validate_package(bytes: &[u8]) -> (r: Result<Report, String>)
    ensures
        match r {
            Ok(rep) => rep.schema_version == 1 && validate_package_spec(bytes@) == Ok::<Seq<FindingView>, Seq<char>>(
                finding_views(rep.findings@),
            ),
            Err(e) => validate_package_spec(bytes@) == Err::<Seq<FindingView>, Seq<char>>(e@),
        },
{
    let pkg = Package::read(bytes)?;
    pkg.validate()
}

/// Names in strictly ascending code point order (so each name once).
pub open spec fn names_ascending(parts: Seq<PartView>) -> bool {
    forall|i: int, j: int| 0 <= i < j < parts.len() ==> text::seq_lt(#[trigger] parts[i].0, #[trigger] parts[j].0)
}

proof fn lemma_insert_part(ps: Seq<PartView>, x: PartView)
    requires
        names_ascending(ps),
        !has_part(ps, x.0),
    ensures
        names_ascending(insert_part(ps, x)),
        forall|y: PartView| #[trigger] insert_part(ps, x).contains(y) <==> (y == x || ps.contains(y)),
    decreases ps.len(),
{
    let r = insert_part(ps, x);
    if ps.len() == 0 {
        assert forall|y: PartView| r.contains(y) <==> (y == x || ps.contains(y)) by {
            if r.contains(y) {
                assert(r[0] == y);
            }
            if y == x {
                assert(r[0] == y);
            }
        }
    } else {
        let last = ps.last();
        let front = ps.drop_last();
        assert(ps[ps.len() - 1] == last);
        if text::seq_lt(last.0, x.0) {
            assert forall|i: int, j: int| 0 <= i < j < r.len() implies text::seq_lt(#[trigger] r[i].0, #[trigger] r[j].0) by {
                if j == ps.len() {
                    if i < ps.len() - 1 {
                        text::lemma_seq_lt_transitive(ps[i].0, last.0, x.0);
                    }
                } else {
                    assert(r[i] == ps[i] && r[j] == ps[j]);
                }
            }
            assert forall|y: PartView| r.contains(y) <==> (y == x || ps.contains(y)) by {
                if r.contains(y) {
                    let k = choose|k: int| 0 <= k < r.len() && r[k] == y;
                    if k < ps.len() {
                        assert(ps[k] == y);
                    }
                }
                if y == x {
                    assert(r[ps.len() as int] == y);
                }
                if ps.contains(y) {
                    let k = choose|k: int| 0 <= k < ps.len() && ps[k] == y;
                    assert(r[k] == y);
                }
            }
        } else {
            assert(last.0 != x.0);
            text::lemma_seq_lt_total(last.0, x.0);
            assert forall|i: int, j: int| 0 <= i < j < front.len() implies text::seq_lt(#[trigger] front[i].0, #[trigger] front[j].0) by {
                assert(front[i] == ps[i] && front[j] == ps[j]);
            }
            assert(!has_part(front, x.0)) by {
                if has_part(front, x.0) {
                    let k = choose|k: int| 0 <= k < front.len() && (#[trigger] front[k]).0 == x.0;
                    assert(ps[k] == front[k]);
                }
            }
            lemma_insert_part(front, x);
            let m = insert_part(front, x);
            assert(r == m.push(last));
            assert forall|i: int| 0 <= i < m.len() implies text::seq_lt(#[trigger] m[i].0, last.0) by {
                assert(m.contains(m[i]));
                if m[i] != x {
                    assert(front.contains(m[i]));
                    let k = choose|k: int| 0 <= k < front.len() && front[k] == m[i];
                    assert(ps[k] == front[k]);
                    assert(ps[ps.len() - 1] == last);
                }
            }
            assert forall|i: int, j: int| 0 <= i < j < r.len() implies text::seq_lt(#[trigger] r[i].0, #[trigger] r[j].0) by {
                if j == m.len() {
                    assert(r[i] == m[i]);
                } else {
                    assert(r[i] == m[i] && r[j] == m[j]);
                }
            }
            assert forall|y: PartView| r.contains(y) <==> (y == x || ps.contains(y)) by {
                if r.contains(y) {
                    let k = choose|k: int| 0 <= k < r.len() && r[k] == y;
                    if k < m.len() {
                        assert(m.contains(y));
                        if y != x {
                            assert(front.contains(y));
                            let k2 = choose|k2: int| 0 <= k2 < front.len() && front[k2] == y;
                            assert(ps[k2] == y);
                        }
                    } else {
                        assert(ps[ps.len() - 1] == y);
                    }
                }
                if y == x {
                    assert(m.contains(x));
                    let k = choose|k: int| 0 <= k < m.len() && m[k] == y;
                    assert(r[k] == y);
                }
                if ps.contains(y) {
                    let k = choose|k: int| 0 <= k < ps.len() && ps[k] == y;
                    if k < ps.len() - 1 {
                        assert(front[k] == y);
                        assert(front.contains(y));
                        assert(m.contains(y));
                        let k2 = choose|k2: int| 0 <= k2 < m.len() && m[k2] == y;
                        assert(r[k2] == y);
                    } else {
                        assert(r[m.len() as int] == y);
                    }
                }
            }
        }
    }
}

proof fn lemma_read_from_ascending(
    bytes: Seq<u8>,
    entries: Seq<Result<(Seq<char>, u64), Seq<char>>>,
    i: int,
    parts: Seq<PartView>,
    total: int,
)
    requires
        names_ascending(parts),
    ensures
        read_from(bytes, entries, i, parts, total) matches Ok(ps) ==> names_ascending(ps),
    decreases entries.len() - i,
{
    if 0 <= i < entries.len() {
        if let Ok((name, size)) = entries[i] {
            if zip_dir(name) {
                lemma_read_from_ascending(bytes, entries, i + 1, parts, total);
            } else if safe_part_spec(name) && !has_part(parts, name) && size <= MAX_PART {
                if let Ok(data) = zip_content(bytes, i as usize, (MAX_PART + 1) as u64) {
                    if !(data.len() > MAX_PART || total + data.len() > MAX_TOTAL) {
                        lemma_insert_part(parts, (name, data));
                        lemma_read_from_ascending(
                            bytes,
                            entries,
                            i + 1,
                            insert_part(parts, (name, data)),
                            total + data.len(),
                        );
                    }
                }
            }
        }
    }
}

/// A package read from zip bytes has its parts in strictly ascending name
/// order, so no part name occurs twice.
pub proof fn lemma_read_names_ascending(bytes: Seq<u8>)
    ensures
        read_spec(bytes) matches Ok(parts) ==> names_ascending(parts),
{
    if let Ok(entries) = zip_listing(bytes) {
        lemma_read_from_ascending(bytes, entries, 0, Seq::empty(), 0);
    }
}

/// The bytes of all parts together.
pub open spec fn total_bytes(parts: Seq<PartView>) -> int
    decreases parts.len(),
{
    if parts.len() == 0 {
        0
    } else {
        total_bytes(parts.drop_last()) + parts.last().1.len()
    }
}

/// Parts within the package bounds: safe names, each within
/// [`MAX_PART`] bytes.
pub open spec fn parts_bounded(parts: Seq<PartView>) -> bool {
    forall|k: int| 0 <= k < parts.len() ==> safe_part_spec((#[trigger] parts[k]).0) && parts[k].1.len() <= MAX_PART
}

proof fn lemma_insert_part_total(ps: Seq<PartView>, x: PartView)
    ensures
        total_bytes(insert_part(ps, x)) == total_bytes(ps) + x.1.len(),
        insert_part(ps, x).len() == ps.len() + 1,
    decreases ps.len(),
{
    if ps.len() == 0 {
        assert(seq![x].drop_last() =~= Seq::<PartView>::empty());
        assert(total_bytes(seq![x]) == total_bytes(Seq::<PartView>::empty()) + x.1.len());
    } else if text::seq_lt(ps.last().0, x.0) {
        assert(ps.push(x).drop_last() =~= ps);
        assert(total_bytes(ps.push(x)) == total_bytes(ps) + x.1.len());
    } else {
        lemma_insert_part_total(ps.drop_last(), x);
        let m = insert_part(ps.drop_last(), x);
        assert(m.push(ps.last()).drop_last() =~= m);
        assert(total_bytes(m.push(ps.last())) == total_bytes(m) + ps.last().1.len());
        assert(insert_part(ps, x) == m.push(ps.last()));
    }
}

proof fn lemma_read_from_bounded(
    bytes: Seq<u8>,
    entries: Seq<Result<(Seq<char>, u64), Seq<char>>>,
    i: int,
    parts: Seq<PartView>,
    total: int,
)
    requires
        0 <= i <= entries.len(),
        names_ascending(parts),
        parts_bounded(parts),
        parts.len() <= i,
        total == total_bytes(parts),
        total <= MAX_TOTAL,
    ensures
        read_from(bytes, entries, i, parts, total) matches Ok(ps) ==> parts_bounded(ps) && ps.len() <= entries.len()
            + parts.len() - i && total_bytes(ps) <= MAX_TOTAL,
    decreases entries.len() - i,
{
    if 0 <= i < entries.len() {
        if let Ok((name, size)) = entries[i] {
            if zip_dir(name) {
                lemma_read_from_bounded(bytes, entries, i + 1, parts, total);
            } else if safe_part_spec(name) && !has_part(parts, name) && size <= MAX_PART {
                if let Ok(data) = zip_content(bytes, i as usize, (MAX_PART + 1) as u64) {
                    if !(data.len() > MAX_PART || total + data.len() > MAX_TOTAL) {
                        let x: PartView = (name, data);
                        lemma_insert_part(parts, x);
                        lemma_insert_part_total(parts, x);
                        let next = insert_part(parts, x);
                        assert forall|k: int| 0 <= k < next.len() implies safe_part_spec(
                            (#[trigger] next[k]).0,
                        ) && next[k].1.len() <= MAX_PART by {
                            assert(next.contains(next[k]));
                            if next[k] != x {
                                assert(parts.contains(next[k]));
                                let j = choose|j: int| 0 <= j < parts.len() && parts[j] == next[k];
                                assert(parts_bounded(parts));
                                assert(safe_part_spec(parts[j].0));
                            }
                        }
                        lemma_read_from_bounded(bytes, entries, i + 1, next, total + data.len());
                    }
                }
            }
        }
    }
}

/// A package read from zip bytes stays within its bounds: at most
/// [`MAX_PARTS`] parts, each under a safe name and within [`MAX_PART`]
/// bytes, all together within [`MAX_TOTAL`] bytes.
pub proof fn lemma_read_bounded(bytes: Seq<u8>)
    ensures
        read_spec(bytes) matches Ok(parts) ==> parts_bounded(parts) && parts.len() <= MAX_PARTS && total_bytes(parts)
            <= MAX_TOTAL,
{
    if let Ok(entries) = zip_listing(bytes) {
        if bytes.len() <= MAX_TOTAL && entries.len() <= MAX_PARTS {
            lemma_read_from_bounded(bytes, entries, 0, Seq::empty(), 0);
        }
    }
}

} // verus!
