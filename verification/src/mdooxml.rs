//! Markdown bodies as DrawingML paragraphs (`<a:p>`), for filling the text
//! placeholders of a deck slide. Bullet items become paragraphs with the
//! square bullet (`buChar` U+25AA), nested by `lvl` and the indent of
//! `marL`; other paragraphs get `buNone`; emphasis becomes run properties;
//! a heading is a bold paragraph without bullet; inline code is set in a
//! monospace face. Markdown is tokenized by pulldown-cmark; the walk over
//! its events is this module's own.
use vstd::prelude::*;
use crate::text;
use pulldown_cmark::{Event, Options, Parser, Tag, TagEnd};

verus! {

broadcast use vstd::string::group_string_axioms;

/// Indent step per bullet level, in EMU.
pub const INDENT_EMU: i64 = 285750;

/// The kinds of markdown containers the walk tells apart.
#[derive(Debug, Clone, Copy, PartialEq, Eq, Structural)]
pub enum MdTag {
    List,
    Item,
    Paragraph,
    Heading,
    Strong,
    Emphasis,
    CodeBlock,
    Other,
}

/// The inline content events the walk tells apart.
#[derive(Debug, Clone)]
pub enum MdText {
    Text(String),
    Code(String),
    SoftBreak,
    HardBreak,
}

/// One markdown event.
#[derive(Debug, Clone)]
pub enum MdEvent {
    Start(MdTag),
    End(MdTag),
    Text(String),
    Code(String),
    SoftBreak,
    HardBreak,
    Other,
}

/// An inline content event as plain values.
pub enum MdTextView {
    Text(Seq<char>),
    Code(Seq<char>),
    SoftBreak,
    HardBreak,
}

/// A markdown event as plain values.
pub enum MdEventView {
    Start(MdTag),
    End(MdTag),
    Text(Seq<char>),
    Code(Seq<char>),
    SoftBreak,
    HardBreak,
    Other,
}

impl MdText {
    pub open spec fn view(&self) -> MdTextView {
        match self {
            MdText::Text(t) => MdTextView::Text(t@),
            MdText::Code(t) => MdTextView::Code(t@),
            MdText::SoftBreak => MdTextView::SoftBreak,
            MdText::HardBreak => MdTextView::HardBreak,
        }
    }
}

impl MdEvent {
    pub open spec fn view(&self) -> MdEventView {
        match self {
            MdEvent::Start(t) => MdEventView::Start(*t),
            MdEvent::End(t) => MdEventView::End(*t),
            MdEvent::Text(t) => MdEventView::Text(t@),
            MdEvent::Code(t) => MdEventView::Code(t@),
            MdEvent::SoftBreak => MdEventView::SoftBreak,
            MdEvent::HardBreak => MdEventView::HardBreak,
            MdEvent::Other => MdEventView::Other,
        }
    }
}

pub open spec fn event_views(v: Seq<MdEvent>) -> Seq<MdEventView> {
    v.map_values(|e: MdEvent| e.view())
}

/// Name for the events pulldown-cmark's `Parser::new_ext` yields for
/// `markdown` with no extension enabled, each classified: the start and
/// end of a list, item, paragraph, heading, strong or emphasis span, or
/// code block (`Other` for any other container), text, inline code, soft
/// and hard breaks, and `Other` for any other event.
pub uninterp spec fn md_events(markdown: Seq<char>) -> Seq<MdEventView>;

/// The container an event starts.
pub open spec fn start_of(e: MdEventView) -> Option<MdTag> {
    match e {
        MdEventView::Start(t) => Some(t),
        _ => None,
    }
}

/// The container an event ends.
pub open spec fn end_of(e: MdEventView) -> Option<MdTag> {
    match e {
        MdEventView::End(t) => Some(t),
        _ => None,
    }
}

/// The inline content of an event.
pub open spec fn text_of(e: MdEventView) -> Option<MdTextView> {
    match e {
        MdEventView::Text(t) => Some(MdTextView::Text(t)),
        MdEventView::Code(t) => Some(MdTextView::Code(t)),
        MdEventView::SoftBreak => Some(MdTextView::SoftBreak),
        MdEventView::HardBreak => Some(MdTextView::HardBreak),
        _ => None,
    }
}

pub open spec fn text_views(v: Seq<Option<MdText>>) -> Seq<Option<MdTextView>> {
    v.map_values(
        |t: Option<MdText>|
            match t {
                Some(x) => Some(x.view()),
                None => None,
            },
    )
}

/// For each event pulldown-cmark yields for `markdown`, the container it
/// starts, if it is a start. The events are named, not stated.
#[verifier::external_body]
fn md_starts(markdown: &str) -> (r: Vec<Option<MdTag>>)
    ensures
        r@ == md_events(markdown@).map_values(|e: MdEventView| start_of(e)),
{
    Parser::new_ext(markdown, Options::empty()).map(|e| match e {
        Event::Start(Tag::List(_)) => Some(MdTag::List),
        Event::Start(Tag::Item) => Some(MdTag::Item),
        Event::Start(Tag::Paragraph) => Some(MdTag::Paragraph),
        Event::Start(Tag::Heading { .. }) => Some(MdTag::Heading),
        Event::Start(Tag::Strong) => Some(MdTag::Strong),
        Event::Start(Tag::Emphasis) => Some(MdTag::Emphasis),
        Event::Start(Tag::CodeBlock(_)) => Some(MdTag::CodeBlock),
        Event::Start(_) => Some(MdTag::Other),
        _ => None,
    }).collect()
}

/// For each event pulldown-cmark yields for `markdown`, the container it
/// ends, if it is an end. The events are named, not stated.
#[verifier::external_body]
fn md_ends(markdown: &str) -> (r: Vec<Option<MdTag>>)
    ensures
        r@ == md_events(markdown@).map_values(|e: MdEventView| end_of(e)),
{
    Parser::new_ext(markdown, Options::empty()).map(|e| match e {
        Event::End(TagEnd::List(_)) => Some(MdTag::List),
        Event::End(TagEnd::Item) => Some(MdTag::Item),
        Event::End(TagEnd::Paragraph) => Some(MdTag::Paragraph),
        Event::End(TagEnd::Heading(_)) => Some(MdTag::Heading),
        Event::End(TagEnd::Strong) => Some(MdTag::Strong),
        Event::End(TagEnd::Emphasis) => Some(MdTag::Emphasis),
        Event::End(TagEnd::CodeBlock) => Some(MdTag::CodeBlock),
        Event::End(_) => Some(MdTag::Other),
        _ => None,
    }).collect()
}

/// For each event pulldown-cmark yields for `markdown`, its inline
/// content, if it is text, inline code or a break. The events are named,
/// not stated.
#[verifier::external_body]
fn md_texts(markdown: &str) -> (r: Vec<Option<MdText>>)
    ensures
        text_views(r@) == md_events(markdown@).map_values(|e: MdEventView| text_of(e)),
{
    Parser::new_ext(markdown, Options::empty()).map(|e| match e {
        Event::Text(t) => Some(MdText::Text(t.into_string())),
        Event::Code(t) => Some(MdText::Code(t.into_string())),
        Event::SoftBreak => Some(MdText::SoftBreak),
        Event::HardBreak => Some(MdText::HardBreak),
        _ => None,
    }).collect()
}

/// The events of `markdown` (see [`md_events`]).
pub fn markdown_events(markdown: &str) -> (r: Vec<MdEvent>)
    ensures
        event_views(r@) == md_events(markdown@),
{
    let starts = md_starts(markdown);
    let ends = md_ends(markdown);
    let texts = md_texts(markdown);
    let ghost evs = md_events(markdown@);
    assert(text_views(texts@).len() == texts@.len());
    let mut out: Vec<MdEvent> = Vec::new();
    let mut i: usize = 0;
    while i < starts.len()
        invariant
            i <= starts.len(),
            texts.len() == starts.len(),
            ends.len() == starts.len(),
            evs == md_events(markdown@),
            starts@ == evs.map_values(|e: MdEventView| start_of(e)),
            ends@ == evs.map_values(|e: MdEventView| end_of(e)),
            text_views(texts@) == evs.map_values(|e: MdEventView| text_of(e)),
            event_views(out@) == evs.take(i as int),
        decreases starts.len() - i,
    {
        assert(starts@[i as int] == start_of(evs[i as int]));
        assert(ends@[i as int] == end_of(evs[i as int]));
        assert(text_views(texts@)[i as int] == text_of(evs[i as int]));
        let e = match starts[i] {
            Some(t) => MdEvent::Start(t),
            None => match ends[i] {
                Some(t) => MdEvent::End(t),
                None => match &texts[i] {
                    Some(MdText::Text(t)) => MdEvent::Text(t.clone()),
                    Some(MdText::Code(t)) => MdEvent::Code(t.clone()),
                    Some(MdText::SoftBreak) => MdEvent::SoftBreak,
                    Some(MdText::HardBreak) => MdEvent::HardBreak,
                    None => MdEvent::Other,
                },
            },
        };
        proof {
            let ev = evs[i as int];
            match ev {
                MdEventView::Start(t) => {},
                MdEventView::End(t) => {},
                _ => {
                    assert(start_of(ev) is None);
                    assert(end_of(ev) is None);
                },
            }
        }
        assert(e.view() == evs[i as int]);
        let ghost before = event_views(out@);
        out.push(e);
        assert(event_views(out@) =~= before.push(e.view()));
        i += 1;
        assert(evs.take(i as int) =~= evs.take(i - 1).push(evs[i - 1]));
    }
    assert(evs.take(starts.len() as int) =~= evs);
    out
}

/// Text escaped for an `<a:t>` element: `&`, `<` and `>`.
pub open spec fn escape_text(s: Seq<char>) -> Seq<char>
    decreases s.len(),
{
    if s.len() == 0 {
        s
    } else {
        escape_text(s.drop_last()) + if s.last() == '&' {
            "&amp;"@
        } else if s.last() == '<' {
            "&lt;"@
        } else if s.last() == '>' {
            "&gt;"@
        } else {
            seq![s.last()]
        }
    }
}

/// `s` escaped for an `<a:t>` element (see [`escape_text`]).
pub fn text_escape(s: &str) -> (r: String)
    ensures
        r@ == escape_text(s@),
{
    let c = text::chars_of(s);
    let mut out = String::new();
    let mut i: usize = 0;
    assert(c@.take(0) =~= Seq::<char>::empty());
    while i < c.len()
        invariant
            i <= c.len(),
            c@ == s@,
            out@ == escape_text(c@.take(i as int)),
        decreases c.len() - i,
    {
        assert(c@.take(i + 1).drop_last() =~= c@.take(i as int));
        let ch = c[i];
        if ch == '&' {
            text::append(&mut out, "&amp;");
        } else if ch == '<' {
            text::append(&mut out, "&lt;");
        } else if ch == '>' {
            text::append(&mut out, "&gt;");
        } else {
            out.push(ch);
        }
        i += 1;
    }
    assert(c@.take(c.len() as int) =~= c@);
    out
}

/// One inline run: text with the emphasis active when it was written.
#[derive(Debug, Clone)]
pub struct Run {
    pub text: String,
    pub bold: bool,
    pub italic: bool,
    pub mono: bool,
}

/// A run as plain values.
pub struct RunView {
    pub text: Seq<char>,
    pub bold: bool,
    pub italic: bool,
    pub mono: bool,
}

impl Run {
    pub open spec fn view(&self) -> RunView {
        RunView { text: self.text@, bold: self.bold, italic: self.italic, mono: self.mono }
    }
}

pub open spec fn run_views(v: Seq<Run>) -> Seq<RunView> {
    v.map_values(|r: Run| r.view())
}

/// The `<a:r>` of a run: its properties, then its escaped text.
pub open spec fn run_xml_spec(r: RunView) -> Seq<char> {
    "<a:r><a:rPr lang=\"en-US\""@ + (if r.bold {
        " b=\"1\""@
    } else {
        Seq::empty()
    }) + (if r.italic {
        " i=\"1\""@
    } else {
        Seq::empty()
    }) + (if r.mono {
        "><a:latin typeface=\"Consolas\"/></a:rPr>"@
    } else {
        "/>"@
    }) + "<a:t>"@ + escape_text(r.text) + "</a:t></a:r>"@
}

/// The runs of a paragraph, one after another.
pub open spec fn runs_xml(runs: Seq<RunView>) -> Seq<char>
    decreases runs.len(),
{
    if runs.len() == 0 {
        Seq::empty()
    } else {
        runs_xml(runs.drop_last()) + run_xml_spec(runs.last())
    }
}

/// The paragraph properties of a paragraph without bullet.
pub open spec fn no_bullet() -> Seq<char> {
    "<a:pPr marL=\"0\" indent=\"0\"><a:buNone/></a:pPr>"@
}

/// The paragraph properties: a square bullet indented by level for a list
/// item, no bullet otherwise.
pub open spec fn ppr(bullet: bool, level: nat) -> Seq<char> {
    if bullet && level > 0 {
        "<a:pPr marL=\""@ + text::decimal(285750 * level) + "\" indent=\"-285750\""@ + (if level > 1 {
            " lvl=\""@ + text::decimal((level - 1) as nat) + "\""@
        } else {
            Seq::empty()
        }) + "><a:buFont typeface=\"Arial\"/><a:buChar char=\"&#9642;\"/></a:pPr>"@
    } else {
        no_bullet()
    }
}

/// The state of the walk over a markdown body.
pub struct WalkState {
    /// Paragraphs written so far.
    pub out: Seq<Seq<char>>,
    /// Runs of the paragraph being gathered.
    pub runs: Seq<RunView>,
    /// List nesting depth (0 outside lists).
    pub list_level: nat,
    /// The paragraph being gathered is a list item.
    pub in_item: bool,
    /// The paragraph being gathered is a heading.
    pub heading: bool,
    /// Open strong spans.
    pub bold: nat,
    /// Open emphasis spans.
    pub italic: nat,
}

pub open spec fn initial_walk() -> WalkState {
    WalkState {
        out: Seq::empty(),
        runs: Seq::empty(),
        list_level: 0,
        in_item: false,
        heading: false,
        bold: 0,
        italic: 0,
    }
}

/// Write the gathered runs as one paragraph (nothing when there are none);
/// either way the next paragraph is not an item until an item starts.
pub open spec fn flush_spec(s: WalkState) -> WalkState {
    if s.runs.len() == 0 {
        WalkState { in_item: false, ..s }
    } else {
        WalkState {
            out: s.out.push("<a:p>"@ + ppr(s.in_item, s.list_level) + runs_xml(s.runs) + "</a:p>"@),
            runs: Seq::empty(),
            in_item: false,
            ..s
        }
    }
}

/// Add text with the given emphasis, merged into the last run when that
/// run has the same emphasis; empty text adds nothing.
pub open spec fn add_text(s: WalkState, t: Seq<char>, bold: bool, italic: bool, mono: bool) -> WalkState {
    if t.len() == 0 {
        s
    } else if s.runs.len() > 0 && s.runs.last().bold == bold && s.runs.last().italic == italic
        && s.runs.last().mono == mono {
        WalkState {
            runs: s.runs.drop_last().push(RunView { text: s.runs.last().text + t, ..s.runs.last() }),
            ..s
        }
    } else {
        WalkState { runs: s.runs.push(RunView { text: t, bold, italic, mono }), ..s }
    }
}

/// Add text with the emphasis currently open (headings are bold); inline
/// code is the only monospace text.
pub open spec fn push_text_spec(s: WalkState, t: Seq<char>) -> WalkState {
    add_text(s, t, s.bold > 0 || s.heading, s.italic > 0, false)
}

/// One step of the walk.
pub open spec fn step(s: WalkState, e: MdEventView) -> WalkState {
    match e {
        MdEventView::Start(MdTag::List) => WalkState { list_level: flush_spec(s).list_level + 1, ..flush_spec(s) },
        MdEventView::End(MdTag::List) => WalkState {
            list_level: if s.list_level > 0 {
                (s.list_level - 1) as nat
            } else {
                0
            },
            ..s
        },
        MdEventView::Start(MdTag::Item) => WalkState { in_item: true, ..flush_spec(s) },
        MdEventView::End(MdTag::Item) => flush_spec(s),
        MdEventView::End(MdTag::Paragraph) => if s.in_item {
            s
        } else {
            flush_spec(s)
        },
        MdEventView::Start(MdTag::Heading) => WalkState { heading: true, ..s },
        MdEventView::End(MdTag::Heading) => WalkState { heading: false, ..flush_spec(s) },
        MdEventView::Start(MdTag::Strong) => WalkState { bold: s.bold + 1, ..s },
        MdEventView::End(MdTag::Strong) => WalkState {
            bold: if s.bold > 0 {
                (s.bold - 1) as nat
            } else {
                0
            },
            ..s
        },
        MdEventView::Start(MdTag::Emphasis) => WalkState { italic: s.italic + 1, ..s },
        MdEventView::End(MdTag::Emphasis) => WalkState {
            italic: if s.italic > 0 {
                (s.italic - 1) as nat
            } else {
                0
            },
            ..s
        },
        MdEventView::Text(t) => push_text_spec(s, t),
        MdEventView::Code(t) => add_text(s, t, s.bold > 0 || s.heading, s.italic > 0, true),
        MdEventView::SoftBreak | MdEventView::HardBreak => push_text_spec(s, " "@),
        MdEventView::Start(MdTag::CodeBlock) | MdEventView::End(MdTag::CodeBlock) => flush_spec(s),
        _ => s,
    }
}

/// The walk over a sequence of events.
pub open spec fn walk(s: WalkState, evs: Seq<MdEventView>) -> WalkState
    decreases evs.len(),
{
    if evs.len() == 0 {
        s
    } else {
        step(walk(s, evs.drop_last()), evs.last())
    }
}

/// The paragraphs of a markdown body: the walk over its events, the last
/// paragraph flushed; one empty paragraph when nothing was written.
pub open spec fn paragraphs_spec(markdown: Seq<char>) -> Seq<Seq<char>> {
    let f = flush_spec(walk(initial_walk(), md_events(markdown)));
    if f.out.len() == 0 {
        seq![no_bullet_paragraph()]
    } else {
        f.out
    }
}

/// An empty paragraph without bullet.
pub open spec fn no_bullet_paragraph() -> Seq<char> {
    "<a:p>"@ + no_bullet() + "</a:p>"@
}

/// A plain paragraph holding `t` in one unstyled run.
pub open spec fn plain_paragraph_spec(t: Seq<char>) -> Seq<char> {
    "<a:p>"@ + no_bullet() + "<a:r><a:rPr lang=\"en-US\"/><a:t>"@ + escape_text(t) + "</a:t></a:r></a:p>"@
}

/// The `<a:r>` of a run (see [`run_xml_spec`]).
fn run_xml(r: &Run) -> (x: String)
    ensures
        x@ == run_xml_spec(r.view()),
{
    let mut out = "<a:r><a:rPr lang=\"en-US\"".to_string();
    if r.bold {
        text::append(&mut out, " b=\"1\"");
    }
    if r.italic {
        text::append(&mut out, " i=\"1\"");
    }
    if r.mono {
        text::append(&mut out, "><a:latin typeface=\"Consolas\"/></a:rPr>");
    } else {
        text::append(&mut out, "/>");
    }
    text::append(&mut out, "<a:t>");
    let e = text_escape(r.text.as_str());
    text::append(&mut out, e.as_str());
    text::append(&mut out, "</a:t></a:r>");
    out
}

/// An empty paragraph without bullet.
fn empty_paragraph() -> (p: String)
    ensures
        p@ == no_bullet_paragraph(),
{
    let mut out = "<a:p>".to_string();
    text::append(&mut out, "<a:pPr marL=\"0\" indent=\"0\"><a:buNone/></a:pPr>");
    text::append(&mut out, "</a:p>");
    out
}

/// A single plain paragraph without bullet, for chrome fields such as the
/// headline or the footer that are not markdown bodies.
pub fn plain_paragraph(t: &str) -> (p: String)
    ensures
        p@ == plain_paragraph_spec(t@),
{
    let mut out = "<a:p>".to_string();
    text::append(&mut out, "<a:pPr marL=\"0\" indent=\"0\"><a:buNone/></a:pPr>");
    text::append(&mut out, "<a:r><a:rPr lang=\"en-US\"/><a:t>");
    let e = text_escape(t);
    text::append(&mut out, e.as_str());
    text::append(&mut out, "</a:t></a:r></a:p>");
    out
}

/// The walk over a markdown body.
struct Walker {
    out: Vec<String>,
    runs: Vec<Run>,
    list_level: usize,
    in_item: bool,
    heading: bool,
    bold: usize,
    italic: usize,
}

impl Walker {
    spec fn view(&self) -> WalkState {
        WalkState {
            out: text::string_views(self.out@),
            runs: run_views(self.runs@),
            list_level: self.list_level as nat,
            in_item: self.in_item,
            heading: self.heading,
            bold: self.bold as nat,
            italic: self.italic as nat,
        }
    }

    fn new() -> (w: Walker)
        ensures
            w.view() == initial_walk(),
    {
        let w = Walker {
            out: Vec::new(),
            runs: Vec::new(),
            list_level: 0,
            in_item: false,
            heading: false,
            bold: 0,
            italic: 0,
        };
        assert(text::string_views(w.out@) =~= Seq::<Seq<char>>::empty());
        assert(run_views(w.runs@) =~= Seq::<RunView>::empty());
        w
    }

    /// Write the gathered runs as one paragraph (see [`flush_spec`]).
    fn flush_paragraph(&mut self)
        ensures
            final(self).view() == flush_spec(old(self).view()),
    {
        if self.runs.len() == 0 {
            self.in_item = false;
            return;
        }
        let mut p = "<a:p>".to_string();
        if self.in_item && self.list_level > 0 {
            text::append(&mut p, "<a:pPr marL=\"");
            let mut digits: Vec<char> = Vec::new();
            text::push_decimal_wide(&mut digits, (self.list_level as u128) * 285750);
            let d = text::string_of(digits.as_slice());
            text::append(&mut p, d.as_str());
            text::append(&mut p, "\" indent=\"-285750\"");
            if self.list_level > 1 {
                text::append(&mut p, " lvl=\"");
                text::append_decimal(&mut p, (self.list_level - 1) as u64);
                text::append(&mut p, "\"");
            }
            text::append(&mut p, "><a:buFont typeface=\"Arial\"/><a:buChar char=\"&#9642;\"/></a:pPr>");
        } else {
            text::append(&mut p, "<a:pPr marL=\"0\" indent=\"0\"><a:buNone/></a:pPr>");
        }
        let ghost head = p@;
        assert(head == "<a:p>"@ + ppr(self.in_item, self.list_level as nat));
        let ghost rv = run_views(self.runs@);
        let mut k: usize = 0;
        assert(rv.take(0) =~= Seq::<RunView>::empty());
        while k < self.runs.len()
            invariant
                k <= self.runs.len(),
                rv == run_views(self.runs@),
                p@ == head + runs_xml(rv.take(k as int)),
            decreases self.runs.len() - k,
        {
            let x = run_xml(&self.runs[k]);
            text::append(&mut p, x.as_str());
            assert(rv.take(k + 1).drop_last() =~= rv.take(k as int));
            k += 1;
        }
        assert(rv.take(self.runs.len() as int) =~= rv);
        text::append(&mut p, "</a:p>");
        let ghost before = text::string_views(self.out@);
        self.out.push(p);
        assert(text::string_views(self.out@) =~= before.push(p@));
        self.runs = Vec::new();
        assert(run_views(self.runs@) =~= Seq::<RunView>::empty());
        self.in_item = false;
    }

    /// Add text with the given emphasis (see [`add_text`]).
    fn push_text(&mut self, t: &str, bold: bool, italic: bool, mono: bool)
        ensures
            final(self).view() == add_text(old(self).view(), t@, bold, italic, mono),
    {
        if text::chars_of(t).len() == 0 {
            return;
        }
        let n = self.runs.len();
        if n > 0 && self.runs[n - 1].bold == bold && self.runs[n - 1].italic == italic && self.runs[n - 1].mono
            == mono {
            let ghost before = run_views(self.runs@);
            let mut last = self.runs.pop().unwrap();
            assert(last.view() == before.last());
            assert(run_views(self.runs@) =~= before.drop_last());
            text::append(&mut last.text, t);
            let ghost lv = last.view();
            self.runs.push(last);
            assert(run_views(self.runs@) =~= before.drop_last().push(lv));
        } else {
            let ghost before = run_views(self.runs@);
            let r = Run { text: t.to_string(), bold, italic, mono };
            self.runs.push(r);
            assert(run_views(self.runs@) =~= before.push(r.view()));
        }
    }

    /// One step of the walk (see [`step`]).
    fn event(&mut self, e: &MdEvent)
        requires
            old(self).list_level < usize::MAX,
            old(self).bold < usize::MAX,
            old(self).italic < usize::MAX,
        ensures
            final(self).view() == step(old(self).view(), e.view()),
            final(self).list_level <= old(self).list_level + 1,
            final(self).bold <= old(self).bold + 1,
            final(self).italic <= old(self).italic + 1,
    {
        match e {
            MdEvent::Start(MdTag::List) => {
                self.flush_paragraph();
                self.list_level = self.list_level + 1;
            },
            MdEvent::End(MdTag::List) => {
                if self.list_level > 0 {
                    self.list_level = self.list_level - 1;
                }
            },
            MdEvent::Start(MdTag::Item) => {
                self.flush_paragraph();
                self.in_item = true;
            },
            MdEvent::End(MdTag::Item) => self.flush_paragraph(),
            MdEvent::End(MdTag::Paragraph) => {
                if !self.in_item {
                    self.flush_paragraph();
                }
            },
            MdEvent::Start(MdTag::Heading) => self.heading = true,
            MdEvent::End(MdTag::Heading) => {
                self.flush_paragraph();
                self.heading = false;
            },
            MdEvent::Start(MdTag::Strong) => self.bold = self.bold + 1,
            MdEvent::End(MdTag::Strong) => {
                if self.bold > 0 {
                    self.bold = self.bold - 1;
                }
            },
            MdEvent::Start(MdTag::Emphasis) => self.italic = self.italic + 1,
            MdEvent::End(MdTag::Emphasis) => {
                if self.italic > 0 {
                    self.italic = self.italic - 1;
                }
            },
            MdEvent::Text(t) => {
                let b = self.bold > 0 || self.heading;
                let i = self.italic > 0;
                self.push_text(t.as_str(), b, i, false);
            },
            MdEvent::Code(t) => {
                let b = self.bold > 0 || self.heading;
                let i = self.italic > 0;
                self.push_text(t.as_str(), b, i, true);
            },
            MdEvent::SoftBreak | MdEvent::HardBreak => {
                let b = self.bold > 0 || self.heading;
                let i = self.italic > 0;
                self.push_text(" ", b, i, false);
            },
            MdEvent::Start(MdTag::CodeBlock) | MdEvent::End(MdTag::CodeBlock) => self.flush_paragraph(),
            _ => {},
        }
    }
}

/// The paragraphs of a markdown body, ready to go inside a `<p:txBody>`
/// (see [`paragraphs_spec`]); never empty, so a placeholder always holds a
/// paragraph.
pub fn to_paragraphs(markdown: &str) -> (r: Vec<String>)
    ensures
        text::string_views(r@) == paragraphs_spec(markdown@),
{
    let evs = markdown_events(markdown);
    let ghost ev = event_views(evs@);
    let mut w = Walker::new();
    let mut i: usize = 0;
    assert(ev.take(0) =~= Seq::<MdEventView>::empty());
    while i < evs.len()
        invariant
            i <= evs.len(),
            ev == event_views(evs@),
            w.view() == walk(initial_walk(), ev.take(i as int)),
            w.list_level <= i,
            w.bold <= i,
            w.italic <= i,
        decreases evs.len() - i,
    {
        w.event(&evs[i]);
        assert(ev.take(i + 1).drop_last() =~= ev.take(i as int));
        assert(ev.take(i + 1).last() == evs@[i as int].view());
        i += 1;
    }
    assert(ev.take(evs.len() as int) =~= ev);
    w.flush_paragraph();
    if w.out.len() == 0 {
        let ghost before = text::string_views(w.out@);
        let p = empty_paragraph();
        w.out.push(p);
        assert(text::string_views(w.out@) =~= before.push(p@));
    }
    w.out
}

/// A body always gives at least one paragraph, so a placeholder is never
/// left structurally empty.
pub proof fn lemma_paragraphs_never_empty(markdown: Seq<char>)
    ensures
        paragraphs_spec(markdown).len() >= 1,
{
}

/// An event that opens or closes a list.
pub open spec fn is_list_event(e: MdEventView) -> bool {
    e == MdEventView::Start(MdTag::List) || e == MdEventView::End(MdTag::List)
}

/// Walking two stretches of events one after the other is walking them
/// together.
pub proof fn lemma_walk_concat(s: WalkState, a: Seq<MdEventView>, b: Seq<MdEventView>)
    ensures
        walk(s, a + b) == walk(walk(s, a), b),
    decreases b.len(),
{
    if b.len() == 0 {
        assert(a + b =~= a);
    } else {
        assert((a + b).drop_last() =~= a + b.drop_last());
        lemma_walk_concat(s, a, b.drop_last());
    }
}

/// Events that neither open nor close a list leave the list depth alone.
pub proof fn lemma_list_free_keeps_depth(s: WalkState, evs: Seq<MdEventView>)
    requires
        forall|i: int| 0 <= i < evs.len() ==> !is_list_event(#[trigger] evs[i]),
    ensures
        walk(s, evs).list_level == s.list_level,
    decreases evs.len(),
{
    if evs.len() > 0 {
        assert forall|i: int| 0 <= i < evs.drop_last().len() implies !is_list_event(#[trigger] evs.drop_last()[i]) by {
            assert(evs.drop_last()[i] == evs[i]);
        }
        lemma_list_free_keeps_depth(s, evs.drop_last());
        assert(!is_list_event(evs[evs.len() - 1]));
    }
}

/// Opening a list goes one level deeper, and closing it comes back out:
/// after a nested list ends, the depth is that of the list around it, so
/// the items that follow are written at the outer list's level; and the
/// items inside it are one level deeper than those around it.
pub proof fn lemma_closed_list_restores_depth(
    s: WalkState,
    pre: Seq<MdEventView>,
    mid: Seq<MdEventView>,
)
    requires
        forall|i: int| 0 <= i < mid.len() ==> !is_list_event(#[trigger] mid[i]),
    ensures
        walk(s, pre + seq![MdEventView::Start(MdTag::List)] + mid).list_level == walk(s, pre).list_level + 1,
        walk(s, pre + seq![MdEventView::Start(MdTag::List)] + mid + seq![MdEventView::End(MdTag::List)]).list_level
            == walk(s, pre).list_level,
{
    let open = seq![MdEventView::Start(MdTag::List)];
    let close = seq![MdEventView::End(MdTag::List)];
    let a = walk(s, pre);
    lemma_walk_concat(s, pre, open);
    assert(walk(a, open) == step(walk(a, open.drop_last()), MdEventView::Start(MdTag::List)));
    assert(open.drop_last() =~= Seq::<MdEventView>::empty());
    let b = walk(s, pre + open);
    assert(b.list_level == a.list_level + 1);
    lemma_walk_concat(s, pre + open, mid);
    lemma_list_free_keeps_depth(b, mid);
    let c = walk(s, pre + open + mid);
    lemma_walk_concat(s, pre + open + mid, close);
    assert(close.drop_last() =~= Seq::<MdEventView>::empty());
    assert(walk(c, close) == step(walk(c, close.drop_last()), MdEventView::End(MdTag::List)));
}

/// A list item holding plain text, at list depth `d`, becomes one bulleted
/// paragraph indented for depth `d`, holding that text as one plain run;
/// the depth is left as it was.
pub proof fn lemma_item_paragraph(s: WalkState, t: Seq<char>)
    requires
        s.runs.len() == 0,
        t.len() > 0,
        !s.heading,
        s.bold == 0,
        s.italic == 0,
    ensures
        walk(
            s,
            seq![MdEventView::Start(MdTag::Item), MdEventView::Text(t), MdEventView::End(MdTag::Item)],
        ).out == s.out.push(
            "<a:p>"@ + ppr(true, s.list_level) + runs_xml(seq![RunView { text: t, bold: false, italic: false, mono: false }])
                + "</a:p>"@,
        ),
        walk(
            s,
            seq![MdEventView::Start(MdTag::Item), MdEventView::Text(t), MdEventView::End(MdTag::Item)],
        ).list_level == s.list_level,
{
    let evs = seq![MdEventView::Start(MdTag::Item), MdEventView::Text(t), MdEventView::End(MdTag::Item)];
    let e1 = seq![MdEventView::Start(MdTag::Item)];
    let e2 = seq![MdEventView::Start(MdTag::Item), MdEventView::Text(t)];
    assert(e1.drop_last() =~= Seq::<MdEventView>::empty());
    assert(e2.drop_last() =~= e1);
    assert(evs.drop_last() =~= e2);
    assert(walk(s, Seq::<MdEventView>::empty()) == s);
    let s1 = walk(s, e1);
    assert(s1 == step(walk(s, e1.drop_last()), e1.last()));
    assert(s1 == step(s, MdEventView::Start(MdTag::Item)));
    assert(s1.in_item && s1.runs.len() == 0 && s1.out == s.out && s1.list_level == s.list_level);
    let s2 = walk(s, e2);
    assert(s2 == step(walk(s, e2.drop_last()), e2.last()));
    assert(s2 == step(s1, MdEventView::Text(t)));
    assert(s2.runs =~= seq![RunView { text: t, bold: false, italic: false, mono: false }]);
    assert(walk(s, evs) == step(walk(s, evs.drop_last()), evs.last()));
    assert(walk(s, evs) == step(s2, MdEventView::End(MdTag::Item)));
}

} // verus!
