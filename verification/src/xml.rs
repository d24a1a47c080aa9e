//! XML documents as plain values: the nodes of a parsed document in
//! document order, each with its id, its parent's id, its expanded name,
//! and the attributes of every element. Parsing is done by roxmltree, with
//! DTDs refused and the node count capped.
use vstd::prelude::*;
use crate::text;

verus! {

broadcast use vstd::string::group_string_axioms;

/// One node of a document.
#[derive(Debug, Clone)]
pub struct XmlNode {
    /// The node's id within its document.
    pub id: u32,
    /// The id of the parent node; none for the document root.
    pub parent: Option<u32>,
    /// Whether the node is an element.
    pub element: bool,
    /// The namespace URI of an element's name.
    pub ns: Option<String>,
    /// The local name of an element (empty for other nodes).
    pub name: String,
}

/// One attribute of an element.
#[derive(Debug, Clone)]
pub struct XmlAttr {
    /// The id of the element it belongs to.
    pub owner: u32,
    pub ns: Option<String>,
    pub name: String,
    pub value: String,
}

/// A node as plain values.
pub type NodeView = (u32, Option<u32>, bool, Option<Seq<char>>, Seq<char>);

/// An attribute as plain values.
pub type AttrView = (u32, Option<Seq<char>>, Seq<char>, Seq<char>);

impl XmlNode {
    pub open spec fn view(&self) -> NodeView {
        (self.id, self.parent, self.element, text::opt_seq(self.ns), self.name@)
    }
}

impl XmlAttr {
    pub open spec fn view(&self) -> AttrView {
        (self.owner, text::opt_seq(self.ns), self.name@, self.value@)
    }
}

pub open spec fn node_views(v: Seq<XmlNode>) -> Seq<NodeView> {
    v.map_values(|n: XmlNode| n.view())
}

pub open spec fn attr_views(v: Seq<XmlAttr>) -> Seq<AttrView> {
    v.map_values(|a: XmlAttr| a.view())
}

/// Name for the document roxmltree parses `text` to, with DTDs refused and
/// at most 200000 nodes: its nodes (the document's `descendants`, in
/// document order) and the attributes of its elements (element by element
/// in document order, each element's in order); none when the text is
/// refused.
pub uninterp spec fn parsed_document(text: Seq<char>) -> Option<(Seq<NodeView>, Seq<AttrView>)>;

/// Parses `text` with `roxmltree::Document::parse_with_options` (DTDs
/// refused, at most 200000 nodes) and lists its nodes. The nodes are
/// named, not stated; a refusal carries roxmltree's error text.
#[verifier::external_body]
fn xml_nodes(text: &str) -> (r: Result<Vec<XmlNode>, String>)
    ensures
        match r {
            Ok(v) => parsed_document(text@) matches Some(d) && d.0 == node_views(v@),
            Err(_) => parsed_document(text@) is None,
        },
{
    let opt = roxmltree::ParsingOptions { allow_dtd: false, nodes_limit: 200_000 };
    let doc = roxmltree::Document::parse_with_options(text, opt).map_err(|e| e.to_string())?;
    Ok(doc.descendants().map(|n| XmlNode {
        id: n.id().get(),
        parent: n.parent().map(|p| p.id().get()),
        element: n.is_element(),
        ns: n.tag_name().namespace().map(String::from),
        name: n.tag_name().name().to_string(),
    }).collect())
}

/// Parses `text` as [`xml_nodes`] does and lists the attributes of its
/// elements (`Node::attributes`, namespace declarations excluded). The
/// attributes are named, not stated.
#[verifier::external_body]
fn xml_attrs(text: &str) -> (r: Result<Vec<XmlAttr>, String>)
    ensures
        match r {
            Ok(v) => parsed_document(text@) matches Some(d) && d.1 == attr_views(v@),
            Err(_) => parsed_document(text@) is None,
        },
{
    let opt = roxmltree::ParsingOptions { allow_dtd: false, nodes_limit: 200_000 };
    let doc = roxmltree::Document::parse_with_options(text, opt).map_err(|e| e.to_string())?;
    Ok(doc.descendants().flat_map(|n| n.attributes().map(move |a| XmlAttr {
        owner: n.id().get(),
        ns: a.namespace().map(String::from),
        name: a.name().to_string(),
        value: a.value().to_string(),
    })).collect())
}

/// A parsed document: its nodes and the attributes of its elements.
#[derive(Debug, Clone)]
pub struct XmlDoc {
    pub nodes: Vec<XmlNode>,
    pub attrs: Vec<XmlAttr>,
}

impl XmlDoc {
    /// The document `text` parses to, or the parser's error text.
    pub fn parse(text: &str) -> (r: Result<XmlDoc, String>)
        ensures
            match r {
                Ok(d) => parsed_document(text@) == Some((node_views(d.nodes@), attr_views(d.attrs@))),
                Err(_) => parsed_document(text@) is None,
            },
    {
        let nodes = xml_nodes(text)?;
        let attrs = xml_attrs(text)?;
        Ok(XmlDoc { nodes, attrs })
    }
}

/// A node is an element named `local` (in namespace `ns` when one is
/// asked for; by local name alone otherwise).
pub open spec fn has_tag(n: NodeView, ns: Option<Seq<char>>, local: Seq<char>) -> bool {
    n.2 && n.4 == local && match ns {
        Some(u) => n.3 == Some(u),
        None => true,
    }
}

/// Whether a node is an element named `local` (see [`has_tag`]).
pub fn node_has_tag(n: &XmlNode, ns: Option<&str>, local: &str) -> (b: bool)
    ensures
        b == has_tag(n.view(), crate::slide::opt_str(ns), local@),
{
    if !n.element {
        return false;
    }
    let nm = text::chars_of(n.name.as_str());
    let lc = text::chars_of(local);
    if !text::eq_chars(nm.as_slice(), lc.as_slice()) {
        return false;
    }
    match ns {
        Some(u) => match &n.ns {
            Some(mine) => {
                let a = text::chars_of(mine.as_str());
                let b = text::chars_of(u);
                text::eq_chars(a.as_slice(), b.as_slice())
            },
            None => false,
        },
        None => true,
    }
}

/// The value of the first attribute of element `owner` with namespace
/// `ns` and local name `name`, searching from `from`.
pub open spec fn attr_value(attrs: Seq<AttrView>, owner: u32, ns: Option<Seq<char>>, name: Seq<char>, from: int) -> Option<
    Seq<char>,
>
    decreases attrs.len() - from,
{
    if from < 0 || from >= attrs.len() {
        None
    } else if attrs[from].0 == owner && attrs[from].1 == ns && attrs[from].2 == name {
        Some(attrs[from].3)
    } else {
        attr_value(attrs, owner, ns, name, from + 1)
    }
}

fn opt_eq(a: &Option<String>, b: Option<&str>) -> (r: bool)
    ensures
        r == (text::opt_seq(*a) == crate::slide::opt_str(b)),
{
    match (a, b) {
        (Some(x), Some(y)) => {
            let xc = text::chars_of(x.as_str());
            let yc = text::chars_of(y);
            text::eq_chars(xc.as_slice(), yc.as_slice())
        },
        (None, None) => true,
        _ => false,
    }
}

impl XmlDoc {
    /// The value of element `owner`'s attribute `ns`:`name` (see
    /// [`attr_value`]).
    pub fn attribute(&self, owner: u32, ns: Option<&str>, name: &str) -> (r: Option<String>)
        ensures
            text::opt_seq(r) == attr_value(attr_views(self.attrs@), owner, crate::slide::opt_str(ns), name@, 0),
    {
        let ghost av = attr_views(self.attrs@);
        let nc = text::chars_of(name);
        let mut i: usize = 0;
        while i < self.attrs.len()
            invariant
                i <= self.attrs.len(),
                av == attr_views(self.attrs@),
                nc@ == name@,
                attr_value(av, owner, crate::slide::opt_str(ns), name@, 0) == attr_value(
                    av,
                    owner,
                    crate::slide::opt_str(ns),
                    name@,
                    i as int,
                ),
            decreases self.attrs.len() - i,
        {
            let a = &self.attrs[i];
            if a.owner == owner && opt_eq(&a.ns, ns) {
                let ac = text::chars_of(a.name.as_str());
                if text::eq_chars(ac.as_slice(), nc.as_slice()) {
                    return Some(a.value.clone());
                }
            }
            i += 1;
        }
        None
    }
}

} // verus!
