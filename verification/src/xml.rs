//! The XML document as a flat node list.
//!
//! `roxmltree` parses the text; the library then reads the document through
//! this plain-value mirror of it: every node in document order, each with the
//! position of its parent. The interpretation of the catalog ([`crate::parse`])
//! is written and proved against this list.

use roxmltree::{Document, ParsingOptions};
use vstd::prelude::*;

verus! {

/// One node of the parsed document.
#[derive(Debug, Clone)]
pub struct XmlNode {
    /// Position of the parent node in the list; `None` only for the document
    /// node itself, which comes first.
    pub parent: Option<usize>,
    pub is_element: bool,
    /// Local tag name; empty for nodes that are not elements.
    pub name: String,
    /// Attributes in document order: local name and value.
    pub attributes: Vec<(String, String)>,
    /// roxmltree's `text()`: for an element, its first child when that is a
    /// text node; for text and comment nodes, their own text.
    pub text: Option<String>,
}

/// The mathematical form of an [`XmlNode`].
pub struct XmlNodeView {
    pub parent: Option<usize>,
    pub is_element: bool,
    pub name: Seq<char>,
    pub attributes: Seq<(Seq<char>, Seq<char>)>,
    pub text: Option<Seq<char>>,
}

impl View for XmlNode {
    type V = XmlNodeView;

    open spec fn view(&self) -> XmlNodeView {
        XmlNodeView {
            parent: self.parent,
            is_element: self.is_element,
            name: self.name@,
            attributes: self.attributes@.map_values(|a: (String, String)| (a.0@, a.1@)),
            text: match self.text {
                Some(t) => Some(t@),
                None => None,
            },
        }
    }
}

/// The node list of a document.
pub open spec fn nodes_view(v: Seq<XmlNode>) -> Seq<XmlNodeView> {
    v.map_values(|n: XmlNode| n@)
}

/// Why a document is not well-formed, and where.
#[derive(Debug, Clone)]
pub struct XmlSyntaxError {
    /// roxmltree's description of the error.
    pub message: String,
    /// 1-based line of the error.
    pub line: u32,
    /// 1-based column of the error.
    pub column: u32,
}

/// What roxmltree makes of `text` (DTDs allowed, no entity resolver): the
/// node list in document order, or the error's message and position.
pub uninterp spec fn xml_document(text: Seq<char>) -> Result<Seq<XmlNodeView>, (Seq<char>, u32, u32)>;

/// Parses `text` with `roxmltree::Document::parse_with_options`, DTDs
/// allowed and no entity resolver (so an external DOCTYPE is never fetched),
/// and copies every node of the document, in document order, into the plain
/// node list. roxmltree keeps its nodes in one vector in document order and
/// `descendants()` of the document walks that vector, so a node's `id` is
/// its position in the list. The contract names the outcome after `text`
/// alone; which texts are well-formed is not stated, only that a document
/// roxmltree accepts has a root element (it refuses one without, as
/// `Error::NoRootNode`).
#[verifier::external_body]
pub(crate) fn read_xml(text: &str) -> (r: Result<Vec<XmlNode>, XmlSyntaxError>)
    ensures
        match r {
            Ok(v) => xml_document(text@) == Ok::<Seq<XmlNodeView>, (Seq<char>, u32, u32)>(nodes_view(v@))
                && root_element(nodes_view(v@)) is Some,
            Err(e) => xml_document(text@) == Err::<Seq<XmlNodeView>, (Seq<char>, u32, u32)>((e.message@, e.line, e.column)),
        },
{
    let options = ParsingOptions { allow_dtd: true, ..ParsingOptions::default() };
    match Document::parse_with_options(text, options) {
        Ok(doc) => Ok(doc.descendants().map(|n| XmlNode {
            parent: n.parent().map(|p| p.id().get_usize()),
            is_element: n.is_element(),
            name: n.tag_name().name().into(),
            attributes: n.attributes().map(|a| (a.name().into(), a.value().into())).collect(),
            text: n.text().map(String::from),
        }).collect()),
        Err(e) => Err(XmlSyntaxError { message: e.to_string(), line: e.pos().row, column: e.pos().col }),
    }
}

/// Value of the first attribute called `name` (roxmltree's `attribute`,
/// which compares local names only).
pub open spec fn attr_value(n: XmlNodeView, name: Seq<char>) -> Option<Seq<char>> {
    attr_upto(n.attributes, name, n.attributes.len() as int)
}

/// [`attr_value`] over the first `k` attributes.
pub open spec fn attr_upto(attrs: Seq<(Seq<char>, Seq<char>)>, name: Seq<char>, k: int) -> Option<Seq<char>>
    decreases k,
{
    if k <= 0 {
        None
    } else {
        match attr_upto(attrs, name, k - 1) {
            Some(v) => Some(v),
            None => if attrs[k - 1].0 == name {
                Some(attrs[k - 1].1)
            } else {
                None
            },
        }
    }
}

/// Whether node `i` is an element child of node `p` called `name`.
pub open spec fn is_child_named(nodes: Seq<XmlNodeView>, p: int, i: int, name: Seq<char>) -> bool {
    nodes[i].parent == Some(p as usize) && nodes[i].is_element && nodes[i].name == name
}

/// Whether node `i` is an element child of node `p`.
pub open spec fn is_element_child(nodes: Seq<XmlNodeView>, p: int, i: int) -> bool {
    nodes[i].parent == Some(p as usize) && nodes[i].is_element
}

/// The element children of `p` called `name`, among the first `k` nodes.
pub open spec fn children_named(nodes: Seq<XmlNodeView>, p: int, name: Seq<char>, k: int) -> Seq<int>
    decreases k,
{
    if k <= 0 {
        seq![]
    } else {
        let rest = children_named(nodes, p, name, k - 1);
        if is_child_named(nodes, p, k - 1, name) {
            rest.push(k - 1)
        } else {
            rest
        }
    }
}

/// The element children of `p`, among the first `k` nodes.
pub open spec fn element_children(nodes: Seq<XmlNodeView>, p: int, k: int) -> Seq<int>
    decreases k,
{
    if k <= 0 {
        seq![]
    } else {
        let rest = element_children(nodes, p, k - 1);
        if is_element_child(nodes, p, k - 1) {
            rest.push(k - 1)
        } else {
            rest
        }
    }
}

/// The first element child of `p` called `name`.
pub open spec fn child_named(nodes: Seq<XmlNodeView>, p: int, name: Seq<char>) -> Option<int> {
    let c = children_named(nodes, p, name, nodes.len() as int);
    if c.len() == 0 {
        None
    } else {
        Some(c[0])
    }
}

/// The root element: the first element child of the document node.
pub open spec fn root_element(nodes: Seq<XmlNodeView>) -> Option<int> {
    let c = element_children(nodes, 0, nodes.len() as int);
    if c.len() == 0 {
        None
    } else {
        Some(c[0])
    }
}

/// Whether two strings are equal (`String::eq`).
fn same(a: &String, b: &str) -> (r: bool)
    ensures
        r == (a@ == b@),
{
    crate::text::is_lit(a.as_str(), b)
}

/// The value of the first attribute of `n` called `name`.
pub fn attribute<'a>(n: &'a XmlNode, name: &str) -> (r: Option<&'a String>)
    ensures
        match attr_value(n@, name@) {
            Some(v) => r matches Some(s) && s@ == v,
            None => r is None,
        },
{
    let ghost attrs = n@.attributes;
    let mut i: usize = 0;
    while i < n.attributes.len()
        invariant
            i <= n.attributes@.len(),
            attrs == n@.attributes,
            attrs.len() == n.attributes@.len(),
            attr_upto(attrs, name@, i as int) is None,
        decreases n.attributes@.len() - i,
    {
        assert(attrs[i as int] == (n.attributes@[i as int].0@, n.attributes@[i as int].1@));
        if same(&n.attributes[i].0, name) {
            proof {
                lemma_attr_found(attrs, name@, i as int + 1, attrs.len() as int);
            }
            return Some(&n.attributes[i].1);
        }
        i = i + 1;
    }
    None
}

proof fn lemma_attr_found(attrs: Seq<(Seq<char>, Seq<char>)>, name: Seq<char>, k: int, m: int)
    requires
        0 < k <= m,
        attr_upto(attrs, name, k - 1) is None,
        attrs[k - 1].0 == name,
    ensures
        attr_upto(attrs, name, m) == Some(attrs[k - 1].1),
    decreases m,
{
    if m > k {
        lemma_attr_found(attrs, name, k, m - 1);
    }
}

/// Positions of the element children of `p` called `name`, in order.
pub fn child_elements_named(nodes: &Vec<XmlNode>, p: usize, name: &str) -> (r: Vec<usize>)
    ensures
        r@.map_values(|i: usize| i as int) == children_named(nodes_view(nodes@), p as int, name@, nodes@.len() as int),
{
    let ghost nv = nodes_view(nodes@);
    let mut out: Vec<usize> = Vec::new();
    let mut i: usize = 0;
    while i < nodes.len()
        invariant
            i <= nodes@.len(),
            nv == nodes_view(nodes@),
            out@.map_values(|i: usize| i as int) == children_named(nv, p as int, name@, i as int),
        decreases nodes@.len() - i,
    {
        assert(nv[i as int] == nodes@[i as int]@);
        if nodes[i].parent == Some(p) && nodes[i].is_element && same(&nodes[i].name, name) {
            out.push(i);
        }
        assert(out@.map_values(|i: usize| i as int) =~= children_named(nv, p as int, name@, i as int + 1));
        i = i + 1;
    }
    out
}

/// Positions of the element children of `p`, in order.
pub fn child_elements(nodes: &Vec<XmlNode>, p: usize) -> (r: Vec<usize>)
    ensures
        r@.map_values(|i: usize| i as int) == element_children(nodes_view(nodes@), p as int, nodes@.len() as int),
{
    let ghost nv = nodes_view(nodes@);
    let mut out: Vec<usize> = Vec::new();
    let mut i: usize = 0;
    while i < nodes.len()
        invariant
            i <= nodes@.len(),
            nv == nodes_view(nodes@),
            out@.map_values(|i: usize| i as int) == element_children(nv, p as int, i as int),
        decreases nodes@.len() - i,
    {
        assert(nv[i as int] == nodes@[i as int]@);
        if nodes[i].parent == Some(p) && nodes[i].is_element {
            out.push(i);
        }
        assert(out@.map_values(|i: usize| i as int) =~= element_children(nv, p as int, i as int + 1));
        i = i + 1;
    }
    out
}

/// The first element child of `p` called `name`.
pub fn first_child_named(nodes: &Vec<XmlNode>, p: usize, name: &str) -> (r: Option<usize>)
    ensures
        match child_named(nodes_view(nodes@), p as int, name@) {
            Some(i) => r matches Some(x) && x as int == i,
            None => r is None,
        },
{
    let all = child_elements_named(nodes, p, name);
    if all.len() == 0 {
        None
    } else {
        assert(all@.map_values(|i: usize| i as int)[0] == all@[0] as int);
        Some(all[0])
    }
}

/// The root element of the document.
pub fn root_of(nodes: &Vec<XmlNode>) -> (r: Option<usize>)
    ensures
        match root_element(nodes_view(nodes@)) {
            Some(i) => r matches Some(x) && x as int == i,
            None => r is None,
        },
{
    let all = child_elements(nodes, 0);
    if all.len() == 0 {
        None
    } else {
        assert(all@.map_values(|i: usize| i as int)[0] == all@[0] as int);
        Some(all[0])
    }
}

/// Every position listed by [`children_named`] is a node index below `k`.
pub proof fn children_named_in_range(nodes: Seq<XmlNodeView>, p: int, name: Seq<char>, k: int)
    requires
        k <= nodes.len(),
    ensures
        forall|j: int| 0 <= j < children_named(nodes, p, name, k).len() ==> {
            let i = #[trigger] children_named(nodes, p, name, k)[j];
            0 <= i < k && is_child_named(nodes, p, i, name)
        },
    decreases k,
{
    if k > 0 {
        children_named_in_range(nodes, p, name, k - 1);
        let c = children_named(nodes, p, name, k);
        let c0 = children_named(nodes, p, name, k - 1);
        assert forall|j: int| 0 <= j < c.len() implies {
            let i = #[trigger] c[j];
            0 <= i < k && is_child_named(nodes, p, i, name)
        } by {
            if j < c0.len() {
                assert(c[j] == c0[j]);
            }
        }
    }
}

/// Every position listed by [`element_children`] is a node index below `k`.
pub proof fn element_children_in_range(nodes: Seq<XmlNodeView>, p: int, k: int)
    requires
        k <= nodes.len(),
    ensures
        forall|j: int| 0 <= j < element_children(nodes, p, k).len() ==> {
            let i = #[trigger] element_children(nodes, p, k)[j];
            0 <= i < k && is_element_child(nodes, p, i)
        },
    decreases k,
{
    if k > 0 {
        element_children_in_range(nodes, p, k - 1);
        let c = element_children(nodes, p, k);
        let c0 = element_children(nodes, p, k - 1);
        assert forall|j: int| 0 <= j < c.len() implies {
            let i = #[trigger] c[j];
            0 <= i < k && is_element_child(nodes, p, i)
        } by {
            if j < c0.len() {
                assert(c[j] == c0[j]);
            }
        }
    }
}

} // verus!
