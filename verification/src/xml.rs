//! XML documents as flat lists of nodes, parsed with `roxmltree`, and the
//! lookups that the presentation readers make on them: tag tests,
//! attributes, children and subtrees.
use vstd::prelude::*;
use crate::text::str_eq;

verus! {

/// One node of a parsed document, in document order: whether it is an
/// element, its depth (the number of its ancestors, itself included), its
/// local tag name (empty for other nodes) and its attributes as
/// `(local name, value)` pairs.
#[derive(Clone, Debug)]
pub struct XmlNode {
    pub element: bool,
    pub depth: usize,
    pub name: String,
    pub attributes: Vec<(String, String)>,
}

/// A node as plain values.
pub open spec fn node_view(n: XmlNode) -> (bool, nat, Seq<char>, Seq<(Seq<char>, Seq<char>)>) {
    (n.element, n.depth as nat, n.name@, n.attributes@.map_values(|a: (String, String)| (a.0@, a.1@)))
}

pub open spec fn nodes_view(v: Seq<XmlNode>) -> Seq<(bool, nat, Seq<char>, Seq<(Seq<char>, Seq<char>)>)> {
    v.map_values(|n: XmlNode| node_view(n))
}

/// The nodes of the document that `roxmltree` parses from `text`, or none
/// when it rejects the text.
pub uninterp spec fn spec_xml_nodes(text: Seq<char>) -> Option<Seq<(bool, nat, Seq<char>, Seq<(Seq<char>, Seq<char>)>)>>;

/// Parses an XML text with `roxmltree::Document::parse` and lists its
/// nodes in document order (`Document::descendants`), each with
/// `Node::is_element`, the count of `Node::ancestors`, the local name of
/// `Node::tag_name` and `Node::attributes`. The parse is only named here;
/// the text of a parse error is not stated.
#[verifier::external_body]
pub fn parse_xml_nodes(text: &str) -> (r: Result<Vec<XmlNode>, String>)
    ensures
        match r {
            Ok(v) => spec_xml_nodes(text@) == Some(nodes_view(v@)),
            Err(_) => spec_xml_nodes(text@) is None,
        },
{
    match roxmltree::Document::parse(text) {
        Ok(doc) => Ok(doc.descendants().map(|n| XmlNode {
            element: n.is_element(),
            depth: n.ancestors().count(),
            name: n.tag_name().name().to_string(),
            attributes: n.attributes().map(|a| (a.name().to_string(), a.value().to_string())).collect(),
        }).collect()),
        Err(e) => Err(e.to_string()),
    }
}

/// `Node::has_tag_name` with a name without namespace: an element whose
/// local name is `name`.
pub open spec fn has_tag(n: XmlNode, name: Seq<char>) -> bool {
    n.element && n.name@ == name
}

pub fn has_tag_name(n: &XmlNode, name: &str) -> (r: bool)
    ensures
        r == has_tag(*n, name@),
{
    n.element && str_eq(n.name.as_str(), name)
}

/// The index of the first attribute of `attrs` from `i` named `key`.
pub open spec fn attr_index(attrs: Seq<(String, String)>, key: Seq<char>, i: int) -> int
    decreases attrs.len() - i,
{
    if i < 0 || i >= attrs.len() {
        attrs.len() as int
    } else if attrs[i].0@ == key {
        i
    } else {
        attr_index(attrs, key, i + 1)
    }
}

/// `Node::attribute` with a name without namespace: the value of the first
/// attribute whose local name is `key`.
pub open spec fn attr(n: XmlNode, key: Seq<char>) -> Option<Seq<char>> {
    let i = attr_index(n.attributes@, key, 0);
    if i < n.attributes@.len() {
        Some(n.attributes@[i].1@)
    } else {
        None
    }
}

pub proof fn lemma_attr_index(attrs: Seq<(String, String)>, key: Seq<char>, i: int)
    requires
        0 <= i <= attrs.len(),
    ensures
        i <= attr_index(attrs, key, i) <= attrs.len(),
    decreases attrs.len() - i,
{
    if i < attrs.len() && attrs[i].0@ != key {
        lemma_attr_index(attrs, key, i + 1);
    }
}

/// The value of an attribute, if the node has it.
pub fn attribute<'a>(n: &'a XmlNode, key: &str) -> (r: Option<&'a String>)
    ensures
        match r {
            Some(v) => attr(*n, key@) == Some(v@),
            None => attr(*n, key@) is None,
        },
{
    let mut i: usize = 0;
    while i < n.attributes.len()
        invariant
            0 <= i <= n.attributes@.len(),
            attr_index(n.attributes@, key@, 0) == attr_index(n.attributes@, key@, i as int),
        decreases n.attributes@.len() - i,
    {
        if str_eq(n.attributes[i].0.as_str(), key) {
            return Some(&n.attributes[i].1);
        }
        i = i + 1;
    }
    None
}

/// The end of the subtree of node `i`: the first later node that is not
/// deeper than it, or the end of the list.
pub open spec fn subtree_end(nodes: Seq<XmlNode>, i: int, j: int) -> int
    decreases nodes.len() - j,
{
    if j < 0 || j >= nodes.len() {
        nodes.len() as int
    } else if nodes[j].depth <= nodes[i].depth {
        j
    } else {
        subtree_end(nodes, i, j + 1)
    }
}

pub proof fn lemma_subtree_end(nodes: Seq<XmlNode>, i: int, j: int)
    requires
        0 <= j <= nodes.len(),
    ensures
        j <= subtree_end(nodes, i, j) <= nodes.len(),
    decreases nodes.len() - j,
{
    if j < nodes.len() && nodes[j].depth > nodes[i].depth {
        lemma_subtree_end(nodes, i, j + 1);
    }
}

/// Finds the end of the subtree of node `i`.
pub fn subtree_end_of(nodes: &[XmlNode], i: usize) -> (r: usize)
    requires
        i < nodes@.len(),
    ensures
        r == subtree_end(nodes@, i as int, i + 1),
        i < r <= nodes@.len(),
{
    let n = nodes.len();
    let mut j = i + 1;
    while j < n && nodes[j].depth > nodes[i].depth
        invariant
            i < j <= nodes@.len(),
            n == nodes@.len(),
            subtree_end(nodes@, i as int, i + 1) == subtree_end(nodes@, i as int, j as int),
        decreases nodes@.len() - j,
    {
        j = j + 1;
    }
    j
}

/// Node `j` is a child of node `i`: inside its subtree, one level deeper.
pub open spec fn is_child(nodes: Seq<XmlNode>, i: int, j: int) -> bool {
    i < j < subtree_end(nodes, i, i + 1) && nodes[j].depth == nodes[i].depth + 1
}

} // verus!
