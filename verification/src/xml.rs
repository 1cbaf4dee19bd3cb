//! The XML document model, as plain values.
//!
//! The text is parsed by the `roxmltree` crate; the tree it returns is
//! copied, node for node, into the plain tree below, and everything that
//! reads the tree afterwards is verified.  Parsing and the copy are a
//! deterministic function of the text alone, so the outcome has a name:
//! `well_formed_xml` says whether parsing succeeds, `doc_model` is the
//! tree that comes back.  The one trusted conversion promises exactly
//! those names and nothing else.

use vstd::prelude::*;
use vstd::string::StringSliceAdditionalSpecFns;

verus! {

/// One attribute of an element: its name, its value, and the half-open
/// byte range `[start, end)` its value occupies in the document text,
/// quotes excluded.
pub struct XmlAttr {
    pub name: Vec<u8>,
    pub value: Vec<u8>,
    pub start: usize,
    pub end: usize,
}

/// One node of the document: its tag name (empty for anything but an
/// element), its attributes, its children as indices into the tree's
/// node vector, and its byte offset in the text.
pub struct XmlNode {
    pub tag: Vec<u8>,
    pub attrs: Vec<XmlAttr>,
    pub children: Vec<usize>,
    pub start: usize,
}

/// The parsed document: its nodes in document (pre-)order, the root at
/// index 0.  In a converted tree every child index points past its
/// parent; the verified walks check that and skip anything else.
pub struct XmlTree {
    pub nodes: Vec<XmlNode>,
}

/// View of one attribute: name, value, value range start and end.
pub type AttrView = (Seq<u8>, Seq<u8>, int, int);

/// View of one node: tag, attributes, children indices, byte offset.
pub type NodeView = (Seq<u8>, Seq<AttrView>, Seq<int>, int);

pub open spec fn attr_view(a: XmlAttr) -> AttrView {
    (a.name@, a.value@, a.start as int, a.end as int)
}

pub open spec fn node_view(n: XmlNode) -> NodeView {
    (
        n.tag@,
        n.attrs@.map(|i: int, a: XmlAttr| attr_view(a)),
        n.children@.map(|i: int, c: usize| c as int),
        n.start as int,
    )
}

/// View of the whole tree: its nodes, in document order.
pub open spec fn tree_view(t: &XmlTree) -> Seq<NodeView> {
    t.nodes@.map(|i: int, n: XmlNode| node_view(n))
}

/// Whether `roxmltree::Document::parse` accepts the text as well-formed
/// XML: a function of the text alone.
pub uninterp spec fn well_formed_xml(text: Seq<u8>) -> bool;

/// The document tree that parsing the text yields, as plain values: a
/// function of the text alone.
pub uninterp spec fn doc_model(text: Seq<u8>) -> Seq<NodeView>;

/// A parse failure (`roxmltree::Error`), opaque to verification.
#[verifier::external_type_specification]
#[verifier::external_body]
pub struct ExError(roxmltree::Error);

/// A parsed document (`roxmltree::Document`), which the trusted
/// conversion walks; opaque to verification.
#[verifier::external_type_specification]
#[verifier::external_body]
pub struct ExDocument<'input>(roxmltree::Document<'input>);

/// A node of a parsed document (`roxmltree::Node`); opaque.
#[verifier::external_type_specification]
#[verifier::external_body]
pub struct ExNode<'a, 'input: 'a>(roxmltree::Node<'a, 'input>);

/// Relies on `roxmltree::Document::parse`: it succeeds exactly on
/// well-formed XML, and both the tree and its conversion to plain
/// values depend on the text alone.
#[verifier::external_body]
pub fn parse(text: &str) -> (r: Result<XmlTree, roxmltree::Error>)
    ensures
        r is Ok <==> well_formed_xml(text.spec_bytes()),
        match r {
            Ok(t) => tree_view(&t) == doc_model(text.spec_bytes()),
            Err(_) => true,
        },
{
    roxmltree::Document::parse(text).map(convert)
}

/// Relies on `Node::descendants`, `Node::id`, `Node::parent`: copies the
/// parsed tree into plain values, nodes in document order, each child
/// listed under its parent (so every child index exceeds the parent's).
#[verifier::external_body]
fn convert(doc: roxmltree::Document) -> XmlTree {
    let mut nodes: Vec<XmlNode> = Vec::new();
    let mut at = std::collections::HashMap::new();
    for n in doc.root().descendants() {
        let i = nodes.len();
        at.insert(n.id(), i);
        if let Some(p) = n.parent() {
            let pi = at[&p.id()];
            nodes[pi].children.push(i);
        }
        nodes.push(node_data(&n));
    }
    XmlTree { nodes }
}

/// Relies on `Node::tag_name`, `Node::attributes`, `Node::range`,
/// `Attribute::name`, `Attribute::value`, `Attribute::range_value`:
/// copies one node's tag, attributes and offset into plain values.
#[verifier::external_body]
fn node_data(n: &roxmltree::Node) -> XmlNode {
    let mut attrs: Vec<XmlAttr> = Vec::new();
    for a in n.attributes() {
        let r = a.range_value();
        let name = a.name().as_bytes().to_vec();
        let value = a.value().as_bytes().to_vec();
        attrs.push(XmlAttr { name, value, start: r.start, end: r.end });
    }
    let tag = n.tag_name().name().as_bytes().to_vec();
    XmlNode { tag, attrs, children: Vec::new(), start: n.range().start }
}

} // verus!
