//! Parsed documents: a tree of elements and text, read from a text by an
//! HTML parser.

use vstd::prelude::*;
use html5ever::rcdom::{Handle, NodeData, RcDom};
use html5ever::tendril::TendrilSink;

verus! {

/// What a node of a document is.
#[derive(Debug, Clone, PartialEq, Eq)]
pub enum DomData {
    /// A run of text, with its characters.
    Text(String),
    /// An element, with the name of its tag.
    Element(String),
    /// Anything else: the document itself, a comment, a document type.
    Other,
}

/// A node of a document, with the nodes below it in order.
#[derive(Debug, PartialEq, Eq)]
pub struct DomNode {
    /// What the node is.
    pub data: DomData,
    /// The nodes directly below this one.
    pub children: Vec<DomNode>,
}

/// A node of the reference-counted tree that the parser builds.
#[verifier::external_type_specification]
#[verifier::external_body]
pub struct ExNode(html5ever::rcdom::Node);

/// The document that the HTML parser reads from a text.
pub uninterp spec fn html_document(input: Seq<char>) -> DomNode;

/// Copies a node of the parser's tree, with all nodes below it: a text node
/// with its contents, an element with the local name of its tag, any other
/// node without data; the children in their order. Nothing is claimed of the
/// result here; `parse_html` names it for the root.
#[verifier::external_body]
fn copy_node(handle: &Handle) -> DomNode {
    let children = handle.children.borrow().iter().map(|child| copy_node(child)).collect();
    let data = match handle.data {
        NodeData::Text { ref contents } => DomData::Text(contents.borrow().to_string()),
        NodeData::Element { ref name, .. } => DomData::Element(name.local.to_string()),
        _ => DomData::Other,
    };
    DomNode { data, children }
}

/// `html5ever::parse_document` with a reference-counted tree as its sink and
/// the default options, fed with `input` one character at a time. The result
/// is the root of the tree, the document node, copied with all nodes below it.
/// It depends on `input` alone and is named, not described.
#[verifier::external_body]
pub(crate) fn parse_html(input: &[char]) -> (document: DomNode)
    ensures
        document == html_document(input@),
{
    let pieces: Vec<String> = input.iter().map(|ch| ch.to_string()).collect();
    let dom = html5ever::parse_document(RcDom::default(), Default::default()).from_iter(pieces);
    copy_node(&dom.document)
}

} // verus!
