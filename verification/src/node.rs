//! Content nodes and the offset model.
//!
//! Every node has a non-negative integer size in the linear offset space,
//! measured in UTF-16 code units: a text run's size is the length of its
//! character data, an element's size is the length of its serialized markup,
//! and a node of unknown kind has size zero.

use vstd::prelude::*;

verus! {

/// A content node of the document tree.
///
/// Character data and serialized markup are held as UTF-16 code units, the
/// unit of the linear offset space.
#[derive(Debug, PartialEq)]
pub enum Node {
    /// A contiguous text run, splittable at any internal offset.
    Text { data: Vec<u16> },
    /// An atomic element, never split; `markup` is its full serialization.
    Element { markup: Vec<u16> },
    /// A node of unknown kind; it occupies no space.
    Other,
}

/// The mathematical model of a node: the same three kinds over sequences.
#[verifier::ext_equal]
pub enum NodeView {
    Text { data: Seq<u16> },
    Element { markup: Seq<u16> },
    Other,
}

impl View for Node {
    type V = NodeView;

    open spec fn view(&self) -> NodeView {
        match self {
            Node::Text { data } => NodeView::Text { data: data@ },
            Node::Element { markup } => NodeView::Element { markup: markup@ },
            Node::Other => NodeView::Other,
        }
    }
}

/// The size of a node in the linear offset space, in UTF-16 code units.
pub open spec fn node_size(n: NodeView) -> nat {
    match n {
        NodeView::Text { data } => data.len(),
        NodeView::Element { markup } => markup.len(),
        NodeView::Other => 0,
    }
}

impl Node {
    /// The node's size in the linear offset space.
    pub fn html_size(&self) -> (n: usize)
        ensures
            n == node_size(self@),
    {
        match self {
            Node::Text { data } => data.len(),
            Node::Element { markup } => markup.len(),
            Node::Other => 0,
        }
    }
}

/// The models of a sequence of children, in order.
pub open spec fn views_of(s: Seq<Node>) -> Seq<NodeView> {
    s.map_values(|n: Node| n@)
}

/// A location in the tree: a child, by position among its siblings, and a
/// residual offset measured from that child's start.
#[derive(Debug, PartialEq, Eq, Structural)]
pub struct NodeIndexOffset {
    /// Index of the child in the sibling sequence.
    pub index: usize,
    /// Offset from the child's start, in UTF-16 code units.
    pub offset: usize,
}

/// The tie-break used when an offset falls exactly on a boundary between two
/// nodes, or at the very end of the sequence: it decides whether the node
/// before or after the boundary is returned.
#[derive(Debug, PartialEq, Eq, Structural, Copy, Clone)]
pub enum Direction {
    Before,
    After,
}

} // verus!
