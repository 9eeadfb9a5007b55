//! The tree that a frame declares.
//!
//! A tree is an ordered sequence of nodes. A node is a piece of text or an
//! element; an element has an identifier, a tag, attributes and children of
//! its own. Nodes hold no reference to their parent.

pub mod attrs;
pub mod builder;
pub mod host;
pub mod laws;
pub mod patch;

pub use crate::vdom::builder::DomBuilder;
pub use crate::vdom::patch::patch;

use crate::id::Id;
use crate::vdom::attrs::{names_unique, Attributes, Attrs};
use vstd::prelude::*;

verus! {

/// What an element is: its identifier, its tag, its attributes and its
/// children, in order.
pub struct ElementModel {
    pub id: Id,
    pub tag: Seq<char>,
    pub attributes: Attrs,
    pub children: Seq<NodeModel>,
}

/// What a node is.
pub enum NodeModel {
    Text(Seq<char>),
    Element(ElementModel),
}

/// Whether no element of the tree below `node`, itself included, holds an
/// attribute name twice.
pub open spec fn node_wf(node: NodeModel) -> bool
    decreases node,
{
    match node {
        NodeModel::Text(_) => true,
        NodeModel::Element(element) => {
            &&& names_unique(element.attributes)
            &&& forall|i: int|
                0 <= i < element.children.len() ==> node_wf(#[trigger] element.children[i])
        },
    }
}

/// Whether every node of `nodes` is well formed.
pub open spec fn forest_wf(nodes: Seq<NodeModel>) -> bool {
    forall|i: int| 0 <= i < nodes.len() ==> node_wf(#[trigger] nodes[i])
}

/// An element of a declared tree.
#[derive(Debug, PartialEq, Eq)]
pub struct VNodeElement {
    pub(crate) id: Id,
    pub(crate) tag: String,
    pub(crate) attributes: Attributes,
    pub(crate) children: Vec<VNode>,
}

/// A node of a declared tree.
#[derive(Debug, PartialEq, Eq)]
pub enum VNode {
    /// A piece of text.
    Text(String),
    /// An element.
    Element(VNodeElement),
}

/// The nodes that `nodes` stands for.
pub open spec fn forest_view(nodes: Seq<VNode>) -> Seq<NodeModel> {
    Seq::new(nodes.len(), |i: int| nodes[i]@)
}

/// The node that `node` stands for.
pub open(crate) spec fn node_model(node: VNode) -> NodeModel
    decreases node,
{
    match node {
        VNode::Text(content) => NodeModel::Text(content@),
        VNode::Element(element) => NodeModel::Element(
            ElementModel {
                id: element.id,
                tag: element.tag@,
                attributes: element.attributes@,
                children: Seq::new(
                    element.children@.len(),
                    |i: int|
                        if 0 <= i < element.children@.len() {
                            node_model(element.children@[i])
                        } else {
                            NodeModel::Text(Seq::empty())
                        },
                ),
            },
        ),
    }
}

impl View for VNode {
    type V = NodeModel;

    open(crate) spec fn view(&self) -> NodeModel {
        node_model(*self)
    }
}

impl View for VNodeElement {
    type V = ElementModel;

    open(crate) spec fn view(&self) -> ElementModel {
        ElementModel {
            id: self.id,
            tag: self.tag@,
            attributes: self.attributes@,
            children: forest_view(self.children@),
        }
    }
}

/// A tree buffer: the top-level nodes of one frame, in order.
#[derive(Debug, PartialEq, Eq)]
pub struct VNodes(pub(crate) Vec<VNode>);

impl View for VNodes {
    type V = Seq<NodeModel>;

    open(crate) spec fn view(&self) -> Seq<NodeModel> {
        forest_view(self.0@)
    }
}

impl Default for VNodes {
    /// A buffer without nodes.
    fn default() -> (nodes: Self)
        ensures
            nodes@ == Seq::<NodeModel>::empty(),
    {
        VNodes::with_arena(Vec::new())
    }
}

impl VNodes {
    /// A buffer without nodes that keeps its nodes in `arena`: what `arena`
    /// holds is dropped, its room is used again.
    pub fn with_arena(arena: Vec<VNode>) -> (nodes: Self)
        ensures
            nodes@ == Seq::<NodeModel>::empty(),
    {
        let mut arena = arena;
        arena.clear();
        let nodes = VNodes(arena);
        assert(nodes@ =~= Seq::<NodeModel>::empty());
        nodes
    }

    /// Takes every node out of the buffer and keeps its room. The buffer
    /// can then not be told from a new one.
    pub fn clear(&mut self)
        ensures
            final(self)@ == Seq::<NodeModel>::empty(),
    {
        self.0.clear();
        assert(self@ =~= Seq::<NodeModel>::empty());
    }

    /// The top-level nodes, in order.
    pub fn children(&self) -> (nodes: &Vec<VNode>)
        ensures
            forest_view(nodes@) == self@,
    {
        &self.0
    }

    /// The top-level nodes, in order, for a builder to add to.
    pub fn with_children_mut(&mut self) -> (nodes: &mut Vec<VNode>)
        ensures
            forest_view(nodes@) == old(self)@,
            final(self)@ == forest_view(final(nodes)@),
    {
        &mut self.0
    }
}

/// A node that is an element stands for that element.
pub broadcast proof fn lemma_element_node_view(element: VNodeElement)
    ensures
        #[trigger] VNode::Element(element)@ == NodeModel::Element(element@),
{
    assert(VNode::Element(element)@->Element_0.children =~= element@.children);
}

/// Adding a node to the end of a sequence adds what it stands for.
pub broadcast proof fn lemma_forest_view_push(nodes: Seq<VNode>, node: VNode)
    ensures
        #[trigger] forest_view(nodes.push(node)) == forest_view(nodes).push(node@),
{
    assert(forest_view(nodes.push(node)) =~= forest_view(nodes).push(node@));
}

} // verus!
