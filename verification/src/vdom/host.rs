//! The host tree as the engine sees it, and the changes it asks for.
//!
//! The host tree itself lives outside the library. What the engine reads of
//! it is handed in as a [`HostNode`] tree; what the engine wants done to it
//! is handed out as a list of [`HostOp`]s, each of which names the node it
//! touches by the path that leads to the node's parent.

use crate::id::Id;
use crate::vdom::attrs::{attrs_map, attrs_view, lemma_with_attr, set_attr, unset_all};
use crate::vdom::{lemma_element_node_view, ElementModel, NodeModel, VNode, VNodeElement};
use vstd::prelude::*;

verus! {

/// What a host element is.
pub struct HostElementModel {
    /// The identity marker, if the element carries one.
    pub marker: Option<Id>,
    pub tag: Seq<char>,
    pub attributes: Map<Seq<char>, Seq<char>>,
    pub children: Seq<HostModel>,
}

/// What a host node is.
pub enum HostModel {
    Text(Seq<char>),
    Element(HostElementModel),
}

/// The host node that shows `node`: text for text; for an element a host
/// element of the same tag that carries the element's identifier as its
/// marker, has the element's attributes and shows its children, in order.
pub open spec fn materialize(node: NodeModel) -> HostModel
    decreases node,
{
    match node {
        NodeModel::Text(content) => HostModel::Text(content),
        NodeModel::Element(element) => HostModel::Element(
            HostElementModel {
                marker: Some(element.id),
                tag: element.tag,
                attributes: attrs_map(element.attributes),
                children: Seq::new(
                    element.children.len(),
                    |i: int|
                        if 0 <= i < element.children.len() {
                            materialize(element.children[i])
                        } else {
                            HostModel::Text(Seq::empty())
                        },
                ),
            },
        ),
    }
}

/// The host nodes that show `nodes`, in order.
pub open spec fn materialize_all(nodes: Seq<NodeModel>) -> Seq<HostModel> {
    Seq::new(nodes.len(), |i: int| materialize(nodes[i]))
}

/// The host element that shows an element has, as children, the host nodes
/// that show the element's children.
pub broadcast proof fn lemma_materialize_element(element: ElementModel)
    ensures
        #[trigger] materialize(NodeModel::Element(element)) == HostModel::Element(
            HostElementModel {
                marker: Some(element.id),
                tag: element.tag,
                attributes: attrs_map(element.attributes),
                children: materialize_all(element.children),
            },
        ),
{
    assert(materialize(NodeModel::Element(element))->Element_0.children =~= materialize_all(
        element.children,
    ));
}

/// A host element, as plain values.
#[derive(Debug, PartialEq, Eq)]
pub struct HostElement {
    /// The identity marker, if the element carries one.
    pub marker: Option<Id>,
    pub tag: String,
    pub attributes: Vec<(String, String)>,
    pub children: Vec<HostNode>,
}

/// A host node, as plain values.
#[derive(Debug, PartialEq, Eq)]
pub enum HostNode {
    /// A host text node.
    Text(String),
    /// A host element.
    Element(HostElement),
}

/// The host nodes that `nodes` stands for.
pub open spec fn host_forest_view(nodes: Seq<HostNode>) -> Seq<HostModel> {
    Seq::new(nodes.len(), |i: int| nodes[i]@)
}

/// The host node that `node` stands for.
pub open spec fn host_model(node: HostNode) -> HostModel
    decreases node,
{
    match node {
        HostNode::Text(content) => HostModel::Text(content@),
        HostNode::Element(element) => HostModel::Element(
            HostElementModel {
                marker: element.marker,
                tag: element.tag@,
                attributes: attrs_map(attrs_view(element.attributes@)),
                children: Seq::new(
                    element.children@.len(),
                    |i: int|
                        if 0 <= i < element.children@.len() {
                            host_model(element.children@[i])
                        } else {
                            HostModel::Text(Seq::empty())
                        },
                ),
            },
        ),
    }
}

impl View for HostNode {
    type V = HostModel;

    open spec fn view(&self) -> HostModel {
        host_model(*self)
    }
}

impl View for HostElement {
    type V = HostElementModel;

    open spec fn view(&self) -> HostElementModel {
        HostElementModel {
            marker: self.marker,
            tag: self.tag@,
            attributes: attrs_map(attrs_view(self.attributes@)),
            children: host_forest_view(self.children@),
        }
    }
}

/// A host node that is an element stands for that element.
pub broadcast proof fn lemma_host_element_view(element: HostElement)
    ensures
        #[trigger] HostNode::Element(element)@ == HostModel::Element(element@),
{
    assert(HostNode::Element(element)@->Element_0.children =~= element@.children);
}

impl HostElement {
    /// A copy of the element and of all below it.
    fn duplicate(&self) -> (copy: HostElement)
        ensures
            copy@ == self@,
        decreases self,
    {
        let mut children: Vec<HostNode> = Vec::new();
        let mut i: usize = 0;
        while i < self.children.len()
            invariant
                i <= self.children.len(),
                children@.len() == i,
                forall|j: int| 0 <= j < i ==> (#[trigger] children@[j])@ == self.children@[j]@,
            decreases self.children.len() - i,
        {
            let child = self.children[i].duplicate();
            children.push(child);
            i += 1;
        }
        let copy = HostElement {
            marker: self.marker,
            tag: self.tag.clone(),
            attributes: clone_attrs(&self.attributes),
            children,
        };
        assert(copy@.children =~= self@.children);
        copy
    }
}

impl HostNode {
    /// A copy of the node and of all below it.
    fn duplicate(&self) -> (copy: HostNode)
        ensures
            copy@ == self@,
        decreases self,
    {
        match self {
            HostNode::Text(content) => HostNode::Text(content.clone()),
            HostNode::Element(element) => {
                let copy = element.duplicate();
                proof {
                    lemma_host_element_view(*element);
                    lemma_host_element_view(copy);
                }
                HostNode::Element(copy)
            },
        }
    }
}

impl Clone for HostNode {
    /// A copy of the node and of all below it.
    fn clone(&self) -> (copy: Self)
        ensures
            copy@ == self@,
    {
        self.duplicate()
    }
}

impl Clone for HostElement {
    /// A copy of the element and of all below it.
    fn clone(&self) -> (copy: Self)
        ensures
            copy@ == self@,
    {
        self.duplicate()
    }
}

/// Changes made one list after the other are the changes of the two lists
/// joined.
pub proof fn lemma_apply_all_concat(forest: Seq<HostModel>, first: Seq<OpModel>, then: Seq<OpModel>)
    ensures
        apply_all(forest, first + then) == match apply_all(forest, first) {
            Some(between) => apply_all(between, then),
            None => None,
        },
    decreases first.len(),
{
    if first.len() == 0 {
        assert(first + then =~= then);
    } else {
        assert((first + then)[0] == first[0]);
        assert((first + then).skip(1) =~= first.skip(1) + then);
        match apply_op(forest, first[0]) {
            Some(next) => {
                lemma_apply_all_concat(next, first.skip(1), then);
            },
            None => {},
        }
    }
}

/// A list of one change makes that change.
pub proof fn lemma_apply_all_one(forest: Seq<HostModel>, op: OpModel)
    ensures
        apply_all(forest, seq![op]) == apply_op(forest, op),
{
    assert(seq![op].skip(1) =~= Seq::<OpModel>::empty());
    match apply_op(forest, op) {
        Some(next) => {
            assert(apply_all(next, Seq::<OpModel>::empty()) == Some(next));
        },
        None => {},
    }
}

/// A change added to the end of a list is made last.
pub proof fn lemma_apply_all_push(forest: Seq<HostModel>, ops: Seq<OpModel>, op: OpModel)
    ensures
        apply_all(forest, ops.push(op)) == match apply_all(forest, ops) {
            Some(between) => apply_op(between, op),
            None => None,
        },
{
    assert(ops.push(op) =~= ops + seq![op]);
    lemma_apply_all_concat(forest, ops, seq![op]);
    match apply_all(forest, ops) {
        Some(between) => {
            lemma_apply_all_one(between, op);
        },
        None => {},
    }
}

/// Copies an attribute list.
fn clone_attrs(attributes: &Vec<(String, String)>) -> (copy: Vec<(String, String)>)
    ensures
        attrs_view(copy@) == attrs_view(attributes@),
{
    let mut copy: Vec<(String, String)> = Vec::new();
    let mut i: usize = 0;
    while i < attributes.len()
        invariant
            i <= attributes.len(),
            copy@.len() == i,
            forall|j: int|
                0 <= j < i ==> (#[trigger] copy@[j]).0@ == attributes@[j].0@ && copy@[j].1@
                    == attributes@[j].1@,
        decreases attributes.len() - i,
    {
        copy.push((attributes[i].0.clone(), attributes[i].1.clone()));
        i += 1;
    }
    assert(attrs_view(copy@) =~= attrs_view(attributes@));
    copy
}

impl VNodeElement {
    /// Makes the host element that shows this element: it carries the
    /// element's identifier as its marker, has all its attributes, and its
    /// children are the host nodes that show the element's children, in
    /// order.
    pub fn to_host(&self) -> (host: HostNode)
        ensures
            host@ == materialize(NodeModel::Element(self@)),
        decreases self,
    {
        let mut children: Vec<HostNode> = Vec::new();
        let mut i: usize = 0;
        while i < self.children.len()
            invariant
                i <= self.children.len(),
                children@.len() == i,
                forall|j: int|
                    0 <= j < i ==> (#[trigger] children@[j])@ == materialize(self.children@[j]@),
            decreases self.children.len() - i,
        {
            let child = self.children[i].to_host();
            children.push(child);
            i += 1;
        }
        let element = HostElement {
            marker: Some(self.id),
            tag: self.tag.clone(),
            attributes: clone_attrs(self.attributes.entries()),
            children,
        };
        proof {
            lemma_host_element_view(element);
            lemma_materialize_element(self@);
            assert(element@.children =~= materialize_all(self@.children));
        }
        HostNode::Element(element)
    }
}

impl VNode {
    /// Makes the host node that shows this node.
    pub fn to_host(&self) -> (host: HostNode)
        ensures
            host@ == materialize(self@),
        decreases self,
    {
        match self {
            VNode::Text(content) => HostNode::Text(content.clone()),
            VNode::Element(element) => {
                proof {
                    lemma_element_node_view(*element);
                }
                element.to_host()
            },
        }
    }
}

/// What a change does to the children of the node it is addressed to.
pub enum ChangeModel {
    SetText { index: int, content: Seq<char> },
    SetMarker { index: int, id: Id },
    RemoveAttribute { index: int, name: Seq<char> },
    SetAttribute { index: int, name: Seq<char>, value: Seq<char> },
    ReplaceChild { index: int, node: HostModel },
    AppendChild { node: HostModel },
    RemoveChild { index: int },
}

/// A change, and the path from the root to the node whose children it
/// changes: the empty path is the root, and each further number is the place
/// of a child among its siblings.
pub struct OpModel {
    pub parent: Seq<int>,
    pub change: ChangeModel,
}

/// A change to the children of one host node.
#[derive(Debug, Clone, PartialEq, Eq)]
pub enum HostChange {
    /// Give the text node at `index` the value `content`.
    SetText { index: usize, content: String },
    /// Make `id` the identity marker of the element at `index`.
    SetMarker { index: usize, id: Id },
    /// Remove the attribute `name` from the element at `index`.
    RemoveAttribute { index: usize, name: String },
    /// Give the attribute `name` of the element at `index` the value `value`.
    SetAttribute { index: usize, name: String, value: String },
    /// Put `node`, freshly made, in the place of the child at `index`.
    ReplaceChild { index: usize, node: HostNode },
    /// Add `node`, freshly made, after the last child.
    AppendChild { node: HostNode },
    /// Remove the child at `index`.
    RemoveChild { index: usize },
}

/// A change to the host tree.
#[derive(Debug, Clone, PartialEq, Eq)]
pub struct HostOp {
    /// The path from the root to the node whose children change.
    pub parent: Vec<usize>,
    pub change: HostChange,
}

/// The path that `path` stands for.
pub open spec fn path_view(path: Seq<usize>) -> Seq<int> {
    Seq::new(path.len(), |i: int| path[i] as int)
}

impl View for HostChange {
    type V = ChangeModel;

    open spec fn view(&self) -> ChangeModel {
        match self {
            HostChange::SetText { index, content } => ChangeModel::SetText {
                index: *index as int,
                content: content@,
            },
            HostChange::SetMarker { index, id } => ChangeModel::SetMarker {
                index: *index as int,
                id: *id,
            },
            HostChange::RemoveAttribute { index, name } => ChangeModel::RemoveAttribute {
                index: *index as int,
                name: name@,
            },
            HostChange::SetAttribute { index, name, value } => ChangeModel::SetAttribute {
                index: *index as int,
                name: name@,
                value: value@,
            },
            HostChange::ReplaceChild { index, node } => ChangeModel::ReplaceChild {
                index: *index as int,
                node: node@,
            },
            HostChange::AppendChild { node } => ChangeModel::AppendChild { node: node@ },
            HostChange::RemoveChild { index } => ChangeModel::RemoveChild { index: *index as int },
        }
    }
}

impl View for HostOp {
    type V = OpModel;

    open spec fn view(&self) -> OpModel {
        OpModel { parent: path_view(self.parent@), change: self.change@ }
    }
}

/// The changes that `ops` stands for.
pub open spec fn ops_view(ops: Seq<HostOp>) -> Seq<OpModel> {
    Seq::new(ops.len(), |i: int| ops[i]@)
}

/// The children `children` of a host node after `change`, or `None` where
/// the change names a child that is not there or asks of a text node what
/// only an element can do. Giving an element a text value changes nothing.
pub open spec fn change_children(children: Seq<HostModel>, change: ChangeModel) -> Option<
    Seq<HostModel>,
> {
    match change {
        ChangeModel::SetText { index, content } => if 0 <= index < children.len() {
            match children[index] {
                HostModel::Text(_) => Some(children.update(index, HostModel::Text(content))),
                HostModel::Element(_) => Some(children),
            }
        } else {
            None
        },
        ChangeModel::SetMarker { index, id } => if 0 <= index < children.len() {
            match children[index] {
                HostModel::Text(_) => None,
                HostModel::Element(element) => Some(
                    children.update(
                        index,
                        HostModel::Element(HostElementModel { marker: Some(id), ..element }),
                    ),
                ),
            }
        } else {
            None
        },
        ChangeModel::RemoveAttribute { index, name } => if 0 <= index < children.len() {
            match children[index] {
                HostModel::Text(_) => None,
                HostModel::Element(element) => Some(
                    children.update(
                        index,
                        HostModel::Element(
                            HostElementModel {
                                attributes: element.attributes.remove(name),
                                ..element
                            },
                        ),
                    ),
                ),
            }
        } else {
            None
        },
        ChangeModel::SetAttribute { index, name, value } => if 0 <= index < children.len() {
            match children[index] {
                HostModel::Text(_) => None,
                HostModel::Element(element) => Some(
                    children.update(
                        index,
                        HostModel::Element(
                            HostElementModel {
                                attributes: element.attributes.insert(name, value),
                                ..element
                            },
                        ),
                    ),
                ),
            }
        } else {
            None
        },
        ChangeModel::ReplaceChild { index, node } => if 0 <= index < children.len() {
            Some(children.update(index, node))
        } else {
            None
        },
        ChangeModel::AppendChild { node } => Some(children.push(node)),
        ChangeModel::RemoveChild { index } => if 0 <= index < children.len() {
            Some(children.remove(index))
        } else {
            None
        },
    }
}

/// The host nodes `forest` after `change` was made to the children of the
/// node at `parent`, or `None` where no element stands at that path or the
/// change cannot be made there.
pub open spec fn change_at(forest: Seq<HostModel>, parent: Seq<int>, change: ChangeModel) -> Option<
    Seq<HostModel>,
>
    decreases parent.len(),
{
    if parent.len() == 0 {
        change_children(forest, change)
    } else {
        let i = parent[0];
        if 0 <= i < forest.len() {
            match forest[i] {
                HostModel::Text(_) => None,
                HostModel::Element(element) => match change_at(
                    element.children,
                    parent.skip(1),
                    change,
                ) {
                    Some(children) => Some(
                        forest.update(
                            i,
                            HostModel::Element(HostElementModel { children, ..element }),
                        ),
                    ),
                    None => None,
                },
            }
        } else {
            None
        }
    }
}

/// The children `forest` of the root after `op`.
pub open spec fn apply_op(forest: Seq<HostModel>, op: OpModel) -> Option<Seq<HostModel>> {
    change_at(forest, op.parent, op.change)
}

/// The children `forest` of the root after the changes `ops`, made in order.
pub open spec fn apply_all(forest: Seq<HostModel>, ops: Seq<OpModel>) -> Option<Seq<HostModel>>
    decreases ops.len(),
{
    if ops.len() == 0 {
        Some(forest)
    } else {
        match apply_op(forest, ops[0]) {
            Some(next) => apply_all(next, ops.skip(1)),
            None => None,
        }
    }
}

/// Makes `change` to the children of one host node.
fn change_here(children: &mut Vec<HostNode>, change: HostChange) -> (done: bool)
    ensures
        match change_children(host_forest_view(old(children)@), change@) {
            Some(after) => done && host_forest_view(final(children)@) == after,
            None => !done && host_forest_view(final(children)@) == host_forest_view(old(children)@),
        },
{
    let ghost before = host_forest_view(children@);
    match change {
        HostChange::SetText { index, content } => {
            if index >= children.len() {
                return false;
            }
            match &mut children[index] {
                HostNode::Text(text) => {
                    *text = content;
                },
                HostNode::Element(_) => {},
            }
            assert(host_forest_view(children@) =~= change_children(before, change@)->0);
            true
        },
        HostChange::SetMarker { index, id } => {
            if index >= children.len() {
                return false;
            }
            match &mut children[index] {
                HostNode::Element(element) => {
                    proof {
                        lemma_host_element_view(*element);
                    }
                    element.marker = Some(id);
                    proof {
                        lemma_host_element_view(*element);
                    }
                },
                HostNode::Text(_) => {
                    return false;
                },
            }
            assert(host_forest_view(children@) =~= change_children(before, change@)->0);
            true
        },
        HostChange::RemoveAttribute { index, name } => {
            if index >= children.len() {
                return false;
            }
            match &mut children[index] {
                HostNode::Element(element) => {
                    proof {
                        lemma_host_element_view(*element);
                    }
                    unset_all(&mut element.attributes, name.as_str());
                    proof {
                        lemma_host_element_view(*element);
                    }
                },
                HostNode::Text(_) => {
                    return false;
                },
            }
            assert(host_forest_view(children@) =~= change_children(before, change@)->0);
            true
        },
        HostChange::SetAttribute { index, name, value } => {
            if index >= children.len() {
                return false;
            }
            match &mut children[index] {
                HostNode::Element(element) => {
                    proof {
                        lemma_host_element_view(*element);
                        lemma_with_attr(attrs_view(element.attributes@), name@, value@);
                    }
                    set_attr(&mut element.attributes, name.as_str(), value.as_str());
                    proof {
                        lemma_host_element_view(*element);
                    }
                },
                HostNode::Text(_) => {
                    return false;
                },
            }
            assert(host_forest_view(children@) =~= change_children(before, change@)->0);
            true
        },
        HostChange::ReplaceChild { index, node } => {
            if index >= children.len() {
                return false;
            }
            children[index] = node;
            assert(host_forest_view(children@) =~= change_children(before, change@)->0);
            true
        },
        HostChange::AppendChild { node } => {
            children.push(node);
            assert(host_forest_view(children@) =~= change_children(before, change@)->0);
            true
        },
        HostChange::RemoveChild { index } => {
            if index >= children.len() {
                return false;
            }
            children.remove(index);
            assert(host_forest_view(children@) =~= change_children(before, change@)->0);
            true
        },
    }
}

/// Makes `change` to the children of the node that the rest of `parent`,
/// from the place `depth` on, leads to from the node whose children are
/// `children`.
fn change_below(
    children: &mut Vec<HostNode>,
    parent: &Vec<usize>,
    depth: usize,
    change: HostChange,
) -> (done: bool)
    requires
        depth <= parent.len(),
    ensures
        match change_at(
            host_forest_view(old(children)@),
            path_view(parent@).skip(depth as int),
            change@,
        ) {
            Some(after) => done && host_forest_view(final(children)@) == after,
            None => !done && host_forest_view(final(children)@) == host_forest_view(old(children)@),
        },
    decreases parent.len() - depth,
{
    let ghost before = host_forest_view(children@);
    let ghost path = path_view(parent@).skip(depth as int);
    if depth == parent.len() {
        return change_here(children, change);
    }
    let i: usize = parent[depth];
    assert(path[0] == i as int);
    assert(path.skip(1) =~= path_view(parent@).skip(depth + 1));
    if i >= children.len() {
        return false;
    }
    match &mut children[i] {
        HostNode::Element(element) => {
            proof {
                lemma_host_element_view(*element);
            }
            let done = change_below(&mut element.children, parent, depth + 1, change);
            proof {
                lemma_host_element_view(*element);
            }
            if !done {
                assert(host_forest_view(children@) =~= before);
                return false;
            }
        },
        HostNode::Text(_) => {
            return false;
        },
    }
    assert(host_forest_view(children@) =~= change_at(before, path, change@)->0);
    true
}

/// Makes the change `op` to a host whose root has the children `dom`.
///
/// Returns whether the change could be made: it cannot where the path
/// leads to no element, or where it names a child that is not there or
/// asks of a text node what only an element can do. The host is then left
/// as it was.
pub fn apply(dom: &mut Vec<HostNode>, op: HostOp) -> (done: bool)
    ensures
        match apply_op(host_forest_view(old(dom)@), op@) {
            Some(after) => done && host_forest_view(final(dom)@) == after,
            None => !done && host_forest_view(final(dom)@) == host_forest_view(old(dom)@),
        },
{
    let HostOp { parent, change } = op;
    assert(path_view(parent@).skip(0) =~= path_view(parent@));
    change_below(dom, &parent, 0, change)
}

/// Makes the changes `ops`, in order, to a host whose root has the children
/// `dom`, up to the first that cannot be made.
///
/// Returns the place in `ops` of the first change that could not be made,
/// if there is one. The changes before it were made, and none after it.
pub fn apply_ops(dom: &mut Vec<HostNode>, ops: Vec<HostOp>) -> (made: Result<(), usize>)
    ensures
        match made {
            Ok(_) => apply_all(host_forest_view(old(dom)@), ops_view(ops@)) == Some(
                host_forest_view(final(dom)@),
            ),
            Err(failed) => {
                &&& failed < ops@.len()
                &&& apply_all(
                    host_forest_view(old(dom)@),
                    ops_view(ops@).take(failed as int),
                ) == Some(host_forest_view(final(dom)@))
                &&& apply_op(host_forest_view(final(dom)@), ops_view(ops@)[failed as int]) is None
                &&& apply_all(host_forest_view(old(dom)@), ops_view(ops@)) is None
            },
        },
{
    let ghost start = host_forest_view(dom@);
    let ghost all = ops_view(ops@);
    let total: usize = ops.len();
    let mut rest = ops;
    let mut count: usize = 0;
    assert(all.take(0) =~= Seq::<OpModel>::empty());
    assert(all.skip(0) =~= all);
    while rest.len() > 0
        invariant
            start == host_forest_view(old(dom)@),
            all == ops_view(ops@),
            total == ops@.len(),
            count + rest.len() == total,
            ops_view(rest@) == all.skip(count as int),
            apply_all(start, all.take(count as int)) == Some(host_forest_view(dom@)),
        decreases rest.len(),
    {
        let ghost before = rest@;
        let ghost shown = host_forest_view(dom@);
        let op = rest.remove(0);
        proof {
            assert(ops_view(before)[0] == op@);
            assert(op@ == all[count as int]);
            assert forall|j: int| 0 <= j < rest@.len() implies ops_view(rest@)[j] == all.skip(
                count + 1,
            )[j] by {
                assert(rest@[j] == before[j + 1]);
                assert(ops_view(before)[j + 1] == all.skip(count as int)[j + 1]);
            }
            assert(ops_view(rest@) =~= all.skip(count + 1));
            assert(all.take(count + 1) =~= all.take(count as int).push(op@));
            lemma_apply_all_push(start, all.take(count as int), op@);
        }
        if !apply(dom, op) {
            proof {
                assert(all =~= all.take(count as int) + all.skip(count as int));
                lemma_apply_all_concat(start, all.take(count as int), all.skip(count as int));
                assert(all.skip(count as int)[0] == op@);
            }
            return Err(count);
        }
        count += 1;
    }
    assert(all.take(count as int) =~= all);
    Ok(())
}

} // verus!
