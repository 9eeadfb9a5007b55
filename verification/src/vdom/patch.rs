//! The changes that bring the host tree from one declared tree to the next.
//!
//! The host is taken to show the old tree. Old and new nodes are paired by
//! their place among their siblings, never by identifier. Where the host
//! lacks a child that the pairing needs, no change at all is asked for on
//! the old tree's account: the host's children are all removed and the new
//! tree is made afresh.

use crate::text::str_eq;
use crate::vdom::attrs::{
    attrs_view, find_attr, get_attr, has_name, lookup, names_unique, Attrs,
};
use crate::vdom::host::{
    apply_all, host_forest_view, lemma_host_element_view, materialize, materialize_all, ops_view,
    ChangeModel, HostChange, HostModel, HostNode, HostOp, OpModel,
};
use crate::vdom::laws::{lemma_patch_brings_host_up_to_date, lemma_regeneration_rebuilds_host};
use crate::vdom::{forest_view, lemma_element_node_view, ElementModel, NodeModel, VNode, VNodes};
use vstd::prelude::*;

verus! {

/// `change`, made to the children of the node from which paths are counted.
pub open spec fn here(change: ChangeModel) -> OpModel {
    OpModel { parent: Seq::empty(), change }
}

/// `op`, counted from the root where it was counted from the node at `path`.
pub open spec fn below(op: OpModel, path: Seq<int>) -> OpModel {
    OpModel { parent: path + op.parent, change: op.change }
}

/// Each of `ops`, counted from the root where it was counted from the node
/// at `path`.
pub open spec fn all_below(ops: Seq<OpModel>, path: Seq<int>) -> Seq<OpModel> {
    ops.map_values(|op: OpModel| below(op, path))
}

/// The change of marker that the element at `index` needs: one where the
/// identifier changed, none where it did not.
pub open spec fn marker_ops(old: ElementModel, new: ElementModel, index: int) -> Seq<OpModel> {
    if old.id != new.id {
        seq![here(ChangeModel::SetMarker { index, id: new.id })]
    } else {
        Seq::empty()
    }
}

/// Whether `new` lacks the name of an attribute.
pub open spec fn is_gone(new: Attrs) -> spec_fn((Seq<char>, Seq<char>)) -> bool {
    |attr: (Seq<char>, Seq<char>)| !has_name(new, attr.0)
}

/// Whether `old` lacks an attribute or gives it another value.
pub open spec fn is_changed(old: Attrs) -> spec_fn((Seq<char>, Seq<char>)) -> bool {
    |attr: (Seq<char>, Seq<char>)| lookup(old, attr.0) != Some(attr.1)
}

/// The removal of an attribute from the element at `index`.
pub open spec fn removal_at(index: int) -> spec_fn((Seq<char>, Seq<char>)) -> OpModel {
    |attr: (Seq<char>, Seq<char>)| here(ChangeModel::RemoveAttribute { index, name: attr.0 })
}

/// The setting of an attribute of the element at `index`.
pub open spec fn setting_at(index: int) -> spec_fn((Seq<char>, Seq<char>)) -> OpModel {
    |attr: (Seq<char>, Seq<char>)|
        here(ChangeModel::SetAttribute { index, name: attr.0, value: attr.1 })
}

/// One removal for each attribute of `old` whose name `new` lacks, in the
/// order of `old`.
pub open spec fn removal_ops(old: Attrs, new: Attrs, index: int) -> Seq<OpModel> {
    old.filter(is_gone(new)).map_values(removal_at(index))
}

/// One setting for each attribute of `new` that `old` lacks or gives another
/// value, in the order of `new`.
pub open spec fn setting_ops(old: Attrs, new: Attrs, index: int) -> Seq<OpModel> {
    new.filter(is_changed(old)).map_values(setting_at(index))
}

/// One fresh child for each node of `new` from the place `from` on, in order.
pub open spec fn append_ops(new: Seq<NodeModel>, from: int) -> Seq<OpModel> {
    Seq::new(
        (new.len() - from) as nat,
        |k: int| here(ChangeModel::AppendChild { node: materialize(new[from + k]) }),
    )
}

/// `surplus` removals of the last child of a node that has `host_len`
/// children.
pub open spec fn truncate_ops(host_len: int, surplus: int) -> Seq<OpModel> {
    Seq::new(surplus as nat, |k: int| here(ChangeModel::RemoveChild { index: host_len - 1 - k }))
}

/// The changes for the pair of nodes at `index`, or `None` where the host
/// lacks the child that they need.
///
/// Two texts need a new value where they differ and nothing where they do
/// not. Two elements of one tag are one host element: it gets the new
/// marker where the identifier changed, loses the attributes that went,
/// gets the attributes that came or changed, and then its children are
/// compared in the same way. Any other pair has the host child replaced by
/// a fresh one.
pub open spec fn diff_node(host: Seq<HostModel>, old: NodeModel, new: NodeModel, index: int)
    -> Option<Seq<OpModel>>
    decreases old, 0nat,
{
    if old is Text && new is Text {
        if old->Text_0 == new->Text_0 {
            Some(Seq::empty())
        } else if 0 <= index < host.len() {
            Some(seq![here(ChangeModel::SetText { index, content: new->Text_0 })])
        } else {
            None
        }
    } else if old is Element && new is Element && old->Element_0.tag == new->Element_0.tag {
        if 0 <= index < host.len() && host[index] is Element {
            match diff_children(
                host[index]->Element_0.children,
                old->Element_0.children,
                new->Element_0.children,
            ) {
                Some(inner) => Some(
                    marker_ops(old->Element_0, new->Element_0, index) + removal_ops(
                        old->Element_0.attributes,
                        new->Element_0.attributes,
                        index,
                    ) + setting_ops(old->Element_0.attributes, new->Element_0.attributes, index)
                        + all_below(inner, seq![index]),
                ),
                None => None,
            }
        } else {
            None
        }
    } else if 0 <= index < host.len() {
        Some(seq![here(ChangeModel::ReplaceChild { index, node: materialize(new) })])
    } else {
        None
    }
}

/// The changes for the first `count` pairs of `old` and `new`, in order, or
/// `None` where one of the pairs has none.
pub open spec fn diff_prefix(
    host: Seq<HostModel>,
    old: Seq<NodeModel>,
    new: Seq<NodeModel>,
    count: nat,
) -> Option<Seq<OpModel>>
    decreases old, count,
{
    if count == 0 || count > old.len() || count > new.len() {
        Some(Seq::empty())
    } else {
        match (
            diff_prefix(host, old, new, (count - 1) as nat),
            diff_node(host, old[count - 1], new[count - 1], count - 1),
        ) {
            (Some(before), Some(last)) => Some(before + last),
            _ => None,
        }
    }
}

/// The changes that bring the children `host` of a host node from showing
/// `old` to showing `new`, or `None` where the host lacks a child that they
/// need.
///
/// The pairs that `old` and `new` both have come first. Then the nodes that
/// only `new` has are appended, or one last child is removed for each node
/// that only `old` has.
pub open spec fn diff_children(host: Seq<HostModel>, old: Seq<NodeModel>, new: Seq<NodeModel>)
    -> Option<Seq<OpModel>>
    decreases old, old.len() + 1,
{
    let shared = if old.len() <= new.len() {
        old.len()
    } else {
        new.len()
    };
    match diff_prefix(host, old, new, shared) {
        Some(paired) => if old.len() <= new.len() {
            Some(paired + append_ops(new, old.len() as int))
        } else if old.len() - new.len() <= host.len() {
            Some(paired + truncate_ops(host.len() as int, old.len() - new.len()))
        } else {
            None
        },
        None => None,
    }
}

/// Whether the element `new`, where it is compared with `old` as the same
/// host element, holds no attribute name twice, and likewise each element
/// below it that is compared in the same way.
pub open spec fn pair_wf(old: NodeModel, new: NodeModel) -> bool
    decreases old, 0nat,
{
    if old is Element && new is Element && old->Element_0.tag == new->Element_0.tag {
        &&& names_unique(new->Element_0.attributes)
        &&& pairs_wf(old->Element_0.children, new->Element_0.children)
    } else {
        true
    }
}

/// Whether every pair of nodes of `old` and `new` is well formed in the
/// sense of [`pair_wf`].
pub open spec fn pairs_wf(old: Seq<NodeModel>, new: Seq<NodeModel>) -> bool
    decreases old, 1nat,
{
    forall|i: int| 0 <= i < old.len() && i < new.len() ==> pair_wf(#[trigger] old[i], new[i])
}

/// The changes that remove `host_len` children, the first one each time,
/// and then make `new` afresh.
pub open spec fn regenerate_ops(host_len: nat, new: Seq<NodeModel>) -> Seq<OpModel> {
    Seq::new(host_len, |k: int| here(ChangeModel::RemoveChild { index: 0 })) + append_ops(new, 0)
}

/// The changes that bring the children `host` of the root to showing `new`,
/// given that they show `old`: those of [`diff_children`] where it has any,
/// those of [`regenerate_ops`] where it has none.
pub open spec fn patch_ops(host: Seq<HostModel>, old: Seq<NodeModel>, new: Seq<NodeModel>) -> Seq<
    OpModel,
> {
    match diff_children(host, old, new) {
        Some(ops) => ops,
        None => regenerate_ops(host.len(), new),
    }
}

/// The host tree does not show the old tree, so it has to be made afresh as
/// a whole.
#[derive(Debug, PartialEq, Eq)]
pub struct MustRegenerate;

/// An operation on the children of the node from which paths are counted.
fn op_here(change: HostChange) -> (op: HostOp)
    ensures
        op@ == here(change@),
{
    let op = HostOp { parent: Vec::new(), change };
    assert(op@.parent =~= Seq::<int>::empty());
    op
}

/// Counts each of `inner` from the parent of the node at `index`, where it
/// was counted from that node.
fn lift(inner: Vec<HostOp>, index: usize) -> (lifted: Vec<HostOp>)
    ensures
        ops_view(lifted@) == all_below(ops_view(inner@), seq![index as int]),
{
    let mut lifted = inner;
    let mut i: usize = 0;
    while i < lifted.len()
        invariant
            i <= lifted.len(),
            lifted@.len() == inner@.len(),
            forall|j: int|
                0 <= j < i ==> (#[trigger] lifted@[j])@ == below(inner@[j]@, seq![index as int]),
            forall|j: int| i <= j < lifted.len() ==> #[trigger] lifted@[j] == inner@[j],
        decreases lifted.len() - i,
    {
        lifted[i].parent.insert(0, index);
        proof {
            assert(lifted@[i as int]@.parent =~= seq![index as int] + inner@[i as int]@.parent);
        }
        i += 1;
    }
    assert(ops_view(lifted@) =~= all_below(ops_view(inner@), seq![index as int]));
    lifted
}

/// Adding an operation to the end of a list adds the change it stands for.
proof fn lemma_ops_view_push(ops: Seq<HostOp>, op: HostOp)
    ensures
        ops_view(ops.push(op)) == ops_view(ops).push(op@),
{
    assert(ops_view(ops.push(op)) =~= ops_view(ops).push(op@));
}

/// Where the first `count` pairs have no changes, no more of them have any.
proof fn lemma_prefix_none_stays(
    host: Seq<HostModel>,
    old: Seq<NodeModel>,
    new: Seq<NodeModel>,
    count: nat,
    more: nat,
)
    requires
        count <= more,
        more <= old.len(),
        more <= new.len(),
        diff_prefix(host, old, new, count) is None,
    ensures
        diff_prefix(host, old, new, more) is None,
    decreases more,
{
    if count < more {
        lemma_prefix_none_stays(host, old, new, count, (more - 1) as nat);
    }
}

/// Asks for the removal of each attribute of `old_attrs` that `new_attrs`
/// lacks.
fn push_removals(
    ops: &mut Vec<HostOp>,
    old_attrs: &Vec<(String, String)>,
    new_attrs: &Vec<(String, String)>,
    index: usize,
)
    ensures
        ops_view(final(ops)@) == ops_view(old(ops)@) + removal_ops(
            attrs_view(old_attrs@),
            attrs_view(new_attrs@),
            index as int,
        ),
{
    let ghost attrs = attrs_view(old_attrs@);
    let ghost gone = is_gone(attrs_view(new_attrs@));
    let ghost removal = removal_at(index as int);
    let mut k: usize = 0;
    assert(attrs.take(0).filter(gone).map_values(removal) =~= Seq::<OpModel>::empty());
    assert(ops_view(ops@) + Seq::<OpModel>::empty() =~= ops_view(ops@));
    while k < old_attrs.len()
        invariant
            k <= old_attrs.len(),
            attrs == attrs_view(old_attrs@),
            gone == is_gone(attrs_view(new_attrs@)),
            removal == removal_at(index as int),
            ops_view(ops@) == ops_view(old(ops)@) + attrs.take(k as int).filter(gone).map_values(
                removal,
            ),
        decreases old_attrs.len() - k,
    {
        let ghost seen = attrs.take(k as int);
        proof {
            attrs.lemma_take_succ_push(k as int);
            seen.lemma_filter_push(attrs[k as int], gone);
            seen.filter(gone).lemma_push_map_commute(removal, attrs[k as int]);
        }
        let found = find_attr(new_attrs, old_attrs[k].0.as_str());
        if found.is_none() {
            let ghost before = ops@;
            let op = op_here(HostChange::RemoveAttribute { index, name: old_attrs[k].0.clone() });
            ops.push(op);
            proof {
                lemma_ops_view_push(before, op);
                assert(op@ == removal(attrs[k as int]));
                assert(ops_view(ops@) =~= ops_view(old(ops)@) + attrs.take(k + 1).filter(
                    gone,
                ).map_values(removal));
            }
        }
        k += 1;
    }
    assert(attrs.take(old_attrs.len() as int) =~= attrs);
}

/// Asks for the setting of each attribute of `new_attrs` that `old_attrs`
/// lacks or gives another value.
fn push_settings(
    ops: &mut Vec<HostOp>,
    old_attrs: &Vec<(String, String)>,
    new_attrs: &Vec<(String, String)>,
    index: usize,
)
    ensures
        ops_view(final(ops)@) == ops_view(old(ops)@) + setting_ops(
            attrs_view(old_attrs@),
            attrs_view(new_attrs@),
            index as int,
        ),
{
    let ghost attrs = attrs_view(new_attrs@);
    let ghost changed = is_changed(attrs_view(old_attrs@));
    let ghost setting = setting_at(index as int);
    let mut k: usize = 0;
    assert(attrs.take(0).filter(changed).map_values(setting) =~= Seq::<OpModel>::empty());
    assert(ops_view(ops@) + Seq::<OpModel>::empty() =~= ops_view(ops@));
    while k < new_attrs.len()
        invariant
            k <= new_attrs.len(),
            attrs == attrs_view(new_attrs@),
            changed == is_changed(attrs_view(old_attrs@)),
            setting == setting_at(index as int),
            ops_view(ops@) == ops_view(old(ops)@) + attrs.take(k as int).filter(
                changed,
            ).map_values(setting),
        decreases new_attrs.len() - k,
    {
        let ghost seen = attrs.take(k as int);
        proof {
            attrs.lemma_take_succ_push(k as int);
            seen.lemma_filter_push(attrs[k as int], changed);
            seen.filter(changed).lemma_push_map_commute(setting, attrs[k as int]);
        }
        let same = match get_attr(old_attrs, new_attrs[k].0.as_str()) {
            Some(value) => str_eq(value, new_attrs[k].1.as_str()),
            None => false,
        };
        if !same {
            let ghost before = ops@;
            let op = op_here(
                HostChange::SetAttribute {
                    index,
                    name: new_attrs[k].0.clone(),
                    value: new_attrs[k].1.clone(),
                },
            );
            ops.push(op);
            proof {
                lemma_ops_view_push(before, op);
                assert(op@ == setting(attrs[k as int]));
                assert(ops_view(ops@) =~= ops_view(old(ops)@) + attrs.take(k + 1).filter(
                    changed,
                ).map_values(setting));
            }
        }
        k += 1;
    }
    assert(attrs.take(new_attrs.len() as int) =~= attrs);
}

/// Finds the changes for the pair of nodes at `index`.
fn patch_node(dom: &Vec<HostNode>, old: &VNode, new: &VNode, index: usize) -> (found: Result<
    Vec<HostOp>,
    MustRegenerate,
>)
    ensures
        match found {
            Ok(ops) => {
                &&& diff_node(host_forest_view(dom@), old@, new@, index as int) == Some(
                    ops_view(ops@),
                )
                &&& pair_wf(old@, new@)
            },
            Err(_) => diff_node(host_forest_view(dom@), old@, new@, index as int) is None,
        },
    decreases old, 0nat,
{
    let mut ops: Vec<HostOp> = Vec::new();
    assert(ops_view(ops@) =~= Seq::<OpModel>::empty());
    match (old, new) {
        (VNode::Text(old_text), VNode::Text(new_text)) => {
            if !str_eq(old_text.as_str(), new_text.as_str()) {
                if index >= dom.len() {
                    return Err(MustRegenerate);
                }
                let op = op_here(HostChange::SetText { index, content: new_text.clone() });
                ops.push(op);
                assert(ops_view(ops@) =~= seq![op@]);
            }
            Ok(ops)
        },
        (VNode::Element(old_element), VNode::Element(new_element)) => {
            proof {
                lemma_element_node_view(*old_element);
                lemma_element_node_view(*new_element);
            }
            if index >= dom.len() {
                return Err(MustRegenerate);
            }
            if str_eq(old_element.tag.as_str(), new_element.tag.as_str()) {
                match &dom[index] {
                    HostNode::Element(dom_child) => {
                        proof {
                            lemma_host_element_view(*dom_child);
                        }
                        if old_element.id != new_element.id {
                            let op = op_here(HostChange::SetMarker { index, id: new_element.id });
                            ops.push(op);
                            assert(ops_view(ops@) =~= seq![op@]);
                        }
                        let old_attrs = old_element.attributes.entries();
                        let new_attrs = new_element.attributes.entries();
                        push_removals(&mut ops, old_attrs, new_attrs, index);
                        push_settings(&mut ops, old_attrs, new_attrs, index);
                        match patch_fallible(
                            &dom_child.children,
                            &old_element.children,
                            &new_element.children,
                        ) {
                            Ok(inner) => {
                                let ghost before = ops@;
                                let mut lifted = lift(inner, index);
                                let ghost added = lifted@;
                                ops.append(&mut lifted);
                                assert(ops_view(ops@) =~= ops_view(before) + ops_view(added));
                                Ok(ops)
                            },
                            Err(signal) => Err(signal),
                        }
                    },
                    HostNode::Text(_) => Err(MustRegenerate),
                }
            } else {
                let op = op_here(HostChange::ReplaceChild { index, node: new.to_host() });
                ops.push(op);
                assert(ops_view(ops@) =~= seq![op@]);
                Ok(ops)
            }
        },
        _ => {
            if index >= dom.len() {
                return Err(MustRegenerate);
            }
            let op = op_here(HostChange::ReplaceChild { index, node: new.to_host() });
            ops.push(op);
            assert(ops_view(ops@) =~= seq![op@]);
            Ok(ops)
        },
    }
}

/// Finds the changes that bring the children `dom` of a host node from
/// showing `old` to showing `new`, or reports that the host lacks a child
/// that they need. No change is made: the host is only read.
pub fn patch_fallible(dom: &Vec<HostNode>, old: &Vec<VNode>, new: &Vec<VNode>) -> (found: Result<
    Vec<HostOp>,
    MustRegenerate,
>)
    ensures
        match found {
            Ok(ops) => {
                &&& diff_children(host_forest_view(dom@), forest_view(old@), forest_view(new@))
                    == Some(ops_view(ops@))
                &&& pairs_wf(forest_view(old@), forest_view(new@))
            },
            Err(_) => diff_children(host_forest_view(dom@), forest_view(old@), forest_view(new@))
                is None,
        },
    decreases old, 1nat,
{
    let ghost host = host_forest_view(dom@);
    let ghost old_nodes = forest_view(old@);
    let ghost new_nodes = forest_view(new@);
    let shared: usize = if old.len() <= new.len() {
        old.len()
    } else {
        new.len()
    };
    let mut ops: Vec<HostOp> = Vec::new();
    assert(ops_view(ops@) =~= Seq::<OpModel>::empty());
    let mut i: usize = 0;
    while i < shared
        invariant
            i <= shared,
            shared <= old.len(),
            shared <= new.len(),
            shared == old.len() || shared == new.len(),
            host == host_forest_view(dom@),
            old_nodes == forest_view(old@),
            new_nodes == forest_view(new@),
            diff_prefix(host, old_nodes, new_nodes, i as nat) == Some(ops_view(ops@)),
            forall|j: int| 0 <= j < i ==> pair_wf(#[trigger] old_nodes[j], new_nodes[j]),
        decreases shared - i,
    {
        match patch_node(dom, &old[i], &new[i], i) {
            Ok(mut changes) => {
                let ghost before = ops@;
                let ghost added = changes@;
                ops.append(&mut changes);
                assert(ops_view(ops@) =~= ops_view(before) + ops_view(added));
            },
            Err(signal) => {
                proof {
                    assert(diff_prefix(host, old_nodes, new_nodes, (i + 1) as nat) is None);
                    lemma_prefix_none_stays(
                        host,
                        old_nodes,
                        new_nodes,
                        (i + 1) as nat,
                        shared as nat,
                    );
                }
                return Err(signal);
            },
        }
        i += 1;
    }
    let ghost paired = ops_view(ops@);
    if old.len() <= new.len() {
        let ghost wanted = append_ops(new_nodes, old.len() as int);
        let mut j: usize = old.len();
        assert(paired + wanted.take(0) =~= paired);
        while j < new.len()
            invariant
                old.len() <= j <= new.len(),
                new_nodes == forest_view(new@),
                wanted == append_ops(new_nodes, old.len() as int),
                ops_view(ops@) == paired + wanted.take(j - old.len()),
            decreases new.len() - j,
        {
            let ghost before = ops@;
            let op = op_here(HostChange::AppendChild { node: new[j].to_host() });
            ops.push(op);
            proof {
                lemma_ops_view_push(before, op);
                assert(op@ == wanted[j - old.len()]);
                assert(wanted.take(j - old.len()).push(op@) =~= wanted.take(j + 1 - old.len()));
                assert(ops_view(ops@) =~= paired + wanted.take(j + 1 - old.len()));
            }
            j += 1;
        }
        assert(wanted.take(new.len() - old.len()) =~= wanted);
        Ok(ops)
    } else {
        let surplus: usize = old.len() - new.len();
        if dom.len() < surplus {
            return Err(MustRegenerate);
        }
        let ghost wanted = truncate_ops(dom.len() as int, surplus as int);
        let mut k: usize = 0;
        assert(paired + wanted.take(0) =~= paired);
        while k < surplus
            invariant
                k <= surplus,
                surplus <= dom.len(),
                wanted == truncate_ops(dom.len() as int, surplus as int),
                ops_view(ops@) == paired + wanted.take(k as int),
            decreases surplus - k,
        {
            let ghost before = ops@;
            let op = op_here(HostChange::RemoveChild { index: dom.len() - 1 - k });
            ops.push(op);
            proof {
                lemma_ops_view_push(before, op);
                assert(op@ == wanted[k as int]);
                assert(wanted.take(k as int).push(op@) =~= wanted.take(k + 1));
                assert(ops_view(ops@) =~= paired + wanted.take(k + 1));
            }
            k += 1;
        }
        assert(wanted.take(surplus as int) =~= wanted);
        Ok(ops)
    }
}

/// Asks for the removal of `count` children of the root and for `new` to be
/// made afresh.
fn regenerate(count: usize, new: &Vec<VNode>) -> (ops: Vec<HostOp>)
    ensures
        ops_view(ops@) == regenerate_ops(count as nat, forest_view(new@)),
{
    let ghost removals = Seq::new(
        count as nat,
        |k: int| here(ChangeModel::RemoveChild { index: 0 }),
    );
    let ghost wanted = append_ops(forest_view(new@), 0);
    let mut ops: Vec<HostOp> = Vec::new();
    let mut k: usize = 0;
    assert(ops_view(ops@) =~= removals.take(0));
    while k < count
        invariant
            k <= count,
            removals == Seq::new(
                count as nat,
                |k: int| here(ChangeModel::RemoveChild { index: 0 }),
            ),
            ops_view(ops@) == removals.take(k as int),
        decreases count - k,
    {
        let ghost before = ops@;
        let op = op_here(HostChange::RemoveChild { index: 0 });
        ops.push(op);
        proof {
            lemma_ops_view_push(before, op);
            assert(removals.take(k as int).push(op@) =~= removals.take(k + 1));
        }
        k += 1;
    }
    assert(removals.take(count as int) =~= removals);
    let mut j: usize = 0;
    assert(removals + wanted.take(0) =~= removals);
    while j < new.len()
        invariant
            j <= new.len(),
            wanted == append_ops(forest_view(new@), 0),
            ops_view(ops@) == removals + wanted.take(j as int),
        decreases new.len() - j,
    {
        let ghost before = ops@;
        let op = op_here(HostChange::AppendChild { node: new[j].to_host() });
        ops.push(op);
        proof {
            lemma_ops_view_push(before, op);
            assert(op@ == wanted[j as int]);
            assert(wanted.take(j as int).push(op@) =~= wanted.take(j + 1));
            assert(ops_view(ops@) =~= removals + wanted.take(j + 1));
        }
        j += 1;
    }
    assert(wanted.take(new.len() as int) =~= wanted);
    ops
}

/// Finds the changes that bring the host from showing `old` to showing
/// `new`. `dom` holds the children of the host's root as they are now.
///
/// Where the host has every child that the comparison of `old` and `new`
/// needs, the changes are those of the comparison. Where it lacks one, they
/// remove every child of the root and make `new` afresh, and nothing else.
///
/// Made in order to a host that shows `old`, the changes leave it showing
/// `new`; so do the changes that make `new` afresh, whatever the host
/// holds.
pub fn patch(dom: &Vec<HostNode>, old: &VNodes, new: &VNodes) -> (ops: Vec<HostOp>)
    ensures
        ops_view(ops@) == patch_ops(host_forest_view(dom@), old@, new@),
        host_forest_view(dom@) == materialize_all(old@) || diff_children(
            host_forest_view(dom@),
            old@,
            new@,
        ) is None ==> apply_all(host_forest_view(dom@), ops_view(ops@)) == Some(
            materialize_all(new@),
        ),
{
    match patch_fallible(dom, &old.0, &new.0) {
        Ok(ops) => {
            proof {
                if host_forest_view(dom@) == materialize_all(old@) {
                    lemma_patch_brings_host_up_to_date(old@, new@);
                }
            }
            ops
        },
        Err(_) => {
            proof {
                lemma_regeneration_rebuilds_host(host_forest_view(dom@), old@, new@);
            }
            regenerate(dom.len(), &new.0)
        },
    }
}

} // verus!
