//! What holds of the changes that a comparison asks for.
//!
//! The laws are stated over the models: a host whose root has the children
//! `host`, and the changes of [`patch_ops`], made to it in order.

use crate::vdom::attrs::{
    attrs_map, first_index, has_name, is_first_index, lemma_first_index, lookup, names_unique,
    Attrs,
};
use crate::vdom::host::{
    apply_all, apply_op, change_at, lemma_apply_all_concat, lemma_apply_all_one,
    lemma_apply_all_push, lemma_materialize_element, materialize, materialize_all, ChangeModel,
    HostElementModel, HostModel, OpModel,
};
use crate::vdom::patch::{
    all_below, append_ops, below, diff_children, diff_node, diff_prefix, here, is_changed,
    is_gone, marker_ops, pair_wf, pairs_wf, patch_ops, removal_at, removal_ops, setting_at,
    setting_ops, truncate_ops,
};
use crate::vdom::{forest_wf, node_wf, ElementModel, NodeModel};
use vstd::prelude::*;

verus! {

/// `element` with other children.
pub open spec fn with_children(element: HostElementModel, children: Seq<HostModel>)
    -> HostElementModel {
    HostElementModel { children, ..element }
}

/// Changes counted from the element at `index` change the children of that
/// element and nothing else.
pub proof fn lemma_apply_all_below(forest: Seq<HostModel>, index: int, ops: Seq<OpModel>)
    requires
        0 <= index < forest.len(),
        forest[index] is Element,
    ensures
        apply_all(forest, all_below(ops, seq![index])) == match apply_all(
            forest[index]->Element_0.children,
            ops,
        ) {
            Some(children) => Some(
                forest.update(
                    index,
                    HostModel::Element(with_children(forest[index]->Element_0, children)),
                ),
            ),
            None => None,
        },
    decreases ops.len(),
{
    let element = forest[index]->Element_0;
    let lifted = all_below(ops, seq![index]);
    if ops.len() == 0 {
        assert(forest.update(index, HostModel::Element(with_children(element, element.children)))
            =~= forest);
    } else {
        let op = ops[0];
        assert(lifted[0] == below(op, seq![index]));
        assert(lifted[0].parent.skip(1) =~= op.parent);
        assert(lifted.skip(1) =~= all_below(ops.skip(1), seq![index]));
        match change_at(element.children, op.parent, op.change) {
            Some(children) => {
                let next = forest.update(
                    index,
                    HostModel::Element(with_children(element, children)),
                );
                assert(apply_op(forest, lifted[0]) == Some(next));
                lemma_apply_all_below(next, index, ops.skip(1));
                match apply_all(children, ops.skip(1)) {
                    Some(last) => {
                        assert(next.update(
                            index,
                            HostModel::Element(with_children(next[index]->Element_0, last)),
                        ) =~= forest.update(
                            index,
                            HostModel::Element(with_children(element, last)),
                        ));
                    },
                    None => {},
                }
            },
            None => {
                assert(apply_op(forest, lifted[0]) is None);
            },
        }
    }
}

/// `element` with other attributes.
spec fn with_attributes(
    element: HostElementModel,
    attributes: Map<Seq<char>, Seq<char>>,
) -> HostElementModel {
    HostElementModel { attributes, ..element }
}

/// The names of the first `count` attributes of `old` that `new` lacks.
spec fn gone_names(old: Attrs, new: Attrs, count: int) -> Set<Seq<char>> {
    Set::new(
        |name: Seq<char>|
            exists|j: int|
                0 <= j < count && j < old.len() && (#[trigger] old[j]).0 == name && !has_name(
                    new,
                    name,
                ),
    )
}

/// The names of the first `count` attributes of `new` that `old` lacks or
/// gives another value.
spec fn set_names(old: Attrs, new: Attrs, count: int) -> Set<Seq<char>> {
    Set::new(
        |name: Seq<char>|
            exists|j: int|
                0 <= j < count && j < new.len() && (#[trigger] new[j]).0 == name && is_changed(
                    old,
                )(new[j]),
    )
}

/// The attributes `attributes` of a host element after the first `count`
/// attributes of `new` were set where `old` lacks them or gives them
/// another value.
spec fn after_settings(
    attributes: Map<Seq<char>, Seq<char>>,
    old: Attrs,
    new: Attrs,
    count: int,
) -> Map<Seq<char>, Seq<char>> {
    Map::new(
        |name: Seq<char>|
            attributes.dom().contains(name) || set_names(old, new, count).contains(name),
        |name: Seq<char>|
            if set_names(old, new, count).contains(name) {
                lookup(new, name)->0
            } else {
                attributes[name]
            },
    )
}

/// The removals for the first `count` attributes of `old` take from the
/// host element at `index` the names among them that `new` lacks, and
/// change nothing else.
proof fn lemma_apply_removals(
    forest: Seq<HostModel>,
    index: int,
    old: Attrs,
    new: Attrs,
    count: int,
)
    requires
        0 <= index < forest.len(),
        forest[index] is Element,
        0 <= count <= old.len(),
    ensures
        apply_all(forest, old.take(count).filter(is_gone(new)).map_values(removal_at(index)))
            == Some(
            forest.update(
                index,
                HostModel::Element(
                    with_attributes(
                        forest[index]->Element_0,
                        forest[index]->Element_0.attributes.remove_keys(
                            gone_names(old, new, count),
                        ),
                    ),
                ),
            ),
        ),
    decreases count,
{
    let element = forest[index]->Element_0;
    let gone = is_gone(new);
    let removal = removal_at(index);
    if count == 0 {
        assert(old.take(0).filter(gone).map_values(removal) =~= Seq::<OpModel>::empty());
        assert(element.attributes.remove_keys(gone_names(old, new, 0)) =~= element.attributes);
        assert(forest.update(
            index,
            HostModel::Element(with_attributes(element, element.attributes)),
        ) =~= forest);
    } else {
        let seen = old.take(count - 1);
        let attr = old[count - 1];
        lemma_apply_removals(forest, index, old, new, count - 1);
        old.lemma_take_succ_push(count - 1);
        assert(old.take(count) =~= seen.push(attr));
        seen.lemma_filter_push(attr, gone);
        let before = seen.filter(gone).map_values(removal);
        let attributes = element.attributes.remove_keys(gone_names(old, new, count - 1));
        let between = forest.update(
            index,
            HostModel::Element(with_attributes(element, attributes)),
        );
        if gone(attr) {
            seen.filter(gone).lemma_push_map_commute(removal, attr);
            assert(old.take(count).filter(gone).map_values(removal) =~= before.push(removal(attr)));
            lemma_apply_all_push(forest, before, removal(attr));
            assert(gone_names(old, new, count) =~= gone_names(old, new, count - 1).insert(attr.0));
            assert(attributes.remove(attr.0) =~= element.attributes.remove_keys(
                gone_names(old, new, count),
            ));
            assert(between.update(
                index,
                HostModel::Element(
                    with_attributes(between[index]->Element_0, attributes.remove(attr.0)),
                ),
            ) =~= forest.update(
                index,
                HostModel::Element(
                    with_attributes(
                        element,
                        element.attributes.remove_keys(gone_names(old, new, count)),
                    ),
                ),
            ));
        } else {
            assert(gone_names(old, new, count) =~= gone_names(old, new, count - 1));
        }
    }
}

/// The settings for the first `count` attributes of `new` give the host
/// element at `index` the values of those among them that `old` lacks or
/// gives another value, and change nothing else.
proof fn lemma_apply_settings(
    forest: Seq<HostModel>,
    index: int,
    old: Attrs,
    new: Attrs,
    count: int,
)
    requires
        0 <= index < forest.len(),
        forest[index] is Element,
        0 <= count <= new.len(),
        names_unique(new),
    ensures
        apply_all(forest, new.take(count).filter(is_changed(old)).map_values(setting_at(index)))
            == Some(
            forest.update(
                index,
                HostModel::Element(
                    with_attributes(
                        forest[index]->Element_0,
                        after_settings(forest[index]->Element_0.attributes, old, new, count),
                    ),
                ),
            ),
        ),
    decreases count,
{
    let element = forest[index]->Element_0;
    let changed = is_changed(old);
    let setting = setting_at(index);
    if count == 0 {
        assert(new.take(0).filter(changed).map_values(setting) =~= Seq::<OpModel>::empty());
        assert(after_settings(element.attributes, old, new, 0) =~= element.attributes);
        assert(forest.update(
            index,
            HostModel::Element(with_attributes(element, element.attributes)),
        ) =~= forest);
    } else {
        let seen = new.take(count - 1);
        let attr = new[count - 1];
        lemma_apply_settings(forest, index, old, new, count - 1);
        new.lemma_take_succ_push(count - 1);
        assert(new.take(count) =~= seen.push(attr));
        seen.lemma_filter_push(attr, changed);
        let before = seen.filter(changed).map_values(setting);
        let attributes = after_settings(element.attributes, old, new, count - 1);
        let between = forest.update(
            index,
            HostModel::Element(with_attributes(element, attributes)),
        );
        if changed(attr) {
            seen.filter(changed).lemma_push_map_commute(setting, attr);
            assert(new.take(count).filter(changed).map_values(setting) =~= before.push(
                setting(attr),
            ));
            lemma_apply_all_push(forest, before, setting(attr));
            assert(set_names(old, new, count) =~= set_names(old, new, count - 1).insert(attr.0));
            assert(has_name(new, attr.0));
            lemma_first_index(new, attr.0);
            assert(is_first_index(new, attr.0, count - 1));
            assert(lookup(new, attr.0) == Some(attr.1));
            assert(attributes.insert(attr.0, attr.1) =~= after_settings(
                element.attributes,
                old,
                new,
                count,
            ));
            assert(between.update(
                index,
                HostModel::Element(
                    with_attributes(between[index]->Element_0, attributes.insert(attr.0, attr.1)),
                ),
            ) =~= forest.update(
                index,
                HostModel::Element(
                    with_attributes(
                        element,
                        after_settings(element.attributes, old, new, count),
                    ),
                ),
            ));
        } else {
            assert(set_names(old, new, count) =~= set_names(old, new, count - 1));
            assert(after_settings(element.attributes, old, new, count) =~= attributes);
        }
    }
}

/// Taking from the attributes of `old` the names that `new` lacks, and then
/// setting the attributes of `new` that `old` lacks or gives another value,
/// leaves the attributes of `new`.
proof fn lemma_attributes_brought(old: Attrs, new: Attrs)
    requires
        names_unique(new),
    ensures
        after_settings(
            attrs_map(old).remove_keys(gone_names(old, new, old.len() as int)),
            old,
            new,
            new.len() as int,
        ) == attrs_map(new),
{
    let kept = attrs_map(old).remove_keys(gone_names(old, new, old.len() as int));
    let brought = after_settings(kept, old, new, new.len() as int);
    assert forall|name: Seq<char>| brought.dom().contains(name) == has_name(new, name) by {
        if has_name(new, name) {
            let j = choose|j: int| 0 <= j < new.len() && (#[trigger] new[j]).0 == name;
            if !is_changed(old)(new[j]) {
                assert(has_name(old, name));
                assert(!gone_names(old, new, old.len() as int).contains(name));
            }
        }
        if kept.dom().contains(name) {
            assert(has_name(old, name));
            let j = choose|j: int| 0 <= j < old.len() && (#[trigger] old[j]).0 == name;
            if !has_name(new, name) {
                assert(gone_names(old, new, old.len() as int).contains(name));
            }
        }
    }
    assert forall|name: Seq<char>| has_name(new, name) implies brought[name] == lookup(
        new,
        name,
    )->0 by {
        if !set_names(old, new, new.len() as int).contains(name) {
            lemma_first_index(new, name);
            let j = first_index(new, name);
            assert(!is_changed(old)(new[j]));
        }
    }
    assert(brought =~= attrs_map(new));
}

/// The first `count` of the appends for the nodes of `new` from `from` on
/// add the host nodes that show those nodes, in order.
proof fn lemma_apply_appends(forest: Seq<HostModel>, new: Seq<NodeModel>, from: int, count: int)
    requires
        0 <= from,
        0 <= count,
        from + count <= new.len(),
    ensures
        apply_all(forest, append_ops(new, from).take(count)) == Some(
            forest + materialize_all(new).subrange(from, from + count),
        ),
    decreases count,
{
    let wanted = append_ops(new, from);
    if count == 0 {
        assert(wanted.take(0) =~= Seq::<OpModel>::empty());
        assert(forest + materialize_all(new).subrange(from, from) =~= forest);
    } else {
        lemma_apply_appends(forest, new, from, count - 1);
        assert(wanted.take(count) =~= wanted.take(count - 1).push(wanted[count - 1]));
        lemma_apply_all_push(forest, wanted.take(count - 1), wanted[count - 1]);
        let between = forest + materialize_all(new).subrange(from, from + count - 1);
        assert(between.push(materialize(new[from + count - 1])) =~= forest + materialize_all(
            new,
        ).subrange(from, from + count));
    }
}

/// The first `count` of the removals of the last child leave the children
/// without their last `count`.
proof fn lemma_apply_truncate(forest: Seq<HostModel>, surplus: int, count: int)
    requires
        0 <= count <= surplus <= forest.len(),
    ensures
        apply_all(forest, truncate_ops(forest.len() as int, surplus).take(count)) == Some(
            forest.take(forest.len() - count),
        ),
    decreases count,
{
    let wanted = truncate_ops(forest.len() as int, surplus);
    if count == 0 {
        assert(wanted.take(0) =~= Seq::<OpModel>::empty());
        assert(forest.take(forest.len() as int) =~= forest);
    } else {
        lemma_apply_truncate(forest, surplus, count - 1);
        assert(wanted.take(count) =~= wanted.take(count - 1).push(wanted[count - 1]));
        lemma_apply_all_push(forest, wanted.take(count - 1), wanted[count - 1]);
        let between = forest.take(forest.len() - count + 1);
        assert(between.remove(forest.len() - count) =~= forest.take(forest.len() - count));
    }
}

/// A well-formed node is well formed in every comparison.
pub proof fn lemma_wf_pair(old: NodeModel, new: NodeModel)
    requires
        node_wf(new),
    ensures
        pair_wf(old, new),
    decreases old, 0nat,
{
    if old is Element && new is Element && old->Element_0.tag == new->Element_0.tag {
        lemma_wf_pairs(old->Element_0.children, new->Element_0.children);
    }
}

/// Well-formed nodes are well formed in every comparison.
pub proof fn lemma_wf_pairs(old: Seq<NodeModel>, new: Seq<NodeModel>)
    requires
        forest_wf(new),
    ensures
        pairs_wf(old, new),
    decreases old, 1nat,
{
    assert forall|i: int| 0 <= i < old.len() && i < new.len() implies pair_wf(
        #[trigger] old[i],
        new[i],
    ) by {
        lemma_wf_pair(old[i], new[i]);
    }
}

/// The host nodes that show the first `count` nodes of `new` and, from
/// there on, the nodes of `old`.
spec fn partly_brought(old: Seq<NodeModel>, new: Seq<NodeModel>, count: int) -> Seq<
    HostModel,
> {
    Seq::new(
        old.len(),
        |j: int|
            if j < count {
                materialize(new[j])
            } else {
                materialize(old[j])
            },
    )
}

/// Where the host child at `index` shows `old`, the changes for the pair
/// of `old` and `new` make it show `new` and change nothing else.
proof fn lemma_node_brought(
    forest: Seq<HostModel>,
    host: Seq<HostModel>,
    old: NodeModel,
    new: NodeModel,
    index: int,
)
    requires
        0 <= index < forest.len(),
        forest.len() == host.len(),
        host[index] == materialize(old),
        forest[index] == host[index],
        pair_wf(old, new),
    ensures
        diff_node(host, old, new, index) is Some,
        apply_all(forest, diff_node(host, old, new, index)->0) == Some(
            forest.update(index, materialize(new)),
        ),
    decreases old, 0nat,
{
    if old is Text && new is Text {
        if old->Text_0 == new->Text_0 {
            assert(forest.update(index, materialize(new)) =~= forest);
        } else {
            lemma_apply_all_one(
                forest,
                here(ChangeModel::SetText { index, content: new->Text_0 }),
            );
        }
    } else if old is Element && new is Element && old->Element_0.tag == new->Element_0.tag {
        let before = old->Element_0;
        let after = new->Element_0;
        lemma_materialize_element(before);
        lemma_materialize_element(after);
        lemma_children_brought(before.children, after.children);
        let element = forest[index]->Element_0;
        let inner = diff_children(element.children, before.children, after.children)->0;
        let marking = marker_ops(before, after, index);
        let removing = removal_ops(before.attributes, after.attributes, index);
        let setting = setting_ops(before.attributes, after.attributes, index);
        let descending = all_below(inner, seq![index]);
        // the marker
        let marked = forest.update(
            index,
            HostModel::Element(HostElementModel { marker: Some(after.id), ..element }),
        );
        assert(apply_all(forest, marking) == Some(marked)) by {
            if before.id != after.id {
                lemma_apply_all_one(
                    forest,
                    here(ChangeModel::SetMarker { index, id: after.id }),
                );
            } else {
                assert(marked =~= forest);
            }
        }
        // the attributes that went
        let kept = attrs_map(before.attributes).remove_keys(
            gone_names(before.attributes, after.attributes, before.attributes.len() as int),
        );
        let removed = marked.update(
            index,
            HostModel::Element(with_attributes(marked[index]->Element_0, kept)),
        );
        assert(apply_all(marked, removing) == Some(removed)) by {
            assert(before.attributes.take(before.attributes.len() as int) =~= before.attributes);
            lemma_apply_removals(
                marked,
                index,
                before.attributes,
                after.attributes,
                before.attributes.len() as int,
            );
        }
        // the attributes that came or changed
        let set = removed.update(
            index,
            HostModel::Element(
                with_attributes(removed[index]->Element_0, attrs_map(after.attributes)),
            ),
        );
        assert(apply_all(removed, setting) == Some(set)) by {
            assert(after.attributes.take(after.attributes.len() as int) =~= after.attributes);
            lemma_apply_settings(
                removed,
                index,
                before.attributes,
                after.attributes,
                after.attributes.len() as int,
            );
            lemma_attributes_brought(before.attributes, after.attributes);
        }
        // the children
        assert(apply_all(set, descending) == Some(forest.update(index, materialize(new)))) by {
            lemma_apply_all_below(set, index, inner);
            assert(set.update(
                index,
                HostModel::Element(
                    with_children(set[index]->Element_0, materialize_all(after.children)),
                ),
            ) =~= forest.update(index, materialize(new)));
        }
        lemma_apply_all_concat(forest, marking, removing);
        lemma_apply_all_concat(forest, marking + removing, setting);
        lemma_apply_all_concat(forest, marking + removing + setting, descending);
    } else {
        lemma_apply_all_one(
            forest,
            here(ChangeModel::ReplaceChild { index, node: materialize(new) }),
        );
    }
}

/// Where the host shows `old`, the changes for the first `count` pairs make
/// it show the first `count` nodes of `new` in their places.
proof fn lemma_prefix_brought(old: Seq<NodeModel>, new: Seq<NodeModel>, count: nat)
    requires
        pairs_wf(old, new),
        count <= old.len(),
        count <= new.len(),
    ensures
        diff_prefix(materialize_all(old), old, new, count) is Some,
        apply_all(materialize_all(old), diff_prefix(materialize_all(old), old, new, count)->0)
            == Some(partly_brought(old, new, count as int)),
    decreases old, count,
{
    let host = materialize_all(old);
    if count == 0 {
        assert(partly_brought(old, new, 0) =~= host);
    } else {
        lemma_prefix_brought(old, new, (count - 1) as nat);
        let between = partly_brought(old, new, count - 1);
        lemma_node_brought(between, host, old[count - 1], new[count - 1], count - 1);
        lemma_apply_all_concat(
            host,
            diff_prefix(host, old, new, (count - 1) as nat)->0,
            diff_node(host, old[count - 1], new[count - 1], count - 1)->0,
        );
        assert(between.update(count - 1, materialize(new[count - 1])) =~= partly_brought(
            old,
            new,
            count as int,
        ));
    }
}

/// Where the children of a host node show `old`, the comparison of `old`
/// and `new` finds every child that it needs, and its changes make the
/// children show `new`.
proof fn lemma_children_brought(old: Seq<NodeModel>, new: Seq<NodeModel>)
    requires
        pairs_wf(old, new),
    ensures
        diff_children(materialize_all(old), old, new) is Some,
        apply_all(materialize_all(old), diff_children(materialize_all(old), old, new)->0) == Some(
            materialize_all(new),
        ),
    decreases old, old.len() + 1,
{
    let host = materialize_all(old);
    let shared = if old.len() <= new.len() {
        old.len()
    } else {
        new.len()
    };
    lemma_prefix_brought(old, new, shared);
    let paired = diff_prefix(host, old, new, shared)->0;
    let between = partly_brought(old, new, shared as int);
    if old.len() <= new.len() {
        let wanted = append_ops(new, old.len() as int);
        assert(wanted.take(new.len() - old.len()) =~= wanted);
        lemma_apply_appends(between, new, old.len() as int, new.len() - old.len());
        lemma_apply_all_concat(host, paired, wanted);
        assert(between + materialize_all(new).subrange(old.len() as int, new.len() as int)
            =~= materialize_all(new));
    } else {
        let surplus = old.len() - new.len();
        let wanted = truncate_ops(host.len() as int, surplus);
        assert(wanted.take(surplus) =~= wanted);
        lemma_apply_truncate(between, surplus, surplus);
        lemma_apply_all_concat(host, paired, wanted);
        assert(between.take(between.len() - surplus) =~= materialize_all(new));
    }
}

/// Of a list none of whose items is wanted, nothing is kept.
proof fn lemma_filter_nothing<A>(items: Seq<A>, wanted: spec_fn(A) -> bool, count: int)
    requires
        0 <= count <= items.len(),
        forall|j: int| 0 <= j < items.len() ==> !wanted(#[trigger] items[j]),
    ensures
        items.take(count).filter(wanted) == Seq::<A>::empty(),
    decreases count,
{
    if count == 0 {
        items.take(0).lemma_filter_len(wanted);
        assert(items.take(0).filter(wanted) =~= Seq::<A>::empty());
    } else {
        lemma_filter_nothing(items, wanted, count - 1);
        items.lemma_take_succ_push(count - 1);
        assert(items.take(count) =~= items.take(count - 1).push(items[count - 1]));
        items.take(count - 1).lemma_filter_push(items[count - 1], wanted);
    }
}

/// Between equal attribute lists nothing is removed and nothing is set.
proof fn lemma_same_attributes(attrs: Attrs, index: int)
    requires
        names_unique(attrs),
    ensures
        removal_ops(attrs, attrs, index) == Seq::<OpModel>::empty(),
        setting_ops(attrs, attrs, index) == Seq::<OpModel>::empty(),
{
    assert forall|j: int| 0 <= j < attrs.len() implies !is_gone(attrs)(#[trigger] attrs[j]) by {
        assert(has_name(attrs, attrs[j].0));
    }
    assert forall|j: int| 0 <= j < attrs.len() implies !is_changed(attrs)(
        #[trigger] attrs[j],
    ) by {
        assert(has_name(attrs, attrs[j].0));
        lemma_first_index(attrs, attrs[j].0);
        assert(is_first_index(attrs, attrs[j].0, j));
    }
    lemma_filter_nothing(attrs, is_gone(attrs), attrs.len() as int);
    lemma_filter_nothing(attrs, is_changed(attrs), attrs.len() as int);
    assert(attrs.take(attrs.len() as int) =~= attrs);
    assert(removal_ops(attrs, attrs, index) =~= Seq::<OpModel>::empty());
    assert(setting_ops(attrs, attrs, index) =~= Seq::<OpModel>::empty());
}

/// A node that the host shows needs no change to stay as it is.
proof fn lemma_same_node(host: Seq<HostModel>, node: NodeModel, index: int)
    requires
        0 <= index < host.len(),
        host[index] == materialize(node),
        node_wf(node),
    ensures
        diff_node(host, node, node, index) == Some(Seq::<OpModel>::empty()),
{
    lemma_wf_pair(node, node);
    lemma_node_brought(host, host, node, node, index);
    lemma_equal_node(host, node, index);
}

/// Pairs of equal nodes that the host shows need no change.
proof fn lemma_same_prefix(
    host: Seq<HostModel>,
    old: Seq<NodeModel>,
    new: Seq<NodeModel>,
    count: nat,
)
    requires
        count <= old.len(),
        count <= new.len(),
        count <= host.len(),
        forall|j: int|
            0 <= j < count ==> #[trigger] old[j] == new[j] && node_wf(old[j]) && host[j]
                == materialize(old[j]),
    ensures
        diff_prefix(host, old, new, count) == Some(Seq::<OpModel>::empty()),
    decreases count,
{
    if count > 0 {
        lemma_same_prefix(host, old, new, (count - 1) as nat);
        assert(old[count - 1] == new[count - 1]);
        lemma_same_node(host, old[count - 1], count - 1);
        assert(Seq::<OpModel>::empty() + Seq::<OpModel>::empty() =~= Seq::<OpModel>::empty());
    }
}

/// The first `count` removals of the first child leave the children without
/// their first `count`.
proof fn lemma_apply_clear(forest: Seq<HostModel>, count: int)
    requires
        0 <= count <= forest.len(),
    ensures
        apply_all(
            forest,
            Seq::new(count as nat, |k: int| here(ChangeModel::RemoveChild { index: 0 })),
        ) == Some(forest.skip(count)),
    decreases count,
{
    let removals = Seq::new(count as nat, |k: int| here(ChangeModel::RemoveChild { index: 0 }));
    if count == 0 {
        assert(forest.skip(0) =~= forest);
    } else {
        let fewer = Seq::new(
            (count - 1) as nat,
            |k: int| here(ChangeModel::RemoveChild { index: 0 }),
        );
        lemma_apply_clear(forest, count - 1);
        assert(removals =~= fewer.push(here(ChangeModel::RemoveChild { index: 0 })));
        lemma_apply_all_push(forest, fewer, here(ChangeModel::RemoveChild { index: 0 }));
        assert(forest.skip(count - 1).remove(0) =~= forest.skip(count));
    }
}

/// A node compared with itself needs no change, whatever the host holds,
/// where the host has the children that the comparison needs.
proof fn lemma_equal_node(host: Seq<HostModel>, node: NodeModel, index: int)
    requires
        node_wf(node),
    ensures
        diff_node(host, node, node, index) is Some ==> diff_node(host, node, node, index) == Some(
            Seq::<OpModel>::empty(),
        ),
    decreases node, 0nat,
{
    if node is Element && diff_node(host, node, node, index) is Some {
        let element = node->Element_0;
        let below = host[index]->Element_0.children;
        lemma_same_attributes(element.attributes, index);
        lemma_equal_prefix(below, element.children, element.children.len());
        assert(append_ops(element.children, element.children.len() as int) =~= Seq::<
            OpModel,
        >::empty());
        assert(Seq::<OpModel>::empty() + Seq::<OpModel>::empty() =~= Seq::<OpModel>::empty());
        assert(all_below(Seq::<OpModel>::empty(), seq![index]) =~= Seq::<OpModel>::empty());
        assert(diff_node(host, node, node, index)->0 =~= Seq::<OpModel>::empty());
    }
}

/// The first `count` nodes of a tree, compared with themselves, need no
/// change, whatever the host holds, where the host has the children that
/// the comparison needs.
proof fn lemma_equal_prefix(host: Seq<HostModel>, nodes: Seq<NodeModel>, count: nat)
    requires
        forest_wf(nodes),
        count <= nodes.len(),
    ensures
        diff_prefix(host, nodes, nodes, count) is Some ==> diff_prefix(host, nodes, nodes, count)
            == Some(Seq::<OpModel>::empty()),
    decreases nodes, count,
{
    if count > 0 {
        lemma_equal_prefix(host, nodes, (count - 1) as nat);
        lemma_equal_node(host, nodes[count - 1], count - 1);
        assert(Seq::<OpModel>::empty() + Seq::<OpModel>::empty() =~= Seq::<OpModel>::empty());
    }
}

/// Comparing a tree with itself asks for no change, whatever the host
/// holds, unless the host lacks a child that the comparison needs.
pub proof fn lemma_patch_of_same_tree_is_empty(host: Seq<HostModel>, tree: Seq<NodeModel>)
    requires
        forest_wf(tree),
        diff_children(host, tree, tree) is Some,
    ensures
        patch_ops(host, tree, tree) == Seq::<OpModel>::empty(),
{
    lemma_equal_prefix(host, tree, tree.len());
    assert(append_ops(tree, tree.len() as int) =~= Seq::<OpModel>::empty());
    assert(Seq::<OpModel>::empty() + Seq::<OpModel>::empty() =~= Seq::<OpModel>::empty());
}

/// Where the host shows a tree, and the next frame declares the same tree,
/// the host is left alone.
pub proof fn lemma_patch_of_shown_tree_is_empty(tree: Seq<NodeModel>)
    requires
        forest_wf(tree),
    ensures
        patch_ops(materialize_all(tree), tree, tree) == Seq::<OpModel>::empty(),
{
    lemma_wf_pairs(tree, tree);
    lemma_children_brought(tree, tree);
    lemma_patch_of_same_tree_is_empty(materialize_all(tree), tree);
}

/// Where the host shows the old tree, nothing is regenerated, and the
/// changes that the comparison asks for make the host show the new tree.
///
/// The new tree has to be well formed where it is compared with the old
/// one, as every well-formed tree is ([`lemma_wf_pairs`]).
pub proof fn lemma_patch_brings_host_up_to_date(old: Seq<NodeModel>, new: Seq<NodeModel>)
    requires
        pairs_wf(old, new),
    ensures
        diff_children(materialize_all(old), old, new) is Some,
        apply_all(materialize_all(old), patch_ops(materialize_all(old), old, new)) == Some(
            materialize_all(new),
        ),
{
    lemma_children_brought(old, new);
}

/// Where the host lacks a child that the comparison needs, whatever else it
/// holds, the changes are these and no others: one removal of the first
/// child for each child of the root, then one fresh child for each node of
/// the new tree. They make the host show the new tree.
pub proof fn lemma_regeneration_rebuilds_host(
    host: Seq<HostModel>,
    old: Seq<NodeModel>,
    new: Seq<NodeModel>,
)
    requires
        diff_children(host, old, new) is None,
    ensures
        patch_ops(host, old, new).len() == host.len() + new.len(),
        forall|i: int|
            0 <= i < host.len() ==> #[trigger] patch_ops(host, old, new)[i] == here(
                ChangeModel::RemoveChild { index: 0 },
            ),
        forall|i: int|
            0 <= i < new.len() ==> #[trigger] patch_ops(host, old, new)[host.len() + i] == here(
                ChangeModel::AppendChild { node: materialize(new[i]) },
            ),
        apply_all(host, patch_ops(host, old, new)) == Some(materialize_all(new)),
{
    let removals = Seq::new(host.len(), |k: int| here(ChangeModel::RemoveChild { index: 0 }));
    let appends = append_ops(new, 0);
    lemma_apply_clear(host, host.len() as int);
    assert(appends.take(new.len() as int) =~= appends);
    lemma_apply_appends(host.skip(host.len() as int), new, 0, new.len() as int);
    lemma_apply_all_concat(host, removals, appends);
    assert(host.skip(host.len() as int) + materialize_all(new).subrange(0, new.len() as int)
        =~= materialize_all(new));
}

/// Where the new tree is the old tree with nodes added at the end, and the
/// host shows the old tree, the changes are one fresh child for each added
/// node, in order, and no others.
pub proof fn lemma_patch_of_extended_tree_appends(old: Seq<NodeModel>, added: Seq<NodeModel>)
    requires
        forest_wf(old),
    ensures
        patch_ops(materialize_all(old), old, old + added) == append_ops(
            old + added,
            old.len() as int,
        ),
{
    lemma_same_prefix(materialize_all(old), old, old + added, old.len());
    assert(Seq::<OpModel>::empty() + append_ops(old + added, old.len() as int) =~= append_ops(
        old + added,
        old.len() as int,
    ));
}

/// Where the new tree is the old tree without its last nodes, and the host
/// shows the old tree, the changes are one removal of the last child for
/// each node that went, and no others.
pub proof fn lemma_patch_of_shortened_tree_removes(kept: Seq<NodeModel>, dropped: Seq<NodeModel>)
    requires
        forest_wf(kept),
    ensures
        patch_ops(materialize_all(kept + dropped), kept + dropped, kept) == truncate_ops(
            (kept.len() + dropped.len()) as int,
            dropped.len() as int,
        ),
{
    let old = kept + dropped;
    lemma_same_prefix(materialize_all(old), old, kept, kept.len());
    assert(Seq::<OpModel>::empty() + truncate_ops(old.len() as int, dropped.len() as int)
        =~= truncate_ops(old.len() as int, dropped.len() as int));
    if dropped.len() == 0 {
        assert(old =~= kept);
        assert(append_ops(kept, old.len() as int) =~= truncate_ops(old.len() as int, 0));
    }
}

/// Where two trees differ in one place only, and the host shows the first
/// `count` nodes of both, the changes for the first `count` pairs are those
/// for the pair at that place, once it is among them, and none before.
proof fn lemma_prefix_of_one_changed_node(
    host: Seq<HostModel>,
    old: Seq<NodeModel>,
    new: Seq<NodeModel>,
    place: int,
    count: nat,
)
    requires
        0 <= place < old.len(),
        old.len() == new.len(),
        old.len() == host.len(),
        count <= old.len(),
        forall|j: int|
            0 <= j < old.len() && j != place ==> #[trigger] old[j] == new[j] && node_wf(old[j])
                && host[j] == materialize(old[j]),
    ensures
        diff_prefix(host, old, new, count) == if count <= place {
            Some(Seq::<OpModel>::empty())
        } else {
            diff_node(host, old[place], new[place], place)
        },
    decreases count,
{
    if count > 0 {
        lemma_prefix_of_one_changed_node(host, old, new, place, (count - 1) as nat);
        let last = diff_node(host, old[count - 1], new[count - 1], count - 1);
        if count - 1 != place {
            assert(old[count - 1] == new[count - 1]);
            lemma_same_node(host, old[count - 1], count - 1);
        }
        match diff_node(host, old[place], new[place], place) {
            Some(ops) => {
                assert(Seq::<OpModel>::empty() + ops =~= ops);
                assert(ops + Seq::<OpModel>::empty() =~= ops);
            },
            None => {},
        }
        assert(Seq::<OpModel>::empty() + Seq::<OpModel>::empty() =~= Seq::<OpModel>::empty());
    }
}

/// Where the new tree differs from the old tree in one node only, and the
/// host shows the old tree, the changes are those for that pair of nodes
/// and no others.
pub proof fn lemma_patch_of_one_changed_node(
    before: Seq<NodeModel>,
    old_node: NodeModel,
    new_node: NodeModel,
    after: Seq<NodeModel>,
)
    requires
        forest_wf(before),
        forest_wf(after),
        node_wf(new_node),
    ensures
        diff_node(
            materialize_all(before.push(old_node) + after),
            old_node,
            new_node,
            before.len() as int,
        ) is Some,
        patch_ops(
            materialize_all(before.push(old_node) + after),
            before.push(old_node) + after,
            before.push(new_node) + after,
        ) == diff_node(
            materialize_all(before.push(old_node) + after),
            old_node,
            new_node,
            before.len() as int,
        )->0,
{
    let old = before.push(old_node) + after;
    let new = before.push(new_node) + after;
    let host = materialize_all(old);
    let place = before.len() as int;
    assert(old[place] == old_node);
    assert(new[place] == new_node);
    assert forall|j: int| 0 <= j < old.len() && j != place implies #[trigger] old[j] == new[j]
        && node_wf(old[j]) && host[j] == materialize(old[j]) by {
        if j < place {
            assert(old[j] == before[j]);
        } else {
            assert(old[j] == after[j - place - 1]);
        }
    }
    lemma_prefix_of_one_changed_node(host, old, new, place, old.len());
    lemma_wf_pair(old_node, new_node);
    lemma_node_brought(host, host, old_node, new_node, place);
    let ops = diff_node(host, old_node, new_node, place)->0;
    assert(append_ops(new, old.len() as int) =~= Seq::<OpModel>::empty());
    assert(ops + Seq::<OpModel>::empty() =~= ops);
}

/// Where one text of the tree changed and nothing else, and the host shows
/// the old tree, the only change is that the host text at that place gets
/// the new value.
pub proof fn lemma_patch_of_changed_text(
    before: Seq<NodeModel>,
    old_text: Seq<char>,
    new_text: Seq<char>,
    after: Seq<NodeModel>,
)
    requires
        forest_wf(before),
        forest_wf(after),
        old_text != new_text,
    ensures
        patch_ops(
            materialize_all(before.push(NodeModel::Text(old_text)) + after),
            before.push(NodeModel::Text(old_text)) + after,
            before.push(NodeModel::Text(new_text)) + after,
        ) == seq![
            here(ChangeModel::SetText { index: before.len() as int, content: new_text }),
        ],
{
    lemma_patch_of_one_changed_node(
        before,
        NodeModel::Text(old_text),
        NodeModel::Text(new_text),
        after,
    );
}

/// Where one element of the tree changed its attributes and nothing else,
/// and the host shows the old tree, the changes are the removals of the
/// attributes that went and then the settings of those that came or
/// changed, on that host element, and no others.
pub proof fn lemma_patch_of_changed_attributes(
    before: Seq<NodeModel>,
    element: ElementModel,
    attributes: Attrs,
    after: Seq<NodeModel>,
)
    requires
        forest_wf(before),
        forest_wf(after),
        node_wf(NodeModel::Element(element)),
        names_unique(attributes),
    ensures
        patch_ops(
            materialize_all(before.push(NodeModel::Element(element)) + after),
            before.push(NodeModel::Element(element)) + after,
            before.push(NodeModel::Element(ElementModel { attributes, ..element })) + after,
        ) == removal_ops(element.attributes, attributes, before.len() as int) + setting_ops(
            element.attributes,
            attributes,
            before.len() as int,
        ),
{
    let old_node = NodeModel::Element(element);
    let new_node = NodeModel::Element(ElementModel { attributes, ..element });
    let place = before.len() as int;
    lemma_patch_of_one_changed_node(before, old_node, new_node, after);
    let host = materialize_all(before.push(old_node) + after);
    assert(host[place] == materialize(old_node));
    lemma_materialize_element(element);
    lemma_same_prefix(
        materialize_all(element.children),
        element.children,
        element.children,
        element.children.len(),
    );
    assert(append_ops(element.children, element.children.len() as int) =~= Seq::<
        OpModel,
    >::empty());
    assert(Seq::<OpModel>::empty() + Seq::<OpModel>::empty() =~= Seq::<OpModel>::empty());
    assert(all_below(Seq::<OpModel>::empty(), seq![place]) =~= Seq::<OpModel>::empty());
    let removing = removal_ops(element.attributes, attributes, place);
    let setting = setting_ops(element.attributes, attributes, place);
    assert(Seq::<OpModel>::empty() + removing + setting + Seq::<OpModel>::empty() =~= removing
        + setting);
}

/// Where the new attributes hold every name of the old ones, nothing is
/// removed.
pub proof fn lemma_no_removal_where_names_stay(old: Attrs, new: Attrs, index: int)
    requires
        forall|j: int| 0 <= j < old.len() ==> has_name(new, (#[trigger] old[j]).0),
    ensures
        removal_ops(old, new, index) == Seq::<OpModel>::empty(),
{
    lemma_filter_nothing(old, is_gone(new), old.len() as int);
    assert(old.take(old.len() as int) =~= old);
    assert(removal_ops(old, new, index) =~= Seq::<OpModel>::empty());
}

/// Where one node of the tree gave way to a node of another kind, or to an
/// element of another tag, and the host shows the old tree, the only change
/// is that the host child at that place is replaced by a fresh one; nothing
/// is asked of the old host child.
pub proof fn lemma_patch_of_replaced_node(
    before: Seq<NodeModel>,
    old_node: NodeModel,
    new_node: NodeModel,
    after: Seq<NodeModel>,
)
    requires
        forest_wf(before),
        forest_wf(after),
        node_wf(new_node),
        (old_node is Text) != (new_node is Text) || (old_node is Element && new_node is Element
            && old_node->Element_0.tag != new_node->Element_0.tag),
    ensures
        patch_ops(
            materialize_all(before.push(old_node) + after),
            before.push(old_node) + after,
            before.push(new_node) + after,
        ) == seq![
            here(
                ChangeModel::ReplaceChild {
                    index: before.len() as int,
                    node: materialize(new_node),
                },
            ),
        ],
{
    lemma_patch_of_one_changed_node(before, old_node, new_node, after);
}

} // verus!
