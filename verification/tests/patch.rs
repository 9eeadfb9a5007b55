use domi::id::Id;
use domi::vdom::builder::DomBuilder;
use domi::vdom::host::{HostChange, HostElement, HostNode, HostOp};
use domi::vdom::patch::{patch, patch_fallible, MustRegenerate};
use domi::vdom::VNodes;

fn build(render: fn(&mut DomBuilder<'_, ()>)) -> VNodes {
    let mut nodes = VNodes::default();
    {
        let mut ui = DomBuilder::new(Some(nodes.with_children_mut()), None, &());
        render(&mut ui);
    }
    nodes
}

fn shown(nodes: &VNodes) -> Vec<HostNode> {
    nodes.children().iter().map(|node| node.to_host()).collect()
}

fn at_root(change: HostChange) -> HostOp {
    HostOp { parent: vec![], change }
}

fn text(content: &str) -> HostNode {
    HostNode::Text(String::from(content))
}

fn page(ui: &mut DomBuilder<'_, ()>) {
    ui.element("header", "h1").children().text("Title");
    let mut list = ui.element("list", "ul");
    list.attr("class", "items").attr("id", "main");
    let mut items = list.children();
    items.element("a", "li").children().text("first");
    items.element("b", "li").attr("class", "odd").children().text("second");
    ui.text("footer");
}

#[test]
fn identical_trees_need_no_change() {
    let old = build(page);
    let new = build(page);
    assert_eq!(old, new);
    assert_eq!(patch(&shown(&old), &old, &new), vec![]);
    assert_eq!(patch_fallible(&shown(&old), old.children(), new.children()), Ok(vec![]));
}

#[test]
fn empty_trees_need_no_change() {
    let old = VNodes::default();
    let new = VNodes::default();
    assert_eq!(patch(&vec![], &old, &new), vec![]);
}

#[test]
fn changed_text_is_set_in_place() {
    let old = build(|ui| ui.text("a"));
    let new = build(|ui| ui.text("b"));
    assert_eq!(
        patch(&shown(&old), &old, &new),
        vec![at_root(HostChange::SetText { index: 0, content: String::from("b") })]
    );
}

#[test]
fn equal_text_is_left_alone_even_without_a_host_child() {
    let old = build(|ui| ui.text("a"));
    let new = build(|ui| ui.text("a"));
    assert_eq!(patch(&vec![], &old, &new), vec![]);
}

#[test]
fn attribute_delta_sets_what_came_or_changed() {
    let old = build(|ui| {
        ui.element("e", "div").attr("id", "x");
    });
    let new = build(|ui| {
        ui.element("e", "div").attr("id", "y").attr("cls", "z");
    });
    assert_eq!(
        patch(&shown(&old), &old, &new),
        vec![
            at_root(HostChange::SetAttribute {
                index: 0,
                name: String::from("id"),
                value: String::from("y"),
            }),
            at_root(HostChange::SetAttribute {
                index: 0,
                name: String::from("cls"),
                value: String::from("z"),
            }),
        ]
    );
}

#[test]
fn attribute_delta_removes_what_went() {
    let old = build(|ui| {
        ui.element("e", "div").attr("id", "x").attr("title", "t").attr("cls", "z");
    });
    let new = build(|ui| {
        ui.element("e", "div").attr("cls", "z");
    });
    assert_eq!(
        patch(&shown(&old), &old, &new),
        vec![
            at_root(HostChange::RemoveAttribute { index: 0, name: String::from("id") }),
            at_root(HostChange::RemoveAttribute { index: 0, name: String::from("title") }),
        ]
    );
}

#[test]
fn removals_come_before_settings() {
    let old = build(|ui| {
        ui.element("e", "div").attr("a", "1").attr("b", "2");
    });
    let new = build(|ui| {
        ui.element("e", "div").attr("c", "3").attr("b", "4");
    });
    assert_eq!(
        patch(&shown(&old), &old, &new),
        vec![
            at_root(HostChange::RemoveAttribute { index: 0, name: String::from("a") }),
            at_root(HostChange::SetAttribute {
                index: 0,
                name: String::from("c"),
                value: String::from("3"),
            }),
            at_root(HostChange::SetAttribute {
                index: 0,
                name: String::from("b"),
                value: String::from("4"),
            }),
        ]
    );
}

#[test]
fn changed_identifier_sets_the_marker() {
    let old = build(|ui| {
        ui.element("one", "div");
    });
    let new = build(|ui| {
        ui.element("two", "div");
    });
    assert_eq!(
        patch(&shown(&old), &old, &new),
        vec![at_root(HostChange::SetMarker { index: 0, id: Id::new("two") })]
    );
}

#[test]
fn surplus_new_node_is_appended() {
    let old = build(|ui| {
        ui.text("A");
        ui.text("B");
    });
    let new = build(|ui| {
        ui.text("A");
        ui.text("B");
        ui.text("C");
    });
    assert_eq!(
        patch(&shown(&old), &old, &new),
        vec![at_root(HostChange::AppendChild { node: text("C") })]
    );
}

#[test]
fn surplus_old_node_is_removed_from_the_end() {
    let old = build(|ui| {
        ui.text("A");
        ui.text("B");
        ui.text("C");
    });
    let new = build(|ui| {
        ui.text("A");
        ui.text("B");
    });
    assert_eq!(
        patch(&shown(&old), &old, &new),
        vec![at_root(HostChange::RemoveChild { index: 2 })]
    );
}

#[test]
fn several_surplus_old_nodes_are_removed_last_first() {
    let old = build(|ui| {
        ui.text("A");
        ui.text("B");
        ui.text("C");
        ui.text("D");
    });
    let new = build(|ui| ui.text("A"));
    assert_eq!(
        patch(&shown(&old), &old, &new),
        vec![
            at_root(HostChange::RemoveChild { index: 3 }),
            at_root(HostChange::RemoveChild { index: 2 }),
            at_root(HostChange::RemoveChild { index: 1 }),
        ]
    );
}

#[test]
fn several_surplus_new_nodes_are_appended_in_order() {
    let old = VNodes::default();
    let new = build(|ui| {
        ui.text("A");
        ui.element("b", "p").attr("k", "v").children().text("B");
    });
    assert_eq!(
        patch(&vec![], &old, &new),
        vec![
            at_root(HostChange::AppendChild { node: text("A") }),
            at_root(HostChange::AppendChild {
                node: HostNode::Element(HostElement {
                    marker: Some(Id::new("b")),
                    tag: String::from("p"),
                    attributes: vec![(String::from("k"), String::from("v"))],
                    children: vec![text("B")],
                }),
            }),
        ]
    );
}

#[test]
fn changed_tag_replaces_the_host_child() {
    let old = build(|ui| {
        ui.element("e", "p").attr("id", "x");
    });
    let new = build(|ui| {
        ui.element("e", "div").attr("id", "y");
    });
    assert_eq!(
        patch(&shown(&old), &old, &new),
        vec![at_root(HostChange::ReplaceChild {
            index: 0,
            node: HostNode::Element(HostElement {
                marker: Some(Id::new("e")),
                tag: String::from("div"),
                attributes: vec![(String::from("id"), String::from("y"))],
                children: vec![],
            }),
        })]
    );
}

#[test]
fn text_against_element_replaces_the_host_child() {
    let old = build(|ui| ui.text("a"));
    let new = build(|ui| {
        ui.element("e", "p");
    });
    assert_eq!(
        patch(&shown(&old), &old, &new),
        vec![at_root(HostChange::ReplaceChild {
            index: 0,
            node: HostNode::Element(HostElement {
                marker: Some(Id::new("e")),
                tag: String::from("p"),
                attributes: vec![],
                children: vec![],
            }),
        })]
    );
    assert_eq!(
        patch(&shown(&new), &new, &old),
        vec![at_root(HostChange::ReplaceChild { index: 0, node: text("a") })]
    );
}

#[test]
fn changes_below_an_element_name_the_path_to_it() {
    let old = build(|ui| {
        ui.text("intro");
        let mut outer = ui.element("outer", "div");
        let mut inside = outer.children();
        inside.text("x");
        let mut inner = inside.element("inner", "p");
        inner.attr("k", "1");
        inner.children().text("old");
    });
    let new = build(|ui| {
        ui.text("intro");
        let mut outer = ui.element("outer", "div");
        let mut inside = outer.children();
        inside.text("x");
        let mut inner = inside.element("inner", "p");
        inner.attr("k", "2");
        let mut deep = inner.children();
        deep.text("new");
        deep.text("more");
    });
    assert_eq!(
        patch(&shown(&old), &old, &new),
        vec![
            HostOp {
                parent: vec![1],
                change: HostChange::SetAttribute {
                    index: 1,
                    name: String::from("k"),
                    value: String::from("2"),
                },
            },
            HostOp {
                parent: vec![1, 1],
                change: HostChange::SetText { index: 0, content: String::from("new") },
            },
            HostOp { parent: vec![1, 1], change: HostChange::AppendChild { node: text("more") } },
        ]
    );
}

#[test]
fn nodes_are_paired_by_place_not_by_identifier() {
    let old = build(|ui| {
        ui.element("a", "p").attr("x", "1");
        ui.element("b", "p").attr("y", "2");
    });
    let new = build(|ui| {
        ui.element("b", "p").attr("y", "2");
        ui.element("a", "p").attr("x", "1");
    });
    assert_eq!(
        patch(&shown(&old), &old, &new),
        vec![
            at_root(HostChange::SetMarker { index: 0, id: Id::new("b") }),
            at_root(HostChange::RemoveAttribute { index: 0, name: String::from("x") }),
            at_root(HostChange::SetAttribute {
                index: 0,
                name: String::from("y"),
                value: String::from("2"),
            }),
            at_root(HostChange::SetMarker { index: 1, id: Id::new("a") }),
            at_root(HostChange::RemoveAttribute { index: 1, name: String::from("y") }),
            at_root(HostChange::SetAttribute {
                index: 1,
                name: String::from("x"),
                value: String::from("1"),
            }),
        ]
    );
}

#[test]
fn missing_host_child_regenerates_the_whole_tree() {
    let old = build(|ui| {
        ui.text("a");
        ui.text("b");
        ui.element("e", "p").children().text("inside");
    });
    let new = build(|ui| {
        ui.text("A");
        ui.text("b");
        ui.element("e", "p").children().text("changed");
    });
    // the host lost its third child, and holds two strangers instead
    let dom = vec![text("a"), text("stranger")];
    assert_eq!(patch_fallible(&dom, old.children(), new.children()), Err(MustRegenerate));
    assert_eq!(
        patch(&dom, &old, &new),
        vec![
            at_root(HostChange::RemoveChild { index: 0 }),
            at_root(HostChange::RemoveChild { index: 0 }),
            at_root(HostChange::AppendChild { node: text("A") }),
            at_root(HostChange::AppendChild { node: text("b") }),
            at_root(HostChange::AppendChild {
                node: HostNode::Element(HostElement {
                    marker: Some(Id::new("e")),
                    tag: String::from("p"),
                    attributes: vec![],
                    children: vec![text("changed")],
                }),
            }),
        ]
    );
}

#[test]
fn missing_host_child_below_an_element_regenerates_from_the_root() {
    let old = build(|ui| {
        ui.element("e", "p").children().text("inside");
    });
    let new = build(|ui| {
        ui.element("e", "p").attr("k", "v").children().text("changed");
    });
    let dom = vec![HostNode::Element(HostElement {
        marker: Some(Id::new("e")),
        tag: String::from("p"),
        attributes: vec![],
        children: vec![],
    })];
    assert_eq!(patch_fallible(&dom, old.children(), new.children()), Err(MustRegenerate));
    assert_eq!(
        patch(&dom, &old, &new),
        vec![
            at_root(HostChange::RemoveChild { index: 0 }),
            at_root(HostChange::AppendChild {
                node: HostNode::Element(HostElement {
                    marker: Some(Id::new("e")),
                    tag: String::from("p"),
                    attributes: vec![(String::from("k"), String::from("v"))],
                    children: vec![text("changed")],
                }),
            }),
        ]
    );
}

#[test]
fn host_text_where_an_element_is_expected_regenerates() {
    let old = build(|ui| {
        ui.element("e", "p");
    });
    let new = build(|ui| {
        ui.element("e", "p").attr("k", "v");
    });
    let dom = vec![text("stranger")];
    assert_eq!(patch_fallible(&dom, old.children(), new.children()), Err(MustRegenerate));
}

#[test]
fn too_few_host_children_to_remove_regenerates() {
    let old = build(|ui| {
        ui.text("a");
        ui.text("a");
        ui.text("a");
    });
    let new = VNodes::default();
    let dom = vec![text("a"), text("a")];
    assert_eq!(patch_fallible(&dom, old.children(), new.children()), Err(MustRegenerate));
    assert_eq!(
        patch(&dom, &old, &new),
        vec![
            at_root(HostChange::RemoveChild { index: 0 }),
            at_root(HostChange::RemoveChild { index: 0 }),
        ]
    );
}

#[test]
fn fresh_host_node_carries_marker_attributes_and_children() {
    let tree = build(page);
    let host = shown(&tree);
    assert_eq!(
        host,
        vec![
            HostNode::Element(HostElement {
                marker: Some(Id::new("header")),
                tag: String::from("h1"),
                attributes: vec![],
                children: vec![text("Title")],
            }),
            HostNode::Element(HostElement {
                marker: Some(Id::new("list")),
                tag: String::from("ul"),
                attributes: vec![
                    (String::from("class"), String::from("items")),
                    (String::from("id"), String::from("main")),
                ],
                children: vec![
                    HostNode::Element(HostElement {
                        marker: Some(Id::new("list").with("a")),
                        tag: String::from("li"),
                        attributes: vec![],
                        children: vec![text("first")],
                    }),
                    HostNode::Element(HostElement {
                        marker: Some(Id::new("list").with("b")),
                        tag: String::from("li"),
                        attributes: vec![(String::from("class"), String::from("odd"))],
                        children: vec![text("second")],
                    }),
                ],
            }),
            text("footer"),
        ]
    );
}
