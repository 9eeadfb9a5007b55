use domi::event::{Event, EventKind};
use domi::id::Id;
use domi::vdom::builder::{DomBuilder, ElementOrId, StaticOrDynamic};
use domi::vdom::host::{HostElement, HostNode};
use domi::vdom::{VNode, VNodes};

fn shown(nodes: &VNodes) -> Vec<HostNode> {
    nodes.children().iter().map(|node| node.to_host()).collect()
}

fn element(key_id: Id, tag: &str, attributes: &[(&str, &str)], children: Vec<HostNode>) -> HostNode {
    HostNode::Element(HostElement {
        marker: Some(key_id),
        tag: String::from(tag),
        attributes: attributes
            .iter()
            .map(|(name, value)| (String::from(*name), String::from(*value)))
            .collect(),
        children,
    })
}

fn text(content: &str) -> HostNode {
    HostNode::Text(String::from(content))
}

#[test]
fn new_builder_is_at_the_top_level() {
    let mut nodes: Vec<VNode> = Vec::new();
    let ui = DomBuilder::new(Some(&mut nodes), None, &7u8);
    assert_eq!(ui.parent_id, None);
    assert!(ui.vdom.is_some());
    assert!(ui.shared.event.is_none());
    assert_eq!(*ui.context(), 7u8);
}

#[test]
fn text_is_appended_in_declaration_order() {
    let mut nodes = VNodes::default();
    {
        let mut ui = DomBuilder::new(Some(nodes.with_children_mut()), None, &());
        ui.text("one");
        ui.text("two");
        ui.text("");
    }
    assert_eq!(shown(&nodes), vec![text("one"), text("two"), text("")]);
}

#[test]
fn element_is_declared_without_attributes_or_children() {
    let mut nodes = VNodes::default();
    {
        let mut ui = DomBuilder::new(Some(nodes.with_children_mut()), None, &());
        ui.element("key", "div");
    }
    assert_eq!(shown(&nodes), vec![element(Id::new("key"), "div", &[], vec![])]);
}

#[test]
fn top_level_identifier_is_the_hash_of_the_key() {
    let mut nodes = VNodes::default();
    let mut ui = DomBuilder::new(Some(nodes.with_children_mut()), None, &());
    let button = ui.element("button", "button");
    assert_eq!(button.vdom.id(), Id::new("button"));
}

#[test]
fn child_identifier_combines_parent_and_key() {
    let mut nodes = VNodes::default();
    let mut ui = DomBuilder::new(Some(nodes.with_children_mut()), None, &());
    let mut list = ui.element("list", "ul");
    let mut items = list.children();
    assert_eq!(items.parent_id, Some(Id::new("list")));
    let mut item = items.element("item", "li");
    assert_eq!(item.vdom.id(), Id::new("list").with("item"));
    let mut below = item.children();
    let leaf = below.element("leaf", "span");
    assert_eq!(leaf.vdom.id(), Id::new("list").with("item").with("leaf"));
}

#[test]
fn identifier_does_not_depend_on_position_or_attributes() {
    let mut first = VNodes::default();
    let mut second = VNodes::default();
    let a = {
        let mut ui = DomBuilder::new(Some(first.with_children_mut()), None, &());
        ui.element("a", "p").attr("x", "1").vdom.id()
    };
    let b = {
        let mut ui = DomBuilder::new(Some(second.with_children_mut()), None, &());
        ui.text("before");
        ui.element("other", "p");
        ui.element("a", "div").vdom.id()
    };
    assert_eq!(a, b);
}

#[test]
fn duplicate_sibling_keys_give_equal_identifiers() {
    let mut nodes = VNodes::default();
    let mut ui = DomBuilder::new(Some(nodes.with_children_mut()), None, &());
    let first = ui.element("same", "p").vdom.id();
    let second = ui.element("same", "div").vdom.id();
    assert_eq!(first, second);
}

#[test]
fn attributes_keep_the_order_in_which_they_were_first_set() {
    let mut nodes = VNodes::default();
    {
        let mut ui = DomBuilder::new(Some(nodes.with_children_mut()), None, &());
        ui.element("e", "div").attr("b", "1").attr("a", "2").attr("c", "3");
    }
    assert_eq!(
        shown(&nodes),
        vec![element(Id::new("e"), "div", &[("b", "1"), ("a", "2"), ("c", "3")], vec![])]
    );
}

#[test]
fn last_write_of_an_attribute_wins() {
    let mut nodes = VNodes::default();
    {
        let mut ui = DomBuilder::new(Some(nodes.with_children_mut()), None, &());
        ui.element("e", "div").attr("a", "1").attr("b", "2").attr("a", "3");
    }
    assert_eq!(
        shown(&nodes),
        vec![element(Id::new("e"), "div", &[("a", "3"), ("b", "2")], vec![])]
    );
}

#[test]
fn removed_attribute_is_gone() {
    let mut nodes = VNodes::default();
    {
        let mut ui = DomBuilder::new(Some(nodes.with_children_mut()), None, &());
        let mut e = ui.element("e", "div");
        e.attr("a", "1").attr("b", "2").attr("c", "3");
        e.remove_attr("b").remove_attr("missing");
    }
    assert_eq!(
        shown(&nodes),
        vec![element(Id::new("e"), "div", &[("a", "1"), ("c", "3")], vec![])]
    );
}

#[test]
fn attribute_variants_set_the_same_attribute() {
    let mut nodes = VNodes::default();
    {
        let mut ui = DomBuilder::new(Some(nodes.with_children_mut()), None, &());
        ui.element("e", "div").attr("k", "v");
        ui.element("e", "div").attr_static("k", "v");
        ui.element("e", "div").attr_dynamic(&String::from("k"), &String::from("v"));
        ui.element("e", "div")
            .attr_explicit(StaticOrDynamic::Static("k"), StaticOrDynamic::Dynamic(&String::from("v")));
    }
    let expected = element(Id::new("e"), "div", &[("k", "v")], vec![]);
    let host = shown(&nodes);
    assert_eq!(host.len(), 4);
    for node in host {
        assert_eq!(node, expected);
    }
}

#[test]
fn static_or_dynamic_hands_out_its_text() {
    let owned = String::from("borrowed");
    assert_eq!(StaticOrDynamic::Static("static").as_str(), "static");
    assert_eq!(StaticOrDynamic::Dynamic(&owned).as_str(), "borrowed");
}

#[test]
fn children_are_nested_below_their_element() {
    let mut nodes = VNodes::default();
    {
        let mut ui = DomBuilder::new(Some(nodes.with_children_mut()), None, &());
        let mut outer = ui.element("outer", "div");
        {
            let mut inside = outer.children();
            inside.text("first");
            inside.element("inner", "p").children().text("deep");
        }
        outer.children().text("last");
        ui.text("after");
    }
    assert_eq!(
        shown(&nodes),
        vec![
            element(
                Id::new("outer"),
                "div",
                &[],
                vec![
                    text("first"),
                    element(Id::new("outer").with("inner"), "p", &[], vec![text("deep")]),
                    text("last"),
                ]
            ),
            text("after"),
        ]
    );
}

#[test]
fn dry_run_declares_nothing() {
    let event = Event { target_id: Id::new("button"), kind: EventKind::Click };
    let mut ui: DomBuilder<'_, ()> = DomBuilder::new(None, Some(&event), &());
    ui.text("ignored");
    let mut e = ui.element("e", "div");
    e.attr("a", "1").remove_attr("a");
    assert_eq!(e.vdom.id(), Id::new("e"));
    assert!(matches!(e.vdom, ElementOrId::Id(_)));
    let mut below = e.children();
    assert!(below.vdom.is_none());
    assert_eq!(below.parent_id, Some(Id::new("e")));
    below.text("ignored");
    let inner = below.element("inner", "p");
    assert_eq!(inner.vdom.id(), Id::new("e").with("inner"));
    assert!(ui.vdom.is_none());
}

#[test]
fn clicked_is_true_for_the_target_of_a_click() {
    let event = Event { target_id: Id::new("button"), kind: EventKind::Click };
    let mut ui: DomBuilder<'_, ()> = DomBuilder::new(None, Some(&event), &());
    assert!(!ui.element("label", "p").clicked());
    assert!(ui.element("button", "button").clicked());
    assert!(!ui.element("other", "button").clicked());
    let mut nested = ui.element("panel", "div");
    assert!(!nested.clicked());
    assert!(!nested.children().element("button", "button").clicked());
}

#[test]
fn clicked_is_false_for_another_kind_of_event() {
    let event = Event { target_id: Id::new("button"), kind: EventKind::Change };
    let mut ui: DomBuilder<'_, ()> = DomBuilder::new(None, Some(&event), &());
    assert!(!ui.element("button", "button").clicked());
}

#[test]
fn clicked_is_false_without_an_event() {
    let mut nodes = VNodes::default();
    let mut ui = DomBuilder::new(Some(nodes.with_children_mut()), None, &());
    assert!(!ui.element("button", "button").clicked());
}

#[test]
fn clicked_finds_a_nested_target() {
    let event = Event { target_id: Id::new("panel").with("ok"), kind: EventKind::Click };
    let mut ui: DomBuilder<'_, ()> = DomBuilder::new(None, Some(&event), &());
    assert!(!ui.element("ok", "button").clicked());
    let mut panel = ui.element("panel", "div");
    let mut inside = panel.children();
    assert!(!inside.element("cancel", "button").clicked());
    assert!(inside.element("ok", "button").clicked());
}

#[test]
fn clicked_is_answered_while_capturing_too() {
    let event = Event { target_id: Id::new("button"), kind: EventKind::Click };
    let mut nodes = VNodes::default();
    let mut ui = DomBuilder::new(Some(nodes.with_children_mut()), Some(&event), &());
    assert!(ui.element("button", "button").clicked());
}

#[test]
fn clearing_a_buffer_leaves_it_as_new() {
    let mut nodes = VNodes::default();
    {
        let mut ui = DomBuilder::new(Some(nodes.with_children_mut()), None, &());
        ui.element("e", "div").attr("a", "1").children().text("t");
        ui.text("more");
    }
    assert_eq!(nodes.children().len(), 2);
    nodes.clear();
    assert_eq!(nodes.children().len(), 0);
    assert_eq!(nodes, VNodes::default());
}

#[test]
fn a_buffer_made_with_an_arena_is_empty() {
    let mut used = VNodes::default();
    {
        let mut ui = DomBuilder::new(Some(used.with_children_mut()), None, &());
        ui.text("old");
    }
    let arena = vec![VNode::Text(String::from("left over"))];
    let nodes = VNodes::with_arena(arena);
    assert_eq!(nodes.children().len(), 0);
    assert_eq!(nodes, VNodes::default());
    assert_ne!(nodes, used);
}
