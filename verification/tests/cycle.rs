use domi::cycle::{passes, DrawMode, Trigger, VDoms};
use domi::event::{Event, EventKind};
use domi::id::Id;
use domi::vdom::builder::DomBuilder;
use domi::vdom::host::{apply_ops, HostChange, HostElement, HostNode, HostOp};
use domi::vdom::VNodes;

struct Counter {
    value: u32,
    label_clicked: bool,
    button_clicked: bool,
}

fn counter() -> Counter {
    Counter { value: 0, label_clicked: false, button_clicked: false }
}

fn render(ui: &mut DomBuilder<'_, ()>, state: &mut Counter) {
    let mut label = ui.element("label", "p");
    label.children().text(&format!("The value is {}", state.value));
    state.label_clicked = label.clicked();

    let mut button = ui.element("button", "button");
    button.children().text("Add one");
    state.button_clicked = button.clicked();
    if state.button_clicked {
        state.value += 1;
    }
}

/// Runs the passes that follow on `trigger`, as the caller of the engine
/// does: the render code in each pass, and after it the changes to the host.
/// Returns the changes of each pass.
fn run(vdoms: &mut VDoms, host: &mut Vec<HostNode>, trigger: Trigger<'_>, state: &mut Counter) -> Vec<Vec<HostOp>> {
    let mut made = Vec::new();
    for mode in passes(trigger) {
        {
            let mut ui = vdoms.draw(&mode, &());
            render(&mut ui, state);
        }
        let before = host.clone();
        let ops = vdoms.finish(&mode, host);
        made.push(ops.clone());
        assert_eq!(apply_ops(host, ops), Ok(()));
        if let DrawMode::ReactToEvent(_) = mode {
            assert_eq!(*host, before);
        }
    }
    made
}

fn counter_host(value: u32) -> Vec<HostNode> {
    vec![
        HostNode::Element(HostElement {
            marker: Some(Id::new("label")),
            tag: String::from("p"),
            attributes: vec![],
            children: vec![HostNode::Text(format!("The value is {value}"))],
        }),
        HostNode::Element(HostElement {
            marker: Some(Id::new("button")),
            tag: String::from("button"),
            attributes: vec![],
            children: vec![HostNode::Text(String::from("Add one"))],
        }),
    ]
}

#[test]
fn a_handled_event_sets_off_a_reaction_pass_and_then_a_build_pass() {
    let modes = passes(Trigger::HostEvent { kind_name: "click", marker: Some("42") });
    assert_eq!(
        modes,
        vec![
            DrawMode::ReactToEvent(Event { target_id: Id(42), kind: EventKind::Click }),
            DrawMode::BuildDom,
        ]
    );
    let modes = passes(Trigger::HostEvent { kind_name: "change", marker: Some("7") });
    assert_eq!(
        modes,
        vec![
            DrawMode::ReactToEvent(Event { target_id: Id(7), kind: EventKind::Change }),
            DrawMode::BuildDom,
        ]
    );
}

#[test]
fn an_event_that_is_none_sets_off_no_pass() {
    assert_eq!(passes(Trigger::HostEvent { kind_name: "keydown", marker: Some("42") }), vec![]);
    assert_eq!(passes(Trigger::HostEvent { kind_name: "click", marker: None }), vec![]);
    assert_eq!(passes(Trigger::HostEvent { kind_name: "click", marker: Some("x") }), vec![]);
}

#[test]
fn an_update_request_sets_off_a_build_pass_alone() {
    assert_eq!(passes(Trigger::UpdateRequest), vec![DrawMode::BuildDom]);
}

#[test]
fn first_build_pass_makes_the_whole_tree() {
    let mut vdoms = VDoms::default();
    let mut host: Vec<HostNode> = Vec::new();
    let mut state = counter();
    let made = run(&mut vdoms, &mut host, Trigger::UpdateRequest, &mut state);
    assert_eq!(made.len(), 1);
    assert_eq!(made[0].len(), 2);
    assert_eq!(host, counter_host(0));
    assert!(!state.button_clicked);
}

#[test]
fn a_build_pass_without_changes_leaves_the_host_alone() {
    let mut vdoms = VDoms::default();
    let mut host: Vec<HostNode> = Vec::new();
    let mut state = counter();
    run(&mut vdoms, &mut host, Trigger::UpdateRequest, &mut state);
    let made = run(&mut vdoms, &mut host, Trigger::UpdateRequest, &mut state);
    assert_eq!(made, vec![vec![]]);
    assert_eq!(host, counter_host(0));
}

#[test]
fn a_click_reaches_the_element_that_carries_its_marker() {
    let mut vdoms = VDoms::default();
    let mut host: Vec<HostNode> = Vec::new();
    let mut state = counter();
    run(&mut vdoms, &mut host, Trigger::UpdateRequest, &mut state);
    assert!(!state.button_clicked && !state.label_clicked);

    // the reaction pass alone
    let marker = Id::new("button").to_string();
    let modes = passes(Trigger::HostEvent { kind_name: "click", marker: Some(&marker) });
    assert_eq!(modes.len(), 2);
    {
        let mut ui = vdoms.draw(&modes[0], &());
        render(&mut ui, &mut state);
    }
    assert!(state.button_clicked);
    assert!(!state.label_clicked);
    assert_eq!(vdoms.finish(&modes[0], &host), vec![]);

    // the build pass that follows
    {
        let mut ui = vdoms.draw(&modes[1], &());
        render(&mut ui, &mut state);
    }
    assert!(!state.button_clicked);
    assert!(!state.label_clicked);
    vdoms.finish(&modes[1], &host);

    // the next frame
    {
        let mut ui = vdoms.draw(&DrawMode::BuildDom, &());
        render(&mut ui, &mut state);
    }
    assert!(!state.button_clicked);
    assert!(!state.label_clicked);
}

#[test]
fn a_click_on_another_element_does_not_reach_the_button() {
    let mut vdoms = VDoms::default();
    let mut host: Vec<HostNode> = Vec::new();
    let mut state = counter();
    run(&mut vdoms, &mut host, Trigger::UpdateRequest, &mut state);
    let marker = Id::new("label").to_string();
    run(
        &mut vdoms,
        &mut host,
        Trigger::HostEvent { kind_name: "click", marker: Some(&marker) },
        &mut state,
    );
    assert_eq!(state.value, 0);
    assert_eq!(host, counter_host(0));
}

#[test]
fn one_click_shows_the_incremented_value_in_the_same_cycle() {
    let mut vdoms = VDoms::default();
    let mut host: Vec<HostNode> = Vec::new();
    let mut state = counter();
    run(&mut vdoms, &mut host, Trigger::UpdateRequest, &mut state);
    assert_eq!(host, counter_host(0));

    let marker = match &host[1] {
        HostNode::Element(button) => button.marker.unwrap().to_string(),
        HostNode::Text(_) => unreachable!(),
    };
    let made = run(
        &mut vdoms,
        &mut host,
        Trigger::HostEvent { kind_name: "click", marker: Some(&marker) },
        &mut state,
    );
    assert_eq!(state.value, 1);
    assert_eq!(host, counter_host(1));
    assert_eq!(
        made,
        vec![
            vec![],
            vec![HostOp {
                parent: vec![0],
                change: HostChange::SetText { index: 0, content: String::from("The value is 1") },
            }],
        ]
    );

    run(
        &mut vdoms,
        &mut host,
        Trigger::HostEvent { kind_name: "click", marker: Some(&marker) },
        &mut state,
    );
    assert_eq!(state.value, 2);
    assert_eq!(host, counter_host(2));
}

#[test]
fn an_unknown_event_changes_nothing() {
    let mut vdoms = VDoms::default();
    let mut host: Vec<HostNode> = Vec::new();
    let mut state = counter();
    run(&mut vdoms, &mut host, Trigger::UpdateRequest, &mut state);
    let marker = Id::new("button").to_string();
    let made = run(
        &mut vdoms,
        &mut host,
        Trigger::HostEvent { kind_name: "keydown", marker: Some(&marker) },
        &mut state,
    );
    assert_eq!(made, Vec::<Vec<HostOp>>::new());
    assert_eq!(state.value, 0);
    assert_eq!(host, counter_host(0));
}

#[test]
fn advance_makes_the_built_tree_the_last_one_and_clears_the_other() {
    let mut vdoms = VDoms::default();
    {
        let mut ui = DomBuilder::new(Some(vdoms.last.with_children_mut()), None, &());
        ui.text("shown");
    }
    {
        let mut ui = DomBuilder::new(Some(vdoms.current.with_children_mut()), None, &());
        ui.text("built");
        ui.element("e", "p");
    }
    let mut built = VNodes::default();
    {
        let mut ui = DomBuilder::new(Some(built.with_children_mut()), None, &());
        ui.text("built");
        ui.element("e", "p");
    }
    vdoms.advance();
    assert_eq!(vdoms.last, built);
    assert_eq!(vdoms.current, VNodes::default());
}

#[test]
fn a_reaction_pass_leaves_both_buffers_as_they_were() {
    let mut vdoms = VDoms::default();
    let mut host: Vec<HostNode> = Vec::new();
    let mut state = counter();
    run(&mut vdoms, &mut host, Trigger::UpdateRequest, &mut state);
    let mode = DrawMode::ReactToEvent(Event { target_id: Id::new("button"), kind: EventKind::Click });
    {
        let mut ui = vdoms.draw(&mode, &());
        assert!(ui.vdom.is_none());
        render(&mut ui, &mut state);
    }
    assert_eq!(vdoms.finish(&mode, &host), vec![]);
    assert_eq!(vdoms.current, VNodes::default());
    assert_eq!(vdoms.last.children().len(), 2);
}

#[test]
fn reused_buffers_build_the_trees_that_new_buffers_build() {
    let mut vdoms = VDoms::default();
    let mut host: Vec<HostNode> = Vec::new();
    let mut state = counter();
    for frame in 0..20u32 {
        state.value = frame * 3;
        run(&mut vdoms, &mut host, Trigger::UpdateRequest, &mut state);

        let mut fresh = VNodes::default();
        {
            let mut ui = DomBuilder::new(Some(fresh.with_children_mut()), None, &());
            render(&mut ui, &mut state);
        }
        assert_eq!(vdoms.last, fresh);
        assert_eq!(vdoms.current, VNodes::default());
        assert_eq!(host, counter_host(frame * 3));
    }
}
