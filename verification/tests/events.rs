use domi::event::{Event, EventKind};
use domi::id::Id;

#[test]
fn handled_kinds_are_found_by_name() {
    assert_eq!(EventKind::from_dom("click"), Some(EventKind::Click));
    assert_eq!(EventKind::from_dom("change"), Some(EventKind::Change));
}

#[test]
fn other_names_are_no_kind() {
    assert_eq!(EventKind::from_dom(""), None);
    assert_eq!(EventKind::from_dom("Click"), None);
    assert_eq!(EventKind::from_dom("clic"), None);
    assert_eq!(EventKind::from_dom("clicks"), None);
    assert_eq!(EventKind::from_dom("keydown"), None);
}

#[test]
fn kinds_are_found_under_their_own_names() {
    for kind in [EventKind::Click, EventKind::Change] {
        assert_eq!(EventKind::from_dom(kind.name()), Some(kind));
    }
    assert_eq!(EventKind::Click.name(), "click");
    assert_eq!(EventKind::Change.name(), "change");
}

#[test]
fn event_is_read_from_kind_and_marker() {
    assert_eq!(
        Event::from_dom("click", Some("42")),
        Some(Event { target_id: Id(42), kind: EventKind::Click })
    );
    assert_eq!(
        Event::from_dom("change", Some("0")),
        Some(Event { target_id: Id(0), kind: EventKind::Change })
    );
}

#[test]
fn event_of_unknown_kind_is_ignored() {
    assert_eq!(Event::from_dom("keydown", Some("42")), None);
    assert_eq!(Event::from_dom("", Some("42")), None);
}

#[test]
fn event_on_unmarked_target_is_ignored() {
    assert_eq!(Event::from_dom("click", None), None);
}

#[test]
fn event_with_unreadable_marker_is_ignored() {
    assert_eq!(Event::from_dom("click", Some("")), None);
    assert_eq!(Event::from_dom("click", Some("button")), None);
    assert_eq!(Event::from_dom("click", Some("18446744073709551616")), None);
}

#[test]
fn event_target_is_read_from_the_marker_of_an_identifier() {
    let id = Id::new("button");
    assert_eq!(
        Event::from_dom("click", Some(&id.to_string())),
        Some(Event { target_id: id, kind: EventKind::Click })
    );
}
