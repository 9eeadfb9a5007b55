//! The interaction events that the engine reacts to.
//!
//! The host reports an event as the name of its kind and the marker text of
//! the node it happened on. An event that the engine does not know, or one
//! on a node without a readable marker, is no event to it.

use crate::id::{decimal, lemma_marker_round_trip, parse_marker, Id};
use crate::text::str_eq;
use vstd::prelude::*;

verus! {

/// The kinds of event that are handled.
#[derive(Debug, Clone, Copy, PartialEq, Eq, Structural)]
pub enum EventKind {
    Click,
    Change,
}

impl EventKind {
    /// The name under which the host reports events of this kind.
    pub open spec fn spec_name(self) -> Seq<char> {
        match self {
            EventKind::Click => "click"@,
            EventKind::Change => "change"@,
        }
    }

    /// The kind of event that the host reports under `name`, if it is one
    /// that is handled.
    pub open spec fn of_name(name: Seq<char>) -> Option<EventKind> {
        if name == "click"@ {
            Some(EventKind::Click)
        } else if name == "change"@ {
            Some(EventKind::Change)
        } else {
            None
        }
    }

    /// The name under which the host reports events of this kind.
    pub fn name(self) -> (name: &'static str)
        ensures
            name@ == self.spec_name(),
    {
        match self {
            EventKind::Click => "click",
            EventKind::Change => "change",
        }
    }

    /// Finds the kind of event that the host reports under `dom`.
    pub fn from_dom(dom: &str) -> (kind: Option<EventKind>)
        ensures
            kind == EventKind::of_name(dom@),
    {
        if str_eq(dom, "click") {
            Some(EventKind::Click)
        } else if str_eq(dom, "change") {
            Some(EventKind::Change)
        } else {
            None
        }
    }
}

/// Every kind is found again under its own name.
pub proof fn lemma_kind_of_own_name(kind: EventKind)
    ensures
        EventKind::of_name(kind.spec_name()) == Some(kind),
{
    reveal_strlit("click");
    reveal_strlit("change");
    assert("click"@.len() != "change"@.len());
}

/// An event: what happened, and the identifier of the element it happened
/// on.
#[derive(Debug, Clone, Copy, PartialEq, Eq, Structural)]
pub struct Event {
    pub target_id: Id,
    pub kind: EventKind,
}

impl Event {
    /// The event that the host reports as one of the kind called
    /// `kind_name` on a node whose marker text is `marker`, if it is one:
    /// the kind has to be handled, and the marker there and readable.
    pub open spec fn of_host(kind_name: Seq<char>, marker: Option<Seq<char>>) -> Option<Event> {
        match (EventKind::of_name(kind_name), marker) {
            (Some(kind), Some(marker)) => match parse_marker(marker) {
                Some(target_id) => Some(Event { target_id, kind }),
                None => None,
            },
            _ => None,
        }
    }

    /// Reads an event from what the host reports of it: the name of its
    /// kind, and the marker text of its target where the target has one.
    pub fn from_dom(kind_name: &str, marker: Option<&str>) -> (event: Option<Event>)
        ensures
            event == Event::of_host(
                kind_name@,
                match marker {
                    Some(marker) => Some(marker@),
                    None => None,
                },
            ),
    {
        let kind = match EventKind::from_dom(kind_name) {
            Some(kind) => kind,
            None => {
                return None;
            },
        };
        let marker = match marker {
            Some(marker) => marker,
            None => {
                return None;
            },
        };
        match Id::from_marker(marker) {
            Some(target_id) => Some(Event { target_id, kind }),
            None => None,
        }
    }
}

/// An event of a handled kind, on a node that carries the marker text of an
/// identifier, is read as an event of that kind on that identifier.
pub proof fn lemma_event_on_marked_element(kind: EventKind, id: Id)
    ensures
        Event::of_host(kind.spec_name(), Some(decimal(id.0 as nat))) == Some(
            Event { target_id: id, kind },
        ),
{
    lemma_kind_of_own_name(kind);
    lemma_marker_round_trip(id);
}

} // verus!
