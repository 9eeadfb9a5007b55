//! The render cycle: which passes follow on what happens, and the two tree
//! buffers that the passes work on.
//!
//! A pass runs the application's render code once with a builder. In a
//! reaction pass the builder captures nothing and carries the event, and the
//! application changes its own state; in a build pass the builder captures
//! the tree and carries no event, and afterwards the host is brought up to
//! date. Running the render code, and changing the host, is the caller's
//! part.

use crate::event::{lemma_event_on_marked_element, Event, EventKind};
use crate::id::{decimal, Id};
use crate::vdom::builder::DomBuilder;
use crate::vdom::host::{
    apply_all, host_forest_view, materialize_all, ops_view, HostModel, HostNode, HostOp,
};
use crate::vdom::laws::{lemma_patch_brings_host_up_to_date, lemma_wf_pairs};
use crate::vdom::patch::{patch, patch_ops};
use crate::vdom::{forest_view, forest_wf, NodeModel, VNodes};
use vstd::prelude::*;

verus! {

/// What sets a cycle off.
#[derive(Debug, Clone, Copy)]
pub enum Trigger<'a> {
    /// The host reports an event of the kind called `kind_name`, on a node
    /// whose marker text is `marker`, if it has one.
    HostEvent { kind_name: &'a str, marker: Option<&'a str> },
    /// The application asks for the host to be brought up to date.
    UpdateRequest,
}

/// One pass over the application's render code.
#[derive(Debug, Clone, Copy, PartialEq, Eq, Structural)]
pub enum DrawMode {
    /// The application reacts to the event; nothing is captured.
    ReactToEvent(Event),
    /// The tree is captured and the host brought up to date.
    BuildDom,
}

/// The passes that follow on `trigger`, in order: for an event that is one,
/// a reaction pass and then a build pass; for an event that is none, no
/// pass; for a request, a build pass.
pub open spec fn passes_of(trigger: Trigger) -> Seq<DrawMode> {
    match trigger {
        Trigger::HostEvent { kind_name, marker } => match Event::of_host(
            kind_name@,
            match marker {
                Some(marker) => Some(marker@),
                None => None,
            },
        ) {
            Some(event) => seq![DrawMode::ReactToEvent(event), DrawMode::BuildDom],
            None => Seq::empty(),
        },
        Trigger::UpdateRequest => seq![DrawMode::BuildDom],
    }
}

/// Decides which passes follow on `trigger`.
pub fn passes(trigger: Trigger<'_>) -> (modes: Vec<DrawMode>)
    ensures
        modes@ == passes_of(trigger),
{
    let mut modes: Vec<DrawMode> = Vec::new();
    match trigger {
        Trigger::HostEvent { kind_name, marker } => {
            if let Some(event) = Event::from_dom(kind_name, marker) {
                modes.push(DrawMode::ReactToEvent(event));
                modes.push(DrawMode::BuildDom);
            }
        },
        Trigger::UpdateRequest => {
            modes.push(DrawMode::BuildDom);
        },
    }
    assert(modes@ =~= passes_of(trigger));
    modes
}

/// An event of a handled kind on an element that carries its marker sets
/// off two passes in one cycle: first the reaction pass, in which the event
/// is pending on that element's identifier, and then the build pass.
pub proof fn lemma_event_sets_off_reaction_then_build(trigger: Trigger, kind: EventKind, id: Id)
    requires
        trigger is HostEvent,
        trigger->kind_name@ == kind.spec_name(),
        trigger->marker is Some,
        trigger->marker->0@ == decimal(id.0 as nat),
    ensures
        passes_of(trigger) == seq![
            DrawMode::ReactToEvent(Event { target_id: id, kind }),
            DrawMode::BuildDom,
        ],
{
    lemma_event_on_marked_element(kind, id);
}

/// What the two tree buffers hold.
pub struct VDomsModel {
    /// The tree that the host shows.
    pub last: Seq<NodeModel>,
    /// The tree that is being built.
    pub current: Seq<NodeModel>,
}

impl VDomsModel {
    /// Two buffers without nodes.
    pub open spec fn new() -> VDomsModel {
        VDomsModel { last: Seq::empty(), current: Seq::empty() }
    }

    /// The buffers after a build pass in which the nodes `declared` were
    /// declared at the top level: they were added to the tree that is being
    /// built.
    pub open spec fn built(self, declared: Seq<NodeModel>) -> VDomsModel {
        VDomsModel { last: self.last, current: self.current + declared }
    }

    /// The buffers after the end of a frame: the tree that was built is the
    /// tree that the host shows, and the other buffer holds no nodes.
    pub open spec fn advanced(self) -> VDomsModel {
        VDomsModel { last: self.current, current: Seq::empty() }
    }
}

/// The two tree buffers: the tree that the host shows, and the tree that is
/// being built.
#[derive(Debug, PartialEq, Eq)]
pub struct VDoms {
    pub last: VNodes,
    pub current: VNodes,
}

impl View for VDoms {
    type V = VDomsModel;

    open spec fn view(&self) -> VDomsModel {
        VDomsModel { last: self.last@, current: self.current@ }
    }
}

impl Default for VDoms {
    /// Two buffers without nodes.
    fn default() -> (vdoms: Self)
        ensures
            vdoms@ == VDomsModel::new(),
    {
        VDoms { last: VNodes::default(), current: VNodes::default() }
    }
}

impl VDoms {
    /// Ends a frame: the tree that was built becomes the tree that the host
    /// shows, and the other buffer is cleared for the next frame.
    pub fn advance(&mut self)
        ensures
            final(self)@ == old(self)@.advanced(),
    {
        std::mem::swap(&mut self.last, &mut self.current);
        self.current.clear();
    }

    /// The builder for one pass. In a reaction pass it carries the event
    /// and captures nothing; in a build pass it carries no event and
    /// captures into the current buffer.
    pub fn draw<'a, C>(&'a mut self, mode: &'a DrawMode, context: &'a C) -> (builder: DomBuilder<
        'a,
        C,
    >)
        ensures
            builder.parent_id is None,
            builder.shared.context == context,
            final(self).last == old(self).last,
            match *mode {
                DrawMode::ReactToEvent(event) => {
                    &&& builder.vdom is None
                    &&& builder.shared.event is Some
                    &&& *builder.shared.event->0 == event
                    &&& final(self).current == old(self).current
                },
                DrawMode::BuildDom => {
                    &&& builder.vdom is Some
                    &&& builder.shared.event is None
                    &&& forest_view((*builder.vdom->0)@) == old(self).current@
                    &&& final(self).current@ == forest_view((*final(builder.vdom->0))@)
                },
            },
    {
        match mode {
            DrawMode::ReactToEvent(event) => DomBuilder::new(None, Some(event), context),
            DrawMode::BuildDom => DomBuilder::new(
                Some(self.current.with_children_mut()),
                None,
                context,
            ),
        }
    }

    /// Ends one pass. After a build pass this finds the changes that bring
    /// the host, whose root has the children `dom`, from showing the last
    /// tree to showing the tree just built, and ends the frame. After a
    /// reaction pass there is nothing to do.
    ///
    /// A host that shows the last tree before the changes shows the last
    /// tree after them: what holds before a frame holds after it.
    pub fn finish(&mut self, mode: &DrawMode, dom: &Vec<HostNode>) -> (ops: Vec<HostOp>)
        ensures
            match *mode {
                DrawMode::ReactToEvent(_) => {
                    &&& ops@.len() == 0
                    &&& *final(self) == *old(self)
                },
                DrawMode::BuildDom => {
                    &&& ops_view(ops@) == patch_ops(
                        host_forest_view(dom@),
                        old(self)@.last,
                        old(self)@.current,
                    )
                    &&& final(self)@ == old(self)@.advanced()
                    &&& host_forest_view(dom@) == materialize_all(old(self)@.last) ==> apply_all(
                        host_forest_view(dom@),
                        ops_view(ops@),
                    ) == Some(materialize_all(final(self)@.last))
                },
            },
    {
        match mode {
            DrawMode::ReactToEvent(_) => Vec::new(),
            DrawMode::BuildDom => {
                let ops = patch(dom, &self.last, &self.current);
                self.advance();
                ops
            },
        }
    }
}

/// What the two buffers hold after a run of frames, each of which declares
/// its nodes and ends, when they held no nodes before the first.
pub open spec fn buffers_after(frames: Seq<Seq<NodeModel>>) -> VDomsModel
    decreases frames.len(),
{
    if frames.len() == 0 {
        VDomsModel::new()
    } else {
        buffers_after(frames.drop_last()).built(frames.last()).advanced()
    }
}

/// The children of the host's root after a run of frames, when the root had
/// no children before the first and nothing but the changes of each frame
/// was done to it; `None` where a change could not be made.
pub open spec fn host_after(frames: Seq<Seq<NodeModel>>) -> Option<Seq<HostModel>>
    decreases frames.len(),
{
    if frames.len() == 0 {
        Some(Seq::empty())
    } else {
        match host_after(frames.drop_last()) {
            Some(host) => {
                let buffers = buffers_after(frames.drop_last()).built(frames.last());
                apply_all(host, patch_ops(host, buffers.last, buffers.current))
            },
            None => None,
        }
    }
}

/// Buffers that are cleared and used again hold, after every frame, what
/// new buffers would hold: the tree that the frame declared and nothing of
/// the frames before it, and an empty buffer for the next frame.
pub proof fn lemma_reused_buffers_hold_the_declared_tree(frames: Seq<Seq<NodeModel>>)
    ensures
        buffers_after(frames).current == Seq::<NodeModel>::empty(),
        frames.len() > 0 ==> buffers_after(frames).last == VDomsModel::new().built(
            frames.last(),
        ).current,
    decreases frames.len(),
{
    if frames.len() > 0 {
        lemma_reused_buffers_hold_the_declared_tree(frames.drop_last());
        assert(Seq::<NodeModel>::empty() + frames.last() =~= frames.last());
    }
}

/// After every frame the host shows the tree that the frame declared, as
/// long as nothing but the engine changes the host.
pub proof fn lemma_host_shows_the_declared_tree(frames: Seq<Seq<NodeModel>>)
    requires
        forall|k: int| 0 <= k < frames.len() ==> forest_wf(#[trigger] frames[k]),
    ensures
        host_after(frames) == Some(materialize_all(buffers_after(frames).last)),
    decreases frames.len(),
{
    if frames.len() == 0 {
        assert(materialize_all(Seq::<NodeModel>::empty()) =~= Seq::<HostModel>::empty());
    } else {
        let before = frames.drop_last();
        lemma_host_shows_the_declared_tree(before);
        lemma_reused_buffers_hold_the_declared_tree(before);
        let buffers = buffers_after(before).built(frames.last());
        assert(buffers.current =~= frames.last());
        lemma_wf_pairs(buffers.last, buffers.current);
        lemma_patch_brings_host_up_to_date(buffers.last, buffers.current);
    }
}

} // verus!
