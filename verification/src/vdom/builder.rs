//! Declaring a frame's tree.
//!
//! A [`DomBuilder`] adds nodes to one sequence of siblings, in the order of
//! the calls. Adding an element hands out an [`ElementBuilder`] for it, with
//! which the element gets its attributes and, through a `DomBuilder` of its
//! own, its children.
//!
//! A builder either captures what is declared into a tree buffer, or it does
//! not: then the same calls declare nothing, and serve only to ask each
//! element whether the pending event is meant for it. Identifiers are worked
//! out in the same way in both cases.

use crate::event::{Event, EventKind};
use crate::id::Id;
use crate::vdom::attrs::{names_unique, with_attr, without_attr, Attributes};
use crate::vdom::{
    forest_view, lemma_element_node_view, lemma_forest_view_push, ElementModel, NodeModel, VNode,
    VNodeElement,
};
use vstd::prelude::*;

verus! {

/// What every builder of one pass holds: the pending event, if there is
/// one, and the application's handle to the engine.
pub struct Shared<'a, C> {
    pub event: Option<&'a Event>,
    pub context: &'a C,
}

/// The element that an [`ElementBuilder`] builds: the element itself where
/// the tree is captured, its identifier alone where it is not.
pub enum ElementOrId<'a> {
    Element(&'a mut VNodeElement),
    Id(Id),
}

impl<'a> ElementOrId<'a> {
    /// The element, where the tree is captured.
    pub fn as_element<'b>(&'b mut self) -> (element: Option<&'b mut VNodeElement>)
        ensures
            match *old(self) {
                ElementOrId::Element(held) => {
                    &&& element is Some
                    &&& *element->0 == *held
                    &&& *final(self) is Element
                    &&& *(*final(self))->Element_0 == *final(element->0)
                    &&& *final((*final(self))->Element_0) == *final(held)
                },
                ElementOrId::Id(id) => element is None && *final(self) == ElementOrId::Id(id),
            },
    {
        match self {
            ElementOrId::Element(element) => Some(element),
            ElementOrId::Id(_) => None,
        }
    }

    /// The identifier of the element.
    pub open spec fn spec_id(&self) -> Id {
        match self {
            ElementOrId::Element(element) => element@.id,
            ElementOrId::Id(id) => *id,
        }
    }

    /// The identifier of the element.
    pub fn id(&self) -> (id: Id)
        ensures
            id == self.spec_id(),
    {
        match self {
            ElementOrId::Element(element) => element.id,
            ElementOrId::Id(id) => *id,
        }
    }
}

/// Text that lives as long as the program, or text that is borrowed.
#[derive(Debug, Clone, Copy)]
pub enum StaticOrDynamic<'a> {
    /// Static data.
    Static(&'static str),
    /// Borrowed data.
    Dynamic(&'a str),
}

impl<'a> View for StaticOrDynamic<'a> {
    type V = Seq<char>;

    open spec fn view(&self) -> Seq<char> {
        match self {
            StaticOrDynamic::Static(text) => text@,
            StaticOrDynamic::Dynamic(text) => text@,
        }
    }
}

impl<'a> StaticOrDynamic<'a> {
    /// The text, whichever way it is held.
    pub fn as_str(self) -> (text: &'a str)
        ensures
            text@ == self@,
    {
        match self {
            StaticOrDynamic::Static(text) => text,
            StaticOrDynamic::Dynamic(text) => text,
        }
    }
}

/// Configures an element that was just declared.
pub struct ElementBuilder<'a, C> {
    pub vdom: ElementOrId<'a>,
    pub shared: Shared<'a, C>,
}

impl<'a, C> ElementBuilder<'a, C> {
    /// Adds an attribute to the element, replacing the old value if one was
    /// present. Where the tree is not captured, nothing happens.
    pub fn attr(&mut self, attr: &str, value: &str) -> (same: &mut Self)
        ensures
            same.shared == old(self).shared,
            match old(self).vdom {
                ElementOrId::Element(element) => {
                    &&& same.vdom is Element
                    &&& (*same.vdom->Element_0)@ == (ElementModel {
                        attributes: with_attr((*element)@.attributes, attr@, value@),
                        ..(*element)@
                    })
                    &&& names_unique((*same.vdom->Element_0)@.attributes)
                    &&& *final(same.vdom->Element_0) == *final(element)
                },
                ElementOrId::Id(id) => same.vdom == ElementOrId::Id(id),
            },
            *final(self) == *final(same),
    {
        if let Some(vdom) = self.vdom.as_element() {
            vdom.attributes.set(attr, value);
        }
        self
    }

    /// Adds an attribute to the element; both its name and its value live as
    /// long as the program.
    pub fn attr_static(&mut self, attr: &'static str, value: &'static str) -> (same: &mut Self)
        ensures
            same.shared == old(self).shared,
            match old(self).vdom {
                ElementOrId::Element(element) => {
                    &&& same.vdom is Element
                    &&& (*same.vdom->Element_0)@ == (ElementModel {
                        attributes: with_attr((*element)@.attributes, attr@, value@),
                        ..(*element)@
                    })
                    &&& names_unique((*same.vdom->Element_0)@.attributes)
                    &&& *final(same.vdom->Element_0) == *final(element)
                },
                ElementOrId::Id(id) => same.vdom == ElementOrId::Id(id),
            },
            *final(self) == *final(same),
    {
        self.attr(attr, value)
    }

    /// Adds an attribute to the element; both its name and its value are
    /// copied.
    pub fn attr_dynamic(&mut self, attr: &str, value: &str) -> (same: &mut Self)
        ensures
            same.shared == old(self).shared,
            match old(self).vdom {
                ElementOrId::Element(element) => {
                    &&& same.vdom is Element
                    &&& (*same.vdom->Element_0)@ == (ElementModel {
                        attributes: with_attr((*element)@.attributes, attr@, value@),
                        ..(*element)@
                    })
                    &&& names_unique((*same.vdom->Element_0)@.attributes)
                    &&& *final(same.vdom->Element_0) == *final(element)
                },
                ElementOrId::Id(id) => same.vdom == ElementOrId::Id(id),
            },
            *final(self) == *final(same),
    {
        self.attr(attr, value)
    }

    /// Adds an attribute to the element; its name and its value each say how
    /// they are held.
    pub fn attr_explicit(&mut self, attr: StaticOrDynamic<'_>, value: StaticOrDynamic<'_>) -> (same:
        &mut Self)
        ensures
            same.shared == old(self).shared,
            match old(self).vdom {
                ElementOrId::Element(element) => {
                    &&& same.vdom is Element
                    &&& (*same.vdom->Element_0)@ == (ElementModel {
                        attributes: with_attr((*element)@.attributes, attr@, value@),
                        ..(*element)@
                    })
                    &&& names_unique((*same.vdom->Element_0)@.attributes)
                    &&& *final(same.vdom->Element_0) == *final(element)
                },
                ElementOrId::Id(id) => same.vdom == ElementOrId::Id(id),
            },
            *final(self) == *final(same),
    {
        self.attr(attr.as_str(), value.as_str())
    }

    /// Removes an attribute from the element. Where the tree is not
    /// captured, nothing happens.
    pub fn remove_attr(&mut self, attr: &str) -> (same: &mut Self)
        ensures
            same.shared == old(self).shared,
            match old(self).vdom {
                ElementOrId::Element(element) => {
                    &&& same.vdom is Element
                    &&& (*same.vdom->Element_0)@ == (ElementModel {
                        attributes: without_attr((*element)@.attributes, attr@),
                        ..(*element)@
                    })
                    &&& names_unique((*same.vdom->Element_0)@.attributes)
                    &&& *final(same.vdom->Element_0) == *final(element)
                },
                ElementOrId::Id(id) => same.vdom == ElementOrId::Id(id),
            },
            *final(self) == *final(same),
    {
        if let Some(vdom) = self.vdom.as_element() {
            vdom.attributes.unset(attr);
        }
        self
    }

    /// Gets a [`DomBuilder`] for the children of this element. Their
    /// identifiers are made with this element's identifier.
    pub fn children<'b>(&'b mut self) -> (children: DomBuilder<'b, C>)
        ensures
            final(self).shared == old(self).shared,
            children.shared == old(self).shared,
            children.parent_id == Some(old(self).vdom.spec_id()),
            match old(self).vdom {
                ElementOrId::Element(element) => {
                    &&& children.vdom is Some
                    &&& forest_view((*children.vdom->0)@) == (*element)@.children
                    &&& final(self).vdom is Element
                    &&& (*final(self).vdom->Element_0)@ == (ElementModel {
                        children: forest_view((*final(children.vdom->0))@),
                        ..(*element)@
                    })
                    &&& *final(final(self).vdom->Element_0) == *final(element)
                },
                ElementOrId::Id(id) => children.vdom is None && final(self).vdom
                    == ElementOrId::Id(id),
            },
    {
        let parent_id = self.vdom.id();
        let shared = Shared { event: self.shared.event, context: self.shared.context };
        let vdom = match self.vdom.as_element() {
            Some(element) => Some(&mut element.children),
            None => None,
        };
        DomBuilder { parent_id: Some(parent_id), vdom, shared }
    }

    /// Checks if the element was clicked: whether a click is pending whose
    /// target is this element.
    #[must_use]
    pub fn clicked(&self) -> (clicked: bool)
        ensures
            clicked == match self.shared.event {
                Some(event) => event.target_id == self.vdom.spec_id() && event.kind
                    == EventKind::Click,
                None => false,
            },
    {
        match self.shared.event {
            Some(event) => event.target_id == self.vdom.id() && event.kind == EventKind::Click,
            None => false,
        }
    }
}

/// Declares the nodes of one sequence of siblings.
pub struct DomBuilder<'a, C> {
    /// The identifier of the element whose children are declared, or `None`
    /// at the top level.
    pub parent_id: Option<Id>,
    /// The nodes declared so far, where the tree is captured.
    pub vdom: Option<&'a mut Vec<VNode>>,
    pub shared: Shared<'a, C>,
}

impl<'a, C> DomBuilder<'a, C> {
    /// A builder for the top level. With `None` for `vdom` nothing is
    /// captured, and events are still answered.
    pub fn new(
        vdom: Option<&'a mut Vec<VNode>>,
        event: Option<&'a Event>,
        context: &'a C,
    ) -> (builder: Self)
        ensures
            builder.parent_id is None,
            builder.vdom == vdom,
            builder.shared.event == event,
            builder.shared.context == context,
    {
        DomBuilder { parent_id: None, vdom, shared: Shared { event, context } }
    }

    /// Adds an element with the identifier `id` and the tag `tag`, without
    /// attributes or children.
    pub fn element_<'b>(&'b mut self, id: Id, tag: &str) -> (element: ElementBuilder<'b, C>)
        ensures
            final(self).parent_id == old(self).parent_id,
            final(self).shared == old(self).shared,
            element.shared == old(self).shared,
            element.vdom.spec_id() == id,
            match old(self).vdom {
                Some(nodes) => {
                    &&& element.vdom is Element
                    &&& (*element.vdom->Element_0)@ == (ElementModel {
                        id,
                        tag: tag@,
                        attributes: Seq::empty(),
                        children: Seq::empty(),
                    })
                    &&& final(self).vdom is Some
                    &&& forest_view((*final(self).vdom->0)@) == forest_view((*nodes)@).push(
                        NodeModel::Element((*final(element.vdom->Element_0))@),
                    )
                    &&& *final(final(self).vdom->0) == *final(nodes)
                },
                None => element.vdom == ElementOrId::Id(id) && final(self).vdom is None,
            },
    {
        let shared = Shared { event: self.shared.event, context: self.shared.context };
        let inner = if let Some(vdom) = &mut self.vdom {
            let idx: usize = vdom.len();
            let ghost before = vdom@;
            vdom.push(
                VNode::Element(
                    VNodeElement {
                        id,
                        tag: tag.to_owned(),
                        attributes: Attributes::new(),
                        children: Vec::new(),
                    },
                ),
            );
            match &mut vdom[idx] {
                VNode::Element(element) => {
                    proof {
                        assert(element@.children =~= Seq::empty());
                        lemma_forest_view_push(before, VNode::Element(*final(element)));
                        lemma_element_node_view(*final(element));
                    }
                    ElementOrId::Element(element)
                },
                VNode::Text(_) => {
                    // never taken: the node just added is an element
                    assert(false);
                    ElementOrId::Id(id)
                },
            }
        } else {
            ElementOrId::Id(id)
        };
        ElementBuilder { vdom: inner, shared }
    }

    /// Adds a child element of the provided `tag`, declared under the key
    /// `id`.
    ///
    /// The key has to be unique among the direct children of the current
    /// element, not beyond them: the element's identifier is made of the
    /// key and of the identifier of the current element. A key that is
    /// used twice among siblings is not detected: both elements are
    /// declared, with the same identifier, and an event on either reaches
    /// both.
    pub fn element<'b>(&'b mut self, id: &str, tag: &str) -> (element: ElementBuilder<'b, C>)
        ensures
            final(self).parent_id == old(self).parent_id,
            final(self).shared == old(self).shared,
            element.shared == old(self).shared,
            element.vdom.spec_id() == Id::combine(old(self).parent_id, id@),
            match old(self).vdom {
                Some(nodes) => {
                    &&& element.vdom is Element
                    &&& (*element.vdom->Element_0)@ == (ElementModel {
                        id: Id::combine(old(self).parent_id, id@),
                        tag: tag@,
                        attributes: Seq::empty(),
                        children: Seq::empty(),
                    })
                    &&& final(self).vdom is Some
                    &&& forest_view((*final(self).vdom->0)@) == forest_view((*nodes)@).push(
                        NodeModel::Element((*final(element.vdom->Element_0))@),
                    )
                    &&& *final(final(self).vdom->0) == *final(nodes)
                },
                None => element.vdom == ElementOrId::Id(Id::combine(old(self).parent_id, id@))
                    && final(self).vdom is None,
            },
    {
        let id = match self.parent_id {
            Some(parent_id) => parent_id.with(id),
            None => Id::new(id),
        };
        self.element_(id, tag)
    }

    /// The application's handle to the engine.
    #[must_use]
    pub fn context(&self) -> (context: &'a C)
        ensures
            context == self.shared.context,
    {
        self.shared.context
    }

    /// Adds a text node with the provided `content`.
    pub fn text(&mut self, content: &str)
        ensures
            final(self).parent_id == old(self).parent_id,
            final(self).shared == old(self).shared,
            match old(self).vdom {
                Some(nodes) => {
                    &&& final(self).vdom is Some
                    &&& forest_view((*final(self).vdom->0)@) == forest_view((*nodes)@).push(
                        NodeModel::Text(content@),
                    )
                    &&& *final(final(self).vdom->0) == *final(nodes)
                },
                None => final(self).vdom is None,
            },
    {
        if let Some(vdom) = &mut self.vdom {
            let ghost before = vdom@;
            let node = VNode::Text(content.to_owned());
            vdom.push(node);
            proof {
                lemma_forest_view_push(before, node);
            }
        }
    }
}

} // verus!
