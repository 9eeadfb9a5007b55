//! A retained-mode UI reconciliation engine.
//!
//! Each frame the application declares the tree that it wants shown, with a
//! [`DomBuilder`]. The engine compares the tree with the one that it declared
//! the frame before, and works out the changes that bring the host tree from
//! showing the one to showing the other ([`vdom::patch`]). Elements have
//! identifiers that depend on the keys they are declared under and on
//! nothing else ([`id`]), so an event that the host reports on an element
//! finds the code that declares the element ([`event`], [`cycle`]).
//!
//! The host tree itself, and the capture of its events, lie outside the
//! library: the caller reads the host into plain values, makes the changes
//! to it, and hands the events in.

pub mod cycle;
pub mod event;
pub mod id;
pub mod promise;
pub mod text;
pub mod vdom;

pub use crate::vdom::builder::{DomBuilder, ElementBuilder};
