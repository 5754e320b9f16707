//! Renderer-side widget capability: what a native widget must offer so
//! the renderer can apply incoming events to it.

use vstd::prelude::*;

use crate::dom::Attributes;

verus! {

/// Identifier of a widget on the renderer side: the textual form of the
/// path it was created at.
pub type Id = String;

/// A native widget: it knows its identifier, can take a fresh attribute
/// list, and can adopt a child widget.
pub trait Widget<S> {
    fn id(&self) -> &Id;

    fn update(&mut self, attributes: Attributes<S>);

    fn add(&mut self, child: &Self);
}

} // verus!
