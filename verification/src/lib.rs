//! Reconciliation core of a cross-process model-update-view UI runtime.
//!
//! The library computes structural differences between successive immutable
//! UI trees ([`tree::diff`]), models the typed UI tree ([`dom::Object`]) and
//! its attribute vocabulary, and translates changesets into the ordered wire
//! events that an external rendering process consumes.

pub mod dom;
pub mod layout;
pub mod program;
pub mod tree;
pub mod widget;
