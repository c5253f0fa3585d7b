//! A collapsible outline of todo items.
//!
//! The library models a forest of named groups, each holding sub-groups,
//! active todos and completed todos.  A cursor addresses one node of the
//! forest as a path of child indices, and every movement and mutation keeps
//! that path inside the bounds of the tree it points into.

pub mod model;
pub mod traverse;
pub mod navigation;
pub mod render;
pub mod command_manager;
