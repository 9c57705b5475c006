//! Widget trees and edge-constraint layouts for a retained-mode user interface.
//!
//! `layout` builds, symbolically, the linear constraints that place a widget's
//! four edges relative to its parent and siblings; `widget` keeps the tree of
//! widgets with their names, properties, bounds and the notices that the tree
//! operations raise.

pub mod layout;
pub mod widget;
