//! A dockable-panel layout engine.
//!
//! Docks (tabbed panels) are arranged into a recursive tree of split
//! containers ("tables") and tabbed groups. The registry owns the tree,
//! lays it out over a rectangle, hit-tests pointer positions against it,
//! and restructures it while a tab is dragged between groups: splitting a
//! group along an edge spawns a new container, and containers left with
//! too few children collapse back into their parents.

pub mod geometry;
pub mod hit;
pub mod index_pool;
pub mod laws;
pub mod layout;
pub mod registry;
pub mod session;
pub mod tree;
