//! Renders a human-readable tree of a host's block-storage topology.
//!
//! The verified core takes an in-memory device-dependency graph (nodes are
//! geoms such as disks, partition schemes, labels and device nodes; edges
//! are provider/consumer relationships with per-edge metadata), decides
//! which nodes are meaningful to display, reparents the children of
//! transparent nodes to the nearest enclosing display node, and produces a
//! column-row tree document ready for a tab-aligning renderer.
//!
//! Obtaining the graph from the operating system and the final tab
//! expansion, indentation and printing are outside collaborators: they hand
//! this library a [`model::Graph`] of plain values and take a
//! [`render::TreeDocument`] back.

pub mod columns;
pub mod model;
pub mod order;
pub mod render;
pub mod walk;
