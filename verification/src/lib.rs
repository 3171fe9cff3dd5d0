//! Connector-routing and hierarchical-cell-addressing engine for a nested
//! table editor.
//!
//! The library models cell geometry in fixed-point integer screen units,
//! routes collision-avoiding polylines between cell rectangles over a
//! visibility graph, and maintains a recursive grid-of-cells document with
//! stable cell identities.

pub mod astar;
pub mod cell;
pub mod data;
pub mod geom;
pub mod route;
pub mod store;
pub mod graph;
