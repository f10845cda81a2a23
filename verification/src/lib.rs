//! Layouts for hierarchical data on an integer grid.
//!
//! A [`HierarchyNode`] tree carries a payload and an integer weight per node.
//! A layout turns such a tree into a positioned tree of the same shape:
//!
//! - [`PartitionLayout`] gives every node a horizontal span in proportion to
//!   its weight and a vertical band by its depth, for sunburst and icicle
//!   diagrams;
//! - [`TreemapLayout`] gives every node a rectangle within the rectangle of
//!   its parent, with an area in proportion to its weight;
//! - [`TreeLayout`] gives every node a point, the leaves evenly spread and
//!   every other node above the middle of its children, for node-link
//!   diagrams.
//!
//! All coordinates are whole numbers of grid steps, so a layout is exact and
//! the same on every run: boundaries are placed in proportion to running
//! weights and rounded down, which leaves neither gaps nor overlaps. Callers
//! that think in fractional units pick a resolution, such as [`RESOLUTION`]
//! steps per unit, and scale at the edge.
//!
//! No walk over a tree recurses: every pass and every layout keeps its own
//! work list, so that deep hierarchies cost memory, not call stack.

pub mod label;
mod measure;
pub mod model;
pub mod node;
pub mod order;
pub mod partition;
pub mod partition_laws;
pub mod series;
pub mod share;
pub mod tiling;
pub mod tree;
pub mod treemap;
mod walk;

pub use label::Label;
pub use node::{HierarchyIter, HierarchyNode};
pub use partition::{PartitionIter, PartitionLayout, PartitionNode};
pub use share::{FULL_TURN, RESOLUTION};
pub use tiling::TilingMethod;
pub use tree::{TreeLayout, TreeNode};
pub use treemap::{TreemapLayout, TreemapNode};
