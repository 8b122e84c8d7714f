//! Small-graph analysis on dense square adjacency matrices.
//!
//! The crate offers integer and boolean matrix algebra, degree and
//! regularity queries, the enumeration of short walks, transitive closure
//! with component partitioning and condensation, a resumable breadth-first
//! and depth-first traversal, and a resumable construction of a minimum
//! spanning forest on top of a union-find structure.
//!
//! Every executable function carries a contract over a mathematical model
//! of its data, and Verus checks the function against it.  The laws that
//! relate several functions are proof functions.
//!
//! * [`matrix`], [`algebra`]: the matrix type and its operators;
//! * [`analysis`], [`paths`]: degrees, and walks of two and three edges;
//! * [`closure`], [`components`], [`walks`]: reachability, connectivity,
//!   components, condensation, and why short walks suffice;
//! * [`search`], [`forest`]: the traversal, and what holds of its forest;
//! * [`union_find`], [`weighted`], [`kruskal`], [`spanning`]: disjoint
//!   sets, weighted graphs, the forest construction, and what holds of it.

pub mod algebra;
pub mod analysis;
pub mod closure;
pub mod components;
pub mod forest;
pub mod kruskal;
pub mod matrix;
pub mod paths;
pub mod search;
pub mod spanning;
pub mod union_find;
pub mod walks;
pub mod weighted;
