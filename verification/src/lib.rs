//! Recovery of structured control flow from a control-flow graph.
//!
//! A graph of basic blocks joined by conditional edges is rewritten, region by
//! region, into a tree of sequences and conditionals.
//!
//! - [`ast`]: the tree, its conditions, and their mathematical values.
//! - [`condition`]: conjunction, disjunction and reaching conditions.
//! - [`graph`], [`bitset`]: the graph store and the node sets, kept in
//!   `petgraph` and `fixedbitset`, with the contracts that are taken on trust.
//! - [`topology`]: paths, reachability and dominance.
//! - [`cfg`]: the control-flow graph and its elementary operations.
//! - [`dfs`]: the depth-first walk that finds the post-order and the back edges.
//! - [`region`]: which nodes a header dominates and where they lead.
//! - [`synth`]: the reaching condition of each node of a region.
//! - [`collapse`]: folding a region into its header.
//! - [`driver`]: passes over the graph, and the structuring of the whole.
//! - [`laws`], [`theory`]: what holds of all of these together.

pub mod ast;
pub mod bitset;
pub mod cfg;
pub mod collapse;
pub mod condition;
pub mod dfs;
pub mod driver;
pub mod error;
pub mod graph;
pub mod laws;
pub mod region;
pub mod synth;
pub mod theory;
pub mod topology;
