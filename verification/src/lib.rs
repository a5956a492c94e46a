//! Analysis of repeat nodes in genome assembly graphs.
//!
//! The crate locates candidate repeat segments in a bidirected assembly
//! graph from topology and size constraints, classifies oriented
//! three-segment alignment paths through those repeats, pairs up paths
//! that are reverse complements of one another, and computes path-usage
//! entropy and a recombination complexity index over the result.

pub mod aggregate;
pub mod gfa;
pub mod graph;
pub mod log2;
pub mod matcher;
pub mod path;
pub mod stats;
