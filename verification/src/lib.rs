//! Descriptive statistics over a directed multigraph: a graph store built
//! from an edge list, an out-degree histogram, a second-degree (distinct
//! two-hop neighbour) histogram, and distance sums for an approximate
//! closeness-centrality score over a bounded prefix of the nodes.

pub mod graph;
pub mod parse;
pub mod ingest;
pub mod hist;
pub mod degree;
pub mod second;
pub mod centrality;
