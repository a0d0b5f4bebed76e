//! A verified company-relationship graph with bounded-hop neighborhood
//! counting and degree-distribution aggregation.
//!
//! The graph is an adjacency structure mapping each company to its outgoing
//! relationships.  Ingestion inserts every accepted relationship together
//! with its reciprocal, so the graph is symmetric by construction.  Queries
//! count, for a start company, how many distinct other companies are
//! reachable within a bounded number of hops over relationships of allowed
//! kinds, and aggregate these counts into a histogram.

pub mod distribution;
pub mod graph;
