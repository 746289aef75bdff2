//! Statistics over a ledger whose transactions form a directed acyclic graph.

pub mod ledger;
