//! A multi-tenant triple store: name interning, adjacency topology,
//! per-tenant graphs and their binary snapshots.

pub mod dictionary;
pub mod graph;
pub mod topology;
pub mod text;
pub mod persistence;

pub mod service;
