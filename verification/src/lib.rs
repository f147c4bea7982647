//! An in-memory directed/undirected, weighted/unweighted graph together with
//! an interruptible, one-augmenting-path-per-call Ford–Fulkerson maximum-flow
//! engine, a line-oriented text codec, and a small command adapter.

pub mod graph;
pub mod graph_errors;
pub mod graph_flows;
pub mod graph_parser;
pub mod graph_text;
pub mod weight;
