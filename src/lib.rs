//! Highlighting of a search query inside part numbers (MPNs), and the decisions
//! of the search endpoint that renders them.
pub mod highlighting;
pub mod search;
