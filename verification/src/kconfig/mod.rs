//! The Kconfig language: expressions over CONFIG symbols, the symbols themselves, and the graph
//! that they form.
pub mod expr;
pub mod token;
pub mod parse;
pub mod parse_laws;
pub mod graph;
pub mod graph_laws;
pub mod lines;
pub mod lines_laws;
pub mod loader;
pub mod loader_laws;
