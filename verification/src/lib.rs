//! Indexes TypeScript and JavaScript sources into a graph of symbols, files and
//! their relationships, traces bounded neighbourhoods in that graph and renders
//! them as D2 or Mermaid diagrams.

pub mod text;
pub mod graph;
pub mod traverse;
pub mod render;
pub mod parse;
pub mod extract;
pub mod resolve;
pub mod index;
pub mod walk;
