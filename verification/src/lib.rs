//! Turns an indented outline into a tree of named nodes and draws that tree
//! with branch connectors.

pub mod laws;
pub mod lines;
pub mod outline;
pub mod parse;
pub mod render;
