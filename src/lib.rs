//! Assembles the syntax events of an HTML grammar into a tree of nodes,
//! classifies the tree (document, fragment or empty) and walks it in
//! pre-order.

pub mod dom;
pub mod element;
pub mod error;
pub mod event;
pub mod node;
pub mod text;
