//! A low-level, cache-friendly, arena-allocated tree datastructure that
//! can be newtyped for higher-level trees, forests, graph-structured stacks
//! and directed acyclic graphs.

pub mod arena;
pub mod d2graphs;
pub mod dag;
pub mod error;
pub mod forest;
pub mod graphviz;
pub mod gss;
pub mod node;
pub mod order;
pub mod seqs;
pub mod text;
pub mod tree;

pub use crate::error::{Error, Result};
pub use crate::node::{Edge, Node, NodeCount, NodeIdx, NodeView};
