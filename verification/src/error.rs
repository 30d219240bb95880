//! The errors that the arena-based datastructures report.

use vstd::prelude::*;
use crate::node::NodeIdx;

verus! {

/// An I/O error that can be compared, hashed and (de)serialized.
#[verifier::external_type_specification]
#[verifier::external_body]
pub struct ExIoError(ioe::IoError);

/// `ioe::IoError::clone`, which `derive(Clone)` on `Error` calls.  `ioe`
/// derives it over the error's kind, a `Copy` value, and its description, a
/// `String`, so the copy equals the error it was made from.
pub assume_specification[ <ioe::IoError as Clone>::clone ](e: &ioe::IoError) -> (r: ioe::IoError)
    ensures
        r == *e,
;

/// The errors of this crate.  The doc comment of each variant is the
/// message that it is displayed with.
#[derive(Clone, Debug, PartialEq, Eq, PartialOrd, Ord, Hash)]
pub enum Error {
    /// I/O error: {0}
    Io(ioe::IoError),
    /// GraphViz generation error: {0}
    GraphvizParse(String),
    /// Detected a cycle: {path:?}
    CycleDetected { path: Vec<NodeIdx> },
    /// Expected Node {0} to be a branch node
    ExpectedBranchNode(NodeIdx),
    /// Expected Node {0} to be a leaf node
    ExpectedLeafNode(NodeIdx),
    /// Expected Node {0} to be a root node
    ExpectedRootNode(NodeIdx),
    /// Expected `tree[node_idx]` to have `tree[parent_idx]` as a parent node
    ParentNotFound { node_idx: NodeIdx, parent_idx: Option<NodeIdx> },
    /// Expected `tree[node_idx]` to have `tree[child_idx]` as a child node
    ChildNotFound { node_idx: NodeIdx, child_idx: NodeIdx },
    /// No node found with NodeIdx `{0}`
    NodeNotFound(NodeIdx),
    /// Expected a single parent node, but got {got} parents
    ExpectedSingleParent { fidx: NodeIdx, got: usize },
    /// Node {0} is not a top-of-gss
    ExpectedGssTop(NodeIdx),
}

/// The result type of this crate's fallible operations.
pub type Result<T> = std::result::Result<T, Error>;

} // verus!
