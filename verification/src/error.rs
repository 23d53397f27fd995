use vstd::prelude::*;

verus! {

/// The failure kinds of the graph operations and of the text codec.
#[derive(Clone, Copy, Debug, PartialEq, Eq, Structural)]
pub enum GraffError {
    /// An operation referenced a node index that is not present.
    NoSuchNode,
    /// The next free index was requested while no node exists.
    EmptyGraph,
    /// A line of the text format holds a field that is not a decimal
    /// number fitting `usize` where one is required.
    BadInteger,
    /// An edge line names a source node that the node section did not declare.
    UndeclaredSource,
}

} // verus!
