//! The ways in which structuring can fail.

use vstd::prelude::*;

verus! {

#[derive(Debug, Clone, Copy, PartialEq, Eq, Structural)]
pub enum StructureError {
    /// More than one node is left and no region can be collapsed.
    StructuringStuck,
    /// The description of the graph is not one of a control-flow graph: the
    /// entry or an edge endpoint names no node, some node cannot be reached
    /// from the entry, or there are more nodes or edges than 32-bit indices.
    MalformedInput,
}

} // verus!
