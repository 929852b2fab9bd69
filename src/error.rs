use vstd::prelude::*;

verus! {

/// Why a pass gave up on a function.
#[derive(Debug, Clone, Copy, PartialEq, Eq, Structural)]
pub enum LiftError {
    /// The entry node is not in the graph.
    UnreachableRoot,
    /// A two-way branch has no join point.
    Irreducible,
    /// The tree contradicts itself, for instance a loop counter that is
    /// used before its loop.
    MalformedAst,
}

} // verus!
