use vstd::prelude::*;

verus! {

/// Asks for the focus to be moved to a node.
pub struct MoveToNodeEvent {
    pub node_id: usize,
}

impl MoveToNodeEvent {
    pub fn new(node_id: usize) -> (e: Self)
        ensures
            e.node_id == node_id,
    {
        MoveToNodeEvent { node_id }
    }
}

/// Asks for a node to be deleted with all that follows it.
pub struct DeleteVariationEvent {
    pub node_id: usize,
}

impl DeleteVariationEvent {
    pub fn new(node_id: usize) -> (e: Self)
        ensures
            e.node_id == node_id,
    {
        DeleteVariationEvent { node_id }
    }
}

} // verus!
