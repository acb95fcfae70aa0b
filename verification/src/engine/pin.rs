use vstd::prelude::*;

verus! {

/// What a slot knows of its own place: its position in the graph's slot
/// storage and the position of the node that owns it.
#[derive(Clone, Copy, Debug, PartialEq, Eq, Structural)]
pub struct PinProperties {
    pub id: usize,
    pub parent_id: usize,
}

} // verus!
