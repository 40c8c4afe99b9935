use vstd::prelude::*;

verus! {

/// A BVH that can be laid out as a flat array of nodes.
pub trait FlattenableBvh {
    fn flatten(&self) -> FlatBvh;
}

/// A node of a flattened BVH: an internal node stores the offset of its second child.
pub enum FlatBvhNode {
    Internal { offset: u32 },
    Leaf {},
}

/// A BVH laid out as a flat array of nodes.
pub struct FlatBvh {}

} // verus!
