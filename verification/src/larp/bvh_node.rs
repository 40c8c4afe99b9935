use vstd::prelude::*;

verus! {

/// A node of a [`Bvh`](crate::larp::Bvh): an internal node names its two children by their
/// position in the node array, a leaf names a range of the primitive index array.
/// `B` is the bounding volume that the node carries for its subtree.
#[derive(Debug, Clone)]
pub enum BvhNode<B> {
    Internal { bbox: B, left: u32, right: u32 },
    Leaf { bbox: B, start: u32, end: u32 },
}

impl<B> BvhNode<B> {
    /// An internal node whose children sit at `left` and `right` (stored as `u32`).
    pub fn new_internal(bbox: B, left: usize, right: usize) -> (node: Self)
        ensures
            node == (BvhNode::Internal { bbox, left: left as u32, right: right as u32 }),
    {
        BvhNode::Internal { bbox, left: left as u32, right: right as u32 }
    }

    /// A leaf holding the primitive index positions `start..end` (stored as `u32`).
    pub fn new_leaf(bbox: B, start: usize, end: usize) -> (node: Self)
        ensures
            node == (BvhNode::Leaf { bbox, start: start as u32, end: end as u32 }),
    {
        BvhNode::Leaf { bbox, start: start as u32, end: end as u32 }
    }

    /// The bounding volume of the node, whatever its kind.
    pub open spec fn bbox(self) -> B {
        match self {
            BvhNode::Internal { bbox, .. } => bbox,
            BvhNode::Leaf { bbox, .. } => bbox,
        }
    }

    /// The bounding volume of the node.
    pub fn bounding_box(&self) -> (bbox: &B)
        ensures
            *bbox == self.bbox(),
    {
        match self {
            BvhNode::Internal { bbox, .. } => bbox,
            BvhNode::Leaf { bbox, .. } => bbox,
        }
    }

    /// Points an internal node at new children; a leaf is left as it is.
    pub fn set_children(&mut self, left: usize, right: usize)
        ensures
            match *old(self) {
                BvhNode::Internal { bbox, .. } => *final(self) == (BvhNode::Internal {
                    bbox,
                    left: left as u32,
                    right: right as u32,
                }),
                BvhNode::Leaf { .. } => *final(self) == *old(self),
            },
    {
        match self {
            BvhNode::Internal { left: l, right: r, .. } => {
                *l = left as u32;
                *r = right as u32;
            },
            BvhNode::Leaf { .. } => {},
        }
    }
}

/// A node of a linear BVH, which also records the position of its parent.
#[derive(Debug, Clone)]
pub enum LbvhNode<B> {
    Internal { parent: Option<usize>, left: usize, right: usize, bbox: B },
    Leaf { parent: Option<usize>, primitive_index: usize, bbox: B },
}

impl<B> LbvhNode<B> {
    /// An internal node with the given parent and children.
    pub fn new_internal(parent: Option<usize>, bbox: B, left: usize, right: usize) -> (node: Self)
        ensures
            node == (LbvhNode::Internal { parent, left, right, bbox }),
    {
        LbvhNode::Internal { parent, left, right, bbox }
    }

    /// A leaf for one primitive with the given parent.
    pub fn new_leaf(parent: Option<usize>, bbox: B, primitive_index: usize) -> (node: Self)
        ensures
            node == (LbvhNode::Leaf { parent, primitive_index, bbox }),
    {
        LbvhNode::Leaf { parent, primitive_index, bbox }
    }

    /// The parent recorded in the node, whatever its kind.
    pub open spec fn parent_of(self) -> Option<usize> {
        match self {
            LbvhNode::Internal { parent, .. } => parent,
            LbvhNode::Leaf { parent, .. } => parent,
        }
    }

    /// The bounding volume of the node, whatever its kind.
    pub open spec fn bbox(self) -> B {
        match self {
            LbvhNode::Internal { bbox, .. } => bbox,
            LbvhNode::Leaf { bbox, .. } => bbox,
        }
    }

    /// The parent of the node.
    pub fn parent(&self) -> (parent: Option<usize>)
        ensures
            parent == self.parent_of(),
    {
        match self {
            LbvhNode::Internal { parent, .. } => *parent,
            LbvhNode::Leaf { parent, .. } => *parent,
        }
    }

    /// Replaces the parent of the node and keeps everything else.
    pub fn set_parent(&mut self, parent: Option<usize>)
        ensures
            match *old(self) {
                LbvhNode::Internal { left, right, bbox, .. } => *final(self) == (LbvhNode::Internal {
                    parent,
                    left,
                    right,
                    bbox,
                }),
                LbvhNode::Leaf { primitive_index, bbox, .. } => *final(self) == (LbvhNode::Leaf {
                    parent,
                    primitive_index,
                    bbox,
                }),
            },
    {
        match self {
            LbvhNode::Internal { parent: p, .. } => *p = parent,
            LbvhNode::Leaf { parent: p, .. } => *p = parent,
        }
    }

    /// The bounding volume of the node.
    pub fn bounding_box(&self) -> (bbox: &B)
        ensures
            *bbox == self.bbox(),
    {
        match self {
            LbvhNode::Internal { bbox, .. } => bbox,
            LbvhNode::Leaf { bbox, .. } => bbox,
        }
    }
}

} // verus!
