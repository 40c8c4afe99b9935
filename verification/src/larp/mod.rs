pub mod bvh;
pub mod bvh_node;
pub mod flat_bvh;

pub use bvh::Bvh;
pub use bvh_node::{BvhNode, LbvhNode};
pub use flat_bvh::FlattenableBvh;
