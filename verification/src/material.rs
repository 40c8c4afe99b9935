use vstd::prelude::*;

verus! {

/// The position of a material in a scene's material list.
#[derive(Debug, Clone, Copy)]
pub struct MaterialIndex(pub usize);

impl Default for MaterialIndex {
    /// The first material of the scene, the one every scene starts with.
    fn default() -> (index: Self)
        ensures
            index.0 == 0,
    {
        MaterialIndex(0)
    }
}

} // verus!
