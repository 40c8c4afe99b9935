use vstd::prelude::*;

verus! {

/// The size and sampling of a rendered image.
pub trait RenderConfig {
    const WIDTH: usize;
    const HEIGHT: usize;
    const IMAGE_SIZE: usize;
    const SAMPLE_PER_PIXEL: usize;
}

} // verus!
