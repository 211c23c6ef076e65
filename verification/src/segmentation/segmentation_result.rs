use vstd::prelude::*;

verus! {

/// A segmentation result.
pub struct SegmentationResult {
    /// The per-pixel labels, row-major like the input image: each cell holds
    /// the node id of the component its pixel belongs to. Label values are
    /// node ids, so they are sparse within `0 .. height · width`; exactly
    /// `num_components` distinct values appear.
    pub segmentation: Vec<usize>,
    /// The number of connected components (segments).
    pub num_components: usize,
}

} // verus!
