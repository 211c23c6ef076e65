use vstd::prelude::*;

use crate::graph::{ImageEdge, ImageNode};

verus! {

/// The decision at the heart of the graph segmentation: given the root nodes
/// of two distinct components and the edge between them, decide whether the
/// two components should be merged.
pub trait NodeMerging: Sized {
    /// The decision as a mathematical function of the two root nodes and
    /// the edge.
    spec fn spec_should_merge(&self, s_n: ImageNode, s_m: ImageNode, e: ImageEdge) -> bool;

    /// Decide whether to merge the two components represented by the given
    /// root nodes. The two roots must be distinct: asking about a self-merge
    /// is a programming error, not a data condition.
    fn should_merge(&self, s_n: &ImageNode, s_m: &ImageNode, e: &ImageEdge) -> (r: bool)
        requires
            s_n.id != s_m.id,
        ensures
            r == self.spec_should_merge(*s_n, *s_m, *e),
    ;
}

/// The merge criterion always joins two fresh components across a
/// zero-weight edge: whatever the sizes, when both internal weights are
/// still zero and the edge weight is zero the criterion says yes. The
/// adaptive threshold criterion has this property for every positive
/// constant.
pub open spec fn merges_zero_weights<M: NodeMerging>(m: M) -> bool {
    forall|s_n: ImageNode, s_m: ImageNode, e: ImageEdge|
        s_n.max_w == 0 && s_m.max_w == 0 && e.w == 0 && s_n.id != s_m.id && s_n.n >= 1 && s_m.n
            >= 1 ==> #[trigger] m.spec_should_merge(s_n, s_m, e)
}

} // verus!
