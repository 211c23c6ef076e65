use vstd::prelude::*;

use crate::graph::{ImageEdge, ImageNode};
use crate::segmentation::node_merging::{merges_zero_weights, NodeMerging};

verus! {

/// The adaptive threshold criterion of Felzenszwalb and Huttenlocher: merge
/// two components when the connecting edge's weight lies below both
/// components' internal thresholds `max_w + c / size`.
#[derive(Debug, Clone, Copy)]
pub struct NodeMergingThreshold {
    /// The threshold constant `c`, in the same fixed-point scale as the edge
    /// weights: larger values produce larger, fewer segments.
    pub c: u64,
}

impl NodeMergingThreshold {
    /// # Arguments
    ///
    /// * `c` - The threshold constant, in the fixed-point weight scale.
    pub fn new(c: u64) -> (r: Self)
        ensures
            r == (NodeMergingThreshold { c }),
    {
        NodeMergingThreshold { c }
    }
}

impl NodeMerging for NodeMergingThreshold {
    /// The comparison `e.w < min(s_n.max_w + c / s_n.n, s_m.max_w + c / s_m.n)`
    /// over the rationals, written without division: with sizes at least one
    /// it is equivalent to requiring `e.w · n < max_w · n + c` of both
    /// components.
    open spec fn spec_should_merge(&self, s_n: ImageNode, s_m: ImageNode, e: ImageEdge) -> bool {
        &&& e.w * s_n.n < s_n.max_w * s_n.n + self.c
        &&& e.w * s_m.n < s_m.max_w * s_m.n + self.c
    }

    fn should_merge(&self, s_n: &ImageNode, s_m: &ImageNode, e: &ImageEdge) -> (r: bool) {
        proof {
            lemma_u64_products_fit(e.w, s_n.n as u64, s_n.max_w, self.c);
            lemma_u64_products_fit(e.w, s_m.n as u64, s_m.max_w, self.c);
        }
        let below_n = (e.w as u128) * (s_n.n as u128) < (s_n.max_w as u128) * (s_n.n as u128) + (
        self.c as u128);
        let below_m = (e.w as u128) * (s_m.n as u128) < (s_m.max_w as u128) * (s_m.n as u128) + (
        self.c as u128);
        below_n && below_m
    }
}

/// Products of two `u64` values, plus one more `u64`, stay inside `u128`.
proof fn lemma_u64_products_fit(w: u64, n: u64, max_w: u64, c: u64)
    ensures
        w * n + c <= u128::MAX,
        max_w * n + c <= u128::MAX,
{
    assert(w * n <= (u64::MAX as int) * (u64::MAX as int)) by (nonlinear_arith)
        requires
            w <= u64::MAX,
            n <= u64::MAX,
    ;
    assert(max_w * n <= (u64::MAX as int) * (u64::MAX as int)) by (nonlinear_arith)
        requires
            max_w <= u64::MAX,
            n <= u64::MAX,
    ;
}

/// With a positive constant `c`, the threshold criterion satisfies
/// [`merges_zero_weights`]: it joins any two components whose internal
/// weights are still zero across a zero-weight edge.
pub proof fn lemma_threshold_merges_zero_weights(t: NodeMergingThreshold)
    requires
        t.c > 0,
    ensures
        merges_zero_weights(t),
{
    assert forall|s_n: ImageNode, s_m: ImageNode, e: ImageEdge|
        s_n.max_w == 0 && s_m.max_w == 0 && e.w == 0 && s_n.id != s_m.id && s_n.n >= 1 && s_m.n
            >= 1 implies #[trigger] t.spec_should_merge(s_n, s_m, e) by {
        lemma_threshold_merges_zero_weight(t, s_n, s_m, e);
    }
}

/// With a positive constant `c`, the threshold criterion always merges two
/// components whose internal weights are still zero across a zero-weight
/// edge: the comparison `0 < 0 + c` holds for both sides.
pub proof fn lemma_threshold_merges_zero_weight(
    t: NodeMergingThreshold,
    s_n: ImageNode,
    s_m: ImageNode,
    e: ImageEdge,
)
    requires
        t.c > 0,
        s_n.max_w == 0,
        s_m.max_w == 0,
        e.w == 0,
    ensures
        t.spec_should_merge(s_n, s_m, e),
{
    assert(e.w * s_n.n == 0 && s_n.max_w * s_n.n == 0) by (nonlinear_arith)
        requires
            e.w == 0 && s_n.max_w == 0,
    ;
    assert(e.w * s_m.n == 0 && s_m.max_w * s_m.n == 0) by (nonlinear_arith)
        requires
            e.w == 0 && s_m.max_w == 0,
    ;
}

} // verus!
