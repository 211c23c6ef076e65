use vstd::prelude::*;

use crate::graph::ImageNodeColor;

verus! {

/// The fixed-point scale of all edge weights and thresholds: this value
/// stands for the normalized maximal distance 1.0 (for example between black
/// and white), and 0 stands for the distance between identical colors.
///
/// The value is 100 · 3 · 255², so that all three metrics hit the scale
/// exactly: it is divisible by 3 · 255 (the largest possible L1 channel sum)
/// and by 3 · 255² (the largest possible squared L2 channel sum).
pub const WEIGHT_ONE: u64 = 19_507_500;

/// The absolute difference of two 8-bit channel values.
pub open spec fn abs_diff(a: u8, b: u8) -> int {
    if a >= b {
        a - b
    } else {
        b - a
    }
}

/// The L1 distance of two colors over the three channels, in 0 ..= 3 · 255.
pub open spec fn l1_sum(n: ImageNodeColor, m: ImageNodeColor) -> int {
    abs_diff(n.b, m.b) + abs_diff(n.g, m.g) + abs_diff(n.r, m.r)
}

/// The squared L2 distance of two colors over the three channels, in
/// 0 ..= 3 · 255².
pub open spec fn sq_sum(n: ImageNodeColor, m: ImageNodeColor) -> int {
    abs_diff(n.b, m.b) * abs_diff(n.b, m.b) + abs_diff(n.g, m.g) * abs_diff(n.g, m.g) + abs_diff(
        n.r,
        m.r,
    ) * abs_diff(n.r, m.r)
}

/// Trait to be implemented by a concrete distance. The distance defines how
/// the weights between nodes in the image graph are computed. Every distance
/// is a pure function of the two colors, symmetric, zero on identical
/// colors, and normalized into `0 ..= WEIGHT_ONE`.
pub trait Distance: Sized {
    /// The metric as a mathematical function of the two colors, in fixed
    /// point with scale [`WEIGHT_ONE`].
    spec fn spec_distance(&self, n: ImageNodeColor, m: ImageNodeColor) -> int;

    /// The laws every metric obeys: symmetry, zero exactly on identical
    /// colors, the normalized range, and the maximum exactly at opposite
    /// corners of the channel cube (such as black against white).
    proof fn lemma_metric_props(&self, n: ImageNodeColor, m: ImageNodeColor)
        ensures
            self.spec_distance(n, m) == self.spec_distance(m, n),
            n == m ==> self.spec_distance(n, m) == 0,
            self.spec_distance(n, m) == 0 ==> n == m,
            0 <= self.spec_distance(n, m) <= WEIGHT_ONE,
            abs_diff(n.b, m.b) == 255 && abs_diff(n.g, m.g) == 255 && abs_diff(n.r, m.r) == 255
                ==> self.spec_distance(n, m) == WEIGHT_ONE,
    ;

    /// Compute the distance given two nodes' colors.
    fn distance(&self, n: &ImageNodeColor, m: &ImageNodeColor) -> (r: u64)
        ensures
            r as int == self.spec_distance(*n, *m),
    ;
}

} // verus!
