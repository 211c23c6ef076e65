use vstd::prelude::*;

use crate::graph::ImageNodeColor;
use crate::segmentation::distance::{abs_diff, l1_sum, Distance, WEIGHT_ONE};

verus! {

/// The fixed-point value of one L1 unit: `WEIGHT_ONE` / (3 · 255), so that
/// the maximal channel sum 3 · 255 maps to exactly `WEIGHT_ONE`.
pub const L1_UNIT: u64 = 25_500;

/// Manhattan (i.e. L1) distance, normalized so that the distance between
/// black and white is [`WEIGHT_ONE`].
#[derive(Debug, Clone, Copy)]
pub struct ManhattanRGB {}

/// The normalized Manhattan distance of two colors in fixed point.
pub open spec fn manhattan_weight(n: ImageNodeColor, m: ImageNodeColor) -> int {
    l1_sum(n, m) * L1_UNIT
}

impl ManhattanRGB {
    /// The normalized L1 distance of the two colors, in fixed point.
    pub fn distance(&self, n: &ImageNodeColor, m: &ImageNodeColor) -> (r: u64)
        ensures
            r as int == manhattan_weight(*n, *m),
            r <= WEIGHT_ONE,
    {
        let db: u64 = if n.b >= m.b {
            (n.b - m.b) as u64
        } else {
            (m.b - n.b) as u64
        };
        let dg: u64 = if n.g >= m.g {
            (n.g - m.g) as u64
        } else {
            (m.g - n.g) as u64
        };
        let dr: u64 = if n.r >= m.r {
            (n.r - m.r) as u64
        } else {
            (m.r - n.r) as u64
        };
        (db + dg + dr) * L1_UNIT
    }
}

impl Default for ManhattanRGB {
    /// The metric carries no configuration.
    fn default() -> (r: Self)
        ensures
            r == (ManhattanRGB {  }),
    {
        ManhattanRGB {  }
    }
}

impl Distance for ManhattanRGB {
    open spec fn spec_distance(&self, n: ImageNodeColor, m: ImageNodeColor) -> int {
        manhattan_weight(n, m)
    }

    proof fn lemma_metric_props(&self, n: ImageNodeColor, m: ImageNodeColor) {
        if manhattan_weight(n, m) == 0 {
            assert(l1_sum(n, m) == 0);
            assert(n == m);
        }
    }

    fn distance(&self, n: &ImageNodeColor, m: &ImageNodeColor) -> (r: u64) {
        self.distance(n, m)
    }
}

} // verus!
