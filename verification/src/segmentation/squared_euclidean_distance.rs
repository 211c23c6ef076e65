use vstd::prelude::*;

use crate::graph::ImageNodeColor;
use crate::segmentation::distance::{abs_diff, sq_sum, Distance, WEIGHT_ONE};

verus! {

/// The fixed-point value of one squared-L2 unit: `WEIGHT_ONE` / (3 · 255²),
/// so that the maximal squared channel sum 3 · 255² maps to exactly
/// `WEIGHT_ONE`.
pub const SQ_UNIT: u64 = 100;

/// Squared Euclidean RGB distance, normalized so that the distance between
/// black and white is [`WEIGHT_ONE`].
#[derive(Debug, Clone, Copy)]
pub struct SquaredEuclideanRGB {}

/// The normalized squared Euclidean distance of two colors in fixed point.
pub open spec fn squared_euclidean_weight(n: ImageNodeColor, m: ImageNodeColor) -> int {
    sq_sum(n, m) * SQ_UNIT
}

impl SquaredEuclideanRGB {
    /// The normalized squared L2 distance of the two colors, in fixed point.
    pub fn distance(&self, n: &ImageNodeColor, m: &ImageNodeColor) -> (r: u64)
        ensures
            r as int == squared_euclidean_weight(*n, *m),
            r <= WEIGHT_ONE,
    {
        let db: u64 = if n.b >= m.b {
            (n.b - m.b) as u64
        } else {
            (m.b - n.b) as u64
        };
        let dg: u64 = if n.g >= m.g {
            (n.g - m.g) as u64
        } else {
            (m.g - n.g) as u64
        };
        let dr: u64 = if n.r >= m.r {
            (n.r - m.r) as u64
        } else {
            (m.r - n.r) as u64
        };
        proof {
            assert(db * db <= 255 * 255 && dg * dg <= 255 * 255 && dr * dr <= 255 * 255)
                by (nonlinear_arith)
                requires
                    db <= 255,
                    dg <= 255,
                    dr <= 255,
            ;
        }
        (db * db + dg * dg + dr * dr) * SQ_UNIT
    }
}

impl Default for SquaredEuclideanRGB {
    /// The metric carries no configuration.
    fn default() -> (r: Self)
        ensures
            r == (SquaredEuclideanRGB {  }),
    {
        SquaredEuclideanRGB {  }
    }
}

impl Distance for SquaredEuclideanRGB {
    open spec fn spec_distance(&self, n: ImageNodeColor, m: ImageNodeColor) -> int {
        squared_euclidean_weight(n, m)
    }

    proof fn lemma_metric_props(&self, n: ImageNodeColor, m: ImageNodeColor) {
        let a = abs_diff(n.b, m.b);
        let b = abs_diff(n.g, m.g);
        let c = abs_diff(n.r, m.r);
        assert(0 <= a * a + b * b + c * c <= 3 * 255 * 255) by (nonlinear_arith)
            requires
                0 <= a <= 255,
                0 <= b <= 255,
                0 <= c <= 255,
        ;
        assert(sq_sum(n, m) == a * a + b * b + c * c);
        if n == m {
            assert(a == 0 && b == 0 && c == 0);
            assert(a * a == 0 && b * b == 0 && c * c == 0) by (nonlinear_arith)
                requires
                    a == 0,
                    b == 0,
                    c == 0,
            ;
        }
        if squared_euclidean_weight(n, m) == 0 {
            assert(sq_sum(n, m) == 0);
            assert(a == 0 && b == 0 && c == 0) by (nonlinear_arith)
                requires
                    a * a + b * b + c * c == 0,
                    0 <= a,
                    0 <= b,
                    0 <= c,
            ;
            assert(n == m);
        }
        if a == 255 && b == 255 && c == 255 {
            assert(sq_sum(n, m) == 3 * 255 * 255) by (nonlinear_arith)
                requires
                    a == 255,
                    b == 255,
                    c == 255,
                    sq_sum(n, m) == a * a + b * b + c * c,
            ;
        }
    }

    fn distance(&self, n: &ImageNodeColor, m: &ImageNodeColor) -> (r: u64) {
        self.distance(n, m)
    }
}

} // verus!
