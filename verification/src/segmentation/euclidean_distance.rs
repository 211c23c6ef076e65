use vstd::prelude::*;

use crate::graph::ImageNodeColor;
use crate::segmentation::distance::{abs_diff, sq_sum, Distance, WEIGHT_ONE};

verus! {

/// The factor that turns a squared channel sum into the square of a
/// fixed-point weight: `WEIGHT_ONE`² / (3 · 255²), so that the maximal
/// squared channel sum 3 · 255² maps to exactly `WEIGHT_ONE`².
pub const SQ_FACTOR: u64 = 1_950_750_000;

/// Euclidean RGB distance, normalized so that the distance between black and
/// white is [`WEIGHT_ONE`]. The weight is the floor of the scaled square
/// root of the squared channel sum.
#[derive(Debug, Clone, Copy)]
pub struct EuclideanRGB {}

/// The floor of the square root of a nonnegative integer.
pub open spec fn floor_sqrt(x: int) -> int
    decreases x,
{
    if x <= 0 {
        0
    } else {
        let r = floor_sqrt(x - 1);
        if (r + 1) * (r + 1) <= x {
            r + 1
        } else {
            r
        }
    }
}

/// [`floor_sqrt`] is characterized by the two bounds `r² <= x < (r+1)²`.
pub proof fn lemma_floor_sqrt_bounds(x: int)
    requires
        x >= 0,
    ensures
        0 <= floor_sqrt(x),
        floor_sqrt(x) * floor_sqrt(x) <= x,
        x < (floor_sqrt(x) + 1) * (floor_sqrt(x) + 1),
    decreases x,
{
    if x == 0 {
    } else {
        lemma_floor_sqrt_bounds(x - 1);
        let r = floor_sqrt(x - 1);
        if (r + 1) * (r + 1) <= x {
            assert(x - 1 < (r + 1) * (r + 1));
            assert(x < (r + 2) * (r + 2)) by (nonlinear_arith)
                requires
                    x <= (r + 1) * (r + 1),
                    r >= 0,
            ;
        }
    }
}

/// The two bounds determine the floor of the square root uniquely.
pub proof fn lemma_floor_sqrt_unique(x: int, r: int)
    requires
        x >= 0,
        r >= 0,
        r * r <= x,
        x < (r + 1) * (r + 1),
    ensures
        r == floor_sqrt(x),
{
    lemma_floor_sqrt_bounds(x);
    let s = floor_sqrt(x);
    assert(r == s) by (nonlinear_arith)
        requires
            r >= 0,
            s >= 0,
            r * r <= x,
            x < (r + 1) * (r + 1),
            s * s <= x,
            x < (s + 1) * (s + 1),
    ;
}

/// The normalized Euclidean distance of two colors in fixed point.
pub open spec fn euclidean_weight(n: ImageNodeColor, m: ImageNodeColor) -> int {
    floor_sqrt(sq_sum(n, m) * SQ_FACTOR)
}

/// The floor of the square root of `x`, by binary search. The bound on `x`
/// keeps every square computed by the search inside `u64`.
fn isqrt(x: u64) -> (r: u64)
    requires
        x <= WEIGHT_ONE * WEIGHT_ONE,
    ensures
        r as int == floor_sqrt(x as int),
        r <= WEIGHT_ONE,
{
    let mut lo: u64 = 0;
    let mut hi: u64 = WEIGHT_ONE + 1;
    proof {
        assert((WEIGHT_ONE + 1) * (WEIGHT_ONE + 1) > WEIGHT_ONE * WEIGHT_ONE) by (nonlinear_arith);
    }
    while lo + 1 < hi
        invariant
            lo < hi <= WEIGHT_ONE + 1,
            x <= WEIGHT_ONE * WEIGHT_ONE,
            lo * lo <= x,
            x < hi * hi,
        decreases hi - lo,
    {
        let mid = lo + (hi - lo) / 2;
        proof {
            assert(mid * mid <= WEIGHT_ONE * WEIGHT_ONE) by (nonlinear_arith)
                requires
                    mid <= WEIGHT_ONE,
            ;
        }
        if mid * mid <= x {
            lo = mid;
        } else {
            hi = mid;
        }
    }
    proof {
        lemma_floor_sqrt_unique(x as int, lo as int);
    }
    lo
}

impl EuclideanRGB {
    /// The normalized L2 distance of the two colors, in fixed point: the
    /// floor of the square root of the scaled squared channel sum.
    pub fn distance(&self, n: &ImageNodeColor, m: &ImageNodeColor) -> (r: u64)
        ensures
            r as int == euclidean_weight(*n, *m),
            r <= WEIGHT_ONE,
    {
        let db: u64 = if n.b >= m.b {
            (n.b - m.b) as u64
        } else {
            (m.b - n.b) as u64
        };
        let dg: u64 = if n.g >= m.g {
            (n.g - m.g) as u64
        } else {
            (m.g - n.g) as u64
        };
        let dr: u64 = if n.r >= m.r {
            (n.r - m.r) as u64
        } else {
            (m.r - n.r) as u64
        };
        proof {
            assert(db * db + dg * dg + dr * dr <= 3 * 255 * 255) by (nonlinear_arith)
                requires
                    db <= 255,
                    dg <= 255,
                    dr <= 255,
            ;
            assert((3 * 255 * 255) * SQ_FACTOR == WEIGHT_ONE * WEIGHT_ONE);
        }
        let sum: u64 = db * db + dg * dg + dr * dr;
        proof {
            assert(sum * SQ_FACTOR <= (3 * 255 * 255) * SQ_FACTOR) by (nonlinear_arith)
                requires
                    sum <= 3 * 255 * 255,
            ;
        }
        isqrt(sum * SQ_FACTOR)
    }
}

impl Default for EuclideanRGB {
    /// The metric carries no configuration.
    fn default() -> (r: Self)
        ensures
            r == (EuclideanRGB {  }),
    {
        EuclideanRGB {  }
    }
}

impl Distance for EuclideanRGB {
    open spec fn spec_distance(&self, n: ImageNodeColor, m: ImageNodeColor) -> int {
        euclidean_weight(n, m)
    }

    proof fn lemma_metric_props(&self, n: ImageNodeColor, m: ImageNodeColor) {
        let a = abs_diff(n.b, m.b);
        let b = abs_diff(n.g, m.g);
        let c = abs_diff(n.r, m.r);
        assert(0 <= a * a + b * b + c * c <= 3 * 255 * 255) by (nonlinear_arith)
            requires
                0 <= a <= 255,
                0 <= b <= 255,
                0 <= c <= 255,
        ;
        assert(sq_sum(n, m) == a * a + b * b + c * c);
        assert(sq_sum(m, n) == sq_sum(n, m));
        if n == m {
            assert(a == 0 && b == 0 && c == 0);
            assert(a * a == 0 && b * b == 0 && c * c == 0) by (nonlinear_arith)
                requires
                    a == 0,
                    b == 0,
                    c == 0,
            ;
            assert(sq_sum(n, m) * SQ_FACTOR == 0);
        }
        let prod = sq_sum(n, m) * SQ_FACTOR;
        assert(prod <= (3 * 255 * 255) * SQ_FACTOR) by (nonlinear_arith)
            requires
                0 <= sq_sum(n, m) <= 3 * 255 * 255,
                prod == sq_sum(n, m) * SQ_FACTOR,
        ;
        assert(prod >= 0) by (nonlinear_arith)
            requires
                0 <= sq_sum(n, m),
                prod == sq_sum(n, m) * SQ_FACTOR,
        ;
        lemma_floor_sqrt_bounds(prod);
        let f = floor_sqrt(prod);
        assert(f <= WEIGHT_ONE) by (nonlinear_arith)
            requires
                f >= 0,
                f * f <= prod,
                prod <= WEIGHT_ONE * WEIGHT_ONE,
        ;
        if f == 0 {
            // the floor of the square root vanishes only below 1
            assert(prod < (f + 1) * (f + 1));
            assert((f + 1) * (f + 1) == 1) by (nonlinear_arith)
                requires
                    f == 0,
            ;
            assert(sq_sum(n, m) == 0) by (nonlinear_arith)
                requires
                    sq_sum(n, m) * SQ_FACTOR < 1,
                    0 <= sq_sum(n, m),
            ;
            assert(a == 0 && b == 0 && c == 0) by (nonlinear_arith)
                requires
                    a * a + b * b + c * c == 0,
                    0 <= a,
                    0 <= b,
                    0 <= c,
            ;
            assert(n == m);
        }
        if a == 255 && b == 255 && c == 255 {
            assert(sq_sum(n, m) == 3 * 255 * 255) by (nonlinear_arith)
                requires
                    a == 255,
                    b == 255,
                    c == 255,
                    sq_sum(n, m) == a * a + b * b + c * c,
            ;
            assert(prod == WEIGHT_ONE * WEIGHT_ONE) by (nonlinear_arith)
                requires
                    sq_sum(n, m) == 3 * 255 * 255,
                    prod == sq_sum(n, m) * SQ_FACTOR,
            ;
            lemma_floor_sqrt_unique(prod, WEIGHT_ONE as int);
        }
    }

    fn distance(&self, n: &ImageNodeColor, m: &ImageNodeColor) -> (r: u64) {
        self.distance(n, m)
    }
}

} // verus!
