use vstd::prelude::*;

verus! {

/// Represents an edge between two 4-adjacent pixels of the image.
/// Each edge is characterized by its two endpoints and a weight.
#[derive(Debug, Copy, Clone, PartialEq, Eq, Structural)]
pub struct ImageEdge {
    /// Index of the first node.
    pub n: usize,
    /// Index of the second node.
    pub m: usize,
    /// Edge weight: the dissimilarity of the two pixels' colors in fixed
    /// point, scaled so that [`crate::WEIGHT_ONE`] stands for 1.0.
    pub w: u64,
}

impl ImageEdge {
    /// Builds an edge between nodes `n` and `m` with weight `w`.
    pub fn new(n: usize, m: usize, w: u64) -> (e: ImageEdge)
        ensures
            e == (ImageEdge { n, m, w }),
    {
        ImageEdge { n, m, w }
    }
}

/// The order in which edges are processed: ascending by weight, ties broken
/// by the first endpoint, then by the second. A total order on edges, so the
/// sorted edge sequence is unique and every run processes edges identically.
pub open spec fn edge_le(a: ImageEdge, b: ImageEdge) -> bool {
    ||| a.w < b.w
    ||| (a.w == b.w && a.n < b.n)
    ||| (a.w == b.w && a.n == b.n && a.m <= b.m)
}

/// An edge sequence sorted in processing order: ascending under [`edge_le`].
pub open spec fn edges_sorted(es: Seq<ImageEdge>) -> bool {
    forall|i: int, j: int| 0 <= i < j < es.len() ==> edge_le(es[i], es[j])
}

/// [`edge_le`] is a total order, so a sorted rearrangement of a given edge
/// sequence is unique: two sorted sequences holding the same edges are equal.
/// This is what makes the segmentation deterministic — every run processes
/// the same edges in the same order and produces identical labels.
pub proof fn lemma_sorted_edges_unique(x: Seq<ImageEdge>, y: Seq<ImageEdge>)
    requires
        edges_sorted(x),
        edges_sorted(y),
        x.to_multiset() == y.to_multiset(),
    ensures
        x == y,
{
    let leq = |a: ImageEdge, b: ImageEdge| edge_le(a, b);
    assert(vstd::relations::sorted_by(x, leq));
    assert(vstd::relations::sorted_by(y, leq));
    assert(vstd::relations::total_ordering(leq)) by {
        assert forall|a: ImageEdge, b: ImageEdge| #[trigger] leq(a, b) && #[trigger] leq(b, a)
            implies a == b by {}
    }
    vstd::seq_lib::lemma_sorted_unique(x, y, leq);
}

/// Executable comparison deciding [`edge_le`].
pub fn edge_le_exec(a: &ImageEdge, b: &ImageEdge) -> (r: bool)
    ensures
        r == edge_le(*a, *b),
{
    if a.w != b.w {
        a.w < b.w
    } else if a.n != b.n {
        a.n < b.n
    } else {
        a.m <= b.m
    }
}

} // verus!
