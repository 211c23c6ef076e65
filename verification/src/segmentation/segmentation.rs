use vstd::prelude::*;

use crate::graph::{
    chain_ok, depth_wf, edges_sorted, edges_wf, is_root, lemma_sorted_edges_unique, lemma_count_ge1, lemma_count_ge2,
    lemma_count_remove_one, lemma_count_unique_root, lemma_labels_are_roots, lemma_merge_roots,
    lemma_root_of_props, max_weight, merge_depth, merged_nodes, nodes_linked, root_count, root_of,
    ImageEdge, ImageGraph, ImageNode,
};
use crate::graph::ImageNodeColor;
use crate::segmentation::distance::Distance;
use crate::segmentation::image::{lemma_flat_index_in_range, Image};
use crate::segmentation::node_merging::{merges_zero_weights, NodeMerging};
use crate::segmentation::segmentation_result::SegmentationResult;

verus! {

/// Edge `e` connects the pixel in row `i`, column `j` with its right
/// neighbor.
pub open spec fn is_right_edge(w: int, h: int, i: int, j: int, e: ImageEdge) -> bool {
    &&& 0 <= i < h
    &&& 0 <= j < w - 1
    &&& e.n == w * i + j
    &&& e.m == w * i + j + 1
}

/// Edge `e` connects the pixel in row `i`, column `j` with its bottom
/// neighbor.
pub open spec fn is_bottom_edge(w: int, h: int, i: int, j: int, e: ImageEdge) -> bool {
    &&& 0 <= i < h - 1
    &&& 0 <= j < w
    &&& e.n == w * i + j
    &&& e.m == w * i + j + w
}

/// Edge `e` connects two 4-adjacent pixels of a `w` by `h` grid, the smaller
/// flat index first.
pub open spec fn is_grid_edge(w: int, h: int, e: ImageEdge) -> bool {
    exists|i: int, j: int|
        is_right_edge(w, h, i, j, e) || is_bottom_edge(w, h, i, j, e)
}

/// The sequence holds the edge between pixel (`i`, `j`) and its right
/// neighbor.
pub open spec fn has_right_edge(es: Seq<ImageEdge>, w: int, h: int, i: int, j: int) -> bool {
    exists|p: int| 0 <= p < es.len() && is_right_edge(w, h, i, j, #[trigger] es[p])
}

/// The sequence holds the edge between pixel (`i`, `j`) and its bottom
/// neighbor.
pub open spec fn has_bottom_edge(es: Seq<ImageEdge>, w: int, h: int, i: int, j: int) -> bool {
    exists|p: int| 0 <= p < es.len() && is_bottom_edge(w, h, i, j, #[trigger] es[p])
}

/// The label of the pixel in row `i`, column `j` of a row-major label
/// buffer of width `w`.
pub open spec fn label_at(labels: Seq<usize>, w: int, i: int, j: int) -> usize {
    labels[w * i + j]
}

/// Among the first `upto` edges, every edge either joins two pixels of the
/// same component or touches only components whose sizes have reached `min`.
#[verifier::opaque]
pub open spec fn min_size_ok(ns: Seq<ImageNode>, es: Seq<ImageEdge>, upto: int, min: int) -> bool {
    forall|p: int|
        0 <= p < upto ==> root_of(ns, (#[trigger] es[p]).n as int) == root_of(ns, es[p].m as int)
            || (ns[root_of(ns, es[p].n as int)].n >= min && ns[root_of(ns, es[p].m as int)].n
            >= min)
}

/// One step of the oversegmentation model: resolve the current roots of the
/// edge's two endpoints, and merge the two components exactly when the roots
/// differ and the criterion approves.
pub open spec fn oversegment_step<M: NodeMerging>(
    m: M,
    ns: Seq<ImageNode>,
    e: ImageEdge,
) -> Seq<ImageNode> {
    let rn = root_of(ns, e.n as int);
    let rm = root_of(ns, e.m as int);
    if rn != rm && m.spec_should_merge(ns[rn], ns[rm], e) {
        merged_nodes(
            ns,
            rn,
            rm,
            (ns[rn].n + ns[rm].n) as usize,
            max_weight(ns[rn].max_w, ns[rm].max_w, e.w),
        )
    } else {
        ns
    }
}

/// The oversegmentation pass as a mathematical fold: the node state after
/// the first `upto` edges of `es` have been visited in order, merging
/// exactly where [`oversegment_step`] says so.
pub open spec fn oversegment_pass<M: NodeMerging>(
    m: M,
    ns: Seq<ImageNode>,
    es: Seq<ImageEdge>,
    upto: int,
) -> Seq<ImageNode>
    decreases upto,
{
    if upto <= 0 {
        ns
    } else {
        oversegment_step(m, oversegment_pass(m, ns, es, upto - 1), es[upto - 1])
    }
}

/// One step of the minimum-size pass: resolve the current roots of the
/// edge's two endpoints, and merge exactly when the roots differ and either
/// component is still below the minimum.
pub open spec fn enforce_step(ns: Seq<ImageNode>, e: ImageEdge, min: int) -> Seq<ImageNode> {
    let rn = root_of(ns, e.n as int);
    let rm = root_of(ns, e.m as int);
    if rn != rm && (ns[rn].n < min || ns[rm].n < min) {
        merged_nodes(
            ns,
            rn,
            rm,
            (ns[rn].n + ns[rm].n) as usize,
            max_weight(ns[rn].max_w, ns[rm].max_w, e.w),
        )
    } else {
        ns
    }
}

/// The minimum-size pass as a mathematical fold: the node state after the
/// first `upto` edges of `es` have been visited in order, merging exactly
/// where [`enforce_step`] says so.
pub open spec fn enforce_pass(
    ns: Seq<ImageNode>,
    es: Seq<ImageEdge>,
    upto: int,
    min: int,
) -> Seq<ImageNode>
    decreases upto,
{
    if upto <= 0 {
        ns
    } else {
        enforce_step(enforce_pass(ns, es, upto - 1, min), es[upto - 1], min)
    }
}

/// The node state a segmentation run starts from: one singleton root per
/// pixel, with no internal weight.
pub open spec fn init_nodes(n: int) -> Seq<ImageNode> {
    Seq::new(
        n as nat,
        |i: int| ImageNode { label: i as usize, n: 1usize, id: i as usize, max_w: 0u64 },
    )
}

/// A model node state and the executable node state describe the same
/// segmentation: same resolved roots, same roots, and the same size,
/// maximum weight and id at every node. Partial path compression rewrites
/// only non-root labels, so the two label arrays are compared up to
/// [`root_of`], not for equality.
#[verifier::opaque]
pub open spec fn pass_agrees(ms: Seq<ImageNode>, ns: Seq<ImageNode>) -> bool {
    &&& ms.len() == ns.len()
    &&& forall|x: int| 0 <= x < ns.len() ==> root_of(ms, x) == root_of(ns, x)
    &&& forall|x: int|
        0 <= x < ns.len() ==> (#[trigger] ms[x]).n == ns[x].n && ms[x].max_w == ns[x].max_w
            && ms[x].id == ns[x].id
    &&& forall|j: int| 0 <= j < ns.len() ==> (is_root(ms, j) <==> is_root(ns, j))
}

/// Every state agrees with itself.
proof fn lemma_agree_refl(ns: Seq<ImageNode>)
    ensures
        pass_agrees(ns, ns),
{
    reveal(pass_agrees);
}

/// The agreed facts at one node, unpacked.
proof fn lemma_agree_at(ms: Seq<ImageNode>, ns: Seq<ImageNode>, x: int)
    requires
        pass_agrees(ms, ns),
        0 <= x < ns.len(),
    ensures
        ms.len() == ns.len(),
        root_of(ms, x) == root_of(ns, x),
        ms[x].n == ns[x].n,
        ms[x].max_w == ns[x].max_w,
        ms[x].id == ns[x].id,
        is_root(ms, x) <==> is_root(ns, x),
{
    reveal(pass_agrees);
}

/// Agreement survives an operation on the executable side that preserves
/// every resolved root, every root, and every node's size, weight and id —
/// such as path compression.
proof fn lemma_agree_stable(ms: Seq<ImageNode>, ns0: Seq<ImageNode>, ns2: Seq<ImageNode>)
    requires
        pass_agrees(ms, ns0),
        ns2.len() == ns0.len(),
        forall|x: int| 0 <= x < ns0.len() ==> root_of(ns2, x) == root_of(ns0, x),
        forall|x: int|
            0 <= x < ns0.len() ==> (#[trigger] ns2[x]).n == ns0[x].n && ns2[x].max_w
                == ns0[x].max_w && ns2[x].id == ns0[x].id,
        forall|j: int| 0 <= j < ns0.len() ==> (is_root(ns2, j) <==> is_root(ns0, j)),
    ensures
        pass_agrees(ms, ns2),
{
    reveal(pass_agrees);
}

/// Merging the same two roots with the same combined size and weight keeps
/// a model state and the executable state agreeing; both stay well-chained
/// under the shared updated depth witness.
proof fn lemma_agree_after_merge(
    ms: Seq<ImageNode>,
    ns: Seq<ImageNode>,
    d: Seq<nat>,
    a: int,
    b: int,
    new_n: usize,
    new_w: u64,
    d2: Seq<nat>,
)
    requires
        pass_agrees(ms, ns),
        chain_ok(ms, d),
        chain_ok(ns, d),
        0 <= a < ns.len(),
        0 <= b < ns.len(),
        a != b,
        is_root(ns, a),
        is_root(ns, b),
        d2 == d.update(a, merge_depth(d, a, b)),
        merge_depth(d, a, b) < ns.len(),
    ensures
        pass_agrees(
            merged_nodes(ms, a, b, new_n, new_w),
            merged_nodes(ns, a, b, new_n, new_w),
        ),
        chain_ok(merged_nodes(ms, a, b, new_n, new_w), d2),
{
    reveal(pass_agrees);
    let ms2 = merged_nodes(ms, a, b, new_n, new_w);
    let ns2 = merged_nodes(ns, a, b, new_n, new_w);
    lemma_merge_roots(ms, d, a, b, new_n, new_w, ms2, d2);
    lemma_merge_roots(ns, d, a, b, new_n, new_w, ns2, d2);
    assert forall|x: int| 0 <= x < ns.len() implies root_of(ms2, x) == root_of(ns2, x) by {}
    assert forall|x: int| 0 <= x < ns.len() implies (#[trigger] ms2[x]).n == ns2[x].n
        && ms2[x].max_w == ns2[x].max_w && ms2[x].id == ns2[x].id by {}
}

/// Agreement is transitive.
proof fn lemma_agree_trans(a: Seq<ImageNode>, b: Seq<ImageNode>, c: Seq<ImageNode>)
    requires
        pass_agrees(a, b),
        pass_agrees(b, c),
    ensures
        pass_agrees(a, c),
{
    reveal(pass_agrees);
}

/// The minimum-size pass model depends only on what a state agrees on:
/// folding it over two agreeing states yields agreeing results. The shared
/// depth witness evolves with the merges; its headroom below the node count
/// is the number of remaining roots.
pub proof fn lemma_enforce_pass_congruence(
    ms: Seq<ImageNode>,
    ns: Seq<ImageNode>,
    d: Seq<nat>,
    es: Seq<ImageEdge>,
    upto: int,
    min: int,
) -> (dr: Seq<nat>)
    requires
        pass_agrees(ms, ns),
        chain_ok(ms, d),
        chain_ok(ns, d),
        edges_wf(es, ns.len() as int),
        0 <= upto <= es.len(),
        forall|i: int|
            0 <= i < d.len() ==> #[trigger] d[i] + root_count(ns, ns.len() as int) <= ns.len(),
    ensures
        pass_agrees(enforce_pass(ms, es, upto, min), enforce_pass(ns, es, upto, min)),
        chain_ok(enforce_pass(ms, es, upto, min), dr),
        chain_ok(enforce_pass(ns, es, upto, min), dr),
        enforce_pass(ns, es, upto, min).len() == ns.len(),
        forall|i: int|
            0 <= i < dr.len() ==> #[trigger] dr[i] + root_count(
                enforce_pass(ns, es, upto, min),
                ns.len() as int,
            ) <= ns.len(),
    decreases upto,
{
    if upto <= 0 {
        return d;
    }
    let dprev = lemma_enforce_pass_congruence(ms, ns, d, es, upto - 1, min);
    let msp = enforce_pass(ms, es, upto - 1, min);
    let nsp = enforce_pass(ns, es, upto - 1, min);
    let e = es[upto - 1];
    lemma_agree_at(msp, nsp, e.n as int);
    lemma_agree_at(msp, nsp, e.m as int);
    lemma_root_of_props(nsp, dprev, e.n as int);
    lemma_root_of_props(nsp, dprev, e.m as int);
    let rn = root_of(nsp, e.n as int);
    let rm = root_of(nsp, e.m as int);
    lemma_agree_at(msp, nsp, rn);
    lemma_agree_at(msp, nsp, rm);
    if rn != rm && (nsp[rn].n < min || nsp[rm].n < min) {
        let new_n = (nsp[rn].n + nsp[rm].n) as usize;
        let new_w = max_weight(nsp[rn].max_w, nsp[rm].max_w, e.w);
        let d2 = dprev.update(rn, merge_depth(dprev, rn, rm));
        let count = root_count(nsp, ns.len() as int);
        if rn < rm {
            lemma_count_ge2(nsp, rn, rm, ns.len() as int);
        } else {
            lemma_count_ge2(nsp, rm, rn, ns.len() as int);
        }
        assert(merge_depth(dprev, rn, rm) < ns.len()) by {
            assert(dprev[rn] + count <= ns.len());
            assert(dprev[rm] + count <= ns.len());
        }
        lemma_agree_after_merge(msp, nsp, dprev, rn, rm, new_n, new_w, d2);
        let ns2 = merged_nodes(nsp, rn, rm, new_n, new_w);
        lemma_merge_roots(nsp, dprev, rn, rm, new_n, new_w, ns2, d2);
        assert(enforce_step(msp, e, min) == merged_nodes(msp, rn, rm, new_n, new_w));
        assert(enforce_step(nsp, e, min) == ns2);
        lemma_count_remove_one(nsp, ns2, rm, ns.len() as int);
        assert forall|i: int| 0 <= i < d2.len() implies #[trigger] d2[i] + root_count(
            ns2,
            ns.len() as int,
        ) <= ns.len() by {
            assert(dprev[i] + count <= ns.len());
        }
        d2
    } else {
        assert(enforce_step(msp, e, min) == msp);
        assert(enforce_step(nsp, e, min) == nsp);
        dprev
    }
}

/// Implementation of graph-based image segmentation as described in the
/// paper by Felzenszwalb and Huttenlocher. A run walks four strictly ordered
/// phases: build the pixel graph, oversegment it greedily along the
/// weight-sorted edges, enforce the minimum segment size, and derive the
/// per-pixel labels.
pub struct Segmentation<D: Distance, M: NodeMerging> {
    /// Image height.
    pub height: usize,
    /// Image width.
    pub width: usize,
    /// The constructed and segmented image graph.
    pub graph: ImageGraph,
    /// The underlying distance to use.
    pub distance: D,
    /// The merge criterion deciding which components to join.
    pub magic: M,
    /// The minimum size of the segments, in pixels.
    pub segment_size: usize,
}

impl<D: Distance, M: NodeMerging> Segmentation<D, M> {
    /// The input under which oversegmentation provably connects everything
    /// that edges connect: the merge criterion joins across zero-weight
    /// edges, every edge weight is zero (an image of identical colors), and
    /// no component has absorbed any weight yet.
    pub open spec fn uniform_zero_input(self) -> bool {
        &&& merges_zero_weights(self.magic)
        &&& forall|p: int|
            0 <= p < self.graph.edges@.len() ==> (#[trigger] self.graph.edges@[p]).w == 0
        &&& forall|x: int|
            0 <= x < self.graph.nodes@.len() ==> (#[trigger] self.graph.nodes@[x]).max_w == 0
    }

    /// Every edge of the graph is a grid edge of the engine's image whose
    /// weight is the configured metric's distance between its endpoints'
    /// colors.
    pub open spec fn edge_ok(self, e: ImageEdge) -> bool {
        &&& is_grid_edge(self.width as int, self.height as int, e)
        &&& e.n < e.m < self.graph.node_colors@.len()
        &&& e.w as int == self.distance.spec_distance(
            self.graph.node_colors@[e.n as int],
            self.graph.node_colors@[e.m as int],
        )
    }

    /// Builds an engine from a distance, a merge criterion and the minimum
    /// segment size enforced after oversegmentation.
    pub fn new(distance: D, magic: M, segment_size: usize) -> (s: Self)
        ensures
            s.height == 0,
            s.width == 0,
            s.graph.wf(),
            s.graph.nodes@.len() == 0,
            s.distance == distance,
            s.magic == magic,
            s.segment_size == segment_size,
    {
        Segmentation {
            distance,
            magic,
            height: 0,
            width: 0,
            segment_size,
            graph: ImageGraph::new_with_nodes(0),
        }
    }

    /// Build the graph from the image: one node per pixel carrying its
    /// color, and one weighted edge for every pixel with a right neighbor
    /// and every pixel with a bottom neighbor, the weight computed by the
    /// configured metric. All nodes start as singleton components.
    pub fn build_graph(&mut self, image: &Image)
        requires
            image.wf(),
            image.height >= 1,
            image.width >= 1,
            image.height * image.width <= usize::MAX,
        ensures
            final(self).height == image.height,
            final(self).width == image.width,
            final(self).distance == old(self).distance,
            final(self).magic == old(self).magic,
            final(self).segment_size == old(self).segment_size,
            final(self).graph.wf(),
            final(self).graph.nodes@.len() == image.height * image.width,
            final(self).graph.node_colors@.len() == image.height * image.width,
            final(self).graph.spec_num_components() == image.height * image.width,
            final(self).graph.node_colors@ == image.pixels@,
            forall|idx: int|
                0 <= idx < image.height * image.width ==> final(self).graph.nodes@[idx]
                    == (ImageNode {
                    label: idx as usize,
                    n: 1usize,
                    id: idx as usize,
                    max_w: 0u64,
                }),
            forall|p: int|
                0 <= p < final(self).graph.edges@.len() ==> final(self).edge_ok(
                    #[trigger] final(self).graph.edges@[p],
                ),
            forall|p: int, q: int|
                0 <= p < q < final(self).graph.edges@.len() ==> !(final(self).graph.edges@[p].n
                    == final(self).graph.edges@[q].n && final(self).graph.edges@[p].m
                    == final(self).graph.edges@[q].m),
            forall|i: int, j: int|
                0 <= i < image.height && 0 <= j < image.width - 1 ==> #[trigger] has_right_edge(
                    final(self).graph.edges@,
                    image.width as int,
                    image.height as int,
                    i,
                    j,
                ),
            forall|i: int, j: int|
                0 <= i < image.height - 1 && 0 <= j < image.width ==> #[trigger] has_bottom_edge(
                    final(self).graph.edges@,
                    image.width as int,
                    image.height as int,
                    i,
                    j,
                ),
    {
        let h = image.height;
        let w = image.width;
        self.height = h;
        self.width = w;
        let node_count = h * w;
        let mut g = ImageGraph::new_with_nodes(node_count);
        let mut t: usize = 0;
        while t < node_count
            invariant
                g.wf(),
                g.nodes@.len() == node_count,
                g.node_colors@.len() == node_count,
                g.edges@.len() == 0,
                g.spec_num_components() == node_count,
                forall|idx: int|
                    0 <= idx < node_count ==> g.nodes@[idx] == (ImageNode {
                        label: idx as usize,
                        n: 1usize,
                        id: idx as usize,
                        max_w: 0u64,
                    }),
                image.wf(),
                node_count == image.height * image.width,
                t <= node_count,
                forall|x: int| 0 <= x < t ==> g.node_colors@[x] == image.pixels@[x],
            decreases node_count - t,
        {
            g.set_node_color(t, image.pixels[t]);
            t = t + 1;
        }
        proof {
            assert(g.node_colors@ =~= image.pixels@);
        }
        let mut edges: Vec<ImageEdge> = Vec::new();
        let ghost wi = w as int;
        let ghost hi = h as int;
        let mut i: usize = 0;
        while i < h
            invariant
                self.height == h == image.height,
                self.width == w == image.width,
                self.distance == old(self).distance,
                self.magic == old(self).magic,
                self.segment_size == old(self).segment_size,
                h >= 1,
                w >= 1,
                wi == w as int,
                hi == h as int,
                image.wf(),
                node_count == image.height * image.width,
                g.wf(),
                g.nodes@.len() == node_count,
                g.node_colors@.len() == node_count,
                g.edges@.len() == 0,
                g.spec_num_components() == node_count,
                g.node_colors@ == image.pixels@,
                forall|idx: int|
                    0 <= idx < node_count ==> g.nodes@[idx] == (ImageNode {
                        label: idx as usize,
                        n: 1usize,
                        id: idx as usize,
                        max_w: 0u64,
                    }),
                i <= h,
                forall|p: int|
                    0 <= p < edges@.len() ==> #[trigger] edges@[p].n < edges@[p].m < node_count
                        && is_grid_edge(wi, hi, edges@[p]) && edges@[p].w as int
                        == self.distance.spec_distance(
                        image.pixels@[edges@[p].n as int],
                        image.pixels@[edges@[p].m as int],
                    ),
                forall|p: int| 0 <= p < edges@.len() ==> (#[trigger] edges@[p]).n < wi * i,
                forall|p: int, q: int|
                    0 <= p < q < edges@.len() ==> edges@[p].n < edges@[q].n || (edges@[p].n
                        == edges@[q].n && edges@[p].m < edges@[q].m),
                forall|ii: int, jj: int|
                    0 <= ii < i && 0 <= jj < wi - 1 ==> #[trigger] has_right_edge(
                        edges@,
                        wi,
                        hi,
                        ii,
                        jj,
                    ),
                forall|ii: int, jj: int|
                    0 <= ii < i && ii < hi - 1 && 0 <= jj < wi ==> #[trigger] has_bottom_edge(
                        edges@,
                        wi,
                        hi,
                        ii,
                        jj,
                    ),
            decreases h - i,
        {
            let mut j: usize = 0;
            while j < w
                invariant
                    self.height == h == image.height,
                    self.width == w == image.width,
                    self.distance == old(self).distance,
                    self.magic == old(self).magic,
                    self.segment_size == old(self).segment_size,
                    h >= 1,
                    w >= 1,
                    wi == w as int,
                    hi == h as int,
                    image.wf(),
                    node_count == image.height * image.width,
                    g.wf(),
                    g.nodes@.len() == node_count,
                    g.node_colors@.len() == node_count,
                    g.edges@.len() == 0,
                    g.spec_num_components() == node_count,
                    g.node_colors@ == image.pixels@,
                    forall|idx: int|
                        0 <= idx < node_count ==> g.nodes@[idx] == (ImageNode {
                            label: idx as usize,
                            n: 1usize,
                            id: idx as usize,
                            max_w: 0u64,
                        }),
                    i < h,
                    j <= w,
                    forall|p: int|
                        0 <= p < edges@.len() ==> #[trigger] edges@[p].n < edges@[p].m < node_count
                            && is_grid_edge(wi, hi, edges@[p]) && edges@[p].w as int
                            == self.distance.spec_distance(
                            image.pixels@[edges@[p].n as int],
                            image.pixels@[edges@[p].m as int],
                        ),
                    forall|p: int| 0 <= p < edges@.len() ==> (#[trigger] edges@[p]).n < wi * i + j,
                    forall|p: int, q: int|
                        0 <= p < q < edges@.len() ==> edges@[p].n < edges@[q].n || (edges@[p].n
                            == edges@[q].n && edges@[p].m < edges@[q].m),
                    forall|ii: int, jj: int|
                        (0 <= ii < i || (ii == i && 0 <= jj < j)) && 0 <= ii < hi && 0 <= jj < wi
                            - 1 ==> #[trigger] has_right_edge(edges@, wi, hi, ii, jj),
                    forall|ii: int, jj: int|
                        (0 <= ii < i || (ii == i && 0 <= jj < j)) && 0 <= ii < hi - 1 && 0 <= jj
                            < wi ==> #[trigger] has_bottom_edge(edges@, wi, hi, ii, jj),
                decreases w - j,
            {
                proof {
                    lemma_flat_index_in_range(hi, wi, i as int, j as int);
                }
                let idx = w * i + j;
                let color = g.node_color_at(idx);
                if j + 1 < w {
                    proof {
                        lemma_flat_index_in_range(hi, wi, i as int, j as int + 1);
                    }
                    let other = g.node_color_at(idx + 1);
                    let weight = self.distance.distance(&color, &other);
                    let e = ImageEdge { n: idx, m: idx + 1, w: weight };
                    let ghost before = edges@;
                    edges.push(e);
                    proof {
                        assert(is_right_edge(wi, hi, i as int, j as int, e));
                        assert(is_grid_edge(wi, hi, e));
                        lemma_push_keeps_edge_exists(before, e, wi, hi);
                        assert(has_right_edge(edges@, wi, hi, i as int, j as int)) by {
                            assert(edges@[edges@.len() - 1] == e);
                            assert(is_right_edge(wi, hi, i as int, j as int, edges@[edges@.len()
                                - 1]));
                        }
                    }
                }
                if i + 1 < h {
                    proof {
                        lemma_flat_index_in_range(hi, wi, i as int + 1, j as int);
                        assert(wi * (i + 1) + j == wi * i + j + wi) by (nonlinear_arith);
                    }
                    let other = g.node_color_at(idx + w);
                    let weight = self.distance.distance(&color, &other);
                    let e = ImageEdge { n: idx, m: idx + w, w: weight };
                    let ghost before = edges@;
                    edges.push(e);
                    proof {
                        assert(is_bottom_edge(wi, hi, i as int, j as int, e));
                        assert(is_grid_edge(wi, hi, e));
                        lemma_push_keeps_edge_exists(before, e, wi, hi);
                        assert(has_bottom_edge(edges@, wi, hi, i as int, j as int)) by {
                            assert(edges@[edges@.len() - 1] == e);
                            assert(is_bottom_edge(wi, hi, i as int, j as int, edges@[edges@.len()
                                - 1]));
                        }
                    }
                }
                proof {
                    assert forall|p: int| 0 <= p < edges@.len() implies (#[trigger] edges@[p]).n
                        < wi * i + (j + 1) by {}
                }
                j = j + 1;
            }
            proof {
                assert(wi * (i + 1) == wi * i + wi) by (nonlinear_arith);
            }
            i = i + 1;
        }
        proof {
            assert(edges_wf(edges@, node_count as int));
        }
        g.add_edges(edges);
        self.graph = g;
    }

    /// Oversegment the graph: sort the edges, then walk them in sorted
    /// order exactly once; for each edge resolve both endpoints' current
    /// roots, skip the edge when they already agree, and otherwise merge
    /// when the configured criterion says so. A single linear greedy pass —
    /// each merge strictly reduces the component count, so the count never
    /// increases. When the criterion merges across zero-weight edges and
    /// every edge weight is zero, the pass connects both endpoints of every
    /// edge.
    #[verifier::rlimit(60)]
    pub fn oversegment_graph(&mut self)
        requires
            old(self).graph.wf(),
            old(self).graph.edges@.len() > 0,
        ensures
            final(self).height == old(self).height,
            final(self).width == old(self).width,
            final(self).distance == old(self).distance,
            final(self).magic == old(self).magic,
            final(self).segment_size == old(self).segment_size,
            final(self).graph.wf(),
            final(self).graph.nodes@.len() == old(self).graph.nodes@.len(),
            final(self).graph.node_colors@ == old(self).graph.node_colors@,
            final(self).graph.edges@.to_multiset() == old(self).graph.edges@.to_multiset(),
            final(self).graph.edges@.len() == old(self).graph.edges@.len(),
            edges_sorted(final(self).graph.edges@),
            final(self).graph.spec_num_components() <= old(self).graph.spec_num_components(),
            final(self).graph.spec_num_components() >= 1,
            pass_agrees(
                oversegment_pass(
                    old(self).magic,
                    old(self).graph.nodes@,
                    final(self).graph.edges@,
                    final(self).graph.edges@.len() as int,
                ),
                final(self).graph.nodes@,
            ),
            nodes_linked(
                oversegment_pass(
                    old(self).magic,
                    old(self).graph.nodes@,
                    final(self).graph.edges@,
                    final(self).graph.edges@.len() as int,
                ),
            ),
            depth_wf(
                oversegment_pass(
                    old(self).magic,
                    old(self).graph.nodes@,
                    final(self).graph.edges@,
                    final(self).graph.edges@.len() as int,
                ),
                final(self).graph.depth@,
            ),
            old(self).uniform_zero_input() ==> forall|p: int|
                0 <= p < final(self).graph.edges@.len() ==> root_of(
                    final(self).graph.nodes@,
                    (#[trigger] final(self).graph.edges@[p]).n as int,
                ) == root_of(final(self).graph.nodes@, final(self).graph.edges@[p].m as int),
    {
        let ghost g0 = *self;
        proof {
            assert(self.graph.nodes@.len() > 0) by {
                assert(edges_wf(self.graph.edges@, self.graph.nodes@.len() as int));
                assert(self.graph.edges@[0].n < self.graph.nodes@.len());
            }
        }
        self.graph.sort_edges();
        let ghost zero_case = g0.uniform_zero_input();
        let ghost mut ms = g0.graph.nodes@;
        proof {
            lemma_multiset_same_elements(g0.graph.edges@, self.graph.edges@);
            lemma_agree_refl(ms);
            self.graph.lemma_wf_chain_ok();
        }
        let ghost sorted_edges = self.graph.edges@;
        let num = self.graph.num_edges();
        let mut e_i: usize = 0;
        while e_i < num
            invariant
                self.graph.wf(),
                self.height == g0.height,
                self.width == g0.width,
                self.distance == g0.distance,
                self.magic == g0.magic,
                self.segment_size == g0.segment_size,
                self.graph.nodes@.len() == g0.graph.nodes@.len(),
                self.graph.nodes@.len() > 0,
                self.graph.node_colors@ == g0.graph.node_colors@,
                self.graph.edges@ == sorted_edges,
                edges_sorted(sorted_edges),
                sorted_edges.to_multiset() == g0.graph.edges@.to_multiset(),
                sorted_edges.len() == g0.graph.edges@.len(),
                num == sorted_edges.len(),
                e_i <= num,
                self.graph.spec_num_components() <= g0.graph.spec_num_components(),
                ms == oversegment_pass(g0.magic, g0.graph.nodes@, sorted_edges, e_i as int),
                pass_agrees(ms, self.graph.nodes@),
                nodes_linked(ms),
                depth_wf(ms, self.graph.depth@),
                zero_case == g0.uniform_zero_input(),
                zero_case ==> merges_zero_weights(g0.magic),
                zero_case ==> (forall|p: int|
                    0 <= p < sorted_edges.len() ==> (#[trigger] sorted_edges[p]).w == 0),
                zero_case ==> (forall|x: int|
                    0 <= x < self.graph.nodes@.len() ==> (#[trigger] self.graph.nodes@[x]).max_w
                        == 0) && (forall|p: int|
                    0 <= p < e_i ==> root_of(
                        self.graph.nodes@,
                        (#[trigger] sorted_edges[p]).n as int,
                    ) == root_of(self.graph.nodes@, sorted_edges[p].m as int)),
            decreases num - e_i,
        {
            let edge = self.graph.edge_at(e_i);
            proof {
                assert(edges_wf(self.graph.edges@, self.graph.nodes@.len() as int));
                assert(edge.n < self.graph.nodes@.len() && edge.m < self.graph.nodes@.len());
            }
            let ghost ns_pre = self.graph.nodes@;
            let s_n_idx = self.graph.find_node_component_at(edge.n);
            let s_m_idx = self.graph.find_node_component_at(edge.m);
            proof {
                assert(root_of(self.graph.nodes@, edge.n as int) == s_n_idx);
                assert(root_of(self.graph.nodes@, edge.m as int) == s_m_idx);
                assert forall|x: int| 0 <= x < ns_pre.len() implies root_of(self.graph.nodes@, x)
                    == root_of(ns_pre, x) && (#[trigger] self.graph.nodes@[x]).n == ns_pre[x].n
                    && self.graph.nodes@[x].max_w == ns_pre[x].max_w && self.graph.nodes@[x].id
                    == ns_pre[x].id by {}
                lemma_agree_stable(ms, ns_pre, self.graph.nodes@);
                lemma_agree_at(ms, self.graph.nodes@, edge.n as int);
                lemma_agree_at(ms, self.graph.nodes@, edge.m as int);
                assert(root_of(ms, edge.n as int) == s_n_idx);
                assert(root_of(ms, edge.m as int) == s_m_idx);
            }
            if s_n_idx == s_m_idx {
                proof {
                    assert(oversegment_step(g0.magic, ms, edge) == ms);
                    ms = oversegment_step(g0.magic, ms, edge);
                    assert(ms == oversegment_pass(
                        g0.magic,
                        g0.graph.nodes@,
                        sorted_edges,
                        e_i + 1,
                    ));
                    if zero_case {
                        assert forall|p: int| 0 <= p < e_i + 1 implies root_of(
                            self.graph.nodes@,
                            (#[trigger] sorted_edges[p]).n as int,
                        ) == root_of(self.graph.nodes@, sorted_edges[p].m as int) by {}
                    }
                }
                e_i = e_i + 1;
                continue ;
            }
            let s_n = self.graph.node_at(s_n_idx);
            let s_m = self.graph.node_at(s_m_idx);
            proof {
                assert(s_n.id == s_n_idx && s_m.id == s_m_idx);
                lemma_agree_at(ms, self.graph.nodes@, s_n_idx as int);
                lemma_agree_at(ms, self.graph.nodes@, s_m_idx as int);
                assert(is_root(ms, s_n_idx as int) && is_root(ms, s_m_idx as int));
                assert(ms[s_n_idx as int] == s_n && ms[s_m_idx as int] == s_m);
            }
            let do_merge = self.magic.should_merge(&s_n, &s_m, &edge);
            let ghost ns1 = self.graph.nodes@;
            let ghost d1 = self.graph.depth@;
            if do_merge {
                self.graph.merge(s_n_idx, s_m_idx, &edge);
                proof {
                    let a = s_n_idx as int;
                    let b = s_m_idx as int;
                    let new_n = (ns1[a].n + ns1[b].n) as usize;
                    let new_w = max_weight(ns1[a].max_w, ns1[b].max_w, edge.w);
                    assert(self.graph.nodes@ == merged_nodes(ns1, a, b, new_n, new_w));
                    assert(self.graph.depth@ == d1.update(a, merge_depth(d1, a, b)));
                    assert(merge_depth(d1, a, b) < ns1.len()) by {
                        assert(self.graph.depth@[a] + self.graph.k <= self.graph.nodes@.len());
                    }
                    assert(chain_ok(ms, d1)) by {
                        lemma_agree_at(ms, ns1, 0);
                        assert forall|x: int|
                            0 <= x < ms.len() implies (#[trigger] ms[x]).id == x && ms[x].label
                            < ms.len() by {}
                    }
                    lemma_agree_after_merge(ms, ns1, d1, a, b, new_n, new_w, self.graph.depth@);
                    assert(oversegment_step(g0.magic, ms, edge) == merged_nodes(
                        ms,
                        a,
                        b,
                        new_n,
                        new_w,
                    ));
                    ms = oversegment_step(g0.magic, ms, edge);
                    assert(pass_agrees(ms, self.graph.nodes@));
                    assert(ms == oversegment_pass(
                        g0.magic,
                        g0.graph.nodes@,
                        sorted_edges,
                        e_i + 1,
                    ));
                }
            } else {
                proof {
                    assert(!g0.magic.spec_should_merge(ms[s_n_idx as int], ms[s_m_idx as int],
                        edge));
                    assert(oversegment_step(g0.magic, ms, edge) == ms);
                    ms = oversegment_step(g0.magic, ms, edge);
                    assert(ms == oversegment_pass(
                        g0.magic,
                        g0.graph.nodes@,
                        sorted_edges,
                        e_i + 1,
                    ));
                }
            }
            proof {
                if zero_case {
                    assert(edge.w == 0);
                    if !do_merge {
                        assert(s_n.max_w == 0 && s_m.max_w == 0 && s_n.n >= 1 && s_m.n >= 1);
                        assert(g0.magic.spec_should_merge(s_n, s_m, edge));
                        assert(false);
                    }
                    assert forall|x: int|
                        0 <= x < self.graph.nodes@.len() implies (
                    #[trigger] self.graph.nodes@[x]).max_w == 0 by {}
                    assert forall|p: int| 0 <= p < e_i + 1 implies root_of(
                        self.graph.nodes@,
                        (#[trigger] sorted_edges[p]).n as int,
                    ) == root_of(self.graph.nodes@, sorted_edges[p].m as int) by {}
                }
            }
            e_i = e_i + 1;
        }
        proof {
            assert(self.graph.spec_num_components() >= 1);
        }
    }

    /// Enforces the given minimum segment size: walk the edge list exactly
    /// once; for each edge resolve both endpoints' roots, and when they
    /// differ and either component is smaller than the minimum, merge
    /// unconditionally. Afterwards, both endpoints of every edge either
    /// share a component or sit in components that have reached the minimum
    /// size — root sizes only ever grow, so the guarantee survives the later
    /// merges of the same pass.
    pub fn enforce_minimum_segment_size(&mut self, segment_size: usize)
        requires
            old(self).graph.wf(),
            old(self).graph.nodes@.len() > 0,
        ensures
            final(self).height == old(self).height,
            final(self).width == old(self).width,
            final(self).distance == old(self).distance,
            final(self).magic == old(self).magic,
            final(self).segment_size == old(self).segment_size,
            final(self).graph.wf(),
            final(self).graph.nodes@.len() == old(self).graph.nodes@.len(),
            final(self).graph.node_colors@ == old(self).graph.node_colors@,
            final(self).graph.edges@ == old(self).graph.edges@,
            final(self).graph.spec_num_components() <= old(self).graph.spec_num_components(),
            final(self).graph.spec_num_components() >= 1,
            pass_agrees(
                enforce_pass(
                    old(self).graph.nodes@,
                    old(self).graph.edges@,
                    old(self).graph.edges@.len() as int,
                    segment_size as int,
                ),
                final(self).graph.nodes@,
            ),
            forall|p: int|
                0 <= p < final(self).graph.edges@.len() ==> root_of(
                    final(self).graph.nodes@,
                    (#[trigger] final(self).graph.edges@[p]).n as int,
                ) == root_of(final(self).graph.nodes@, final(self).graph.edges@[p].m as int) || (
                final(self).graph.nodes@[root_of(
                    final(self).graph.nodes@,
                    final(self).graph.edges@[p].n as int,
                )].n >= segment_size && final(self).graph.nodes@[root_of(
                    final(self).graph.nodes@,
                    final(self).graph.edges@[p].m as int,
                )].n >= segment_size),
    {
        let ghost g0 = *self;
        let ghost es = self.graph.edges@;
        let ghost mut ms = g0.graph.nodes@;
        proof {
            reveal(min_size_ok);
            assert(min_size_ok(self.graph.nodes@, es, 0, segment_size as int));
            lemma_agree_refl(ms);
            self.graph.lemma_wf_chain_ok();
        }
        let num = self.graph.num_edges();
        let mut e_i: usize = 0;
        while e_i < num
            invariant
                self.graph.wf(),
                self.height == g0.height,
                self.width == g0.width,
                self.distance == g0.distance,
                self.magic == g0.magic,
                self.segment_size == g0.segment_size,
                self.graph.nodes@.len() == g0.graph.nodes@.len(),
                self.graph.nodes@.len() > 0,
                self.graph.node_colors@ == g0.graph.node_colors@,
                self.graph.edges@ == es,
                es == g0.graph.edges@,
                num == es.len(),
                e_i <= num,
                self.graph.spec_num_components() <= g0.graph.spec_num_components(),
                min_size_ok(self.graph.nodes@, es, e_i as int, segment_size as int),
                ms == enforce_pass(g0.graph.nodes@, es, e_i as int, segment_size as int),
                pass_agrees(ms, self.graph.nodes@),
                nodes_linked(ms),
                depth_wf(ms, self.graph.depth@),
            decreases num - e_i,
        {
            let ghost gr0 = self.graph;
            let ghost ns0 = self.graph.nodes@;
            let edge = self.graph.edge_at(e_i);
            proof {
                assert(edges_wf(self.graph.edges@, self.graph.nodes@.len() as int));
                assert(edge.n < self.graph.nodes@.len() && edge.m < self.graph.nodes@.len());
            }
            let s_n_idx = self.graph.find_node_component_at(edge.n);
            let s_m_idx = self.graph.find_node_component_at(edge.m);
            proof {
                assert(root_of(self.graph.nodes@, edge.n as int) == s_n_idx);
                assert(root_of(self.graph.nodes@, edge.m as int) == s_m_idx);
                assert forall|x: int| 0 <= x < ns0.len() implies root_of(self.graph.nodes@, x)
                    == root_of(ns0, x) && (#[trigger] self.graph.nodes@[x]).n == ns0[x].n by {}
            }
            let ghost ns1 = self.graph.nodes@;
            proof {
                lemma_min_size_ok_stable(
                    ns0,
                    gr0.depth@,
                    ns1,
                    es,
                    e_i as int,
                    segment_size as int,
                );
                assert forall|x: int| 0 <= x < ns0.len() implies (
                #[trigger] self.graph.nodes@[x]).max_w == ns0[x].max_w
                    && self.graph.nodes@[x].id == ns0[x].id by {}
                lemma_agree_stable(ms, ns0, ns1);
                lemma_agree_at(ms, ns1, edge.n as int);
                lemma_agree_at(ms, ns1, edge.m as int);
                assert(root_of(ms, edge.n as int) == s_n_idx);
                assert(root_of(ms, edge.m as int) == s_m_idx);
            }
            if s_n_idx == s_m_idx {
                proof {
                    lemma_min_size_ok_extend(ns1, es, e_i as int, segment_size as int);
                    assert(enforce_step(ms, edge, segment_size as int) == ms);
                    ms = enforce_step(ms, edge, segment_size as int);
                    assert(ms == enforce_pass(g0.graph.nodes@, es, e_i + 1, segment_size as int));
                }
                e_i = e_i + 1;
                continue ;
            }
            let lhs = self.graph.node_at(s_n_idx);
            let rhs = self.graph.node_at(s_m_idx);
            proof {
                lemma_agree_at(ms, ns1, s_n_idx as int);
                lemma_agree_at(ms, ns1, s_m_idx as int);
                assert(is_root(ms, s_n_idx as int) && is_root(ms, s_m_idx as int));
                assert(ms[s_n_idx as int] == lhs && ms[s_m_idx as int] == rhs);
            }
            let segment_too_small = lhs.n < segment_size || rhs.n < segment_size;
            if segment_too_small {
                let ghost gr1 = self.graph;
                self.graph.merge(s_n_idx, s_m_idx, &edge);
                proof {
                    gr1.lemma_wf_chain_ok();
                    lemma_min_size_ok_merge(
                        ns1,
                        gr1.depth@,
                        self.graph.nodes@,
                        es,
                        e_i as int,
                        segment_size as int,
                        s_n_idx as int,
                        s_m_idx as int,
                    );
                    assert(root_of(self.graph.nodes@, edge.n as int) == s_n_idx as int);
                    assert(root_of(self.graph.nodes@, edge.m as int) == s_n_idx as int);
                    lemma_min_size_ok_extend(
                        self.graph.nodes@,
                        es,
                        e_i as int,
                        segment_size as int,
                    );
                    let a = s_n_idx as int;
                    let b = s_m_idx as int;
                    let new_n = (ns1[a].n + ns1[b].n) as usize;
                    let new_w = max_weight(ns1[a].max_w, ns1[b].max_w, edge.w);
                    assert(self.graph.nodes@ == merged_nodes(ns1, a, b, new_n, new_w));
                    assert(self.graph.depth@ == gr1.depth@.update(
                        a,
                        merge_depth(gr1.depth@, a, b),
                    ));
                    assert(merge_depth(gr1.depth@, a, b) < ns1.len()) by {
                        assert(self.graph.depth@[a] + self.graph.k <= self.graph.nodes@.len());
                    }
                    assert(chain_ok(ms, gr1.depth@)) by {
                        assert forall|x: int|
                            0 <= x < ms.len() implies (#[trigger] ms[x]).id == x && ms[x].label
                            < ms.len() by {}
                    }
                    lemma_agree_after_merge(
                        ms,
                        ns1,
                        gr1.depth@,
                        a,
                        b,
                        new_n,
                        new_w,
                        self.graph.depth@,
                    );
                    assert(enforce_step(ms, edge, segment_size as int) == merged_nodes(
                        ms,
                        a,
                        b,
                        new_n,
                        new_w,
                    ));
                    ms = enforce_step(ms, edge, segment_size as int);
                    assert(pass_agrees(ms, self.graph.nodes@));
                    assert(ms == enforce_pass(g0.graph.nodes@, es, e_i + 1, segment_size as int));
                }
            } else {
                proof {
                    assert(ns1[s_n_idx as int].n >= segment_size);
                    assert(ns1[s_m_idx as int].n >= segment_size);
                    assert(enforce_step(ms, edge, segment_size as int) == ms);
                    ms = enforce_step(ms, edge, segment_size as int);
                    assert(ms == enforce_pass(g0.graph.nodes@, es, e_i + 1, segment_size as int));
                    lemma_min_size_ok_extend(ns1, es, e_i as int, segment_size as int);
                }
            }
            e_i = e_i + 1;
        }
        proof {
            reveal(min_size_ok);
        }
    }

    /// Derive labels from the produced segmentation: for every pixel,
    /// resolve its component's root and write that root's node id into the
    /// output buffer at the same position. No node's resolved root changes;
    /// only query origins are path-compressed.
    pub fn derive_labels(&mut self) -> (labels: Vec<usize>)
        requires
            old(self).graph.wf(),
        ensures
            final(self).height == old(self).height,
            final(self).width == old(self).width,
            final(self).distance == old(self).distance,
            final(self).magic == old(self).magic,
            final(self).segment_size == old(self).segment_size,
            final(self).graph.wf(),
            final(self).graph.nodes@.len() == old(self).graph.nodes@.len(),
            final(self).graph.node_colors@ == old(self).graph.node_colors@,
            final(self).graph.edges@ == old(self).graph.edges@,
            final(self).graph.spec_num_components() == old(self).graph.spec_num_components(),
            forall|x: int|
                0 <= x < old(self).graph.nodes@.len() ==> root_of(final(self).graph.nodes@, x)
                    == root_of(old(self).graph.nodes@, x),
            forall|x: int|
                0 <= x < old(self).graph.nodes@.len() ==> (#[trigger] final(self).graph.nodes@[x]).n
                    == old(self).graph.nodes@[x].n && final(self).graph.nodes@[x].max_w == old(
                    self,
                ).graph.nodes@[x].max_w && final(self).graph.nodes@[x].id
                    == old(self).graph.nodes@[x].id,
            forall|j: int|
                0 <= j < old(self).graph.nodes@.len() ==> (is_root(final(self).graph.nodes@, j)
                    <==> is_root(old(self).graph.nodes@, j)),
            labels@.len() == final(self).graph.nodes@.len(),
            forall|x: int|
                0 <= x < labels@.len() ==> (#[trigger] labels@[x]) as int == root_of(
                    final(self).graph.nodes@,
                    x,
                ),
    {
        let ghost g0 = *self;
        let num = self.graph.num_nodes();
        let mut labels: Vec<usize> = Vec::new();
        let mut t: usize = 0;
        while t < num
            invariant
                self.graph.wf(),
                self.height == g0.height,
                self.width == g0.width,
                self.distance == g0.distance,
                self.magic == g0.magic,
                self.segment_size == g0.segment_size,
                self.graph.nodes@.len() == g0.graph.nodes@.len(),
                self.graph.node_colors@ == g0.graph.node_colors@,
                self.graph.edges@ == g0.graph.edges@,
                self.graph.spec_num_components() == g0.graph.spec_num_components(),
                num == self.graph.nodes@.len(),
                t <= num,
                forall|x: int|
                    0 <= x < num ==> root_of(self.graph.nodes@, x) == root_of(g0.graph.nodes@, x),
                forall|x: int|
                    0 <= x < num ==> (#[trigger] self.graph.nodes@[x]).n == g0.graph.nodes@[x].n
                        && self.graph.nodes@[x].max_w == g0.graph.nodes@[x].max_w
                        && self.graph.nodes@[x].id == g0.graph.nodes@[x].id,
                forall|j: int|
                    0 <= j < num ==> (is_root(self.graph.nodes@, j) <==> is_root(
                        g0.graph.nodes@,
                        j,
                    )),
                labels@.len() == t,
                forall|x: int|
                    0 <= x < t ==> (#[trigger] labels@[x]) as int == root_of(
                        self.graph.nodes@,
                        x,
                    ),
            decreases num - t,
        {
            let index = self.graph.find_node_component_at(t);
            let id = self.graph.node_id_at(index);
            labels.push(id);
            t = t + 1;
        }
        labels
    }

    /// Runs a whole segmentation: build the graph from the image,
    /// oversegment it along the weight-sorted edges, enforce the configured
    /// minimum segment size, and derive the per-pixel labels. Each label is
    /// the node id of its pixel's component root; exactly `num_components`
    /// distinct labels appear; and any two 4-adjacent pixels with different
    /// labels belong to components that have reached the configured minimum
    /// size.
    pub fn segment_image(&mut self, image: &Image) -> (result: SegmentationResult)
        requires
            image.wf(),
            image.height >= 1,
            image.width >= 1,
            image.height * image.width >= 2,
            image.height * image.width <= usize::MAX,
        ensures
            final(self).height == image.height,
            final(self).width == image.width,
            final(self).distance == old(self).distance,
            final(self).magic == old(self).magic,
            final(self).segment_size == old(self).segment_size,
            final(self).graph.wf(),
            final(self).graph.nodes@.len() == image.height * image.width,
            result.num_components == final(self).graph.spec_num_components(),
            1 <= result.num_components <= image.height * image.width,
            final(self).graph.node_colors@ == image.pixels@,
            edges_sorted(final(self).graph.edges@),
            forall|p: int|
                0 <= p < final(self).graph.edges@.len() ==> final(self).edge_ok(
                    #[trigger] final(self).graph.edges@[p],
                ),
            forall|p: int, q: int|
                0 <= p < q < final(self).graph.edges@.len() ==> !(final(self).graph.edges@[p].n
                    == final(self).graph.edges@[q].n && final(self).graph.edges@[p].m
                    == final(self).graph.edges@[q].m),
            forall|i: int, j: int|
                0 <= i < image.height && 0 <= j < image.width - 1 ==> #[trigger] has_right_edge(
                    final(self).graph.edges@,
                    image.width as int,
                    image.height as int,
                    i,
                    j,
                ),
            forall|i: int, j: int|
                0 <= i < image.height - 1 && 0 <= j < image.width ==> #[trigger] has_bottom_edge(
                    final(self).graph.edges@,
                    image.width as int,
                    image.height as int,
                    i,
                    j,
                ),
            pass_agrees(
                enforce_pass(
                    oversegment_pass(
                        old(self).magic,
                        init_nodes((image.height * image.width) as int),
                        final(self).graph.edges@,
                        final(self).graph.edges@.len() as int,
                    ),
                    final(self).graph.edges@,
                    final(self).graph.edges@.len() as int,
                    old(self).segment_size as int,
                ),
                final(self).graph.nodes@,
            ),
            result.segmentation@.len() == image.height * image.width,
            forall|x: int|
                0 <= x < result.segmentation@.len() ==> (#[trigger] result.segmentation@[x]) as int
                    == root_of(final(self).graph.nodes@, x) && is_root(
                    final(self).graph.nodes@,
                    result.segmentation@[x] as int,
                ) && result.segmentation@[x] < image.height * image.width,
            result.segmentation@.to_set().len() == result.num_components,
            forall|i: int, j: int|
                0 <= i < image.height && 0 <= j < image.width - 1 && #[trigger] label_at(
                    result.segmentation@,
                    image.width as int,
                    i,
                    j,
                ) != label_at(result.segmentation@, image.width as int, i, j + 1)
                    ==> final(self).graph.nodes@[label_at(
                    result.segmentation@,
                    image.width as int,
                    i,
                    j,
                ) as int].n >= old(self).segment_size && final(self).graph.nodes@[label_at(
                    result.segmentation@,
                    image.width as int,
                    i,
                    j + 1,
                ) as int].n >= old(self).segment_size,
            forall|i: int, j: int|
                0 <= i < image.height - 1 && 0 <= j < image.width && #[trigger] label_at(
                    result.segmentation@,
                    image.width as int,
                    i,
                    j,
                ) != label_at(result.segmentation@, image.width as int, i + 1, j)
                    ==> final(self).graph.nodes@[label_at(
                    result.segmentation@,
                    image.width as int,
                    i,
                    j,
                ) as int].n >= old(self).segment_size && final(self).graph.nodes@[label_at(
                    result.segmentation@,
                    image.width as int,
                    i + 1,
                    j,
                ) as int].n >= old(self).segment_size,
    {
        let ghost wi = image.width as int;
        let ghost hi = image.height as int;
        self.build_graph(image);
        let ghost gb = *self;
        proof {
            if image.width >= 2 {
                assert(has_right_edge(gb.graph.edges@, wi, hi, 0, 0));
                let p = choose|p: int|
                    0 <= p < gb.graph.edges@.len() && is_right_edge(
                        wi,
                        hi,
                        0,
                        0,
                        #[trigger] gb.graph.edges@[p],
                    );
                assert(gb.graph.edges@.len() > 0);
            } else {
                assert(image.width == 1);
                assert(hi * wi == hi) by (nonlinear_arith)
                    requires
                        wi == 1,
                ;
                assert(image.height >= 2);
                assert(has_bottom_edge(gb.graph.edges@, wi, hi, 0, 0));
                let p = choose|p: int|
                    0 <= p < gb.graph.edges@.len() && is_bottom_edge(
                        wi,
                        hi,
                        0,
                        0,
                        #[trigger] gb.graph.edges@[p],
                    );
                assert(gb.graph.edges@.len() > 0);
            }
        }
        self.oversegment_graph();
        let ghost go = *self;
        proof {
            lemma_multiset_same_elements(go.graph.edges@, gb.graph.edges@);
            lemma_coverage_transfer(go.graph.edges@, gb.graph.edges@, wi, hi);
            assert forall|p: int| 0 <= p < gb.graph.edges@.len() implies is_grid_edge(
                wi,
                hi,
                #[trigger] gb.graph.edges@[p],
            ) && gb.graph.edges@[p].n < gb.graph.edges@[p].m < image.pixels@.len() && (
            gb.graph.edges@[p].w as int == gb.distance.spec_distance(
                image.pixels@[gb.graph.edges@[p].n as int],
                image.pixels@[gb.graph.edges@[p].m as int],
            )) by {
                assert(gb.edge_ok(gb.graph.edges@[p]));
            }
            lemma_edge_characterization_transfer(
                gb.graph.edges@,
                go.graph.edges@,
                wi,
                hi,
                image.pixels@,
                gb.distance,
            );
        }
        let min_size = self.segment_size;
        self.enforce_minimum_segment_size(min_size);
        let ghost ge = *self;
        proof {
            assert(gb.graph.nodes@ =~= init_nodes((image.height * image.width) as int));
            let es_fin = go.graph.edges@;
            let len_e = es_fin.len() as int;
            let model_o = oversegment_pass(gb.magic, gb.graph.nodes@, es_fin, len_e);
            go.graph.lemma_wf_chain_ok();
            assert(chain_ok(model_o, go.graph.depth@)) by {
                assert(nodes_linked(model_o) && depth_wf(model_o, go.graph.depth@));
            }
            assert forall|i: int| 0 <= i < go.graph.depth@.len() implies #[trigger] go.graph
                .depth@[i] + root_count(go.graph.nodes@, go.graph.nodes@.len() as int) <= go.graph
                .nodes@.len() by {
                assert(go.graph.depth@[i] + go.graph.k <= go.graph.nodes@.len());
            }
            let _dr = lemma_enforce_pass_congruence(
                model_o,
                go.graph.nodes@,
                go.graph.depth@,
                es_fin,
                len_e,
                min_size as int,
            );
            lemma_agree_trans(
                enforce_pass(model_o, es_fin, len_e, min_size as int),
                enforce_pass(go.graph.nodes@, es_fin, len_e, min_size as int),
                ge.graph.nodes@,
            );
        }
        let labels = self.derive_labels();
        let num_components = self.graph.num_components();
        proof {
            let es_fin = go.graph.edges@;
            let len_e = es_fin.len() as int;
            let model_o = oversegment_pass(gb.magic, gb.graph.nodes@, es_fin, len_e);
            lemma_agree_stable(
                enforce_pass(model_o, es_fin, len_e, min_size as int),
                ge.graph.nodes@,
                self.graph.nodes@,
            );
            self.graph.lemma_wf_chain_ok();
            lemma_labels_are_roots(
                self.graph.nodes@,
                self.graph.depth@,
                labels@,
                self.graph.k as int,
            );
            let fin = self.graph.nodes@;
            let ens = ge.graph.nodes@;
            let es = ge.graph.edges@;
            assert forall|i: int, j: int|
                0 <= i < hi && 0 <= j < wi - 1 && #[trigger] label_at(labels@, wi, i, j)
                    != label_at(labels@, wi, i, j + 1) implies fin[label_at(
                labels@,
                wi,
                i,
                j,
            ) as int].n >= min_size && fin[label_at(labels@, wi, i, j + 1) as int].n
                >= min_size by {
                lemma_flat_index_in_range(hi, wi, i, j);
                lemma_flat_index_in_range(hi, wi, i, j + 1);
                assert(has_right_edge(es, wi, hi, i, j));
                let p = choose|p: int|
                    0 <= p < es.len() && is_right_edge(wi, hi, i, j, #[trigger] es[p]);
                assert(es[p].n == wi * i + j && es[p].m == wi * i + j + 1);
                ge.graph.lemma_wf_chain_ok();
                lemma_root_of_props(ens, ge.graph.depth@, es[p].n as int);
                lemma_root_of_props(ens, ge.graph.depth@, es[p].m as int);
                assert(root_of(fin, es[p].n as int) == root_of(ens, es[p].n as int));
                assert(root_of(fin, es[p].m as int) == root_of(ens, es[p].m as int));
            }
            assert forall|i: int, j: int|
                0 <= i < hi - 1 && 0 <= j < wi && #[trigger] label_at(labels@, wi, i, j)
                    != label_at(labels@, wi, i + 1, j) implies fin[label_at(
                labels@,
                wi,
                i,
                j,
            ) as int].n >= min_size && fin[label_at(labels@, wi, i + 1, j) as int].n
                >= min_size by {
                lemma_flat_index_in_range(hi, wi, i, j);
                lemma_flat_index_in_range(hi, wi, i + 1, j);
                assert(wi * (i + 1) + j == wi * i + j + wi) by (nonlinear_arith);
                assert(has_bottom_edge(es, wi, hi, i, j));
                let p = choose|p: int|
                    0 <= p < es.len() && is_bottom_edge(wi, hi, i, j, #[trigger] es[p]);
                assert(es[p].n == wi * i + j && es[p].m == wi * i + j + wi);
                ge.graph.lemma_wf_chain_ok();
                lemma_root_of_props(ens, ge.graph.depth@, es[p].n as int);
                lemma_root_of_props(ens, ge.graph.depth@, es[p].m as int);
                assert(root_of(fin, es[p].n as int) == root_of(ens, es[p].n as int));
                assert(root_of(fin, es[p].m as int) == root_of(ens, es[p].m as int));
            }
        }
        SegmentationResult { segmentation: labels, num_components }
    }

    /// An image whose pixels all share one color yields a graph on which
    /// oversegmentation provably merges everything: every edge weight is the
    /// metric's distance between identical colors, which is zero.
    pub proof fn lemma_uniform_image_zero_input(self)
        requires
            merges_zero_weights(self.magic),
            self.graph.node_colors@.len() > 0,
            forall|x: int|
                0 <= x < self.graph.node_colors@.len() ==> #[trigger] self.graph.node_colors@[x]
                    == self.graph.node_colors@[0],
            forall|p: int|
                0 <= p < self.graph.edges@.len() ==> self.edge_ok(
                    #[trigger] self.graph.edges@[p],
                ),
            forall|x: int|
                0 <= x < self.graph.nodes@.len() ==> (#[trigger] self.graph.nodes@[x]).max_w == 0,
        ensures
            self.uniform_zero_input(),
    {
        assert forall|p: int| 0 <= p < self.graph.edges@.len() implies (
        #[trigger] self.graph.edges@[p]).w == 0 by {
            let e = self.graph.edges@[p];
            assert(self.edge_ok(e));
            assert(self.graph.node_colors@[e.n as int] == self.graph.node_colors@[0]);
            assert(self.graph.node_colors@[e.m as int] == self.graph.node_colors@[0]);
            self.distance.lemma_metric_props(
                self.graph.node_colors@[0],
                self.graph.node_colors@[0],
            );
        }
    }
}

/// In a single-row image whose edges all connect pixels of one component —
/// as oversegmentation guarantees for a uniform image under a criterion
/// that merges across zero-weight edges — only one component remains.
pub proof fn lemma_uniform_row_one_component(g: ImageGraph, w: int)
    requires
        g.wf(),
        g.nodes@.len() == w,
        w >= 1,
        forall|c: int| 0 <= c < w - 1 ==> #[trigger] has_right_edge(g.edges@, w, 1, 0, c),
        forall|p: int|
            0 <= p < g.edges@.len() ==> root_of(g.nodes@, (#[trigger] g.edges@[p]).n as int)
                == root_of(g.nodes@, g.edges@[p].m as int),
    ensures
        g.spec_num_components() == 1,
{
    g.lemma_wf_chain_ok();
    let ns = g.nodes@;
    let d = g.depth@;
    assert forall|c: int| 0 <= c < w implies #[trigger] root_of(ns, c) == root_of(ns, 0) by {
        lemma_row_chain_root(g, w, c);
    }
    let r0 = root_of(ns, 0);
    lemma_root_of_props(ns, d, 0);
    assert(is_root(ns, r0));
    assert(0 <= r0 < w);
    assert forall|j: int| 0 <= j < w && is_root(ns, j) implies j == r0 by {
        lemma_root_of_props(ns, d, j);
        assert(root_of(ns, j) == j);
    }
    lemma_count_unique_root(ns, r0, w);
    lemma_count_ge1(ns, r0, w);
    assert(root_count(ns, w) == 1);
}

/// In a single-row image whose edges all connect same-component pixels,
/// every pixel resolves to the first pixel's root.
proof fn lemma_row_chain_root(g: ImageGraph, w: int, c: int)
    requires
        g.wf(),
        g.nodes@.len() == w,
        forall|cc: int| 0 <= cc < w - 1 ==> #[trigger] has_right_edge(g.edges@, w, 1, 0, cc),
        forall|p: int|
            0 <= p < g.edges@.len() ==> root_of(g.nodes@, (#[trigger] g.edges@[p]).n as int)
                == root_of(g.nodes@, g.edges@[p].m as int),
        0 <= c < w,
    ensures
        root_of(g.nodes@, c) == root_of(g.nodes@, 0),
    decreases c,
{
    if c > 0 {
        lemma_row_chain_root(g, w, c - 1);
        assert(has_right_edge(g.edges@, w, 1, 0, c - 1));
        let es = g.edges@;
        let p = choose|p: int| 0 <= p < es.len() && is_right_edge(w, 1, 0, c - 1, #[trigger] es[p]);
        assert(es[p].n == w * 0 + (c - 1) && es[p].m == w * 0 + (c - 1) + 1);
        assert(w * 0 == 0) by (nonlinear_arith);
        assert(es[p].n as int == c - 1 && es[p].m as int == c);
        assert(root_of(g.nodes@, c - 1) == root_of(g.nodes@, c));
    }
}


/// The edge set a build produces is a function of the image and the metric:
/// two edge sequences that are valid for the same grid and colors, free of
/// duplicate pixel pairs, and covering every adjacent pair hold exactly the
/// same edges. With the unique sorted order this pins the sorted edge
/// sequence of a run, which is what makes segmentation deterministic.
pub proof fn lemma_build_edges_unique<D: Distance>(
    a: Seq<ImageEdge>,
    b: Seq<ImageEdge>,
    w: int,
    h: int,
    colors: Seq<ImageNodeColor>,
    d: D,
)
    requires
        forall|p: int|
            0 <= p < a.len() ==> is_grid_edge(w, h, #[trigger] a[p]) && (a[p].w as int
                == d.spec_distance(colors[a[p].n as int], colors[a[p].m as int])),
        forall|p: int|
            0 <= p < b.len() ==> is_grid_edge(w, h, #[trigger] b[p]) && (b[p].w as int
                == d.spec_distance(colors[b[p].n as int], colors[b[p].m as int])),
        forall|p: int, q: int|
            0 <= p < q < a.len() ==> !(a[p].n == a[q].n && a[p].m == a[q].m),
        forall|p: int, q: int|
            0 <= p < q < b.len() ==> !(b[p].n == b[q].n && b[p].m == b[q].m),
        forall|i: int, j: int|
            0 <= i < h && 0 <= j < w - 1 ==> #[trigger] has_right_edge(a, w, h, i, j),
        forall|i: int, j: int|
            0 <= i < h && 0 <= j < w - 1 ==> #[trigger] has_right_edge(b, w, h, i, j),
        forall|i: int, j: int|
            0 <= i < h - 1 && 0 <= j < w ==> #[trigger] has_bottom_edge(a, w, h, i, j),
        forall|i: int, j: int|
            0 <= i < h - 1 && 0 <= j < w ==> #[trigger] has_bottom_edge(b, w, h, i, j),
    ensures
        a.to_multiset() == b.to_multiset(),
{
    broadcast use vstd::seq_lib::group_to_multiset_ensures;

    lemma_pinned_edges_contained(a, b, w, h, colors, d);
    lemma_pinned_edges_contained(b, a, w, h, colors, d);
    assert(a.no_duplicates()) by {
        assert forall|p: int, q: int|
            0 <= p < a.len() && 0 <= q < a.len() && p != q implies a[p] != a[q] by {}
    }
    assert(b.no_duplicates()) by {
        assert forall|p: int, q: int|
            0 <= p < b.len() && 0 <= q < b.len() && p != q implies b[p] != b[q] by {}
    }
    a.lemma_multiset_has_no_duplicates();
    b.lemma_multiset_has_no_duplicates();
    assert forall|x: ImageEdge| true implies #[trigger] a.to_multiset().count(x)
        == b.to_multiset().count(x) by {
        if a.contains(x) {
            assert(b.contains(x));
            assert(a.to_multiset().count(x) == 1 && b.to_multiset().count(x) == 1);
        } else if b.contains(x) {
            assert(a.contains(x));
        } else {
            assert(a.to_multiset().count(x) == 0) by {
                if a.to_multiset().count(x) > 0 {
                    assert(a.contains(x));
                }
            }
            assert(b.to_multiset().count(x) == 0) by {
                if b.to_multiset().count(x) > 0 {
                    assert(b.contains(x));
                }
            }
        }
    }
    assert(a.to_multiset() =~= b.to_multiset());
}

/// Every edge of a valid, covering edge sequence appears in any other
/// covering sequence for the same grid and colors: the pixel pair fixes the
/// endpoints and the colors fix the weight.
proof fn lemma_pinned_edges_contained<D: Distance>(
    a: Seq<ImageEdge>,
    b: Seq<ImageEdge>,
    w: int,
    h: int,
    colors: Seq<ImageNodeColor>,
    d: D,
)
    requires
        forall|p: int|
            0 <= p < a.len() ==> is_grid_edge(w, h, #[trigger] a[p]) && (a[p].w as int
                == d.spec_distance(colors[a[p].n as int], colors[a[p].m as int])),
        forall|p: int|
            0 <= p < b.len() ==> is_grid_edge(w, h, #[trigger] b[p]) && (b[p].w as int
                == d.spec_distance(colors[b[p].n as int], colors[b[p].m as int])),
        forall|i: int, j: int|
            0 <= i < h && 0 <= j < w - 1 ==> #[trigger] has_right_edge(b, w, h, i, j),
        forall|i: int, j: int|
            0 <= i < h - 1 && 0 <= j < w ==> #[trigger] has_bottom_edge(b, w, h, i, j),
    ensures
        forall|x: ImageEdge| a.contains(x) ==> #[trigger] b.contains(x),
{
    assert forall|x: ImageEdge| a.contains(x) implies #[trigger] b.contains(x) by {
        let p = choose|p: int| 0 <= p < a.len() && a[p] == x;
        assert(is_grid_edge(w, h, x));
        let (i, j): (int, int) = choose|i: int, j: int|
            is_right_edge(w, h, i, j, x) || is_bottom_edge(w, h, i, j, x);
        if is_right_edge(w, h, i, j, x) {
            assert(has_right_edge(b, w, h, i, j));
            let q = choose|q: int| 0 <= q < b.len() && is_right_edge(w, h, i, j, #[trigger] b[q]);
            assert(b[q].n == x.n && b[q].m == x.m);
            assert(b[q].w == x.w);
            assert(b[q] == x);
        } else {
            assert(has_bottom_edge(b, w, h, i, j));
            let q = choose|q: int| 0 <= q < b.len() && is_bottom_edge(w, h, i, j, #[trigger] b[q]);
            assert(b[q].n == x.n && b[q].m == x.m);
            assert(b[q].w == x.w);
            assert(b[q] == x);
        }
    }
}

/// Round-trip determinism, assembled: two runs over the same pixels with
/// the same metric, criterion and minimum size end with the same sorted
/// edge sequence and byte-identical label buffers. The hypotheses are
/// exactly what [`Segmentation::segment_image`] ensures of each run: sorted
/// edges valid for the image and covering every adjacency with no duplicate
/// pair, a final graph agreeing with the pass model over those edges, and
/// labels that resolve each pixel's root.
pub proof fn lemma_segmentation_deterministic<D: Distance, M: NodeMerging>(
    magic: M,
    d: D,
    pixels: Seq<ImageNodeColor>,
    w: int,
    h: int,
    n: int,
    min: int,
    es1: Seq<ImageEdge>,
    ns1: Seq<ImageNode>,
    labels1: Seq<usize>,
    es2: Seq<ImageEdge>,
    ns2: Seq<ImageNode>,
    labels2: Seq<usize>,
)
    requires
        edges_sorted(es1),
        edges_sorted(es2),
        forall|p: int|
            0 <= p < es1.len() ==> is_grid_edge(w, h, #[trigger] es1[p]) && (es1[p].w as int
                == d.spec_distance(pixels[es1[p].n as int], pixels[es1[p].m as int])),
        forall|p: int|
            0 <= p < es2.len() ==> is_grid_edge(w, h, #[trigger] es2[p]) && (es2[p].w as int
                == d.spec_distance(pixels[es2[p].n as int], pixels[es2[p].m as int])),
        forall|p: int, q: int|
            0 <= p < q < es1.len() ==> !(es1[p].n == es1[q].n && es1[p].m == es1[q].m),
        forall|p: int, q: int|
            0 <= p < q < es2.len() ==> !(es2[p].n == es2[q].n && es2[p].m == es2[q].m),
        forall|i: int, j: int|
            0 <= i < h && 0 <= j < w - 1 ==> #[trigger] has_right_edge(es1, w, h, i, j),
        forall|i: int, j: int|
            0 <= i < h && 0 <= j < w - 1 ==> #[trigger] has_right_edge(es2, w, h, i, j),
        forall|i: int, j: int|
            0 <= i < h - 1 && 0 <= j < w ==> #[trigger] has_bottom_edge(es1, w, h, i, j),
        forall|i: int, j: int|
            0 <= i < h - 1 && 0 <= j < w ==> #[trigger] has_bottom_edge(es2, w, h, i, j),
        pass_agrees(
            enforce_pass(
                oversegment_pass(magic, init_nodes(n), es1, es1.len() as int),
                es1,
                es1.len() as int,
                min,
            ),
            ns1,
        ),
        pass_agrees(
            enforce_pass(
                oversegment_pass(magic, init_nodes(n), es2, es2.len() as int),
                es2,
                es2.len() as int,
                min,
            ),
            ns2,
        ),
        labels1.len() == ns1.len(),
        labels2.len() == ns2.len(),
        ns1.len() == ns2.len(),
        forall|x: int| 0 <= x < labels1.len() ==> (#[trigger] labels1[x]) as int == root_of(ns1, x),
        forall|x: int| 0 <= x < labels2.len() ==> (#[trigger] labels2[x]) as int == root_of(ns2, x),
    ensures
        es1 == es2,
        labels1 == labels2,
{
    lemma_build_edges_unique(es1, es2, w, h, pixels, d);
    lemma_sorted_edges_unique(es1, es2);
    lemma_labels_determined(
        enforce_pass(
            oversegment_pass(magic, init_nodes(n), es1, es1.len() as int),
            es1,
            es1.len() as int,
            min,
        ),
        ns1,
        ns2,
        labels1,
        labels2,
    );
}

/// Two runs whose final graphs agree with one and the same model state
/// derive byte-identical label buffers: every label is the model's resolved
/// root of its pixel.
pub proof fn lemma_labels_determined(
    model: Seq<ImageNode>,
    ns1: Seq<ImageNode>,
    ns2: Seq<ImageNode>,
    labels1: Seq<usize>,
    labels2: Seq<usize>,
)
    requires
        pass_agrees(model, ns1),
        pass_agrees(model, ns2),
        labels1.len() == ns1.len(),
        labels2.len() == ns2.len(),
        forall|x: int| 0 <= x < labels1.len() ==> (#[trigger] labels1[x]) as int == root_of(ns1, x),
        forall|x: int| 0 <= x < labels2.len() ==> (#[trigger] labels2[x]) as int == root_of(ns2, x),
    ensures
        labels1 == labels2,
{
    reveal(pass_agrees);
    assert forall|x: int| 0 <= x < labels1.len() implies #[trigger] labels1[x] == labels2[x] by {
        assert(labels1[x] as int == root_of(model, x));
        assert(labels2[x] as int == root_of(model, x));
    }
    assert(labels1 =~= labels2);
}

/// The build characterization of an edge sequence — every edge a grid edge
/// with the metric's weight, and no two edges on the same pixel pair —
/// survives any rearrangement that keeps the same edges, such as sorting.
proof fn lemma_edge_characterization_transfer<D: Distance>(
    es_b: Seq<ImageEdge>,
    es_f: Seq<ImageEdge>,
    w: int,
    h: int,
    colors: Seq<ImageNodeColor>,
    d: D,
)
    requires
        es_b.to_multiset() == es_f.to_multiset(),
        forall|p: int|
            0 <= p < es_b.len() ==> is_grid_edge(w, h, #[trigger] es_b[p]) && es_b[p].n
                < es_b[p].m < colors.len() && (es_b[p].w as int == d.spec_distance(
                colors[es_b[p].n as int],
                colors[es_b[p].m as int],
            )),
        forall|p: int, q: int|
            0 <= p < q < es_b.len() ==> !(es_b[p].n == es_b[q].n && es_b[p].m == es_b[q].m),
    ensures
        forall|p: int|
            0 <= p < es_f.len() ==> is_grid_edge(w, h, #[trigger] es_f[p]) && es_f[p].n
                < es_f[p].m < colors.len() && (es_f[p].w as int == d.spec_distance(
                colors[es_f[p].n as int],
                colors[es_f[p].m as int],
            )),
        forall|p: int, q: int|
            0 <= p < q < es_f.len() ==> !(es_f[p].n == es_f[q].n && es_f[p].m == es_f[q].m),
{
    broadcast use vstd::seq_lib::group_to_multiset_ensures;

    lemma_multiset_same_elements(es_b, es_f);
    assert forall|p: int| 0 <= p < es_f.len() implies is_grid_edge(w, h, #[trigger] es_f[p])
        && es_f[p].n < es_f[p].m < colors.len() && (es_f[p].w as int == d.spec_distance(
        colors[es_f[p].n as int],
        colors[es_f[p].m as int],
    )) by {
        let q = choose|q: int| 0 <= q < es_b.len() && es_b[q] == es_f[p];
        assert(is_grid_edge(w, h, es_b[q]));
    }
    assert(es_b.no_duplicates()) by {
        assert forall|p: int, q: int|
            0 <= p < es_b.len() && 0 <= q < es_b.len() && p != q implies es_b[p] != es_b[q] by {
            if es_b[p] == es_b[q] {
                if p < q {
                    assert(!(es_b[p].n == es_b[q].n && es_b[p].m == es_b[q].m));
                } else {
                    assert(!(es_b[q].n == es_b[p].n && es_b[q].m == es_b[p].m));
                }
            }
        }
    }
    es_b.lemma_multiset_has_no_duplicates();
    es_f.lemma_multiset_has_no_duplicates_conv();
    assert forall|p: int, q: int| 0 <= p < q < es_f.len() implies !(es_f[p].n == es_f[q].n
        && es_f[p].m == es_f[q].m) by {
        if es_f[p].n == es_f[q].n && es_f[p].m == es_f[q].m {
            let p1 = choose|i: int| 0 <= i < es_b.len() && es_b[i] == es_f[p];
            let q1 = choose|i: int| 0 <= i < es_b.len() && es_b[i] == es_f[q];
            if p1 != q1 {
                if p1 < q1 {
                    assert(!(es_b[p1].n == es_b[q1].n && es_b[p1].m == es_b[q1].m));
                } else {
                    assert(!(es_b[q1].n == es_b[p1].n && es_b[q1].m == es_b[p1].m));
                }
            }
            assert(es_f[p] == es_f[q]);
        }
    }
}

/// Transferring grid-edge coverage from one edge sequence to another that
/// holds at least the same elements.
proof fn lemma_coverage_transfer(a: Seq<ImageEdge>, b: Seq<ImageEdge>, w: int, h: int)
    requires
        forall|p: int| 0 <= p < b.len() ==> a.contains(#[trigger] b[p]),
    ensures
        forall|i: int, j: int|
            has_right_edge(b, w, h, i, j) ==> #[trigger] has_right_edge(a, w, h, i, j),
        forall|i: int, j: int|
            has_bottom_edge(b, w, h, i, j) ==> #[trigger] has_bottom_edge(a, w, h, i, j),
{
    assert forall|i: int, j: int| has_right_edge(b, w, h, i, j) implies #[trigger] has_right_edge(
        a,
        w,
        h,
        i,
        j,
    ) by {
        let p = choose|p: int| 0 <= p < b.len() && is_right_edge(w, h, i, j, #[trigger] b[p]);
        assert(a.contains(b[p]));
        let q = choose|q: int| 0 <= q < a.len() && a[q] == b[p];
        assert(is_right_edge(w, h, i, j, a[q]));
    }
    assert forall|i: int, j: int| has_bottom_edge(b, w, h, i, j) implies #[trigger] has_bottom_edge(
        a,
        w,
        h,
        i,
        j,
    ) by {
        let p = choose|p: int| 0 <= p < b.len() && is_bottom_edge(w, h, i, j, #[trigger] b[p]);
        assert(a.contains(b[p]));
        let q = choose|q: int| 0 <= q < a.len() && a[q] == b[p];
        assert(is_bottom_edge(w, h, i, j, a[q]));
    }
}


/// [`min_size_ok`] survives an operation that changes no node's resolved
/// root and no node's size, such as path compression.
proof fn lemma_min_size_ok_stable(
    ns0: Seq<ImageNode>,
    d0: Seq<nat>,
    ns2: Seq<ImageNode>,
    es: Seq<ImageEdge>,
    upto: int,
    min: int,
)
    requires
        crate::graph::chain_ok(ns0, d0),
        edges_wf(es, ns0.len() as int),
        0 <= upto <= es.len(),
        min_size_ok(ns0, es, upto, min),
        ns2.len() == ns0.len(),
        forall|x: int| 0 <= x < ns0.len() ==> root_of(ns2, x) == root_of(ns0, x),
        forall|x: int| 0 <= x < ns0.len() ==> (#[trigger] ns2[x]).n == ns0[x].n,
    ensures
        min_size_ok(ns2, es, upto, min),
{
    reveal(min_size_ok);
    assert forall|p: int| 0 <= p < upto implies root_of(ns2, (#[trigger] es[p]).n as int)
        == root_of(ns2, es[p].m as int) || (ns2[root_of(ns2, es[p].n as int)].n >= min
        && ns2[root_of(ns2, es[p].m as int)].n >= min) by {
        if 0 <= p < es.len() {
            lemma_root_of_props(ns0, d0, es[p].n as int);
            lemma_root_of_props(ns0, d0, es[p].m as int);
        }
    }
}

/// [`min_size_ok`] survives a merge: components that agreed keep agreeing,
/// and no resolved root's size shrinks.
proof fn lemma_min_size_ok_merge(
    ns1: Seq<ImageNode>,
    d1: Seq<nat>,
    ns2: Seq<ImageNode>,
    es: Seq<ImageEdge>,
    upto: int,
    min: int,
    a: int,
    b: int,
)
    requires
        crate::graph::chain_ok(ns1, d1),
        edges_wf(es, ns1.len() as int),
        0 <= upto <= es.len(),
        min_size_ok(ns1, es, upto, min),
        ns2.len() == ns1.len(),
        forall|x: int|
            0 <= x < ns1.len() ==> root_of(ns2, x) == (if root_of(ns1, x) == b {
                a
            } else {
                root_of(ns1, x)
            }),
        forall|x: int|
            0 <= x < ns1.len() ==> ns2[root_of(ns2, x)].n >= ns1[#[trigger] root_of(ns1, x)].n,
    ensures
        min_size_ok(ns2, es, upto, min),
{
    reveal(min_size_ok);
    assert forall|p: int| 0 <= p < upto implies root_of(ns2, (#[trigger] es[p]).n as int)
        == root_of(ns2, es[p].m as int) || (ns2[root_of(ns2, es[p].n as int)].n >= min
        && ns2[root_of(ns2, es[p].m as int)].n >= min) by {
        if 0 <= p < es.len() {
            lemma_root_of_props(ns1, d1, es[p].n as int);
            lemma_root_of_props(ns1, d1, es[p].m as int);
        }
    }
}

/// [`min_size_ok`] extends by one edge once that edge's endpoints agree or
/// touch only components of sufficient size.
proof fn lemma_min_size_ok_extend(ns: Seq<ImageNode>, es: Seq<ImageEdge>, upto: int, min: int)
    requires
        min_size_ok(ns, es, upto, min),
        0 <= upto < es.len(),
        root_of(ns, es[upto].n as int) == root_of(ns, es[upto].m as int) || (ns[root_of(
            ns,
            es[upto].n as int,
        )].n >= min && ns[root_of(ns, es[upto].m as int)].n >= min),
    ensures
        min_size_ok(ns, es, upto + 1, min),
{
    reveal(min_size_ok);
}

/// Two edge sequences holding the same edges (as a multiset) hold the same
/// elements: every edge of one appears somewhere in the other.
proof fn lemma_multiset_same_elements(a: Seq<ImageEdge>, b: Seq<ImageEdge>)
    requires
        a.to_multiset() == b.to_multiset(),
    ensures
        forall|p: int| 0 <= p < b.len() ==> a.contains(#[trigger] b[p]),
{
    broadcast use vstd::seq_lib::group_to_multiset_ensures;

    assert forall|p: int| 0 <= p < b.len() implies a.contains(#[trigger] b[p]) by {
        assert(b.contains(b[p]));
        assert(b.to_multiset().count(b[p]) > 0);
        assert(a.to_multiset().count(b[p]) > 0);
    }
}

/// Pushing an edge keeps every grid-edge witness that the sequence already
/// holds.
proof fn lemma_push_keeps_edge_exists(before: Seq<ImageEdge>, e: ImageEdge, w: int, h: int)
    ensures
        forall|ii: int, jj: int|
            has_right_edge(before, w, h, ii, jj) ==> #[trigger] has_right_edge(
                before.push(e),
                w,
                h,
                ii,
                jj,
            ),
        forall|ii: int, jj: int|
            has_bottom_edge(before, w, h, ii, jj) ==> #[trigger] has_bottom_edge(
                before.push(e),
                w,
                h,
                ii,
                jj,
            ),
{
    assert forall|ii: int, jj: int| has_right_edge(before, w, h, ii, jj) implies #[trigger]
    has_right_edge(before.push(e), w, h, ii, jj) by {
        let p = choose|p: int| 0 <= p < before.len() && is_right_edge(w, h, ii, jj, #[trigger] before[p]);
        assert(before.push(e)[p] == before[p]);
        assert(is_right_edge(w, h, ii, jj, before.push(e)[p]));
    }
    assert forall|ii: int, jj: int| has_bottom_edge(before, w, h, ii, jj) implies #[trigger]
    has_bottom_edge(before.push(e), w, h, ii, jj) by {
        let p = choose|p: int| 0 <= p < before.len() && is_bottom_edge(w, h, ii, jj, #[trigger] before[p]);
        assert(before.push(e)[p] == before[p]);
        assert(is_bottom_edge(w, h, ii, jj, before.push(e)[p]));
    }
}

} // verus!
