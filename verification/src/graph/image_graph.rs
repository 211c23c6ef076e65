use vstd::prelude::*;

use crate::graph::component::{
    chain_ok, depth_wf, depths_lt, is_root, lemma_compress_roots, lemma_count_all_roots,
    lemma_count_ge2, lemma_count_pointwise, lemma_count_remove_one, lemma_merge_roots,
    lemma_root_of_props, lemma_sum_all_one, lemma_sum_lower2, lemma_sum_merge,
    lemma_sum_pointwise, merge_depth, merged_nodes, nodes_linked, root_count, root_of, size_sum,
    sizes_pos,
};
use crate::graph::image_edge::{edge_le, edge_le_exec, edges_sorted, ImageEdge};
use crate::graph::image_node::{ImageNode, ImageNodeColor};

verus! {

/// All edge endpoints are in range and no edge is a self-loop.
pub open spec fn edges_wf(es: Seq<ImageEdge>, n: int) -> bool {
    forall|i: int|
        0 <= i < es.len() ==> (#[trigger] es[i]).n < n && es[i].m < n && es[i].n != es[i].m
}

/// The maximum of two components' internal weights and the weight of the
/// edge that merges them: the absorbing root's new maximum internal weight.
pub open spec fn max_weight(a: u64, b: u64, c: u64) -> u64 {
    if a >= b && a >= c {
        a
    } else if b >= c {
        b
    } else {
        c
    }
}

/// Represents an image graph, consisting of one node per pixel which are
/// 4-connected. The nodes form a union-find structure whose invariant is
/// [`ImageGraph::wf`]; the ghost `depth` sequence witnesses that the parent
/// pointers are acyclic.
pub struct ImageGraph {
    /// Number of components.
    pub k: usize,
    /// All nodes in this graph.
    pub nodes: Vec<ImageNode>,
    /// The color of each node, in a parallel array.
    pub node_colors: Vec<ImageNodeColor>,
    /// All edges in this graph.
    pub edges: Vec<ImageEdge>,
    /// Ghost witness for the acyclicity of the parent pointers: the depth
    /// strictly increases along every `label` step.
    pub depth: Ghost<Seq<nat>>,
}

impl ImageGraph {
    /// The nodes as a sequence, for specifications.
    pub open spec fn nodes_seq(self) -> Seq<ImageNode> {
        self.nodes@
    }

    /// The node colors as a sequence, for specifications.
    pub open spec fn colors_seq(self) -> Seq<ImageNodeColor> {
        self.node_colors@
    }

    /// The edges as a sequence, for specifications.
    pub open spec fn edges_seq(self) -> Seq<ImageEdge> {
        self.edges@
    }

    /// The component count, for specifications.
    pub open spec fn spec_num_components(self) -> int {
        self.k as int
    }

    /// The well-formedness invariant of the graph: ids equal indices, parent
    /// pointers stay in range and are acyclic (witnessed by the ghost
    /// depths), the component count equals the number of roots, and the root
    /// sizes total the node count.
    pub open spec fn wf(self) -> bool {
        let ns = self.nodes@;
        let d = self.depth@;
        &&& self.node_colors@.len() == ns.len()
        &&& nodes_linked(ns)
        &&& sizes_pos(ns)
        &&& depth_wf(ns, d)
        &&& forall|i: int| 0 <= i < ns.len() ==> #[trigger] d[i] + self.k <= ns.len()
        &&& (ns.len() > 0 ==> self.k >= 1)
        &&& self.k == root_count(ns, ns.len() as int)
        &&& size_sum(ns, ns.len() as int) == ns.len()
        &&& edges_wf(self.edges@, ns.len() as int)
    }

    /// The chain invariants of the node array, as the `root_of` lemmas
    /// expect them.
    pub proof fn lemma_wf_chain_ok(self)
        requires
            self.wf(),
        ensures
            chain_ok(self.nodes@, self.depth@),
    {
        assert(depths_lt(self.depth@, self.nodes@.len() as int)) by {
            if self.nodes@.len() > 0 {
                assert forall|i: int| 0 <= i < self.depth@.len() implies #[trigger] self.depth@[i]
                    < self.nodes@.len() by {
                    assert(self.depth@[i] + self.k <= self.nodes@.len());
                }
            }
        }
    }

    /// Constructs an image graph with the given exact number of nodes. Every
    /// node starts as a root of size one with weight zero and a default
    /// (black) color; the edge list starts empty.
    pub fn new_with_nodes(n: usize) -> (g: ImageGraph)
        ensures
            g.wf(),
            g.nodes@.len() == n,
            g.node_colors@.len() == n,
            g.edges@.len() == 0,
            g.spec_num_components() == n,
            forall|i: int|
                0 <= i < n ==> g.nodes@[i] == (ImageNode {
                    label: i as usize,
                    n: 1usize,
                    id: i as usize,
                    max_w: 0u64,
                }),
    {
        let mut nodes: Vec<ImageNode> = Vec::new();
        let mut node_colors: Vec<ImageNodeColor> = Vec::new();
        let mut i: usize = 0;
        while i < n
            invariant
                i <= n,
                nodes@.len() == i,
                node_colors@.len() == i,
                forall|j: int|
                    0 <= j < i ==> nodes@[j] == (ImageNode {
                        label: j as usize,
                        n: 1usize,
                        id: j as usize,
                        max_w: 0u64,
                    }),
            decreases n - i,
        {
            nodes.push(ImageNode { label: i, n: 1, id: i, max_w: 0 });
            node_colors.push(ImageNodeColor { b: 0, g: 0, r: 0 });
            i = i + 1;
        }
        let g = ImageGraph {
            k: n,
            nodes,
            node_colors,
            edges: Vec::new(),
            depth: Ghost(Seq::new(n as nat, |j: int| 0nat)),
        };
        proof {
            assert forall|j: int| 0 <= j < n implies is_root(g.nodes@, j) && (
            #[trigger] g.nodes@[j]).n == 1 by {}
            lemma_count_all_roots(g.nodes@, n as int);
            lemma_sum_all_one(g.nodes@, n as int);
        }
        g
    }

    /// Resets the image graph to the given exact number of fresh nodes,
    /// clearing all edges.
    pub fn reset(&mut self, n: usize)
        ensures
            final(self).wf(),
            final(self).nodes@.len() == n,
            final(self).node_colors@.len() == n,
            final(self).edges@.len() == 0,
            final(self).spec_num_components() == n,
            forall|i: int|
                0 <= i < n ==> final(self).nodes@[i] == (ImageNode {
                    label: i as usize,
                    n: 1usize,
                    id: i as usize,
                    max_w: 0u64,
                }),
    {
        *self = ImageGraph::new_with_nodes(n);
    }

    /// Get the number of nodes.
    pub fn num_nodes(&self) -> (r: usize)
        ensures
            r == self.nodes@.len(),
    {
        self.nodes.len()
    }

    /// Get the number of edges.
    pub fn num_edges(&self) -> (r: usize)
        ensures
            r == self.edges@.len(),
    {
        self.edges.len()
    }

    /// Get the number of connected components.
    pub fn num_components(&self) -> (r: usize)
        ensures
            r == self.spec_num_components(),
    {
        self.k
    }

    /// Get a copy of the n-th node.
    pub fn node_at(&self, n: usize) -> (r: ImageNode)
        requires
            n < self.nodes@.len(),
        ensures
            r == self.nodes@[n as int],
    {
        self.nodes[n]
    }

    /// Get a copy of the n-th node's color.
    pub fn node_color_at(&self, n: usize) -> (r: ImageNodeColor)
        requires
            n < self.node_colors@.len(),
        ensures
            r == self.node_colors@[n as int],
    {
        self.node_colors[n]
    }

    /// Set the n-th node's color.
    pub fn set_node_color(&mut self, n: usize, color: ImageNodeColor)
        requires
            old(self).wf(),
            n < old(self).node_colors@.len(),
        ensures
            final(self).wf(),
            final(self).node_colors@ == old(self).node_colors@.update(n as int, color),
            final(self).nodes@ == old(self).nodes@,
            final(self).edges@ == old(self).edges@,
            final(self).spec_num_components() == old(self).spec_num_components(),
    {
        self.node_colors[n] = color;
    }

    /// Get the ID of the n-th node, which always equals `n` itself.
    pub fn node_id_at(&self, n: usize) -> (r: usize)
        requires
            self.wf(),
            n < self.nodes@.len(),
        ensures
            r == n,
    {
        let id = self.nodes[n].id;
        id
    }

    /// Gets a copy of the n-th edge.
    pub fn edge_at(&self, n: usize) -> (r: ImageEdge)
        requires
            n < self.edges@.len(),
        ensures
            r == self.edges@[n as int],
    {
        self.edges[n]
    }

    /// Add new edges. The endpoints must be distinct in-range node indices;
    /// this is the caller's responsibility — the graph is an internal
    /// collaborator, not a public-facing boundary.
    pub fn add_edges(&mut self, edges: Vec<ImageEdge>)
        requires
            old(self).wf(),
            edges_wf(edges@, old(self).nodes@.len() as int),
        ensures
            final(self).wf(),
            final(self).edges@ == old(self).edges@ + edges@,
            final(self).nodes@ == old(self).nodes@,
            final(self).node_colors@ == old(self).node_colors@,
            final(self).spec_num_components() == old(self).spec_num_components(),
    {
        let mut i: usize = 0;
        let ghost orig = self.edges@;
        while i < edges.len()
            invariant
                i <= edges@.len(),
                self.edges@ == orig + edges@.subrange(0, i as int),
                edges_wf(edges@, self.nodes@.len() as int),
                self.wf(),
                self.nodes@ == old(self).nodes@,
                self.node_colors@ == old(self).node_colors@,
                self.k == old(self).k,
                orig == old(self).edges@,
            decreases edges@.len() - i,
        {
            let e = edges[i];
            self.edges.push(e);
            proof {
                assert(self.edges@ =~= orig + edges@.subrange(0, i + 1));
            }
            i = i + 1;
        }
        proof {
            assert(edges@.subrange(0, edges@.len() as int) =~= edges@);
        }
    }

    /// Resolves the current root of the component containing node `index`
    /// by walking the `label` chain, then — as a single-step optimization —
    /// overwrites the queried node's own `label` with the discovered root id.
    /// Only the query origin is shortened; intermediate nodes on the path are
    /// left as they are. No node's resolved root changes.
    ///
    /// Calling it twice in a row on the same index returns the same id both
    /// times, and the second call mutates nothing: after the first call the
    /// origin's `label` already holds the root id.
    pub fn find_node_component_at(&mut self, index: usize) -> (r: usize)
        requires
            old(self).wf(),
            index < old(self).nodes@.len(),
        ensures
            final(self).wf(),
            r < final(self).nodes@.len(),
            r as int == root_of(old(self).nodes@, index as int),
            is_root(final(self).nodes@, r as int),
            final(self).nodes@ == old(self).nodes@.update(
                index as int,
                ImageNode {
                    label: r,
                    n: old(self).nodes@[index as int].n,
                    id: old(self).nodes@[index as int].id,
                    max_w: old(self).nodes@[index as int].max_w,
                },
            ),
            old(self).nodes@[index as int].label == r ==> final(self).nodes@ == old(self).nodes@,
            forall|x: int|
                0 <= x < old(self).nodes@.len() ==> root_of(final(self).nodes@, x) == root_of(
                    old(self).nodes@,
                    x,
                ),
            forall|j: int|
                0 <= j < old(self).nodes@.len() ==> (is_root(final(self).nodes@, j) <==> is_root(
                    old(self).nodes@,
                    j,
                )),
            final(self).k == old(self).k,
            final(self).edges@ == old(self).edges@,
            final(self).node_colors@ == old(self).node_colors@,
            final(self).depth@ == old(self).depth@,
    {
        let ghost ns0 = self.nodes@;
        let ghost d0 = self.depth@;
        proof {
            self.lemma_wf_chain_ok();
            lemma_root_of_props(ns0, d0, index as int);
        }
        let mut l = self.nodes[index].label;
        if l == index {
            proof {
                assert(is_root(ns0, index as int));
                assert(root_of(ns0, index as int) == index);
                assert(ns0 =~= ns0.update(
                    index as int,
                    ImageNode {
                        label: index,
                        n: ns0[index as int].n,
                        id: ns0[index as int].id,
                        max_w: ns0[index as int].max_w,
                    },
                ));
            }
            return index;
        }
        let ghost s0 = *self;
        while self.nodes[l].label != l
            invariant
                *self == s0,
                self.wf(),
                l < self.nodes@.len(),
                root_of(self.nodes@, l as int) == root_of(ns0, index as int),
                ns0 == self.nodes@,
                d0 == self.depth@,
            decreases self.nodes@.len() - self.depth@[l as int],
        {
            proof {
                self.lemma_wf_chain_ok();
                lemma_root_of_props(self.nodes@, self.depth@, l as int);
            }
            l = self.nodes[l].label;
        }
        proof {
            assert(is_root(ns0, l as int));
            lemma_root_of_props(ns0, d0, l as int);
            assert(l as int == root_of(ns0, index as int));
        }
        let mut node = self.nodes[index];
        node.label = l;
        self.nodes[index] = node;
        proof {
            lemma_compress_roots(ns0, d0, index as int, self.nodes@);
            lemma_count_pointwise(ns0, self.nodes@, ns0.len() as int);
            lemma_sum_pointwise(ns0, self.nodes@, ns0.len() as int);
        }
        l
    }

    /// Merge two components, given by two **distinct root** nodes `s_n` and
    /// `s_m` and the edge connecting them. The first node structurally
    /// absorbs the second: `s_m`'s label is pointed at `s_n`, `s_n`
    /// accumulates the combined size and the maximum internal weight, and the
    /// component count drops by one. Every node that resolved to `s_m` now
    /// resolves to `s_n`; no other node's root changes, and no resolved
    /// root's size shrinks.
    pub fn merge(&mut self, s_n: usize, s_m: usize, e: &ImageEdge)
        requires
            old(self).wf(),
            s_n < old(self).nodes@.len(),
            s_m < old(self).nodes@.len(),
            s_n != s_m,
            is_root(old(self).nodes@, s_n as int),
            is_root(old(self).nodes@, s_m as int),
        ensures
            final(self).wf(),
            final(self).spec_num_components() == old(self).spec_num_components() - 1,
            final(self).nodes@ == merged_nodes(
                old(self).nodes@,
                s_n as int,
                s_m as int,
                (old(self).nodes@[s_n as int].n + old(self).nodes@[s_m as int].n) as usize,
                max_weight(
                    old(self).nodes@[s_n as int].max_w,
                    old(self).nodes@[s_m as int].max_w,
                    e.w,
                ),
            ),
            final(self).nodes@.len() == old(self).nodes@.len(),
            forall|j: int|
                0 <= j < old(self).nodes@.len() ==> (is_root(final(self).nodes@, j) <==> is_root(
                    old(self).nodes@,
                    j,
                ) && j != s_m),
            forall|x: int|
                0 <= x < old(self).nodes@.len() ==> root_of(final(self).nodes@, x) == (if root_of(
                    old(self).nodes@,
                    x,
                ) == s_m {
                    s_n as int
                } else {
                    root_of(old(self).nodes@, x)
                }),
            forall|x: int|
                0 <= x < old(self).nodes@.len() ==> final(self).nodes@[root_of(
                    final(self).nodes@,
                    x,
                )].n >= old(self).nodes@[root_of(old(self).nodes@, x)].n,
            final(self).depth@ == old(self).depth@.update(
                s_n as int,
                merge_depth(old(self).depth@, s_n as int, s_m as int),
            ),
            final(self).edges@ == old(self).edges@,
            final(self).node_colors@ == old(self).node_colors@,
    {
        let ghost ns0 = self.nodes@;
        let ghost d0 = self.depth@;
        let ghost len = ns0.len() as int;
        proof {
            self.lemma_wf_chain_ok();
            if s_n < s_m {
                lemma_count_ge2(ns0, s_n as int, s_m as int, len);
                lemma_sum_lower2(ns0, s_n as int, s_m as int, len);
            } else {
                lemma_count_ge2(ns0, s_m as int, s_n as int, len);
                lemma_sum_lower2(ns0, s_m as int, s_n as int, len);
            }
        }
        let n_nodes = self.nodes.len();
        let lhs = self.nodes[s_n];
        let rhs = self.nodes[s_m];
        let mut new_rhs = rhs;
        new_rhs.label = lhs.id;
        let mut new_lhs = lhs;
        proof {
            assert(lhs.n + rhs.n <= size_sum(ns0, len));
            assert(size_sum(ns0, len) == len == n_nodes);
        }
        new_lhs.n = lhs.n + rhs.n;
        let mut mw = lhs.max_w;
        if rhs.max_w > mw {
            mw = rhs.max_w;
        }
        if e.w > mw {
            mw = e.w;
        }
        new_lhs.max_w = mw;
        self.nodes[s_m] = new_rhs;
        self.nodes[s_n] = new_lhs;
        self.k = self.k - 1;
        proof {
            self.depth@ = d0.update(s_n as int, merge_depth(d0, s_n as int, s_m as int));
        }
        proof {
            assert(self.nodes@ == merged_nodes(
                ns0,
                s_n as int,
                s_m as int,
                new_lhs.n,
                new_lhs.max_w,
            ));
            assert(merge_depth(d0, s_n as int, s_m as int) < len) by {
                assert(d0[s_n as int] + old(self).k <= len);
                assert(d0[s_m as int] + old(self).k <= len);
            }
            lemma_merge_roots(
                ns0,
                d0,
                s_n as int,
                s_m as int,
                new_lhs.n,
                new_lhs.max_w,
                self.nodes@,
                self.depth@,
            );
            lemma_count_remove_one(ns0, self.nodes@, s_m as int, len);
            lemma_sum_merge(ns0, self.nodes@, s_n as int, s_m as int, len);
            assert forall|x: int| 0 <= x < len implies self.nodes@[root_of(self.nodes@, x)].n
                >= ns0[root_of(ns0, x)].n by {
                lemma_root_of_props(ns0, d0, x);
            }
        }
    }

    /// Sorts the edges ascending by weight, breaking ties deterministically
    /// by the smaller endpoint id and then the larger one. The order
    /// [`edge_le`] is total, so the sorted sequence is unique and every run
    /// over the same image processes edges identically.
    pub fn sort_edges(&mut self)
        requires
            old(self).wf(),
        ensures
            final(self).wf(),
            edges_sorted(final(self).edges@),
            final(self).edges@.to_multiset() == old(self).edges@.to_multiset(),
            final(self).edges@.len() == old(self).edges@.len(),
            final(self).nodes@ == old(self).nodes@,
            final(self).node_colors@ == old(self).node_colors@,
            final(self).depth@ == old(self).depth@,
            final(self).spec_num_components() == old(self).spec_num_components(),
    {
        let ghost es0 = self.edges@;
        let ghost g0 = *self;
        let n = self.edges.len();
        if n <= 1 {
            return;
        }
        let mut i: usize = 1;
        while i < n
            invariant
                1 <= i <= n,
                n == self.edges@.len(),
                self.nodes@ == g0.nodes@,
                self.node_colors@ == g0.node_colors@,
                self.depth@ == g0.depth@,
                self.k == g0.k,
                g0.wf(),
                es0 == g0.edges@,
                self.edges@.to_multiset() == es0.to_multiset(),
                edges_wf(self.edges@, self.nodes@.len() as int),
                forall|x: int, y: int| 0 <= x < y < i ==> edge_le(self.edges@[x], self.edges@[y]),
            decreases n - i,
        {
            let mut j = i;
            while j > 0 && !edge_le_exec(&self.edges[j - 1], &self.edges[j])
                invariant
                    0 <= j <= i < n,
                    n == self.edges@.len(),
                    self.nodes@ == g0.nodes@,
                    self.node_colors@ == g0.node_colors@,
                    self.depth@ == g0.depth@,
                    self.k == g0.k,
                    self.edges@.to_multiset() == es0.to_multiset(),
                    edges_wf(self.edges@, self.nodes@.len() as int),
                    forall|x: int, y: int|
                        0 <= x < y <= i && y != j ==> edge_le(self.edges@[x], self.edges@[y]),
                decreases j,
            {
                let ghost before = self.edges@;
                let a = self.edges[j - 1];
                let b = self.edges[j];
                self.edges[j - 1] = b;
                self.edges[j] = a;
                proof {
                    broadcast use vstd::seq_lib::to_multiset_update;
                    broadcast use vstd::seq_lib::group_to_multiset_ensures;
                    broadcast use vstd::multiset::group_multiset_axioms;

                    let jj = j as int;
                    let s1 = before.update(jj - 1, b);
                    let s2 = s1.update(jj, a);
                    assert(self.edges@ == s2);
                    assert(s1.to_multiset() == before.to_multiset().insert(b).remove(
                        before[jj - 1],
                    ));
                    assert(s2.to_multiset() == s1.to_multiset().insert(a).remove(s1[jj]));
                    assert(s1[jj] == before[jj]);
                    assert(before.to_multiset().count(a) > 0) by {
                        assert(before.contains(a));
                    }
                    assert(self.edges@.to_multiset() =~= before.to_multiset());
                    assert forall|x: int, y: int|
                        0 <= x < y <= i && y != jj - 1 implies edge_le(
                        self.edges@[x],
                        self.edges@[y],
                    ) by {
                        if y == jj {
                            if x == jj - 1 {
                                assert(!edge_le(before[jj - 1], before[jj]));
                            } else {
                                assert(edge_le(before[x], before[jj - 1]));
                            }
                        } else if x == jj - 1 {
                            assert(edge_le(before[jj], before[y]));
                        } else if x == jj {
                            assert(edge_le(before[jj - 1], before[y]));
                        } else {
                            assert(edge_le(before[x], before[y]));
                        }
                    }
                }
                j = j - 1;
            }
            proof {
                assert forall|x: int, y: int| 0 <= x < y <= i implies edge_le(
                    self.edges@[x],
                    self.edges@[y],
                ) by {
                    if y == j && j > 0 {
                        assert(edge_le(self.edges@[j as int - 1], self.edges@[j as int]));
                        if x < j as int - 1 {
                            assert(edge_le(self.edges@[x], self.edges@[j as int - 1]));
                        }
                    }
                }
            }
            i = i + 1;
        }
        proof {
            broadcast use vstd::seq_lib::group_to_multiset_ensures;

            assert(self.edges@.len() == self.edges@.to_multiset().len());
            assert(es0.len() == es0.to_multiset().len());
        }
    }

    /// Removes all edges.
    pub fn clear_edges(&mut self)
        requires
            old(self).wf(),
        ensures
            final(self).wf(),
            final(self).edges@.len() == 0,
            final(self).nodes@ == old(self).nodes@,
            final(self).node_colors@ == old(self).node_colors@,
            final(self).spec_num_components() == old(self).spec_num_components(),
    {
        self.edges.clear();
    }
}

} // verus!
