//! The mathematical model of the union-find structure that the pixel graph
//! maintains in its node array.
//!
//! A node whose `label` equals its own index is a *root*; every other node
//! points with `label` toward its component's root. [`root_of`] resolves the
//! root of the component containing a node. Acyclicity is witnessed by a ghost
//! sequence of depths that strictly increases along every `label` step; all
//! lemmas about [`root_of`] are proved by induction on the remaining depth.

use vstd::prelude::*;

use crate::graph::image_node::ImageNode;

verus! {

/// A root node: its parent pointer is itself.
pub open spec fn is_root(ns: Seq<ImageNode>, i: int) -> bool {
    ns[i].label == i
}

/// Every node's id equals its index and every parent pointer is in range.
pub open spec fn nodes_linked(ns: Seq<ImageNode>) -> bool {
    forall|i: int| 0 <= i < ns.len() ==> (#[trigger] ns[i]).id == i && ns[i].label < ns.len()
}

/// Every node's component size is at least one.
pub open spec fn sizes_pos(ns: Seq<ImageNode>) -> bool {
    forall|i: int| 0 <= i < ns.len() ==> (#[trigger] ns[i]).n >= 1
}

/// The ghost depth strictly increases along every parent pointer, so every
/// `label` chain is acyclic and ends in a root.
pub open spec fn depth_wf(ns: Seq<ImageNode>, d: Seq<nat>) -> bool {
    &&& d.len() == ns.len()
    &&& forall|i: int|
        0 <= i < ns.len() && !is_root(ns, i) ==> #[trigger] d[i] < d[ns[i].label as int]
}

/// All depths lie below `bound`.
pub open spec fn depths_lt(d: Seq<nat>, bound: int) -> bool {
    forall|i: int| 0 <= i < d.len() ==> #[trigger] d[i] < bound
}

/// The facts about a node array and its ghost depths that the `root_of`
/// lemmas rest on.
pub open spec fn chain_ok(ns: Seq<ImageNode>, d: Seq<nat>) -> bool {
    &&& nodes_linked(ns)
    &&& depth_wf(ns, d)
    &&& depths_lt(d, ns.len() as int)
}

/// Walks the `label` chain from node `i` for at most `fuel` steps.
pub open spec fn root_of_fueled(ns: Seq<ImageNode>, i: int, fuel: nat) -> int
    decreases fuel,
{
    if fuel == 0 {
        i
    } else if ns[i].label == i {
        i
    } else {
        root_of_fueled(ns, ns[i].label as int, (fuel - 1) as nat)
    }
}

/// The root of the component containing node `i`. Whenever [`chain_ok`]
/// holds, a fuel of the node count is enough to reach the root.
pub open spec fn root_of(ns: Seq<ImageNode>, i: int) -> int {
    root_of_fueled(ns, i, ns.len())
}

/// The number of roots among the first `upto` nodes.
pub open spec fn root_count(ns: Seq<ImageNode>, upto: int) -> int
    decreases upto,
{
    if upto <= 0 {
        0
    } else {
        root_count(ns, upto - 1) + if is_root(ns, upto - 1) {
            1int
        } else {
            0int
        }
    }
}

/// The total size carried by the roots among the first `upto` nodes.
pub open spec fn size_sum(ns: Seq<ImageNode>, upto: int) -> int
    decreases upto,
{
    if upto <= 0 {
        0
    } else {
        size_sum(ns, upto - 1) + if is_root(ns, upto - 1) {
            ns[upto - 1].n as int
        } else {
            0int
        }
    }
}

/// The set of roots among the first `upto` nodes.
pub open spec fn roots_upto(ns: Seq<ImageNode>, upto: int) -> Set<usize> {
    Set::new(|v: usize| (v as int) < upto && is_root(ns, v as int))
}

/// With sufficient fuel the walk reaches the same node as `root_of`, and that
/// node is a root.
pub proof fn lemma_root_of_fueled(ns: Seq<ImageNode>, d: Seq<nat>, i: int, fuel: nat)
    requires
        chain_ok(ns, d),
        0 <= i < ns.len(),
        fuel >= ns.len() - d[i],
    ensures
        root_of_fueled(ns, i, fuel) == root_of(ns, i),
        0 <= root_of(ns, i) < ns.len(),
        is_root(ns, root_of(ns, i)),
        d[i] <= d[root_of(ns, i)],
        !is_root(ns, i) ==> d[i] < d[root_of(ns, i)],
    decreases ns.len() - d[i],
{
    assert(d[i] < ns.len());
    if is_root(ns, i) {
        assert(root_of_fueled(ns, i, fuel) == i);
        assert(root_of_fueled(ns, i, ns.len()) == i);
    } else {
        let p = ns[i].label as int;
        assert(d[i] < d[p]);
        lemma_root_of_fueled(ns, d, p, (fuel - 1) as nat);
        lemma_root_of_fueled(ns, d, p, (ns.len() - 1) as nat);
        lemma_root_of_fueled(ns, d, p, ns.len());
        assert(root_of_fueled(ns, i, fuel) == root_of_fueled(ns, p, (fuel - 1) as nat));
        assert(root_of_fueled(ns, i, ns.len()) == root_of_fueled(ns, p, (ns.len() - 1) as nat));
    }
}

/// The basic shape of `root_of`: it lands on a root, roots are fixed points,
/// and a non-root resolves to its parent's root, strictly deeper than itself.
pub proof fn lemma_root_of_props(ns: Seq<ImageNode>, d: Seq<nat>, i: int)
    requires
        chain_ok(ns, d),
        0 <= i < ns.len(),
    ensures
        0 <= root_of(ns, i) < ns.len(),
        is_root(ns, root_of(ns, i)),
        is_root(ns, i) ==> root_of(ns, i) == i,
        !is_root(ns, i) ==> root_of(ns, i) == root_of(ns, ns[i].label as int),
        !is_root(ns, i) ==> d[i] < d[root_of(ns, i)],
        !is_root(ns, i) ==> root_of(ns, i) != i,
        root_of(ns, root_of(ns, i)) == root_of(ns, i),
{
    lemma_root_of_fueled(ns, d, i, ns.len());
    if !is_root(ns, i) {
        let p = ns[i].label as int;
        lemma_root_of_fueled(ns, d, p, (ns.len() - 1) as nat);
        lemma_root_of_fueled(ns, d, p, ns.len());
    }
    lemma_root_of_fueled(ns, d, root_of(ns, i), ns.len());
}

/// Overwriting node `t`'s parent pointer with its own root keeps the chains
/// well formed under the unchanged depths, and moves no node to a different
/// root. This is the path-compression step of `find_component_at`.
pub proof fn lemma_compress_wf(ns: Seq<ImageNode>, d: Seq<nat>, t: int, ns2: Seq<ImageNode>)
    requires
        chain_ok(ns, d),
        0 <= t < ns.len(),
        ns2 == ns.update(
            t,
            ImageNode {
                label: root_of(ns, t) as usize,
                n: ns[t].n,
                id: ns[t].id,
                max_w: ns[t].max_w,
            },
        ),
    ensures
        chain_ok(ns2, d),
        forall|j: int| 0 <= j < ns.len() ==> (is_root(ns2, j) <==> is_root(ns, j)),
{
    lemma_root_of_props(ns, d, t);
    let r = root_of(ns, t);
    if is_root(ns, t) {
        assert(r == t);
        assert forall|j: int| 0 <= j < ns.len() implies ns2[j] == ns[j] by {
        }
    }
    assert forall|j: int| 0 <= j < ns.len() implies (is_root(ns2, j) <==> is_root(ns, j)) by {
        if j == t && !is_root(ns, t) {
            assert(ns2[t].label == r);
            assert(r != t);
        }
    }
    assert forall|i: int| 0 <= i < ns2.len() && !is_root(ns2, i) implies d[i] < d[
        ns2[i].label as int
    ] by {
        if i == t {
            assert(!is_root(ns, t));
            assert(d[t] < d[r]);
        } else {
            assert(ns2[i] == ns[i]);
        }
    }
}

/// After path compression at `t`, every node resolves to the same root as
/// before.
pub proof fn lemma_compress_root_one(
    ns: Seq<ImageNode>,
    d: Seq<nat>,
    t: int,
    ns2: Seq<ImageNode>,
    x: int,
)
    requires
        chain_ok(ns, d),
        0 <= t < ns.len(),
        ns2 == ns.update(
            t,
            ImageNode {
                label: root_of(ns, t) as usize,
                n: ns[t].n,
                id: ns[t].id,
                max_w: ns[t].max_w,
            },
        ),
        0 <= x < ns.len(),
    ensures
        root_of(ns2, x) == root_of(ns, x),
    decreases ns.len() - d[x],
{
    lemma_compress_wf(ns, d, t, ns2);
    lemma_root_of_props(ns, d, x);
    lemma_root_of_props(ns2, d, x);
    let r = root_of(ns, t);
    if is_root(ns, x) {
    } else if x == t {
        lemma_root_of_props(ns, d, r);
        lemma_root_of_props(ns2, d, r);
        assert(ns2[t].label == r);
        assert(is_root(ns2, r));
        assert(root_of(ns2, t) == root_of(ns2, r));
    } else {
        let p = ns[x].label as int;
        assert(ns2[x] == ns[x]);
        assert(d[p] > d[x]);
        lemma_compress_root_one(ns, d, t, ns2, p);
    }
}

/// [`lemma_compress_root_one`] for all nodes at once.
pub proof fn lemma_compress_roots(ns: Seq<ImageNode>, d: Seq<nat>, t: int, ns2: Seq<ImageNode>)
    requires
        chain_ok(ns, d),
        0 <= t < ns.len(),
        ns2 == ns.update(
            t,
            ImageNode {
                label: root_of(ns, t) as usize,
                n: ns[t].n,
                id: ns[t].id,
                max_w: ns[t].max_w,
            },
        ),
    ensures
        chain_ok(ns2, d),
        forall|j: int| 0 <= j < ns.len() ==> (is_root(ns2, j) <==> is_root(ns, j)),
        forall|x: int| 0 <= x < ns.len() ==> root_of(ns2, x) == root_of(ns, x),
{
    lemma_compress_wf(ns, d, t, ns2);
    assert forall|x: int| 0 <= x < ns.len() implies root_of(ns2, x) == root_of(ns, x) by {
        lemma_compress_root_one(ns, d, t, ns2, x);
    }
}

/// The new depth assigned to the absorbing root `a` when it absorbs `b`.
pub open spec fn merge_depth(d: Seq<nat>, a: int, b: int) -> nat {
    if d[a] >= d[b] + 1 {
        d[a]
    } else {
        (d[b] + 1) as nat
    }
}

/// The node array after root `a` absorbs root `b`: `b` now points at `a`,
/// and `a` carries the combined size and the updated maximum weight.
pub open spec fn merged_nodes(
    ns: Seq<ImageNode>,
    a: int,
    b: int,
    new_n: usize,
    new_max_w: u64,
) -> Seq<ImageNode> {
    ns.update(
        b,
        ImageNode { label: a as usize, n: ns[b].n, id: ns[b].id, max_w: ns[b].max_w },
    ).update(a, ImageNode { label: a as usize, n: new_n, id: ns[a].id, max_w: new_max_w })
}

/// Merging two distinct roots keeps the chains well formed under the updated
/// depths, and un-roots exactly the absorbed root.
pub proof fn lemma_merge_wf(
    ns: Seq<ImageNode>,
    d: Seq<nat>,
    a: int,
    b: int,
    new_n: usize,
    new_max_w: u64,
    ns2: Seq<ImageNode>,
    d2: Seq<nat>,
)
    requires
        chain_ok(ns, d),
        0 <= a < ns.len(),
        0 <= b < ns.len(),
        a != b,
        is_root(ns, a),
        is_root(ns, b),
        ns2 == merged_nodes(ns, a, b, new_n, new_max_w),
        d2 == d.update(a, merge_depth(d, a, b)),
        merge_depth(d, a, b) < ns.len(),
    ensures
        chain_ok(ns2, d2),
        forall|j: int| 0 <= j < ns.len() ==> (is_root(ns2, j) <==> is_root(ns, j) && j != b),
{
    assert forall|j: int| 0 <= j < ns.len() implies (is_root(ns2, j) <==> is_root(ns, j) && j
        != b) by {
        if j == b {
            assert(ns2[b].label == a);
        } else if j == a {
            assert(ns2[a].label == a);
        } else {
            assert(ns2[j] == ns[j]);
        }
    }
    assert forall|i: int| 0 <= i < ns2.len() && !is_root(ns2, i) implies d2[i] < d2[
        ns2[i].label as int
    ] by {
        if i == b {
            assert(ns2[b].label == a);
            assert(d2[a] == merge_depth(d, a, b));
            assert(d2[b] == d[b]);
        } else if i == a {
            assert(is_root(ns2, a));
        } else {
            assert(ns2[i] == ns[i]);
            assert(!is_root(ns, i));
            let p = ns[i].label as int;
            assert(d[i] < d[p]);
            if p == a {
                assert(d2[a] >= d[a]);
            }
        }
    }
}

/// After root `a` absorbs root `b`, nodes that resolved to `b` resolve to
/// `a`, and every other node keeps its root.
pub proof fn lemma_merge_root_one(
    ns: Seq<ImageNode>,
    d: Seq<nat>,
    a: int,
    b: int,
    new_n: usize,
    new_max_w: u64,
    ns2: Seq<ImageNode>,
    d2: Seq<nat>,
    x: int,
)
    requires
        chain_ok(ns, d),
        0 <= a < ns.len(),
        0 <= b < ns.len(),
        a != b,
        is_root(ns, a),
        is_root(ns, b),
        ns2 == merged_nodes(ns, a, b, new_n, new_max_w),
        d2 == d.update(a, merge_depth(d, a, b)),
        merge_depth(d, a, b) < ns.len(),
        0 <= x < ns.len(),
    ensures
        root_of(ns2, x) == if root_of(ns, x) == b {
            a
        } else {
            root_of(ns, x)
        },
    decreases ns.len() - d[x],
{
    lemma_merge_wf(ns, d, a, b, new_n, new_max_w, ns2, d2);
    lemma_root_of_props(ns, d, x);
    lemma_root_of_props(ns2, d2, x);
    if x == b {
        assert(ns2[b].label == a);
        assert(!is_root(ns2, b));
        lemma_root_of_props(ns2, d2, a);
        assert(root_of(ns2, b) == root_of(ns2, a));
    } else if x == a {
    } else if is_root(ns, x) {
        assert(ns2[x] == ns[x]);
    } else {
        let p = ns[x].label as int;
        assert(ns2[x] == ns[x]);
        assert(!is_root(ns2, x));
        assert(d[p] > d[x]);
        lemma_merge_root_one(ns, d, a, b, new_n, new_max_w, ns2, d2, p);
        assert(root_of(ns2, x) == root_of(ns2, p));
    }
}

/// [`lemma_merge_root_one`] for all nodes at once.
pub proof fn lemma_merge_roots(
    ns: Seq<ImageNode>,
    d: Seq<nat>,
    a: int,
    b: int,
    new_n: usize,
    new_max_w: u64,
    ns2: Seq<ImageNode>,
    d2: Seq<nat>,
)
    requires
        chain_ok(ns, d),
        0 <= a < ns.len(),
        0 <= b < ns.len(),
        a != b,
        is_root(ns, a),
        is_root(ns, b),
        ns2 == merged_nodes(ns, a, b, new_n, new_max_w),
        d2 == d.update(a, merge_depth(d, a, b)),
        merge_depth(d, a, b) < ns.len(),
    ensures
        chain_ok(ns2, d2),
        forall|j: int| 0 <= j < ns.len() ==> (is_root(ns2, j) <==> is_root(ns, j) && j != b),
        forall|x: int|
            0 <= x < ns.len() ==> root_of(ns2, x) == (if root_of(ns, x) == b {
                a
            } else {
                root_of(ns, x)
            }),
{
    lemma_merge_wf(ns, d, a, b, new_n, new_max_w, ns2, d2);
    assert forall|x: int| 0 <= x < ns.len() implies root_of(ns2, x) == (if root_of(ns, x) == b {
        a
    } else {
        root_of(ns, x)
    }) by {
        lemma_merge_root_one(ns, d, a, b, new_n, new_max_w, ns2, d2, x);
    }
}

/// Two node arrays with the same roots have the same root count.
pub proof fn lemma_count_pointwise(ns1: Seq<ImageNode>, ns2: Seq<ImageNode>, upto: int)
    requires
        forall|j: int| 0 <= j < upto ==> (is_root(ns1, j) <==> is_root(ns2, j)),
    ensures
        root_count(ns1, upto) == root_count(ns2, upto),
    decreases upto,
{
    if upto > 0 {
        lemma_count_pointwise(ns1, ns2, upto - 1);
    }
}

/// Un-rooting exactly one root decrements the root count by one.
pub proof fn lemma_count_remove_one(ns1: Seq<ImageNode>, ns2: Seq<ImageNode>, t: int, upto: int)
    requires
        forall|j: int| 0 <= j < upto && j != t ==> (is_root(ns1, j) <==> is_root(ns2, j)),
        0 <= t < upto,
        is_root(ns1, t),
        !is_root(ns2, t),
    ensures
        root_count(ns2, upto) == root_count(ns1, upto) - 1,
    decreases upto,
{
    if upto - 1 == t {
        lemma_count_pointwise(ns1, ns2, upto - 1);
    } else {
        lemma_count_remove_one(ns1, ns2, t, upto - 1);
    }
}

/// A root below `upto` contributes, so the count is at least one.
pub proof fn lemma_count_ge1(ns: Seq<ImageNode>, a: int, upto: int)
    requires
        0 <= a < upto,
        is_root(ns, a),
    ensures
        root_count(ns, upto) >= 1,
    decreases upto,
{
    lemma_count_nonneg(ns, upto - 1);
    if a < upto - 1 {
        lemma_count_ge1(ns, a, upto - 1);
    }
}

/// The root count is never negative.
pub proof fn lemma_count_nonneg(ns: Seq<ImageNode>, upto: int)
    ensures
        root_count(ns, upto) >= 0,
    decreases upto,
{
    if upto > 0 {
        lemma_count_nonneg(ns, upto - 1);
    }
}

/// Two distinct roots below `upto` give a count of at least two.
pub proof fn lemma_count_ge2(ns: Seq<ImageNode>, a: int, b: int, upto: int)
    requires
        0 <= a < b < upto,
        is_root(ns, a),
        is_root(ns, b),
    ensures
        root_count(ns, upto) >= 2,
    decreases upto,
{
    if b == upto - 1 {
        lemma_count_ge1(ns, a, upto - 1);
    } else {
        lemma_count_ge2(ns, a, b, upto - 1);
        lemma_count_nonneg(ns, upto - 1);
    }
}

/// When all nodes are roots the count equals the node count.
pub proof fn lemma_count_all_roots(ns: Seq<ImageNode>, upto: int)
    requires
        0 <= upto,
        forall|j: int| 0 <= j < upto ==> is_root(ns, j),
    ensures
        root_count(ns, upto) == upto,
    decreases upto,
{
    if upto > 0 {
        lemma_count_all_roots(ns, upto - 1);
        assert(is_root(ns, upto - 1));
    }
}

/// Two node arrays with the same roots and sizes have the same size sum.
pub proof fn lemma_sum_pointwise(ns1: Seq<ImageNode>, ns2: Seq<ImageNode>, upto: int)
    requires
        forall|j: int|
            0 <= j < upto ==> (is_root(ns1, j) <==> is_root(ns2, j)) && ns1[j].n == ns2[j].n,
    ensures
        size_sum(ns1, upto) == size_sum(ns2, upto),
    decreases upto,
{
    if upto > 0 {
        lemma_sum_pointwise(ns1, ns2, upto - 1);
    }
}

/// The merge update moves `b`'s size onto `a`, leaving the size sum intact.
pub proof fn lemma_sum_merge(ns1: Seq<ImageNode>, ns2: Seq<ImageNode>, a: int, b: int, upto: int)
    requires
        forall|j: int|
            0 <= j < upto && j != a && j != b ==> (is_root(ns1, j) <==> is_root(ns2, j))
                && ns1[j].n == ns2[j].n,
        0 <= a < upto,
        0 <= b < upto,
        a != b,
        is_root(ns1, a),
        is_root(ns1, b),
        is_root(ns2, a),
        !is_root(ns2, b),
        ns2[a].n == ns1[a].n + ns1[b].n,
    ensures
        size_sum(ns2, upto) == size_sum(ns1, upto),
    decreases upto,
{
    if upto - 1 == a || upto - 1 == b {
        lemma_sum_change_rest(ns1, ns2, a, b, upto - 1);
    } else {
        lemma_sum_merge(ns1, ns2, a, b, upto - 1);
    }
}

/// Helper for [`lemma_sum_merge`]: below both touched indices but possibly
/// above one of them, the sum shifts by exactly the contributions seen so
/// far.
proof fn lemma_sum_change_rest(
    ns1: Seq<ImageNode>,
    ns2: Seq<ImageNode>,
    a: int,
    b: int,
    upto: int,
)
    requires
        forall|j: int|
            0 <= j < upto + 1 && j != a && j != b ==> (is_root(ns1, j) <==> is_root(ns2, j))
                && ns1[j].n == ns2[j].n,
        a != b,
        is_root(ns1, a),
        is_root(ns1, b),
        is_root(ns2, a),
        !is_root(ns2, b),
        ns2[a].n == ns1[a].n + ns1[b].n,
    ensures
        size_sum(ns2, upto) == size_sum(ns1, upto) + (if 0 <= a < upto {
            ns1[b].n as int
        } else {
            0int
        }) - (if 0 <= b < upto {
            ns1[b].n as int
        } else {
            0int
        }),
    decreases upto,
{
    if upto > 0 {
        lemma_sum_change_rest(ns1, ns2, a, b, upto - 1);
    }
}

/// A root's size is at most the size sum.
pub proof fn lemma_sum_lower1(ns: Seq<ImageNode>, a: int, upto: int)
    requires
        0 <= a < upto,
        is_root(ns, a),
        sizes_pos(ns),
        upto <= ns.len(),
    ensures
        size_sum(ns, upto) >= ns[a].n,
    decreases upto,
{
    lemma_sum_nonneg(ns, upto - 1);
    if a < upto - 1 {
        lemma_sum_lower1(ns, a, upto - 1);
    }
}

/// The size sum is never negative.
pub proof fn lemma_sum_nonneg(ns: Seq<ImageNode>, upto: int)
    ensures
        size_sum(ns, upto) >= 0,
    decreases upto,
{
    if upto > 0 {
        lemma_sum_nonneg(ns, upto - 1);
    }
}

/// Two distinct roots together carry at most the size sum.
pub proof fn lemma_sum_lower2(ns: Seq<ImageNode>, a: int, b: int, upto: int)
    requires
        0 <= a < b < upto,
        is_root(ns, a),
        is_root(ns, b),
        sizes_pos(ns),
        upto <= ns.len(),
    ensures
        size_sum(ns, upto) >= ns[a].n + ns[b].n,
    decreases upto,
{
    if b == upto - 1 {
        lemma_sum_lower1(ns, a, upto - 1);
    } else {
        lemma_sum_lower2(ns, a, b, upto - 1);
    }
}

/// When all nodes are roots of size one, the size sum equals the node count.
pub proof fn lemma_sum_all_one(ns: Seq<ImageNode>, upto: int)
    requires
        0 <= upto,
        forall|j: int| 0 <= j < upto ==> is_root(ns, j) && (#[trigger] ns[j]).n == 1,
    ensures
        size_sum(ns, upto) == upto,
    decreases upto,
{
    if upto > 0 {
        lemma_sum_all_one(ns, upto - 1);
        assert(is_root(ns, upto - 1) && ns[upto - 1].n == 1);
    }
}

/// Every label value of a buffer that holds each node's resolved root is
/// itself a root node's id, and the set of distinct label values is exactly
/// the set of roots, whose cardinality is the root count. This is what makes
/// the component count of a derived label buffer meaningful.
pub proof fn lemma_labels_are_roots(ns: Seq<ImageNode>, d: Seq<nat>, labels: Seq<usize>, k: int)
    requires
        chain_ok(ns, d),
        labels.len() == ns.len(),
        forall|x: int| 0 <= x < labels.len() ==> (#[trigger] labels[x]) as int == root_of(ns, x),
        k == root_count(ns, ns.len() as int),
    ensures
        forall|x: int|
            0 <= x < labels.len() ==> is_root(ns, (#[trigger] labels[x]) as int) && labels[x]
                < ns.len(),
        labels.to_set() == roots_upto(ns, ns.len() as int),
        labels.to_set().finite(),
        labels.to_set().len() == k,
{
    broadcast use vstd::set::group_set_axioms;

    assert forall|x: int| 0 <= x < labels.len() implies is_root(
        ns,
        (#[trigger] labels[x]) as int,
    ) && labels[x] < ns.len() by {
        lemma_root_of_props(ns, d, x);
    }
    assert(labels.to_set() =~= roots_upto(ns, ns.len() as int)) by {
        assert forall|v: usize| labels.to_set().contains(v) implies roots_upto(
            ns,
            ns.len() as int,
        ).contains(v) by {
            assert(labels.contains(v));
            let x = choose|x: int| 0 <= x < labels.len() && labels[x] == v;
            lemma_root_of_props(ns, d, x);
        }
        assert forall|v: usize| roots_upto(ns, ns.len() as int).contains(v) implies
            labels.to_set().contains(v) by {
            assert(is_root(ns, v as int));
            lemma_root_of_props(ns, d, v as int);
            assert(labels[v as int] == v);
            assert(labels.contains(v));
        }
    }
    lemma_roots_upto_card(ns, ns.len() as int);
}

/// When every root equals `r0`, the count is at most one.
pub proof fn lemma_count_unique_root(ns: Seq<ImageNode>, r0: int, upto: int)
    requires
        forall|j: int| 0 <= j < upto && is_root(ns, j) ==> j == r0,
    ensures
        root_count(ns, upto) <= 1,
    decreases upto,
{
    if upto > 0 {
        if upto - 1 == r0 && is_root(ns, r0) {
            lemma_count_no_root(ns, upto - 1, r0);
        } else {
            lemma_count_unique_root(ns, r0, upto - 1);
        }
    }
}

/// When no root lies below `upto` except possibly `bound_r` which does not,
/// the count is zero.
proof fn lemma_count_no_root(ns: Seq<ImageNode>, upto: int, r0: int)
    requires
        forall|j: int| 0 <= j < upto && is_root(ns, j) ==> j == r0,
        !(0 <= r0 < upto),
    ensures
        root_count(ns, upto) == 0,
    decreases upto,
{
    if upto > 0 {
        lemma_count_no_root(ns, upto - 1, r0);
    }
}

/// The set of roots below `upto` is finite and counted by [`root_count`].
pub proof fn lemma_roots_upto_card(ns: Seq<ImageNode>, upto: int)
    requires
        0 <= upto,
    ensures
        roots_upto(ns, upto).finite(),
        roots_upto(ns, upto).len() == root_count(ns, upto),
    decreases upto,
{
    if upto == 0 {
        assert(roots_upto(ns, 0) =~= Set::<usize>::empty());
    } else {
        lemma_roots_upto_card(ns, upto - 1);
        let prev = roots_upto(ns, upto - 1);
        let cur = roots_upto(ns, upto);
        if is_root(ns, upto - 1) {
            assert(cur =~= prev.insert((upto - 1) as usize));
            assert(!prev.contains((upto - 1) as usize));
        } else {
            assert(cur =~= prev);
        }
    }
}

} // verus!
