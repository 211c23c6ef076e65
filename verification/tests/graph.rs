use graph_based_image_segmentation::{ImageEdge, ImageGraph};

#[test]
fn new_graph_has_singleton_components() {
    let g = ImageGraph::new_with_nodes(5);
    assert_eq!(g.num_nodes(), 5);
    assert_eq!(g.num_edges(), 0);
    assert_eq!(g.num_components(), 5);
    for i in 0..5 {
        let node = g.node_at(i);
        assert_eq!(node.id, i);
        assert_eq!(node.label, i);
        assert_eq!(node.n, 1);
        assert_eq!(node.max_w, 0);
    }
}

#[test]
fn node_id_matches_index() {
    let g = ImageGraph::new_with_nodes(3);
    for i in 0..3 {
        assert_eq!(g.node_id_at(i), i);
    }
}

#[test]
fn add_and_clear_edges() {
    let mut g = ImageGraph::new_with_nodes(4);
    g.add_edges(vec![ImageEdge::new(0, 1, 7), ImageEdge::new(2, 3, 9)]);
    assert_eq!(g.num_edges(), 2);
    assert_eq!(g.edge_at(0), ImageEdge::new(0, 1, 7));
    assert_eq!(g.edge_at(1), ImageEdge::new(2, 3, 9));
    g.clear_edges();
    assert_eq!(g.num_edges(), 0);
}

#[test]
fn reset_restores_fresh_nodes() {
    let mut g = ImageGraph::new_with_nodes(2);
    g.add_edges(vec![ImageEdge::new(0, 1, 3)]);
    g.merge(0, 1, &ImageEdge::new(0, 1, 3));
    assert_eq!(g.num_components(), 1);
    g.reset(4);
    assert_eq!(g.num_nodes(), 4);
    assert_eq!(g.num_edges(), 0);
    assert_eq!(g.num_components(), 4);
}

#[test]
fn merge_absorbs_second_into_first() {
    let mut g = ImageGraph::new_with_nodes(3);
    let e = ImageEdge::new(0, 2, 11);
    g.merge(0, 2, &e);
    assert_eq!(g.num_components(), 2);
    let root = g.node_at(0);
    assert_eq!(root.label, 0);
    assert_eq!(root.n, 2);
    assert_eq!(root.max_w, 11);
    let absorbed = g.node_at(2);
    assert_eq!(absorbed.label, 0);
    assert_eq!(g.find_node_component_at(2), 0);
    assert_eq!(g.find_node_component_at(0), 0);
    assert_eq!(g.find_node_component_at(1), 1);
}

#[test]
fn merge_tracks_maximum_weight() {
    let mut g = ImageGraph::new_with_nodes(3);
    g.merge(0, 1, &ImageEdge::new(0, 1, 5));
    g.merge(0, 2, &ImageEdge::new(0, 2, 2));
    let root = g.node_at(0);
    assert_eq!(root.n, 3);
    assert_eq!(root.max_w, 5);
    assert_eq!(g.num_components(), 1);
}

#[test]
fn find_component_is_idempotent() {
    let mut g = ImageGraph::new_with_nodes(4);
    // chain: 3 -> 2 -> 1 -> 0 via merges picking the previous root
    g.merge(2, 3, &ImageEdge::new(2, 3, 1));
    g.merge(1, 2, &ImageEdge::new(1, 2, 1));
    g.merge(0, 1, &ImageEdge::new(0, 1, 1));
    let first = g.find_node_component_at(3);
    assert_eq!(first, 0);
    // the first call compressed the query origin's label to the root
    assert_eq!(g.node_at(3).label, 0);
    let second = g.find_node_component_at(3);
    assert_eq!(second, first);
    // and the second call left the node exactly as it was
    assert_eq!(g.node_at(3).label, 0);
}

#[test]
fn find_compresses_only_the_query_origin() {
    let mut g = ImageGraph::new_with_nodes(4);
    g.merge(2, 3, &ImageEdge::new(2, 3, 1));
    g.merge(1, 2, &ImageEdge::new(1, 2, 1));
    g.merge(0, 1, &ImageEdge::new(0, 1, 1));
    // labels before any find: 3 -> 2, 2 -> 1, 1 -> 0
    assert_eq!(g.node_at(3).label, 2);
    assert_eq!(g.find_node_component_at(3), 0);
    // only the origin was rewritten; the intermediate node keeps its label
    assert_eq!(g.node_at(3).label, 0);
    assert_eq!(g.node_at(2).label, 1);
}

#[test]
fn sort_edges_orders_by_weight_then_endpoints() {
    let mut g = ImageGraph::new_with_nodes(6);
    g.add_edges(vec![
        ImageEdge::new(4, 5, 3),
        ImageEdge::new(0, 1, 9),
        ImageEdge::new(2, 3, 3),
        ImageEdge::new(2, 4, 3),
        ImageEdge::new(0, 2, 0),
    ]);
    g.sort_edges();
    assert_eq!(g.edge_at(0), ImageEdge::new(0, 2, 0));
    assert_eq!(g.edge_at(1), ImageEdge::new(2, 3, 3));
    assert_eq!(g.edge_at(2), ImageEdge::new(2, 4, 3));
    assert_eq!(g.edge_at(3), ImageEdge::new(4, 5, 3));
    assert_eq!(g.edge_at(4), ImageEdge::new(0, 1, 9));
}

#[test]
fn sort_edges_is_deterministic() {
    let edges = vec![
        ImageEdge::new(1, 2, 8),
        ImageEdge::new(0, 1, 8),
        ImageEdge::new(3, 4, 1),
        ImageEdge::new(0, 3, 8),
    ];
    let mut reversed = edges.clone();
    reversed.reverse();
    let mut g1 = ImageGraph::new_with_nodes(5);
    g1.add_edges(edges);
    g1.sort_edges();
    let mut g2 = ImageGraph::new_with_nodes(5);
    g2.add_edges(reversed);
    g2.sort_edges();
    for p in 0..g1.num_edges() {
        assert_eq!(g1.edge_at(p), g2.edge_at(p));
    }
}
