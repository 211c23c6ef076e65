//! Graph-based image segmentation ("superpixels") after Felzenszwalb and
//! Huttenlocher: every pixel is a node of a 4-connected graph, edges carry a
//! dissimilarity weight, and a greedy pass over the weight-sorted edges merges
//! nodes into components under an adaptive threshold rule.
//!
//! Edge weights and the threshold constant are fixed-point values: the scale
//! constant `WEIGHT_ONE` stands for the normalized maximal distance 1.0.

mod graph;
mod segmentation;

pub use graph::{
    chain_ok, depth_wf, edge_le, edges_sorted, edges_wf, is_root, lemma_labels_are_roots,
    lemma_sorted_edges_unique, max_weight, merge_depth, merged_nodes, nodes_linked, root_count,
    root_of, roots_upto, ImageEdge, ImageGraph, ImageNode, ImageNodeColor,
};

pub use segmentation::{
    enforce_pass, enforce_step, has_bottom_edge, has_right_edge, init_nodes, is_bottom_edge,
    is_grid_edge, is_right_edge, label_at, lemma_build_edges_unique,
    lemma_enforce_pass_congruence, lemma_labels_determined, lemma_segmentation_deterministic,
    lemma_threshold_merges_zero_weights,
    lemma_uniform_row_one_component, merges_zero_weights, min_size_ok, oversegment_pass,
    oversegment_step, pass_agrees, Distance, EuclideanRGB, Image, ManhattanRGB, NodeMerging,
    NodeMergingThreshold, Segmentation, SegmentationResult, SquaredEuclideanRGB, WEIGHT_ONE,
};
