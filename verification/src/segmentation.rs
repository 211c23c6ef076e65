//! Image segmentation.

mod distance;
mod euclidean_distance;
mod image;
mod manhattan_distance;
mod node_merging;
mod node_merging_threshold;
mod segmentation;
mod segmentation_result;
mod squared_euclidean_distance;

pub use distance::{abs_diff, l1_sum, sq_sum, Distance, WEIGHT_ONE};
pub use euclidean_distance::EuclideanRGB;
pub use image::Image;
pub use manhattan_distance::ManhattanRGB;
pub use node_merging::{merges_zero_weights, NodeMerging};
pub use node_merging_threshold::{lemma_threshold_merges_zero_weights, NodeMergingThreshold};
pub use segmentation::{
    enforce_pass, enforce_step, has_bottom_edge, has_right_edge, init_nodes, is_bottom_edge,
    is_grid_edge, is_right_edge, label_at, lemma_build_edges_unique,
    lemma_enforce_pass_congruence, lemma_labels_determined, lemma_segmentation_deterministic,
    lemma_uniform_row_one_component,
    min_size_ok, oversegment_pass, oversegment_step, pass_agrees, Segmentation,
};
pub use segmentation_result::SegmentationResult;
pub use squared_euclidean_distance::SquaredEuclideanRGB;
