//! Pixel graph, edges and nodes.

mod component;
mod image_edge;
mod image_graph;
mod image_node;

pub use component::{chain_ok, depth_wf, is_root, lemma_count_ge1, lemma_count_ge2, lemma_count_remove_one, lemma_count_unique_root, lemma_labels_are_roots, lemma_merge_roots, lemma_root_of_props, merge_depth, merged_nodes, nodes_linked, root_count, root_of, roots_upto};
pub use image_edge::{edge_le, edge_le_exec, edges_sorted, lemma_sorted_edges_unique, ImageEdge};
pub use image_graph::{edges_wf, max_weight, ImageGraph};
pub use image_node::{ImageNode, ImageNodeColor};
