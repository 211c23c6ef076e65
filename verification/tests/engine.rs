use std::collections::HashSet;

use graph_based_image_segmentation::{
    EuclideanRGB, Image, ImageNodeColor, NodeMergingThreshold, Segmentation, WEIGHT_ONE,
};

fn black() -> ImageNodeColor {
    ImageNodeColor::new_rgb(0, 0, 0)
}

fn white() -> ImageNodeColor {
    ImageNodeColor::new_rgb(255, 255, 255)
}

fn uniform_image(height: usize, width: usize, color: ImageNodeColor) -> Image {
    Image::new(height, width, vec![color; height * width])
}

/// The 2-by-2 scenario: three black pixels and one white pixel. Building
/// the graph yields 4 nodes and 4 edges (two horizontal, two vertical);
/// the two black–black edges weigh 0 and the two black–white edges weigh
/// the normalized maximum.
#[test]
fn two_by_two_build_yields_four_edges() {
    let image = Image::new(2, 2, vec![black(), black(), black(), white()]);
    let mut seg = Segmentation::new(EuclideanRGB::default(), NodeMergingThreshold::new(1), 1);
    seg.build_graph(&image);
    assert_eq!(seg.graph.num_nodes(), 4);
    assert_eq!(seg.graph.num_edges(), 4);
    assert_eq!(seg.graph.num_components(), 4);
    let mut zero_edges = 0;
    let mut max_edges = 0;
    for p in 0..seg.graph.num_edges() {
        let e = seg.graph.edge_at(p);
        if e.w == 0 {
            zero_edges += 1;
        }
        if e.w == WEIGHT_ONE {
            max_edges += 1;
        }
    }
    // the pixel (1,1) is white and 4-adjacent to two black pixels
    assert_eq!(zero_edges, 2);
    assert_eq!(max_edges, 2);
}

/// The 2-by-2 scenario continued: with a tiny positive threshold constant,
/// oversegmentation merges the zero-weight edges into one black component
/// of size 3, rejects the maximal-weight edges, and two components remain
/// with exactly two distinct labels.
#[test]
fn two_by_two_oversegment_leaves_two_components() {
    let image = Image::new(2, 2, vec![black(), black(), black(), white()]);
    let mut seg = Segmentation::new(EuclideanRGB::default(), NodeMergingThreshold::new(1), 1);
    seg.build_graph(&image);
    seg.oversegment_graph();
    assert_eq!(seg.graph.num_components(), 2);
    let black_root = seg.graph.find_node_component_at(0);
    assert_eq!(seg.graph.node_at(black_root).n, 3);
    let labels = seg.derive_labels();
    assert_eq!(labels.len(), 4);
    assert_eq!(labels[0], labels[1]);
    assert_eq!(labels[0], labels[2]);
    assert_ne!(labels[0], labels[3]);
    let distinct: HashSet<usize> = labels.iter().copied().collect();
    assert_eq!(distinct.len(), 2);
}

/// With a threshold constant of exactly zero, the strict comparison
/// `w < max_w + c / size` rejects even zero-weight edges, so no merge at
/// all happens.
#[test]
fn zero_constant_rejects_every_edge() {
    let image = Image::new(2, 2, vec![black(), black(), black(), white()]);
    let mut seg = Segmentation::new(EuclideanRGB::default(), NodeMergingThreshold::new(0), 1);
    seg.build_graph(&image);
    seg.oversegment_graph();
    assert_eq!(seg.graph.num_components(), 4);
}

/// A single-row image of identical colors collapses into one component for
/// any positive threshold constant: every edge weight is zero and strictly
/// below any positive threshold.
#[test]
fn uniform_row_collapses_to_one_component() {
    for c in [1u64, 25_500, WEIGHT_ONE] {
        let image = uniform_image(1, 5, ImageNodeColor::new_rgb(40, 50, 60));
        let mut seg = Segmentation::new(EuclideanRGB::default(), NodeMergingThreshold::new(c), 1);
        seg.build_graph(&image);
        assert_eq!(seg.graph.num_edges(), 4);
        seg.oversegment_graph();
        assert_eq!(seg.graph.num_components(), 1);
        let labels = seg.derive_labels();
        let distinct: HashSet<usize> = labels.iter().copied().collect();
        assert_eq!(distinct.len(), 1);
    }
}

/// The component count never increases across the passes.
#[test]
fn component_count_is_monotone() {
    let image = Image::new(
        3,
        3,
        vec![
            black(),
            black(),
            white(),
            black(),
            white(),
            white(),
            black(),
            black(),
            white(),
        ],
    );
    let mut seg = Segmentation::new(
        EuclideanRGB::default(),
        NodeMergingThreshold::new(100_000),
        2,
    );
    seg.build_graph(&image);
    let after_build = seg.graph.num_components();
    assert_eq!(after_build, 9);
    seg.oversegment_graph();
    let after_oversegment = seg.graph.num_components();
    assert!(after_oversegment <= after_build);
    seg.enforce_minimum_segment_size(2);
    let after_enforce = seg.graph.num_components();
    assert!(after_enforce <= after_oversegment);
    assert!(after_enforce >= 1);
}

/// Enforcing the minimum size absorbs an undersized component into its
/// neighbor even though the weight criterion had kept them apart.
#[test]
fn enforce_merges_undersized_components() {
    let image = Image::new(1, 3, vec![black(), black(), white()]);
    let mut seg = Segmentation::new(EuclideanRGB::default(), NodeMergingThreshold::new(1), 2);
    seg.build_graph(&image);
    seg.oversegment_graph();
    // the two black pixels joined; the white pixel stayed alone
    assert_eq!(seg.graph.num_components(), 2);
    seg.enforce_minimum_segment_size(2);
    // the singleton white component was below the minimum and was absorbed
    assert_eq!(seg.graph.num_components(), 1);
}

/// After a full run, any two 4-adjacent pixels with different labels belong
/// to components that both reached the configured minimum size.
#[test]
fn adjacent_differing_labels_have_large_components() {
    let height = 4;
    let width = 4;
    let mut pixels = Vec::new();
    for i in 0..height {
        for j in 0..width {
            if j < 2 {
                pixels.push(black());
            } else {
                pixels.push(white());
            }
            let _ = i;
        }
    }
    let image = Image::new(height, width, pixels);
    let segment_size = 2;
    let mut seg = Segmentation::new(
        EuclideanRGB::default(),
        NodeMergingThreshold::new(1),
        segment_size,
    );
    let result = seg.segment_image(&image);
    let labels = &result.segmentation;
    for i in 0..height {
        for j in 0..width {
            let here = labels[width * i + j];
            if j + 1 < width {
                let right = labels[width * i + j + 1];
                if here != right {
                    assert!(seg.graph.node_at(here).n >= segment_size);
                    assert!(seg.graph.node_at(right).n >= segment_size);
                }
            }
            if i + 1 < height {
                let below = labels[width * (i + 1) + j];
                if here != below {
                    assert!(seg.graph.node_at(here).n >= segment_size);
                    assert!(seg.graph.node_at(below).n >= segment_size);
                }
            }
        }
    }
    assert_eq!(result.num_components, 2);
}

/// Every label is a node id of a component root, and exactly
/// `num_components` distinct labels appear.
#[test]
fn labels_are_root_ids_and_counted() {
    let image = Image::new(
        2,
        3,
        vec![black(), white(), black(), black(), white(), white()],
    );
    let mut seg = Segmentation::new(
        EuclideanRGB::default(),
        NodeMergingThreshold::new(10_000),
        1,
    );
    let result = seg.segment_image(&image);
    assert_eq!(result.segmentation.len(), 6);
    let distinct: HashSet<usize> = result.segmentation.iter().copied().collect();
    assert_eq!(distinct.len(), result.num_components);
    for &label in &result.segmentation {
        assert!(label < 6);
        // a label is its own component's root id
        assert_eq!(seg.graph.node_at(label).id, label);
        assert_eq!(seg.graph.node_at(label).label, label);
    }
}

/// Segmenting the same image twice with identical parameters produces
/// byte-identical label buffers.
#[test]
fn segmentation_is_deterministic() {
    let mut pixels = Vec::new();
    for i in 0..4 {
        for j in 0..5 {
            let v = ((i * 53 + j * 31) % 256) as u8;
            pixels.push(ImageNodeColor::new_rgb(v, v.wrapping_mul(3), 255 - v));
        }
    }
    let image = Image::new(4, 5, pixels);
    let mut seg1 = Segmentation::new(
        EuclideanRGB::default(),
        NodeMergingThreshold::new(2_000_000),
        2,
    );
    let result1 = seg1.segment_image(&image);
    let mut seg2 = Segmentation::new(
        EuclideanRGB::default(),
        NodeMergingThreshold::new(2_000_000),
        2,
    );
    let result2 = seg2.segment_image(&image);
    assert_eq!(result1.segmentation, result2.segmentation);
    assert_eq!(result1.num_components, result2.num_components);
}

/// The pixel accessor reads the row-major buffer.
#[test]
fn image_pixel_access() {
    let image = Image::new(2, 2, vec![black(), white(), white(), black()]);
    assert_eq!(image.pixel_at(0, 0), black());
    assert_eq!(image.pixel_at(0, 1), white());
    assert_eq!(image.pixel_at(1, 0), white());
    assert_eq!(image.pixel_at(1, 1), black());
}

/// A minimal two-pixel image segments into one or two components depending
/// on the colors.
#[test]
fn two_pixel_images() {
    let mut seg = Segmentation::new(EuclideanRGB::default(), NodeMergingThreshold::new(1), 1);
    let same = uniform_image(1, 2, black());
    let result = seg.segment_image(&same);
    assert_eq!(result.num_components, 1);

    let mut seg = Segmentation::new(EuclideanRGB::default(), NodeMergingThreshold::new(1), 1);
    let differing = Image::new(1, 2, vec![black(), white()]);
    let result = seg.segment_image(&differing);
    assert_eq!(result.num_components, 2);
    assert_ne!(result.segmentation[0], result.segmentation[1]);
}
