use vstd::prelude::*;

verus! {

/// Represents a pixel of the image. A node carries the union-find state of
/// the component-merging algorithm: its fixed identity, a parent pointer, and
/// (meaningful while the node is a root) the component's size and the largest
/// edge weight merged into the component so far.
#[derive(Debug, Copy, Clone, PartialEq, Eq, Structural)]
pub struct ImageNode {
    /// The label of the pixel: the index of the node this node points to on
    /// the way to its component's root. A node whose label equals its own id
    /// is a root.
    pub label: usize,
    /// Size of the component after merging with other nodes; meaningful only
    /// for a root.
    pub n: usize,
    /// ID of the node; equals the node's index and never changes.
    pub id: usize,
    /// Maximum weight of any edge merged into this component so far;
    /// meaningful only for a root. Fixed-point, scaled so that
    /// [`crate::WEIGHT_ONE`] stands for the normalized distance 1.0.
    pub max_w: u64,
}

/// The color of a pixel: three 8-bit channels, immutable after construction.
#[derive(Debug, Copy, Clone, PartialEq, Eq, Structural)]
pub struct ImageNodeColor {
    /// Blue channel.
    pub b: u8,
    /// Green channel.
    pub g: u8,
    /// Red channel.
    pub r: u8,
}

impl ImageNodeColor {
    /// Builds a color from channel values given in RGB order.
    pub fn new_rgb(r: u8, g: u8, b: u8) -> (c: ImageNodeColor)
        ensures
            c == (ImageNodeColor { b, g, r }),
    {
        ImageNodeColor { b, g, r }
    }

    /// Builds a color from channel values given in BGR order.
    pub fn new_bgr(b: u8, g: u8, r: u8) -> (c: ImageNodeColor)
        ensures
            c == (ImageNodeColor { b, g, r }),
    {
        ImageNodeColor { b, g, r }
    }
}

} // verus!
