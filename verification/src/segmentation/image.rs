use vstd::prelude::*;

use crate::graph::ImageNodeColor;

verus! {

/// A rectangular pixel buffer: the input of a segmentation run. Pixels are
/// stored row-major, so the pixel in row `i` and column `j` sits at flat
/// index `width · i + j`; each pixel carries exactly three 8-bit channels.
pub struct Image {
    /// Image height in pixels.
    pub height: usize,
    /// Image width in pixels.
    pub width: usize,
    /// The pixel colors, row-major, of length `height · width`.
    pub pixels: Vec<ImageNodeColor>,
}

impl Image {
    /// A well-formed buffer holds exactly one color per pixel.
    pub open spec fn wf(self) -> bool {
        self.pixels@.len() == self.height * self.width
    }

    /// Builds an image from its dimensions and its row-major pixel buffer,
    /// which must hold exactly `height · width` colors.
    pub fn new(height: usize, width: usize, pixels: Vec<ImageNodeColor>) -> (img: Image)
        requires
            height * width <= usize::MAX,
            pixels@.len() == height * width,
        ensures
            img.wf(),
            img.height == height,
            img.width == width,
            img.pixels@ == pixels@,
    {
        Image { height, width, pixels }
    }

    /// The color of the pixel in row `i` and column `j`.
    pub fn pixel_at(&self, i: usize, j: usize) -> (c: ImageNodeColor)
        requires
            self.wf(),
            i < self.height,
            j < self.width,
        ensures
            c == self.pixels@[self.width * i + j],
    {
        let n = self.pixels.len();
        proof {
            lemma_flat_index_in_range(self.height as int, self.width as int, i as int, j as int);
            assert(self.width * self.height == self.height * self.width) by (nonlinear_arith);
        }
        self.pixels[self.width * i + j]
    }
}

/// The flat index of a pixel lies below the pixel count.
pub proof fn lemma_flat_index_in_range(height: int, width: int, i: int, j: int)
    requires
        0 <= i < height,
        0 <= j < width,
    ensures
        0 <= width * i + j < width * height,
{
    assert(width * i + j < width * height) by (nonlinear_arith)
        requires
            0 <= i < height,
            0 <= j < width,
    ;
    assert(width * i >= 0) by (nonlinear_arith)
        requires
            i >= 0,
            width > 0,
    ;
}

} // verus!
