//! The in-memory image model: plain RGBA pixels in row-major order.

use vstd::prelude::*;

verus! {

/// One pixel, as four 8-bit channels. The hash reads only `r`, `g` and `b`;
/// alpha is carried along unchanged and ignored by the intensity measure.
#[derive(Clone, Copy, PartialEq, Eq, Structural, Debug)]
pub struct Pixel {
    pub r: u8,
    pub g: u8,
    pub b: u8,
    pub a: u8,
}

/// The intensity of a pixel: the exact sum of the three color channels,
/// in `[0, 765]`. Alpha is deliberately ignored, so that a transparent
/// pixel hashes by its stored color.
pub open spec fn intensity(p: Pixel) -> int {
    p.r + p.g + p.b
}

/// A decoded image: `width * height` pixels in row-major order
/// (row `y`, column `x` at index `y * width + x`).
pub struct PixelBuffer {
    pub width: usize,
    pub height: usize,
    pub pixels: Vec<Pixel>,
}

impl PixelBuffer {
    /// The representation is consistent: the pixel vector holds exactly
    /// one entry per coordinate of the `width × height` grid.
    pub open spec fn wf(&self) -> bool {
        self.pixels@.len() == self.width * self.height
    }

    /// The pixel at column `x` of row `y`.
    pub open spec fn pixel_at(&self, x: int, y: int) -> Pixel {
        self.pixels@[y * self.width + x]
    }

    /// Builds a buffer after checking that the vector length matches the
    /// dimensions; returns `None` on a mismatch.
    pub fn new(width: usize, height: usize, pixels: Vec<Pixel>) -> (r: Option<PixelBuffer>)
        ensures
            match r {
                Some(buf) => buf.wf() && buf.width == width && buf.height == height
                    && buf.pixels@ == pixels@,
                None => pixels@.len() != width * height,
            },
    {
        let len = pixels.len();
        match width.checked_mul(height) {
            Some(area) if area == len => Some(PixelBuffer { width, height, pixels }),
            _ => None,
        }
    }
}

} // verus!
