//! Block-mean perceptual hashing of raster images.
//!
//! An image is partitioned into an `n × n` grid of equal-area blocks (with
//! area-weighted, exact rational accounting when the dimensions are not
//! multiples of `n`), the mean intensity of each block is compared against
//! the median of its grid row, and the resulting `n²` bits are rendered as
//! a lowercase hexadecimal digest.

use vstd::prelude::*;

mod grid;
mod hash;
mod laws;
mod hex;
mod median;
mod pixels;

pub use hash::BlockHash;
pub use hash::HashError;
pub use hash::compute_hash;
pub use pixels::Pixel;
pub use pixels::PixelBuffer;

verus! {

/// The supported grid sizes: hashes of 16, 64, 144 and 256 bits.
pub open spec fn valid_granularity(n: usize) -> bool {
    n == 4 || n == 8 || n == 12 || n == 16
}

} // verus!
