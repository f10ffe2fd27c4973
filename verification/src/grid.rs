//! The area-weighted block partition.
//!
//! An `n × n` grid is overlaid on a `width × height` image. To keep all
//! arithmetic exact, every coordinate is scaled by `n`: block `b` along an
//! axis of extent `d` spans `[b*d, (b+1)*d)`, and pixel `c` spans
//! `[c*n, (c+1)*n)`. A pixel contributes to a block with weight equal to
//! the product of the (scaled) overlap lengths along the two axes, so every
//! block receives the same total weight `width * height` and block values
//! can be compared by their weighted intensity sums alone.

use vstd::prelude::*;
use crate::pixels::PixelBuffer;
use crate::pixels::intensity;
use crate::valid_granularity;

verus! {

/// The length of the intersection of the half-open intervals
/// `[a1, a2)` and `[b1, b2)`.
pub open spec fn overlap(a1: int, a2: int, b1: int, b2: int) -> int {
    let lo = if a1 > b1 {
        a1
    } else {
        b1
    };
    let hi = if a2 < b2 {
        a2
    } else {
        b2
    };
    if hi > lo {
        hi - lo
    } else {
        0
    }
}

/// The scaled overlap of pixel `c` with block `b`, along an axis of image
/// extent `d`, under an `n`-way grid.
pub open spec fn weight(d: int, n: int, b: int, c: int) -> int {
    overlap(c * n, (c + 1) * n, b * d, (b + 1) * d)
}

/// One pixel's contribution to block `(bx, by)`: its intensity times the
/// product of the two per-axis overlap weights.
pub open spec fn pixel_term(buf: PixelBuffer, n: int, bx: int, by: int, x: int, y: int) -> int {
    intensity(buf.pixel_at(x, y)) * weight(buf.width as int, n, bx, x) * weight(
        buf.height as int,
        n,
        by,
        y,
    )
}

/// The sum of the contributions of pixels `(x, y)` with `x < k`, on row `y`.
pub open spec fn row_part(buf: PixelBuffer, n: int, bx: int, by: int, y: int, k: int) -> int
    decreases k,
{
    if k <= 0 {
        0
    } else {
        row_part(buf, n, bx, by, y, k - 1) + pixel_term(buf, n, bx, by, k - 1, y)
    }
}

/// The sum of the full rows `y < j` of block `(bx, by)`.
pub open spec fn block_part(buf: PixelBuffer, n: int, bx: int, by: int, j: int) -> int
    decreases j,
{
    if j <= 0 {
        0
    } else {
        block_part(buf, n, bx, by, j - 1) + row_part(buf, n, bx, by, j - 1, buf.width as int)
    }
}

/// The weighted intensity sum of block `(bx, by)`: the block's mean
/// intensity times the common weight `width * height`.
pub open spec fn block_sum(buf: PixelBuffer, n: int, bx: int, by: int) -> int {
    block_part(buf, n, bx, by, buf.height as int)
}

/// An overlap length is never negative and never longer than the first
/// interval.
pub proof fn lemma_overlap_bounds(a1: int, a2: int, b1: int, b2: int)
    requires
        a1 <= a2,
    ensures
        0 <= overlap(a1, a2, b1, b2),
        overlap(a1, a2, b1, b2) <= a2 - a1,
{
}

/// A per-axis weight lies in `[0, n]`.
pub proof fn lemma_weight_bounds(d: int, n: int, b: int, c: int)
    requires
        n >= 1,
    ensures
        0 <= weight(d, n, b, c) <= n,
{
    assert(c * n <= (c + 1) * n) by (nonlinear_arith)
        requires 1 <= n;
    lemma_overlap_bounds(c * n, (c + 1) * n, b * d, (b + 1) * d);
    assert((c + 1) * n - c * n == n) by (nonlinear_arith);
}

/// The product of two values that each fit in 64 bits; it cannot overflow.
fn mul_wide(a: u128, b: u128) -> (r: u128)
    requires
        a <= 0xffff_ffff_ffff_ffff,
        b <= 0xffff_ffff_ffff_ffff,
    ensures
        r as int == a as int * b as int,
{
    proof {
        assert(a as int * b as int <= 0xffff_ffff_ffff_ffff * 0xffff_ffff_ffff_ffff)
            by (nonlinear_arith)
            requires 0 <= a as int <= 0xffff_ffff_ffff_ffff, 0 <= b as int <= 0xffff_ffff_ffff_ffff;
    }
    a * b
}

/// The scaled overlap of the interval `[a1, a2)` with `[b1, b2)`, on
/// unsigned values; exactly the `overlap` of the mathematical intervals.
fn overlap_exec(a1: u128, a2: u128, b1: u128, b2: u128) -> (r: u128)
    ensures
        r as int == overlap(a1 as int, a2 as int, b1 as int, b2 as int),
{
    let lo = if a1 > b1 {
        a1
    } else {
        b1
    };
    let hi = if a2 < b2 {
        a2
    } else {
        b2
    };
    if hi > lo {
        hi - lo
    } else {
        0
    }
}

/// The weight of pixel `c` in block `b` along an axis of extent `d`.
fn weight_exec(d: usize, n: usize, b: usize, c: usize) -> (r: u128)
    requires
        1 <= n <= 16,
        b < n,
        c < d,
    ensures
        r as int == weight(d as int, n as int, b as int, c as int),
        r <= 16,
{
    let a1 = mul_wide(c as u128, n as u128);
    let a2 = mul_wide(c as u128 + 1, n as u128);
    let b1 = mul_wide(b as u128, d as u128);
    let b2 = mul_wide(b as u128 + 1, d as u128);
    let r = overlap_exec(a1, a2, b1, b2);
    proof {
        lemma_weight_bounds(d as int, n as int, b as int, c as int);
    }
    r
}

/// Computes the weighted intensity sum of block `(bx, by)`.
pub fn block_sum_exec(buf: &PixelBuffer, n: usize, bx: usize, by: usize) -> (s: u128)
    requires
        buf.wf(),
        valid_granularity(n),
        bx < n,
        by < n,
        buf.width >= 1,
        buf.height >= 1,
    ensures
        s as int == block_sum(*buf, n as int, bx as int, by as int),
        s as int <= 195840 * (buf.width * buf.height),
{
    let width = buf.width;
    let height = buf.height;
    let area = buf.pixels.len();
    assert(area == width * height);
    let mut acc: u128 = 0;
    let mut y: usize = 0;
    while y < height
        invariant
            buf.wf(),
            valid_granularity(n),
            bx < n,
            by < n,
            width == buf.width,
            height == buf.height,
            area == width * height,
            1 <= width,
            1 <= height,
            y <= height,
            acc as int == block_part(*buf, n as int, bx as int, by as int, y as int),
            acc as int <= 195840 * (y as int * width as int),
        decreases height - y,
    {
        let yw = weight_exec(height, n, by, y);
        let mut x: usize = 0;
        while x < width
            invariant
                buf.wf(),
                valid_granularity(n),
                bx < n,
                by < n,
                width == buf.width,
                height == buf.height,
                area == width * height,
                1 <= width,
                1 <= height,
                y < height,
                x <= width,
                yw as int == weight(height as int, n as int, by as int, y as int),
                yw <= 16,
                acc as int == block_part(*buf, n as int, bx as int, by as int, y as int)
                    + row_part(*buf, n as int, bx as int, by as int, y as int, x as int),
                acc as int <= 195840 * (y as int * width as int + x as int),
            decreases width - x,
        {
            let xw = weight_exec(width, n, bx, x);
            proof {
                assert((y as int) * (width as int) + (x as int) < (width as int) * (height as int))
                    by (nonlinear_arith)
                    requires (y as int) < (height as int), (x as int) < (width as int), 1 <= width;
            }
            let idx = y * width + x;
            let p = buf.pixels[idx];
            let it = (p.r as u128) + (p.g as u128) + (p.b as u128);
            proof {
                assert(it * xw <= 765 * 16 && it * xw * yw <= 195840) by (nonlinear_arith)
                    requires 0 <= it <= 765, 0 <= xw <= 16, 0 <= yw <= 16;
            }
            let term = it * xw * yw;
            proof {
                let gi = *buf;
                let nn = n as int;
                let bxi = bx as int;
                let byi = by as int;
                let xi = x as int;
                let yi = y as int;
                assert(buf.pixel_at(xi, yi) == buf.pixels@[yi * (width as int) + xi]);
                assert(it as int == intensity(buf.pixel_at(xi, yi)));
                assert(term as int == pixel_term(gi, nn, bxi, byi, xi, yi));
                assert(195840 * (yi * width as int + xi) + 195840
                    == 195840 * (yi * width as int + xi + 1)) by (nonlinear_arith);
                assert(195840 * (yi * width as int + xi + 1) <= 195840 * (width as int
                    * height as int)) by (nonlinear_arith)
                    requires yi * width as int + xi + 1 <= width as int * height as int;
                assert(row_part(gi, nn, bxi, byi, yi, xi + 1) == row_part(gi, nn, bxi, byi, yi, xi)
                    + pixel_term(gi, nn, bxi, byi, xi, yi));
            }
            acc = acc + term;
            x = x + 1;
        }
        proof {
            let nn = n as int;
            let yi = y as int;
            assert(block_part(*buf, nn, bx as int, by as int, yi + 1)
                == block_part(*buf, nn, bx as int, by as int, yi)
                    + row_part(*buf, nn, bx as int, by as int, yi, width as int));
            assert(195840 * (yi * width as int + width as int)
                == 195840 * ((yi + 1) * width as int)) by (nonlinear_arith);
        }
        y = y + 1;
    }
    proof {
        assert(y as int * width as int == width as int * height as int) by (nonlinear_arith)
            requires y as int == height as int;
    }
    acc
}

} // verus!
