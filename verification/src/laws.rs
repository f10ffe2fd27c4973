//! Properties of the hash that hold for whole families of images.
//!
//! The proofs here relate the area-weighted block sums to elementary facts
//! about the grid: every block receives the same total weight, and an image
//! whose dimensions divide evenly degenerates to a plain partition into
//! equal rectangles.

use vstd::prelude::*;
use crate::grid::block_part;
use crate::grid::block_sum;
use crate::grid::overlap;
use crate::grid::pixel_term;
use crate::grid::row_part;
use crate::grid::weight;
use crate::hash::hash_bit;
use crate::hash::hash_bits;
use crate::hash::row_values;
use crate::median::insert_sorted;
use crate::median::med_pair_sum;
use crate::median::sort_ints;
use crate::pixels::PixelBuffer;
use crate::pixels::intensity;
use crate::valid_granularity;

verus! {

/// The total weight of block `b` over the pixels `c < k` of one axis.
pub open spec fn weight_sum(d: int, n: int, b: int, k: int) -> int
    decreases k,
{
    if k <= 0 {
        0
    } else {
        weight_sum(d, n, b, k - 1) + weight(d, n, b, k - 1)
    }
}

/// An overlap length splits at any point of the first interval.
proof fn lemma_overlap_split(a: int, m: int, c: int, b1: int, b2: int)
    requires
        a <= m <= c,
    ensures
        overlap(a, c, b1, b2) == overlap(a, m, b1, b2) + overlap(m, c, b1, b2),
{
}

/// The weights of block `b` over the first `k` pixels of an axis add up to
/// the overlap of the block's span with the span of those pixels.
proof fn lemma_weight_sum_overlap(d: int, n: int, b: int, k: int)
    requires
        0 <= b,
        0 <= d,
        0 <= n,
        0 <= k,
    ensures
        weight_sum(d, n, b, k) == overlap(0, k * n, b * d, (b + 1) * d),
    decreases k,
{
    assert(0 <= b * d && 0 <= (b + 1) * d) by (nonlinear_arith)
        requires 0 <= b, 0 <= d;
    if k == 0 {
        assert(overlap(0, 0, b * d, (b + 1) * d) == 0);
    } else {
        lemma_weight_sum_overlap(d, n, b, k - 1);
        assert(0 <= (k - 1) * n <= k * n) by (nonlinear_arith)
            requires 1 <= k, 0 <= n;
        lemma_overlap_split(0, (k - 1) * n, k * n, b * d, (b + 1) * d);
        assert(weight(d, n, b, k - 1) == overlap((k - 1) * n, k * n, b * d, (b + 1) * d));
    }
}

/// Every block receives the same total weight along an axis: the full
/// extent `d` of that axis.
pub proof fn lemma_weight_sum_total(d: int, n: int, b: int)
    requires
        0 <= b < n,
        0 <= d,
    ensures
        weight_sum(d, n, b, d) == d,
{
    lemma_weight_sum_overlap(d, n, b, d);
    assert((b + 1) * d <= n * d && 0 <= b * d && b * d <= (b + 1) * d) by (nonlinear_arith)
        requires 0 <= b, b + 1 <= n, 0 <= d;
    assert(d * n == n * d) by (nonlinear_arith);
    assert(overlap(0, d * n, b * d, (b + 1) * d) == (b + 1) * d - b * d);
    assert((b + 1) * d - b * d == d) by (nonlinear_arith);
}

/// On an image whose pixels all share one intensity `c`, a partial row sum
/// is `c` times the row weight times the partial weight sum.
proof fn lemma_const_row_part(buf: PixelBuffer, n: int, bx: int, by: int, y: int, k: int, c: int)
    requires
        buf.wf(),
        0 <= y < buf.height,
        0 <= k <= buf.width,
        forall|x: int, yy: int|
            0 <= x < buf.width && 0 <= yy < buf.height ==> intensity(#[trigger] buf.pixel_at(x, yy))
                == c,
    ensures
        row_part(buf, n, bx, by, y, k) == c * weight(buf.height as int, n, by, y) * weight_sum(
            buf.width as int,
            n,
            bx,
            k,
        ),
    decreases k,
{
    let wy = weight(buf.height as int, n, by, y);
    if k <= 0 {
        assert(c * wy * 0 == 0) by (nonlinear_arith);
    } else {
        lemma_const_row_part(buf, n, bx, by, y, k - 1, c);
        let wx = weight(buf.width as int, n, bx, k - 1);
        let ws = weight_sum(buf.width as int, n, bx, k - 1);
        assert(intensity(buf.pixel_at(k - 1, y)) == c);
        assert(pixel_term(buf, n, bx, by, k - 1, y) == c * wx * wy);
        assert(c * wy * ws + c * wx * wy == c * wy * (ws + wx)) by (nonlinear_arith);
    }
}

/// On an image whose pixels all share one intensity `c`, a partial block
/// sum is `c` times the width times the partial weight sum of the rows.
proof fn lemma_const_block_part(buf: PixelBuffer, n: int, bx: int, by: int, j: int, c: int)
    requires
        buf.wf(),
        0 <= bx < n,
        0 <= j <= buf.height,
        forall|x: int, yy: int|
            0 <= x < buf.width && 0 <= yy < buf.height ==> intensity(#[trigger] buf.pixel_at(x, yy))
                == c,
    ensures
        block_part(buf, n, bx, by, j) == c * (buf.width as int) * weight_sum(
            buf.height as int,
            n,
            by,
            j,
        ),
    decreases j,
{
    let w = buf.width as int;
    if j <= 0 {
        assert(c * w * 0 == 0) by (nonlinear_arith);
    } else {
        lemma_const_block_part(buf, n, bx, by, j - 1, c);
        lemma_const_row_part(buf, n, bx, by, j - 1, w, c);
        lemma_weight_sum_total(w, n, bx);
        let wy = weight(buf.height as int, n, by, j - 1);
        let ws = weight_sum(buf.height as int, n, by, j - 1);
        assert(row_part(buf, n, bx, by, j - 1, w) == c * wy * w);
        assert(c * w * ws + c * wy * w == c * w * (ws + wy)) by (nonlinear_arith);
    }
}

/// On an image whose pixels all share one intensity `c`, every block's
/// weighted sum equals `c * width * height`, whatever the block.
pub proof fn lemma_const_block_sum(buf: PixelBuffer, n: int, bx: int, by: int, c: int)
    requires
        buf.wf(),
        0 <= bx < n,
        0 <= by < n,
        buf.width >= 1,
        buf.height >= 1,
        forall|x: int, yy: int|
            0 <= x < buf.width && 0 <= yy < buf.height ==> intensity(#[trigger] buf.pixel_at(x, yy))
                == c,
    ensures
        block_sum(buf, n, bx, by) == c * (buf.width as int) * (buf.height as int),
{
    lemma_const_block_part(buf, n, bx, by, buf.height as int, c);
    lemma_weight_sum_total(buf.height as int, n, by);
}

/// Sorting a constant sequence leaves it unchanged.
proof fn lemma_sort_const(s: Seq<int>, v: int)
    requires
        forall|i: int| 0 <= i < s.len() ==> s[i] == v,
    ensures
        sort_ints(s).len() == s.len(),
        forall|i: int| 0 <= i < s.len() ==> sort_ints(s)[i] == v,
    decreases s.len(),
{
    if s.len() == 0 {
    } else {
        let t = s.drop_last();
        assert(forall|i: int| 0 <= i < t.len() ==> t[i] == v);
        lemma_sort_const(t, v);
        let sorted_t = sort_ints(t);
        if sorted_t.len() == 0 {
            assert(insert_sorted(v, sorted_t) =~= seq![v]);
        } else {
            assert(v <= sorted_t[0]);
            assert(insert_sorted(v, sorted_t) == seq![v] + sorted_t);
        }
    }
}

/// An image filled with a single color hashes to all-zero bits, for every
/// supported grid size: all row medians equal all block values, and a value
/// equal to the median resolves to a zero bit.
pub proof fn lemma_uniform_image_zero(buf: PixelBuffer, n: usize)
    requires
        buf.wf(),
        valid_granularity(n),
        buf.width >= 1,
        buf.height >= 1,
        forall|k: int|
            0 <= k < buf.pixels@.len() ==> #[trigger] buf.pixels@[k] == buf.pixels@[0],
    ensures
        forall|i: int| 0 <= i < n * n ==> !(#[trigger] hash_bits(buf, n as int)[i]),
{
    let c = intensity(buf.pixels@[0]);
    let w = buf.width as int;
    let h = buf.height as int;
    let nn = n as int;
    assert forall|x: int, yy: int|
        0 <= x < buf.width && 0 <= yy < buf.height implies intensity(
        #[trigger] buf.pixel_at(x, yy)) == c by {
        assert(0 <= yy * w + x < w * h) by (nonlinear_arith)
            requires 0 <= x < w, 0 <= yy < h;
        assert(buf.pixels@[yy * w + x] == buf.pixels@[0]);
    }
    assert forall|bx: int, by: int|
        0 <= bx < nn && 0 <= by < nn implies #[trigger] block_sum(buf, nn, bx, by) == c * w
        * h by {
        lemma_const_block_sum(buf, nn, bx, by, c);
    }
    assert forall|i: int| 0 <= i < n * n implies !(#[trigger] hash_bits(buf, nn)[i]) by {
        let bx = i % nn;
        let by = i / nn;
        assert(0 <= bx < nn && 0 <= by < nn) by {
            vstd::arithmetic::div_mod::lemma_mod_division_less_than_divisor(i, nn);
            vstd::arithmetic::div_mod::lemma_div_pos_is_pos(i, nn);
            assert((nn * nn) as int <= 256) by (nonlinear_arith)
                requires n == 4 || n == 8 || n == 12 || n == 16, nn == n as int;
            vstd::arithmetic::div_mod::lemma_multiply_divide_lt(i, nn, nn);
        }
        let row = row_values(buf, nn, by);
        assert(forall|k: int| 0 <= k < row.len() ==> row[k] == c * w * h);
        lemma_sort_const(row, c * w * h);
        assert(med_pair_sum(row) == 2 * (c * w * h));
        assert(hash_bits(buf, nn)[i] == hash_bit(buf, nn, bx, by));
    }
}

/// `v` clamped to the range `[0, hi]`.
pub open spec fn clip(v: int, hi: int) -> int {
    if v <= 0 {
        0
    } else if v >= hi {
        hi
    } else {
        v
    }
}

/// The plain intensity sum of `k` pixels of row `y`, starting at column `x0`.
pub open spec fn rect_row_sum(buf: PixelBuffer, x0: int, y: int, k: int) -> int
    decreases k,
{
    if k <= 0 {
        0
    } else {
        rect_row_sum(buf, x0, y, k - 1) + intensity(buf.pixel_at(x0 + k - 1, y))
    }
}

/// The plain intensity sum of the `w0 × j` rectangle of pixels whose
/// top-left corner is `(x0, y0)`.
pub open spec fn rect_sum(buf: PixelBuffer, x0: int, y0: int, w0: int, j: int) -> int
    decreases j,
{
    if j <= 0 {
        0
    } else {
        rect_sum(buf, x0, y0, w0, j - 1) + rect_row_sum(buf, x0, y0 + j - 1, w0)
    }
}

/// The plain intensity sum of block `(bx, by)` under the naive partition of
/// the image into `n × n` equal `w0 × h0` rectangles.
pub open spec fn naive_block_sum(buf: PixelBuffer, w0: int, h0: int, bx: int, by: int) -> int {
    rect_sum(buf, bx * w0, by * h0, w0, h0)
}

/// One grid row of naive block sums.
pub open spec fn naive_row_values(buf: PixelBuffer, n: int, w0: int, h0: int, by: int) -> Seq<
    int,
> {
    Seq::new(n as nat, |bx: int| naive_block_sum(buf, w0, h0, bx, by))
}

/// The bit of block `(bx, by)` under the naive partition: the blocks of a
/// grid row share the denominator `w0 * h0`, so their means compare as
/// their sums do.
pub open spec fn naive_hash_bit(
    buf: PixelBuffer,
    n: int,
    w0: int,
    h0: int,
    bx: int,
    by: int,
) -> bool {
    2 * naive_block_sum(buf, w0, h0, bx, by) > med_pair_sum(naive_row_values(buf, n, w0, h0, by))
}

/// All bits of the naive-partition hash, in row-major order.
pub open spec fn naive_hash_bits(buf: PixelBuffer, n: int, w0: int, h0: int) -> Seq<bool> {
    Seq::new((n * n) as nat, |i: int| naive_hash_bit(buf, n, w0, h0, i % n, i / n))
}

/// When an axis divides evenly into `n` runs of `e` pixels, a pixel's
/// weight is `n` inside its block's run and `0` elsewhere.
proof fn lemma_weight_exact(d: int, n: int, b: int, c: int, e: int)
    requires
        d == n * e,
        0 <= b < n,
        0 <= c,
        1 <= n,
        1 <= e,
    ensures
        weight(d, n, b, c) == if b * e <= c < (b + 1) * e {
            n
        } else {
            0
        },
{
    if c < b * e {
        assert((c + 1) * n <= b * d && c * n <= (c + 1) * n) by (nonlinear_arith)
            requires c + 1 <= b * e, d == n * e, 1 <= n, 0 <= c;
    } else if c >= (b + 1) * e {
        assert(c * n >= (b + 1) * d) by (nonlinear_arith)
            requires c >= (b + 1) * e, d == n * e, 1 <= n;
    } else {
        assert(c * n >= b * d && (c + 1) * n <= (b + 1) * d && (c + 1) * n - c * n == n)
            by (nonlinear_arith)
            requires b * e <= c, c + 1 <= (b + 1) * e, d == n * e, 1 <= n;
    }
}

/// Under exact division of the width, a partial row sum is the row weight
/// times `n` times a plain sum over the block's own columns.
proof fn lemma_exact_row_part(
    buf: PixelBuffer,
    n: int,
    bx: int,
    by: int,
    y: int,
    k: int,
    w0: int,
)
    requires
        buf.wf(),
        buf.width == n * w0,
        0 <= bx < n,
        1 <= n,
        1 <= w0,
        0 <= k <= buf.width,
    ensures
        row_part(buf, n, bx, by, y, k) == n * weight(buf.height as int, n, by, y) * rect_row_sum(
            buf,
            bx * w0,
            y,
            clip(k - bx * w0, w0),
        ),
    decreases k,
{
    let wy = weight(buf.height as int, n, by, y);
    if k <= 0 {
        assert(n * wy * 0 == 0) by (nonlinear_arith);
    } else {
        lemma_exact_row_part(buf, n, bx, by, y, k - 1, w0);
        lemma_weight_exact(buf.width as int, n, bx, k - 1, w0);
        let m = clip(k - 1 - bx * w0, w0);
        let m2 = clip(k - bx * w0, w0);
        let r = rect_row_sum(buf, bx * w0, y, m);
        if k - 1 < bx * w0 {
            assert(m == 0 && m2 == 0);
            assert(intensity(buf.pixel_at(k - 1, y)) * 0 * wy == 0) by (nonlinear_arith);
        } else if k - 1 < (bx + 1) * w0 {
            assert(bx * w0 <= k - 1);
            assert(0 <= k - 1 - bx * w0 < w0) by (nonlinear_arith)
                requires bx * w0 <= k - 1, k - 1 < (bx + 1) * w0;
            assert(m == k - 1 - bx * w0 && m2 == m + 1);
            let it = intensity(buf.pixel_at(k - 1, y));
            assert(bx * w0 + (m2 - 1) == k - 1);
            assert(rect_row_sum(buf, bx * w0, y, m2) == r + it);
            assert(pixel_term(buf, n, bx, by, k - 1, y) == it * n * wy);
            assert(n * wy * r + it * n * wy == n * wy * (r + it)) by (nonlinear_arith);
        } else {
            assert(k - 1 - bx * w0 >= w0) by (nonlinear_arith)
                requires k - 1 >= (bx + 1) * w0, 1 <= w0;
            assert(m == w0 && m2 == w0);
            assert(intensity(buf.pixel_at(k - 1, y)) * 0 * wy == 0) by (nonlinear_arith);
        }
    }
}

/// Under exact division of both axes, a partial block sum is `n * n` times
/// a plain rectangle sum over the block's own rows.
proof fn lemma_exact_block_part(
    buf: PixelBuffer,
    n: int,
    bx: int,
    by: int,
    j: int,
    w0: int,
    h0: int,
)
    requires
        buf.wf(),
        buf.width == n * w0,
        buf.height == n * h0,
        0 <= bx < n,
        0 <= by < n,
        1 <= n,
        1 <= w0,
        1 <= h0,
        0 <= j <= buf.height,
    ensures
        block_part(buf, n, bx, by, j) == n * n * rect_sum(
            buf,
            bx * w0,
            by * h0,
            w0,
            clip(j - by * h0, h0),
        ),
    decreases j,
{
    if j <= 0 {
        assert(n * n * 0 == 0) by (nonlinear_arith);
    } else {
        lemma_exact_block_part(buf, n, bx, by, j - 1, w0, h0);
        lemma_exact_row_part(buf, n, bx, by, j - 1, buf.width as int, w0);
        lemma_weight_exact(buf.height as int, n, by, j - 1, h0);
        assert(clip(buf.width - bx * w0, w0) == w0) by (nonlinear_arith)
            requires buf.width == n * w0, bx + 1 <= n, 1 <= w0, 0 <= bx;
        let wy = weight(buf.height as int, n, by, j - 1);
        let m = clip(j - 1 - by * h0, h0);
        let m2 = clip(j - by * h0, h0);
        let rr = rect_row_sum(buf, bx * w0, j - 1, w0);
        let rs = rect_sum(buf, bx * w0, by * h0, w0, m);
        if j - 1 < by * h0 {
            assert(m == 0 && m2 == 0);
            assert(n * 0 * rr == 0) by (nonlinear_arith);
        } else if j - 1 < (by + 1) * h0 {
            assert(0 <= j - 1 - by * h0 < h0) by (nonlinear_arith)
                requires by * h0 <= j - 1, j - 1 < (by + 1) * h0;
            assert(m == j - 1 - by * h0 && m2 == m + 1);
            assert(wy == n);
            assert(by * h0 + (m2 - 1) == j - 1);
            assert(rect_sum(buf, bx * w0, by * h0, w0, m2) == rs + rr);
            assert(row_part(buf, n, bx, by, j - 1, buf.width as int) == n * n * rr)
                by (nonlinear_arith)
                requires
                    row_part(buf, n, bx, by, j - 1, buf.width as int) == n * wy * rr,
                    wy == n,
            ;
            assert(n * n * rs + n * n * rr == n * n * (rs + rr)) by (nonlinear_arith);
        } else {
            assert(j - 1 - by * h0 >= h0) by (nonlinear_arith)
                requires j - 1 >= (by + 1) * h0, 1 <= h0;
            assert(m == h0 && m2 == h0);
            assert(n * 0 * rr == 0) by (nonlinear_arith);
        }
    }
}

/// Under exact division, the area-weighted block sum is exactly `n * n`
/// times the naive block sum: the weighted mean over `width * height`
/// equals the plain mean over `w0 * h0`.
pub proof fn lemma_exact_block_sum(buf: PixelBuffer, n: int, bx: int, by: int, w0: int, h0: int)
    requires
        buf.wf(),
        buf.width == n * w0,
        buf.height == n * h0,
        0 <= bx < n,
        0 <= by < n,
        1 <= n,
        1 <= w0,
        1 <= h0,
    ensures
        block_sum(buf, n, bx, by) == n * n * naive_block_sum(buf, w0, h0, bx, by),
{
    lemma_exact_block_part(buf, n, bx, by, buf.height as int, w0, h0);
    assert(clip(buf.height - by * h0, h0) == h0) by (nonlinear_arith)
        requires buf.height == n * h0, by + 1 <= n, 1 <= h0, 0 <= by;
}

/// Inserting into a sequence scaled by a positive factor scales the
/// insertion.
proof fn lemma_insert_scale(m: int, x: int, s: Seq<int>)
    requires
        m >= 1,
    ensures
        insert_sorted(m * x, s.map_values(|v: int| m * v)) == insert_sorted(x, s).map_values(
            |v: int| m * v,
        ),
    decreases s.len(),
{
    let f = |v: int| m * v;
    let sm = s.map_values(f);
    if s.len() == 0 {
        assert(insert_sorted(m * x, sm) =~= insert_sorted(x, s).map_values(f));
    } else {
        assert(sm[0] == m * s[0]);
        if x <= s[0] {
            assert(m * x <= m * s[0]) by (nonlinear_arith)
                requires x <= s[0], m >= 1;
            assert(seq![m * x] + sm =~= (seq![x] + s).map_values(f));
        } else {
            assert(m * x > m * s[0]) by (nonlinear_arith)
                requires x > s[0], m >= 1;
            assert(sm.drop_first() =~= s.drop_first().map_values(f));
            lemma_insert_scale(m, x, s.drop_first());
            assert(seq![m * s[0]] + insert_sorted(x, s.drop_first()).map_values(f) =~= (seq![s[0]]
                + insert_sorted(x, s.drop_first())).map_values(f));
        }
    }
}

/// Sorting a sequence scaled by a positive factor scales the sorted
/// sequence.
proof fn lemma_sort_scale(m: int, s: Seq<int>)
    requires
        m >= 1,
    ensures
        sort_ints(s.map_values(|v: int| m * v)) == sort_ints(s).map_values(|v: int| m * v),
    decreases s.len(),
{
    let f = |v: int| m * v;
    let sm = s.map_values(f);
    if s.len() == 0 {
        assert(sort_ints(sm) =~= sort_ints(s).map_values(f));
    } else {
        assert(sm.last() == m * s.last());
        assert(sm.drop_last() =~= s.drop_last().map_values(f));
        lemma_sort_scale(m, s.drop_last());
        lemma_insert_scale(m, s.last(), sort_ints(s.drop_last()));
    }
}

/// Scaling a row by a positive factor scales its median pair sum.
proof fn lemma_med_scale(m: int, s: Seq<int>)
    requires
        m >= 1,
        s.len() >= 2,
    ensures
        med_pair_sum(s.map_values(|v: int| m * v)) == m * med_pair_sum(s),
{
    let f = |v: int| m * v;
    let sm = s.map_values(f);
    lemma_sort_scale(m, s);
    crate::median::lemma_sort_ints_len(s);
    let t = sort_ints(s);
    let lo = t[s.len() as int / 2 - 1];
    let hi = t[s.len() as int / 2];
    assert(sort_ints(sm)[s.len() as int / 2 - 1] == m * lo);
    assert(sort_ints(sm)[s.len() as int / 2] == m * hi);
    assert(m * lo + m * hi == m * (lo + hi)) by (nonlinear_arith);
}

/// For an image whose dimensions are exact multiples of the grid size, the
/// area-weighted hash equals the hash of the naive partition into equal
/// `w0 × h0` rectangles: the weighted accounting degenerates to plain
/// means.
pub proof fn lemma_exact_division_hash(buf: PixelBuffer, n: usize, w0: int, h0: int)
    requires
        buf.wf(),
        valid_granularity(n),
        w0 >= 1,
        h0 >= 1,
        buf.width == n * w0,
        buf.height == n * h0,
    ensures
        hash_bits(buf, n as int) =~= naive_hash_bits(buf, n as int, w0, h0),
{
    let nn = n as int;
    let m = nn * nn;
    assert(nn * nn >= 16) by (nonlinear_arith)
        requires nn >= 4;
    assert forall|i: int| 0 <= i < nn * nn implies #[trigger] hash_bits(buf, nn)[i]
        == naive_hash_bits(buf, nn, w0, h0)[i] by {
        let bx = i % nn;
        let by = i / nn;
        vstd::arithmetic::div_mod::lemma_mod_division_less_than_divisor(i, nn);
        vstd::arithmetic::div_mod::lemma_div_pos_is_pos(i, nn);
        vstd::arithmetic::div_mod::lemma_multiply_divide_lt(i, nn, nn);
        let f = |v: int| m * v;
        let naive_row = naive_row_values(buf, nn, w0, h0, by);
        assert forall|k: int| 0 <= k < nn implies #[trigger] row_values(buf, nn, by)[k] == m
            * naive_row[k] by {
            lemma_exact_block_sum(buf, nn, k, by, w0, h0);
        }
        assert(row_values(buf, nn, by) =~= naive_row.map_values(f));
        lemma_med_scale(m, naive_row);
        lemma_exact_block_sum(buf, nn, bx, by, w0, h0);
        let sv = naive_block_sum(buf, w0, h0, bx, by);
        let tv = med_pair_sum(naive_row);
        assert((2 * (m * sv) > m * tv) == (2 * sv > tv)) by (nonlinear_arith)
            requires m >= 1;
    }
}

/// The intensity-times-column-weight sum of the first `k` pixels of row
/// `y`, without the row's own weight factor.
pub open spec fn xsum(buf: PixelBuffer, n: int, bx: int, y: int, k: int) -> int
    decreases k,
{
    if k <= 0 {
        0
    } else {
        xsum(buf, n, bx, y, k - 1) + intensity(buf.pixel_at(k - 1, y)) * weight(
            buf.width as int,
            n,
            bx,
            k - 1,
        )
    }
}

/// A partial row sum factors into the column part and the row weight.
proof fn lemma_row_part_factor(buf: PixelBuffer, n: int, bx: int, by: int, y: int, k: int)
    ensures
        row_part(buf, n, bx, by, y, k) == xsum(buf, n, bx, y, k) * weight(
            buf.height as int,
            n,
            by,
            y,
        ),
    decreases k,
{
    let wy = weight(buf.height as int, n, by, y);
    if k <= 0 {
        assert(0 * wy == 0) by (nonlinear_arith);
    } else {
        lemma_row_part_factor(buf, n, bx, by, y, k - 1);
        let xs = xsum(buf, n, bx, y, k - 1);
        let it = intensity(buf.pixel_at(k - 1, y));
        let wx = weight(buf.width as int, n, bx, k - 1);
        assert(pixel_term(buf, n, bx, by, k - 1, y) == it * wx * wy);
        assert(xs * wy + it * wx * wy == (xs + it * wx) * wy) by (nonlinear_arith);
    }
}

/// Doubling every coordinate doubles an overlap length.
proof fn lemma_overlap_double(a1: int, a2: int, b1: int, b2: int)
    ensures
        overlap(2 * a1, 2 * a2, 2 * b1, 2 * b2) == 2 * overlap(a1, a2, b1, b2),
{
}

/// On an axis of doubled extent, the two half-pixels of a doubled pixel
/// together weigh twice what the pixel weighs on the original axis.
proof fn lemma_weight_double(d: int, n: int, b: int, c: int)
    requires
        0 <= n,
    ensures
        weight(2 * d, n, b, 2 * c) + weight(2 * d, n, b, 2 * c + 1) == 2 * weight(d, n, b, c),
{
    let a = 2 * c * n;
    let m = (2 * c + 1) * n;
    let e = (2 * c + 2) * n;
    let b1 = b * (2 * d);
    let b2 = (b + 1) * (2 * d);
    assert(2 * c * n <= (2 * c + 1) * n <= (2 * c + 2) * n) by (nonlinear_arith)
        requires 0 <= n;
    lemma_overlap_split(a, m, e, b1, b2);
    assert(2 * c * n == 2 * (c * n) && (2 * c + 2) * n == 2 * ((c + 1) * n) && b * (2 * d) == 2 * (
    b * d) && (b + 1) * (2 * d) == 2 * ((b + 1) * d)) by (nonlinear_arith);
    lemma_overlap_double(c * n, (c + 1) * n, b * d, (b + 1) * d);
}

/// `big` is the 2x nearest-neighbor upscale of `small`: each pixel of
/// `small` appears as a 2x2 square of equal pixels.
pub open spec fn is_double_of(big: PixelBuffer, small: PixelBuffer) -> bool {
    &&& big.width == 2 * small.width
    &&& big.height == 2 * small.height
    &&& forall|x: int, y: int|
        0 <= x < small.width && 0 <= y < small.height ==> {
            &&& #[trigger] big.pixel_at(2 * x, 2 * y) == small.pixel_at(x, y)
            &&& big.pixel_at(2 * x + 1, 2 * y) == small.pixel_at(x, y)
            &&& big.pixel_at(2 * x, 2 * y + 1) == small.pixel_at(x, y)
            &&& big.pixel_at(2 * x + 1, 2 * y + 1) == small.pixel_at(x, y)
        }
}

/// Column sums pair up under a 2x upscale: the first `2k` pixels of a
/// doubled row weigh in at twice the first `k` pixels of the original row.
proof fn lemma_xsum_double(
    big: PixelBuffer,
    small: PixelBuffer,
    n: int,
    bx: int,
    yi: int,
    parity: int,
    k: int,
)
    requires
        is_double_of(big, small),
        0 <= n,
        0 <= yi < small.height,
        parity == 0 || parity == 1,
        0 <= k <= small.width,
    ensures
        xsum(big, n, bx, 2 * yi + parity, 2 * k) == 2 * xsum(small, n, bx, yi, k),
    decreases k,
{
    let y2 = 2 * yi + parity;
    if k <= 0 {
    } else {
        lemma_xsum_double(big, small, n, bx, yi, parity, k - 1);
        let xi = k - 1;
        assert(big.pixel_at(2 * xi, 2 * yi) == small.pixel_at(xi, yi));
        assert(2 * k - 1 == 2 * xi + 1 && 2 * k - 2 == 2 * xi);
        let it = intensity(small.pixel_at(xi, yi));
        assert(intensity(big.pixel_at(2 * xi, y2)) == it);
        assert(intensity(big.pixel_at(2 * xi + 1, y2)) == it);
        let w1 = weight(big.width as int, n, bx, 2 * xi);
        let w2 = weight(big.width as int, n, bx, 2 * xi + 1);
        let ws = weight(small.width as int, n, bx, xi);
        lemma_weight_double(small.width as int, n, bx, xi);
        assert(xsum(big, n, bx, y2, 2 * k - 1) == xsum(big, n, bx, y2, 2 * k - 2) + intensity(
            big.pixel_at(2 * k - 2, y2),
        ) * weight(big.width as int, n, bx, 2 * k - 2));
        assert(xsum(big, n, bx, y2, 2 * k) == xsum(big, n, bx, y2, 2 * k - 1) + intensity(
            big.pixel_at(2 * k - 1, y2),
        ) * weight(big.width as int, n, bx, 2 * k - 1));
        assert(xsum(big, n, bx, y2, 2 * k) == xsum(big, n, bx, y2, 2 * k - 2) + it * w1 + it
            * w2);
        assert(2 * xsum(small, n, bx, yi, k - 1) + it * w1 + it * w2 == 2 * (xsum(
            small,
            n,
            bx,
            yi,
            k - 1,
        ) + it * ws)) by (nonlinear_arith)
            requires w1 + w2 == 2 * ws;
    }
}

/// Block sums quadruple under a 2x upscale: each original pixel is covered
/// four times at half the linear weight on each axis.
proof fn lemma_block_part_double(
    big: PixelBuffer,
    small: PixelBuffer,
    n: int,
    bx: int,
    by: int,
    j: int,
)
    requires
        is_double_of(big, small),
        0 <= n,
        0 <= j <= small.height,
    ensures
        block_part(big, n, bx, by, 2 * j) == 4 * block_part(small, n, bx, by, j),
    decreases j,
{
    if j <= 0 {
    } else {
        lemma_block_part_double(big, small, n, bx, by, j - 1);
        let yi = j - 1;
        let w2 = big.width as int;
        lemma_xsum_double(big, small, n, bx, yi, 0, small.width as int);
        lemma_xsum_double(big, small, n, bx, yi, 1, small.width as int);
        lemma_row_part_factor(big, n, bx, by, 2 * yi, w2);
        lemma_row_part_factor(big, n, bx, by, 2 * yi + 1, w2);
        lemma_row_part_factor(small, n, bx, by, yi, small.width as int);
        lemma_weight_double(small.height as int, n, by, yi);
        let xs = xsum(small, n, bx, yi, small.width as int);
        let wy1 = weight(big.height as int, n, by, 2 * yi);
        let wy2 = weight(big.height as int, n, by, 2 * yi + 1);
        let wys = weight(small.height as int, n, by, yi);
        assert(w2 == 2 * small.width);
        assert(xsum(big, n, bx, 2 * yi, w2) == 2 * xs);
        assert(xsum(big, n, bx, 2 * yi + 1, w2) == 2 * xs);
        assert(block_part(big, n, bx, by, 2 * j - 1) == block_part(big, n, bx, by, 2 * j - 2)
            + row_part(big, n, bx, by, 2 * j - 2, w2));
        assert(block_part(big, n, bx, by, 2 * j) == block_part(big, n, bx, by, 2 * j - 1)
            + row_part(big, n, bx, by, 2 * j - 1, w2));
        assert(block_part(big, n, bx, by, 2 * j) == block_part(big, n, bx, by, 2 * j - 2)
            + row_part(big, n, bx, by, 2 * j - 2, w2) + row_part(big, n, bx, by, 2 * j - 1, w2));
        assert(2 * j - 2 == 2 * yi && 2 * j - 1 == 2 * yi + 1);
        assert(2 * xs * wy1 + 2 * xs * wy2 == 4 * (xs * wys)) by (nonlinear_arith)
            requires wy1 + wy2 == 2 * wys;
        assert(4 * block_part(small, n, bx, by, j - 1) + 4 * (xs * wys) == 4 * (block_part(
            small,
            n,
            bx,
            by,
            j - 1,
        ) + xs * wys)) by (nonlinear_arith);
    }
}

/// A 2x nearest-neighbor upscale leaves every hash bit unchanged: all
/// block sums quadruple, so every row's order, median and comparisons are
/// preserved exactly.
pub proof fn lemma_double_scale_hash(big: PixelBuffer, small: PixelBuffer, n: usize)
    requires
        valid_granularity(n),
        is_double_of(big, small),
    ensures
        hash_bits(big, n as int) =~= hash_bits(small, n as int),
{
    let nn = n as int;
    assert forall|i: int| 0 <= i < nn * nn implies #[trigger] hash_bits(big, nn)[i] == hash_bits(
        small,
        nn,
    )[i] by {
        let bx = i % nn;
        let by = i / nn;
        vstd::arithmetic::div_mod::lemma_mod_division_less_than_divisor(i, nn);
        vstd::arithmetic::div_mod::lemma_div_pos_is_pos(i, nn);
        vstd::arithmetic::div_mod::lemma_multiply_divide_lt(i, nn, nn);
        let f = |v: int| 4 * v;
        let small_row = row_values(small, nn, by);
        assert forall|k: int| 0 <= k < nn implies #[trigger] row_values(big, nn, by)[k] == 4
            * small_row[k] by {
            lemma_block_part_double(big, small, nn, k, by, small.height as int);
        }
        assert(row_values(big, nn, by) =~= small_row.map_values(f));
        lemma_med_scale(4, small_row);
        lemma_block_part_double(big, small, nn, bx, by, small.height as int);
        let sv = block_sum(small, nn, bx, by);
        let tv = med_pair_sum(small_row);
        assert((2 * (4 * sv) > 4 * tv) == (2 * sv > tv)) by (nonlinear_arith);
    }
}

} // verus!
