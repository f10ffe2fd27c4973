//! The block-mean hash itself.
//!
//! Every block's weighted intensity sum is compared against the median of
//! its grid row: the block's bit is set exactly when twice its sum exceeds
//! the sum of the two middle values of the sorted row, so a block equal to
//! the median yields a zero bit. Bits are ordered row-major, block `(0, 0)`
//! first.

use vstd::prelude::*;
use crate::grid::block_sum;
use crate::grid::block_sum_exec;
use crate::hex::hex_bytes;
use crate::hex::hex_chars;
use crate::hex::bits_to_hex_bytes;
use crate::median::med_pair_sum;
use crate::median::sort_row;
use crate::median::to_ints;
use crate::pixels::PixelBuffer;
use crate::valid_granularity;

verus! {

/// Why a hash could not be produced.
#[derive(Clone, Copy, Debug, PartialEq, Eq, Structural)]
pub enum HashError {
    /// The grid size is not one of 4, 8, 12 or 16.
    InvalidGranularity,
    /// The buffer has no columns or no rows.
    EmptyOrDegenerateBuffer,
}

/// The values of one grid row of blocks: the weighted intensity sums of
/// blocks `(0, by)` through `(n - 1, by)`.
pub open spec fn row_values(buf: PixelBuffer, n: int, by: int) -> Seq<int> {
    Seq::new(n as nat, |bx: int| block_sum(buf, n, bx, by))
}

/// The bit of block `(bx, by)`: set exactly when twice the block's value
/// strictly exceeds twice the median of its grid row, so that a block equal
/// to the median resolves to zero.
pub open spec fn hash_bit(buf: PixelBuffer, n: int, bx: int, by: int) -> bool {
    2 * block_sum(buf, n, bx, by) > med_pair_sum(row_values(buf, n, by))
}

/// All `n * n` hash bits in row-major order: bit `i` belongs to block
/// `(i % n, i / n)`.
pub open spec fn hash_bits(buf: PixelBuffer, n: int) -> Seq<bool> {
    Seq::new((n * n) as nat, |i: int| hash_bit(buf, n, i % n, i / n))
}

/// An `n * n`-bit block-mean hash.
pub struct BlockHash {
    pub n: usize,
    pub bits: Vec<bool>,
}

impl BlockHash {
    /// A hash holds one bit per block of a supported grid.
    pub open spec fn wf(&self) -> bool {
        valid_granularity(self.n) && self.bits@.len() == self.n * self.n
    }

    /// The number of bits in the hash.
    pub fn bit_count(&self) -> (r: usize)
        requires
            self.wf(),
        ensures
            r == self.n * self.n,
    {
        self.n * self.n
    }

    /// The hash as lowercase hexadecimal ASCII bytes, most significant bit
    /// first, `n * n / 4` digits.
    pub fn to_hex_bytes(&self) -> (r: Vec<u8>)
        requires
            self.wf(),
        ensures
            r@ == hex_bytes(self.bits@),
            r@.len() == self.n * self.n / 4,
    {
        bits_to_hex_bytes(&self.bits)
    }

    /// The hash as a lowercase hexadecimal string of `n * n / 4` digits.
    pub fn to_hex(&self) -> (r: String)
        requires
            self.wf(),
        ensures
            r@ == hex_chars(self.bits@),
            r@.len() == self.n * self.n / 4,
    {
        let bytes = self.to_hex_bytes();
        proof {
            assert forall|i: int| 0 <= i < bytes@.len() implies bytes@[i] < 128 by {
                assert(bytes@[i] == hex_bytes(self.bits@)[i]);
            }
        }
        let r = ascii_to_string(bytes);
        proof {
            assert(r@ =~= hex_chars(self.bits@));
        }
        r
    }
}

/// Relies on String::from_utf8: bytes below 128 are one-byte UTF-8 and
/// decode to exactly those characters.
#[verifier::external_body]
fn ascii_to_string(bytes: Vec<u8>) -> (r: String)
    requires
        forall|i: int| 0 <= i < bytes@.len() ==> bytes@[i] < 128,
    ensures
        r@ == bytes@.map_values(|b: u8| b as char),
{
    match String::from_utf8(bytes) {
        Ok(s) => s,
        Err(_) => String::new(),
    }
}

/// Two distinct grid cells have distinct row-major indices.
proof fn lemma_grid_index_inj(n: int, a1: int, a2: int, b1: int, b2: int)
    requires
        0 <= a1 < n,
        0 <= b1 < n,
        0 <= a2,
        0 <= b2,
        a2 * n + a1 == b2 * n + b1,
    ensures
        a1 == b1,
        a2 == b2,
{
    assert(a1 == b1 && a2 == b2) by (nonlinear_arith)
        requires 0 <= a1 < n, 0 <= b1 < n, 0 <= a2, 0 <= b2, a2 * n + a1 == b2 * n + b1;
}

/// Computes all `n * n` block sums, in row-major order.
fn compute_block_sums(buf: &PixelBuffer, n: usize) -> (r: Vec<u128>)
    requires
        buf.wf(),
        valid_granularity(n),
        buf.width >= 1,
        buf.height >= 1,
    ensures
        r@.len() == n * n,
        forall|bx: int, by: int|
            0 <= bx < n && 0 <= by < n ==> (#[trigger] r@[by * (n as int) + bx]) as int
                == block_sum(*buf, n as int, bx, by),
        forall|i: int| 0 <= i < r@.len() ==> (#[trigger] r@[i]) as int <= 195840 * (buf.width
            * buf.height),
{
    let mut r: Vec<u128> = Vec::new();
    let mut by: usize = 0;
    while by < n
        invariant
            buf.wf(),
            valid_granularity(n),
            buf.width >= 1,
            buf.height >= 1,
            by <= n,
            r@.len() == by * n,
            forall|b1: int, b2: int|
                0 <= b1 < n && 0 <= b2 < n && b2 * (n as int) + b1 < r@.len() ==> (
                #[trigger] r@[b2 * (n as int) + b1]) as int == block_sum(*buf, n as int, b1, b2),
            forall|i: int| 0 <= i < r@.len() ==> (#[trigger] r@[i]) as int <= 195840 * (buf.width
                * buf.height),
        decreases n - by,
    {
        let mut bx: usize = 0;
        while bx < n
            invariant
                buf.wf(),
                valid_granularity(n),
                buf.width >= 1,
                buf.height >= 1,
                by < n,
                bx <= n,
                r@.len() == by * n + bx,
                forall|b1: int, b2: int|
                    0 <= b1 < n && 0 <= b2 < n && b2 * (n as int) + b1 < r@.len() ==> (
                    #[trigger] r@[b2 * (n as int) + b1]) as int == block_sum(
                        *buf,
                        n as int,
                        b1,
                        b2,
                    ),
                forall|i: int| 0 <= i < r@.len() ==> (#[trigger] r@[i]) as int <= 195840
                    * (buf.width * buf.height),
            decreases n - bx,
        {
            proof {
                assert((by as int) * (n as int) + (bx as int) < (n as int) * (n as int))
                    by (nonlinear_arith)
                    requires (by as int) < (n as int), (bx as int) < (n as int), 0 <= bx, 0 <= by;
            }
            let s = block_sum_exec(buf, n, bx, by);
            let ghost prev = r@;
            r.push(s);
            proof {
                assert forall|b1: int, b2: int|
                    0 <= b1 < n && 0 <= b2 < n && b2 * (n as int) + b1 < r@.len() implies (
                    #[trigger] r@[b2 * (n as int) + b1]) as int == block_sum(
                        *buf,
                        n as int,
                        b1,
                        b2,
                    ) by {
                    if b2 * (n as int) + b1 == prev.len() {
                        lemma_grid_index_inj(n as int, b1, b2, bx as int, by as int);
                        assert(r@[b2 * (n as int) + b1] == s);
                    } else {
                        assert(r@[b2 * (n as int) + b1] == prev[b2 * (n as int) + b1]);
                    }
                }
            }
            bx = bx + 1;
        }
        proof {
            assert((by as int) * (n as int) + (n as int) == ((by as int) + 1) * (n as int))
                by (nonlinear_arith);
        }
        by = by + 1;
    }
    proof {
        assert((n as int) * (n as int) == (by as int) * (n as int)) by (nonlinear_arith)
            requires by as int == n as int;
    }
    r
}

/// Computes the block-mean hash of `buf` on an `n × n` grid.
///
/// The hash is a pure function of the pixel contents and `n`: the bits are
/// exactly `hash_bits(*buf, n)`, so repeated calls on equal buffers return
/// equal hashes. The call fails exactly on an unsupported grid size or an
/// empty buffer, and never otherwise.
pub fn compute_hash(buf: &PixelBuffer, n: usize) -> (r: Result<BlockHash, HashError>)
    requires
        buf.wf(),
    ensures
        r matches Ok(h) ==> h.n == n && h.bits@ == hash_bits(*buf, n as int) && h.wf(),
        (r matches Ok(_)) <==> (valid_granularity(n) && buf.width >= 1 && buf.height >= 1),
        !valid_granularity(n) ==> r == Result::<BlockHash, HashError>::Err(
            HashError::InvalidGranularity,
        ),
        valid_granularity(n) && (buf.width == 0 || buf.height == 0) ==> r == Result::<BlockHash, HashError>::Err(HashError::EmptyOrDegenerateBuffer),
{
    if !(n == 4 || n == 8 || n == 12 || n == 16) {
        return Err(HashError::InvalidGranularity);
    }
    if buf.width == 0 || buf.height == 0 {
        return Err(HashError::EmptyOrDegenerateBuffer);
    }
    let area = buf.pixels.len();
    assert(area == buf.width * buf.height);
    let sums = compute_block_sums(buf, n);
    let mut bits: Vec<bool> = Vec::new();
    let mut by: usize = 0;
    while by < n
        invariant
            buf.wf(),
            valid_granularity(n),
            buf.width >= 1,
            buf.height >= 1,
            area == buf.width * buf.height,
            by <= n,
            sums@.len() == n * n,
            forall|b1: int, b2: int|
                0 <= b1 < n && 0 <= b2 < n ==> (#[trigger] sums@[b2 * (n as int) + b1]) as int
                    == block_sum(*buf, n as int, b1, b2),
            forall|i: int| 0 <= i < sums@.len() ==> (#[trigger] sums@[i]) as int <= 195840 * (
            buf.width * buf.height),
            bits@.len() == by * n,
            forall|i: int|
                0 <= i < bits@.len() ==> bits@[i] == hash_bit(
                    *buf,
                    n as int,
                    i % (n as int),
                    i / (n as int),
                ),
        decreases n - by,
    {
        let mut row: Vec<u128> = Vec::new();
        let mut bx: usize = 0;
        while bx < n
            invariant
                by < n,
                bx <= n,
                sums@.len() == n * n,
                valid_granularity(n),
                forall|b1: int, b2: int|
                    0 <= b1 < n && 0 <= b2 < n ==> (#[trigger] sums@[b2 * (n as int) + b1]) as int
                        == block_sum(*buf, n as int, b1, b2),
                forall|i: int| 0 <= i < sums@.len() ==> (#[trigger] sums@[i]) as int <= 195840 * (
                buf.width * buf.height),
                row@.len() == bx,
                forall|k: int|
                    0 <= k < bx ==> (#[trigger] row@[k]) as int == block_sum(
                        *buf,
                        n as int,
                        k,
                        by as int,
                    ),
                forall|k: int| 0 <= k < bx ==> (#[trigger] row@[k]) as int <= 195840 * (buf.width
                    * buf.height),
            decreases n - bx,
        {
            proof {
                assert((by as int) * (n as int) + (bx as int) < (n as int) * (n as int))
                    by (nonlinear_arith)
                    requires (by as int) < (n as int), (bx as int) < (n as int), 0 <= bx, 0 <= by;
                assert((n as int) * (n as int) <= 256) by (nonlinear_arith)
                    requires n == 4 || n == 8 || n == 12 || n == 16;
            }
            let idx = by * n + bx;
            proof {
                assert(sums@[(by as int) * (n as int) + (bx as int)] as int == block_sum(
                    *buf,
                    n as int,
                    bx as int,
                    by as int,
                ));
            }
            row.push(sums[idx]);
            bx = bx + 1;
        }
        let sorted = sort_row(&row);
        proof {
            assert(to_ints(row@) =~= row_values(*buf, n as int, by as int));
            crate::median::lemma_sort_ints_len(to_ints(row@));
        }
        let half = n / 2;
        let m1 = sorted[half - 1];
        let m2 = sorted[half];
        proof {
            assert((m1 as int) <= 195840 * (buf.width * buf.height));
            assert((m2 as int) <= 195840 * (buf.width * buf.height));
            assert(195840 * ((buf.width * buf.height) as int) <= 195840 * 0xffff_ffff_ffff_ffff)
                by (nonlinear_arith)
                requires (buf.width * buf.height) as int <= 0xffff_ffff_ffff_ffff;
        }
        let threshold = m1 + m2;
        let mut bx2: usize = 0;
        while bx2 < n
            invariant
                buf.wf(),
                valid_granularity(n),
                buf.width >= 1,
                buf.height >= 1,
                area == buf.width * buf.height,
                by < n,
                bx2 <= n,
                sums@.len() == n * n,
                forall|b1: int, b2: int|
                    0 <= b1 < n && 0 <= b2 < n ==> (#[trigger] sums@[b2 * (n as int) + b1]) as int
                        == block_sum(*buf, n as int, b1, b2),
                forall|i: int| 0 <= i < sums@.len() ==> (#[trigger] sums@[i]) as int <= 195840 * (
                buf.width * buf.height),
                threshold as int == med_pair_sum(row_values(*buf, n as int, by as int)),
                bits@.len() == by * n + bx2,
                forall|i: int|
                    0 <= i < bits@.len() ==> bits@[i] == hash_bit(
                        *buf,
                        n as int,
                        i % (n as int),
                        i / (n as int),
                    ),
            decreases n - bx2,
        {
            proof {
                assert((by as int) * (n as int) + (bx2 as int) < (n as int) * (n as int))
                    by (nonlinear_arith)
                    requires (by as int) < (n as int), (bx2 as int) < (n as int), 0 <= bx2, 0 <= by;
                assert((n as int) * (n as int) <= 256) by (nonlinear_arith)
                    requires n == 4 || n == 8 || n == 12 || n == 16;
                assert(195840 * ((buf.width * buf.height) as int) <= 195840 * 0xffff_ffff_ffff_ffff)
                    by (nonlinear_arith)
                    requires (buf.width * buf.height) as int <= 0xffff_ffff_ffff_ffff;
            }
            let idx = by * n + bx2;
            proof {
                assert(sums@[(by as int) * (n as int) + (bx2 as int)] as int == block_sum(
                    *buf,
                    n as int,
                    bx2 as int,
                    by as int,
                ));
            }
            let s = sums[idx];
            let bit = 2 * s > threshold;
            proof {
                vstd::arithmetic::div_mod::lemma_fundamental_div_mod_converse(
                    idx as int,
                    n as int,
                    by as int,
                    bx2 as int,
                );
                assert(bit == hash_bit(*buf, n as int, bx2 as int, by as int));
            }
            bits.push(bit);
            bx2 = bx2 + 1;
        }
        proof {
            assert((by as int) * (n as int) + (n as int) == ((by as int) + 1) * (n as int))
                by (nonlinear_arith);
        }
        by = by + 1;
    }
    let h = BlockHash { n, bits };
    proof {
        assert((n as int) * (n as int) == (by as int) * (n as int)) by (nonlinear_arith)
            requires by as int == n as int;
        assert(h.bits@ =~= hash_bits(*buf, n as int));
    }
    Ok(h)
}

} // verus!
