//! Rendering a bit sequence as lowercase hexadecimal.
//!
//! Bits are taken most-significant first, four per digit, and the digit
//! count is the bit count divided by four (the supported bit counts are
//! all multiples of four).

use vstd::prelude::*;

verus! {

pub open spec fn bit_val(b: bool) -> int {
    if b {
        1
    } else {
        0
    }
}

/// The value in `[0, 15]` of the `i`-th group of four bits, first bit
/// most significant.
pub open spec fn nibble_value(bits: Seq<bool>, i: int) -> int {
    8 * bit_val(bits[4 * i]) + 4 * bit_val(bits[4 * i + 1]) + 2 * bit_val(bits[4 * i + 2])
        + bit_val(bits[4 * i + 3])
}

/// The ASCII code of the lowercase hexadecimal digit for `v` in `[0, 15]`:
/// `'0'` through `'9'`, then `'a'` through `'f'`.
pub open spec fn hex_digit(v: int) -> u8 {
    if v < 10 {
        (48 + v) as u8
    } else {
        (87 + v) as u8
    }
}

/// The hexadecimal rendering of a bit sequence, as ASCII bytes.
pub open spec fn hex_bytes(bits: Seq<bool>) -> Seq<u8> {
    Seq::new((bits.len() / 4) as nat, |i: int| hex_digit(nibble_value(bits, i)))
}

/// The same rendering, as characters.
pub open spec fn hex_chars(bits: Seq<bool>) -> Seq<char> {
    hex_bytes(bits).map_values(|b: u8| b as char)
}

/// Renders a bit vector whose length is a multiple of four as lowercase
/// hexadecimal ASCII bytes.
pub fn bits_to_hex_bytes(bits: &Vec<bool>) -> (r: Vec<u8>)
    requires
        bits@.len() % 4 == 0,
    ensures
        r@ == hex_bytes(bits@),
        r@.len() == bits@.len() / 4,
{
    let m = bits.len() / 4;
    proof {
        vstd::arithmetic::div_mod::lemma_fundamental_div_mod(bits@.len() as int, 4);
    }
    let mut r: Vec<u8> = Vec::new();
    let mut i: usize = 0;
    while i < m
        invariant
            bits@.len() == 4 * m,
            bits@.len() <= usize::MAX,
            i <= m,
            r@.len() == i,
            forall|j: int| 0 <= j < i ==> r@[j] == hex_digit(nibble_value(bits@, j)),
        decreases m - i,
    {
        assert(4 * i + 3 < bits@.len());
        let b0: u8 = if bits[4 * i] {
            8
        } else {
            0
        };
        let b1: u8 = if bits[4 * i + 1] {
            4
        } else {
            0
        };
        let b2: u8 = if bits[4 * i + 2] {
            2
        } else {
            0
        };
        let b3: u8 = if bits[4 * i + 3] {
            1
        } else {
            0
        };
        let v = b0 + b1 + b2 + b3;
        let d = if v < 10 {
            48 + v
        } else {
            87 + v
        };
        assert(v as int == nibble_value(bits@, i as int));
        assert(d == hex_digit(nibble_value(bits@, i as int)));
        r.push(d);
        i = i + 1;
    }
    proof {
        assert(r@ =~= hex_bytes(bits@));
    }
    r
}

} // verus!
