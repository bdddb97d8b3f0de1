//! Morton (Z-order) codes for grid cells: interleaving the bits of a cell's
//! x and y coordinates gives an integer whose 2-bit groups, read from the top,
//! walk down the quadtree one child at a time. The lemmas here connect the
//! bit-level code with the arithmetic (`pow2`-division) view that the
//! quadtree's specifications use.

use vstd::prelude::*;

verus! {

use vstd::arithmetic::power2::pow2;
use vstd::bits::lemma_usize_shr_is_div;

/// Spreads the low 16 bits of `n` to the even bit positions: bit `i` of `n`
/// moves to bit `2*i`, and the odd positions are zero —
/// [`lemma_spread_bits_places`] states exactly that of this mask chain.
pub open spec fn spread_bits(n: usize) -> usize {
    let a = (n | (n << 8)) & 0x00ff00ff;
    let b = (a | (a << 4)) & 0x0f0f0f0f;
    let c = (b | (b << 2)) & 0x33333333;
    (c | (c << 1)) & 0x55555555
}

/// What spreading means bit by bit: bit `i` of the input appears at bit
/// `2*i` of the result, and every odd bit of the result is zero.
pub proof fn lemma_spread_bits_places(n: usize, i: usize)
    requires
        n < 0x10000,
        i < 16,
    ensures
        (spread_bits(n) >> (2 * i)) & 1 == (n >> i) & 1,
        (spread_bits(n) >> (2 * i + 1)) & 1 == 0,
{
    assert(((spread_bits(n) >> (2 * i)) & 1 == (n >> i) & 1) && ((spread_bits(n) >> (2 * i + 1))
        & 1 == 0)) by (bit_vector)
        requires
            n < 0x10000usize,
            i < 16usize,
    ;
}

/// The Morton code of the cell `(x, y)`: the bits of `x` on even positions
/// interleaved with the bits of `y` on odd positions.
pub open spec fn morton_spec(x: usize, y: usize) -> usize {
    spread_bits(x) | (spread_bits(y) << 1)
}

/// Bit-separate: spread the low bits of a 16-bit value so that two spread
/// values can be OR'd into one interleaved (Morton) code.
pub fn bit_separate(n: usize) -> (r: usize)
    requires
        n < 0x10000,
    ensures
        r == spread_bits(n),
        r <= 0x55555555,
{
    let n1 = (n | (n << 8)) & 0x00ff00ff;
    let n2 = (n1 | (n1 << 4)) & 0x0f0f0f0f;
    let n3 = (n2 | (n2 << 2)) & 0x33333333;
    let r = (n3 | (n3 << 1)) & 0x55555555;
    proof {
        assert(r == spread_bits(n) && r <= 0x55555555usize) by (bit_vector)
            requires
                n < 0x10000usize,
                n1 == (n | (n << 8)) & 0x00ff00ff,
                n2 == (n1 | (n1 << 4)) & 0x0f0f0f0f,
                n3 == (n2 | (n2 << 2)) & 0x33333333,
                r == (n3 | (n3 << 1)) & 0x55555555,
        ;
    }
    r
}

/// Interleaving keeps each coordinate's bits apart: a Morton code determines
/// its cell.
pub proof fn lemma_morton_injective(x1: usize, y1: usize, x2: usize, y2: usize)
    requires
        x1 < 0x10000,
        y1 < 0x10000,
        x2 < 0x10000,
        y2 < 0x10000,
        morton_spec(x1, y1) == morton_spec(x2, y2),
    ensures
        x1 == x2,
        y1 == y2,
{
    assert(x1 == x2 && y1 == y2) by (bit_vector)
        requires
            x1 < 0x10000usize,
            y1 < 0x10000usize,
            x2 < 0x10000usize,
            y2 < 0x10000usize,
            spread_bits(x1) | (spread_bits(y1) << 1) == spread_bits(x2) | (spread_bits(y2) << 1),
    ;
}

/// Dropping the last `k` levels of a Morton code gives the Morton code of the
/// cell coordinates with their last `k` bits dropped.
pub proof fn lemma_morton_shift(x: usize, y: usize, k: usize)
    requires
        x < 0x10000,
        y < 0x10000,
        k <= 8,
    ensures
        morton_spec(x, y) >> (2 * k) == morton_spec(x >> k, y >> k),
{
    assert((spread_bits(x) | (spread_bits(y) << 1)) >> (2 * k) == spread_bits(x >> k) | (
    spread_bits(y >> k) << 1)) by (bit_vector)
        requires
            x < 0x10000usize,
            y < 0x10000usize,
            k <= 8usize,
    ;
}

/// A Morton code of cells below `1 << l` stays below `1 << (2 * l)`.
pub proof fn lemma_morton_range(x: usize, y: usize, l: usize)
    requires
        l <= 8,
        x < (1usize << l),
        y < (1usize << l),
    ensures
        morton_spec(x, y) < (1usize << (2 * l)),
{
    assert((spread_bits(x) | (spread_bits(y) << 1)) < (1usize << (2 * l))) by (bit_vector)
        requires
            l <= 8usize,
            x < (1usize << l),
            y < (1usize << l),
    ;
}

/// Two values agree after shifting away `k` bits exactly when their xor
/// shifts away to zero.
pub proof fn lemma_xor_high_zero(a: usize, b: usize, k: usize)
    requires
        k <= 16,
    ensures
        ((a ^ b) >> k == 0) <==> (a >> k == b >> k),
{
    assert(((a ^ b) >> k == 0) <==> (a >> k == b >> k)) by (bit_vector)
        requires
            k <= 16usize,
    ;
}

/// Xor stays within the operands' common range.
pub proof fn lemma_xor_bound(a: usize, b: usize, k: usize)
    requires
        k <= 16,
        a < (1usize << k),
        b < (1usize << k),
    ensures
        (a ^ b) < (1usize << k),
{
    assert((a ^ b) < (1usize << k)) by (bit_vector)
        requires
            k <= 16usize,
            a < (1usize << k),
            b < (1usize << k),
    ;
}

/// A shifted 16-bit value stays within 16 bits.
pub proof fn lemma_shr_small(x: usize, k: usize)
    requires
        k <= 16,
        x < 0x10000,
    ensures
        (x >> k) < 0x10000,
{
    assert((x >> k) < 0x10000usize) by (bit_vector)
        requires
            k <= 16usize,
            x < 0x10000usize,
    ;
}

/// A value between two others that share their high bits shares them too.
pub proof fn lemma_shr_between(lo: usize, mid: usize, hi: usize, k: usize)
    requires
        k <= 16,
        lo <= mid <= hi,
        lo >> k == hi >> k,
    ensures
        mid >> k == lo >> k,
{
    assert(mid >> k == lo >> k) by (bit_vector)
        requires
            k <= 16usize,
            lo <= mid <= hi,
            lo >> k == hi >> k,
    ;
}

/// Right shift is division by the matching power of two.
pub proof fn lemma_shr_is_div_pow2(x: usize, k: usize)
    requires
        k <= 16,
    ensures
        x >> k == x as nat / pow2(k as nat),
{
    lemma_usize_shr_is_div(x, k);
}

} // verus!
