//! Counting the set bits of a mask.

use vstd::prelude::*;

verus! {

/// The number of set bits of `x`.
pub open spec fn ones(x: u32) -> nat
    decreases x,
{
    if x == 0 {
        0
    } else {
        (x % 2) as nat + ones(x / 2)
    }
}

/// `u32::count_ones` returns the number of bits that are set in the binary
/// representation of its argument.
pub assume_specification[ u32::count_ones ](x: u32) -> (n: u32)
    ensures
        n == ones(x),
;

/// A mask has no set bit exactly when it is zero.
pub proof fn lemma_ones_zero(x: u32)
    ensures
        ones(x) == 0 <==> x == 0,
    decreases x,
{
    if x != 0 {
        lemma_ones_zero(x / 2);
    }
}

/// Set bits of a union and of the intersection add up to those of the two
/// masks.
pub proof fn lemma_ones_union(a: u32, b: u32)
    ensures
        ones(a | b) + ones(a & b) == ones(a) + ones(b),
    decreases a + b,
{
    if a == 0 || b == 0 {
        assert(a == 0 || b == 0 ==> (a | b) + (a & b) == a + b && (a & b) == 0) by (bit_vector);
        if a == 0 {
            assert((a | b) == b);
        } else {
            assert((a | b) == a);
        }
    } else {
        lemma_ones_union(a / 2, b / 2);
        assert({
            &&& (a | b) / 2 == (a / 2) | (b / 2)
            &&& (a & b) / 2 == (a / 2) & (b / 2)
            &&& (a | b) % 2 + (a & b) % 2 == a % 2 + b % 2
            &&& (a | b) != 0
        }) by (bit_vector)
            requires
                a != 0,
                b != 0,
        ;
        if (a & b) == 0 {
            assert(((a / 2) & (b / 2)) == 0);
        }
    }
}

/// Set bits of the exclusive or: those of the two masks, less the common ones
/// twice.
pub proof fn lemma_ones_xor(a: u32, b: u32)
    ensures
        ones(a ^ b) + 2 * ones(a & b) == ones(a) + ones(b),
{
    lemma_ones_union(a, b);
    lemma_ones_union(a ^ b, a & b);
    assert(((a ^ b) | (a & b)) == (a | b) && ((a ^ b) & (a & b)) == 0) by (bit_vector);
}

/// Shifting a mask to the left keeps its set bits, as long as none of them
/// is pushed out.
pub proof fn lemma_ones_shl(x: u32, k: u32)
    requires
        k < 32,
        x <= (u32::MAX >> k),
    ensures
        ones(x << k) == ones(x),
    decreases k,
{
    if k == 0 {
        assert(x << 0u32 == x) by (bit_vector);
    } else {
        let y = x << ((k - 1) as u32);
        assert({
            &&& x <= (0xffff_ffffu32 >> ((k - 1) as u32))
            &&& (x << k) / 2 == x << ((k - 1) as u32)
            &&& (x << k) % 2 == 0
            &&& (x == 0 <==> (x << k) == 0)
        }) by (bit_vector)
            requires
                0 < k < 32,
                x <= (0xffff_ffffu32 >> k),
        ;
        lemma_ones_shl(x, (k - 1) as u32);
    }
}

/// Shifting a mask to the right keeps its set bits, as long as none of them
/// is pushed out.
pub proof fn lemma_ones_shr(x: u32, k: u32)
    requires
        k < 32,
        (x >> k) << k == x,
    ensures
        ones(x >> k) == ones(x),
{
    assert((x >> k) <= (0xffff_ffffu32 >> k)) by (bit_vector)
        requires
            k < 32,
    ;
    lemma_ones_shl(x >> k, k);
}

} // verus!
