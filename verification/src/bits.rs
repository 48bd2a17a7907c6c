//! Bit-level operations on single bytes.

use vstd::arithmetic::power2::{lemma2_to64, lemma_pow2_unfold, pow2};
use vstd::prelude::*;

verus! {

/// The number of set bits in `n`: the sum of its binary digits.
pub open spec fn bit_count(n: nat) -> nat
    decreases n,
{
    if n == 0 {
        0
    } else {
        n % 2 + bit_count(n / 2)
    }
}

/// `b` rotated left by `amount` bit positions. A byte has eight bits, so only
/// `amount % 8` matters: the bits shifted out on the left come back in on the
/// right.
pub open spec fn rotate_left(b: u8, amount: nat) -> u8 {
    let r = (amount % 8) as u8;
    if r == 0 {
        b
    } else {
        (b << r) | (b >> ((8 - r) as u8))
    }
}

/// The position from which a rotation by `amount` fills bit `i`.
pub open spec fn source_bit(i: u8, amount: nat) -> u8 {
    ((i + 8 - amount % 8) % 8) as u8
}

/// A rotation depends on its amount only modulo 8.
pub proof fn lemma_rotate_left_mod8(b: u8, amount: nat)
    ensures
        rotate_left(b, amount % 8) == rotate_left(b, amount),
{
}

/// Where the bits go: bit `i` of the rotated byte is the bit of `b` that
/// stood `amount` positions further right, counting around the byte.
pub proof fn lemma_rotate_left_moves_bits(b: u8, amount: nat, i: u8)
    requires
        i < 8,
    ensures
        (rotate_left(b, amount) >> i) & 1 == (b >> source_bit(i, amount)) & 1,
{
    let r = (amount % 8) as u8;
    let from = source_bit(i, amount);
    let rotated = rotate_left(b, amount);
    assert((rotated >> i) & 1 == (b >> from) & 1) by (bit_vector)
        requires
            r < 8,
            i < 8,
            from == if i >= r {
                (i - r) as u8
            } else {
                (i + 8 - r) as u8
            },
            rotated == if r == 0 {
                b
            } else {
                (b << r) | (b >> ((8 - r) as u8))
            },
    ;
}

/// A number below `2^bits` has at most `bits` set bits.
pub proof fn lemma_bit_count_at_most(n: nat, bits: nat)
    requires
        n < pow2(bits),
    ensures
        bit_count(n) <= bits,
    decreases bits,
{
    if n > 0 {
        lemma2_to64();
        lemma_pow2_unfold(bits);
        lemma_bit_count_at_most(n / 2, (bits - 1) as nat);
    }
}

/// Counts the set bits of `b`.
pub fn count_ones(b: u8) -> (n: u8)
    ensures
        n == bit_count(b as nat),
        n <= 8,
{
    proof {
        lemma2_to64();
        lemma_bit_count_at_most(b as nat, 8);
    }
    let mut rest: u8 = b;
    let mut n: u8 = 0;
    while rest != 0
        invariant
            n + bit_count(rest as nat) == bit_count(b as nat),
            bit_count(b as nat) <= 8,
        decreases rest,
    {
        n += rest % 2;
        rest /= 2;
    }
    n
}

/// Rotates `b` left by `amount` bit positions, for any `amount`.
pub fn rotate_byte_left(b: u8, amount: u32) -> (out: u8)
    ensures
        out == rotate_left(b, amount as nat),
{
    let r: u8 = (amount % 8) as u8;
    if r == 0 {
        b
    } else {
        (b << r) | (b >> (8 - r))
    }
}

} // verus!
