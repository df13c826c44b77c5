use vstd::prelude::*;

verus! {

/// Whether bit `k` of `w` is set; bit 0 is the least significant.
pub open spec fn bit32(w: u32, k: u32) -> bool {
    (w >> k) & 1u32 == 1u32
}

/// No bit of zero is set.
pub proof fn lemma_bit_of_zero(k: u32)
    by (bit_vector)
    requires
        k < 32,
    ensures
        !bit32(0u32, k),
{
}

/// Or-ing in `1 << k` sets bit `k` and leaves every other bit as it was.
pub proof fn lemma_bit_after_set(w: u32, k: u32, j: u32)
    by (bit_vector)
    requires
        k < 32,
        j < 32,
    ensures
        bit32(w | (1u32 << k), j) == (bit32(w, j) || j == k),
{
}

/// A bit of an exclusive or is set where exactly one operand has it.
pub proof fn lemma_bit_of_xor(a: u32, b: u32, j: u32)
    by (bit_vector)
    requires
        j < 32,
    ensures
        bit32(a ^ b, j) == (bit32(a, j) != bit32(b, j)),
{
}

/// Masking with `1 << k` tests bit `k`.
pub proof fn lemma_bit_test(w: u32, k: u32)
    by (bit_vector)
    requires
        k < 32,
    ensures
        (w & (1u32 << k) != 0u32) == bit32(w, k),
{
}

/// Halving a word moves each bit one place down.
pub proof fn lemma_bit_of_half(w: u32, k: u32)
    by (bit_vector)
    requires
        k < 31,
    ensures
        bit32(w >> 1u32, k) == bit32(w, (k + 1) as u32),
        w >> 1u32 == w / 2u32,
        2u32 * (w >> 1u32) + (w & 1u32) == w,
        (w & 1u32) <= 1u32,
        bit32(w, 0u32) == ((w & 1u32) == 1u32),
{
}

/// Where something is set at or above bit `k` and bit `k` is clear, something is set above it.
pub proof fn lemma_nonzero_above(w: u32, k: u32)
    by (bit_vector)
    requires
        k < 32,
        w >> k != 0u32,
        w & (1u32 << k) == 0u32,
    ensures
        k < 31,
        w >> ((k + 1) as u32) != 0u32,
{
}

/// Where something is set at or below bit `k` and bit `k` is clear, something is set below it.
pub proof fn lemma_nonzero_below(w: u32, k: u32)
    by (bit_vector)
    requires
        k < 32,
        w & (0xFFFF_FFFFu32 >> ((31 - k) as u32)) != 0u32,
        w & (1u32 << k) == 0u32,
    ensures
        k > 0,
        w & (0xFFFF_FFFFu32 >> ((32 - k) as u32)) != 0u32,
{
}

/// Shifting by nothing, and masking with every bit, leave a word as it is.
pub proof fn lemma_whole_word(w: u32)
    by (bit_vector)
    ensures
        w >> 0u32 == w,
        w & (0xFFFF_FFFFu32 >> 0u32) == w,
{
}

/// Masking never gives more than the mask.
pub proof fn lemma_mask_bound(x: u32, m: u32)
    by (bit_vector)
    ensures
        x & m <= m,
{
}

/// Below a power of two, the exclusive or of two numbers stays below it.
pub proof fn lemma_xor_bound(a: u32, b: u32, size: u32)
    by (bit_vector)
    requires
        size > 0u32,
        size & ((size - 1u32) as u32) == 0u32,
        a < size,
        b < size,
    ensures
        a ^ b < size,
{
}

/// Zero is neutral for exclusive or, and every number is its own opposite.
pub proof fn lemma_xor_zero(x: u32)
    by (bit_vector)
    ensures
        x ^ 0u32 == x,
        0u32 ^ x == x,
        x ^ x == 0u32,
{
}

/// The orders 16, 64, 256, 1024 and 4096 are powers of two.
pub proof fn lemma_powers_of_two()
    by (bit_vector)
    ensures
        16u32 & 15u32 == 0u32,
        64u32 & 63u32 == 0u32,
        256u32 & 255u32 == 0u32,
        1024u32 & 1023u32 == 0u32,
        4096u32 & 4095u32 == 0u32,
{
}

} // verus!
