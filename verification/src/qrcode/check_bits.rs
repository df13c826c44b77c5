use crate::qrcode::encoder::matrix_util::{bch_code, bch_reduce, msb_set};
use vstd::prelude::*;

verus! {

/// What shifting down does to a word: nothing where the shift is zero, and a shift by
/// `k` is a halving and a shift by one less.
proof fn lemma_shift_steps(v: u32, k: u32)
    by (bit_vector)
    requires
        k < 32,
    ensures
        v >> 0u32 == v,
        0u32 >> k == 0u32,
        v / 2u32 == v >> 1u32,
        k >= 1u32 ==> (v / 2u32) >> ((k - 1u32) as u32) == v >> k,
{
}

/// A number has at most `k` binary digits where shifting it down by `k` leaves nothing,
/// and only there.
pub proof fn lemma_msb_shift(v: u32, k: u32)
    requires
        k < 32,
    ensures
        msb_set(v) <= k <==> v >> k == 0,
    decreases k,
{
    lemma_shift_steps(v, k);
    if v != 0 && k >= 1 {
        lemma_msb_shift(v / 2, (k - 1) as u32);
    }
}

/// A number has at most 32 binary digits.
pub proof fn lemma_msb_most(v: u32)
    ensures
        msb_set(v) <= 32,
{
    if v != 0 {
        lemma_msb_shift(v / 2, 31);
        assert((v / 2u32) >> 31u32 == 0u32) by (bit_vector);
    }
}

/// Taking the divisor away under the highest bit of a number clears that bit and sets
/// none above it.
proof fn lemma_highest_bit_goes(x: u32, p: u32, a: u32, b: u32)
    by (bit_vector)
    requires
        1u32 <= b,
        b <= a,
        a <= 32u32,
        x >> ((a - 1u32) as u32) != 0u32,
        a < 32u32 ==> x >> a == 0u32,
        p >> ((b - 1u32) as u32) != 0u32,
        b < 32u32 ==> p >> b == 0u32,
    ensures
        (x ^ (p << ((a - b) as u32))) >> ((a - 1u32) as u32) == 0u32,
{
}

/// One step of the division lowers the number of binary digits.
pub proof fn lemma_step_lowers(value: u32, poly: u32)
    requires
        poly != 0,
        msb_set(value) >= msb_set(poly),
    ensures
        msb_set(value ^ (poly << ((msb_set(value) - msb_set(poly)) as u32))) < msb_set(value),
        msb_set(poly) >= 1,
{
    lemma_msb_most(value);
    lemma_msb_most(poly);
    let a = msb_set(value) as u32;
    let b = msb_set(poly) as u32;
    lemma_msb_shift(value, (a - 1) as u32);
    if a < 32 {
        lemma_msb_shift(value, a);
    }
    lemma_msb_shift(poly, (b - 1) as u32);
    if b < 32 {
        lemma_msb_shift(poly, b);
    }
    lemma_highest_bit_goes(value, poly, a, b);
    lemma_msb_shift(value ^ (poly << ((a - b) as u32)), (a - 1) as u32);
}

/// The division comes to its end in as many steps as the number has binary digits: what
/// is left has fewer binary digits than the divisor.
pub proof fn lemma_reduced(value: u32, poly: u32, steps: nat)
    requires
        poly != 0,
        steps >= msb_set(value),
    ensures
        msb_set(bch_reduce(value, poly, steps)) < msb_set(poly),
    decreases steps,
{
    if msb_set(value) >= msb_set(poly) {
        lemma_step_lowers(value, poly);
        lemma_reduced(
            value ^ (poly << ((msb_set(value) - msb_set(poly)) as u32)),
            poly,
            (steps - 1) as nat,
        );
    }
}

/// The check bits have fewer binary digits than the generator.
pub proof fn lemma_check_bits_are_short(value: u32, poly: u32)
    requires
        poly != 0,
    ensures
        msb_set(bch_code(value, poly)) < msb_set(poly),
{
    lemma_msb_most(value << ((msb_set(poly) - 1) as u32));
    lemma_reduced(value << ((msb_set(poly) - 1) as u32), poly, 32);
}

/// The check bits of the format information are ten bits, those of the version
/// information twelve.
pub proof fn lemma_check_bits_fit(value: u32)
    ensures
        bch_code(value, 0x537) < 1024,
        bch_code(value, 0x1f25) < 4096,
{
    lemma_check_bits_are_short(value, 0x537);
    lemma_check_bits_are_short(value, 0x1f25);
    lemma_msb_shift(0x537, 11);
    lemma_msb_shift(0x1f25, 13);
    assert(0x537u32 >> 11u32 == 0u32 && 0x1f25u32 >> 13u32 == 0u32) by (bit_vector);
    let format = bch_code(value, 0x537);
    let version = bch_code(value, 0x1f25);
    lemma_msb_shift(format, 10);
    lemma_msb_shift(version, 12);
    assert(format >> 10u32 == 0u32 ==> format < 1024u32) by (bit_vector);
    assert(version >> 12u32 == 0u32 ==> version < 4096u32) by (bit_vector);
}

} // verus!
