#![allow(non_snake_case)]

use crate::error::Error;
use crate::qrcode::decoder::error_correction_level::ErrorCorrectionLevel;
use crate::qrcode::encoder::matrix_util::{bch_code, MatrixUtil};
use vstd::prelude::*;

verus! {

/// The format information of a symbol: its level of error correction and the number of
/// its mask.
#[derive(Debug, PartialEq, Eq, Clone, Copy, Structural)]
pub struct FormatInformation {
    errorCorrectionLevel: ErrorCorrectionLevel,
    dataMask: u32,
}

/// The number of bits that are set in `v`.
pub open spec fn count_ones(v: u32) -> nat
    decreases v,
{
    if v == 0 {
        0
    } else {
        (v % 2) as nat + count_ones(v / 2)
    }
}

/// The fifteen bits that stand for the five bits of format information `data`: the five
/// bits, their ten check bits under the generator 0x537, and over all of them the mask
/// 0x5412.
pub open spec fn format_code(data: u32) -> u32 {
    ((data << 10) | bch_code(data, 0x537)) ^ 0x5412
}

/// The number of bits in which the code of `data` differs from the nearer one of the two
/// readings.
pub open spec fn reading_distance(reading1: u32, reading2: u32, data: int) -> nat {
    let d1 = count_ones(reading1 ^ format_code(data as u32));
    let d2 = count_ones(reading2 ^ format_code(data as u32));
    if d1 <= d2 {
        d1
    } else {
        d2
    }
}

/// Whether the code of `data` is one of the two readings.
pub open spec fn reads_exactly(reading1: u32, reading2: u32, data: int) -> bool {
    format_code(data as u32) == reading1 || format_code(data as u32) == reading2
}

/// The first of the numbers below `n` whose code is nearest to the readings.
pub open spec fn nearest_below(reading1: u32, reading2: u32, n: nat) -> int
    decreases n,
{
    if n <= 1 {
        0
    } else {
        let best = nearest_below(reading1, reading2, (n - 1) as nat);
        if reading_distance(reading1, reading2, n - 1) < reading_distance(reading1, reading2, best) {
            n - 1
        } else {
            best
        }
    }
}

/// The format information that the two readings stand for: that of the first code that
/// is one of the readings; else that of the first code nearest to them, if it differs
/// in no more than three bits; else none.
pub open spec fn decoded_format(reading1: u32, reading2: u32) -> Option<u32> {
    if exists|k: int| 0 <= k < 32 && reads_exactly(reading1, reading2, k) {
        Some(
            (choose|k: int|
                0 <= k < 32 && reads_exactly(reading1, reading2, k) && forall|j: int|
                    0 <= j < k ==> !reads_exactly(reading1, reading2, j)) as u32,
        )
    } else {
        let best = nearest_below(reading1, reading2, 32);
        if reading_distance(reading1, reading2, best) <= 3 {
            Some(best as u32)
        } else {
            None
        }
    }
}

/// The nearest code has a number below `n`.
pub proof fn lemma_nearest_below(reading1: u32, reading2: u32, n: nat)
    requires
        n >= 1,
    ensures
        0 <= nearest_below(reading1, reading2, n) < n,
    decreases n,
{
    if n > 1 {
        lemma_nearest_below(reading1, reading2, (n - 1) as nat);
    }
}

/// A word of 32 bits has at most 32 bits set; a word below `2^k` at most `k`.
pub proof fn lemma_count_ones_bound(v: u32, k: nat)
    requires
        v < vstd::arithmetic::power2::pow2(k),
    ensures
        count_ones(v) <= k,
    decreases k,
{
    if v != 0 {
        if k == 0 {
            vstd::arithmetic::power2::lemma2_to64();
        } else {
            vstd::arithmetic::power2::lemma_pow2_unfold(k);
            lemma_count_ones_bound(v / 2, (k - 1) as nat);
        }
    }
}

impl FormatInformation {
    /// The mask that is laid over the bits of format information.
    pub const FORMAT_INFO_MASK_QR: u32 = 0x5412;

    pub closed spec fn spec_level(&self) -> ErrorCorrectionLevel {
        self.errorCorrectionLevel
    }

    pub closed spec fn spec_data_mask(&self) -> u32 {
        self.dataMask
    }

    /// The format information that the five bits `formatInfo` stand for.
    pub fn new(formatInfo: u32) -> (r: Result<FormatInformation, Error>)
        ensures
            r matches Ok(f) && f.spec_level().spec_bits() == (formatInfo >> 3) & 0x03
                && f.spec_data_mask() == formatInfo & 0x07,
    {
        let level_bits: u32 = (formatInfo >> 3) & 0x03;
        let dataMask: u32 = formatInfo & 0x07;
        proof {
            crate::common::bit_lemmas::lemma_mask_bound(formatInfo >> 3, 0x03);
        }
        let errorCorrectionLevel = match ErrorCorrectionLevel::forBits(level_bits) {
            Ok(level) => level,
            Err(e) => {
                return Err(e);
            },
        };
        Ok(FormatInformation { errorCorrectionLevel, dataMask })
    }

    /// The number of bits in which `a` and `b` differ.
    pub fn numBitsDiffering(a: u32, b: u32) -> (n: u32)
        ensures
            n == count_ones(a ^ b),
            n <= 32,
    {
        let mut rest: u32 = a ^ b;
        let mut n: u32 = 0;
        proof {
            vstd::arithmetic::power2::lemma2_to64();
            lemma_count_ones_bound(rest, 32);
        }
        while rest != 0
            invariant
                n + count_ones(rest) == count_ones(a ^ b),
                count_ones(a ^ b) <= 32,
            decreases rest,
        {
            n += rest % 2;
            rest = rest / 2;
        }
        n
    }

    /// The fifteen bits that stand for the five bits of format information `data`.
    pub fn code_of(data: u32) -> (code: u32)
        requires
            data < 32,
        ensures
            code == format_code(data),
    {
        ((data << 10) | MatrixUtil::calculate_bch_code(data, 0x537))
            ^ FormatInformation::FORMAT_INFO_MASK_QR
    }

    /// The format information that the two readings of its fifteen bits stand for, or
    /// `None` where they are too far from every code. Readings that match nothing are
    /// tried again with the mask 0x5412 laid over them, for symbols that have been
    /// written without it.
    pub fn decodeFormatInformation(maskedFormatInfo1: u32, maskedFormatInfo2: u32) -> (r: Result<
        Option<FormatInformation>,
        Error,
    >)
        ensures
            r is Ok,
            r matches Ok(found) ==> match FormatInformation::spec_decode(
                maskedFormatInfo1,
                maskedFormatInfo2,
            ) {
                Some(data) => found matches Some(f) && f.spec_level().spec_bits() == (data >> 3)
                    & 0x03 && f.spec_data_mask() == data & 0x07,
                None => found is None,
            },
    {
        match FormatInformation::doDecodeFormatInformation(maskedFormatInfo1, maskedFormatInfo2) {
            Ok(Some(formatInfo)) => Ok(Some(formatInfo)),
            Ok(None) => FormatInformation::doDecodeFormatInformation(
                maskedFormatInfo1 ^ FormatInformation::FORMAT_INFO_MASK_QR,
                maskedFormatInfo2 ^ FormatInformation::FORMAT_INFO_MASK_QR,
            ),
            Err(e) => Err(e),
        }
    }

    /// The five bits of format information that the two readings stand for, first as
    /// they are and then with the mask 0x5412 laid over them.
    pub open spec fn spec_decode(reading1: u32, reading2: u32) -> Option<u32> {
        match decoded_format(reading1, reading2) {
            Some(data) => Some(data),
            None => decoded_format(reading1 ^ 0x5412, reading2 ^ 0x5412),
        }
    }

    /// The format information whose code is one of the readings or, failing that, nearest
    /// to them and no more than three bits away.
    pub fn doDecodeFormatInformation(maskedFormatInfo1: u32, maskedFormatInfo2: u32) -> (r: Result<
        Option<FormatInformation>,
        Error,
    >)
        ensures
            r is Ok,
            r matches Ok(found) ==> match decoded_format(maskedFormatInfo1, maskedFormatInfo2) {
                Some(data) => found matches Some(f) && f.spec_level().spec_bits() == (data >> 3)
                    & 0x03 && f.spec_data_mask() == data & 0x07,
                None => found is None,
            },
    {
        // The code with the fewest bits differing is looked for.
        let mut bestDifference: u32 = 0;
        let mut bestFormatInfo: u32 = 0;
        let mut k: u32 = 0;
        while k < 32
            invariant
                k <= 32,
                forall|j: int| 0 <= j < k ==> !reads_exactly(maskedFormatInfo1, maskedFormatInfo2, j),
                k >= 1 ==> bestFormatInfo == nearest_below(
                    maskedFormatInfo1,
                    maskedFormatInfo2,
                    k as nat,
                ) && bestDifference == reading_distance(
                    maskedFormatInfo1,
                    maskedFormatInfo2,
                    bestFormatInfo as int,
                ) && bestFormatInfo < k,
            decreases 32 - k,
        {
            let targetInfo = FormatInformation::code_of(k);
            if targetInfo == maskedFormatInfo1 || targetInfo == maskedFormatInfo2 {
                proof {
                    assert(reads_exactly(maskedFormatInfo1, maskedFormatInfo2, k as int));
                    let chosen = choose|c: int|
                        0 <= c < 32 && reads_exactly(maskedFormatInfo1, maskedFormatInfo2, c)
                            && forall|j: int|
                            0 <= j < c ==> !reads_exactly(maskedFormatInfo1, maskedFormatInfo2, j);
                    assert(chosen == k);
                }
                return match FormatInformation::new(k) {
                    Ok(f) => Ok(Some(f)),
                    Err(e) => Err(e),
                };
            }
            let d1 = FormatInformation::numBitsDiffering(maskedFormatInfo1, targetInfo);
            let d2 = FormatInformation::numBitsDiffering(maskedFormatInfo2, targetInfo);
            let bitsDifference = if d1 <= d2 {
                d1
            } else {
                d2
            };
            proof {
                vstd::arithmetic::power2::lemma2_to64();
                if k >= 1 {
                    lemma_nearest_below(maskedFormatInfo1, maskedFormatInfo2, k as nat);
                }
                assert(count_ones(maskedFormatInfo1 ^ targetInfo) == count_ones(
                    maskedFormatInfo1 ^ format_code(k),
                ));
            }
            if k == 0 || bitsDifference < bestDifference {
                bestFormatInfo = k;
                bestDifference = bitsDifference;
            }
            k += 1;
        }
        // The codes are seven bits apart, so that three bits and less are made good.
        if bestDifference <= 3 {
            return match FormatInformation::new(bestFormatInfo) {
                Ok(f) => Ok(Some(f)),
                Err(e) => Err(e),
            };
        }
        Ok(None)
    }

    /// The level of error correction.
    pub fn getErrorCorrectionLevel(&self) -> (l: ErrorCorrectionLevel)
        ensures
            l == self.spec_level(),
    {
        self.errorCorrectionLevel
    }

    /// The number of the mask.
    pub fn getDataMask(&self) -> (m: u32)
        ensures
            m == self.spec_data_mask(),
    {
        self.dataMask
    }
}

} // verus!
