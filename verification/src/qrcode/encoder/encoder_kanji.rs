use crate::common::bit_array::{low_bits, BitArray};
use crate::common::bit_lemmas::bit32;
use crate::error::Error;
use crate::qrcode::encoder::encoder::{Encoder, MAX_CONTENT};
use vstd::prelude::*;

verus! {

/// Whether `b` lies in one of the ranges of the lead bytes of double-byte Kanji, 0x81 to
/// 0x9F and 0xE0 to 0xEB.
pub open spec fn kanji_lead(b: u8) -> bool {
    (0x81 <= b <= 0x9F) || (0xE0 <= b <= 0xEB)
}

/// The first byte of pair `i` of the bytes.
pub open spec fn lead_of(bytes: Seq<u8>, i: int) -> u8 {
    bytes[2 * i]
}

/// Whether the bytes are pairs, each with the lead byte of a double-byte Kanji.
pub open spec fn kanji_bytes(bytes: Seq<u8>) -> bool {
    &&& bytes.len() % 2 == 0
    &&& forall|i: int| 0 <= i < bytes.len() / 2 ==> kanji_lead(#[trigger] lead_of(bytes, i))
}

/// The two bytes of pair `i` as one number, less the start of the range in which it
/// lies: 0x8140 for the range up to 0x9FFC, 0xC140 for the range from 0xE040 to 0xEBBF.
/// None for a number outside both.
pub open spec fn kanji_offset(bytes: Seq<u8>, i: int) -> Option<int> {
    let code = bytes[2 * i] as int * 256 + bytes[2 * i + 1] as int;
    if 0x8140 <= code <= 0x9FFC {
        Some(code - 0x8140)
    } else if 0xE040 <= code <= 0xEBBF {
        Some(code - 0xC140)
    } else {
        None
    }
}

/// The thirteen bits that stand for pair `i`: the higher byte of its offset times 0xC0,
/// and the lower byte.
pub open spec fn kanji_value(bytes: Seq<u8>, i: int) -> u32 {
    let offset = kanji_offset(bytes, i)->Some_0;
    ((offset / 256) * 0xC0 + offset % 256) as u32
}

/// Whether the bytes are pairs that a Kanji segment holds.
pub open spec fn kanji_pairs(bytes: Seq<u8>) -> bool {
    &&& bytes.len() % 2 == 0
    &&& forall|i: int| 0 <= i < bytes.len() / 2 ==> (#[trigger] kanji_offset(bytes, i)) is Some
}

/// The bits of a Kanji segment with the given bytes: thirteen for each pair.
pub open spec fn kanji_bits(bytes: Seq<u8>) -> Seq<bool> {
    Seq::new(
        (13 * (bytes.len() / 2)) as nat,
        |j: int| bit32(kanji_value(bytes, j / 13), (12 - j % 13) as u32),
    )
}

/// The bits of the pairs with one more pair are those of the pairs and the thirteen of
/// the pair.
pub proof fn lemma_kanji_bits_push(bytes: Seq<u8>, i: int)
    requires
        0 <= i,
        2 * i + 2 <= bytes.len(),
    ensures
        kanji_bits(bytes.subrange(0, 2 * i + 2)) == kanji_bits(bytes.subrange(0, 2 * i))
            + low_bits(kanji_value(bytes, i), 13),
{
    let more = bytes.subrange(0, 2 * i + 2);
    let done = bytes.subrange(0, 2 * i);
    let joined = kanji_bits(done) + low_bits(kanji_value(bytes, i), 13);
    assert(kanji_bits(more).len() == joined.len());
    assert forall|j: int| 0 <= j < joined.len() implies kanji_bits(more)[j] == joined[j] by {
        let p = j / 13;
        if j < 13 * i {
            assert(p < i);
            assert(more[2 * p] == done[2 * p]);
            assert(more[2 * p + 1] == done[2 * p + 1]);
            assert(kanji_offset(more, p) == kanji_offset(done, p));
        } else {
            assert(p == i);
            assert(more[2 * i] == bytes[2 * i]);
            assert(more[2 * i + 1] == bytes[2 * i + 1]);
            assert(kanji_offset(more, p) == kanji_offset(bytes, i));
            assert(j % 13 == j - 13 * i);
        }
    }
    assert(kanji_bits(more) =~= joined);
}

impl Encoder {
    /// Appends the bits of a Kanji segment with the given bytes, which are those of the
    /// text in Shift_JIS: thirteen bits for each pair of bytes. Bytes that are no pairs of
    /// the two ranges of double-byte Kanji are refused.
    pub fn append_kanji_bytes(bytes: &Vec<u8>, bits: &mut BitArray) -> (r: Result<(), Error>)
        requires
            old(bits).wf(),
            old(bits).clean(),
            old(bits).spec_size() == 0,
            bytes@.len() <= 2 * MAX_CONTENT,
        ensures
            final(bits).wf(),
            final(bits).clean(),
            r is Ok <==> kanji_pairs(bytes@),
            r is Ok ==> final(bits)@ == kanji_bits(bytes@),
            r matches Err(e) ==> e is WriterException,
    {
        let length = bytes.len();
        if length % 2 != 0 {
            return Err(Error::WriterException("Kanji byte size not even".to_owned()));
        }
        let pairs = length / 2;
        let mut i: usize = 0;
        proof {
            assert(kanji_bits(bytes@.subrange(0, 0)) =~= Seq::<bool>::empty());
        }
        while i < pairs
            invariant
                i <= pairs,
                pairs == bytes@.len() / 2,
                length == bytes@.len(),
                length % 2 == 0,
                length <= 2 * MAX_CONTENT,
                bits.wf(),
                bits.clean(),
                bits.spec_size() == 13 * i,
                bits@ == kanji_bits(bytes@.subrange(0, 2 * i)),
                forall|k: int| 0 <= k < i ==> (#[trigger] kanji_offset(bytes@, k)) is Some,
            decreases pairs - i,
        {
            let byte1: u32 = bytes[2 * i] as u32;
            let byte2: u32 = bytes[2 * i + 1] as u32;
            let code: u32 = byte1 * 256 + byte2;
            let subtracted: u32 = if code >= 0x8140 && code <= 0x9ffc {
                code - 0x8140
            } else if code >= 0xe040 && code <= 0xebbf {
                code - 0xc140
            } else {
                proof {
                    assert(kanji_offset(bytes@, i as int) is None);
                }
                return Err(Error::WriterException("Invalid byte sequence".to_owned()));
            };
            let encoded: u32 = (subtracted / 256) * 0xc0 + subtracted % 256;
            proof {
                assert(kanji_offset(bytes@, i as int) == Some(subtracted as int));
                assert(encoded == kanji_value(bytes@, i as int));
                lemma_kanji_bits_push(bytes@, i as int);
            }
            let appended = bits.append_bits(encoded, 13);
            i += 1;
        }
        proof {
            assert(bytes@.subrange(0, 2 * pairs) =~= bytes@);
        }
        Ok(())
    }
}

} // verus!
