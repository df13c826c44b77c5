#![allow(non_snake_case)]

use crate::common::bit_array::{bits_value, lemma_bits_value_bound, lemma_bits_value_push};
use crate::common::bit_lemmas::bit32;
use crate::error::Error;
use vstd::arithmetic::power2::{lemma2_to64, lemma_pow2_strictly_increases, pow2};
use vstd::prelude::*;

verus! {

/// The bits of the bytes, eight for each, the highest first.
pub open spec fn bytes_bits(s: Seq<u8>) -> Seq<bool> {
    Seq::new(8 * s.len(), |j: int| bit32(s[j / 8] as u32, (7 - j % 8) as u32))
}

/// The number that the `n` bits of `bits` from place `at` on spell, the highest first.
pub open spec fn bits_at(bits: Seq<bool>, at: int, n: int) -> nat {
    bits_value(bits.subrange(at, at + n))
}

/// Bytes that are read as a run of bits, a number of bits at a time.
pub struct BitSource<'a> {
    bytes: &'a Vec<u8>,
    position: usize,
}

impl<'a> BitSource<'a> {
    /// The greatest number of bytes that are read.
    pub const MAX_BYTES: usize = 0x0FFF_FFFF;

    /// The bits of the bytes.
    pub closed spec fn spec_bits(&self) -> Seq<bool> {
        bytes_bits(self.bytes@)
    }

    /// The number of bits that have been read.
    pub closed spec fn spec_position(&self) -> int {
        self.position as int
    }

    /// The bits that have been read are bits of the bytes.
    pub closed spec fn wf(&self) -> bool {
        &&& self.bytes@.len() <= BitSource::MAX_BYTES
        &&& self.position <= 8 * self.bytes@.len()
    }

    /// What follows of the closed form of `wf`.
    pub proof fn lemma_bounds(&self)
        requires
            self.wf(),
        ensures
            0 <= self.spec_position() <= self.spec_bits().len() <= 8 * BitSource::MAX_BYTES,
    {
    }

    /// A source that reads `bytes` from their first bit on.
    pub fn new(bytes: &'a Vec<u8>) -> (r: BitSource<'a>)
        requires
            bytes@.len() <= BitSource::MAX_BYTES,
        ensures
            r.wf(),
            r.spec_bits() == bytes_bits(bytes@),
            r.spec_position() == 0,
    {
        BitSource { bytes, position: 0 }
    }

    /// The number of bits of the byte at hand that have been read.
    pub fn getBitOffset(&self) -> (n: usize)
        ensures
            n == self.spec_position() % 8,
    {
        self.position % 8
    }

    /// The number of bytes of which every bit has been read.
    pub fn getByteOffset(&self) -> (n: usize)
        ensures
            n == self.spec_position() / 8,
    {
        self.position / 8
    }

    /// The number of bits that are left to read.
    pub fn available(&self) -> (n: usize)
        requires
            self.wf(),
        ensures
            n == self.spec_bits().len() - self.spec_position(),
    {
        8 * self.bytes.len() - self.position
    }

    /// Reads the next `numBits` bits as a number, the first bit the highest. Fewer bits
    /// than one, more than 32 and more than are left are refused, and nothing is read.
    pub fn readBits(&mut self, numBits: usize) -> (r: Result<u32, Error>)
        requires
            old(self).wf(),
        ensures
            final(self).wf(),
            final(self).spec_bits() == old(self).spec_bits(),
            r is Ok <==> (1 <= numBits <= 32 && old(self).spec_position() + numBits <= old(
                self,
            ).spec_bits().len()),
            r matches Ok(v) ==> v == bits_at(
                old(self).spec_bits(),
                old(self).spec_position(),
                numBits as int,
            ) && final(self).spec_position() == old(self).spec_position() + numBits && v < pow2(
                numBits as nat,
            ),
            r matches Err(e) ==> e is IllegalArgumentException && final(self).spec_position()
                == old(self).spec_position(),
    {
        if numBits < 1 || numBits > 32 || numBits > self.available() {
            return Err(Error::IllegalArgumentException("No such number of bits".to_owned()));
        }
        let ghost bits = self.spec_bits();
        let start = self.position;
        let mut value: u64 = 0;
        let mut j: usize = 0;
        proof {
            assert(bits.subrange(start as int, start as int) =~= Seq::<bool>::empty());
        }
        while j < numBits
            invariant
                j <= numBits <= 32,
                self.bytes@.len() <= BitSource::MAX_BYTES,
                start + numBits <= 8 * self.bytes@.len(),
                bits == bytes_bits(self.bytes@),
                value == bits_value(bits.subrange(start as int, start + j)),
            decreases numBits - j,
        {
            let place = start + j;
            let byte: u32 = self.bytes[place / 8] as u32;
            let bit: bool = (byte >> ((7 - place % 8) as u32)) & 1 == 1;
            proof {
                let read = bits.subrange(start as int, start + j);
                lemma_bits_value_bound(read);
                lemma_pow2_strictly_increases(j as nat, 32);
                lemma2_to64();
                lemma_bits_value_push(read, bit);
                assert(bits[place as int] == bit);
                assert(read.push(bit) =~= bits.subrange(start as int, start + j + 1));
            }
            value = 2 * value + if bit {
                1
            } else {
                0
            };
            j += 1;
        }
        proof {
            lemma_bits_value_bound(bits.subrange(start as int, start + numBits));
            if numBits < 32 {
                lemma_pow2_strictly_increases(numBits as nat, 32);
            }
            lemma2_to64();
        }
        self.position = start + numBits;
        Ok(value as u32)
    }
}

} // verus!
