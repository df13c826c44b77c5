#![allow(non_snake_case)]

use vstd::prelude::*;

verus! {

/// What the decoder of a symbol has found.
pub struct DecoderResult {
    rawBytes: Vec<u8>,
    numBits: usize,
    text: String,
    byteSegments: Vec<Vec<u8>>,
    ecLevel: String,
    structuredAppendParity: i32,
    structuredAppendSequenceNumber: i32,
    symbologyModifier: i32,
}

impl DecoderResult {
    /// The greatest number of raw bytes whose bits are counted.
    pub const MAX_RAW_BYTES: usize = 0x0FFF_FFFF;

    pub closed spec fn spec_raw_bytes(&self) -> Seq<u8> {
        self.rawBytes@
    }

    pub closed spec fn spec_num_bits(&self) -> usize {
        self.numBits
    }

    pub closed spec fn spec_text(&self) -> Seq<char> {
        self.text@
    }

    pub closed spec fn spec_byte_segments(&self) -> Seq<Vec<u8>> {
        self.byteSegments@
    }

    pub closed spec fn spec_ec_level(&self) -> Seq<char> {
        self.ecLevel@
    }

    pub closed spec fn spec_parity(&self) -> i32 {
        self.structuredAppendParity
    }

    pub closed spec fn spec_sequence(&self) -> i32 {
        self.structuredAppendSequenceNumber
    }

    pub closed spec fn spec_modifier(&self) -> i32 {
        self.symbologyModifier
    }

    /// Whether `r` holds what was given to `new3`.
    pub open spec fn holds(
        r: DecoderResult,
        rawBytes: Seq<u8>,
        text: Seq<char>,
        byteSegments: Seq<Vec<u8>>,
        ecLevel: Seq<char>,
        saSequence: i32,
        saParity: i32,
        symbologyModifier: i32,
    ) -> bool {
        &&& r.spec_raw_bytes() == rawBytes
        &&& r.spec_num_bits() == 8 * rawBytes.len()
        &&& r.spec_text() == text
        &&& r.spec_byte_segments() == byteSegments
        &&& r.spec_ec_level() == ecLevel
        &&& r.spec_sequence() == saSequence
        &&& r.spec_parity() == saParity
        &&& r.spec_modifier() == symbologyModifier
    }

    /// A result that is no part of a structured append and has no modifier.
    pub fn new(rawBytes: Vec<u8>, text: String, byteSegments: Vec<Vec<u8>>, ecLevel: String) -> (r:
        DecoderResult)
        requires
            rawBytes@.len() <= DecoderResult::MAX_RAW_BYTES,
        ensures
            DecoderResult::holds(r, rawBytes@, text@, byteSegments@, ecLevel@, -1i32, -1i32, 0),
    {
        DecoderResult::new3(rawBytes, text, byteSegments, ecLevel, -1, -1, 0)
    }

    /// A result that is no part of a structured append.
    pub fn new1(
        rawBytes: Vec<u8>,
        text: String,
        byteSegments: Vec<Vec<u8>>,
        ecLevel: String,
        symbologyModifier: i32,
    ) -> (r: DecoderResult)
        requires
            rawBytes@.len() <= DecoderResult::MAX_RAW_BYTES,
        ensures
            DecoderResult::holds(
                r,
                rawBytes@,
                text@,
                byteSegments@,
                ecLevel@,
                -1i32,
                -1i32,
                symbologyModifier,
            ),
    {
        DecoderResult::new3(rawBytes, text, byteSegments, ecLevel, -1, -1, symbologyModifier)
    }

    /// A result without a modifier.
    pub fn new2(
        rawBytes: Vec<u8>,
        text: String,
        byteSegments: Vec<Vec<u8>>,
        ecLevel: String,
        saSequence: i32,
        saParity: i32,
    ) -> (r: DecoderResult)
        requires
            rawBytes@.len() <= DecoderResult::MAX_RAW_BYTES,
        ensures
            DecoderResult::holds(
                r,
                rawBytes@,
                text@,
                byteSegments@,
                ecLevel@,
                saSequence,
                saParity,
                0,
            ),
    {
        DecoderResult::new3(rawBytes, text, byteSegments, ecLevel, saSequence, saParity, 0)
    }

    /// A result; all bits of the raw bytes count as valid.
    pub fn new3(
        rawBytes: Vec<u8>,
        text: String,
        byteSegments: Vec<Vec<u8>>,
        ecLevel: String,
        saSequence: i32,
        saParity: i32,
        symbologyModifier: i32,
    ) -> (r: DecoderResult)
        requires
            rawBytes@.len() <= DecoderResult::MAX_RAW_BYTES,
        ensures
            DecoderResult::holds(
                r,
                rawBytes@,
                text@,
                byteSegments@,
                ecLevel@,
                saSequence,
                saParity,
                symbologyModifier,
            ),
    {
        let numBits = rawBytes.len() * 8;
        DecoderResult {
            rawBytes,
            numBits,
            text,
            byteSegments,
            ecLevel,
            structuredAppendParity: saParity,
            structuredAppendSequenceNumber: saSequence,
            symbologyModifier,
        }
    }

    /// The codewords of the symbol after error correction.
    pub fn getRawBytes(&self) -> (b: &Vec<u8>)
        ensures
            b@ == self.spec_raw_bytes(),
    {
        &self.rawBytes
    }

    /// The number of bits of the raw bytes that are valid.
    pub fn getNumBits(&self) -> (n: usize)
        ensures
            n == self.spec_num_bits(),
    {
        self.numBits
    }

    /// Sets the number of bits of the raw bytes that are valid.
    pub fn setNumBits(&mut self, numBits: usize)
        ensures
            final(self).spec_num_bits() == numBits,
            final(self).spec_raw_bytes() == old(self).spec_raw_bytes(),
            final(self).spec_text() == old(self).spec_text(),
            final(self).spec_byte_segments() == old(self).spec_byte_segments(),
            final(self).spec_ec_level() == old(self).spec_ec_level(),
            final(self).spec_parity() == old(self).spec_parity(),
            final(self).spec_sequence() == old(self).spec_sequence(),
            final(self).spec_modifier() == old(self).spec_modifier(),
    {
        self.numBits = numBits;
    }

    /// The text of the symbol.
    pub fn getText(&self) -> (t: &String)
        ensures
            t@ == self.spec_text(),
    {
        &self.text
    }

    /// The bytes of the byte segments of the symbol, segment by segment.
    pub fn getByteSegments(&self) -> (s: &Vec<Vec<u8>>)
        ensures
            s@ == self.spec_byte_segments(),
    {
        &self.byteSegments
    }

    /// The name of the level of error correction.
    pub fn getECLevel(&self) -> (l: &String)
        ensures
            l@ == self.spec_ec_level(),
    {
        &self.ecLevel
    }

    /// Whether the symbol is part of a structured append.
    pub fn hasStructuredAppend(&self) -> (b: bool)
        ensures
            b == (self.spec_parity() >= 0 && self.spec_sequence() >= 0),
    {
        self.structuredAppendParity >= 0 && self.structuredAppendSequenceNumber >= 0
    }

    /// The parity of the structured append, or -1.
    pub fn getStructuredAppendParity(&self) -> (p: i32)
        ensures
            p == self.spec_parity(),
    {
        self.structuredAppendParity
    }

    /// The place of the symbol in the structured append, or -1.
    pub fn getStructuredAppendSequenceNumber(&self) -> (n: i32)
        ensures
            n == self.spec_sequence(),
    {
        self.structuredAppendSequenceNumber
    }

    /// The symbology modifier.
    pub fn getSymbologyModifier(&self) -> (m: i32)
        ensures
            m == self.spec_modifier(),
    {
        self.symbologyModifier
    }
}

} // verus!
