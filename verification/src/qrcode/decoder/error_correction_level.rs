#![allow(non_snake_case)]

use crate::common::charset::push_char;
use crate::error::Error;
use vstd::prelude::*;
use vstd::string::StrSliceExecFns;

verus! {

/// The four levels of error correction of a symbol.
#[derive(Debug, PartialEq, Eq, Hash, Clone, Copy, Structural)]
pub enum ErrorCorrectionLevel {
    /// About 7% of the codewords can be restored.
    L,
    /// About 15% of the codewords can be restored.
    M,
    /// About 25% of the codewords can be restored.
    Q,
    /// About 30% of the codewords can be restored.
    H,
}

impl ErrorCorrectionLevel {
    /// The place of the level in the order L, M, Q, H.
    pub open spec fn spec_ordinal(&self) -> nat {
        match *self {
            ErrorCorrectionLevel::L => 0,
            ErrorCorrectionLevel::M => 1,
            ErrorCorrectionLevel::Q => 2,
            ErrorCorrectionLevel::H => 3,
        }
    }

    /// The two bits that stand for the level in the format information.
    pub open spec fn spec_bits(&self) -> u32 {
        match *self {
            ErrorCorrectionLevel::L => 0x01,
            ErrorCorrectionLevel::M => 0x00,
            ErrorCorrectionLevel::Q => 0x03,
            ErrorCorrectionLevel::H => 0x02,
        }
    }

    /// The place of the level in the order L, M, Q, H.
    pub fn ordinal(&self) -> (n: usize)
        ensures
            n == self.spec_ordinal(),
            n < 4,
    {
        match self {
            ErrorCorrectionLevel::L => 0,
            ErrorCorrectionLevel::M => 1,
            ErrorCorrectionLevel::Q => 2,
            ErrorCorrectionLevel::H => 3,
        }
    }

    /// The letter that names the level.
    pub open spec fn spec_letter(&self) -> char {
        match *self {
            ErrorCorrectionLevel::L => 'L',
            ErrorCorrectionLevel::M => 'M',
            ErrorCorrectionLevel::Q => 'Q',
            ErrorCorrectionLevel::H => 'H',
        }
    }

    /// The name of the level: one of the upper-case letters L, M, Q and H.
    pub fn name(&self) -> (s: String)
        ensures
            s@ == seq![self.spec_letter()],
    {
        let letter = match self {
            ErrorCorrectionLevel::L => 'L',
            ErrorCorrectionLevel::M => 'M',
            ErrorCorrectionLevel::Q => 'Q',
            ErrorCorrectionLevel::H => 'H',
        };
        let mut s = String::new();
        push_char(&mut s, letter);
        proof {
            assert(s@ =~= seq![self.spec_letter()]);
        }
        s
    }

    /// Whether `ec_level` is the name of a level as the command line spells it: one of
    /// the lower-case letters l, m, q and h.
    pub fn check(ec_level: &String) -> (b: bool)
        ensures
            b == (ec_level@.len() == 1 && (ec_level@[0] == 'l' || ec_level@[0] == 'm'
                || ec_level@[0] == 'q' || ec_level@[0] == 'h')),
    {
        let s = ec_level.as_str();
        if s.unicode_len() != 1 {
            return false;
        }
        let c = s.get_char(0);
        c == 'l' || c == 'm' || c == 'q' || c == 'h'
    }

    /// The level named by one of the upper-case letters L, M, Q and H.
    pub fn from(ec_level: &str) -> (r: Result<ErrorCorrectionLevel, Error>)
        ensures
            ec_level@ == seq!['L'] ==> r == Ok::<ErrorCorrectionLevel, Error>(ErrorCorrectionLevel::L),
            ec_level@ == seq!['M'] ==> r == Ok::<ErrorCorrectionLevel, Error>(ErrorCorrectionLevel::M),
            ec_level@ == seq!['Q'] ==> r == Ok::<ErrorCorrectionLevel, Error>(ErrorCorrectionLevel::Q),
            ec_level@ == seq!['H'] ==> r == Ok::<ErrorCorrectionLevel, Error>(ErrorCorrectionLevel::H),
            r is Ok <==> (ec_level@.len() == 1 && (ec_level@[0] == 'L' || ec_level@[0] == 'M'
                || ec_level@[0] == 'Q' || ec_level@[0] == 'H')),
            r matches Err(e) ==> e is IllegalArgumentException,
    {
        if ec_level.unicode_len() == 1 {
            let c = ec_level.get_char(0);
            if c == 'L' {
                return Ok(ErrorCorrectionLevel::L);
            } else if c == 'M' {
                return Ok(ErrorCorrectionLevel::M);
            } else if c == 'Q' {
                return Ok(ErrorCorrectionLevel::Q);
            } else if c == 'H' {
                return Ok(ErrorCorrectionLevel::H);
            }
        }
        Err(Error::IllegalArgumentException("Invalid error correct level".to_owned()))
    }

    /// The two bits that stand for the level in the format information.
    pub fn get_bits(&self) -> (b: u32)
        ensures
            b == self.spec_bits(),
            b < 4,
    {
        match self {
            ErrorCorrectionLevel::L => 0x01,
            ErrorCorrectionLevel::M => 0x00,
            ErrorCorrectionLevel::Q => 0x03,
            ErrorCorrectionLevel::H => 0x02,
        }
    }

    /// The level that the two bits stand for in the format information; a number above 3
    /// is refused.
    pub fn forBits(bits: u32) -> (r: Result<ErrorCorrectionLevel, Error>)
        ensures
            r is Ok <==> bits < 4,
            r matches Ok(level) ==> level.spec_bits() == bits,
            r matches Err(e) ==> e is IllegalArgumentException,
    {
        if bits == 0 {
            Ok(ErrorCorrectionLevel::M)
        } else if bits == 1 {
            Ok(ErrorCorrectionLevel::L)
        } else if bits == 2 {
            Ok(ErrorCorrectionLevel::H)
        } else if bits == 3 {
            Ok(ErrorCorrectionLevel::Q)
        } else {
            Err(Error::IllegalArgumentException("Invalid error correct level bits".to_owned()))
        }
    }
}

} // verus!
