use crate::error::Error;
use crate::qrcode::decoder::version::Version;
use vstd::prelude::*;

verus! {

/// The kinds of segment a symbol can hold.
#[derive(Debug, PartialEq, Eq, Hash, Clone, Copy, Structural)]
pub enum Mode {
    Terminator,
    Numeric,
    Alphanumeric,
    StructuredAppend,
    Byte,
    ECI,
    Kanji,
    Fnc1FirstPosition,
    Fnc1SecondPosition,
    Hanzi,
}

impl Mode {
    /// The four bits that announce a segment of this mode.
    pub open spec fn spec_bits(&self) -> u32 {
        match *self {
            Mode::Terminator => 0x00,
            Mode::Numeric => 0x01,
            Mode::Alphanumeric => 0x02,
            Mode::StructuredAppend => 0x03,
            Mode::Byte => 0x04,
            Mode::ECI => 0x07,
            Mode::Kanji => 0x08,
            Mode::Fnc1FirstPosition => 0x05,
            Mode::Fnc1SecondPosition => 0x09,
            Mode::Hanzi => 0x0D,
        }
    }

    /// The width of the character count of a segment of this mode, for the versions up to
    /// 9, up to 26 and above.
    pub open spec fn spec_count_bits(&self) -> Seq<usize> {
        match *self {
            Mode::Terminator => seq![0usize, 0usize, 0usize],
            Mode::Numeric => seq![10usize, 12usize, 14usize],
            Mode::Alphanumeric => seq![9usize, 11usize, 13usize],
            Mode::StructuredAppend => seq![0usize, 0usize, 0usize],
            Mode::Byte => seq![8usize, 16usize, 16usize],
            Mode::ECI => seq![0usize, 0usize, 0usize],
            Mode::Kanji => seq![8usize, 10usize, 12usize],
            Mode::Fnc1FirstPosition => seq![0usize, 0usize, 0usize],
            Mode::Fnc1SecondPosition => seq![0usize, 0usize, 0usize],
            Mode::Hanzi => seq![8usize, 10usize, 12usize],
        }
    }

    /// The width of the character count of a segment of this mode in a symbol of the
    /// version numbered `number`.
    pub open spec fn spec_character_count_bits(&self, number: int) -> usize {
        if number <= 9 {
            self.spec_count_bits()[0]
        } else if number <= 26 {
            self.spec_count_bits()[1]
        } else {
            self.spec_count_bits()[2]
        }
    }

    /// The mode that the four bits `bits` announce, or `None` where they announce none.
    pub open spec fn for_bits(bits: int) -> Option<Mode> {
        if bits == 0x00 {
            Some(Mode::Terminator)
        } else if bits == 0x01 {
            Some(Mode::Numeric)
        } else if bits == 0x02 {
            Some(Mode::Alphanumeric)
        } else if bits == 0x03 {
            Some(Mode::StructuredAppend)
        } else if bits == 0x04 {
            Some(Mode::Byte)
        } else if bits == 0x05 {
            Some(Mode::Fnc1FirstPosition)
        } else if bits == 0x07 {
            Some(Mode::ECI)
        } else if bits == 0x08 {
            Some(Mode::Kanji)
        } else if bits == 0x09 {
            Some(Mode::Fnc1SecondPosition)
        } else if bits == 0x0D {
            Some(Mode::Hanzi)
        } else {
            None
        }
    }

    /// The mode that the four bits `bits` announce. Bits that announce no mode are
    /// refused.
    pub fn forBits(bits: u32) -> (r: Result<Mode, Error>)
        ensures
            match Mode::for_bits(bits as int) {
                Some(mode) => r == Ok::<Mode, Error>(mode),
                None => r matches Err(e) && e is IllegalArgumentException,
            },
    {
        match bits {
            0x00 => Ok(Mode::Terminator),
            0x01 => Ok(Mode::Numeric),
            0x02 => Ok(Mode::Alphanumeric),
            0x03 => Ok(Mode::StructuredAppend),
            0x04 => Ok(Mode::Byte),
            0x05 => Ok(Mode::Fnc1FirstPosition),
            0x07 => Ok(Mode::ECI),
            0x08 => Ok(Mode::Kanji),
            0x09 => Ok(Mode::Fnc1SecondPosition),
            0x0D => Ok(Mode::Hanzi),
            _ => Err(Error::IllegalArgumentException("No such mode".to_owned())),
        }
    }

    pub fn get_terminator() -> (m: Mode)
        ensures
            m == Mode::Terminator,
    {
        Mode::Terminator
    }

    pub fn get_numeric() -> (m: Mode)
        ensures
            m == Mode::Numeric,
    {
        Mode::Numeric
    }

    pub fn get_alphanumeric() -> (m: Mode)
        ensures
            m == Mode::Alphanumeric,
    {
        Mode::Alphanumeric
    }

    pub fn get_structured_append() -> (m: Mode)
        ensures
            m == Mode::StructuredAppend,
    {
        Mode::StructuredAppend
    }

    pub fn get_byte() -> (m: Mode)
        ensures
            m == Mode::Byte,
    {
        Mode::Byte
    }

    pub fn get_eci() -> (m: Mode)
        ensures
            m == Mode::ECI,
    {
        Mode::ECI
    }

    pub fn get_kanji() -> (m: Mode)
        ensures
            m == Mode::Kanji,
    {
        Mode::Kanji
    }

    pub fn get_fnc1_first_position() -> (m: Mode)
        ensures
            m == Mode::Fnc1FirstPosition,
    {
        Mode::Fnc1FirstPosition
    }

    pub fn get_fnc1_second_position() -> (m: Mode)
        ensures
            m == Mode::Fnc1SecondPosition,
    {
        Mode::Fnc1SecondPosition
    }

    pub fn get_hanzi() -> (m: Mode)
        ensures
            m == Mode::Hanzi,
    {
        Mode::Hanzi
    }

    /// The four bits that announce a segment of this mode.
    pub fn get_bits(&self) -> (b: u32)
        ensures
            b == self.spec_bits(),
            b < 16,
    {
        match self {
            Mode::Terminator => 0x00,
            Mode::Numeric => 0x01,
            Mode::Alphanumeric => 0x02,
            Mode::StructuredAppend => 0x03,
            Mode::Byte => 0x04,
            Mode::ECI => 0x07,
            Mode::Kanji => 0x08,
            Mode::Fnc1FirstPosition => 0x05,
            Mode::Fnc1SecondPosition => 0x09,
            Mode::Hanzi => 0x0D,
        }
    }

    fn character_count_bits_for_versions(&self) -> (t: [usize; 3])
        ensures
            t@ == self.spec_count_bits(),
    {
        let t: [usize; 3] = match self {
            Mode::Terminator => [0, 0, 0],
            Mode::Numeric => [10, 12, 14],
            Mode::Alphanumeric => [9, 11, 13],
            Mode::StructuredAppend => [0, 0, 0],
            Mode::Byte => [8, 16, 16],
            Mode::ECI => [0, 0, 0],
            Mode::Kanji => [8, 10, 12],
            Mode::Fnc1FirstPosition => [0, 0, 0],
            Mode::Fnc1SecondPosition => [0, 0, 0],
            Mode::Hanzi => [8, 10, 12],
        };
        proof {
            assert(t@ =~= self.spec_count_bits());
        }
        t
    }

    /// The width of the character count of a segment of this mode in a symbol of the
    /// given version.
    pub fn get_character_count_bits(&self, version: &Version) -> (n: usize)
        ensures
            n == self.spec_character_count_bits(version.spec_number()),
            n <= 16,
    {
        let number = version.get_version_number();
        let offset: usize = if number <= 9 {
            0
        } else if number <= 26 {
            1
        } else {
            2
        };
        let t = self.character_count_bits_for_versions();
        t[offset]
    }
}

} // verus!
