use crate::common::bit_array::{low_bits, BitArray};
use crate::common::bit_source::bytes_bits;
use crate::common::charset::{encode_shift_jis, shift_jis_of, Charset};
use crate::error::Error;
use crate::qrcode::decoder::error_correction_level::ErrorCorrectionLevel;
use crate::qrcode::decoder::mode::Mode;
use crate::qrcode::decoder::version::{Version, Versions};
use crate::qrcode::encoder::encoder_kanji::{
    kanji_bits, kanji_bytes, kanji_lead, kanji_pairs, lead_of,
};
use vstd::arithmetic::power2::{lemma2_to64, lemma_pow2_unfold, pow2};
use vstd::prelude::*;
use vstd::string::StrSliceExecFns;

verus! {

/// Turns text into the description of a symbol.
pub struct Encoder {
    default_byte_mode_encoding: Charset,
    versions: Versions,
}

/// The greatest number of characters, and of bytes, that the encoder looks at. No symbol
/// holds so many.
pub const MAX_CONTENT: usize = 10000;

/// Whether `c` is one of the digits 0 to 9.
pub open spec fn is_digit(c: char) -> bool {
    48 <= c as u32 <= 57
}

/// The number of `c` in the alphanumeric set: the digits, the upper case letters, the
/// space and the signs `$ % * + - . / :`, in this order from 0 to 44; -1 for any other
/// character.
pub open spec fn alphanumeric_code(c: char) -> int {
    alphanumeric_code_of(c as u32)
}

/// The number in the alphanumeric set of the character with the code `n`, or -1.
pub open spec fn alphanumeric_code_of(n: u32) -> int {
    if 48 <= n <= 57 {
        n - 48
    } else if 65 <= n <= 90 {
        n - 55
    } else if n == 32 {
        36
    } else if n == 36 {
        37
    } else if n == 37 {
        38
    } else if n == 42 {
        39
    } else if n == 43 {
        40
    } else if n == 45 {
        41
    } else if n == 46 {
        42
    } else if n == 47 {
        43
    } else if n == 58 {
        44
    } else {
        -1
    }
}

/// Whether the text has bytes in Shift_JIS, and these are pairs, each with the lead byte
/// of a double-byte Kanji.
pub open spec fn only_kanji(sjis: Option<Seq<u8>>) -> bool {
    sjis matches Some(bytes) && kanji_bytes(bytes)
}

/// The mode for a text with the given characters and the given bytes in Shift_JIS, if it
/// has any: Kanji where the bytes are those of double-byte Kanji; else Byte where a
/// character is outside the alphanumeric set; else Alphanumeric where a character is no
/// digit; else Numeric where there is a digit; else Byte.
pub open spec fn mode_of(content: Seq<char>, sjis: Option<Seq<u8>>) -> Mode {
    if only_kanji(sjis) {
        Mode::Kanji
    } else if exists|i: int| 0 <= i < content.len() && alphanumeric_code(#[trigger] content[i]) == -1 {
        Mode::Byte
    } else if exists|i: int| 0 <= i < content.len() && !is_digit(#[trigger] content[i]) {
        Mode::Alphanumeric
    } else if content.len() > 0 {
        Mode::Numeric
    } else {
        Mode::Byte
    }
}

/// The value of the digit `c`.
pub open spec fn digit_value(c: char) -> u32 {
    (c as u32 - 48) as u32
}

/// The bits of a text of digits: ten for each three digits, and seven for two or four for
/// one that are left at the end.
pub open spec fn numeric_bits(s: Seq<char>) -> Seq<bool>
    decreases s.len(),
{
    if s.len() == 0 {
        Seq::empty()
    } else if s.len() >= 3 {
        low_bits(
            (100 * digit_value(s[0]) + 10 * digit_value(s[1]) + digit_value(s[2])) as u32,
            10,
        ) + numeric_bits(s.subrange(3, s.len() as int))
    } else if s.len() == 2 {
        low_bits((10 * digit_value(s[0]) + digit_value(s[1])) as u32, 7)
    } else {
        low_bits(digit_value(s[0]), 4)
    }
}

/// The bits of a text of the alphanumeric set: eleven for each two characters, the
/// first counting 45 times, and six for one that is left at the end.
pub open spec fn alphanumeric_bits(s: Seq<char>) -> Seq<bool>
    decreases s.len(),
{
    if s.len() == 0 {
        Seq::empty()
    } else if s.len() >= 2 {
        low_bits((45 * alphanumeric_code(s[0]) + alphanumeric_code(s[1])) as u32, 11)
            + alphanumeric_bits(s.subrange(2, s.len() as int))
    } else {
        low_bits(alphanumeric_code(s[0]) as u32, 6)
    }
}

/// `n` bits, all of them zero.
pub open spec fn zero_bits(n: nat) -> Seq<bool> {
    Seq::new(n, |j: int| false)
}

/// The bytes that fill a symbol behind its data: 0xEC and 0x11 in turn.
pub open spec fn pad_bytes(n: nat) -> Seq<u8> {
    Seq::new(n, |i: int| if i % 2 == 0 {
        0xECu8
    } else {
        0x11u8
    })
}

/// The bits of a symbol with room for `num_data_bytes` bytes that holds `bits`: behind
/// `bits` the terminator of four zeros, or of as many as there is room for; zeros up to
/// the end of the byte; and the pad bytes that fill the room.
pub open spec fn terminated(bits: Seq<bool>, num_data_bytes: nat) -> Seq<bool> {
    let capacity = 8 * num_data_bytes;
    let terminator = if capacity - bits.len() >= 4 {
        4nat
    } else {
        (capacity - bits.len()) as nat
    };
    let ended = bits.len() + terminator;
    let aligned = (ended + 7) / 8 * 8;
    bits + zero_bits((aligned - bits.len()) as nat) + bytes_bits(
        pad_bytes((num_data_bytes - aligned / 8) as nat),
    )
}

/// Whether `bits` bits fit a symbol of the given version at the level with the given
/// ordinal: the data codewords of the version are no fewer than the bytes that the bits
/// fill.
pub open spec fn fits(version: Version, ordinal: int, bits: int) -> bool {
    version.spec_data_codewords(ordinal) >= (bits + 7) / 8
}

/// The number of the first version from `from` on that `bits` bits fit, or `None`.
pub open spec fn first_fitting(table: Seq<Version>, ordinal: int, bits: int, from: int) -> Option<int>
    decreases 41 - from,
{
    if from < 1 || from > 40 {
        None
    } else if fits(table[from - 1], ordinal, bits) {
        Some(from)
    } else {
        first_fitting(table, ordinal, bits, from + 1)
    }
}

/// The number of the version for a segment of the given mode whose header and data have
/// `payload` bits. The width of the character count depends on the version: the version
/// is chosen for the count of version 1 first, and then anew for the count of the
/// version so found.
pub open spec fn recommended(table: Seq<Version>, ordinal: int, mode: Mode, payload: int) -> Option<int> {
    match first_fitting(table, ordinal, payload + mode.spec_character_count_bits(1), 1) {
        None => None,
        Some(provisional) => first_fitting(
            table,
            ordinal,
            payload + mode.spec_character_count_bits(provisional),
            1,
        ),
    }
}

/// The first fitting version is one that fits, and none before it from `from` on does.
pub proof fn lemma_first_fitting(table: Seq<Version>, ordinal: int, bits: int, from: int)
    requires
        1 <= from <= 41,
    ensures
        match first_fitting(table, ordinal, bits, from) {
            Some(n) => from <= n <= 40 && fits(table[n - 1], ordinal, bits) && forall|k: int|
                from <= k < n ==> !fits(#[trigger] table[k - 1], ordinal, bits),
            None => forall|k: int| from <= k <= 40 ==> !fits(#[trigger] table[k - 1], ordinal, bits),
        },
    decreases 41 - from,
{
    if from <= 40 && !fits(table[from - 1], ordinal, bits) {
        lemma_first_fitting(table, ordinal, bits, from + 1);
    }
}

/// A text of digits has at most four bits for each digit.
pub proof fn lemma_numeric_bits_len(s: Seq<char>)
    ensures
        numeric_bits(s).len() <= 4 * s.len(),
    decreases s.len(),
{
    if s.len() >= 3 {
        lemma_numeric_bits_len(s.subrange(3, s.len() as int));
    }
}

/// A text of the alphanumeric set has at most six bits for each character.
pub proof fn lemma_alphanumeric_bits_len(s: Seq<char>)
    ensures
        alphanumeric_bits(s).len() <= 6 * s.len(),
    decreases s.len(),
{
    if s.len() >= 2 {
        lemma_alphanumeric_bits_len(s.subrange(2, s.len() as int));
    }
}

/// The bits of the bytes with one more byte are those of the bytes and the eight of
/// the byte.
pub proof fn lemma_bytes_bits_push(s: Seq<u8>, b: u8)
    ensures
        bytes_bits(s.push(b)) == bytes_bits(s) + low_bits(b as u32, 8),
{
    assert(bytes_bits(s.push(b)) =~= bytes_bits(s) + low_bits(b as u32, 8));
}

impl Encoder {
    /// The table of the versions.
    pub closed spec fn spec_versions(&self) -> Versions {
        self.versions
    }

    /// The character set for bytes where no hint names one.
    pub closed spec fn spec_default_encoding(&self) -> Charset {
        self.default_byte_mode_encoding
    }

    /// The table of the versions is well formed.
    pub open spec fn wf(&self) -> bool {
        self.spec_versions().wf() && self.spec_default_encoding() == Charset::ISO8859_1
    }

    /// An encoder with the table of the versions, which writes bytes in ISO 8859-1 where
    /// no hint says otherwise.
    pub fn new() -> (e: Encoder)
        ensures
            e.wf(),
    {
        Encoder { default_byte_mode_encoding: Charset::ISO8859_1, versions: Versions::new() }
    }

    /// The table of the versions.
    pub fn get_versions(&self) -> (v: &Versions)
        ensures
            *v == self.spec_versions(),
    {
        &self.versions
    }

    /// The character set for bytes where no hint names one.
    pub fn get_default_encoding(&self) -> (c: Charset)
        ensures
            c == self.spec_default_encoding(),
    {
        self.default_byte_mode_encoding
    }

    /// The characters of `content`.
    pub fn chars_of(content: &str) -> (v: Vec<char>)
        ensures
            v@ == content@,
    {
        let n = content.unicode_len();
        let mut v: Vec<char> = Vec::new();
        let mut i: usize = 0;
        while i < n
            invariant
                i <= n,
                n == content@.len(),
                v@ == content@.subrange(0, i as int),
            decreases n - i,
        {
            v.push(content.get_char(i));
            proof {
                assert(v@ =~= content@.subrange(0, i + 1));
            }
            i += 1;
        }
        proof {
            assert(content@.subrange(0, n as int) =~= content@);
        }
        v
    }

    /// The mode for `content`: Kanji where its bytes in Shift_JIS are those of
    /// double-byte Kanji; else Byte where a character is outside the alphanumeric set;
    /// else Alphanumeric where a character is no digit; else Numeric.
    pub fn choose_mode(&self, content: &str, encoding: &Charset) -> (r: Result<Mode, Error>)
        ensures
            r matches Ok(m) && m == mode_of(content@, shift_jis_of(content@)),
    {
        if self.is_only_double_byte_kanji(content) {
            return Ok(Mode::get_kanji());
        }
        let chars = Encoder::chars_of(content);
        let mut has_numeric = false;
        let mut has_alphanumeric = false;
        let mut i: usize = 0;
        while i < chars.len()
            invariant
                i <= chars@.len(),
                chars@ == content@,
                !only_kanji(shift_jis_of(content@)),
                forall|j: int| 0 <= j < i ==> alphanumeric_code(#[trigger] chars@[j]) != -1,
                has_alphanumeric == exists|j: int| 0 <= j < i && !is_digit(#[trigger] chars@[j]),
                has_numeric == exists|j: int| 0 <= j < i && is_digit(#[trigger] chars@[j]),
            decreases chars@.len() - i,
        {
            let c = chars[i];
            let ghost found_alphanumeric = has_alphanumeric;
            let ghost found_numeric = has_numeric;
            if c as u32 >= 48 && c as u32 <= 57 {
                has_numeric = true;
            } else if Encoder::_get_alphanumeric_code(c as u32) != -1 {
                has_alphanumeric = true;
            } else {
                assert(alphanumeric_code(chars@[i as int]) == -1);
                return Ok(Mode::get_byte());
            }
            proof {
                if is_digit(chars@[i as int]) {
                    assert(has_numeric);
                    if found_alphanumeric {
                        let j = choose|j: int| 0 <= j < i && !is_digit(#[trigger] chars@[j]);
                        assert(0 <= j < i + 1 && !is_digit(chars@[j]));
                    }
                } else {
                    assert(has_alphanumeric);
                    if found_numeric {
                        let j = choose|j: int| 0 <= j < i && is_digit(#[trigger] chars@[j]);
                        assert(0 <= j < i + 1 && is_digit(chars@[j]));
                    }
                }
            }
            i += 1;
        }
        if has_alphanumeric {
            return Ok(Mode::get_alphanumeric());
        }
        if has_numeric {
            return Ok(Mode::get_numeric());
        }
        proof {
            if chars@.len() > 0 {
                if is_digit(chars@[0]) {
                    assert(exists|j: int| 0 <= j < i && is_digit(#[trigger] chars@[j]));
                } else {
                    assert(exists|j: int| 0 <= j < i && !is_digit(#[trigger] chars@[j]));
                }
            }
            assert(content@.len() == 0);
        }
        Ok(Mode::get_byte())
    }

    /// Whether `content` has bytes in Shift_JIS, and these are pairs, each with the lead
    /// byte of a double-byte Kanji.
    pub fn is_only_double_byte_kanji(&self, content: &str) -> (b: bool)
        ensures
            b == only_kanji(shift_jis_of(content@)),
    {
        match encode_shift_jis(content) {
            Some(bytes) => Encoder::are_kanji_bytes(&bytes),
            None => false,
        }
    }

    /// Whether the bytes are pairs, each with the lead byte of a double-byte Kanji.
    pub fn are_kanji_bytes(bytes: &Vec<u8>) -> (b: bool)
        ensures
            b == kanji_bytes(bytes@),
    {
        let length = bytes.len();
        if length % 2 != 0 {
            return false;
        }
        let mut i: usize = 0;
        while i < length / 2
            invariant
                i <= length / 2,
                length == bytes@.len(),
                length % 2 == 0,
                forall|j: int| 0 <= j < i ==> kanji_lead(#[trigger] lead_of(bytes@, j)),
            decreases length / 2 - i,
        {
            let b1 = bytes[2 * i];
            if (b1 < 0x81 || b1 > 0x9F) && (b1 < 0xE0 || b1 > 0xEB) {
                assert(!kanji_lead(lead_of(bytes@, i as int)));
                return false;
            }
            i += 1;
        }
        true
    }

    /// The number of the character with the given code in the alphanumeric set, or -1.
    pub fn _get_alphanumeric_code(code: u32) -> (n: i32)
        ensures
            n == alphanumeric_code_of(code),
            -1 <= n <= 44,
    {
        if 48 <= code && code <= 57 {
            (code - 48) as i32
        } else if 65 <= code && code <= 90 {
            (code - 55) as i32
        } else if code == 32 {
            36
        } else if code == 36 {
            37
        } else if code == 37 {
            38
        } else if code == 42 {
            39
        } else if code == 43 {
            40
        } else if code == 45 {
            41
        } else if code == 46 {
            42
        } else if code == 47 {
            43
        } else if code == 58 {
            44
        } else {
            -1
        }
    }

    /// Appends the four bits that announce a segment of the given mode.
    pub fn append_mode_info(mode: &Mode, bits: &mut BitArray)
        requires
            old(bits).wf(),
            old(bits).clean(),
            old(bits).spec_size() + 4 <= BitArray::MAX_SIZE,
        ensures
            final(bits).wf(),
            final(bits).clean(),
            final(bits)@ == old(bits)@ + low_bits(mode.spec_bits(), 4),
            final(bits).spec_size() == old(bits).spec_size() + 4,
    {
        let appended = bits.append_bits(mode.get_bits(), 4);
    }

    /// The number of the extended channel interpretation that names the character set.
    pub open spec fn spec_eci_number(charset: Charset) -> u32 {
        match charset {
            Charset::ISO8859_1 => 3,
            Charset::UTF8 => 26,
            Charset::ASCII => 27,
            Charset::GBK => 29,
        }
    }

    /// The bits of the extended channel interpretation that names the character set: its
    /// announcement and its number in eight bits.
    pub open spec fn spec_eci_bits(charset: Charset) -> Seq<bool> {
        low_bits(Mode::ECI.spec_bits(), 4) + low_bits(Encoder::spec_eci_number(charset), 8)
    }

    /// Appends the extended channel interpretation that names the character set.
    pub fn append_eci(charset: &Charset, bits: &mut BitArray)
        requires
            old(bits).wf(),
            old(bits).clean(),
            old(bits).spec_size() + 12 <= BitArray::MAX_SIZE,
        ensures
            final(bits).wf(),
            final(bits).clean(),
            final(bits)@ == old(bits)@ + Encoder::spec_eci_bits(*charset),
            final(bits).spec_size() == old(bits).spec_size() + 12,
    {
        let number: u32 = match charset {
            Charset::ISO8859_1 => 3,
            Charset::UTF8 => 26,
            Charset::ASCII => 27,
            Charset::GBK => 29,
        };
        Encoder::append_mode_info(&Mode::ECI, bits);
        // The number is below 128 and takes one byte.
        let appended = bits.append_bits(number, 8);
        proof {
            assert(bits@ =~= old(bits)@ + Encoder::spec_eci_bits(*charset));
        }
    }

    /// Appends the bits of `content` as a segment of the given mode has them. Text that
    /// the mode cannot hold is refused, and so is a mode that holds no text.
    pub fn append_bytes(content: &str, mode: &Mode, bits: &mut BitArray, encoding: &Charset) -> (r:
        Result<(), Error>)
        requires
            old(bits).wf(),
            old(bits).clean(),
            old(bits).spec_size() == 0,
        ensures
            final(bits).wf(),
            final(bits).clean(),
            match Encoder::spec_data_bits(content, *mode, *encoding) {
                Some(data) => r is Ok && final(bits)@ == data,
                None => r matches Err(e) && e is WriterException,
            },
    {
        let chars = Encoder::chars_of(content);
        if chars.len() > MAX_CONTENT {
            return Err(Error::WriterException("Data too big".to_owned()));
        }
        match mode {
            Mode::Numeric => {
                let mut i: usize = 0;
                while i < chars.len()
                    invariant
                        i <= chars@.len(),
                        bits.wf(),
                        bits.clean(),
                        *bits == *old(bits),
                        chars@ == content@,
                        chars@.len() <= MAX_CONTENT,
                        *mode == Mode::Numeric,
                        forall|j: int| 0 <= j < i ==> is_digit(#[trigger] chars@[j]),
                    decreases chars@.len() - i,
                {
                    if !(chars[i] as u32 >= 48 && chars[i] as u32 <= 57) {
                        assert(!is_digit(chars@[i as int]));
                        return Err(
                            Error::WriterException("Numeric mode holds digits only".to_owned()),
                        );
                    }
                    i += 1;
                }
                Encoder::append_numeric_bytes(&chars, bits);
                Ok(())
            },
            Mode::Alphanumeric => {
                let mut i: usize = 0;
                while i < chars.len()
                    invariant
                        i <= chars@.len(),
                        bits.wf(),
                        bits.clean(),
                        *bits == *old(bits),
                        chars@ == content@,
                        chars@.len() <= MAX_CONTENT,
                        *mode == Mode::Alphanumeric,
                        forall|j: int| 0 <= j < i ==> alphanumeric_code(#[trigger] chars@[j]) != -1,
                    decreases chars@.len() - i,
                {
                    if Encoder::_get_alphanumeric_code(chars[i] as u32) == -1 {
                        assert(alphanumeric_code(chars@[i as int]) == -1);
                        return Err(
                            Error::WriterException(
                                "Alphanumeric mode does not hold the character".to_owned(),
                            ),
                        );
                    }
                    i += 1;
                }
                Encoder::append_alphanumeric_bytes(&chars, bits);
                Ok(())
            },
            Mode::Byte => Encoder::append_8bit_bytes(content, bits, encoding),
            Mode::Kanji => {
                let bytes = match encode_shift_jis(content) {
                    Some(bytes) => bytes,
                    None => {
                        return Err(
                            Error::WriterException("Kanji mode does not hold the text".to_owned()),
                        );
                    },
                };
                if bytes.len() > 2 * MAX_CONTENT {
                    return Err(Error::WriterException("Data too big".to_owned()));
                }
                Encoder::append_kanji_bytes(&bytes, bits)
            },
            _ => Err(Error::WriterException("Invalid mode".to_owned())),
        }
    }

    /// The bits of `content` as a segment of the given mode has them: none for a text of
    /// more than `MAX_CONTENT` characters or bytes, for a text that the mode cannot hold
    /// and for a mode that holds no text.
    pub open spec fn spec_data_bits(content: &str, mode: Mode, encoding: Charset) -> Option<Seq<bool>> {
        if content@.len() > MAX_CONTENT {
            None
        } else {
            match mode {
                Mode::Numeric => if forall|j: int|
                    0 <= j < content@.len() ==> is_digit(#[trigger] content@[j]) {
                    Some(numeric_bits(content@))
                } else {
                    None
                },
                Mode::Alphanumeric => if forall|j: int|
                    0 <= j < content@.len() ==> alphanumeric_code(#[trigger] content@[j]) != -1 {
                    Some(alphanumeric_bits(content@))
                } else {
                    None
                },
                Mode::Byte => match encoding.spec_encode(content) {
                    Some(bytes) => if bytes.len() <= MAX_CONTENT {
                        Some(bytes_bits(bytes))
                    } else {
                        None
                    },
                    None => None,
                },
                Mode::Kanji => match shift_jis_of(content@) {
                    Some(bytes) => if bytes.len() <= 2 * MAX_CONTENT && kanji_pairs(bytes) {
                        Some(kanji_bits(bytes))
                    } else {
                        None
                    },
                    None => None,
                },
                _ => None,
            }
        }
    }

    /// Appends the bits of a text of digits: ten for each three digits, and seven for two
    /// or four for one that are left at the end.
    pub fn append_numeric_bytes(content: &Vec<char>, bits: &mut BitArray)
        requires
            old(bits).wf(),
            old(bits).clean(),
            old(bits).spec_size() == 0,
            content@.len() <= MAX_CONTENT,
            forall|j: int| 0 <= j < content@.len() ==> is_digit(#[trigger] content@[j]),
        ensures
            final(bits).wf(),
            final(bits).clean(),
            final(bits)@ == numeric_bits(content@),
    {
        let length = content.len();
        let mut i: usize = 0;
        proof {
            assert(bits@ =~= Seq::<bool>::empty());
            assert(content@.subrange(0, length as int) =~= content@);
            assert(Seq::<bool>::empty() + numeric_bits(content@) =~= numeric_bits(content@));
        }
        while i < length
            invariant
                i <= length,
                length == content@.len(),
                length <= MAX_CONTENT,
                forall|j: int| 0 <= j < content@.len() ==> is_digit(#[trigger] content@[j]),
                bits.wf(),
                bits.clean(),
                bits.spec_size() <= 4 * i,
                bits@ + numeric_bits(content@.subrange(i as int, length as int)) == numeric_bits(
                    content@,
                ),
            decreases length - i,
        {
            let ghost rest = content@.subrange(i as int, length as int);
            let ghost before = bits@;
            let num1: u32 = content[i] as u32 - 48;
            proof {
                assert(rest[0] == content@[i as int]);
                assert(is_digit(content@[i as int]));
            }
            if i + 2 < length {
                // Three digits in ten bits.
                let num2: u32 = content[i + 1] as u32 - 48;
                let num3: u32 = content[i + 2] as u32 - 48;
                proof {
                    assert(rest[1] == content@[i + 1]);
                    assert(rest[2] == content@[i + 2]);
                    assert(is_digit(content@[i + 1]));
                    assert(is_digit(content@[i + 2]));
                    assert(rest.subrange(3, rest.len() as int) =~= content@.subrange(
                        i + 3,
                        length as int,
                    ));
                }
                let appended = bits.append_bits(num1 * 100 + num2 * 10 + num3, 10);
                proof {
                    let chunk = low_bits((num1 * 100 + num2 * 10 + num3) as u32, 10);
                    let tail = numeric_bits(content@.subrange(i + 3, length as int));
                    assert((before + chunk) + tail =~= before + (chunk + tail));
                }
                i += 3;
            } else if i + 1 < length {
                // Two digits in seven bits.
                let num2: u32 = content[i + 1] as u32 - 48;
                proof {
                    assert(rest[1] == content@[i + 1]);
                    assert(is_digit(content@[i + 1]));
                    assert(rest.len() == 2);
                }
                let appended = bits.append_bits(num1 * 10 + num2, 7);
                i += 2;
                proof {
                    assert(numeric_bits(content@.subrange(i as int, length as int)) =~= Seq::<
                        bool,
                    >::empty());
                    assert(bits@ + Seq::<bool>::empty() =~= bits@);
                }
            } else {
                // One digit in four bits.
                proof {
                    assert(rest.len() == 1);
                }
                let appended = bits.append_bits(num1, 4);
                i += 1;
                proof {
                    assert(numeric_bits(content@.subrange(i as int, length as int)) =~= Seq::<
                        bool,
                    >::empty());
                    assert(bits@ + Seq::<bool>::empty() =~= bits@);
                }
            }
        }
        proof {
            assert(numeric_bits(content@.subrange(length as int, length as int)) =~= Seq::<
                bool,
            >::empty());
            assert(bits@ + Seq::<bool>::empty() =~= bits@);
        }
    }

    /// Appends the bits of a text of the alphanumeric set: eleven for each two
    /// characters, and six for one that is left at the end.
    pub fn append_alphanumeric_bytes(content: &Vec<char>, bits: &mut BitArray)
        requires
            old(bits).wf(),
            old(bits).clean(),
            old(bits).spec_size() == 0,
            content@.len() <= MAX_CONTENT,
            forall|j: int| 0 <= j < content@.len() ==> alphanumeric_code(#[trigger] content@[j]) != -1,
        ensures
            final(bits).wf(),
            final(bits).clean(),
            final(bits)@ == alphanumeric_bits(content@),
    {
        let length = content.len();
        let mut i: usize = 0;
        proof {
            assert(bits@ =~= Seq::<bool>::empty());
            assert(content@.subrange(0, length as int) =~= content@);
            assert(Seq::<bool>::empty() + alphanumeric_bits(content@) =~= alphanumeric_bits(
                content@,
            ));
        }
        while i < length
            invariant
                i <= length,
                length == content@.len(),
                length <= MAX_CONTENT,
                forall|j: int|
                    0 <= j < content@.len() ==> alphanumeric_code(#[trigger] content@[j]) != -1,
                bits.wf(),
                bits.clean(),
                bits.spec_size() <= 6 * i,
                bits@ + alphanumeric_bits(content@.subrange(i as int, length as int))
                    == alphanumeric_bits(content@),
            decreases length - i,
        {
            let ghost rest = content@.subrange(i as int, length as int);
            let ghost before = bits@;
            let code1: i32 = Encoder::_get_alphanumeric_code(content[i] as u32);
            proof {
                assert(rest[0] == content@[i as int]);
                assert(alphanumeric_code(content@[i as int]) != -1);
            }
            if i + 1 < length {
                // Two characters in eleven bits.
                let code2: i32 = Encoder::_get_alphanumeric_code(content[i + 1] as u32);
                proof {
                    assert(rest[1] == content@[i + 1]);
                    assert(alphanumeric_code(content@[i + 1]) != -1);
                    assert(rest.subrange(2, rest.len() as int) =~= content@.subrange(
                        i + 2,
                        length as int,
                    ));
                }
                let appended = bits.append_bits((code1 * 45 + code2) as u32, 11);
                proof {
                    let chunk = low_bits((code1 * 45 + code2) as u32, 11);
                    let tail = alphanumeric_bits(content@.subrange(i + 2, length as int));
                    assert((before + chunk) + tail =~= before + (chunk + tail));
                }
                i += 2;
            } else {
                // One character in six bits.
                proof {
                    assert(rest.len() == 1);
                }
                let appended = bits.append_bits(code1 as u32, 6);
                i += 1;
                proof {
                    assert(alphanumeric_bits(content@.subrange(i as int, length as int)) =~= Seq::<
                        bool,
                    >::empty());
                    assert(bits@ + Seq::<bool>::empty() =~= bits@);
                }
            }
        }
        proof {
            assert(alphanumeric_bits(content@.subrange(length as int, length as int)) =~= Seq::<
                bool,
            >::empty());
            assert(bits@ + Seq::<bool>::empty() =~= bits@);
        }
    }

    /// Appends the bytes of `content` in the given character set, eight bits for each. A
    /// text with a character that has no place in the set is refused, and so is one of
    /// more than `MAX_CONTENT` bytes.
    pub fn append_8bit_bytes(content: &str, bits: &mut BitArray, encoding: &Charset) -> (r: Result<
        (),
        Error,
    >)
        requires
            old(bits).wf(),
            old(bits).clean(),
            old(bits).spec_size() == 0,
        ensures
            final(bits).wf(),
            final(bits).clean(),
            match encoding.spec_encode(content) {
                Some(bytes) => if bytes.len() <= MAX_CONTENT {
                    r is Ok && final(bits)@ == bytes_bits(bytes)
                } else {
                    r matches Err(e) && e is WriterException
                },
                None => r matches Err(e) && e is WriterException,
            },
    {
        let bytes = match encoding.encode(content) {
            Ok(bytes) => bytes,
            Err(e) => {
                return Err(e);
            },
        };
        if bytes.len() > MAX_CONTENT {
            return Err(Error::WriterException("Data too big".to_owned()));
        }
        Encoder::append_byte_values(&bytes, bits);
        Ok(())
    }

    /// Appends the bytes, eight bits for each.
    pub fn append_byte_values(bytes: &Vec<u8>, bits: &mut BitArray)
        requires
            old(bits).wf(),
            old(bits).clean(),
            old(bits).spec_size() + 8 * bytes@.len() <= BitArray::MAX_SIZE,
        ensures
            final(bits).wf(),
            final(bits).clean(),
            final(bits)@ == old(bits)@ + bytes_bits(bytes@),
    {
        let ghost pre = bits@;
        let mut i: usize = 0;
        proof {
            assert(bytes_bits(bytes@.subrange(0, 0)) =~= Seq::<bool>::empty());
            assert(pre + Seq::<bool>::empty() =~= pre);
        }
        while i < bytes.len()
            invariant
                i <= bytes@.len(),
                bits.wf(),
                bits.clean(),
                bits.spec_size() == pre.len() + 8 * i,
                pre.len() + 8 * bytes@.len() <= BitArray::MAX_SIZE,
                bits@ == pre + bytes_bits(bytes@.subrange(0, i as int)),
            decreases bytes@.len() - i,
        {
            let ghost before = bits@;
            let appended = bits.append_bits(bytes[i] as u32, 8);
            proof {
                let done = bytes@.subrange(0, i as int);
                lemma_bytes_bits_push(done, bytes@[i as int]);
                assert(done.push(bytes@[i as int]) =~= bytes@.subrange(0, i + 1));
                assert((pre + bytes_bits(done)) + low_bits(bytes@[i as int] as u32, 8) =~= pre + (
                bytes_bits(done) + low_bits(bytes@[i as int] as u32, 8)));
            }
            i += 1;
        }
        proof {
            assert(bytes@.subrange(0, bytes@.len() as int) =~= bytes@);
        }
    }

    /// Appends the number of characters of a segment, in the width that the mode has in
    /// the version. A number that the width does not hold is refused.
    pub fn append_length_info(num_letters: usize, version: &Version, mode: &Mode, bits: &mut BitArray) -> (r:
        Result<(), Error>)
        requires
            old(bits).wf(),
            old(bits).clean(),
            old(bits).spec_size() + 16 <= BitArray::MAX_SIZE,
        ensures
            final(bits).wf(),
            final(bits).clean(),
            r is Ok <==> num_letters < pow2(mode.spec_character_count_bits(version.spec_number()) as nat),
            r is Ok ==> final(bits)@ == old(bits)@ + low_bits(
                num_letters as u32,
                mode.spec_character_count_bits(version.spec_number()) as nat,
            ),
            r matches Err(e) ==> e is WriterException && *final(bits) == *old(bits),
    {
        let num_bits = mode.get_character_count_bits(version);
        let limit = Encoder::two_to(num_bits);
        if num_letters >= limit {
            return Err(Error::WriterException("The count of characters is too big".to_owned()));
        }
        let appended = bits.append_bits(num_letters as u32, num_bits);
        Ok(())
    }

    /// Two to the `n`.
    pub fn two_to(n: usize) -> (r: usize)
        requires
            n <= 16,
        ensures
            r == pow2(n as nat),
            r <= 0x10000,
    {
        let mut r: usize = 1;
        let mut i: usize = 0;
        proof {
            lemma2_to64();
        }
        while i < n
            invariant
                i <= n <= 16,
                r == pow2(i as nat),
                r <= pow2(16),
                pow2(16) == 0x10000,
            decreases n - i,
        {
            proof {
                lemma_pow2_unfold((i + 1) as nat);
                if i + 1 < 16 {
                    vstd::arithmetic::power2::lemma_pow2_strictly_increases(
                        (i + 1) as nat,
                        16,
                    );
                }
            }
            r = r * 2;
            i += 1;
        }
        r
    }

    /// The smallest version that header, character count and data fit at the given
    /// level. Where no version has the room, the data is too big.
    pub fn recommend_version(
        &self,
        ec_level: &ErrorCorrectionLevel,
        mode: &Mode,
        header_bits: &BitArray,
        data_bits: &BitArray,
    ) -> (r: Result<&Version, Error>)
        requires
            self.wf(),
            header_bits.wf(),
            data_bits.wf(),
            header_bits@.len() + data_bits@.len() <= BitArray::MAX_SIZE,
        ensures
            match recommended(
                self.spec_versions().table(),
                ec_level.spec_ordinal() as int,
                *mode,
                (header_bits@.len() + data_bits@.len()) as int,
            ) {
                Some(n) => r matches Ok(v) && v.wf() && v.spec_number() == n && *v
                    == self.spec_versions().table()[n - 1],
                None => r matches Err(e) && e is WriterException,
            },
    {
        // The width of the character count depends on the version, and the version on the
        // number of bits. A first guess takes the width of version 1.
        let version = match self.versions.get_version_for_number(1) {
            Ok(v) => v,
            Err(e) => {
                return Err(e);
            },
        };
        let provisional_bits_needed = Encoder::calculate_bits_needed(
            mode,
            header_bits,
            data_bits,
            version,
        );
        let provisional_version = match self.choose_version(provisional_bits_needed, ec_level) {
            Ok(v) => v,
            Err(e) => {
                return Err(e);
            },
        };
        // The guess gives the width for the version that is chosen.
        let bits_needed = Encoder::calculate_bits_needed(
            mode,
            header_bits,
            data_bits,
            provisional_version,
        );
        self.choose_version(bits_needed, ec_level)
    }

    /// The number of bits of a segment in the given version: header, character count and
    /// data.
    pub fn calculate_bits_needed(mode: &Mode, header_bits: &BitArray, data_bits: &BitArray, version: &Version) -> (n:
        usize)
        requires
            header_bits.wf(),
            data_bits.wf(),
            header_bits@.len() + data_bits@.len() <= BitArray::MAX_SIZE,
        ensures
            n == header_bits@.len() + data_bits@.len() + mode.spec_character_count_bits(
                version.spec_number(),
            ),
    {
        header_bits.get_size() + data_bits.get_size() + mode.get_character_count_bits(version)
    }

    /// The smallest version that `num_input_bits` bits fit at the given level.
    pub fn choose_version(&self, num_input_bits: usize, ec_level: &ErrorCorrectionLevel) -> (r: Result<
        &Version,
        Error,
    >)
        requires
            self.wf(),
        ensures
            match first_fitting(
                self.spec_versions().table(),
                ec_level.spec_ordinal() as int,
                num_input_bits as int,
                1,
            ) {
                Some(n) => r matches Ok(v) && v.wf() && v.spec_number() == n && *v
                    == self.spec_versions().table()[n - 1],
                None => r matches Err(e) && e is WriterException,
            },
    {
        let ghost table = self.spec_versions().table();
        let ghost ordinal = ec_level.spec_ordinal() as int;
        let mut version_num: usize = 1;
        while version_num <= 40
            invariant
                self.wf(),
                table == self.spec_versions().table(),
                ordinal == ec_level.spec_ordinal(),
                1 <= version_num <= 41,
                first_fitting(table, ordinal, num_input_bits as int, 1) == first_fitting(
                    table,
                    ordinal,
                    num_input_bits as int,
                    version_num as int,
                ),
            decreases 41 - version_num,
        {
            let version = match self.versions.get_version_for_number(version_num) {
                Ok(v) => v,
                Err(e) => {
                    return Err(e);
                },
            };
            if Encoder::will_fit(num_input_bits, version, ec_level) {
                return Ok(version);
            }
            version_num += 1;
        }
        Err(Error::WriterException("Data too big".to_owned()))
    }

    /// Whether `num_input_bits` bits fit a symbol of the given version at the given level.
    pub fn will_fit(num_input_bits: usize, version: &Version, ec_level: &ErrorCorrectionLevel) -> (b:
        bool)
        requires
            version.wf(),
        ensures
            b == fits(*version, ec_level.spec_ordinal() as int, num_input_bits as int),
    {
        let num_bytes = version.get_total_codewords();
        let ec_blocks = version.get_ec_blocks_for_level(ec_level);
        let num_ec_bytes = ec_blocks.get_total_ec_codewords();
        let num_data_bytes = num_bytes - num_ec_bytes;
        let total_input_bytes = num_input_bits / 8 + if num_input_bits % 8 == 0 {
            0
        } else {
            1
        };
        num_data_bytes >= total_input_bytes
    }

    /// Ends the bits of a symbol with room for `num_data_bytes` bytes: the terminator of
    /// four zeros, or of as many as there is room for; zeros up to the end of the byte;
    /// and the bytes 0xEC and 0x11 in turn until the room is filled. Bits beyond the room
    /// are refused.
    pub fn terminate_bits(num_data_bytes: usize, bits: &mut BitArray) -> (r: Result<(), Error>)
        requires
            old(bits).wf(),
            old(bits).clean(),
            num_data_bytes <= 0x0FFF_FFFF,
        ensures
            final(bits).wf(),
            final(bits).clean(),
            r is Ok <==> old(bits)@.len() <= 8 * num_data_bytes,
            r is Ok ==> final(bits)@ == terminated(old(bits)@, num_data_bytes as nat),
            r is Ok ==> final(bits)@.len() == 8 * num_data_bytes,
            r matches Err(e) ==> e is WriterException && *final(bits) == *old(bits),
    {
        let capacity: usize = num_data_bytes * 8;
        if bits.get_size() > capacity {
            return Err(Error::WriterException("data bits cannot fit in the QR Code".to_owned()));
        }
        let ghost pre = bits@;
        proof {
            assert(pre + zero_bits(0) =~= pre);
        }
        let mut i: usize = 0;
        while i < 4 && bits.get_size() < capacity
            invariant
                i <= 4,
                bits.wf(),
                bits.clean(),
                capacity == 8 * num_data_bytes,
                capacity <= 0x7FFF_FFF8,
                pre.len() <= capacity,
                bits@.len() <= capacity,
                bits.spec_size() == pre.len() + i,
                bits@ == pre + zero_bits(i as nat),
                i < 4 ==> i <= capacity - pre.len(),
            decreases 4 - i,
        {
            bits.append_bit(false);
            proof {
                assert((pre + zero_bits(i as nat)).push(false) =~= pre + zero_bits((i + 1) as nat));
            }
            i += 1;
        }
        let ghost terminator = i;
        // Where the last byte is not full, it is filled with zeros.
        let num_bits_in_last_byte = bits.get_size() % 8;
        let mut k: usize = 0;
        let fill: usize = if num_bits_in_last_byte > 0 {
            8 - num_bits_in_last_byte
        } else {
            0
        };
        while k < fill
            invariant
                k <= fill,
                fill < 8,
                bits.wf(),
                bits.clean(),
                capacity == 8 * num_data_bytes,
                capacity <= 0x7FFF_FFF8,
                (pre.len() + terminator + fill) % 8 == 0,
                pre.len() + terminator + fill <= capacity,
                bits.spec_size() == pre.len() + terminator + k,
                bits@ == pre + zero_bits((terminator + k) as nat),
            decreases fill - k,
        {
            bits.append_bit(false);
            proof {
                assert((pre + zero_bits((terminator + k) as nat)).push(false) =~= pre + zero_bits(
                    (terminator + k + 1) as nat,
                ));
            }
            k += 1;
        }
        // The room that is left is filled with the pad bytes.
        let num_padding_bytes: usize = num_data_bytes - bits.get_size_in_bytes();
        let ghost zeros = zero_bits((terminator + fill) as nat);
        let ghost aligned = bits@.len();
        let mut j: usize = 0;
        proof {
            assert(bytes_bits(pad_bytes(0)) =~= Seq::<bool>::empty());
            assert(pre + zeros + Seq::<bool>::empty() =~= pre + zeros);
        }
        while j < num_padding_bytes
            invariant
                j <= num_padding_bytes,
                bits.wf(),
                bits.clean(),
                capacity == 8 * num_data_bytes,
                capacity <= 0x7FFF_FFF8,
                aligned % 8 == 0,
                aligned + 8 * num_padding_bytes == capacity,
                aligned == pre.len() + zeros.len(),
                bits.spec_size() == aligned + 8 * j,
                bits@ == pre + zeros + bytes_bits(pad_bytes(j as nat)),
            decreases num_padding_bytes - j,
        {
            let value: u32 = if j % 2 == 0 {
                0xEC
            } else {
                0x11
            };
            let appended = bits.append_bits(value, 8);
            proof {
                let done = pad_bytes(j as nat);
                lemma_bytes_bits_push(done, value as u8);
                assert(done.push(value as u8) =~= pad_bytes((j + 1) as nat));
                assert((pre + zeros + bytes_bits(done)) + low_bits(value, 8) =~= pre + zeros + (
                bytes_bits(done) + low_bits(value, 8)));
            }
            j += 1;
        }
        Ok(())
    }
}

} // verus!
