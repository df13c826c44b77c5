#![allow(non_snake_case)]

use crate::common::bit_source::{bits_at, bytes_bits, BitSource};
use crate::common::charset::{
    decode_shift_jis, gbk_text, shift_jis_text, text_of_chars, Charset,
};
use crate::common::decoder_result::DecoderResult;
use crate::decode_hint_type::DecodeHints;
use crate::error::Error;
use crate::qrcode::decoder::error_correction_level::ErrorCorrectionLevel;
use crate::qrcode::decoder::mode::Mode;
use crate::qrcode::decoder::version::Version;
use crate::qrcode::encoder::encoder::Encoder;
use vstd::arithmetic::power2::{lemma2_to64, lemma_pow2_strictly_increases, pow2};
use vstd::prelude::*;

verus! {

/// Reads the text of a symbol from its data codewords: a run of segments, each announced
/// by its mode, up to a terminator or to the end of the bits.
pub struct DecodedBitStreamParser {}

/// The number of bits of a numeric segment of `count` digits: ten for three digits, and
/// seven or four for the two digits or the one digit that are left over.
pub open spec fn numeric_width(count: int) -> int {
    10 * (count / 3) + if count % 3 == 2 {
        7int
    } else if count % 3 == 1 {
        4int
    } else {
        0int
    }
}

/// The number of digits in group `g` of a numeric segment of `count` digits.
pub open spec fn numeric_digits(count: int, g: int) -> int {
    if 3 * g + 3 <= count {
        3
    } else {
        count - 3 * g
    }
}

/// The number of bits of group `g` of a numeric segment of `count` digits.
pub open spec fn numeric_group_width(count: int, g: int) -> int {
    if numeric_digits(count, g) == 3 {
        10
    } else if numeric_digits(count, g) == 2 {
        7
    } else {
        4
    }
}

/// The number that group `g` of the numeric segment at `at` spells.
pub open spec fn numeric_group(bits: Seq<bool>, at: int, count: int, g: int) -> nat {
    bits_at(bits, at + 10 * g, numeric_group_width(count, g))
}

/// Ten to the power `n`, for `n` up to 3.
pub open spec fn ten_to(n: int) -> int {
    if n <= 0 {
        1
    } else if n == 1 {
        10
    } else if n == 2 {
        100
    } else {
        1000
    }
}

/// Whether the bits at `at` hold a numeric segment of `count` digits: the bits are there,
/// and no group spells a number of more digits than it stands for.
pub open spec fn numeric_ok(bits: Seq<bool>, at: int, count: int) -> bool {
    &&& at + numeric_width(count) <= bits.len()
    &&& forall|g: int|
        0 <= g && 3 * g < count ==> #[trigger] numeric_group(bits, at, count, g) < ten_to(
            numeric_digits(count, g),
        )
}

/// The digit `d` as a character.
pub open spec fn digit_char(d: int) -> char {
    ((48 + d) as u8) as char
}

/// Digit `i` of the numeric segment at `at`.
pub open spec fn numeric_char(bits: Seq<bool>, at: int, count: int, i: int) -> char {
    let g = i / 3;
    digit_char(
        (numeric_group(bits, at, count, g) as int / ten_to(numeric_digits(count, g) - 1 - i % 3))
            % 10,
    )
}

/// The digits of the numeric segment at `at`.
pub open spec fn numeric_text(bits: Seq<bool>, at: int, count: int) -> Seq<char> {
    Seq::new(count as nat, |i: int| numeric_char(bits, at, count, i))
}

/// The number of bits of an alphanumeric segment of `count` characters: eleven for two
/// characters, and six for the one that is left over.
pub open spec fn alphanumeric_width(count: int) -> int {
    11 * (count / 2) + 6 * (count % 2)
}

/// Whether group `g` of an alphanumeric segment of `count` characters holds two
/// characters.
pub open spec fn alphanumeric_pair(count: int, g: int) -> bool {
    2 * g + 2 <= count
}

/// The number that group `g` of the alphanumeric segment at `at` spells.
pub open spec fn alphanumeric_group(bits: Seq<bool>, at: int, count: int, g: int) -> nat {
    bits_at(
        bits,
        at + 11 * g,
        if alphanumeric_pair(count, g) {
            11
        } else {
            6
        },
    )
}

/// Whether the bits at `at` hold an alphanumeric segment of `count` characters: the bits
/// are there, and every group spells characters of the alphanumeric set.
pub open spec fn alphanumeric_ok(bits: Seq<bool>, at: int, count: int) -> bool {
    &&& at + alphanumeric_width(count) <= bits.len()
    &&& forall|g: int|
        0 <= g && 2 * g < count ==> #[trigger] alphanumeric_group(bits, at, count, g)
            < if alphanumeric_pair(count, g) {
            45 * 45int
        } else {
            45int
        }
}

/// The character of the alphanumeric set with the number `code`: the digits, the upper
/// case letters, the space and the signs `$ % * + - . / :`, in this order from 0 to 44.
pub open spec fn alphanumeric_char(code: int) -> char {
    if code < 10 {
        ((48 + code) as u8) as char
    } else if code < 36 {
        ((55 + code) as u8) as char
    } else if code == 36 {
        ' '
    } else if code == 37 {
        '$'
    } else if code == 38 {
        '%'
    } else if code == 39 {
        '*'
    } else if code == 40 {
        '+'
    } else if code == 41 {
        '-'
    } else if code == 42 {
        '.'
    } else if code == 43 {
        '/'
    } else {
        ':'
    }
}

/// Character `i` of the alphanumeric segment at `at`.
pub open spec fn alphanumeric_at(bits: Seq<bool>, at: int, count: int, i: int) -> char {
    let g = i / 2;
    let v = alphanumeric_group(bits, at, count, g);
    alphanumeric_char(
        if !alphanumeric_pair(count, g) {
            v as int
        } else if i % 2 == 0 {
            v as int / 45
        } else {
            v as int % 45
        },
    )
}

/// The characters of the alphanumeric segment at `at`.
pub open spec fn alphanumeric_text(bits: Seq<bool>, at: int, count: int) -> Seq<char> {
    Seq::new(count as nat, |i: int| alphanumeric_at(bits, at, count, i))
}

/// The text with its percent signs read as FNC1 asks: two of them in a row stand for one
/// percent sign, a single one for the separator U+001D.
pub open spec fn fnc1_text(raw: Seq<char>) -> Seq<char>
    decreases raw.len(),
{
    if raw.len() == 0 {
        Seq::empty()
    } else if raw[0] == '%' {
        if raw.len() >= 2 && raw[1] == '%' {
            seq!['%'] + fnc1_text(raw.skip(2))
        } else {
            seq!['\u{1D}'] + fnc1_text(raw.skip(1))
        }
    } else {
        seq![raw[0]] + fnc1_text(raw.skip(1))
    }
}

/// The bytes of a byte segment of `count` bytes at `at`.
pub open spec fn segment_bytes(bits: Seq<bool>, at: int, count: int) -> Seq<u8> {
    Seq::new(count as nat, |i: int| bits_at(bits, at + 8 * i, 8) as u8)
}

/// The two bytes, as one number, of the character that the thirteen bits `v` stand for
/// in a Kanji segment, or in a Hanzi segment. The bits hold the two bytes packed into a
/// smaller range: they are taken apart, and the start of the range is added.
pub open spec fn double_byte_value(v: int, hanzi: bool) -> int {
    if hanzi {
        let assembled = (v / 0x60) * 256 + v % 0x60;
        assembled + if assembled < 0x0A00 {
            0xA1A1int
        } else {
            0xA6A1int
        }
    } else {
        let assembled = (v / 0xC0) * 256 + v % 0xC0;
        assembled + if assembled < 0x1F00 {
            0x8140int
        } else {
            0xC140int
        }
    }
}

/// The bytes of the `count` characters of a Kanji segment, or of a Hanzi segment, at
/// `at`: two for each character, the higher first.
pub open spec fn double_bytes(bits: Seq<bool>, at: int, count: int, hanzi: bool) -> Seq<u8> {
    Seq::new(
        (2 * count) as nat,
        |i: int|
            {
                let moved = double_byte_value(bits_at(bits, at + 13 * (i / 2), 13) as int, hanzi);
                if i % 2 == 0 {
                    (moved / 256) as u8
                } else {
                    (moved % 256) as u8
                }
            },
    )
}

/// The number of an extended channel interpretation at `at` and the number of its bits:
/// a number below 128 in one byte, one below 16384 in two bytes behind the bits 10, one
/// below 2097152 in three bytes behind the bits 110. None where the bits end too early
/// or begin otherwise.
pub open spec fn eci_value(bits: Seq<bool>, at: int) -> Option<(int, int)> {
    if at + 8 > bits.len() {
        None
    } else {
        let first = bits_at(bits, at, 8) as int;
        if first < 128 {
            Some((first, 8int))
        } else if first < 192 {
            if at + 16 > bits.len() {
                None
            } else {
                Some(((first - 128) * 256 + bits_at(bits, at + 8, 8), 16int))
            }
        } else if first < 224 {
            if at + 24 > bits.len() {
                None
            } else {
                Some(((first - 192) * 65536 + bits_at(bits, at + 8, 16), 24int))
            }
        } else {
            None
        }
    }
}

/// The character set that the extended channel interpretation numbered `value` names,
/// among those that are read here.
pub open spec fn eci_charset(value: int) -> Option<Charset> {
    if value == 1 || value == 3 {
        Some(Charset::ISO8859_1)
    } else if value == 26 {
        Some(Charset::UTF8)
    } else if value == 27 || value == 170 {
        Some(Charset::ASCII)
    } else if value == 29 {
        Some(Charset::GBK)
    } else {
        None
    }
}

/// The text of the application indicator that follows FNC1 in second position: the two
/// digits of a number below 100, or the letter whose code is 100 less than the number.
pub open spec fn indicator_text(value: int) -> Option<Seq<char>> {
    if value < 100 {
        Some(seq![digit_char(value / 10), digit_char(value % 10)])
    } else if 165 <= value <= 190 || 197 <= value <= 222 {
        Some(seq![((value - 100) as u8) as char])
    } else {
        None
    }
}

/// What has been read of a symbol.
pub struct Parsed {
    /// The text.
    pub text: Seq<char>,
    /// The bytes of the byte segments.
    pub segments: Seq<Seq<u8>>,
    /// The place of the symbol in a structured append, or -1.
    pub sequence: int,
    /// The parity of a structured append, or -1.
    pub parity: int,
    /// Whether FNC1 has been met in first position.
    pub fnc1_first: bool,
    /// Whether FNC1 has been met in second position.
    pub fnc1_second: bool,
    /// The character set that the last extended channel interpretation named.
    pub charset: Option<Charset>,
}

/// The state before anything is read.
pub open spec fn nothing_parsed() -> Parsed {
    Parsed {
        text: Seq::empty(),
        segments: Seq::empty(),
        sequence: -1,
        parity: -1,
        fnc1_first: false,
        fnc1_second: false,
        charset: None,
    }
}

/// The character set of a byte segment: the one that an extended channel interpretation
/// has named, else the one that the caller gives, else ISO 8859-1.
pub open spec fn byte_charset(p: Parsed, hint: Option<Charset>) -> Charset {
    match p.charset {
        Some(c) => c,
        None => match hint {
            Some(c) => c,
            None => Charset::ISO8859_1,
        },
    }
}

/// The character count of a segment of the given mode at `at`, and the place behind it.
pub open spec fn counted(bits: Seq<bool>, at: int, number: int, mode: Mode) -> Option<(int, int)> {
    let width = mode.spec_character_count_bits(number) as int;
    if at + width <= bits.len() {
        Some((bits_at(bits, at, width) as int, at + width))
    } else {
        None
    }
}

/// `p` with `more` appended to its text.
pub open spec fn with_text(p: Parsed, more: Seq<char>) -> Parsed {
    Parsed { text: p.text + more, ..p }
}

/// What a segment of text of the given mode at `at`, behind its announcement, adds to
/// what has been read, and the place behind the segment; none where the segment cannot
/// be read.
#[verifier::opaque]
pub open spec fn text_segment(
    bits: Seq<bool>,
    at: int,
    number: int,
    hint: Option<Charset>,
    mode: Mode,
    p: Parsed,
) -> Option<(int, Parsed)> {
    match mode {
        Mode::Hanzi => if at + 4 > bits.len() {
            None
        } else {
            match counted(bits, at + 4, number, mode) {
                None => None,
                Some((count, from)) => if bits_at(bits, at, 4) != 1 {
                    Some((from, p))
                } else if from + 13 * count > bits.len() {
                    None
                } else {
                    match gbk_text(double_bytes(bits, from, count, true)) {
                        None => None,
                        Some(t) => Some((from + 13 * count, with_text(p, t))),
                    }
                },
            }
        },
        Mode::Kanji => match counted(bits, at, number, mode) {
            None => None,
            Some((count, from)) => if from + 13 * count > bits.len() {
                None
            } else {
                match shift_jis_text(double_bytes(bits, from, count, false)) {
                    None => None,
                    Some(t) => Some((from + 13 * count, with_text(p, t))),
                }
            },
        },
        Mode::Numeric => match counted(bits, at, number, mode) {
            None => None,
            Some((count, from)) => if numeric_ok(bits, from, count) {
                Some((from + numeric_width(count), with_text(p, numeric_text(bits, from, count))))
            } else {
                None
            },
        },
        Mode::Alphanumeric => match counted(bits, at, number, mode) {
            None => None,
            Some((count, from)) => if alphanumeric_ok(bits, from, count) {
                let raw = alphanumeric_text(bits, from, count);
                Some(
                    (
                        from + alphanumeric_width(count),
                        with_text(
                            p,
                            if p.fnc1_first || p.fnc1_second {
                                fnc1_text(raw)
                            } else {
                                raw
                            },
                        ),
                    ),
                )
            } else {
                None
            },
        },
        Mode::Byte => match counted(bits, at, number, mode) {
            None => None,
            Some((count, from)) => if from + 8 * count > bits.len() {
                None
            } else {
                let bytes = segment_bytes(bits, from, count);
                match byte_charset(p, hint).spec_decode(bytes) {
                    None => None,
                    Some(t) => Some(
                        (
                            from + 8 * count,
                            Parsed { text: p.text + t, segments: p.segments.push(bytes), ..p },
                        ),
                    ),
                }
            },
        },
        _ => None,
    }
}

/// What a segment of the given mode at `at`, behind its announcement, adds to what has
/// been read, and the place behind the segment; none where the segment cannot be read.
#[verifier::opaque]
pub open spec fn segment(
    bits: Seq<bool>,
    at: int,
    number: int,
    hint: Option<Charset>,
    mode: Mode,
    p: Parsed,
) -> Option<(int, Parsed)> {
    match mode {
        Mode::Terminator => Some((at, p)),
        Mode::Fnc1FirstPosition => Some((at, Parsed { fnc1_first: true, ..p })),
        Mode::Fnc1SecondPosition => if at + 8 > bits.len() {
            None
        } else {
            match indicator_text(bits_at(bits, at, 8) as int) {
                None => None,
                Some(t) => Some((at + 8, Parsed { fnc1_second: true, text: p.text + t, ..p })),
            }
        },
        Mode::StructuredAppend => if at + 16 > bits.len() {
            None
        } else {
            Some(
                (
                    at + 16,
                    Parsed {
                        sequence: bits_at(bits, at, 8) as int,
                        parity: bits_at(bits, at + 8, 8) as int,
                        ..p
                    },
                ),
            )
        },
        Mode::ECI => match eci_value(bits, at) {
            None => None,
            Some((value, width)) => match eci_charset(value) {
                None => None,
                Some(c) => Some((at + width, Parsed { charset: Some(c), ..p })),
            },
        },
        _ => text_segment(bits, at, number, hint, mode, p),
    }
}

/// What is read from `at` on: segment after segment up to a terminator, or to the place
/// where fewer than four bits are left. None where a segment cannot be read.
pub open spec fn parse_from(
    bits: Seq<bool>,
    at: int,
    number: int,
    hint: Option<Charset>,
    p: Parsed,
) -> Option<Parsed>
    decreases bits.len() - at,
{
    if at < 0 || at + 4 > bits.len() {
        Some(p)
    } else {
        match Mode::for_bits(bits_at(bits, at, 4) as int) {
            None => None,
            Some(mode) => if mode is Terminator {
                Some(p)
            } else {
                match segment(bits, at + 4, number, hint, mode, p) {
                    None => None,
                    Some((next, q)) => if at + 4 <= next <= bits.len() {
                        parse_from(bits, next, number, hint, q)
                    } else {
                        None
                    },
                }
            },
        }
    }
}

/// What is read from the data codewords of a symbol of the version numbered `number`.
pub open spec fn parsed(bytes: Seq<u8>, number: int, hint: Option<Charset>) -> Option<Parsed> {
    parse_from(bytes_bits(bytes), 0, number, hint, nothing_parsed())
}

/// The modifier of the symbology identifier: 1 for plain data, 3 and 5 for FNC1 in first
/// and in second position, and one more for each where an extended channel
/// interpretation has been met.
pub open spec fn modifier(p: Parsed) -> i32 {
    if p.charset is Some {
        if p.fnc1_first {
            4
        } else if p.fnc1_second {
            6
        } else {
            2
        }
    } else {
        if p.fnc1_first {
            3
        } else if p.fnc1_second {
            5
        } else {
            1
        }
    }
}

/// The bytes of each of the vectors.
pub open spec fn views(s: Seq<Vec<u8>>) -> Seq<Seq<u8>> {
    Seq::new(s.len(), |i: int| s[i]@)
}

/// What has been read of a symbol, while it is read.
pub struct ParseState {
    text: Vec<char>,
    segments: Vec<Vec<u8>>,
    sequence: i32,
    parity: i32,
    fnc1_first: bool,
    fnc1_second: bool,
    charset: Option<Charset>,
}

impl View for ParseState {
    type V = Parsed;

    closed spec fn view(&self) -> Parsed {
        Parsed {
            text: self.text@,
            segments: views(self.segments@),
            sequence: self.sequence as int,
            parity: self.parity as int,
            fnc1_first: self.fnc1_first,
            fnc1_second: self.fnc1_second,
            charset: self.charset,
        }
    }
}

impl DecodedBitStreamParser {
    /// Reads `n` bits. Bits that are not there make the symbol one that cannot be read.
    fn read(bits: &mut BitSource<'_>, n: usize) -> (r: Result<u32, Error>)
        requires
            old(bits).wf(),
            1 <= n <= 32,
        ensures
            final(bits).wf(),
            final(bits).spec_bits() == old(bits).spec_bits(),
            r is Ok <==> old(bits).spec_position() + n <= old(bits).spec_bits().len(),
            r matches Ok(v) ==> v == bits_at(
                old(bits).spec_bits(),
                old(bits).spec_position(),
                n as int,
            ) && final(bits).spec_position() == old(bits).spec_position() + n && v < pow2(
                n as nat,
            ),
            r matches Err(e) ==> e is FormatException,
    {
        match bits.readBits(n) {
            Ok(v) => Ok(v),
            Err(_) => Err(Error::FormatException("The bits end too early".to_owned())),
        }
    }

    /// The digit `d` as a character.
    fn digit(d: u32) -> (c: char)
        requires
            d < 10,
        ensures
            c == digit_char(d as int),
    {
        ((48 + d) as u8) as char
    }

    /// The character of the alphanumeric set with the number `value`. A number that
    /// stands for no character is refused.
    pub fn toAlphaNumericChar(value: u32) -> (r: Result<char, Error>)
        ensures
            r is Ok <==> value < 45,
            r matches Ok(c) ==> c == alphanumeric_char(value as int),
            r matches Err(e) ==> e is FormatException,
    {
        if value < 10 {
            Ok(((48 + value) as u8) as char)
        } else if value < 36 {
            Ok(((55 + value) as u8) as char)
        } else if value == 36 {
            Ok(' ')
        } else if value == 37 {
            Ok('$')
        } else if value == 38 {
            Ok('%')
        } else if value == 39 {
            Ok('*')
        } else if value == 40 {
            Ok('+')
        } else if value == 41 {
            Ok('-')
        } else if value == 42 {
            Ok('.')
        } else if value == 43 {
            Ok('/')
        } else if value == 44 {
            Ok(':')
        } else {
            Err(Error::FormatException("No alphanumeric character".to_owned()))
        }
    }

    /// The digits of a numeric segment of `count` digits. A segment whose bits end too
    /// early is refused, and so is one with a group that spells too great a number.
    pub fn decodeNumericSegment(bits: &mut BitSource<'_>, count: usize) -> (r: Result<
        Vec<char>,
        Error,
    >)
        requires
            old(bits).wf(),
            count <= 0xFFFF,
        ensures
            final(bits).wf(),
            final(bits).spec_bits() == old(bits).spec_bits(),
            r is Ok <==> numeric_ok(
                old(bits).spec_bits(),
                old(bits).spec_position(),
                count as int,
            ),
            r matches Ok(text) ==> final(bits).spec_position() == old(bits).spec_position()
                + numeric_width(count as int) && text@ == numeric_text(
                old(bits).spec_bits(),
                old(bits).spec_position(),
                count as int,
            ),
            r matches Err(e) ==> e is FormatException,
    {
        let ghost all = bits.spec_bits();
        let ghost at = bits.spec_position();
        let ghost wanted = numeric_text(all, at, count as int);
        let mut text: Vec<char> = Vec::new();
        let mut g: usize = 0;
        while 3 * g < count
            invariant
                count <= 0xFFFF,
                3 * g <= count + 2,
                3 * g > count ==> count % 3 != 0 && g == count / 3 + 1,
                bits.wf(),
                bits.spec_bits() == all,
                all == old(bits).spec_bits(),
                at == old(bits).spec_position(),
                bits.spec_position() == at + if 3 * g <= count {
                    10 * g
                } else {
                    numeric_width(count as int)
                },
                wanted == numeric_text(all, at, count as int),
                text@.len() == if 3 * g <= count {
                    3 * g
                } else {
                    count as int
                },
                forall|i: int| 0 <= i < text@.len() ==> #[trigger] text@[i] == wanted[i],
                forall|j: int|
                    0 <= j < g ==> #[trigger] numeric_group(all, at, count as int, j) < ten_to(
                        numeric_digits(count as int, j),
                    ),
            decreases count + 3 - 3 * g,
        {
            let digits: usize = if count - 3 * g >= 3 {
                3
            } else {
                count - 3 * g
            };
            let width: usize = if digits == 3 {
                10
            } else if digits == 2 {
                7
            } else {
                4
            };
            let v = match DecodedBitStreamParser::read(bits, width) {
                Ok(v) => v,
                Err(e) => {
                    return Err(e);
                },
            };
            let limit: u32 = if digits == 3 {
                1000
            } else if digits == 2 {
                100
            } else {
                10
            };
            if v >= limit {
                proof {
                    assert(numeric_group(all, at, count as int, g as int) == v);
                }
                return Err(Error::FormatException("Too great a number".to_owned()));
            }
            proof {
                assert(numeric_group(all, at, count as int, g as int) == v);
                assert(numeric_digits(count as int, g as int) == digits);
            }
            let ghost before = text@;
            if digits >= 3 {
                text.push(DecodedBitStreamParser::digit((v / 100) % 10));
            }
            if digits >= 2 {
                text.push(DecodedBitStreamParser::digit((v / 10) % 10));
            }
            text.push(DecodedBitStreamParser::digit(v % 10));
            proof {
                assert forall|i: int| 0 <= i < text@.len() implies #[trigger] text@[i]
                    == wanted[i] by {
                    if i >= before.len() {
                        assert(i / 3 == g);
                        assert(wanted[i] == numeric_char(all, at, count as int, i));
                    } else {
                        assert(text@[i] == before[i]);
                    }
                }
            }
            g += 1;
        }
        proof {
            bits.lemma_bounds();
            assert(text@ =~= wanted);
        }
        Ok(text)
    }

    /// The characters of an alphanumeric segment of `count` characters. A segment whose
    /// bits end too early is refused, and so is one with a group that spells no
    /// characters of the alphanumeric set.
    pub fn decodeAlphanumericSegment(bits: &mut BitSource<'_>, count: usize) -> (r: Result<
        Vec<char>,
        Error,
    >)
        requires
            old(bits).wf(),
            count <= 0xFFFF,
        ensures
            final(bits).wf(),
            final(bits).spec_bits() == old(bits).spec_bits(),
            r is Ok <==> alphanumeric_ok(
                old(bits).spec_bits(),
                old(bits).spec_position(),
                count as int,
            ),
            r matches Ok(text) ==> final(bits).spec_position() == old(bits).spec_position()
                + alphanumeric_width(count as int) && text@ == alphanumeric_text(
                old(bits).spec_bits(),
                old(bits).spec_position(),
                count as int,
            ),
            r matches Err(e) ==> e is FormatException,
    {
        let ghost all = bits.spec_bits();
        let ghost at = bits.spec_position();
        let ghost wanted = alphanumeric_text(all, at, count as int);
        let mut text: Vec<char> = Vec::new();
        let mut g: usize = 0;
        while 2 * g < count
            invariant
                count <= 0xFFFF,
                2 * g <= count + 1,
                bits.wf(),
                bits.spec_bits() == all,
                all == old(bits).spec_bits(),
                at == old(bits).spec_position(),
                bits.spec_position() == at + if 2 * g <= count {
                    11 * g
                } else {
                    alphanumeric_width(count as int)
                },
                wanted == alphanumeric_text(all, at, count as int),
                text@.len() == if 2 * g <= count {
                    2 * g
                } else {
                    count as int
                },
                forall|i: int| 0 <= i < text@.len() ==> #[trigger] text@[i] == wanted[i],
                forall|j: int|
                    0 <= j < g ==> #[trigger] alphanumeric_group(all, at, count as int, j)
                        < if alphanumeric_pair(count as int, j) {
                        45 * 45int
                    } else {
                        45int
                    },
            decreases count + 2 - 2 * g,
        {
            let pair = count - 2 * g >= 2;
            let width: usize = if pair {
                11
            } else {
                6
            };
            let v = match DecodedBitStreamParser::read(bits, width) {
                Ok(v) => v,
                Err(e) => {
                    return Err(e);
                },
            };
            proof {
                assert(alphanumeric_group(all, at, count as int, g as int) == v);
            }
            let ghost before = text@;
            if pair {
                let first = match DecodedBitStreamParser::toAlphaNumericChar(v / 45) {
                    Ok(c) => c,
                    Err(e) => {
                        return Err(e);
                    },
                };
                let second = match DecodedBitStreamParser::toAlphaNumericChar(v % 45) {
                    Ok(c) => c,
                    Err(e) => {
                        return Err(e);
                    },
                };
                text.push(first);
                text.push(second);
            } else {
                let only = match DecodedBitStreamParser::toAlphaNumericChar(v) {
                    Ok(c) => c,
                    Err(e) => {
                        return Err(e);
                    },
                };
                text.push(only);
            }
            proof {
                assert forall|i: int| 0 <= i < text@.len() implies #[trigger] text@[i]
                    == wanted[i] by {
                    if i >= before.len() {
                        assert(i / 2 == g);
                        assert(wanted[i] == alphanumeric_at(all, at, count as int, i));
                    } else {
                        assert(text@[i] == before[i]);
                    }
                }
            }
            g += 1;
        }
        proof {
            bits.lemma_bounds();
            assert(text@ =~= wanted);
        }
        Ok(text)
    }

    /// The `count` bytes of a byte segment. A segment whose bits end too early is
    /// refused.
    pub fn read_bytes(bits: &mut BitSource<'_>, count: usize) -> (r: Result<Vec<u8>, Error>)
        requires
            old(bits).wf(),
            count <= 0xFFFF,
        ensures
            final(bits).wf(),
            final(bits).spec_bits() == old(bits).spec_bits(),
            r is Ok <==> old(bits).spec_position() + 8 * count <= old(bits).spec_bits().len(),
            r matches Ok(b) ==> final(bits).spec_position() == old(bits).spec_position() + 8
                * count && b@ == segment_bytes(
                old(bits).spec_bits(),
                old(bits).spec_position(),
                count as int,
            ),
            r matches Err(e) ==> e is FormatException,
    {
        if 8 * count > bits.available() {
            return Err(Error::FormatException("The bits end too early".to_owned()));
        }
        let ghost all = bits.spec_bits();
        let ghost at = bits.spec_position();
        let mut bytes: Vec<u8> = Vec::new();
        let mut i: usize = 0;
        while i < count
            invariant
                i <= count <= 0xFFFF,
                bits.wf(),
                bits.spec_bits() == all,
                all == old(bits).spec_bits(),
                at == old(bits).spec_position(),
                at + 8 * count <= all.len(),
                bits.spec_position() == at + 8 * i,
                bytes@ == segment_bytes(all, at, i as int),
            decreases count - i,
        {
            let v = match DecodedBitStreamParser::read(bits, 8) {
                Ok(v) => v,
                Err(e) => {
                    return Err(e);
                },
            };
            bytes.push(v as u8);
            proof {
                assert(bytes@ =~= segment_bytes(all, at, i + 1));
            }
            i += 1;
        }
        Ok(bytes)
    }

    /// The bytes of the `count` characters of a Kanji segment, or of a Hanzi segment:
    /// each character stands in thirteen bits. A segment whose bits end too early is
    /// refused.
    pub fn read_double_bytes(bits: &mut BitSource<'_>, count: usize, hanzi: bool) -> (r: Result<
        Vec<u8>,
        Error,
    >)
        requires
            old(bits).wf(),
            count <= 0xFFFF,
        ensures
            final(bits).wf(),
            final(bits).spec_bits() == old(bits).spec_bits(),
            r is Ok <==> old(bits).spec_position() + 13 * count <= old(bits).spec_bits().len(),
            r matches Ok(b) ==> final(bits).spec_position() == old(bits).spec_position() + 13
                * count && b@ == double_bytes(
                old(bits).spec_bits(),
                old(bits).spec_position(),
                count as int,
                hanzi,
            ),
            r matches Err(e) ==> e is FormatException,
    {
        if 13 * count > bits.available() {
            return Err(Error::FormatException("The bits end too early".to_owned()));
        }
        let ghost all = bits.spec_bits();
        let ghost at = bits.spec_position();
        let mut bytes: Vec<u8> = Vec::new();
        let mut i: usize = 0;
        while i < count
            invariant
                i <= count <= 0xFFFF,
                bits.wf(),
                bits.spec_bits() == all,
                all == old(bits).spec_bits(),
                at == old(bits).spec_position(),
                at + 13 * count <= all.len(),
                bits.spec_position() == at + 13 * i,
                bytes@ == double_bytes(all, at, i as int, hanzi),
            decreases count - i,
        {
            let v = match DecodedBitStreamParser::read(bits, 13) {
                Ok(v) => v,
                Err(e) => {
                    return Err(e);
                },
            };
            proof {
                lemma2_to64();
            }
            let moved: u32 = if hanzi {
                let assembled = (v / 0x60) * 256 + v % 0x60;
                assembled + if assembled < 0x0A00 {
                    0xA1A1
                } else {
                    0xA6A1
                }
            } else {
                let assembled = (v / 0xC0) * 256 + v % 0xC0;
                assembled + if assembled < 0x1F00 {
                    0x8140
                } else {
                    0xC140
                }
            };
            bytes.push((moved / 256) as u8);
            bytes.push((moved % 256) as u8);
            proof {
                let wanted = double_bytes(all, at, i + 1, hanzi);
                assert(moved == double_byte_value(bits_at(all, at + 13 * i, 13) as int, hanzi));
                assert forall|k: int| 0 <= k < bytes@.len() implies bytes@[k] == wanted[k] by {
                    if k < 2 * i {
                        assert(bytes@[k] == double_bytes(all, at, i as int, hanzi)[k]);
                    } else {
                        assert(k / 2 == i);
                    }
                }
                assert(bytes@ =~= wanted);
            }
            i += 1;
        }
        Ok(bytes)
    }

    /// The text of a byte segment of `count` bytes in the given character set; the bytes
    /// are added to `byteSegments`. A segment whose bits end too early is refused, and so
    /// is one whose bytes spell no text in the character set.
    pub fn decodeByteSegment(
        bits: &mut BitSource<'_>,
        count: usize,
        charset: &Charset,
        byteSegments: &mut Vec<Vec<u8>>,
    ) -> (r: Result<Vec<char>, Error>)
        requires
            old(bits).wf(),
            count <= 0xFFFF,
        ensures
            final(bits).wf(),
            final(bits).spec_bits() == old(bits).spec_bits(),
            r is Ok <==> (old(bits).spec_position() + 8 * count <= old(bits).spec_bits().len()
                && charset.spec_decode(
                segment_bytes(old(bits).spec_bits(), old(bits).spec_position(), count as int),
            ) is Some),
            r matches Ok(text) ==> final(bits).spec_position() == old(bits).spec_position() + 8
                * count && Some(text@) == charset.spec_decode(
                segment_bytes(old(bits).spec_bits(), old(bits).spec_position(), count as int),
            ) && views(final(byteSegments)@) == views(old(byteSegments)@).push(
                segment_bytes(old(bits).spec_bits(), old(bits).spec_position(), count as int),
            ),
            r matches Err(e) ==> e is FormatException,
    {
        let bytes = match DecodedBitStreamParser::read_bytes(bits, count) {
            Ok(bytes) => bytes,
            Err(e) => {
                return Err(e);
            },
        };
        let text = match charset.decode(&bytes) {
            Ok(text) => text,
            Err(e) => {
                return Err(e);
            },
        };
        let chars = Encoder::chars_of(text.as_str());
        proof {
            assert(views(byteSegments@.push(bytes)) =~= views(byteSegments@).push(bytes@));
        }
        byteSegments.push(bytes);
        Ok(chars)
    }

    /// The text of a Kanji segment of `count` characters. A segment whose bits end too
    /// early is refused, and so is one whose bytes spell no text in Shift_JIS.
    pub fn decodeKanjiSegment(bits: &mut BitSource<'_>, count: usize) -> (r: Result<
        Vec<char>,
        Error,
    >)
        requires
            old(bits).wf(),
            count <= 0xFFFF,
        ensures
            final(bits).wf(),
            final(bits).spec_bits() == old(bits).spec_bits(),
            r is Ok <==> (old(bits).spec_position() + 13 * count <= old(bits).spec_bits().len()
                && shift_jis_text(
                double_bytes(
                    old(bits).spec_bits(),
                    old(bits).spec_position(),
                    count as int,
                    false,
                ),
            ) is Some),
            r matches Ok(text) ==> final(bits).spec_position() == old(bits).spec_position() + 13
                * count && Some(text@) == shift_jis_text(
                double_bytes(
                    old(bits).spec_bits(),
                    old(bits).spec_position(),
                    count as int,
                    false,
                ),
            ),
            r matches Err(e) ==> e is FormatException,
    {
        let bytes = match DecodedBitStreamParser::read_double_bytes(bits, count, false) {
            Ok(bytes) => bytes,
            Err(e) => {
                return Err(e);
            },
        };
        match decode_shift_jis(&bytes) {
            Some(text) => Ok(Encoder::chars_of(text.as_str())),
            None => Err(Error::FormatException("The bytes spell no Kanji".to_owned())),
        }
    }

    /// The text of a Hanzi segment of `count` characters. A segment whose bits end too
    /// early is refused, and so is one whose bytes spell no text in GBK.
    pub fn decodeHanziSegment(bits: &mut BitSource<'_>, count: usize) -> (r: Result<
        Vec<char>,
        Error,
    >)
        requires
            old(bits).wf(),
            count <= 0xFFFF,
        ensures
            final(bits).wf(),
            final(bits).spec_bits() == old(bits).spec_bits(),
            r is Ok <==> (old(bits).spec_position() + 13 * count <= old(bits).spec_bits().len()
                && gbk_text(
                double_bytes(old(bits).spec_bits(), old(bits).spec_position(), count as int, true),
            ) is Some),
            r matches Ok(text) ==> final(bits).spec_position() == old(bits).spec_position() + 13
                * count && Some(text@) == gbk_text(
                double_bytes(old(bits).spec_bits(), old(bits).spec_position(), count as int, true),
            ),
            r matches Err(e) ==> e is FormatException,
    {
        let bytes = match DecodedBitStreamParser::read_double_bytes(bits, count, true) {
            Ok(bytes) => bytes,
            Err(e) => {
                return Err(e);
            },
        };
        match Charset::GBK.decode(&bytes) {
            Ok(text) => Ok(Encoder::chars_of(text.as_str())),
            Err(e) => Err(e),
        }
    }

    /// The number of an extended channel interpretation. A number whose bits end too
    /// early or begin with 111 is refused.
    pub fn parseECIValue(bits: &mut BitSource<'_>) -> (r: Result<u32, Error>)
        requires
            old(bits).wf(),
        ensures
            final(bits).wf(),
            final(bits).spec_bits() == old(bits).spec_bits(),
            match eci_value(old(bits).spec_bits(), old(bits).spec_position()) {
                Some((value, width)) => r matches Ok(v) && v == value
                    && final(bits).spec_position() == old(bits).spec_position() + width,
                None => r matches Err(e) && e is FormatException,
            },
    {
        let ghost all = bits.spec_bits();
        let ghost at = bits.spec_position();
        let first = match DecodedBitStreamParser::read(bits, 8) {
            Ok(v) => v,
            Err(e) => {
                return Err(e);
            },
        };
        proof {
            lemma2_to64();
        }
        if first < 128 {
            // One byte.
            Ok(first)
        } else if first < 192 {
            // Two bytes.
            let second = match DecodedBitStreamParser::read(bits, 8) {
                Ok(v) => v,
                Err(e) => {
                    return Err(e);
                },
            };
            Ok((first - 128) * 256 + second)
        } else if first < 224 {
            // Three bytes.
            if bits.available() < 16 {
                return Err(Error::FormatException("The bits end too early".to_owned()));
            }
            let rest = match DecodedBitStreamParser::read(bits, 16) {
                Ok(v) => v,
                Err(e) => {
                    return Err(e);
                },
            };
            Ok((first - 192) * 65536 + rest)
        } else {
            Err(Error::FormatException("No extended channel interpretation".to_owned()))
        }
    }

    /// The character set that the extended channel interpretation numbered `value`
    /// names, among those that are read here.
    pub fn charset_for_eci(value: u32) -> (r: Option<Charset>)
        ensures
            r == eci_charset(value as int),
    {
        if value == 1 || value == 3 {
            Some(Charset::ISO8859_1)
        } else if value == 26 {
            Some(Charset::UTF8)
        } else if value == 27 || value == 170 {
            Some(Charset::ASCII)
        } else if value == 29 {
            Some(Charset::GBK)
        } else {
            None
        }
    }

    /// Appends `more` to `text`.
    fn append(text: &mut Vec<char>, more: &Vec<char>)
        ensures
            final(text)@ == old(text)@ + more@,
    {
        let mut i: usize = 0;
        proof {
            assert(text@ =~= old(text)@ + more@.subrange(0, 0));
        }
        while i < more.len()
            invariant
                i <= more@.len(),
                text@ == old(text)@ + more@.subrange(0, i as int),
            decreases more@.len() - i,
        {
            text.push(more[i]);
            proof {
                assert(text@ =~= old(text)@ + more@.subrange(0, i + 1));
            }
            i += 1;
        }
        proof {
            assert(more@.subrange(0, more@.len() as int) =~= more@);
        }
    }

    /// The text with its percent signs read as FNC1 asks.
    pub fn expand_fnc1(raw: &Vec<char>) -> (text: Vec<char>)
        ensures
            text@ == fnc1_text(raw@),
    {
        let mut text: Vec<char> = Vec::new();
        let mut i: usize = 0;
        proof {
            assert(raw@.skip(0) =~= raw@);
        }
        while i < raw.len()
            invariant
                i <= raw@.len(),
                fnc1_text(raw@) == text@ + fnc1_text(raw@.skip(i as int)),
            decreases raw@.len() - i,
        {
            let ghost rest = raw@.skip(i as int);
            let ghost before = text@;
            proof {
                assert(rest.len() == raw@.len() - i);
                assert(rest[0] == raw@[i as int]);
            }
            if raw[i] == '%' {
                if i + 1 < raw.len() && raw[i + 1] == '%' {
                    text.push('%');
                    proof {
                        assert(rest[1] == raw@[i + 1]);
                        assert(rest.skip(2) =~= raw@.skip(i + 2));
                        assert(text@ + fnc1_text(raw@.skip(i + 2)) =~= before + (seq!['%']
                            + fnc1_text(rest.skip(2))));
                    }
                    i += 2;
                } else {
                    text.push('\u{1D}');
                    proof {
                        if rest.len() >= 2 {
                            assert(rest[1] == raw@[i + 1]);
                        }
                        assert(rest.skip(1) =~= raw@.skip(i + 1));
                        assert(text@ + fnc1_text(raw@.skip(i + 1)) =~= before + (seq!['\u{1D}']
                            + fnc1_text(rest.skip(1))));
                    }
                    i += 1;
                }
            } else {
                text.push(raw[i]);
                proof {
                    assert(rest.skip(1) =~= raw@.skip(i + 1));
                    assert(text@ + fnc1_text(raw@.skip(i + 1)) =~= before + (seq![rest[0]]
                        + fnc1_text(rest.skip(1))));
                }
                i += 1;
            }
        }
        proof {
            assert(raw@.skip(raw@.len() as int).len() == 0);
            assert(text@ + Seq::<char>::empty() =~= text@);
        }
        text
    }
    /// The character count of a segment of the given mode, which is one that has a
    /// count. A count whose bits end too early is refused.
    fn read_count(bits: &mut BitSource<'_>, version: &Version, mode: Mode) -> (r: Result<
        usize,
        Error,
    >)
        requires
            old(bits).wf(),
            mode is Numeric || mode is Alphanumeric || mode is Byte || mode is Kanji
                || mode is Hanzi,
        ensures
            final(bits).wf(),
            final(bits).spec_bits() == old(bits).spec_bits(),
            match counted(
                old(bits).spec_bits(),
                old(bits).spec_position(),
                version.spec_number(),
                mode,
            ) {
                Some((count, from)) => r matches Ok(c) && c == count && c <= 0xFFFF
                    && final(bits).spec_position() == from,
                None => r matches Err(e) && e is FormatException,
            },
    {
        let width = mode.get_character_count_bits(version);
        proof {
            lemma2_to64();
            if width < 16 {
                lemma_pow2_strictly_increases(width as nat, 16);
            }
        }
        match DecodedBitStreamParser::read(bits, width) {
            Ok(v) => Ok(v as usize),
            Err(e) => Err(e),
        }
    }

    /// Reads one segment of text of the given mode, behind its announcement, into
    /// `state`. A segment that cannot be read is refused.
    fn read_text_segment(
        bits: &mut BitSource<'_>,
        version: &Version,
        hint: Option<Charset>,
        mode: Mode,
        state: &mut ParseState,
    ) -> (r: Result<(), Error>)
        requires
            old(bits).wf(),
            mode is Numeric || mode is Alphanumeric || mode is Byte || mode is Kanji
                || mode is Hanzi,
        ensures
            final(bits).wf(),
            final(bits).spec_bits() == old(bits).spec_bits(),
            r is Ok ==> final(bits).spec_position() >= old(bits).spec_position(),
            match text_segment(
                old(bits).spec_bits(),
                old(bits).spec_position(),
                version.spec_number(),
                hint,
                mode,
                old(state)@,
            ) {
                Some((next, q)) => r is Ok && final(bits).spec_position() == next && final(state)@
                    == q,
                None => r matches Err(e) && e is FormatException,
            },
    {
        reveal(text_segment);
        let ghost at = bits.spec_position();
        if let Mode::Hanzi = mode {
            // The subset comes first; only the subset 1, GB 2312, is read.
            let subset = match DecodedBitStreamParser::read(bits, 4) {
                Ok(v) => v,
                Err(e) => {
                    return Err(e);
                },
            };
            let count = match DecodedBitStreamParser::read_count(bits, version, mode) {
                Ok(c) => c,
                Err(e) => {
                    return Err(e);
                },
            };
            if subset == 1 {
                let chars = match DecodedBitStreamParser::decodeHanziSegment(bits, count) {
                    Ok(chars) => chars,
                    Err(e) => {
                        return Err(e);
                    },
                };
                DecodedBitStreamParser::append(&mut state.text, &chars);
            }
            return Ok(());
        }
        let count = match DecodedBitStreamParser::read_count(bits, version, mode) {
            Ok(c) => c,
            Err(e) => {
                return Err(e);
            },
        };
        match mode {
            Mode::Kanji => {
                let chars = match DecodedBitStreamParser::decodeKanjiSegment(bits, count) {
                    Ok(chars) => chars,
                    Err(e) => {
                        return Err(e);
                    },
                };
                DecodedBitStreamParser::append(&mut state.text, &chars);
                Ok(())
            },
            Mode::Numeric => {
                let chars = match DecodedBitStreamParser::decodeNumericSegment(bits, count) {
                    Ok(chars) => chars,
                    Err(e) => {
                        return Err(e);
                    },
                };
                DecodedBitStreamParser::append(&mut state.text, &chars);
                Ok(())
            },
            Mode::Alphanumeric => {
                let raw = match DecodedBitStreamParser::decodeAlphanumericSegment(bits, count) {
                    Ok(chars) => chars,
                    Err(e) => {
                        return Err(e);
                    },
                };
                if state.fnc1_first || state.fnc1_second {
                    let chars = DecodedBitStreamParser::expand_fnc1(&raw);
                    DecodedBitStreamParser::append(&mut state.text, &chars);
                } else {
                    DecodedBitStreamParser::append(&mut state.text, &raw);
                }
                Ok(())
            },
            _ => {
                let charset = match state.charset {
                    Some(c) => c,
                    None => match hint {
                        Some(c) => c,
                        None => Charset::ISO8859_1,
                    },
                };
                let chars = match DecodedBitStreamParser::decodeByteSegment(
                    bits,
                    count,
                    &charset,
                    &mut state.segments,
                ) {
                    Ok(chars) => chars,
                    Err(e) => {
                        return Err(e);
                    },
                };
                DecodedBitStreamParser::append(&mut state.text, &chars);
                Ok(())
            },
        }
    }

    /// Reads one segment of the given mode, behind its announcement, into `state`. A
    /// segment that cannot be read is refused.
    fn read_segment(
        bits: &mut BitSource<'_>,
        version: &Version,
        hint: Option<Charset>,
        mode: Mode,
        state: &mut ParseState,
    ) -> (r: Result<(), Error>)
        requires
            old(bits).wf(),
        ensures
            final(bits).wf(),
            final(bits).spec_bits() == old(bits).spec_bits(),
            r is Ok ==> final(bits).spec_position() >= old(bits).spec_position(),
            match segment(
                old(bits).spec_bits(),
                old(bits).spec_position(),
                version.spec_number(),
                hint,
                mode,
                old(state)@,
            ) {
                Some((next, q)) => r is Ok && final(bits).spec_position() == next && final(state)@
                    == q,
                None => r matches Err(e) && e is FormatException,
            },
    {
        reveal(segment);
        match mode {
            Mode::Terminator => Ok(()),
            Mode::Fnc1FirstPosition => {
                state.fnc1_first = true;
                Ok(())
            },
            Mode::Fnc1SecondPosition => {
                // The application indicator follows.
                let value = match DecodedBitStreamParser::read(bits, 8) {
                    Ok(v) => v,
                    Err(e) => {
                        return Err(e);
                    },
                };
                proof {
                    lemma2_to64();
                }
                let ghost before = state.text@;
                if value < 100 {
                    state.text.push(DecodedBitStreamParser::digit(value / 10));
                    state.text.push(DecodedBitStreamParser::digit(value % 10));
                    proof {
                        assert(state.text@ =~= before + indicator_text(value as int)->Some_0);
                    }
                } else if (165 <= value && value <= 190) || (197 <= value && value <= 222) {
                    state.text.push(((value - 100) as u8) as char);
                    proof {
                        assert(state.text@ =~= before + indicator_text(value as int)->Some_0);
                    }
                } else {
                    return Err(Error::FormatException("No application indicator".to_owned()));
                }
                state.fnc1_second = true;
                Ok(())
            },
            Mode::StructuredAppend => {
                if bits.available() < 16 {
                    return Err(Error::FormatException("The bits end too early".to_owned()));
                }
                // The place of the symbol in the sequence, and the parity of the whole.
                let sequence = match DecodedBitStreamParser::read(bits, 8) {
                    Ok(v) => v,
                    Err(e) => {
                        return Err(e);
                    },
                };
                let parity = match DecodedBitStreamParser::read(bits, 8) {
                    Ok(v) => v,
                    Err(e) => {
                        return Err(e);
                    },
                };
                proof {
                    lemma2_to64();
                }
                state.sequence = sequence as i32;
                state.parity = parity as i32;
                Ok(())
            },
            Mode::ECI => {
                let value = match DecodedBitStreamParser::parseECIValue(bits) {
                    Ok(v) => v,
                    Err(e) => {
                        return Err(e);
                    },
                };
                match DecodedBitStreamParser::charset_for_eci(value) {
                    Some(c) => {
                        state.charset = Some(c);
                        Ok(())
                    },
                    None => Err(Error::FormatException("No such character set".to_owned())),
                }
            },
            _ => DecodedBitStreamParser::read_text_segment(bits, version, hint, mode, state),
        }
    }

    /// Whether `d` is the result for the data codewords `bytes` of a symbol of the level
    /// `level` from which `p` has been read.
    pub open spec fn describes(
        d: DecoderResult,
        bytes: Seq<u8>,
        level: ErrorCorrectionLevel,
        p: Parsed,
    ) -> bool {
        &&& d.spec_raw_bytes() == bytes
        &&& d.spec_num_bits() == 8 * bytes.len()
        &&& d.spec_text() == p.text
        &&& views(d.spec_byte_segments()) == p.segments
        &&& d.spec_ec_level() == seq![level.spec_letter()]
        &&& d.spec_sequence() == p.sequence
        &&& d.spec_parity() == p.parity
        &&& d.spec_modifier() == modifier(p)
    }

    /// The text and what else the data codewords `bytes` of a symbol of the given version
    /// and level hold: segment after segment is read, up to a terminator or to the place
    /// where fewer than four bits are left. Bytes are read in the character set that an
    /// extended channel interpretation names, else in that of the hints, else in ISO
    /// 8859-1. Codewords with a segment that cannot be read are refused.
    pub fn decode(
        bytes: Vec<u8>,
        version: &Version,
        ecLevel: &ErrorCorrectionLevel,
        hints: &DecodeHints,
    ) -> (r: Result<DecoderResult, Error>)
        requires
            bytes@.len() <= BitSource::MAX_BYTES,
        ensures
            match parsed(bytes@, version.spec_number(), hints.character_set) {
                Some(p) => r matches Ok(d) && DecodedBitStreamParser::describes(
                    d,
                    bytes@,
                    *ecLevel,
                    p,
                ),
                None => r matches Err(e) && e is FormatException,
            },
    {
        let mut state = ParseState {
            text: Vec::new(),
            segments: Vec::new(),
            sequence: -1,
            parity: -1,
            fnc1_first: false,
            fnc1_second: false,
            charset: None,
        };
        proof {
            assert(views(state.segments@) =~= Seq::<Seq<u8>>::empty());
        }
        let ghost all = bytes_bits(bytes@);
        let ghost number = version.spec_number();
        let ghost wanted = parsed(bytes@, number, hints.character_set);
        let mut bits = BitSource::new(&bytes);
        let mut done = false;
        while !done
            invariant
                bits.wf(),
                bits.spec_bits() == all,
                number == version.spec_number(),
                wanted == parsed(bytes@, number, hints.character_set),
                done ==> wanted == Some(state@),
                !done ==> wanted == parse_from(
                    all,
                    bits.spec_position(),
                    number,
                    hints.character_set,
                    state@,
                ),
            decreases
                    all.len() - bits.spec_position() + if done {
                        0int
                    } else {
                        1int
                    },
        {
            proof {
                bits.lemma_bounds();
            }
            if bits.available() < 4 {
                // What is left is no announcement of a mode: the end.
                done = true;
            } else {
                let mode_bits = match DecodedBitStreamParser::read(&mut bits, 4) {
                    Ok(v) => v,
                    Err(e) => {
                        return Err(e);
                    },
                };
                let mode = match Mode::forBits(mode_bits) {
                    Ok(mode) => mode,
                    Err(_) => {
                        return Err(Error::FormatException("No such mode".to_owned()));
                    },
                };
                match mode {
                    Mode::Terminator => {
                        done = true;
                    },
                    _ => {
                        match DecodedBitStreamParser::read_segment(
                            &mut bits,
                            version,
                            hints.character_set,
                            mode,
                            &mut state,
                        ) {
                            Ok(()) => {},
                            Err(e) => {
                                return Err(e);
                            },
                        }
                        proof {
                            bits.lemma_bounds();
                        }
                    },
                }
            }
        }
        let symbologyModifier: i32 = if state.charset.is_some() {
            if state.fnc1_first {
                4
            } else if state.fnc1_second {
                6
            } else {
                2
            }
        } else {
            if state.fnc1_first {
                3
            } else if state.fnc1_second {
                5
            } else {
                1
            }
        };
        let text = text_of_chars(&state.text);
        Ok(
            DecoderResult::new3(
                bytes,
                text,
                state.segments,
                ecLevel.name(),
                state.sequence,
                state.parity,
                symbologyModifier,
            ),
        )
    }
}

} // verus!
