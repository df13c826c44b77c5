#![allow(non_camel_case_types)]

use crate::error::Error;
use vstd::prelude::*;
use vstd::string::StringSliceAdditionalSpecFns;
use vstd::utf8::{decode_utf8, valid_utf8};

verus! {

/// The character sets in which text can be turned into bytes.
#[derive(Debug, PartialEq, Eq, Hash, Copy, Clone, Structural)]
pub enum Charset {
    ASCII,
    ISO8859_1,
    UTF8,
    GBK,
}

/// The bytes of `value` in GBK, or `None` where a character has no place in it.
pub uninterp spec fn gbk_bytes(value: Seq<char>) -> Option<Seq<u8>>;

/// The bytes of `value` in Shift_JIS, or `None` where a character has no place in it.
pub uninterp spec fn shift_jis_bytes(value: Seq<char>) -> Option<Seq<u8>>;

/// Whether every character of `value` is at or below `last`.
pub open spec fn chars_up_to(value: Seq<char>, last: u32) -> bool {
    forall|i: int| 0 <= i < value.len() ==> (#[trigger] value[i]) as u32 <= last
}

/// One byte for each character of `value`, the character's number.
pub open spec fn single_bytes(value: Seq<char>) -> Seq<u8> {
    Seq::new(value.len(), |i: int| value[i] as u8)
}

/// The bytes of `value` in Shift_JIS, or `None` where a character has no place in it: a
/// text with nothing above U+007F has one byte for each character, the character's
/// number; the bytes of any other text are what the tables give.
pub open spec fn shift_jis_of(value: Seq<char>) -> Option<Seq<u8>> {
    if chars_up_to(value, 0x7F) {
        Some(single_bytes(value))
    } else {
        shift_jis_bytes(value)
    }
}

/// `encoding::all::ASCII.encode` with the strict trap: the encoder copies the bytes of a
/// text that holds nothing above U+007F and fails at the first character above it.
#[verifier::external_body]
fn encode_ascii(value: &str) -> (r: Option<Vec<u8>>)
    ensures
        r is Some <==> chars_up_to(value@, 0x7F),
        r matches Some(b) ==> b@ == single_bytes(value@),
{
    match encoding::Encoding::encode(encoding::all::ASCII, value, encoding::EncoderTrap::Strict) {
        Ok(bytes) => Some(bytes),
        Err(_) => None,
    }
}

/// `encoding::all::ISO_8859_1.encode` with the strict trap: the encoder writes a character
/// up to U+00FF as the byte of its number and fails at the first character above.
#[verifier::external_body]
fn encode_iso_8859_1(value: &str) -> (r: Option<Vec<u8>>)
    ensures
        r is Some <==> chars_up_to(value@, 0xFF),
        r matches Some(b) ==> b@ == single_bytes(value@),
{
    match encoding::Encoding::encode(
        encoding::all::ISO_8859_1,
        value,
        encoding::EncoderTrap::Strict,
    ) {
        Ok(bytes) => Some(bytes),
        Err(_) => None,
    }
}

/// `encoding::all::UTF_8.encode` with the strict trap: the encoder copies the bytes of
/// the text, which are its UTF-8 form, and does not fail.
#[verifier::external_body]
fn encode_utf_8(value: &str) -> (r: Option<Vec<u8>>)
    ensures
        r is Some,
        r matches Some(b) ==> b@ == value.spec_bytes(),
{
    match encoding::Encoding::encode(encoding::all::UTF_8, value, encoding::EncoderTrap::Strict) {
        Ok(bytes) => Some(bytes),
        Err(_) => None,
    }
}

/// `encoding::all::GBK.encode` with the strict trap: the bytes that the encoder's tables
/// give for the text, or nothing where it fails at a character. The result is named, not
/// described.
#[verifier::external_body]
fn encode_gbk(value: &str) -> (r: Option<Vec<u8>>)
    ensures
        match r {
            Some(b) => gbk_bytes(value@) == Some(b@),
            None => gbk_bytes(value@) is None,
        },
{
    match encoding::Encoding::encode(encoding::all::GBK, value, encoding::EncoderTrap::Strict) {
        Ok(bytes) => Some(bytes),
        Err(_) => None,
    }
}

/// The text that the bytes spell in GBK, or `None` where they spell none.
pub uninterp spec fn gbk_text(bytes: Seq<u8>) -> Option<Seq<char>>;

/// The text that the bytes spell in Shift_JIS, or `None` where they spell none.
pub uninterp spec fn shift_jis_text(bytes: Seq<u8>) -> Option<Seq<char>>;

/// Whether every byte is at or below `last`.
pub open spec fn bytes_up_to(bytes: Seq<u8>, last: u8) -> bool {
    forall|i: int| 0 <= i < bytes.len() ==> #[trigger] bytes[i] <= last
}

/// One character for each byte, the character of its number.
pub open spec fn single_chars(bytes: Seq<u8>) -> Seq<char> {
    Seq::new(bytes.len(), |i: int| bytes[i] as char)
}

/// `String::push`: the character is appended to the text.
#[verifier::external_body]
pub(crate) fn push_char(text: &mut String, c: char)
    ensures
        final(text)@ == old(text)@.push(c),
{
    text.push(c);
}

/// `encoding::all::UTF_8.decode` with the strict trap: the decoder accepts the bytes that
/// are well formed UTF-8, hands them back as text, and fails at the first sequence that
/// is not well formed.
#[verifier::external_body]
fn decode_utf_8(bytes: &Vec<u8>) -> (r: Option<String>)
    ensures
        r is Some <==> valid_utf8(bytes@),
        r matches Some(s) ==> s@ == decode_utf8(bytes@),
{
    match encoding::Encoding::decode(encoding::all::UTF_8, bytes, encoding::DecoderTrap::Strict) {
        Ok(text) => Some(text),
        Err(_) => None,
    }
}

/// `encoding::all::GBK.decode` with the strict trap: the text that the decoder's tables
/// give for the bytes, or nothing where it fails at a byte. The result is named, not
/// described.
#[verifier::external_body]
fn decode_gbk(bytes: &Vec<u8>) -> (r: Option<String>)
    ensures
        match r {
            Some(s) => gbk_text(bytes@) == Some(s@),
            None => gbk_text(bytes@) is None,
        },
{
    match encoding::Encoding::decode(encoding::all::GBK, bytes, encoding::DecoderTrap::Strict) {
        Ok(text) => Some(text),
        Err(_) => None,
    }
}

/// `encoding::all::WINDOWS_31J.decode` with the strict trap: the text that the decoder's
/// tables give for bytes in Shift_JIS, or nothing where it fails at a byte. The result
/// is named, not described.
#[verifier::external_body]
pub(crate) fn decode_shift_jis(bytes: &Vec<u8>) -> (r: Option<String>)
    ensures
        match r {
            Some(s) => shift_jis_text(bytes@) == Some(s@),
            None => shift_jis_text(bytes@) is None,
        },
{
    match encoding::Encoding::decode(
        encoding::all::WINDOWS_31J,
        bytes,
        encoding::DecoderTrap::Strict,
    ) {
        Ok(text) => Some(text),
        Err(_) => None,
    }
}

/// The text with one character for each byte, the character of its number.
pub fn text_of_bytes(bytes: &Vec<u8>) -> (text: String)
    ensures
        text@ == single_chars(bytes@),
{
    let mut text = String::new();
    let mut i: usize = 0;
    while i < bytes.len()
        invariant
            i <= bytes@.len(),
            text@ == single_chars(bytes@).subrange(0, i as int),
        decreases bytes@.len() - i,
    {
        push_char(&mut text, bytes[i] as char);
        proof {
            assert(text@ =~= single_chars(bytes@).subrange(0, i + 1));
        }
        i += 1;
    }
    proof {
        assert(single_chars(bytes@).subrange(0, bytes@.len() as int) =~= single_chars(bytes@));
    }
    text
}

/// The text of the characters.
pub fn text_of_chars(chars: &Vec<char>) -> (text: String)
    ensures
        text@ == chars@,
{
    let mut text = String::new();
    let mut i: usize = 0;
    while i < chars.len()
        invariant
            i <= chars@.len(),
            text@ == chars@.subrange(0, i as int),
        decreases chars@.len() - i,
    {
        push_char(&mut text, chars[i]);
        proof {
            assert(text@ =~= chars@.subrange(0, i + 1));
        }
        i += 1;
    }
    proof {
        assert(chars@.subrange(0, chars@.len() as int) =~= chars@);
    }
    text
}

/// `encoding::all::WINDOWS_31J.encode` with the strict trap: the bytes that the encoder's
/// tables give for the text in Shift_JIS, or nothing where it fails at a character. The
/// result is named; described is only that the encoder writes a character up to U+007F
/// as the one byte of its number, so that a text of such characters has these bytes.
#[verifier::external_body]
pub(crate) fn encode_shift_jis(value: &str) -> (r: Option<Vec<u8>>)
    ensures
        match r {
            Some(b) => shift_jis_bytes(value@) == Some(b@),
            None => shift_jis_bytes(value@) is None,
        },
        r is None ==> !chars_up_to(value@, 0x7F),
        r matches Some(b) ==> chars_up_to(value@, 0x7F) ==> b@ == single_bytes(value@),
{
    match encoding::Encoding::encode(
        encoding::all::WINDOWS_31J,
        value,
        encoding::EncoderTrap::Strict,
    ) {
        Ok(bytes) => Some(bytes),
        Err(_) => None,
    }
}

impl Charset {
    /// The text that `bytes` spell in this character set, or `None` where they spell
    /// none.
    pub open spec fn spec_decode(&self, bytes: Seq<u8>) -> Option<Seq<char>> {
        match *self {
            Charset::ASCII => if bytes_up_to(bytes, 0x7F) {
                Some(single_chars(bytes))
            } else {
                None
            },
            Charset::ISO8859_1 => Some(single_chars(bytes)),
            Charset::UTF8 => if valid_utf8(bytes) {
                Some(decode_utf8(bytes))
            } else {
                None
            },
            Charset::GBK => gbk_text(bytes),
        }
    }

    /// The text that `bytes` spell in this character set. Bytes that spell no text in
    /// the set are refused.
    pub fn decode(&self, bytes: &Vec<u8>) -> (r: Result<String, Error>)
        ensures
            match self.spec_decode(bytes@) {
                Some(text) => r matches Ok(t) && t@ == text,
                None => r matches Err(e) && e is FormatException,
            },
    {
        let decoded = match self {
            Charset::ASCII => {
                let mut i: usize = 0;
                while i < bytes.len()
                    invariant
                        i <= bytes@.len(),
                        self is ASCII,
                        forall|k: int| 0 <= k < i ==> #[trigger] bytes@[k] <= 0x7F,
                    decreases bytes@.len() - i,
                {
                    if bytes[i] > 0x7F {
                        assert(!(bytes@[i as int] <= 0x7F));
                        return Err(Error::FormatException("No ASCII text".to_owned()));
                    }
                    i += 1;
                }
                Some(text_of_bytes(bytes))
            },
            Charset::ISO8859_1 => Some(text_of_bytes(bytes)),
            Charset::UTF8 => decode_utf_8(bytes),
            Charset::GBK => decode_gbk(bytes),
        };
        match decoded {
            Some(text) => Ok(text),
            None => Err(Error::FormatException("The bytes spell no text".to_owned())),
        }
    }

    /// The bytes of `value` in this character set, or `None` where a character has no
    /// place in it.
    pub open spec fn spec_encode(&self, value: &str) -> Option<Seq<u8>> {
        match *self {
            Charset::ASCII => if chars_up_to(value@, 0x7F) {
                Some(single_bytes(value@))
            } else {
                None
            },
            Charset::ISO8859_1 => if chars_up_to(value@, 0xFF) {
                Some(single_bytes(value@))
            } else {
                None
            },
            Charset::UTF8 => Some(value.spec_bytes()),
            Charset::GBK => gbk_bytes(value@),
        }
    }

    /// The bytes of `value` in this character set. A text with a character that has no
    /// place in the set is refused.
    pub fn encode(&self, value: &str) -> (r: Result<Vec<u8>, Error>)
        ensures
            match self.spec_encode(value) {
                Some(bytes) => r matches Ok(b) && b@ == bytes,
                None => r matches Err(e) && e is WriterException,
            },
    {
        let encoded = match self {
            Charset::ASCII => encode_ascii(value),
            Charset::ISO8859_1 => encode_iso_8859_1(value),
            Charset::UTF8 => encode_utf_8(value),
            Charset::GBK => encode_gbk(value),
        };
        match encoded {
            Some(bytes) => Ok(bytes),
            None => Err(Error::WriterException("unrepresentable character".to_owned())),
        }
    }
}

} // verus!
