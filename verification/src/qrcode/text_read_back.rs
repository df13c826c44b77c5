use crate::common::bit_array::{
    bits_value, lemma_bits_value_bound, lemma_low_bits_value, low_bits,
};
use crate::common::bit_lemmas::{bit32, lemma_bit_of_half, lemma_bit_of_zero};
use crate::common::bit_matrix::BitMatrix;
use crate::common::bit_source::{bits_at, bytes_bits};
use crate::common::charset::{chars_up_to, shift_jis_of, single_bytes, single_chars, Charset};
use crate::error::ErrorKind;
use crate::encode_hint_type::EncodeHints;
use crate::qrcode::decoder::bit_matrix_parser::BitMatrixParser;
use crate::qrcode::decoder::decoder::{
    corrected_upto, level_of_bits, read_symbol, Decoded, Decoder,
};
use crate::qrcode::decoder::error_correction_level::ErrorCorrectionLevel;
use crate::qrcode::decoder::decoded_bit_stream_parser::{
    alphanumeric_char, alphanumeric_group, alphanumeric_ok, alphanumeric_pair, alphanumeric_text,
    alphanumeric_width, counted, digit_char, nothing_parsed, numeric_digits, numeric_group,
    numeric_group_width, numeric_ok, numeric_text, numeric_width, parse_from, parsed, segment,
    segment_bytes, ten_to, text_segment, with_text, Parsed,
};
use crate::qrcode::decoder::mode::Mode;
use crate::qrcode::decoder::version::{lemma_standard_version, Version};
use crate::qrcode::decoder::version_table::standard_centers;
use crate::qrcode::encoder::encoder::{
    alphanumeric_bits, alphanumeric_code, digit_value, is_digit, numeric_bits, only_kanji,
    pad_bytes, terminated, zero_bits, Encoder,
};
use crate::qrcode::encoder::encoder_kanji::{kanji_lead, lead_of};
use crate::qrcode::encoder::encoder_blocks::bits_bytes;
use crate::qrcode::encoder::encoder_laws::{
    lemma_alphanumeric_bits_count, lemma_codewords_are_had, lemma_mode_of_alphanumeric_text,
    lemma_numeric_bits_count, lemma_terminated_fills, lemma_version_is_shareable,
};
use crate::qrcode::encoder::matrix_util::symbol_modules;
use crate::qrcode::encoder::room::lemma_version_has_room;
use crate::qrcode::format_read_back::{lemma_format_is_read, lemma_version_is_read};
use crate::qrcode::written_and_read::{
    lemma_codewords_read_back, lemma_data_codewords_come_back, shows_modules,
};
use vstd::arithmetic::power2::{lemma2_to64, lemma_pow2_strictly_increases, pow2};
use vstd::prelude::*;

verus! {

/// The bits of the number that bits spell are those bits: the bit at place `k` of `s` is
/// the bit of the number that has as many bits behind it.
pub proof fn lemma_bit_of_bits_value(s: Seq<bool>, k: int)
    requires
        s.len() <= 32,
        0 <= k < s.len(),
    ensures
        bits_value(s) < 0x1_0000_0000,
        bit32(bits_value(s) as u32, (s.len() - 1 - k) as u32) == s[k],
    decreases s.len(),
{
    lemma_bits_value_bound(s);
    lemma_bits_value_bound(s.drop_last());
    lemma2_to64();
    if s.len() < 32 {
        lemma_pow2_strictly_increases(s.len(), 32);
    }
    lemma_pow2_strictly_increases((s.len() - 1) as nat, 32);
    let v = bits_value(s) as u32;
    let h = bits_value(s.drop_last()) as u32;
    if k == s.len() - 1 {
        lemma_bit_of_half(v, 0);
    } else {
        lemma_bit_of_bits_value(s.drop_last(), k);
        lemma_bit_of_half(v, (s.len() - 2 - k) as u32);
        assert(v / 2 == h);
    }
}

/// Bits that fill bytes are the bits of their bytes.
pub proof fn lemma_bits_of_bytes(bits: Seq<bool>)
    requires
        bits.len() % 8 == 0,
    ensures
        bytes_bits(bits_bytes(bits)) == bits,
{
    let bytes = bits_bytes(bits);
    let back = bytes_bits(bytes);
    assert(back.len() == bits.len());
    assert forall|j: int| 0 <= j < bits.len() implies back[j] == bits[j] by {
        let i = j / 8;
        let eight = bits.subrange(8 * i, 8 * i + 8);
        lemma_bit_of_bits_value(eight, j % 8);
        lemma_bits_value_bound(eight);
        lemma2_to64();
        assert(bits_value(eight) < 256);
        assert(eight[j % 8] == bits[j]);
    }
    assert(back =~= bits);
}

/// A number that is written into a run of bits is read there: behind `pre`, the `n` low
/// bits of a number below `2^n` spell the number.
pub proof fn lemma_field_is_read(pre: Seq<bool>, value: u32, n: nat, post: Seq<bool>)
    requires
        n <= 32,
        value < pow2(n),
    ensures
        bits_at(pre + low_bits(value, n) + post, pre.len() as int, n as int) == value,
{
    let whole = pre + low_bits(value, n) + post;
    assert(whole.subrange(pre.len() as int, (pre.len() + n) as int) =~= low_bits(value, n));
    lemma_low_bits_value(value, n);
}

/// The number that group `g` of the digits `s` stands for: three digits, or the two or
/// the one that are left at the end.
pub open spec fn numeric_value(s: Seq<char>, g: int) -> int {
    let d = numeric_digits(s.len() as int, g);
    if d == 3 {
        100 * digit_value(s[3 * g]) + 10 * digit_value(s[3 * g + 1]) + digit_value(s[3 * g + 2])
    } else if d == 2 {
        10 * digit_value(s[3 * g]) + digit_value(s[3 * g + 1])
    } else {
        digit_value(s[3 * g]) as int
    }
}

/// Whether every one of `s` is a digit.
pub open spec fn digits(s: Seq<char>) -> bool {
    forall|i: int| 0 <= i < s.len() ==> is_digit(#[trigger] s[i])
}

/// The bits of digits hold their groups one behind the other, ten bits apart.
pub proof fn lemma_numeric_group_bits(s: Seq<char>, g: int)
    requires
        digits(s),
        0 <= g,
        3 * g < s.len(),
    ensures
        numeric_bits(s).len() == numeric_width(s.len() as int),
        10 * g + numeric_group_width(s.len() as int, g) <= numeric_bits(s).len(),
        0 <= numeric_value(s, g) < ten_to(numeric_digits(s.len() as int, g)),
        numeric_bits(s).subrange(10 * g, 10 * g + numeric_group_width(s.len() as int, g))
            == low_bits(
            numeric_value(s, g) as u32,
            numeric_group_width(s.len() as int, g) as nat,
        ),
    decreases g,
{
    let count = s.len() as int;
    let w = numeric_group_width(count, g);
    lemma_numeric_bits_count(s);
    assert(is_digit(s[3 * g]));
    if 3 * g + 1 < count {
        assert(is_digit(s[3 * g + 1]));
    }
    if 3 * g + 2 < count {
        assert(is_digit(s[3 * g + 2]));
    }
    if g == 0 {
        assert(numeric_bits(s).subrange(0, w) =~= low_bits(numeric_value(s, 0) as u32, w as nat));
    } else {
        let tail = s.subrange(3, count);
        assert(digits(tail)) by {
            assert forall|i: int| 0 <= i < tail.len() implies is_digit(#[trigger] tail[i]) by {
                assert(is_digit(s[i + 3]));
            }
        }
        lemma_numeric_group_bits(tail, g - 1);
        lemma_numeric_bits_count(tail);
        assert(numeric_value(s, g) == numeric_value(tail, g - 1));
        assert(numeric_bits(s).subrange(10 * g, 10 * g + w) =~= numeric_bits(tail).subrange(
            10 * (g - 1),
            10 * (g - 1) + w,
        ));
    }
}

/// A digit is the character of its value.
proof fn lemma_digit_char(c: char)
    requires
        is_digit(c),
    ensures
        digit_char(digit_value(c) as int) == c,
{
}

/// Group `g` of digits that are written behind `pre` is read as the number it stands for.
pub proof fn lemma_numeric_group_is_read(pre: Seq<bool>, s: Seq<char>, post: Seq<bool>, g: int)
    requires
        digits(s),
        0 <= g,
        3 * g < s.len(),
    ensures
        numeric_group(pre + numeric_bits(s) + post, pre.len() as int, s.len() as int, g)
            == numeric_value(s, g),
        0 <= numeric_value(s, g) < ten_to(numeric_digits(s.len() as int, g)),
{
    let whole = pre + numeric_bits(s) + post;
    let at = pre.len() as int;
    let count = s.len() as int;
    let w = numeric_group_width(count, g);
    lemma2_to64();
    lemma_numeric_group_bits(s, g);
    assert(whole.subrange(at + 10 * g, at + 10 * g + w) =~= numeric_bits(s).subrange(
        10 * g,
        10 * g + w,
    ));
    lemma_low_bits_value(numeric_value(s, g) as u32, w as nat);
}

/// The digits of a number of up to three digits.
proof fn lemma_three_digits(a: int, b: int, c: int)
    requires
        0 <= a <= 9,
        0 <= b <= 9,
        0 <= c <= 9,
    ensures
        ((100 * a + 10 * b + c) / 100) % 10 == a,
        ((100 * a + 10 * b + c) / 10) % 10 == b,
        (100 * a + 10 * b + c) % 10 == c,
        ((10 * a + b) / 10) % 10 == a,
        (10 * a + b) % 10 == b,
{
}

/// The digit at place `i` is found in the number of its group.
pub proof fn lemma_digit_of_group(s: Seq<char>, i: int)
    requires
        digits(s),
        0 <= i < s.len(),
    ensures
        digit_char(
            (numeric_value(s, i / 3) / ten_to(numeric_digits(s.len() as int, i / 3) - 1 - i % 3))
                % 10,
        ) == s[i],
{
    let g = i / 3;
    let count = s.len() as int;
    let d = numeric_digits(count, g);
    let v = numeric_value(s, g);
    assert(is_digit(s[3 * g]));
    let a = digit_value(s[3 * g]) as int;
    lemma_digit_char(s[i]);
    if d == 3 {
        assert(is_digit(s[3 * g + 1]));
        assert(is_digit(s[3 * g + 2]));
        let b = digit_value(s[3 * g + 1]) as int;
        let c = digit_value(s[3 * g + 2]) as int;
        lemma_three_digits(a, b, c);
        assert(v == 100 * a + 10 * b + c);
        if i % 3 == 0 {
            assert((v / ten_to(2)) % 10 == a);
        } else if i % 3 == 1 {
            assert((v / ten_to(1)) % 10 == b);
        } else {
            assert((v / ten_to(0)) % 10 == c);
        }
    } else if d == 2 {
        assert(is_digit(s[3 * g + 1]));
        let b = digit_value(s[3 * g + 1]) as int;
        lemma_three_digits(a, b, 0);
        assert(v == 10 * a + b);
        if i % 3 == 0 {
            assert((v / ten_to(1)) % 10 == a);
        } else {
            assert((v / ten_to(0)) % 10 == b);
        }
    } else {
        assert(v == a);
        assert((v / ten_to(0)) % 10 == a);
    }
}

/// Digits that are written are read: behind `pre`, the bits of the digits `s` hold a
/// numeric segment, and its text is `s`.
pub proof fn lemma_digits_are_read(pre: Seq<bool>, s: Seq<char>, post: Seq<bool>)
    requires
        digits(s),
    ensures
        numeric_ok(pre + numeric_bits(s) + post, pre.len() as int, s.len() as int),
        numeric_text(pre + numeric_bits(s) + post, pre.len() as int, s.len() as int) == s,
{
    let whole = pre + numeric_bits(s) + post;
    let at = pre.len() as int;
    let count = s.len() as int;
    lemma_numeric_bits_count(s);
    assert forall|g: int| 0 <= g && 3 * g < count implies #[trigger] numeric_group(
        whole,
        at,
        count,
        g,
    ) < ten_to(numeric_digits(count, g)) by {
        lemma_numeric_group_is_read(pre, s, post, g);
    }
    let text = numeric_text(whole, at, count);
    assert forall|i: int| 0 <= i < count implies text[i] == s[i] by {
        lemma_numeric_group_is_read(pre, s, post, i / 3);
        lemma_digit_of_group(s, i);
    }
    assert(text =~= s);
}

/// The number that group `g` of the characters `s` stands for: two characters, the
/// first counting 45 times, or the one that is left at the end.
pub open spec fn alphanumeric_value(s: Seq<char>, g: int) -> int {
    if alphanumeric_pair(s.len() as int, g) {
        45 * alphanumeric_code(s[2 * g]) + alphanumeric_code(s[2 * g + 1])
    } else {
        alphanumeric_code(s[2 * g])
    }
}

/// The number of bits of group `g` of `count` characters.
pub open spec fn alphanumeric_group_width(count: int, g: int) -> int {
    if alphanumeric_pair(count, g) {
        11
    } else {
        6
    }
}

/// Whether every one of `s` is of the alphanumeric set.
pub open spec fn letters(s: Seq<char>) -> bool {
    forall|i: int| 0 <= i < s.len() ==> alphanumeric_code(#[trigger] s[i]) != -1
}

/// The bits of characters of the alphanumeric set hold their groups one behind the other,
/// eleven bits apart.
pub proof fn lemma_alphanumeric_group_bits(s: Seq<char>, g: int)
    requires
        letters(s),
        0 <= g,
        2 * g < s.len(),
    ensures
        alphanumeric_bits(s).len() == alphanumeric_width(s.len() as int),
        11 * g + alphanumeric_group_width(s.len() as int, g) <= alphanumeric_bits(s).len(),
        0 <= alphanumeric_value(s, g),
        alphanumeric_pair(s.len() as int, g) ==> alphanumeric_value(s, g) < 45 * 45,
        !alphanumeric_pair(s.len() as int, g) ==> alphanumeric_value(s, g) < 45,
        alphanumeric_bits(s).subrange(
            11 * g,
            11 * g + alphanumeric_group_width(s.len() as int, g),
        ) == low_bits(
            alphanumeric_value(s, g) as u32,
            alphanumeric_group_width(s.len() as int, g) as nat,
        ),
    decreases g,
{
    let count = s.len() as int;
    let w = alphanumeric_group_width(count, g);
    lemma_alphanumeric_bits_count(s);
    assert(alphanumeric_code(s[2 * g]) != -1);
    if 2 * g + 1 < count {
        assert(alphanumeric_code(s[2 * g + 1]) != -1);
    }
    if g == 0 {
        assert(alphanumeric_bits(s).subrange(0, w) =~= low_bits(
            alphanumeric_value(s, 0) as u32,
            w as nat,
        ));
    } else {
        let tail = s.subrange(2, count);
        assert(letters(tail)) by {
            assert forall|i: int| 0 <= i < tail.len() implies alphanumeric_code(
                #[trigger] tail[i],
            ) != -1 by {
                assert(alphanumeric_code(s[i + 2]) != -1);
            }
        }
        lemma_alphanumeric_group_bits(tail, g - 1);
        lemma_alphanumeric_bits_count(tail);
        assert(alphanumeric_value(s, g) == alphanumeric_value(tail, g - 1));
        assert(alphanumeric_bits(s).subrange(11 * g, 11 * g + w) =~= alphanumeric_bits(
            tail,
        ).subrange(11 * (g - 1), 11 * (g - 1) + w));
    }
}

/// A character of the alphanumeric set is the character of its number.
proof fn lemma_alphanumeric_char(c: char)
    requires
        alphanumeric_code(c) != -1,
    ensures
        alphanumeric_char(alphanumeric_code(c)) == c,
        0 <= alphanumeric_code(c) < 45,
{
}

/// Group `g` of characters that are written behind `pre` is read as the number it
/// stands for.
pub proof fn lemma_alphanumeric_group_is_read(
    pre: Seq<bool>,
    s: Seq<char>,
    post: Seq<bool>,
    g: int,
)
    requires
        letters(s),
        0 <= g,
        2 * g < s.len(),
    ensures
        alphanumeric_group(pre + alphanumeric_bits(s) + post, pre.len() as int, s.len() as int, g)
            == alphanumeric_value(s, g),
        alphanumeric_value(s, g) < if alphanumeric_pair(s.len() as int, g) {
            45 * 45int
        } else {
            45int
        },
{
    let whole = pre + alphanumeric_bits(s) + post;
    let at = pre.len() as int;
    let count = s.len() as int;
    let w = alphanumeric_group_width(count, g);
    lemma2_to64();
    lemma_alphanumeric_group_bits(s, g);
    assert(whole.subrange(at + 11 * g, at + 11 * g + w) =~= alphanumeric_bits(s).subrange(
        11 * g,
        11 * g + w,
    ));
    lemma_low_bits_value(alphanumeric_value(s, g) as u32, w as nat);
}

/// The character at place `i` is found in the number of its group.
pub proof fn lemma_letter_of_group(s: Seq<char>, i: int)
    requires
        letters(s),
        0 <= i < s.len(),
    ensures
        alphanumeric_char(
            if !alphanumeric_pair(s.len() as int, i / 2) {
                alphanumeric_value(s, i / 2)
            } else if i % 2 == 0 {
                alphanumeric_value(s, i / 2) / 45
            } else {
                alphanumeric_value(s, i / 2) % 45
            },
        ) == s[i],
{
    let g = i / 2;
    lemma_alphanumeric_char(s[2 * g]);
    if 2 * g + 1 < s.len() {
        lemma_alphanumeric_char(s[2 * g + 1]);
    }
}

/// Characters of the alphanumeric set that are written are read: behind `pre`, the bits
/// of the characters `s` hold an alphanumeric segment, and its text is `s`.
pub proof fn lemma_letters_are_read(pre: Seq<bool>, s: Seq<char>, post: Seq<bool>)
    requires
        letters(s),
    ensures
        alphanumeric_ok(pre + alphanumeric_bits(s) + post, pre.len() as int, s.len() as int),
        alphanumeric_text(pre + alphanumeric_bits(s) + post, pre.len() as int, s.len() as int)
            == s,
{
    let whole = pre + alphanumeric_bits(s) + post;
    let at = pre.len() as int;
    let count = s.len() as int;
    lemma_alphanumeric_bits_count(s);
    assert forall|g: int| 0 <= g && 2 * g < count implies #[trigger] alphanumeric_group(
        whole,
        at,
        count,
        g,
    ) < if alphanumeric_pair(count, g) {
        45 * 45int
    } else {
        45int
    } by {
        lemma_alphanumeric_group_is_read(pre, s, post, g);
    }
    let text = alphanumeric_text(whole, at, count);
    assert forall|i: int| 0 <= i < count implies text[i] == s[i] by {
        lemma_alphanumeric_group_is_read(pre, s, post, i / 2);
        lemma_letter_of_group(s, i);
    }
    assert(text =~= s);
}

/// The bits of the text `s` in a segment of the given mode, which is Numeric or
/// Alphanumeric.
pub open spec fn segment_bits(mode: Mode, s: Seq<char>) -> Seq<bool> {
    if mode == Mode::Numeric {
        numeric_bits(s)
    } else {
        alphanumeric_bits(s)
    }
}

/// Four bits that are all zero spell zero.
proof fn lemma_zeros_spell_zero(bits: Seq<bool>, at: int)
    requires
        0 <= at,
        at + 4 <= bits.len(),
        forall|j: int| at <= j < at + 4 ==> !bits[j],
    ensures
        bits_at(bits, at, 4) == 0,
{
    let four = bits.subrange(at, at + 4);
    assert(four =~= low_bits(0, 4)) by {
        assert forall|j: int| 0 <= j < 4 implies four[j] == low_bits(0, 4)[j] by {
            lemma_bit_of_zero((3 - j) as u32);
        }
    }
    lemma2_to64();
    lemma_low_bits_value(0, 4);
}

/// What ends and fills `len` bits in a symbol with room for `room` bytes: the
/// terminator, zeros up to the end of the byte, and the pad bytes.
pub open spec fn ending(len: nat, room: nat) -> Seq<bool> {
    let capacity = 8 * room;
    let terminator = if capacity - len >= 4 {
        4nat
    } else {
        (capacity - len) as nat
    };
    let aligned = (len + terminator + 7) / 8 * 8;
    zero_bits((aligned - len) as nat) + bytes_bits(pad_bytes((room - aligned / 8) as nat))
}

/// Bits that are ended and filled are the bits and their ending, and the ending begins
/// with four zeros where it has four bits.
pub proof fn lemma_ending(bits: Seq<bool>, room: nat)
    requires
        bits.len() <= 8 * room,
    ensures
        terminated(bits, room) == bits + ending(bits.len(), room),
        bits.len() + 4 <= terminated(bits, room).len() ==> bits_at(
            terminated(bits, room),
            bits.len() as int,
            4,
        ) == 0,
{
    let whole = terminated(bits, room);
    let tail = ending(bits.len(), room);
    assert(whole =~= bits + tail);
    let next = bits.len() as int;
    if next + 4 <= whole.len() {
        assert forall|j: int| next <= j < next + 4 implies !whole[j] by {
            assert(whole[j] == tail[j - next]);
        }
        lemma_zeros_spell_zero(whole, next);
    }
}

/// The announcement and the count of a segment that is written are read: before whatever
/// follows, the first four bits spell the mode, and the bits behind them the count.
pub proof fn lemma_count_is_read(mode: Mode, width: nat, count: nat, rest: Seq<bool>)
    requires
        width <= 16,
        count < pow2(width),
    ensures
        bits_at(low_bits(mode.spec_bits(), 4) + low_bits(count as u32, width) + rest, 0, 4)
            == mode.spec_bits(),
        bits_at(
            low_bits(mode.spec_bits(), 4) + low_bits(count as u32, width) + rest,
            4,
            width as int,
        ) == count,
{
    lemma2_to64();
    let announced = low_bits(mode.spec_bits(), 4);
    let counted = low_bits(count as u32, width);
    let whole = announced + counted + rest;
    assert(whole =~= Seq::<bool>::empty() + announced + (counted + rest));
    lemma_field_is_read(Seq::empty(), mode.spec_bits(), 4, counted + rest);
    lemma_pow2_strictly_increases(width, 32);
    lemma_field_is_read(announced, count as u32, width, rest);
}

/// A segment of digits, or of characters of the alphanumeric set, that is written is
/// found: before whatever follows, the bits announce the mode, and behind the
/// announcement the segment is read with its count and its text.
pub proof fn lemma_segment_is_found(
    mode: Mode,
    number: int,
    s: Seq<char>,
    rest: Seq<bool>,
    hint: Option<Charset>,
)
    requires
        1 <= number <= 40,
        (mode == Mode::Numeric && digits(s)) || (mode == Mode::Alphanumeric && letters(s)),
        s.len() < pow2(mode.spec_character_count_bits(number) as nat),
    ensures
        ({
            let payload = low_bits(mode.spec_bits(), 4) + low_bits(
                s.len() as u32,
                mode.spec_character_count_bits(number) as nat,
            ) + segment_bits(mode, s);
            &&& bits_at(payload + rest, 0, 4) == mode.spec_bits()
            &&& segment(payload + rest, 4, number, hint, mode, nothing_parsed()) == Some(
                (payload.len() as int, with_text(nothing_parsed(), s)),
            )
        }),
{
    let width = mode.spec_character_count_bits(number) as nat;
    let announced = low_bits(mode.spec_bits(), 4);
    let count = low_bits(s.len() as u32, width);
    let data = segment_bits(mode, s);
    let whole = announced + count + data + rest;
    assert(whole =~= announced + count + (data + rest));
    lemma_count_is_read(mode, width, s.len(), data + rest);
    assert(counted(whole, 4, number, mode) == Some((s.len() as int, (4 + width) as int)));
    assert(whole =~= (announced + count) + data + rest);
    assert(nothing_parsed().text + s =~= s);
    let read = with_text(nothing_parsed(), s);
    if mode == Mode::Numeric {
        lemma_digits_are_read(announced + count, s, rest);
        lemma_numeric_bits_count(s);
        assert(text_segment(whole, 4, number, hint, mode, nothing_parsed()) == Some(
            (4 + width + numeric_width(s.len() as int), read),
        )) by {
            reveal(text_segment);
        }
    } else {
        lemma_letters_are_read(announced + count, s, rest);
        lemma_alphanumeric_bits_count(s);
        assert(text_segment(whole, 4, number, hint, mode, nothing_parsed()) == Some(
            (4 + width + alphanumeric_width(s.len() as int), read),
        )) by {
            reveal(text_segment);
        }
    }
    assert(segment(whole, 4, number, hint, mode, nothing_parsed()) == text_segment(
        whole,
        4,
        number,
        hint,
        mode,
        nothing_parsed(),
    )) by {
        reveal(segment);
    }
}

/// The text of a segment of digits, or of characters of the alphanumeric set, that is
/// written, ended and filled is read again: the parser finds the segment, reads the
/// count and the text, and stops at the terminator or at the end of the bits.
pub proof fn lemma_segment_is_parsed(
    mode: Mode,
    number: int,
    s: Seq<char>,
    room: nat,
    hint: Option<Charset>,
)
    requires
        1 <= number <= 40,
        (mode == Mode::Numeric && digits(s)) || (mode == Mode::Alphanumeric && letters(s)),
        s.len() < pow2(mode.spec_character_count_bits(number) as nat),
        4 + mode.spec_character_count_bits(number) + segment_bits(mode, s).len() <= 8 * room,
    ensures
        parse_from(
            terminated(
                low_bits(mode.spec_bits(), 4) + low_bits(
                    s.len() as u32,
                    mode.spec_character_count_bits(number) as nat,
                ) + segment_bits(mode, s),
                room,
            ),
            0,
            number,
            hint,
            nothing_parsed(),
        ) == Some(with_text(nothing_parsed(), s)),
{
    let payload = low_bits(mode.spec_bits(), 4) + low_bits(
        s.len() as u32,
        mode.spec_character_count_bits(number) as nat,
    ) + segment_bits(mode, s);
    let whole = terminated(payload, room);
    let read = with_text(nothing_parsed(), s);
    let next = payload.len() as int;
    lemma_ending(payload, room);
    lemma_segment_is_found(mode, number, s, ending(payload.len(), room), hint);
    assert(Mode::for_bits(bits_at(whole, 0, 4) as int) == Some(mode));
    assert(parse_from(whole, next, number, hint, read) == Some(read)) by {
        reveal_with_fuel(parse_from, 2);
    }
    assert(parse_from(whole, 0, number, hint, nothing_parsed()) == parse_from(
        whole,
        next,
        number,
        hint,
        read,
    )) by {
        reveal_with_fuel(parse_from, 2);
    }
}

/// A character up to U+00FF is the character of the byte of its number.
proof fn lemma_byte_char(c: char)
    requires
        c as u32 <= 0xFF,
    ensures
        (c as u8) as char == c,
{
}

/// Bytes that are written are read: behind `pre`, the bits of the bytes `b` hold these
/// bytes, eight bits each.
pub proof fn lemma_bytes_are_read(pre: Seq<bool>, b: Seq<u8>, post: Seq<bool>)
    ensures
        segment_bytes(pre + bytes_bits(b) + post, pre.len() as int, b.len() as int) == b,
{
    let whole = pre + bytes_bits(b) + post;
    let at = pre.len() as int;
    let read = segment_bytes(whole, at, b.len() as int);
    lemma2_to64();
    assert forall|i: int| 0 <= i < b.len() implies read[i] == b[i] by {
        assert(whole.subrange(at + 8 * i, at + 8 * i + 8) =~= low_bits(b[i] as u32, 8));
        lemma_low_bits_value(b[i] as u32, 8);
    }
    assert(read =~= b);
}

/// What is read of a symbol that holds the one byte segment of the text `s`.
pub open spec fn with_bytes(s: Seq<char>) -> Parsed {
    Parsed { text: s, segments: seq![single_bytes(s)], ..nothing_parsed() }
}

/// A byte segment of a text of characters up to U+00FF that is written is found: before
/// whatever follows, the bits announce the mode, and behind the announcement the segment
/// is read with its count and, where no character set is named, its text.
pub proof fn lemma_byte_segment_is_found(number: int, s: Seq<char>, rest: Seq<bool>)
    requires
        1 <= number <= 40,
        chars_up_to(s, 0xFF),
        s.len() < pow2(Mode::Byte.spec_character_count_bits(number) as nat),
    ensures
        ({
            let payload = low_bits(Mode::Byte.spec_bits(), 4) + low_bits(
                s.len() as u32,
                Mode::Byte.spec_character_count_bits(number) as nat,
            ) + bytes_bits(single_bytes(s));
            &&& bits_at(payload + rest, 0, 4) == Mode::Byte.spec_bits()
            &&& segment(payload + rest, 4, number, None, Mode::Byte, nothing_parsed()) == Some(
                (payload.len() as int, with_bytes(s)),
            )
        }),
{
    let mode = Mode::Byte;
    let width = mode.spec_character_count_bits(number) as nat;
    let announced = low_bits(mode.spec_bits(), 4);
    let count = low_bits(s.len() as u32, width);
    let bytes = single_bytes(s);
    let data = bytes_bits(bytes);
    let whole = announced + count + data + rest;
    assert(whole =~= announced + count + (data + rest));
    lemma_count_is_read(mode, width, s.len(), data + rest);
    assert(counted(whole, 4, number, mode) == Some((s.len() as int, (4 + width) as int)));
    assert(whole =~= (announced + count) + data + rest);
    lemma_bytes_are_read(announced + count, bytes, rest);
    assert(single_chars(bytes) =~= s) by {
        assert forall|i: int| 0 <= i < s.len() implies single_chars(bytes)[i] == s[i] by {
            lemma_byte_char(s[i]);
        }
    }
    assert(nothing_parsed().text + s =~= s);
    assert(nothing_parsed().segments.push(bytes) =~= seq![bytes]);
    assert(text_segment(whole, 4, number, None, mode, nothing_parsed()) == Some(
        ((4 + width + 8 * s.len()) as int, with_bytes(s)),
    )) by {
        reveal(text_segment);
    }
    assert(segment(whole, 4, number, None, mode, nothing_parsed()) == text_segment(
        whole,
        4,
        number,
        None,
        mode,
        nothing_parsed(),
    )) by {
        reveal(segment);
    }
}

/// The text of a byte segment that is written, ended and filled is read again, where no
/// character set is named: the parser finds the segment, reads the count and the bytes,
/// and stops at the terminator or at the end of the bits.
pub proof fn lemma_byte_segment_is_parsed(number: int, s: Seq<char>, room: nat)
    requires
        1 <= number <= 40,
        chars_up_to(s, 0xFF),
        s.len() < pow2(Mode::Byte.spec_character_count_bits(number) as nat),
        4 + Mode::Byte.spec_character_count_bits(number) + 8 * s.len() <= 8 * room,
    ensures
        parse_from(
            terminated(
                low_bits(Mode::Byte.spec_bits(), 4) + low_bits(
                    s.len() as u32,
                    Mode::Byte.spec_character_count_bits(number) as nat,
                ) + bytes_bits(single_bytes(s)),
                room,
            ),
            0,
            number,
            None,
            nothing_parsed(),
        ) == Some(with_bytes(s)),
{
    let payload = low_bits(Mode::Byte.spec_bits(), 4) + low_bits(
        s.len() as u32,
        Mode::Byte.spec_character_count_bits(number) as nat,
    ) + bytes_bits(single_bytes(s));
    let whole = terminated(payload, room);
    let read = with_bytes(s);
    let next = payload.len() as int;
    lemma_ending(payload, room);
    lemma_byte_segment_is_found(number, s, ending(payload.len(), room));
    assert(Mode::for_bits(bits_at(whole, 0, 4) as int) == Some(Mode::Byte));
    assert(parse_from(whole, next, number, None, read) == Some(read)) by {
        reveal_with_fuel(parse_from, 2);
    }
    assert(parse_from(whole, 0, number, None, nothing_parsed()) == parse_from(
        whole,
        next,
        number,
        None,
        read,
    )) by {
        reveal_with_fuel(parse_from, 2);
    }
}

/// A text of characters up to U+007F is no Kanji, if it is not empty.
pub proof fn lemma_plain_text_is_no_kanji(content: Seq<char>)
    requires
        content.len() >= 1,
        chars_up_to(content, 0x7F),
    ensures
        !only_kanji(shift_jis_of(content)),
{
    let bytes = single_bytes(content);
    if bytes.len() % 2 == 0 {
        lemma_byte_char(content[0]);
        assert(!kanji_lead(lead_of(bytes, 0)));
    }
}

impl Encoder {
    /// What the encoder writes, the parser reads: the bits that the encoder forms for a
    /// text of digits or of characters of the alphanumeric set, not in the GS1 format,
    /// give this text when the bytes that they fill are parsed.
    pub proof fn lemma_text_is_parsed(
        &self,
        content: &str,
        ec_level: ErrorCorrectionLevel,
        hints: EncodeHints,
        hint: Option<Charset>,
    )
        requires
            self.wf(),
            !hints.gs1_format,
            content@.len() >= 1,
            letters(content@),
        ensures
            self.spec_payload(content, ec_level, hints) matches Some((mode, number, bits))
                ==> parsed(bits_bytes(bits), number, hint) == Some(
                with_text(nothing_parsed(), content@),
            ),
    {
        if self.spec_payload(content, ec_level, hints) is Some {
            self.lemma_payload_is_encoded(content, ec_level, hints);
            lemma_mode_of_alphanumeric_text(content@);
            reveal(Encoder::spec_payload);
            let (mode, number, bits) = self.spec_payload(content, ec_level, hints)->Some_0;
            let table = self.spec_versions().table();
            let ordinal = ec_level.spec_ordinal() as int;
            let room = table[number - 1].spec_data_codewords(ordinal);
            let width = mode.spec_character_count_bits(number) as nat;
            let data = segment_bits(mode, content@);
            let announced = low_bits(mode.spec_bits(), 4);
            let payload = announced + low_bits(content@.len() as u32, width) + data;
            assert(mode == Mode::Numeric || mode == Mode::Alphanumeric);
            assert(mode == Mode::Numeric ==> digits(content@));
            assert(Seq::<bool>::empty() + announced =~= announced);
            assert(bits == terminated(payload, room as nat));
            lemma_terminated_fills(payload, room as nat);
            lemma_bits_of_bytes(bits);
            lemma_segment_is_parsed(mode, number, content@, room as nat, hint);
        }
    }

    /// What the encoder writes of a plain text, the parser reads: the bits that the
    /// encoder forms for a text of characters up to U+007F, under no hint for the
    /// character set and not in the GS1 format, give this text when the bytes that they
    /// fill are parsed without a character set.
    pub proof fn lemma_plain_text_is_parsed(
        &self,
        content: &str,
        ec_level: ErrorCorrectionLevel,
        hints: EncodeHints,
    )
        requires
            self.wf(),
            !hints.gs1_format,
            hints.character_set is None,
            content@.len() >= 1,
            chars_up_to(content@, 0x7F),
        ensures
            self.spec_payload(content, ec_level, hints) matches Some((mode, number, bits))
                ==> parsed(bits_bytes(bits), number, None) matches Some(p) && p.text == content@,
    {
        if self.spec_payload(content, ec_level, hints) is Some {
            if letters(content@) {
                self.lemma_text_is_parsed(content, ec_level, hints, None);
            } else {
                self.lemma_payload_is_encoded(content, ec_level, hints);
                lemma_plain_text_is_no_kanji(content@);
                reveal(Encoder::spec_payload);
                let (mode, number, bits) = self.spec_payload(content, ec_level, hints)->Some_0;
                assert(mode == Mode::Byte);
                let table = self.spec_versions().table();
                let ordinal = ec_level.spec_ordinal() as int;
                let room = table[number - 1].spec_data_codewords(ordinal);
                let width = mode.spec_character_count_bits(number) as nat;
                let bytes = single_bytes(content@);
                let data = bytes_bits(bytes);
                let announced = low_bits(mode.spec_bits(), 4);
                let payload = announced + low_bits(content@.len() as u32, width) + data;
                assert(Encoder::spec_data_bits(content, mode, Charset::ISO8859_1) == Some(data));
                assert(Seq::<bool>::empty() + announced =~= announced);
                assert(bits == terminated(payload, room as nat));
                lemma_terminated_fills(payload, room as nat);
                lemma_bits_of_bytes(bits);
                lemma_byte_segment_is_parsed(number, content@, room as nat);
            }
        }
    }

    /// The modules of what is encoded are those of a symbol of the standard: of the
    /// version with the number of the symbol and the centers that the standard gives it,
    /// under the level and the mask of the symbol.
    pub proof fn lemma_symbol_is_laid(
        &self,
        content: &str,
        ec_level: ErrorCorrectionLevel,
        hints: EncodeHints,
    )
        requires
            self.wf(),
            self.spec_encode(content, ec_level, hints) is Some,
        ensures
            ({
                let s = self.spec_encode(content, ec_level, hints)->Some_0;
                &&& 1 <= s.number <= 40
                &&& 0 <= s.mask < 8
                &&& exists|laid: Seq<bool>|
                    s.modules == #[trigger] symbol_modules(
                        s.number,
                        standard_centers(s.number),
                        ec_level.spec_bits(),
                        s.mask,
                        laid,
                    )
            }),
    {
        self.lemma_payload_is_encoded(content, ec_level, hints);
        let (mode, number, bits) = self.spec_payload(content, ec_level, hints)->Some_0;
        let s = self.spec_encode(content, ec_level, hints)->Some_0;
        let own = self.spec_versions().table()[number - 1];
        let ordinal = ec_level.spec_ordinal() as int;
        lemma_standard_version(own, ordinal);
        reveal(Encoder::spec_symbol);
        let codewords = Encoder::spec_interleave(
            bits,
            own.spec_total_codewords(),
            own.spec_data_codewords(ordinal),
            own.spec_ec_blocks()[ordinal].spec_num_blocks() as int,
        )->Some_0;
        assert(s.modules == symbol_modules(
            s.number,
            standard_centers(s.number),
            ec_level.spec_bits(),
            s.mask,
            bytes_bits(codewords),
        ));
    }

    /// What the encoder lays into a symbol is read from it: from a matrix that shows the
    /// symbol of a text, the codewords are read under the version, the level and the
    /// mask of the symbol, and they are repaired to the data codewords that the bits of
    /// the text fill. The version is that of the standard with the number of the symbol.
    pub proof fn lemma_symbol_is_read(
        &self,
        content: &str,
        ec_level: ErrorCorrectionLevel,
        hints: EncodeHints,
        matrix: BitMatrix,
        version: Version,
    )
        requires
            self.wf(),
            version.wf(),
            version.is_standard(),
            self.spec_encode(content, ec_level, hints) matches Some(s) && shows_modules(
                matrix,
                s.modules,
                4 * s.number + 17,
            ) && version.spec_number() == s.number,
        ensures
            ({
                let s = self.spec_encode(content, ec_level, hints)->Some_0;
                let ordinal = ec_level.spec_ordinal() as int;
                let total = version.spec_total_codewords();
                let data = version.spec_data_codewords(ordinal);
                let blocks = version.spec_ec_blocks()[ordinal].spec_num_blocks() as int;
                let read = BitMatrixParser::spec_codewords(
                    matrix,
                    false,
                    version,
                    ec_level.spec_bits(),
                    s.mask as u32,
                );
                &&& self.spec_payload(content, ec_level, hints) is Some
                &&& 0 <= s.mask < 8
                &&& read is Some
                &&& s.modules == symbol_modules(
                    s.number,
                    version.spec_centers(),
                    ec_level.spec_bits(),
                    s.mask,
                    bytes_bits(read->Some_0),
                )
                &&& corrected_upto(read->Some_0, total, data, blocks, blocks as nat) == Some(
                    bits_bytes(self.spec_payload(content, ec_level, hints)->Some_0.2),
                )
            }),
    {
        self.lemma_payload_is_encoded(content, ec_level, hints);
        let (mode, number, bits) = self.spec_payload(content, ec_level, hints)->Some_0;
        let s = self.spec_encode(content, ec_level, hints)->Some_0;
        let own = self.spec_versions().table()[number - 1];
        let ordinal = ec_level.spec_ordinal() as int;
        lemma_standard_version(own, ordinal);
        lemma_standard_version(version, ordinal);
        let total = version.spec_total_codewords();
        let data = version.spec_data_codewords(ordinal);
        let blocks = version.spec_ec_blocks()[ordinal].spec_num_blocks() as int;
        assert(bits.len() == 8 * data) by {
            reveal(Encoder::spec_payload);
            let width = mode.spec_character_count_bits(number);
            let encoding = match hints.character_set {
                Some(c) => c,
                None => self.spec_default_encoding(),
            };
            let text = Encoder::spec_data_bits(content, mode, encoding)->Some_0;
            let header = Encoder::spec_header_bits(
                mode,
                hints.gs1_format,
                Encoder::spec_eci(mode, encoding, self.spec_default_encoding()),
            );
            let letters = Encoder::spec_num_letters(content, mode, text);
            lemma_terminated_fills(
                header + low_bits(letters as u32, width as nat) + text,
                data as nat,
            );
        }
        lemma_codewords_are_had(version, ordinal, bits);
        lemma_version_is_shareable(version, ordinal);
        Encoder::lemma_symbol_is_made(own, ec_level, bits, hints.qr_mask_pattern);
        let codewords = Encoder::spec_interleave(bits, total, data, blocks)->Some_0;
        assert(s.modules == symbol_modules(
            number,
            version.spec_centers(),
            ec_level.spec_bits(),
            s.mask,
            bytes_bits(codewords),
        ) && 0 <= s.mask < 8) by {
            reveal(Encoder::spec_symbol);
        }
        lemma_version_has_room(version, ec_level.spec_bits(), s.mask);
        lemma_codewords_read_back(version, ec_level.spec_bits(), s.mask, codewords, matrix);
        lemma_data_codewords_come_back(bits_bytes(bits), total, data, blocks);
    }
}

/// Decoding a symbol is parsing what was encoded: from a matrix that shows the symbol
/// that the encoder makes of a text, the decoder reads the version, the level and the
/// mask of the symbol and the data codewords that the bits of the text fill, so that it
/// gives what the parser makes of these.
pub proof fn lemma_symbol_is_decoded(
    encoder: Encoder,
    decoder: Decoder,
    content: &str,
    ec_level: ErrorCorrectionLevel,
    hints: EncodeHints,
    hint: Option<Charset>,
    matrix: BitMatrix,
)
    requires
        encoder.wf(),
        decoder.spec_versions().wf(),
        encoder.spec_encode(content, ec_level, hints) matches Some(s) && shows_modules(
            matrix,
            s.modules,
            4 * s.number + 17,
        ),
    ensures
        encoder.spec_payload(content, ec_level, hints) is Some,
        ({
            let (mode, number, bits) = encoder.spec_payload(content, ec_level, hints)->Some_0;
            read_symbol(decoder.spec_versions().table(), matrix, false, hint) == match parsed(
                bits_bytes(bits),
                number,
                hint,
            ) {
                Some(p) => Ok::<Decoded, ErrorKind>(
                    Decoded { bytes: bits_bytes(bits), level: ec_level, parsed: p },
                ),
                None => Err::<Decoded, ErrorKind>(ErrorKind::Format),
            }
        }),
{
    encoder.lemma_payload_is_encoded(content, ec_level, hints);
    let table = decoder.spec_versions().table();
    let s = encoder.spec_encode(content, ec_level, hints)->Some_0;
    let number = s.number;
    let version = table[number - 1];
    let ordinal = ec_level.spec_ordinal() as int;
    let level_bits = ec_level.spec_bits();
    encoder.lemma_symbol_is_read(content, ec_level, hints, matrix, version);
    let codewords = BitMatrixParser::spec_codewords(
        matrix,
        false,
        version,
        level_bits,
        s.mask as u32,
    )->Some_0;
    lemma_format_is_read(
        number,
        version.spec_centers(),
        level_bits,
        s.mask,
        bytes_bits(codewords),
        matrix,
    );
    lemma_version_is_read(
        number,
        version.spec_centers(),
        level_bits,
        s.mask,
        bytes_bits(codewords),
        matrix,
    );
    lemma_version_is_shareable(version, ordinal);
    assert(level_of_bits(level_bits) == ec_level);
    assert(BitMatrixParser::is_dimension(4 * number + 17));
}

/// What is encoded is decoded: from a matrix that shows the symbol that the encoder makes
/// of a text of characters up to U+007F, under no hint for the character set and not in
/// the GS1 format, the decoder reads the level of the symbol and the text.
pub proof fn lemma_encoded_text_is_decoded(
    encoder: Encoder,
    decoder: Decoder,
    content: &str,
    ec_level: ErrorCorrectionLevel,
    hints: EncodeHints,
    matrix: BitMatrix,
)
    requires
        encoder.wf(),
        decoder.spec_versions().wf(),
        !hints.gs1_format,
        hints.character_set is None,
        content@.len() >= 1,
        chars_up_to(content@, 0x7F),
        encoder.spec_encode(content, ec_level, hints) matches Some(s) && shows_modules(
            matrix,
            s.modules,
            4 * s.number + 17,
        ),
    ensures
        decoder.spec_decode(matrix, None) matches Ok(d) && d.level == ec_level && d.parsed.text
            == content@,
{
    lemma_symbol_is_decoded(encoder, decoder, content, ec_level, hints, None, matrix);
    encoder.lemma_plain_text_is_parsed(content, ec_level, hints);
}

} // verus!
