use crate::common::bit_array::{bits_value, lemma_low_bits_value, low_bits};
use crate::common::bit_matrix::BitMatrix;
use crate::qrcode::check_bits::lemma_check_bits_fit;
use crate::qrcode::decoder::bit_matrix_parser::{
    first_copy_bits, first_copy_place, second_copy_bits, second_copy_place, upper_version_place,
    version_copy_bits, BitMatrixParser,
};
use crate::qrcode::decoder::format_information::{
    count_ones, decoded_format, format_code, reads_exactly, FormatInformation,
};
use crate::qrcode::decoder::version::{
    decoded_version, nearest_version, version_code, version_distance, Versions,
};
use crate::qrcode::encoder::matrix_util::{
    basic_patterns, bch_code, bit_value, data_at, function_patterns, overlay, square,
    symbol_modules, type_info_at, type_info_bits, type_info_place, type_info_second_place,
    version_info_at, version_info_bits, TypePlace,
};
use crate::qrcode::written_and_read::{lemma_patterns_square, shows_modules};
use vstd::arithmetic::power2::lemma2_to64;
use vstd::prelude::*;

verus! {

/// The bits of a code of format information: the five bits of the format above the ten
/// check bits, and over all of them the mask 0x5412.
proof fn lemma_format_code_bits(d: u32, c: u32, j: u32)
    by (bit_vector)
    requires
        d < 32,
        c < 1024,
        j < 15,
    ensures
        ((d << 10u32) | c) ^ 0x5412u32 < 32768u32,
        j >= 10 ==> ((((((d << 10u32) | c) ^ 0x5412u32) >> j) & 1u32 == 1u32) == (((d >> ((j
            - 10u32) as u32)) & 1u32 == 1u32) != ((0x5412u32 >> j) & 1u32 == 1u32))),
        j < 10 ==> ((((((d << 10u32) | c) ^ 0x5412u32) >> j) & 1u32 == 1u32) == (((c >> j)
            & 1u32 == 1u32) != ((0x5412u32 >> j) & 1u32 == 1u32))),
{
}

/// Codes of format information with the same bits stand for the same format.
proof fn lemma_format_code_tells(d: u32, c: u32, e: u32, f: u32)
    by (bit_vector)
    requires
        d < 32,
        c < 1024,
        e < 32,
        f < 1024,
        ((d << 10u32) | c) ^ 0x5412u32 == ((e << 10u32) | f) ^ 0x5412u32,
    ensures
        d == e,
{
}

/// The two bits of a level and the three bits of a mask make five bits of format, from
/// which both are had again.
proof fn lemma_format_parts(level_bits: u32, mask: u32)
    by (bit_vector)
    requires
        level_bits < 4,
        mask < 8,
    ensures
        (level_bits << 3u32) | mask < 32,
        (((level_bits << 3u32) | mask) >> 3u32) & 0x03u32 == level_bits,
        ((level_bits << 3u32) | mask) & 0x07u32 == mask,
{
}

/// The fifteen bits of type information spell the code of the format.
pub proof fn lemma_type_info_is_the_code(level_bits: u32, mask_pattern: int)
    requires
        level_bits < 4,
        0 <= mask_pattern < 8,
    ensures
        (level_bits << 3) | (mask_pattern as u32) < 32,
        bits_value(type_info_bits(level_bits, mask_pattern)) == format_code(
            (level_bits << 3) | (mask_pattern as u32),
        ),
        format_code((level_bits << 3) | (mask_pattern as u32)) < 32768,
{
    let data: u32 = (level_bits << 3) | (mask_pattern as u32);
    lemma_format_parts(level_bits, mask_pattern as u32);
    lemma_check_bits_fit(data);
    let check = bch_code(data, 0x537);
    let code = format_code(data);
    let bits = type_info_bits(level_bits, mask_pattern);
    lemma_format_code_bits(data, check, 0);
    assert forall|i: int| 0 <= i < 15 implies bits[i] == low_bits(code, 15)[i] by {
        lemma_format_code_bits(data, check, (14 - i) as u32);
    }
    assert(bits =~= low_bits(code, 15));
    lemma2_to64();
    lemma_low_bits_value(code, 15);
}

/// A code of format information is read as its format: where both readings are the code
/// of `data`, the format that they stand for is `data`.
pub proof fn lemma_code_is_decoded(data: u32)
    requires
        data < 32,
    ensures
        FormatInformation::spec_decode(format_code(data), format_code(data)) == Some(data),
{
    let code = format_code(data);
    lemma_check_bits_fit(data);
    assert forall|k: int| 0 <= k < 32 && reads_exactly(code, code, k) implies k == data by {
        lemma_check_bits_fit(k as u32);
        lemma_format_code_tells(k as u32, bch_code(k as u32, 0x537), data, bch_code(data, 0x537));
    }
    assert(reads_exactly(code, code, data as int));
    let first = choose|k: int|
        0 <= k < 32 && reads_exactly(code, code, k) && forall|j: int|
            0 <= j < k ==> !reads_exactly(code, code, j);
    assert(0 <= data < 32 && reads_exactly(code, code, data as int) && forall|j: int|
        0 <= j < data ==> !reads_exactly(code, code, j));
    assert(first == data);
    assert(decoded_format(code, code) == Some(data));
}

/// The symbol shows the bits of type information at their places: bit `i`, counted from
/// the lowest, at its place in the first copy and at its place in the second.
pub proof fn lemma_type_cells(
    number: int,
    centers: Seq<usize>,
    level_bits: u32,
    mask_pattern: int,
    bits: Seq<bool>,
    i: int,
)
    requires
        1 <= number <= 40,
        0 <= i < 15,
    ensures
        ({
            let dim = 4 * number + 17;
            let s = symbol_modules(number, centers, level_bits, mask_pattern, bits);
            let first = type_info_place(i);
            let second = type_info_second_place(i, dim);
            let v = bit_value(type_info_bits(level_bits, mask_pattern)[14 - i]);
            &&& 0 <= first.0 < dim && 0 <= first.1 < dim
            &&& 0 <= second.0 < dim && 0 <= second.1 < dim
            &&& s[first.1][first.0] == v
            &&& s[second.1][second.0] == v
        }),
{
    let dim = 4 * number + 17;
    let tbits = type_info_bits(level_bits, mask_pattern);
    let basic = basic_patterns(number, centers);
    let kind = type_info_at(tbits, dim, 15);
    let gt = overlay(basic, kind);
    let g = function_patterns(number, centers, level_bits, mask_pattern);
    lemma_patterns_square(number, centers, level_bits, mask_pattern);
    assert(square(basic, dim)) by {
        crate::qrcode::encoder::cells::lemma_basic_square(number, centers);
    }
    let first = type_info_place(i);
    let second = type_info_second_place(i, dim);
    let v = bit_value(tbits[14 - i]);
    assert(kind(first.0, first.1) == Some(v)) by {
        assert(TypePlace::holds(i, dim, first.0, first.1));
        assert forall|j: int| 0 <= j < 15 && TypePlace::holds(j, dim, first.0, first.1) implies j
            == i by {}
    }
    assert(kind(second.0, second.1) == Some(v)) by {
        assert(TypePlace::holds(i, dim, second.0, second.1));
        assert forall|j: int| 0 <= j < 15 && TypePlace::holds(j, dim, second.0, second.1) implies j
            == i by {}
    }
    assert(gt[first.1][first.0] == v);
    assert(gt[second.1][second.0] == v);
    if number >= 7 {
        let version = version_info_at(version_info_bits(number), dim);
        assert(version(first.0, first.1) is None);
        assert(version(second.0, second.1) is None);
        assert(square(gt, dim));
    }
    assert(g[first.1][first.0] == v);
    assert(g[second.1][second.0] == v);
    let data = data_at(g, bits, mask_pattern, dim);
    assert(data(first.0, first.1) is None);
    assert(data(second.0, second.1) is None);
}

/// The format information of a symbol is read from it: a matrix that shows the symbol of
/// a level and a mask gives the five bits of format of that level and mask.
pub proof fn lemma_format_is_read(
    number: int,
    centers: Seq<usize>,
    level_bits: u32,
    mask_pattern: int,
    bits: Seq<bool>,
    matrix: BitMatrix,
)
    requires
        1 <= number <= 40,
        level_bits < 4,
        0 <= mask_pattern < 8,
        shows_modules(
            matrix,
            symbol_modules(number, centers, level_bits, mask_pattern, bits),
            4 * number + 17,
        ),
    ensures
        BitMatrixParser::spec_format(matrix, false) == Some(
            (level_bits << 3) | (mask_pattern as u32),
        ),
        ((((level_bits << 3) | (mask_pattern as u32)) >> 3) & 0x03) == level_bits,
        ((level_bits << 3) | (mask_pattern as u32)) & 0x07 == mask_pattern as u32,
{
    let dim = 4 * number + 17;
    let tbits = type_info_bits(level_bits, mask_pattern);
    let data: u32 = (level_bits << 3) | (mask_pattern as u32);
    lemma_format_parts(level_bits, mask_pattern as u32);
    lemma_type_info_is_the_code(level_bits, mask_pattern);
    lemma_code_is_decoded(data);
    let first = first_copy_bits(matrix, false, 15);
    let second = second_copy_bits(matrix, false, 15);
    assert forall|k: int| 0 <= k < 15 implies first[k] == tbits[k] && second[k] == tbits[k] by {
        lemma_type_cells(number, centers, level_bits, mask_pattern, bits, 14 - k);
        assert(first_copy_place(k) == type_info_place(14 - k));
        assert(second_copy_place(k, dim) == type_info_second_place(14 - k, dim));
    }
    assert(first =~= tbits);
    assert(second =~= tbits);
}

/// The bits of a code of version information: the six bits of the number above the
/// twelve check bits.
proof fn lemma_version_code_bits(n: u32, c: u32, j: u32)
    by (bit_vector)
    requires
        n < 64,
        c < 4096,
        j < 18,
    ensures
        (n << 12u32) | c < 262144u32,
        j >= 12 ==> (((((n << 12u32) | c) >> j) & 1u32 == 1u32) == ((n >> ((j - 12u32) as u32))
            & 1u32 == 1u32)),
        j < 12 ==> (((((n << 12u32) | c) >> j) & 1u32 == 1u32) == ((c >> j) & 1u32 == 1u32)),
{
}

/// Codes of version information with the same bits stand for the same number, and two
/// readings differ in no bit only where they are the same.
proof fn lemma_version_code_tells(n: u32, c: u32, m: u32, f: u32)
    by (bit_vector)
    requires
        n < 64,
        c < 4096,
        m < 64,
        f < 4096,
    ensures
        ((n << 12u32) | c) == ((m << 12u32) | f) ==> n == m,
        ((n << 12u32) | c) ^ ((n << 12u32) | c) == 0u32,
        ((n << 12u32) | c) ^ ((m << 12u32) | f) == 0u32 ==> ((n << 12u32) | c) == ((m << 12u32)
            | f),
{
}

/// A number other than zero has a bit that is set.
pub proof fn lemma_some_bit_is_set(v: u32)
    requires
        v != 0,
    ensures
        count_ones(v) >= 1,
    decreases v,
{
    if v % 2 == 0 {
        lemma_some_bit_is_set(v / 2);
    }
}

/// Where a reading is the code of a version and of no other, that version is the nearest
/// as soon as it is among those that are looked at.
pub proof fn lemma_nearest_is_exact(reading: u32, number: int, n: nat)
    requires
        7 <= number <= 40,
        1 <= n <= 34,
        version_distance(reading, number) == 0,
        forall|m: int| 7 <= m <= 40 && m != number ==> #[trigger] version_distance(reading, m) > 0,
    ensures
        7 <= nearest_version(reading, n) < 7 + n,
        n >= number - 6 ==> nearest_version(reading, n) == number,
    decreases n,
{
    if n > 1 {
        lemma_nearest_is_exact(reading, number, (n - 1) as nat);
        let best = nearest_version(reading, (n - 1) as nat);
        if n + 6 == number {
            assert(version_distance(reading, best) > 0);
        } else if n + 6 > number {
            assert(version_distance(reading, n as int + 6) > 0);
        }
    }
}

/// The code of a version is read as its number.
pub proof fn lemma_version_code_is_decoded(number: int)
    requires
        7 <= number <= 40,
    ensures
        decoded_version(version_code(number)) == Some(number),
        version_code(number) < 262144,
{
    let reading = version_code(number);
    lemma_check_bits_fit(number as u32);
    let check = bch_code(number as u32, 0x1f25);
    lemma_version_code_bits(number as u32, check, 0);
    lemma_version_code_tells(number as u32, check, number as u32, check);
    assert(count_ones(0) == 0);
    assert forall|m: int| 7 <= m <= 40 && m != number implies #[trigger] version_distance(
        reading,
        m,
    ) > 0 by {
        lemma_check_bits_fit(m as u32);
        lemma_version_code_tells(number as u32, check, m as u32, bch_code(m as u32, 0x1f25));
        lemma_some_bit_is_set(reading ^ version_code(m));
    }
    lemma_nearest_is_exact(reading, number, 34);
}

/// The symbol of a version from 7 on shows the bits of its version information beside
/// the upper right position detection pattern, the highest first.
pub proof fn lemma_version_cells(
    number: int,
    centers: Seq<usize>,
    level_bits: u32,
    mask_pattern: int,
    bits: Seq<bool>,
    k: int,
)
    requires
        7 <= number <= 40,
        0 <= k < 18,
    ensures
        ({
            let dim = 4 * number + 17;
            let s = symbol_modules(number, centers, level_bits, mask_pattern, bits);
            let place = upper_version_place(k, dim);
            &&& 0 <= place.0 < dim && 0 <= place.1 < dim
            &&& s[place.1][place.0] == bit_value(version_info_bits(number)[k])
        }),
{
    let dim = 4 * number + 17;
    let basic = basic_patterns(number, centers);
    let gt = overlay(basic, type_info_at(type_info_bits(level_bits, mask_pattern), dim, 15));
    let g = function_patterns(number, centers, level_bits, mask_pattern);
    lemma_patterns_square(number, centers, level_bits, mask_pattern);
    crate::qrcode::encoder::cells::lemma_basic_square(number, centers);
    assert(square(gt, dim));
    let place = upper_version_place(k, dim);
    let version = version_info_at(version_info_bits(number), dim);
    assert(17 - (3 * place.1 + (place.0 - (dim - 11))) == k);
    assert(version(place.0, place.1) == Some(bit_value(version_info_bits(number)[k])));
    assert(g[place.1][place.0] == bit_value(version_info_bits(number)[k]));
    let data = data_at(g, bits, mask_pattern, dim);
    assert(data(place.0, place.1) is None);
}

/// The version of a symbol is read from it: a matrix that shows the symbol of a version
/// gives the number of the version.
pub proof fn lemma_version_is_read(
    number: int,
    centers: Seq<usize>,
    level_bits: u32,
    mask_pattern: int,
    bits: Seq<bool>,
    matrix: BitMatrix,
)
    requires
        1 <= number <= 40,
        shows_modules(
            matrix,
            symbol_modules(number, centers, level_bits, mask_pattern, bits),
            4 * number + 17,
        ),
    ensures
        BitMatrixParser::spec_version(matrix, false) == Some(number),
{
    let dim = 4 * number + 17;
    assert(Versions::number_for_dimension(dim) == Some(number));
    if number >= 7 {
        let vbits = version_info_bits(number);
        let code = version_code(number);
        let check = bch_code(number as u32, 0x1f25);
        lemma_check_bits_fit(number as u32);
        lemma_version_code_is_decoded(number);
        let read = version_copy_bits(matrix, false, true, 18);
        assert forall|k: int| 0 <= k < 18 implies read[k] == low_bits(code, 18)[k] by {
            lemma_version_cells(number, centers, level_bits, mask_pattern, bits, k);
            lemma_version_code_bits(number as u32, check, (17 - k) as u32);
        }
        assert(read =~= low_bits(code, 18));
        lemma2_to64();
        lemma_low_bits_value(code, 18);
    }
}

} // verus!
