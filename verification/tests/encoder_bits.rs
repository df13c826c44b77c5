use hbar_core::common::bit_array::BitArray;
use hbar_core::common::charset::Charset;
use hbar_core::error::Error;
use hbar_core::qrcode::decoder::error_correction_level::ErrorCorrectionLevel;
use hbar_core::qrcode::decoder::mode::Mode;
use hbar_core::qrcode::decoder::version::Versions;
use hbar_core::qrcode::encoder::byte_matrix::ByteMatrix;
use hbar_core::qrcode::encoder::encoder::Encoder;
use hbar_core::qrcode::encoder::matrix_util::MatrixUtil;
use hbar_core::EncodeHints;

fn show(bits: &BitArray) -> String {
    let mut s = String::new();
    for i in 0..bits.get_size() {
        if i % 8 == 0 {
            s.push(' ');
        }
        s.push(if bits.get(i) { 'X' } else { '.' });
    }
    s
}

fn numeric(text: &str) -> String {
    let mut bits = BitArray::new();
    let chars: Vec<char> = text.chars().collect();
    Encoder::append_numeric_bytes(&chars, &mut bits);
    show(&bits)
}

fn alphanumeric(text: &str) -> String {
    let mut bits = BitArray::new();
    let chars: Vec<char> = text.chars().collect();
    Encoder::append_alphanumeric_bytes(&chars, &mut bits);
    show(&bits)
}

#[test]
fn numeric_digits_are_packed_by_three() {
    assert_eq!(numeric("1"), " ...X");
    assert_eq!(numeric("12"), " ...XX..");
    assert_eq!(numeric("123"), " ...XXXX. XX");
    assert_eq!(numeric("1234"), " ...XXXX. XX.X..");
    assert_eq!(numeric(""), "");
}

#[test]
fn alphanumeric_characters_are_packed_by_two() {
    assert_eq!(alphanumeric("A"), " ..X.X.");
    assert_eq!(alphanumeric("AB"), " ..XXX..X X.X");
    assert_eq!(alphanumeric("ABC"), " ..XXX..X X.X..XX. .");
    assert_eq!(alphanumeric(""), "");
}

#[test]
fn bytes_take_eight_bits_each() {
    let mut bits = BitArray::new();
    assert!(Encoder::append_8bit_bytes("abc", &mut bits, &Charset::ISO8859_1).is_ok());
    assert_eq!(show(&bits), " .XX....X .XX...X. .XX...XX");
    let mut bits = BitArray::new();
    assert!(matches!(
        Encoder::append_8bit_bytes("\u{3042}", &mut bits, &Charset::ISO8859_1),
        Err(Error::WriterException(_))
    ));
}

#[test]
fn append_bytes_refuses_what_the_mode_cannot_hold() {
    let mut bits = BitArray::new();
    assert!(matches!(
        Encoder::append_bytes("a", &Mode::Numeric, &mut bits, &Charset::ISO8859_1),
        Err(Error::WriterException(_))
    ));
    let mut bits = BitArray::new();
    assert!(matches!(
        Encoder::append_bytes("a", &Mode::Alphanumeric, &mut bits, &Charset::ISO8859_1),
        Err(Error::WriterException(_))
    ));
    let mut bits = BitArray::new();
    assert!(matches!(
        Encoder::append_bytes("A", &Mode::Kanji, &mut bits, &Charset::ISO8859_1),
        Err(Error::WriterException(_))
    ));
    let mut bits = BitArray::new();
    assert!(matches!(
        Encoder::append_bytes("A", &Mode::ECI, &mut bits, &Charset::ISO8859_1),
        Err(Error::WriterException(_))
    ));
}

#[test]
fn modes_are_chosen_for_the_text() {
    let encoder = Encoder::new();
    let c = Charset::ISO8859_1;
    assert_eq!(encoder.choose_mode("0", &c).unwrap(), Mode::Numeric);
    assert_eq!(encoder.choose_mode("0123456789", &c).unwrap(), Mode::Numeric);
    assert_eq!(encoder.choose_mode("A", &c).unwrap(), Mode::Alphanumeric);
    assert_eq!(
        encoder.choose_mode("0123456789ABCDEFGHIJKLMNOPQRSTUVWXYZ $%*+-./:", &c).unwrap(),
        Mode::Alphanumeric
    );
    assert_eq!(encoder.choose_mode("a", &c).unwrap(), Mode::Byte);
    assert_eq!(encoder.choose_mode("#", &c).unwrap(), Mode::Byte);
    assert_eq!(encoder.choose_mode("HELLO WORLD", &c).unwrap(), Mode::Alphanumeric);
    // Two characters with the Shift_JIS codes 935F and E4AA.
    assert_eq!(encoder.choose_mode("\u{70b9}\u{8317}", &c).unwrap(), Mode::Kanji);
    assert!(encoder.is_only_double_byte_kanji("\u{70b9}\u{8317}"));
    assert!(encoder.is_only_double_byte_kanji("\u{70b9}"));
    // A character that Shift_JIS does not hold, one that takes a single byte there, and
    // one that takes a single byte behind one that takes two.
    assert!(!encoder.is_only_double_byte_kanji("\u{1041}\u{1041}"));
    assert!(!encoder.is_only_double_byte_kanji("\u{ff71}"));
    assert!(!encoder.is_only_double_byte_kanji("\u{70b9}A"));
    assert_eq!(encoder.choose_mode("\u{70b9}A", &c).unwrap(), Mode::Byte);
    assert!(!encoder.is_only_double_byte_kanji("AB"));
    assert!(encoder.is_only_double_byte_kanji(""));
    assert!(Encoder::are_kanji_bytes(&vec![0x93, 0x5F, 0xE4, 0xAA]));
    assert!(Encoder::are_kanji_bytes(&vec![0x81, 0x00, 0x9F, 0xFF, 0xE0, 0x40, 0xEB, 0x7F]));
    assert!(!Encoder::are_kanji_bytes(&vec![0x93, 0x5F, 0xE4]));
    assert!(!Encoder::are_kanji_bytes(&vec![0x80, 0x5F]));
    assert!(!Encoder::are_kanji_bytes(&vec![0xA0, 0x5F]));
    assert!(!Encoder::are_kanji_bytes(&vec![0xEC, 0x5F]));
}

#[test]
fn alphanumeric_codes() {
    assert_eq!(Encoder::_get_alphanumeric_code('0' as u32), 0);
    assert_eq!(Encoder::_get_alphanumeric_code('9' as u32), 9);
    assert_eq!(Encoder::_get_alphanumeric_code('A' as u32), 10);
    assert_eq!(Encoder::_get_alphanumeric_code('Z' as u32), 35);
    assert_eq!(Encoder::_get_alphanumeric_code(' ' as u32), 36);
    assert_eq!(Encoder::_get_alphanumeric_code('$' as u32), 37);
    assert_eq!(Encoder::_get_alphanumeric_code('%' as u32), 38);
    assert_eq!(Encoder::_get_alphanumeric_code('*' as u32), 39);
    assert_eq!(Encoder::_get_alphanumeric_code('+' as u32), 40);
    assert_eq!(Encoder::_get_alphanumeric_code('-' as u32), 41);
    assert_eq!(Encoder::_get_alphanumeric_code('.' as u32), 42);
    assert_eq!(Encoder::_get_alphanumeric_code('/' as u32), 43);
    assert_eq!(Encoder::_get_alphanumeric_code(':' as u32), 44);
    assert_eq!(Encoder::_get_alphanumeric_code('a' as u32), -1);
    assert_eq!(Encoder::_get_alphanumeric_code('#' as u32), -1);
    assert_eq!(Encoder::_get_alphanumeric_code(0), -1);
    assert_eq!(Encoder::_get_alphanumeric_code(0x3042), -1);
}

fn terminate(start: usize, bytes: usize) -> String {
    let mut bits = BitArray::new();
    for _ in 0..start {
        bits.append_bit(false);
    }
    assert!(Encoder::terminate_bits(bytes, &mut bits).is_ok());
    show(&bits)
}

#[test]
fn bits_are_ended_and_filled() {
    assert_eq!(terminate(0, 0), "");
    assert_eq!(terminate(0, 1), " ........");
    assert_eq!(terminate(3, 1), " ........");
    assert_eq!(terminate(5, 1), " ........");
    assert_eq!(terminate(8, 1), " ........");
    assert_eq!(terminate(0, 2), " ........ XXX.XX..");
    assert_eq!(terminate(1, 3), " ........ XXX.XX.. ...X...X");
    let mut bits = BitArray::new();
    for _ in 0..9 {
        bits.append_bit(true);
    }
    assert!(matches!(Encoder::terminate_bits(1, &mut bits), Err(Error::WriterException(_))));
    assert_eq!(bits.get_size(), 9);
}

#[test]
fn length_info_has_the_width_of_the_version() {
    let versions = Versions::new();
    let mut bits = BitArray::new();
    let v1 = versions.get_version_for_number(1).unwrap();
    assert!(Encoder::append_length_info(1, v1, &Mode::Numeric, &mut bits).is_ok());
    assert_eq!(show(&bits), " ........ .X");
    let mut bits = BitArray::new();
    let v10 = versions.get_version_for_number(10).unwrap();
    assert!(Encoder::append_length_info(2, v10, &Mode::Alphanumeric, &mut bits).is_ok());
    assert_eq!(show(&bits), " ........ .X.");
    let mut bits = BitArray::new();
    let v27 = versions.get_version_for_number(27).unwrap();
    assert!(Encoder::append_length_info(255, v27, &Mode::Byte, &mut bits).is_ok());
    assert_eq!(show(&bits), " ........ XXXXXXXX");
    let mut bits = BitArray::new();
    assert!(matches!(
        Encoder::append_length_info(256, v1, &Mode::Byte, &mut bits),
        Err(Error::WriterException(_))
    ));
}

#[test]
fn error_correction_codewords_of_a_block() {
    let data: Vec<u8> = vec![32, 65, 205, 69, 41, 220, 46, 128, 236];
    let ec = Encoder::generate_ec_bytes(&data, 17).unwrap();
    let expected: Vec<u8> =
        vec![42, 159, 74, 221, 244, 169, 239, 150, 138, 70, 237, 85, 224, 96, 74, 219, 61];
    assert_eq!(ec, expected);
    let data: Vec<u8> = vec![67, 70, 22, 38, 54, 70, 86, 102, 118, 134, 150, 166, 182, 198, 214];
    let ec = Encoder::generate_ec_bytes(&data, 18).unwrap();
    let expected: Vec<u8> = vec![
        175, 80, 155, 64, 178, 45, 214, 233, 65, 209, 12, 155, 117, 31, 140, 214, 27, 187,
    ];
    assert_eq!(ec, expected);
    assert!(matches!(
        Encoder::generate_ec_bytes(&data, 0),
        Err(Error::IllegalArgumentException(_))
    ));
    assert!(matches!(
        Encoder::generate_ec_bytes(&Vec::new(), 4),
        Err(Error::IllegalArgumentException(_))
    ));
}

#[test]
fn block_sizes() {
    // Version 1-H.
    assert_eq!(
        Encoder::get_num_data_bytes_and_num_ec_bytes_for_block_id(26, 9, 1, 0).unwrap(),
        (9, 17)
    );
    // Version 3-H: two blocks.
    assert_eq!(
        Encoder::get_num_data_bytes_and_num_ec_bytes_for_block_id(70, 26, 2, 0).unwrap(),
        (13, 22)
    );
    assert_eq!(
        Encoder::get_num_data_bytes_and_num_ec_bytes_for_block_id(70, 26, 2, 1).unwrap(),
        (13, 22)
    );
    // Version 7-H: four blocks of the shorter kind and one of the longer.
    assert_eq!(
        Encoder::get_num_data_bytes_and_num_ec_bytes_for_block_id(196, 66, 5, 0).unwrap(),
        (13, 26)
    );
    assert_eq!(
        Encoder::get_num_data_bytes_and_num_ec_bytes_for_block_id(196, 66, 5, 4).unwrap(),
        (14, 26)
    );
    // Version 40-H.
    assert_eq!(
        Encoder::get_num_data_bytes_and_num_ec_bytes_for_block_id(3706, 1276, 81, 0).unwrap(),
        (15, 30)
    );
    assert_eq!(
        Encoder::get_num_data_bytes_and_num_ec_bytes_for_block_id(3706, 1276, 81, 20).unwrap(),
        (16, 30)
    );
    assert_eq!(
        Encoder::get_num_data_bytes_and_num_ec_bytes_for_block_id(3706, 1276, 81, 80).unwrap(),
        (16, 30)
    );
    assert!(matches!(
        Encoder::get_num_data_bytes_and_num_ec_bytes_for_block_id(26, 9, 1, 1),
        Err(Error::WriterException(_))
    ));
}

fn bytes_of(bits: &BitArray) -> Vec<u8> {
    let n = bits.get_size_in_bytes();
    let mut out = vec![0u8; n];
    bits.to_bytes(0, &mut out, 0, n);
    out
}

#[test]
fn codewords_of_one_block_are_followed_by_their_error_correction() {
    let data: Vec<u8> = vec![32, 65, 205, 69, 41, 220, 46, 128, 236];
    let mut bits = BitArray::new();
    Encoder::append_byte_values(&data, &mut bits);
    let out = Encoder::interleave_with_ec_bytes(&bits, 26, 9, 1).unwrap();
    let expected: Vec<u8> = vec![
        32, 65, 205, 69, 41, 220, 46, 128, 236, 42, 159, 74, 221, 244, 169, 239, 150, 138, 70,
        237, 85, 224, 96, 74, 219, 61,
    ];
    assert_eq!(bytes_of(&out), expected);
}

#[test]
fn codewords_of_several_blocks_are_taken_in_turn() {
    // Version 5-H: 134 codewords, 46 of them data, in four blocks of 11, 11, 12 and 12.
    let data: Vec<u8> = (0..46u8).collect();
    let mut bits = BitArray::new();
    Encoder::append_byte_values(&data, &mut bits);
    let out = bytes_of(&Encoder::interleave_with_ec_bytes(&bits, 134, 46, 4).unwrap());
    assert_eq!(out.len(), 134);
    let blocks: Vec<Vec<u8>> =
        vec![data[0..11].to_vec(), data[11..22].to_vec(), data[22..34].to_vec(), data[34..46].to_vec()];
    let mut expected: Vec<u8> = Vec::new();
    for i in 0..12 {
        for b in blocks.iter() {
            if i < b.len() {
                expected.push(b[i]);
            }
        }
    }
    for i in 0..22 {
        for b in blocks.iter() {
            expected.push(Encoder::generate_ec_bytes(b, 22).unwrap()[i]);
        }
    }
    assert_eq!(out, expected);
    assert_eq!(&out[0..8], &[0, 11, 22, 34, 1, 12, 23, 35]);
    assert_eq!(&out[44..46], &[33, 45]);
}

#[test]
fn bits_that_do_not_fill_the_data_codewords_are_refused() {
    let data: Vec<u8> = vec![32, 65, 205];
    let mut bits = BitArray::new();
    Encoder::append_byte_values(&data, &mut bits);
    assert!(matches!(
        Encoder::interleave_with_ec_bytes(&bits, 26, 9, 1),
        Err(Error::WriterException(_))
    ));
    assert!(matches!(
        Encoder::interleave_with_ec_bytes(&bits, 26, 3, 0),
        Err(Error::WriterException(_))
    ));
    assert!(matches!(
        Encoder::interleave_with_ec_bytes(&bits, 26, 3, 2),
        Err(Error::WriterException(_))
    ));
}

#[test]
fn a_single_digit_takes_version_one() {
    let encoder = Encoder::new();
    let code = encoder.encode("1", ErrorCorrectionLevel::L).unwrap();
    assert_eq!(code.get_version().get_version_number(), 1);
    assert_eq!(*code.get_mode(), Mode::Numeric);
    assert_eq!(*code.get_ec_level(), ErrorCorrectionLevel::L);
    assert_eq!(code.get_matrix().get_width(), 21);
    assert_eq!(code.get_matrix().get_height(), 21);
}

#[test]
fn too_much_data_is_too_big() {
    let encoder = Encoder::new();
    // Version 40-L holds 7089 digits.
    let fits: String = std::iter::repeat('7').take(7089).collect();
    let code = encoder.encode(&fits, ErrorCorrectionLevel::L).unwrap();
    assert_eq!(code.get_version().get_version_number(), 40);
    let too_big: String = std::iter::repeat('7').take(7090).collect();
    assert!(matches!(
        encoder.encode(&too_big, ErrorCorrectionLevel::L),
        Err(Error::WriterException(_))
    ));
    let far_too_big: String = std::iter::repeat('7').take(20000).collect();
    assert!(matches!(
        encoder.encode(&far_too_big, ErrorCorrectionLevel::L),
        Err(Error::WriterException(_))
    ));
}

#[test]
fn versions_are_the_smallest_that_hold_the_bits() {
    let encoder = Encoder::new();
    let l = ErrorCorrectionLevel::L;
    // Version 1-L has 19 data codewords, 152 bits.
    assert_eq!(encoder.choose_version(152, &l).unwrap().get_version_number(), 1);
    assert_eq!(encoder.choose_version(153, &l).unwrap().get_version_number(), 2);
    // Version 40-L has 2956 data codewords.
    assert_eq!(encoder.choose_version(2956 * 8, &l).unwrap().get_version_number(), 40);
    assert!(matches!(encoder.choose_version(2956 * 8 + 1, &l), Err(Error::WriterException(_))));
    let h = ErrorCorrectionLevel::H;
    assert_eq!(encoder.choose_version(72, &h).unwrap().get_version_number(), 1);
    assert_eq!(encoder.choose_version(73, &h).unwrap().get_version_number(), 2);
    assert_eq!(encoder.choose_version(1276 * 8, &h).unwrap().get_version_number(), 40);
}

#[test]
fn hello_world_is_a_version_one_symbol() {
    let encoder = Encoder::new();
    let code = encoder.encode("HELLO WORLD", ErrorCorrectionLevel::L).unwrap();
    assert_eq!(code.get_version().get_version_number(), 1);
    assert_eq!(*code.get_mode(), Mode::Alphanumeric);
    let matrix = code.get_matrix();
    assert_eq!(matrix.get_width(), 21);
    for y in 0..21 {
        for x in 0..21 {
            let v = matrix.get(x, y);
            assert!(v == 0 || v == 1);
        }
    }
    // The corners of the three position detection patterns and the dark module.
    assert_eq!(matrix.get(0, 0), 1);
    assert_eq!(matrix.get(20, 0), 1);
    assert_eq!(matrix.get(0, 20), 1);
    assert_eq!(matrix.get(1, 1), 0);
    assert_eq!(matrix.get(3, 3), 1);
    assert_eq!(matrix.get(7, 7), 0);
    assert_eq!(matrix.get(8, 13), 1);
    // The timing patterns.
    for i in 8..13 {
        assert_eq!(matrix.get(i, 6), ((i + 1) % 2) as i8);
        assert_eq!(matrix.get(6, i), ((i + 1) % 2) as i8);
    }
}

#[test]
fn the_chosen_mask_has_the_least_penalty() {
    let encoder = Encoder::new();
    let hints = EncodeHints::new();
    let (_, version, bits) =
        encoder.assemble_bits("HELLO WORLD", ErrorCorrectionLevel::L, &hints).unwrap();
    let final_bits = Encoder::interleave_with_ec_bytes(&bits, 26, 19, 1).unwrap();
    let mut matrix = ByteMatrix::new(21, 21);
    let level = ErrorCorrectionLevel::L;
    let chosen =
        Encoder::choose_mask_pattern(&final_bits, &level, version, &mut matrix).unwrap();
    let again = Encoder::choose_mask_pattern(&final_bits, &level, version, &mut matrix).unwrap();
    assert_eq!(chosen, again);
    let mut penalties = Vec::new();
    for mask in 0..8 {
        MatrixUtil::build_matrix(&final_bits, &level, version, mask, &mut matrix).unwrap();
        penalties.push(Encoder::calculate_mask_penalty(&matrix));
    }
    for mask in 0..8usize {
        assert!(penalties[chosen as usize] <= penalties[mask]);
        if mask < chosen as usize {
            assert!(penalties[chosen as usize] < penalties[mask]);
        }
    }
    let code = encoder.encode("HELLO WORLD", ErrorCorrectionLevel::L).unwrap();
    assert_eq!(code.get_mask_pattern(), chosen);
}

#[test]
fn hints_name_version_and_mask() {
    let encoder = Encoder::new();
    let mut hints = EncodeHints::new();
    hints.qr_version = Some(7);
    hints.qr_mask_pattern = Some(3);
    let code = encoder.encode_hints("HELLO WORLD", ErrorCorrectionLevel::Q, &hints).unwrap();
    assert_eq!(code.get_version().get_version_number(), 7);
    assert_eq!(code.get_mask_pattern(), 3);
    assert_eq!(code.get_matrix().get_width(), 45);
    hints.qr_version = Some(41);
    assert!(matches!(
        encoder.encode_hints("HELLO WORLD", ErrorCorrectionLevel::Q, &hints),
        Err(Error::WriterException(_))
    ));
    hints.qr_version = Some(1);
    let long: String = std::iter::repeat('A').take(100).collect();
    assert!(matches!(
        encoder.encode_hints(&long, ErrorCorrectionLevel::Q, &hints),
        Err(Error::WriterException(_))
    ));
    let mut hints = EncodeHints::new();
    hints.character_set = Some(Charset::UTF8);
    assert!(encoder.encode_hints("hello", ErrorCorrectionLevel::L, &hints).is_ok());
    assert!(encoder.encode_hints("HELLO", ErrorCorrectionLevel::L, &hints).is_ok());
    // A character that the character set does not hold.
    hints.character_set = Some(Charset::ASCII);
    assert!(matches!(
        encoder.encode_hints("caf\u{e9}", ErrorCorrectionLevel::L, &hints),
        Err(Error::WriterException(_))
    ));
    assert!(matches!(
        encoder.encode("\u{20ac}", ErrorCorrectionLevel::L),
        Err(Error::WriterException(_))
    ));
    let mut hints = EncodeHints::new();
    hints.gs1_format = true;
    assert!(encoder.encode_hints("0101234567890128", ErrorCorrectionLevel::L, &hints).is_ok());
}

#[test]
fn a_seven_is_a_numeric_symbol_of_version_one() {
    let encoder = Encoder::new();
    let code = encoder.encode("7", ErrorCorrectionLevel::L).unwrap();
    assert_eq!(code.get_version().get_version_number(), 1);
    assert_eq!(*code.get_mode(), Mode::Numeric);
    assert_eq!(code.get_matrix().get_width(), 21);
    assert_eq!(code.get_matrix().get_height(), 21);
    assert!((0..8).contains(&code.get_mask_pattern()));
}

#[test]
fn plain_text_is_no_kanji() {
    let encoder = Encoder::new();
    // Two characters give two bytes in Shift_JIS, which are no double-byte Kanji.
    assert_eq!(encoder.choose_mode("AB", &Charset::ISO8859_1).unwrap(), Mode::Alphanumeric);
    assert_eq!(encoder.choose_mode("12", &Charset::ISO8859_1).unwrap(), Mode::Numeric);
    assert_eq!(encoder.choose_mode("ab", &Charset::ISO8859_1).unwrap(), Mode::Byte);
    let mut bits = BitArray::new();
    assert!(matches!(
        Encoder::append_bytes("AB", &Mode::Kanji, &mut bits, &Charset::ISO8859_1),
        Err(Error::WriterException(_))
    ));
}

#[test]
fn every_version_and_level_gives_a_symbol() {
    let encoder = Encoder::new();
    let levels = [
        ErrorCorrectionLevel::L,
        ErrorCorrectionLevel::M,
        ErrorCorrectionLevel::Q,
        ErrorCorrectionLevel::H,
    ];
    for number in [1usize, 2, 6, 7, 14, 21, 28, 35, 40] {
        for level in levels {
            let mut hints = EncodeHints::new();
            hints.qr_version = Some(number);
            let code = encoder.encode_hints("HELLO", level, &hints).unwrap();
            assert_eq!(code.get_version().get_version_number(), number);
            let side = 4 * number + 17;
            let matrix = code.get_matrix();
            assert_eq!(matrix.get_width(), side);
            assert_eq!(matrix.get_height(), side);
            for y in 0..side {
                for x in 0..side {
                    let v = matrix.get(x, y);
                    assert!(v == 0 || v == 1);
                }
            }
        }
    }
}

#[test]
fn the_blocks_and_centers_of_the_versions() {
    let versions = Versions::new();
    // Version 1: 26 codewords, one block at every level, no alignment pattern.
    let one = versions.get_version_for_number(1).unwrap();
    assert_eq!(one.get_total_codewords(), 26);
    assert!(one.get_alignment_pattern_centers().is_empty());
    let l = one.get_ec_blocks_for_level(&ErrorCorrectionLevel::L);
    assert_eq!(l.get_ec_codewords_per_block(), 7);
    assert_eq!(l.get_num_blocks(), 1);
    assert_eq!(l.get_ec_blocks()[0].get_data_codewords(), 19);
    let h = one.get_ec_blocks_for_level(&ErrorCorrectionLevel::H);
    assert_eq!(h.get_ec_codewords_per_block(), 17);
    assert_eq!(h.get_ec_blocks()[0].get_data_codewords(), 9);
    // Version 7 has its centers at 6, 22 and 38.
    let seven = versions.get_version_for_number(7).unwrap();
    assert_eq!(*seven.get_alignment_pattern_centers(), vec![6, 22, 38]);
    assert_eq!(seven.get_total_codewords(), 196);
    // Version 40: 3706 codewords; at level L 19 blocks of 118 and 6 of 119 data codewords.
    let forty = versions.get_version_for_number(40).unwrap();
    assert_eq!(forty.get_total_codewords(), 3706);
    assert_eq!(*forty.get_alignment_pattern_centers(), vec![6, 30, 58, 86, 114, 142, 170]);
    let l = forty.get_ec_blocks_for_level(&ErrorCorrectionLevel::L);
    assert_eq!(l.get_ec_codewords_per_block(), 30);
    assert_eq!(l.get_num_blocks(), 25);
    assert_eq!(l.get_ec_blocks()[0].get_count(), 19);
    assert_eq!(l.get_ec_blocks()[0].get_data_codewords(), 118);
    assert_eq!(l.get_ec_blocks()[1].get_count(), 6);
    assert_eq!(l.get_ec_blocks()[1].get_data_codewords(), 119);
    assert_eq!(3706 - 30 * 25, 2956);
}
