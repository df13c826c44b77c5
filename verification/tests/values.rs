use hbar_core::common::decoder_result::DecoderResult;
use hbar_core::common::reedsolomon::generic_gf::GenericGF;
use hbar_core::common::reedsolomon::generic_gf_poly::GenericGFPoly;
use hbar_core::common::SystemTimes;
use hbar_core::config::DecoderConfig;
use hbar_core::qrcode::decoder::error_correction_level::ErrorCorrectionLevel;
use hbar_core::qrcode::decoder::mode::Mode;
use hbar_core::qrcode::decoder::version::{ECBlocks, Version, Versions, ECB};
use hbar_core::qrcode::encoder::block_pair::BlockPair;
use hbar_core::qrcode::encoder::byte_matrix::ByteMatrix;
use hbar_core::qrcode::encoder::qrcode::QRCode;
use hbar_core::types::{
    char_to_u32, i32_to_u32, i32_to_u8, i32_to_usize, u32_to_i32, u32_to_u8, u32_to_usize,
    usize_to_i32, usize_to_u32,
};
use hbar_core::{BarcodeFormat, DecodeHintValue, DecodeHints, Error, ErrorKind};

#[test]
fn numbers_are_converted_where_they_fit() {
    assert_eq!(u32_to_u8(255).unwrap(), 255);
    assert!(matches!(u32_to_u8(256), Err(Error::TryFromIntError(_))));
    assert_eq!(u32_to_usize(u32::MAX).unwrap(), u32::MAX as usize);
    assert_eq!(u32_to_i32(0x7FFF_FFFF).unwrap(), i32::MAX);
    assert!(matches!(u32_to_i32(0x8000_0000), Err(Error::TryFromIntError(_))));
    assert_eq!(i32_to_u32(7).unwrap(), 7);
    assert!(matches!(i32_to_u32(-1), Err(Error::TryFromIntError(_))));
    assert_eq!(i32_to_u8(0).unwrap(), 0);
    assert_eq!(i32_to_u8(255).unwrap(), 255);
    assert!(matches!(i32_to_u8(256), Err(Error::TryFromIntError(_))));
    assert!(matches!(i32_to_u8(-1), Err(Error::TryFromIntError(_))));
    assert_eq!(i32_to_usize(12).unwrap(), 12);
    assert!(matches!(i32_to_usize(-12), Err(Error::TryFromIntError(_))));
    assert_eq!(usize_to_u32(12).unwrap(), 12);
    assert!(matches!(usize_to_u32(1 << 32), Err(Error::TryFromIntError(_))));
    assert_eq!(usize_to_i32(12).unwrap(), 12);
    assert!(matches!(usize_to_i32(1 << 31), Err(Error::TryFromIntError(_))));
    assert_eq!(char_to_u32('A').unwrap(), 65);
    assert_eq!(char_to_u32('\u{10FFFF}').unwrap(), 0x10FFFF);
}

#[test]
fn errors_have_a_kind_and_a_message() {
    let e = Error::NotFoundException("nothing".to_owned());
    assert_eq!(e.kind(), ErrorKind::NotFound);
    assert_eq!(e.message(), "nothing");
    assert_eq!(Error::FormatException(String::new()).kind(), ErrorKind::Format);
    assert_eq!(Error::WriterException(String::new()).kind(), ErrorKind::Writer);
    assert_eq!(Error::ReedSolomonException(String::new()).kind(), ErrorKind::ReedSolomon);
    assert_eq!(Error::IllegalStateException(String::new()).kind(), ErrorKind::IllegalState);
    assert_eq!(Error::ArithmeticException(String::new()).kind(), ErrorKind::Arithmetic);
    assert_eq!(Error::IllegalArgumentException(String::new()).kind(), ErrorKind::IllegalArgument);
    assert_eq!(Error::ImageErrorException(String::new()).kind(), ErrorKind::ImageError);
    assert_eq!(Error::TryFromIntError(String::new()).kind(), ErrorKind::TryFromInt);
    assert_eq!(Error::Infallible(String::new()).kind(), ErrorKind::Infallible);
    assert_eq!(
        Error::UnsupportedOperationException(String::new()).kind(),
        ErrorKind::UnsupportedOperation
    );
}

#[test]
fn a_division_that_makes_no_progress_is_given_up() {
    // With 0x100 for its polynomial the powers of 2 run into zero: this is no field, and
    // 3 has no inverse in it.
    let tables = GenericGF::new(0x100, 256, 0);
    assert_eq!(tables.exp(7).unwrap(), 128);
    assert_eq!(tables.exp(8).unwrap(), 0);
    let dividend = GenericGFPoly::new(&tables, vec![1, 0, 0]).unwrap();
    let divisor = GenericGFPoly::new(&tables, vec![3, 1]).unwrap();
    assert!(matches!(dividend.divide(&divisor), Err(Error::IllegalStateException(_))));
}

#[test]
fn results_of_the_decoder() {
    let plain = DecoderResult::new(
        vec![1, 2, 3],
        "text".to_owned(),
        vec![vec![9, 8]],
        "M".to_owned(),
    );
    assert_eq!(plain.getRawBytes(), &vec![1, 2, 3]);
    assert_eq!(plain.getNumBits(), 24);
    assert_eq!(plain.getText(), "text");
    assert_eq!(plain.getByteSegments(), &vec![vec![9u8, 8]]);
    assert_eq!(plain.getECLevel(), "M");
    assert!(!plain.hasStructuredAppend());
    assert_eq!(plain.getStructuredAppendParity(), -1);
    assert_eq!(plain.getStructuredAppendSequenceNumber(), -1);
    assert_eq!(plain.getSymbologyModifier(), 0);
    let modified = DecoderResult::new1(Vec::new(), String::new(), Vec::new(), String::new(), 5);
    assert_eq!(modified.getSymbologyModifier(), 5);
    assert_eq!(modified.getNumBits(), 0);
    assert!(!modified.hasStructuredAppend());
    let mut appended =
        DecoderResult::new2(vec![7], "a".to_owned(), Vec::new(), "H".to_owned(), 3, 200);
    assert!(appended.hasStructuredAppend());
    assert_eq!(appended.getStructuredAppendSequenceNumber(), 3);
    assert_eq!(appended.getStructuredAppendParity(), 200);
    assert_eq!(appended.getSymbologyModifier(), 0);
    appended.setNumBits(5);
    assert_eq!(appended.getNumBits(), 5);
    assert_eq!(appended.getRawBytes(), &vec![7]);
    let whole = DecoderResult::new3(vec![7], "a".to_owned(), Vec::new(), "H".to_owned(), 0, 0, 2);
    assert!(whole.hasStructuredAppend());
    assert_eq!(whole.getSymbologyModifier(), 2);
    // Only both numbers make a structured append.
    let half = DecoderResult::new2(vec![7], "a".to_owned(), Vec::new(), "H".to_owned(), 3, -1);
    assert!(!half.hasStructuredAppend());
}

#[test]
fn hints_for_decoding() {
    let all = DecodeHints::build_hints(false, true, false);
    assert_eq!(all.possible_formats.len(), 16);
    assert_eq!(all.possible_formats[0], BarcodeFormat::UpcA);
    assert_eq!(all.possible_formats[5], BarcodeFormat::RssExpanded);
    assert_eq!(all.possible_formats[6], BarcodeFormat::Code39);
    assert_eq!(all.possible_formats[10], BarcodeFormat::QRCode);
    assert_eq!(all.possible_formats[15], BarcodeFormat::MaxiCode);
    assert!(all.try_harder);
    assert!(!all.pure_barcode);
    assert!(all.character_set.is_none());
    let products = DecodeHints::build_hints(true, false, true);
    assert_eq!(
        products.possible_formats,
        vec![
            BarcodeFormat::UpcA,
            BarcodeFormat::UpcE,
            BarcodeFormat::Ean13,
            BarcodeFormat::Ean8,
            BarcodeFormat::RSS14,
            BarcodeFormat::RssExpanded,
        ]
    );
    assert!(products.pure_barcode);
    let config = DecoderConfig {
        try_harder: true,
        pure_barcode: false,
        products_only: true,
        dump_results: false,
        dump_black_point: false,
        multi: false,
        brief: false,
        output_raw: false,
        recursive: false,
        crop: Vec::new(),
        possible_formats: Vec::new(),
        input_paths: Vec::new(),
    };
    let hints = config.build_hints();
    assert!(hints.try_harder);
    assert!(!hints.pure_barcode);
    assert_eq!(hints.possible_formats.len(), 6);
    assert!(DecodeHintValue::BOOL(true).get_bool());
    assert!(!DecodeHintValue::BOOL(false).get_bool());
    assert_eq!(DecodeHintValue::VecI32(vec![1, -2]).get_vec_i32(), Some(&vec![1, -2]));
    assert_eq!(DecodeHintValue::BOOL(true).get_vec_i32(), None);
    assert_eq!(
        DecodeHintValue::VecBarcodeFormat(vec![BarcodeFormat::Aztec]).get_vec_barcode_format(),
        Some(&vec![BarcodeFormat::Aztec])
    );
    assert_eq!(DecodeHintValue::VecI32(Vec::new()).get_vec_barcode_format(), None);
}

#[test]
fn modes_and_their_character_counts() {
    assert_eq!(Mode::get_terminator(), Mode::Terminator);
    assert_eq!(Mode::get_numeric(), Mode::Numeric);
    assert_eq!(Mode::get_alphanumeric(), Mode::Alphanumeric);
    assert_eq!(Mode::get_structured_append(), Mode::StructuredAppend);
    assert_eq!(Mode::get_byte(), Mode::Byte);
    assert_eq!(Mode::get_eci(), Mode::ECI);
    assert_eq!(Mode::get_kanji(), Mode::Kanji);
    assert_eq!(Mode::get_fnc1_first_position(), Mode::Fnc1FirstPosition);
    assert_eq!(Mode::get_fnc1_second_position(), Mode::Fnc1SecondPosition);
    assert_eq!(Mode::get_hanzi(), Mode::Hanzi);
    assert_eq!(Mode::Terminator.get_bits(), 0x0);
    assert_eq!(Mode::Numeric.get_bits(), 0x1);
    assert_eq!(Mode::Alphanumeric.get_bits(), 0x2);
    assert_eq!(Mode::StructuredAppend.get_bits(), 0x3);
    assert_eq!(Mode::Byte.get_bits(), 0x4);
    assert_eq!(Mode::Fnc1FirstPosition.get_bits(), 0x5);
    assert_eq!(Mode::ECI.get_bits(), 0x7);
    assert_eq!(Mode::Kanji.get_bits(), 0x8);
    assert_eq!(Mode::Fnc1SecondPosition.get_bits(), 0x9);
    assert_eq!(Mode::Hanzi.get_bits(), 0xD);
    let versions = Versions::new();
    let widths = |mode: Mode| {
        [1usize, 9, 10, 26, 27, 40]
            .map(|n| mode.get_character_count_bits(versions.get_version_for_number(n).unwrap()))
    };
    assert_eq!(widths(Mode::Numeric), [10, 10, 12, 12, 14, 14]);
    assert_eq!(widths(Mode::Alphanumeric), [9, 9, 11, 11, 13, 13]);
    assert_eq!(widths(Mode::Byte), [8, 8, 16, 16, 16, 16]);
    assert_eq!(widths(Mode::Kanji), [8, 8, 10, 10, 12, 12]);
    assert_eq!(widths(Mode::Hanzi), [8, 8, 10, 10, 12, 12]);
    assert_eq!(widths(Mode::Terminator), [0, 0, 0, 0, 0, 0]);
    assert_eq!(widths(Mode::ECI), [0, 0, 0, 0, 0, 0]);
}

#[test]
fn the_table_of_the_versions() {
    let versions = Versions::new();
    assert!(matches!(versions.get_version_for_number(0), Err(Error::WriterException(_))));
    assert!(matches!(versions.get_version_for_number(41), Err(Error::WriterException(_))));
    let totals = [
        26usize, 44, 70, 100, 134, 172, 196, 242, 292, 346, 404, 466, 532, 581, 655, 733, 815, 901,
        991, 1085, 1156, 1258, 1364, 1474, 1588, 1706, 1828, 1921, 2051, 2185, 2323, 2465, 2611,
        2761, 2876, 3034, 3196, 3362, 3532, 3706,
    ];
    for number in 1..=40usize {
        let version = versions.get_version_for_number(number).unwrap();
        assert_eq!(version.get_version_number(), number);
        assert_eq!(version.get_dimension_for_version(), 17 + 4 * number);
        assert_eq!(version.get_total_codewords(), totals[number - 1]);
        for level in [
            ErrorCorrectionLevel::L,
            ErrorCorrectionLevel::M,
            ErrorCorrectionLevel::Q,
            ErrorCorrectionLevel::H,
        ] {
            let blocks = version.get_ec_blocks_for_level(&level);
            let mut count = 0;
            let mut codewords = 0;
            for run in blocks.get_ec_blocks() {
                count += run.get_count();
                codewords +=
                    run.get_count() * (run.get_data_codewords() + blocks.get_ec_codewords_per_block());
            }
            assert_eq!(blocks.get_num_blocks(), count);
            assert_eq!(codewords, totals[number - 1]);
            assert_eq!(
                blocks.get_total_ec_codewords(),
                count * blocks.get_ec_codewords_per_block()
            );
        }
    }
    let one = versions.get_version_for_number(1).unwrap();
    assert!(one.get_alignment_pattern_centers().is_empty());
    assert_eq!(one.get_ec_blocks_for_level(&ErrorCorrectionLevel::L).get_ec_codewords_per_block(), 7);
    assert_eq!(one.get_ec_blocks_for_level(&ErrorCorrectionLevel::H).get_ec_codewords_per_block(), 17);
    let seven = versions.get_version_for_number(7).unwrap();
    assert_eq!(seven.get_alignment_pattern_centers(), &vec![6, 22, 38]);
    let forty = versions.get_version_for_number(40).unwrap();
    assert_eq!(forty.get_alignment_pattern_centers(), &vec![6, 30, 58, 86, 114, 142, 170]);
    let low = forty.get_ec_blocks_for_level(&ErrorCorrectionLevel::L);
    assert_eq!(low.get_ec_codewords_per_block(), 30);
    assert_eq!(low.get_num_blocks(), 25);
    assert_eq!(low.get_ec_blocks()[0].get_count(), 19);
    assert_eq!(low.get_ec_blocks()[0].get_data_codewords(), 118);
    assert_eq!(low.get_ec_blocks()[1].get_count(), 6);
    assert_eq!(low.get_ec_blocks()[1].get_data_codewords(), 119);
    let run = ECB::new(2, 15);
    assert_eq!(run.get_count(), 2);
    assert_eq!(run.get_data_codewords(), 15);
    let blocks = ECBlocks::new(18, vec![ECB::new(2, 15), ECB::new(2, 16)]);
    assert_eq!(blocks.get_num_blocks(), 4);
    assert_eq!(blocks.get_total_ec_codewords(), 72);
}

#[test]
fn a_version_is_made_of_its_blocks() {
    let blocks = |ec: usize, count: usize, data: usize| ECBlocks::new(ec, vec![ECB::new(count, data)]);
    let version = Version::new(
        1,
        Vec::new(),
        vec![blocks(7, 1, 19), blocks(10, 1, 16), blocks(13, 1, 13), blocks(17, 1, 9)],
    );
    assert_eq!(version.get_version_number(), 1);
    assert_eq!(version.get_total_codewords(), 26);
    assert_eq!(version.get_dimension_for_version(), 21);
    assert_eq!(version.get_ec_blocks_for_level(&ErrorCorrectionLevel::Q).get_total_ec_codewords(), 13);
}

#[test]
fn pairs_of_blocks_and_descriptions_of_symbols() {
    let pair = BlockPair::new(vec![1, 2, 3], vec![4, 5]);
    assert_eq!(pair.get_data_bytes(), &vec![1, 2, 3]);
    assert_eq!(pair.get_error_correction_bytes(), &vec![4, 5]);
    let versions = Versions::new();
    let version = versions.get_version_for_number(2).unwrap();
    let matrix = ByteMatrix::new(25, 25);
    let code = QRCode::new(Mode::Byte, ErrorCorrectionLevel::Q, version, 5, matrix);
    assert_eq!(*code.get_mode(), Mode::Byte);
    assert_eq!(*code.get_ec_level(), ErrorCorrectionLevel::Q);
    assert_eq!(code.get_version().get_version_number(), 2);
    assert_eq!(code.get_mask_pattern(), 5);
    assert_eq!(code.get_matrix().get_width(), 25);
    for mask in 0..8 {
        assert!(QRCode::is_valid_mask_pattern(mask));
    }
    assert!(!QRCode::is_valid_mask_pattern(-1));
    assert!(!QRCode::is_valid_mask_pattern(8));
}

#[test]
fn the_clock_does_not_run_backwards() {
    let first = SystemTimes::timestamp();
    let second = SystemTimes::timestamp();
    // The time is that of today, in milliseconds.
    assert!(first > 1_500_000_000_000);
    assert!(second >= first);
}
