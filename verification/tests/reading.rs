use hbar_core::common::bit_matrix::BitMatrix;
use hbar_core::common::bit_source::BitSource;
use hbar_core::common::charset::{text_of_bytes, text_of_chars, Charset};
use hbar_core::common::hybrid_binarizer::HybridBinarizer;
use hbar_core::decode_hint_type::DecodeHints;
use hbar_core::error::Error;
use hbar_core::luminance_source::LuminanceSource;
use hbar_core::qrcode::decoder::bit_matrix_parser::BitMatrixParser;
use hbar_core::qrcode::decoder::data_block::DataBlock;
use hbar_core::qrcode::decoder::decoded_bit_stream_parser::DecodedBitStreamParser;
use hbar_core::qrcode::decoder::decoder::Decoder;
use hbar_core::qrcode::decoder::error_correction_level::ErrorCorrectionLevel;
use hbar_core::qrcode::decoder::mode::Mode;
use hbar_core::qrcode::decoder::version::Versions;
use hbar_core::qrcode::encoder::encoder::Encoder;
use hbar_core::qrcode::qrcode_reader::QRCodeReader;
use hbar_core::qrcode::qrcode_writer::QRCodeWriter;
use hbar_core::{BarcodeFormat, BinaryBitmap, EncodeHints, Writer};

struct Grey {
    width: usize,
    height: usize,
    levels: Vec<u8>,
}

impl LuminanceSource for Grey {
    fn get_row(&self, y: usize, _row: &Vec<u8>) -> Result<Vec<u8>, Error> {
        Ok(self.levels[y * self.width..(y + 1) * self.width].to_vec())
    }

    fn get_matrix(&self) -> Result<Vec<u8>, Error> {
        Ok(self.levels.clone())
    }

    fn get_width(&self) -> usize {
        self.width
    }

    fn get_height(&self) -> usize {
        self.height
    }

    fn is_crop_supported(&self) -> bool {
        true
    }

    fn is_rotate_supported(&self) -> bool {
        false
    }

    fn crop(&self, left: usize, top: usize, width: usize, height: usize) -> Result<Grey, Error> {
        if left + width > self.width || top + height > self.height {
            return Err(Error::IllegalArgumentException("outside".to_owned()));
        }
        let mut levels = Vec::new();
        for y in top..top + height {
            levels.extend_from_slice(&self.levels[y * self.width + left..y * self.width + left + width]);
        }
        Ok(Grey { width, height, levels })
    }
}

fn no_hints() -> DecodeHints {
    DecodeHints::build_hints(false, false, true)
}

fn modules_under(text: &str, level: ErrorCorrectionLevel, hints: &EncodeHints) -> BitMatrix {
    let encoder = Encoder::new();
    let code = encoder.encode_hints(text, level, hints).unwrap();
    let matrix = code.get_matrix();
    let mut m = BitMatrix::new2(matrix.get_width(), matrix.get_height()).unwrap();
    for y in 0..matrix.get_height() {
        for x in 0..matrix.get_width() {
            if matrix.get(x, y) == 1 {
                m.set(x, y);
            }
        }
    }
    m
}

fn modules(text: &str, level: ErrorCorrectionLevel) -> BitMatrix {
    modules_under(text, level, &EncodeHints::new())
}

fn flipped(m: &BitMatrix, places: &[(usize, usize)]) -> BitMatrix {
    let mut r = BitMatrix::new2(m.get_width(), m.get_height()).unwrap();
    for y in 0..m.get_height() {
        for x in 0..m.get_width() {
            if m.get(x, y) != places.contains(&(x, y)) {
                r.set(x, y);
            }
        }
    }
    r
}

/// The bytes that the bits spell, filled up with zero bits.
fn bytes_of(bits: &str) -> Vec<u8> {
    let digits: Vec<u8> =
        bits.bytes().filter(|b| *b == b'0' || *b == b'1').map(|b| b - b'0').collect();
    let mut bytes = Vec::new();
    for chunk in digits.chunks(8) {
        let mut byte = 0u8;
        for k in 0..8 {
            byte = 2 * byte + if k < chunk.len() { chunk[k] } else { 0 };
        }
        bytes.push(byte);
    }
    bytes
}

fn read(bits: &str, number: usize) -> Result<hbar_core::common::decoder_result::DecoderResult, Error> {
    let versions = Versions::new();
    let version = versions.get_version_for_number(number).unwrap();
    DecodedBitStreamParser::decode(bytes_of(bits), version, &ErrorCorrectionLevel::M, &no_hints())
}

fn text_of(bits: &str, number: usize) -> String {
    read(bits, number).unwrap().getText().clone()
}

#[test]
fn a_rendered_symbol_is_read_back() {
    let writer = QRCodeWriter::new();
    let image = writer.encode("HELLO WORLD", &BarcodeFormat::QRCode, 150, 150).unwrap();
    let mut levels = Vec::new();
    for y in 0..image.get_height() {
        for x in 0..image.get_width() {
            levels.push(if image.get(x, y) { 0u8 } else { 255u8 });
        }
    }
    let source = Grey { width: 150, height: 150, levels };
    let mut bitmap = BinaryBitmap::new(HybridBinarizer::new(source));
    let reader = QRCodeReader::new();
    let result = reader.decode_bitmap(&mut bitmap, &no_hints()).unwrap();
    assert_eq!(result.getText(), "HELLO WORLD");
    assert_eq!(result.getECLevel(), "L");
    assert_eq!(result.getSymbologyModifier(), 1);
    assert!(!result.hasStructuredAppend());
    assert_eq!(result.getRawBytes().len(), 19);
    assert_eq!(result.getNumBits(), 19 * 8);
    assert!(result.getByteSegments().is_empty());
    let direct = reader.decode_matrix(&image, &no_hints()).unwrap();
    assert_eq!(direct.getText(), "HELLO WORLD");
}

#[test]
fn an_image_without_a_symbol_is_not_read() {
    let reader = QRCodeReader::new();
    let blank = BitMatrix::new2(60, 60).unwrap();
    assert!(matches!(
        reader.decode_matrix(&blank, &no_hints()),
        Err(Error::NotFoundException(_))
    ));
    // A black square is found and sampled, and is no symbol.
    let mut square = BitMatrix::new2(60, 60).unwrap();
    assert!(square.set_region(10, 10, 42, 42).is_ok());
    assert!(reader.decode_matrix(&square, &no_hints()).is_err());
}

#[test]
fn what_was_encoded_is_decoded() {
    let decoder = Decoder::new();
    let levels = [
        ErrorCorrectionLevel::L,
        ErrorCorrectionLevel::M,
        ErrorCorrectionLevel::Q,
        ErrorCorrectionLevel::H,
    ];
    let texts = [
        "0",
        "12",
        "01234567",
        "0123456789012345678901234567890123456789",
        "A",
        "AC-42",
        "HELLO WORLD",
        "THE QUICK BROWN FOX JUMPS OVER THE LAZY DOG 0123456789 $%*+-./:",
        "a",
        "hello, world",
        "It was the best of times, it was the worst of times, it was the age of wisdom.",
        "caf\u{e9} \u{fc}ber \u{a3}5",
    ];
    for level in levels {
        for text in texts {
            let m = modules(text, level);
            let result = decoder.decode(&m).unwrap();
            assert_eq!(result.getText(), text);
            assert_eq!(result.getECLevel(), &level.name());
        }
    }
}

#[test]
fn symbols_of_every_version_are_decoded() {
    let decoder = Decoder::new();
    for number in 1..=40usize {
        let mut hints = EncodeHints::new();
        hints.qr_version = Some(number);
        let text = format!("VERSION {}", number);
        for mask in [0, 3, 7] {
            hints.qr_mask_pattern = Some(mask);
            let m = modules_under(&text, ErrorCorrectionLevel::Q, &hints);
            assert_eq!(m.get_width(), 17 + 4 * number);
            let parser = BitMatrixParser::new(&m).unwrap();
            let versions = Versions::new();
            assert_eq!(parser.readVersion(&versions).unwrap().get_version_number(), number);
            let result = decoder.decode(&m).unwrap();
            assert_eq!(result.getText(), &text);
        }
    }
}

#[test]
fn a_full_symbol_is_decoded() {
    let decoder = Decoder::new();
    let digits: String = (0..7089).map(|i| char::from(b'0' + (i % 10) as u8)).collect();
    let m = modules(&digits, ErrorCorrectionLevel::L);
    assert_eq!(m.get_width(), 177);
    assert_eq!(decoder.decode(&m).unwrap().getText(), &digits);
    let letters: String = (0..1273).map(|i| char::from(b'a' + (i % 26) as u8)).collect();
    let m = modules(&letters, ErrorCorrectionLevel::H);
    assert_eq!(m.get_width(), 177);
    let result = decoder.decode(&m).unwrap();
    assert_eq!(result.getText(), &letters);
    assert_eq!(result.getByteSegments().len(), 1);
    assert_eq!(result.getByteSegments()[0], letters.as_bytes());
}

#[test]
fn wrong_modules_are_made_good() {
    let decoder = Decoder::new();
    let m = modules("HELLO WORLD", ErrorCorrectionLevel::H);
    // Version 1 at the level H repairs eight codewords of its one block.
    let spoiled = flipped(&m, &[(20, 20), (20, 12), (18, 9), (16, 20), (14, 14), (12, 9), (10, 3)]);
    assert_eq!(decoder.decode(&spoiled).unwrap().getText(), "HELLO WORLD");
    // A wrong module of the format information as well.
    let spoiled = flipped(&m, &[(0, 8), (8, 20), (20, 20), (13, 13)]);
    assert_eq!(decoder.decode(&spoiled).unwrap().getText(), "HELLO WORLD");
    // Too many wrong codewords.
    let mut places = Vec::new();
    for y in 9..21 {
        for x in 9..21 {
            if (x + y) % 2 == 0 {
                places.push((x, y));
            }
        }
    }
    let spoiled = flipped(&m, &places);
    assert!(matches!(decoder.decode(&spoiled), Err(Error::ReedSolomonException(_))));
}

#[test]
fn a_mirrored_symbol_is_decoded() {
    let decoder = Decoder::new();
    for text in ["HELLO WORLD", "mirrored text, in bytes", "0123456789"] {
        let m = modules(text, ErrorCorrectionLevel::M);
        let mut mirrored = BitMatrix::new2(m.get_width(), m.get_height()).unwrap();
        for y in 0..m.get_height() {
            for x in 0..m.get_width() {
                if m.get(x, y) {
                    mirrored.set(y, x);
                }
            }
        }
        assert_eq!(decoder.decode(&mirrored).unwrap().getText(), text);
        assert!(decoder.decode_as(&mirrored, true, &no_hints()).is_ok());
    }
}

#[test]
fn matrices_that_are_no_symbols_are_refused() {
    let decoder = Decoder::new();
    let small = BitMatrix::new2(20, 20).unwrap();
    assert!(matches!(decoder.decode(&small), Err(Error::FormatException(_))));
    let oblong = BitMatrix::new2(21, 25).unwrap();
    assert!(matches!(decoder.decode(&oblong), Err(Error::FormatException(_))));
    let large = BitMatrix::new2(181, 181).unwrap();
    assert!(matches!(decoder.decode(&large), Err(Error::FormatException(_))));
    // Version 7 without its version information.
    let bare = BitMatrix::new2(45, 45).unwrap();
    assert!(matches!(decoder.decode(&bare), Err(Error::FormatException(_))));
    let parser = BitMatrixParser::new(&bare).unwrap();
    assert!(matches!(parser.readVersion(&Versions::new()), Err(Error::FormatException(_))));
}

#[test]
fn images_of_booleans_are_decoded() {
    let decoder = Decoder::new();
    let m = modules("HELLO WORLD", ErrorCorrectionLevel::L);
    let mut image: Vec<Vec<bool>> = Vec::new();
    for y in 0..21 {
        image.push((0..21).map(|x| m.get(x, y)).collect());
    }
    assert_eq!(decoder.decode_image(&image).unwrap().getText(), "HELLO WORLD");
    assert_eq!(
        decoder.decode_image_hints(&image, &no_hints()).unwrap().getText(),
        "HELLO WORLD"
    );
    let parsed = BitMatrix::parse_image(&image).unwrap();
    for y in 0..21 {
        for x in 0..21 {
            assert_eq!(parsed.get(x, y), m.get(x, y));
        }
    }
    let none: Vec<Vec<bool>> = Vec::new();
    assert!(matches!(decoder.decode_image(&none), Err(Error::IllegalArgumentException(_))));
    let empty: Vec<Vec<bool>> = vec![Vec::new()];
    assert!(matches!(BitMatrix::parse_image(&empty), Err(Error::IllegalArgumentException(_))));
    let ragged: Vec<Vec<bool>> = vec![vec![true, false], vec![true]];
    assert!(matches!(BitMatrix::parse_image(&ragged), Err(Error::IllegalArgumentException(_))));
}

#[test]
fn codes_of_the_version_information() {
    let codes: [u32; 34] = [
        0x07C94, 0x085BC, 0x09A99, 0x0A4D3, 0x0BBF6, 0x0C762, 0x0D847, 0x0E60D, 0x0F928, 0x10B78,
        0x1145D, 0x12A17, 0x13532, 0x149A6, 0x15683, 0x168C9, 0x177EC, 0x18EC4, 0x191E1, 0x1AFAB,
        0x1B08E, 0x1CC1A, 0x1D33F, 0x1ED75, 0x1F250, 0x209D5, 0x216F0, 0x228BA, 0x2379F, 0x24B0B,
        0x2542E, 0x26A64, 0x27541, 0x28C69,
    ];
    let versions = Versions::new();
    for number in 7..=40u32 {
        let code = codes[(number - 7) as usize];
        assert_eq!(Versions::code_of(number), code);
        let read = |bits: u32| versions.decode_version_information(bits).map(|v| v.get_version_number());
        assert_eq!(read(code), Some(number as usize));
        assert_eq!(read(code ^ 0x1), Some(number as usize));
        assert_eq!(read(code ^ 0x20200), Some(number as usize));
        assert_eq!(read(code ^ 0x10101), Some(number as usize));
    }
    // Four bits off the code of version 7, which is eight bits and more from every
    // other code.
    assert!(versions.decode_version_information(0x07C94 ^ 0x0F).is_none());
    assert_eq!(
        versions.get_provisional_version_for_dimension(21).unwrap().get_version_number(),
        1
    );
    assert_eq!(
        versions.get_provisional_version_for_dimension(177).unwrap().get_version_number(),
        40
    );
    for dimension in [0usize, 17, 20, 22, 23, 24, 181] {
        assert!(matches!(
            versions.get_provisional_version_for_dimension(dimension),
            Err(Error::FormatException(_))
        ));
    }
}

#[test]
fn codewords_go_back_to_their_blocks() {
    let versions = Versions::new();
    // Version 5 at the level Q: two blocks of 15 and two of 16 data codewords, with 18
    // codewords of error correction each.
    let version = versions.get_version_for_number(5).unwrap();
    let codewords: Vec<u8> = (0..134u32).map(|i| i as u8).collect();
    let blocks = DataBlock::getDataBlocks(&codewords, version, &ErrorCorrectionLevel::Q).unwrap();
    assert_eq!(blocks.len(), 4);
    for (k, block) in blocks.iter().enumerate() {
        let data = if k < 2 { 15 } else { 16 };
        assert_eq!(block.getNumDataCodewords(), data);
        assert_eq!(block.getCodewords().len(), data + 18);
        for i in 0..15 {
            assert_eq!(block.getCodewords()[i] as usize, 4 * i + k);
        }
        if k >= 2 {
            assert_eq!(block.getCodewords()[15] as usize, 60 + k - 2);
        }
        for i in 0..18 {
            assert_eq!(block.getCodewords()[data + i] as usize, 62 + 4 * i + k);
        }
    }
    let short: Vec<u8> = vec![0; 133];
    assert!(matches!(
        DataBlock::getDataBlocks(&short, version, &ErrorCorrectionLevel::Q),
        Err(Error::IllegalArgumentException(_))
    ));
    // What the encoder puts in turn comes back block by block.
    let data: Vec<u8> = (0..62u32).map(|i| (7 * i + 3) as u8).collect();
    let mut bits = hbar_core::common::bit_array::BitArray::new();
    for byte in data.iter() {
        bits.append_bits(*byte as u32, 8).unwrap();
    }
    let sent = Encoder::interleave_with_ec_bytes(&bits, 134, 62, 4).unwrap();
    let mut sent_bytes = vec![0u8; 134];
    sent.to_bytes(0, &mut sent_bytes, 0, 134);
    let bytes = Decoder::correct_blocks(&sent_bytes, version, &ErrorCorrectionLevel::Q).unwrap();
    assert_eq!(bytes, data);
    sent_bytes[0] ^= 0xFF;
    sent_bytes[4] ^= 0x01;
    sent_bytes[133] ^= 0x80;
    let bytes = Decoder::correct_blocks(&sent_bytes, version, &ErrorCorrectionLevel::Q).unwrap();
    assert_eq!(bytes, data);
}

#[test]
fn bits_are_read_in_runs() {
    let bytes: Vec<u8> = vec![0b1010_0101, 0xFF, 0x00, 0x81, 0x7E];
    let mut source = BitSource::new(&bytes);
    assert_eq!(source.available(), 40);
    assert_eq!(source.readBits(1).unwrap(), 1);
    assert_eq!(source.readBits(3).unwrap(), 0b010);
    assert_eq!(source.getBitOffset(), 4);
    assert_eq!(source.getByteOffset(), 0);
    assert_eq!(source.readBits(8).unwrap(), 0b0101_1111);
    assert_eq!(source.available(), 28);
    assert!(matches!(source.readBits(0), Err(Error::IllegalArgumentException(_))));
    assert!(matches!(source.readBits(33), Err(Error::IllegalArgumentException(_))));
    assert!(matches!(source.readBits(29), Err(Error::IllegalArgumentException(_))));
    assert_eq!(source.available(), 28);
    assert_eq!(source.readBits(28).unwrap(), 0xF00_817E);
    assert_eq!(source.available(), 0);
    assert_eq!(source.getByteOffset(), 5);
    let words: Vec<u8> = vec![0xDE, 0xAD, 0xBE, 0xEF];
    let mut source = BitSource::new(&words);
    assert_eq!(source.readBits(32).unwrap(), 0xDEAD_BEEF);
}

#[test]
fn the_modes_of_the_four_bits() {
    for mode in [
        Mode::Terminator,
        Mode::Numeric,
        Mode::Alphanumeric,
        Mode::StructuredAppend,
        Mode::Byte,
        Mode::ECI,
        Mode::Kanji,
        Mode::Fnc1FirstPosition,
        Mode::Fnc1SecondPosition,
        Mode::Hanzi,
    ] {
        assert_eq!(Mode::forBits(mode.get_bits()).unwrap(), mode);
    }
    for bits in [0x06u32, 0x0A, 0x0B, 0x0C, 0x0E, 0x0F, 0x10] {
        assert!(matches!(Mode::forBits(bits), Err(Error::IllegalArgumentException(_))));
    }
}

#[test]
fn numeric_segments() {
    // The example of the standard: 01234567 in version 1.
    assert_eq!(text_of("0001 0000001000 0000001100 0101011001 1000011 0000", 1), "01234567");
    assert_eq!(text_of("0001 0000000001 0111 0000", 1), "7");
    assert_eq!(text_of("0001 0000000010 0001100 0000", 1), "12");
    assert_eq!(text_of("0001 0000000011 1111100111 0000", 1), "999");
    assert_eq!(text_of("0001 0000000011 0000000001 0000", 1), "001");
    // The character count takes twelve bits from version 10 on and fourteen from 27 on.
    assert_eq!(text_of("0001 000000000010 0101010 0000", 10), "42");
    assert_eq!(text_of("0001 00000000000010 0101010 0000", 27), "42");
    // A group that spells too great a number.
    assert!(matches!(read("0001 0000000011 1111101000 0000", 1), Err(Error::FormatException(_))));
    assert!(matches!(read("0001 0000000010 1100100 0000", 1), Err(Error::FormatException(_))));
    assert!(matches!(read("0001 0000000001 1010 0000", 1), Err(Error::FormatException(_))));
    // Bits that end too early.
    assert!(matches!(read("0001 0000001000 0000001100", 1), Err(Error::FormatException(_))));
    assert!(matches!(read("0001 00000010", 1), Err(Error::FormatException(_))));
}

#[test]
fn alphanumeric_segments() {
    // The example of the standard: AC-42 in version 1.
    assert_eq!(text_of("0010 000000101 00111001110 11100111001 000010 0000", 1), "AC-42");
    assert_eq!(text_of("0010 000000001 101100 0000", 1), ":");
    assert_eq!(text_of("0010 000000010 11111010000 0000", 1), ":K");
    // 45 * 45 and more stands for no two characters, 45 and more for no character.
    assert!(matches!(read("0010 000000010 11111101001 0000", 1), Err(Error::FormatException(_))));
    assert!(matches!(read("0010 000000001 101101 0000", 1), Err(Error::FormatException(_))));
    assert!(matches!(read("0010 000000101 00111001110", 1), Err(Error::FormatException(_))));
    // Under FNC1 a percent sign is the separator, and two of them are one.
    // A % B and A %% B: the numbers 10, 38, 11.
    let single = read("0101 0010 000000011 00111101000 001011 0000", 1).unwrap();
    assert_eq!(single.getText(), "A\u{1d}B");
    assert_eq!(single.getSymbologyModifier(), 3);
    let double = read("0101 0010 000000100 00111101000 11010111001 0000", 1).unwrap();
    assert_eq!(double.getText(), "A%B");
    let plain = read("0010 000000011 00111101000 001011 0000", 1).unwrap();
    assert_eq!(plain.getText(), "A%B");
    assert_eq!(plain.getSymbologyModifier(), 1);
    assert_eq!(DecodedBitStreamParser::toAlphaNumericChar(0).unwrap(), '0');
    assert_eq!(DecodedBitStreamParser::toAlphaNumericChar(35).unwrap(), 'Z');
    assert_eq!(DecodedBitStreamParser::toAlphaNumericChar(36).unwrap(), ' ');
    assert_eq!(DecodedBitStreamParser::toAlphaNumericChar(44).unwrap(), ':');
    assert!(DecodedBitStreamParser::toAlphaNumericChar(45).is_err());
    let raw: Vec<char> = "%A%%%B%".chars().collect();
    let expanded: String = DecodedBitStreamParser::expand_fnc1(&raw).into_iter().collect();
    assert_eq!(expanded, "\u{1d}A%\u{1d}B\u{1d}");
}

#[test]
fn byte_segments() {
    let result = read("0100 00000011 11110001 11110010 11110011 0000", 1).unwrap();
    assert_eq!(result.getText(), "\u{f1}\u{f2}\u{f3}");
    assert_eq!(result.getByteSegments(), &vec![vec![0xF1u8, 0xF2, 0xF3]]);
    assert_eq!(result.getRawBytes(), &bytes_of("0100 00000011 11110001 11110010 11110011 0000"));
    // Sixteen bits of character count from version 10 on.
    assert_eq!(text_of("0100 0000000000000001 01000001 0000", 10), "A");
    assert!(matches!(read("0100 00000011 11110001 11110010", 1), Err(Error::FormatException(_))));
    // The character set of the hints.
    let versions = Versions::new();
    let version = versions.get_version_for_number(1).unwrap();
    let mut hints = no_hints();
    hints.character_set = Some(Charset::UTF8);
    let euro = bytes_of("0100 00000011 11100010 10000010 10101100 0000");
    let result =
        DecodedBitStreamParser::decode(euro.clone(), version, &ErrorCorrectionLevel::H, &hints)
            .unwrap();
    assert_eq!(result.getText(), "\u{20ac}");
    assert_eq!(result.getECLevel(), "H");
    hints.character_set = Some(Charset::ASCII);
    assert!(matches!(
        DecodedBitStreamParser::decode(euro, version, &ErrorCorrectionLevel::H, &hints),
        Err(Error::FormatException(_))
    ));
    // Two segments one behind the other.
    let result = read("0001 0000000010 0001100 0100 00000001 01100001 0000", 1).unwrap();
    assert_eq!(result.getText(), "12a");
    assert_eq!(result.getByteSegments().len(), 1);
    // Fewer than four bits are an end as well.
    assert_eq!(text_of("0100 00000001 01100001 000", 1), "a");
    assert_eq!(text_of("", 1), "");
    assert_eq!(text_of("0000 0100 00000001 01100001", 1), "");
}

#[test]
fn extended_channel_interpretations() {
    // UTF-8 has the number 26.
    let result = read("0111 00011010 0100 00000011 11100010 10000010 10101100 0000", 1).unwrap();
    assert_eq!(result.getText(), "\u{20ac}");
    assert_eq!(result.getSymbologyModifier(), 2);
    // ISO 8859-1 has the numbers 1 and 3.
    assert_eq!(text_of("0111 00000011 0100 00000001 11101001 0000", 1), "\u{e9}");
    assert_eq!(text_of("0111 00000001 0100 00000001 11101001 0000", 1), "\u{e9}");
    // ASCII has the numbers 27 and 170; 170 takes two bytes.
    assert_eq!(text_of("0111 00011011 0100 00000001 01000001 0000", 1), "A");
    assert_eq!(text_of("0111 10000000 10101010 0100 00000001 01000001 0000", 1), "A");
    assert!(matches!(
        read("0111 00011011 0100 00000001 11101001 0000", 1),
        Err(Error::FormatException(_))
    ));
    // GBK has the number 29.
    assert_eq!(text_of("0111 00011101 0100 00000010 10110000 10100010 0000", 1), "\u{963f}");
    // The number 26 in three bytes.
    assert_eq!(
        text_of("0111 11000000 00000000 00011010 0100 00000001 01000001 0000", 1),
        "A"
    );
    // A number that names no character set here, and a wrong beginning.
    assert!(matches!(
        read("0111 11000001 00000000 00000001 0000", 1),
        Err(Error::FormatException(_))
    ));
    assert!(matches!(read("0111 00000010 0000", 1), Err(Error::FormatException(_))));
    assert!(matches!(read("0111 11100000 0000", 1), Err(Error::FormatException(_))));
    assert!(matches!(read("0111 1000", 1), Err(Error::FormatException(_))));
    // Bytes that are no UTF-8.
    assert!(matches!(
        read("0111 00011010 0100 00000001 11100010 0000", 1),
        Err(Error::FormatException(_))
    ));
    let mut bits = bytes_of("00011010 10000000 10101010 11000001 00000000 00000001 11100000");
    bits.push(0);
    let mut source = BitSource::new(&bits);
    assert_eq!(DecodedBitStreamParser::parseECIValue(&mut source).unwrap(), 26);
    assert_eq!(DecodedBitStreamParser::parseECIValue(&mut source).unwrap(), 170);
    assert_eq!(DecodedBitStreamParser::parseECIValue(&mut source).unwrap(), 65537);
    assert!(DecodedBitStreamParser::parseECIValue(&mut source).is_err());
    assert_eq!(DecodedBitStreamParser::charset_for_eci(26), Some(Charset::UTF8));
    assert_eq!(DecodedBitStreamParser::charset_for_eci(3), Some(Charset::ISO8859_1));
    assert_eq!(DecodedBitStreamParser::charset_for_eci(27), Some(Charset::ASCII));
    assert_eq!(DecodedBitStreamParser::charset_for_eci(29), Some(Charset::GBK));
    assert_eq!(DecodedBitStreamParser::charset_for_eci(2), None);
}

#[test]
fn kanji_and_hanzi_segments() {
    // The example of the standard: the characters with the Shift JIS codes 935F and E4AA.
    assert_eq!(text_of("1000 00000010 0110110011111 1101010101010 0000", 1), "\u{70b9}\u{8317}");
    assert!(matches!(
        read("1000 00000010 0110110011111 1101010", 1),
        Err(Error::FormatException(_))
    ));
    // The subset 1 and the character with the GB 2312 code B0A2.
    assert_eq!(text_of("1101 0001 00000001 0001111000001 0000", 1), "\u{963f}");
    // Another subset is passed over.
    assert_eq!(text_of("1101 0010 00000001 0000", 1), "");
    let bytes = bytes_of("0110110011111 1101010101010");
    let mut source = BitSource::new(&bytes);
    assert_eq!(
        DecodedBitStreamParser::read_double_bytes(&mut source, 2, false).unwrap(),
        vec![0x93, 0x5F, 0xE4, 0xAA]
    );
    let bytes = bytes_of("0001111000001 000");
    let mut source = BitSource::new(&bytes);
    assert_eq!(
        DecodedBitStreamParser::read_double_bytes(&mut source, 1, true).unwrap(),
        vec![0xB0, 0xA2]
    );
}

#[test]
fn structured_append_and_fnc1() {
    let result = read("0011 00100001 10100101 0001 0000000001 0111 0000", 1).unwrap();
    assert!(result.hasStructuredAppend());
    assert_eq!(result.getStructuredAppendSequenceNumber(), 0x21);
    assert_eq!(result.getStructuredAppendParity(), 0xA5);
    assert_eq!(result.getText(), "7");
    assert!(matches!(read("0011 00100001 1010", 1), Err(Error::FormatException(_))));
    // FNC1 in second position, with the application indicators 37 and "a".
    let result = read("1001 00100101 0001 0000000001 0111 0000", 1).unwrap();
    assert_eq!(result.getText(), "377");
    assert_eq!(result.getSymbologyModifier(), 5);
    let result = read("1001 11000101 0001 0000000001 0111 0000", 1).unwrap();
    assert_eq!(result.getText(), "a7");
    assert!(matches!(read("1001 01100100 0000", 1), Err(Error::FormatException(_))));
    assert!(matches!(read("1001 0010", 1), Err(Error::FormatException(_))));
    // With an extended channel interpretation the modifier is one more.
    assert_eq!(read("0101 0111 00011010 0000", 1).unwrap().getSymbologyModifier(), 4);
    assert_eq!(read("1001 00100101 0111 00011010 0000", 1).unwrap().getSymbologyModifier(), 6);
    // Bits that announce no mode.
    assert!(matches!(read("0110 00000000", 1), Err(Error::FormatException(_))));
    assert!(matches!(read("1111 00000000", 1), Err(Error::FormatException(_))));
}

#[test]
fn text_in_the_character_sets() {
    assert_eq!(Charset::ASCII.decode(&vec![0x41, 0x7F]).unwrap(), "A\u{7f}");
    assert!(matches!(Charset::ASCII.decode(&vec![0x41, 0x80]), Err(Error::FormatException(_))));
    assert_eq!(Charset::ISO8859_1.decode(&vec![0x41, 0xE9, 0xFF]).unwrap(), "A\u{e9}\u{ff}");
    assert_eq!(Charset::UTF8.decode(&vec![0x41, 0xC3, 0xA9, 0xE2, 0x82, 0xAC]).unwrap(), "A\u{e9}\u{20ac}");
    assert_eq!(Charset::UTF8.decode(&vec![0xF0, 0x9F, 0x98, 0x80]).unwrap(), "\u{1f600}");
    for wrong in [
        vec![0x80u8],
        vec![0xC3],
        vec![0xC0, 0x80],
        vec![0xE0, 0x80, 0x80],
        vec![0xED, 0xA0, 0x80],
        vec![0xF4, 0x90, 0x80, 0x80],
        vec![0xFF],
    ] {
        assert!(matches!(Charset::UTF8.decode(&wrong), Err(Error::FormatException(_))));
    }
    assert_eq!(Charset::GBK.decode(&vec![0x41, 0xB0, 0xA2]).unwrap(), "A\u{963f}");
    assert!(matches!(Charset::GBK.decode(&vec![0xB0]), Err(Error::FormatException(_))));
    assert_eq!(Charset::UTF8.decode(&Vec::new()).unwrap(), "");
    assert_eq!(text_of_bytes(&vec![0x30, 0xFC]), "0\u{fc}");
    assert_eq!(text_of_chars(&vec!['a', '\u{20ac}']), "a\u{20ac}");
    // There and back.
    for charset in [Charset::ASCII, Charset::ISO8859_1, Charset::UTF8, Charset::GBK] {
        let bytes = charset.encode("Hello 42").unwrap();
        assert_eq!(charset.decode(&bytes).unwrap(), "Hello 42");
    }
    let bytes = Charset::GBK.encode("\u{963f}\u{4e2d}").unwrap();
    assert_eq!(bytes, vec![0xB0, 0xA2, 0xD6, 0xD0]);
    assert_eq!(Charset::GBK.decode(&bytes).unwrap(), "\u{963f}\u{4e2d}");
}

#[test]
fn text_in_a_named_character_set_is_decoded() {
    let decoder = Decoder::new();
    let text = "\u{20ac}5 caf\u{e9} \u{4e2d}\u{6587}";
    let mut hints = EncodeHints::new();
    hints.character_set = Some(Charset::UTF8);
    let m = modules_under(text, ErrorCorrectionLevel::M, &hints);
    let result = decoder.decode(&m).unwrap();
    assert_eq!(result.getText(), text);
    // The extended channel interpretation makes the modifier 2.
    assert_eq!(result.getSymbologyModifier(), 2);
    assert_eq!(result.getByteSegments()[0], text.as_bytes());
    hints.character_set = Some(Charset::GBK);
    let m = modules_under("\u{4e2d}\u{6587} ok", ErrorCorrectionLevel::Q, &hints);
    assert_eq!(decoder.decode(&m).unwrap().getText(), "\u{4e2d}\u{6587} ok");
    hints.character_set = Some(Charset::ASCII);
    let m = modules_under("plain text", ErrorCorrectionLevel::H, &hints);
    let result = decoder.decode(&m).unwrap();
    assert_eq!(result.getText(), "plain text");
    assert_eq!(result.getSymbologyModifier(), 2);
    // The character set that a reader takes for granted is not named.
    hints.character_set = Some(Charset::ISO8859_1);
    let m = modules_under("caf\u{e9}", ErrorCorrectionLevel::L, &hints);
    let result = decoder.decode(&m).unwrap();
    assert_eq!(result.getText(), "caf\u{e9}");
    assert_eq!(result.getSymbologyModifier(), 1);
    // Text in the GS1 format.
    let mut hints = EncodeHints::new();
    hints.gs1_format = true;
    let m = modules_under("0101234567890128", ErrorCorrectionLevel::L, &hints);
    let result = decoder.decode(&m).unwrap();
    assert_eq!(result.getText(), "0101234567890128");
    assert_eq!(result.getSymbologyModifier(), 3);
    let m = modules_under("10ABC%21XYZ", ErrorCorrectionLevel::L, &hints);
    assert_eq!(decoder.decode(&m).unwrap().getText(), "10ABC\u{1d}21XYZ");
}

#[test]
fn the_header_names_the_character_set() {
    let bits = |mode: Mode, gs1: bool, encoding: Charset| {
        let header = Encoder::make_header(&mode, gs1, &encoding, &Charset::ISO8859_1);
        (0..header.get_size()).map(|i| if header.get(i) { '1' } else { '0' }).collect::<String>()
    };
    assert_eq!(bits(Mode::Byte, false, Charset::ISO8859_1), "0100");
    assert_eq!(bits(Mode::Byte, false, Charset::UTF8), "0111000110100100");
    assert_eq!(bits(Mode::Byte, false, Charset::ASCII), "0111000110110100");
    assert_eq!(bits(Mode::Byte, false, Charset::GBK), "0111000111010100");
    assert_eq!(bits(Mode::Byte, true, Charset::UTF8), "01110001101001010100");
    assert_eq!(bits(Mode::Numeric, false, Charset::UTF8), "0001");
    assert_eq!(bits(Mode::Alphanumeric, true, Charset::UTF8), "01010010");
}

#[test]
fn kanji_is_written_and_read() {
    // The example of the standard: thirteen bits for each of the two characters.
    let mut bits = hbar_core::common::bit_array::BitArray::new();
    Encoder::append_bytes("\u{70b9}\u{8317}", &Mode::Kanji, &mut bits, &Charset::ISO8859_1)
        .unwrap();
    let spelled: String =
        (0..bits.get_size()).map(|i| if bits.get(i) { '1' } else { '0' }).collect();
    assert_eq!(spelled, "01101100111111101010101010");
    let mut bits = hbar_core::common::bit_array::BitArray::new();
    Encoder::append_kanji_bytes(&vec![0x81, 0x40, 0x9F, 0xFC, 0xE0, 0x40, 0xEB, 0xBF], &mut bits)
        .unwrap();
    let spelled: String =
        (0..bits.get_size()).map(|i| if bits.get(i) { '1' } else { '0' }).collect();
    assert_eq!(
        spelled,
        "0000000000000".to_owned() + "1011100111100" + "1011101000000" + "1111111111111"
    );
    for wrong in [vec![0x81u8, 0x3F], vec![0x9F, 0xFD], vec![0xE0, 0x3F], vec![0xEB, 0xC0], vec![0x93]]
    {
        let mut bits = hbar_core::common::bit_array::BitArray::new();
        assert!(matches!(
            Encoder::append_kanji_bytes(&wrong, &mut bits),
            Err(Error::WriterException(_))
        ));
    }
    let decoder = Decoder::new();
    let encoder = Encoder::new();
    for text in ["\u{70b9}\u{8317}", "\u{65e5}\u{672c}\u{8a9e}", "\u{3042}\u{3044}\u{3046}"] {
        let code = encoder.encode(text, ErrorCorrectionLevel::M).unwrap();
        assert_eq!(*code.get_mode(), Mode::Kanji);
        let m = modules(text, ErrorCorrectionLevel::M);
        assert_eq!(decoder.decode(&m).unwrap().getText(), text);
    }
    // A text without a character is a Kanji segment without a character.
    let m = modules("", ErrorCorrectionLevel::L);
    assert_eq!(decoder.decode(&m).unwrap().getText(), "");
}

#[test]
fn a_part_of_an_image_is_read() {
    // The symbol lies in the lower right part of a larger white image.
    let writer = QRCodeWriter::new();
    let image = writer.encode("PART", &BarcodeFormat::QRCode, 87, 87).unwrap();
    let mut levels = vec![255u8; 200 * 150];
    for y in 0..87 {
        for x in 0..87 {
            if image.get(x, y) {
                levels[(y + 60) * 200 + x + 100] = 0;
            }
        }
    }
    // A black bar in the upper left part spoils the image as a whole.
    for y in 5..20 {
        for x in 5..60 {
            levels[y * 200 + x] = 0;
        }
    }
    let source = Grey { width: 200, height: 150, levels };
    let mut bitmap = BinaryBitmap::new(HybridBinarizer::new(source));
    assert_eq!(bitmap.get_width(), 200);
    assert_eq!(bitmap.get_height(), 150);
    assert!(bitmap.is_crop_supported().unwrap());
    let reader = QRCodeReader::new();
    assert!(reader.decode_bitmap(&mut bitmap, &no_hints()).is_err());
    let mut part = bitmap.crop(100, 60, 87, 87).unwrap();
    assert_eq!(part.get_width(), 87);
    assert_eq!(reader.decode_bitmap(&mut part, &no_hints()).unwrap().getText(), "PART");
    assert!(matches!(bitmap.crop(150, 60, 87, 87), Err(Error::IllegalArgumentException(_))));
    // A source that gives no part of itself, and none that is turned.
    let inverted = hbar_core::InvertedLuminanceSource::new(Grey {
        width: 2,
        height: 1,
        levels: vec![0, 255],
    });
    assert!(inverted.crop(0, 0, 1, 1).is_ok());
    assert!(matches!(
        inverted.rotate_counter_clockwise(),
        Err(Error::UnsupportedOperationException(_))
    ));
    assert!(matches!(
        inverted.rotate_counter_clockwise45(),
        Err(Error::UnsupportedOperationException(_))
    ));
}

#[test]
fn readers_are_chosen_by_the_hints() {
    let image = QRCodeWriter::new().encode("MULTI", &BarcodeFormat::QRCode, 60, 60).unwrap();
    let mut reader = hbar_core::MultiFormatReader::new();
    // Before any hints are given there is no reader.
    assert!(matches!(reader.decode_matrix(&image), Err(Error::NotFoundException(_))));
    reader.set_hints(DecodeHints::build_hints(false, false, true));
    assert_eq!(reader.decode_matrix(&image).unwrap().getText(), "MULTI");
    // The formats of the products have no reader.
    reader.set_hints(DecodeHints::build_hints(true, false, true));
    assert!(matches!(reader.decode_matrix(&image), Err(Error::NotFoundException(_))));
    // No format named: every reader is tried.
    let mut hints = DecodeHints::build_hints(false, true, true);
    hints.possible_formats = Vec::new();
    reader.set_hints(hints);
    assert_eq!(reader.decode_matrix(&image).unwrap().getText(), "MULTI");
    assert!(hbar_core::MultiFormatReader::contains(
        &vec![BarcodeFormat::Aztec, BarcodeFormat::QRCode],
        BarcodeFormat::QRCode
    ));
    assert!(!hbar_core::MultiFormatReader::contains(&vec![BarcodeFormat::Aztec], BarcodeFormat::QRCode));
    let blank = BitMatrix::new2(30, 30).unwrap();
    assert!(matches!(reader.decode_matrix(&blank), Err(Error::NotFoundException(_))));
    // What the reader says beyond the text.
    let result = reader.decode_matrix(&image).unwrap();
    let said = QRCodeReader::metadata(&result);
    assert_eq!(said.len(), 2);
    assert_eq!(said[0], (hbar_core::ResultMetadataType::ErrorCorrectionLevel, "L".to_owned()));
    assert_eq!(said[1], (hbar_core::ResultMetadataType::SymbologyIdentifier, "]Q1".to_owned()));
}

#[test]
fn plain_texts_come_back_from_their_images() {
    let writer = QRCodeWriter::new();
    let reader = QRCodeReader::new();
    let texts = ["7", "HELLO WORLD", "Hello, World!", "a~b|c", "2024-10-29 12:00"];
    for text in texts {
        for side in [40usize, 57, 200] {
            let image = writer.encode(text, &BarcodeFormat::QRCode, side, side).unwrap();
            assert!(image.get_width() >= 40);
            // The symbol is read from the image as it is.
            let direct = reader.decode_matrix(&image, &no_hints()).unwrap();
            assert_eq!(direct.getText(), text);
            // And from its grey levels, turned into black and white block by block.
            let mut levels = Vec::new();
            for y in 0..image.get_height() {
                for x in 0..image.get_width() {
                    levels.push(if image.get(x, y) { 0u8 } else { 255u8 });
                }
            }
            let turned = HybridBinarizer::<Grey>::black_matrix(
                &levels,
                image.get_width(),
                image.get_height(),
            )
            .unwrap();
            for y in 0..image.get_height() {
                for x in 0..image.get_width() {
                    assert_eq!(turned.get(x, y), image.get(x, y));
                }
            }
            assert_eq!(reader.decode_matrix(&turned, &no_hints()).unwrap().getText(), text);
        }
    }
}
