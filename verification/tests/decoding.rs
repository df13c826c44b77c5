use hbar_core::common::bit_matrix::BitMatrix;
use hbar_core::common::global_histogram_binarizer::GlobalHistogramBinarizer;
use hbar_core::common::hybrid_binarizer::HybridBinarizer;
use hbar_core::error::Error;
use hbar_core::inverted_luminance_source::InvertedLuminanceSource;
use hbar_core::luminance_source::LuminanceSource;
use hbar_core::qrcode::decoder::bit_matrix_parser::BitMatrixParser;
use hbar_core::qrcode::decoder::error_correction_level::ErrorCorrectionLevel;
use hbar_core::qrcode::decoder::format_information::FormatInformation;
use hbar_core::qrcode::encoder::encoder::Encoder;
use hbar_core::qrcode::qrcode_reader::QRCodeReader;
use hbar_core::qrcode::qrcode_writer::QRCodeWriter;
use hbar_core::{BarcodeFormat, Binarizer, EncodeHints, MultiFormatWriter, Writer};

struct Plain {
    width: usize,
    height: usize,
    levels: Vec<u8>,
}

impl LuminanceSource for Plain {
    fn get_row(&self, y: usize, _row: &Vec<u8>) -> Result<Vec<u8>, Error> {
        Ok(self.levels[y * self.width..(y + 1) * self.width].to_vec())
    }

    fn get_matrix(&self) -> Result<Vec<u8>, Error> {
        Ok(self.levels.clone())
    }

    fn get_width(&self) -> usize {
        self.width
    }

    fn get_height(&self) -> usize {
        self.height
    }

    fn is_crop_supported(&self) -> bool {
        false
    }

    fn is_rotate_supported(&self) -> bool {
        false
    }
}

const CODES: [u32; 32] = [
    0x5412, 0x5125, 0x5E7C, 0x5B4B, 0x45F9, 0x40CE, 0x4F97, 0x4AA0, 0x77C4, 0x72F3, 0x7DAA,
    0x789D, 0x662F, 0x6318, 0x6C41, 0x6976, 0x1689, 0x13BE, 0x1CE7, 0x19D0, 0x0762, 0x0255,
    0x0D0C, 0x083B, 0x355F, 0x3068, 0x3F31, 0x3A06, 0x24B4, 0x2183, 0x2EDA, 0x2BED,
];

#[test]
fn the_codes_of_the_format_information() {
    for data in 0..32u32 {
        assert_eq!(FormatInformation::code_of(data), CODES[data as usize]);
    }
}

#[test]
fn bits_differing() {
    assert_eq!(FormatInformation::numBitsDiffering(1, 1), 0);
    assert_eq!(FormatInformation::numBitsDiffering(0, 2), 1);
    assert_eq!(FormatInformation::numBitsDiffering(1, 2), 2);
    assert_eq!(FormatInformation::numBitsDiffering(0xFFFF_FFFF, 0), 32);
}

#[test]
fn format_information_is_read_through_errors() {
    // The level Q and the mask 7: the bits 11 and 111.
    let masked = 0x2BED;
    let expected = FormatInformation::decodeFormatInformation(masked, masked).unwrap().unwrap();
    assert_eq!(expected.getDataMask(), 0x07);
    assert_eq!(expected.getErrorCorrectionLevel(), ErrorCorrectionLevel::Q);
    // Without the mask.
    let unmasked = masked ^ 0x5412;
    assert_eq!(
        FormatInformation::decodeFormatInformation(unmasked, masked).unwrap().unwrap(),
        expected
    );
    // One, two and three wrong bits.
    assert_eq!(
        FormatInformation::decodeFormatInformation(masked ^ 0x01, masked ^ 0x01).unwrap().unwrap(),
        expected
    );
    assert_eq!(
        FormatInformation::decodeFormatInformation(masked ^ 0x03, masked ^ 0x03).unwrap().unwrap(),
        expected
    );
    assert_eq!(
        FormatInformation::decodeFormatInformation(masked ^ 0x07, masked ^ 0x07).unwrap().unwrap(),
        expected
    );
    // Four wrong bits are too many.
    assert!(FormatInformation::decodeFormatInformation(masked ^ 0x0F, masked ^ 0x0F)
        .unwrap()
        .is_none());
    // One of the two copies is enough.
    assert_eq!(
        FormatInformation::decodeFormatInformation(masked ^ 0x03, masked ^ 0x0F).unwrap().unwrap(),
        expected
    );
    assert_eq!(
        FormatInformation::doDecodeFormatInformation(masked, masked).unwrap().unwrap(),
        expected
    );
    assert_eq!(FormatInformation::new(0x1F).unwrap(), expected);
}

#[test]
fn the_level_of_the_two_bits() {
    for level in [
        ErrorCorrectionLevel::L,
        ErrorCorrectionLevel::M,
        ErrorCorrectionLevel::Q,
        ErrorCorrectionLevel::H,
    ] {
        assert_eq!(ErrorCorrectionLevel::forBits(level.get_bits()).unwrap(), level);
    }
    assert_eq!(ErrorCorrectionLevel::forBits(0).unwrap(), ErrorCorrectionLevel::M);
    assert_eq!(ErrorCorrectionLevel::forBits(1).unwrap(), ErrorCorrectionLevel::L);
    assert_eq!(ErrorCorrectionLevel::forBits(2).unwrap(), ErrorCorrectionLevel::H);
    assert_eq!(ErrorCorrectionLevel::forBits(3).unwrap(), ErrorCorrectionLevel::Q);
    assert!(matches!(ErrorCorrectionLevel::forBits(4), Err(Error::IllegalArgumentException(_))));
    assert_eq!(ErrorCorrectionLevel::L.ordinal(), 0);
    assert_eq!(ErrorCorrectionLevel::M.ordinal(), 1);
    assert_eq!(ErrorCorrectionLevel::Q.ordinal(), 2);
    assert_eq!(ErrorCorrectionLevel::H.ordinal(), 3);
    assert_eq!(ErrorCorrectionLevel::from("L").unwrap(), ErrorCorrectionLevel::L);
    assert_eq!(ErrorCorrectionLevel::from("M").unwrap(), ErrorCorrectionLevel::M);
    assert_eq!(ErrorCorrectionLevel::from("Q").unwrap(), ErrorCorrectionLevel::Q);
    assert_eq!(ErrorCorrectionLevel::from("H").unwrap(), ErrorCorrectionLevel::H);
    assert!(matches!(ErrorCorrectionLevel::from("l"), Err(Error::IllegalArgumentException(_))));
    assert!(matches!(ErrorCorrectionLevel::from(""), Err(Error::IllegalArgumentException(_))));
    assert!(matches!(ErrorCorrectionLevel::from("LL"), Err(Error::IllegalArgumentException(_))));
    assert!(ErrorCorrectionLevel::check(&String::from("l")));
    assert!(ErrorCorrectionLevel::check(&String::from("h")));
    assert!(!ErrorCorrectionLevel::check(&String::from("L")));
    assert!(!ErrorCorrectionLevel::check(&String::from("x")));
    assert!(!ErrorCorrectionLevel::check(&String::from("")));
}

fn modules_of(text: &str, level: ErrorCorrectionLevel) -> BitMatrix {
    let encoder = Encoder::new();
    let code = encoder.encode(text, level).unwrap();
    let matrix = code.get_matrix();
    let mut m = BitMatrix::new2(matrix.get_width(), matrix.get_height()).unwrap();
    for y in 0..matrix.get_height() {
        for x in 0..matrix.get_width() {
            if matrix.get(x, y) == 1 {
                m.set(x, y);
            }
        }
    }
    m
}

#[test]
fn the_format_information_of_a_symbol_is_read_back() {
    let encoder = Encoder::new();
    for level in [
        ErrorCorrectionLevel::L,
        ErrorCorrectionLevel::M,
        ErrorCorrectionLevel::Q,
        ErrorCorrectionLevel::H,
    ] {
        let code = encoder.encode("HELLO WORLD", level).unwrap();
        let m = modules_of("HELLO WORLD", level);
        let mut parser = BitMatrixParser::new(&m).unwrap();
        let format = parser.readFormatInformation().unwrap();
        assert_eq!(format.getErrorCorrectionLevel(), level);
        assert_eq!(format.getDataMask() as i32, code.get_mask_pattern());
        assert_eq!(parser.copyBit(0, 0, 2), 5);
        assert_eq!(parser.copyBit(1, 1, 2), 4);
    }
    let small = BitMatrix::new2(20, 20).unwrap();
    assert!(matches!(BitMatrixParser::new(&small), Err(Error::FormatException(_))));
    let odd = BitMatrix::new2(22, 22).unwrap();
    assert!(matches!(BitMatrixParser::new(&odd), Err(Error::FormatException(_))));
    let oblong = BitMatrix::new2(25, 21).unwrap();
    assert!(matches!(BitMatrixParser::new(&oblong), Err(Error::FormatException(_))));
    // Without a single dark module the bits read are those of the level M with
    // the mask 0, before the fixed pattern is laid over them.
    let blank = BitMatrix::new2(21, 21).unwrap();
    let mut parser = BitMatrixParser::new(&blank).unwrap();
    let format = parser.readFormatInformation().unwrap();
    assert_eq!(format.getErrorCorrectionLevel(), ErrorCorrectionLevel::M);
    assert_eq!(format.getDataMask(), 0);
    // Bits that are far from every code are refused.
    let mut far = BitMatrix::new2(21, 21).unwrap();
    for place in [0usize, 1, 2, 3] {
        far.set(place, 8);
        far.set(8, 20 - place);
    }
    let mut parser = BitMatrixParser::new(&far).unwrap();
    assert!(matches!(parser.readFormatInformation(), Err(Error::FormatException(_))));
}

fn levels_of(image: &BitMatrix) -> Vec<u8> {
    let mut levels = Vec::new();
    for y in 0..image.get_height() {
        for x in 0..image.get_width() {
            levels.push(if image.get(x, y) { 0u8 } else { 255u8 });
        }
    }
    levels
}

#[test]
fn a_rendered_symbol_is_found_again() {
    let writer = QRCodeWriter::new();
    let hints = EncodeHints::new();
    let image = writer
        .encode_hints("HELLO WORLD", &BarcodeFormat::QRCode, 150, 150, &hints)
        .unwrap();
    // 21 modules and a quiet zone of 4 make 29; five pixels for each fit into 150.
    assert_eq!(image.get_width(), 150);
    assert_eq!(image.get_height(), 150);
    assert_eq!(image.getTopLeftOnBit(), Some(vec![22, 22]));
    let expected = modules_of("HELLO WORLD", ErrorCorrectionLevel::L);
    // Through the block by block binarizer, as grey levels.
    let levels = levels_of(&image);
    let black =
        HybridBinarizer::<Plain>::black_matrix(&levels, image.get_width(), image.get_height())
            .unwrap();
    for y in 0..150 {
        for x in 0..150 {
            assert_eq!(black.get(x, y), image.get(x, y));
        }
    }
    let found = QRCodeReader::extractPureBits(&black).unwrap();
    assert_eq!(found.get_width(), 21);
    assert_eq!(found.get_height(), 21);
    for y in 0..21 {
        for x in 0..21 {
            assert_eq!(found.get(x, y), expected.get(x, y));
        }
    }
    assert_eq!(QRCodeReader::moduleSize(&vec![22, 22], &black).unwrap(), 35);
}

#[test]
fn an_image_without_a_symbol_is_refused() {
    let blank = BitMatrix::new2(50, 50).unwrap();
    assert!(matches!(QRCodeReader::extractPureBits(&blank), Err(Error::NotFoundException(_))));
    let mut dot = BitMatrix::new2(50, 50).unwrap();
    dot.set(10, 10);
    assert!(matches!(QRCodeReader::extractPureBits(&dot), Err(Error::NotFoundException(_))));
    let mut bar = BitMatrix::new2(50, 50).unwrap();
    assert!(bar.set_region(5, 5, 40, 40).is_ok());
    assert!(matches!(QRCodeReader::extractPureBits(&bar), Err(Error::NotFoundException(_))));
}

#[test]
fn writers_refuse_what_they_cannot_write() {
    let writer = QRCodeWriter::new();
    let hints = EncodeHints::new();
    assert!(matches!(
        writer.encode_hints("", &BarcodeFormat::QRCode, 100, 100, &hints),
        Err(Error::WriterException(_))
    ));
    assert!(matches!(
        writer.encode_hints("A", &BarcodeFormat::Aztec, 100, 100, &hints),
        Err(Error::WriterException(_))
    ));
    assert!(matches!(
        writer.encode_hints("A", &BarcodeFormat::QRCode, 0, 100, &hints),
        Err(Error::WriterException(_))
    ));
    assert!(matches!(
        writer.encode_hints("A", &BarcodeFormat::QRCode, 100, 0, &hints),
        Err(Error::WriterException(_))
    ));
    let small = writer.encode("A", &BarcodeFormat::QRCode, 1, 1).unwrap();
    assert_eq!(small.get_width(), 29);
    let mut hints = EncodeHints::new();
    hints.margin = Some(0);
    hints.error_correction = Some(ErrorCorrectionLevel::H);
    let tight = writer.encode_hints("A", &BarcodeFormat::QRCode, 1, 1, &hints).unwrap();
    assert_eq!(tight.get_width(), 21);
    assert_eq!(tight.getTopLeftOnBit(), Some(vec![0, 0]));
    let multi = MultiFormatWriter::new();
    assert!(multi.encode("A", &BarcodeFormat::QRCode, 50, 50).is_ok());
    assert!(multi.encode("A", &BarcodeFormat::DataMatrix, 50, 50).is_err());
    assert!(matches!(
        multi.encode("A", &BarcodeFormat::Code39, 50, 50),
        Err(Error::WriterException(_))
    ));
    assert_eq!(
        MultiFormatWriter::get_encoders(),
        vec![BarcodeFormat::QRCode, BarcodeFormat::DataMatrix]
    );
}

#[test]
fn one_threshold_for_a_small_image() {
    // Two grey levels, dark on the left.
    let mut levels = Vec::new();
    for _y in 0..10 {
        for x in 0..10 {
            levels.push(if x < 5 { 20u8 } else { 220u8 });
        }
    }
    let black = GlobalHistogramBinarizer::<Plain>::black_matrix(&levels, 10, 10).unwrap();
    for y in 0..10 {
        for x in 0..10 {
            assert_eq!(black.get(x, y), x < 5);
        }
    }
    let same = HybridBinarizer::<Plain>::black_matrix(&levels, 10, 10).unwrap();
    for y in 0..10 {
        for x in 0..10 {
            assert_eq!(same.get(x, y), x < 5);
        }
    }
    // Two grey levels that lie close together have too little contrast.
    let mut close = vec![100u8; 100];
    for x in 0..50 {
        close[x] = 110;
    }
    assert!(matches!(
        GlobalHistogramBinarizer::<Plain>::black_matrix(&close, 10, 10),
        Err(Error::NotFoundException(_))
    ));
    let flat = vec![0u8; 100];
    assert!(matches!(
        GlobalHistogramBinarizer::<Plain>::black_matrix(&flat, 10, 10),
        Err(Error::NotFoundException(_))
    ));
    assert!(matches!(
        GlobalHistogramBinarizer::<Plain>::black_matrix(&flat, 10, 11),
        Err(Error::IllegalArgumentException(_))
    ));
    assert!(matches!(
        GlobalHistogramBinarizer::<Plain>::black_matrix(&flat, 0, 10),
        Err(Error::IllegalArgumentException(_))
    ));
}

#[test]
fn the_threshold_lies_in_the_valley() {
    let mut buckets = vec![0u32; 32];
    buckets[2] = 50;
    buckets[27] = 30;
    buckets[10] = 1;
    // The peaks are the buckets 2 and 27. Between them the bucket 19 has the
    // greatest score, 17 * 17 * 8 * 50.
    assert_eq!(GlobalHistogramBinarizer::<Plain>::estimateBlackPoint(&buckets).unwrap(), 19 * 8);
    let mut near = vec![0u32; 32];
    near[2] = 50;
    near[4] = 30;
    assert!(matches!(
        GlobalHistogramBinarizer::<Plain>::estimateBlackPoint(&near),
        Err(Error::NotFoundException(_))
    ));
    assert_eq!(GlobalHistogramBinarizer::<Plain>::init_arrays(), vec![0u32; 32]);
}

#[test]
fn rows_are_sharpened() {
    let levels: Vec<u8> = vec![10, 10, 10, 10, 200, 200, 200, 200, 200, 10, 10, 10];
    let row = GlobalHistogramBinarizer::<Plain>::black_row(&levels, 12).unwrap();
    assert_eq!(row.get_size(), 12);
    let expected = [false, true, true, true, false, false, false, false, false, true, true, false];
    for x in 0..12 {
        assert_eq!(row.get(x), expected[x]);
    }
    assert!(matches!(
        GlobalHistogramBinarizer::<Plain>::black_row(&levels, 13),
        Err(Error::IllegalArgumentException(_))
    ));
    let two: Vec<u8> = vec![10, 200];
    assert!(GlobalHistogramBinarizer::<Plain>::black_row(&two, 2).is_ok());
}

#[test]
fn black_points_of_blocks() {
    // An image of 40 by 40 pixels, white but for a black square in the middle.
    let mut levels = vec![250u8; 1600];
    for y in 16..24 {
        for x in 16..24 {
            levels[y * 40 + x] = 5;
        }
    }
    let points = HybridBinarizer::<Plain>::calculateBlackPoints(&levels, 5, 5, 40, 40);
    assert_eq!(points.len(), 5);
    assert_eq!(points[0].len(), 5);
    // A flat white block: half of its darkest grey level.
    assert_eq!(points[0][0], 125);
    // The flat black block takes the mean of the black points around it.
    assert_eq!(points[2][2], 125);
    assert_eq!(
        HybridBinarizer::<Plain>::block_range(&levels, 40, 40, 16, 16),
        (5 * 64, 5, true)
    );
    let black = HybridBinarizer::<Plain>::black_matrix(&levels, 40, 40).unwrap();
    for y in 0..40 {
        for x in 0..40 {
            assert_eq!(black.get(x, y), (16..24).contains(&x) && (16..24).contains(&y));
        }
    }
    assert_eq!(HybridBinarizer::<Plain>::cap(0, 5), 2);
    assert_eq!(HybridBinarizer::<Plain>::cap(3, 5), 3);
    assert_eq!(HybridBinarizer::<Plain>::cap(9, 5), 5);
    assert!(matches!(
        HybridBinarizer::<Plain>::black_matrix(&levels, 40, 41),
        Err(Error::IllegalArgumentException(_))
    ));
}

#[test]
fn a_block_with_contrast_takes_its_mean() {
    let mut levels = vec![200u8; 1600];
    for y in 0..8 {
        for x in 0..4 {
            levels[y * 40 + x] = 0;
        }
    }
    let points = HybridBinarizer::<Plain>::calculateBlackPoints(&levels, 5, 5, 40, 40);
    assert_eq!(points[0][0], 100);
    assert_eq!(
        HybridBinarizer::<Plain>::block_range(&levels, 40, 40, 0, 0).0,
        200 * 32
    );
    assert!(!HybridBinarizer::<Plain>::block_range(&levels, 40, 40, 0, 0).2);
}

#[test]
fn sources_are_turned_into_black_and_white() {
    let mut levels = Vec::new();
    for _y in 0..10 {
        for x in 0..10 {
            levels.push(if x < 5 { 20u8 } else { 220u8 });
        }
    }
    let source = Plain { width: 10, height: 10, levels: levels.clone() };
    let mut binarizer = HybridBinarizer::new(source);
    assert_eq!(binarizer.get_width(), 10);
    assert_eq!(binarizer.get_height(), 10);
    let black = binarizer.get_black_matrix().unwrap();
    assert!(black.get(0, 0));
    assert!(!black.get(9, 9));
    let inverted = InvertedLuminanceSource::new(Plain { width: 10, height: 10, levels });
    assert_eq!(inverted.get_matrix().unwrap()[0], 235);
    assert_eq!(inverted.get_row(0, &Vec::new()).unwrap()[9], 35);
    assert_eq!(inverted.get_width(), 10);
    assert!(!inverted.is_crop_supported());
    let mut binarizer = GlobalHistogramBinarizer::new(inverted);
    let black = binarizer.get_black_matrix().unwrap();
    assert!(!black.get(0, 0));
    assert!(black.get(9, 9));
    assert_eq!(
        InvertedLuminanceSource::<Plain>::invert_row(vec![0, 255, 7], 2).unwrap(),
        vec![255, 0, 7]
    );
    assert!(matches!(
        InvertedLuminanceSource::<Plain>::invert_row(vec![0], 2),
        Err(Error::IllegalArgumentException(_))
    ));
    assert_eq!(
        InvertedLuminanceSource::<Plain>::invert_matrix(&vec![0, 255, 7], 2).unwrap(),
        vec![255, 0]
    );
}

#[test]
fn a_long_and_low_image_is_turned() {
    // 40000 pixels along one side, in stripes of four dark and four light pixels.
    let width = 40000;
    let height = 100;
    let mut levels = vec![220u8; width * height];
    for y in 0..height {
        for x in 0..width {
            if x % 8 < 4 {
                levels[y * width + x] = 30;
            }
        }
    }
    let black = GlobalHistogramBinarizer::<Plain>::black_matrix(&levels, width, height).unwrap();
    assert_eq!(black.get_width(), width);
    assert_eq!(black.get_height(), height);
    let blocks = HybridBinarizer::<Plain>::black_matrix(&levels, width, height).unwrap();
    assert_eq!(blocks.get_width(), width);
    assert_eq!(blocks.get_height(), height);
    for y in [0, 1, 50, 99] {
        for x in [0, 3, 4, 7, 8, 20003, 20004, 39992, 39995, 39996, 39999] {
            assert_eq!(black.get(x, y), x % 8 < 4);
            assert_eq!(blocks.get(x, y), x % 8 < 4);
        }
    }
    let row = GlobalHistogramBinarizer::<Plain>::black_row(&levels, width).unwrap();
    assert_eq!(row.get_size(), width);
    assert!(row.get(1));
    assert!(!row.get(width - 2));
    // More pixels than grey levels.
    assert!(matches!(
        GlobalHistogramBinarizer::<Plain>::black_matrix(&levels, width, height + 1),
        Err(Error::IllegalArgumentException(_))
    ));
    // Sides whose product no machine word holds.
    assert!(matches!(
        GlobalHistogramBinarizer::<Plain>::black_matrix(&levels, usize::MAX, usize::MAX),
        Err(Error::IllegalArgumentException(_))
    ));
    assert!(matches!(
        HybridBinarizer::<Plain>::black_matrix(&levels, usize::MAX, usize::MAX),
        Err(Error::IllegalArgumentException(_))
    ));
}

#[test]
fn a_block_of_a_matrix_narrower_than_the_rows() {
    // Rows of 20 grey levels, of which the matrix shows the first 16.
    let stride = 20;
    let mut levels = vec![200u8; stride * 10];
    for y in 0..10 {
        for x in 0..stride {
            if (x + y) % 2 == 0 {
                levels[y * stride + x] = 50;
            }
        }
    }
    let mut matrix = BitMatrix::new2(16, 10).unwrap();
    HybridBinarizer::<Plain>::thresholdBlock(&levels, 8, 2, 100, stride, &mut matrix);
    for y in 0..10 {
        for x in 0..16 {
            let inside = (8..16).contains(&x) && (2..10).contains(&y);
            assert_eq!(matrix.get(x, y), inside && (x + y) % 2 == 0);
        }
    }
    // A pixel as light as the threshold is black.
    let mut other = BitMatrix::new2(16, 10).unwrap();
    HybridBinarizer::<Plain>::thresholdBlock(&levels, 0, 0, 50, stride, &mut other);
    assert!(other.get(0, 0));
    assert!(!other.get(1, 0));
    assert!(!other.get(8, 0));
}

#[test]
fn a_quiet_zone_that_no_image_holds_is_refused() {
    let writer = QRCodeWriter::new();
    for margin in [0x10_0001usize, 0x4000_0000, usize::MAX / 2, usize::MAX] {
        let mut hints = EncodeHints::new();
        hints.margin = Some(margin);
        assert!(matches!(
            writer.encode_hints("A", &BarcodeFormat::QRCode, 100, 100, &hints),
            Err(Error::WriterException(_))
        ));
    }
    // A quiet zone of a thousand modules is rendered.
    let mut hints = EncodeHints::new();
    hints.margin = Some(1000);
    let wide = writer.encode_hints("A", &BarcodeFormat::QRCode, 100, 100, &hints).unwrap();
    assert_eq!(wide.get_width(), 2021);
    assert_eq!(wide.get_height(), 2021);
    assert!(wide.get(1000, 1000));
    assert!(!wide.get(999, 1000));
}
