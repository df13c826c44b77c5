use hbar_core::common::bit_array::BitArray;
use hbar_core::error::Error;
use hbar_core::qrcode::decoder::error_correction_level::ErrorCorrectionLevel;
use hbar_core::qrcode::decoder::version::Versions;
use hbar_core::qrcode::encoder::byte_matrix::ByteMatrix;
use hbar_core::qrcode::encoder::mask_util::MaskUtil;
use hbar_core::qrcode::encoder::matrix_util::MatrixUtil;

fn show(bits: &BitArray) -> String {
    let mut s = String::new();
    for i in 0..bits.get_size() {
        if i % 8 == 0 {
            s.push(' ');
        }
        s.push(if bits.get(i) { 'X' } else { '.' });
    }
    s
}

#[test]
fn highest_bits() {
    assert_eq!(MatrixUtil::find_msb_set(0), 0);
    assert_eq!(MatrixUtil::find_msb_set(1), 1);
    assert_eq!(MatrixUtil::find_msb_set(0x80), 8);
    assert_eq!(MatrixUtil::find_msb_set(255), 8);
    assert_eq!(MatrixUtil::find_msb_set(0x80000000), 32);
}

#[test]
fn check_bits() {
    // Type information, with the generator 0x537.
    assert_eq!(MatrixUtil::calculate_bch_code(5, 0x537), 0xdc);
    assert_eq!(MatrixUtil::calculate_bch_code(0x13, 0x537), 0x1c2);
    assert_eq!(MatrixUtil::calculate_bch_code(0x1b, 0x537), 0x214);
    // Version information, with the generator 0x1f25.
    assert_eq!(MatrixUtil::calculate_bch_code(7, 0x1f25), 0xc94);
    assert_eq!(MatrixUtil::calculate_bch_code(8, 0x1f25), 0x5bc);
    assert_eq!(MatrixUtil::calculate_bch_code(9, 0x1f25), 0xa99);
    assert_eq!(MatrixUtil::calculate_bch_code(10, 0x1f25), 0x4d3);
    assert_eq!(MatrixUtil::calculate_bch_code(20, 0x1f25), 0x9a6);
    assert_eq!(MatrixUtil::calculate_bch_code(30, 0x1f25), 0xd75);
    assert_eq!(MatrixUtil::calculate_bch_code(40, 0x1f25), 0xc69);
}

#[test]
fn type_information() {
    let mut bits = BitArray::new();
    assert!(MatrixUtil::make_type_info_bits(&ErrorCorrectionLevel::M, 5, &mut bits).is_ok());
    assert_eq!(show(&bits), " X......X X..XXX.");
    let mut bits = BitArray::new();
    assert!(matches!(
        MatrixUtil::make_type_info_bits(&ErrorCorrectionLevel::M, 8, &mut bits),
        Err(Error::WriterException(_))
    ));
    assert!(matches!(
        MatrixUtil::make_type_info_bits(&ErrorCorrectionLevel::M, -1, &mut bits),
        Err(Error::WriterException(_))
    ));
    assert_eq!(bits.get_size(), 0);
}

#[test]
fn version_information() {
    let versions = Versions::new();
    let mut bits = BitArray::new();
    MatrixUtil::make_version_info_bits(versions.get_version_for_number(7).unwrap(), &mut bits);
    assert_eq!(show(&bits), " ...XXXXX ..X..X.X ..");
}

fn picture(matrix: &ByteMatrix) -> String {
    let mut s = String::new();
    for y in 0..matrix.get_height() {
        for x in 0..matrix.get_width() {
            s.push(match matrix.get(x, y) {
                0 => '0',
                1 => '1',
                _ => ' ',
            });
        }
        s.push('\n');
    }
    s
}

#[test]
fn a_symbol_of_version_one() {
    // The codewords of a version 1-H symbol, under mask 3.
    let bytes: [u32; 26] = [
        32, 65, 205, 69, 41, 220, 46, 128, 236, 42, 159, 74, 221, 244, 169, 239, 150, 138, 70, 237,
        85, 224, 96, 74, 219, 61,
    ];
    let mut bits = BitArray::new();
    for b in bytes.iter() {
        assert!(bits.append_bits(*b, 8).is_ok());
    }
    let versions = Versions::new();
    let mut matrix = ByteMatrix::new(21, 21);
    MatrixUtil::build_matrix(
        &bits,
        &ErrorCorrectionLevel::H,
        versions.get_version_for_number(1).unwrap(),
        3,
        &mut matrix,
    )
    .unwrap();
    let expected = "\
111111100110001111111
100000100000001000001
101110100001001011101
101110100110001011101
101110101100101011101
100000100011101000001
111111101010101111111
000000001101100000000
001100111001111010000
101010000011100101110
111101101011100111010
101011011100111001010
001001110000001011111
000000001101000001011
111111101111000010110
100000100001011100000
101110100100110010011
101110101101000001110
101110101111000011100
100000100000000010100
111111100011111010010
";
    assert_eq!(picture(&matrix), expected);
}

#[test]
fn more_bits_than_cells_are_refused() {
    let mut bits = BitArray::new();
    for _ in 0..27 {
        assert!(bits.append_bits(0, 8).is_ok());
    }
    let versions = Versions::new();
    let mut matrix = ByteMatrix::new(21, 21);
    assert!(matches!(
        MatrixUtil::build_matrix(
            &bits,
            &ErrorCorrectionLevel::H,
            versions.get_version_for_number(1).unwrap(),
            3,
            &mut matrix,
        ),
        Err(Error::WriterException(_))
    ));
    assert!(matches!(
        MatrixUtil::build_matrix(
            &BitArray::new(),
            &ErrorCorrectionLevel::H,
            versions.get_version_for_number(1).unwrap(),
            8,
            &mut matrix,
        ),
        Err(Error::WriterException(_))
    ));
}

#[test]
fn masks_turn_the_cells_of_their_patterns() {
    let rows: [[&str; 6]; 8] = [
        ["101010", "010101", "101010", "010101", "101010", "010101"],
        ["111111", "000000", "111111", "000000", "111111", "000000"],
        ["100100", "100100", "100100", "100100", "100100", "100100"],
        ["100100", "001001", "010010", "100100", "001001", "010010"],
        ["111000", "111000", "000111", "000111", "111000", "111000"],
        ["111111", "100000", "100100", "101010", "100100", "100000"],
        ["111111", "111000", "110110", "101010", "101101", "100011"],
        ["101010", "000111", "100011", "010101", "111000", "011100"],
    ];
    for mask in 0..8 {
        for y in 0..6 {
            for x in 0..6 {
                let expected = rows[mask][y].as_bytes()[x] == b'1';
                assert_eq!(MaskUtil::get_data_mask_bit(mask as i32, x, y), expected);
            }
        }
    }
}

fn matrix_of(rows: &[&str]) -> ByteMatrix {
    let mut m = ByteMatrix::new(rows[0].len(), rows.len());
    for (y, row) in rows.iter().enumerate() {
        for (x, c) in row.bytes().enumerate() {
            m.set(x, y, if c == b'1' { 1 } else { 0 });
        }
    }
    m
}

#[test]
fn penalty_of_runs() {
    assert_eq!(MaskUtil::apply_mask_penalty_rule1(&matrix_of(&["0000"])), 0);
    assert_eq!(MaskUtil::apply_mask_penalty_rule1(&matrix_of(&["00000"])), 3);
    assert_eq!(MaskUtil::apply_mask_penalty_rule1(&matrix_of(&["000000"])), 4);
    assert_eq!(MaskUtil::apply_mask_penalty_rule1(&matrix_of(&["000001"])), 3);
    assert_eq!(MaskUtil::apply_mask_penalty_rule1(&matrix_of(&["0", "0", "0", "0", "0", "0"])), 4);
    assert_eq!(MaskUtil::apply_mask_penalty_rule1(&matrix_of(&["00000", "11111"])), 6);
}

#[test]
fn penalty_of_blocks() {
    assert_eq!(MaskUtil::apply_mask_penalty_rule2(&matrix_of(&["0"])), 0);
    assert_eq!(MaskUtil::apply_mask_penalty_rule2(&matrix_of(&["00", "00"])), 3);
    assert_eq!(MaskUtil::apply_mask_penalty_rule2(&matrix_of(&["00", "01"])), 0);
    assert_eq!(MaskUtil::apply_mask_penalty_rule2(&matrix_of(&["000", "000", "000"])), 12);
}

#[test]
fn penalty_of_finder_like_runs() {
    assert_eq!(MaskUtil::apply_mask_penalty_rule3(&matrix_of(&["00001011101"])), 40);
    assert_eq!(MaskUtil::apply_mask_penalty_rule3(&matrix_of(&["10111010000"])), 40);
    assert_eq!(MaskUtil::apply_mask_penalty_rule3(&matrix_of(&["1011101"])), 40);
    assert_eq!(MaskUtil::apply_mask_penalty_rule3(&matrix_of(&["10111011"])), 40);
    assert_eq!(MaskUtil::apply_mask_penalty_rule3(&matrix_of(&["110111011"])), 0);
    assert_eq!(MaskUtil::apply_mask_penalty_rule3(&matrix_of(&["1011100"])), 0);
    let row: Vec<i8> = vec![1, 0, 0, 0, 0, 1];
    assert!(MaskUtil::is_white_horizontal(&row, 1, 5));
    assert!(!MaskUtil::is_white_horizontal(&row, 0, 5));
    assert!(MaskUtil::is_white_horizontal(&row, -4, 0));
    assert!(MaskUtil::is_white_horizontal(&row, 6, 10));
    let rows: Vec<Vec<i8>> = vec![vec![0, 1], vec![0, 0], vec![0, 0]];
    assert!(MaskUtil::is_white_vertical(&rows, 0, 0, 3));
    assert!(!MaskUtil::is_white_vertical(&rows, 1, 0, 3));
    assert!(MaskUtil::is_white_vertical(&rows, 1, 1, 7));
}

#[test]
fn penalty_of_the_share_of_black() {
    assert_eq!(MaskUtil::apply_mask_penalty_rule4(&matrix_of(&["0"])), 100);
    assert_eq!(MaskUtil::apply_mask_penalty_rule4(&matrix_of(&["01"])), 0);
    assert_eq!(MaskUtil::apply_mask_penalty_rule4(&matrix_of(&["101010"])), 0);
    assert_eq!(MaskUtil::apply_mask_penalty_rule4(&matrix_of(&["111110"])), 60);
    assert_eq!(MaskUtil::apply_mask_penalty_rule4(&matrix_of(&["1111111111"])), 100);
}

#[test]
fn byte_matrix_cells() {
    let mut m = ByteMatrix::new(3, 2);
    assert_eq!(m.get_width(), 3);
    assert_eq!(m.get_height(), 2);
    assert_eq!(m.get(2, 1), 0);
    m.set(2, 1, -1);
    assert_eq!(m.get(2, 1), -1);
    m.set_bit(0, 0, true);
    assert_eq!(m.get(0, 0), 1);
    m.set_bit(0, 0, false);
    assert_eq!(m.get(0, 0), 0);
    m.clear(1);
    assert_eq!(m.get_array(), &vec![vec![1i8, 1, 1], vec![1, 1, 1]]);
    assert!(MatrixUtil::is_empty(-1));
    assert!(!MatrixUtil::is_empty(0));
}

#[test]
fn check_bits_are_shorter_than_their_generator() {
    for value in 0..32 {
        assert!(MatrixUtil::calculate_bch_code(value, 0x537) < 1024);
    }
    for value in 0..64 {
        assert!(MatrixUtil::calculate_bch_code(value, 0x1f25) < 4096);
    }
    assert_eq!(MatrixUtil::find_msb_set(0x537), 11);
    assert_eq!(MatrixUtil::find_msb_set(0x1f25), 13);
}
