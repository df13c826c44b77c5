use hbar_core::common::bit_array::BitArray;
use hbar_core::common::bit_matrix::BitMatrix;

#[test]
fn it_works() {
    assert_eq!(2 + 2, 4);
}

#[test]
fn pow() {
    let x_diff = 2f32;
    assert_eq!(4f32, x_diff.powi(2));
}

#[test]
fn append_bits_most_significant_first() {
    let mut bits = BitArray::new();
    assert!(bits.append_bits(0x1E, 6).is_ok());
    assert_eq!(bits.get_size(), 6);
    let expected = [false, true, true, true, true, false];
    for i in 0..6 {
        assert_eq!(bits.get(i), expected[i]);
    }
}

#[test]
fn bounding_bits_of_an_empty_matrix() {
    let m = BitMatrix::new2(40, 30).unwrap();
    assert!(m.getTopLeftOnBit().is_none());
    assert!(m.getBottomRightOnBit().is_none());
}

#[test]
fn bounding_bits_of_a_single_cell() {
    let mut m = BitMatrix::new2(40, 30).unwrap();
    m.set(13, 7);
    assert_eq!(m.getTopLeftOnBit(), Some(vec![13, 7]));
    assert_eq!(m.getBottomRightOnBit(), Some(vec![13, 7]));
}

#[test]
fn bits_are_shown_as_text() {
    let mut bits = BitArray::new();
    assert_eq!(bits.to_text(), "");
    bits.append_bits(0b1010_0101, 8).unwrap();
    assert_eq!(bits.to_text(), " X.X..X.X");
    bits.append_bits(0b110, 3).unwrap();
    assert_eq!(bits.to_text(), " X.X..X.X XX.");
    bits.append_bits(0x1F, 5).unwrap();
    assert_eq!(bits.to_text(), " X.X..X.X XX.XXXXX");
    bits.append_bit(false);
    assert_eq!(bits.to_text(), " X.X..X.X XX.XXXXX .");
}

#[test]
fn grey_levels_are_shown_as_text() {
    let levels: Vec<u8> = vec![0, 0x3F, 0x40, 0x7F, 0x80, 0xBF, 0xC0, 0xFF];
    assert_eq!(hbar_core::luminance_source::show(&levels, 4, 2).unwrap(), "##++\n..  \n");
    assert_eq!(hbar_core::luminance_source::show(&levels, 2, 3).unwrap(), "##\n++\n..\n");
    assert_eq!(hbar_core::luminance_source::show(&levels, 8, 1).unwrap(), "##++..  \n");
    assert_eq!(hbar_core::luminance_source::show(&levels, 0, 2).unwrap(), "\n\n");
    assert_eq!(hbar_core::luminance_source::show(&levels, 3, 0).unwrap(), "");
    assert!(matches!(
        hbar_core::luminance_source::show(&levels, 3, 3),
        Err(hbar_core::Error::IllegalArgumentException(_))
    ));
    assert!(matches!(
        hbar_core::luminance_source::show(&levels, usize::MAX, 2),
        Err(hbar_core::Error::IllegalArgumentException(_))
    ));
    assert_eq!(hbar_core::luminance_source::shade(0x3F), '#');
    assert_eq!(hbar_core::luminance_source::shade(0xC0), ' ');
}

#[test]
fn appended_bits_are_read_back() {
    for (value, width) in [(0u32, 1usize), (1, 1), (5, 3), (0x5A5, 11), (0xFFFF_FFFF, 32), (7, 32)] {
        let mut bits = BitArray::new();
        assert!(bits.append_bits(0b101, 3).is_ok());
        assert!(bits.append_bits(value, width).is_ok());
        assert_eq!(bits.get_size(), 3 + width);
        let mut read: u64 = 0;
        for i in 0..width {
            read = 2 * read + u64::from(bits.get(3 + i));
        }
        assert_eq!(read, u64::from(value));
    }
}

#[test]
fn a_bit_set_behind_the_size_stays_when_bits_are_appended() {
    // The words are or-ed into: what was set within the capacity is not cleared.
    let mut bits = BitArray::new();
    bits.set(3);
    assert!(bits.append_bits(0, 4).is_ok());
    assert_eq!(bits.get_size(), 4);
    assert!(!bits.get(0));
    assert!(bits.get(3));
}
