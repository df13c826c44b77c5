use hbar_core::common::reedsolomon::generic_gf::{GenericGF, GenericGFEnum};
use hbar_core::common::reedsolomon::generic_gf_poly::GenericGFPoly;
use hbar_core::common::reedsolomon::reed_solomon_decoder::ReedSolomonDecoder;
use hbar_core::common::reedsolomon::reed_solomon_encoder::ReedSolomonEncoder;
use hbar_core::error::Error;

#[test]
fn products_do_not_depend_on_the_order_of_the_factors() {
    let field = GenericGFEnum::QrCodeField256.get();
    for a in 0..256u32 {
        for b in 0..256u32 {
            assert_eq!(field.multiply(a, b).unwrap(), field.multiply(b, a).unwrap());
        }
    }
}

#[test]
fn every_element_but_zero_has_an_inverse() {
    let field = GenericGFEnum::QrCodeField256.get();
    for a in 1..256u32 {
        let inverse = field.inverse(a).unwrap();
        assert_eq!(field.multiply(a, inverse).unwrap(), 1);
    }
}

#[test]
fn the_power_of_the_logarithm_is_the_element() {
    let field = GenericGFEnum::QrCodeField256.get();
    for a in 1..256u32 {
        let log = field.log(a).unwrap();
        assert_eq!(field.exp(log).unwrap(), a);
    }
}

#[test]
fn products_in_other_fields() {
    for name in [
        GenericGFEnum::AztecData12,
        GenericGFEnum::AztecData10,
        GenericGFEnum::AztecData6,
        GenericGFEnum::AztecParam,
        GenericGFEnum::DataMatrixField256,
        GenericGFEnum::AztecData8,
        GenericGFEnum::MaxicodeField64,
    ] {
        let field = name.get();
        let size = field.get_size();
        assert_eq!(field.get_generator_base(), 1);
        for a in 1..size {
            assert_eq!(field.multiply(a, field.inverse(a).unwrap()).unwrap(), 1);
            assert_eq!(field.multiply(a, 1).unwrap(), a);
        }
    }
    assert_eq!(GenericGFEnum::QrCodeField256.get().get_generator_base(), 0);
    assert_eq!(GenericGFEnum::QrCodeField256.get().get_size(), 256);
    assert_eq!(GenericGFEnum::QrCodeField256.get().get_primitive(), 0x011D);
}

#[test]
fn known_values_of_the_field_of_the_qr_code() {
    let field = GenericGFEnum::QrCodeField256.get();
    assert_eq!(field.exp(0).unwrap(), 1);
    assert_eq!(field.exp(1).unwrap(), 2);
    assert_eq!(field.exp(8).unwrap(), 0x1D);
    assert_eq!(field.exp(255).unwrap(), 1);
    assert_eq!(field.log(2).unwrap(), 1);
    assert_eq!(field.log(0x1D).unwrap(), 8);
    assert_eq!(field.multiply(2, 0x80).unwrap(), 0x1D);
    assert_eq!(field.multiply(0, 7).unwrap(), 0);
    assert_eq!(field.multiply(7, 0).unwrap(), 0);
    assert_eq!(GenericGF::add_or_subtract(0x53, 0xCA), 0x99);
}

#[test]
fn arguments_outside_the_field_are_refused() {
    let field = GenericGFEnum::QrCodeField256.get();
    assert!(matches!(field.exp(256), Err(Error::IllegalArgumentException(_))));
    assert!(matches!(field.log(0), Err(Error::IllegalArgumentException(_))));
    assert!(matches!(field.log(256), Err(Error::IllegalArgumentException(_))));
    assert!(matches!(field.inverse(0), Err(Error::ArithmeticException(_))));
    assert!(matches!(field.inverse(256), Err(Error::ArithmeticException(_))));
    assert!(matches!(field.multiply(256, 1), Err(Error::IllegalArgumentException(_))));
    assert!(matches!(field.multiply(1, 256), Err(Error::IllegalArgumentException(_))));
    assert!(matches!(field.build_monomial(2, 256), Err(Error::IllegalArgumentException(_))));
}

#[test]
fn polynomials_are_kept_in_normal_form() {
    let field = GenericGFEnum::QrCodeField256.get();
    let p = GenericGFPoly::new(&field, vec![0, 0, 3, 1]).unwrap();
    assert_eq!(p.get_coefficients(), &vec![3, 1]);
    assert_eq!(p.get_degree(), 1);
    assert!(!p.is_zero());
    let zero = GenericGFPoly::new(&field, vec![0, 0, 0]).unwrap();
    assert_eq!(zero.get_coefficients(), &vec![0]);
    assert!(zero.is_zero());
    assert_eq!(field.get_zero().get_coefficients(), &vec![0]);
    assert_eq!(field.get_one().get_coefficients(), &vec![1]);
    assert!(matches!(GenericGFPoly::new(&field, vec![]), Err(Error::IllegalArgumentException(_))));
    assert!(matches!(
        GenericGFPoly::new(&field, vec![1, 256]),
        Err(Error::IllegalArgumentException(_))
    ));
    assert_eq!(field.build_monomial(3, 5).unwrap().get_coefficients(), &vec![5, 0, 0, 0]);
    assert_eq!(field.build_monomial(3, 0).unwrap().get_coefficients(), &vec![0]);
    assert_eq!(p.get_coefficient(0), 1);
    assert_eq!(p.get_coefficient(1), 3);
    assert_eq!(p.get_coefficient(2), 0);
}

#[test]
fn polynomial_arithmetic() {
    let field = GenericGFEnum::QrCodeField256.get();
    let a = GenericGFPoly::new(&field, vec![1, 2, 3]).unwrap();
    let b = GenericGFPoly::new(&field, vec![1, 1]).unwrap();
    // Sum and difference are the exclusive or of the coefficients.
    assert_eq!(a.add_or_subtract(&b).unwrap().get_coefficients(), &vec![1, 3, 2]);
    assert_eq!(a.add_or_subtract(&a).unwrap().get_coefficients(), &vec![0]);
    // (x^2 + 2x + 3)(x + 1) = x^3 + 3x^2 + x + 3.
    assert_eq!(a.multiply_by_other(&b).unwrap().get_coefficients(), &vec![1, 3, 1, 3]);
    assert_eq!(a.multiply_by_scalar(2).unwrap().get_coefficients(), &vec![2, 4, 6]);
    assert_eq!(a.multiply_by_scalar(0).unwrap().get_coefficients(), &vec![0]);
    assert_eq!(a.multiply_by_scalar(1).unwrap().get_coefficients(), &vec![1, 2, 3]);
    assert_eq!(a.multiply_by_monomial(2, 1).unwrap().get_coefficients(), &vec![1, 2, 3, 0, 0]);
    assert_eq!(a.multiply_by_monomial(2, 0).unwrap().get_coefficients(), &vec![0]);
    // The value at 0 is the constant term, the value at 1 the sum of the coefficients.
    assert_eq!(a.evaluate_at(0).unwrap(), 3);
    assert_eq!(a.evaluate_at(1).unwrap(), 0);
    assert_eq!(a.evaluate_at(2).unwrap(), 4 ^ 4 ^ 3);
    assert!(matches!(a.evaluate_at(256), Err(Error::IllegalArgumentException(_))));
    let product = a.multiply_by_other(&b).unwrap();
    let parts = product.divide(&b).unwrap();
    assert_eq!(parts[0].get_coefficients(), a.get_coefficients());
    assert_eq!(parts[1].get_coefficients(), &vec![0]);
    let parts = a.divide(&b).unwrap();
    let back = parts[0].multiply_by_other(&b).unwrap().add_or_subtract(&parts[1]).unwrap();
    assert_eq!(back.get_coefficients(), a.get_coefficients());
    assert!(matches!(a.divide(&field.get_zero()), Err(Error::IllegalArgumentException(_))));
    let other = GenericGFEnum::DataMatrixField256.get();
    let c = GenericGFPoly::new(&other, vec![1, 1]).unwrap();
    assert!(matches!(a.add_or_subtract(&c), Err(Error::IllegalArgumentException(_))));
    assert!(matches!(a.multiply_by_other(&c), Err(Error::IllegalArgumentException(_))));
    assert!(matches!(a.divide(&c), Err(Error::IllegalArgumentException(_))));
}

#[test]
fn generators_are_products_of_their_roots() {
    let field = GenericGFEnum::QrCodeField256.get();
    let mut encoder = ReedSolomonEncoder::new(&field).unwrap();
    assert_eq!(encoder.build_generator(0).unwrap().get_coefficients(), &vec![1]);
    assert_eq!(encoder.build_generator(1).unwrap().get_coefficients(), &vec![1, 1]);
    assert_eq!(encoder.build_generator(2).unwrap().get_coefficients(), &vec![1, 3, 2]);
    // The generator for seven codewords of error correction, as the standard gives it.
    let expected: Vec<u32> = [0u32, 87, 229, 146, 149, 238, 102, 21]
        .iter()
        .map(|e| field.exp(*e).unwrap())
        .collect();
    assert_eq!(encoder.build_generator(7).unwrap().get_coefficients(), &expected);
    assert!(matches!(encoder.build_generator(257), Err(Error::IllegalArgumentException(_))));
}

#[test]
fn encoding_fills_the_last_places() {
    let field = GenericGFEnum::QrCodeField256.get();
    let mut encoder = ReedSolomonEncoder::new(&field).unwrap();
    let mut block: Vec<u32> = vec![32, 65, 205, 69, 41, 220, 46, 128, 236];
    block.extend(vec![0u32; 17]);
    encoder.encode(&mut block, 17).unwrap();
    let expected: Vec<u32> = vec![
        32, 65, 205, 69, 41, 220, 46, 128, 236, 42, 159, 74, 221, 244, 169, 239, 150, 138, 70,
        237, 85, 224, 96, 74, 219, 61,
    ];
    assert_eq!(block, expected);
    let mut short: Vec<u32> = vec![1, 2, 3];
    assert!(matches!(encoder.encode(&mut short, 0), Err(Error::IllegalArgumentException(_))));
    assert!(matches!(encoder.encode(&mut short, 3), Err(Error::IllegalArgumentException(_))));
    assert_eq!(short, vec![1, 2, 3]);
    let mut wrong: Vec<u32> = vec![1, 256, 3, 0, 0];
    assert!(matches!(encoder.encode(&mut wrong, 2), Err(Error::IllegalArgumentException(_))));
}

fn next(state: &mut u32) -> u32 {
    *state = state.wrapping_mul(1664525).wrapping_add(1013904223);
    *state >> 16
}

#[test]
fn wrong_codewords_are_repaired() {
    let field = GenericGFEnum::QrCodeField256.get();
    let mut encoder = ReedSolomonEncoder::new(&field).unwrap();
    let decoder = ReedSolomonDecoder::new(&field);
    let mut state = 12345u32;
    for round in 0..60 {
        let data_len = 1 + (next(&mut state) % 40) as usize;
        let ec = 2 + (next(&mut state) % 20) as usize;
        let mut block: Vec<u32> = (0..data_len).map(|_| next(&mut state) % 256).collect();
        block.extend(vec![0u32; ec]);
        encoder.encode(&mut block, ec).unwrap();
        let sent = block.clone();
        let errors = if round % 3 == 0 { ec / 2 } else { (next(&mut state) as usize) % (ec / 2 + 1) };
        let mut places: Vec<usize> = Vec::new();
        while places.len() < errors {
            let place = (next(&mut state) as usize) % block.len();
            if !places.contains(&place) {
                places.push(place);
            }
        }
        for place in places.iter() {
            block[*place] ^= 1 + next(&mut state) % 255;
        }
        decoder.decode(&mut block, ec).unwrap();
        assert_eq!(block, sent);
    }
}

#[test]
fn codewords_without_errors_stay() {
    let field = GenericGFEnum::QrCodeField256.get();
    let decoder = ReedSolomonDecoder::new(&field);
    let mut block: Vec<u32> = vec![
        32, 65, 205, 69, 41, 220, 46, 128, 236, 42, 159, 74, 221, 244, 169, 239, 150, 138, 70,
        237, 85, 224, 96, 74, 219, 61,
    ];
    let sent = block.clone();
    decoder.decode(&mut block, 17).unwrap();
    assert_eq!(block, sent);
    decoder.decode(&mut block, 0).unwrap();
    assert_eq!(block, sent);
}

#[test]
fn too_many_wrong_codewords_are_refused() {
    let field = GenericGFEnum::QrCodeField256.get();
    let decoder = ReedSolomonDecoder::new(&field);
    let mut block: Vec<u32> = vec![
        32, 65, 205, 69, 41, 220, 46, 128, 236, 42, 159, 74, 221, 244, 169, 239, 150, 138, 70,
        237, 85, 224, 96, 74, 219, 61,
    ];
    for place in 0..12 {
        block[place] ^= 0x55;
    }
    let received = block.clone();
    assert!(decoder.decode(&mut block, 17).is_err());
    assert_eq!(block, received);
    let mut empty: Vec<u32> = Vec::new();
    assert!(matches!(decoder.decode(&mut empty, 2), Err(Error::IllegalArgumentException(_))));
    let mut wrong: Vec<u32> = vec![1, 2, 300];
    assert!(matches!(decoder.decode(&mut wrong, 2), Err(Error::IllegalArgumentException(_))));
    let mut block: Vec<u32> = vec![1, 2, 3];
    assert!(matches!(decoder.decode(&mut block, 257), Err(Error::IllegalArgumentException(_))));
}

#[test]
fn a_data_matrix_block_is_repaired() {
    let field = GenericGFEnum::DataMatrixField256.get();
    let mut encoder = ReedSolomonEncoder::new(&field).unwrap();
    let decoder = ReedSolomonDecoder::new(&field);
    let mut block: Vec<u32> = vec![142, 164, 186, 0, 0, 0, 0, 0];
    encoder.encode(&mut block, 5).unwrap();
    assert_eq!(block, vec![142, 164, 186, 114, 25, 5, 88, 102]);
    let sent = block.clone();
    block[0] ^= 0xFF;
    block[6] ^= 0x17;
    decoder.decode(&mut block, 5).unwrap();
    assert_eq!(block, sent);
}
