use velox_mpc::field::{ByteConversionError, FieldError, LargeField, MODULUS};
use velox_mpc::poly::{
    dot_prefix, dot_product, inverse_vandermonde, matrix_matrix_multiply, matrix_vector_multiply,
    power_row, powers_matrix, transpose, vandermonde_matrix, Polynomial,
};
use velox_mpc::types::{
    deserialize_elements, field_bytes_to_hash_input, gen_roots_of_unity, hash_to_field, same_hash,
    serialize_elements,
};

fn fe(x: u64) -> LargeField {
    LargeField::from_u64(x)
}

fn fes(xs: &[u64]) -> Vec<LargeField> {
    xs.iter().map(|x| fe(*x)).collect()
}

#[test]
fn field_arithmetic_wraps_at_the_modulus() {
    assert_eq!(MODULUS, 2305843009213693951);
    let top = fe(MODULUS - 1);
    assert_eq!(fe(MODULUS), LargeField::zero());
    assert_eq!(top.add(fe(1)), LargeField::zero());
    assert_eq!(top.add(top), fe(MODULUS - 2));
    assert_eq!(fe(3).sub(fe(5)), fe(MODULUS - 2));
    assert_eq!(top.mul(top), fe(1));
    assert_eq!(fe(u64::MAX), fe(7));
    assert_eq!(fe(3).pow(5), fe(243));
    assert_eq!(fe(2).pow(61), fe(1));
    assert_eq!(fe(0).pow(0), fe(1));
    assert_eq!(LargeField::from(12u64), fe(12));
    assert_eq!(fe(12).representative(), 12);
    assert!(fe(4).equals(&fe(4)));
    assert!(!fe(4).equals(&fe(5)));
}

#[test]
fn inverses_exist_but_for_zero() {
    for x in [1u64, 2, 3, 1021, MODULUS - 1, 123_456_789_012_345] {
        let i = fe(x).inv().unwrap();
        assert_eq!(fe(x).mul(i), LargeField::one());
    }
    assert_eq!(fe(2).inv().unwrap(), fe((MODULUS + 1) / 2));
    assert_eq!(fe(0).inv(), Err(FieldError::InvZeroError));
}

#[test]
fn square_roots_exist_for_squares_only() {
    for x in [0u64, 1, 2, 5, 1_000_003, MODULUS - 7] {
        let s = fe(x).mul(fe(x));
        let r = s.sqrt().unwrap();
        assert_eq!(r.mul(r), s);
    }
    // Minus one is no square, as the modulus is three modulo four.
    assert_eq!(fe(MODULUS - 1).sqrt(), None);
}

#[test]
fn elements_survive_the_wire() {
    assert_eq!(fe(0x0102030405060708).to_bytes_be(), vec![1, 2, 3, 4, 5, 6, 7, 8]);
    for x in [0u64, 1, 255, 256, MODULUS - 1] {
        let b = fe(x).to_bytes_be();
        assert_eq!(b.len(), 8);
        assert_eq!(LargeField::from_bytes_be(&b), Ok(fe(x)));
    }
    assert_eq!(LargeField::from_bytes_be(&[1, 2, 3]), Err(ByteConversionError::WrongLength));
    assert_eq!(LargeField::from_bytes_be(&[0; 32]), Err(ByteConversionError::WrongLength));
    assert_eq!(LargeField::from_bytes_be(&[255; 8]), Ok(fe(7)));
    let list = serialize_elements(&fes(&[3, 4]));
    assert_eq!(deserialize_elements(&list), Some(fes(&[3, 4])));
    assert_eq!(deserialize_elements(&vec![vec![1], fe(3).to_bytes_be()]), None);
}

#[test]
fn hash_inputs_are_right_aligned() {
    let mut want = [0u8; 32];
    want[31] = 9;
    want[30] = 8;
    assert_eq!(field_bytes_to_hash_input(&[8, 9]), want);
    let long: Vec<u8> = (0..40).collect();
    let mut tail = [0u8; 32];
    tail.copy_from_slice(&long[8..]);
    assert_eq!(field_bytes_to_hash_input(&long), tail);
    // Different elements give different inputs.
    assert_ne!(
        field_bytes_to_hash_input(&fe(5).to_bytes_be()),
        field_bytes_to_hash_input(&fe(6).to_bytes_be())
    );
    assert!(same_hash(&want, &want));
    assert!(!same_hash(&want, &tail));
}

#[test]
fn every_byte_of_a_digest_reaches_the_challenge() {
    assert_eq!(hash_to_field(&[]), fe(0));
    assert_eq!(hash_to_field(&[0, 0, 0, 0, 0, 0, 3]), fe(3));
    // Two limbs: 1 * 2^56 + 2.
    let two = hash_to_field(&[0, 0, 0, 0, 0, 0, 1, 2]);
    assert_eq!(two, fe((1u64 << 56) + 2));
    let base = hash_to_field(&[7u8; 32]);
    for i in 0..32 {
        let mut d = [7u8; 32];
        d[i] = 8;
        assert_ne!(hash_to_field(&d), base);
    }
}

#[test]
fn party_points_count_from_one() {
    assert_eq!(gen_roots_of_unity(4), fes(&[1, 2, 3, 4]));
}

#[test]
fn polynomials_drop_trailing_zeros() {
    let p = Polynomial::new(&fes(&[1, 2, 0, 0]));
    assert_eq!(p.coefficients, fes(&[1, 2]));
    assert_eq!(Polynomial::new(&fes(&[0, 0])).coefficients, fes(&[]));
}

#[test]
fn polynomials_are_evaluated() {
    let p = Polynomial::new(&fes(&[1, 2, 3]));
    assert_eq!(p.evaluate(&fe(0)), fe(1));
    assert_eq!(p.evaluate(&fe(2)), fe(17));
    assert_eq!(p.evaluate(&fe(MODULUS - 1)), fe(2));
    assert_eq!(Polynomial::new(&[]).evaluate(&fe(9)), fe(0));
}

#[test]
fn polynomials_are_added_and_scaled() {
    let p = Polynomial::new(&fes(&[1, 2, 3]));
    let q = Polynomial::new(&fes(&[5, 0, MODULUS - 3]));
    assert_eq!(p.add(&q).coefficients, fes(&[6, 2]));
    assert_eq!(p.add(&Polynomial::new(&fes(&[1]))).coefficients, fes(&[2, 2, 3]));
    assert_eq!(p.scale(&fe(4)).coefficients, fes(&[4, 8, 12]));
}

#[test]
fn matrices_and_inner_products() {
    assert_eq!(dot_product(&fes(&[1, 2, 3]), &fes(&[4, 5, 6])), fe(32));
    assert_eq!(dot_prefix(&fes(&[1, 2, 3]), &fes(&[4, 5])), fe(14));
    let m = vec![fes(&[1, 2]), fes(&[3, 4])];
    assert_eq!(matrix_vector_multiply(&m, &fes(&[10, 100])), fes(&[210, 430]));
    assert_eq!(power_row(fe(3), 4), fes(&[1, 3, 9, 27]));
    assert_eq!(powers_matrix(&fes(&[2, 3]), 3), vec![fes(&[1, 2, 4]), fes(&[1, 3, 9])]);
    assert_eq!(transpose(vec![fes(&[1, 2, 3]), fes(&[4, 5, 6])]), vec![
        fes(&[1, 4]),
        fes(&[2, 5]),
        fes(&[3, 6]),
    ]);
    let vectors = vec![fes(&[1, 0]), fes(&[0, 1]), fes(&[1, 1])];
    assert_eq!(matrix_matrix_multiply(&m, &vectors, true), vec![
        fes(&[1, 2, 3]),
        fes(&[3, 4, 7]),
    ]);
    assert_eq!(matrix_matrix_multiply(&m, &vectors, false), vec![
        fes(&[1, 3]),
        fes(&[2, 4]),
        fes(&[3, 7]),
    ]);
    let ragged = vec![fes(&[1]), fes(&[1, 2])];
    assert!(matrix_matrix_multiply(&ragged, &vectors, true).is_empty());
    assert!(matrix_matrix_multiply(&m, &[], true).is_empty());
}

#[test]
fn inverse_vandermonde_interpolates() {
    let xs = fes(&[0, 1, 5, 9]);
    let c = fes(&[7, 0, MODULUS - 4, 2]);
    let p = Polynomial::new(&c);
    let ys: Vec<LargeField> = xs.iter().map(|x| p.evaluate(x)).collect();
    let inv = inverse_vandermonde(vandermonde_matrix(xs));
    assert_eq!(matrix_vector_multiply(&inv, &ys), c);
}
