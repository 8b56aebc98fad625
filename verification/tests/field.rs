use ntt_fft::prime_field_element::{PrimeField, PrimeFieldElement};
use ntt_fft::TransformError;

#[test]
fn internal() {
    println!("{:?}", PrimeFieldElement::egcd(3, 19));

    let field_19 = PrimeField::new(19);
    let field_23 = PrimeField::new(23);
    let _3_19 = PrimeFieldElement::new(3, &field_19);
    let _5_19 = PrimeFieldElement::new(5, &field_19);
    assert_eq!(_3_19.inv().unwrap(), PrimeFieldElement::new(13, &field_19));
    assert_eq!(
        PrimeFieldElement::new(13, &field_19)
            .mul(PrimeFieldElement::new(5, &field_19))
            .unwrap(),
        PrimeFieldElement::new(8, &field_19)
    );
    assert_eq!(
        PrimeFieldElement::new(13, &field_19)
            .mul(PrimeFieldElement::new(5, &field_19))
            .unwrap(),
        PrimeFieldElement::new(8, &field_19)
    );
    assert_eq!(
        PrimeFieldElement::new(13, &field_19)
            .add(PrimeFieldElement::new(5, &field_19))
            .unwrap(),
        PrimeFieldElement::new(18, &field_19)
    );

    assert_eq!(
        PrimeFieldElement::new(13, &field_19)
            .add(PrimeFieldElement::new(13, &field_19))
            .unwrap(),
        PrimeFieldElement::new(7, &field_19)
    );
    assert_eq!(
        PrimeFieldElement::new(2, &field_23).inv().unwrap(),
        PrimeFieldElement::new(12, &field_23)
    );
}

#[test]
fn egcd_bezout_identity() {
    let (g, s, t) = PrimeFieldElement::egcd(3, 19);
    assert_eq!(g, 1);
    assert_eq!(s * 3 + t * 19, 1);
    let (g, s, t) = PrimeFieldElement::egcd(12, 18);
    assert_eq!(g, 6);
    assert_eq!(s * 12 + t * 18, 6);
    let (g, s, t) = PrimeFieldElement::egcd(7, 0);
    assert_eq!(g, 7);
    assert_eq!(s * 7 + t * 0, 7);
}

#[test]
fn new_canonicalizes_negative_values() {
    let field = PrimeField::new(7);
    assert_eq!(PrimeFieldElement::new(-1, &field).value, 6);
    assert_eq!(PrimeFieldElement::new(-7, &field).value, 0);
    assert_eq!(PrimeFieldElement::new(-15, &field).value, 6);
    assert_eq!(PrimeFieldElement::new(15, &field).value, 1);
}

#[test]
fn mod_pow_zero_exponent_is_one() {
    let field = PrimeField::new(19);
    // invertible base
    let three = PrimeFieldElement::new(3, &field);
    assert_eq!(three.mod_pow(0).unwrap().value, 1);
    // non-invertible base
    let zero = PrimeFieldElement::new(0, &field);
    assert_eq!(zero.mod_pow(0).unwrap().value, 1);
}

#[test]
fn mod_pow_values() {
    let field = PrimeField::new(17);
    let three = PrimeFieldElement::new(3, &field);
    // 3^4 == 81 == 13 mod 17
    assert_eq!(three.mod_pow(4).unwrap().value, 13);
    // 3^16 == 1 mod 17
    assert_eq!(three.mod_pow(16).unwrap().value, 1);
    // 3^8 == 16 mod 17
    assert_eq!(three.mod_pow(8).unwrap().value, 16);
}

#[test]
fn mod_pow_negative_exponent_fails() {
    let field = PrimeField::new(17);
    let three = PrimeFieldElement::new(3, &field);
    assert_eq!(three.mod_pow(-1), Err(TransformError::InvalidExponent));
}

#[test]
fn inverse_of_inverse_is_identity() {
    let field = PrimeField::new(19);
    for v in 1i128..19i128 {
        let a = PrimeFieldElement::new(v, &field);
        let b = a.inv().unwrap();
        assert_eq!(b.inv().unwrap(), a);
    }
}

#[test]
fn inverse_of_zero_fails() {
    let field = PrimeField::new(19);
    let zero = PrimeFieldElement::new(0, &field);
    assert_eq!(zero.inv(), Err(TransformError::NotInvertible));
}

#[test]
fn division_by_non_invertible_fails() {
    let field = PrimeField::new(5);
    let one = PrimeFieldElement::new(1, &field);
    let zero = PrimeFieldElement::new(0, &field);
    assert_eq!(one.div(zero), Err(TransformError::NotInvertible));
    // a composite modulus: 3 shares a factor with 9
    let nine = PrimeField::new(9);
    let a = PrimeFieldElement::new(2, &nine);
    let b = PrimeFieldElement::new(3, &nine);
    assert_eq!(a.div(b), Err(TransformError::NotInvertible));
}

#[test]
fn division_values() {
    let field = PrimeField::new(19);
    let a = PrimeFieldElement::new(8, &field);
    let b = PrimeFieldElement::new(5, &field);
    // 5 * 4 == 20 == 1 mod 19, so 8 / 5 == 8 * 4 == 32 == 13 mod 19
    assert_eq!(a.div(b).unwrap(), PrimeFieldElement::new(13, &field));
}

#[test]
fn cross_field_operations_fail() {
    let field_19 = PrimeField::new(19);
    let field_23 = PrimeField::new(23);
    let a = PrimeFieldElement::new(3, &field_19);
    let b = PrimeFieldElement::new(3, &field_23);
    assert_eq!(a.add(b), Err(TransformError::FieldMismatch));
    assert_eq!(a.sub(b), Err(TransformError::FieldMismatch));
    assert_eq!(a.mul(b), Err(TransformError::FieldMismatch));
    assert_eq!(a.div(b), Err(TransformError::FieldMismatch));
}

#[test]
fn subtraction_is_canonicalized() {
    let field = PrimeField::new(7);
    let two = PrimeFieldElement::new(2, &field);
    let five = PrimeFieldElement::new(5, &field);
    assert_eq!(two.sub(five).unwrap().value, 4);
    assert_eq!(five.sub(two).unwrap().value, 3);
}

#[test]
fn arithmetic_near_the_modulus_bound() {
    // the largest modulus the engine accepts
    let q: i128 = 0x4000_0000_0000_0000;
    let field = PrimeField::new(q);
    let top = PrimeFieldElement::new(q - 1, &field);
    // (q - 1)^2 == 1 mod q
    assert_eq!(top.mul(top).unwrap().value, 1);
    assert_eq!(top.mod_pow(2).unwrap().value, 1);
    assert_eq!(top.mod_pow(101).unwrap().value, q - 1);
    // three is coprime to a power of two
    let three = PrimeFieldElement::new(3, &field);
    let inv = three.inv().unwrap();
    assert_eq!(three.mul(inv).unwrap().value, 1);
}

#[test]
fn legendre_symbol_classifies_residues() {
    let field = PrimeField::new(7);
    // zero
    assert_eq!(PrimeFieldElement::new(0, &field).legendre_symbol(), 0);
    // the quadratic residues mod 7 are 1, 2 and 4
    for v in [1i128, 2, 4] {
        assert_eq!(PrimeFieldElement::new(v, &field).legendre_symbol(), 1);
    }
    // the non-residues are 3, 5 and 6
    for v in [3i128, 5, 6] {
        assert_eq!(PrimeFieldElement::new(v, &field).legendre_symbol(), 6);
    }
    // 3^9 == -1 mod 19: three is a non-residue mod 19
    let field_19 = PrimeField::new(19);
    assert_eq!(PrimeFieldElement::new(3, &field_19).legendre_symbol(), 18);
}
