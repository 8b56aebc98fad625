use ntt_fft::fft::{dft_finite_fields, intt_fft, ntt_fft};
use ntt_fft::prime_field_element::{PrimeField, PrimeFieldElement};
use ntt_fft::TransformError;

#[test]
fn finite_field_fft_four_elements() {
    let field = PrimeField::new(5);
    let generator: PrimeFieldElement = PrimeFieldElement::new(2, &field);
    let input = vec![
        PrimeFieldElement::new(1, &field),
        PrimeFieldElement::new(4, &field),
        PrimeFieldElement::new(0, &field),
        PrimeFieldElement::new(0, &field),
    ];
    let output = ntt_fft(input.clone(), &generator).unwrap();
    println!("result with four elements: {:?}", output);
    let result = intt_fft(output, &generator).unwrap();
    for i in 0..result.len() {
        println!("{}", i);
        println!("expected: {:?}, got: {:?}", input[i], result[i]);
        assert_eq!(result[i], input[i]);
    }
}

#[test]
fn four_element_forward_values() {
    // modulus 5, root 2 (a primitive 4th root of unity), input [1, 4, 0, 0]
    let field = PrimeField::new(5);
    let omega = PrimeFieldElement::new(2, &field);
    let input = vec![
        PrimeFieldElement::new(1, &field),
        PrimeFieldElement::new(4, &field),
        PrimeFieldElement::new(0, &field),
        PrimeFieldElement::new(0, &field),
    ];
    let output = ntt_fft(input, &omega).unwrap();
    let got: Vec<i128> = output.iter().map(|e| e.value).collect();
    assert_eq!(got, vec![0, 4, 2, 3]);
}

#[test]
fn two_point_transform_values() {
    let field = PrimeField::new(5);
    let omega = PrimeFieldElement::new(4, &field);
    let input = vec![
        PrimeFieldElement::new(1, &field),
        PrimeFieldElement::new(4, &field),
    ];
    let output = dft_finite_fields(&input, &omega);
    // y[0] = 1 + 4 = 0 mod 5, y[1] = 1 + 4 * 4 = 17 = 2 mod 5
    assert_eq!(output[0].value, 0);
    assert_eq!(output[1].value, 2);
}

#[test]
fn two_element_round_trip() {
    // 4 is a primitive square root of unity mod 5
    let field = PrimeField::new(5);
    let omega = PrimeFieldElement::new(4, &field);
    let input = vec![
        PrimeFieldElement::new(3, &field),
        PrimeFieldElement::new(2, &field),
    ];
    let output = ntt_fft(input.clone(), &omega).unwrap();
    let result = intt_fft(output, &omega).unwrap();
    assert_eq!(result, input);
}

#[test]
fn sixteen_element_round_trip() {
    // 3 generates the multiplicative group mod 17: a primitive 16th root
    let field = PrimeField::new(17);
    let generator = PrimeFieldElement::new(3, &field);
    let zero = PrimeFieldElement::new(0, &field);
    let one = PrimeFieldElement::new(1, &field);
    let mut input = vec![zero; 16];
    input[0] = one;
    let output = ntt_fft(input.clone(), &generator).unwrap();
    let result = intt_fft(output, &generator).unwrap();
    for i in 0..result.len() {
        assert_eq!(result[i], input[i]);
    }
}

#[test]
fn two_element_round_trip_all_inputs() {
    // every two-entry sequence over the field with five elements comes
    // back unchanged
    let field = PrimeField::new(5);
    let omega = PrimeFieldElement::new(4, &field);
    for a in 0i128..5i128 {
        for b in 0i128..5i128 {
            let input = vec![
                PrimeFieldElement::new(a, &field),
                PrimeFieldElement::new(b, &field),
            ];
            let output = ntt_fft(input.clone(), &omega).unwrap();
            let result = intt_fft(output, &omega).unwrap();
            assert_eq!(result, input);
        }
    }
}

#[test]
fn four_element_round_trip_dense_input() {
    let field = PrimeField::new(5);
    let omega = PrimeFieldElement::new(2, &field);
    let input: Vec<PrimeFieldElement> = [1i128, 2, 3, 4]
        .iter()
        .map(|&v| PrimeFieldElement::new(v, &field))
        .collect();
    let output = ntt_fft(input.clone(), &omega).unwrap();
    let result = intt_fft(output, &omega).unwrap();
    assert_eq!(result, input);
}

#[test]
fn eight_element_round_trip() {
    // 2 has order 8 modulo 17: a primitive 8th root of unity
    let field = PrimeField::new(17);
    let omega = PrimeFieldElement::new(2, &field);
    let input: Vec<PrimeFieldElement> = [3i128, 1, 4, 1, 5, 9, 2, 6]
        .iter()
        .map(|&v| PrimeFieldElement::new(v, &field))
        .collect();
    let output = ntt_fft(input.clone(), &omega).unwrap();
    let result = intt_fft(output, &omega).unwrap();
    assert_eq!(result, input);
}

#[test]
fn transform_rejects_length_three() {
    let field = PrimeField::new(5);
    let omega = PrimeFieldElement::new(2, &field);
    let input = vec![
        PrimeFieldElement::new(1, &field),
        PrimeFieldElement::new(2, &field),
        PrimeFieldElement::new(3, &field),
    ];
    assert_eq!(
        ntt_fft(input.clone(), &omega),
        Err(TransformError::InvalidLength)
    );
    assert_eq!(intt_fft(input, &omega), Err(TransformError::InvalidLength));
}

#[test]
fn transform_rejects_short_sequences() {
    let field = PrimeField::new(5);
    let omega = PrimeFieldElement::new(2, &field);
    let empty: Vec<PrimeFieldElement> = Vec::new();
    assert_eq!(
        ntt_fft(empty.clone(), &omega),
        Err(TransformError::InvalidLength)
    );
    assert_eq!(
        intt_fft(empty, &omega),
        Err(TransformError::InvalidLength)
    );
    let single = vec![PrimeFieldElement::new(1, &field)];
    assert_eq!(ntt_fft(single, &omega), Err(TransformError::InvalidLength));
}

#[test]
fn transform_rejects_length_six() {
    // six is even but not a power of two: the failure arises one
    // recursion level down
    let field = PrimeField::new(7);
    let omega = PrimeFieldElement::new(3, &field);
    let input: Vec<PrimeFieldElement> = (0i128..6i128)
        .map(|v| PrimeFieldElement::new(v, &field))
        .collect();
    assert_eq!(ntt_fft(input, &omega), Err(TransformError::InvalidLength));
}

#[test]
fn inverse_transform_rejects_non_invertible_root() {
    let field = PrimeField::new(5);
    let zero = PrimeFieldElement::new(0, &field);
    let input = vec![
        PrimeFieldElement::new(1, &field),
        PrimeFieldElement::new(2, &field),
    ];
    assert_eq!(
        intt_fft(input, &zero),
        Err(TransformError::NotInvertible)
    );
}

#[test]
fn inverse_transform_rejects_length_sharing_a_factor_with_the_modulus() {
    // modulus 2 divides the length 2, so the scaling step cannot divide
    let field = PrimeField::new(2);
    let one = PrimeFieldElement::new(1, &field);
    let input = vec![one, one];
    assert_eq!(
        intt_fft(input, &one),
        Err(TransformError::NotInvertible)
    );
}
