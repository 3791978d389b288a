use ckks::math::bignum::{BigInteger, BigNat};
use ckks::math::ntt::NttPlan;
use ckks::poly::ModularPolynomial;

#[test]
fn ntt_round_trip_restores_values() {
    let plan = NttPlan::new(8, 998_244_353, 3).expect("valid NTT plan");
    let mut values = vec![1, 2, 3, 4, 5, 6, 7, 8];
    let original = values.clone();

    plan.forward(&mut values);
    plan.inverse(&mut values);

    assert_eq!(values, original);
}

#[test]
fn ntt_plan_rejects_modulus_without_negacyclic_support() {
    let err = NttPlan::new(8, 41, 6).expect_err("41 only supports an 8-point cyclic root, not a 16-th negacyclic twiddle");

    assert!(err.contains("2 * size must divide modulus - 1"));
}

#[test]
fn ntt_forward_inverse_round_trip() {
    let plan = NttPlan::new(16, 998_244_353, 3).expect("valid NTT plan");
    let mut values = vec![0, 1, 2, 3, 5, 8, 13, 21, 34, 55, 89, 144, 233, 377, 610, 987];
    let original = values.clone();

    plan.forward(&mut values);
    plan.inverse(&mut values);

    assert_eq!(values, original);
}

#[test]
fn ntt_rejects_invalid_size() {
    let result = NttPlan::new(12, 998_244_353, 3);
    assert!(result.is_err());
}

#[test]
fn ntt_rejects_non_dividing_size() {
    // 7 does not divide 998_244_352.
    let result = NttPlan::new(7, 998_244_353, 3);
    assert!(result.is_err());
}

#[test]
fn modular_polynomial_addition_and_subtraction_work() {
    let modulus = 17;
    let lhs = ModularPolynomial::new(vec![14, 1, 9, 0], modulus);
    let rhs = ModularPolynomial::new(vec![5, 16, 12, 3], modulus);

    assert_eq!(lhs.add(&rhs).coeffs(), &[2, 0, 4, 3]);
    assert_eq!(lhs.sub(&rhs).coeffs(), &[9, 2, 14, 14]);
}

#[test]
fn ntt_multiplication_matches_naive_negacyclic_multiplication() {
    let modulus = 998_244_353;
    let plan = NttPlan::new(8, modulus, 3).expect("valid NTT plan");
    let lhs = ModularPolynomial::new(vec![1, 2, 3, 4, 5, 6, 7, 8], modulus);
    let rhs = ModularPolynomial::new(vec![8, 7, 6, 5, 4, 3, 2, 1], modulus);

    let expected = ModularPolynomial::new(vec![998_244_193, 998_244_243, 998_244_297, 0, 56, 110, 160, 204], modulus);
    let actual = lhs.multiply_ntt(&rhs, &plan);

    assert_eq!(actual, expected);
}

#[test]
fn galois_automorphism_matches_x_to_x_power_m() {
    // X -> X^3 sends 1 + 2X + 3X^2 + 4X^3 to 1 + 2X^3 + 3X^6 + 4X^9, which is
    // 1 + 4X - 3X^2 + 2X^3 modulo X^4 + 1: [1, 4, 14, 2] modulo 17. The
    // coefficient list [1, 13, 2, 14] (1 - 4X + 2X^2 - 3X^3) is not that image.
    let modulus = 17;
    let poly = ModularPolynomial::new(vec![1, 2, 3, 4], modulus);

    let automorphed = poly.apply_galois_automorphism(3);

    assert_eq!(automorphed.coeffs(), &[1, 4, 14, 2]);
    assert_ne!(automorphed.coeffs(), &[1, 13, 2, 14]);
}

#[test]
fn galois_automorphism_with_minus_one_negates_and_reverses() {
    // X -> X^7 = -X^{-1} on X^4 + 1.
    let poly = ModularPolynomial::new(vec![1, 2, 3, 4], 17);
    let automorphed = poly.apply_galois_automorphism(7);
    assert_eq!(automorphed.coeffs(), &[1, 13, 14, 15]);
    let identity = poly.apply_galois_automorphism(9);
    assert_eq!(identity.coeffs(), &[1, 2, 3, 4]);
}

#[test]
fn modular_polynomial_reduces_coefficients() {
    let poly = ModularPolynomial::new(vec![17, 34, 35, 99], 17);
    assert_eq!(poly.coeffs(), &[0, 0, 1, 14]);
}

#[test]
fn modular_polynomial_add_sub_consistency() {
    let modulus = 97;
    let a = ModularPolynomial::new(vec![96, 10, 5, 42, 0, 1, 2, 3], modulus);
    let b = ModularPolynomial::new(vec![5, 90, 90, 70, 1, 2, 3, 4], modulus);

    let sum = a.add(&b);
    let back = sum.sub(&b);

    assert_eq!(back, a);
}

#[test]
fn ntt_multiplication_matches_naive() {
    let modulus = 998_244_353;
    let plan = NttPlan::new(8, modulus, 3).expect("valid NTT plan");

    let lhs = ModularPolynomial::new(vec![11, 22, 33, 44, 55, 66, 77, 88], modulus);
    let rhs = ModularPolynomial::new(vec![3, 1, 4, 1, 5, 9, 2, 6], modulus);

    let expected = lhs.multiply_naive(&rhs);
    let actual = lhs.multiply_ntt(&rhs, &plan);

    assert_eq!(actual, expected);
}

#[test]
fn naive_multiplication_wraps_negacyclically() {
    // (x^3) * (x) = x^4 = -1 in Z_17[x]/(x^4 + 1)
    let modulus = 17;
    let lhs = ModularPolynomial::new(vec![0, 0, 0, 1], modulus);
    let rhs = ModularPolynomial::new(vec![0, 1, 0, 0], modulus);
    assert_eq!(lhs.multiply_naive(&rhs).coeffs(), &[16, 0, 0, 0]);
}

#[test]
fn naive_multiplication_by_zero_is_zero() {
    let modulus = 17;
    let lhs = ModularPolynomial::new(vec![3, 4, 5, 6], modulus);
    let zero = ModularPolynomial::zero(4, modulus);
    assert_eq!(lhs.multiply_naive(&zero).coeffs(), &[0, 0, 0, 0]);
}

#[test]
fn ntt_plan_reports_its_parameters() {
    let plan = NttPlan::new(8, 998_244_353, 3).expect("valid NTT plan");
    assert_eq!(plan.size(), 8);
    assert_eq!(plan.modulus(), 998_244_353);
    let psi = plan.negacyclic_twiddle() as u128;
    let psi_inv = plan.negacyclic_twiddle_inv() as u128;
    assert_eq!((psi * psi_inv) % 998_244_353, 1);
}

#[test]
fn ntt_plan_rejects_small_modulus_and_zero_size() {
    assert!(NttPlan::new(0, 998_244_353, 3).is_err());
    assert!(NttPlan::new(1, 2, 3).is_err());
}

#[test]
fn bignat_round_trips_small_values() {
    let value = BigNat::from_u64(0x1234_5678_9abc_def0);
    assert_eq!(value.to_u64(), Some(0x1234_5678_9abc_def0));
    assert_eq!(value.to_u32_digits(), vec![0x9abc_def0, 0x1234_5678]);
    assert_eq!(BigNat::zero().to_u64(), Some(0));
}

#[test]
fn centered_conversions_round_trip_modulo_q() {
    let modulus = BigNat::from_u64(97);
    let high = BigNat::from_u64(90);
    let centered = ckks::math::bignum::mod_q_biguint_to_centered(&high, &modulus);
    assert!(centered.is_negative());
    assert_eq!(centered.magnitude().to_u64(), Some(7));
    let back = ckks::math::bignum::centered_bigint_to_mod_q(&centered, &modulus);
    assert_eq!(back.to_u64(), Some(90));

    let negative = BigInteger::from_i64(-100);
    assert_eq!(ckks::math::bignum::centered_bigint_to_mod_q(&negative, &modulus).to_u64(), Some(94));
}
