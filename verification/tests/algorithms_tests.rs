use ckks::algorithms::halevi_shoup::{
    generate_halevi_shoup_dot_product_rotation_keys,
    halevi_shoup_dot_product_rotation_steps,
};
use ckks::algorithms::packed_diagonal::{generate_packed_diagonal_rotation_keys, packed_diagonal_rotation_steps};
use ckks::algorithms::paterson_stockmeyer::{
    generate_paterson_stockmeyer_relinearization_keys,
    paterson_stockmeyer_block_size,
    paterson_stockmeyer_budget_ok,
    paterson_stockmeyer_coefficient_encodings,
    paterson_stockmeyer_eval_encoded,
    paterson_stockmeyer_required_levels,
};
use ckks::algorithms::total_sum::{generate_total_sum_rotation_keys, total_sum_rotation_steps};
use ckks::math::bignum::mod_q_biguint_to_centered;
use ckks::rns::basis::default_rns_primes;
use ckks::rns::{galois_element_for_rotation, RnsCkksContext, RnsCkksParams, RnsPolynomial};

use ckks::rns::ErrorSampler;
use rand_distr::{Distribution, Normal};

/// Rounded draws from a normal distribution of standard deviation 3.19.
struct NormalSampler;

impl ErrorSampler for NormalSampler {
    fn sample(&mut self) -> i64 {
        let normal = Normal::new(0.0_f64, 3.19_f64).expect("valid gaussian parameters");
        normal.sample(&mut rand::thread_rng()).round() as i64
    }
}

fn small_context() -> RnsCkksContext {
    RnsCkksContext::new(RnsCkksParams {
        poly_degree: 16,
        primes: default_rns_primes()[..3].to_vec(),
        aux_primes: Vec::new(),
        scale_bits: 30,
    })
    .expect("small CKKS context must build")
}

#[test]
fn halevi_shoup_dot_product_rotation_steps_follow_powers_of_two() {
    assert_eq!(halevi_shoup_dot_product_rotation_steps(1), Vec::<usize>::new());
    assert_eq!(halevi_shoup_dot_product_rotation_steps(4), vec![1, 2]);
    assert_eq!(halevi_shoup_dot_product_rotation_steps(5), vec![1, 2, 4]);
}

#[test]
fn packed_diagonal_rotation_steps_cover_nonzero_diagonals() {
    assert_eq!(packed_diagonal_rotation_steps(1), Vec::<usize>::new());
    assert_eq!(packed_diagonal_rotation_steps(4), vec![1, 2, 3]);
}

#[test]
fn paterson_stockmeyer_block_size_is_ceil_sqrt() {
    assert_eq!(paterson_stockmeyer_block_size(1), 1);
    assert_eq!(paterson_stockmeyer_block_size(2), 2);
    assert_eq!(paterson_stockmeyer_block_size(4), 2);
    assert_eq!(paterson_stockmeyer_block_size(5), 3);
    assert_eq!(paterson_stockmeyer_block_size(9), 3);
}

#[test]
fn paterson_stockmeyer_required_levels_cover_all_multiplication_levels() {
    assert_eq!(paterson_stockmeyer_required_levels(7, 1), Vec::<usize>::new());
    assert_eq!(paterson_stockmeyer_required_levels(7, 5), vec![7, 6, 5]);
}

#[test]
fn total_sum_rotation_steps_follow_powers_of_two() {
    assert_eq!(total_sum_rotation_steps(1), Vec::<usize>::new());
    assert_eq!(total_sum_rotation_steps(4), vec![1, 2]);
    assert_eq!(total_sum_rotation_steps(5), vec![1, 2, 4]);
}

#[test]
fn total_sum_rotation_steps_of_larger_counts() {
    assert_eq!(total_sum_rotation_steps(2), vec![1]);
    assert_eq!(total_sum_rotation_steps(8), vec![1, 2, 4]);
    assert_eq!(total_sum_rotation_steps(9), vec![1, 2, 4, 8]);
    assert_eq!(halevi_shoup_dot_product_rotation_steps(16), vec![1, 2, 4, 8]);
}

#[test]
fn paterson_stockmeyer_block_size_of_larger_counts() {
    assert_eq!(paterson_stockmeyer_block_size(10), 4);
    assert_eq!(paterson_stockmeyer_block_size(16), 4);
    assert_eq!(paterson_stockmeyer_block_size(17), 5);
}

#[test]
fn paterson_stockmeyer_required_levels_for_square_counts() {
    assert_eq!(paterson_stockmeyer_required_levels(5, 2), vec![5]);
    assert_eq!(paterson_stockmeyer_required_levels(5, 4), vec![5, 4]);
    assert_eq!(paterson_stockmeyer_required_levels(9, 10), vec![9, 8, 7, 6, 5]);
}

#[test]
fn total_sum_keys_cover_each_fold_step() {
    let context = small_context();
    let pair = context.keygen(4, &mut NormalSampler);
    let keys = generate_total_sum_rotation_keys(&context, &pair.secret_key, &pair.public_key, 2, 5, &mut NormalSampler);
    let steps: Vec<usize> = keys.keys().copied().collect();
    assert_eq!(steps, vec![1, 2, 4]);
    for (step, key) in keys.iter() {
        assert_eq!(key.galois_element, galois_element_for_rotation(16, *step as isize));
        assert_eq!(key.keyswitch_key.level, 2);
    }
}

#[test]
fn halevi_shoup_keys_match_their_steps() {
    let context = small_context();
    let pair = context.keygen(4, &mut NormalSampler);
    let keys = generate_halevi_shoup_dot_product_rotation_keys(&context, &pair.secret_key, &pair.public_key, 1, 4, &mut NormalSampler);
    let steps: Vec<usize> = keys.keys().copied().collect();
    assert_eq!(steps, vec![1, 2]);
}

#[test]
fn packed_diagonal_keys_cover_every_diagonal() {
    let context = small_context();
    let pair = context.keygen(4, &mut NormalSampler);
    let keys = generate_packed_diagonal_rotation_keys(&context, &pair.secret_key, &pair.public_key, 2, 4, &mut NormalSampler);
    let steps: Vec<usize> = keys.by_step.keys().copied().collect();
    assert_eq!(steps, vec![1, 2, 3]);
    assert_eq!(keys.by_step[&3].galois_element, 125 % 32);
}

#[test]
fn paterson_stockmeyer_relinearization_keys_at_required_levels() {
    let context = small_context();
    let pair = context.keygen(4, &mut NormalSampler);
    let keys = generate_paterson_stockmeyer_relinearization_keys(&context, &pair.secret_key, &pair.public_key, 2, 4, &mut NormalSampler);
    let levels: Vec<usize> = keys.keys().copied().collect();
    assert_eq!(levels, vec![1, 2]);
    for (level, key) in keys.iter() {
        assert_eq!(key.level, *level);
    }
}

fn constant_poly(context: &RnsCkksContext, level: usize, value: u64) -> RnsPolynomial {
    let basis = context.level_context(level).expect("level context must exist");
    let mut coeffs = vec![0u64; 16];
    coeffs[0] = value;
    basis.poly_from_coeffs(&coeffs)
}

#[test]
fn paterson_stockmeyer_on_integer_encodings_evaluates_the_linear_polynomial() {
    let context = small_context();
    let pair = context.keygen(7, &mut NormalSampler);
    let input_scale_bits = 20usize;
    let top = context.rns_context().poly_from_coeffs(&[3 << 20, 0, 0, 0, 0, 0, 0, 0, 0, 0, 0, 0, 0, 0, 0, 0]);
    let mut ciphertext = context.encrypt(&top, &pair.public_key, &mut NormalSampler);
    ciphertext.scale_bits = input_scale_bits;
    let coefficients = [5u64, 7];
    let encodings = paterson_stockmeyer_coefficient_encodings(&context, ciphertext.level, input_scale_bits, 2);
    // one block at level 1: the constant at the working scale, x's coefficient at the rest
    assert_eq!(encodings, vec![(1, 28), (1, 8)]);
    let plaintexts: Vec<Option<RnsPolynomial>> = coefficients
        .iter()
        .zip(encodings.iter())
        .map(|(&c, &(level, scale))| Some(constant_poly(&context, level, c << scale)))
        .collect();
    let one = |level: usize, scale: usize| constant_poly(&context, level, 1u64 << scale);
    let relin_keys =
        generate_paterson_stockmeyer_relinearization_keys(&context, &pair.secret_key, &pair.public_key, ciphertext.level, 2, &mut NormalSampler);
    let evaluated = paterson_stockmeyer_eval_encoded(&context, &ciphertext, &plaintexts, &one, &relin_keys);
    assert_eq!(evaluated.level, 1);
    assert_eq!(evaluated.scale_bits, 28);

    let decrypted = context.decrypt(&evaluated, &pair.secret_key);
    let basis = context.level_context(1).expect("level context must exist");
    let values = decrypted.reconstruct_coefficients(&basis);
    let total = basis.total_modulus();
    let constant = mod_q_biguint_to_centered(&values[0], &total);
    let expected: i64 = (5 + 7 * 3) << 28;
    let got = if constant.is_negative() {
        -(constant.magnitude().to_u64().expect("value fits") as i64)
    } else {
        constant.magnitude().to_u64().expect("value fits") as i64
    };
    assert!((got - expected).abs() < 1 << 24, "expected about {expected}, got {got}");
}

#[test]
fn paterson_stockmeyer_budget_counts_baby_and_giant_steps() {
    // Eight terms: blocks of three, three blocks, so two levels of baby steps
    // and two of giant steps.
    assert!(paterson_stockmeyer_budget_ok(4, 8));
    assert!(!paterson_stockmeyer_budget_ok(3, 8));
    assert!(paterson_stockmeyer_budget_ok(0, 1));
    assert!(!paterson_stockmeyer_budget_ok(0, 2));
    assert!(paterson_stockmeyer_budget_ok(2, 4));
}
