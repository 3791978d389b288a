use ckks::algorithms::paterson_stockmeyer::paterson_stockmeyer_required_levels;
use ckks::ckks::bootstrapping::coeff_to_slot::{CoeffToSlotPlan, CoeffToSlotRuntime};
use ckks::ckks::bootstrapping::eval_mod::{validate_eval_mod_degree, EvalModRuntime};
use ckks::ckks::bootstrapping::linear_transform::{
    diagonal_transform_bsgs_rotation_steps,
    diagonal_transform_rotation_steps,
    generate_diagonal_transform_rotation_keys,
    validate_square_matrix,
};
use ckks::ckks::bootstrapping::mod_raise::{decrypt_mod_raised, mod_raise};
use ckks::ckks::bootstrapping::params::validate_active_slots;
use ckks::ckks::bootstrapping::{BootstrapKeySet, BootstrapParameters};
use ckks::rns::encoding::{exponent_to_eval_index, slot_exponents};
use ckks::rns::{RnsCkksContext, RnsCkksParams, RnsPrime};

use ckks::rns::ErrorSampler;
use rand_distr::{Distribution, Normal};

/// Rounded draws from a normal distribution of standard deviation 3.19.
struct NormalSampler;

impl ErrorSampler for NormalSampler {
    fn sample(&mut self) -> i64 {
        let normal = Normal::new(0.0_f64, 3.19_f64).expect("valid gaussian parameters");
        normal.sample(&mut rand::thread_rng()).round() as i64
    }
}

fn sample_key_context() -> RnsCkksContext {
    RnsCkksContext::new(RnsCkksParams {
        poly_degree: 16,
        primes: vec![
            RnsPrime::new(998_244_353, 3),
            RnsPrime::new(1_004_535_809, 3),
            RnsPrime::new(469_762_049, 3),
            RnsPrime::new(754_974_721, 11),
        ],
        aux_primes: vec![RnsPrime::new(167_772_161, 3)],
        scale_bits: 28,
    })
    .expect("sample key CKKS context must build")
}

#[test]
fn realistic_bootstrap_parameters_capture_q_and_eval_sizes() {
    let context = RnsCkksContext::new(RnsCkksParams::realistic_8_level())
        .expect("realistic RNS CKKS params must build");

    let params = BootstrapParameters::new(&context, 7, 8)
        .expect("realistic preset must support bootstrap parameters");

    assert_eq!(params.ciphertext_level, 7);
    assert_eq!(params.q_level_count, 8);
    assert_eq!(params.eval_level_count, 10);
    assert_eq!(params.aux_level_count, 2);
}

#[test]
fn bootstrap_parameters_reject_bad_levels_and_slot_counts() {
    let context = sample_key_context();
    assert!(BootstrapParameters::new(&context, 4, 4).is_err());
    assert!(BootstrapParameters::new(&context, 3, 0).is_err());
    assert!(BootstrapParameters::new(&context, 3, 3).is_err());
    assert!(BootstrapParameters::new(&context, 3, 16).is_err());
    let params = BootstrapParameters::new(&context, 2, 4).expect("level 2 with 4 slots must be accepted");
    assert_eq!(params.q_level_count, 3);
    assert_eq!(params.eval_level_count, 4);
    assert_eq!(params.aux_level_count, 1);
    assert_eq!(params.slot_count, 8);
    assert_eq!(params.active_slots, 4);
}

#[test]
fn coeff_to_slot_plan_follows_bootstrap_active_slots() {
    let context = RnsCkksContext::new(RnsCkksParams::realistic_8_level())
        .expect("realistic RNS CKKS params must build");
    let bootstrap = BootstrapParameters::new(&context, 7, 8)
        .expect("realistic preset must support bootstrap parameters");

    let plan = CoeffToSlotPlan::new(bootstrap.clone());

    assert_eq!(plan.bootstrap, bootstrap);
    assert_eq!(plan.transform_dimension, 8);
    assert_eq!(plan.rotation_steps, vec![1, 2, 3, 4, 5, 6, 7]);
}

#[test]
fn coeff_to_slot_runtime_requires_matching_level() {
    let context = sample_key_context();
    let key_pair = context.keygen(4, &mut NormalSampler);
    let plaintext = context.rns_context().poly_from_coeffs(&[1, 0, 0, 0, 0, 0, 0, 0, 0, 0, 0, 0, 0, 0, 0, 0]);
    let ciphertext = context.encrypt(&plaintext, &key_pair.public_key, &mut NormalSampler);
    let plan = CoeffToSlotPlan::from_ciphertext(&context, &ciphertext, 8).expect("plan construction must succeed");

    let runtime = CoeffToSlotRuntime::new(plan.clone(), &ciphertext).expect("runtime construction must succeed");
    assert_eq!(runtime.plan, plan);
    assert_eq!(runtime.ciphertext_level, ciphertext.level);
    assert_eq!(runtime.ciphertext_scale_bits, ciphertext.scale_bits);

    let lowered = ciphertext.drop_last_level();
    let error = CoeffToSlotRuntime::new(plan, &lowered).expect_err("mismatched level must be rejected");
    assert!(error.contains("did not match CoeffToSlot plan level"));
}

#[test]
fn eval_mod_key_scaffold_matches_paterson_stockmeyer_levels() {
    let context = RnsCkksContext::new(RnsCkksParams::realistic_8_level())
        .expect("realistic RNS CKKS params must build");
    let key_pair = context.keygen(64, &mut NormalSampler);

    let keys = BootstrapKeySet::for_eval_mod(&context, &key_pair, 7, 4, &mut NormalSampler);
    let expected_levels = paterson_stockmeyer_required_levels(7, 4);

    assert_eq!(keys.eval_mod_relinearization_keys.len(), expected_levels.len());
    for level in expected_levels {
        assert!(keys.eval_mod_relinearization_keys.contains_key(&level));
    }
    assert!(keys.coeff_to_slot_rotation_keys.is_empty());
    assert!(keys.slot_to_coeff_rotation_keys.is_empty());
    assert!(keys.conjugation_key.is_none());
}

#[test]
fn dense_coeff_to_slot_key_scaffold_includes_rotations_and_conjugation() {
    let context = sample_key_context();
    let key_pair = context.keygen(16, &mut NormalSampler);

    let keys = BootstrapKeySet::for_dense_coeff_to_slot(&context, &key_pair, 3, &mut NormalSampler);

    assert_eq!(keys.coeff_to_slot_rotation_keys.len(), context.num_slots() - 1);
    assert!(keys.conjugation_key.is_some());
    assert!(keys.slot_to_coeff_rotation_keys.is_empty());
    assert!(keys.eval_mod_relinearization_keys.is_empty());
}

#[test]
fn coeff_to_slot_key_scaffold_includes_sparse_rotations_only() {
    let context = sample_key_context();
    let key_pair = context.keygen(16, &mut NormalSampler);

    let keys = BootstrapKeySet::for_coeff_to_slot(&context, &key_pair, 3, 4, &mut NormalSampler);

    assert_eq!(keys.coeff_to_slot_rotation_keys.len(), 3);
    assert!(keys.slot_to_coeff_rotation_keys.is_empty());
    assert!(keys.eval_mod_relinearization_keys.is_empty());
    assert!(keys.conjugation_key.is_none());
}

#[test]
fn dense_slot_to_coeff_key_scaffold_includes_rotations() {
    let context = sample_key_context();
    let key_pair = context.keygen(16, &mut NormalSampler);

    let keys = BootstrapKeySet::for_dense_slot_to_coeff(&context, &key_pair, 3, &mut NormalSampler);

    assert_eq!(keys.slot_to_coeff_rotation_keys.len(), context.num_slots() - 1);
    assert!(keys.coeff_to_slot_rotation_keys.is_empty());
    assert!(keys.conjugation_key.is_none());
}

#[test]
fn slot_to_coeff_key_scaffold_includes_sparse_rotations_only() {
    let context = sample_key_context();
    let key_pair = context.keygen(16, &mut NormalSampler);

    let keys = BootstrapKeySet::for_slot_to_coeff(&context, &key_pair, 3, 4, &mut NormalSampler);

    assert_eq!(keys.slot_to_coeff_rotation_keys.len(), 3);
    assert!(keys.coeff_to_slot_rotation_keys.is_empty());
    assert!(keys.eval_mod_relinearization_keys.is_empty());
    assert!(keys.conjugation_key.is_none());
}

#[test]
fn conjugation_key_uses_the_minus_one_galois_element() {
    let context = sample_key_context();
    let key_pair = context.keygen(4, &mut NormalSampler);
    let key = context.generate_conjugation_key_at_level(&key_pair.secret_key, &key_pair.public_key, 2, &mut NormalSampler);
    assert_eq!(key.galois_element, 31);
    assert_eq!(key.keyswitch_key.level, 2);
}

#[test]
fn diagonal_transform_rotation_steps_cover_nonzero_diagonals() {
    assert_eq!(diagonal_transform_rotation_steps(1), Vec::<usize>::new());
    assert_eq!(diagonal_transform_rotation_steps(4), vec![1, 2, 3]);
}

#[test]
fn diagonal_transform_bsgs_steps_cover_baby_and_giant_rotations() {
    assert_eq!(diagonal_transform_bsgs_rotation_steps(1), Vec::<usize>::new());
    assert_eq!(diagonal_transform_bsgs_rotation_steps(4), vec![1, 2]);
    assert_eq!(diagonal_transform_bsgs_rotation_steps(8), vec![1, 2, 3, 6]);
}

#[test]
fn diagonal_transform_bsgs_steps_of_other_dimensions() {
    assert_eq!(diagonal_transform_bsgs_rotation_steps(2), vec![1]);
    assert_eq!(diagonal_transform_bsgs_rotation_steps(9), vec![1, 2, 3, 6]);
    assert_eq!(diagonal_transform_bsgs_rotation_steps(10), vec![1, 2, 3, 4, 8]);
}

#[test]
fn diagonal_transform_keys_cover_every_step_below_the_dimension() {
    let context = sample_key_context();
    let key_pair = context.keygen(4, &mut NormalSampler);
    let keys = generate_diagonal_transform_rotation_keys(&context, &key_pair.secret_key, &key_pair.public_key, 1, 5, &mut NormalSampler);
    let steps: Vec<usize> = keys.by_step.keys().copied().collect();
    assert_eq!(steps, vec![1, 2, 3, 4]);
    assert_eq!(keys.by_step[&2].galois_element, 25);
}

#[test]
fn mod_raise_keeps_the_ciphertext_primes() {
    let context = sample_key_context();
    let key_pair = context.keygen(4, &mut NormalSampler);
    let coeffs: Vec<u64> = (0..16u64).map(|i| i * 1000).collect();
    let plaintext = context.rns_context().poly_from_coeffs(&coeffs);
    let ciphertext = context.encrypt(&plaintext, &key_pair.public_key, &mut NormalSampler);

    let raised = mod_raise(&context, &ciphertext);
    assert_eq!(raised.q_level(), ciphertext.level);
    assert_eq!(raised.aux_level_count(), 1);
    assert_eq!(raised.eval_level(), ciphertext.level + 1);

    let projected = raised.project_to_q_ciphertext();
    assert_eq!(projected.level, ciphertext.level);
    assert_eq!(projected.scale_bits, ciphertext.scale_bits);
    assert_eq!(projected.c0, ciphertext.c0);
    assert_eq!(projected.c1, ciphertext.c1);

    let decrypted = decrypt_mod_raised(&context, &raised, &key_pair.secret_key);
    let direct = context.decrypt(&ciphertext, &key_pair.secret_key);
    assert_eq!(decrypted.truncate_levels(ciphertext.level + 1), direct);
}

#[test]
fn slot_exponents_are_powers_of_five_modulo_twice_the_degree() {
    assert_eq!(slot_exponents(8), vec![1, 5, 9, 13]);
    assert_eq!(slot_exponents(16), vec![1, 5, 25, 29, 17, 21, 9, 13]);
    assert_eq!(exponent_to_eval_index(13), 6);
    assert_eq!(exponent_to_eval_index(1), 0);
}

#[test]
fn active_slot_validation_accepts_only_powers_of_two_within_the_slots() {
    let context = sample_key_context();
    assert!(validate_active_slots(&context, 8).is_ok());
    assert!(validate_active_slots(&context, 1).is_ok());
    assert_eq!(validate_active_slots(&context, 0).unwrap_err(), "active_slots must be positive");
    assert_eq!(validate_active_slots(&context, 6).unwrap_err(), "active_slots must be a power of two");
    assert!(validate_active_slots(&context, 16).unwrap_err().contains("cannot exceed the CKKS slot count 8"));
}

#[test]
fn eval_mod_runtime_checks_level_and_relinearization_keys() {
    let context = sample_key_context();
    let key_pair = context.keygen(4, &mut NormalSampler);
    let plaintext = context.rns_context().poly_from_coeffs(&[1, 0, 0, 0, 0, 0, 0, 0, 0, 0, 0, 0, 0, 0, 0, 0]);
    let ciphertext = context.encrypt(&plaintext, &key_pair.public_key, &mut NormalSampler);
    let bootstrap = BootstrapParameters::from_ciphertext(&context, &ciphertext, 4).expect("parameters must build");

    let runtime = EvalModRuntime::for_plan(&bootstrap, 3, &ciphertext).expect("matching level is accepted");
    assert_eq!(runtime.ciphertext_level, ciphertext.level);
    assert_eq!(runtime.ciphertext_scale_bits, ciphertext.scale_bits);
    assert_eq!(runtime.required_relinearization_levels, paterson_stockmeyer_required_levels(ciphertext.level, 4));

    let error = runtime.check_relinearization_keys(&Default::default()).expect_err("missing keys are rejected");
    assert!(error.contains("missing EvalMod relinearization key at level"));
    let keys = BootstrapKeySet::for_eval_mod(&context, &key_pair, ciphertext.level, 4, &mut NormalSampler);
    assert!(runtime.check_relinearization_keys(&keys.eval_mod_relinearization_keys).is_ok());

    let lowered = ciphertext.drop_last_level();
    let error = EvalModRuntime::for_plan(&bootstrap, 3, &lowered).expect_err("mismatched level is rejected");
    assert!(error.contains("did not match EvalMod plan level"));
}

#[test]
fn square_matrix_validation_accepts_power_of_two_squares_within_the_slots() {
    let square: Vec<Vec<u8>> = vec![vec![1, 2], vec![3, 4]];
    assert_eq!(validate_square_matrix(&square, 4), Some(2));
    assert_eq!(validate_square_matrix(&square, 1), None);
    let empty: Vec<Vec<u8>> = Vec::new();
    assert_eq!(validate_square_matrix(&empty, 4), None);
    let three: Vec<Vec<u8>> = vec![vec![0; 3], vec![0; 3], vec![0; 3]];
    assert_eq!(validate_square_matrix(&three, 8), None);
    let ragged: Vec<Vec<u8>> = vec![vec![1, 2], vec![3]];
    assert_eq!(validate_square_matrix(&ragged, 4), None);
}

#[test]
fn eval_mod_degree_must_be_positive_and_odd() {
    assert_eq!(validate_eval_mod_degree(0), Err("EvalMod polynomial_degree must be positive".to_string()));
    assert_eq!(
        validate_eval_mod_degree(4),
        Err("EvalMod polynomial_degree must be odd for a sine approximation".to_string())
    );
    assert_eq!(validate_eval_mod_degree(7), Ok(()));
}
