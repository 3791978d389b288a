use ckks::math::bignum::{mod_q_biguint_to_centered, BigInteger, BigNat};
use ckks::rns::basis::default_rns_primes;
use ckks::rns::keys::sample_error_poly;
use ckks::rns::ops::encrypt_rns_with_samples;
use ckks::rns::{
    galois_element_for_rotation,
    RnsCiphertext,
    RnsCkksContext,
    RnsCkksParams,
    RnsContext,
    RnsPolynomial,
    RnsPrime,
    RnsSecretKey,
};

use ckks::rns::ErrorSampler;
use rand_distr::{Distribution, Normal};

/// Rounded draws from a normal distribution of standard deviation 3.19.
struct NormalSampler;

impl ErrorSampler for NormalSampler {
    fn sample(&mut self) -> i64 {
        let normal = Normal::new(0.0_f64, 3.19_f64).expect("valid gaussian parameters");
        normal.sample(&mut rand::thread_rng()).round() as i64
    }
}

/// Error values handed out in a fixed order.
struct FixedSampler {
    values: Vec<i64>,
    next: usize,
}

impl ErrorSampler for FixedSampler {
    fn sample(&mut self) -> i64 {
        let value = self.values[self.next];
        self.next += 1;
        value
    }
}

fn sample_context() -> RnsContext {
    RnsContext::new(
        8,
        vec![RnsPrime::new(998_244_353, 3), RnsPrime::new(1_004_535_809, 3), RnsPrime::new(469_762_049, 3)],
    )
    .expect("sample RNS context must be valid")
}

fn sample_ckks_context() -> RnsCkksContext {
    RnsCkksContext::new(RnsCkksParams {
        poly_degree: 8,
        primes: default_rns_primes()[..3].to_vec(),
        aux_primes: Vec::new(),
        scale_bits: 40,
    })
    .expect("sample RNS CKKS context must be valid")
}

fn hybrid_ckks_context() -> RnsCkksContext {
    RnsCkksContext::new(RnsCkksParams {
        poly_degree: 16,
        primes: vec![
            RnsPrime::new(998_244_353, 3),
            RnsPrime::new(1_004_535_809, 3),
            RnsPrime::new(469_762_049, 3),
            RnsPrime::new(754_974_721, 11),
        ],
        aux_primes: vec![RnsPrime::new(167_772_161, 3)],
        scale_bits: 28,
    })
    .expect("hybrid CKKS context must build")
}

#[test]
fn context_builds_ntt_plans_for_each_prime() {
    let ctx = sample_context();
    assert_eq!(ctx.levels(), 3);
    assert_eq!(ctx.ntt_plans().len(), 3);
    assert_eq!(ctx.poly_degree(), 8);
}

#[test]
fn rns_polynomial_addition_reconstructs_correctly() {
    let ctx = sample_context();
    let lhs = ctx.poly_from_coeffs(&[10, 20, 30, 40]);
    let rhs = ctx.poly_from_coeffs(&[3, 4, 5, 6]);
    let sum = lhs.add(&rhs);
    let reconstructed = sum.reconstruct_coefficients(&ctx);

    assert_eq!(reconstructed[0].to_u64(), Some(13));
    assert_eq!(reconstructed[1].to_u64(), Some(24));
    assert_eq!(reconstructed[2].to_u64(), Some(35));
    assert_eq!(reconstructed[3].to_u64(), Some(46));
}

#[test]
fn rns_polynomial_multiplication_matches_per_level_reference() {
    let ctx = sample_context();
    let lhs = ctx.poly_from_coeffs(&[1, 2, 3, 4]);
    let rhs = ctx.poly_from_coeffs(&[4, 3, 2, 1]);
    let product = lhs.multiply_ntt(&rhs, &ctx);

    for ((lhs_level, rhs_level), product_level) in
        lhs.residues().iter().zip(rhs.residues().iter()).zip(product.residues().iter())
    {
        let expected = lhs_level.multiply_naive(rhs_level);
        assert_eq!(&expected, product_level);
    }
}

#[test]
fn dropping_rns_level_removes_last_modulus() {
    let ctx = sample_context();
    let poly = ctx.poly_from_coeffs(&[1, 2, 3]);
    let dropped = poly.drop_last_level();

    assert_eq!(dropped.levels(), 2);
    assert_eq!(dropped.residues()[0].modulus(), 998_244_353);
    assert_eq!(dropped.residues()[1].modulus(), 1_004_535_809);
}

#[test]
fn biguint_coefficients_reduce_into_each_residue() {
    let ctx = sample_context();
    let total = ctx.total_modulus();
    // total + 17, written through the limbs of both
    let digits = total.to_u32_digits();
    let mut carry = 17u64;
    let mut limbs = Vec::new();
    for digit in digits {
        let value = digit as u64 + carry;
        limbs.push(value as u32);
        carry = value >> 32;
    }
    if carry > 0 {
        limbs.push(carry as u32);
    }
    let big = BigNat::from_u32_digits(&limbs);
    let poly = RnsPolynomial::from_biguint_coeffs(&ctx, &[big]);

    for residue in poly.residues() {
        assert_eq!(residue.coeffs()[0], 17);
    }
}

#[test]
fn rns_ckks_context_reports_slot_count_and_scale() {
    let ctx = sample_ckks_context();
    assert_eq!(ctx.num_slots(), 4);
    assert_eq!(ctx.params().scale_bits, 40);
    assert_eq!(ctx.rns_context().levels(), 3);
    assert!(!ctx.has_aux_basis());
}

#[test]
fn default_rns_ckks_presets_build() {
    let toy = RnsCkksContext::new(RnsCkksParams::toy()).expect("toy RNS CKKS params must build");
    let small = RnsCkksContext::new(RnsCkksParams::small()).expect("small RNS CKKS params must build");

    assert_eq!(toy.num_slots(), 4);
    assert_eq!(small.num_slots(), 512);
    assert_eq!(toy.levels(), 6);
    assert!(small.total_modulus_bits() >= 170);
}

#[test]
fn realistic_rns_ckks_params_build_for_n15_and_8_levels() {
    let realistic =
        RnsCkksContext::new(RnsCkksParams::realistic_8_level()).expect("realistic RNS CKKS params must build");

    assert_eq!(realistic.params().poly_degree, 1 << 15);
    assert_eq!(realistic.num_slots(), 1 << 14);
    assert_eq!(realistic.levels(), 8);
    assert_eq!(realistic.params().scale_bits, 45);
    assert!(realistic.total_modulus_bits() >= 400);
    assert!(realistic.total_modulus_bits() <= 410);
    assert!(realistic.has_aux_basis());
    assert_eq!(realistic.aux_context().expect("realistic preset must have aux basis").levels(), 2);
    assert!(realistic.aux_modulus_bits().expect("realistic preset must report aux modulus bits") >= 98);
    assert!(realistic.eval_key_modulus_bits().expect("realistic preset must report eval-key modulus bits") >= 480);
}

#[test]
fn realistic_eval_key_basis_is_disjoint_and_extends_q_chain() {
    let realistic =
        RnsCkksContext::new(RnsCkksParams::realistic_8_level()).expect("realistic RNS CKKS params must build");
    let q_moduli: Vec<u64> = realistic.rns_context().primes().iter().map(|prime| prime.modulus).collect();
    let p_moduli: Vec<u64> = realistic
        .aux_context()
        .expect("realistic preset must have aux basis")
        .primes()
        .iter()
        .map(|prime| prime.modulus)
        .collect();
    let eval_key_context = realistic.eval_key_context().expect("realistic preset must have eval-key context");

    assert!(p_moduli.iter().all(|modulus| !q_moduli.contains(modulus)));
    assert_eq!(eval_key_context.levels(), q_moduli.len() + p_moduli.len());
    assert_eq!(
        eval_key_context.primes()[..q_moduli.len()].iter().map(|prime| prime.modulus).collect::<Vec<_>>(),
        q_moduli
    );
    assert_eq!(
        eval_key_context.primes()[q_moduli.len()..].iter().map(|prime| prime.modulus).collect::<Vec<_>>(),
        p_moduli
    );
}

#[test]
fn params_validation_rejects_overlapping_q_and_p_moduli() {
    let err = RnsCkksParams {
        poly_degree: 8,
        primes: vec![RnsPrime::new(998_244_353, 3)],
        aux_primes: vec![RnsPrime::new(998_244_353, 3)],
        scale_bits: 30,
    }
    .validate()
    .expect_err("Q and P chains must be disjoint");

    assert!(err.contains("distinct from the ciphertext modulus chain"));
}

#[test]
fn params_validation_rejects_scale_out_of_range() {
    let mut params = RnsCkksParams::toy();
    params.scale_bits = 0;
    assert!(params.validate().is_err());
    params.scale_bits = 60;
    assert!(params.validate().is_err());
    params.scale_bits = 59;
    assert!(params.validate().is_ok());
}

#[test]
fn level_context_returns_prefix_chain() {
    let ctx = sample_ckks_context();
    let level_one = ctx.level_context(1).expect("level 1 context must exist");

    assert_eq!(level_one.levels(), 2);
    assert_eq!(level_one.primes()[0].modulus, 998_244_353);
    assert_eq!(level_one.primes()[1].modulus, 1_004_535_809);
    assert!(ctx.level_context(3).is_err());
}

#[test]
fn eval_key_level_context_appends_aux_primes() {
    let ctx = hybrid_ckks_context();
    let eval = ctx.eval_key_level_context(1).expect("level 1 eval context must exist");
    let moduli: Vec<u64> = eval.primes().iter().map(|prime| prime.modulus).collect();
    assert_eq!(moduli, vec![998_244_353, 1_004_535_809, 167_772_161]);
    let err = ctx.eval_key_level_context(4).expect_err("level 4 is outside the chain");
    assert!(err.contains("level must be in 0..4"));
    assert!(sample_ckks_context().eval_key_level_context(0).is_err());
}

#[test]
fn rns_ciphertext_addition_is_component_wise() {
    let ctx = sample_context();
    let lhs = RnsCiphertext::new(ctx.poly_from_coeffs(&[1, 2, 3]), ctx.poly_from_coeffs(&[4, 5, 6]), 40);
    let rhs = RnsCiphertext::new(ctx.poly_from_coeffs(&[10, 20, 30]), ctx.poly_from_coeffs(&[40, 50, 60]), 40);

    let sum = lhs.add(&rhs);
    let c0 = sum.c0.reconstruct_coefficients(&ctx);
    let c1 = sum.c1.reconstruct_coefficients(&ctx);

    assert_eq!(c0[0].to_u64(), Some(11));
    assert_eq!(c0[1].to_u64(), Some(22));
    assert_eq!(c1[0].to_u64(), Some(44));
    assert_eq!(c1[1].to_u64(), Some(55));
}

#[test]
fn rns_ciphertext_drop_last_level_tracks_level() {
    let ctx = sample_context();
    let ct = RnsCiphertext::new(ctx.poly_from_coeffs(&[1, 2, 3]), ctx.poly_from_coeffs(&[4, 5, 6]), 40);

    let dropped = ct.drop_last_level();

    assert_eq!(dropped.level, 1);
    assert_eq!(dropped.c0.levels(), 2);
    assert_eq!(dropped.c1.levels(), 2);
}

#[test]
fn sparse_ternary_rns_secret_key_has_expected_weight() {
    let ctx = sample_context();
    let secret_key = RnsSecretKey::sample_sparse_ternary(&ctx, 3);
    let nonzero = secret_key.poly.residues()[0].coeffs().iter().filter(|&&coeff| coeff != 0).count();

    assert_eq!(nonzero, 3);
}

#[test]
fn sparse_ternary_secret_is_consistent_across_residues() {
    let ctx = sample_context();
    let secret_key = RnsSecretKey::sample_sparse_ternary(&ctx, 8);
    for k in 0..8 {
        let first = secret_key.poly.residues()[0].coeffs()[k];
        for residue in secret_key.poly.residues() {
            let q = residue.modulus();
            let value = residue.coeffs()[k];
            if first == 1 {
                assert_eq!(value, 1);
            } else {
                assert_eq!(value, q - 1);
            }
        }
    }
}

#[test]
fn rns_keygen_satisfies_public_key_relation_per_residue() {
    let ctx = sample_ckks_context();
    let pair = ctx.keygen(3, &mut NormalSampler);
    let relation =
        pair.public_key.p0.add(&pair.public_key.p1.multiply_ntt(&pair.secret_key.poly, ctx.rns_context()));

    for (got, expected) in relation.residues().iter().zip(pair.error.residues().iter()) {
        assert_eq!(got, expected);
    }
}

#[test]
fn rns_encrypt_decrypt_noiseless_matches_exact_plaintext() {
    let ctx = sample_ckks_context();
    let pair = ctx.keygen(3, &mut NormalSampler);
    let plaintext = ctx.rns_context().poly_from_coeffs(&[5, 0, 7, 0, 0, 11, 0, 3]);
    let mask = ctx.rns_context().poly_from_coeffs(&[1, 0, 1, 0, 0, 0, 0, 0]);
    let zero = ctx.rns_context().zero_poly();

    let ciphertext = encrypt_rns_with_samples(
        &plaintext,
        &pair.public_key,
        ctx.rns_context(),
        ctx.params().scale_bits,
        &mask,
        &zero,
        &zero,
    );
    let decrypted = ctx.decrypt(&ciphertext, &pair.secret_key);
    let expected = plaintext.add(&pair.error.multiply_ntt(&mask, ctx.rns_context()));

    assert_eq!(decrypted, expected);
}

#[test]
fn error_samples_are_lifted_into_every_residue() {
    let ctx = sample_context();
    let drawn = vec![-3, 0, 5, -1, 2, 0, -7, 4];
    let mut sampler = FixedSampler { values: drawn.clone(), next: 0 };
    let error = sample_error_poly(&ctx, &mut sampler);
    for k in 0..8 {
        for residue in error.residues() {
            let q = residue.modulus() as i64;
            assert_eq!(residue.coeffs()[k] as i64, drawn[k].rem_euclid(q));
        }
    }
}

#[test]
fn galois_elements_are_powers_of_five() {
    assert_eq!(galois_element_for_rotation(8, 0), 1);
    assert_eq!(galois_element_for_rotation(8, 1), 5);
    assert_eq!(galois_element_for_rotation(8, 2), 9);
    // 5 * 13 = 65 = 1 mod 16
    assert_eq!(galois_element_for_rotation(8, -1), 13);
    assert_eq!((galois_element_for_rotation(8, 3) * galois_element_for_rotation(8, -3)) % 16, 1);
}

#[test]
fn rotation_of_plaintext_applies_the_automorphism() {
    let ctx = sample_ckks_context();
    let poly = ctx.rns_context().poly_from_coeffs(&[0, 1, 0, 0, 0, 0, 0, 0]);
    let rotated = ctx.rotate_plain_raw(&poly, 1);
    // X -> X^5
    assert_eq!(rotated.residues()[0].coeffs(), &[0, 0, 0, 0, 0, 1, 0, 0]);
    let conj = ctx.apply_galois_automorphism(&poly, 15);
    // X -> X^15 = X^7 * X^8 = -X^7
    assert_eq!(conj.residues()[0].coeffs()[7], 998_244_352);
}

#[test]
fn rescale_divides_by_the_last_prime() {
    let ctx = sample_ckks_context();
    let q_last = 469_762_049u64;
    let value = 3 * q_last + 5;
    let poly = ctx.rns_context().poly_from_coeffs(&[value, 0, 0, 0, 0, 0, 0, 0]);
    let ct = RnsCiphertext::new(poly.duplicate(), poly, 40);
    let rescaled = ctx.rescale(&ct);
    assert_eq!(rescaled.level, 1);
    assert_eq!(rescaled.c0.residues()[0].coeffs()[0], 3);
    assert_eq!(rescaled.c0.residues()[1].coeffs()[0], 3);
    // the last prime has 29 bits, so 28 bits of scale go away
    assert_eq!(rescaled.scale_bits, 12);
}

#[test]
fn relinearization_key_switches_quadratic_decryption() {
    let ctx = sample_ckks_context();
    let pair = ctx.keygen(3, &mut NormalSampler);
    let relin = ctx.generate_relinearization_key(&pair.secret_key, &pair.public_key, &mut NormalSampler);
    assert_eq!(relin.level, 2);
    assert_eq!(relin.aux_level_count, 0);
    assert_eq!(relin.ksk.len(), (ctx.total_modulus_bits() as usize + 29) / 30);

    let hybrid = hybrid_ckks_context();
    let hybrid_pair = hybrid.keygen(4, &mut NormalSampler);
    let hybrid_relin = hybrid.generate_relinearization_key_at_level(&hybrid_pair.secret_key, &hybrid_pair.public_key, 2, &mut NormalSampler);
    assert_eq!(hybrid_relin.level, 2);
    assert_eq!(hybrid_relin.aux_level_count, 1);
    assert_eq!(hybrid_relin.ksk[0].c0.levels(), 4);
}

#[test]
fn keyswitch_of_zero_decrypts_to_small_noise() {
    let ctx = sample_ckks_context();
    let pair = ctx.keygen(3, &mut NormalSampler);
    let relin = ctx.generate_relinearization_key(&pair.secret_key, &pair.public_key, &mut NormalSampler);
    let zero = ctx.rns_context().zero_poly();
    let switched = ctx.keyswitch(&zero, &relin);
    assert_eq!(switched.level, 2);
    for residue in switched.c0.residues() {
        assert!(residue.coeffs().iter().all(|&c| c == 0));
    }
}

#[test]
fn bigint_polynomials_reduce_signed_values() {
    let ctx = sample_context();
    let poly = ctx.poly_from_bigint_coeffs(&[BigInteger::from_i64(-1), BigInteger::from_i64(5)]);
    for residue in poly.residues() {
        assert_eq!(residue.coeffs()[0], residue.modulus() - 1);
        assert_eq!(residue.coeffs()[1], 5);
    }
}

fn centered_distance(a: u64, b: u64, modulus: u64) -> u64 {
    let d = if a >= b { a - b } else { b - a };
    d.min(modulus - d)
}

#[test]
fn hybrid_relinearization_decrypts_close_to_the_quadratic_decryption() {
    let ctx = hybrid_ckks_context();
    let pair = ctx.keygen(4, &mut NormalSampler);
    let relin = ctx.generate_relinearization_key(&pair.secret_key, &pair.public_key, &mut NormalSampler);
    assert_eq!(relin.aux_level_count, 1);

    let lhs = ctx.rns_context().poly_from_coeffs(&[3, 1, 0, 2, 0, 0, 0, 0, 0, 0, 0, 0, 0, 0, 0, 5]);
    let rhs = ctx.rns_context().poly_from_coeffs(&[2, 0, 7, 0, 0, 1, 0, 0, 0, 0, 0, 0, 0, 0, 0, 0]);
    let quadratic = ctx.mult(&ctx.encrypt(&lhs, &pair.public_key, &mut NormalSampler), &ctx.encrypt(&rhs, &pair.public_key, &mut NormalSampler));
    let relinearized = ctx.relinearize(&quadratic, &relin);
    assert_eq!(relinearized.level, quadratic.level);

    let expected = ctx.decrypt_quadratic(&quadratic, &pair.secret_key);
    let actual = ctx.decrypt(&relinearized, &pair.secret_key);
    for (want, got) in expected.residues().iter().zip(actual.residues().iter()) {
        for (&w, &g) in want.coeffs().iter().zip(got.coeffs().iter()) {
            assert!(centered_distance(w, g, want.modulus()) < 1 << 16, "relinearization noise too large");
        }
    }
}

#[test]
fn relinearized_product_keeps_the_plaintext_product_in_the_high_bits() {
    let ctx = hybrid_ckks_context();
    let pair = ctx.keygen(4, &mut NormalSampler);
    let relin = ctx.generate_relinearization_key(&pair.secret_key, &pair.public_key, &mut NormalSampler);
    let scale: u64 = 1 << 12;
    let lhs = ctx.rns_context().poly_from_coeffs(&[3 * scale, 0, 0, 0, 0, 0, 0, 0, 0, 0, 0, 0, 0, 0, 0, 0]);
    let rhs = ctx.rns_context().poly_from_coeffs(&[5 * scale, 0, 0, 0, 0, 0, 0, 0, 0, 0, 0, 0, 0, 0, 0, 0]);
    let quadratic = ctx.mult(&ctx.encrypt(&lhs, &pair.public_key, &mut NormalSampler), &ctx.encrypt(&rhs, &pair.public_key, &mut NormalSampler));
    let decrypted = ctx.decrypt(&ctx.relinearize(&quadratic, &relin), &pair.secret_key);
    let residue = &decrypted.residues()[0];
    let product = 15 * scale * scale;
    let constant = residue.coeffs()[0];
    assert!(centered_distance(constant, product % residue.modulus(), residue.modulus()) < 1 << 24);
}

#[test]
fn rotation_decrypts_close_to_the_rotated_plaintext() {
    let ctx = hybrid_ckks_context();
    let pair = ctx.keygen(4, &mut NormalSampler);
    let key = ctx.generate_rotation_key(&pair.secret_key, &pair.public_key, 1, &mut NormalSampler);
    let scale: u64 = 1 << 20;
    let plaintext = ctx
        .rns_context()
        .poly_from_coeffs(&[3 * scale, scale, 0, 0, 0, 0, 0, 0, 0, 0, 0, 0, 0, 0, 0, 7 * scale]);
    let rotated = ctx.rotate(&ctx.encrypt(&plaintext, &pair.public_key, &mut NormalSampler), &key);
    assert_eq!(rotated.level, 3);

    let expected = ctx.rotate_plain_raw(&plaintext, 1);
    let difference = ctx.decrypt(&rotated, &pair.secret_key).sub(&expected);
    let total = ctx.rns_context().total_modulus();
    for value in difference.reconstruct_coefficients(ctx.rns_context()) {
        let centered = mod_q_biguint_to_centered(&value, &total);
        let magnitude = centered.magnitude().to_u64().expect("rotation noise is far below the modulus");
        assert!(magnitude < 1 << 54, "rotation noise too large");
    }
    // the rotation moved the plaintext coefficients
    assert_ne!(expected.residues()[0].coeffs(), plaintext.residues()[0].coeffs());
}

#[test]
fn sample_contexts_have_coprime_bases_and_rotations() {
    let ctx = sample_ckks_context();
    assert!(ctx.check_coprime_basis());
    assert!(ctx.check_rotation_ready());
    let hybrid = hybrid_ckks_context();
    assert!(hybrid.check_coprime_basis());
    assert!(hybrid.check_rotation_ready());
}

#[test]
fn ntt_plan_messages_follow_the_order_of_the_checks() {
    let bad_size = ckks::math::ntt::NttPlan::new(6, 97, 5).err().expect("size 6 is refused");
    assert_eq!(bad_size, "NTT size must be a non-zero power of two");
    let small = ckks::math::ntt::NttPlan::new(8, 2, 1).err().expect("modulus 2 is refused");
    assert_eq!(small, "modulus must be an odd prime larger than 2");
}

#[test]
fn basis_messages_name_the_offending_modulus() {
    let duplicate = RnsContext::new(8, vec![RnsPrime::new(998_244_353, 3), RnsPrime::new(998_244_353, 3)])
        .err()
        .expect("a repeated modulus is refused");
    assert_eq!(duplicate, "duplicate RNS modulus 998244353");
    let invalid = RnsContext::new(8, vec![RnsPrime::new(41, 6)]).err().expect("41 has no negacyclic NTT of size 8");
    assert_eq!(invalid, "invalid RNS prime 41: 2 * size must divide modulus - 1 for negacyclic NTTs");
}

#[test]
fn galois_elements_compose_like_their_steps() {
    let g1 = galois_element_for_rotation(8, 1);
    let g2 = galois_element_for_rotation(8, 2);
    let g3 = galois_element_for_rotation(8, 3);
    let gm2 = galois_element_for_rotation(8, -2);
    assert_eq!((g1 * g2) % 16, g3);
    assert_eq!((g3 * gm2) % 16, g1);
    assert_eq!(galois_element_for_rotation(8, 0), 1);
}

#[test]
fn rotating_back_restores_the_polynomial() {
    let ctx = sample_ckks_context();
    let poly = ctx.rns_context().poly_from_coeffs(&[3, 1, 4, 1, 5, 9, 2, 6]);
    let rotated = ctx.rotate_plain_raw(&poly, 3);
    assert_ne!(rotated, poly);
    let back = ctx.rotate_plain_raw(&rotated, -3);
    assert_eq!(back, poly);
}

#[test]
fn mult_slots_is_commutative() {
    let ctx = hybrid_ckks_context();
    let pair = ctx.keygen(4, &mut NormalSampler);
    let lhs_plain = ctx.rns_context().poly_from_coeffs(&[3, 1, 0, 2, 0, 0, 0, 0, 0, 0, 0, 0, 0, 0, 0, 5]);
    let rhs_plain = ctx.rns_context().poly_from_coeffs(&[2, 0, 7, 0, 0, 1, 0, 0, 0, 0, 0, 0, 0, 0, 0, 0]);
    let lhs = ctx.encrypt(&lhs_plain, &pair.public_key, &mut NormalSampler);
    let rhs = ctx.encrypt(&rhs_plain, &pair.public_key, &mut NormalSampler);
    let forward = ctx.mult_slots(&lhs, &rhs);
    let reverse = ctx.mult_slots(&rhs, &lhs);
    assert_eq!(forward.level, lhs.level - 1);
    assert_eq!(forward, reverse);
}

