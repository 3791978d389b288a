//! What a hybrid key switch decrypts to: relinearizing through the
//! evaluation basis `Q * P` and dividing by `P` keeps the decryption, up to
//! `1/P` times the digit-weighted key errors and the rounding of the division.

use vstd::arithmetic::div_mod::*;
use vstd::arithmetic::mul::*;
use vstd::arithmetic::power::*;
use vstd::arithmetic::power2::*;
use vstd::prelude::*;

use crate::poly::{lemma_negacyclic_linear, negacyclic_partial};

use super::basis::{lemma_product_divisible, lemma_product_positive, moduli_product, RnsContext};
use super::ciphertexts::{RnsCiphertext, RnsQuadraticCiphertext};
use super::keys::is_gaussian_lift;
use super::keyswitching::{
    aux_moduli,
    balanced_rest,
    centered_values,
    crt_matches,
    extends_basis,
    is_crt_of,
    is_crt_of_part,
    is_balanced_lift,
    is_gadget_decomposition,
    is_hybrid_digit_for,
    is_hybrid_key_for,
    is_hybrid_relinearization_of,
    is_hybrid_switch_of,
    is_lift_of,
    is_lifted_switch,
    is_mod_down_of,
    lemma_centered_mod,
    square_of,
    RnsKeySwitchingKey,
};
use super::ops::{centered, lemma_fits_from_shape, residue_fits, square_coeffs};
use super::polynomial::{prod_coeff, RnsPolynomial};
use super::switching::{
    carry_residue,
    decryption_residue,
    digit_noise,
    fits_basis,
    lemma_gadget_recombination,
    lemma_residue_facts,
    lemma_switch_decrypts,
    lemma_weighted_split,
    recombined,
    recombined_residue,
    target_residue,
    weighted_decryptions,
    weighted_noise,
};

verus! {

/// The centered values of `crt` modulo `total` as a target, the same at every prime.
pub open spec fn centered_target(crt: Seq<nat>, total: int) -> spec_fn(int, int) -> int {
    |l: int, k: int| centered(crt[k] as int, total)
}

/// The error of a hybrid key digit against `factor * value` is a Gaussian
/// polynomial `e`: residue by residue, the digit's decryption under `s`
/// minus `factor * value` is `e`.
pub open spec fn is_hybrid_noise(
    key_digit: RnsCiphertext,
    s: RnsPolynomial,
    factor: int,
    crt: Seq<nat>,
    total: int,
    n: nat,
    moduli: Seq<u64>,
) -> bool {
    exists|e: RnsPolynomial|
        {
            &&& e.has_shape(n, moduli)
            &&& #[trigger] is_gaussian_lift(e, n)
            &&& forall|l: int, k: int|
                0 <= l < moduli.len() && 0 <= k < n ==> #[trigger] digit_noise(
                    key_digit,
                    s,
                    factor,
                    centered_target(crt, total),
                    l,
                )[k] == e.coeff(l, k)
        }
}

/// Decrypting a hybrid key digit under the lifted secret leaves its Gaussian error.
pub proof fn lemma_hybrid_digit_noise(
    key_digit: RnsCiphertext,
    crt: Seq<nat>,
    total: int,
    factor: int,
    s: RnsPolynomial,
    n: nat,
    moduli: Seq<u64>,
)
    requires
        is_hybrid_digit_for(key_digit, centered_values(crt, total), factor, s, n, moduli),
        key_digit.has_shape(n, moduli),
        moduli.len() > 0,
    ensures
        is_hybrid_noise(key_digit, s, factor, crt, total, n, moduli),
{
    let e = choose|e: RnsPolynomial|
        {
            &&& e.has_shape(n, moduli)
            &&& #[trigger] is_gaussian_lift(e, n)
            &&& forall|l: int, k: int|
                0 <= l < moduli.len() && 0 <= k < n ==> #[trigger] key_digit.c0.coeff(l, k) as int == (centered_values(
                    crt,
                    total,
                )(k) * factor + e.coeff(l, k) - prod_coeff(key_digit.c1, s, l, k)) % (moduli[l] as int)
        };
    assert forall|l: int, k: int| 0 <= l < moduli.len() && 0 <= k < n implies #[trigger] digit_noise(
        key_digit,
        s,
        factor,
        centered_target(crt, total),
        l,
    )[k] == e.coeff(l, k) by {
        let p = moduli[l] as int;
        lemma_residue_facts(key_digit.c0, n, moduli, l);
        lemma_residue_facts(e, n, moduli, l);
        assert(key_digit.c0.spec_residues()[0].spec_degree() == n);
        let v = centered(crt[k] as int, total);
        let c0 = key_digit.c0.coeff(l, k) as int;
        let pr = prod_coeff(key_digit.c1, s, l, k);
        let ek = e.coeff(l, k) as int;
        assert(c0 == (v * factor + ek - pr) % p);
        let d = c0 + pr;
        assert(decryption_residue(key_digit, s, l)[k] as int == d % p) by {
            lemma_mod_bound(d, p);
        }
        lemma_digit_noise_algebra(c0, pr, v * factor, ek, p);
        lemma_mod_bound(d % p - factor * v, p);
        lemma_mul_is_commutative(v, factor);
    }
}

/// The modular bookkeeping of [`lemma_hybrid_digit_noise`].
proof fn lemma_digit_noise_algebra(c0: int, pr: int, vf: int, e: int, p: int)
    requires
        p > 0,
        0 <= e < p,
        c0 == (vf + e - pr) % p,
    ensures
        ((c0 + pr) % p - vf) % p == e,
{
    lemma_sub_mod_noop(c0 + pr, vf, p);
    lemma_mod_twice(c0 + pr, p);
    lemma_sub_mod_noop((c0 + pr) % p, vf, p);
    lemma_add_mod_noop(vf + e - pr, pr, p);
    lemma_add_mod_noop(c0, pr, p);
    lemma_mod_twice(vf + e - pr, p);
    assert(vf + e - pr + pr == vf + e);
    lemma_sub_mod_noop(vf + e, vf, p);
    assert(vf + e - vf == e);
    lemma_small_mod(e as nat, p as nat);
}

/// Residue `l` of the rounding remainders of a division by `p_aux`, reduced.
pub open spec fn remainder_residue(crt: Seq<nat>, p_aux: int, q: int, n: nat) -> Seq<u64> {
    Seq::new(n, |k: int| (centered(crt[k] as int, p_aux) % q) as u64)
}

/// Coefficient `k` modulo ciphertext prime `l` of the equation of
/// [`lemma_hybrid_relinearize_decrypts`].
pub open spec fn hybrid_relinearized_at(
    r: RnsCiphertext,
    ct: RnsQuadraticCiphertext,
    key: RnsKeySwitchingKey,
    s: RnsPolynomial,
    src_crt: Seq<nat>,
    s_lift: RnsPolynomial,
    lifted: Seq<RnsPolynomial>,
    crt: Seq<nat>,
    crt0: Seq<nat>,
    crt1: Seq<nat>,
    n: nat,
    q_moduli: Seq<u64>,
    aux: Seq<u64>,
    count: nat,
    l: int,
    k: int,
) -> bool {
    let q = q_moduli[l] as int;
    let big_p = moduli_product(aux) as int;
    let total = moduli_product(q_moduli) as int;
    let base = pow2(key.decomp_bits as nat) as int;
    let sq = square_coeffs(s, l);
    (big_p * (r.c0.coeff(l, k) + prod_coeff(r.c1, s, l, k))) % q == (big_p * (ct.c0.coeff(l, k) + prod_coeff(
        ct.c1,
        s,
        l,
        k,
    ) + negacyclic_partial(ct.c2.residue_coeffs()[l], sq, k, n) - pow(base, count) * negacyclic_partial(
        carry_residue(crt, base, count, total, q, n),
        sq,
        k,
        n,
    )) + weighted_noise(lifted, key.ksk@, s_lift, base, big_p, centered_target(src_crt, total), l, k, count)
        - centered(crt0[k] as int, big_p) - negacyclic_partial(
        remainder_residue(crt1, big_p, q, n),
        s.residue_coeffs()[l],
        k,
        n,
    )) % q
}

/// Coefficient `k` modulo auxiliary prime `l` (an index past the ciphertext
/// primes): there the key's `P * B^i * s^2` term vanishes, and the weighted
/// key errors `sum_i L_i * e_i` equal the remainders `rem0 + rem1 * s'` of
/// the division by `P`. With the lifted digits `L_i` the same integers at
/// every prime, this says `sum_i L_i * e_i - rem0 - rem1 * s'` is divisible
/// by `P`.
pub open spec fn hybrid_remainder_at(
    key: RnsKeySwitchingKey,
    s_lift: RnsPolynomial,
    src_crt: Seq<nat>,
    lifted: Seq<RnsPolynomial>,
    crt0: Seq<nat>,
    crt1: Seq<nat>,
    n: nat,
    q_moduli: Seq<u64>,
    aux: Seq<u64>,
    count: nat,
    l: int,
    k: int,
) -> bool {
    let p = (q_moduli + aux)[l] as int;
    let big_p = moduli_product(aux) as int;
    let total = moduli_product(q_moduli) as int;
    let base = pow2(key.decomp_bits as nat) as int;
    weighted_noise(lifted, key.ksk@, s_lift, base, big_p, centered_target(src_crt, total), l, k, count) % p == (
    centered(crt0[k] as int, big_p) + negacyclic_partial(
        remainder_residue(crt1, big_p, p, n),
        s_lift.residue_coeffs()[l],
        k,
        n,
    )) % p
}

/// The equation of [`hybrid_remainder_at`] at auxiliary prime `l`.
proof fn lemma_hybrid_remainder_at(
    eval_basis: RnsContext,
    key: RnsKeySwitchingKey,
    s_lift: RnsPolynomial,
    src_crt: Seq<nat>,
    lifted: Seq<RnsPolynomial>,
    acc: RnsCiphertext,
    crt0: Seq<nat>,
    crt1: Seq<nat>,
    n: nat,
    q_moduli: Seq<u64>,
    aux: Seq<u64>,
    count: nat,
    l: int,
    k: int,
)
    requires
        eval_basis.wf(),
        eval_basis.spec_degree() == n,
        eval_basis.spec_moduli() == q_moduli + aux,
        q_moduli.len() <= l < q_moduli.len() + aux.len(),
        0 <= k < n,
        lifted.len() == count,
        count <= key.ksk@.len(),
        forall|i: int| 0 <= i < count ==> (#[trigger] lifted[i]).has_shape(n, q_moduli + aux),
        forall|i: int|
            0 <= i < key.ksk@.len() ==> (#[trigger] key.ksk@[i]).has_shape(n, q_moduli + aux),
        fits_basis(s_lift, n, q_moduli + aux),
        acc.c0.has_shape(n, q_moduli + aux),
        acc.c1.has_shape(n, q_moduli + aux),
        is_crt_of_part(crt0, acc.c0, q_moduli.len() as int, aux),
        is_crt_of_part(crt1, acc.c1, q_moduli.len() as int, aux),
        (acc.c0.coeff(l, k) + prod_coeff(acc.c1, s_lift, l, k)) % ((q_moduli + aux)[l] as int) == weighted_decryptions(
            lifted,
            key.ksk@,
            s_lift,
            l,
            k,
            count,
        ) % ((q_moduli + aux)[l] as int),
    ensures
        hybrid_remainder_at(key, s_lift, src_crt, lifted, crt0, crt1, n, q_moduli, aux, count, l, k),
{
    eval_basis.lemma_context_facts();
    let em = q_moduli + aux;
    let p = em[l] as int;
    let j = l - q_moduli.len();
    assert(aux[j] == em[l]);
    let big_p = moduli_product(aux) as int;
    let total = moduli_product(q_moduli) as int;
    let base = pow2(key.decomp_bits as nat) as int;
    let target = centered_target(src_crt, total);
    assert forall|t: int| 0 <= t < aux.len() implies #[trigger] aux[t] >= 1 by {
        assert(aux[t] == em[q_moduli.len() + t]);
    }
    lemma_product_divisible(aux, j);
    lemma_product_positive(aux);
    assert(p >= 3);
    // modulo p the key's scaled term vanishes
    lemma_weighted_split(eval_basis, lifted, key.ksk@, s_lift, base, big_p, target, l, count);
    let x = negacyclic_partial(
        recombined_residue(lifted, base, l, count, n, p),
        target_residue(target, l, n, p),
        k,
        n,
    );
    let wn = weighted_noise(lifted, key.ksk@, s_lift, base, big_p, target, l, k, count);
    lemma_fundamental_div_mod(big_p, p);
    let t = big_p / p;
    assert(big_p * x == p * (t * x)) by (nonlinear_arith)
        requires
            big_p == p * t + 0,
    ;
    lemma_mod_multiples_vanish(t * x, wn, p);
    // the remainders are the accumulator's residues at p
    assert(crt0[k] % (aux[j] as nat) == acc.c0.coeff(l, k));
    lemma_centered_mod(crt0[k] as int, big_p, p);
    let rr = remainder_residue(crt1, big_p, p, n);
    let a1 = acc.c1.residue_coeffs()[l];
    assert(acc.c1.spec_residues()[l].spec_degree() == n);
    assert(rr =~= a1) by {
        assert forall|m: int| 0 <= m < n implies rr[m] == a1[m] by {
            assert(crt1.len() == acc.c1.spec_degree());
            assert(acc.c1.spec_residues()[0].spec_degree() == n);
            assert(crt1[m] % (aux[j] as nat) == acc.c1.coeff(l, m));
            lemma_centered_mod(crt1[m] as int, big_p, p);
            assert(acc.c1.coeff(l, m) < p);
            lemma_small_mod(acc.c1.coeff(l, m) as nat, p as nat);
        }
    }
    assert(residue_fits(s_lift, l, n, em[l]));
    assert(acc.c1.spec_moduli()[l] == em[l]);
    let pr = negacyclic_partial(a1, s_lift.residue_coeffs()[l], k, n);
    assert(prod_coeff(acc.c1, s_lift, l, k) == pr % p);
    let c0 = acc.c0.coeff(l, k) as int;
    let r0 = centered(crt0[k] as int, big_p);
    assert(c0 == r0 % p) by {
        lemma_small_mod(acc.c0.coeff(l, k) as nat, p as nat);
        assert(acc.c0.spec_residues()[0].spec_degree() == n);
        assert(crt0.len() == acc.c0.spec_degree());
    }
    lemma_add_mod_noop(c0, pr % p, p);
    lemma_mod_twice(pr, p);
    lemma_add_mod_noop(r0, pr, p);
    lemma_mod_twice(r0, p);
}

/// The witnesses and the equation of [`lemma_hybrid_relinearize_decrypts`]:
/// the key's source values and lifted secret, the gadget digits of `c2` and
/// their lifts, the CRT values of `c2`, and the remainders of the division.
pub open spec fn hybrid_relinearized_as(
    r: RnsCiphertext,
    ct: RnsQuadraticCiphertext,
    key: RnsKeySwitchingKey,
    s: RnsPolynomial,
    src_crt: Seq<nat>,
    s_lift: RnsPolynomial,
    digits: Seq<RnsPolynomial>,
    lifted: Seq<RnsPolynomial>,
    crt: Seq<nat>,
    crt0: Seq<nat>,
    crt1: Seq<nat>,
    n: nat,
    q_moduli: Seq<u64>,
    aux: Seq<u64>,
    count: nat,
) -> bool {
    let total = moduli_product(q_moduli) as int;
    let base = pow2(key.decomp_bits as nat) as int;
    &&& crt_matches(src_crt, square_of(s), q_moduli, n)
    &&& s_lift.has_shape(n, q_moduli + aux)
    &&& is_lift_of(s_lift, s, q_moduli, q_moduli + aux)
    &&& forall|i: int|
        0 <= i < count ==> is_hybrid_noise(
            #[trigger] key.ksk@[i],
            s_lift,
            moduli_product(aux) * pow(base, i as nat),
            src_crt,
            total,
            n,
            q_moduli + aux,
        )
    &&& is_gadget_decomposition(digits, ct.c2, n, q_moduli, key.decomp_bits as nat, count)
    &&& lifted.len() == count
    &&& is_balanced_lift(lifted, ct.c2, n, q_moduli, aux, key.decomp_bits as nat, count)
    &&& forall|i: int, l: int, k: int|
        0 <= i < count && 0 <= l < q_moduli.len() && 0 <= k < n ==> #[trigger] lifted[i].coeff(l, k) == digits[i].coeff(
            l,
            k,
        )
    &&& is_crt_of(crt, ct.c2, q_moduli)
    &&& crt0.len() == n
    &&& crt1.len() == n
    &&& forall|k: int| 0 <= k < n ==> #[trigger] crt0[k] < moduli_product(aux) && crt1[k] < moduli_product(aux)
    &&& forall|l: int, k: int|
        q_moduli.len() <= l < q_moduli.len() + aux.len() && 0 <= k < n ==> #[trigger] hybrid_remainder_at(
            key,
            s_lift,
            src_crt,
            lifted,
            crt0,
            crt1,
            n,
            q_moduli,
            aux,
            count,
            l,
            k,
        )
    &&& forall|l: int, k: int|
        0 <= l < q_moduli.len() && 0 <= k < n ==> #[trigger] hybrid_relinearized_at(
            r,
            ct,
            key,
            s,
            src_crt,
            s_lift,
            lifted,
            crt,
            crt0,
            crt1,
            n,
            q_moduli,
            aux,
            count,
            l,
            k,
        )
}

/// `a == b` and `c == d` modulo `q` give `a + c == b + d` modulo `q`.
proof fn lemma_add_cong(a: int, b: int, c: int, d: int, q: int)
    requires
        q > 0,
        a % q == b % q,
        c % q == d % q,
    ensures
        (a + c) % q == (b + d) % q,
{
    lemma_add_mod_noop(a, c, q);
    lemma_add_mod_noop(b, d, q);
}

/// `a == b` modulo `q` gives `m * a == m * b` modulo `q`.
proof fn lemma_mul_cong(m: int, a: int, b: int, q: int)
    requires
        q > 0,
        a % q == b % q,
    ensures
        (m * a) % q == (m * b) % q,
{
    lemma_mul_mod_noop_right(m, a, q);
    lemma_mul_mod_noop_right(m, b, q);
}

/// The modular bookkeeping of [`lemma_hybrid_relinearized_at`].
proof fn lemma_hybrid_algebra(
    big_p: int,
    c0: int,
    w0: int,
    r0: int,
    pr1: int,
    pc1: int,
    pw1: int,
    a0: int,
    pa1: int,
    cen0: int,
    prem1: int,
    w: int,
    prr: int,
    noise: int,
    pc2: int,
    bcarry: int,
    q: int,
)
    requires
        q > 0,
        r0 == (c0 + w0) % q,
        pr1 % q == (pc1 + 1 * pw1) % q,
        (w0 * big_p) % q == (a0 - cen0) % q,
        pa1 % q == (prem1 + big_p * pw1) % q,
        (a0 + pa1 % q) % q == w % q,
        w % q == (big_p * prr + noise) % q,
        prr % q == (pc2 + (-1) * bcarry) % q,
    ensures
        (big_p * (r0 + pr1 % q)) % q == (big_p * (c0 + pc1 % q + pc2 - bcarry) + noise - cen0 - prem1) % q,
{
    lemma_mod_twice(c0 + w0, q);
    lemma_mod_twice(pr1, q);
    lemma_mod_twice(pc1, q);
    lemma_mod_twice(pa1, q);
    // r0 + pr1 % q == c0 + w0 + pc1 + pw1
    lemma_add_cong(r0, c0 + w0, pr1 % q, pc1 + pw1, q);
    lemma_mul_cong(big_p, r0 + pr1 % q, c0 + w0 + pc1 + pw1, q);
    assert(big_p * (c0 + w0 + pc1 + pw1) == big_p * c0 + big_p * pc1 + w0 * big_p + big_p * pw1) by (nonlinear_arith);
    // big_p * pw1 == pa1 - prem1
    lemma_add_cong(pa1, prem1 + big_p * pw1, -prem1, -prem1, q);
    assert(prem1 + big_p * pw1 + -prem1 == big_p * pw1);
    // a0 + pa1 == w == big_p * prr + noise
    lemma_add_cong(a0, a0, pa1 % q, pa1, q);
    // w0 * big_p + big_p * pw1 == a0 + pa1 - cen0 - prem1
    lemma_add_cong(w0 * big_p, a0 - cen0, big_p * pw1, pa1 + -prem1, q);
    assert(a0 - cen0 + (pa1 + -prem1) == (a0 + pa1) + (-cen0 - prem1));
    lemma_add_cong(a0 + pa1, big_p * prr + noise, -cen0 - prem1, -cen0 - prem1, q);
    // big_p * prr == big_p * (pc2 - bcarry)
    lemma_mul_cong(big_p, prr, pc2 + (-1) * bcarry, q);
    lemma_add_cong(big_p * prr, big_p * (pc2 + (-1) * bcarry), noise - cen0 - prem1, noise - cen0 - prem1, q);
    assert(big_p * prr + noise + (-cen0 - prem1) == big_p * prr + (noise - cen0 - prem1));
    // assemble the left side
    lemma_add_cong(
        big_p * c0 + big_p * pc1,
        big_p * c0 + big_p * pc1,
        w0 * big_p + big_p * pw1,
        big_p * (pc2 + (-1) * bcarry) + (noise - cen0 - prem1),
        q,
    );
    // and the right side
    lemma_add_cong(c0, c0, pc1 % q, pc1, q);
    lemma_add_cong(c0 + pc1 % q, c0 + pc1, pc2 - bcarry, pc2 - bcarry, q);
    assert(c0 + pc1 % q + (pc2 - bcarry) == c0 + pc1 % q + pc2 - bcarry);
    assert(c0 + pc1 + (pc2 - bcarry) == c0 + pc1 + pc2 - bcarry);
    lemma_mul_cong(big_p, c0 + pc1 % q + pc2 - bcarry, c0 + pc1 + pc2 - bcarry, q);
    lemma_add_cong(
        big_p * (c0 + pc1 % q + pc2 - bcarry),
        big_p * (c0 + pc1 + pc2 - bcarry),
        noise - cen0 - prem1,
        noise - cen0 - prem1,
        q,
    );
    assert(big_p * (c0 + pc1 + pc2 - bcarry) + (noise - cen0 - prem1) == big_p * c0 + big_p * pc1 + (big_p * (pc2
        + (-1) * bcarry) + (noise - cen0 - prem1))) by (nonlinear_arith);
    assert(big_p * (c0 + pc1 % q + pc2 - bcarry) + (noise - cen0 - prem1) == big_p * (c0 + pc1 % q + pc2 - bcarry)
        + noise - cen0 - prem1);
    assert(big_p * c0 + big_p * pc1 + (w0 * big_p + big_p * pw1) == big_p * c0 + big_p * pc1 + w0 * big_p + big_p
        * pw1);
}

/// Digits that agree at a prime recombine to the same value there.
proof fn lemma_recombined_agree(a: Seq<RnsPolynomial>, b: Seq<RnsPolynomial>, base: int, l: int, k: int, c: nat)
    requires
        c <= a.len(),
        c <= b.len(),
        forall|i: int| 0 <= i < c ==> #[trigger] a[i].coeff(l, k) == b[i].coeff(l, k),
    ensures
        recombined(a, base, l, k, c) == recombined(b, base, l, k, c),
    decreases c,
{
    if c > 0 {
        lemma_recombined_agree(a, b, base, l, k, (c - 1) as nat);
        assert(a[c - 1].coeff(l, k) == b[c - 1].coeff(l, k));
    }
}

/// One coefficient of [`lemma_hybrid_relinearize_decrypts`].
proof fn lemma_hybrid_relinearized_at(
    q_basis: RnsContext,
    eval_basis: RnsContext,
    ct: RnsQuadraticCiphertext,
    key: RnsKeySwitchingKey,
    r: RnsCiphertext,
    s: RnsPolynomial,
    w: RnsCiphertext,
    src_crt: Seq<nat>,
    s_lift: RnsPolynomial,
    digits: Seq<RnsPolynomial>,
    lifted: Seq<RnsPolynomial>,
    acc: RnsCiphertext,
    crt: Seq<nat>,
    crt0: Seq<nat>,
    crt1: Seq<nat>,
    aux: Seq<u64>,
    count: nat,
    l: int,
    k: int,
)
    requires
        q_basis.wf(),
        eval_basis.wf(),
        eval_basis.spec_degree() == q_basis.spec_degree(),
        eval_basis.spec_moduli() == q_basis.spec_moduli() + aux,
        0 <= l < q_basis.spec_levels(),
        0 <= k < q_basis.spec_degree(),
        ct.c0.has_shape(q_basis.spec_degree(), q_basis.spec_moduli()),
        ct.c1.has_shape(q_basis.spec_degree(), q_basis.spec_moduli()),
        ct.c2.has_shape(q_basis.spec_degree(), q_basis.spec_moduli()),
        r.has_shape(q_basis.spec_degree(), q_basis.spec_moduli()),
        w.has_shape(q_basis.spec_degree(), q_basis.spec_moduli()),
        acc.c1.has_shape(eval_basis.spec_degree(), eval_basis.spec_moduli()),
        fits_basis(s, q_basis.spec_degree(), q_basis.spec_moduli()),
        fits_basis(s_lift, eval_basis.spec_degree(), eval_basis.spec_moduli()),
        digits.len() == count,
        lifted.len() == count,
        count <= key.ksk@.len(),
        forall|i: int|
            0 <= i < count ==> (#[trigger] lifted[i]).has_shape(eval_basis.spec_degree(), eval_basis.spec_moduli()),
        forall|i: int|
            0 <= i < key.ksk@.len() ==> (#[trigger] key.ksk@[i]).has_shape(
                eval_basis.spec_degree(),
                eval_basis.spec_moduli(),
            ),
        forall|i: int, j: int|
            0 <= i < count && 0 <= j < q_basis.spec_degree() ==> #[trigger] lifted[i].coeff(l, j) == digits[i].coeff(l, j),
        forall|j: int| 0 <= j < q_basis.spec_degree() ==> #[trigger] s_lift.coeff(l, j) == s.coeff(l, j),
        forall|j: int|
            0 <= j < q_basis.spec_degree() ==> #[trigger] src_crt[j] % (q_basis.spec_moduli()[l] as nat) == prod_coeff(
                s,
                s,
                l,
                j,
            ),
        forall|j: int|
            0 <= j < q_basis.spec_degree() ==> {
                &&& #[trigger] r.c0.coeff(l, j) as int == (ct.c0.coeff(l, j) + w.c0.coeff(l, j)) % (
                q_basis.spec_moduli()[l] as int)
                &&& r.c1.coeff(l, j) as int == (ct.c1.coeff(l, j) + w.c1.coeff(l, j)) % (q_basis.spec_moduli()[l] as int)
            },
        forall|j: int|
            0 <= j < q_basis.spec_degree() ==> {
                &&& (#[trigger] w.c0.coeff(l, j) as int * moduli_product(aux)) % (q_basis.spec_moduli()[l] as int) == (
                acc.c0.coeff(l, j) as int - centered(crt0[j] as int, moduli_product(aux) as int)) % (
                q_basis.spec_moduli()[l] as int)
                &&& (w.c1.coeff(l, j) as int * moduli_product(aux)) % (q_basis.spec_moduli()[l] as int) == (
                acc.c1.coeff(l, j) as int - centered(crt1[j] as int, moduli_product(aux) as int)) % (
                q_basis.spec_moduli()[l] as int)
            },
        (acc.c0.coeff(l, k) + prod_coeff(acc.c1, s_lift, l, k)) % (q_basis.spec_moduli()[l] as int)
            == weighted_decryptions(lifted, key.ksk@, s_lift, l, k, count) % (q_basis.spec_moduli()[l] as int),
        forall|j: int|
            0 <= j < q_basis.spec_degree() ==> #[trigger] recombined(
                digits,
                pow2(key.decomp_bits as nat) as int,
                l,
                j,
                count,
            ) % (q_basis.spec_moduli()[l] as int) == (ct.c2.coeff(l, j) - pow(pow2(key.decomp_bits as nat) as int, count)
                * balanced_rest(
                centered(crt[j] as int, moduli_product(q_basis.spec_moduli()) as int),
                pow2(key.decomp_bits as nat) as int,
                count,
            )) % (q_basis.spec_moduli()[l] as int),
    ensures
        hybrid_relinearized_at(
            r,
            ct,
            key,
            s,
            src_crt,
            s_lift,
            lifted,
            crt,
            crt0,
            crt1,
            q_basis.spec_degree(),
            q_basis.spec_moduli(),
            aux,
            count,
            l,
            k,
        ),
{
    q_basis.lemma_context_facts();
    eval_basis.lemma_context_facts();
    let n = q_basis.spec_degree();
    let qm = q_basis.spec_moduli();
    let em = eval_basis.spec_moduli();
    let q = qm[l] as int;
    let qn = qm[l] as nat;
    let big_p = moduli_product(aux) as int;
    let total = moduli_product(qm) as int;
    let base = pow2(key.decomp_bits as nat) as int;
    let big_b = pow(base, count);
    let keys = key.ksk@;
    let sq = square_coeffs(s, l);
    assert(em[l] == qm[l]);
    assert(residue_fits(s, l, n, qm[l]));
    assert(residue_fits(s_lift, l, n, em[l]));
    let sl = s.residue_coeffs()[l];
    let sll = s_lift.residue_coeffs()[l];
    assert(sll =~= sl) by {
        assert forall|j: int| 0 <= j < n implies #[trigger] sll[j] == sl[j] by {
            assert(s_lift.coeff(l, j) == s.coeff(l, j));
        }
    }
    lemma_residue_facts(ct.c0, n, qm, l);
    lemma_residue_facts(ct.c1, n, qm, l);
    lemma_residue_facts(ct.c2, n, qm, l);
    lemma_residue_facts(r.c0, n, qm, l);
    lemma_residue_facts(r.c1, n, qm, l);
    lemma_residue_facts(w.c1, n, qm, l);
    lemma_residue_facts(acc.c1, n, em, l);
    let c1l = ct.c1.residue_coeffs()[l];
    let c2l = ct.c2.residue_coeffs()[l];
    let r1l = r.c1.residue_coeffs()[l];
    let w1l = w.c1.residue_coeffs()[l];
    let a1l = acc.c1.residue_coeffs()[l];
    // the digit-weighted key decryptions over the evaluation basis, at prime l
    lemma_weighted_split(eval_basis, lifted, keys, s_lift, base, big_p, centered_target(src_crt, total), l, count);
    let rrl = recombined_residue(lifted, base, l, count, n, q);
    let rr = recombined_residue(digits, base, l, count, n, q);
    assert(rrl =~= rr) by {
        assert forall|j: int| 0 <= j < n implies #[trigger] rrl[j] == rr[j] by {
            assert forall|i: int| 0 <= i < count implies #[trigger] lifted[i].coeff(l, j) == digits[i].coeff(l, j) by {}
            lemma_recombined_agree(lifted, digits, base, l, j, count);
        }
    }
    let tl = target_residue(centered_target(src_crt, total), l, n, q);
    assert(tl =~= sq) by {
        assert forall|j: int| 0 <= j < n implies #[trigger] tl[j] == sq[j] by {
            assert(total % q == 0);
            lemma_centered_mod(src_crt[j] as int, total, q);
            lemma_mod_bound(negacyclic_partial(sl, sl, j, sl.len()), q);
            assert(src_crt[j] % qn == prod_coeff(s, s, l, j));
        }
    }
    // the recombined digits are c2 - B^n * carry
    let carry = carry_residue(crt, base, count, total, q, n);
    assert forall|j: int| 0 <= j < n implies #[trigger] (rr[j] as int) % q == (c2l[j] + (-big_b) * carry[j]) % q by {
        let rest = balanced_rest(centered(crt[j] as int, total), base, count);
        let a = recombined(digits, base, l, j, count);
        lemma_mod_bound(a, q);
        lemma_mod_twice(a, q);
        lemma_mod_bound(rest, q);
        assert(carry[j] as int == rest % q);
        lemma_mul_mod_noop_right(-big_b, rest, q);
        lemma_add_mod_noop(c2l[j] as int, (-big_b) * (rest % q), q);
        lemma_add_mod_noop(c2l[j] as int, (-big_b) * rest, q);
        lemma_mul_unary_negation(big_b, rest);
        assert(c2l[j] as int == ct.c2.coeff(l, j));
    }
    lemma_negacyclic_linear(rr, c2l, carry, sq, -big_b, qn, k);
    // r.c1 = c1 + w1
    assert forall|j: int| 0 <= j < n implies #[trigger] (r1l[j] as int) % q == (c1l[j] + 1 * w1l[j]) % q by {
        assert(r.c0.coeff(l, j) as int == (ct.c0.coeff(l, j) + w.c0.coeff(l, j)) % q);
        lemma_mod_twice(ct.c1.coeff(l, j) + w.c1.coeff(l, j), q);
    }
    lemma_negacyclic_linear(r1l, c1l, w1l, sl, 1, qn, k);
    // acc.c1 = remainder + P * w1
    let rem1 = remainder_residue(crt1, big_p, q, n);
    assert forall|j: int| 0 <= j < n implies #[trigger] (a1l[j] as int) % q == (rem1[j] + big_p * w1l[j]) % q by {
        let cen = centered(crt1[j] as int, big_p);
        let a = acc.c1.coeff(l, j) as int;
        let x = w.c1.coeff(l, j) as int;
        assert((w.c0.coeff(l, j) as int * big_p) % q == (acc.c0.coeff(l, j) as int - centered(crt0[j] as int, big_p))
            % q);
        assert((x * big_p) % q == (a - cen) % q);
        assert(rem1[j] as int == cen % q) by {
            lemma_mod_bound(cen, q);
        }
        lemma_mul_is_commutative(x, big_p);
        lemma_mod_twice(cen, q);
        lemma_add_cong(big_p * x, a - cen, cen % q, cen, q);
        assert(a - cen + cen == a);
        lemma_mod_twice(a, q);
        assert(a1l[j] == acc.c1.coeff(l, j));
        assert(w1l[j] == w.c1.coeff(l, j));
        assert(cen % q + big_p * x == rem1[j] + big_p * w1l[j]);
    }
    lemma_negacyclic_linear(a1l, rem1, w1l, sl, big_p, qn, k);
    let pr1 = negacyclic_partial(r1l, sl, k, n);
    let pc1 = negacyclic_partial(c1l, sl, k, n);
    let pw1 = negacyclic_partial(w1l, sl, k, n);
    let pa1 = negacyclic_partial(a1l, sl, k, n);
    let prem1 = negacyclic_partial(rem1, sl, k, n);
    let prr = negacyclic_partial(rr, sq, k, n);
    let pc2 = negacyclic_partial(c2l, sq, k, n);
    let pcarry = negacyclic_partial(carry, sq, k, n);
    let wd = weighted_decryptions(lifted, keys, s_lift, l, k, count);
    let noise = weighted_noise(lifted, keys, s_lift, base, big_p, centered_target(src_crt, total), l, k, count);
    assert(prod_coeff(r.c1, s, l, k) == pr1 % q);
    assert(prod_coeff(ct.c1, s, l, k) == pc1 % q);
    assert(prod_coeff(acc.c1, s_lift, l, k) == pa1 % q);
    assert(r.c0.coeff(l, k) as int == (ct.c0.coeff(l, k) + w.c0.coeff(l, k)) % q);
    assert((-big_b) * pcarry == (-1) * (big_b * pcarry)) by (nonlinear_arith);
    lemma_hybrid_algebra(
        big_p,
        ct.c0.coeff(l, k) as int,
        w.c0.coeff(l, k) as int,
        r.c0.coeff(l, k) as int,
        pr1,
        pc1,
        pw1,
        acc.c0.coeff(l, k) as int,
        pa1,
        centered(crt0[k] as int, big_p),
        prem1,
        wd,
        prr,
        noise,
        pc2,
        big_b * pcarry,
        q,
    );
}

/// Hybrid relinearization preserves decryption up to `1/P` times a small
/// error: if `r` relinearizes `ct` with a hybrid key for `s^2` (its digit
/// `i` is `(v * P * B^i + e_i - a_i * s', a_i)` over `Q * P` for the
/// centered values `v` of `s^2`, the lift `s'` of `s`, Gaussian `e_i` and
/// `B = 2^decomp_bits`), then modulo each ciphertext prime
/// `P * (r.c0 + r.c1 * s) = P * (c0 + c1 * s + c2 * s^2 - B^n * carry * s^2)
///     + sum_i L_i * e_i - rem0 - rem1 * s`,
/// for the lifted gadget digits `L_i` of `c2`, the carry the decomposition
/// leaves, and the remainders `rem0`, `rem1` (below `P/2` in size) of the
/// division by `P`. Each `L_i` holds, modulo every prime of `Q * P`, the same
/// balanced digit of `c2` as an integer, and modulo every auxiliary prime
/// `sum_i L_i * e_i == rem0 + rem1 * s'`: the error term is divisible by `P`,
/// so dividing by `P` leaves `c0 + c1 * s + c2 * s^2` plus a small error.
pub proof fn lemma_hybrid_relinearize_decrypts(
    q_basis: RnsContext,
    eval_basis: RnsContext,
    ct: RnsQuadraticCiphertext,
    key: RnsKeySwitchingKey,
    r: RnsCiphertext,
    s: RnsPolynomial,
    count: nat,
)
    requires
        extends_basis(q_basis, eval_basis),
        ct.c0.has_shape(q_basis.spec_degree(), q_basis.spec_moduli()),
        ct.c1.has_shape(q_basis.spec_degree(), q_basis.spec_moduli()),
        ct.c2.has_shape(q_basis.spec_degree(), q_basis.spec_moduli()),
        r.has_shape(q_basis.spec_degree(), q_basis.spec_moduli()),
        forall|i: int|
            0 <= i < key.ksk@.len() ==> (#[trigger] key.ksk@[i]).has_shape(
                eval_basis.spec_degree(),
                eval_basis.spec_moduli(),
            ),
        key.decomp_bits >= 1,
        count <= key.ksk@.len(),
        fits_basis(s, q_basis.spec_degree(), q_basis.spec_moduli()),
        is_hybrid_key_for(
            key,
            square_of(s),
            s,
            q_basis.spec_degree(),
            q_basis.spec_moduli(),
            aux_moduli(q_basis, eval_basis),
        ),
        is_hybrid_relinearization_of(
            r,
            ct,
            key,
            q_basis.spec_degree(),
            q_basis.spec_moduli(),
            aux_moduli(q_basis, eval_basis),
            count,
        ),
    ensures
        exists|
            src_crt: Seq<nat>,
            s_lift: RnsPolynomial,
            digits: Seq<RnsPolynomial>,
            lifted: Seq<RnsPolynomial>,
            crt: Seq<nat>,
            crt0: Seq<nat>,
            crt1: Seq<nat>,
        |
            #[trigger] hybrid_relinearized_as(
                r,
                ct,
                key,
                s,
                src_crt,
                s_lift,
                digits,
                lifted,
                crt,
                crt0,
                crt1,
                q_basis.spec_degree(),
                q_basis.spec_moduli(),
                aux_moduli(q_basis, eval_basis),
                count,
            ),
{
    q_basis.lemma_context_facts();
    eval_basis.lemma_context_facts();
    let n = q_basis.spec_degree();
    let qm = q_basis.spec_moduli();
    let aux = aux_moduli(q_basis, eval_basis);
    let em = eval_basis.spec_moduli();
    let total = moduli_product(qm) as int;
    let big_p = moduli_product(aux) as int;
    let base = pow2(key.decomp_bits as nat) as int;
    let keys = key.ksk@;
    assert(em =~= qm + aux) by {
        assert forall|l: int| 0 <= l < qm.len() implies em[l] == qm[l] by {
            assert(eval_basis.spec_primes().subrange(0, q_basis.spec_levels() as int)[l] == eval_basis.spec_primes()[l]);
        }
    }
    let (src_crt, s_lift) = choose|src_crt: Seq<nat>, s_lift: RnsPolynomial|
        #![trigger crt_matches(src_crt, square_of(s), qm, n), is_lift_of(s_lift, s, qm, qm + aux)]
        {
            &&& crt_matches(src_crt, square_of(s), qm, n)
            &&& s_lift.has_shape(n, qm + aux)
            &&& is_lift_of(s_lift, s, qm, qm + aux)
            &&& forall|i: int|
                0 <= i < keys.len() ==> is_hybrid_digit_for(
                    #[trigger] keys[i],
                    centered_values(src_crt, total),
                    big_p * pow(base, i as nat),
                    s_lift,
                    n,
                    qm + aux,
                )
        };
    assert forall|i: int| 0 <= i < count implies is_hybrid_noise(
        #[trigger] keys[i],
        s_lift,
        big_p * pow(base, i as nat),
        src_crt,
        total,
        n,
        qm + aux,
    ) by {
        lemma_hybrid_digit_noise(keys[i], src_crt, total, big_p * pow(base, i as nat), s_lift, n, qm + aux);
    }
    let w = choose|w: RnsCiphertext|
        #[trigger] is_hybrid_switch_of(w, ct.c2, key, n, qm, aux, count) && w.has_shape(n, qm) && forall|l: int, k: int|
            0 <= l < qm.len() && 0 <= k < n ==> {
                &&& #[trigger] r.c0.coeff(l, k) as int == (ct.c0.coeff(l, k) + w.c0.coeff(l, k)) % (qm[l] as int)
                &&& r.c1.coeff(l, k) as int == (ct.c1.coeff(l, k) + w.c1.coeff(l, k)) % (qm[l] as int)
            };
    let (digits, lifted, acc, crt0, crt1) = choose|
        digits: Seq<RnsPolynomial>,
        lifted: Seq<RnsPolynomial>,
        acc: RnsCiphertext,
        crt0: Seq<nat>,
        crt1: Seq<nat>,
    |
        #![trigger is_gadget_decomposition(digits, ct.c2, n, qm, key.decomp_bits as nat, count), is_lifted_switch(lifted, digits, key, acc, n, qm, aux, count), is_mod_down_of(w.c0, acc.c0, crt0, qm, aux, n), is_mod_down_of(w.c1, acc.c1, crt1, qm, aux, n)]
        {
            &&& is_gadget_decomposition(digits, ct.c2, n, qm, key.decomp_bits as nat, count)
            &&& is_lifted_switch(lifted, digits, key, acc, n, qm, aux, count)
            &&& is_balanced_lift(lifted, ct.c2, n, qm, aux, key.decomp_bits as nat, count)
            &&& is_mod_down_of(w.c0, acc.c0, crt0, qm, aux, n)
            &&& is_mod_down_of(w.c1, acc.c1, crt1, qm, aux, n)
        };
    lemma_gadget_recombination(digits, ct.c2, n, qm, key.decomp_bits as nat, count);
    let crt = choose|crt: Seq<nat>|
        #[trigger] is_crt_of(crt, ct.c2, qm) && forall|l: int, k: int|
            0 <= l < qm.len() && 0 <= k < n ==> #[trigger] recombined(digits, base, l, k, count) % (qm[l] as int) == (
            ct.c2.coeff(l, k) - pow(base, count) * balanced_rest(centered(crt[k] as int, total), base, count)) % (
            qm[l] as int);
    // the lifted secret fits the evaluation basis and agrees with s on the ciphertext primes
    assert forall|l: int| 0 <= l < em.len() implies #[trigger] residue_fits(s_lift, l, n, em[l]) by {
        lemma_fits_from_shape(s_lift, n, em, l);
    }
    let crt_s = choose|crt_s: Seq<nat>|
        #[trigger] is_crt_of(crt_s, s, qm) && forall|l: int, k: int|
            0 <= l < (qm + aux).len() && 0 <= k < s.spec_degree() ==> #[trigger] s_lift.coeff(l, k) as int == centered(
                crt_s[k] as int,
                total,
            ) % ((qm + aux)[l] as int);
    assert(residue_fits(s, 0, n, qm[0]));
    // the accumulated switch decrypts to the digit-weighted key decryptions
    assert forall|i: int| 0 <= i < count implies (#[trigger] lifted[i]).has_shape(
        eval_basis.spec_degree(),
        em,
    ) by {}
    lemma_switch_decrypts(eval_basis, lifted, keys, s_lift, acc, count);
    assert forall|l: int, k: int| 0 <= l < qm.len() && 0 <= k < n implies #[trigger] hybrid_relinearized_at(
        r,
        ct,
        key,
        s,
        src_crt,
        s_lift,
        lifted,
        crt,
        crt0,
        crt1,
        n,
        qm,
        aux,
        count,
        l,
        k,
    ) by {
        let q = qm[l] as int;
        assert forall|j: int| 0 <= j < n implies #[trigger] s_lift.coeff(l, j) == s.coeff(l, j) by {
            assert(crt_s[j] % (qm[l] as nat) == s.coeff(l, j));
            lemma_centered_mod(crt_s[j] as int, total, q);
            lemma_small_mod(s.coeff(l, j) as nat, qm[l] as nat);
        }
        assert forall|j: int| 0 <= j < n implies #[trigger] src_crt[j] % (qm[l] as nat) == prod_coeff(s, s, l, j) by {
            assert(square_of(s)(l, j) == prod_coeff(s, s, l, j));
        }
        assert forall|j: int| 0 <= j < n implies {
            &&& (#[trigger] w.c0.coeff(l, j) as int * big_p) % q == (acc.c0.coeff(l, j) as int - centered(
                crt0[j] as int,
                big_p,
            )) % q
            &&& (w.c1.coeff(l, j) as int * big_p) % q == (acc.c1.coeff(l, j) as int - centered(crt1[j] as int, big_p))
                % q
        } by {}
        assert forall|j: int| 0 <= j < n implies {
            &&& #[trigger] r.c0.coeff(l, j) as int == (ct.c0.coeff(l, j) + w.c0.coeff(l, j)) % q
            &&& r.c1.coeff(l, j) as int == (ct.c1.coeff(l, j) + w.c1.coeff(l, j)) % q
        } by {}
        assert((acc.c0.coeff(l, k) + prod_coeff(acc.c1, s_lift, l, k)) % q == weighted_decryptions(
            lifted,
            keys,
            s_lift,
            l,
            k,
            count,
        ) % q);
        lemma_hybrid_relinearized_at(
            q_basis,
            eval_basis,
            ct,
            key,
            r,
            s,
            w,
            src_crt,
            s_lift,
            digits,
            lifted,
            acc,
            crt,
            crt0,
            crt1,
            aux,
            count,
            l,
            k,
        );
    }
    assert forall|k: int| 0 <= k < n implies #[trigger] crt0[k] < moduli_product(aux) && crt1[k] < moduli_product(aux) by {}
    assert forall|l: int, k: int| qm.len() <= l < qm.len() + aux.len() && 0 <= k < n implies #[trigger] hybrid_remainder_at(
        key,
        s_lift,
        src_crt,
        lifted,
        crt0,
        crt1,
        n,
        qm,
        aux,
        count,
        l,
        k,
    ) by {
        assert(fits_basis(s_lift, n, em));
        lemma_hybrid_remainder_at(
            eval_basis,
            key,
            s_lift,
            src_crt,
            lifted,
            acc,
            crt0,
            crt1,
            n,
            qm,
            aux,
            count,
            l,
            k,
        );
    }
    assert(hybrid_relinearized_as(
        r,
        ct,
        key,
        s,
        src_crt,
        s_lift,
        digits,
        lifted,
        crt,
        crt0,
        crt1,
        n,
        qm,
        aux,
        count,
    ));
}

} // verus!
