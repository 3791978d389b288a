//! What a key switch decrypts to: decrypting a switched polynomial gives the
//! digit-weighted sum of the decryptions of the key's digits.

use vstd::arithmetic::div_mod::*;
use vstd::arithmetic::mul::*;
use vstd::arithmetic::power::*;
use vstd::arithmetic::power2::*;
use vstd::prelude::*;

use crate::math::dft::sum_to;
use crate::poly::{
    galois_coeff,
    galois_partial,
    lemma_negacyclic_associative,
    lemma_negacyclic_linear,
    lemma_negacyclic_partial_symmetric,
    negacyclic_partial,
    negacyclic_seq,
};

use super::basis::RnsContext;
use super::ciphertexts::{lemma_prefix_shape, RnsCiphertext, RnsQuadraticCiphertext};
use super::context::rotation::is_rotation_of;
use super::rotation::RnsRotationKey;
use super::keyswitching::{
    balanced_digit,
    balanced_digits,
    balanced_rest,
    galois_of,
    gadget_sum,
    is_crt_of,
    is_gadget_decomposition,
    is_relinearization_of,
    is_switch_of,
    is_switching_digit_for,
    square_of,
    lemma_balanced_digit_exact,
    lemma_balanced_reconstruct,
    switched_sum,
    RnsKeySwitchingKey,
};
use super::basis::{lemma_product_divisible, lemma_product_positive, moduli_product};
use super::keys::{is_gaussian_lift, is_public_key_for, is_ternary_lift, RnsPublicKey};
use super::ops::{centered, is_encryption, lemma_decrypt_encrypt_at, lemma_fits_from_shape, residue_fits, square_coeffs};
use super::polynomial::{is_galois_image, lemma_prefix_residues, prod_coeff, RnsPolynomial};

verus! {

/// Every residue of the basis `moduli` exists in `p` with `n` reduced coefficients.
pub open spec fn fits_basis(p: RnsPolynomial, n: nat, moduli: Seq<u64>) -> bool {
    forall|l: int| 0 <= l < moduli.len() ==> #[trigger] residue_fits(p, l, n, moduli[l])
}

/// Residue `l` of the decryption `c0 + c1 * s` of `ct`, reduced.
pub open spec fn decryption_residue(ct: RnsCiphertext, s: RnsPolynomial, l: int) -> Seq<u64> {
    Seq::new(
        ct.c0.spec_degree(),
        |k: int| ((ct.c0.coeff(l, k) + prod_coeff(ct.c1, s, l, k)) % (ct.c0.spec_moduli()[l] as int)) as u64,
    )
}

/// Coefficient `k`, before reduction modulo prime `l`, of
/// `sum_(i<count) digits[i] * (keys[i].c0 + keys[i].c1 * s)`.
pub open spec fn weighted_decryptions(
    digits: Seq<RnsPolynomial>,
    keys: Seq<RnsCiphertext>,
    s: RnsPolynomial,
    l: int,
    k: int,
    count: nat,
) -> int
    decreases count,
{
    if count == 0 {
        0
    } else {
        let i = count - 1;
        weighted_decryptions(digits, keys, s, l, k, (count - 1) as nat) + negacyclic_partial(
            digits[i].residue_coeffs()[l],
            decryption_residue(keys[i], s, l),
            k,
            digits[i].residue_coeffs()[l].len(),
        )
    }
}

/// Residue `l` of `sum_(i<count) digits[i] * keys[i].c1`, reduced.
spec fn switched_residue(
    digits: Seq<RnsPolynomial>,
    keys: Seq<RnsCiphertext>,
    l: int,
    count: nat,
    n: nat,
    q: int,
) -> Seq<u64> {
    Seq::new(n, |j: int| (switched_sum(digits, keys, true, l, j, count) % q) as u64)
}

/// A polynomial of the given shape: residue `l` has `n` reduced coefficients.
pub(crate) proof fn lemma_residue_facts(p: RnsPolynomial, n: nat, moduli: Seq<u64>, l: int)
    requires
        p.has_shape(n, moduli),
        0 <= l < moduli.len(),
    ensures
        p.residue_coeffs()[l].len() == n,
        p.spec_moduli()[l] == moduli[l],
        forall|j: int| 0 <= j < n ==> #[trigger] p.residue_coeffs()[l][j] == p.coeff(l, j),
        forall|j: int| 0 <= j < n ==> #[trigger] p.coeff(l, j) < moduli[l],
{
    assert(p.spec_residues()[l].wf());
}

/// A product with a zero factor has zero raw coefficients.
proof fn lemma_partial_zero(a: Seq<u64>, b: Seq<u64>, k: int, upto: nat)
    requires
        upto <= a.len(),
        forall|i: int| 0 <= i < a.len() ==> #[trigger] a[i] == 0,
    ensures
        negacyclic_partial(a, b, k, upto) == 0,
    decreases upto,
{
    if upto > 0 {
        lemma_partial_zero(a, b, k, (upto - 1) as nat);
        assert(a[upto - 1] == 0);
    }
}

/// Decrypting a key switch: if `r` accumulates `sum_i digits[i] * keys[i]`
/// residue by residue, then `r.c0 + r.c1 * s` is, modulo each prime,
/// `sum_i digits[i] * (keys[i].c0 + keys[i].c1 * s)`.
pub proof fn lemma_switch_decrypts(
    context: RnsContext,
    digits: Seq<RnsPolynomial>,
    keys: Seq<RnsCiphertext>,
    s: RnsPolynomial,
    r: RnsCiphertext,
    count: nat,
)
    requires
        context.wf(),
        digits.len() == count,
        count <= keys.len(),
        forall|i: int|
            0 <= i < digits.len() ==> (#[trigger] digits[i]).has_shape(context.spec_degree(), context.spec_moduli()),
        forall|i: int| 0 <= i < keys.len() ==> (#[trigger] keys[i]).c0.has_shape(context.spec_degree(), context.spec_moduli())
            && keys[i].c1.has_shape(context.spec_degree(), context.spec_moduli()),
        fits_basis(s, context.spec_degree(), context.spec_moduli()),
        r.c0.has_shape(context.spec_degree(), context.spec_moduli()),
        r.c1.has_shape(context.spec_degree(), context.spec_moduli()),
        forall|l: int, k: int|
            0 <= l < context.spec_levels() && 0 <= k < context.spec_degree() ==> {
                &&& #[trigger] r.c0.coeff(l, k) as int == switched_sum(digits, keys, false, l, k, count) % (
                context.spec_moduli()[l] as int)
                &&& r.c1.coeff(l, k) as int == switched_sum(digits, keys, true, l, k, count) % (
                context.spec_moduli()[l] as int)
            },
    ensures
        forall|l: int, k: int|
            0 <= l < context.spec_levels() && 0 <= k < context.spec_degree() ==> #[trigger] (r.c0.coeff(l, k)
                + prod_coeff(r.c1, s, l, k)) % (context.spec_moduli()[l] as int) == weighted_decryptions(
                digits,
                keys,
                s,
                l,
                k,
                count,
            ) % (context.spec_moduli()[l] as int),
{
    context.lemma_context_facts();
    let n = context.spec_degree();
    assert forall|l: int, k: int| 0 <= l < context.spec_levels() && 0 <= k < n implies #[trigger] (r.c0.coeff(l, k)
        + prod_coeff(r.c1, s, l, k)) % (context.spec_moduli()[l] as int) == weighted_decryptions(
        digits,
        keys,
        s,
        l,
        k,
        count,
    ) % (context.spec_moduli()[l] as int) by {
        let q = context.spec_moduli()[l] as int;
        let c = count;
        lemma_switch_prefix(context, digits, keys, s, l, c);
        let x = switched_residue(digits, keys, l, c, n, q);
        lemma_residue_facts(r.c1, n, context.spec_moduli(), l);
        lemma_residue_facts(r.c0, n, context.spec_moduli(), l);
        assert forall|j: int| 0 <= j < n implies #[trigger] r.c1.residue_coeffs()[l][j] == x[j] by {
            assert(r.c0.coeff(l, j) as int == switched_sum(digits, keys, false, l, j, c) % q);
            lemma_mod_bound(switched_sum(digits, keys, true, l, j, c), q);
        }
        assert(r.c1.residue_coeffs()[l] =~= x);
        let sw0 = switched_sum(digits, keys, false, l, k, c);
        let px = negacyclic_partial(x, s.residue_coeffs()[l], k, n);
        assert((sw0 + px) % q == weighted_decryptions(digits, keys, s, l, k, c) % q);
        assert(prod_coeff(r.c1, s, l, k) == px % q);
        lemma_add_mod_noop(sw0, px, q);
        lemma_add_mod_noop(r.c0.coeff(l, k) as int, px % q, q);
        lemma_mod_twice(px, q);
        lemma_mod_twice(sw0, q);
    }
}

/// [`lemma_switch_decrypts`] for the first `c` digits, at one prime.
proof fn lemma_switch_prefix(
    context: RnsContext,
    digits: Seq<RnsPolynomial>,
    keys: Seq<RnsCiphertext>,
    s: RnsPolynomial,
    l: int,
    c: nat,
)
    requires
        context.wf(),
        0 <= l < context.spec_levels(),
        c <= digits.len(),
        digits.len() <= keys.len(),
        forall|i: int|
            0 <= i < digits.len() ==> (#[trigger] digits[i]).has_shape(context.spec_degree(), context.spec_moduli()),
        forall|i: int| 0 <= i < keys.len() ==> (#[trigger] keys[i]).c0.has_shape(context.spec_degree(), context.spec_moduli())
            && keys[i].c1.has_shape(context.spec_degree(), context.spec_moduli()),
        fits_basis(s, context.spec_degree(), context.spec_moduli()),
    ensures
        forall|k: int|
            0 <= k < context.spec_degree() ==> (#[trigger] switched_sum(digits, keys, false, l, k, c)
                + negacyclic_partial(
                switched_residue(digits, keys, l, c, context.spec_degree(), context.spec_moduli()[l] as int),
                s.residue_coeffs()[l],
                k,
                context.spec_degree(),
            )) % (context.spec_moduli()[l] as int) == weighted_decryptions(digits, keys, s, l, k, c) % (
            context.spec_moduli()[l] as int),
    decreases c,
{
    context.lemma_context_facts();
    let n = context.spec_degree();
    let q = context.spec_moduli()[l] as int;
    let qn = context.spec_moduli()[l] as nat;
    let sl = s.residue_coeffs()[l];
    assert(residue_fits(s, l, n, context.spec_moduli()[l]));
    if c == 0 {
        let x = switched_residue(digits, keys, l, 0, n, q);
        assert forall|i: int| 0 <= i < x.len() implies #[trigger] x[i] == 0 by {
            lemma_small_mod(0, qn);
        }
        assert forall|k: int| 0 <= k < n implies (#[trigger] switched_sum(digits, keys, false, l, k, 0)
            + negacyclic_partial(x, sl, k, n)) % q == weighted_decryptions(digits, keys, s, l, k, 0) % q by {
            lemma_partial_zero(x, sl, k, n);
        }
    } else {
        let p = (c - 1) as nat;
        let i = p as int;
        lemma_switch_prefix(context, digits, keys, s, l, p);
        let plan = context.lemma_plan_for(l);
        plan.lemma_plan_facts();
        let d = digits[i];
        let key = keys[i];
        lemma_residue_facts(d, n, context.spec_moduli(), l);
        lemma_residue_facts(key.c0, n, context.spec_moduli(), l);
        lemma_residue_facts(key.c1, n, context.spec_moduli(), l);
        let dl = d.residue_coeffs()[l];
        let k0 = key.c0.residue_coeffs()[l];
        let k1 = key.c1.residue_coeffs()[l];
        let xp = switched_residue(digits, keys, l, p, n, q);
        let xc = switched_residue(digits, keys, l, c, n, q);
        let dk1 = negacyclic_seq(dl, k1, qn);
        let k1s = negacyclic_seq(k1, sl, qn);
        let dec = decryption_residue(key, s, l);
        assert(key.c0.spec_degree() == n);
        assert(key.c0.spec_moduli()[l] == context.spec_moduli()[l]);
        // xc = xp + d * k1, entrywise modulo q
        assert forall|j: int| 0 <= j < n implies #[trigger] (xc[j] as int) % q == (xp[j] + 1 * dk1[j]) % q by {
            let a = switched_sum(digits, keys, true, l, j, p);
            let b = negacyclic_partial(dl, k1, j, n);
            assert(switched_sum(digits, keys, true, l, j, c) == a + prod_coeff(d, key.c1, l, j));
            assert(prod_coeff(d, key.c1, l, j) == b % q);
            lemma_mod_bound(a + b % q, q);
            lemma_mod_bound(a, q);
            lemma_mod_bound(b, q);
            lemma_mod_twice(a + b % q, q);
            lemma_add_mod_noop(a, b % q, q);
            lemma_mod_twice(b, q);
        }
        // dec = k0 + k1 * s, entrywise modulo q
        assert forall|j: int| 0 <= j < n implies #[trigger] (dec[j] as int) % q == (k0[j] + 1 * k1s[j]) % q by {
            let v = key.c0.coeff(l, j) + prod_coeff(key.c1, s, l, j);
            lemma_mod_bound(v, q);
            lemma_mod_twice(v, q);
            lemma_mod_bound(negacyclic_partial(k1, sl, j, n), q);
        }
        assert forall|k: int| 0 <= k < n implies (#[trigger] switched_sum(digits, keys, false, l, k, c)
            + negacyclic_partial(xc, sl, k, n)) % q == weighted_decryptions(digits, keys, s, l, k, c) % q by {
            // x_c * s = x_p * s + (d * k1) * s
            lemma_negacyclic_linear(xc, xp, dk1, sl, 1, qn, k);
            // (d * k1) * s = d * (k1 * s)
            lemma_negacyclic_associative(plan, dl, k1, sl);
            assert(negacyclic_seq(dk1, sl, qn)[k] == negacyclic_seq(dl, k1s, qn)[k]);
            // d * k0 + d * (k1 * s) = d * dec, through the symmetry of the raw sums
            lemma_negacyclic_linear(dec, k0, k1s, dl, 1, qn, k);
            lemma_negacyclic_partial_symmetric(dec, dl, k);
            lemma_negacyclic_partial_symmetric(k0, dl, k);
            lemma_negacyclic_partial_symmetric(k1s, dl, k);
            let sw_p = switched_sum(digits, keys, false, l, k, p);
            let w_p = weighted_decryptions(digits, keys, s, l, k, p);
            let pxp = negacyclic_partial(xp, sl, k, n);
            let pxc = negacyclic_partial(xc, sl, k, n);
            let pdk1s = negacyclic_partial(dk1, sl, k, n);
            let pdk1s2 = negacyclic_partial(dl, k1s, k, n);
            let pk0 = negacyclic_partial(dl, k0, k, n);
            let pdec = negacyclic_partial(dl, dec, k, n);
            assert(pxc % q == (pxp + 1 * pdk1s) % q);
            assert(pdk1s % q == pdk1s2 % q);
            assert(pdec % q == (pk0 + 1 * pdk1s2) % q);
            assert((sw_p + pxp) % q == w_p % q);
            assert(switched_sum(digits, keys, false, l, k, c) == sw_p + pk0 % q);
            assert(weighted_decryptions(digits, keys, s, l, k, c) == w_p + pdec);
            lemma_switch_algebra(sw_p, pxp, pxc, pdk1s, pdk1s2, pk0, pdec, w_p, q);
        }
    }
}

/// The modular bookkeeping of one step of [`lemma_switch_prefix`].
proof fn lemma_switch_algebra(
    sw_p: int,
    pxp: int,
    pxc: int,
    pdk1s: int,
    pdk1s2: int,
    pk0: int,
    pdec: int,
    w_p: int,
    q: int,
)
    requires
        q > 0,
        pxc % q == (pxp + 1 * pdk1s) % q,
        pdk1s % q == pdk1s2 % q,
        pdec % q == (pk0 + 1 * pdk1s2) % q,
        (sw_p + pxp) % q == w_p % q,
    ensures
        (sw_p + pk0 % q + pxc) % q == (w_p + pdec) % q,
{
    lemma_add_mod_noop(sw_p + pk0 % q, pxc, q);
    lemma_add_mod_noop(sw_p + pk0 % q, pxp + pdk1s, q);
    assert(sw_p + pk0 % q + (pxp + pdk1s) == (sw_p + pxp) + (pk0 % q + pdk1s));
    lemma_add_mod_noop(sw_p + pxp, pk0 % q + pdk1s, q);
    lemma_add_mod_noop(w_p, pk0 % q + pdk1s, q);
    lemma_add_mod_noop(pk0 % q, pdk1s, q);
    lemma_add_mod_noop(pk0, pdk1s2, q);
    lemma_mod_twice(pk0, q);
    lemma_add_mod_noop(w_p, pdec, q);
    lemma_add_mod_noop(w_p, pk0 + pdk1s2, q);
}

/// Residue `l` of the error of a key digit: its decryption under `s` minus
/// `factor * target`, reduced.
pub open spec fn digit_noise(
    key: RnsCiphertext,
    s: RnsPolynomial,
    factor: int,
    target: spec_fn(int, int) -> int,
    l: int,
) -> Seq<u64> {
    Seq::new(
        key.c0.spec_degree(),
        |k: int| ((decryption_residue(key, s, l)[k] - factor * target(l, k)) % (key.c0.spec_moduli()[l] as int)) as u64,
    )
}

/// Residue `l` of a target given coefficient by coefficient, reduced.
pub open spec fn target_residue(target: spec_fn(int, int) -> int, l: int, n: nat, q: int) -> Seq<u64> {
    Seq::new(n, |k: int| (target(l, k) % q) as u64)
}

/// Coefficient `k`, modulo prime `l` and before reduction, of the digits
/// recombined: `sum_(i<count) base^i * digits[i]`.
pub open spec fn recombined(digits: Seq<RnsPolynomial>, base: int, l: int, k: int, count: nat) -> int
    decreases count,
{
    if count == 0 {
        0
    } else {
        recombined(digits, base, l, k, (count - 1) as nat) + pow(base, (count - 1) as nat) * digits[count - 1].coeff(l, k)
    }
}

/// Residue `l` of the recombined digits, reduced.
pub open spec fn recombined_residue(digits: Seq<RnsPolynomial>, base: int, l: int, count: nat, n: nat, q: int) -> Seq<u64> {
    Seq::new(n, |k: int| (recombined(digits, base, l, k, count) % q) as u64)
}

/// Coefficient `k`, modulo prime `l` and before reduction, of
/// `sum_(i<count) digits[i] * noise_i`, with `noise_i` the error of key
/// digit `i` against `scale * base^i * target`.
pub open spec fn weighted_noise(
    digits: Seq<RnsPolynomial>,
    keys: Seq<RnsCiphertext>,
    s: RnsPolynomial,
    base: int,
    scale: int,
    target: spec_fn(int, int) -> int,
    l: int,
    k: int,
    count: nat,
) -> int
    decreases count,
{
    if count == 0 {
        0
    } else {
        let i = count - 1;
        weighted_noise(digits, keys, s, base, scale, target, l, k, (count - 1) as nat) + negacyclic_partial(
            digits[i].residue_coeffs()[l],
            digit_noise(keys[i], s, scale * pow(base, i as nat), target, l),
            k,
            digits[i].residue_coeffs()[l].len(),
        )
    }
}

/// The digit-weighted key decryptions split into `scale` times the
/// recombined digits times the target, and the digit-weighted key errors.
pub(crate) proof fn lemma_weighted_split(
    context: RnsContext,
    digits: Seq<RnsPolynomial>,
    keys: Seq<RnsCiphertext>,
    s: RnsPolynomial,
    base: int,
    scale: int,
    target: spec_fn(int, int) -> int,
    l: int,
    c: nat,
)
    requires
        context.wf(),
        0 <= l < context.spec_levels(),
        c <= digits.len(),
        digits.len() <= keys.len(),
        forall|i: int|
            0 <= i < digits.len() ==> (#[trigger] digits[i]).has_shape(context.spec_degree(), context.spec_moduli()),
        forall|i: int| 0 <= i < keys.len() ==> (#[trigger] keys[i]).c0.has_shape(context.spec_degree(), context.spec_moduli())
            && keys[i].c1.has_shape(context.spec_degree(), context.spec_moduli()),
        fits_basis(s, context.spec_degree(), context.spec_moduli()),
    ensures
        forall|k: int|
            0 <= k < context.spec_degree() ==> #[trigger] weighted_decryptions(digits, keys, s, l, k, c) % (
            context.spec_moduli()[l] as int) == (scale * negacyclic_partial(
                recombined_residue(digits, base, l, c, context.spec_degree(), context.spec_moduli()[l] as int),
                target_residue(target, l, context.spec_degree(), context.spec_moduli()[l] as int),
                k,
                context.spec_degree(),
            ) + weighted_noise(digits, keys, s, base, scale, target, l, k, c)) % (context.spec_moduli()[l] as int),
    decreases c,
{
    context.lemma_context_facts();
    let n = context.spec_degree();
    let q = context.spec_moduli()[l] as int;
    let qn = context.spec_moduli()[l] as nat;
    let tl = target_residue(target, l, n, q);
    assert(residue_fits(s, l, n, context.spec_moduli()[l]));
    if c == 0 {
        let x = recombined_residue(digits, base, l, 0, n, q);
        assert forall|i: int| 0 <= i < x.len() implies #[trigger] x[i] == 0 by {
            lemma_small_mod(0, qn);
        }
        assert forall|k: int| 0 <= k < n implies #[trigger] weighted_decryptions(digits, keys, s, l, k, 0) % q == (scale
            * negacyclic_partial(x, tl, k, n) + weighted_noise(digits, keys, s, base, scale, target, l, k, 0)) % q by {
            lemma_partial_zero(x, tl, k, n);
            lemma_mul_basics(scale);
        }
    } else {
        let p = (c - 1) as nat;
        let i = p as int;
        lemma_weighted_split(context, digits, keys, s, base, scale, target, l, p);
        let d = digits[i];
        let key = keys[i];
        lemma_residue_facts(d, n, context.spec_moduli(), l);
        lemma_residue_facts(key.c0, n, context.spec_moduli(), l);
        let dl = d.residue_coeffs()[l];
        let g = pow(base, p);
        let f = scale * g;
        let dec = decryption_residue(key, s, l);
        let eps = digit_noise(key, s, f, target, l);
        let rp = recombined_residue(digits, base, l, p, n, q);
        let rc = recombined_residue(digits, base, l, c, n, q);
        assert(key.c0.spec_degree() == n);
        assert(key.c0.spec_moduli()[l] == context.spec_moduli()[l]);
        // dec = eps + f * target, entrywise modulo q
        assert forall|j: int| 0 <= j < n implies #[trigger] (dec[j] as int) % q == (eps[j] + f * tl[j]) % q by {
            let v = dec[j] as int - f * target(l, j);
            lemma_mod_bound(v, q);
            lemma_mod_bound(target(l, j), q);
            lemma_mul_mod_noop_right(f, target(l, j), q);
            lemma_add_mod_noop(v, f * target(l, j), q);
            lemma_add_mod_noop(v % q, f * (target(l, j) % q), q);
            lemma_add_mod_noop(v, f * (target(l, j) % q), q);
            lemma_mod_twice(v, q);
            lemma_mod_twice(f * target(l, j), q);
            assert(tl[j] as int == target(l, j) % q);
            lemma_mod_twice(dec[j] as int, q);
        }
        // the recombination gains g * d
        assert forall|j: int| 0 <= j < n implies #[trigger] (rc[j] as int) % q == (rp[j] + g * dl[j]) % q by {
            let a = recombined(digits, base, l, j, p);
            let t = g * d.coeff(l, j);
            lemma_mod_bound(a + t, q);
            lemma_mod_bound(a, q);
            lemma_mod_twice(a + t, q);
            lemma_add_mod_noop(a, t, q);
            lemma_add_mod_noop(a % q, t, q);
            lemma_mod_twice(a, q);
        }
        assert forall|k: int| 0 <= k < n implies #[trigger] weighted_decryptions(digits, keys, s, l, k, c) % q == (scale
            * negacyclic_partial(rc, tl, k, n) + weighted_noise(digits, keys, s, base, scale, target, l, k, c)) % q by {
            lemma_negacyclic_linear(dec, eps, tl, dl, f, qn, k);
            lemma_negacyclic_partial_symmetric(dec, dl, k);
            lemma_negacyclic_partial_symmetric(eps, dl, k);
            lemma_negacyclic_partial_symmetric(tl, dl, k);
            lemma_negacyclic_linear(rc, rp, dl, tl, g, qn, k);
            let w_p = weighted_decryptions(digits, keys, s, l, k, p);
            let n_p = weighted_noise(digits, keys, s, base, scale, target, l, k, p);
            let prp = negacyclic_partial(rp, tl, k, n);
            let prc = negacyclic_partial(rc, tl, k, n);
            let pdec = negacyclic_partial(dl, dec, k, n);
            let peps = negacyclic_partial(dl, eps, k, n);
            let pdt = negacyclic_partial(dl, tl, k, n);
            assert(negacyclic_partial(tl, dl, k, n) == pdt);
            assert(w_p % q == (scale * prp + n_p) % q);
            assert(pdec % q == (peps + f * pdt) % q);
            assert(prc % q == (prp + g * pdt) % q);
            assert(weighted_decryptions(digits, keys, s, l, k, c) == w_p + pdec);
            assert(weighted_noise(digits, keys, s, base, scale, target, l, k, c) == n_p + peps);
            // scale * prc = scale * prp + f * pdt, modulo q
            lemma_mul_mod_noop_right(scale, prc, q);
            lemma_mul_mod_noop_right(scale, prp + g * pdt, q);
            assert(scale * (prp + g * pdt) == scale * prp + f * pdt) by (nonlinear_arith)
                requires
                    f == scale * g,
            ;
            lemma_split_algebra(w_p, pdec, scale * prp, n_p, peps, f * pdt, scale * prc, q);
        }
    }
}

/// The modular bookkeeping of one step of [`lemma_weighted_split`].
proof fn lemma_split_algebra(w_p: int, pdec: int, prp: int, n_p: int, peps: int, fd: int, prc: int, q: int)
    requires
        q > 0,
        w_p % q == (prp + n_p) % q,
        pdec % q == (peps + fd) % q,
        prc % q == (prp + fd) % q,
    ensures
        (w_p + pdec) % q == (prc + (n_p + peps)) % q,
{
    lemma_add_mod_noop(w_p, pdec, q);
    lemma_add_mod_noop(prp + n_p, peps + fd, q);
    lemma_add_mod_noop(prc, n_p + peps, q);
    lemma_add_mod_noop(prp + fd, n_p + peps, q);
    assert(prp + n_p + (peps + fd) == prp + fd + (n_p + peps));
}

/// Residue `l` of the carry a decomposition leaves: for each coefficient, the
/// rest of its centered CRT value after `count` balanced digits, reduced.
pub open spec fn carry_residue(crt: Seq<nat>, base: int, count: nat, total: int, q: int, n: nat) -> Seq<u64> {
    Seq::new(n, |k: int| (balanced_rest(centered(crt[k] as int, total), base, count) % q) as u64)
}

/// Recombining gadget digits gives back the decomposed polynomial up to the
/// carry: `sum_i base^i * digits[i] == poly - base^count * carry`, modulo
/// each prime, with `base = 2^decomp_bits`.
pub proof fn lemma_gadget_recombination(
    digits: Seq<RnsPolynomial>,
    poly: RnsPolynomial,
    degree: nat,
    moduli: Seq<u64>,
    decomp_bits: nat,
    count: nat,
)
    requires
        is_gadget_decomposition(digits, poly, degree, moduli, decomp_bits, count),
        poly.has_shape(degree, moduli),
        moduli.len() > 0,
        decomp_bits >= 1,
        forall|j: int| 0 <= j < moduli.len() ==> #[trigger] moduli[j] >= 1,
    ensures
        exists|crt: Seq<nat>|
            #[trigger] is_crt_of(crt, poly, moduli) && forall|l: int, k: int|
                0 <= l < moduli.len() && 0 <= k < degree ==> #[trigger] recombined(
                    digits,
                    pow2(decomp_bits) as int,
                    l,
                    k,
                    count,
                ) % (moduli[l] as int) == (poly.coeff(l, k) - pow(pow2(decomp_bits) as int, count) * balanced_rest(
                    centered(crt[k] as int, moduli_product(moduli) as int),
                    pow2(decomp_bits) as int,
                    count,
                )) % (moduli[l] as int),
{
    let base = pow2(decomp_bits) as int;
    let total = moduli_product(moduli) as int;
    lemma_pow2_pos(decomp_bits);
    lemma_pow2_strictly_increases(0, decomp_bits);
    lemma2_to64();
    let crt = choose|crt: Seq<nat>|
        #[trigger] is_crt_of(crt, poly, moduli) && forall|d: int, l: int, k: int|
            0 <= d < count && 0 <= l < moduli.len() && 0 <= k < degree ==> #[trigger] digits[d].coeff(l, k) as int
                == balanced_digits(centered(crt[k] as int, total), base, count)[d] % (moduli[l] as int);
    lemma_product_positive(moduli);
    assert forall|l: int, k: int| 0 <= l < moduli.len() && 0 <= k < degree implies #[trigger] recombined(
        digits,
        base,
        l,
        k,
        count,
    ) % (moduli[l] as int) == (poly.coeff(l, k) - pow(base, count) * balanced_rest(
        centered(crt[k] as int, total),
        base,
        count,
    )) % (moduli[l] as int) by {
        let q = moduli[l] as int;
        let v = centered(crt[k] as int, total);
        let bd = balanced_digits(v, base, count);
        let rest = balanced_rest(v, base, count);
        lemma_recombined_sum(digits, base, l, k, bd, q, count);
        lemma_balanced_reconstruct(v, base, count);
        // v == crt[k] or crt[k] - total, and total is a multiple of q
        lemma_product_divisible(moduli, l);
        lemma_fundamental_div_mod(total, q);
        assert(poly.spec_residues()[0].spec_degree() == degree);
        assert(crt.len() == degree);
        assert(crt[k] % (moduli[l] as nat) == poly.coeff(l, k));
        assert(crt[k] as int % q == poly.coeff(l, k));
        if v != crt[k] as int {
            assert(total == q * (total / q));
            lemma_mul_is_commutative(q, total / q);
            assert(v == crt[k] as int - total);
            assert(v == crt[k] as int + (-(total / q)) * q) by {
                lemma_mul_unary_negation(total / q, q);
            }
            lemma_mod_multiples_vanish(-(total / q), crt[k] as int, q);
        }
        assert(v % q == poly.coeff(l, k) as int % q) by {
            lemma_mod_twice(crt[k] as int, q);
        }
        let g = gadget_sum(bd, base);
        assert(v == g + pow(base, count) * rest);
        lemma_sub_mod_noop(v, pow(base, count) * rest, q);
        lemma_sub_mod_noop(poly.coeff(l, k) as int, pow(base, count) * rest, q);
    }
}

/// Recombining digits congruent to given integers is congruent to the
/// recombination of the integers.
pub(crate) proof fn lemma_recombined_sum(digits: Seq<RnsPolynomial>, base: int, l: int, k: int, bd: Seq<int>, q: int, c: nat)
    requires
        q > 0,
        c <= bd.len(),
        forall|i: int| 0 <= i < c ==> #[trigger] digits[i].coeff(l, k) as int == bd[i] % q,
    ensures
        recombined(digits, base, l, k, c) % q == sum_to(|i: int| bd[i] * pow(base, i as nat), c) % q,
    decreases c,
{
    if c > 0 {
        let p = (c - 1) as nat;
        lemma_recombined_sum(digits, base, l, k, bd, q, p);
        let a = recombined(digits, base, l, k, p);
        let b = sum_to(|i: int| bd[i] * pow(base, i as nat), p);
        let f = pow(base, p);
        let x = digits[p as int].coeff(l, k) as int;
        assert(x == bd[p as int] % q);
        lemma_mul_mod_noop_right(f, bd[p as int], q);
        lemma_mul_is_commutative(f, bd[p as int]);
        lemma_add_mod_noop(a, f * x, q);
        lemma_add_mod_noop(b, bd[p as int] * f, q);
    }
}

/// The error of key digit `key_digit` against `factor * s^2` is an
/// encryption error `e0 + e * u + e1 * s`, with a ternary `u` and Gaussian
/// `e0`, `e1`, for the public-key error `e`.
pub open spec fn is_digit_noise_from(
    key_digit: RnsCiphertext,
    s: RnsPolynomial,
    e: RnsPolynomial,
    factor: int,
    source: spec_fn(int, int) -> int,
    n: nat,
    moduli: Seq<u64>,
) -> bool {
    exists|u: RnsPolynomial, e0: RnsPolynomial, e1: RnsPolynomial|
        {
            &&& u.has_shape(n, moduli)
            &&& e0.has_shape(n, moduli)
            &&& e1.has_shape(n, moduli)
            &&& is_ternary_lift(u, n)
            &&& is_gaussian_lift(e0, n)
            &&& is_gaussian_lift(e1, n)
            &&& #[trigger] noise_is(key_digit, s, e, factor, source, u, e0, e1, n, moduli)
        }
}

/// Residue by residue, the error of `key_digit` against `factor * source`
/// is `e0 + e * u + e1 * s`.
pub open spec fn noise_is(
    key_digit: RnsCiphertext,
    s: RnsPolynomial,
    e: RnsPolynomial,
    factor: int,
    source: spec_fn(int, int) -> int,
    u: RnsPolynomial,
    e0: RnsPolynomial,
    e1: RnsPolynomial,
    n: nat,
    moduli: Seq<u64>,
) -> bool {
    forall|l: int, k: int|
        0 <= l < moduli.len() && 0 <= k < n ==> #[trigger] digit_noise(
            key_digit,
            s,
            factor,
            source,
            l,
        )[k] as int == (e0.coeff(
            l,
            k,
        ) + prod_coeff(e, u, l, k) + prod_coeff(e1, s, l, k)) % (moduli[l] as int)
}

/// The error of a key-switching digit: decrypting a switching digit for
/// `factor * source` under `s` leaves `e0 + e * u + e1 * s`, with the
/// digit's mask `u` and errors `e0`, `e1` and the public key's error `e`.
pub proof fn lemma_switching_digit_noise(
    basis: RnsContext,
    key_digit: RnsCiphertext,
    s: RnsPolynomial,
    e: RnsPolynomial,
    public_key: RnsPublicKey,
    factor: int,
    source: spec_fn(int, int) -> int,
)
    requires
        basis.wf(),
        key_digit.has_shape(basis.spec_degree(), basis.spec_moduli()),
        fits_basis(s, basis.spec_degree(), basis.spec_moduli()),
        fits_basis(e, basis.spec_degree(), basis.spec_moduli()),
        fits_basis(public_key.p0, basis.spec_degree(), basis.spec_moduli()),
        fits_basis(public_key.p1, basis.spec_degree(), basis.spec_moduli()),
        is_public_key_for(public_key, s, e),
        is_switching_digit_for(
            key_digit,
            source,
            factor,
            public_key,
            basis.spec_degree(),
            basis.spec_moduli(),
        ),
    ensures
        is_digit_noise_from(key_digit, s, e, factor, source, basis.spec_degree(), basis.spec_moduli()),
{
    basis.lemma_context_facts();
    let n = basis.spec_degree();
    let moduli = basis.spec_moduli();
    let (m, u, e0, e1) = choose|m: RnsPolynomial, u: RnsPolynomial, e0: RnsPolynomial, e1: RnsPolynomial|
        {
            &&& m.has_shape(n, moduli)
            &&& u.has_shape(n, moduli)
            &&& e0.has_shape(n, moduli)
            &&& e1.has_shape(n, moduli)
            &&& is_ternary_lift(u, n)
            &&& is_gaussian_lift(e0, n)
            &&& is_gaussian_lift(e1, n)
            &&& forall|l: int, k: int|
                0 <= l < moduli.len() && 0 <= k < n ==> #[trigger] m.coeff(l, k) as int == (source(l, k) * factor) % (
                moduli[l] as int)
            &&& #[trigger] is_encryption(key_digit, m, public_key, u, e0, e1)
        };
    assert forall|l: int, k: int| 0 <= l < moduli.len() && 0 <= k < n implies #[trigger] digit_noise(
        key_digit,
        s,
        factor,
        source,
        l,
    )[k] as int == (e0.coeff(l, k) + prod_coeff(e, u, l, k) + prod_coeff(e1, s, l, k)) % (moduli[l] as int) by {
        let q = moduli[l] as int;
        assert(residue_fits(s, l, n, moduli[l]));
        assert(residue_fits(e, l, n, moduli[l]));
        assert(residue_fits(public_key.p0, l, n, moduli[l]));
        assert(residue_fits(public_key.p1, l, n, moduli[l]));
        lemma_fits_from_shape(m, n, moduli, l);
        lemma_fits_from_shape(u, n, moduli, l);
        lemma_fits_from_shape(e0, n, moduli, l);
        lemma_fits_from_shape(e1, n, moduli, l);
        lemma_fits_from_shape(key_digit.c0, n, moduli, l);
        lemma_fits_from_shape(key_digit.c1, n, moduli, l);
        lemma_decrypt_encrypt_at(basis, public_key, s, e, m, u, e0, e1, key_digit, l, k);
        let big_p = source(l, k);
        let d = key_digit.c0.coeff(l, k) + prod_coeff(key_digit.c1, s, l, k);
        let err = e0.coeff(l, k) + prod_coeff(e, u, l, k) + prod_coeff(e1, s, l, k);
        assert(m.coeff(l, k) as int == (big_p * factor) % q);
        assert(s.spec_moduli()[l] == moduli[l]);
        assert(decryption_residue(key_digit, s, l)[k] as int == d % q) by {
            lemma_mod_bound(d, q);
        }
        assert(d % q == (m.coeff(l, k) + err) % q);
        lemma_noise_algebra(d, m.coeff(l, k) as int, err, big_p, factor, q);
        lemma_mod_bound(d % q - factor * big_p, q);
    }
    assert(noise_is(key_digit, s, e, factor, source, u, e0, e1, n, moduli));
}

/// The modular bookkeeping of [`lemma_switching_digit_noise`].
proof fn lemma_noise_algebra(d: int, m: int, err: int, big_p: int, f: int, q: int)
    requires
        q > 0,
        d % q == (m + err) % q,
        m == (big_p * f) % q,
    ensures
        (d % q - f * big_p) % q == err % q,
{
    lemma_mul_is_commutative(big_p, f);
    lemma_sub_mod_noop(d, f * big_p, q);
    lemma_mod_twice(d, q);
    lemma_sub_mod_noop(d % q, f * big_p, q);
    lemma_sub_mod_noop(m + err, f * big_p, q);
    lemma_fundamental_div_mod(f * big_p, q);
    let t = (f * big_p) / q;
    assert(m + err - f * big_p == err + (-t) * q) by {
        lemma_mul_unary_negation(t, q);
        lemma_mul_is_commutative(q, t);
    }
    lemma_mod_multiples_vanish(-t, err, q);
}

/// Relinearization preserves decryption up to the key noise and the carry:
/// if `r` relinearizes `ct` with a key whose digit `i` switches
/// `2^(i*decomp_bits) * s^2` to `s`, then, residue by residue,
/// `r.c0 + r.c1 * s = c0 + c1 * s + c2 * s^2 - B^n * carry * s^2 + sum_i d_i * noise_i`
/// for the gadget digits `d_i` of `c2`, `B = 2^decomp_bits`, `n` digits,
/// the carry the decomposition leaves, and `noise_i = e0_i + e * u_i + e1_i * s`
/// the error of key digit `i`.
#[verifier::spinoff_prover]
pub proof fn lemma_relinearize_decrypts(
    basis: RnsContext,
    ct: RnsQuadraticCiphertext,
    key: RnsKeySwitchingKey,
    r: RnsCiphertext,
    s: RnsPolynomial,
    e: RnsPolynomial,
    public_key: RnsPublicKey,
)
    requires
        basis.wf(),
        ct.c0.has_shape(basis.spec_degree(), basis.spec_moduli()),
        ct.c1.has_shape(basis.spec_degree(), basis.spec_moduli()),
        ct.c2.has_shape(basis.spec_degree(), basis.spec_moduli()),
        r.has_shape(basis.spec_degree(), basis.spec_moduli()),
        forall|i: int|
            0 <= i < key.ksk@.len() ==> (#[trigger] key.ksk@[i]).has_shape(basis.spec_degree(), basis.spec_moduli()),
        key.decomp_bits >= 1,
        fits_basis(s, basis.spec_degree(), basis.spec_moduli()),
        fits_basis(e, basis.spec_degree(), basis.spec_moduli()),
        fits_basis(public_key.p0, basis.spec_degree(), basis.spec_moduli()),
        fits_basis(public_key.p1, basis.spec_degree(), basis.spec_moduli()),
        is_public_key_for(public_key, s, e),
        forall|i: int|
            0 <= i < key.ksk@.len() ==> is_switching_digit_for(
                #[trigger] key.ksk@[i],
                square_of(s),
                pow(pow2(key.decomp_bits as nat) as int, i as nat),
                public_key,
                basis.spec_degree(),
                basis.spec_moduli(),
            ),
        is_relinearization_of(r, ct, key, basis.spec_degree(), basis.spec_moduli()),
    ensures
        forall|i: int|
            0 <= i < key.ksk@.len() ==> is_digit_noise_from(
                #[trigger] key.ksk@[i],
                s,
                e,
                pow(pow2(key.decomp_bits as nat) as int, i as nat),
                square_of(s),
                basis.spec_degree(),
                basis.spec_moduli(),
            ),
        exists|digits: Seq<RnsPolynomial>, crt: Seq<nat>|
            #![trigger is_gadget_decomposition(digits, ct.c2, basis.spec_degree(), basis.spec_moduli(), key.decomp_bits as nat, key.ksk@.len()), is_crt_of(crt, ct.c2, basis.spec_moduli())]
            is_gadget_decomposition(
                digits,
                ct.c2,
                basis.spec_degree(),
                basis.spec_moduli(),
                key.decomp_bits as nat,
                key.ksk@.len(),
            ) && is_crt_of(crt, ct.c2, basis.spec_moduli()) && relinearized_as(
                r,
                ct,
                key,
                s,
                digits,
                crt,
                basis.spec_degree(),
                basis.spec_moduli(),
            ),
{
    basis.lemma_context_facts();
    let n = basis.spec_degree();
    let moduli = basis.spec_moduli();
    let c = key.ksk@.len();
    let keys = key.ksk@;
    let base = pow2(key.decomp_bits as nat) as int;
    assert forall|i: int| 0 <= i < c implies is_digit_noise_from(
        #[trigger] key.ksk@[i],
        s,
        e,
        pow(base, i as nat),
        square_of(s),
        n,
        moduli,
    ) by {
        lemma_switching_digit_noise(basis, key.ksk@[i], s, e, public_key, pow(base, i as nat), square_of(s));
    }
    let w = choose|w: RnsCiphertext|
        #[trigger] is_switch_of(w, ct.c2, key, n, moduli) && w.has_shape(n, moduli) && forall|l: int, k: int|
            0 <= l < moduli.len() && 0 <= k < n ==> {
                &&& #[trigger] r.c0.coeff(l, k) as int == (ct.c0.coeff(l, k) + w.c0.coeff(l, k)) % (moduli[l] as int)
                &&& r.c1.coeff(l, k) as int == (ct.c1.coeff(l, k) + w.c1.coeff(l, k)) % (moduli[l] as int)
            };
    let digits = choose|digits: Seq<RnsPolynomial>|
        #[trigger] is_gadget_decomposition(digits, ct.c2, n, moduli, key.decomp_bits as nat, c) && forall|
            l: int,
            k: int,
        |
            0 <= l < moduli.len() && 0 <= k < n ==> {
                &&& #[trigger] w.c0.coeff(l, k) as int == switched_sum(digits, keys, false, l, k, c) % (moduli[l] as int)
                &&& w.c1.coeff(l, k) as int == switched_sum(digits, keys, true, l, k, c) % (moduli[l] as int)
            };
    assert(is_gadget_decomposition(digits, ct.c2, n, moduli, key.decomp_bits as nat, c));
    assert(digits.len() == keys.len());
    lemma_switch_decrypts(basis, digits, keys, s, w, c);
    lemma_gadget_recombination(digits, ct.c2, n, moduli, key.decomp_bits as nat, c);
    let total = moduli_product(moduli) as int;
    let crt = choose|crt: Seq<nat>|
        #[trigger] is_crt_of(crt, ct.c2, moduli) && forall|l: int, k: int|
            0 <= l < moduli.len() && 0 <= k < n ==> #[trigger] recombined(digits, base, l, k, c) % (moduli[l] as int) == (
            ct.c2.coeff(l, k) - pow(base, c) * balanced_rest(centered(crt[k] as int, total), base, c)) % (
            moduli[l] as int);
    assert forall|l: int, k: int| 0 <= l < moduli.len() && 0 <= k < n implies #[trigger] relinearized_at(
        r,
        ct,
        key,
        s,
        digits,
        crt,
        n,
        moduli,
        l,
        k,
    ) by {
        lemma_relinearized_at(basis, ct, key, r, s, w, digits, crt, l, k);
    }
}

/// Coefficient `k` modulo prime `l` of the equation of [`lemma_relinearize_decrypts`].
pub open spec fn relinearized_at(
    r: RnsCiphertext,
    ct: RnsQuadraticCiphertext,
    key: RnsKeySwitchingKey,
    s: RnsPolynomial,
    digits: Seq<RnsPolynomial>,
    crt: Seq<nat>,
    n: nat,
    moduli: Seq<u64>,
    l: int,
    k: int,
) -> bool {
    let q = moduli[l] as int;
    let base = pow2(key.decomp_bits as nat) as int;
    let c = key.ksk@.len();
    let sq = square_coeffs(s, l);
    (r.c0.coeff(l, k) + prod_coeff(r.c1, s, l, k)) % q == (ct.c0.coeff(l, k) + prod_coeff(ct.c1, s, l, k)
        + negacyclic_partial(ct.c2.residue_coeffs()[l], sq, k, n) - pow(base, c) * negacyclic_partial(
        carry_residue(crt, base, c, moduli_product(moduli) as int, q, n),
        sq,
        k,
        n,
    ) + weighted_noise(digits, key.ksk@, s, base, 1, square_of(s), l, k, c)) % q
}

/// [`relinearized_at`] at every coefficient of every prime.
pub open spec fn relinearized_as(
    r: RnsCiphertext,
    ct: RnsQuadraticCiphertext,
    key: RnsKeySwitchingKey,
    s: RnsPolynomial,
    digits: Seq<RnsPolynomial>,
    crt: Seq<nat>,
    n: nat,
    moduli: Seq<u64>,
) -> bool {
    forall|l: int, k: int|
        0 <= l < moduli.len() && 0 <= k < n ==> #[trigger] relinearized_at(r, ct, key, s, digits, crt, n, moduli, l, k)
}

/// One coefficient of [`lemma_relinearize_decrypts`].
proof fn lemma_relinearized_at(
    basis: RnsContext,
    ct: RnsQuadraticCiphertext,
    key: RnsKeySwitchingKey,
    r: RnsCiphertext,
    s: RnsPolynomial,
    w: RnsCiphertext,
    digits: Seq<RnsPolynomial>,
    crt: Seq<nat>,
    l: int,
    k: int,
)
    requires
        basis.wf(),
        0 <= l < basis.spec_levels(),
        0 <= k < basis.spec_degree(),
        ct.c0.has_shape(basis.spec_degree(), basis.spec_moduli()),
        ct.c1.has_shape(basis.spec_degree(), basis.spec_moduli()),
        ct.c2.has_shape(basis.spec_degree(), basis.spec_moduli()),
        r.has_shape(basis.spec_degree(), basis.spec_moduli()),
        w.has_shape(basis.spec_degree(), basis.spec_moduli()),
        digits.len() == key.ksk@.len(),
        forall|i: int|
            0 <= i < digits.len() ==> (#[trigger] digits[i]).has_shape(basis.spec_degree(), basis.spec_moduli()),
        forall|i: int|
            0 <= i < key.ksk@.len() ==> (#[trigger] key.ksk@[i]).has_shape(basis.spec_degree(), basis.spec_moduli()),
        fits_basis(s, basis.spec_degree(), basis.spec_moduli()),
        forall|j: int|
            0 <= j < basis.spec_degree() ==> {
                &&& #[trigger] r.c0.coeff(l, j) as int == (ct.c0.coeff(l, j) + w.c0.coeff(l, j)) % (
                basis.spec_moduli()[l] as int)
                &&& r.c1.coeff(l, j) as int == (ct.c1.coeff(l, j) + w.c1.coeff(l, j)) % (basis.spec_moduli()[l] as int)
            },
        (w.c0.coeff(l, k) + prod_coeff(w.c1, s, l, k)) % (basis.spec_moduli()[l] as int) == weighted_decryptions(
            digits,
            key.ksk@,
            s,
            l,
            k,
            key.ksk@.len(),
        ) % (basis.spec_moduli()[l] as int),
        forall|j: int|
            0 <= j < basis.spec_degree() ==> #[trigger] recombined(
                digits,
                pow2(key.decomp_bits as nat) as int,
                l,
                j,
                key.ksk@.len(),
            ) % (basis.spec_moduli()[l] as int) == (ct.c2.coeff(l, j) - pow(pow2(key.decomp_bits as nat) as int, key.ksk@.len())
                * balanced_rest(
                centered(crt[j] as int, moduli_product(basis.spec_moduli()) as int),
                pow2(key.decomp_bits as nat) as int,
                key.ksk@.len(),
            )) % (basis.spec_moduli()[l] as int),
    ensures
        relinearized_at(r, ct, key, s, digits, crt, basis.spec_degree(), basis.spec_moduli(), l, k),
{
    basis.lemma_context_facts();
    let n = basis.spec_degree();
    let moduli = basis.spec_moduli();
    let q = moduli[l] as int;
    let qn = moduli[l] as nat;
    let c = key.ksk@.len();
    let keys = key.ksk@;
    let base = pow2(key.decomp_bits as nat) as int;
    let total = moduli_product(moduli) as int;
    let big_b = pow(base, c);
    let sq = square_coeffs(s, l);
    assert(residue_fits(s, l, n, moduli[l]));
    let sl = s.residue_coeffs()[l];
    lemma_residue_facts(ct.c0, n, moduli, l);
    lemma_residue_facts(ct.c1, n, moduli, l);
    lemma_residue_facts(ct.c2, n, moduli, l);
    lemma_residue_facts(r.c0, n, moduli, l);
    lemma_residue_facts(r.c1, n, moduli, l);
    lemma_residue_facts(w.c1, n, moduli, l);
    let c1l = ct.c1.residue_coeffs()[l];
    let c2l = ct.c2.residue_coeffs()[l];
    let r1l = r.c1.residue_coeffs()[l];
    let w1l = w.c1.residue_coeffs()[l];
    // the digit-weighted key decryptions
    lemma_weighted_split(basis, digits, keys, s, base, 1, square_of(s), l, c);
    assert(target_residue(square_of(s), l, n, q) =~= sq) by {
        assert forall|j: int| 0 <= j < n implies #[trigger] target_residue(
            square_of(s),
            l,
            n,
            q,
        )[j] == sq[j] by {
            lemma_mod_bound(negacyclic_partial(sl, sl, j, sl.len()), q);
            lemma_mod_twice(negacyclic_partial(sl, sl, j, sl.len()), q);
        }
    }
    let rr = recombined_residue(digits, base, l, c, n, q);
    let carry = carry_residue(crt, base, c, total, q, n);
    // the recombined digits are c2 - B^n * carry
    assert forall|j: int| 0 <= j < n implies #[trigger] (rr[j] as int) % q == (c2l[j] + (-big_b) * carry[j]) % q by {
        let rest = balanced_rest(centered(crt[j] as int, total), base, c);
        let a = recombined(digits, base, l, j, c);
        lemma_mod_bound(a, q);
        lemma_mod_twice(a, q);
        lemma_mod_bound(rest, q);
        assert(carry[j] as int == rest % q);
        lemma_mul_mod_noop_right(-big_b, rest, q);
        lemma_add_mod_noop(c2l[j] as int, (-big_b) * (rest % q), q);
        lemma_add_mod_noop(c2l[j] as int, (-big_b) * rest, q);
        lemma_mul_unary_negation(big_b, rest);
        assert(c2l[j] as int == ct.c2.coeff(l, j));
    }
    lemma_negacyclic_linear(rr, c2l, carry, sq, -big_b, qn, k);
    // r.c1 = c1 + w1
    assert forall|j: int| 0 <= j < n implies #[trigger] (r1l[j] as int) % q == (c1l[j] + 1 * w1l[j]) % q by {
        assert(r.c0.coeff(l, j) as int == (ct.c0.coeff(l, j) + w.c0.coeff(l, j)) % q);
        lemma_mod_twice(ct.c1.coeff(l, j) + w.c1.coeff(l, j), q);
    }
    lemma_negacyclic_linear(r1l, c1l, w1l, sl, 1, qn, k);
    let pr1 = negacyclic_partial(r1l, sl, k, n);
    let pc1 = negacyclic_partial(c1l, sl, k, n);
    let pw1 = negacyclic_partial(w1l, sl, k, n);
    let prr = negacyclic_partial(rr, sq, k, n);
    let pc2 = negacyclic_partial(c2l, sq, k, n);
    let pcarry = negacyclic_partial(carry, sq, k, n);
    let wd = weighted_decryptions(digits, keys, s, l, k, c);
    let noise = weighted_noise(digits, keys, s, base, 1, square_of(s), l, k, c);
    lemma_mul_basics(prr);
    assert(prod_coeff(r.c1, s, l, k) == pr1 % q);
    assert(prod_coeff(ct.c1, s, l, k) == pc1 % q);
    assert(prod_coeff(w.c1, s, l, k) == pw1 % q);
    assert(r.c0.coeff(l, k) as int == (ct.c0.coeff(l, k) + w.c0.coeff(l, k)) % q);
    assert((-big_b) * pcarry == (-1) * (big_b * pcarry)) by (nonlinear_arith);
    lemma_relin_algebra(
        ct.c0.coeff(l, k) as int,
        w.c0.coeff(l, k) as int,
        r.c0.coeff(l, k) as int,
        pr1,
        pc1,
        pw1,
        wd,
        prr,
        noise,
        pc2,
        big_b * pcarry,
        q,
    );
    lemma_mul_unary_negation(big_b, pcarry);
}

/// The modular bookkeeping of [`lemma_relinearized_at`].
proof fn lemma_relin_algebra(
    c0: int,
    w0: int,
    r0: int,
    pr1: int,
    pc1: int,
    pw1: int,
    wd: int,
    prr: int,
    noise: int,
    pc2: int,
    bc: int,
    q: int,
)
    requires
        q > 0,
        r0 == (c0 + w0) % q,
        pr1 % q == (pc1 + 1 * pw1) % q,
        (w0 + pw1 % q) % q == wd % q,
        wd % q == (prr + noise) % q,
        prr % q == (pc2 + (-1) * bc) % q,
    ensures
        (r0 + pr1 % q) % q == (c0 + pc1 % q + pc2 - bc + noise) % q,
{
    lemma_add_mod_noop(c0 + w0, pr1, q);
    lemma_add_mod_noop(r0, pr1 % q, q);
    lemma_mod_twice(c0 + w0, q);
    lemma_mod_twice(pr1, q);
    // (r0 + pr1 % q) % q == (c0 + w0 + pc1 + pw1) % q
    lemma_add_mod_noop(c0 + w0, pc1 + pw1, q);
    assert((r0 + pr1 % q) % q == (c0 + w0 + pc1 + pw1) % q);
    // w0 + pw1 == wd == prr + noise == pc2 - bc + noise, modulo q
    lemma_add_mod_noop(w0, pw1, q);
    lemma_mod_twice(pw1, q);
    lemma_add_mod_noop(w0, pw1 % q, q);
    assert((w0 + pw1) % q == (prr + noise) % q);
    lemma_add_mod_noop(prr, noise, q);
    lemma_add_mod_noop(pc2 - bc, noise, q);
    assert((w0 + pw1) % q == (pc2 - bc + noise) % q);
    lemma_add_mod_noop(c0 + pc1, w0 + pw1, q);
    lemma_add_mod_noop(c0 + pc1, pc2 - bc + noise, q);
    lemma_add_mod_noop(c0 + pc1 % q, pc2 - bc + noise, q);
    lemma_add_mod_noop(c0, pc1, q);
    lemma_add_mod_noop(c0, pc1 % q, q);
    lemma_mod_twice(pc1, q);
    assert(c0 + w0 + pc1 + pw1 == (c0 + pc1) + (w0 + pw1));
    assert(c0 + pc1 % q + pc2 - bc + noise == (c0 + pc1 % q) + (pc2 - bc + noise));
}

/// One balanced step from `v`: `(v - digit(v)) / base`.
spec fn balanced_step(v: int, base: int) -> int {
    (v - balanced_digit(v, base)) / base
}

/// Taking `n` steps from `v` is taking `n - 1` steps from the first step.
proof fn lemma_rest_after_step(v: int, base: int, n: nat)
    requires
        n >= 1,
    ensures
        balanced_rest(v, base, n) == balanced_rest(balanced_step(v, base), base, (n - 1) as nat),
    decreases n,
{
    if n > 1 {
        lemma_rest_after_step(v, base, (n - 1) as nat);
        let prev = balanced_rest(v, base, (n - 1) as nat);
        assert(balanced_rest(v, base, n) == balanced_step(prev, base));
        assert(balanced_rest(balanced_step(v, base), base, (n - 1) as nat) == balanced_step(
            balanced_rest(balanced_step(v, base), base, (n - 2) as nat),
            base,
        ));
    } else {
        assert(balanced_rest(v, base, 0) == v);
        assert(balanced_rest(v, base, 1) == balanced_step(v, base));
    }
}

/// A balanced digit lies in `[-base/2, base/2)`.
proof fn lemma_balanced_digit_range(v: int, base: int)
    requires
        base >= 2,
        base % 2 == 0,
    ensures
        -(base / 2) <= balanced_digit(v, base) < base / 2,
{
    if v >= 0 {
        lemma_mod_bound(v, base);
    } else {
        lemma_mod_bound(-v, base);
    }
}

/// The carry vanishes for small values: if `4 * |v| <= base^n`, with `base`
/// a multiple of four, the first `n` balanced digits represent `v` exactly.
pub proof fn lemma_carry_vanishes(v: int, base: int, n: nat)
    requires
        base >= 4,
        base % 4 == 0,
        4 * v <= pow(base, n),
        -4 * v <= pow(base, n),
    ensures
        balanced_rest(v, base, n) == 0,
    decreases n,
{
    if n == 0 {
        lemma_pow0(base);
    } else {
        let p = (n - 1) as nat;
        lemma_rest_after_step(v, base, n);
        let d = balanced_digit(v, base);
        let t = balanced_step(v, base);
        lemma_balanced_digit_range(v, base);
        lemma_balanced_digit_exact(v, base);
        assert(v - d == base * t);
        reveal(pow);
        assert(pow(base, n) == base * pow(base, p));
        lemma_pow_positive(base, p);
        let x = pow(base, p);
        // 4 |t| * base = 4 |v - d| <= base^n + 2 base, so 4 |t| <= base^(n-1) + 2
        assert(4 * t * base <= x * base + 2 * base) by (nonlinear_arith)
            requires
                v - d == base * t,
                4 * v <= base * x,
                d >= -(base / 2),
                base % 4 == 0,
                base >= 4,
        ;
        assert(-4 * t * base <= x * base + 2 * base) by (nonlinear_arith)
            requires
                v - d == base * t,
                -4 * v <= base * x,
                d < base / 2,
                base % 4 == 0,
                base >= 4,
        ;
        assert(4 * t <= x + 2) by (nonlinear_arith)
            requires
                4 * t * base <= x * base + 2 * base,
                base > 0,
        ;
        assert(-4 * t <= x + 2) by (nonlinear_arith)
            requires
                -4 * t * base <= x * base + 2 * base,
                base > 0,
        ;
        if p == 0 {
            lemma_pow0(base);
            // |t| <= 3/4, so t == 0
            assert(t == 0);
            assert(balanced_rest(t, base, 0) == t);
        } else {
            // base^(n-1) is a multiple of 4, so 4 |t| <= base^(n-1) + 2 gives 4 |t| <= base^(n-1)
            lemma_pow_multiple_of_four(base, p);
            assert(4 * t <= x);
            assert(-4 * t <= x);
            lemma_carry_vanishes(t, base, p);
        }
    }
}

/// A positive power of a multiple of four is one.
proof fn lemma_pow_multiple_of_four(base: int, e: nat)
    requires
        base % 4 == 0,
        base >= 4,
        e >= 1,
    ensures
        pow(base, e) % 4 == 0,
{
    reveal(pow);
    lemma_pow_positive(base, (e - 1) as nat);
    lemma_fundamental_div_mod(base, 4);
    let c = base / 4;
    assert(pow(base, e) == 4 * (c * pow(base, (e - 1) as nat))) by (nonlinear_arith)
        requires
            pow(base, e) == base * pow(base, (e - 1) as nat),
            base == 4 * c,
    ;
    lemma_mod_multiples_basic(c * pow(base, (e - 1) as nat), 4);
}

/// The centered CRT values of a modulus `total` with `2 * total <= base^n`
/// leave no carry after `n` digits.
pub proof fn lemma_no_carry(crt: nat, total: int, base: int, n: nat)
    requires
        base >= 4,
        base % 4 == 0,
        crt < total,
        2 * total <= pow(base, n),
    ensures
        balanced_rest(centered(crt as int, total), base, n) == 0,
{
    lemma_carry_vanishes(centered(crt as int, total), base, n);
}

/// Keys whose digits agree at prime `l` leave the same weighted noise there.
proof fn lemma_noise_agrees(
    digits: Seq<RnsPolynomial>,
    a: Seq<RnsCiphertext>,
    b: Seq<RnsCiphertext>,
    s: RnsPolynomial,
    base: int,
    scale: int,
    target: spec_fn(int, int) -> int,
    l: int,
    k: int,
    c: nat,
)
    requires
        c <= a.len(),
        c <= b.len(),
        forall|i: int|
            0 <= i < c ==> {
                &&& (#[trigger] a[i]).c0.residue_coeffs()[l] == b[i].c0.residue_coeffs()[l]
                &&& a[i].c1.residue_coeffs()[l] == b[i].c1.residue_coeffs()[l]
                &&& a[i].c0.spec_moduli()[l] == b[i].c0.spec_moduli()[l]
                &&& a[i].c1.spec_moduli()[l] == b[i].c1.spec_moduli()[l]
                &&& a[i].c0.spec_degree() == b[i].c0.spec_degree()
                &&& 0 <= l < a[i].c0.spec_levels()
                &&& l < b[i].c0.spec_levels()
            },
    ensures
        weighted_noise(digits, a, s, base, scale, target, l, k, c) == weighted_noise(
            digits,
            b,
            s,
            base,
            scale,
            target,
            l,
            k,
            c,
        ),
    decreases c,
{
    if c > 0 {
        let i = c - 1;
        lemma_noise_agrees(digits, a, b, s, base, scale, target, l, k, (c - 1) as nat);
        let f = scale * pow(base, i as nat);
        assert(a[i].c0.residue_coeffs()[l] == b[i].c0.residue_coeffs()[l]);
        assert forall|j: int| 0 <= j < a[i].c0.spec_degree() implies #[trigger] decryption_residue(a[i], s, l)[j]
            == decryption_residue(b[i], s, l)[j] by {
            assert(a[i].c0.residue_coeffs()[l] == a[i].c0.spec_residues()[l].spec_coeffs());
            assert(b[i].c0.residue_coeffs()[l] == b[i].c0.spec_residues()[l].spec_coeffs());
        }
        assert(decryption_residue(a[i], s, l) =~= decryption_residue(b[i], s, l));
        assert(digit_noise(a[i], s, f, target, l) =~= digit_noise(b[i], s, f, target, l));
    }
}

/// Coefficient `k` modulo prime `l` of the equation of [`lemma_rotate_decrypts`].
pub open spec fn rotated_at(
    r: RnsCiphertext,
    ct: RnsCiphertext,
    key: RnsRotationKey,
    s: RnsPolynomial,
    digits: Seq<RnsPolynomial>,
    crt: Seq<nat>,
    n: nat,
    moduli: Seq<u64>,
    l: int,
    k: int,
) -> bool {
    let q = moduli[l] as int;
    let g = key.galois_element as nat;
    let base = pow2(key.keyswitch_key.decomp_bits as nat) as int;
    let c = key.keyswitch_key.ksk@.len();
    let image_s = target_residue(galois_of(s, g), l, n, q);
    (r.c0.coeff(l, k) + prod_coeff(r.c1, s, l, k)) % q == (galois_coeff(ct.c0.residue_coeffs()[l], g, q as nat, k)
        + negacyclic_partial(target_residue(galois_of(ct.c1, g), l, n, q), image_s, k, n) - pow(base, c)
        * negacyclic_partial(carry_residue(crt, base, c, moduli_product(moduli) as int, q, n), image_s, k, n)
        + weighted_noise(digits, key.keyswitch_key.ksk@, s, base, 1, galois_of(s, g), l, k, c)) % q
}

/// The digits, CRT values and equation of [`lemma_rotate_decrypts`].
pub open spec fn rotated_as(
    r: RnsCiphertext,
    ct: RnsCiphertext,
    key: RnsRotationKey,
    s: RnsPolynomial,
    image: RnsPolynomial,
    digits: Seq<RnsPolynomial>,
    crt: Seq<nat>,
    n: nat,
    moduli: Seq<u64>,
) -> bool {
    &&& is_galois_image(image, ct.c1, key.galois_element as nat)
    &&& is_gadget_decomposition(
        digits,
        image,
        n,
        moduli,
        key.keyswitch_key.decomp_bits as nat,
        key.keyswitch_key.ksk@.len(),
    )
    &&& is_crt_of(crt, image, moduli)
    &&& forall|l: int, k: int|
        0 <= l < moduli.len() && 0 <= k < n ==> #[trigger] rotated_at(r, ct, key, s, digits, crt, n, moduli, l, k)
}

/// Rotation decrypts to the image of the decryption under the image of the
/// secret: if `r` rotates `ct` with a key whose digit `i` switches
/// `2^(i*decomp_bits) * g(s)` to `s` (for the key's automorphism `g`), then
/// residue by residue
/// `r.c0 + r.c1 * s = g(c0) + g(c1) * g(s) - B^n * carry * g(s) + sum_i d_i * noise_i`
/// for the gadget digits `d_i` of `g(c1)`, `B = 2^decomp_bits`, `n` digits,
/// the carry of the decomposition, and `noise_i = e0_i + e * u_i + e1_i * s`
/// the error of key digit `i`.
#[verifier::spinoff_prover]
#[verifier::rlimit(40)]
pub proof fn lemma_rotate_decrypts(
    basis: RnsContext,
    key_basis: RnsContext,
    ct: RnsCiphertext,
    key: RnsRotationKey,
    r: RnsCiphertext,
    s: RnsPolynomial,
    e: RnsPolynomial,
    public_key: RnsPublicKey,
)
    requires
        basis.wf(),
        key_basis.wf(),
        key_basis.spec_degree() == basis.spec_degree(),
        basis.spec_levels() <= key_basis.spec_levels(),
        basis.spec_moduli() == key_basis.spec_moduli().subrange(0, basis.spec_levels() as int),
        ct.c0.has_shape(basis.spec_degree(), basis.spec_moduli()),
        ct.c1.has_shape(basis.spec_degree(), basis.spec_moduli()),
        r.has_shape(basis.spec_degree(), basis.spec_moduli()),
        forall|i: int|
            0 <= i < key.keyswitch_key.ksk@.len() ==> (#[trigger] key.keyswitch_key.ksk@[i]).has_shape(
                key_basis.spec_degree(),
                key_basis.spec_moduli(),
            ),
        key.keyswitch_key.decomp_bits >= 1,
        fits_basis(s, key_basis.spec_degree(), key_basis.spec_moduli()),
        fits_basis(e, key_basis.spec_degree(), key_basis.spec_moduli()),
        fits_basis(public_key.p0, key_basis.spec_degree(), key_basis.spec_moduli()),
        fits_basis(public_key.p1, key_basis.spec_degree(), key_basis.spec_moduli()),
        is_public_key_for(public_key, s, e),
        forall|i: int|
            0 <= i < key.keyswitch_key.ksk@.len() ==> is_switching_digit_for(
                #[trigger] key.keyswitch_key.ksk@[i],
                galois_of(s, key.galois_element as nat),
                pow(pow2(key.keyswitch_key.decomp_bits as nat) as int, i as nat),
                public_key,
                key_basis.spec_degree(),
                key_basis.spec_moduli(),
            ),
        is_rotation_of(r, ct, key, basis.spec_degree(), basis.spec_moduli()),
    ensures
        forall|i: int|
            0 <= i < key.keyswitch_key.ksk@.len() ==> is_digit_noise_from(
                #[trigger] key.keyswitch_key.ksk@[i],
                s,
                e,
                pow(pow2(key.keyswitch_key.decomp_bits as nat) as int, i as nat),
                galois_of(s, key.galois_element as nat),
                key_basis.spec_degree(),
                key_basis.spec_moduli(),
            ),
        exists|image: RnsPolynomial, digits: Seq<RnsPolynomial>, crt: Seq<nat>|
            #[trigger] rotated_as(r, ct, key, s, image, digits, crt, basis.spec_degree(), basis.spec_moduli()),
{
    basis.lemma_context_facts();
    key_basis.lemma_context_facts();
    let n = basis.spec_degree();
    let m = basis.spec_moduli();
    let km = key_basis.spec_moduli();
    let g = key.galois_element as nat;
    let kk = key.keyswitch_key;
    let c = kk.ksk@.len();
    let base = pow2(kk.decomp_bits as nat) as int;
    let total = moduli_product(m) as int;
    let src = galois_of(s, g);
    assert forall|i: int| 0 <= i < c implies is_digit_noise_from(
        #[trigger] kk.ksk@[i],
        s,
        e,
        pow(base, i as nat),
        src,
        n,
        km,
    ) by {
        lemma_switching_digit_noise(key_basis, kk.ksk@[i], s, e, public_key, pow(base, i as nat), src);
    }
    let (g0, g1, truncated, w) = choose|g0: RnsPolynomial, g1: RnsPolynomial, truncated: RnsKeySwitchingKey, w: RnsCiphertext|
        #![trigger is_galois_image(g0, ct.c0, g), is_galois_image(g1, ct.c1, g), is_switch_of(w, g1, truncated, n, m)]
        {
            &&& is_galois_image(g0, ct.c0, g)
            &&& is_galois_image(g1, ct.c1, g)
            &&& g0.has_shape(n, m)
            &&& g1.has_shape(n, m)
            &&& RnsKeySwitchingKey::is_prefix_of(truncated, kk, m.len() as int)
            &&& truncated.decomp_bits == kk.decomp_bits
            &&& is_switch_of(w, g1, truncated, n, m)
            &&& w.has_shape(n, m)
            &&& forall|l: int, k: int|
                0 <= l < m.len() && 0 <= k < n ==> {
                    &&& #[trigger] r.c0.coeff(l, k) as int == (g0.coeff(l, k) + w.c0.coeff(l, k)) % (m[l] as int)
                    &&& r.c1.coeff(l, k) == w.c1.coeff(l, k)
                }
        };
    let tkeys = truncated.ksk@;
    let digits = choose|digits: Seq<RnsPolynomial>|
        #[trigger] is_gadget_decomposition(digits, g1, n, m, truncated.decomp_bits as nat, tkeys.len()) && forall|
            l: int,
            k: int,
        |
            0 <= l < m.len() && 0 <= k < n ==> {
                &&& #[trigger] w.c0.coeff(l, k) as int == switched_sum(digits, tkeys, false, l, k, tkeys.len()) % (
                m[l] as int)
                &&& w.c1.coeff(l, k) as int == switched_sum(digits, tkeys, true, l, k, tkeys.len()) % (m[l] as int)
            };
    assert(tkeys.len() == c);
    assert(is_gadget_decomposition(digits, g1, n, m, kk.decomp_bits as nat, c));
    // the truncated digits have the basis' shape and agree with the key's at its primes
    assert forall|i: int| 0 <= i < c implies (#[trigger] tkeys[i]).c0.has_shape(n, m) && tkeys[i].c1.has_shape(n, m) by {
        lemma_prefix_shape(kk.ksk@[i].c0, tkeys[i].c0, m.len(), n, km);
        lemma_prefix_shape(kk.ksk@[i].c1, tkeys[i].c1, m.len(), n, km);
        assert(km.subrange(0, m.len() as int) == m);
    }
    assert forall|l: int| 0 <= l < m.len() implies #[trigger] residue_fits(s, l, n, m[l]) by {
        assert(residue_fits(s, l, n, km[l]));
        assert(m[l] == km[l]);
    }
    lemma_switch_decrypts(basis, digits, tkeys, s, w, c);
    lemma_gadget_recombination(digits, g1, n, m, kk.decomp_bits as nat, c);
    let crt = choose|crt: Seq<nat>|
        #[trigger] is_crt_of(crt, g1, m) && forall|l: int, k: int|
            0 <= l < m.len() && 0 <= k < n ==> #[trigger] recombined(digits, base, l, k, c) % (m[l] as int) == (g1.coeff(
                l,
                k,
            ) - pow(base, c) * balanced_rest(centered(crt[k] as int, total), base, c)) % (m[l] as int);
    assert forall|l: int, k: int| 0 <= l < m.len() && 0 <= k < n implies #[trigger] rotated_at(
        r,
        ct,
        key,
        s,
        digits,
        crt,
        n,
        m,
        l,
        k,
    ) by {
        let q = m[l] as int;
        let qn = m[l] as nat;
        let big_b = pow(base, c);
        let img = target_residue(src, l, n, q);
        let g1r = target_residue(galois_of(ct.c1, g), l, n, q);
        lemma_weighted_split(basis, digits, tkeys, s, base, 1, src, l, c);
        // the noise of the truncated digits is that of the key's digits at this prime
        assert forall|i: int| 0 <= i < c implies {
            &&& (#[trigger] tkeys[i]).c0.residue_coeffs()[l] == kk.ksk@[i].c0.residue_coeffs()[l]
            &&& tkeys[i].c1.residue_coeffs()[l] == kk.ksk@[i].c1.residue_coeffs()[l]
            &&& tkeys[i].c0.spec_moduli()[l] == kk.ksk@[i].c0.spec_moduli()[l]
            &&& tkeys[i].c1.spec_moduli()[l] == kk.ksk@[i].c1.spec_moduli()[l]
            &&& tkeys[i].c0.spec_degree() == kk.ksk@[i].c0.spec_degree()
            &&& 0 <= l < tkeys[i].c0.spec_levels()
            &&& l < kk.ksk@[i].c0.spec_levels()
        } by {
            lemma_prefix_residues(tkeys[i].c0, kk.ksk@[i].c0, m.len());
            lemma_prefix_residues(tkeys[i].c1, kk.ksk@[i].c1, m.len());
        }
        lemma_noise_agrees(digits, tkeys, kk.ksk@, s, base, 1, src, l, k, c);
        // g1 is the image of c1
        lemma_residue_facts(g1, n, m, l);
        lemma_residue_facts(ct.c1, n, m, l);
        lemma_residue_facts(ct.c0, n, m, l);
        let g1l = g1.residue_coeffs()[l];
        assert(g1l =~= g1r) by {
            assert forall|j: int| 0 <= j < n implies #[trigger] g1l[j] == g1r[j] by {
                assert(g1.coeff(l, j) as int == galois_coeff(ct.c1.residue_coeffs()[l], g, qn, j));
                lemma_mod_bound(galois_partial(ct.c1.residue_coeffs()[l], g, j, ct.c1.residue_coeffs()[l].len()), q);
                lemma_mod_twice(galois_partial(ct.c1.residue_coeffs()[l], g, j, ct.c1.residue_coeffs()[l].len()), q);
            }
        }
        // the recombined digits are g1 - B^n * carry
        let rr = recombined_residue(digits, base, l, c, n, q);
        let carry = carry_residue(crt, base, c, total, q, n);
        assert forall|j: int| 0 <= j < n implies #[trigger] (rr[j] as int) % q == (g1l[j] + (-big_b) * carry[j]) % q by {
            let rest = balanced_rest(centered(crt[j] as int, total), base, c);
            let a = recombined(digits, base, l, j, c);
            lemma_mod_bound(a, q);
            lemma_mod_twice(a, q);
            lemma_mod_bound(rest, q);
            assert(carry[j] as int == rest % q);
            lemma_mul_mod_noop_right(-big_b, rest, q);
            lemma_add_mod_noop(g1l[j] as int, (-big_b) * (rest % q), q);
            lemma_add_mod_noop(g1l[j] as int, (-big_b) * rest, q);
            lemma_mul_unary_negation(big_b, rest);
            assert(g1l[j] as int == g1.coeff(l, j));
        }
        lemma_negacyclic_linear(rr, g1l, carry, img, -big_b, qn, k);
        // r = (g0 + w0, w1)
        lemma_residue_facts(r.c1, n, m, l);
        lemma_residue_facts(w.c1, n, m, l);
        assert(r.c1.residue_coeffs()[l] =~= w.c1.residue_coeffs()[l]) by {
            assert forall|j: int| 0 <= j < n implies #[trigger] r.c1.residue_coeffs()[l][j] == w.c1.residue_coeffs()[l][j] by {
                assert(r.c0.coeff(l, j) as int == (g0.coeff(l, j) + w.c0.coeff(l, j)) % q);
            }
        }
        assert(prod_coeff(r.c1, s, l, k) == prod_coeff(w.c1, s, l, k));
        assert(g0.coeff(l, k) as int == galois_coeff(ct.c0.residue_coeffs()[l], g, qn, k));
        let w0 = w.c0.coeff(l, k) as int;
        let pw1 = prod_coeff(w.c1, s, l, k);
        let wd = weighted_decryptions(digits, tkeys, s, l, k, c);
        let noise = weighted_noise(digits, kk.ksk@, s, base, 1, src, l, k, c);
        let prr = negacyclic_partial(rr, img, k, n);
        let pg1 = negacyclic_partial(g1r, img, k, n);
        let pcarry = negacyclic_partial(carry, img, k, n);
        assert((w0 + pw1) % q == wd % q);
        assert(wd % q == (1 * prr + noise) % q);
        assert(prr % q == (pg1 + (-big_b) * pcarry) % q);
        assert((-big_b) * pcarry == -(big_b * pcarry)) by (nonlinear_arith);
        lemma_rotate_algebra(g0.coeff(l, k) as int, w0, r.c0.coeff(l, k) as int, pw1, wd, prr, noise, pg1, big_b * pcarry, q);
    }
    assert(rotated_as(r, ct, key, s, g1, digits, crt, n, m));
}

/// The modular bookkeeping of [`lemma_rotate_decrypts`].
proof fn lemma_rotate_algebra(g0: int, w0: int, r0: int, pw1: int, wd: int, prr: int, noise: int, pg1: int, bc: int, q: int)
    requires
        q > 0,
        r0 == (g0 + w0) % q,
        (w0 + pw1) % q == wd % q,
        wd % q == (1 * prr + noise) % q,
        prr % q == (pg1 + -bc) % q,
    ensures
        (r0 + pw1) % q == (g0 + pg1 - bc + noise) % q,
{
    lemma_add_mod_noop(g0 + w0, pw1, q);
    lemma_add_mod_noop(r0, pw1, q);
    lemma_mod_twice(g0 + w0, q);
    assert((r0 + pw1) % q == (g0 + w0 + pw1) % q);
    lemma_add_mod_noop(g0, w0 + pw1, q);
    lemma_add_mod_noop(g0, prr + noise, q);
    lemma_add_mod_noop(prr, noise, q);
    lemma_add_mod_noop(pg1 + -bc, noise, q);
    lemma_add_mod_noop(g0, pg1 + -bc + noise, q);
    assert(g0 + w0 + pw1 == g0 + (w0 + pw1));
    assert(g0 + pg1 - bc + noise == g0 + (pg1 + -bc + noise));
}

} // verus!
