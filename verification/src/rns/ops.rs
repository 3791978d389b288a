//! Encryption, decryption, plaintext and ciphertext multiplication, and
//! rescaling of RNS CKKS ciphertexts.

use crate::math::arith::has_inverse;
use crate::math::bignum::bit_length;
use crate::poly::{
    lemma_negacyclic_associative,
    lemma_negacyclic_partial_symmetric,
    lemma_negacyclic_seq_entry,
    lemma_negacyclic_commutative,
    lemma_negacyclic_linear,
    negacyclic_coeff,
    negacyclic_partial,
    negacyclic_seq,
    ModularPolynomial,
};
use vstd::arithmetic::div_mod::*;
use vstd::arithmetic::mul::*;
use vstd::prelude::*;

use super::basis::{mod_inv_u64, RnsContext};
use super::ciphertexts::{RnsCiphertext, RnsQuadraticCiphertext};
use super::keys::{
    ErrorSampler,
    is_gaussian_lift,
    is_public_key_for,
    is_ternary_lift,
    sample_error_poly,
    sample_ternary_poly,
    RnsPublicKey,
    RnsSecretKey,
};
use super::polynomial::{is_product, lemma_add3_mod, lemma_prefix_residues, prod_coeff, RnsPolynomial};

verus! {

/// The centered representative in `(-modulus/2, modulus/2]` of a residue.
pub open spec fn centered(value: int, modulus: int) -> int {
    if value <= modulus / 2 {
        value
    } else {
        value - modulus
    }
}

/// The last modulus of the chain is invertible modulo every other modulus,
/// as rescaling by it requires.
pub open spec fn last_modulus_invertible(moduli: Seq<u64>) -> bool {
    forall|l: int|
        0 <= l < moduli.len() - 1 ==> has_inverse(
            (moduli.last() as nat) % (#[trigger] moduli[l] as nat),
            moduli[l] as nat,
        )
}

/// `r` is `a` divided by its last modulus `q_L` with centered rounding:
/// residue by residue, `r * q_L == a - centered(a mod q_L)` modulo each
/// remaining prime.
pub open spec fn is_rescaled(r: RnsPolynomial, a: RnsPolynomial) -> bool {
    let last = a.spec_levels() - 1;
    let q_last = a.spec_moduli()[last] as int;
    &&& r.has_shape(a.spec_degree(), a.spec_moduli().drop_last())
    &&& forall|l: int, k: int|
        0 <= l < last && 0 <= k < a.spec_degree() ==> (#[trigger] r.coeff(l, k) as int * q_last) % (
        a.spec_moduli()[l] as int) == (a.coeff(l, k) as int - centered(a.coeff(last, k) as int, q_last)) % (
        a.spec_moduli()[l] as int)
}

/// The scale that remains after dividing by a prime of the given bit length.
pub open spec fn rescaled_scale_bits(scale_bits: nat, prime_bit_length: nat) -> nat {
    let dropped = (prime_bit_length - 1) as nat;
    if scale_bits >= dropped {
        (scale_bits - dropped) as nat
    } else {
        0
    }
}

/// `r` encrypts `plaintext` under `public_key` with mask `u` and errors `e0`,
/// `e1`: `r = (p0 * u + e0 + m, p1 * u + e1)`, residue by residue.
pub open spec fn is_encryption(
    r: RnsCiphertext,
    plaintext: RnsPolynomial,
    public_key: RnsPublicKey,
    u: RnsPolynomial,
    e0: RnsPolynomial,
    e1: RnsPolynomial,
) -> bool {
    forall|l: int, k: int|
        0 <= l < plaintext.spec_levels() && 0 <= k < plaintext.spec_degree() ==> {
            &&& #[trigger] r.c0.coeff(l, k) == (prod_coeff(public_key.p0, u, l, k) + e0.coeff(l, k) + plaintext.coeff(
                l,
                k,
            )) % (plaintext.spec_moduli()[l] as int)
            &&& r.c1.coeff(l, k) == (prod_coeff(public_key.p1, u, l, k) + e1.coeff(l, k)) % (
            plaintext.spec_moduli()[l] as int)
        }
}

/// `r` is the decryption `c0 + c1 * s` of `ciphertext`, residue by residue.
pub open spec fn is_decryption(r: RnsPolynomial, ciphertext: RnsCiphertext, s: RnsPolynomial) -> bool {
    forall|l: int, k: int|
        0 <= l < ciphertext.c0.spec_levels() && 0 <= k < ciphertext.c0.spec_degree() ==> #[trigger] r.coeff(l, k) == (
        ciphertext.c0.coeff(l, k) + prod_coeff(ciphertext.c1, s, l, k)) % (ciphertext.c0.spec_moduli()[l] as int)
}

/// Coefficients of `s^2` modulo the `l`-th prime.
pub open spec fn square_coeffs(s: RnsPolynomial, l: int) -> Seq<u64> {
    Seq::new(s.spec_degree(), |k: int| prod_coeff(s, s, l, k) as u64)
}

/// `r` is the decryption `c0 + c1 * s + c2 * s^2` of a quadratic ciphertext.
pub open spec fn is_quadratic_decryption(r: RnsPolynomial, ciphertext: RnsQuadraticCiphertext, s: RnsPolynomial) -> bool {
    forall|l: int, k: int|
        0 <= l < ciphertext.c0.spec_levels() && 0 <= k < ciphertext.c0.spec_degree() ==> #[trigger] r.coeff(l, k) == (
        ciphertext.c0.coeff(l, k) + prod_coeff(ciphertext.c1, s, l, k) + negacyclic_coeff(
            ciphertext.c2.residue_coeffs()[l],
            square_coeffs(s, l),
            ciphertext.c0.spec_moduli()[l] as nat,
            k,
        )) % (ciphertext.c0.spec_moduli()[l] as int)
}

/// Products with a prefix of `s` agree, residue by residue, with products
/// with `s` itself.
pub proof fn lemma_prefix_products(a: RnsPolynomial, prefix: RnsPolynomial, s: RnsPolynomial, count: nat)
    requires
        count <= s.spec_levels(),
        prefix.spec_view() == s.spec_view().subrange(0, count as int),
    ensures
        forall|l: int, k: int| 0 <= l < count ==> #[trigger] prod_coeff(a, prefix, l, k) == prod_coeff(a, s, l, k),
{
    lemma_prefix_residues(prefix, s, count);
}

/// The squares of a prefix of `s` agree with the squares of `s`.
pub proof fn lemma_prefix_squares(prefix: RnsPolynomial, s: RnsPolynomial, count: nat)
    requires
        0 < count <= s.spec_levels(),
        prefix.spec_view() == s.spec_view().subrange(0, count as int),
    ensures
        forall|l: int| 0 <= l < count ==> #[trigger] square_coeffs(prefix, l) == square_coeffs(s, l),
{
    lemma_prefix_residues(prefix, s, count);
    assert forall|l: int| 0 <= l < count implies #[trigger] square_coeffs(prefix, l) == square_coeffs(s, l) by {
        assert forall|k: int| 0 <= k < s.spec_degree() implies #[trigger] prod_coeff(prefix, prefix, l, k) == prod_coeff(
            s,
            s,
            l,
            k,
        ) by {}
        assert(square_coeffs(prefix, l) =~= square_coeffs(s, l));
    }
}

/// Decryption undoes encryption up to the noise: for a public key
/// `(e - p1 * s, p1)` and an encryption `(p0 * u + e0 + m, p1 * u + e1)` of
/// `m`, decrypting with `s` gives `m + e0 + e * u + e1 * s`, residue by residue.
pub proof fn lemma_decrypt_encrypt(
    context: RnsContext,
    public_key: RnsPublicKey,
    s: RnsPolynomial,
    e: RnsPolynomial,
    m: RnsPolynomial,
    u: RnsPolynomial,
    e0: RnsPolynomial,
    e1: RnsPolynomial,
    c: RnsCiphertext,
    r: RnsPolynomial,
)
    requires
        context.wf(),
        s.has_shape(context.spec_degree(), context.spec_moduli()),
        e.has_shape(context.spec_degree(), context.spec_moduli()),
        m.has_shape(context.spec_degree(), context.spec_moduli()),
        u.has_shape(context.spec_degree(), context.spec_moduli()),
        e0.has_shape(context.spec_degree(), context.spec_moduli()),
        e1.has_shape(context.spec_degree(), context.spec_moduli()),
        public_key.p0.has_shape(context.spec_degree(), context.spec_moduli()),
        public_key.p1.has_shape(context.spec_degree(), context.spec_moduli()),
        c.has_shape(context.spec_degree(), context.spec_moduli()),
        is_public_key_for(public_key, s, e),
        is_encryption(c, m, public_key, u, e0, e1),
        is_decryption(r, c, s),
    ensures
        forall|l: int, k: int|
            0 <= l < context.spec_levels() && 0 <= k < context.spec_degree() ==> #[trigger] r.coeff(l, k) == (m.coeff(
                l,
                k,
            ) + e0.coeff(l, k) + prod_coeff(e, u, l, k) + prod_coeff(e1, s, l, k)) % (context.spec_moduli()[l] as int),
{
    context.lemma_context_facts();
    assert forall|l: int, k: int| 0 <= l < context.spec_levels() && 0 <= k < context.spec_degree() implies #[trigger] r.coeff(
        l,
        k,
    ) == (m.coeff(l, k) + e0.coeff(l, k) + prod_coeff(e, u, l, k) + prod_coeff(e1, s, l, k)) % (
    context.spec_moduli()[l] as int) by {
        let n = context.spec_degree();
        let q = context.spec_moduli()[l];
        lemma_fits_from_shape(s, n, context.spec_moduli(), l);
        lemma_fits_from_shape(e, n, context.spec_moduli(), l);
        lemma_fits_from_shape(m, n, context.spec_moduli(), l);
        lemma_fits_from_shape(u, n, context.spec_moduli(), l);
        lemma_fits_from_shape(e0, n, context.spec_moduli(), l);
        lemma_fits_from_shape(e1, n, context.spec_moduli(), l);
        lemma_fits_from_shape(public_key.p0, n, context.spec_moduli(), l);
        lemma_fits_from_shape(public_key.p1, n, context.spec_moduli(), l);
        lemma_fits_from_shape(c.c0, n, context.spec_moduli(), l);
        lemma_fits_from_shape(c.c1, n, context.spec_moduli(), l);
        lemma_decrypt_encrypt_at(context, public_key, s, e, m, u, e0, e1, c, l, k);
    }
}

/// Residue `l` of `p` exists and holds `n` coefficients reduced modulo `q`,
/// and all of `p`'s residues have `n` coefficients.
pub open spec fn residue_fits(p: RnsPolynomial, l: int, n: nat, q: u64) -> bool {
    &&& 0 <= l < p.spec_levels()
    &&& p.spec_degree() == n
    &&& p.residue_coeffs()[l].len() == n
    &&& p.spec_moduli()[l] == q
    &&& forall|j: int| 0 <= j < n ==> #[trigger] p.coeff(l, j) < q
}

/// A polynomial of a given shape fits at each of its residues.
pub proof fn lemma_fits_from_shape(p: RnsPolynomial, n: nat, moduli: Seq<u64>, l: int)
    requires
        p.has_shape(n, moduli),
        0 <= l < moduli.len(),
    ensures
        residue_fits(p, l, n, moduli[l]),
{
    assert(p.spec_residues()[l].wf());
    assert(p.spec_residues()[0].wf());
    assert forall|j: int| 0 <= j < n implies #[trigger] p.coeff(l, j) < moduli[l] by {
        assert(p.spec_residues()[l].spec_coeffs()[j] < p.spec_residues()[l].spec_modulus());
    }
}

/// One coefficient of [`lemma_decrypt_encrypt`].
pub(crate) proof fn lemma_decrypt_encrypt_at(
    context: RnsContext,
    public_key: RnsPublicKey,
    s: RnsPolynomial,
    e: RnsPolynomial,
    m: RnsPolynomial,
    u: RnsPolynomial,
    e0: RnsPolynomial,
    e1: RnsPolynomial,
    c: RnsCiphertext,
    l: int,
    k: int,
)
    requires
        context.wf(),
        0 <= l < context.spec_levels(),
        0 <= k < context.spec_degree(),
        residue_fits(s, l, context.spec_degree(), context.spec_moduli()[l]),
        residue_fits(e, l, context.spec_degree(), context.spec_moduli()[l]),
        residue_fits(m, l, context.spec_degree(), context.spec_moduli()[l]),
        residue_fits(u, l, context.spec_degree(), context.spec_moduli()[l]),
        residue_fits(e0, l, context.spec_degree(), context.spec_moduli()[l]),
        residue_fits(e1, l, context.spec_degree(), context.spec_moduli()[l]),
        residue_fits(public_key.p0, l, context.spec_degree(), context.spec_moduli()[l]),
        residue_fits(public_key.p1, l, context.spec_degree(), context.spec_moduli()[l]),
        residue_fits(c.c0, l, context.spec_degree(), context.spec_moduli()[l]),
        residue_fits(c.c1, l, context.spec_degree(), context.spec_moduli()[l]),
        is_public_key_for(public_key, s, e),
        is_encryption(c, m, public_key, u, e0, e1),
    ensures
        (c.c0.coeff(l, k) + prod_coeff(c.c1, s, l, k)) % (context.spec_moduli()[l] as int) == (m.coeff(l, k)
            + e0.coeff(l, k) + prod_coeff(e, u, l, k) + prod_coeff(e1, s, l, k)) % (context.spec_moduli()[l] as int),
{
    context.lemma_context_facts();
    let plan = context.lemma_plan_for(l);
    plan.lemma_plan_facts();
    let n = context.spec_degree();
    let q = context.spec_moduli()[l] as nat;
    let qi = q as int;
    let sl = s.residue_coeffs()[l];
    let el = e.residue_coeffs()[l];
    let ul = u.residue_coeffs()[l];
    let e1l = e1.residue_coeffs()[l];
    let p0l = public_key.p0.residue_coeffs()[l];
    let p1l = public_key.p1.residue_coeffs()[l];
    let c1l = c.c1.residue_coeffs()[l];
    assert(sl.len() == n && el.len() == n && ul.len() == n && e1l.len() == n);
    assert(p0l.len() == n && p1l.len() == n && c1l.len() == n);
    assert(s.spec_moduli()[l] == q && e.spec_moduli()[l] == q && public_key.p1.spec_moduli()[l] == q);
    assert(e1.spec_moduli()[l] == q && c.c1.spec_moduli()[l] == q && public_key.p0.spec_moduli()[l] == q);
    assert(m.spec_moduli()[l] == q && c.c0.spec_moduli()[l] == q);
    let p1u = negacyclic_seq(p1l, ul, q);
    let p1s = negacyclic_seq(p1l, sl, q);
    // c1 = p1 u + e1, so c1 * s = (p1 u) s + e1 s
    assert forall|i: int| 0 <= i < n implies #[trigger] (c1l[i] as int) % qi == (p1u[i] + 1 * e1l[i]) % qi by {
        lemma_mod_bound(negacyclic_partial(p1l, ul, i, n), qi);
        assert(m.spec_degree() == n);
        assert(l < m.spec_levels());
        assert(is_encryption(c, m, public_key, u, e0, e1));
        assert(c.c0.coeff(l, i) == (prod_coeff(public_key.p0, u, l, i) + e0.coeff(l, i) + m.coeff(l, i)) % (
        m.spec_moduli()[l] as int));
        assert(c.c1.coeff(l, i) == c1l[i]);
        assert(e1.coeff(l, i) == e1l[i]);
        assert(p1u[i] as int == prod_coeff(public_key.p1, u, l, i));
        assert(c.c1.coeff(l, i) == (prod_coeff(public_key.p1, u, l, i) + e1.coeff(l, i)) % (m.spec_moduli()[l] as int));
        lemma_mod_twice(p1u[i] + e1l[i], qi);
        assert((c1l[i] as int) % qi == (p1u[i] + e1l[i]) % qi);
    }
    lemma_negacyclic_linear(c1l, p1u, e1l, sl, 1, q, k);
    // p0 = e - p1 s, so p0 * u = e u - (p1 s) u
    assert forall|i: int| 0 <= i < n implies #[trigger] (p0l[i] as int) % qi == (el[i] + -1 * p1s[i]) % qi by {
        lemma_mod_bound(negacyclic_partial(p1l, sl, i, n), qi);
        assert(public_key.p0.coeff(l, i) == p0l[i]);
        assert(e.coeff(l, i) == el[i]);
        lemma_mod_twice(el[i] - p1s[i], qi);
    }
    lemma_negacyclic_linear(p0l, el, p1s, ul, -1, q, k);
    // (p1 s) u = p1 (s u) = p1 (u s) = (p1 u) s
    lemma_negacyclic_associative(plan, p1l, sl, ul);
    lemma_negacyclic_commutative(sl, ul, q);
    lemma_negacyclic_associative(plan, p1l, ul, sl);
    let x1 = negacyclic_seq(p1s, ul, q)[k];
    let x2 = negacyclic_seq(p1u, sl, q)[k];
    assert(x1 == x2);
    lemma_mod_bound(negacyclic_partial(p1s, ul, k, n), qi);
    lemma_mod_bound(negacyclic_partial(p1u, sl, k, n), qi);
    let a = negacyclic_partial(p1u, sl, k, n);
    let b = negacyclic_partial(p1s, ul, k, n);
    assert(a % qi == b % qi);
    // assemble: r = c0 + c1 s
    let c0 = c.c0.coeff(l, k) as int;
    let mm = m.coeff(l, k) as int;
    let e0k = e0.coeff(l, k) as int;
    let eu = negacyclic_partial(el, ul, k, n);
    let e1s = negacyclic_partial(e1l, sl, k, n);
    let c1s = negacyclic_partial(c1l, sl, k, n);
    let p0u = negacyclic_partial(p0l, ul, k, n);
    assert(c0 == (p0u % qi + e0k + mm) % qi);
    assert(prod_coeff(c.c1, s, l, k) == c1s % qi);
    assert(c1s % qi == (a + 1 * e1s) % qi);
    assert(p0u % qi == (eu + -1 * b) % qi);
    lemma_decrypt_algebra(c0, c1s, p0u, a, b, e0k, mm, eu, e1s, qi);
    assert(prod_coeff(e, u, l, k) == eu % qi);
    assert(prod_coeff(e1, s, l, k) == e1s % qi);
    lemma_add_reduced(mm + e0k + eu % qi, e1s, qi);
    lemma_add_reduced(mm + e0k + e1s, eu, qi);
    assert(mm + e0k + eu % qi + e1s == mm + e0k + e1s + eu % qi);
    assert(mm + e0k + e1s + eu == mm + e0k + eu + e1s);
}

/// `(b + z mod q) mod q == (b + z) mod q`.
proof fn lemma_add_reduced(b: int, z: int, q: int)
    requires
        q > 0,
    ensures
        (b + z % q) % q == (b + z) % q,
{
    lemma_add_mod_noop(b, z, q);
    lemma_add_mod_noop(b, z % q, q);
    lemma_mod_twice(z, q);
}

/// Homomorphic multiplication: decrypting the tensor product of two
/// ciphertexts with `s` (as a quadratic ciphertext) gives the product of
/// their decryptions, residue by residue.
pub proof fn lemma_decrypt_mult(
    context: RnsContext,
    lhs: RnsCiphertext,
    rhs: RnsCiphertext,
    product: RnsQuadraticCiphertext,
    s: RnsPolynomial,
    lhs_plain: RnsPolynomial,
    rhs_plain: RnsPolynomial,
    product_plain: RnsPolynomial,
)
    requires
        context.wf(),
        lhs.has_shape(context.spec_degree(), context.spec_moduli()),
        rhs.has_shape(context.spec_degree(), context.spec_moduli()),
        product.c0.has_shape(context.spec_degree(), context.spec_moduli()),
        product.c1.has_shape(context.spec_degree(), context.spec_moduli()),
        product.c2.has_shape(context.spec_degree(), context.spec_moduli()),
        s.has_shape(context.spec_degree(), context.spec_moduli()),
        lhs_plain.has_shape(context.spec_degree(), context.spec_moduli()),
        rhs_plain.has_shape(context.spec_degree(), context.spec_moduli()),
        is_product(product.c0, lhs.c0, rhs.c0),
        is_product(product.c2, lhs.c1, rhs.c1),
        forall|l: int, k: int|
            0 <= l < lhs.c0.spec_levels() && 0 <= k < lhs.c0.spec_degree() ==> #[trigger] product.c1.coeff(l, k) == (
            prod_coeff(lhs.c0, rhs.c1, l, k) + prod_coeff(lhs.c1, rhs.c0, l, k)) % (lhs.c0.spec_moduli()[l] as int),
        is_decryption(lhs_plain, lhs, s),
        is_decryption(rhs_plain, rhs, s),
        is_quadratic_decryption(product_plain, product, s),
    ensures
        forall|l: int, k: int|
            0 <= l < context.spec_levels() && 0 <= k < context.spec_degree() ==> #[trigger] product_plain.coeff(l, k)
                == prod_coeff(lhs_plain, rhs_plain, l, k),
{
    context.lemma_context_facts();
    assert forall|l: int, k: int| 0 <= l < context.spec_levels() && 0 <= k < context.spec_degree() implies #[trigger] product_plain.coeff(
        l,
        k,
    ) == prod_coeff(lhs_plain, rhs_plain, l, k) by {
        lemma_decrypt_mult_at(context, lhs, rhs, product, s, lhs_plain, rhs_plain, product_plain, l, k);
    }
}

/// `x == y (mod q)` as an equation with an explicit multiple of `q`.
proof fn lemma_congruence_witness(x: int, y: int, q: int)
    requires
        q > 0,
        x % q == y % q,
    ensures
        x == y + q * (x / q - y / q),
{
    lemma_fundamental_div_mod(x, q);
    lemma_fundamental_div_mod(y, q);
    assert(q * (x / q - y / q) == q * (x / q) - q * (y / q)) by (nonlinear_arith);
}

/// One coefficient of [`lemma_decrypt_mult`].
proof fn lemma_decrypt_mult_at(
    context: RnsContext,
    lhs: RnsCiphertext,
    rhs: RnsCiphertext,
    product: RnsQuadraticCiphertext,
    s: RnsPolynomial,
    lhs_plain: RnsPolynomial,
    rhs_plain: RnsPolynomial,
    product_plain: RnsPolynomial,
    l: int,
    k: int,
)
    requires
        context.wf(),
        lhs.has_shape(context.spec_degree(), context.spec_moduli()),
        rhs.has_shape(context.spec_degree(), context.spec_moduli()),
        product.c0.has_shape(context.spec_degree(), context.spec_moduli()),
        product.c1.has_shape(context.spec_degree(), context.spec_moduli()),
        product.c2.has_shape(context.spec_degree(), context.spec_moduli()),
        s.has_shape(context.spec_degree(), context.spec_moduli()),
        lhs_plain.has_shape(context.spec_degree(), context.spec_moduli()),
        rhs_plain.has_shape(context.spec_degree(), context.spec_moduli()),
        is_product(product.c0, lhs.c0, rhs.c0),
        is_product(product.c2, lhs.c1, rhs.c1),
        forall|l: int, k: int|
            0 <= l < lhs.c0.spec_levels() && 0 <= k < lhs.c0.spec_degree() ==> #[trigger] product.c1.coeff(l, k) == (
            prod_coeff(lhs.c0, rhs.c1, l, k) + prod_coeff(lhs.c1, rhs.c0, l, k)) % (lhs.c0.spec_moduli()[l] as int),
        is_decryption(lhs_plain, lhs, s),
        is_decryption(rhs_plain, rhs, s),
        is_quadratic_decryption(product_plain, product, s),
        0 <= l < context.spec_levels(),
        0 <= k < context.spec_degree(),
    ensures
        product_plain.coeff(l, k) == prod_coeff(lhs_plain, rhs_plain, l, k),
{
    context.lemma_context_facts();
    let plan = context.lemma_plan_for(l);
    plan.lemma_plan_facts();
    let n = context.spec_degree();
    let q = context.spec_moduli()[l] as nat;
    let qi = q as int;
    let a0 = lhs.c0.residue_coeffs()[l];
    let a1 = lhs.c1.residue_coeffs()[l];
    let b0 = rhs.c0.residue_coeffs()[l];
    let b1 = rhs.c1.residue_coeffs()[l];
    let sl = s.residue_coeffs()[l];
    let d = lhs_plain.residue_coeffs()[l];
    let e = rhs_plain.residue_coeffs()[l];
    let c1 = product.c1.residue_coeffs()[l];
    let c2 = product.c2.residue_coeffs()[l];
    assert(a0.len() == n && a1.len() == n && b0.len() == n && b1.len() == n && sl.len() == n);
    assert(d.len() == n && e.len() == n && c1.len() == n && c2.len() == n);
    assert(lhs.c0.spec_moduli()[l] == q && lhs.c1.spec_moduli()[l] == q && rhs.c0.spec_moduli()[l] == q);
    assert(s.spec_moduli()[l] == q && lhs_plain.spec_moduli()[l] == q && product.c0.spec_moduli()[l] == q);
    assert(lhs.c0.spec_degree() == n && rhs.c0.spec_degree() == n && product.c0.spec_degree() == n);
    let a1s = negacyclic_seq(a1, sl, q);
    let b1s = negacyclic_seq(b1, sl, q);
    let a0b1 = negacyclic_seq(a0, b1, q);
    let a1b0 = negacyclic_seq(a1, b0, q);
    let a1b1 = negacyclic_seq(a1, b1, q);
    let ss = negacyclic_seq(sl, sl, q);
    // the decryptions: d = a0 + a1 s, e = b0 + b1 s
    assert forall|i: int| 0 <= i < n implies #[trigger] (d[i] as int) % qi == (a0[i] + 1 * a1s[i]) % qi by {
        assert(is_decryption(lhs_plain, lhs, s));
        assert(lhs_plain.coeff(l, i) == d[i]);
        lemma_negacyclic_seq_entry(a1, sl, q, i);
        lemma_mod_twice(a0[i] + a1s[i], qi);
    }
    assert forall|i: int| 0 <= i < n implies #[trigger] (e[i] as int) % qi == (b0[i] + 1 * b1s[i]) % qi by {
        assert(is_decryption(rhs_plain, rhs, s));
        assert(rhs_plain.coeff(l, i) == e[i]);
        lemma_negacyclic_seq_entry(b1, sl, q, i);
        lemma_mod_twice(b0[i] + b1s[i], qi);
    }
    // c1 = a0 b1 + a1 b0 and c2 = a1 b1
    assert forall|i: int| 0 <= i < n implies #[trigger] (c1[i] as int) % qi == (a0b1[i] + 1 * a1b0[i]) % qi by {
        assert(product.c1.coeff(l, i) == c1[i]);
        lemma_negacyclic_seq_entry(a0, b1, q, i);
        lemma_negacyclic_seq_entry(a1, b0, q, i);
        lemma_mod_twice(a0b1[i] + a1b0[i], qi);
    }
    assert(c2 =~= a1b1) by {
        assert forall|i: int| 0 <= i < n implies #[trigger] c2[i] == a1b1[i] by {
            assert(product.c2.coeff(l, i) == c2[i]);
            lemma_negacyclic_seq_entry(a1, b1, q, i);
        }
    }
    assert(square_coeffs(s, l) =~= ss) by {
        assert(s.spec_degree() == n);
    }
    // expand d * e
    let pde = negacyclic_partial(d, e, k, n);
    lemma_negacyclic_linear(d, a0, a1s, e, 1, q, k);
    lemma_negacyclic_partial_symmetric(a0, e, k);
    lemma_negacyclic_linear(e, b0, b1s, a0, 1, q, k);
    lemma_negacyclic_partial_symmetric(b0, a0, k);
    lemma_negacyclic_partial_symmetric(b1s, a0, k);
    lemma_negacyclic_partial_symmetric(a1s, e, k);
    lemma_negacyclic_linear(e, b0, b1s, a1s, 1, q, k);
    // regroup the products with associativity and commutativity
    lemma_negacyclic_associative(plan, a0, b1, sl);
    lemma_negacyclic_associative(plan, b0, a1, sl);
    lemma_negacyclic_commutative(b0, a1, q);
    lemma_negacyclic_associative(plan, b1, sl, a1s);
    lemma_negacyclic_commutative(a1, sl, q);
    lemma_negacyclic_associative(plan, sl, sl, a1);
    lemma_negacyclic_commutative(ss, a1, q);
    lemma_negacyclic_associative(plan, b1, a1, ss);
    lemma_negacyclic_commutative(b1, a1, q);
    let t1 = negacyclic_partial(a0, b1s, k, n);
    let t1r = negacyclic_partial(a0b1, sl, k, n);
    let t2 = negacyclic_partial(b0, a1s, k, n);
    let t2r = negacyclic_partial(a1b0, sl, k, n);
    let t3 = negacyclic_partial(b1s, a1s, k, n);
    let t3r = negacyclic_partial(a1b1, ss, k, n);
    lemma_negacyclic_seq_entry(a0, b1s, q, k);
    lemma_negacyclic_seq_entry(a0b1, sl, q, k);
    lemma_negacyclic_seq_entry(b0, a1s, q, k);
    lemma_negacyclic_seq_entry(a1b0, sl, q, k);
    lemma_negacyclic_seq_entry(b1s, a1s, q, k);
    lemma_negacyclic_seq_entry(a1b1, ss, q, k);
    assert(negacyclic_seq(b1s, a1s, q) == negacyclic_seq(a1b1, ss, q)) by {
        assert(negacyclic_seq(sl, a1s, q) == negacyclic_seq(sl, negacyclic_seq(sl, a1, q), q));
        assert(negacyclic_seq(sl, negacyclic_seq(sl, a1, q), q) == negacyclic_seq(ss, a1, q));
        assert(negacyclic_seq(b1, negacyclic_seq(sl, a1s, q), q) == negacyclic_seq(b1, negacyclic_seq(a1, ss, q), q));
        assert(negacyclic_seq(b1, negacyclic_seq(a1, ss, q), q) == negacyclic_seq(negacyclic_seq(b1, a1, q), ss, q));
    }
    assert(t1 % qi == t1r % qi);
    assert(t2 % qi == t2r % qi);
    assert(t3 % qi == t3r % qi);
    // the quadratic decryption
    let pc1 = negacyclic_partial(c1, sl, k, n);
    lemma_negacyclic_linear(c1, a0b1, a1b0, sl, 1, q, k);
    let p00 = negacyclic_partial(a0, b0, k, n);
    assert(product.c0.coeff(l, k) as int == p00 % qi);
    assert(is_quadratic_decryption(product_plain, product, s));
    assert(product_plain.coeff(l, k) as int == (p00 % qi + pc1 % qi + t3r % qi) % qi);
    assert(prod_coeff(lhs_plain, rhs_plain, l, k) == pde % qi);
    // pde = p00 + t1 + t2 + t3 and the decryption = p00 + t1r + t2r + t3r (mod q)
    let pa0e = negacyclic_partial(a0, e, k, n);
    let pa1e = negacyclic_partial(a1s, e, k, n);
    let pea0 = negacyclic_partial(e, a0, k, n);
    let pea1 = negacyclic_partial(e, a1s, k, n);
    assert(pde % qi == (pa0e + 1 * pa1e) % qi);
    assert(pea0 % qi == (negacyclic_partial(b0, a0, k, n) + 1 * negacyclic_partial(b1s, a0, k, n)) % qi);
    assert(pea1 % qi == (negacyclic_partial(b0, a1s, k, n) + 1 * negacyclic_partial(b1s, a1s, k, n)) % qi);
    assert(pc1 % qi == (t1r + 1 * t2r) % qi);
    lemma_congruence_witness(pde, pa0e + pa1e, qi);
    lemma_congruence_witness(pea0, p00 + t1, qi);
    lemma_congruence_witness(pea1, t2 + t3, qi);
    lemma_congruence_witness(t1, t1r, qi);
    lemma_congruence_witness(t2, t2r, qi);
    lemma_congruence_witness(t3, t3r, qi);
    lemma_congruence_witness(pc1, t1r + t2r, qi);
    let x1 = pde / qi - (pa0e + pa1e) / qi;
    let x2 = pea0 / qi - (p00 + t1) / qi;
    let x3 = pea1 / qi - (t2 + t3) / qi;
    let x4 = t1 / qi - t1r / qi;
    let x5 = t2 / qi - t2r / qi;
    let x6 = t3 / qi - t3r / qi;
    let x7 = pc1 / qi - (t1r + t2r) / qi;
    let total = x1 + x2 + x3 + x4 + x5 + x6 - x7;
    assert(pde == (p00 + pc1 + t3r) + qi * total) by (nonlinear_arith)
        requires
            pde == pa0e + pa1e + qi * x1,
            pea0 == p00 + t1 + qi * x2,
            pea1 == t2 + t3 + qi * x3,
            t1 == t1r + qi * x4,
            t2 == t2r + qi * x5,
            t3 == t3r + qi * x6,
            pc1 == t1r + t2r + qi * x7,
            pa0e == pea0,
            pa1e == pea1,
            total == x1 + x2 + x3 + x4 + x5 + x6 - x7,
    ;
    lemma_mod_multiples_vanish(total, p00 + pc1 + t3r, qi);
    lemma_add3_mod_reduced(p00, pc1, t3r, qi);
}

/// `(x mod q + y mod q + z mod q) mod q == (x + y + z) mod q`.
proof fn lemma_add3_mod_reduced(x: int, y: int, z: int, q: int)
    requires
        q > 0,
    ensures
        (x % q + y % q + z % q) % q == (x + y + z) % q,
{
    lemma_add_reduced(x % q + y % q, z, q);
    lemma_add_reduced(x % q + z, y, q);
    lemma_add_reduced(y + z, x, q);
    assert(x % q + y % q + z == x % q + z + y % q);
    assert(x % q + z + y == y + z + x % q);
}

/// The modular algebra behind decryption of an encryption.
proof fn lemma_decrypt_algebra(c0: int, c1s: int, p0u: int, a: int, b: int, e0: int, m: int, eu: int, e1s: int, q: int)
    requires
        q > 0,
        c0 == (p0u % q + e0 + m) % q,
        c1s % q == (a + 1 * e1s) % q,
        p0u % q == (eu + -1 * b) % q,
        a % q == b % q,
    ensures
        (c0 + c1s % q) % q == (m + e0 + eu + e1s) % q,
{
    lemma_add_mod_noop(c0, c1s % q, q);
    lemma_mod_twice(c1s, q);
    lemma_add_mod_noop(p0u % q + e0 + m, a + e1s, q);
    lemma_mod_twice(p0u % q + e0 + m, q);
    lemma_add_mod_noop(c0, c1s, q);
    // both sides reduce to (p0u + e0 + m + a + e1s) mod q
    assert((c0 + c1s % q) % q == (p0u % q + e0 + m + a + e1s) % q) by {
        lemma_add_mod_noop(c0, a + e1s, q);
        lemma_add_mod_noop(p0u % q + e0 + m, a + e1s, q);
    }
    assert((p0u % q + e0 + m + a + e1s) % q == ((eu - b) + e0 + m + a + e1s) % q) by {
        lemma_add_mod_noop(p0u % q, e0 + m + a + e1s, q);
        lemma_add_mod_noop(eu - b, e0 + m + a + e1s, q);
        lemma_mod_twice(p0u, q);
    }
    assert(((eu - b) + e0 + m + a + e1s) % q == (m + e0 + eu + e1s) % q) by {
        lemma_fundamental_div_mod(a, q);
        lemma_fundamental_div_mod(b, q);
        let d = a / q - b / q;
        assert((eu - b) + e0 + m + a + e1s == (m + e0 + eu + e1s) + q * d) by (nonlinear_arith)
            requires
                a == q * (a / q) + a % q,
                b == q * (b / q) + b % q,
                a % q == b % q,
                d == a / q - b / q,
        ;
        lemma_mod_multiples_vanish(d, m + e0 + eu + e1s, q);
    }
}

/// Encrypt `plaintext` under `public_key` with a fresh ternary mask and fresh
/// Gaussian errors.
pub fn encrypt_rns<S: ErrorSampler>(
    plaintext: &RnsPolynomial,
    public_key: &RnsPublicKey,
    context: &RnsContext,
    scale_bits: usize,
    sampler: &mut S,
) -> (r: RnsCiphertext)
    requires
        context.wf(),
        plaintext.has_shape(context.spec_degree(), context.spec_moduli()),
        public_key.p0.has_shape(context.spec_degree(), context.spec_moduli()),
        public_key.p1.has_shape(context.spec_degree(), context.spec_moduli()),
    ensures
        r.wf(),
        r.has_shape(context.spec_degree(), context.spec_moduli()),
        r.scale_bits == scale_bits,
        exists|u: RnsPolynomial, e0: RnsPolynomial, e1: RnsPolynomial|
            {
                &&& u.has_shape(context.spec_degree(), context.spec_moduli())
                &&& e0.has_shape(context.spec_degree(), context.spec_moduli())
                &&& e1.has_shape(context.spec_degree(), context.spec_moduli())
                &&& is_ternary_lift(u, context.spec_degree())
                &&& is_gaussian_lift(e0, context.spec_degree())
                &&& is_gaussian_lift(e1, context.spec_degree())
                &&& #[trigger] is_encryption(r, *plaintext, *public_key, u, e0, e1)
            },
{
    let u = sample_ternary_poly(context);
    let e0 = sample_error_poly(context, sampler);
    let e1 = sample_error_poly(context, sampler);
    let r = encrypt_rns_with_samples(plaintext, public_key, context, scale_bits, &u, &e0, &e1);
    assert(is_encryption(r, *plaintext, *public_key, u, e0, e1));
    r
}

/// Encryption with given mask `u` and errors `e0`, `e1`:
/// `(p0 * u + e0 + m, p1 * u + e1)`.
pub fn encrypt_rns_with_samples(
    plaintext: &RnsPolynomial,
    public_key: &RnsPublicKey,
    context: &RnsContext,
    scale_bits: usize,
    u: &RnsPolynomial,
    e0: &RnsPolynomial,
    e1: &RnsPolynomial,
) -> (r: RnsCiphertext)
    requires
        context.wf(),
        plaintext.has_shape(context.spec_degree(), context.spec_moduli()),
        public_key.p0.has_shape(context.spec_degree(), context.spec_moduli()),
        public_key.p1.has_shape(context.spec_degree(), context.spec_moduli()),
        u.has_shape(context.spec_degree(), context.spec_moduli()),
        e0.has_shape(context.spec_degree(), context.spec_moduli()),
        e1.has_shape(context.spec_degree(), context.spec_moduli()),
    ensures
        r.wf(),
        r.has_shape(context.spec_degree(), context.spec_moduli()),
        r.scale_bits == scale_bits,
        is_encryption(r, *plaintext, *public_key, *u, *e0, *e1),
{
    proof {
        context.lemma_context_facts();
    }
    let p0u = public_key.p0.multiply_ntt(u, context);
    let with_error = p0u.add(e0);
    let c0 = with_error.add(plaintext);
    let p1u = public_key.p1.multiply_ntt(u, context);
    let c1 = p1u.add(e1);
    let r = RnsCiphertext::new(c0, c1, scale_bits);
    proof {
        assert forall|l: int, k: int|
            0 <= l < plaintext.spec_levels() && 0 <= k < plaintext.spec_degree() implies {
            &&& #[trigger] r.c0.coeff(l, k) == (prod_coeff(public_key.p0, *u, l, k) + e0.coeff(l, k) + plaintext.coeff(
                l,
                k,
            )) % (plaintext.spec_moduli()[l] as int)
            &&& r.c1.coeff(l, k) == (prod_coeff(public_key.p1, *u, l, k) + e1.coeff(l, k)) % (
            plaintext.spec_moduli()[l] as int)
        } by {
            assert(plaintext.spec_moduli()[l] == context.spec_moduli()[l]);
            assert(p0u.spec_moduli()[l] == context.spec_moduli()[l]);
            assert(with_error.spec_moduli()[l] == context.spec_moduli()[l]);
            assert(p1u.spec_moduli()[l] == context.spec_moduli()[l]);
            lemma_add3_mod(
                prod_coeff(public_key.p0, *u, l, k),
                e0.coeff(l, k) as int,
                plaintext.coeff(l, k) as int,
                context.spec_moduli()[l] as int,
            );
        }
    }
    r
}

/// Decryption: `c0 + c1 * s`.
pub(crate) fn decrypt_rns(
    ciphertext: &RnsCiphertext,
    secret_key: &RnsSecretKey,
    context: &RnsContext,
) -> (r: RnsPolynomial)
    requires
        context.wf(),
        ciphertext.has_shape(context.spec_degree(), context.spec_moduli()),
        secret_key.poly.has_shape(context.spec_degree(), context.spec_moduli()),
    ensures
        r.has_shape(context.spec_degree(), context.spec_moduli()),
        is_decryption(r, *ciphertext, secret_key.poly),
{
    proof {
        context.lemma_context_facts();
    }
    let c1s = ciphertext.c1.multiply_ntt(&secret_key.poly, context);
    let r = ciphertext.c0.add(&c1s);
    proof {
        assert forall|l: int, k: int|
            0 <= l < ciphertext.c0.spec_levels() && 0 <= k < ciphertext.c0.spec_degree() implies #[trigger] r.coeff(l, k)
            == (ciphertext.c0.coeff(l, k) + prod_coeff(ciphertext.c1, secret_key.poly, l, k)) % (
        ciphertext.c0.spec_moduli()[l] as int) by {
            assert(c1s.coeff(l, k) == prod_coeff(ciphertext.c1, secret_key.poly, l, k));
        }
    }
    r
}

/// Both components multiplied by a plaintext polynomial; the scale is kept.
pub(crate) fn multiply_plain_rns(
    ciphertext: &RnsCiphertext,
    plain: &RnsPolynomial,
    context: &RnsContext,
) -> (r: RnsCiphertext)
    requires
        context.wf(),
        ciphertext.has_shape(context.spec_degree(), context.spec_moduli()),
        plain.has_shape(context.spec_degree(), context.spec_moduli()),
    ensures
        r.wf(),
        r.has_shape(context.spec_degree(), context.spec_moduli()),
        r.scale_bits == ciphertext.scale_bits,
        r.level == ciphertext.level,
        is_product(r.c0, ciphertext.c0, *plain),
        is_product(r.c1, ciphertext.c1, *plain),
{
    proof {
        context.lemma_context_facts();
    }
    RnsCiphertext::new(
        ciphertext.c0.multiply_ntt(plain, context),
        ciphertext.c1.multiply_ntt(plain, context),
        ciphertext.scale_bits,
    )
}

/// Number of bits of a `u64` (0 for 0).
pub(crate) fn u64_bit_length(value: u64) -> (r: usize)
    ensures
        r == bit_length(value as nat),
        r <= 64,
{
    proof {
        vstd::arithmetic::power2::lemma2_to64();
        lemma_bit_length_bound(value as nat, 64);
    }
    let mut remaining = value;
    let mut bits: usize = 0;
    while remaining > 0
        invariant
            bits + bit_length(remaining as nat) == bit_length(value as nat),
            bit_length(value as nat) <= 64,
        decreases remaining,
    {
        remaining = remaining / 2;
        bits += 1;
    }
    bits
}

/// A value below `2^n` has at most `n` bits.
proof fn lemma_bit_length_bound(x: nat, n: nat)
    requires
        x < vstd::arithmetic::power2::pow2(n),
    ensures
        bit_length(x) <= n,
    decreases n,
{
    if x > 0 {
        if n == 0 {
            vstd::arithmetic::power2::lemma2_to64();
        } else {
            vstd::arithmetic::power2::lemma_pow2_unfold(n);
            lemma_bit_length_bound(x / 2, (n - 1) as nat);
        }
    }
}

/// Divide a ciphertext by the last prime of its chain and drop that prime.
pub(crate) fn rescale_ciphertext_rns(ciphertext: &RnsCiphertext, context: &RnsContext) -> (r: RnsCiphertext)
    requires
        context.wf(),
        context.spec_levels() > 1,
        last_modulus_invertible(context.spec_moduli()),
        ciphertext.has_shape(context.spec_degree(), context.spec_moduli()),
    ensures
        r.wf(),
        is_rescaled(r.c0, ciphertext.c0),
        is_rescaled(r.c1, ciphertext.c1),
        r.scale_bits == rescaled_scale_bits(
            ciphertext.scale_bits as nat,
            bit_length(context.spec_moduli().last() as nat),
        ),
        r.level == ciphertext.level - 1,
{
    proof {
        context.lemma_context_facts();
    }
    let dropped_context = match context.at_level(context.levels() - 1) {
        Ok(c) => c,
        Err(_) => {
            proof {
                assert(false);
            }
            return RnsCiphertext::new(ciphertext.c0.duplicate(), ciphertext.c1.duplicate(), 0);
        },
    };
    let dropped_prime = context.primes()[context.levels() - 1].modulus;
    let dropped_prime_bits = u64_bit_length(dropped_prime) - 1;
    proof {
        assert(dropped_context.spec_moduli() =~= context.spec_moduli().drop_last());
    }
    let c0 = rescale_poly_rns(&ciphertext.c0, &dropped_context, dropped_prime);
    let c1 = rescale_poly_rns(&ciphertext.c1, &dropped_context, dropped_prime);
    let r = RnsCiphertext {
        c0,
        c1,
        scale_bits: ciphertext.scale_bits.saturating_sub(dropped_prime_bits),
        level: ciphertext.level - 1,
    };
    proof {
        dropped_context.lemma_context_facts();
        lemma_shape_wf(r.c0, r.c1, context.spec_degree(), dropped_context.spec_moduli());
    }
    r
}

/// Two polynomials of one shape with at least one residue form a well-formed,
/// compatible pair.
pub(crate) proof fn lemma_shape_wf(a: RnsPolynomial, b: RnsPolynomial, degree: nat, moduli: Seq<u64>)
    requires
        a.has_shape(degree, moduli),
        b.has_shape(degree, moduli),
        moduli.len() > 0,
    ensures
        a.wf(),
        b.wf(),
        a.compatible(&b),
{
    assert(a.spec_moduli() =~= moduli);
    assert(b.spec_moduli() =~= moduli);
}

/// Tensor product of two ciphertexts: `(a0 b0, a0 b1 + a1 b0, a1 b1)`, with
/// the scales added.
pub(crate) fn multiply_ciphertexts_rns(
    lhs: &RnsCiphertext,
    rhs: &RnsCiphertext,
    context: &RnsContext,
) -> (r: RnsQuadraticCiphertext)
    requires
        context.wf(),
        lhs.has_shape(context.spec_degree(), context.spec_moduli()),
        rhs.has_shape(context.spec_degree(), context.spec_moduli()),
        lhs.scale_bits + rhs.scale_bits <= usize::MAX,
    ensures
        r.wf(),
        r.c0.has_shape(context.spec_degree(), context.spec_moduli()),
        r.c1.has_shape(context.spec_degree(), context.spec_moduli()),
        r.c2.has_shape(context.spec_degree(), context.spec_moduli()),
        r.scale_bits == lhs.scale_bits + rhs.scale_bits,
        r.level == lhs.level,
        is_product(r.c0, lhs.c0, rhs.c0),
        is_product(r.c2, lhs.c1, rhs.c1),
        forall|l: int, k: int|
            0 <= l < lhs.c0.spec_levels() && 0 <= k < lhs.c0.spec_degree() ==> #[trigger] r.c1.coeff(l, k) == (
            prod_coeff(lhs.c0, rhs.c1, l, k) + prod_coeff(lhs.c1, rhs.c0, l, k)) % (lhs.c0.spec_moduli()[l] as int),
{
    proof {
        context.lemma_context_facts();
    }
    let c0 = lhs.c0.multiply_ntt(&rhs.c0, context);
    let cross_a = lhs.c0.multiply_ntt(&rhs.c1, context);
    let cross_b = lhs.c1.multiply_ntt(&rhs.c0, context);
    proof {
        lemma_shape_wf(cross_a, cross_b, context.spec_degree(), context.spec_moduli());
    }
    let c1 = cross_a.add(&cross_b);
    let c2 = lhs.c1.multiply_ntt(&rhs.c1, context);
    let r = RnsQuadraticCiphertext::new(c0, c1, c2, lhs.scale_bits + rhs.scale_bits);
    proof {
        lemma_shape_wf(r.c0, r.c2, context.spec_degree(), context.spec_moduli());
        lemma_shape_wf(r.c0, r.c1, context.spec_degree(), context.spec_moduli());
        assert forall|l: int, k: int|
            0 <= l < lhs.c0.spec_levels() && 0 <= k < lhs.c0.spec_degree() implies #[trigger] r.c1.coeff(l, k) == (
            prod_coeff(lhs.c0, rhs.c1, l, k) + prod_coeff(lhs.c1, rhs.c0, l, k)) % (lhs.c0.spec_moduli()[l] as int) by {
            assert(cross_a.coeff(l, k) == prod_coeff(lhs.c0, rhs.c1, l, k));
            assert(cross_b.coeff(l, k) == prod_coeff(lhs.c1, rhs.c0, l, k));
        }
    }
    r
}

/// Decryption of a quadratic ciphertext: `c0 + c1 * s + c2 * s^2`.
pub(crate) fn decrypt_quadratic_rns(
    ciphertext: &RnsQuadraticCiphertext,
    secret_key: &RnsSecretKey,
    context: &RnsContext,
) -> (r: RnsPolynomial)
    requires
        context.wf(),
        ciphertext.c0.has_shape(context.spec_degree(), context.spec_moduli()),
        ciphertext.c1.has_shape(context.spec_degree(), context.spec_moduli()),
        ciphertext.c2.has_shape(context.spec_degree(), context.spec_moduli()),
        secret_key.poly.has_shape(context.spec_degree(), context.spec_moduli()),
    ensures
        r.has_shape(context.spec_degree(), context.spec_moduli()),
        is_quadratic_decryption(r, *ciphertext, secret_key.poly),
{
    proof {
        context.lemma_context_facts();
    }
    let s2 = secret_key.poly.multiply_ntt(&secret_key.poly, context);
    let c1s = ciphertext.c1.multiply_ntt(&secret_key.poly, context);
    let partial = ciphertext.c0.add(&c1s);
    let c2s2 = ciphertext.c2.multiply_ntt(&s2, context);
    proof {
        lemma_shape_wf(partial, c2s2, context.spec_degree(), context.spec_moduli());
    }
    let r = partial.add(&c2s2);
    proof {
        let sp = secret_key.poly;
        assert forall|l: int, k: int|
            0 <= l < ciphertext.c0.spec_levels() && 0 <= k < ciphertext.c0.spec_degree() implies #[trigger] r.coeff(l, k)
            == (ciphertext.c0.coeff(l, k) + prod_coeff(ciphertext.c1, sp, l, k) + negacyclic_coeff(
            ciphertext.c2.residue_coeffs()[l],
            square_coeffs(sp, l),
            ciphertext.c0.spec_moduli()[l] as nat,
            k,
        )) % (ciphertext.c0.spec_moduli()[l] as int) by {
            let q = context.spec_moduli()[l] as int;
            assert(s2.residue_coeffs()[l] =~= square_coeffs(sp, l)) by {
                assert forall|j: int| 0 <= j < context.spec_degree() implies #[trigger] s2.residue_coeffs()[l][j]
                    == square_coeffs(sp, l)[j] by {
                    assert(s2.coeff(l, j) == prod_coeff(sp, sp, l, j));
                }
            }
            assert(c2s2.coeff(l, k) == prod_coeff(ciphertext.c2, s2, l, k));
            assert(c1s.coeff(l, k) == prod_coeff(ciphertext.c1, sp, l, k));
            lemma_add3_mod(
                ciphertext.c0.coeff(l, k) as int,
                prod_coeff(ciphertext.c1, sp, l, k),
                prod_coeff(ciphertext.c2, s2, l, k),
                q,
            );
        }
    }
    r
}

/// Rescaling of the three components of a quadratic ciphertext.
pub(crate) fn rescale_quadratic_ciphertext_rns(
    ciphertext: &RnsQuadraticCiphertext,
    context: &RnsContext,
) -> (r: RnsQuadraticCiphertext)
    requires
        context.wf(),
        context.spec_levels() > 1,
        last_modulus_invertible(context.spec_moduli()),
        ciphertext.c0.has_shape(context.spec_degree(), context.spec_moduli()),
        ciphertext.c1.has_shape(context.spec_degree(), context.spec_moduli()),
        ciphertext.c2.has_shape(context.spec_degree(), context.spec_moduli()),
        ciphertext.level + 1 == context.spec_levels(),
    ensures
        r.wf(),
        is_rescaled(r.c0, ciphertext.c0),
        is_rescaled(r.c1, ciphertext.c1),
        is_rescaled(r.c2, ciphertext.c2),
        r.scale_bits == rescaled_scale_bits(
            ciphertext.scale_bits as nat,
            bit_length(context.spec_moduli().last() as nat),
        ),
        r.level == ciphertext.level - 1,
{
    proof {
        context.lemma_context_facts();
    }
    let dropped_context = match context.at_level(context.levels() - 1) {
        Ok(c) => c,
        Err(_) => {
            proof {
                assert(false);
            }
            return RnsQuadraticCiphertext::new(
                ciphertext.c0.duplicate(),
                ciphertext.c1.duplicate(),
                ciphertext.c2.duplicate(),
                0,
            );
        },
    };
    let dropped_prime = context.primes()[context.levels() - 1].modulus;
    let dropped_prime_bits = u64_bit_length(dropped_prime) - 1;
    proof {
        assert(dropped_context.spec_moduli() =~= context.spec_moduli().drop_last());
    }
    let r = RnsQuadraticCiphertext {
        c0: rescale_poly_rns(&ciphertext.c0, &dropped_context, dropped_prime),
        c1: rescale_poly_rns(&ciphertext.c1, &dropped_context, dropped_prime),
        c2: rescale_poly_rns(&ciphertext.c2, &dropped_context, dropped_prime),
        scale_bits: ciphertext.scale_bits.saturating_sub(dropped_prime_bits),
        level: ciphertext.level - 1,
    };
    proof {
        dropped_context.lemma_context_facts();
        lemma_shape_wf(r.c0, r.c1, context.spec_degree(), dropped_context.spec_moduli());
        lemma_shape_wf(r.c0, r.c2, context.spec_degree(), dropped_context.spec_moduli());
    }
    r
}

/// `(numerator * inverse) * dropped == numerator` modulo `q` when `inverse`
/// inverts `dropped` modulo `q`.
pub(crate) proof fn lemma_divide_by_dropped(numerator: int, inverse: int, dropped: int, q: int, r: int)
    requires
        q > 0,
        (inverse * (dropped % q)) % q == 1,
        r == (numerator * inverse) % q,
    ensures
        (r * dropped) % q == numerator % q,
{
    lemma_mul_mod_noop_left(numerator * inverse, dropped, q);
    lemma_mul_is_associative(numerator, inverse, dropped);
    lemma_mul_mod_noop_right(numerator, inverse * dropped, q);
    lemma_mul_mod_noop_right(inverse, dropped, q);
    lemma_mul_basics(numerator);
    assert((numerator * ((inverse * dropped) % q)) % q == (numerator * 1) % q);
}

/// Divide each residue by the dropped prime with centered rounding.
fn rescale_poly_rns(poly: &RnsPolynomial, dropped_context: &RnsContext, dropped_prime: u64) -> (r: RnsPolynomial)
    requires
        dropped_context.wf(),
        dropped_prime >= 3,
        poly.has_shape(dropped_context.spec_degree(), dropped_context.spec_moduli().push(dropped_prime)),
        last_modulus_invertible(dropped_context.spec_moduli().push(dropped_prime)),
    ensures
        is_rescaled(r, *poly),
        r.has_shape(dropped_context.spec_degree(), dropped_context.spec_moduli()),
{
    let ghost moduli = dropped_context.spec_moduli().push(dropped_prime);
    let last = poly.levels() - 1;
    let dropped_coeffs = poly.residues()[last].coeffs();
    let dropped_half = dropped_prime >> 1;
    proof {
        dropped_context.lemma_context_facts();
        assert(dropped_half == dropped_prime / 2) by (bit_vector)
            requires
                dropped_half == dropped_prime >> 1,
        ;
        assert(poly.spec_moduli() =~= moduli) by {
            assert forall|l: int| 0 <= l < moduli.len() implies poly.spec_moduli()[l] == moduli[l] by {
                assert(poly.spec_residues()[l].spec_modulus() == moduli[l]);
            }
        }
    }
    let n = dropped_context.poly_degree();
    let primes = dropped_context.primes();
    let mut residues: Vec<ModularPolynomial> = Vec::with_capacity(primes.len());
    let mut l: usize = 0;
    while l < primes.len()
        invariant
            primes@ == dropped_context.spec_primes(),
            dropped_context.wf(),
            forall|i: int| 0 <= i < dropped_context.spec_levels() ==> #[trigger] dropped_context.spec_moduli()[i] >= 3,
            moduli == dropped_context.spec_moduli().push(dropped_prime),
            poly.spec_moduli() == moduli,
            poly.has_shape(dropped_context.spec_degree(), moduli),
            last_modulus_invertible(moduli),
            last == primes@.len(),
            dropped_coeffs@ == poly.residue_coeffs()[last as int],
            dropped_half == dropped_prime / 2,
            dropped_prime >= 3,
            moduli.len() == last + 1,
            n == dropped_context.spec_degree(),
            l <= primes@.len(),
            residues@.len() == l,
            forall|i: int|
                0 <= i < l ==> {
                    &&& (#[trigger] residues@[i]).wf()
                    &&& residues@[i].spec_degree() == n
                    &&& residues@[i].spec_modulus() == moduli[i]
                    &&& forall|k: int|
                        0 <= k < n ==> (#[trigger] residues@[i].spec_coeffs()[k] as int * dropped_prime as int) % (
                        moduli[i] as int) == (poly.coeff(i, k) as int - centered(
                            poly.coeff(last as int, k) as int,
                            dropped_prime as int,
                        )) % (moduli[i] as int)
                },
        decreases primes@.len() - l,
    {
        let q_i = primes[l].modulus;
        assert(dropped_context.spec_moduli()[l as int] == primes@[l as int].modulus);
        assert(q_i == moduli[l as int]);
        let inverse = match mod_inv_u64(dropped_prime % q_i, q_i) {
            Some(x) => x,
            None => {
                proof {
                    assert(moduli.last() == dropped_prime);
                    assert(has_inverse((moduli.last() as nat) % (moduli[l as int] as nat), moduli[l as int] as nat));
                    assert(false);
                }
                0
            },
        };
        let residue_coeffs = poly.residues()[l].coeffs();
        assert(residue_coeffs@ == poly.residue_coeffs()[l as int]);
        let mut coeffs: Vec<u64> = Vec::with_capacity(n);
        let mut k: usize = 0;
        while k < n
            invariant
                q_i >= 3,
                q_i == moduli[l as int],
                l < last,
                dropped_prime >= 3,
                dropped_half == dropped_prime / 2,
                inverse < q_i,
                (inverse as nat * (dropped_prime % q_i) as nat) % q_i as nat == 1,
                n == dropped_context.spec_degree(),
                poly.has_shape(dropped_context.spec_degree(), moduli),
                residue_coeffs@ == poly.residue_coeffs()[l as int],
                dropped_coeffs@ == poly.residue_coeffs()[last as int],
                poly.spec_moduli() == moduli,
                moduli.last() == dropped_prime,
                moduli.len() == last + 1,
                k <= n,
                coeffs@.len() == k,
                forall|j: int|
                    0 <= j < k ==> #[trigger] coeffs@[j] < q_i && (coeffs@[j] as int * dropped_prime as int) % (
                    q_i as int) == (poly.coeff(l as int, j) as int - centered(
                        poly.coeff(last as int, j) as int,
                        dropped_prime as int,
                    )) % (q_i as int),
            decreases n - k,
        {
            assert(poly.spec_residues()[l as int].wf());
            assert(poly.spec_residues()[last as int].wf());
            let coeff = residue_coeffs[k];
            let dropped_coeff = dropped_coeffs[k];
            assert(coeff < q_i);
            assert(dropped_coeff < dropped_prime);
            let centered_mod = centered_residue_mod_prime(dropped_coeff, dropped_prime, dropped_half, q_i);
            let numerator = sub_mod_u64(coeff, centered_mod, q_i);
            proof {
                lemma_mul_upper_bound(numerator as int, u64::MAX as int, inverse as int, u64::MAX as int);
            }
            let value = ((numerator as u128 * inverse as u128) % q_i as u128) as u64;
            proof {
                let cv = centered(dropped_coeff as int, dropped_prime as int);
                lemma_divide_by_dropped(numerator as int, inverse as int, dropped_prime as int, q_i as int, value as int);
                lemma_sub_mod_noop(coeff as int, cv, q_i as int);
                lemma_small_mod(coeff as nat, q_i as nat);
                lemma_small_mod(numerator as nat, q_i as nat);
                lemma_small_mod(centered_mod as nat, q_i as nat);
                lemma_mod_bound(numerator as int * inverse as int, q_i as int);
                assert(poly.coeff(l as int, k as int) == coeff);
                assert(poly.coeff(last as int, k as int) == dropped_coeff);
                assert((numerator as int) == (coeff as int - cv) % (q_i as int));
                assert((value as int * dropped_prime as int) % (q_i as int) == (poly.coeff(l as int, k as int) as int
                    - centered(poly.coeff(last as int, k as int) as int, dropped_prime as int)) % (q_i as int));
            }
            coeffs.push(value);
            k += 1;
        }
        let residue = ModularPolynomial::new(coeffs, q_i);
        proof {
            assert forall|j: int| 0 <= j < n implies (#[trigger] residue.spec_coeffs()[j] as int
                * dropped_prime as int) % (moduli[l as int] as int) == (poly.coeff(l as int, j) as int - centered(
                poly.coeff(last as int, j) as int,
                dropped_prime as int,
            )) % (moduli[l as int] as int) by {
                lemma_small_mod(coeffs@[j] as nat, q_i as nat);
            }
        }
        residues.push(residue);
        l += 1;
    }
    let r = RnsPolynomial::new(dropped_context, residues);
    proof {
        assert(moduli.drop_last() =~= dropped_context.spec_moduli());
    }
    r
}

/// `centered(value mod modulus)` reduced modulo `target_modulus`.
fn centered_residue_mod_prime(value: u64, modulus: u64, half: u64, target_modulus: u64) -> (r: u64)
    requires
        value < modulus,
        half == modulus / 2,
        target_modulus > 0,
    ensures
        r < target_modulus,
        r as int == centered(value as int, modulus as int) % (target_modulus as int),
{
    if value <= half {
        value % target_modulus
    } else {
        let distance = (modulus - value) % target_modulus;
        proof {
            lemma_fundamental_div_mod((modulus - value) as int, target_modulus as int);
        }
        if distance == 0 {
            proof {
                let t = (modulus - value) as int / target_modulus as int;
                assert(value as int - modulus as int == (-t) * (target_modulus as int) + 0) by (nonlinear_arith)
                    requires
                        (modulus - value) as int == target_modulus as int * t + distance as int,
                        distance == 0,
                ;
                lemma_fundamental_div_mod_converse(value as int - modulus as int, target_modulus as int, -t, 0);
            }
            0
        } else {
            proof {
                let t = (modulus - value) as int / target_modulus as int;
                assert(value as int - modulus as int == (-t - 1) * (target_modulus as int) + (target_modulus
                    - distance) as int) by (nonlinear_arith)
                    requires
                        (modulus - value) as int == target_modulus as int * t + distance as int,
                ;
                lemma_fundamental_div_mod_converse(
                    value as int - modulus as int,
                    target_modulus as int,
                    -t - 1,
                    (target_modulus - distance) as int,
                );
            }
            target_modulus - distance
        }
    }
}

/// `lhs - rhs` modulo `modulus`, for reduced operands.
pub(crate) fn sub_mod_u64(lhs: u64, rhs: u64, modulus: u64) -> (r: u64)
    requires
        lhs < modulus,
        rhs < modulus,
    ensures
        r < modulus,
        r as int == (lhs as int - rhs as int) % (modulus as int),
{
    if lhs >= rhs {
        proof {
            lemma_small_mod((lhs - rhs) as nat, modulus as nat);
        }
        lhs - rhs
    } else {
        proof {
            lemma_fundamental_div_mod_converse(lhs as int - rhs as int, modulus as int, -1, (modulus - (rhs - lhs)) as int);
        }
        modulus - (rhs - lhs)
    }
}

} // verus!
