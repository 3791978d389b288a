//! Secret, public and key-pair types, and the samplers that draw them.
//!
//! Uniform and ternary randomness comes from `rand`'s thread-local generator,
//! Gaussian errors from a caller's `ErrorSampler`; everything done with the
//! draws (lifting signed coefficients into every residue, placing a fixed
//! number of non-zero ternary coefficients) is verified for every outcome of
//! the draws.

use crate::poly::ModularPolynomial;
use rand::Rng;
use vstd::arithmetic::div_mod::*;
use vstd::prelude::*;

use super::basis::RnsContext;
use super::polynomial::{prod_coeff, RnsPolynomial};

verus! {

/// A source of error samples: integers drawn from a rounded Gaussian of
/// standard deviation 3.19, supplied by the caller (drawing them takes
/// floating point). Nothing is assumed of the values drawn: every result
/// that uses them is stated for whatever values come back.
pub trait ErrorSampler {
    fn sample(&mut self) -> i64;
}

/// Draws a `u64` from `rand`'s thread-local generator
/// (`rand::thread_rng().gen::<u64>()`); nothing is claimed of the value.
#[verifier::external_body]
fn random_u64() -> u64 {
    rand::thread_rng().gen::<u64>()
}

/// A uniform draw from `0..bound` (`rand::thread_rng().gen_range(0..bound)`).
/// `gen_range` panics on an empty range, hence `bound > 0`; the draw lies in
/// the range.
#[verifier::external_body]
fn random_below(bound: usize) -> (r: usize)
    requires
        bound > 0,
    ensures
        r < bound,
{
    rand::thread_rng().gen_range(0..bound)
}

/// A fair coin (`rand::thread_rng().gen_ratio(1, 2)`); nothing is claimed of
/// the value.
#[verifier::external_body]
fn random_coin() -> bool {
    rand::thread_rng().gen_ratio(1, 2)
}

/// Every value is `-1`, `0` or `1`.
pub open spec fn is_ternary(values: Seq<i64>) -> bool {
    forall|k: int| 0 <= k < values.len() ==> -1 <= #[trigger] values[k] <= 1
}

/// Number of non-zero values.
pub open spec fn nonzero_count(values: Seq<i64>) -> nat
    decreases values.len(),
{
    if values.len() == 0 {
        0
    } else {
        nonzero_count(values.drop_last()) + if values.last() != 0 {
            1nat
        } else {
            0nat
        }
    }
}

/// `p` holds the signed integer coefficients `values`, reduced modulo each
/// prime of its basis.
pub open spec fn is_signed_lift(p: RnsPolynomial, values: Seq<i64>) -> bool {
    forall|l: int, k: int|
        0 <= l < p.spec_levels() && 0 <= k < values.len() ==> #[trigger] p.coeff(l, k) as int == (
        values[k] as int) % (p.spec_moduli()[l] as int)
}

/// Setting a zero entry to a non-zero value adds one to the count.
proof fn lemma_nonzero_count_update(values: Seq<i64>, i: int, v: i64)
    requires
        0 <= i < values.len(),
        values[i] == 0,
        v != 0,
    ensures
        nonzero_count(values.update(i, v)) == nonzero_count(values) + 1,
    decreases values.len(),
{
    let updated = values.update(i, v);
    if i == values.len() - 1 {
        assert(updated.drop_last() =~= values.drop_last());
    } else {
        lemma_nonzero_count_update(values.drop_last(), i, v);
        assert(updated.drop_last() =~= values.drop_last().update(i, v));
    }
}

/// A sequence of zeros has no non-zero entry.
proof fn lemma_nonzero_count_zeros(values: Seq<i64>)
    requires
        forall|k: int| 0 <= k < values.len() ==> #[trigger] values[k] == 0,
    ensures
        nonzero_count(values) == 0,
    decreases values.len(),
{
    if values.len() > 0 {
        lemma_nonzero_count_zeros(values.drop_last());
    }
}

/// `value` reduced into `0..modulus`.
fn signed_residue(value: i64, modulus: u64) -> (r: u64)
    requires
        modulus > 0,
    ensures
        r < modulus,
        r as int == (value as int) % (modulus as int),
{
    if value >= 0 {
        (value as u64) % modulus
    } else {
        let magnitude: u64 = (-(value as i128)) as u64;
        let d = magnitude % modulus;
        let ghost t: int = magnitude as int / modulus as int;
        proof {
            lemma_fundamental_div_mod(magnitude as int, modulus as int);
            assert(magnitude as int == -(value as int));
        }
        if d == 0 {
            proof {
                assert(value as int == (-t) * (modulus as int) + 0) by (nonlinear_arith)
                    requires
                        magnitude as int == modulus as int * t + d as int,
                        d == 0,
                        magnitude as int == -(value as int),
                ;
                lemma_fundamental_div_mod_converse(value as int, modulus as int, -t, 0);
            }
            0
        } else {
            proof {
                assert(value as int == (-t - 1) * (modulus as int) + (modulus - d) as int) by (nonlinear_arith)
                    requires
                        magnitude as int == modulus as int * t + d as int,
                        magnitude as int == -(value as int),
                        d < modulus,
                ;
                lemma_fundamental_div_mod_converse(value as int, modulus as int, -t - 1, (modulus - d) as int);
            }
            modulus - d
        }
    }
}

/// The signed coefficients `values` as an RNS polynomial of the context.
fn lift_signed_coeffs(context: &RnsContext, values: &Vec<i64>) -> (r: RnsPolynomial)
    requires
        context.wf(),
        values@.len() == context.spec_degree(),
    ensures
        r.has_shape(context.spec_degree(), context.spec_moduli()),
        is_signed_lift(r, values@),
{
    let primes = context.primes();
    proof {
        context.lemma_context_facts();
    }
    let n = values.len();
    let mut residues: Vec<ModularPolynomial> = Vec::with_capacity(primes.len());
    let mut l: usize = 0;
    while l < primes.len()
        invariant
            primes@ == context.spec_primes(),
            context.wf(),
            forall|i: int| 0 <= i < context.spec_levels() ==> #[trigger] context.spec_moduli()[i] >= 3,
            n == values@.len(),
            n == context.spec_degree(),
            l <= primes@.len(),
            residues@.len() == l,
            forall|i: int|
                0 <= i < l ==> {
                    &&& (#[trigger] residues@[i]).wf()
                    &&& residues@[i].spec_degree() == n
                    &&& residues@[i].spec_modulus() == context.spec_moduli()[i]
                    &&& forall|k: int|
                        0 <= k < n ==> #[trigger] residues@[i].spec_coeffs()[k] as int == (values@[k] as int)
                            % (context.spec_moduli()[i] as int)
                },
        decreases primes@.len() - l,
    {
        let modulus = primes[l].modulus;
        assert(modulus == context.spec_moduli()[l as int]);
        let mut coeffs: Vec<u64> = Vec::with_capacity(n);
        let mut k: usize = 0;
        while k < n
            invariant
                modulus >= 3,
                n == values@.len(),
                k <= n,
                coeffs@.len() == k,
                forall|j: int|
                    0 <= j < k ==> #[trigger] coeffs@[j] < modulus && coeffs@[j] as int == (values@[j] as int)
                        % (modulus as int),
            decreases n - k,
        {
            coeffs.push(signed_residue(values[k], modulus));
            k += 1;
        }
        let residue = ModularPolynomial::new(coeffs, modulus);
        proof {
            assert forall|j: int| 0 <= j < n implies #[trigger] residue.spec_coeffs()[j] as int == (
            values@[j] as int) % (modulus as int) by {
                lemma_small_mod(coeffs@[j] as nat, modulus as nat);
            }
        }
        residues.push(residue);
        l += 1;
    }
    RnsPolynomial::new(context, residues)
}

/// `n` values of which exactly `hamming_weight` are non-zero, each non-zero
/// value `1` or `-1` by a fair coin, at positions drawn uniformly among those
/// still free.
fn sparse_ternary_values(n: usize, hamming_weight: usize) -> (r: Vec<i64>)
    requires
        hamming_weight <= n,
    ensures
        r@.len() == n,
        is_ternary(r@),
        nonzero_count(r@) == hamming_weight,
{
    let mut values: Vec<i64> = Vec::with_capacity(n);
    let mut free: Vec<usize> = Vec::with_capacity(n);
    let mut k: usize = 0;
    while k < n
        invariant
            k <= n,
            values@.len() == k,
            free@.len() == k,
            forall|j: int| 0 <= j < k ==> #[trigger] values@[j] == 0,
            forall|j: int| 0 <= j < k ==> #[trigger] free@[j] == j,
        decreases n - k,
    {
        values.push(0);
        free.push(k);
        k += 1;
    }
    proof {
        lemma_nonzero_count_zeros(values@);
    }
    let mut placed: usize = 0;
    while placed < hamming_weight
        invariant
            hamming_weight <= n,
            values@.len() == n,
            placed <= hamming_weight,
            free@.len() + placed == n,
            is_ternary(values@),
            nonzero_count(values@) == placed,
            forall|j: int| 0 <= j < free@.len() ==> #[trigger] free@[j] < n && values@[free@[j] as int] == 0,
            forall|i: int, j: int| 0 <= i < j < free@.len() ==> #[trigger] free@[i] != #[trigger] free@[j],
        decreases hamming_weight - placed,
    {
        let t = random_below(free.len());
        let ghost old_free = free@;
        let ghost old_values = values@;
        let position = free.swap_remove(t);
        let value: i64 = if random_coin() {
            1
        } else {
            -1
        };
        values.set(position, value);
        proof {
            lemma_nonzero_count_update(old_values, position as int, value);
            assert forall|j: int| 0 <= j < free@.len() implies #[trigger] free@[j] < n && values@[free@[j] as int]
                == 0 by {
                if j == t {
                    assert(free@[j] == old_free[old_free.len() - 1]);
                    assert(old_free.len() - 1 != t);
                } else {
                    assert(free@[j] == old_free[j]);
                }
            }
            assert forall|i: int, j: int| 0 <= i < j < free@.len() implies #[trigger] free@[i]
                != #[trigger] free@[j] by {
                let last = old_free.len() - 1;
                let oi = if i == t { last } else { i };
                let oj = if j == t { last } else { j };
                assert(free@[i] == old_free[oi]);
                assert(free@[j] == old_free[oj]);
            }
        }
        placed += 1;
    }
    values
}

/// `n` values drawn uniformly from `{0, 1, -1}`.
fn ternary_values(n: usize) -> (r: Vec<i64>)
    ensures
        r@.len() == n,
        is_ternary(r@),
{
    let mut values: Vec<i64> = Vec::with_capacity(n);
    let mut k: usize = 0;
    while k < n
        invariant
            k <= n,
            values@.len() == k,
            is_ternary(values@),
        decreases n - k,
    {
        let draw = random_below(3);
        let value: i64 = if draw == 0 {
            0
        } else if draw == 1 {
            1
        } else {
            -1
        };
        values.push(value);
        k += 1;
    }
    values
}

/// `n` error samples drawn from `sampler`.
fn error_values<S: ErrorSampler>(n: usize, sampler: &mut S) -> (r: Vec<i64>)
    ensures
        r@.len() == n,
{
    let mut values: Vec<i64> = Vec::with_capacity(n);
    let mut k: usize = 0;
    while k < n
        invariant
            k <= n,
            values@.len() == k,
        decreases n - k,
    {
        values.push(sampler.sample());
        k += 1;
    }
    values
}

/// `p` lifts, in every residue, ternary integer coefficients (`-1`, `0`, `1`).
pub open spec fn is_ternary_lift(p: RnsPolynomial, degree: nat) -> bool {
    exists|values: Seq<i64>| values.len() == degree && is_ternary(values) && #[trigger] is_signed_lift(p, values)
}

/// `p` lifts, in every residue, `degree` integer error coefficients.
pub open spec fn is_gaussian_lift(p: RnsPolynomial, degree: nat) -> bool {
    exists|values: Seq<i64>| values.len() == degree && #[trigger] is_signed_lift(p, values)
}

/// A polynomial with independent uniform residues modulo each prime.
pub fn sample_uniform_poly(context: &RnsContext) -> (r: RnsPolynomial)
    requires
        context.wf(),
    ensures
        r.has_shape(context.spec_degree(), context.spec_moduli()),
{
    let primes = context.primes();
    proof {
        context.lemma_context_facts();
    }
    let n = context.poly_degree();
    let mut residues: Vec<ModularPolynomial> = Vec::with_capacity(primes.len());
    let mut l: usize = 0;
    while l < primes.len()
        invariant
            primes@ == context.spec_primes(),
            context.wf(),
            forall|i: int| 0 <= i < context.spec_levels() ==> #[trigger] context.spec_moduli()[i] >= 3,
            n == context.spec_degree(),
            l <= primes@.len(),
            residues@.len() == l,
            forall|i: int|
                0 <= i < l ==> {
                    &&& (#[trigger] residues@[i]).wf()
                    &&& residues@[i].spec_degree() == n
                    &&& residues@[i].spec_modulus() == context.spec_moduli()[i]
                },
        decreases primes@.len() - l,
    {
        let modulus = primes[l].modulus;
        assert(modulus == context.spec_moduli()[l as int]);
        let mut coeffs: Vec<u64> = Vec::with_capacity(n);
        let mut k: usize = 0;
        while k < n
            invariant
                modulus >= 3,
                k <= n,
                coeffs@.len() == k,
            decreases n - k,
        {
            coeffs.push(random_u64() % modulus);
            k += 1;
        }
        residues.push(ModularPolynomial::new(coeffs, modulus));
        l += 1;
    }
    RnsPolynomial::new(context, residues)
}

/// A polynomial with error coefficients drawn from `sampler`, lifted into
/// every residue.
pub fn sample_error_poly<S: ErrorSampler>(context: &RnsContext, sampler: &mut S) -> (r: RnsPolynomial)
    requires
        context.wf(),
    ensures
        r.has_shape(context.spec_degree(), context.spec_moduli()),
        exists|values: Seq<i64>| values.len() == context.spec_degree() && #[trigger] is_signed_lift(r, values),
{
    let values = error_values(context.poly_degree(), sampler);
    let r = lift_signed_coeffs(context, &values);
    assert(is_signed_lift(r, values@));
    r
}

/// A polynomial with independent uniform ternary coefficients, lifted into
/// every residue.
pub fn sample_ternary_poly(context: &RnsContext) -> (r: RnsPolynomial)
    requires
        context.wf(),
    ensures
        r.has_shape(context.spec_degree(), context.spec_moduli()),
        exists|values: Seq<i64>|
            values.len() == context.spec_degree() && is_ternary(values) && #[trigger] is_signed_lift(r, values),
{
    let values = ternary_values(context.poly_degree());
    let r = lift_signed_coeffs(context, &values);
    assert(is_signed_lift(r, values@));
    r
}

/// The secret key: a ternary polynomial in RNS form.
#[derive(Clone, Debug)]
pub struct RnsSecretKey {
    pub poly: RnsPolynomial,
}

impl RnsSecretKey {
    pub fn new(poly: RnsPolynomial) -> (r: Self)
        ensures
            r.poly == poly,
    {
        Self { poly }
    }

    /// A ternary secret with exactly `hamming_weight` non-zero coefficients.
    pub fn sample_sparse_ternary(context: &RnsContext, hamming_weight: usize) -> (r: Self)
        requires
            context.wf(),
            hamming_weight <= context.spec_degree(),
        ensures
            r.poly.has_shape(context.spec_degree(), context.spec_moduli()),
            exists|values: Seq<i64>|
                values.len() == context.spec_degree() && is_ternary(values) && nonzero_count(values)
                    == hamming_weight && #[trigger] is_signed_lift(r.poly, values),
    {
        let values = sparse_ternary_values(context.poly_degree(), hamming_weight);
        let poly = lift_signed_coeffs(context, &values);
        assert(is_signed_lift(poly, values@));
        Self::new(poly)
    }
}

/// The public key `(p0, p1)` with `p0 + p1 * s` small.
#[derive(Clone, Debug)]
pub struct RnsPublicKey {
    pub p0: RnsPolynomial,
    pub p1: RnsPolynomial,
}

impl RnsPublicKey {
    pub fn new(p0: RnsPolynomial, p1: RnsPolynomial) -> (r: Self)
        requires
            p0.spec_levels() == p1.spec_levels(),
            p0.spec_degree() == p1.spec_degree(),
        ensures
            r.p0 == p0,
            r.p1 == p1,
    {
        Self { p0, p1 }
    }

    /// Both components restricted to their first `level_count` residues.
    pub fn truncate_levels(&self, level_count: usize) -> (r: Self)
        requires
            level_count > 0,
            level_count <= self.p0.spec_levels(),
            level_count <= self.p1.spec_levels(),
        ensures
            r.p0.spec_view() == self.p0.spec_view().subrange(0, level_count as int),
            r.p1.spec_view() == self.p1.spec_view().subrange(0, level_count as int),
    {
        Self { p0: self.p0.truncate_levels(level_count), p1: self.p1.truncate_levels(level_count) }
    }
}

/// A secret key, its public key, and the error used to build the public key.
#[derive(Clone, Debug)]
pub struct RnsKeyPair {
    pub secret_key: RnsSecretKey,
    pub public_key: RnsPublicKey,
    pub error: RnsPolynomial,
}

/// `public_key` is `(e - p1 * s, p1)` for the secret `s` and the error `e`,
/// residue by residue.
pub open spec fn is_public_key_for(public_key: RnsPublicKey, s: RnsPolynomial, e: RnsPolynomial) -> bool {
    forall|l: int, k: int|
        0 <= l < e.spec_levels() && 0 <= k < e.spec_degree() ==> #[trigger] public_key.p0.coeff(l, k) == (e.coeff(
            l,
            k,
        ) - prod_coeff(public_key.p1, s, l, k)) % (e.spec_moduli()[l] as int)
}

/// Key generation: a sparse ternary secret `s`, a uniform `p1`, a Gaussian
/// error `e`, and `p0 = e - p1 * s`.
pub(crate) fn rns_keygen<S: ErrorSampler>(context: &RnsContext, hamming_weight: usize, sampler: &mut S) -> (r:
    RnsKeyPair)
    requires
        context.wf(),
        hamming_weight <= context.spec_degree(),
    ensures
        r.secret_key.poly.has_shape(context.spec_degree(), context.spec_moduli()),
        exists|values: Seq<i64>|
            values.len() == context.spec_degree() && is_ternary(values) && nonzero_count(values) == hamming_weight
                && #[trigger] is_signed_lift(r.secret_key.poly, values),
        r.public_key.p1.has_shape(context.spec_degree(), context.spec_moduli()),
        r.error.has_shape(context.spec_degree(), context.spec_moduli()),
        exists|values: Seq<i64>| values.len() == context.spec_degree() && #[trigger] is_signed_lift(r.error, values),
        r.public_key.p0.has_shape(context.spec_degree(), context.spec_moduli()),
        is_public_key_for(r.public_key, r.secret_key.poly, r.error),
{
    let secret_key = RnsSecretKey::sample_sparse_ternary(context, hamming_weight);
    let p1 = sample_uniform_poly(context);
    let error = sample_error_poly(context, sampler);
    let p1s = p1.multiply_ntt(&secret_key.poly, context);
    proof {
        context.lemma_context_facts();
    }
    let p0 = error.sub(&p1s);
    let ghost secret_values = choose|values: Seq<i64>|
        values.len() == context.spec_degree() && is_ternary(values) && nonzero_count(values) == hamming_weight
            && #[trigger] is_signed_lift(secret_key.poly, values);
    let public_key = RnsPublicKey::new(p0, p1);
    let r = RnsKeyPair { secret_key, public_key, error };
    assert(is_signed_lift(r.secret_key.poly, secret_values));
    proof {
        assert forall|l: int, k: int|
            0 <= l < r.error.spec_levels() && 0 <= k < r.error.spec_degree() implies #[trigger] r.public_key.p0.coeff(
            l,
            k,
        ) == (r.error.coeff(l, k) - prod_coeff(r.public_key.p1, r.secret_key.poly, l, k)) % (
        r.error.spec_moduli()[l] as int) by {
            assert(p1s.coeff(l, k) == prod_coeff(p1, secret_key.poly, l, k));
        }
    }
    r
}

} // verus!
