//! RNS bases: a polynomial degree, a chain of NTT-friendly primes and one NTT
//! plan per prime.

use crate::math::arith::{has_inverse, is_pow2};
use crate::math::bignum::{big_bits, big_mul, bit_length, BigInteger, BigNat};
use crate::math::ntt::{mod_inv, ntt_plan_error, ntt_plan_ok, NttPlan};
use crate::math::text::decimal;
use vstd::arithmetic::div_mod::*;
use vstd::arithmetic::mul::*;
use vstd::prelude::*;

use super::polynomial::RnsPolynomial;

verus! {

/// The product of a sequence of moduli (1 for the empty sequence).
pub open spec fn moduli_product(moduli: Seq<u64>) -> nat
    decreases moduli.len(),
{
    if moduli.len() == 0 {
        1
    } else {
        moduli_product(moduli.drop_last()) * (moduli.last() as nat)
    }
}

/// The moduli of a sequence of primes.
pub open spec fn prime_moduli(primes: Seq<RnsPrime>) -> Seq<u64> {
    primes.map_values(|prime: RnsPrime| prime.modulus)
}

/// The conditions under which `RnsContext::new(poly_degree, primes)` succeeds:
/// a power-of-two degree, at least one prime, no repeated modulus and an NTT
/// plan for every prime.
pub open spec fn rns_basis_ok(poly_degree: nat, primes: Seq<RnsPrime>) -> bool {
    &&& poly_degree > 0
    &&& is_pow2(poly_degree)
    &&& primes.len() > 0
    &&& forall|i: int, j: int|
        0 <= i < j < primes.len() ==> (#[trigger] primes[i]).modulus != (#[trigger] primes[j]).modulus
    &&& forall|i: int|
        0 <= i < primes.len() ==> ntt_plan_ok(
            poly_degree,
            (#[trigger] primes[i]).modulus as nat,
            primes[i].primitive_root as nat,
        )
}

/// The moduli before `index` are distinct, and the modulus at `index`
/// repeats one of them: `index` is where the duplicate check stops.
pub open spec fn is_first_duplicate(primes: Seq<RnsPrime>, index: int) -> bool {
    &&& 0 <= index < primes.len()
    &&& forall|i: int, j: int| 0 <= i < j < index ==> (#[trigger] primes[i]).modulus != (#[trigger] primes[j]).modulus
    &&& exists|other: int| 0 <= other < index && (#[trigger] primes[other]).modulus == primes[index].modulus
}

/// The message of `RnsContext::new(poly_degree, primes)` when the basis is
/// not valid: the first failing check, in the order the constructor makes
/// them.
pub open spec fn is_rns_basis_error(e: Seq<char>, poly_degree: nat, primes: Seq<RnsPrime>) -> bool {
    if poly_degree == 0 || !is_pow2(poly_degree) {
        e == "poly_degree must be a non-zero power of two"@
    } else if primes.len() == 0 {
        e == "RNS basis must contain at least one prime"@
    } else if !(forall|i: int, j: int|
        0 <= i < j < primes.len() ==> (#[trigger] primes[i]).modulus != (#[trigger] primes[j]).modulus) {
        exists|index: int|
            #[trigger] is_first_duplicate(primes, index) && e == "duplicate RNS modulus "@ + decimal(
                primes[index].modulus as nat,
            ) + ""@
    } else {
        exists|index: int|
            0 <= index < primes.len() && !ntt_plan_ok(
                poly_degree,
                (#[trigger] primes[index]).modulus as nat,
                primes[index].primitive_root as nat,
            ) && (forall|i: int|
                0 <= i < index ==> ntt_plan_ok(
                    poly_degree,
                    (#[trigger] primes[i]).modulus as nat,
                    primes[i].primitive_root as nat,
                )) && e == "invalid RNS prime "@ + decimal(primes[index].modulus as nat) + ": "@ + ntt_plan_error(
                poly_degree,
                primes[index].modulus as nat,
                primes[index].primitive_root as nat,
            )
    }
}

/// The message for a level count outside `1..=levels`.
pub open spec fn level_count_text(levels: nat, level_count: nat) -> Seq<char> {
    "level_count must be in 1..="@ + decimal(levels) + ", got "@ + decimal(level_count)
}

/// Every CRT coefficient `(Q / q_i) mod q_i` of the chain is invertible modulo
/// `q_i`, which holds exactly when the moduli are pairwise coprime.
pub open spec fn crt_invertible(moduli: Seq<u64>) -> bool {
    forall|i: int|
        0 <= i < moduli.len() ==> has_inverse(
            (moduli_product(moduli) / (#[trigger] moduli[i]) as nat) % (moduli[i] as nat),
            moduli[i] as nat,
        )
}

#[derive(Clone, Copy, Debug, PartialEq, Eq, Structural)]
pub struct RnsPrime {
    pub modulus: u64,
    pub primitive_root: u64,
}

impl RnsPrime {
    pub fn new(modulus: u64, primitive_root: u64) -> (r: Self)
        requires
            modulus > 1,
            primitive_root > 1,
        ensures
            r.modulus == modulus,
            r.primitive_root == primitive_root,
    {
        Self { modulus, primitive_root }
    }
}

#[derive(Clone, Debug)]
pub struct RnsContext {
    poly_degree: usize,
    primes: Vec<RnsPrime>,
    plans: Vec<NttPlan>,
}

impl RnsContext {
    pub closed spec fn spec_degree(&self) -> nat {
        self.poly_degree as nat
    }

    pub closed spec fn spec_primes(&self) -> Seq<RnsPrime> {
        self.primes@
    }

    pub closed spec fn spec_plans(&self) -> Seq<NttPlan> {
        self.plans@
    }

    pub open spec fn spec_moduli(&self) -> Seq<u64> {
        prime_moduli(self.spec_primes())
    }

    pub open spec fn spec_levels(&self) -> nat {
        self.spec_primes().len()
    }

    /// The product `Q` of the moduli.
    pub open spec fn spec_total_modulus(&self) -> nat {
        moduli_product(self.spec_moduli())
    }

    /// A valid basis with one consistent plan per prime.
    pub open spec fn wf(&self) -> bool {
        &&& rns_basis_ok(self.spec_degree(), self.spec_primes())
        &&& self.spec_plans().len() == self.spec_primes().len()
        &&& forall|i: int|
            0 <= i < self.spec_plans().len() ==> {
                &&& (#[trigger] self.spec_plans()[i]).wf()
                &&& self.spec_plans()[i].spec_size() == self.spec_degree()
                &&& self.spec_plans()[i].spec_modulus() == self.spec_primes()[i].modulus
            }
    }

    pub fn new(poly_degree: usize, primes: Vec<RnsPrime>) -> (r: Result<Self, String>)
        ensures
            match r {
                Ok(context) => {
                    &&& rns_basis_ok(poly_degree as nat, primes@)
                    &&& context.wf()
                    &&& context.spec_degree() == poly_degree
                    &&& context.spec_primes() == primes@
                },
                Err(e) => {
                    &&& !rns_basis_ok(poly_degree as nat, primes@)
                    &&& is_rns_basis_error(e@, poly_degree as nat, primes@)
                },
            },
    {
        if poly_degree == 0 || !poly_degree.is_power_of_two() {
            return Err("poly_degree must be a non-zero power of two".to_string());
        }
        if primes.len() == 0 {
            return Err("RNS basis must contain at least one prime".to_string());
        }

        let mut index: usize = 0;
        while index < primes.len()
            invariant
                index <= primes@.len(),
                poly_degree > 0,
                is_pow2(poly_degree as nat),
                primes@.len() > 0,
                forall|i: int, j: int|
                    0 <= i < j < index ==> (#[trigger] primes@[i]).modulus != (#[trigger] primes@[j]).modulus,
            decreases primes@.len() - index,
        {
            let mut other: usize = 0;
            while other < index
                invariant
                    index < primes@.len(),
                    other <= index,
                    poly_degree > 0,
                    is_pow2(poly_degree as nat),
                    primes@.len() > 0,
                    forall|i: int, j: int|
                        0 <= i < j < index ==> (#[trigger] primes@[i]).modulus != (#[trigger] primes@[j]).modulus,
                    forall|i: int| 0 <= i < other ==> (#[trigger] primes@[i]).modulus != primes@[index as int].modulus,
                decreases index - other,
            {
                if primes[other].modulus == primes[index].modulus {
                    let e = describe_modulus("duplicate RNS modulus ", primes[index].modulus, "");
                    proof {
                        assert(primes@[other as int].modulus == primes@[index as int].modulus);
                        assert(is_first_duplicate(primes@, index as int));
                    }
                    return Err(e);
                }
                other += 1;
            }
            index += 1;
        }

        let mut plans: Vec<NttPlan> = Vec::with_capacity(primes.len());
        let mut index: usize = 0;
        while index < primes.len()
            invariant
                is_pow2(poly_degree as nat),
                poly_degree > 0,
                primes@.len() > 0,
                forall|i: int, j: int|
                    0 <= i < j < primes@.len() ==> (#[trigger] primes@[i]).modulus != (#[trigger] primes@[j]).modulus,
                index <= primes@.len(),
                plans@.len() == index,
                forall|i: int|
                    0 <= i < index ==> {
                        &&& (#[trigger] plans@[i]).wf()
                        &&& plans@[i].spec_size() == poly_degree
                        &&& plans@[i].spec_modulus() == primes@[i].modulus
                        &&& ntt_plan_ok(poly_degree as nat, primes@[i].modulus as nat, primes@[i].primitive_root as nat)
                    },
            decreases primes@.len() - index,
        {
            let prime = primes[index];
            match NttPlan::new(poly_degree, prime.modulus, prime.primitive_root) {
                Ok(plan) => plans.push(plan),
                Err(err) => {
                    let e = describe_invalid_prime(prime.modulus, err);
                    proof {
                        assert forall|i: int| 0 <= i < index implies ntt_plan_ok(
                            poly_degree as nat,
                            (#[trigger] primes@[i]).modulus as nat,
                            primes@[i].primitive_root as nat,
                        ) by {
                            assert(plans@[i].wf());
                        }
                    }
                    return Err(e);
                },
            }
            index += 1;
        }

        let context = Self { poly_degree, primes, plans };
        proof {
            assert forall|i: int| 0 <= i < primes@.len() implies ntt_plan_ok(
                poly_degree as nat,
                (#[trigger] primes@[i]).modulus as nat,
                primes@[i].primitive_root as nat,
            ) by {
                assert(plans@[i].wf());
            }
            assert forall|i: int| 0 <= i < context.spec_plans().len() implies {
                &&& (#[trigger] context.spec_plans()[i]).wf()
                &&& context.spec_plans()[i].spec_size() == context.spec_degree()
                &&& context.spec_plans()[i].spec_modulus() == context.spec_primes()[i].modulus
            } by {
                assert(plans@[i].wf());
            }
        }
        Ok(context)
    }

    pub fn poly_degree(&self) -> (r: usize)
        ensures
            r == self.spec_degree(),
    {
        self.poly_degree
    }

    pub fn levels(&self) -> (r: usize)
        ensures
            r == self.spec_levels(),
    {
        self.primes.len()
    }

    pub fn primes(&self) -> (r: &[RnsPrime])
        ensures
            r@ == self.spec_primes(),
    {
        self.primes.as_slice()
    }

    pub fn ntt_plans(&self) -> (r: &[NttPlan])
        ensures
            r@ == self.spec_plans(),
    {
        self.plans.as_slice()
    }

    /// The product of all moduli in the chain.
    pub fn total_modulus(&self) -> (r: BigNat)
        ensures
            r@ == self.spec_total_modulus(),
    {
        let mut acc = BigNat::from_u64(1);
        let mut index: usize = 0;
        while index < self.primes.len()
            invariant
                index <= self.primes@.len(),
                acc@ == moduli_product(prime_moduli(self.primes@).subrange(0, index as int)),
            decreases self.primes@.len() - index,
        {
            let modulus = BigNat::from_u64(self.primes[index].modulus);
            acc = big_mul(&acc, &modulus);
            proof {
                let moduli = prime_moduli(self.primes@);
                assert(moduli.subrange(0, index + 1).drop_last() =~= moduli.subrange(0, index as int));
            }
            index += 1;
        }
        proof {
            assert(prime_moduli(self.primes@).subrange(0, self.primes@.len() as int) =~= prime_moduli(
                self.primes@,
            ));
        }
        acc
    }

    /// Bit length of the product of all moduli in the chain.
    pub fn total_modulus_bits(&self) -> (r: u64)
        ensures
            r == bit_length(self.spec_total_modulus()),
    {
        big_bits(&self.total_modulus())
    }

    /// The context of the first `level_count` primes of the chain.
    pub fn at_level(&self, level_count: usize) -> (r: Result<Self, String>)
        requires
            self.wf(),
        ensures
            match r {
                Ok(context) => {
                    &&& 1 <= level_count <= self.spec_levels()
                    &&& context.wf()
                    &&& context.spec_degree() == self.spec_degree()
                    &&& context.spec_primes() == self.spec_primes().subrange(0, level_count as int)
                },
                Err(e) => {
                    &&& !(1 <= level_count <= self.spec_levels())
                    &&& e@ == level_count_text(self.spec_levels(), level_count as nat)
                },
            },
    {
        if level_count == 0 || level_count > self.primes.len() {
            return Err(describe_level_count(self.primes.len(), level_count));
        }
        let prefix = prefix_primes(&self.primes, level_count);
        let result = Self::new(self.poly_degree, prefix);
        proof {
            let p = self.spec_primes().subrange(0, level_count as int);
            assert(rns_basis_ok(self.poly_degree as nat, p)) by {
                assert forall|i: int, j: int| 0 <= i < j < p.len() implies (#[trigger] p[i]).modulus != (
                #[trigger] p[j]).modulus by {
                    assert(p[i] == self.spec_primes()[i]);
                    assert(p[j] == self.spec_primes()[j]);
                }
                assert forall|i: int| 0 <= i < p.len() implies ntt_plan_ok(
                    self.poly_degree as nat,
                    (#[trigger] p[i]).modulus as nat,
                    p[i].primitive_root as nat,
                ) by {
                    assert(p[i] == self.spec_primes()[i]);
                }
            }
        }
        result
    }

    pub fn zero_poly(&self) -> (r: RnsPolynomial)
        requires
            self.wf(),
        ensures
            r.has_shape(self.spec_degree(), self.spec_moduli()),
            r.is_zero(),
    {
        RnsPolynomial::zero(self)
    }

    pub fn poly_from_coeffs(&self, coeffs: &[u64]) -> (r: RnsPolynomial)
        requires
            self.wf(),
        ensures
            r.has_shape(self.spec_degree(), self.spec_moduli()),
            forall|l: int, k: int|
                0 <= l < self.spec_levels() && 0 <= k < self.spec_degree() ==> #[trigger] r.coeff(l, k)
                    == (if k < coeffs@.len() {
                    coeffs@[k]
                } else {
                    0
                }) % self.spec_moduli()[l],
    {
        RnsPolynomial::from_coeffs(self, coeffs)
    }

    pub fn poly_from_biguint_coeffs(&self, coeffs: &[BigNat]) -> (r: RnsPolynomial)
        requires
            self.wf(),
        ensures
            r.has_shape(self.spec_degree(), self.spec_moduli()),
            forall|l: int, k: int|
                0 <= l < self.spec_levels() && 0 <= k < self.spec_degree() ==> #[trigger] r.coeff(l, k)
                    == (if k < coeffs@.len() {
                    coeffs@[k]@
                } else {
                    0
                }) % (self.spec_moduli()[l] as nat),
    {
        RnsPolynomial::from_biguint_coeffs(self, coeffs)
    }

    pub fn poly_from_bigint_coeffs(&self, coeffs: &[BigInteger]) -> (r: RnsPolynomial)
        requires
            self.wf(),
        ensures
            r.has_shape(self.spec_degree(), self.spec_moduli()),
            forall|l: int, k: int|
                0 <= l < self.spec_levels() && 0 <= k < self.spec_degree() ==> #[trigger] r.coeff(l, k)
                    == (if k < coeffs@.len() {
                    coeffs@[k]@
                } else {
                    0
                }) % (self.spec_moduli()[l] as int),
    {
        RnsPolynomial::from_bigint_coeffs(self, coeffs)
    }

    /// The NTT plan of the `l`-th prime.
    pub proof fn lemma_plan_for(&self, l: int) -> (plan: NttPlan)
        requires
            self.wf(),
            0 <= l < self.spec_levels(),
        ensures
            plan.wf(),
            plan.spec_size() == self.spec_degree(),
            plan.spec_modulus() == self.spec_moduli()[l],
    {
        self.spec_plans()[l]
    }

    /// Facts every valid context provides to its users.
    pub proof fn lemma_context_facts(&self)
        requires
            self.wf(),
        ensures
            self.spec_degree() > 0,
            is_pow2(self.spec_degree()),
            self.spec_levels() > 0,
            self.spec_moduli().len() == self.spec_levels(),
            forall|i: int| 0 <= i < self.spec_levels() ==> #[trigger] self.spec_moduli()[i] >= 3,
            self.spec_total_modulus() > 0,
            forall|i: int|
                0 <= i < self.spec_levels() ==> self.spec_total_modulus() % (#[trigger] self.spec_moduli()[i] as nat)
                    == 0,
    {
        let moduli = self.spec_moduli();
        assert forall|i: int| 0 <= i < self.spec_levels() implies #[trigger] moduli[i] >= 3 by {
            assert(ntt_plan_ok(
                self.spec_degree(),
                self.spec_primes()[i].modulus as nat,
                self.spec_primes()[i].primitive_root as nat,
            ));
        }
        lemma_product_positive(moduli);
        assert forall|i: int| 0 <= i < self.spec_levels() implies self.spec_total_modulus() % (
        #[trigger] moduli[i] as nat) == 0 by {
            lemma_product_divisible(moduli, i);
        }
    }
}

impl RnsContext {
    /// The primes of a valid context are odd (`2N` divides `q - 1`), and so
    /// is their product.
    pub proof fn lemma_context_odd(&self)
        requires
            self.wf(),
        ensures
            forall|i: int| 0 <= i < self.spec_levels() ==> #[trigger] self.spec_moduli()[i] % 2 == 1,
            self.spec_total_modulus() % 2 == 1,
    {
        let moduli = self.spec_moduli();
        assert forall|i: int| 0 <= i < self.spec_levels() implies #[trigger] moduli[i] % 2 == 1 by {
            let n = self.spec_degree();
            let m = self.spec_primes()[i].modulus as nat;
            assert(ntt_plan_ok(n, m, self.spec_primes()[i].primitive_root as nat));
            assert(m >= 3);
            assert((m - 1) as nat % (2 * n) == 0);
            lemma_fundamental_div_mod((m - 1) as int, (2 * n) as int);
            let t = (m - 1) as int / (2 * n) as int;
            assert(m == 2 * (n * t) + 1) by (nonlinear_arith)
                requires
                    (m - 1) as int == (2 * n) as int * t + 0,
                    m >= 3,
            ;
            lemma_mod_multiples_vanish(n * t, 1, 2);
            assert(moduli[i] == m);
        }
        lemma_product_odd(moduli);
    }
}

/// A product of odd moduli is odd.
pub proof fn lemma_product_odd(moduli: Seq<u64>)
    requires
        forall|i: int| 0 <= i < moduli.len() ==> #[trigger] moduli[i] % 2 == 1,
    ensures
        moduli_product(moduli) % 2 == 1,
    decreases moduli.len(),
{
    if moduli.len() > 0 {
        let rest = moduli.drop_last();
        assert forall|i: int| 0 <= i < rest.len() implies #[trigger] rest[i] % 2 == 1 by {
            assert(rest[i] == moduli[i]);
        }
        lemma_product_odd(rest);
        assert(moduli.last() % 2 == 1) by {
            assert(moduli[moduli.len() - 1] == moduli.last());
        }
        lemma_mul_mod_noop(moduli_product(rest) as int, moduli.last() as int, 2);
    }
}

/// A product of moduli that are all at least one is positive.
pub proof fn lemma_product_positive(moduli: Seq<u64>)
    requires
        forall|i: int| 0 <= i < moduli.len() ==> #[trigger] moduli[i] >= 1,
    ensures
        moduli_product(moduli) > 0,
    decreases moduli.len(),
{
    if moduli.len() > 0 {
        let rest = moduli.drop_last();
        assert forall|i: int| 0 <= i < rest.len() implies #[trigger] rest[i] >= 1 by {
            assert(rest[i] == moduli[i]);
        }
        lemma_product_positive(rest);
        lemma_mul_strictly_positive(moduli_product(rest) as int, moduli.last() as int);
    }
}

/// Every modulus of a chain divides the chain's product.
pub proof fn lemma_product_divisible(moduli: Seq<u64>, i: int)
    requires
        0 <= i < moduli.len(),
        forall|j: int| 0 <= j < moduli.len() ==> #[trigger] moduli[j] >= 1,
    ensures
        moduli_product(moduli) % (moduli[i] as nat) == 0,
    decreases moduli.len(),
{
    let rest = moduli.drop_last();
    let p = moduli_product(rest);
    if i == moduli.len() - 1 {
        lemma_mod_multiples_basic(p as int, moduli.last() as int);
    } else {
        assert forall|j: int| 0 <= j < rest.len() implies #[trigger] rest[j] >= 1 by {
            assert(rest[j] == moduli[j]);
        }
        assert(rest[i] == moduli[i]);
        lemma_product_divisible(rest, i);
        lemma_fundamental_div_mod(p as int, moduli[i] as int);
        let k = p as int / moduli[i] as int;
        assert(p * moduli.last() == (k * moduli.last()) * moduli[i]) by (nonlinear_arith)
            requires
                p == moduli[i] * k,
        ;
        lemma_mod_multiples_basic(k * moduli.last(), moduli[i] as int);
    }
}

/// Reducing modulo a chain's product, then modulo one of its moduli, is reducing modulo that modulus.
pub proof fn lemma_mod_product_then_modulus(x: int, moduli: Seq<u64>, i: int)
    requires
        0 <= i < moduli.len(),
        forall|j: int| 0 <= j < moduli.len() ==> #[trigger] moduli[j] >= 1,
    ensures
        (x % (moduli_product(moduli) as int)) % (moduli[i] as int) == x % (moduli[i] as int),
{
    lemma_product_positive(moduli);
    lemma_product_divisible(moduli, i);
    let big_q = moduli_product(moduli) as int;
    let q = moduli[i] as int;
    lemma_fundamental_div_mod(big_q, q);
    lemma_fundamental_div_mod(x, big_q);
    let c = big_q / q;
    let t = x / big_q;
    assert(x == q * (c * t) + x % big_q) by (nonlinear_arith)
        requires
            big_q == q * c,
            x == big_q * t + x % big_q,
    ;
    lemma_mod_multiples_vanish(c * t, x % big_q, q);
}

/// The first `count` primes of a chain.
pub(crate) fn prefix_primes(primes: &Vec<RnsPrime>, count: usize) -> (r: Vec<RnsPrime>)
    requires
        count <= primes@.len(),
    ensures
        r@ == primes@.subrange(0, count as int),
{
    let mut prefix: Vec<RnsPrime> = Vec::with_capacity(count);
    let mut index: usize = 0;
    while index < count
        invariant
            count <= primes@.len(),
            index <= count,
            prefix@ == primes@.subrange(0, index as int),
        decreases count - index,
    {
        prefix.push(primes[index]);
        index += 1;
        proof {
            assert(prefix@ =~= primes@.subrange(0, index as int));
        }
    }
    prefix
}

/// `format!` of a modulus between two texts.
#[verifier::external_body]
fn describe_modulus(prefix: &str, modulus: u64, suffix: &str) -> (r: String)
    ensures
        r@ == prefix@ + decimal(modulus as nat) + suffix@,
{
    format!("{prefix}{modulus}{suffix}")
}

/// `format!` of a prime whose NTT plan failed, with the plan's message.
#[verifier::external_body]
fn describe_invalid_prime(modulus: u64, err: String) -> (r: String)
    ensures
        r@ == "invalid RNS prime "@ + decimal(modulus as nat) + ": "@ + err@,
{
    format!("invalid RNS prime {modulus}: {err}")
}

/// `format!` of a level count outside the chain.
#[verifier::external_body]
fn describe_level_count(levels: usize, level_count: usize) -> (r: String)
    ensures
        r@ == level_count_text(levels as nat, level_count as nat),
{
    format!("level_count must be in 1..={levels}, got {level_count}")
}

/// Inverse of `value` modulo `modulus`, when it exists.
pub(crate) fn mod_inv_u64(value: u64, modulus: u64) -> (r: Option<u64>)
    requires
        modulus > 1,
    ensures
        match r {
            Some(x) => x < modulus && (x as nat * value as nat) % modulus as nat == 1,
            None => !has_inverse(value as nat, modulus as nat),
        },
{
    mod_inv(value, modulus)
}

/// The NTT-friendly primes of the small parameter presets.
pub fn default_rns_primes() -> (r: Vec<RnsPrime>)
    ensures
        r@ == seq![
            RnsPrime { modulus: 998_244_353, primitive_root: 3 },
            RnsPrime { modulus: 1_004_535_809, primitive_root: 3 },
            RnsPrime { modulus: 469_762_049, primitive_root: 3 },
            RnsPrime { modulus: 754_974_721, primitive_root: 11 },
            RnsPrime { modulus: 167_772_161, primitive_root: 3 },
            RnsPrime { modulus: 1_224_736_769, primitive_root: 3 },
        ],
{
    let mut primes = Vec::new();
    primes.push(RnsPrime::new(998_244_353, 3));
    primes.push(RnsPrime::new(1_004_535_809, 3));
    primes.push(RnsPrime::new(469_762_049, 3));
    primes.push(RnsPrime::new(754_974_721, 11));
    primes.push(RnsPrime::new(167_772_161, 3));
    primes.push(RnsPrime::new(1_224_736_769, 3));
    proof {
        assert(primes@ =~= seq![
            RnsPrime { modulus: 998_244_353, primitive_root: 3 },
            RnsPrime { modulus: 1_004_535_809, primitive_root: 3 },
            RnsPrime { modulus: 469_762_049, primitive_root: 3 },
            RnsPrime { modulus: 754_974_721, primitive_root: 11 },
            RnsPrime { modulus: 167_772_161, primitive_root: 3 },
            RnsPrime { modulus: 1_224_736_769, primitive_root: 3 },
        ]);
    }
    primes
}

} // verus!
