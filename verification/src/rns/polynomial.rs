//! Polynomials in RNS form: one modular residue polynomial per prime of the basis.

use crate::math::bignum::{
    big_add,
    big_div,
    big_mul,
    big_rem,
    centered_bigint_to_mod_q,
    BigInteger,
    BigNat,
};
use crate::poly::{galois_coeff, negacyclic_coeff, ModularPolynomial};
use vstd::arithmetic::div_mod::*;
use vstd::arithmetic::mul::*;
use vstd::prelude::*;

use super::basis::{
    crt_invertible,
    lemma_mod_product_then_modulus,
    lemma_product_divisible,
    mod_inv_u64,
    moduli_product,
    RnsContext,
};

verus! {

#[derive(Clone, Debug, PartialEq, Eq)]
pub struct RnsPolynomial {
    residues: Vec<ModularPolynomial>,
}

impl RnsPolynomial {
    pub closed spec fn spec_residues(&self) -> Seq<ModularPolynomial> {
        self.residues@
    }

    /// The residues as (coefficients, modulus) pairs.
    pub open spec fn spec_view(&self) -> Seq<(Seq<u64>, nat)> {
        self.spec_residues().map_values(|p: ModularPolynomial| p@)
    }

    pub open spec fn spec_levels(&self) -> nat {
        self.spec_residues().len()
    }

    /// Coefficient `k` of the residue modulo the `l`-th prime.
    pub open spec fn coeff(&self, l: int, k: int) -> u64 {
        self.spec_residues()[l].spec_coeffs()[k]
    }

    /// The residue coefficient sequences, one per prime.
    pub open spec fn residue_coeffs(&self) -> Seq<Seq<u64>> {
        self.spec_residues().map_values(|p: ModularPolynomial| p.spec_coeffs())
    }

    /// The modulus of each residue.
    pub open spec fn spec_moduli(&self) -> Seq<u64> {
        self.spec_residues().map_values(|p: ModularPolynomial| p.spec_modulus() as u64)
    }

    /// Number of coefficients per residue (0 without residues).
    pub open spec fn spec_degree(&self) -> nat {
        if self.spec_levels() == 0 {
            0
        } else {
            self.spec_residues()[0].spec_degree()
        }
    }

    /// Residues that are reduced polynomials of the given degree, modulo the given moduli.
    pub open spec fn has_shape(&self, degree: nat, moduli: Seq<u64>) -> bool {
        &&& self.spec_levels() == moduli.len()
        &&& forall|l: int|
            0 <= l < moduli.len() ==> {
                &&& (#[trigger] self.spec_residues()[l]).wf()
                &&& self.spec_residues()[l].spec_degree() == degree
                &&& self.spec_residues()[l].spec_modulus() == moduli[l]
            }
    }

    /// At least one residue, all reduced and of one degree.
    pub open spec fn wf(&self) -> bool {
        &&& self.spec_levels() > 0
        &&& self.has_shape(self.spec_degree(), self.spec_moduli())
    }

    /// Every residue coefficient is zero.
    pub open spec fn is_zero(&self) -> bool {
        forall|l: int, k: int|
            0 <= l < self.spec_levels() && 0 <= k < self.spec_residues()[l].spec_degree() ==> #[trigger] self.coeff(
                l,
                k,
            ) == 0
    }

    pub fn new(context: &RnsContext, residues: Vec<ModularPolynomial>) -> (r: Self)
        requires
            residues@.len() == context.spec_levels(),
            forall|l: int|
                0 <= l < residues@.len() ==> {
                    &&& (#[trigger] residues@[l]).spec_degree() == context.spec_degree()
                    &&& residues@[l].spec_modulus() == context.spec_moduli()[l]
                },
        ensures
            r.spec_residues() == residues@,
    {
        Self { residues }
    }

    pub fn zero(context: &RnsContext) -> (r: Self)
        requires
            context.wf(),
        ensures
            r.has_shape(context.spec_degree(), context.spec_moduli()),
            r.is_zero(),
    {
        let mut residues: Vec<ModularPolynomial> = Vec::with_capacity(context.levels());
        let primes = context.primes();
        proof {
            context.lemma_context_facts();
        }
        let mut l: usize = 0;
        while l < primes.len()
            invariant
                primes@ == context.spec_primes(),
                context.wf(),
                forall|i: int| 0 <= i < context.spec_levels() ==> #[trigger] context.spec_moduli()[i] >= 3,
                l <= primes@.len(),
                residues@.len() == l,
                forall|i: int|
                    0 <= i < l ==> {
                        &&& (#[trigger] residues@[i]).wf()
                        &&& residues@[i].spec_degree() == context.spec_degree()
                        &&& residues@[i].spec_modulus() == context.spec_moduli()[i]
                        &&& forall|k: int| 0 <= k < context.spec_degree() ==> #[trigger] residues@[i].spec_coeffs()[k] == 0
                    },
            decreases primes@.len() - l,
        {
            assert(context.spec_moduli()[l as int] >= 3);
            residues.push(ModularPolynomial::zero(context.poly_degree(), primes[l].modulus));
            l += 1;
        }
        Self { residues }
    }

    pub fn from_coeffs(context: &RnsContext, coeffs: &[u64]) -> (r: Self)
        requires
            context.wf(),
        ensures
            r.has_shape(context.spec_degree(), context.spec_moduli()),
            forall|l: int, k: int|
                0 <= l < context.spec_levels() && 0 <= k < context.spec_degree() ==> #[trigger] r.coeff(l, k)
                    == (if k < coeffs@.len() {
                    coeffs@[k]
                } else {
                    0
                }) % context.spec_moduli()[l],
    {
        let degree = context.poly_degree();
        let mut padded: Vec<u64> = Vec::with_capacity(degree);
        let mut k: usize = 0;
        while k < degree
            invariant
                k <= degree,
                padded@.len() == k,
                forall|i: int|
                    0 <= i < k ==> #[trigger] padded@[i] == (if i < coeffs@.len() {
                        coeffs@[i]
                    } else {
                        0
                    }),
            decreases degree - k,
        {
            if k < coeffs.len() {
                padded.push(coeffs[k]);
            } else {
                padded.push(0);
            }
            k += 1;
        }
        let primes = context.primes();
        proof {
            context.lemma_context_facts();
        }
        let mut residues: Vec<ModularPolynomial> = Vec::with_capacity(primes.len());
        let mut l: usize = 0;
        while l < primes.len()
            invariant
                primes@ == context.spec_primes(),
                context.wf(),
                forall|i: int| 0 <= i < context.spec_levels() ==> #[trigger] context.spec_moduli()[i] >= 3,
                padded@.len() == degree,
                degree == context.spec_degree(),
                l <= primes@.len(),
                residues@.len() == l,
                forall|i: int|
                    0 <= i < l ==> {
                        &&& (#[trigger] residues@[i]).wf()
                        &&& residues@[i].spec_degree() == degree
                        &&& residues@[i].spec_modulus() == context.spec_moduli()[i]
                        &&& forall|k: int|
                            0 <= k < degree ==> #[trigger] residues@[i].spec_coeffs()[k] == padded@[k]
                                % context.spec_moduli()[i]
                    },
            decreases primes@.len() - l,
        {
            assert(context.spec_moduli()[l as int] >= 3);
            residues.push(ModularPolynomial::new(padded.clone(), primes[l].modulus));
            l += 1;
        }
        Self { residues }
    }

    pub fn from_biguint_coeffs(context: &RnsContext, coeffs: &[BigNat]) -> (r: Self)
        requires
            context.wf(),
        ensures
            r.has_shape(context.spec_degree(), context.spec_moduli()),
            forall|l: int, k: int|
                0 <= l < context.spec_levels() && 0 <= k < context.spec_degree() ==> #[trigger] r.coeff(l, k)
                    == (if k < coeffs@.len() {
                    coeffs@[k]@
                } else {
                    0
                }) % (context.spec_moduli()[l] as nat),
    {
        let degree = context.poly_degree();
        let primes = context.primes();
        proof {
            context.lemma_context_facts();
        }
        let mut residues: Vec<ModularPolynomial> = Vec::with_capacity(primes.len());
        let mut l: usize = 0;
        while l < primes.len()
            invariant
                primes@ == context.spec_primes(),
                context.wf(),
                forall|i: int| 0 <= i < context.spec_levels() ==> #[trigger] context.spec_moduli()[i] >= 3,
                degree == context.spec_degree(),
                l <= primes@.len(),
                residues@.len() == l,
                forall|i: int|
                    0 <= i < l ==> {
                        &&& (#[trigger] residues@[i]).wf()
                        &&& residues@[i].spec_degree() == degree
                        &&& residues@[i].spec_modulus() == context.spec_moduli()[i]
                        &&& forall|k: int|
                            0 <= k < degree ==> #[trigger] residues@[i].spec_coeffs()[k] == (if k
                                < coeffs@.len() {
                                coeffs@[k]@
                            } else {
                                0
                            }) % (context.spec_moduli()[i] as nat)
                    },
            decreases primes@.len() - l,
        {
            assert(context.spec_moduli()[l as int] >= 3);
            let modulus = primes[l].modulus;
            let modulus_big = BigNat::from_u64(modulus);
            let mut reduced: Vec<u64> = Vec::with_capacity(degree);
            let mut k: usize = 0;
            while k < degree
                invariant
                    modulus >= 3,
                    modulus_big@ == modulus,
                    k <= degree,
                    reduced@.len() == k,
                    forall|i: int|
                        0 <= i < k ==> #[trigger] reduced@[i] == (if i < coeffs@.len() {
                            coeffs@[i]@
                        } else {
                            0
                        }) % (modulus as nat),
                decreases degree - k,
            {
                if k < coeffs.len() {
                    let remainder = big_rem(&coeffs[k], &modulus_big);
                    proof {
                        lemma_mod_bound(coeffs@[k as int]@ as int, modulus as int);
                    }
                    match remainder.to_u64() {
                        Some(value) => reduced.push(value),
                        None => {
                            assert(false);
                            reduced.push(0);
                        },
                    }
                } else {
                    proof {
                        lemma_small_mod(0, modulus as nat);
                    }
                    reduced.push(0);
                }
                k += 1;
            }
            let residue = ModularPolynomial::new(reduced, modulus);
            proof {
                assert forall|k: int| 0 <= k < degree implies #[trigger] residue.spec_coeffs()[k] == (if k
                    < coeffs@.len() {
                    coeffs@[k]@
                } else {
                    0
                }) % (modulus as nat) by {
                    let x = (if k < coeffs@.len() {
                        coeffs@[k]@
                    } else {
                        0
                    });
                    lemma_mod_twice(x as int, modulus as int);
                }
            }
            residues.push(residue);
            l += 1;
        }
        Self { residues }
    }

    pub fn from_bigint_coeffs(context: &RnsContext, coeffs: &[BigInteger]) -> (r: Self)
        requires
            context.wf(),
        ensures
            r.has_shape(context.spec_degree(), context.spec_moduli()),
            forall|l: int, k: int|
                0 <= l < context.spec_levels() && 0 <= k < context.spec_degree() ==> #[trigger] r.coeff(l, k)
                    == (if k < coeffs@.len() {
                    coeffs@[k]@
                } else {
                    0
                }) % (context.spec_moduli()[l] as int),
    {
        let modulus = context.total_modulus();
        proof {
            context.lemma_context_facts();
        }
        let mut coeffs_mod_q: Vec<BigNat> = Vec::with_capacity(coeffs.len());
        let mut k: usize = 0;
        while k < coeffs.len()
            invariant
                modulus@ == context.spec_total_modulus(),
                modulus@ > 0,
                k <= coeffs@.len(),
                coeffs_mod_q@.len() == k,
                forall|i: int| 0 <= i < k ==> #[trigger] coeffs_mod_q@[i]@ as int == coeffs@[i]@ % (modulus@ as int),
            decreases coeffs@.len() - k,
        {
            coeffs_mod_q.push(centered_bigint_to_mod_q(&coeffs[k], &modulus));
            k += 1;
        }
        let r = Self::from_biguint_coeffs(context, coeffs_mod_q.as_slice());
        proof {
            assert forall|l: int, k: int|
                0 <= l < context.spec_levels() && 0 <= k < context.spec_degree() implies #[trigger] r.coeff(l, k)
                == (if k < coeffs@.len() {
                coeffs@[k]@
            } else {
                0
            }) % (context.spec_moduli()[l] as int) by {
                if k < coeffs@.len() {
                    lemma_mod_product_then_modulus(coeffs@[k]@, context.spec_moduli(), l);
                } else {
                    lemma_small_mod(0, context.spec_moduli()[l] as nat);
                }
            }
        }
        r
    }

    pub fn levels(&self) -> (r: usize)
        ensures
            r == self.spec_levels(),
    {
        self.residues.len()
    }

    pub fn degree(&self) -> (r: usize)
        ensures
            r == self.spec_degree(),
    {
        if self.residues.len() == 0 {
            0
        } else {
            self.residues[0].degree()
        }
    }

    pub fn residues(&self) -> (r: &[ModularPolynomial])
        ensures
            r@ == self.spec_residues(),
    {
        self.residues.as_slice()
    }

    /// Same number of residues, same moduli and degree residue by residue.
    pub open spec fn compatible(&self, other: &Self) -> bool {
        &&& self.spec_levels() == other.spec_levels()
        &&& forall|l: int|
            0 <= l < self.spec_levels() ==> (#[trigger] self.spec_residues()[l]).compatible(
                &other.spec_residues()[l],
            )
    }

    pub fn add(&self, other: &Self) -> (r: Self)
        requires
            self.wf(),
            other.wf(),
            self.compatible(other),
        ensures
            r.wf(),
            r.compatible(self),
            forall|l: int, k: int|
                0 <= l < self.spec_levels() && 0 <= k < self.spec_degree() ==> #[trigger] r.coeff(l, k) == (
                self.coeff(l, k) + other.coeff(l, k)) % (self.spec_moduli()[l] as int),
            is_sum(r, *self, *other),
    {
        let mut residues: Vec<ModularPolynomial> = Vec::with_capacity(self.residues.len());
        let mut l: usize = 0;
        while l < self.residues.len()
            invariant
                self.wf(),
                other.wf(),
                self.compatible(other),
                l <= self.spec_levels(),
                residues@.len() == l,
                forall|i: int|
                    0 <= i < l ==> {
                        &&& (#[trigger] residues@[i]).wf()
                        &&& residues@[i].compatible(&self.spec_residues()[i])
                        &&& forall|k: int|
                            0 <= k < self.spec_degree() ==> #[trigger] residues@[i].spec_coeffs()[k] == (
                            self.coeff(i, k) + other.coeff(i, k)) % (self.spec_moduli()[i] as int)
                    },
            decreases self.spec_levels() - l,
        {
            residues.push(self.residues[l].add(&other.residues[l]));
            l += 1;
        }
        Self { residues }
    }

    pub fn sub(&self, other: &Self) -> (r: Self)
        requires
            self.wf(),
            other.wf(),
            self.compatible(other),
        ensures
            r.wf(),
            r.compatible(self),
            forall|l: int, k: int|
                0 <= l < self.spec_levels() && 0 <= k < self.spec_degree() ==> #[trigger] r.coeff(l, k) == (
                self.coeff(l, k) - other.coeff(l, k)) % (self.spec_moduli()[l] as int),
            is_difference(r, *self, *other),
    {
        let mut residues: Vec<ModularPolynomial> = Vec::with_capacity(self.residues.len());
        let mut l: usize = 0;
        while l < self.residues.len()
            invariant
                self.wf(),
                other.wf(),
                self.compatible(other),
                l <= self.spec_levels(),
                residues@.len() == l,
                forall|i: int|
                    0 <= i < l ==> {
                        &&& (#[trigger] residues@[i]).wf()
                        &&& residues@[i].compatible(&self.spec_residues()[i])
                        &&& forall|k: int|
                            0 <= k < self.spec_degree() ==> #[trigger] residues@[i].spec_coeffs()[k] == (
                            self.coeff(i, k) - other.coeff(i, k)) % (self.spec_moduli()[i] as int)
                    },
            decreases self.spec_levels() - l,
        {
            residues.push(self.residues[l].sub(&other.residues[l]));
            l += 1;
        }
        Self { residues }
    }

    /// The negacyclic product, residue by residue, through each prime's NTT plan.
    pub fn multiply_ntt(&self, other: &Self, context: &RnsContext) -> (r: Self)
        requires
            context.wf(),
            self.has_shape(context.spec_degree(), context.spec_moduli()),
            other.has_shape(context.spec_degree(), context.spec_moduli()),
        ensures
            r.has_shape(context.spec_degree(), context.spec_moduli()),
            is_product(r, *self, *other),
    {
        let plans = context.ntt_plans();
        let mut residues: Vec<ModularPolynomial> = Vec::with_capacity(self.residues.len());
        let mut l: usize = 0;
        while l < self.residues.len()
            invariant
                context.wf(),
                plans@ == context.spec_plans(),
                self.has_shape(context.spec_degree(), context.spec_moduli()),
                other.has_shape(context.spec_degree(), context.spec_moduli()),
                l <= self.spec_levels(),
                residues@.len() == l,
                forall|i: int|
                    0 <= i < l ==> {
                        &&& (#[trigger] residues@[i]).wf()
                        &&& residues@[i].spec_degree() == context.spec_degree()
                        &&& residues@[i].spec_modulus() == context.spec_moduli()[i]
                        &&& forall|k: int|
                            0 <= k < context.spec_degree() ==> #[trigger] residues@[i].spec_coeffs()[k]
                                == negacyclic_coeff(
                                self.spec_residues()[i].spec_coeffs(),
                                other.spec_residues()[i].spec_coeffs(),
                                context.spec_moduli()[i] as nat,
                                k,
                            )
                    },
            decreases self.spec_levels() - l,
        {
            assert(context.spec_plans()[l as int].wf());
            residues.push(self.residues[l].multiply_ntt(&other.residues[l], &plans[l]));
            l += 1;
        }
        let r = Self { residues };
        proof {
            if self.spec_levels() > 0 {
                assert(self.spec_degree() == context.spec_degree());
            }
        }
        r
    }

    pub fn apply_galois_automorphism(&self, galois_element: usize) -> (r: Self)
        requires
            self.wf(),
            galois_element % 2 == 1,
            (self.spec_degree() - 1) * galois_element <= usize::MAX,
            2 * self.spec_degree() <= usize::MAX,
        ensures
            r.wf(),
            r.compatible(self),
            forall|l: int, k: int|
                0 <= l < self.spec_levels() && 0 <= k < self.spec_degree() ==> #[trigger] r.coeff(l, k)
                    == galois_coeff(
                    self.residue_coeffs()[l],
                    galois_element as nat,
                    self.spec_moduli()[l] as nat,
                    k,
                ),
            is_galois_image(r, *self, galois_element as nat),
    {
        let mut residues: Vec<ModularPolynomial> = Vec::with_capacity(self.residues.len());
        let mut l: usize = 0;
        while l < self.residues.len()
            invariant
                self.wf(),
                galois_element % 2 == 1,
                (self.spec_degree() - 1) * galois_element <= usize::MAX,
                2 * self.spec_degree() <= usize::MAX,
                l <= self.spec_levels(),
                residues@.len() == l,
                forall|i: int|
                    0 <= i < l ==> {
                        &&& (#[trigger] residues@[i]).wf()
                        &&& residues@[i].compatible(&self.spec_residues()[i])
                        &&& forall|k: int|
                            0 <= k < self.spec_degree() ==> #[trigger] residues@[i].spec_coeffs()[k]
                                == galois_coeff(
                                self.residue_coeffs()[i],
                                galois_element as nat,
                                self.spec_moduli()[i] as nat,
                                k,
                            )
                    },
            decreases self.spec_levels() - l,
        {
            residues.push(self.residues[l].apply_galois_automorphism(galois_element));
            l += 1;
        }
        Self { residues }
    }

    pub fn drop_last_level(&self) -> (r: Self)
        requires
            self.spec_levels() > 1,
        ensures
            r.spec_view() == self.spec_view().drop_last(),
    {
        let mut residues = self.duplicate_residues(self.residues.len() - 1);
        let r = Self { residues };
        proof {
            assert(r.spec_view() =~= self.spec_view().drop_last());
        }
        r
    }

    pub fn truncate_levels(&self, level_count: usize) -> (r: Self)
        requires
            level_count > 0,
            level_count <= self.spec_levels(),
        ensures
            r.spec_view() == self.spec_view().subrange(0, level_count as int),
    {
        let residues = self.duplicate_residues(level_count);
        let r = Self { residues };
        proof {
            assert(r.spec_view() =~= self.spec_view().subrange(0, level_count as int));
        }
        r
    }

    /// Copies of the first `count` residues.
    fn duplicate_residues(&self, count: usize) -> (r: Vec<ModularPolynomial>)
        requires
            count <= self.spec_levels(),
        ensures
            r@.len() == count,
            forall|l: int| 0 <= l < count ==> (#[trigger] r@[l])@ == self.spec_residues()[l]@,
    {
        let mut residues: Vec<ModularPolynomial> = Vec::with_capacity(count);
        let mut l: usize = 0;
        while l < count
            invariant
                count <= self.spec_levels(),
                l <= count,
                residues@.len() == l,
                forall|i: int| 0 <= i < l ==> (#[trigger] residues@[i])@ == self.spec_residues()[i]@,
            decreases count - l,
        {
            residues.push(self.residues[l].duplicate());
            l += 1;
        }
        residues
    }

    /// An exact copy.
    pub fn duplicate(&self) -> (r: Self)
        ensures
            r.spec_view() == self.spec_view(),
    {
        let residues = self.duplicate_residues(self.residues.len());
        let r = Self { residues };
        proof {
            assert(r.spec_view() =~= self.spec_view());
        }
        r
    }

    /// Chinese-remainder reconstruction of every coefficient modulo the product `Q`.
    pub fn reconstruct_coefficients(&self, context: &RnsContext) -> (r: Vec<BigNat>)
        requires
            context.wf(),
            crt_invertible(context.spec_moduli()),
            self.has_shape(context.spec_degree(), context.spec_moduli()),
        ensures
            r@.len() == context.spec_degree(),
            forall|k: int|
                0 <= k < r@.len() ==> {
                    &&& (#[trigger] r@[k])@ < context.spec_total_modulus()
                    &&& forall|l: int|
                        0 <= l < context.spec_levels() ==> r@[k]@ % (#[trigger] context.spec_moduli()[l] as nat)
                            == self.coeff(l, k)
                },
    {
        let total_modulus = context.total_modulus();
        let degree = context.poly_degree();
        let primes = context.primes();
        let ghost moduli = context.spec_moduli();
        proof {
            context.lemma_context_facts();
        }
        let mut coeffs: Vec<BigNat> = Vec::with_capacity(degree);
        let mut coeff_index: usize = 0;
        while coeff_index < degree
            invariant
                context.wf(),
                crt_invertible(moduli),
                moduli == context.spec_moduli(),
                primes@ == context.spec_primes(),
                self.has_shape(context.spec_degree(), moduli),
                total_modulus@ == context.spec_total_modulus(),
                total_modulus@ > 0,
                degree == context.spec_degree(),
                forall|i: int| 0 <= i < context.spec_levels() ==> #[trigger] moduli[i] >= 3,
                forall|i: int| 0 <= i < context.spec_levels() ==> total_modulus@ % (#[trigger] moduli[i] as nat) == 0,
                coeff_index <= degree,
                coeffs@.len() == coeff_index,
                forall|k: int|
                    0 <= k < coeff_index ==> {
                        &&& (#[trigger] coeffs@[k])@ < context.spec_total_modulus()
                        &&& forall|l: int|
                            0 <= l < context.spec_levels() ==> coeffs@[k]@ % (#[trigger] moduli[l] as nat)
                                == self.coeff(l, k)
                    },
            decreases degree - coeff_index,
        {
            let mut acc = BigNat::zero();
            let mut l: usize = 0;
            while l < primes.len()
                invariant
                    context.wf(),
                    crt_invertible(moduli),
                    moduli == context.spec_moduli(),
                    primes@ == context.spec_primes(),
                    self.has_shape(context.spec_degree(), moduli),
                    total_modulus@ == context.spec_total_modulus(),
                    total_modulus@ > 0,
                    coeff_index < degree,
                    degree == context.spec_degree(),
                    forall|i: int| 0 <= i < context.spec_levels() ==> #[trigger] moduli[i] >= 3,
                    l <= primes@.len(),
                    forall|j: int|
                        0 <= j < context.spec_levels() ==> acc@ % (#[trigger] moduli[j] as nat) == (if j < l {
                            self.coeff(j, coeff_index as int) as nat
                        } else {
                            0
                        }),
                decreases primes@.len() - l,
            {
                let modulus = primes[l].modulus;
                assert(moduli[l as int] == modulus);
                let modulus_big = BigNat::from_u64(modulus);
                let partial = big_div(&total_modulus, &modulus_big);
                let partial_mod_big = big_rem(&partial, &modulus_big);
                proof {
                    lemma_mod_bound(partial@ as int, modulus as int);
                }
                let partial_mod = match partial_mod_big.to_u64() {
                    Some(value) => value,
                    None => {
                        assert(false);
                        0
                    },
                };
                assert(has_inverse_fact(moduli, l as int)) by {
                    assert(crt_invertible(moduli));
                }
                let inverse = match mod_inv_u64(partial_mod, modulus) {
                    Some(value) => value,
                    None => {
                        assert(false);
                        0
                    },
                };
                assert(self.spec_residues()[l as int].wf());
                assert(self.spec_residues()[l as int].spec_degree() == degree);
                let residue_coeff = self.residues[l].coeffs()[coeff_index];
                let term = big_mul(&big_mul(&BigNat::from_u64(residue_coeff), &partial), &BigNat::from_u64(inverse));
                let ghost old_acc = acc@;
                acc = big_add(&acc, &term);
                proof {
                    lemma_crt_term(
                        moduli,
                        l as int,
                        residue_coeff as nat,
                        partial@,
                        inverse as nat,
                        old_acc,
                        coeff_index as int,
                    );
                    assert forall|j: int| 0 <= j < context.spec_levels() implies acc@ % (
                    #[trigger] moduli[j] as nat) == (if j < l + 1 {
                        self.coeff(j, coeff_index as int) as nat
                    } else {
                        0
                    }) by {
                        assert(self.spec_residues()[j].wf());
                        let q = moduli[j] as int;
                        if j == l {
                            assert(residue_coeff == self.coeff(j, coeff_index as int));
                            assert(self.coeff(j, coeff_index as int) < moduli[j]);
                            assert(old_acc % (q as nat) == 0);
                            lemma_add_mod_noop(old_acc as int, residue_coeff as int, q);
                            lemma_small_mod(residue_coeff as nat, q as nat);
                            assert((old_acc + residue_coeff) % q == residue_coeff);
                        } else {
                            assert(acc@ % (q as nat) == old_acc % (q as nat));
                        }
                    }
                }
                l += 1;
            }
            let reduced = big_rem(&acc, &total_modulus);
            proof {
                lemma_mod_bound(acc@ as int, total_modulus@ as int);
                assert forall|j: int| 0 <= j < context.spec_levels() implies reduced@ % (
                #[trigger] moduli[j] as nat) == self.coeff(j, coeff_index as int) by {
                    lemma_mod_product_then_modulus(acc@ as int, moduli, j);
                }
            }
            coeffs.push(reduced);
            coeff_index += 1;
        }
        coeffs
    }
}

/// `r` is the coefficient-wise sum of `a` and `b`, residue by residue.
pub open spec fn is_sum(r: RnsPolynomial, a: RnsPolynomial, b: RnsPolynomial) -> bool {
    &&& r.wf()
    &&& r.compatible(&a)
    &&& forall|l: int, k: int|
        0 <= l < a.spec_levels() && 0 <= k < a.spec_degree() ==> #[trigger] r.coeff(l, k) == (a.coeff(l, k)
            + b.coeff(l, k)) % (a.spec_moduli()[l] as int)
}

/// `r` is the coefficient-wise difference `a - b`, residue by residue.
pub open spec fn is_difference(r: RnsPolynomial, a: RnsPolynomial, b: RnsPolynomial) -> bool {
    &&& r.wf()
    &&& r.compatible(&a)
    &&& forall|l: int, k: int|
        0 <= l < a.spec_levels() && 0 <= k < a.spec_degree() ==> #[trigger] r.coeff(l, k) == (a.coeff(l, k)
            - b.coeff(l, k)) % (a.spec_moduli()[l] as int)
}

/// A polynomial whose view is a prefix of another's has the same residues,
/// moduli and degree on that prefix.
pub proof fn lemma_prefix_residues(prefix: RnsPolynomial, s: RnsPolynomial, count: nat)
    requires
        count <= s.spec_levels(),
        prefix.spec_view() == s.spec_view().subrange(0, count as int),
    ensures
        prefix.spec_levels() == count,
        forall|l: int|
            0 <= l < count ==> #[trigger] prefix.residue_coeffs()[l] == s.residue_coeffs()[l] && prefix.spec_moduli()[l]
                == s.spec_moduli()[l],
        count > 0 ==> prefix.spec_degree() == s.spec_degree(),
{
    assert(prefix.spec_view().len() == prefix.spec_residues().len());
    assert forall|l: int| 0 <= l < count implies #[trigger] prefix.residue_coeffs()[l] == s.residue_coeffs()[l]
        && prefix.spec_moduli()[l] == s.spec_moduli()[l] by {
        assert(prefix.spec_view()[l] == s.spec_view()[l]);
        assert(prefix.spec_view()[l] == prefix.spec_residues()[l]@);
        assert(s.spec_view()[l] == s.spec_residues()[l]@);
    }
    if count > 0 {
        assert(prefix.spec_view()[0] == s.spec_view()[0]);
        assert(prefix.spec_view()[0] == prefix.spec_residues()[0]@);
        assert(s.spec_view()[0] == s.spec_residues()[0]@);
    }
}

/// Coefficient `k`, modulo the `l`-th prime, of the negacyclic product `a * b`.
pub open spec fn prod_coeff(a: RnsPolynomial, b: RnsPolynomial, l: int, k: int) -> int {
    negacyclic_coeff(a.residue_coeffs()[l], b.residue_coeffs()[l], a.spec_moduli()[l] as nat, k)
}

/// `r` is the negacyclic product `a * b`, residue by residue.
pub open spec fn is_product(r: RnsPolynomial, a: RnsPolynomial, b: RnsPolynomial) -> bool {
    &&& r.compatible(&a)
    &&& forall|l: int, k: int|
        0 <= l < a.spec_levels() && 0 <= k < a.spec_degree() ==> #[trigger] r.coeff(l, k) == prod_coeff(a, b, l, k)
}

/// `((x + y) mod q + z) mod q == (x + y + z) mod q`.
pub proof fn lemma_add3_mod(x: int, y: int, z: int, q: int)
    requires
        q > 0,
    ensures
        ((x + y) % q + z) % q == (x + y + z) % q,
{
    lemma_add_mod_noop(x + y, z, q);
    lemma_mod_twice(x + y, q);
    lemma_add_mod_noop((x + y) % q, z, q);
}

/// `r` is the image of `a` under `X -> X^g`, residue by residue.
pub open spec fn is_galois_image(r: RnsPolynomial, a: RnsPolynomial, g: nat) -> bool {
    &&& r.wf()
    &&& r.compatible(&a)
    &&& forall|l: int, k: int|
        0 <= l < a.spec_levels() && 0 <= k < a.spec_degree() ==> #[trigger] r.coeff(l, k) == galois_coeff(
            a.residue_coeffs()[l],
            g,
            a.spec_moduli()[l] as nat,
            k,
        )
}

/// Compatibility is an equivalence: symmetric and transitive.
pub proof fn lemma_compatible_equiv(a: RnsPolynomial, b: RnsPolynomial, c: RnsPolynomial)
    ensures
        a.compatible(&b) ==> b.compatible(&a),
        a.compatible(&b) && b.compatible(&c) ==> a.compatible(&c),
        a.compatible(&a),
{
    if a.compatible(&b) {
        assert forall|l: int| 0 <= l < b.spec_levels() implies (#[trigger] b.spec_residues()[l]).compatible(
            &a.spec_residues()[l],
        ) by {
            assert(a.spec_residues()[l].compatible(&b.spec_residues()[l]));
        }
        if b.compatible(&c) {
            assert forall|l: int| 0 <= l < a.spec_levels() implies (#[trigger] a.spec_residues()[l]).compatible(
                &c.spec_residues()[l],
            ) by {
                assert(a.spec_residues()[l].compatible(&b.spec_residues()[l]));
                assert(b.spec_residues()[l].compatible(&c.spec_residues()[l]));
            }
        }
    }
}

/// The CRT coefficient of position `l` is invertible modulo its prime.
pub open spec fn has_inverse_fact(moduli: Seq<u64>, l: int) -> bool {
    crate::math::arith::has_inverse(
        (moduli_product(moduli) / (moduli[l] as nat)) % (moduli[l] as nat),
        moduli[l] as nat,
    )
}

/// Adding the CRT term of residue `l` to an accumulator fixes the accumulator
/// modulo `q_l` to the residue and leaves it unchanged modulo every other prime.
proof fn lemma_crt_term(
    moduli: Seq<u64>,
    l: int,
    residue: nat,
    partial: nat,
    inverse: nat,
    acc: nat,
    k: int,
)
    requires
        0 <= l < moduli.len(),
        forall|i: int| 0 <= i < moduli.len() ==> #[trigger] moduli[i] >= 3,
        partial == moduli_product(moduli) / (moduli[l] as nat),
        (inverse * (partial % (moduli[l] as nat))) % (moduli[l] as nat) == 1,
    ensures
        forall|j: int|
            0 <= j < moduli.len() ==> (acc + residue * partial * inverse) % (#[trigger] moduli[j] as nat) == (if j
                == l {
                (acc + residue) % (moduli[j] as nat)
            } else {
                acc % (moduli[j] as nat)
            }),
{
    let x = residue * partial * inverse;
    assert forall|j: int| 0 <= j < moduli.len() implies (acc + x) % (#[trigger] moduli[j] as nat) == (if j
        == l {
        (acc + residue) % (moduli[j] as nat)
    } else {
        acc % (moduli[j] as nat)
    }) by {
        if j == l {
            lemma_crt_own_term(moduli[j] as int, residue as int, partial as int, inverse as int, acc as int);
        } else {
            lemma_quotient_divisible(moduli, l, j);
            lemma_crt_other_term(moduli[j] as int, residue as int, partial as int, inverse as int, acc as int);
        }
    }
}

proof fn lemma_crt_own_term(q: int, residue: int, partial: int, inverse: int, acc: int)
    requires
        q > 0,
        residue >= 0,
        partial >= 0,
        inverse >= 0,
        (inverse * (partial % q)) % q == 1,
    ensures
        (acc + residue * partial * inverse) % q == (acc + residue) % q,
{
    let x = residue * partial * inverse;
    lemma_mul_is_associative(residue, partial, inverse);
    assert(x == residue * (partial * inverse));
    lemma_mul_mod_noop_left(partial, inverse, q);
    lemma_mul_is_commutative(partial % q, inverse);
    assert((partial * inverse) % q == 1);
    lemma_mul_mod_noop_right(residue, partial * inverse, q);
    assert((residue * 1) % q == x % q);
    lemma_add_mod_noop(acc, x, q);
    lemma_add_mod_noop(acc, residue, q);
    assert(residue * 1 == residue);
}

proof fn lemma_crt_other_term(q: int, residue: int, partial: int, inverse: int, acc: int)
    requires
        q > 0,
        partial % q == 0,
    ensures
        (acc + residue * partial * inverse) % q == acc % q,
{
    let x = residue * partial * inverse;
    lemma_mul_is_commutative(residue, partial);
    lemma_mul_is_associative(partial, residue, inverse);
    assert(x == partial * (residue * inverse));
    lemma_mul_mod_noop_left(partial, residue * inverse, q);
    assert(0 * (residue * inverse) == 0);
    lemma_small_mod(0, q as nat);
    lemma_add_mod_noop(acc, x, q);
    lemma_mod_twice(acc, q);
    assert(acc % q + 0 == acc % q);
}

/// `Q / q_l` is a multiple of every other modulus `q_j` of the chain.
proof fn lemma_quotient_divisible(moduli: Seq<u64>, l: int, j: int)
    requires
        0 <= l < moduli.len(),
        0 <= j < moduli.len(),
        j != l,
        forall|i: int| 0 <= i < moduli.len() ==> #[trigger] moduli[i] >= 1,
    ensures
        (moduli_product(moduli) / (moduli[l] as nat)) % (moduli[j] as nat) == 0,
{
    let rest = moduli.remove(l);
    lemma_product_remove(moduli, l);
    lemma_div_by_multiple(moduli_product(rest) as int, moduli[l] as int);
    let jj = if j < l { j } else { j - 1 };
    assert(rest[jj] == moduli[j]);
    assert forall|i: int| 0 <= i < rest.len() implies #[trigger] rest[i] >= 1 by {
        if i < l {
            assert(rest[i] == moduli[i]);
        } else {
            assert(rest[i] == moduli[i + 1]);
        }
    }
    lemma_product_divisible(rest, jj);
}

/// Taking one modulus out of a chain divides its product by that modulus.
proof fn lemma_product_remove(moduli: Seq<u64>, l: int)
    requires
        0 <= l < moduli.len(),
    ensures
        moduli_product(moduli) == moduli_product(moduli.remove(l)) * moduli[l],
    decreases moduli.len(),
{
    if l == moduli.len() - 1 {
        assert(moduli.remove(l) =~= moduli.drop_last());
    } else {
        let init = moduli.drop_last();
        lemma_product_remove(init, l);
        assert(moduli.remove(l).drop_last() =~= init.remove(l));
        assert(moduli.remove(l).last() == moduli.last());
        assert(init[l] == moduli[l]);
        let a = moduli_product(init.remove(l));
        assert(a * moduli[l] * moduli.last() == a * moduli.last() * moduli[l]) by (nonlinear_arith);
    }
}

} // verus!
