//! The slot layout of the canonical embedding: which evaluation point of
//! `X^N + 1` each slot occupies.

use vstd::arithmetic::div_mod::*;
use vstd::arithmetic::power::*;
use vstd::prelude::*;

verus! {

/// The exponents `5^j mod 2N` of the primitive `2N`-th roots at which slot `j`
/// is evaluated, for `j < N/2`.
pub fn slot_exponents(poly_degree: usize) -> (r: Vec<usize>)
    requires
        poly_degree > 0,
        10 * poly_degree <= usize::MAX,
    ensures
        r@.len() == poly_degree / 2,
        forall|j: int| 0 <= j < r@.len() ==> #[trigger] r@[j] as int == pow(5, j as nat) % (2 * poly_degree as int),
{
    let modulus = 2 * poly_degree;
    let ghost m = modulus as int;
    let mut exponents: Vec<usize> = Vec::with_capacity(poly_degree / 2);
    let mut current: usize = 1;
    proof {
        lemma_pow0(5);
        lemma_small_mod(1, modulus as nat);
    }
    let mut j: usize = 0;
    while j < poly_degree / 2
        invariant
            modulus == 2 * poly_degree,
            m == modulus,
            10 * poly_degree <= usize::MAX,
            j <= poly_degree / 2,
            exponents@.len() == j,
            current < modulus,
            current as int == pow(5, j as nat) % m,
            forall|i: int| 0 <= i < j ==> #[trigger] exponents@[i] as int == pow(5, i as nat) % m,
        decreases poly_degree / 2 - j,
    {
        exponents.push(current);
        proof {
            lemma_mul_mod_noop_left(pow(5, j as nat), 5, m);
            lemma_pow_adds(5, j as nat, 1);
            lemma_pow1(5);
            lemma_mod_bound(current * 5, m);
        }
        current = (current * 5) % modulus;
        j += 1;
    }
    exponents
}

/// The index among the odd exponents `1, 3, 5, ...` of an odd exponent.
pub fn exponent_to_eval_index(exponent: usize) -> (r: usize)
    requires
        exponent % 2 == 1,
    ensures
        2 * r + 1 == exponent,
{
    (exponent - 1) / 2
}

} // verus!
