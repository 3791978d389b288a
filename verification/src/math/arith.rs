//! Mathematical vocabulary shared by the whole crate: powers of two, modular
//! powers and inverses, and the lemmas that the modular helpers rest on.

use vstd::arithmetic::div_mod::*;
use vstd::arithmetic::mul::*;
use vstd::arithmetic::power::*;
use vstd::prelude::*;

verus! {

/// `n` is a power of two (1, 2, 4, 8, ...).
pub open spec fn is_pow2(n: nat) -> bool
    decreases n,
{
    if n == 1 {
        true
    } else if n < 2 || n % 2 != 0 {
        false
    } else {
        is_pow2(n / 2)
    }
}

/// `usize::is_power_of_two`: true exactly when the value is `2^k` for some `k`.
pub assume_specification[ <usize>::is_power_of_two ](n: usize) -> (r: bool)
    ensures
        r == is_pow2(n as nat),
;

/// `usize::next_power_of_two`: the smallest power of two that is not below the
/// value (1 for 0); it panics when that power does not fit, which `requires` excludes.
pub assume_specification[ <usize>::next_power_of_two ](n: usize) -> (r: usize)
    requires
        n as nat <= pow2_usize_top(),
    ensures
        is_pow2(r as nat),
        n <= r,
        r == 1 || r / 2 < n,
;

/// The largest power of two that a `usize` holds.
pub open spec fn pow2_usize_top() -> nat {
    if usize::BITS == 64 {
        0x8000_0000_0000_0000nat
    } else {
        0x8000_0000nat
    }
}

/// `b^e mod m`, for `m > 0`.
pub open spec fn pow_mod(b: nat, e: nat, m: nat) -> nat
    recommends
        m > 0,
{
    (pow(b as int, e) % (m as int)) as nat
}

/// `x` has a multiplicative inverse modulo `m`.
pub open spec fn has_inverse(x: nat, m: nat) -> bool {
    exists|y: nat| #[trigger] ((y * x) % m) == 1
}

/// Powers of naturals are naturals.
pub proof fn lemma_pow_nonneg(b: int, e: nat)
    requires
        b >= 0,
    ensures
        pow(b, e) >= 0,
    decreases e,
{
    reveal(pow);
    if e > 0 {
        lemma_pow_nonneg(b, (e - 1) as nat);
        lemma_mul_nonnegative(b, pow(b, (e - 1) as nat));
    }
}

/// Splitting an exponent into its halves: `b^e = (b*b)^(e/2) * b^(e%2)`.
pub proof fn lemma_pow_halve(b: int, e: nat)
    ensures
        pow(b, e) == pow(b * b, e / 2) * (if e % 2 == 1 { b } else { 1 }),
{
    let k = e / 2;
    let r = e % 2;
    assert(e == 2 * k + r);
    lemma_pow_adds(b, 2 * k, r);
    lemma_pow_multiplies(b, 2, k);
    lemma_square_is_pow2(b);
    lemma_pow0(b);
    lemma_pow1(b);
    if r == 1 {
        lemma_mul_is_commutative(pow(b * b, k), b);
    }
}

/// One step of square-and-multiply preserves the product `acc * base^exp` modulo `m`.
pub proof fn lemma_square_multiply_step(acc: int, base: int, exp: nat, m: int)
    requires
        m > 0,
    ensures
        ((if exp % 2 == 1 { (acc * base) % m } else { acc }) * pow((base * base) % m, exp / 2)) % m
            == (acc * pow(base, exp)) % m,
{
    let k = exp / 2;
    let sq = base * base;
    let next_acc = if exp % 2 == 1 { (acc * base) % m } else { acc };
    lemma_pow_halve(base, exp);
    lemma_pow_mod_noop(sq, k, m);
    lemma_mul_mod_noop_right(next_acc, pow(sq % m, k), m);
    lemma_mul_mod_noop_right(next_acc, pow(sq, k), m);
    if exp % 2 == 1 {
        lemma_mul_mod_noop_left(acc * base, pow(sq, k), m);
        lemma_mul_is_associative(acc, base, pow(sq, k));
        lemma_mul_is_commutative(base, pow(sq, k));
    } else {
        assert(pow(sq, k) * 1 == pow(sq, k));
    }
}

} // verus!
