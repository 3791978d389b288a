//! Pairwise coprime moduli, and the invertibility facts the Chinese remainder
//! reconstruction and the divisions by primes rest on.

use crate::math::arith::has_inverse;
use crate::math::bignum::bit_length;
use vstd::arithmetic::div_mod::*;
use vstd::arithmetic::mul::*;
use vstd::prelude::*;

use super::basis::{crt_invertible, lemma_product_divisible, lemma_product_positive, moduli_product};
use super::ops::last_modulus_invertible;

verus! {

/// `p` is prime: above one, with no divisor strictly between one and itself.
pub open spec fn is_prime(p: nat) -> bool {
    &&& p > 1
    &&& forall|d: nat| 1 < d < p ==> #[trigger] (p % d) != 0
}

/// Every residue `1 <= a < p` is invertible modulo a prime `p` (by descent
/// on `a`: `p mod a` is a smaller non-zero residue congruent to `-a * (p / a)`).
proof fn lemma_prime_residue_invertible(p: nat, a: nat)
    requires
        is_prime(p),
        1 <= a < p,
    ensures
        exists|y: nat| #[trigger] ((y * a) % p) == 1,
    decreases a,
{
    if a == 1 {
        lemma_small_mod(1, p);
        assert(((1 * a) % p) == 1);
    } else {
        let r = p % a;
        let q = p / a;
        lemma_fundamental_div_mod(p as int, a as int);
        lemma_mod_bound(p as int, a as int);
        assert(r != 0) by {
            assert(1 < a < p);
            assert((p % a) != 0);
        }
        lemma_prime_residue_invertible(p, r);
        let y0 = choose|y: nat| #[trigger] ((y * r) % p) == 1;
        // y0 * r == y0 * (p - a * q) == -(y0 * q) * a  (mod p)
        let t = ((y0 * q) % p) as nat;
        lemma_mod_bound((y0 * q) as int, p as int);
        let y: nat = (p - t) as nat;
        assert(y0 * r == y0 * p - (y0 * q) * a) by (nonlinear_arith)
            requires
                p == a * q + r,
        ;
        lemma_fundamental_div_mod((y0 * q) as int, p as int);
        let k = (y0 * q) as int / p as int;
        assert(y * a == y0 * r + p * (a - y0 + k * a)) by (nonlinear_arith)
            requires
                y == p - t,
                y0 * r == y0 * p - (y0 * q) * a,
                (y0 * q) as int == p * k + t,
        ;
        lemma_mod_multiples_vanish(a - y0 + k * a, (y0 * r) as int, p as int);
        assert(((y * a) % p) == 1);
    }
}

/// Distinct primes are coprime: one is invertible modulo the other.
pub proof fn lemma_distinct_primes_invertible(q: nat, p: nat)
    requires
        is_prime(q),
        is_prime(p),
        q != p,
    ensures
        has_inverse(q % p, p),
{
    lemma_mod_bound(q as int, p as int);
    if q % p == 0 {
        if p < q {
            assert(1 < p < q);
            assert((q % p) != 0);
        } else {
            lemma_small_mod(q, p);
        }
    }
    lemma_prime_residue_invertible(p, q % p);
}

/// A chain of distinct primes is a pairwise coprime chain of moduli above one.
pub proof fn lemma_distinct_primes_coprime(moduli: Seq<u64>)
    requires
        forall|i: int| 0 <= i < moduli.len() ==> is_prime(#[trigger] moduli[i] as nat),
        forall|i: int, j: int| 0 <= i < j < moduli.len() ==> #[trigger] moduli[i] != #[trigger] moduli[j],
    ensures
        pairwise_coprime(moduli),
        moduli_above_one(moduli),
{
    assert forall|i: int, j: int| 0 <= i < moduli.len() && 0 <= j < moduli.len() && i != j implies has_inverse(
        (#[trigger] moduli[i] as nat) % (#[trigger] moduli[j] as nat),
        moduli[j] as nat,
    ) by {
        assert(is_prime(moduli[i] as nat));
        assert(is_prime(moduli[j] as nat));
        if i < j {
            assert(moduli[i] != moduli[j]);
        } else {
            assert(moduli[j] != moduli[i]);
        }
        lemma_distinct_primes_invertible(moduli[i] as nat, moduli[j] as nat);
    }
    assert forall|i: int| 0 <= i < moduli.len() implies #[trigger] moduli[i] > 1 by {
        assert(is_prime(moduli[i] as nat));
    }
}

/// Every modulus is invertible modulo every other one.
pub open spec fn pairwise_coprime(moduli: Seq<u64>) -> bool {
    forall|i: int, j: int|
        0 <= i < moduli.len() && 0 <= j < moduli.len() && i != j ==> has_inverse(
            (#[trigger] moduli[i] as nat) % (#[trigger] moduli[j] as nat),
            moduli[j] as nat,
        )
}

/// Every modulus is above one.
pub open spec fn moduli_above_one(moduli: Seq<u64>) -> bool {
    forall|i: int| 0 <= i < moduli.len() ==> #[trigger] moduli[i] > 1
}

/// A product of two invertible residues is invertible.
pub proof fn lemma_inverse_of_product(a: nat, b: nat, m: nat)
    requires
        m > 1,
        has_inverse(a % m, m),
        has_inverse(b % m, m),
    ensures
        has_inverse((a * b) % m, m),
{
    let ya = choose|y: nat| #[trigger] ((y * (a % m)) % m) == 1;
    let yb = choose|y: nat| #[trigger] ((y * (b % m)) % m) == 1;
    let y = ya * yb;
    assert(y * (a * b) == (ya * a) * (yb * b)) by (nonlinear_arith)
        requires
            y == ya * yb,
    ;
    lemma_mul_mod_noop_right(ya as int, a as int, m as int);
    lemma_mul_mod_noop_right(yb as int, b as int, m as int);
    assert((ya * a) % m == 1);
    assert((yb * b) % m == 1);
    lemma_mul_mod_noop((ya * a) as int, (yb * b) as int, m as int);
    lemma_mul_mod_noop_right(y as int, (a * b) as int, m as int);
    lemma_small_mod(1, m);
    assert(((ya * a) * (yb * b)) % m == ((1nat * 1nat) % m));
    assert(((y * ((a * b) % m)) % m) == 1);
}

/// A product of residues each invertible modulo `m` is invertible modulo `m`.
pub proof fn lemma_product_invertible(moduli: Seq<u64>, m: nat)
    requires
        m > 1,
        forall|j: int| 0 <= j < moduli.len() ==> has_inverse((#[trigger] moduli[j] as nat) % m, m),
    ensures
        has_inverse(moduli_product(moduli) % m, m),
    decreases moduli.len(),
{
    if moduli.len() == 0 {
        lemma_small_mod(1, m);
        assert(((1 * (1nat % m)) % m) == 1);
    } else {
        let rest = moduli.drop_last();
        assert forall|j: int| 0 <= j < rest.len() implies has_inverse((#[trigger] rest[j] as nat) % m, m) by {
            assert(rest[j] == moduli[j]);
        }
        lemma_product_invertible(rest, m);
        assert(has_inverse((moduli.last() as nat) % m, m));
        lemma_inverse_of_product(moduli_product(rest), moduli.last() as nat, m);
    }
}

/// Taking out one modulus divides the product by it.
pub proof fn lemma_product_remove(moduli: Seq<u64>, i: int)
    requires
        0 <= i < moduli.len(),
    ensures
        moduli_product(moduli) == moduli_product(moduli.remove(i)) * (moduli[i] as nat),
    decreases moduli.len(),
{
    let rest = moduli.drop_last();
    if i == moduli.len() - 1 {
        assert(moduli.remove(i) =~= rest);
    } else {
        lemma_product_remove(rest, i);
        assert(moduli.remove(i).drop_last() =~= rest.remove(i));
        assert(moduli.remove(i).last() == moduli.last());
        assert(rest[i] == moduli[i]);
        assert(moduli_product(moduli.remove(i)) == moduli_product(rest.remove(i)) * (moduli.last() as nat));
        assert(moduli_product(moduli) == moduli_product(rest) * (moduli.last() as nat));
        assert((moduli_product(rest.remove(i)) * (moduli[i] as nat)) * (moduli.last() as nat) == (moduli_product(
            rest.remove(i),
        ) * (moduli.last() as nat)) * (moduli[i] as nat)) by (nonlinear_arith);
    }
}

/// Pairwise coprime moduli have invertible CRT coefficients.
pub proof fn lemma_coprime_crt(moduli: Seq<u64>)
    requires
        pairwise_coprime(moduli),
        moduli_above_one(moduli),
    ensures
        crt_invertible(moduli),
{
    assert forall|i: int| 0 <= i < moduli.len() implies has_inverse(
        (moduli_product(moduli) / (#[trigger] moduli[i]) as nat) % (moduli[i] as nat),
        moduli[i] as nat,
    ) by {
        let others = moduli.remove(i);
        let q = moduli[i] as nat;
        assert forall|j: int| 0 <= j < others.len() implies has_inverse((#[trigger] others[j] as nat) % q, q) by {
            if j < i {
                assert(others[j] == moduli[j]);
                assert(has_inverse((moduli[j] as nat) % (moduli[i] as nat), moduli[i] as nat));
            } else {
                assert(others[j] == moduli[j + 1]);
                assert(has_inverse((moduli[j + 1] as nat) % (moduli[i] as nat), moduli[i] as nat));
            }
        }
        lemma_product_invertible(others, q);
        lemma_product_remove(moduli, i);
        lemma_div_multiples_vanish(moduli_product(others) as int, q as int);
        lemma_mul_is_commutative(moduli_product(others) as int, q as int);
    }
}

/// Pairwise coprime moduli allow division by the last one.
pub proof fn lemma_coprime_last(moduli: Seq<u64>)
    requires
        pairwise_coprime(moduli),
    ensures
        last_modulus_invertible(moduli),
{
    assert forall|l: int| 0 <= l < moduli.len() - 1 implies has_inverse(
        (moduli.last() as nat) % (#[trigger] moduli[l] as nat),
        moduli[l] as nat,
    ) by {
        assert(has_inverse((moduli[moduli.len() - 1] as nat) % (moduli[l] as nat), moduli[l] as nat));
    }
}

/// Any contiguous part of pairwise coprime moduli is pairwise coprime.
pub proof fn lemma_coprime_part(moduli: Seq<u64>, start: int, end: int)
    requires
        pairwise_coprime(moduli),
        moduli_above_one(moduli),
        0 <= start <= end <= moduli.len(),
    ensures
        pairwise_coprime(moduli.subrange(start, end)),
        moduli_above_one(moduli.subrange(start, end)),
{
    let part = moduli.subrange(start, end);
    assert forall|i: int, j: int| 0 <= i < part.len() && 0 <= j < part.len() && i != j implies has_inverse(
        (#[trigger] part[i] as nat) % (#[trigger] part[j] as nat),
        part[j] as nat,
    ) by {
        assert(part[i] == moduli[start + i]);
        assert(part[j] == moduli[start + j]);
        assert(has_inverse((moduli[start + i] as nat) % (moduli[start + j] as nat), moduli[start + j] as nat));
    }
    assert forall|i: int| 0 <= i < part.len() implies #[trigger] part[i] > 1 by {
        assert(part[i] == moduli[start + i]);
    }
}

/// The product of the moduli after `split` is invertible modulo each modulus before it.
pub proof fn lemma_coprime_split(moduli: Seq<u64>, split: int)
    requires
        pairwise_coprime(moduli),
        moduli_above_one(moduli),
        0 <= split <= moduli.len(),
    ensures
        forall|l: int|
            0 <= l < split ==> has_inverse(
                moduli_product(moduli.subrange(split, moduli.len() as int)) % (#[trigger] moduli[l] as nat),
                moduli[l] as nat,
            ),
{
    let tail = moduli.subrange(split, moduli.len() as int);
    assert forall|l: int| 0 <= l < split implies has_inverse(
        moduli_product(tail) % (#[trigger] moduli[l] as nat),
        moduli[l] as nat,
    ) by {
        let q = moduli[l] as nat;
        assert forall|j: int| 0 <= j < tail.len() implies has_inverse((#[trigger] tail[j] as nat) % q, q) by {
            assert(tail[j] == moduli[split + j]);
            assert(has_inverse((moduli[split + j] as nat) % (moduli[l] as nat), moduli[l] as nat));
        }
        lemma_product_invertible(tail, q);
    }
}

/// A product of `k` moduli of at most 64 bits has at most `64 k + 1` bits.
pub proof fn lemma_product_bits(moduli: Seq<u64>)
    ensures
        bit_length(moduli_product(moduli)) <= 64 * moduli.len() + 1,
    decreases moduli.len(),
{
    if moduli.len() == 0 {
        assert(bit_length(0) == 0);
        assert(bit_length(1) == 1);
    } else {
        let rest = moduli.drop_last();
        lemma_product_bits(rest);
        lemma_bit_length_mul(moduli_product(rest), moduli.last() as nat);
    }
}

/// `x < 2^bit_length(x)`, and `2^(bit_length(x) - 1) <= x` for `x > 0`.
proof fn lemma_bit_length_pow2(x: nat)
    ensures
        x < vstd::arithmetic::power2::pow2(bit_length(x)),
        x > 0 ==> vstd::arithmetic::power2::pow2((bit_length(x) - 1) as nat) <= x,
    decreases x,
{
    vstd::arithmetic::power2::lemma2_to64();
    if x > 0 {
        lemma_bit_length_pow2(x / 2);
        vstd::arithmetic::power2::lemma_pow2_unfold(bit_length(x));
        if x / 2 > 0 {
            vstd::arithmetic::power2::lemma_pow2_unfold((bit_length(x) - 1) as nat);
        }
    }
}

/// A value below `2^n` has at most `n` bits.
proof fn lemma_bits_below(x: nat, n: nat)
    requires
        x < vstd::arithmetic::power2::pow2(n),
    ensures
        bit_length(x) <= n,
{
    lemma_bit_length_pow2(x);
    if x > 0 && bit_length(x) > n {
        if n < (bit_length(x) - 1) as nat {
            vstd::arithmetic::power2::lemma_pow2_strictly_increases(n, (bit_length(x) - 1) as nat);
        }
    }
}

/// Bits of a product of a number and a `u64`.
proof fn lemma_bit_length_mul(a: nat, b: nat)
    requires
        b <= u64::MAX,
    ensures
        bit_length(a * b) <= bit_length(a) + 64,
{
    lemma_bit_length_pow2(a);
    vstd::arithmetic::power2::lemma2_to64();
    let pa = vstd::arithmetic::power2::pow2(bit_length(a));
    let p64 = vstd::arithmetic::power2::pow2(64);
    assert(a * b < pa * p64) by (nonlinear_arith)
        requires
            a < pa,
            b < p64,
    ;
    vstd::arithmetic::power2::lemma_pow2_adds(bit_length(a), 64);
    lemma_bits_below(a * b, bit_length(a) + 64);
}


/// A prefix of pairwise coprime moduli followed by a later part of them is
/// pairwise coprime.
pub proof fn lemma_coprime_prefix_then_tail(moduli: Seq<u64>, count: int, split: int)
    requires
        pairwise_coprime(moduli),
        moduli_above_one(moduli),
        0 <= count <= split <= moduli.len(),
    ensures
        pairwise_coprime(moduli.subrange(0, count) + moduli.subrange(split, moduli.len() as int)),
        moduli_above_one(moduli.subrange(0, count) + moduli.subrange(split, moduli.len() as int)),
{
    let part = moduli.subrange(0, count) + moduli.subrange(split, moduli.len() as int);
    let index = |i: int| if i < count { i } else { i - count + split };
    assert forall|i: int| 0 <= i < part.len() implies #[trigger] part[i] == moduli[index(i)] by {}
    assert forall|i: int, j: int| 0 <= i < part.len() && 0 <= j < part.len() && i != j implies has_inverse(
        (#[trigger] part[i] as nat) % (#[trigger] part[j] as nat),
        part[j] as nat,
    ) by {
        assert(part[i] == moduli[index(i)]);
        assert(part[j] == moduli[index(j)]);
        assert(index(i) != index(j));
        assert(has_inverse((moduli[index(i)] as nat) % (moduli[index(j)] as nat), moduli[index(j)] as nat));
    }
    assert forall|i: int| 0 <= i < part.len() implies #[trigger] part[i] > 1 by {
        assert(part[i] == moduli[index(i)]);
    }
}

/// Everything a chain of pairwise coprime moduli provides to CRT
/// reconstruction, rescaling and key switching.
pub proof fn lemma_coprime_chain(moduli: Seq<u64>)
    requires
        pairwise_coprime(moduli),
        moduli_above_one(moduli),
    ensures
        crt_invertible(moduli),
        last_modulus_invertible(moduli),
        bit_length(moduli_product(moduli)) <= 64 * moduli.len() + 1,
{
    lemma_coprime_crt(moduli);
    lemma_coprime_last(moduli);
    lemma_product_bits(moduli);
}

/// Residues determine a value modulo the product of the chain: two integers
/// congruent modulo every modulus of a chain with invertible CRT
/// coefficients differ by a multiple of the product.
pub proof fn lemma_crt_unique(moduli: Seq<u64>, x: int, y: int)
    requires
        crt_invertible(moduli),
        forall|l: int| 0 <= l < moduli.len() ==> #[trigger] moduli[l] > 1,
        forall|l: int| 0 <= l < moduli.len() ==> x % (#[trigger] moduli[l] as int) == y % (moduli[l] as int),
    ensures
        (x - y) % (moduli_product(moduli) as int) == 0,
    decreases moduli.len(),
{
    if moduli.len() == 0 {
        assert(moduli_product(moduli) == 1);
        lemma_mod_multiples_basic(x - y, 1);
        lemma_mul_basics(x - y);
    } else {
        let rest = moduli.drop_last();
        let m = moduli.last() as int;
        let p = moduli_product(rest) as int;
        let big = moduli_product(moduli) as int;
        assert(big == p * m);
        assert forall|j: int| 0 <= j < rest.len() implies #[trigger] rest[j] >= 1 by {
            assert(rest[j] == moduli[j]);
        }
        lemma_product_positive(rest);
        assert forall|i: int| 0 <= i < rest.len() implies has_inverse(
            (moduli_product(rest) / (#[trigger] rest[i]) as nat) % (rest[i] as nat),
            rest[i] as nat,
        ) by {
            let qi = rest[i] as int;
            assert(rest[i] == moduli[i]);
            lemma_product_divisible(rest, i);
            lemma_fundamental_div_mod(p, qi);
            let t = p / qi;
            assert(p == qi * t);
            assert(big == qi * (t * m)) by (nonlinear_arith)
                requires
                    big == p * m,
                    p == qi * t,
            ;
            lemma_div_multiples_vanish(t * m, qi);
            assert(big / qi == t * m);
            assert(has_inverse((big / qi) as nat % (qi as nat), qi as nat));
            let u = choose|u: nat| #[trigger] ((u * ((big / qi) as nat % (qi as nat))) % (qi as nat)) == 1;
            lemma_mul_mod_noop_right(u as int, t * m, qi);
            lemma_mul_mod_noop_right(u * m, t, qi);
            assert(u * (t * m) == (u * m) * t) by (nonlinear_arith);
            lemma_mul_nonnegative(u as int, m);
            let w = (u * m) as nat;
            assert(((w * ((p / qi) as nat % (qi as nat))) % (qi as nat)) == 1);
        }
        assert forall|l: int| 0 <= l < rest.len() implies #[trigger] rest[l] > 1 by {
            assert(rest[l] == moduli[l]);
        }
        assert forall|l: int| 0 <= l < rest.len() implies x % (#[trigger] rest[l] as int) == y % (rest[l] as int) by {
            assert(rest[l] == moduli[l]);
        }
        lemma_crt_unique(rest, x, y);
        lemma_fundamental_div_mod(x - y, p);
        let s = (x - y) / p;
        assert(x - y == p * s);
        // m divides x - y
        assert(x % m == y % m) by {
            assert(moduli[moduli.len() - 1] == moduli.last());
        }
        lemma_sub_mod_noop(x, y, m);
        lemma_mod_self_0(m);
        lemma_small_mod(0, m as nat);
        assert((x - y) % m == 0);
        // the product of the others is invertible modulo m
        lemma_div_multiples_vanish(p, m);
        lemma_mul_is_commutative(p, m);
        assert(big / m == p);
        assert(has_inverse((big / m) as nat % (m as nat), m as nat)) by {
            assert(moduli[moduli.len() - 1] == moduli.last());
        }
        let u = choose|u: nat| #[trigger] ((u * ((big / m) as nat % (m as nat))) % (m as nat)) == 1;
        lemma_mul_mod_noop_right(u as int, p, m);
        assert(((u * p) as int) % m == 1);
        // s == (u * p) * s == u * (x - y) == 0 modulo m
        lemma_mul_mod_noop_left(u * p, s, m);
        assert(((u * p) * s) % m == (1 * s) % m);
        assert((u * p) * s == u * (x - y)) by (nonlinear_arith)
            requires
                x - y == p * s,
        ;
        lemma_mul_mod_noop_right(u as int, x - y, m);
        assert((u * (x - y)) % m == ((u as int) * 0) % m);
        assert(s % m == 0);
        lemma_fundamental_div_mod(s, m);
        let w = s / m;
        assert(x - y == big * w) by (nonlinear_arith)
            requires
                x - y == p * s,
                s == m * w + 0,
                big == p * m,
        ;
        lemma_mod_multiples_basic(w, big);
        lemma_mul_is_commutative(w, big);
    }
}

} // verus!
