//! Slot rotations: Galois elements `5^steps mod 2N` and the raw automorphisms
//! they induce on polynomials, secret keys and ciphertexts.

use crate::math::arith::{has_inverse, is_pow2, pow_mod};
use crate::math::ntt::{mod_inv, mod_pow};
use crate::poly::lemma_galois_inverse;
use vstd::arithmetic::div_mod::*;
use vstd::arithmetic::mul::*;
use vstd::arithmetic::power::*;
use vstd::prelude::*;

use super::ciphertexts::{RnsCiphertext, RnsQuadraticCiphertext};
use super::coprime::lemma_inverse_of_product;
use super::keys::RnsSecretKey;
use super::keyswitching::RnsKeySwitchingKey;
use super::polynomial::{is_galois_image, RnsPolynomial};

verus! {

/// Generator of the rotation subgroup of `(Z/2N)^*`.
pub const GALOIS_GENERATOR: usize = 5;

/// The inverse of `x` modulo `m` in `0..m`, when there is one.
pub open spec fn mod_inverse(x: nat, m: nat) -> nat {
    choose|y: nat| y < m && #[trigger] ((y * x) % m) == 1
}

/// The Galois element of a rotation by `steps` slots in degree `n`:
/// `5^steps mod 2n`, or the inverse of `5^-steps` for negative `steps`.
pub open spec fn rotation_element(n: nat, steps: int) -> nat {
    let m = 2 * n;
    let g = (GALOIS_GENERATOR as nat) % m;
    if steps >= 0 {
        pow_mod(g, steps as nat, m)
    } else {
        mod_inverse(pow_mod(g, (-steps) as nat, m), m)
    }
}

/// A rotation key: its Galois element and the key switching back to the
/// original secret.
#[derive(Clone, Debug)]
pub struct RnsRotationKey {
    pub galois_element: usize,
    pub keyswitch_key: RnsKeySwitchingKey,
}

/// An inverse below the modulus is the inverse.
proof fn lemma_mod_inverse_unique(x: nat, m: nat, y: nat)
    requires
        m > 1,
        y < m,
        (y * x) % m == 1,
    ensures
        mod_inverse(x, m) == y,
{
    let z = mod_inverse(x, m);
    assert(y < m && ((y * x) % m) == 1);
    assert(z < m && ((z * x) % m) == 1);
    // z = z * (x * y) = (z * x) * y = y  (mod m)
    lemma_mul_mod_noop_right(z as int, (x * y) as int, m as int);
    lemma_mul_is_commutative(x as int, y as int);
    lemma_mul_is_associative(z as int, x as int, y as int);
    lemma_mul_mod_noop_left((z * x) as int, y as int, m as int);
    lemma_mul_basics(z as int);
    lemma_mul_basics(y as int);
    lemma_small_mod(z, m);
    lemma_small_mod(y, m);
    assert((z as int * ((x * y) as int % m as int)) % m as int == (z as int * 1) % m as int);
    assert(((z * x) as int % m as int * y as int) % m as int == (1 * y as int) % m as int);
}

/// An odd number stays odd modulo an even modulus, and powers of odd numbers are odd.
proof fn lemma_odd_pow_mod(b: nat, e: nat, m: nat)
    requires
        b % 2 == 1,
        m > 0,
        m % 2 == 0,
    ensures
        pow_mod(b, e, m) % 2 == 1,
    decreases e,
{
    lemma_odd_pow(b as int, e);
    lemma_pow_positive(b as int, e);
    lemma_odd_mod_even(pow(b as int, e), m as int);
}

proof fn lemma_odd_pow(b: int, e: nat)
    requires
        b % 2 == 1,
    ensures
        pow(b, e) % 2 == 1,
    decreases e,
{
    reveal(pow);
    if e == 0 {
    } else {
        lemma_odd_pow(b, (e - 1) as nat);
        lemma_mul_mod_noop(b, pow(b, (e - 1) as nat), 2);
    }
}

proof fn lemma_odd_mod_even(x: int, m: int)
    requires
        x % 2 == 1,
        m > 0,
        m % 2 == 0,
    ensures
        (x % m) % 2 == 1,
{
    lemma_fundamental_div_mod(x, m);
    lemma_fundamental_div_mod(m, 2);
    let q = x / m;
    let h = m / 2;
    assert(x == 2 * (h * q) + x % m) by (nonlinear_arith)
        requires
            x == m * q + x % m,
            m == 2 * h + 0,
    ;
    lemma_mod_multiples_vanish(h * q, x % m, 2);
}

/// A value with an inverse modulo an even modulus is odd.
proof fn lemma_invertible_is_odd(r: nat, y: nat, m: nat)
    requires
        m > 1,
        m % 2 == 0,
        (r * y) % m == 1,
    ensures
        r % 2 == 1,
{
    lemma_fundamental_div_mod((r * y) as int, m as int);
    let t = (r * y) as int / m as int;
    let h = m / 2;
    assert(r * y == 2 * (h * t) + 1) by (nonlinear_arith)
        requires
            (r * y) as int == m as int * t + 1,
            m == 2 * h,
    ;
    if r % 2 == 0 {
        lemma_fundamental_div_mod(r as int, 2);
        let k = r as int / 2;
        assert(r * y == 2 * (k * y)) by (nonlinear_arith)
            requires
                r == 2 * k,
        ;
        lemma_mod_multiples_vanish(h * t, 1, 2);
        lemma_mod_multiples_vanish(k * y, 0, 2);
    }
}

/// An odd number has an inverse modulo every power of two from two on.
proof fn lemma_odd_unit(x: nat, m: nat)
    requires
        x % 2 == 1,
        m >= 2,
        is_pow2(m),
    ensures
        exists|y: nat| #[trigger] ((y * x) % m) == 1,
    decreases m,
{
    if m == 2 {
        assert(((1 * x) % 2) == 1);
    } else {
        let h = m / 2;
        assert(m % 2 == 0 && is_pow2(h));
        assert(h >= 2) by {
            if h == 1 {
                assert(m == 2);
            }
            if h == 0 {
                assert(!is_pow2(0));
            }
        }
        lemma_odd_unit(x, h);
        let y0 = choose|y: nat| #[trigger] ((y * x) % h) == 1;
        lemma_fundamental_div_mod((y0 * x) as int, h as int);
        let q = (y0 * x) as int / h as int;
        assert(y0 * x == h * q + 1);
        if q % 2 == 0 {
            let k = q / 2;
            assert(y0 * x == m * k + 1) by (nonlinear_arith)
                requires
                    y0 * x == h * q + 1,
                    q == 2 * k,
                    m == 2 * h,
            ;
            lemma_mod_multiples_vanish(k, 1, m as int);
            lemma_small_mod(1, m);
            assert(((y0 * x) % m) == 1);
        } else {
            let y1: nat = y0 + h;
            assert((q + x) % 2 == 0);
            let k = (q + x) / 2;
            assert(y1 * x == m * k + 1) by (nonlinear_arith)
                requires
                    y0 * x == h * q + 1,
                    q + x == 2 * k,
                    m == 2 * h,
                    y1 == y0 + h,
            ;
            lemma_mod_multiples_vanish(k, 1, m as int);
            lemma_small_mod(1, m);
            assert(((y1 * x) % m) == 1);
        }
    }
}

/// For a power-of-two degree `n` the generator is invertible modulo `2n`, so
/// rotations by negative steps are always defined.
pub proof fn lemma_generator_invertible(n: nat)
    requires
        n >= 1,
        is_pow2(n),
    ensures
        has_inverse((GALOIS_GENERATOR as nat) % (2 * n), 2 * n),
{
    let m = 2 * n;
    assert(is_pow2(m)) by {
        assert(m / 2 == n);
    }
    lemma_odd_unit(GALOIS_GENERATOR as nat, m);
    let y = choose|y: nat| #[trigger] ((y * (GALOIS_GENERATOR as nat)) % m) == 1;
    lemma_mul_mod_noop_right(y as int, GALOIS_GENERATOR as int, m as int);
    assert(((y * ((GALOIS_GENERATOR as nat) % m)) % m) == 1);
}

/// `base^exponent mod modulus`.
fn pow_mod_usize(base: usize, exponent: usize, modulus: usize) -> (r: usize)
    requires
        modulus > 1,
    ensures
        r == pow_mod(base as nat, exponent as nat, modulus as nat),
        r < modulus,
{
    mod_pow(base as u64, exponent as u64, modulus as u64) as usize
}

/// The inverse of `value` modulo `modulus`, when it exists.
pub(crate) fn mod_inv_usize(value: usize, modulus: usize) -> (r: Option<usize>)
    requires
        modulus > 1,
    ensures
        match r {
            Some(x) => x < modulus && (x as nat * value as nat) % modulus as nat == 1,
            None => !has_inverse(value as nat, modulus as nat),
        },
{
    match mod_inv(value as u64, modulus as u64) {
        Some(x) => Some(x as usize),
        None => None,
    }
}

/// The Galois element of a rotation by `steps` slots for degree `poly_degree`.
pub fn galois_element_for_rotation(poly_degree: usize, steps: isize) -> (r: usize)
    requires
        poly_degree > 0,
        2 * poly_degree <= usize::MAX,
        steps > isize::MIN,
        steps < 0 ==> has_inverse((GALOIS_GENERATOR as nat) % (2 * poly_degree as nat), 2 * poly_degree as nat),
    ensures
        r == rotation_element(poly_degree as nat, steps as int),
        r < 2 * poly_degree,
        r % 2 == 1,
{
    let modulus = 2 * poly_degree;
    let generator = GALOIS_GENERATOR % modulus;
    proof {
        lemma_odd_mod_even(GALOIS_GENERATOR as int, modulus as int);
    }
    if steps >= 0 {
        let r = pow_mod_usize(generator, steps as usize, modulus);
        proof {
            lemma_odd_pow_mod(generator as nat, steps as nat, modulus as nat);
        }
        r
    } else {
        let generator_inv = match mod_inv_usize(generator, modulus) {
            Some(x) => x,
            None => {
                proof {
                    assert(false);
                }
                0
            },
        };
        let exponent: usize = (-steps) as usize;
        let r = pow_mod_usize(generator_inv, exponent, modulus);
        proof {
            let m = modulus as int;
            let e = exponent as nat;
            let g = generator as int;
            let gi = generator_inv as int;
            let x = pow_mod(generator as nat, e, modulus as nat);
            // r * g^e = (gi * g)^e = 1 (mod m)
            lemma_mul_mod_noop(pow(gi, e), pow(g, e), m);
            lemma_pow_distributes(gi, g, e);
            lemma_pow_mod_noop(gi * g, e, m);
            lemma1_pow(e);
            lemma_small_mod(1, modulus as nat);
            assert((r as int * x as int) % m == 1);
            lemma_mod_inverse_unique(x, modulus as nat, r as nat);
            lemma_invertible_is_odd(r as nat, x, modulus as nat);
        }
        r
    }
}

impl RnsPolynomial {
    /// The image of the polynomial under the Galois element of a rotation by `steps`.
    pub fn rotate_raw(&self, poly_degree: usize, steps: isize) -> (r: Self)
        requires
            self.wf(),
            poly_degree > 0,
            2 * poly_degree <= usize::MAX,
            steps > isize::MIN,
            steps < 0 ==> has_inverse((GALOIS_GENERATOR as nat) % (2 * poly_degree as nat), 2 * poly_degree as nat),
            self.spec_degree() * (2 * poly_degree) <= usize::MAX,
            2 * self.spec_degree() <= usize::MAX,
        ensures
            is_galois_image(r, *self, rotation_element(poly_degree as nat, steps as int)),
    {
        let g = galois_element_for_rotation(poly_degree, steps);
        proof {
            lemma_mul_inequality(g as int, 2 * poly_degree as int, self.spec_degree() as int);
            lemma_mul_is_commutative(g as int, self.spec_degree() as int);
            lemma_mul_is_commutative(2 * poly_degree as int, self.spec_degree() as int);
        }
        proof {
            crate::poly::lemma_fewer_products(self.spec_degree() as int, g as int);
        }
        self.apply_galois_automorphism(g)
    }
}

impl RnsSecretKey {
    /// The secret under a Galois automorphism.
    pub fn apply_galois_automorphism(&self, galois_element: usize) -> (r: Self)
        requires
            self.poly.wf(),
            galois_element % 2 == 1,
            (self.poly.spec_degree() - 1) * galois_element <= usize::MAX,
            2 * self.poly.spec_degree() <= usize::MAX,
        ensures
            is_galois_image(r.poly, self.poly, galois_element as nat),
    {
        Self::new(self.poly.apply_galois_automorphism(galois_element))
    }

    /// The secret under the Galois element of a rotation by `steps`.
    pub fn rotate_raw(&self, poly_degree: usize, steps: isize) -> (r: Self)
        requires
            self.poly.wf(),
            poly_degree > 0,
            2 * poly_degree <= usize::MAX,
            steps > isize::MIN,
            steps < 0 ==> has_inverse((GALOIS_GENERATOR as nat) % (2 * poly_degree as nat), 2 * poly_degree as nat),
            self.poly.spec_degree() * (2 * poly_degree) <= usize::MAX,
            2 * self.poly.spec_degree() <= usize::MAX,
        ensures
            is_galois_image(r.poly, self.poly, rotation_element(poly_degree as nat, steps as int)),
    {
        let g = galois_element_for_rotation(poly_degree, steps);
        proof {
            lemma_mul_inequality(g as int, 2 * poly_degree as int, self.poly.spec_degree() as int);
            lemma_mul_is_commutative(g as int, self.poly.spec_degree() as int);
            lemma_mul_is_commutative(2 * poly_degree as int, self.poly.spec_degree() as int);
        }
        proof {
            crate::poly::lemma_fewer_products(self.poly.spec_degree() as int, g as int);
        }
        self.apply_galois_automorphism(g)
    }
}

impl RnsCiphertext {
    /// Both components under the Galois element of a rotation by `steps`.
    pub fn rotate_raw(&self, poly_degree: usize, steps: isize) -> (r: Self)
        requires
            self.wf(),
            poly_degree > 0,
            2 * poly_degree <= usize::MAX,
            steps > isize::MIN,
            steps < 0 ==> has_inverse((GALOIS_GENERATOR as nat) % (2 * poly_degree as nat), 2 * poly_degree as nat),
            self.c0.spec_degree() * (2 * poly_degree) <= usize::MAX,
            2 * self.c0.spec_degree() <= usize::MAX,
        ensures
            r.wf(),
            is_galois_image(r.c0, self.c0, rotation_element(poly_degree as nat, steps as int)),
            is_galois_image(r.c1, self.c1, rotation_element(poly_degree as nat, steps as int)),
            r.scale_bits == self.scale_bits,
            r.level == self.level,
    {
        let g = galois_element_for_rotation(poly_degree, steps);
        proof {
            lemma_mul_inequality(g as int, 2 * poly_degree as int, self.c0.spec_degree() as int);
            lemma_mul_is_commutative(g as int, self.c0.spec_degree() as int);
            lemma_mul_is_commutative(2 * poly_degree as int, self.c0.spec_degree() as int);
        }
        proof {
            crate::poly::lemma_fewer_products(self.c0.spec_degree() as int, g as int);
        }
        self.apply_galois_automorphism(g)
    }
}

impl RnsQuadraticCiphertext {
    /// The three components under the Galois element of a rotation by `steps`.
    pub fn rotate_raw(&self, poly_degree: usize, steps: isize) -> (r: Self)
        requires
            self.wf(),
            poly_degree > 0,
            2 * poly_degree <= usize::MAX,
            steps > isize::MIN,
            steps < 0 ==> has_inverse((GALOIS_GENERATOR as nat) % (2 * poly_degree as nat), 2 * poly_degree as nat),
            self.c0.spec_degree() * (2 * poly_degree) <= usize::MAX,
            2 * self.c0.spec_degree() <= usize::MAX,
        ensures
            r.wf(),
            is_galois_image(r.c0, self.c0, rotation_element(poly_degree as nat, steps as int)),
            is_galois_image(r.c1, self.c1, rotation_element(poly_degree as nat, steps as int)),
            is_galois_image(r.c2, self.c2, rotation_element(poly_degree as nat, steps as int)),
            r.scale_bits == self.scale_bits,
            r.level == self.level,
    {
        let g = galois_element_for_rotation(poly_degree, steps);
        proof {
            lemma_mul_inequality(g as int, 2 * poly_degree as int, self.c0.spec_degree() as int);
            lemma_mul_is_commutative(g as int, self.c0.spec_degree() as int);
            lemma_mul_is_commutative(2 * poly_degree as int, self.c0.spec_degree() as int);
        }
        proof {
            crate::poly::lemma_fewer_products(self.c0.spec_degree() as int, g as int);
        }
        self.apply_galois_automorphism(g)
    }
}

/// Powers of an invertible residue are invertible.
proof fn lemma_pow_mod_invertible(g: nat, k: nat, m: nat)
    requires
        m > 1,
        has_inverse(g % m, m),
    ensures
        has_inverse(pow_mod(g, k, m), m),
        pow_mod(g, k, m) < m,
    decreases k,
{
    lemma_mod_bound(pow(g as int, k) as int, m as int);
    if k == 0 {
        assert(pow(g as int, 0) == 1) by {
            lemma_pow0(g as int);
        }
        lemma_small_mod(1, m);
        assert(((1 * 1nat) % m) == 1);
    } else {
        lemma_pow_mod_invertible(g, (k - 1) as nat, m);
        lemma_pow_positive_or_zero(g, (k - 1) as nat);
        let b = pow(g as int, (k - 1) as nat) as nat;
        lemma_mod_twice(b as int, m as int);
        lemma_inverse_of_product(g, b, m);
        assert(pow(g as int, k) == g * pow(g as int, (k - 1) as nat)) by {
            reveal(pow);
        }
    }
}

/// Powers of a natural are naturals.
proof fn lemma_pow_positive_or_zero(g: nat, k: nat)
    ensures
        pow(g as int, k) >= 0,
    decreases k,
{
    reveal(pow);
    if k > 0 {
        lemma_pow_positive_or_zero(g, (k - 1) as nat);
        lemma_mul_nonnegative(g as int, pow(g as int, (k - 1) as nat));
    }
}

/// The chosen inverse of an invertible residue is below the modulus and inverts it.
proof fn lemma_mod_inverse_inverts(x: nat, m: nat)
    requires
        m > 1,
        has_inverse(x, m),
    ensures
        mod_inverse(x, m) < m,
        (mod_inverse(x, m) * x) % m == 1,
{
    let y = choose|y: nat| #[trigger] ((y * x) % m) == 1;
    let z = (y % m) as nat;
    lemma_mod_bound(y as int, m as int);
    lemma_mul_mod_noop_left(y as int, x as int, m as int);
    assert(z < m && ((z * x) % m) == 1);
}

/// Non-negative rotation elements compose: `5^a * 5^b = 5^(a+b)`.
proof fn lemma_elements_add(n: nat, a: nat, b: nat)
    requires
        n >= 1,
    ensures
        (rotation_element(n, a as int) * rotation_element(n, b as int)) % (2 * n) == rotation_element(
            n,
            (a + b) as int,
        ),
{
    let m = 2 * n;
    let g = (GALOIS_GENERATOR as nat) % m;
    lemma_pow_adds(g as int, a, b);
    lemma_mul_mod_noop(pow(g as int, a), pow(g as int, b), m as int);
}

/// The rotation element of `-k` inverts that of `k`.
proof fn lemma_element_negation(n: nat, k: nat)
    requires
        n >= 1,
        has_inverse((GALOIS_GENERATOR as nat) % (2 * n), 2 * n),
    ensures
        (rotation_element(n, -k) * rotation_element(n, k as int)) % (2 * n) == 1,
        rotation_element(n, k as int) < 2 * n,
        rotation_element(n, -k) < 2 * n,
{
    let m = 2 * n;
    let g = (GALOIS_GENERATOR as nat) % m;
    lemma_mod_twice(GALOIS_GENERATOR as int, m as int);
    lemma_pow_mod_invertible(g, k, m);
    if k == 0 {
        lemma_pow0(g as int);
        lemma_small_mod(1, m);
        assert(rotation_element(n, 0) == 1);
        lemma_small_mod(1, m);
    } else {
        lemma_mod_inverse_inverts(pow_mod(g, k, m), m);
    }
}

/// Every rotation element is an odd residue modulo `2n`.
proof fn lemma_element_odd(n: nat, a: int)
    requires
        n >= 1,
        has_inverse((GALOIS_GENERATOR as nat) % (2 * n), 2 * n),
    ensures
        rotation_element(n, a) < 2 * n,
        rotation_element(n, a) % 2 == 1,
{
    let m = 2 * n;
    let g = (GALOIS_GENERATOR as nat) % m;
    lemma_odd_mod_even(GALOIS_GENERATOR as int, m as int);
    if a >= 0 {
        lemma_odd_pow_mod(g, a as nat, m);
        lemma_element_negation(n, a as nat);
    } else {
        let k = (-a) as nat;
        assert(-(k as int) == a);
        lemma_element_negation(n, k);
        lemma_invertible_is_odd(rotation_element(n, -k), rotation_element(n, k as int), m);
    }
}

/// Rotation elements compose like the steps they rotate by: the element of
/// `a` times that of `b` is, modulo `2n`, the element of `a + b`; the element
/// of no rotation is one.
pub proof fn lemma_rotation_elements_compose(n: nat, a: int, b: int)
    requires
        n >= 1,
        is_pow2(n),
    ensures
        (rotation_element(n, a) * rotation_element(n, b)) % (2 * n) == rotation_element(n, a + b),
        rotation_element(n, 0) == 1,
        rotation_element(n, a) < 2 * n,
        rotation_element(n, a) % 2 == 1,
{
    let m = 2 * n;
    lemma_generator_invertible(n);
    lemma_element_odd(n, a);
    lemma_element_negation(n, 0);
    assert(rotation_element(n, 0) == 1) by {
        lemma_pow0(((GALOIS_GENERATOR as nat) % m) as int);
        lemma_small_mod(1, m);
    }
    if a >= 0 && b >= 0 {
        lemma_elements_add(n, a as nat, b as nat);
    } else if a < 0 && b >= 0 {
        lemma_mul_is_commutative(rotation_element(n, a) as int, rotation_element(n, b) as int);
        lemma_mixed(n, b as nat, (-a) as nat);
    } else if a >= 0 && b < 0 {
        lemma_mixed(n, a as nat, (-b) as nat);
    } else {
        lemma_both_negative(n, (-a) as nat, (-b) as nat);
    }
}

/// `x` and `y` below `m`, congruent modulo `m`, are equal.
proof fn lemma_congruent_small(x: int, y: int, m: int)
    requires
        m > 0,
        0 <= x < m,
        0 <= y < m,
        x % m == y % m,
    ensures
        x == y,
{
    lemma_small_mod(x as nat, m as nat);
    lemma_small_mod(y as nat, m as nat);
}

/// `5^p * 5^-q = 5^(p - q)` modulo `2n`.
proof fn lemma_mixed(n: nat, p: nat, q: nat)
    requires
        n >= 1,
        has_inverse((GALOIS_GENERATOR as nat) % (2 * n), 2 * n),
    ensures
        (rotation_element(n, p as int) * rotation_element(n, -q)) % (2 * n) == rotation_element(n, p - q),
{
    let m = (2 * n) as int;
    let ep = rotation_element(n, p as int) as int;
    let eq = rotation_element(n, q as int) as int;
    let iq = rotation_element(n, -q) as int;
    lemma_element_negation(n, q);
    if p >= q {
        let d = (p - q) as nat;
        let ed = rotation_element(n, d as int) as int;
        lemma_element_negation(n, d);
        lemma_elements_add(n, d, q);
        // ep == (ed * eq) % m, so ep * iq == ed * (eq * iq) == ed (mod m)
        lemma_mul_mod_noop_left(ed * eq, iq, m);
        lemma_mul_is_associative(ed, eq, iq);
        lemma_mul_is_commutative(eq, iq);
        lemma_mul_mod_noop_right(ed, eq * iq, m);
        assert(((ed * eq) % m) * iq % m == (ep * iq) % m);
        assert((ed * 1) % m == ed % m);
        lemma_small_mod(ed as nat, m as nat);
        lemma_mod_bound(ep * iq, m);
    } else {
        let d = (q - p) as nat;
        let ed = rotation_element(n, d as int) as int;
        let id = rotation_element(n, -d) as int;
        lemma_element_negation(n, d);
        lemma_elements_add(n, p, d);
        // eq == (ep * ed) % m; (ep * iq) * ed == iq * eq == 1 (mod m)
        let x = (ep * iq) % m;
        lemma_mod_bound(ep * iq, m);
        lemma_mul_mod_noop_left(ep * iq, ed, m);
        lemma_mul_is_associative(ep, iq, ed);
        lemma_mul_is_commutative(iq, ed);
        lemma_mul_is_associative(ep, ed, iq);
        lemma_mul_mod_noop_left(ep * ed, iq, m);
        lemma_mul_is_commutative(eq, iq);
        assert((x * ed) % m == 1);
        // x is then the inverse of ed, as id is
        lemma_mul_mod_noop_left(x * ed, id, m);
        lemma_mul_is_associative(x, ed, id);
        lemma_mul_is_commutative(ed, id);
        lemma_mul_mod_noop_right(x, id * ed, m);
        lemma_mul_mod_noop_left(1, id, m);
        lemma_small_mod(id as nat, m as nat);
        lemma_small_mod(x as nat, m as nat);
        assert((x * 1) % m == x);
    }
}

/// `5^-p * 5^-q = 5^-(p + q)` modulo `2n`.
proof fn lemma_both_negative(n: nat, p: nat, q: nat)
    requires
        n >= 1,
        has_inverse((GALOIS_GENERATOR as nat) % (2 * n), 2 * n),
    ensures
        (rotation_element(n, -p) * rotation_element(n, -q)) % (2 * n) == rotation_element(n, -p - q),
{
    let m = (2 * n) as int;
    let ip = rotation_element(n, -p) as int;
    let iq = rotation_element(n, -q) as int;
    let ep = rotation_element(n, p as int) as int;
    let eq = rotation_element(n, q as int) as int;
    let s = (p + q) as nat;
    let es = rotation_element(n, s as int) as int;
    let is = rotation_element(n, -s) as int;
    lemma_element_negation(n, p);
    lemma_element_negation(n, q);
    lemma_element_negation(n, s);
    lemma_elements_add(n, p, q);
    let x = (ip * iq) % m;
    lemma_mod_bound(ip * iq, m);
    // x * es == (ip * ep) * (iq * eq) == 1 (mod m)
    lemma_mul_mod_noop(ip * iq, ep * eq, m);
    assert((ip * iq) * (ep * eq) == (ip * ep) * (iq * eq)) by (nonlinear_arith);
    lemma_mul_mod_noop((ip * ep), (iq * eq), m);
    lemma_small_mod(1, m as nat);
    assert(((ip * ep) % m) * ((iq * eq) % m) == 1);
    assert(es == (ep * eq) % m);
    assert((x * es) % m == 1);
    // so x is the inverse of es, as is
    lemma_mul_mod_noop_left(x * es, is, m);
    lemma_mul_is_associative(x, es, is);
    lemma_mul_is_commutative(es, is);
    lemma_mul_mod_noop_right(x, is * es, m);
    lemma_mul_mod_noop_left(1, is, m);
    lemma_small_mod(is as nat, m as nat);
    lemma_small_mod(x as nat, m as nat);
    assert((x * 1) % m == x);
}

/// Rotating by `steps` and then by `-steps` gives back the polynomial:
/// the image of the image under the two rotation elements is, residue by
/// residue, the polynomial itself.
pub proof fn lemma_rotate_back(p: RnsPolynomial, rotated: RnsPolynomial, back: RnsPolynomial, n: nat, steps: int)
    requires
        p.wf(),
        p.spec_degree() == n,
        n >= 1,
        is_pow2(n),
        is_galois_image(rotated, p, rotation_element(n, steps)),
        is_galois_image(back, rotated, rotation_element(n, -steps)),
    ensures
        back.spec_levels() == p.spec_levels(),
        forall|l: int, k: int| 0 <= l < p.spec_levels() && 0 <= k < n ==> #[trigger] back.coeff(l, k) == p.coeff(l, k),
{
    let g = rotation_element(n, steps);
    let h = rotation_element(n, -steps);
    lemma_rotation_elements_compose(n, steps, -steps);
    assert(((g * h) as int) % (2 * n as int) == 1);
    assert forall|l: int, k: int| 0 <= l < p.spec_levels() && 0 <= k < n implies #[trigger] back.coeff(l, k) == p.coeff(
        l,
        k,
    ) by {
        let a = p.residue_coeffs()[l];
        let b = rotated.residue_coeffs()[l];
        let c = back.residue_coeffs()[l];
        let q = p.spec_moduli()[l] as nat;
        assert(p.spec_residues()[l].wf());
        assert(p.spec_residues()[l].spec_degree() == n);
        assert(rotated.spec_residues()[l].compatible(&p.spec_residues()[l]));
        assert(back.spec_residues()[l].compatible(&rotated.spec_residues()[l]));
        assert(a.len() == n);
        assert(b.len() == n);
        assert(c.len() == n);
        assert(rotated.spec_moduli()[l] == p.spec_moduli()[l]);
        assert forall|i: int| 0 <= i < a.len() implies #[trigger] a[i] < q by {
            assert(a[i] == p.spec_residues()[l].spec_coeffs()[i]);
        }
        assert forall|j: int| 0 <= j < a.len() implies #[trigger] b[j] as int == crate::poly::galois_coeff(a, g, q, j) by {
            assert(rotated.coeff(l, j) == b[j]);
        }
        assert forall|j: int| 0 <= j < a.len() implies #[trigger] c[j] as int == crate::poly::galois_coeff(b, h, q, j) by {
            assert(back.coeff(l, j) == c[j]);
        }
        lemma_galois_inverse(a, b, c, g, h, q);
        assert(c[k] == a[k]);
        assert(back.coeff(l, k) == c[k]);
        assert(p.coeff(l, k) == a[k]);
    }
}

} // verus!
