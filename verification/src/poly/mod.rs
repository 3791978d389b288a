//! Modular polynomial arithmetic in `Z_q[X]/(X^n + 1)` built on top of an NTT plan.

use crate::math::dft::{
    cyclic_coeff,
    dft,
    lemma_dft_round_trip_reverse,
    lemma_sum_add,
    scaled_transform,
    transform,
    lemma_cyclic_convolution,
    lemma_sum_ext,
    lemma_sum_single,
    lemma_sum_swap,
    lemma_sum_zero,
    lemma_sum_congruent,
    lemma_sum_scale,
    lemma_unit_power,
    pointwise_product,
    sum_to,
};
use crate::math::ntt::NttPlan;
use vstd::arithmetic::div_mod::*;
use vstd::arithmetic::mul::*;
use vstd::arithmetic::power::*;
use vstd::prelude::*;

verus! {

/// Coefficient `k` of the image of `a` under `X -> X^g` in `Z[X]/(X^n + 1)`,
/// counting only the source coefficients below `upto` (before reduction mod `q`).
pub open spec fn galois_partial(a: Seq<u64>, g: nat, k: int, upto: nat) -> int
    decreases upto,
{
    if upto == 0 {
        0
    } else {
        let i = (upto - 1) as nat;
        let n = a.len();
        let mapped = ((i * g) % (2 * n)) as int;
        galois_partial(a, g, k, i) + if mapped == k {
            a[i as int] as int
        } else if mapped == k + n {
            -(a[i as int] as int)
        } else {
            0
        }
    }
}

/// One factor fewer gives no larger a product: `(n - 1) * g <= n * g`.
pub proof fn lemma_fewer_products(n: int, g: int)
    requires
        g >= 0,
    ensures
        (n - 1) * g <= n * g,
{
    assert((n - 1) * g == n * g - g) by (nonlinear_arith);
}

/// Coefficient `k` of `a(X^g)` reduced modulo `X^n + 1` and modulo `q`.
pub open spec fn galois_coeff(a: Seq<u64>, g: nat, q: nat, k: int) -> int {
    galois_partial(a, g, k, a.len()) % (q as int)
}

/// The `k`-th coefficient of the negacyclic product `a * b` in `Z[X]/(X^n + 1)`
/// restricted to the terms `a_i b_j` with `i < upto` (before reduction mod `q`).
pub open spec fn negacyclic_partial(a: Seq<u64>, b: Seq<u64>, k: int, upto: nat) -> int
    decreases upto,
{
    if upto == 0 {
        0
    } else {
        let i = (upto - 1) as int;
        let n = a.len() as int;
        negacyclic_partial(a, b, k, (upto - 1) as nat) + if i <= k {
            (a[i] as int) * (b[k - i] as int)
        } else {
            -((a[i] as int) * (b[n + k - i] as int))
        }
    }
}

/// Coefficient `k` of the product `a * b` in `Z_q[X]/(X^n + 1)`.
pub open spec fn negacyclic_coeff(a: Seq<u64>, b: Seq<u64>, q: nat, k: int) -> int {
    negacyclic_partial(a, b, k, a.len()) % (q as int)
}

/// Term `i` of [`negacyclic_partial`]: `a_i b_(k-i)` when `i <= k`, and
/// `-a_i b_(n+k-i)` (the wrap through `X^n = -1`) otherwise.
pub open spec fn negacyclic_term(a: Seq<u64>, b: Seq<u64>, k: int, i: int) -> int {
    if i <= k {
        (a[i] as int) * (b[k - i] as int)
    } else {
        -((a[i] as int) * (b[a.len() + k - i] as int))
    }
}

/// `negacyclic_partial` is the sum of its terms.
proof fn lemma_negacyclic_as_sum(a: Seq<u64>, b: Seq<u64>, k: int, upto: nat)
    ensures
        negacyclic_partial(a, b, k, upto) == sum_to(|i: int| negacyclic_term(a, b, k, i), upto),
    decreases upto,
{
    if upto > 0 {
        lemma_negacyclic_as_sum(a, b, k, (upto - 1) as nat);
    }
}

/// `a` with coefficient `i` multiplied by `psi^i`, reduced modulo `m`.
pub open spec fn twisted(a: Seq<u64>, psi: int, m: int) -> Seq<u64> {
    Seq::new(a.len(), |i: int| ((a[i] as int * pow(psi, i as nat)) % m) as u64)
}

/// The cyclic convolution of the twisted sequences is the negacyclic product
/// twisted once more: with `psi^n = -1 (mod m)`, entry `t` is
/// `psi^t * (a * b)_t` modulo `m`.
proof fn lemma_twisted_cyclic(a: Seq<u64>, b: Seq<u64>, psi: int, m: int, t: int)
    requires
        m > 1,
        m <= u64::MAX + 1,
        a.len() == b.len(),
        a.len() > 0,
        0 <= t < a.len(),
        pow(psi, a.len()) % m == m - 1,
    ensures
        cyclic_coeff(twisted(a, psi, m), twisted(b, psi, m), t) % m == (pow(psi, t as nat) * negacyclic_partial(
            a,
            b,
            t,
            a.len(),
        )) % m,
{
    let n = a.len();
    let x = twisted(a, psi, m);
    let y = twisted(b, psi, m);
    let pt = pow(psi, t as nat);
    let cyc = |j: int| x[j] as int * y[(t - j) % (x.len() as int)] as int;
    let negt = |j: int| negacyclic_term(a, b, t, j);
    let neg = |j: int| pt * negt(j);
    assert forall|j: int| 0 <= j < n implies #[trigger] cyc(j) % m == neg(j) % m by {
        let l = (t - j) % (n as int);
        lemma_mod_bound(t - j, n as int);
        let aj = a[j] as int;
        let bl = b[l] as int;
        let pj = pow(psi, j as nat);
        let pl = pow(psi, l as nat);
        lemma_mod_bound(aj * pj, m);
        lemma_mod_bound(bl * pl, m);
        lemma_mod_twice(aj * pj, m);
        lemma_mod_twice(bl * pl, m);
        assert(x[j] as int == (aj * pj) % m);
        assert(y[l] as int == (bl * pl) % m);
        lemma_mul_congruent(x[j] as int, y[l] as int, aj * pj, bl * pl, m);
        assert((aj * pj) * (bl * pl) == (aj * bl) * (pj * pl)) by (nonlinear_arith);
        lemma_pow_adds(psi, j as nat, l as nat);
        if j <= t {
            lemma_small_mod((t - j) as nat, n);
            assert(l == t - j);
            assert(neg(j) == pt * (aj * bl));
            lemma_mul_is_commutative(aj * bl, pt);
        } else {
            lemma_fundamental_div_mod_converse(t - j, n as int, -1, t - j + n);
            assert(l == t - j + n);
            // psi^(n + t) = -psi^t (mod m)
            lemma_pow_adds(psi, n, t as nat);
            assert((-1int) % m == m - 1) by {
                lemma_fundamental_div_mod_converse(-1, m, -1, m - 1);
            }
            lemma_mul_congruent(pow(psi, n), pt, -1, pt, m);
            lemma_mul_congruent(aj * bl, pow(psi, (n + t) as nat), aj * bl, -1 * pt, m);
            assert(neg(j) == pt * (-(aj * bl)));
            assert((aj * bl) * (-1 * pt) == pt * (-(aj * bl))) by (nonlinear_arith);
        }
    }
    lemma_sum_congruent(cyc, neg, n, m);
    lemma_sum_scale(negt, pt, n);
    lemma_negacyclic_as_sum(a, b, t, n);
}

/// The twisted transform `NTT(psi^i a_i)` of `a` under `plan`.
pub open spec fn twisted_transform(a: Seq<u64>, plan: NttPlan) -> Seq<u64> {
    transform(
        twisted(a, plan.spec_twiddle() as int, plan.spec_modulus() as int),
        plan.spec_root() as int,
        plan.spec_modulus() as int,
    )
}

/// Back from the twisted transform domain: `psi^-i * NTT^{-1}(p)_i`.
pub open spec fn untwisted_inverse(p: Seq<u64>, plan: NttPlan) -> Seq<u64> {
    twisted(
        scaled_transform(p, plan.spec_root_inv() as int, plan.spec_size_inv() as int, plan.spec_modulus() as int),
        plan.spec_twiddle_inv() as int,
        plan.spec_modulus() as int,
    )
}

/// The coefficients of `a * b` in `Z_q[X]/(X^n + 1)`.
pub open spec fn negacyclic_seq(a: Seq<u64>, b: Seq<u64>, q: nat) -> Seq<u64> {
    Seq::new(a.len(), |k: int| negacyclic_coeff(a, b, q, k) as u64)
}

/// Every entry is below `m`.
pub open spec fn reduced(a: Seq<u64>, m: nat) -> bool {
    forall|i: int| 0 <= i < a.len() ==> #[trigger] a[i] < m
}

/// The negacyclic product through the transforms: untwist the inverse
/// transform of the entrywise product of the twisted transforms.
pub proof fn lemma_product_by_transforms(plan: NttPlan, a: Seq<u64>, b: Seq<u64>)
    requires
        plan.wf(),
        a.len() == plan.spec_size(),
        b.len() == plan.spec_size(),
    ensures
        negacyclic_seq(a, b, plan.spec_modulus()) == untwisted_inverse(
            pointwise_product(twisted_transform(a, plan), twisted_transform(b, plan), plan.spec_modulus() as int),
            plan,
        ),
{
    plan.lemma_plan_facts();
    let m = plan.spec_modulus() as int;
    let n = a.len();
    let psi = plan.spec_twiddle() as int;
    let psi_inv = plan.spec_twiddle_inv() as int;
    let x = twisted(a, psi, m);
    let y = twisted(b, psi, m);
    let w = plan.spec_root() as int;
    let wi = plan.spec_root_inv() as int;
    let ni = plan.spec_size_inv() as int;
    let conv = scaled_transform(pointwise_product(transform(x, w, m), transform(y, w, m), m), wi, ni, m);
    let out = twisted(conv, psi_inv, m);
    assert forall|t: int| 0 <= t < n implies #[trigger] out[t] == negacyclic_seq(a, b, m as nat)[t] by {
        lemma_cyclic_convolution(x, y, w, wi, ni, m, t);
        lemma_twisted_cyclic(a, b, psi, m, t);
        let np = negacyclic_partial(a, b, t, a.len());
        let pt = pow(psi, t as nat);
        let pit = pow(psi_inv, t as nat);
        lemma_mod_twice(cyclic_coeff(x, y, t), m);
        lemma_mul_congruent(conv[t] as int, pit, pt * np, pit, m);
        lemma_unit_power(psi, psi_inv, t as nat, m);
        assert((pt * np) * pit == (pt * pit) * np) by (nonlinear_arith);
        lemma_small_mod(1, m as nat);
        lemma_mul_congruent(pt * pit, np, 1, np, m);
        lemma_mul_basics(np);
        lemma_mod_bound(np, m);
        lemma_mod_bound(conv[t] as int * pit, m);
    }
    assert(out =~= negacyclic_seq(a, b, m as nat));
}

/// The twisted transform of a product is the entrywise product of the
/// twisted transforms.
pub proof fn lemma_transform_of_product(plan: NttPlan, a: Seq<u64>, b: Seq<u64>)
    requires
        plan.wf(),
        a.len() == plan.spec_size(),
        b.len() == plan.spec_size(),
    ensures
        twisted_transform(negacyclic_seq(a, b, plan.spec_modulus()), plan) == pointwise_product(
            twisted_transform(a, plan),
            twisted_transform(b, plan),
            plan.spec_modulus() as int,
        ),
{
    plan.lemma_plan_facts();
    lemma_product_by_transforms(plan, a, b);
    let m = plan.spec_modulus() as int;
    let n = a.len();
    let psi = plan.spec_twiddle() as int;
    let psi_inv = plan.spec_twiddle_inv() as int;
    let w = plan.spec_root() as int;
    let wi = plan.spec_root_inv() as int;
    let ni = plan.spec_size_inv() as int;
    let p = pointwise_product(twisted_transform(a, plan), twisted_transform(b, plan), m);
    let conv = scaled_transform(p, wi, ni, m);
    // twisting the untwisted values back gives the inverse transform itself
    let back = twisted(twisted(conv, psi_inv, m), psi, m);
    assert forall|t: int| 0 <= t < n implies #[trigger] back[t] == conv[t] by {
        let c = conv[t] as int;
        let pit = pow(psi_inv, t as nat);
        let pt = pow(psi, t as nat);
        lemma_mod_bound(ni * dft(p, wi, t), m);
        lemma_mod_bound(c * pit, m);
        lemma_mod_twice(c * pit, m);
        lemma_mul_congruent((c * pit) % m, pt, c * pit, pt, m);
        assert((c * pit) * pt == c * (pt * pit)) by (nonlinear_arith);
        lemma_unit_power(psi, psi_inv, t as nat, m);
        lemma_small_mod(1, m as nat);
        lemma_mul_congruent(c, pt * pit, c, 1, m);
        lemma_small_mod(c as nat, m as nat);
        lemma_mod_bound(((c * pit) % m) * pt, m);
    }
    assert(back =~= conv);
    assert forall|j: int| 0 <= j < n implies #[trigger] p[j] < m by {
        lemma_mod_bound(twisted_transform(a, plan)[j] as int * twisted_transform(b, plan)[j] as int, m);
    }
    lemma_dft_round_trip_reverse(p, w, wi, ni, m);
}

/// The negacyclic product is associative.
pub proof fn lemma_negacyclic_associative(plan: NttPlan, a: Seq<u64>, b: Seq<u64>, c: Seq<u64>)
    requires
        plan.wf(),
        a.len() == plan.spec_size(),
        b.len() == plan.spec_size(),
        c.len() == plan.spec_size(),
    ensures
        negacyclic_seq(negacyclic_seq(a, b, plan.spec_modulus()), c, plan.spec_modulus()) == negacyclic_seq(
            a,
            negacyclic_seq(b, c, plan.spec_modulus()),
            plan.spec_modulus(),
        ),
{
    plan.lemma_plan_facts();
    let m = plan.spec_modulus();
    let ab = negacyclic_seq(a, b, m);
    let bc = negacyclic_seq(b, c, m);
    lemma_product_by_transforms(plan, ab, c);
    lemma_product_by_transforms(plan, a, bc);
    lemma_transform_of_product(plan, a, b);
    lemma_transform_of_product(plan, b, c);
    let ta = twisted_transform(a, plan);
    let tb = twisted_transform(b, plan);
    let tc = twisted_transform(c, plan);
    let left = pointwise_product(pointwise_product(ta, tb, m as int), tc, m as int);
    let right = pointwise_product(ta, pointwise_product(tb, tc, m as int), m as int);
    assert forall|k: int| 0 <= k < ta.len() implies #[trigger] left[k] == right[k] by {
        let x = ta[k] as int;
        let y = tb[k] as int;
        let z = tc[k] as int;
        lemma_mod_bound(x * y, m as int);
        lemma_mod_bound(y * z, m as int);
        lemma_mod_twice(x * y, m as int);
        lemma_mod_twice(y * z, m as int);
        lemma_mul_congruent((x * y) % (m as int), z, x * y, z, m as int);
        lemma_mul_congruent(x, (y * z) % (m as int), x, y * z, m as int);
        lemma_mul_is_associative(x, y, z);
        lemma_mod_bound(((x * y) % (m as int)) * z, m as int);
        lemma_mod_bound(x * ((y * z) % (m as int)), m as int);
    }
    assert(left =~= right);
}

/// Each coefficient of the negacyclic product is symmetric in its factors.
pub proof fn lemma_negacyclic_coeff_commutative(a: Seq<u64>, b: Seq<u64>, q: nat, k: int)
    requires
        a.len() == b.len(),
        0 <= k < a.len(),
    ensures
        negacyclic_coeff(a, b, q, k) == negacyclic_coeff(b, a, q, k),
{
    lemma_negacyclic_as_grid(a, b, k);
    lemma_negacyclic_as_grid(b, a, k);
    lemma_double_sum_symmetric(a, b, k);
}

/// The negacyclic product is commutative.
pub proof fn lemma_negacyclic_commutative(a: Seq<u64>, b: Seq<u64>, q: nat)
    requires
        a.len() == b.len(),
    ensures
        negacyclic_seq(a, b, q) == negacyclic_seq(b, a, q),
{
    assert forall|k: int| 0 <= k < a.len() implies #[trigger] negacyclic_seq(a, b, q)[k] == negacyclic_seq(b, a, q)[k] by {
        lemma_negacyclic_as_grid(a, b, k);
        lemma_negacyclic_as_grid(b, a, k);
        lemma_double_sum_symmetric(a, b, k);
    }
    assert(negacyclic_seq(a, b, q) =~= negacyclic_seq(b, a, q));
}

/// Raw negacyclic sums do not depend on the order of the factors.
pub proof fn lemma_negacyclic_partial_symmetric(a: Seq<u64>, b: Seq<u64>, k: int)
    requires
        a.len() == b.len(),
        0 <= k < a.len(),
    ensures
        negacyclic_partial(a, b, k, a.len()) == negacyclic_partial(b, a, k, b.len()),
{
    lemma_negacyclic_as_grid(a, b, k);
    lemma_negacyclic_as_grid(b, a, k);
    lemma_double_sum_symmetric(a, b, k);
}

/// An entry of [`negacyclic_seq`] is the reduced raw sum.
pub proof fn lemma_negacyclic_seq_entry(a: Seq<u64>, b: Seq<u64>, q: nat, k: int)
    requires
        0 < q <= u64::MAX + 1,
        0 <= k < a.len(),
    ensures
        negacyclic_seq(a, b, q)[k] as int == negacyclic_partial(a, b, k, a.len()) % (q as int),
        negacyclic_seq(a, b, q)[k] < q,
{
    lemma_mod_bound(negacyclic_partial(a, b, k, a.len()), q as int);
}

/// The negacyclic product is linear in its first factor modulo `q`: if
/// `a = x + c*y (mod q)` entrywise then `a*z = x*z + c*(y*z) (mod q)`.
pub proof fn lemma_negacyclic_linear(a: Seq<u64>, x: Seq<u64>, y: Seq<u64>, z: Seq<u64>, c: int, q: nat, k: int)
    requires
        q > 0,
        a.len() == x.len(),
        a.len() == y.len(),
        a.len() == z.len(),
        0 <= k < a.len(),
        forall|i: int| 0 <= i < a.len() ==> #[trigger] (a[i] as int) % (q as int) == (x[i] + c * y[i]) % (q as int),
    ensures
        negacyclic_partial(a, z, k, a.len()) % (q as int) == (negacyclic_partial(x, z, k, a.len()) + c
            * negacyclic_partial(y, z, k, a.len())) % (q as int),
{
    let n = a.len();
    let qi = q as int;
    lemma_negacyclic_as_grid(a, z, k);
    lemma_negacyclic_as_grid(x, z, k);
    lemma_negacyclic_as_grid(y, z, k);
    let rx = |i: int| dense_row(x, z, i, k);
    let ry = |i: int| dense_row(y, z, i, k);
    assert forall|i: int| 0 <= i < n implies #[trigger] dense_row(a, z, i, k) % qi == (rx(i) + c * ry(i)) % qi by {
        let fa = |j: int| term_contrib(i, a[i] as int, j, z[j] as int, k, a.len() as int);
        let fx = |j: int| term_contrib(i, x[i] as int, j, z[j] as int, k, x.len() as int);
        let fy = |j: int| term_contrib(i, y[i] as int, j, z[j] as int, k, y.len() as int);
        assert forall|j: int| 0 <= j < n implies #[trigger] fa(j) % qi == (fx(j) + c * fy(j)) % qi by {
            let zj = z[j] as int;
            lemma_mul_congruent(a[i] as int, zj, x[i] + c * y[i], zj, qi);
            assert((x[i] + c * y[i]) * zj == x[i] * zj + c * (y[i] * zj)) by (nonlinear_arith);
            assert(-((x[i] + c * y[i]) * zj) == -(x[i] * zj) + c * (-(y[i] * zj))) by (nonlinear_arith);
            assert(-((a[i] as int) * zj) % qi == -((x[i] + c * y[i]) * zj) % qi) by {
                lemma_mul_unary_negation(a[i] as int, zj);
                lemma_mul_unary_negation(x[i] + c * y[i], zj);
                lemma_mul_congruent(-1, (a[i] as int) * zj, -1, (x[i] + c * y[i]) * zj, qi);
                lemma_mul_unary_negation(1, (a[i] as int) * zj);
                lemma_mul_unary_negation(1, (x[i] + c * y[i]) * zj);
            }
            lemma_mul_basics(c);
            lemma_small_mod(0, q);
        }
        let cfy = |j: int| c * fy(j);
        lemma_sum_congruent(fa, |j: int| fx(j) + cfy(j), a.len(), qi);
        lemma_sum_scale(fy, c, y.len());
        lemma_sum_add(fx, cfy, x.len());
    }
    let cry = |i: int| c * ry(i);
    lemma_sum_congruent(|i: int| dense_row(a, z, i, k), |i: int| rx(i) + cry(i), a.len(), qi);
    lemma_sum_scale(ry, c, y.len());
    lemma_sum_add(rx, cry, x.len());
}

/// `(a*b) % m` only depends on `a % m` and `b % m`.
proof fn lemma_mul_congruent(a: int, b: int, c: int, d: int, m: int)
    requires
        m > 0,
        a % m == c % m,
        b % m == d % m,
    ensures
        (a * b) % m == (c * d) % m,
{
    lemma_mul_mod_noop(a, b, m);
    lemma_mul_mod_noop(c, d, m);
}

/// A polynomial with coefficients reduced modulo a fixed integer modulus.
#[derive(Clone, Debug, PartialEq, Eq)]
pub struct ModularPolynomial {
    coeffs: Vec<u64>,
    modulus: u64,
}

impl View for ModularPolynomial {
    type V = (Seq<u64>, nat);

    /// The coefficients and the modulus.
    open spec fn view(&self) -> (Seq<u64>, nat) {
        (self.spec_coeffs(), self.spec_modulus())
    }
}

impl ModularPolynomial {
    /// The coefficients, lowest degree first.
    pub closed spec fn spec_coeffs(&self) -> Seq<u64> {
        self.coeffs@
    }

    /// The coefficient modulus.
    pub closed spec fn spec_modulus(&self) -> nat {
        self.modulus as nat
    }

    /// Number of coefficients.
    pub open spec fn spec_degree(&self) -> nat {
        self.spec_coeffs().len()
    }

    /// Every coefficient is reduced modulo a modulus above one.
    pub open spec fn wf(&self) -> bool {
        &&& self.spec_modulus() > 1
        &&& forall|i: int| 0 <= i < self.spec_degree() ==> #[trigger] self.spec_coeffs()[i] < self.spec_modulus()
    }

    /// Same modulus and same number of coefficients.
    pub open spec fn compatible(&self, other: &Self) -> bool {
        &&& self.spec_modulus() == other.spec_modulus()
        &&& self.spec_degree() == other.spec_degree()
    }

    /// Create a polynomial from raw coefficients and reduce them modulo `modulus`.
    pub fn new(coeffs: Vec<u64>, modulus: u64) -> (r: Self)
        requires
            modulus > 1,
        ensures
            r.wf(),
            r.spec_modulus() == modulus,
            r.spec_degree() == coeffs@.len(),
            forall|i: int| 0 <= i < coeffs@.len() ==> #[trigger] r.spec_coeffs()[i] == coeffs@[i] % modulus,
    {
        let mut reduced: Vec<u64> = Vec::with_capacity(coeffs.len());
        let mut index: usize = 0;
        while index < coeffs.len()
            invariant
                modulus > 1,
                index <= coeffs@.len(),
                reduced@.len() == index,
                forall|i: int| 0 <= i < index ==> #[trigger] reduced@[i] == coeffs@[i] % modulus,
            decreases coeffs@.len() - index,
        {
            reduced.push(coeffs[index] % modulus);
            index += 1;
        }
        Self { coeffs: reduced, modulus }
    }

    /// Create a zero polynomial of a fixed degree.
    pub fn zero(degree: usize, modulus: u64) -> (r: Self)
        requires
            modulus > 1,
        ensures
            r.wf(),
            r.spec_modulus() == modulus,
            r.spec_degree() == degree,
            forall|i: int| 0 <= i < degree ==> #[trigger] r.spec_coeffs()[i] == 0,
    {
        let zeros = vec![0u64; degree];
        let r = Self::new(zeros, modulus);
        proof {
            assert forall|i: int| 0 <= i < degree implies #[trigger] r.spec_coeffs()[i] == 0 by {
                assert(zeros@[i] == 0);
            }
        }
        r
    }

    /// An exact copy.
    pub fn duplicate(&self) -> (r: Self)
        ensures
            r@ == self@,
    {
        let mut coeffs: Vec<u64> = Vec::with_capacity(self.coeffs.len());
        let mut index: usize = 0;
        while index < self.coeffs.len()
            invariant
                index <= self.coeffs@.len(),
                coeffs@ == self.coeffs@.subrange(0, index as int),
            decreases self.coeffs@.len() - index,
        {
            coeffs.push(self.coeffs[index]);
            index += 1;
            proof {
                assert(coeffs@ =~= self.coeffs@.subrange(0, index as int));
            }
        }
        proof {
            assert(coeffs@ =~= self.coeffs@);
        }
        Self { coeffs, modulus: self.modulus }
    }

    pub fn coeffs(&self) -> (r: &[u64])
        ensures
            r@ == self.spec_coeffs(),
    {
        self.coeffs.as_slice()
    }

    pub fn degree(&self) -> (r: usize)
        ensures
            r == self.spec_degree(),
    {
        self.coeffs.len()
    }

    pub fn modulus(&self) -> (r: u64)
        ensures
            r == self.spec_modulus(),
    {
        self.modulus
    }

    /// Coefficient-wise addition modulo `modulus`.
    pub fn add(&self, other: &Self) -> (r: Self)
        requires
            self.wf(),
            other.wf(),
            self.compatible(other),
        ensures
            r.wf(),
            r.compatible(self),
            forall|i: int|
                0 <= i < self.spec_degree() ==> #[trigger] r.spec_coeffs()[i] == (self.spec_coeffs()[i]
                    + other.spec_coeffs()[i]) % (self.spec_modulus() as int),
    {
        let n = self.coeffs.len();
        let mut coeffs: Vec<u64> = Vec::with_capacity(n);
        let mut index: usize = 0;
        while index < n
            invariant
                self.wf(),
                other.wf(),
                self.compatible(other),
                n == self.coeffs@.len(),
                index <= n,
                coeffs@.len() == index,
                forall|i: int|
                    0 <= i < index ==> #[trigger] coeffs@[i] == (self.coeffs@[i] + other.coeffs@[i])
                        % (self.modulus as int),
            decreases n - index,
        {
            assert(self.spec_coeffs()[index as int] < self.spec_modulus());
            assert(other.spec_coeffs()[index as int] < other.spec_modulus());
            coeffs.push(add_mod(self.coeffs[index], other.coeffs[index], self.modulus));
            index += 1;
        }
        let r = Self::new(coeffs, self.modulus);
        proof {
            assert forall|i: int| 0 <= i < n implies #[trigger] r.spec_coeffs()[i] == (
            self.spec_coeffs()[i] + other.spec_coeffs()[i]) % (self.spec_modulus() as int) by {
                lemma_mod_twice((self.coeffs@[i] + other.coeffs@[i]) as int, self.modulus as int);
            }
        }
        r
    }

    /// Coefficient-wise subtraction modulo `modulus`.
    pub fn sub(&self, other: &Self) -> (r: Self)
        requires
            self.wf(),
            other.wf(),
            self.compatible(other),
        ensures
            r.wf(),
            r.compatible(self),
            forall|i: int|
                0 <= i < self.spec_degree() ==> #[trigger] r.spec_coeffs()[i] == (self.spec_coeffs()[i]
                    - other.spec_coeffs()[i]) % (self.spec_modulus() as int),
    {
        let n = self.coeffs.len();
        let mut coeffs: Vec<u64> = Vec::with_capacity(n);
        let mut index: usize = 0;
        while index < n
            invariant
                self.wf(),
                other.wf(),
                self.compatible(other),
                n == self.coeffs@.len(),
                index <= n,
                coeffs@.len() == index,
                forall|i: int|
                    0 <= i < index ==> #[trigger] coeffs@[i] == (self.coeffs@[i] - other.coeffs@[i])
                        % (self.modulus as int),
            decreases n - index,
        {
            assert(self.spec_coeffs()[index as int] < self.spec_modulus());
            assert(other.spec_coeffs()[index as int] < other.spec_modulus());
            coeffs.push(sub_mod(self.coeffs[index], other.coeffs[index], self.modulus));
            index += 1;
        }
        let r = Self::new(coeffs, self.modulus);
        proof {
            assert forall|i: int| 0 <= i < n implies #[trigger] r.spec_coeffs()[i] == (
            self.spec_coeffs()[i] - other.spec_coeffs()[i]) % (self.spec_modulus() as int) by {
                let x = self.coeffs@[i] - other.coeffs@[i];
                lemma_mod_bound(x, self.modulus as int);
                lemma_small_mod((x % (self.modulus as int)) as nat, self.modulus as nat);
            }
        }
        r
    }

    /// Naive negacyclic multiplication modulo x^n + 1 and coefficient modulus.
    pub fn multiply_naive(&self, other: &Self) -> (r: Self)
        requires
            self.wf(),
            other.wf(),
            self.compatible(other),
        ensures
            r.wf(),
            r.compatible(self),
            forall|k: int|
                0 <= k < self.spec_degree() ==> #[trigger] r.spec_coeffs()[k] == negacyclic_coeff(
                    self.spec_coeffs(),
                    other.spec_coeffs(),
                    self.spec_modulus(),
                    k,
                ),
    {
        let ghost a = self.coeffs@;
        let ghost b = other.coeffs@;
        let ghost m = self.modulus as int;
        let n = self.degree();
        let mut result = vec![0u64; n];

        let lhs_nonzero = nonzero_terms(&self.coeffs);
        let rhs_nonzero = nonzero_terms(&other.coeffs);
        proof {
            lemma_nz_list_entries(a, n as nat);
            lemma_nz_list_entries(b, n as nat);
        }

        if lhs_nonzero.len() == 0 || rhs_nonzero.len() == 0 {
            proof {
                assert forall|k: int| 0 <= k < n implies #[trigger] negacyclic_partial(a, b, k, n as nat) == 0 by {
                    lemma_negacyclic_as_grid(a, b, k);
                    if lhs_nonzero.len() == 0 {
                        lemma_grid_value(a, b, k);
                    } else {
                        lemma_grid_value(b, a, k);
                        lemma_double_sum_symmetric(a, b, k);
                    }
                }
            }
            let z = Self::zero(n, self.modulus);
            proof {
                assert forall|k: int| 0 <= k < n implies #[trigger] z.spec_coeffs()[k] == negacyclic_coeff(a, b, m as nat, k) by {
                    lemma_small_mod(0, m as nat);
                }
            }
            return z;
        }

        let (outer, inner) = if lhs_nonzero.len() <= rhs_nonzero.len() {
            (&lhs_nonzero, &rhs_nonzero)
        } else {
            (&rhs_nonzero, &lhs_nonzero)
        };
        let ghost nn = n as int;
        proof {
            lemma_small_mod(0, m as nat);
            assert forall|k: int| 0 <= k < n implies #[trigger] result@[k] as int == grid_sum(outer@, inner@, 0, k, nn) % m by {
                assert(result@[k] == 0);
            }
        }

        let mut p: usize = 0;
        while p < outer.len()
            invariant
                self.wf(),
                m == self.modulus,
                result@.len() == n,
                n == self.spec_degree(),
                nn == n,
                forall|t: int| 0 <= t < outer@.len() ==> (#[trigger] outer@[t]).0 < n && outer@[t].1 < self.modulus,
                forall|t: int| 0 <= t < inner@.len() ==> (#[trigger] inner@[t]).0 < n && inner@[t].1 < self.modulus,
                p <= outer@.len(),
                forall|k: int| 0 <= k < n ==> #[trigger] result@[k] as int == grid_sum(outer@, inner@, p as nat, k, nn) % m,
            decreases outer@.len() - p,
        {
            let (i, lhs_coeff) = outer[p];
            let mut s: usize = 0;
            while s < inner.len()
                invariant
                    self.wf(),
                    m == self.modulus,
                    result@.len() == n,
                    n == self.spec_degree(),
                    nn == n,
                        p < outer@.len(),
                    outer@[p as int] == (i, lhs_coeff),
                    i < n,
                    lhs_coeff < self.modulus,
                    forall|t: int| 0 <= t < inner@.len() ==> (#[trigger] inner@[t]).0 < n && inner@[t].1 < self.modulus,
                    s <= inner@.len(),
                    forall|k: int|
                        0 <= k < n ==> #[trigger] result@[k] as int == (grid_sum(outer@, inner@, p as nat, k, nn) + row_sum(
                            outer@[p as int],
                            inner@,
                            s as nat,
                            k,
                            nn,
                        )) % m,
                decreases inner@.len() - s,
            {
                let (j, rhs_coeff) = inner[s];
                let ghost sum_idx: int = i + j;
                let product = mul_mod(lhs_coeff, rhs_coeff, self.modulus);
                let ghost before = result@;
                let ghost cd = lhs_coeff as int * rhs_coeff as int;
                let ghost dst: int = if sum_idx < n { sum_idx } else { sum_idx - n };
                // `i + j < n` tested as `j < n - i`, which cannot overflow
                if j < n - i {
                    let idx = i + j;
                    let updated = add_mod(result[idx], product, self.modulus);
                    result.set(idx, updated);
                } else {
                    // x^n = -1 in Z_q[X]/(X^n + 1)
                    let idx = j - (n - i);
                    let updated = sub_mod(result[idx], product, self.modulus);
                    result.set(idx, updated);
                }
                proof {
                    assert forall|k: int| 0 <= k < n implies #[trigger] result@[k] as int == (grid_sum(
                        outer@,
                        inner@,
                        p as nat,
                        k,
                        nn,
                    ) + row_sum(outer@[p as int], inner@, (s + 1) as nat, k, nn)) % m by {
                        let g = grid_sum(outer@, inner@, p as nat, k, nn);
                        let rs = row_sum(outer@[p as int], inner@, s as nat, k, nn);
                        assert(row_sum(outer@[p as int], inner@, (s + 1) as nat, k, nn) == rs + term_contrib(
                            i as int,
                            lhs_coeff as int,
                            j as int,
                            rhs_coeff as int,
                            k,
                            nn,
                        ));
                        if k == dst {
                            if sum_idx < n {
                                lemma_add_mod_noop(g + rs, cd, m);
                                lemma_add_mod_noop(before[k] as int, product as int, m);
                                lemma_mod_twice(g + rs, m);
                                lemma_mod_twice(cd, m);
                            } else {
                                lemma_sub_mod_noop(g + rs, cd, m);
                                lemma_sub_mod_noop(before[k] as int, product as int, m);
                                lemma_mod_twice(g + rs, m);
                                lemma_mod_twice(cd, m);
                            }
                        } else {
                            assert(result@[k] == before[k]);
                        }
                    }
                }
                s += 1;
            }
            p += 1;
        }
        proof {
            assert forall|k: int| 0 <= k < n implies #[trigger] result@[k] as int == negacyclic_partial(a, b, k, n as nat)
                % m by {
                lemma_negacyclic_as_grid(a, b, k);
                if lhs_nonzero.len() <= rhs_nonzero.len() {
                    lemma_grid_value(a, b, k);
                } else {
                    lemma_grid_value(b, a, k);
                    lemma_double_sum_symmetric(a, b, k);
                }
            }
        }
        let r = Self::new(result, self.modulus);
        proof {
            assert forall|k: int| 0 <= k < n implies #[trigger] r.spec_coeffs()[k] == negacyclic_coeff(a, b, m as nat, k) by {
                lemma_mod_twice(negacyclic_partial(a, b, k, n as nat), m);
            }
        }
        r
    }

    /// Apply the Galois automorphism sigma_m: X -> X^m in Z_q[X]/(X^n + 1).
    pub fn apply_galois_automorphism(&self, galois_element: usize) -> (r: Self)
        requires
            self.wf(),
            galois_element % 2 == 1,
            (self.spec_degree() - 1) * galois_element <= usize::MAX,
            2 * self.spec_degree() <= usize::MAX,
        ensures
            r.wf(),
            r.compatible(self),
            forall|k: int|
                0 <= k < self.spec_degree() ==> #[trigger] r.spec_coeffs()[k] == galois_coeff(
                    self.spec_coeffs(),
                    galois_element as nat,
                    self.spec_modulus(),
                    k,
                ),
    {
        let n = self.coeffs.len();
        let modulus_2n = 2 * n;
        let mut result = vec![0u64; n];
        let ghost a = self.coeffs@;
        let ghost g = galois_element as nat;
        let ghost q = self.modulus as int;

        let mut index: usize = 0;
        proof {
            assert forall|k: int| 0 <= k < n implies #[trigger] result@[k] as int == galois_partial(
                a,
                g,
                k,
                0,
            ) % q by {
                lemma_small_mod(0, q as nat);
            }
        }
        while index < n
            invariant
                self.wf(),
                a == self.coeffs@,
                n == a.len(),
                modulus_2n == 2 * n,
                (n - 1) * galois_element <= usize::MAX,
                g == galois_element,
                q == self.modulus,
                index <= n,
                result@.len() == n,
                forall|k: int| 0 <= k < n ==> #[trigger] result@[k] < self.modulus,
                forall|k: int|
                    0 <= k < n ==> #[trigger] result@[k] as int == galois_partial(a, g, k, index as nat) % q,
            decreases n - index,
        {
            assert(self.spec_coeffs()[index as int] < self.spec_modulus());
            let coeff = self.coeffs[index];
            assert(index * galois_element <= (n - 1) * galois_element) by (nonlinear_arith)
                requires
                    index < n,
            ;
            let mapped = (index * galois_element) % modulus_2n;
            let ghost before = result@;
            if coeff == 0 {
                // nothing to add
            } else if mapped < n {
                let updated = add_mod(result[mapped], coeff, self.modulus);
                result.set(mapped, updated);
            } else {
                let updated = sub_mod(result[mapped - n], coeff, self.modulus);
                result.set(mapped - n, updated);
            }
            proof {
                assert forall|k: int| 0 <= k < n implies #[trigger] result@[k] as int == galois_partial(
                    a,
                    g,
                    k,
                    (index + 1) as nat,
                ) % q by {
                    let prev = galois_partial(a, g, k, index as nat);
                    assert(before[k] as int == prev % q);
                    assert(((index as nat) * g) % ((2 * n) as nat) == mapped);
                    if coeff != 0 && mapped < n && k == mapped {
                        lemma_add_mod_noop(prev, coeff as int, q);
                        lemma_small_mod(coeff as nat, q as nat);
                    } else if coeff != 0 && mapped >= n && k == mapped - n {
                        lemma_sub_mod_noop(prev, coeff as int, q);
                        lemma_small_mod(coeff as nat, q as nat);
                    } else {
                        assert(result@[k] == before[k]);
                    }
                }
            }
            index += 1;
        }
        let r = Self { coeffs: result, modulus: self.modulus };
        r
    }

    /// Negacyclic multiplication via the NTT:
    /// `a(x)b(x) = psi^-i * NTT^{-1}(NTT(psi^i a) . NTT(psi^i b))`.
    pub fn multiply_ntt(&self, other: &Self, plan: &NttPlan) -> (r: Self)
        requires
            self.wf(),
            other.wf(),
            self.compatible(other),
            plan.wf(),
            self.spec_degree() == plan.spec_size(),
            self.spec_modulus() == plan.spec_modulus(),
        ensures
            r.wf(),
            r.compatible(self),
            forall|k: int|
                0 <= k < self.spec_degree() ==> #[trigger] r.spec_coeffs()[k] == negacyclic_coeff(
                    self.spec_coeffs(),
                    other.spec_coeffs(),
                    self.spec_modulus(),
                    k,
                ),
    {
        let ghost a = self.coeffs@;
        let ghost b = other.coeffs@;
        let ghost m = self.modulus as int;
        let psi = plan.negacyclic_twiddle();
        let psi_inv = plan.negacyclic_twiddle_inv();
        let modulus = self.modulus;
        proof {
            plan.lemma_plan_facts();
        }

        let mut lhs = self.duplicate().coeffs;
        let mut rhs = other.duplicate().coeffs;
        twist_in_place(&mut lhs, psi, modulus);
        twist_in_place(&mut rhs, psi, modulus);
        let ghost x = lhs@;
        let ghost y = rhs@;
        proof {
            assert(x =~= twisted(a, psi as int, m));
            assert(y =~= twisted(b, psi as int, m));
            assert forall|i: int| 0 <= i < x.len() implies x[i] < plan.spec_modulus() by {
                lemma_mod_bound(a[i] as int * pow(psi as int, i as nat), m);
            }
            assert forall|i: int| 0 <= i < y.len() implies y[i] < plan.spec_modulus() by {
                lemma_mod_bound(b[i] as int * pow(psi as int, i as nat), m);
            }
        }

        plan.forward(&mut lhs);
        plan.forward(&mut rhs);
        let ghost fx = lhs@;
        let ghost fy = rhs@;

        let n = lhs.len();
        let mut index: usize = 0;
        while index < n
            invariant
                modulus > 1,
                m == modulus,
                n == lhs@.len(),
                n == fx.len(),
                rhs@ == fy,
                fy.len() == n,
                index <= n,
                forall|i: int| 0 <= i < n ==> #[trigger] fx[i] < modulus,
                forall|i: int| 0 <= i < n ==> #[trigger] fy[i] < modulus,
                forall|i: int| 0 <= i < index ==> #[trigger] lhs@[i] == ((fx[i] as int * fy[i] as int) % m) as u64,
                forall|i: int| index <= i < n ==> #[trigger] lhs@[i] == fx[i],
                lhs@.len() == plan.spec_size(),
            decreases n - index,
        {
            let product = mul_mod(lhs[index], rhs[index], modulus);
            lhs.set(index, product);
            index += 1;
        }
        proof {
            assert(lhs@ =~= pointwise_product(fx, fy, m));
            assert forall|i: int| 0 <= i < n implies lhs@[i] < plan.spec_modulus() by {
                lemma_mod_bound(fx[i] as int * fy[i] as int, m);
            }
        }

        plan.inverse(&mut lhs);
        let ghost conv = lhs@;
        twist_in_place(&mut lhs, psi_inv, modulus);
        proof {
            let w = plan.spec_root() as int;
            let wi = plan.spec_root_inv() as int;
            let ni = plan.spec_size_inv() as int;
            assert forall|t: int| 0 <= t < n implies #[trigger] lhs@[t] as int == negacyclic_partial(a, b, t, a.len())
                % m by {
                lemma_cyclic_convolution(x, y, w, wi, ni, m, t);
                lemma_twisted_cyclic(a, b, psi as int, m, t);
                let np = negacyclic_partial(a, b, t, a.len());
                let pt = pow(psi as int, t as nat);
                let pit = pow(psi_inv as int, t as nat);
                // conv_t = psi^t np (mod m), so conv_t psi_inv^t = np (mod m)
                lemma_mod_twice(cyclic_coeff(x, y, t), m);
                lemma_mul_congruent(conv[t] as int, pit, pt * np, pit, m);
                lemma_unit_power(psi as int, psi_inv as int, t as nat, m);
                assert((pt * np) * pit == (pt * pit) * np) by (nonlinear_arith);
                lemma_small_mod(1, m as nat);
                lemma_mul_congruent(pt * pit, np, 1, np, m);
                lemma_mul_basics(np);
            }
        }
        let r = Self::new(lhs, modulus);
        proof {
            assert forall|k: int| 0 <= k < n implies #[trigger] r.spec_coeffs()[k] == negacyclic_coeff(a, b, m as nat, k) by {
                lemma_mod_twice(negacyclic_partial(a, b, k, a.len()), m);
            }
        }
        r
    }
}

/// The `(index, coefficient)` pairs of the non-zero coefficients among the
/// first `upto`, in index order.
pub open spec fn nz_list(c: Seq<u64>, upto: nat) -> Seq<(usize, u64)>
    decreases upto,
{
    if upto == 0 {
        Seq::empty()
    } else {
        let prev = nz_list(c, (upto - 1) as nat);
        if c[upto - 1] != 0 {
            prev.push(((upto - 1) as usize, c[upto - 1]))
        } else {
            prev
        }
    }
}

/// Every listed pair is a non-zero coefficient with its index.
proof fn lemma_nz_list_entries(c: Seq<u64>, upto: nat)
    requires
        upto <= c.len(),
        c.len() <= usize::MAX,
    ensures
        forall|t: int|
            0 <= t < nz_list(c, upto).len() ==> (#[trigger] nz_list(c, upto)[t]).0 < upto && nz_list(c, upto)[t].1
                == c[nz_list(c, upto)[t].0 as int] && nz_list(c, upto)[t].1 != 0,
    decreases upto,
{
    if upto > 0 {
        let k = (upto - 1) as nat;
        lemma_nz_list_entries(c, k);
        let prev = nz_list(c, k);
        if c[k as int] != 0 {
            assert forall|t: int| 0 <= t < prev.len() implies #[trigger] nz_list(c, upto)[t] == prev[t] by {}
            assert(nz_list(c, upto)[prev.len() as int] == ((k as usize), c[k as int]));
        }
    }
}

/// A sum over the listed non-zero coefficients is the sum over all
/// coefficients of the terms that vanish at zero coefficients.
proof fn lemma_nz_sum(c: Seq<u64>, upto: nat, g: spec_fn(int, int) -> int)
    requires
        upto <= c.len(),
        c.len() <= usize::MAX,
        forall|j: int| 0 <= j < upto && c[j] == 0 ==> #[trigger] g(j, c[j] as int) == 0,
    ensures
        sum_to(|s: int| g(nz_list(c, upto)[s].0 as int, nz_list(c, upto)[s].1 as int), nz_list(c, upto).len()) == sum_to(
            |j: int| g(j, c[j] as int),
            upto,
        ),
    decreases upto,
{
    if upto > 0 {
        let k = (upto - 1) as nat;
        lemma_nz_sum(c, k, g);
        let prev = nz_list(c, k);
        let cur = nz_list(c, upto);
        if c[k as int] != 0 {
            assert forall|s: int| 0 <= s < prev.len() implies #[trigger] g(cur[s].0 as int, cur[s].1 as int) == g(
                prev[s].0 as int,
                prev[s].1 as int,
            ) by {
                assert(cur[s] == prev[s]);
            }
            lemma_sum_ext(
                |s: int| g(cur[s].0 as int, cur[s].1 as int),
                |s: int| g(prev[s].0 as int, prev[s].1 as int),
                prev.len(),
            );
        } else {
            assert(cur == prev);
        }
    }
}

/// Contribution of `ci X^i * dj X^j` to coefficient `k` of a product modulo
/// `X^n + 1`.
pub open spec fn term_contrib(i: int, ci: int, j: int, dj: int, k: int, n: int) -> int {
    if i + j == k {
        ci * dj
    } else if i + j == k + n {
        -(ci * dj)
    } else {
        0
    }
}

/// The contributions to coefficient `k` of the products of the term `o` with
/// the first `upto` terms of `inner`.
pub open spec fn row_sum(o: (usize, u64), inner: Seq<(usize, u64)>, upto: nat, k: int, n: int) -> int {
    sum_to(|s: int| term_contrib(o.0 as int, o.1 as int, inner[s].0 as int, inner[s].1 as int, k, n), upto)
}

/// The contributions to coefficient `k` of the products of the first `upto`
/// terms of `outer` with all terms of `inner`.
pub open spec fn grid_sum(outer: Seq<(usize, u64)>, inner: Seq<(usize, u64)>, upto: nat, k: int, n: int) -> int {
    sum_to(|p: int| row_sum(outer[p], inner, inner.len(), k, n), upto)
}

/// `sum_j term_contrib(i, c1_i, j, c2_j, k)` over all coefficients of `c2`.
pub open spec fn dense_row(c1: Seq<u64>, c2: Seq<u64>, i: int, k: int) -> int {
    sum_to(|j: int| term_contrib(i, c1[i] as int, j, c2[j] as int, k, c1.len() as int), c1.len())
}

/// `sum_i sum_j term_contrib(i, c1_i, j, c2_j, k)` over all coefficients.
pub open spec fn dense_double_sum(c1: Seq<u64>, c2: Seq<u64>, k: int) -> int {
    sum_to(|i: int| dense_row(c1, c2, i, k), c1.len())
}

/// The negacyclic coefficient is the double sum of all term contributions.
proof fn lemma_negacyclic_as_grid(a: Seq<u64>, b: Seq<u64>, k: int)
    requires
        a.len() == b.len(),
        0 <= k < a.len(),
    ensures
        negacyclic_partial(a, b, k, a.len()) == dense_double_sum(a, b, k),
{
    let n = a.len();
    lemma_negacyclic_as_sum(a, b, k, n);
    assert forall|i: int| 0 <= i < n implies #[trigger] dense_row(a, b, i, k) == negacyclic_term(a, b, k, i) by {
        let f = |j: int| term_contrib(i, a[i] as int, j, b[j] as int, k, n as int);
        let jstar = if i <= k { k - i } else { n + k - i };
        assert forall|j: int| 0 <= j < n && j != jstar implies #[trigger] f(j) == 0 by {}
        lemma_sum_single(f, n, jstar);
    }
    lemma_sum_ext(|i: int| dense_row(a, b, i, k), |i: int| negacyclic_term(a, b, k, i), n);
}

/// The double sum over the listed non-zero terms is the dense double sum.
proof fn lemma_grid_value(c1: Seq<u64>, c2: Seq<u64>, k: int)
    requires
        c1.len() == c2.len(),
        c1.len() <= usize::MAX,
    ensures
        grid_sum(nz_list(c1, c1.len()), nz_list(c2, c2.len()), nz_list(c1, c1.len()).len(), k, c1.len() as int)
            == dense_double_sum(c1, c2, k),
{
    let n = c1.len();
    let ni = n as int;
    let o = nz_list(c1, n);
    let inn = nz_list(c2, n);
    let big = |i: int, ci: int| sum_to(|j: int| term_contrib(i, ci, j, c2[j] as int, k, ni), n);
    assert forall|p: int| 0 <= p < o.len() implies #[trigger] row_sum(o[p], inn, inn.len(), k, ni) == big(
        o[p].0 as int,
        o[p].1 as int,
    ) by {
        let i = o[p].0 as int;
        let ci = o[p].1 as int;
        let g = |j: int, dj: int| term_contrib(i, ci, j, dj, k, ni);
        assert forall|j: int| 0 <= j < n && c2[j] == 0 implies #[trigger] g(j, c2[j] as int) == 0 by {}
        lemma_nz_sum(c2, n, g);
        lemma_sum_ext(
            |s: int| term_contrib(o[p].0 as int, o[p].1 as int, inn[s].0 as int, inn[s].1 as int, k, ni),
            |s: int| g(inn[s].0 as int, inn[s].1 as int),
            inn.len(),
        );
        lemma_sum_ext(|j: int| g(j, c2[j] as int), |j: int| term_contrib(i, ci, j, c2[j] as int, k, ni), n);
    }
    lemma_sum_ext(
        |p: int| row_sum(o[p], inn, inn.len(), k, ni),
        |p: int| big(o[p].0 as int, o[p].1 as int),
        o.len(),
    );
    assert forall|i: int| 0 <= i < n && c1[i] == 0 implies #[trigger] big(i, c1[i] as int) == 0 by {
        lemma_sum_zero(|j: int| term_contrib(i, c1[i] as int, j, c2[j] as int, k, ni), n);
    }
    lemma_nz_sum(c1, n, big);
    assert forall|i: int| 0 <= i < n implies #[trigger] big(i, c1[i] as int) == dense_row(c1, c2, i, k) by {
        lemma_sum_ext(
            |j: int| term_contrib(i, c1[i] as int, j, c2[j] as int, k, ni),
            |j: int| term_contrib(i, c1[i] as int, j, c2[j] as int, k, c1.len() as int),
            n,
        );
    }
    lemma_sum_ext(|i: int| big(i, c1[i] as int), |i: int| dense_row(c1, c2, i, k), n);
}

/// The dense double sum does not depend on which factor comes first.
proof fn lemma_double_sum_symmetric(a: Seq<u64>, b: Seq<u64>, k: int)
    requires
        a.len() == b.len(),
    ensures
        dense_double_sum(b, a, k) == dense_double_sum(a, b, k),
{
    let n = a.len();
    let ni = n as int;
    let f2 = |j: int, i: int| term_contrib(j, b[j] as int, i, a[i] as int, k, ni);
    lemma_sum_swap(f2, n, n);
    assert forall|j: int| 0 <= j < n implies sum_to(|i: int| f2(j, i), n) == #[trigger] dense_row(b, a, j, k) by {
        lemma_sum_ext(|i: int| f2(j, i), |i: int| term_contrib(j, b[j] as int, i, a[i] as int, k, b.len() as int), n);
    }
    lemma_sum_ext(|j: int| sum_to(|i: int| f2(j, i), n), |j: int| dense_row(b, a, j, k), n);
    assert forall|i: int| 0 <= i < n implies sum_to(|j: int| f2(j, i), n) == #[trigger] dense_row(a, b, i, k) by {
        assert forall|j: int| 0 <= j < n implies #[trigger] f2(j, i) == term_contrib(
            i,
            a[i] as int,
            j,
            b[j] as int,
            k,
            a.len() as int,
        ) by {
            lemma_mul_is_commutative(b[j] as int, a[i] as int);
        }
        lemma_sum_ext(|j: int| f2(j, i), |j: int| term_contrib(i, a[i] as int, j, b[j] as int, k, a.len() as int), n);
    }
    lemma_sum_ext(|i: int| sum_to(|j: int| f2(j, i), n), |i: int| dense_row(a, b, i, k), n);
}

/// `(index, coefficient)` pairs of the non-zero coefficients, in index order.
fn nonzero_terms(coeffs: &Vec<u64>) -> (r: Vec<(usize, u64)>)
    ensures
        r@ == nz_list(coeffs@, coeffs@.len()),
{
    let mut terms: Vec<(usize, u64)> = Vec::new();
    let mut index: usize = 0;
    while index < coeffs.len()
        invariant
            index <= coeffs@.len(),
            terms@ == nz_list(coeffs@, index as nat),
        decreases coeffs@.len() - index,
    {
        let coeff = coeffs[index];
        if coeff != 0 {
            terms.push((index, coeff));
        }
        index += 1;
    }
    terms
}

/// Multiply coefficient `i` by `twiddle^i`, in place.
fn twist_in_place(coeffs: &mut Vec<u64>, twiddle: u64, modulus: u64)
    requires
        modulus > 1,
    ensures
        final(coeffs)@.len() == old(coeffs)@.len(),
        forall|i: int|
            0 <= i < final(coeffs)@.len() ==> #[trigger] final(coeffs)@[i] == (old(coeffs)@[i] as int
                * pow(twiddle as int, i as nat)) % (modulus as int),
{
    let ghost original = coeffs@;
    let ghost q = modulus as int;
    let mut power = 1u64;
    let mut index: usize = 0;
    proof {
        lemma_pow0(twiddle as int);
        lemma_small_mod(1, modulus as nat);
    }
    while index < coeffs.len()
        invariant
            modulus > 1,
            q == modulus,
            coeffs@.len() == original.len(),
            index <= coeffs@.len(),
            power < modulus,
            power as int == pow(twiddle as int, index as nat) % q,
            forall|i: int|
                index <= i < coeffs@.len() ==> #[trigger] coeffs@[i] == original[i],
            forall|i: int|
                0 <= i < index ==> #[trigger] coeffs@[i] == (original[i] as int * pow(
                    twiddle as int,
                    i as nat,
                )) % q,
        decreases coeffs@.len() - index,
    {
        let updated = mul_mod(coeffs[index], power, modulus);
        proof {
            lemma_mul_mod_noop_right(original[index as int] as int, pow(twiddle as int, index as nat), q);
        }
        coeffs.set(index, updated);
        let next_power = mul_mod(power, twiddle, modulus);
        proof {
            lemma_mul_mod_noop_left(pow(twiddle as int, index as nat), twiddle as int, q);
            lemma_pow_adds(twiddle as int, index as nat, 1);
            lemma_pow1(twiddle as int);
            lemma_mul_is_commutative(pow(twiddle as int, index as nat), twiddle as int);
        }
        power = next_power;
        index += 1;
    }
}

fn add_mod(lhs: u64, rhs: u64, modulus: u64) -> (r: u64)
    requires
        lhs < modulus,
        rhs < modulus,
    ensures
        r == (lhs as nat + rhs as nat) % modulus as nat,
        r < modulus,
{
    let sum = lhs as u128 + rhs as u128;
    if sum >= modulus as u128 {
        proof {
            lemma_fundamental_div_mod_converse(
                (lhs + rhs) as int,
                modulus as int,
                1,
                (lhs + rhs - modulus) as int,
            );
        }
        (sum - modulus as u128) as u64
    } else {
        proof {
            lemma_small_mod((lhs + rhs) as nat, modulus as nat);
        }
        sum as u64
    }
}

fn sub_mod(lhs: u64, rhs: u64, modulus: u64) -> (r: u64)
    requires
        lhs < modulus,
        rhs < modulus,
    ensures
        r == (lhs as int - rhs as int) % modulus as int,
        r < modulus,
{
    if lhs >= rhs {
        proof {
            lemma_small_mod((lhs - rhs) as nat, modulus as nat);
        }
        lhs - rhs
    } else {
        proof {
            lemma_fundamental_div_mod_converse(
                lhs as int - rhs as int,
                modulus as int,
                -1,
                (modulus - (rhs - lhs)) as int,
            );
        }
        modulus - (rhs - lhs)
    }
}

fn mul_mod(lhs: u64, rhs: u64, modulus: u64) -> (r: u64)
    requires
        modulus > 0,
    ensures
        r == (lhs as nat * rhs as nat) % modulus as nat,
        r < modulus,
{
    proof {
        lemma_mul_upper_bound(lhs as int, u64::MAX as int, rhs as int, u64::MAX as int);
    }
    let product = lhs as u128 * rhs as u128;
    proof {
        lemma_mod_bound(product as int, modulus as int);
    }
    (product % modulus as u128) as u64
}

/// `n * g` leaves `n` modulo `2n` for odd `g`.
proof fn lemma_odd_multiple_of_half(n: int, g: int)
    requires
        n >= 1,
        g >= 0,
        g % 2 == 1,
    ensures
        (n * g) % (2 * n) == n,
{
    let t = g / 2;
    lemma_fundamental_div_mod(g, 2);
    assert(n * g == (2 * n) * t + n) by (nonlinear_arith)
        requires
            g == 2 * t + 1,
    ;
    lemma_fundamental_div_mod_converse(n * g, 2 * n, t, n);
}

/// A factor of a product that is odd modulo an even number is odd.
proof fn lemma_odd_factor(g: int, h: int, n: int)
    requires
        n >= 1,
        g >= 0,
        h >= 0,
        (g * h) % (2 * n) == 1,
    ensures
        h % 2 == 1,
{
    let m = 2 * n;
    lemma_fundamental_div_mod(g * h, m);
    lemma_fundamental_div_mod(h, 2);
    if h % 2 == 0 {
        let t = h / 2;
        let d = (g * h) / m;
        assert(g * h == 2 * (g * t)) by (nonlinear_arith)
            requires
                h == 2 * t,
        ;
        assert(m * d == 2 * (n * d)) by (nonlinear_arith)
            requires
                m == 2 * n,
        ;
        let a = g * t;
        let b = n * d;
        assert(2 * a == 2 * b + 1);
    }
}

/// Multiplying by `g` then by its inverse `h` modulo `m` gives back `x mod m`.
proof fn lemma_times_inverse(x: int, g: int, h: int, m: int)
    requires
        m > 1,
        ((g * h) as int) % m == 1,
    ensures
        ((x * g) % m * h) % m == x % m,
{
    lemma_mul_mod_noop_left(x * g, h, m);
    lemma_mul_is_associative(x, g, h);
    lemma_mul_mod_noop_right(x, g * h, m);
}

/// Where index `i` of `a` lands under `X -> X^g`: position `k` with sign `e`
/// (`e == 1` for the wrap through `X^n = -1`).
pub open spec fn galois_lands(i: int, g: nat, n: nat, k: int, e: int) -> bool {
    &&& 0 <= e <= 1
    &&& (i * g) % (2 * n as int) == k + e * n
}

/// Exactly one index lands on each position, with a determined sign.
proof fn lemma_galois_lands_unique(i: int, i2: int, g: nat, h: nat, n: nat, k: int, e: int, e2: int)
    requires
        n >= 1,
        0 <= i < n,
        0 <= i2 < n,
        0 <= k < n,
        h % 2 == 1,
        ((g * h) as int) % (2 * n as int) == 1,
        galois_lands(i, g, n, k, e),
        galois_lands(i2, g, n, k, e2),
    ensures
        i == i2,
        e == e2,
{
    let m = 2 * n as int;
    lemma_times_inverse(i, g as int, h as int, m);
    lemma_times_inverse(i2, g as int, h as int, m);
    lemma_small_mod(i as nat, m as nat);
    lemma_small_mod(i2 as nat, m as nat);
    lemma_odd_multiple_of_half(n as int, h as int);
    // i == ((k + e n) h) % m == (k h + e n) % m, likewise for i2
    lemma_landing_back(k, e, h as int, n as int);
    lemma_landing_back(k, e2, h as int, n as int);
    let j = (k * h) % m;
    lemma_mod_bound(k * h, m);
    assert(i == ((k + e * n) * h) % m);
    assert(i2 == ((k + e2 * n) * h) % m);
    assert(i == (j + e * n) % m);
    assert(i2 == (j + e2 * n) % m);
    lemma_shift_by_half(j, n as int);
    if e == 0 {
        assert(i == j % m);
    } else {
        assert(i == (j + n) % m);
    }
    if e2 == 0 {
        assert(i2 == j % m);
    } else {
        assert(i2 == (j + n) % m);
    }
}

/// `((k + e n) h) % 2n == ((k h) % 2n + e n) % 2n` for odd `h`.
proof fn lemma_landing_back(k: int, e: int, h: int, n: int)
    requires
        n >= 1,
        h >= 0,
        h % 2 == 1,
        0 <= e <= 1,
    ensures
        ((k + e * n) * h) % (2 * n) == ((k * h) % (2 * n) + e * n) % (2 * n),
{
    let m = 2 * n;
    lemma_odd_multiple_of_half(n, h);
    assert((k + e * n) * h == k * h + e * (n * h)) by (nonlinear_arith);
    lemma_add_mod_noop(k * h, e * (n * h), m);
    lemma_mul_mod_noop_right(e, n * h, m);
    assert((e * (n * h)) % m == (e * n) % m);
    lemma_add_mod_noop((k * h) % m, e * n, m);
    lemma_mod_twice(k * h, m);
    assert(((k + e * n) * h) % m == ((k * h) % m + (e * n) % m) % m);
    assert(((k * h) % m + e * n) % m == (((k * h) % m) % m + (e * n) % m) % m);
}

/// Of `j % 2n` and `(j + n) % 2n` for `0 <= j < 2n`, exactly one is below `n`.
proof fn lemma_shift_by_half(j: int, n: int)
    requires
        n >= 1,
        0 <= j < 2 * n,
    ensures
        (j % (2 * n) < n) != ((j + n) % (2 * n) < n),
{
    lemma_small_mod(j as nat, (2 * n) as nat);
    if j < n {
        lemma_small_mod((j + n) as nat, (2 * n) as nat);
    } else {
        lemma_fundamental_div_mod_converse(j + n, 2 * n, 1, j - n);
    }
}

/// Every position has an index landing on it.
proof fn lemma_galois_lands_exists(g: nat, h: nat, n: nat, k: int) -> (r: (int, int))
    requires
        n >= 1,
        0 <= k < n,
        g % 2 == 1,
        ((g * h) as int) % (2 * n as int) == 1,
    ensures
        0 <= r.0 < n,
        galois_lands(r.0, g, n, k, r.1),
{
    let m = 2 * n as int;
    let j = (k * h) % m;
    lemma_mod_bound(k * h, m);
    lemma_mul_is_commutative(g as int, h as int);
    lemma_times_inverse(k, h as int, g as int, m);
    lemma_small_mod(k as nat, m as nat);
    // (j g) % m == k
    assert((j * g) % m == k);
    lemma_odd_multiple_of_half(n as int, g as int);
    if j < n {
        (j, 0)
    } else {
        let i0 = j - n;
        assert(i0 * g == j * g - n * g) by (nonlinear_arith)
            requires
                i0 == j - n,
        ;
        lemma_sub_mod_noop(j * g, (n * g) as int, m);
        assert((i0 * g) % m == (k - n) % m);
        lemma_fundamental_div_mod_converse(k - n, m, -1, k + n);
        (i0, 1)
    }
}

/// The sum of [`galois_partial`] holds the one term that lands on `k`.
proof fn lemma_galois_single(a: Seq<u64>, g: nat, k: int, upto: nat, i0: int, e: int)
    requires
        a.len() >= 1,
        0 <= k < a.len(),
        0 <= i0 < a.len(),
        upto <= a.len(),
        galois_lands(i0, g, a.len(), k, e),
        forall|i: int, e2: int|
            0 <= i < a.len() && i != i0 && 0 <= e2 <= 1 ==> !#[trigger] galois_lands(i, g, a.len(), k, e2),
    ensures
        galois_partial(a, g, k, upto) == if i0 < upto {
            if e == 0 {
                a[i0] as int
            } else {
                -(a[i0] as int)
            }
        } else {
            0
        },
    decreases upto,
{
    if upto > 0 {
        let i = (upto - 1) as int;
        lemma_galois_single(a, g, k, (upto - 1) as nat, i0, e);
        if i != i0 {
            assert(!galois_lands(i, g, a.len(), k, 0));
            assert(!galois_lands(i, g, a.len(), k, 1));
        }
    }
}

/// The image under `X -> X^g` of a residue: coefficient `k` is `+-a[i]` for
/// the one index `i` landing on `k`.
proof fn lemma_galois_coeff_is_term(a: Seq<u64>, g: nat, h: nat, q: nat, k: int) -> (r: (int, int))
    requires
        a.len() >= 1,
        0 <= k < a.len(),
        q > 0,
        g % 2 == 1,
        h % 2 == 1,
        ((g * h) as int) % (2 * a.len() as int) == 1,
    ensures
        0 <= r.0 < a.len(),
        galois_lands(r.0, g, a.len(), k, r.1),
        galois_coeff(a, g, q, k) == (if r.1 == 0 {
            a[r.0] as int
        } else {
            -(a[r.0] as int)
        }) % (q as int),
{
    let n = a.len();
    let (i0, e) = lemma_galois_lands_exists(g, h, n, k);
    assert forall|i: int, e2: int| 0 <= i < n && i != i0 && 0 <= e2 <= 1 implies !#[trigger] galois_lands(i, g, n, k, e2) by {
        if galois_lands(i, g, n, k, e2) {
            lemma_galois_lands_unique(i, i0, g, h, n, k, e2, e);
        }
    }
    lemma_galois_single(a, g, k, n, i0, e);
    (i0, e)
}

/// The schoolbook product and the transform product of `a` and `b` are the
/// same polynomial: any two results that hold, coefficient by coefficient,
/// the negacyclic product of `a` and `b` modulo their modulus (as both
/// `multiply_naive` and `multiply_ntt` ensure) are equal.
pub proof fn lemma_products_agree(
    a: ModularPolynomial,
    b: ModularPolynomial,
    naive: ModularPolynomial,
    transformed: ModularPolynomial,
)
    requires
        a.compatible(&b),
        naive.compatible(&a),
        transformed.compatible(&a),
        forall|k: int|
            0 <= k < a.spec_degree() ==> #[trigger] naive.spec_coeffs()[k] == negacyclic_coeff(
                a.spec_coeffs(),
                b.spec_coeffs(),
                a.spec_modulus(),
                k,
            ),
        forall|k: int|
            0 <= k < a.spec_degree() ==> #[trigger] transformed.spec_coeffs()[k] == negacyclic_coeff(
                a.spec_coeffs(),
                b.spec_coeffs(),
                a.spec_modulus(),
                k,
            ),
    ensures
        naive.spec_coeffs() == transformed.spec_coeffs(),
        naive.spec_modulus() == transformed.spec_modulus(),
{
    assert(naive.spec_coeffs() =~= transformed.spec_coeffs());
}

/// Undoing an automorphism: with `g * h == 1` modulo `2n`, the
/// image under `X -> X^h` of the image under `X -> X^g` of a reduced residue
/// `a` is `a` again.
pub proof fn lemma_galois_inverse(a: Seq<u64>, b: Seq<u64>, c: Seq<u64>, g: nat, h: nat, q: nat)
    requires
        a.len() >= 1,
        b.len() == a.len(),
        c.len() == a.len(),
        q > 0,
        forall|i: int| 0 <= i < a.len() ==> #[trigger] a[i] < q,
        ((g * h) as int) % (2 * a.len() as int) == 1,
        forall|k: int| 0 <= k < a.len() ==> #[trigger] b[k] as int == galois_coeff(a, g, q, k),
        forall|k: int| 0 <= k < a.len() ==> #[trigger] c[k] as int == galois_coeff(b, h, q, k),
    ensures
        forall|k: int| 0 <= k < a.len() ==> #[trigger] c[k] == a[k],
{
    let n = a.len();
    let m = 2 * n as int;
    lemma_odd_factor(g as int, h as int, n as int);
    lemma_mul_is_commutative(g as int, h as int);
    lemma_odd_factor(h as int, g as int, n as int);
    assert((((h * g) as int) % m) == 1) by {
        lemma_mul_is_commutative(g as int, h as int);
    }
    assert forall|k: int| 0 <= k < n implies #[trigger] c[k] == a[k] by {
        let (i1, e1) = lemma_galois_coeff_is_term(b, h, g, q, k);
        let (i2, e2) = lemma_galois_coeff_is_term(a, g, h, q, i1);
        // i2 lands on k through g h: i2 == (k + (e1 + e2) n) % 2n
        lemma_times_inverse(i2, g as int, h as int, m);
        lemma_small_mod(i2 as nat, m as nat);
        lemma_landing_back(i1, e2, h as int, n as int);
        assert((i1 * h) % m == k + e1 * n);
        assert((i2 * g) % m == i1 + e2 * n);
        assert(i2 == ((i1 + e2 * n) * h) % m);
        assert(i2 == ((i1 * h) % m + e2 * n) % m);
        assert(i2 == (k + e1 * n + e2 * n) % m);
        if e1 == 0 && e2 == 0 {
            lemma_small_mod(k as nat, m as nat);
        } else if e1 == 1 && e2 == 1 {
            assert(k + e1 * n + e2 * n == k + 2 * n);
            lemma_fundamental_div_mod_converse(k + 2 * n, m, 1, k);
        } else {
            if e1 == 0 {
                assert(e2 == 1);
                assert(e1 * n == 0);
                assert(e2 * n == n) by (nonlinear_arith)
                    requires
                        e2 == 1,
                ;
            } else {
                assert(e1 == 1 && e2 == 0);
                assert(e1 * n == n) by (nonlinear_arith)
                    requires
                        e1 == 1,
                ;
                assert(e2 * n == 0);
            }
            assert(k + e1 * n + e2 * n == k + n);
            lemma_small_mod((k + n) as nat, m as nat);
            assert(false);
        }
        assert(i2 == k);
        let ak = a[k] as int;
        lemma_small_mod(a[k] as nat, q);
        if e1 == 0 {
            assert(b[i1] as int == ak % (q as int));
            lemma_small_mod(b[i1] as nat, q);
        } else {
            assert(b[i1] as int == (-ak) % (q as int));
            lemma_mod_bound(-ak, q as int);
            lemma_sub_mod_noop(0, -ak, q as int);
            lemma_small_mod(0, q);
        }
    }
}

} // verus!
