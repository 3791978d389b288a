//! Number-theoretic transform helpers for modular polynomial multiplication.

use crate::math::arith::{has_inverse, is_pow2, lemma_square_multiply_step, pow_mod};
use crate::math::dft::{
    bit_rev,
    dft,
    lemma_bit_rev_bound,
    lemma_bit_rev_increment,
    lemma_bit_rev_involution,
    lemma_bit_rev_top,
    lemma_bit_rev_zero,
    lemma_dft_round_trip,
    lemma_dft_round_trip_reverse,
    lemma_pow2_half,
    rev_increment,
    root_pair,
    scaled_transform,
    transform,
    lemma_butterfly_mod,
    lemma_stage_butterfly,
    lemma_stage_end,
    lemma_stage_start,
    ntt_stage,
};
use vstd::arithmetic::div_mod::*;
use vstd::arithmetic::mul::*;
use vstd::arithmetic::power::*;
use vstd::prelude::*;

verus! {

/// Absolute value of an integer.
pub open spec fn iabs(x: int) -> int {
    if x < 0 {
        -x
    } else {
        x
    }
}

/// The conditions under which `NttPlan::new(size, modulus, primitive_root)` succeeds.
pub open spec fn ntt_plan_ok(size: nat, modulus: nat, generator: nat) -> bool {
    let m = modulus;
    &&& size != 0
    &&& is_pow2(size)
    &&& m >= 3
    &&& (m - 1) as nat % size == 0
    &&& (m - 1) as nat % (2 * size) == 0
    &&& {
        let root = pow_mod(generator % m, ((m - 1) as nat / size) as nat, m);
        let psi = pow_mod(generator % m, ((m - 1) as nat / (2 * size)) as nat, m);
        &&& pow_mod(root, size, m) == 1
        &&& !(size > 1 && pow_mod(root, size / 2, m) == 1)
        &&& has_inverse(root, m)
        &&& has_inverse(size, m)
        &&& pow_mod(psi, 2 * size, m) == 1
        &&& pow_mod(psi, size, m) == (m - 1) as nat
        &&& has_inverse(psi, m)
    }
}

/// The message of the first condition of [`ntt_plan_ok`] that fails, in the
/// order in which `NttPlan::new` checks them.
pub open spec fn ntt_plan_error(size: nat, modulus: nat, generator: nat) -> Seq<char> {
    let m = modulus;
    let root = pow_mod(generator % m, ((m - 1) as nat / size) as nat, m);
    let psi = pow_mod(generator % m, ((m - 1) as nat / (2 * size)) as nat, m);
    if size == 0 || !is_pow2(size) {
        "NTT size must be a non-zero power of two"@
    } else if m < 3 {
        "modulus must be an odd prime larger than 2"@
    } else if (m - 1) as nat % size != 0 {
        "size must divide modulus - 1"@
    } else if (m - 1) as nat % (2 * size) != 0 {
        "2 * size must divide modulus - 1 for negacyclic NTTs"@
    } else if pow_mod(root, size, m) != 1 {
        "primitive_root does not generate a size-th root of unity"@
    } else if size > 1 && pow_mod(root, size / 2, m) == 1 {
        "root is not primitive for the requested size"@
    } else if !has_inverse(root, m) {
        "root is not invertible"@
    } else if !has_inverse(size, m) {
        "size is not invertible modulo modulus"@
    } else if pow_mod(psi, 2 * size, m) != 1 || pow_mod(psi, size, m) != (m - 1) as nat {
        "primitive_root does not generate a valid negacyclic twiddle"@
    } else {
        "negacyclic twiddle is not invertible"@
    }
}

/// Plan for a radix-2 NTT over a prime modulus.
#[derive(Clone, Debug)]
pub struct NttPlan {
    modulus: u64,
    size: usize,
    root: u64,
    root_inv: u64,
    negacyclic_twiddle: u64,
    negacyclic_twiddle_inv: u64,
    size_inv: u64,
}

impl NttPlan {
    /// Transform length.
    pub closed spec fn spec_size(&self) -> nat {
        self.size as nat
    }

    /// Coefficient modulus.
    pub closed spec fn spec_modulus(&self) -> nat {
        self.modulus as nat
    }

    /// The `size`-th root of unity used by the forward transform.
    pub closed spec fn spec_root(&self) -> nat {
        self.root as nat
    }

    /// Inverse of the transform root.
    pub closed spec fn spec_root_inv(&self) -> nat {
        self.root_inv as nat
    }

    /// Inverse of the transform length.
    pub closed spec fn spec_size_inv(&self) -> nat {
        self.size_inv as nat
    }

    /// The `2*size`-th root `psi` that twists inputs for negacyclic products.
    pub closed spec fn spec_twiddle(&self) -> nat {
        self.negacyclic_twiddle as nat
    }

    /// Inverse of the twist root.
    pub closed spec fn spec_twiddle_inv(&self) -> nat {
        self.negacyclic_twiddle_inv as nat
    }

    /// The transform root is the square of the negacyclic twiddle: `psi^2 = omega`.
    pub proof fn lemma_root_is_twiddle_squared(&self)
        requires
            self.wf(),
        ensures
            (self.spec_twiddle() * self.spec_twiddle()) % self.spec_modulus() == self.spec_root(),
    {
    }

    /// Internal consistency of a plan: every stored root and inverse is what its name says.
    pub closed spec fn wf(&self) -> bool {
        let m = self.modulus as nat;
        &&& m >= 3
        &&& self.size > 0
        &&& is_pow2(self.size as nat)
        &&& (m - 1) as nat % (2 * self.size as nat) == 0
        &&& self.root < self.modulus
        &&& self.root_inv < self.modulus
        &&& (self.root_inv as nat * self.root as nat) % m == 1
        &&& pow_mod(self.root as nat, self.size as nat, m) == 1
        &&& (self.negacyclic_twiddle as nat * self.negacyclic_twiddle as nat) % m == self.root as nat
        &&& self.negacyclic_twiddle < self.modulus
        &&& self.negacyclic_twiddle_inv < self.modulus
        &&& (self.negacyclic_twiddle_inv as nat * self.negacyclic_twiddle as nat) % m == 1
        &&& pow_mod(self.negacyclic_twiddle as nat, self.size as nat, m) == (m - 1) as nat
        &&& self.size_inv < self.modulus
        &&& (self.size_inv as nat * self.size as nat) % m == 1
        &&& self.size >= 2 ==> pow(self.root as int, (self.size / 2) as nat) % (m as int) == m - 1
        &&& self.size >= 2 ==> pow(self.root_inv as int, (self.size / 2) as nat) % (m as int) == m - 1
    }

    /// Build an NTT plan for a power-of-two transform size.
    pub fn new(size: usize, modulus: u64, primitive_root: u64) -> (result: Result<Self, String>)
        ensures
            match result {
                Ok(plan) => {
                    &&& ntt_plan_ok(size as nat, modulus as nat, primitive_root as nat)
                    &&& plan.wf()
                    &&& plan.spec_size() == size
                    &&& plan.spec_modulus() == modulus
                    &&& plan.spec_root() == pow_mod(
                        primitive_root as nat % modulus as nat,
                        ((modulus - 1) as nat / size as nat) as nat,
                        modulus as nat,
                    )
                    &&& plan.spec_twiddle() == pow_mod(
                        primitive_root as nat % modulus as nat,
                        ((modulus - 1) as nat / (2 * size as nat)) as nat,
                        modulus as nat,
                    )
                },
                Err(e) => {
                    &&& !ntt_plan_ok(size as nat, modulus as nat, primitive_root as nat)
                    &&& e@ == ntt_plan_error(size as nat, modulus as nat, primitive_root as nat)
                },
            },
    {
        if size == 0 || !size.is_power_of_two() {
            return Err("NTT size must be a non-zero power of two".to_string());
        }
        if modulus < 3 {
            return Err("modulus must be an odd prime larger than 2".to_string());
        }
        if (size as u64) > modulus - 1 || (modulus - 1) % size as u64 != 0 {
            proof {
                if (size as u64) > modulus - 1 {
                    lemma_small_mod((modulus - 1) as nat, size as nat);
                }
            }
            return Err("size must divide modulus - 1".to_string());
        }
        if (size as u64) > (modulus - 1) / 2 || (modulus - 1) % (2 * size as u64) != 0 {
            proof {
                if (size as u64) > (modulus - 1) / 2 {
                    assert(((modulus - 1) as nat) < 2 * (size as nat));
                    lemma_small_mod((modulus - 1) as nat, 2 * size as nat);
                }
            }
            return Err("2 * size must divide modulus - 1 for negacyclic NTTs".to_string());
        }
        let exponent = (modulus - 1) / size as u64;
        let root = mod_pow(primitive_root % modulus, exponent, modulus);
        if mod_pow(root, size as u64, modulus) != 1 {
            return Err("primitive_root does not generate a size-th root of unity".to_string());
        }
        if size > 1 && mod_pow(root, (size / 2) as u64, modulus) == 1 {
            return Err("root is not primitive for the requested size".to_string());
        }
        let root_inv = match mod_inv(root, modulus) {
            Some(inverse) => inverse,
            None => {
                return Err("root is not invertible".to_string());
            },
        };
        let size_inv = match mod_inv(size as u64, modulus) {
            Some(inverse) => inverse,
            None => {
                return Err("size is not invertible modulo modulus".to_string());
            },
        };
        let negacyclic_twiddle = mod_pow(
            primitive_root % modulus,
            (modulus - 1) / (2 * size as u64),
            modulus,
        );
        if mod_pow(negacyclic_twiddle, 2 * (size as u64), modulus) != 1 || mod_pow(
            negacyclic_twiddle,
            size as u64,
            modulus,
        ) != modulus - 1 {
            return Err("primitive_root does not generate a valid negacyclic twiddle".to_string());
        }
        let negacyclic_twiddle_inv = match mod_inv(negacyclic_twiddle, modulus) {
            Some(inverse) => inverse,
            None => {
                return Err("negacyclic twiddle is not invertible".to_string());
            },
        };
        proof {
            let g0 = (primitive_root % modulus) as int;
            let q0 = ((modulus - 1) / (2 * size as u64)) as nat;
            lemma_fundamental_div_mod((modulus - 1) as int, (2 * size) as int);
            assert(exponent == 2 * q0) by {
                assert((modulus - 1) as int == size as int * (2 * q0)) by (nonlinear_arith)
                    requires
                        (modulus - 1) as int == (2 * size) as int * q0,
                ;
                lemma_div_multiples_vanish((2 * q0) as int, size as int);
            }
            lemma_pow_adds(g0, q0, q0);
            lemma_mul_mod_noop(pow(g0, q0), pow(g0, q0), modulus as int);
            assert(negacyclic_twiddle as int == pow(g0, q0) % (modulus as int));
            assert(root as int == pow(g0, 2 * q0) % (modulus as int));
            if size >= 2 {
                let g = (primitive_root % modulus) as int;
                let q = ((modulus - 1) / (2 * size as u64)) as nat;
                lemma_fundamental_div_mod((modulus - 1) as int, (2 * size) as int);
                assert(exponent == 2 * q) by {
                    assert((modulus - 1) as int == size as int * (2 * q)) by (nonlinear_arith)
                        requires
                            (modulus - 1) as int == (2 * size) as int * q,
                    ;
                    lemma_div_multiples_vanish((2 * q) as int, size as int);
                }
                assert(size % 2 == 0);
                lemma_root_half(g, q, size as nat, modulus as int);
                lemma_inverse_half(root as int, root_inv as int, (size / 2) as nat, modulus as int);
            }
        }
        Ok(
            Self {
                modulus,
                size,
                root,
                root_inv,
                negacyclic_twiddle,
                negacyclic_twiddle_inv,
                size_inv,
            },
        )
    }

    pub fn size(&self) -> (r: usize)
        ensures
            r == self.spec_size(),
    {
        self.size
    }

    pub fn modulus(&self) -> (r: u64)
        ensures
            r == self.spec_modulus(),
    {
        self.modulus
    }

    pub fn negacyclic_twiddle(&self) -> (r: u64)
        ensures
            r == self.spec_twiddle(),
    {
        self.negacyclic_twiddle
    }

    pub fn negacyclic_twiddle_inv(&self) -> (r: u64)
        ensures
            r == self.spec_twiddle_inv(),
    {
        self.negacyclic_twiddle_inv
    }

    /// The plan's consistency facts, for callers: the transform root and its
    /// inverse form a root pair of order `size`, `size` has the stored
    /// inverse, and the twist root is a `2*size`-th root whose `size`-th power is `-1`.
    pub proof fn lemma_plan_facts(&self)
        requires
            self.wf(),
        ensures
            self.spec_modulus() >= 3,
            self.spec_modulus() <= u64::MAX,
            self.spec_size() > 0,
            is_pow2(self.spec_size()),
            self.spec_root() < self.spec_modulus(),
            self.spec_root_inv() < self.spec_modulus(),
            self.spec_size_inv() < self.spec_modulus(),
            root_pair(self.spec_root() as int, self.spec_root_inv() as int, self.spec_size(), self.spec_modulus() as int),
            root_pair(self.spec_root_inv() as int, self.spec_root() as int, self.spec_size(), self.spec_modulus() as int),
            (self.spec_size_inv() * self.spec_size()) % self.spec_modulus() == 1,
            self.spec_twiddle() < self.spec_modulus(),
            self.spec_twiddle_inv() < self.spec_modulus(),
            (self.spec_twiddle_inv() * self.spec_twiddle()) % self.spec_modulus() == 1,
            pow(self.spec_twiddle() as int, self.spec_size()) % (self.spec_modulus() as int) == self.spec_modulus() - 1,
    {
        let m = self.modulus as int;
        assert(pow(self.negacyclic_twiddle as int, self.size as nat) % m == (m - 1)) by {
            reveal(pow_mod);
        }
        lemma_mul_is_commutative(self.root as int, self.root_inv as int);
    }

    /// Forward transform in place: entry `k` becomes `sum_j a_j * root^(j*k) mod q`.
    pub fn forward(&self, values: &mut Vec<u64>)
        requires
            self.wf(),
            old(values)@.len() == self.spec_size(),
            forall|i: int| 0 <= i < old(values)@.len() ==> old(values)@[i] < self.spec_modulus(),
        ensures
            final(values)@ == transform(old(values)@, self.spec_root() as int, self.spec_modulus() as int),
            forall|i: int| 0 <= i < final(values)@.len() ==> final(values)@[i] < self.spec_modulus(),
    {
        let ghost a = values@;
        ntt_in_place(values, self.modulus, self.root);
        proof {
            let m = self.modulus as int;
            assert forall|k: int| 0 <= k < values@.len() implies values@[k] < self.spec_modulus() by {
                lemma_mod_bound(dft(a, self.root as int, k), m);
            }
            assert(values@ =~= transform(a, self.root as int, m));
        }
    }

    /// Inverse transform in place: the transform with the inverse root, scaled by `1/size`.
    pub fn inverse(&self, values: &mut Vec<u64>)
        requires
            self.wf(),
            old(values)@.len() == self.spec_size(),
            forall|i: int| 0 <= i < old(values)@.len() ==> old(values)@[i] < self.spec_modulus(),
        ensures
            final(values)@ == scaled_transform(
                old(values)@,
                self.spec_root_inv() as int,
                self.spec_size_inv() as int,
                self.spec_modulus() as int,
            ),
            forall|i: int| 0 <= i < final(values)@.len() ==> final(values)@[i] < self.spec_modulus(),
    {
        let ghost a = values@;
        let ghost m = self.modulus as int;
        ntt_in_place(values, self.modulus, self.root_inv);
        let n = values.len();
        let mut index: usize = 0;
        while index < n
            invariant
                self.wf(),
                m == self.modulus,
                n == values@.len(),
                n == a.len(),
                index <= n,
                forall|k: int|
                    0 <= k < index ==> #[trigger] values@[k] as int == (self.size_inv as int * dft(
                        a,
                        self.root_inv as int,
                        k,
                    )) % m,
                forall|k: int|
                    index <= k < n ==> #[trigger] values@[k] as int == dft(a, self.root_inv as int, k) % m,
            decreases n - index,
        {
            let ghost d = dft(a, self.root_inv as int, index as int);
            let scaled = mod_mul(values[index], self.size_inv, self.modulus);
            proof {
                lemma_mul_mod_noop_left(d, self.size_inv as int, m);
                lemma_mul_is_commutative(d, self.size_inv as int);
            }
            values.set(index, scaled);
            index += 1;
        }
        proof {
            assert forall|k: int| 0 <= k < values@.len() implies values@[k] < self.spec_modulus() by {
                lemma_mod_bound(self.size_inv as int * dft(a, self.root_inv as int, k), m);
            }
            assert(values@ =~= scaled_transform(a, self.root_inv as int, self.size_inv as int, m));
        }
    }

    /// The inverse transform undoes the forward transform: for reduced values
    /// `a` of the plan's size, `inverse(forward(a)) == a`.
    pub proof fn lemma_forward_inverse_round_trip(&self, a: Seq<u64>)
        requires
            self.wf(),
            a.len() == self.spec_size(),
            forall|i: int| 0 <= i < a.len() ==> #[trigger] a[i] < self.spec_modulus(),
        ensures
            scaled_transform(
                transform(a, self.spec_root() as int, self.spec_modulus() as int),
                self.spec_root_inv() as int,
                self.spec_size_inv() as int,
                self.spec_modulus() as int,
            ) == a,
    {
        self.lemma_plan_facts();
        lemma_dft_round_trip(
            a,
            self.spec_root() as int,
            self.spec_root_inv() as int,
            self.spec_size_inv() as int,
            self.spec_modulus() as int,
        );
    }

    /// The forward transform undoes the inverse transform: for reduced values
    /// `a` of the plan's size, `forward(inverse(a)) == a`.
    pub proof fn lemma_inverse_forward_round_trip(&self, a: Seq<u64>)
        requires
            self.wf(),
            a.len() == self.spec_size(),
            forall|i: int| 0 <= i < a.len() ==> #[trigger] a[i] < self.spec_modulus(),
        ensures
            transform(
                scaled_transform(a, self.spec_root_inv() as int, self.spec_size_inv() as int, self.spec_modulus() as int),
                self.spec_root() as int,
                self.spec_modulus() as int,
            ) == a,
    {
        self.lemma_plan_facts();
        lemma_dft_round_trip_reverse(
            a,
            self.spec_root() as int,
            self.spec_root_inv() as int,
            self.spec_size_inv() as int,
            self.spec_modulus() as int,
        );
    }
}

fn ntt_in_place(values: &mut Vec<u64>, modulus: u64, root: u64)
    requires
        modulus > 1,
        is_pow2(old(values)@.len() as nat),
        forall|i: int| 0 <= i < old(values)@.len() ==> old(values)@[i] < modulus,
        old(values)@.len() >= 2 ==> pow(root as int, old(values)@.len() / 2) % (modulus as int) == modulus - 1,
    ensures
        final(values)@.len() == old(values)@.len(),
        forall|k: int|
            0 <= k < final(values)@.len() ==> #[trigger] final(values)@[k] as int == dft(old(values)@, root as int, k)
                % (modulus as int),
{
    let ghost a = values@;
    let ghost m = modulus as int;
    let ghost w = root as int;
    let n = values.len();
    proof {
        lemma_pow2_positive(n as nat);
    }
    bit_reverse_permute(values);
    proof {
        assert forall|p: int| 0 <= p < n implies values@[p] as int == #[trigger] ntt_stage(a, w, 1, p) % m by {
            lemma_stage_start(a, w, p);
            lemma_bit_rev_bound(n as nat, p as nat);
            lemma_small_mod(a[bit_rev(n as nat, p as nat) as int] as nat, m as nat);
        }
    }
    let mut half: usize = 1;
    while half < n
        invariant
            modulus > 1,
            m == modulus,
            w == root,
            n == values@.len(),
            n == a.len(),
            is_pow2(n as nat),
            is_pow2(half as nat),
            1 <= half <= n,
            n >= 2 ==> pow(w, (n / 2) as nat) % m == m - 1,
            forall|p: int| 0 <= p < n ==> values@[p] as int == #[trigger] ntt_stage(a, w, half as nat, p) % m,
        decreases n - half,
    {
        proof {
            lemma_pow2_double(half as nat, n as nat);
            lemma_pow2_divides((2 * half) as nat, n as nat);
        }
        let len = 2 * half;
        let step = n / len;
        let w_len = mod_pow(root, step as u64, modulus);
        let ghost big = step as nat;
        let ghost tw = pow(w, big);

        let mut chunk_start: usize = 0;
        while chunk_start < n
            invariant
                modulus > 1,
                m == modulus,
                w == root,
                n == values@.len(),
                n == a.len(),
                1 <= half,
                len == 2 * half,
                len <= n,
                n % len == 0,
                step == n / len,
                big == step,
                tw == pow(w, big),
                w_len as int == tw % m,
                n >= 2 ==> pow(w, (n / 2) as nat) % m == m - 1,
                chunk_start % len == 0,
                chunk_start <= n,
                forall|p: int|
                    0 <= p < n ==> #[trigger] values@[p] as int == (if p < chunk_start {
                        ntt_stage(a, w, len as nat, p)
                    } else {
                        ntt_stage(a, w, half as nat, p)
                    }) % m,
            decreases n - chunk_start,
        {
            proof {
                lemma_next_multiple(chunk_start as int, n as int, len as int);
            }
            let ghost block = (chunk_start / len) as nat;
            proof {
                lemma_fundamental_div_mod(chunk_start as int, len as int);
                lemma_fundamental_div_mod(n as int, len as int);
                assert(block < n / len) by (nonlinear_arith)
                    requires
                        chunk_start == len * block,
                        chunk_start + len <= n,
                        n == len * (n / len),
                        len > 0,
                ;
                lemma_pow0(tw);
                lemma_small_mod(1, m as nat);
            }
            let mut w: u64 = 1;
            let mut i: usize = 0;
            while i < half
                invariant
                    modulus > 1,
                    m == modulus,
                    n == values@.len(),
                    n == a.len(),
                    1 <= half,
                    len == 2 * half,
                    n % len == 0,
                    chunk_start == block * len,
                    block < n / len,
                    chunk_start + len <= n,
                    big == n / len,
                    tw == pow(root as int, big),
                    w_len as int == tw % m,
                    n >= 2 ==> pow(root as int, (n / 2) as nat) % m == m - 1,
                    i <= half,
                    w as int == pow(tw, i as nat) % m,
                    forall|p: int|
                        0 <= p < n ==> #[trigger] values@[p] as int == (if p < chunk_start + i || (chunk_start
                            + half <= p && p < chunk_start + half + i) {
                            ntt_stage(a, root as int, len as nat, p)
                        } else {
                            ntt_stage(a, root as int, half as nat, p)
                        }) % m,
                decreases half - i,
            {
                let ghost p0 = (chunk_start + i) as int;
                let ghost e_val = ntt_stage(a, root as int, half as nat, p0);
                let ghost o_val = ntt_stage(a, root as int, half as nat, p0 + half);
                let u = values[chunk_start + i];
                let x = values[chunk_start + i + half];
                proof {
                    lemma_mod_bound(e_val, m);
                    lemma_mod_bound(o_val, m);
                    lemma_mod_bound(pow(tw, i as nat), m);
                }
                let v = mod_mul(x, w, modulus);
                let left = mod_add(u, v, modulus);
                let right = mod_sub(u, v, modulus);
                proof {
                    assert(n >= 2);
                    lemma_stage_butterfly(a, root as int, m, half as nat, block, i as nat);
                    assert((block * (2 * half) + i) as int == p0);
                    lemma_butterfly_mod(u as int, x as int, w as int, e_val, o_val, pow(tw, i as nat), m);
                }
                values.set(chunk_start + i, left);
                values.set(chunk_start + i + half, right);
                let next_w = mod_mul(w, w_len, modulus);
                proof {
                    lemma_mul_mod_noop(pow(tw, i as nat), tw, m);
                    lemma_pow_adds(tw, i as nat, 1);
                    lemma_pow1(tw);
                }
                w = next_w;
                i += 1;
            }
            proof {
                lemma_mod_multiples_vanish(1, chunk_start as int, len as int);
            }
            chunk_start += len;
        }
        half = len;
    }
    proof {
        assert forall|k: int| 0 <= k < n implies #[trigger] values@[k] as int == dft(a, w, k) % m by {
            lemma_stage_end(a, w, k);
        }
    }
}

/// The double of a power of two below another power of two is a power of two
/// that does not pass it.
proof fn lemma_pow2_double(h: nat, n: nat)
    requires
        is_pow2(h),
        is_pow2(n),
        h < n,
    ensures
        is_pow2(2 * h),
        2 * h <= n,
    decreases n,
{
    assert((2 * h) / 2 == h && (2 * h) % 2 == 0);
    if h == 1 {
        assert(n >= 2 && n % 2 == 0);
    } else {
        lemma_pow2_halves(h, n);
        lemma_pow2_double(h / 2, n / 2);
    }
}

/// Powers of two are positive.
proof fn lemma_pow2_positive(n: nat)
    requires
        is_pow2(n),
    ensures
        n >= 1,
{
}

fn bit_reverse_permute(values: &mut Vec<u64>)
    requires
        is_pow2(old(values)@.len() as nat),
    ensures
        final(values)@.len() == old(values)@.len(),
        forall|k: int|
            0 <= k < final(values)@.len() ==> #[trigger] final(values)@[k] == old(values)@[bit_rev(
                old(values)@.len(),
                k as nat,
            ) as int],
{
    let ghost a = values@;
    let n = values.len();
    proof {
        lemma_pow2_bits(n);
        assert(bit_rev(n as nat, 0) == 0) by {
            lemma_bit_rev_zero(n as nat);
        }
    }
    let mut j: usize = 0;
    let mut i: usize = 1;
    proof {
        assert forall|x: int| 0 <= x < n implies #[trigger] values@[x] == (if x < 1 || bit_rev(n as nat, x as nat)
            < 1 {
            a[bit_rev(n as nat, x as nat) as int]
        } else {
            a[x]
        }) by {
            lemma_bit_rev_involution(n as nat, x as nat);
        }
    }
    while i < n
        invariant
            n == values@.len(),
            n == a.len(),
            is_pow2(n as nat),
            n > 0,
            1 <= i <= n,
            j == bit_rev(n as nat, (i - 1) as nat),
            forall|x: int|
                0 <= x < n ==> #[trigger] values@[x] == (if x < i || bit_rev(n as nat, x as nat) < i {
                    a[bit_rev(n as nat, x as nat) as int]
                } else {
                    a[x]
                }),
        decreases n - i,
    {
        let ghost target = bit_rev(n as nat, i as nat);
        proof {
            lemma_pow2_half(n as nat);
            lemma_bit_rev_increment(n as nat, (i - 1) as nat);
            lemma_bit_rev_bound(n as nat, (i - 1) as nat);
            lemma_bit_rev_top(n as nat);
            if j == n - 1 {
                lemma_bit_rev_involution(n as nat, (i - 1) as nat);
            }
            assert(n >> 1 == n / 2) by (bit_vector);
        }
        let mut bit = n >> 1;
        while j & bit != 0
            invariant
                is_pow2(bit as nat),
                1 <= bit,
                2 * bit <= n,
                j < 2 * bit - 1,
                rev_increment(2 * bit as nat, j as nat) == target,
            decreases bit,
        {
            proof {
                lemma_pow2_bits(bit);
                lemma_set_bit_facts(j, bit);
                if bit >= 2 {
                    lemma_pow2_half(bit as nat);
                }
            }
            j ^= bit;
            assert(bit >> 1 == bit / 2) by (bit_vector);
            bit >>= 1;
        }
        proof {
            lemma_pow2_bits(bit);
            lemma_set_bit_facts(j, bit);
        }
        j ^= bit;
        assert(j == target);
        proof {
            lemma_bit_rev_bound(n as nat, i as nat);
            lemma_bit_rev_involution(n as nat, i as nat);
        }
        if i < j {
            let left = values[i];
            let right = values[j];
            values.set(i, right);
            values.set(j, left);
        }
        proof {
            assert forall|x: int| 0 <= x < n implies #[trigger] values@[x] == (if x < i + 1 || bit_rev(
                n as nat,
                x as nat,
            ) < i + 1 {
                a[bit_rev(n as nat, x as nat) as int]
            } else {
                a[x]
            }) by {
                lemma_bit_rev_bound(n as nat, x as nat);
                lemma_bit_rev_involution(n as nat, x as nat);
            }
        }
        i += 1;
    }
    proof {
        assert forall|k: int| 0 <= k < n implies #[trigger] values@[k] == a[bit_rev(n as nat, k as nat) as int] by {
            if n == 1 {
                lemma_bit_rev_zero(n as nat);
            }
        }
    }
}

/// For a power of two `bit` and `j < 2 * bit`: the bit is set exactly when
/// `j >= bit`, and toggling it subtracts or adds `bit`.
proof fn lemma_set_bit_facts(j: usize, bit: usize)
    requires
        bit > 0,
        bit & ((bit - 1) as usize) == 0,
        j < 2 * bit,
    ensures
        (j & bit != 0) == (j >= bit),
        j >= bit ==> j ^ bit == j - bit,
        j < bit ==> j ^ bit == j + bit,
{
    assert((j & bit != 0) == (j >= bit)) by (bit_vector)
        requires
            bit > 0,
            bit & ((bit - 1) as usize) == 0,
            j < 2 * bit,
    ;
    assert(j >= bit ==> j ^ bit == j - bit) by (bit_vector)
        requires
            bit > 0,
            bit & ((bit - 1) as usize) == 0,
            j < 2 * bit,
    ;
    assert(j < bit ==> j ^ bit == j + bit) by (bit_vector)
        requires
            bit > 0,
            bit & ((bit - 1) as usize) == 0,
            j < 2 * bit,
    ;
}


/// Squaring the twist root gives the transform root, so the transform root
/// to the half size is the twist root to the full size, `-1`.
proof fn lemma_root_half(g: int, q: nat, size: nat, m: int)
    requires
        m > 1,
        size >= 2,
        size % 2 == 0,
        pow(pow(g, q) % m, size) % m == m - 1,
    ensures
        pow(pow(g, 2 * q) % m, size / 2) % m == m - 1,
{
    lemma_pow_mod_noop(pow(g, q), size, m);
    lemma_pow_mod_noop(pow(g, 2 * q), size / 2, m);
    lemma_pow_multiplies(g, q, size);
    lemma_pow_multiplies(g, 2 * q, size / 2);
    assert((2 * q) * (size / 2) == q * size) by (nonlinear_arith)
        requires
            size % 2 == 0,
    ;
}

/// The inverse of an element whose `h`-th power is `-1` has `-1` as its
/// `h`-th power too.
proof fn lemma_inverse_half(r: int, ri: int, h: nat, m: int)
    requires
        m > 1,
        (ri * r) % m == 1,
        pow(r, h) % m == m - 1,
    ensures
        pow(ri, h) % m == m - 1,
{
    let a = pow(ri, h);
    lemma_pow_distributes(ri, r, h);
    lemma_pow_mod_noop(ri * r, h, m);
    lemma1_pow(h);
    lemma_small_mod(1, m as nat);
    // a * r^h = 1 and r^h = -1 (mod m), so -a = 1 (mod m)
    lemma_mul_mod_noop_right(a, pow(r, h), m);
    assert(a * (m - 1) == a * m - a) by (nonlinear_arith);
    lemma_mod_multiples_vanish(a, -a, m);
    lemma_mul_is_commutative(a, m);
    assert((-a) % m == 1);
    lemma_mod_bound(a, m);
    lemma_fundamental_div_mod(-a, m);
    lemma_fundamental_div_mod(a, m);
    assert(a % m == m - 1) by {
        let qa = a / m;
        let qn = (-a) / m;
        assert(-a == m * qn + 1);
        assert(a == m * qa + a % m);
        assert(a % m + 1 == m * (-qa - qn)) by (nonlinear_arith)
            requires
                -a == m * qn + 1,
                a == m * qa + a % m,
        ;
        assert(0 <= a % m < m);
        assert(-qa - qn == 1) by (nonlinear_arith)
            requires
                a % m + 1 == m * (-qa - qn),
                0 <= a % m < m,
                m > 1,
        ;
    }
}

/// A power of two divides every power of two that is at least as large.
proof fn lemma_pow2_divides(a: nat, b: nat)
    requires
        is_pow2(a),
        is_pow2(b),
        a <= b,
    ensures
        b % a == 0,
    decreases b,
{
    if a == b {
        lemma_mod_self_0(a as int);
    } else if a == 1 {
        lemma_mod_basics_one(b);
    } else {
        lemma_pow2_halves(a, b);
        lemma_pow2_divides(a / 2, b / 2);
        let k = (b / 2) / (a / 2);
        lemma_fundamental_div_mod((b / 2) as int, (a / 2) as int);
        assert(b == a * k) by (nonlinear_arith)
            requires
                b == 2 * (b / 2),
                a == 2 * (a / 2),
                (b / 2) as int == (a / 2) as int * k,
        ;
        lemma_mod_multiples_basic(k as int, a as int);
        lemma_mul_is_commutative(a as int, k as int);
    }
}

proof fn lemma_mod_basics_one(b: nat)
    ensures
        b % 1 == 0,
{
}

/// Two distinct powers of two above one halve to smaller powers of two.
proof fn lemma_pow2_halves(a: nat, b: nat)
    requires
        is_pow2(a),
        is_pow2(b),
        1 < a < b,
    ensures
        is_pow2(a / 2),
        is_pow2(b / 2),
        a / 2 < b / 2,
        a == 2 * (a / 2),
        b == 2 * (b / 2),
{
}

/// The next multiple of `k` after a smaller multiple of `k` does not pass `n`.
proof fn lemma_next_multiple(c: int, n: int, k: int)
    requires
        k > 0,
        0 <= c < n,
        c % k == 0,
        n % k == 0,
    ensures
        c + k <= n,
{
    lemma_fundamental_div_mod(c, k);
    lemma_fundamental_div_mod(n, k);
    let qc = c / k;
    let qn = n / k;
    assert(qc < qn) by (nonlinear_arith)
        requires
            c == k * qc,
            n == k * qn,
            c < n,
            k > 0,
    ;
    assert(k * qc + k <= k * qn) by (nonlinear_arith)
        requires
            qc < qn,
            k > 0,
    ;
}

/// Powers of two have a single set bit.
proof fn lemma_pow2_bits(n: usize)
    requires
        is_pow2(n as nat),
    ensures
        n > 0,
        n & ((n - 1) as usize) == 0,
    decreases n,
{
    if n == 1 {
        assert(1usize & 0usize == 0) by (bit_vector);
    } else {
        let h = (n / 2) as usize;
        lemma_pow2_bits(h);
        assert(n & ((n - 1) as usize) == 0) by (bit_vector)
            requires
                h > 0,
                h & ((h - 1) as usize) == 0,
                n == 2 * h,
        ;
    }
}

fn mod_add(a: u64, b: u64, modulus: u64) -> (r: u64)
    requires
        a < modulus,
        b < modulus,
    ensures
        r == (a as nat + b as nat) % modulus as nat,
{
    let sum = a as u128 + b as u128;
    if sum >= modulus as u128 {
        proof {
            lemma_fundamental_div_mod_converse(
                (a + b) as int,
                modulus as int,
                1,
                (a + b - modulus) as int,
            );
        }
        (sum - modulus as u128) as u64
    } else {
        proof {
            lemma_small_mod((a + b) as nat, modulus as nat);
        }
        sum as u64
    }
}

fn mod_sub(a: u64, b: u64, modulus: u64) -> (r: u64)
    requires
        a < modulus,
        b < modulus,
    ensures
        r == (a as int - b as int) % modulus as int,
{
    if a >= b {
        proof {
            lemma_small_mod((a - b) as nat, modulus as nat);
        }
        a - b
    } else {
        proof {
            lemma_fundamental_div_mod_converse(
                a as int - b as int,
                modulus as int,
                -1,
                (modulus - (b - a)) as int,
            );
        }
        modulus - (b - a)
    }
}

fn mod_mul(a: u64, b: u64, modulus: u64) -> (r: u64)
    requires
        modulus > 0,
    ensures
        r == (a as nat * b as nat) % modulus as nat,
        r < modulus,
{
    proof {
        lemma_mul_upper_bound(a as int, u64::MAX as int, b as int, u64::MAX as int);
    }
    let product = a as u128 * b as u128;
    proof {
        lemma_mod_bound(product as int, modulus as int);
    }
    (product % modulus as u128) as u64
}

pub(crate) fn mod_pow(base: u64, exp: u64, modulus: u64) -> (r: u64)
    requires
        modulus > 1,
    ensures
        r == pow_mod(base as nat, exp as nat, modulus as nat),
        r < modulus,
{
    let ghost b0 = base as int;
    let ghost e0 = exp as nat;
    let ghost m = modulus as int;
    let mut base = base;
    let mut exp = exp;
    let mut result = 1u64;
    proof {
        lemma_small_mod(1, modulus as nat);
        lemma_mul_basics(pow(b0, e0));
    }
    while exp > 0
        invariant
            modulus > 1,
            m == modulus,
            result < modulus,
            (result as int * pow(base as int, exp as nat)) % m == (1 * pow(b0, e0)) % m,
        decreases exp,
    {
        proof {
            lemma_square_multiply_step(result as int, base as int, exp as nat, m);
        }
        if exp & 1 == 1 {
            assert(exp % 2 == 1) by (bit_vector)
                requires
                    exp & 1 == 1,
            ;
            result = mod_mul(result, base, modulus);
        } else {
            assert(exp % 2 == 0) by (bit_vector)
                requires
                    exp & 1 != 1,
            ;
        }
        base = mod_mul(base, base, modulus);
        assert(exp >> 1 == exp / 2) by (bit_vector);
        exp >>= 1;
    }
    proof {
        lemma_pow0(base as int);
        lemma_small_mod(result as nat, modulus as nat);
        lemma_mul_basics(pow(b0, e0));
    }
    result
}

/// Inverse of `value` modulo `modulus` by the extended Euclidean algorithm.
pub(crate) fn mod_inv(value: u64, modulus: u64) -> (r: Option<u64>)
    requires
        modulus > 1,
    ensures
        match r {
            Some(x) => x < modulus && (x as nat * value as nat) % modulus as nat == 1,
            None => !has_inverse(value as nat, modulus as nat),
        },
{
    let ghost m = modulus as int;
    let ghost v = value as int;
    if value == 0 {
        proof {
            assert forall|y: nat| #[trigger] ((y * value as nat) % modulus as nat) != 1 by {
                assert(y * value as nat == 0);
                lemma_small_mod(0, modulus as nat);
            }
        }
        return None;
    }
    let mut t: i128 = 0;
    let mut new_t: i128 = 1;
    let mut r: i128 = modulus as i128;
    let mut new_r: i128 = value as i128;
    let ghost mut k1: int = -1;
    let ghost mut k2: int = 0;
    let ghost mut a: int = 1;
    let ghost mut b: int = 0;
    let ghost mut c: int = 0;
    let ghost mut d: int = 1;

    while new_r != 0
        invariant
            m == modulus,
            v == value,
            m > 1,
            0 < r < 0x1_0000_0000_0000_0000,
            0 <= new_r < 0x1_0000_0000_0000_0000,
            t * v - r == k1 * m,
            new_t * v - new_r == k2 * m,
            m == a * r + b * new_r,
            v == c * r + d * new_r,
            t * new_t <= 0,
            iabs(new_t as int) * r + iabs(t as int) * new_r == m,
            iabs(t as int) <= m,
            iabs(new_t as int) <= m,
        decreases new_r,
    {
        let quotient = r / new_r;
        proof {
            lemma_euclid_step(t as int, new_t as int, r as int, new_r as int, quotient as int, m);
            lemma_combination_step(
                t as int,
                new_t as int,
                r as int,
                new_r as int,
                quotient as int,
                v,
                m,
                k1,
                k2,
            );
            lemma_basis_step(r as int, new_r as int, quotient as int, m, a, b);
            lemma_basis_step(r as int, new_r as int, quotient as int, v, c, d);
        }
        let next_t = t - quotient * new_t;
        let next_r = r - quotient * new_r;
        proof {
            let old_k1 = k1;
            k1 = k2;
            k2 = old_k1 - quotient * k2;
            let old_a = a;
            a = a * quotient + b;
            b = old_a;
            let old_c = c;
            c = c * quotient + d;
            d = old_c;
        }
        t = new_t;
        new_t = next_t;
        r = new_r;
        new_r = next_r;
    }

    if r != 1 {
        proof {
            lemma_no_inverse(v, m, r as int, a, c);
        }
        return None;
    }

    let ghost t0 = t as int;
    if t < 0 {
        t += modulus as i128;
    }
    let reduced = t % modulus as i128;
    proof {
        lemma_inverse_from_bezout(t0, t as int, reduced as int, v, m, k1);
    }
    Some(reduced as u64)
}

proof fn lemma_euclid_step(t: int, nt: int, r: int, nr: int, q: int, m: int)
    requires
        nr > 0,
        r > 0,
        q == r / nr,
        t * nt <= 0,
        iabs(nt) * r + iabs(t) * nr == m,
    ensures
        0 <= q <= r,
        0 <= q * nr <= r,
        0 <= r - q * nr < nr,
        nt * (t - q * nt) <= 0,
        iabs(t - q * nt) == iabs(t) + q * iabs(nt),
        iabs(t - q * nt) * nr + iabs(nt) * (r - q * nr) == m,
        iabs(q * nt) <= q * iabs(nt),
        iabs(q * nt) <= m,
        iabs(t - q * nt) <= m,
{
    lemma_fundamental_div_mod(r, nr);
    lemma_mod_bound(r, nr);
    lemma_div_pos_is_pos(r, nr);
    assert(q * nr <= r);
    assert(q <= r) by (nonlinear_arith)
        requires
            q * nr <= r,
            nr >= 1,
            q >= 0,
    ;
    if nt >= 0 {
        assert(t <= 0 || nt == 0) by (nonlinear_arith)
            requires
                t * nt <= 0,
                nt >= 0,
        ;
        if nt == 0 {
            assert(q * nt == 0);
        } else {
            assert(q * nt >= 0) by (nonlinear_arith)
                requires
                    q >= 0,
                    nt >= 0,
            ;
            assert(nt * (t - q * nt) <= 0) by (nonlinear_arith)
                requires
                    nt > 0,
                    t <= 0,
                    q * nt >= 0,
            ;
        }
    } else {
        assert(t >= 0) by (nonlinear_arith)
            requires
                t * nt <= 0,
                nt < 0,
        ;
        assert(q * nt <= 0) by (nonlinear_arith)
            requires
                q >= 0,
                nt < 0,
        ;
        assert(nt * (t - q * nt) <= 0) by (nonlinear_arith)
            requires
                nt < 0,
                t >= 0,
                q * nt <= 0,
        ;
    }
    assert(iabs(q * nt) == q * iabs(nt)) by (nonlinear_arith)
        requires
            q >= 0,
    ;
    let at = iabs(t);
    let ant = iabs(nt);
    assert(iabs(t - q * nt) == at + q * ant);
    assert((at + q * ant) * nr + ant * (r - q * nr) == ant * r + at * nr) by (nonlinear_arith);
    assert(ant * (r - q * nr) >= 0) by (nonlinear_arith)
        requires
            ant >= 0,
            r - q * nr >= 0,
    ;
    assert((at + q * ant) <= m) by (nonlinear_arith)
        requires
            (at + q * ant) * nr + ant * (r - q * nr) == m,
            ant * (r - q * nr) >= 0,
            nr >= 1,
            at + q * ant >= 0,
    ;
}

proof fn lemma_combination_step(
    t: int,
    nt: int,
    r: int,
    nr: int,
    q: int,
    v: int,
    m: int,
    k1: int,
    k2: int,
)
    requires
        t * v - r == k1 * m,
        nt * v - nr == k2 * m,
    ensures
        (t - q * nt) * v - (r - q * nr) == (k1 - q * k2) * m,
{
    assert((t - q * nt) * v - (r - q * nr) == (t * v - r) - q * (nt * v - nr)) by (nonlinear_arith);
    assert(q * (k2 * m) == (q * k2) * m) by (nonlinear_arith);
    assert((k1 - q * k2) * m == k1 * m - (q * k2) * m) by (nonlinear_arith);
}

proof fn lemma_basis_step(r: int, nr: int, q: int, x: int, a: int, b: int)
    requires
        x == a * r + b * nr,
    ensures
        x == (a * q + b) * nr + a * (r - q * nr),
{
    assert((a * q + b) * nr + a * (r - q * nr) == a * r + b * nr) by (nonlinear_arith);
}

proof fn lemma_no_inverse(v: int, m: int, r: int, a: int, c: int)
    requires
        m > 1,
        r > 1,
        m == a * r,
        v == c * r,
        v >= 0,
    ensures
        !has_inverse(v as nat, m as nat),
{
    assert forall|y: nat| #[trigger] ((y * v as nat) % m as nat) != 1 by {
        if (y * v as nat) % m as nat == 1 {
            let yv = y as int * v;
            let quo = yv / m;
            lemma_fundamental_div_mod(yv, m);
            assert(yv == m * quo + 1);
            let z = y as int * c - quo * a;
            assert(r * z == 1) by (nonlinear_arith)
                requires
                    yv == y as int * v,
                    yv == m * quo + 1,
                    m == a * r,
                    v == c * r,
                    z == y as int * c - quo * a,
            ;
            assert(false) by (nonlinear_arith)
                requires
                    r > 1,
                    r * z == 1,
            ;
        }
    }
}

proof fn lemma_inverse_from_bezout(t0: int, t1: int, x: int, v: int, m: int, k1: int)
    requires
        m > 1,
        v >= 0,
        t0 * v - 1 == k1 * m,
        -m <= t0 <= m,
        t1 == (if t0 < 0 { t0 + m } else { t0 }),
        x == t1 % m,
    ensures
        0 <= x < m,
        ((x as nat) * (v as nat)) % (m as nat) == 1,
{
    lemma_fundamental_div_mod(t1, m);
    lemma_mod_bound(t1, m);
    let j = t1 / m;
    lemma_mul_is_commutative(m, j);
    let shift = if t0 < 0 { 1int } else { 0int };
    assert(x == t0 + shift * m - j * m);
    assert(x * v == 1 + (k1 + shift * v - j * v) * m) by (nonlinear_arith)
        requires
            x == t0 + shift * m - j * m,
            t0 * v - 1 == k1 * m,
    ;
    lemma_mod_multiples_vanish(k1 + shift * v - j * v, 1, m);
    lemma_small_mod(1, m as nat);
    assert(m * (k1 + shift * v - j * v) + 1 == x * v) by (nonlinear_arith)
        requires
            x * v == 1 + (k1 + shift * v - j * v) * m,
    ;
}

} // verus!
