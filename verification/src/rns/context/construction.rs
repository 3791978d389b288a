//! Building a context from parameters, and the bases it exposes.

use crate::math::bignum::bit_length;
use crate::math::text::decimal;
use vstd::prelude::*;

use crate::math::arith::has_inverse;
use super::super::basis::{level_count_text, mod_inv_u64, prefix_primes, rns_basis_ok, RnsContext, RnsPrime};
use super::super::coprime::{is_prime, lemma_distinct_primes_coprime, moduli_above_one, pairwise_coprime};
use super::params::is_params_error;
use super::{params_ok, RnsCkksContext, RnsCkksParams};

verus! {

/// A copy of a slice of primes.
pub(crate) fn copy_primes(primes: &[RnsPrime]) -> (r: Vec<RnsPrime>)
    ensures
        r@ == primes@,
{
    let mut out: Vec<RnsPrime> = Vec::with_capacity(primes.len());
    let mut i: usize = 0;
    while i < primes.len()
        invariant
            i <= primes@.len(),
            out@ == primes@.subrange(0, i as int),
        decreases primes@.len() - i,
    {
        out.push(primes[i]);
        i += 1;
        proof {
            assert(out@ =~= primes@.subrange(0, i as int));
        }
    }
    proof {
        assert(out@ =~= primes@);
    }
    out
}

/// The primes of `first` followed by those of `second`.
pub(crate) fn concat_primes(first: &[RnsPrime], second: &[RnsPrime]) -> (r: Vec<RnsPrime>)
    ensures
        r@ == first@ + second@,
{
    let mut out = copy_primes(first);
    let mut i: usize = 0;
    while i < second.len()
        invariant
            i <= second@.len(),
            out@ == first@ + second@.subrange(0, i as int),
        decreases second@.len() - i,
    {
        out.push(second[i]);
        i += 1;
        proof {
            assert(out@ =~= first@ + second@.subrange(0, i as int));
        }
    }
    proof {
        assert(second@.subrange(0, second@.len() as int) =~= second@);
    }
    out
}

/// The message for a level outside `0..levels`.
pub open spec fn level_text(levels: nat, level: nat) -> Seq<char> {
    "level must be in 0.."@ + decimal(levels) + ", got "@ + decimal(level)
}

/// `format!` of a level outside the chain.
#[verifier::external_body]
fn describe_level(levels: usize, level: usize) -> (r: String)
    ensures
        r@ == level_text(levels as nat, level as nat),
{
    format!("level must be in 0..{levels}, got {level}")
}

/// A prefix of a valid basis followed by a valid basis, all moduli distinct,
/// is a valid basis.
proof fn lemma_prefix_then_aux(poly_degree: nat, primes: Seq<RnsPrime>, aux: Seq<RnsPrime>, count: int)
    requires
        rns_basis_ok(poly_degree, primes + aux),
        aux.len() > 0,
        0 < count <= primes.len(),
    ensures
        rns_basis_ok(poly_degree, primes.subrange(0, count) + aux),
{
    let all = primes + aux;
    let part = primes.subrange(0, count) + aux;
    let index = |i: int| if i < count { i } else { i - count + primes.len() };
    assert forall|i: int| 0 <= i < part.len() implies #[trigger] part[i] == all[index(i)] by {}
    assert forall|i: int, j: int| 0 <= i < j < part.len() implies (#[trigger] part[i]).modulus != (
    #[trigger] part[j]).modulus by {
        assert(part[i] == all[index(i)]);
        assert(part[j] == all[index(j)]);
        assert(index(i) < index(j));
    }
    assert forall|i: int| 0 <= i < part.len() implies crate::math::ntt::ntt_plan_ok(
        poly_degree,
        (#[trigger] part[i]).modulus as nat,
        part[i].primitive_root as nat,
    ) by {
        assert(part[i] == all[index(i)]);
    }
}

impl RnsCkksContext {
    /// Validate the parameters and build the ciphertext, auxiliary and
    /// extended evaluation bases.
    pub fn new(params: RnsCkksParams) -> (r: Result<Self, String>)
        ensures
            match r {
                Ok(context) => {
                    &&& params_ok(params)
                    &&& context.wf()
                    &&& context.spec_params() == params
                },
                Err(e) => {
                    &&& !params_ok(params)
                    &&& is_params_error(e@, params)
                },
            },
    {
        match params.validate() {
            Ok(()) => {},
            Err(e) => {
                return Err(e);
            },
        }
        let rns_context = match RnsContext::new(params.poly_degree, copy_primes(params.primes.as_slice())) {
            Ok(c) => c,
            Err(e) => {
                return Err(e);
            },
        };
        let aux_context = if params.aux_primes.len() == 0 {
            None
        } else {
            match RnsContext::new(params.poly_degree, copy_primes(params.aux_primes.as_slice())) {
                Ok(c) => Some(c),
                Err(e) => {
                    return Err(e);
                },
            }
        };
        let eval_key_context = if params.aux_primes.len() == 0 {
            None
        } else {
            let extended = concat_primes(params.primes.as_slice(), params.aux_primes.as_slice());
            match RnsContext::new(params.poly_degree, extended) {
                Ok(c) => Some(c),
                Err(e) => {
                    return Err(e);
                },
            }
        };
        Ok(Self { params, rns_context, aux_context, eval_key_context })
    }

    pub fn params(&self) -> (r: &RnsCkksParams)
        ensures
            *r == self.spec_params(),
    {
        &self.params
    }

    pub fn rns_context(&self) -> (r: &RnsContext)
        ensures
            *r == self.spec_rns(),
    {
        &self.rns_context
    }

    pub fn aux_context(&self) -> (r: Option<&RnsContext>)
        ensures
            match r {
                Some(c) => self.spec_aux() == Some(*c),
                None => self.spec_aux() is None,
            },
    {
        match &self.aux_context {
            Some(c) => Some(c),
            None => None,
        }
    }

    pub fn eval_key_context(&self) -> (r: Option<&RnsContext>)
        ensures
            match r {
                Some(c) => self.spec_eval() == Some(*c),
                None => self.spec_eval() is None,
            },
    {
        match &self.eval_key_context {
            Some(c) => Some(c),
            None => None,
        }
    }

    pub fn has_aux_basis(&self) -> (r: bool)
        ensures
            r == self.spec_aux() is Some,
    {
        self.aux_context.is_some()
    }

    /// `N / 2` complex slots.
    pub fn num_slots(&self) -> (r: usize)
        ensures
            r == self.spec_degree() / 2,
    {
        self.params.poly_degree / 2
    }

    pub fn levels(&self) -> (r: usize)
        requires
            self.wf(),
        ensures
            r == self.spec_levels(),
    {
        self.rns_context.levels()
    }

    pub fn total_modulus_bits(&self) -> (r: u64)
        ensures
            r == bit_length(self.spec_rns().spec_total_modulus()),
    {
        self.rns_context.total_modulus_bits()
    }

    pub fn aux_modulus_bits(&self) -> (r: Option<u64>)
        ensures
            match self.spec_aux() {
                Some(c) => r == Some(bit_length(c.spec_total_modulus()) as u64),
                None => r is None,
            },
    {
        match &self.aux_context {
            Some(c) => Some(c.total_modulus_bits()),
            None => None,
        }
    }

    pub fn eval_key_modulus_bits(&self) -> (r: Option<u64>)
        ensures
            match self.spec_eval() {
                Some(c) => r == Some(bit_length(c.spec_total_modulus()) as u64),
                None => r is None,
            },
    {
        match &self.eval_key_context {
            Some(c) => Some(c.total_modulus_bits()),
            None => None,
        }
    }

    /// The ciphertext basis of the primes `0..=level`.
    pub fn level_context(&self, level: usize) -> (r: Result<RnsContext, String>)
        requires
            self.wf(),
            level < usize::MAX,
        ensures
            match r {
                Ok(c) => {
                    &&& level < self.spec_levels()
                    &&& c.wf()
                    &&& c.spec_degree() == self.spec_degree()
                    &&& c.spec_primes() == self.spec_params().primes@.subrange(0, level + 1)
                },
                Err(e) => {
                    &&& level >= self.spec_levels()
                    &&& e@ == level_count_text(self.spec_levels(), (level + 1) as nat)
                },
            },
    {
        self.rns_context.at_level(level + 1)
    }

    /// The evaluation basis of the ciphertext primes `0..=level` followed by
    /// the auxiliary primes.
    pub fn eval_key_level_context(&self, level: usize) -> (r: Result<RnsContext, String>)
        requires
            self.wf(),
        ensures
            match r {
                Ok(c) => {
                    &&& self.spec_params().aux_primes@.len() > 0
                    &&& level < self.spec_levels()
                    &&& c.wf()
                    &&& c.spec_degree() == self.spec_degree()
                    &&& c.spec_primes() == self.spec_params().primes@.subrange(0, level + 1)
                        + self.spec_params().aux_primes@
                },
                Err(e) => {
                    &&& self.spec_params().aux_primes@.len() == 0 || level >= self.spec_levels()
                    &&& e@ == if self.spec_params().aux_primes@.len() == 0 {
                        "eval-key level context requires an auxiliary basis"@
                    } else {
                        level_text(self.spec_levels(), level as nat)
                    }
                },
            },
    {
        if self.params.aux_primes.len() == 0 {
            return Err("eval-key level context requires an auxiliary basis".to_string());
        }
        if level >= self.params.primes.len() {
            return Err(describe_level(self.params.primes.len(), level));
        }
        let prefix = prefix_primes(&self.params.primes, level + 1);
        let primes = concat_primes(prefix.as_slice(), self.params.aux_primes.as_slice());
        proof {
            lemma_prefix_then_aux(
                self.params.poly_degree as nat,
                self.params.primes@,
                self.params.aux_primes@,
                level + 1,
            );
        }
        RnsContext::new(self.params.poly_degree, primes)
    }
}

impl RnsCkksContext {
    /// Modulus `i` of the ciphertext primes followed by the auxiliary ones.
    fn modulus_at(&self, i: usize) -> (r: u64)
        requires
            i < self.spec_all_moduli().len(),
        ensures
            r == self.spec_all_moduli()[i as int],
    {
        let primes = &self.params.primes;
        let aux = &self.params.aux_primes;
        proof {
            let all = self.spec_params().primes@ + self.spec_params().aux_primes@;
            assert(self.spec_all_moduli()[i as int] == all[i as int].modulus);
        }
        if i < primes.len() {
            primes[i].modulus
        } else {
            aux[i - primes.len()].modulus
        }
    }

    /// A valid context whose moduli are all prime has a coprime basis, as
    /// long as there are few enough moduli for their products' bit lengths.
    pub proof fn lemma_prime_basis_coprime(&self)
        requires
            self.wf(),
            forall|i: int|
                0 <= i < self.spec_all_moduli().len() ==> is_prime(#[trigger] self.spec_all_moduli()[i] as nat),
            64 * self.spec_all_moduli().len() + 128 <= usize::MAX,
        ensures
            self.coprime_basis(),
    {
        let p = self.spec_params();
        let ps = p.primes@ + p.aux_primes@;
        let all = self.spec_all_moduli();
        if p.aux_primes@.len() == 0 {
            assert(ps =~= p.primes@);
        }
        assert(rns_basis_ok(p.poly_degree as nat, ps));
        assert forall|i: int, j: int| 0 <= i < j < all.len() implies #[trigger] all[i] != #[trigger] all[j] by {
            assert(ps[i].modulus != ps[j].modulus);
        }
        lemma_distinct_primes_coprime(all);
    }

    /// Whether the basis is coprime: every modulus above one and invertible
    /// modulo every other, and few enough moduli for their products' bit
    /// lengths.
    pub fn check_coprime_basis(&self) -> (r: bool)
        ensures
            r == self.coprime_basis(),
    {
        let ghost all = self.spec_all_moduli();
        let prime_count = self.params.primes.len();
        let aux_count = self.params.aux_primes.len();
        if prime_count > (usize::MAX - 128) / 64 || aux_count > (usize::MAX - 128) / 64 - prime_count {
            return false;
        }
        let count = prime_count + aux_count;
        proof {
            assert(all.len() == count);
        }
        let mut i: usize = 0;
        while i < count
            invariant
                count == all.len(),
                all == self.spec_all_moduli(),
                64 * count + 128 <= usize::MAX,
                i <= count,
                forall|k: int| 0 <= k < i ==> #[trigger] all[k] > 1,
            decreases count - i,
        {
            if self.modulus_at(i) <= 1 {
                return false;
            }
            i += 1;
        }
        let mut i: usize = 0;
        while i < count
            invariant
                count == all.len(),
                all == self.spec_all_moduli(),
                moduli_above_one(all),
                64 * count + 128 <= usize::MAX,
                i <= count,
                forall|a: int, b: int|
                    0 <= a < i && 0 <= b < count && a != b ==> has_inverse(
                        (#[trigger] all[a] as nat) % (#[trigger] all[b] as nat),
                        all[b] as nat,
                    ),
            decreases count - i,
        {
            let mut j: usize = 0;
            while j < count
                invariant
                    count == all.len(),
                    all == self.spec_all_moduli(),
                    moduli_above_one(all),
                    i < count,
                    j <= count,
                    forall|a: int, b: int|
                        0 <= a < i && 0 <= b < count && a != b ==> has_inverse(
                            (#[trigger] all[a] as nat) % (#[trigger] all[b] as nat),
                            all[b] as nat,
                        ),
                    forall|b: int|
                        0 <= b < j && b != i ==> has_inverse(
                            (all[i as int] as nat) % (#[trigger] all[b] as nat),
                            all[b] as nat,
                        ),
                decreases count - j,
            {
                if i != j {
                    let mi = self.modulus_at(i);
                    let mj = self.modulus_at(j);
                    assert(all[j as int] > 1);
                    match mod_inv_u64(mi % mj, mj) {
                        Some(x) => {
                            proof {
                                assert(((x as nat * (mi % mj) as nat) % mj as nat) == 1);
                                assert(has_inverse((mi % mj) as nat, mj as nat));
                            }
                        },
                        None => {
                            return false;
                        },
                    }
                }
                j += 1;
            }
            i += 1;
        }
        true
    }

    /// Whether rotations are available: the products of the degree with
    /// Galois elements fit in a `usize`.
    pub fn check_rotation_ready(&self) -> (r: bool)
        requires
            self.wf(),
        ensures
            r == self.rotation_ready(),
    {
        let n = self.params.poly_degree;
        if n > usize::MAX / 2 {
            return false;
        }
        let two_n = 2 * n;
        if n != 0 && two_n > usize::MAX / n {
            proof {
                assert(2 * n * n > usize::MAX) by (nonlinear_arith)
                    requires
                        n > 0,
                        two_n == 2 * n,
                        two_n > usize::MAX / n,
                ;
            }
            return false;
        }
        proof {
            if n > 0 {
                assert(2 * n * n <= usize::MAX) by (nonlinear_arith)
                    requires
                        n > 0,
                        two_n == 2 * n,
                        two_n <= usize::MAX / n,
                ;
            }
        }
        true
    }
}

} // verus!
