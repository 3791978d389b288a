//! ModRaise: lift a ciphertext from its ciphertext primes to the evaluation
//! basis of those primes and the auxiliary primes.

use vstd::prelude::*;

use crate::rns::ciphertexts::lemma_prefix_shape;
use crate::rns::keyswitching::{is_crt_of, is_lift_of, lift_poly_to_context};
use crate::rns::ops::{centered, decrypt_rns, is_decryption, lemma_shape_wf};
use crate::rns::basis::{lemma_product_divisible, lemma_product_positive, moduli_product};
use crate::rns::keyswitching::lemma_centered_mod;
use crate::rns::polynomial::{lemma_prefix_residues, prod_coeff, RnsPolynomial};
use crate::rns::{RnsCiphertext, RnsCkksContext, RnsSecretKey};

verus! {

/// A ciphertext lifted to an evaluation basis, remembering the ciphertext
/// level it came from.
#[derive(Clone, Debug)]
pub struct ModRaisedCiphertext {
    pub ciphertext: RnsCiphertext,
    q_level: usize,
    aux_level_count: usize,
}

impl ModRaisedCiphertext {
    pub closed spec fn spec_ciphertext(&self) -> RnsCiphertext {
        self.ciphertext
    }

    pub closed spec fn spec_q_level(&self) -> nat {
        self.q_level as nat
    }

    pub closed spec fn spec_aux_level_count(&self) -> nat {
        self.aux_level_count as nat
    }

    pub fn q_level(&self) -> (r: usize)
        ensures
            r == self.spec_q_level(),
    {
        self.q_level
    }

    pub fn aux_level_count(&self) -> (r: usize)
        ensures
            r == self.spec_aux_level_count(),
    {
        self.aux_level_count
    }

    pub fn eval_level(&self) -> (r: usize)
        ensures
            r == self.spec_ciphertext().level,
    {
        self.ciphertext.level
    }

    /// The lifted ciphertext restricted back to its ciphertext primes.
    pub fn project_to_q_ciphertext(&self) -> (r: RnsCiphertext)
        requires
            self.spec_ciphertext().wf(),
            self.spec_q_level() < self.spec_ciphertext().c0.spec_levels(),
        ensures
            r.wf(),
            r.c0.spec_view() == self.spec_ciphertext().c0.spec_view().subrange(0, self.spec_q_level() as int + 1),
            r.c1.spec_view() == self.spec_ciphertext().c1.spec_view().subrange(0, self.spec_q_level() as int + 1),
            r.scale_bits == self.spec_ciphertext().scale_bits,
            r.level == self.spec_q_level(),
    {
        let levels = self.ciphertext.c0.levels();
        self.ciphertext.truncate_levels(self.q_level + 1)
    }
}

/// Lift both components of a ciphertext from its primes to the evaluation
/// basis of those primes and the auxiliary primes.
pub fn mod_raise(context: &RnsCkksContext, ciphertext: &RnsCiphertext) -> (r: ModRaisedCiphertext)
    requires
        context.wf(),
        context.coprime_basis(),
        context.spec_params().aux_primes@.len() > 0,
        context.holds(*ciphertext),
    ensures
        r.spec_ciphertext().wf(),
        r.spec_ciphertext().has_shape(
            context.spec_degree(),
            context.level_moduli(ciphertext.level as nat) + context.aux_moduli(),
        ),
        is_lift_of(
            r.spec_ciphertext().c0,
            ciphertext.c0,
            context.level_moduli(ciphertext.level as nat),
            context.level_moduli(ciphertext.level as nat) + context.aux_moduli(),
        ),
        is_lift_of(
            r.spec_ciphertext().c1,
            ciphertext.c1,
            context.level_moduli(ciphertext.level as nat),
            context.level_moduli(ciphertext.level as nat) + context.aux_moduli(),
        ),
        r.spec_ciphertext().scale_bits == ciphertext.scale_bits,
        r.spec_q_level() == ciphertext.level,
        r.spec_aux_level_count() == context.spec_params().aux_primes@.len(),
{
    let q_context = context.level_basis(ciphertext.level);
    let eval_context = context.eval_level_basis(ciphertext.level);
    proof {
        context.lemma_level_facts(ciphertext.level as nat);
        eval_context.lemma_context_facts();
    }
    let raised_c0 = lift_poly_to_context(&ciphertext.c0, &q_context, &eval_context);
    let raised_c1 = lift_poly_to_context(&ciphertext.c1, &q_context, &eval_context);
    proof {
        lemma_shape_wf(raised_c0, raised_c1, eval_context.spec_degree(), eval_context.spec_moduli());
    }
    let q_level_count = q_context.levels();
    let aux_level_count = eval_context.levels() - q_level_count;
    ModRaisedCiphertext {
        ciphertext: RnsCiphertext::new(raised_c0, raised_c1, ciphertext.scale_bits),
        q_level: ciphertext.level,
        aux_level_count,
    }
}

/// Decryption of a raised ciphertext under the secret lifted to the same basis.
pub fn decrypt_mod_raised(context: &RnsCkksContext, ciphertext: &ModRaisedCiphertext, secret_key: &RnsSecretKey) -> (r:
    RnsPolynomial)
    requires
        context.wf(),
        context.coprime_basis(),
        context.spec_params().aux_primes@.len() > 0,
        ciphertext.spec_q_level() < context.spec_levels(),
        ciphertext.spec_ciphertext().has_shape(
            context.spec_degree(),
            context.level_moduli(ciphertext.spec_q_level()) + context.aux_moduli(),
        ),
        secret_key.poly.has_shape(context.spec_degree(), context.moduli()),
    ensures
        r.has_shape(context.spec_degree(), context.level_moduli(ciphertext.spec_q_level()) + context.aux_moduli()),
        exists|lifted: RnsPolynomial|
            {
                &&& lifted.has_shape(
                    context.spec_degree(),
                    context.level_moduli(ciphertext.spec_q_level()) + context.aux_moduli(),
                )
                &&& is_lift_of(
                    lifted,
                    secret_key.poly,
                    context.level_moduli(ciphertext.spec_q_level()),
                    context.level_moduli(ciphertext.spec_q_level()) + context.aux_moduli(),
                )
                &&& #[trigger] is_decryption(r, ciphertext.spec_ciphertext(), lifted)
            },
{
    let q_level = ciphertext.q_level;
    let eval_context = context.eval_level_basis(q_level);
    let q_context = context.level_basis(q_level);
    let truncated = secret_key.poly.truncate_levels(q_level + 1);
    proof {
        context.lemma_level_facts(q_level as nat);
        assert(context.moduli().subrange(0, q_level + 1) =~= context.level_moduli(q_level as nat));
        lemma_prefix_shape(secret_key.poly, truncated, (q_level + 1) as nat, context.spec_degree(), context.moduli());
    }
    let lifted_poly = lift_poly_to_context(&truncated, &q_context, &eval_context);
    let ghost lp = lifted_poly;
    let lifted = RnsSecretKey::new(lifted_poly);
    let r = decrypt_rns(&ciphertext.ciphertext, &lifted, &eval_context);
    proof {
        let src = context.level_moduli(q_level as nat);
        let dst = context.level_moduli(q_level as nat) + context.aux_moduli();
        lemma_prefix_residues(truncated, secret_key.poly, (q_level + 1) as nat);
        let crt = choose|crt: Seq<nat>|
            #[trigger] is_crt_of(crt, truncated, q_context.spec_moduli()) && forall|l: int, k: int|
                0 <= l < eval_context.spec_levels() && 0 <= k < eval_context.spec_degree() ==> #[trigger] lp.coeff(l, k)
                    as int == centered(crt[k] as int, q_context.spec_total_modulus() as int) % (
                eval_context.spec_moduli()[l] as int);
        assert forall|k: int, l: int| 0 <= k < crt.len() && 0 <= l < src.len() implies crt[k] % (src[l] as nat)
            == #[trigger] secret_key.poly.coeff(l, k) by {
            assert(truncated.residue_coeffs()[l] == secret_key.poly.residue_coeffs()[l]);
            assert(truncated.coeff(l, k) == truncated.residue_coeffs()[l][k]);
            assert(secret_key.poly.coeff(l, k) == secret_key.poly.residue_coeffs()[l][k]);
        }
        assert(is_crt_of(crt, secret_key.poly, src));
        assert(is_lift_of(lp, secret_key.poly, src, dst));
    }
    r
}

/// A lift keeps the residues of the primes it was lifted from.
pub proof fn lemma_lift_keeps_source(r: RnsPolynomial, a: RnsPolynomial, source: Seq<u64>, target: Seq<u64>)
    requires
        is_lift_of(r, a, source, target),
        source.len() <= target.len(),
        forall|j: int| 0 <= j < source.len() ==> #[trigger] target[j] == source[j],
        forall|j: int| 0 <= j < source.len() ==> #[trigger] source[j] >= 1,
    ensures
        forall|l: int, k: int| 0 <= l < source.len() && 0 <= k < a.spec_degree() ==> #[trigger] r.coeff(l, k) == a.coeff(l, k),
{
    let crt = choose|crt: Seq<nat>|
        #[trigger] is_crt_of(crt, a, source) && forall|l: int, k: int|
            0 <= l < target.len() && 0 <= k < a.spec_degree() ==> #[trigger] r.coeff(l, k) as int == centered(
                crt[k] as int,
                moduli_product(source) as int,
            ) % (target[l] as int);
    let total = moduli_product(source) as int;
    lemma_product_positive(source);
    assert forall|l: int, k: int| 0 <= l < source.len() && 0 <= k < a.spec_degree() implies #[trigger] r.coeff(l, k)
        == a.coeff(l, k) by {
        lemma_product_divisible(source, l);
        lemma_centered_mod(crt[k] as int, total, source[l] as int);
        assert(target[l] == source[l]);
        assert(crt[k] % (source[l] as nat) == a.coeff(l, k));
    }
}

/// Projecting a mod-raised ciphertext back to its ciphertext primes gives
/// back the ciphertext: same level, scale and residues.
pub proof fn lemma_project_mod_raise(
    context: RnsCkksContext,
    ciphertext: RnsCiphertext,
    raised: ModRaisedCiphertext,
    projected: RnsCiphertext,
)
    requires
        context.wf(),
        context.holds(ciphertext),
        is_lift_of(
            raised.spec_ciphertext().c0,
            ciphertext.c0,
            context.level_moduli(ciphertext.level as nat),
            context.level_moduli(ciphertext.level as nat) + context.aux_moduli(),
        ),
        is_lift_of(
            raised.spec_ciphertext().c1,
            ciphertext.c1,
            context.level_moduli(ciphertext.level as nat),
            context.level_moduli(ciphertext.level as nat) + context.aux_moduli(),
        ),
        raised.spec_ciphertext().wf(),
        raised.spec_ciphertext().scale_bits == ciphertext.scale_bits,
        raised.spec_q_level() == ciphertext.level,
        raised.spec_q_level() < raised.spec_ciphertext().c0.spec_levels(),
        projected.c0.spec_view() == raised.spec_ciphertext().c0.spec_view().subrange(0, raised.spec_q_level() as int + 1),
        projected.c1.spec_view() == raised.spec_ciphertext().c1.spec_view().subrange(0, raised.spec_q_level() as int + 1),
        projected.scale_bits == raised.spec_ciphertext().scale_bits,
        projected.level == raised.spec_q_level(),
    ensures
        projected.level == ciphertext.level,
        projected.scale_bits == ciphertext.scale_bits,
        forall|l: int, k: int|
            0 <= l <= ciphertext.level && 0 <= k < context.spec_degree() ==> {
                &&& #[trigger] projected.c0.coeff(l, k) == ciphertext.c0.coeff(l, k)
                &&& projected.c1.coeff(l, k) == ciphertext.c1.coeff(l, k)
            },
{
    let m = context.level_moduli(ciphertext.level as nat);
    let target = m + context.aux_moduli();
    let count = (ciphertext.level + 1) as nat;
    let lifted = raised.spec_ciphertext();
    assert forall|j: int| 0 <= j < m.len() implies #[trigger] target[j] == m[j] by {}
    assert forall|j: int| 0 <= j < m.len() implies #[trigger] m[j] >= 1 by {
        assert(ciphertext.c0.spec_residues()[j].spec_modulus() == m[j]);
        assert(ciphertext.c0.spec_residues()[j].wf());
    }
    assert(ciphertext.c0.spec_residues()[0].spec_degree() == context.spec_degree());
    assert(ciphertext.c1.spec_residues()[0].spec_degree() == context.spec_degree());
    lemma_lift_keeps_source(lifted.c0, ciphertext.c0, m, target);
    lemma_lift_keeps_source(lifted.c1, ciphertext.c1, m, target);
    lemma_prefix_residues(projected.c0, lifted.c0, count);
    lemma_prefix_residues(projected.c1, lifted.c1, count);
    assert forall|l: int, k: int| 0 <= l <= ciphertext.level && 0 <= k < context.spec_degree() implies {
        &&& #[trigger] projected.c0.coeff(l, k) == ciphertext.c0.coeff(l, k)
        &&& projected.c1.coeff(l, k) == ciphertext.c1.coeff(l, k)
    } by {
        assert(projected.c0.residue_coeffs()[l] == lifted.c0.residue_coeffs()[l]);
        assert(projected.c1.residue_coeffs()[l] == lifted.c1.residue_coeffs()[l]);
        assert(projected.c0.coeff(l, k) == projected.c0.residue_coeffs()[l][k]);
        assert(lifted.c0.coeff(l, k) == lifted.c0.residue_coeffs()[l][k]);
        assert(projected.c1.coeff(l, k) == projected.c1.residue_coeffs()[l][k]);
        assert(lifted.c1.coeff(l, k) == lifted.c1.residue_coeffs()[l][k]);
        assert(m.len() == ciphertext.level + 1);
    }
}

/// Residues that agree coefficient by coefficient over `degree` coefficients
/// of that many each are the same sequence.
proof fn lemma_same_residue(a: RnsPolynomial, b: RnsPolynomial, l: int, degree: nat)
    requires
        0 <= l < a.spec_levels(),
        0 <= l < b.spec_levels(),
        a.spec_residues()[l].spec_degree() == degree,
        b.spec_residues()[l].spec_degree() == degree,
        forall|k: int| 0 <= k < degree ==> #[trigger] a.coeff(l, k) == b.coeff(l, k),
    ensures
        a.residue_coeffs()[l] == b.residue_coeffs()[l],
{
    assert(a.residue_coeffs()[l] =~= b.residue_coeffs()[l]) by {
        assert forall|k: int| 0 <= k < degree implies a.residue_coeffs()[l][k] == b.residue_coeffs()[l][k] by {
            assert(a.coeff(l, k) == b.coeff(l, k));
        }
    }
}

/// Decrypting a mod-raised ciphertext under the lifted secret agrees, at the
/// ciphertext primes, with decrypting the ciphertext itself.
pub proof fn lemma_decrypt_mod_raised_agrees(
    context: RnsCkksContext,
    ciphertext: RnsCiphertext,
    raised: ModRaisedCiphertext,
    secret: RnsPolynomial,
    decrypted: RnsPolynomial,
)
    requires
        context.wf(),
        context.holds(ciphertext),
        secret.has_shape(context.spec_degree(), context.moduli()),
        raised.spec_ciphertext().has_shape(
            context.spec_degree(),
            context.level_moduli(ciphertext.level as nat) + context.aux_moduli(),
        ),
        is_lift_of(
            raised.spec_ciphertext().c0,
            ciphertext.c0,
            context.level_moduli(ciphertext.level as nat),
            context.level_moduli(ciphertext.level as nat) + context.aux_moduli(),
        ),
        is_lift_of(
            raised.spec_ciphertext().c1,
            ciphertext.c1,
            context.level_moduli(ciphertext.level as nat),
            context.level_moduli(ciphertext.level as nat) + context.aux_moduli(),
        ),
        raised.spec_q_level() == ciphertext.level,
        exists|lifted: RnsPolynomial|
            {
                &&& lifted.has_shape(
                    context.spec_degree(),
                    context.level_moduli(raised.spec_q_level()) + context.aux_moduli(),
                )
                &&& is_lift_of(
                    lifted,
                    secret,
                    context.level_moduli(raised.spec_q_level()),
                    context.level_moduli(raised.spec_q_level()) + context.aux_moduli(),
                )
                &&& #[trigger] is_decryption(decrypted, raised.spec_ciphertext(), lifted)
            },
    ensures
        forall|l: int, k: int|
            0 <= l <= ciphertext.level && 0 <= k < context.spec_degree() ==> #[trigger] decrypted.coeff(l, k) == (
            ciphertext.c0.coeff(l, k) + prod_coeff(ciphertext.c1, secret, l, k)) % (ciphertext.c0.spec_moduli()[l] as int),
{
    let n = context.spec_degree();
    let m = context.level_moduli(ciphertext.level as nat);
    let target = m + context.aux_moduli();
    let lifted = choose|lifted: RnsPolynomial|
        {
            &&& lifted.has_shape(n, target)
            &&& is_lift_of(lifted, secret, m, target)
            &&& #[trigger] is_decryption(decrypted, raised.spec_ciphertext(), lifted)
        };
    let raised_ct = raised.spec_ciphertext();
    assert forall|j: int| 0 <= j < m.len() implies #[trigger] target[j] == m[j] by {}
    assert forall|j: int| 0 <= j < m.len() implies #[trigger] m[j] >= 1 by {
        assert(ciphertext.c0.spec_residues()[j].spec_modulus() == m[j]);
        assert(ciphertext.c0.spec_residues()[j].wf());
    }
    assert(m.len() == ciphertext.level + 1);
    assert(ciphertext.c0.spec_residues()[0].spec_degree() == n);
    assert(ciphertext.c1.spec_residues()[0].spec_degree() == n);
    assert(secret.spec_residues()[0].spec_degree() == n);
    lemma_lift_keeps_source(raised_ct.c0, ciphertext.c0, m, target);
    lemma_lift_keeps_source(raised_ct.c1, ciphertext.c1, m, target);
    lemma_lift_keeps_source(lifted, secret, m, target);
    assert forall|l: int, k: int| 0 <= l <= ciphertext.level && 0 <= k < n implies #[trigger] decrypted.coeff(l, k) == (
    ciphertext.c0.coeff(l, k) + prod_coeff(ciphertext.c1, secret, l, k)) % (ciphertext.c0.spec_moduli()[l] as int) by {
        assert(raised_ct.c0.spec_residues()[l].spec_degree() == n);
        assert(raised_ct.c1.spec_residues()[l].spec_degree() == n);
        assert(lifted.spec_residues()[l].spec_degree() == n);
        assert(ciphertext.c1.spec_residues()[l].spec_degree() == n);
        assert(secret.spec_residues()[l].spec_degree() == n);
        lemma_same_residue(raised_ct.c1, ciphertext.c1, l, n);
        lemma_same_residue(lifted, secret, l, n);
        assert(raised_ct.c0.spec_moduli()[l] == ciphertext.c0.spec_moduli()[l]) by {
            assert(raised_ct.c0.spec_residues()[l].spec_modulus() == target[l]);
            assert(ciphertext.c0.spec_residues()[l].spec_modulus() == m[l]);
        }
        assert(raised_ct.c1.spec_moduli()[l] == ciphertext.c1.spec_moduli()[l]) by {
            assert(raised_ct.c1.spec_residues()[l].spec_modulus() == target[l]);
            assert(ciphertext.c1.spec_residues()[l].spec_modulus() == m[l]);
        }
        assert(prod_coeff(raised_ct.c1, lifted, l, k) == prod_coeff(ciphertext.c1, secret, l, k));
        assert(raised_ct.c0.coeff(l, k) == ciphertext.c0.coeff(l, k));
        assert(raised_ct.c0.spec_levels() == target.len());
    }
}

} // verus!
