//! Logarithmic total sum of the leading active slots: rotate by 1, 2, 4, ...
//! and add, so that slot 0 collects the sum of the first
//! `active_slots.next_power_of_two()` slots.

use crate::math::arith::{is_pow2, pow2_usize_top};
use std::collections::BTreeMap;
use vstd::arithmetic::power2::*;
use vstd::prelude::*;

use crate::rns::{ErrorSampler, RnsCiphertext, RnsCkksContext, RnsPublicKey, RnsRotationKey, RnsSecretKey};
use crate::rns::ciphertexts::{is_ciphertext_sum, same_ciphertext};
use crate::rns::context::rotation::is_rotation_of;
use crate::rns::rotation::rotation_element;

verus! {

/// `s` is a step of the binary fold over `active` slots: a power of two below `active`.
pub open spec fn is_fold_step(s: nat, active: nat) -> bool {
    exists|i: nat| s == pow2(i) && s < active
}

/// The fold steps in order: `1, 2, 4, ...` up to the last power of two below `active`.
pub open spec fn is_fold_schedule(steps: Seq<usize>, active: nat) -> bool {
    &&& forall|i: int| 0 <= i < steps.len() ==> #[trigger] steps[i] == pow2(i as nat)
    &&& active <= pow2(steps.len())
    &&& steps.len() > 0 ==> pow2((steps.len() - 1) as nat) < active
}

/// Step `i` of a fold: `accs[i + 1]` is `accs[i]` plus its rotation by the
/// key stored for `steps[i]`.
pub open spec fn fold_step_at(
    accs: Seq<RnsCiphertext>,
    i: int,
    keys: Map<usize, RnsRotationKey>,
    steps: Seq<usize>,
    degree: nat,
    moduli: Seq<u64>,
) -> bool {
    exists|rotated: RnsCiphertext|
        #[trigger] is_rotation_of(rotated, accs[i], keys[steps[i]], degree, moduli) && is_ciphertext_sum(
            accs[i + 1],
            accs[i],
            rotated,
        )
}

/// `accs` are the running sums of folding `ct` over `steps`: the first is
/// `ct` and each next one adds the rotation of the previous one.
pub open spec fn is_fold_chain(
    accs: Seq<RnsCiphertext>,
    ct: RnsCiphertext,
    keys: Map<usize, RnsRotationKey>,
    steps: Seq<usize>,
    degree: nat,
    moduli: Seq<u64>,
) -> bool {
    &&& accs.len() == steps.len() + 1
    &&& same_ciphertext(accs[0], ct)
    &&& forall|i: int| 0 <= i < steps.len() ==> #[trigger] fold_step_at(accs, i, keys, steps, degree, moduli)
}

/// `r` is `ct` folded over `steps`: the last running sum of a fold chain.
pub open spec fn is_fold_of(
    r: RnsCiphertext,
    ct: RnsCiphertext,
    keys: Map<usize, RnsRotationKey>,
    steps: Seq<usize>,
    degree: nat,
    moduli: Seq<u64>,
) -> bool {
    exists|accs: Seq<RnsCiphertext>| #[trigger] is_fold_chain(accs, ct, keys, steps, degree, moduli) && accs.last() == r
}

/// A power of two has an exponent.
proof fn lemma_pow2_exponent(n: nat) -> (k: nat)
    requires
        is_pow2(n),
    ensures
        pow2(k) == n,
    decreases n,
{
    lemma2_to64();
    if n == 1 {
        0
    } else {
        let k = lemma_pow2_exponent(n / 2);
        lemma_pow2_unfold(k + 1);
        k + 1
    }
}

/// The steps of a schedule are exactly the fold steps.
pub proof fn lemma_fold_schedule_steps(steps: Seq<usize>, active: nat, s: nat)
    requires
        is_fold_schedule(steps, active),
    ensures
        is_fold_step(s, active) <==> exists|i: int| 0 <= i < steps.len() && steps[i] == s,
{
    if is_fold_step(s, active) {
        let i = choose|i: nat| s == pow2(i) && s < active;
        if i >= steps.len() {
            if i > steps.len() {
                lemma_pow2_strictly_increases(steps.len(), i);
            }
            assert(false);
        }
        assert(steps[i as int] == s);
    }
    if exists|i: int| 0 <= i < steps.len() && steps[i] == s {
        let i = choose|i: int| 0 <= i < steps.len() && steps[i] == s;
        assert(s == pow2(i as nat));
        if i < steps.len() - 1 {
            lemma_pow2_strictly_increases(i as nat, (steps.len() - 1) as nat);
        }
        assert(s < active);
    }
}

/// The fold schedule `1, 2, 4, ...` for `active_slots` slots.
pub(crate) fn fold_rotation_steps(active_slots: usize) -> (r: Vec<usize>)
    requires
        active_slots > 0,
        active_slots <= pow2_usize_top(),
    ensures
        is_fold_schedule(r@, active_slots as nat),
{
    let mut steps: Vec<usize> = Vec::new();
    let mut step: usize = 1;
    let fold_width = active_slots.next_power_of_two();
    let ghost width_exp = lemma_pow2_exponent(fold_width as nat);
    proof {
        lemma2_to64();
    }
    while step < fold_width
        invariant
            fold_width == pow2(width_exp),
            active_slots <= fold_width,
            fold_width == 1 || fold_width / 2 < active_slots,
            step == pow2(steps@.len()),
            steps@.len() <= width_exp,
            forall|i: int| 0 <= i < steps@.len() ==> #[trigger] steps@[i] == pow2(i as nat),
            steps@.len() > 0 ==> pow2((steps@.len() - 1) as nat) < active_slots,
        decreases width_exp - steps@.len(),
    {
        let ghost k = steps@.len();
        proof {
            if k > width_exp {
                lemma_pow2_strictly_increases(width_exp, k);
            }
        }
        assert(k < width_exp);
        proof {
            if k + 1 < width_exp {
                lemma_pow2_strictly_increases(k + 1, width_exp);
            }
            lemma_pow2_unfold(k + 1);
            lemma_pow2_unfold(width_exp);
        }
        steps.push(step);
        step = step * 2;
    }
    proof {
        if steps@.len() < width_exp {
            lemma_pow2_strictly_increases(steps@.len(), width_exp);
        }
    }
    steps
}

/// The rotation steps of the total sum: `1, 2, 4, ...` below `active_slots`.
pub fn total_sum_rotation_steps(active_slots: usize) -> (r: Vec<usize>)
    requires
        active_slots > 0,
        active_slots <= pow2_usize_top(),
    ensures
        is_fold_schedule(r@, active_slots as nat),
{
    fold_rotation_steps(active_slots)
}

/// Rotation keys at `level` for every fold step.
pub(crate) fn generate_fold_rotation_keys<S: ErrorSampler>(
    context: &RnsCkksContext,
    secret_key: &RnsSecretKey,
    public_key: &RnsPublicKey,
    level: usize,
    active_slots: usize,
    sampler: &mut S,
) -> (r: BTreeMap<usize, RnsRotationKey>)
    requires
        context.wf(),
        context.coprime_basis(),
        context.rotation_ready(),
        level < context.spec_levels(),
        secret_key.poly.has_shape(context.spec_degree(), context.moduli()),
        public_key.p0.has_shape(context.spec_degree(), context.moduli()),
        public_key.p1.has_shape(context.spec_degree(), context.moduli()),
        active_slots > 0,
        active_slots <= pow2_usize_top(),
    ensures
        forall|s: usize| #[trigger] r@.contains_key(s) <==> is_fold_step(s as nat, active_slots as nat),
        forall|s: usize|
            #[trigger] r@.contains_key(s) ==> {
                &&& r@[s].galois_element == rotation_element(context.spec_degree(), s as int)
                &&& context.generated_at(r@[s].keyswitch_key, level as nat)
                &&& r@[s].keyswitch_key.aux_level_count == 0
            },
{
    let steps = fold_rotation_steps(active_slots);
    let mut keys: BTreeMap<usize, RnsRotationKey> = BTreeMap::new();
    let mut i: usize = 0;
    while i < steps.len()
        invariant
            context.wf(),
            context.coprime_basis(),
            context.rotation_ready(),
            level < context.spec_levels(),
            secret_key.poly.has_shape(context.spec_degree(), context.moduli()),
            public_key.p0.has_shape(context.spec_degree(), context.moduli()),
            public_key.p1.has_shape(context.spec_degree(), context.moduli()),
            active_slots <= pow2_usize_top(),
            is_fold_schedule(steps@, active_slots as nat),
            i <= steps@.len(),
            forall|s: usize| #[trigger] keys@.contains_key(s) <==> exists|j: int| 0 <= j < i && steps@[j] == s,
            forall|s: usize|
                #[trigger] keys@.contains_key(s) ==> {
                    &&& keys@[s].galois_element == rotation_element(context.spec_degree(), s as int)
                    &&& context.generated_at(keys@[s].keyswitch_key, level as nat)
                    &&& keys@[s].keyswitch_key.aux_level_count == 0
                },
        decreases steps@.len() - i,
    {
        let step = steps[i];
        proof {
            lemma_pow2_strictly_increases(i as nat, steps@.len());
            assert(step < active_slots) by {
                lemma_fold_schedule_steps(steps@, active_slots as nat, step as nat);
            }
            assert(step <= isize::MAX) by {
                if usize::BITS == 64 {
                    assert(pow2_usize_top() == 0x8000_0000_0000_0000nat);
                } else {
                    assert(pow2_usize_top() == 0x8000_0000nat);
                }
            }
        }
        let key = context.generate_rotation_key_at_level(secret_key, public_key, step as isize, level, sampler);
        keys.insert(step, key);
        proof {
            assert forall|s: usize| #[trigger] keys@.contains_key(s) <==> exists|j: int| 0 <= j < i + 1 && steps@[j] == s by {
                if s == step {
                    assert(steps@[i as int] == s);
                }
            }
        }
        i += 1;
    }
    proof {
        assert forall|s: usize| #[trigger] keys@.contains_key(s) <==> is_fold_step(s as nat, active_slots as nat) by {
            lemma_fold_schedule_steps(steps@, active_slots as nat, s as nat);
        }
    }
    keys
}

/// Rotation keys for the total sum at `level`.
pub fn generate_total_sum_rotation_keys<S: ErrorSampler>(
    context: &RnsCkksContext,
    secret_key: &RnsSecretKey,
    public_key: &RnsPublicKey,
    level: usize,
    active_slots: usize,
    sampler: &mut S,
) -> (r: BTreeMap<usize, RnsRotationKey>)
    requires
        context.wf(),
        context.coprime_basis(),
        context.rotation_ready(),
        level < context.spec_levels(),
        secret_key.poly.has_shape(context.spec_degree(), context.moduli()),
        public_key.p0.has_shape(context.spec_degree(), context.moduli()),
        public_key.p1.has_shape(context.spec_degree(), context.moduli()),
        active_slots > 0,
        active_slots <= pow2_usize_top(),
    ensures
        forall|s: usize| #[trigger] r@.contains_key(s) <==> is_fold_step(s as nat, active_slots as nat),
        forall|s: usize|
            #[trigger] r@.contains_key(s) ==> {
                &&& r@[s].galois_element == rotation_element(context.spec_degree(), s as int)
                &&& context.generated_at(r@[s].keyswitch_key, level as nat)
                &&& r@[s].keyswitch_key.aux_level_count == 0
            },
{
    generate_fold_rotation_keys(context, secret_key, public_key, level, active_slots, sampler)
}

/// Fold `ciphertext` by rotating by each step and adding.
pub(crate) fn fold_sum(
    context: &RnsCkksContext,
    ciphertext: &RnsCiphertext,
    active_slots: usize,
    rotation_keys: &BTreeMap<usize, RnsRotationKey>,
) -> (r: RnsCiphertext)
    requires
        context.wf(),
        context.coprime_basis(),
        context.rotation_ready(),
        context.holds(*ciphertext),
        active_slots > 0,
        active_slots <= pow2_usize_top(),
        forall|s: usize|
            is_fold_step(s as nat, active_slots as nat) ==> {
                &&& #[trigger] rotation_keys@.contains_key(s)
                &&& context.rotation_key_usable(rotation_keys@[s], ciphertext.level as nat)
            },
    ensures
        context.holds(r),
        r.level == ciphertext.level,
        r.scale_bits == ciphertext.scale_bits,
        exists|steps: Seq<usize>|
            #[trigger] is_fold_schedule(steps, active_slots as nat) && is_fold_of(
                r,
                *ciphertext,
                rotation_keys@,
                steps,
                context.spec_degree(),
                context.level_moduli(ciphertext.level as nat),
            ),
{
    let steps = fold_rotation_steps(active_slots);
    let mut accumulator = ciphertext.duplicate();
    let ghost n = context.spec_degree();
    let ghost m = context.level_moduli(ciphertext.level as nat);
    let ghost mut accs: Seq<RnsCiphertext> = seq![accumulator];
    let mut i: usize = 0;
    proof {
        assert(is_fold_chain(accs, *ciphertext, rotation_keys@, steps@.take(0), n, m));
    }
    while i < steps.len()
        invariant
            context.wf(),
            context.coprime_basis(),
            context.rotation_ready(),
            n == context.spec_degree(),
            m == context.level_moduli(ciphertext.level as nat),
            is_fold_schedule(steps@, active_slots as nat),
            forall|s: usize|
                is_fold_step(s as nat, active_slots as nat) ==> {
                    &&& #[trigger] rotation_keys@.contains_key(s)
                    &&& context.rotation_key_usable(rotation_keys@[s], ciphertext.level as nat)
                },
            context.holds(accumulator),
            accumulator.level == ciphertext.level,
            accumulator.scale_bits == ciphertext.scale_bits,
            i <= steps@.len(),
            is_fold_chain(accs, *ciphertext, rotation_keys@, steps@.take(i as int), n, m),
            accs.last() == accumulator,
        decreases steps@.len() - i,
    {
        let step = steps[i];
        proof {
            lemma_fold_schedule_steps(steps@, active_slots as nat, step as nat);
            assert(is_fold_step(step as nat, active_slots as nat));
        }
        let rotation_key = match rotation_keys.get(&step) {
            Some(key) => key,
            None => {
                proof {
                    assert(false);
                }
                return accumulator;
            },
        };
        let rotated = context.rotate(&accumulator, rotation_key);
        proof {
            assert(accumulator.c0.spec_moduli() =~= m);
            assert(rotated.c0.spec_moduli() =~= m);
            assert forall|l: int| 0 <= l < accumulator.c0.spec_levels() implies (#[trigger] accumulator.c0.spec_residues()[l]).compatible(
                &rotated.c0.spec_residues()[l],
            ) by {
                assert(accumulator.c0.spec_residues()[l].spec_modulus() == m[l]);
                assert(rotated.c0.spec_residues()[l].spec_modulus() == m[l]);
            }
        }
        let next = accumulator.add(&rotated);
        proof {
            crate::rns::context::ops::lemma_sum_shape(next.c0, accumulator.c0, context.spec_degree(), m);
            crate::rns::context::ops::lemma_sum_shape(next.c1, accumulator.c1, context.spec_degree(), m);
            let old_steps = steps@.take(i as int);
            let new_steps = steps@.take(i + 1);
            let new_accs = accs.push(next);
            assert forall|j: int| 0 <= j < new_steps.len() implies #[trigger] fold_step_at(
                new_accs,
                j,
                rotation_keys@,
                new_steps,
                n,
                m,
            ) by {
                if j < i {
                    assert(fold_step_at(accs, j, rotation_keys@, old_steps, n, m));
                    let earlier = choose|earlier: RnsCiphertext|
                        #[trigger] is_rotation_of(earlier, accs[j], rotation_keys@[old_steps[j]], n, m)
                            && is_ciphertext_sum(accs[j + 1], accs[j], earlier);
                    assert(new_accs[j] == accs[j]);
                    assert(new_accs[j + 1] == accs[j + 1]);
                    assert(new_steps[j] == old_steps[j]);
                    assert(is_rotation_of(earlier, new_accs[j], rotation_keys@[new_steps[j]], n, m));
                } else {
                    assert(new_accs[j] == accumulator);
                    assert(new_accs[j + 1] == next);
                    assert(new_steps[j] == step);
                    assert(is_rotation_of(rotated, new_accs[j], rotation_keys@[new_steps[j]], n, m));
                }
            }
            assert(same_ciphertext(new_accs[0], *ciphertext));
            accs = new_accs;
        }
        accumulator = next;
        i += 1;
    }
    proof {
        assert(steps@.take(i as int) =~= steps@);
        assert(is_fold_chain(accs, *ciphertext, rotation_keys@, steps@, n, m));
        assert(is_fold_schedule(steps@, active_slots as nat));
    }
    accumulator
}

/// The total sum of the leading `active_slots` slots.
pub fn total_sum(
    context: &RnsCkksContext,
    ciphertext: &RnsCiphertext,
    active_slots: usize,
    rotation_keys: &BTreeMap<usize, RnsRotationKey>,
) -> (r: RnsCiphertext)
    requires
        context.wf(),
        context.coprime_basis(),
        context.rotation_ready(),
        context.holds(*ciphertext),
        active_slots > 0,
        active_slots <= pow2_usize_top(),
        forall|s: usize|
            is_fold_step(s as nat, active_slots as nat) ==> {
                &&& #[trigger] rotation_keys@.contains_key(s)
                &&& context.rotation_key_usable(rotation_keys@[s], ciphertext.level as nat)
            },
    ensures
        context.holds(r),
        r.level == ciphertext.level,
        r.scale_bits == ciphertext.scale_bits,
        exists|steps: Seq<usize>|
            #[trigger] is_fold_schedule(steps, active_slots as nat) && is_fold_of(
                r,
                *ciphertext,
                rotation_keys@,
                steps,
                context.spec_degree(),
                context.level_moduli(ciphertext.level as nat),
            ),
{
    fold_sum(context, ciphertext, active_slots, rotation_keys)
}

} // verus!
