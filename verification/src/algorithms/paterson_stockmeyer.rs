//! Paterson-Stockmeyer polynomial evaluation: the block size, the levels at
//! which it multiplies ciphertexts, their relinearization keys, the level and
//! scale of each coefficient's encoding, and the evaluation on encoded
//! coefficients (baby powers, blocks and the giant-step Horner loop).

use std::collections::BTreeMap;
use vstd::arithmetic::mul::*;
use vstd::prelude::*;

use crate::math::bignum::bit_length;
use crate::rns::ops::u64_bit_length;
use crate::rns::ciphertexts::{is_ciphertext_sum, lemma_prefix_shape, same_ciphertext};
use crate::rns::ops::rescaled_scale_bits;
use crate::rns::polynomial::{is_product, is_sum, lemma_compatible_equiv};
use crate::rns::{ErrorSampler, RnsCiphertext, RnsCkksContext, RnsKeySwitchingKey, RnsPolynomial, RnsPublicKey, RnsSecretKey};

verus! {

/// `b * b`.
pub open spec fn square(b: nat) -> nat {
    b * b
}

/// `b` is the ceiling of the square root of `t`.
pub open spec fn is_ceil_sqrt(b: nat, t: nat) -> bool {
    &&& b >= 1
    &&& b * b >= t
    &&& (b - 1) * (b - 1) < t
}

/// The block size for `t` terms: the ceiling of the square root of `t`.
pub open spec fn ps_block_size(t: nat) -> nat {
    choose|b: nat| is_ceil_sqrt(b, t)
}

/// The number of blocks: `ceil(t / block_size)`.
pub open spec fn ps_block_count(t: nat) -> nat {
    ((t + ps_block_size(t) - 1) as nat / ps_block_size(t)) as nat
}

/// The level budget suffices: the ciphertext level covers the baby-step
/// powers and the giant-step products.
pub open spec fn ps_budget_ok(level: nat, t: nat) -> bool {
    t == 1 || (level >= ps_block_size(t) - 1 && level - (ps_block_size(t) - 1) >= ps_block_count(t) - 1)
}

/// The levels, from `level` down, at which the evaluation multiplies.
pub open spec fn ps_required_levels(level: nat, t: nat) -> Seq<usize> {
    if t == 1 {
        Seq::empty()
    } else {
        let final_level = level - (ps_block_size(t) - 1) - (ps_block_count(t) - 1);
        Seq::new((level - final_level) as nat, |i: int| (level - i) as usize)
    }
}

/// The ceiling square root is unique.
proof fn lemma_ceil_sqrt_unique(a: nat, b: nat, t: nat)
    requires
        is_ceil_sqrt(a, t),
        is_ceil_sqrt(b, t),
    ensures
        a == b,
{
    if a < b {
        assert(a * a <= (b - 1) * (b - 1)) by (nonlinear_arith)
            requires
                a + 1 <= b,
        ;
    } else if b < a {
        assert(b * b <= (a - 1) * (a - 1)) by (nonlinear_arith)
            requires
                b + 1 <= a,
        ;
    }
}

/// The smallest `b` with `b * b >= term_count`.
pub fn paterson_stockmeyer_block_size(term_count: usize) -> (r: usize)
    requires
        term_count > 0,
        forall|b: nat| #[trigger] square(b) < term_count ==> square(b + 1) <= usize::MAX,
    ensures
        is_ceil_sqrt(r as nat, term_count as nat),
        r == ps_block_size(term_count as nat),
{
    let mut block: usize = 1;
    while block * block < term_count
        invariant
            1 <= block <= term_count,
            square((block - 1) as nat) < term_count,
            square(block as nat) <= usize::MAX,
            forall|b: nat| #[trigger] square(b) < term_count ==> square(b + 1) <= usize::MAX,
        decreases term_count - block,
    {
        proof {
            assert(square(block as nat) < term_count);
            assert(block <= square(block as nat)) by (nonlinear_arith)
                requires
                    block >= 1,
            ;
            assert(square(block as nat + 1) <= usize::MAX);
        }
        block += 1;
    }
    proof {
        let b = ps_block_size(term_count as nat);
        assert(is_ceil_sqrt(block as nat, term_count as nat));
        lemma_ceil_sqrt_unique(b, block as nat, term_count as nat);
    }
    block
}

/// The number of blocks, `ceil(term_count / block_size)`, for the block size
/// of `term_count` terms.
fn paterson_stockmeyer_block_count(term_count: usize, block_size: usize) -> (r: usize)
    requires
        term_count > 0,
        block_size == ps_block_size(term_count as nat),
        is_ceil_sqrt(block_size as nat, term_count as nat),
        block_size > 0,
    ensures
        r == ps_block_count(term_count as nat),
        r >= 1,
{
    proof {
        vstd::arithmetic::div_mod::lemma_fundamental_div_mod(term_count as int, block_size as int);
        vstd::arithmetic::div_mod::lemma_mod_bound(term_count as int, block_size as int);
        let q = term_count as int / block_size as int;
        let m = term_count as int % block_size as int;
        if m != 0 {
            assert(q + 1 <= term_count) by (nonlinear_arith)
                requires
                    term_count == block_size * q + m,
                    m > 0,
                    m < block_size,
                    q >= 0,
            ;
        }
    }
    let block_count = term_count / block_size + if term_count % block_size != 0 {
        1
    } else {
        0
    };
    proof {
        let q = term_count as int / block_size as int;
        let m = term_count as int % block_size as int;
        if m == 0 {
            assert(term_count + block_size - 1 == q * block_size + (block_size - 1)) by (nonlinear_arith)
                requires
                    term_count == block_size * q + m,
                    m == 0,
            ;
            vstd::arithmetic::div_mod::lemma_fundamental_div_mod_converse(
                term_count + block_size - 1,
                block_size as int,
                q,
                block_size - 1,
            );
        } else {
            assert(term_count + block_size - 1 == (q + 1) * block_size + (m - 1)) by (nonlinear_arith)
                requires
                    term_count == block_size * q + m,
            ;
            vstd::arithmetic::div_mod::lemma_fundamental_div_mod_converse(
                term_count + block_size - 1,
                block_size as int,
                q + 1,
                m - 1,
            );
        }
        assert(block_count == ps_block_count(term_count as nat));
        if m == 0 {
            assert(q >= 1) by (nonlinear_arith)
                requires
                    term_count == block_size * q + m,
                    m == 0,
                    term_count > 0,
                    block_size > 0,
            ;
        }
        assert(block_count >= 1);
    }
    block_count
}

/// Whether the level budget suffices for `term_count` terms at
/// `ciphertext_level`: the evaluation needs `block_size - 1` levels for the
/// baby steps and `block_count - 1` for the giant steps.
pub fn paterson_stockmeyer_budget_ok(ciphertext_level: usize, term_count: usize) -> (r: bool)
    requires
        term_count > 0,
        forall|b: nat| #[trigger] square(b) < term_count ==> square(b + 1) <= usize::MAX,
    ensures
        r == ps_budget_ok(ciphertext_level as nat, term_count as nat),
{
    if term_count == 1 {
        return true;
    }
    let block_size = paterson_stockmeyer_block_size(term_count);
    let block_count = paterson_stockmeyer_block_count(term_count, block_size);
    ciphertext_level >= block_size - 1 && ciphertext_level - (block_size - 1) >= block_count - 1
}

/// The levels, from `ciphertext_level` down, at which the evaluation of
/// `term_count` coefficients multiplies ciphertexts.
pub fn paterson_stockmeyer_required_levels(ciphertext_level: usize, term_count: usize) -> (r: Vec<usize>)
    requires
        term_count > 0,
        forall|b: nat| #[trigger] square(b) < term_count ==> square(b + 1) <= usize::MAX,
        ps_budget_ok(ciphertext_level as nat, term_count as nat),
    ensures
        r@ == ps_required_levels(ciphertext_level as nat, term_count as nat),
        r@.len() <= ciphertext_level,
        forall|j: int| 0 <= j < r@.len() ==> #[trigger] r@[j] as int == ciphertext_level - j,
{
    if term_count == 1 {
        proof {
            assert(ps_required_levels(ciphertext_level as nat, 1) =~= Seq::<usize>::empty());
        }
        return Vec::new();
    }
    let block_size = paterson_stockmeyer_block_size(term_count);
    let block_count = paterson_stockmeyer_block_count(term_count, block_size);
    let top_level = ciphertext_level - (block_size - 1);
    let final_level = top_level - (block_count - 1);
    let mut levels: Vec<usize> = Vec::new();
    let mut level = ciphertext_level;
    while level > final_level
        invariant
            final_level <= level <= ciphertext_level,
            levels@.len() == ciphertext_level - level,
            forall|i: int| 0 <= i < levels@.len() ==> #[trigger] levels@[i] == ciphertext_level - i,
        decreases level,
    {
        levels.push(level);
        level -= 1;
    }
    proof {
        assert(levels@ =~= ps_required_levels(ciphertext_level as nat, term_count as nat));
    }
    levels
}

/// Bits that rescaling by the last prime of `level` removes: one less than
/// the prime's bit length.
pub open spec fn dropped_bits(context: RnsCkksContext, level: int) -> int {
    bit_length(context.spec_params().primes@[level].modulus as nat) - 1
}

/// The least [`dropped_bits`] over the first `upto` levels of `levels`.
pub open spec fn min_dropped_bits(context: RnsCkksContext, levels: Seq<usize>, upto: nat) -> int
    decreases upto,
{
    if upto <= 1 {
        dropped_bits(context, levels[0] as int)
    } else {
        let rest = min_dropped_bits(context, levels, (upto - 1) as nat);
        let last = dropped_bits(context, levels[upto - 1] as int);
        if last < rest {
            last
        } else {
            rest
        }
    }
}

/// The working scale of an evaluation of `term_count` coefficients: the
/// fewest bits that any of its rescalings removes.
pub fn paterson_stockmeyer_working_scale_bits(context: &RnsCkksContext, ciphertext_level: usize, term_count: usize) -> (r:
    usize)
    requires
        context.wf(),
        ciphertext_level < context.spec_levels(),
        term_count > 1,
        forall|b: nat| #[trigger] square(b) < term_count ==> square(b + 1) <= usize::MAX,
        ps_budget_ok(ciphertext_level as nat, term_count as nat),
    ensures
        r as int == min_dropped_bits(
            *context,
            ps_required_levels(ciphertext_level as nat, term_count as nat),
            ps_required_levels(ciphertext_level as nat, term_count as nat).len(),
        ),
        r <= 64,
{
    let levels = paterson_stockmeyer_required_levels(ciphertext_level, term_count);
    proof {
        lemma_required_levels_nonempty(ciphertext_level as nat, term_count as nat);
    }
    let primes = &context.params().primes;
    let first = primes[levels[0]].modulus;
    proof {
        lemma_prime_positive(*context, levels@[0] as int);
    }
    let mut best = u64_bit_length(first) - 1;
    let mut i: usize = 1;
    while i < levels.len()
        invariant
            context.wf(),
            levels@ == ps_required_levels(ciphertext_level as nat, term_count as nat),
            levels@.len() >= 1,
            forall|j: int| 0 <= j < levels@.len() ==> #[trigger] levels@[j] as int == ciphertext_level - j,
            ciphertext_level < context.spec_levels(),
            *primes == context.spec_params().primes,
            1 <= i <= levels@.len(),
            best as int == min_dropped_bits(*context, levels@, i as nat),
            best <= 64,
        decreases levels@.len() - i,
    {
        proof {
            lemma_prime_positive(*context, levels@[i as int] as int);
        }
        let bits = u64_bit_length(primes[levels[i]].modulus) - 1;
        if bits < best {
            best = bits;
        }
        i += 1;
    }
    best
}

/// The least dropped bits are at most those of each level counted.
proof fn lemma_min_dropped_bits(context: RnsCkksContext, levels: Seq<usize>, upto: nat, i: int)
    requires
        0 <= i < upto,
    ensures
        min_dropped_bits(context, levels, upto) <= dropped_bits(context, levels[i] as int),
    decreases upto,
{
    if upto > 1 && i < upto - 1 {
        lemma_min_dropped_bits(context, levels, (upto - 1) as nat, i);
    }
}

/// A polynomial of at least two terms multiplies at least once.
proof fn lemma_required_levels_nonempty(level: nat, t: nat)
    requires
        t > 1,
        ps_budget_ok(level, t),
    ensures
        ps_required_levels(level, t).len() >= 1,
{
    let b = ps_block_size(t);
    assert(is_ceil_sqrt(b, t)) by {
        lemma_block_size_exists(t);
    }
    assert(b >= 2) by {
        if b == 1 {
            assert(b * b == 1) by (nonlinear_arith)
                requires
                    b == 1,
            ;
        }
    }
    assert(ps_block_count(t) >= 1) by {
        vstd::arithmetic::div_mod::lemma_div_is_ordered(b as int, (t + b - 1) as int, b as int);
        vstd::arithmetic::div_mod::lemma_div_by_self(b as int);
    }
}

/// The least `c >= b` with `c * c >= t`.
spec fn ceil_sqrt_from(b: nat, t: nat) -> nat
    decreases t - b,
{
    if b * b >= t || b >= t {
        b
    } else {
        ceil_sqrt_from(b + 1, t)
    }
}

/// Searching upward from a `b` below the root finds the ceiling square root.
proof fn lemma_ceil_sqrt_from(b: nat, t: nat)
    requires
        b >= 1,
        (b - 1) * (b - 1) < t,
    ensures
        is_ceil_sqrt(ceil_sqrt_from(b, t), t),
    decreases t - b,
{
    if b * b >= t {
    } else if b >= t {
        assert(b * b >= b * 1) by (nonlinear_arith)
            requires
                b >= 1,
        ;
    } else {
        lemma_ceil_sqrt_from(b + 1, t);
    }
}

/// Every positive count has a ceiling square root.
proof fn lemma_block_size_exists(t: nat)
    requires
        t > 0,
    ensures
        is_ceil_sqrt(ps_block_size(t), t),
{
    lemma_ceil_sqrt_from(1, t);
}

/// Every ciphertext prime of a well-formed context is positive.
proof fn lemma_prime_positive(context: RnsCkksContext, level: int)
    requires
        context.wf(),
        0 <= level < context.spec_levels(),
    ensures
        context.spec_params().primes@[level].modulus > 0,
{
    context.spec_rns().lemma_context_facts();
    assert(context.spec_rns().spec_moduli()[level] == context.spec_params().primes@[level].modulus);
}

/// Relinearization keys at every level the evaluation multiplies at.
pub fn generate_paterson_stockmeyer_relinearization_keys<S: ErrorSampler>(
    context: &RnsCkksContext,
    secret_key: &RnsSecretKey,
    public_key: &RnsPublicKey,
    ciphertext_level: usize,
    term_count: usize,
    sampler: &mut S,
) -> (r: BTreeMap<usize, RnsKeySwitchingKey>)
    requires
        context.wf(),
        context.coprime_basis(),
        ciphertext_level < context.spec_levels(),
        secret_key.poly.has_shape(context.spec_degree(), context.moduli()),
        public_key.p0.has_shape(context.spec_degree(), context.moduli()),
        public_key.p1.has_shape(context.spec_degree(), context.moduli()),
        term_count > 0,
        forall|b: nat| #[trigger] square(b) < term_count ==> square(b + 1) <= usize::MAX,
        ps_budget_ok(ciphertext_level as nat, term_count as nat),
    ensures
        forall|l: usize|
            #[trigger] r@.contains_key(l) <==> ps_required_levels(ciphertext_level as nat, term_count as nat).contains(l),
        forall|l: usize|
            #[trigger] r@.contains_key(l) ==> {
                &&& context.generated_at(r@[l], l as nat)
                &&& r@[l].aux_level_count == context.spec_params().aux_primes@.len()
            },
{
    let levels = paterson_stockmeyer_required_levels(ciphertext_level, term_count);
    let mut keys: BTreeMap<usize, RnsKeySwitchingKey> = BTreeMap::new();
    let mut i: usize = 0;
    while i < levels.len()
        invariant
            context.wf(),
            context.coprime_basis(),
            ciphertext_level < context.spec_levels(),
            secret_key.poly.has_shape(context.spec_degree(), context.moduli()),
            public_key.p0.has_shape(context.spec_degree(), context.moduli()),
            public_key.p1.has_shape(context.spec_degree(), context.moduli()),
            levels@ == ps_required_levels(ciphertext_level as nat, term_count as nat),
            forall|j: int| 0 <= j < levels@.len() ==> #[trigger] levels@[j] <= ciphertext_level,
            i <= levels@.len(),
            forall|l: usize| #[trigger] keys@.contains_key(l) <==> exists|j: int| 0 <= j < i && levels@[j] == l,
            forall|l: usize|
                #[trigger] keys@.contains_key(l) ==> {
                    &&& context.generated_at(keys@[l], l as nat)
                    &&& keys@[l].aux_level_count == context.spec_params().aux_primes@.len()
                },
        decreases levels@.len() - i,
    {
        let level = levels[i];
        let key = context.generate_relinearization_key_at_level(secret_key, public_key, level, sampler);
        keys.insert(level, key);
        proof {
            assert forall|l: usize| #[trigger] keys@.contains_key(l) <==> exists|j: int| 0 <= j < i + 1 && levels@[j] == l by {
                if l == level {
                    assert(levels@[i as int] == l);
                }
            }
        }
        i += 1;
    }
    proof {
        assert forall|l: usize| #[trigger] keys@.contains_key(l) <==> levels@.contains(l) by {}
    }
    keys
}

/// `one` encodes the constant one at any level of `context` and any scale,
/// as a plaintext of that level's shape.
pub open spec fn encodes_ones<G: Fn(usize, usize) -> RnsPolynomial>(context: RnsCkksContext, one: G) -> bool {
    &&& forall|level: usize, scale: usize| #[trigger] call_requires(one, (level, scale))
    &&& forall|level: usize, scale: usize, plain: RnsPolynomial|
        level < context.spec_levels() && #[trigger] call_ensures(one, (level, scale), plain) ==> plain.has_shape(
            context.spec_degree(),
            context.level_moduli(level as nat),
        )
}

/// `r` lifts `a` to scale `target`: `a` itself when it is there already,
/// else `a` times the one that `one` encodes at `a`'s level and the missing
/// scale, labelled with the target scale.
pub open spec fn is_lift_of<G: Fn(usize, usize) -> RnsPolynomial>(
    r: RnsCiphertext,
    a: RnsCiphertext,
    target: nat,
    one: G,
) -> bool {
    &&& r.level == a.level
    &&& r.scale_bits == target
    &&& a.scale_bits <= target
    &&& a.scale_bits == target ==> same_ciphertext(r, a)
    &&& a.scale_bits < target ==> exists|plain: RnsPolynomial|
        #[trigger] call_ensures(one, (a.level, (target - a.scale_bits) as usize), plain) && is_product(
            r.c0,
            a.c0,
            plain,
        ) && is_product(r.c1, a.c1, plain)
}

/// `r` is `a` with the primes above `level` dropped.
pub open spec fn is_aligned_to(r: RnsCiphertext, a: RnsCiphertext, level: nat) -> bool {
    &&& r.level == level
    &&& r.scale_bits == a.scale_bits
    &&& r.c0.spec_view() == a.c0.spec_view().subrange(0, level as int + 1)
    &&& r.c1.spec_view() == a.c1.spec_view().subrange(0, level as int + 1)
}

/// Lift `ciphertext` to `target_scale_bits` by a plaintext one.
fn lift_ciphertext_scale<G: Fn(usize, usize) -> RnsPolynomial>(
    context: &RnsCkksContext,
    ciphertext: &RnsCiphertext,
    target_scale_bits: usize,
    one: &G,
) -> (r: RnsCiphertext)
    requires
        context.wf(),
        context.holds(*ciphertext),
        ciphertext.scale_bits <= target_scale_bits,
        2 * target_scale_bits <= usize::MAX,
        encodes_ones(*context, *one),
    ensures
        context.holds(r),
        is_lift_of(r, *ciphertext, target_scale_bits as nat, *one),
{
    let ghost m = context.level_moduli(ciphertext.level as nat);
    if ciphertext.scale_bits == target_scale_bits {
        let r = ciphertext.duplicate();
        proof {
            assert(ciphertext.c0.spec_moduli() =~= m);
            assert(ciphertext.c0.spec_residues()[0].spec_degree() == context.spec_degree());
        }
        return r;
    }
    let plain = one(ciphertext.level, target_scale_bits - ciphertext.scale_bits);
    let lifted = context.mult_plain(ciphertext, &plain);
    let r = RnsCiphertext::new(lifted.c0, lifted.c1, target_scale_bits);
    proof {
        assert(call_ensures(*one, (ciphertext.level, (target_scale_bits - ciphertext.scale_bits) as usize), plain));
    }
    r
}

/// Drop the primes of `ciphertext` above `level`.
fn align_ciphertext_to_level(context: &RnsCkksContext, ciphertext: &RnsCiphertext, level: usize) -> (r: RnsCiphertext)
    requires
        context.wf(),
        context.holds(*ciphertext),
        level <= ciphertext.level,
    ensures
        context.holds(r),
        is_aligned_to(r, *ciphertext, level as nat),
{
    let levels = context.levels();
    let r = ciphertext.truncate_levels(level + 1);
    proof {
        let n = context.spec_degree();
        let m = context.level_moduli(ciphertext.level as nat);
        lemma_prefix_shape(ciphertext.c0, r.c0, (level + 1) as nat, n, m);
        lemma_prefix_shape(ciphertext.c1, r.c1, (level + 1) as nat, n, m);
        assert(m.subrange(0, level + 1) =~= context.level_moduli(level as nat));
    }
    r
}

/// The working scale of an evaluation of `t` coefficients at `level`.
pub open spec fn ps_working_scale(context: RnsCkksContext, level: nat, t: nat) -> int {
    min_dropped_bits(context, ps_required_levels(level, t), ps_required_levels(level, t).len())
}

/// The level of the last baby power, where the giant steps start.
pub open spec fn ps_top_level(level: nat, t: nat) -> int {
    level - (ps_block_size(t) - 1)
}

/// The level of block `b`: one above the next block, the last at the top level.
pub open spec fn ps_block_level(level: nat, t: nat, b: int) -> int {
    ps_top_level(level, t) - (ps_block_count(t) - 1 - b)
}

/// The level of the result.
pub open spec fn ps_final_level(level: nat, t: nat) -> int {
    if t == 1 {
        level as int
    } else {
        ps_block_level(level, t, 0)
    }
}

/// The level at which coefficient `i` is encoded: that of its block.
pub open spec fn ps_coefficient_level(level: nat, t: nat, i: int) -> int {
    if t == 1 {
        level as int
    } else {
        ps_block_level(level, t, i / (ps_block_size(t) as int))
    }
}

/// The scale at which coefficient `i` is encoded: the input scale for a
/// lone constant, the working scale for the constant of a block, and the
/// working scale less the input scale for the others.
pub open spec fn ps_coefficient_scale(scale: nat, working: int, t: nat, i: int) -> int {
    if t == 1 {
        scale as int
    } else if i % (ps_block_size(t) as int) == 0 {
        working
    } else {
        working - scale
    }
}

/// `power` follows `previous`: the previous lifted to `scale`, times the base
/// aligned to the previous level, relinearized with `key` and rescaled, then
/// lifted to `scale`.
pub open spec fn is_next_power<G: Fn(usize, usize) -> RnsPolynomial>(
    power: RnsCiphertext,
    previous: RnsCiphertext,
    base: RnsCiphertext,
    scale: nat,
    one: G,
    key: RnsKeySwitchingKey,
    context: RnsCkksContext,
) -> bool {
    exists|aligned_previous: RnsCiphertext, aligned_base: RnsCiphertext, product: RnsCiphertext|
        #![trigger is_lift_of(aligned_previous, previous, scale, one), is_aligned_to(aligned_base, base, previous.level as nat), context.is_mult_relinearized_of(product, aligned_previous, aligned_base, key)]
        {
            &&& is_lift_of(aligned_previous, previous, scale, one)
            &&& is_aligned_to(aligned_base, base, previous.level as nat)
            &&& context.is_mult_relinearized_of(product, aligned_previous, aligned_base, key)
            &&& is_lift_of(power, product, scale, one)
        }
}

/// `powers` are the baby powers `x, x^2, ..., x^count` of `ct` at `scale`.
pub open spec fn is_baby_powers<G: Fn(usize, usize) -> RnsPolynomial>(
    powers: Seq<RnsCiphertext>,
    ct: RnsCiphertext,
    count: nat,
    scale: nat,
    one: G,
    keys: Map<usize, RnsKeySwitchingKey>,
    context: RnsCkksContext,
) -> bool {
    &&& powers.len() == count
    &&& count >= 1
    &&& is_lift_of(powers[0], ct, scale, one)
    &&& forall|j: int|
        1 <= j < count ==> is_next_power(
            #[trigger] powers[j],
            powers[j - 1],
            powers[0],
            scale,
            one,
            keys[powers[j - 1].level],
            context,
        )
}

/// `ct` is the zero ciphertext at `level` and `scale`.
pub open spec fn is_zero_start(ct: RnsCiphertext, level: nat, scale: nat) -> bool {
    &&& ct.level == level
    &&& ct.scale_bits == scale
    &&& ct.c0.is_zero()
    &&& ct.c1.is_zero()
}

/// `next` follows `acc` at `offset` of a block: a missing coefficient keeps
/// it, the constant coefficient is added to `c0`, and coefficient `offset > 0`
/// adds `power` aligned to `level` times the coefficient's plaintext.
pub open spec fn is_block_step(
    next: RnsCiphertext,
    acc: RnsCiphertext,
    plain: Option<RnsPolynomial>,
    offset: nat,
    power: RnsCiphertext,
    level: nat,
) -> bool {
    &&& next.level == acc.level
    &&& next.scale_bits == acc.scale_bits
    &&& match plain {
        None => same_ciphertext(next, acc),
        Some(p) => if offset == 0 {
            is_sum(next.c0, acc.c0, p) && next.c1 == acc.c1
        } else {
            exists|aligned: RnsCiphertext, term: RnsCiphertext|
                #![trigger is_aligned_to(aligned, power, level), is_product(term.c0, aligned.c0, p)]
                {
                    &&& is_aligned_to(aligned, power, level)
                    &&& is_product(term.c0, aligned.c0, p)
                    &&& is_product(term.c1, aligned.c1, p)
                    &&& is_sum(next.c0, acc.c0, term.c0)
                    &&& is_sum(next.c1, acc.c1, term.c1)
                }
        },
    }
}

/// Number of coefficients in block `b`.
pub open spec fn block_terms(b: nat, block_size: nat, t: nat) -> nat {
    if t - b * block_size < block_size {
        (t - b * block_size) as nat
    } else {
        block_size
    }
}

/// `accs` are the running sums of block `b` at `level`, from zero at `scale`.
pub open spec fn is_block_chain(
    accs: Seq<RnsCiphertext>,
    powers: Seq<RnsCiphertext>,
    plains: Seq<Option<RnsPolynomial>>,
    b: nat,
    block_size: nat,
    level: nat,
    scale: nat,
) -> bool {
    &&& accs.len() == block_terms(b, block_size, plains.len()) + 1
    &&& is_zero_start(accs[0], level, scale)
    &&& forall|o: int|
        0 <= o < block_terms(b, block_size, plains.len()) ==> is_block_step(
            accs[o + 1],
            #[trigger] accs[o],
            plains[b * block_size + o],
            o as nat,
            powers[o - 1],
            level,
        )
}

/// `block` is block `b` of the evaluation: the sum of its coefficients times
/// the baby powers, at `level` and `scale`.
pub open spec fn is_block_of(
    block: RnsCiphertext,
    powers: Seq<RnsCiphertext>,
    plains: Seq<Option<RnsPolynomial>>,
    b: nat,
    block_size: nat,
    level: nat,
    scale: nat,
) -> bool {
    exists|accs: Seq<RnsCiphertext>|
        #[trigger] is_block_chain(accs, powers, plains, b, block_size, level, scale) && accs.last() == block
}

/// `next` follows `result` in the giant-step Horner loop: the giant step
/// aligned to the result's level and lifted to its scale, times the result,
/// relinearized and rescaled, lifted back to the result's scale, plus `block`.
pub open spec fn is_horner_step<G: Fn(usize, usize) -> RnsPolynomial>(
    next: RnsCiphertext,
    result: RnsCiphertext,
    block: RnsCiphertext,
    giant: RnsCiphertext,
    one: G,
    key: RnsKeySwitchingKey,
    context: RnsCkksContext,
) -> bool {
    exists|aligned: RnsCiphertext, lifted_giant: RnsCiphertext, product: RnsCiphertext, lifted: RnsCiphertext|
        #![trigger is_aligned_to(aligned, giant, result.level as nat), is_lift_of(lifted_giant, aligned, result.scale_bits as nat, one), context.is_mult_relinearized_of(product, result, lifted_giant, key), is_lift_of(lifted, product, result.scale_bits as nat, one)]
        {
            &&& is_aligned_to(aligned, giant, result.level as nat)
            &&& is_lift_of(lifted_giant, aligned, result.scale_bits as nat, one)
            &&& context.is_mult_relinearized_of(product, result, lifted_giant, key)
            &&& is_lift_of(lifted, product, result.scale_bits as nat, one)
            &&& is_ciphertext_sum(next, lifted, block)
        }
}

/// The baby powers, blocks and Horner running results of an evaluation of
/// at least two coefficients.
pub open spec fn is_ps_parts<G: Fn(usize, usize) -> RnsPolynomial>(
    powers: Seq<RnsCiphertext>,
    blocks: Seq<RnsCiphertext>,
    results: Seq<RnsCiphertext>,
    ct: RnsCiphertext,
    plains: Seq<Option<RnsPolynomial>>,
    one: G,
    keys: Map<usize, RnsKeySwitchingKey>,
    context: RnsCkksContext,
    working: nat,
) -> bool {
    let t = plains.len();
    let bs = ps_block_size(t);
    let count = ps_block_count(t);
    &&& is_baby_powers(powers, ct, bs, ct.scale_bits as nat, one, keys, context)
    &&& blocks.len() == count
    &&& forall|b: int|
        0 <= b < count ==> is_block_of(
            #[trigger] blocks[b],
            powers,
            plains,
            b as nat,
            bs,
            ps_block_level(ct.level as nat, t, b) as nat,
            working,
        )
    &&& results.len() == count
    &&& results[0] == blocks[count - 1]
    &&& forall|k: int|
        0 <= k < count - 1 ==> is_horner_step(
            results[k + 1],
            #[trigger] results[k],
            blocks[count - 2 - k],
            powers[bs - 1],
            one,
            keys[results[k].level],
            context,
        )
}

/// `r` is the Paterson-Stockmeyer evaluation on `ct` of the polynomial whose
/// coefficients are encoded in `plains` (`None` for a zero coefficient): a
/// lone constant is added to zero; otherwise the coefficients are grouped in
/// blocks of the baby powers, and the blocks are combined from the last by
/// multiplying with the giant step, the last baby power.
pub open spec fn is_ps_evaluation<G: Fn(usize, usize) -> RnsPolynomial>(
    r: RnsCiphertext,
    ct: RnsCiphertext,
    plains: Seq<Option<RnsPolynomial>>,
    one: G,
    keys: Map<usize, RnsKeySwitchingKey>,
    context: RnsCkksContext,
    working: nat,
) -> bool {
    if plains.len() == 1 {
        exists|zero: RnsCiphertext|
            #[trigger] is_zero_start(zero, ct.level as nat, ct.scale_bits as nat) && is_block_step(
                r,
                zero,
                plains[0],
                0,
                zero,
                ct.level as nat,
            )
    } else {
        exists|powers: Seq<RnsCiphertext>, blocks: Seq<RnsCiphertext>, results: Seq<RnsCiphertext>|
            #[trigger] is_ps_parts(powers, blocks, results, ct, plains, one, keys, context, working) && r
                == results.last()
    }
}

/// Rescaling a product of two ciphertexts at `scale` by the last prime of
/// `level` leaves at most `scale` when that prime drops at least `scale` bits.
proof fn lemma_rescaled_within(context: RnsCkksContext, level: nat, scale: nat)
    requires
        level < context.spec_params().primes@.len(),
        scale <= dropped_bits(context, level as int),
    ensures
        rescaled_scale_bits(2 * scale, bit_length(context.level_moduli(level).last() as nat)) <= scale,
{
    let m = context.level_moduli(level);
    assert(m.len() == level + 1);
    assert(m.last() == context.spec_params().primes@[level as int].modulus);
}

/// The baby powers `x, x^2, ..., x^block_size` of `ciphertext` at `scale`.
fn precompute_baby_powers<G: Fn(usize, usize) -> RnsPolynomial>(
    context: &RnsCkksContext,
    ciphertext: &RnsCiphertext,
    block_size: usize,
    scale: usize,
    one: &G,
    relin_keys: &BTreeMap<usize, RnsKeySwitchingKey>,
) -> (r: Vec<RnsCiphertext>)
    requires
        context.wf(),
        context.coprime_basis(),
        context.holds(*ciphertext),
        block_size >= 1,
        block_size - 1 <= ciphertext.level,
        ciphertext.scale_bits <= scale,
        2 * scale <= usize::MAX,
        encodes_ones(*context, *one),
        forall|level: usize|
            ciphertext.level + 2 <= level + block_size && level <= ciphertext.level ==> {
                &&& #[trigger] relin_keys@.contains_key(level)
                &&& context.switches_at(relin_keys@[level], level as nat)
                &&& scale <= dropped_bits(*context, level as int)
            },
    ensures
        is_baby_powers(r@, *ciphertext, block_size as nat, scale as nat, *one, relin_keys@, *context),
        forall|j: int|
            0 <= j < block_size ==> {
                &&& context.holds(#[trigger] r@[j])
                &&& r@[j].level == ciphertext.level - j
                &&& r@[j].scale_bits == scale
            },
{
    let base = lift_ciphertext_scale(context, ciphertext, scale, one);
    let mut powers: Vec<RnsCiphertext> = Vec::new();
    powers.push(base);
    let mut j: usize = 1;
    while j < block_size
        invariant
            context.wf(),
            context.coprime_basis(),
            context.holds(*ciphertext),
            block_size - 1 <= ciphertext.level,
            2 * scale <= usize::MAX,
            encodes_ones(*context, *one),
            forall|level: usize|
                ciphertext.level + 2 <= level + block_size && level <= ciphertext.level ==> {
                    &&& #[trigger] relin_keys@.contains_key(level)
                    &&& context.switches_at(relin_keys@[level], level as nat)
                    &&& scale <= dropped_bits(*context, level as int)
                },
            1 <= j <= block_size,
            powers@.len() == j,
            is_lift_of(powers@[0], *ciphertext, scale as nat, *one),
            forall|i: int|
                0 <= i < j ==> {
                    &&& context.holds(#[trigger] powers@[i])
                    &&& powers@[i].level == ciphertext.level - i
                    &&& powers@[i].scale_bits == scale
                },
            forall|i: int|
                1 <= i < j ==> is_next_power(
                    #[trigger] powers@[i],
                    powers@[i - 1],
                    powers@[0],
                    scale as nat,
                    *one,
                    relin_keys@[powers@[i - 1].level],
                    *context,
                ),
        decreases block_size - j,
    {
        let previous_level = powers[j - 1].level;
        assert(ciphertext.level + 2 <= previous_level + block_size && previous_level <= ciphertext.level);
        let aligned_previous = lift_ciphertext_scale(context, &powers[j - 1], scale, one);
        let aligned_base = align_ciphertext_to_level(context, &powers[0], previous_level);
        let key = match relin_keys.get(&previous_level) {
            Some(key) => key,
            None => {
                proof {
                    assert(relin_keys@.contains_key(previous_level));
                    assert(false);
                }
                return powers;
            },
        };
        let product = context.mult_relinearized(&aligned_previous, &aligned_base, key);
        proof {
            lemma_rescaled_within(*context, previous_level as nat, scale as nat);
        }
        let power = lift_ciphertext_scale(context, &product, scale, one);
        proof {
            assert(is_next_power(
                power,
                powers@[j - 1],
                powers@[0],
                scale as nat,
                *one,
                relin_keys@[powers@[j - 1].level],
                *context,
            ));
        }
        let ghost old_powers = powers@;
        powers.push(power);
        proof {
            assert forall|i: int| 1 <= i < j + 1 implies is_next_power(
                #[trigger] powers@[i],
                powers@[i - 1],
                powers@[0],
                scale as nat,
                *one,
                relin_keys@[powers@[i - 1].level],
                *context,
            ) by {
                if i < j {
                    assert(powers@[i] == old_powers[i]);
                    assert(powers@[i - 1] == old_powers[i - 1]);
                }
            }
        }
        j += 1;
    }
    powers
}

/// Two polynomials of one shape are compatible.
proof fn lemma_same_shape_compatible(a: RnsPolynomial, b: RnsPolynomial, degree: nat, moduli: Seq<u64>)
    requires
        a.has_shape(degree, moduli),
        b.has_shape(degree, moduli),
    ensures
        a.compatible(&b),
{
    assert forall|l: int| 0 <= l < a.spec_levels() implies (#[trigger] a.spec_residues()[l]).compatible(
        &b.spec_residues()[l],
    ) by {
        assert(a.spec_residues()[l].spec_modulus() == moduli[l]);
        assert(b.spec_residues()[l].spec_modulus() == moduli[l]);
    }
}

/// Block `block_index` of the evaluation at `target_level`: zero at the
/// working scale, plus the block's constant, plus each further coefficient's
/// plaintext times its baby power aligned to the block's level.
fn evaluate_block(
    context: &RnsCkksContext,
    powers: &Vec<RnsCiphertext>,
    plains: &Vec<Option<RnsPolynomial>>,
    block_index: usize,
    block_size: usize,
    target_level: usize,
    scale: usize,
    working: usize,
) -> (r: RnsCiphertext)
    requires
        context.wf(),
        target_level < context.spec_levels(),
        powers@.len() == block_size,
        block_size >= 1,
        forall|j: int|
            0 <= j < block_size ==> {
                &&& context.holds(#[trigger] powers@[j])
                &&& powers@[j].level >= target_level
                &&& powers@[j].scale_bits == scale
            },
        scale <= working,
        2 * working <= usize::MAX,
        block_index * block_size < plains@.len(),
        forall|i: int|
            block_index * block_size <= i < plains@.len() && i < block_index * block_size + block_size && (
            #[trigger] plains@[i]) is Some ==> plains@[i]->0.has_shape(
                context.spec_degree(),
                context.level_moduli(target_level as nat),
            ),
    ensures
        context.holds(r),
        r.level == target_level,
        r.scale_bits == working,
        is_block_of(r, powers@, plains@, block_index as nat, block_size as nat, target_level as nat, working as nat),
{
    let ghost n = context.spec_degree();
    let ghost m = context.level_moduli(target_level as nat);
    let basis = context.level_basis(target_level);
    let zero0 = basis.zero_poly();
    let zero1 = basis.zero_poly();
    proof {
        basis.lemma_context_facts();
        lemma_same_shape_compatible(zero0, zero1, n, m);
    }
    let mut accumulator = RnsCiphertext::new(zero0, zero1, working);
    let len = plains.len();
    let start = block_index * block_size;
    let available = len - start;
    let terms = if available < block_size {
        available
    } else {
        block_size
    };
    let ghost mut accs: Seq<RnsCiphertext> = seq![accumulator];
    let mut offset: usize = 0;
    while offset < terms
        invariant
            context.wf(),
            n == context.spec_degree(),
            m == context.level_moduli(target_level as nat),
            target_level < context.spec_levels(),
            powers@.len() == block_size,
            forall|j: int|
                0 <= j < block_size ==> {
                    &&& context.holds(#[trigger] powers@[j])
                    &&& powers@[j].level >= target_level
                    &&& powers@[j].scale_bits == scale
                },
            scale <= working,
            2 * working <= usize::MAX,
            start == block_index * block_size,
            terms == block_terms(block_index as nat, block_size as nat, plains@.len()),
            start + terms <= plains@.len(),
            len == plains@.len(),
            terms <= block_size,
            forall|i: int|
                start <= i < plains@.len() && i < start + block_size && (#[trigger] plains@[i]) is Some
                    ==> plains@[i]->0.has_shape(n, m),
            offset <= terms,
            context.holds(accumulator),
            accumulator.level == target_level,
            accumulator.scale_bits == working,
            accs.len() == offset + 1,
            accs.last() == accumulator,
            is_zero_start(accs[0], target_level as nat, working as nat),
            forall|o: int|
                0 <= o < offset ==> is_block_step(
                    accs[o + 1],
                    #[trigger] accs[o],
                    plains@[start + o],
                    o as nat,
                    powers@[o - 1],
                    target_level as nat,
                ),
        decreases terms - offset,
    {
        let ghost previous = accumulator;
        match &plains[start + offset] {
            None => {},
            Some(plain) => {
                proof {
                    assert(plains@[start + offset] is Some);
                    lemma_same_shape_compatible(accumulator.c0, *plain, n, m);
                }
                if offset == 0 {
                    let c0 = accumulator.c0.add(plain);
                    proof {
                        crate::rns::context::ops::lemma_sum_shape(c0, accumulator.c0, n, m);
                        lemma_compatible_equiv(c0, accumulator.c0, accumulator.c1);
                    }
                    accumulator = RnsCiphertext { c0, ..accumulator };
                } else {
                    let aligned = align_ciphertext_to_level(context, &powers[offset - 1], target_level);
                    let product = context.mult_plain(&aligned, plain);
                    let term = RnsCiphertext::new(product.c0, product.c1, aligned.scale_bits + (working - scale));
                    proof {
                        lemma_same_shape_compatible(accumulator.c0, term.c0, n, m);
                    }
                    let next = accumulator.add(&term);
                    proof {
                        crate::rns::context::ops::lemma_sum_shape(next.c0, accumulator.c0, n, m);
                        crate::rns::context::ops::lemma_sum_shape(next.c1, accumulator.c1, n, m);
                        assert(is_aligned_to(aligned, powers@[offset - 1], target_level as nat));
                        assert(is_product(term.c0, aligned.c0, *plain));
                    }
                    accumulator = next;
                }
            },
        }
        proof {
            assert(is_block_step(
                accumulator,
                previous,
                plains@[start + offset],
                offset as nat,
                powers@[offset - 1],
                target_level as nat,
            ));
            let old_accs = accs;
            accs = accs.push(accumulator);
            assert forall|o: int| 0 <= o < offset + 1 implies is_block_step(
                accs[o + 1],
                #[trigger] accs[o],
                plains@[start + o],
                o as nat,
                powers@[o - 1],
                target_level as nat,
            ) by {
                if o < offset {
                    assert(accs[o] == old_accs[o]);
                    assert(accs[o + 1] == old_accs[o + 1]);
                    assert(is_block_step(
                        old_accs[o + 1],
                        old_accs[o],
                        plains@[start + o],
                        o as nat,
                        powers@[o - 1],
                        target_level as nat,
                    ));
                } else {
                    assert(accs[o] == previous);
                }
            }
        }
        offset += 1;
    }
    proof {
        assert(is_block_chain(
            accs,
            powers@,
            plains@,
            block_index as nat,
            block_size as nat,
            target_level as nat,
            working as nat,
        ));
    }
    accumulator
}

/// The block count is `(t - 1) / block_size + 1`, so the last block starts
/// below `t`.
proof fn lemma_block_count(t: nat)
    requires
        t > 1,
    ensures
        ps_block_size(t) >= 1,
        ps_block_count(t) == (t - 1) as nat / ps_block_size(t) + 1,
        (ps_block_count(t) - 1) * ps_block_size(t) < t,
        ps_block_count(t) * ps_block_size(t) >= t,
{
    lemma_block_size_exists(t);
    let b = ps_block_size(t) as int;
    let q = (t - 1) as int / b;
    let m = (t - 1) as int % b;
    vstd::arithmetic::div_mod::lemma_fundamental_div_mod((t - 1) as int, b);
    vstd::arithmetic::div_mod::lemma_mod_bound((t - 1) as int, b);
    assert(t + b - 1 == (q + 1) * b + m) by (nonlinear_arith)
        requires
            t - 1 == b * q + m,
    ;
    vstd::arithmetic::div_mod::lemma_fundamental_div_mod_converse((t + b - 1) as int, b, q + 1, m);
    assert(q * b < t) by (nonlinear_arith)
        requires
            t - 1 == b * q + m,
            m >= 0,
    ;
    assert((q + 1) * b >= t) by (nonlinear_arith)
        requires
            t - 1 == b * q + m,
            m < b,
    ;
}

/// A level above the final one and at most the input level is one at which
/// the evaluation multiplies, and it drops at least the working scale.
proof fn lemma_required_level(context: RnsCkksContext, level: nat, t: nat, l: nat)
    requires
        t > 1,
        ps_budget_ok(level, t),
        ps_final_level(level, t) < l <= level,
        level <= usize::MAX,
    ensures
        ps_required_levels(level, t).contains(l as usize),
        ps_working_scale(context, level, t) <= dropped_bits(context, l as int),
{
    let levels = ps_required_levels(level, t);
    let final_level = level - (ps_block_size(t) - 1) - (ps_block_count(t) - 1);
    assert(final_level == ps_final_level(level, t));
    assert(levels.len() == level - final_level);
    let i = level - l;
    assert(0 <= i < levels.len());
    assert(levels[i] == l as usize);
    lemma_min_dropped_bits(context, levels, levels.len(), i);
}

/// Paterson-Stockmeyer evaluation on `ciphertext` of the polynomial whose
/// coefficient `i` is encoded in `coefficient_plaintexts[i]` (`None` when it
/// is zero) at the level and scale that
/// [`paterson_stockmeyer_coefficient_encodings`] gives, with `one` encoding
/// the constant one that lifts scales.
/// The baby steps multiply at levels of the evaluation, with their keys and
/// at least the working scale dropped.
proof fn lemma_baby_levels(
    context: RnsCkksContext,
    level: usize,
    t: nat,
    scale: nat,
    keys: Map<usize, RnsKeySwitchingKey>,
)
    requires
        t > 1,
        ps_budget_ok(level as nat, t),
        scale <= ps_working_scale(context, level as nat, t),
        forall|l: usize|
            #[trigger] ps_required_levels(level as nat, t).contains(l) ==> {
                &&& keys.contains_key(l)
                &&& context.switches_at(keys[l], l as nat)
            },
    ensures
        forall|l: usize|
            level + 2 <= l + ps_block_size(t) && l <= level ==> {
                &&& #[trigger] keys.contains_key(l)
                &&& context.switches_at(keys[l], l as nat)
                &&& scale <= dropped_bits(context, l as int)
            },
{
    lemma_block_count(t);
    assert forall|l: usize| level + 2 <= l + ps_block_size(t) && l <= level implies {
        &&& #[trigger] keys.contains_key(l)
        &&& context.switches_at(keys[l], l as nat)
        &&& scale <= dropped_bits(context, l as int)
    } by {
        lemma_required_level(context, level as nat, t, l as nat);
    }
}

#[verifier::rlimit(60)]
#[verifier::spinoff_prover]
pub fn paterson_stockmeyer_eval_encoded<G: Fn(usize, usize) -> RnsPolynomial>(
    context: &RnsCkksContext,
    ciphertext: &RnsCiphertext,
    coefficient_plaintexts: &Vec<Option<RnsPolynomial>>,
    one: &G,
    relin_keys: &BTreeMap<usize, RnsKeySwitchingKey>,
) -> (r: RnsCiphertext)
    requires
        context.wf(),
        context.coprime_basis(),
        context.holds(*ciphertext),
        coefficient_plaintexts@.len() >= 1,
        forall|b: nat| #[trigger] square(b) < coefficient_plaintexts@.len() ==> square(b + 1) <= usize::MAX,
        ps_budget_ok(ciphertext.level as nat, coefficient_plaintexts@.len()),
        coefficient_plaintexts@.len() > 1 ==> ciphertext.scale_bits <= ps_working_scale(
            *context,
            ciphertext.level as nat,
            coefficient_plaintexts@.len(),
        ),
        encodes_ones(*context, *one),
        forall|i: int|
            0 <= i < coefficient_plaintexts@.len() && (#[trigger] coefficient_plaintexts@[i]) is Some
                ==> coefficient_plaintexts@[i]->0.has_shape(
                context.spec_degree(),
                context.level_moduli(ps_coefficient_level(ciphertext.level as nat, coefficient_plaintexts@.len(), i) as nat),
            ),
        forall|l: usize|
            #[trigger] ps_required_levels(ciphertext.level as nat, coefficient_plaintexts@.len()).contains(l) ==> {
                &&& relin_keys@.contains_key(l)
                &&& context.switches_at(relin_keys@[l], l as nat)
            },
    ensures
        context.holds(r),
        r.level == ps_final_level(ciphertext.level as nat, coefficient_plaintexts@.len()),
        r.scale_bits == if coefficient_plaintexts@.len() == 1 {
            ciphertext.scale_bits as int
        } else {
            ps_working_scale(*context, ciphertext.level as nat, coefficient_plaintexts@.len())
        },
        is_ps_evaluation(
            r,
            *ciphertext,
            coefficient_plaintexts@,
            *one,
            relin_keys@,
            *context,
            ps_working_scale(*context, ciphertext.level as nat, coefficient_plaintexts@.len()) as nat,
        ),
{
    let ghost n = context.spec_degree();
    let ghost big_l = ciphertext.level as nat;
    let ghost t = coefficient_plaintexts@.len();
    let ghost working_spec = ps_working_scale(*context, big_l, t) as nat;
    let term_count = coefficient_plaintexts.len();
    if term_count == 1 {
        let basis = context.level_basis(ciphertext.level);
        let zero0 = basis.zero_poly();
        let zero1 = basis.zero_poly();
        let ghost m = context.level_moduli(big_l);
        proof {
            basis.lemma_context_facts();
            lemma_same_shape_compatible(zero0, zero1, n, m);
        }
        let start = RnsCiphertext::new(zero0, zero1, ciphertext.scale_bits);
        let r = match &coefficient_plaintexts[0] {
            None => start,
            Some(plain) => {
                proof {
                    assert(coefficient_plaintexts@[0] is Some);
                    lemma_same_shape_compatible(start.c0, *plain, n, m);
                }
                let c0 = start.c0.add(plain);
                proof {
                    crate::rns::context::ops::lemma_sum_shape(c0, start.c0, n, m);
                    lemma_compatible_equiv(c0, start.c0, start.c1);
                }
                RnsCiphertext { c0, ..start }
            },
        };
        proof {
            assert(is_zero_start(start, big_l, ciphertext.scale_bits as nat));
            assert(is_block_step(r, start, coefficient_plaintexts@[0], 0, start, big_l));
        }
        return r;
    }
    let block_size = paterson_stockmeyer_block_size(term_count);
    proof {
        lemma_block_count(t);
        lemma_required_levels_nonempty(big_l, t);
    }
    let block_count = (term_count - 1) / block_size + 1;
    let working = paterson_stockmeyer_working_scale_bits(context, ciphertext.level, term_count);
    let ghost top = ps_top_level(big_l, t);
    proof {
        lemma_baby_levels(*context, ciphertext.level, t, ciphertext.scale_bits as nat, relin_keys@);
    }
    let powers = precompute_baby_powers(context, ciphertext, block_size, ciphertext.scale_bits, one, relin_keys);
    let top_level = ciphertext.level - (block_size - 1);
    let mut blocks: Vec<RnsCiphertext> = Vec::new();
    let mut b: usize = 0;
    while b < block_count
        invariant
            context.wf(),
            context.holds(*ciphertext),
            n == context.spec_degree(),
            t == coefficient_plaintexts@.len(),
            big_l == ciphertext.level,
            t > 1,
            block_size == ps_block_size(t),
            block_count == ps_block_count(t),
            (block_count - 1) * block_size < t,
            block_size >= 1,
            top_level == top,
            top == ps_top_level(big_l, t),
            top_level == ciphertext.level - (block_size - 1),
            top_level >= block_count - 1,
            ps_budget_ok(big_l, t),
            working == working_spec,
            ciphertext.scale_bits <= working,
            working <= 64,
            powers@.len() == block_size,
            forall|j: int|
                0 <= j < block_size ==> {
                    &&& context.holds(#[trigger] powers@[j])
                    &&& powers@[j].level == ciphertext.level - j
                    &&& powers@[j].scale_bits == ciphertext.scale_bits
                },
            forall|i: int|
                0 <= i < t && (#[trigger] coefficient_plaintexts@[i]) is Some ==> coefficient_plaintexts@[i]->0.has_shape(
                    n,
                    context.level_moduli(ps_coefficient_level(big_l, t, i) as nat),
                ),
            b <= block_count,
            blocks@.len() == b,
            forall|c: int|
                0 <= c < b ==> {
                    &&& context.holds(#[trigger] blocks@[c])
                    &&& blocks@[c].level == ps_block_level(big_l, t, c)
                    &&& blocks@[c].scale_bits == working
                    &&& is_block_of(
                        blocks@[c],
                        powers@,
                        coefficient_plaintexts@,
                        c as nat,
                        block_size as nat,
                        ps_block_level(big_l, t, c) as nat,
                        working as nat,
                    )
                },
        decreases block_count - b,
    {
        let target_level = top_level - (block_count - 1 - b);
        proof {
            assert(target_level <= ciphertext.level);
            assert(b * block_size < t) by (nonlinear_arith)
                requires
                    b <= block_count - 1,
                    (block_count - 1) * block_size < t,
                    block_size >= 1,
            ;
            assert forall|i: int|
                b * block_size <= i < coefficient_plaintexts@.len() && i < b * block_size + block_size && (
                #[trigger] coefficient_plaintexts@[i]) is Some implies coefficient_plaintexts@[i]->0.has_shape(
                n,
                context.level_moduli(target_level as nat),
            ) by {
                vstd::arithmetic::div_mod::lemma_fundamental_div_mod_converse(
                    i,
                    block_size as int,
                    b as int,
                    i - b * block_size,
                );
                assert(i / (block_size as int) == b);
                assert(ps_block_level(big_l, t, b as int) == target_level);
                assert(ps_coefficient_level(big_l, t, i) == ps_block_level(big_l, t, i / (ps_block_size(t) as int)));
            }
        }
        let block = evaluate_block(
            context,
            &powers,
            coefficient_plaintexts,
            b,
            block_size,
            target_level,
            ciphertext.scale_bits,
            working,
        );
        let ghost old_blocks = blocks@;
        blocks.push(block);
        proof {
            assert forall|c: int| 0 <= c < b + 1 implies {
                &&& context.holds(#[trigger] blocks@[c])
                &&& blocks@[c].level == ps_block_level(big_l, t, c)
                &&& blocks@[c].scale_bits == working
                &&& is_block_of(
                    blocks@[c],
                    powers@,
                    coefficient_plaintexts@,
                    c as nat,
                    block_size as nat,
                    ps_block_level(big_l, t, c) as nat,
                    working as nat,
                )
            } by {
                if c < b {
                    assert(blocks@[c] == old_blocks[c]);
                }
            }
        }
        b += 1;
    }
    let ghost all_blocks = blocks@;
    let mut result = match blocks.pop() {
        Some(last) => last,
        None => {
            proof {
                assert(false);
            }
            return ciphertext.duplicate();
        },
    };
    let ghost mut results: Seq<RnsCiphertext> = seq![result];
    let mut k: usize = 0;
    while k + 1 < block_count
        invariant
            context.wf(),
            context.coprime_basis(),
            n == context.spec_degree(),
            t == coefficient_plaintexts@.len(),
            big_l == ciphertext.level,
            t > 1,
            block_size == ps_block_size(t),
            block_count == ps_block_count(t),
            block_size >= 1,
            top_level == top,
            top == big_l - (block_size - 1),
            top_level >= block_count - 1,
            ps_budget_ok(big_l, t),
            working == working_spec,
            working as int == ps_working_scale(*context, big_l, t),
            ciphertext.scale_bits <= working,
            working <= 64,
            encodes_ones(*context, *one),
            forall|l: usize|
                #[trigger] ps_required_levels(big_l, t).contains(l) ==> {
                    &&& relin_keys@.contains_key(l)
                    &&& context.switches_at(relin_keys@[l], l as nat)
                },
            powers@.len() == block_size,
            context.holds(powers@[block_size - 1]),
            powers@[block_size - 1].level == top_level,
            powers@[block_size - 1].scale_bits == ciphertext.scale_bits,
            all_blocks.len() == block_count,
            blocks@ == all_blocks.subrange(0, block_count - 1),
            forall|c: int|
                0 <= c < block_count ==> {
                    &&& context.holds(#[trigger] all_blocks[c])
                    &&& all_blocks[c].level == ps_block_level(big_l, t, c)
                    &&& all_blocks[c].scale_bits == working
                },
            k + 1 <= block_count,
            context.holds(result),
            result.level == top_level - k,
            result.scale_bits == working,
            results.len() == k + 1,
            results.last() == result,
            results[0] == all_blocks[block_count - 1],
            forall|j: int|
                0 <= j < k ==> is_horner_step(
                    results[j + 1],
                    #[trigger] results[j],
                    all_blocks[block_count - 2 - j],
                    powers@[block_size - 1],
                    *one,
                    relin_keys@[results[j].level],
                    *context,
                ),
        decreases block_count - k,
    {
        let level = result.level;
        let aligned = align_ciphertext_to_level(context, &powers[block_size - 1], level);
        let lifted_giant = lift_ciphertext_scale(context, &aligned, result.scale_bits, one);
        proof {
            lemma_required_level(*context, big_l, t, level as nat);
        }
        let key = match relin_keys.get(&level) {
            Some(key) => key,
            None => {
                proof {
                    assert(false);
                }
                return result;
            },
        };
        let product = context.mult_relinearized(&result, &lifted_giant, key);
        proof {
            lemma_rescaled_within(*context, level as nat, working as nat);
        }
        let lifted = lift_ciphertext_scale(context, &product, result.scale_bits, one);
        let block = &blocks[block_count - 2 - k];
        proof {
            assert(*block == all_blocks[block_count - 2 - k]);
            let m = context.level_moduli(lifted.level as nat);
            lemma_same_shape_compatible(lifted.c0, block.c0, n, m);
        }
        let next = lifted.add(block);
        proof {
            let m = context.level_moduli(lifted.level as nat);
            crate::rns::context::ops::lemma_sum_shape(next.c0, lifted.c0, n, m);
            crate::rns::context::ops::lemma_sum_shape(next.c1, lifted.c1, n, m);
            assert(is_horner_step(
                next,
                result,
                all_blocks[block_count - 2 - k],
                powers@[block_size - 1],
                *one,
                relin_keys@[result.level],
                *context,
            ));
            let old_results = results;
            results = results.push(next);
            assert forall|j: int| 0 <= j < k + 1 implies is_horner_step(
                results[j + 1],
                #[trigger] results[j],
                all_blocks[block_count - 2 - j],
                powers@[block_size - 1],
                *one,
                relin_keys@[results[j].level],
                *context,
            ) by {
                if j < k {
                    assert(results[j] == old_results[j]);
                    assert(results[j + 1] == old_results[j + 1]);
                } else {
                    assert(results[j] == result);
                }
            }
        }
        result = next;
        k += 1;
    }
    proof {
        assert(is_ps_parts(
            powers@,
            all_blocks,
            results,
            *ciphertext,
            coefficient_plaintexts@,
            *one,
            relin_keys@,
            *context,
            working as nat,
        ));
    }
    result
}

/// The level and scale at which coefficient `i` of a `term_count`-term
/// polynomial must be encoded for [`paterson_stockmeyer_eval_encoded`] on a
/// ciphertext at `ciphertext_level` and `scale_bits`.
pub fn paterson_stockmeyer_coefficient_encodings(
    context: &RnsCkksContext,
    ciphertext_level: usize,
    scale_bits: usize,
    term_count: usize,
) -> (r: Vec<(usize, usize)>)
    requires
        context.wf(),
        ciphertext_level < context.spec_levels(),
        term_count >= 1,
        forall|b: nat| #[trigger] square(b) < term_count ==> square(b + 1) <= usize::MAX,
        ps_budget_ok(ciphertext_level as nat, term_count as nat),
        term_count > 1 ==> scale_bits <= ps_working_scale(*context, ciphertext_level as nat, term_count as nat),
    ensures
        r@.len() == term_count,
        forall|i: int|
            0 <= i < term_count ==> {
                &&& (#[trigger] r@[i]).0 == ps_coefficient_level(ciphertext_level as nat, term_count as nat, i)
                &&& r@[i].1 == ps_coefficient_scale(
                    scale_bits as nat,
                    ps_working_scale(*context, ciphertext_level as nat, term_count as nat),
                    term_count as nat,
                    i,
                )
            },
{
    let mut encodings: Vec<(usize, usize)> = Vec::new();
    if term_count == 1 {
        encodings.push((ciphertext_level, scale_bits));
        return encodings;
    }
    let block_size = paterson_stockmeyer_block_size(term_count);
    proof {
        lemma_block_count(term_count as nat);
        lemma_required_levels_nonempty(ciphertext_level as nat, term_count as nat);
    }
    let block_count = (term_count - 1) / block_size + 1;
    let working = paterson_stockmeyer_working_scale_bits(context, ciphertext_level, term_count);
    let top_level = ciphertext_level - (block_size - 1);
    let mut i: usize = 0;
    while i < term_count
        invariant
            term_count > 1,
            block_size == ps_block_size(term_count as nat),
            block_size >= 1,
            block_count == ps_block_count(term_count as nat),
            block_count * block_size >= term_count,
            block_count >= 1,
            top_level == ps_top_level(ciphertext_level as nat, term_count as nat),
            top_level >= block_count - 1,
            working as int == ps_working_scale(*context, ciphertext_level as nat, term_count as nat),
            scale_bits <= working,
            i <= term_count,
            encodings@.len() == i,
            forall|j: int|
                0 <= j < i ==> {
                    &&& (#[trigger] encodings@[j]).0 == ps_coefficient_level(
                        ciphertext_level as nat,
                        term_count as nat,
                        j,
                    )
                    &&& encodings@[j].1 == ps_coefficient_scale(
                        scale_bits as nat,
                        working as int,
                        term_count as nat,
                        j,
                    )
                },
        decreases term_count - i,
    {
        let block = i / block_size;
        proof {
            vstd::arithmetic::div_mod::lemma_div_is_ordered(i as int, (block_count * block_size - 1) as int, block_size as int);
            assert(block_count * block_size - 1 == (block_count - 1) * block_size + (block_size - 1)) by (nonlinear_arith)
                requires
                    block_count >= 1,
            ;
            vstd::arithmetic::div_mod::lemma_fundamental_div_mod_converse(
                (block_count * block_size - 1) as int,
                block_size as int,
                block_count - 1,
                block_size - 1,
            );
        }
        let level = top_level - (block_count - 1 - block);
        let scale = if i % block_size == 0 {
            working
        } else {
            working - scale_bits
        };
        encodings.push((level, scale));
        i += 1;
    }
    encodings
}

} // verus!
