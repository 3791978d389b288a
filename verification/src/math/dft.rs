//! The discrete Fourier transform over the integers modulo `m`, and the
//! finite-sum facts its proofs rest on.

use vstd::arithmetic::div_mod::*;
use vstd::arithmetic::mul::*;
use vstd::arithmetic::power::*;
use vstd::prelude::*;

use crate::math::arith::is_pow2;

verus! {

/// `f(0) + f(1) + ... + f(n - 1)`.
pub open spec fn sum_to(f: spec_fn(int) -> int, n: nat) -> int
    decreases n,
{
    if n == 0 {
        0
    } else {
        sum_to(f, (n - 1) as nat) + f(n - 1)
    }
}

/// `sum_j a[j] * w^(j*k)`: the transform of `a` with root `w`, evaluated at `k`.
pub open spec fn dft(a: Seq<u64>, w: int, k: int) -> int {
    sum_to(|j: int| a[j] as int * pow(w, (j * k) as nat), a.len())
}

/// The entries of `y` at even positions.
pub open spec fn even_part(y: Seq<u64>) -> Seq<u64> {
    Seq::new(y.len() / 2, |i: int| y[2 * i])
}

/// The entries of `y` at odd positions.
pub open spec fn odd_part(y: Seq<u64>) -> Seq<u64> {
    Seq::new(y.len() / 2, |i: int| y[2 * i + 1])
}

/// The radix-2 split of a transform of even length into the transforms of
/// its even and its odd entries with the squared root (an identity over the
/// integers).
pub proof fn lemma_dft_split(y: Seq<u64>, w: int, t: nat)
    requires
        y.len() % 2 == 0,
    ensures
        dft(y, w, t as int) == dft(even_part(y), pow(w, 2), t as int) + pow(w, t) * dft(odd_part(y), pow(w, 2), t as int),
{
    let h = y.len() / 2;
    let f = |j: int| y[j] as int * pow(w, (j * t) as nat);
    let fe = |i: int| even_part(y)[i] as int * pow(pow(w, 2), (i * t) as nat);
    let fo = |i: int| odd_part(y)[i] as int * pow(pow(w, 2), (i * t) as nat);
    assert(y.len() == 2 * h);
    lemma_sum_even_odd(f, h);
    assert forall|i: int| 0 <= i < h implies #[trigger] f(2 * i) == fe(i) by {
        lemma_pow_multiplies(w, 2, (i * t) as nat);
        assert(2 * (i * t) == (2 * i) * t) by (nonlinear_arith);
    }
    lemma_sum_ext(|i: int| f(2 * i), fe, h);
    assert forall|i: int| 0 <= i < h implies #[trigger] f(2 * i + 1) == pow(w, t) * fo(i) by {
        lemma_pow_multiplies(w, 2, (i * t) as nat);
        assert((2 * i + 1) * t == 2 * (i * t) + t) by (nonlinear_arith);
        assert(i * t >= 0) by (nonlinear_arith)
            requires
                i >= 0,
        ;
        lemma_pow_adds(w, (2 * (i * t)) as nat, t);
        let a = odd_part(y)[i] as int;
        lemma_mul_is_associative(a, pow(w, t), pow(w, (2 * (i * t)) as nat));
        lemma_mul_is_associative(pow(w, t), a, pow(w, (2 * (i * t)) as nat));
        lemma_mul_is_commutative(a, pow(w, t));
        lemma_mul_is_commutative(pow(w, (2 * (i * t)) as nat), pow(w, t));
    }
    lemma_sum_ext(|i: int| f(2 * i + 1), |i: int| pow(w, t) * fo(i), h);
    lemma_sum_scale(fo, pow(w, t), h);
}

/// Powers of `v` repeat with period `p` modulo `m` when `v^p = 1 (mod m)`.
pub proof fn lemma_pow_period(v: int, e: nat, i: nat, p: nat, m: int)
    requires
        m > 1,
        pow(v, p) % m == 1,
    ensures
        pow(v, e + i * p) % m == pow(v, e) % m,
{
    assert(i * p >= 0) by (nonlinear_arith);
    lemma_pow_adds(v, e, (i * p) as nat);
    lemma_mul_is_commutative(i as int, p as int);
    lemma_pow_multiplies(v, p, i);
    lemma_pow_mod_noop(pow(v, p), i, m);
    lemma1_pow(i);
    lemma_small_mod(1, m as nat);
    lemma_mul_mod_noop_right(pow(v, e), pow(pow(v, p), i), m);
    lemma_mul_basics(pow(v, e));
}

/// A transform of length `n` with a root whose `n`-th power is one modulo `m`
/// is periodic in its argument with period `n`, modulo `m`.
pub proof fn lemma_dft_period(x: Seq<u64>, v: int, t: nat, m: int)
    requires
        m > 1,
        pow(v, x.len()) % m == 1,
    ensures
        dft(x, v, (t + x.len()) as int) % m == dft(x, v, t as int) % m,
{
    let n = x.len();
    assert forall|i: int| 0 <= i < n implies #[trigger] (x[i] as int * pow(v, (i * (t + n)) as nat)) % m == (
    x[i] as int * pow(v, (i * t) as nat)) % m by {
        assert(i * (t + n) == i * t + i * n) by (nonlinear_arith);
        assert(i * t >= 0) by (nonlinear_arith)
            requires
                i >= 0,
        ;
        lemma_pow_period(v, (i * t) as nat, i as nat, n, m);
        lemma_mul_mod_noop_right(x[i] as int, pow(v, (i * (t + n)) as nat), m);
        lemma_mul_mod_noop_right(x[i] as int, pow(v, (i * t) as nat), m);
    }
    lemma_sum_congruent(
        |j: int| x[j] as int * pow(v, (j * (t + n)) as nat),
        |j: int| x[j] as int * pow(v, (j * t) as nat),
        n,
        m,
    );
}

/// The two outputs of a radix-2 butterfly: with `w^h = -1 (mod m)` for a
/// sequence of length `2h`, entry `t + h` of its transform is the even
/// transform minus the twiddled odd transform.
pub proof fn lemma_dft_butterfly(y: Seq<u64>, w: int, t: nat, m: int)
    requires
        m > 1,
        y.len() % 2 == 0,
        pow(w, y.len() / 2) % m == m - 1,
    ensures
        dft(y, w, t as int) == dft(even_part(y), pow(w, 2), t as int) + pow(w, t) * dft(
            odd_part(y),
            pow(w, 2),
            t as int,
        ),
        dft(y, w, (t + y.len() / 2) as int) % m == (dft(even_part(y), pow(w, 2), t as int) - pow(w, t) * dft(
            odd_part(y),
            pow(w, 2),
            t as int,
        )) % m,
{
    let h = y.len() / 2;
    let e = even_part(y);
    let o = odd_part(y);
    lemma_dft_split(y, w, t);
    lemma_dft_split(y, w, t + h);
    // (w^2)^h = (w^h)^2 = 1 (mod m)
    lemma_pow_multiplies(w, 2, h);
    lemma_pow_multiplies(w, h, 2);
    assert(2 * h == h * 2) by (nonlinear_arith);
    lemma_pow_mod_noop(pow(w, h), 2, m);
    lemma_square_is_pow2(m - 1);
    lemma_square_is_pow2(pow(w, h) % m);
    assert((m - 1) * (m - 1) == m * (m - 2) + 1) by (nonlinear_arith);
    lemma_fundamental_div_mod_converse((m - 1) * (m - 1), m, m - 2, 1);
    assert(pow(pow(w, 2), h) % m == 1);
    lemma_dft_period(e, pow(w, 2), t, m);
    lemma_dft_period(o, pow(w, 2), t, m);
    // w^(t + h) = -w^t (mod m)
    lemma_pow_adds(w, t, h);
    let de = dft(e, pow(w, 2), t as int);
    let dob = dft(o, pow(w, 2), t as int);
    let de2 = dft(e, pow(w, 2), (t + h) as int);
    let do2 = dft(o, pow(w, 2), (t + h) as int);
    assert((pow(w, t) * pow(w, h)) % m == (-pow(w, t)) % m) by {
        lemma_mul_mod_noop_right(pow(w, t), pow(w, h), m);
        lemma_mul_is_distributive_sub(pow(w, t), m, 1);
        lemma_mod_multiples_vanish(pow(w, t), -pow(w, t), m);
        lemma_mul_is_commutative(pow(w, t), m);
    }
    assert((pow(w, t + h) * do2) % m == (-pow(w, t) * dob) % m) by {
        lemma_mul_mod_noop(pow(w, t + h), do2, m);
        lemma_mul_mod_noop(-pow(w, t), dob, m);
    }
    assert(dft(y, w, (t + h) as int) % m == (de - pow(w, t) * dob) % m) by {
        lemma_add_mod_noop(de2, pow(w, t + h) * do2, m);
        lemma_add_mod_noop(de, -pow(w, t) * dob, m);
        lemma_mul_unary_negation(pow(w, t), dob);
    }
}

/// `b` with its bits reversed in a field of `count` positions, `count` a power
/// of two: the lowest bit of `b` becomes the highest.
pub open spec fn bit_rev(count: nat, b: nat) -> nat
    decreases count,
{
    if count <= 1 {
        0
    } else {
        bit_rev(count / 2, b / 2) + (b % 2) * (count / 2)
    }
}

/// The `len` entries of `a` at `offset`, `offset + stride`, `offset + 2 * stride`, ...
pub open spec fn stride_seq(a: Seq<u64>, offset: int, stride: int, len: nat) -> Seq<u64> {
    Seq::new(len, |j: int| a[offset + j * stride])
}

/// What entry `p` of an iterative radix-2 transform of `a` with root `w`
/// holds once its blocks have length `len`: entry `p % len` of the transform,
/// with root `w^(n / len)`, of the `len` inputs that the bit-reversed block
/// number `p / len` selects.
pub open spec fn ntt_stage(a: Seq<u64>, w: int, len: nat, p: int) -> int {
    let blocks = a.len() / len;
    dft(stride_seq(a, bit_rev(blocks, (p / len as int) as nat) as int, blocks as int, len), pow(w, blocks), p % len as int)
}

/// The reversal of `x + 1` from the reversal `r` of `x`: clear the leading
/// ones of `r`, then set the first zero below them.
pub open spec fn rev_increment(count: nat, r: nat) -> nat
    decreases count,
{
    if count <= 1 {
        r
    } else if r < count / 2 {
        r + count / 2
    } else {
        rev_increment(count / 2, (r - count / 2) as nat)
    }
}

/// A power of two above one is twice a power of two.
pub proof fn lemma_pow2_half(n: nat)
    requires
        is_pow2(n),
        n >= 2,
    ensures
        is_pow2(n / 2),
        n == 2 * (n / 2),
{
}

/// Reversing in a field of `2M` positions also moves the highest bit to the
/// lowest place.
pub proof fn lemma_bit_rev_high(m2: nat, x: nat)
    requires
        is_pow2(m2),
        m2 >= 2,
        x < m2,
    ensures
        bit_rev(m2, x) == 2 * bit_rev(m2 / 2, x % (m2 / 2)) + x / (m2 / 2),
    decreases m2,
{
    let m = m2 / 2;
    lemma_pow2_half(m2);
    if m == 1 {
        assert(x % 1 == 0 && x / 1 == x);
        assert(bit_rev(1, x / 2) == 0);
        assert(x / 2 == 0 && x % 2 == x);
    } else {
        lemma_pow2_half(m);
        let h = m / 2;
        lemma_bit_rev_high(m, x / 2);
        // (x / 2) % h == (x % m) / 2 and (x / 2) / h == x / m
        lemma_fundamental_div_mod(x as int, m as int);
        let qm = x / m;
        let rm = x % m;
        assert(x == m * qm + rm);
        assert(x / 2 == h * qm + rm / 2) by {
            lemma_fundamental_div_mod(rm as int, 2);
            assert(x == 2 * (h * qm + rm / 2) + rm % 2) by (nonlinear_arith)
                requires
                    x == m * qm + rm,
                    m == 2 * h,
                    rm == 2 * (rm / 2) + rm % 2,
            ;
            lemma_mod_bound(rm as int, 2);
            lemma_fundamental_div_mod_converse(x as int, 2, (h * qm + rm / 2) as int, (rm % 2) as int);
        }
        assert(rm / 2 < h) by {
            lemma_mod_bound(x as int, m as int);
            lemma_div_is_ordered(rm as int, (m - 1) as int, 2);
        }
        lemma_fundamental_div_mod_converse((x / 2) as int, h as int, qm as int, (rm / 2) as int);
        assert(x % 2 == rm % 2) by {
            assert(x == 2 * (h * qm) + rm) by (nonlinear_arith)
                requires
                    x == m * qm + rm,
                    m == 2 * h,
            ;
            lemma_mod_multiples_vanish((h * qm) as int, rm as int, 2);
        }
        assert(bit_rev(m, rm) == bit_rev(h, rm / 2) + (rm % 2) * h);
        assert(2 * ((rm % 2) * h) == (x % 2) * m) by (nonlinear_arith)
            requires
                x % 2 == rm % 2,
                m == 2 * h,
        ;
    }
}

/// Zero reverses to zero.
pub proof fn lemma_bit_rev_zero(n: nat)
    ensures
        bit_rev(n, 0) == 0,
    decreases n,
{
    if n > 1 {
        lemma_bit_rev_zero(n / 2);
        assert((0nat % 2) * (n / 2) == 0);
    }
}

/// Reversal is its own inverse.
pub proof fn lemma_bit_rev_involution(n: nat, x: nat)
    requires
        is_pow2(n),
        x < n,
    ensures
        bit_rev(n, bit_rev(n, x)) == x,
    decreases n,
{
    if n >= 2 {
        let m = n / 2;
        lemma_pow2_half(n);
        lemma_bit_rev_bound(m, x / 2);
        let y = bit_rev(n, x);
        assert(y == bit_rev(m, x / 2) + (x % 2) * m);
        lemma_bit_rev_bound(n, x);
        lemma_bit_rev_high(n, y);
        lemma_mod_bound(x as int, 2);
        if x % 2 == 0 {
            lemma_small_mod(y, m);
            assert(y / m == 0) by {
                lemma_basic_div(y as int, m as int);
            }
        } else {
            lemma_fundamental_div_mod_converse(y as int, m as int, 1, bit_rev(m, x / 2) as int);
        }
        lemma_bit_rev_involution(m, x / 2);
    }
}

/// Reversal keeps the all-ones value.
pub proof fn lemma_bit_rev_top(n: nat)
    requires
        is_pow2(n),
    ensures
        bit_rev(n, (n - 1) as nat) == n - 1,
    decreases n,
{
    if n >= 2 {
        lemma_pow2_half(n);
        lemma_bit_rev_top(n / 2);
        assert(((n - 1) as nat) / 2 == n / 2 - 1 && ((n - 1) as nat) % 2 == 1);
    }
}

/// Reversed counting: the reversal of `x + 1` is the reversed increment of
/// the reversal of `x`.
pub proof fn lemma_bit_rev_increment(n: nat, x: nat)
    requires
        is_pow2(n),
        x + 1 < n,
    ensures
        bit_rev(n, x + 1) == rev_increment(n, bit_rev(n, x)),
    decreases n,
{
    let m = n / 2;
    lemma_pow2_half(n);
    lemma_bit_rev_bound(m, x / 2);
    if x % 2 == 0 {
        assert((x + 1) / 2 == x / 2 && (x + 1) % 2 == 1);
    } else {
        assert((x + 1) / 2 == x / 2 + 1 && (x + 1) % 2 == 0);
        lemma_bit_rev_increment(m, x / 2);
    }
}

/// A reversed block number stays below the block count.
pub proof fn lemma_bit_rev_bound(count: nat, b: nat)
    requires
        count >= 1,
    ensures
        bit_rev(count, b) < count,
    decreases count,
{
    if count > 1 {
        lemma_bit_rev_bound(count / 2, b / 2);
        lemma_fundamental_div_mod(count as int, 2);
        lemma_mod_bound(b as int, 2);
        assert((b % 2) * (count / 2) <= count / 2) by (nonlinear_arith)
            requires
                b % 2 <= 1,
        ;
    }
}

/// Merging the blocks `2b` and `2b + 1` of length `h` gives block `b` of
/// length `2h`: its even entries come from block `2b`, its odd ones from
/// block `2b + 1`, and its root is the square root of theirs.
pub proof fn lemma_stage_blocks(a: Seq<u64>, w: int, h: nat, b: nat)
    requires
        h >= 1,
        a.len() % (2 * h) == 0,
        b < a.len() / (2 * h),
    ensures
        ({
            let big = a.len() / (2 * h);
            let small = a.len() / h;
            let y = stride_seq(a, bit_rev(big, b) as int, big as int, 2 * h);
            &&& small == 2 * big
            &&& even_part(y) == stride_seq(a, bit_rev(small, 2 * b) as int, small as int, h)
            &&& odd_part(y) == stride_seq(a, bit_rev(small, 2 * b + 1) as int, small as int, h)
            &&& pow(pow(w, big), 2) == pow(w, small)
        }),
{
    let n = a.len();
    let big = n / (2 * h);
    let small = n / h;
    lemma_fundamental_div_mod(n as int, (2 * h) as int);
    assert(n == big * (2 * h));
    assert(big * (2 * h) == h * (2 * big)) by (nonlinear_arith);
    lemma_div_multiples_vanish((2 * big) as int, h as int);
    assert(small == 2 * big);
    assert(big >= 1) by (nonlinear_arith)
        requires
            b < big,
    ;
    assert((2 * b) / 2 == b && (2 * b) % 2 == 0);
    assert((2 * b + 1) / 2 == b && (2 * b + 1) % 2 == 1);
    assert(bit_rev(small, 2 * b) == bit_rev(big, b));
    assert(bit_rev(small, 2 * b + 1) == bit_rev(big, b) + big);
    let r = bit_rev(big, b) as int;
    let y = stride_seq(a, r, big as int, 2 * h);
    assert forall|i: int| 0 <= i < h implies #[trigger] even_part(y)[i] == stride_seq(a, r, small as int, h)[i] by {
        assert(r + (2 * i) * big == r + i * small) by (nonlinear_arith)
            requires
                small == 2 * big,
        ;
    }
    assert forall|i: int| 0 <= i < h implies #[trigger] odd_part(y)[i] == stride_seq(a, r + big, small as int, h)[i] by {
        assert(r + (2 * i + 1) * big == (r + big) + i * small) by (nonlinear_arith)
            requires
                small == 2 * big,
        ;
    }
    assert(even_part(y) =~= stride_seq(a, r, small as int, h));
    assert(odd_part(y) =~= stride_seq(a, r + big, small as int, h));
    lemma_pow_multiplies(w, big, 2);
    assert(big * 2 == small);
}

/// One butterfly of the iterative transform: entries `p` and `p + h` of a
/// block of length `2h` from entries `p` and `p + h` of the two blocks of
/// length `h` it merges.
pub proof fn lemma_stage_butterfly(a: Seq<u64>, w: int, m: int, h: nat, b: nat, i: nat)
    requires
        m > 1,
        h >= 1,
        a.len() % (2 * h) == 0,
        b < a.len() / (2 * h),
        i < h,
        pow(w, a.len() / 2) % m == m - 1,
    ensures
        ({
            let root = pow(w, a.len() / (2 * h));
            let p = (b * (2 * h) + i) as int;
            &&& ntt_stage(a, w, 2 * h, p) == ntt_stage(a, w, h, p) + pow(root, i) * ntt_stage(a, w, h, p + h)
            &&& ntt_stage(a, w, 2 * h, p + h) % m == (ntt_stage(a, w, h, p) - pow(root, i) * ntt_stage(
                a,
                w,
                h,
                p + h,
            )) % m
        }),
{
    let n = a.len();
    let big = n / (2 * h);
    let small = n / h;
    let root = pow(w, big);
    let p = (b * (2 * h) + i) as int;
    lemma_stage_blocks(a, w, h, b);
    let y = stride_seq(a, bit_rev(big, b) as int, big as int, 2 * h);
    lemma_fundamental_div_mod(n as int, (2 * h) as int);
    // block and offset of p and p + h at both lengths
    lemma_fundamental_div_mod_converse(p, (2 * h) as int, b as int, i as int);
    lemma_fundamental_div_mod_converse(p + h, (2 * h) as int, b as int, (i + h) as int);
    assert(p == (2 * b) * h + i) by (nonlinear_arith)
        requires
            p == b * (2 * h) + i,
    ;
    assert(p + h == (2 * b + 1) * h + i) by (nonlinear_arith)
        requires
            p == b * (2 * h) + i,
    ;
    lemma_fundamental_div_mod_converse(p, h as int, (2 * b) as int, i as int);
    lemma_fundamental_div_mod_converse(p + h, h as int, (2 * b + 1) as int, i as int);
    assert(ntt_stage(a, w, 2 * h, p) == dft(y, root, i as int));
    assert(ntt_stage(a, w, 2 * h, p + h) == dft(y, root, (i + h) as int));
    assert(ntt_stage(a, w, h, p) == dft(even_part(y), pow(root, 2), i as int));
    assert(ntt_stage(a, w, h, p + h) == dft(odd_part(y), pow(root, 2), i as int));
    // root^h = w^(n / 2) = -1 (mod m)
    assert(y.len() / 2 == h);
    lemma_pow_multiplies(w, big, h);
    assert(big * h == n / 2) by {
        assert(n == big * (2 * h));
        assert(big * (2 * h) == 2 * (big * h)) by (nonlinear_arith);
    }
    lemma_dft_butterfly(y, root, i, m);
}

/// The reduced butterfly outputs are the reduced sum and difference of the
/// even value and the twiddled odd value.
pub proof fn lemma_butterfly_mod(u: int, x: int, w: int, e: int, o: int, tw: int, m: int)
    requires
        m > 0,
        u == e % m,
        x == o % m,
        w == tw % m,
    ensures
        (u + (x * w) % m) % m == (e + tw * o) % m,
        (u - (x * w) % m) % m == (e - tw * o) % m,
{
    lemma_mul_mod_noop(o, tw, m);
    lemma_mul_is_commutative(o, tw);
    lemma_add_mod_noop(e, tw * o, m);
    lemma_sub_mod_noop(e, tw * o, m);
    lemma_mod_twice(tw * o, m);
    lemma_mod_twice(e, m);
    lemma_add_mod_noop(u, (x * w) % m, m);
    lemma_sub_mod_noop(u, (x * w) % m, m);
}

/// At block length one, entry `p` is the input at the reversed position `p`.
pub proof fn lemma_stage_start(a: Seq<u64>, w: int, p: int)
    requires
        a.len() >= 1,
        0 <= p < a.len(),
    ensures
        ntt_stage(a, w, 1, p) == a[bit_rev(a.len(), p as nat) as int] as int,
{
    let s = stride_seq(a, bit_rev(a.len(), p as nat) as int, a.len() as int, 1);
    assert(p / 1 == p && p % 1 == 0);
    reveal_with_fuel(sum_to, 2);
    lemma_pow0(pow(w, a.len()));
    assert(dft(s, pow(w, a.len()), 0) == s[0] as int);
}

/// At block length `n`, entry `p` is entry `p` of the transform of the whole input.
pub proof fn lemma_stage_end(a: Seq<u64>, w: int, p: int)
    requires
        a.len() >= 1,
        0 <= p < a.len(),
    ensures
        ntt_stage(a, w, a.len(), p) == dft(a, w, p),
{
    let n = a.len();
    lemma_div_basics(n as int);
    lemma_small_mod(p as nat, n);
    lemma_pow1(w);
    assert(p / (n as int) == 0) by {
        lemma_basic_div(p, n as int);
    }
    assert(stride_seq(a, 0, 1, n) =~= a);
}

/// `sum_k w^(k*d)` for `k < n`.
pub open spec fn geometric(w: int, d: nat, n: nat) -> int {
    sum_to(|k: int| pow(w, (k * d) as nat), n)
}

/// `(-1)^d = -1 (mod m)` for odd `d`, in the form `x^d = -1` for `x = -1 (mod m)`.
proof fn lemma_pow_minus_one_odd(x: int, d: nat, m: int)
    requires
        m > 1,
        x % m == m - 1,
        d % 2 == 1,
    ensures
        pow(x, d) % m == m - 1,
    decreases d,
{
    if d == 1 {
        lemma_pow1(x);
    } else {
        let e = (d - 2) as nat;
        lemma_pow_minus_one_odd(x, e, m);
        lemma_pow_adds(x, e, 2);
        lemma_square_is_pow2(x);
        lemma_mul_mod_noop(pow(x, e), x * x, m);
        lemma_mul_mod_noop(x, x, m);
        assert((m - 1) * (m - 1) == m * (m - 2) + 1) by (nonlinear_arith);
        lemma_fundamental_div_mod_converse((m - 1) * (m - 1), m, m - 2, 1);
        lemma_small_mod(1, m as nat);
        lemma_mul_basics(m - 1);
        lemma_small_mod((m - 1) as nat, m as nat);
    }
}

/// Orthogonality of the powers of a root `w` whose `n/2`-th power is `-1`:
/// for `0 < d < n`, `sum_{k < n} w^(k*d) = 0 (mod m)`.
pub proof fn lemma_orthogonality(w: int, n: nat, d: nat, m: int)
    requires
        m > 1,
        is_pow2(n),
        0 < d < n,
        pow(w, n / 2) % m == m - 1,
    ensures
        geometric(w, d, n) % m == 0,
    decreases n,
{
    lemma_pow2_half(n);
    let h = n / 2;
    let f = |k: int| pow(w, (k * d) as nat);
    lemma_sum_split(f, h, h);
    // w^(k*d + h*d) = w^(k*d) * (w^h)^d
    let c = pow(pow(w, h), d);
    assert forall|k: int| 0 <= k < h implies #[trigger] f(k + h) == f(k) * c by {
        assert((k + h) * d == k * d + h * d) by (nonlinear_arith);
        assert(k * d >= 0) by (nonlinear_arith)
            requires
                k >= 0,
        ;
        lemma_pow_adds(w, (k * d) as nat, h * d);
        lemma_pow_multiplies(w, h, d);
    }
    lemma_sum_ext(|k: int| f(k + h), |k: int| c * f(k), h);
    lemma_sum_scale(f, c, h);
    lemma_mul_is_distributive_add(sum_to(f, h), 1, c);
    assert(geometric(w, d, n) == sum_to(f, h) * (1 + c)) by {
        lemma_mul_is_commutative(c, sum_to(f, h));
    }
    if d % 2 == 1 {
        lemma_pow_mod_noop(pow(w, h), d, m);
        lemma_mod_twice(pow(w, h), m);
        lemma_pow_minus_one_odd(pow(w, h) % m, d, m);
        assert(c % m == m - 1);
        // 1 + c = 0 (mod m)
        lemma_add_mod_noop(1, c, m);
        lemma_small_mod(1, m as nat);
        lemma_mod_self_0(m);
        assert((1 + c) % m == 0);
        lemma_mul_mod_noop_right(sum_to(f, h), 1 + c, m);
        lemma_mul_basics(sum_to(f, h));
        lemma_small_mod(0, m as nat);
        assert((sum_to(f, h) * (1 + c)) % m == 0);
    } else {
        let e = d / 2;
        // c = (w^n)^e = 1 (mod m)
        lemma_pow_multiplies(w, h, d);
        assert(h * d == n * e) by (nonlinear_arith)
            requires
                n == 2 * h,
                d == 2 * e,
        ;
        lemma_pow_multiplies(w, n, e);
        lemma_pow_multiplies(w, h, 2);
        assert(h * 2 == n);
        lemma_pow_mod_noop(pow(w, h), 2, m);
        lemma_square_is_pow2(pow(w, h) % m);
        assert((m - 1) * (m - 1) == m * (m - 2) + 1) by (nonlinear_arith);
        lemma_fundamental_div_mod_converse((m - 1) * (m - 1), m, m - 2, 1);
        lemma_square_is_pow2(m - 1);
        assert(pow(w, n) % m == 1);
        lemma_pow_mod_noop(pow(w, n), e, m);
        lemma1_pow(e);
        lemma_small_mod(1, m as nat);
        assert(c % m == 1);
        // sum_{k < h} w^(k*d) = sum_{k < h} (w^2)^(k*e)
        let w2 = pow(w, 2);
        assert forall|k: int| 0 <= k < h implies #[trigger] f(k) == pow(w2, (k * e) as nat) by {
            assert(k * d == 2 * (k * e)) by (nonlinear_arith)
                requires
                    d == 2 * e,
            ;
            assert(k * e >= 0) by (nonlinear_arith)
                requires
                    k >= 0,
            ;
            lemma_pow_multiplies(w, 2, (k * e) as nat);
        }
        lemma_sum_ext(f, |k: int| pow(w2, (k * e) as nat), h);
        assert(h >= 2) by {
            assert(e >= 1 && e < h);
        }
        lemma_pow2_half(h);
        lemma_pow_multiplies(w, 2, h / 2);
        assert(2 * (h / 2) == h);
        lemma_orthogonality(w2, h, e, m);
        assert(sum_to(f, h) % m == 0);
        lemma_mul_mod_noop(sum_to(f, h), 1 + c, m);
        lemma_mul_basics((1 + c) % m);
        lemma_small_mod(0, m as nat);
        assert((sum_to(f, h) * (1 + c)) % m == 0);
    }
}

/// The facts about a transform root `w` of order `n` and its inverse `wi`
/// that the inversion and convolution proofs use.
pub open spec fn root_pair(w: int, wi: int, n: nat, m: int) -> bool {
    &&& m > 1
    &&& is_pow2(n)
    &&& (wi * w) % m == 1
    &&& n >= 2 ==> pow(w, n / 2) % m == m - 1
}

/// `(a*b) % m` only depends on `a % m` and `b % m`.
proof fn lemma_mul_congruent(a: int, b: int, c: int, d: int, m: int)
    requires
        m > 0,
        a % m == c % m,
        b % m == d % m,
    ensures
        (a * b) % m == (c * d) % m,
{
    lemma_mul_mod_noop(a, b, m);
    lemma_mul_mod_noop(c, d, m);
}

/// `w^e * wi^e = 1 (mod m)` when `wi * w = 1 (mod m)`.
pub proof fn lemma_unit_power(w: int, wi: int, e: nat, m: int)
    requires
        m > 1,
        (wi * w) % m == 1,
    ensures
        (pow(w, e) * pow(wi, e)) % m == 1,
{
    lemma_pow_distributes(w, wi, e);
    lemma_mul_is_commutative(w, wi);
    lemma_pow_mod_noop(w * wi, e, m);
    lemma1_pow(e);
    lemma_small_mod(1, m as nat);
}

/// `w^n = 1 (mod m)` for a root of order `n`.
proof fn lemma_root_full_turn(w: int, n: nat, m: int)
    requires
        m > 1,
        is_pow2(n),
        n >= 2,
        pow(w, n / 2) % m == m - 1,
    ensures
        pow(w, n) % m == 1,
{
    lemma_pow2_half(n);
    lemma_pow_multiplies(w, n / 2, 2);
    lemma_pow_mod_noop(pow(w, n / 2), 2, m);
    lemma_square_is_pow2(pow(w, n / 2) % m);
    assert((m - 1) * (m - 1) == m * (m - 2) + 1) by (nonlinear_arith);
    lemma_fundamental_div_mod_converse((m - 1) * (m - 1), m, m - 2, 1);
}

/// The exponent of `w^s * wi^t` as a single power of `w`, in `0..n`.
pub open spec fn ratio_exponent(s: nat, t: nat, n: nat) -> nat {
    if s % n >= t {
        (s % n - t) as nat
    } else {
        (n + s % n - t) as nat
    }
}

/// `w^s * wi^t = w^((s - t) mod n) (mod m)`.
proof fn lemma_ratio(w: int, wi: int, s: nat, t: nat, n: nat, m: int)
    requires
        root_pair(w, wi, n, m),
        n >= 2,
        t < n,
    ensures
        (pow(w, s) * pow(wi, t)) % m == pow(w, ratio_exponent(s, t, n)) % m,
{
    lemma_root_full_turn(w, n, m);
    lemma_small_mod(1, m as nat);
    let r = s % n;
    lemma_fundamental_div_mod(s as int, n as int);
    lemma_mod_bound(s as int, n as int);
    // w^s = w^r (mod m)
    assert(pow(w, s) % m == pow(w, r) % m) by {
        assert(s == r + (s / n) * n) by {
            lemma_mul_is_commutative(n as int, (s / n) as int);
        }
        lemma_pow_period(w, r, s / n, n, m);
    }
    lemma_mul_congruent(pow(w, s), pow(wi, t), pow(w, r), pow(wi, t), m);
    if r >= t {
        let d = (r - t) as nat;
        lemma_pow_adds(w, d, t);
        lemma_unit_power(w, wi, t, m);
        lemma_mul_is_associative(pow(w, d), pow(w, t), pow(wi, t));
        lemma_mul_congruent(pow(w, d), pow(w, t) * pow(wi, t), pow(w, d), 1, m);
        lemma_mul_basics(pow(w, d));
    } else {
        let e = (t - r) as nat;
        let d = (n - e) as nat;
        // w^r * wi^t = wi^e and w^d = w^d * (w^e * wi^e) = w^n * wi^e = wi^e (mod m)
        lemma_pow_adds(wi, r, e);
        lemma_unit_power(w, wi, r, m);
        lemma_mul_is_associative(pow(w, r), pow(wi, r), pow(wi, e));
        lemma_mul_congruent(pow(w, r) * pow(wi, r), pow(wi, e), 1, pow(wi, e), m);
        lemma_mul_basics(pow(wi, e));
        lemma_unit_power(w, wi, e, m);
        lemma_pow_adds(w, d, e);
        lemma_mul_is_associative(pow(w, d), pow(w, e), pow(wi, e));
        lemma_mul_congruent(pow(w, d), pow(w, e) * pow(wi, e), pow(w, d), 1, m);
        lemma_mul_basics(pow(w, d));
        lemma_mul_congruent(pow(w, n), pow(wi, e), 1, pow(wi, e), m);
    }
}

/// The kernel of inversion and convolution: `sum_{k < n} w^(k*s) * wi^(k*t)`
/// is `n` when `s = t (mod n)` and `0` otherwise, modulo `m`.
pub proof fn lemma_kernel(w: int, wi: int, n: nat, m: int, s: nat, t: nat)
    requires
        root_pair(w, wi, n, m),
        t < n,
    ensures
        sum_to(|k: int| pow(w, (k * s) as nat) * pow(wi, (k * t) as nat), n) % m == (if s % n == t {
            n as int % m
        } else {
            0
        }),
{
    let f = |k: int| pow(w, (k * s) as nat) * pow(wi, (k * t) as nat);
    if n == 1 {
        reveal_with_fuel(sum_to, 2);
        lemma_pow0(w);
        lemma_pow0(wi);
        lemma_mod_basics_small(s);
    } else {
        let d = ratio_exponent(s, t, n);
        let z = pow(w, s) * pow(wi, t);
        lemma_ratio(w, wi, s, t, n, m);
        assert forall|k: int| 0 <= k < n implies #[trigger] f(k) % m == pow(w, (k * d) as nat) % m by {
            assert(k * s >= 0 && k * t >= 0 && k * d >= 0) by (nonlinear_arith)
                requires
                    k >= 0,
            ;
            lemma_mul_is_commutative(k, s as int);
            lemma_mul_is_commutative(k, t as int);
            lemma_mul_is_commutative(k, d as int);
            lemma_pow_multiplies(w, s, k as nat);
            lemma_pow_multiplies(wi, t, k as nat);
            lemma_pow_multiplies(w, d, k as nat);
            lemma_pow_distributes(pow(w, s), pow(wi, t), k as nat);
            lemma_pow_mod_noop(z, k as nat, m);
            lemma_pow_mod_noop(pow(w, d), k as nat, m);
        }
        lemma_sum_congruent(f, |k: int| pow(w, (k * d) as nat), n, m);
        lemma_mod_bound(s as int, n as int);
        if s % n == t {
            assert(d == 0);
            assert forall|k: int| 0 <= k < n implies #[trigger] pow(w, (k * d) as nat) == 1 by {
                lemma_pow0(w);
            }
            lemma_sum_const_one(|k: int| pow(w, (k * d) as nat), n);
        } else {
            lemma_orthogonality(w, n, d, m);
        }
    }
}

/// The transform of `a` with root `w`, reduced modulo `m`.
pub open spec fn transform(a: Seq<u64>, w: int, m: int) -> Seq<u64> {
    Seq::new(a.len(), |k: int| (dft(a, w, k) % m) as u64)
}

/// The transform of `a` with root `w`, scaled by `c` and reduced modulo `m`.
pub open spec fn scaled_transform(a: Seq<u64>, w: int, c: int, m: int) -> Seq<u64> {
    Seq::new(a.len(), |k: int| ((c * dft(a, w, k)) % m) as u64)
}

/// Expanding a transform of transforms into a double sum, modulo `m`:
/// `sum_k (T_k mod m) * v^(k*t) = sum_j a_j * sum_k w^(k*j) * v^(k*t)`.
proof fn lemma_double_transform(a: Seq<u64>, w: int, v: int, m: int, t: nat)
    requires
        m > 1,
        m <= u64::MAX + 1,
    ensures
        dft(transform(a, w, m), v, t as int) % m == sum_to(
            |j: int| a[j] as int * sum_to(|k: int| pow(w, (k * j) as nat) * pow(v, (k * t) as nat), a.len()),
            a.len(),
        ) % m,
{
    let n = a.len();
    let fa = transform(a, w, m);
    let term = |k: int, j: int| a[j] as int * (pow(w, (k * j) as nat) * pow(v, (k * t) as nat));
    // sum_k fa[k] v^(kt) = sum_k dft(a, w, k) v^(kt) (mod m)
    assert forall|k: int| 0 <= k < n implies #[trigger] (fa[k] as int * pow(v, (k * t) as nat)) % m == (
    sum_to(|j: int| term(k, j), n)) % m by {
        lemma_mod_bound(dft(a, w, k), m);
        lemma_mod_twice(dft(a, w, k), m);
        lemma_mul_congruent(fa[k] as int, pow(v, (k * t) as nat), dft(a, w, k), pow(v, (k * t) as nat), m);
        let g = |j: int| a[j] as int * pow(w, (j * k) as nat);
        lemma_sum_scale(g, pow(v, (k * t) as nat), n);
        assert forall|j: int| 0 <= j < n implies #[trigger] (pow(v, (k * t) as nat) * g(j)) == term(k, j) by {
            lemma_mul_is_commutative(j, k);
            lemma_mul_is_commutative(pow(v, (k * t) as nat), g(j));
            lemma_mul_is_associative(a[j] as int, pow(w, (k * j) as nat), pow(v, (k * t) as nat));
        }
        lemma_sum_ext(|j: int| pow(v, (k * t) as nat) * g(j), |j: int| term(k, j), n);
        lemma_mul_is_commutative(dft(a, w, k), pow(v, (k * t) as nat));
    }
    lemma_sum_congruent(
        |k: int| fa[k] as int * pow(v, (k * t) as nat),
        |k: int| sum_to(|j: int| term(k, j), n),
        n,
        m,
    );
    lemma_sum_swap(term, n, n);
    let col = |j: int| sum_to(|k: int| term(k, j), n);
    assert forall|j: int| 0 <= j < n implies #[trigger] col(j) == a[j] as int * sum_to(
        |k: int| pow(w, (k * j) as nat) * pow(v, (k * t) as nat),
        n,
    ) by {
        let f = |k: int| pow(w, (k * j) as nat) * pow(v, (k * t) as nat);
        lemma_sum_scale(f, a[j] as int, n);
        lemma_sum_ext(|k: int| term(k, j), |k: int| a[j] as int * f(k), n);
    }
    lemma_sum_ext(
        col,
        |j: int| a[j] as int * sum_to(|k: int| pow(w, (k * j) as nat) * pow(v, (k * t) as nat), n),
        n,
    );
}

/// Inversion: transforming with the inverse root and scaling by `1/n` gives
/// back what the transform with the root was taken of.
pub proof fn lemma_dft_round_trip(a: Seq<u64>, w: int, wi: int, ni: int, m: int)
    requires
        root_pair(w, wi, a.len(), m),
        (ni * a.len()) % m == 1,
        m <= u64::MAX + 1,
        forall|j: int| 0 <= j < a.len() ==> #[trigger] a[j] < m,
    ensures
        scaled_transform(transform(a, w, m), wi, ni, m) == a,
{
    let n = a.len();
    let fa = transform(a, w, m);
    let back = scaled_transform(fa, wi, ni, m);
    assert forall|t: int| 0 <= t < n implies #[trigger] back[t] == a[t] by {
        lemma_double_transform(a, w, wi, m, t as nat);
        let expanded = |j: int|
            a[j] as int * sum_to(|k: int| pow(w, (k * j) as nat) * pow(wi, (k * t) as nat), a.len());
        let picked = |j: int| if j == t { a[j] as int * n } else { 0 };
        assert forall|j: int| 0 <= j < n implies #[trigger] expanded(j) % m == picked(j) % m by {
            let kern = sum_to(|k: int| pow(w, (k * j) as nat) * pow(wi, (k * t) as nat), n);
            lemma_kernel(w, wi, n, m, j as nat, t as nat);
            lemma_small_mod(j as nat, n);
            lemma_mod_twice(n as int, m);
            lemma_small_mod(0, m as nat);
            lemma_mul_congruent(a[j] as int, kern, a[j] as int, if j == t { n as int } else { 0 }, m);
            lemma_mul_basics(a[j] as int);
        }
        lemma_sum_congruent(expanded, picked, n, m);
        lemma_sum_single(picked, n, t);
        lemma_small_mod(1, m as nat);
        // ni * (a_t * n) = a_t (mod m)
        let s = dft(fa, wi, t);
        lemma_mul_congruent(ni, s, ni, a[t] as int * n, m);
        lemma_mul_is_associative(ni, a[t] as int, n as int);
        lemma_mul_is_commutative(ni, a[t] as int);
        lemma_mul_is_associative(a[t] as int, ni, n as int);
        lemma_mul_congruent(a[t] as int, ni * n, a[t] as int, 1, m);
        lemma_mul_basics(a[t] as int);
        lemma_small_mod(a[t] as nat, m as nat);
        lemma_mod_bound(ni * s, m);
    }
    assert(back =~= a);
}

/// Inversion the other way round: scaling the inverse-root transform by `1/n`
/// and transforming with the root gives back the original values.
pub proof fn lemma_dft_round_trip_reverse(p: Seq<u64>, w: int, wi: int, ni: int, m: int)
    requires
        root_pair(wi, w, p.len(), m),
        (ni * p.len()) % m == 1,
        m <= u64::MAX + 1,
        forall|j: int| 0 <= j < p.len() ==> #[trigger] p[j] < m,
    ensures
        transform(scaled_transform(p, wi, ni, m), w, m) == p,
{
    let n = p.len();
    lemma_dft_round_trip(p, wi, w, ni, m);
    let s = scaled_transform(p, wi, ni, m);
    let x = transform(p, wi, m);
    assert forall|t: int| 0 <= t < n implies #[trigger] transform(s, w, m)[t] == scaled_transform(x, w, ni, m)[t] by {
        let f = |k: int| s[k] as int * pow(w, (k * t) as nat);
        let g = |k: int| x[k] as int * pow(w, (k * t) as nat);
        assert forall|k: int| 0 <= k < n implies #[trigger] f(k) % m == (ni * g(k)) % m by {
            let d = dft(p, wi, k);
            lemma_mod_bound(ni * d, m);
            lemma_mod_bound(d, m);
            lemma_mod_twice(ni * d, m);
            lemma_mod_twice(d, m);
            lemma_mul_congruent(ni, d, ni, x[k] as int, m);
            lemma_mul_congruent(s[k] as int, pow(w, (k * t) as nat), ni * (x[k] as int), pow(w, (k * t) as nat), m);
            lemma_mul_is_associative(ni, x[k] as int, pow(w, (k * t) as nat));
        }
        lemma_sum_scale(g, ni, n);
        lemma_sum_congruent(f, |k: int| ni * g(k), n, m);
        lemma_mod_bound(dft(s, w, t), m);
        lemma_mod_bound(ni * dft(x, w, t), m);
    }
    assert(transform(s, w, m) =~= scaled_transform(x, w, ni, m));
}

/// Entrywise product of two sequences, reduced modulo `m`.
pub open spec fn pointwise_product(u: Seq<u64>, v: Seq<u64>, m: int) -> Seq<u64> {
    Seq::new(u.len(), |k: int| ((u[k] as int * v[k] as int) % m) as u64)
}

/// Coefficient `t` of the cyclic convolution of `x` and `y`: the sum of
/// `x_j * y_l` over `j + l = t (mod n)`.
pub open spec fn cyclic_coeff(x: Seq<u64>, y: Seq<u64>, t: int) -> int {
    sum_to(|j: int| x[j] as int * y[(t - j) % (x.len() as int)] as int, x.len())
}

/// One term of the triple sum behind the convolution theorem.
pub open spec fn convolution_term(x: Seq<u64>, y: Seq<u64>, w: int, v: int, t: int, k: int, j: int, l: int) -> int {
    (x[j] as int * y[l] as int) * (pow(w, (k * (j + l)) as nat) * pow(v, (k * t) as nat))
}

/// `sum_l term(k, j, l)`.
pub open spec fn conv_sum_l(x: Seq<u64>, y: Seq<u64>, w: int, v: int, t: int, k: int, j: int) -> int {
    sum_to(|l: int| convolution_term(x, y, w, v, t, k, j, l), x.len())
}

/// `sum_j sum_l term(k, j, l)`.
pub open spec fn conv_sum_jl(x: Seq<u64>, y: Seq<u64>, w: int, v: int, t: int, k: int) -> int {
    sum_to(|j: int| conv_sum_l(x, y, w, v, t, k, j), x.len())
}

/// `sum_k term(k, j, l)`.
pub open spec fn conv_sum_k(x: Seq<u64>, y: Seq<u64>, w: int, v: int, t: int, j: int, l: int) -> int {
    sum_to(|k: int| convolution_term(x, y, w, v, t, k, j, l), x.len())
}

/// `sum_l sum_k term(k, j, l)`.
pub open spec fn conv_sum_lk(x: Seq<u64>, y: Seq<u64>, w: int, v: int, t: int, j: int) -> int {
    sum_to(|l: int| conv_sum_k(x, y, w, v, t, j, l), x.len())
}

/// The product of two transforms at `k`, times `v^(k*t)`, as a double sum.
proof fn lemma_product_expansion(x: Seq<u64>, y: Seq<u64>, w: int, v: int, t: int, k: int)
    requires
        x.len() == y.len(),
        k >= 0,
        t >= 0,
    ensures
        dft(x, w, k) * dft(y, w, k) * pow(v, (k * t) as nat) == conv_sum_jl(x, y, w, v, t, k),
{
    let n = x.len();
    let dy = dft(y, w, k);
    let vt = pow(v, (k * t) as nat);
    let fx = |j: int| x[j] as int * pow(w, (j * k) as nat);
    let fy = |l: int| y[l] as int * pow(w, (l * k) as nat);
    lemma_sum_scale(fx, dy * vt, n);
    lemma_mul_is_commutative(dy * vt, dft(x, w, k));
    lemma_mul_is_associative(dft(x, w, k), dy, vt);
    assert forall|j: int| 0 <= j < n implies #[trigger] ((dy * vt) * fx(j)) == conv_sum_l(x, y, w, v, t, k, j) by {
        let c = fx(j) * vt;
        lemma_sum_scale(fy, c, n);
        assert forall|l: int| 0 <= l < n implies #[trigger] (c * fy(l)) == convolution_term(x, y, w, v, t, k, j, l) by {
            assert(j * k >= 0 && l * k >= 0) by (nonlinear_arith)
                requires
                    j >= 0,
                    l >= 0,
                    k >= 0,
            ;
            assert(k * (j + l) == j * k + l * k) by (nonlinear_arith);
            lemma_pow_adds(w, (j * k) as nat, (l * k) as nat);
            let xa = x[j] as int;
            let ya = y[l] as int;
            let pj = pow(w, (j * k) as nat);
            let pl = pow(w, (l * k) as nat);
            assert((xa * pj * vt) * (ya * pl) == (xa * ya) * ((pj * pl) * vt)) by (nonlinear_arith);
        }
        lemma_sum_ext(|l: int| c * fy(l), |l: int| convolution_term(x, y, w, v, t, k, j, l), n);
        assert((dy * vt) * fx(j) == c * dy) by (nonlinear_arith)
            requires
                c == fx(j) * vt,
        ;
    }
    lemma_sum_ext(|j: int| (dy * vt) * fx(j), |j: int| conv_sum_l(x, y, w, v, t, k, j), n);
}

/// Moving the sum over `k` of the triple sum innermost.
proof fn lemma_conv_swap(x: Seq<u64>, y: Seq<u64>, w: int, v: int, t: int)
    ensures
        sum_to(|k: int| conv_sum_jl(x, y, w, v, t, k), x.len()) == sum_to(
            |j: int| conv_sum_lk(x, y, w, v, t, j),
            x.len(),
        ),
{
    let n = x.len();
    let f2 = |k: int, j: int| conv_sum_l(x, y, w, v, t, k, j);
    lemma_sum_swap(f2, n, n);
    assert forall|k: int| 0 <= k < n implies sum_to(|j: int| f2(k, j), n) == #[trigger] conv_sum_jl(
        x,
        y,
        w,
        v,
        t,
        k,
    ) by {
        lemma_sum_ext(|j: int| f2(k, j), |j: int| conv_sum_l(x, y, w, v, t, k, j), n);
    }
    lemma_sum_ext(|k: int| sum_to(|j: int| f2(k, j), n), |k: int| conv_sum_jl(x, y, w, v, t, k), n);
    assert forall|j: int| 0 <= j < n implies sum_to(|k: int| f2(k, j), n) == #[trigger] conv_sum_lk(
        x,
        y,
        w,
        v,
        t,
        j,
    ) by {
        let g2 = |k: int, l: int| convolution_term(x, y, w, v, t, k, j, l);
        lemma_sum_swap(g2, n, n);
        assert forall|k: int| 0 <= k < n implies sum_to(|l: int| g2(k, l), n) == #[trigger] f2(k, j) by {
            lemma_sum_ext(|l: int| g2(k, l), |l: int| convolution_term(x, y, w, v, t, k, j, l), n);
        }
        lemma_sum_ext(|k: int| sum_to(|l: int| g2(k, l), n), |k: int| f2(k, j), n);
        assert forall|l: int| 0 <= l < n implies sum_to(|k: int| g2(k, l), n) == #[trigger] conv_sum_k(
            x,
            y,
            w,
            v,
            t,
            j,
            l,
        ) by {
            lemma_sum_ext(|k: int| g2(k, l), |k: int| convolution_term(x, y, w, v, t, k, j, l), n);
        }
        lemma_sum_ext(|l: int| sum_to(|k: int| g2(k, l), n), |l: int| conv_sum_k(x, y, w, v, t, j, l), n);
    }
    lemma_sum_ext(|j: int| sum_to(|k: int| f2(k, j), n), |j: int| conv_sum_lk(x, y, w, v, t, j), n);
}

/// The convolution theorem: transforming two sequences, multiplying the
/// transforms entrywise and inverting gives their cyclic convolution.
pub proof fn lemma_cyclic_convolution(x: Seq<u64>, y: Seq<u64>, w: int, wi: int, ni: int, m: int, t: int)
    requires
        root_pair(w, wi, x.len(), m),
        (ni * x.len()) % m == 1,
        m <= u64::MAX + 1,
        x.len() == y.len(),
        0 <= t < x.len(),
    ensures
        scaled_transform(pointwise_product(transform(x, w, m), transform(y, w, m), m), wi, ni, m)[t] as int
            == cyclic_coeff(x, y, t) % m,
{
    let n = x.len();
    let fx = transform(x, w, m);
    let fy = transform(y, w, m);
    let p = pointwise_product(fx, fy, m);
    // sum_k p_k wi^(kt) = sum_k sum_j sum_l term (mod m)
    assert forall|k: int| 0 <= k < n implies #[trigger] (p[k] as int * pow(wi, (k * t) as nat)) % m
        == conv_sum_jl(x, y, w, wi, t, k) % m by {
        let dx = dft(x, w, k);
        let dy = dft(y, w, k);
        let vt = pow(wi, (k * t) as nat);
        lemma_mod_bound(dx, m);
        lemma_mod_bound(dy, m);
        lemma_mod_bound((dx % m) * (dy % m), m);
        lemma_mul_mod_noop(dx, dy, m);
        lemma_mod_twice(dx * dy, m);
        lemma_mul_congruent(p[k] as int, vt, dx * dy, vt, m);
        lemma_product_expansion(x, y, w, wi, t, k);
    }
    lemma_sum_congruent(|k: int| p[k] as int * pow(wi, (k * t) as nat), |k: int| conv_sum_jl(x, y, w, wi, t, k), n, m);
    lemma_conv_swap(x, y, w, wi, t);
    // for each j: sum_l sum_k term = x_j y_(t-j mod n) n (mod m)
    let target = |j: int| x[j] as int * y[(t - j) % (n as int)] as int * n;
    assert forall|j: int| 0 <= j < n implies #[trigger] conv_sum_lk(x, y, w, wi, t, j) % m == target(j) % m by {
        let lstar = (t - j) % (n as int);
        lemma_mod_bound(t - j, n as int);
        let picked = |l: int| if l == lstar { x[j] as int * y[l] as int * n } else { 0 };
        assert forall|l: int| 0 <= l < n implies #[trigger] conv_sum_k(x, y, w, wi, t, j, l) % m == picked(l) % m by {
            let s = (j + l) as nat;
            let kern = |k: int| pow(w, (k * s) as nat) * pow(wi, (k * t) as nat);
            let c = x[j] as int * y[l] as int;
            lemma_sum_scale(kern, c, n);
            lemma_sum_ext(|k: int| convolution_term(x, y, w, wi, t, k, j, l), |k: int| c * kern(k), n);
            lemma_kernel(w, wi, n, m, s, t as nat);
            lemma_mod_sub_to_sum(j, l, t, n as int);
            lemma_mod_twice(n as int, m);
            lemma_small_mod(0, m as nat);
            lemma_mul_congruent(c, sum_to(kern, n), c, if l == lstar { n as int } else { 0 }, m);
            lemma_mul_basics(c);
        }
        lemma_sum_congruent(|l: int| conv_sum_k(x, y, w, wi, t, j, l), picked, n, m);
        lemma_sum_single(picked, n, lstar);
    }
    lemma_sum_congruent(|j: int| conv_sum_lk(x, y, w, wi, t, j), target, n, m);
    // sum_j target_j = n * cyclic
    let cyc = |j: int| x[j] as int * y[(t - j) % (n as int)] as int;
    lemma_sum_scale(cyc, n as int, n);
    assert forall|j: int| 0 <= j < n implies #[trigger] target(j) == (n as int) * cyc(j) by {
        lemma_mul_is_commutative(n as int, cyc(j));
    }
    lemma_sum_ext(target, |j: int| (n as int) * cyc(j), n);
    // ni * (n * cyclic) = cyclic (mod m)
    let s = dft(p, wi, t);
    let cy = cyclic_coeff(x, y, t);
    lemma_small_mod(1, m as nat);
    lemma_mul_congruent(ni, s, ni, (n as int) * cy, m);
    lemma_mul_is_associative(ni, n as int, cy);
    lemma_mul_congruent(ni * n, cy, 1, cy, m);
    lemma_mul_basics(cy);
    lemma_mod_bound(ni * s, m);
}

/// `(j + l) mod n == t` exactly when `l == (t - j) mod n`, for `j, l, t` in `0..n`.
proof fn lemma_mod_sub_to_sum(j: int, l: int, t: int, n: int)
    requires
        n > 0,
        0 <= j < n,
        0 <= l < n,
        0 <= t < n,
    ensures
        ((j + l) % n == t) <==> (l == (t - j) % n),
{
    if l == (t - j) % n {
        lemma_div_pos_is_pos_sketch(t - j, n);
        if t - j >= 0 {
            lemma_fundamental_div_mod_converse(t - j, n, 0, t - j);
            assert(l == t - j);
            lemma_small_mod(t as nat, n as nat);
        } else {
            lemma_fundamental_div_mod_converse(t - j, n, -1, t - j + n);
            assert(l == t - j + n);
            lemma_mod_add_multiples_vanish(t, n);
            lemma_small_mod(t as nat, n as nat);
        }
    }
    if (j + l) % n == t {
        lemma_fundamental_div_mod(j + l, n);
        let q = (j + l) / n;
        assert(q == 0 || q == 1) by {
            assert(0 <= j + l < 2 * n);
            lemma_div_pos_is_pos_sketch(j + l - n, n);
            lemma_div_pos_is_pos_sketch(j + l, n);
        }
        if q == 0 {
            assert(l == t - j);
            lemma_small_mod(l as nat, n as nat);
        } else {
            assert(l == t - j + n);
            lemma_mod_add_multiples_vanish(t - j, n);
            lemma_small_mod(l as nat, n as nat);
        }
    }
}

/// For `-n <= x < 2n`, `x / n` is `-1`, `0` or `1` according to the range.
proof fn lemma_div_pos_is_pos_sketch(x: int, n: int)
    requires
        n > 0,
        -n <= x < 2 * n,
    ensures
        x < 0 ==> x / n == -1,
        0 <= x < n ==> x / n == 0,
        n <= x ==> x / n == 1,
{
    if x < 0 {
        lemma_fundamental_div_mod_converse(x, n, -1, x + n);
    } else if x < n {
        lemma_fundamental_div_mod_converse(x, n, 0, x);
    } else {
        lemma_fundamental_div_mod_converse(x, n, 1, x - n);
    }
}

/// `s % 1 == 0`.
proof fn lemma_mod_basics_small(s: nat)
    ensures
        s % 1 == 0,
{
}

/// A sum of ones over `n` terms is `n`.
proof fn lemma_sum_const_one(f: spec_fn(int) -> int, n: nat)
    requires
        forall|i: int| 0 <= i < n ==> #[trigger] f(i) == 1,
    ensures
        sum_to(f, n) == n,
    decreases n,
{
    if n > 0 {
        lemma_sum_const_one(f, (n - 1) as nat);
    }
}

/// Sums of pointwise equal terms are equal.
pub proof fn lemma_sum_ext(f: spec_fn(int) -> int, g: spec_fn(int) -> int, n: nat)
    requires
        forall|i: int| 0 <= i < n ==> #[trigger] f(i) == g(i),
    ensures
        sum_to(f, n) == sum_to(g, n),
    decreases n,
{
    if n > 0 {
        lemma_sum_ext(f, g, (n - 1) as nat);
    }
}

/// Sums of pointwise congruent terms are congruent.
pub proof fn lemma_sum_congruent(f: spec_fn(int) -> int, g: spec_fn(int) -> int, n: nat, m: int)
    requires
        m > 0,
        forall|i: int| 0 <= i < n ==> #[trigger] f(i) % m == g(i) % m,
    ensures
        sum_to(f, n) % m == sum_to(g, n) % m,
    decreases n,
{
    if n > 0 {
        let k = (n - 1) as nat;
        lemma_sum_congruent(f, g, k, m);
        lemma_add_mod_noop(sum_to(f, k), f(k as int), m);
        lemma_add_mod_noop(sum_to(g, k), g(k as int), m);
    }
}

/// The sum of a pointwise sum.
pub proof fn lemma_sum_add(f: spec_fn(int) -> int, g: spec_fn(int) -> int, n: nat)
    ensures
        sum_to(|i: int| f(i) + g(i), n) == sum_to(f, n) + sum_to(g, n),
    decreases n,
{
    if n > 0 {
        lemma_sum_add(f, g, (n - 1) as nat);
    }
}

/// A constant factor comes out of a sum.
pub proof fn lemma_sum_scale(f: spec_fn(int) -> int, c: int, n: nat)
    ensures
        sum_to(|i: int| c * f(i), n) == c * sum_to(f, n),
    decreases n,
{
    if n > 0 {
        lemma_sum_scale(f, c, (n - 1) as nat);
        lemma_mul_is_distributive_add(c, sum_to(f, (n - 1) as nat), f(n - 1));
    }
}

/// A sum over `a + b` terms is the sum over the first `a` plus the shifted rest.
pub proof fn lemma_sum_split(f: spec_fn(int) -> int, a: nat, b: nat)
    ensures
        sum_to(f, a + b) == sum_to(f, a) + sum_to(|i: int| f(i + a), b),
    decreases b,
{
    if b > 0 {
        lemma_sum_split(f, a, (b - 1) as nat);
    }
}

/// A sum over `2 * h` terms splits into its even and its odd terms.
pub proof fn lemma_sum_even_odd(f: spec_fn(int) -> int, h: nat)
    ensures
        sum_to(f, 2 * h) == sum_to(|i: int| f(2 * i), h) + sum_to(|i: int| f(2 * i + 1), h),
    decreases h,
{
    if h > 0 {
        lemma_sum_even_odd(f, (h - 1) as nat);
        assert(sum_to(f, 2 * h) == sum_to(f, (2 * h - 2) as nat) + f(2 * h - 2) + f(2 * h - 1)) by {
            assert(sum_to(f, (2 * h - 1) as nat) == sum_to(f, (2 * h - 2) as nat) + f(2 * h - 2));
        }
    }
}

/// A sum whose terms vanish except at `p` is its term at `p`.
pub proof fn lemma_sum_single(f: spec_fn(int) -> int, n: nat, p: int)
    requires
        0 <= p < n,
        forall|i: int| 0 <= i < n && i != p ==> #[trigger] f(i) == 0,
    ensures
        sum_to(f, n) == f(p),
    decreases n,
{
    if n - 1 == p {
        lemma_sum_zero(f, (n - 1) as nat);
    } else {
        lemma_sum_single(f, (n - 1) as nat, p);
    }
}

/// A sum of zero terms is zero.
pub proof fn lemma_sum_zero(f: spec_fn(int) -> int, n: nat)
    requires
        forall|i: int| 0 <= i < n ==> #[trigger] f(i) == 0,
    ensures
        sum_to(f, n) == 0,
    decreases n,
{
    if n > 0 {
        lemma_sum_zero(f, (n - 1) as nat);
    }
}

/// The order of a double sum does not matter.
pub proof fn lemma_sum_swap(f: spec_fn(int, int) -> int, n1: nat, n2: nat)
    ensures
        sum_to(|i: int| sum_to(|j: int| f(i, j), n2), n1) == sum_to(|j: int| sum_to(|i: int| f(i, j), n1), n2),
    decreases n1,
{
    if n1 > 0 {
        let k = (n1 - 1) as nat;
        lemma_sum_swap(f, k, n2);
        let inner_k = |j: int| sum_to(|i: int| f(i, j), k);
        let last = |j: int| f(k as int, j);
        let whole = |j: int| sum_to(|i: int| f(i, j), n1);
        lemma_sum_add(inner_k, last, n2);
        lemma_sum_ext(whole, |j: int| inner_k(j) + last(j), n2);
        assert(sum_to(|i: int| sum_to(|j: int| f(i, j), n2), n1) == sum_to(
            |i: int| sum_to(|j: int| f(i, j), n2),
            k,
        ) + sum_to(last, n2));
        assert(sum_to(|j: int| sum_to(|i: int| f(i, j), n1), n2) == sum_to(whole, n2));
    } else {
        lemma_sum_zero(|j: int| sum_to(|i: int| f(i, j), n1), n2);
    }
}

} // verus!
