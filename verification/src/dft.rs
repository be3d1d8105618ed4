//! What the radix-2 transform computes: put in bit-reversed order and run
//! through the butterfly network, a sequence comes out as the values of the
//! polynomial with those coefficients at the powers of the root; and the
//! inverse transform gives the coefficients back.
use vstd::prelude::*;
use crate::sums::{lemma_cong_add, lemma_cong_mod, lemma_cong_mul, lemma_cong_sub, lemma_sum_cong, lemma_sum_ext, lemma_sum_halves, lemma_sum_ones, lemma_sum_parity, lemma_sum_scale, lemma_sum_single, lemma_sum_swap, sum_to};
use vstd::arithmetic::power::{
    pow, lemma_pow0, lemma_pow1, lemma1_pow, lemma_pow_adds, lemma_pow_multiplies, lemma_square_is_pow2,
    lemma_pow_mod_noop,
};
use vstd::arithmetic::div_mod::{lemma_fundamental_div_mod_converse, lemma_mul_mod_noop_right, lemma_mod_twice, lemma_small_mod, lemma_mod_bound, lemma_sub_mod_noop, lemma_mod_multiples_vanish, lemma_div_multiples_vanish};
use crate::ntt::{
    rev_step, rev_counter, rev2_target, swap_fold, is_pow2, log2, lemma_pow2n_pos, lemma_pow2n_adds,
    lemma_log2_pow2n,
};
use crate::util::pow2n;
use crate::ntt::{butterfly2, stage2, stages2, transform2_spec, inverse2_spec, lemma_stages2_below, power_table, scaled};
use crate::modpow::{modpow_value, modulus_bound};
use crate::field_ntt::reduce;
use crate::fermat::{is_prime, lemma_root_inverses, lemma_half_power_is_minus_one};

verus! {

// ---------------------------------------------------------------------------
// Bit reversal
// ---------------------------------------------------------------------------

/// The lowest `k` bits of `i`, read in reverse order.
pub open spec fn rev_bits(i: nat, k: nat) -> nat
    decreases k,
{
    if k == 0 {
        0
    } else {
        (i % 2) * pow2n((k - 1) as nat) + rev_bits(i / 2, (k - 1) as nat)
    }
}

proof fn lemma_rev_bits_bound(i: nat, k: nat)
    ensures
        rev_bits(i, k) < pow2n(k),
    decreases k,
{
    if k > 0 {
        lemma_rev_bits_bound(i / 2, (k - 1) as nat);
        assert((i % 2) * pow2n((k - 1) as nat) <= pow2n((k - 1) as nat)) by (nonlinear_arith)
            requires i % 2 <= 1;
    }
}

/// Reversing `b 2^(k-1) + r` puts the top bit `b` at the bottom.
proof fn lemma_rev_bits_top(b: nat, r: nat, k: nat)
    requires
        k >= 1,
        b <= 1,
        r < pow2n((k - 1) as nat),
    ensures
        rev_bits(b * pow2n((k - 1) as nat) + r, k) == 2 * rev_bits(r, (k - 1) as nat) + b,
    decreases k,
{
    let x = b * pow2n((k - 1) as nat) + r;
    if k == 1 {
        assert(pow2n(0) == 1);
        assert(b * 1 == b);
        assert(x == b);
        assert(b % 2 == b && b / 2 == 0);
        assert(rev_bits(x, 1) == (x % 2) * pow2n(0) + rev_bits(x / 2, 0));
        assert((b % 2) * 1 == b % 2);
        assert(rev_bits(r, 0) == 0);
    } else {
        let h = pow2n((k - 2) as nat);
        assert(pow2n((k - 1) as nat) == 2 * h);
        assert(x == (b * h + r / 2) * 2 + r % 2) by (nonlinear_arith)
            requires x == b * (2 * h) + r, r == 2 * (r / 2) + r % 2;
        lemma_fundamental_div_mod_converse(x as int, 2, (b * h + r / 2) as int, (r % 2) as int);
        assert(r / 2 < h);
        lemma_rev_bits_top(b, r / 2, (k - 1) as nat);
        assert(((k - 1) - 1) as nat == (k - 2) as nat);
        assert(x % 2 == r % 2 && x / 2 == b * h + r / 2);
        assert(rev_bits(x, k) == (r % 2) * (2 * h) + rev_bits(b * h + r / 2, (k - 1) as nat));
        assert(rev_bits(r, (k - 1) as nat) == (r % 2) * h + rev_bits(r / 2, (k - 2) as nat));
        assert((r % 2) * (2 * h) == 2 * ((r % 2) * h)) by (nonlinear_arith);
    }
}

/// Reversing the bits twice gives the number back.
proof fn lemma_rev_bits_involution(i: nat, k: nat)
    requires
        i < pow2n(k),
    ensures
        rev_bits(rev_bits(i, k), k) == i,
    decreases k,
{
    if k > 0 {
        let h = pow2n((k - 1) as nat);
        assert(pow2n(k) == 2 * h);
        assert(i / 2 < h);
        lemma_rev_bits_involution(i / 2, (k - 1) as nat);
        lemma_rev_bits_bound(i / 2, (k - 1) as nat);
        lemma_rev_bits_top(i % 2, rev_bits(i / 2, (k - 1) as nat), k);
    } else {
        assert(pow2n(0) == 1);
    }
}

/// `m` is a single set bit below which `r` lies.
proof fn lemma_bits_below(m: usize, r: usize)
    requires
        m != 0,
        m & ((m - 1) as usize) == 0,
        r < m,
    ensures
        r & m == 0,
        r | m == r + m,
        (r | m) & m != 0,
        (r | m) & !m == r,
        m >> 1 == m / 2,
{
    assert(m != 0 && m & ((m - 1) as usize) == 0 && r < m ==> {
        &&& r & m == 0
        &&& r | m == r + m
        &&& (r | m) & m != 0
        &&& (r | m) & !m == r
    }) by (bit_vector);
    assert(m >> 1 == m / 2) by (bit_vector);
}

/// A power of two that fits in a machine word has a single set bit.
proof fn lemma_pow2n_single_bit(t: nat)
    requires
        pow2n(t) <= usize::MAX,
    ensures
        (pow2n(t) as usize) & ((pow2n(t) - 1) as usize) == 0,
    decreases t,
{
    if t == 0 {
        assert(1usize & 0usize == 0) by (bit_vector);
    } else {
        let x = pow2n((t - 1) as nat) as usize;
        let y = pow2n(t) as usize;
        lemma_pow2n_pos((t - 1) as nat);
        lemma_pow2n_single_bit((t - 1) as nat);
        assert(y == x + x);
        assert(y / 2 == x);
        assert(x & ((x - 1) as usize) == 0 && x >= 1 && y / 2 == x && y % 2 == 0 ==> y & ((y - 1) as usize) == 0)
            by (bit_vector);
    }
}

/// One step of the reversed counter turns the reversal of `i` into that of `i + 1`.
proof fn lemma_rev_step_increments(i: nat, k: nat)
    requires
        k >= 1,
        i + 1 < pow2n(k),
        pow2n(k) <= usize::MAX,
    ensures
        rev_step(rev_bits(i, k) as usize, pow2n((k - 1) as nat) as usize) == rev_bits(i + 1, k),
    decreases k,
{
    let m = pow2n((k - 1) as nat);
    assert(pow2n(k) == 2 * m);
    lemma_pow2n_pos((k - 1) as nat);
    lemma_pow2n_single_bit((k - 1) as nat);
    let r = rev_bits(i / 2, (k - 1) as nat);
    lemma_rev_bits_bound(i / 2, (k - 1) as nat);
    lemma_bits_below(m as usize, r as usize);
    if i % 2 == 0 {
        assert(rev_bits(i, k) == r);
        assert((i + 1) % 2 == 1 && (i + 1) / 2 == i / 2);
        assert(rev_bits(i + 1, k) == m + r);
    } else {
        assert(rev_bits(i, k) == m + r);
        assert(k >= 2) by {
            if k == 1 {
                assert(pow2n(0) == 1);
            }
        }
        assert((i + 1) % 2 == 0 && (i + 1) / 2 == i / 2 + 1);
        assert(rev_bits(i + 1, k) == rev_bits(i / 2 + 1, (k - 1) as nat));
        assert(pow2n((k - 1) as nat) == 2 * pow2n((k - 2) as nat));
        assert(((k - 1) - 1) as nat == (k - 2) as nat);
        lemma_rev_step_increments(i / 2, (k - 1) as nat);
    }
}

/// The reversed binary counter of the radix-2 reordering counts through
/// the bit reversals of `0, 1, 2, ...`.
proof fn lemma_rev_counter_is_rev_bits(k: nat, i: nat)
    requires
        pow2n(k) <= usize::MAX,
        i < pow2n(k),
    ensures
        rev_counter(pow2n(k) as usize, i) == rev_bits(i, k),
    decreases i,
{
    let n = pow2n(k) as usize;
    if i == 0 {
        assert(rev_bits(0, k) == 0) by {
            lemma_rev_bits_zero(k);
        }
    } else {
        lemma_rev_counter_is_rev_bits(k, (i - 1) as nat);
        assert(k >= 1) by {
            if k == 0 {
                assert(pow2n(0) == 1);
            }
        }
        assert(n >> 1 == n / 2) by (bit_vector);
        assert(pow2n(k) == 2 * pow2n((k - 1) as nat));
        lemma_rev_step_increments((i - 1) as nat, k);
    }
}

proof fn lemma_rev_bits_zero(k: nat)
    ensures
        rev_bits(0, k) == 0,
    decreases k,
{
    if k > 0 {
        lemma_rev_bits_zero((k - 1) as nat);
        assert(0 * pow2n((k - 1) as nat) == 0);
    }
}

/// Swapping each position with its image under an involution, in turn,
/// leaves at each position the entry of its image.
pub(crate) proof fn lemma_swap_fold_involution(s: Seq<u128>, f: spec_fn(int) -> int, n: nat, i: nat)
    requires
        i <= n,
        n <= s.len(),
        forall|x: int| 0 <= x < n ==> 0 <= #[trigger] f(x) < n && f(f(x)) == x,
    ensures
        swap_fold(s, f, i).len() == s.len(),
        forall|x: int|
            0 <= x < n ==> #[trigger] swap_fold(s, f, i)[x] == if x < i || f(x) < i {
                s[f(x)]
            } else {
                s[x]
            },
    decreases i,
{
    if i > 0 {
        let j = (i - 1) as nat;
        lemma_swap_fold_involution(s, f, n, j);
        let t = swap_fold(s, f, j);
        let y = f(j as int);
        assert(f(y) == j);
        assert forall|x: int| 0 <= x < n implies #[trigger] swap_fold(s, f, i)[x] == if x < i || f(x) < i {
            s[f(x)]
        } else {
            s[x]
        } by {
            if x != j && x != y {
                if f(x) == j {
                    assert(x == f(f(x)));
                }
            }
        }
    }
}

/// The radix-2 reordering of a sequence whose length is `2^k` puts at
/// each position the entry at its bit reversal.
pub proof fn lemma_bit_reverse2_entries(a: Seq<u128>, k: nat)
    requires
        a.len() == pow2n(k),
        pow2n(k) <= usize::MAX,
    ensures
        swap_fold(a, rev2_target(a.len() as usize), a.len()).len() == a.len(),
        forall|x: int|
            0 <= x < a.len() ==> #[trigger] swap_fold(a, rev2_target(a.len() as usize), a.len())[x]
                == a[rev_bits(x as nat, k) as int],
{
    let n = a.len();
    let f = rev2_target(n as usize);
    assert forall|x: int| 0 <= x < n implies 0 <= #[trigger] f(x) < n && f(f(x)) == x by {
        lemma_rev_counter_is_rev_bits(k, x as nat);
        lemma_rev_bits_bound(x as nat, k);
        lemma_rev_counter_is_rev_bits(k, rev_bits(x as nat, k));
        lemma_rev_bits_involution(x as nat, k);
    }
    lemma_swap_fold_involution(a, f, n, n);
    assert forall|x: int| 0 <= x < n implies #[trigger] swap_fold(a, f, n)[x] == a[rev_bits(x as nat, k) as int] by {
        lemma_rev_counter_is_rev_bits(k, x as nat);
    }
}

/// Law: the radix-2 reordering is an involution: on a sequence whose length
/// is a power of two, reordering twice gives the sequence back.
pub proof fn lemma_bit_reverse2_twice(a: Seq<u128>)
    requires
        is_pow2(a.len()),
        a.len() <= usize::MAX,
    ensures
        swap_fold(swap_fold(a, rev2_target(a.len() as usize), a.len()), rev2_target(a.len() as usize), a.len()) == a,
{
    let n = a.len();
    let k = choose|k: nat| pow2n(k) == n;
    let c = swap_fold(a, rev2_target(n as usize), n);
    lemma_bit_reverse2_entries(a, k);
    lemma_bit_reverse2_entries(c, k);
    let d = swap_fold(c, rev2_target(n as usize), n);
    assert forall|x: int| 0 <= x < n implies #[trigger] d[x] == a[x] by {
        lemma_rev_bits_bound(x as nat, k);
        lemma_rev_bits_involution(x as nat, k);
    }
    assert(d =~= a);
}

// ---------------------------------------------------------------------------
// Blocks of the butterfly network
// ---------------------------------------------------------------------------

/// The value that a block of `2^s` entries starting at `base` holds at offset
/// `k` after `s` stages: the sum over `t < 2^s` of the entry at
/// `base + rev(t)` times `z^(t k)`.
pub open spec fn block_sum(c: Seq<u128>, base: int, s: nat, z: int, k: nat) -> int {
    sum_to(|t: int| c[base + rev_bits(t as nat, s)] * pow(z, (t * k) as nat), pow2n(s))
}

/// A block of `2^(s+1)` entries splits into its two halves, the second
/// weighted by `z^k`, each taken with root `z^2`.
proof fn lemma_block_split(c: Seq<u128>, base: int, s: nat, z: int, k: nat)
    ensures
        block_sum(c, base, s + 1, z, k) == block_sum(c, base, s, z * z, k) + pow(z, k) * block_sum(
            c,
            base + pow2n(s),
            s,
            z * z,
            k,
        ),
{
    let m = pow2n(s);
    let f = |t: int| c[base + rev_bits(t as nat, s + 1)] * pow(z, (t * k) as nat);
    let e = |t: int| c[base + rev_bits(t as nat, s)] * pow(z * z, (t * k) as nat);
    let g = |t: int| c[base + m + rev_bits(t as nat, s)] * pow(z * z, (t * k) as nat);
    let o = |t: int| pow(z, k) * g(t);
    lemma_square_is_pow2(z);
    assert forall|t: int| 0 <= t < m implies #[trigger] e(t) == f(2 * t) by {
        assert((2 * t) % 2 == 0 && (2 * t) / 2 == t);
        assert(rev_bits((2 * t) as nat, s + 1) == rev_bits(t as nat, s)) by {
            assert(0 * pow2n(s) == 0);
        }
        lemma_pow_multiplies(z, 2, (t * k) as nat);
        assert(2 * (t * k) == (2 * t) * k) by (nonlinear_arith);
    }
    assert forall|t: int| 0 <= t < m implies #[trigger] o(t) == f(2 * t + 1) by {
        assert((2 * t + 1) % 2 == 1 && (2 * t + 1) / 2 == t);
        assert(rev_bits((2 * t + 1) as nat, s + 1) == m + rev_bits(t as nat, s)) by {
            assert(1 * pow2n(s) == pow2n(s));
        }
        lemma_pow_multiplies(z, 2, (t * k) as nat);
        assert((2 * t + 1) * k == 2 * (t * k) + k) by (nonlinear_arith);
        lemma_pow_adds(z, (2 * (t * k)) as nat, k);
        let x = c[base + m + rev_bits(t as nat, s)] as int;
        let a = pow(z, (2 * (t * k)) as nat);
        let b = pow(z, k);
        assert(b * (x * a) == x * (a * b)) by (nonlinear_arith);
    }
    assert(pow2n(s + 1) == 2 * m);
    lemma_sum_parity(f, e, o, m);
    lemma_sum_scale(g, o, pow(z, k), m);
    assert(block_sum(c, base, s + 1, z, k) == sum_to(f, 2 * m));
    assert(block_sum(c, base + m, s, z * z, k) == sum_to(g, m)) by {
        let h = |t: int| c[(base + m) + rev_bits(t as nat, s)] * pow(z * z, (t * k) as nat);
        lemma_sum_ext(g, h, m);
    }
}

/// When `y^(2^s)` is 1 modulo `p`, shifting the offset by `2^s` leaves a
/// block's value modulo `p` unchanged.
proof fn lemma_block_period(c: Seq<u128>, base: int, s: nat, y: int, k: nat, p: int)
    requires
        p > 1,
        pow(y, pow2n(s)) % p == 1,
    ensures
        block_sum(c, base, s, y, k + pow2n(s)) % p == block_sum(c, base, s, y, k) % p,
{
    let m = pow2n(s);
    let f = |t: int| c[base + rev_bits(t as nat, s)] * pow(y, (t * (k + m)) as nat);
    let g = |t: int| c[base + rev_bits(t as nat, s)] * pow(y, (t * k) as nat);
    assert forall|t: int| 0 <= t < m implies #[trigger] f(t) % p == g(t) % p by {
        assert(t * (k + m) == t * k + m * t) by (nonlinear_arith);
        assert(t * k >= 0 && m * t >= 0) by (nonlinear_arith)
            requires t >= 0;
        lemma_pow_adds(y, (t * k) as nat, (m * t) as nat);
        lemma_pow_multiplies(y, m, t as nat);
        lemma_pow_mod_noop(pow(y, m), t as nat, p);
        lemma1_pow(t as nat);
        lemma_small_mod(1, p as nat);
        let a = pow(y, (t * k) as nat);
        let b = pow(y, (m * t) as nat);
        assert(b % p == 1);
        lemma_mul_mod_noop_right(a, b, p);
        lemma_mod_bound(a, p);
        lemma_small_mod((a % p) as nat, p as nat);
        let x = c[base + rev_bits(t as nat, s)] as int;
        lemma_mul_mod_noop_right(x, a * b, p);
        lemma_mul_mod_noop_right(x, a, p);
    }
    lemma_sum_cong(f, g, m, p);
}

/// The first output of a radix-2 butterfly is `a + T b` modulo `p`.
proof fn lemma_butterfly_add(a0: int, b0: int, t0: int, x: int, y: int, z: int, p: int)
    requires
        p > 0,
        a0 % p == x % p,
        b0 % p == y % p,
        t0 % p == z % p,
    ensures
        ((a0 % p) + (t0 * b0) % p) % p == (x + z * y) % p,
{
    lemma_cong_mod(a0, p);
    lemma_cong_mul(t0, z, b0, y, p);
    lemma_cong_mod(t0 * b0, p);
    lemma_cong_add(a0 % p, x, (t0 * b0) % p, z * y, p);
}

/// The second output of a radix-2 butterfly is `a - T b` modulo `p`,
/// which is `a + T' b` when `T'` is congruent to `T (p - 1)`.
proof fn lemma_butterfly_sub(a0: int, b0: int, t0: int, x: int, y: int, z: int, zz: int, p: int)
    requires
        p > 0,
        a0 % p == x % p,
        b0 % p == y % p,
        t0 % p == z % p,
        zz % p == (z * (p - 1)) % p,
    ensures
        ((a0 % p) + p - (t0 * b0) % p) % p == (x + zz * y) % p,
{
    let u = a0 % p;
    let t = (t0 * b0) % p;
    assert(u + p - t == p * 1 + (u - t));
    lemma_mod_multiples_vanish(1, u - t, p);
    lemma_cong_mod(a0, p);
    lemma_cong_mul(t0, z, b0, y, p);
    lemma_cong_mod(t0 * b0, p);
    lemma_cong_sub(u, x, t, z * y, p);
    lemma_cong_mul(zz, z * (p - 1), y, y, p);
    lemma_cong_add(x, x, zz * y, (z * (p - 1)) * y, p);
    assert((z * (p - 1)) * y == p * (z * y) + (0 - z * y)) by (nonlinear_arith);
    lemma_mod_multiples_vanish(z * y, x - z * y, p);
    assert(x + (z * (p - 1)) * y == p * (z * y) + (x - z * y));
}

// ---------------------------------------------------------------------------
// The radix-2 network computes the transform
// ---------------------------------------------------------------------------

/// The table holds the first `n` powers of `w`, up to congruence modulo `p`.
pub open spec fn powers_of(table: Seq<u128>, w: int, n: nat, p: int) -> bool {
    &&& table.len() >= n
    &&& forall|i: int| 0 <= i < n ==> #[trigger] (table[i] as int) % p == pow(w, i as nat) % p
}

/// One stage of the network, from blocks of `m` entries with root `z * z`
/// to blocks of `2 m` entries with root `z`.
proof fn lemma_stage2_step(
    c: Seq<u128>,
    a: Seq<u128>,
    p: int,
    table: Seq<u128>,
    w: int,
    n: nat,
    m: nat,
    q: nat,
    z: int,
    x: int,
)
    requires
        a.len() == n,
        m >= 1,
        n == 2 * m * q,
        1 < p <= 0x1_0000_0000_0000_0000_0000_0000_0000_0000,
        powers_of(table, w, n, p),
        z == pow(w, q),
        pow(z * z, m) % p == 1,
        pow(z, m) % p == p - 1,
        0 <= x < n,
        forall|v: int|
            0 <= v < n ==> #[trigger] (a[v] as int) % p == block_sum(c, (v / m as int) * m, log2(m), z * z, (v % m as int) as nat)
                % p,
        pow2n(log2(m)) == m,
    ensures
        (stage2(a, p, table, n as int, 2 * m as int)[x] as int) % p == block_sum(
            c,
            (x / (2 * m) as int) * (2 * m),
            log2(m) + 1,
            z,
            (x % (2 * m) as int) as nat,
        ) % p,
{
    let M = 2 * m;
    let s0 = log2(m);
    let y = z * z;
    let Q = x / (M as int);
    let r = x % (M as int);
    let base = Q * M;
    vstd::arithmetic::div_mod::lemma_fundamental_div_mod(x, M as int);
    assert(0 <= r < M);
    assert(Q >= 0) by {
        vstd::arithmetic::div_mod::lemma_div_pos_is_pos(x, M as int);
    }
    assert(n == M * q);
    lemma_div_multiples_vanish(q as int, M as int);
    assert((n as int) / (M as int) == q);
    assert(q >= 1) by (nonlinear_arith)
        requires n == 2 * m * q, 0 <= x < n;
    assert(Q < q) by (nonlinear_arith)
        requires x == M * Q + r, 0 <= r, x < n, n == M * q, M > 0;
    assert(base + M <= n) by (nonlinear_arith)
        requires base == Q * M, Q + 1 <= q, n == M * q, M > 0;
    lemma_block_split(c, base, s0, z, r as nat);
    assert(pow2n(s0) == m);
    let bf = butterfly2(a, p, table, n as int, M as int, x);
    assert(stage2(a, p, table, n as int, M as int)[x] == bf);
    assert(M / 2 == m);
    if r < m {
        let x1 = x + m;
        assert(x == (2 * Q) * m + r && x1 == (2 * Q + 1) * m + r) by (nonlinear_arith)
            requires x == M * Q + r, M == 2 * m, x1 == x + m;
        lemma_fundamental_div_mod_converse(x, m as int, 2 * Q, r);
        lemma_fundamental_div_mod_converse(x1, m as int, 2 * Q + 1, r);
        assert((2 * Q) * m == base && (2 * Q + 1) * m == base + m) by (nonlinear_arith)
            requires base == Q * M, M == 2 * m;
        assert(r * q < n && r * q >= 0) by (nonlinear_arith)
            requires 0 <= r < m, n == 2 * m * q, q >= 1;
        let ti = table[r * q];
        assert((ti as int) % p == pow(w, (r * q) as nat) % p);
        lemma_pow_multiplies(w, q, r as nat);
        assert(q * r == r * q) by (nonlinear_arith);
        assert(pow(z, r as nat) == pow(w, (r * q) as nat));
        assert(x1 < n);
        assert(bf == (((a[x] as int) % p + (ti * a[x1]) % p) % p) as u128);
        lemma_butterfly_add(
            a[x] as int,
            a[x1] as int,
            ti as int,
            block_sum(c, base, s0, y, r as nat),
            block_sum(c, base + m, s0, y, r as nat),
            pow(z, r as nat),
            p,
        );
        lemma_mod_bound((a[x] as int) % p + (ti * a[x1]) % p, p);
        lemma_cong_mod(block_sum(c, base, s0 + 1, z, r as nat), p);
        lemma_small_mod(bf as nat, p as nat);
    } else {
        let r1 = r - m;
        let x0 = x - m;
        assert(x0 == (2 * Q) * m + r1 && x == (2 * Q + 1) * m + r1) by (nonlinear_arith)
            requires x == M * Q + r, M == 2 * m, x0 == x - m, r1 == r - m;
        lemma_fundamental_div_mod_converse(x0, m as int, 2 * Q, r1);
        lemma_fundamental_div_mod_converse(x, m as int, 2 * Q + 1, r1);
        assert((2 * Q) * m == base && (2 * Q + 1) * m == base + m) by (nonlinear_arith)
            requires base == Q * M, M == 2 * m;
        assert(r1 * q < n && r1 * q >= 0) by (nonlinear_arith)
            requires 0 <= r1 < m, n == 2 * m * q, q >= 1;
        let ti = table[r1 * q];
        lemma_pow_multiplies(w, q, r1 as nat);
        assert(q * r1 == r1 * q) by (nonlinear_arith);
        assert(pow(z, r1 as nat) == pow(w, (r1 * q) as nat));
        assert(bf == (((a[x0] as int) % p + p - (ti * a[x]) % p) % p) as u128);
        lemma_block_period(c, base, s0, y, r1 as nat, p);
        lemma_block_period(c, base + m, s0, y, r1 as nat, p);
        lemma_pow_adds(z, r1 as nat, m);
        lemma_small_mod((p - 1) as nat, p as nat);
        lemma_cong_mul(pow(z, r1 as nat), pow(z, r1 as nat), pow(z, m), p - 1, p);
        lemma_butterfly_sub(
            a[x0] as int,
            a[x] as int,
            ti as int,
            block_sum(c, base, s0, y, r as nat),
            block_sum(c, base + m, s0, y, r as nat),
            pow(z, r1 as nat),
            pow(z, r as nat),
            p,
        );
        lemma_mod_bound((a[x0] as int) % p + p - (ti * a[x]) % p, p);
        lemma_small_mod(bf as nat, p as nat);
    }
}

/// The roots of the stages: `w^(2^(L-s))` squared is the root one stage
/// down, its `2^(s-1)`-th power is `w^(2^(L-1))`, and `w^(2^L)` is 1 modulo
/// `p` when `w^(2^(L-1))` is `p - 1`.
proof fn lemma_stage_roots(w: int, L: nat, s: nat, p: int)
    requires
        1 <= s <= L,
        p > 1,
        pow(w, pow2n((L - 1) as nat)) % p == p - 1,
    ensures
        pow(w, pow2n((L - s) as nat)) * pow(w, pow2n((L - s) as nat)) == pow(w, pow2n((L - (s - 1)) as nat)),
        pow(pow(w, pow2n((L - s) as nat)), pow2n((s - 1) as nat)) == pow(w, pow2n((L - 1) as nat)),
        pow(pow(w, pow2n((L - (s - 1)) as nat)), pow2n((s - 1) as nat)) % p == 1,
        pow2n(L) == 2 * pow2n((s - 1) as nat) * pow2n((L - s) as nat),
{
    let e = pow2n((L - s) as nat);
    let z = pow(w, e);
    lemma_square_is_pow2(z);
    lemma_pow_multiplies(w, e, 2);
    assert(pow2n((L - (s - 1)) as nat) == 2 * e);
    assert(e * 2 == 2 * e);
    lemma_pow_multiplies(w, e, pow2n((s - 1) as nat));
    lemma_pow2n_adds((L - s) as nat, (s - 1) as nat);
    assert(((L - s) + (s - 1)) as nat == (L - 1) as nat);
    let h = pow2n((L - 1) as nat);
    lemma_pow_multiplies(w, 2 * e, pow2n((s - 1) as nat));
    assert((2 * e) * pow2n((s - 1) as nat) == 2 * h) by (nonlinear_arith)
        requires h == e * pow2n((s - 1) as nat);
    lemma_pow_multiplies(w, h, 2);
    assert(h * 2 == 2 * h);
    let g = pow(w, h);
    lemma_square_is_pow2(g);
    lemma_small_mod((p - 1) as nat, p as nat);
    lemma_cong_mul(g, p - 1, g, p - 1, p);
    assert((p - 1) * (p - 1) == p * (p - 2) + 1) by (nonlinear_arith);
    lemma_mod_multiples_vanish(p - 2, 1, p);
    lemma_small_mod(1, p as nat);
    lemma_pow2n_adds((s - 1) as nat, (L - s) as nat);
    assert(((s - 1) + (L - s)) as nat == (L - 1) as nat);
    assert(pow2n(L) == 2 * pow2n((L - 1) as nat));
    assert(2 * (pow2n((s - 1) as nat) * e) == 2 * pow2n((s - 1) as nat) * e) by (nonlinear_arith);
}

/// After `s` stages, every block of `2^s` entries holds the values of its
/// bit-reversed entries' polynomial at the powers of `w^(2^(L-s))`.
proof fn lemma_stages2_blocks(c: Seq<u128>, p: int, table: Seq<u128>, w: int, L: nat, s: nat)
    requires
        c.len() == pow2n(L),
        L >= 1,
        s <= L,
        1 < p <= 0x1_0000_0000_0000_0000_0000_0000_0000_0000,
        powers_of(table, w, pow2n(L), p),
        pow(w, pow2n((L - 1) as nat)) % p == p - 1,
    ensures
        stages2(c, p, table, pow2n(L) as int, s).len() == c.len(),
        forall|x: int|
            0 <= x < c.len() ==> #[trigger] (stages2(c, p, table, pow2n(L) as int, s)[x] as int) % p == block_sum(
                c,
                (x / pow2n(s) as int) * pow2n(s),
                s,
                pow(w, pow2n((L - s) as nat)),
                (x % pow2n(s) as int) as nat,
            ) % p,
    decreases s,
{
    let n = pow2n(L);
    if s == 0 {
        let z = pow(w, pow2n(L));
        assert(pow2n(0) == 1);
        assert forall|x: int| 0 <= x < c.len() implies #[trigger] (stages2(c, p, table, n as int, s)[x] as int) % p
            == block_sum(c, (x / pow2n(s) as int) * pow2n(s), s, z, (x % pow2n(s) as int) as nat) % p by {
            assert(x / 1 == x && x % 1 == 0);
            let f = |t: int| c[x + rev_bits(t as nat, 0)] * pow(z, (t * 0) as nat);
            assert(sum_to(f, 1) == sum_to(f, 0) + f(0));
            lemma_pow0(z);
            assert(f(0) == c[x] * 1);
            assert(block_sum(c, x, 0, z, 0) == sum_to(f, 1));
        }
    } else {
        let s0 = (s - 1) as nat;
        lemma_stages2_blocks(c, p, table, w, L, s0);
        let a = stages2(c, p, table, n as int, s0);
        let m = pow2n(s0);
        let q = pow2n((L - s) as nat);
        let z = pow(w, q);
        lemma_stage_roots(w, L, s, p);
        lemma_log2_pow2n(s0);
        lemma_pow2n_pos(s0);
        assert(pow2n(s) == 2 * m);
        assert(stages2(c, p, table, n as int, s) == stage2(a, p, table, n as int, pow2n(s) as int));
        assert forall|x: int| 0 <= x < c.len() implies #[trigger] (stages2(c, p, table, n as int, s)[x] as int) % p
            == block_sum(c, (x / pow2n(s) as int) * pow2n(s), s, z, (x % pow2n(s) as int) as nat) % p by {
            lemma_stage2_step(c, a, p, table, w, n, m, q, z, x);
        }
    }
}

// ---------------------------------------------------------------------------
// The transform as polynomial evaluation
// ---------------------------------------------------------------------------

/// The value at `w^k` of the polynomial whose coefficients are `a`: the
/// sum over `j` of `a[j] w^(j k)`.
pub open spec fn eval_at_power(a: Seq<u128>, w: int, k: nat) -> int {
    sum_to(|j: int| a[j] * pow(w, (j * k) as nat), a.len())
}

/// The discrete Fourier transform of `a` with root `w` modulo `p`: the
/// values of its polynomial at `w^0, w^1, ..., w^(n-1)`, reduced modulo `p`.
pub open spec fn dft(a: Seq<u128>, w: int, p: int) -> Seq<u128> {
    Seq::new(a.len(), |k: int| (eval_at_power(a, w, k as nat) % p) as u128)
}

/// Law: for a length `n >= 2` that is a power of two, a table holding the
/// powers of `w` modulo `p`, and `w^(n/2)` congruent to `-1` (as for a root
/// of unity of order `n` modulo a prime), the radix-2 transform is the
/// discrete Fourier transform: entry `k` is the value of the polynomial
/// with coefficients `a` at `w^k`, modulo `p`.
pub proof fn lemma_transform2_is_dft(a: Seq<u128>, p: int, table: Seq<u128>, w: int)
    requires
        is_pow2(a.len()),
        2 <= a.len() <= usize::MAX,
        1 < p <= 0x1_0000_0000_0000_0000_0000_0000_0000_0000,
        powers_of(table, w, a.len(), p),
        pow(w, a.len() / 2) % p == p - 1,
    ensures
        transform2_spec(a, p, table) == dft(a, w, p),
{
    let n = a.len();
    let L = choose|k: nat| pow2n(k) == n;
    lemma_log2_pow2n(L);
    assert(L >= 1) by {
        if L == 0 {
            assert(pow2n(0) == 1);
        }
    }
    assert(n / 2 == pow2n((L - 1) as nat));
    let c = swap_fold(a, rev2_target(n as usize), n);
    lemma_bit_reverse2_entries(a, L);
    lemma_stages2_blocks(c, p, table, w, L, L);
    lemma_stages2_below(c, p, table, n as int, L);
    let t = transform2_spec(a, p, table);
    assert(t == stages2(c, p, table, n as int, L));
    assert(pow2n(0) == 1);
    lemma_pow1(w);
    assert forall|k: int| 0 <= k < n implies #[trigger] t[k] == dft(a, w, p)[k] by {
        assert(k / (n as int) == 0 && k % (n as int) == k) by {
            lemma_small_mod(k as nat, n);
            vstd::arithmetic::div_mod::lemma_basic_div(k, n as int);
        }
        let f = |u: int| c[0int + rev_bits(u as nat, L)] * pow(w, (u * k) as nat);
        let g = |j: int| a[j] * pow(w, (j * k) as nat);
        assert forall|u: int| 0 <= u < n implies #[trigger] f(u) == g(u) by {
            lemma_rev_bits_bound(u as nat, L);
            lemma_rev_bits_involution(u as nat, L);
        }
        lemma_sum_ext(f, g, n);
        assert(block_sum(c, 0, L, w, k as nat) == sum_to(f, pow2n(L)));
        assert(0 * (n as int) == 0);
        assert((t[k] as int) % p == eval_at_power(a, w, k as nat) % p);
        lemma_small_mod(t[k] as nat, p as nat);
    }
    assert(t =~= dft(a, w, p));
}

// ---------------------------------------------------------------------------
// Sums of powers of a root of unity
// ---------------------------------------------------------------------------

/// `(p - 1)^d` is `p - 1` modulo `p` for odd `d` and 1 for even `d`.
proof fn lemma_minus_one_pow(d: nat, p: int)
    requires
        p > 1,
    ensures
        pow(p - 1, d) % p == if d % 2 == 1 { p - 1 } else { 1 },
    decreases d,
{
    lemma_small_mod((p - 1) as nat, p as nat);
    lemma_small_mod(1, p as nat);
    if d == 0 {
        lemma_pow0(p - 1);
    } else {
        lemma_minus_one_pow((d - 1) as nat, p);
        lemma_pow_adds(p - 1, (d - 1) as nat, 1);
        lemma_pow1(p - 1);
        assert((d - 1) as nat + 1 == d);
        let prev = pow(p - 1, (d - 1) as nat);
        let r = if (d - 1) % 2 == 1 { p - 1 } else { 1 };
        lemma_cong_mul(prev, r, p - 1, p - 1, p);
        if (d - 1) % 2 == 1 {
            assert((p - 1) * (p - 1) == p * (p - 2) + 1) by (nonlinear_arith);
            lemma_mod_multiples_vanish(p - 2, 1, p);
        } else {
            assert(1 * (p - 1) == p - 1);
        }
    }
}

/// When `z^(2^(L-1))` is `-1` modulo `p` and `0 < d < 2^L`, the powers
/// `z^(d k)` for `k < 2^L` sum to zero modulo `p`.
proof fn lemma_roots_sum_zero(z: int, L: nat, d: nat, p: int)
    requires
        L >= 1,
        p > 1,
        pow(z, pow2n((L - 1) as nat)) % p == p - 1,
        0 < d < pow2n(L),
    ensures
        sum_to(|k: int| pow(z, (d * k) as nat), pow2n(L)) % p == 0,
    decreases L,
{
    let h = pow2n((L - 1) as nat);
    let n = pow2n(L);
    assert(n == 2 * h);
    let f = |k: int| pow(z, (d * k) as nat);
    let g = |k: int| f(k + h);
    lemma_sum_halves(f, g, h);
    let zh = pow(z, h);
    if d % 2 == 1 {
        let y = pow(z, (d * h) as nat);
        lemma_pow_multiplies(z, h, d);
        assert(h * d == d * h) by (nonlinear_arith);
        lemma_pow_mod_noop(zh, d, p);
        lemma_minus_one_pow(d, p);
        assert(y % p == p - 1);
        assert forall|k: int| 0 <= k < h implies #[trigger] g(k) % p == ((p - 1) * f(k)) % p by {
            assert(d * (k + h) == d * k + d * h) by (nonlinear_arith);
            assert(d * k >= 0) by (nonlinear_arith)
                requires k >= 0;
            lemma_pow_adds(z, (d * k) as nat, (d * h) as nat);
            lemma_small_mod((p - 1) as nat, p as nat);
            lemma_cong_mul(f(k), f(k), y, p - 1, p);
            assert(f(k) * (p - 1) == (p - 1) * f(k)) by (nonlinear_arith);
        }
        let gm = |k: int| (p - 1) * f(k);
        lemma_sum_cong(g, gm, h, p);
        lemma_sum_scale(f, gm, p - 1, h);
        let sf = sum_to(f, h);
        lemma_cong_add(sf, sf, sum_to(g, h), (p - 1) * sf, p);
        assert(sf + (p - 1) * sf == p * sf + 0) by (nonlinear_arith);
        lemma_mod_multiples_vanish(sf, 0, p);
    } else {
        let d1 = d / 2;
        assert(d == 2 * d1);
        assert(L >= 2) by {
            if L == 1 {
                assert(pow2n(0) == 1);
            }
        }
        let z2 = z * z;
        let h2 = pow2n((L - 2) as nat);
        assert(h == 2 * h2);
        lemma_square_is_pow2(z);
        lemma_pow_multiplies(z, 2, h2);
        assert(pow(z2, h2) == pow(z, h));
        assert(((L - 1) - 1) as nat == (L - 2) as nat);
        lemma_roots_sum_zero(z2, (L - 1) as nat, d1, p);
        let f2 = |k: int| pow(z2, (d1 * k) as nat);
        assert forall|k: int| 0 <= k < n implies #[trigger] f(k) == f2(k) by {
            assert(d * k == 2 * (d1 * k)) by (nonlinear_arith)
                requires d == 2 * d1;
            assert(d1 * k >= 0) by (nonlinear_arith)
                requires k >= 0;
            lemma_pow_multiplies(z, 2, (d1 * k) as nat);
        }
        lemma_sum_ext(f, f2, n);
        lemma_sum_ext(f, f2, h);
        // z2^(h) = z^n = 1 modulo p, so the second half repeats the first.
        lemma_pow_multiplies(z2, h2, 2);
        lemma_square_is_pow2(pow(z2, h2));
        lemma_small_mod((p - 1) as nat, p as nat);
        lemma_cong_mul(zh, p - 1, zh, p - 1, p);
        assert((p - 1) * (p - 1) == p * (p - 2) + 1) by (nonlinear_arith);
        lemma_mod_multiples_vanish(p - 2, 1, p);
        lemma_small_mod(1, p as nat);
        assert(h2 * 2 == h);
        let one = pow(z2, h);
        assert(one % p == 1);
        assert forall|k: int| 0 <= k < h implies #[trigger] g(k) % p == f(k) % p by {
            assert(d1 * (k + h) == d1 * k + h * d1) by (nonlinear_arith);
            assert(d1 * k >= 0 && h * d1 >= 0) by (nonlinear_arith)
                requires k >= 0;
            assert(f(k + h) == f2(k + h));
            assert(f(k) == f2(k));
            lemma_pow_adds(z2, (d1 * k) as nat, (h * d1) as nat);
            lemma_pow_multiplies(z2, h, d1);
            lemma_pow_mod_noop(one, d1, p);
            lemma1_pow(d1);
            lemma_cong_mul(f2(k), f2(k), pow(z2, (h * d1) as nat), 1, p);
            assert(f2(k) * 1 == f2(k));
        }
        lemma_sum_cong(g, f, h, p);
        lemma_cong_add(sum_to(f, h), sum_to(f, h), sum_to(g, h), sum_to(f, h), p);
        assert(sum_to(f, h) % p == sum_to(f2, h) % p);
        lemma_cong_add(sum_to(f, h), sum_to(f2, h), sum_to(f, h), sum_to(f2, h), p);
        assert(sum_to(f2, pow2n((L - 1) as nat)) % p == 0);
        lemma_cong_add(sum_to(f2, h), 0, sum_to(f2, h), 0, p);
        lemma_small_mod(0, p as nat);
    }
}

/// `w^(i k) v^(j k)` with `w v` congruent to 1: the `(i - j)`-th powers of `w`
/// (or the `(j - i)`-th powers of `v`), up to congruence.
pub(crate) proof fn lemma_cross_term(w: int, v: int, i: nat, j: nat, k: nat, p: int)
    requires
        p > 1,
        (w * v) % p == 1,
    ensures
        i >= j ==> (pow(w, (i * k) as nat) * pow(v, (j * k) as nat)) % p == pow(w, ((i - j) * k) as nat) % p,
        i < j ==> (pow(w, (i * k) as nat) * pow(v, (j * k) as nat)) % p == pow(v, ((j - i) * k) as nat) % p,
{
    let lo = if i >= j { j } else { i };
    assert(lo * k >= 0) by (nonlinear_arith);
    vstd::arithmetic::power::lemma_pow_distributes(w, v, (lo * k) as nat);
    lemma_pow_mod_noop(w * v, (lo * k) as nat, p);
    lemma1_pow((lo * k) as nat);
    lemma_small_mod(1, p as nat);
    let one = pow(w, (lo * k) as nat) * pow(v, (lo * k) as nat);
    assert(one % p == 1);
    if i >= j {
        let d = (i - j) as nat;
        assert(i * k == d * k + j * k) by (nonlinear_arith)
            requires d == i - j;
        assert(d * k >= 0) by (nonlinear_arith);
        lemma_pow_adds(w, (d * k) as nat, (j * k) as nat);
        let a = pow(w, (d * k) as nat);
        let b = pow(w, (j * k) as nat);
        let c = pow(v, (j * k) as nat);
        assert((a * b) * c == a * (b * c)) by (nonlinear_arith);
        lemma_cong_mul(a, a, b * c, 1, p);
        assert(a * 1 == a);
    } else {
        let d = (j - i) as nat;
        assert(j * k == d * k + i * k) by (nonlinear_arith)
            requires d == j - i;
        assert(d * k >= 0) by (nonlinear_arith);
        lemma_pow_adds(v, (d * k) as nat, (i * k) as nat);
        let a = pow(v, (d * k) as nat);
        let b = pow(w, (i * k) as nat);
        let c = pow(v, (i * k) as nat);
        assert(b * (a * c) == a * (b * c)) by (nonlinear_arith);
        lemma_cong_mul(a, a, b * c, 1, p);
        assert(a * 1 == a);
    }
}

/// The powers of `v` also reach `-1` halfway when `w v` is congruent to 1.
proof fn lemma_inverse_root_half(w: int, v: int, h: nat, p: int)
    requires
        p > 1,
        (w * v) % p == 1,
        pow(w, h) % p == p - 1,
    ensures
        pow(v, h) % p == p - 1,
{
    vstd::arithmetic::power::lemma_pow_distributes(w, v, h);
    lemma_pow_mod_noop(w * v, h, p);
    lemma1_pow(h);
    lemma_small_mod(1, p as nat);
    lemma_small_mod((p - 1) as nat, p as nat);
    let x = pow(v, h);
    let y = pow(w, h);
    // x y = 1 and y = -1, so x = -1.
    lemma_cong_mul(x, x, y, p - 1, p);
    assert(x * (p - 1) == p * x + (0 - x)) by (nonlinear_arith);
    lemma_mod_multiples_vanish(x, 0 - x, p);
    assert(x * y == y * x) by (nonlinear_arith);
    // so (-x) % p == 1, hence x % p == p - 1
    assert((0 - x) % p == 1);
    lemma_sub_mod_noop(0, x, p);
    lemma_mod_bound(x, p);
    lemma_small_mod(0, p as nat);
    if x % p == 0 {
        assert((0 - 0int) % p == 0);
    }
    assert((0 - x % p) % p == 1);
    assert(0 - x % p == p * (-1) + (p - x % p));
    lemma_mod_multiples_vanish(-1, p - x % p, p);
    lemma_small_mod((p - x % p) as nat, p as nat);
}

/// Orthogonality: `sum_k w^(i k) v^(j k)` over `k < 2^L` is `2^L` modulo `p`
/// when `i == j` and 0 otherwise.
proof fn lemma_orthogonal(w: int, v: int, L: nat, i: nat, j: nat, p: int)
    requires
        L >= 1,
        p > 1,
        (w * v) % p == 1,
        pow(w, pow2n((L - 1) as nat)) % p == p - 1,
        pow(v, pow2n((L - 1) as nat)) % p == p - 1,
        i < pow2n(L),
        j < pow2n(L),
    ensures
        sum_to(|k: int| pow(w, (i * k) as nat) * pow(v, (j * k) as nat), pow2n(L)) % p == if i == j {
            (pow2n(L) as int) % p
        } else {
            0
        },
{
    let n = pow2n(L);
    let f = |k: int| pow(w, (i * k) as nat) * pow(v, (j * k) as nat);
    if i == j {
        assert forall|k: int| 0 <= k < n implies #[trigger] f(k) % p == 1int % p by {
            lemma_cross_term(w, v, i, j, k as nat, p);
            lemma_pow0(w);
            assert((i - j) * k == 0);
        }
        lemma_sum_ones(f, n, p);
    } else if i > j {
        let d = (i - j) as nat;
        let g = |k: int| pow(w, (d * k) as nat);
        assert forall|k: int| 0 <= k < n implies #[trigger] f(k) % p == g(k) % p by {
            lemma_cross_term(w, v, i, j, k as nat, p);
        }
        lemma_sum_cong(f, g, n, p);
        lemma_roots_sum_zero(w, L, d, p);
    } else {
        let d = (j - i) as nat;
        let g = |k: int| pow(v, (d * k) as nat);
        assert forall|k: int| 0 <= k < n implies #[trigger] f(k) % p == g(k) % p by {
            lemma_cross_term(w, v, i, j, k as nat, p);
        }
        lemma_sum_cong(f, g, n, p);
        lemma_roots_sum_zero(v, L, d, p);
    }
}

/// `sum_k w^(i k) v^(j k)` over `k < n` is `n` modulo `p` when `i == j`
/// and 0 otherwise.
pub open spec fn orthogonal_at(w: int, v: int, i: nat, j: nat, n: nat, p: int) -> bool {
    sum_to(|k: int| pow(w, (i * k) as nat) * pow(v, (j * k) as nat), n) % p == if i == j {
        (n as int) % p
    } else {
        0
    }
}

/// Transforming with `w`, then with `v`, then scaling by `c` gives `a`
/// back modulo `p`, when the powers of `w` and `v` are orthogonal and
/// `n c` is congruent to 1.
pub(crate) proof fn lemma_round_trip_orthogonal(a: Seq<u128>, w: int, v: int, c: int, p: int)
    requires
        1 < p <= 0x1_0000_0000_0000_0000_0000_0000_0000_0000,
        (a.len() * c) % p == 1,
        forall|i: nat, j: nat| i < a.len() && j < a.len() ==> #[trigger] orthogonal_at(w, v, i, j, a.len(), p),
    ensures
        forall|j: int| 0 <= j < a.len() ==> #[trigger] (dft(dft(a, w, p), v, p)[j] * c) % p == (a[j] as int) % p,
{
    let n = a.len();
    let t = dft(a, w, p);
    assert forall|j: int| 0 <= j < a.len() implies #[trigger] (dft(t, v, p)[j] * c) % p == (a[j] as int) % p by {
        let outer = |k: int| t[k] * pow(v, (k * j) as nat);
        let F = |i: int, k: int| a[i] * pow(w, (i * k) as nat) * pow(v, (k * j) as nat);
        let inner = |k: int| sum_to(|i: int| F(i, k), n);
        assert forall|k: int| 0 <= k < n implies #[trigger] outer(k) % p == inner(k) % p by {
            let pv = pow(v, (k * j) as nat);
            let ev = eval_at_power(a, w, k as nat);
            lemma_mod_bound(ev, p);
            lemma_small_mod((ev % p) as nat, p as nat);
            assert((t[k] as int) % p == ev % p);
            lemma_cong_mul(t[k] as int, ev, pv, pv, p);
            let g = |i: int| a[i] * pow(w, (i * k) as nat);
            let h = |i: int| F(i, k);
            assert forall|i: int| 0 <= i < n implies #[trigger] h(i) == pv * g(i) by {
                assert(a[i] * pow(w, (i * k) as nat) * pv == pv * (a[i] * pow(w, (i * k) as nat))) by (nonlinear_arith);
            }
            lemma_sum_scale(g, h, pv, n);
            assert(ev == sum_to(g, n));
            assert(ev * pv == pv * ev) by (nonlinear_arith);
        }
        lemma_sum_cong(outer, inner, n, p);
        lemma_sum_swap(F, n, n);
        let by_i = |i: int| sum_to(|k: int| F(i, k), n);
        let e = |i: int| a[i] * (if i == j { n as int } else { 0 });
        assert forall|i: int| 0 <= i < n implies #[trigger] by_i(i) % p == e(i) % p by {
            let g = |k: int| pow(w, (i * k) as nat) * pow(v, (j * k) as nat);
            let h = |k: int| F(i, k);
            assert forall|k: int| 0 <= k < n implies #[trigger] h(k) == a[i] * g(k) by {
                assert(k * j == j * k) by (nonlinear_arith);
                let x = pow(w, (i * k) as nat);
                let y = pow(v, (j * k) as nat);
                assert(a[i] * x * y == a[i] * (x * y)) by (nonlinear_arith);
            }
            lemma_sum_scale(g, h, a[i] as int, n);
            assert(orthogonal_at(w, v, i as nat, j as nat, n, p));
            let delta = if i == j { n as int } else { 0 };
            lemma_small_mod(0, p as nat);
            lemma_mod_twice(n as int, p);
            assert(sum_to(g, n) % p == delta % p);
            lemma_cong_mul(a[i] as int, a[i] as int, sum_to(g, n), delta, p);
        }
        lemma_sum_cong(by_i, e, n, p);
        assert forall|i: int| 0 <= i < n && i != j implies #[trigger] e(i) % p == 0 by {
            assert(a[i] * 0 == 0);
        }
        lemma_sum_single(e, j, n, p);
        let d = dft(t, v, p)[j] as int;
        let sum_outer = sum_to(outer, n);
        assert(d == (sum_outer % p) as u128);
        lemma_mod_bound(sum_outer, p);
        lemma_small_mod(d as nat, p as nat);
        assert(d % p == (a[j] * (n as int)) % p);
        lemma_cong_mul(d, a[j] * (n as int), c, c, p);
        assert((a[j] * (n as int)) * c == a[j] * ((n as int) * c)) by (nonlinear_arith);
        lemma_small_mod(1, p as nat);
        lemma_cong_mul(a[j] as int, a[j] as int, (n as int) * c, 1, p);
        assert(a[j] * 1 == a[j]);
    }
}

/// Transforming with `w`, then with `v`, then scaling by `c` gives `a`
/// back modulo `p`, when `w v` and `2^L c` are congruent to 1 and
/// `w^(2^(L-1))` is congruent to `-1`.
pub proof fn lemma_dft_round_trip(a: Seq<u128>, w: int, v: int, c: int, p: int, L: nat)
    requires
        a.len() == pow2n(L),
        L >= 1,
        1 < p <= 0x1_0000_0000_0000_0000_0000_0000_0000_0000,
        (w * v) % p == 1,
        pow(w, pow2n((L - 1) as nat)) % p == p - 1,
        (pow2n(L) * c) % p == 1,
    ensures
        pow(v, pow2n((L - 1) as nat)) % p == p - 1,
        forall|j: int| 0 <= j < a.len() ==> #[trigger] (dft(dft(a, w, p), v, p)[j] * c) % p == (a[j] as int) % p,
{
    lemma_inverse_root_half(w, v, pow2n((L - 1) as nat), p);
    assert forall|i: nat, j: nat| i < a.len() && j < a.len() implies #[trigger] orthogonal_at(w, v, i, j, a.len(), p) by {
        lemma_orthogonal(w, v, L, i, j, p);
    }
    lemma_round_trip_orthogonal(a, w, v, c, p);
}

/// A table of powers, reduced or not, holds the powers of its root modulo `p`.
pub proof fn lemma_power_table_powers(w: int, n: nat, p: int)
    requires
        1 < p <= 0x1_0000_0000_0000_0000_0000_0000_0000_0000,
    ensures
        powers_of(power_table(w, n, p), w, n, p),
        powers_of(reduce(power_table(w, n, p), p), w, n, p),
{
    let t = power_table(w, n, p);
    assert forall|i: int| 0 <= i < n implies #[trigger] (t[i] as int) % p == pow(w, i as nat) % p
        && (reduce(t, p)[i] as int) % p == pow(w, i as nat) % p by {
        if i == 0 {
            lemma_pow0(w);
            lemma_small_mod(1, p as nat);
            assert(t[i] == 1);
        } else {
            lemma_mod_bound(pow(w, i as nat), p);
            lemma_mod_twice(pow(w, i as nat), p);
            assert(t[i] as int == pow(w, i as nat) % p);
        }
        lemma_mod_bound(t[i] as int, p);
        lemma_mod_twice(t[i] as int, p);
        assert(reduce(t, p)[i] as int == (t[i] as int) % p);
    }
}

/// Raising `w % p` to `p - 2` modulo `p` is raising `w` to it.
pub proof fn lemma_modpow_reduced_base(w: int, p: int)
    requires
        p > 1,
    ensures
        modpow_value(w % p, (p - 2) as nat, p) == modpow_value(w, (p - 2) as nat, p),
        modpow_value(w, 1, p) == w % p,
{
    if p > 2 {
        vstd::arithmetic::power::lemma_pow_mod_noop(w, (p - 2) as nat, p);
    }
    lemma_pow1(w);
}

/// Law: the inverse radix-2 transform undoes the forward one. For a length
/// `n >= 2` that is a power of two, an odd prime `p`, and a root `w` whose
/// power `w^(n/2)` is congruent to `-1` modulo `p` (a root of unity of
/// order `n`), the inverse transform of the transform of `a` with the
/// powers of `w` is `a` reduced modulo `p`.
pub proof fn lemma_inverse2_of_transform2(a: Seq<u128>, p: int, w: int)
    requires
        is_pow2(a.len()),
        2 <= a.len() <= usize::MAX,
        1 < p <= modulus_bound(),
        is_prime(p),
        p > 2,
        pow(w, a.len() / 2) % p == p - 1,
    ensures
        inverse2_spec(transform2_spec(a, p, power_table(w, a.len(), p)), p, power_table(w, a.len(), p))
            == reduce(a, p),
{
    let n = a.len();
    lemma_root_inverses(w, n, p);
    let L = choose|k: nat| pow2n(k) == n;
    assert(L >= 1) by {
        if L == 0 {
            assert(pow2n(0) == 1);
        }
    }
    assert(n / 2 == pow2n((L - 1) as nat));
    let table = power_table(w, n, p);
    lemma_power_table_powers(w, n, p);
    lemma_transform2_is_dft(a, p, table, w);
    let t = dft(a, w, p);
    lemma_modpow_reduced_base(w, p);
    let v = modpow_value(w, (p - 2) as nat, p);
    assert(table[1] as int == w % p);
    assert(modpow_value(table[1] as int, (p - 2) as nat, p) == v);
    let c = modpow_value(n as int, (p - 2) as nat, p);
    lemma_dft_round_trip(a, w, v, c, p, L);
    let table2 = power_table(v, n, p);
    lemma_power_table_powers(v, n, p);
    lemma_transform2_is_dft(t, p, table2, v);
    let r = inverse2_spec(t, p, table);
    assert(r == scaled(dft(t, v, p), c, p));
    assert forall|j: int| 0 <= j < n implies #[trigger] r[j] == reduce(a, p)[j] by {
        lemma_mod_bound(a[j] as int, p);
    }
    assert(r =~= reduce(a, p));
}

/// Law: the forward radix-2 transform undoes the inverse one, under the
/// same conditions as `lemma_inverse2_of_transform2` (an odd prime `p`, a
/// root `w` of order `n`): the transform of the inverse transform of `x`
/// with the powers of `w` is `x` reduced modulo `p`.
pub proof fn lemma_transform2_of_inverse2(x: Seq<u128>, p: int, w: int)
    requires
        is_pow2(x.len()),
        2 <= x.len() <= usize::MAX,
        1 < p <= modulus_bound(),
        is_prime(p),
        p > 2,
        pow(w, x.len() / 2) % p == p - 1,
    ensures
        inverse2_spec(x, p, power_table(w, x.len(), p)).len() == x.len(),
        transform2_spec(inverse2_spec(x, p, power_table(w, x.len(), p)), p, power_table(w, x.len(), p))
            == reduce(x, p),
{
    let n = x.len();
    lemma_root_inverses(w, n, p);
    let L = choose|k: nat| pow2n(k) == n;
    assert(L >= 1) by {
        if L == 0 {
            assert(pow2n(0) == 1);
        }
    }
    assert(n / 2 == pow2n((L - 1) as nat));
    let table = power_table(w, n, p);
    lemma_power_table_powers(w, n, p);
    lemma_modpow_reduced_base(w, p);
    let v = modpow_value(w, (p - 2) as nat, p);
    assert(table[1] as int == w % p);
    let c = modpow_value(n as int, (p - 2) as nat, p);
    lemma_inverse_root_half(w, v, pow2n((L - 1) as nat), p);
    assert(v * w == w * v) by (nonlinear_arith);
    lemma_dft_round_trip(x, v, w, c, p, L);
    let table2 = power_table(v, n, p);
    lemma_power_table_powers(v, n, p);
    lemma_transform2_is_dft(x, p, table2, v);
    let d = dft(x, v, p);
    let y = inverse2_spec(x, p, table);
    assert(y == scaled(d, c, p));
    assert forall|j: int| 0 <= j < n implies #[trigger] y[j] < p by {
        lemma_mod_bound(d[j] * c, p);
    }
    lemma_transform2_is_dft(y, p, table, w);
    assert forall|k: int| 0 <= k < n implies #[trigger] dft(y, w, p)[k] == reduce(x, p)[k] by {
        let f = |j: int| y[j] * pow(w, (j * k) as nat);
        let g = |j: int| d[j] * pow(w, (j * k) as nat);
        let h = |j: int| c * g(j);
        assert forall|j: int| 0 <= j < n implies #[trigger] f(j) % p == h(j) % p by {
            lemma_mod_bound(d[j] * c, p);
            lemma_small_mod(((d[j] * c) % p) as nat, p as nat);
            assert((y[j] as int) % p == (d[j] * c) % p);
            lemma_cong_mul(y[j] as int, d[j] * c, pow(w, (j * k) as nat), pow(w, (j * k) as nat), p);
            assert((d[j] * c) * pow(w, (j * k) as nat) == c * (d[j] * pow(w, (j * k) as nat))) by (nonlinear_arith);
        }
        lemma_sum_cong(f, h, n, p);
        lemma_sum_scale(g, h, c, n);
        let e = eval_at_power(d, w, k as nat);
        assert(sum_to(g, n) == e);
        // (dft(d, w)[k] * c) % p == x[k] % p, and dft(d, w)[k] is e reduced.
        let dk = dft(d, w, p)[k] as int;
        lemma_mod_bound(e, p);
        lemma_small_mod((e % p) as nat, p as nat);
        assert(dk == e % p);
        lemma_mod_twice(e, p);
        lemma_cong_mul(e, dk, c, c, p);
        assert(c * e == e * c) by (nonlinear_arith);
        lemma_mod_bound(sum_to(f, n), p);
        lemma_mod_bound(x[k] as int, p);
    }
    assert(dft(y, w, p) =~= reduce(x, p));
}

/// The inverse transforms read only entry 1 of the table: a table of the
/// powers of `w` and the exact power table of `w` give the same inverse root.
pub(crate) proof fn lemma_table_inverse_root(table: Seq<u128>, w: int, n: nat, p: int)
    requires
        1 < p <= modulus_bound(),
        n >= 2,
        powers_of(table, w, n, p),
    ensures
        modpow_value(table[1] as int, (p - 2) as nat, p)
            == modpow_value(power_table(w, n, p)[1] as int, (p - 2) as nat, p),
{
    lemma_pow1(w);
    assert((table[1] as int) % p == w % p);
    lemma_modpow_reduced_base(table[1] as int, p);
    lemma_modpow_reduced_base(w, p);
    lemma_mod_bound(w, p);
    assert(modpow_value(w, 1, p) == w % p);
    assert(power_table(w, n, p)[1] == modpow_value(w, 1, p) as u128);
    assert(power_table(w, n, p)[1] as int == w % p);
}

/// Entries below `p` are unchanged by reduction modulo `p`.
pub proof fn lemma_reduce_below(a: Seq<u128>, p: int)
    requires
        p > 0,
        forall|i: int| 0 <= i < a.len() ==> #[trigger] a[i] < p,
    ensures
        reduce(a, p) == a,
{
    assert forall|i: int| 0 <= i < a.len() implies #[trigger] reduce(a, p)[i] == a[i] by {
        lemma_small_mod(a[i] as nat, p as nat);
    }
    assert(reduce(a, p) =~= a);
}

/// Law: the inverse radix-2 transform undoes the forward one, for any table
/// that holds the powers of a root `w` of multiplicative order `n` modulo a
/// prime `p` (the table may be longer than `n`): the result is `a` reduced
/// modulo `p`, and `a` itself when its entries lie below `p`.
pub proof fn lemma_inverse2_round_trip(a: Seq<u128>, p: int, table: Seq<u128>, w: int)
    requires
        is_pow2(a.len()),
        2 <= a.len() <= usize::MAX,
        1 < p <= modulus_bound(),
        is_prime(p),
        powers_of(table, w, a.len(), p),
        pow(w, a.len()) % p == 1,
        pow(w, a.len() / 2) % p != 1,
    ensures
        inverse2_spec(transform2_spec(a, p, table), p, table) == reduce(a, p),
        (forall|i: int| 0 <= i < a.len() ==> #[trigger] a[i] < p)
            ==> inverse2_spec(transform2_spec(a, p, table), p, table) == a,
{
    let n = a.len();
    let k = choose|k: nat| pow2n(k) == n;
    assert(k >= 1) by {
        if k == 0 {
            assert(pow2n(0) == 1);
        }
    }
    assert(n == 2 * pow2n((k - 1) as nat));
    assert(n / 2 == pow2n((k - 1) as nat));
    assert(2 * (n / 2) == n);
    lemma_half_power_is_minus_one(w, n / 2, p);
    let pt = power_table(w, n, p);
    lemma_power_table_powers(w, n, p);
    lemma_transform2_is_dft(a, p, table, w);
    lemma_transform2_is_dft(a, p, pt, w);
    let t = transform2_spec(a, p, table);
    lemma_table_inverse_root(table, w, n, p);
    assert(inverse2_spec(t, p, table) == inverse2_spec(t, p, pt));
    lemma_inverse2_of_transform2(a, p, w);
    if forall|i: int| 0 <= i < a.len() ==> #[trigger] a[i] < p {
        lemma_reduce_below(a, p);
    }
}

/// The polynomial with coefficients `c` at `x`: the sum of `c[i] x^i`.
pub open spec fn poly_eval(c: Seq<u128>, x: int) -> int {
    sum_to(|i: int| c[i] * pow(x, i as nat), c.len())
}

/// Entry `k` of the transform with root `w` is the polynomial at `w^k`.
pub proof fn lemma_eval_at_power_is_poly(a: Seq<u128>, w: int, k: nat)
    ensures
        eval_at_power(a, w, k) == poly_eval(a, pow(w, k)),
{
    let f = |j: int| a[j] * pow(w, (j * k) as nat);
    let g = |j: int| a[j] * pow(pow(w, k), j as nat);
    assert forall|j: int| 0 <= j < a.len() implies #[trigger] f(j) == g(j) by {
        lemma_pow_multiplies(w, k, j as nat);
        assert(k * j == j * k) by (nonlinear_arith);
    }
    lemma_sum_ext(f, g, a.len());
}

} // verus!
