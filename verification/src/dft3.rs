//! What the radix-3 transform computes: put in base-3 digit-reversed order
//! and run through the butterfly network, a sequence comes out as the values
//! of the polynomial with those coefficients at the powers of the root.
use vstd::prelude::*;
use crate::sums::{lemma_cong_add, lemma_cong_mod, lemma_cong_mul, lemma_sum_cong, lemma_sum_ext, lemma_sum_ones, lemma_sum_scale, sum_to};
use vstd::arithmetic::power::{pow, lemma_pow0, lemma_pow1, lemma1_pow, lemma_pow_adds, lemma_pow_multiplies, lemma_pow_mod_noop};
use vstd::arithmetic::div_mod::{
    lemma_fundamental_div_mod_converse, lemma_fundamental_div_mod, lemma_mod_bound, lemma_small_mod,
    lemma_mod_twice, lemma_div_multiples_vanish,
};
use crate::ntt::{butterfly3, stage3, stages3, transform3_spec, lemma_transform3_below, rev3, rev3_target, swap_fold, pow3n, is_pow3, log3, lemma_pow3n_pos, lemma_pow3n_adds, lemma_log3_pow3n, lemma_rev3_bound};
use crate::packed::{trigit_count, lemma_trigit_count};
use crate::dft::{lemma_table_inverse_root, lemma_reduce_below, lemma_swap_fold_involution, powers_of, dft, eval_at_power, orthogonal_at, lemma_cross_term, lemma_round_trip_orthogonal, lemma_power_table_powers, lemma_modpow_reduced_base};
use crate::ntt::{inverse3_spec, power_table, scaled};
use crate::field_ntt::reduce;
use crate::modpow::{modpow_value, modulus_bound};
use crate::fermat::{is_prime, lemma_euclid, lemma_fermat_inverse, lemma_prime_product_nonzero};

verus! {

// ---------------------------------------------------------------------------
// Base-3 digit reversal
// ---------------------------------------------------------------------------

/// Reversing `b 3^(k-1) + r` puts the top digit `b` at the bottom.
proof fn lemma_rev3_top(b: nat, r: nat, k: nat)
    requires
        k >= 1,
        b < 3,
        r < pow3n((k - 1) as nat),
    ensures
        rev3(b * pow3n((k - 1) as nat) + r, k) == 3 * rev3(r, (k - 1) as nat) + b,
    decreases k,
{
    let x = b * pow3n((k - 1) as nat) + r;
    if k == 1 {
        assert(pow3n(0) == 1);
        assert(b * 1 == b);
        assert(r == 0);
        assert(x == b);
        assert(b % 3 == b && b / 3 == 0);
        assert(rev3(x, 1) == (x % 3) * pow3n(0) + rev3(x / 3, 0));
        assert((b % 3) * 1 == b % 3);
    } else {
        let h = pow3n((k - 2) as nat);
        assert(pow3n((k - 1) as nat) == 3 * h);
        assert(x == (b * h + r / 3) * 3 + r % 3) by (nonlinear_arith)
            requires x == b * (3 * h) + r, r == 3 * (r / 3) + r % 3;
        lemma_fundamental_div_mod_converse(x as int, 3, (b * h + r / 3) as int, (r % 3) as int);
        assert(r / 3 < h);
        lemma_rev3_top(b, r / 3, (k - 1) as nat);
        assert(((k - 1) - 1) as nat == (k - 2) as nat);
        assert(x % 3 == r % 3 && x / 3 == b * h + r / 3);
        assert(rev3(x, k) == (r % 3) * (3 * h) + rev3(b * h + r / 3, (k - 1) as nat));
        assert(rev3(r, (k - 1) as nat) == (r % 3) * h + rev3(r / 3, (k - 2) as nat));
        assert((r % 3) * (3 * h) == 3 * ((r % 3) * h)) by (nonlinear_arith);
    }
}

/// Reversing the base-3 digits twice gives the number back.
proof fn lemma_rev3_involution(i: nat, k: nat)
    requires
        i < pow3n(k),
    ensures
        rev3(rev3(i, k), k) == i,
    decreases k,
{
    if k > 0 {
        let h = pow3n((k - 1) as nat);
        assert(pow3n(k) == 3 * h);
        assert(i / 3 < h);
        lemma_rev3_involution(i / 3, (k - 1) as nat);
        lemma_rev3_bound(i / 3, (k - 1) as nat);
        lemma_rev3_top(i % 3, rev3(i / 3, (k - 1) as nat), k);
    } else {
        assert(pow3n(0) == 1);
    }
}

/// The digit count of `3^k - 1` is `k`.
proof fn lemma_trigit_count_pow3(k: nat)
    requires
        k >= 1,
    ensures
        trigit_count((pow3n(k) - 1) as nat) == k,
{
    lemma_pow3n_pos(k);
    let n1 = (pow3n(k) - 1) as nat;
    lemma_trigit_count(n1, k);
    if k >= 2 {
        lemma_trigit_count(n1, (k - 1) as nat);
        lemma_pow3n_pos((k - 1) as nat);
        assert(pow3n(k) == 3 * pow3n((k - 1) as nat));
    } else {
        crate::packed::lemma_trigit_count_pos(n1);
    }
}

/// The radix-3 reordering of a sequence whose length is `3^k`, `k >= 1`,
/// puts at each position the entry at its digit reversal.
pub proof fn lemma_bit_reverse3_entries(a: Seq<u128>, k: nat)
    requires
        a.len() == pow3n(k),
        k >= 1,
    ensures
        swap_fold(a, rev3_target(a.len()), a.len()).len() == a.len(),
        forall|x: int|
            0 <= x < a.len() ==> #[trigger] swap_fold(a, rev3_target(a.len()), a.len())[x] == a[rev3(x as nat, k) as int],
{
    let n = a.len();
    let f = rev3_target(n);
    lemma_trigit_count_pow3(k);
    assert forall|x: int| 0 <= x < n implies 0 <= #[trigger] f(x) < n && f(f(x)) == x by {
        lemma_rev3_bound(x as nat, k);
        lemma_rev3_involution(x as nat, k);
    }
    lemma_swap_fold_involution(a, f, n, n);
}

/// Law: the radix-3 reordering is an involution: on a sequence whose length
/// is a power of three, at least 3, reordering twice gives the sequence back.
pub proof fn lemma_bit_reverse3_twice(a: Seq<u128>)
    requires
        is_pow3(a.len()),
        a.len() >= 3,
    ensures
        swap_fold(swap_fold(a, rev3_target(a.len()), a.len()), rev3_target(a.len()), a.len()) == a,
{
    let n = a.len();
    let k = choose|k: nat| pow3n(k) == n;
    assert(k >= 1) by {
        if k == 0 {
            assert(pow3n(0) == 1);
        }
    }
    let c = swap_fold(a, rev3_target(n), n);
    lemma_bit_reverse3_entries(a, k);
    lemma_bit_reverse3_entries(c, k);
    let d = swap_fold(c, rev3_target(n), n);
    assert forall|x: int| 0 <= x < n implies #[trigger] d[x] == a[x] by {
        lemma_rev3_bound(x as nat, k);
        lemma_rev3_involution(x as nat, k);
    }
    assert(d =~= a);
}

// ---------------------------------------------------------------------------
// Blocks of the radix-3 network
// ---------------------------------------------------------------------------

/// A sum over `3m` terms split by the residue of the index modulo 3.
proof fn lemma_sum_residues(
    f: spec_fn(int) -> int,
    e0: spec_fn(int) -> int,
    e1: spec_fn(int) -> int,
    e2: spec_fn(int) -> int,
    m: nat,
)
    requires
        forall|t: int| 0 <= t < m ==> #[trigger] e0(t) == f(3 * t),
        forall|t: int| 0 <= t < m ==> #[trigger] e1(t) == f(3 * t + 1),
        forall|t: int| 0 <= t < m ==> #[trigger] e2(t) == f(3 * t + 2),
    ensures
        sum_to(f, 3 * m) == sum_to(e0, m) + sum_to(e1, m) + sum_to(e2, m),
    decreases m,
{
    if m > 0 {
        lemma_sum_residues(f, e0, e1, e2, (m - 1) as nat);
        assert(sum_to(f, 3 * m) == sum_to(f, (3 * m - 1) as nat) + f(3 * m - 1));
        assert(sum_to(f, (3 * m - 1) as nat) == sum_to(f, (3 * m - 2) as nat) + f(3 * m - 2));
        assert(sum_to(f, (3 * m - 2) as nat) == sum_to(f, (3 * m - 3) as nat) + f(3 * m - 3));
        assert((3 * m - 3) as nat == 3 * ((m - 1) as nat));
        assert(e0(m - 1) == f(3 * (m - 1)));
        assert(e1(m - 1) == f(3 * (m - 1) + 1));
        assert(e2(m - 1) == f(3 * (m - 1) + 2));
    }
}

/// The value that a block of `3^s` entries starting at `base` holds at
/// offset `k` after `s` stages: the sum over `t < 3^s` of the entry at
/// `base + rev3(t)` times `z^(t k)`.
pub open spec fn block_sum3(c: Seq<u128>, base: int, s: nat, z: int, k: nat) -> int {
    sum_to(|t: int| c[base + rev3(t as nat, s)] * pow(z, (t * k) as nat), pow3n(s))
}

/// A block of `3^(s+1)` entries splits into its three thirds, weighted by
/// `z^0`, `z^k` and `z^(2k)`, each taken with root `z^3`.
proof fn lemma_block3_split(c: Seq<u128>, base: int, s: nat, z: int, k: nat)
    ensures
        block_sum3(c, base, s + 1, z, k) == block_sum3(c, base, s, pow(z, 3), k) + pow(z, k) * block_sum3(
            c,
            base + pow3n(s),
            s,
            pow(z, 3),
            k,
        ) + pow(z, 2 * k) * block_sum3(c, base + 2 * pow3n(s), s, pow(z, 3), k),
{
    let m = pow3n(s);
    let y = pow(z, 3);
    let f = |t: int| c[base + rev3(t as nat, s + 1)] * pow(z, (t * k) as nat);
    let g0 = |t: int| c[base + rev3(t as nat, s)] * pow(y, (t * k) as nat);
    let g1 = |t: int| c[(base + m) + rev3(t as nat, s)] * pow(y, (t * k) as nat);
    let g2 = |t: int| c[(base + 2 * m) + rev3(t as nat, s)] * pow(y, (t * k) as nat);
    let e1 = |t: int| pow(z, k) * g1(t);
    let e2 = |t: int| pow(z, 2 * k) * g2(t);
    assert forall|t: int| 0 <= t < m implies #[trigger] g0(t) == f(3 * t) by {
        assert((3 * t) % 3 == 0 && (3 * t) / 3 == t);
        assert(rev3((3 * t) as nat, s + 1) == rev3(t as nat, s)) by {
            assert(0 * pow3n(s) == 0);
        }
        lemma_pow_multiplies(z, 3, (t * k) as nat);
        assert(3 * (t * k) == (3 * t) * k) by (nonlinear_arith);
    }
    assert forall|t: int| 0 <= t < m implies #[trigger] e1(t) == f(3 * t + 1) by {
        assert((3 * t + 1) % 3 == 1 && (3 * t + 1) / 3 == t);
        assert(rev3((3 * t + 1) as nat, s + 1) == m + rev3(t as nat, s)) by {
            assert(1 * pow3n(s) == pow3n(s));
        }
        lemma_pow_multiplies(z, 3, (t * k) as nat);
        assert((3 * t + 1) * k == 3 * (t * k) + k) by (nonlinear_arith);
        lemma_pow_adds(z, (3 * (t * k)) as nat, k);
        let x = c[base + m + rev3(t as nat, s)] as int;
        let a = pow(z, (3 * (t * k)) as nat);
        let b = pow(z, k);
        assert(b * (x * a) == x * (a * b)) by (nonlinear_arith);
    }
    assert forall|t: int| 0 <= t < m implies #[trigger] e2(t) == f(3 * t + 2) by {
        assert((3 * t + 2) % 3 == 2 && (3 * t + 2) / 3 == t);
        assert(rev3((3 * t + 2) as nat, s + 1) == 2 * m + rev3(t as nat, s));
        lemma_pow_multiplies(z, 3, (t * k) as nat);
        assert((3 * t + 2) * k == 3 * (t * k) + 2 * k) by (nonlinear_arith);
        lemma_pow_adds(z, (3 * (t * k)) as nat, 2 * k);
        let x = c[base + 2 * m + rev3(t as nat, s)] as int;
        let a = pow(z, (3 * (t * k)) as nat);
        let b = pow(z, 2 * k);
        assert(b * (x * a) == x * (a * b)) by (nonlinear_arith);
    }
    assert(pow3n(s + 1) == 3 * m);
    lemma_sum_residues(f, g0, e1, e2, m);
    lemma_sum_scale(g1, e1, pow(z, k), m);
    lemma_sum_scale(g2, e2, pow(z, 2 * k), m);
}

/// When `y^(3^s)` is 1 modulo `p`, shifting the offset by `3^s` leaves a
/// block's value modulo `p` unchanged.
proof fn lemma_block3_period(c: Seq<u128>, base: int, s: nat, y: int, k: nat, p: int)
    requires
        p > 1,
        pow(y, pow3n(s)) % p == 1,
    ensures
        block_sum3(c, base, s, y, k + pow3n(s)) % p == block_sum3(c, base, s, y, k) % p,
{
    let m = pow3n(s);
    let f = |t: int| c[base + rev3(t as nat, s)] * pow(y, (t * (k + m)) as nat);
    let g = |t: int| c[base + rev3(t as nat, s)] * pow(y, (t * k) as nat);
    assert forall|t: int| 0 <= t < m implies #[trigger] f(t) % p == g(t) % p by {
        assert(t * (k + m) == t * k + m * t) by (nonlinear_arith);
        assert(t * k >= 0 && m * t >= 0) by (nonlinear_arith)
            requires t >= 0;
        lemma_pow_adds(y, (t * k) as nat, (m * t) as nat);
        lemma_pow_multiplies(y, m, t as nat);
        lemma_pow_mod_noop(pow(y, m), t as nat, p);
        lemma1_pow(t as nat);
        lemma_small_mod(1, p as nat);
        let a = pow(y, (t * k) as nat);
        let b = pow(y, (m * t) as nat);
        assert(b % p == 1);
        let x = c[base + rev3(t as nat, s)] as int;
        lemma_cong_mul(x * a, x * a, b, 1, p);
        assert((x * a) * b == x * (a * b)) by (nonlinear_arith);
        assert((x * a) * 1 == x * a);
    }
    lemma_sum_cong(f, g, m, p);
}

// ---------------------------------------------------------------------------
// One radix-3 stage
// ---------------------------------------------------------------------------

/// The output of a radix-3 butterfly combines the three inputs with the
/// given weights, modulo `p`.
proof fn lemma_combine3(
    x0: int,
    y0: int,
    z0: int,
    cy: int,
    cz: int,
    b0: int,
    b1: int,
    b2: int,
    ty: int,
    tz: int,
    p: int,
)
    requires
        p > 0,
        x0 % p == b0 % p,
        y0 % p == b1 % p,
        z0 % p == b2 % p,
        cy % p == ty % p,
        cz % p == tz % p,
    ensures
        ((x0 % p) + (cy * y0) % p + (cz * z0) % p) % p == (b0 + ty * b1 + tz * b2) % p,
{
    lemma_cong_mod(x0, p);
    lemma_cong_mul(cy, ty, y0, b1, p);
    lemma_cong_mod(cy * y0, p);
    lemma_cong_mul(cz, tz, z0, b2, p);
    lemma_cong_mod(cz * z0, p);
    lemma_cong_add(x0 % p, b0, (cy * y0) % p, ty * b1, p);
    lemma_cong_add((x0 % p) + (cy * y0) % p, b0 + ty * b1, (cz * z0) % p, tz * b2, p);
}

/// The entry-times-twiddle products of a butterfly: `(e * t) % p` is
/// congruent to `b * z` when `e` is congruent to `b` and `t` to `z`.
proof fn lemma_twiddled(e: int, t: int, b: int, z: int, p: int)
    requires
        p > 0,
        e % p == b % p,
        t % p == z % p,
    ensures
        ((e * t) % p) % p == (b * z) % p,
{
    lemma_cong_mul(e, b, t, z, p);
    lemma_cong_mod(e * t, p);
}

/// One stage of the radix-3 network, from blocks of `m` entries with root
/// `z^3` to blocks of `3 m` entries with root `z`.
proof fn lemma_stage3_step(
    c: Seq<u128>,
    a: Seq<u128>,
    p: int,
    table: Seq<u128>,
    w: int,
    n: nat,
    m: nat,
    q: nat,
    z: int,
    x: int,
)
    requires
        a.len() == n,
        m >= 1,
        n == 3 * m * q,
        1 < p <= 0x1_0000_0000_0000_0000_0000_0000_0000_0000,
        powers_of(table, w, n, p),
        z == pow(w, q),
        pow(pow(z, 3), m) % p == 1,
        0 <= x < n,
        forall|v: int|
            0 <= v < n ==> #[trigger] (a[v] as int) % p == block_sum3(c, (v / m as int) * m, log3(m), pow(z, 3), (v % m as int) as nat)
                % p,
        pow3n(log3(m)) == m,
    ensures
        (stage3(a, p, table, n as int, m as int)[x] as int) % p == block_sum3(
            c,
            (x / (3 * m) as int) * (3 * m),
            log3(m) + 1,
            z,
            (x % (3 * m) as int) as nat,
        ) % p,
{
    let M = 3 * m;
    let s0 = log3(m);
    let y = pow(z, 3);
    let Q = x / (M as int);
    let rr = x % (M as int);
    lemma_fundamental_div_mod(x, M as int);
    assert(0 <= rr < M);
    assert(Q >= 0) by {
        vstd::arithmetic::div_mod::lemma_div_pos_is_pos(x, M as int);
    }
    let r = rr % (m as int);
    let K = rr / (m as int);
    lemma_fundamental_div_mod(rr, m as int);
    assert(0 <= r < m);
    assert(0 <= K < 3) by (nonlinear_arith)
        requires rr == m * K + r, 0 <= rr < 3 * m, 0 <= r < m, m >= 1;
    let base = Q * M;
    let j0 = x - rr + r;
    assert(j0 == base + r);
    assert(q >= 1) by (nonlinear_arith)
        requires n == 3 * m * q, 0 <= x < n;
    assert(n == M * q);
    lemma_div_multiples_vanish(q as int, M as int);
    assert((n as int) / (M as int) == q);
    assert(Q < q) by (nonlinear_arith)
        requires x == M * Q + rr, 0 <= rr, x < n, n == M * q, M > 0;
    assert(base + M <= n) by (nonlinear_arith)
        requires base == Q * M, Q + 1 <= q, n == M * q, M > 0;
    // positions of the triple and their blocks one stage down
    assert(j0 == (3 * Q) * m + r && j0 + m == (3 * Q + 1) * m + r && j0 + 2 * m == (3 * Q + 2) * m + r)
        by (nonlinear_arith)
        requires j0 == base + r, base == Q * M, M == 3 * m;
    lemma_fundamental_div_mod_converse(j0, m as int, 3 * Q, r);
    lemma_fundamental_div_mod_converse(j0 + m, m as int, 3 * Q + 1, r);
    lemma_fundamental_div_mod_converse(j0 + 2 * m, m as int, 3 * Q + 2, r);
    assert((3 * Q) * m == base && (3 * Q + 1) * m == base + m && (3 * Q + 2) * m == base + 2 * m)
        by (nonlinear_arith)
        requires base == Q * M, M == 3 * m;
    let b0 = block_sum3(c, base, s0, y, r as nat);
    let b1 = block_sum3(c, base + m, s0, y, r as nat);
    let b2 = block_sum3(c, base + 2 * m, s0, y, r as nat);
    assert((a[j0] as int) % p == b0 % p);
    assert((a[j0 + m] as int) % p == b1 % p);
    assert((a[j0 + 2 * m] as int) % p == b2 % p);
    // the twiddle factors
    let third = (n / 3) as int;
    assert(third == m * q) by (nonlinear_arith)
        requires n == 3 * m * q, third == n / 3;
    assert(r * q >= 0 && 2 * r * q >= 0 && r * q < n && 2 * r * q < n) by (nonlinear_arith)
        requires 0 <= r < m, n == 3 * m * q, q >= 1;
    assert(third < n && 2 * third < n) by (nonlinear_arith)
        requires third == m * q, n == 3 * m * q, q >= 1, m >= 1;
    assert(n / 3 * 2 - n / 3 == third);
    let omega = pow(w, third as nat);
    lemma_pow_multiplies(w, q, r as nat);
    assert(q * r == r * q) by (nonlinear_arith);
    lemma_pow_multiplies(w, q, (2 * r) as nat);
    assert(q * (2 * r) == 2 * r * q) by (nonlinear_arith);
    lemma_pow_multiplies(w, q, m);
    assert(q * m == third) by (nonlinear_arith)
        requires third == m * q;
    assert(pow(z, m) == omega);
    lemma_pow_multiplies(w, third as nat, 2);
    assert(third * 2 == 2 * third);
    let t1 = table[r * q];
    let t2 = table[2 * r * q];
    assert((t1 as int) % p == pow(z, r as nat) % p);
    assert((t2 as int) % p == pow(z, (2 * r) as nat) % p);
    assert((table[third] as int) % p == omega % p);
    assert((table[2 * third] as int) % p == pow(omega, 2) % p);
    let yv = (a[j0 + m] * t1) % p;
    let zv = (a[j0 + 2 * m] * t2) % p;
    lemma_twiddled(a[j0 + m] as int, t1 as int, b1, pow(z, r as nat), p);
    lemma_twiddled(a[j0 + 2 * m] as int, t2 as int, b2, pow(z, (2 * r) as nat), p);
    // omega^3 is 1 modulo p
    lemma_pow_multiplies(z, 3, m);
    lemma_pow_multiplies(z, m, 3);
    assert(3 * m == m * 3);
    assert(pow(omega, 3) % p == 1);
    // the target block
    lemma_block3_split(c, base, s0, z, rr as nat);
    assert(pow3n(s0) == m);
    let bf = butterfly3(a, p, table, n as int, m as int, x);
    assert(stage3(a, p, table, n as int, m as int)[x] == bf);
    assert(rr == r + K * m) by (nonlinear_arith)
        requires rr == m * K + r;
    if K >= 1 {
        lemma_block3_period(c, base, s0, y, r as nat, p);
        lemma_block3_period(c, base + m, s0, y, r as nat, p);
        lemma_block3_period(c, base + 2 * m, s0, y, r as nat, p);
    }
    if K == 2 {
        lemma_block3_period(c, base, s0, y, (r + m) as nat, p);
        lemma_block3_period(c, base + m, s0, y, (r + m) as nat, p);
        lemma_block3_period(c, base + 2 * m, s0, y, (r + m) as nat, p);
        assert((r + m) as nat + m == (r + 2 * m) as nat);
    }
    let c0 = block_sum3(c, base, s0, y, rr as nat);
    let c1 = block_sum3(c, base + m, s0, y, rr as nat);
    let c2 = block_sum3(c, base + 2 * m, s0, y, rr as nat);
    if K == 0 {
        assert(K * m == 0) by (nonlinear_arith)
            requires K == 0;
        assert(rr == r);
    } else if K == 1 {
        assert(K * m == m) by (nonlinear_arith)
            requires K == 1;
        assert(rr as nat == r as nat + pow3n(s0));
    } else {
        assert(K * m == 2 * m) by (nonlinear_arith)
            requires K == 2;
        assert(rr as nat == (r + m) as nat + pow3n(s0));
        assert((r + m) as nat == r as nat + pow3n(s0));
    }
    assert(c0 % p == b0 % p && c1 % p == b1 % p && c2 % p == b2 % p);
    let zr = pow(z, r as nat);
    let z2r = pow(z, (2 * r) as nat);
    // z^rr = z^r omega^K and z^(2 rr) = z^(2r) omega^(2K)
    assert(K * m >= 0 && 2 * (K * m) >= 0) by (nonlinear_arith)
        requires K >= 0;
    lemma_pow_adds(z, r as nat, (K * m) as nat);
    assert(2 * rr == 2 * r + 2 * (K * m));
    lemma_pow_adds(z, (2 * r) as nat, (2 * (K * m)) as nat);
    lemma_pow_multiplies(z, m, K as nat);
    lemma_pow_multiplies(z, m, (2 * K) as nat);
    assert(m * K == K * m && m * (2 * K) == 2 * (K * m)) by (nonlinear_arith);
    let target = block_sum3(c, base, s0 + 1, z, rr as nat);
    assert(target == c0 + pow(z, rr as nat) * c1 + pow(z, 2 * (rr as nat)) * c2);
    assert(pow(z, rr as nat) == zr * pow(omega, K as nat));
    assert(pow(z, 2 * (rr as nat)) == z2r * pow(omega, (2 * K) as nat));
    lemma_pow0(omega);
    lemma_pow1(omega);
    vstd::arithmetic::power::lemma_square_is_pow2(omega);
    lemma_mod_bound((a[j0] as int) % p + yv + zv, p);
    if K == 0 {
        assert(bf == (((a[j0] as int) + yv + zv) % p) as u128);
        lemma_cong_mod(a[j0] as int, p);
        assert((yv % p) == (b1 * zr) % p);
        assert((zv % p) == (b2 * z2r) % p);
        lemma_cong_add(a[j0] as int, b0, yv, b1 * zr, p);
        lemma_cong_add((a[j0] as int) + yv, b0 + b1 * zr, zv, b2 * z2r, p);
        assert(zr * 1 == zr && z2r * 1 == z2r);
        assert(zr * b1 == b1 * zr && z2r * b2 == b2 * z2r) by (nonlinear_arith);
        lemma_mod_bound((a[j0] as int) + yv + zv, p);
        lemma_small_mod(bf as nat, p as nat);
        assert((bf as int) % p == (c0 + zr * c1 + z2r * c2) % p);
    } else {
        let w1 = table[third] as int;
        let w2 = table[2 * third] as int;
        let o2 = pow(omega, 2);
        if K == 1 {
            assert(bf == ((((a[j0] as int) % p) + (w1 * yv) % p + (w2 * zv) % p) % p) as u128);
            lemma_combine3(a[j0] as int, yv, zv, w1, w2, b0, b1 * zr, b2 * z2r, omega, o2, p);
            lemma_mod_bound(((a[j0] as int) % p) + (w1 * yv) % p + (w2 * zv) % p, p);
            lemma_small_mod(bf as nat, p as nat);
            assert(omega * (b1 * zr) == (zr * omega) * b1) by (nonlinear_arith);
            assert(o2 * (b2 * z2r) == (z2r * o2) * b2) by (nonlinear_arith);
            assert(pow(omega, 1) == omega);
            lemma_cong_mul(zr * omega, zr * omega, c1, b1, p);
            lemma_cong_mul(z2r * o2, z2r * o2, c2, b2, p);
            lemma_cong_add(c0, b0, (zr * omega) * c1, (zr * omega) * b1, p);
            lemma_cong_add(c0 + (zr * omega) * c1, b0 + (zr * omega) * b1, (z2r * o2) * c2, (z2r * o2) * b2, p);
        } else {
            assert(K == 2);
            assert(bf == ((((a[j0] as int) % p) + (w2 * yv) % p + (w1 * zv) % p) % p) as u128);
            lemma_combine3(a[j0] as int, yv, zv, w2, w1, b0, b1 * zr, b2 * z2r, o2, omega, p);
            lemma_mod_bound(((a[j0] as int) % p) + (w2 * yv) % p + (w1 * zv) % p, p);
            lemma_small_mod(bf as nat, p as nat);
            // omega^4 = omega^3 omega, congruent to omega
            let o4 = pow(omega, 4);
            lemma_pow_adds(omega, 3, 1);
            lemma_small_mod(1, p as nat);
            lemma_cong_mul(pow(omega, 3), 1, omega, omega, p);
            assert(1 * omega == omega);
            assert(o2 * (b1 * zr) == (zr * o2) * b1) by (nonlinear_arith);
            assert(omega * (b2 * z2r) == (z2r * omega) * b2) by (nonlinear_arith);
            lemma_cong_mul(zr * o2, zr * o2, c1, b1, p);
            lemma_cong_mul(z2r, z2r, o4, omega, p);
            lemma_cong_mul(z2r * o4, z2r * omega, c2, b2, p);
            lemma_cong_add(c0, b0, (zr * o2) * c1, (zr * o2) * b1, p);
            lemma_cong_add(c0 + (zr * o2) * c1, b0 + (zr * o2) * b1, (z2r * o4) * c2, (z2r * omega) * b2, p);
        }
    }
}

/// After `s` stages, every block of `3^s` entries holds the values of its
/// digit-reversed entries' polynomial at the powers of `w^(3^(L-s))`.
proof fn lemma_stages3_blocks(c: Seq<u128>, p: int, table: Seq<u128>, w: int, L: nat, s: nat)
    requires
        c.len() == pow3n(L),
        L >= 1,
        s <= L,
        1 < p <= 0x1_0000_0000_0000_0000_0000_0000_0000_0000,
        powers_of(table, w, pow3n(L), p),
        pow(w, pow3n(L)) % p == 1,
    ensures
        stages3(c, p, table, pow3n(L) as int, s).len() == c.len(),
        forall|x: int|
            0 <= x < c.len() ==> #[trigger] (stages3(c, p, table, pow3n(L) as int, s)[x] as int) % p == block_sum3(
                c,
                (x / pow3n(s) as int) * pow3n(s),
                s,
                pow(w, pow3n((L - s) as nat)),
                (x % pow3n(s) as int) as nat,
            ) % p,
    decreases s,
{
    let n = pow3n(L);
    if s == 0 {
        let z = pow(w, pow3n(L));
        assert(pow3n(0) == 1);
        assert forall|x: int| 0 <= x < c.len() implies #[trigger] (stages3(c, p, table, n as int, s)[x] as int) % p
            == block_sum3(c, (x / pow3n(s) as int) * pow3n(s), s, z, (x % pow3n(s) as int) as nat) % p by {
            assert(x / 1 == x && x % 1 == 0);
            let f = |t: int| c[x + rev3(t as nat, 0)] * pow(z, (t * 0) as nat);
            assert(sum_to(f, 1) == sum_to(f, 0) + f(0));
            lemma_pow0(z);
            assert(f(0) == c[x] * 1);
            assert(block_sum3(c, x, 0, z, 0) == sum_to(f, 1));
        }
    } else {
        let s0 = (s - 1) as nat;
        lemma_stages3_blocks(c, p, table, w, L, s0);
        let a = stages3(c, p, table, n as int, s0);
        let m = pow3n(s0);
        let q = pow3n((L - s) as nat);
        let z = pow(w, q);
        lemma_log3_pow3n(s0);
        lemma_pow3n_pos(s0);
        assert(pow3n(s) == 3 * m);
        assert(pow3n((L - s0) as nat) == 3 * q);
        lemma_pow_multiplies(w, q, 3);
        assert(q * 3 == 3 * q);
        lemma_pow3n_adds(s, (L - s) as nat);
        assert((s + (L - s)) as nat == L);
        assert(n == 3 * m * q) by (nonlinear_arith)
            requires n == pow3n(s) * q, pow3n(s) == 3 * m;
        lemma_pow_multiplies(w, 3 * q, m);
        assert((3 * q) * m == n) by (nonlinear_arith)
            requires n == 3 * m * q;
        assert(stages3(c, p, table, n as int, s) == stage3(a, p, table, n as int, m as int));
        assert forall|x: int| 0 <= x < c.len() implies #[trigger] (stages3(c, p, table, n as int, s)[x] as int) % p
            == block_sum3(c, (x / pow3n(s) as int) * pow3n(s), s, z, (x % pow3n(s) as int) as nat) % p by {
            lemma_stage3_step(c, a, p, table, w, n, m, q, z, x);
        }
    }
}

/// Law: for a length `n >= 3` that is a power of three, a table holding the
/// powers of `w` modulo `p`, and `w^n` congruent to 1 (as for a root of unity
/// whose order divides `n`), the radix-3 transform is the discrete Fourier
/// transform: entry `k` is the value of the polynomial with coefficients `a`
/// at `w^k`, modulo `p`.
pub proof fn lemma_transform3_is_dft(a: Seq<u128>, p: int, table: Seq<u128>, w: int)
    requires
        is_pow3(a.len()),
        3 <= a.len() <= usize::MAX,
        1 < p <= 0x1_0000_0000_0000_0000_0000_0000_0000_0000,
        powers_of(table, w, a.len(), p),
        pow(w, a.len()) % p == 1,
    ensures
        transform3_spec(a, p, table) == dft(a, w, p),
{
    let n = a.len();
    let L = choose|k: nat| pow3n(k) == n;
    lemma_log3_pow3n(L);
    assert(L >= 1) by {
        if L == 0 {
            assert(pow3n(0) == 1);
        }
    }
    let c = swap_fold(a, rev3_target(n), n);
    lemma_bit_reverse3_entries(a, L);
    lemma_stages3_blocks(c, p, table, w, L, L);
    lemma_transform3_below(a, p, table);
    let t = transform3_spec(a, p, table);
    assert(t == stages3(c, p, table, n as int, L));
    assert(pow3n(0) == 1);
    lemma_pow1(w);
    assert forall|k: int| 0 <= k < n implies #[trigger] t[k] == dft(a, w, p)[k] by {
        assert(k / (n as int) == 0 && k % (n as int) == k) by {
            lemma_small_mod(k as nat, n);
            vstd::arithmetic::div_mod::lemma_basic_div(k, n as int);
        }
        let f = |u: int| c[0int + rev3(u as nat, L)] * pow(w, (u * k) as nat);
        let g = |j: int| a[j] * pow(w, (j * k) as nat);
        assert forall|u: int| 0 <= u < n implies #[trigger] f(u) == g(u) by {
            lemma_rev3_bound(u as nat, L);
            lemma_rev3_involution(u as nat, L);
        }
        lemma_sum_ext(f, g, n);
        assert(block_sum3(c, 0, L, w, k as nat) == sum_to(f, pow3n(L)));
        assert(0 * (n as int) == 0);
        assert((t[k] as int) % p == eval_at_power(a, w, k as nat) % p);
        lemma_small_mod(t[k] as nat, p as nat);
    }
    assert(t =~= dft(a, w, p));
}

// ---------------------------------------------------------------------------
// The inverse radix-3 transform
// ---------------------------------------------------------------------------

/// `(y - 1)` times the sum of `y^k` over `k < n` is `y^n - 1`.
proof fn lemma_geometric(y: int, n: nat)
    ensures
        (y - 1) * sum_to(|k: int| pow(y, k as nat), n) == pow(y, n) - 1,
    decreases n,
{
    if n == 0 {
        lemma_pow0(y);
        assert((y - 1) * 0 == 0);
    } else {
        lemma_geometric(y, (n - 1) as nat);
        let s = sum_to(|k: int| pow(y, k as nat), (n - 1) as nat);
        let q = pow(y, (n - 1) as nat);
        lemma_pow_adds(y, (n - 1) as nat, 1);
        lemma_pow1(y);
        assert(((n - 1) + 1) as nat == n);
        assert((y - 1) * (s + q) == (y - 1) * s + q * y - q) by (nonlinear_arith);
    }
}

/// Modulo a prime, the powers `y^k`, `k < n`, sum to zero when `y^n` is 1
/// and `y` is not.
proof fn lemma_geometric_zero(y: int, n: nat, p: int)
    requires
        is_prime(p),
        pow(y, n) % p == 1,
        y % p != 1,
    ensures
        sum_to(|k: int| pow(y, k as nat), n) % p == 0,
{
    let s = sum_to(|k: int| pow(y, k as nat), n);
    lemma_geometric(y, n);
    lemma_small_mod(1, p as nat);
    lemma_small_mod(0, p as nat);
    vstd::arithmetic::div_mod::lemma_sub_mod_noop(pow(y, n), 1, p);
    assert(((y - 1) * s) % p == 0);
    let d = (y - 1) % p;
    lemma_mod_bound(y - 1, p);
    if d == 0 {
        vstd::arithmetic::div_mod::lemma_sub_mod_noop(y, 1, p);
        lemma_mod_bound(y, p);
        // (y % p - 1) % p == 0 with 0 <= y % p < p means y % p == 1
        if y % p == 0 {
            assert((0 - 1int) == p * (-1) + (p - 1));
            vstd::arithmetic::div_mod::lemma_mod_multiples_vanish(-1, p - 1, p);
            lemma_small_mod((p - 1) as nat, p as nat);
        } else {
            lemma_small_mod((y % p - 1) as nat, p as nat);
        }
        assert(false);
    }
    lemma_mod_twice(y - 1, p);
    lemma_cong_mul(y - 1, d, s, s, p);
    lemma_euclid(p, d, s);
}

/// A root whose power `3^L` is 1 but whose power `3^(L-1)` is not has no
/// smaller positive power equal to 1, modulo a prime.
proof fn lemma_order3(z: int, L: nat, d: nat, p: int)
    requires
        is_prime(p),
        L >= 1,
        pow(z, pow3n(L)) % p == 1,
        pow(z, pow3n((L - 1) as nat)) % p != 1,
        0 < d < pow3n(L),
    ensures
        pow(z, d) % p != 1,
    decreases L,
{
    let m = pow3n((L - 1) as nat);
    assert(pow3n(L) == 3 * m);
    lemma_small_mod(1, p as nat);
    if d % 3 != 0 {
        if pow(z, d) % p == 1 {
            let u = pow(z, m);
            // u^3 = z^(3^L) and u^d = (z^d)^m are 1 modulo p
            lemma_pow_multiplies(z, m, 3);
            assert(m * 3 == pow3n(L));
            lemma_pow_multiplies(z, m, d);
            lemma_pow_multiplies(z, d, m);
            assert(m * d == d * m) by (nonlinear_arith);
            lemma_pow_mod_noop(pow(z, d), m, p);
            lemma1_pow(m);
            assert(pow(u, d) % p == 1);
            let q = d / 3;
            let r = d % 3;
            lemma_fundamental_div_mod(d as int, 3);
            lemma_pow_multiplies(u, 3, q);
            lemma_pow_adds(u, 3 * q, r);
            lemma_pow_mod_noop(pow(u, 3), q, p);
            lemma1_pow(q);
            // u^d = (u^3)^q u^r, so u^r is 1 modulo p
            lemma_cong_mul(pow(pow(u, 3), q), 1, pow(u, r), pow(u, r), p);
            assert(1 * pow(u, r) == pow(u, r));
            assert((3 * q + r) as nat == d);
            assert(pow(u, r) % p == 1);
            lemma_pow1(u);
            if r == 2 {
                // u^3 = u u^2, so u is 1 modulo p
                lemma_pow_adds(u, 1, 2);
                lemma_cong_mul(u, u, pow(u, 2), 1, p);
                assert(u * 1 == u);
            }
            assert(u % p == 1);
            assert(false);
        }
    } else {
        assert(L >= 2) by {
            if L == 1 {
                assert(pow3n(0) == 1);
            }
        }
        let d1 = d / 3;
        let z3 = pow(z, 3);
        let m2 = pow3n((L - 2) as nat);
        assert(m == 3 * m2);
        lemma_pow_multiplies(z, 3, m);
        assert(3 * m == pow3n(L));
        lemma_pow_multiplies(z, 3, m2);
        assert(((L - 1) - 1) as nat == (L - 2) as nat);
        lemma_order3(z3, (L - 1) as nat, d1, p);
        lemma_pow_multiplies(z, 3, d1);
        assert(3 * d1 == d);
    }
}

/// The powers of a root of order `n = 3^L` and of its inverse are orthogonal.
proof fn lemma_orthogonal3(w: int, v: int, L: nat, i: nat, j: nat, p: int)
    requires
        is_prime(p),
        L >= 1,
        (w * v) % p == 1,
        pow(w, pow3n(L)) % p == 1,
        pow(w, pow3n((L - 1) as nat)) % p != 1,
        i < pow3n(L),
        j < pow3n(L),
    ensures
        orthogonal_at(w, v, i, j, pow3n(L), p),
{
    let n = pow3n(L);
    let f = |k: int| pow(w, (i * k) as nat) * pow(v, (j * k) as nat);
    lemma_small_mod(1, p as nat);
    if i == j {
        assert forall|k: int| 0 <= k < n implies #[trigger] f(k) % p == 1int % p by {
            lemma_cross_term(w, v, i, j, k as nat, p);
            lemma_pow0(w);
            assert((i - j) * k == 0);
        }
        lemma_sum_ones(f, n, p);
    } else {
        let (z, d) = if i > j { (w, (i - j) as nat) } else { (v, (j - i) as nat) };
        let y = pow(z, d);
        let g = |k: int| pow(y, k as nat);
        assert forall|k: int| 0 <= k < n implies #[trigger] f(k) % p == g(k) % p by {
            lemma_cross_term(w, v, i, j, k as nat, p);
            assert(d * k >= 0) by (nonlinear_arith)
                requires k >= 0;
            lemma_pow_multiplies(z, d, k as nat);
        }
        lemma_sum_cong(f, g, n, p);
        // y^n is 1, and y is not, modulo p
        lemma_pow_multiplies(z, d, n);
        lemma_pow_multiplies(w, n, d);
        assert(d * n == n * d) by (nonlinear_arith);
        lemma_pow_mod_noop(pow(w, n), d, p);
        lemma1_pow(d);
        lemma_order3(w, L, d, p);
        vstd::arithmetic::power::lemma_pow_distributes(w, v, n);
        vstd::arithmetic::power::lemma_pow_distributes(w, v, d);
        lemma_pow_mod_noop(w * v, n, p);
        lemma_pow_mod_noop(w * v, d, p);
        lemma1_pow(n);
        if i < j {
            // v^n is 1 since w^n and (w v)^n are
            lemma_cong_mul(pow(w, n), 1, pow(v, n), pow(v, n), p);
            assert(1 * pow(v, n) == pow(v, n));
            lemma_pow_multiplies(v, n, d);
            lemma_pow_mod_noop(pow(v, n), d, p);
            // v^d is not 1, else w^d = (w v)^d / v^d would be
            if pow(v, d) % p == 1 {
                lemma_cong_mul(pow(w, d), pow(w, d), pow(v, d), 1, p);
                assert(pow(w, d) * 1 == pow(w, d));
            }
        }
        lemma_geometric_zero(y, n, p);
    }
}

/// An odd prime other than 3 divides no power of three.
proof fn lemma_pow3n_unit(k: nat, p: int)
    requires
        is_prime(p),
        p > 3,
    ensures
        (pow3n(k) as int) % p != 0,
    decreases k,
{
    if k == 0 {
        lemma_small_mod(1, p as nat);
    } else {
        lemma_pow3n_unit((k - 1) as nat, p);
        lemma_small_mod(3, p as nat);
        lemma_prime_product_nonzero(p, 3, pow3n((k - 1) as nat) as int);
    }
}

/// Law: the inverse radix-3 transform undoes the forward one. For a length
/// `n >= 3` that is a power of three, a prime `p > 3`, and a root `w` of
/// order `n` modulo `p` (`w^n` congruent to 1 and `w^(n/3)` not), the
/// inverse transform of the transform of `a` with the powers of `w` is `a`
/// reduced modulo `p`.
pub proof fn lemma_inverse3_of_transform3(a: Seq<u128>, p: int, w: int)
    requires
        is_pow3(a.len()),
        3 <= a.len() <= usize::MAX,
        is_prime(p),
        3 < p <= modulus_bound(),
        pow(w, a.len()) % p == 1,
        pow(w, a.len() / 3) % p != 1,
    ensures
        inverse3_spec(transform3_spec(a, p, power_table(w, a.len(), p)), p, power_table(w, a.len(), p))
            == reduce(a, p),
{
    let n = a.len();
    let L = choose|k: nat| pow3n(k) == n;
    assert(L >= 1) by {
        if L == 0 {
            assert(pow3n(0) == 1);
        }
    }
    assert(n / 3 == pow3n((L - 1) as nat));
    let table = power_table(w, n, p);
    lemma_power_table_powers(w, n, p);
    lemma_transform3_is_dft(a, p, table, w);
    let t = dft(a, w, p);
    // w is invertible: were p to divide it, w^n would be 0
    if w % p == 0 {
        lemma_pow_mod_noop(w, n, p);
        vstd::arithmetic::power::lemma0_pow(n);
        lemma_small_mod(0, p as nat);
    }
    lemma_fermat_inverse(w, p);
    lemma_modpow_reduced_base(w, p);
    let v = modpow_value(w, (p - 2) as nat, p);
    assert(table[1] as int == w % p);
    lemma_pow3n_unit(L, p);
    lemma_fermat_inverse(n as int, p);
    let c = modpow_value(n as int, (p - 2) as nat, p);
    assert forall|i: nat, j: nat| i < n && j < n implies #[trigger] orthogonal_at(w, v, i, j, n, p) by {
        lemma_orthogonal3(w, v, L, i, j, p);
    }
    lemma_round_trip_orthogonal(a, w, v, c, p);
    // v^n is 1 modulo p
    vstd::arithmetic::power::lemma_pow_distributes(w, v, n);
    lemma_pow_mod_noop(w * v, n, p);
    lemma1_pow(n);
    lemma_small_mod(1, p as nat);
    lemma_cong_mul(pow(w, n), 1, pow(v, n), pow(v, n), p);
    assert(1 * pow(v, n) == pow(v, n));
    let table2 = power_table(v, n, p);
    lemma_power_table_powers(v, n, p);
    lemma_transform3_is_dft(t, p, table2, v);
    let r = inverse3_spec(t, p, table);
    assert(r == scaled(dft(t, v, p), c, p));
    assert forall|j: int| 0 <= j < n implies #[trigger] r[j] == reduce(a, p)[j] by {
        lemma_mod_bound(a[j] as int, p);
    }
    assert(r =~= reduce(a, p));
}


/// Modulo 2 or 3, no root has multiplicative order a multiple of 3: a cube
/// that is 1 comes from 1.
proof fn lemma_cube_root_of_one_small(y: int, p: int)
    requires
        p == 2 || p == 3,
        0 <= y < p,
        y != 1,
    ensures
        pow(y, 3) % p != 1,
{
    reveal_with_fuel(pow, 4);
    assert(pow(y, 3) == y * (y * (y * 1)));
    if y == 0 {
        assert(pow(y, 3) == 0);
    } else {
        assert(y == 2 && p == 3);
        assert(pow(y, 3) == 8);
    }
}

/// Law: the inverse radix-3 transform undoes the forward one, for any table
/// that holds the powers of a root `w` of multiplicative order `n` modulo a
/// prime `p` (the table may be longer than `n`): the result is `a` reduced
/// modulo `p`, and `a` itself when its entries lie below `p`.
pub proof fn lemma_inverse3_round_trip(a: Seq<u128>, p: int, table: Seq<u128>, w: int)
    requires
        is_pow3(a.len()),
        3 <= a.len() <= usize::MAX,
        is_prime(p),
        p <= modulus_bound(),
        powers_of(table, w, a.len(), p),
        pow(w, a.len()) % p == 1,
        pow(w, a.len() / 3) % p != 1,
    ensures
        inverse3_spec(transform3_spec(a, p, table), p, table) == reduce(a, p),
        (forall|i: int| 0 <= i < a.len() ==> #[trigger] a[i] < p)
            ==> inverse3_spec(transform3_spec(a, p, table), p, table) == a,
{
    let n = a.len();
    let k = choose|k: nat| pow3n(k) == n;
    assert(k >= 1) by {
        if k == 0 {
            assert(pow3n(0) == 1);
        }
    }
    assert(n == 3 * pow3n((k - 1) as nat));
    assert(n / 3 * 3 == n);
    // no such root exists modulo 2 or 3
    if p <= 3 {
        let x = pow(w, n / 3);
        lemma_pow_multiplies(w, n / 3, 3);
        lemma_pow_mod_noop(x, 3, p);
        vstd::arithmetic::div_mod::lemma_mod_bound(x, p);
        lemma_cube_root_of_one_small(x % p, p);
        assert(false);
    }
    let pt = power_table(w, n, p);
    lemma_power_table_powers(w, n, p);
    lemma_transform3_is_dft(a, p, table, w);
    lemma_transform3_is_dft(a, p, pt, w);
    let t = transform3_spec(a, p, table);
    lemma_table_inverse_root(table, w, n, p);
    assert(inverse3_spec(t, p, table) == inverse3_spec(t, p, pt));
    lemma_inverse3_of_transform3(a, p, w);
    if forall|i: int| 0 <= i < a.len() ==> #[trigger] a[i] < p {
        lemma_reduce_below(a, p);
    }
}

} // verus!
