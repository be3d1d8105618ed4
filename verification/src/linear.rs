//! Additivity of sharing and reconstruction: the transforms are linear
//! modulo the prime, so the entrywise sum of two sharings is a sharing of
//! the entrywise sum, and interpolating a sum of share vectors gives the sum
//! of the interpolations. This is what lets the server add shares up and
//! reconstruct only the aggregate.
use vstd::prelude::*;
use vstd::arithmetic::div_mod::{lemma_mod_equivalence, lemma_mod_multiples_basic, lemma_add_mod_noop, lemma_mul_mod_noop_right, lemma_mod_twice, lemma_mod_bound, lemma_fundamental_div_mod, lemma_small_mod};
use crate::ntt::{
    butterfly2, stage2, stages2, butterfly3, stage3, stages3, swap_fold, scaled, pow3n, log2, log3, is_pow2,
    is_pow3, transform2_spec, transform3_spec, inverse2_spec, rev2_target, rev3_target, power_table,
};
use crate::util::pow2n;
use crate::modpow::{modulus_bound, modpow_value};
use crate::packed::{pad_zeros, lagrange_spec, lagrange_sum, lagrange_term, prod_except, lagrange_denominator};
use crate::pss::{PackedSecretSharing, shares_spec, widen};

verus! {

/// `c` is the entrywise sum of `a` and `b` modulo `p`.
pub open spec fn sum_mod(a: Seq<u128>, b: Seq<u128>, c: Seq<u128>, p: int) -> bool {
    &&& a.len() == c.len()
    &&& b.len() == c.len()
    &&& forall|i: int| #![trigger c[i]] 0 <= i < c.len() ==> (c[i] as int) % p == (a[i] + b[i]) % p
}

/// Two numbers that differ by a multiple of `p` are congruent.
proof fn lemma_cong_of_diff(x: int, y: int, q: int, p: int)
    requires
        p > 0,
        x - y == q * p,
    ensures
        x % p == y % p,
{
    lemma_mod_multiples_basic(q, p);
    lemma_mod_equivalence(x, y, p);
}

/// Congruent numbers differ by a multiple of `p`.
proof fn lemma_diff_of_cong(x: int, y: int, p: int) -> (q: int)
    requires
        p > 0,
        x % p == y % p,
    ensures
        x - y == q * p,
{
    lemma_mod_equivalence(x, y, p);
    lemma_fundamental_div_mod(x - y, p);
    (x - y) / p
}

/// A linear form in three values is additive modulo `p`.
proof fn lemma_lin3(a0: int, a1: int, a2: int, b0: int, b1: int, b2: int, c0: int, c1: int, c2: int, k1: int, k2: int,
    p: int)
    requires
        p > 0,
        c0 % p == (a0 + b0) % p,
        c1 % p == (a1 + b1) % p,
        c2 % p == (a2 + b2) % p,
    ensures
        (c0 + k1 * c1 + k2 * c2) % p == ((a0 + k1 * a1 + k2 * a2) + (b0 + k1 * b1 + k2 * b2)) % p,
{
    let q0 = lemma_diff_of_cong(c0, a0 + b0, p);
    let q1 = lemma_diff_of_cong(c1, a1 + b1, p);
    let q2 = lemma_diff_of_cong(c2, a2 + b2, p);
    let q = q0 + k1 * q1 + k2 * q2;
    assert((c0 + k1 * c1 + k2 * c2) - ((a0 + k1 * a1 + k2 * a2) + (b0 + k1 * b1 + k2 * b2)) == q * p)
        by (nonlinear_arith)
        requires
            c0 - (a0 + b0) == q0 * p,
            c1 - (a1 + b1) == q1 * p,
            c2 - (a2 + b2) == q2 * p,
            q == q0 + k1 * q1 + k2 * q2;
    lemma_cong_of_diff(c0 + k1 * c1 + k2 * c2, (a0 + k1 * a1 + k2 * a2) + (b0 + k1 * b1 + k2 * b2), q, p);
}

/// Reducing the summands does not change a sum modulo `p`.
proof fn lemma_sum3_mod(u: int, v: int, w: int, p: int)
    requires
        p > 0,
    ensures
        ((u % p) + (v % p) + (w % p)) % p == (u + v + w) % p,
{
    lemma_add_mod_noop(u, v, p);
    lemma_add_mod_noop(u + v, w, p);
    lemma_add_mod_noop((u % p) + (v % p), w % p, p);
    lemma_mod_twice(w, p);
    lemma_mod_bound(u, p);
    lemma_mod_bound(v, p);
    lemma_mod_twice((u % p) + (v % p), p);
    let s = (u % p) + (v % p);
    lemma_add_mod_noop(s, w, p);
    lemma_add_mod_noop(u + v, w, p);
}

/// `(u mod p + p - v mod p) mod p` is `u - v` modulo `p`.
proof fn lemma_sub_form(u: int, v: int, p: int)
    requires
        p > 0,
    ensures
        ((u % p) + p - (v % p)) % p == (u + (-1) * v) % p,
{
    lemma_fundamental_div_mod(u, p);
    lemma_fundamental_div_mod(v, p);
    let q = 1 - u / p + v / p;
    assert(((u % p) + p - (v % p)) - (u + (-1) * v) == q * p) by (nonlinear_arith)
        requires u == p * (u / p) + u % p, v == p * (v / p) + v % p, q == 1 - u / p + v / p;
    lemma_cong_of_diff((u % p) + p - (v % p), u + (-1) * v, q, p);
}

/// `w ((a t) mod p)` is `(w t) a` modulo `p`.
proof fn lemma_scaled_product(w: int, a: int, t: int, p: int)
    requires
        p > 0,
    ensures
        (w * ((a * t) % p)) % p == ((w * t) * a) % p,
{
    lemma_mul_mod_noop_right(w, a * t, p);
    assert(w * (a * t) == (w * t) * a) by (nonlinear_arith);
}

/// An entry of a block of `m` with room for `off` more in its block has
/// room in the sequence.
proof fn lemma_block_room(x: int, m: int, len: int, off: int)
    requires
        0 <= x < len,
        m > 0,
        len % m == 0,
        0 <= off,
        x % m + off < m,
    ensures
        x + off < len,
{
    lemma_fundamental_div_mod(x, m);
    lemma_fundamental_div_mod(len, m);
    lemma_mod_bound(x, m);
    let q = x / m;
    let big_q = len / m;
    assert(q < big_q) by (nonlinear_arith)
        requires x == m * q + x % m, len == m * big_q, 0 <= x % m, x < len, m > 0;
    assert(x + off < len) by (nonlinear_arith)
        requires x == m * q + x % m, len == m * big_q, q + 1 <= big_q, x % m + off < m, m > 0;
}

/// The first position a radix-2 butterfly output reads.
pub open spec fn b2_first(x: int, m: int) -> int {
    if x % m < m / 2 { x } else { x - m / 2 }
}

/// The second position a radix-2 butterfly output reads.
pub open spec fn b2_second(x: int, m: int) -> int {
    if x % m < m / 2 { x + m / 2 } else { x }
}

/// The factor of the second input of a radix-2 butterfly output.
pub open spec fn b2_factor(table: Seq<u128>, n: int, m: int, x: int) -> int {
    let h = m / 2;
    let r = x % m;
    if r < h { table[r * (n / m)] as int } else { -(table[(r - h) * (n / m)] as int) }
}

/// A radix-2 butterfly output is a linear form in two inputs.
proof fn lemma_b2_form(s: Seq<u128>, p: int, table: Seq<u128>, n: int, m: int, x: int)
    requires
        0 < p <= modulus_bound(),
        m >= 2,
        m % 2 == 0,
        (s.len() as int) % m == 0,
        0 <= x < s.len(),
    ensures
        0 <= b2_first(x, m) < s.len(),
        0 <= b2_second(x, m) < s.len(),
        (butterfly2(s, p, table, n, m, x) as int) % p
            == (s[b2_first(x, m)] + b2_factor(table, n, m, x) * s[b2_second(x, m)]) % p,
        (butterfly2(s, p, table, n, m, x) as int) < p,
{
    let h = m / 2;
    let r = x % m;
    lemma_mod_bound(x, m);
    if r < h {
        lemma_block_room(x, m, s.len() as int, h);
        let t = table[r * (n / m)] as int;
        let u = s[x] as int;
        let v = s[x + h] as int;
        assert((table[r * (n / m)] * s[x + h]) == t * v);
        let e = (u % p) + (t * v) % p;
        lemma_add_mod_noop(u, t * v, p);
        lemma_mod_bound(e, p);
        assert(butterfly2(s, p, table, n, m, x) == (e % p) as u128);
        lemma_small_mod((e % p) as nat, p as nat);
        assert(b2_first(x, m) == x && b2_second(x, m) == x + h && b2_factor(table, n, m, x) == t);
    } else {
        let t = table[(r - h) * (n / m)] as int;
        lemma_fundamental_div_mod(x, m);
        assert(x - h >= 0) by (nonlinear_arith)
            requires x == m * (x / m) + r, r >= h, x >= 0, m > 0, x / m >= 0;
        let u = s[x - h] as int;
        let v = s[x] as int;
        assert((table[(r - h) * (n / m)] * s[x]) == t * v);
        let e = (u % p) + p - (t * v) % p;
        lemma_sub_form(u, t * v, p);
        lemma_mod_bound(e, p);
        assert(butterfly2(s, p, table, n, m, x) == (e % p) as u128);
        lemma_small_mod((e % p) as nat, p as nat);
        assert(u + (-1) * (t * v) == u + (-t) * v) by (nonlinear_arith);
        assert(b2_first(x, m) == x - h && b2_second(x, m) == x && b2_factor(table, n, m, x) == -t);
    }
}

/// One radix-2 stage keeps entrywise sums modulo `p`.
proof fn lemma_stage2_sum(a: Seq<u128>, b: Seq<u128>, c: Seq<u128>, p: int, table: Seq<u128>, n: int, m: int)
    requires
        0 < p <= modulus_bound(),
        sum_mod(a, b, c, p),
        m >= 2,
        m % 2 == 0,
        (c.len() as int) % m == 0,
    ensures
        sum_mod(stage2(a, p, table, n, m), stage2(b, p, table, n, m), stage2(c, p, table, n, m), p),
{
    let sa = stage2(a, p, table, n, m);
    let sb = stage2(b, p, table, n, m);
    let sc = stage2(c, p, table, n, m);
    assert forall|x: int| 0 <= x < sc.len() implies #[trigger] (sc[x] as int) % p == (sa[x] + sb[x]) % p by {
        lemma_b2_form(a, p, table, n, m, x);
        lemma_b2_form(b, p, table, n, m, x);
        lemma_b2_form(c, p, table, n, m, x);
        let i0 = b2_first(x, m);
        let i1 = b2_second(x, m);
        let k = b2_factor(table, n, m, x);
        lemma_lin3(a[i0] as int, a[i1] as int, 0, b[i0] as int, b[i1] as int, 0, c[i0] as int, c[i1] as int, 0, k, 0, p);
        assert((c[i0] + k * c[i1] + 0 * 0) == c[i0] + k * c[i1]);
        assert((a[i0] + k * a[i1] + 0 * 0) == a[i0] + k * a[i1]);
        assert((b[i0] + k * b[i1] + 0 * 0) == b[i0] + k * b[i1]);
        lemma_add_mod_noop(a[i0] + k * a[i1], b[i0] + k * b[i1], p);
        lemma_small_mod(sa[x] as nat, p as nat);
        lemma_small_mod(sb[x] as nat, p as nat);
    }
}

/// The radix-2 stages on blocks of 2, ..., `2^s` keep entrywise sums
/// modulo `p` when `2^s` divides the length.
proof fn lemma_stages2_sum(a: Seq<u128>, b: Seq<u128>, c: Seq<u128>, p: int, table: Seq<u128>, n: int, s: nat)
    requires
        0 < p <= modulus_bound(),
        sum_mod(a, b, c, p),
        (c.len() as int) % (pow2n(s) as int) == 0,
    ensures
        sum_mod(stages2(a, p, table, n, s), stages2(b, p, table, n, s), stages2(c, p, table, n, s), p),
    decreases s,
{
    if s > 0 {
        let m = pow2n(s) as int;
        let h = pow2n((s - 1) as nat) as int;
        crate::ntt::lemma_pow2n_pos((s - 1) as nat);
        assert(m == 2 * h);
        lemma_fundamental_div_mod(c.len() as int, m);
        assert((c.len() as int) % h == 0) by {
            let q = c.len() as int / m;
            assert(c.len() == h * (2 * q)) by (nonlinear_arith)
                requires c.len() == m * q + 0, m == 2 * h;
            lemma_mod_multiples_basic(2 * q, h);
            assert((2 * q) * h == h * (2 * q)) by (nonlinear_arith);
        }
        lemma_stages2_sum(a, b, c, p, table, n, (s - 1) as nat);
        let pa = stages2(a, p, table, n, (s - 1) as nat);
        let pb = stages2(b, p, table, n, (s - 1) as nat);
        let pc = stages2(c, p, table, n, (s - 1) as nat);
        assert(pc.len() == c.len()) by {
            lemma_stages2_len(c, p, table, n, (s - 1) as nat);
        }
        lemma_stage2_sum(pa, pb, pc, p, table, n, m);
    }
}

proof fn lemma_stages2_len(a: Seq<u128>, p: int, table: Seq<u128>, n: int, s: nat)
    ensures
        stages2(a, p, table, n, s).len() == a.len(),
    decreases s,
{
    if s > 0 {
        lemma_stages2_len(a, p, table, n, (s - 1) as nat);
    }
}

/// The position of input `e` of the radix-3 butterfly output `x`.
pub open spec fn b3_pos(x: int, g: int, e: int) -> int {
    let q = x % (3 * g);
    x - q + q % g + e * g
}

/// The factor of input `e` (1 or 2) of the radix-3 butterfly output `x`.
pub open spec fn b3_factor(table: Seq<u128>, n: int, g: int, x: int, e: int) -> int {
    let q = x % (3 * g);
    let r = q % g;
    let k = q / g;
    let stride = n / (3 * g);
    let t = if e == 1 { table[r * stride] as int } else { table[2 * r * stride] as int };
    let w = table[n / 3 * 2 - n / 3] as int;
    let w2 = table[n / 3 * 2] as int;
    if k == 0 {
        t
    } else if k == 1 {
        (if e == 1 { w } else { w2 }) * t
    } else {
        (if e == 1 { w2 } else { w }) * t
    }
}

/// A radix-3 butterfly output is a linear form in three inputs.
proof fn lemma_b3_form(s: Seq<u128>, p: int, table: Seq<u128>, n: int, g: int, x: int)
    requires
        0 < p <= modulus_bound(),
        g >= 1,
        (s.len() as int) % (3 * g) == 0,
        0 <= x < s.len(),
    ensures
        0 <= b3_pos(x, g, 0),
        b3_pos(x, g, 2) < s.len(),
        b3_pos(x, g, 1) == b3_pos(x, g, 0) + g,
        b3_pos(x, g, 2) == b3_pos(x, g, 0) + 2 * g,
        (butterfly3(s, p, table, n, g, x) as int) % p == (s[b3_pos(x, g, 0)] + b3_factor(table, n, g, x, 1)
            * s[b3_pos(x, g, 1)] + b3_factor(table, n, g, x, 2) * s[b3_pos(x, g, 2)]) % p,
        (butterfly3(s, p, table, n, g, x) as int) < p,
{
    let m = 3 * g;
    let q = x % m;
    let r = q % g;
    let k = q / g;
    let j0 = x - q + r;
    lemma_mod_bound(x, m);
    lemma_mod_bound(q, g);
    lemma_fundamental_div_mod(x, m);
    lemma_fundamental_div_mod(q, g);
    assert(x - q == m * (x / m));
    assert(x / m >= 0) by {
        vstd::arithmetic::div_mod::lemma_div_pos_is_pos(x, m);
    }
    assert(j0 % m == r) by {
        assert(r < m);
        assert(j0 == (x / m) * m + r) by (nonlinear_arith)
            requires j0 == x - q + r, x - q == m * (x / m);
        vstd::arithmetic::div_mod::lemma_fundamental_div_mod_converse(j0, m, x / m, r);
    }
    assert(0 <= k < 3) by {
        vstd::arithmetic::div_mod::lemma_div_pos_is_pos(q, g);
        assert(k * g <= q) by (nonlinear_arith)
            requires q == g * k + r, r >= 0;
        assert(k < 3) by (nonlinear_arith)
            requires k * g <= q, q < 3 * g, g >= 1;
    }
    assert(j0 <= x) by (nonlinear_arith)
        requires q == g * k + r, k >= 0, j0 == x - q + r, g >= 1;
    lemma_block_room(j0, m, s.len() as int, 2 * g);
    let stride = n / (3 * g);
    let t1 = table[r * stride] as int;
    let t2 = table[2 * r * stride] as int;
    let w = table[n / 3 * 2 - n / 3] as int;
    let w2 = table[n / 3 * 2] as int;
    let s0 = s[j0] as int;
    let s1 = s[j0 + g] as int;
    let s2 = s[j0 + 2 * g] as int;
    let y = (s[j0 + g] * table[r * stride]) % p;
    let z = (s[j0 + 2 * g] * table[2 * r * stride]) % p;
    assert(y == (s1 * t1) % p && z == (s2 * t2) % p);
    lemma_mod_bound(s1 * t1, p);
    lemma_mod_bound(s2 * t2, p);
    if k == 0 {
        let e = s0 + y + z;
        lemma_mod_bound(e, p);
        lemma_sum3_mod(s0, s1 * t1, s2 * t2, p);
        lemma_sum3_mod(s0, y, z, p);
        lemma_mod_twice(s1 * t1, p);
        lemma_mod_twice(s2 * t2, p);
        lemma_small_mod((e % p) as nat, p as nat);
        assert(s1 * t1 == t1 * s1 && s2 * t2 == t2 * s2) by (nonlinear_arith);
    } else if k == 1 {
        let e = s0 % p + (w * y) % p + (w2 * z) % p;
        lemma_mod_bound(s0, p);
        lemma_mod_bound(w * y, p);
        lemma_mod_bound(w2 * z, p);
        lemma_mod_bound(e, p);
        lemma_scaled_product(w, s1, t1, p);
        lemma_scaled_product(w2, s2, t2, p);
        lemma_sum3_mod(s0, (w * t1) * s1, (w2 * t2) * s2, p);
        lemma_small_mod((e % p) as nat, p as nat);
    } else {
        let e = s0 % p + (w2 * y) % p + (w * z) % p;
        lemma_mod_bound(s0, p);
        lemma_mod_bound(w2 * y, p);
        lemma_mod_bound(w * z, p);
        lemma_mod_bound(e, p);
        lemma_scaled_product(w2, s1, t1, p);
        lemma_scaled_product(w, s2, t2, p);
        lemma_sum3_mod(s0, (w2 * t1) * s1, (w * t2) * s2, p);
        lemma_small_mod((e % p) as nat, p as nat);
    }
}

/// One radix-3 stage keeps entrywise sums modulo `p`.
proof fn lemma_stage3_sum(a: Seq<u128>, b: Seq<u128>, c: Seq<u128>, p: int, table: Seq<u128>, n: int, g: int)
    requires
        0 < p <= modulus_bound(),
        sum_mod(a, b, c, p),
        g >= 1,
        (c.len() as int) % (3 * g) == 0,
    ensures
        sum_mod(stage3(a, p, table, n, g), stage3(b, p, table, n, g), stage3(c, p, table, n, g), p),
{
    let sa = stage3(a, p, table, n, g);
    let sb = stage3(b, p, table, n, g);
    let sc = stage3(c, p, table, n, g);
    assert forall|x: int| 0 <= x < sc.len() implies #[trigger] (sc[x] as int) % p == (sa[x] + sb[x]) % p by {
        lemma_b3_form(a, p, table, n, g, x);
        lemma_b3_form(b, p, table, n, g, x);
        lemma_b3_form(c, p, table, n, g, x);
        let i0 = b3_pos(x, g, 0);
        let i1 = b3_pos(x, g, 1);
        let i2 = b3_pos(x, g, 2);
        let k1 = b3_factor(table, n, g, x, 1);
        let k2 = b3_factor(table, n, g, x, 2);
        lemma_lin3(a[i0] as int, a[i1] as int, a[i2] as int, b[i0] as int, b[i1] as int, b[i2] as int,
            c[i0] as int, c[i1] as int, c[i2] as int, k1, k2, p);
        lemma_add_mod_noop(a[i0] + k1 * a[i1] + k2 * a[i2], b[i0] + k1 * b[i1] + k2 * b[i2], p);
        lemma_small_mod(sa[x] as nat, p as nat);
        lemma_small_mod(sb[x] as nat, p as nat);
    }
}

proof fn lemma_stages3_len(a: Seq<u128>, p: int, table: Seq<u128>, n: int, s: nat)
    ensures
        stages3(a, p, table, n, s).len() == a.len(),
    decreases s,
{
    if s > 0 {
        lemma_stages3_len(a, p, table, n, (s - 1) as nat);
    }
}

/// The radix-3 stages with triples 1, ..., `3^(s-1)` apart keep entrywise
/// sums modulo `p` when `3^s` divides the length.
proof fn lemma_stages3_sum(a: Seq<u128>, b: Seq<u128>, c: Seq<u128>, p: int, table: Seq<u128>, n: int, s: nat)
    requires
        0 < p <= modulus_bound(),
        sum_mod(a, b, c, p),
        (c.len() as int) % (pow3n(s) as int) == 0,
    ensures
        sum_mod(stages3(a, p, table, n, s), stages3(b, p, table, n, s), stages3(c, p, table, n, s), p),
    decreases s,
{
    if s > 0 {
        let g = pow3n((s - 1) as nat) as int;
        crate::ntt::lemma_pow3n_pos((s - 1) as nat);
        assert(pow3n(s) == 3 * g);
        lemma_fundamental_div_mod(c.len() as int, 3 * g);
        assert((c.len() as int) % g == 0) by {
            let q = c.len() as int / (3 * g);
            assert(c.len() == g * (3 * q)) by (nonlinear_arith)
                requires c.len() == (3 * g) * q + 0;
            lemma_mod_multiples_basic(3 * q, g);
            assert((3 * q) * g == g * (3 * q)) by (nonlinear_arith);
        }
        lemma_stages3_sum(a, b, c, p, table, n, (s - 1) as nat);
        let pa = stages3(a, p, table, n, (s - 1) as nat);
        let pb = stages3(b, p, table, n, (s - 1) as nat);
        let pc = stages3(c, p, table, n, (s - 1) as nat);
        lemma_stages3_len(c, p, table, n, (s - 1) as nat);
        lemma_stage3_sum(pa, pb, pc, p, table, n, g);
    }
}

proof fn lemma_swap_fold_len(s: Seq<u128>, f: spec_fn(int) -> int, n: nat)
    requires
        n <= s.len(),
        forall|i: int| 0 <= i < n ==> #[trigger] f(i) > i ==> f(i) < s.len(),
    ensures
        swap_fold(s, f, n).len() == s.len(),
    decreases n,
{
    if n > 0 {
        lemma_swap_fold_len(s, f, (n - 1) as nat);
    }
}

/// Swapping entries by the same rule in three sequences keeps entrywise sums.
proof fn lemma_swap_fold_sum(a: Seq<u128>, b: Seq<u128>, c: Seq<u128>, f: spec_fn(int) -> int, n: nat, p: int)
    requires
        sum_mod(a, b, c, p),
        n <= c.len(),
        forall|i: int| 0 <= i < n ==> #[trigger] f(i) > i ==> f(i) < c.len(),
    ensures
        sum_mod(swap_fold(a, f, n), swap_fold(b, f, n), swap_fold(c, f, n), p),
    decreases n,
{
    if n > 0 {
        lemma_swap_fold_sum(a, b, c, f, (n - 1) as nat, p);
        lemma_swap_fold_len(a, f, (n - 1) as nat);
        lemma_swap_fold_len(b, f, (n - 1) as nat);
        lemma_swap_fold_len(c, f, (n - 1) as nat);
        let ta = swap_fold(a, f, (n - 1) as nat);
        let tb = swap_fold(b, f, (n - 1) as nat);
        let tc = swap_fold(c, f, (n - 1) as nat);
        let i = n - 1;
        let j = f(i);
        if j > i {
            let ua = ta.update(i, ta[j]).update(j, ta[i]);
            let ub = tb.update(i, tb[j]).update(j, tb[i]);
            let uc = tc.update(i, tc[j]).update(j, tc[i]);
            assert forall|x: int| 0 <= x < uc.len() implies #[trigger] (uc[x] as int) % p == (ua[x] + ub[x]) % p by {
                if x == j {
                } else if x == i {
                } else {
                }
            }
        }
    }
}

/// Multiplying by the same factor keeps entrywise sums modulo `p`.
proof fn lemma_scaled_sum(a: Seq<u128>, b: Seq<u128>, c: Seq<u128>, k: int, p: int)
    requires
        0 < p <= modulus_bound(),
        sum_mod(a, b, c, p),
    ensures
        sum_mod(scaled(a, k, p), scaled(b, k, p), scaled(c, k, p), p),
{
    let sa = scaled(a, k, p);
    let sb = scaled(b, k, p);
    let sc = scaled(c, k, p);
    assert forall|x: int| 0 <= x < sc.len() implies #[trigger] (sc[x] as int) % p == (sa[x] + sb[x]) % p by {
        lemma_lin3(0, a[x] as int, 0, 0, b[x] as int, 0, 0, c[x] as int, 0, k, 0, p);
        lemma_mod_bound(a[x] * k, p);
        lemma_mod_bound(b[x] * k, p);
        lemma_mod_bound(c[x] * k, p);
        lemma_mod_twice(c[x] * k, p);
        assert(a[x] * k == k * a[x] && b[x] * k == k * b[x] && c[x] * k == k * c[x]) by (nonlinear_arith);
        lemma_add_mod_noop(k * a[x], k * b[x], p);
    }
}

/// The forward radix-2 transform is additive modulo `p`.
pub proof fn lemma_transform2_additive(a: Seq<u128>, b: Seq<u128>, c: Seq<u128>, p: int, table: Seq<u128>)
    requires
        0 < p <= modulus_bound(),
        sum_mod(a, b, c, p),
        c.len() >= 1,
        c.len() <= usize::MAX,
        is_pow2(c.len()),
    ensures
        sum_mod(transform2_spec(a, p, table), transform2_spec(b, p, table), transform2_spec(c, p, table), p),
{
    let n = c.len();
    crate::ntt::lemma_rev2_in_range(n as usize);
    let f = rev2_target(n as usize);
    assert forall|i: int| 0 <= i < n && #[trigger] f(i) > i implies f(i) < n by {
        assert(f(i) < n);
    }
    lemma_swap_fold_sum(a, b, c, f, n, p);
    lemma_swap_fold_len(c, f, n);
    let k = choose|k: nat| pow2n(k) == n;
    crate::ntt::lemma_log2_pow2n(k);
    lemma_mod_multiples_basic(1, n as int);
    lemma_stages2_sum(swap_fold(a, f, n), swap_fold(b, f, n), swap_fold(c, f, n), p, table, n as int, log2(n));
}

/// The inverse radix-2 transform is additive modulo `p`.
pub proof fn lemma_inverse2_additive(a: Seq<u128>, b: Seq<u128>, c: Seq<u128>, p: int, table: Seq<u128>)
    requires
        0 < p <= modulus_bound(),
        sum_mod(a, b, c, p),
        c.len() >= 1,
        c.len() <= usize::MAX,
        is_pow2(c.len()),
    ensures
        sum_mod(inverse2_spec(a, p, table), inverse2_spec(b, p, table), inverse2_spec(c, p, table), p),
{
    let n = c.len();
    let w = modpow_value(table[1] as int, (p - 2) as nat, p);
    let t = power_table(w, n, p);
    lemma_transform2_additive(a, b, c, p, t);
    lemma_scaled_sum(transform2_spec(a, p, t), transform2_spec(b, p, t), transform2_spec(c, p, t),
        modpow_value(n as int, (p - 2) as nat, p), p);
}

/// The forward radix-3 transform is additive modulo `p`.
pub proof fn lemma_transform3_additive(a: Seq<u128>, b: Seq<u128>, c: Seq<u128>, p: int, table: Seq<u128>)
    requires
        0 < p <= modulus_bound(),
        sum_mod(a, b, c, p),
        c.len() >= 1,
        c.len() <= usize::MAX,
        is_pow3(c.len()),
    ensures
        sum_mod(transform3_spec(a, p, table), transform3_spec(b, p, table), transform3_spec(c, p, table), p),
{
    let n = c.len();
    crate::ntt::lemma_pow3_reversal(n);
    let f = rev3_target(n);
    assert forall|i: int| 0 <= i < n && #[trigger] f(i) > i implies f(i) < n by {
        assert(f(i) == crate::ntt::rev3(i as nat, crate::packed::trigit_count((n - 1) as nat)) as int);
    }
    lemma_swap_fold_sum(a, b, c, f, n, p);
    lemma_swap_fold_len(c, f, n);
    let k = choose|k: nat| pow3n(k) == n;
    crate::ntt::lemma_log3_pow3n(k);
    lemma_mod_multiples_basic(1, n as int);
    lemma_stages3_sum(swap_fold(a, f, n), swap_fold(b, f, n), swap_fold(c, f, n), p, table, n as int, log3(n));
}

proof fn lemma_pad_sum(a: Seq<u128>, b: Seq<u128>, c: Seq<u128>, n: nat, p: int)
    requires
        p > 0,
        sum_mod(a, b, c, p),
    ensures
        sum_mod(pad_zeros(a, n), pad_zeros(b, n), pad_zeros(c, n), p),
{
    let pa = pad_zeros(a, n);
    let pb = pad_zeros(b, n);
    let pc = pad_zeros(c, n);
    assert forall|x: int| 0 <= x < pc.len() implies #[trigger] (pc[x] as int) % p == (pa[x] + pb[x]) % p by {
        if x >= c.len() {
            assert(pa[x] == 0 && pb[x] == 0 && pc[x] == 0);
        }
    }
}

proof fn lemma_inverse2_len(a: Seq<u128>, p: int, table: Seq<u128>)
    requires
        a.len() >= 1,
        a.len() <= usize::MAX,
    ensures
        inverse2_spec(a, p, table).len() == a.len(),
{
    let n = a.len();
    let w = modpow_value(table[1] as int, (p - 2) as nat, p);
    let t = power_table(w, n, p);
    crate::ntt::lemma_rev2_in_range(n as usize);
    let f = rev2_target(n as usize);
    assert forall|i: int| 0 <= i < n && #[trigger] f(i) > i implies f(i) < n by {
        assert(f(i) < n);
    }
    lemma_swap_fold_len(a, f, n);
    lemma_stages2_len(swap_fold(a, f, n), p, t, n as int, log2(n));
}

/// Every entry of the transform of entries below `p` is below `p`.
proof fn lemma_shares_below(pss: PackedSecretSharing<u128>, secrets: Seq<u64>, randomness: Seq<u64>)
    requires
        pss.wf(),
        is_pow3(pss.degree3_spec() as nat),
        pss.prime_spec() >= 2,
        secrets.len() + randomness.len() == pss.degree2_spec(),
        pss.degree2_spec() >= 1,
    ensures
        forall|i: int| 0 <= i < pss.degree3_spec() ==> #[trigger] transform3_spec(pad_zeros(inverse2_spec(
            widen(secrets + randomness), pss.prime_spec() as int, pss.table2_spec()), pss.degree3_spec() as nat),
            pss.prime_spec() as int, pss.table3_spec())[i] < pss.prime_spec(),
        transform3_spec(pad_zeros(inverse2_spec(widen(secrets + randomness), pss.prime_spec() as int,
            pss.table2_spec()), pss.degree3_spec() as nat), pss.prime_spec() as int, pss.table3_spec()).len()
            == pss.degree3_spec(),
{
    let p = pss.prime_spec() as int;
    let v = widen(secrets + randomness);
    let inv = inverse2_spec(v, p, pss.table2_spec());
    let w = modpow_value(pss.table2_spec()[1] as int, (p - 2) as nat, p);
    let t = power_table(w, v.len(), p);
    let tt = transform2_spec(v, p, t);
    let cc = modpow_value(v.len() as int, (p - 2) as nat, p);
    assert(inv == scaled(tt, cc, p));
    crate::ntt::lemma_scaled_below(inv, p);
    let padded = pad_zeros(inv, pss.degree3_spec() as nat);
    let d3 = pss.degree3_spec() as nat;
    assert(d3 >= 1) by {
        let kk = choose|kk: nat| pow3n(kk) == d3;
        crate::ntt::lemma_pow3n_pos(kk);
    }
    assert(crate::ntt::all_below(padded, p)) by {
        assert forall|z: int| 0 <= z < padded.len() implies #[trigger] padded[z] < p by {
            if z >= inv.len() {
                assert(padded[z] == 0);
            }
        }
    }
    lemma_inverse2_len(v, p, pss.table2_spec());
    assert(padded.len() == d3);
    crate::ntt::lemma_transform3_below(padded, p, pss.table3_spec());
    assert(transform3_spec(padded, p, pss.table3_spec()).len() == d3) by {
        crate::ntt::lemma_pow3_reversal(d3);
        lemma_swap_fold_len(padded, rev3_target(d3), d3);
        lemma_stages3_len(swap_fold(padded, rev3_target(d3), d3), p, pss.table3_spec(), d3 as int, log3(d3));
    }
}

/// Sharing is additive: when the secrets and the randomness of one sharing
/// are the entrywise sums, modulo the prime, of those of two others, each of
/// its shares is the sum modulo the prime of the two corresponding shares.
pub proof fn lemma_shares_additive(pss: PackedSecretSharing<u128>, s1: Seq<u64>, r1: Seq<u64>, s2: Seq<u64>,
    r2: Seq<u64>, s: Seq<u64>, r: Seq<u64>)
    requires
        pss.wf(),
        pss.degree2_spec() >= 2,
        is_pow2(pss.degree2_spec() as nat),
        is_pow3(pss.degree3_spec() as nat),
        pss.prime_spec() >= 2,
        s1.len() == pss.num_secrets_spec(),
        s2.len() == s1.len(),
        s.len() == s1.len(),
        r1.len() == pss.degree2_spec() - pss.num_secrets_spec(),
        r2.len() == r1.len(),
        r.len() == r1.len(),
        forall|i: int| 0 <= i < s.len() ==> (#[trigger] s[i] as int) % (pss.prime_spec() as int)
            == (s1[i] + s2[i]) % (pss.prime_spec() as int),
        forall|i: int| 0 <= i < r.len() ==> (#[trigger] r[i] as int) % (pss.prime_spec() as int)
            == (r1[i] + r2[i]) % (pss.prime_spec() as int),
    ensures
        shares_spec(pss, s, r).len() == pss.num_shares_spec(),
        forall|i: int| 0 <= i < pss.num_shares_spec() ==> #[trigger] shares_spec(pss, s, r)[i] as int
            == (shares_spec(pss, s1, r1)[i] + shares_spec(pss, s2, r2)[i]) % (pss.prime_spec() as int),
{
    let p = pss.prime_spec() as int;
    let v1 = widen(s1 + r1);
    let v2 = widen(s2 + r2);
    let v = widen(s + r);
    assert(sum_mod(v1, v2, v, p)) by {
        assert forall|x: int| 0 <= x < v.len() implies #[trigger] (v[x] as int) % p == (v1[x] + v2[x]) % p by {
            if x < s.len() {
                assert(v[x] == s[x] && v1[x] == s1[x] && v2[x] == s2[x]);
            } else {
                assert(v[x] == r[x - s.len()] && v1[x] == r1[x - s.len()] && v2[x] == r2[x - s.len()]);
            }
        }
    }
    let t2 = pss.table2_spec();
    let t3 = pss.table3_spec();
    let d3 = pss.degree3_spec() as nat;
    lemma_inverse2_additive(v1, v2, v, p, t2);
    let i1 = inverse2_spec(v1, p, t2);
    let i2 = inverse2_spec(v2, p, t2);
    let iv = inverse2_spec(v, p, t2);
    lemma_pad_sum(i1, i2, iv, d3, p);
    assert(d3 >= 1) by {
        let kk = choose|kk: nat| pow3n(kk) == d3;
        crate::ntt::lemma_pow3n_pos(kk);
    }
    assert(pad_zeros(iv, d3).len() == d3) by {
        lemma_inverse2_len(v, p, t2);
        assert(iv.len() == v.len());
        assert(v.len() <= d3);
    }
    lemma_transform3_additive(pad_zeros(i1, d3), pad_zeros(i2, d3), pad_zeros(iv, d3), p, t3);
    lemma_shares_below(pss, s1, r1);
    lemma_shares_below(pss, s2, r2);
    lemma_shares_below(pss, s, r);
    let f1 = transform3_spec(pad_zeros(i1, d3), p, t3);
    let f2 = transform3_spec(pad_zeros(i2, d3), p, t3);
    let f = transform3_spec(pad_zeros(iv, d3), p, t3);
    let ns = pss.num_shares_spec() as int;
    assert forall|i: int| 0 <= i < ns implies #[trigger] shares_spec(pss, s, r)[i] as int
        == (shares_spec(pss, s1, r1)[i] + shares_spec(pss, s2, r2)[i]) % p by {
        assert(f[i] < p && f1[i] < p && f2[i] < p);
        assert(shares_spec(pss, s, r)[i] == f[i] as u64);
        assert(shares_spec(pss, s1, r1)[i] == f1[i] as u64);
        assert(shares_spec(pss, s2, r2)[i] == f2[i] as u64);
        lemma_small_mod(f[i] as nat, p as nat);
    }
}

/// The Lagrange sums are additive in the values modulo `p`.
proof fn lemma_lagrange_sum_additive(xs: Seq<u128>, ys1: Seq<u128>, ys2: Seq<u128>, ys: Seq<u128>, x: int, n: nat,
    p: int)
    requires
        0 < p,
        n <= xs.len(),
        ys1.len() == xs.len(),
        ys2.len() == xs.len(),
        ys.len() == xs.len(),
        forall|i: int| 0 <= i < ys.len() ==> (#[trigger] ys[i] as int) % p == (ys1[i] + ys2[i]) % p,
    ensures
        lagrange_sum(xs, ys, x, n, p) % p == (lagrange_sum(xs, ys1, x, n, p) + lagrange_sum(xs, ys2, x, n, p)) % p,
    decreases n,
{
    if n > 0 {
        let i = n - 1;
        lemma_lagrange_sum_additive(xs, ys1, ys2, ys, x, (n - 1) as nat, p);
        let k = (prod_except(xs, x, i, xs.len(), p) * lagrange_denominator(xs, i, p)) % p;
        lemma_lin3(0, ys1[i] as int, 0, 0, ys2[i] as int, 0, 0, ys[i] as int, 0, k, 0, p);
        assert(lagrange_term(xs, ys, x, i, p) == (k * ys[i]) % p);
        assert(lagrange_term(xs, ys1, x, i, p) == (k * ys1[i]) % p);
        assert(lagrange_term(xs, ys2, x, i, p) == (k * ys2[i]) % p);
        lemma_mod_twice(k * ys[i], p);
        lemma_mod_twice(k * ys1[i], p);
        lemma_mod_twice(k * ys2[i], p);
        lemma_add_mod_noop(k * ys1[i], k * ys2[i], p);
        let a0 = lagrange_sum(xs, ys1, x, (n - 1) as nat, p);
        let b0 = lagrange_sum(xs, ys2, x, (n - 1) as nat, p);
        let c0 = lagrange_sum(xs, ys, x, (n - 1) as nat, p);
        let a1 = lagrange_term(xs, ys1, x, i, p);
        let b1 = lagrange_term(xs, ys2, x, i, p);
        let c1 = lagrange_term(xs, ys, x, i, p);
        assert(c1 % p == (a1 + b1) % p);
        lemma_lin3(a0, a1, 0, b0, b1, 0, c0, c1, 0, 1, 0, p);
    }
}

/// Interpolation is additive in the values: interpolating the entrywise
/// sums, modulo `p`, of two value vectors gives, at every point, the sum
/// modulo `p` of the two interpolations.
pub proof fn lemma_lagrange_additive(xs: Seq<u128>, ys1: Seq<u128>, ys2: Seq<u128>, ys: Seq<u128>, roots: Seq<u128>,
    p: int)
    requires
        0 < p <= modulus_bound(),
        ys1.len() == xs.len(),
        ys2.len() == xs.len(),
        ys.len() == xs.len(),
        forall|i: int| 0 <= i < ys.len() ==> (#[trigger] ys[i] as int) % p == (ys1[i] + ys2[i]) % p,
    ensures
        forall|k: int| 0 <= k < roots.len() ==> #[trigger] lagrange_spec(xs, ys, roots, p)[k] as int
            == (lagrange_spec(xs, ys1, roots, p)[k] + lagrange_spec(xs, ys2, roots, p)[k]) % p,
{
    assert forall|k: int| 0 <= k < roots.len() implies #[trigger] lagrange_spec(xs, ys, roots, p)[k] as int
        == (lagrange_spec(xs, ys1, roots, p)[k] + lagrange_spec(xs, ys2, roots, p)[k]) % p by {
        let x = roots[k] as int;
        lemma_lagrange_sum_additive(xs, ys1, ys2, ys, x, xs.len(), p);
        let a = lagrange_sum(xs, ys1, x, xs.len(), p);
        let b = lagrange_sum(xs, ys2, x, xs.len(), p);
        let c = lagrange_sum(xs, ys, x, xs.len(), p);
        lemma_mod_bound(a, p);
        lemma_mod_bound(b, p);
        lemma_mod_bound(c, p);
        lemma_add_mod_noop(a, b, p);
    }
}

} // verus!
