//! Finite sums of integer terms and congruences modulo a number.
use vstd::prelude::*;
use vstd::arithmetic::div_mod::{lemma_add_mod_noop, lemma_sub_mod_noop, lemma_mul_mod_noop, lemma_mod_twice,
    lemma_small_mod, lemma_mod_bound};
use vstd::arithmetic::mul::lemma_mul_is_distributive_add;

verus! {

/// `f(0) + f(1) + ... + f(n - 1)`.
pub open spec fn sum_to(f: spec_fn(int) -> int, n: nat) -> int
    decreases n,
{
    if n == 0 {
        0
    } else {
        sum_to(f, (n - 1) as nat) + f(n - 1)
    }
}

pub proof fn lemma_sum_ext(f: spec_fn(int) -> int, g: spec_fn(int) -> int, n: nat)
    requires
        forall|t: int| 0 <= t < n ==> #[trigger] f(t) == g(t),
    ensures
        sum_to(f, n) == sum_to(g, n),
    decreases n,
{
    if n > 0 {
        lemma_sum_ext(f, g, (n - 1) as nat);
    }
}

pub proof fn lemma_sum_add(f: spec_fn(int) -> int, g: spec_fn(int) -> int, h: spec_fn(int) -> int, n: nat)
    requires
        forall|t: int| 0 <= t < n ==> #[trigger] h(t) == f(t) + g(t),
    ensures
        sum_to(h, n) == sum_to(f, n) + sum_to(g, n),
    decreases n,
{
    if n > 0 {
        lemma_sum_add(f, g, h, (n - 1) as nat);
    }
}

/// A constant factor comes out of a sum.
pub proof fn lemma_sum_scale(f: spec_fn(int) -> int, g: spec_fn(int) -> int, c: int, n: nat)
    requires
        forall|t: int| 0 <= t < n ==> #[trigger] g(t) == c * f(t),
    ensures
        sum_to(g, n) == c * sum_to(f, n),
    decreases n,
{
    if n > 0 {
        lemma_sum_scale(f, g, c, (n - 1) as nat);
        lemma_mul_is_distributive_add(c, sum_to(f, (n - 1) as nat), f(n - 1));
    }
}

pub proof fn lemma_sum_cong(f: spec_fn(int) -> int, g: spec_fn(int) -> int, n: nat, p: int)
    requires
        p > 0,
        forall|t: int| 0 <= t < n ==> #[trigger] f(t) % p == g(t) % p,
    ensures
        sum_to(f, n) % p == sum_to(g, n) % p,
    decreases n,
{
    if n > 0 {
        lemma_sum_cong(f, g, (n - 1) as nat, p);
        let a = sum_to(f, (n - 1) as nat);
        let b = sum_to(g, (n - 1) as nat);
        lemma_add_mod_noop(a, f(n - 1), p);
        lemma_add_mod_noop(b, g(n - 1), p);
    }
}

/// Terms past `n1` that vanish leave a sum unchanged.
pub proof fn lemma_sum_zero_tail(f: spec_fn(int) -> int, n1: nat, n2: nat)
    requires
        n1 <= n2,
        forall|t: int| n1 <= t < n2 ==> #[trigger] f(t) == 0,
    ensures
        sum_to(f, n2) == sum_to(f, n1),
    decreases n2,
{
    if n2 > n1 {
        lemma_sum_zero_tail(f, n1, (n2 - 1) as nat);
    }
}

pub proof fn lemma_sum_ones(f: spec_fn(int) -> int, n: nat, p: int)
    requires
        p > 0,
        forall|t: int| 0 <= t < n ==> #[trigger] f(t) % p == 1int % p,
    ensures
        sum_to(f, n) % p == (n as int) % p,
    decreases n,
{
    if n > 0 {
        lemma_sum_ones(f, (n - 1) as nat, p);
        lemma_cong_add(sum_to(f, (n - 1) as nat), (n - 1) as int, f(n - 1), 1, p);
    }
}

/// A sum whose terms other than the one at `j` vanish modulo `p`.
pub proof fn lemma_sum_single(f: spec_fn(int) -> int, j: int, n: nat, p: int)
    requires
        p > 0,
        0 <= j < n,
        forall|t: int| 0 <= t < n && t != j ==> #[trigger] f(t) % p == 0,
    ensures
        sum_to(f, n) % p == f(j) % p,
{
    lemma_sum_single_upto(f, j, n, n, p);
}

proof fn lemma_sum_single_upto(f: spec_fn(int) -> int, j: int, n: nat, i: nat, p: int)
    requires
        p > 0,
        0 <= j < n,
        i <= n,
        forall|t: int| 0 <= t < n && t != j ==> #[trigger] f(t) % p == 0,
    ensures
        sum_to(f, i) % p == if j < i { f(j) % p } else { 0 },
    decreases i,
{
    if i > 0 {
        lemma_sum_single_upto(f, j, n, (i - 1) as nat, p);
        let prev = sum_to(f, (i - 1) as nat);
        lemma_add_mod_noop(prev, f(i - 1), p);
        lemma_mod_twice(f(j), p);
        lemma_small_mod(0, p as nat);
        lemma_mod_bound(f(j), p);
    } else {
        lemma_small_mod(0, p as nat);
    }
}

pub proof fn lemma_sum_shift(f: spec_fn(int) -> int, g: spec_fn(int) -> int, n: nat)
    requires
        forall|i: int| 0 <= i < n ==> #[trigger] g(i) == f(i + 1),
    ensures
        sum_to(f, n + 1) == f(0) + sum_to(g, n),
    decreases n,
{
    if n > 0 {
        lemma_sum_shift(f, g, (n - 1) as nat);
        assert((n + 1 - 1) as nat == n);
        assert(g(n - 1) == f(n as int));
    } else {
        assert(sum_to(f, 1) == sum_to(f, 0) + f(0));
    }
}

/// A sum over `2m` terms is the sum over the even ones plus the sum over the odd ones.
pub proof fn lemma_sum_parity(f: spec_fn(int) -> int, e: spec_fn(int) -> int, o: spec_fn(int) -> int, m: nat)
    requires
        forall|t: int| 0 <= t < m ==> #[trigger] e(t) == f(2 * t),
        forall|t: int| 0 <= t < m ==> #[trigger] o(t) == f(2 * t + 1),
    ensures
        sum_to(f, 2 * m) == sum_to(e, m) + sum_to(o, m),
    decreases m,
{
    if m > 0 {
        lemma_sum_parity(f, e, o, (m - 1) as nat);
        assert(sum_to(f, 2 * m) == sum_to(f, (2 * m - 1) as nat) + f(2 * m - 1));
        assert(sum_to(f, (2 * m - 1) as nat) == sum_to(f, (2 * m - 2) as nat) + f(2 * m - 2));
        assert((2 * m - 2) as nat == 2 * ((m - 1) as nat));
        assert(e(m - 1) == f(2 * (m - 1)));
        assert(o(m - 1) == f(2 * (m - 1) + 1));
    }
}

/// A sum over `2h` terms is the sum over the first `h` plus the sum over the last `h`.
pub proof fn lemma_sum_halves(f: spec_fn(int) -> int, g: spec_fn(int) -> int, h: nat)
    requires
        forall|t: int| 0 <= t < h ==> #[trigger] g(t) == f(t + h),
    ensures
        sum_to(f, 2 * h) == sum_to(f, h) + sum_to(g, h),
{
    lemma_sum_halves_upto(f, g, h, h);
}

proof fn lemma_sum_halves_upto(f: spec_fn(int) -> int, g: spec_fn(int) -> int, h: nat, i: nat)
    requires
        i <= h,
        forall|t: int| 0 <= t < h ==> #[trigger] g(t) == f(t + h),
    ensures
        sum_to(f, h + i) == sum_to(f, h) + sum_to(g, i),
    decreases i,
{
    if i > 0 {
        lemma_sum_halves_upto(f, g, h, (i - 1) as nat);
        assert(g(i - 1) == f(i - 1 + h));
        assert((h + i - 1) as nat == h + (i - 1) as nat);
    }
}

/// Exchanging the order of a double sum.
pub proof fn lemma_sum_swap(F: spec_fn(int, int) -> int, n: nat, m: nat)
    ensures
        sum_to(|k: int| sum_to(|i: int| F(i, k), n), m) == sum_to(|i: int| sum_to(|k: int| F(i, k), m), n),
    decreases m,
{
    if m == 0 {
        let z = |i: int| sum_to(|k: int| F(i, k), 0);
        let zero = |i: int| 0int;
        lemma_sum_scale(zero, z, 0, n);
    } else {
        lemma_sum_swap(F, n, (m - 1) as nat);
        let prev = |i: int| sum_to(|k: int| F(i, k), (m - 1) as nat);
        let last = |i: int| F(i, m - 1);
        let cur = |i: int| sum_to(|k: int| F(i, k), m);
        lemma_sum_add(prev, last, cur, n);
    }
}

pub proof fn lemma_cong_add(a: int, b: int, c: int, d: int, p: int)
    requires
        p > 0,
        a % p == b % p,
        c % p == d % p,
    ensures
        (a + c) % p == (b + d) % p,
{
    lemma_add_mod_noop(a, c, p);
    lemma_add_mod_noop(b, d, p);
}

pub proof fn lemma_cong_sub(a: int, b: int, c: int, d: int, p: int)
    requires
        p > 0,
        a % p == b % p,
        c % p == d % p,
    ensures
        (a - c) % p == (b - d) % p,
{
    lemma_sub_mod_noop(a, c, p);
    lemma_sub_mod_noop(b, d, p);
}

pub proof fn lemma_cong_mul(a: int, b: int, c: int, d: int, p: int)
    requires
        p > 0,
        a % p == b % p,
        c % p == d % p,
    ensures
        (a * c) % p == (b * d) % p,
{
    lemma_mul_mod_noop(a, c, p);
    lemma_mul_mod_noop(b, d, p);
}

pub proof fn lemma_cong_mod(a: int, p: int)
    requires
        p > 0,
    ensures
        (a % p) % p == a % p,
{
    lemma_mod_twice(a, p);
}


/// `f(0) f(1) ... f(n - 1)`.
pub open spec fn prod_to(f: spec_fn(int) -> int, n: nat) -> int
    decreases n,
{
    if n == 0 {
        1
    } else {
        prod_to(f, (n - 1) as nat) * f(n - 1)
    }
}

/// `perm` is a permutation of `0..n`: it has `n` entries, all below `n`,
/// none twice.
pub open spec fn is_permutation(perm: Seq<int>, n: nat) -> bool {
    &&& perm.len() == n
    &&& forall|i: int| 0 <= i < n ==> 0 <= #[trigger] perm[i] < n
    &&& forall|i: int, j: int| 0 <= i < n && 0 <= j < n && i != j ==> perm[i] != perm[j]
}

/// Every number below `n` is taken by a permutation of `0..n`.
pub proof fn lemma_permutation_onto(perm: Seq<int>, n: nat, k: int)
    requires
        is_permutation(perm, n),
        0 <= k < n,
    ensures
        exists|i: int| 0 <= i < n && perm[i] == k,
{
    assert(perm.no_duplicates());
    perm.unique_seq_to_set();
    let r = vstd::set_lib::set_int_range(0, n as int);
    vstd::set_lib::lemma_int_range(0, n as int);
    assert forall|v: int| perm.to_set().contains(v) implies r.contains(v) by {
        let i = choose|i: int| 0 <= i < perm.len() && perm[i] == v;
    }
    vstd::set_lib::lemma_len_subset(perm.to_set(), r);
    vstd::set_lib::lemma_subset_equality(perm.to_set(), r);
    assert(r.contains(k));
    assert(perm.to_set().contains(k));
}

/// Taking a permutation of `0..n` to `0..n-1`: the entry `n - 1`, at `k`,
/// is replaced by the last entry, which is dropped.
proof fn lemma_permutation_shrink(perm: Seq<int>, n: nat, k: int) -> (q: Seq<int>)
    requires
        n >= 1,
        is_permutation(perm, n),
        0 <= k < n,
        perm[k] == n - 1,
    ensures
        is_permutation(q, (n - 1) as nat),
        forall|i: int| 0 <= i < n - 1 ==> #[trigger] q[i] == if i == k { perm[n - 1] } else { perm[i] },
{
    let q = Seq::new((n - 1) as nat, |i: int| if i == k { perm[n - 1] } else { perm[i] });
    assert forall|i: int| 0 <= i < n - 1 implies 0 <= #[trigger] q[i] < n - 1 by {
        if i == k {
            assert(perm[n - 1] != perm[k]);
        } else {
            assert(perm[i] != perm[k]);
        }
    }
    q
}

/// Two sums that differ in one term differ by that term's difference.
proof fn lemma_sum_one_differs(f: spec_fn(int) -> int, g: spec_fn(int) -> int, n: nat, k: int)
    requires
        0 <= k < n,
        forall|i: int| 0 <= i < n && i != k ==> #[trigger] f(i) == g(i),
    ensures
        sum_to(f, n) - f(k) == sum_to(g, n) - g(k),
    decreases n,
{
    if n - 1 > k {
        lemma_sum_one_differs(f, g, (n - 1) as nat, k);
    } else {
        lemma_sum_ext(f, g, (n - 1) as nat);
    }
}

/// Two products that differ in one factor, cross-multiplied by the other
/// one's factor, agree.
proof fn lemma_prod_one_differs(f: spec_fn(int) -> int, g: spec_fn(int) -> int, n: nat, k: int)
    requires
        0 <= k < n,
        forall|i: int| 0 <= i < n && i != k ==> #[trigger] f(i) == g(i),
    ensures
        prod_to(f, n) * g(k) == prod_to(g, n) * f(k),
    decreases n,
{
    if n - 1 > k {
        lemma_prod_one_differs(f, g, (n - 1) as nat, k);
        let a = prod_to(f, (n - 1) as nat);
        let b = prod_to(g, (n - 1) as nat);
        let c = f(n - 1);
        assert(a * g(k) == b * f(k));
        assert((a * c) * g(k) == (b * c) * f(k)) by (nonlinear_arith)
            requires a * g(k) == b * f(k);
    } else {
        lemma_prod_ext(f, g, (n - 1) as nat);
        let a = prod_to(f, (n - 1) as nat);
        assert((a * f(k)) * g(k) == (a * g(k)) * f(k)) by (nonlinear_arith);
    }
}

pub proof fn lemma_prod_ext(f: spec_fn(int) -> int, g: spec_fn(int) -> int, n: nat)
    requires
        forall|t: int| 0 <= t < n ==> #[trigger] f(t) == g(t),
    ensures
        prod_to(f, n) == prod_to(g, n),
    decreases n,
{
    if n > 0 {
        lemma_prod_ext(f, g, (n - 1) as nat);
    }
}

/// Reordering the terms of a sum leaves it unchanged.
pub proof fn lemma_sum_permute(f: spec_fn(int) -> int, g: spec_fn(int) -> int, perm: Seq<int>, n: nat)
    requires
        is_permutation(perm, n),
        forall|i: int| 0 <= i < n ==> #[trigger] g(i) == f(perm[i]),
    ensures
        sum_to(g, n) == sum_to(f, n),
    decreases n,
{
    if n > 0 {
        lemma_permutation_onto(perm, n, n - 1);
        let k = choose|i: int| 0 <= i < n && perm[i] == n - 1;
        let q = lemma_permutation_shrink(perm, n, k);
        let g2 = |i: int| f(q[i]);
        lemma_sum_permute(f, g2, q, (n - 1) as nat);
        if k < n - 1 {
            lemma_sum_one_differs(g, g2, (n - 1) as nat, k);
        } else {
            lemma_sum_ext(g, g2, (n - 1) as nat);
        }
    }
}

/// Reordering the factors of a product leaves it unchanged.
pub proof fn lemma_prod_permute(f: spec_fn(int) -> int, g: spec_fn(int) -> int, perm: Seq<int>, n: nat)
    requires
        is_permutation(perm, n),
        forall|i: int| 0 <= i < n ==> #[trigger] g(i) == f(perm[i]),
    ensures
        prod_to(g, n) == prod_to(f, n),
    decreases n,
{
    if n > 0 {
        lemma_permutation_onto(perm, n, n - 1);
        let k = choose|i: int| 0 <= i < n && perm[i] == n - 1;
        let q = lemma_permutation_shrink(perm, n, k);
        let g2 = |i: int| f(q[i]);
        lemma_prod_permute(f, g2, q, (n - 1) as nat);
        if k < n - 1 {
            lemma_prod_one_differs(g, g2, (n - 1) as nat, k);
            let a = prod_to(g, (n - 1) as nat);
            let b = prod_to(f, (n - 1) as nat);
            assert(a * f(perm[n - 1]) == b * f(n - 1));
        } else {
            lemma_prod_ext(g, g2, (n - 1) as nat);
        }
    }
}

} // verus!
