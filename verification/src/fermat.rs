//! Fermat's little theorem: modulo a prime `p`, raising a number that `p`
//! does not divide to the power `p - 2` gives its inverse.
use vstd::prelude::*;
use crate::sums::{lemma_cong_add, lemma_cong_mul, lemma_cong_sub, lemma_sum_add, lemma_sum_scale, lemma_sum_shift, sum_to};
use vstd::arithmetic::power::{pow, lemma_pow0, lemma_pow1, lemma_pow_adds, lemma_pow_mod_noop};
use vstd::arithmetic::div_mod::{
    lemma_fundamental_div_mod, lemma_mod_bound, lemma_small_mod, lemma_mod_twice, lemma_mod_multiples_vanish,
};
use crate::modpow::modpow_value;
use crate::util::pow2n;
use crate::ntt::is_pow2;

verus! {

/// `p` is a prime number.
pub open spec fn is_prime(p: int) -> bool {
    &&& p > 1
    &&& forall|d: int| 1 < d < p ==> #[trigger] (p % d) != 0
}

/// Euclid's lemma: a prime that divides `a b` with `0 < a < p` divides `b`.
pub proof fn lemma_euclid(p: int, a: int, b: int)
    requires
        is_prime(p),
        0 < a < p,
        (a * b) % p == 0,
    ensures
        b % p == 0,
    decreases a,
{
    if a == 1 {
        assert(1 * b == b);
    } else {
        let q = p / a;
        let r = p % a;
        lemma_fundamental_div_mod(p, a);
        assert(r != 0);
        lemma_mod_bound(p, a);
        // r b = p b - q (a b), a multiple of p
        assert(r * b == p * b - q * (a * b)) by (nonlinear_arith)
            requires p == a * q + r;
        lemma_small_mod(0, p as nat);
        lemma_cong_mul(q, q, a * b, 0, p);
        assert(q * 0 == 0);
        assert(p * b == p * b + 0);
        lemma_mod_multiples_vanish(b, 0, p);
        lemma_cong_sub(p * b, 0, q * (a * b), 0, p);
        lemma_euclid(p, r, b);
    }
}

/// A product of two numbers that a prime does not divide is not divisible by it.
pub proof fn lemma_prime_product_nonzero(p: int, a: int, b: int)
    requires
        is_prime(p),
        a % p != 0,
        b % p != 0,
    ensures
        (a * b) % p != 0,
{
    if (a * b) % p == 0 {
        let a1 = a % p;
        lemma_mod_bound(a, p);
        lemma_small_mod(0, p as nat);
        lemma_mod_twice(a, p);
        lemma_cong_mul(a, a1, b, b, p);
        assert(a1 != 0);
        lemma_euclid(p, a1, b);
    }
}

// ---------------------------------------------------------------------------
// Binomial coefficients
// ---------------------------------------------------------------------------

/// The binomial coefficient `n` choose `k`, by Pascal's rule.
pub open spec fn binom(n: nat, k: int) -> int
    decreases n,
{
    if k < 0 || k > n {
        0
    } else if n == 0 {
        1
    } else {
        binom((n - 1) as nat, k - 1) + binom((n - 1) as nat, k)
    }
}

proof fn lemma_binom_ends(n: nat)
    ensures
        binom(n, 0) == 1,
        binom(n, n as int) == 1,
    decreases n,
{
    if n > 0 {
        lemma_binom_ends((n - 1) as nat);
        assert(binom((n - 1) as nat, -1) == 0);
        assert(binom((n - 1) as nat, n as int) == 0);
    }
}

/// `k C(n, k) = n C(n - 1, k - 1)`.
proof fn lemma_binom_absorb(n: nat, k: int)
    requires
        n >= 1,
    ensures
        k * binom(n, k) == n * binom((n - 1) as nat, k - 1),
    decreases n,
{
    if k < 0 || k > n {
        assert(k * 0 == 0);
        assert(n * 0 == 0);
    } else if k == 0 {
        assert(0 * binom(n, k) == 0);
        assert(n * 0 == 0);
    } else if n == 1 {
        assert(k == 1);
        lemma_binom_ends(1);
        lemma_binom_ends(0);
    } else {
        // C(n, k) = C(n-1, k-1) + C(n-1, k)
        lemma_binom_absorb((n - 1) as nat, k - 1);
        lemma_binom_absorb((n - 1) as nat, k);
        let a = binom((n - 1) as nat, k - 1);
        let b = binom((n - 1) as nat, k);
        let c = binom((n - 2) as nat, k - 2);
        let d = binom((n - 2) as nat, k - 1);
        assert(((n - 1) - 1) as nat == (n - 2) as nat);
        assert((k - 1) * a == (n - 1) * c);
        assert(k * b == (n - 1) * d);
        assert(binom((n - 1) as nat, k - 1) == c + d) by {
            if k - 1 > n - 1 {
                assert(false);
            }
        }
        assert(k * (a + b) == n * a) by (nonlinear_arith)
            requires (k - 1) * a == (n - 1) * c, k * b == (n - 1) * d, a == c + d;
    }
}

/// A prime divides `C(p, k)` for `0 < k < p`.
proof fn lemma_prime_divides_binom(p: int, k: int)
    requires
        is_prime(p),
        0 < k < p,
    ensures
        binom(p as nat, k) % p == 0,
{
    lemma_binom_absorb(p as nat, k);
    let b = binom((p - 1) as nat, k - 1);
    assert(p * b == b * p + 0) by (nonlinear_arith);
    lemma_mod_multiples_vanish(b, 0, p);
    lemma_small_mod(0, p as nat);
    assert(p * b == p * b + 0);
    lemma_mod_multiples_vanish(b, 0, p);
    lemma_euclid(p, k, binom(p as nat, k));
}

/// The binomial theorem: `(x + 1)^n` is the sum of `C(n, k) x^k` over `k <= n`.
proof fn lemma_binomial(x: int, n: nat)
    ensures
        pow(x + 1, n) == sum_to(|k: int| binom(n, k) * pow(x, k as nat), n + 1),
    decreases n,
{
    let b = |k: int| binom(n, k) * pow(x, k as nat);
    if n == 0 {
        lemma_pow0(x + 1);
        lemma_pow0(x);
        assert(sum_to(b, 1) == sum_to(b, 0) + b(0));
    } else {
        let m = (n - 1) as nat;
        lemma_binomial(x, m);
        let bm = |k: int| binom(m, k) * pow(x, k as nat);
        let a = |k: int| binom(m, k - 1) * pow(x, k as nat);
        let sm = sum_to(bm, m + 1);
        // C(n, k) = C(m, k - 1) + C(m, k) within range
        assert forall|k: int| 0 <= k < n + 1 implies #[trigger] b(k) == a(k) + bm(k) by {
            assert(binom(n, k) == binom(m, k - 1) + binom(m, k));
            assert((binom(m, k - 1) + binom(m, k)) * pow(x, k as nat) == binom(m, k - 1) * pow(x, k as nat) + binom(
                m,
                k,
            ) * pow(x, k as nat)) by (nonlinear_arith);
        }
        lemma_sum_add(a, bm, b, n + 1);
        // the last term of bm vanishes
        assert(sum_to(bm, n + 1) == sum_to(bm, n) + bm(n as int));
        assert(binom(m, n as int) == 0);
        assert(bm(n as int) == 0);
        assert(n == m + 1);
        // a is bm shifted up by one, times x
        let g = |k: int| x * bm(k);
        assert forall|k: int| 0 <= k < n implies #[trigger] g(k) == a(k + 1) by {
            lemma_pow_adds(x, 1, k as nat);
            lemma_pow1(x);
            assert((1 + k) as nat == (k + 1) as nat);
            assert(x * (binom(m, k) * pow(x, k as nat)) == binom(m, k) * (x * pow(x, k as nat))) by (nonlinear_arith);
        }
        lemma_sum_shift(a, g, n);
        assert(a(0) == 0);
        lemma_sum_scale(bm, g, x, n);
        // (x + 1)^n = (x + 1) (x + 1)^m
        lemma_pow_adds(x + 1, 1, m);
        lemma_pow1(x + 1);
        assert((1 + m) as nat == n);
        assert((x + 1) * sm == x * sm + sm) by (nonlinear_arith);
    }
}

/// A sum whose terms strictly between the first and the last vanish modulo `p`.
proof fn lemma_sum_ends(f: spec_fn(int) -> int, n: nat, p: int)
    requires
        p > 0,
        n >= 2,
        forall|k: int| 0 < k < n - 1 ==> #[trigger] f(k) % p == 0,
    ensures
        sum_to(f, n) % p == (f(0) + f(n - 1)) % p,
{
    lemma_sum_first(f, (n - 1) as nat, p);
    lemma_cong_add(sum_to(f, (n - 1) as nat), f(0), f(n - 1), f(n - 1), p);
}

proof fn lemma_sum_first(f: spec_fn(int) -> int, m: nat, p: int)
    requires
        p > 0,
        m >= 1,
        forall|k: int| 0 < k < m ==> #[trigger] f(k) % p == 0,
    ensures
        sum_to(f, m) % p == f(0) % p,
    decreases m,
{
    if m == 1 {
        assert(sum_to(f, 1) == sum_to(f, 0) + f(0));
    } else {
        lemma_sum_first(f, (m - 1) as nat, p);
        lemma_small_mod(0, p as nat);
        lemma_cong_add(sum_to(f, (m - 1) as nat), f(0), f(m - 1), 0, p);
    }
}

/// `(x + 1)^p` is `x^p + 1` modulo a prime `p`.
proof fn lemma_freshman(x: int, p: int)
    requires
        is_prime(p),
    ensures
        pow(x + 1, p as nat) % p == (pow(x, p as nat) + 1) % p,
{
    let n = p as nat;
    lemma_binomial(x, n);
    let b = |k: int| binom(n, k) * pow(x, k as nat);
    assert forall|k: int| 0 < k < n + 1 - 1 implies #[trigger] b(k) % p == 0 by {
        lemma_prime_divides_binom(p, k);
        lemma_small_mod(0, p as nat);
        lemma_cong_mul(binom(n, k), 0, pow(x, k as nat), pow(x, k as nat), p);
        assert(0 * pow(x, k as nat) == 0);
    }
    lemma_sum_ends(b, n + 1, p);
    lemma_binom_ends(n);
    lemma_pow0(x);
    assert(b(0) == 1);
    assert(b(n as int) == pow(x, n));
}

/// `a^p` is congruent to `a` modulo a prime `p`.
proof fn lemma_fermat_nat(a: nat, p: int)
    requires
        is_prime(p),
    ensures
        pow(a as int, p as nat) % p == (a as int) % p,
    decreases a,
{
    if a == 0 {
        vstd::arithmetic::power::lemma0_pow(p as nat);
    } else {
        lemma_fermat_nat((a - 1) as nat, p);
        lemma_freshman((a - 1) as int, p);
        lemma_cong_add(pow((a - 1) as int, p as nat), (a - 1) as int, 1, 1, p);
    }
}

/// Fermat's little theorem: `a^(p-1)` is 1 modulo a prime `p` that does not divide `a`.
pub proof fn lemma_fermat(a: int, p: int)
    requires
        is_prime(p),
        a % p != 0,
    ensures
        pow(a, (p - 1) as nat) % p == 1,
{
    let a1 = a % p;
    lemma_mod_bound(a, p);
    lemma_fermat_nat(a1 as nat, p);
    lemma_pow_mod_noop(a, p as nat, p);
    lemma_mod_twice(a, p);
    // a^p = a a^(p-1)
    lemma_pow_adds(a, 1, (p - 1) as nat);
    lemma_pow1(a);
    assert((1 + (p - 1)) as nat == p as nat);
    let e = pow(a, (p - 1) as nat);
    // a (e - 1) is a multiple of p
    assert(a * e - a == a * (e - 1)) by (nonlinear_arith);
    lemma_cong_sub(a * e, a, a, a, p);
    lemma_small_mod(0, p as nat);
    assert((a * (e - 1)) % p == 0);
    lemma_cong_mul(a, a1, e - 1, e - 1, p);
    lemma_euclid(p, a1, e - 1);
    lemma_small_mod(1, p as nat);
    lemma_cong_add(e - 1, 0, 1, 1, p);
}

/// Modulo a prime `p` that does not divide `a`, raising `a` to the power
/// `p - 2` inverts it.
pub proof fn lemma_fermat_inverse(a: int, p: int)
    requires
        is_prime(p),
        a % p != 0,
    ensures
        (a * modpow_value(a, (p - 2) as nat, p)) % p == 1,
{
    lemma_small_mod(1, p as nat);
    if p == 2 {
        lemma_mod_bound(a, 2);
        assert(a % 2 == 1);
        assert(a * 1 == a);
    } else {
        lemma_fermat(a, p);
        let e = pow(a, (p - 2) as nat);
        lemma_pow_adds(a, 1, (p - 2) as nat);
        lemma_pow1(a);
        assert((1 + (p - 2)) as nat == (p - 1) as nat);
        lemma_mod_twice(e, p);
        lemma_cong_mul(a, a, e % p, e, p);
    }
}

/// An odd prime divides no power of two.
pub proof fn lemma_pow2n_unit(k: nat, p: int)
    requires
        is_prime(p),
        p > 2,
    ensures
        (pow2n(k) as int) % p != 0,
    decreases k,
{
    if k == 0 {
        lemma_small_mod(1, p as nat);
    } else {
        lemma_pow2n_unit((k - 1) as nat, p);
        lemma_small_mod(2, p as nat);
        lemma_prime_product_nonzero(p, 2, pow2n((k - 1) as nat) as int);
    }
}

/// A number one of whose positive powers is congruent to `-1` is not
/// divisible by `p`.
proof fn lemma_root_unit(w: int, h: nat, p: int)
    requires
        p > 1,
        h >= 1,
        pow(w, h) % p == p - 1,
    ensures
        w % p != 0,
{
    if w % p == 0 {
        lemma_pow_mod_noop(w, h, p);
        vstd::arithmetic::power::lemma0_pow(h);
        lemma_small_mod(0, p as nat);
    }
}

/// Modulo an odd prime, raising to the power `p - 2` inverts a root `w`
/// whose power `n / 2` is congruent to `-1`, and the power of two `n`.
pub proof fn lemma_root_inverses(w: int, n: nat, p: int)
    requires
        is_prime(p),
        p > 2,
        is_pow2(n),
        n >= 2,
        pow(w, n / 2) % p == p - 1,
    ensures
        (w * modpow_value(w, (p - 2) as nat, p)) % p == 1,
        (n * modpow_value(n as int, (p - 2) as nat, p)) % p == 1,
{
    let k = choose|k: nat| pow2n(k) == n;
    lemma_pow2n_unit(k, p);
    lemma_fermat_inverse(n as int, p);
    lemma_root_unit(w, n / 2, p);
    lemma_fermat_inverse(w, p);
}


/// Modulo a prime, a root whose power `2 h` is 1 and whose power `h` is
/// not has `-1` as its power `h`; and the prime is odd.
pub proof fn lemma_half_power_is_minus_one(w: int, h: nat, p: int)
    requires
        is_prime(p),
        pow(w, 2 * h) % p == 1,
        pow(w, h) % p != 1,
    ensures
        p > 2,
        pow(w, h) % p == p - 1,
{
    let x = pow(w, h);
    lemma_pow_adds(w, h, h);
    assert((h + h) as nat == 2 * h);
    let a = x % p;
    lemma_mod_bound(x, p);
    vstd::arithmetic::div_mod::lemma_mul_mod_noop(x, x, p);
    assert((a * a) % p == 1);
    if a == 0 {
        assert(a * a == 0);
        lemma_small_mod(0, p as nat);
    }
    assert(a >= 2);
    lemma_fundamental_div_mod(a * a, p);
    let q = (a * a) / p;
    assert((a - 1) * (a + 1) == q * p) by (nonlinear_arith)
        requires a * a == p * q + 1;
    vstd::arithmetic::div_mod::lemma_mod_multiples_basic(q, p);
    lemma_euclid(p, a - 1, a + 1);
    lemma_fundamental_div_mod(a + 1, p);
    assert(a + 1 == p * ((a + 1) / p));
    if (a + 1) / p >= 2 {
        assert(p * ((a + 1) / p) >= 2 * p) by (nonlinear_arith)
            requires (a + 1) / p >= 2, p > 0;
    }
    if (a + 1) / p <= 0 {
        assert(p * ((a + 1) / p) <= 0) by (nonlinear_arith)
            requires (a + 1) / p <= 0, p > 0;
    }
}

} // verus!
