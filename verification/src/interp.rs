//! Lagrange interpolation recovers a polynomial: integer polynomials by
//! their coefficients, the factor theorem, and the fact that a polynomial of
//! degree below `n` that vanishes modulo `p` at `n` points whose differences
//! are invertible vanishes everywhere.
use vstd::prelude::*;
use crate::sums::{lemma_cong_add, lemma_cong_mod, lemma_cong_mul, lemma_cong_sub, lemma_sum_scale, lemma_sum_shift, sum_to,
    prod_to, is_permutation, lemma_prod_permute, lemma_sum_permute};
use vstd::arithmetic::div_mod::{lemma_small_mod, lemma_mod_twice};
use crate::dft::poly_eval;
use vstd::arithmetic::power::{pow, lemma_pow0, lemma_pow_adds, lemma_pow1};
use crate::packed::{sub_mod, prod_except, lagrange_denominator, lagrange_term, lagrange_sum, lagrange_spec};

verus! {

// ---------------------------------------------------------------------------
// Integer polynomials by their coefficients, lowest first
// ---------------------------------------------------------------------------

/// The polynomial with coefficients `c` at `x`, by Horner's rule.
pub open spec fn horner(c: Seq<int>, x: int) -> int
    decreases c.len(),
{
    if c.len() == 0 {
        0
    } else {
        c[0] + x * horner(c.drop_first(), x)
    }
}

/// `s` with `v` added to its constant coefficient.
pub open spec fn add_const(s: Seq<int>, v: int) -> Seq<int> {
    if s.len() == 0 {
        seq![v]
    } else {
        s.update(0, s[0] + v)
    }
}

/// The coefficients of `(X - a) c(X)`.
pub open spec fn mul_linear(c: Seq<int>, a: int) -> Seq<int>
    decreases c.len(),
{
    if c.len() == 0 {
        Seq::empty()
    } else {
        seq![-a * c[0]] + add_const(mul_linear(c.drop_first(), a), c[0])
    }
}

/// The coefficients of `a(X) + b(X)`.
pub open spec fn padd(a: Seq<int>, b: Seq<int>) -> Seq<int>
    decreases a.len() + b.len(),
{
    if a.len() == 0 {
        b
    } else if b.len() == 0 {
        a
    } else {
        seq![a[0] + b[0]] + padd(a.drop_first(), b.drop_first())
    }
}

/// The coefficients of `k a(X)`.
pub open spec fn pscale(a: Seq<int>, k: int) -> Seq<int> {
    Seq::new(a.len(), |i: int| k * a[i])
}

/// The quotient of `c(X)` by `X - a`.
pub open spec fn qdiv(c: Seq<int>, a: int) -> Seq<int>
    decreases c.len(),
{
    if c.len() <= 1 {
        Seq::empty()
    } else {
        seq![horner(c.drop_first(), a)] + qdiv(c.drop_first(), a)
    }
}

proof fn lemma_horner_add_const(s: Seq<int>, v: int, x: int)
    ensures
        horner(add_const(s, v), x) == horner(s, x) + v,
        add_const(s, v).len() == if s.len() == 0 { 1 } else { s.len() },
{
    if s.len() == 0 {
        assert(seq![v].drop_first() =~= Seq::<int>::empty());
        assert(horner(seq![v], x) == v + x * horner(Seq::<int>::empty(), x));
        assert(x * 0 == 0);
    } else {
        assert(s.update(0, s[0] + v).drop_first() =~= s.drop_first());
    }
}

pub proof fn lemma_horner_mul_linear(c: Seq<int>, a: int, x: int)
    ensures
        horner(mul_linear(c, a), x) == (x - a) * horner(c, x),
        mul_linear(c, a).len() == if c.len() == 0 { 0 } else { c.len() + 1 },
    decreases c.len(),
{
    if c.len() == 0 {
        assert((x - a) * 0 == 0);
    } else {
        let t = c.drop_first();
        lemma_horner_mul_linear(t, a, x);
        let m = mul_linear(t, a);
        lemma_horner_add_const(m, c[0], x);
        let r = seq![-a * c[0]] + add_const(m, c[0]);
        assert(r.drop_first() =~= add_const(m, c[0]));
        assert(horner(r, x) == -a * c[0] + x * ((x - a) * horner(t, x) + c[0]));
        assert(-a * c[0] + x * ((x - a) * horner(t, x) + c[0]) == (x - a) * (c[0] + x * horner(t, x)))
            by (nonlinear_arith);
    }
}

pub proof fn lemma_horner_padd(a: Seq<int>, b: Seq<int>, x: int)
    ensures
        horner(padd(a, b), x) == horner(a, x) + horner(b, x),
        padd(a, b).len() == if a.len() >= b.len() { a.len() } else { b.len() },
    decreases a.len() + b.len(),
{
    if a.len() > 0 && b.len() > 0 {
        lemma_horner_padd(a.drop_first(), b.drop_first(), x);
        let r = seq![a[0] + b[0]] + padd(a.drop_first(), b.drop_first());
        assert(r.drop_first() =~= padd(a.drop_first(), b.drop_first()));
        let ha = horner(a.drop_first(), x);
        let hb = horner(b.drop_first(), x);
        assert(x * (ha + hb) == x * ha + x * hb) by (nonlinear_arith);
    }
}

pub proof fn lemma_horner_pscale(a: Seq<int>, k: int, x: int)
    ensures
        horner(pscale(a, k), x) == k * horner(a, x),
        pscale(a, k).len() == a.len(),
    decreases a.len(),
{
    if a.len() > 0 {
        lemma_horner_pscale(a.drop_first(), k, x);
        assert(pscale(a, k).drop_first() =~= pscale(a.drop_first(), k));
        let h = horner(a.drop_first(), x);
        assert(k * a[0] + x * (k * h) == k * (a[0] + x * h)) by (nonlinear_arith);
    } else {
        assert(k * 0 == 0);
    }
}

/// The factor theorem: `c(x) = c(a) + (x - a) q(x)` with `q` the quotient
/// of `c` by `X - a`, one coefficient shorter.
pub proof fn lemma_factor(c: Seq<int>, a: int, x: int)
    ensures
        horner(c, x) == horner(c, a) + (x - a) * horner(qdiv(c, a), x),
        qdiv(c, a).len() == if c.len() == 0 { 0 } else { c.len() - 1 },
    decreases c.len(),
{
    if c.len() <= 1 {
        if c.len() == 1 {
            assert(c.drop_first().len() == 0);
            assert(horner(c.drop_first(), x) == 0 && horner(c.drop_first(), a) == 0);
            assert(x * 0 == 0 && a * 0 == 0);
        }
        assert(qdiv(c, a).len() == 0);
        assert(horner(qdiv(c, a), x) == 0);
        assert((x - a) * 0 == 0);
    } else {
        let t = c.drop_first();
        lemma_factor(t, a, x);
        let q = qdiv(c, a);
        assert(q.drop_first() =~= qdiv(t, a));
        let ht_x = horner(t, x);
        let ht_a = horner(t, a);
        let hq = horner(qdiv(t, a), x);
        assert(q[0] == ht_a);
        assert(horner(q, x) == ht_a + x * hq);
        assert(ht_x == ht_a + (x - a) * hq);
        assert(horner(c, x) == c[0] + x * ht_x);
        assert(horner(c, a) == c[0] + a * ht_a);
        assert(c[0] + x * ht_x == (c[0] + a * ht_a) + (x - a) * (ht_a + x * hq)) by (nonlinear_arith)
            requires ht_x == ht_a + (x - a) * hq;
    }
}

/// Congruent points give congruent values.
pub proof fn lemma_horner_cong(c: Seq<int>, x: int, y: int, p: int)
    requires
        p > 0,
        x % p == y % p,
    ensures
        horner(c, x) % p == horner(c, y) % p,
    decreases c.len(),
{
    if c.len() > 0 {
        lemma_horner_cong(c.drop_first(), x, y, p);
        lemma_cong_mul(x, y, horner(c.drop_first(), x), horner(c.drop_first(), y), p);
        lemma_cong_add(c[0], c[0], x * horner(c.drop_first(), x), y * horner(c.drop_first(), y), p);
    }
}

/// `d` has an inverse modulo `p`.
pub open spec fn invertible(d: int, p: int) -> bool {
    exists|e: int| #[trigger] ((d * e) % p) == 1
}

/// A multiple of an invertible number that vanishes modulo `p` has a
/// vanishing cofactor.
proof fn lemma_cancel(d: int, q: int, p: int)
    requires
        p > 1,
        invertible(d, p),
        (d * q) % p == 0,
    ensures
        q % p == 0,
{
    let e = choose|e: int| #[trigger] ((d * e) % p) == 1;
    lemma_small_mod(0, p as nat);
    lemma_small_mod(1, p as nat);
    lemma_cong_mul(d * q, 0, e, e, p);
    lemma_cong_mul(d * e, 1, q, q, p);
    assert((d * q) * e == (d * e) * q) by (nonlinear_arith);
    assert(0 * e == 0 && 1 * q == q);
}

/// A polynomial with at most `n` coefficients that vanishes modulo `p` at
/// `n` points whose pairwise differences are invertible vanishes modulo `p`
/// everywhere.
pub proof fn lemma_vanishing(g: Seq<int>, xs: Seq<int>, n: nat, p: int, r: int)
    requires
        p > 1,
        g.len() <= n,
        n <= xs.len(),
        forall|k: int| 0 <= k < n ==> #[trigger] horner(g, xs[k]) % p == 0,
        forall|k: int, l: int| 0 <= k < n && 0 <= l < n && k != l ==> invertible(#[trigger] xs[k] - #[trigger] xs[l], p),
    ensures
        horner(g, r) % p == 0,
    decreases n,
{
    lemma_small_mod(0, p as nat);
    if n == 0 {
        assert(g.len() == 0);
    } else {
        let a = xs[n - 1];
        let q = qdiv(g, a);
        lemma_factor(g, a, a);
        assert forall|k: int| 0 <= k < n - 1 implies #[trigger] horner(q, xs[k]) % p == 0 by {
            lemma_factor(g, a, xs[k]);
            let d = xs[k] - a;
            let hq = horner(q, xs[k]);
            assert(horner(g, xs[k]) % p == 0);
            assert(horner(g, a) % p == 0);
            lemma_cong_sub(horner(g, xs[k]), 0, horner(g, a), 0, p);
            assert(d * hq == horner(g, xs[k]) - horner(g, a));
            assert(invertible(xs[k] - xs[n - 1], p));
            lemma_cancel(d, hq, p);
        }
        lemma_vanishing(q, xs, (n - 1) as nat, p, r);
        lemma_factor(g, a, r);
        let hq = horner(q, r);
        lemma_cong_mul(r - a, r - a, hq, 0, p);
        assert((r - a) * 0 == 0);
        lemma_cong_add(horner(g, a), 0, (r - a) * hq, 0, p);
    }
}

// ---------------------------------------------------------------------------
// The Lagrange polynomial
// ---------------------------------------------------------------------------

/// The points as integers.
pub open spec fn ints(xs: Seq<u128>) -> Seq<int> {
    Seq::new(xs.len(), |k: int| xs[k] as int)
}

/// The coefficients of the product of `X - xs[j]` over `j < n`, `j != i`.
pub open spec fn nprod(xs: Seq<int>, i: int, n: nat) -> Seq<int>
    decreases n,
{
    if n == 0 {
        seq![1]
    } else if n - 1 == i {
        nprod(xs, i, (n - 1) as nat)
    } else {
        mul_linear(nprod(xs, i, (n - 1) as nat), xs[n - 1])
    }
}

proof fn lemma_nprod_len(xs: Seq<int>, i: int, n: nat)
    ensures
        nprod(xs, i, n).len() == if 0 <= i < n { n } else { n + 1 },
    decreases n,
{
    if n > 0 {
        lemma_nprod_len(xs, i, (n - 1) as nat);
        if n - 1 != i {
            lemma_horner_mul_linear(nprod(xs, i, (n - 1) as nat), xs[n - 1], 0);
        }
    }
}

/// `x - y` as the interpolation computes it is congruent to `x - y`.
proof fn lemma_sub_mod_cong(x: int, y: int, p: int)
    requires
        p > 0,
    ensures
        sub_mod(x, y, p) % p == (x - y) % p,
{
    if x < y {
        assert(x + p - y == p * 1 + (x - y));
        vstd::arithmetic::div_mod::lemma_mod_multiples_vanish(1, x - y, p);
        lemma_mod_twice(x + p - y, p);
    }
}

/// The product polynomial is the interpolation's product, modulo `p`.
proof fn lemma_nprod_eval(xs: Seq<u128>, x: int, i: int, n: nat, p: int)
    requires
        p > 0,
        n <= xs.len(),
    ensures
        horner(nprod(ints(xs), i, n), x) % p == prod_except(xs, x, i, n, p) % p,
    decreases n,
{
    let xi = ints(xs);
    if n == 0 {
        assert(seq![1int].drop_first().len() == 0);
        assert(horner(seq![1int].drop_first(), x) == 0);
        assert(x * 0 == 0);
    } else {
        lemma_nprod_eval(xs, x, i, (n - 1) as nat, p);
        if n - 1 != i {
            let prev = nprod(xi, i, (n - 1) as nat);
            lemma_horner_mul_linear(prev, xi[n - 1], x);
            let d = prod_except(xs, x, i, (n - 1) as nat, p);
            lemma_sub_mod_cong(x, xs[n - 1] as int, p);
            lemma_cong_mul(horner(prev, x), d, x - xi[n - 1], sub_mod(x, xs[n - 1] as int, p), p);
            lemma_mod_twice(d * sub_mod(x, xs[n - 1] as int, p), p);
            assert((x - xi[n - 1]) * horner(prev, x) == horner(prev, x) * (x - xi[n - 1])) by (nonlinear_arith);
        }
    }
}

/// The product polynomial vanishes at the other points.
proof fn lemma_nprod_zero(xs: Seq<int>, i: int, n: nat, k: int)
    requires
        0 <= k < n,
        k != i,
        n <= xs.len(),
    ensures
        horner(nprod(xs, i, n), xs[k]) == 0,
    decreases n,
{
    if n - 1 == i {
        lemma_nprod_zero(xs, i, (n - 1) as nat, k);
    } else {
        lemma_horner_mul_linear(nprod(xs, i, (n - 1) as nat), xs[n - 1], xs[k]);
        if k < n - 1 {
            lemma_nprod_zero(xs, i, (n - 1) as nat, k);
        }
        assert((xs[k] - xs[n - 1]) * horner(nprod(xs, i, (n - 1) as nat), xs[k]) == 0) by (nonlinear_arith)
            requires k == n - 1 || horner(nprod(xs, i, (n - 1) as nat), xs[k]) == 0;
    }
}

/// The weight of point `i` in the interpolation: its value times the
/// inverse of its denominator.
pub open spec fn lagrange_weight(xs: Seq<u128>, ys: Seq<u128>, i: int, p: int) -> int {
    ys[i] * lagrange_denominator(xs, i, p)
}

/// The coefficients of the sum of the first `k` weighted product polynomials.
pub open spec fn lpoly(xs: Seq<u128>, ys: Seq<u128>, k: nat, p: int) -> Seq<int>
    decreases k,
{
    if k == 0 {
        Seq::empty()
    } else {
        padd(
            lpoly(xs, ys, (k - 1) as nat, p),
            pscale(nprod(ints(xs), k - 1, xs.len()), lagrange_weight(xs, ys, k - 1, p)),
        )
    }
}

proof fn lemma_lpoly(xs: Seq<u128>, ys: Seq<u128>, k: nat, p: int, x: int)
    requires
        p > 0,
        k <= xs.len(),
    ensures
        lpoly(xs, ys, k, p).len() <= xs.len(),
        horner(lpoly(xs, ys, k, p), x) % p == lagrange_sum(xs, ys, x, k, p) % p,
        forall|q: int| 0 <= q < xs.len() ==> #[trigger] horner(lpoly(xs, ys, k, p), xs[q] as int) == if q < k {
            lagrange_weight(xs, ys, q, p) * horner(nprod(ints(xs), q, xs.len()), xs[q] as int)
        } else {
            0
        },
    decreases k,
{
    let n = xs.len();
    let xi = ints(xs);
    if k > 0 {
        let j = k - 1;
        lemma_lpoly(xs, ys, (k - 1) as nat, p, x);
        let prev = lpoly(xs, ys, (k - 1) as nat, p);
        let np = nprod(xi, j, n);
        let wt = lagrange_weight(xs, ys, j, p);
        lemma_nprod_len(xi, j, n);
        lemma_horner_pscale(np, wt, x);
        lemma_horner_padd(prev, pscale(np, wt), x);
        // the new term against the interpolation's term
        lemma_nprod_eval(xs, x, j, n, p);
        let pe = prod_except(xs, x, j, n, p);
        let den = lagrange_denominator(xs, j, p);
        let hn = horner(np, x);
        lemma_cong_mul(hn, pe, den, den, p);
        lemma_cong_mod(pe * den, p);
        lemma_cong_mul(hn * den, (pe * den) % p, ys[j] as int, ys[j] as int, p);
        lemma_cong_mod(((pe * den) % p) * ys[j], p);
        assert(lagrange_term(xs, ys, x, j, p) == (((pe * den) % p) * ys[j]) % p);
        assert(wt * hn == (hn * den) * ys[j]) by (nonlinear_arith)
            requires wt == ys[j] * den;
        lemma_cong_add(horner(prev, x), lagrange_sum(xs, ys, x, (k - 1) as nat, p), wt * hn,
            lagrange_term(xs, ys, x, j, p), p);
        assert forall|q: int| 0 <= q < n implies #[trigger] horner(lpoly(xs, ys, k, p), xs[q] as int) == if q < k {
            lagrange_weight(xs, ys, q, p) * horner(nprod(xi, q, n), xs[q] as int)
        } else {
            0
        } by {
            lemma_horner_pscale(np, wt, xs[q] as int);
            lemma_horner_padd(prev, pscale(np, wt), xs[q] as int);
            assert(xi[q] == xs[q] as int);
            if q != j {
                lemma_nprod_zero(xi, j, n, q);
                assert(wt * 0 == 0);
            }
        }
    }
}

/// The interpolation's product over `j != i` has the factor `x - xs[l]`
/// for each `l != i`, modulo `p`.
proof fn lemma_prod_factor(xs: Seq<u128>, x: int, i: int, l: int, n: nat, p: int) -> (r: int)
    requires
        p > 0,
        0 <= l < n,
        n <= xs.len(),
        l != i,
    ensures
        prod_except(xs, x, i, n, p) % p == (sub_mod(x, xs[l] as int, p) * r) % p,
    decreases n,
{
    let prev = prod_except(xs, x, i, (n - 1) as nat, p);
    if n - 1 == l {
        lemma_mod_twice(prev * sub_mod(x, xs[l] as int, p), p);
        assert(prev * sub_mod(x, xs[l] as int, p) == sub_mod(x, xs[l] as int, p) * prev) by (nonlinear_arith);
        prev
    } else if n - 1 == i {
        lemma_prod_factor(xs, x, i, l, (n - 1) as nat, p)
    } else {
        let r0 = lemma_prod_factor(xs, x, i, l, (n - 1) as nat, p);
        let sl = sub_mod(x, xs[l] as int, p);
        let sn = sub_mod(x, xs[n - 1] as int, p);
        lemma_cong_mul(prev, sl * r0, sn, sn, p);
        lemma_mod_twice(prev * sn, p);
        assert((sl * r0) * sn == sl * (r0 * sn)) by (nonlinear_arith);
        r0 * sn
    }
}

/// When every denominator is inverted, the pairwise differences of the
/// points are invertible.
proof fn lemma_differences_invertible(xs: Seq<u128>, p: int, k: int, l: int)
    requires
        p > 1,
        0 <= k < xs.len(),
        0 <= l < xs.len(),
        k != l,
        (prod_except(xs, xs[k] as int, k, xs.len(), p) * lagrange_denominator(xs, k, p)) % p == 1,
    ensures
        invertible(xs[k] - xs[l], p),
{
    let n = xs.len();
    let d = prod_except(xs, xs[k] as int, k, n, p);
    let e = lagrange_denominator(xs, k, p);
    let r = lemma_prod_factor(xs, xs[k] as int, k, l, n, p);
    let s = sub_mod(xs[k] as int, xs[l] as int, p);
    lemma_sub_mod_cong(xs[k] as int, xs[l] as int, p);
    lemma_cong_mul(s, xs[k] - xs[l], r, r, p);
    lemma_mod_twice(s * r, p);
    lemma_cong_mul(d, (xs[k] - xs[l]) * r, e, e, p);
    assert(((xs[k] - xs[l]) * r) * e == (xs[k] - xs[l]) * (r * e)) by (nonlinear_arith);
    assert(((xs[k] - xs[l]) * (r * e)) % p == 1);
}

/// Law: Lagrange interpolation recovers a polynomial. When the values are
/// those of a polynomial with at most as many coefficients as there are
/// points, and every point's denominator is inverted by the power the
/// interpolation raises it to (as for distinct points modulo a prime), the
/// interpolation at any `r` is the polynomial's value at `r`, modulo `p`.
pub proof fn lemma_lagrange_exact(xs: Seq<u128>, ys: Seq<u128>, c: Seq<int>, p: int, r: int)
    requires
        p > 1,
        ys.len() == xs.len(),
        c.len() <= xs.len(),
        forall|k: int| 0 <= k < xs.len() ==> #[trigger] (ys[k] as int) % p == horner(c, xs[k] as int) % p,
        forall|k: int|
            0 <= k < xs.len() ==> (#[trigger] prod_except(xs, xs[k] as int, k, xs.len(), p) * lagrange_denominator(
                xs,
                k,
                p,
            )) % p == 1,
    ensures
        lagrange_sum(xs, ys, r, xs.len(), p) % p == horner(c, r) % p,
{
    let n = xs.len();
    let xi = ints(xs);
    let lp = lpoly(xs, ys, n, p);
    let g = padd(lp, pscale(c, -1));
    lemma_lpoly(xs, ys, n, p, r);
    lemma_horner_pscale(c, -1, r);
    lemma_horner_padd(lp, pscale(c, -1), r);
    lemma_small_mod(0, p as nat);
    lemma_small_mod(1, p as nat);
    assert forall|q: int| 0 <= q < n implies #[trigger] horner(g, xi[q]) % p == 0 by {
        let x = xs[q] as int;
        assert(xi[q] == x);
        lemma_lpoly(xs, ys, n, p, x);
        lemma_horner_pscale(c, -1, x);
        lemma_horner_padd(lp, pscale(c, -1), x);
        let np = nprod(xi, q, n);
        lemma_nprod_eval(xs, x, q, n, p);
        let d = prod_except(xs, x, q, n, p);
        let e = lagrange_denominator(xs, q, p);
        let wt = lagrange_weight(xs, ys, q, p);
        assert(horner(lp, x) == wt * horner(np, x));
        lemma_cong_mul(wt, wt, horner(np, x), d, p);
        assert(wt * d == (ys[q] as int) * (d * e)) by (nonlinear_arith)
            requires wt == ys[q] * e;
        lemma_cong_mul(ys[q] as int, ys[q] as int, d * e, 1, p);
        assert((ys[q] as int) * 1 == ys[q] as int);
        lemma_cong_sub(horner(lp, x), horner(c, x), horner(c, x), horner(c, x), p);
        assert(horner(g, x) == horner(lp, x) + -1 * horner(c, x));
    }
    assert forall|k: int, l: int| 0 <= k < n && 0 <= l < n && k != l implies invertible(
        #[trigger] xi[k] - #[trigger] xi[l],
        p,
    ) by {
        lemma_differences_invertible(xs, p, k, l);
    }
    lemma_vanishing(g, xi, n, p, r);
    assert(horner(g, r) == horner(lp, r) - horner(c, r));
    lemma_cong_add(horner(g, r), 0, horner(c, r), horner(c, r), p);
}

/// The sum of `c[i] x^i` is Horner's evaluation.
pub proof fn lemma_poly_eval_is_horner(c: Seq<u128>, x: int)
    ensures
        poly_eval(c, x) == horner(ints(c), x),
    decreases c.len(),
{
    if c.len() > 0 {
        let t = c.drop_first();
        lemma_poly_eval_is_horner(t, x);
        let f = |i: int| c[i] * pow(x, i as nat);
        let ft = |i: int| t[i] * pow(x, i as nat);
        let g = |i: int| x * ft(i);
        assert forall|i: int| 0 <= i < t.len() implies #[trigger] g(i) == f(i + 1) by {
            lemma_pow_adds(x, 1, i as nat);
            lemma_pow1(x);
            assert((1 + i) as nat == (i + 1) as nat);
            assert(x * (t[i] * pow(x, i as nat)) == c[i + 1] * (x * pow(x, i as nat))) by (nonlinear_arith)
                requires t[i] == c[i + 1];
        }
        lemma_sum_shift(f, g, t.len());
        lemma_sum_scale(ft, g, x, t.len());
        lemma_pow0(x);
        assert(f(0) == c[0]);
        assert(ints(c).drop_first() =~= ints(t));
        assert(poly_eval(c, x) == sum_to(f, c.len()));
        assert((t.len() + 1) as nat == c.len());
    }
}


// ---------------------------------------------------------------------------
// The order of the points
// ---------------------------------------------------------------------------

/// The factors of the product over `j != i`: `x - xs[j]` as the
/// interpolation computes it, and 1 at `i`.
pub open spec fn difference_factor(xs: Seq<u128>, x: int, i: int, p: int) -> spec_fn(int) -> int {
    |j: int| if j == i { 1 } else { sub_mod(x, xs[j] as int, p) }
}

/// The interpolation's product is the plain product of its factors, reduced.
proof fn lemma_prod_except_is_prod(xs: Seq<u128>, x: int, i: int, n: nat, p: int)
    requires
        p > 1,
    ensures
        0 <= prod_except(xs, x, i, n, p) < p,
        prod_except(xs, x, i, n, p) == prod_to(difference_factor(xs, x, i, p), n) % p,
    decreases n,
{
    let h = difference_factor(xs, x, i, p);
    if n == 0 {
        lemma_small_mod(1, p as nat);
    } else {
        lemma_prod_except_is_prod(xs, x, i, (n - 1) as nat, p);
        let prev = prod_except(xs, x, i, (n - 1) as nat, p);
        let q = prod_to(h, (n - 1) as nat);
        lemma_cong_mod(q, p);
        if n - 1 == i {
            assert(prod_to(h, n) == q * 1);
        } else {
            let s = sub_mod(x, xs[n - 1] as int, p);
            assert(prod_to(h, n) == q * s);
            lemma_cong_mul(prev, q, s, s, p);
        }
    }
}

/// The Lagrange sum is the sum of its terms.
proof fn lemma_lagrange_sum_is_sum(xs: Seq<u128>, ys: Seq<u128>, r: int, n: nat, p: int)
    ensures
        lagrange_sum(xs, ys, r, n, p) == sum_to(|i: int| lagrange_term(xs, ys, r, i, p), n),
    decreases n,
{
    if n > 0 {
        lemma_lagrange_sum_is_sum(xs, ys, r, (n - 1) as nat, p);
    }
}

/// Reordering the points reorders the interpolation's products over the other points.
proof fn lemma_prod_except_permute(xs: Seq<u128>, xs2: Seq<u128>, perm: Seq<int>, x: int, i: int, p: int)
    requires
        p > 1,
        xs2.len() == xs.len(),
        is_permutation(perm, xs.len()),
        forall|k: int| 0 <= k < xs.len() ==> #[trigger] xs2[k] == xs[perm[k]],
        0 <= i < xs.len(),
    ensures
        prod_except(xs2, x, i, xs.len(), p) == prod_except(xs, x, perm[i], xs.len(), p),
{
    let n = xs.len();
    let f = difference_factor(xs, x, perm[i], p);
    let g = difference_factor(xs2, x, i, p);
    assert forall|j: int| 0 <= j < n implies #[trigger] g(j) == f(perm[j]) by {
        if j != i {
            assert(perm[j] != perm[i]);
            assert(xs2[j] == xs[perm[j]]);
        }
    }
    lemma_prod_permute(f, g, perm, n);
    lemma_prod_except_is_prod(xs2, x, i, n, p);
    lemma_prod_except_is_prod(xs, x, perm[i], n, p);
}

/// Law: Lagrange interpolation does not depend on the order of the points.
/// Taking the points and their values in any other order gives the same
/// evaluations at every root.
pub proof fn lemma_lagrange_permute(
    xs: Seq<u128>,
    ys: Seq<u128>,
    xs2: Seq<u128>,
    ys2: Seq<u128>,
    perm: Seq<int>,
    roots: Seq<u128>,
    p: int,
)
    requires
        p > 1,
        xs2.len() == xs.len(),
        ys.len() >= xs.len(),
        ys2.len() >= xs.len(),
        is_permutation(perm, xs.len()),
        forall|k: int| 0 <= k < xs.len() ==> #[trigger] xs2[k] == xs[perm[k]] && ys2[k] == ys[perm[k]],
    ensures
        lagrange_spec(xs2, ys2, roots, p) == lagrange_spec(xs, ys, roots, p),
{
    let n = xs.len();
    assert forall|k: int| 0 <= k < roots.len() implies #[trigger] lagrange_spec(xs2, ys2, roots, p)[k]
        == lagrange_spec(xs, ys, roots, p)[k] by {
        let r = roots[k] as int;
        let f = |i: int| lagrange_term(xs, ys, r, i, p);
        let g = |i: int| lagrange_term(xs2, ys2, r, i, p);
        assert forall|i: int| 0 <= i < n implies #[trigger] g(i) == f(perm[i]) by {
            assert(xs2[i] == xs[perm[i]] && ys2[i] == ys[perm[i]]);
            lemma_prod_except_permute(xs, xs2, perm, r, i, p);
            lemma_prod_except_permute(xs, xs2, perm, xs2[i] as int, i, p);
        }
        lemma_sum_permute(f, g, perm, n);
        lemma_lagrange_sum_is_sum(xs, ys, r, n, p);
        lemma_lagrange_sum_is_sum(xs2, ys2, r, n, p);
    }
    assert(lagrange_spec(xs2, ys2, roots, p) =~= lagrange_spec(xs, ys, roots, p));
}

} // verus!
