//! Number-theoretic transforms over a prime field, radix 2 and radix 3,
//! computed in place after a digit-reversal permutation.
use vstd::prelude::*;
use vstd::arithmetic::div_mod::*;
use vstd::arithmetic::mul::*;
use crate::modpow::{modulus_bound, modpow_value, ModPow};
use crate::util::pow2n;
use crate::packed::{trigit_count, trigits_len, lemma_trigit_count};

verus! {

/// Every value of `s` is below `bound`.
pub open spec fn all_below(s: Seq<u128>, bound: int) -> bool {
    forall|k: int| 0 <= k < s.len() ==> #[trigger] s[k] < bound
}

/// `n` is a power of two.
pub open spec fn is_pow2(n: nat) -> bool {
    exists|k: nat| pow2n(k) == n
}

/// `3^n`.
pub open spec fn pow3n(n: nat) -> nat
    decreases n,
{
    if n == 0 {
        1
    } else {
        3 * pow3n((n - 1) as nat)
    }
}

/// `n` is a power of three.
pub open spec fn is_pow3(n: nat) -> bool {
    exists|k: nat| pow3n(k) == n
}

/// The integer part of the base-2 logarithm of `n` (0 for 0 and 1).
pub open spec fn log2(n: nat) -> nat
    decreases n,
{
    if n <= 1 {
        0
    } else {
        1 + log2(n / 2)
    }
}

/// The integer part of the base-3 logarithm of `n` (0 for 0, 1 and 2).
pub open spec fn log3(n: nat) -> nat
    decreases n,
{
    if n <= 2 {
        0
    } else {
        1 + log3(n / 3)
    }
}

// ---------------------------------------------------------------------------
// Radix-2 butterflies
// ---------------------------------------------------------------------------

/// The value at position `x` after one radix-2 butterfly stage on blocks of
/// `m` entries: the first half of each block receives `u + w t`, the second
/// half `u - w t`, where `u` and `t` are the paired entries and `w` is the
/// table entry at the pair's offset times `n / m`.
pub open spec fn butterfly2(a: Seq<u128>, p: int, table: Seq<u128>, n: int, m: int, x: int) -> u128 {
    let h = m / 2;
    let r = x % m;
    if r < h {
        let u = (a[x] as int) % p;
        let t = (table[r * (n / m)] * a[x + h]) % p;
        ((u + t) % p) as u128
    } else {
        let u = (a[x - h] as int) % p;
        let t = (table[(r - h) * (n / m)] * a[x]) % p;
        ((u + p - t) % p) as u128
    }
}

/// One radix-2 stage on blocks of `m` entries.
pub open spec fn stage2(a: Seq<u128>, p: int, table: Seq<u128>, n: int, m: int) -> Seq<u128> {
    Seq::new(a.len(), |x: int| butterfly2(a, p, table, n, m, x))
}

/// The first `s` radix-2 stages, on blocks of 2, 4, ..., `2^s` entries.
pub open spec fn stages2(a: Seq<u128>, p: int, table: Seq<u128>, n: int, s: nat) -> Seq<u128>
    decreases s,
{
    if s == 0 {
        a
    } else {
        stage2(stages2(a, p, table, n, (s - 1) as nat), p, table, n, pow2n(s) as int)
    }
}

pub proof fn lemma_pow2n_pos(n: nat)
    ensures
        pow2n(n) >= 1,
    decreases n,
{
    if n > 0 {
        lemma_pow2n_pos((n - 1) as nat);
    }
}

pub proof fn lemma_pow2n_adds(a: nat, b: nat)
    ensures
        pow2n(a + b) == pow2n(a) * pow2n(b),
    decreases b,
{
    if b > 0 {
        lemma_pow2n_adds(a, (b - 1) as nat);
        assert(pow2n(a + b) == 2 * pow2n((a + b - 1) as nat));
        assert(pow2n(b) == 2 * pow2n((b - 1) as nat));
        assert((a + b - 1) as nat == a + (b - 1) as nat);
        assert(2 * (pow2n(a) * pow2n((b - 1) as nat)) == pow2n(a) * (2 * pow2n((b - 1) as nat))) by (nonlinear_arith);
    } else {
        assert(pow2n(0) == 1);
        assert(pow2n(a) * 1 == pow2n(a));
    }
}

pub proof fn lemma_pow2n_strict(a: nat, b: nat)
    requires
        a < b,
    ensures
        pow2n(a) < pow2n(b),
    decreases b,
{
    lemma_pow2n_pos(a);
    if a + 1 < b {
        lemma_pow2n_strict(a, (b - 1) as nat);
    }
}

pub proof fn lemma_log2_pow2n(k: nat)
    ensures
        log2(pow2n(k)) == k,
    decreases k,
{
    if k > 0 {
        lemma_pow2n_pos((k - 1) as nat);
        lemma_log2_pow2n((k - 1) as nat);
        assert(pow2n(k) / 2 == pow2n((k - 1) as nat));
    }
}

/// Position `c m + r` of a sequence cut into blocks of `m` is offset `r` of block `c`.
pub proof fn lemma_block_pos(c: int, m: int, r: int)
    requires
        m > 0,
        c >= 0,
        0 <= r < m,
    ensures
        (c * m + r) % m == r,
        (c * m + r) / m == c,
{
    lemma_fundamental_div_mod_converse(c * m + r, m, c, r);
}

/// Within a power of two `n`, the next block size after `h < n` still divides `n`.
proof fn lemma_pow2_next_block(n: nat, h: nat, s: nat)
    requires
        is_pow2(n),
        h == pow2n(s),
        h < n,
    ensures
        2 * h <= n,
        n % (2 * h) == 0,
        n / (2 * h) >= 1,
        (n / (2 * h)) * (2 * h) == n,
        (n / (2 * h)) * h == n / 2,
{
    let k = choose|k: nat| pow2n(k) == n;
    if k <= s {
        if k < s {
            lemma_pow2n_strict(k, s);
        }
        assert(false);
    }
    lemma_pow2n_adds(s + 1, (k - s - 1) as nat);
    let q = pow2n((k - s - 1) as nat);
    lemma_pow2n_pos((k - s - 1) as nat);
    assert(n == (2 * h) * q);
    lemma_mul_is_commutative((2 * h) as int, q as int);
    lemma_block_pos(q as int, (2 * h) as int, 0);
    assert(n / 2 == h * q) by {
        lemma_mul_is_associative(2, h as int, q as int);
        lemma_block_pos((h * q) as int, 2, 0);
        lemma_mul_is_commutative(2, (h * q) as int);
    }
    lemma_mul_is_commutative(h as int, q as int);
    assert(2 * h <= n) by (nonlinear_arith)
        requires n == (2 * h) * q, q >= 1;
}

/// The values after an in-place radix-2 butterfly network over `a`: the
/// stages on blocks of 2, 4, ..., `a.len()` entries, with the table entry
/// `rootTable[j * (n / m)]` as twiddle factor for offset `j` in a block of `m`.
pub fn DFT_radix2(a: &mut Vec<u128>, P: &u128, rootTable: &Vec<u128>)
    requires
        old(a).len() == 0 || is_pow2(old(a).len() as nat),
        old(a).len() / 2 <= rootTable.len(),
        0 < *P <= modulus_bound(),
        all_below(old(a)@, modulus_bound()),
        all_below(rootTable@, modulus_bound()),
    ensures
        final(a)@ == stages2(old(a)@, *P as int, rootTable@, old(a).len() as int, log2(old(a).len() as nat)),
        final(a).len() == old(a).len(),
        all_below(final(a)@, modulus_bound()),
{
    let L = a.len();
    let p = *P;
    let ghost a0 = a@;
    let ghost tb = rootTable@;
    let mut h: usize = 1;
    let ghost mut s: nat = 0;
    proof {
        assert(pow2n(0) == 1);
    }
    while h < L
        invariant
            a.len() == L,
            L == a0.len(),
            L == 0 || is_pow2(L as nat),
            L / 2 <= tb.len(),
            tb == rootTable@,
            0 < p <= modulus_bound(),
            all_below(tb, modulus_bound()),
            h == pow2n(s),
            L == 0 || h <= L,
            L == 0 ==> s == 0,
            a@ == stages2(a0, p as int, tb, L as int, s),
            all_below(a@, modulus_bound()),
        decreases L - h,
    {
        proof {
            lemma_pow2_next_block(L as nat, h as nat, s);
        }
        let m: usize = 2 * h;
        let K: usize = L / m;
        let ghost prev = a@;
        let ghost next = stage2(prev, p as int, tb, L as int, m as int);
        let mut i: usize = 0;
        let ghost mut c: int = 0;
        while i < L
            invariant
                a.len() == L,
                L / 2 <= tb.len(),
                tb == rootTable@,
                0 < p <= modulus_bound(),
                all_below(tb, modulus_bound()),
                all_below(prev, modulus_bound()),
                prev.len() == L,
                m == 2 * h,
                h >= 1,
                K == L / m,
                K * m == L,
                K * h == L / 2,
                next == stage2(prev, p as int, tb, L as int, m as int),
                0 <= c <= K,
                i == c * m,
                forall|x: int| 0 <= x < L ==> #[trigger] a@[x] == if x < i { next[x] } else { prev[x] },
                all_below(a@, modulus_bound()),
            decreases L - i,
        {
            proof {
                assert((c + 1) * m <= L) by (nonlinear_arith)
                    requires c < K, K * m == L, i == c * m, i < L;
                assert(c < K) by (nonlinear_arith)
                    requires i == c * m, i < L, K * m == L, m > 0;
                assert(i + m == (c + 1) * m) by (nonlinear_arith)
                    requires i == c * m;
            }
            let mut j: usize = 0;
            while j < h
                invariant
                    a.len() == L,
                    L / 2 <= tb.len(),
                    tb == rootTable@,
                    0 < p <= modulus_bound(),
                    all_below(tb, modulus_bound()),
                    all_below(prev, modulus_bound()),
                    prev.len() == L,
                    m == 2 * h,
                    K == L / m,
                    K * m == L,
                    K * h == L / 2,
                    next == stage2(prev, p as int, tb, L as int, m as int),
                    0 <= c < K,
                    i == c * m,
                    i + m <= L,
                    j <= h,
                    forall|x: int| 0 <= x < L ==> #[trigger] a@[x] ==
                        if x < i || (i <= x < i + j) || (i + h <= x < i + h + j) { next[x] } else { prev[x] },
                    all_below(a@, modulus_bound()),
                decreases h - j,
            {
                proof {
                    assert(j * K < L / 2) by (nonlinear_arith)
                        requires j < h, K * h == L / 2, K >= 1;
                    assert(K >= 1) by (nonlinear_arith)
                        requires K * m == L, i + m <= L, m > 0;
                    lemma_block_pos(c, m as int, j as int);
                    lemma_block_pos(c, m as int, (j + h) as int);
                    assert(tb[j * K] < modulus_bound());
                    assert(a@[i + j + h] == prev[i + j + h]);
                    assert(a@[i + j] == prev[i + j]);
                    assert(tb[j * K] * prev[i + j + h] < 0x1_0000_0000_0000_0000_0000_0000_0000_0000) by (nonlinear_arith)
                        requires tb[j * K] < 0x1_0000_0000_0000_0000, prev[i + j + h] < 0x1_0000_0000_0000_0000;
                }
                let t = rootTable[j * K] * a[i + j + h] % p;
                let u = a[i + j] % p;
                let ghost old_a = a@;
                a.set(i + j, (u + t) % p);
                if u <= t {
                    a.set(i + j + h, ((p + u) - t) % p);
                } else {
                    a.set(i + j + h, (u - t) % p);
                }
                proof {
                    assert(next[i + j] == butterfly2(prev, p as int, tb, L as int, m as int, i + j));
                    assert(next[i + j + h] == butterfly2(prev, p as int, tb, L as int, m as int, i + j + h));
                    assert((m as int) / 2 == h);
                    if u > t {
                        lemma_fundamental_div_mod_converse((u + p - t) as int, p as int, 1, (u - t) as int);
                        lemma_small_mod((u - t) as nat, p as nat);
                    }
                    assert(a@[i + j] == next[i + j]);
                    assert(a@[i + j + h] == next[i + j + h]);
                    assert forall|x: int| 0 <= x < L implies #[trigger] a@[x] ==
                        if x < i || (i <= x < i + j + 1) || (i + h <= x < i + h + j + 1) { next[x] } else { prev[x] } by {
                        if x != i + j && x != i + j + h {
                            assert(a@[x] == old_a[x]);
                        }
                    }
                    assert forall|x: int| 0 <= x < L implies #[trigger] a@[x] < modulus_bound() by {
                        if x != i + j && x != i + j + h {
                            assert(a@[x] == old_a[x]);
                        }
                    }
                }
                j = j + 1;
            }
            proof {
                assert forall|x: int| 0 <= x < L implies #[trigger] a@[x] ==
                    if x < i + m { next[x] } else { prev[x] } by {
                    assert(a@[x] == if x < i || (i <= x < i + j) || (i + h <= x < i + h + j) { next[x] } else { prev[x] });
                }
                c = c + 1;
                assert(i + m == c * m) by (nonlinear_arith)
                    requires i == (c - 1) * m;
            }
            i = i + m;
        }
        proof {
            assert(a@ =~= next);
            lemma_pow2n_pos(s);
            assert(pow2n(s + 1) == m);
            s = s + 1;
            assert(a@ == stages2(a0, p as int, tb, L as int, s));
        }
        h = m;
    }
    proof {
        if L > 0 {
            let k = choose|k: nat| pow2n(k) == L;
            if s < k {
                lemma_pow2n_strict(s, k);
            } else if s > k {
                lemma_pow2n_strict(k, s);
            }
            lemma_log2_pow2n(k);
        } else {
            assert(s == 0) by {
                if s > 0 {
                    lemma_pow2n_pos((s - 1) as nat);
                }
            }
        }
    }
}


// ---------------------------------------------------------------------------
// Radix-3 butterflies
// ---------------------------------------------------------------------------

/// The value at position `x` after one radix-3 butterfly stage whose
/// triples are `g` apart, in blocks of `3 g` entries: with `x0, x1, x2` the
/// triple's entries, `y = x1 * table[r * stride]`, `z = x2 * table[2 r * stride]`
/// (`r` the offset in the block, `stride = n / 3g`) and `w, w2` the table
/// entries at `n / 3` and `2 (n / 3)`, the three outputs are
/// `x0 + y + z`, `x0 + w y + w2 z` and `x0 + w2 y + w z`.
pub open spec fn butterfly3(a: Seq<u128>, p: int, table: Seq<u128>, n: int, g: int, x: int) -> u128 {
    let q = x % (3 * g);
    let r = q % g;
    let k = q / g;
    let j0 = x - q + r;
    let stride = n / (3 * g);
    let x0 = a[j0] as int;
    let y = (a[j0 + g] * table[r * stride]) % p;
    let z = (a[j0 + 2 * g] * table[2 * r * stride]) % p;
    let w = table[n / 3 * 2 - n / 3] as int;
    let w2 = table[n / 3 * 2] as int;
    if k == 0 {
        ((x0 + y + z) % p) as u128
    } else if k == 1 {
        ((x0 % p + (w * y) % p + (w2 * z) % p) % p) as u128
    } else {
        ((x0 % p + (w2 * y) % p + (w * z) % p) % p) as u128
    }
}

/// One radix-3 stage with triples `g` apart.
pub open spec fn stage3(a: Seq<u128>, p: int, table: Seq<u128>, n: int, g: int) -> Seq<u128> {
    Seq::new(a.len(), |x: int| butterfly3(a, p, table, n, g, x))
}

/// The first `s` radix-3 stages, with triples 1, 3, ..., `3^(s-1)` apart.
pub open spec fn stages3(a: Seq<u128>, p: int, table: Seq<u128>, n: int, s: nat) -> Seq<u128>
    decreases s,
{
    if s == 0 {
        a
    } else {
        stage3(stages3(a, p, table, n, (s - 1) as nat), p, table, n, pow3n((s - 1) as nat) as int)
    }
}

pub proof fn lemma_pow3n_pos(n: nat)
    ensures
        pow3n(n) >= 1,
    decreases n,
{
    if n > 0 {
        lemma_pow3n_pos((n - 1) as nat);
    }
}

pub proof fn lemma_pow3n_adds(a: nat, b: nat)
    ensures
        pow3n(a + b) == pow3n(a) * pow3n(b),
    decreases b,
{
    if b > 0 {
        lemma_pow3n_adds(a, (b - 1) as nat);
        assert(pow3n(a + b) == 3 * pow3n((a + b - 1) as nat));
        assert(pow3n(b) == 3 * pow3n((b - 1) as nat));
        assert((a + b - 1) as nat == a + (b - 1) as nat);
        assert(3 * (pow3n(a) * pow3n((b - 1) as nat)) == pow3n(a) * (3 * pow3n((b - 1) as nat))) by (nonlinear_arith);
    } else {
        assert(pow3n(0) == 1);
        assert(pow3n(a) * 1 == pow3n(a));
    }
}

pub proof fn lemma_pow3n_strict(a: nat, b: nat)
    requires
        a < b,
    ensures
        pow3n(a) < pow3n(b),
    decreases b,
{
    lemma_pow3n_pos(a);
    if a + 1 < b {
        lemma_pow3n_strict(a, (b - 1) as nat);
    }
}

pub proof fn lemma_log3_pow3n(k: nat)
    ensures
        log3(pow3n(k)) == k,
    decreases k,
{
    if k > 0 {
        lemma_pow3n_pos((k - 1) as nat);
        lemma_log3_pow3n((k - 1) as nat);
        assert(pow3n(k) / 3 == pow3n((k - 1) as nat));
    }
}

/// Within a power of three `n`, the block of a gap `g < n` divides `n`.
proof fn lemma_pow3_next_block(n: nat, g: nat, s: nat)
    requires
        is_pow3(n),
        g == pow3n(s),
        g < n,
    ensures
        3 * g <= n,
        n / (3 * g) >= 1,
        (n / (3 * g)) * (3 * g) == n,
        (n / (3 * g)) * g == n / 3,
        n / 3 * 3 == n,
{
    let k = choose|k: nat| pow3n(k) == n;
    if k <= s {
        if k < s {
            lemma_pow3n_strict(k, s);
        }
        assert(false);
    }
    lemma_pow3n_adds(s + 1, (k - s - 1) as nat);
    let q = pow3n((k - s - 1) as nat);
    lemma_pow3n_pos((k - s - 1) as nat);
    assert(n == (3 * g) * q);
    lemma_mul_is_commutative((3 * g) as int, q as int);
    lemma_block_pos(q as int, (3 * g) as int, 0);
    assert(n / 3 == g * q) by {
        lemma_mul_is_associative(3, g as int, q as int);
        lemma_block_pos((g * q) as int, 3, 0);
        lemma_mul_is_commutative(3, (g * q) as int);
    }
    lemma_mul_is_commutative(g as int, q as int);
    assert(3 * g <= n) by (nonlinear_arith)
        requires n == (3 * g) * q, q >= 1;
}

/// Position `b (3g) + k g + r` is entry `k` of the triple at offset `r` in block `b`.
proof fn lemma_triple_pos(b: int, g: int, k: int, r: int)
    requires
        g > 0,
        b >= 0,
        0 <= k < 3,
        0 <= r < g,
    ensures
        (b * (3 * g) + k * g + r) % (3 * g) == k * g + r,
        (b * (3 * g) + k * g + r) / (3 * g) == b,
        (k * g + r) % g == r,
        (k * g + r) / g == k,
{
    assert(0 <= k * g + r < 3 * g) by (nonlinear_arith)
        requires 0 <= k < 3, 0 <= r < g;
    lemma_block_pos(b, 3 * g, k * g + r);
    lemma_block_pos(k, g, r);
}

/// The values after an in-place radix-3 butterfly network over `a`: the
/// stages with triples 1, 3, 9, ... entries apart, up to a third of `a.len()`.
pub fn DFT_radix3(a: &mut Vec<u128>, P: &u128, rootTable: &Vec<u128>)
    requires
        old(a).len() == 0 || is_pow3(old(a).len() as nat),
        old(a).len() / 3 * 2 < rootTable.len(),
        0 < *P <= modulus_bound(),
        all_below(old(a)@, modulus_bound()),
        all_below(rootTable@, modulus_bound()),
    ensures
        final(a)@ == stages3(old(a)@, *P as int, rootTable@, old(a).len() as int, log3(old(a).len() as nat)),
        final(a).len() == old(a).len(),
        all_below(final(a)@, modulus_bound()),
{
    let L = a.len();
    let p = *P;
    let ghost a0 = a@;
    let ghost tb = rootTable@;
    let w = rootTable[L / 3];
    let w_sqr = rootTable[L / 3 * 2];
    let mut g: usize = 1;
    let ghost mut s: nat = 0;
    proof {
        assert(pow3n(0) == 1);
        if L > 0 {
            let k = choose|k: nat| pow3n(k) == L;
            if k > 0 {
                lemma_pow3n_pos((k - 1) as nat);
                assert(L / 3 * 3 == L);
            }
        }
        assert(L / 3 * 2 - L / 3 == L / 3);
    }
    while g < L
        invariant
            a.len() == L,
            L == a0.len(),
            L == 0 || is_pow3(L as nat),
            L / 3 * 2 < tb.len(),
            tb == rootTable@,
            w == tb[L / 3 * 2 - L / 3],
            w_sqr == tb[L / 3 * 2],
            0 < p <= modulus_bound(),
            all_below(tb, modulus_bound()),
            g == pow3n(s),
            L == 0 || g <= L,
            L == 0 ==> s == 0,
            a@ == stages3(a0, p as int, tb, L as int, s),
            all_below(a@, modulus_bound()),
        decreases L - g,
    {
        proof {
            lemma_pow3_next_block(L as nat, g as nat, s);
        }
        let jump: usize = 3 * g;
        let stride: usize = L / jump;
        let ghost prev = a@;
        let ghost next = stage3(prev, p as int, tb, L as int, g as int);
        let mut j: usize = 0;
        while j < g
            invariant
                a.len() == L,
                L / 3 * 2 < tb.len(),
                tb == rootTable@,
                w == tb[L / 3 * 2 - L / 3],
                w_sqr == tb[L / 3 * 2],
                L / 3 * 3 == L,
                0 < p <= modulus_bound(),
                all_below(tb, modulus_bound()),
                all_below(prev, modulus_bound()),
                prev.len() == L,
                jump == 3 * g,
                g >= 1,
                stride == L / jump,
                stride * jump == L,
                stride * g == L / 3,
                next == stage3(prev, p as int, tb, L as int, g as int),
                j <= g,
                forall|x: int| 0 <= x < L ==> #[trigger] a@[x] ==
                    if (x % (jump as int)) % (g as int) < j { next[x] } else { prev[x] },
                all_below(a@, modulus_bound()),
            decreases g - j,
        {
            let mut b: usize = 0;
            while b < stride
                invariant
                    a.len() == L,
                    L / 3 * 2 < tb.len(),
                    tb == rootTable@,
                    w == tb[L / 3 * 2 - L / 3],
                    w_sqr == tb[L / 3 * 2],
                    L / 3 * 3 == L,
                    0 < p <= modulus_bound(),
                    all_below(tb, modulus_bound()),
                    all_below(prev, modulus_bound()),
                    prev.len() == L,
                    jump == 3 * g,
                    g >= 1,
                    stride == L / jump,
                    stride * jump == L,
                    stride * g == L / 3,
                    next == stage3(prev, p as int, tb, L as int, g as int),
                    j < g,
                    0 <= b <= stride,
                    forall|x: int| 0 <= x < L ==> #[trigger] a@[x] ==
                        if (x % (jump as int)) % (g as int) < j
                            || ((x % (jump as int)) % (g as int) == j && x / (jump as int) < b) { next[x] } else { prev[x] },
                    all_below(a@, modulus_bound()),
                decreases stride - b,
            {
                proof {
                    assert(b * jump + j + 2 * g < L) by (nonlinear_arith)
                        requires b < stride, stride * jump == L, j < g, jump == 3 * g;
                }
                let pair: usize = b * jump + j;
                proof {
                    assert(pair + 2 * g < L) by (nonlinear_arith)
                        requires pair == b * jump + j, b < stride, stride * jump == L, j < g, jump == 3 * g;
                    assert(j * stride < L / 3) by (nonlinear_arith)
                        requires j < g, stride * g == L / 3, stride >= 1;
                    assert(stride >= 1) by (nonlinear_arith)
                        requires b < stride, b >= 0;
                    assert(2 * j * stride < L / 3 * 2) by (nonlinear_arith)
                        requires j * stride < L / 3;
                    lemma_triple_pos(b as int, g as int, 0, j as int);
                    lemma_triple_pos(b as int, g as int, 1, j as int);
                    lemma_triple_pos(b as int, g as int, 2, j as int);
                    assert(b * (3 * g) + 0 * g + j == pair);
                    assert(b * (3 * g) + 1 * g + j == pair + g);
                    assert(b * (3 * g) + 2 * g + j == pair + 2 * g);
                    assert(a@[pair as int] == prev[pair as int]);
                    assert(a@[pair + g] == prev[pair + g]);
                    assert(a@[pair + 2 * g] == prev[pair + 2 * g]);
                    assert(tb[j * stride] * prev[pair + g] < 0x1_0000_0000_0000_0000_0000_0000_0000_0000) by (nonlinear_arith)
                        requires tb[j * stride] < 0x1_0000_0000_0000_0000, prev[pair + g] < 0x1_0000_0000_0000_0000;
                    let ti = 2 * j * stride;
                    assert(tb[ti] < 0x1_0000_0000_0000_0000);
                    assert(prev[pair + 2 * g] * tb[ti] < 0x1_0000_0000_0000_0000_0000_0000_0000_0000) by (nonlinear_arith)
                        requires tb[ti] < 0x1_0000_0000_0000_0000, prev[pair + 2 * g] < 0x1_0000_0000_0000_0000;
                }
                let x = a[pair];
                let y = a[pair + g] * rootTable[j * stride] % p;
                let z = a[pair + 2 * g] * rootTable[2 * j * stride] % p;
                proof {
                    assert(w * y < 0x1_0000_0000_0000_0000_0000_0000_0000_0000) by (nonlinear_arith)
                        requires w < 0x1_0000_0000_0000_0000, y < 0x1_0000_0000_0000_0000;
                    assert(w_sqr * y < 0x1_0000_0000_0000_0000_0000_0000_0000_0000) by (nonlinear_arith)
                        requires w_sqr < 0x1_0000_0000_0000_0000, y < 0x1_0000_0000_0000_0000;
                    assert(w * z < 0x1_0000_0000_0000_0000_0000_0000_0000_0000) by (nonlinear_arith)
                        requires w < 0x1_0000_0000_0000_0000, z < 0x1_0000_0000_0000_0000;
                    assert(w_sqr * z < 0x1_0000_0000_0000_0000_0000_0000_0000_0000) by (nonlinear_arith)
                        requires w_sqr < 0x1_0000_0000_0000_0000, z < 0x1_0000_0000_0000_0000;
                }
                let ghost old_a = a@;
                a.set(pair, (x + y + z) % p);
                a.set(pair + g, (x % p + w * y % p + w_sqr * z % p) % p);
                a.set(pair + 2 * g, (x % p + w_sqr * y % p + w * z % p) % p);
                proof {
                    let jj = j as int;
                    let gg = g as int;
                    assert(next[pair as int] == butterfly3(prev, p as int, tb, L as int, gg, pair as int));
                    assert(next[pair + gg] == butterfly3(prev, p as int, tb, L as int, gg, pair + gg));
                    assert(next[pair + 2 * gg] == butterfly3(prev, p as int, tb, L as int, gg, pair + 2 * gg));
                    assert(L as int / (3 * gg) == stride);
                    assert(a@[pair as int] == next[pair as int]);
                    assert(a@[pair + gg] == next[pair + gg]);
                    assert(a@[pair + 2 * gg] == next[pair + 2 * gg]);
                    assert forall|x: int| 0 <= x < L implies #[trigger] a@[x] ==
                        if (x % (jump as int)) % gg < jj
                            || ((x % (jump as int)) % gg == jj && x / (jump as int) < b + 1) { next[x] } else { prev[x] } by {
                        if x != pair && x != pair + gg && x != pair + 2 * gg {
                            assert(a@[x] == old_a[x]);
                            if (x % (jump as int)) % gg == jj && x / (jump as int) == b {
                                let q = x % (jump as int);
                                lemma_fundamental_div_mod(x, jump as int);
                                lemma_fundamental_div_mod(q, gg);
                                let kk = q / gg;
                                assert(0 <= q < jump) by {
                                    lemma_mod_bound(x, jump as int);
                                }
                                assert(0 <= kk < 3) by (nonlinear_arith)
                                    requires q == gg * kk + jj, 0 <= q < 3 * gg, gg > 0, jj >= 0, jj < gg;
                                assert(x == b * (3 * gg) + kk * gg + jj) by (nonlinear_arith)
                                    requires x == (jump as int) * (b as int) + q, q == gg * kk + jj, jump == 3 * gg;
                                assert(false);
                            }
                        }
                    }
                    assert forall|x: int| 0 <= x < L implies #[trigger] a@[x] < modulus_bound() by {
                        if x != pair && x != pair + gg && x != pair + 2 * gg {
                            assert(a@[x] == old_a[x]);
                        }
                    }
                }
                b = b + 1;
            }
            proof {
                assert forall|x: int| 0 <= x < L implies #[trigger] a@[x] ==
                    if (x % (jump as int)) % (g as int) < j + 1 { next[x] } else { prev[x] } by {
                    if (x % (jump as int)) % (g as int) == j {
                        assert(x / (jump as int) < b) by {
                            lemma_fundamental_div_mod(x, jump as int);
                            lemma_mod_decreases((x % (jump as int)) as nat, g as nat);
                            lemma_mod_bound(x, jump as int);
                            assert(x / (jump as int) < b) by (nonlinear_arith)
                                requires x == (jump as int) * (x / (jump as int)) + x % (jump as int),
                                    x % (jump as int) >= j, stride * jump == L, b >= stride, x < L, jump > 0;
                        }
                    }
                }
            }
            j = j + 1;
        }
        proof {
            assert forall|x: int| 0 <= x < L implies #[trigger] a@[x] == next[x] by {
                lemma_mod_bound(x % (jump as int), g as int);
            }
            assert(a@ =~= next);
            lemma_pow3n_pos(s);
            assert(pow3n(s + 1) == jump);
            s = s + 1;
            assert(a@ == stages3(a0, p as int, tb, L as int, s));
        }
        g = jump;
    }
    proof {
        if L > 0 {
            let k = choose|k: nat| pow3n(k) == L;
            if s < k {
                lemma_pow3n_strict(s, k);
            } else if s > k {
                lemma_pow3n_strict(k, s);
            }
            lemma_log3_pow3n(k);
        }
    }
}


// ---------------------------------------------------------------------------
// Digit-reversal permutations
// ---------------------------------------------------------------------------

/// The sequence `s` after, for each position `i < n` in turn, swapping
/// entries `i` and `f(i)` whenever `f(i) > i`.
pub open spec fn swap_fold(s: Seq<u128>, f: spec_fn(int) -> int, n: nat) -> Seq<u128>
    decreases n,
{
    if n == 0 {
        s
    } else {
        let t = swap_fold(s, f, (n - 1) as nat);
        let i = n - 1;
        let j = f(i);
        if j > i {
            t.update(i, t[j]).update(j, t[i])
        } else {
            t
        }
    }
}

/// One step of the reversed binary counter: clears the set bits of `j` from
/// `mask` downwards until a clear one is met, then sets that one.
pub open spec fn rev_step(j: usize, mask: usize) -> usize
    decreases mask,
{
    if mask == 0 {
        j
    } else if j & mask != 0 {
        proof {
            assert(mask != 0 ==> mask >> 1 < mask) by (bit_vector);
        }
        rev_step(j & !mask, mask >> 1)
    } else {
        j | mask
    }
}

/// The reversed binary counter after `i` steps, counting from the top bit of `n / 2`.
pub open spec fn rev_counter(n: usize, i: nat) -> usize
    decreases i,
{
    if i == 0 {
        0
    } else {
        rev_step(rev_counter(n, (i - 1) as nat), n >> 1)
    }
}

/// The swap targets of the radix-2 reversal of a sequence of length `n`.
pub open spec fn rev2_target(n: usize) -> spec_fn(int) -> int {
    |i: int| rev_counter(n, i as nat) as int
}

proof fn lemma_shr_log2(x: usize)
    requires
        x >= 1,
    ensures
        log2(x as nat) < usize::BITS,
        x >> (log2(x as nat) as usize) == 1,
    decreases x,
{
    if x == 1 {
        assert(x >> 0usize == x) by (bit_vector);
    } else {
        assert(x >> 1 == x / 2) by (bit_vector);
        let h = (x / 2) as usize;
        lemma_shr_log2(h);
        let t = log2(h as nat) as usize;
        assert(t < usize::BITS);
        assert((x >> 1) >> t == 1);
        assert(x >> 1 >> t == 1 ==> t + 1 < usize::BITS) by (bit_vector);
        assert(x >> 1 >> t == x >> (t + 1)) by (bit_vector)
            requires t + 1 < usize::BITS;
    }
}

proof fn lemma_rev_step_below(j: usize, mask: usize, k: usize)
    requires
        j >> k == 0,
        mask >> k == 0,
    ensures
        rev_step(j, mask) >> k == 0,
    decreases mask,
{
    if mask == 0 {
    } else if j & mask != 0 {
        assert(j >> k == 0 ==> (j & !mask) >> k == 0) by (bit_vector);
        assert(mask >> k == 0 ==> (mask >> 1) >> k == 0) by (bit_vector);
        assert(mask != 0 ==> mask >> 1 < mask) by (bit_vector);
        lemma_rev_step_below(j & !mask, mask >> 1, k);
    } else {
        assert(j >> k == 0 && mask >> k == 0 ==> (j | mask) >> k == 0) by (bit_vector);
    }
}

proof fn lemma_rev_counter_shr(n: usize, i: nat, k: usize)
    requires
        (n >> 1) >> k == 0,
    ensures
        rev_counter(n, i) >> k == 0,
    decreases i,
{
    if i == 0 {
        assert(0usize >> k == 0) by (bit_vector);
    } else {
        lemma_rev_counter_shr(n, (i - 1) as nat, k);
        lemma_rev_step_below(rev_counter(n, (i - 1) as nat), n >> 1, k);
    }
}

/// The radix-2 reversal of a sequence of length `n` swaps within it.
pub proof fn lemma_rev2_in_range(n: usize)
    requires
        n >= 1,
    ensures
        forall|i: int| #[trigger] rev2_target(n)(i) < n,
        forall|i: int| 0 <= #[trigger] rev2_target(n)(i),
{
    let k = log2(n as nat) as usize;
    lemma_shr_log2(n);
    assert(n >> k == 1 ==> (n >> 1) >> k == 0) by (bit_vector);
    assert forall|i: int| #[trigger] rev2_target(n)(i) < n by {
        let j = rev_counter(n, i as nat);
        lemma_rev_counter_shr(n, i as nat, k);
        assert(j >> k == 0 && n >> k == 1 ==> j < n) by (bit_vector);
    }
}

/// Reorders `a` by the radix-2 digit reversal: walking `i` upwards with a
/// reversed binary counter `j`, entries `i` and `j` are swapped when `j > i`.
pub fn bit_reverse2(a: &mut Vec<u128>)
    ensures
        final(a)@ == swap_fold(old(a)@, rev2_target(old(a).len()), old(a).len() as nat),
        final(a).len() == old(a).len(),
        all_below(old(a)@, modulus_bound()) ==> all_below(final(a)@, modulus_bound()),
{
    let L = a.len();
    let ghost a0 = a@;
    let ghost f = rev2_target(L);
    if L == 0 {
        return;
    }
    let ghost k: usize = log2(L as nat) as usize;
    proof {
        lemma_shr_log2(L);
        assert(L >> k == 1 ==> (L >> 1) >> k == 0) by (bit_vector);
    }
    let mut j: usize = 0;
    let mut i: usize = 0;
    proof {
        assert(0usize >> k == 0) by (bit_vector);
    }
    while i < L
        invariant
            a.len() == L,
            L >= 1,
            L >> k == 1,
            (L >> 1) >> k == 0,
            f == rev2_target(L),
            i <= L,
            a@ == swap_fold(a0, f, i as nat),
            L == a0.len(),
            all_below(a0, modulus_bound()) ==> all_below(a@, modulus_bound()),
            j == rev_counter(L, i as nat),
            j >> k == 0,
        decreases L - i,
    {
        proof {
            assert(j >> k == 0 && L >> k == 1 ==> j < L) by (bit_vector);
        }
        let ghost before = a@;
        if j > i {
            let x = a[i];
            let y = a[j];
            a.set(i, y);
            a.set(j, x);
        }
        proof {
            assert(f(i as int) == j as int);
            assert(a@ =~= swap_fold(a0, f, (i + 1) as nat));
            if all_below(a0, modulus_bound()) {
                assert forall|x: int| 0 <= x < L implies #[trigger] a@[x] < modulus_bound() by {
                    if x != i && x != j {
                        assert(a@[x] == before[x]);
                    }
                }
            }
        }
        let mut mask: usize = L >> 1;
        let ghost j0 = j;
        while j & mask != 0
            invariant
                rev_step(j, mask) == rev_step(j0, L >> 1),
                j >> k == 0,
                mask >> k == 0,
            decreases mask,
        {
            proof {
                assert(j & mask != 0 ==> mask != 0) by (bit_vector);
                assert(j >> k == 0 ==> (j & !mask) >> k == 0) by (bit_vector);
                assert(mask >> k == 0 ==> (mask >> 1) >> k == 0) by (bit_vector);
                assert(mask != 0 ==> mask >> 1 < mask) by (bit_vector);
            }
            j = j & !mask;
            mask = mask >> 1;
        }
        proof {
            assert(j | 0usize == j) by (bit_vector);
            assert(j >> k == 0 && mask >> k == 0 ==> (j | mask) >> k == 0) by (bit_vector);
        }
        j = j | mask;
        i = i + 1;
    }
}


/// The base-3 digits of `i`, `d` of them, read in reverse order.
pub open spec fn rev3(i: nat, d: nat) -> nat
    decreases d,
{
    if d == 0 {
        0
    } else {
        (i % 3) * pow3n((d - 1) as nat) + rev3(i / 3, (d - 1) as nat)
    }
}

/// The swap targets of the radix-3 reversal of a sequence of length `n`,
/// over as many base-3 digits as `n - 1` has.
pub open spec fn rev3_target(n: nat) -> spec_fn(int) -> int {
    |i: int| rev3(i as nat, trigit_count((n - 1) as nat)) as int
}

/// The number whose base-3 digits, least significant first, are `tr`.
pub open spec fn digits_value(tr: Seq<u8>) -> nat
    decreases tr.len(),
{
    if tr.len() == 0 {
        0
    } else {
        tr[0] as nat + 3 * digits_value(tr.drop_first())
    }
}

/// The number whose base-3 digits, most significant first, are `tr`.
pub open spec fn digits_weighted(tr: Seq<u8>) -> nat
    decreases tr.len(),
{
    if tr.len() == 0 {
        0
    } else {
        tr[0] as nat * pow3n((tr.len() - 1) as nat) + digits_weighted(tr.drop_first())
    }
}

proof fn lemma_digits_update(tr: Seq<u8>, j: int, v: u8)
    requires
        0 <= j < tr.len(),
    ensures
        digits_value(tr.update(j, v)) as int == digits_value(tr) as int + (v - tr[j]) * pow3n(j as nat),
        digits_weighted(tr.update(j, v)) as int
            == digits_weighted(tr) as int + (v - tr[j]) * pow3n((tr.len() - 1 - j) as nat),
    decreases j,
{
    let n = tr.len();
    if j == 0 {
        assert(tr.update(0, v).drop_first() =~= tr.drop_first());
        assert(pow3n(0) == 1);
        let p = pow3n((n - 1) as nat);
        assert(v * p == tr[0] * p + (v - tr[0]) * p) by (nonlinear_arith);
        assert((v - tr[0]) * 1 == v - tr[0]);
    } else {
        assert(tr.update(j, v).drop_first() =~= tr.drop_first().update(j - 1, v));
        assert(tr.drop_first()[j - 1] == tr[j]);
        lemma_digits_update(tr.drop_first(), j - 1, v);
        assert(pow3n(j as nat) == 3 * pow3n((j - 1) as nat));
        let d = (v - tr[j]) as int;
        assert(3 * (d * pow3n((j - 1) as nat)) == d * pow3n(j as nat)) by (nonlinear_arith)
            requires pow3n(j as nat) == 3 * pow3n((j - 1) as nat);
        assert((n - 1 - 1 - (j - 1)) as nat == (n - 1 - j) as nat);
    }
}

proof fn lemma_digits_zero(tr: Seq<u8>)
    requires
        forall|k: int| 0 <= k < tr.len() ==> #[trigger] tr[k] == 0,
    ensures
        digits_value(tr) == 0,
        digits_weighted(tr) == 0,
    decreases tr.len(),
{
    if tr.len() > 0 {
        lemma_digits_zero(tr.drop_first());
        assert(tr[0] == 0);
        assert(0 * pow3n((tr.len() - 1) as nat) == 0) by (nonlinear_arith);
    }
}

pub(crate) proof fn lemma_rev3_bound(i: nat, d: nat)
    ensures
        rev3(i, d) < pow3n(d),
    decreases d,
{
    if d > 0 {
        lemma_rev3_bound(i / 3, (d - 1) as nat);
        assert(pow3n(d) == 3 * pow3n((d - 1) as nat));
        assert((i % 3) * pow3n((d - 1) as nat) <= 2 * pow3n((d - 1) as nat)) by (nonlinear_arith)
            requires i % 3 <= 2;
    } else {
        assert(pow3n(0) == 1);
    }
}

proof fn lemma_weighted_is_rev3(tr: Seq<u8>)
    requires
        forall|k: int| 0 <= k < tr.len() ==> #[trigger] tr[k] < 3,
    ensures
        digits_weighted(tr) == rev3(digits_value(tr), tr.len()),
    decreases tr.len(),
{
    if tr.len() > 0 {
        let t = tr.drop_first();
        lemma_weighted_is_rev3(t);
        let v = digits_value(tr);
        lemma_fundamental_div_mod_converse(v as int, 3, digits_value(t) as int, tr[0] as int);
        assert((tr.len() - 1) as nat == (tr.len() as nat - 1) as nat);
    }
}

/// `3^e` as a machine integer.
fn pow3_usize(e: usize) -> (r: usize)
    requires
        pow3n(e as nat) <= usize::MAX,
    ensures
        r == pow3n(e as nat),
{
    let mut r: usize = 1;
    let mut k: usize = 0;
    proof {
        assert(pow3n(0) == 1);
    }
    while k < e
        invariant
            pow3n(e as nat) <= usize::MAX,
            k <= e,
            r == pow3n(k as nat),
        decreases e - k,
    {
        proof {
            if k + 1 < e {
                lemma_pow3n_strict((k + 1) as nat, e as nat);
            }
            assert(pow3n((k + 1) as nat) == 3 * r);
        }
        r = r * 3;
        k = k + 1;
    }
    r
}

/// Reorders `a` by the radix-3 digit reversal: walking `i` upwards with a
/// counter of reversed base-3 digits `t`, entries `i` and `t` are swapped
/// when `t > i`. The digit count is that of `a.len() - 1`.
pub fn bit_reverse3(a: &mut Vec<u128>)
    requires
        old(a).len() >= 1,
        pow3n(trigit_count((old(a).len() - 1) as nat)) <= usize::MAX,
        forall|i: int|
            0 <= i < old(a).len() ==> #[trigger] rev3(i as nat, trigit_count((old(a).len() - 1) as nat)) > i
                ==> rev3(i as nat, trigit_count((old(a).len() - 1) as nat)) < old(a).len(),
    ensures
        final(a)@ == swap_fold(old(a)@, rev3_target(old(a).len() as nat), old(a).len() as nat),
        final(a).len() == old(a).len(),
        all_below(old(a)@, modulus_bound()) ==> all_below(final(a)@, modulus_bound()),
{
    let ghost a0 = a@;
    let L = a.len();
    let ghost f = rev3_target(L as nat);
    let ghost d = trigit_count((L - 1) as nat);
    let mut t: usize = 0;
    let tri_L = trigits_len(L - 1);
    let mut trigits: Vec<u8> = vec![0u8; tri_L];
    proof {
        lemma_digits_zero(trigits@);
        lemma_trigit_count((L - 1) as nat, d);
        crate::packed::lemma_trigit_count_pos((L - 1) as nat);
    }
    let mut i: usize = 0;
    while i < L
        invariant
            a.len() == L,
            L == a0.len(),
            L >= 1,
            tri_L == d,
            d >= 1,
            pow3n(d) <= usize::MAX,
            pow3n(d) > L - 1,
            f == rev3_target(L as nat),
            d == trigit_count((L - 1) as nat),
            forall|x: int| 0 <= x < L ==> #[trigger] rev3(x as nat, d) > x ==> rev3(x as nat, d) < L,
            i <= L,
            trigits.len() == d,
            forall|k: int| 0 <= k < d ==> #[trigger] trigits@[k] < 3,
            i < L ==> digits_value(trigits@) == i,
            t == digits_weighted(trigits@),
            a@ == swap_fold(a0, f, i as nat),
            all_below(a0, modulus_bound()) ==> all_below(a@, modulus_bound()),
        decreases L - i,
    {
        proof {
            lemma_weighted_is_rev3(trigits@);
            assert(t == rev3(i as nat, d));
            assert(f(i as int) == rev3(i as nat, trigit_count((L as nat - 1) as nat)) as int);
            assert(f(i as int) == t as int);
        }
        let ghost before = a@;
        if t > i {
            let x = a[t];
            let y = a[i];
            a.set(t, y);
            a.set(i, x);
        }
        proof {
            assert(a@ =~= swap_fold(a0, f, (i + 1) as nat));
            if all_below(a0, modulus_bound()) {
                assert forall|x: int| 0 <= x < L implies #[trigger] a@[x] < modulus_bound() by {
                    if x != i && x != t {
                        assert(a@[x] == before[x]);
                    }
                }
            }
        }
        let mut j: usize = 0;
        let mut done = false;
        proof {
            assert(pow3n(0) == 1);
        }
        while j < tri_L && !done
            invariant
                tri_L == d,
                d >= 1,
                pow3n(d) <= usize::MAX,
                trigits.len() == d,
                forall|k: int| 0 <= k < d ==> #[trigger] trigits@[k] < 3,
                t == digits_weighted(trigits@),
                j <= d,
                done ==> digits_value(trigits@) == i + 1,
                !done ==> digits_value(trigits@) + pow3n(j as nat) == i + 1,
            decreases d - j + (if done { 0int } else { 1int }),
        {
            proof {
                lemma_pow3n_strict((d - 1 - j) as nat, d);
                if d - 1 - j == d {
                }
            }
            let w = pow3_usize(tri_L - j - 1);
            let digit = trigits[j];
            let ghost old_tr = trigits@;
            if digit < 2 {
                trigits.set(j, digit + 1);
                proof {
                    lemma_digits_update(old_tr, j as int, (digit + 1) as u8);
                    let pw = pow3n((old_tr.len() - 1 - j) as nat);
                    assert(w == pw);
                    assert(((digit + 1) as u8 - old_tr[j as int]) * pw == pw) by (nonlinear_arith)
                        requires old_tr[j as int] == digit, digit < 2;
                    assert(digits_weighted(trigits@) == t + w);
                    assert forall|k: int| 0 <= k < d implies #[trigger] trigits@[k] < 3 by {
                        if k != j {
                            assert(trigits@[k] == old_tr[k]);
                        }
                    }
                    lemma_weighted_is_rev3(trigits@);
                    lemma_rev3_bound(digits_value(trigits@), d);
                }
                t = t + w;
                done = true;
            } else {
                trigits.set(j, 0);
                proof {
                    lemma_digits_update(old_tr, j as int, 0u8);
                    let pw = pow3n((old_tr.len() - 1 - j) as nat);
                    assert(w == pw);
                    assert((0u8 - old_tr[j as int]) * pw == -2 * pw) by (nonlinear_arith)
                        requires old_tr[j as int] == 2;
                    assert(digits_weighted(trigits@) == t - 2 * w);
                    let pj = pow3n(j as nat);
                    assert((0u8 - old_tr[j as int]) * pj == -2 * pj) by (nonlinear_arith)
                        requires old_tr[j as int] == 2;
                    assert forall|k: int| 0 <= k < d implies #[trigger] trigits@[k] < 3 by {
                        if k != j {
                            assert(trigits@[k] == old_tr[k]);
                        }
                    }
                    assert(pow3n((j + 1) as nat) == 3 * pow3n(j as nat));
                }
                t = t - 2 * w;
                j = j + 1;
            }
        }
        proof {
            if !done {
                assert(j == d);
                assert(i + 1 >= pow3n(d));
            }
        }
        i = i + 1;
    }
}


// ---------------------------------------------------------------------------
// Transforms
// ---------------------------------------------------------------------------

/// The powers `w^0, ..., w^(n-1)` modulo `p`.
pub open spec fn power_table(w: int, n: nat, p: int) -> Seq<u128> {
    Seq::new(n, |i: int| modpow_value(w, i as nat, p) as u128)
}

/// `s` with every entry multiplied by `c` modulo `p`.
pub open spec fn scaled(s: Seq<u128>, c: int, p: int) -> Seq<u128> {
    Seq::new(s.len(), |i: int| ((s[i] * c) % p) as u128)
}

/// The forward radix-2 transform: the butterfly network of `DFT_radix2`
/// applied to `a` in radix-2 digit-reversed order.
pub open spec fn transform2_spec(a: Seq<u128>, p: int, table: Seq<u128>) -> Seq<u128> {
    stages2(swap_fold(a, rev2_target(a.len() as usize), a.len()), p, table, a.len() as int, log2(a.len()))
}

/// The inverse radix-2 transform: the forward network with the powers of
/// `w = table[1]^(p-2)` as table, scaled by `n^(p-2)`.
pub open spec fn inverse2_spec(b: Seq<u128>, p: int, table: Seq<u128>) -> Seq<u128> {
    let n = b.len();
    let w = modpow_value(table[1] as int, (p - 2) as nat, p);
    scaled(transform2_spec(b, p, power_table(w, n, p)), modpow_value(n as int, (p - 2) as nat, p), p)
}

/// The forward radix-3 transform: the butterfly network of `DFT_radix3`
/// applied to `a` in radix-3 digit-reversed order.
pub open spec fn transform3_spec(a: Seq<u128>, p: int, table: Seq<u128>) -> Seq<u128> {
    stages3(swap_fold(a, rev3_target(a.len()), a.len()), p, table, a.len() as int, log3(a.len()))
}

/// The inverse radix-3 transform: the forward network with the powers of
/// `w = table[1]^(p-2)` as table, scaled by `n^(p-2)`.
pub open spec fn inverse3_spec(b: Seq<u128>, p: int, table: Seq<u128>) -> Seq<u128> {
    let n = b.len();
    let w = modpow_value(table[1] as int, (p - 2) as nat, p);
    scaled(transform3_spec(b, p, power_table(w, n, p)), modpow_value(n as int, (p - 2) as nat, p), p)
}

/// For a power of three, the digit count of `n - 1` is its logarithm, and
/// the reversal stays within the sequence.
pub proof fn lemma_pow3_reversal(n: nat)
    requires
        n >= 1,
        is_pow3(n),
        n <= usize::MAX,
    ensures
        pow3n(trigit_count((n - 1) as nat)) <= usize::MAX,
        forall|i: int| 0 <= i < n ==> #[trigger] rev3(i as nat, trigit_count((n - 1) as nat)) < n,
{
    let k = choose|k: nat| pow3n(k) == n;
    let d = trigit_count((n - 1) as nat);
    crate::packed::lemma_trigit_count_pos((n - 1) as nat);
    if k == 0 {
        assert(n == 1);
        assert(d == 1);
        assert(pow3n(0) == 1);
        assert(pow3n(1) == 3);
        assert forall|i: int| 0 <= i < n implies #[trigger] rev3(i as nat, d) < n by {
            assert(i == 0);
            assert(rev3(0, 0) == 0);
            assert(rev3(0, 1) == 0);
        }
    } else {
        lemma_trigit_count((n - 1) as nat, k);
        lemma_pow3n_pos((k - 1) as nat);
        if k - 1 >= 1 {
            lemma_trigit_count((n - 1) as nat, (k - 1) as nat);
        } else {
            crate::packed::lemma_trigit_count_pos((n - 1) as nat);
        }
        assert(pow3n(k) == 3 * pow3n((k - 1) as nat));
        assert(d == k);
        assert forall|i: int| 0 <= i < n implies #[trigger] rev3(i as nat, d) < n by {
            lemma_rev3_bound(i as nat, d);
        }
    }
}

/// The forward radix-2 transform of `a`: radix-2 digit reversal followed by
/// the butterfly network.
pub fn transform2(a: Vec<u128>, P: &u128, rootTable: &Vec<u128>) -> (r: Vec<u128>)
    requires
        a.len() == 0 || is_pow2(a.len() as nat),
        a.len() / 2 <= rootTable.len(),
        0 < *P <= modulus_bound(),
        all_below(a@, modulus_bound()),
        all_below(rootTable@, modulus_bound()),
    ensures
        r@ == transform2_spec(a@, *P as int, rootTable@),
        r.len() == a.len(),
{
    let mut a = a;
    bit_reverse2(&mut a);
    DFT_radix2(&mut a, P, rootTable);
    a
}

/// The forward radix-3 transform of `a`: radix-3 digit reversal followed by
/// the butterfly network.
pub fn transform3(a: Vec<u128>, P: &u128, rootTable: &Vec<u128>) -> (r: Vec<u128>)
    requires
        a.len() >= 1,
        is_pow3(a.len() as nat),
        a.len() / 3 * 2 < rootTable.len(),
        0 < *P <= modulus_bound(),
        all_below(a@, modulus_bound()),
        all_below(rootTable@, modulus_bound()),
    ensures
        r@ == transform3_spec(a@, *P as int, rootTable@),
        r.len() == a.len(),
{
    let mut a = a;
    proof {
        lemma_pow3_reversal(a.len() as nat);
    }
    bit_reverse3(&mut a);
    DFT_radix3(&mut a, P, rootTable);
    a
}

/// Builds the table of the powers of `w = rootTable[1]^(P-2)` modulo `P`.
fn inverse_table(rootTable: &Vec<u128>, P: &u128, L: usize) -> (r: Vec<u128>)
    requires
        rootTable.len() >= 2,
        2 <= *P <= modulus_bound(),
    ensures
        r@ == power_table(modpow_value(rootTable[1] as int, (*P - 2) as nat, *P as int), L as nat, *P as int),
        all_below(r@, *P as int),
{
    let p = *P;
    let e = p - 2;
    let w = rootTable[1].modpow(&e, P);
    proof {
        lemma_modpow_below(rootTable[1] as int, e as nat, p as int);
    }
    let mut inverseTable = vec![0u128; L];
    let mut i: usize = 0;
    while i < L
        invariant
            2 <= p <= modulus_bound(),
            p == *P,
            w == modpow_value(rootTable[1] as int, e as nat, p as int),
            0 <= w < p,
            inverseTable.len() == L,
            i <= L,
            forall|k: int| 0 <= k < i ==> #[trigger] inverseTable@[k] == modpow_value(w as int, k as nat, p as int),
            forall|k: int| 0 <= k < L ==> #[trigger] inverseTable@[k] < p,
        decreases L - i,
    {
        let v = w.modpow(&(i as u128), P);
        proof {
            lemma_modpow_below(w as int, i as nat, p as int);
        }
        inverseTable.set(i, v);
        i = i + 1;
    }
    proof {
        assert(inverseTable@ =~= power_table(w as int, L as nat, p as int));
    }
    inverseTable
}

/// What `modpow` returns is below the modulus when the modulus exceeds 1.
pub proof fn lemma_modpow_below(b: int, e: nat, m: int)
    requires
        m >= 2,
    ensures
        0 <= modpow_value(b, e, m) < m,
{
}

/// Multiplies every entry by `c` modulo `P`.
fn scale_in_place(b: &mut Vec<u128>, c: u128, P: &u128)
    requires
        0 < *P <= modulus_bound(),
        c < modulus_bound(),
        all_below(old(b)@, modulus_bound()),
    ensures
        final(b)@ == scaled(old(b)@, c as int, *P as int),
        final(b).len() == old(b).len(),
{
    let ghost b0 = b@;
    let L = b.len();
    let mut i: usize = 0;
    while i < L
        invariant
            0 < *P <= modulus_bound(),
            c < modulus_bound(),
            b.len() == L,
            b0.len() == L,
            all_below(b0, modulus_bound()),
            i <= L,
            forall|k: int| 0 <= k < i ==> #[trigger] b@[k] == ((b0[k] * c) % (*P as int)) as u128,
            forall|k: int| i <= k < L ==> #[trigger] b@[k] == b0[k],
        decreases L - i,
    {
        proof {
            assert(b0[i as int] * c < 0x1_0000_0000_0000_0000_0000_0000_0000_0000) by (nonlinear_arith)
                requires b0[i as int] < 0x1_0000_0000_0000_0000, c < 0x1_0000_0000_0000_0000;
        }
        let v = b[i] * c % *P;
        b.set(i, v);
        i = i + 1;
    }
    proof {
        assert(b@ =~= scaled(b0, c as int, *P as int));
    }
}

/// The inverse radix-2 transform of `b`: the forward network with the
/// powers of `rootTable[1]^(P-2)`, then every entry multiplied by `n^(P-2)`.
pub fn inverse2(b: Vec<u128>, P: &u128, rootTable: &Vec<u128>) -> (r: Vec<u128>)
    requires
        b.len() == 0 || is_pow2(b.len() as nat),
        rootTable.len() >= 2,
        2 <= *P <= modulus_bound(),
        all_below(b@, modulus_bound()),
    ensures
        r@ == inverse2_spec(b@, *P as int, rootTable@),
        r.len() == b.len(),
{
    let L = b.len();
    let inverseTable = inverse_table(rootTable, P, L);
    let mut b = b;
    bit_reverse2(&mut b);
    DFT_radix2(&mut b, P, &inverseTable);
    let e = *P - 2;
    let L_inverse = (L as u128).modpow(&e, P);
    proof {
        lemma_modpow_below(L as int, e as nat, *P as int);
    }
    scale_in_place(&mut b, L_inverse, P);
    b
}

/// The inverse radix-3 transform of `b`: the forward network with the
/// powers of `rootTable[1]^(P-2)`, then every entry multiplied by `n^(P-2)`.
pub fn inverse3(b: Vec<u128>, P: &u128, rootTable: &Vec<u128>) -> (r: Vec<u128>)
    requires
        b.len() >= 1,
        is_pow3(b.len() as nat),
        rootTable.len() >= 2,
        2 <= *P <= modulus_bound(),
        all_below(b@, modulus_bound()),
    ensures
        r@ == inverse3_spec(b@, *P as int, rootTable@),
        r.len() == b.len(),
{
    let L = b.len();
    let inverseTable = inverse_table(rootTable, P, L);
    let mut b = b;
    proof {
        lemma_pow3_reversal(L as nat);
    }
    bit_reverse3(&mut b);
    DFT_radix3(&mut b, P, &inverseTable);
    let e = *P - 2;
    let L_inverse = (L as u128).modpow(&e, P);
    proof {
        lemma_modpow_below(L as int, e as nat, *P as int);
    }
    scale_in_place(&mut b, L_inverse, P);
    b
}

/// Every entry of a scaled sequence is below the modulus.
pub proof fn lemma_scaled_below(s: Seq<u128>, p: int)
    requires
        0 < p <= modulus_bound(),
        exists|t: Seq<u128>, c: int| s == scaled(t, c, p),
    ensures
        all_below(s, modulus_bound()),
        all_below(s, p),
{
    let (t, c) = choose|t: Seq<u128>, c: int| s == scaled(t, c, p);
    assert forall|k: int| 0 <= k < s.len() implies #[trigger] s[k] < p by {
        vstd::arithmetic::div_mod::lemma_mod_bound(t[k] * c, p);
    }
}

/// The radix-2 network's values are reduced modulo `p` once there is a stage.
pub proof fn lemma_stages2_below(a: Seq<u128>, p: int, table: Seq<u128>, n: int, s: nat)
    requires
        0 < p,
        s >= 1,
    ensures
        all_below(stages2(a, p, table, n, s), p),
{
    let prev = stages2(a, p, table, n, (s - 1) as nat);
    let m = pow2n(s) as int;
    assert forall|x: int| 0 <= x < prev.len() implies #[trigger] stage2(prev, p, table, n, m)[x] < p by {
        let h = m / 2;
        let r = x % m;
        if r < h {
            lemma_mod_bound(((prev[x] as int) % p) + (table[r * (n / m)] * prev[x + h]) % p, p);
        } else {
            lemma_mod_bound(((prev[x - h] as int) % p) + p - (table[(r - h) * (n / m)] * prev[x]) % p, p);
        }
    }
}

/// The radix-3 network's values are reduced modulo `p` once there is a stage.
pub proof fn lemma_stages3_below(a: Seq<u128>, p: int, table: Seq<u128>, n: int, s: nat)
    requires
        0 < p,
        s >= 1,
    ensures
        all_below(stages3(a, p, table, n, s), p),
{
    let prev = stages3(a, p, table, n, (s - 1) as nat);
    let g = pow3n((s - 1) as nat) as int;
    assert forall|x: int| 0 <= x < prev.len() implies #[trigger] stage3(prev, p, table, n, g)[x] < p by {
        let q = x % (3 * g);
        let r = q % g;
        let k = q / g;
        let j0 = x - q + r;
        let stride = n / (3 * g);
        let x0 = prev[j0] as int;
        let y = (prev[j0 + g] * table[r * stride]) % p;
        let z = (prev[j0 + 2 * g] * table[2 * r * stride]) % p;
        let w = table[n / 3 * 2 - n / 3] as int;
        let w2 = table[n / 3 * 2] as int;
        if k == 0 {
            lemma_mod_bound(x0 + y + z, p);
        } else if k == 1 {
            lemma_mod_bound(x0 % p + (w * y) % p + (w2 * z) % p, p);
        } else {
            lemma_mod_bound(x0 % p + (w2 * y) % p + (w * z) % p, p);
        }
    }
}

/// After a forward radix-3 transform of length at least 3, or of reduced
/// values, every value is below `p`.
pub proof fn lemma_transform3_below(a: Seq<u128>, p: int, table: Seq<u128>)
    requires
        0 < p,
        a.len() >= 1,
        a.len() <= usize::MAX,
        is_pow3(a.len()),
        a.len() >= 3 || all_below(a, p),
    ensures
        all_below(transform3_spec(a, p, table), p),
{
    let n = a.len();
    lemma_pow3_reversal(n);
    if n >= 3 {
        lemma_log3_pos(n);
        lemma_stages3_below(swap_fold(a, rev3_target(n), n), p, table, n as int, log3(n));
    } else {
        lemma_swap_fold_below(a, rev3_target(n), n, p);
        assert(log3(n) == 0);
    }
}

proof fn lemma_log3_pos(n: nat)
    requires
        n >= 3,
    ensures
        log3(n) >= 1,
{
}

/// Swapping entries keeps every entry below a bound, as long as the swap
/// targets stay within the sequence.
pub proof fn lemma_swap_fold_below(s: Seq<u128>, f: spec_fn(int) -> int, n: nat, b: int)
    requires
        all_below(s, b),
        n <= s.len(),
        forall|i: int| 0 <= i < n ==> #[trigger] f(i) > i ==> f(i) < s.len(),
    ensures
        all_below(swap_fold(s, f, n), b),
        swap_fold(s, f, n).len() == s.len(),
    decreases n,
{
    if n > 0 {
        lemma_swap_fold_below(s, f, (n - 1) as nat, b);
    }
}

} // verus!
