//! The checks that a client runs on the shares it holds, so that the server
//! can tell malformed inputs apart: a degree test on every share, and two
//! randomised sums of the bit, quadratic and bound tests, each masked by a
//! share of zero.
use vstd::prelude::*;
use crate::util::{pow2n, read_le_u64, chunk, word_at, words, le_bytes_of_words, shift, bit_len};
use crate::messages::{RecvType, ClientError};
use crate::client::{vec_contains, malicious_layout, y_len, squares, square_sum, bits_of, x_bits, zeros, reduced,
    reduced_sum};

verus! {

/// `f(0) + ... + f(n - 1)` modulo `p`, reduced after every addition.
pub open spec fn mod_sum(f: spec_fn(int) -> int, n: nat, p: int) -> int
    decreases n,
{
    if n == 0 {
        0
    } else {
        (mod_sum(f, (n - 1) as nat, p) + f(n - 1)) % p
    }
}

/// A sum reduced after every addition is the plain sum, reduced.
pub proof fn lemma_mod_sum_is_sum(f: spec_fn(int) -> int, n: nat, p: int)
    requires
        p > 0,
    ensures
        mod_sum(f, n, p) == crate::sums::sum_to(f, n) % p,
    decreases n,
{
    if n == 0 {
        vstd::arithmetic::div_mod::lemma_small_mod(0, p as nat);
    } else {
        lemma_mod_sum_is_sum(f, (n - 1) as nat, p);
        vstd::arithmetic::div_mod::lemma_add_mod_noop_right(f(n - 1), crate::sums::sum_to(f, (n - 1) as nat), p);
    }
}

/// `f(0) + ... + f(n - 1)`.
pub open spec fn plain_sum(f: spec_fn(int) -> int, n: nat) -> int
    decreases n,
{
    if n == 0 {
        0
    } else {
        plain_sum(f, (n - 1) as nat) + f(n - 1)
    }
}

/// Zero modulo `p` exactly when `x` is a bit: `x (1 - x)`.
pub open spec fn bit_check(x: int, p: int) -> int {
    (x * (1 + p - x)) % p
}

// Positions in a row of shares, for `v` inputs in blocks of `l`, `s` bits
// per input and `y` bits for the sum of squares; each block of `l` values
// is one share.

/// The share of the sum of squares.
pub open spec fn ysum_pos(v: nat, l: nat) -> int {
    (2 * v) as int / l as int
}

/// The first share of the bits of the sum of squares.
pub open spec fn ybits_base(v: nat, l: nat) -> int {
    (2 * v + l) as int / l as int
}

/// The first share of the bits of the inputs.
pub open spec fn bits_base(v: nat, l: nat, y: nat) -> int {
    (2 * v + l + y) as int / l as int
}

/// The first share of the bits of input block `j`.
pub open spec fn xbit_base(v: nat, l: nat, s: nat, y: nat, j: int) -> int {
    (2 * v + l + y + j * s * l) / l as int
}

/// The length of the extended input without its three last blocks.
pub open spec fn core_len(v: nat, l: nat, s: nat, y: nat) -> int {
    (2 * v + l + y + l * s * (v / l)) as int
}

/// The share of the zero block `A`.
pub open spec fn mask_a_pos(v: nat, l: nat, s: nat, y: nat) -> int {
    (core_len(v, l, s, y) + l) / l as int
}

/// The share of the zero-sum block `B`.
pub open spec fn mask_b_pos(v: nat, l: nat, s: nat, y: nat) -> int {
    (core_len(v, l, s, y) + 2 * l) / l as int
}

/// The number of shares in a row.
pub open spec fn share_cols(v: nat, l: nat, s: nat, y: nat) -> int {
    (core_len(v, l, s, y) + 3 * l) / l as int
}

/// Degree test terms: `r_j sh_j`.
pub open spec fn degree_terms(sh: Seq<u64>, r: Seq<u64>, p: int) -> spec_fn(int) -> int {
    |j: int| (r[j] * sh[j]) % p
}

/// Bit test terms: `r_j sh_{base+j} (1 - sh_{base+j})`.
pub open spec fn bit_terms(sh: Seq<u64>, base: int, r: Seq<u64>, p: int) -> spec_fn(int) -> int {
    |j: int| (bit_check(sh[base + j] as int, p) * r[j]) % p
}

/// Quadratic test terms: `r_j (x_j^2 - y_j)`, with `y_j` at `half + j`.
pub open spec fn quadratic_terms(sh: Seq<u64>, half: int, r: Seq<u64>, p: int) -> spec_fn(int) -> int {
    |j: int| (((sh[j] * sh[j]) % p + p - sh[half + j]) * r[j]) % p
}

/// The bits from `base` on, weighted by the powers of two.
pub open spec fn bit_weights(sh: Seq<u64>, base: int, p: int) -> spec_fn(int) -> int {
    |k: int| (sh[base + k] * pow2n(k as nat)) % p
}

/// The value that the `s` bits of input block `j` make.
pub open spec fn bits_value(sh: Seq<u64>, v: nat, l: nat, s: nat, y: nat, j: int, p: int) -> int {
    mod_sum(bit_weights(sh, xbit_base(v, l, s, y, j), p), s, p)
}

/// Input bound test terms: `r_j (sum_k 2^k b_{j,k} - x_j)`.
pub open spec fn bound_terms(sh: Seq<u64>, v: nat, l: nat, s: nat, y: nat, r: Seq<u64>, p: int) -> spec_fn(int) -> int {
    |j: int| ((bits_value(sh, v, l, s, y, j, p) + p - sh[j]) * r[j]) % p
}

/// The shares from `base` on, reduced modulo `p`.
pub open spec fn reduced_terms(sh: Seq<u64>, base: int, p: int) -> spec_fn(int) -> int {
    |j: int| (sh[base + j] as int) % p
}

/// The shares from `base` on times the weights from `woff` on.
pub open spec fn weighted_terms(sh: Seq<u64>, base: int, w: Seq<u64>, woff: int, p: int) -> spec_fn(int) -> int {
    |j: int| (sh[base + j] * w[woff + j]) % p
}

/// The layout facts that the tests rely on: every position they read lies
/// below the number of shares in a row.
pub proof fn lemma_layout(v: nat, l: nat, s: nat, y: nat)
    requires
        l >= 1,
    ensures
        ysum_pos(v, l) + 1 == ybits_base(v, l),
        ybits_base(v, l) + y / l <= bits_base(v, l, y),
        (v / l) + (v / l) <= ysum_pos(v, l),
        mask_a_pos(v, l, s, y) == bits_base(v, l, y) + s * (v / l) + 1,
        mask_b_pos(v, l, s, y) == bits_base(v, l, y) + s * (v / l) + 2,
        share_cols(v, l, s, y) == bits_base(v, l, y) + s * (v / l) + 3,
        forall|j: int| 0 <= j < v / l ==> #[trigger] xbit_base(v, l, s, y, j) == bits_base(v, l, y) + j * s,
        forall|j: int| 0 <= j < v / l ==> #[trigger] xbit_base(v, l, s, y, j) + s <= bits_base(v, l, y) + s * (v / l),
{
    let li = l as int;
    let b = (v / l) as int;
    vstd::arithmetic::div_mod::lemma_hoist_over_denominator((2 * v) as int, 1, l);
    assert((2 * v) as int + 1 * li == (2 * v + l) as int);
    lemma_div_add_le((2 * v + l) as int, y as int, li);
    lemma_div_add_le(v as int, v as int, li);
    assert(l * s * (v / l) == (s * b + 1) * li - li) by (nonlinear_arith)
        requires b == v / l, li == l;
    let x = (2 * v + l + y) as int;
    vstd::arithmetic::div_mod::lemma_hoist_over_denominator(x, s * b + 1, l);
    vstd::arithmetic::div_mod::lemma_hoist_over_denominator(x, s * b + 2, l);
    vstd::arithmetic::div_mod::lemma_hoist_over_denominator(x, s * b + 3, l);
    assert(core_len(v, l, s, y) + li == x + (s * b + 1) * li) by (nonlinear_arith)
        requires core_len(v, l, s, y) == x + l * s * (v / l), b == v / l, li == l;
    assert(core_len(v, l, s, y) + 2 * li == x + (s * b + 2) * li) by (nonlinear_arith)
        requires core_len(v, l, s, y) == x + l * s * (v / l), b == v / l, li == l;
    assert(core_len(v, l, s, y) + 3 * li == x + (s * b + 3) * li) by (nonlinear_arith)
        requires core_len(v, l, s, y) == x + l * s * (v / l), b == v / l, li == l;
    assert forall|j: int| 0 <= j < v / l implies #[trigger] xbit_base(v, l, s, y, j) == bits_base(v, l, y) + j * s by {
        vstd::arithmetic::div_mod::lemma_hoist_over_denominator(x, j * s, l);
        assert(j * s * li == (j * s) * li);
    }
    assert forall|j: int| 0 <= j < v / l implies #[trigger] xbit_base(v, l, s, y, j) + s <= bits_base(v, l, y) + s * (v / l) by {
        vstd::arithmetic::div_mod::lemma_hoist_over_denominator(x, j * s, l);
        assert(j * s * li == (j * s) * li);
        assert(j * s + s <= s * b) by (nonlinear_arith)
            requires 0 <= j < b, s >= 0;
    }
}

/// `a / d + b / d <= (a + b) / d` for non-negative `a`, `b`.
pub proof fn lemma_div_add_le(a: int, b: int, d: int)
    requires
        a >= 0,
        b >= 0,
        d > 0,
    ensures
        a / d + b / d <= (a + b) / d,
{
    vstd::arithmetic::div_mod::lemma_fundamental_div_mod(a, d);
    vstd::arithmetic::div_mod::lemma_fundamental_div_mod(b, d);
    vstd::arithmetic::div_mod::lemma_mod_bound(a, d);
    vstd::arithmetic::div_mod::lemma_mod_bound(b, d);
    let q = a / d + b / d;
    assert(d * q <= a + b) by (nonlinear_arith)
        requires a == d * (a / d) + a % d, b == d * (b / d) + b % d, a % d >= 0, b % d >= 0, q == a / d + b / d;
    vstd::arithmetic::div_mod::lemma_div_is_ordered(d * q, a + b, d);
    vstd::arithmetic::div_mod::lemma_div_multiples_vanish(q, d);
}

/// The largest field: shares are words, so the field has at most `2^64`
/// elements.
pub open spec fn field_bound() -> int {
    0x1_0000_0000_0000_0000int
}

/// `2^128`, the bound of the products the tests compute.
pub open spec fn wide_bound() -> int {
    0x1_0000_0000_0000_0000_0000_0000_0000_0000int
}

/// The factor of `r_j` in term `j` of the quadratic test: `x_j^2 - y_j`,
/// with `x_j^2` reduced and `p` added.
pub open spec fn quadratic_gap(sh: Seq<u64>, half: int, p: int, j: int) -> int {
    (sh[j] * sh[j]) % p + p - sh[half + j]
}

/// The factor of `r_j` in term `j` of the input bound test: the value of
/// the bits of input `j` minus that input, with `p` added.
pub open spec fn bound_gap(sh: Seq<u64>, v: nat, l: nat, s: nat, y: nat, j: int, p: int) -> int {
    bits_value(sh, v, l, s, y, j, p) + p - sh[j]
}

/// The products of the quadratic test's first `n` terms fit in 128 bits.
pub open spec fn quadratic_fits(sh: Seq<u64>, half: int, r: Seq<u64>, n: nat, p: int) -> bool {
    forall|j: int| 0 <= j < n ==> #[trigger] quadratic_gap(sh, half, p, j) * r[j] < wide_bound()
}

/// The products of the input bound test's terms fit in 128 bits.
pub open spec fn bound_fits(sh: Seq<u64>, v: nat, l: nat, s: nat, y: nat, r: Seq<u64>, p: int) -> bool {
    forall|j: int| 0 <= j < v / l ==> #[trigger] bound_gap(sh, v, l, s, y, j, p) * r[j] < wide_bound()
}

/// `x (p + 1 - x)` fits in 128 bits for `x < p <= 2^64`.
proof fn lemma_bit_product_fits(x: int, p: int)
    requires
        0 <= x < p,
        p <= field_bound(),
    ensures
        x * (1 + p - x) < wide_bound(),
{
    if x <= 0x8000_0000_0000_0000 {
        assert(x * (1 + p - x) < wide_bound()) by (nonlinear_arith)
            requires 0 <= x <= 0x8000_0000_0000_0000, 1 + p - x <= 0x1_0000_0000_0000_0001, x < p;
    } else {
        assert(x * (1 + p - x) < wide_bound()) by (nonlinear_arith)
            requires 0x8000_0000_0000_0000int < x < 0x1_0000_0000_0000_0000int, 0 < 1 + p - x <= 0x8000_0000_0000_0000;
    }
}

/// Every share of the row lies below `p`.
pub open spec fn below(sh: Seq<u64>, p: int) -> bool {
    forall|k: int| 0 <= k < sh.len() ==> #[trigger] sh[k] < p
}

fn degree_test(sh: &Vec<u64>, r: &Vec<u64>, n: usize, p: u128) -> (t: u128)
    requires
        0 < p <= field_bound(),
        n <= sh.len(),
        n <= r.len(),
    ensures
        t == mod_sum(degree_terms(sh@, r@, p as int), n as nat, p as int),
        t < p,
{
    let ghost f = degree_terms(sh@, r@, p as int);
    let mut acc: u128 = 0;
    let mut j: usize = 0;
    while j < n
        invariant
            0 < p <= field_bound(),
            n <= sh.len(),
            n <= r.len(),
            f == degree_terms(sh@, r@, p as int),
            j <= n,
            acc == mod_sum(f, j as nat, p as int),
            acc < p,
        decreases n - j,
    {
        let a = r[j] as u128;
        let b = sh[j] as u128;
        proof {
            assert(a * b < 0x1_0000_0000_0000_0000_0000_0000_0000_0000) by (nonlinear_arith)
                requires a < 0x1_0000_0000_0000_0000, b < 0x1_0000_0000_0000_0000;
        }
        let t = a * b % p;
        acc = (acc + t) % p;
        j = j + 1;
    }
    acc
}

fn bit_test(sh: &Vec<u64>, base: usize, r: &Vec<u64>, n: usize, p: u128) -> (t: u128)
    requires
        0 < p <= field_bound(),
        below(sh@, p as int),
        base + n <= sh.len(),
        n <= r.len(),
    ensures
        t == mod_sum(bit_terms(sh@, base as int, r@, p as int), n as nat, p as int),
        t < p,
{
    let ghost f = bit_terms(sh@, base as int, r@, p as int);
    let mut acc: u128 = 0;
    let mut j: usize = 0;
    while j < n
        invariant
            0 < p <= field_bound(),
            below(sh@, p as int),
            base + n <= sh.len(),
            n <= r.len(),
            f == bit_terms(sh@, base as int, r@, p as int),
            j <= n,
            acc == mod_sum(f, j as nat, p as int),
            acc < p,
        decreases n - j,
    {
        let x = sh[base + j] as u128;
        let c = r[j] as u128;
        proof {
            lemma_bit_product_fits(x as int, p as int);
        }
        let bc = x * (1 + p - x) % p;
        proof {
            assert(bc * c < 0x1_0000_0000_0000_0000_0000_0000_0000_0000) by (nonlinear_arith)
                requires bc < p, p <= 0x1_0000_0000_0000_0000, c < 0x1_0000_0000_0000_0000;
        }
        let t = bc * c % p;
        acc = (acc + t) % p;
        j = j + 1;
    }
    acc
}

fn quadratic_test(sh: &Vec<u64>, half: usize, r: &Vec<u64>, n: usize, p: u128) -> (t: u128)
    requires
        0 < p <= field_bound(),
        below(sh@, p as int),
        n <= sh.len(),
        half + n <= sh.len(),
        n <= r.len(),
        quadratic_fits(sh@, half as int, r@, n as nat, p as int),
    ensures
        t == mod_sum(quadratic_terms(sh@, half as int, r@, p as int), n as nat, p as int),
        t < p,
{
    let ghost f = quadratic_terms(sh@, half as int, r@, p as int);
    let mut acc: u128 = 0;
    let mut j: usize = 0;
    while j < n
        invariant
            0 < p <= field_bound(),
            below(sh@, p as int),
            n <= sh.len(),
            half + n <= sh.len(),
            n <= r.len(),
            quadratic_fits(sh@, half as int, r@, n as nat, p as int),
            f == quadratic_terms(sh@, half as int, r@, p as int),
            j <= n,
            acc == mod_sum(f, j as nat, p as int),
            acc < p,
        decreases n - j,
    {
        let x = sh[j] as u128;
        let y = sh[half + j] as u128;
        let c = r[j] as u128;
        proof {
            assert(x * x < 0x1_0000_0000_0000_0000_0000_0000_0000_0000) by (nonlinear_arith)
                requires x < 0x1_0000_0000_0000_0000;
        }
        let sq = x * x % p;
        let d = sq + p - y;
        proof {
            assert(d == quadratic_gap(sh@, half as int, p as int, j as int));
        }
        let t = d * c % p;
        acc = (acc + t) % p;
        j = j + 1;
    }
    acc
}

fn weighted_test(sh: &Vec<u64>, base: usize, w: &Vec<u64>, woff: usize, n: usize, p: u128) -> (t: u128)
    requires
        0 < p <= field_bound(),
        base + n <= sh.len(),
        woff + n <= w.len(),
    ensures
        t == mod_sum(weighted_terms(sh@, base as int, w@, woff as int, p as int), n as nat, p as int),
        t < p,
{
    let ghost f = weighted_terms(sh@, base as int, w@, woff as int, p as int);
    let mut acc: u128 = 0;
    let mut j: usize = 0;
    while j < n
        invariant
            0 < p <= field_bound(),
            base + n <= sh.len(),
            woff + n <= w.len(),
            f == weighted_terms(sh@, base as int, w@, woff as int, p as int),
            j <= n,
            acc == mod_sum(f, j as nat, p as int),
            acc < p,
        decreases n - j,
    {
        let a = sh[base + j] as u128;
        let b = w[woff + j] as u128;
        proof {
            assert(a * b < 0x1_0000_0000_0000_0000_0000_0000_0000_0000) by (nonlinear_arith)
                requires a < 0x1_0000_0000_0000_0000, b < 0x1_0000_0000_0000_0000;
        }
        let t = a * b % p;
        acc = (acc + t) % p;
        j = j + 1;
    }
    acc
}

proof fn lemma_pow2n_at_most_64(k: nat)
    requires
        k <= 64,
    ensures
        pow2n(k) <= 0x1_0000_0000_0000_0000,
        k >= 1 ==> pow2n(k) == 2 * pow2n((k - 1) as nat),
{
    assert(pow2n(64) == 0x1_0000_0000_0000_0000) by {
        reveal_with_fuel(pow2n, 65);
    }
    if k < 64 {
        crate::ntt::lemma_pow2n_strict(k, 64);
    }
}

fn bits_value_exec(sh: &Vec<u64>, base: usize, s: usize, p: u128) -> (t: u128)
    requires
        0 < p <= field_bound(),
        below(sh@, p as int),
        base + s <= sh.len(),
        s <= 64,
    ensures
        t == mod_sum(bit_weights(sh@, base as int, p as int), s as nat, p as int),
        t < p,
{
    let ghost f = bit_weights(sh@, base as int, p as int);
    let mut acc: u128 = 0;
    let mut pw: u128 = 1;
    let mut k: usize = 0;
    while k < s
        invariant
            0 < p <= field_bound(),
            below(sh@, p as int),
            base + s <= sh.len(),
            s <= 64,
            f == bit_weights(sh@, base as int, p as int),
            k <= s,
            pw == pow2n(k as nat),
            pw <= 0x1_0000_0000_0000_0000,
            acc == mod_sum(f, k as nat, p as int),
            acc < p,
        decreases s - k,
    {
        let x = sh[base + k] as u128;
        proof {
            assert(x * pw < 0x1_0000_0000_0000_0000_0000_0000_0000_0000) by (nonlinear_arith)
                requires x < p, p <= 0x1_0000_0000_0000_0000, pw <= 0x1_0000_0000_0000_0000;
            assert(f(k as int) == (x * pw) % (p as int));
        }
        let t = x * pw % p;
        acc = (acc + t) % p;
        proof {
            lemma_pow2n_at_most_64((k + 1) as nat);
        }
        pw = pw * 2;
        k = k + 1;
    }
    acc
}

fn bound_test(sh: &Vec<u64>, V: usize, L: usize, S: usize, Y: usize, r: &Vec<u64>, p: u128) -> (t: u128)
    requires
        0 < p <= field_bound(),
        below(sh@, p as int),
        L >= 1,
        S <= 64,
        core_len(V as nat, L as nat, S as nat, Y as nat) + 3 * L <= usize::MAX,
        sh.len() >= share_cols(V as nat, L as nat, S as nat, Y as nat),
        r.len() >= V / L,
        bound_fits(sh@, V as nat, L as nat, S as nat, Y as nat, r@, p as int),
    ensures
        t == mod_sum(bound_terms(sh@, V as nat, L as nat, S as nat, Y as nat, r@, p as int), (V / L) as nat, p as int),
        t < p,
{
    let B = V / L;
    let ghost f = bound_terms(sh@, V as nat, L as nat, S as nat, Y as nat, r@, p as int);
    proof {
        lemma_layout(V as nat, L as nat, S as nat, Y as nat);
    }
    let mut acc: u128 = 0;
    let mut j: usize = 0;
    while j < B
        invariant
            0 < p <= field_bound(),
            below(sh@, p as int),
            L >= 1,
            S <= 64,
            B == V / L,
            core_len(V as nat, L as nat, S as nat, Y as nat) + 3 * L <= usize::MAX,
            sh.len() >= share_cols(V as nat, L as nat, S as nat, Y as nat),
            r.len() >= B,
            bound_fits(sh@, V as nat, L as nat, S as nat, Y as nat, r@, p as int),
            f == bound_terms(sh@, V as nat, L as nat, S as nat, Y as nat, r@, p as int),
            forall|q: int| 0 <= q < V / L ==> #[trigger] xbit_base(V as nat, L as nat, S as nat, Y as nat, q) + S
                <= bits_base(V as nat, L as nat, Y as nat) + S * (V / L),
            share_cols(V as nat, L as nat, S as nat, Y as nat) == bits_base(V as nat, L as nat, Y as nat) + S * (V / L) + 3,
            (V / L) + (V / L) <= ysum_pos(V as nat, L as nat),
            ysum_pos(V as nat, L as nat) + 1 == ybits_base(V as nat, L as nat),
            ybits_base(V as nat, L as nat) <= bits_base(V as nat, L as nat, Y as nat),
            j <= B,
            acc == mod_sum(f, j as nat, p as int),
            acc < p,
        decreases B - j,
    {
        proof {
            assert(j * S * L <= L * S * B && j * S <= L * S * B) by (nonlinear_arith)
                requires j < B, L >= 1;
        }
        let xb = (2 * V + L + Y + j * S * L) / L;
        proof {
            assert(xb == xbit_base(V as nat, L as nat, S as nat, Y as nat, j as int));
        }
        let sx = bits_value_exec(sh, xb, S, p);
        let x = sh[j] as u128;
        let c = r[j] as u128;
        let d = sx + p - x;
        proof {
            assert(d == bound_gap(sh@, V as nat, L as nat, S as nat, Y as nat, j as int, p as int));
        }
        let t = d * c % p;
        acc = (acc + t) % p;
        j = j + 1;
    }
    acc
}

fn reduced_plain_sum(sh: &Vec<u64>, base: usize, n: usize, p: u128) -> (t: u128)
    requires
        0 < p <= field_bound(),
        base + n <= sh.len(),
    ensures
        t == plain_sum(reduced_terms(sh@, base as int, p as int), n as nat),
        t <= n * (p - 1),
{
    let ghost f = reduced_terms(sh@, base as int, p as int);
    let mut acc: u128 = 0;
    let mut j: usize = 0;
    while j < n
        invariant
            0 < p <= field_bound(),
            base + n <= sh.len(),
            f == reduced_terms(sh@, base as int, p as int),
            j <= n,
            acc == plain_sum(f, j as nat),
            acc <= j * (p - 1),
        decreases n - j,
    {
        let t = (sh[base + j] as u128) % p;
        proof {
            assert(acc + t <= (j + 1) * (p - 1) && (j + 1) * (p - 1) <= 0xffff_ffff_ffff_ffffint * 0xffff_ffff_ffff_ffffint)
                by (nonlinear_arith)
                requires acc <= j * (p - 1), t <= p - 1, j < n, (n as int) <= 0xffff_ffff_ffff_ffffint,
                    1 <= p <= 0x1_0000_0000_0000_0000;
        }
        acc = acc + t;
        j = j + 1;
    }
    acc
}

/// The public randomness of the error-correction round, as the server
/// broadcasts it: the dropped clients, then one vector per test, and the
/// shares of the powers of two for the bound of the sum of squares.
pub struct TestRandomness {
    pub dropouts: Vec<u64>,
    pub degree: Vec<u64>,
    pub input_bit: Vec<u64>,
    pub quadratic: Vec<u64>,
    pub input_bound: Vec<u64>,
    pub l2_sum: Vec<u64>,
    pub l2_bit: Vec<u64>,
    pub l2_bound: Vec<u64>,
    pub l2_bound_shares: Vec<u64>,
}

/// The randomness holds every value that the tests of party `idx` read.
pub open spec fn rand_ok(r: &TestRandomness, v: nat, l: nat, s: nat, y: nat, idx: nat) -> bool {
    &&& r.degree.len() >= share_cols(v, l, s, y)
    &&& r.input_bit.len() >= (v / l) * s
    &&& r.quadratic.len() >= v / l
    &&& r.input_bound.len() >= v / l
    &&& r.l2_sum.len() >= 1
    &&& r.l2_bit.len() >= y / l
    &&& r.l2_bound.len() >= 1
    &&& r.l2_bound_shares.len() >= idx * (y / l) + y / l
}

/// The sum of the shares of the squares, as the sum test adds them up.
pub open spec fn squares_share_sum(sh: Seq<u64>, v: nat, l: nat, p: int) -> int {
    plain_sum(reduced_terms(sh, (v / l) as int, p), v / l)
}

/// The product in the sum test fits in 128 bits.
pub open spec fn sum_test_fits(sh: Seq<u64>, r: &TestRandomness, v: nat, l: nat, p: int) -> bool {
    (squares_share_sum(sh, v, l, p) + p - sh[ysum_pos(v, l)]) * r.l2_sum@[0] < 0x1_0000_0000_0000_0000_0000_0000_0000_0000
}

/// A row of shares on which the tests can run.
pub open spec fn row_ok(sh: Seq<u64>, r: &TestRandomness, p: int, v: nat, l: nat, s: nat, y: nat, idx: nat) -> bool {
    &&& sh.len() >= share_cols(v, l, s, y)
    &&& below(sh, p)
    &&& rand_ok(r, v, l, s, y, idx)
    &&& sum_test_fits(sh, r, v, l, p)
    &&& quadratic_fits(sh, (v / l) as int, r.quadratic@, v / l, p)
    &&& bound_fits(sh, v, l, s, y, r.input_bound@, p)
}

/// The three test values of one row of shares: the degree test, the
/// masked sum of the input bit, quadratic and sum-of-squares bit tests,
/// and the masked sum of the input bound, sum of squares and its bound tests.
pub open spec fn row_tests(sh: Seq<u64>, r: &TestRandomness, p: int, v: nat, l: nat, s: nat, y: nat, idx: nat) -> Seq<u64> {
    let b = v / l;
    let yl = y / l;
    let dt = mod_sum(degree_terms(sh, r.degree@, p), share_cols(v, l, s, y) as nat, p);
    let ibtt = mod_sum(bit_terms(sh, bits_base(v, l, y), r.input_bit@, p), b * s, p);
    let qt = mod_sum(quadratic_terms(sh, b as int, r.quadratic@, p), b, p);
    let l2nbtt = mod_sum(bit_terms(sh, ybits_base(v, l), r.l2_bit@, p), yl, p);
    let sum_a = ((ibtt + qt + l2nbtt) % p + sh[mask_a_pos(v, l, s, y)]) % p;
    let ibdt = mod_sum(bound_terms(sh, v, l, s, y, r.input_bound@, p), b, p);
    let ysum = sh[ysum_pos(v, l)] as int;
    let l2nst = ((squares_share_sum(sh, v, l, p) + p - ysum) * r.l2_sum@[0]) % p;
    let share_sum = mod_sum(weighted_terms(sh, ybits_base(v, l), r.l2_bound_shares@, (idx * yl) as int, p), yl, p);
    let l2nbdt = (((ysum + p - share_sum) % p) * r.l2_bound@[0]) % p;
    let sum_b = ((ibdt + l2nst + l2nbdt) % p + sh[mask_b_pos(v, l, s, y)]) % p;
    seq![dt as u64, sum_a as u64, sum_b as u64]
}

/// The three test values of the row `sh` of shares, for party `idx`.
pub fn row_tests_exec(sh: &Vec<u64>, r: &TestRandomness, p: u128, V: usize, L: usize, S: usize, Y: usize, idx: usize)
    -> (t: Vec<u64>)
    requires
        0 < p <= field_bound(),
        L >= 1,
        S <= 64,
        L * S <= usize::MAX,
        core_len(V as nat, L as nat, S as nat, Y as nat) + 3 * L <= usize::MAX,
        row_ok(sh@, r, p as int, V as nat, L as nat, S as nat, Y as nat, idx as nat),
    ensures
        t@ == row_tests(sh@, r, p as int, V as nat, L as nat, S as nat, Y as nat, idx as nat),
{
    proof {
        lemma_layout(V as nat, L as nat, S as nat, Y as nat);
    }
    let B = V / L;
    let YL = Y / L;
    let tot = 2 * V + L + Y + L * S * B;
    let cols = (tot + 3 * L) / L;
    let bbase = (2 * V + L + Y) / L;
    let ybase = (2 * V + L) / L;
    let ypos = (2 * V) / L;
    let apos = (tot + L) / L;
    let bpos = (tot + 2 * L) / L;
    proof {
        assert(B * S <= cols) by (nonlinear_arith)
            requires cols == bbase + S * B + 3, bbase >= 0;
    }
    let dt = degree_test(sh, &r.degree, cols, p);
    let ibtt = bit_test(sh, bbase, &r.input_bit, B * S, p);
    let qt = quadratic_test(sh, B, &r.quadratic, B, p);
    let l2nbtt = bit_test(sh, ybase, &r.l2_bit, YL, p);
    let sum_a = ((ibtt + qt + l2nbtt) % p + sh[apos] as u128) % p;
    let ibdt = bound_test(sh, V, L, S, Y, &r.input_bound, p);
    let sum_y = reduced_plain_sum(sh, B, B, p);
    let ysum = sh[ypos] as u128;
    proof {
        assert(sum_y + p <= 0xffff_ffff_ffff_ffffint * 0xffff_ffff_ffff_ffffint + 0x1_0000_0000_0000_0000int) by (nonlinear_arith)
            requires sum_y <= B * (p - 1), (B as int) <= 0xffff_ffff_ffff_ffffint,
                1 <= p <= 0x1_0000_0000_0000_0000;
    }
    let l2nst = (sum_y + p - ysum) * (r.l2_sum[0] as u128) % p;
    proof {
        assert(idx * YL + YL <= r.l2_bound_shares.len());
    }
    let share_sum = weighted_test(sh, ybase, &r.l2_bound_shares, idx * YL, YL, p);
    let dsum = (ysum + p - share_sum) % p;
    let c = r.l2_bound[0] as u128;
    proof {
        assert(dsum * c < 0x1_0000_0000_0000_0000_0000_0000_0000_0000) by (nonlinear_arith)
            requires dsum < p, p <= 0x1_0000_0000_0000_0000, c < 0x1_0000_0000_0000_0000;
    }
    let l2nbdt = dsum * c % p;
    let sum_b = ((ibdt + l2nst + l2nbdt) % p + sh[bpos] as u128) % p;
    let mut t: Vec<u64> = Vec::new();
    t.push(dt as u64);
    t.push(sum_a as u64);
    t.push(sum_b as u64);
    proof {
        assert(t@ =~= row_tests(sh@, r, p as int, V as nat, L as nat, S as nat, Y as nat, idx as nat));
    }
    t
}


pub(crate) fn read_words(m: Vec<u8>) -> (w: Vec<u64>)
    requires
        m.len() == 0 || m.len() >= 8,
    ensures
        w@ == words(m@),
{
    let ghost mv = m@;
    let w = read_le_u64(m);
    proof {
        assert forall|k: int| 0 <= k < w.len() implies #[trigger] w@[k] == word_at(mv, k) by {
            crate::util::lemma_le_value_u64(chunk(mv, 8, k));
        }
        assert(w@ =~= words(mv));
    }
    w
}

/// The randomness that the nine parts of a broadcast hold, in order.
pub open spec fn randomness_of(r: &TestRandomness, m: Seq<Vec<u8>>) -> bool {
    &&& r.dropouts@ == words(m[0]@)
    &&& r.degree@ == words(m[1]@)
    &&& r.input_bit@ == words(m[2]@)
    &&& r.quadratic@ == words(m[3]@)
    &&& r.input_bound@ == words(m[4]@)
    &&& r.l2_sum@ == words(m[5]@)
    &&& r.l2_bit@ == words(m[6]@)
    &&& r.l2_bound@ == words(m[7]@)
    &&& r.l2_bound_shares@ == words(m[8]@)
}

/// A matrix of nine parts holds only parts that are empty or at least a word long.
pub open spec fn words_readable(w: RecvType) -> bool {
    match w {
        RecvType::matrix(m) => m.len() == 9 ==> forall|k: int| 0 <= k < 9 ==> (#[trigger] m@[k]).len() == 0
            || m@[k].len() >= 8,
        _ => true,
    }
}

/// Reads the randomness of the error-correction round from its broadcast,
/// which must be a matrix of nine parts; anything else is an unexpected
/// message, handed back.
pub fn parse_test_randomness(waitRes: RecvType) -> (r: Result<TestRandomness, ClientError>)
    requires
        words_readable(waitRes),
    ensures
        match waitRes {
            RecvType::matrix(m) => if m.len() == 9 {
                r matches Ok(t) && randomness_of(&t, m@)
            } else {
                r matches Err(ClientError::UnexpectedRecv(RecvType::matrix(m2))) && m2@ == m@
            },
            _ => r matches Err(ClientError::UnexpectedRecv(w)) && w == waitRes,
        },
{
    match waitRes {
        RecvType::matrix(m) => {
            if m.len() != 9 {
                return Err(ClientError::UnexpectedRecv(RecvType::matrix(m)));
            }
            let ghost mv = m@;
            proof {
                assert(m@[0].len() == 0 || m@[0].len() >= 8);
                assert(m@[1].len() == 0 || m@[1].len() >= 8);
                assert(m@[2].len() == 0 || m@[2].len() >= 8);
                assert(m@[3].len() == 0 || m@[3].len() >= 8);
                assert(m@[4].len() == 0 || m@[4].len() >= 8);
                assert(m@[5].len() == 0 || m@[5].len() >= 8);
                assert(m@[6].len() == 0 || m@[6].len() >= 8);
                assert(m@[7].len() == 0 || m@[7].len() >= 8);
                assert(m@[8].len() == 0 || m@[8].len() >= 8);
            }
            let t = TestRandomness {
                dropouts: read_words(m[0].clone()),
                degree: read_words(m[1].clone()),
                input_bit: read_words(m[2].clone()),
                quadratic: read_words(m[3].clone()),
                input_bound: read_words(m[4].clone()),
                l2_sum: read_words(m[5].clone()),
                l2_bit: read_words(m[6].clone()),
                l2_bound: read_words(m[7].clone()),
                l2_bound_shares: read_words(m[8].clone()),
            };
            Ok(t)
        },
        _ => Err(ClientError::UnexpectedRecv(waitRes)),
    }
}

/// Whether the tests can run on every row of a client that did not drop out.
pub open spec fn rows_ok(shares: Seq<Vec<u64>>, r: &TestRandomness, p: int, v: nat, l: nat, s: nat, y: nat, idx: nat) -> bool {
    forall|i: int| 0 <= i < shares.len() && !r.dropouts@.contains(i as u64)
        ==> row_ok(#[trigger] shares[i]@, r, p, v, l, s, y, idx)
}

/// The message of the error-correction round: for each client, the three
/// test values of its row of shares as little-endian words, or nothing for
/// a client that dropped out.
pub open spec fn tests_message(msg: Seq<Vec<u8>>, shares: Seq<Vec<u64>>, r: &TestRandomness, p: int, v: nat, l: nat,
    s: nat, y: nat, idx: nat) -> bool {
    &&& msg.len() == shares.len()
    &&& forall|i: int| 0 <= i < shares.len() ==> (#[trigger] msg[i])@ == if r.dropouts@.contains(i as u64) {
        Seq::<u8>::empty()
    } else {
        le_bytes_of_words(row_tests(shares[i]@, r, p, v, l, s, y, idx))
    }
}

/// Runs the tests on the row of every client that did not drop out.
pub fn error_correction_tests(shares: &Vec<Vec<u64>>, r: &TestRandomness, p: u128, V: usize, L: usize, S: usize,
    Y: usize, idx: usize) -> (msg: Vec<Vec<u8>>)
    requires
        0 < p <= field_bound(),
        L >= 1,
        S <= 64,
        L * S <= usize::MAX,
        core_len(V as nat, L as nat, S as nat, Y as nat) + 3 * L <= usize::MAX,
        shares.len() <= u64::MAX,
        rows_ok(shares@, r, p as int, V as nat, L as nat, S as nat, Y as nat, idx as nat),
    ensures
        tests_message(msg@, shares@, r, p as int, V as nat, L as nat, S as nat, Y as nat, idx as nat),
{
    let mut msg: Vec<Vec<u8>> = Vec::new();
    let mut i: usize = 0;
    while i < shares.len()
        invariant
            0 < p <= field_bound(),
            L >= 1,
            S <= 64,
            L * S <= usize::MAX,
            core_len(V as nat, L as nat, S as nat, Y as nat) + 3 * L <= usize::MAX,
            shares.len() <= u64::MAX,
            rows_ok(shares@, r, p as int, V as nat, L as nat, S as nat, Y as nat, idx as nat),
            i <= shares.len(),
            msg.len() == i,
            forall|k: int| 0 <= k < i ==> (#[trigger] msg@[k])@ == if r.dropouts@.contains(k as u64) {
                Seq::<u8>::empty()
            } else {
                le_bytes_of_words(row_tests(shares@[k]@, r, p as int, V as nat, L as nat, S as nat, Y as nat, idx as nat))
            },
        decreases shares.len() - i,
    {
        if vec_contains(&r.dropouts, i as u64) {
            msg.push(Vec::new());
        } else {
            let t = row_tests_exec(&shares[i], r, p, V, L, S, Y, idx);
            let bytes = crate::util::write_u64_le_u8(t.as_slice());
            proof {
                assert(bytes@ =~= le_bytes_of_words(t@));
            }
            msg.push(bytes);
        }
        i = i + 1;
    }
    msg
}

/// Whether the products of the quadratic test's first `n` terms fit in 128 bits.
fn quadratic_ready(sh: &Vec<u64>, half: usize, r: &Vec<u64>, n: usize, p: u128) -> (ok: bool)
    requires
        0 < p <= field_bound(),
        below(sh@, p as int),
        n <= sh.len(),
        half + n <= sh.len(),
        n <= r.len(),
    ensures
        ok == quadratic_fits(sh@, half as int, r@, n as nat, p as int),
{
    let mut j: usize = 0;
    while j < n
        invariant
            0 < p <= field_bound(),
            below(sh@, p as int),
            n <= sh.len(),
            half + n <= sh.len(),
            n <= r.len(),
            j <= n,
            quadratic_fits(sh@, half as int, r@, j as nat, p as int),
        decreases n - j,
    {
        let x = sh[j] as u128;
        proof {
            assert(x * x < 0x1_0000_0000_0000_0000_0000_0000_0000_0000) by (nonlinear_arith)
                requires x < 0x1_0000_0000_0000_0000;
        }
        let d = x * x % p + p - sh[half + j] as u128;
        proof {
            assert(d == quadratic_gap(sh@, half as int, p as int, j as int));
        }
        if d.checked_mul(r[j] as u128).is_none() {
            return false;
        }
        j = j + 1;
    }
    true
}

/// Whether the products of the input bound test's terms fit in 128 bits.
fn bound_ready(sh: &Vec<u64>, V: usize, L: usize, S: usize, Y: usize, r: &Vec<u64>, p: u128) -> (ok: bool)
    requires
        0 < p <= field_bound(),
        below(sh@, p as int),
        L >= 1,
        S <= 64,
        core_len(V as nat, L as nat, S as nat, Y as nat) + 3 * L <= usize::MAX,
        sh.len() >= share_cols(V as nat, L as nat, S as nat, Y as nat),
        r.len() >= V / L,
    ensures
        ok == bound_fits(sh@, V as nat, L as nat, S as nat, Y as nat, r@, p as int),
{
    let B = V / L;
    proof {
        lemma_layout(V as nat, L as nat, S as nat, Y as nat);
    }
    let mut j: usize = 0;
    while j < B
        invariant
            0 < p <= field_bound(),
            below(sh@, p as int),
            L >= 1,
            S <= 64,
            B == V / L,
            core_len(V as nat, L as nat, S as nat, Y as nat) + 3 * L <= usize::MAX,
            sh.len() >= share_cols(V as nat, L as nat, S as nat, Y as nat),
            r.len() >= B,
            forall|q: int| 0 <= q < V / L ==> #[trigger] xbit_base(V as nat, L as nat, S as nat, Y as nat, q) + S
                <= bits_base(V as nat, L as nat, Y as nat) + S * (V / L),
            share_cols(V as nat, L as nat, S as nat, Y as nat) == bits_base(V as nat, L as nat, Y as nat) + S * (V / L) + 3,
            (V / L) + (V / L) <= ysum_pos(V as nat, L as nat),
            ysum_pos(V as nat, L as nat) + 1 == ybits_base(V as nat, L as nat),
            ybits_base(V as nat, L as nat) <= bits_base(V as nat, L as nat, Y as nat),
            j <= B,
            forall|q: int| 0 <= q < j ==> #[trigger] bound_gap(sh@, V as nat, L as nat, S as nat, Y as nat, q, p as int)
                * r@[q] < wide_bound(),
        decreases B - j,
    {
        proof {
            assert(j * S * L <= L * S * B && j * S <= L * S * B) by (nonlinear_arith)
                requires j < B, L >= 1;
        }
        let xb = (2 * V + L + Y + j * S * L) / L;
        proof {
            assert(xb == xbit_base(V as nat, L as nat, S as nat, Y as nat, j as int));
        }
        let sx = bits_value_exec(sh, xb, S, p);
        let d = sx + p - sh[j] as u128;
        proof {
            assert(d == bound_gap(sh@, V as nat, L as nat, S as nat, Y as nat, j as int, p as int));
        }
        if d.checked_mul(r[j] as u128).is_none() {
            return false;
        }
        j = j + 1;
    }
    true
}

/// Whether the tests can run on the row `sh`.
pub fn row_ready(sh: &Vec<u64>, r: &TestRandomness, p: u128, V: usize, L: usize, S: usize, Y: usize, idx: usize)
    -> (ok: bool)
    requires
        0 < p <= field_bound(),
        L >= 1,
        S <= 64,
        L * S <= usize::MAX,
        core_len(V as nat, L as nat, S as nat, Y as nat) + 3 * L <= usize::MAX,
    ensures
        ok == row_ok(sh@, r, p as int, V as nat, L as nat, S as nat, Y as nat, idx as nat),
{
    proof {
        lemma_layout(V as nat, L as nat, S as nat, Y as nat);
    }
    let B = V / L;
    let YL = Y / L;
    let tot = 2 * V + L + Y + L * S * B;
    let cols = (tot + 3 * L) / L;
    let ypos = (2 * V) / L;
    if sh.len() < cols {
        return false;
    }
    let mut k: usize = 0;
    while k < sh.len()
        invariant
            k <= sh.len(),
            forall|q: int| 0 <= q < k ==> #[trigger] sh@[q] < p,
        decreases sh.len() - k,
    {
        if sh[k] as u128 >= p {
            return false;
        }
        k = k + 1;
    }
    proof {
        let bb = bits_base(V as nat, L as nat, Y as nat);
        assert(B * S <= cols) by (nonlinear_arith)
            requires cols == bb + S * B + 3, bb >= 0;
    }
    if r.degree.len() < cols || r.input_bit.len() < B * S || r.quadratic.len() < B || r.input_bound.len() < B
        || r.l2_sum.len() < 1 || r.l2_bit.len() < YL || r.l2_bound.len() < 1 {
        return false;
    }
    let need = match idx.checked_mul(YL) {
        Some(a) => a.checked_add(YL),
        None => None,
    };
    match need {
        Some(n) => {
            if r.l2_bound_shares.len() < n {
                return false;
            }
        },
        None => {
            return false;
        },
    }
    let sum_y = reduced_plain_sum(sh, B, B, p);
    proof {
        assert(sum_y + p <= 0xffff_ffff_ffff_ffffint * 0xffff_ffff_ffff_ffffint + 0x1_0000_0000_0000_0000int) by (nonlinear_arith)
            requires sum_y <= B * (p - 1), (B as int) <= 0xffff_ffff_ffff_ffffint,
                1 <= p <= 0x1_0000_0000_0000_0000;
    }
    let d = sum_y + p - sh[ypos] as u128;
    if (d.checked_mul(r.l2_sum[0] as u128)).is_none() {
        return false;
    }
    if !quadratic_ready(sh, B, &r.quadratic, B, p) {
        return false;
    }
    bound_ready(sh, V, L, S, Y, &r.input_bound, p)
}

/// Whether the tests can run on the row of every client that did not drop out.
pub fn tests_ready(shares: &Vec<Vec<u64>>, r: &TestRandomness, p: u128, V: usize, L: usize, S: usize, Y: usize,
    idx: usize) -> (ok: bool)
    requires
        0 < p <= field_bound(),
        L >= 1,
        S <= 64,
        L * S <= usize::MAX,
        core_len(V as nat, L as nat, S as nat, Y as nat) + 3 * L <= usize::MAX,
        shares.len() <= u64::MAX,
    ensures
        ok == rows_ok(shares@, r, p as int, V as nat, L as nat, S as nat, Y as nat, idx as nat),
{
    let mut i: usize = 0;
    while i < shares.len()
        invariant
            0 < p <= field_bound(),
            L >= 1,
            S <= 64,
            L * S <= usize::MAX,
            core_len(V as nat, L as nat, S as nat, Y as nat) + 3 * L <= usize::MAX,
            shares.len() <= u64::MAX,
            i <= shares.len(),
            forall|q: int| 0 <= q < i && !r.dropouts@.contains(q as u64)
                ==> row_ok(#[trigger] shares@[q]@, r, p as int, V as nat, L as nat, S as nat, Y as nat, idx as nat),
        decreases shares.len() - i,
    {
        if !vec_contains(&r.dropouts, i as u64) {
            if !row_ready(&shares[i], r, p, V, L, S, Y, idx) {
                return false;
            }
        }
        i = i + 1;
    }
    true
}

/// Whether the sizes fit the tests: a field of at most `2^64` elements, a block length
/// of at least one, at most 64 bits per input, and a row length that fits
/// in memory.
pub fn sizes_ready(p: u128, V: usize, L: usize, S: usize, Y: usize) -> (ok: bool)
    ensures
        ok == (0 < p <= field_bound() && L >= 1 && S <= 64 && L * S <= usize::MAX
            && core_len(V as nat, L as nat, S as nat, Y as nat) + 3 * L <= usize::MAX),
{
    if !(0 < p && p <= 0x1_0000_0000_0000_0000u128 && L >= 1 && S <= 64) {
        return false;
    }
    let ls = match (L as u128).checked_mul(S as u128) {
        Some(a) => a,
        None => {
            return false;
        },
    };
    if ls > usize::MAX as u128 {
        return false;
    }
    let lsb = match ls.checked_mul((V / L) as u128) {
        Some(a) => a,
        None => {
            return false;
        },
    };
    let total = match lsb.checked_add(2 * (V as u128) + (L as u128) + (Y as u128) + 3 * (L as u128)) {
        Some(a) => a,
        None => {
            return false;
        },
    };
    proof {
        assert(lsb == L * S * (V / L)) by (nonlinear_arith)
            requires ls == L * S, lsb == ls * (V / L);
    }
    total <= usize::MAX as u128
}


// ---------------------------------------------------------------------------
// The tests on an honest extended input
// ---------------------------------------------------------------------------

/// The values at `slot` of the blocks of an extended input: the row of
/// shares, read in one slot of the blocks instead of at one share point.
pub open spec fn slot_row(ext: Seq<u64>, l: nat, cols: nat, slot: int) -> Seq<u64> {
    Seq::new(cols, |b: int| ext[b * l + slot])
}

/// A sum modulo `p` of zero terms is zero.
proof fn lemma_mod_sum_zero(f: spec_fn(int) -> int, n: nat, p: int)
    requires
        p > 0,
        forall|j: int| 0 <= j < n ==> #[trigger] f(j) == 0,
    ensures
        mod_sum(f, n, p) == 0,
    decreases n,
{
    if n > 0 {
        lemma_mod_sum_zero(f, (n - 1) as nat, p);
        vstd::arithmetic::div_mod::lemma_small_mod(0, p as nat);
    }
}

/// A bit passes the bit check with any weight.
proof fn lemma_bit_term_zero(x: u64, c: u64, p: int)
    requires
        p > 0,
        x == 0 || x == 1,
    ensures
        (bit_check(x as int, p) * c) % p == 0,
{
    vstd::arithmetic::div_mod::lemma_small_mod(0, p as nat);
    if x == 1 {
        assert(x * (1 + p - x) == p);
        vstd::arithmetic::div_mod::lemma_mod_self_0(p);
    }
    assert(bit_check(x as int, p) == 0);
    assert(0 * c == 0);
}

/// Where the parts of an extended input lie.
proof fn lemma_layout_parts(x: Seq<u64>, p: int, l: nat, s: nat, rc: Seq<u64>, rb: Seq<u64>)
    requires
        l >= 1,
        rc.len() == l,
        rb.len() + 1 == l,
    ensures
        ({
            let v = x.len();
            let y = y_len(s, v, l);
            let core = 2 * v + l + y + l * s * (v / l);
            let ext = malicious_layout(x, p, l, s, rc, rb);
            &&& ext.len() == core + 3 * l
            &&& forall|i: int| 0 <= i < v ==> #[trigger] ext[i] == x[i]
            &&& forall|i: int| 0 <= i < v ==> #[trigger] ext[v + i] == squares(x, p)[i]
            &&& forall|i: int| 0 <= i < y ==> #[trigger] ext[2 * v + l + i] == bits_of(square_sum(x, p, v) as nat, y)[i]
            &&& forall|i: int| 0 <= i < l * s * (v / l) ==> #[trigger] ext[2 * v + l + y + i] == x_bits(x, l, s, v / l)[i]
            &&& forall|i: int| 0 <= i < l ==> #[trigger] ext[core + l + i] == 0
            &&& forall|i: int| 0 <= i < l - 1 ==> #[trigger] ext[core + 2 * l + i] == reduced(rb, p)[i]
            &&& ext[core + 3 * l - 1] == (p - reduced_sum(rb, p, (l - 1) as nat)) as u64
        }),
{
    let v = x.len();
    let y = y_len(s, v, l);
    let ysum = square_sum(x, p, v);
    let e1 = x + squares(x, p);
    let e2 = e1 + seq![ysum as u64];
    let e3 = e2 + zeros((l - 1) as nat);
    let e4 = e3 + bits_of(ysum as nat, y);
    let e5 = e4 + x_bits(x, l, s, v / l);
    let e6 = e5 + reduced(rc, p);
    let e7 = e6 + zeros(l);
    let e8 = e7 + reduced(rb, p);
    let ext = e8 + seq![(p - reduced_sum(rb, p, (l - 1) as nat)) as u64];
    assert(ext == malicious_layout(x, p, l, s, rc, rb));
    let core = 2 * v + l + y + l * s * (v / l);
    assert(e5.len() == core);
    assert forall|i: int| 0 <= i < v implies #[trigger] ext[i] == x[i] by {
        assert(e1[i] == x[i]);
    }
    assert forall|i: int| 0 <= i < v implies #[trigger] ext[v + i] == squares(x, p)[i] by {
        assert(e1[v + i] == squares(x, p)[i]);
    }
    assert forall|i: int| 0 <= i < y implies #[trigger] ext[2 * v + l + i] == bits_of(ysum as nat, y)[i] by {
        assert(e4[2 * v + l + i] == bits_of(ysum as nat, y)[i]);
    }
    assert forall|i: int| 0 <= i < l * s * (v / l) implies #[trigger] ext[2 * v + l + y + i] == x_bits(x, l, s, v / l)[i] by {
        assert(e5[2 * v + l + y + i] == x_bits(x, l, s, v / l)[i]);
    }
    assert forall|i: int| 0 <= i < l implies #[trigger] ext[core + l + i] == 0 by {
        assert(e7[core + l + i] == zeros(l)[i]);
    }
    assert forall|i: int| 0 <= i < l - 1 implies #[trigger] ext[core + 2 * l + i] == reduced(rb, p)[i] by {
        assert(e8[core + 2 * l + i] == reduced(rb, p)[i]);
    }
}

/// A running sum of reduced entries lies below `p`.
proof fn lemma_reduced_sum_bound(r: Seq<u64>, p: int, n: nat)
    requires
        p > 0,
    ensures
        0 <= reduced_sum(r, p, n) < p,
{
    if n > 0 {
        vstd::arithmetic::div_mod::lemma_mod_bound(reduced_sum(r, p, (n - 1) as nat) + (r[n - 1] as int) % p, p);
    } else {
        assert(reduced_sum(r, p, 0) == 0);
    }
}

/// The mask `B` summed over the first `n` slots is the running sum of its
/// reduced entries.
proof fn lemma_mask_b_sum(g: spec_fn(int) -> int, rb: Seq<u64>, p: int, n: nat)
    requires
        0 < p <= field_bound(),
        n <= rb.len(),
        forall|i: int| 0 <= i < n ==> #[trigger] g(i) == (reduced(rb, p)[i] as int),
    ensures
        mod_sum(g, n, p) == reduced_sum(rb, p, n),
    decreases n,
{
    if n > 0 {
        lemma_mask_b_sum(g, rb, p, (n - 1) as nat);
        vstd::arithmetic::div_mod::lemma_mod_bound(rb[n - 1] as int, p);
        assert(g(n - 1) == (rb[n - 1] as int) % p);
    }
}

/// The weighted bits of `x` below `n`, summed modulo `p`, are `x` less its
/// part from bit `n` on, modulo `p`.
proof fn lemma_weighted_bits(row: Seq<u64>, base: int, x: nat, p: int, n: nat)
    requires
        p > 0,
        forall|k: int| 0 <= k < n ==> #[trigger] row[base + k] as nat == shift(x, k as nat) % 2,
    ensures
        mod_sum(bit_weights(row, base, p), n, p) == (x - pow2n(n) * shift(x, n)) % p,
    decreases n,
{
    if n == 0 {
        assert(pow2n(0) == 1);
        assert(shift(x, 0) == x);
        assert(pow2n(0) * shift(x, 0) == x) by (nonlinear_arith)
            requires pow2n(0) == 1, shift(x, 0) == x;
        vstd::arithmetic::div_mod::lemma_small_mod(0, p as nat);
    } else {
        let m = (n - 1) as nat;
        lemma_weighted_bits(row, base, x, p, m);
        let a = x - pow2n(m) * shift(x, m);
        let bit = row[base + m] as int;
        let b = bit * pow2n(m);
        assert(bit == shift(x, m) % 2);
        assert(shift(x, n) == shift(x, m) / 2);
        vstd::arithmetic::div_mod::lemma_fundamental_div_mod(shift(x, m) as int, 2);
        assert(pow2n(n) == 2 * pow2n(m));
        assert(a + b == x - pow2n(n) * shift(x, n)) by (nonlinear_arith)
            requires a == x - pow2n(m) * shift(x, m), b == bit * pow2n(m), pow2n(n) == 2 * pow2n(m),
                shift(x, m) == 2 * shift(x, n) + bit;
        vstd::arithmetic::div_mod::lemma_add_mod_noop(a, b, p);
        let f = bit_weights(row, base, p);
        assert(f(m as int) == b % p);
        assert(mod_sum(f, n, p) == (mod_sum(f, m, p) + f(m as int)) % p);
        assert(mod_sum(f, m, p) == a % p);
    }
}

/// Law (completeness, in part): on an honest client's extended input (the
/// layout that `build_malicious_input` makes, with a block length `l`
/// dividing the input length), read slot by slot, the first masked test
/// value (the input bit, quadratic and sum-of-squares bit tests plus the
/// zero mask `A`) is zero for every slot and any randomness, the mask `B`
/// sums to zero modulo `p` over the slots, and, for inputs of at most `s`
/// bits below `p`, the input bound test is zero in every slot.
pub proof fn lemma_honest_masked_tests(
    x: Seq<u64>,
    p: int,
    l: nat,
    s: nat,
    rc: Seq<u64>,
    rb: Seq<u64>,
    r: TestRandomness,
    idx: nat,
    slot: int,
)
    requires
        1 < p < field_bound(),
        l >= 1,
        x.len() % l == 0,
        rc.len() == l,
        rb.len() + 1 == l,
        0 <= slot < l,
    ensures
        ({
            let v = x.len();
            let y = y_len(s, v, l);
            let ext = malicious_layout(x, p, l, s, rc, rb);
            let cols = share_cols(v, l, s, y) as nat;
            &&& ext.len() == cols * l
            &&& row_tests(slot_row(ext, l, cols, slot), &r, p, v, l, s, y, idx)[1] == 0
            &&& mod_sum(|i: int| slot_row(ext, l, cols, i)[mask_b_pos(v, l, s, y)] as int, l, p) == 0
            &&& (forall|i: int| 0 <= i < v ==> #[trigger] x[i] < p && bit_len(x[i] as nat) <= s) ==> mod_sum(
                bound_terms(slot_row(ext, l, cols, slot), v, l, s, y, r.input_bound@, p),
                v / l,
                p,
            ) == 0
        }),
{
    let v = x.len();
    let y = y_len(s, v, l);
    let ext = malicious_layout(x, p, l, s, rc, rb);
    let li = l as int;
    let bl: int = (v / l) as int;
    let yl: int = (y / l) as int;
    lemma_layout_parts(x, p, l, s, rc, rb);
    // every part of the layout is a whole number of blocks
    vstd::arithmetic::div_mod::lemma_fundamental_div_mod(v as int, li);
    assert(v == li * bl);
    assert(y == li * yl) by {
        if v > 0 {
            let q = (2 * s + crate::client::ceil_log2(v) + l - 1) / li;
            assert(y == q * li);
            vstd::arithmetic::div_mod::lemma_div_multiples_vanish(q, li);
            assert(q * li == li * q) by (nonlinear_arith);
        }
    }
    let k: int = 2 * bl + 1 + yl + s * bl;
    let core: int = 2 * v + l + y + l * s * bl;
    assert(core == li * k) by (nonlinear_arith)
        requires v == li * bl, y == li * yl, core == 2 * v + l + y + l * s * bl, k == 2 * bl + 1 + yl + s * bl, li == l;
    assert(2 * v + li == li * (2 * bl + 1)) by (nonlinear_arith)
        requires v == li * bl;
    assert(2 * v + li + y == li * (2 * bl + 1 + yl)) by (nonlinear_arith)
        requires v == li * bl, y == li * yl;
    vstd::arithmetic::div_mod::lemma_div_multiples_vanish(2 * bl + 1, li);
    vstd::arithmetic::div_mod::lemma_div_multiples_vanish(2 * bl + 1 + yl, li);
    vstd::arithmetic::div_mod::lemma_div_multiples_vanish(k + 1, li);
    vstd::arithmetic::div_mod::lemma_div_multiples_vanish(k + 2, li);
    vstd::arithmetic::div_mod::lemma_div_multiples_vanish(k + 3, li);
    assert(core + li == li * (k + 1) && core + 2 * li == li * (k + 2) && core + 3 * li == li * (k + 3)) by (nonlinear_arith)
        requires core == li * k;
    assert(ybits_base(v, l) == 2 * bl + 1);
    assert(bits_base(v, l, y) == 2 * bl + 1 + yl);
    assert(mask_a_pos(v, l, s, y) == k + 1);
    assert(mask_b_pos(v, l, s, y) == k + 2);
    assert(share_cols(v, l, s, y) == k + 3);
    let cols = (k + 3) as nat;
    assert(ext.len() == cols * l) by (nonlinear_arith)
        requires ext.len() == core + 3 * l, core == li * k, cols == k + 3, li == l;
    let row = slot_row(ext, l, cols, slot);
    // input bit test
    let fb = bit_terms(row, bits_base(v, l, y), r.input_bit@, p);
    assert forall|j: int| 0 <= j < bl * s implies #[trigger] fb(j) == 0 by {
        let b = 2 * bl + 1 + yl + j;
        assert(b * li + slot == 2 * v + li + y + (j * li + slot)) by (nonlinear_arith)
            requires b == 2 * bl + 1 + yl + j, 2 * v + li + y == li * (2 * bl + 1 + yl);
        assert(j * li + slot < l * s * bl) by (nonlinear_arith)
            requires 0 <= j < bl * s, 0 <= slot < li, li == l;
        assert(0 <= j * li + slot) by (nonlinear_arith)
            requires 0 <= j, 0 <= slot, li >= 1;
        assert(b < cols) by (nonlinear_arith)
            requires b == 2 * bl + 1 + yl + j, j < bl * s, cols == 2 * bl + 1 + yl + s * bl + 3;
        assert(row[bits_base(v, l, y) + j] == ext[b * li + slot]);
        let t = j * li + slot;
        let xb = x_bits(x, l, s, v / l)[t];
        assert(xb == 0 || xb == 1);
        lemma_bit_term_zero(xb, r.input_bit@[j], p);
    }
    lemma_mod_sum_zero(fb, (bl * s) as nat, p);
    // quadratic test
    let fq = quadratic_terms(row, bl, r.quadratic@, p);
    assert forall|j: int| 0 <= j < bl implies #[trigger] fq(j) == 0 by {
        assert(j * li + slot < v) by (nonlinear_arith)
            requires 0 <= j < bl, 0 <= slot < li, v == li * bl;
        assert(0 <= j * li + slot) by (nonlinear_arith)
            requires 0 <= j, 0 <= slot, li >= 1;
        assert((bl + j) * li + slot == v + (j * li + slot)) by (nonlinear_arith)
            requires v == li * bl;
        assert(j < cols && bl + j < cols);
        assert(row[j] == x[j * li + slot]);
        assert(row[bl + j] == squares(x, p)[j * li + slot]);
        let xv = x[j * li + slot] as int;
        vstd::arithmetic::div_mod::lemma_mod_bound(xv * xv, p);
        assert(row[bl + j] as int == (xv * xv) % p);
        assert(quadratic_gap(row, bl, p, j) == p);
        vstd::arithmetic::div_mod::lemma_mod_multiples_basic(r.quadratic@[j] as int, p);
        assert(p * r.quadratic@[j] == r.quadratic@[j] * p) by (nonlinear_arith);
    }
    lemma_mod_sum_zero(fq, bl as nat, p);
    // sum-of-squares bit test
    let fy = bit_terms(row, ybits_base(v, l), r.l2_bit@, p);
    assert forall|j: int| 0 <= j < yl implies #[trigger] fy(j) == 0 by {
        let b = 2 * bl + 1 + j;
        assert(b * li + slot == 2 * v + li + (j * li + slot)) by (nonlinear_arith)
            requires b == 2 * bl + 1 + j, 2 * v + li == li * (2 * bl + 1);
        assert(j * li + slot < y) by (nonlinear_arith)
            requires 0 <= j < yl, 0 <= slot < li, y == li * yl;
        assert(0 <= j * li + slot) by (nonlinear_arith)
            requires 0 <= j, 0 <= slot, li >= 1;
        assert(b < cols);
        assert(row[ybits_base(v, l) + j] == ext[b * li + slot]);
        let yb = bits_of(square_sum(x, p, v) as nat, y)[j * li + slot];
        assert(yb == 0 || yb == 1);
        lemma_bit_term_zero(yb, r.l2_bit@[j], p);
    }
    lemma_mod_sum_zero(fy, yl as nat, p);
    // the zero mask A
    assert((k + 1) * li + slot == core + li + slot) by (nonlinear_arith)
        requires core == li * k;
    assert(row[mask_a_pos(v, l, s, y)] == ext[core + li + slot]);
    vstd::arithmetic::div_mod::lemma_small_mod(0, p as nat);
    assert(row_tests(row, &r, p, v, l, s, y, idx)[1] == 0);
    // input bound test
    if forall|i: int| 0 <= i < v ==> #[trigger] x[i] < p && bit_len(x[i] as nat) <= s {
        let fd = bound_terms(row, v, l, s, y, r.input_bound@, p);
        assert forall|j: int| 0 <= j < bl implies #[trigger] fd(j) == 0 by {
            let e = j * li + slot;
            assert(0 <= e < v) by (nonlinear_arith)
                requires 0 <= j < bl, 0 <= slot < li, v == li * bl, e == j * li + slot;
            let xv = x[e] as nat;
            let base = xbit_base(v, l, s, y, j);
            assert(base == 2 * bl + 1 + yl + j * s) by {
                assert(2 * v + l + y + j * s * l == li * (2 * bl + 1 + yl + j * s)) by (nonlinear_arith)
                    requires 2 * v + li + y == li * (2 * bl + 1 + yl), li == l;
                vstd::arithmetic::div_mod::lemma_div_multiples_vanish(2 * bl + 1 + yl + j * s, li);
            }
            assert forall|k: int| 0 <= k < s implies #[trigger] row[base + k] as nat == shift(xv, k as nat) % 2 by {
                let q = j * s + k;
                let t = q * li + slot;
                assert((base + k) * li + slot == 2 * v + li + y + t) by (nonlinear_arith)
                    requires base == 2 * bl + 1 + yl + j * s, q == j * s + k, t == q * li + slot,
                        2 * v + li + y == li * (2 * bl + 1 + yl);
                assert(0 <= q < s * bl) by (nonlinear_arith)
                    requires 0 <= j < bl, 0 <= k < s, q == j * s + k;
                assert(0 <= t < l * s * bl) by (nonlinear_arith)
                    requires 0 <= q < s * bl, 0 <= slot < li, li == l, t == q * li + slot;
                assert(base + k < cols) by (nonlinear_arith)
                    requires base == 2 * bl + 1 + yl + j * s, 0 <= j < bl, 0 <= k < s,
                        cols == 2 * bl + 1 + yl + s * bl + 3;
                assert(row[base + k] == ext[(base + k) * li + slot]);
                vstd::arithmetic::div_mod::lemma_fundamental_div_mod_converse(t, li, q, slot);
                vstd::arithmetic::div_mod::lemma_fundamental_div_mod_converse(q, s as int, j, k);
                assert(x_bits(x, l, s, v / l)[t] == (shift(x[j * li + slot] as nat, k as nat) % 2) as u64);
            }
            lemma_weighted_bits(row, base, xv, p, s);
            assert(x[e] < p && bit_len(x[e] as nat) <= s);
            crate::util::lemma_shift_bit_len(xv, s);
            assert(shift(xv, s) == 0);
            assert(pow2n(s) * shift(xv, s) == 0) by (nonlinear_arith)
                requires shift(xv, s) == 0;
            vstd::arithmetic::div_mod::lemma_small_mod(xv, p as nat);
            assert(bits_value(row, v, l, s, y, j, p) == xv);
            assert(row[j] == x[e]);
            assert(bound_gap(row, v, l, s, y, j, p) == p);
            vstd::arithmetic::div_mod::lemma_mod_multiples_basic(r.input_bound@[j] as int, p);
            assert(p * r.input_bound@[j] == r.input_bound@[j] * p) by (nonlinear_arith);
        }
        lemma_mod_sum_zero(fd, bl as nat, p);
    }
    // the mask B sums to zero
    let g = |i: int| slot_row(ext, l, cols, i)[mask_b_pos(v, l, s, y)] as int;
    assert forall|i: int| 0 <= i < l - 1 implies #[trigger] g(i) == (reduced(rb, p)[i] as int) by {
        assert((k + 2) * li + i == core + 2 * li + i) by (nonlinear_arith)
            requires core == li * k;
    }
    lemma_mask_b_sum(g, rb, p, (l - 1) as nat);
    lemma_reduced_sum_bound(rb, p, (l - 1) as nat);
    let rs = reduced_sum(rb, p, (l - 1) as nat);
    assert((k + 2) * li + (li - 1) == core + 3 * li - 1) by (nonlinear_arith)
        requires core == li * k;
    assert(g(l - 1) == p - rs);
    assert(mod_sum(g, l, p) == (rs + (p - rs)) % p);
    vstd::arithmetic::div_mod::lemma_mod_self_0(p);
}

} // verus!
