//! The server's choice of sharing parameters: root-of-unity tables and the
//! degrees and block length that fit a number of clients, dropouts and
//! corrupted parties.
use vstd::prelude::*;
use vstd::arithmetic::power::{pow, lemma_pow_mod_noop, lemma_pow_multiplies, lemma_square_is_pow2};
use vstd::arithmetic::div_mod::lemma_mod_bound;
use crate::ntt::{pow3n, lemma_pow3n_pos, lemma_pow3n_strict, lemma_pow2n_pos, lemma_pow2n_strict};
use crate::util::pow2n;

verus! {

/// The prime, the two generators, the root tables and the parameters in use.
#[derive(Debug)]
pub struct Param {
    P: u64,
    R2: u64,
    R3: u64,
    D2: usize,
    D3: usize,
    rootTwos: Vec<u64>,
    rootThrees: Vec<u64>,
    useD2: usize,
    useD3: usize,
    useR2: u64,
    useR3: u64,
    L: usize,
}

/// The abstract state of a `Param`.
pub ghost struct ParamView {
    pub prime: u64,
    pub r2: u64,
    pub r3: u64,
    pub d2: nat,
    pub d3: nat,
    pub root_twos: Seq<u64>,
    pub root_threes: Seq<u64>,
    pub use_d2: nat,
    pub use_d3: nat,
    pub use_r2: u64,
    pub use_r3: u64,
    pub block_len: nat,
}

impl View for Param {
    type V = ParamView;

    closed spec fn view(&self) -> ParamView {
        ParamView {
            prime: self.P,
            r2: self.R2,
            r3: self.R3,
            d2: self.D2 as nat,
            d3: self.D3 as nat,
            root_twos: self.rootTwos@,
            root_threes: self.rootThrees@,
            use_d2: self.useD2 as nat,
            use_d3: self.useD3 as nat,
            use_r2: self.useR2,
            use_r3: self.useR3,
            block_len: self.L as nat,
        }
    }
}

/// Entry `k` of the table built by repeated raising to the power `base`:
/// the generator `r` at `k == d`, `r^(base^(d-k))` modulo `p` for `0 < k < d`,
/// and 0 at `k == 0` when `d > 0`.
pub open spec fn root_entry(r: u64, d: nat, k: int, p: int, base_pow: spec_fn(nat) -> nat) -> u64 {
    if k == d {
        r
    } else if k == 0 {
        0
    } else {
        (pow(r as int, base_pow((d - k) as nat)) % p) as u64
    }
}

/// The table of `d + 1` roots built from `r` by repeated squaring.
pub open spec fn root_twos_table(r: u64, d: nat, p: int) -> Seq<u64> {
    Seq::new(d + 1, |k: int| root_entry(r, d, k, p, |e: nat| pow2n(e)))
}

/// The table of `d + 1` roots built from `r` by repeated cubing.
pub open spec fn root_threes_table(r: u64, d: nat, p: int) -> Seq<u64> {
    Seq::new(d + 1, |k: int| root_entry(r, d, k, p, |e: nat| pow3n(e)))
}

/// The least `t >= 1` with `2^t >= n`.
pub open spec fn clog2_from1(n: nat) -> nat
    decreases n,
{
    if n <= 2 {
        1
    } else {
        1 + clog2_from1(((n + 1) / 2) as nat)
    }
}

/// The least `t >= 1` with `3^t >= n`.
pub open spec fn clog3_from1(n: nat) -> nat
    decreases n,
{
    if n <= 3 {
        1
    } else {
        1 + clog3_from1(((n + 2) / 3) as nat)
    }
}

proof fn lemma_clog2(n: nat, t: nat)
    requires
        t >= 1,
    ensures
        pow2n(t) >= n <==> t >= clog2_from1(n),
    decreases t,
{
    lemma_pow2n_pos(t);
    if n <= 2 {
        assert(pow2n(t) >= 2) by {
            lemma_pow2n_pos((t - 1) as nat);
        }
    } else if t == 1 {
        assert(pow2n(1) == 2) by {
            assert(pow2n(0) == 1);
        }
        lemma_clog2_pos(((n + 1) / 2) as nat);
    } else {
        lemma_clog2(((n + 1) / 2) as nat, (t - 1) as nat);
        assert(pow2n(t) == 2 * pow2n((t - 1) as nat));
    }
}

proof fn lemma_clog2_pos(n: nat)
    ensures
        clog2_from1(n) >= 1,
    decreases n,
{
    if n > 2 {
        lemma_clog2_pos(((n + 1) / 2) as nat);
    }
}

proof fn lemma_clog3(n: nat, t: nat)
    requires
        t >= 1,
    ensures
        pow3n(t) >= n <==> t >= clog3_from1(n),
    decreases t,
{
    lemma_pow3n_pos(t);
    if n <= 3 {
        assert(pow3n(t) >= 3) by {
            lemma_pow3n_pos((t - 1) as nat);
        }
    } else if t == 1 {
        assert(pow3n(1) == 3) by {
            assert(pow3n(0) == 1);
        }
        lemma_clog3_pos(((n + 2) / 3) as nat);
    } else {
        lemma_clog3(((n + 2) / 3) as nat, (t - 1) as nat);
        assert(pow3n(t) == 3 * pow3n((t - 1) as nat));
    }
}

proof fn lemma_clog3_pos(n: nat)
    ensures
        clog3_from1(n) >= 1,
    decreases n,
{
    if n > 3 {
        lemma_clog3_pos(((n + 2) / 3) as nat);
    }
}

/// What the factor search returns when it starts at `i`: `n / i` for the
/// first divisor `i` of `n` below `n` with `m i >= n`, and 1 if none.
pub open spec fn factor_search(n: nat, m: nat, i: nat) -> nat
    decreases n - i,
{
    if i >= n {
        1
    } else if n % i == 0 && m * i >= n {
        n / i
    } else {
        factor_search(n, m, i + 1)
    }
}

proof fn lemma_factor_search(n: nat, m: nat, i: nat)
    requires
        i >= 1,
        n >= 1,
    ensures
        factor_search(n, m, i) >= 1,
        n % factor_search(n, m, i) == 0,
        factor_search(n, m, i) == 1 || factor_search(n, m, i) <= m,
        forall|d: nat| 1 <= d <= m && n % d == 0 && #[trigger] (n / d) >= i ==> d <= factor_search(n, m, i),
    decreases n - i,
{
    let r = factor_search(n, m, i);
    if i >= n {
        assert forall|d: nat| 1 <= d <= m && n % d == 0 && #[trigger] (n / d) >= i implies d <= r by {
            vstd::arithmetic::div_mod::lemma_fundamental_div_mod(n as int, d as int);
            assert(d <= 1) by (nonlinear_arith)
                requires n == d * (n / d) + n % d, n % d == 0, n / d >= n, n >= 1, d >= 1;
        }
    } else if n % i == 0 && m * i >= n {
        vstd::arithmetic::div_mod::lemma_fundamental_div_mod(n as int, i as int);
        let q = n / i;
        assert(q >= 1 && q <= m) by (nonlinear_arith)
            requires n == i * q + 0, m * i >= n, n >= 1, i >= 1;
        assert(n % q == 0) by {
            vstd::arithmetic::div_mod::lemma_mod_multiples_basic(i as int, q as int);
            assert(n == i * q);
        }
        assert forall|d: nat| 1 <= d <= m && n % d == 0 && #[trigger] (n / d) >= i implies d <= r by {
            vstd::arithmetic::div_mod::lemma_fundamental_div_mod(n as int, d as int);
            let e = n / d;
            assert(d <= q) by (nonlinear_arith)
                requires n == d * e, e >= i, n == i * q, d >= 1, i >= 1;
        }
    } else {
        lemma_factor_search(n, m, i + 1);
        assert forall|d: nat| 1 <= d <= m && n % d == 0 && #[trigger] (n / d) >= i implies d <= r by {
            vstd::arithmetic::div_mod::lemma_fundamental_div_mod(n as int, d as int);
            let e = n / d;
            if e == i {
                assert(n == i * d) by (nonlinear_arith)
                    requires n == d * e + 0, e == i;
                vstd::arithmetic::div_mod::lemma_mod_multiples_basic(d as int, i as int);
                assert(n % i == 0) by {
                    assert(n == d * i) by (nonlinear_arith)
                        requires n == i * d;
                }
                assert(m * i >= n) by (nonlinear_arith)
                    requires n == i * d, d <= m, i >= 1;
                assert(false);
            }
            assert(n / d >= i + 1);
        }
    }
}

/// The factor that the search from 2 finds divides `n`, is 1 or at most
/// `m`, and is the greatest factor of `n` below `n` that is at most `m`.
pub proof fn lemma_greatest_factor_under(n: nat, m: nat)
    requires
        n >= 1,
    ensures
        n % factor_search(n, m, 2) == 0,
        factor_search(n, m, 2) == 1 || factor_search(n, m, 2) <= m,
        forall|d: nat| 1 <= d <= m && d < n && #[trigger] (n % d) == 0 ==> d <= factor_search(n, m, 2),
{
    lemma_factor_search(n, m, 2);
    assert forall|d: nat| 1 <= d <= m && d < n && #[trigger] (n % d) == 0 implies d <= factor_search(n, m, 2) by {
        vstd::arithmetic::div_mod::lemma_fundamental_div_mod(n as int, d as int);
        assert(n / d >= 2) by (nonlinear_arith)
            requires n == d * (n / d) + 0, d < n, d >= 1;
    }
}

/// Every product `m i` the factor search computes, from `i` on, fits in a machine word.
pub open spec fn factor_search_fits(n: nat, m: nat, i: nat) -> bool
    decreases n - i,
{
    if i >= n {
        true
    } else if n % i == 0 {
        m * i <= usize::MAX && (m * i >= n || factor_search_fits(n, m, i + 1))
    } else {
        factor_search_fits(n, m, i + 1)
    }
}

/// The greatest factor `k` of `n` with `n / k` the least divisor `q >= 2` of
/// `n` that brings `m q` to at least `n`; 1 when there is none.
pub fn greatest_factor_under(n: usize, m: usize) -> (k: usize)
    requires
        n >= m,
        factor_search_fits(n as nat, m as nat, 2),
    ensures
        k == factor_search(n as nat, m as nat, 2),
{
    let mut i: usize = 2;
    while i < n
        invariant
            2 <= i,
            factor_search_fits(n as nat, m as nat, i as nat),
            factor_search(n as nat, m as nat, 2) == factor_search(n as nat, m as nat, i as nat),
        decreases n - i,
    {
        if n % i == 0 {
            if m * i >= n {
                return n / i;
            }
        }
        i = i + 1;
    }
    1
}

proof fn lemma_square_step(r: u64, t: int, e: nat, p: int)
    requires
        p > 0,
        t == pow(r as int, pow2n(e)) % p,
    ensures
        (t * t) % p == pow(r as int, pow2n(e + 1)) % p,
{
    lemma_pow_mod_noop(pow(r as int, pow2n(e)), 2, p);
    lemma_square_is_pow2(t);
    lemma_square_is_pow2(pow(r as int, pow2n(e)));
    lemma_pow_multiplies(r as int, pow2n(e), 2);
    assert(pow2n(e + 1) == pow2n(e) * 2);
    assert(pow(t, 2) == pow(pow(r as int, pow2n(e)) % p, 2));
}

proof fn lemma_cube_step(r: u64, t: int, e: nat, p: int)
    requires
        p > 0,
        t == pow(r as int, pow3n(e)) % p,
    ensures
        ((t * t) % p * t) % p == pow(r as int, pow3n(e + 1)) % p,
{
    let x = pow(r as int, pow3n(e));
    lemma_pow_mod_noop(x, 3, p);
    lemma_pow_multiplies(r as int, pow3n(e), 3);
    assert(pow3n(e + 1) == pow3n(e) * 3);
    vstd::arithmetic::power::lemma_pow1(t);
    vstd::arithmetic::power::lemma_pow_adds(t, 2, 1);
    lemma_square_is_pow2(t);
    vstd::arithmetic::div_mod::lemma_mul_mod_noop_left(t * t, t, p);
    assert(pow(t, 3) == t * t * t);
}

impl Param {
    /// The prime.
    pub fn prime(&self) -> (r: u64)
        ensures
            r == self@.prime,
    {
        self.P
    }

    /// The radix-2 degree in use.
    pub fn use_d2(&self) -> (r: usize)
        ensures
            r == self@.use_d2,
    {
        self.useD2
    }

    /// The radix-3 generator in use.
    pub fn use_r3(&self) -> (r: u64)
        ensures
            r == self@.use_r3,
    {
        self.useR3
    }

    /// The generator of the radix-2 roots.
    pub fn r2(&self) -> (r: u64)
        ensures
            r == self@.r2,
    {
        self.R2
    }

    /// The generator of the radix-3 roots.
    pub fn r3(&self) -> (r: u64)
        ensures
            r == self@.r3,
    {
        self.R3
    }

    /// The radix-3 degree in use.
    pub fn use_d3(&self) -> (r: usize)
        ensures
            r == self@.use_d3,
    {
        self.useD3
    }

    /// The radix-2 generator in use.
    pub fn use_r2(&self) -> (r: u64)
        ensures
            r == self@.use_r2,
    {
        self.useR2
    }

    /// The block length.
    pub fn block_len(&self) -> (r: usize)
        ensures
            r == self@.block_len,
    {
        self.L
    }

    /// The root tables are those built from `R2` and `R3` modulo `P`.
    pub open spec fn wf(&self) -> bool {
        &&& self@.root_twos == root_twos_table(self@.r2, self@.d2, self@.prime as int)
        &&& self@.root_threes == root_threes_table(self@.r3, self@.d3, self@.prime as int)
    }

    /// Builds the tables of roots of unity of orders `2^k` and `3^k` from
    /// generators `R2` (of order `2^D2`) and `R3` (of order `3^D3`).
    pub fn new(P: u64, R2: u64, D2: usize, R3: u64, D3: usize) -> (param: Param)
        requires
            D2 < usize::MAX,
            D3 < usize::MAX,
            P > 0 || (D2 <= 1 && D3 <= 1),
        ensures
            param.wf(),
            param@.prime == P,
            param@.r2 == R2,
            param@.r3 == R3,
            param@.d2 == D2,
            param@.d3 == D3,
            param@.use_d2 == 0,
            param@.use_d3 == 0,
            param@.use_r2 == 0,
            param@.use_r3 == 0,
            param@.block_len == 0,
    {
        let mut rootTwos = vec![0u64; D2 + 1];
        rootTwos.set(D2, R2);
        let mut temp: u128 = R2 as u128;
        let P_u128 = P as u128;
        let mut i: usize = 1;
        proof {
            vstd::arithmetic::power::lemma_pow1(R2 as int);
            assert(pow2n(0) == 1);
        }
        while i < D2
            invariant
                1 <= i,
                i <= D2 || D2 == 0,
                P_u128 == P,
                P > 0 || D2 <= 1,
                rootTwos.len() == D2 + 1,
                rootTwos@[D2 as int] == R2,
                forall|k: int| 0 <= k < D2 ==> #[trigger] rootTwos@[k] == if D2 - i < k { root_entry(R2, D2 as nat, k, P as int, |e: nat| pow2n(e)) } else { 0 },
                temp < 0x1_0000_0000_0000_0000,
                i == 1 ==> temp == R2,
                i > 1 ==> temp == pow(R2 as int, pow2n((i - 1) as nat)) % (P as int),
            decreases D2 - i,
        {
            proof {
                if i == 1 {
                    assert(pow2n(0) == 1);
                    vstd::arithmetic::power::lemma_pow1(R2 as int);
                    lemma_square_step(R2, (R2 as int) % (P as int), 0, P as int);
                    vstd::arithmetic::div_mod::lemma_mul_mod_noop_general(R2 as int, R2 as int, P as int);
                } else {
                    lemma_mod_bound(pow(R2 as int, pow2n((i - 1) as nat)), P as int);
                    lemma_square_step(R2, temp as int, (i - 1) as nat, P as int);
                }
                assert(temp * temp < 0x1_0000_0000_0000_0000_0000_0000_0000_0000) by (nonlinear_arith)
                    requires temp < 0x1_0000_0000_0000_0000;
                lemma_mod_bound((temp * temp) as int, P as int);
            }
            temp = (temp * temp) % P_u128;
            rootTwos.set(D2 - i, temp as u64);
            i = i + 1;
        }
        proof {
            assert(rootTwos@ =~= root_twos_table(R2, D2 as nat, P as int));
        }

        let mut rootThrees = vec![0u64; D3 + 1];
        rootThrees.set(D3, R3);
        let mut temp: u128 = R3 as u128;
        let mut i: usize = 1;
        proof {
            vstd::arithmetic::power::lemma_pow1(R3 as int);
            assert(pow3n(0) == 1);
        }
        while i < D3
            invariant
                1 <= i,
                i <= D3 || D3 == 0,
                P_u128 == P,
                P > 0 || D3 <= 1,
                rootThrees.len() == D3 + 1,
                rootThrees@[D3 as int] == R3,
                forall|k: int| 0 <= k < D3 ==> #[trigger] rootThrees@[k] == if D3 - i < k { root_entry(R3, D3 as nat, k, P as int, |e: nat| pow3n(e)) } else { 0 },
                temp < 0x1_0000_0000_0000_0000,
                i == 1 ==> temp == R3,
                i > 1 ==> temp == pow(R3 as int, pow3n((i - 1) as nat)) % (P as int),
            decreases D3 - i,
        {
            proof {
                if i == 1 {
                    assert(pow3n(0) == 1);
                    vstd::arithmetic::power::lemma_pow1(R3 as int);
                    let t = (R3 as int) % (P as int);
                    lemma_cube_step(R3, t, 0, P as int);
                    vstd::arithmetic::div_mod::lemma_mul_mod_noop_general(R3 as int, R3 as int, P as int);
                    vstd::arithmetic::div_mod::lemma_mul_mod_noop_general((R3 as int * R3 as int) % (P as int), R3 as int, P as int);
                    assert(((R3 as int * R3 as int) % (P as int) * (R3 as int)) % (P as int)
                        == ((t * t) % (P as int) * t) % (P as int));
                } else {
                    lemma_mod_bound(pow(R3 as int, pow3n((i - 1) as nat)), P as int);
                    lemma_cube_step(R3, temp as int, (i - 1) as nat, P as int);
                }
                assert(temp * temp < 0x1_0000_0000_0000_0000_0000_0000_0000_0000) by (nonlinear_arith)
                    requires temp < 0x1_0000_0000_0000_0000;
                lemma_mod_bound((temp * temp) as int, P as int);
                assert(((temp * temp) % (P as int)) * temp < 0x1_0000_0000_0000_0000_0000_0000_0000_0000) by (nonlinear_arith)
                    requires temp < 0x1_0000_0000_0000_0000, (temp * temp) % (P as int) < P, P < 0x1_0000_0000_0000_0000;
                lemma_mod_bound((((temp * temp) % (P as int)) * temp) as int, P as int);
            }
            temp = (temp * temp % P_u128) * temp % P_u128;
            rootThrees.set(D3 - i, temp as u64);
            i = i + 1;
        }
        proof {
            assert(rootThrees@ =~= root_threes_table(R3, D3 as nat, P as int));
        }
        Param {
            P: P,
            R2: R2,
            R3: R3,
            D2: D2,
            D3: D3,
            rootTwos: rootTwos,
            rootThrees: rootThrees,
            useD2: 0,
            useD3: 0,
            useR2: 0u64,
            useR3: 0u64,
            L: 0,
        }
    }
}


/// The least `t >= 1` with `2^t >= limit`, and `2^t`.
fn pow2_at_least(limit: usize) -> (r: (usize, usize))
    requires
        pow2n(clog2_from1(limit as nat)) <= usize::MAX,
    ensures
        r.0 == pow2n(clog2_from1(limit as nat)),
        r.1 == clog2_from1(limit as nat),
{
    let mut n: usize = 2;
    let mut power: usize = 1;
    proof {
        assert(pow2n(0) == 1);
        assert(pow2n(1) == 2);
        lemma_clog2_pos(limit as nat);
    }
    while n < limit
        invariant
            pow2n(clog2_from1(limit as nat)) <= usize::MAX,
            power >= 1,
            n == pow2n(power as nat),
            power <= clog2_from1(limit as nat),
            power < n,
        decreases clog2_from1(limit as nat) - power,
    {
        proof {
            lemma_clog2(limit as nat, power as nat);
            if power + 1 < clog2_from1(limit as nat) {
                lemma_pow2n_strict((power + 1) as nat, clog2_from1(limit as nat));
            }
            assert(pow2n((power + 1) as nat) == 2 * n);
        }
        n = n * 2;
        power = power + 1;
    }
    proof {
        lemma_clog2(limit as nat, power as nat);
    }
    (n, power)
}

/// The least `t >= 1` with `3^t >= limit`, and `3^t`.
fn pow3_at_least(limit: usize) -> (r: (usize, usize))
    requires
        pow3n(clog3_from1(limit as nat)) <= usize::MAX,
    ensures
        r.0 == pow3n(clog3_from1(limit as nat)),
        r.1 == clog3_from1(limit as nat),
{
    let mut n: usize = 3;
    let mut power: usize = 1;
    proof {
        assert(pow3n(0) == 1);
        assert(pow3n(1) == 3);
        lemma_clog3_pos(limit as nat);
    }
    while n < limit
        invariant
            pow3n(clog3_from1(limit as nat)) <= usize::MAX,
            power >= 1,
            n == pow3n(power as nat),
            power <= clog3_from1(limit as nat),
            power < n,
        decreases clog3_from1(limit as nat) - power,
    {
        proof {
            lemma_clog3(limit as nat, power as nat);
            if power + 1 < clog3_from1(limit as nat) {
                lemma_pow3n_strict((power + 1) as nat, clog3_from1(limit as nat));
            }
            assert(pow3n((power + 1) as nat) == 3 * n);
        }
        n = n * 3;
        power = power + 1;
    }
    proof {
        lemma_clog3(limit as nat, power as nat);
    }
    (n, power)
}

/// The parameters chosen for a reconstruction threshold of `limit` parties,
/// `clients` parties in all, and block length `block_len`.
pub open spec fn chosen(before: ParamView, limit: nat, clients: nat, block_len: nat, use_d2: nat) -> ParamView {
    let power2 = (clog2_from1(limit) - 1) as nat;
    let power3 = clog3_from1(clients);
    ParamView {
        use_d2: use_d2,
        use_r2: before.root_twos[power2 as int],
        block_len: block_len,
        use_d3: pow3n(power3),
        use_r3: before.root_threes[power3 as int],
        ..before
    }
}

/// The broadcast parameter vector: prime, the two roots in use, the two
/// degrees in use and the block length.
pub open spec fn broadcast_params(v: ParamView) -> Seq<u64> {
    seq![v.prime, v.use_r2, v.use_r3, v.use_d2 as u64, v.use_d3 as u64, v.block_len as u64]
}

impl Param {
    /// Parameters for semi-honest clients: the radix-2 degree is the largest
    /// power of two below the number of clients that stay, the radix-3
    /// degree the smallest power of three (at least 3) covering all clients.
    /// The block length is the greatest divisor of the vector size found by
    /// the factor search bounded by the radix-2 degree, so that a block fits
    /// in one sharing.
    pub fn calculate_semi_honest(&mut self, numClients: usize, vectorSize: usize, dropouts: usize) -> (r: Vec<u64>)
        requires
            old(self).wf(),
            dropouts <= numClients,
            pow2n(clog2_from1((numClients - dropouts) as nat)) <= usize::MAX,
            clog2_from1((numClients - dropouts) as nat) - 1 <= old(self)@.d2,
            pow3n(clog3_from1(numClients as nat)) <= usize::MAX,
            clog3_from1(numClients as nat) <= old(self)@.d3,
            vectorSize >= pow2n((clog2_from1((numClients - dropouts) as nat) - 1) as nat),
            factor_search_fits(vectorSize as nat, pow2n((clog2_from1((numClients - dropouts) as nat) - 1) as nat), 2),
        ensures
            final(self).wf(),
            ({
                let limit = (numClients - dropouts) as nat;
                let power2 = (clog2_from1(limit) - 1) as nat;
                final(self)@ == chosen(old(self)@, limit, numClients as nat,
                    factor_search(vectorSize as nat, pow2n(power2), 2), pow2n(power2))
            }),
            r@ == broadcast_params(final(self)@),
    {
        let reconstructLimit = numClients - dropouts;
        let (n, p2) = pow2_at_least(reconstructLimit);
        let power2 = p2 - 1;
        proof {
            lemma_pow2n_pos(power2 as nat);
            assert(pow2n(p2 as nat) == 2 * pow2n(power2 as nat));
        }
        self.useD2 = n / 2;
        self.useR2 = self.rootTwos[power2];
        self.L = greatest_factor_under(vectorSize, self.useD2);
        let (n3, power3) = pow3_at_least(numClients);
        self.useD3 = n3;
        self.useR3 = self.rootThrees[power3];
        let r = vec![self.P, self.useR2, self.useR3, self.useD2 as u64, self.useD3 as u64, self.L as u64];
        proof {
            assert(r@ =~= broadcast_params(self@));
        }
        r
    }

    /// Parameters for malicious clients: as for semi-honest ones, with the
    /// reconstruction threshold lowered by twice the corrupted parties and
    /// the block length bounded by the radix-2 degree less the corruptions.
    pub fn calculate_malicious(&mut self, numClients: usize, vectorSize: usize, dropouts: usize, corruption: usize) -> (r: Vec<u64>)
        requires
            old(self).wf(),
            dropouts + 2 * corruption <= numClients,
            pow2n(clog2_from1((numClients - (dropouts + 2 * corruption)) as nat)) <= usize::MAX,
            clog2_from1((numClients - (dropouts + 2 * corruption)) as nat) - 1 <= old(self)@.d2,
            pow3n(clog3_from1(numClients as nat)) <= usize::MAX,
            clog3_from1(numClients as nat) <= old(self)@.d3,
            corruption <= pow2n((clog2_from1((numClients - (dropouts + 2 * corruption)) as nat) - 1) as nat),
            vectorSize >= pow2n((clog2_from1((numClients - (dropouts + 2 * corruption)) as nat) - 1) as nat) - corruption,
            factor_search_fits(vectorSize as nat,
                (pow2n((clog2_from1((numClients - (dropouts + 2 * corruption)) as nat) - 1) as nat) - corruption) as nat, 2),
        ensures
            final(self).wf(),
            ({
                let limit = (numClients - (dropouts + 2 * corruption)) as nat;
                let power2 = (clog2_from1(limit) - 1) as nat;
                let m = (pow2n(power2) - corruption) as nat;
                final(self)@ == chosen(old(self)@, limit, numClients as nat,
                    factor_search(vectorSize as nat, m, 2), pow2n(power2))
            }),
            r@ == broadcast_params(final(self)@),
    {
        let reconstructLimit = numClients - (dropouts + 2 * corruption);
        let (n, p2) = pow2_at_least(reconstructLimit);
        let power2 = p2 - 1;
        proof {
            lemma_pow2n_pos(power2 as nat);
            assert(pow2n(p2 as nat) == 2 * pow2n(power2 as nat));
        }
        self.useD2 = n / 2;
        self.useR2 = self.rootTwos[power2];
        self.L = greatest_factor_under(vectorSize, self.useD2 - corruption);
        let (n3, power3) = pow3_at_least(numClients);
        self.useD3 = n3;
        self.useR3 = self.rootThrees[power3];
        let r = vec![self.P, self.useR2, self.useR3, self.useD2 as u64, self.useD3 as u64, self.L as u64];
        proof {
            assert(r@ =~= broadcast_params(self@));
        }
        r
    }
}

} // verus!
