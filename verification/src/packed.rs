//! Packed secret sharing with a radix-2 transform for the sharing polynomial
//! and a radix-3 transform for the shares, and reconstruction by Lagrange
//! interpolation.
use vstd::prelude::*;
use crate::sums::{lemma_sum_ext, lemma_sum_zero_tail};
use crate::ntt::{
    pow3n, lemma_pow3n_pos, is_pow2, is_pow3, all_below, power_table, inverse2, transform3,
    inverse2_spec, transform3_spec, lemma_modpow_below, transform2_spec,
};
use crate::modpow::{modulus_bound, modpow_value, ModPow};
use crate::dft::{poly_eval, eval_at_power, lemma_transform2_of_inverse2, lemma_transform2_is_dft, lemma_power_table_powers, lemma_eval_at_power_is_poly};
use crate::dft3::lemma_transform3_is_dft;
use crate::fermat::is_prime;
use vstd::arithmetic::power::pow;
use crate::random::random_below;

verus! {

/// The number of base-3 digits needed to write `n` (at least one).
pub open spec fn trigit_count(n: nat) -> nat
    decreases n,
{
    if n < 3 {
        1
    } else {
        1 + trigit_count(n / 3)
    }
}

/// The exponent of the smallest power of three that is at least `n`.
pub open spec fn ceil_log3(n: nat) -> nat
    decreases n,
{
    if n <= 1 {
        0
    } else {
        1 + ceil_log3(((n + 2) / 3) as nat)
    }
}

/// `3^d > n` exactly when `d` is at least the digit count of `n`.
pub proof fn lemma_trigit_count(n: nat, d: nat)
    requires
        d >= 1,
    ensures
        pow3n(d) > n <==> d >= trigit_count(n),
    decreases d,
{
    lemma_pow3n_pos(d);
    if n < 3 {
        assert(pow3n(d) >= 3) by {
            lemma_pow3n_pos((d - 1) as nat);
        }
    } else if d == 1 {
        assert(pow3n(0) == 1);
        assert(pow3n(1) == 3);
        lemma_trigit_count_pos(n / 3);
    } else {
        lemma_trigit_count(n / 3, (d - 1) as nat);
        assert(pow3n(d) == 3 * pow3n((d - 1) as nat));
    }
}

pub proof fn lemma_trigit_count_pos(n: nat)
    ensures
        trigit_count(n) >= 1,
    decreases n,
{
    if n >= 3 {
        lemma_trigit_count_pos(n / 3);
    }
}

/// `3^k >= n` exactly when `k` is at least `ceil_log3(n)`.
pub proof fn lemma_ceil_log3(n: nat, k: nat)
    ensures
        pow3n(k) >= n <==> k >= ceil_log3(n),
    decreases k,
{
    lemma_pow3n_pos(k);
    if n <= 1 {
    } else if k == 0 {
        assert(pow3n(0) == 1);
    } else {
        lemma_ceil_log3(((n + 2) / 3) as nat, (k - 1) as nat);
        assert(pow3n(k) == 3 * pow3n((k - 1) as nat));
    }
}

/// The number of base-3 digits of `n`, and never fewer than one.
pub fn trigits_len(n: usize) -> (result: usize)
    requires
        n < usize::MAX,
        pow3n(trigit_count(n as nat)) <= usize::MAX,
    ensures
        result == trigit_count(n as nat),
{
    let mut result: usize = 1;
    let mut value: usize = 3;
    proof {
        assert(pow3n(0) == 1);
        assert(pow3n(1) == 3);
        lemma_trigit_count_pos(n as nat);
    }
    while value < n + 1
        invariant
            n < usize::MAX,
            pow3n(trigit_count(n as nat)) <= usize::MAX,
            result >= 1,
            value == pow3n(result as nat),
            result < value,
            result <= trigit_count(n as nat),
        decreases trigit_count(n as nat) - result,
    {
        proof {
            lemma_trigit_count(n as nat, result as nat);
            assert(result < trigit_count(n as nat));
            if result + 1 < trigit_count(n as nat) {
                crate::ntt::lemma_pow3n_strict((result + 1) as nat, trigit_count(n as nat));
            }
            assert(pow3n((result + 1) as nat) == 3 * value);
        }
        result = result + 1;
        value = value * 3;
    }
    proof {
        lemma_trigit_count(n as nat, result as nat);
    }
    result
}

/// The smallest power of three that is at least `n`.
pub fn round_to_pow3(n: usize) -> (v: usize)
    requires
        pow3n(ceil_log3(n as nat)) <= usize::MAX,
    ensures
        v == pow3n(ceil_log3(n as nat)),
{
    let mut v: usize = 1;
    let ghost mut k: nat = 0;
    proof {
        assert(pow3n(0) == 1);
    }
    while v < n
        invariant
            pow3n(ceil_log3(n as nat)) <= usize::MAX,
            v == pow3n(k),
            k <= ceil_log3(n as nat),
        decreases ceil_log3(n as nat) - k,
    {
        proof {
            lemma_ceil_log3(n as nat, k);
            if k + 1 < ceil_log3(n as nat) {
                crate::ntt::lemma_pow3n_strict(k + 1, ceil_log3(n as nat));
            }
            assert(pow3n(k + 1) == 3 * v);
        }
        v = v * 3;
        proof {
            k = k + 1;
        }
    }
    proof {
        lemma_ceil_log3(n as nat, k);
    }
    v
}


/// Packed sharing parameters: `num_secrets` secrets are packed into one
/// polynomial of degree `degree`, evaluated at `num_shares` points.
#[derive(Debug, Clone)]
pub struct PackedSecretSharing {
    prime: u128,
    root2: u128,
    root3: u128,
    pub rootTable2: Vec<u128>,
    pub rootTable3: Vec<u128>,
    degree: usize,
    num_secrets: usize,
    num_shares: usize,
    buff: Vec<u128>,
}

/// Each of `xs` plus `p` is at least each of `points`, so that the
/// interpolation's differences `x + p - point` never go below zero.
pub open spec fn differences_defined(points: Seq<u128>, xs: Seq<u128>, p: int) -> bool {
    forall|k: int, j: int| 0 <= k < xs.len() && 0 <= j < points.len() ==> #[trigger] xs[k] + p >= #[trigger] points[j]
}

/// `x - y` modulo `p` as the interpolation computes it: the plain
/// difference when `x >= y`, else `(x + p - y) % p`.
pub open spec fn sub_mod(x: int, y: int, p: int) -> int {
    if x >= y {
        x - y
    } else {
        (x + p - y) % p
    }
}

/// The product modulo `p` of `x - xs[j]` over `j < n`, `j != i`, reduced
/// after every factor, starting from 1.
pub open spec fn prod_except(xs: Seq<u128>, x: int, i: int, n: nat, p: int) -> int
    decreases n,
{
    if n == 0 {
        1
    } else {
        let d = prod_except(xs, x, i, (n - 1) as nat, p);
        if n - 1 == i {
            d
        } else {
            (d * sub_mod(x, xs[n - 1] as int, p)) % p
        }
    }
}

/// The inverse, by Fermat exponent `p - 2`, of the Lagrange denominator of point `i`.
pub open spec fn lagrange_denominator(xs: Seq<u128>, i: int, p: int) -> int {
    modpow_value(prod_except(xs, xs[i] as int, i, xs.len(), p), (p - 2) as nat, p)
}

/// The term of point `i` in the Lagrange sum at `r`.
pub open spec fn lagrange_term(xs: Seq<u128>, ys: Seq<u128>, r: int, i: int, p: int) -> int {
    (((prod_except(xs, r, i, xs.len(), p) * lagrange_denominator(xs, i, p)) % p) * ys[i]) % p
}

/// The sum of the first `n` Lagrange terms at `r`.
pub open spec fn lagrange_sum(xs: Seq<u128>, ys: Seq<u128>, r: int, n: nat, p: int) -> int
    decreases n,
{
    if n == 0 {
        0
    } else {
        lagrange_sum(xs, ys, r, (n - 1) as nat, p) + lagrange_term(xs, ys, r, n - 1, p)
    }
}

/// The Lagrange interpolation through `(xs[i], ys[i])` evaluated at each of `roots`, modulo `p`.
pub open spec fn lagrange_spec(xs: Seq<u128>, ys: Seq<u128>, roots: Seq<u128>, p: int) -> Seq<u128> {
    Seq::new(roots.len(), |k: int| (lagrange_sum(xs, ys, roots[k] as int, xs.len(), p) % p) as u128)
}

proof fn lemma_sub_mod_bound(x: int, y: int, p: int)
    requires
        0 <= x < modulus_bound(),
        0 <= y,
        0 < p <= modulus_bound(),
    ensures
        0 <= sub_mod(x, y, p) < modulus_bound(),
{
    if x < y {
        vstd::arithmetic::div_mod::lemma_mod_bound(x + p - y, p);
    }
}

/// Computes `prod_except(xs, x, i, xs.len(), p)`.
fn product_except(xs: &Vec<u128>, x: u128, i: usize, P: u128) -> (d: u128)
    requires
        2 <= P <= modulus_bound(),
        x < modulus_bound(),
        all_below(xs@, modulus_bound()),
        forall|j: int| 0 <= j < xs.len() ==> x + P >= #[trigger] xs@[j],
    ensures
        d == prod_except(xs@, x as int, i as int, xs.len() as nat, P as int),
        d < P,
{
    let L = xs.len();
    let mut d: u128 = 1;
    let mut j: usize = 0;
    while j < L
        invariant
            2 <= P <= modulus_bound(),
            x < modulus_bound(),
            all_below(xs@, modulus_bound()),
            forall|j: int| 0 <= j < xs.len() ==> x + P >= #[trigger] xs@[j],
            L == xs.len(),
            j <= L,
            d == prod_except(xs@, x as int, i as int, j as nat, P as int),
            d < P,
        decreases L - j,
    {
        if i != j {
            proof {
                lemma_sub_mod_bound(x as int, xs@[j as int] as int, P as int);
                let f = sub_mod(x as int, xs@[j as int] as int, P as int);
                assert(d * f < 0x1_0000_0000_0000_0000_0000_0000_0000_0000) by (nonlinear_arith)
                    requires d < 0x1_0000_0000_0000_0000, f < 0x1_0000_0000_0000_0000, f >= 0;
            }
            if x >= xs[j] {
                d = d * (x - xs[j]);
            } else {
                d = d * ((x + P - xs[j]) % P);
            }
            d = d % P;
        }
        j = j + 1;
    }
    d
}

/// Evaluates at each of `roots` the polynomial through the points
/// `(points[i], values[i])`, by Lagrange's formula modulo `P`, with the
/// denominators inverted by raising them to `P - 2`.
pub fn lagrange_interpolation(points: &Vec<u128>, values: &Vec<u128>, roots: &Vec<u128>, P: &u128) -> (evals: Vec<u128>)
    requires
        values.len() >= points.len(),
        2 <= *P <= modulus_bound(),
        all_below(points@, modulus_bound()),
        all_below(values@, modulus_bound()),
        all_below(roots@, modulus_bound()),
        differences_defined(points@, points@, *P as int),
        differences_defined(points@, roots@, *P as int),
    ensures
        evals@ == lagrange_spec(points@, values@, roots@, *P as int),
{
    let p = *P;
    let L = points.len();
    let mut denominators: Vec<u128> = Vec::new();
    let mut i: usize = 0;
    while i < L
        invariant
            2 <= p <= modulus_bound(),
            p == *P,
            all_below(points@, modulus_bound()),
            differences_defined(points@, points@, *P as int),
            L == points.len(),
            i <= L,
            denominators.len() == i,
            forall|k: int| 0 <= k < i ==> #[trigger] denominators@[k] == lagrange_denominator(points@, k, p as int),
            forall|k: int| 0 <= k < i ==> #[trigger] denominators@[k] < p,
        decreases L - i,
    {
        proof {
            assert forall|j: int| 0 <= j < points.len() implies points@[i as int] + p >= #[trigger] points@[j] by {
                assert(points@[i as int] + *P >= points@[j]);
            }
        }
        let d = product_except(points, points[i], i, p);
        let e = p - 2;
        let inv = d.modpow(&e, P);
        proof {
            lemma_modpow_below(d as int, e as nat, p as int);
        }
        denominators.push(inv);
        i = i + 1;
    }
    let mut evals: Vec<u128> = Vec::new();
    let mut k: usize = 0;
    while k < roots.len()
        invariant
            2 <= p <= modulus_bound(),
            p == *P,
            values.len() >= L,
            all_below(points@, modulus_bound()),
            all_below(values@, modulus_bound()),
            all_below(roots@, modulus_bound()),
            differences_defined(points@, roots@, *P as int),
            L == points.len(),
            denominators.len() == L,
            forall|q: int| 0 <= q < L ==> #[trigger] denominators@[q] == lagrange_denominator(points@, q, p as int),
            forall|q: int| 0 <= q < L ==> #[trigger] denominators@[q] < p,
            k <= roots.len(),
            evals.len() == k,
            forall|q: int| 0 <= q < k ==> #[trigger] evals@[q]
                == (lagrange_sum(points@, values@, roots@[q] as int, L as nat, p as int) % (p as int)) as u128,
        decreases roots.len() - k,
    {
        let r = roots[k];
        proof {
            assert forall|j: int| 0 <= j < points.len() implies r + p >= #[trigger] points@[j] by {
                assert(roots@[k as int] + *P >= points@[j]);
            }
        }
        let mut eval: u128 = 0;
        let mut i: usize = 0;
        while i < L
            invariant
                2 <= p <= modulus_bound(),
                p == *P,
                values.len() >= L,
                all_below(points@, modulus_bound()),
                all_below(values@, modulus_bound()),
                r < modulus_bound(),
                forall|j: int| 0 <= j < points.len() ==> r + p >= #[trigger] points@[j],
                L == points.len(),
                L <= usize::MAX,
                denominators.len() == L,
                forall|q: int| 0 <= q < L ==> #[trigger] denominators@[q] == lagrange_denominator(points@, q, p as int),
                forall|q: int| 0 <= q < L ==> #[trigger] denominators@[q] < p,
                i <= L,
                eval == lagrange_sum(points@, values@, r as int, i as nat, p as int),
                eval <= i * (p - 1),
            decreases L - i,
        {
            let li0 = product_except(points, r, i, p);
            proof {
                assert(li0 * denominators@[i as int] < 0x1_0000_0000_0000_0000_0000_0000_0000_0000) by (nonlinear_arith)
                    requires li0 < 0x1_0000_0000_0000_0000, denominators@[i as int] < 0x1_0000_0000_0000_0000;
            }
            let li = li0 * denominators[i] % p;
            proof {
                assert(li * values@[i as int] < 0x1_0000_0000_0000_0000_0000_0000_0000_0000) by (nonlinear_arith)
                    requires li < 0x1_0000_0000_0000_0000, values@[i as int] < 0x1_0000_0000_0000_0000;
                assert((i + 1) * (p - 1) < 0x1_0000_0000_0000_0000_0000_0000_0000_0000) by (nonlinear_arith)
                    requires i + 1 <= L, L <= 0xffff_ffff_ffff_ffff, p <= 0x1_0000_0000_0000_0000;
            }
            let term = li * values[i] % p;
            proof {
                assert(eval + term <= (i + 1) * (p - 1)) by (nonlinear_arith)
                    requires eval <= i * (p - 1), term <= p - 1;
            }
            eval = eval + term;
            i = i + 1;
        }
        evals.push(eval % p);
        k = k + 1;
    }
    proof {
        assert(evals@ =~= lagrange_spec(points@, values@, roots@, p as int));
    }
    evals
}

impl PackedSecretSharing {
    /// The sharing parameters are consistent: the radix-2 table holds the
    /// first `degree + 1` powers of `root2`, the radix-3 table the first
    /// powers of `root3` up to the smallest power of three at least
    /// `num_shares`, and the degree lies between the secret and share counts.
    pub open spec fn wf(&self) -> bool {
        &&& self.num_secrets_spec() <= self.degree_spec() <= self.num_shares_spec()
        &&& self.degree_spec() < usize::MAX
        &&& is_pow2((self.degree_spec() + 1) as nat)
        &&& 0 < self.prime_spec() <= modulus_bound()
        &&& self.table2_spec() == power_table(self.root2_spec() as int, (self.degree_spec() + 1) as nat, self.prime_spec() as int)
        &&& self.table3_spec() == power_table(
            self.root3_spec() as int,
            pow3n(ceil_log3(self.num_shares_spec() as nat)),
            self.prime_spec() as int,
        )
    }

    /// The field's prime.
    pub closed spec fn prime_spec(&self) -> u128 {
        self.prime
    }

    /// The generator of the radix-2 domain.
    pub closed spec fn root2_spec(&self) -> u128 {
        self.root2
    }

    /// The generator of the radix-3 domain.
    pub closed spec fn root3_spec(&self) -> u128 {
        self.root3
    }

    /// The degree of the sharing polynomial.
    pub closed spec fn degree_spec(&self) -> usize {
        self.degree
    }

    /// The number of secrets packed into one polynomial.
    pub closed spec fn num_secrets_spec(&self) -> usize {
        self.num_secrets
    }

    /// The number of shares handed out.
    pub closed spec fn num_shares_spec(&self) -> usize {
        self.num_shares
    }

    /// The radix-2 table.
    pub closed spec fn table2_spec(&self) -> Seq<u128> {
        self.rootTable2@
    }

    /// The radix-3 table.
    pub closed spec fn table3_spec(&self) -> Seq<u128> {
        self.rootTable3@
    }

    /// The stored tail of a polynomial between two transforms.
    pub closed spec fn buff_spec(&self) -> Seq<u128> {
        self.buff@
    }

    /// The radix-2 table, the public field `rootTable2`, as the contracts
    /// speak of it.
    pub fn root_table2(&self) -> (t: &Vec<u128>)
        ensures
            t@ == self.table2_spec(),
    {
        &self.rootTable2
    }

    /// The radix-3 table, the public field `rootTable3`, as the contracts
    /// speak of it.
    pub fn root_table3(&self) -> (t: &Vec<u128>)
        ensures
            t@ == self.table3_spec(),
    {
        &self.rootTable3
    }

    /// Sets up sharing of `num_secrets` values with a polynomial of degree
    /// `degree` (one less than a power of two) over the field of `prime`
    /// elements; `root2` and `root3` generate the two evaluation domains.
    pub fn new(prime: u128, root2: u128, root3: u128, degree: usize, num_secrets: usize, num_shares: usize)
        -> (pss: PackedSecretSharing)
        requires
            degree <= num_shares,
            degree >= num_secrets,
            degree < usize::MAX,
            is_pow2((degree + 1) as nat),
            0 < prime <= modulus_bound(),
            pow3n(ceil_log3(num_shares as nat)) <= usize::MAX,
        ensures
            pss.wf(),
            pss.prime_spec() == prime,
            pss.root2_spec() == root2,
            pss.root3_spec() == root3,
            pss.degree_spec() == degree,
            pss.num_secrets_spec() == num_secrets,
            pss.num_shares_spec() == num_shares,
            pss.buff_spec() == Seq::<u128>::empty(),
    {
        let L2 = degree + 1;
        let rootTable2 = powers(root2, L2, prime);
        let L3 = round_to_pow3(num_shares);
        let rootTable3 = powers(root3, L3, prime);
        PackedSecretSharing {
            prime: prime,
            root2: root2,
            root3: root3,
            rootTable2: rootTable2,
            rootTable3: rootTable3,
            degree: degree,
            num_secrets: num_secrets,
            num_shares: num_shares,
            buff: Vec::new(),
        }
    }

    /// Shares `secrets` with `randomness` filling the remaining coefficients
    /// of the radix-2 domain: the inverse radix-2 transform of the secrets
    /// followed by the randomness, padded with zeros to the radix-3 domain,
    /// then transformed forward over that domain.
    pub fn share_with_randomness(&self, secrets: &Vec<u128>, randomness: &Vec<u128>) -> (shares: Vec<u128>)
        requires
            self.wf(),
            secrets.len() == self.num_secrets_spec(),
            secrets.len() + randomness.len() == self.table2_spec().len(),
            2 <= self.table2_spec().len() <= self.table3_spec().len(),
            self.prime_spec() >= 2,
            all_below(secrets@, modulus_bound()),
            all_below(randomness@, modulus_bound()),
        ensures
            shares@ == transform3_spec(
                pad_zeros(inverse2_spec(secrets@ + randomness@, self.prime_spec() as int, self.table2_spec()), self.table3_spec().len() as nat),
                self.prime_spec() as int,
                self.table3_spec(),
            ),
    {
        let L2 = self.rootTable2.len();
        let L3 = self.rootTable3.len();
        let mut _secrets = secrets.clone();
        let mut k: usize = 0;
        proof {
            assert(_secrets@ =~= secrets@);
        }
        while k < randomness.len()
            invariant
                _secrets@ == secrets@ + randomness@.subrange(0, k as int),
                k <= randomness.len(),
            decreases randomness.len() - k,
        {
            _secrets.push(randomness[k]);
            k = k + 1;
            proof {
                assert(_secrets@ =~= secrets@ + randomness@.subrange(0, k as int));
            }
        }
        proof {
            assert(randomness@.subrange(0, k as int) =~= randomness@);
            crate::ntt::lemma_pow2n_pos(0);
            assert(all_below(_secrets@, modulus_bound()));
            lemma_power_table_pow2(self);
        }
        let mut poly = inverse2(_secrets, &self.prime, &self.rootTable2);
        let ghost inv = poly@;
        let mut i: usize = L2;
        proof {
            assert(poly@ =~= pad_zeros(inv, L2 as nat));
        }
        while i < L3
            invariant
                L2 <= i <= L3,
                inv.len() == L2,
                poly@ == pad_zeros(inv, i as nat),
            decreases L3 - i,
        {
            poly.push(0u128);
            i = i + 1;
            proof {
                assert(poly@ =~= pad_zeros(inv, i as nat));
            }
        }
        proof {
            lemma_power_table_below(self.root3_spec() as int, L3 as nat, self.prime_spec() as int);
            let w = modpow_value(self.rootTable2@[1] as int, (self.prime_spec() - 2) as nat, self.prime_spec() as int);
            let tt = crate::ntt::transform2_spec(_secrets@, self.prime_spec() as int, power_table(w, L2 as nat, self.prime_spec() as int));
            let cc = modpow_value(L2 as int, (self.prime_spec() - 2) as nat, self.prime_spec() as int);
            assert(inv == crate::ntt::scaled(tt, cc, self.prime_spec() as int));
            crate::ntt::lemma_scaled_below(inv, self.prime_spec() as int);
            assert forall|q: int| 0 <= q < poly@.len() implies #[trigger] poly@[q] < modulus_bound() by {
                if q >= L2 {
                    assert(poly@[q] == 0);
                }
            }
            lemma_pow3_table(self);
        }
        let shares = transform3(poly, &self.prime, &self.rootTable3);
        shares
    }

    /// Shares `secrets`, filling the remaining coefficients of the radix-2
    /// domain with values drawn uniformly below the prime.
    pub fn share(&mut self, secrets: &Vec<u128>) -> (shares: Vec<u128>)
        requires
            old(self).wf(),
            secrets.len() == old(self).num_secrets_spec(),
            2 <= old(self).table2_spec().len() <= old(self).table3_spec().len(),
            old(self).prime_spec() >= 2,
            all_below(secrets@, modulus_bound()),
        ensures
            *final(self) == *old(self),
            exists|randomness: Seq<u128>|
                randomness.len() == old(self).table2_spec().len() - secrets.len()
                && all_below(randomness, old(self).prime_spec() as int)
                && shares@ == transform3_spec(
                    pad_zeros(inverse2_spec(secrets@ + randomness, old(self).prime_spec() as int, old(self).table2_spec()),
                        old(self).table3_spec().len() as nat),
                    old(self).prime_spec() as int,
                    old(self).table3_spec(),
                ),
    {
        let L2 = self.rootTable2.len();
        let mut randomness: Vec<u128> = Vec::new();
        let mut i: usize = self.num_secrets;
        while i < L2
            invariant
                self.num_secrets_spec() <= i <= L2,
                L2 == self.table2_spec().len(),
                self.prime_spec() >= 2,
                randomness.len() == i - self.num_secrets_spec(),
                all_below(randomness@, self.prime_spec() as int),
            decreases L2 - i,
        {
            let v = random_below(self.prime);
            randomness.push(v);
            i = i + 1;
        }
        let shares = self.share_with_randomness(secrets, &randomness);
        shares
    }

    /// Reconstructs the secrets from shares given as evaluation points and
    /// values: interpolates at the first `num_secrets` powers of `root2`.
    /// The radix-2 table is cut down to those powers for good.
    pub fn reconstruct(&mut self, shares_point: &Vec<u128>, shares_val: &Vec<u128>) -> (secrets: Vec<u128>)
        requires
            shares_point.len() >= old(self).degree_spec() + 1,
            shares_point.len() <= old(self).num_shares_spec(),
            shares_point.len() == shares_val.len(),
            old(self).num_secrets_spec() <= old(self).table2_spec().len(),
            2 <= old(self).prime_spec() <= modulus_bound(),
            all_below(shares_point@, modulus_bound()),
            all_below(shares_val@, modulus_bound()),
            all_below(old(self).table2_spec(), modulus_bound()),
            differences_defined(shares_point@, shares_point@, old(self).prime_spec() as int),
            differences_defined(shares_point@, old(self).table2_spec().subrange(0, old(self).num_secrets_spec() as int), old(self).prime_spec() as int),
        ensures
            final(self).table2_spec() == old(self).table2_spec().subrange(0, old(self).num_secrets_spec() as int),
            final(self).table3_spec() == old(self).table3_spec(),
            final(self).prime_spec() == old(self).prime_spec(),
            final(self).root2_spec() == old(self).root2_spec(),
            final(self).root3_spec() == old(self).root3_spec(),
            final(self).degree_spec() == old(self).degree_spec(),
            final(self).num_secrets_spec() == old(self).num_secrets_spec(),
            final(self).num_shares_spec() == old(self).num_shares_spec(),
            final(self).buff_spec() == old(self).buff_spec(),
            secrets@ == lagrange_spec(shares_point@, shares_val@, final(self).table2_spec(), old(self).prime_spec() as int),
    {
        let _ = self.rootTable2.split_off(self.num_secrets);
        lagrange_interpolation(shares_point, shares_val, &self.rootTable2, &self.prime)
    }
}

/// `s` followed by zeros up to length `n` (unchanged if already longer).
pub open spec fn pad_zeros(s: Seq<u128>, n: nat) -> Seq<u128> {
    if n <= s.len() {
        s
    } else {
        s + Seq::new((n - s.len()) as nat, |i: int| 0u128)
    }
}

/// The first `n` powers of `w` modulo `p`.
pub fn powers(w: u128, n: usize, p: u128) -> (t: Vec<u128>)
    requires
        0 < p <= modulus_bound(),
    ensures
        t@ == power_table(w as int, n as nat, p as int),
{
    let mut t = vec![0u128; n];
    let mut i: usize = 0;
    while i < n
        invariant
            0 < p <= modulus_bound(),
            t.len() == n,
            i <= n,
            forall|k: int| 0 <= k < i ==> #[trigger] t@[k] == modpow_value(w as int, k as nat, p as int) as u128,
        decreases n - i,
    {
        let v = w.modpow(&(i as u128), &p);
        t.set(i, v);
        i = i + 1;
    }
    proof {
        assert(t@ =~= power_table(w as int, n as nat, p as int));
    }
    t
}

/// Every entry of a power table modulo `p >= 2` is below `p`.
pub proof fn lemma_power_table_below(w: int, n: nat, p: int)
    requires
        2 <= p <= modulus_bound(),
    ensures
        all_below(power_table(w, n, p), p),
        all_below(power_table(w, n, p), modulus_bound()),
{
    assert forall|k: int| 0 <= k < n implies #[trigger] power_table(w, n, p)[k] < p by {
        lemma_modpow_below(w, k as nat, p);
    }
}

proof fn lemma_power_table_pow2(pss: &PackedSecretSharing)
    requires
        pss.wf(),
    ensures
        is_pow2(pss.table2_spec().len() as nat),
{
}

/// The radix-2 table's length is a power of two and the radix-3 table's a
/// power of three.
pub proof fn lemma_pow3_table_law(pss: &PackedSecretSharing)
    requires
        pss.wf(),
    ensures
        is_pow2(pss.table2_spec().len() as nat),
        is_pow3(pss.table3_spec().len() as nat),
{
    lemma_pow3_table(pss);
}

proof fn lemma_pow3_table(pss: &PackedSecretSharing)
    requires
        pss.wf(),
    ensures
        pss.table3_spec().len() >= 1,
        is_pow3(pss.table3_spec().len() as nat),
        pss.table3_spec().len() / 3 * 2 < pss.table3_spec().len(),
{
    lemma_pow3n_pos(ceil_log3(pss.num_shares_spec() as nat));
}

/// Points below the modulus never make the interpolation's differences negative.
pub proof fn lemma_differences_defined(points: Seq<u128>, xs: Seq<u128>, p: int)
    requires
        all_below(points, p),
    ensures
        differences_defined(points, xs, p),
{
}


/// The tables are held in vectors, so their lengths fit in a machine word.
pub proof fn lemma_tables_fit(pss: &PackedSecretSharing)
    ensures
        pss.table2_spec().len() <= usize::MAX,
        pss.table3_spec().len() <= usize::MAX,
{
    assert(pss.rootTable2@.len() == pss.rootTable2.len());
    assert(pss.rootTable3@.len() == pss.rootTable3.len());
}

/// Law (sharing): a sharing is the evaluation of one polynomial. With an
/// odd prime `p`, `root2` of order `L2 = degree + 1` (its power `L2 / 2`
/// congruent to `-1` modulo `p`), and `root3^L3` congruent to 1 for the
/// radix-3 domain of `L3 >= 3` points: the polynomial whose coefficients are the inverse
/// radix-2 transform of the secrets followed by the randomness has degree
/// below `L2`, takes the `i`-th of those values at `root2^i`, and the shares
/// handed out are its values at `root3^j`, reduced modulo `p`.
pub proof fn lemma_share_evaluates(pss: &PackedSecretSharing, secrets: Seq<u128>, randomness: Seq<u128>)
    requires
        pss.wf(),
        secrets.len() + randomness.len() == pss.table2_spec().len(),
        2 <= pss.table2_spec().len() <= pss.table3_spec().len(),
        pss.table3_spec().len() >= 3,
        is_prime(pss.prime_spec() as int),
        pss.prime_spec() > 2,
        pow(pss.root2_spec() as int, pss.table2_spec().len() / 2) % (pss.prime_spec() as int) == pss.prime_spec() - 1,
        pow(pss.root3_spec() as int, pss.table3_spec().len()) % (pss.prime_spec() as int) == 1,
    ensures
        ({
            let p = pss.prime_spec() as int;
            let values = secrets + randomness;
            let coeffs = inverse2_spec(values, p, pss.table2_spec());
            let shares = transform3_spec(pad_zeros(coeffs, pss.table3_spec().len()), p, pss.table3_spec());
            &&& coeffs.len() == pss.table2_spec().len()
            &&& forall|i: int|
                0 <= i < coeffs.len() ==> #[trigger] poly_eval(coeffs, pow(pss.root2_spec() as int, i as nat)) % p
                    == (values[i] as int) % p
            &&& shares.len() == pss.table3_spec().len()
            &&& forall|j: int|
                0 <= j < shares.len() ==> #[trigger] shares[j] as int == poly_eval(
                    coeffs,
                    pow(pss.root3_spec() as int, j as nat),
                ) % p
        }),
{
    let p = pss.prime_spec() as int;
    let w2 = pss.root2_spec() as int;
    let w3 = pss.root3_spec() as int;
    let values = secrets + randomness;
    let n2 = pss.table2_spec().len();
    let n3 = pss.table3_spec().len();
    lemma_tables_fit(pss);
    lemma_power_table_pow2(pss);
    lemma_pow3_table(pss);
    let coeffs = inverse2_spec(values, p, pss.table2_spec());
    lemma_transform2_of_inverse2(values, p, w2);
    lemma_power_table_powers(w2, n2, p);
    lemma_transform2_is_dft(coeffs, p, pss.table2_spec(), w2);
    assert forall|i: int| 0 <= i < coeffs.len() implies #[trigger] poly_eval(coeffs, pow(w2, i as nat)) % p
        == (values[i] as int) % p by {
        let t = transform2_spec(coeffs, p, pss.table2_spec());
        assert(pss.table2_spec() == power_table(w2, values.len(), p));
        assert(t[i] == crate::field_ntt::reduce(values, p)[i]);
        assert(t[i] == crate::dft::dft(coeffs, w2, p)[i]);
        lemma_eval_at_power_is_poly(coeffs, w2, i as nat);
        vstd::arithmetic::div_mod::lemma_mod_bound(eval_at_power(coeffs, w2, i as nat), p);
        vstd::arithmetic::div_mod::lemma_mod_twice(eval_at_power(coeffs, w2, i as nat), p);
        vstd::arithmetic::div_mod::lemma_mod_bound(values[i] as int, p);
        vstd::arithmetic::div_mod::lemma_mod_twice(values[i] as int, p);
    }
    let padded = pad_zeros(coeffs, n3);
    assert(padded.len() == n3);
    lemma_power_table_powers(w3, n3, p);
    lemma_transform3_is_dft(padded, p, pss.table3_spec(), w3);
    assert forall|j: int| 0 <= j < n3 implies #[trigger] transform3_spec(padded, p, pss.table3_spec())[j] as int
        == poly_eval(coeffs, pow(w3, j as nat)) % p by {
        let f = |i: int| padded[i] * pow(w3, (i * j) as nat);
        let g = |i: int| coeffs[i] * pow(w3, (i * j) as nat);
        assert forall|t: int| n2 <= t < n3 implies #[trigger] f(t) == 0 by {
            assert(padded[t] == 0);
        }
        lemma_sum_zero_tail(f, n2, n3);
        lemma_sum_ext(f, g, n2);
        lemma_eval_at_power_is_poly(coeffs, w3, j as nat);
        vstd::arithmetic::div_mod::lemma_mod_bound(eval_at_power(padded, w3, j as nat), p);
    }
}

} // verus!
