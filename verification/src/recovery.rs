//! What packed sharing promises: reconstructing from the shares at enough
//! points gives the secrets back, and reconstructing from sums of shares
//! gives the sums of the secrets.
use vstd::prelude::*;
use crate::sums::{lemma_cong_add};
use vstd::arithmetic::power::pow;
use vstd::arithmetic::div_mod::{lemma_mod_bound, lemma_small_mod, lemma_mod_twice};
use crate::ntt::{inverse2_spec, transform2_spec, transform3_spec, power_table, is_pow2, is_pow3, all_below};
use crate::field_ntt::reduce;
use crate::pss::{PackedSecretSharing as PssSharing, shares_spec, share_points, widen, share_rows, block, block_randomness};
use crate::dft::{poly_eval, lemma_transform2_of_inverse2, lemma_transform2_is_dft};
use crate::dft3::lemma_transform3_is_dft;
use crate::modpow::modulus_bound;
use crate::packed::{PackedSecretSharing, pad_zeros, lagrange_spec, prod_except, lagrange_denominator};
use crate::fermat::{is_prime, lemma_prime_product_nonzero, lemma_fermat_inverse, lemma_euclid, lemma_half_power_is_minus_one};
use crate::interp::{horner, ints, padd, lemma_lagrange_exact, lemma_horner_cong, lemma_horner_padd, lemma_poly_eval_is_horner};

verus! {

/// The shares that sharing `secrets` with `randomness` hands out.
pub open spec fn sharing(pss: PackedSecretSharing, secrets: Seq<u128>, randomness: Seq<u128>) -> Seq<u128> {
    transform3_spec(
        pad_zeros(
            inverse2_spec(secrets + randomness, pss.prime_spec() as int, pss.table2_spec()),
            pss.table3_spec().len() as nat,
        ),
        pss.prime_spec() as int,
        pss.table3_spec(),
    )
}

/// The entries of `s` at the positions `idx`.
pub open spec fn pick(s: Seq<u128>, idx: Seq<int>) -> Seq<u128> {
    Seq::new(idx.len(), |k: int| s[idx[k]])
}

/// The parameters of a sound sharing: an odd prime `p`, `root2` of order
/// `L2` (its power `L2 / 2` congruent to `-1`), and `root3^L3` congruent
/// to 1, with `2 <= L2 <= L3` and `L3 >= 3`.
pub open spec fn sound_params(pss: PackedSecretSharing) -> bool {
    let p = pss.prime_spec() as int;
    let n2 = pss.table2_spec().len();
    let n3 = pss.table3_spec().len();
    &&& pss.wf()
    &&& 2 <= n2 <= n3
    &&& n3 >= 3
    &&& is_prime(p)
    &&& p > 2
    &&& pow(pss.root2_spec() as int, n2 / 2) % p == p - 1
    &&& pow(pss.root3_spec() as int, n3) % p == 1
}

/// No point occurs twice.
pub open spec fn distinct(points: Seq<u128>) -> bool {
    forall|k: int, l: int| 0 <= k < points.len() && 0 <= l < points.len() && k != l ==> points[k] != points[l]
}

/// The interpolation's product over the other points is not divisible by
/// the prime when the points are distinct and below it.
proof fn lemma_prod_except_unit(xs: Seq<u128>, k: int, n: nat, p: int)
    requires
        is_prime(p),
        0 <= k < xs.len(),
        n <= xs.len(),
        distinct(xs),
        forall|j: int| 0 <= j < xs.len() ==> #[trigger] xs[j] < p,
    ensures
        prod_except(xs, xs[k] as int, k, n, p) % p != 0,
    decreases n,
{
    lemma_small_mod(1, p as nat);
    if n > 0 {
        lemma_prod_except_unit(xs, k, (n - 1) as nat, p);
        if n - 1 != k {
            let x = xs[k] as int;
            let y = xs[n - 1] as int;
            let d = prod_except(xs, x, k, (n - 1) as nat, p);
            let s = crate::packed::sub_mod(x, y, p);
            // s is x - y or x - y + p, with x != y both below p
            if x >= y {
                lemma_small_mod((x - y) as nat, p as nat);
            } else {
                lemma_small_mod((x + p - y) as nat, p as nat);
            }
            assert(s % p != 0);
            lemma_prime_product_nonzero(p, d, s);
            lemma_mod_twice(d * s, p);
        }
    }
}

/// Distinct points below an odd prime have their Lagrange denominators
/// inverted by the power that the interpolation raises them to.
proof fn lemma_denominators_inverted(xs: Seq<u128>, p: int, k: int)
    requires
        is_prime(p),
        0 <= k < xs.len(),
        distinct(xs),
        forall|j: int| 0 <= j < xs.len() ==> #[trigger] xs[j] < p,
    ensures
        (prod_except(xs, xs[k] as int, k, xs.len(), p) * lagrange_denominator(xs, k, p)) % p == 1,
{
    lemma_prod_except_unit(xs, k, xs.len(), p);
    lemma_fermat_inverse(prod_except(xs, xs[k] as int, k, xs.len(), p), p);
}

/// The two evaluation domains of a sound sharing: an odd prime `p`,
/// `L2 >= 2` powers of `w2` (a power of two, with `w2^(L2/2)` congruent to
/// `-1`), and `L3 >= 3` powers of `w3` (a power of three, with `w3^L3`
/// congruent to 1), `L2 <= L3`.
pub open spec fn sound_domains(p: int, w2: int, n2: nat, w3: int, n3: nat) -> bool {
    &&& is_prime(p)
    &&& 2 < p <= modulus_bound()
    &&& is_pow2(n2)
    &&& 2 <= n2 <= n3 <= usize::MAX
    &&& is_pow3(n3)
    &&& n3 >= 3
    &&& pow(w2, n2 / 2) % p == p - 1
    &&& pow(w3, n3) % p == 1
}

/// The shares of `values` over the two domains: the inverse radix-2
/// transform with the powers of `w2`, padded with zeros to `n3` entries and
/// transformed forward with the powers of `w3`.
pub open spec fn domain_shares(values: Seq<u128>, p: int, w2: int, w3: int, n3: nat) -> Seq<u128> {
    transform3_spec(
        pad_zeros(inverse2_spec(values, p, power_table(w2, values.len(), p)), n3),
        p,
        power_table(w3, n3, p),
    )
}

/// Entry `i` of a power table is congruent to the `i`-th power.
proof fn lemma_power_table_entry(w: int, n: nat, p: int, i: int)
    requires
        1 < p <= modulus_bound(),
        0 <= i < n,
    ensures
        (power_table(w, n, p)[i] as int) % p == pow(w, i as nat) % p,
{
    crate::dft::lemma_power_table_powers(w, n, p);
}

/// The shares are the values at the powers of `w3` of one polynomial
/// whose values at the powers of `w2` are `values`.
proof fn lemma_domain_values(values: Seq<u128>, p: int, w2: int, w3: int, n3: nat) -> (c: Seq<int>)
    requires
        sound_domains(p, w2, values.len(), w3, n3),
    ensures
        c.len() == values.len(),
        domain_shares(values, p, w2, w3, n3).len() == n3,
        all_below(domain_shares(values, p, w2, w3, n3), p),
        forall|j: int|
            0 <= j < n3 ==> #[trigger] (domain_shares(values, p, w2, w3, n3)[j] as int) % p == horner(
                c,
                power_table(w3, n3, p)[j] as int,
            ) % p,
        forall|i: int|
            0 <= i < values.len() ==> #[trigger] horner(c, power_table(w2, values.len(), p)[i] as int) % p
                == (values[i] as int) % p,
{
    let n2 = values.len();
    let table2 = power_table(w2, n2, p);
    let table3 = power_table(w3, n3, p);
    let coeffs = inverse2_spec(values, p, table2);
    lemma_transform2_of_inverse2(values, p, w2);
    crate::dft::lemma_power_table_powers(w2, n2, p);
    lemma_transform2_is_dft(coeffs, p, table2, w2);
    let c = ints(coeffs);
    let padded = pad_zeros(coeffs, n3);
    crate::dft::lemma_power_table_powers(w3, n3, p);
    lemma_transform3_is_dft(padded, p, table3, w3);
    let shares = domain_shares(values, p, w2, w3, n3);
    assert forall|j: int| 0 <= j < n3 implies #[trigger] shares[j] < p && (shares[j] as int) % p
        == horner(c, table3[j] as int) % p by {
        let x = pow(w3, j as nat);
        let f = |i: int| padded[i] * pow(w3, (i * j) as nat);
        let g = |i: int| coeffs[i] * pow(w3, (i * j) as nat);
        assert forall|t: int| n2 <= t < n3 implies #[trigger] f(t) == 0 by {
            assert(padded[t] == 0);
        }
        crate::sums::lemma_sum_zero_tail(f, n2, n3);
        crate::sums::lemma_sum_ext(f, g, n2);
        crate::dft::lemma_eval_at_power_is_poly(coeffs, w3, j as nat);
        lemma_poly_eval_is_horner(coeffs, x);
        lemma_mod_bound(poly_eval(coeffs, x), p);
        lemma_mod_twice(poly_eval(coeffs, x), p);
        lemma_power_table_entry(w3, n3, p, j);
        lemma_horner_cong(c, table3[j] as int, x, p);
    }
    assert forall|i: int| 0 <= i < n2 implies #[trigger] horner(c, table2[i] as int) % p == (values[i] as int) % p by {
        let x = pow(w2, i as nat);
        let t = transform2_spec(coeffs, p, table2);
        assert(t[i] == reduce(values, p)[i]);
        assert(t[i] == crate::dft::dft(coeffs, w2, p)[i]);
        crate::dft::lemma_eval_at_power_is_poly(coeffs, w2, i as nat);
        lemma_poly_eval_is_horner(coeffs, x);
        lemma_mod_bound(poly_eval(coeffs, x), p);
        lemma_mod_twice(poly_eval(coeffs, x), p);
        lemma_mod_bound(values[i] as int, p);
        lemma_mod_twice(values[i] as int, p);
        lemma_power_table_entry(w2, n2, p, i);
        lemma_horner_cong(c, table2[i] as int, x, p);
    }
    c
}

/// Interpolating, at distinct points below an odd prime, the values of a
/// polynomial with at most as many coefficients as points gives its
/// values at the roots.
proof fn lemma_lagrange_recovers(points: Seq<u128>, vals: Seq<u128>, c: Seq<int>, roots: Seq<u128>, p: int)
    requires
        is_prime(p),
        p <= modulus_bound(),
        distinct(points),
        forall|k: int| 0 <= k < points.len() ==> #[trigger] points[k] < p,
        vals.len() == points.len(),
        c.len() <= points.len(),
        forall|k: int| 0 <= k < points.len() ==> #[trigger] (vals[k] as int) % p == horner(c, points[k] as int) % p,
    ensures
        forall|i: int| 0 <= i < roots.len() ==> #[trigger] lagrange_spec(points, vals, roots, p)[i] as int == horner(
            c,
            roots[i] as int,
        ) % p,
{
    assert forall|k: int| 0 <= k < points.len() implies (#[trigger] prod_except(points, points[k] as int, k, points.len(), p)
        * lagrange_denominator(points, k, p)) % p == 1 by {
        lemma_denominators_inverted(points, p, k);
    }
    assert forall|i: int| 0 <= i < roots.len() implies #[trigger] lagrange_spec(points, vals, roots, p)[i] as int
        == horner(c, roots[i] as int) % p by {
        lemma_lagrange_exact(points, vals, c, p, roots[i] as int);
        lemma_mod_bound(crate::packed::lagrange_sum(points, vals, roots[i] as int, points.len(), p), p);
        lemma_mod_bound(horner(c, roots[i] as int), p);
    }
}

/// Sound parameters give sound domains, with the tables as power tables.
proof fn lemma_sound_params_domains(pss: PackedSecretSharing)
    requires
        sound_params(pss),
    ensures
        sound_domains(
            pss.prime_spec() as int,
            pss.root2_spec() as int,
            pss.table2_spec().len(),
            pss.root3_spec() as int,
            pss.table3_spec().len(),
        ),
        pss.table2_spec() == power_table(pss.root2_spec() as int, pss.table2_spec().len(), pss.prime_spec() as int),
        pss.table3_spec() == power_table(pss.root3_spec() as int, pss.table3_spec().len(), pss.prime_spec() as int),
{
    crate::packed::lemma_tables_fit(&pss);
    crate::packed::lemma_pow3_table_law(&pss);
}

/// The picked points of the radix-3 domain lie below the prime.
proof fn lemma_picked_below(pss: PackedSecretSharing, idx: Seq<int>)
    requires
        sound_params(pss),
        forall|k: int| 0 <= k < idx.len() ==> 0 <= #[trigger] idx[k] < pss.table3_spec().len(),
    ensures
        forall|k: int| 0 <= k < idx.len() ==> #[trigger] pick(pss.table3_spec(), idx)[k] < pss.prime_spec(),
{
    let p = pss.prime_spec() as int;
    crate::packed::lemma_power_table_below(pss.root3_spec() as int, pss.table3_spec().len(), p);
    assert forall|k: int| 0 <= k < idx.len() implies #[trigger] pick(pss.table3_spec(), idx)[k] < p by {
        assert(pick(pss.table3_spec(), idx)[k] == pss.table3_spec()[idx[k]]);
    }
}

/// Law (recovery): reconstructing from the shares at any `m >= L2`
/// distinct points of the radix-3 domain gives back the secrets, reduced
/// modulo `p`. Which shares are missing does not matter: this is the
/// protocol's tolerance of dropouts.
pub proof fn lemma_reconstruct_share(
    pss: PackedSecretSharing,
    secrets: Seq<u128>,
    randomness: Seq<u128>,
    idx: Seq<int>,
)
    requires
        sound_params(pss),
        secrets.len() == pss.num_secrets_spec(),
        secrets.len() + randomness.len() == pss.table2_spec().len(),
        idx.len() >= pss.table2_spec().len(),
        forall|k: int| 0 <= k < idx.len() ==> 0 <= #[trigger] idx[k] < pss.table3_spec().len(),
        distinct(pick(pss.table3_spec(), idx)),
    ensures
        forall|i: int|
            0 <= i < secrets.len() ==> #[trigger] lagrange_spec(
                pick(pss.table3_spec(), idx),
                pick(sharing(pss, secrets, randomness), idx),
                pss.table2_spec().subrange(0, pss.num_secrets_spec() as int),
                pss.prime_spec() as int,
            )[i] == ((secrets[i] as int) % (pss.prime_spec() as int)) as u128,
{
    let p = pss.prime_spec() as int;
    let points = pick(pss.table3_spec(), idx);
    let vals = pick(sharing(pss, secrets, randomness), idx);
    let roots = pss.table2_spec().subrange(0, pss.num_secrets_spec() as int);
    let values = secrets + randomness;
    let n3 = pss.table3_spec().len();
    lemma_sound_params_domains(pss);
    let c = lemma_domain_values(values, p, pss.root2_spec() as int, pss.root3_spec() as int, n3);
    lemma_picked_below(pss, idx);
    assert forall|k: int| 0 <= k < points.len() implies #[trigger] (vals[k] as int) % p == horner(c, points[k] as int) % p by {
        assert(vals[k] == domain_shares(values, p, pss.root2_spec() as int, pss.root3_spec() as int, n3)[idx[k]]);
    }
    lemma_lagrange_recovers(points, vals, c, roots, p);
    assert forall|i: int| 0 <= i < secrets.len() implies #[trigger] lagrange_spec(points, vals, roots, p)[i]
        == ((secrets[i] as int) % p) as u128 by {
        assert(roots[i] == pss.table2_spec()[i]);
        assert(values[i] == secrets[i]);
        lemma_mod_bound(secrets[i] as int, p);
    }
}

/// Law (aggregation): reconstructing from the entrywise sums, modulo `p`,
/// of two sharings' shares at any `m >= L2` distinct points of the radix-3
/// domain gives the sums of the two clients' secrets, modulo `p`: the
/// aggregate is correct while no single sharing is ever reconstructed.
pub proof fn lemma_reconstruct_sum(
    pss: PackedSecretSharing,
    secrets1: Seq<u128>,
    randomness1: Seq<u128>,
    secrets2: Seq<u128>,
    randomness2: Seq<u128>,
    idx: Seq<int>,
    vals: Seq<u128>,
)
    requires
        sound_params(pss),
        secrets1.len() == pss.num_secrets_spec(),
        secrets2.len() == pss.num_secrets_spec(),
        secrets1.len() + randomness1.len() == pss.table2_spec().len(),
        secrets2.len() + randomness2.len() == pss.table2_spec().len(),
        idx.len() >= pss.table2_spec().len(),
        forall|k: int| 0 <= k < idx.len() ==> 0 <= #[trigger] idx[k] < pss.table3_spec().len(),
        distinct(pick(pss.table3_spec(), idx)),
        vals.len() == idx.len(),
        forall|k: int|
            0 <= k < vals.len() ==> (#[trigger] vals[k] as int) % (pss.prime_spec() as int) == (pick(
                sharing(pss, secrets1, randomness1),
                idx,
            )[k] + pick(sharing(pss, secrets2, randomness2), idx)[k]) % (pss.prime_spec() as int),
    ensures
        forall|i: int|
            0 <= i < secrets1.len() ==> #[trigger] lagrange_spec(
                pick(pss.table3_spec(), idx),
                vals,
                pss.table2_spec().subrange(0, pss.num_secrets_spec() as int),
                pss.prime_spec() as int,
            )[i] == ((secrets1[i] + secrets2[i]) % (pss.prime_spec() as int)) as u128,
{
    let p = pss.prime_spec() as int;
    let points = pick(pss.table3_spec(), idx);
    let roots = pss.table2_spec().subrange(0, pss.num_secrets_spec() as int);
    let n3 = pss.table3_spec().len();
    let w2 = pss.root2_spec() as int;
    let w3 = pss.root3_spec() as int;
    lemma_sound_params_domains(pss);
    let c1 = lemma_domain_values(secrets1 + randomness1, p, w2, w3, n3);
    let c2 = lemma_domain_values(secrets2 + randomness2, p, w2, w3, n3);
    lemma_picked_below(pss, idx);
    let c = padd(c1, c2);
    lemma_horner_padd(c1, c2, 0);
    assert forall|k: int| 0 <= k < points.len() implies #[trigger] (vals[k] as int) % p == horner(c, points[k] as int)
        % p by {
        let x = points[k] as int;
        lemma_horner_padd(c1, c2, x);
        assert(pick(sharing(pss, secrets1, randomness1), idx)[k] == domain_shares(secrets1 + randomness1, p, w2, w3, n3)[idx[k]]);
        assert(pick(sharing(pss, secrets2, randomness2), idx)[k] == domain_shares(secrets2 + randomness2, p, w2, w3, n3)[idx[k]]);
        lemma_cong_add(
            pick(sharing(pss, secrets1, randomness1), idx)[k] as int,
            horner(c1, x),
            pick(sharing(pss, secrets2, randomness2), idx)[k] as int,
            horner(c2, x),
            p,
        );
    }
    lemma_lagrange_recovers(points, vals, c, roots, p);
    assert forall|i: int| 0 <= i < secrets1.len() implies #[trigger] lagrange_spec(points, vals, roots, p)[i]
        == ((secrets1[i] + secrets2[i]) % p) as u128 by {
        let r = roots[i] as int;
        lemma_horner_padd(c1, c2, r);
        assert(roots[i] == pss.table2_spec()[i]);
        assert((secrets1 + randomness1)[i] == secrets1[i]);
        assert((secrets2 + randomness2)[i] == secrets2[i]);
        lemma_cong_add(horner(c1, r), secrets1[i] as int, horner(c2, r), secrets2[i] as int, p);
        lemma_mod_bound(secrets1[i] + secrets2[i], p);
        lemma_mod_bound(horner(c, r), p);
    }
}


// ---------------------------------------------------------------------------
// The protocol's sharing of 64-bit values
// ---------------------------------------------------------------------------

/// The parameters of a sound protocol sharing: sound domains of `degree2`
/// powers of `root2` and `degree3` powers of `root3`.
pub open spec fn sound_pss(pss: PssSharing<u128>) -> bool {
    &&& pss.wf()
    &&& sound_domains(
        pss.prime_spec() as int,
        pss.root2_spec() as int,
        pss.degree2_spec() as nat,
        pss.root3_spec() as int,
        pss.degree3_spec() as nat,
    )
}

/// The first `m` shares of `secrets` shared with `randomness`, widened.
pub open spec fn first_shares(pss: PssSharing<u128>, secrets: Seq<u64>, randomness: Seq<u64>, m: nat) -> Seq<u128> {
    widen(shares_spec(pss, secrets, randomness)).subrange(0, m as int)
}

/// The protocol's shares are the values of the shared polynomial at the
/// first powers of `root3`.
proof fn lemma_pss_values(pss: PssSharing<u128>, secrets: Seq<u64>, randomness: Seq<u64>, m: nat) -> (c: Seq<int>)
    requires
        sound_pss(pss),
        secrets.len() + randomness.len() == pss.degree2_spec(),
        m <= pss.num_shares_spec(),
    ensures
        c.len() == pss.degree2_spec(),
        shares_spec(pss, secrets, randomness).len() == pss.num_shares_spec(),
        first_shares(pss, secrets, randomness, m).len() == m,
        forall|k: int|
            0 <= k < m ==> #[trigger] (first_shares(pss, secrets, randomness, m)[k] as int) % (pss.prime_spec() as int)
                == horner(c, share_points(pss, m)[k] as int) % (pss.prime_spec() as int),
        forall|i: int|
            0 <= i < pss.degree2_spec() ==> #[trigger] horner(c, pss.table2_spec()[i] as int) % (pss.prime_spec() as int)
                == ((secrets + randomness)[i] as int) % (pss.prime_spec() as int),
{
    let p = pss.prime_spec() as int;
    let w2 = pss.root2_spec() as int;
    let w3 = pss.root3_spec() as int;
    let n3 = pss.degree3_spec() as nat;
    let values = widen(secrets + randomness);
    let c = lemma_domain_values(values, p, w2, w3, n3);
    let all = domain_shares(values, p, w2, w3, n3);
    let shares = first_shares(pss, secrets, randomness, m);
    assert(transform3_spec(pad_zeros(inverse2_spec(values, p, pss.table2_spec()), n3), p, pss.table3_spec()) == all);
    assert forall|k: int| 0 <= k < m implies #[trigger] (shares[k] as int) % p == horner(c, share_points(pss, m)[k] as int) % p by {
        assert(all[k] < p);
        assert(shares[k] == all[k]);
        assert(share_points(pss, m)[k] == power_table(w3, n3, p)[k]);
    }
    assert forall|i: int| 0 <= i < pss.degree2_spec() implies #[trigger] horner(c, pss.table2_spec()[i] as int) % p
        == ((secrets + randomness)[i] as int) % p by {
        assert(values[i] == (secrets + randomness)[i] as u128);
    }
    c
}

/// Law (recovery of the protocol's sharing): reconstructing from the first
/// `m` shares, `degree2 <= m <= num_shares`, at distinct points gives back
/// the secrets, reduced modulo `p`.
pub proof fn lemma_pss_reconstruct_share(pss: PssSharing<u128>, secrets: Seq<u64>, randomness: Seq<u64>, m: nat)
    requires
        sound_pss(pss),
        secrets.len() == pss.num_secrets_spec(),
        secrets.len() + randomness.len() == pss.degree2_spec(),
        pss.degree2_spec() <= m <= pss.num_shares_spec(),
        distinct(share_points(pss, m)),
    ensures
        forall|i: int|
            0 <= i < secrets.len() ==> #[trigger] lagrange_spec(
                share_points(pss, m),
                first_shares(pss, secrets, randomness, m),
                pss.table2_spec().subrange(0, pss.num_secrets_spec() as int),
                pss.prime_spec() as int,
            )[i] == ((secrets[i] as int) % (pss.prime_spec() as int)) as u128,
{
    let p = pss.prime_spec() as int;
    let points = share_points(pss, m);
    let roots = pss.table2_spec().subrange(0, pss.num_secrets_spec() as int);
    let c = lemma_pss_values(pss, secrets, randomness, m);
    crate::packed::lemma_power_table_below(pss.root3_spec() as int, m, p);
    lemma_lagrange_recovers(points, first_shares(pss, secrets, randomness, m), c, roots, p);
    assert forall|i: int| 0 <= i < secrets.len() implies #[trigger] lagrange_spec(
        points,
        first_shares(pss, secrets, randomness, m),
        roots,
        p,
    )[i] == ((secrets[i] as int) % p) as u128 by {
        assert(roots[i] == pss.table2_spec()[i]);
        assert((secrets + randomness)[i] == secrets[i]);
        lemma_mod_bound(secrets[i] as int, p);
    }
}

/// The sum over the clients of entry `k` of their first `m` shares.
pub open spec fn summed_shares(
    pss: PssSharing<u128>,
    secrets: Seq<Seq<u64>>,
    randomness: Seq<Seq<u64>>,
    m: nat,
    k: int,
) -> int
    decreases secrets.len(),
{
    if secrets.len() == 0 {
        0
    } else {
        summed_shares(pss, secrets.drop_last(), randomness.drop_last(), m, k) + first_shares(
            pss,
            secrets.last(),
            randomness[secrets.len() - 1],
            m,
        )[k]
    }
}

/// The sum over the clients of their secret `i`.
pub open spec fn summed_secret(secrets: Seq<Seq<u64>>, i: int) -> int
    decreases secrets.len(),
{
    if secrets.len() == 0 {
        0
    } else {
        summed_secret(secrets.drop_last(), i) + secrets.last()[i]
    }
}

/// Every client shares its `num_secrets` secrets with randomness that
/// fills the radix-2 domain.
pub open spec fn well_shaped(pss: PssSharing<u128>, secrets: Seq<Seq<u64>>, randomness: Seq<Seq<u64>>) -> bool {
    &&& randomness.len() == secrets.len()
    &&& forall|c: int|
        0 <= c < secrets.len() ==> (#[trigger] secrets[c]).len() == pss.num_secrets_spec() && secrets[c].len()
            + randomness[c].len() == pss.degree2_spec()
}

/// The summed shares are the values of one polynomial at the share points,
/// whose values at the radix-2 points are the summed secrets.
proof fn lemma_summed_values(pss: PssSharing<u128>, secrets: Seq<Seq<u64>>, randomness: Seq<Seq<u64>>, m: nat) -> (c: Seq<int>)
    requires
        sound_pss(pss),
        well_shaped(pss, secrets, randomness),
        m <= pss.num_shares_spec(),
    ensures
        c.len() <= pss.degree2_spec(),
        forall|k: int|
            0 <= k < m ==> #[trigger] summed_shares(pss, secrets, randomness, m, k) % (pss.prime_spec() as int) == horner(
                c,
                share_points(pss, m)[k] as int,
            ) % (pss.prime_spec() as int),
        forall|i: int|
            0 <= i < pss.num_secrets_spec() ==> #[trigger] summed_secret(secrets, i) % (pss.prime_spec() as int)
                == horner(c, pss.table2_spec()[i] as int) % (pss.prime_spec() as int),
    decreases secrets.len(),
{
    let p = pss.prime_spec() as int;
    if secrets.len() == 0 {
        let c = Seq::<int>::empty();
        lemma_small_mod(0, p as nat);
        c
    } else {
        let n = secrets.len();
        let s0 = secrets.drop_last();
        let r0 = randomness.drop_last();
        assert(well_shaped(pss, s0, r0)) by {
            assert forall|c: int| 0 <= c < s0.len() implies (#[trigger] s0[c]).len() == pss.num_secrets_spec()
                && s0[c].len() + r0[c].len() == pss.degree2_spec() by {
                assert(s0[c] == secrets[c] && r0[c] == randomness[c]);
            }
        }
        let c0 = lemma_summed_values(pss, s0, r0, m);
        let last = secrets.last();
        let rl = randomness[n - 1];
        assert(last == secrets[n - 1]);
        let c1 = lemma_pss_values(pss, last, rl, m);
        let c = padd(c0, c1);
        lemma_horner_padd(c0, c1, 0);
        assert forall|k: int| 0 <= k < m implies #[trigger] summed_shares(pss, secrets, randomness, m, k) % p == horner(
            c,
            share_points(pss, m)[k] as int,
        ) % p by {
            let x = share_points(pss, m)[k] as int;
            lemma_horner_padd(c0, c1, x);
            lemma_cong_add(summed_shares(pss, s0, r0, m, k), horner(c0, x), first_shares(pss, last, rl, m)[k] as int,
                horner(c1, x), p);
        }
        assert forall|i: int| 0 <= i < pss.num_secrets_spec() implies #[trigger] summed_secret(secrets, i) % p
            == horner(c, pss.table2_spec()[i] as int) % p by {
            let x = pss.table2_spec()[i] as int;
            lemma_horner_padd(c0, c1, x);
            assert((last + rl)[i] == last[i]);
            lemma_cong_add(summed_secret(s0, i), horner(c0, x), last[i] as int, horner(c1, x), p);
        }
        c
    }
}

/// Law (aggregation in the protocol): reconstructing from the entrywise
/// sums, modulo `p`, of the first `m` shares of any number of clients,
/// `degree2 <= m <= num_shares`, at distinct points gives the sums of
/// their secrets, modulo `p`.
pub proof fn lemma_pss_reconstruct_sum(
    pss: PssSharing<u128>,
    secrets: Seq<Seq<u64>>,
    randomness: Seq<Seq<u64>>,
    m: nat,
    vals: Seq<u128>,
)
    requires
        sound_pss(pss),
        well_shaped(pss, secrets, randomness),
        pss.degree2_spec() <= m <= pss.num_shares_spec(),
        distinct(share_points(pss, m)),
        vals.len() == m,
        forall|k: int|
            0 <= k < m ==> (#[trigger] vals[k] as int) % (pss.prime_spec() as int) == summed_shares(
                pss,
                secrets,
                randomness,
                m,
                k,
            ) % (pss.prime_spec() as int),
    ensures
        forall|i: int|
            0 <= i < pss.num_secrets_spec() ==> #[trigger] lagrange_spec(
                share_points(pss, m),
                vals,
                pss.table2_spec().subrange(0, pss.num_secrets_spec() as int),
                pss.prime_spec() as int,
            )[i] == (summed_secret(secrets, i) % (pss.prime_spec() as int)) as u128,
{
    let p = pss.prime_spec() as int;
    let points = share_points(pss, m);
    let roots = pss.table2_spec().subrange(0, pss.num_secrets_spec() as int);
    let c = lemma_summed_values(pss, secrets, randomness, m);
    crate::packed::lemma_power_table_below(pss.root3_spec() as int, m, p);
    lemma_lagrange_recovers(points, vals, c, roots, p);
    assert forall|i: int| 0 <= i < pss.num_secrets_spec() implies #[trigger] lagrange_spec(points, vals, roots, p)[i]
        == (summed_secret(secrets, i) % p) as u128 by {
        assert(roots[i] == pss.table2_spec()[i]);
        lemma_mod_bound(horner(c, roots[i] as int), p);
    }
}


/// Entry `b` of each of the first `m` rows, widened.
pub open spec fn column(rows: Seq<Seq<u64>>, b: int, m: nat) -> Seq<u128> {
    Seq::new(m, |n: int| rows[n][b] as u128)
}

/// Law (recovery of block-wise sharing): when `data` is shared block by
/// block of `num_secrets` values, reconstructing any block from its entries
/// in the first `m` rows, `degree2 <= m <= num_shares`, at distinct points
/// gives back that block, reduced modulo `p`.
pub proof fn lemma_pss_reconstruct_block(pss: PssSharing<u128>, data: Seq<u64>, rand: Seq<Seq<u64>>, b: int, m: nat)
    requires
        sound_pss(pss),
        pss.num_secrets_spec() >= 1,
        block_randomness(pss, rand, rand.len()),
        data.len() == rand.len() * pss.num_secrets_spec(),
        0 <= b < rand.len(),
        pss.degree2_spec() <= m <= pss.num_shares_spec(),
        distinct(share_points(pss, m)),
    ensures
        forall|i: int|
            0 <= i < pss.num_secrets_spec() ==> #[trigger] lagrange_spec(
                share_points(pss, m),
                column(share_rows(pss, data, rand), b, m),
                pss.table2_spec().subrange(0, pss.num_secrets_spec() as int),
                pss.prime_spec() as int,
            )[i] == ((data[b * pss.num_secrets_spec() + i] as int) % (pss.prime_spec() as int)) as u128,
{
    let l = pss.num_secrets_spec() as nat;
    let secrets = block(data, l, b);
    let randomness = rand[b];
    assert(b * l + l <= data.len()) by (nonlinear_arith)
        requires 0 <= b < rand.len(), data.len() == rand.len() * l;
    assert(b * l >= 0) by (nonlinear_arith)
        requires b >= 0;
    assert(secrets.len() == l);
    assert(secrets.len() + randomness.len() == pss.degree2_spec());
    let _ = lemma_pss_values(pss, secrets, randomness, m);
    let rows = share_rows(pss, data, rand);
    assert forall|n: int| 0 <= n < m implies #[trigger] column(rows, b, m)[n] == first_shares(pss, secrets, randomness, m)[n] by {
        assert(n < pss.num_shares_spec());
        assert(rows[n][b] == shares_spec(pss, secrets, randomness)[n]);
        assert(first_shares(pss, secrets, randomness, m)[n] == shares_spec(pss, secrets, randomness)[n] as u128);
    }
    assert(column(rows, b, m) =~= first_shares(pss, secrets, randomness, m));
    lemma_pss_reconstruct_share(pss, secrets, randomness, m);
    assert forall|i: int| 0 <= i < l implies #[trigger] secrets[i] == data[b * l + i] by {}
}


// ---------------------------------------------------------------------------
// Roots of a given multiplicative order
// ---------------------------------------------------------------------------

/// `w` has multiplicative order `n` modulo `p`: `w^n` is 1 and no smaller
/// positive power is.
pub open spec fn has_order(w: int, n: nat, p: int) -> bool {
    &&& pow(w, n) % p == 1
    &&& forall|d: nat| 0 < d < n ==> #[trigger] pow(w, d) % p != 1
}

/// The entries of a power table are the powers reduced modulo `p`.
proof fn lemma_power_table_reduced(w: int, n: nat, p: int, i: int)
    requires
        1 < p <= modulus_bound(),
        0 <= i < n,
    ensures
        power_table(w, n, p)[i] as int == pow(w, i as nat) % p,
{
    lemma_mod_bound(pow(w, i as nat), p);
    if i == 0 {
        vstd::arithmetic::power::lemma_pow0(w);
        lemma_small_mod(1, p as nat);
    }
}

/// The powers of a root of order `n` below `n` are distinct modulo a prime.
proof fn lemma_order_powers_distinct(w: int, n: nat, p: int, i: int, j: int)
    requires
        is_prime(p),
        p <= modulus_bound(),
        has_order(w, n, p),
        0 <= i < j < n,
    ensures
        power_table(w, n, p)[i] != power_table(w, n, p)[j],
{
    let a = pow(w, i as nat);
    let b = pow(w, (j - i) as nat);
    vstd::arithmetic::power::lemma_pow_adds(w, i as nat, (j - i) as nat);
    assert((i + (j - i)) as nat == j as nat);
    lemma_power_table_reduced(w, n, p, i);
    lemma_power_table_reduced(w, n, p, j);
    // w^i is a unit: it divides w^n, which is 1
    vstd::arithmetic::power::lemma_pow_adds(w, i as nat, (n - i) as nat);
    assert((i + (n - i)) as nat == n);
    vstd::arithmetic::div_mod::lemma_mul_mod_noop_left(a, pow(w, (n - i) as nat), p);
    lemma_mod_bound(a, p);
    if a % p == 0 {
        assert(0 * pow(w, (n - i) as nat) == 0);
        lemma_small_mod(0, p as nat);
    }
    if power_table(w, n, p)[i] == power_table(w, n, p)[j] {
        assert(a % p == (a * b) % p);
        vstd::arithmetic::div_mod::lemma_fundamental_div_mod(a, p);
        vstd::arithmetic::div_mod::lemma_fundamental_div_mod(a * b, p);
        let q = (a * b) / p - a / p;
        assert(a * (b - 1) == q * p) by (nonlinear_arith)
            requires a == p * (a / p) + a % p, a * b == p * ((a * b) / p) + (a * b) % p, a % p == (a * b) % p,
                q == (a * b) / p - a / p;
        vstd::arithmetic::div_mod::lemma_mod_multiples_basic(q, p);
        vstd::arithmetic::div_mod::lemma_mul_mod_noop_left(a, b - 1, p);
        lemma_euclid(p, a % p, b - 1);
        vstd::arithmetic::div_mod::lemma_fundamental_div_mod(b - 1, p);
        vstd::arithmetic::div_mod::lemma_mod_multiples_vanish((b - 1) / p, 1, p);
        lemma_small_mod(1, p as nat);
        assert(b == p * ((b - 1) / p) + 1);
        assert(b % p == 1);
        assert(pow(w, (j - i) as nat) % p != 1);
    }
}

/// A root of order `n`, a power of two, has `-1` as its power `n / 2`, and
/// the prime is odd.
proof fn lemma_order_half(w: int, n: nat, p: int)
    requires
        is_prime(p),
        has_order(w, n, p),
        is_pow2(n),
        n >= 2,
    ensures
        p > 2,
        pow(w, n / 2) % p == p - 1,
{
    let k = choose|k: nat| crate::util::pow2n(k) == n;
    assert(k >= 1) by {
        if k == 0 {
            assert(crate::util::pow2n(0) == 1);
        }
    }
    assert(n == 2 * crate::util::pow2n((k - 1) as nat));
    assert(2 * (n / 2) == n);
    assert(pow(w, n / 2) % p != 1);
    lemma_half_power_is_minus_one(w, n / 2, p);
}

/// A power of three of at least 2 is at least 3.
proof fn lemma_pow3_at_least_3(n: nat)
    requires
        is_pow3(n),
        n >= 2,
    ensures
        n >= 3,
{
    let k = choose|k: nat| crate::ntt::pow3n(k) == n;
    if k > 0 {
        crate::ntt::lemma_pow3n_pos((k - 1) as nat);
    }
}

/// The parameters of a sharing whose roots have the orders of their domains.
pub open spec fn params_of_orders(pss: PackedSecretSharing) -> bool {
    let p = pss.prime_spec() as int;
    &&& pss.wf()
    &&& 2 <= pss.table2_spec().len() <= pss.table3_spec().len()
    &&& is_prime(p)
    &&& has_order(pss.root2_spec() as int, pss.table2_spec().len(), p)
    &&& has_order(pss.root3_spec() as int, pss.table3_spec().len(), p)
}

/// Roots of the domains' orders make the parameters sound, and distinct
/// indices pick distinct points of the radix-3 domain.
proof fn lemma_params_of_orders(pss: PackedSecretSharing, idx: Seq<int>)
    requires
        params_of_orders(pss),
        forall|k: int| 0 <= k < idx.len() ==> 0 <= #[trigger] idx[k] < pss.table3_spec().len(),
        forall|k: int, l: int| 0 <= k < idx.len() && 0 <= l < idx.len() && k != l ==> idx[k] != idx[l],
    ensures
        sound_params(pss),
        distinct(pick(pss.table3_spec(), idx)),
{
    let p = pss.prime_spec() as int;
    let n3 = pss.table3_spec().len();
    crate::packed::lemma_pow3_table_law(&pss);
    lemma_pow3_at_least_3(n3);
    lemma_order_half(pss.root2_spec() as int, pss.table2_spec().len(), p);
    let pts = pick(pss.table3_spec(), idx);
    assert forall|k: int, l: int| 0 <= k < pts.len() && 0 <= l < pts.len() && k != l implies pts[k] != pts[l] by {
        if idx[k] < idx[l] {
            lemma_order_powers_distinct(pss.root3_spec() as int, n3, p, idx[k], idx[l]);
        } else {
            lemma_order_powers_distinct(pss.root3_spec() as int, n3, p, idx[l], idx[k]);
        }
    }
}

/// Law (recovery), for roots of the domains' orders: with `root2` of order
/// `L2` and `root3` of order `L3` modulo a prime, `2 <= L2 <= L3`,
/// reconstructing from the shares at any `m >= L2` distinct indices of the
/// radix-3 domain gives back the secrets, reduced modulo `p`.
pub proof fn lemma_reconstruct_share_of_orders(
    pss: PackedSecretSharing,
    secrets: Seq<u128>,
    randomness: Seq<u128>,
    idx: Seq<int>,
)
    requires
        params_of_orders(pss),
        secrets.len() == pss.num_secrets_spec(),
        secrets.len() + randomness.len() == pss.table2_spec().len(),
        idx.len() >= pss.table2_spec().len(),
        forall|k: int| 0 <= k < idx.len() ==> 0 <= #[trigger] idx[k] < pss.table3_spec().len(),
        forall|k: int, l: int| 0 <= k < idx.len() && 0 <= l < idx.len() && k != l ==> idx[k] != idx[l],
    ensures
        forall|i: int|
            0 <= i < secrets.len() ==> #[trigger] lagrange_spec(
                pick(pss.table3_spec(), idx),
                pick(sharing(pss, secrets, randomness), idx),
                pss.table2_spec().subrange(0, pss.num_secrets_spec() as int),
                pss.prime_spec() as int,
            )[i] == ((secrets[i] as int) % (pss.prime_spec() as int)) as u128,
{
    lemma_params_of_orders(pss, idx);
    lemma_reconstruct_share(pss, secrets, randomness, idx);
}

/// Law (aggregation), for roots of the domains' orders: as
/// `lemma_reconstruct_sum`, with the roots' orders in place of soundness
/// and distinct indices in place of distinct points.
pub proof fn lemma_reconstruct_sum_of_orders(
    pss: PackedSecretSharing,
    secrets1: Seq<u128>,
    randomness1: Seq<u128>,
    secrets2: Seq<u128>,
    randomness2: Seq<u128>,
    idx: Seq<int>,
    vals: Seq<u128>,
)
    requires
        params_of_orders(pss),
        secrets1.len() == pss.num_secrets_spec(),
        secrets2.len() == pss.num_secrets_spec(),
        secrets1.len() + randomness1.len() == pss.table2_spec().len(),
        secrets2.len() + randomness2.len() == pss.table2_spec().len(),
        idx.len() >= pss.table2_spec().len(),
        forall|k: int| 0 <= k < idx.len() ==> 0 <= #[trigger] idx[k] < pss.table3_spec().len(),
        forall|k: int, l: int| 0 <= k < idx.len() && 0 <= l < idx.len() && k != l ==> idx[k] != idx[l],
        vals.len() == idx.len(),
        forall|k: int|
            0 <= k < vals.len() ==> (#[trigger] vals[k] as int) % (pss.prime_spec() as int) == (pick(
                sharing(pss, secrets1, randomness1),
                idx,
            )[k] + pick(sharing(pss, secrets2, randomness2), idx)[k]) % (pss.prime_spec() as int),
    ensures
        forall|i: int|
            0 <= i < secrets1.len() ==> #[trigger] lagrange_spec(
                pick(pss.table3_spec(), idx),
                vals,
                pss.table2_spec().subrange(0, pss.num_secrets_spec() as int),
                pss.prime_spec() as int,
            )[i] == ((secrets1[i] + secrets2[i]) % (pss.prime_spec() as int)) as u128,
{
    lemma_params_of_orders(pss, idx);
    lemma_reconstruct_sum(pss, secrets1, randomness1, secrets2, randomness2, idx, vals);
}

/// The parameters of a protocol sharing whose roots have the orders of
/// their domains: `root2` of order `degree2`, a power of two of at least 2,
/// and `root3` of order `degree3`, a power of three, modulo a prime.
pub open spec fn pss_of_orders(pss: PssSharing<u128>) -> bool {
    let p = pss.prime_spec() as int;
    &&& pss.wf()
    &&& is_prime(p)
    &&& is_pow2(pss.degree2_spec() as nat)
    &&& pss.degree2_spec() >= 2
    &&& is_pow3(pss.degree3_spec() as nat)
    &&& has_order(pss.root2_spec() as int, pss.degree2_spec() as nat, p)
    &&& has_order(pss.root3_spec() as int, pss.degree3_spec() as nat, p)
}

/// Roots of the domains' orders make a protocol sharing sound, and its
/// first `m <= degree3` share points distinct.
proof fn lemma_pss_of_orders(pss: PssSharing<u128>, m: nat)
    requires
        pss_of_orders(pss),
        m <= pss.degree3_spec(),
    ensures
        sound_pss(pss),
        distinct(share_points(pss, m)),
{
    let p = pss.prime_spec() as int;
    let n3 = pss.degree3_spec() as nat;
    lemma_pow3_at_least_3(n3);
    lemma_order_half(pss.root2_spec() as int, pss.degree2_spec() as nat, p);
    let pts = share_points(pss, m);
    let w3 = pss.root3_spec() as int;
    assert forall|k: int, l: int| 0 <= k < pts.len() && 0 <= l < pts.len() && k != l implies pts[k] != pts[l] by {
        assert(pts[k] == power_table(w3, n3, p)[k]);
        assert(pts[l] == power_table(w3, n3, p)[l]);
        if k < l {
            lemma_order_powers_distinct(w3, n3, p, k, l);
        } else {
            lemma_order_powers_distinct(w3, n3, p, l, k);
        }
    }
}

/// Law (recovery of the protocol's sharing), for roots of the domains'
/// orders: reconstructing from the first `m` shares, `degree2 <= m <=
/// num_shares`, gives back the secrets, reduced modulo `p`.
pub proof fn lemma_pss_reconstruct_share_of_orders(pss: PssSharing<u128>, secrets: Seq<u64>, randomness: Seq<u64>, m: nat)
    requires
        pss_of_orders(pss),
        secrets.len() == pss.num_secrets_spec(),
        secrets.len() + randomness.len() == pss.degree2_spec(),
        pss.degree2_spec() <= m <= pss.num_shares_spec(),
    ensures
        forall|i: int|
            0 <= i < secrets.len() ==> #[trigger] lagrange_spec(
                share_points(pss, m),
                first_shares(pss, secrets, randomness, m),
                pss.table2_spec().subrange(0, pss.num_secrets_spec() as int),
                pss.prime_spec() as int,
            )[i] == ((secrets[i] as int) % (pss.prime_spec() as int)) as u128,
{
    lemma_pss_of_orders(pss, m);
    lemma_pss_reconstruct_share(pss, secrets, randomness, m);
}

/// Law (aggregation in the protocol), for roots of the domains' orders: as
/// `lemma_pss_reconstruct_sum`, with the roots' orders in place of
/// soundness and distinct points.
pub proof fn lemma_pss_reconstruct_sum_of_orders(
    pss: PssSharing<u128>,
    secrets: Seq<Seq<u64>>,
    randomness: Seq<Seq<u64>>,
    m: nat,
    vals: Seq<u128>,
)
    requires
        pss_of_orders(pss),
        well_shaped(pss, secrets, randomness),
        pss.degree2_spec() <= m <= pss.num_shares_spec(),
        vals.len() == m,
        forall|k: int|
            0 <= k < m ==> (#[trigger] vals[k] as int) % (pss.prime_spec() as int) == summed_shares(
                pss,
                secrets,
                randomness,
                m,
                k,
            ) % (pss.prime_spec() as int),
    ensures
        forall|i: int|
            0 <= i < pss.num_secrets_spec() ==> #[trigger] lagrange_spec(
                share_points(pss, m),
                vals,
                pss.table2_spec().subrange(0, pss.num_secrets_spec() as int),
                pss.prime_spec() as int,
            )[i] == (summed_secret(secrets, i) % (pss.prime_spec() as int)) as u128,
{
    lemma_pss_of_orders(pss, m);
    lemma_pss_reconstruct_sum(pss, secrets, randomness, m, vals);
}


// ---------------------------------------------------------------------------
// Sharing then reconstructing, as the calls' contracts state them
// ---------------------------------------------------------------------------

/// Law (round trip of `share` and `reconstruct`): with roots of the
/// domains' orders modulo a prime, when `shares` is what
/// `PackedSecretSharing::share` returns for `secrets` (entries below `p`)
/// and `result` is what `reconstruct` returns from the shares at any
/// `m >= L2` distinct indices of the radix-3 domain, `result` is `secrets`.
pub proof fn lemma_share_then_reconstruct(
    pss: PackedSecretSharing,
    secrets: Seq<u128>,
    shares: Seq<u128>,
    idx: Seq<int>,
    result: Seq<u128>,
)
    requires
        params_of_orders(pss),
        secrets.len() == pss.num_secrets_spec(),
        forall|i: int| 0 <= i < secrets.len() ==> #[trigger] secrets[i] < pss.prime_spec(),
        exists|randomness: Seq<u128>|
            randomness.len() == pss.table2_spec().len() - secrets.len()
            && shares == #[trigger] sharing(pss, secrets, randomness),
        idx.len() >= pss.table2_spec().len(),
        forall|k: int| 0 <= k < idx.len() ==> 0 <= #[trigger] idx[k] < pss.table3_spec().len(),
        forall|k: int, l: int| 0 <= k < idx.len() && 0 <= l < idx.len() && k != l ==> idx[k] != idx[l],
        result == lagrange_spec(
            pick(pss.table3_spec(), idx),
            pick(shares, idx),
            pss.table2_spec().subrange(0, pss.num_secrets_spec() as int),
            pss.prime_spec() as int,
        ),
    ensures
        result == secrets,
{
    let randomness = choose|randomness: Seq<u128>|
        randomness.len() == pss.table2_spec().len() - secrets.len()
        && shares == #[trigger] sharing(pss, secrets, randomness);
    lemma_reconstruct_share_of_orders(pss, secrets, randomness, idx);
    assert forall|i: int| 0 <= i < secrets.len() implies #[trigger] result[i] == secrets[i] by {
        lemma_small_mod(secrets[i] as nat, pss.prime_spec() as nat);
    }
    assert(result =~= secrets);
}

/// Law (the aggregate reconstructs to the sum): with roots of the domains'
/// orders modulo a prime, when `shares1` and `shares2` are what `share`
/// returns for `secrets1` and `secrets2`, `sum` their entrywise sums modulo
/// `p`, and `result` what `reconstruct` returns from `sum` at any `m >= L2`
/// distinct indices of the radix-3 domain, `result` holds the sums of the
/// secrets modulo `p`.
pub proof fn lemma_share_sum_then_reconstruct(
    pss: PackedSecretSharing,
    secrets1: Seq<u128>,
    secrets2: Seq<u128>,
    shares1: Seq<u128>,
    shares2: Seq<u128>,
    sum: Seq<u128>,
    idx: Seq<int>,
    result: Seq<u128>,
)
    requires
        params_of_orders(pss),
        secrets1.len() == pss.num_secrets_spec(),
        secrets2.len() == pss.num_secrets_spec(),
        exists|randomness: Seq<u128>|
            randomness.len() == pss.table2_spec().len() - secrets1.len()
            && shares1 == #[trigger] sharing(pss, secrets1, randomness),
        exists|randomness: Seq<u128>|
            randomness.len() == pss.table2_spec().len() - secrets2.len()
            && shares2 == #[trigger] sharing(pss, secrets2, randomness),
        sum.len() == pss.table3_spec().len(),
        forall|k: int| 0 <= k < sum.len() ==> #[trigger] sum[k] as int == (shares1[k] + shares2[k]) % (pss.prime_spec() as int),
        idx.len() >= pss.table2_spec().len(),
        forall|k: int| 0 <= k < idx.len() ==> 0 <= #[trigger] idx[k] < pss.table3_spec().len(),
        forall|k: int, l: int| 0 <= k < idx.len() && 0 <= l < idx.len() && k != l ==> idx[k] != idx[l],
        result == lagrange_spec(
            pick(pss.table3_spec(), idx),
            pick(sum, idx),
            pss.table2_spec().subrange(0, pss.num_secrets_spec() as int),
            pss.prime_spec() as int,
        ),
    ensures
        result.len() == secrets1.len(),
        forall|i: int| 0 <= i < secrets1.len() ==> #[trigger] result[i] as int == (secrets1[i] + secrets2[i]) % (pss.prime_spec() as int),
{
    let p = pss.prime_spec() as int;
    let r1 = choose|randomness: Seq<u128>|
        randomness.len() == pss.table2_spec().len() - secrets1.len()
        && shares1 == #[trigger] sharing(pss, secrets1, randomness);
    let r2 = choose|randomness: Seq<u128>|
        randomness.len() == pss.table2_spec().len() - secrets2.len()
        && shares2 == #[trigger] sharing(pss, secrets2, randomness);
    crate::packed::lemma_pow3_table_law(&pss);
    let vals = pick(sum, idx);
    assert forall|k: int| 0 <= k < vals.len() implies (#[trigger] vals[k] as int) % p == (pick(
        sharing(pss, secrets1, r1),
        idx,
    )[k] + pick(sharing(pss, secrets2, r2), idx)[k]) % p by {
        lemma_mod_twice(shares1[idx[k]] + shares2[idx[k]], p);
    }
    lemma_reconstruct_sum_of_orders(pss, secrets1, r1, secrets2, r2, idx, vals);
}

/// Law (round trip of the protocol's `share` and `reconstruct`): with
/// `root2` of order `degree2` and `root3` of order `degree3` modulo a
/// prime, when `shares` is what `share` returns for `secrets` (entries
/// below `p`) and `result` is what `reconstruct` returns from the first
/// `m` shares, widened, `degree2 <= m <= num_shares`, `result` is the
/// secrets, widened.
pub proof fn lemma_pss_share_then_reconstruct(
    pss: PssSharing<u128>,
    secrets: Seq<u64>,
    shares: Seq<u64>,
    m: nat,
    result: Seq<u128>,
)
    requires
        pss_of_orders(pss),
        secrets.len() == pss.num_secrets_spec(),
        forall|i: int| 0 <= i < secrets.len() ==> #[trigger] secrets[i] < pss.prime_spec(),
        exists|randomness: Seq<u64>|
            randomness.len() == pss.degree2_spec() - secrets.len()
            && #[trigger] shares_spec(pss, secrets, randomness) == shares,
        pss.degree2_spec() <= m <= pss.num_shares_spec(),
        result == lagrange_spec(
            share_points(pss, m),
            widen(shares).subrange(0, m as int),
            pss.table2_spec().subrange(0, pss.num_secrets_spec() as int),
            pss.prime_spec() as int,
        ),
    ensures
        result == widen(secrets),
{
    let randomness = choose|randomness: Seq<u64>|
        randomness.len() == pss.degree2_spec() - secrets.len()
        && #[trigger] shares_spec(pss, secrets, randomness) == shares;
    lemma_pss_reconstruct_share_of_orders(pss, secrets, randomness, m);
    assert(first_shares(pss, secrets, randomness, m) == widen(shares).subrange(0, m as int));
    assert forall|i: int| 0 <= i < secrets.len() implies #[trigger] result[i] == widen(secrets)[i] by {
        lemma_small_mod(secrets[i] as nat, pss.prime_spec() as nat);
    }
    assert(result =~= widen(secrets));
}

} // verus!
