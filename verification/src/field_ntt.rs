//! Number-theoretic transforms over a prime field given by its modulus and
//! a root of unity: out-of-place forward and inverse transforms and the
//! in-place transform, on entries reduced modulo the prime; and the
//! transform over the fixed prime `4611686018326724609` with its fixed root.
use vstd::prelude::*;
use crate::ntt::{is_pow2, all_below, transform2_spec, log2, power_table, scaled, bit_reverse2, DFT_radix2, lemma_modpow_below};
use crate::modpow::{ModPow, modulus_bound, modpow_value};
use crate::packed::powers;
use crate::util::pow2n;
use crate::dft::{
    dft, eval_at_power, lemma_power_table_powers, lemma_transform2_is_dft, lemma_dft_round_trip,
    lemma_bit_reverse2_entries, lemma_reduce_below, rev_bits,
};
use vstd::arithmetic::power::pow;
use crate::fermat::{is_prime, lemma_root_inverses, lemma_half_power_is_minus_one};
use vstd::arithmetic::div_mod::{lemma_mod_bound, lemma_small_mod, lemma_mod_twice};

verus! {

/// `s` with every entry reduced modulo `p`.
pub open spec fn reduce(s: Seq<u128>, p: int) -> Seq<u128> {
    Seq::new(s.len(), |i: int| ((s[i] as int) % p) as u128)
}

/// What `transform` computes: the radix-2 transform of `a` reduced modulo
/// `P`, with the powers of `r` reduced modulo `P` as twiddle factors.
pub open spec fn field_transform(a: Seq<u128>, P: int, r: int) -> Seq<u128> {
    transform2_spec(reduce(a, P), P, reduce(power_table(r, a.len(), P), P))
}

/// What `inverse` computes: the radix-2 transform of `b` reduced modulo
/// `P` with the powers of `r^(P-2)`, every entry then multiplied by
/// `n^(P-2)` modulo `P`.
pub open spec fn field_inverse(b: Seq<u128>, P: int, r: int) -> Seq<u128> {
    scaled(
        transform2_spec(reduce(b, P), P, reduce(power_table(modpow_value(r, (P - 2) as nat, P), b.len(), P), P)),
        modpow_value(b.len() as int, (P - 2) as nat, P),
        P,
    )
}

pub(crate) fn reduced(a: &Vec<u128>, p: u128) -> (r: Vec<u128>)
    requires
        0 < p <= modulus_bound(),
    ensures
        r@ == reduce(a@, p as int),
        all_below(r@, p as int),
        all_below(r@, modulus_bound()),
{
    let mut r: Vec<u128> = Vec::new();
    let mut i: usize = 0;
    while i < a.len()
        invariant
            0 < p <= modulus_bound(),
            i <= a.len(),
            r@ == reduce(a@, p as int).subrange(0, i as int),
        decreases a.len() - i,
    {
        r.push(a[i] % p);
        i = i + 1;
        proof {
            assert(r@ =~= reduce(a@, p as int).subrange(0, i as int));
        }
    }
    proof {
        assert(reduce(a@, p as int).subrange(0, a.len() as int) =~= reduce(a@, p as int));
    }
    r
}

/// The in-place transform: `a`, reduced modulo `p`, is put in radix-2
/// digit-reversed order and run through the butterfly network with the
/// entries of `w_matrix`, reduced modulo `p`, as twiddle factors.
pub fn DFT(a: &mut Vec<u128>, w_matrix: &Vec<u128>, p: &u128)
    requires
        old(a).len() == 0 || is_pow2(old(a).len() as nat),
        old(a).len() / 2 <= w_matrix.len(),
        0 < *p <= modulus_bound(),
    ensures
        final(a)@ == transform2_spec(reduce(old(a)@, *p as int), *p as int, reduce(w_matrix@, *p as int)),
        final(a).len() == old(a).len(),
        all_below(final(a)@, *p as int),
{
    let r = reduced(a, *p);
    let w = reduced(w_matrix, *p);
    let ghost rv = r@;
    *a = r;
    bit_reverse2(a);
    let ghost sw = a@;
    DFT_radix2(a, p, &w);
    proof {
        let n = rv.len();
        if n >= 2 {
            let k = choose|k: nat| pow2n(k) == n;
            crate::ntt::lemma_log2_pow2n(k);
            if k == 0 {
                assert(pow2n(0) == 1);
            }
            crate::ntt::lemma_stages2_below(sw, *p as int, w@, n as int, log2(n));
        } else if n == 1 {
            crate::ntt::lemma_rev2_in_range(1);
            crate::ntt::lemma_swap_fold_below(rv, crate::ntt::rev2_target(1), 1, *p as int);
        }
    }
}

/// The forward transform of `a` with the powers of `r` modulo `P`.
pub fn transform(a: &Vec<u128>, P: &u128, r: &u128) -> (t: Vec<u128>)
    requires
        a.len() == 0 || is_pow2(a.len() as nat),
        0 < *P <= modulus_bound(),
    ensures
        t@ == field_transform(a@, *P as int, *r as int),
        t.len() == a.len(),
{
    let L = a.len();
    let w_matrix = powers(*r, L, *P);
    let mut a_ret = a.clone();
    proof {
        assert(a_ret@ =~= a@);
    }
    DFT(&mut a_ret, &w_matrix, P);
    a_ret
}

/// The inverse transform of `b`: the forward transform with the powers of
/// `w = r^(P-2)` modulo `P`, every entry then multiplied by `n^(P-2)`.
pub fn inverse(b: &Vec<u128>, P: &u128, r: &u128) -> (t: Vec<u128>)
    requires
        b.len() == 0 || is_pow2(b.len() as nat),
        2 <= *P <= modulus_bound(),
    ensures
        t@ == field_inverse(b@, *P as int, *r as int),
        t.len() == b.len(),
{
    let L = b.len();
    let e = *P - 2;
    let w = r.modpow(&e, P);
    let w_matrix = powers(w, L, *P);
    let mut b_ret = b.clone();
    proof {
        assert(b_ret@ =~= b@);
    }
    DFT(&mut b_ret, &w_matrix, P);
    let L_inverse = (L as u128).modpow(&e, P);
    proof {
        lemma_modpow_below(L as int, e as nat, *P as int);
    }
    let ghost before = b_ret@;
    let mut i: usize = 0;
    while i < L
        invariant
            b_ret.len() == L,
            before.len() == L,
            2 <= *P <= modulus_bound(),
            L_inverse < *P,
            i <= L,
            forall|k: int| 0 <= k < i ==> #[trigger] b_ret@[k] == ((before[k] * L_inverse) % (*P as int)) as u128,
            forall|k: int| i <= k < L ==> #[trigger] b_ret@[k] == before[k],
            all_below(before, *P as int),
        decreases L - i,
    {
        proof {
            assert(b_ret[i as int] * L_inverse < 0x1_0000_0000_0000_0000_0000_0000_0000_0000) by (nonlinear_arith)
                requires b_ret[i as int] < *P, L_inverse < *P, *P <= 0x1_0000_0000_0000_0000;
        }
        let v = b_ret[i] * L_inverse % *P;
        b_ret.set(i, v);
        i = i + 1;
    }
    proof {
        assert(b_ret@ =~= scaled(before, L_inverse as int, *P as int));
    }
    b_ret
}

/// Law: `transform` evaluates the polynomial whose coefficients are the
/// entries of `a`, reduced modulo `P`, at the powers of `r`, when the
/// length `n >= 2` is a power of two and `r^(n/2)` is congruent to `-1`.
pub proof fn lemma_field_transform_is_dft(a: Seq<u128>, P: int, r: int)
    requires
        is_pow2(a.len()),
        2 <= a.len() <= usize::MAX,
        1 < P <= modulus_bound(),
        pow(r, a.len() / 2) % P == P - 1,
    ensures
        field_transform(a, P, r) == dft(reduce(a, P), r, P),
{
    lemma_power_table_powers(r, a.len(), P);
    lemma_transform2_is_dft(reduce(a, P), P, reduce(power_table(r, a.len(), P), P), r);
}

/// Law: `inverse` undoes `transform`. For a length `n >= 2` that is a power
/// of two, an odd prime `P`, and a root `r` whose power `r^(n/2)` is
/// congruent to `-1` modulo `P` (a root of unity of order `n`), the inverse
/// of the transform of `a` is `a` reduced modulo `P`.
pub proof fn lemma_field_inverse_of_transform(a: Seq<u128>, P: int, r: int)
    requires
        is_pow2(a.len()),
        2 <= a.len() <= usize::MAX,
        1 < P <= modulus_bound(),
        is_prime(P),
        P > 2,
        pow(r, a.len() / 2) % P == P - 1,
    ensures
        field_inverse(field_transform(a, P, r), P, r) == reduce(a, P),
{
    let n = a.len();
    lemma_root_inverses(r, n, P);
    let ra = reduce(a, P);
    lemma_field_transform_is_dft(a, P, r);
    let t = field_transform(a, P, r);
    let L = choose|k: nat| pow2n(k) == n;
    assert(L >= 1) by {
        if L == 0 {
            assert(pow2n(0) == 1);
        }
    }
    assert(n / 2 == pow2n((L - 1) as nat));
    let v = modpow_value(r, (P - 2) as nat, P);
    let c = modpow_value(n as int, (P - 2) as nat, P);
    lemma_dft_round_trip(ra, r, v, c, P, L);
    assert(reduce(t, P) =~= t) by {
        assert forall|k: int| 0 <= k < n implies #[trigger] reduce(t, P)[k] == t[k] by {
            lemma_mod_bound(eval_at_power(ra, r, k as nat), P);
            lemma_small_mod(t[k] as nat, P as nat);
        }
    }
    lemma_field_transform_is_dft(t, P, v);
    assert forall|j: int| 0 <= j < n implies #[trigger] field_inverse(t, P, r)[j] == reduce(a, P)[j] by {
        lemma_mod_bound(a[j] as int, P);
        lemma_mod_twice(a[j] as int, P);
        lemma_mod_bound(ra[j] as int, P);
    }
    assert(field_inverse(t, P, r) =~= reduce(a, P));
}


/// A single entry is its own radix-2 transform.
proof fn lemma_transform2_single(s: Seq<u128>, p: int, table: Seq<u128>)
    requires
        s.len() == 1,
    ensures
        transform2_spec(s, p, table) == s,
{
    assert(pow2n(0) == 1);
    lemma_bit_reverse2_entries(s, 0);
    assert(rev_bits(0, 0) == 0);
    assert(log2(1) == 0);
    assert(transform2_spec(s, p, table) =~= s);
}

/// Law: `inverse` undoes `transform` for every length that is a power of
/// two, a prime `P`, and a root `r` of multiplicative order the length
/// modulo `P`: the result is `a` reduced modulo `P`, and `a` itself when its
/// entries lie below `P`.
pub proof fn lemma_field_round_trip(a: Seq<u128>, P: int, r: int)
    requires
        is_pow2(a.len()),
        1 <= a.len() <= usize::MAX,
        is_prime(P),
        P <= modulus_bound(),
        pow(r, a.len()) % P == 1,
        a.len() >= 2 ==> pow(r, a.len() / 2) % P != 1,
    ensures
        field_inverse(field_transform(a, P, r), P, r) == reduce(a, P),
        (forall|i: int| 0 <= i < a.len() ==> #[trigger] a[i] < P) ==> field_inverse(field_transform(a, P, r), P, r) == a,
{
    let n = a.len();
    if n >= 2 {
        let k = choose|k: nat| pow2n(k) == n;
        assert(k >= 1) by {
            if k == 0 {
                assert(pow2n(0) == 1);
            }
        }
        assert(n == 2 * pow2n((k - 1) as nat));
        assert(2 * (n / 2) == n);
        lemma_half_power_is_minus_one(r, n / 2, P);
        lemma_field_inverse_of_transform(a, P, r);
    } else {
        let ra = reduce(a, P);
        let t = field_transform(a, P, r);
        lemma_transform2_single(ra, P, reduce(power_table(r, 1, P), P));
        assert(t == ra);
        let rt = reduce(t, P);
        lemma_mod_bound(a[0] as int, P);
        lemma_mod_twice(a[0] as int, P);
        assert(rt =~= ra);
        lemma_transform2_single(rt, P, reduce(power_table(modpow_value(r, (P - 2) as nat, P), 1, P), P));
        let c = modpow_value(1, (P - 2) as nat, P);
        vstd::arithmetic::power::lemma1_pow((P - 2) as nat);
        lemma_small_mod(1, P as nat);
        assert(c == 1);
        assert(field_inverse(t, P, r) =~= ra) by {
            assert((ra[0] * c) % P == ra[0] as int % P);
            lemma_mod_twice(a[0] as int, P);
        }
    }
    if forall|i: int| 0 <= i < a.len() ==> #[trigger] a[i] < P {
        lemma_reduce_below(a, P);
    }
}

} // verus!
