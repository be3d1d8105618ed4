//! The radix-2 transform over the fixed prime `4611686018326724609` with
//! the fixed root `1468970003788274264`, on inputs put in bit-reversed
//! order by reversing the binary digits of each index.
use vstd::prelude::*;
use crate::ntt::{is_pow2, all_below, stages2, log2, power_table, DFT_radix2};
use crate::modpow::modulus_bound;
use crate::packed::powers;
use crate::util::pow2n;
use crate::field_ntt::reduce;

verus! {

/// The prime of the transform.
pub open spec fn fixed_prime() -> u128 {
    4611686018326724609
}

/// The root of unity of the transform.
pub open spec fn fixed_root() -> u128 {
    1468970003788274264
}

/// The prime `p` and the cofactor `(p - 1) / L` for a transform of length `L`.
pub fn find_prime(L: usize) -> (r: (u128, u128))
    requires
        L > 0,
    ensures
        r.0 == fixed_prime(),
        r.1 == (fixed_prime() - 1) / (L as int),
{
    let P: u128 = 4611686018326724609;
    let k: u128 = (P - 1) / (L as u128);
    (P, k)
}

/// The primitive root used with the prime `p`.
pub fn primative_root(p: u128) -> (r: u128)
    ensures
        r == fixed_root(),
{
    1468970003788274264
}

/// The `n` low binary digits of `i` in reverse order, as a number.
pub open spec fn rev_bits(i: nat, n: nat) -> nat
    decreases n,
{
    if n == 0 {
        0
    } else {
        (i % 2) * pow2n((n - 1) as nat) + rev_bits(i / 2, (n - 1) as nat)
    }
}

/// `s` in the order of the reversed `n`-digit indices.
pub open spec fn bit_reversed(s: Seq<u128>, n: nat) -> Seq<u128> {
    Seq::new(s.len(), |i: int| s[rev_bits(i as nat, n) as int])
}

proof fn lemma_rev_bits_below(i: nat, n: nat)
    ensures
        rev_bits(i, n) < pow2n(n),
    decreases n,
{
    if n > 0 {
        lemma_rev_bits_below(i / 2, (n - 1) as nat);
        assert((i % 2) * pow2n((n - 1) as nat) <= pow2n((n - 1) as nat)) by (nonlinear_arith)
            requires i % 2 <= 1;
    }
}

/// Reverses the `n` low binary digits of `i`.
fn reverse_index(i: usize, n: usize) -> (r: usize)
    requires
        pow2n(n as nat) <= usize::MAX,
    ensures
        r == rev_bits(i as nat, n as nat),
{
    let mut acc: usize = 0;
    let mut x: usize = i;
    let mut j: usize = 0;
    proof {
        assert(pow2n(0) == 1);
    }
    while j < n
        invariant
            j <= n,
            pow2n(n as nat) <= usize::MAX,
            acc < pow2n(j as nat),
            acc * pow2n((n - j) as nat) + rev_bits(x as nat, (n - j) as nat) == rev_bits(i as nat, n as nat),
        decreases n - j,
    {
        let ghost m = (n - j) as nat;
        proof {
            assert(pow2n(m) == 2 * pow2n((m - 1) as nat));
            assert(rev_bits(x as nat, m) == (x % 2) * pow2n((m - 1) as nat) + rev_bits((x / 2) as nat, (m - 1) as nat));
            assert((2 * acc + x % 2) * pow2n((m - 1) as nat) == acc * pow2n(m) + (x % 2) * pow2n((m - 1) as nat))
                by (nonlinear_arith)
                requires pow2n(m) == 2 * pow2n((m - 1) as nat);
            assert(pow2n((j + 1) as nat) == 2 * pow2n(j as nat));
            if j + 1 < n {
                crate::ntt::lemma_pow2n_strict((j + 1) as nat, n as nat);
            }
            assert(2 * acc + x % 2 < pow2n((j + 1) as nat));
        }
        acc = 2 * acc + x % 2;
        x = x / 2;
        j = j + 1;
    }
    proof {
        assert(j == n);
        assert(pow2n(0) == 1);
        assert(acc * pow2n(0) == acc);
        assert(rev_bits(x as nat, 0) == 0);
    }
    acc
}

proof fn lemma_pow2n_exceeds(k: nat)
    ensures
        pow2n(k) > k,
    decreases k,
{
    if k > 0 {
        lemma_pow2n_exceeds((k - 1) as nat);
    }
}

/// The transform of `a` over the fixed prime with the powers of the fixed
/// root: `a`, reduced modulo the prime, in bit-reversed order, run through
/// the radix-2 butterfly network.
pub fn transform(a: &Vec<u128>) -> (t: Vec<u128>)
    requires
        a.len() == 0 || is_pow2(a.len() as nat),
    ensures
        t@ == stages2(bit_reversed(reduce(a@, fixed_prime() as int), log2(a.len() as nat)), fixed_prime() as int,
            power_table(fixed_root() as int, a.len() as nat, fixed_prime() as int), a.len() as int, log2(a.len() as nat)),
{
    let L = a.len();
    if L == 0 {
        let t: Vec<u128> = Vec::new();
        proof {
            assert(t@ =~= stages2(bit_reversed(reduce(a@, fixed_prime() as int), 0), fixed_prime() as int,
                power_table(fixed_root() as int, 0, fixed_prime() as int), 0, 0));
        }
        return t;
    }
    let (P, k) = find_prime(L);
    let w = primative_root(P);
    let w_matrix = powers(w, L, P);
    let ghost nbits = log2(L as nat);
    let kk = Ghost(choose|kk: nat| pow2n(kk) == L);
    proof {
        crate::ntt::lemma_log2_pow2n(kk@);
        lemma_pow2n_exceeds(kk@);
    }
    let mut L_bitNum: usize = 0;
    let mut pw: usize = 1;
    proof {
        assert(pow2n(0) == 1);
    }
    while pw < L
        invariant
            pow2n(kk@) == L,
            kk@ < L,
            pw == pow2n(L_bitNum as nat),
            L_bitNum <= kk@,
        decreases kk@ - L_bitNum,
    {
        proof {
            if L_bitNum == kk@ {
                assert(false);
            }
            assert(pow2n((L_bitNum + 1) as nat) == 2 * pow2n(L_bitNum as nat));
            if L_bitNum + 1 < kk@ {
                crate::ntt::lemma_pow2n_strict((L_bitNum + 1) as nat, kk@);
            }
        }
        pw = pw * 2;
        L_bitNum = L_bitNum + 1;
    }
    proof {
        if L_bitNum < kk@ {
            crate::ntt::lemma_pow2n_strict(L_bitNum as nat, kk@);
        }
        assert(L_bitNum == nbits);
    }
    let r = crate::field_ntt::reduced(a, P);
    let mut b: Vec<u128> = Vec::new();
    let mut i: usize = 0;
    while i < L
        invariant
            L == a.len(),
            r@ == reduce(a@, P as int),
            all_below(r@, modulus_bound()),
            pow2n(L_bitNum as nat) == L,
            L_bitNum == nbits,
            i <= L,
            b@ == bit_reversed(r@, nbits).subrange(0, i as int),
        decreases L - i,
    {
        let j = reverse_index(i, L_bitNum);
        proof {
            lemma_rev_bits_below(i as nat, L_bitNum as nat);
        }
        b.push(r[j]);
        i = i + 1;
        proof {
            assert(b@ =~= bit_reversed(r@, nbits).subrange(0, i as int));
        }
    }
    proof {
        assert(bit_reversed(r@, nbits).subrange(0, L as int) =~= bit_reversed(r@, nbits));
        assert forall|z: int| 0 <= z < b.len() implies #[trigger] b@[z] < modulus_bound() by {
            lemma_rev_bits_below(z as nat, nbits);
        }
        crate::packed::lemma_power_table_below(w as int, L as nat, P as int);
    }
    DFT_radix2(&mut b, &P, &w_matrix);
    b
}

} // verus!
