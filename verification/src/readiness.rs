//! Run-time tests of the conditions that the protocol steps need, for
//! callers that hold only run-time values: each returns exactly whether the
//! condition of the step holds.
use vstd::prelude::*;
use crate::client::{Param, push_squares, y_len_exec, malicious_len, ceil_log2, find_key};
use crate::rounds::{sharing_ready, extension_ready, keys_ready, has_key, rows_encryptable, aggregation_ready};
use crate::ntt::{is_pow2, is_pow3, pow3n};
use crate::util::{pow2n, bit_len, words};
use crate::messages::RecvType;
use crate::correction::read_words;

verus! {

/// Whether `n` is a power of two.
pub fn is_pow2_exec(n: usize) -> (r: bool)
    ensures
        r == is_pow2(n as nat),
{
    let mut pw: u128 = 1;
    let ghost mut k: nat = 0;
    proof {
        assert(pow2n(0) == 1);
    }
    while pw < n as u128
        invariant
            pw == pow2n(k),
            pw >= 1,
            k == 0 || pow2n((k - 1) as nat) < n,
            pw <= 2 * (n as int) || pw == 1,
        decreases 2 * (n as int) - pw as int,
    {
        pw = pw * 2;
        proof {
            k = k + 1;
        }
    }
    if pw == n as u128 {
        proof {
            assert(pow2n(k) == n);
        }
        true
    } else {
        proof {
            assert forall|j: nat| pow2n(j) != n as nat by {
                if j >= k {
                    if j > k {
                        crate::ntt::lemma_pow2n_strict(k, j);
                    }
                } else {
                    if j < k - 1 {
                        crate::ntt::lemma_pow2n_strict(j, (k - 1) as nat);
                    }
                }
            }
        }
        false
    }
}

/// Whether `n` is a power of three.
pub fn is_pow3_exec(n: usize) -> (r: bool)
    ensures
        r == is_pow3(n as nat),
{
    let mut pw: u128 = 1;
    let ghost mut k: nat = 0;
    proof {
        assert(pow3n(0) == 1);
    }
    while pw < n as u128
        invariant
            pw == pow3n(k),
            pw >= 1,
            k == 0 || pow3n((k - 1) as nat) < n,
            pw <= 3 * (n as int) || pw == 1,
        decreases 3 * (n as int) - pw as int,
    {
        pw = pw * 3;
        proof {
            k = k + 1;
        }
    }
    if pw == n as u128 {
        true
    } else {
        proof {
            assert forall|j: nat| pow3n(j) != n as nat by {
                if j >= k {
                    if j > k {
                        crate::ntt::lemma_pow3n_strict(k, j);
                    }
                } else {
                    if j < k - 1 {
                        crate::ntt::lemma_pow3n_strict(j, (k - 1) as nat);
                    }
                }
            }
        }
        false
    }
}

/// The number of binary digits of `x`.
pub fn bit_len_exec(x: u64) -> (n: usize)
    ensures
        n == bit_len(x as nat),
{
    let mut n: usize = 0;
    let mut y: u64 = x;
    proof {
        crate::util::lemma_bit_len_bound(x as nat);
    }
    while y > 0
        invariant
            bit_len(y as nat) + n == bit_len(x as nat),
            bit_len(x as nat) <= 64,
        decreases y,
    {
        y = y / 2;
        n = n + 1;
    }
    n
}

/// Whether the parameters fit a sharing of `len` values among `n` parties.
pub fn sharing_ready_check(param: &Param, n: usize, len: usize) -> (ok: bool)
    ensures
        ok == sharing_ready(param@, n as nat, len as nat),
{
    let l = param.block_len();
    let d2 = param.degree2();
    let d3 = param.degree3();
    let p = param.prime();
    if !(1 <= l && l <= d2 && d2 <= n && n <= d3 && d2 >= 2) {
        return false;
    }
    if !(2 <= p && p <= 0x1_0000_0000_0000_0000u128) {
        return false;
    }
    is_pow2_exec(d2) && is_pow3_exec(d3) && len % l == 0
}

/// Whether each peer of `order` has a key of 32 bytes, with no more peers than keys.
pub fn keys_ready_check(order: &Vec<Vec<u8>>, keys: &Vec<(Vec<u8>, Vec<u8>)>) -> (ok: bool)
    ensures
        ok == keys_ready(order@, keys@),
{
    if order.len() > keys.len() {
        return false;
    }
    let mut q: usize = 0;
    while q < keys.len()
        invariant
            q <= keys.len(),
            forall|j: int| 0 <= j < q ==> (#[trigger] keys@[j]).1.len() == 32,
        decreases keys.len() - q,
    {
        if keys[q].1.len() != 32 {
            return false;
        }
        q = q + 1;
    }
    let mut i: usize = 0;
    while i < order.len()
        invariant
            i <= order.len(),
            forall|j: int| 0 <= j < i ==> has_key(keys@, (#[trigger] order@[j])@),
        decreases order.len() - i,
    {
        match find_key(keys, &order[i]) {
            Some(k) => {
                proof {
                    assert(keys@[k as int].0@ == order@[i as int]@);
                }
            },
            None => {
                return false;
            },
        }
        i = i + 1;
    }
    true
}

/// Whether rows of shares of `len` values in blocks of `l` can be encrypted and held.
pub fn rows_encryptable_check(len: usize, l: usize) -> (ok: bool)
    requires
        l >= 1,
    ensures
        ok == rows_encryptable(len as nat, l as nat),
{
    let b = (len / l) as u128;
    b * 8 <= 0x10_0000_0000u128 && b * 8 <= usize::MAX as u128
}

/// Whether the extended input of the malicious setting can be built from `x`.
pub fn extension_ready_check(x: &Vec<u64>, param: &Param, S: usize) -> (ok: bool)
    ensures
        ok == extension_ready(x@, param@, S as nat),
{
    let l = param.block_len();
    let p = param.prime();
    let v = x.len();
    if l < 1 || p == 0 || p >= 0x1_0000_0000_0000_0000u128 {
        return false;
    }
    if !(S == 0 || v % l == 0) {
        return false;
    }
    let mut i: usize = 0;
    while i < v
        invariant
            v == x.len(),
            i <= v,
            forall|j: int| 0 <= j < i ==> bit_len(#[trigger] x@[j] as nat) <= S,
        decreases v - i,
    {
        if bit_len_exec(x[i]) > S {
            return false;
        }
        i = i + 1;
    }
    if 2 * (S as u128) + 64 + (l as u128) > usize::MAX as u128 {
        return false;
    }
    let ls = match l.checked_mul(S) {
        Some(a) => a,
        None => {
            return false;
        },
    };
    proof {
        crate::client::lemma_ceil_log2_bound(v as nat);
        if v > 0 {
            let num = 2 * S + ceil_log2(v as nat) + l - 1;
            vstd::arithmetic::div_mod::lemma_fundamental_div_mod(num as int, l as int);
            vstd::arithmetic::div_mod::lemma_mod_bound(num as int, l as int);
            assert((num / (l as int)) * l <= num) by (nonlinear_arith)
                requires num == l * (num / (l as int)) + num % (l as int), num % (l as int) >= 0, l >= 1;
        }
    }
    let y = y_len_exec(S, v, l);
    let mut scratch: Vec<u64> = Vec::new();
    let ysum = push_squares(&mut scratch, x, p);
    if bit_len_exec(ysum) > y {
        return false;
    }
    let total = match (2 * v as u128).checked_add(l as u128) {
        Some(a) => match a.checked_add(y as u128) {
            Some(b) => match (ls as u128).checked_mul((v / l) as u128) {
                Some(c) => match b.checked_add(c) {
                    Some(d) => d.checked_add(3 * l as u128),
                    None => None,
                },
                None => None,
            },
            None => None,
        },
        None => None,
    };
    match total {
        Some(t) => t <= usize::MAX as u128,
        None => false,
    }
}

/// Whether the dropped clients `m` of an aggregation broadcast can be read
/// and every share that the aggregate adds up is there.
pub fn aggregation_ready_check(m: &Vec<u8>, shares: &Vec<Vec<u64>>, b: usize) -> (ok: bool)
    ensures
        ok == aggregation_ready(RecvType::bytes(*m), shares@, b as nat),
{
    if m.len() != 0 && m.len() < 8 {
        return false;
    }
    let dropouts = read_words(m.clone());
    let mut i: usize = 0;
    while i < shares.len()
        invariant
            i <= shares.len(),
            dropouts@ == words(m@),
            forall|j: int| 0 <= j < i && !words(m@).contains(j as u64) ==> #[trigger] shares@[j].len() >= b,
        decreases shares.len() - i,
    {
        if !crate::client::vec_contains(&dropouts, i as u64) && shares[i].len() < b {
            proof {
                assert(!words(m@).contains(i as u64) && shares@[i as int].len() < b);
            }
            return false;
        }
        i = i + 1;
    }
    true
}

/// Whether the semi-honest input-sharing round can run on `len` inputs.
pub fn input_sharing_sh_ready(len: usize, param: &Param, order: &Vec<Vec<u8>>, keys: &Vec<(Vec<u8>, Vec<u8>)>)
    -> (ok: bool)
    ensures
        ok == (sharing_ready(param@, keys.len() as nat, len as nat) && keys_ready(order@, keys@)
            && rows_encryptable(len as nat, param@.block_len as nat)),
{
    if !sharing_ready_check(param, keys.len(), len) {
        return false;
    }
    keys_ready_check(order, keys) && rows_encryptable_check(len, param.block_len())
}

/// Whether the malicious-setting input-sharing round can run on `x` with
/// `S` bits per input.
pub fn input_sharing_ml_ready(x: &Vec<u64>, param: &Param, S: usize, order: &Vec<Vec<u8>>,
    keys: &Vec<(Vec<u8>, Vec<u8>)>) -> (ok: bool)
    ensures
        ok == (extension_ready(x@, param@, S as nat)
            && sharing_ready(param@, keys.len() as nat, malicious_len(x.len() as nat, param@.block_len as nat, S as nat))
            && keys_ready(order@, keys@)
            && rows_encryptable(malicious_len(x.len() as nat, param@.block_len as nat, S as nat),
                param@.block_len as nat)),
{
    if !extension_ready_check(x, param, S) {
        return false;
    }
    let v = x.len();
    let l = param.block_len();
    proof {
        crate::client::lemma_ceil_log2_bound(v as nat);
        if v > 0 {
            let num = 2 * S + ceil_log2(v as nat) + l - 1;
            vstd::arithmetic::div_mod::lemma_fundamental_div_mod(num as int, l as int);
            vstd::arithmetic::div_mod::lemma_mod_bound(num as int, l as int);
            assert((num / (l as int)) * l <= num) by (nonlinear_arith)
                requires num == l * (num / (l as int)) + num % (l as int), num % (l as int) >= 0, l >= 1;
        }
        assert(l * S * (v / l) <= malicious_len(v as nat, l as nat, S as nat));
    }
    let y = y_len_exec(S, v, l);
    let total = 2 * v + l + y + l * S * (v / l) + 3 * l;
    if !sharing_ready_check(param, keys.len(), total) {
        return false;
    }
    keys_ready_check(order, keys) && rows_encryptable_check(total, l)
}

} // verus!
