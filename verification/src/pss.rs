//! Packed secret sharing of 64-bit values over a prime field below 2^64:
//! the polynomial comes from an inverse radix-2 transform, the shares from a
//! forward radix-3 transform, and reconstruction is by Lagrange
//! interpolation at the powers of the radix-3 generator.
use vstd::prelude::*;
use crate::ntt::{is_pow2, is_pow3, all_below, power_table, inverse2, transform3, inverse2_spec, transform3_spec, lemma_scaled_below, scaled};
use crate::modpow::{modulus_bound, modpow_value};
use crate::packed::{powers, pad_zeros, lemma_power_table_below, lagrange_interpolation, lagrange_spec};
use crate::random::random_below;

verus! {

/// Sharing parameters over the field of `prime` elements: `num_secrets`
/// values are packed into a polynomial given by `degree2` coefficients and
/// shared among `num_shares` parties out of a radix-3 domain of `degree3`
/// points.
#[derive(Debug, Clone)]
pub struct PackedSecretSharing<T> {
    prime: T,
    root2: T,
    root3: T,
    pub rootTable2: Vec<T>,
    pub rootTable3: Vec<T>,
    degree2: usize,
    degree3: usize,
    num_secrets: usize,
    num_shares: usize,
}

/// `s` widened from 64 to 128 bits.
pub open spec fn widen(s: Seq<u64>) -> Seq<u128> {
    Seq::new(s.len(), |i: int| s[i] as u128)
}

/// `s` narrowed from 128 to 64 bits.
pub open spec fn narrow(s: Seq<u128>) -> Seq<u64> {
    Seq::new(s.len(), |i: int| s[i] as u64)
}

/// The shares of `secrets` filled with `randomness`: the first `num_shares`
/// values of the forward radix-3 transform of the inverse radix-2 transform,
/// padded with zeros to the radix-3 domain.
pub open spec fn shares_spec(pss: PackedSecretSharing<u128>, secrets: Seq<u64>, randomness: Seq<u64>) -> Seq<u64> {
    let p = pss.prime_spec() as int;
    let poly = inverse2_spec(widen(secrets + randomness), p, pss.table2_spec());
    narrow(transform3_spec(pad_zeros(poly, pss.degree3_spec() as nat), p, pss.table3_spec()).subrange(0, pss.num_shares_spec() as int))
}

/// The evaluation points of the first `n` shares: the powers of `root3`.
pub open spec fn share_points(pss: PackedSecretSharing<u128>, n: nat) -> Seq<u128> {
    power_table(pss.root3_spec() as int, n, pss.prime_spec() as int)
}

/// Block `b` of `l` values of `data`.
pub open spec fn block(data: Seq<u64>, l: nat, b: int) -> Seq<u64> {
    data.subrange(b * l, b * l + l)
}

/// The shares of `data`, taken block by block of `num_secrets` values with
/// `rand[b]` as the randomness of block `b`: row `n` holds share `n` of
/// every block.
pub open spec fn share_rows(pss: PackedSecretSharing<u128>, data: Seq<u64>, rand: Seq<Seq<u64>>) -> Seq<Seq<u64>> {
    Seq::new(pss.num_shares_spec() as nat, |n: int| Seq::new(rand.len(), |b: int|
        shares_spec(pss, block(data, pss.num_secrets_spec() as nat, b), rand[b])[n]))
}

/// Randomness for `blocks` blocks: one vector per block that fills the
/// radix-2 domain after the secrets.
pub open spec fn block_randomness(pss: PackedSecretSharing<u128>, rand: Seq<Seq<u64>>, blocks: nat) -> bool {
    &&& rand.len() == blocks
    &&& forall|b: int| 0 <= b < blocks ==> (#[trigger] rand[b]).len() == pss.degree2_spec() - pss.num_secrets_spec()
}

/// The contents of the rows.
pub open spec fn rows_view(m: Seq<Vec<u64>>) -> Seq<Seq<u64>> {
    Seq::new(m.len(), |i: int| m[i]@)
}

impl PackedSecretSharing<u128> {
    pub closed spec fn prime_spec(&self) -> u128 {
        self.prime
    }

    pub closed spec fn root2_spec(&self) -> u128 {
        self.root2
    }

    pub closed spec fn root3_spec(&self) -> u128 {
        self.root3
    }

    pub closed spec fn table2_spec(&self) -> Seq<u128> {
        self.rootTable2@
    }

    pub closed spec fn table3_spec(&self) -> Seq<u128> {
        self.rootTable3@
    }

    pub closed spec fn degree2_spec(&self) -> usize {
        self.degree2
    }

    pub closed spec fn degree3_spec(&self) -> usize {
        self.degree3
    }

    pub closed spec fn num_secrets_spec(&self) -> usize {
        self.num_secrets
    }

    pub closed spec fn num_shares_spec(&self) -> usize {
        self.num_shares
    }

    /// The tables hold the first `degree2` powers of `root2` and the first
    /// `degree3` powers of `root3`, and the counts are ordered.
    pub open spec fn wf(&self) -> bool {
        &&& self.num_secrets_spec() <= self.degree2_spec() <= self.num_shares_spec() <= self.degree3_spec()
        &&& 0 < self.prime_spec() <= modulus_bound()
        &&& self.table2_spec() == power_table(self.root2_spec() as int, self.degree2_spec() as nat, self.prime_spec() as int)
        &&& self.table3_spec() == power_table(self.root3_spec() as int, self.degree3_spec() as nat, self.prime_spec() as int)
    }

    /// The radix-2 table, the public field `rootTable2`, as the contracts
    /// speak of it.
    pub fn root_table2(&self) -> (t: &Vec<u128>)
        ensures
            t@ == self.table2_spec(),
    {
        &self.rootTable2
    }

    /// The radix-3 table, the public field `rootTable3`, as the contracts
    /// speak of it.
    pub fn root_table3(&self) -> (t: &Vec<u128>)
        ensures
            t@ == self.table3_spec(),
    {
        &self.rootTable3
    }

    /// Sets up the sharing parameters and the two power tables.
    pub fn new(prime: u128, root2: u128, root3: u128, degree2: usize, degree3: usize, num_secrets: usize, num_shares: usize)
        -> (pss: PackedSecretSharing<u128>)
        requires
            num_secrets <= degree2,
            degree2 <= num_shares,
            num_shares <= degree3,
            0 < prime <= modulus_bound(),
        ensures
            pss.wf(),
            pss.prime_spec() == prime,
            pss.root2_spec() == root2,
            pss.root3_spec() == root3,
            pss.degree2_spec() == degree2,
            pss.degree3_spec() == degree3,
            pss.num_secrets_spec() == num_secrets,
            pss.num_shares_spec() == num_shares,
    {
        let rootTable2 = powers(root2, degree2, prime);
        let rootTable3 = powers(root3, degree3, prime);
        PackedSecretSharing {
            prime: prime,
            root2: root2,
            root3: root3,
            rootTable2: rootTable2,
            rootTable3: rootTable3,
            degree2: degree2,
            degree3: degree3,
            num_secrets: num_secrets,
            num_shares: num_shares,
        }
    }

    /// Shares `secrets` with `randomness` filling the rest of the radix-2
    /// domain; the shares are the first `num_shares` values.
    pub fn share_with_randomness(&self, secrets: &[u64], randomness: &Vec<u64>) -> (shares: Vec<u64>)
        requires
            self.wf(),
            secrets.len() == self.num_secrets_spec(),
            secrets.len() + randomness.len() == self.degree2_spec(),
            self.degree2_spec() >= 2,
            is_pow2(self.degree2_spec() as nat),
            is_pow3(self.degree3_spec() as nat),
            self.prime_spec() >= 2,
        ensures
            shares@ == shares_spec(*self, secrets@, randomness@),
            shares.len() == self.num_shares_spec(),
    {
        let L2 = self.degree2;
        let L3 = self.degree3;
        let mut _secrets: Vec<u128> = Vec::new();
        let mut k: usize = 0;
        while k < secrets.len()
            invariant
                k <= secrets.len(),
                _secrets@ == widen(secrets@.subrange(0, k as int)),
            decreases secrets.len() - k,
        {
            _secrets.push(secrets[k] as u128);
            k = k + 1;
            proof {
                assert(_secrets@ =~= widen(secrets@.subrange(0, k as int)));
            }
        }
        let mut q: usize = 0;
        while q < randomness.len()
            invariant
                q <= randomness.len(),
                _secrets@ == widen(secrets@ + randomness@.subrange(0, q as int)),
            decreases randomness.len() - q,
        {
            proof {
                assert(secrets@.subrange(0, secrets@.len() as int) =~= secrets@);
            }
            _secrets.push(randomness[q] as u128);
            q = q + 1;
            proof {
                assert(_secrets@ =~= widen(secrets@ + randomness@.subrange(0, q as int)));
            }
        }
        proof {
            assert(secrets@.subrange(0, secrets@.len() as int) =~= secrets@);
            assert(randomness@.subrange(0, q as int) =~= randomness@);
            assert(_secrets@ =~= widen(secrets@ + randomness@));
            assert(all_below(_secrets@, modulus_bound()));
        }
        let mut poly = inverse2(_secrets, &self.prime, &self.rootTable2);
        let ghost inv = poly@;
        proof {
            let w = modpow_value(self.rootTable2@[1] as int, (self.prime - 2) as nat, self.prime as int);
            let tt = crate::ntt::transform2_spec(widen(secrets@ + randomness@), self.prime as int, power_table(w, L2 as nat, self.prime as int));
            let cc = modpow_value(L2 as int, (self.prime - 2) as nat, self.prime as int);
            assert(inv == scaled(tt, cc, self.prime as int));
            lemma_scaled_below(inv, self.prime as int);
            assert(poly@ =~= pad_zeros(inv, L2 as nat));
        }
        let mut i: usize = L2;
        while i < L3
            invariant
                L2 <= i <= L3,
                inv.len() == L2,
                poly@ == pad_zeros(inv, i as nat),
            decreases L3 - i,
        {
            poly.push(0u128);
            i = i + 1;
            proof {
                assert(poly@ =~= pad_zeros(inv, i as nat));
            }
        }
        proof {
            assert forall|z: int| 0 <= z < poly@.len() implies #[trigger] poly@[z] < modulus_bound() by {
                if z >= L2 {
                    assert(poly@[z] == 0);
                }
            }
            lemma_power_table_below(self.root3 as int, L3 as nat, self.prime as int);
            crate::ntt::lemma_pow3n_pos(0);
            assert(L3 >= 1) by {
                let kk = choose|kk: nat| crate::ntt::pow3n(kk) == L3;
                crate::ntt::lemma_pow3n_pos(kk);
            }
        }
        let mut shares = transform3(poly, &self.prime, &self.rootTable3);
        let ghost full = shares@;
        let _ = shares.split_off(self.num_shares);
        proof {
            let p = self.prime as int;
            let sp = crate::ntt::transform3_spec(pad_zeros(inv, L3 as nat), p, self.rootTable3@);
            assert(full == sp);
            assert(all_below(full, p)) by {
                crate::ntt::lemma_transform3_below(pad_zeros(inv, L3 as nat), p, self.rootTable3@);
            }
        }
        let mut ret: Vec<u64> = Vec::new();
        let mut z: usize = 0;
        while z < shares.len()
            invariant
                z <= shares.len(),
                shares@ == full.subrange(0, self.num_shares as int),
                all_below(full, self.prime as int),
                self.prime <= modulus_bound(),
                self.num_shares <= full.len(),
                ret@ == narrow(shares@.subrange(0, z as int)),
            decreases shares.len() - z,
        {
            ret.push(shares[z] as u64);
            z = z + 1;
            proof {
                assert(ret@ =~= narrow(shares@.subrange(0, z as int)));
            }
        }
        proof {
            assert(shares@.subrange(0, z as int) =~= shares@);
        }
        ret
    }

    /// Shares `secrets`, filling the rest of the radix-2 domain with values
    /// drawn uniformly from `0..u64::MAX`.
    pub fn share_ref(&mut self, secrets: &[u64]) -> (shares: Vec<u64>)
        requires
            old(self).wf(),
            secrets.len() == old(self).num_secrets_spec(),
            old(self).degree2_spec() >= 2,
            is_pow2(old(self).degree2_spec() as nat),
            is_pow3(old(self).degree3_spec() as nat),
            old(self).prime_spec() >= 2,
        ensures
            *final(self) == *old(self),
            shares.len() == old(self).num_shares_spec(),
            exists|randomness: Seq<u64>|
                randomness.len() == old(self).degree2_spec() - secrets.len()
                && #[trigger] shares_spec(*old(self), secrets@, randomness) == shares@,
    {
        let L2 = self.degree2;
        let mut randomness: Vec<u64> = Vec::new();
        let mut i: usize = self.num_secrets;
        while i < L2
            invariant
                self.num_secrets <= i <= L2,
                randomness.len() == i - self.num_secrets,
            decreases L2 - i,
        {
            let v = random_below(0xffff_ffff_ffff_ffffu128);
            randomness.push(v as u64);
            i = i + 1;
        }
        let shares = self.share_with_randomness(secrets, &randomness);
        proof {
            assert(shares_spec(*self, secrets@, randomness@) == shares@);
        }
        shares
    }

    /// Shares `data` block by block of `num_secrets` values, each block with
    /// fresh randomness; row `n` of the result holds share `n` of every block.
    pub fn share_blocks(&mut self, data: &Vec<u64>) -> (rows: Vec<Vec<u64>>)
        requires
            old(self).wf(),
            old(self).num_secrets_spec() >= 1,
            data.len() % old(self).num_secrets_spec() == 0,
            old(self).degree2_spec() >= 2,
            is_pow2(old(self).degree2_spec() as nat),
            is_pow3(old(self).degree3_spec() as nat),
            old(self).prime_spec() >= 2,
        ensures
            *final(self) == *old(self),
            exists|rand: Seq<Seq<u64>>|
                block_randomness(*old(self), rand, (data.len() / old(self).num_secrets_spec()) as nat)
                && #[trigger] share_rows(*old(self), data@, rand) == rows_view(rows@),
    {
        let ghost pss0 = *self;
        let L = self.num_secrets;
        let N = self.num_shares;
        let B = data.len() / L;
        let mut cols: Vec<Vec<u64>> = Vec::new();
        let ghost mut rand: Seq<Seq<u64>> = Seq::empty();
        let mut b: usize = 0;
        while b < B
            invariant
                *self == pss0,
                pss0.wf(),
                L == pss0.num_secrets_spec(),
                N == pss0.num_shares_spec(),
                L >= 1,
                B == data.len() / L,
                data.len() % L == 0,
                pss0.degree2_spec() >= 2,
                is_pow2(pss0.degree2_spec() as nat),
                is_pow3(pss0.degree3_spec() as nat),
                pss0.prime_spec() >= 2,
                b <= B,
                cols.len() == b,
                rand.len() == b,
                forall|q: int| 0 <= q < b ==> (#[trigger] rand[q]).len() == pss0.degree2_spec() - pss0.num_secrets_spec(),
                forall|q: int| 0 <= q < b ==> (#[trigger] cols@[q])@ == shares_spec(pss0, block(data@, L as nat, q), rand[q]),
                forall|q: int| 0 <= q < b ==> (#[trigger] cols@[q]).len() == N,
            decreases B - b,
        {
            proof {
                vstd::arithmetic::div_mod::lemma_fundamental_div_mod(data.len() as int, L as int);
                assert(b * L + L <= data.len()) by (nonlinear_arith)
                    requires b < B, B == data.len() / L, L >= 1, data.len() % L == 0,
                        data.len() == L * (data.len() / L) + data.len() % L;
            }
            let start = b * L;
            let mut blk: Vec<u64> = Vec::new();
            let mut k: usize = 0;
            while k < L
                invariant
                    start + L <= data.len(),
                    k <= L,
                    blk@ == data@.subrange(start as int, start + k),
                decreases L - k,
            {
                blk.push(data[start + k]);
                k = k + 1;
                proof {
                    assert(blk@ =~= data@.subrange(start as int, start + k));
                }
            }
            proof {
                assert(blk@ == block(data@, L as nat, b as int));
            }
            let sh = self.share_ref(blk.as_slice());
            proof {
                let rb = choose|rb: Seq<u64>| rb.len() == pss0.degree2_spec() - blk@.len()
                    && #[trigger] shares_spec(pss0, blk@, rb) == sh@;
                rand = rand.push(rb);
            }
            cols.push(sh);
            b = b + 1;
        }
        let mut rows: Vec<Vec<u64>> = Vec::new();
        let mut n: usize = 0;
        while n < N
            invariant
                N == pss0.num_shares_spec(),
                cols.len() == B,
                rand.len() == B,
                forall|q: int| 0 <= q < B ==> (#[trigger] cols@[q])@ == shares_spec(pss0, block(data@, L as nat, q), rand[q]),
                forall|q: int| 0 <= q < B ==> (#[trigger] cols@[q]).len() == N,
                L == pss0.num_secrets_spec(),
                n <= N,
                rows.len() == n,
                forall|i: int| 0 <= i < n ==> (#[trigger] rows@[i])@ == share_rows(pss0, data@, rand)[i],
            decreases N - n,
        {
            let mut row: Vec<u64> = Vec::new();
            let mut q: usize = 0;
            while q < B
                invariant
                    cols.len() == B,
                    forall|c: int| 0 <= c < B ==> (#[trigger] cols@[c]).len() == N,
                    n < N,
                    q <= B,
                    row.len() == q,
                    forall|c: int| 0 <= c < q ==> row@[c] == (#[trigger] cols@[c])@[n as int],
                decreases B - q,
            {
                row.push(cols[q][n]);
                q = q + 1;
            }
            proof {
                let want = share_rows(pss0, data@, rand)[n as int];
                assert(want.len() == B);
                assert forall|c: int| 0 <= c < B implies row@[c] == want[c] by {
                    assert(row@[c] == cols@[c]@[n as int]);
                    assert(cols@[c]@ == shares_spec(pss0, block(data@, L as nat, c), rand[c]));
                }
                assert(row@ =~= want);
            }
            rows.push(row);
            n = n + 1;
        }
        proof {
            assert(rows_view(rows@) =~= share_rows(pss0, data@, rand));
            assert(block_randomness(pss0, rand, (data.len() / L) as nat));
        }
        rows
    }

    /// Shares `secrets` as `share_ref` does.
    pub fn share(&mut self, secrets: Vec<u64>) -> (shares: Vec<u64>)
        requires
            old(self).wf(),
            secrets.len() == old(self).num_secrets_spec(),
            old(self).degree2_spec() >= 2,
            is_pow2(old(self).degree2_spec() as nat),
            is_pow3(old(self).degree3_spec() as nat),
            old(self).prime_spec() >= 2,
        ensures
            *final(self) == *old(self),
            shares.len() == old(self).num_shares_spec(),
            exists|randomness: Seq<u64>|
                randomness.len() == old(self).degree2_spec() - secrets.len()
                && #[trigger] shares_spec(*old(self), secrets@, randomness) == shares@,
    {
        self.share_ref(secrets.as_slice())
    }

    /// Reconstructs the secrets from the shares of the first `shares.len()`
    /// parties, by Lagrange interpolation through the points `root3^i` at
    /// the first `num_secrets` powers of `root2`. The radix-2 table is cut
    /// down to those powers for good.
    pub fn reconstruct(&mut self, shares: Vec<u128>) -> (secrets: Vec<u128>)
        requires
            old(self).wf(),
            shares.len() >= old(self).degree2_spec(),
            shares.len() <= old(self).degree3_spec(),
            old(self).prime_spec() >= 2,
            all_below(shares@, modulus_bound()),
        ensures
            final(self).table2_spec() == old(self).table2_spec().subrange(0, old(self).num_secrets_spec() as int),
            final(self).table3_spec() == old(self).table3_spec(),
            final(self).prime_spec() == old(self).prime_spec(),
            final(self).root2_spec() == old(self).root2_spec(),
            final(self).root3_spec() == old(self).root3_spec(),
            final(self).degree2_spec() == old(self).degree2_spec(),
            final(self).degree3_spec() == old(self).degree3_spec(),
            final(self).num_secrets_spec() == old(self).num_secrets_spec(),
            final(self).num_shares_spec() == old(self).num_shares_spec(),
            secrets@ == lagrange_spec(share_points(*old(self), shares.len() as nat), shares@, final(self).table2_spec(),
                old(self).prime_spec() as int),
    {
        let shares_point = powers(self.root3, shares.len(), self.prime);
        let _ = self.rootTable2.split_off(self.num_secrets);
        proof {
            lemma_power_table_below(self.root3 as int, shares.len() as nat, self.prime as int);
            lemma_power_table_below(self.root2 as int, self.degree2 as nat, self.prime as int);
            crate::packed::lemma_differences_defined(shares_point@, shares_point@, self.prime as int);
            crate::packed::lemma_differences_defined(shares_point@, self.rootTable2@, self.prime as int);
        }
        lagrange_interpolation(&shares_point, &shares, &self.rootTable2, &self.prime)
    }
}

} // verus!
