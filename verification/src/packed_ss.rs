//! Packed secret sharing with the roles of the transforms exchanged: the
//! secrets define the polynomial through a radix-3 transform and the shares
//! come from a radix-2 transform.
use vstd::prelude::*;
use crate::ntt::{
    pow3n, lemma_pow3n_pos, is_pow2, is_pow3, all_below, power_table, inverse3, transform2,
    inverse3_spec, transform2_spec, lemma_scaled_below, scaled, transform3_spec, transform3,
    inverse2, inverse2_spec,
};
use crate::modpow::{modulus_bound, modpow_value};
use crate::packed::{ceil_log3, round_to_pow3, powers, lemma_power_table_below};
use crate::random::random_below;

verus! {

/// Sharing parameters; the radix-3 table is all ones.
#[derive(Debug, Clone)]
pub struct PackedSecretSharing {
    prime: u128,
    root2: u128,
    root3: u128,
    rootTable2: Vec<u128>,
    rootTable3: Vec<u128>,
    degree: usize,
    num_secrets: usize,
    num_shares: usize,
    buff: Vec<u128>,
}

/// `s` with its length adjusted to `n`: cut when longer, extended by `tail` when shorter.
pub open spec fn fit_len(s: Seq<u128>, n: nat, tail: Seq<u128>) -> Seq<u128> {
    if n <= s.len() {
        s.subrange(0, n as int)
    } else {
        s + tail
    }
}

/// `shares` and the new state are what sharing `secrets` from state `before`
/// gives with the random fillers `r3` (radix-3 domain) and `r2` (radix-2
/// domain), each below the prime.
pub open spec fn share_outcome(
    before: PackedSecretSharing,
    after: PackedSecretSharing,
    secrets: Seq<u128>,
    shares: Seq<u128>,
    r3: Seq<u128>,
    r2: Seq<u128>,
) -> bool {
    let p = before.prime_spec() as int;
    let poly = inverse3_spec(secrets + r3, p, before.table3_spec());
    let n2 = before.table2_spec().len();
    &&& all_below(r3, p)
    &&& all_below(r2, p)
    &&& shares == transform2_spec(fit_len(poly, n2 as nat, r2), p, before.table2_spec())
    &&& after.buff_spec() == if poly.len() > n2 { poly.subrange(n2 as int, poly.len() as int) } else { before.buff_spec() }
}

impl PackedSecretSharing {
    pub closed spec fn prime_spec(&self) -> u128 {
        self.prime
    }

    pub closed spec fn root2_spec(&self) -> u128 {
        self.root2
    }

    pub closed spec fn root3_spec(&self) -> u128 {
        self.root3
    }

    pub closed spec fn table2_spec(&self) -> Seq<u128> {
        self.rootTable2@
    }

    pub closed spec fn table3_spec(&self) -> Seq<u128> {
        self.rootTable3@
    }

    pub closed spec fn degree_spec(&self) -> usize {
        self.degree
    }

    pub closed spec fn num_secrets_spec(&self) -> usize {
        self.num_secrets
    }

    pub closed spec fn num_shares_spec(&self) -> usize {
        self.num_shares
    }

    /// The tail of the last polynomial that did not fit the radix-2 domain.
    pub closed spec fn buff_spec(&self) -> Seq<u128> {
        self.buff@
    }

    /// The radix-2 table holds the first `degree + 1` powers of `root2`,
    /// the radix-3 table is all ones, as long as the smallest power of three
    /// at least `num_secrets`.
    pub open spec fn wf(&self) -> bool {
        &&& self.num_secrets_spec() <= self.degree_spec() <= self.num_shares_spec()
        &&& self.degree_spec() < usize::MAX
        &&& 0 < self.prime_spec() <= modulus_bound()
        &&& self.table2_spec() == power_table(self.root2_spec() as int, (self.degree_spec() + 1) as nat, self.prime_spec() as int)
        &&& self.table3_spec() == Seq::new(pow3n(ceil_log3(self.num_secrets_spec() as nat)), |i: int| 1u128)
    }

    /// Sets up sharing of `num_secrets` values with a polynomial of degree `degree`.
    pub fn new(prime: u128, root2: u128, root3: u128, degree: usize, num_secrets: usize, num_shares: usize)
        -> (pss: PackedSecretSharing)
        requires
            degree <= num_shares,
            degree >= num_secrets,
            degree < usize::MAX,
            0 < prime <= modulus_bound(),
            pow3n(ceil_log3(num_secrets as nat)) <= usize::MAX,
        ensures
            pss.wf(),
            pss.prime_spec() == prime,
            pss.root2_spec() == root2,
            pss.root3_spec() == root3,
            pss.degree_spec() == degree,
            pss.num_secrets_spec() == num_secrets,
            pss.num_shares_spec() == num_shares,
            pss.buff_spec() == Seq::<u128>::empty(),
    {
        let L3 = round_to_pow3(num_secrets);
        let mut rootTable3: Vec<u128> = Vec::new();
        let mut i: usize = 0;
        while i < L3
            invariant
                i <= L3,
                rootTable3@ == Seq::new(i as nat, |k: int| 1u128),
            decreases L3 - i,
        {
            rootTable3.push(1u128);
            i = i + 1;
            proof {
                assert(rootTable3@ =~= Seq::new(i as nat, |k: int| 1u128));
            }
        }
        let L2 = degree + 1;
        let rootTable2 = powers(root2, L2, prime);
        PackedSecretSharing {
            prime: prime,
            root2: root2,
            root3: root3,
            rootTable2: rootTable2,
            rootTable3: rootTable3,
            degree: degree,
            num_secrets: num_secrets,
            num_shares: num_shares,
            buff: Vec::new(),
        }
    }

    /// Shares `secrets`: the secrets followed by `randomness3` go through the
    /// inverse radix-3 transform; the polynomial is then fitted to the
    /// radix-2 domain, extended with `randomness2` when shorter or cut when
    /// longer (the cut tail kept for reconstruction), and transformed
    /// forward over the radix-2 domain.
    pub fn share_with_randomness(&mut self, secrets: &Vec<u128>, randomness3: &Vec<u128>, randomness2: &Vec<u128>)
        -> (shares: Vec<u128>)
        requires
            old(self).wf(),
            secrets.len() == old(self).num_secrets_spec(),
            secrets.len() + randomness3.len() == old(self).table3_spec().len(),
            old(self).table3_spec().len() >= 2,
            is_pow2(old(self).table2_spec().len() as nat),
            randomness2.len() == if old(self).table3_spec().len() < old(self).table2_spec().len() {
                old(self).table2_spec().len() - old(self).table3_spec().len()
            } else {
                0
            },
            old(self).prime_spec() >= 2,
            all_below(secrets@, modulus_bound()),
            all_below(randomness3@, modulus_bound()),
            all_below(randomness2@, modulus_bound()),
        ensures
            ({
                let poly = inverse3_spec(secrets@ + randomness3@, old(self).prime_spec() as int, old(self).table3_spec());
                let n2 = old(self).table2_spec().len();
                &&& shares@ == transform2_spec(fit_len(poly, n2 as nat, randomness2@), old(self).prime_spec() as int, old(self).table2_spec())
                &&& final(self).buff_spec() == if poly.len() > n2 { poly.subrange(n2 as int, poly.len() as int) } else { old(self).buff_spec() }
            }),
            final(self).prime_spec() == old(self).prime_spec(),
            final(self).root2_spec() == old(self).root2_spec(),
            final(self).root3_spec() == old(self).root3_spec(),
            final(self).table2_spec() == old(self).table2_spec(),
            final(self).table3_spec() == old(self).table3_spec(),
            final(self).degree_spec() == old(self).degree_spec(),
            final(self).num_secrets_spec() == old(self).num_secrets_spec(),
            final(self).num_shares_spec() == old(self).num_shares_spec(),
    {
        let L2 = self.rootTable2.len();
        let L3 = self.rootTable3.len();
        let mut _secrets = secrets.clone();
        let mut k: usize = 0;
        proof {
            assert(_secrets@ =~= secrets@);
        }
        while k < randomness3.len()
            invariant
                _secrets@ == secrets@ + randomness3@.subrange(0, k as int),
                k <= randomness3.len(),
            decreases randomness3.len() - k,
        {
            _secrets.push(randomness3[k]);
            k = k + 1;
            proof {
                assert(_secrets@ =~= secrets@ + randomness3@.subrange(0, k as int));
            }
        }
        proof {
            assert(randomness3@.subrange(0, k as int) =~= randomness3@);
            assert(all_below(_secrets@, modulus_bound()));
            lemma_pow3n_pos(ceil_log3(self.num_secrets as nat));
        }
        let mut poly = inverse3(_secrets, &self.prime, &self.rootTable3);
        let ghost inv = poly@;
        proof {
            let w = modpow_value(self.rootTable3@[1] as int, (self.prime - 2) as nat, self.prime as int);
            let tt = transform3_spec(_secrets@, self.prime as int, power_table(w, L3 as nat, self.prime as int));
            let cc = modpow_value(L3 as int, (self.prime - 2) as nat, self.prime as int);
            assert(inv == scaled(tt, cc, self.prime as int));
            lemma_scaled_below(inv, self.prime as int);
        }
        if L3 < L2 {
            let mut i: usize = 0;
            while i < randomness2.len()
                invariant
                    i <= randomness2.len(),
                    poly@ == inv + randomness2@.subrange(0, i as int),
                decreases randomness2.len() - i,
            {
                poly.push(randomness2[i]);
                i = i + 1;
                proof {
                    assert(poly@ =~= inv + randomness2@.subrange(0, i as int));
                }
            }
            proof {
                assert(randomness2@.subrange(0, i as int) =~= randomness2@);
            }
        } else if L3 > L2 {
            self.buff = poly.split_off(L2);
        }
        proof {
            assert(poly@ =~= fit_len(inv, L2 as nat, randomness2@));
            assert forall|q: int| 0 <= q < poly@.len() implies #[trigger] poly@[q] < modulus_bound() by {
                if q >= inv.len() {
                    assert(poly@[q] == randomness2@[q - inv.len()]);
                }
            }
            lemma_power_table_below(self.root2 as int, L2 as nat, self.prime as int);
        }
        let res = transform2(poly, &self.prime, &self.rootTable2);
        res
    }

    /// Shares `secrets`, drawing the random fillers uniformly below the prime.
    pub fn share(&mut self, secrets: &Vec<u128>) -> (shares: Vec<u128>)
        requires
            old(self).wf(),
            secrets.len() == old(self).num_secrets_spec(),
            old(self).table3_spec().len() >= 2,
            is_pow2(old(self).table2_spec().len() as nat),
            old(self).prime_spec() >= 2,
            all_below(secrets@, modulus_bound()),
        ensures
            exists|r3: Seq<u128>, r2: Seq<u128>|
                #[trigger] share_outcome(*old(self), *final(self), secrets@, shares@, r3, r2),
            final(self).prime_spec() == old(self).prime_spec(),
            final(self).table2_spec() == old(self).table2_spec(),
            final(self).table3_spec() == old(self).table3_spec(),
            final(self).degree_spec() == old(self).degree_spec(),
            final(self).num_secrets_spec() == old(self).num_secrets_spec(),
            final(self).num_shares_spec() == old(self).num_shares_spec(),
    {
        let L2 = self.rootTable2.len();
        let L3 = self.rootTable3.len();
        let mut r3: Vec<u128> = Vec::new();
        proof {
            crate::packed::lemma_ceil_log3(self.num_secrets as nat, ceil_log3(self.num_secrets as nat));
        }
        let mut i: usize = self.num_secrets;
        while i < L3
            invariant
                self.num_secrets <= i <= L3,
                L3 == self.rootTable3.len(),
                self.prime >= 2,
                r3.len() == i - self.num_secrets,
                all_below(r3@, self.prime as int),
            decreases L3 - i,
        {
            r3.push(random_below(self.prime));
            i = i + 1;
        }
        let mut r2: Vec<u128> = Vec::new();
        if L3 < L2 {
            let mut j: usize = L3;
            while j < L2
                invariant
                    L3 <= j <= L2,
                    self.prime >= 2,
                    r2.len() == j - L3,
                    all_below(r2@, self.prime as int),
                decreases L2 - j,
            {
                r2.push(random_below(self.prime));
                j = j + 1;
            }
        }
        let shares = self.share_with_randomness(secrets, &r3, &r2);
        proof {
            assert(share_outcome(*old(self), *self, secrets@, shares@, r3@, r2@));
        }
        shares
    }

    /// Reconstructs the secrets from the first `degree + 1` shares: inverse
    /// radix-2 transform, fit to the radix-3 domain (cutting the tail into the
    /// buffer, or appending the buffered tail), then the forward radix-3
    /// transform.
    pub fn reconstruct(&mut self, shares: &Vec<u128>) -> (secrets: Vec<u128>)
        requires
            old(self).wf(),
            shares.len() >= old(self).degree_spec() + 1,
            shares.len() <= old(self).num_shares_spec(),
            is_pow2(old(self).table2_spec().len() as nat),
            2 <= old(self).prime_spec(),
            old(self).table2_spec().len() >= 2,
            old(self).table2_spec().len() < old(self).table3_spec().len()
                ==> old(self).buff_spec().len() == old(self).table3_spec().len() - old(self).table2_spec().len(),
            all_below(shares@, modulus_bound()),
            all_below(old(self).buff_spec(), modulus_bound()),
        ensures
            ({
                let n2 = old(self).table2_spec().len();
                let n3 = old(self).table3_spec().len();
                let poly = inverse2_spec(shares@.subrange(0, n2 as int), old(self).prime_spec() as int, old(self).table2_spec());
                &&& secrets@ == transform3_spec(fit_len(poly, n3 as nat, old(self).buff_spec()), old(self).prime_spec() as int, old(self).table3_spec())
                &&& final(self).buff_spec() == if n3 < n2 { poly.subrange(n3 as int, n2 as int) } else { old(self).buff_spec() }
            }),
            final(self).prime_spec() == old(self).prime_spec(),
            final(self).table2_spec() == old(self).table2_spec(),
            final(self).table3_spec() == old(self).table3_spec(),
            final(self).degree_spec() == old(self).degree_spec(),
            final(self).num_secrets_spec() == old(self).num_secrets_spec(),
            final(self).num_shares_spec() == old(self).num_shares_spec(),
    {
        let L2 = self.rootTable2.len();
        let L3 = self.rootTable3.len();
        let mut _shares = shares.clone();
        if shares.len() > L2 {
            _shares.truncate(L2);
        }
        proof {
            assert(_shares@ =~= shares@.subrange(0, L2 as int));
        }
        let mut poly = inverse2(_shares, &self.prime, &self.rootTable2);
        let ghost inv = poly@;
        proof {
            let w = modpow_value(self.rootTable2@[1] as int, (self.prime - 2) as nat, self.prime as int);
            let tt = crate::ntt::transform2_spec(shares@.subrange(0, L2 as int), self.prime as int, power_table(w, L2 as nat, self.prime as int));
            let cc = modpow_value(L2 as int, (self.prime - 2) as nat, self.prime as int);
            assert(inv == scaled(tt, cc, self.prime as int));
            lemma_scaled_below(inv, self.prime as int);
        }
        if L3 < L2 {
            self.buff = poly.split_off(L3);
        } else if L3 > L2 {
            let tail = self.buff.clone();
            let mut i: usize = 0;
            proof {
                assert(tail@ =~= self.buff@);
            }
            while i < tail.len()
                invariant
                    i <= tail.len(),
                    poly@ == inv + tail@.subrange(0, i as int),
                decreases tail.len() - i,
            {
                poly.push(tail[i]);
                i = i + 1;
                proof {
                    assert(poly@ =~= inv + tail@.subrange(0, i as int));
                }
            }
            proof {
                assert(tail@.subrange(0, i as int) =~= tail@);
            }
        }
        proof {
            assert(poly@ =~= fit_len(inv, L3 as nat, old(self).buff@));
            assert forall|q: int| 0 <= q < poly@.len() implies #[trigger] poly@[q] < modulus_bound() by {
                if q >= inv.len() {
                    assert(poly@[q] == old(self).buff@[q - inv.len()]);
                }
            }
            lemma_pow3n_pos(ceil_log3(self.num_secrets as nat));
            assert(is_pow3(L3 as nat));
            assert(all_below(self.rootTable3@, modulus_bound()));
        }
        transform3(poly, &self.prime, &self.rootTable3)
    }
}

} // verus!
