//! The client's protocol rounds, as functions from what the client holds and
//! what it received to what it sends: key agreement, input sharing in the
//! semi-honest and the malicious setting, share collection and aggregation.
use vstd::prelude::*;
use crate::client::{
    Param, ParamView, aes256gcm_seal, aes_gcm_max_plaintext, share_nonce, encrypt_rows,
    find_key, build_malicious_input, malicious_layout, malicious_len, y_len, square_sum,
};
use crate::pss::{PackedSecretSharing, share_rows, block_randomness, rows_view};
use crate::ntt::{is_pow2, is_pow3};
use crate::modpow::modulus_bound;
use crate::util::{bit_len, words, le_bytes_of_words};
use crate::random::os_random_u64;
use crate::messages::{RecvType, ClientError};
use crate::correction::read_words;
use crate::client::{receive_share, aggregate, aggregate_spec, aggregation_bytes};
use p256::ecdsa::signature::Signer;

verus! {

/// `keys[k]` is the first entry stored for `pk`.
pub open spec fn first_key(keys: Seq<(Vec<u8>, Vec<u8>)>, pk: Seq<u8>, k: int) -> bool {
    &&& 0 <= k < keys.len()
    &&& keys[k].0@ == pk
    &&& forall|q: int| 0 <= q < k ==> (#[trigger] keys[q]).0@ != pk
}

/// `order[idx]` is the first entry equal to `pk`.
pub open spec fn first_index(order: Seq<Vec<u8>>, pk: Seq<u8>, idx: int) -> bool {
    &&& 0 <= idx < order.len()
    &&& order[idx]@ == pk
    &&& forall|q: int| 0 <= q < idx ==> (#[trigger] order[q])@ != pk
}

/// Some entry is stored for `pk`.
pub open spec fn has_key(keys: Seq<(Vec<u8>, Vec<u8>)>, pk: Seq<u8>) -> bool {
    exists|k: int| 0 <= k < keys.len() && (#[trigger] keys[k]).0@ == pk
}

/// `v` is the first key stored for `pk`.
pub open spec fn key_at(keys: Seq<(Vec<u8>, Vec<u8>)>, pk: Seq<u8>, v: Seq<u8>) -> bool {
    exists|k: int| #[trigger] first_key(keys, pk, k) && v == keys[k].1@
}

/// The key shared with each peer of `order`, in that order.
pub fn keys_in_order(order: &Vec<Vec<u8>>, keys: &Vec<(Vec<u8>, Vec<u8>)>) -> (r: Vec<Vec<u8>>)
    requires
        forall|i: int| 0 <= i < order.len() ==> has_key(keys@, (#[trigger] order@[i])@),
    ensures
        r.len() == order.len(),
        forall|i: int| 0 <= i < order.len() ==> key_at(keys@, order@[i]@, (#[trigger] r@[i])@),
{
    let mut r: Vec<Vec<u8>> = Vec::new();
    let mut i: usize = 0;
    while i < order.len()
        invariant
            forall|q: int| 0 <= q < order.len() ==> has_key(keys@, (#[trigger] order@[q])@),
            i <= order.len(),
            r.len() == i,
            forall|q: int| 0 <= q < i ==> key_at(keys@, order@[q]@, (#[trigger] r@[q])@),
        decreases order.len() - i,
    {
        match find_key(keys, &order[i]) {
            Some(k) => {
                let v = keys[k].1.clone();
                proof {
                    assert(first_key(keys@, order@[i as int]@, k as int));
                    assert(key_at(keys@, order@[i as int]@, v@));
                }
                r.push(v);
            },
            None => {
                proof {
                    assert(has_key(keys@, order@[i as int]@));
                    let k = choose|k: int| 0 <= k < keys.len() && (#[trigger] keys@[k]).0@ == order@[i as int]@;
                    assert(keys@[k].0@ != order@[i as int]@);
                }
                r.push(Vec::new());
            },
        }
        i = i + 1;
    }
    r
}

/// The sharing parameters fit a sharing of `len` values among `n` parties:
/// the block length, the two degrees and the number of parties are ordered,
/// the degrees are powers of two and three, the field is below `2^64`, and
/// the values split into whole blocks.
pub open spec fn sharing_ready(param: ParamView, n: nat, len: nat) -> bool {
    &&& 1 <= param.block_len <= param.d2 <= n <= param.d3
    &&& param.d2 >= 2
    &&& is_pow2(param.d2 as nat)
    &&& is_pow3(param.d3 as nat)
    &&& 2 <= param.prime <= modulus_bound()
    &&& len % (param.block_len as nat) == 0
}

/// `pss` is the sharing that the parameters set up for `n` parties.
pub open spec fn sharing_of(pss: PackedSecretSharing<u128>, param: ParamView, n: nat) -> bool {
    &&& pss.wf()
    &&& pss.prime_spec() == param.prime
    &&& pss.root2_spec() == param.r2
    &&& pss.root3_spec() == param.r3
    &&& pss.degree2_spec() == param.d2
    &&& pss.degree3_spec() == param.d3
    &&& pss.num_secrets_spec() == param.block_len
    &&& pss.num_shares_spec() == n
}

/// `c` is `row` written as little-endian words and encrypted under the key
/// stored for `pk`.
pub open spec fn sealed_for(c: Seq<u8>, keys: Seq<(Vec<u8>, Vec<u8>)>, pk: Seq<u8>, row: Seq<u64>) -> bool {
    exists|k: int| first_key(keys, pk, k) && c == aes256gcm_seal(keys[k].1@, share_nonce(), le_bytes_of_words(row))
}

/// The message of the input-sharing round: for each peer of `order`, its
/// row of the shares of `data`, encrypted under the key shared with it.
pub open spec fn sharing_message(msg: Seq<Vec<u8>>, param: ParamView, keys: Seq<(Vec<u8>, Vec<u8>)>,
    order: Seq<Vec<u8>>, data: Seq<u64>) -> bool {
    &&& msg.len() == order.len()
    &&& exists|pss: PackedSecretSharing<u128>, rand: Seq<Seq<u64>>|
        sharing_of(pss, param, keys.len())
        && #[trigger] block_randomness(pss, rand, (data.len() / (param.block_len as nat)) as nat)
        && forall|i: int| 0 <= i < order.len() ==>
            sealed_for((#[trigger] msg[i])@, keys, order[i]@, share_rows(pss, data, rand)[i])
}

/// A row of shares of `len` values in blocks of `l`, written as words,
/// can be encrypted and held in memory.
pub open spec fn rows_encryptable(len: nat, l: nat) -> bool {
    &&& (len / l) * 8 <= aes_gcm_max_plaintext()
    &&& (len / l) * 8 <= usize::MAX
}

/// The peers and keys are consistent: each peer of `order` has a key of 32
/// bytes, and there are no more peers than keys.
pub open spec fn keys_ready(order: Seq<Vec<u8>>, keys: Seq<(Vec<u8>, Vec<u8>)>) -> bool {
    &&& order.len() <= keys.len()
    &&& forall|i: int| 0 <= i < order.len() ==> has_key(keys, (#[trigger] order[i])@)
    &&& forall|q: int| 0 <= q < keys.len() ==> (#[trigger] keys[q]).1.len() == 32
}

/// Shares `data` block by block among the peers and encrypts the row of
/// each peer of `order` under the key shared with it.
fn share_and_encrypt(param: &Param, data: &Vec<u64>, order: &Vec<Vec<u8>>, keys: &Vec<(Vec<u8>, Vec<u8>)>)
    -> (msg: Vec<Vec<u8>>)
    requires
        sharing_ready(param@, keys.len() as nat, data.len() as nat),
        keys_ready(order@, keys@),
        rows_encryptable(data.len() as nat, param@.block_len as nat),
    ensures
        sharing_message(msg@, param@, keys@, order@, data@),
{
    let N = keys.len();
    let mut pss = PackedSecretSharing::<u128>::new(param.prime(), param.root2(), param.root3(), param.degree2(),
        param.degree3(), param.block_len(), N);
    let ghost pss0 = pss;
    let rows = pss.share_blocks(data);
    let okeys = keys_in_order(order, keys);
    let ghost rand = choose|rand: Seq<Seq<u64>>|
        block_randomness(pss0, rand, (data.len() / pss0.num_secrets_spec()) as nat)
        && #[trigger] share_rows(pss0, data@, rand) == rows_view(rows@);
    proof {
        assert(share_rows(pss0, data@, rand).len() == N);
        assert(rows_view(rows@).len() == rows.len());
        assert(rows.len() == N);
        assert forall|i: int| 0 <= i < okeys.len() implies (#[trigger] rows@[i]).len() * 8 <= aes_gcm_max_plaintext()
            && rows@[i].len() * 8 <= usize::MAX by {
            assert(rows_view(rows@)[i] == rows@[i]@);
            assert(share_rows(pss0, data@, rand)[i].len() == rand.len());
            assert(rand.len() == data.len() / param@.block_len);
        }
        assert forall|q: int| 0 <= q < okeys.len() implies (#[trigger] okeys@[q]).len() == 32 by {
            assert(key_at(keys@, order@[q]@, okeys@[q]@));
        }
    }
    let msg = encrypt_rows(&rows, &okeys);
    proof {
        assert forall|i: int| 0 <= i < order.len() implies
            sealed_for((#[trigger] msg@[i])@, keys@, order@[i]@, share_rows(pss0, data@, rand)[i]) by {
            assert(key_at(keys@, order@[i]@, okeys@[i]@));
            let k = choose|k: int| #[trigger] first_key(keys@, order@[i]@, k) && okeys@[i]@ == keys@[k].1@;
            assert(rows_view(rows@)[i] == rows@[i]@);
            assert(first_key(keys@, order@[i]@, k)
                && msg@[i]@ == aes256gcm_seal(keys@[k].1@, share_nonce(), le_bytes_of_words(share_rows(pss0, data@, rand)[i])));
        }
        assert(sharing_of(pss0, param@, keys.len() as nat));
    }
    msg
}

/// The input-sharing round in the semi-honest setting: the input is shared
/// as it is.
pub fn input_sharing_sh(param: &Param, input: &Vec<u64>, order: &Vec<Vec<u8>>, keys: &Vec<(Vec<u8>, Vec<u8>)>)
    -> (msg: Vec<Vec<u8>>)
    requires
        sharing_ready(param@, keys.len() as nat, input.len() as nat),
        keys_ready(order@, keys@),
        rows_encryptable(input.len() as nat, param@.block_len as nat),
    ensures
        sharing_message(msg@, param@, keys@, order@, input@),
{
    share_and_encrypt(param, input, order, keys)
}

/// The extended input of the malicious setting can be built: block length
/// and field fit, each input has at most `s` bits, the sum of squares fits
/// its bits, and the lengths fit in memory.
pub open spec fn extension_ready(x: Seq<u64>, param: ParamView, s: nat) -> bool {
    &&& param.block_len >= 1
    &&& 0 < param.prime < 0x1_0000_0000_0000_0000
    &&& (s == 0 || x.len() % (param.block_len as nat) == 0)
    &&& forall|i: int| 0 <= i < x.len() ==> bit_len(#[trigger] x[i] as nat) <= s
    &&& bit_len(square_sum(x, param.prime as int, x.len()) as nat) <= y_len(s, x.len(), param.block_len as nat)
    &&& 2 * s + 64 + param.block_len <= usize::MAX
    &&& param.block_len * s <= usize::MAX
    &&& malicious_len(x.len(), param.block_len as nat, s) <= usize::MAX
}

/// The input-sharing round in the malicious setting: the input is extended
/// in place with its squares, the bits of the inputs and of the sum of
/// squares, and the masking blocks (random words from the operating
/// system), and the extended input is shared.
pub fn input_sharing_ml(param: &Param, input: &mut Vec<u64>, S: usize, order: &Vec<Vec<u8>>,
    keys: &Vec<(Vec<u8>, Vec<u8>)>) -> (msg: Vec<Vec<u8>>)
    requires
        extension_ready(old(input)@, param@, S as nat),
        sharing_ready(param@, keys.len() as nat, malicious_len(old(input).len() as nat, param@.block_len as nat, S as nat)),
        keys_ready(order@, keys@),
        rows_encryptable(malicious_len(old(input).len() as nat, param@.block_len as nat, S as nat),
            param@.block_len as nat),
    ensures
        exists|rc: Seq<u64>, rb: Seq<u64>| rc.len() == param@.block_len && rb.len() == param@.block_len - 1
            && #[trigger] malicious_layout(old(input)@, param@.prime as int, param@.block_len as nat, S as nat, rc, rb)
                == final(input)@,
        sharing_message(msg@, param@, keys@, order@, final(input)@),
{
    let L = param.block_len();
    let mut rand_c: Vec<u64> = Vec::new();
    let mut k: usize = 0;
    while k < L
        invariant
            k <= L,
            rand_c.len() == k,
        decreases L - k,
    {
        rand_c.push(os_random_u64());
        k = k + 1;
    }
    let mut rand_b: Vec<u64> = Vec::new();
    let mut k: usize = 0;
    while k < L - 1
        invariant
            L >= 1,
            k <= L - 1,
            rand_b.len() == k,
        decreases L - 1 - k,
    {
        rand_b.push(os_random_u64());
        k = k + 1;
    }
    let _ = build_malicious_input(input, param, S, &rand_c, &rand_b);
    share_and_encrypt(param, input, order, keys)
}

/// The matrix that a broadcast must be (the verifying keys of the
/// handshake, the public keys of the key exchange); anything else is an
/// unexpected message, handed back.
pub fn broadcast_matrix(waitRes: RecvType) -> (r: Result<Vec<Vec<u8>>, ClientError>)
    ensures
        match waitRes {
            RecvType::matrix(m) => r matches Ok(m2) && m2 == m,
            _ => r matches Err(ClientError::UnexpectedRecv(w)) && w == waitRes,
        },
{
    match waitRes {
        RecvType::matrix(m) => Ok(m),
        _ => Err(ClientError::UnexpectedRecv(waitRes)),
    }
}

/// The keys of the key exchange: each public key of the broadcast with the
/// secret agreed with it (`None` where agreement failed); the share order is
/// the order of the broadcast. A failed agreement is an encryption error.
pub fn key_exchange_keys(publicKeys: Vec<Vec<u8>>, shared: Vec<Option<Vec<u8>>>)
    -> (r: Result<(Vec<(Vec<u8>, Vec<u8>)>, Vec<Vec<u8>>), ClientError>)
    requires
        shared.len() == publicKeys.len(),
    ensures
        match r {
            Ok((keys, order)) => {
                &&& order == publicKeys
                &&& keys.len() == publicKeys.len()
                &&& forall|i: int| 0 <= i < keys.len() ==> (#[trigger] keys@[i]).0@ == publicKeys@[i]@
                    && (shared@[i] matches Some(s) && keys@[i].1@ == s@)
            },
            Err(e) => {
                &&& e matches ClientError::EncryptionError(n) && n == 2
                &&& exists|i: int| 0 <= i < shared.len() && (#[trigger] shared@[i]) is None
            },
        },
{
    let mut keys: Vec<(Vec<u8>, Vec<u8>)> = Vec::new();
    let mut i: usize = 0;
    while i < publicKeys.len()
        invariant
            shared.len() == publicKeys.len(),
            i <= publicKeys.len(),
            keys.len() == i,
            forall|q: int| 0 <= q < i ==> (#[trigger] keys@[q]).0@ == publicKeys@[q]@
                && (shared@[q] matches Some(s) && keys@[q].1@ == s@),
        decreases publicKeys.len() - i,
    {
        match &shared[i] {
            Some(s) => {
                let a = publicKeys[i].clone();
                let b = s.clone();
                proof {
                    assert(a@ =~= publicKeys@[i as int]@);
                    assert(b@ =~= s@);
                }
                keys.push((a, b));
            },
            None => {
                proof {
                    assert(shared@[i as int] is None);
                }
                return Err(ClientError::EncryptionError(2));
            },
        }
        i = i + 1;
    }
    Ok((keys, publicKeys))
}

/// The client's secret for the key agreement: an ephemeral P-256 ECDH
/// secret. Its scalar stays inside `p256` and is never read here.
#[verifier::external_body]
pub struct DhSecret {
    inner: p256::ecdh::EphemeralSecret,
}

/// Draws a fresh secret with `p256::ecdh::EphemeralSecret::random` from the
/// operating system's generator. Trusted: nothing is promised of the value,
/// which is chance.
#[verifier::external_body]
pub fn dh_secret_random() -> (s: DhSecret) {
    DhSecret { inner: p256::ecdh::EphemeralSecret::random(&mut rand_core::OsRng) }
}

/// The SEC1 encoding of the secret's public key, from
/// `EphemeralSecret::public_key` and `EncodedPoint::from`. Trusted: P-256
/// encodes points uncompressed (`COMPRESS_POINTS` is false), in 65 bytes.
#[verifier::external_body]
pub fn dh_public_key(s: &DhSecret) -> (pk: Vec<u8>)
    ensures
        pk@.len() == 65,
{
    p256::EncodedPoint::from(s.inner.public_key()).as_bytes().to_vec()
}

/// Whether `bytes` decode, by `p256::PublicKey::from_sec1_bytes`, to a
/// point of the curve: a deterministic function of the bytes.
pub uninterp spec fn sec1_point(bytes: Seq<u8>) -> bool;

/// Agrees on a secret with the peer whose public key has the SEC1 encoding
/// `peer`: `PublicKey::from_sec1_bytes`, then
/// `EphemeralSecret::diffie_hellman` and `SharedSecret::as_bytes`. Trusted:
/// `None` exactly when the bytes are no point on the curve (`sec1_point`),
/// else the 32 bytes of the shared point's x coordinate. Which bytes those
/// are depends on the secret, which is chance, so no more is stated of them.
#[verifier::external_body]
pub fn dh_agree(s: &DhSecret, peer: &Vec<u8>) -> (r: Option<Vec<u8>>)
    ensures
        r is Some <==> sec1_point(peer@),
        r matches Some(k) ==> k@.len() == 32,
{
    match p256::PublicKey::from_sec1_bytes(peer.as_slice()) {
        Ok(point) => Some(s.inner.diffie_hellman(&point).as_bytes().to_vec()),
        Err(_) => None,
    }
}

/// The key-exchange round: agrees on a secret with each public key of the
/// broadcast, keeps each key with its secret, and takes the broadcast's
/// order as the share order. It succeeds exactly when every key of the
/// broadcast is a point of the curve; otherwise it is an encryption error.
pub fn key_exchange_round(s: &DhSecret, publicKeys: Vec<Vec<u8>>)
    -> (r: Result<(Vec<(Vec<u8>, Vec<u8>)>, Vec<Vec<u8>>), ClientError>)
    ensures
        match r {
            Ok((keys, order)) => {
                &&& order == publicKeys
                &&& keys.len() == publicKeys.len()
                &&& forall|i: int| 0 <= i < keys.len() ==> (#[trigger] keys@[i]).0@ == publicKeys@[i]@
                    && keys@[i].1@.len() == 32
            },
            Err(e) => e matches ClientError::EncryptionError(n) && n == 2,
        },
        r is Ok <==> forall|i: int| 0 <= i < publicKeys.len() ==> sec1_point(#[trigger] publicKeys@[i]@),
{
    let mut shared: Vec<Option<Vec<u8>>> = Vec::new();
    let mut i: usize = 0;
    while i < publicKeys.len()
        invariant
            i <= publicKeys.len(),
            shared.len() == i,
            forall|q: int| 0 <= q < i ==> (#[trigger] shared@[q] matches Some(k) ==> k@.len() == 32),
            forall|q: int| 0 <= q < i ==> ((#[trigger] shared@[q]) is Some <==> sec1_point(publicKeys@[q]@)),
        decreases publicKeys.len() - i,
    {
        let k = dh_agree(s, &publicKeys[i]);
        shared.push(k);
        i = i + 1;
    }
    let r = key_exchange_keys(publicKeys, shared);
    proof {
        if r is Ok {
            let keys = r->Ok_0.0;
            assert forall|i: int| 0 <= i < keys.len() implies (#[trigger] keys@[i]).0@ == publicKeys@[i]@
                && keys@[i].1@.len() == 32 by {
                assert(shared@[i] matches Some(k) ==> k@.len() == 32);
            }
            assert forall|i: int| 0 <= i < publicKeys.len() implies sec1_point(#[trigger] publicKeys@[i]@) by {
                assert(keys@[i].0@ == publicKeys@[i]@);
                assert(shared@[i] is Some);
            }
        } else {
            let j = choose|j: int| 0 <= j < shared.len() && (#[trigger] shared@[j]) is None;
            assert(!sec1_point(publicKeys@[j]@));
        }
    }
    r
}

/// What the share collection is told: a broadcast list of dropped clients,
/// a message from the server, or nothing within the polling interval.
pub enum CollectEvent {
    Dropouts(Vec<u64>),
    Message(RecvType),
    Idle,
}

/// Where the share collection stands after an event.
#[derive(Debug, Clone, Copy, PartialEq, Eq)]
pub enum CollectStatus {
    /// More shares are awaited.
    Waiting,
    /// Every peer's share came, or the server announced the dropouts.
    Done,
    /// A share decrypted to a plaintext that is not a sequence of words.
    Malformed,
}

/// The shares a client collects from its peers, one row per peer in share
/// order (a row `[0]` until the peer's share comes), and how many came.
pub struct ShareCollector {
    shares: Vec<Vec<u64>>,
    count: usize,
}

/// The row that stands for a share not received yet.
pub open spec fn missing_row() -> Seq<u64> {
    seq![0u64]
}

impl ShareCollector {
    pub closed spec fn rows(&self) -> Seq<Seq<u64>> {
        rows_view(self.shares@)
    }

    pub closed spec fn received(&self) -> nat {
        self.count as nat
    }

    /// The collection for `n` peers, before any share came.
    pub fn new(n: usize) -> (c: ShareCollector)
        ensures
            c.rows() == Seq::new(n as nat, |i: int| missing_row()),
            c.received() == 0,
    {
        let mut shares: Vec<Vec<u64>> = Vec::new();
        let mut i: usize = 0;
        while i < n
            invariant
                i <= n,
                shares.len() == i,
                rows_view(shares@) == Seq::new(i as nat, |q: int| missing_row()),
            decreases n - i,
        {
            let row: Vec<u64> = vec![0u64];
            proof {
                assert(row@ =~= missing_row());
            }
            let ghost before = shares@;
            shares.push(row);
            i = i + 1;
            proof {
                assert forall|q: int| 0 <= q < i implies #[trigger] rows_view(shares@)[q] == missing_row() by {
                    if q < i - 1 {
                        assert(shares@[q] == before[q]);
                        assert(rows_view(before)[q] == missing_row());
                    }
                }
                assert(rows_view(shares@) =~= Seq::new(i as nat, |q: int| missing_row()));
            }
        }
        ShareCollector { shares, count: 0 }
    }

    /// The collected rows.
    pub fn shares(&self) -> (s: &Vec<Vec<u64>>)
        ensures
            rows_view(s@) == self.rows(),
    {
        &self.shares
    }

    /// Handles one event. Dropouts end the collection, but an empty list is
    /// ignored; a share message is decrypted under the key shared with its
    /// sender and recorded in the sender's row, and the collection ends when
    /// every peer's share came; any other message is unexpected.
    pub fn step(&mut self, order: &Vec<Vec<u8>>, keys: &Vec<(Vec<u8>, Vec<u8>)>, event: CollectEvent)
        -> (r: Result<CollectStatus, ClientError>)
        requires
            old(self).received() < old(self).rows().len(),
            order.len() <= old(self).rows().len(),
            forall|q: int| 0 <= q < keys.len() ==> (#[trigger] keys@[q]).1.len() == 32,
            event matches CollectEvent::Dropouts(d) ==> forall|k: int| 0 <= k < d.len()
                ==> (#[trigger] d@[k]) < old(self).rows().len() && old(self).rows()[d@[k] as int] == missing_row(),
            event matches CollectEvent::Message(RecvType::matrix(m)) ==> m.len() == 2
                && exists|q: int| 0 <= q < order.len() && (#[trigger] order@[q])@ == m@[0]@,
        ensures
            match event {
                CollectEvent::Dropouts(d) => *final(self) == *old(self)
                    && r == Ok::<CollectStatus, ClientError>(if d.len() == 0 { CollectStatus::Waiting } else { CollectStatus::Done }),
                CollectEvent::Idle => *final(self) == *old(self) && r == Ok::<CollectStatus, ClientError>(CollectStatus::Waiting),
                CollectEvent::Message(RecvType::matrix(m)) => match r {
                    Ok(CollectStatus::Malformed) => *final(self) == *old(self) && exists|k: int|
                        #[trigger] first_key(keys@, m@[0]@, k)
                        && (crate::client::aes256gcm_open(keys@[k].1@, share_nonce(), m@[1]@) matches Some(plain)
                        && 0 < plain.len() < 8),
                    Ok(status) => exists|idx: int, k: int| {
                        &&& #[trigger] first_index(order@, m@[0]@, idx)
                        &&& #[trigger] first_key(keys@, m@[0]@, k)
                        &&& crate::client::aes256gcm_open(keys@[k].1@, share_nonce(), m@[1]@) matches Some(plain)
                        &&& final(self).rows() == old(self).rows().update(idx, words(plain))
                        &&& final(self).received() == old(self).received() + 1
                        &&& status == if final(self).received() == old(self).rows().len() { CollectStatus::Done }
                            else { CollectStatus::Waiting }
                    },
                    Err(e) => *final(self) == *old(self) && match e {
                        ClientError::UnidentifiedShare(n) => n == 4
                            && forall|q: int| 0 <= q < keys.len() ==> (#[trigger] keys@[q]).0@ != m@[0]@,
                        ClientError::EncryptionError(n) => n == 4 && exists|k: int| #[trigger] first_key(keys@, m@[0]@, k)
                            && crate::client::aes256gcm_open(keys@[k].1@, share_nonce(), m@[1]@) is None,
                        _ => false,
                    },
                },
                CollectEvent::Message(w) => *final(self) == *old(self)
                    && (r matches Err(ClientError::UnexpectedRecv(w2)) && w2 == w),
            },
    {
        match event {
            CollectEvent::Dropouts(d) => {
                if d.len() == 0 {
                    Ok(CollectStatus::Waiting)
                } else {
                    Ok(CollectStatus::Done)
                }
            },
            CollectEvent::Idle => Ok(CollectStatus::Waiting),
            CollectEvent::Message(msg) => {
                match msg {
                    RecvType::matrix(m) => {
                        match receive_share(order, keys, &m) {
                            Ok((idx, plain)) => {
                                if plain.len() > 0 && plain.len() < 8 {
                                    proof {
                                        let k = choose|k: int| 0 <= k < keys.len() && #[trigger] keys@[k].0@ == m@[0]@
                                            && (forall|q: int| 0 <= q < k ==> (#[trigger] keys@[q]).0@ != m@[0]@)
                                            && crate::client::aes256gcm_open(keys@[k].1@, share_nonce(), m@[1]@) == Some(plain@);
                                        assert(first_key(keys@, m@[0]@, k));
                                    }
                                    return Ok(CollectStatus::Malformed);
                                }
                                let ghost pv = plain@;
                                let row = read_words(plain);
                                let ghost old_rows = self.rows();
                                assert(self.count < self.shares.len());
                                self.shares.set(idx, row);
                                self.count = self.count + 1;
                                proof {
                                    assert(self.rows() =~= old_rows.update(idx as int, words(pv)));
                                    let k = choose|k: int| 0 <= k < keys.len() && #[trigger] keys@[k].0@ == m@[0]@
                                        && (forall|q: int| 0 <= q < k ==> (#[trigger] keys@[q]).0@ != m@[0]@)
                                        && crate::client::aes256gcm_open(keys@[k].1@, share_nonce(), m@[1]@) == Some(pv);
                                    assert(first_key(keys@, m@[0]@, k));
                                    assert(first_index(order@, m@[0]@, idx as int));
                                }
                                if self.count == self.shares.len() {
                                    Ok(CollectStatus::Done)
                                } else {
                                    Ok(CollectStatus::Waiting)
                                }
                            },
                            Err(e) => {
                                proof {
                                    if e matches ClientError::EncryptionError(_) {
                                        let k = choose|k: int| 0 <= k < keys.len() && #[trigger] keys@[k].0@ == m@[0]@
                                            && (forall|q: int| 0 <= q < k ==> (#[trigger] keys@[q]).0@ != m@[0]@)
                                            && crate::client::aes256gcm_open(keys@[k].1@, share_nonce(), m@[1]@) is None;
                                        assert(first_key(keys@, m@[0]@, k));
                                    }
                                }
                                Err(e)
                            },
                        }
                    },
                    _ => Err(ClientError::UnexpectedRecv(msg)),
                }
            },
        }
    }
}

/// The dropped clients of an aggregation broadcast can be read as words,
/// and the first `b` shares of every other client are there.
pub open spec fn aggregation_ready(waitRes: RecvType, shares: Seq<Vec<u64>>, b: nat) -> bool {
    match waitRes {
        RecvType::bytes(m) => (m.len() == 0 || m.len() >= 8) && forall|i: int| 0 <= i < shares.len()
            && !words(m@).contains(i as u64) ==> #[trigger] shares[i].len() >= b,
        _ => true,
    }
}

/// The aggregation round: the broadcast must be the bytes of the dropped
/// clients; the answer is the aggregate of the first `V / L` shares of the
/// other clients, as little-endian words.
pub fn aggregation_round(waitRes: RecvType, shares: &Vec<Vec<u64>>, V: usize, L: usize, P: u128)
    -> (r: Result<Vec<u8>, ClientError>)
    requires
        L >= 1,
        0 < P <= modulus_bound(),
        (V / L) * 8 <= usize::MAX,
        aggregation_ready(waitRes, shares@, (V / L) as nat),
    ensures
        match waitRes {
            RecvType::bytes(m) => r matches Ok(out)
                && out@ == le_bytes_of_words(aggregate_spec(shares@, words(m@), (V / L) as nat, P as int)),
            _ => r matches Err(ClientError::UnexpectedRecv(w)) && w == waitRes,
        },
        match waitRes {
            RecvType::bytes(m) => r matches Ok(out) && words(out@).len() == V / L && forall|j: int| 0 <= j < V / L
                ==> #[trigger] words(out@)[j] as int == crate::sums::sum_to(
                    |i: int| if words(m@).contains(i as u64) { 0 } else { shares@[i]@[j] as int },
                    shares.len() as nat,
                ) % (P as int),
            _ => true,
        },
{
    match waitRes {
        RecvType::bytes(m) => {
            let dropouts = read_words(m);
            let agg = aggregate(shares, &dropouts, V / L, P);
            let out = aggregation_bytes(&agg);
            proof {
                assert(out@ =~= le_bytes_of_words(agg@));
                crate::util::lemma_words_of_le_bytes(agg@);
            }
            Ok(out)
        },
        _ => Err(ClientError::UnexpectedRecv(waitRes)),
    }
}


// ---------------------------------------------------------------------------
// The client's ECDSA keys and signatures
// ---------------------------------------------------------------------------

/// Whether `sk` is a P-256 ECDSA signing key as
/// `p256::ecdsa::SigningKey::from_bytes` reads it: a deterministic function
/// of the bytes.
pub uninterp spec fn ecdsa_secret_ok(sk: Seq<u8>) -> bool;

/// The SEC1 encoding, uncompressed, of the verifying key of the signing key
/// `sk`: a deterministic function of the bytes.
pub uninterp spec fn ecdsa_verifying_key(sk: Seq<u8>) -> Seq<u8>;

/// The ECDSA signature of `msg` with the signing key `sk`, by
/// `Signer::try_sign`, whose nonce is deterministic (RFC 6979): `None` when
/// `sk` is no signing key or the signing fails.
pub uninterp spec fn ecdsa_signature(sk: Seq<u8>, msg: Seq<u8>) -> Option<Seq<u8>>;

/// Whether `p256::ecdsa::SigningKey::from_bytes` reads `sk`, which must be
/// 32 bytes long (`from_bytes` panics on any other length, converting the
/// slice to a fixed array). Trusted: the result is the name
/// `ecdsa_secret_ok`.
#[verifier::external_body]
fn ecdsa_key_parses(sk: &Vec<u8>) -> (ok: bool)
    requires
        sk@.len() == 32,
    ensures
        ok == ecdsa_secret_ok(sk@),
{
    p256::ecdsa::SigningKey::from_bytes(sk.as_slice()).is_ok()
}

/// The verifying key of the signing key `sk`: `VerifyingKey::from` the
/// key that `SigningKey::from_bytes` reads, encoded uncompressed by
/// `to_encoded_point(false)`. Trusted: the result is the name
/// `ecdsa_verifying_key`, 65 bytes long for P-256.
#[verifier::external_body]
fn ecdsa_public_key(sk: &Vec<u8>) -> (vk: Vec<u8>)
    requires
        sk@.len() == 32,
        ecdsa_secret_ok(sk@),
    ensures
        vk@ == ecdsa_verifying_key(sk@),
        vk@.len() == 65,
{
    match p256::ecdsa::SigningKey::from_bytes(sk.as_slice()) {
        Ok(k) => p256::ecdsa::VerifyingKey::from(&k).to_encoded_point(false).as_bytes().to_vec(),
        Err(_) => Vec::new(),
    }
}

/// Signs `msg` with the signing key `sk`: `SigningKey::from_bytes`, then
/// `Signer::try_sign`, the signature as its 64 bytes. Trusted: the result
/// is the name `ecdsa_signature`, and there is none when `sk` is no
/// signing key. `sk` must be 32 bytes long, as for `ecdsa_key_parses`.
#[verifier::external_body]
fn ecdsa_sign(sk: &Vec<u8>, msg: &Vec<u8>) -> (r: Option<Vec<u8>>)
    requires
        sk@.len() == 32,
    ensures
        r is Some ==> ecdsa_secret_ok(sk@),
        match r {
            Some(sig) => ecdsa_signature(sk@, msg@) == Some(sig@) && sig@.len() == 64,
            None => ecdsa_signature(sk@, msg@) is None,
        },
{
    match p256::ecdsa::SigningKey::from_bytes(sk.as_slice()) {
        Ok(k) => match k.try_sign(msg.as_slice()) {
            Ok(sig) => {
                let sig: p256::ecdsa::Signature = sig;
                Some(sig.as_ref().to_vec())
            },
            Err(_) => None,
        },
        Err(_) => None,
    }
}

/// The client's signing key and its verifying key, from the key's 32
/// secret bytes; bytes that are no signing key are an encryption error.
pub fn signing_keys(sk: Vec<u8>) -> (r: Result<(Vec<u8>, Vec<u8>), ClientError>)
    requires
        sk@.len() == 32,
    ensures
        r is Ok <==> ecdsa_secret_ok(sk@),
        match r {
            Ok((k, vk)) => k@ == sk@ && vk@ == ecdsa_verifying_key(sk@),
            Err(e) => e matches ClientError::EncryptionError(n) && n == 1,
        },
{
    if !ecdsa_key_parses(&sk) {
        return Err(ClientError::EncryptionError(1));
    }
    let vk = ecdsa_public_key(&sk);
    Ok((sk, vk))
}

/// The handshake's reply: the 32 bytes of the client's signing key, which
/// must read as a signing key (else an encryption error); any other
/// message is unexpected and handed back.
pub fn handshake_key(msg: RecvType) -> (r: Result<(Vec<u8>, Vec<u8>), ClientError>)
    requires
        msg matches RecvType::bytes(b) ==> b@.len() == 32,
    ensures
        match msg {
            RecvType::bytes(b) => {
                &&& (r is Ok <==> ecdsa_secret_ok(b@))
                &&& match r {
                    Ok((k, vk)) => k@ == b@ && vk@ == ecdsa_verifying_key(b@),
                    Err(e) => e matches ClientError::EncryptionError(n) && n == 1,
                }
            },
            _ => r matches Err(ClientError::UnexpectedRecv(m)) && m == msg,
        },
{
    match msg {
        RecvType::bytes(b) => signing_keys(b),
        _ => Err(ClientError::UnexpectedRecv(msg)),
    }
}

/// The message that sends `payload` signed: the payload, then its ECDSA
/// signature with `sk`; none when there is no signature (`sk` is no
/// signing key, or signing fails).
pub fn signed_message(sk: &Vec<u8>, payload: Vec<u8>) -> (r: Option<Vec<Vec<u8>>>)
    requires
        sk@.len() == 32,
    ensures
        !ecdsa_secret_ok(sk@) ==> r is None,
        match r {
            Some(m) => m.len() == 2 && m@[0]@ == payload@ && ecdsa_signature(sk@, payload@) == Some(m@[1]@),
            None => ecdsa_signature(sk@, payload@) is None,
        },
{
    match ecdsa_sign(sk, &payload) {
        Some(sig) => {
            let ghost pv = payload@;
            let mut m: Vec<Vec<u8>> = Vec::new();
            m.push(payload);
            m.push(sig);
            proof {
                assert(m@[0]@ == pv);
            }
            Some(m)
        },
        None => None,
    }
}

} // verus!
