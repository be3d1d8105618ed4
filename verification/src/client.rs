//! The client's arithmetic in the aggregation protocol: reading the
//! broadcast sharing parameters, laying out and sharing the input, the
//! encryption of shares for each peer, the error-correction tests and the
//! aggregation of the received shares.
use vstd::prelude::*;
use aes_gcm::Aes256Gcm;
use aes_gcm::aead::generic_array::GenericArray;
use aes_gcm::aead::{Aead, NewAead};
use crate::util::{chunk, read_le_u64, write_u64_le_u8, le_byte_of_words, word_at, le_bytes_of_words};
use crate::messages::{ClientError, RecvType, bytes_eq};
use crate::util::{into_be_u64_vec, shift, bit_len};

verus! {

/// The sharing parameters a client receives: the prime, the two roots of
/// unity, the two degrees and the block length.
#[derive(Debug, Clone, Copy)]
pub struct Param {
    P: u128,
    R2: u128,
    R3: u128,
    D2: usize,
    D3: usize,
    L: usize,
}

/// The abstract value of a `Param`.
pub ghost struct ParamView {
    pub prime: u128,
    pub r2: u128,
    pub r3: u128,
    pub d2: usize,
    pub d3: usize,
    pub block_len: usize,
}

impl View for Param {
    type V = ParamView;

    closed spec fn view(&self) -> ParamView {
        ParamView { prime: self.P, r2: self.R2, r3: self.R3, d2: self.D2, d3: self.D3, block_len: self.L }
    }
}

impl Param {
    /// The parameters with the given fields.
    pub fn new(P: u128, R2: u128, R3: u128, D2: usize, D3: usize, L: usize) -> (p: Param)
        ensures
            p@ == (ParamView { prime: P, r2: R2, r3: R3, d2: D2, d3: D3, block_len: L }),
    {
        Param { P, R2, R3, D2, D3, L }
    }

    pub fn prime(&self) -> (r: u128)
        ensures
            r == self@.prime,
    {
        self.P
    }

    pub fn root2(&self) -> (r: u128)
        ensures
            r == self@.r2,
    {
        self.R2
    }

    pub fn root3(&self) -> (r: u128)
        ensures
            r == self@.r3,
    {
        self.R3
    }

    pub fn degree2(&self) -> (r: usize)
        ensures
            r == self@.d2,
    {
        self.D2
    }

    pub fn degree3(&self) -> (r: usize)
        ensures
            r == self@.d3,
    {
        self.D3
    }

    pub fn block_len(&self) -> (r: usize)
        ensures
            r == self@.block_len,
    {
        self.L
    }
}

/// The parameters that six little-endian words encode: prime, the two
/// roots, the two degrees and the block length.
pub open spec fn params_of_bytes(m: Seq<u8>) -> ParamView {
    ParamView {
        prime: word_at(m, 0) as u128,
        r2: word_at(m, 1) as u128,
        r3: word_at(m, 2) as u128,
        d2: word_at(m, 3) as usize,
        d3: word_at(m, 4) as usize,
        block_len: word_at(m, 5) as usize,
    }
}

/// Reads the six little-endian words of the broadcast sharing parameters.
pub fn parse_params(m: Vec<u8>) -> (p: Param)
    requires
        m.len() == 6 * 8,
    ensures
        p@ == params_of_bytes(m@),
{
    let ghost mv = m@;
    let v = read_le_u64(m);
    proof {
        assert forall|k: int| 0 <= k < 6 implies #[trigger] v@[k] == word_at(mv, k) by {
            crate::util::lemma_le_value_u64(chunk(mv, 8, k));
        }
    }
    Param {
        P: v[0] as u128,
        R2: v[1] as u128,
        R3: v[2] as u128,
        D2: v[3] as usize,
        D3: v[4] as usize,
        L: v[5] as usize,
    }
}

/// The parameters from the broadcast of the input-sharing state, which must
/// be bytes (six words); anything else is an unexpected message.
pub fn params_from_broadcast(waitRes: RecvType) -> (r: Result<Param, ClientError>)
    requires
        waitRes matches RecvType::bytes(m) ==> m.len() == 6 * 8,
    ensures
        match waitRes {
            RecvType::bytes(m) => r matches Ok(p) && p@ == params_of_bytes(m@),
            _ => r matches Err(ClientError::UnexpectedRecv(_)),
        },
{
    match waitRes {
        RecvType::bytes(m) => Ok(parse_params(m)),
        _ => Err(ClientError::UnexpectedRecv(waitRes)),
    }
}

// ---------------------------------------------------------------------------
// Aggregation
// ---------------------------------------------------------------------------

/// The sum modulo `p` of entry `j` of the rows `i < n` not listed as dropped,
/// reduced after every addition.
pub open spec fn aggregate_entry(shares: Seq<Vec<u64>>, dropouts: Seq<u64>, j: int, n: nat, p: int) -> int
    decreases n,
{
    if n == 0 {
        0
    } else {
        let a = aggregate_entry(shares, dropouts, j, (n - 1) as nat, p);
        if dropouts.contains((n - 1) as u64) {
            a
        } else {
            (a + shares[n - 1]@[j]) % p
        }
    }
}

/// The client's aggregate: for each of the first `b` entries, the sum modulo
/// `p` over the clients that did not drop out.
pub open spec fn aggregate_spec(shares: Seq<Vec<u64>>, dropouts: Seq<u64>, b: nat, p: int) -> Seq<u64> {
    Seq::new(b, |j: int| aggregate_entry(shares, dropouts, j, shares.len(), p) as u64)
}

/// Law (aggregation): entry `j` of the aggregate is the plain sum, modulo
/// `p`, of entry `j` of every row whose index does not occur anywhere in
/// the dropouts; a listed row contributes nothing.
pub proof fn lemma_aggregate_sums_survivors(shares: Seq<Vec<u64>>, dropouts: Seq<u64>, j: int, n: nat, p: int)
    requires
        p > 0,
    ensures
        aggregate_entry(shares, dropouts, j, n, p) == crate::sums::sum_to(|i: int| if dropouts.contains(i as u64) { 0 } else { shares[i]@[j] as int }, n) % p,
    decreases n,
{
    if n == 0 {
        vstd::arithmetic::div_mod::lemma_small_mod(0, p as nat);
    } else {
        lemma_aggregate_sums_survivors(shares, dropouts, j, (n - 1) as nat, p);
        let t = |i: int| if dropouts.contains(i as u64) { 0 } else { shares[i]@[j] as int };
        let prev = crate::sums::sum_to(t, (n - 1) as nat);
        assert(crate::sums::sum_to(t, n) == prev + t(n - 1));
        if !dropouts.contains((n - 1) as u64) {
            vstd::arithmetic::div_mod::lemma_add_mod_noop_right(shares[n - 1]@[j] as int, prev, p);
        }
    }
}

/// Whether `v` holds `x`.
pub fn vec_contains(v: &Vec<u64>, x: u64) -> (r: bool)
    ensures
        r <==> v@.contains(x),
{
    let mut i: usize = 0;
    while i < v.len()
        invariant
            i <= v.len(),
            forall|k: int| 0 <= k < i ==> v@[k] != x,
        decreases v.len() - i,
    {
        if v[i] == x {
            return true;
        }
        i = i + 1;
    }
    false
}

/// Adds up, entry by entry modulo `P`, the first `B` shares of every client
/// that did not drop out.
pub fn aggregate(shares: &Vec<Vec<u64>>, dropouts: &Vec<u64>, B: usize, P: u128) -> (agg: Vec<u64>)
    requires
        0 < P <= crate::modpow::modulus_bound(),
        forall|i: int| 0 <= i < shares.len() && !dropouts@.contains(i as u64) ==> #[trigger] shares@[i].len() >= B,
    ensures
        agg@ == aggregate_spec(shares@, dropouts@, B as nat, P as int),
        agg.len() == B,
        forall|j: int| 0 <= j < B ==> #[trigger] agg@[j] as int
            == crate::sums::sum_to(|i: int| if dropouts@.contains(i as u64) { 0 } else { shares@[i]@[j] as int }, shares.len() as nat) % (P as int),
{
    let mut aggregation: Vec<u64> = vec![0u64; B];
    let mut i: usize = 0;
    while i < shares.len()
        invariant
            0 < P <= crate::modpow::modulus_bound(),
            forall|q: int| 0 <= q < shares.len() && !dropouts@.contains(q as u64) ==> #[trigger] shares@[q].len() >= B,
            i <= shares.len(),
            aggregation.len() == B,
            forall|j: int| 0 <= j < B ==> #[trigger] aggregation@[j] as int == aggregate_entry(shares@, dropouts@, j, i as nat, P as int),
            forall|j: int| 0 <= j < B ==> #[trigger] aggregate_entry(shares@, dropouts@, j, i as nat, P as int) < P,
        decreases shares.len() - i,
    {
        if !vec_contains(dropouts, i as u64) {
            let mut j: usize = 0;
            while j < B
                invariant
                    0 < P <= crate::modpow::modulus_bound(),
                    i < shares.len(),
                    shares@[i as int].len() >= B,
                    !dropouts@.contains(i as u64),
                    j <= B,
                    aggregation.len() == B,
                    forall|q: int| 0 <= q < j ==> #[trigger] aggregation@[q] as int == aggregate_entry(shares@, dropouts@, q, (i + 1) as nat, P as int),
                    forall|q: int| j <= q < B ==> #[trigger] aggregation@[q] as int == aggregate_entry(shares@, dropouts@, q, i as nat, P as int),
                    forall|q: int| 0 <= q < B ==> #[trigger] aggregate_entry(shares@, dropouts@, q, i as nat, P as int) < P,
                decreases B - j,
            {
                proof {
                    vstd::arithmetic::div_mod::lemma_mod_bound(aggregation@[j as int] + shares@[i as int]@[j as int], P as int);
                }
                let v = ((aggregation[j] as u128 + shares[i][j] as u128) % P) as u64;
                aggregation.set(j, v);
                j = j + 1;
            }
        }
        proof {
            assert forall|j: int| 0 <= j < B implies #[trigger] aggregate_entry(shares@, dropouts@, j, (i + 1) as nat, P as int) < P by {
                assert(aggregate_entry(shares@, dropouts@, j, (i + 1) as nat, P as int) ==
                    if dropouts@.contains(i as u64) { aggregate_entry(shares@, dropouts@, j, i as nat, P as int) }
                    else { (aggregate_entry(shares@, dropouts@, j, i as nat, P as int) + shares@[i as int]@[j]) % (P as int) });
                if !dropouts@.contains(i as u64) {
                    vstd::arithmetic::div_mod::lemma_mod_bound(
                        aggregate_entry(shares@, dropouts@, j, i as nat, P as int) + shares@[i as int]@[j], P as int);
                }
            }
        }
        i = i + 1;
    }
    proof {
        assert(agg_eq(aggregation@, shares@, dropouts@, B as nat, P as int));
        assert forall|j: int| 0 <= j < B implies #[trigger] aggregation@[j] as int
            == crate::sums::sum_to(|i: int| if dropouts@.contains(i as u64) { 0 } else { shares@[i]@[j] as int }, shares.len() as nat) % (P as int) by {
            lemma_aggregate_sums_survivors(shares@, dropouts@, j, shares.len() as nat, P as int);
        }
    }
    aggregation
}

spec fn agg_eq(a: Seq<u64>, shares: Seq<Vec<u64>>, dropouts: Seq<u64>, b: nat, p: int) -> bool {
    a =~= aggregate_spec(shares, dropouts, b, p)
}

/// The aggregate written as little-endian bytes, word after word.
pub fn aggregation_bytes(agg: &Vec<u64>) -> (bytes: Vec<u8>)
    requires
        agg.len() * 8 <= usize::MAX,
    ensures
        bytes.len() == agg.len() * 8,
        forall|i: int| 0 <= i < bytes.len() ==> #[trigger] bytes@[i] == le_byte_of_words(agg@, i),
{
    write_u64_le_u8(agg.as_slice())
}

// ---------------------------------------------------------------------------
// Encryption of shares
// ---------------------------------------------------------------------------

/// What AES-256-GCM encryption of `plaintext` under `key` and `nonce`, with
/// no associated data, returns.
pub uninterp spec fn aes256gcm_seal(key: Seq<u8>, nonce: Seq<u8>, plaintext: Seq<u8>) -> Seq<u8>;

/// What AES-256-GCM decryption of `ciphertext` under `key` and `nonce`, with
/// no associated data, returns; `None` when the tag does not verify.
pub uninterp spec fn aes256gcm_open(key: Seq<u8>, nonce: Seq<u8>, ciphertext: Seq<u8>) -> Option<Seq<u8>>;

/// The longest plaintext that AES-GCM accepts, in bytes.
pub open spec fn aes_gcm_max_plaintext() -> int {
    0x10_0000_0000
}

/// Encrypts with `aes_gcm::Aes256Gcm` (`Aead::encrypt`, no associated
/// data). Trusted: the result is the named function of key, nonce and
/// plaintext, 16 bytes longer than the plaintext. `from_slice` panics
/// unless the key has 32 bytes and the nonce 12, and `encrypt` fails on
/// plaintexts over 2^36 bytes, so those inputs are excluded.
#[verifier::external_body]
fn aes_encrypt(key: &Vec<u8>, nonce: &Vec<u8>, plaintext: &Vec<u8>) -> (r: Vec<u8>)
    requires
        key.len() == 32,
        nonce.len() == 12,
        plaintext.len() <= aes_gcm_max_plaintext(),
    ensures
        r@ == aes256gcm_seal(key@, nonce@, plaintext@),
        r.len() == plaintext.len() + 16,
{
    let cipher = Aes256Gcm::new(GenericArray::from_slice(key.as_slice()));
    cipher.encrypt(GenericArray::from_slice(nonce.as_slice()), plaintext.as_slice()).unwrap()
}

/// Decrypts with `aes_gcm::Aes256Gcm` (`Aead::decrypt`, no associated
/// data). Trusted: the result is the named function of key, nonce and
/// ciphertext, and what `aes_encrypt` produced under the same key and nonce
/// decrypts to its plaintext. Key and nonce lengths are as for encryption.
#[verifier::external_body]
fn aes_decrypt(key: &Vec<u8>, nonce: &Vec<u8>, ciphertext: &Vec<u8>) -> (r: Option<Vec<u8>>)
    requires
        key.len() == 32,
        nonce.len() == 12,
    ensures
        r is Some <==> aes256gcm_open(key@, nonce@, ciphertext@) is Some,
        r matches Some(p) ==> aes256gcm_open(key@, nonce@, ciphertext@) == Some(p@),
        r is Some || forall|pt: Seq<u8>|
            !(pt.len() <= aes_gcm_max_plaintext() && #[trigger] aes256gcm_seal(key@, nonce@, pt) == ciphertext@),
        r matches Some(p) ==> forall|pt: Seq<u8>|
            pt.len() <= aes_gcm_max_plaintext() && #[trigger] aes256gcm_seal(key@, nonce@, pt) == ciphertext@ ==> p@ == pt,
{
    let cipher = Aes256Gcm::new(GenericArray::from_slice(key.as_slice()));
    cipher.decrypt(GenericArray::from_slice(nonce.as_slice()), ciphertext.as_slice()).ok()
}

/// The nonce the clients use for every share: the bytes of `unique nonce`.
pub open spec fn share_nonce() -> Seq<u8> {
    seq![117u8, 110u8, 105u8, 113u8, 117u8, 101u8, 32u8, 110u8, 111u8, 110u8, 99u8, 101u8]
}

pub fn share_nonce_bytes() -> (n: Vec<u8>)
    ensures
        n@ == share_nonce(),
{
    let n: Vec<u8> = vec![117u8, 110u8, 105u8, 113u8, 117u8, 101u8, 32u8, 110u8, 111u8, 110u8, 99u8, 101u8];
    proof {
        assert(n@ =~= share_nonce());
    }
    n
}

/// Encrypts the shares meant for each peer: row `i`, written as
/// little-endian words, under the key `keys[i]` and the share nonce.
pub fn encrypt_rows(rows: &Vec<Vec<u64>>, keys: &Vec<Vec<u8>>) -> (msg: Vec<Vec<u8>>)
    requires
        keys.len() <= rows.len(),
        forall|i: int| 0 <= i < keys.len() ==> (#[trigger] keys@[i]).len() == 32,
        forall|i: int| 0 <= i < keys.len() ==> (#[trigger] rows@[i]).len() * 8 <= aes_gcm_max_plaintext(),
        forall|i: int| 0 <= i < keys.len() ==> (#[trigger] rows@[i]).len() * 8 <= usize::MAX,
    ensures
        msg.len() == keys.len(),
        forall|i: int| 0 <= i < keys.len() ==> (#[trigger] msg@[i])@
            == aes256gcm_seal(keys@[i]@, share_nonce(), le_bytes_of_words(rows@[i]@)),
{
    let nonce = share_nonce_bytes();
    let mut msg: Vec<Vec<u8>> = Vec::new();
    let mut i: usize = 0;
    while i < keys.len()
        invariant
            keys.len() <= rows.len(),
            forall|q: int| 0 <= q < keys.len() ==> (#[trigger] keys@[q]).len() == 32,
            forall|q: int| 0 <= q < keys.len() ==> (#[trigger] rows@[q]).len() * 8 <= aes_gcm_max_plaintext(),
            forall|q: int| 0 <= q < keys.len() ==> (#[trigger] rows@[q]).len() * 8 <= usize::MAX,
            nonce@ == share_nonce(),
            i <= keys.len(),
            msg.len() == i,
            forall|q: int| 0 <= q < i ==> (#[trigger] msg@[q])@
                == aes256gcm_seal(keys@[q]@, share_nonce(), le_bytes_of_words(rows@[q]@)),
        decreases keys.len() - i,
    {
        let bytes = write_u64_le_u8(rows[i].as_slice());
        proof {
            assert(bytes@ =~= le_bytes_of_words(rows@[i as int]@));
        }
        let c = aes_encrypt(&keys[i], &nonce, &bytes);
        msg.push(c);
        i = i + 1;
    }
    msg
}

/// The index of the first of `order` equal to `key`.
pub fn position(order: &Vec<Vec<u8>>, key: &Vec<u8>) -> (r: Option<usize>)
    ensures
        r matches Some(i) ==> i < order.len() && order@[i as int]@ == key@
            && forall|q: int| 0 <= q < i ==> (#[trigger] order@[q])@ != key@,
        r is None ==> forall|q: int| 0 <= q < order.len() ==> (#[trigger] order@[q])@ != key@,
{
    let mut i: usize = 0;
    while i < order.len()
        invariant
            i <= order.len(),
            forall|q: int| 0 <= q < i ==> (#[trigger] order@[q])@ != key@,
        decreases order.len() - i,
    {
        if bytes_eq(&order[i], key) {
            return Some(i);
        }
        i = i + 1;
    }
    None
}

/// The key stored for `pk` in the association list `keys`, the first match.
pub fn find_key(keys: &Vec<(Vec<u8>, Vec<u8>)>, pk: &Vec<u8>) -> (r: Option<usize>)
    ensures
        r matches Some(i) ==> i < keys.len() && keys@[i as int].0@ == pk@
            && forall|q: int| 0 <= q < i ==> (#[trigger] keys@[q]).0@ != pk@,
        r is None ==> forall|q: int| 0 <= q < keys.len() ==> (#[trigger] keys@[q]).0@ != pk@,
{
    let mut i: usize = 0;
    while i < keys.len()
        invariant
            i <= keys.len(),
            forall|q: int| 0 <= q < i ==> (#[trigger] keys@[q]).0@ != pk@,
        decreases keys.len() - i,
    {
        if bytes_eq(&keys[i].0, pk) {
            return Some(i);
        }
        i = i + 1;
    }
    None
}

/// Handles one received share message `[sender's public key, ciphertext]`:
/// the sender's place in the share order, and the plaintext decrypted under
/// the key shared with the sender. A sender without a key is an
/// unidentified share, a ciphertext that does not decrypt an encryption error.
pub fn receive_share(order: &Vec<Vec<u8>>, keys: &Vec<(Vec<u8>, Vec<u8>)>, m: &Vec<Vec<u8>>)
    -> (r: Result<(usize, Vec<u8>), ClientError>)
    requires
        m.len() == 2,
        exists|q: int| 0 <= q < order.len() && (#[trigger] order@[q])@ == m@[0]@,
        forall|q: int| 0 <= q < keys.len() ==> (#[trigger] keys@[q]).1.len() == 32,
    ensures
        match r {
            Ok((idx, plain)) => {
                &&& idx < order.len()
                &&& order@[idx as int]@ == m@[0]@
                &&& forall|q: int| 0 <= q < idx ==> (#[trigger] order@[q])@ != m@[0]@
                &&& exists|k: int| 0 <= k < keys.len() && #[trigger] keys@[k].0@ == m@[0]@
                    && (forall|q: int| 0 <= q < k ==> (#[trigger] keys@[q]).0@ != m@[0]@)
                    && aes256gcm_open(keys@[k].1@, share_nonce(), m@[1]@) == Some(plain@)
            },
            Err(ClientError::UnidentifiedShare(n)) => n == 4
                && forall|q: int| 0 <= q < keys.len() ==> (#[trigger] keys@[q]).0@ != m@[0]@,
            Err(ClientError::EncryptionError(n)) => n == 4
                && exists|k: int| 0 <= k < keys.len() && #[trigger] keys@[k].0@ == m@[0]@
                    && (forall|q: int| 0 <= q < k ==> (#[trigger] keys@[q]).0@ != m@[0]@)
                    && aes256gcm_open(keys@[k].1@, share_nonce(), m@[1]@) is None,
            Err(_) => false,
        },
{
    let idx = match position(order, &m[0]) {
        Some(i) => i,
        None => {
            proof {
                let q = choose|q: int| 0 <= q < order.len() && (#[trigger] order@[q])@ == m@[0]@;
                assert(order@[q]@ != m@[0]@);
            }
            return Err(ClientError::UnidentifiedShare(4));
        },
    };
    let k = match find_key(keys, &m[0]) {
        Some(k) => k,
        None => return Err(ClientError::UnidentifiedShare(4)),
    };
    let nonce = share_nonce_bytes();
    match aes_decrypt(&keys[k].1, &nonce, &m[1]) {
        Some(p) => Ok((idx, p)),
        None => Err(ClientError::EncryptionError(4)),
    }
}


// ---------------------------------------------------------------------------
// Input layout for malicious security
// ---------------------------------------------------------------------------

/// The least `e` with `2^e >= v` (0 for 0 and 1).
pub open spec fn ceil_log2(v: nat) -> nat
    decreases v,
{
    if v <= 1 {
        0
    } else {
        1 + ceil_log2(((v + 1) / 2) as nat)
    }
}

/// The number of bits reserved for the sum of squares: `2 s + ceil(log2 v)`
/// rounded up to a multiple of `l`; none for an empty vector.
pub open spec fn y_len(s: nat, v: nat, l: nat) -> nat {
    if v == 0 {
        0
    } else {
        (((2 * s + ceil_log2(v) + l - 1) / (l as int)) * l) as nat
    }
}

/// The squares of `x` modulo `p`.
pub open spec fn squares(x: Seq<u64>, p: int) -> Seq<u64> {
    Seq::new(x.len(), |i: int| (((x[i] * x[i]) as int) % p) as u64)
}

/// The sum modulo `p` of the first `n` squares of `x`, reduced after every addition.
pub open spec fn square_sum(x: Seq<u64>, p: int, n: nat) -> int
    decreases n,
{
    if n == 0 {
        0
    } else {
        (square_sum(x, p, (n - 1) as nat) + (x[n - 1] * x[n - 1]) % p) % p
    }
}

/// `n` zeros.
pub open spec fn zeros(n: nat) -> Seq<u64> {
    Seq::new(n, |i: int| 0u64)
}

/// The first `n` binary digits of `v`, least significant first.
pub open spec fn bits_of(v: nat, n: nat) -> Seq<u64> {
    Seq::new(n, |i: int| (shift(v, i as nat) % 2) as u64)
}

/// The bits of `x` laid out block by block: for block `b` (of `l` entries),
/// bit `j < s` of each of its entries fills a row of `l` positions.
pub open spec fn x_bits(x: Seq<u64>, l: nat, s: nat, blocks: nat) -> Seq<u64> {
    Seq::new(l * s * blocks, |t: int| {
        let q = t / (l as int);
        let r = t % (l as int);
        let b = q / (s as int);
        let j = q % (s as int);
        (shift(x[b * l + r] as nat, j as nat) % 2) as u64
    })
}

/// `r` reduced entry by entry modulo `p`.
pub open spec fn reduced(r: Seq<u64>, p: int) -> Seq<u64> {
    Seq::new(r.len(), |i: int| ((r[i] as int) % p) as u64)
}

/// The sum modulo `p` of the first `n` reduced entries of `r`.
pub open spec fn reduced_sum(r: Seq<u64>, p: int, n: nat) -> int
    decreases n,
{
    if n == 0 {
        0
    } else {
        (reduced_sum(r, p, (n - 1) as nat) + (r[n - 1] as int) % p) % p
    }
}

/// The extended input of a malicious-secure client: the input `x`, its
/// squares, the sum of squares and zeros to fill a block, the bits of that
/// sum, the bits of every input entry, a block of random values `C`, a
/// block of zeros `A` and a block of random values `B` that sum to zero
/// modulo `p`.
pub open spec fn malicious_layout(x: Seq<u64>, p: int, l: nat, s: nat, rc: Seq<u64>, rb: Seq<u64>) -> Seq<u64> {
    let v = x.len();
    let ysum = square_sum(x, p, v);
    x + squares(x, p) + seq![ysum as u64] + zeros((l - 1) as nat) + bits_of(ysum as nat, y_len(s, v, l))
        + x_bits(x, l, s, v / l) + reduced(rc, p) + zeros(l) + reduced(rb, p)
        + seq![(p - reduced_sum(rb, p, (l - 1) as nat)) as u64]
}

/// The length of the extended input.
pub open spec fn malicious_len(v: nat, l: nat, s: nat) -> nat {
    2 * v + l + y_len(s, v, l) + l * s * (v / l) + 3 * l
}

fn ceil_log2_exec(v: usize) -> (e: usize)
    ensures
        e == ceil_log2(v as nat),
{
    let mut n: u128 = 1;
    let mut e: usize = 0;
    let ghost vv = v as nat;
    while n < v as u128
        invariant
            n == crate::util::pow2n(e as nat),
            e <= ceil_log2(vv),
            vv == v,
            n < 2 * vv || e == 0,
            e < 128,
        decreases ceil_log2(vv) - e,
    {
        proof {
            lemma_ceil_log2(vv, e as nat);
            lemma_ceil_log2(vv, (e + 1) as nat);
            assert(crate::util::pow2n((e + 1) as nat) == 2 * n);
            lemma_ceil_log2_bound(vv);
        }
        n = n * 2;
        e = e + 1;
    }
    proof {
        lemma_ceil_log2(vv, e as nat);
    }
    e
}

proof fn lemma_ceil_log2(v: nat, e: nat)
    ensures
        crate::util::pow2n(e) >= v <==> e >= ceil_log2(v),
    decreases e,
{
    crate::ntt::lemma_pow2n_pos(e);
    if v <= 1 {
    } else if e == 0 {
        assert(crate::util::pow2n(0) == 1);
    } else {
        lemma_ceil_log2(((v + 1) / 2) as nat, (e - 1) as nat);
        assert(crate::util::pow2n(e) == 2 * crate::util::pow2n((e - 1) as nat));
    }
}

pub(crate) proof fn lemma_ceil_log2_bound(v: nat)
    requires
        v <= usize::MAX,
    ensures
        ceil_log2(v) <= 64,
{
    assert(crate::util::pow2n(64) == 0x1_0000_0000_0000_0000) by {
        reveal_with_fuel(crate::util::pow2n, 65);
    }
    lemma_ceil_log2(v, 64);
}

/// The number of bits reserved for the sum of squares.
pub fn y_len_exec(S: usize, V: usize, L: usize) -> (Y: usize)
    requires
        L >= 1,
        2 * S + 64 + L <= usize::MAX,
        y_len(S as nat, V as nat, L as nat) <= usize::MAX,
    ensures
        Y == y_len(S as nat, V as nat, L as nat),
{
    if V == 0 {
        return 0;
    }
    let c = ceil_log2_exec(V);
    proof {
        lemma_ceil_log2_bound(V as nat);
    }
    (2 * S + c + L - 1) / L * L
}

/// The position of bit `j` of entry `i` in the bit layout of blocks of `l`.
proof fn lemma_bit_position(i: int, j: int, l: int, s: int)
    requires
        l >= 1,
        s >= 1,
        i >= 0,
        0 <= j < s,
    ensures
        ({
            let b = i / l;
            let r = i % l;
            let t = (b * s + j) * l + r;
            &&& t / l == b * s + j
            &&& t % l == r
            &&& (t / l) / s == b
            &&& (t / l) % s == j
            &&& b * l + r == i
        }),
{
    let b = i / l;
    let r = i % l;
    vstd::arithmetic::div_mod::lemma_fundamental_div_mod(i, l);
    vstd::arithmetic::div_mod::lemma_mod_bound(i, l);
    assert(b >= 0) by {
        vstd::arithmetic::div_mod::lemma_div_pos_is_pos(i, l);
    }
    crate::ntt::lemma_block_pos(b * s + j, l, r);
    crate::ntt::lemma_block_pos(b, s, j);
    assert(b * l + r == i) by (nonlinear_arith)
        requires i == l * b + r;
}

/// Appends the squares of `x` modulo `p` to `input`; returns their sum modulo `p`.
pub(crate) fn push_squares(input: &mut Vec<u64>, x: &Vec<u64>, p: u128) -> (ysum: u64)
    requires
        0 < p < 0x1_0000_0000_0000_0000,
    ensures
        final(input)@ == old(input)@ + squares(x@, p as int),
        ysum == square_sum(x@, p as int, x.len() as nat),
        ysum < p,
{
    let ghost start = input@;
    let ghost pi = p as int;
    let mut ysum: u64 = 0;
    let mut i: usize = 0;
    while i < x.len()
        invariant
            0 < p < 0x1_0000_0000_0000_0000,
            pi == p as int,
            i <= x.len(),
            input@ == start + squares(x@, pi).subrange(0, i as int),
            ysum == square_sum(x@, pi, i as nat),
            ysum < p,
        decreases x.len() - i,
    {
        let xi = x[i] as u128;
        proof {
            assert(xi * xi < 0x1_0000_0000_0000_0000_0000_0000_0000_0000) by (nonlinear_arith)
                requires xi < 0x1_0000_0000_0000_0000;
            vstd::arithmetic::div_mod::lemma_mod_bound((xi * xi) as int, pi);
        }
        let y = (xi * xi % p) as u64;
        input.push(y);
        proof {
            vstd::arithmetic::div_mod::lemma_mod_bound(ysum + y, pi);
        }
        ysum = ((ysum as u128 + y as u128) % p) as u64;
        i = i + 1;
        proof {
            assert(input@ =~= start + squares(x@, pi).subrange(0, i as int));
        }
    }
    proof {
        assert(squares(x@, pi).subrange(0, x.len() as int) =~= squares(x@, pi));
    }
    ysum
}

/// Appends `n` zeros to `input`.
fn push_zeros(input: &mut Vec<u64>, n: usize)
    ensures
        final(input)@ == old(input)@ + zeros(n as nat),
{
    let ghost start = input@;
    let mut k: usize = 0;
    while k < n
        invariant
            k <= n,
            input@ == start + zeros(k as nat),
        decreases n - k,
    {
        input.push(0u64);
        k = k + 1;
        proof {
            assert(input@ =~= start + zeros(k as nat));
        }
    }
}

/// Appends the entries of `v` to `input`.
fn push_all(input: &mut Vec<u64>, v: &Vec<u64>)
    ensures
        final(input)@ == old(input)@ + v@,
{
    let ghost start = input@;
    let mut k: usize = 0;
    while k < v.len()
        invariant
            k <= v.len(),
            input@ == start + v@.subrange(0, k as int),
        decreases v.len() - k,
    {
        input.push(v[k]);
        k = k + 1;
        proof {
            assert(input@ =~= start + v@.subrange(0, k as int));
        }
    }
    proof {
        assert(v@.subrange(0, v.len() as int) =~= v@);
    }
}

/// Appends the entries of `r` reduced modulo `p` to `input`; returns their sum modulo `p`.
fn push_reduced(input: &mut Vec<u64>, r: &Vec<u64>, p: u128) -> (sum: u64)
    requires
        0 < p < 0x1_0000_0000_0000_0000,
    ensures
        final(input)@ == old(input)@ + reduced(r@, p as int),
        sum == reduced_sum(r@, p as int, r.len() as nat),
        sum < p,
{
    let ghost start = input@;
    let ghost pi = p as int;
    let pw = p as u64;
    let mut sum: u64 = 0;
    let mut k: usize = 0;
    while k < r.len()
        invariant
            0 < p < 0x1_0000_0000_0000_0000,
            pi == p as int,
            pw == p,
            k <= r.len(),
            sum == reduced_sum(r@, pi, k as nat),
            sum < p,
            input@ == start + reduced(r@, pi).subrange(0, k as int),
        decreases r.len() - k,
    {
        let rnd = r[k] % pw;
        input.push(rnd);
        proof {
            vstd::arithmetic::div_mod::lemma_mod_bound(sum + rnd, pi);
        }
        sum = ((sum as u128 + rnd as u128) % p) as u64;
        k = k + 1;
        proof {
            assert(input@ =~= start + reduced(r@, pi).subrange(0, k as int));
        }
    }
    proof {
        assert(reduced(r@, pi).subrange(0, r.len() as int) =~= reduced(r@, pi));
    }
    sum
}

/// The bits of the entries of `x`, laid out block by block: bit `j` of entry
/// `i` goes to position `((i / L) * S + j) * L + i % L`.
fn input_bit_matrix(x: &Vec<u64>, L: usize, S: usize) -> (m: Vec<u64>)
    requires
        L >= 1,
        S == 0 || x.len() % L == 0,
        L * S <= usize::MAX,
        L * S * (x.len() / L) <= usize::MAX,
        forall|q: int| 0 <= q < x.len() ==> bit_len(#[trigger] x@[q] as nat) <= S,
    ensures
        m@ == x_bits(x@, L as nat, S as nat, (x.len() / L) as nat),
{
    let V = x.len();
    let B = V / L;
    let ghost x0 = x@;
    proof {
        if S == 0 {
            assert(L * S * B == 0) by (nonlinear_arith)
                requires S == 0;
        }
    }
    let mut x_bits_v: Vec<u64> = vec![0u64; L * S * B];
    let ghost xb = x_bits(x0, L as nat, S as nat, B as nat);
    let mut i: usize = 0;
    while i < V
        invariant
            x@ == x0,
            V == x0.len(),
            L >= 1,
            B == V / L,
            S == 0 || V % L == 0,
            L * S * B <= usize::MAX,
            S == 0 ==> L * S * B == 0,
            forall|q: int| 0 <= q < V ==> bit_len(#[trigger] x0[q] as nat) <= S,
            xb == x_bits(x0, L as nat, S as nat, B as nat),
            x_bits_v.len() == L * S * B,
            i <= V,
            forall|t: int| 0 <= t < L * S * B ==> #[trigger] x_bits_v@[t] ==
                if ((t / (L as int)) / (S as int)) * L + t % (L as int) < i { xb[t] } else { 0u64 },
        decreases V - i,
    {
        let b = i / L;
        let xi_bits = into_be_u64_vec(x[i], S);
        let mut j: usize = 0;
        while j < S
            invariant
                x@ == x0,
                V == x0.len(),
                i < V,
                L >= 1,
                B == V / L,
                S >= 1 ==> V % L == 0,
                b == i / L,
                L * S * B <= usize::MAX,
                S == 0 ==> L * S * B == 0,
                xb == x_bits(x0, L as nat, S as nat, B as nat),
                xi_bits@.len() == S,
                forall|q: int| 0 <= q < S ==> #[trigger] xi_bits@[q] as nat == shift(x0[i as int] as nat, q as nat) % 2,
                x_bits_v.len() == L * S * B,
                j <= S,
                forall|t: int| 0 <= t < L * S * B ==> #[trigger] x_bits_v@[t] ==
                    if ((t / (L as int)) / (S as int)) * L + t % (L as int) < i
                        || (((t / (L as int)) / (S as int)) * L + t % (L as int) == i && (t / (L as int)) % (S as int) < j) { xb[t] } else { 0u64 },
            decreases S - j,
        {
            proof {
                lemma_bit_position(i as int, j as int, L as int, S as int);
                assert(b < B) by (nonlinear_arith)
                    requires b == i / L, i < V, V % L == 0, B == V / L, L >= 1;
                assert(i - L * b == i % L) by {
                    vstd::arithmetic::div_mod::lemma_fundamental_div_mod(i as int, L as int);
                }
                vstd::arithmetic::div_mod::lemma_mod_bound(i as int, L as int);
                assert((b * S + j) * L + (i - L * b) < L * S * B) by (nonlinear_arith)
                    requires b < B, j < S, i - L * b < L, i - L * b >= 0;
            }
            let t = ((b * S + j) * L) + (i - L * b);
            x_bits_v.set(t, xi_bits[j]);
            proof {
                assert forall|u: int| 0 <= u < L * S * B implies #[trigger] x_bits_v@[u] ==
                    if ((u / (L as int)) / (S as int)) * L + u % (L as int) < i
                        || (((u / (L as int)) / (S as int)) * L + u % (L as int) == i && (u / (L as int)) % (S as int) < j + 1) { xb[u] } else { 0u64 } by {
                    if u == t {
                        assert(xb[u] == (shift(x0[i as int] as nat, j as nat) % 2) as u64);
                    } else {
                        if ((u / (L as int)) / (S as int)) * L + u % (L as int) == i && (u / (L as int)) % (S as int) == j {
                            vstd::arithmetic::div_mod::lemma_fundamental_div_mod(u, L as int);
                            vstd::arithmetic::div_mod::lemma_fundamental_div_mod(u / (L as int), S as int);
                            assert(u == t) by (nonlinear_arith)
                                requires u == (L as int) * (u / (L as int)) + u % (L as int),
                                    u / (L as int) == (S as int) * ((u / (L as int)) / (S as int)) + (u / (L as int)) % (S as int),
                                    ((u / (L as int)) / (S as int)) * L + u % (L as int) == i,
                                    (u / (L as int)) % (S as int) == j,
                                    t == (b * S + j) * L + (i - L * b),
                                    b == i / L,
                                    i - L * b == i % L,
                                    i == L * (i / L) + i % L;
                        }
                    }
                }
            }
            j = j + 1;
        }
        proof {
            assert forall|u: int| 0 <= u < L * S * B implies #[trigger] x_bits_v@[u] ==
                if ((u / (L as int)) / (S as int)) * L + u % (L as int) < i + 1 { xb[u] } else { 0u64 } by {
                if ((u / (L as int)) / (S as int)) * L + u % (L as int) == i {
                    assert(S >= 1) by (nonlinear_arith)
                        requires 0 <= u < L * S * B;
                    vstd::arithmetic::div_mod::lemma_mod_bound(u / (L as int), S as int);
                }
            }
        }
        i = i + 1;
    }
    proof {
        assert forall|t: int| 0 <= t < L * S * B implies #[trigger] x_bits_v@[t] == xb[t] by {
            let q = t / (L as int);
            vstd::arithmetic::div_mod::lemma_fundamental_div_mod(t, L as int);
            vstd::arithmetic::div_mod::lemma_mod_bound(t, L as int);
            assert(S >= 1) by (nonlinear_arith)
                requires 0 <= t < L * S * B;
            vstd::arithmetic::div_mod::lemma_fundamental_div_mod(q, S as int);
            vstd::arithmetic::div_mod::lemma_mod_bound(q, S as int);
            vstd::arithmetic::div_mod::lemma_fundamental_div_mod(V as int, L as int);
            assert((q / (S as int)) * L + t % (L as int) < V) by (nonlinear_arith)
                requires t == (L as int) * q + t % (L as int), q == (S as int) * (q / (S as int)) + q % (S as int),
                    0 <= q % (S as int), 0 <= t % (L as int) < L, t < L * S * B, B == V / L, V % L == 0, L >= 1,
                    V == L * (V / L) + V % L;
        }
        assert(x_bits_v@ =~= xb);
    }
    x_bits_v
}

/// Appends to `input` (the `V` input entries) the blocks that the
/// malicious-secure tests need, with `rand_c` and `rand_b` as the raw
/// random words; returns the number of bits reserved for the sum of squares.
pub fn build_malicious_input(input: &mut Vec<u64>, param: &Param, S: usize, rand_c: &Vec<u64>, rand_b: &Vec<u64>)
    -> (Y: usize)
    requires
        param@.block_len >= 1,
        0 < param@.prime < 0x1_0000_0000_0000_0000,
        S == 0 || old(input).len() % param@.block_len == 0,
        forall|i: int| 0 <= i < old(input).len() ==> bit_len(#[trigger] old(input)@[i] as nat) <= S,
        bit_len(square_sum(old(input)@, param@.prime as int, old(input).len() as nat) as nat)
            <= y_len(S as nat, old(input).len() as nat, param@.block_len as nat),
        rand_c.len() == param@.block_len,
        rand_b.len() == param@.block_len - 1,
        2 * S + 64 + param@.block_len <= usize::MAX,
        param@.block_len * S <= usize::MAX,
        malicious_len(old(input).len() as nat, param@.block_len as nat, S as nat) <= usize::MAX,
    ensures
        final(input)@ == malicious_layout(old(input)@, param@.prime as int, param@.block_len as nat, S as nat, rand_c@, rand_b@),
        final(input).len() == malicious_len(old(input).len() as nat, param@.block_len as nat, S as nat),
        Y == y_len(S as nat, old(input).len() as nat, param@.block_len as nat),
{
    let ghost x0 = input@;
    let V = input.len();
    let L = param.L;
    let p = param.P;
    let ghost pi = p as int;
    proof {
        assert(y_len(S as nat, V as nat, L as nat) <= usize::MAX && L * S * (V / L) <= usize::MAX) by (nonlinear_arith)
            requires malicious_len(V as nat, L as nat, S as nat) == 2 * V + L + y_len(S as nat, V as nat, L as nat) + L * S * (V / L) + 3 * L,
                malicious_len(V as nat, L as nat, S as nat) <= usize::MAX,
                L * S * (V / L) >= 0;
    }
    let Y = y_len_exec(S, V, L);
    let x = input.clone();
    proof {
        assert(x@ =~= x0);
    }
    let ySum = push_squares(input, &x, p);
    input.push(ySum);
    push_zeros(input, L - 1);
    let yBitArr = into_be_u64_vec(ySum, Y);
    proof {
        assert(yBitArr@ =~= bits_of(ySum as nat, Y as nat));
    }
    push_all(input, &yBitArr);
    let x_bits_v = input_bit_matrix(&x, L, S);
    push_all(input, &x_bits_v);
    let _ = push_reduced(input, rand_c, p);
    push_zeros(input, L);
    let rand_sum = push_reduced(input, rand_b, p);
    input.push((p as u64) - rand_sum);
    proof {
        assert(input@ =~= malicious_layout(x0, pi, L as nat, S as nat, rand_c@, rand_b@));
    }
    Y
}

} // verus!
