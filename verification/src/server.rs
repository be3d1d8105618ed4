//! The server's protocol states and the decisions its workers and its main
//! loop take: which task a state calls for, when the handshake is over, and
//! whether a client may still register.
use vstd::prelude::*;
use crate::modpow::{ModPow, modpow_value, modulus_bound};
use crate::param::Param;
use crate::messages::RecvType;
use crate::util::{read_le_u64, words};
use p256::ecdsa::signature::Verifier;

verus! {

/// The most clients the server registers.
pub const MAX_CLIENTS: u64 = 8;

/// The number of worker threads the server runs.
pub const NUM_WORKERS: u64 = 8;

/// The protocol state of the server.
#[derive(Debug, Clone, Copy, PartialEq, Eq, Structural)]
pub enum ServerState {
    Default,
    Handshake,
    KeyExchange,
    InputSharing,
}

impl Default for ServerState {
    fn default() -> (s: ServerState)
        ensures
            s == ServerState::Default,
    {
        ServerState::Default
    }
}

/// What the server sends out of turn.
#[derive(Debug, Clone, Copy, PartialEq, Eq, Structural)]
pub enum ServerMessage {
    InputForward,
}

/// A client's request in the input-sharing round: its encrypted shares.
pub struct InputSharingReq {
    shares: Vec<u8>,
}

impl InputSharingReq {
    pub closed spec fn shares_spec(&self) -> Seq<u8> {
        self.shares@
    }

    /// The request carrying `shares`.
    pub fn new(shares: Vec<u8>) -> (r: InputSharingReq)
        ensures
            r.shares_spec() == shares@,
    {
        InputSharingReq { shares }
    }

    /// The encrypted shares.
    pub fn shares(&self) -> (s: &Vec<u8>)
        ensures
            s@ == self.shares_spec(),
    {
        &self.shares
    }
}

/// The work a worker does in a state.
#[derive(Debug, Clone, Copy, PartialEq, Eq, Structural)]
pub enum Task {
    Handshake,
    KeyExchange,
    InputSharing,
    Nothing,
}

/// The task a worker runs in `state`: the round of that state, and nothing
/// before the protocol starts.
pub fn task_for(state: ServerState) -> (t: Task)
    ensures
        t == match state {
            ServerState::Handshake => Task::Handshake,
            ServerState::KeyExchange => Task::KeyExchange,
            ServerState::InputSharing => Task::InputSharing,
            ServerState::Default => Task::Nothing,
        },
{
    match state {
        ServerState::Handshake => Task::Handshake,
        ServerState::KeyExchange => Task::KeyExchange,
        ServerState::InputSharing => Task::InputSharing,
        ServerState::Default => Task::Nothing,
    }
}

/// The state after the handshake round has seen `registered` clients,
/// starting from `state`: the key exchange once the server is full, the
/// state unchanged until then.
pub fn handshake_transit(state: ServerState, registered: usize) -> (s: ServerState)
    ensures
        s == if registered >= MAX_CLIENTS { ServerState::KeyExchange } else { state },
{
    if registered as u64 >= MAX_CLIENTS {
        ServerState::KeyExchange
    } else {
        state
    }
}

/// Whether one more client may register when `registered` already have.
pub fn may_register(registered: usize) -> (ok: bool)
    ensures
        ok == (registered < MAX_CLIENTS),
{
    (registered as u64) < MAX_CLIENTS
}

/// A client's shares in the input-sharing round have the expected shape:
/// one row per client, the first of `5 B` bytes.
pub fn sharing_matrix_ok(m: &Vec<Vec<u8>>, M: usize, B: usize) -> (ok: bool)
    requires
        M > 0 || m.len() != M,
        5 * B <= usize::MAX,
    ensures
        ok == (m.len() == M && m@[0].len() == 5 * B),
{
    !(m.len() != M || m[0].len() != 5 * B)
}

/// The messages that forward a client's shares: row `i` goes out with the
/// sender's public key in front, so that its receiver knows the key to use.
pub fn forward_shares(sender_pk: &Vec<u8>, shares: &Vec<Vec<u8>>) -> (msgs: Vec<Vec<Vec<u8>>>)
    ensures
        msgs.len() == shares.len(),
        forall|i: int| 0 <= i < shares.len() ==> (#[trigger] msgs@[i]).len() == 2
            && msgs@[i]@[0]@ == sender_pk@ && msgs@[i]@[1]@ == shares@[i]@,
{
    let mut msgs: Vec<Vec<Vec<u8>>> = Vec::new();
    let mut i: usize = 0;
    while i < shares.len()
        invariant
            i <= shares.len(),
            msgs.len() == i,
            forall|q: int| 0 <= q < i ==> (#[trigger] msgs@[q]).len() == 2
                && msgs@[q]@[0]@ == sender_pk@ && msgs@[q]@[1]@ == shares@[q]@,
        decreases shares.len() - i,
    {
        let a = sender_pk.clone();
        let b = shares[i].clone();
        proof {
            assert(a@ =~= sender_pk@);
            assert(b@ =~= shares@[i as int]@);
        }
        let mut m: Vec<Vec<u8>> = Vec::new();
        m.push(a);
        m.push(b);
        msgs.push(m);
        i = i + 1;
    }
    msgs
}

/// The test vectors a client sends in the error-correction round have the
/// expected shape: one row of `M` bytes.
pub fn test_matrix_ok(m: &Vec<Vec<u8>>, M: usize) -> (ok: bool)
    ensures
        ok == (m.len() == 1 && m@[0].len() == M),
{
    !(m.len() != 1 || m[0].len() != M)
}

/// Whether `v` holds `x`.
fn contains_usize(v: &Vec<usize>, x: usize) -> (r: bool)
    ensures
        r <==> v@.contains(x),
{
    let mut i: usize = 0;
    while i < v.len()
        invariant
            i <= v.len(),
            forall|k: int| 0 <= k < i ==> v@[k] != x,
        decreases v.len() - i,
    {
        if v[i] == x {
            return true;
        }
        i = i + 1;
    }
    false
}

/// The evaluation points `r3^i mod p` of the parties `i < d` that did not
/// drop out, in order.
pub open spec fn surviving_points(d: nat, dropouts: Seq<usize>, r3: int, p: int) -> Seq<u128>
    decreases d,
{
    if d == 0 {
        Seq::empty()
    } else {
        let before = surviving_points((d - 1) as nat, dropouts, r3, p);
        if dropouts.contains((d - 1) as usize) {
            before
        } else {
            before.push(modpow_value(r3, (d - 1) as nat, p) as u128)
        }
    }
}

/// Law (reconstruction points): the points of the parties `i < d` that did
/// not drop out are `r3^i mod p` for exactly the indices `i < d` that occur
/// nowhere in the dropouts, in increasing order of `i`.
pub proof fn lemma_surviving_points_filter(d: nat, dropouts: Seq<usize>, r3: int, p: int)
    ensures
        surviving_points(d, dropouts, r3, p) == Seq::new(d, |i: int| i).filter(
            |i: int| !dropouts.contains(i as usize),
        ).map_values(|i: int| modpow_value(r3, i as nat, p) as u128),
    decreases d,
{
    reveal(Seq::filter);
    let s = Seq::new(d, |i: int| i);
    if d == 0 {
        assert(s.filter(|i: int| !dropouts.contains(i as usize)) =~= Seq::<int>::empty());
        assert(s.filter(|i: int| !dropouts.contains(i as usize)).map_values(
            |i: int| modpow_value(r3, i as nat, p) as u128) =~= Seq::<u128>::empty());
    } else {
        lemma_surviving_points_filter((d - 1) as nat, dropouts, r3, p);
        let prev = Seq::new((d - 1) as nat, |i: int| i);
        assert(s.drop_last() =~= prev);
        assert(s.last() == d - 1);
        let fp = prev.filter(|i: int| !dropouts.contains(i as usize));
        let f = |i: int| modpow_value(r3, i as nat, p) as u128;
        if !dropouts.contains((d - 1) as usize) {
            assert(fp.push(d - 1).map_values(f) =~= fp.map_values(f).push(f(d - 1)));
        }
    }
}

/// The points at which the reconstruction interpolates: the powers of the
/// radix-3 generator in use for the parties below the radix-2 degree in
/// use that did not drop out.
pub fn reconstruction_points(param: &Param, dropouts: &Vec<usize>) -> (pts: Vec<u128>)
    requires
        param@.prime > 0,
    ensures
        pts@ == surviving_points(param@.use_d2, dropouts@, param@.use_r3 as int, param@.prime as int),
        pts@ == Seq::new(param@.use_d2 as nat, |i: int| i).filter(|i: int| !dropouts@.contains(i as usize)).map_values(
            |i: int| modpow_value(param@.use_r3 as int, i as nat, param@.prime as int) as u128,
        ),
{
    let d = param.use_d2();
    let r3 = param.use_r3() as u128;
    let p = param.prime() as u128;
    let mut pts: Vec<u128> = Vec::new();
    let mut i: usize = 0;
    while i < d
        invariant
            d == param@.use_d2,
            r3 == param@.use_r3,
            p == param@.prime,
            0 < p <= modulus_bound(),
            i <= d,
            pts@ == surviving_points(i as nat, dropouts@, r3 as int, p as int),
        decreases d - i,
    {
        if !contains_usize(dropouts, i) {
            let v = r3.modpow(&(i as u128), &p);
            pts.push(v);
        }
        i = i + 1;
    }
    proof {
        lemma_surviving_points_filter(d as nat, dropouts@, r3 as int, p as int);
    }
    pts
}

/// The degree of the polynomial with coefficients `c`, lowest first: the
/// index of its last non-zero coefficient among the first `n`, 0 if there
/// is none.
pub open spec fn degree_below(c: Seq<i128>, n: nat) -> nat
    decreases n,
{
    if n == 0 {
        0
    } else if c[n - 1] != 0 {
        (n - 1) as nat
    } else {
        degree_below(c, (n - 1) as nat)
    }
}

/// The degree of the polynomial with coefficients `c`, as
/// `polynomials::Polynomial::degree` computes it.
pub fn poly_degree(c: &Vec<i128>) -> (d: usize)
    ensures
        d == degree_below(c@, c.len() as nat),
{
    let mut deg: usize = c.len();
    while deg > 0
        invariant
            deg <= c.len(),
            forall|k: int| deg <= k < c.len() ==> c@[k] == 0,
            degree_below(c@, c.len() as nat) == degree_below(c@, deg as nat),
        decreases deg,
    {
        if c[deg - 1] != 0 {
            return deg - 1;
        }
        deg = deg - 1;
    }
    0
}

/// Whether the interpolation of the shares `poly` has the radix-2 degree in
/// use. The interpolation leaves out zero entries; with any non-zero entry
/// it indexes before the first partial product and panics, so only the
/// all-zero input is accepted, which interpolates to the zero polynomial.
pub fn lagrange_degree(poly: &Vec<u64>, param: &Param) -> (r: bool)
    requires
        forall|i: int| 0 <= i < poly.len() ==> poly@[i] == 0,
    ensures
        r == (param@.use_d2 == 0),
{
    let construction: Vec<i128> = vec![0i128];
    proof {
        assert(construction@[0] == 0);
        assert(degree_below(construction@, 0) == 0);
        assert(degree_below(construction@, 1) == 0);
    }
    poly_degree(&construction) == param.use_d2()
}


// ---------------------------------------------------------------------------
// The error-correction verdict
// ---------------------------------------------------------------------------

/// The parties, among the first `n`, whose correction rows are empty: they
/// dropped out.
pub open spec fn empty_rows(rows: Seq<Vec<u64>>, n: nat) -> Seq<usize>
    decreases n,
{
    if n == 0 {
        Seq::empty()
    } else if rows[n - 1].len() == 0 {
        empty_rows(rows, (n - 1) as nat).push((n - 1) as usize)
    } else {
        empty_rows(rows, (n - 1) as nat)
    }
}

/// The rows, among the first `n`, that are not empty, in order.
pub open spec fn present_rows(rows: Seq<Vec<u64>>, n: nat) -> Seq<Seq<u64>>
    decreases n,
{
    if n == 0 {
        Seq::empty()
    } else if rows[n - 1].len() == 0 {
        present_rows(rows, (n - 1) as nat)
    } else {
        present_rows(rows, (n - 1) as nat).push(rows[n - 1]@)
    }
}

/// The evaluation points of the parties, among the first `n`, whose rows
/// are not empty: party `j` evaluates at `r3^(j+1) mod p`.
pub open spec fn present_points(rows: Seq<Vec<u64>>, n: nat, r3: int, p: int) -> Seq<u64>
    decreases n,
{
    if n == 0 {
        Seq::empty()
    } else if rows[n - 1].len() == 0 {
        present_points(rows, (n - 1) as nat, r3, p)
    } else {
        present_points(rows, (n - 1) as nat, r3, p).push(modpow_value(r3, n as nat, p) as u64)
    }
}

/// Sorts the parties' correction rows before the reconstruction: the
/// parties with empty rows are appended to `dropout`, and the others' rows
/// are returned with their evaluation points `r3^(j+1) mod p`.
pub fn gather_corrections(corrections: &Vec<Vec<u64>>, param: &Param, dropout: &mut Vec<usize>)
    -> (r: (Vec<u64>, Vec<Vec<u64>>))
    requires
        param@.prime > 0,
    ensures
        final(dropout)@ == old(dropout)@ + empty_rows(corrections@, corrections.len() as nat),
        r.0@ == present_points(corrections@, corrections.len() as nat, param@.use_r3 as int, param@.prime as int),
        r.1@.map_values(|row: Vec<u64>| row@) == present_rows(corrections@, corrections.len() as nat),
{
    let M = corrections.len();
    let p = param.prime() as u128;
    let r3 = param.use_r3() as u128;
    let mut points: Vec<u64> = Vec::new();
    let mut rows: Vec<Vec<u64>> = Vec::new();
    let ghost d0 = dropout@;
    let mut j: usize = 0;
    while j < M
        invariant
            M == corrections.len(),
            p == param@.prime,
            r3 == param@.use_r3,
            0 < p <= modulus_bound(),
            j <= M,
            dropout@ == d0 + empty_rows(corrections@, j as nat),
            points@ == present_points(corrections@, j as nat, r3 as int, p as int),
            rows@.map_values(|row: Vec<u64>| row@) == present_rows(corrections@, j as nat),
        decreases M - j,
    {
        if corrections[j].len() == 0 {
            dropout.push(j);
            proof {
                assert(dropout@ =~= d0 + empty_rows(corrections@, (j + 1) as nat));
            }
        } else {
            let v = r3.modpow(&((j + 1) as u128), &p);
            points.push(v as u64);
            rows.push(corrections[j].clone());
            proof {
                assert(rows@.map_values(|row: Vec<u64>| row@) =~= present_rows(corrections@, (j + 1) as nat));
            }
        }
        j = j + 1;
    }
    (points, rows)
}

/// The error-correction tests pass on the reconstructed values: entries
/// `l` to `2l` (the input-bit, quadratic and norm-bit tests) are zero, and
/// entries `2l` to `3l` (the input-bound, norm-sum and norm-bound tests)
/// sum to zero modulo `p`, the sum reduced after every addition.
pub open spec fn tests_pass(result: Seq<u64>, l: nat, p: int) -> bool {
    &&& forall|i: int| l <= i < 2 * l ==> #[trigger] result[i] == 0
    &&& crate::correction::mod_sum(|i: int| result[2 * l + i] as int, l, p) == 0
}

/// Law (verdict): the tests pass exactly when every value from index `l`
/// up to `2 l` (index `l` included) is zero and the values from `2 l` up to
/// `3 l` add up to a multiple of `p`.
pub proof fn lemma_tests_pass_means(result: Seq<u64>, l: nat, p: int)
    requires
        p > 0,
    ensures
        tests_pass(result, l, p) <==> ((forall|i: int| l <= i < 2 * l ==> #[trigger] result[i] == 0)
            && crate::sums::sum_to(|i: int| result[2 * l + i] as int, l) % p == 0),
{
    crate::correction::lemma_mod_sum_is_sum(|i: int| result[2 * l + i] as int, l, p);
}

/// Whether the reconstructed error-correction values pass the tests.
pub fn tests_verdict(result: &Vec<u64>, L: usize, P: u64) -> (ok: bool)
    requires
        result.len() >= 3 * L,
        P > 0,
    ensures
        ok == tests_pass(result@, L as nat, P as int),
        ok <==> ((forall|i: int| L <= i < 2 * L ==> #[trigger] result@[i] == 0)
            && crate::sums::sum_to(|i: int| result@[2 * L + i] as int, L as nat) % (P as int) == 0),
{
    proof {
        lemma_tests_pass_means(result@, L as nat, P as int);
    }
    let p = P as u128;
    let ghost f = |i: int| result@[2 * L + i] as int;
    let mut sum: u128 = 0;
    let mut i: usize = 0;
    while i < L
        invariant
            result.len() >= 3 * L,
            p == P,
            p > 0,
            i <= L,
            sum == crate::correction::mod_sum(f, i as nat, p as int),
            sum < p,
            f == (|i: int| result@[2 * L + i] as int),
        decreases L - i,
    {
        sum = (sum + result[2 * L + i] as u128) % p;
        i = i + 1;
    }
    let mut k: usize = L;
    while k < 2 * L
        invariant
            result.len() >= 3 * L,
            L <= k <= 2 * L,
            forall|j: int| L <= j < k ==> #[trigger] result@[j] == 0,
        decreases 2 * L - k,
    {
        if result[k] != 0 {
            return false;
        }
        k = k + 1;
    }
    sum == 0
}


// ---------------------------------------------------------------------------
// Signed messages
// ---------------------------------------------------------------------------

/// Errors of the server's workers, each with the round's number.
#[derive(Debug, Clone, Copy, PartialEq, Eq, Structural)]
pub enum WorkerError {
    UnexpectedFormat(usize),
    DecryptionFail(usize),
}

/// Whether `sig` is a valid P-256 ECDSA signature of `msg` under the
/// verifying key with SEC1 encoding `vk`, as `p256::ecdsa` decides.
pub uninterp spec fn ecdsa_valid(vk: Seq<u8>, msg: Seq<u8>, sig: Seq<u8>) -> bool;

/// Checks a signature with `p256::ecdsa::VerifyingKey::from_sec1_bytes`,
/// `Signature::try_from` and `Verifier::verify`. Trusted: the answer is the
/// named function of the three byte strings; a key or signature that does
/// not parse gives `false`.
#[verifier::external_body]
fn ecdsa_verify(vk: &Vec<u8>, msg: &Vec<u8>, sig: &Vec<u8>) -> (ok: bool)
    ensures
        ok == ecdsa_valid(vk@, msg@, sig@),
{
    match (p256::ecdsa::VerifyingKey::from_sec1_bytes(vk.as_slice()), p256::ecdsa::Signature::try_from(sig.as_slice())) {
        (Ok(key), Ok(signature)) => key.verify(msg.as_slice(), &signature).is_ok(),
        _ => false,
    }
}

/// What a client's signed message `[payload, signature]` in round `n`
/// yields under the verifying key `vk`: the payload when the signature
/// verifies, a decryption failure when not, and a format error for any
/// other message.
pub open spec fn signed_payload(msg: RecvType, vk: Seq<u8>, n: usize) -> Result<Seq<u8>, WorkerError> {
    match msg {
        RecvType::matrix(m) => if m.len() != 2 {
            Err(WorkerError::UnexpectedFormat(n))
        } else if ecdsa_valid(vk, m[0]@, m[1]@) {
            Ok(m[0]@)
        } else {
            Err(WorkerError::DecryptionFail(n))
        },
        _ => Err(WorkerError::UnexpectedFormat(n)),
    }
}

/// The key-exchange request of a client: its Diffie-Hellman public key and
/// the signature of that key under the client's verifying key `vk`. The key
/// is accepted only with a valid signature.
pub fn key_exchange_request(msg: RecvType, vk: &Vec<u8>) -> (r: Result<Vec<u8>, WorkerError>)
    ensures
        match (r, signed_payload(msg, vk@, 2)) {
            (Ok(k), Ok(e)) => k@ == e,
            (Err(a), Err(b)) => a == b,
            _ => false,
        },
{
    match msg {
        RecvType::matrix(m) => {
            if m.len() != 2 {
                return Err(WorkerError::UnexpectedFormat(2));
            }
            if ecdsa_verify(vk, &m[0], &m[1]) {
                Ok(m[0].clone())
            } else {
                Err(WorkerError::DecryptionFail(2))
            }
        },
        _ => Err(WorkerError::UnexpectedFormat(2)),
    }
}

/// The share collection of a client: its aggregated shares and their
/// signature under the client's verifying key `vk`. With a valid signature
/// the shares are decoded as little-endian words; `None` where decoding
/// would fail, on a non-empty payload shorter than one word.
pub fn shares_collection(msg: RecvType, vk: &Vec<u8>) -> (r: Option<Result<Vec<u64>, WorkerError>>)
    ensures
        match signed_payload(msg, vk@, 5) {
            Ok(e) => if 0 < e.len() < 8 {
                r is None
            } else {
                r matches Some(Ok(v)) && v@ == words(e)
            },
            Err(b) => r matches Some(Err(a)) && a == b,
        },
{
    match msg {
        RecvType::matrix(m) => {
            if m.len() != 2 {
                return Some(Err(WorkerError::UnexpectedFormat(5)));
            }
            if ecdsa_verify(vk, &m[0], &m[1]) {
                let payload = m[0].clone();
                if payload.len() > 0 && payload.len() < 8 {
                    None
                } else {
                    Some(Ok(read_le_u64(payload)))
                }
            } else {
                Some(Err(WorkerError::DecryptionFail(5)))
            }
        },
        _ => Some(Err(WorkerError::UnexpectedFormat(5))),
    }
}

} // verus!
