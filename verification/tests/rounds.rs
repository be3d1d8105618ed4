use secure_aggregation::client::{Param, receive_share};
use secure_aggregation::correction::{TestRandomness, parse_test_randomness, error_correction_tests, tests_ready, row_ready, row_tests_exec,
    sizes_ready};
use secure_aggregation::messages::{RecvType, ClientError};
use secure_aggregation::rounds::{
    keys_in_order, input_sharing_sh, input_sharing_ml, broadcast_matrix, key_exchange_keys, ShareCollector,
    CollectEvent, CollectStatus, aggregation_round,
};
use secure_aggregation::util::read_le_u64;
use secure_aggregation::pss::PackedSecretSharing;

const P: u128 = 3073700804129980417;
const R2: u128 = 414345200490731620;
const R3: u128 = 1697820560572790570;

fn words_bytes(v: &[u64]) -> Vec<u8> {
    let mut out = Vec::new();
    for x in v {
        out.extend_from_slice(&x.to_le_bytes());
    }
    out
}

/// The three test values of one row, computed the way the protocol states them.
fn expected_tests(sh: &[u64], r: &TestRandomness, p: u128, v: usize, l: usize, s: usize, y: usize, idx: usize) -> Vec<u64> {
    let b = v / l;
    let cols = (2 * v + l + y + l * s * b + 3 * l) / l;
    let mut dt = 0u128;
    for j in 0..cols {
        dt = (dt + (r.degree[j] as u128) * (sh[j] as u128) % p) % p;
    }
    let mut ibtt = 0u128;
    for j in 0..b * s {
        let x = sh[(2 * v + l + y) / l + j] as u128;
        ibtt = (ibtt + (x * (1 + p - x) % p) * (r.input_bit[j] as u128) % p) % p;
    }
    let mut qt = 0u128;
    for j in 0..b {
        let x = sh[j] as u128;
        let yy = sh[v / l + j] as u128;
        qt = (qt + ((x * x) % p + p - yy) * (r.quadratic[j] as u128) % p) % p;
    }
    let mut l2nbtt = 0u128;
    for j in 0..y / l {
        let x = sh[(2 * v + l) / l + j] as u128;
        l2nbtt = (l2nbtt + (x * (1 + p - x) % p) * (r.l2_bit[j] as u128) % p) % p;
    }
    let sum_a = ((ibtt + qt + l2nbtt) % p + sh[(2 * v + l + y + l * s * b + l) / l] as u128) % p;
    let mut ibdt = 0u128;
    for j in 0..b {
        let x = sh[j] as u128;
        let mut sx = 0u128;
        for k in 0..s {
            let bit = sh[(2 * v + l + y + j * s * l) / l + k] as u128;
            sx = (sx + bit * 2u128.pow(k as u32) % p) % p;
        }
        ibdt = (ibdt + (sx + p - x) * (r.input_bound[j] as u128) % p) % p;
    }
    let mut sum_y = 0u128;
    for j in 0..b {
        sum_y += (sh[v / l + j] as u128) % p;
    }
    let l2nst = (sum_y + p - sh[(2 * v) / l] as u128) * (r.l2_sum[0] as u128) % p;
    let ysum = sh[(2 * v) / l] as u128;
    let mut share_sum = 0u128;
    for j in 0..y / l {
        let x = sh[(2 * v + l) / l + j] as u128;
        share_sum = (share_sum + (x * r.l2_bound_shares[idx * (y / l) + j] as u128) % p) % p;
    }
    let l2nbdt = (ysum + p - share_sum) % p * (r.l2_bound[0] as u128) % p;
    let sum_b = ((ibdt + l2nst + l2nbdt) % p + sh[(2 * v + l + y + l * s * b + 2 * l) / l] as u128) % p;
    vec![dt as u64, sum_a as u64, sum_b as u64]
}

fn sample_randomness() -> TestRandomness {
    TestRandomness {
        dropouts: vec![1],
        degree: (1..=11).collect(),
        input_bit: vec![3, 5],
        quadratic: vec![7],
        input_bound: vec![11],
        l2_sum: vec![13],
        l2_bit: vec![2, 4, 6],
        l2_bound: vec![9],
        l2_bound_shares: vec![1, 2, 4, 8, 16, 32],
    }
}

#[test]
fn error_correction_rows() {
    // V = 2, L = 2, S = 2, Y = 6: eleven shares per row.
    let p: u128 = 101;
    let r = sample_randomness();
    let row0: Vec<u64> = vec![3, 9, 27, 81, 40, 19, 57, 70, 8, 24, 72];
    let row2: Vec<u64> = vec![1, 0, 1, 1, 0, 100, 5, 6, 7, 8, 9];
    let shares = vec![row0.clone(), vec![0], row2.clone()];
    assert!(tests_ready(&shares, &r, p, 2, 2, 2, 6, 1));
    let msg = error_correction_tests(&shares, &r, p, 2, 2, 2, 6, 1);
    assert_eq!(msg.len(), 3);
    assert!(msg[1].is_empty());
    assert_eq!(read_le_u64(msg[0].clone()), expected_tests(&row0, &r, p, 2, 2, 2, 6, 1));
    assert_eq!(read_le_u64(msg[2].clone()), expected_tests(&row2, &r, p, 2, 2, 2, 6, 1));
    assert_eq!(row_tests_exec(&row0, &r, p, 2, 2, 2, 6, 1), expected_tests(&row0, &r, p, 2, 2, 2, 6, 1));
}

#[test]
fn error_correction_readiness() {
    let p: u128 = 101;
    let r = sample_randomness();
    assert!(!row_ready(&vec![1, 2, 3], &r, p, 2, 2, 2, 6, 0));
    assert!(!row_ready(&vec![101; 11], &r, p, 2, 2, 2, 6, 0));
    assert!(row_ready(&vec![100; 11], &r, p, 2, 2, 2, 6, 0));
    assert!(!row_ready(&vec![100; 11], &r, p, 2, 2, 2, 6, 2));
    let shares = vec![vec![1u64; 11], vec![5u64; 3]];
    assert!(tests_ready(&shares, &r, p, 2, 2, 2, 6, 0));
    let shares = vec![vec![5u64; 3], vec![1u64; 11]];
    assert!(!tests_ready(&shares, &r, p, 2, 2, 2, 6, 0));
}

#[test]
fn error_correction_in_a_64_bit_field() {
    // The largest prime below 2^64.
    let p: u128 = 18446744073709551557;
    assert!(sizes_ready(p, 2, 2, 2, 6));
    assert!(!sizes_ready(p + 60, 2, 2, 2, 6));
    let mut r = sample_randomness();
    let row: Vec<u64> = vec![(1u64 << 32) + 1, 0, 5, 1, 0, 1, 1, 0, 3, 4, 2];
    assert!(row_ready(&row, &r, p, 2, 2, 2, 6, 0));
    assert_eq!(row_tests_exec(&row, &r, p, 2, 2, 2, 6, 0), expected_tests(&row, &r, p, 2, 2, 2, 6, 0));
    // x^2 - y, plus p, is above 2^64 here, so this weight overflows 128 bits.
    r.quadratic = vec![u64::MAX];
    assert!(!row_ready(&row, &r, p, 2, 2, 2, 6, 0));
}

#[test]
fn honest_input_passes_the_masked_tests_slot_by_slot() {
    // The extended input of [1, 2] for p = 17, L = 2, S = 2 (Y = 6).
    let p: u128 = 17;
    let ext: Vec<u64> = vec![1, 2, 1, 4, 5, 0, 1, 0, 1, 0, 0, 0, 1, 0, 0, 1, 3, 3, 0, 0, 13, 4];
    let r = sample_randomness();
    let mut mask_b_sum = 0u128;
    for slot in 0..2 {
        let row: Vec<u64> = (0..11).map(|b| ext[2 * b + slot]).collect();
        assert!(row_ready(&row, &r, p, 2, 2, 2, 6, 0));
        assert_eq!(row_tests_exec(&row, &r, p, 2, 2, 2, 6, 0)[1], 0);
        mask_b_sum = (mask_b_sum + row[10] as u128) % p;
    }
    assert_eq!(mask_b_sum, 0);
}

#[test]
fn test_randomness_from_broadcast() {
    let mut parts = Vec::new();
    for k in 0..9u64 {
        parts.push(words_bytes(&[k, k + 100]));
    }
    parts[0] = Vec::new();
    match parse_test_randomness(RecvType::matrix(parts)) {
        Ok(t) => {
            assert!(t.dropouts.is_empty());
            assert_eq!(t.degree, vec![1, 101]);
            assert_eq!(t.l2_bound_shares, vec![8, 108]);
        },
        Err(e) => panic!("{:?}", e),
    }
    assert!(matches!(parse_test_randomness(RecvType::matrix(vec![vec![1]])), Err(ClientError::UnexpectedRecv(RecvType::matrix(m))) if m.len() == 1));
    assert!(matches!(parse_test_randomness(RecvType::bytes(vec![1])), Err(ClientError::UnexpectedRecv(_))));
}

fn peers(n: usize) -> (Vec<Vec<u8>>, Vec<(Vec<u8>, Vec<u8>)>) {
    let mut order = Vec::new();
    let mut keys = Vec::new();
    for i in 0..n {
        let pk = format!("peer {}", i).into_bytes();
        order.push(pk.clone());
        keys.push((pk, vec![i as u8 + 1; 32]));
    }
    (order, keys)
}

#[test]
fn ordered_keys() {
    let (order, keys) = peers(3);
    let mut reversed = keys.clone();
    reversed.reverse();
    let k = keys_in_order(&order, &reversed);
    assert_eq!(k, vec![vec![1u8; 32], vec![2u8; 32], vec![3u8; 32]]);
}

#[test]
fn semi_honest_sharing_reconstructs() {
    let (order, keys) = peers(8);
    let param = Param::new(P, R2, R3, 8, 27, 4);
    let input: Vec<u64> = vec![1, 2, 3, 4, 5, 6, 7, 8];
    let msg = input_sharing_sh(&param, &input, &order, &keys);
    assert_eq!(msg.len(), 8);
    let mut rows = Vec::new();
    for i in 0..8 {
        match receive_share(&order, &keys, &vec![order[i].clone(), msg[i].clone()]) {
            Ok((idx, plain)) => {
                assert_eq!(idx, i);
                rows.push(read_le_u64(plain));
            },
            Err(e) => panic!("{:?}", e),
        }
    }
    for b in 0..2 {
        let column: Vec<u128> = rows.iter().map(|r| r[b] as u128).collect();
        let mut pss = PackedSecretSharing::<u128>::new(P, R2, R3, 8, 27, 4, 8);
        let back = pss.reconstruct(column);
        assert_eq!(back, input[4 * b..4 * b + 4].iter().map(|x| *x as u128).collect::<Vec<u128>>());
    }
}

#[test]
fn malicious_sharing_extends_input() {
    let (order, keys) = peers(8);
    let param = Param::new(P, R2, R3, 8, 27, 4);
    let mut input: Vec<u64> = vec![1, 2, 3, 4];
    let msg = input_sharing_ml(&param, &mut input, 3, &order, &keys);
    assert_eq!(input.len(), 44);
    assert_eq!(input[0..8].to_vec(), vec![1, 2, 3, 4, 1, 4, 9, 16]);
    assert_eq!(input[8..12].to_vec(), vec![30, 0, 0, 0]);
    assert_eq!(input[36..40].to_vec(), vec![0, 0, 0, 0]);
    let mask_b: u128 = input[40..44].iter().map(|x| *x as u128).sum();
    assert_eq!(mask_b % P, 0);
    assert_eq!(msg.len(), 8);
    match receive_share(&order, &keys, &vec![order[3].clone(), msg[3].clone()]) {
        Ok((idx, plain)) => {
            assert_eq!(idx, 3);
            assert_eq!(read_le_u64(plain).len(), 11);
        },
        Err(e) => panic!("{:?}", e),
    }
}

#[test]
fn broadcast_must_be_matrix() {
    assert!(matches!(broadcast_matrix(RecvType::matrix(vec![vec![1], vec![2]])), Ok(m) if m.len() == 2));
    assert!(matches!(broadcast_matrix(RecvType::bytes(vec![1])), Err(ClientError::UnexpectedRecv(_))));
}

#[test]
fn key_exchange_pairs() {
    let pks = vec![b"a".to_vec(), b"b".to_vec()];
    match key_exchange_keys(pks.clone(), vec![Some(vec![1u8; 32]), Some(vec![2u8; 32])]) {
        Ok((keys, order)) => {
            assert_eq!(order, pks);
            assert_eq!(keys, vec![(b"a".to_vec(), vec![1u8; 32]), (b"b".to_vec(), vec![2u8; 32])]);
        },
        Err(e) => panic!("{:?}", e),
    }
    assert!(matches!(key_exchange_keys(pks, vec![Some(vec![1u8; 32]), None]), Err(ClientError::EncryptionError(2))));
}

#[test]
fn share_collection() {
    let (order, keys) = peers(2);
    let mut c = ShareCollector::new(2);
    assert_eq!(c.shares(), &vec![vec![0u64], vec![0u64]]);
    assert!(matches!(c.step(&order, &keys, CollectEvent::Idle), Ok(CollectStatus::Waiting)));
    assert!(matches!(c.step(&order, &keys, CollectEvent::Dropouts(Vec::new())), Ok(CollectStatus::Waiting)));
    let rows = vec![vec![5u64, 6], vec![7u64, 8]];
    let msg = secure_aggregation::client::encrypt_rows(&rows, &vec![keys[0].1.clone(), keys[1].1.clone()]);
    let r = c.step(&order, &keys, CollectEvent::Message(RecvType::matrix(vec![order[1].clone(), msg[1].clone()])));
    assert!(matches!(r, Ok(CollectStatus::Waiting)));
    assert_eq!(c.shares(), &vec![vec![0u64], vec![7u64, 8]]);
    let r = c.step(&order, &keys, CollectEvent::Message(RecvType::bytes(vec![1])));
    assert!(matches!(r, Err(ClientError::UnexpectedRecv(_))));
    let r = c.step(&order, &keys, CollectEvent::Message(RecvType::matrix(vec![order[0].clone(), msg[0].clone()])));
    assert!(matches!(r, Ok(CollectStatus::Done)));
    assert_eq!(c.shares(), &vec![vec![5u64, 6], vec![7u64, 8]]);
}

#[test]
fn share_collection_ends_on_dropouts() {
    let (order, keys) = peers(3);
    let mut c = ShareCollector::new(3);
    assert!(matches!(c.step(&order, &keys, CollectEvent::Dropouts(vec![2])), Ok(CollectStatus::Done)));
}

#[test]
fn aggregation_answer() {
    let shares = vec![vec![1u64, 2], vec![3, 4], vec![5, 6]];
    let r = aggregation_round(RecvType::bytes(words_bytes(&[1])), &shares, 4, 2, 7);
    match r {
        Ok(out) => assert_eq!(read_le_u64(out), vec![6, 1]),
        Err(e) => panic!("{:?}", e),
    }
    assert!(matches!(aggregation_round(RecvType::string("AG".to_string()), &shares, 4, 2, 7), Err(ClientError::UnexpectedRecv(_))));
}
