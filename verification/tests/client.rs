use secure_aggregation::client::{
    Param, parse_params, params_from_broadcast, vec_contains, aggregate, aggregation_bytes, share_nonce_bytes,
    encrypt_rows, position, find_key, receive_share, y_len_exec, build_malicious_input,
};
use secure_aggregation::messages::{RecvType, ClientError};
use secure_aggregation::util::{write_u64_le_u8, read_le_u64};

fn words_bytes(v: &[u64]) -> Vec<u8> {
    let mut out = Vec::new();
    for x in v {
        out.extend_from_slice(&x.to_le_bytes());
    }
    out
}

#[test]
fn param_fields() {
    let p = Param::new(17, 4, 3, 8, 27, 2);
    assert_eq!(p.prime(), 17);
    assert_eq!(p.root2(), 4);
    assert_eq!(p.root3(), 3);
    assert_eq!(p.degree2(), 8);
    assert_eq!(p.degree3(), 27);
    assert_eq!(p.block_len(), 2);
}

#[test]
fn parameters_from_bytes() {
    let bytes = words_bytes(&[101, 2, 3, 4, 5, 6]);
    let p = parse_params(bytes.clone());
    assert_eq!((p.prime(), p.root2(), p.root3(), p.degree2(), p.degree3(), p.block_len()), (101, 2, 3, 4, 5, 6));
    match params_from_broadcast(RecvType::bytes(bytes)) {
        Ok(q) => assert_eq!(q.block_len(), 6),
        Err(e) => panic!("{:?}", e),
    }
    assert!(matches!(params_from_broadcast(RecvType::string("IS".to_string())), Err(ClientError::UnexpectedRecv(_))));
}

#[test]
fn contains_values() {
    assert!(vec_contains(&vec![3, 5, 7], 5));
    assert!(!vec_contains(&vec![3, 5, 7], 4));
    assert!(!vec_contains(&Vec::new(), 0));
}

#[test]
fn aggregate_skips_dropouts() {
    let shares = vec![vec![1u64, 2, 9], vec![3, 4], vec![5, 6, 1]];
    assert_eq!(aggregate(&shares, &vec![1], 2, 7), vec![6, 1]);
    assert_eq!(aggregate(&shares, &Vec::new(), 2, 100), vec![9, 12]);
    assert_eq!(aggregation_bytes(&vec![1, 256]), vec![1, 0, 0, 0, 0, 0, 0, 0, 0, 1, 0, 0, 0, 0, 0, 0]);
}

#[test]
fn nonce_bytes() {
    assert_eq!(share_nonce_bytes(), b"unique nonce".to_vec());
}

#[test]
fn encrypt_then_receive() {
    let k0 = vec![7u8; 32];
    let k1 = vec![9u8; 32];
    let pk0 = b"peer zero".to_vec();
    let pk1 = b"peer one".to_vec();
    let rows = vec![vec![1u64, 2], vec![3u64, 4]];
    let msg = encrypt_rows(&rows, &vec![k0.clone(), k1.clone()]);
    assert_eq!(msg.len(), 2);
    assert_eq!(msg[1].len(), 16 + 16);
    assert_ne!(msg[1][0..16].to_vec(), write_u64_le_u8(&rows[1]));
    let order = vec![pk0.clone(), pk1.clone()];
    let keys = vec![(pk0.clone(), k0.clone()), (pk1.clone(), k1.clone())];
    match receive_share(&order, &keys, &vec![pk1.clone(), msg[1].clone()]) {
        Ok((idx, plain)) => {
            assert_eq!(idx, 1);
            assert_eq!(read_le_u64(plain), vec![3, 4]);
        },
        Err(e) => panic!("{:?}", e),
    }
    let wrong = receive_share(&order, &keys, &vec![pk0.clone(), msg[1].clone()]);
    assert!(matches!(wrong, Err(ClientError::EncryptionError(4))));
    let keyless = receive_share(&order, &vec![(pk0.clone(), k0.clone())], &vec![pk1.clone(), msg[1].clone()]);
    assert!(matches!(keyless, Err(ClientError::UnidentifiedShare(4))));
}

#[test]
fn positions_and_keys() {
    let order = vec![b"a".to_vec(), b"b".to_vec(), b"a".to_vec()];
    assert_eq!(position(&order, &b"a".to_vec()), Some(0));
    assert_eq!(position(&order, &b"b".to_vec()), Some(1));
    assert_eq!(position(&order, &b"c".to_vec()), None);
    let keys = vec![(b"x".to_vec(), vec![1u8]), (b"y".to_vec(), vec![2u8])];
    assert_eq!(find_key(&keys, &b"y".to_vec()), Some(1));
    assert_eq!(find_key(&keys, &b"z".to_vec()), None);
}

#[test]
fn sum_of_squares_bits() {
    assert_eq!(y_len_exec(4, 4, 2), 10);
    assert_eq!(y_len_exec(2, 2, 2), 6);
    assert_eq!(y_len_exec(3, 0, 2), 0);
    assert_eq!(y_len_exec(3, 4, 4), 8);
}

#[test]
fn malicious_input_layout() {
    let param = Param::new(17, 4, 3, 8, 27, 2);
    let mut input = vec![1u64, 2];
    let y = build_malicious_input(&mut input, &param, 2, &vec![20, 3], &vec![30]);
    assert_eq!(y, 6);
    assert_eq!(input, vec![1, 2, 1, 4, 5, 0, 1, 0, 1, 0, 0, 0, 1, 0, 0, 1, 3, 3, 0, 0, 13, 4]);
}
