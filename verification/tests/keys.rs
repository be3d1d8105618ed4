use p256::ecdsa::signature::Signer;
use p256::ecdsa::{Signature, SigningKey, VerifyingKey};
use rand_core::OsRng;
use secure_aggregation::messages::{ClientError, RecvType};
use secure_aggregation::rounds::{dh_agree, dh_public_key, dh_secret_random, key_exchange_round, signing_keys, handshake_key,
    signed_message};
use secure_aggregation::server::{key_exchange_request, shares_collection, WorkerError};

#[test]
fn agreement_is_symmetric() {
    let a = dh_secret_random();
    let b = dh_secret_random();
    let pa = dh_public_key(&a);
    let pb = dh_public_key(&b);
    assert_eq!(pa.len(), 65);
    let ka = dh_agree(&a, &pb).unwrap();
    let kb = dh_agree(&b, &pa).unwrap();
    assert_eq!(ka.len(), 32);
    assert_eq!(ka, kb);
}

#[test]
fn key_exchange_round_pairs_keys() {
    let me = dh_secret_random();
    let peers: Vec<Vec<u8>> = (0..3).map(|_| dh_public_key(&dh_secret_random())).collect();
    let (keys, order) = key_exchange_round(&me, peers.clone()).ok().unwrap();
    assert_eq!(order, peers);
    for i in 0..3 {
        assert_eq!(keys[i].0, peers[i]);
        assert_eq!(keys[i].1, dh_agree(&me, &peers[i]).unwrap());
    }
}

#[test]
fn key_exchange_round_refuses_a_bad_key() {
    let me = dh_secret_random();
    let peers = vec![dh_public_key(&dh_secret_random()), vec![4u8; 65]];
    assert!(matches!(key_exchange_round(&me, peers), Err(ClientError::EncryptionError(2))));
}

fn signed(key: &SigningKey, payload: &[u8]) -> RecvType {
    let sig: Signature = key.sign(payload);
    RecvType::matrix(vec![payload.to_vec(), sig.as_ref().to_vec()])
}

#[test]
fn signed_messages_are_checked() {
    let sk = SigningKey::random(&mut OsRng);
    let vk = VerifyingKey::from(&sk).to_encoded_point(false).as_bytes().to_vec();
    let other = SigningKey::random(&mut OsRng);
    let payload: Vec<u8> = vec![1, 0, 0, 0, 0, 0, 0, 0, 2, 0, 0, 0, 0, 0, 0, 0];
    assert_eq!(shares_collection(signed(&sk, &payload), &vk).unwrap().unwrap(), vec![1, 2]);
    assert_eq!(shares_collection(signed(&other, &payload), &vk).unwrap(), Err(WorkerError::DecryptionFail(5)));
    assert_eq!(shares_collection(RecvType::matrix(vec![payload.clone()]), &vk).unwrap(), Err(WorkerError::UnexpectedFormat(5)));
    assert!(shares_collection(signed(&sk, &[1, 2, 3]), &vk).is_none());
    assert_eq!(key_exchange_request(signed(&sk, &payload), &vk).unwrap(), payload);
    assert_eq!(key_exchange_request(signed(&other, &payload), &vk), Err(WorkerError::DecryptionFail(2)));
    assert_eq!(key_exchange_request(RecvType::bytes(payload.clone()), &vk), Err(WorkerError::UnexpectedFormat(2)));
}

#[test]
fn handshake_reads_the_signing_key() {
    let sk = SigningKey::random(&mut OsRng);
    let bytes = sk.to_bytes().to_vec();
    let (k, vk) = handshake_key(RecvType::bytes(bytes.clone())).ok().unwrap();
    assert_eq!(k, bytes);
    assert_eq!(vk, VerifyingKey::from(&sk).to_encoded_point(false).as_bytes().to_vec());
    assert_eq!(vk.len(), 65);
    assert!(matches!(handshake_key(RecvType::bytes(vec![0u8; 32])), Err(ClientError::EncryptionError(1))));
    assert!(matches!(handshake_key(RecvType::matrix(vec![])), Err(ClientError::UnexpectedRecv(_))));
    assert!(matches!(signing_keys(vec![0u8; 32]), Err(ClientError::EncryptionError(1))));
}

#[test]
fn signed_messages_carry_a_signature_the_server_accepts() {
    let sk = SigningKey::random(&mut OsRng);
    let bytes = sk.to_bytes().to_vec();
    let (_, vk) = signing_keys(bytes.clone()).ok().unwrap();
    let payload: Vec<u8> = vec![1, 0, 0, 0, 0, 0, 0, 0, 2, 0, 0, 0, 0, 0, 0, 0];
    let m = signed_message(&bytes, payload.clone()).unwrap();
    assert_eq!(m.len(), 2);
    assert_eq!(m[0], payload);
    assert_eq!(m[1].len(), 64);
    assert_ne!(m[1], payload);
    // the nonce is deterministic: signing again gives the same bytes
    assert_eq!(signed_message(&bytes, payload.clone()).unwrap(), m);
    assert_eq!(key_exchange_request(RecvType::matrix(m.clone()), &vk).unwrap(), payload);
    assert_eq!(shares_collection(RecvType::matrix(m), &vk).unwrap().unwrap(), vec![1, 2]);
    assert!(signed_message(&vec![0u8; 32], payload).is_none());
}
