use secure_aggregation::server::{
    ServerState, ServerMessage, InputSharingReq, Task, MAX_CLIENTS, NUM_WORKERS, task_for, handshake_transit, may_register,
    sharing_matrix_ok, forward_shares, test_matrix_ok, reconstruction_points, poly_degree, lagrange_degree,
    gather_corrections, tests_verdict,
};
use secure_aggregation::param::Param;
use secure_aggregation::modpow::ModPow;

#[test]
fn states_and_tasks() {
    assert_eq!(ServerState::default(), ServerState::Default);
    assert_eq!(task_for(ServerState::Handshake), Task::Handshake);
    assert_eq!(task_for(ServerState::KeyExchange), Task::KeyExchange);
    assert_eq!(task_for(ServerState::InputSharing), Task::InputSharing);
    assert_eq!(task_for(ServerState::Default), Task::Nothing);
    assert_eq!(ServerMessage::InputForward, ServerMessage::InputForward);
    assert_eq!(MAX_CLIENTS, 8);
    assert_eq!(NUM_WORKERS, 8);
}

#[test]
fn handshake_ends_when_full() {
    assert_eq!(handshake_transit(ServerState::Handshake, 7), ServerState::Handshake);
    assert_eq!(handshake_transit(ServerState::KeyExchange, 7), ServerState::KeyExchange);
    assert_eq!(handshake_transit(ServerState::Default, 0), ServerState::Default);
    assert_eq!(handshake_transit(ServerState::Handshake, 8), ServerState::KeyExchange);
    assert_eq!(handshake_transit(ServerState::InputSharing, 9), ServerState::KeyExchange);
    assert!(may_register(7));
    assert!(!may_register(8));
}

#[test]
fn input_sharing_request() {
    let req = InputSharingReq::new(vec![1, 2, 3]);
    assert_eq!(req.shares(), &vec![1, 2, 3]);
}

#[test]
fn message_shapes() {
    let m = vec![vec![0u8; 10], vec![0u8; 3]];
    assert!(sharing_matrix_ok(&m, 2, 2));
    assert!(!sharing_matrix_ok(&m, 3, 2));
    assert!(!sharing_matrix_ok(&m, 2, 3));
    assert!(test_matrix_ok(&vec![vec![0u8; 4]], 4));
    assert!(!test_matrix_ok(&vec![vec![0u8; 4], vec![]], 4));
    assert!(!test_matrix_ok(&vec![vec![0u8; 5]], 4));
}

#[test]
fn forwarded_shares_carry_the_sender() {
    let f = forward_shares(&b"pk".to_vec(), &vec![vec![1], vec![2, 3]]);
    assert_eq!(f, vec![vec![b"pk".to_vec(), vec![1]], vec![b"pk".to_vec(), vec![2, 3]]]);
}

#[test]
fn points_skip_dropouts() {
    let mut p = Param::new(17, 2, 3, 3, 2);
    p.calculate_malicious(9, 12, 1, 1);
    // radix-2 degree 4, radix-3 root 3
    assert_eq!(reconstruction_points(&p, &vec![1]), vec![1, 9, 10]);
    assert_eq!(reconstruction_points(&p, &Vec::new()), vec![1, 3, 9, 10]);
    assert_eq!(3u128.modpow(&3, &17), 10);
}

#[test]
fn polynomial_degrees() {
    assert_eq!(poly_degree(&vec![0, 0, 3, 0]), 2);
    assert_eq!(poly_degree(&vec![5]), 0);
    assert_eq!(poly_degree(&vec![0, 0]), 0);
    assert_eq!(poly_degree(&Vec::new()), 0);
    assert_eq!(poly_degree(&vec![-8, 2, 4]), 2);
}

#[test]
fn degree_of_the_zero_interpolation() {
    let p = Param::new(17, 2, 3, 3, 2);
    assert!(lagrange_degree(&vec![0, 0, 0], &p));
    let mut q = Param::new(17, 2, 3, 3, 2);
    q.calculate_malicious(9, 12, 1, 1);
    assert!(!lagrange_degree(&vec![0, 0], &q));
}

#[test]
fn corrections_skip_empty_rows() {
    let mut p = Param::new(17, 2, 3, 3, 2);
    p.calculate_malicious(9, 12, 1, 1);
    let rows: Vec<Vec<u64>> = vec![vec![1, 2], vec![], vec![3, 4], vec![5, 6], vec![]];
    let mut dropout: Vec<usize> = vec![7];
    let (points, kept) = gather_corrections(&rows, &p, &mut dropout);
    assert_eq!(dropout, vec![7, 1, 4]);
    // parties 0, 2 and 3 evaluate at 3^1, 3^3 and 3^4 modulo 17
    assert_eq!(points, vec![3, 10, 13]);
    assert_eq!(kept, vec![vec![1, 2], vec![3, 4], vec![5, 6]]);
}

#[test]
fn correction_verdicts() {
    // L = 2: degree tests, then tests that must be zero, then tests that must sum to zero
    assert!(tests_verdict(&vec![9, 4, 0, 0, 5, 12], 2, 17));
    assert!(!tests_verdict(&vec![9, 4, 0, 1, 5, 12], 2, 17));
    assert!(!tests_verdict(&vec![9, 4, 0, 0, 5, 11], 2, 17));
    assert!(tests_verdict(&Vec::new(), 0, 17));
}
