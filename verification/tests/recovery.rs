use secure_aggregation::modpow::ModPow;
use secure_aggregation::ntt::{transform2, transform3, inverse3, bit_reverse2, bit_reverse3};
use secure_aggregation::packed::{self, powers};
use secure_aggregation::pss;

const P: u128 = 3073700804129980417;
const R2: u128 = 414345200490731620; // order 8
const R3: u128 = 1697820560572790570; // order 27

fn eval_at(coeffs: &[u128], x: u128) -> u128 {
    let mut acc: u128 = 0;
    for c in coeffs.iter().rev() {
        acc = (acc * x % P + c) % P;
    }
    acc
}

#[test]
fn transform2_evaluates_the_polynomial() {
    let a: Vec<u128> = vec![3, 1, 4, 1, 5, 9, 2, 6];
    let t = transform2(a.clone(), &P, &powers(R2, 8, P));
    for k in 0..8u128 {
        assert_eq!(t[k as usize], eval_at(&a, R2.modpow(&k, &P)));
    }
}

#[test]
fn transform3_evaluates_the_polynomial() {
    let a: Vec<u128> = (0..27u128).map(|i| (i * i * 7919 + 13) % P).collect();
    let t = transform3(a.clone(), &P, &powers(R3, 27, P));
    for k in 0..27u128 {
        assert_eq!(t[k as usize], eval_at(&a, R3.modpow(&k, &P)));
    }
}

#[test]
fn fermat_power_inverts() {
    for a in [2u128, 3, 1 << 40, R2, R3, P - 1] {
        assert_eq!(a * a.modpow(&(P - 2), &P) % P, 1);
    }
}

#[test]
fn packed_reconstruct_after_dropouts() {
    let sharing = packed::PackedSecretSharing::new(P, R2, R3, 7, 4, 26);
    let secrets: Vec<u128> = vec![11, 22, 33, 44];
    let randomness: Vec<u128> = vec![1234, 5678, 91011, 121314];
    let shares = sharing.share_with_randomness(&secrets, &randomness);
    // any eight of the points will do: here the shares of parties 3, 5, 8, 13, 14, 20, 21 and 25
    let idx: Vec<usize> = vec![3, 5, 8, 13, 14, 20, 21, 25];
    let table3 = powers(R3, 27, P);
    let points: Vec<u128> = idx.iter().map(|i| table3[*i]).collect();
    let values: Vec<u128> = idx.iter().map(|i| shares[*i]).collect();
    let mut fresh = packed::PackedSecretSharing::new(P, R2, R3, 7, 4, 26);
    assert_eq!(fresh.reconstruct(&points, &values), secrets);
}

#[test]
fn packed_reconstruct_of_summed_shares() {
    let sharing = packed::PackedSecretSharing::new(P, R2, R3, 7, 4, 26);
    let s1: Vec<u128> = vec![1, 2, 3, P - 1];
    let s2: Vec<u128> = vec![10, 20, 30, 2];
    let a = sharing.share_with_randomness(&s1, &vec![7, 8, 9, 10]);
    let b = sharing.share_with_randomness(&s2, &vec![70, 80, 90, 100]);
    let idx: Vec<usize> = vec![0, 2, 4, 6, 9, 11, 17, 26, 19];
    let table3 = powers(R3, 27, P);
    let points: Vec<u128> = idx.iter().map(|i| table3[*i]).collect();
    let values: Vec<u128> = idx.iter().map(|i| (a[*i] + b[*i]) % P).collect();
    let mut fresh = packed::PackedSecretSharing::new(P, R2, R3, 7, 4, 26);
    assert_eq!(fresh.reconstruct(&points, &values), vec![11, 22, 33, 1]);
}

#[test]
fn pss_reconstruct_of_summed_shares() {
    let sharing = pss::PackedSecretSharing::<u128>::new(P, R2, R3, 8, 27, 4, 12);
    let s1: Vec<u64> = vec![1, 2, 3, 4];
    let s2: Vec<u64> = vec![100, 200, 300, 400];
    let a = sharing.share_with_randomness(&s1, &vec![9, 8, 7, 6]);
    let b = sharing.share_with_randomness(&s2, &vec![5, 4, 3, 2]);
    let sums: Vec<u128> = (0..12).map(|i| (a[i] as u128 + b[i] as u128) % P).collect();
    let mut fresh = pss::PackedSecretSharing::<u128>::new(P, R2, R3, 8, 27, 4, 12);
    assert_eq!(fresh.reconstruct(sums), vec![101u128, 202, 303, 404]);
}

#[test]
fn pss_reconstruct_of_three_clients() {
    let sharing = pss::PackedSecretSharing::<u128>::new(P, R2, R3, 8, 27, 4, 10);
    let inputs: Vec<Vec<u64>> = vec![vec![1, 2, 3, 4], vec![40, 30, 20, 10], vec![u64::MAX, 0, 7, 9]];
    let randomness: Vec<Vec<u64>> = vec![vec![11, 12, 13, 14], vec![21, 22, 23, 24], vec![31, 32, 33, 34]];
    let mut sums = vec![0u128; 10];
    for c in 0..3 {
        let shares = sharing.share_with_randomness(&inputs[c], &randomness[c]);
        for k in 0..10 {
            sums[k] = (sums[k] + shares[k] as u128) % P;
        }
    }
    let mut fresh = pss::PackedSecretSharing::<u128>::new(P, R2, R3, 8, 27, 4, 10);
    let expected: Vec<u128> = (0..4).map(|i| inputs.iter().map(|v| v[i] as u128).sum::<u128>() % P).collect();
    assert_eq!(fresh.reconstruct(sums), expected);
}

#[test]
fn bit_reversals_are_involutions() {
    let a: Vec<u128> = (0..16).map(|i| i * 7 + 1).collect();
    let mut b = a.clone();
    bit_reverse2(&mut b);
    assert_ne!(a, b);
    bit_reverse2(&mut b);
    assert_eq!(a, b);
    let c: Vec<u128> = (0..27).map(|i| i * 5 + 2).collect();
    let mut d = c.clone();
    bit_reverse3(&mut d);
    assert_ne!(c, d);
    bit_reverse3(&mut d);
    assert_eq!(c, d);
}

#[test]
fn inverse3_recovers_reduced_input() {
    let table = powers(R3, 27, P);
    let a: Vec<u128> = (0..27u128).map(|i| (i * 1_000_000_007 + P + 5) % (P + 100)).collect();
    let back = inverse3(transform3(a.clone(), &P, &table), &P, &table);
    let reduced: Vec<u128> = a.iter().map(|x| x % P).collect();
    assert_eq!(back, reduced);
}
