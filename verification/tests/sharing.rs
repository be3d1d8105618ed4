use secure_aggregation::modpow::ModPow;
use secure_aggregation::ntt::transform2;
use secure_aggregation::packed::{self, trigits_len, round_to_pow3, lagrange_interpolation, powers};
use secure_aggregation::packed_ss;
use secure_aggregation::pss;

const P: u128 = 3073700804129980417;
const R2: u128 = 414345200490731620; // order 8
const R3: u128 = 1697820560572790570; // order 27

#[test]
fn trigits_len_values() {
    assert_eq!(trigits_len(0), 1);
    assert_eq!(trigits_len(2), 1);
    assert_eq!(trigits_len(3), 2);
    assert_eq!(trigits_len(8), 2);
    assert_eq!(trigits_len(9), 3);
    assert_eq!(trigits_len(26), 3);
    assert_eq!(trigits_len(27), 4);
}

#[test]
fn round_to_pow3_values() {
    assert_eq!(round_to_pow3(0), 1);
    assert_eq!(round_to_pow3(1), 1);
    assert_eq!(round_to_pow3(2), 3);
    assert_eq!(round_to_pow3(3), 3);
    assert_eq!(round_to_pow3(4), 9);
    assert_eq!(round_to_pow3(10), 27);
    assert_eq!(round_to_pow3(27), 27);
}

#[test]
fn lagrange_through_a_parabola() {
    // f(x) = x^2 + 5 through x = 1, 2, 3; evaluated at 0, 4 and 10.
    let points: Vec<u128> = vec![1, 2, 3];
    let values: Vec<u128> = vec![6, 9, 14];
    let roots: Vec<u128> = vec![0, 4, 10];
    assert_eq!(lagrange_interpolation(&points, &values, &roots, &P), vec![5, 21, 105]);
}

#[test]
fn lagrange_ignores_the_order_of_points() {
    let points: Vec<u128> = vec![1, 2, 3, 7];
    let values: Vec<u128> = vec![P - 1, 5, 8, 13];
    let perm = [2usize, 0, 3, 1];
    let points2: Vec<u128> = perm.iter().map(|&k| points[k]).collect();
    let values2: Vec<u128> = perm.iter().map(|&k| values[k]).collect();
    let roots: Vec<u128> = vec![0, 5, 11, 1];
    let e1 = lagrange_interpolation(&points, &values, &roots, &P);
    let e2 = lagrange_interpolation(&points2, &values2, &roots, &P);
    assert_eq!(e1, e2);
    assert_eq!(e1[3], P - 1);
}

#[test]
fn lagrange_is_additive_in_values() {
    let points: Vec<u128> = vec![1, 2, 3, 7];
    let v1: Vec<u128> = vec![P - 1, 5, 8, 13];
    let v2: Vec<u128> = vec![4, P - 2, 1, 0];
    let v: Vec<u128> = v1.iter().zip(v2.iter()).map(|(a, b)| (a + b) % P).collect();
    let roots: Vec<u128> = vec![0, 5, 11];
    let e1 = lagrange_interpolation(&points, &v1, &roots, &P);
    let e2 = lagrange_interpolation(&points, &v2, &roots, &P);
    let e = lagrange_interpolation(&points, &v, &roots, &P);
    for k in 0..3 {
        assert_eq!(e[k], (e1[k] + e2[k]) % P);
    }
}

#[test]
fn packed_share_then_reconstruct() {
    let mut sharing = packed::PackedSecretSharing::new(P, R2, R3, 7, 4, 26);
    let secrets: Vec<u128> = vec![11, 22, 33, 44];
    let shares = sharing.share(&secrets);
    assert_eq!(shares.len(), 27);
    let points = powers(R3, 8, P);
    let values: Vec<u128> = shares[0..8].to_vec();
    assert_eq!(sharing.reconstruct(&points, &values), secrets);
}

#[test]
fn packed_share_with_randomness_is_deterministic() {
    let sharing = packed::PackedSecretSharing::new(P, R2, R3, 7, 4, 26);
    let secrets: Vec<u128> = vec![1, 2, 3, 4];
    let randomness: Vec<u128> = vec![5, 6, 7, 8];
    let a = sharing.share_with_randomness(&secrets, &randomness);
    let b = sharing.share_with_randomness(&secrets, &randomness);
    assert_eq!(a, b);
    assert_eq!(a.len(), 27);
}

#[test]
fn packed_ss_sharing_of_a_constant() {
    let root4 = R2.modpow(&2, &P);
    let mut sharing = packed_ss::PackedSecretSharing::new(P, root4, R3, 3, 3, 5);
    let a: u128 = 12345;
    let shares = sharing.share_with_randomness(&vec![a, a, a], &Vec::new(), &vec![77]);
    assert_eq!(shares, transform2(vec![a, a, a, 77], &P, &powers(root4, 4, P)));
    assert_eq!(sharing.reconstruct(&shares), vec![3 * a, 3 * a, 3 * a]);
}

#[test]
fn packed_ss_share_length() {
    let root4 = R2.modpow(&2, &P);
    let mut sharing = packed_ss::PackedSecretSharing::new(P, root4, R3, 3, 3, 5);
    let shares = sharing.share(&vec![1, 2, 3]);
    assert_eq!(shares.len(), 4);
}

#[test]
fn pss_share_then_reconstruct() {
    let mut sharing = pss::PackedSecretSharing::<u128>::new(P, R2, R3, 8, 27, 4, 26);
    let secrets: Vec<u64> = vec![7, 0, 1 << 40, 99];
    let shares = sharing.share_ref(&secrets);
    assert_eq!(shares.len(), 26);
    let collected: Vec<u128> = shares[0..10].iter().map(|s| *s as u128).collect();
    let back = sharing.reconstruct(collected);
    assert_eq!(back, secrets.iter().map(|s| *s as u128).collect::<Vec<u128>>());
    assert_eq!(sharing.rootTable2.len(), 4);
}

#[test]
fn pss_share_consumes_the_vector() {
    let mut sharing = pss::PackedSecretSharing::<u128>::new(P, R2, R3, 8, 27, 2, 9);
    let shares = sharing.share(vec![5u64, 6]);
    assert_eq!(shares.len(), 9);
    let back = sharing.reconstruct(shares.iter().map(|s| *s as u128).collect());
    assert_eq!(back, vec![5u128, 6]);
}

#[test]
fn pss_sharing_is_additive() {
    let sharing = pss::PackedSecretSharing::<u128>::new(P, R2, R3, 8, 27, 4, 26);
    let s1: Vec<u64> = vec![1, 2, 3, 4];
    let s2: Vec<u64> = vec![10, 20, 30, 40];
    let r1: Vec<u64> = vec![5, 6, 7, 8];
    let r2: Vec<u64> = vec![50, 60, 70, 80];
    let s: Vec<u64> = vec![11, 22, 33, 44];
    let r: Vec<u64> = vec![55, 66, 77, 88];
    let a = sharing.share_with_randomness(&s1, &r1);
    let b = sharing.share_with_randomness(&s2, &r2);
    let c = sharing.share_with_randomness(&s, &r);
    for i in 0..26 {
        assert_eq!(c[i] as u128, (a[i] as u128 + b[i] as u128) % P);
    }
}

#[test]
fn pss_share_blocks_rows() {
    let mut sharing = pss::PackedSecretSharing::<u128>::new(P, R2, R3, 8, 27, 4, 12);
    let data: Vec<u64> = vec![1, 2, 3, 4, 5, 6, 7, 8];
    let rows = sharing.share_blocks(&data);
    assert_eq!(rows.len(), 12);
    for row in rows.iter() {
        assert_eq!(row.len(), 2);
    }
    for b in 0..2 {
        let column: Vec<u128> = rows.iter().map(|r| r[b] as u128).collect();
        let mut fresh = pss::PackedSecretSharing::<u128>::new(P, R2, R3, 8, 27, 4, 12);
        assert_eq!(fresh.reconstruct(column), data[4 * b..4 * b + 4].iter().map(|x| *x as u128).collect::<Vec<u128>>());
    }
}

#[test]
fn table_getters_are_the_fields() {
    let pss = packed::PackedSecretSharing::new(P, R2, R3, 7, 4, 20);
    assert_eq!(pss.root_table2(), &pss.rootTable2);
    assert_eq!(pss.root_table3(), &pss.rootTable3);
    assert_eq!(pss.root_table2().len(), 8);
    assert_eq!(pss.root_table3().len(), 27);
}
