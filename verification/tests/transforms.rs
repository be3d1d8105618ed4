use secure_aggregation::modpow::ModPow;
use secure_aggregation::ntt::{bit_reverse2, bit_reverse3, transform2, inverse2, transform3, inverse3, DFT_radix2, DFT_radix3};
use secure_aggregation::packed::powers;
use secure_aggregation::field_ntt;
use secure_aggregation::fixed_ntt;

const P: u128 = 3073700804129980417;
const R2: u128 = 414345200490731620; // order 8
const R3: u128 = 1697820560572790570; // order 27

#[test]
fn modpow_small_values() {
    assert_eq!(3u128.modpow(&4, &7), 4);
    assert_eq!(5u128.modpow(&0, &13), 1);
    assert_eq!(10u128.modpow(&3, &1000), 0);
    assert_eq!(2u128.modpow(&64, &P), 4539248929669114);
}

#[test]
fn root_orders() {
    assert_eq!(R2.modpow(&8, &P), 1);
    assert_eq!(R2.modpow(&4, &P), P - 1);
    assert_eq!(R3.modpow(&27, &P), 1);
    assert_ne!(R3.modpow(&9, &P), 1);
}

#[test]
fn powers_of_root() {
    let t = powers(R2, 8, P);
    assert_eq!(t, vec![1, 414345200490731620, 48123647995213473, 1358371145095107238, 3073700804129980416,
        2659355603639248797, 3025577156134766944, 1715329659034873179]);
}

#[test]
fn bit_reverse2_of_eight() {
    let mut a: Vec<u128> = (0..8).collect();
    bit_reverse2(&mut a);
    assert_eq!(a, vec![0, 4, 2, 6, 1, 5, 3, 7]);
}

#[test]
fn bit_reverse3_of_nine() {
    let mut a: Vec<u128> = (0..9).collect();
    bit_reverse3(&mut a);
    assert_eq!(a, vec![0, 3, 6, 1, 4, 7, 2, 5, 8]);
}

#[test]
fn transform2_of_unit_vectors() {
    let table = powers(R2, 8, P);
    let mut e0 = vec![0u128; 8];
    e0[0] = 1;
    assert_eq!(transform2(e0, &P, &table), vec![1u128; 8]);
    let mut e1 = vec![0u128; 8];
    e1[1] = 1;
    assert_eq!(transform2(e1, &P, &table), table);
}

#[test]
fn dft_radix2_on_reversed_input_is_transform2() {
    let table = powers(R2, 8, P);
    let a: Vec<u128> = vec![3, 1, 4, 1, 5, 9, 2, 6];
    let mut b = a.clone();
    bit_reverse2(&mut b);
    DFT_radix2(&mut b, &P, &table);
    assert_eq!(b, transform2(a, &P, &table));
}

#[test]
fn inverse2_undoes_transform2_with_a_longer_table() {
    // A root of order 4 and a table of its first eight powers.
    let w4 = R2.modpow(&2, &P);
    let table = powers(w4, 8, P);
    let a: Vec<u128> = vec![7, 0, P - 1, 12];
    let t = transform2(a.clone(), &P, &table);
    assert_eq!(inverse2(t, &P, &table), a);
}

#[test]
fn field_transform_of_one_entry() {
    let a: Vec<u128> = vec![P + 5];
    let t = field_ntt::transform(&a, &P, &R2);
    assert_eq!(t, vec![5]);
    assert_eq!(field_ntt::inverse(&t, &P, &R2), vec![5]);
}

#[test]
fn inverse2_undoes_transform2() {
    let table = powers(R2, 8, P);
    let a: Vec<u128> = vec![3, 1, 4, 1, 5, 9, 2, 6];
    let t = transform2(a.clone(), &P, &table);
    assert_ne!(t, a);
    assert_eq!(inverse2(t, &P, &table), a);
}

#[test]
fn transform3_of_unit_vector() {
    let table = powers(R3, 27, P);
    let mut e1 = vec![0u128; 27];
    e1[1] = 1;
    assert_eq!(transform3(e1, &P, &table), table);
}

#[test]
fn dft_radix3_on_reversed_input_is_transform3() {
    let table = powers(R3, 27, P);
    let a: Vec<u128> = (0..27).map(|i| (i * i + 7) as u128).collect();
    let mut b = a.clone();
    bit_reverse3(&mut b);
    DFT_radix3(&mut b, &P, &table);
    assert_eq!(b, transform3(a, &P, &table));
}

#[test]
fn inverse3_undoes_transform3_with_a_longer_table() {
    // A root of order 9 and a table of its first 27 powers.
    let w9 = R3.modpow(&3, &P);
    let table = powers(w9, 27, P);
    let a: Vec<u128> = (0..9).map(|i| (5 * i + 2) as u128).collect();
    let t = transform3(a.clone(), &P, &table);
    assert_eq!(inverse3(t, &P, &table), a);
}

#[test]
fn inverse3_undoes_transform3() {
    let table = powers(R3, 27, P);
    let a: Vec<u128> = (0..27).map(|i| (3 * i + 1) as u128).collect();
    let t = transform3(a.clone(), &P, &table);
    assert_eq!(inverse3(t, &P, &table), a);
}

#[test]
fn transform2_is_additive() {
    let table = powers(R2, 8, P);
    let a: Vec<u128> = vec![P - 1, 2, 3, 4, 5, 6, 7, 8];
    let b: Vec<u128> = vec![9, P - 3, 7, 6, 5, 4, 3, 2];
    let c: Vec<u128> = a.iter().zip(b.iter()).map(|(x, y)| (x + y) % P).collect();
    let ta = transform2(a, &P, &table);
    let tb = transform2(b, &P, &table);
    let tc = transform2(c, &P, &table);
    for i in 0..8 {
        assert_eq!(tc[i], (ta[i] + tb[i]) % P);
    }
}

#[test]
fn field_transform_and_inverse() {
    let a: Vec<u128> = vec![P + 3, 1, 4, 1, 5, 9, 2, 6];
    let t = field_ntt::transform(&a, &P, &R2);
    let reduced: Vec<u128> = a.iter().map(|x| x % P).collect();
    assert_eq!(t, transform2(reduced.clone(), &P, &powers(R2, 8, P)));
    assert_eq!(field_ntt::inverse(&t, &P, &R2), reduced);
}

#[test]
fn field_dft_in_place() {
    let table = powers(R2, 8, P);
    let mut a: Vec<u128> = vec![3, 1, 4, 1, 5, 9, 2, 6];
    let expected = transform2(a.clone(), &P, &table);
    field_ntt::DFT(&mut a, &table, &P);
    assert_eq!(a, expected);
}

#[test]
fn fixed_prime_and_root() {
    assert_eq!(fixed_ntt::find_prime(4), (4611686018326724609, (4611686018326724609 - 1) / 4));
    assert_eq!(fixed_ntt::primative_root(4611686018326724609), 1468970003788274264);
}

#[test]
fn fixed_transform_matches_field_transform() {
    let fp: u128 = 4611686018326724609;
    let w: u128 = 1468970003788274264;
    let a: Vec<u128> = vec![10, 20, 30, 40, 50, 60, 70, 80];
    assert_eq!(fixed_ntt::transform(&a), field_ntt::transform(&a, &fp, &w));
    assert_eq!(fixed_ntt::transform(&Vec::new()), Vec::<u128>::new());
}
