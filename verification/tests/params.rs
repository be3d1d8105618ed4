use secure_aggregation::param::{Param, greatest_factor_under};

#[test]
fn greatest_factor_under_values() {
    assert_eq!(greatest_factor_under(12, 5), 4);
    assert_eq!(greatest_factor_under(12, 12), 6);
    assert_eq!(greatest_factor_under(7, 3), 1);
    assert_eq!(greatest_factor_under(32, 16), 16);
    assert_eq!(greatest_factor_under(12, 3), 3);
}

#[test]
fn new_param_starts_unchosen() {
    let p = Param::new(17, 2, 3, 3, 2);
    assert_eq!(p.prime(), 17);
    assert_eq!(p.r2(), 2);
    assert_eq!(p.r3(), 3);
    assert_eq!(p.use_d2(), 0);
    assert_eq!(p.use_d3(), 0);
    assert_eq!(p.use_r2(), 0);
    assert_eq!(p.use_r3(), 0);
    assert_eq!(p.block_len(), 0);
    assert_eq!(p.prime(), 17);
    assert_eq!(p.use_d2(), 0);
    assert_eq!(p.use_r3(), 0);
}

#[test]
fn semi_honest_parameters() {
    // root tables: twos [_, 16, 4, 2], threes [_, 10, 3]
    let mut p = Param::new(17, 2, 3, 3, 2);
    let r = p.calculate_semi_honest(5, 32, 1);
    assert_eq!(r, vec![17, 16, 3, 2, 9, 2]);
    assert_eq!(p.use_d2(), 2);
    assert_eq!(p.use_r2(), 16);
    assert_eq!(p.use_d3(), 9);
    assert_eq!(p.use_r3(), 3);
    assert_eq!(p.block_len(), 2);
}

#[test]
fn semi_honest_parameters_of_the_server_sample() {
    let mut p = Param::new(3073700804129980417, 1414118249734601779, 20, 308414859194273485, 15);
    let r = p.calculate_semi_honest(10, 12, 2);
    assert_eq!(r.len(), 6);
    assert_eq!(r[0], 3073700804129980417);
    assert_eq!(r[3], 4);
    assert_eq!(r[5], 4);
    assert_eq!(p.use_d2(), 4);
    assert_eq!(p.block_len(), 4);
}

#[test]
fn malicious_parameters() {
    let mut p = Param::new(17, 2, 3, 3, 2);
    let r = p.calculate_malicious(9, 12, 1, 1);
    assert_eq!(r, vec![17, 4, 3, 4, 9, 3]);
    assert_eq!(p.block_len(), 3);
}

#[test]
fn radix3_table_entry_below_top() {
    let mut p = Param::new(17, 2, 3, 3, 2);
    let r = p.calculate_semi_honest(3, 32, 1);
    // three clients need the order-3 root, 3^3 mod 17 = 10
    assert_eq!(r[2], 10);
    assert_eq!(r[4], 3);
}
