use secure_aggregation::util::{read_le_u64, read_le_u128, read_le_usize, read_be_u64, write_u64_le_u8, into_be_u64_vec};

#[test]
fn write_then_read_gives_words_back() {
    let v: Vec<u64> = vec![0, 1, 0x0102_0304_0506_0708, u64::MAX];
    let bytes = write_u64_le_u8(&v);
    assert_eq!(bytes.len(), 32);
    assert_eq!(&bytes[16..24], &[8, 7, 6, 5, 4, 3, 2, 1]);
    assert_eq!(read_le_u64(bytes), v);
}

#[test]
fn read_le_u64_ignores_short_tail() {
    let mut bytes = vec![1u8, 0, 0, 0, 0, 0, 0, 0];
    bytes.extend_from_slice(&[9, 9, 9]);
    assert_eq!(read_le_u64(bytes), vec![1u64]);
    assert_eq!(read_le_u64(Vec::new()), Vec::<u64>::new());
}

#[test]
fn read_le_usize_matches_read_le_u64() {
    let bytes: Vec<u8> = (0u8..24).collect();
    assert_eq!(read_le_usize(&bytes), read_le_u64(bytes.clone()));
}

#[test]
fn read_le_u128_words() {
    let mut bytes = vec![0u8; 32];
    bytes[0] = 5;
    bytes[16 + 15] = 1;
    let words = read_le_u128(bytes);
    assert_eq!(words, vec![5u128, 1u128 << 120]);
}

#[test]
fn read_be_u64_words() {
    let bytes = vec![0u8, 0, 0, 0, 0, 0, 1, 2, 0xff, 0, 0, 0, 0, 0, 0, 0];
    assert_eq!(read_be_u64(bytes), vec![0x0102u64, 0xff00_0000_0000_0000]);
}

#[test]
fn bits_of_thirteen() {
    assert_eq!(into_be_u64_vec(13, 0), vec![1, 0, 1, 1]);
    assert_eq!(into_be_u64_vec(13, 6), vec![1, 0, 1, 1, 0, 0]);
    assert_eq!(into_be_u64_vec(0, 3), vec![0, 0, 0]);
    let bits = into_be_u64_vec(0xdead_beef, 40);
    let mut value = 0u64;
    for (i, b) in bits.iter().enumerate() {
        value += b << i;
    }
    assert_eq!(value, 0xdead_beef);
}
