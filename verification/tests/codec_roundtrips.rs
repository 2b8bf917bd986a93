use search_engine::codec::{
    decode_i64, decode_i64_list, decode_pair, decode_u64, decode_u64_list, encode_i64,
    encode_i64_list, encode_pair, encode_u64, encode_u64_list,
};

#[test]
fn u64_key_is_fixed_width_big_endian() {
    let b = encode_u64(0x0102030405060708);
    assert_eq!(b, vec![1, 2, 3, 4, 5, 6, 7, 8]);
    assert_eq!(decode_u64(&b), Some(0x0102030405060708));
}

#[test]
fn u64_round_trip_edges() {
    for x in [0u64, 1, 255, 256, u64::MAX] {
        assert_eq!(decode_u64(&encode_u64(x)), Some(x));
    }
}

#[test]
fn u64_decode_rejects_wrong_width() {
    assert_eq!(decode_u64(&[1, 2, 3]), None);
    assert_eq!(decode_u64(&[]), None);
    assert_eq!(decode_u64(&[0; 9]), None);
}

#[test]
fn i64_round_trip_signed() {
    for x in [0i64, 1, -1, -5, i64::MIN, i64::MAX] {
        assert_eq!(decode_i64(&encode_i64(x)), Some(x));
    }
}

#[test]
fn tuple_key_round_trip() {
    let b = encode_pair(7, -3);
    assert_eq!(b.len(), 16);
    assert_eq!(decode_pair(&b), Some((7, -3)));
    assert_eq!(decode_pair(&b[..15]), None);
}

#[test]
fn set_record_is_length_prefixed() {
    let b = encode_u64_list(&vec![9]);
    assert_eq!(b, vec![0, 0, 0, 0, 0, 0, 0, 1, 0, 0, 0, 0, 0, 0, 0, 9]);
    let back = decode_u64_list(&b).unwrap();
    assert_eq!(back, vec![9]);
}

#[test]
fn set_record_round_trip() {
    let ids = vec![3u64, 1, 2, 500];
    let back = decode_u64_list(&encode_u64_list(&ids)).unwrap();
    assert_eq!(back, ids);
    assert_eq!(decode_u64_list(&encode_u64_list(&Vec::new())).unwrap(), Vec::<u64>::new());
}

#[test]
fn set_record_rejects_bad_length() {
    let mut b = encode_u64_list(&vec![1, 2]);
    b.pop();
    assert!(decode_u64_list(&b).is_none());
    assert!(decode_u64_list(&[0, 0, 0]).is_none());
}

#[test]
fn token_record_round_trip() {
    let ids = vec![-4i64, 0, 12, i64::MIN];
    let back = decode_i64_list(&encode_i64_list(&ids)).unwrap();
    assert_eq!(back, ids);
}
