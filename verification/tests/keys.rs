use sand::rocksstore::keys::{
    applied_key, data_key, decimal_bytes, hard_state_key, index_of_key, log_key, lookup_key,
    parse_u64,
};
use sand::codec::encode_string;
use sand::rocksstore::merge::provided_merge;

#[test]
fn log_key_is_prefix_and_decimal_index() {
    assert_eq!(log_key(0), b"0000".to_vec());
    assert_eq!(log_key(42), b"00042".to_vec());
    assert_eq!(log_key(18446744073709551615), b"00018446744073709551615".to_vec());
}

#[test]
fn applied_and_hard_state_keys() {
    assert_eq!(applied_key(7), b"0017".to_vec());
    assert_eq!(hard_state_key(), b"002hs".to_vec());
}

#[test]
fn data_and_lookup_keys_agree() {
    assert_eq!(data_key("user"), b"003user".to_vec());
    assert_eq!(lookup_key(b"user"), data_key("user"));
    assert_eq!(data_key("é"), vec![b'0', b'0', b'3', 0xc3, 0xa9]);
}

#[test]
fn decimal_text_matches_format() {
    for n in [0u64, 1, 9, 10, 99, 100, 12345, u64::MAX] {
        assert_eq!(decimal_bytes(n), format!("{}", n).into_bytes());
    }
}

#[test]
fn parse_matches_std_parse() {
    let cases: Vec<&[u8]> = vec![
        b"", b"0", b"7", b"+7", b"+", b"-7", b"++7", b"007", b"18446744073709551615",
        b"18446744073709551616", b"12a", b" 1", b"99999999999999999999",
    ];
    for c in cases {
        let expected = std::str::from_utf8(c).unwrap().parse::<u64>().ok();
        assert_eq!(parse_u64(c), expected, "input {:?}", c);
    }
}

#[test]
fn index_of_key_reads_back_the_index() {
    assert_eq!(index_of_key(&log_key(123)), 123);
    assert_eq!(index_of_key(&applied_key(9)), 9);
    assert_eq!(index_of_key(b"000abc"), 0);
    assert_eq!(index_of_key(b"000"), 0);
}

#[test]
fn string_encoding_matches_rmp_serde_at_every_header_width() {
    for n in [0usize, 1, 31, 32, 255, 256, 65535, 65536, 70000] {
        let v = "y".repeat(n);
        assert_eq!(encode_string(&v), rmp_serde::to_vec(&v).unwrap(), "length {}", n);
    }
    assert_eq!(encode_string("é"), vec![0xa2, 0xc3, 0xa9]);
}

#[test]
fn merge_concatenates_existing_value_and_operands() {
    let ops = vec![b"b".to_vec(), b"cd".to_vec()];
    assert_eq!(provided_merge(Some(b"a"), &ops), b"abcd".to_vec());
    assert_eq!(provided_merge(None, &ops), b"bcd".to_vec());
    assert_eq!(provided_merge(None, &Vec::new()), Vec::<u8>::new());
}
