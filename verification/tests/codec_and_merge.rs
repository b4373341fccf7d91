use bigarray::bytes::{
    bytes_eq, i32_to_u32, lex_le_bytes, lex_lt_bytes, u32_from_be_bytes, u32_to_be_bytes,
    u32_to_i32,
};
use bigarray::codec::{elem_key, len_key, reducer_key, state_key, str_bytes};
use bigarray::merge::{decode_counter, encode_counter, merge_counter};

#[test]
fn element_keys_have_fixed_width_big_endian_suffixes() {
    assert_eq!(elem_key(0), vec![118, 97, 108, 0, 0, 0, 0]);
    assert_eq!(elem_key(1), vec![118, 97, 108, 0, 0, 0, 1]);
    assert_eq!(elem_key(256), vec![118, 97, 108, 0, 0, 1, 0]);
    assert_eq!(len_key(), vec![108, 101, 110]);
    assert_eq!(reducer_key("ab"), vec![114, 101, 100, 97, 98]);
    assert_eq!(state_key("ab"), vec![97, 103, 103, 97, 98]);
}

#[test]
fn key_order_equals_index_order() {
    // in particular 2 < 10 although "10" < "2" as text
    assert!(lex_lt_bytes(&elem_key(2), &elem_key(10)));
    assert!(lex_lt_bytes(&elem_key(9), &elem_key(10)));
    assert!(lex_lt_bytes(&elem_key(255), &elem_key(256)));
    assert!(!lex_lt_bytes(&elem_key(10), &elem_key(2)));
    assert!(lex_le_bytes(&elem_key(7), &elem_key(7)));
    // namespaces order: agg < len < red < val
    assert!(lex_lt_bytes(&state_key("z"), &len_key()));
    assert!(lex_lt_bytes(&len_key(), &reducer_key("a")));
    assert!(lex_lt_bytes(&reducer_key("z"), &elem_key(0)));
}

#[test]
fn be32_round_trips() {
    for x in [0u32, 1, 255, 256, 65535, 0x7fff_ffff, 0xffff_ffff] {
        let b = u32_to_be_bytes(x);
        assert_eq!(u32_from_be_bytes(&b, 0), x);
    }
    assert_eq!(u32_to_i32(i32_to_u32(-1)), -1);
    assert_eq!(u32_to_i32(i32_to_u32(i32::MIN)), i32::MIN);
    assert_eq!(u32_to_i32(i32_to_u32(i32::MAX)), i32::MAX);
}

#[test]
fn merge_sums_existing_and_operands() {
    let three = encode_counter(3);
    let minus_one = encode_counter(-1);
    let merged = merge_counter(None, &vec![three.clone()]);
    assert_eq!(decode_counter(&merged), 3);
    let merged = merge_counter(Some(&merged), &vec![minus_one.clone(), three.clone()]);
    assert_eq!(decode_counter(&merged), 5);
}

#[test]
fn merge_in_any_grouping_or_order_gives_one_result() {
    let a = encode_counter(5);
    let b = encode_counter(-2);
    let c = encode_counter(9);
    let all_at_once = merge_counter(None, &vec![a.clone(), b.clone(), c.clone()]);
    let pass_one = merge_counter(None, &vec![a.clone()]);
    let two_passes = merge_counter(Some(&pass_one), &vec![b.clone(), c.clone()]);
    assert!(bytes_eq(&all_at_once, &two_passes));
    let reordered = merge_counter(None, &vec![c, a, b]);
    assert!(bytes_eq(&all_at_once, &reordered));
    assert_eq!(decode_counter(&all_at_once), 12);
}

#[test]
fn merge_treats_malformed_operands_as_zero() {
    let odd = vec![1u8, 2, 3];
    let merged = merge_counter(None, &vec![odd, encode_counter(4)]);
    assert_eq!(decode_counter(&merged), 4);
    let short = vec![9u8];
    let merged = merge_counter(Some(&short), &vec![encode_counter(2)]);
    assert_eq!(decode_counter(&merged), 2);
}

#[test]
fn merge_wraps_at_the_signed_boundary() {
    let max = encode_counter(i32::MAX);
    let one = encode_counter(1);
    let merged = merge_counter(Some(&max), &vec![one]);
    assert_eq!(decode_counter(&merged), i32::MIN);
}

#[test]
fn string_bytes_round_trip() {
    let b = str_bytes("caf\u{e9}");
    assert_eq!(b, vec![99, 97, 102, 195, 169]);
    assert_eq!(bigarray::codec::bytes_to_string(b), Some("caf\u{e9}".to_string()));
    assert_eq!(bigarray::codec::bytes_to_string(vec![0xff, 0xfe]), None);
}
