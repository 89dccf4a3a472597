//! Tests for the length-prefixed dynamic path.

use desse::DesseDynamic;

#[test]
fn check_string() {
    let s = "hello".to_string();
    let serialized = DesseDynamic::serialize(&s).unwrap();
    let mut reader: &[u8] = &serialized;
    let new_s = String::deserialize_from(&mut reader).unwrap();
    assert_eq!(s, new_s, "Invalid serialization / deserialization")
}

#[test]
fn check_str() {
    let s = "hello";
    let serialized = DesseDynamic::serialize(&String::from(s)).unwrap();
    let mut reader: &[u8] = &serialized;
    let new_s = String::deserialize_from(&mut reader).unwrap();
    assert_eq!(s, new_s, "Invalid serialization / deserialization")
}

#[test]
fn check_vec_str() {
    let v = vec!["hello".to_string(), "world".to_string()];
    let serialized =
        DesseDynamic::serialize(&vec!["hello".to_string(), "world".to_string()]).unwrap();
    let mut reader: &[u8] = &serialized;
    let new_v = Vec::<String>::deserialize_from(&mut reader).unwrap();
    assert_eq!(v, new_v, "Invalid serialization / deserialization")
}

#[test]
fn text_hi_encodes_to_length_prefix_then_bytes() {
    let s = "hi".to_string();
    let serialized = DesseDynamic::serialize(&s).unwrap();
    assert_eq!(serialized, vec![2, 0, 0, 0, 0, 0, 0, 0, 104, 105]);
    assert_eq!(s.serialized_size(), 10);
}

#[test]
fn dynamic_primitives_round_trip() {
    let cases_u64: [u64; 3] = [0, 1005, u64::MAX];
    for num in cases_u64 {
        let serialized = DesseDynamic::serialize(&num).unwrap();
        assert_eq!(serialized.len(), num.serialized_size());
        let mut reader: &[u8] = &serialized;
        let new_num = <u64 as DesseDynamic>::deserialize_from(&mut reader).unwrap();
        assert_eq!(num, new_num, "Invalid serialization / deserialization");
    }
    let cases_i16: [i16; 3] = [i16::MIN, -1, i16::MAX];
    for num in cases_i16 {
        let serialized = DesseDynamic::serialize(&num).unwrap();
        let mut reader: &[u8] = &serialized;
        let new_num = <i16 as DesseDynamic>::deserialize_from(&mut reader).unwrap();
        assert_eq!(num, new_num, "Invalid serialization / deserialization");
    }
    let c = '\u{1F600}';
    let serialized = DesseDynamic::serialize(&c).unwrap();
    let mut reader: &[u8] = &serialized;
    let new_c = <char as DesseDynamic>::deserialize_from(&mut reader).unwrap();
    assert_eq!(c, new_c, "Invalid serialization / deserialization");
    let b = true;
    let serialized = DesseDynamic::serialize(&b).unwrap();
    let mut reader: &[u8] = &serialized;
    let new_b = <bool as DesseDynamic>::deserialize_from(&mut reader).unwrap();
    assert_eq!(b, new_b, "Invalid serialization / deserialization");
}

#[test]
fn dynamic_serialize_twice_is_identical() {
    let v = vec!["alpha".to_string(), "beta".to_string()];
    let first = DesseDynamic::serialize(&v).unwrap();
    let second = DesseDynamic::serialize(&v).unwrap();
    assert_eq!(first, second);
}

#[test]
fn dynamic_short_input_is_invalid_slice_length() {
    // Too short even for the length prefix.
    let bytes: Vec<u8> = vec![1, 2, 3];
    let mut reader: &[u8] = &bytes;
    let e = String::deserialize_from(&mut reader).unwrap_err();
    assert_eq!(e.kind(), desse::ErrorKind::InvalidSliceLength);

    // Prefix says 5 bytes of text, but only 2 follow.
    let bytes: Vec<u8> = vec![5, 0, 0, 0, 0, 0, 0, 0, 104, 105];
    let mut reader: &[u8] = &bytes;
    let e = String::deserialize_from(&mut reader).unwrap_err();
    assert_eq!(e.kind(), desse::ErrorKind::InvalidSliceLength);
}

#[test]
fn dynamic_invalid_utf8_is_invalid_str() {
    let bytes: Vec<u8> = vec![2, 0, 0, 0, 0, 0, 0, 0, 0xFF, 0xFE];
    let mut reader: &[u8] = &bytes;
    let e = String::deserialize_from(&mut reader).unwrap_err();
    assert_eq!(e.kind(), desse::ErrorKind::InvalidStr);
}

#[test]
fn vec_serialized_size_sums_elements() {
    let v = vec!["hi".to_string(), "there".to_string()];
    // 8 (count) + (8 + 2) + (8 + 5)
    assert_eq!(v.serialized_size(), 31);
    let serialized = DesseDynamic::serialize(&v).unwrap();
    assert_eq!(serialized.len(), 31);
}

#[test]
fn nested_vec_round_trip() {
    let v: Vec<Vec<u32>> = vec![vec![1, 2, 3], vec![], vec![u32::MAX]];
    let serialized = DesseDynamic::serialize(&v).unwrap();
    let mut reader: &[u8] = &serialized;
    let new_v = Vec::<Vec<u32>>::deserialize_from(&mut reader).unwrap();
    assert_eq!(v, new_v, "Invalid serialization / deserialization");
}

#[test]
fn unchecked_tier_round_trips() {
    let s = "unchecked".to_string();
    let mut out: Vec<u8> = Vec::new();
    s.serialize_into_unchecked(&mut out).unwrap();
    let mut reader: &[u8] = &out;
    let new_s = String::deserialize_from_unchecked(&mut reader).unwrap();
    assert_eq!(s, new_s, "Invalid serialization / deserialization");
}

#[test]
fn vec_unchecked_round_trip() {
    let v: Vec<u16> = vec![1, 2, 65535];
    let mut out: Vec<u8> = Vec::new();
    v.serialize_into_unchecked(&mut out).unwrap();
    assert_eq!(out.len(), 8 + 3 * 2);
    let mut reader: &[u8] = &out;
    let new_v = Vec::<u16>::deserialize_from_unchecked(&mut reader).unwrap();
    assert_eq!(v, new_v, "Invalid serialization / deserialization");
}
