//! Tests for the descriptor-driven static codec: records, arrays, unions.

use desse::{decode, encode, matches_desc, size, try_encode, validate, ErrorKind, TypeDesc, Value, Variant};

fn record_u8_u16() -> TypeDesc {
    TypeDesc::Record(vec![TypeDesc::U8, TypeDesc::U16])
}

#[test]
fn record_encodes_to_three_bytes() {
    let desc = record_u8_u16();
    let value = Value::Record(vec![Value::U8(253), Value::U16(64016)]);
    assert!(validate(&desc));
    assert!(matches_desc(&desc, &value));
    assert_eq!(size(&desc), 3);
    let bytes = encode(&desc, &value);
    // 64016 = 0xFA10, little-endian [0x10, 0xFA].
    assert_eq!(bytes, vec![253, 16, 250]);
    let back = decode(&desc, &bytes).unwrap();
    assert_eq!(back, value);

    // Decoding [253, 144, 250] gives the record {253, 0xFA90 = 64144}.
    let other = decode(&desc, &[253, 144, 250]).unwrap();
    assert_eq!(other, Value::Record(vec![Value::U8(253), Value::U16(64144)]));
}

#[test]
fn unit_union_discriminant() {
    let desc = TypeDesc::Union(vec![
        Variant { fields: vec![] },
        Variant { fields: vec![] },
        Variant { fields: vec![] },
    ]);
    assert!(validate(&desc));
    assert_eq!(size(&desc), 1);
    let value = Value::Union(1, vec![]);
    let bytes = encode(&desc, &value);
    assert_eq!(bytes, vec![1]);
    assert_eq!(decode(&desc, &bytes).unwrap(), Value::Union(1, vec![]));
    let e = decode(&desc, &[5]).unwrap_err();
    assert_eq!(e.kind(), ErrorKind::InvalidDiscriminant);
}

#[test]
fn payload_union_encoding() {
    let desc = TypeDesc::Union(vec![
        Variant { fields: vec![] },
        Variant { fields: vec![TypeDesc::U8, TypeDesc::U16] },
    ]);
    assert!(validate(&desc));
    // 1-byte discriminant plus the largest payload (1 + 2 bytes).
    assert_eq!(size(&desc), 4);
    let value = Value::Union(1, vec![Value::U8(5), Value::U16(1000)]);
    let bytes = encode(&desc, &value);
    assert_eq!(bytes, vec![1, 5, 232, 3]);
    assert_eq!(decode(&desc, &bytes).unwrap(), value);

    // The unit variant pads its tail with zeros up to the union's size.
    let unit = Value::Union(0, vec![]);
    let unit_bytes = encode(&desc, &unit);
    assert_eq!(unit_bytes, vec![0, 0, 0, 0]);
    assert_eq!(decode(&desc, &unit_bytes).unwrap(), unit);

    // Bytes past the selected variant's payload are padding: decode reads
    // only the discriminant and that payload.
    assert_eq!(decode(&desc, &[0, 9, 9, 9]).unwrap(), unit);
}

#[test]
fn array_round_trip() {
    let desc = TypeDesc::Array(3, Box::new(TypeDesc::U16));
    let value = Value::Array(vec![Value::U16(1), Value::U16(2), Value::U16(515)]);
    assert_eq!(size(&desc), 6);
    let bytes = encode(&desc, &value);
    assert_eq!(bytes, vec![1, 0, 2, 0, 3, 2]);
    assert_eq!(decode(&desc, &bytes).unwrap(), value);
}

#[test]
fn nested_record_round_trip() {
    let inner = TypeDesc::Record(vec![TypeDesc::Bool, TypeDesc::I32]);
    let desc = TypeDesc::Record(vec![
        TypeDesc::Char,
        inner,
        TypeDesc::Array(2, Box::new(TypeDesc::U8)),
    ]);
    let value = Value::Record(vec![
        Value::Char('A'),
        Value::Record(vec![Value::Bool(true), Value::I32(-2)]),
        Value::Array(vec![Value::U8(9), Value::U8(10)]),
    ]);
    assert!(validate(&desc));
    assert!(matches_desc(&desc, &value));
    assert_eq!(size(&desc), 4 + 5 + 2);
    let bytes = encode(&desc, &value);
    assert_eq!(bytes.len(), 11);
    assert_eq!(decode(&desc, &bytes).unwrap(), value);
}

#[test]
fn wrong_length_is_invalid_slice_length() {
    let desc = record_u8_u16();
    let e = decode(&desc, &[1, 2]).unwrap_err();
    assert_eq!(e.kind(), ErrorKind::InvalidSliceLength);
    let e = decode(&desc, &[1, 2, 3, 4]).unwrap_err();
    assert_eq!(e.kind(), ErrorKind::InvalidSliceLength);
}

#[test]
fn invalid_char_is_rejected() {
    let desc = TypeDesc::Char;
    // 0xD800 is a surrogate code point, not a Unicode scalar value.
    let e = decode(&desc, &[0x00, 0xD8, 0x00, 0x00]).unwrap_err();
    assert_eq!(e.kind(), ErrorKind::InvalidChar);
    // 0x110000 is beyond the last code point.
    let e = decode(&desc, &[0x00, 0x00, 0x11, 0x00]).unwrap_err();
    assert_eq!(e.kind(), ErrorKind::InvalidChar);
    let ok = decode(&desc, &[0x41, 0x00, 0x00, 0x00]).unwrap();
    assert_eq!(ok, Value::Char('A'));
}

#[test]
fn nonzero_byte_decodes_to_true() {
    let desc = TypeDesc::Bool;
    assert_eq!(decode(&desc, &[0]).unwrap(), Value::Bool(false));
    assert_eq!(decode(&desc, &[1]).unwrap(), Value::Bool(true));
    assert_eq!(decode(&desc, &[7]).unwrap(), Value::Bool(true));
}

#[test]
fn empty_shapes_are_rejected_at_validation() {
    assert!(!validate(&TypeDesc::Record(vec![])));
    assert!(!validate(&TypeDesc::Union(vec![])));
    assert!(!validate(&TypeDesc::Array(
        2,
        Box::new(TypeDesc::Record(vec![]))
    )));
    assert!(validate(&TypeDesc::Record(vec![TypeDesc::U8])));
}

#[test]
fn mismatched_value_is_detected() {
    let desc = record_u8_u16();
    assert!(!matches_desc(&desc, &Value::U8(1)));
    assert!(!matches_desc(
        &desc,
        &Value::Record(vec![Value::U16(1), Value::U8(2)])
    ));
    assert!(!matches_desc(&desc, &Value::Record(vec![Value::U8(1)])));
    let union = TypeDesc::Union(vec![Variant { fields: vec![] }]);
    assert!(!matches_desc(&union, &Value::Union(1, vec![])));
}

#[test]
fn encoding_twice_is_identical() {
    let desc = record_u8_u16();
    let value = Value::Record(vec![Value::U8(1), Value::U16(2)]);
    assert_eq!(encode(&desc, &value), encode(&desc, &value));
}

#[test]
fn signed_and_wide_scalars_round_trip() {
    let desc = TypeDesc::Record(vec![
        TypeDesc::I8,
        TypeDesc::I64,
        TypeDesc::U128,
        TypeDesc::I128,
    ]);
    let value = Value::Record(vec![
        Value::I8(-1),
        Value::I64(i64::MIN),
        Value::U128(u128::MAX),
        Value::I128(i128::MIN),
    ]);
    let bytes = encode(&desc, &value);
    assert_eq!(bytes.len(), 1 + 8 + 16 + 16);
    assert_eq!(decode(&desc, &bytes).unwrap(), value);
}

#[test]
fn two_byte_discriminant_for_large_union() {
    let mut variants = Vec::new();
    for _ in 0..300 {
        variants.push(Variant { fields: vec![] });
    }
    let desc = TypeDesc::Union(variants);
    assert_eq!(desse::discriminant_width(300), 2);
    assert_eq!(size(&desc), 2);
    let value = Value::Union(299, vec![]);
    let bytes = encode(&desc, &value);
    assert_eq!(bytes, vec![43, 1]);
    assert_eq!(decode(&desc, &bytes).unwrap(), value);
}

#[test]
fn element_error_propagates_from_arrays() {
    // The second element holds an invalid code point: decoding the array
    // reports the element's error.
    let desc = TypeDesc::Array(2, Box::new(TypeDesc::Char));
    let bytes = [0x41, 0x00, 0x00, 0x00, 0x00, 0xD8, 0x00, 0x00];
    let e = decode(&desc, &bytes).unwrap_err();
    assert_eq!(e.kind(), ErrorKind::InvalidChar);
}

#[test]
fn union_inside_record_round_trip() {
    let union = TypeDesc::Union(vec![
        Variant { fields: vec![TypeDesc::U8] },
        Variant { fields: vec![TypeDesc::U32] },
    ]);
    let desc = TypeDesc::Record(vec![TypeDesc::U8, union]);
    // Union size: 1-byte discriminant + 4-byte largest payload.
    assert_eq!(size(&desc), 6);
    let value = Value::Record(vec![
        Value::U8(7),
        Value::Union(0, vec![Value::U8(200)]),
    ]);
    let bytes = encode(&desc, &value);
    assert_eq!(bytes, vec![7, 0, 200, 0, 0, 0]);
    assert_eq!(decode(&desc, &bytes).unwrap(), value);
}

#[test]
fn try_encode_rejects_bad_inputs() {
    let desc = TypeDesc::Record(vec![TypeDesc::U8, TypeDesc::U16]);
    let value = Value::Record(vec![Value::U8(1), Value::U16(2)]);
    assert_eq!(try_encode(&desc, &value).unwrap(), vec![1, 2, 0]);
    assert!(try_encode(&desc, &Value::U8(1)).is_none());
    assert!(try_encode(&TypeDesc::Record(vec![]), &Value::Record(vec![])).is_none());
}
