//! Tests for the fixed-size scalar codec, the error type, the readers and
//! writers, and the `max` helper.

use desse::{max, Desse, DesseDynamic, DesseSized, Error, ErrorKind, Reader, SliceWriter, Writer};

#[test]
fn u16_serializes_little_endian() {
    let n: u16 = 0x1234;
    let bytes = <u16 as Desse>::serialize(&n);
    assert_eq!(bytes, vec![0x34, 0x12]);
    assert_eq!(<u16 as DesseSized>::size(), 2);
    let back = <u16 as Desse>::deserialize_from(&bytes).unwrap();
    assert_eq!(back, n);
}

#[test]
fn record_like_manual_round_trip() {
    // A struct { a: u8, b: u16 } serialized by hand: fields back to back.
    let a: u8 = 5;
    let b: u16 = 1005;
    let mut bytes: Vec<u8> = Vec::new();
    <u8 as Desse>::serialize_into(&a, &mut bytes);
    <u16 as Desse>::serialize_into(&b, &mut bytes);
    assert_eq!(bytes.len(), 3);
    let new_a = <u8 as Desse>::deserialize_from(&bytes[0..1]).unwrap();
    let new_b = <u16 as Desse>::deserialize_from(&bytes[1..3]).unwrap();
    assert_eq!((a, b), (new_a, new_b));
}

#[test]
fn all_integer_widths_round_trip() {
    let v: u8 = u8::MAX;
    let bytes = <u8 as Desse>::serialize(&v);
    assert_eq!(bytes.len(), <u8 as DesseSized>::size());
    assert_eq!(<u8 as Desse>::deserialize_from(&bytes).unwrap(), v);

    let v: u16 = 0;
    let bytes = <u16 as Desse>::serialize(&v);
    assert_eq!(bytes.len(), <u16 as DesseSized>::size());
    assert_eq!(<u16 as Desse>::deserialize_from(&bytes).unwrap(), v);

    let v: u32 = u32::MAX;
    let bytes = <u32 as Desse>::serialize(&v);
    assert_eq!(bytes.len(), <u32 as DesseSized>::size());
    assert_eq!(<u32 as Desse>::deserialize_from(&bytes).unwrap(), v);

    let v: u64 = 1 << 63;
    let bytes = <u64 as Desse>::serialize(&v);
    assert_eq!(bytes.len(), <u64 as DesseSized>::size());
    assert_eq!(<u64 as Desse>::deserialize_from(&bytes).unwrap(), v);

    let v: u128 = u128::MAX;
    let bytes = <u128 as Desse>::serialize(&v);
    assert_eq!(bytes.len(), <u128 as DesseSized>::size());
    assert_eq!(<u128 as Desse>::deserialize_from(&bytes).unwrap(), v);

    let v: i8 = i8::MIN;
    let bytes = <i8 as Desse>::serialize(&v);
    assert_eq!(bytes.len(), <i8 as DesseSized>::size());
    assert_eq!(<i8 as Desse>::deserialize_from(&bytes).unwrap(), v);

    let v: i16 = -2;
    let bytes = <i16 as Desse>::serialize(&v);
    assert_eq!(bytes, vec![0xFE, 0xFF]);
    assert_eq!(<i16 as Desse>::deserialize_from(&bytes).unwrap(), v);

    let v: i32 = i32::MIN;
    let bytes = <i32 as Desse>::serialize(&v);
    assert_eq!(bytes.len(), <i32 as DesseSized>::size());
    assert_eq!(<i32 as Desse>::deserialize_from(&bytes).unwrap(), v);

    let v: i64 = i64::MAX;
    let bytes = <i64 as Desse>::serialize(&v);
    assert_eq!(bytes.len(), <i64 as DesseSized>::size());
    assert_eq!(<i64 as Desse>::deserialize_from(&bytes).unwrap(), v);

    let v: i128 = i128::MIN;
    let bytes = <i128 as Desse>::serialize(&v);
    assert_eq!(bytes.len(), <i128 as DesseSized>::size());
    assert_eq!(<i128 as Desse>::deserialize_from(&bytes).unwrap(), v);
}

#[test]
fn bool_and_char_serialize() {
    assert_eq!(<bool as Desse>::serialize(&true), vec![1]);
    assert_eq!(<bool as Desse>::serialize(&false), vec![0]);
    assert_eq!(<char as Desse>::serialize(&'A'), vec![65, 0, 0, 0]);
    let c = '\u{10FFFF}';
    let bytes = <char as Desse>::serialize(&c);
    assert_eq!(<char as Desse>::deserialize_from(&bytes).unwrap(), c);
}

#[test]
fn char_deserialize_rejects_surrogates() {
    let e = <char as Desse>::deserialize_from(&[0x00, 0xD8, 0x00, 0x00]).unwrap_err();
    assert_eq!(e.kind(), ErrorKind::InvalidChar);
}

#[test]
fn error_kind_and_message() {
    let e = Error::new(ErrorKind::InvalidChar);
    assert_eq!(e.kind(), ErrorKind::InvalidChar);
    assert_eq!(e.message(), "Deserialization from bytes to char failed");
    let e = Error::new(ErrorKind::InvalidSliceLength);
    assert_eq!(e.message(), "Input slice is of invalid length");
    let e = Error::new(ErrorKind::InvalidStr);
    assert_eq!(e.message(), "Deserialization from bytes to String failed");
}

#[test]
fn max_picks_larger() {
    assert_eq!(max(1, 2), 2);
    assert_eq!(max(2, 1), 2);
    assert_eq!(max(7, 7), 7);
    assert_eq!(max(0, usize::MAX), usize::MAX);
}

#[test]
fn slice_reader_checked_and_unchecked() {
    let data: Vec<u8> = vec![1, 2, 3, 4, 5];
    let mut reader: &[u8] = &data;
    let first = reader.read(2).unwrap();
    assert_eq!(first, vec![1, 2]);
    let rest = reader.read(3).unwrap();
    assert_eq!(rest, vec![3, 4, 5]);
    let e = reader.read(1).unwrap_err();
    assert_eq!(e.kind(), ErrorKind::InvalidSliceLength);

    let mut reader: &[u8] = &data;
    let first = reader.read_unchecked(4).unwrap();
    assert_eq!(first, vec![1, 2, 3, 4]);
}

#[test]
fn vec_writer_appends() {
    let mut out: Vec<u8> = Vec::new();
    out.write(&[1, 2]).unwrap();
    out.write_unchecked(&[3]).unwrap();
    assert_eq!(out, vec![1, 2, 3]);
}

#[test]
fn slice_writer_writes_over_fixed_buffer() {
    let buf: Vec<u8> = vec![0; 4];
    let mut w = SliceWriter::new(buf);
    w.write(&[9, 8]).unwrap();
    w.write(&[7]).unwrap();
    let e = w.write(&[6, 5]).unwrap_err();
    assert_eq!(e.kind(), ErrorKind::InvalidSliceLength);
    w.write(&[6]).unwrap();
    assert_eq!(w.into_inner(), vec![9, 8, 7, 6]);
}

#[test]
fn dynamic_write_into_fixed_buffer() {
    let s = "hi".to_string();
    let mut w = SliceWriter::new(vec![0; 10]);
    s.serialize_into(&mut w).unwrap();
    assert_eq!(w.into_inner(), vec![2, 0, 0, 0, 0, 0, 0, 0, 104, 105]);

    // A buffer one byte too small: the checked tier reports the shortfall.
    let mut w = SliceWriter::new(vec![0; 9]);
    let e = s.serialize_into(&mut w).unwrap_err();
    assert_eq!(e.kind(), ErrorKind::InvalidSliceLength);
}
