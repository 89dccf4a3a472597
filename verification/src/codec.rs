//! Values and the static encoding engine.
//!
//! A [`Value`] is a runtime value shaped by a [`TypeDesc`]; its view is a
//! [`ValueView`], the same tree with mathematical sequences in place of
//! vectors. The conformance relation [`fits`] says when a value has a
//! descriptor's shape. The spec functions [`enc`] and [`dec`] define the wire
//! format mathematically; [`encode`] and [`decode`] are the verified
//! executable codec, proved to produce and consume exactly those bytes. The
//! round-trip, size and discriminant laws are proved in this module.

use vstd::prelude::*;

use crate::bytes::{
    le_bytes, le_value, pow256, read_le_bytes, write_le_bytes, write_zero_bytes, zero_bytes,
    lemma_le_bytes_len, lemma_le_value_le_bytes,
};
use crate::error::{Error, ErrorKind};
use crate::schema::{
    disc_width, desc_size, fields_size, max_payload_size, discriminant_width, size, TypeDesc,
    fields_total_size, lemma_disc_width_covers, lemma_fields_size_ge_index,
    lemma_fields_size_snoc, lemma_fields_size_split, lemma_max_payload_ge,
};

verus! {

/// A runtime value of some encodable shape.
#[derive(Debug, PartialEq)]
pub enum Value {
    /// Unsigned 8-bit integer.
    U8(u8),
    /// Unsigned 16-bit integer.
    U16(u16),
    /// Unsigned 32-bit integer.
    U32(u32),
    /// Unsigned 64-bit integer.
    U64(u64),
    /// Unsigned 128-bit integer.
    U128(u128),
    /// Signed 8-bit integer.
    I8(i8),
    /// Signed 16-bit integer.
    I16(i16),
    /// Signed 32-bit integer.
    I32(i32),
    /// Signed 64-bit integer.
    I64(i64),
    /// Signed 128-bit integer.
    I128(i128),
    /// Boolean.
    Bool(bool),
    /// Unicode scalar value.
    Char(char),
    /// Fixed-size array of elements of one shape.
    Array(Vec<Value>),
    /// Record: one value per field, in declared order.
    Record(Vec<Value>),
    /// Tagged union: the active variant's index and its payload values.
    Union(usize, Vec<Value>),
}

/// The mathematical shape of a [`Value`]: the same tree with sequences in
/// place of vectors. Contracts and laws are stated over this type.
pub enum ValueView {
    /// Unsigned 8-bit integer.
    U8(u8),
    /// Unsigned 16-bit integer.
    U16(u16),
    /// Unsigned 32-bit integer.
    U32(u32),
    /// Unsigned 64-bit integer.
    U64(u64),
    /// Unsigned 128-bit integer.
    U128(u128),
    /// Signed 8-bit integer.
    I8(i8),
    /// Signed 16-bit integer.
    I16(i16),
    /// Signed 32-bit integer.
    I32(i32),
    /// Signed 64-bit integer.
    I64(i64),
    /// Signed 128-bit integer.
    I128(i128),
    /// Boolean.
    Bool(bool),
    /// Unicode scalar value.
    Char(char),
    /// Fixed-size array of elements of one shape.
    Array(Seq<ValueView>),
    /// Record: one value per field, in declared order.
    Record(Seq<ValueView>),
    /// Tagged union: the active variant's index and its payload values.
    Union(usize, Seq<ValueView>),
}

/// The view of one value.
pub open spec fn value_view(v: Value) -> ValueView
    decreases v,
{
    match v {
        Value::U8(x) => ValueView::U8(x),
        Value::U16(x) => ValueView::U16(x),
        Value::U32(x) => ValueView::U32(x),
        Value::U64(x) => ValueView::U64(x),
        Value::U128(x) => ValueView::U128(x),
        Value::I8(x) => ValueView::I8(x),
        Value::I16(x) => ValueView::I16(x),
        Value::I32(x) => ValueView::I32(x),
        Value::I64(x) => ValueView::I64(x),
        Value::I128(x) => ValueView::I128(x),
        Value::Bool(b) => ValueView::Bool(b),
        Value::Char(c) => ValueView::Char(c),
        Value::Array(es) => ValueView::Array(value_views(es@)),
        Value::Record(vals) => ValueView::Record(value_views(vals@)),
        Value::Union(idx, payload) => ValueView::Union(idx, value_views(payload@)),
    }
}

/// The views of a sequence of values, elementwise.
pub open spec fn value_views(es: Seq<Value>) -> Seq<ValueView>
    decreases es,
{
    if es.len() == 0 {
        Seq::empty()
    } else {
        seq![value_view(es[0])] + value_views(es.drop_first())
    }
}

impl View for Value {
    type V = ValueView;

    open spec fn view(&self) -> ValueView {
        value_view(*self)
    }
}

pub proof fn lemma_value_views_len(es: Seq<Value>)
    ensures
        value_views(es).len() == es.len(),
    decreases es,
{
    if es.len() > 0 {
        lemma_value_views_len(es.drop_first());
    }
}

pub proof fn lemma_value_views_index(es: Seq<Value>, i: int)
    requires
        0 <= i < es.len(),
    ensures
        value_views(es).len() == es.len(),
        value_views(es)[i] == value_view(es[i]),
    decreases es,
{
    lemma_value_views_len(es);
    if i > 0 {
        lemma_value_views_index(es.drop_first(), i - 1);
    }
}

/// Appending one value appends its view.
pub proof fn lemma_value_views_push(es: Seq<Value>, v: Value)
    ensures
        value_views(es.push(v)) == value_views(es).push(value_view(v)),
    decreases es,
{
    lemma_value_views_len(es);
    if es.len() == 0 {
        assert(es.push(v)[0] == v);
        assert(es.push(v).drop_first() =~= Seq::<Value>::empty());
        assert(value_views(Seq::<Value>::empty()) =~= Seq::<ValueView>::empty());
        assert(value_views(es.push(v)) =~= value_views(es).push(value_view(v)));
    } else {
        lemma_value_views_push(es.drop_first(), v);
        assert(es.push(v)[0] == es[0]);
        assert(es.push(v).drop_first() =~= es.drop_first().push(v));
        assert(value_views(es.push(v)) == seq![value_view(es[0])] + value_views(
            es.drop_first().push(v),
        ));
        assert(value_views(es.push(v)) == seq![value_view(es[0])] + value_views(
            es.drop_first(),
        ).push(value_view(v)));
        assert(seq![value_view(es[0])] + value_views(es.drop_first()).push(value_view(v))
            =~= (seq![value_view(es[0])] + value_views(es.drop_first())).push(value_view(v)));
        assert(value_views(es) == seq![value_view(es[0])] + value_views(es.drop_first()));
    }
}

/// Whether value `v` has shape `d`.
pub open spec fn fits(d: TypeDesc, v: ValueView) -> bool
    decreases d, 0nat,
    via fits_decreases
{
    match (d, v) {
        (TypeDesc::U8, ValueView::U8(_)) => true,
        (TypeDesc::U16, ValueView::U16(_)) => true,
        (TypeDesc::U32, ValueView::U32(_)) => true,
        (TypeDesc::U64, ValueView::U64(_)) => true,
        (TypeDesc::U128, ValueView::U128(_)) => true,
        (TypeDesc::I8, ValueView::I8(_)) => true,
        (TypeDesc::I16, ValueView::I16(_)) => true,
        (TypeDesc::I32, ValueView::I32(_)) => true,
        (TypeDesc::I64, ValueView::I64(_)) => true,
        (TypeDesc::I128, ValueView::I128(_)) => true,
        (TypeDesc::Bool, ValueView::Bool(_)) => true,
        (TypeDesc::Char, ValueView::Char(_)) => true,
        (TypeDesc::Array(n, t), ValueView::Array(elems)) => elems.len() == n && fits_elems(
            *t,
            elems,
        ),
        (TypeDesc::Record(fs), ValueView::Record(vals)) => fits_fields(fs@, vals),
        (TypeDesc::Union(vs), ValueView::Union(idx, payload)) => idx < vs@.len() && fits_fields(
            vs@[idx as int].fields@,
            payload,
        ),
        _ => false,
    }
}

#[via_fn]
proof fn fits_decreases(d: TypeDesc, v: ValueView) {
    match (d, v) {
        (TypeDesc::Union(vs), ValueView::Union(idx, payload)) => {
            if idx < vs@.len() {
                assert(decreases_to!(d => d->Union_0@[idx as int].fields@));
            }
        },
        _ => {},
    }
}

/// Whether every element of `es` has shape `t`.
pub open spec fn fits_elems(t: TypeDesc, es: Seq<ValueView>) -> bool
    decreases t, es.len(),
{
    es.len() == 0 || (fits(t, es[0]) && fits_elems(t, es.drop_first()))
}

/// Whether `vals` matches the field list `fs`, field by field.
pub open spec fn fits_fields(fs: Seq<TypeDesc>, vals: Seq<ValueView>) -> bool
    decreases fs, 0nat,
{
    if fs.len() != vals.len() {
        false
    } else if fs.len() == 0 {
        true
    } else {
        fits(fs[0], vals[0]) && fits_fields(fs.drop_first(), vals.drop_first())
    }
}

/// The encoding of value `v` at shape `d`: little-endian scalars, fields in
/// declared order with no padding, and for unions a little-endian
/// discriminant followed by the payload and zero padding up to the size of
/// the largest variant.
pub open spec fn enc(d: TypeDesc, v: ValueView) -> Seq<u8>
    decreases d, 0nat,
    via enc_decreases
{
    match (d, v) {
        (TypeDesc::U8, ValueView::U8(x)) => le_bytes(x as nat, 1),
        (TypeDesc::U16, ValueView::U16(x)) => le_bytes(x as nat, 2),
        (TypeDesc::U32, ValueView::U32(x)) => le_bytes(x as nat, 4),
        (TypeDesc::U64, ValueView::U64(x)) => le_bytes(x as nat, 8),
        (TypeDesc::U128, ValueView::U128(x)) => le_bytes(x as nat, 16),
        (TypeDesc::I8, ValueView::I8(x)) => le_bytes((#[verifier::truncate] (x as u8)) as nat, 1),
        (TypeDesc::I16, ValueView::I16(x)) => le_bytes(
            (#[verifier::truncate] (x as u16)) as nat,
            2,
        ),
        (TypeDesc::I32, ValueView::I32(x)) => le_bytes(
            (#[verifier::truncate] (x as u32)) as nat,
            4,
        ),
        (TypeDesc::I64, ValueView::I64(x)) => le_bytes(
            (#[verifier::truncate] (x as u64)) as nat,
            8,
        ),
        (TypeDesc::I128, ValueView::I128(x)) => le_bytes(
            (#[verifier::truncate] (x as u128)) as nat,
            16,
        ),
        (TypeDesc::Bool, ValueView::Bool(b)) => seq![
            if b {
                1u8
            } else {
                0u8
            },
        ],
        (TypeDesc::Char, ValueView::Char(c)) => le_bytes((c as u32) as nat, 4),
        (TypeDesc::Array(n, t), ValueView::Array(elems)) => enc_elems(*t, elems),
        (TypeDesc::Record(fs), ValueView::Record(vals)) => enc_fields(fs@, vals),
        (TypeDesc::Union(vs), ValueView::Union(idx, payload)) => if idx < vs@.len() {
            le_bytes(idx as nat, disc_width(vs@.len())) + enc_fields(
                vs@[idx as int].fields@,
                payload,
            ) + zero_bytes((max_payload_size(vs@) - fields_size(vs@[idx as int].fields@)) as nat)
        } else {
            Seq::empty()
        },
        _ => Seq::empty(),
    }
}

#[via_fn]
proof fn enc_decreases(d: TypeDesc, v: ValueView) {
    match (d, v) {
        (TypeDesc::Union(vs), ValueView::Union(idx, payload)) => {
            if idx < vs@.len() {
                assert(decreases_to!(d => d->Union_0@[idx as int].fields@));
            }
        },
        _ => {},
    }
}

/// The concatenated encodings of array elements.
pub open spec fn enc_elems(t: TypeDesc, es: Seq<ValueView>) -> Seq<u8>
    decreases t, es.len(),
{
    if es.len() == 0 {
        Seq::empty()
    } else {
        enc(t, es[0]) + enc_elems(t, es.drop_first())
    }
}

/// The concatenated encodings of record or payload fields.
pub open spec fn enc_fields(fs: Seq<TypeDesc>, vals: Seq<ValueView>) -> Seq<u8>
    decreases fs, 0nat,
{
    if fs.len() == 0 || vals.len() == 0 {
        Seq::empty()
    } else {
        enc(fs[0], vals[0]) + enc_fields(fs.drop_first(), vals.drop_first())
    }
}

/// The decoding of a byte string at shape `d`. Meaningful when `s` has
/// exactly `desc_size(d)` bytes; the executable decoder checks that first.
pub open spec fn dec(d: TypeDesc, s: Seq<u8>) -> Result<ValueView, ErrorKind>
    decreases d, 0nat,
    via dec_decreases
{
    match d {
        TypeDesc::U8 => Ok(ValueView::U8(#[verifier::truncate] (le_value(s) as u8))),
        TypeDesc::U16 => Ok(ValueView::U16(#[verifier::truncate] (le_value(s) as u16))),
        TypeDesc::U32 => Ok(ValueView::U32(#[verifier::truncate] (le_value(s) as u32))),
        TypeDesc::U64 => Ok(ValueView::U64(#[verifier::truncate] (le_value(s) as u64))),
        TypeDesc::U128 => Ok(ValueView::U128(#[verifier::truncate] (le_value(s) as u128))),
        TypeDesc::I8 => Ok(
            ValueView::I8(
                #[verifier::truncate]
                ((#[verifier::truncate] (le_value(s) as u8)) as i8),
            ),
        ),
        TypeDesc::I16 => Ok(
            ValueView::I16(
                #[verifier::truncate]
                ((#[verifier::truncate] (le_value(s) as u16)) as i16),
            ),
        ),
        TypeDesc::I32 => Ok(
            ValueView::I32(
                #[verifier::truncate]
                ((#[verifier::truncate] (le_value(s) as u32)) as i32),
            ),
        ),
        TypeDesc::I64 => Ok(
            ValueView::I64(
                #[verifier::truncate]
                ((#[verifier::truncate] (le_value(s) as u64)) as i64),
            ),
        ),
        TypeDesc::I128 => Ok(
            ValueView::I128(
                #[verifier::truncate]
                ((#[verifier::truncate] (le_value(s) as u128)) as i128),
            ),
        ),
        TypeDesc::Bool => Ok(ValueView::Bool(s.len() > 0 && s[0] != 0)),
        TypeDesc::Char => {
            let n = #[verifier::truncate] (le_value(s) as u32);
            if n < 0xD800 || (0xE000 <= n && n < 0x11_0000) {
                Ok(ValueView::Char(n as char))
            } else {
                Err(ErrorKind::InvalidChar)
            }
        },
        TypeDesc::Array(n, t) => match dec_elems(*t, n as nat, s) {
            Ok(es) => Ok(ValueView::Array(es)),
            Err(k) => Err(k),
        },
        TypeDesc::Record(fs) => match dec_fields(fs@, s) {
            Ok(vals) => Ok(ValueView::Record(vals)),
            Err(k) => Err(k),
        },
        TypeDesc::Union(vs) => {
            let m = vs@.len();
            let dw = disc_width(m);
            let idxn = le_value(s.take(dw as int));
            if idxn >= m {
                Err(ErrorKind::InvalidDiscriminant)
            } else {
                let fs = vs@[idxn as int].fields@;
                match dec_fields(fs, s.subrange(dw as int, (dw + fields_size(fs)) as int)) {
                    Ok(payload) => Ok(
                        ValueView::Union(#[verifier::truncate] (idxn as usize), payload),
                    ),
                    Err(k) => Err(k),
                }
            }
        },
    }
}

#[via_fn]
proof fn dec_decreases(d: TypeDesc, s: Seq<u8>) {
    match d {
        TypeDesc::Union(vs) => {
            let idxn = le_value(s.take(disc_width(vs@.len()) as int));
            if idxn < vs@.len() {
                assert(decreases_to!(d => d->Union_0@[idxn as int].fields@));
            }
        },
        _ => {},
    }
}

/// The decodings of `n` consecutive array elements.
pub open spec fn dec_elems(t: TypeDesc, n: nat, s: Seq<u8>) -> Result<Seq<ValueView>, ErrorKind>
    decreases t, n,
{
    if n == 0 {
        Ok(Seq::empty())
    } else {
        let sz = desc_size(t);
        match dec(t, s.take(sz as int)) {
            Err(k) => Err(k),
            Ok(v) => match dec_elems(t, (n - 1) as nat, s.skip(sz as int)) {
                Err(k) => Err(k),
                Ok(rest) => Ok(seq![v] + rest),
            },
        }
    }
}

/// The decodings of consecutive record or payload fields.
pub open spec fn dec_fields(fs: Seq<TypeDesc>, s: Seq<u8>) -> Result<Seq<ValueView>, ErrorKind>
    decreases fs, 0nat,
{
    if fs.len() == 0 {
        Ok(Seq::empty())
    } else {
        let sz = desc_size(fs[0]);
        match dec(fs[0], s.take(sz as int)) {
            Err(k) => Err(k),
            Ok(v) => match dec_fields(fs.drop_first(), s.skip(sz as int)) {
                Err(k) => Err(k),
                Ok(rest) => Ok(seq![v] + rest),
            },
        }
    }
}

/// Size law: a conforming value encodes to exactly `desc_size(d)` bytes.
pub proof fn lemma_enc_len(d: TypeDesc, v: ValueView)
    requires
        fits(d, v),
    ensures
        enc(d, v).len() == desc_size(d),
    decreases d, 0nat,
{
    match (d, v) {
        (TypeDesc::U8, ValueView::U8(x)) => lemma_le_bytes_len(x as nat, 1),
        (TypeDesc::U16, ValueView::U16(x)) => lemma_le_bytes_len(x as nat, 2),
        (TypeDesc::U32, ValueView::U32(x)) => lemma_le_bytes_len(x as nat, 4),
        (TypeDesc::U64, ValueView::U64(x)) => lemma_le_bytes_len(x as nat, 8),
        (TypeDesc::U128, ValueView::U128(x)) => lemma_le_bytes_len(x as nat, 16),
        (TypeDesc::I8, ValueView::I8(x)) => lemma_le_bytes_len((x as u8) as nat, 1),
        (TypeDesc::I16, ValueView::I16(x)) => lemma_le_bytes_len((x as u16) as nat, 2),
        (TypeDesc::I32, ValueView::I32(x)) => lemma_le_bytes_len((x as u32) as nat, 4),
        (TypeDesc::I64, ValueView::I64(x)) => lemma_le_bytes_len((x as u64) as nat, 8),
        (TypeDesc::I128, ValueView::I128(x)) => lemma_le_bytes_len((x as u128) as nat, 16),
        (TypeDesc::Char, ValueView::Char(c)) => lemma_le_bytes_len((c as u32) as nat, 4),
        (TypeDesc::Array(n, t), ValueView::Array(elems)) => {
            lemma_enc_elems_len(*t, elems);
            vstd::arithmetic::mul::lemma_mul_is_commutative(n as int, desc_size(*t) as int);
        },
        (TypeDesc::Record(fs), ValueView::Record(vals)) => {
            lemma_enc_fields_len(fs@, vals);
        },
        (TypeDesc::Union(vs), ValueView::Union(idx, payload)) => {
            lemma_enc_fields_len(vs@[idx as int].fields@, payload);
            lemma_le_bytes_len(idx as nat, disc_width(vs@.len()));
            lemma_max_payload_ge(vs@, idx as int);
        },
        _ => {},
    }
}

pub proof fn lemma_enc_elems_len(t: TypeDesc, es: Seq<ValueView>)
    requires
        fits_elems(t, es),
    ensures
        enc_elems(t, es).len() == es.len() * desc_size(t),
    decreases t, es.len(),
{
    if es.len() == 0 {
        vstd::arithmetic::mul::lemma_mul_by_zero_is_zero(desc_size(t) as int);
    } else {
        lemma_enc_len(t, es[0]);
        lemma_enc_elems_len(t, es.drop_first());
        assert((es.len() as int) * (desc_size(t) as int) == (es.len() as int - 1) * (desc_size(
            t,
        ) as int) + desc_size(t) as int) by (nonlinear_arith);
    }
}

pub proof fn lemma_enc_fields_len(fs: Seq<TypeDesc>, vals: Seq<ValueView>)
    requires
        fits_fields(fs, vals),
    ensures
        enc_fields(fs, vals).len() == fields_size(fs),
    decreases fs, 0nat,
{
    if fs.len() != 0 {
        lemma_enc_len(fs[0], vals[0]);
        lemma_enc_fields_len(fs.drop_first(), vals.drop_first());
    }
}

/// Round-trip law: decoding the encoding of any conforming value gives the
/// value back.
pub proof fn lemma_round_trip(d: TypeDesc, v: ValueView)
    requires
        fits(d, v),
    ensures
        dec(d, enc(d, v)) == Ok::<ValueView, ErrorKind>(v),
    decreases d, 0nat,
{
    reveal_with_fuel(pow256, 17);
    match (d, v) {
        (TypeDesc::U8, ValueView::U8(x)) => {
            lemma_le_value_le_bytes(x as nat, 1);
        },
        (TypeDesc::U16, ValueView::U16(x)) => {
            lemma_le_value_le_bytes(x as nat, 2);
        },
        (TypeDesc::U32, ValueView::U32(x)) => {
            lemma_le_value_le_bytes(x as nat, 4);
        },
        (TypeDesc::U64, ValueView::U64(x)) => {
            lemma_le_value_le_bytes(x as nat, 8);
        },
        (TypeDesc::U128, ValueView::U128(x)) => {
            lemma_le_value_le_bytes(x as nat, 16);
        },
        (TypeDesc::I8, ValueView::I8(x)) => {
            lemma_le_value_le_bytes((x as u8) as nat, 1);
            assert((x as u8) as i8 == x) by (bit_vector);
        },
        (TypeDesc::I16, ValueView::I16(x)) => {
            lemma_le_value_le_bytes((x as u16) as nat, 2);
            assert((x as u16) as i16 == x) by (bit_vector);
        },
        (TypeDesc::I32, ValueView::I32(x)) => {
            lemma_le_value_le_bytes((x as u32) as nat, 4);
            assert((x as u32) as i32 == x) by (bit_vector);
        },
        (TypeDesc::I64, ValueView::I64(x)) => {
            lemma_le_value_le_bytes((x as u64) as nat, 8);
            assert((x as u64) as i64 == x) by (bit_vector);
        },
        (TypeDesc::I128, ValueView::I128(x)) => {
            lemma_le_value_le_bytes((x as u128) as nat, 16);
            assert((x as u128) as i128 == x) by (bit_vector);
        },
        (TypeDesc::Bool, ValueView::Bool(b)) => {},
        (TypeDesc::Char, ValueView::Char(c)) => {
            vstd::utf8::char_is_scalar(c);
            lemma_le_value_le_bytes((c as u32) as nat, 4);
            vstd::utf8::char_u32_cast(c, c as u32);
        },
        (TypeDesc::Array(n, t), ValueView::Array(elems)) => {
            lemma_round_trip_elems(*t, elems);
        },
        (TypeDesc::Record(fs), ValueView::Record(vals)) => {
            lemma_round_trip_fields(fs@, vals);
        },
        (TypeDesc::Union(vs), ValueView::Union(idx, payload)) => {
            let m = vs@.len();
            assert(vs.len() == vs@.len());
            lemma_disc_width_covers(m);
            let dw = disc_width(m);
            let fsq = vs@[idx as int].fields@;
            let head = le_bytes(idx as nat, dw);
            let body = enc_fields(fsq, payload);
            let pad = zero_bytes((max_payload_size(vs@) - fields_size(fsq)) as nat);
            let s = head + body + pad;
            lemma_le_bytes_len(idx as nat, dw);
            lemma_enc_fields_len(fsq, payload);
            lemma_max_payload_ge(vs@, idx as int);
            assert(s.take(dw as int) =~= head);
            lemma_le_value_le_bytes(idx as nat, dw);
            assert(s.subrange(dw as int, (dw + fields_size(fsq)) as int) =~= body);
            lemma_round_trip_fields(fsq, payload);
        },
        _ => {},
    }
}

pub proof fn lemma_round_trip_elems(t: TypeDesc, es: Seq<ValueView>)
    requires
        fits_elems(t, es),
    ensures
        dec_elems(t, es.len(), enc_elems(t, es)) == Ok::<Seq<ValueView>, ErrorKind>(es),
    decreases t, es.len(),
{
    if es.len() > 0 {
        let sz = desc_size(t);
        let head = enc(t, es[0]);
        let rest = enc_elems(t, es.drop_first());
        lemma_enc_len(t, es[0]);
        assert(enc_elems(t, es) == head + rest);
        assert((head + rest).take(sz as int) =~= head);
        assert((head + rest).skip(sz as int) =~= rest);
        lemma_round_trip(t, es[0]);
        lemma_round_trip_elems(t, es.drop_first());
        assert(dec(t, (head + rest).take(sz as int)) == Ok::<ValueView, ErrorKind>(es[0]));
        assert(es.drop_first().len() == (es.len() - 1) as nat);
        assert(dec_elems(t, (es.len() - 1) as nat, (head + rest).skip(sz as int))
            == Ok::<Seq<ValueView>, ErrorKind>(es.drop_first()));
        assert(dec_elems(t, es.len(), enc_elems(t, es)) == Ok::<Seq<ValueView>, ErrorKind>(
            seq![es[0]] + es.drop_first(),
        ));
        assert(seq![es[0]] + es.drop_first() =~= es);
    } else {
        assert(es =~= Seq::<ValueView>::empty());
    }
}

pub proof fn lemma_round_trip_fields(fs: Seq<TypeDesc>, vals: Seq<ValueView>)
    requires
        fits_fields(fs, vals),
    ensures
        dec_fields(fs, enc_fields(fs, vals)) == Ok::<Seq<ValueView>, ErrorKind>(vals),
    decreases fs, 0nat,
{
    if fs.len() > 0 {
        let sz = desc_size(fs[0]);
        let head = enc(fs[0], vals[0]);
        let rest = enc_fields(fs.drop_first(), vals.drop_first());
        lemma_enc_len(fs[0], vals[0]);
        assert(enc_fields(fs, vals) == head + rest);
        assert((head + rest).take(sz as int) =~= head);
        assert((head + rest).skip(sz as int) =~= rest);
        lemma_round_trip(fs[0], vals[0]);
        lemma_round_trip_fields(fs.drop_first(), vals.drop_first());
        assert(dec(fs[0], (head + rest).take(sz as int)) == Ok::<ValueView, ErrorKind>(vals[0]));
        assert(dec_fields(fs.drop_first(), (head + rest).skip(sz as int))
            == Ok::<Seq<ValueView>, ErrorKind>(vals.drop_first()));
        assert(dec_fields(fs, enc_fields(fs, vals)) == Ok::<Seq<ValueView>, ErrorKind>(
            seq![vals[0]] + vals.drop_first(),
        ));
        assert(seq![vals[0]] + vals.drop_first() =~= vals);
    } else {
        assert(vals =~= Seq::<ValueView>::empty());
    }
}

pub proof fn lemma_fits_elems_index(t: TypeDesc, es: Seq<ValueView>, i: int)
    requires
        fits_elems(t, es),
        0 <= i < es.len(),
    ensures
        fits(t, es[i]),
    decreases i,
{
    if i > 0 {
        lemma_fits_elems_index(t, es.drop_first(), i - 1);
    }
}

pub proof fn lemma_fits_fields_index(fs: Seq<TypeDesc>, vals: Seq<ValueView>, i: int)
    requires
        fits_fields(fs, vals),
        0 <= i < fs.len(),
    ensures
        vals.len() == fs.len(),
        fits(fs[i], vals[i]),
    decreases i,
{
    if i > 0 {
        lemma_fits_fields_index(fs.drop_first(), vals.drop_first(), i - 1);
    }
}

/// Encoding one more element appends that element's encoding.
pub proof fn lemma_enc_elems_snoc(t: TypeDesc, es: Seq<ValueView>, i: int)
    requires
        0 <= i < es.len(),
    ensures
        enc_elems(t, es.take(i + 1)) == enc_elems(t, es.take(i)) + enc(t, es[i]),
    decreases i,
{
    if i == 0 {
        let s = es.take(1);
        assert(s[0] == es[0]);
        assert(s.drop_first() =~= Seq::<ValueView>::empty());
        assert(es.take(0) =~= Seq::<ValueView>::empty());
        assert(enc_elems(t, Seq::<ValueView>::empty()) =~= Seq::<u8>::empty());
        assert(enc_elems(t, es.take(1)) =~= enc_elems(t, es.take(0)) + enc(t, es[0]));
    } else {
        lemma_enc_elems_snoc(t, es.drop_first(), i - 1);
        let a = es.take(i + 1);
        let b = es.take(i);
        assert(a[0] == es[0]);
        assert(b[0] == es[0]);
        assert(a.drop_first() =~= es.drop_first().take(i));
        assert(b.drop_first() =~= es.drop_first().take(i - 1));
        assert(es.drop_first().take((i - 1) + 1) =~= es.drop_first().take(i));
        assert(es.drop_first()[i - 1] == es[i]);
        assert(enc(t, es[0]) + (enc_elems(t, es.drop_first().take(i - 1)) + enc(t, es[i]))
            =~= (enc(t, es[0]) + enc_elems(t, es.drop_first().take(i - 1))) + enc(t, es[i]));
    }
}

/// Encoding one more field appends that field's encoding.
pub proof fn lemma_enc_fields_snoc(fs: Seq<TypeDesc>, vals: Seq<ValueView>, i: int)
    requires
        fs.len() == vals.len(),
        0 <= i < fs.len(),
    ensures
        enc_fields(fs.take(i + 1), vals.take(i + 1)) == enc_fields(fs.take(i), vals.take(i))
            + enc(fs[i], vals[i]),
    decreases i,
{
    if i == 0 {
        let a = fs.take(1);
        let b = vals.take(1);
        assert(a[0] == fs[0]);
        assert(b[0] == vals[0]);
        assert(a.drop_first() =~= Seq::<TypeDesc>::empty());
        assert(b.drop_first() =~= Seq::<ValueView>::empty());
        assert(fs.take(0) =~= Seq::<TypeDesc>::empty());
        assert(vals.take(0) =~= Seq::<ValueView>::empty());
        assert(enc_fields(fs.take(1), vals.take(1)) =~= enc_fields(fs.take(0), vals.take(0))
            + enc(fs[0], vals[0]));
    } else {
        lemma_enc_fields_snoc(fs.drop_first(), vals.drop_first(), i - 1);
        let a = fs.take(i + 1);
        let b = vals.take(i + 1);
        assert(a[0] == fs[0]);
        assert(b[0] == vals[0]);
        assert(fs.take(i)[0] == fs[0]);
        assert(vals.take(i)[0] == vals[0]);
        assert(a.drop_first() =~= fs.drop_first().take(i));
        assert(b.drop_first() =~= vals.drop_first().take(i));
        assert(fs.take(i).drop_first() =~= fs.drop_first().take(i - 1));
        assert(vals.take(i).drop_first() =~= vals.drop_first().take(i - 1));
        assert(fs.drop_first().take((i - 1) + 1) =~= fs.drop_first().take(i));
        assert(vals.drop_first().take((i - 1) + 1) =~= vals.drop_first().take(i));
        assert(fs.drop_first()[i - 1] == fs[i]);
        assert(vals.drop_first()[i - 1] == vals[i]);
        assert(enc(fs[0], vals[0]) + (enc_fields(
            fs.drop_first().take(i - 1),
            vals.drop_first().take(i - 1),
        ) + enc(fs[i], vals[i])) =~= (enc(fs[0], vals[0]) + enc_fields(
            fs.drop_first().take(i - 1),
            vals.drop_first().take(i - 1),
        )) + enc(fs[i], vals[i]));
    }
}

/// Appends the encoding of `v` at shape `d` to `out`.
pub fn encode_into(d: &TypeDesc, v: &Value, out: &mut Vec<u8>)
    requires
        fits(*d, v@),
        desc_size(*d) <= usize::MAX,
    ensures
        final(out)@ == old(out)@ + enc(*d, v@),
    decreases *d, 0nat,
{
    match (d, v) {
        (TypeDesc::U8, Value::U8(x)) => write_le_bytes(out, *x as u128, 1),
        (TypeDesc::U16, Value::U16(x)) => write_le_bytes(out, *x as u128, 2),
        (TypeDesc::U32, Value::U32(x)) => write_le_bytes(out, *x as u128, 4),
        (TypeDesc::U64, Value::U64(x)) => write_le_bytes(out, *x as u128, 8),
        (TypeDesc::U128, Value::U128(x)) => write_le_bytes(out, *x, 16),
        (TypeDesc::I8, Value::I8(x)) => write_le_bytes(out, (*x as u8) as u128, 1),
        (TypeDesc::I16, Value::I16(x)) => write_le_bytes(out, (*x as u16) as u128, 2),
        (TypeDesc::I32, Value::I32(x)) => write_le_bytes(out, (*x as u32) as u128, 4),
        (TypeDesc::I64, Value::I64(x)) => write_le_bytes(out, (*x as u64) as u128, 8),
        (TypeDesc::I128, Value::I128(x)) => write_le_bytes(out, *x as u128, 16),
        (TypeDesc::Bool, Value::Bool(b)) => {
            let ghost before = out@;
            if *b {
                out.push(1u8);
            } else {
                out.push(0u8);
            }
            proof {
                assert(out@ =~= before + enc(*d, v@));
            }
        },
        (TypeDesc::Char, Value::Char(c)) => write_le_bytes(out, (*c as u32) as u128, 4),
        (TypeDesc::Array(cnt, t), Value::Array(elems)) => {
            let ghost prefix = out@;
            let ghost views = value_views(elems@);
            let count = elems.len();
            proof {
                lemma_value_views_len(elems@);
                if count > 0 {
                    vstd::arithmetic::mul::lemma_mul_inequality(
                        1,
                        count as int,
                        desc_size(**t) as int,
                    );
                    vstd::arithmetic::mul::lemma_mul_is_commutative(
                        count as int,
                        desc_size(**t) as int,
                    );
                }
                assert(enc_elems(**t, views.take(0)) =~= Seq::<u8>::empty()) by {
                    assert(views.take(0) =~= Seq::<ValueView>::empty());
                }
                assert(out@ =~= prefix + enc_elems(**t, views.take(0)));
            }
            let mut i: usize = 0;
            while i < count
                invariant
                    i <= count,
                    count == elems@.len(),
                    views == value_views(elems@),
                    views.len() == count,
                    fits_elems(**t, views),
                    count > 0 ==> desc_size(**t) <= usize::MAX,
                    *d == TypeDesc::Array(count, *t),
                    out@ == prefix + enc_elems(**t, views.take(i as int)),
                decreases count - i,
            {
                proof {
                    let dd = *d;
                    assert(decreases_to!(dd => *dd->Array_1));
                    lemma_fits_elems_index(**t, views, i as int);
                    lemma_value_views_index(elems@, i as int);
                }
                encode_into(t, &elems[i], out);
                proof {
                    lemma_enc_elems_snoc(**t, views, i as int);
                }
                i = i + 1;
            }
            proof {
                assert(views.take(count as int) =~= views);
            }
        },
        (TypeDesc::Record(fs), Value::Record(vals)) => {
            encode_fields_into(fs, vals, out);
        },
        (TypeDesc::Union(vs), Value::Union(idx, payload)) => {
            let m = vs.len();
            let dw = discriminant_width(m);
            let total = size(d);
            proof {
                lemma_max_payload_ge(vs@, *idx as int);
                let dd = *d;
                assert(decreases_to!(dd => dd->Union_0@[*idx as int].fields@));
            }
            let ghost prefix = out@;
            write_le_bytes(out, *idx as u128, dw);
            encode_fields_into(&vs[*idx].fields, payload, out);
            let psize = fields_total_size(&vs[*idx].fields);
            let pad = total - dw - psize;
            write_zero_bytes(out, pad);
            proof {
                let fsq = vs@[*idx as int].fields@;
                let head = le_bytes(*idx as nat, disc_width(vs@.len()));
                let body = enc_fields(fsq, value_views(payload@));
                let padding = zero_bytes((max_payload_size(vs@) - fields_size(fsq)) as nat);
                assert(prefix + head + body + padding =~= prefix + (head + body + padding));
            }
        },
        _ => {
            proof {
                assert(false);
            }
        },
    }
}

/// Appends the encodings of `vals` at the field list `fs` to `out`.
fn encode_fields_into(fs: &Vec<TypeDesc>, vals: &Vec<Value>, out: &mut Vec<u8>)
    requires
        fits_fields(fs@, value_views(vals@)),
        fields_size(fs@) <= usize::MAX,
    ensures
        final(out)@ == old(out)@ + enc_fields(fs@, value_views(vals@)),
    decreases fs@, 1nat,
{
    let ghost prefix = out@;
    let ghost views = value_views(vals@);
    let n = fs.len();
    proof {
        lemma_value_views_len(vals@);
        assert(enc_fields(fs@.take(0), views.take(0)) =~= Seq::<u8>::empty()) by {
            assert(fs@.take(0) =~= Seq::<TypeDesc>::empty());
        }
        assert(out@ =~= prefix + enc_fields(fs@.take(0), views.take(0)));
    }
    let mut i: usize = 0;
    while i < n
        invariant
            i <= n,
            n == fs@.len(),
            views == value_views(vals@),
            views.len() == n,
            vals@.len() == n,
            fits_fields(fs@, views),
            fields_size(fs@) <= usize::MAX,
            out@ == prefix + enc_fields(fs@.take(i as int), views.take(i as int)),
        decreases n - i,
    {
        proof {
            lemma_fits_fields_index(fs@, views, i as int);
            lemma_value_views_index(vals@, i as int);
            lemma_fields_size_ge_index(fs@, i as int);
        }
        encode_into(&fs[i], &vals[i], out);
        proof {
            lemma_enc_fields_snoc(fs@, views, i as int);
        }
        i = i + 1;
    }
    proof {
        assert(fs@.take(n as int) =~= fs@);
        assert(views.take(n as int) =~= views);
    }
}

/// Encodes a conforming value to its exact byte string.
pub fn encode(d: &TypeDesc, v: &Value) -> (r: Vec<u8>)
    requires
        fits(*d, v@),
        desc_size(*d) <= usize::MAX,
    ensures
        r@ == enc(*d, v@),
        r@.len() == desc_size(*d),
{
    let mut out: Vec<u8> = Vec::new();
    encode_into(d, v, &mut out);
    proof {
        lemma_enc_len(*d, v@);
        assert(out@ =~= enc(*d, v@));
    }
    out
}

/// Relies on char::from_u32: it returns Some exactly for Unicode scalar
/// values (code points below 0xD800 or in 0xE000..0x110000), and the
/// returned char has the given code point.
#[verifier::external_body]
pub(crate) fn char_from_u32(n: u32) -> (r: Option<char>)
    ensures
        r is Some <==> (n < 0xD800 || (0xE000 <= n && n < 0x11_0000)),
        r matches Some(c) ==> c as u32 == n,
{
    char::from_u32(n)
}

/// Decodes the `desc_size(d)` bytes at `bytes[start..]` as a value of shape `d`.
#[verifier::rlimit(100)]
fn decode_at(d: &TypeDesc, bytes: &[u8], start: usize) -> (r: Result<Value, Error>)
    requires
        desc_size(*d) <= usize::MAX,
        start + desc_size(*d) <= bytes@.len(),
    ensures
        match dec(*d, bytes@.subrange(start as int, (start + desc_size(*d)) as int)) {
            Ok(m) => r matches Ok(v) && v@ == m,
            Err(k) => r matches Err(e) && e.kind == k,
        },
    decreases *d, 0nat,
{
    proof {
        reveal_with_fuel(pow256, 17);
    }
    let blen: usize = bytes.len();
    let ghost s = bytes@.subrange(start as int, (start + desc_size(*d)) as int);
    match d {
        TypeDesc::U8 => Ok(Value::U8(read_le_bytes(bytes, start, 1) as u8)),
        TypeDesc::U16 => Ok(Value::U16(read_le_bytes(bytes, start, 2) as u16)),
        TypeDesc::U32 => Ok(Value::U32(read_le_bytes(bytes, start, 4) as u32)),
        TypeDesc::U64 => Ok(Value::U64(read_le_bytes(bytes, start, 8) as u64)),
        TypeDesc::U128 => Ok(Value::U128(read_le_bytes(bytes, start, 16))),
        TypeDesc::I8 => Ok(Value::I8(read_le_bytes(bytes, start, 1) as u8 as i8)),
        TypeDesc::I16 => Ok(Value::I16(read_le_bytes(bytes, start, 2) as u16 as i16)),
        TypeDesc::I32 => Ok(Value::I32(read_le_bytes(bytes, start, 4) as u32 as i32)),
        TypeDesc::I64 => Ok(Value::I64(read_le_bytes(bytes, start, 8) as u64 as i64)),
        TypeDesc::I128 => Ok(Value::I128(read_le_bytes(bytes, start, 16) as i128)),
        TypeDesc::Bool => {
            let b = bytes[start];
            proof {
                assert(s[0] == bytes@[start as int]);
            }
            Ok(Value::Bool(b != 0))
        },
        TypeDesc::Char => {
            let x = read_le_bytes(bytes, start, 4) as u32;
            match char_from_u32(x) {
                Some(c) => {
                    proof {
                        vstd::utf8::char_u32_cast(c, x);
                    }
                    Ok(Value::Char(c))
                },
                None => Err(Error::new(ErrorKind::InvalidChar)),
            }
        },
        TypeDesc::Array(cnt, t) => {
            let count = *cnt;
            if count == 0 {
                let empty: Vec<Value> = Vec::new();
                proof {
                    assert(value_views(empty@) =~= Seq::<ValueView>::empty());
                }
                return Ok(Value::Array(empty));
            }
            proof {
                vstd::arithmetic::mul::lemma_mul_inequality(
                    1,
                    count as int,
                    desc_size(**t) as int,
                );
                vstd::arithmetic::mul::lemma_mul_is_commutative(
                    count as int,
                    desc_size(**t) as int,
                );
            }
            let esz = size(t);
            let mut out: Vec<Value> = Vec::new();
            let mut off: usize = start;
            let mut i: usize = 0;
            proof {
                assert(s.skip(0) =~= s);
                assert(value_views(out@) =~= Seq::<ValueView>::empty());
                assert(value_views(out@) + Seq::<ValueView>::empty() =~= value_views(out@));
            }
            while i < count
                invariant
                    i <= count,
                    esz == desc_size(**t),
                    *d == TypeDesc::Array(count, *t),
                    desc_size(*d) == count * esz,
                    desc_size(*d) <= usize::MAX,
                    start + desc_size(*d) <= bytes@.len(),
                    bytes@.len() == blen,
                    s == bytes@.subrange(start as int, (start + desc_size(*d)) as int),
                    off == start + i * esz,
                    out@.len() == i,
                    forall|rest: Seq<ValueView>|
                        dec_elems(**t, (count - i) as nat, s.skip((i * esz) as int)) == Ok::<
                            Seq<ValueView>,
                            ErrorKind,
                        >(rest) ==> dec_elems(**t, count as nat, s) == Ok::<
                            Seq<ValueView>,
                            ErrorKind,
                        >(value_views(out@) + rest),
                    forall|k: ErrorKind|
                        dec_elems(**t, (count - i) as nat, s.skip((i * esz) as int)) == Err::<
                            Seq<ValueView>,
                            ErrorKind,
                        >(k) ==> dec_elems(**t, count as nat, s) == Err::<
                            Seq<ValueView>,
                            ErrorKind,
                        >(k),
                decreases count - i,
            {
                proof {
                    let dd = *d;
                    assert(decreases_to!(dd => *dd->Array_1));
                    assert((i + 1) * (esz as int) == i * (esz as int) + esz) by (nonlinear_arith);
                    vstd::arithmetic::mul::lemma_mul_inequality(
                        i as int + 1,
                        count as int,
                        esz as int,
                    );
                }
                let r = decode_at(t, bytes, off);
                proof {
                    let chunk = bytes@.subrange(off as int, (off + esz) as int);
                    assert(s.skip((i * esz) as int).take(esz as int) =~= chunk);
                    assert(s.skip((i * esz) as int).skip(esz as int) =~= s.skip(
                        ((i + 1) * esz) as int,
                    ));
                }
                match r {
                    Ok(val) => {
                        proof {
                            lemma_value_views_push(out@, val);
                            assert(value_views(out@) + (seq![val@] + value_views(out@)
                                .skip(value_views(out@).len() as int)) =~= value_views(out@)
                                + seq![val@]);
                        }
                        let ghost old_views = value_views(out@);
                        out.push(val);
                        proof {
                            assert(value_views(out@) =~= old_views.push(val@));
                            assert forall|rest: Seq<ValueView>|
                                dec_elems(**t, (count - i - 1) as nat, s.skip(
                                    ((i + 1) * esz) as int,
                                )) == Ok::<Seq<ValueView>, ErrorKind>(rest) implies dec_elems(
                                **t,
                                count as nat,
                                s,
                            ) == Ok::<Seq<ValueView>, ErrorKind>(value_views(out@) + rest) by {
                                assert(dec_elems(**t, (count - i) as nat, s.skip((i * esz) as int))
                                    == Ok::<Seq<ValueView>, ErrorKind>(seq![val@] + rest));
                                assert(old_views + (seq![val@] + rest) =~= old_views.push(val@)
                                    + rest);
                            }
                        }
                        i = i + 1;
                        off = off + esz;
                    },
                    Err(e) => {
                        proof {
                            assert(dec_elems(**t, (count - i) as nat, s.skip((i * esz) as int))
                                is Err);
                        }
                        return Err(e);
                    },
                }
            }
            proof {
                assert(s.skip((count * esz) as int) =~= Seq::<u8>::empty());
                assert(dec_elems(**t, 0, s.skip((count * esz) as int)) == Ok::<
                    Seq<ValueView>,
                    ErrorKind,
                >(Seq::<ValueView>::empty()));
                assert(value_views(out@) + Seq::<ValueView>::empty() =~= value_views(out@));
            }
            Ok(Value::Array(out))
        },
        TypeDesc::Record(fs) => match decode_fields_at(fs, bytes, start) {
            Ok(vals) => Ok(Value::Record(vals)),
            Err(e) => Err(e),
        },
        TypeDesc::Union(vs) => {
            let m = vs.len();
            let dw = discriminant_width(m);
            proof {
                assert(s.take(dw as int) =~= bytes@.subrange(start as int, (start + dw) as int));
            }
            let disc = read_le_bytes(bytes, start, dw);
            if disc >= m as u128 {
                return Err(Error::new(ErrorKind::InvalidDiscriminant));
            }
            let idx = disc as usize;
            proof {
                lemma_max_payload_ge(vs@, idx as int);
                let dd = *d;
                assert(decreases_to!(dd => dd->Union_0@[idx as int].fields@));
            }
            let psize = fields_total_size(&vs[idx].fields);
            proof {
                let fsq = vs@[idx as int].fields@;
                assert(s.subrange(dw as int, (dw + fields_size(fsq)) as int) =~= bytes@.subrange(
                    (start + dw) as int,
                    (start + dw + fields_size(fsq)) as int,
                ));
            }
            match decode_fields_at(&vs[idx].fields, bytes, start + dw) {
                Ok(vals) => Ok(Value::Union(idx, vals)),
                Err(e) => Err(e),
            }
        },
    }
}

/// Decodes the fields of `fs` laid out back to back at `bytes[start..]`.
fn decode_fields_at(fs: &Vec<TypeDesc>, bytes: &[u8], start: usize) -> (r: Result<
    Vec<Value>,
    Error,
>)
    requires
        fields_size(fs@) <= usize::MAX,
        start + fields_size(fs@) <= bytes@.len(),
    ensures
        match dec_fields(fs@, bytes@.subrange(start as int, (start + fields_size(fs@)) as int)) {
            Ok(ms) => r matches Ok(vals) && value_views(vals@) == ms,
            Err(k) => r matches Err(e) && e.kind == k,
        },
    decreases fs@, 1nat,
{
    let blen: usize = bytes.len();
    let ghost s = bytes@.subrange(start as int, (start + fields_size(fs@)) as int);
    let n = fs.len();
    let mut out: Vec<Value> = Vec::new();
    let mut off: usize = start;
    let mut i: usize = 0;
    proof {
        assert(s.skip(0) =~= s);
        assert(fs@.skip(0) =~= fs@);
        assert(value_views(out@) =~= Seq::<ValueView>::empty());
        assert(value_views(out@) + Seq::<ValueView>::empty() =~= value_views(out@));
        assert(fields_size(fs@.take(0)) == 0) by {
            assert(fs@.take(0) =~= Seq::<TypeDesc>::empty());
        }
    }
    while i < n
        invariant
            i <= n,
            n == fs@.len(),
            fields_size(fs@) <= usize::MAX,
            start + fields_size(fs@) <= bytes@.len(),
            bytes@.len() == blen,
            s == bytes@.subrange(start as int, (start + fields_size(fs@)) as int),
            off == start + fields_size(fs@.take(i as int)),
            out@.len() == i,
            forall|rest: Seq<ValueView>|
                dec_fields(fs@.skip(i as int), s.skip(fields_size(fs@.take(i as int)) as int))
                    == Ok::<Seq<ValueView>, ErrorKind>(rest) ==> dec_fields(fs@, s) == Ok::<
                    Seq<ValueView>,
                    ErrorKind,
                >(value_views(out@) + rest),
            forall|k: ErrorKind|
                dec_fields(fs@.skip(i as int), s.skip(fields_size(fs@.take(i as int)) as int))
                    == Err::<Seq<ValueView>, ErrorKind>(k) ==> dec_fields(fs@, s) == Err::<
                    Seq<ValueView>,
                    ErrorKind,
                >(k),
        decreases n - i,
    {
        let ghost done = fields_size(fs@.take(i as int));
        proof {
            lemma_fields_size_snoc(fs@, i as int);
            lemma_fields_size_split(fs@, i as int + 1);
            assert(fields_size(fs@) >= fields_size(fs@.take(i as int + 1)));
            lemma_fields_size_ge_index(fs@, i as int);
        }
        let fsize = size(&fs[i]);
        let r = decode_at(&fs[i], bytes, off);
        proof {
            let chunk = bytes@.subrange(off as int, (off + fsize) as int);
            assert(s.skip(done as int).take(desc_size(fs@[i as int]) as int) =~= chunk);
            assert(s.skip(done as int).skip(desc_size(fs@[i as int]) as int) =~= s.skip(
                (done + desc_size(fs@[i as int])) as int,
            ));
            assert(fs@.skip(i as int)[0] == fs@[i as int]);
            assert(fs@.skip(i as int).drop_first() =~= fs@.skip(i as int + 1));
        }
        match r {
            Ok(val) => {
                let ghost old_views = value_views(out@);
                proof {
                    lemma_value_views_push(out@, val);
                }
                out.push(val);
                proof {
                    assert(value_views(out@) =~= old_views.push(val@));
                    assert forall|rest: Seq<ValueView>|
                        dec_fields(fs@.skip(i as int + 1), s.skip(
                            fields_size(fs@.take(i as int + 1)) as int,
                        )) == Ok::<Seq<ValueView>, ErrorKind>(rest) implies dec_fields(fs@, s)
                        == Ok::<Seq<ValueView>, ErrorKind>(value_views(out@) + rest) by {
                        assert(dec_fields(fs@.skip(i as int), s.skip(done as int)) == Ok::<
                            Seq<ValueView>,
                            ErrorKind,
                        >(seq![val@] + rest));
                        assert(old_views + (seq![val@] + rest) =~= old_views.push(val@) + rest);
                    }
                }
                i = i + 1;
                off = off + fsize;
            },
            Err(e) => {
                proof {
                    assert(dec_fields(fs@.skip(i as int), s.skip(done as int)) is Err);
                }
                return Err(e);
            },
        }
    }
    proof {
        assert(fs@.skip(n as int) =~= Seq::<TypeDesc>::empty());
        assert(dec_fields(fs@.skip(n as int), s.skip(fields_size(fs@.take(n as int)) as int))
            == Ok::<Seq<ValueView>, ErrorKind>(Seq::<ValueView>::empty()));
        assert(value_views(out@) + Seq::<ValueView>::empty() =~= value_views(out@));
    }
    Ok(out)
}

/// Decodes a byte string of exactly `desc_size(d)` bytes; any other length
/// is rejected with `InvalidSliceLength` before any byte is read.
pub fn decode(d: &TypeDesc, bytes: &[u8]) -> (r: Result<Value, Error>)
    requires
        desc_size(*d) <= usize::MAX,
    ensures
        bytes@.len() != desc_size(*d) ==> (r matches Err(e) && e.kind
            == ErrorKind::InvalidSliceLength),
        bytes@.len() == desc_size(*d) ==> match dec(*d, bytes@) {
            Ok(m) => r matches Ok(v) && v@ == m,
            Err(k) => r matches Err(e) && e.kind == k,
        },
{
    let n = size(d);
    if bytes.len() != n {
        return Err(Error::new(ErrorKind::InvalidSliceLength));
    }
    let r = decode_at(d, bytes, 0);
    proof {
        assert(bytes@.subrange(0, (0 + desc_size(*d)) as int) =~= bytes@);
    }
    r
}

pub proof fn lemma_fits_elems_snoc(t: TypeDesc, es: Seq<ValueView>, i: int)
    requires
        0 <= i < es.len(),
    ensures
        fits_elems(t, es.take(i + 1)) == (fits_elems(t, es.take(i)) && fits(t, es[i])),
    decreases i,
{
    if i == 0 {
        let s = es.take(1);
        assert(s[0] == es[0]);
        assert(s.drop_first() =~= Seq::<ValueView>::empty());
        assert(es.take(0) =~= Seq::<ValueView>::empty());
        assert(fits_elems(t, Seq::<ValueView>::empty()));
    } else {
        lemma_fits_elems_snoc(t, es.drop_first(), i - 1);
        let a = es.take(i + 1);
        let b = es.take(i);
        assert(a[0] == es[0]);
        assert(b[0] == es[0]);
        assert(a.drop_first() =~= es.drop_first().take(i));
        assert(b.drop_first() =~= es.drop_first().take(i - 1));
        assert(es.drop_first().take((i - 1) + 1) =~= es.drop_first().take(i));
        assert(es.drop_first()[i - 1] == es[i]);
    }
}

pub proof fn lemma_fits_fields_snoc(fs: Seq<TypeDesc>, vals: Seq<ValueView>, i: int)
    requires
        fs.len() == vals.len(),
        0 <= i < fs.len(),
    ensures
        fits_fields(fs.take(i + 1), vals.take(i + 1)) == (fits_fields(fs.take(i), vals.take(i))
            && fits(fs[i], vals[i])),
    decreases i,
{
    if i == 0 {
        let a = fs.take(1);
        let b = vals.take(1);
        assert(a[0] == fs[0]);
        assert(b[0] == vals[0]);
        assert(a.drop_first() =~= Seq::<TypeDesc>::empty());
        assert(b.drop_first() =~= Seq::<ValueView>::empty());
        assert(fs.take(0) =~= Seq::<TypeDesc>::empty());
        assert(vals.take(0) =~= Seq::<ValueView>::empty());
        assert(fits_fields(Seq::<TypeDesc>::empty(), Seq::<ValueView>::empty()));
    } else {
        lemma_fits_fields_snoc(fs.drop_first(), vals.drop_first(), i - 1);
        let a = fs.take(i + 1);
        let b = vals.take(i + 1);
        assert(a[0] == fs[0]);
        assert(b[0] == vals[0]);
        assert(fs.take(i)[0] == fs[0]);
        assert(vals.take(i)[0] == vals[0]);
        assert(a.drop_first() =~= fs.drop_first().take(i));
        assert(b.drop_first() =~= vals.drop_first().take(i));
        assert(fs.take(i).drop_first() =~= fs.drop_first().take(i - 1));
        assert(vals.take(i).drop_first() =~= vals.drop_first().take(i - 1));
        assert(fs.drop_first().take((i - 1) + 1) =~= fs.drop_first().take(i));
        assert(vals.drop_first().take((i - 1) + 1) =~= vals.drop_first().take(i));
        assert(fs.drop_first()[i - 1] == fs[i]);
        assert(vals.drop_first()[i - 1] == vals[i]);
    }
}

/// Returns whether `v` has shape `d`: exactly the [`fits`] relation.
pub fn matches_desc(d: &TypeDesc, v: &Value) -> (r: bool)
    ensures
        r == fits(*d, v@),
    decreases *d, 0nat,
{
    match (d, v) {
        (TypeDesc::U8, Value::U8(_)) => true,
        (TypeDesc::U16, Value::U16(_)) => true,
        (TypeDesc::U32, Value::U32(_)) => true,
        (TypeDesc::U64, Value::U64(_)) => true,
        (TypeDesc::U128, Value::U128(_)) => true,
        (TypeDesc::I8, Value::I8(_)) => true,
        (TypeDesc::I16, Value::I16(_)) => true,
        (TypeDesc::I32, Value::I32(_)) => true,
        (TypeDesc::I64, Value::I64(_)) => true,
        (TypeDesc::I128, Value::I128(_)) => true,
        (TypeDesc::Bool, Value::Bool(_)) => true,
        (TypeDesc::Char, Value::Char(_)) => true,
        (TypeDesc::Array(cnt, t), Value::Array(elems)) => {
            let count = elems.len();
            proof {
                lemma_value_views_len(elems@);
            }
            if count != *cnt {
                return false;
            }
            let mut i: usize = 0;
            while i < count
                invariant
                    i <= count,
                    count == elems@.len(),
                    value_views(elems@).len() == count,
                    *d == TypeDesc::Array(count, *t),
                    v@ == ValueView::Array(value_views(elems@)),
                    fits_elems(**t, value_views(elems@).take(i as int)),
                decreases count - i,
            {
                proof {
                    let dd = *d;
                    assert(decreases_to!(dd => *dd->Array_1));
                    lemma_value_views_index(elems@, i as int);
                }
                if !matches_desc(t, &elems[i]) {
                    proof {
                        if fits_elems(**t, value_views(elems@)) {
                            lemma_fits_elems_index(**t, value_views(elems@), i as int);
                        }
                    }
                    return false;
                }
                proof {
                    lemma_fits_elems_snoc(**t, value_views(elems@), i as int);
                }
                i = i + 1;
            }
            proof {
                assert(value_views(elems@).take(count as int) =~= value_views(elems@));
            }
            true
        },
        (TypeDesc::Record(fs), Value::Record(vals)) => matches_fields(fs, vals),
        (TypeDesc::Union(vs), Value::Union(idx, payload)) => {
            if *idx >= vs.len() {
                return false;
            }
            proof {
                let dd = *d;
                assert(decreases_to!(dd => dd->Union_0@[*idx as int].fields@));
            }
            matches_fields(&vs[*idx].fields, payload)
        },
        _ => false,
    }
}

/// Returns whether `vals` matches the field list `fs`, field by field.
fn matches_fields(fs: &Vec<TypeDesc>, vals: &Vec<Value>) -> (r: bool)
    ensures
        r == fits_fields(fs@, value_views(vals@)),
    decreases fs@, 1nat,
{
    let n = fs.len();
    proof {
        lemma_value_views_len(vals@);
    }
    if vals.len() != n {
        return false;
    }
    let mut i: usize = 0;
    while i < n
        invariant
            i <= n,
            n == fs@.len(),
            vals@.len() == n,
            value_views(vals@).len() == n,
            fits_fields(fs@.take(i as int), value_views(vals@).take(i as int)),
        decreases n - i,
    {
        proof {
            lemma_value_views_index(vals@, i as int);
        }
        if !matches_desc(&fs[i], &vals[i]) {
            proof {
                if fits_fields(fs@, value_views(vals@)) {
                    lemma_fits_fields_index(fs@, value_views(vals@), i as int);
                }
            }
            return false;
        }
        proof {
            lemma_fits_fields_snoc(fs@, value_views(vals@), i as int);
        }
        i = i + 1;
    }
    proof {
        assert(fs@.take(n as int) =~= fs@);
        assert(value_views(vals@).take(n as int) =~= value_views(vals@));
    }
    true
}

/// Discriminant law: the encoding of a union value starts with the active
/// variant's zero-based index, written as a `disc_width`-byte little-endian
/// discriminant, and decoding the encoding recovers that variant exactly.
pub proof fn lemma_discriminant_law(d: TypeDesc, v: ValueView)
    requires
        d is Union,
        fits(d, v),
    ensures
        enc(d, v).take(disc_width(d->Union_0@.len()) as int) == le_bytes(
            v->Union_0 as nat,
            disc_width(d->Union_0@.len()),
        ),
        le_value(enc(d, v).take(disc_width(d->Union_0@.len()) as int)) == v->Union_0,
        dec(d, enc(d, v)) == Ok::<ValueView, ErrorKind>(v),
{
    let vs = d->Union_0;
    let idx = v->Union_0;
    let m = vs@.len();
    let dw = disc_width(m);
    assert(vs.len() == vs@.len());
    lemma_disc_width_covers(m);
    lemma_le_bytes_len(idx as nat, dw);
    assert(enc(d, v).take(dw as int) =~= le_bytes(idx as nat, dw));
    lemma_le_value_le_bytes(idx as nat, dw);
    lemma_round_trip(d, v);
}

/// Encodes a value after checking it: returns `None` when the descriptor is
/// malformed, its size overflows `usize`, or the value does not have its
/// shape, and the exact encoding otherwise.
pub fn try_encode(d: &TypeDesc, v: &Value) -> (r: Option<Vec<u8>>)
    ensures
        r is Some <==> crate::schema::valid_desc(*d) && desc_size(*d) <= usize::MAX && fits(
            *d,
            v@,
        ),
        r matches Some(b) ==> b@ == enc(*d, v@) && b@.len() == desc_size(*d),
{
    if crate::schema::validate(d) && matches_desc(d, v) {
        Some(encode(d, v))
    } else {
        None
    }
}

/// Boundary law: decoding a union whose discriminant field holds a value at
/// or beyond the variant count reports `InvalidDiscriminant` and never
/// selects a variant.
pub proof fn lemma_out_of_range_discriminant(d: TypeDesc, s: Seq<u8>)
    requires
        d is Union,
        le_value(s.take(disc_width(d->Union_0@.len()) as int)) >= d->Union_0@.len(),
    ensures
        dec(d, s) == Err::<ValueView, ErrorKind>(ErrorKind::InvalidDiscriminant),
{
}

/// Idempotence law: the encoding is one mathematical function of descriptor
/// and value, so any two encodings of the same value are identical byte for
/// byte.
pub proof fn lemma_encode_deterministic(d: TypeDesc, v: ValueView, b1: Seq<u8>, b2: Seq<u8>)
    requires
        b1 == enc(d, v),
        b2 == enc(d, v),
    ensures
        b1 == b2,
{
}

} // verus!
