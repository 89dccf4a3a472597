//! Type descriptors and the size oracle.
//!
//! A [`TypeDesc`] describes the shape of an encodable value: a fixed-width
//! scalar, a fixed-size array, a record given by its ordered field list, or a
//! tagged union given by its ordered variant list. Every well-formed
//! descriptor has one exact encoded size, computed here; encoders always
//! produce exactly that many bytes and decoders always consume exactly that
//! many.
//!
//! A union's size is the discriminant width plus the *largest* variant
//! payload; encoding a shorter variant pads the tail with zero bytes, so that
//! the size of a union is a constant of the type, usable inside records.

use vstd::prelude::*;

use crate::bytes::pow256;

verus! {

broadcast use vstd::seq::axiom_seq_subrange_decreases;

/// One variant of a tagged union: an ordered list of payload field types.
/// The list may be empty (a unit variant).
#[derive(Debug, PartialEq)]
pub struct Variant {
    /// The types of the variant's payload fields, in declared order.
    pub fields: Vec<TypeDesc>,
}

/// The shape of an encodable value.
#[derive(Debug, PartialEq)]
pub enum TypeDesc {
    /// Unsigned 8-bit integer.
    U8,
    /// Unsigned 16-bit integer.
    U16,
    /// Unsigned 32-bit integer.
    U32,
    /// Unsigned 64-bit integer.
    U64,
    /// Unsigned 128-bit integer.
    U128,
    /// Signed 8-bit integer.
    I8,
    /// Signed 16-bit integer.
    I16,
    /// Signed 32-bit integer.
    I32,
    /// Signed 64-bit integer.
    I64,
    /// Signed 128-bit integer.
    I128,
    /// Boolean, one byte.
    Bool,
    /// Unicode scalar value, four bytes.
    Char,
    /// Fixed-size array: element count and element type.
    Array(usize, Box<TypeDesc>),
    /// Record: ordered list of field types. Must have at least one field.
    Record(Vec<TypeDesc>),
    /// Tagged union: ordered list of variants. Must have at least one variant.
    Union(Vec<Variant>),
}

/// The discriminant width in bytes for a union of `m` variants: the smallest
/// of 1, 2, 4, 8 or 16 bytes whose unsigned range covers `m`.
pub open spec fn disc_width(m: nat) -> nat {
    if m <= 0xff {
        1
    } else if m <= 0xffff {
        2
    } else if m <= 0xffff_ffff {
        4
    } else if m <= 0xffff_ffff_ffff_ffff {
        8
    } else {
        16
    }
}

/// The exact encoded size in bytes of a value of shape `d`.
pub open spec fn desc_size(d: TypeDesc) -> nat
    decreases d, 0nat,
{
    match d {
        TypeDesc::U8 => 1,
        TypeDesc::U16 => 2,
        TypeDesc::U32 => 4,
        TypeDesc::U64 => 8,
        TypeDesc::U128 => 16,
        TypeDesc::I8 => 1,
        TypeDesc::I16 => 2,
        TypeDesc::I32 => 4,
        TypeDesc::I64 => 8,
        TypeDesc::I128 => 16,
        TypeDesc::Bool => 1,
        TypeDesc::Char => 4,
        TypeDesc::Array(n, t) => (n * desc_size(*t)) as nat,
        TypeDesc::Record(fields) => fields_size(fields@),
        TypeDesc::Union(variants) => disc_width(variants@.len()) + max_payload_size(variants@),
    }
}

/// The summed encoded size of an ordered field list.
pub open spec fn fields_size(fs: Seq<TypeDesc>) -> nat
    decreases fs, 0nat,
{
    if fs.len() == 0 {
        0
    } else {
        desc_size(fs[0]) + fields_size(fs.drop_first())
    }
}

/// The size of the largest variant payload of a union.
pub open spec fn max_payload_size(vs: Seq<Variant>) -> nat
    decreases vs, 0nat,
{
    if vs.len() == 0 {
        0
    } else {
        let head = fields_size(vs[0].fields@);
        let rest = max_payload_size(vs.drop_first());
        if head >= rest {
            head
        } else {
            rest
        }
    }
}

/// Well-formedness of a descriptor: records have at least one field, unions
/// at least one variant, and every nested descriptor is well-formed.
pub open spec fn valid_desc(d: TypeDesc) -> bool
    decreases d, 0nat,
{
    match d {
        TypeDesc::Array(n, t) => valid_desc(*t),
        TypeDesc::Record(fields) => fields@.len() > 0 && valid_fields(fields@),
        TypeDesc::Union(variants) => variants@.len() > 0 && valid_variants(variants@),
        _ => true,
    }
}

/// Well-formedness of every descriptor in a field list.
pub open spec fn valid_fields(fs: Seq<TypeDesc>) -> bool
    decreases fs, 0nat,
{
    fs.len() == 0 || (valid_desc(fs[0]) && valid_fields(fs.drop_first()))
}

/// Well-formedness of every variant's field list.
pub open spec fn valid_variants(vs: Seq<Variant>) -> bool
    decreases vs, 0nat,
{
    vs.len() == 0 || (valid_fields(vs[0].fields@) && valid_variants(vs.drop_first()))
}

/// A union's discriminant width always covers its variant count.
pub proof fn lemma_disc_width_covers(m: nat)
    requires
        m <= 0xffff_ffff_ffff_ffff_ffff_ffff_ffff_ffff,
    ensures
        m <= pow256(disc_width(m)),
        1 <= disc_width(m) <= 16,
{
    reveal_with_fuel(pow256, 17);
    assert(pow256(1) == 0x100);
    assert(pow256(2) == 0x1_0000);
    assert(pow256(4) == 0x1_0000_0000);
    assert(pow256(8) == 0x1_0000_0000_0000_0000);
    assert(pow256(16) == 0x1_0000_0000_0000_0000_0000_0000_0000_0000);
}

pub proof fn lemma_fields_size_split(fs: Seq<TypeDesc>, i: int)
    requires
        0 <= i <= fs.len(),
    ensures
        fields_size(fs) == fields_size(fs.take(i)) + fields_size(fs.skip(i)),
    decreases i,
{
    if i == 0 {
        assert(fs.take(0) =~= Seq::<TypeDesc>::empty());
        assert(fs.skip(0) =~= fs);
    } else {
        lemma_fields_size_split(fs, i - 1);
        let a = fs.take(i - 1);
        let b = fs.take(i);
        assert(b[0] == fs[0] || a.len() == 0);
        assert(fields_size(fs.skip(i - 1)) == desc_size(fs[i - 1]) + fields_size(fs.skip(i)))
            by {
            let s = fs.skip(i - 1);
            assert(s[0] == fs[i - 1]);
            assert(s.drop_first() =~= fs.skip(i));
        }
        assert(fields_size(fs.take(i)) == fields_size(fs.take(i - 1)) + desc_size(fs[i - 1]))
            by {
            lemma_fields_size_snoc(fs, i - 1);
        }
    }
}

/// Extending a prefix of a field list by one field adds that field's size.
pub proof fn lemma_fields_size_snoc(fs: Seq<TypeDesc>, i: int)
    requires
        0 <= i < fs.len(),
    ensures
        fields_size(fs.take(i + 1)) == fields_size(fs.take(i)) + desc_size(fs[i]),
    decreases i,
{
    if i == 0 {
        let s = fs.take(1);
        assert(s[0] == fs[0]);
        assert(s.drop_first() =~= Seq::<TypeDesc>::empty());
        assert(fs.take(0) =~= Seq::<TypeDesc>::empty());
    } else {
        lemma_fields_size_snoc(fs.drop_first(), i - 1);
        let a = fs.take(i + 1);
        let b = fs.take(i);
        assert(a[0] == fs[0]);
        assert(b[0] == fs[0]);
        assert(a.drop_first() =~= fs.drop_first().take(i));
        assert(b.drop_first() =~= fs.drop_first().take(i - 1));
        assert(fs.drop_first().take((i - 1) + 1) =~= fs.drop_first().take(i));
        assert(fs.drop_first()[i - 1] == fs[i]);
    }
}

pub proof fn lemma_valid_fields_index(fs: Seq<TypeDesc>, i: int)
    requires
        valid_fields(fs),
        0 <= i < fs.len(),
    ensures
        valid_desc(fs[i]),
    decreases i,
{
    if i > 0 {
        lemma_valid_fields_index(fs.drop_first(), i - 1);
    }
}

pub proof fn lemma_valid_variants_index(vs: Seq<Variant>, i: int)
    requires
        valid_variants(vs),
        0 <= i < vs.len(),
    ensures
        valid_fields(vs[i].fields@),
    decreases i,
{
    if i > 0 {
        lemma_valid_variants_index(vs.drop_first(), i - 1);
    }
}

/// Every variant payload fits inside the union's maximal payload.
pub proof fn lemma_max_payload_ge(vs: Seq<Variant>, i: int)
    requires
        0 <= i < vs.len(),
    ensures
        fields_size(vs[i].fields@) <= max_payload_size(vs),
    decreases i,
{
    if i > 0 {
        lemma_max_payload_ge(vs.drop_first(), i - 1);
    }
}

/// A single field's size never exceeds the whole field list's size.
pub proof fn lemma_fields_size_ge_index(fs: Seq<TypeDesc>, i: int)
    requires
        0 <= i < fs.len(),
    ensures
        desc_size(fs[i]) <= fields_size(fs),
{
    lemma_fields_size_split(fs, i);
    assert(fs.skip(i)[0] == fs[i]);
}

pub proof fn lemma_valid_fields_snoc(fs: Seq<TypeDesc>, i: int)
    requires
        0 <= i < fs.len(),
        valid_fields(fs.take(i)),
        valid_desc(fs[i]),
    ensures
        valid_fields(fs.take(i + 1)),
    decreases i,
{
    if i == 0 {
        let s = fs.take(1);
        assert(s[0] == fs[0]);
        assert(s.drop_first() =~= Seq::<TypeDesc>::empty());
        assert(valid_fields(Seq::<TypeDesc>::empty()));
    } else {
        assert(fs.take(i)[0] == fs[0]);
        assert(fs.take(i).drop_first() =~= fs.drop_first().take(i - 1));
        lemma_valid_fields_snoc(fs.drop_first(), i - 1);
        assert(fs.drop_first()[i - 1] == fs[i]);
        assert(fs.take(i + 1)[0] == fs[0]);
        assert(fs.take(i + 1).drop_first() =~= fs.drop_first().take(i));
    }
}

pub proof fn lemma_valid_variants_snoc(vs: Seq<Variant>, i: int)
    requires
        0 <= i < vs.len(),
        valid_variants(vs.take(i)),
        valid_fields(vs[i].fields@),
    ensures
        valid_variants(vs.take(i + 1)),
    decreases i,
{
    if i == 0 {
        let s = vs.take(1);
        assert(s[0] == vs[0]);
        assert(s.drop_first() =~= Seq::<Variant>::empty());
        assert(valid_variants(Seq::<Variant>::empty()));
    } else {
        assert(vs.take(i)[0] == vs[0]);
        assert(vs.take(i).drop_first() =~= vs.drop_first().take(i - 1));
        lemma_valid_variants_snoc(vs.drop_first(), i - 1);
        assert(vs.drop_first()[i - 1] == vs[i]);
        assert(vs.take(i + 1)[0] == vs[0]);
        assert(vs.take(i + 1).drop_first() =~= vs.drop_first().take(i));
    }
}

pub proof fn lemma_max_payload_snoc(vs: Seq<Variant>, i: int)
    requires
        0 <= i < vs.len(),
    ensures
        max_payload_size(vs.take(i + 1)) == if fields_size(vs[i].fields@) >= max_payload_size(
            vs.take(i),
        ) {
            fields_size(vs[i].fields@)
        } else {
            max_payload_size(vs.take(i))
        },
    decreases i,
{
    if i == 0 {
        let s = vs.take(1);
        assert(s[0] == vs[0]);
        assert(s.drop_first() =~= Seq::<Variant>::empty());
        assert(vs.take(0) =~= Seq::<Variant>::empty());
    } else {
        assert(vs.take(i)[0] == vs[0]);
        assert(vs.take(i).drop_first() =~= vs.drop_first().take(i - 1));
        lemma_max_payload_snoc(vs.drop_first(), i - 1);
        assert(vs.drop_first()[i - 1] == vs[i]);
        assert(vs.take(i + 1)[0] == vs[0]);
        assert(vs.take(i + 1).drop_first() =~= vs.drop_first().take(i));
    }
}

/// The discriminant width in bytes for a union of `m` variants.
pub fn discriminant_width(m: usize) -> (r: usize)
    ensures
        r == disc_width(m as nat),
{
    let mm: u128 = m as u128;
    if mm <= 0xff {
        1
    } else if mm <= 0xffff {
        2
    } else if mm <= 0xffff_ffff {
        4
    } else if mm <= 0xffff_ffff_ffff_ffff {
        8
    } else {
        16
    }
}

/// Returns whether the descriptor is well-formed: no empty records and no
/// empty unions anywhere inside it.
pub fn check_desc(d: &TypeDesc) -> (r: bool)
    ensures
        r == valid_desc(*d),
    decreases *d, 0nat,
{
    match d {
        TypeDesc::Array(_, t) => check_desc(t),
        TypeDesc::Record(fields) => fields.len() > 0 && check_fields(fields),
        TypeDesc::Union(variants) => {
            let m = variants.len();
            if m == 0 {
                return false;
            }
            let mut i: usize = 0;
            while i < m
                invariant
                    i <= m,
                    m == variants@.len(),
                    *d == TypeDesc::Union(*variants),
                    valid_variants(variants@.take(i as int)),
                decreases m - i,
            {
                proof {
                    let dd = *d;
                    assert(decreases_to!(dd => dd->Union_0@[i as int].fields@));
                }
                if !check_fields(&variants[i].fields) {
                    proof {
                        if valid_variants(variants@) {
                            lemma_valid_variants_index(variants@, i as int);
                        }
                    }
                    return false;
                }
                proof {
                    lemma_valid_variants_snoc(variants@, i as int);
                }
                i = i + 1;
            }
            proof {
                assert(variants@.take(m as int) =~= variants@);
            }
            true
        },
        _ => true,
    }
}

fn check_fields(fs: &Vec<TypeDesc>) -> (r: bool)
    ensures
        r == valid_fields(fs@),
    decreases fs@, 1nat,
{
    let n = fs.len();
    let mut i: usize = 0;
    while i < n
        invariant
            i <= n,
            n == fs@.len(),
            valid_fields(fs@.take(i as int)),
        decreases n - i,
    {
        if !check_desc(&fs[i]) {
            proof {
                if valid_fields(fs@) {
                    lemma_valid_fields_index(fs@, i as int);
                }
            }
            return false;
        }
        proof {
            lemma_valid_fields_snoc(fs@, i as int);
        }
        i = i + 1;
    }
    proof {
        assert(fs@.take(n as int) =~= fs@);
    }
    true
}

/// Computes the encoded size of `d`, or `None` when it does not fit in `usize`.
fn try_size(d: &TypeDesc) -> (r: Option<usize>)
    ensures
        r matches Some(s) ==> s == desc_size(*d),
        r is Some <==> desc_size(*d) <= usize::MAX,
    decreases *d, 0nat,
{
    match d {
        TypeDesc::U8 => Some(1),
        TypeDesc::U16 => Some(2),
        TypeDesc::U32 => Some(4),
        TypeDesc::U64 => Some(8),
        TypeDesc::U128 => Some(16),
        TypeDesc::I8 => Some(1),
        TypeDesc::I16 => Some(2),
        TypeDesc::I32 => Some(4),
        TypeDesc::I64 => Some(8),
        TypeDesc::I128 => Some(16),
        TypeDesc::Bool => Some(1),
        TypeDesc::Char => Some(4),
        TypeDesc::Array(n, t) => {
            let count = *n;
            if count == 0 {
                proof {
                    vstd::arithmetic::mul::lemma_mul_by_zero_is_zero(desc_size(**t) as int);
                }
                return Some(0);
            }
            match try_size(t) {
                None => {
                    proof {
                        vstd::arithmetic::mul::lemma_mul_inequality(
                            1,
                            count as int,
                            desc_size(**t) as int,
                        );
                    }
                    None
                },
                Some(st) => {
                    if st == 0 {
                        proof {
                            vstd::arithmetic::mul::lemma_mul_by_zero_is_zero(count as int);
                        }
                        return Some(0);
                    }
                    let q = usize::MAX / st;
                    proof {
                        vstd::arithmetic::div_mod::lemma_fundamental_div_mod(
                            usize::MAX as int,
                            st as int,
                        );
                        vstd::arithmetic::div_mod::lemma_mod_bound(usize::MAX as int, st as int);
                        vstd::arithmetic::mul::lemma_mul_is_commutative(st as int, q as int);
                        assert((st as int) * (q as int) <= usize::MAX as int);
                    }
                    if count > q {
                        proof {
                            vstd::arithmetic::mul::lemma_mul_inequality(
                                q as int + 1,
                                count as int,
                                st as int,
                            );
                            assert((q as int + 1) * (st as int) == (q as int) * (st as int) + (
                            st as int)) by (nonlinear_arith);
                            assert((count as int) * (st as int) > usize::MAX as int);
                        }
                        None
                    } else {
                        proof {
                            vstd::arithmetic::mul::lemma_mul_inequality(
                                count as int,
                                q as int,
                                st as int,
                            );
                            assert((count as int) * (st as int) <= usize::MAX as int);
                        }
                        Some(count * st)
                    }
                },
            }
        },
        TypeDesc::Record(fields) => try_fields_size(fields),
        TypeDesc::Union(variants) => {
            let m = variants.len();
            let dw = discriminant_width(m);
            let mut maxp: usize = 0;
            let mut i: usize = 0;
            while i < m
                invariant
                    i <= m,
                    m == variants@.len(),
                    *d == TypeDesc::Union(*variants),
                    dw == disc_width(m as nat),
                    maxp == max_payload_size(variants@.take(i as int)),
                decreases m - i,
            {
                proof {
                    let dd = *d;
                    assert(decreases_to!(dd => dd->Union_0@[i as int].fields@));
                }
                match try_fields_size(&variants[i].fields) {
                    None => {
                        proof {
                            lemma_max_payload_ge(variants@, i as int);
                        }
                        return None;
                    },
                    Some(p) => {
                        proof {
                            lemma_max_payload_snoc(variants@, i as int);
                        }
                        if p > maxp {
                            maxp = p;
                        }
                    },
                }
                i = i + 1;
            }
            proof {
                assert(variants@.take(m as int) =~= variants@);
            }
            if maxp > usize::MAX - dw {
                None
            } else {
                Some(dw + maxp)
            }
        },
    }
}

fn try_fields_size(fs: &Vec<TypeDesc>) -> (r: Option<usize>)
    ensures
        r matches Some(s) ==> s == fields_size(fs@),
        r is Some <==> fields_size(fs@) <= usize::MAX,
    decreases fs@, 1nat,
{
    let n = fs.len();
    let mut total: usize = 0;
    let mut i: usize = 0;
    while i < n
        invariant
            i <= n,
            n == fs@.len(),
            total == fields_size(fs@.take(i as int)),
        decreases n - i,
    {
        match try_size(&fs[i]) {
            None => {
                proof {
                    lemma_fields_size_ge_index(fs@, i as int);
                }
                return None;
            },
            Some(s) => {
                proof {
                    lemma_fields_size_snoc(fs@, i as int);
                    lemma_fields_size_split(fs@, i as int + 1);
                }
                if total > usize::MAX - s {
                    proof {
                        assert(fields_size(fs@) >= fields_size(fs@.take(i as int + 1)));
                    }
                    return None;
                }
                total = total + s;
            },
        }
        i = i + 1;
    }
    proof {
        assert(fs@.take(n as int) =~= fs@);
    }
    Some(total)
}

/// The exact number of bytes a field list encodes to.
pub(crate) fn fields_total_size(fs: &Vec<TypeDesc>) -> (r: usize)
    requires
        fields_size(fs@) <= usize::MAX,
    ensures
        r == fields_size(fs@),
{
    match try_fields_size(fs) {
        Some(s) => s,
        None => {
            proof {
                assert(false);
            }
            0
        },
    }
}

/// Returns whether `d` may be used with this codec at all: it is well-formed
/// and its encoded size fits in `usize`. Malformed shapes (an empty record,
/// an empty union) are rejected here, at construction time, not at run time.
pub fn validate(d: &TypeDesc) -> (r: bool)
    ensures
        r <==> valid_desc(*d) && desc_size(*d) <= usize::MAX,
{
    check_desc(d) && try_size(d).is_some()
}

/// The exact number of bytes a value of shape `d` encodes to.
pub fn size(d: &TypeDesc) -> (r: usize)
    requires
        desc_size(*d) <= usize::MAX,
    ensures
        r == desc_size(*d),
{
    match try_size(d) {
        Some(s) => s,
        None => {
            proof {
                assert(false);
            }
            0
        },
    }
}

} // verus!
