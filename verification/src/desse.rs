//! Fixed-size serialization for scalar types.
//!
//! [`DesseSized`] gives a type its exact encoded size; [`Desse`] gives it a
//! serializer and a deserializer, each pinned to a spec-level encoding and
//! decoding function, together with proved size and round-trip laws. The
//! integer types encode little-endian at their natural width, `bool` as one
//! byte (any nonzero byte decodes to `true`), and `char` as its code point in
//! four bytes (invalid code points are rejected with `InvalidChar`).

use vstd::prelude::*;

use crate::bytes::{
    le_bytes, le_value, pow256, read_le_bytes, write_le_bytes, lemma_le_bytes_len,
    lemma_le_value_le_bytes,
};
use crate::codec::char_from_u32;
use crate::error::{Error, ErrorKind};

verus! {

/// Types whose encoded byte length is one exact constant.
pub trait DesseSized {
    /// The exact number of bytes every encoding of this type occupies.
    spec fn size_spec() -> nat;

    /// The encoded size, as a runtime value.
    fn size() -> (r: usize)
        ensures
            r == Self::size_spec(),
    ;
}

/// Fixed-size serialization and deserialization.
pub trait Desse: DesseSized + Sized {
    /// The bytes of this value's encoding.
    spec fn enc_bytes(&self) -> Seq<u8>;

    /// The decoding of a byte string of exactly `size_spec()` bytes.
    spec fn dec_spec(bytes: Seq<u8>) -> Result<Self, ErrorKind>;

    /// Size law: every encoding has exactly `size_spec()` bytes.
    proof fn lemma_size(&self)
        ensures
            self.enc_bytes().len() == Self::size_spec(),
    ;

    /// Round-trip law: decoding an encoding gives the value back.
    proof fn lemma_round_trip(&self)
        ensures
            Self::dec_spec(self.enc_bytes()) == Ok::<Self, ErrorKind>(*self),
    ;

    /// Serializes the value to its exact byte string.
    fn serialize(&self) -> (r: Vec<u8>)
        ensures
            r@ == self.enc_bytes(),
    ;

    /// Appends the value's encoding to `bytes`.
    fn serialize_into(&self, bytes: &mut Vec<u8>)
        ensures
            final(bytes)@ == old(bytes)@ + self.enc_bytes(),
    ;

    /// Deserializes a byte string of exactly `size_spec()` bytes.
    fn deserialize_from(bytes: &[u8]) -> (r: Result<Self, Error>)
        requires
            bytes@.len() == Self::size_spec(),
        ensures
            match Self::dec_spec(bytes@) {
                Ok(v) => r matches Ok(w) && w == v,
                Err(k) => r matches Err(e) && e.kind == k,
            },
    ;
}

impl DesseSized for u8 {
    open spec fn size_spec() -> nat {
        1
    }

    fn size() -> (r: usize) {
        1
    }
}

impl Desse for u8 {
    open spec fn enc_bytes(&self) -> Seq<u8> {
        le_bytes(*self as nat, 1)
    }

    open spec fn dec_spec(bytes: Seq<u8>) -> Result<Self, ErrorKind> {
        Ok(#[verifier::truncate] (le_value(bytes) as u8))
    }

    proof fn lemma_size(&self) {
        lemma_le_bytes_len(*self as nat, 1);
    }

    proof fn lemma_round_trip(&self) {
        reveal_with_fuel(pow256, 17);
        lemma_le_value_le_bytes(*self as nat, 1);
    }

    fn serialize(&self) -> (r: Vec<u8>) {
        let mut out: Vec<u8> = Vec::new();
        write_le_bytes(&mut out, *self as u128, 1);
        proof {
            assert(out@ =~= self.enc_bytes());
        }
        out
    }

    fn serialize_into(&self, bytes: &mut Vec<u8>) {
        write_le_bytes(bytes, *self as u128, 1);
    }

    fn deserialize_from(bytes: &[u8]) -> (r: Result<Self, Error>) {
        proof {
            reveal_with_fuel(pow256, 17);
            assert(bytes@.subrange(0, 1) =~= bytes@);
        }
        Ok(read_le_bytes(bytes, 0, 1) as u8)
    }
}

impl DesseSized for u16 {
    open spec fn size_spec() -> nat {
        2
    }

    fn size() -> (r: usize) {
        2
    }
}

impl Desse for u16 {
    open spec fn enc_bytes(&self) -> Seq<u8> {
        le_bytes(*self as nat, 2)
    }

    open spec fn dec_spec(bytes: Seq<u8>) -> Result<Self, ErrorKind> {
        Ok(#[verifier::truncate] (le_value(bytes) as u16))
    }

    proof fn lemma_size(&self) {
        lemma_le_bytes_len(*self as nat, 2);
    }

    proof fn lemma_round_trip(&self) {
        reveal_with_fuel(pow256, 17);
        lemma_le_value_le_bytes(*self as nat, 2);
    }

    fn serialize(&self) -> (r: Vec<u8>) {
        let mut out: Vec<u8> = Vec::new();
        write_le_bytes(&mut out, *self as u128, 2);
        proof {
            assert(out@ =~= self.enc_bytes());
        }
        out
    }

    fn serialize_into(&self, bytes: &mut Vec<u8>) {
        write_le_bytes(bytes, *self as u128, 2);
    }

    fn deserialize_from(bytes: &[u8]) -> (r: Result<Self, Error>) {
        proof {
            reveal_with_fuel(pow256, 17);
            assert(bytes@.subrange(0, 2) =~= bytes@);
        }
        Ok(read_le_bytes(bytes, 0, 2) as u16)
    }
}

impl DesseSized for u32 {
    open spec fn size_spec() -> nat {
        4
    }

    fn size() -> (r: usize) {
        4
    }
}

impl Desse for u32 {
    open spec fn enc_bytes(&self) -> Seq<u8> {
        le_bytes(*self as nat, 4)
    }

    open spec fn dec_spec(bytes: Seq<u8>) -> Result<Self, ErrorKind> {
        Ok(#[verifier::truncate] (le_value(bytes) as u32))
    }

    proof fn lemma_size(&self) {
        lemma_le_bytes_len(*self as nat, 4);
    }

    proof fn lemma_round_trip(&self) {
        reveal_with_fuel(pow256, 17);
        lemma_le_value_le_bytes(*self as nat, 4);
    }

    fn serialize(&self) -> (r: Vec<u8>) {
        let mut out: Vec<u8> = Vec::new();
        write_le_bytes(&mut out, *self as u128, 4);
        proof {
            assert(out@ =~= self.enc_bytes());
        }
        out
    }

    fn serialize_into(&self, bytes: &mut Vec<u8>) {
        write_le_bytes(bytes, *self as u128, 4);
    }

    fn deserialize_from(bytes: &[u8]) -> (r: Result<Self, Error>) {
        proof {
            reveal_with_fuel(pow256, 17);
            assert(bytes@.subrange(0, 4) =~= bytes@);
        }
        Ok(read_le_bytes(bytes, 0, 4) as u32)
    }
}

impl DesseSized for u64 {
    open spec fn size_spec() -> nat {
        8
    }

    fn size() -> (r: usize) {
        8
    }
}

impl Desse for u64 {
    open spec fn enc_bytes(&self) -> Seq<u8> {
        le_bytes(*self as nat, 8)
    }

    open spec fn dec_spec(bytes: Seq<u8>) -> Result<Self, ErrorKind> {
        Ok(#[verifier::truncate] (le_value(bytes) as u64))
    }

    proof fn lemma_size(&self) {
        lemma_le_bytes_len(*self as nat, 8);
    }

    proof fn lemma_round_trip(&self) {
        reveal_with_fuel(pow256, 17);
        lemma_le_value_le_bytes(*self as nat, 8);
    }

    fn serialize(&self) -> (r: Vec<u8>) {
        let mut out: Vec<u8> = Vec::new();
        write_le_bytes(&mut out, *self as u128, 8);
        proof {
            assert(out@ =~= self.enc_bytes());
        }
        out
    }

    fn serialize_into(&self, bytes: &mut Vec<u8>) {
        write_le_bytes(bytes, *self as u128, 8);
    }

    fn deserialize_from(bytes: &[u8]) -> (r: Result<Self, Error>) {
        proof {
            reveal_with_fuel(pow256, 17);
            assert(bytes@.subrange(0, 8) =~= bytes@);
        }
        Ok(read_le_bytes(bytes, 0, 8) as u64)
    }
}

impl DesseSized for u128 {
    open spec fn size_spec() -> nat {
        16
    }

    fn size() -> (r: usize) {
        16
    }
}

impl Desse for u128 {
    open spec fn enc_bytes(&self) -> Seq<u8> {
        le_bytes(*self as nat, 16)
    }

    open spec fn dec_spec(bytes: Seq<u8>) -> Result<Self, ErrorKind> {
        Ok(#[verifier::truncate] (le_value(bytes) as u128))
    }

    proof fn lemma_size(&self) {
        lemma_le_bytes_len(*self as nat, 16);
    }

    proof fn lemma_round_trip(&self) {
        reveal_with_fuel(pow256, 17);
        lemma_le_value_le_bytes(*self as nat, 16);
    }

    fn serialize(&self) -> (r: Vec<u8>) {
        let mut out: Vec<u8> = Vec::new();
        write_le_bytes(&mut out, *self as u128, 16);
        proof {
            assert(out@ =~= self.enc_bytes());
        }
        out
    }

    fn serialize_into(&self, bytes: &mut Vec<u8>) {
        write_le_bytes(bytes, *self as u128, 16);
    }

    fn deserialize_from(bytes: &[u8]) -> (r: Result<Self, Error>) {
        proof {
            reveal_with_fuel(pow256, 17);
            assert(bytes@.subrange(0, 16) =~= bytes@);
        }
        Ok(read_le_bytes(bytes, 0, 16) as u128)
    }
}

impl DesseSized for i8 {
    open spec fn size_spec() -> nat {
        1
    }

    fn size() -> (r: usize) {
        1
    }
}

impl Desse for i8 {
    open spec fn enc_bytes(&self) -> Seq<u8> {
        le_bytes((#[verifier::truncate] (*self as u8)) as nat, 1)
    }

    open spec fn dec_spec(bytes: Seq<u8>) -> Result<Self, ErrorKind> {
        Ok(
            #[verifier::truncate]
            ((#[verifier::truncate] (le_value(bytes) as u8)) as i8),
        )
    }

    proof fn lemma_size(&self) {
        lemma_le_bytes_len((*self as u8) as nat, 1);
    }

    proof fn lemma_round_trip(&self) {
        reveal_with_fuel(pow256, 17);
        lemma_le_value_le_bytes((*self as u8) as nat, 1);
        let x = *self;
        assert((x as u8) as i8 == x) by (bit_vector);
    }

    fn serialize(&self) -> (r: Vec<u8>) {
        let mut out: Vec<u8> = Vec::new();
        write_le_bytes(&mut out, (*self as u8) as u128, 1);
        proof {
            assert(out@ =~= self.enc_bytes());
        }
        out
    }

    fn serialize_into(&self, bytes: &mut Vec<u8>) {
        write_le_bytes(bytes, (*self as u8) as u128, 1);
    }

    fn deserialize_from(bytes: &[u8]) -> (r: Result<Self, Error>) {
        proof {
            reveal_with_fuel(pow256, 17);
            assert(bytes@.subrange(0, 1) =~= bytes@);
        }
        Ok(read_le_bytes(bytes, 0, 1) as u8 as i8)
    }
}

impl DesseSized for i16 {
    open spec fn size_spec() -> nat {
        2
    }

    fn size() -> (r: usize) {
        2
    }
}

impl Desse for i16 {
    open spec fn enc_bytes(&self) -> Seq<u8> {
        le_bytes((#[verifier::truncate] (*self as u16)) as nat, 2)
    }

    open spec fn dec_spec(bytes: Seq<u8>) -> Result<Self, ErrorKind> {
        Ok(
            #[verifier::truncate]
            ((#[verifier::truncate] (le_value(bytes) as u16)) as i16),
        )
    }

    proof fn lemma_size(&self) {
        lemma_le_bytes_len((*self as u16) as nat, 2);
    }

    proof fn lemma_round_trip(&self) {
        reveal_with_fuel(pow256, 17);
        lemma_le_value_le_bytes((*self as u16) as nat, 2);
        let x = *self;
        assert((x as u16) as i16 == x) by (bit_vector);
    }

    fn serialize(&self) -> (r: Vec<u8>) {
        let mut out: Vec<u8> = Vec::new();
        write_le_bytes(&mut out, (*self as u16) as u128, 2);
        proof {
            assert(out@ =~= self.enc_bytes());
        }
        out
    }

    fn serialize_into(&self, bytes: &mut Vec<u8>) {
        write_le_bytes(bytes, (*self as u16) as u128, 2);
    }

    fn deserialize_from(bytes: &[u8]) -> (r: Result<Self, Error>) {
        proof {
            reveal_with_fuel(pow256, 17);
            assert(bytes@.subrange(0, 2) =~= bytes@);
        }
        Ok(read_le_bytes(bytes, 0, 2) as u16 as i16)
    }
}

impl DesseSized for i32 {
    open spec fn size_spec() -> nat {
        4
    }

    fn size() -> (r: usize) {
        4
    }
}

impl Desse for i32 {
    open spec fn enc_bytes(&self) -> Seq<u8> {
        le_bytes((#[verifier::truncate] (*self as u32)) as nat, 4)
    }

    open spec fn dec_spec(bytes: Seq<u8>) -> Result<Self, ErrorKind> {
        Ok(
            #[verifier::truncate]
            ((#[verifier::truncate] (le_value(bytes) as u32)) as i32),
        )
    }

    proof fn lemma_size(&self) {
        lemma_le_bytes_len((*self as u32) as nat, 4);
    }

    proof fn lemma_round_trip(&self) {
        reveal_with_fuel(pow256, 17);
        lemma_le_value_le_bytes((*self as u32) as nat, 4);
        let x = *self;
        assert((x as u32) as i32 == x) by (bit_vector);
    }

    fn serialize(&self) -> (r: Vec<u8>) {
        let mut out: Vec<u8> = Vec::new();
        write_le_bytes(&mut out, (*self as u32) as u128, 4);
        proof {
            assert(out@ =~= self.enc_bytes());
        }
        out
    }

    fn serialize_into(&self, bytes: &mut Vec<u8>) {
        write_le_bytes(bytes, (*self as u32) as u128, 4);
    }

    fn deserialize_from(bytes: &[u8]) -> (r: Result<Self, Error>) {
        proof {
            reveal_with_fuel(pow256, 17);
            assert(bytes@.subrange(0, 4) =~= bytes@);
        }
        Ok(read_le_bytes(bytes, 0, 4) as u32 as i32)
    }
}

impl DesseSized for i64 {
    open spec fn size_spec() -> nat {
        8
    }

    fn size() -> (r: usize) {
        8
    }
}

impl Desse for i64 {
    open spec fn enc_bytes(&self) -> Seq<u8> {
        le_bytes((#[verifier::truncate] (*self as u64)) as nat, 8)
    }

    open spec fn dec_spec(bytes: Seq<u8>) -> Result<Self, ErrorKind> {
        Ok(
            #[verifier::truncate]
            ((#[verifier::truncate] (le_value(bytes) as u64)) as i64),
        )
    }

    proof fn lemma_size(&self) {
        lemma_le_bytes_len((*self as u64) as nat, 8);
    }

    proof fn lemma_round_trip(&self) {
        reveal_with_fuel(pow256, 17);
        lemma_le_value_le_bytes((*self as u64) as nat, 8);
        let x = *self;
        assert((x as u64) as i64 == x) by (bit_vector);
    }

    fn serialize(&self) -> (r: Vec<u8>) {
        let mut out: Vec<u8> = Vec::new();
        write_le_bytes(&mut out, (*self as u64) as u128, 8);
        proof {
            assert(out@ =~= self.enc_bytes());
        }
        out
    }

    fn serialize_into(&self, bytes: &mut Vec<u8>) {
        write_le_bytes(bytes, (*self as u64) as u128, 8);
    }

    fn deserialize_from(bytes: &[u8]) -> (r: Result<Self, Error>) {
        proof {
            reveal_with_fuel(pow256, 17);
            assert(bytes@.subrange(0, 8) =~= bytes@);
        }
        Ok(read_le_bytes(bytes, 0, 8) as u64 as i64)
    }
}

impl DesseSized for i128 {
    open spec fn size_spec() -> nat {
        16
    }

    fn size() -> (r: usize) {
        16
    }
}

impl Desse for i128 {
    open spec fn enc_bytes(&self) -> Seq<u8> {
        le_bytes((#[verifier::truncate] (*self as u128)) as nat, 16)
    }

    open spec fn dec_spec(bytes: Seq<u8>) -> Result<Self, ErrorKind> {
        Ok(
            #[verifier::truncate]
            ((#[verifier::truncate] (le_value(bytes) as u128)) as i128),
        )
    }

    proof fn lemma_size(&self) {
        lemma_le_bytes_len((*self as u128) as nat, 16);
    }

    proof fn lemma_round_trip(&self) {
        reveal_with_fuel(pow256, 17);
        lemma_le_value_le_bytes((*self as u128) as nat, 16);
        let x = *self;
        assert((x as u128) as i128 == x) by (bit_vector);
    }

    fn serialize(&self) -> (r: Vec<u8>) {
        let mut out: Vec<u8> = Vec::new();
        write_le_bytes(&mut out, (*self as u128) as u128, 16);
        proof {
            assert(out@ =~= self.enc_bytes());
        }
        out
    }

    fn serialize_into(&self, bytes: &mut Vec<u8>) {
        write_le_bytes(bytes, (*self as u128) as u128, 16);
    }

    fn deserialize_from(bytes: &[u8]) -> (r: Result<Self, Error>) {
        proof {
            reveal_with_fuel(pow256, 17);
            assert(bytes@.subrange(0, 16) =~= bytes@);
        }
        Ok(read_le_bytes(bytes, 0, 16) as u128 as i128)
    }
}

impl DesseSized for bool {
    open spec fn size_spec() -> nat {
        1
    }

    fn size() -> (r: usize) {
        1
    }
}

impl Desse for bool {
    open spec fn enc_bytes(&self) -> Seq<u8> {
        seq![
            if *self {
                1u8
            } else {
                0u8
            },
        ]
    }

    open spec fn dec_spec(bytes: Seq<u8>) -> Result<Self, ErrorKind> {
        Ok(bytes.len() > 0 && bytes[0] != 0)
    }

    proof fn lemma_size(&self) {
    }

    proof fn lemma_round_trip(&self) {
    }

    fn serialize(&self) -> (r: Vec<u8>) {
        let mut out: Vec<u8> = Vec::new();
        if *self {
            out.push(1u8);
        } else {
            out.push(0u8);
        }
        proof {
            assert(out@ =~= self.enc_bytes());
        }
        out
    }

    fn serialize_into(&self, bytes: &mut Vec<u8>) {
        if *self {
            bytes.push(1u8);
        } else {
            bytes.push(0u8);
        }
        proof {
            assert(bytes@ =~= old(bytes)@ + self.enc_bytes());
        }
    }

    fn deserialize_from(bytes: &[u8]) -> (r: Result<Self, Error>) {
        Ok(bytes[0] != 0)
    }
}

impl DesseSized for char {
    open spec fn size_spec() -> nat {
        4
    }

    fn size() -> (r: usize) {
        4
    }
}

impl Desse for char {
    open spec fn enc_bytes(&self) -> Seq<u8> {
        le_bytes((*self as u32) as nat, 4)
    }

    open spec fn dec_spec(bytes: Seq<u8>) -> Result<Self, ErrorKind> {
        let n = #[verifier::truncate] (le_value(bytes) as u32);
        if n < 0xD800 || (0xE000 <= n && n < 0x11_0000) {
            Ok(n as char)
        } else {
            Err(ErrorKind::InvalidChar)
        }
    }

    proof fn lemma_size(&self) {
        lemma_le_bytes_len((*self as u32) as nat, 4);
    }

    proof fn lemma_round_trip(&self) {
        reveal_with_fuel(pow256, 17);
        vstd::utf8::char_is_scalar(*self);
        lemma_le_value_le_bytes((*self as u32) as nat, 4);
        vstd::utf8::char_u32_cast(*self, *self as u32);
    }

    fn serialize(&self) -> (r: Vec<u8>) {
        let mut out: Vec<u8> = Vec::new();
        write_le_bytes(&mut out, (*self as u32) as u128, 4);
        proof {
            assert(out@ =~= self.enc_bytes());
        }
        out
    }

    fn serialize_into(&self, bytes: &mut Vec<u8>) {
        write_le_bytes(bytes, (*self as u32) as u128, 4);
    }

    fn deserialize_from(bytes: &[u8]) -> (r: Result<Self, Error>) {
        proof {
            reveal_with_fuel(pow256, 17);
            assert(bytes@.subrange(0, 4) =~= bytes@);
        }
        let x = read_le_bytes(bytes, 0, 4) as u32;
        match char_from_u32(x) {
            Some(c) => {
                proof {
                    vstd::utf8::char_u32_cast(c, x);
                }
                Ok(c)
            },
            None => Err(Error::new(ErrorKind::InvalidChar)),
        }
    }
}

} // verus!
