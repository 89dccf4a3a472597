//! Length-prefixed serialization for dynamically sized values.
//!
//! The dynamic path layers on the static codec: fixed-size scalars keep
//! their static little-endian encoding, text and vectors are written as an
//! 8-byte little-endian count followed by their contents. Writing goes
//! through a [`Writer`], reading through a [`Reader`]; the checked tier
//! reports `InvalidSliceLength` on shortfall, the unchecked tier asks its
//! caller to have ruled shortfall out.

use vstd::prelude::*;
use vstd::utf8::{encode_utf8, decode_utf8, valid_utf8};

use crate::bytes::{le_bytes, le_value, pow256, read_le_bytes, lemma_le_bytes_len,
    lemma_le_value_le_bytes};
use crate::desse::{Desse, DesseSized};
use crate::error::{Error, ErrorKind};
use crate::reader::Reader;
use crate::writer::Writer;

verus! {

broadcast use vstd::seq_lib::lemma_seq_skip_of_skip;

/// Serialization with an explicit length prefix for dynamically sized
/// values. Contracts are stated over each type's deep view: a scalar is its
/// own view, text is its character sequence, a vector is the sequence of its
/// elements' views.
pub trait DesseDynamic: Sized + DeepView {
    /// The bytes of this value's dynamic encoding.
    spec fn dyn_bytes(&self) -> Seq<u8>;

    /// How a byte stream beginning with an encoding of this type parses:
    /// the decoded value's view and the number of bytes consumed, or the
    /// error kind.
    spec fn dyn_parse(bytes: Seq<u8>) -> Result<(<Self as DeepView>::V, nat), ErrorKind>;

    /// Round-trip law: an encoding, followed by anything, parses back to
    /// the encoded value, consuming exactly the encoding.
    proof fn lemma_dyn_round_trip(&self, rest: Seq<u8>)
        requires
            self.dyn_bytes().len() <= usize::MAX,
        ensures
            Self::dyn_parse(self.dyn_bytes() + rest) == Ok::<(<Self as DeepView>::V, nat), ErrorKind>(
                (self.deep_view(), self.dyn_bytes().len()),
            ),
    ;

    /// A successful parse consumes at least one byte and at most the input.
    proof fn lemma_dyn_parse_progress(bytes: Seq<u8>)
        ensures
            Self::dyn_parse(bytes) matches Ok((v, n)) ==> 1 <= n <= bytes.len(),
    ;

    /// The number of bytes `serialize` produces.
    fn serialized_size(&self) -> (r: usize)
        requires
            self.dyn_bytes().len() <= usize::MAX,
        ensures
            r == self.dyn_bytes().len(),
    ;

    /// Serializes this value into a fresh buffer.
    fn serialize(&self) -> (r: Result<Vec<u8>, Error>)
        requires
            self.dyn_bytes().len() <= usize::MAX,
        ensures
            r matches Ok(b) && b@ == self.dyn_bytes(),
    ;

    /// Serializes this value into the writer, checking for room first.
    /// A failed write may leave a prefix of the encoding behind; nothing is
    /// rolled back.
    fn serialize_into<W: Writer>(&self, writer: &mut W) -> (r: Result<(), Error>)
        ensures
            r is Ok <==> self.dyn_bytes().len() <= old(writer).space(),
            r is Ok ==> final(writer).stream() == old(writer).stream() + self.dyn_bytes()
                && final(writer).space() == old(writer).space() - self.dyn_bytes().len(),
            r is Err ==> (r matches Err(e) && e.kind == ErrorKind::InvalidSliceLength),
            r is Err ==> exists|k: int|
                0 <= k <= self.dyn_bytes().len() && final(writer).stream() == old(
                    writer,
                ).stream() + self.dyn_bytes().take(k),
    ;

    /// Serializes this value into the writer; the caller has checked that
    /// the writer has room for the whole encoding.
    fn serialize_into_unchecked<W: Writer>(&self, writer: &mut W) -> (r: Result<(), Error>)
        requires
            self.dyn_bytes().len() <= old(writer).space(),
        ensures
            r is Ok,
            final(writer).stream() == old(writer).stream() + self.dyn_bytes(),
            final(writer).space() == old(writer).space() - self.dyn_bytes().len(),
    ;

    /// Deserializes one value from the reader, consuming exactly its
    /// encoding. On failure the reader may have consumed a prefix; nothing
    /// is rolled back.
    fn deserialize_from<R: Reader>(reader: &mut R) -> (r: Result<Self, Error>)
        ensures
            match Self::dyn_parse(old(reader).remaining()) {
                Ok((v, n)) => r matches Ok(w) && w.deep_view() == v && final(reader).remaining()
                    == old(reader).remaining().skip(n as int),
                Err(k) => r matches Err(e) && e.kind == k,
            },
            r is Err ==> exists|k: int|
                0 <= k <= old(reader).remaining().len() && final(reader).remaining() == old(
                    reader,
                ).remaining().skip(k),
    ;

    /// Deserializes one value from the reader; the caller has checked that
    /// the reader begins with a well-formed encoding.
    fn deserialize_from_unchecked<R: Reader>(reader: &mut R) -> (r: Result<Self, Error>)
        requires
            Self::dyn_parse(old(reader).remaining()) is Ok,
        ensures
            match Self::dyn_parse(old(reader).remaining()) {
                Ok((v, n)) => r matches Ok(w) && w.deep_view() == v && final(reader).remaining()
                    == old(reader).remaining().skip(n as int),
                Err(k) => false,
            },
    ;
}

impl DesseDynamic for u8 {
    open spec fn dyn_bytes(&self) -> Seq<u8> {
        self.enc_bytes()
    }

    open spec fn dyn_parse(bytes: Seq<u8>) -> Result<(u8, nat), ErrorKind> {
        if bytes.len() < u8::size_spec() {
            Err(ErrorKind::InvalidSliceLength)
        } else {
            match u8::dec_spec(bytes.take(u8::size_spec() as int)) {
                Ok(v) => Ok((v, u8::size_spec())),
                Err(k) => Err(k),
            }
        }
    }

    proof fn lemma_dyn_round_trip(&self, rest: Seq<u8>) {
        self.lemma_size();
        assert((self.enc_bytes() + rest).take(u8::size_spec() as int) =~= self.enc_bytes());
        self.lemma_round_trip();
    }

    proof fn lemma_dyn_parse_progress(bytes: Seq<u8>) {
    }

    fn serialized_size(&self) -> (r: usize) {
        proof {
            self.lemma_size();
        }
        u8::size()
    }

    fn serialize(&self) -> (r: Result<Vec<u8>, Error>) {
        Ok(Desse::serialize(self))
    }

    fn serialize_into<W: Writer>(&self, writer: &mut W) -> (r: Result<(), Error>) {
        let b = Desse::serialize(self);
        proof {
            assert(self.dyn_bytes().take(0) =~= Seq::<u8>::empty());
            assert(old(writer).stream() + Seq::<u8>::empty() =~= old(writer).stream());
        }
        writer.write(b.as_slice())
    }

    fn serialize_into_unchecked<W: Writer>(&self, writer: &mut W) -> (r: Result<(), Error>) {
        let b = Desse::serialize(self);
        writer.write_unchecked(b.as_slice())
    }

    fn deserialize_from<R: Reader>(reader: &mut R) -> (r: Result<Self, Error>) {
        match reader.read(1) {
            Err(e) => {
                proof {
                    assert(old(reader).remaining() =~= old(reader).remaining().skip(0));
                }
                Err(e)
            },
            Ok(b) => {
                let res = <u8 as Desse>::deserialize_from(b.as_slice());
                match res {
                    Ok(v) => Ok(v),
                    Err(e) => {
                        proof {
                            assert(final(reader).remaining() == old(reader).remaining().skip(
                                1,
                            ));
                        }
                        Err(e)
                    },
                }
            },
        }
    }

    fn deserialize_from_unchecked<R: Reader>(reader: &mut R) -> (r: Result<Self, Error>) {
        let b = match reader.read_unchecked(1) {
            Ok(b) => b,
            Err(e) => {
                proof {
                    assert(false);
                }
                return Err(e);
            },
        };
        let res = <u8 as Desse>::deserialize_from(b.as_slice());
        match res {
            Ok(v) => Ok(v),
            Err(e) => {
                proof {
                    assert(false);
                }
                Err(e)
            },
        }
    }
}

impl DesseDynamic for u16 {
    open spec fn dyn_bytes(&self) -> Seq<u8> {
        self.enc_bytes()
    }

    open spec fn dyn_parse(bytes: Seq<u8>) -> Result<(u16, nat), ErrorKind> {
        if bytes.len() < u16::size_spec() {
            Err(ErrorKind::InvalidSliceLength)
        } else {
            match u16::dec_spec(bytes.take(u16::size_spec() as int)) {
                Ok(v) => Ok((v, u16::size_spec())),
                Err(k) => Err(k),
            }
        }
    }

    proof fn lemma_dyn_round_trip(&self, rest: Seq<u8>) {
        self.lemma_size();
        assert((self.enc_bytes() + rest).take(u16::size_spec() as int) =~= self.enc_bytes());
        self.lemma_round_trip();
    }

    proof fn lemma_dyn_parse_progress(bytes: Seq<u8>) {
    }

    fn serialized_size(&self) -> (r: usize) {
        proof {
            self.lemma_size();
        }
        u16::size()
    }

    fn serialize(&self) -> (r: Result<Vec<u8>, Error>) {
        Ok(Desse::serialize(self))
    }

    fn serialize_into<W: Writer>(&self, writer: &mut W) -> (r: Result<(), Error>) {
        let b = Desse::serialize(self);
        proof {
            assert(self.dyn_bytes().take(0) =~= Seq::<u8>::empty());
            assert(old(writer).stream() + Seq::<u8>::empty() =~= old(writer).stream());
        }
        writer.write(b.as_slice())
    }

    fn serialize_into_unchecked<W: Writer>(&self, writer: &mut W) -> (r: Result<(), Error>) {
        let b = Desse::serialize(self);
        writer.write_unchecked(b.as_slice())
    }

    fn deserialize_from<R: Reader>(reader: &mut R) -> (r: Result<Self, Error>) {
        match reader.read(2) {
            Err(e) => {
                proof {
                    assert(old(reader).remaining() =~= old(reader).remaining().skip(0));
                }
                Err(e)
            },
            Ok(b) => {
                let res = <u16 as Desse>::deserialize_from(b.as_slice());
                match res {
                    Ok(v) => Ok(v),
                    Err(e) => {
                        proof {
                            assert(final(reader).remaining() == old(reader).remaining().skip(
                                2,
                            ));
                        }
                        Err(e)
                    },
                }
            },
        }
    }

    fn deserialize_from_unchecked<R: Reader>(reader: &mut R) -> (r: Result<Self, Error>) {
        let b = match reader.read_unchecked(2) {
            Ok(b) => b,
            Err(e) => {
                proof {
                    assert(false);
                }
                return Err(e);
            },
        };
        let res = <u16 as Desse>::deserialize_from(b.as_slice());
        match res {
            Ok(v) => Ok(v),
            Err(e) => {
                proof {
                    assert(false);
                }
                Err(e)
            },
        }
    }
}

impl DesseDynamic for u32 {
    open spec fn dyn_bytes(&self) -> Seq<u8> {
        self.enc_bytes()
    }

    open spec fn dyn_parse(bytes: Seq<u8>) -> Result<(u32, nat), ErrorKind> {
        if bytes.len() < u32::size_spec() {
            Err(ErrorKind::InvalidSliceLength)
        } else {
            match u32::dec_spec(bytes.take(u32::size_spec() as int)) {
                Ok(v) => Ok((v, u32::size_spec())),
                Err(k) => Err(k),
            }
        }
    }

    proof fn lemma_dyn_round_trip(&self, rest: Seq<u8>) {
        self.lemma_size();
        assert((self.enc_bytes() + rest).take(u32::size_spec() as int) =~= self.enc_bytes());
        self.lemma_round_trip();
    }

    proof fn lemma_dyn_parse_progress(bytes: Seq<u8>) {
    }

    fn serialized_size(&self) -> (r: usize) {
        proof {
            self.lemma_size();
        }
        u32::size()
    }

    fn serialize(&self) -> (r: Result<Vec<u8>, Error>) {
        Ok(Desse::serialize(self))
    }

    fn serialize_into<W: Writer>(&self, writer: &mut W) -> (r: Result<(), Error>) {
        let b = Desse::serialize(self);
        proof {
            assert(self.dyn_bytes().take(0) =~= Seq::<u8>::empty());
            assert(old(writer).stream() + Seq::<u8>::empty() =~= old(writer).stream());
        }
        writer.write(b.as_slice())
    }

    fn serialize_into_unchecked<W: Writer>(&self, writer: &mut W) -> (r: Result<(), Error>) {
        let b = Desse::serialize(self);
        writer.write_unchecked(b.as_slice())
    }

    fn deserialize_from<R: Reader>(reader: &mut R) -> (r: Result<Self, Error>) {
        match reader.read(4) {
            Err(e) => {
                proof {
                    assert(old(reader).remaining() =~= old(reader).remaining().skip(0));
                }
                Err(e)
            },
            Ok(b) => {
                let res = <u32 as Desse>::deserialize_from(b.as_slice());
                match res {
                    Ok(v) => Ok(v),
                    Err(e) => {
                        proof {
                            assert(final(reader).remaining() == old(reader).remaining().skip(
                                4,
                            ));
                        }
                        Err(e)
                    },
                }
            },
        }
    }

    fn deserialize_from_unchecked<R: Reader>(reader: &mut R) -> (r: Result<Self, Error>) {
        let b = match reader.read_unchecked(4) {
            Ok(b) => b,
            Err(e) => {
                proof {
                    assert(false);
                }
                return Err(e);
            },
        };
        let res = <u32 as Desse>::deserialize_from(b.as_slice());
        match res {
            Ok(v) => Ok(v),
            Err(e) => {
                proof {
                    assert(false);
                }
                Err(e)
            },
        }
    }
}

impl DesseDynamic for u64 {
    open spec fn dyn_bytes(&self) -> Seq<u8> {
        self.enc_bytes()
    }

    open spec fn dyn_parse(bytes: Seq<u8>) -> Result<(u64, nat), ErrorKind> {
        if bytes.len() < u64::size_spec() {
            Err(ErrorKind::InvalidSliceLength)
        } else {
            match u64::dec_spec(bytes.take(u64::size_spec() as int)) {
                Ok(v) => Ok((v, u64::size_spec())),
                Err(k) => Err(k),
            }
        }
    }

    proof fn lemma_dyn_round_trip(&self, rest: Seq<u8>) {
        self.lemma_size();
        assert((self.enc_bytes() + rest).take(u64::size_spec() as int) =~= self.enc_bytes());
        self.lemma_round_trip();
    }

    proof fn lemma_dyn_parse_progress(bytes: Seq<u8>) {
    }

    fn serialized_size(&self) -> (r: usize) {
        proof {
            self.lemma_size();
        }
        u64::size()
    }

    fn serialize(&self) -> (r: Result<Vec<u8>, Error>) {
        Ok(Desse::serialize(self))
    }

    fn serialize_into<W: Writer>(&self, writer: &mut W) -> (r: Result<(), Error>) {
        let b = Desse::serialize(self);
        proof {
            assert(self.dyn_bytes().take(0) =~= Seq::<u8>::empty());
            assert(old(writer).stream() + Seq::<u8>::empty() =~= old(writer).stream());
        }
        writer.write(b.as_slice())
    }

    fn serialize_into_unchecked<W: Writer>(&self, writer: &mut W) -> (r: Result<(), Error>) {
        let b = Desse::serialize(self);
        writer.write_unchecked(b.as_slice())
    }

    fn deserialize_from<R: Reader>(reader: &mut R) -> (r: Result<Self, Error>) {
        match reader.read(8) {
            Err(e) => {
                proof {
                    assert(old(reader).remaining() =~= old(reader).remaining().skip(0));
                }
                Err(e)
            },
            Ok(b) => {
                let res = <u64 as Desse>::deserialize_from(b.as_slice());
                match res {
                    Ok(v) => Ok(v),
                    Err(e) => {
                        proof {
                            assert(final(reader).remaining() == old(reader).remaining().skip(
                                8,
                            ));
                        }
                        Err(e)
                    },
                }
            },
        }
    }

    fn deserialize_from_unchecked<R: Reader>(reader: &mut R) -> (r: Result<Self, Error>) {
        let b = match reader.read_unchecked(8) {
            Ok(b) => b,
            Err(e) => {
                proof {
                    assert(false);
                }
                return Err(e);
            },
        };
        let res = <u64 as Desse>::deserialize_from(b.as_slice());
        match res {
            Ok(v) => Ok(v),
            Err(e) => {
                proof {
                    assert(false);
                }
                Err(e)
            },
        }
    }
}

impl DesseDynamic for u128 {
    open spec fn dyn_bytes(&self) -> Seq<u8> {
        self.enc_bytes()
    }

    open spec fn dyn_parse(bytes: Seq<u8>) -> Result<(u128, nat), ErrorKind> {
        if bytes.len() < u128::size_spec() {
            Err(ErrorKind::InvalidSliceLength)
        } else {
            match u128::dec_spec(bytes.take(u128::size_spec() as int)) {
                Ok(v) => Ok((v, u128::size_spec())),
                Err(k) => Err(k),
            }
        }
    }

    proof fn lemma_dyn_round_trip(&self, rest: Seq<u8>) {
        self.lemma_size();
        assert((self.enc_bytes() + rest).take(u128::size_spec() as int) =~= self.enc_bytes());
        self.lemma_round_trip();
    }

    proof fn lemma_dyn_parse_progress(bytes: Seq<u8>) {
    }

    fn serialized_size(&self) -> (r: usize) {
        proof {
            self.lemma_size();
        }
        u128::size()
    }

    fn serialize(&self) -> (r: Result<Vec<u8>, Error>) {
        Ok(Desse::serialize(self))
    }

    fn serialize_into<W: Writer>(&self, writer: &mut W) -> (r: Result<(), Error>) {
        let b = Desse::serialize(self);
        proof {
            assert(self.dyn_bytes().take(0) =~= Seq::<u8>::empty());
            assert(old(writer).stream() + Seq::<u8>::empty() =~= old(writer).stream());
        }
        writer.write(b.as_slice())
    }

    fn serialize_into_unchecked<W: Writer>(&self, writer: &mut W) -> (r: Result<(), Error>) {
        let b = Desse::serialize(self);
        writer.write_unchecked(b.as_slice())
    }

    fn deserialize_from<R: Reader>(reader: &mut R) -> (r: Result<Self, Error>) {
        match reader.read(16) {
            Err(e) => {
                proof {
                    assert(old(reader).remaining() =~= old(reader).remaining().skip(0));
                }
                Err(e)
            },
            Ok(b) => {
                let res = <u128 as Desse>::deserialize_from(b.as_slice());
                match res {
                    Ok(v) => Ok(v),
                    Err(e) => {
                        proof {
                            assert(final(reader).remaining() == old(reader).remaining().skip(
                                16,
                            ));
                        }
                        Err(e)
                    },
                }
            },
        }
    }

    fn deserialize_from_unchecked<R: Reader>(reader: &mut R) -> (r: Result<Self, Error>) {
        let b = match reader.read_unchecked(16) {
            Ok(b) => b,
            Err(e) => {
                proof {
                    assert(false);
                }
                return Err(e);
            },
        };
        let res = <u128 as Desse>::deserialize_from(b.as_slice());
        match res {
            Ok(v) => Ok(v),
            Err(e) => {
                proof {
                    assert(false);
                }
                Err(e)
            },
        }
    }
}

impl DesseDynamic for i8 {
    open spec fn dyn_bytes(&self) -> Seq<u8> {
        self.enc_bytes()
    }

    open spec fn dyn_parse(bytes: Seq<u8>) -> Result<(i8, nat), ErrorKind> {
        if bytes.len() < i8::size_spec() {
            Err(ErrorKind::InvalidSliceLength)
        } else {
            match i8::dec_spec(bytes.take(i8::size_spec() as int)) {
                Ok(v) => Ok((v, i8::size_spec())),
                Err(k) => Err(k),
            }
        }
    }

    proof fn lemma_dyn_round_trip(&self, rest: Seq<u8>) {
        self.lemma_size();
        assert((self.enc_bytes() + rest).take(i8::size_spec() as int) =~= self.enc_bytes());
        self.lemma_round_trip();
    }

    proof fn lemma_dyn_parse_progress(bytes: Seq<u8>) {
    }

    fn serialized_size(&self) -> (r: usize) {
        proof {
            self.lemma_size();
        }
        i8::size()
    }

    fn serialize(&self) -> (r: Result<Vec<u8>, Error>) {
        Ok(Desse::serialize(self))
    }

    fn serialize_into<W: Writer>(&self, writer: &mut W) -> (r: Result<(), Error>) {
        let b = Desse::serialize(self);
        proof {
            assert(self.dyn_bytes().take(0) =~= Seq::<u8>::empty());
            assert(old(writer).stream() + Seq::<u8>::empty() =~= old(writer).stream());
        }
        writer.write(b.as_slice())
    }

    fn serialize_into_unchecked<W: Writer>(&self, writer: &mut W) -> (r: Result<(), Error>) {
        let b = Desse::serialize(self);
        writer.write_unchecked(b.as_slice())
    }

    fn deserialize_from<R: Reader>(reader: &mut R) -> (r: Result<Self, Error>) {
        match reader.read(1) {
            Err(e) => {
                proof {
                    assert(old(reader).remaining() =~= old(reader).remaining().skip(0));
                }
                Err(e)
            },
            Ok(b) => {
                let res = <i8 as Desse>::deserialize_from(b.as_slice());
                match res {
                    Ok(v) => Ok(v),
                    Err(e) => {
                        proof {
                            assert(final(reader).remaining() == old(reader).remaining().skip(
                                1,
                            ));
                        }
                        Err(e)
                    },
                }
            },
        }
    }

    fn deserialize_from_unchecked<R: Reader>(reader: &mut R) -> (r: Result<Self, Error>) {
        let b = match reader.read_unchecked(1) {
            Ok(b) => b,
            Err(e) => {
                proof {
                    assert(false);
                }
                return Err(e);
            },
        };
        let res = <i8 as Desse>::deserialize_from(b.as_slice());
        match res {
            Ok(v) => Ok(v),
            Err(e) => {
                proof {
                    assert(false);
                }
                Err(e)
            },
        }
    }
}

impl DesseDynamic for i16 {
    open spec fn dyn_bytes(&self) -> Seq<u8> {
        self.enc_bytes()
    }

    open spec fn dyn_parse(bytes: Seq<u8>) -> Result<(i16, nat), ErrorKind> {
        if bytes.len() < i16::size_spec() {
            Err(ErrorKind::InvalidSliceLength)
        } else {
            match i16::dec_spec(bytes.take(i16::size_spec() as int)) {
                Ok(v) => Ok((v, i16::size_spec())),
                Err(k) => Err(k),
            }
        }
    }

    proof fn lemma_dyn_round_trip(&self, rest: Seq<u8>) {
        self.lemma_size();
        assert((self.enc_bytes() + rest).take(i16::size_spec() as int) =~= self.enc_bytes());
        self.lemma_round_trip();
    }

    proof fn lemma_dyn_parse_progress(bytes: Seq<u8>) {
    }

    fn serialized_size(&self) -> (r: usize) {
        proof {
            self.lemma_size();
        }
        i16::size()
    }

    fn serialize(&self) -> (r: Result<Vec<u8>, Error>) {
        Ok(Desse::serialize(self))
    }

    fn serialize_into<W: Writer>(&self, writer: &mut W) -> (r: Result<(), Error>) {
        let b = Desse::serialize(self);
        proof {
            assert(self.dyn_bytes().take(0) =~= Seq::<u8>::empty());
            assert(old(writer).stream() + Seq::<u8>::empty() =~= old(writer).stream());
        }
        writer.write(b.as_slice())
    }

    fn serialize_into_unchecked<W: Writer>(&self, writer: &mut W) -> (r: Result<(), Error>) {
        let b = Desse::serialize(self);
        writer.write_unchecked(b.as_slice())
    }

    fn deserialize_from<R: Reader>(reader: &mut R) -> (r: Result<Self, Error>) {
        match reader.read(2) {
            Err(e) => {
                proof {
                    assert(old(reader).remaining() =~= old(reader).remaining().skip(0));
                }
                Err(e)
            },
            Ok(b) => {
                let res = <i16 as Desse>::deserialize_from(b.as_slice());
                match res {
                    Ok(v) => Ok(v),
                    Err(e) => {
                        proof {
                            assert(final(reader).remaining() == old(reader).remaining().skip(
                                2,
                            ));
                        }
                        Err(e)
                    },
                }
            },
        }
    }

    fn deserialize_from_unchecked<R: Reader>(reader: &mut R) -> (r: Result<Self, Error>) {
        let b = match reader.read_unchecked(2) {
            Ok(b) => b,
            Err(e) => {
                proof {
                    assert(false);
                }
                return Err(e);
            },
        };
        let res = <i16 as Desse>::deserialize_from(b.as_slice());
        match res {
            Ok(v) => Ok(v),
            Err(e) => {
                proof {
                    assert(false);
                }
                Err(e)
            },
        }
    }
}

impl DesseDynamic for i32 {
    open spec fn dyn_bytes(&self) -> Seq<u8> {
        self.enc_bytes()
    }

    open spec fn dyn_parse(bytes: Seq<u8>) -> Result<(i32, nat), ErrorKind> {
        if bytes.len() < i32::size_spec() {
            Err(ErrorKind::InvalidSliceLength)
        } else {
            match i32::dec_spec(bytes.take(i32::size_spec() as int)) {
                Ok(v) => Ok((v, i32::size_spec())),
                Err(k) => Err(k),
            }
        }
    }

    proof fn lemma_dyn_round_trip(&self, rest: Seq<u8>) {
        self.lemma_size();
        assert((self.enc_bytes() + rest).take(i32::size_spec() as int) =~= self.enc_bytes());
        self.lemma_round_trip();
    }

    proof fn lemma_dyn_parse_progress(bytes: Seq<u8>) {
    }

    fn serialized_size(&self) -> (r: usize) {
        proof {
            self.lemma_size();
        }
        i32::size()
    }

    fn serialize(&self) -> (r: Result<Vec<u8>, Error>) {
        Ok(Desse::serialize(self))
    }

    fn serialize_into<W: Writer>(&self, writer: &mut W) -> (r: Result<(), Error>) {
        let b = Desse::serialize(self);
        proof {
            assert(self.dyn_bytes().take(0) =~= Seq::<u8>::empty());
            assert(old(writer).stream() + Seq::<u8>::empty() =~= old(writer).stream());
        }
        writer.write(b.as_slice())
    }

    fn serialize_into_unchecked<W: Writer>(&self, writer: &mut W) -> (r: Result<(), Error>) {
        let b = Desse::serialize(self);
        writer.write_unchecked(b.as_slice())
    }

    fn deserialize_from<R: Reader>(reader: &mut R) -> (r: Result<Self, Error>) {
        match reader.read(4) {
            Err(e) => {
                proof {
                    assert(old(reader).remaining() =~= old(reader).remaining().skip(0));
                }
                Err(e)
            },
            Ok(b) => {
                let res = <i32 as Desse>::deserialize_from(b.as_slice());
                match res {
                    Ok(v) => Ok(v),
                    Err(e) => {
                        proof {
                            assert(final(reader).remaining() == old(reader).remaining().skip(
                                4,
                            ));
                        }
                        Err(e)
                    },
                }
            },
        }
    }

    fn deserialize_from_unchecked<R: Reader>(reader: &mut R) -> (r: Result<Self, Error>) {
        let b = match reader.read_unchecked(4) {
            Ok(b) => b,
            Err(e) => {
                proof {
                    assert(false);
                }
                return Err(e);
            },
        };
        let res = <i32 as Desse>::deserialize_from(b.as_slice());
        match res {
            Ok(v) => Ok(v),
            Err(e) => {
                proof {
                    assert(false);
                }
                Err(e)
            },
        }
    }
}

impl DesseDynamic for i64 {
    open spec fn dyn_bytes(&self) -> Seq<u8> {
        self.enc_bytes()
    }

    open spec fn dyn_parse(bytes: Seq<u8>) -> Result<(i64, nat), ErrorKind> {
        if bytes.len() < i64::size_spec() {
            Err(ErrorKind::InvalidSliceLength)
        } else {
            match i64::dec_spec(bytes.take(i64::size_spec() as int)) {
                Ok(v) => Ok((v, i64::size_spec())),
                Err(k) => Err(k),
            }
        }
    }

    proof fn lemma_dyn_round_trip(&self, rest: Seq<u8>) {
        self.lemma_size();
        assert((self.enc_bytes() + rest).take(i64::size_spec() as int) =~= self.enc_bytes());
        self.lemma_round_trip();
    }

    proof fn lemma_dyn_parse_progress(bytes: Seq<u8>) {
    }

    fn serialized_size(&self) -> (r: usize) {
        proof {
            self.lemma_size();
        }
        i64::size()
    }

    fn serialize(&self) -> (r: Result<Vec<u8>, Error>) {
        Ok(Desse::serialize(self))
    }

    fn serialize_into<W: Writer>(&self, writer: &mut W) -> (r: Result<(), Error>) {
        let b = Desse::serialize(self);
        proof {
            assert(self.dyn_bytes().take(0) =~= Seq::<u8>::empty());
            assert(old(writer).stream() + Seq::<u8>::empty() =~= old(writer).stream());
        }
        writer.write(b.as_slice())
    }

    fn serialize_into_unchecked<W: Writer>(&self, writer: &mut W) -> (r: Result<(), Error>) {
        let b = Desse::serialize(self);
        writer.write_unchecked(b.as_slice())
    }

    fn deserialize_from<R: Reader>(reader: &mut R) -> (r: Result<Self, Error>) {
        match reader.read(8) {
            Err(e) => {
                proof {
                    assert(old(reader).remaining() =~= old(reader).remaining().skip(0));
                }
                Err(e)
            },
            Ok(b) => {
                let res = <i64 as Desse>::deserialize_from(b.as_slice());
                match res {
                    Ok(v) => Ok(v),
                    Err(e) => {
                        proof {
                            assert(final(reader).remaining() == old(reader).remaining().skip(
                                8,
                            ));
                        }
                        Err(e)
                    },
                }
            },
        }
    }

    fn deserialize_from_unchecked<R: Reader>(reader: &mut R) -> (r: Result<Self, Error>) {
        let b = match reader.read_unchecked(8) {
            Ok(b) => b,
            Err(e) => {
                proof {
                    assert(false);
                }
                return Err(e);
            },
        };
        let res = <i64 as Desse>::deserialize_from(b.as_slice());
        match res {
            Ok(v) => Ok(v),
            Err(e) => {
                proof {
                    assert(false);
                }
                Err(e)
            },
        }
    }
}

impl DesseDynamic for i128 {
    open spec fn dyn_bytes(&self) -> Seq<u8> {
        self.enc_bytes()
    }

    open spec fn dyn_parse(bytes: Seq<u8>) -> Result<(i128, nat), ErrorKind> {
        if bytes.len() < i128::size_spec() {
            Err(ErrorKind::InvalidSliceLength)
        } else {
            match i128::dec_spec(bytes.take(i128::size_spec() as int)) {
                Ok(v) => Ok((v, i128::size_spec())),
                Err(k) => Err(k),
            }
        }
    }

    proof fn lemma_dyn_round_trip(&self, rest: Seq<u8>) {
        self.lemma_size();
        assert((self.enc_bytes() + rest).take(i128::size_spec() as int) =~= self.enc_bytes());
        self.lemma_round_trip();
    }

    proof fn lemma_dyn_parse_progress(bytes: Seq<u8>) {
    }

    fn serialized_size(&self) -> (r: usize) {
        proof {
            self.lemma_size();
        }
        i128::size()
    }

    fn serialize(&self) -> (r: Result<Vec<u8>, Error>) {
        Ok(Desse::serialize(self))
    }

    fn serialize_into<W: Writer>(&self, writer: &mut W) -> (r: Result<(), Error>) {
        let b = Desse::serialize(self);
        proof {
            assert(self.dyn_bytes().take(0) =~= Seq::<u8>::empty());
            assert(old(writer).stream() + Seq::<u8>::empty() =~= old(writer).stream());
        }
        writer.write(b.as_slice())
    }

    fn serialize_into_unchecked<W: Writer>(&self, writer: &mut W) -> (r: Result<(), Error>) {
        let b = Desse::serialize(self);
        writer.write_unchecked(b.as_slice())
    }

    fn deserialize_from<R: Reader>(reader: &mut R) -> (r: Result<Self, Error>) {
        match reader.read(16) {
            Err(e) => {
                proof {
                    assert(old(reader).remaining() =~= old(reader).remaining().skip(0));
                }
                Err(e)
            },
            Ok(b) => {
                let res = <i128 as Desse>::deserialize_from(b.as_slice());
                match res {
                    Ok(v) => Ok(v),
                    Err(e) => {
                        proof {
                            assert(final(reader).remaining() == old(reader).remaining().skip(
                                16,
                            ));
                        }
                        Err(e)
                    },
                }
            },
        }
    }

    fn deserialize_from_unchecked<R: Reader>(reader: &mut R) -> (r: Result<Self, Error>) {
        let b = match reader.read_unchecked(16) {
            Ok(b) => b,
            Err(e) => {
                proof {
                    assert(false);
                }
                return Err(e);
            },
        };
        let res = <i128 as Desse>::deserialize_from(b.as_slice());
        match res {
            Ok(v) => Ok(v),
            Err(e) => {
                proof {
                    assert(false);
                }
                Err(e)
            },
        }
    }
}

impl DesseDynamic for bool {
    open spec fn dyn_bytes(&self) -> Seq<u8> {
        self.enc_bytes()
    }

    open spec fn dyn_parse(bytes: Seq<u8>) -> Result<(bool, nat), ErrorKind> {
        if bytes.len() < bool::size_spec() {
            Err(ErrorKind::InvalidSliceLength)
        } else {
            match bool::dec_spec(bytes.take(bool::size_spec() as int)) {
                Ok(v) => Ok((v, bool::size_spec())),
                Err(k) => Err(k),
            }
        }
    }

    proof fn lemma_dyn_round_trip(&self, rest: Seq<u8>) {
        self.lemma_size();
        assert((self.enc_bytes() + rest).take(bool::size_spec() as int) =~= self.enc_bytes());
        self.lemma_round_trip();
    }

    proof fn lemma_dyn_parse_progress(bytes: Seq<u8>) {
    }

    fn serialized_size(&self) -> (r: usize) {
        proof {
            self.lemma_size();
        }
        bool::size()
    }

    fn serialize(&self) -> (r: Result<Vec<u8>, Error>) {
        Ok(Desse::serialize(self))
    }

    fn serialize_into<W: Writer>(&self, writer: &mut W) -> (r: Result<(), Error>) {
        let b = Desse::serialize(self);
        proof {
            assert(self.dyn_bytes().take(0) =~= Seq::<u8>::empty());
            assert(old(writer).stream() + Seq::<u8>::empty() =~= old(writer).stream());
        }
        writer.write(b.as_slice())
    }

    fn serialize_into_unchecked<W: Writer>(&self, writer: &mut W) -> (r: Result<(), Error>) {
        let b = Desse::serialize(self);
        writer.write_unchecked(b.as_slice())
    }

    fn deserialize_from<R: Reader>(reader: &mut R) -> (r: Result<Self, Error>) {
        match reader.read(1) {
            Err(e) => {
                proof {
                    assert(old(reader).remaining() =~= old(reader).remaining().skip(0));
                }
                Err(e)
            },
            Ok(b) => {
                let res = <bool as Desse>::deserialize_from(b.as_slice());
                match res {
                    Ok(v) => Ok(v),
                    Err(e) => {
                        proof {
                            assert(final(reader).remaining() == old(reader).remaining().skip(
                                1,
                            ));
                        }
                        Err(e)
                    },
                }
            },
        }
    }

    fn deserialize_from_unchecked<R: Reader>(reader: &mut R) -> (r: Result<Self, Error>) {
        let b = match reader.read_unchecked(1) {
            Ok(b) => b,
            Err(e) => {
                proof {
                    assert(false);
                }
                return Err(e);
            },
        };
        let res = <bool as Desse>::deserialize_from(b.as_slice());
        match res {
            Ok(v) => Ok(v),
            Err(e) => {
                proof {
                    assert(false);
                }
                Err(e)
            },
        }
    }
}

impl DesseDynamic for char {
    open spec fn dyn_bytes(&self) -> Seq<u8> {
        self.enc_bytes()
    }

    open spec fn dyn_parse(bytes: Seq<u8>) -> Result<(char, nat), ErrorKind> {
        if bytes.len() < char::size_spec() {
            Err(ErrorKind::InvalidSliceLength)
        } else {
            match char::dec_spec(bytes.take(char::size_spec() as int)) {
                Ok(v) => Ok((v, char::size_spec())),
                Err(k) => Err(k),
            }
        }
    }

    proof fn lemma_dyn_round_trip(&self, rest: Seq<u8>) {
        self.lemma_size();
        assert((self.enc_bytes() + rest).take(char::size_spec() as int) =~= self.enc_bytes());
        self.lemma_round_trip();
    }

    proof fn lemma_dyn_parse_progress(bytes: Seq<u8>) {
    }

    fn serialized_size(&self) -> (r: usize) {
        proof {
            self.lemma_size();
        }
        char::size()
    }

    fn serialize(&self) -> (r: Result<Vec<u8>, Error>) {
        Ok(Desse::serialize(self))
    }

    fn serialize_into<W: Writer>(&self, writer: &mut W) -> (r: Result<(), Error>) {
        let b = Desse::serialize(self);
        proof {
            assert(self.dyn_bytes().take(0) =~= Seq::<u8>::empty());
            assert(old(writer).stream() + Seq::<u8>::empty() =~= old(writer).stream());
        }
        writer.write(b.as_slice())
    }

    fn serialize_into_unchecked<W: Writer>(&self, writer: &mut W) -> (r: Result<(), Error>) {
        let b = Desse::serialize(self);
        writer.write_unchecked(b.as_slice())
    }

    fn deserialize_from<R: Reader>(reader: &mut R) -> (r: Result<Self, Error>) {
        match reader.read(4) {
            Err(e) => {
                proof {
                    assert(old(reader).remaining() =~= old(reader).remaining().skip(0));
                }
                Err(e)
            },
            Ok(b) => {
                let res = <char as Desse>::deserialize_from(b.as_slice());
                match res {
                    Ok(v) => Ok(v),
                    Err(e) => {
                        proof {
                            assert(final(reader).remaining() == old(reader).remaining().skip(
                                4,
                            ));
                        }
                        Err(e)
                    },
                }
            },
        }
    }

    fn deserialize_from_unchecked<R: Reader>(reader: &mut R) -> (r: Result<Self, Error>) {
        let b = match reader.read_unchecked(4) {
            Ok(b) => b,
            Err(e) => {
                proof {
                    assert(false);
                }
                return Err(e);
            },
        };
        let res = <char as Desse>::deserialize_from(b.as_slice());
        match res {
            Ok(v) => Ok(v),
            Err(e) => {
                proof {
                    assert(false);
                }
                Err(e)
            },
        }
    }
}

/// Relies on String::from_utf8: it succeeds exactly on valid UTF-8 input
/// and returns the string whose byte encoding is exactly that input.
#[verifier::external_body]
fn string_from_utf8(bytes: Vec<u8>) -> (r: Option<String>)
    ensures
        r is Some <==> valid_utf8(bytes@),
        r matches Some(s) ==> encode_utf8(s@) == bytes@,
{
    String::from_utf8(bytes).ok()
}

impl DesseDynamic for String {
    open spec fn dyn_bytes(&self) -> Seq<u8> {
        le_bytes(encode_utf8(self@).len(), 8) + encode_utf8(self@)
    }

    open spec fn dyn_parse(bytes: Seq<u8>) -> Result<(Seq<char>, nat), ErrorKind> {
        if bytes.len() < 8 {
            Err(ErrorKind::InvalidSliceLength)
        } else {
            let n = le_value(bytes.take(8));
            if bytes.len() < 8 + n {
                Err(ErrorKind::InvalidSliceLength)
            } else {
                let content = bytes.subrange(8, (8 + n) as int);
                if valid_utf8(content) {
                    Ok((decode_utf8(content), (8 + n) as nat))
                } else {
                    Err(ErrorKind::InvalidStr)
                }
            }
        }
    }

    proof fn lemma_dyn_round_trip(&self, rest: Seq<u8>) {
        let utf8 = encode_utf8(self@);
        let l = utf8.len();
        reveal_with_fuel(pow256, 17);
        lemma_le_bytes_len(l, 8);
        let s = self.dyn_bytes() + rest;
        assert(s.take(8) =~= le_bytes(l, 8));
        lemma_le_value_le_bytes(l, 8);
        assert(s.subrange(8, (8 + l) as int) =~= utf8);
        vstd::utf8::encode_utf8_valid_utf8(self@);
        vstd::utf8::encode_utf8_decode_utf8(self@);
    }

    proof fn lemma_dyn_parse_progress(bytes: Seq<u8>) {
    }

    fn serialized_size(&self) -> (r: usize) {
        proof {
            lemma_le_bytes_len(encode_utf8(self@).len(), 8);
        }
        let b = self.as_str().as_bytes();
        proof {
            assert(b.len() == b@.len());
        }
        8 + b.len()
    }

    fn serialize(&self) -> (r: Result<Vec<u8>, Error>) {
        let mut out: Vec<u8> = Vec::new();
        proof {
            assert(out@ + self.dyn_bytes() =~= self.dyn_bytes());
        }
        match self.serialize_into_unchecked(&mut out) {
            Ok(()) => Ok(out),
            Err(e) => {
                proof {
                    assert(false);
                }
                Err(e)
            },
        }
    }

    fn serialize_into<W: Writer>(&self, writer: &mut W) -> (r: Result<(), Error>) {
        proof {
            lemma_le_bytes_len(encode_utf8(self@).len(), 8);
        }
        let b = self.as_str().as_bytes();
        proof {
            assert(b.len() == b@.len());
        }
        let l = b.len();
        let prefix = Desse::serialize(&(l as u64));
        match writer.write(prefix.as_slice()) {
            Err(e) => {
                proof {
                    assert(self.dyn_bytes().take(0) =~= Seq::<u8>::empty());
                    assert(old(writer).stream() + Seq::<u8>::empty() =~= old(writer).stream());
                }
                Err(e)
            },
            Ok(()) => {
                match writer.write(b) {
                    Err(e) => {
                        proof {
                            assert(self.dyn_bytes().take(8) =~= prefix@);
                        }
                        Err(e)
                    },
                    Ok(()) => {
                        proof {
                            assert(old(writer).stream() + prefix@ + b@ =~= old(writer).stream()
                                + self.dyn_bytes());
                        }
                        Ok(())
                    },
                }
            },
        }
    }

    fn serialize_into_unchecked<W: Writer>(&self, writer: &mut W) -> (r: Result<(), Error>) {
        proof {
            lemma_le_bytes_len(encode_utf8(self@).len(), 8);
        }
        let b = self.as_str().as_bytes();
        proof {
            assert(b.len() == b@.len());
        }
        let l = b.len();
        let prefix = Desse::serialize(&(l as u64));
        let _r = writer.write_unchecked(prefix.as_slice());
        let _r = writer.write_unchecked(b);
        proof {
            assert(old(writer).stream() + prefix@ + b@ =~= old(writer).stream()
                + self.dyn_bytes());
        }
        Ok(())
    }

    fn deserialize_from<R: Reader>(reader: &mut R) -> (r: Result<Self, Error>) {
        proof {
            old(reader).lemma_remaining_bounded();
            reveal_with_fuel(pow256, 17);
        }
        let ghost before = old(reader).remaining();
        match reader.read(8) {
            Err(e) => {
                proof {
                    assert(before =~= before.skip(0));
                }
                Err(e)
            },
            Ok(b) => {
                let n128 = read_le_bytes(b.as_slice(), 0, 8);
                proof {
                    assert(b@.subrange(0, 8) =~= b@);
                }
                if n128 > usize::MAX as u128 {
                    proof {
                        assert(before.len() < 8 + le_value(before.take(8)));
                        assert(final(reader).remaining() == before.skip(8));
                    }
                    return Err(Error::new(ErrorKind::InvalidSliceLength));
                }
                let n = n128 as usize;
                match reader.read(n) {
                    Err(e) => {
                        proof {
                            assert(final(reader).remaining() == before.skip(8));
                        }
                        Err(e)
                    },
                    Ok(content) => {
                        proof {
                            assert(content@ =~= before.subrange(8, (8 + n) as int));
                            assert(before.skip(8).skip(n as int) =~= before.skip((8 + n) as int));
                        }
                        match string_from_utf8(content) {
                            None => {
                                proof {
                                    assert(final(reader).remaining() == before.skip(
                                        (8 + n) as int,
                                    ));
                                }
                                Err(Error::new(ErrorKind::InvalidStr))
                            },
                            Some(s2) => {
                                proof {
                                    vstd::utf8::encode_utf8_decode_utf8(s2@);
                                }
                                Ok(s2)
                            },
                        }
                    },
                }
            },
        }
    }

    fn deserialize_from_unchecked<R: Reader>(reader: &mut R) -> (r: Result<Self, Error>) {
        proof {
            old(reader).lemma_remaining_bounded();
            reveal_with_fuel(pow256, 17);
        }
        let ghost before = old(reader).remaining();
        let b = match reader.read_unchecked(8) {
            Ok(b) => b,
            Err(e) => {
                proof {
                    assert(false);
                }
                return Err(e);
            },
        };
        let n128 = read_le_bytes(b.as_slice(), 0, 8);
        proof {
            assert(b@.subrange(0, 8) =~= b@);
            assert(le_value(before.take(8)) < pow256(8));
        }
        if n128 > usize::MAX as u128 {
            proof {
                assert(before.len() < 8 + le_value(before.take(8)));
                assert(false);
            }
            return Err(Error::new(ErrorKind::InvalidSliceLength));
        }
        let n = n128 as usize;
        let content = match reader.read_unchecked(n) {
            Ok(c) => c,
            Err(e) => {
                proof {
                    assert(false);
                }
                return Err(e);
            },
        };
        proof {
            assert(content@ =~= before.subrange(8, (8 + n) as int));
            assert(before.skip(8).skip(n as int) =~= before.skip((8 + n) as int));
        }
        match string_from_utf8(content) {
            None => {
                proof {
                    assert(false);
                }
                Err(Error::new(ErrorKind::InvalidStr))
            },
            Some(s2) => {
                proof {
                    vstd::utf8::encode_utf8_decode_utf8(s2@);
                }
                Ok(s2)
            },
        }
    }
}

/// The views of a sequence of elements, elementwise.
pub open spec fn deep_seq<T: DeepView>(es: Seq<T>) -> Seq<<T as DeepView>::V> {
    Seq::new(es.len(), |i: int| es[i].deep_view())
}

/// The concatenated dynamic encodings of a sequence of elements.
pub open spec fn seq_dyn_bytes<T: DesseDynamic>(es: Seq<T>) -> Seq<u8>
    decreases es.len(),
{
    if es.len() == 0 {
        Seq::empty()
    } else {
        es[0].dyn_bytes() + seq_dyn_bytes(es.drop_first())
    }
}

/// How `count` consecutive element encodings parse from a byte stream.
pub open spec fn seq_dyn_parse<T: DesseDynamic>(count: nat, bytes: Seq<u8>) -> Result<
    (Seq<<T as DeepView>::V>, nat),
    ErrorKind,
>
    decreases count,
{
    if count == 0 {
        Ok((Seq::empty(), 0))
    } else {
        match T::dyn_parse(bytes) {
            Err(k) => Err(k),
            Ok((v, n)) => match seq_dyn_parse::<T>((count - 1) as nat, bytes.skip(n as int)) {
                Err(k) => Err(k),
                Ok((rest, m)) => Ok((seq![v] + rest, (n + m) as nat)),
            },
        }
    }
}

/// A successful element-sequence parse consumes at most the input and
/// yields one view per element.
pub proof fn lemma_seq_dyn_parse_bound<T: DesseDynamic>(count: nat, bytes: Seq<u8>)
    ensures
        seq_dyn_parse::<T>(count, bytes) matches Ok((vs2, m)) ==> m <= bytes.len() && vs2.len()
            == count,
    decreases count,
{
    if count > 0 {
        T::lemma_dyn_parse_progress(bytes);
        match T::dyn_parse(bytes) {
            Ok((v, n)) => {
                lemma_seq_dyn_parse_bound::<T>((count - 1) as nat, bytes.skip(n as int));
            },
            Err(_) => {},
        }
    }
}

pub proof fn lemma_seq_dyn_bytes_snoc<T: DesseDynamic>(es: Seq<T>, i: int)
    requires
        0 <= i < es.len(),
    ensures
        seq_dyn_bytes(es.take(i + 1)) == seq_dyn_bytes(es.take(i)) + es[i].dyn_bytes(),
    decreases i,
{
    if i == 0 {
        let s = es.take(1);
        assert(s[0] == es[0]);
        assert(s.drop_first() =~= Seq::<T>::empty());
        assert(es.take(0) =~= Seq::<T>::empty());
        assert(seq_dyn_bytes(Seq::<T>::empty()) =~= Seq::<u8>::empty());
        assert(seq_dyn_bytes(es.take(1)) =~= seq_dyn_bytes(es.take(0)) + es[0].dyn_bytes());
    } else {
        lemma_seq_dyn_bytes_snoc(es.drop_first(), i - 1);
        let a = es.take(i + 1);
        let b = es.take(i);
        assert(a[0] == es[0]);
        assert(b[0] == es[0]);
        assert(a.drop_first() =~= es.drop_first().take(i));
        assert(b.drop_first() =~= es.drop_first().take(i - 1));
        assert(es.drop_first().take((i - 1) + 1) =~= es.drop_first().take(i));
        assert(es.drop_first()[i - 1] == es[i]);
        assert(es[0].dyn_bytes() + (seq_dyn_bytes(es.drop_first().take(i - 1))
            + es[i].dyn_bytes()) =~= (es[0].dyn_bytes() + seq_dyn_bytes(
            es.drop_first().take(i - 1),
        )) + es[i].dyn_bytes());
    }
}

pub proof fn lemma_seq_dyn_bytes_split<T: DesseDynamic>(es: Seq<T>, i: int)
    requires
        0 <= i <= es.len(),
    ensures
        seq_dyn_bytes(es) == seq_dyn_bytes(es.take(i)) + seq_dyn_bytes(es.skip(i)),
    decreases i,
{
    if i == 0 {
        assert(es.take(0) =~= Seq::<T>::empty());
        assert(es.skip(0) =~= es);
        assert(seq_dyn_bytes(es.take(0)) + seq_dyn_bytes(es) =~= seq_dyn_bytes(es));
    } else {
        lemma_seq_dyn_bytes_split(es, i - 1);
        lemma_seq_dyn_bytes_snoc(es, i - 1);
        let s = es.skip(i - 1);
        assert(s[0] == es[i - 1]);
        assert(s.drop_first() =~= es.skip(i));
        assert(seq_dyn_bytes(es.skip(i - 1)) == es[i - 1].dyn_bytes() + seq_dyn_bytes(
            es.skip(i),
        ));
        assert(seq_dyn_bytes(es.take(i - 1)) + (es[i - 1].dyn_bytes() + seq_dyn_bytes(
            es.skip(i),
        )) =~= (seq_dyn_bytes(es.take(i - 1)) + es[i - 1].dyn_bytes()) + seq_dyn_bytes(
            es.skip(i),
        ));
    }
}

pub proof fn lemma_seq_dyn_bytes_ge_index<T: DesseDynamic>(es: Seq<T>, i: int)
    requires
        0 <= i < es.len(),
    ensures
        es[i].dyn_bytes().len() <= seq_dyn_bytes(es).len(),
{
    lemma_seq_dyn_bytes_split(es, i);
    let s = es.skip(i);
    assert(s[0] == es[i]);
    assert(seq_dyn_bytes(s) == es[i].dyn_bytes() + seq_dyn_bytes(s.drop_first()));
}

/// Round trip for element sequences: the concatenated encodings, followed
/// by anything, parse back to the elements' views.
pub proof fn lemma_seq_dyn_round_trip<T: DesseDynamic>(es: Seq<T>, rest: Seq<u8>)
    requires
        seq_dyn_bytes(es).len() <= usize::MAX,
    ensures
        seq_dyn_parse::<T>(es.len(), seq_dyn_bytes(es) + rest) == Ok::<
            (Seq<<T as DeepView>::V>, nat),
            ErrorKind,
        >((deep_seq(es), seq_dyn_bytes(es).len())),
    decreases es.len(),
{
    if es.len() == 0 {
        assert(deep_seq(es) =~= Seq::<<T as DeepView>::V>::empty());
    } else {
        let head = es[0].dyn_bytes();
        let tail = seq_dyn_bytes(es.drop_first());
        assert(seq_dyn_bytes(es) == head + tail);
        assert((head + tail) + rest =~= head + (tail + rest));
        es[0].lemma_dyn_round_trip(tail + rest);
        assert((head + (tail + rest)).skip(head.len() as int) =~= tail + rest);
        lemma_seq_dyn_round_trip(es.drop_first(), rest);
        assert(es.drop_first().len() == (es.len() - 1) as nat);
        assert(seq![es[0].deep_view()] + deep_seq(es.drop_first()) =~= deep_seq(es));
    }
}

impl<T: DesseDynamic> DesseDynamic for Vec<T> {
    open spec fn dyn_bytes(&self) -> Seq<u8> {
        le_bytes(self@.len(), 8) + seq_dyn_bytes(self@)
    }

    open spec fn dyn_parse(bytes: Seq<u8>) -> Result<(Seq<<T as DeepView>::V>, nat), ErrorKind> {
        if bytes.len() < 8 {
            Err(ErrorKind::InvalidSliceLength)
        } else {
            let cnt = le_value(bytes.take(8));
            match seq_dyn_parse::<T>(cnt, bytes.skip(8)) {
                Err(k) => Err(k),
                Ok((vs2, m)) => Ok((vs2, (8 + m) as nat)),
            }
        }
    }

    proof fn lemma_dyn_round_trip(&self, rest: Seq<u8>) {
        let cnt = self@.len();
        assert(self.len() == self@.len());
        reveal_with_fuel(pow256, 17);
        lemma_le_bytes_len(cnt, 8);
        let s = self.dyn_bytes() + rest;
        assert(s.take(8) =~= le_bytes(cnt, 8));
        lemma_le_value_le_bytes(cnt, 8);
        assert(s.skip(8) =~= seq_dyn_bytes(self@) + rest);
        lemma_seq_dyn_round_trip(self@, rest);
        assert(deep_seq(self@) =~= self.deep_view());
    }

    proof fn lemma_dyn_parse_progress(bytes: Seq<u8>) {
        if bytes.len() >= 8 {
            let cnt = le_value(bytes.take(8));
            lemma_seq_dyn_parse_bound::<T>(cnt, bytes.skip(8));
        }
    }

    fn serialized_size(&self) -> (r: usize) {
        proof {
            lemma_le_bytes_len(self@.len(), 8);
        }
        let n = self.len();
        let mut total: usize = 8;
        let mut i: usize = 0;
        proof {
            assert(seq_dyn_bytes(self@.take(0)) =~= Seq::<u8>::empty()) by {
                assert(self@.take(0) =~= Seq::<T>::empty());
            }
        }
        while i < n
            invariant
                i <= n,
                n == self@.len(),
                self.dyn_bytes().len() <= usize::MAX,
                self.dyn_bytes().len() == 8 + seq_dyn_bytes(self@).len(),
                total == 8 + seq_dyn_bytes(self@.take(i as int)).len(),
            decreases n - i,
        {
            proof {
                lemma_seq_dyn_bytes_ge_index(self@, i as int);
                lemma_seq_dyn_bytes_snoc(self@, i as int);
                lemma_seq_dyn_bytes_split(self@, i as int + 1);
            }
            let s = self[i].serialized_size();
            total = total + s;
            i = i + 1;
        }
        proof {
            assert(self@.take(n as int) =~= self@);
        }
        total
    }

    fn serialize(&self) -> (r: Result<Vec<u8>, Error>) {
        let mut out: Vec<u8> = Vec::new();
        proof {
            assert(out@ + self.dyn_bytes() =~= self.dyn_bytes());
        }
        match self.serialize_into_unchecked(&mut out) {
            Ok(()) => Ok(out),
            Err(e) => {
                proof {
                    assert(false);
                }
                Err(e)
            },
        }
    }

    fn serialize_into<W: Writer>(&self, writer: &mut W) -> (r: Result<(), Error>) {
        proof {
            lemma_le_bytes_len(self@.len(), 8);
            assert(self.len() == self@.len());
        }
        let n = self.len();
        let prefix = Desse::serialize(&(n as u64));
        let ghost dynb = self.dyn_bytes();
        match writer.write(prefix.as_slice()) {
            Err(e) => {
                proof {
                    assert(dynb.take(0) =~= Seq::<u8>::empty());
                    assert(old(writer).stream() + Seq::<u8>::empty() =~= old(writer).stream());
                }
                return Err(e);
            },
            Ok(()) => {},
        }
        let mut i: usize = 0;
        proof {
            assert(seq_dyn_bytes(self@.take(0)) =~= Seq::<u8>::empty()) by {
                assert(self@.take(0) =~= Seq::<T>::empty());
            }
            assert(dynb.take(8) =~= prefix@);
        }
        while i < n
            invariant
                i <= n,
                n == self@.len(),
                dynb == self.dyn_bytes(),
                dynb == le_bytes(self@.len(), 8) + seq_dyn_bytes(self@),
                dynb.len() == 8 + seq_dyn_bytes(self@).len(),
                writer.stream() == old(writer).stream() + dynb.take(
                    8 + seq_dyn_bytes(self@.take(i as int)).len() as int,
                ),
                writer.space() == old(writer).space() - (8 + seq_dyn_bytes(
                    self@.take(i as int),
                ).len()),
                8 + seq_dyn_bytes(self@.take(i as int)).len() <= old(writer).space(),
                8 + seq_dyn_bytes(self@.take(i as int)).len() <= dynb.len(),
            decreases n - i,
        {
            let ghost done = (8 + seq_dyn_bytes(self@.take(i as int)).len()) as int;
            proof {
                lemma_seq_dyn_bytes_snoc(self@, i as int);
                lemma_seq_dyn_bytes_split(self@, i as int);
                lemma_seq_dyn_bytes_split(self@, i as int + 1);
                assert(dynb.take(done) =~= le_bytes(self@.len(), 8) + seq_dyn_bytes(
                    self@.take(i as int),
                ));
            }
            match self[i].serialize_into(writer) {
                Err(e) => {
                    proof {
                        let elemb = self@[i as int].dyn_bytes();
                        assert(dynb.take(done + elemb.len()) =~= le_bytes(self@.len(), 8)
                            + seq_dyn_bytes(self@.take(i as int + 1)));
                        let k0 = choose|k: int|
                            0 <= k <= elemb.len() && writer.stream() == old(writer).stream()
                                + dynb.take(done) + elemb.take(k);
                        assert(dynb.take(done) + elemb.take(k0) =~= dynb.take(done + k0));
                    }
                    return Err(e);
                },
                Ok(()) => {
                    proof {
                        let elemb = self@[i as int].dyn_bytes();
                        assert(dynb.take(done + elemb.len()) =~= le_bytes(self@.len(), 8)
                            + seq_dyn_bytes(self@.take(i as int + 1)));
                        assert(dynb.take(done) + elemb =~= dynb.take(done + elemb.len()));
                    }
                },
            }
            i = i + 1;
        }
        proof {
            assert(self@.take(n as int) =~= self@);
            assert(dynb.take(dynb.len() as int) =~= dynb);
        }
        Ok(())
    }

    fn serialize_into_unchecked<W: Writer>(&self, writer: &mut W) -> (r: Result<(), Error>) {
        proof {
            lemma_le_bytes_len(self@.len(), 8);
            assert(self.len() == self@.len());
        }
        let n = self.len();
        let prefix = Desse::serialize(&(n as u64));
        let ghost dynb = self.dyn_bytes();
        let _r = writer.write_unchecked(prefix.as_slice());
        let mut i: usize = 0;
        proof {
            assert(seq_dyn_bytes(self@.take(0)) =~= Seq::<u8>::empty()) by {
                assert(self@.take(0) =~= Seq::<T>::empty());
            }
            assert(dynb.take(8) =~= prefix@);
        }
        while i < n
            invariant
                i <= n,
                n == self@.len(),
                dynb == self.dyn_bytes(),
                dynb == le_bytes(self@.len(), 8) + seq_dyn_bytes(self@),
                dynb.len() == 8 + seq_dyn_bytes(self@).len(),
                dynb.len() <= old(writer).space(),
                writer.stream() == old(writer).stream() + dynb.take(
                    8 + seq_dyn_bytes(self@.take(i as int)).len() as int,
                ),
                writer.space() == old(writer).space() - (8 + seq_dyn_bytes(
                    self@.take(i as int),
                ).len()),
                8 + seq_dyn_bytes(self@.take(i as int)).len() <= dynb.len(),
            decreases n - i,
        {
            let ghost done = (8 + seq_dyn_bytes(self@.take(i as int)).len()) as int;
            proof {
                lemma_seq_dyn_bytes_snoc(self@, i as int);
                lemma_seq_dyn_bytes_split(self@, i as int);
                lemma_seq_dyn_bytes_split(self@, i as int + 1);
                assert(dynb.take(done) =~= le_bytes(self@.len(), 8) + seq_dyn_bytes(
                    self@.take(i as int),
                ));
            }
            let _r = self[i].serialize_into_unchecked(writer);
            proof {
                let elemb = self@[i as int].dyn_bytes();
                assert(dynb.take(done + elemb.len()) =~= le_bytes(self@.len(), 8)
                    + seq_dyn_bytes(self@.take(i as int + 1)));
                assert(dynb.take(done) + elemb =~= dynb.take(done + elemb.len()));
            }
            i = i + 1;
        }
        proof {
            assert(self@.take(n as int) =~= self@);
            assert(dynb.take(dynb.len() as int) =~= dynb);
        }
        Ok(())
    }

    fn deserialize_from<R: Reader>(reader: &mut R) -> (r: Result<Self, Error>) {
        proof {
            reveal_with_fuel(pow256, 17);
        }
        let ghost before = old(reader).remaining();
        let b = match reader.read(8) {
            Ok(b) => b,
            Err(e) => {
                proof {
                    assert(before =~= before.skip(0));
                }
                return Err(e);
            },
        };
        let cnt128 = read_le_bytes(b.as_slice(), 0, 8);
        proof {
            assert(b@.subrange(0, 8) =~= b@);
        }
        let cnt: u64 = cnt128 as u64;
        let ghost cntn = le_value(before.take(8));
        let mut out: Vec<T> = Vec::new();
        let ghost mut done: nat = 0nat;
        let mut i: u64 = 0;
        proof {
            assert(before.skip(8).skip(0) =~= before.skip(8));
            assert(deep_seq(out@) =~= Seq::<<T as DeepView>::V>::empty());
        }
        while i < cnt
            invariant
                i <= cnt,
                cnt == cntn,
                before == old(reader).remaining(),
                cntn == le_value(before.take(8)),
                out@.len() == i,
                reader.remaining() == before.skip(8).skip(done as int),
                8 + done <= before.len(),
                (match seq_dyn_parse::<T>((cnt - i) as nat, reader.remaining()) {
                    Ok((vs2, m)) => seq_dyn_parse::<T>(cntn, before.skip(8)) == Ok::<
                        (Seq<<T as DeepView>::V>, nat),
                        ErrorKind,
                    >((deep_seq(out@) + vs2, (done + m) as nat)),
                    Err(k) => seq_dyn_parse::<T>(cntn, before.skip(8)) == Err::<
                        (Seq<<T as DeepView>::V>, nat),
                        ErrorKind,
                    >(k),
                }),
            decreases cnt - i,
        {
            let ghost prev = reader.remaining();
            let v = match T::deserialize_from(reader) {
                Ok(v) => v,
                Err(e) => {
                    proof {
                        assert(seq_dyn_parse::<T>((cnt - i) as nat, prev) is Err);
                        let kk = choose|k2: int|
                            0 <= k2 <= prev.len() && reader.remaining() == prev.skip(k2);
                        vstd::seq_lib::lemma_seq_skip_of_skip(before, 8, done as int);
                        vstd::seq_lib::lemma_seq_skip_of_skip(before, (8 + done) as int, kk);
                        assert(prev =~= before.skip((8 + done) as int));
                        assert(reader.remaining() == before.skip(8 + done + kk));
                    }
                    return Err(e);
                },
            };
            let ghost n_elem = T::dyn_parse(prev)->Ok_0.1;
            let ghost old_out = out@;
            out.push(v);
            i = i + 1;
            proof {
                T::lemma_dyn_parse_progress(prev);
                done = done + n_elem;
                assert(out@ == old_out.push(v));
                assert(deep_seq(out@) =~= deep_seq(old_out).push(v.deep_view()));
                assert(before.skip(8).skip((done - n_elem) as int).skip(n_elem as int)
                    =~= before.skip(8).skip(done as int));
                match seq_dyn_parse::<T>((cnt - i) as nat, reader.remaining()) {
                    Ok((vs2, m)) => {
                        assert(seq_dyn_parse::<T>((cnt - (i - 1)) as nat, prev) == Ok::<
                            (Seq<<T as DeepView>::V>, nat),
                            ErrorKind,
                        >((seq![v.deep_view()] + vs2, (n_elem + m) as nat)));
                        assert(deep_seq(old_out) + (seq![v.deep_view()] + vs2) =~= deep_seq(
                            out@,
                        ) + vs2);
                    },
                    Err(k) => {
                        assert(seq_dyn_parse::<T>((cnt - (i - 1)) as nat, prev) == Err::<
                            (Seq<<T as DeepView>::V>, nat),
                            ErrorKind,
                        >(k));
                    },
                }
            }
        }
        proof {
            assert(seq_dyn_parse::<T>(0, reader.remaining()) == Ok::<
                (Seq<<T as DeepView>::V>, nat),
                ErrorKind,
            >((Seq::<<T as DeepView>::V>::empty(), 0nat)));
            assert(deep_seq(out@) + Seq::<<T as DeepView>::V>::empty() =~= deep_seq(out@));
            assert(out.deep_view() =~= deep_seq(out@));
            assert(before.skip(8).skip(done as int) =~= before.skip((8 + done) as int));
        }
        Ok(out)
    }

    fn deserialize_from_unchecked<R: Reader>(reader: &mut R) -> (r: Result<Self, Error>) {
        proof {
            reveal_with_fuel(pow256, 17);
        }
        let ghost before = old(reader).remaining();
        let b = match reader.read_unchecked(8) {
            Ok(b) => b,
            Err(e) => {
                proof {
                    assert(false);
                }
                return Err(e);
            },
        };
        let cnt128 = read_le_bytes(b.as_slice(), 0, 8);
        proof {
            assert(b@.subrange(0, 8) =~= b@);
        }
        let cnt: u64 = cnt128 as u64;
        let ghost cntn = le_value(before.take(8));
        let mut out: Vec<T> = Vec::new();
        let ghost mut done: nat = 0nat;
        let mut i: u64 = 0;
        proof {
            assert(before.skip(8).skip(0) =~= before.skip(8));
            assert(deep_seq(out@) =~= Seq::<<T as DeepView>::V>::empty());
        }
        while i < cnt
            invariant
                i <= cnt,
                cnt == cntn,
                before == old(reader).remaining(),
                cntn == le_value(before.take(8)),
                out@.len() == i,
                reader.remaining() == before.skip(8).skip(done as int),
                8 + done <= before.len(),
                seq_dyn_parse::<T>((cnt - i) as nat, reader.remaining()) is Ok,
                (match seq_dyn_parse::<T>((cnt - i) as nat, reader.remaining()) {
                    Ok((vs2, m)) => seq_dyn_parse::<T>(cntn, before.skip(8)) == Ok::<
                        (Seq<<T as DeepView>::V>, nat),
                        ErrorKind,
                    >((deep_seq(out@) + vs2, (done + m) as nat)),
                    Err(k) => false,
                }),
            decreases cnt - i,
        {
            let ghost prev = reader.remaining();
            let v = match T::deserialize_from_unchecked(reader) {
                Ok(v) => v,
                Err(e) => {
                    proof {
                        assert(false);
                    }
                    return Err(e);
                },
            };
            let ghost n_elem = T::dyn_parse(prev)->Ok_0.1;
            let ghost old_out = out@;
            out.push(v);
            i = i + 1;
            proof {
                T::lemma_dyn_parse_progress(prev);
                done = done + n_elem;
                assert(out@ == old_out.push(v));
                assert(deep_seq(out@) =~= deep_seq(old_out).push(v.deep_view()));
                assert(before.skip(8).skip((done - n_elem) as int).skip(n_elem as int)
                    =~= before.skip(8).skip(done as int));
                match seq_dyn_parse::<T>((cnt - i) as nat, reader.remaining()) {
                    Ok((vs2, m)) => {
                        assert(seq_dyn_parse::<T>((cnt - (i - 1)) as nat, prev) == Ok::<
                            (Seq<<T as DeepView>::V>, nat),
                            ErrorKind,
                        >((seq![v.deep_view()] + vs2, (n_elem + m) as nat)));
                        assert(deep_seq(old_out) + (seq![v.deep_view()] + vs2) =~= deep_seq(
                            out@,
                        ) + vs2);
                    },
                    Err(k) => {
                        assert(seq_dyn_parse::<T>((cnt - (i - 1)) as nat, prev) == Err::<
                            (Seq<<T as DeepView>::V>, nat),
                            ErrorKind,
                        >(k));
                    },
                }
            }
        }
        proof {
            assert(seq_dyn_parse::<T>(0, reader.remaining()) == Ok::<
                (Seq<<T as DeepView>::V>, nat),
                ErrorKind,
            >((Seq::<<T as DeepView>::V>::empty(), 0nat)));
            assert(deep_seq(out@) + Seq::<<T as DeepView>::V>::empty() =~= deep_seq(out@));
            assert(out.deep_view() =~= deep_seq(out@));
            assert(before.skip(8).skip(done as int) =~= before.skip((8 + done) as int));
        }
        Ok(out)
    }
}

} // verus!
