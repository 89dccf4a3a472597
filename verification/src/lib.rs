//! Binary serialization and deserialization for values whose encoded size is
//! known up front, together with a length-prefixed extension for values whose
//! size is only known at run time.
//!
//! The wire format is minimal: scalars are written little-endian with no
//! padding, records are the concatenation of their fields' encodings in
//! declared order, and tagged unions are a little-endian discriminant followed
//! by the chosen variant's payload. Every encoder states exactly which bytes
//! it produces and every decoder states exactly which value (or error) it
//! returns, so the round-trip and size laws are proved rather than tested.

use vstd::prelude::*;

pub mod bytes;
pub mod codec;
pub mod desse;
pub mod desse_dynamic;
pub mod error;
mod private;
pub mod reader;
pub mod schema;
pub mod writer;

pub use crate::codec::{decode, encode, encode_into, matches_desc, try_encode, Value, ValueView};
pub use crate::desse::{Desse, DesseSized};
pub use crate::desse_dynamic::DesseDynamic;
pub use crate::error::{Error, ErrorKind};
pub use crate::reader::Reader;
pub use crate::schema::{discriminant_width, size, validate, TypeDesc, Variant};
pub use crate::writer::{SliceWriter, Writer};

verus! {

/// Compares and returns the maximum of two values.
pub fn max(x: usize, y: usize) -> (r: usize)
    ensures
        r == if x < y {
            y
        } else {
            x
        },
        r >= x,
        r >= y,
{
    if x < y {
        y
    } else {
        x
    }
}

} // verus!
