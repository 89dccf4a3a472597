//! Seals the reader and writer traits to the byte sources and sinks that
//! this crate provides.

use vstd::prelude::*;

verus! {

/// Implemented only inside this crate: keeps [`crate::Reader`] and
/// [`crate::Writer`] closed to outside implementations.
pub trait Sealed {

}

impl<'a> Sealed for &'a [u8] {

}

impl Sealed for Vec<u8> {

}

impl Sealed for crate::writer::SliceWriter {

}

} // verus!
