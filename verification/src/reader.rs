//! The reading end of the dynamic path: a cursor over bytes.

use vstd::prelude::*;

use crate::error::{Error, ErrorKind};

verus! {

/// A source of bytes with an advancing cursor. `read` is the checked tier:
/// it reports `InvalidSliceLength` when fewer than `len` bytes remain, and
/// never reads out of bounds. `read_unchecked` is the unchecked tier: its
/// caller must have established that enough bytes remain.
pub trait Reader: crate::private::Sealed + Sized {
    /// The bytes not yet consumed.
    spec fn remaining(&self) -> Seq<u8>;

    /// A reader holds at most `usize::MAX` bytes.
    proof fn lemma_remaining_bounded(&self)
        ensures
            self.remaining().len() <= usize::MAX,
    ;

    /// Reads the next `len` bytes, or fails without consuming anything when
    /// fewer than `len` remain.
    fn read(&mut self, len: usize) -> (r: Result<Vec<u8>, Error>)
        ensures
            r is Ok <==> len <= old(self).remaining().len(),
            r matches Ok(b) ==> b@ == old(self).remaining().take(len as int)
                && final(self).remaining() == old(self).remaining().skip(len as int),
            r is Err ==> *final(self) == *old(self) && (r matches Err(e) && e.kind
                == ErrorKind::InvalidSliceLength),
    ;

    /// Reads the next `len` bytes; the caller has checked that they remain.
    fn read_unchecked(&mut self, len: usize) -> (r: Result<Vec<u8>, Error>)
        requires
            len <= old(self).remaining().len(),
        ensures
            r matches Ok(b) && b@ == old(self).remaining().take(len as int)
                && final(self).remaining() == old(self).remaining().skip(len as int),
    ;
}

impl<'a> Reader for &'a [u8] {
    open spec fn remaining(&self) -> Seq<u8> {
        self@
    }

    proof fn lemma_remaining_bounded(&self) {
        assert(self.len() == self@.len());
    }

    fn read(&mut self, len: usize) -> (r: Result<Vec<u8>, Error>) {
        if self.len() < len {
            Err(Error::new(ErrorKind::InvalidSliceLength))
        } else {
            self.read_unchecked(len)
        }
    }

    fn read_unchecked(&mut self, len: usize) -> (r: Result<Vec<u8>, Error>) {
        let head = vstd::slice::slice_subrange(*self, 0, len);
        let out = vstd::slice::slice_to_vec(head);
        *self = vstd::slice::slice_subrange(*self, len, self.len());
        proof {
            assert(out@ =~= old(self).remaining().take(len as int));
        }
        Ok(out)
    }
}

} // verus!
