//! The writing end of the dynamic path: growable and fixed-size sinks.

use vstd::prelude::*;

use crate::error::{Error, ErrorKind};

verus! {

/// A sink of bytes. `write` is the checked tier: it reports
/// `InvalidSliceLength` when the sink cannot take `buf` whole, and writes
/// nothing in that case. `write_unchecked` is the unchecked tier: its caller
/// must have established that the sink has room.
pub trait Writer: crate::private::Sealed + Sized {
    /// The bytes written so far.
    spec fn stream(&self) -> Seq<u8>;

    /// How many more bytes the sink can take.
    spec fn space(&self) -> nat;

    /// Appends `buf` whole, or fails without writing when there is no room.
    fn write(&mut self, buf: &[u8]) -> (r: Result<(), Error>)
        ensures
            r is Ok <==> buf@.len() <= old(self).space(),
            r is Ok ==> final(self).stream() == old(self).stream() + buf@ && final(self).space()
                == old(self).space() - buf@.len(),
            r is Err ==> *final(self) == *old(self) && (r matches Err(e) && e.kind
                == ErrorKind::InvalidSliceLength),
    ;

    /// Appends `buf` whole; the caller has checked that there is room.
    fn write_unchecked(&mut self, buf: &[u8]) -> (r: Result<(), Error>)
        requires
            buf@.len() <= old(self).space(),
        ensures
            r is Ok,
            final(self).stream() == old(self).stream() + buf@,
            final(self).space() == old(self).space() - buf@.len(),
    ;
}

impl Writer for Vec<u8> {
    open spec fn stream(&self) -> Seq<u8> {
        self@
    }

    open spec fn space(&self) -> nat {
        (usize::MAX - self@.len()) as nat
    }

    fn write(&mut self, buf: &[u8]) -> (r: Result<(), Error>) {
        if buf.len() <= usize::MAX - self.len() {
            self.write_unchecked(buf)
        } else {
            Err(Error::new(ErrorKind::InvalidSliceLength))
        }
    }

    fn write_unchecked(&mut self, buf: &[u8]) -> (r: Result<(), Error>) {
        proof {
            assert(self.len() == self@.len());
        }
        self.extend_from_slice(buf);
        Ok(())
    }
}

/// A fixed-size sink: bytes are written over the front of a caller-supplied
/// buffer, which keeps its length. Writing past the end of the buffer is the
/// failure that the checked tier reports.
pub struct SliceWriter {
    buf: Vec<u8>,
    pos: usize,
}

impl SliceWriter {
    /// The whole underlying buffer.
    pub closed spec fn buffer(self) -> Seq<u8> {
        self.buf@
    }

    /// How many bytes have been written.
    pub closed spec fn written(self) -> nat {
        if self.pos <= self.buf@.len() {
            self.pos as nat
        } else {
            self.buf@.len()
        }
    }

    /// Starts writing at the front of `buf`.
    pub fn new(buf: Vec<u8>) -> (r: SliceWriter)
        ensures
            r.buffer() == buf@,
            r.written() == 0,
    {
        SliceWriter { buf, pos: 0 }
    }

    /// Hands the buffer back; the first `written()` bytes are the stream.
    pub fn into_inner(self) -> (r: Vec<u8>)
        ensures
            r@ == self.buffer(),
    {
        self.buf
    }
}

impl Writer for SliceWriter {
    open spec fn stream(&self) -> Seq<u8> {
        self.buffer().take(self.written() as int)
    }

    open spec fn space(&self) -> nat {
        (self.buffer().len() - self.written()) as nat
    }

    fn write(&mut self, buf: &[u8]) -> (r: Result<(), Error>) {
        let sp = if self.pos <= self.buf.len() {
            self.buf.len() - self.pos
        } else {
            0
        };
        if buf.len() <= sp {
            self.write_unchecked(buf)
        } else {
            Err(Error::new(ErrorKind::InvalidSliceLength))
        }
    }

    fn write_unchecked(&mut self, buf: &[u8]) -> (r: Result<(), Error>) {
        let n = buf.len();
        let cap = self.buf.len();
        if n == 0 {
            proof {
                assert(self.stream() + buf@ =~= self.stream());
            }
            return Ok(());
        }
        proof {
            assert(self.pos <= self.buf@.len());
        }
        let mut j: usize = 0;
        while j < n
            invariant
                j <= n,
                n == buf@.len(),
                self.pos == old(self).pos + j,
                self.pos <= self.buf@.len(),
                self.buf@.len() == cap,
                self.buf@.len() == old(self).buf@.len(),
                n <= old(self).buf@.len() - old(self).pos,
                self.buf@ == old(self).buf@.take(old(self).pos as int) + buf@.take(j as int)
                    + old(self).buf@.skip(self.pos as int),
            decreases n - j,
        {
            proof {
                assert(self.buf@.take(old(self).pos as int) + buf@.take(j as int + 1) + old(
                    self,
                ).buf@.skip((self.pos + 1) as int) =~= (self.buf@.take(old(self).pos as int)
                    + buf@.take(j as int) + old(self).buf@.skip(self.pos as int)).update(
                    self.pos as int,
                    buf@[j as int],
                ));
            }
            let b = buf[j];
            let i = self.pos;
            self.buf.set(i, b);
            self.pos = i + 1;
            j = j + 1;
        }
        proof {
            assert(self.buf@.take(self.pos as int) =~= old(self).buf@.take(old(self).pos as int)
                + buf@) by {
                assert(buf@.take(n as int) =~= buf@);
            }
        }
        Ok(())
    }
}

} // verus!
