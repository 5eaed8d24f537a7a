//! Wrapper type that provides a fake seek implementation.
use crate::no_std_io::{Cursor, ErrorKind, SeekFrom, written_at};
use vstd::prelude::*;

verus! {

/// A wrapper that provides a limited implementation of seeking for
/// unseekable streams.
///
/// This is useful when reading or writing from unseekable streams where deku
/// does not *actually* need to seek to successfully parse or write the data.
pub struct NoSeek<T> {
    /// The wrapped stream.
    inner: T,
    /// The virtual position of the seekable stream.
    pos: u64,
}

impl<T> NoSeek<T> {
    /// The wrapped stream.
    pub closed spec fn inner(&self) -> T {
        self.inner
    }

    /// The number of bytes that went through the wrapper.
    pub closed spec fn pos(&self) -> u64 {
        self.pos
    }

    /// Creates a new seekable wrapper for the given value.
    pub fn new(inner: T) -> (r: Self)
        ensures
            r.inner() == inner,
            r.pos() == 0,
    {
        NoSeek { inner, pos: 0 }
    }

    /// Gets a mutable reference to the underlying value.
    pub fn get_mut(&mut self) -> (r: &mut T)
        ensures
            *r == old(self).inner(),
            final(self).inner() == *final(r),
            final(self).pos() == old(self).pos(),
    {
        &mut self.inner
    }

    /// Gets a reference to the underlying value.
    pub fn get_ref(&self) -> (r: &T)
        ensures
            *r == self.inner(),
    {
        &self.inner
    }

    /// Consumes this wrapper, returning the underlying value.
    pub fn into_inner(self) -> (r: T)
        ensures
            r == self.inner(),
    {
        self.inner
    }

    /// Seek only where the stream already is: to its position from the start,
    /// or by nothing from it. Anything else fails with `Other`.
    pub fn seek(&mut self, pos: SeekFrom) -> (r: Result<u64, ErrorKind>)
        ensures
            *final(self) == *old(self),
            r == match pos {
                SeekFrom::Start(n) => if n == old(self).pos() {
                    Ok::<u64, ErrorKind>(n)
                } else {
                    Err(ErrorKind::Other)
                },
                SeekFrom::Current(d) => if d == 0 {
                    Ok::<u64, ErrorKind>(old(self).pos())
                } else {
                    Err(ErrorKind::Other)
                },
                SeekFrom::End(_) => Err(ErrorKind::Other),
            },
    {
        match pos {
            SeekFrom::Start(n) => {
                if self.pos == n {
                    Ok(n)
                } else {
                    Err(ErrorKind::Other)
                }
            },
            SeekFrom::Current(d) => {
                if d == 0 {
                    Ok(self.pos)
                } else {
                    Err(ErrorKind::Other)
                }
            },
            SeekFrom::End(_) => Err(ErrorKind::Other),
        }
    }

    /// The virtual position.
    pub fn stream_position(&mut self) -> (r: Result<u64, ErrorKind>)
        ensures
            *final(self) == *old(self),
            r == Ok::<u64, ErrorKind>(old(self).pos()),
    {
        Ok(self.pos)
    }
}

impl NoSeek<Cursor> {
    /// Fill `buf` from the stream, counting the bytes read.
    pub fn read_exact(&mut self, buf: &mut [u8]) -> (r: Result<(), ErrorKind>)
        requires
            old(self).pos() + old(buf)@.len() <= u64::MAX,
        ensures
            final(self).inner().data() == old(self).inner().data(),
            r is Ok <==> old(buf)@.len() <= old(self).inner().unread().len(),
            r is Ok ==> {
                &&& final(self).inner().pos() == old(self).inner().pos() + old(buf)@.len()
                &&& final(buf)@ == old(self).inner().unread().take(old(buf)@.len() as int)
                &&& final(self).pos() == old(self).pos() + old(buf)@.len()
            },
            r is Err ==> {
                &&& r == Err::<(), ErrorKind>(ErrorKind::UnexpectedEof)
                &&& final(self).inner().pos() == old(self).inner().data().len()
                &&& final(buf)@ == old(buf)@
                &&& final(self).pos() == old(self).pos()
            },
    {
        match self.inner.read_exact(buf) {
            Ok(()) => {},
            Err(e) => {
                return Err(e);
            },
        }
        self.pos = self.pos + buf.len() as u64;
        Ok(())
    }

    /// Read the rest of the stream into `buf`, counting the bytes read.
    pub fn read_to_end(&mut self, buf: &mut Vec<u8>) -> (r: Result<usize, ErrorKind>)
        requires
            old(self).pos() + old(self).inner().unread().len() <= u64::MAX,
        ensures
            final(self).inner().data() == old(self).inner().data(),
            r == Ok::<usize, ErrorKind>(old(self).inner().unread().len() as usize),
            final(buf)@ == old(buf)@ + old(self).inner().unread(),
            final(self).inner().unread().len() == 0,
            final(self).pos() == old(self).pos() + old(self).inner().unread().len(),
    {
        proof {
            self.inner.lemma_bounds();
        }
        let n = match self.inner.read_to_end(buf) {
            Ok(n) => n,
            Err(e) => {
                return Err(e);
            },
        };
        self.pos = self.pos + n as u64;
        Ok(n)
    }

    /// Write all of `buf` to the stream, counting the bytes written.
    pub fn write_all(&mut self, buf: &[u8]) -> (r: Result<(), ErrorKind>)
        requires
            old(self).inner().pos() + buf@.len() <= usize::MAX,
            old(self).pos() + buf@.len() <= u64::MAX,
        ensures
            r is Ok,
            final(self).inner().data() == written_at(
                old(self).inner().data(),
                old(self).inner().pos() as int,
                buf@,
            ),
            final(self).inner().pos() == old(self).inner().pos() + buf@.len(),
            final(self).pos() == old(self).pos() + buf@.len(),
    {
        match self.inner.write_all(buf) {
            Ok(()) => {},
            Err(e) => {
                return Err(e);
            },
        }
        self.pos = self.pos + buf.len() as u64;
        Ok(())
    }
}

} // verus!
