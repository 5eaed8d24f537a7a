//! In-memory byte streams: the sources and sinks that readers and writers
//! work on.
use vstd::prelude::*;

verus! {

/// The kinds of failure a stream reports.
#[derive(Clone, Copy, Debug, PartialEq, Eq, Structural)]
pub enum ErrorKind {
    /// An entity was not found.
    NotFound,
    /// A parameter was incorrect, such as a seek to a negative position.
    InvalidInput,
    /// Data not valid for the operation was encountered.
    InvalidData,
    /// The stream ended before the request could be served.
    UnexpectedEof,
    /// A write could not be completed.
    WriteZero,
    /// Any other failure.
    Other,
}

/// A position to seek to.
#[derive(Clone, Copy, Debug, PartialEq, Eq, Structural)]
pub enum SeekFrom {
    /// An offset from the start.
    Start(u64),
    /// An offset from the end.
    End(i64),
    /// An offset from the current position.
    Current(i64),
}

/// The bytes of `data` from position `pos` on.
pub open spec fn unread_from(data: Seq<u8>, pos: int) -> Seq<u8> {
    if pos < data.len() {
        data.skip(pos)
    } else {
        Seq::empty()
    }
}

/// The contents after writing `buf` at position `pos` of `data`: a gap up to
/// `pos` is filled with zeroes, and bytes past the write are kept.
pub open spec fn written_at(data: Seq<u8>, pos: int, buf: Seq<u8>) -> Seq<u8> {
    let base = if pos <= data.len() {
        data
    } else {
        data + Seq::new((pos - data.len()) as nat, |i: int| 0u8)
    };
    let end = pos + buf.len();
    base.take(pos) + buf + if end < base.len() {
        base.skip(end)
    } else {
        Seq::empty()
    }
}

/// Writing `a` and then `b` just after it writes `a + b`.
pub proof fn lemma_written_at_append(data: Seq<u8>, pos: int, a: Seq<u8>, b: Seq<u8>)
    requires
        0 <= pos,
    ensures
        written_at(written_at(data, pos, a), pos + a.len(), b) == written_at(data, pos, a + b),
        written_at(data, pos, a).len() == if pos + a.len() <= data.len() {
            data.len() as int
        } else {
            pos + a.len()
        },
{
    let base = if pos <= data.len() {
        data
    } else {
        data + Seq::new((pos - data.len()) as nat, |i: int| 0u8)
    };
    let d1 = written_at(data, pos, a);
    let lhs = written_at(d1, pos + a.len(), b);
    let rhs = written_at(data, pos, a + b);
    assert(d1.len() == if pos + a.len() <= data.len() {
        data.len() as int
    } else {
        pos + a.len()
    });
    assert(lhs.len() == rhs.len());
    assert forall|i: int| 0 <= i < lhs.len() implies lhs[i] == rhs[i] by {
        if i < pos {
        } else if i < pos + a.len() {
        } else if i < pos + a.len() + b.len() {
        } else {
        }
    }
    assert(lhs =~= rhs);
}

/// A write at `pos` leaves the contents as long as they were or as long as
/// the write's end, whichever is more.
pub proof fn lemma_written_at_len(data: Seq<u8>, pos: int, buf: Seq<u8>)
    requires
        0 <= pos,
    ensures
        written_at(data, pos, buf).len() == if pos + buf.len() <= data.len() {
            data.len() as int
        } else {
            pos + buf.len()
        },
{
}

/// The contents after writing the bytes `buf` one at a time at `pos`: nothing
/// changes when there are none.
pub open spec fn after_writes(data: Seq<u8>, pos: int, buf: Seq<u8>) -> Seq<u8> {
    if buf.len() == 0 {
        data
    } else {
        written_at(data, pos, buf)
    }
}

/// Writes that follow one another make one write.
pub proof fn lemma_after_writes_append(data: Seq<u8>, pos: int, a: Seq<u8>, b: Seq<u8>)
    requires
        0 <= pos,
    ensures
        after_writes(after_writes(data, pos, a), pos + a.len(), b) == after_writes(
            data,
            pos,
            a + b,
        ),
{
    if a.len() == 0 {
        assert(a + b =~= b);
    } else if b.len() == 0 {
        assert(a + b =~= a);
    } else {
        lemma_written_at_append(data, pos, a, b);
    }
}

/// The position a seek targets, when it is a valid `u64`.
pub open spec fn seek_target(len: int, pos: int, target: SeekFrom) -> Option<u64> {
    let t = match target {
        SeekFrom::Start(n) => n as int,
        SeekFrom::End(d) => len + d,
        SeekFrom::Current(d) => pos + d,
    };
    if 0 <= t <= u64::MAX {
        Some(t as u64)
    } else {
        None
    }
}

/// An in-memory stream over a growable byte buffer with a position.
pub struct Cursor {
    inner: Vec<u8>,
    pos: u64,
}

impl Cursor {
    /// The buffer.
    pub closed spec fn data(&self) -> Seq<u8> {
        self.inner@
    }

    /// The position.
    pub closed spec fn pos(&self) -> nat {
        self.pos as nat
    }

    /// The buffer's length fits in a `usize` and the position in a `u64`.
    pub proof fn lemma_bounds(&self)
        ensures
            self.data().len() <= usize::MAX,
            self.pos() <= u64::MAX,
    {
        assert(self.inner.len() == self.inner@.len());
    }

    /// The bytes not yet read.
    pub open spec fn unread(&self) -> Seq<u8> {
        unread_from(self.data(), self.pos() as int)
    }

    /// A stream over `inner`, positioned at its start.
    pub fn new(inner: Vec<u8>) -> (r: Self)
        ensures
            r.data() == inner@,
            r.pos() == 0,
    {
        Cursor { inner, pos: 0 }
    }

    /// Consume the stream, returning its buffer.
    pub fn into_inner(self) -> (r: Vec<u8>)
        ensures
            r@ == self.data(),
    {
        self.inner
    }

    /// Borrow the buffer.
    pub fn get_ref(&self) -> (r: &Vec<u8>)
        ensures
            r@ == self.data(),
    {
        &self.inner
    }

    /// The position.
    pub fn position(&self) -> (r: u64)
        ensures
            r == self.pos(),
    {
        self.pos
    }

    /// Move to position `pos`.
    pub fn set_position(&mut self, pos: u64)
        ensures
            final(self).data() == old(self).data(),
            final(self).pos() == pos,
    {
        self.pos = pos;
    }

    /// Fill `buf[start..start + count]` with the next `count` bytes.
    ///
    /// Fails with `UnexpectedEof` when fewer bytes are left: `buf` is left as
    /// it was and the position moves to the end of the buffer.
    pub fn read_exact_at(&mut self, buf: &mut [u8], start: usize, count: usize) -> (r: Result<
        (),
        ErrorKind,
    >)
        requires
            start + count <= old(buf)@.len(),
        ensures
            final(self).data() == old(self).data(),
            r is Ok <==> count <= old(self).unread().len(),
            r is Ok ==> {
                &&& final(self).pos() == old(self).pos() + count
                &&& final(buf)@ == old(buf)@.take(start as int) + old(self).unread().take(
                    count as int,
                ) + old(buf)@.skip(start + count)
            },
            r is Err ==> {
                &&& r == Err::<(), ErrorKind>(ErrorKind::UnexpectedEof)
                &&& final(self).pos() == old(self).data().len()
                &&& final(buf)@ == old(buf)@
            },
    {
        let len = self.inner.len();
        let available: u64 = if self.pos >= len as u64 {
            0
        } else {
            len as u64 - self.pos
        };
        if available < count as u64 {
            self.pos = len as u64;
            return Err(ErrorKind::UnexpectedEof);
        }
        if count == 0 {
            assert(buf@ =~= old(buf)@.take(start as int) + old(self).unread().take(0)
                + old(buf)@.skip(start as int));
            return Ok(());
        }
        assert(buf@.len() == buf.len());
        let p = self.pos as usize;
        let mut i: usize = 0;
        while i < count
            invariant
                i <= count,
                start + count <= buf@.len(),
                p + count <= self.inner@.len(),
                start + count <= usize::MAX,
                p + count <= usize::MAX,
                p == self.pos,
                self.inner@ == old(self).inner@,
                self.pos == old(self).pos,
                buf@.len() == old(buf)@.len(),
                forall|j: int|
                    0 <= j < buf@.len() ==> #[trigger] buf@[j] == if start <= j < start + i {
                        self.inner@[p + j - start]
                    } else {
                        old(buf)@[j]
                    },
            decreases count - i,
        {
            buf[start + i] = self.inner[p + i];
            i = i + 1;
        }
        self.pos = self.pos + count as u64;
        assert(buf@ =~= old(buf)@.take(start as int) + old(self).unread().take(count as int)
            + old(buf)@.skip(start + count));
        Ok(())
    }

    /// Fill `buf` with the next bytes.
    ///
    /// Fails with `UnexpectedEof` when fewer bytes are left: `buf` is left as
    /// it was and the position moves to the end of the buffer.
    pub fn read_exact(&mut self, buf: &mut [u8]) -> (r: Result<(), ErrorKind>)
        ensures
            final(self).data() == old(self).data(),
            r is Ok <==> old(buf)@.len() <= old(self).unread().len(),
            r is Ok ==> {
                &&& final(self).pos() == old(self).pos() + old(buf)@.len()
                &&& final(buf)@ == old(self).unread().take(old(buf)@.len() as int)
            },
            r is Err ==> {
                &&& r == Err::<(), ErrorKind>(ErrorKind::UnexpectedEof)
                &&& final(self).pos() == old(self).data().len()
                &&& final(buf)@ == old(buf)@
            },
    {
        let n = buf.len();
        let r = self.read_exact_at(buf, 0, n);
        proof {
            if r is Ok {
                assert(buf@ =~= old(self).unread().take(n as int));
            }
        }
        r
    }

    /// Append all unread bytes to `buf`, returning how many there were.
    pub fn read_to_end(&mut self, buf: &mut Vec<u8>) -> (r: Result<usize, ErrorKind>)
        ensures
            final(self).data() == old(self).data(),
            r == Ok::<usize, ErrorKind>(old(self).unread().len() as usize),
            final(buf)@ == old(buf)@ + old(self).unread(),
            final(self).unread().len() == 0,
            old(self).pos() <= final(self).pos(),
    {
        let len = self.inner.len();
        if self.pos >= len as u64 {
            assert(old(buf)@ + old(self).unread() =~= old(buf)@);
            return Ok(0);
        }
        let p = self.pos as usize;
        let mut i: usize = p;
        while i < len
            invariant
                p <= i <= len,
                len == self.inner@.len(),
                p == self.pos,
                self.inner@ == old(self).inner@,
                self.pos == old(self).pos,
                buf@ == old(buf)@ + self.inner@.subrange(p as int, i as int),
            decreases len - i,
        {
            buf.push(self.inner[i]);
            assert(self.inner@.subrange(p as int, i + 1) =~= self.inner@.subrange(
                p as int,
                i as int,
            ).push(self.inner@[i as int]));
            i = i + 1;
        }
        self.pos = len as u64;
        assert(self.inner@.subrange(p as int, len as int) =~= old(self).unread());
        Ok(len - p)
    }

    /// Write all of `buf` at the position, then move past it.
    pub fn write_all(&mut self, buf: &[u8]) -> (r: Result<(), ErrorKind>)
        requires
            old(self).pos() + buf@.len() <= usize::MAX,
        ensures
            r is Ok,
            final(self).data() == written_at(old(self).data(), old(self).pos() as int, buf@),
            final(self).pos() == old(self).pos() + buf@.len(),
    {
        let p = self.pos as usize;
        while self.inner.len() < p
            invariant
                p == self.pos,
                p == old(self).pos(),
                self.inner@.len() <= p || self.inner@ == old(self).inner@,
                self.inner@.len() >= old(self).inner@.len(),
                self.inner@ == old(self).inner@ + Seq::new(
                    (self.inner@.len() - old(self).inner@.len()) as nat,
                    |i: int| 0u8,
                ),
            decreases p - self.inner@.len(),
        {
            self.inner.push(0u8);
            assert(self.inner@ =~= old(self).inner@ + Seq::new(
                (self.inner@.len() - old(self).inner@.len()) as nat,
                |i: int| 0u8,
            ));
        }
        let ghost base = self.inner@;
        let n = buf.len();
        let mut i: usize = 0;
        while i < n
            invariant
                i <= n,
                n == buf@.len(),
                p == self.pos,
                p <= base.len(),
                p + n <= usize::MAX,
                self.inner@ == base.take(p as int) + buf@.take(i as int) + if p + i < base.len() {
                    base.skip(p + i)
                } else {
                    Seq::empty()
                },
            decreases n - i,
        {
            if p + i < self.inner.len() {
                self.inner.set(p + i, buf[i]);
            } else {
                self.inner.push(buf[i]);
            }
            assert(self.inner@ =~= base.take(p as int) + buf@.take(i + 1) + if p + i + 1
                < base.len() {
                base.skip(p + i + 1)
            } else {
                Seq::empty()
            });
            i = i + 1;
        }
        self.pos = (p + n) as u64;
        proof {
            let old_data = old(self).inner@;
            if p <= old_data.len() {
                assert(base =~= old_data);
            }
            assert(buf@.take(n as int) =~= buf@);
            assert(self.inner@ =~= written_at(old_data, p as int, buf@));
        }
        Ok(())
    }

    /// Move the position as `target` says.
    ///
    /// Fails with `InvalidInput`, and stays put, when the target is negative or
    /// does not fit in a `u64`.
    pub fn seek(&mut self, target: SeekFrom) -> (r: Result<u64, ErrorKind>)
        ensures
            final(self).data() == old(self).data(),
            match seek_target(old(self).data().len() as int, old(self).pos() as int, target) {
                Some(t) => r == Ok::<u64, ErrorKind>(t) && final(self).pos() == t,
                None => r == Err::<u64, ErrorKind>(ErrorKind::InvalidInput) && final(self).pos()
                    == old(self).pos(),
            },
    {
        let len = self.inner.len() as u64;
        let t: Option<u64> = match target {
            SeekFrom::Start(n) => Some(n),
            SeekFrom::End(d) => offset_position(len, d),
            SeekFrom::Current(d) => offset_position(self.pos, d),
        };
        match t {
            Some(t) => {
                self.pos = t;
                Ok(t)
            },
            None => Err(ErrorKind::InvalidInput),
        }
    }

    /// The position, as seeking by nothing reports it.
    pub fn stream_position(&mut self) -> (r: Result<u64, ErrorKind>)
        ensures
            *final(self) == *old(self),
            r == Ok::<u64, ErrorKind>(old(self).pos() as u64),
    {
        Ok(self.pos)
    }
}

/// `base + delta`, when it is a valid `u64`.
fn offset_position(base: u64, delta: i64) -> (r: Option<u64>)
    ensures
        r == if 0 <= base + delta <= u64::MAX {
            Some((base + delta) as u64)
        } else {
            None::<u64>
        },
{
    if delta >= 0 {
        let d = delta as u64;
        if base > u64::MAX - d {
            None
        } else {
            Some(base + d)
        }
    } else {
        let d: u64 = if delta == i64::MIN {
            0x8000_0000_0000_0000u64
        } else {
            (-delta) as u64
        };
        if d > base {
            None
        } else {
            Some(base - d)
        }
    }
}

} // verus!
