//! Container for reader functions
use crate::bits::{BitSlice, BitVec, Msb0, bytes_bits, bits_range_all};
use crate::error::{DekuError, incomplete_error, is_incomplete};
use crate::no_std_io::{Cursor, ErrorKind};
use crate::reader::bytes_needed;
use vstd::prelude::*;

verus! {

/// Return from `read_bytes`
pub enum ContainerRet {
    /// Successfully read bytes
    Bytes,
    /// Read Bits intead
    Bits(Option<BitVec<u8, Msb0>>),
}

/// Max bytes fetched from the stream by one call of `read_bits`.
pub const MAX_BITS_AMT: usize = 128;

/// Container to use with `from_reader`
pub struct Container {
    inner: Cursor,
    /// bits stored from previous reads that didn't read to the end of a byte size
    leftover: BitVec<u8, Msb0>,
    /// Amount of bits read during the use of `read_bits` and `read_bytes`.
    pub bits_read: usize,
    /// If function `enable_read_cache` is used, this field will contain all bytes that were read
    pub read_cache: Option<Vec<u8>>,
}

/// The bits a read of `amt` bits draws from: the pending bits `p`, then as
/// many whole bytes of `u` as are needed to make up `amt`.
pub open spec fn container_stream(p: Seq<bool>, u: Seq<u8>, amt: int) -> Seq<bool> {
    p + bytes_bits(u.take(bytes_needed(p.len() as int, amt)))
}

/// The read cache `c` after the bytes `t` were read.
pub open spec fn cached(c: Option<Seq<u8>>, t: Seq<u8>) -> Option<Seq<u8>> {
    match c {
        Some(s) => Some(s + t),
        None => None,
    }
}

impl Container {
    /// The underlying stream.
    pub closed spec fn source(&self) -> Cursor {
        self.inner
    }

    /// The bits read from the stream but not yet handed out.
    pub closed spec fn pending(&self) -> Seq<bool> {
        self.leftover@
    }

    /// The number of bits handed out.
    pub closed spec fn read_count(&self) -> usize {
        self.bits_read
    }

    /// The bytes read since the cache was enabled, if it was.
    pub closed spec fn cache(&self) -> Option<Seq<u8>> {
        match self.read_cache {
            Some(v) => Some(v@),
            None => None,
        }
    }

    /// The pending bits are stored exactly, and there are at most eight.
    pub closed spec fn wf(&self) -> bool {
        &&& self.leftover.wf()
        &&& self.leftover@.len() <= 8
    }

    /// The bytes of the stream not yet read.
    pub open spec fn unread(&self) -> Seq<u8> {
        self.source().unread()
    }

    /// Create a new `Container`
    pub fn new(inner: Cursor) -> (r: Self)
        ensures
            r.wf(),
            r.source() == inner,
            r.pending() == Seq::<bool>::empty(),
            r.read_count() == 0,
            r.cache() is None,
    {
        Self { inner, leftover: BitVec::new(), bits_read: 0, read_cache: None }
    }

    /// Enable `sef.read_cache` to be filled with all bytes that were read after calling this
    /// function.
    pub fn enable_read_cache(&mut self)
        requires
            old(self).wf(),
        ensures
            final(self).wf(),
            final(self).source() == old(self).source(),
            final(self).pending() == old(self).pending(),
            final(self).read_count() == old(self).read_count(),
            final(self).cache() == Some(Seq::<u8>::empty()),
    {
        self.read_cache = Some(Vec::new());
        assert(self.cache() == Some(Seq::<u8>::empty()));
    }

    /// Append `bytes` to the read cache, if it is enabled.
    fn cache_bytes(&mut self, bytes: &[u8])
        ensures
            final(self).inner == old(self).inner,
            final(self).leftover == old(self).leftover,
            final(self).bits_read == old(self).bits_read,
            final(self).cache() == cached(old(self).cache(), bytes@),
    {
        if let Some(cache) = &mut self.read_cache {
            let mut more = vstd::slice::slice_to_vec(bytes);
            cache.append(&mut more);
        }
    }

    /// Return true if we are at the end of a reader and there are no cached bits in the container
    ///
    /// The byte that was read will be internally buffered, and goes into the
    /// read cache if it is enabled, as every byte read does.
    pub fn end(&mut self) -> (r: bool)
        requires
            old(self).wf(),
        ensures
            final(self).wf(),
            final(self).source().data() == old(self).source().data(),
            final(self).read_count() == old(self).read_count(),
            r == (old(self).pending().len() == 0 && old(self).unread().len() == 0),
            !(!r && old(self).pending().len() == 0) ==> final(self).cache() == old(self).cache(),
            old(self).pending().len() != 0 ==> *final(self) == *old(self),
            r ==> final(self).pending() == old(self).pending(),
            !r && old(self).pending().len() == 0 ==> {
                &&& final(self).pending() == bytes_bits(old(self).unread().take(1))
                &&& final(self).source().pos() == old(self).source().pos() + 1
                &&& final(self).cache() == cached(old(self).cache(), old(self).unread().take(1))
            },
    {
        if !self.leftover.is_empty() {
            false
        } else {
            let mut buf: [u8; 1] = [0u8];
            if let Err(e) = self.inner.read_exact(&mut buf) {
                if e == ErrorKind::UnexpectedEof {
                    return true;
                }
            }
            let bv = BitVec::<u8, Msb0>::from_slice(&buf);
            proof {
                let s: Seq<u8> = buf@;
                assert(bv@ =~= bytes_bits(s));
            }
            self.leftover = bv;
            self.cache_bytes(buf.as_slice());
            false
        }
    }

    /// Used at the beginning of `from_bytes`. Will read the `amt` of bits, but
    /// not increase bits_read.
    pub fn skip_bits(&mut self, amt: usize) -> (r: Result<(), DekuError>)
        requires
            old(self).wf(),
            amt <= old(self).pending().len() + 8 * MAX_BITS_AMT,
            old(self).read_count() + amt <= usize::MAX,
        ensures
            final(self).wf(),
            final(self).source().data() == old(self).source().data(),
            ({
                let p = old(self).pending();
                let u = old(self).unread();
                let k = bytes_needed(p.len() as int, amt as int);
                let s = container_stream(p, u, amt as int);
                if k <= u.len() {
                    &&& r is Ok
                    &&& final(self).pending() == s.skip(amt as int)
                    &&& final(self).source().pos() == old(self).source().pos() + k
                    &&& final(self).read_count() == 0
                    &&& final(self).cache() == cached(old(self).cache(), u.take(k))
                } else {
                    &&& r matches Err(e) && is_incomplete(e, amt as int)
                    &&& final(self).pending() == p
                    &&& final(self).source().pos() == old(self).source().data().len()
                    &&& final(self).read_count() == old(self).read_count()
                    &&& final(self).cache() == old(self).cache()
                }
            }),
    {
        match self.read_bits(amt) {
            Ok(_) => {},
            Err(e) => {
                return Err(e);
            },
        }
        self.bits_read = 0;
        Ok(())
    }

    /// Attempt to read bits from `Container`. This will always return a `BitVec` and will
    /// correctly add previously read and store "leftover" bits from previous reads.
    ///
    /// # Guarantees
    /// - if Some(bits), the returned `BitVec` will have the size of `amt` and
    /// `self.bits_read` will increase by `amt`
    ///
    /// # Params
    /// `amt`    - Amount of bits that will be read. At most [`MAX_BITS_AMT`] bytes
    /// are fetched from the stream for it.
    #[verifier::rlimit(40)]
    pub fn read_bits(&mut self, amt: usize) -> (r: Result<Option<BitVec<u8, Msb0>>, DekuError>)
        requires
            old(self).wf(),
            amt <= old(self).pending().len() + 8 * MAX_BITS_AMT,
            old(self).read_count() + amt <= usize::MAX,
        ensures
            final(self).wf(),
            final(self).source().data() == old(self).source().data(),
            amt == 0 ==> (r == Ok::<Option<BitVec<u8, Msb0>>, DekuError>(None) && *final(self)
                == *old(self)),
            amt > 0 ==> ({
                let p = old(self).pending();
                let u = old(self).unread();
                let k = bytes_needed(p.len() as int, amt as int);
                let s = container_stream(p, u, amt as int);
                if k <= u.len() {
                    &&& r matches Ok(Some(bv)) && bv.wf() && bv@ == s.take(amt as int)
                    &&& final(self).pending() == s.skip(amt as int)
                    &&& final(self).source().pos() == old(self).source().pos() + k
                    &&& final(self).read_count() == old(self).read_count() + amt
                    &&& final(self).cache() == cached(old(self).cache(), u.take(k))
                } else {
                    &&& r matches Err(e) && is_incomplete(e, amt as int)
                    &&& final(self).pending() == p
                    &&& final(self).source().pos() == old(self).source().data().len()
                    &&& final(self).read_count() == old(self).read_count()
                    &&& final(self).cache() == old(self).cache()
                }
            }),
    {
        if amt == 0 {
            return Ok(None);
        }
        let ghost p = self.leftover@;
        let ghost u = self.unread();
        let ghost k = bytes_needed(p.len() as int, amt as int);
        let ghost s = container_stream(p, u, amt as int);
        let mut ret: BitVec<u8, Msb0> = BitVec::new();
        let have = self.leftover.len();
        if amt == have {
            // exact match, just use leftover
            proof {
                assert(u.take(0) =~= Seq::<u8>::empty());
                assert(bytes_bits(Seq::<u8>::empty()) =~= Seq::<bool>::empty());
                assert(s =~= p);
                assert(s.take(amt as int) =~= p);
                assert(s.skip(amt as int) =~= Seq::<bool>::empty());
                assert(cached(old(self).cache(), u.take(0)) =~= old(self).cache()) by {
                    if let Some(c) = old(self).cache() {
                        assert(c + Seq::<u8>::empty() =~= c);
                    }
                }
            }
            core::mem::swap(&mut ret, &mut self.leftover);
        } else if amt > have {
            // previous read was not enough to satisfy the amt requirement
            ret.extend_from_bitslice(&self.leftover.as_bitslice());
            let bits_left = amt - have;
            let mut bytes_len = bits_left / 8;
            if bits_left % 8 != 0 {
                bytes_len = bytes_len + 1;
            }
            assert(bytes_len == k);
            let mut buf: Vec<u8> = vec![0u8; bytes_len];
            match self.inner.read_exact(buf.as_mut_slice()) {
                Ok(()) => {},
                Err(_) => {
                    return Err(incomplete_error(amt));
                },
            }
            self.cache_bytes(buf.as_slice());
            let read_buf = BitSlice::<u8, Msb0>::from_slice(buf.as_slice());
            proof {
                bits_range_all(buf@);
            }
            let (rest, not_needed) = read_buf.split_at(bits_left);
            ret.extend_from_bitslice(&rest);
            let mut left: BitVec<u8, Msb0> = BitVec::new();
            left.extend_from_bitslice(&not_needed);
            self.leftover = left;
            proof {
                let b = bytes_bits(u.take(k));
                assert(buf@ == u.take(k));
                assert(s.take(amt as int) =~= p + b.take(bits_left as int));
                assert(s.skip(amt as int) =~= b.skip(bits_left as int));
            }
        } else {
            // the pending bits cover the read: hand out their front
            let ghost left_before = self.leftover@;
            let whole = self.leftover.as_bitslice();
            let (front, back) = whole.split_at(amt);
            ret.extend_from_bitslice(&front);
            let mut rest: BitVec<u8, Msb0> = BitVec::new();
            rest.extend_from_bitslice(&back);
            self.leftover = rest;
            proof {
                assert(u.take(0) =~= Seq::<u8>::empty());
                assert(bytes_bits(Seq::<u8>::empty()) =~= Seq::<bool>::empty());
                assert(s =~= p);
                assert(cached(old(self).cache(), u.take(0)) =~= old(self).cache()) by {
                    if let Some(c) = old(self).cache() {
                        assert(c + Seq::<u8>::empty() =~= c);
                    }
                }
            }
        }
        self.bits_read = self.bits_read + ret.len();
        Ok(Some(ret))
    }

    /// Attempt to read bytes from `Container`. This will return `ContainerRet::Bytes` with a valid
    /// `buf` of bytes if we have no "leftover" bytes and thus are byte aligned. If we are not byte
    /// aligned, this will call `read_bits` and return `ContainerRet::Bits(_)` of size `amt` * 8.
    ///
    /// # Params
    /// `amt`    - Amount of bytes that will be read
    pub fn read_bytes(&mut self, amt: usize, buf: &mut [u8]) -> (r: Result<ContainerRet, DekuError>)
        requires
            old(self).wf(),
            8 * amt <= usize::MAX,
            old(self).read_count() + 8 * amt <= usize::MAX,
            old(self).pending().len() != 0 ==> 8 * amt <= old(self).pending().len() + 8
                * MAX_BITS_AMT,
        ensures
            final(self).wf(),
            final(self).source().data() == old(self).source().data(),
            old(self).pending().len() == 0 ==> {
                let u = old(self).unread();
                if old(buf)@.len() < amt {
                    &&& r matches Err(e) && is_incomplete(e, 8 * amt)
                    &&& *final(self) == *old(self)
                    &&& final(buf)@ == old(buf)@
                } else if amt <= u.len() {
                    &&& r matches Ok(ContainerRet::Bytes)
                    &&& final(buf)@ == u.take(amt as int) + old(buf)@.skip(amt as int)
                    &&& final(self).pending() == old(self).pending()
                    &&& final(self).source().pos() == old(self).source().pos() + amt
                    &&& final(self).read_count() == old(self).read_count() + 8 * amt
                    &&& final(self).cache() == cached(old(self).cache(), u.take(amt as int))
                } else {
                    &&& r matches Err(e) && is_incomplete(e, 8 * amt)
                    &&& final(buf)@ == old(buf)@
                    &&& final(self).pending() == old(self).pending()
                    &&& final(self).source().pos() == old(self).source().data().len()
                    &&& final(self).read_count() == old(self).read_count()
                    &&& final(self).cache() == old(self).cache()
                }
            },
            old(self).pending().len() != 0 ==> {
                let p = old(self).pending();
                let u = old(self).unread();
                let n = 8 * amt;
                let k = bytes_needed(p.len() as int, n);
                let s = container_stream(p, u, n);
                &&& final(buf)@ == old(buf)@
                &&& amt == 0 ==> (r matches Ok(ContainerRet::Bits(None)) && *final(self)
                    == *old(self))
                &&& amt > 0 && k <= u.len() ==> {
                    &&& (r matches Ok(ContainerRet::Bits(Some(bv))) && bv.wf() && bv@ == s.take(n))
                    &&& final(self).pending() == s.skip(n)
                    &&& final(self).source().pos() == old(self).source().pos() + k
                    &&& final(self).read_count() == old(self).read_count() + n
                    &&& final(self).cache() == cached(old(self).cache(), u.take(k))
                }
                &&& amt > 0 && k > u.len() ==> {
                    &&& (r matches Err(e) && is_incomplete(e, n))
                    &&& final(self).pending() == p
                    &&& final(self).source().pos() == old(self).source().data().len()
                    &&& final(self).read_count() == old(self).read_count()
                    &&& final(self).cache() == old(self).cache()
                }
            },
    {
        if self.leftover.is_empty() {
            if buf.len() < amt {
                return Err(incomplete_error(amt * 8));
            }
            match self.inner.read_exact_at(buf, 0, amt) {
                Ok(()) => {},
                Err(_) => {
                    return Err(incomplete_error(amt * 8));
                },
            }
            let ghost u = old(self).unread();
            proof {
                assert(buf@.take(amt as int) =~= u.take(amt as int));
                assert(old(buf)@.take(0) + u.take(amt as int) + old(buf)@.skip(amt as int)
                    =~= u.take(amt as int) + old(buf)@.skip(amt as int));
            }
            let read = slice_prefix(buf, amt);
            self.cache_bytes(read.as_slice());
            self.bits_read = self.bits_read + amt * 8;
            Ok(ContainerRet::Bytes)
        } else {
            match self.read_bits(amt * 8) {
                Ok(bits) => Ok(ContainerRet::Bits(bits)),
                Err(e) => Err(e),
            }
        }
    }
}

/// The first `n` bytes of `buf`.
fn slice_prefix(buf: &[u8], n: usize) -> (r: Vec<u8>)
    requires
        n <= buf@.len(),
    ensures
        r@ == buf@.take(n as int),
{
    let mut out: Vec<u8> = Vec::new();
    let mut i: usize = 0;
    while i < n
        invariant
            i <= n,
            n <= buf@.len(),
            out@ == buf@.take(i as int),
        decreases n - i,
    {
        out.push(buf[i]);
        assert(buf@.take(i + 1) =~= buf@.take(i as int).push(buf@[i as int]));
        i = i + 1;
    }
    out
}

} // verus!
