//! Block device abstraction.
//!
//! Everything the parser reads comes through [`BlockDevice`], so the same
//! core serves disk images, physical drives, partition windows and
//! in-memory buffers.

use crate::error::{same_error, Error};
use crate::Result;
use vstd::prelude::*;

verus! {

/// A device I/O error (its payload comes from the operating system).
pub open spec fn io_error() -> Error {
    Error::Io(vstd::pervasive::arbitrary())
}

/// A random-access, byte-addressable device.
pub trait BlockDevice {
    /// The bytes the device holds.
    spec fn content(&self) -> Seq<u8>;

    /// Whether a read of `len` bytes at `offset` succeeds.
    spec fn readable(&self, offset: int, len: int) -> bool;

    /// The error a failed read of `len` bytes at `offset` reports.
    spec fn read_error(&self, offset: int, len: int) -> Error;

    /// Whether the device knows its size, so that `len` succeeds.
    spec fn size_known(&self) -> bool;

    /// Read exactly `buf.len()` bytes starting at absolute `offset`.
    fn read_at(&self, offset: u64, buf: &mut [u8]) -> (r: Result<()>)
        ensures
            final(buf)@.len() == old(buf)@.len(),
            r is Ok <==> self.readable(offset as int, old(buf)@.len() as int),
            r is Ok ==> offset + old(buf)@.len() <= self.content().len()
                && final(buf)@ == self.content().subrange(offset as int, offset + old(buf)@.len()),
            r matches Err(e) ==> same_error(e, self.read_error(offset as int, old(buf)@.len() as int)),
    ;

    /// Total size in bytes, if known.
    fn len(&self) -> (r: Result<u64>)
        ensures
            self.size_known() ==> r is Ok,
            r matches Ok(n) ==> n == self.content().len(),
    ;

    fn is_empty(&self) -> (r: Result<bool>)
        ensures
            self.size_known() ==> r is Ok,
            r matches Ok(b) ==> b == (self.content().len() == 0),
    {
        Ok(self.len()? == 0)
    }
}

/// A read of `len` bytes at `offset`: the bytes, or the device's error.
pub open spec fn dev_read<D: BlockDevice>(d: D, offset: int, len: int) -> core::result::Result<Seq<u8>, Error> {
    if d.readable(offset, len) && 0 <= offset && 0 <= len && offset + len <= d.content().len() {
        Ok(d.content().subrange(offset, offset + len))
    } else {
        Err(d.read_error(offset, len))
    }
}

/// Read into `buf` and report the outcome as a spec-level read.
pub fn read_exact<D: BlockDevice>(d: &D, offset: u64, buf: &mut [u8]) -> (r: Result<()>)
    ensures
        final(buf)@.len() == old(buf)@.len(),
        match dev_read(*d, offset as int, old(buf)@.len() as int) {
            Ok(bytes) => r is Ok && final(buf)@ == bytes,
            Err(e2) => r matches Err(e) && same_error(e, e2),
        },
{
    d.read_at(offset, buf)
}

/// An in-memory device.
pub struct MemDevice {
    data: Vec<u8>,
}

impl MemDevice {
    pub fn new(data: Vec<u8>) -> (d: Self)
        ensures
            d.content() == data@,
            forall|o: int, l: int| 0 <= o && 0 <= l ==> (#[trigger] d.readable(o, l) <==> o + l <= data@.len()),
    {
        MemDevice { data }
    }
}

/// `std::io::Error::new(ErrorKind::UnexpectedEof, msg)`.
#[verifier::external_body]
fn eof_error(msg: &'static str) -> (e: Error)
    ensures
        e is Io,
{
    Error::Io(std::io::Error::new(std::io::ErrorKind::UnexpectedEof, msg))
}

impl BlockDevice for MemDevice {
    closed spec fn content(&self) -> Seq<u8> { self.data@ }

    closed spec fn readable(&self, offset: int, len: int) -> bool {
        offset + len <= self.data@.len()
    }

    closed spec fn read_error(&self, offset: int, len: int) -> Error {
        if offset <= usize::MAX && offset + len > usize::MAX {
            Error::Parse("mem read overflow")
        } else {
            io_error()
        }
    }

    open spec fn size_known(&self) -> bool {
        true
    }

    /// A failed read leaves `buf` as it was.
    #[verifier::rlimit(30)]
    fn read_at(&self, offset: u64, buf: &mut [u8]) -> (r: Result<()>)
        ensures
            r is Err ==> final(buf)@ == old(buf)@,
    {
        let len = buf.len();
        let dlen = self.data.len();
        if offset > usize::MAX as u64 {
            return Err(eof_error("read past end of buffer"));
        }
        let start = offset as usize;
        let end = match start.checked_add(len) {
            Some(e) => e,
            None => return Err(Error::Parse("mem read overflow")),
        };
        if end > self.data.len() {
            return Err(eof_error("read past end of buffer"));
        }
        let mut i: usize = 0;
        while i < len
            invariant
                i <= len,
                len == old(buf)@.len(),
                buf@.len() == len,
                start + len <= self.data.len(),
                forall|j: int| 0 <= j < i ==> buf@[j] == self.data@[start + j],
            decreases len - i,
        {
            buf[i] = self.data[start + i];
            i += 1;
        }
        assert(buf@ =~= self.data@.subrange(start as int, start + len));
        Ok(())
    }

    fn len(&self) -> (r: Result<u64>) {
        Ok(self.data.len() as u64)
    }
}

/// A window into another device (e.g. one GPT partition of a whole disk).
pub struct SliceDevice<D: BlockDevice> {
    inner: D,
    start: u64,
    size: u64,
}

impl<D: BlockDevice> SliceDevice<D> {
    pub fn new(inner: D, start: u64, size: u64) -> (d: Self)
        ensures
            d == Self::spec_new(inner, start, size),
            d.inner() == inner,
            d.start() == start,
            d.size() == size,
    {
        SliceDevice { inner, start, size }
    }

    /// The window of `size` bytes of `inner` from byte `start`.
    pub closed spec fn spec_new(inner: D, start: u64, size: u64) -> Self {
        SliceDevice { inner, start, size }
    }

    pub closed spec fn inner(&self) -> D {
        self.inner
    }

    pub closed spec fn start(&self) -> u64 {
        self.start
    }

    pub closed spec fn size(&self) -> u64 {
        self.size
    }
}

impl<D: BlockDevice> BlockDevice for SliceDevice<D> {
    open spec fn content(&self) -> Seq<u8> {
        Seq::new(self.size() as nat, |i: int| self.inner().content()[self.start() + i])
    }

    open spec fn readable(&self, offset: int, len: int) -> bool {
        &&& offset + len <= u64::MAX
        &&& offset + len <= self.size()
        &&& self.start() + offset <= u64::MAX
        &&& self.inner().readable(self.start() + offset, len)
    }

    open spec fn read_error(&self, offset: int, len: int) -> Error {
        if offset + len > u64::MAX {
            Error::Parse("slice read overflow")
        } else if offset + len > self.size() || self.start() + offset > u64::MAX {
            io_error()
        } else {
            self.inner().read_error(self.start() + offset, len)
        }
    }

    open spec fn size_known(&self) -> bool {
        true
    }

    /// A read that does not fit in the window fails before the inner
    /// device is read, and leaves `buf` as it was.
    fn read_at(&self, offset: u64, buf: &mut [u8]) -> (r: Result<()>)
        ensures
            !(offset + old(buf)@.len() <= self.size() && self.start() + offset <= u64::MAX) ==> (r is Err
                && final(buf)@ == old(buf)@),
    {
        let end = match offset.checked_add(buf.len() as u64) {
            Some(e) => e,
            None => return Err(Error::Parse("slice read overflow")),
        };
        if end > self.size {
            return Err(eof_error("read past end of partition"));
        }
        let abs = match self.start.checked_add(offset) {
            Some(a) => a,
            None => return Err(eof_error("read past end of partition")),
        };
        let r = self.inner.read_at(abs, buf);
        proof {
            if r is Ok {
                assert(buf@ =~= self.content().subrange(offset as int, offset + buf@.len()));
            }
        }
        r
    }

    fn len(&self) -> (r: Result<u64>) {
        Ok(self.size)
    }
}

} // verus!
