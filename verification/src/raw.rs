//! Bounds-checked little-endian field extraction from raw blocks.
//!
//! APFS is little-endian throughout. `SliceReader` is a cursor over a byte
//! slice; every read is bounds-checked and fails with `Error::Parse` on
//! truncation, so corrupt structures can never cause a panic.

use crate::error::Error;
use crate::Result;
use vstd::prelude::*;
use crate::text::{hex_byte, push_char, push_hex};
use vstd::slice::slice_subrange;

verus! {

/// Little-endian 16-bit value of `s[off..off + 2]`.
pub open spec fn le16(s: Seq<u8>, off: int) -> int {
    s[off] as int + s[off + 1] as int * 256
}

/// Little-endian 32-bit value of `s[off..off + 4]`.
pub open spec fn le32(s: Seq<u8>, off: int) -> int {
    le16(s, off) + le16(s, off + 2) * 65536
}

/// Little-endian 64-bit value of `s[off..off + 8]`.
pub open spec fn le64(s: Seq<u8>, off: int) -> int {
    le32(s, off) + le32(s, off + 4) * 4294967296
}

/// The error every truncated read reports.
pub open spec fn truncated() -> Error {
    Error::Parse("truncated structure (bytes)")
}

/// The error a truncated `skip` reports.
pub open spec fn truncated_skip() -> Error {
    Error::Parse("truncated structure (skip)")
}

/// The error a reader placed past the end of its buffer reports.
pub open spec fn offset_out_of_range() -> Error {
    Error::Parse("reader offset out of range")
}

/// Little-endian bytes of a 16-bit value.
pub open spec fn u16_le(v: u16) -> Seq<u8> {
    seq![(v % 256) as u8, (v / 256) as u8]
}

/// Little-endian bytes of a 32-bit value.
pub open spec fn u32_le(v: u32) -> Seq<u8> {
    u16_le((v % 65536) as u16) + u16_le((v / 65536) as u16)
}

/// Little-endian bytes of a 64-bit value.
pub open spec fn u64_le(v: u64) -> Seq<u8> {
    u32_le((v % 0x1_0000_0000) as u32) + u32_le((v / 0x1_0000_0000) as u32)
}

/// Reading back little-endian bytes gives the value they encode.
pub proof fn lemma_le_roundtrip(s: Seq<u8>, off: int, v: u64)
    requires
        0 <= off,
        off + 8 <= s.len(),
        s.subrange(off, off + 8) == u64_le(v),
    ensures
        le64(s, off) == v,
        le32(s, off) == v % 0x1_0000_0000,
        le16(s, off) == v % 65536,
{
    let t = s.subrange(off, off + 8);
    assert(s[off] == t[0] && s[off + 1] == t[1] && s[off + 2] == t[2] && s[off + 3] == t[3]);
    assert(s[off + 4] == t[4] && s[off + 5] == t[5] && s[off + 6] == t[6] && s[off + 7] == t[7]);
    let lo = (v % 0x1_0000_0000) as u32;
    let hi = (v / 0x1_0000_0000) as u32;
    assert(t[0] == (lo % 65536) as u16 % 256 && t[1] == ((lo % 65536) as u16 / 256) as u8);
    assert(t[2] == (lo / 65536) as u16 % 256 && t[3] == ((lo / 65536) as u16 / 256) as u8);
    assert(t[4] == (hi % 65536) as u16 % 256 && t[5] == ((hi % 65536) as u16 / 256) as u8);
    assert(t[6] == (hi / 65536) as u16 % 256 && t[7] == ((hi / 65536) as u16 / 256) as u8);
    assert(le16(s, off) == lo % 65536);
    assert(le16(s, off + 2) == lo / 65536);
    assert(le16(s, off + 4) == hi % 65536);
    assert(le16(s, off + 6) == hi / 65536);
    assert(le32(s, off) == lo);
    assert(le32(s, off + 4) == hi);
}

pub proof fn lemma_le_bounds(s: Seq<u8>, off: int)
    requires
        0 <= off,
        off + 8 <= s.len(),
    ensures
        0 <= le16(s, off) < 0x1_0000,
        0 <= le32(s, off) < 0x1_0000_0000,
        0 <= le64(s, off) < 0x1_0000_0000_0000_0000,
{
}

/// Canonical text of a UUID stored in mixed-endian GPT/APFS byte order:
/// the first three groups little-endian, upper-case hexadecimal.
pub open spec fn uuid_text(u: Seq<u8>) -> Seq<char> {
    hex_byte(u[3]) + hex_byte(u[2]) + hex_byte(u[1]) + hex_byte(u[0]) + seq!['-']
        + hex_byte(u[5]) + hex_byte(u[4]) + seq!['-']
        + hex_byte(u[7]) + hex_byte(u[6]) + seq!['-']
        + hex_byte(u[8]) + hex_byte(u[9]) + seq!['-']
        + hex_byte(u[10]) + hex_byte(u[11]) + hex_byte(u[12]) + hex_byte(u[13]) + hex_byte(u[14])
        + hex_byte(u[15])
}

/// Format a UUID in canonical mixed-endian GPT/APFS text form.
/// (First three groups little-endian, as both GPT and APFS store them.)
pub fn uuid_to_string(u: &[u8; 16]) -> (s: String)
    ensures
        s@ == uuid_text(u@),
{
    let mut s = String::new();
    push_hex(&mut s, u[3]);
    push_hex(&mut s, u[2]);
    push_hex(&mut s, u[1]);
    push_hex(&mut s, u[0]);
    push_char(&mut s, '-');
    push_hex(&mut s, u[5]);
    push_hex(&mut s, u[4]);
    push_char(&mut s, '-');
    push_hex(&mut s, u[7]);
    push_hex(&mut s, u[6]);
    push_char(&mut s, '-');
    push_hex(&mut s, u[8]);
    push_hex(&mut s, u[9]);
    push_char(&mut s, '-');
    push_hex(&mut s, u[10]);
    push_hex(&mut s, u[11]);
    push_hex(&mut s, u[12]);
    push_hex(&mut s, u[13]);
    push_hex(&mut s, u[14]);
    push_hex(&mut s, u[15]);
    assert(s@ =~= uuid_text(u@));
    s
}

/// A read cursor over a byte slice.
#[derive(Clone, Copy)]
pub struct SliceReader<'a> {
    buf: &'a [u8],
    pos: usize,
}

impl<'a> SliceReader<'a> {
    #[verifier::type_invariant]
    spec fn inv(self) -> bool {
        self.pos <= self.buf@.len()
    }

    /// The bytes under the cursor.
    pub closed spec fn data(self) -> Seq<u8> {
        self.buf@
    }

    /// The cursor position.
    pub closed spec fn offset(self) -> int {
        self.pos as int
    }

    pub fn new(buf: &'a [u8]) -> (r: Self)
        ensures
            r.data() == buf@,
            r.offset() == 0,
    {
        SliceReader { buf, pos: 0 }
    }

    pub fn at(buf: &'a [u8], pos: usize) -> (r: Result<Self>)
        ensures
            r is Ok <==> pos <= buf@.len(),
            r matches Ok(rd) ==> rd.data() == buf@ && rd.offset() == pos,
            r matches Err(e) ==> e == offset_out_of_range(),
    {
        if pos > buf.len() {
            return Err(Error::Parse("reader offset out of range"));
        }
        Ok(SliceReader { buf, pos })
    }

    pub fn pos(&self) -> (p: usize)
        ensures
            p == self.offset(),
    {
        self.pos
    }

    pub fn remaining(&self) -> (n: usize)
        ensures
            n == self.data().len() - self.offset(),
            self.offset() <= self.data().len() <= usize::MAX,
    {
        proof {
            use_type_invariant(self);
        }
        self.buf.len() - self.pos
    }

    pub fn skip(&mut self, n: usize) -> (r: Result<()>)
        ensures
            final(self).data() == old(self).data(),
            r is Ok <==> old(self).offset() + n <= old(self).data().len(),
            r is Ok ==> final(self).offset() == old(self).offset() + n,
            r matches Err(e) ==> e == truncated_skip() && final(self).offset() == old(self).offset(),
    {
        if self.remaining() < n {
            return Err(Error::Parse("truncated structure (skip)"));
        }
        self.pos = self.pos + n;
        Ok(())
    }

    pub fn bytes(&mut self, n: usize) -> (r: Result<&'a [u8]>)
        ensures
            final(self).data() == old(self).data(),
            r is Ok <==> old(self).offset() + n <= old(self).data().len(),
            r matches Ok(s) ==> s@ == old(self).data().subrange(old(self).offset(), old(self).offset() + n)
                && final(self).offset() == old(self).offset() + n,
            r matches Err(e) ==> e == truncated() && final(self).offset() == old(self).offset(),
    {
        if self.remaining() < n {
            return Err(Error::Parse("truncated structure (bytes)"));
        }
        let s = slice_subrange(self.buf, self.pos, self.pos + n);
        self.pos = self.pos + n;
        Ok(s)
    }

    pub fn u8(&mut self) -> (r: Result<u8>)
        ensures
            final(self).data() == old(self).data(),
            r is Ok <==> old(self).offset() + 1 <= old(self).data().len(),
            r matches Ok(v) ==> v == old(self).data()[old(self).offset()]
                && final(self).offset() == old(self).offset() + 1,
            r matches Err(e) ==> e == truncated() && final(self).offset() == old(self).offset(),
    {
        let b = self.bytes(1)?;
        Ok(b[0])
    }

    pub fn u16(&mut self) -> (r: Result<u16>)
        ensures
            final(self).data() == old(self).data(),
            r is Ok <==> old(self).offset() + 2 <= old(self).data().len(),
            r matches Ok(v) ==> v == le16(old(self).data(), old(self).offset())
                && final(self).offset() == old(self).offset() + 2,
            r matches Err(e) ==> e == truncated() && final(self).offset() == old(self).offset(),
    {
        let b = self.bytes(2)?;
        Ok(b[0] as u16 + b[1] as u16 * 256)
    }

    pub fn u32(&mut self) -> (r: Result<u32>)
        ensures
            final(self).data() == old(self).data(),
            r is Ok <==> old(self).offset() + 4 <= old(self).data().len(),
            r matches Ok(v) ==> v == le32(old(self).data(), old(self).offset())
                && final(self).offset() == old(self).offset() + 4,
            r matches Err(e) ==> e == truncated() && final(self).offset() == old(self).offset(),
    {
        let b = self.bytes(4)?;
        let lo = b[0] as u32 + b[1] as u32 * 256;
        let hi = b[2] as u32 + b[3] as u32 * 256;
        Ok(lo + hi * 65536)
    }

    pub fn u64(&mut self) -> (r: Result<u64>)
        ensures
            final(self).data() == old(self).data(),
            r is Ok <==> old(self).offset() + 8 <= old(self).data().len(),
            r matches Ok(v) ==> v == le64(old(self).data(), old(self).offset())
                && final(self).offset() == old(self).offset() + 8,
            r matches Err(e) ==> e == truncated() && final(self).offset() == old(self).offset(),
    {
        let b = self.bytes(8)?;
        let w0 = b[0] as u64 + b[1] as u64 * 256;
        let w1 = b[2] as u64 + b[3] as u64 * 256;
        let w2 = b[4] as u64 + b[5] as u64 * 256;
        let w3 = b[6] as u64 + b[7] as u64 * 256;
        let lo = w0 + w1 * 65536;
        let hi = w2 + w3 * 65536;
        Ok(lo + hi * 4294967296)
    }

    pub fn i64(&mut self) -> (r: Result<i64>)
        ensures
            final(self).data() == old(self).data(),
            r is Ok <==> old(self).offset() + 8 <= old(self).data().len(),
            r matches Ok(v) ==> v == (le64(old(self).data(), old(self).offset()) as u64) as i64
                && final(self).offset() == old(self).offset() + 8,
            r matches Err(e) ==> e == truncated() && final(self).offset() == old(self).offset(),
    {
        let v = self.u64()?;
        Ok(v as i64)
    }

    pub fn uuid(&mut self) -> (r: Result<[u8; 16]>)
        ensures
            final(self).data() == old(self).data(),
            r is Ok <==> old(self).offset() + 16 <= old(self).data().len(),
            r matches Ok(u) ==> u@ == old(self).data().subrange(old(self).offset(), old(self).offset() + 16)
                && final(self).offset() == old(self).offset() + 16,
            r matches Err(e) ==> e == truncated() && final(self).offset() == old(self).offset(),
    {
        let b = self.bytes(16)?;
        let u: [u8; 16] = [
            b[0], b[1], b[2], b[3], b[4], b[5], b[6], b[7],
            b[8], b[9], b[10], b[11], b[12], b[13], b[14], b[15],
        ];
        assert(u@ =~= b@);
        Ok(u)
    }
}

} // verus!
