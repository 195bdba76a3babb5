//! `obj_phys_t` — the 32-byte header every APFS object begins with.

use crate::error::Error;
use crate::raw::{le32, le64, truncated, SliceReader};
use crate::types::{OBJECT_TYPE_MASK, OBJ_EPHEMERAL, OBJ_PHYSICAL, OBJ_VIRTUAL};
use crate::Result;
use vstd::prelude::*;

verus! {

pub const OBJ_HDR_SIZE: usize = 32;

#[derive(Debug, Clone, Copy, PartialEq, Eq, Structural)]
pub struct ObjHeader {
    pub cksum: u64,
    pub oid: u64,
    pub xid: u64,
    pub obj_type: u32,
    pub subtype: u32,
}

/// The header stored in the first 32 bytes of `b`, or the truncation error.
pub open spec fn spec_obj_header(b: Seq<u8>) -> core::result::Result<ObjHeader, Error> {
    if b.len() < 32 {
        Err(truncated())
    } else {
        Ok(ObjHeader {
            cksum: le64(b, 0) as u64,
            oid: le64(b, 8) as u64,
            xid: le64(b, 16) as u64,
            obj_type: le32(b, 24) as u32,
            subtype: le32(b, 28) as u32,
        })
    }
}

/// The header of `b`, required to have base type `expect`.
pub open spec fn spec_obj_header_expect(b: Seq<u8>, expect: u32, what: &'static str) -> core::result::Result<
    ObjHeader,
    Error,
> {
    match spec_obj_header(b) {
        Ok(h) => if h.obj_type & OBJECT_TYPE_MASK != expect {
            Err(Error::Parse(what))
        } else {
            Ok(h)
        },
        Err(e) => Err(e),
    }
}

impl ObjHeader {
    pub fn parse(block: &[u8]) -> (r: Result<Self>)
        ensures
            r == spec_obj_header(block@),
    {
        let mut r = SliceReader::new(block);
        let cksum = r.u64()?;
        let oid = r.u64()?;
        let xid = r.u64()?;
        let obj_type = r.u32()?;
        let subtype = r.u32()?;
        Ok(ObjHeader { cksum, oid, xid, obj_type, subtype })
    }

    pub fn base_type(&self) -> (t: u32)
        ensures
            t == self.obj_type & OBJECT_TYPE_MASK,
    {
        self.obj_type & OBJECT_TYPE_MASK
    }

    pub fn storage(&self) -> (s: u32)
        ensures
            s == self.obj_type & (OBJ_EPHEMERAL | OBJ_PHYSICAL),
    {
        self.obj_type & (OBJ_EPHEMERAL | OBJ_PHYSICAL)
    }

    pub fn is_virtual(&self) -> (b: bool)
        ensures
            b == (self.obj_type & (OBJ_EPHEMERAL | OBJ_PHYSICAL) == OBJ_VIRTUAL),
    {
        self.storage() == OBJ_VIRTUAL
    }

    /// Parse the header and require a specific base type.
    pub fn parse_expect(block: &[u8], expect: u32, what: &'static str) -> (r: Result<Self>)
        ensures
            r == spec_obj_header_expect(block@, expect, what),
    {
        let hdr = Self::parse(block)?;
        if hdr.base_type() != expect {
            return Err(Error::Parse(what));
        }
        Ok(hdr)
    }
}

} // verus!
