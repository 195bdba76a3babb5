//! Generic APFS B-tree traversal (`btree_node_phys_t`).
//!
//! APFS B-trees store keys and values inside 4 KiB (default) nodes. A node
//! is laid out as: 32-byte object header, node header, table of contents,
//! key area (grows up), free space, value area (grows down from the end of
//! the block; in a root node, from just before the trailing `btree_info_t`).
//!
//! Child pointers in non-leaf nodes are `u64` object ids whose meaning
//! depends on the tree: physical block addresses for object-map trees,
//! virtual oids (resolved through the volume's omap) for file-system trees.
//!
//! A node is entirely determined by its block bytes, so the specifications
//! below describe every traversal as a function of the bytes the node
//! source hands out.

use crate::error::{same_error, Error};
use crate::obj::{spec_obj_header_expect, ObjHeader, OBJ_HDR_SIZE};
use crate::raw::{le16, le32, le64, offset_out_of_range, truncated, SliceReader};
use crate::types::{
    BTNODE_FIXED_KV_SIZE, BTNODE_LEAF, BTNODE_ROOT, BTOFF_INVALID, BTREE_INFO_SIZE,
    OBJECT_TYPE_BTREE, OBJECT_TYPE_BTREE_NODE,
};
use crate::Result;
use vstd::prelude::*;
use vstd::slice::slice_subrange;

verus! {

/// Node header fields that follow the 32-byte object header.
#[derive(Debug, Clone, Copy, PartialEq, Eq, Structural)]
pub struct NodeHeader {
    pub flags: u16,
    pub level: u16,
    pub nkeys: u32,
    pub table_off: u16,
    pub table_len: u16,
    pub free_off: u16,
    pub free_len: u16,
}

pub const BTNODE_HDR_SIZE: usize = OBJ_HDR_SIZE + 24;

/// A parsed B-tree node (owns its block).
pub struct Node {
    pub obj: ObjHeader,
    pub hdr: NodeHeader,
    pub block: Vec<u8>,
}

// ---------------------------------------------------------------------
// Specification of the node layout
// ---------------------------------------------------------------------

pub open spec fn spec_node_rest(b: Seq<u8>, obj: ObjHeader) -> core::result::Result<(ObjHeader, NodeHeader), Error> {
    if b.len() < 48 {
        Err(truncated())
    } else {
        let hdr = NodeHeader {
            flags: le16(b, 32) as u16,
            level: le16(b, 34) as u16,
            nkeys: le32(b, 36) as u32,
            table_off: le16(b, 40) as u16,
            table_len: le16(b, 42) as u16,
            free_off: le16(b, 44) as u16,
            free_len: le16(b, 46) as u16,
        };
        if hdr.nkeys > 4096 {
            Err(Error::Corrupt("btree node claims too many keys"))
        } else {
            Ok((obj, hdr))
        }
    }
}

/// The object and node headers a valid node block carries.
pub open spec fn spec_node_header(b: Seq<u8>) -> core::result::Result<(ObjHeader, NodeHeader), Error> {
    match spec_obj_header_expect(b, OBJECT_TYPE_BTREE_NODE, "expected btree node") {
        Ok(h) => spec_node_rest(b, h),
        Err(_) => match spec_obj_header_expect(b, OBJECT_TYPE_BTREE, "expected btree(-node) object") {
            Ok(h) => spec_node_rest(b, h),
            Err(e) => Err(e),
        },
    }
}

/// The node header of a block that parses as a node.
pub open spec fn hdr_of(b: Seq<u8>) -> NodeHeader {
    spec_node_header(b)->Ok_0.1
}

/// Keep a loaded block only if it parses as a node.
pub open spec fn as_node_block(r: core::result::Result<Seq<u8>, Error>) -> core::result::Result<Seq<u8>, Error> {
    match r {
        Ok(b) => match spec_node_header(b) {
            Ok(_) => Ok(b),
            Err(e) => Err(e),
        },
        Err(e) => Err(e),
    }
}

pub open spec fn is_leaf_hdr(h: NodeHeader) -> bool {
    h.flags & BTNODE_LEAF != 0
}

pub open spec fn is_root_hdr(h: NodeHeader) -> bool {
    h.flags & BTNODE_ROOT != 0
}

pub open spec fn fixed_kv_hdr(h: NodeHeader) -> bool {
    h.flags & BTNODE_FIXED_KV_SIZE != 0
}

pub open spec fn spec_key_area(h: NodeHeader) -> int {
    56 + h.table_off + h.table_len
}

pub open spec fn spec_toc_start(h: NodeHeader) -> int {
    56 + h.table_off
}

pub open spec fn spec_val_area_end(h: NodeHeader, len: int) -> int {
    if is_root_hdr(h) {
        if len >= 40 { len - 40 } else { 0 }
    } else {
        len
    }
}

/// Table-of-contents entry `i`: (key offset, key length, value offset,
/// value length); lengths are absent in fixed-size trees.
pub open spec fn spec_toc_entry(h: NodeHeader, b: Seq<u8>, i: int) -> core::result::Result<
    (u16, Option<u16>, u16, Option<u16>),
    Error,
> {
    if i >= h.nkeys {
        Err(Error::Corrupt("btree toc index out of range"))
    } else if fixed_kv_hdr(h) {
        let off = spec_toc_start(h) + i * 4;
        if off > b.len() {
            Err(offset_out_of_range())
        } else if off + 4 > b.len() {
            Err(truncated())
        } else {
            Ok((le16(b, off) as u16, None, le16(b, off + 2) as u16, None))
        }
    } else {
        let off = spec_toc_start(h) + i * 8;
        if off > b.len() {
            Err(offset_out_of_range())
        } else if off + 8 > b.len() {
            Err(truncated())
        } else {
            Ok((
                le16(b, off) as u16,
                Some(le16(b, off + 2) as u16),
                le16(b, off + 4) as u16,
                Some(le16(b, off + 6) as u16),
            ))
        }
    }
}

/// `b[start..start + len]`, or `Corrupt(msg)` when it does not fit.
pub open spec fn spec_slice(b: Seq<u8>, start: int, len: int, msg: &'static str) -> core::result::Result<
    Seq<u8>,
    Error,
> {
    if start + len > usize::MAX || start + len > b.len() {
        Err(Error::Corrupt(msg))
    } else {
        Ok(b.subrange(start, start + len))
    }
}

/// Key bytes of entry `i`.
pub open spec fn spec_key(h: NodeHeader, b: Seq<u8>, i: int, fixed_key_size: int) -> core::result::Result<
    Seq<u8>,
    Error,
> {
    match spec_toc_entry(h, b, i) {
        Ok((koff, klen, _, _)) => {
            let len = match klen {
                Some(l) => l as int,
                None => fixed_key_size,
            };
            spec_slice(b, spec_key_area(h) + koff, len, "btree key out of bounds")
        },
        Err(e) => Err(e),
    }
}

/// Value bytes of entry `i` (`None` for a ghost record).
pub open spec fn spec_value(
    h: NodeHeader,
    b: Seq<u8>,
    i: int,
    fixed_val_size: int,
    nonleaf_val_size: int,
) -> core::result::Result<Option<Seq<u8>>, Error> {
    match spec_toc_entry(h, b, i) {
        Ok((_, _, voff, vlen)) => {
            if voff == BTOFF_INVALID {
                Ok(None)
            } else {
                let len = match vlen {
                    Some(l) => l as int,
                    None => if is_leaf_hdr(h) {
                        fixed_val_size
                    } else {
                        nonleaf_val_size
                    },
                };
                let end = spec_val_area_end(h, b.len() as int);
                if end < voff {
                    Err(Error::Corrupt("btree value offset past area"))
                } else {
                    match spec_slice(b, end - voff, len, "btree value out of bounds") {
                        Ok(s) => Ok(Some(s)),
                        Err(e) => Err(e),
                    }
                }
            }
        },
        Err(e) => Err(e),
    }
}

/// The view of an optional borrowed slice.
pub open spec fn opt_view(v: Option<&[u8]>) -> Option<Seq<u8>> {
    match v {
        Some(s) => Some(s@),
        None => None,
    }
}

impl Node {
    /// The header fields are those the block carries.
    pub open spec fn wf(&self) -> bool {
        spec_node_header(self.block@) == Ok::<(ObjHeader, NodeHeader), Error>((self.obj, self.hdr))
    }

    fn parse_rest(block: Vec<u8>, obj: ObjHeader) -> (r: Result<Node>)
        requires
            block@.len() >= 32,
        ensures
            match spec_node_rest(block@, obj) {
                Ok((o, h)) => r matches Ok(n) && n.obj == o && n.hdr == h && n.block@ == block@,
                Err(e) => r == Err::<Node, Error>(e),
            },
    {
        let mut r = SliceReader::at(block.as_slice(), OBJ_HDR_SIZE)?;
        let flags = r.u16()?;
        let level = r.u16()?;
        let nkeys = r.u32()?;
        let table_off = r.u16()?;
        let table_len = r.u16()?;
        let free_off = r.u16()?;
        let free_len = r.u16()?;
        let hdr = NodeHeader { flags, level, nkeys, table_off, table_len, free_off, free_len };
        if nkeys > 4096 {
            return Err(Error::Corrupt("btree node claims too many keys"));
        }
        Ok(Node { obj, hdr, block })
    }

    pub fn parse(block: Vec<u8>) -> (r: Result<Node>)
        ensures
            match spec_node_header(block@) {
                Ok(_) => r matches Ok(n) && n.wf() && n.block@ == block@,
                Err(e) => r == Err::<Node, Error>(e),
            },
    {
        let obj = match ObjHeader::parse_expect(block.as_slice(), OBJECT_TYPE_BTREE_NODE, "expected btree node") {
            Ok(h) => h,
            Err(_) => ObjHeader::parse_expect(
                block.as_slice(),
                OBJECT_TYPE_BTREE,
                "expected btree(-node) object",
            )?,
        };
        Self::parse_rest(block, obj)
    }

    pub fn is_leaf(&self) -> (b: bool)
        ensures
            b == is_leaf_hdr(self.hdr),
    {
        self.hdr.flags & BTNODE_LEAF != 0
    }

    pub fn is_root(&self) -> (b: bool)
        ensures
            b == is_root_hdr(self.hdr),
    {
        self.hdr.flags & BTNODE_ROOT != 0
    }

    pub fn fixed_kv(&self) -> (b: bool)
        ensures
            b == fixed_kv_hdr(self.hdr),
    {
        self.hdr.flags & BTNODE_FIXED_KV_SIZE != 0
    }

    /// Byte offset of the start of the key area within the block.
    fn key_area(&self) -> (r: usize)
        ensures
            r == spec_key_area(self.hdr),
    {
        BTNODE_HDR_SIZE + self.hdr.table_off as usize + self.hdr.table_len as usize
    }

    /// Offset one past the end of the value area.
    fn val_area_end(&self) -> (r: usize)
        ensures
            r == spec_val_area_end(self.hdr, self.block@.len() as int),
    {
        if self.is_root() {
            self.block.len().saturating_sub(BTREE_INFO_SIZE)
        } else {
            self.block.len()
        }
    }

    /// Start of the table of contents within the block.
    fn toc_start(&self) -> (r: usize)
        ensures
            r == spec_toc_start(self.hdr),
    {
        BTNODE_HDR_SIZE + self.hdr.table_off as usize
    }

    /// Read the ToC entry `i` → (key_off, key_len, val_off, val_len).
    fn toc_entry(&self, i: usize) -> (r: Result<(u16, Option<u16>, u16, Option<u16>)>)
        ensures
            r == spec_toc_entry(self.hdr, self.block@, i as int),
    {
        if i >= self.hdr.nkeys as usize {
            return Err(Error::Corrupt("btree toc index out of range"));
        }
        let width: u64 = if self.fixed_kv() { 4 } else { 8 };
        let off64 = self.toc_start() as u64 + i as u64 * width;
        if off64 > self.block.len() as u64 {
            return Err(Error::Parse("reader offset out of range"));
        }
        let mut r = SliceReader::at(self.block.as_slice(), off64 as usize)?;
        if self.fixed_kv() {
            let k = r.u16()?;
            let v = r.u16()?;
            Ok((k, None, v, None))
        } else {
            let k = r.u16()?;
            let klen = r.u16()?;
            let v = r.u16()?;
            let vlen = r.u16()?;
            Ok((k, Some(klen), v, Some(vlen)))
        }
    }

    /// Key bytes for entry `i`. `fixed_key_size` comes from the tree info
    /// (only used when the node has fixed-size keys/values).
    pub fn key(&self, i: usize, fixed_key_size: usize) -> (r: Result<&[u8]>)
        ensures
            match spec_key(self.hdr, self.block@, i as int, fixed_key_size as int) {
                Ok(k) => r matches Ok(s) && s@ == k,
                Err(e) => r matches Err(e2) && e2 == e,
            },
    {
        let (koff, klen, _, _) = self.toc_entry(i)?;
        let len = match klen {
            Some(l) => l as usize,
            None => fixed_key_size,
        };
        let start = self.key_area() + koff as usize;
        self.slice(start, len, "btree key out of bounds")
    }

    /// Value bytes for entry `i`, or `None` for a ghost record.
    pub fn value(&self, i: usize, fixed_val_size: usize, nonleaf_val_size: usize) -> (r: Result<Option<&[u8]>>)
        ensures
            match spec_value(self.hdr, self.block@, i as int, fixed_val_size as int, nonleaf_val_size as int) {
                Ok(v) => r matches Ok(s) && opt_view(s) == v,
                Err(e) => r matches Err(e2) && e2 == e,
            },
    {
        let (_, _, voff, vlen) = self.toc_entry(i)?;
        if voff == BTOFF_INVALID {
            return Ok(None);
        }
        let len = match vlen {
            Some(l) => l as usize,
            None => {
                if self.is_leaf() {
                    fixed_val_size
                } else {
                    nonleaf_val_size
                }
            },
        };
        let end = self.val_area_end();
        if end < voff as usize {
            return Err(Error::Corrupt("btree value offset past area"));
        }
        let start = end - voff as usize;
        let s = self.slice(start, len, "btree value out of bounds")?;
        Ok(Some(s))
    }

    fn slice(&self, start: usize, len: usize, msg: &'static str) -> (r: Result<&[u8]>)
        ensures
            match spec_slice(self.block@, start as int, len as int, msg) {
                Ok(k) => r matches Ok(s) && s@ == k,
                Err(e) => r matches Err(e2) && e2 == e,
            },
    {
        let end = match start.checked_add(len) {
            Some(e) => e,
            None => return Err(Error::Corrupt(msg)),
        };
        if end > self.block.len() {
            return Err(Error::Corrupt(msg));
        }
        Ok(slice_subrange(self.block.as_slice(), start, end))
    }
}


/// `btree_info_fixed_t` + counters from the end of a root node.
#[derive(Debug, Clone, Copy, PartialEq, Eq, Structural)]
pub struct TreeInfo {
    pub flags: u32,
    pub node_size: u32,
    pub key_size: u32,
    pub val_size: u32,
    pub key_count: u64,
    pub node_count: u64,
}

/// The tree info stored at the end of a root node's block.
pub open spec fn spec_tree_info(h: NodeHeader, b: Seq<u8>) -> core::result::Result<TreeInfo, Error> {
    if !is_root_hdr(h) {
        Err(Error::Corrupt("tree info requested from non-root node"))
    } else if b.len() < 40 {
        Err(Error::Corrupt("block smaller than btree info"))
    } else {
        let off = b.len() - 40;
        Ok(TreeInfo {
            flags: le32(b, off) as u32,
            node_size: le32(b, off + 4) as u32,
            key_size: le32(b, off + 8) as u32,
            val_size: le32(b, off + 12) as u32,
            key_count: le64(b, off + 24) as u64,
            node_count: le64(b, off + 32) as u64,
        })
    }
}

impl TreeInfo {
    pub fn parse(root: &Node) -> (r: Result<TreeInfo>)
        ensures
            r == spec_tree_info(root.hdr, root.block@),
    {
        if !root.is_root() {
            return Err(Error::Corrupt("tree info requested from non-root node"));
        }
        let off = match root.block.len().checked_sub(BTREE_INFO_SIZE) {
            Some(o) => o,
            None => return Err(Error::Corrupt("block smaller than btree info")),
        };
        let mut r = SliceReader::at(root.block.as_slice(), off)?;
        let flags = r.u32()?;
        let node_size = r.u32()?;
        let key_size = r.u32()?;
        let val_size = r.u32()?;
        r.skip(8)?;
        let key_count = r.u64()?;
        let node_count = r.u64()?;
        Ok(TreeInfo { flags, node_size, key_size, val_size, key_count, node_count })
    }
}

/// How an entry's key compares to a search target.
#[derive(Debug, Clone, Copy, PartialEq, Eq, Structural)]
pub enum KeyOrder {
    Less,
    Equal,
    Greater,
}

/// A search target: compares an entry's key bytes against itself
/// (`Less` when the entry sorts before the target).
pub trait KeyCompare {
    spec fn spec_compare(&self, key: Seq<u8>) -> core::result::Result<KeyOrder, Error>;

    fn compare(&self, key: &[u8]) -> (r: Result<KeyOrder>)
        ensures
            r == self.spec_compare(key@),
    ;
}

/// How to load a child node given the u64 stored in a non-leaf value.
pub trait NodeSource {
    /// The block of the node a child reference designates (already known
    /// to parse as a node), or why it cannot be loaded.
    spec fn spec_node_block(&self, child_ref: u64) -> core::result::Result<Seq<u8>, Error>;

    fn load_node(&self, child_ref: u64) -> (r: Result<Node>)
        ensures
            node_result(r, self.spec_node_block(child_ref)),
    ;
}

/// `r` is the node whose block `s` describes, or fails the same way.
pub open spec fn node_result(r: Result<Node>, s: core::result::Result<Seq<u8>, Error>) -> bool {
    match r {
        Ok(n) => s == Ok::<Seq<u8>, Error>(n.block@) && n.wf(),
        Err(e) => s matches Err(e2) && same_error(e, e2),
    }
}

/// Search result position within a node.
#[derive(Debug, Clone, Copy, PartialEq, Eq)]
pub enum SearchPos {
    /// Exact match at index.
    Found(usize),
    /// No exact match; index of the greatest entry `< key` (None if all
    /// entries are greater).
    Before(Option<usize>),
}

/// The binary search of entries `lo..hi` for the target `c`.
pub open spec fn spec_search<C: KeyCompare>(
    h: NodeHeader,
    b: Seq<u8>,
    fixed_key_size: int,
    c: C,
    lo: int,
    hi: int,
) -> core::result::Result<SearchPos, Error>
    decreases hi - lo,
{
    if lo < hi {
        let mid = (lo + hi) / 2;
        match spec_key(h, b, mid, fixed_key_size) {
            Err(e) => Err(e),
            Ok(k) => match c.spec_compare(k) {
                Err(e) => Err(e),
                Ok(KeyOrder::Less) => spec_search(h, b, fixed_key_size, c, mid + 1, hi),
                Ok(KeyOrder::Greater) => spec_search(h, b, fixed_key_size, c, lo, mid),
                Ok(KeyOrder::Equal) => Ok(SearchPos::Found(mid as usize)),
            },
        }
    } else if lo == 0 {
        Ok(SearchPos::Before(None))
    } else {
        Ok(SearchPos::Before(Some((lo - 1) as usize)))
    }
}

/// Binary-search a node's keys with `target`.
#[verifier::rlimit(30)]
pub fn search_node<C: KeyCompare>(node: &Node, fixed_key_size: usize, target: &C) -> (r: Result<SearchPos>)
    ensures
        r == spec_search(node.hdr, node.block@, fixed_key_size as int, *target, 0, node.hdr.nkeys as int),
{
    let n = node.hdr.nkeys as usize;
    let mut lo = 0usize;
    let mut hi = n;
    while lo < hi
        invariant
            0 <= lo <= hi <= n,
            n == node.hdr.nkeys,
            spec_search(node.hdr, node.block@, fixed_key_size as int, *target, 0, n as int)
                == spec_search(node.hdr, node.block@, fixed_key_size as int, *target, lo as int, hi as int),
        decreases hi - lo,
    {
        let mid = lo + (hi - lo) / 2;
        assert(mid == (lo + hi) / 2);
        let key = node.key(mid, fixed_key_size)?;
        match target.compare(key)? {
            KeyOrder::Less => lo = mid + 1,
            KeyOrder::Greater => hi = mid,
            KeyOrder::Equal => return Ok(SearchPos::Found(mid)),
        }
    }
    if lo == 0 {
        Ok(SearchPos::Before(None))
    } else {
        Ok(SearchPos::Before(Some(lo - 1)))
    }
}

/// The error for a tree deeper than the traversal limit.
pub open spec fn too_deep() -> Error {
    Error::Corrupt("btree deeper than 16 levels")
}

/// The child a non-leaf value designates.
pub open spec fn spec_child_ref(v: core::result::Result<Option<Seq<u8>>, Error>) -> core::result::Result<u64, Error> {
    match v {
        Err(e) => Err(e),
        Ok(None) => Err(Error::Corrupt("ghost value in non-leaf node")),
        Ok(Some(val)) => if val.len() < 8 {
            Err(Error::Corrupt("non-leaf value shorter than oid"))
        } else {
            Ok(le64(val, 0) as u64)
        },
    }
}

/// The block of the child that a descent through the node (`h`, `b`)
/// follows towards the target.
pub open spec fn spec_descend_step<S: NodeSource, C: KeyCompare>(
    src: S,
    h: NodeHeader,
    b: Seq<u8>,
    info: TreeInfo,
    c: C,
) -> core::result::Result<Seq<u8>, Error> {
    match spec_search(h, b, info.key_size as int, c, 0, h.nkeys as int) {
        Err(e) => Err(e),
        Ok(pos) => {
            let idx = match pos {
                SearchPos::Found(i) => i as int,
                SearchPos::Before(Some(i)) => i as int,
                SearchPos::Before(None) => 0,
            };
            match spec_child_ref(spec_value(h, b, idx, info.val_size as int, 8)) {
                Err(e) => Err(e),
                Ok(child) => src.spec_node_block(child),
            }
        },
    }
}

/// Descent from the node (`h`, `b`) at depth `depth` to the leaf that may
/// hold the target.
pub open spec fn spec_descend<S: NodeSource, C: KeyCompare>(
    src: S,
    h: NodeHeader,
    b: Seq<u8>,
    info: TreeInfo,
    c: C,
    depth: int,
) -> core::result::Result<Seq<u8>, Error>
    decreases 17 - depth,
{
    if is_leaf_hdr(h) {
        Ok(b)
    } else if depth + 1 > 16 || depth < 0 {
        Err(too_deep())
    } else {
        match spec_descend_step(src, h, b, info, c) {
            Err(e) => Err(e),
            Ok(cb) => spec_descend(src, hdr_of(cb), cb, info, c, depth + 1),
        }
    }
}

/// Read the child reference out of a non-leaf value.
fn child_ref(v: Result<Option<&[u8]>>) -> (r: Result<u64>)
    ensures
        match v {
            Ok(o) => r == spec_child_ref(Ok(opt_view(o))),
            Err(e) => r == Err::<u64, Error>(e),
        },
{
    let val = match v? {
        Some(val) => val,
        None => return Err(Error::Corrupt("ghost value in non-leaf node")),
    };
    if val.len() < 8 {
        return Err(Error::Corrupt("non-leaf value shorter than oid"));
    }
    let mut r = SliceReader::new(val);
    Ok(r.u64()?)
}

/// One step of a descent: load the child that leads towards the target.
fn descend_step<S: NodeSource, C: KeyCompare>(source: &S, node: &Node, info: &TreeInfo, target: &C) -> (r: Result<Node>)
    ensures
        node_result(r, spec_descend_step(*source, node.hdr, node.block@, *info, *target)),
{
    let pos = search_node(node, info.key_size as usize, target)?;
    let idx = match pos {
        SearchPos::Found(i) => i,
        SearchPos::Before(Some(i)) => i,
        SearchPos::Before(None) => 0,
    };
    let child = child_ref(node.value(idx, info.val_size as usize, 8))?;
    source.load_node(child)
}

/// Continue a descent from `node`, already `depth` levels below the root.
fn descend_from<S: NodeSource, C: KeyCompare>(
    source: &S,
    node: Node,
    info: &TreeInfo,
    target: &C,
    depth: u32,
) -> (r: Result<Node>)
    requires
        depth <= 16,
    ensures
        match r {
            Ok(n) => spec_descend(*source, node.hdr, node.block@, *info, *target, depth as int)
                == Ok::<Seq<u8>, Error>(n.block@)
                && is_leaf_hdr(n.hdr)
                && (n.wf() || (n.block@ == node.block@ && n.hdr == node.hdr && n.obj == node.obj)),
            Err(e) => spec_descend(*source, node.hdr, node.block@, *info, *target, depth as int) matches Err(e2)
                && same_error(e, e2),
        },
    decreases 16 - depth,
{
    if node.is_leaf() {
        return Ok(node);
    }
    if depth + 1 > 16 {
        return Err(Error::Corrupt("btree deeper than 16 levels"));
    }
    let next = descend_step(source, &node, info, target)?;
    assert(next.hdr == hdr_of(next.block@));
    descend_from(source, next, info, target, depth + 1)
}

/// Descend from a root to the leaf that may contain the target.
pub fn descend_to_leaf<S: NodeSource, C: KeyCompare>(
    source: &S,
    root: Node,
    info: &TreeInfo,
    target: &C,
) -> (r: Result<Node>)
    ensures
        match r {
            Ok(n) => spec_descend(*source, root.hdr, root.block@, *info, *target, 0)
                == Ok::<Seq<u8>, Error>(n.block@)
                && is_leaf_hdr(n.hdr)
                && (n.wf() || (n.block@ == root.block@ && n.hdr == root.hdr && n.obj == root.obj)),
            Err(e) => spec_descend(*source, root.hdr, root.block@, *info, *target, 0) matches Err(e2)
                && same_error(e, e2),
        },
{
    descend_from(source, root, info, target, 0)
}

/// A consumer of leaf entries in key order. `visit` returns `false` to stop
/// the traversal.
pub trait LeafVisitor: View + Sized {
    /// The state after visiting one entry, and what `visit` returns.
    spec fn spec_visit(s: Self::V, key: Seq<u8>, val: Option<Seq<u8>>) -> (Self::V, core::result::Result<bool, Error>);

    fn visit(&mut self, key: &[u8], val: Option<&[u8]>) -> (r: Result<bool>)
        ensures
            final(self)@ == Self::spec_visit(old(self)@, key@, opt_view(val)).0,
            r == Self::spec_visit(old(self)@, key@, opt_view(val)).1,
    ;
}

/// A traversal outcome `(st, r)` is the specified one, up to the payload of
/// device I/O errors.
pub open spec fn outcome_matches<T>(st: T, r: Result<bool>, s: (T, core::result::Result<bool, Error>)) -> bool {
    &&& st == s.0
    &&& match r {
        Ok(b) => s.1 == Ok::<bool, Error>(b),
        Err(e) => s.1 matches Err(e2) && same_error(e, e2),
    }
}

/// Visit the entries `i..n` of a leaf.
pub open spec fn spec_visit_leaf<V: LeafVisitor>(
    h: NodeHeader,
    b: Seq<u8>,
    info: TreeInfo,
    st: V::V,
    i: int,
    n: int,
) -> (V::V, core::result::Result<bool, Error>)
    decreases n - i,
{
    if i >= n {
        (st, Ok(true))
    } else {
        match spec_key(h, b, i, info.key_size as int) {
            Err(e) => (st, Err(e)),
            Ok(k) => match spec_value(h, b, i, info.val_size as int, 8) {
                Err(e) => (st, Err(e)),
                Ok(v) => {
                    let (st2, r) = V::spec_visit(st, k, v);
                    match r {
                        Err(e) => (st2, Err(e)),
                        Ok(false) => (st2, Ok(false)),
                        Ok(true) => spec_visit_leaf::<V>(h, b, info, st2, i + 1, n),
                    }
                },
            },
        }
    }
}

/// First index in `lo..hi` whose key does not sort before the target.
pub open spec fn spec_lower_bound<C: KeyCompare>(
    h: NodeHeader,
    b: Seq<u8>,
    fixed_key_size: int,
    c: C,
    lo: int,
    hi: int,
) -> core::result::Result<int, Error>
    decreases hi - lo,
{
    if lo < hi {
        let mid = (lo + hi) / 2;
        match spec_key(h, b, mid, fixed_key_size) {
            Err(e) => Err(e),
            Ok(k) => match c.spec_compare(k) {
                Err(e) => Err(e),
                Ok(o) => if o == KeyOrder::Less {
                    spec_lower_bound(h, b, fixed_key_size, c, mid + 1, hi)
                } else {
                    spec_lower_bound(h, b, fixed_key_size, c, lo, mid)
                },
            },
        }
    } else {
        Ok(lo)
    }
}

/// Ordered scan of the subtree (`h`, `b`) from the first entry not before
/// the target.
pub open spec fn spec_scan_node<S: NodeSource, C: KeyCompare, V: LeafVisitor>(
    src: S,
    h: NodeHeader,
    b: Seq<u8>,
    info: TreeInfo,
    c: C,
    st: V::V,
    depth: int,
) -> (V::V, core::result::Result<bool, Error>)
    decreases 17 - depth, 0x1_0000_0001int,
{
    if depth > 16 || depth < 0 {
        (st, Err(too_deep()))
    } else {
        match spec_lower_bound(h, b, info.key_size as int, c, 0, h.nkeys as int) {
            Err(e) => (st, Err(e)),
            Ok(lb) => if is_leaf_hdr(h) {
                spec_visit_leaf::<V>(h, b, info, st, lb, h.nkeys as int)
            } else {
                spec_scan_children::<S, C, V>(src, h, b, info, c, st, depth, if lb > 0 { lb - 1 } else { 0 }, h.nkeys as int)
            },
        }
    }
}

/// Scan the children `i..n` of the internal node (`h`, `b`).
pub open spec fn spec_scan_children<S: NodeSource, C: KeyCompare, V: LeafVisitor>(
    src: S,
    h: NodeHeader,
    b: Seq<u8>,
    info: TreeInfo,
    c: C,
    st: V::V,
    depth: int,
    i: int,
    n: int,
) -> (V::V, core::result::Result<bool, Error>)
    decreases 17 - depth, if i < n { n - i } else { 0 },
{
    if i >= n {
        (st, Ok(true))
    } else if depth > 16 || depth < 0 {
        (st, Err(too_deep()))
    } else {
        match spec_child_ref(spec_value(h, b, i, info.val_size as int, 8)) {
            Err(e) => (st, Err(e)),
            Ok(child) => match src.spec_node_block(child) {
                Err(e) => (st, Err(e)),
                Ok(cb) => {
                    let (st2, r) = spec_scan_node::<S, C, V>(src, hdr_of(cb), cb, info, c, st, depth + 1);
                    match r {
                        Err(e) => (st2, Err(e)),
                        Ok(false) => (st2, Ok(false)),
                        Ok(true) => spec_scan_children::<S, C, V>(src, h, b, info, c, st2, depth, i + 1, n),
                    }
                },
            },
        }
    }
}

fn visit_leaf<V: LeafVisitor>(node: &Node, info: &TreeInfo, f: &mut V, start: usize) -> (r: Result<bool>)
    ensures
        (final(f)@, r) == spec_visit_leaf::<V>(node.hdr, node.block@, *info, old(f)@, start as int, node.hdr.nkeys as int),
{
    let n = node.hdr.nkeys as usize;
    let mut i = start;
    if i >= n {
        return Ok(true);
    }
    while i < n
        invariant
            start <= i <= n,
            n == node.hdr.nkeys,
            spec_visit_leaf::<V>(node.hdr, node.block@, *info, old(f)@, start as int, n as int)
                == spec_visit_leaf::<V>(node.hdr, node.block@, *info, f@, i as int, n as int),
        decreases n - i,
    {
        let key = node.key(i, info.key_size as usize)?;
        let val = node.value(i, info.val_size as usize, 8)?;
        if !f.visit(key, val)? {
            return Ok(false);
        }
        i += 1;
    }
    Ok(true)
}

fn lower_bound<C: KeyCompare>(node: &Node, fixed_key_size: usize, target: &C) -> (r: Result<usize>)
    ensures
        match r {
            Ok(lb) => spec_lower_bound(node.hdr, node.block@, fixed_key_size as int, *target, 0, node.hdr.nkeys as int)
                == Ok::<int, Error>(lb as int) && lb <= node.hdr.nkeys,
            Err(e) => spec_lower_bound(node.hdr, node.block@, fixed_key_size as int, *target, 0, node.hdr.nkeys as int)
                == Err::<int, Error>(e),
        },
{
    let n = node.hdr.nkeys as usize;
    let mut lo = 0usize;
    let mut hi = n;
    while lo < hi
        invariant
            0 <= lo <= hi <= n,
            n == node.hdr.nkeys,
            spec_lower_bound(node.hdr, node.block@, fixed_key_size as int, *target, 0, n as int)
                == spec_lower_bound(node.hdr, node.block@, fixed_key_size as int, *target, lo as int, hi as int),
        decreases hi - lo,
    {
        let mid = lo + (hi - lo) / 2;
        assert(mid == (lo + hi) / 2);
        let key = node.key(mid, fixed_key_size)?;
        if target.compare(key)? == KeyOrder::Less {
            lo = mid + 1;
        } else {
            hi = mid;
        }
    }
    Ok(lo)
}

#[verifier::rlimit(30)]
fn scan_rec<S: NodeSource, C: KeyCompare, V: LeafVisitor>(
    source: &S,
    node: &Node,
    info: &TreeInfo,
    target: &C,
    f: &mut V,
    depth: u32,
) -> (r: Result<bool>)
    ensures
        outcome_matches(final(f)@, r, spec_scan_node::<S, C, V>(*source, node.hdr, node.block@, *info, *target, old(f)@, depth as int)),
    decreases 17 - depth, 0x1_0000_0001int,
{
    if depth > 16 {
        return Err(Error::Corrupt("btree deeper than 16 levels"));
    }
    let n = node.hdr.nkeys as usize;
    let lb = lower_bound(node, info.key_size as usize, target)?;
    if node.is_leaf() {
        return visit_leaf(node, info, f, lb);
    }
    let start = lb.saturating_sub(1);
    let mut i = start;
    while i < n
        invariant
            start <= i,
            i <= n || n <= start,
            n == node.hdr.nkeys,
            depth <= 16,
            spec_scan_node::<S, C, V>(*source, node.hdr, node.block@, *info, *target, old(f)@, depth as int)
                == spec_scan_children::<S, C, V>(*source, node.hdr, node.block@, *info, *target, f@, depth as int, i as int, n as int),
        decreases n - i,
    {
        let ghost cur = spec_scan_children::<S, C, V>(*source, node.hdr, node.block@, *info, *target, f@, depth as int, i as int, n as int);
        let child = match child_ref(node.value(i, info.val_size as usize, 8)) {
            Ok(c) => c,
            Err(e) => {
                assert(cur == (f@, Err::<bool, Error>(e)));
                return Err(e);
            },
        };
        let child_node = match source.load_node(child) {
            Ok(cn) => cn,
            Err(e) => {
                assert(cur.0 == f@ && (cur.1 matches Err(e2) && same_error(e, e2)));
                return Err(e);
            },
        };
        assert(child_node.hdr == hdr_of(child_node.block@));
        let ghost before = f@;
        let r = scan_rec(source, &child_node, info, target, f, depth + 1);
        let ghost sub = spec_scan_node::<S, C, V>(*source, child_node.hdr, child_node.block@, *info, *target, before, depth + 1);
        match r {
            Err(e) => {
                assert(cur.0 == f@ && (cur.1 matches Err(e2) && same_error(e, e2)));
                return Err(e);
            },
            Ok(false) => {
                assert(cur == (f@, Ok::<bool, Error>(false)));
                return Ok(false);
            },
            Ok(true) => {},
        }
        i += 1;
    }
    Ok(true)
}

/// Ordered scan starting at the first entry that does not sort before the
/// target; `f` sees entries in key order and returns `false` to stop.
pub fn scan_from<S: NodeSource, C: KeyCompare, V: LeafVisitor>(
    source: &S,
    node: Node,
    info: &TreeInfo,
    target: &C,
    f: &mut V,
) -> (r: Result<bool>)
    ensures
        outcome_matches(final(f)@, r, spec_scan_node::<S, C, V>(*source, node.hdr, node.block@, *info, *target, old(f)@, 0)),
{
    scan_rec(source, &node, info, target, f, 0)
}

/// Traversal of every leaf entry of the subtree (`h`, `b`) in key order.
pub open spec fn spec_walk_node<S: NodeSource, V: LeafVisitor>(
    src: S,
    h: NodeHeader,
    b: Seq<u8>,
    info: TreeInfo,
    st: V::V,
    depth: int,
) -> (V::V, core::result::Result<bool, Error>)
    decreases 17 - depth, 0x1_0000_0001int,
{
    if depth > 16 || depth < 0 {
        (st, Err(too_deep()))
    } else if is_leaf_hdr(h) {
        spec_visit_leaf::<V>(h, b, info, st, 0, h.nkeys as int)
    } else {
        spec_walk_children::<S, V>(src, h, b, info, st, depth, 0, h.nkeys as int)
    }
}

/// Traverse the children `i..n` of the internal node (`h`, `b`).
pub open spec fn spec_walk_children<S: NodeSource, V: LeafVisitor>(
    src: S,
    h: NodeHeader,
    b: Seq<u8>,
    info: TreeInfo,
    st: V::V,
    depth: int,
    i: int,
    n: int,
) -> (V::V, core::result::Result<bool, Error>)
    decreases 17 - depth, if i < n { n - i } else { 0 },
{
    if i >= n {
        (st, Ok(true))
    } else if depth > 16 || depth < 0 {
        (st, Err(too_deep()))
    } else {
        match spec_child_ref(spec_value(h, b, i, info.val_size as int, 8)) {
            Err(e) => (st, Err(e)),
            Ok(child) => match src.spec_node_block(child) {
                Err(e) => (st, Err(e)),
                Ok(cb) => {
                    let (st2, r) = spec_walk_node::<S, V>(src, hdr_of(cb), cb, info, st, depth + 1);
                    match r {
                        Err(e) => (st2, Err(e)),
                        Ok(false) => (st2, Ok(false)),
                        Ok(true) => spec_walk_children::<S, V>(src, h, b, info, st2, depth, i + 1, n),
                    }
                },
            },
        }
    }
}

#[verifier::rlimit(30)]
fn walk_rec<S: NodeSource, V: LeafVisitor>(source: &S, node: &Node, info: &TreeInfo, f: &mut V, depth: u32) -> (r: Result<bool>)
    ensures
        outcome_matches(final(f)@, r, spec_walk_node::<S, V>(*source, node.hdr, node.block@, *info, old(f)@, depth as int)),
    decreases 17 - depth, 0x1_0000_0001int,
{
    if depth > 16 {
        return Err(Error::Corrupt("btree deeper than 16 levels"));
    }
    let n = node.hdr.nkeys as usize;
    if node.is_leaf() {
        return visit_leaf(node, info, f, 0);
    }
    let mut i: usize = 0;
    while i < n
        invariant
            i <= n,
            n == node.hdr.nkeys,
            depth <= 16,
            spec_walk_node::<S, V>(*source, node.hdr, node.block@, *info, old(f)@, depth as int)
                == spec_walk_children::<S, V>(*source, node.hdr, node.block@, *info, f@, depth as int, i as int, n as int),
        decreases n - i,
    {
        let ghost cur = spec_walk_children::<S, V>(*source, node.hdr, node.block@, *info, f@, depth as int, i as int, n as int);
        let child = match child_ref(node.value(i, info.val_size as usize, 8)) {
            Ok(c) => c,
            Err(e) => {
                assert(cur == (f@, Err::<bool, Error>(e)));
                return Err(e);
            },
        };
        let child_node = match source.load_node(child) {
            Ok(cn) => cn,
            Err(e) => {
                assert(cur.0 == f@ && (cur.1 matches Err(e2) && same_error(e, e2)));
                return Err(e);
            },
        };
        assert(child_node.hdr == hdr_of(child_node.block@));
        let r = walk_rec(source, &child_node, info, f, depth + 1);
        match r {
            Err(e) => {
                assert(cur.0 == f@ && (cur.1 matches Err(e2) && same_error(e, e2)));
                return Err(e);
            },
            Ok(false) => {
                assert(cur == (f@, Ok::<bool, Error>(false)));
                return Ok(false);
            },
            Ok(true) => {},
        }
        i += 1;
    }
    Ok(true)
}

/// Iterate every leaf entry of a tree in key order; `f` returns `false` to
/// stop early.
pub fn walk_leaves<S: NodeSource, V: LeafVisitor>(source: &S, root: Node, info: &TreeInfo, f: &mut V) -> (r: Result<bool>)
    ensures
        outcome_matches(final(f)@, r, spec_walk_node::<S, V>(*source, root.hdr, root.block@, *info, old(f)@, 0)),
{
    walk_rec(source, &root, info, f, 0)
}

/// Every leaf record, as copies of its key and value bytes.
pub struct RecordCollector {
    pub records: Vec<(Vec<u8>, Option<Vec<u8>>)>,
}

/// The views of collected records.
pub open spec fn records_view(r: Seq<(Vec<u8>, Option<Vec<u8>>)>) -> Seq<(Seq<u8>, Option<Seq<u8>>)> {
    r.map_values(|p: (Vec<u8>, Option<Vec<u8>>)| (p.0@, match p.1 { Some(v) => Some(v@), None => None }))
}

impl View for RecordCollector {
    type V = Seq<(Seq<u8>, Option<Seq<u8>>)>;

    open spec fn view(&self) -> Self::V {
        records_view(self.records@)
    }
}

impl RecordCollector {
    pub fn new() -> (c: Self)
        ensures
            c@ == Seq::<(Seq<u8>, Option<Seq<u8>>)>::empty(),
    {
        let c = RecordCollector { records: Vec::new() };
        assert(c@ =~= Seq::<(Seq<u8>, Option<Seq<u8>>)>::empty());
        c
    }
}

pub fn copy_bytes(s: &[u8]) -> (v: Vec<u8>)
    ensures
        v@ == s@,
{
    let mut v: Vec<u8> = Vec::new();
    let mut i: usize = 0;
    while i < s.len()
        invariant
            i <= s@.len(),
            v@ == s@.take(i as int),
        decreases s@.len() - i,
    {
        v.push(s[i]);
        i += 1;
        assert(v@ =~= s@.take(i as int));
    }
    assert(s@.take(s@.len() as int) =~= s@);
    v
}

impl LeafVisitor for RecordCollector {
    open spec fn spec_visit(s: Self::V, key: Seq<u8>, val: Option<Seq<u8>>) -> (Self::V, core::result::Result<bool, Error>) {
        (s.push((key, val)), Ok(true))
    }

    fn visit(&mut self, key: &[u8], val: Option<&[u8]>) -> (r: Result<bool>) {
        let k = copy_bytes(key);
        let v = match val {
            Some(v) => Some(copy_bytes(v)),
            None => None,
        };
        let ghost old_recs = self.records@;
        self.records.push((k, v));
        assert(records_view(self.records@) =~= records_view(old_recs).push((key@, opt_view(val))));
        Ok(true)
    }
}

/// Key `i` of a node compares to the target as `o`.
pub open spec fn key_orders<C: KeyCompare>(h: NodeHeader, b: Seq<u8>, i: int, fks: int, c: C, o: KeyOrder) -> bool {
    match spec_key(h, b, i, fks) {
        Ok(k) => c.spec_compare(k) == Ok::<KeyOrder, Error>(o),
        Err(_) => false,
    }
}

/// What a binary search from `lo` reports: `Found(i)` only for a key that
/// compares equal to the target, `Before(Some(i))` only for the last key it
/// saw ordered below the target (or `lo - 1` when it never moved).
proof fn lemma_search_between<C: KeyCompare>(h: NodeHeader, b: Seq<u8>, fks: int, c: C, lo: int, hi: int)
    requires
        0 <= lo <= hi <= usize::MAX,
    ensures
        match spec_search(h, b, fks, c, lo, hi) {
            Ok(SearchPos::Found(i)) => key_orders(h, b, i as int, fks, c, KeyOrder::Equal),
            Ok(SearchPos::Before(Some(i))) => i == lo - 1 || key_orders(h, b, i as int, fks, c, KeyOrder::Less),
            Ok(SearchPos::Before(None)) => lo == 0,
            Err(_) => true,
        },
    decreases hi - lo,
{
    if lo < hi {
        let mid = (lo + hi) / 2;
        if let Ok(k) = spec_key(h, b, mid, fks) {
            if let Ok(o) = c.spec_compare(k) {
                assert(key_orders(h, b, mid, fks, c, o));
                match o {
                    KeyOrder::Less => lemma_search_between(h, b, fks, c, mid + 1, hi),
                    KeyOrder::Greater => lemma_search_between(h, b, fks, c, lo, mid),
                    KeyOrder::Equal => {},
                }
            }
        }
    }
}

/// A node search reports `Found(i)` only where key `i` equals the target
/// and `Before(Some(i))` only where key `i` orders below it.
pub proof fn lemma_search_node_result<C: KeyCompare>(h: NodeHeader, b: Seq<u8>, fks: int, c: C)
    ensures
        match spec_search(h, b, fks, c, 0, h.nkeys as int) {
            Ok(SearchPos::Found(i)) => key_orders(h, b, i as int, fks, c, KeyOrder::Equal),
            Ok(SearchPos::Before(Some(i))) => key_orders(h, b, i as int, fks, c, KeyOrder::Less),
            _ => true,
        },
{
    lemma_search_between(h, b, fks, c, 0, h.nkeys as int);
}

/// How key `i` of a node compares to the target.
pub open spec fn key_order_at<C: KeyCompare>(h: NodeHeader, b: Seq<u8>, i: int, fks: int, c: C) -> core::result::Result<
    KeyOrder,
    Error,
> {
    match spec_key(h, b, i, fks) {
        Err(e) => Err(e),
        Ok(k) => c.spec_compare(k),
    }
}

/// `Less` before `Equal` before `Greater`.
pub open spec fn order_rank(o: KeyOrder) -> int {
    match o {
        KeyOrder::Less => 0,
        KeyOrder::Equal => 1,
        KeyOrder::Greater => 2,
    }
}

/// Every key of the node compares to the target, and the comparisons never
/// go down as the index grows (the node is sorted as the target sees it).
pub open spec fn keys_ordered_for<C: KeyCompare>(h: NodeHeader, b: Seq<u8>, fks: int, c: C) -> bool {
    &&& forall|i: int| 0 <= i < h.nkeys ==> (#[trigger] key_order_at(h, b, i, fks, c)) is Ok
    &&& forall|i: int, j: int|
        0 <= i < j < h.nkeys ==> order_rank(#[trigger] key_order_at(h, b, i, fks, c)->Ok_0) <= order_rank(
            #[trigger] key_order_at(h, b, j, fks, c)->Ok_0,
        )
}

#[verifier::rlimit(30)]
proof fn lemma_search_bounds<C: KeyCompare>(h: NodeHeader, b: Seq<u8>, fks: int, c: C, lo: int, hi: int)
    requires
        keys_ordered_for(h, b, fks, c),
        0 <= lo <= hi <= h.nkeys,
        forall|i: int| 0 <= i < lo ==> #[trigger] key_order_at(h, b, i, fks, c) == Ok::<KeyOrder, Error>(KeyOrder::Less),
        forall|i: int|
            hi <= i < h.nkeys ==> #[trigger] key_order_at(h, b, i, fks, c) == Ok::<KeyOrder, Error>(KeyOrder::Greater),
    ensures
        match spec_search(h, b, fks, c, lo, hi) {
            Ok(SearchPos::Found(i)) => key_order_at(h, b, i as int, fks, c) == Ok::<KeyOrder, Error>(KeyOrder::Equal),
            Ok(SearchPos::Before(Some(i))) => key_order_at(h, b, i as int, fks, c) == Ok::<KeyOrder, Error>(KeyOrder::Less)
                && (i + 1 < h.nkeys ==> key_order_at(h, b, i + 1, fks, c) == Ok::<KeyOrder, Error>(KeyOrder::Greater)),
            Ok(SearchPos::Before(None)) => h.nkeys > 0 ==> key_order_at(h, b, 0, fks, c) == Ok::<KeyOrder, Error>(
                KeyOrder::Greater,
            ),
            Err(_) => false,
        },
    decreases hi - lo,
{
    if lo < hi {
        let mid = (lo + hi) / 2;
        assert(key_order_at(h, b, mid, fks, c) is Ok);
        let o = key_order_at(h, b, mid, fks, c)->Ok_0;
        match o {
            KeyOrder::Less => {
                assert forall|i: int| 0 <= i < mid + 1 implies #[trigger] key_order_at(h, b, i, fks, c) == Ok::<
                    KeyOrder,
                    Error,
                >(KeyOrder::Less) by {
                    if i < mid {
                        assert(key_order_at(h, b, i, fks, c) is Ok);
                        assert(order_rank(key_order_at(h, b, i, fks, c)->Ok_0) <= order_rank(key_order_at(h, b, mid, fks, c)->Ok_0));
                    }
                };
                lemma_search_bounds(h, b, fks, c, mid + 1, hi);
            },
            KeyOrder::Greater => {
                assert forall|i: int| mid <= i < h.nkeys implies #[trigger] key_order_at(h, b, i, fks, c) == Ok::<
                    KeyOrder,
                    Error,
                >(KeyOrder::Greater) by {
                    if i > mid {
                        assert(key_order_at(h, b, i, fks, c) is Ok);
                        assert(order_rank(key_order_at(h, b, mid, fks, c)->Ok_0) <= order_rank(key_order_at(h, b, i, fks, c)->Ok_0));
                    }
                };
                lemma_search_bounds(h, b, fks, c, lo, mid);
            },
            KeyOrder::Equal => {},
        }
    } else if lo > 0 {
        assert(key_order_at(h, b, lo - 1, fks, c) == Ok::<KeyOrder, Error>(KeyOrder::Less));
        if lo < h.nkeys {
            assert(key_order_at(h, b, lo, fks, c) == Ok::<KeyOrder, Error>(KeyOrder::Greater));
        }
    } else if h.nkeys > 0 {
        assert(key_order_at(h, b, 0, fks, c) == Ok::<KeyOrder, Error>(KeyOrder::Greater));
    }
}

/// On a node whose keys are sorted as the target sees them, the search is a
/// lower bound: it finds a key equal to the target, or else the last key
/// below it (the key after that one, if any, lies above the target), or,
/// when every key lies above the target, reports that.
pub proof fn lemma_search_lower_bound<C: KeyCompare>(h: NodeHeader, b: Seq<u8>, fks: int, c: C)
    requires
        keys_ordered_for(h, b, fks, c),
    ensures
        match spec_search(h, b, fks, c, 0, h.nkeys as int) {
            Ok(SearchPos::Found(i)) => key_order_at(h, b, i as int, fks, c) == Ok::<KeyOrder, Error>(KeyOrder::Equal),
            Ok(SearchPos::Before(Some(i))) => key_order_at(h, b, i as int, fks, c) == Ok::<KeyOrder, Error>(KeyOrder::Less)
                && (i + 1 < h.nkeys ==> key_order_at(h, b, i + 1, fks, c) == Ok::<KeyOrder, Error>(KeyOrder::Greater)),
            Ok(SearchPos::Before(None)) => h.nkeys > 0 ==> key_order_at(h, b, 0, fks, c) == Ok::<KeyOrder, Error>(
                KeyOrder::Greater,
            ),
            Err(_) => false,
        },
{
    lemma_search_bounds(h, b, fks, c, 0, h.nkeys as int);
}

} // verus!
