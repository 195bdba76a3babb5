//! Object map (`omap_phys_t`): maps virtual object ids + transaction ids to
//! physical block addresses.

use crate::btree::{
    self, as_node_block, hdr_of, key_order_at, keys_ordered_for, node_result, order_rank, spec_descend,
    spec_key, spec_search, spec_tree_info, spec_value, KeyCompare, KeyOrder, Node, NodeSource, SearchPos,
    TreeInfo,
};
use crate::container::{bytes_result, spec_load_checked, BlockLoader};
use crate::error::{same_error, Error};
use crate::obj::{spec_obj_header_expect, ObjHeader, OBJ_HDR_SIZE};
use crate::raw::{le32, le64, truncated, SliceReader};
use crate::types::{OBJECT_TYPE_OMAP, OMAP_VAL_DELETED, OMAP_VAL_ENCRYPTED};
use crate::Result;
use crate::scan::{lemma_descend_ok, lemma_descend_segment, ranked, spec_entries, spec_leaf_entries, spec_separated};
use vstd::prelude::*;

verus! {

#[derive(Debug, Clone, Copy, PartialEq, Eq, Structural)]
pub struct OmapEntry {
    pub oid: u64,
    pub xid: u64,
    pub flags: u32,
    pub size: u32,
    pub paddr: u64,
}

/// An object map: the physical address of its B-tree root.
pub struct Omap<'a, L: BlockLoader> {
    pub loader: &'a L,
    pub tree_oid: u64,
}

/// The tree root address an `omap_phys_t` at `paddr` names.
pub open spec fn spec_omap_open<L: BlockLoader>(l: L, paddr: u64) -> core::result::Result<u64, Error> {
    match spec_load_checked(l, paddr) {
        Err(e) => Err(e),
        Ok(b) => match spec_obj_header_expect(b, OBJECT_TYPE_OMAP, "expected omap object") {
            Err(e) => Err(e),
            Ok(_) => if b.len() < 56 {
                Err(truncated())
            } else {
                Ok(le64(b, 48) as u64)
            },
        },
    }
}

/// Object-map key order: by oid, then by xid.
#[derive(Clone, Copy)]
pub struct OmapKey {
    pub oid: u64,
    pub xid: u64,
}

impl KeyCompare for OmapKey {
    open spec fn spec_compare(&self, key: Seq<u8>) -> core::result::Result<KeyOrder, Error> {
        if key.len() < 16 {
            Err(truncated())
        } else {
            let k_oid = le64(key, 0);
            let k_xid = le64(key, 8);
            Ok(
                if k_oid < self.oid {
                    KeyOrder::Less
                } else if k_oid > self.oid {
                    KeyOrder::Greater
                } else if k_xid < self.xid {
                    KeyOrder::Less
                } else if k_xid > self.xid {
                    KeyOrder::Greater
                } else {
                    KeyOrder::Equal
                },
            )
        }
    }

    fn compare(&self, key: &[u8]) -> (r: Result<KeyOrder>) {
        let mut r = SliceReader::new(key);
        let k_oid = r.u64()?;
        let k_xid = r.u64()?;
        Ok(
            if k_oid < self.oid {
                KeyOrder::Less
            } else if k_oid > self.oid {
                KeyOrder::Greater
            } else if k_xid < self.xid {
                KeyOrder::Less
            } else if k_xid > self.xid {
                KeyOrder::Greater
            } else {
                KeyOrder::Equal
            },
        )
    }
}

/// The index a leaf search settles on, or the miss.
pub open spec fn spec_found_index(pos: SearchPos, oid: u64, xid: u64) -> core::result::Result<int, Error> {
    match pos {
        SearchPos::Found(i) => Ok(i as int),
        SearchPos::Before(Some(i)) => Ok(i as int),
        SearchPos::Before(None) => Err(Error::OmapMiss { oid, xid }),
    }
}

/// The mapping stored at entry `idx` of the leaf (`h`, `b`) for `oid`.
pub open spec fn spec_leaf_entry(
    h: btree::NodeHeader,
    b: Seq<u8>,
    info: TreeInfo,
    key_size: int,
    idx: int,
    oid: u64,
    xid: u64,
) -> core::result::Result<OmapEntry, Error> {
    match spec_key(h, b, idx, key_size) {
        Err(e) => Err(e),
        Ok(k) => if k.len() < 16 {
            Err(truncated())
        } else if le64(k, 0) != oid {
            Err(Error::OmapMiss { oid, xid })
        } else {
            match spec_value(h, b, idx, if info.val_size != 0 { info.val_size as int } else { 16 }, 8) {
                Err(e) => Err(e),
                Ok(None) => Err(Error::OmapMiss { oid, xid }),
                Ok(Some(v)) => if v.len() < 16 {
                    Err(truncated())
                } else if (le32(v, 0) as u32) & OMAP_VAL_DELETED != 0 {
                    Err(Error::OmapMiss { oid, xid })
                } else {
                    Ok(
                        OmapEntry {
                            oid: le64(k, 0) as u64,
                            xid: le64(k, 8) as u64,
                            flags: le32(v, 0) as u32,
                            size: le32(v, 4) as u32,
                            paddr: le64(v, 8) as u64,
                        },
                    )
                },
            }
        },
    }
}

/// The mapping for `oid` valid at `xid`: the greatest entry with the same
/// oid and an xid not after `xid`, found by descending the tree rooted at
/// `tree_oid`.
pub open spec fn spec_omap_lookup<L: BlockLoader>(om: Omap<L>, oid: u64, xid: u64) -> core::result::Result<OmapEntry, Error> {
    match as_node_block(spec_load_checked(*om.loader, om.tree_oid)) {
        Err(e) => Err(e),
        Ok(rb) => match spec_tree_info(hdr_of(rb), rb) {
            Err(e) => Err(e),
            Ok(info) => {
                let key_size = if info.key_size != 0 { info.key_size as int } else { 16 };
                let target = OmapKey { oid, xid };
                match spec_descend(om, hdr_of(rb), rb, info, target, 0) {
                    Err(e) => Err(e),
                    Ok(lb) => match spec_search(hdr_of(lb), lb, key_size, target, 0, hdr_of(lb).nkeys as int) {
                        Err(e) => Err(e),
                        Ok(pos) => match spec_found_index(pos, oid, xid) {
                            Err(e) => Err(e),
                            Ok(idx) => spec_leaf_entry(hdr_of(lb), lb, info, key_size, idx, oid, xid),
                        },
                    },
                }
            },
        },
    }
}

/// The block of the object a virtual oid resolves to at `xid`.
pub open spec fn spec_load_virtual<L: BlockLoader>(om: Omap<L>, oid: u64, xid: u64) -> core::result::Result<Seq<u8>, Error> {
    match spec_omap_lookup(om, oid, xid) {
        Err(e) => Err(e),
        Ok(entry) => if entry.flags & OMAP_VAL_ENCRYPTED != 0 {
            Err(Error::Encrypted)
        } else {
            spec_load_checked(*om.loader, entry.paddr)
        },
    }
}

/// `r` is the entry `s` describes, or fails the same way.
pub open spec fn entry_result(r: Result<OmapEntry>, s: core::result::Result<OmapEntry, Error>) -> bool {
    match r {
        Ok(e) => s == Ok::<OmapEntry, Error>(e),
        Err(e) => s matches Err(e2) && same_error(e, e2),
    }
}

impl<'a, L: BlockLoader> Omap<'a, L> {
    /// Parse an `omap_phys_t` located at physical block `paddr`.
    pub fn open(loader: &'a L, paddr: u64) -> (r: Result<Omap<'a, L>>)
        ensures
            match r {
                Ok(om) => spec_omap_open(*loader, paddr) == Ok::<u64, Error>(om.tree_oid) && om.loader == loader,
                Err(e) => spec_omap_open(*loader, paddr) matches Err(e2) && same_error(e, e2),
            },
    {
        let block = loader.load_checked(paddr)?;
        ObjHeader::parse_expect(block.as_slice(), OBJECT_TYPE_OMAP, "expected omap object")?;
        let mut r = SliceReader::at(block.as_slice(), OBJ_HDR_SIZE)?;
        let _flags = r.u32()?;
        let _snap_count = r.u32()?;
        let _tree_type = r.u32()?;
        let _snapshot_tree_type = r.u32()?;
        let tree_oid = r.u64()?;  // physical address of the root btree node
        Ok(Omap { loader, tree_oid })
    }

    /// Find the mapping for `oid` valid at `xid` (greatest entry with the
    /// same oid and `entry.xid <= xid`).
    pub fn lookup(&self, oid: u64, xid: u64) -> (r: Result<OmapEntry>)
        ensures
            entry_result(r, spec_omap_lookup(*self, oid, xid)),
    {
        let root = Node::parse(self.loader.load_checked(self.tree_oid)?)?;
        let info = TreeInfo::parse(&root)?;
        let key_size = if info.key_size != 0 { info.key_size } else { 16 } as usize;
        let target = OmapKey { oid, xid };
        let leaf = btree::descend_to_leaf(self, root, &info, &target)?;
        assert(leaf.hdr == hdr_of(leaf.block@));
        let idx = match btree::search_node(&leaf, key_size, &target)? {
            SearchPos::Found(i) => i,
            SearchPos::Before(Some(i)) => i,
            SearchPos::Before(None) => return Err(Error::OmapMiss { oid, xid }),
        };
        self.leaf_entry(&leaf, &info, key_size, idx, oid, xid)
    }

    fn leaf_entry(&self, leaf: &Node, info: &TreeInfo, key_size: usize, idx: usize, oid: u64, xid: u64) -> (r: Result<OmapEntry>)
        ensures
            r == spec_leaf_entry(leaf.hdr, leaf.block@, *info, key_size as int, idx as int, oid, xid),
    {
        let key = leaf.key(idx, key_size)?;
        let mut kr = SliceReader::new(key);
        let k_oid = kr.u64()?;
        let k_xid = kr.u64()?;
        if k_oid != oid {
            return Err(Error::OmapMiss { oid, xid });
        }
        let val = match leaf.value(idx, if info.val_size != 0 { info.val_size as usize } else { 16 }, 8)? {
            Some(v) => v,
            None => return Err(Error::OmapMiss { oid, xid }),
        };
        let mut vr = SliceReader::new(val);
        let flags = vr.u32()?;
        let size = vr.u32()?;
        let paddr = vr.u64()?;
        if flags & OMAP_VAL_DELETED != 0 {
            return Err(Error::OmapMiss { oid, xid });
        }
        Ok(OmapEntry { oid: k_oid, xid: k_xid, flags, size, paddr })
    }

    /// Resolve a virtual oid and load + checksum-validate its object block.
    pub fn load_virtual(&self, oid: u64, xid: u64) -> (r: Result<Vec<u8>>)
        ensures
            bytes_result(r, spec_load_virtual(*self, oid, xid)),
    {
        let entry = self.lookup(oid, xid)?;
        if entry.flags & OMAP_VAL_ENCRYPTED != 0 {
            return Err(Error::Encrypted);
        }
        self.loader.load_checked(entry.paddr)
    }
}

impl<'a, L: BlockLoader> NodeSource for Omap<'a, L> {
    /// Object-map tree child pointers are physical block addresses.
    open spec fn spec_node_block(&self, child_ref: u64) -> core::result::Result<Seq<u8>, Error> {
        as_node_block(spec_load_checked(*self.loader, child_ref))
    }

    fn load_node(&self, child_ref: u64) -> (r: Result<Node>) {
        Node::parse(self.loader.load_checked(child_ref)?)
    }
}

/// The mapping a lookup returns belongs to the requested object and is no
/// newer than the requested transaction.
pub proof fn lemma_lookup_not_newer<L: BlockLoader>(om: Omap<L>, oid: u64, xid: u64)
    ensures
        spec_omap_lookup(om, oid, xid) matches Ok(e) ==> e.oid == oid && e.xid <= xid,
{
    if let Ok(rb) = as_node_block(spec_load_checked(*om.loader, om.tree_oid)) {
        if let Ok(info) = spec_tree_info(hdr_of(rb), rb) {
            let key_size = if info.key_size != 0 { info.key_size as int } else { 16 };
            let target = OmapKey { oid, xid };
            if let Ok(lb) = spec_descend(om, hdr_of(rb), rb, info, target, 0) {
                crate::btree::lemma_search_node_result(hdr_of(lb), lb, key_size, target);
                if let Ok(pos) = spec_search(hdr_of(lb), lb, key_size, target, 0, hdr_of(lb).nkeys as int) {
                    if let Ok(idx) = spec_found_index(pos, oid, xid) {
                        if let Ok(k) = spec_key(hdr_of(lb), lb, idx, key_size) {
                            if k.len() >= 16 {
                                crate::raw::lemma_le_bounds(k, 0);
                                crate::raw::lemma_le_bounds(k, 8);
                            }
                        }
                    }
                }
            }
        }
    }
}

/// The leaf a lookup of `(oid, xid)` searches, with the key size it uses.
pub open spec fn spec_lookup_leaf<L: BlockLoader>(om: Omap<L>, oid: u64, xid: u64) -> core::result::Result<
    (Seq<u8>, int),
    Error,
> {
    match as_node_block(spec_load_checked(*om.loader, om.tree_oid)) {
        Err(e) => Err(e),
        Ok(rb) => match spec_tree_info(hdr_of(rb), rb) {
            Err(e) => Err(e),
            Ok(info) => {
                let key_size = if info.key_size != 0 { info.key_size as int } else { 16 };
                match spec_descend(om, hdr_of(rb), rb, info, OmapKey { oid, xid }, 0) {
                    Err(e) => Err(e),
                    Ok(lb) => Ok((lb, key_size)),
                }
            },
        },
    }
}

/// The object id of key `i` of a leaf.
pub open spec fn key_oid(lb: Seq<u8>, ks: int, i: int) -> int {
    le64(spec_key(hdr_of(lb), lb, i, ks)->Ok_0, 0)
}

/// The transaction id of key `i` of a leaf.
pub open spec fn key_xid(lb: Seq<u8>, ks: int, i: int) -> int {
    le64(spec_key(hdr_of(lb), lb, i, ks)->Ok_0, 8)
}

/// Key `i` of a leaf sorts before key `j`: by oid, then by xid.
pub open spec fn key_before(lb: Seq<u8>, ks: int, i: int, j: int) -> bool {
    key_oid(lb, ks, i) < key_oid(lb, ks, j) || (key_oid(lb, ks, i) == key_oid(lb, ks, j) && key_xid(lb, ks, i)
        < key_xid(lb, ks, j))
}

/// A well-formed object-map leaf: every key holds an oid and an xid, and
/// the keys increase strictly.
pub open spec fn leaf_sorted(lb: Seq<u8>, ks: int) -> bool {
    &&& forall|i: int|
        0 <= i < hdr_of(lb).nkeys ==> ((#[trigger] spec_key(hdr_of(lb), lb, i, ks)) matches Ok(k) && k.len() >= 16)
    &&& forall|i: int, j: int| 0 <= i < j < hdr_of(lb).nkeys ==> #[trigger] key_before(lb, ks, i, j)
}

/// The leaf maps `oid` at some transaction no later than `xid`, at index
/// `j`.
pub open spec fn maps_at(lb: Seq<u8>, ks: int, oid: u64, xid: u64, j: int) -> bool {
    0 <= j < hdr_of(lb).nkeys && key_oid(lb, ks, j) == oid && key_xid(lb, ks, j) <= xid
}

proof fn lemma_order_of_key(lb: Seq<u8>, ks: int, oid: u64, xid: u64, i: int)
    requires
        leaf_sorted(lb, ks),
        0 <= i < hdr_of(lb).nkeys,
    ensures
        key_order_at(hdr_of(lb), lb, i, ks, OmapKey { oid, xid }) == Ok::<KeyOrder, Error>(
            if key_oid(lb, ks, i) < oid {
                KeyOrder::Less
            } else if key_oid(lb, ks, i) > oid {
                KeyOrder::Greater
            } else if key_xid(lb, ks, i) < xid {
                KeyOrder::Less
            } else if key_xid(lb, ks, i) > xid {
                KeyOrder::Greater
            } else {
                KeyOrder::Equal
            },
        ),
{
    assert(spec_key(hdr_of(lb), lb, i, ks) is Ok);
}

proof fn lemma_sorted_leaf_ordered(lb: Seq<u8>, ks: int, oid: u64, xid: u64)
    requires
        leaf_sorted(lb, ks),
    ensures
        keys_ordered_for(hdr_of(lb), lb, ks, OmapKey { oid, xid }),
{
    let h = hdr_of(lb);
    let c = OmapKey { oid, xid };
    assert forall|i: int| 0 <= i < h.nkeys implies (#[trigger] key_order_at(h, lb, i, ks, c)) is Ok by {
        lemma_order_of_key(lb, ks, oid, xid, i);
    };
    assert forall|i: int, j: int| 0 <= i < j < h.nkeys implies order_rank(
        #[trigger] key_order_at(h, lb, i, ks, c)->Ok_0,
    ) <= order_rank(#[trigger] key_order_at(h, lb, j, ks, c)->Ok_0) by {
        lemma_order_of_key(lb, ks, oid, xid, i);
        lemma_order_of_key(lb, ks, oid, xid, j);
        assert(key_before(lb, ks, i, j));
    };
}

/// In a sorted leaf, the position a lookup settles on is the newest key of
/// `oid` no later than `xid` whenever the leaf maps `oid` at or before
/// `xid`; otherwise the key there is of another object, or there is none.
#[verifier::rlimit(30)]
proof fn lemma_leaf_index_newest(lb: Seq<u8>, ks: int, oid: u64, xid: u64)
    requires
        leaf_sorted(lb, ks),
    ensures
        spec_search(hdr_of(lb), lb, ks, OmapKey { oid, xid }, 0, hdr_of(lb).nkeys as int) matches Ok(pos) && (match pos {
            SearchPos::Found(i) => maps_at(lb, ks, oid, xid, i as int) && forall|j: int|
                #[trigger] maps_at(lb, ks, oid, xid, j) ==> key_xid(lb, ks, j) <= key_xid(lb, ks, i as int),
            SearchPos::Before(Some(i)) => 0 <= i < hdr_of(lb).nkeys && (maps_at(lb, ks, oid, xid, i as int)
                || key_oid(lb, ks, i as int) != oid) && forall|j: int|
                #[trigger] maps_at(lb, ks, oid, xid, j) ==> key_oid(lb, ks, i as int) == oid && key_xid(lb, ks, j)
                    <= key_xid(lb, ks, i as int),
            SearchPos::Before(None) => forall|j: int| !(#[trigger] maps_at(lb, ks, oid, xid, j)),
        }),
{
    let h = hdr_of(lb);
    let c = OmapKey { oid, xid };
    lemma_sorted_leaf_ordered(lb, ks, oid, xid);
    crate::btree::lemma_search_lower_bound(h, lb, ks, c);
    let r = spec_search(h, lb, ks, c, 0, h.nkeys as int);
    match r {
        Ok(SearchPos::Found(i)) => {
            lemma_order_of_key(lb, ks, oid, xid, i as int);
            assert forall|j: int| #[trigger] maps_at(lb, ks, oid, xid, j) implies key_xid(lb, ks, j) <= key_xid(
                lb,
                ks,
                i as int,
            ) by {};
        },
        Ok(SearchPos::Before(Some(i))) => {
            lemma_order_of_key(lb, ks, oid, xid, i as int);
            if i + 1 < h.nkeys {
                lemma_order_of_key(lb, ks, oid, xid, i + 1);
            }
            assert forall|j: int| #[trigger] maps_at(lb, ks, oid, xid, j) implies key_oid(lb, ks, i as int) == oid
                && key_xid(lb, ks, j) <= key_xid(lb, ks, i as int) by {
                if j > i + 1 {
                    assert(key_before(lb, ks, i + 1, j));
                }
                if j < i {
                    assert(key_before(lb, ks, j, i as int));
                }
            };
        },
        Ok(SearchPos::Before(None)) => {
            if h.nkeys > 0 {
                lemma_order_of_key(lb, ks, oid, xid, 0);
            }
            assert forall|j: int| !(#[trigger] maps_at(lb, ks, oid, xid, j)) by {
                if maps_at(lb, ks, oid, xid, j) && j > 0 {
                    assert(key_before(lb, ks, 0, j));
                }
            };
        },
        _ => {},
    }
}

/// When the leaf a lookup reaches is sorted, an entry the object map
/// returns is the newest mapping of the object not newer than the
/// requested transaction, and when the leaf maps the object at no
/// transaction up to it, the lookup is a miss.
pub proof fn lemma_lookup_newest<L: BlockLoader>(om: Omap<L>, oid: u64, xid: u64)
    requires
        spec_lookup_leaf(om, oid, xid) matches Ok((lb, ks)) && leaf_sorted(lb, ks),
    ensures
        spec_lookup_leaf(om, oid, xid) matches Ok((lb, ks)) && ({
            &&& spec_omap_lookup(om, oid, xid) matches Ok(e) ==> forall|j: int|
                #[trigger] maps_at(lb, ks, oid, xid, j) ==> key_xid(lb, ks, j) <= e.xid
            &&& (forall|j: int| !(#[trigger] maps_at(lb, ks, oid, xid, j))) ==> spec_omap_lookup(om, oid, xid)
                == Err::<OmapEntry, Error>(Error::OmapMiss { oid, xid })
        }),
{
    let (lb, ks) = spec_lookup_leaf(om, oid, xid)->Ok_0;
    lemma_leaf_index_newest(lb, ks, oid, xid);
    let pos = spec_search(hdr_of(lb), lb, ks, OmapKey { oid, xid }, 0, hdr_of(lb).nkeys as int)->Ok_0;
    match pos {
        SearchPos::Found(i) => {
            assert(spec_key(hdr_of(lb), lb, i as int, ks) is Ok);
        },
        SearchPos::Before(Some(i)) => {
            assert(spec_key(hdr_of(lb), lb, i as int, ks) is Ok);
        },
        SearchPos::Before(None) => {},
    }
}

/// Key `k` of a run of entries: its object id and transaction id.
pub open spec fn entry_oid(es: Seq<(Seq<u8>, Option<Seq<u8>>)>, k: int) -> int {
    le64(es[k].0, 0)
}

pub open spec fn entry_xid(es: Seq<(Seq<u8>, Option<Seq<u8>>)>, k: int) -> int {
    le64(es[k].0, 8)
}

/// Object-map entries in key order: each key holds an oid and an xid, and
/// the keys increase strictly, by oid and then by xid.
pub open spec fn omap_entries_sorted(es: Seq<(Seq<u8>, Option<Seq<u8>>)>) -> bool {
    &&& forall|k: int| 0 <= k < es.len() ==> (#[trigger] es[k]).0.len() >= 16
    &&& forall|i: int, j: int|
        0 <= i < j < es.len() ==> (entry_oid(es, i) < entry_oid(es, j) || (entry_oid(es, i) == entry_oid(es, j)
            && entry_xid(es, i) < entry_xid(es, j))) && #[trigger] es[i] == es[i] && #[trigger] es[j] == es[j]
}

/// Entry `k` maps `oid` at a transaction no later than `xid`.
pub open spec fn entry_maps(es: Seq<(Seq<u8>, Option<Seq<u8>>)>, oid: u64, xid: u64, k: int) -> bool {
    0 <= k < es.len() && entry_oid(es, k) == oid && entry_xid(es, k) <= xid
}

proof fn lemma_entries_ranked(es: Seq<(Seq<u8>, Option<Seq<u8>>)>, oid: u64, xid: u64)
    requires
        omap_entries_sorted(es),
    ensures
        ranked(OmapKey { oid, xid }, es),
{
    let c = OmapKey { oid, xid };
    assert forall|i: int, j: int| 0 <= i < j < es.len() implies order_rank(c.spec_compare((#[trigger] es[i]).0)->Ok_0)
        <= order_rank(c.spec_compare((#[trigger] es[j]).0)->Ok_0) by {
        assert(es[i].0.len() >= 16 && es[j].0.len() >= 16);
    }
    assert forall|i: int, j: int| 0 <= i < j < es.len() implies !(c.spec_compare((#[trigger] es[i]).0) == Ok::<
        KeyOrder,
        Error,
    >(KeyOrder::Equal) && c.spec_compare((#[trigger] es[j]).0) == Ok::<KeyOrder, Error>(KeyOrder::Equal)) by {
        assert(es[i].0.len() >= 16 && es[j].0.len() >= 16);
    }
    assert forall|k: int| 0 <= k < es.len() implies (#[trigger] c.spec_compare(es[k].0)) is Ok by {
        assert(es[k].0.len() >= 16);
    }
}

/// The object map's tree can be read whole, its entries increase strictly,
/// its internal nodes have keys, and each internal key is the first key
/// under its child, with the keys in order as the lookup of `(oid, xid)`
/// sees them.
pub open spec fn omap_tree_sorted<L: BlockLoader>(om: Omap<L>, oid: u64, xid: u64) -> bool {
    match as_node_block(spec_load_checked(*om.loader, om.tree_oid)) {
        Err(_) => false,
        Ok(rb) => match spec_tree_info(hdr_of(rb), rb) {
            Err(_) => false,
            Ok(info) => info.key_size != 0 && match spec_entries(om, hdr_of(rb), rb, info, 0) {
                None => false,
                Some(es) => omap_entries_sorted(es) && spec_separated(om, hdr_of(rb), rb, info, OmapKey { oid, xid }, 0),
            },
        },
    }
}

/// A leaf whose entries are a run of sorted object-map entries is sorted,
/// and its keys are the run's.
#[verifier::spinoff_prover]
proof fn lemma_leaf_is_run(lb: Seq<u8>, info: TreeInfo, es: Seq<(Seq<u8>, Option<Seq<u8>>)>, lo: int)
    requires
        omap_entries_sorted(es),
        spec_leaf_entries(hdr_of(lb), lb, info, 0, hdr_of(lb).nkeys as int) is Some,
        0 <= lo,
        lo + hdr_of(lb).nkeys <= es.len(),
        forall|k: int|
            0 <= k < spec_leaf_entries(hdr_of(lb), lb, info, 0, hdr_of(lb).nkeys as int)->Some_0.len() ==> #[trigger] spec_leaf_entries(
                hdr_of(lb),
                lb,
                info,
                0,
                hdr_of(lb).nkeys as int,
            )->Some_0[k] == es[lo + k],
    ensures
        leaf_sorted(lb, info.key_size as int),
        forall|i: int|
            0 <= i < hdr_of(lb).nkeys ==> #[trigger] key_oid(lb, info.key_size as int, i) == entry_oid(es, lo + i)
                && key_xid(lb, info.key_size as int, i) == entry_xid(es, lo + i),
{
    let n = hdr_of(lb).nkeys as int;
    let ks = info.key_size as int;
    let ll = spec_leaf_entries(hdr_of(lb), lb, info, 0, n)->Some_0;
    crate::scan::lemma_leaf_entries_shape(hdr_of(lb), lb, info, 0, n);
    assert forall|i: int| 0 <= i < n implies #[trigger] spec_key(hdr_of(lb), lb, i, ks) == Ok::<Seq<u8>, Error>(es[lo + i].0) by {
        assert(spec_key(hdr_of(lb), lb, 0 + i, ks) == Ok::<Seq<u8>, Error>(ll[i].0));
        assert(ll[i] == es[lo + i]);
    }
    assert forall|i: int| 0 <= i < n implies #[trigger] key_oid(lb, ks, i) == entry_oid(es, lo + i) && key_xid(lb, ks, i)
        == entry_xid(es, lo + i) by {
        assert(spec_key(hdr_of(lb), lb, i, ks) == Ok::<Seq<u8>, Error>(es[lo + i].0));
    }
    assert forall|i: int, j: int| 0 <= i < j < n implies #[trigger] key_before(lb, ks, i, j) by {
        assert(key_oid(lb, ks, i) == entry_oid(es, lo + i));
        assert(key_oid(lb, ks, j) == entry_oid(es, lo + j));
        assert(es[lo + i] == es[lo + i] && es[lo + j] == es[lo + j]);
    }
    assert forall|i: int| 0 <= i < n implies ((#[trigger] spec_key(hdr_of(lb), lb, i, ks)) matches Ok(k) && k.len() >= 16) by {
        assert(spec_key(hdr_of(lb), lb, i, ks) == Ok::<Seq<u8>, Error>(es[lo + i].0));
        assert(es[lo + i].0.len() >= 16);
    }
}

/// In a sorted run where the leaf's entries start at `lo`, everything
/// after the leaf lies above the target, and the leaf starts at or below
/// it unless it is first, each entry mapping the object no later than
/// `xid` is in the leaf, or before it and older than the leaf's first.
#[verifier::spinoff_prover]
proof fn lemma_run_newest(lb: Seq<u8>, ks: int, es: Seq<(Seq<u8>, Option<Seq<u8>>)>, lo: int, oid: u64, xid: u64)
    requires
        omap_entries_sorted(es),
        0 <= lo,
        lo + hdr_of(lb).nkeys <= es.len(),
        forall|i: int|
            0 <= i < hdr_of(lb).nkeys ==> #[trigger] key_oid(lb, ks, i) == entry_oid(es, lo + i) && key_xid(lb, ks, i)
                == entry_xid(es, lo + i),
        forall|k: int|
            lo + hdr_of(lb).nkeys <= k < es.len() ==> (OmapKey { oid, xid }).spec_compare((#[trigger] es[k]).0)
                == Ok::<KeyOrder, Error>(KeyOrder::Greater),
        lo > 0 ==> hdr_of(lb).nkeys > 0 && (OmapKey { oid, xid }).spec_compare(es[lo].0) != Ok::<KeyOrder, Error>(
            KeyOrder::Greater,
        ),
    ensures
        forall|k: int|
            #[trigger] entry_maps(es, oid, xid, k) ==> (lo <= k && maps_at(lb, ks, oid, xid, k - lo)) || (k < lo
                && maps_at(lb, ks, oid, xid, 0) && entry_xid(es, k) < key_xid(lb, ks, 0)),
{
    let n = hdr_of(lb).nkeys as int;
    let c = OmapKey { oid, xid };
    assert forall|k: int| #[trigger] entry_maps(es, oid, xid, k) implies (lo <= k && maps_at(lb, ks, oid, xid, k - lo))
        || (k < lo && maps_at(lb, ks, oid, xid, 0) && entry_xid(es, k) < key_xid(lb, ks, 0)) by {
        assert(es[k].0.len() >= 16);
        if k >= lo + n {
            assert(c.spec_compare(es[k].0) == Ok::<KeyOrder, Error>(KeyOrder::Greater));
        } else if k >= lo {
            assert(key_oid(lb, ks, k - lo) == entry_oid(es, lo + (k - lo)));
        } else {
            assert(es[k] == es[k] && es[lo] == es[lo]);
            assert(key_oid(lb, ks, 0) == entry_oid(es, lo + 0));
            assert(es[lo].0.len() >= 16);
        }
    }
}

/// When the object map's tree can be read whole, its entries increase
/// strictly, its internal nodes have keys, and each internal key is the
/// first key under its child (the tree a writer builds), a lookup of
/// `(oid, xid)` returns the newest mapping of `oid` in the whole tree at a
/// transaction no later than `xid`, and misses when the tree has none.
#[verifier::spinoff_prover]
#[verifier::rlimit(40)]
pub proof fn lemma_lookup_newest_in_tree<L: BlockLoader>(om: Omap<L>, oid: u64, xid: u64)
    requires
        omap_tree_sorted(om, oid, xid),
    ensures
        ({
            let rb = as_node_block(spec_load_checked(*om.loader, om.tree_oid))->Ok_0;
            let info = spec_tree_info(hdr_of(rb), rb)->Ok_0;
            let es = spec_entries(om, hdr_of(rb), rb, info, 0)->Some_0;
            &&& spec_omap_lookup(om, oid, xid) matches Ok(e) ==> forall|k: int|
                #[trigger] entry_maps(es, oid, xid, k) ==> entry_xid(es, k) <= e.xid
            &&& (forall|k: int| !(#[trigger] entry_maps(es, oid, xid, k))) ==> spec_omap_lookup(om, oid, xid)
                == Err::<OmapEntry, Error>(Error::OmapMiss { oid, xid })
        }),
{
    let rb = as_node_block(spec_load_checked(*om.loader, om.tree_oid))->Ok_0;
    let info = spec_tree_info(hdr_of(rb), rb)->Ok_0;
    let es = spec_entries(om, hdr_of(rb), rb, info, 0)->Some_0;
    let c = OmapKey { oid, xid };
    let ks = info.key_size as int;
    lemma_entries_ranked(es, oid, xid);
    lemma_descend_ok(om, hdr_of(rb), rb, info, c, 0);
    let lo = lemma_descend_segment(om, hdr_of(rb), rb, info, c, 0);
    let lb = spec_descend(om, hdr_of(rb), rb, info, c, 0)->Ok_0;
    let n = hdr_of(lb).nkeys as int;
    assert(spec_lookup_leaf(om, oid, xid) == Ok::<(Seq<u8>, int), Error>((lb, ks)));
    let ll = spec_leaf_entries(hdr_of(lb), lb, info, 0, n)->Some_0;
    crate::scan::lemma_leaf_entries_shape(hdr_of(lb), lb, info, 0, n);
    lemma_leaf_is_run(lb, info, es, lo);
    if lo > 0 {
        assert(ll[0] == es[lo + 0]);
    }
    lemma_run_newest(lb, ks, es, lo, oid, xid);
    lemma_lookup_newest(om, oid, xid);
    if let Ok(e) = spec_omap_lookup(om, oid, xid) {
        assert forall|k: int| #[trigger] entry_maps(es, oid, xid, k) implies entry_xid(es, k) <= e.xid by {
            if k >= lo {
                assert(maps_at(lb, ks, oid, xid, k - lo));
            } else {
                assert(maps_at(lb, ks, oid, xid, 0));
            }
        }
    }
    if forall|k: int| !(#[trigger] entry_maps(es, oid, xid, k)) {
        assert forall|j: int| !(#[trigger] maps_at(lb, ks, oid, xid, j)) by {
            if maps_at(lb, ks, oid, xid, j) {
                assert(entry_maps(es, oid, xid, lo + j));
            }
        }
    }
}

} // verus!
