//! Injecting a deterministic set of test files into a fresh `mkapfs`
//! image held in memory, keeping it `apfsck`-clean.
//!
//! This is test tooling, but deliberately structured as the seed of real
//! write support: it performs genuine fs-tree record insertion, block
//! allocation against the space manager, extent-reference accounting and
//! checksum maintenance — everything a write path needs, minus new
//! checkpoint creation (it edits the current transaction in place, which
//! is only sound for an image nothing else has mounted).
//!
//! Where the tool meets an image it cannot handle it stops with a message.

use crate::checksum::{fletcher64, fletcher64_object, lemma_store_checksum, object_valid, with_checksum};
use crate::fs::{jkey_id, jkey_type, spec_drec_name, DirEntryView, DirVisitor};
use crate::btree::LeafVisitor;
use crate::text::{cstr, first_nul, spec_utf8_lossy};
use crate::raw::{le16, le32, le64, u16_le, u32_le, u64_le};
use crate::hash::{drec_name_len_and_hash, spec_drec_name_len_and_hash};
use crate::obj::OBJ_HDR_SIZE;
use crate::types::{
    APFS_MAGIC, BTNODE_FIXED_KV_SIZE, BTNODE_LEAF, BTNODE_ROOT, BTOFF_INVALID, BTREE_INFO_SIZE, NX_MAGIC,
    OBJECT_TYPE_MASK, OBJECT_TYPE_NX_SUPERBLOCK, OBJECT_TYPE_SPACEMAN, APFS_INCOMPAT_CASE_INSENSITIVE,
    APFS_INCOMPAT_NORMALIZATION_INSENSITIVE, DT_DIR, DT_LNK, DT_REG, ROOT_DIR_INO_NUM, S_IFDIR, S_IFLNK, S_IFREG,
    APFS_TYPE_DIR_REC, APFS_TYPE_DSTREAM_ID, APFS_TYPE_EXTENT, APFS_TYPE_FILE_EXTENT, APFS_TYPE_INODE,
    APFS_TYPE_XATTR, INO_EXT_TYPE_DSTREAM, INO_EXT_TYPE_NAME, OBJ_ID_MASK, OBJ_TYPE_SHIFT,
    XATTR_DATA_EMBEDDED, XATTR_FILE_SYSTEM_OWNED, XATTR_SYMLINK,
};
use vstd::string::{StringExecFns, StringSliceAdditionalSpecFns};
use vstd::prelude::*;
use vstd::relations::sorted_by;
use vstd::utf8::encode_utf8;

verus! {

/// Why the tool stopped.
#[derive(Debug, Clone, Copy)]
pub enum FixtureError {
    /// The image is not what the tool expects.
    Invalid(&'static str),
    /// The object map at `omap_paddr` has no entry for `oid`.
    OidNotFound { oid: u64, omap_paddr: u64 },
    /// The space manager has no run of `count` free blocks.
    NoFreeRun { count: usize },
}

/// Block size of the images the tool edits.
pub const BS: usize = 4096;

/// `s` with `b` written over it from byte `o`.
pub open spec fn splice(s: Seq<u8>, o: int, b: Seq<u8>) -> Seq<u8> {
    s.take(o) + b + s.skip(o + b.len())
}

/// Block `n` of an image.
pub open spec fn block_of(d: Seq<u8>, n: int) -> Seq<u8> {
    d.subrange(n * BS, (n + 1) * BS)
}

pub fn r16(b: &[u8], o: usize) -> (v: u16)
    requires
        o + 2 <= b.len(),
    ensures
        v == le16(b@, o as int),
{
    let lo = b[o] as u16;
    let hi = b[o + 1] as u16;
    assert(hi * 256 <= 0xFF00);
    lo + hi * 256
}

pub fn r32(b: &[u8], o: usize) -> (v: u32)
    requires
        o + 4 <= b.len(),
    ensures
        v == le32(b@, o as int),
{
    let lo = r16(b, o) as u32;
    let hi = r16(b, o + 2) as u32;
    assert(hi * 65536 <= 0xFFFF_0000) by (nonlinear_arith)
        requires
            hi <= 0xFFFF,
    ;
    lo + hi * 65536
}

pub fn r64(b: &[u8], o: usize) -> (v: u64)
    requires
        o + 8 <= b.len(),
    ensures
        v == le64(b@, o as int),
{
    let lo = r32(b, o) as u64;
    let hi = r32(b, o + 4) as u64;
    assert(hi * 0x1_0000_0000 <= 0xFFFF_FFFF_0000_0000) by (nonlinear_arith)
        requires
            hi <= 0xFFFF_FFFF,
    ;
    lo + hi * 0x1_0000_0000
}

pub fn u16_bytes(v: u16) -> (b: [u8; 2])
    ensures
        b@ == u16_le(v),
{
    let b = [(v % 256) as u8, (v / 256) as u8];
    assert(b@ =~= u16_le(v));
    b
}

pub fn u32_bytes(v: u32) -> (b: [u8; 4])
    ensures
        b@ == u32_le(v),
{
    let lo = (v % 65536) as u16;
    let hi = (v / 65536) as u16;
    let b = [(lo % 256) as u8, (lo / 256) as u8, (hi % 256) as u8, (hi / 256) as u8];
    assert(b@ =~= u32_le(v));
    b
}

pub fn u64_bytes(v: u64) -> (b: [u8; 8])
    ensures
        b@ == u64_le(v),
{
    let lo = u32_bytes((v % 0x1_0000_0000) as u32);
    let hi = u32_bytes((v / 0x1_0000_0000) as u32);
    let b = [lo[0], lo[1], lo[2], lo[3], hi[0], hi[1], hi[2], hi[3]];
    assert(b@ =~= u64_le(v));
    b
}

/// Write `bytes` over `d` from byte `o`.
pub fn put_bytes(d: &mut Vec<u8>, o: usize, bytes: &[u8])
    requires
        o + bytes.len() <= old(d).len(),
    ensures
        final(d)@ == splice(old(d)@, o as int, bytes@),
{
    let ghost d0 = old(d)@;
    let n = bytes.len();
    let mut i: usize = 0;
    while i < n
        invariant
            i <= n,
            n == bytes@.len(),
            o + n <= d.len(),
            d@.len() == d0.len(),
            forall|j: int| 0 <= j < o ==> d@[j] == d0[j],
            forall|j: int| o + n <= j < d0.len() ==> d@[j] == d0[j],
            forall|j: int| o <= j < o + i ==> d@[j] == bytes@[j - o],
        decreases n - i,
    {
        d.set(o + i, bytes[i]);
        i += 1;
    }
    assert(d@ =~= splice(d0, o as int, bytes@));
}

/// Append `bytes` to `d`.
pub fn push_bytes(d: &mut Vec<u8>, bytes: &[u8])
    ensures
        final(d)@ == old(d)@ + bytes@,
{
    let ghost d0 = old(d)@;
    let mut i: usize = 0;
    while i < bytes.len()
        invariant
            i <= bytes@.len(),
            d@ == d0 + bytes@.take(i as int),
        decreases bytes@.len() - i,
    {
        d.push(bytes[i]);
        assert(d@ =~= d0 + bytes@.take(i + 1));
        i += 1;
    }
    assert(bytes@.take(bytes@.len() as int) =~= bytes@);
}

pub fn w16(d: &mut Vec<u8>, o: usize, v: u16)
    requires
        o + 2 <= old(d).len(),
    ensures
        final(d)@ == splice(old(d)@, o as int, u16_le(v)),
{
    let b = u16_bytes(v);
    put_bytes(d, o, &b);
}

pub fn w32(d: &mut Vec<u8>, o: usize, v: u32)
    requires
        o + 4 <= old(d).len(),
    ensures
        final(d)@ == splice(old(d)@, o as int, u32_le(v)),
{
    let b = u32_bytes(v);
    put_bytes(d, o, &b);
}

pub fn w64(d: &mut Vec<u8>, o: usize, v: u64)
    requires
        o + 8 <= old(d).len(),
    ensures
        final(d)@ == splice(old(d)@, o as int, u64_le(v)),
{
    let b = u64_bytes(v);
    put_bytes(d, o, &b);
}

/// A whole image in memory.
pub struct Image {
    pub data: Vec<u8>,
}

impl Image {
    /// Block `n` lies inside the image.
    pub open spec fn has_block(&self, n: u64) -> bool {
        (n + 1) * BS <= self.data.len()
    }

    pub fn block_in_range(&self, n: u64) -> (b: bool)
        ensures
            b == self.has_block(n),
    {
        let blocks = (self.data.len() / BS) as u64;
        n < blocks
    }

    pub fn block(&self, n: u64) -> (b: &[u8])
        requires
            self.has_block(n),
        ensures
            b@ == block_of(self.data@, n as int),
    {
        assert(n * BS + BS <= self.data.len()) by (nonlinear_arith)
            requires
                (n + 1) * BS <= self.data.len(),
        ;
        let start = (n as usize) * BS;
        vstd::slice::slice_subrange(self.data.as_slice(), start, start + BS)
    }

    /// Recompute and store the Fletcher-64 object checksum of block `n`.
    #[verifier::rlimit(30)]
    pub fn fix_checksum(&mut self, n: u64)
        requires
            old(self).has_block(n),
        ensures
            final(self).data@ == splice(
                old(self).data@,
                n * BS,
                with_checksum(block_of(old(self).data@, n as int)).take(8),
            ),
            object_valid(block_of(final(self).data@, n as int)),
            final(self).data@.len() == old(self).data@.len(),
    {
        let ghost blk = block_of(self.data@, n as int);
        let ghost d0 = self.data@;
        let ck = fletcher64_object(self.block(n));
        assert(n * BS + BS <= self.data.len()) by (nonlinear_arith)
            requires
                (n + 1) * BS <= self.data.len(),
        ;
        let start = (n as usize) * BS;
        w64(&mut self.data, start, ck);
        proof {
            lemma_store_checksum(blk);
            let x = with_checksum(blk);
            assert(x.take(8) =~= u64_le(fletcher64(blk) as u64));
            let d1 = self.data@;
            assert(d1 == splice(d0, start as int, x.take(8)));
            assert(block_of(d1, n as int) =~= x) by {
                assert forall|i: int| 0 <= i < BS implies block_of(d1, n as int)[i] == x[i] by {
                    if i < 8 {
                        assert(d1[start + i] == x.take(8)[i]);
                    } else {
                        assert(d1[start + i] == d0[start + i]);
                        assert(x[i] == blk[i]);
                    }
                };
            };
        }
    }
}

// ---------- fs-tree record model ----------

/// One b-tree record: key and value bytes.
pub struct Record {
    pub key: Vec<u8>,
    pub val: Vec<u8>,
}

/// The mathematical value of a [`Record`].
pub struct RecordView {
    pub key: Seq<u8>,
    pub val: Seq<u8>,
}

impl View for Record {
    type V = RecordView;

    open spec fn view(&self) -> RecordView {
        RecordView { key: self.key@, val: self.val@ }
    }
}

pub open spec fn records_view(v: Seq<Record>) -> Seq<RecordView> {
    v.map_values(|r: Record| r@)
}

pub open spec fn rec_id(r: RecordView) -> u64 {
    jkey_id(le64(r.key, 0) as u64)
}

pub open spec fn rec_type(r: RecordView) -> u8 {
    jkey_type(le64(r.key, 0) as u64)
}

/// Numeric tiebreaker within (id, type): the drec name hash, the extent's
/// logical address; 0 for other records.
pub open spec fn rec_number(r: RecordView) -> u64 {
    if rec_type(r) == APFS_TYPE_DIR_REC {
        ((le32(r.key, 8) as u32) & !0x3FFu32) as u64
    } else if rec_type(r) == APFS_TYPE_FILE_EXTENT {
        le64(r.key, 8) as u64
    } else {
        0
    }
}

/// The name bytes of a drec or xattr key; empty for other records.
pub open spec fn rec_name(r: RecordView) -> Seq<u8> {
    if rec_type(r) == APFS_TYPE_DIR_REC {
        r.key.skip(12)
    } else if rec_type(r) == APFS_TYPE_XATTR {
        r.key.skip(10)
    } else {
        Seq::empty()
    }
}

/// The key carries the fields its record type is sorted by.
pub open spec fn rec_ok(r: RecordView) -> bool {
    &&& r.key.len() >= 8
    &&& rec_type(r) == APFS_TYPE_DIR_REC ==> r.key.len() >= 12
    &&& rec_type(r) == APFS_TYPE_XATTR ==> r.key.len() >= 10
    &&& rec_type(r) == APFS_TYPE_FILE_EXTENT ==> r.key.len() >= 16
}

/// Lexicographic order on byte strings (a prefix comes first).
pub open spec fn bytes_le(a: Seq<u8>, b: Seq<u8>) -> bool
    decreases a.len(),
{
    if a.len() == 0 {
        true
    } else if b.len() == 0 {
        false
    } else if a[0] != b[0] {
        a[0] < b[0]
    } else {
        bytes_le(a.skip(1), b.skip(1))
    }
}

/// Record order: by (id, type, number, name), as apfsck compares keys.
pub open spec fn key_le(a: RecordView, b: RecordView) -> bool {
    if rec_id(a) != rec_id(b) {
        rec_id(a) < rec_id(b)
    } else if rec_type(a) != rec_type(b) {
        rec_type(a) < rec_type(b)
    } else if rec_number(a) != rec_number(b) {
        rec_number(a) < rec_number(b)
    } else {
        bytes_le(rec_name(a), rec_name(b))
    }
}

proof fn lemma_bytes_le_total(a: Seq<u8>, b: Seq<u8>)
    ensures
        bytes_le(a, b) || bytes_le(b, a),
    decreases a.len(),
{
    if a.len() > 0 && b.len() > 0 && a[0] == b[0] {
        lemma_bytes_le_total(a.skip(1), b.skip(1));
    }
}

proof fn lemma_bytes_le_trans(a: Seq<u8>, b: Seq<u8>, c: Seq<u8>)
    requires
        bytes_le(a, b),
        bytes_le(b, c),
    ensures
        bytes_le(a, c),
    decreases a.len(),
{
    if a.len() > 0 && b.len() > 0 && c.len() > 0 && a[0] == b[0] && b[0] == c[0] {
        lemma_bytes_le_trans(a.skip(1), b.skip(1), c.skip(1));
    }
}

pub proof fn lemma_key_le_total(a: RecordView, b: RecordView)
    ensures
        key_le(a, b) || key_le(b, a),
{
    lemma_bytes_le_total(rec_name(a), rec_name(b));
}

pub proof fn lemma_key_le_trans(a: RecordView, b: RecordView, c: RecordView)
    requires
        key_le(a, b),
        key_le(b, c),
    ensures
        key_le(a, c),
{
    if rec_id(a) == rec_id(b) && rec_id(b) == rec_id(c) && rec_type(a) == rec_type(b) && rec_type(b) == rec_type(c)
        && rec_number(a) == rec_number(b) && rec_number(b) == rec_number(c) {
        lemma_bytes_le_trans(rec_name(a), rec_name(b), rec_name(c));
    }
}

impl Record {
    pub fn id(&self) -> (i: u64)
        requires
            self.key@.len() >= 8,
        ensures
            i == rec_id(self@),
    {
        r64(self.key.as_slice(), 0) & OBJ_ID_MASK
    }

    pub fn rtype(&self) -> (t: u8)
        requires
            self.key@.len() >= 8,
        ensures
            t == rec_type(self@),
    {
        (r64(self.key.as_slice(), 0) >> OBJ_TYPE_SHIFT) as u8
    }

    /// Numeric tiebreaker within (id, type): drec hash, extent logical
    /// address, etc. Mirrors apfsck's keycmp.
    pub fn number(&self) -> (n: u64)
        requires
            rec_ok(self@),
        ensures
            n == rec_number(self@),
    {
        let t = self.rtype();
        if t == APFS_TYPE_DIR_REC {
            (r32(self.key.as_slice(), 8) & !0x3FFu32) as u64
        } else if t == APFS_TYPE_FILE_EXTENT {
            r64(self.key.as_slice(), 8)
        } else {
            0
        }
    }

    pub fn name(&self) -> (n: &[u8])
        requires
            rec_ok(self@),
        ensures
            n@ == rec_name(self@),
    {
        let t = self.rtype();
        if t == APFS_TYPE_DIR_REC {
            vstd::slice::slice_subrange(self.key.as_slice(), 12, self.key.len())
        } else if t == APFS_TYPE_XATTR {
            vstd::slice::slice_subrange(self.key.as_slice(), 10, self.key.len())
        } else {
            vstd::slice::slice_subrange(self.key.as_slice(), 0, 0)
        }
    }

    /// The key records are sorted by: (id, type, number, name).
    pub fn sort_key(&self) -> (k: (u64, u8, u64, Vec<u8>))
        requires
            rec_ok(self@),
        ensures
            k.0 == rec_id(self@),
            k.1 == rec_type(self@),
            k.2 == rec_number(self@),
            k.3@ == rec_name(self@),
    {
        (self.id(), self.rtype(), self.number(), crate::btree::copy_bytes(self.name()))
    }
}

/// Lexicographic byte-string order.
#[verifier::rlimit(30)]
fn bytes_le_exec(a: &[u8], b: &[u8]) -> (r: bool)
    ensures
        r == bytes_le(a@, b@),
{
    let mut i: usize = 0;
    assert(a@.skip(0) =~= a@ && b@.skip(0) =~= b@);
    assert(a@.take(0) =~= b@.take(0));
    while i < a.len() && i < b.len()
        invariant
            i <= a@.len(),
            i <= b@.len(),
            a@.take(i as int) == b@.take(i as int),
            bytes_le(a@, b@) == bytes_le(a@.skip(i as int), b@.skip(i as int)),
        decreases a@.len() - i,
    {
        let ghost (sa, sb) = (a@.skip(i as int), b@.skip(i as int));
        if a[i] != b[i] {
            assert(sa[0] == a@[i as int] && sb[0] == b@[i as int]);
            return a[i] < b[i];
        }
        proof {
            assert(sa[0] == sb[0]);
            assert(sa.skip(1) =~= a@.skip(i + 1));
            assert(sb.skip(1) =~= b@.skip(i + 1));
            assert(a@.take(i + 1) =~= b@.take(i + 1)) by {
                assert forall|k: int| 0 <= k < i + 1 implies #[trigger] a@.take(i + 1)[k] == b@.take(i + 1)[k] by {
                    if k < i {
                        assert(a@.take(i as int)[k] == b@.take(i as int)[k]);
                    }
                };
            };
        }
        i += 1;
    }
    i == a.len()
}

/// `a` sorts no later than `b`.
pub fn record_le(a: &Record, b: &Record) -> (r: bool)
    requires
        rec_ok(a@),
        rec_ok(b@),
    ensures
        r == key_le(a@, b@),
{
    let (ai, bi) = (a.id(), b.id());
    if ai != bi {
        return ai < bi;
    }
    let (at, bt) = (a.rtype(), b.rtype());
    if at != bt {
        return at < bt;
    }
    let (an, bn) = (a.number(), b.number());
    if an != bn {
        return an < bn;
    }
    bytes_le_exec(a.name(), b.name())
}

/// `r` placed into `s` after every record that sorts no later than it,
/// scanning from the end.
pub open spec fn insert_sorted(s: Seq<RecordView>, r: RecordView) -> Seq<RecordView>
    decreases s.len(),
{
    if s.len() == 0 {
        seq![r]
    } else if key_le(s.last(), r) {
        s.push(r)
    } else {
        insert_sorted(s.drop_last(), r).push(s.last())
    }
}

/// Stable insertion sort by [`key_le`].
pub open spec fn stable_sort(s: Seq<RecordView>) -> Seq<RecordView>
    decreases s.len(),
{
    if s.len() == 0 {
        s
    } else {
        insert_sorted(stable_sort(s.drop_last()), s.last())
    }
}

proof fn lemma_insert_prefix(s: Seq<RecordView>, r: RecordView, j: int)
    requires
        0 <= j <= s.len(),
        forall|k: int| j <= k < s.len() ==> !key_le(#[trigger] s[k], r),
    ensures
        insert_sorted(s, r) == insert_sorted(s.take(j), r) + s.skip(j),
    decreases s.len(),
{
    if j < s.len() {
        assert(!key_le(s[s.len() - 1], r));
        lemma_insert_prefix(s.drop_last(), r, j);
        assert(s.drop_last().take(j) =~= s.take(j));
        assert(s.drop_last().skip(j).push(s.last()) =~= s.skip(j));
        assert(insert_sorted(s.take(j), r) + s.drop_last().skip(j) + seq![s.last()] =~= insert_sorted(s.take(j), r)
            + s.skip(j));
    } else {
        assert(s.take(j) =~= s);
        assert(s.skip(j) =~= Seq::<RecordView>::empty());
        assert(insert_sorted(s, r) + Seq::<RecordView>::empty() =~= insert_sorted(s, r));
    }
}

/// Sort records by (id, type, number, name), keeping records with equal
/// keys in their order.
#[verifier::rlimit(30)]
pub fn sort_records(v: &mut Vec<Record>)
    requires
        forall|i: int| 0 <= i < old(v)@.len() ==> rec_ok(#[trigger] old(v)@[i]@),
    ensures
        records_view(final(v)@) == stable_sort(records_view(old(v)@)),
        records_view(final(v)@).to_multiset() == records_view(old(v)@).to_multiset(),
        sorted_by(records_view(final(v)@), |a: RecordView, b: RecordView| key_le(a, b)),
        forall|i: int| 0 <= i < final(v)@.len() ==> rec_ok(#[trigger] final(v)@[i]@),
{
    broadcast use vstd::seq_lib::group_to_multiset_ensures;
    broadcast use vstd::multiset::group_multiset_axioms;

    let ghost m0 = records_view(v@).to_multiset();
    let ghost v0 = records_view(v@);
    let n = v.len();
    let mut i: usize = 1;
    if n == 0 {
        assert(v0 =~= stable_sort(v0));
        return;
    }
    proof {
        let t = v0.take(1);
        assert(t.drop_last() =~= Seq::<RecordView>::empty());
        assert(stable_sort(t.drop_last()) =~= Seq::<RecordView>::empty());
        assert(t.last() == v0[0]);
        assert(stable_sort(t) =~= seq![v0[0]]);
        assert(records_view(v@).take(1) =~= seq![v0[0]]);
    }
    while i < n
        invariant
            1 <= i <= n,
            n == v@.len(),
            v0.len() == n,
            records_view(v@).to_multiset() == m0,
            records_view(v@).take(i as int) == stable_sort(v0.take(i as int)),
            records_view(v@).skip(i as int) == v0.skip(i as int),
            forall|k: int| 0 <= k < v@.len() ==> rec_ok(#[trigger] v@[k]@),
            forall|a: int, b: int| 0 <= a < b < i ==> key_le(#[trigger] v@[a]@, #[trigger] v@[b]@),
        decreases n - i,
    {
        let ghost before = v@;
        let r = v.remove(i);
        assert(records_view(v@) =~= records_view(before).remove(i as int));
        let mut j = i;
        while j > 0 && !record_le(&v[j - 1], &r)
            invariant
                0 <= j <= i,
                i < n,
                v@.len() == n - 1,
                v@ == before.remove(i as int),
                r@ == before[i as int]@,
                rec_ok(r@),
                forall|k: int| 0 <= k < v@.len() ==> rec_ok(#[trigger] v@[k]@),
                forall|k: int| j <= k < i ==> !key_le(#[trigger] v@[k]@, r@),
            decreases j,
        {
            j -= 1;
        }
        let ghost mid = v@;
        v.insert(j, r);
        proof {
            let rb = records_view(before);
            let pre = rb.take(i as int);
            assert(v0.take(i + 1).drop_last() =~= v0.take(i as int));
            assert(rb.skip(i as int)[0] == v0.skip(i as int)[0]);
            assert(v0.take(i + 1).last() == v0[i as int]);
            assert(r@ == v0[i as int]);
            assert forall|k: int| j <= k < pre.len() implies !key_le(#[trigger] pre[k], r@) by {
                assert(pre[k] == mid[k]@);
            };
            lemma_insert_prefix(pre, r@, j as int);
            if j > 0 {
                assert(key_le(pre[j - 1], r@));
                assert(pre.take(j as int).last() == pre[j - 1]);
                assert(insert_sorted(pre.take(j as int), r@) == pre.take(j as int).push(r@));
            } else {
                assert(pre.take(0) =~= Seq::<RecordView>::empty());
            }
            assert(records_view(v@).take(i + 1) =~= pre.take(j as int).push(r@) + pre.skip(j as int));
            assert(records_view(v@).take(i + 1) == stable_sort(v0.take(i + 1)));
            assert forall|k: int| 0 <= k < n - (i + 1) implies #[trigger] records_view(v@).skip(i + 1)[k]
                == v0.skip(i + 1)[k] by {
                assert(v@[i + 1 + k] == mid[i + k]);
                assert(mid[i + k] == before[i + 1 + k]);
                assert(rb.skip(i as int)[k + 1] == v0.skip(i as int)[k + 1]);
            };
            assert(records_view(v@).skip(i + 1) =~= v0.skip(i + 1));
            assert(records_view(v@) =~= records_view(mid).insert(j as int, r@));
            assert(rb[i as int] == r@);
            assert(records_view(mid) =~= rb.remove(i as int));
            assert(rb.to_multiset() == m0);
            vstd::seq_lib::to_multiset_remove(rb, i as int);
            assert(rb.remove(i as int).to_multiset() == m0.remove(r@));
            vstd::seq_lib::to_multiset_insert(records_view(mid), j as int, r@);
            assert(records_view(mid).insert(j as int, r@).to_multiset() == m0.remove(r@).insert(r@));
            assert(m0.count(r@) > 0) by {
                assert(rb.contains(r@));
                vstd::seq_lib::to_multiset_contains(rb, r@);
            };
            assert(m0.remove(r@).insert(r@) =~= m0);
            assert forall|a: int, b: int| 0 <= a < b < i + 1 implies key_le(#[trigger] v@[a]@, #[trigger] v@[b]@) by {
                // Positions below j hold mid[..j], position j holds r, and
                // positions above hold mid[j..i].
                if b < j {
                    assert(v@[a] == before[a] && v@[b] == before[b]);
                } else if b == j {
                    assert(v@[b]@ == r@);
                    assert(v@[a] == before[a]);
                    if a < j - 1 {
                        assert(key_le(before[a]@, before[j - 1]@));
                    }
                    assert(key_le(mid[j - 1]@, r@));
                    if a < j - 1 {
                        lemma_key_le_trans(before[a]@, before[j - 1]@, r@);
                    }
                } else if a == j {
                    assert(v@[a]@ == r@);
                    assert(v@[b] == mid[b - 1]);
                    assert(!key_le(mid[b - 1]@, r@));
                    lemma_key_le_total(mid[b - 1]@, r@);
                } else if a < j {
                    assert(v@[a] == before[a]);
                    assert(v@[b] == before[b - 1]);
                    assert(key_le(before[a]@, before[b - 1]@));
                } else {
                    assert(v@[a] == before[a - 1]);
                    assert(v@[b] == before[b - 1]);
                }
            };
        }
        i += 1;
    }
    assert(records_view(v@).take(n as int) =~= records_view(v@));
    assert(v0.take(n as int) =~= v0);
}

// ---------- record builders ----------

/// The `j_key_t` header value of object `id` and record type `rtype`.
pub open spec fn jkey_value(id: u64, rtype: u8) -> u64 {
    id | ((rtype as u64) << 60u64)
}

pub fn jkey(id: u64, rtype: u8) -> (k: Vec<u8>)
    ensures
        k@ == u64_le(jkey_value(id, rtype)),
{
    let mut k = Vec::new();
    let v = id | ((rtype as u64) << OBJ_TYPE_SHIFT);
    push_bytes(&mut k, &u64_bytes(v));
    k
}

/// `n` zero bytes.
pub open spec fn zeros(n: nat) -> Seq<u8> {
    Seq::new(n, |i: int| 0u8)
}

/// Padding that brings a length of `len` bytes to a multiple of 8.
pub open spec fn pad8(len: int) -> int {
    (8 - len % 8) % 8
}

/// What the fixture's inode records hold.
pub struct InodeSpec {
    pub id: u64,
    pub parent: u64,
    pub name: String,
    pub mode: u16,
    pub nchildren_or_nlink: i32,
    pub times: u64,
    pub size: u64,
    pub alloced: u64,
    pub has_dstream: bool,
}

/// The mathematical value of an [`InodeSpec`].
pub struct InodeSpecView {
    pub id: u64,
    pub parent: u64,
    pub name: Seq<char>,
    pub mode: u16,
    pub nchildren_or_nlink: i32,
    pub times: u64,
    pub size: u64,
    pub alloced: u64,
    pub has_dstream: bool,
}

impl View for InodeSpec {
    type V = InodeSpecView;

    open spec fn view(&self) -> InodeSpecView {
        InodeSpecView {
            id: self.id,
            parent: self.parent,
            name: self.name@,
            mode: self.mode,
            nchildren_or_nlink: self.nchildren_or_nlink,
            times: self.times,
            size: self.size,
            alloced: self.alloced,
            has_dstream: self.has_dstream,
        }
    }
}

/// The fixed part of a `j_inode_val_t`: parent, private id (the inode's
/// own id), four timestamps, flags, link count, protection class, write
/// generation, BSD flags, owner 501, group 20, mode, and zero padding.
pub open spec fn inode_fixed(s: InodeSpecView) -> Seq<u8> {
    u64_le(s.parent) + u64_le(s.id) + u64_le(s.times) + u64_le(s.times) + u64_le(s.times) + u64_le(s.times)
        + u64_le(0) + u32_le(s.nchildren_or_nlink as u32) + u32_le(0) + u32_le(1) + u32_le(0) + u32_le(501)
        + u32_le(20) + u16_le(s.mode) + u16_le(0) + u64_le(0)
}

/// The NUL-terminated name the name xfield stores.
pub open spec fn inode_name_c(s: InodeSpecView) -> Seq<u8> {
    encode_utf8(s.name).push(0u8)
}

/// The xfield headers: NAME, plus DSTREAM for regular files.
pub open spec fn inode_xf_hdr(s: InodeSpecView) -> Seq<u8> {
    seq![INO_EXT_TYPE_NAME, 0x02u8] + u16_le(inode_name_c(s).len() as u16) + (if s.has_dstream {
        seq![INO_EXT_TYPE_DSTREAM, 0x20u8] + u16_le(40)
    } else {
        Seq::empty()
    })
}

/// The xfield data: the padded name, then the `j_dstream_t` for regular
/// files (size, allocated size, crypto id, bytes written, bytes read).
pub open spec fn inode_xf_data(s: InodeSpecView) -> Seq<u8> {
    inode_name_c(s) + zeros(pad8(inode_name_c(s).len() as int) as nat) + (if s.has_dstream {
        u64_le(s.size) + u64_le(s.alloced) + u64_le(0) + u64_le(s.size) + u64_le(0)
    } else {
        Seq::empty()
    })
}

/// The value bytes of the inode record the fixture writes.
pub open spec fn inode_val(s: InodeSpecView) -> Seq<u8> {
    inode_fixed(s) + u16_le(if s.has_dstream { 2 } else { 1 }) + u16_le(inode_xf_data(s).len() as u16)
        + inode_xf_hdr(s) + inode_xf_data(s)
}

#[verifier::rlimit(30)]
pub fn build_inode(spec: &InodeSpec) -> (r: Record)
    ensures
        r.key@ == u64_le(jkey_value(spec.id, APFS_TYPE_INODE)),
        r.val@ == inode_val(spec@),
{
    let key = jkey(spec.id, APFS_TYPE_INODE);
    let mut v: Vec<u8> = Vec::new();
    push_bytes(&mut v, &u64_bytes(spec.parent));
    push_bytes(&mut v, &u64_bytes(spec.id)); // private_id == id
    push_bytes(&mut v, &u64_bytes(spec.times)); // create
    push_bytes(&mut v, &u64_bytes(spec.times)); // mod
    push_bytes(&mut v, &u64_bytes(spec.times)); // change
    push_bytes(&mut v, &u64_bytes(spec.times)); // access
    push_bytes(&mut v, &u64_bytes(0)); // internal_flags
    push_bytes(&mut v, &u32_bytes(spec.nchildren_or_nlink as u32));
    push_bytes(&mut v, &u32_bytes(0)); // default_protection_class
    push_bytes(&mut v, &u32_bytes(1)); // write_generation_counter
    push_bytes(&mut v, &u32_bytes(0)); // bsd_flags
    push_bytes(&mut v, &u32_bytes(501)); // owner
    push_bytes(&mut v, &u32_bytes(20)); // group
    push_bytes(&mut v, &u16_bytes(spec.mode));
    push_bytes(&mut v, &u16_bytes(0)); // pad1
    push_bytes(&mut v, &u64_bytes(0)); // uncompressed_size / pad2
    assert(v@ =~= inode_fixed(spec@));

    // Extended fields: NAME (+ DSTREAM for regular files).
    let mut name_c: Vec<u8> = Vec::new();
    push_bytes(&mut name_c, spec.name.as_str().as_bytes());
    name_c.push(0);
    assert(name_c@ =~= inode_name_c(spec@));
    let n_ext: u16 = if spec.has_dstream { 2 } else { 1 };
    let mut xf_hdr: Vec<u8> = Vec::new();
    let mut xf_data: Vec<u8> = Vec::new();

    // xf header entries are 4 bytes each: type, flags, size.
    xf_hdr.push(INO_EXT_TYPE_NAME);
    xf_hdr.push(0x02); // XF_DO_NOT_COPY
    push_bytes(&mut xf_hdr, &u16_bytes(name_c.len() as u16));
    push_bytes(&mut xf_data, name_c.as_slice());
    let pad = (8 - xf_data.len() % 8) % 8;
    let mut k: usize = 0;
    while k < pad
        invariant
            k <= pad,
            pad == pad8(name_c@.len() as int),
            xf_data@ == name_c@ + zeros(k as nat),
        decreases pad - k,
    {
        xf_data.push(0);
        assert(xf_data@ =~= name_c@ + zeros((k + 1) as nat));
        k += 1;
    }
    if spec.has_dstream {
        xf_hdr.push(INO_EXT_TYPE_DSTREAM);
        xf_hdr.push(0x20); // XF_SYSTEM_FIELD
        push_bytes(&mut xf_hdr, &u16_bytes(40));
        push_bytes(&mut xf_data, &u64_bytes(spec.size));
        push_bytes(&mut xf_data, &u64_bytes(spec.alloced));
        push_bytes(&mut xf_data, &u64_bytes(0)); // default_crypto_id
        push_bytes(&mut xf_data, &u64_bytes(spec.size)); // total_bytes_written
        push_bytes(&mut xf_data, &u64_bytes(0)); // total_bytes_read
    }
    assert(xf_hdr@ =~= inode_xf_hdr(spec@));
    assert(xf_data@ =~= inode_xf_data(spec@));
    let used = xf_data.len() as u16;
    push_bytes(&mut v, &u16_bytes(n_ext));
    push_bytes(&mut v, &u16_bytes(used));
    push_bytes(&mut v, xf_hdr.as_slice());
    push_bytes(&mut v, xf_data.as_slice());
    assert(v@ =~= inode_val(spec@));
    Record { key, val: v }
}

/// The key of a hashed directory record: header, name length and hash,
/// then the NUL-terminated name.
pub open spec fn drec_key(parent: u64, name: &str, case_fold: bool) -> Seq<u8> {
    u64_le(jkey_value(parent, APFS_TYPE_DIR_REC)) + u32_le(spec_drec_name_len_and_hash(name, case_fold))
        + name.spec_bytes().push(0u8)
}

proof fn lemma_first_nul_after(b: Seq<u8>, i: int, n: int)
    requires
        0 <= i <= n < b.len(),
        b[n] == 0,
        forall|k: int| i <= k < n ==> b[k] != 0,
    ensures
        first_nul(b, i) == n,
    decreases n - i,
{
    if i < n {
        lemma_first_nul_after(b, i + 1, n);
    }
}

/// The directory records the tool writes read back: the key names the
/// parent and the directory-record type, and the name a reader takes from
/// it is the one written (for names without NUL bytes that fit the key's
/// 10-bit length field).
#[verifier::rlimit(30)]
pub proof fn lemma_drec_reads_back(parent: u64, name: &str, case_fold: bool)
    requires
        parent <= OBJ_ID_MASK,
        name.spec_bytes().len() + 1 < 1024,
        forall|i: int| 0 <= i < name.spec_bytes().len() ==> name.spec_bytes()[i] != 0,
    ensures
        jkey_id(le64(drec_key(parent, name, case_fold), 0) as u64) == parent,
        jkey_type(le64(drec_key(parent, name, case_fold), 0) as u64) == APFS_TYPE_DIR_REC,
        spec_drec_name(drec_key(parent, name, case_fold), true) == Ok::<Seq<char>, crate::error::Error>(
            spec_utf8_lossy(name.spec_bytes()),
        ),
{
    let k = drec_key(parent, name, case_fold);
    let nb = name.spec_bytes();
    let h = jkey_value(parent, APFS_TYPE_DIR_REC);
    let f = spec_drec_name_len_and_hash(name, case_fold);
    let n1: int = nb.len() as int + 1;
    assert(k.subrange(0, 8) =~= u64_le(h));
    crate::raw::lemma_le_roundtrip(k, 0, h);
    assert(jkey_id(h) == parent && jkey_type(h) == APFS_TYPE_DIR_REC) by (bit_vector)
        requires
            h == parent | ((9u8 as u64) << 60u64),
            parent <= 0x0fff_ffff_ffff_ffff,
    ;
    // The length field: the low 10 bits of the name length with its NUL.
    assert(k.subrange(8, 12) =~= u32_le(f));
    assert(le32(k, 8) == f) by {
        let t = k.subrange(8, 12);
        assert(k[8] == t[0] && k[9] == t[1] && k[10] == t[2] && k[11] == t[3]);
    };
    let nl = ((nb.len() + 1) % 0x1_0000_0000) as u32;
    assert(nl == n1);
    let hash = crate::hash::spec_name_hash(name@, case_fold);
    assert(f == ((hash & 0x3F_FFFF) << 10) | (nl & 0x3FF));
    assert((((((hash & 0x3F_FFFF) << 10) | (nl & 0x3FF)) as u32) & 0x3FFu32) == nl) by (bit_vector)
        requires
            nl < 1024,
    ;
    assert((f & crate::types::DREC_LEN_MASK) as int == n1);
    // The name bytes and their NUL follow.
    let body = k.subrange(12, 12 + n1);
    assert(body =~= nb.push(0u8));
    assert forall|i: int| 0 <= i < nb.len() implies body[i] != 0 by {
        assert(body[i] == nb[i]);
    };
    lemma_first_nul_after(body, 0, nb.len() as int);
    assert(cstr(body) =~= nb);
}

/// A directory record the tool writes lists back as the entry it
/// describes: collecting directory `parent`'s entries from it appends an
/// entry with the written name, file id, date and type (types fit the
/// record's 4-bit type field).
#[verifier::rlimit(30)]
pub proof fn lemma_drec_lists_back(
    parent: u64,
    name: &str,
    case_fold: bool,
    file_id: u64,
    times: u64,
    dtype: u16,
    es: Seq<DirEntryView>,
)
    requires
        parent <= OBJ_ID_MASK,
        name.spec_bytes().len() + 1 < 1024,
        forall|i: int| 0 <= i < name.spec_bytes().len() ==> name.spec_bytes()[i] != 0,
        dtype < 16,
    ensures
        <DirVisitor as LeafVisitor>::spec_visit(
            (parent, true, es),
            drec_key(parent, name, case_fold),
            Some(u64_le(file_id) + u64_le(times) + u16_le(dtype)),
        ) == ((parent, true, es.push(
            DirEntryView { name: spec_utf8_lossy(name.spec_bytes()), file_id, date_added: times, dtype },
        )), Ok::<bool, crate::error::Error>(true)),
{
    lemma_drec_reads_back(parent, name, case_fold);
    let k = drec_key(parent, name, case_fold);
    let v = u64_le(file_id) + u64_le(times) + u16_le(dtype);
    assert(v.len() == 18);
    assert(v.subrange(0, 8) =~= u64_le(file_id));
    crate::raw::lemma_le_roundtrip(v, 0, file_id);
    assert(v.subrange(8, 16) =~= u64_le(times));
    crate::raw::lemma_le_roundtrip(v, 8, times);
    assert(v[16] == (dtype % 256) as u8 && v[17] == (dtype / 256) as u8);
    assert(le16(v, 16) == dtype);
    assert((dtype as u16) & 0x000fu16 == dtype) by (bit_vector)
        requires
            dtype < 16,
    ;
    assert(k.len() >= 8);
    assert(crate::fs::key_matches(k, parent, APFS_TYPE_DIR_REC));
}

pub fn build_drec(parent: u64, name: &str, case_fold: bool, file_id: u64, dtype: u16, times: u64) -> (r: Record)
    ensures
        r.key@ == drec_key(parent, name, case_fold),
        r.val@ == u64_le(file_id) + u64_le(times) + u16_le(dtype),
{
    let mut key = jkey(parent, APFS_TYPE_DIR_REC);
    push_bytes(&mut key, &u32_bytes(drec_name_len_and_hash(name, case_fold)));
    push_bytes(&mut key, name.as_bytes());
    key.push(0);
    let mut val: Vec<u8> = Vec::new();
    push_bytes(&mut val, &u64_bytes(file_id));
    push_bytes(&mut val, &u64_bytes(times)); // date_added
    push_bytes(&mut val, &u16_bytes(dtype));
    assert(key@ =~= drec_key(parent, name, case_fold));
    assert(val@ =~= u64_le(file_id) + u64_le(times) + u16_le(dtype));
    Record { key, val }
}

pub fn build_dstream_id(id: u64) -> (r: Record)
    ensures
        r.key@ == u64_le(jkey_value(id, APFS_TYPE_DSTREAM_ID)),
        r.val@ == u32_le(1),
{
    let mut val: Vec<u8> = Vec::new();
    push_bytes(&mut val, &u32_bytes(1)); // refcnt
    Record { key: jkey(id, APFS_TYPE_DSTREAM_ID), val }
}

pub fn build_file_extent(id: u64, logical: u64, len_bytes: u64, phys_block: u64) -> (r: Record)
    ensures
        r.key@ == u64_le(jkey_value(id, APFS_TYPE_FILE_EXTENT)) + u64_le(logical),
        r.val@ == u64_le(len_bytes) + u64_le(phys_block) + u64_le(0),
{
    let mut key = jkey(id, APFS_TYPE_FILE_EXTENT);
    push_bytes(&mut key, &u64_bytes(logical));
    let mut val: Vec<u8> = Vec::new();
    push_bytes(&mut val, &u64_bytes(len_bytes)); // len_and_flags (no flags)
    push_bytes(&mut val, &u64_bytes(phys_block));
    push_bytes(&mut val, &u64_bytes(0)); // crypto_id
    assert(val@ =~= u64_le(len_bytes) + u64_le(phys_block) + u64_le(0));
    Record { key, val }
}

/// The symlink-target xattr key and value the fixture writes.
pub open spec fn symlink_xattr_key(id: u64) -> Seq<u8> {
    u64_le(jkey_value(id, APFS_TYPE_XATTR)) + u16_le((XATTR_SYMLINK.spec_bytes().len() + 1) as u16)
        + XATTR_SYMLINK.spec_bytes().push(0u8)
}

pub open spec fn symlink_xattr_val(target: &str) -> Seq<u8> {
    u16_le(XATTR_DATA_EMBEDDED | XATTR_FILE_SYSTEM_OWNED) + u16_le((target.spec_bytes().len() + 1) as u16)
        + target.spec_bytes().push(0u8)
}

pub fn build_symlink_xattr(id: u64, target: &str) -> (r: Record)
    ensures
        r.key@ == symlink_xattr_key(id),
        r.val@ == symlink_xattr_val(target),
{
    let mut key = jkey(id, APFS_TYPE_XATTR);
    let name = XATTR_SYMLINK.as_bytes();
    proof {
        reveal_strlit("com.apple.fs.symlink");
        assert(vstd::string::is_ascii(XATTR_SYMLINK));
        vstd::string::is_ascii_spec_bytes(XATTR_SYMLINK);
        assert(name@.len() == 20);
    }
    push_bytes(&mut key, &u16_bytes((name.len() + 1) as u16));
    push_bytes(&mut key, name);
    key.push(0);
    let mut data: Vec<u8> = Vec::new();
    push_bytes(&mut data, target.as_bytes());
    data.push(0);
    let mut val: Vec<u8> = Vec::new();
    push_bytes(&mut val, &u16_bytes(XATTR_DATA_EMBEDDED | XATTR_FILE_SYSTEM_OWNED));
    push_bytes(&mut val, &u16_bytes(data.len() as u16));
    push_bytes(&mut val, data.as_slice());
    assert(key@ =~= symlink_xattr_key(id));
    assert(val@ =~= symlink_xattr_val(target));
    Record { key, val }
}

/// PHYS_EXT record for the extent-reference tree.
pub fn build_phys_ext(paddr: u64, blocks: u64, owner: u64) -> (r: Record)
    ensures
        r.key@ == u64_le(jkey_value(paddr, APFS_TYPE_EXTENT)),
        r.val@ == u64_le(blocks | (1u64 << 60u64)) + u64_le(owner) + u32_le(1),
{
    let key = jkey(paddr, APFS_TYPE_EXTENT);
    let mut val: Vec<u8> = Vec::new();
    let kind_new: u64 = 1u64 << 60u64;
    push_bytes(&mut val, &u64_bytes(blocks | kind_new));
    push_bytes(&mut val, &u64_bytes(owner));
    push_bytes(&mut val, &u32_bytes(1)); // refcnt
    assert(val@ =~= u64_le(blocks | (1u64 << 60u64)) + u64_le(owner) + u32_le(1));
    Record { key, val }
}

// ---------- b-tree node (de)serialization ----------

/// A b-tree node block as the tool edits it.
pub struct NodeImage {
    pub paddr: u64,
    pub records: Vec<Record>,
    pub is_root: bool,
    pub table_len: u16,
}

/// End of the value area: the block end, or the start of the trailing
/// `btree_info_t` in a root node.
pub open spec fn val_end(is_root: bool) -> int {
    if is_root {
        BS - BTREE_INFO_SIZE
    } else {
        BS as int
    }
}

/// Entry `i` of the table of contents starting at `ds`, with keys from
/// `ka` and values ending at `ve`; `None` if it points outside the block.
pub open spec fn node_entry(b: Seq<u8>, ds: int, ka: int, ve: int, i: int) -> Option<RecordView> {
    let e = ds + 8 * i;
    if e + 8 > b.len() {
        None
    } else {
        let ko = le16(b, e);
        let kl = le16(b, e + 2);
        let vo = le16(b, e + 4);
        let vl = le16(b, e + 6);
        if ka + ko + kl > b.len() || vo > ve || ve - vo + vl > b.len() {
            None
        } else {
            Some(RecordView { key: b.subrange(ka + ko, ka + ko + kl), val: b.subrange(ve - vo, ve - vo + vl) })
        }
    }
}

/// Every entry of a table of `n` entries points inside the block.
pub open spec fn node_entries_ok(b: Seq<u8>, n: int, ds: int, tl: int, ve: int) -> bool {
    forall|i: int| 0 <= i < n ==> #[trigger] node_entry(b, ds, ds + tl, ve, i) is Some
}

/// The records a table of `n` entries describes.
pub open spec fn node_records(b: Seq<u8>, n: int, ds: int, tl: int, ve: int) -> Seq<RecordView> {
    Seq::new(n as nat, |i: int| node_entry(b, ds, ds + tl, ve, i)->0)
}

/// The records of a variable-size-KV node block, whether it is a root, and
/// the length of its table of contents.
#[verifier::opaque]
pub open spec fn spec_parse_node(b: Seq<u8>) -> core::result::Result<(Seq<RecordView>, bool, u16), &'static str> {
    let flags = le16(b, 32) as u16;
    if flags & BTNODE_FIXED_KV_SIZE != 0 {
        Err("fs tree must be variable-KV")
    } else {
        let n = le32(b, 36);
        let ds = 56 + le16(b, 40);
        let tl = le16(b, 42);
        let ve = val_end(flags & BTNODE_ROOT != 0);
        if !node_entries_ok(b, n, ds, tl, ve) {
            Err("node entry out of range")
        } else {
            Ok((node_records(b, n, ds, tl, ve), flags & BTNODE_ROOT != 0, tl as u16))
        }
    }
}

#[verifier::rlimit(30)]
pub fn parse_node(img: &Image, paddr: u64) -> (r: core::result::Result<NodeImage, FixtureError>)
    requires
        img.has_block(paddr),
    ensures
        match spec_parse_node(block_of(img.data@, paddr as int)) {
            Ok((rs, root, tl)) => r matches Ok(nd) && records_view(nd.records@) == rs && nd.is_root == root
                && nd.table_len == tl && nd.paddr == paddr,
            Err(m) => r == Err::<NodeImage, FixtureError>(FixtureError::Invalid(m)),
        },
{
    reveal(spec_parse_node);
    let blk = img.block(paddr);
    let flags = r16(blk, OBJ_HDR_SIZE);
    let nkeys = r32(blk, OBJ_HDR_SIZE + 4);
    let table_off = r16(blk, OBJ_HDR_SIZE + 8);
    let table_len = r16(blk, OBJ_HDR_SIZE + 10);
    if flags & BTNODE_FIXED_KV_SIZE != 0 {
        return Err(FixtureError::Invalid("fs tree must be variable-KV"));
    }
    let is_root = flags & BTNODE_ROOT != 0;
    let data_start = 56 + table_off as usize;
    let key_area = data_start + table_len as usize;
    let val_end = if is_root { BS - BTREE_INFO_SIZE } else { BS };
    let ghost b = blk@;
    let mut records: Vec<Record> = Vec::new();
    let mut i: u32 = 0;
    assert(records_view(records@) =~= Seq::<RecordView>::empty());
    while i < nkeys
        invariant
            i <= nkeys,
            b == blk@,
            b == block_of(img.data@, paddr as int),
            b.len() == BS,
            flags == le16(b, OBJ_HDR_SIZE as int),
            flags & BTNODE_FIXED_KV_SIZE == 0,
            is_root == (flags & BTNODE_ROOT != 0),
            table_len == le16(b, OBJ_HDR_SIZE + 10),
            nkeys == le32(b, OBJ_HDR_SIZE + 4),
            data_start == 56 + le16(b, OBJ_HDR_SIZE + 8),
            key_area == data_start + le16(b, OBJ_HDR_SIZE + 10),
            val_end == crate::fixture::val_end(is_root),
            records_view(records@) =~= node_records(b, i as int, data_start as int, table_len as int, val_end as int),
            forall|k: int| 0 <= k < i ==> #[trigger] node_entry(b, data_start as int, key_area as int, val_end as int, k) is Some,
        decreases nkeys - i,
    {
        let ghost ent = node_entry(b, data_start as int, key_area as int, val_end as int, i as int);
        if (i as usize) >= BS / 8 || data_start + (i as usize) * 8 + 8 > BS {
            assert(ent is None);
            assert(!node_entries_ok(b, nkeys as int, data_start as int, table_len as int, val_end as int));
            reveal(spec_parse_node);
            return Err(FixtureError::Invalid("node entry out of range"));
        }
        let e = data_start + (i as usize) * 8;
        let koff = r16(blk, e) as usize;
        let klen = r16(blk, e + 2) as usize;
        let voff = r16(blk, e + 4) as usize;
        let vlen = r16(blk, e + 6) as usize;
        if key_area + koff + klen > BS || voff > val_end || val_end - voff + vlen > BS {
            assert(ent is None);
            assert(!node_entries_ok(b, nkeys as int, data_start as int, table_len as int, val_end as int));
            reveal(spec_parse_node);
            return Err(FixtureError::Invalid("node entry out of range"));
        }
        let key = crate::btree::copy_bytes(vstd::slice::slice_subrange(blk, key_area + koff, key_area + koff + klen));
        let val = crate::btree::copy_bytes(vstd::slice::slice_subrange(blk, val_end - voff, val_end - voff + vlen));
        let ghost before = records@;
        records.push(Record { key, val });
        assert(records_view(records@) =~= node_records(b, i + 1, data_start as int, table_len as int, val_end as int)) by {
            assert(records_view(records@) =~= records_view(before).push(ent->0));
        };
        i += 1;
    }
    assert(node_entries_ok(b, nkeys as int, data_start as int, table_len as int, val_end as int));
    Ok(NodeImage { paddr, records, is_root, table_len })
}

/// The keys of `rs`, back to back.
pub open spec fn keys_concat(rs: Seq<RecordView>) -> Seq<u8>
    decreases rs.len(),
{
    if rs.len() == 0 {
        Seq::empty()
    } else {
        keys_concat(rs.drop_last()) + rs.last().key
    }
}

/// The values of `rs`, last record's first: the value area grows down
/// from its end.
pub open spec fn vals_rev(rs: Seq<RecordView>) -> Seq<u8>
    decreases rs.len(),
{
    if rs.len() == 0 {
        Seq::empty()
    } else {
        rs.last().val + vals_rev(rs.drop_last())
    }
}

/// Offset of record `i`'s key from the start of the key area.
pub open spec fn koff(rs: Seq<RecordView>, i: int) -> int {
    keys_concat(rs.take(i)).len() as int
}

/// Distance from the end of the value area back to record `i`'s value.
pub open spec fn voff(rs: Seq<RecordView>, i: int) -> int {
    vals_rev(rs.take(i + 1)).len() as int
}

/// Table-of-contents entry `i`: key offset and length, value offset and
/// length.
pub open spec fn entry_bytes(rs: Seq<RecordView>, i: int) -> Seq<u8> {
    u16_le(koff(rs, i) as u16) + u16_le(rs[i].key.len() as u16) + u16_le(voff(rs, i) as u16) + u16_le(
        rs[i].val.len() as u16,
    )
}

/// The first `n` table-of-contents entries.
pub open spec fn toc_bytes(rs: Seq<RecordView>, n: int) -> Seq<u8>
    decreases n,
{
    if n <= 0 {
        Seq::empty()
    } else {
        toc_bytes(rs, n - 1) + entry_bytes(rs, n - 1)
    }
}

/// The longest key and value of `rs`.
pub open spec fn longest_key(rs: Seq<RecordView>) -> int
    decreases rs.len(),
{
    if rs.len() == 0 {
        0
    } else {
        let m = longest_key(rs.drop_last());
        if rs.last().key.len() > m { rs.last().key.len() as int } else { m }
    }
}

pub open spec fn longest_val(rs: Seq<RecordView>) -> int
    decreases rs.len(),
{
    if rs.len() == 0 {
        0
    } else {
        let m = longest_val(rs.drop_last());
        if rs.last().val.len() > m { rs.last().val.len() as int } else { m }
    }
}

/// The table length a node of `n` records gets: the old one, grown to a
/// multiple of 64 bytes when it cannot hold `n` entries.
pub open spec fn grown_table_len(n: int, tl: int) -> int {
    if n * 8 > tl {
        (n * 8 + 63) / 64 * 64
    } else {
        tl
    }
}

/// The first 56 bytes of a serialized node: the old object header and
/// flags, the key count, the old table offset, the table length, the free
/// space (offset and length) and two empty free lists.
pub open spec fn node_head(old: Seq<u8>, rs: Seq<RecordView>, is_root: bool, tl: int) -> Seq<u8> {
    let ka = 56 + le16(old, 40) + tl;
    let kb = keys_concat(rs);
    let gap = val_end(is_root) - vals_rev(rs).len() - (ka + kb.len());
    old.subrange(0, 36) + u32_le(rs.len() as u32) + old.subrange(40, 42) + u16_le(tl as u16) + u16_le(
        kb.len() as u16,
    ) + u16_le(gap as u16) + u16_le(BTOFF_INVALID) + u16_le(0) + u16_le(BTOFF_INVALID) + u16_le(0)
}

/// From byte 56 to the key area: the old bytes up to the table, the table
/// of contents, zeroed unused entries, and the old bytes after them.
pub open spec fn node_front(old: Seq<u8>, rs: Seq<RecordView>, tl: int) -> Seq<u8> {
    let n = rs.len() as int;
    let ds = 56 + le16(old, 40);
    let cap = tl / 8;
    old.subrange(56, ds) + toc_bytes(rs, n) + zeros((8 * (cap - n)) as nat) + old.subrange(ds + 8 * cap, ds + tl)
}

/// From byte 56 to the end of the value area.
pub open spec fn node_body(old: Seq<u8>, rs: Seq<RecordView>, is_root: bool, tl: int) -> Seq<u8> {
    let ka = 56 + le16(old, 40) + tl;
    let kb = keys_concat(rs);
    let vb = vals_rev(rs);
    let gap = val_end(is_root) - vb.len() - (ka + kb.len());
    node_front(old, rs, tl) + kb + zeros(gap as nat) + vb
}

/// A root's trailing `btree_info_t` with its longest key, longest value and
/// key count updated; nothing for other nodes.
pub open spec fn node_tail(old: Seq<u8>, rs: Seq<RecordView>, is_root: bool) -> Seq<u8> {
    let ve = val_end(is_root);
    if is_root {
        old.subrange(ve, ve + 16) + u32_le(longest_key(rs) as u32) + u32_le(longest_val(rs) as u32) + u64_le(
            rs.len() as u64,
        ) + old.subrange(ve + 32, BS as int)
    } else {
        Seq::empty()
    }
}

/// The block a node serializes to, before its checksum is stored: header
/// counts, table of contents, keys from the key area up, values down from
/// the value area's end, free space between, empty free lists, and for a
/// root the longest key and value and the key count in its `btree_info_t`.
#[verifier::opaque]
pub open spec fn serialized_block(old: Seq<u8>, rs: Seq<RecordView>, is_root: bool, tl: int) -> Seq<u8> {
    node_head(old, rs, is_root, tl) + node_body(old, rs, is_root, tl) + node_tail(old, rs, is_root)
}

/// Whether the records fit: the table of contents, keys and values lie
/// inside the block without overlapping.
pub open spec fn node_fits(old: Seq<u8>, rs: Seq<RecordView>, is_root: bool, tl: int) -> bool {
    let ds = 56 + le16(old, 40);
    ds + tl + keys_concat(rs).len() + vals_rev(rs).len() <= val_end(is_root)
}

proof fn lemma_keys_concat(rs: Seq<RecordView>, i: int)
    requires
        0 <= i < rs.len(),
    ensures
        koff(rs, i) + rs[i].key.len() <= keys_concat(rs).len(),
        keys_concat(rs).subrange(koff(rs, i), koff(rs, i) + rs[i].key.len()) == rs[i].key,
    decreases rs.len(),
{
    let d = rs.drop_last();
    if i == rs.len() - 1 {
        assert(rs.take(i) =~= d);
    } else {
        lemma_keys_concat(d, i);
        assert(d.take(i) =~= rs.take(i));
        assert(keys_concat(rs).subrange(koff(rs, i), koff(rs, i) + rs[i].key.len()) =~= keys_concat(d).subrange(
            koff(d, i),
            koff(d, i) + d[i].key.len(),
        ));
    }
}

proof fn lemma_vals_rev(rs: Seq<RecordView>, i: int)
    requires
        0 <= i < rs.len(),
    ensures
        rs[i].val.len() <= voff(rs, i) <= vals_rev(rs).len(),
        vals_rev(rs).subrange(
            vals_rev(rs).len() - voff(rs, i),
            vals_rev(rs).len() - voff(rs, i) + rs[i].val.len(),
        ) == rs[i].val,
    decreases rs.len(),
{
    let d = rs.drop_last();
    if i == rs.len() - 1 {
        assert(rs.take(i + 1) =~= rs);
        assert(rs.take(i + 1).drop_last() =~= d);
    } else {
        lemma_vals_rev(d, i);
        assert(d.take(i + 1) =~= rs.take(i + 1));
        let v = vals_rev(rs);
        let vd = vals_rev(d);
        assert(v.subrange(v.len() - voff(rs, i), v.len() - voff(rs, i) + rs[i].val.len()) =~= vd.subrange(
            vd.len() - voff(d, i),
            vd.len() - voff(d, i) + d[i].val.len(),
        ));
    }
}

proof fn lemma_toc_bytes(rs: Seq<RecordView>, n: int, i: int)
    requires
        0 <= i < n,
    ensures
        toc_bytes(rs, n).len() == 8 * n,
        toc_bytes(rs, n).subrange(8 * i, 8 * i + 8) == entry_bytes(rs, i),
    decreases n,
{
    lemma_toc_len(rs, n - 1);
    if i < n - 1 {
        lemma_toc_bytes(rs, n - 1, i);
        assert(toc_bytes(rs, n).subrange(8 * i, 8 * i + 8) =~= toc_bytes(rs, n - 1).subrange(8 * i, 8 * i + 8));
    } else {
        assert(toc_bytes(rs, n).subrange(8 * i, 8 * i + 8) =~= entry_bytes(rs, i));
    }
}

proof fn lemma_toc_len(rs: Seq<RecordView>, n: int)
    ensures
        toc_bytes(rs, n).len() == if n <= 0 { 0 } else { 8 * n },
    decreases n,
{
    if n > 0 {
        lemma_toc_len(rs, n - 1);
    }
}

proof fn lemma_le16_of(s: Seq<u8>, o: int, v: u16)
    requires
        0 <= o,
        o + 2 <= s.len(),
        s.subrange(o, o + 2) == u16_le(v),
    ensures
        le16(s, o) == v,
{
    assert(s[o] == s.subrange(o, o + 2)[0] && s[o + 1] == s.subrange(o, o + 2)[1]);
}

proof fn lemma_le32_of(s: Seq<u8>, o: int, v: u32)
    requires
        0 <= o,
        o + 4 <= s.len(),
        s.subrange(o, o + 4) == u32_le(v),
    ensures
        le32(s, o) == v,
{
    let t = s.subrange(o, o + 4);
    assert(s[o] == t[0] && s[o + 1] == t[1] && s[o + 2] == t[2] && s[o + 3] == t[3]);
    let lo = (v % 65536) as u16;
    let hi = (v / 65536) as u16;
    assert(le16(s, o) == lo);
    assert(le16(s, o + 2) == hi);
}

proof fn lemma_concat_right(a: Seq<u8>, b: Seq<u8>, x: int, y: int)
    requires
        0 <= x <= y <= b.len(),
    ensures
        (a + b).subrange(a.len() + x, a.len() + y) == b.subrange(x, y),
{
    assert((a + b).subrange(a.len() + x, a.len() + y) =~= b.subrange(x, y));
}

proof fn lemma_concat_left(a: Seq<u8>, b: Seq<u8>, x: int, y: int)
    requires
        0 <= x <= y <= a.len(),
    ensures
        (a + b).subrange(x, y) == a.subrange(x, y),
{
    assert((a + b).subrange(x, y) =~= a.subrange(x, y));
}

proof fn lemma_node_head(old: Seq<u8>, rs: Seq<RecordView>, is_root: bool, tl: int)
    requires
        old.len() == BS,
    ensures
        ({
            let h = node_head(old, rs, is_root, tl);
            &&& h.len() == 56
            &&& h.subrange(32, 34) == old.subrange(32, 34)
            &&& h.subrange(36, 40) == u32_le(rs.len() as u32)
            &&& h.subrange(40, 42) == old.subrange(40, 42)
            &&& h.subrange(42, 44) == u16_le(tl as u16)
        }),
{
    let h = node_head(old, rs, is_root, tl);
    assert(h.subrange(32, 34) =~= old.subrange(32, 34));
    assert(h.subrange(36, 40) =~= u32_le(rs.len() as u32));
    assert(h.subrange(40, 42) =~= old.subrange(40, 42));
    assert(h.subrange(42, 44) =~= u16_le(tl as u16));
}

proof fn lemma_node_front(old: Seq<u8>, rs: Seq<RecordView>, tl: int)
    requires
        old.len() == BS,
        8 * rs.len() <= tl,
        56 + le16(old, 40) + tl <= BS,
    ensures
        node_front(old, rs, tl).len() == le16(old, 40) + tl,
        node_front(old, rs, tl).subrange(le16(old, 40), le16(old, 40) + 8 * rs.len()) == toc_bytes(
            rs,
            rs.len() as int,
        ),
{
    let n = rs.len() as int;
    let ds = 56 + le16(old, 40);
    let cap = tl / 8;
    crate::raw::lemma_le_bounds(old, 40);
    lemma_toc_len(rs, n);
    let a = old.subrange(56, ds);
    let t = toc_bytes(rs, n);
    lemma_concat_right(a, t, 0, 8 * n);
    let f = node_front(old, rs, tl);
    assert(f == (a + t) + zeros((8 * (cap - n)) as nat) + old.subrange(ds + 8 * cap, ds + tl));
    lemma_concat_left(a + t, zeros((8 * (cap - n)) as nat), ds - 56, ds - 56 + 8 * n);
    lemma_concat_left(
        (a + t) + zeros((8 * (cap - n)) as nat),
        old.subrange(ds + 8 * cap, ds + tl),
        ds - 56,
        ds - 56 + 8 * n,
    );
}

proof fn lemma_node_body(old: Seq<u8>, rs: Seq<RecordView>, is_root: bool, tl: int)
    requires
        old.len() == BS,
        8 * rs.len() <= tl,
        node_fits(old, rs, is_root, tl),
    ensures
        ({
            let body = node_body(old, rs, is_root, tl);
            let ds = 56 + le16(old, 40);
            let ka = ds + tl;
            let kb = keys_concat(rs);
            let vb = vals_rev(rs);
            let ve = val_end(is_root);
            &&& body.len() == ve - 56
            &&& body.subrange(ds - 56, ds - 56 + 8 * rs.len()) == toc_bytes(rs, rs.len() as int)
            &&& body.subrange(ka - 56, ka - 56 + kb.len()) == kb
            &&& body.subrange(ve - 56 - vb.len(), ve - 56) == vb
        }),
{
    let ds = 56 + le16(old, 40);
    let ka = ds + tl;
    let kb = keys_concat(rs);
    let vb = vals_rev(rs);
    let ve = val_end(is_root);
    let gap = ve - vb.len() - (ka + kb.len());
    crate::raw::lemma_le_bounds(old, 40);
    lemma_node_front(old, rs, tl);
    let f = node_front(old, rs, tl);
    let f1 = f + kb;
    let f2 = f1 + zeros(gap as nat);
    let body = node_body(old, rs, is_root, tl);
    assert(body == f2 + vb);
    lemma_concat_left(f, kb, ds - 56, ds - 56 + 8 * rs.len());
    lemma_concat_left(f1, zeros(gap as nat), ds - 56, ds - 56 + 8 * rs.len());
    lemma_concat_left(f2, vb, ds - 56, ds - 56 + 8 * rs.len());
    lemma_concat_right(f, kb, 0, kb.len() as int);
    lemma_concat_left(f1, zeros(gap as nat), ka - 56, ka - 56 + kb.len());
    lemma_concat_left(f2, vb, ka - 56, ka - 56 + kb.len());
    lemma_concat_right(f2, vb, 0, vb.len() as int);
}

/// Where the parts of a serialized block lie.
#[verifier::rlimit(30)]
proof fn lemma_serialized_regions(old: Seq<u8>, rs: Seq<RecordView>, is_root: bool, tl: int)
    requires
        old.len() == BS,
        8 * rs.len() <= tl <= 0xFFFF,
        node_fits(old, rs, is_root, tl),
    ensures
        ({
            let sb = serialized_block(old, rs, is_root, tl);
            let n = rs.len() as int;
            let ds = 56 + le16(old, 40);
            let ka = ds + tl;
            let kb = keys_concat(rs);
            let vb = vals_rev(rs);
            let ve = val_end(is_root);
            &&& sb.len() == BS
            &&& sb.subrange(32, 34) == old.subrange(32, 34)
            &&& sb.subrange(36, 40) == u32_le(n as u32)
            &&& sb.subrange(40, 42) == old.subrange(40, 42)
            &&& sb.subrange(42, 44) == u16_le(tl as u16)
            &&& sb.subrange(ds, ds + 8 * n) == toc_bytes(rs, n)
            &&& sb.subrange(ka, ka + kb.len()) == kb
            &&& sb.subrange(ve - vb.len(), ve) == vb
        }),
{
    reveal(serialized_block);
    let n = rs.len() as int;
    let ds = 56 + le16(old, 40);
    let ka = ds + tl;
    let kb = keys_concat(rs);
    let vb = vals_rev(rs);
    let ve = val_end(is_root);
    crate::raw::lemma_le_bounds(old, 40);
    lemma_node_head(old, rs, is_root, tl);
    lemma_node_body(old, rs, is_root, tl);
    let h = node_head(old, rs, is_root, tl);
    let body = node_body(old, rs, is_root, tl);
    let t = node_tail(old, rs, is_root);
    assert(t.len() == BS - ve);
    let hb = h + body;
    lemma_concat_left(h, body, 32, 34);
    lemma_concat_left(h, body, 36, 40);
    lemma_concat_left(h, body, 40, 42);
    lemma_concat_left(h, body, 42, 44);
    lemma_concat_left(hb, t, 32, 34);
    lemma_concat_left(hb, t, 36, 40);
    lemma_concat_left(hb, t, 40, 42);
    lemma_concat_left(hb, t, 42, 44);
    lemma_concat_right(h, body, ds - 56, ds - 56 + 8 * n);
    lemma_concat_right(h, body, ka - 56, ka - 56 + kb.len());
    lemma_concat_right(h, body, ve - 56 - vb.len(), ve - 56);
    lemma_concat_left(hb, t, ds, ds + 8 * n);
    lemma_concat_left(hb, t, ka, ka + kb.len());
    lemma_concat_left(hb, t, ve - vb.len(), ve);
}

/// One table entry of a block whose table, key area and value area hold
/// `rs`'s entries, keys and values reads back as record `i`.
#[verifier::spinoff_prover]
#[verifier::rlimit(40)]
proof fn lemma_entry_reads_back(b: Seq<u8>, rs: Seq<RecordView>, ds: int, ka: int, ve: int, i: int)
    requires
        0 <= i < rs.len(),
        0 <= ds,
        ds + 8 * rs.len() <= b.len(),
        0 <= ka,
        ka + keys_concat(rs).len() <= b.len(),
        vals_rev(rs).len() <= ve <= b.len(),
        b.subrange(ds, ds + 8 * rs.len()) == toc_bytes(rs, rs.len() as int),
        b.subrange(ka, ka + keys_concat(rs).len()) == keys_concat(rs),
        b.subrange(ve - vals_rev(rs).len(), ve) == vals_rev(rs),
        keys_concat(rs).len() <= 0xFFFF,
        vals_rev(rs).len() <= 0xFFFF,
    ensures
        node_entry(b, ds, ka, ve, i) == Some(rs[i]),
{
    let n = rs.len() as int;
    let e = ds + 8 * i;
    let kb = keys_concat(rs);
    let vb = vals_rev(rs);
    lemma_toc_bytes(rs, n, i);
    lemma_keys_concat(rs, i);
    lemma_vals_rev(rs, i);
    let eb = entry_bytes(rs, i);
    assert(b.subrange(e, e + 8) =~= eb) by {
        assert(b.subrange(e, e + 8) =~= b.subrange(ds, ds + 8 * n).subrange(8 * i, 8 * i + 8));
    };
    let ko = koff(rs, i);
    let vo = voff(rs, i);
    let kl = rs[i].key.len() as int;
    let vl = rs[i].val.len() as int;
    let a0 = u16_le(ko as u16);
    let a1 = u16_le(rs[i].key.len() as u16);
    let a2 = u16_le(vo as u16);
    let a3 = u16_le(rs[i].val.len() as u16);
    assert(eb == a0 + a1 + a2 + a3);
    assert(eb.subrange(2, 4) =~= a1);
    assert(eb.subrange(4, 6) =~= a2);
    assert(b.subrange(e, e + 2) =~= eb.subrange(0, 2));
    assert(b.subrange(e + 2, e + 4) =~= eb.subrange(2, 4));
    assert(b.subrange(e + 4, e + 6) =~= eb.subrange(4, 6));
    assert(b.subrange(e + 6, e + 8) =~= eb.subrange(6, 8));
    assert(b.subrange(e, e + 2) =~= a0);
    assert(b.subrange(e + 6, e + 8) =~= a3);
    lemma_le16_of(b, e, ko as u16);
    lemma_le16_of(b, e + 2, kl as u16);
    lemma_le16_of(b, e + 4, vo as u16);
    lemma_le16_of(b, e + 6, vl as u16);
    assert(b.subrange(ka + ko, ka + ko + kl) =~= b.subrange(ka, ka + kb.len()).subrange(ko, ko + kl));
    let vs = vb.len() - vo;
    assert(b.subrange(ve - vo, ve - vo + vl) =~= b.subrange(ve - vb.len(), ve).subrange(vs, vs + vl));
}

/// A serialized node reads back as the records it was given, whatever its
/// first 8 bytes (the stored checksum) hold: what the tool writes is what
/// its own reads see.
#[verifier::rlimit(30)]
pub proof fn lemma_serialized_node_parses(old: Seq<u8>, b: Seq<u8>, rs: Seq<RecordView>, is_root: bool, tl: int)
    requires
        old.len() == BS,
        (le16(old, 32) as u16) & BTNODE_FIXED_KV_SIZE == 0,
        ((le16(old, 32) as u16) & BTNODE_ROOT != 0) == is_root,
        8 * rs.len() <= tl <= 0xFFFF,
        node_fits(old, rs, is_root, tl),
        b.len() == BS,
        b.skip(8) == serialized_block(old, rs, is_root, tl).skip(8),
    ensures
        serialized_block(old, rs, is_root, tl).len() == BS,
        spec_parse_node(b) == Ok::<(Seq<RecordView>, bool, u16), &'static str>((rs, is_root, tl as u16)),
{
    reveal(spec_parse_node);
    let n = rs.len() as int;
    let ds = 56 + le16(old, 40);
    let ka = ds + tl;
    let kb = keys_concat(rs);
    let vb = vals_rev(rs);
    let ve = val_end(is_root);
    let sb = serialized_block(old, rs, is_root, tl);
    lemma_serialized_regions(old, rs, is_root, tl);
    crate::raw::lemma_le_bounds(old, 40);
    assert forall|x: int, y: int| 8 <= x <= y <= BS implies #[trigger] b.subrange(x, y) == sb.subrange(x, y) by {
        assert(b.subrange(x, y) =~= b.skip(8).subrange(x - 8, y - 8));
        assert(sb.subrange(x, y) =~= sb.skip(8).subrange(x - 8, y - 8));
    };
    assert(b.subrange(32, 34) == old.subrange(32, 34));
    assert(le16(b, 32) == le16(old, 32)) by {
        assert(b[32] == b.subrange(32, 34)[0] && b[33] == b.subrange(32, 34)[1]);
        assert(old[32] == old.subrange(32, 34)[0] && old[33] == old.subrange(32, 34)[1]);
    };
    assert(b.subrange(36, 40) == u32_le(n as u32));
    lemma_le32_of(b, 36, n as u32);
    assert(b.subrange(40, 42) == old.subrange(40, 42));
    assert(le16(b, 40) == le16(old, 40)) by {
        assert(b[40] == b.subrange(40, 42)[0] && b[41] == b.subrange(40, 42)[1]);
        assert(old[40] == old.subrange(40, 42)[0] && old[41] == old.subrange(40, 42)[1]);
    };
    assert(b.subrange(42, 44) == u16_le(tl as u16));
    lemma_le16_of(b, 42, tl as u16);
    assert(b.subrange(ds, ds + 8 * n) == toc_bytes(rs, n));
    assert(b.subrange(ka, ka + kb.len()) == kb);
    assert(b.subrange(ve - vb.len(), ve) == vb);
    assert forall|i: int| 0 <= i < n implies #[trigger] node_entry(b, ds, ds + tl, ve, i) == Some(rs[i]) by {
        lemma_entry_reads_back(b, rs, ds, ka, ve, i);
    };
    assert(node_entries_ok(b, n, ds, tl, ve));
    assert(node_records(b, n, ds, tl, ve) =~= rs);
}

proof fn lemma_prefix_step(rs: Seq<RecordView>, i: int)
    requires
        0 <= i < rs.len(),
    ensures
        keys_concat(rs.take(i + 1)) == keys_concat(rs.take(i)) + rs[i].key,
        vals_rev(rs.take(i + 1)) == rs[i].val + vals_rev(rs.take(i)),
        longest_key(rs.take(i + 1)) == (if rs[i].key.len() > longest_key(rs.take(i)) {
            rs[i].key.len() as int
        } else {
            longest_key(rs.take(i))
        }),
        longest_val(rs.take(i + 1)) == (if rs[i].val.len() > longest_val(rs.take(i)) {
            rs[i].val.len() as int
        } else {
            longest_val(rs.take(i))
        }),
        toc_bytes(rs, i + 1) == toc_bytes(rs, i) + entry_bytes(rs, i),
{
    assert(rs.take(i + 1).drop_last() =~= rs.take(i));
    assert(rs.take(i + 1).last() == rs[i]);
}

proof fn lemma_longest_bounds(rs: Seq<RecordView>)
    ensures
        0 <= longest_key(rs) <= keys_concat(rs).len(),
        0 <= longest_val(rs) <= vals_rev(rs).len(),
    decreases rs.len(),
{
    if rs.len() > 0 {
        lemma_longest_bounds(rs.drop_last());
    }
}

/// Keys back to back, values last-first, and the longest key and value.
#[verifier::rlimit(30)]
fn layout_records(recs: &Vec<Record>) -> (r: (Vec<u8>, Vec<u8>, usize, usize))
    ensures
        r.0@ == keys_concat(records_view(recs@)),
        r.1@ == vals_rev(records_view(recs@)),
        r.2 == longest_key(records_view(recs@)),
        r.3 == longest_val(records_view(recs@)),
{
    let ghost rs = records_view(recs@);
    let n = recs.len();
    let mut kb: Vec<u8> = Vec::new();
    let mut vb: Vec<u8> = Vec::new();
    let mut lk: usize = 0;
    let mut lv: usize = 0;
    let mut i: usize = 0;
    while i < n
        invariant
            i <= n,
            n == recs@.len(),
            rs == records_view(recs@),
            kb@ == keys_concat(rs.take(i as int)),
            vb@ == vals_rev(rs.take(i as int)),
            lk == longest_key(rs.take(i as int)),
            lv == longest_val(rs.take(i as int)),
        decreases n - i,
    {
        proof {
            lemma_prefix_step(rs, i as int);
        }
        let rec = &recs[i];
        push_bytes(&mut kb, rec.key.as_slice());
        let mut nv: Vec<u8> = Vec::new();
        push_bytes(&mut nv, rec.val.as_slice());
        push_bytes(&mut nv, vb.as_slice());
        vb = nv;
        if rec.key.len() > lk {
            lk = rec.key.len();
        }
        if rec.val.len() > lv {
            lv = rec.val.len();
        }
        i += 1;
    }
    proof {
        assert(rs.take(n as int) =~= rs);
    }
    (kb, vb, lk, lv)
}

/// The table of contents of `recs`, whose keys and values fit in a block.
#[verifier::rlimit(30)]
fn toc_vec(recs: &Vec<Record>) -> (t: Vec<u8>)
    requires
        keys_concat(records_view(recs@)).len() + vals_rev(records_view(recs@)).len() <= BS,
    ensures
        t@ == toc_bytes(records_view(recs@), recs@.len() as int),
{
    let ghost rs = records_view(recs@);
    let n = recs.len();
    let mut t: Vec<u8> = Vec::new();
    let mut koff_run: usize = 0;
    let mut voff_run: usize = 0;
    let mut k: usize = 0;
    while k < n
        invariant
            k <= n,
            n == rs.len(),
            rs == records_view(recs@),
            keys_concat(rs).len() + vals_rev(rs).len() <= BS,
            koff_run == keys_concat(rs.take(k as int)).len(),
            voff_run == vals_rev(rs.take(k as int)).len(),
            t@ == toc_bytes(rs, k as int),
        decreases n - k,
    {
        proof {
            lemma_prefix_step(rs, k as int);
            lemma_keys_concat(rs, k as int);
            lemma_vals_rev(rs, k as int);
        }
        let rec = &recs[k];
        let kl = rec.key.len();
        let vl = rec.val.len();
        let vo = voff_run + vl;
        assert(vo == voff(rs, k as int));
        assert(koff_run == koff(rs, k as int));
        push_bytes(&mut t, &u16_bytes(koff_run as u16));
        push_bytes(&mut t, &u16_bytes(kl as u16));
        push_bytes(&mut t, &u16_bytes(vo as u16));
        push_bytes(&mut t, &u16_bytes(vl as u16));
        assert(t@ =~= toc_bytes(rs, k + 1));
        koff_run = koff_run + kl;
        voff_run = vo;
        k += 1;
    }
    t
}

/// Append `n` zero bytes.
fn push_zeros(d: &mut Vec<u8>, n: usize)
    ensures
        final(d)@ == old(d)@ + zeros(n as nat),
{
    let ghost d0 = old(d)@;
    let mut z: usize = 0;
    while z < n
        invariant
            z <= n,
            d@ == d0 + zeros(z as nat),
        decreases n - z,
    {
        d.push(0);
        assert(d@ =~= d0 + zeros((z + 1) as nat));
        z += 1;
    }
}

/// The serialized block, given the node's layout.
#[verifier::rlimit(30)]
fn build_node_block(
    blk: &[u8],
    node: &NodeImage,
    kb: &Vec<u8>,
    vb: &Vec<u8>,
    lk: usize,
    lv: usize,
    table_len: usize,
) -> (nb: Vec<u8>)
    requires
        blk@.len() == BS,
        kb@ == keys_concat(records_view(node.records@)),
        vb@ == vals_rev(records_view(node.records@)),
        lk == longest_key(records_view(node.records@)),
        lv == longest_val(records_view(node.records@)),
        8 * node.records@.len() <= table_len,
        node_fits(blk@, records_view(node.records@), node.is_root, table_len as int),
    ensures
        nb@ == serialized_block(blk@, records_view(node.records@), node.is_root, table_len as int),
{
    reveal(serialized_block);
    let ghost rs = records_view(node.records@);
    let ghost old_blk = blk@;
    let n = node.records.len();
    let cap = table_len / 8;
    let table_off = r16(blk, OBJ_HDR_SIZE + 8);
    let data_start = 56 + table_off as usize;
    let key_area = data_start + table_len;
    let val_end = if node.is_root { BS - BTREE_INFO_SIZE } else { BS };
    let gap = val_end - vb.len() - (key_area + kb.len());
    proof {
        lemma_longest_bounds(rs);
    }
    let mut nb: Vec<u8> = Vec::new();
    push_bytes(&mut nb, vstd::slice::slice_subrange(blk, 0, 36));
    push_bytes(&mut nb, &u32_bytes(n as u32)); // btn_nkeys
    push_bytes(&mut nb, vstd::slice::slice_subrange(blk, 40, 42));
    push_bytes(&mut nb, &u16_bytes(table_len as u16)); // btn_table_space.len
    // Free space: offset relative to the key area, length of the gap.
    push_bytes(&mut nb, &u16_bytes(kb.len() as u16));
    push_bytes(&mut nb, &u16_bytes(gap as u16));
    // Empty free lists.
    push_bytes(&mut nb, &u16_bytes(BTOFF_INVALID));
    push_bytes(&mut nb, &u16_bytes(0));
    push_bytes(&mut nb, &u16_bytes(BTOFF_INVALID));
    push_bytes(&mut nb, &u16_bytes(0));
    assert(nb@ =~= node_head(old_blk, rs, node.is_root, table_len as int));
    let ghost head = nb@;
    let mut front: Vec<u8> = Vec::new();
    push_bytes(&mut front, vstd::slice::slice_subrange(blk, 56, data_start));
    let toc = toc_vec(&node.records);
    push_bytes(&mut front, toc.as_slice());
    push_zeros(&mut front, 8 * (cap - n));
    push_bytes(&mut front, vstd::slice::slice_subrange(blk, data_start + 8 * cap, key_area));
    assert(front@ =~= node_front(old_blk, rs, table_len as int));
    push_bytes(&mut front, kb.as_slice());
    push_zeros(&mut front, gap);
    push_bytes(&mut front, vb.as_slice());
    assert(front@ =~= node_body(old_blk, rs, node.is_root, table_len as int));
    push_bytes(&mut nb, front.as_slice());
    let ghost hb = nb@;
    let mut tail: Vec<u8> = Vec::new();
    if node.is_root {
        // btree_info: longest key and value, key count.
        push_bytes(&mut tail, vstd::slice::slice_subrange(blk, val_end, val_end + 16));
        push_bytes(&mut tail, &u32_bytes(lk as u32));
        push_bytes(&mut tail, &u32_bytes(lv as u32));
        push_bytes(&mut tail, &u64_bytes(n as u64)); // bt_key_count
        push_bytes(&mut tail, vstd::slice::slice_subrange(blk, val_end + 32, BS));
    }
    assert(tail@ =~= node_tail(old_blk, rs, node.is_root));
    push_bytes(&mut nb, tail.as_slice());
    nb
}

/// Write a whole block and store its checksum.
#[verifier::spinoff_prover]
#[verifier::rlimit(40)]
fn write_block(img: &mut Image, n: u64, nb: &Vec<u8>)
    requires
        old(img).has_block(n),
        nb@.len() == BS,
    ensures
        final(img).data@ == splice(old(img).data@, n * BS, with_checksum(nb@)),
        object_valid(block_of(final(img).data@, n as int)),
        final(img).data@.len() == old(img).data@.len(),
{
    let ghost d0 = img.data@;
    assert(n * BS + BS <= img.data.len()) by (nonlinear_arith)
        requires
            (n + 1) * BS <= img.data.len(),
    ;
    let start = (n as usize) * BS;
    put_bytes(&mut img.data, start, nb.as_slice());
    assert(block_of(img.data@, n as int) =~= nb@);
    img.fix_checksum(n);
    proof {
        lemma_store_checksum(nb@);
        assert(img.data@ =~= splice(d0, start as int, with_checksum(nb@)));
    }
}

/// Serialize `node` back into its block: rebuild the table of contents,
/// lay keys forward and values backward, refresh the free-space and
/// `btree_info_t` fields, and store the checksum. Stops with "node
/// overflow" when the records do not fit.
#[verifier::rlimit(30)]
pub fn serialize_node(img: &mut Image, node: &NodeImage) -> (r: core::result::Result<(), FixtureError>)
    requires
        old(img).has_block(node.paddr),
    ensures
        ({
            let old_blk = block_of(old(img).data@, node.paddr as int);
            let rs = records_view(node.records@);
            let tl = grown_table_len(rs.len() as int, node.table_len as int);
            if node_fits(old_blk, rs, node.is_root, tl) {
                &&& r is Ok
                &&& final(img).data@ == splice(
                    old(img).data@,
                    node.paddr * BS,
                    with_checksum(serialized_block(old_blk, rs, node.is_root, tl)),
                )
                &&& object_valid(block_of(final(img).data@, node.paddr as int))
            } else {
                &&& r == Err::<(), FixtureError>(FixtureError::Invalid("node overflow"))
                &&& final(img).data@ == old(img).data@
            }
        }),
        final(img).data@.len() == old(img).data@.len(),
{
    let ghost rs = records_view(node.records@);
    let ghost old_blk = block_of(img.data@, node.paddr as int);
    let n = node.records.len();
    let ghost tl_spec = grown_table_len(n as int, node.table_len as int);
    if n > BS / 8 {
        return Err(FixtureError::Invalid("node overflow"));
    }
    let (kb, vb, lk, lv) = layout_records(&node.records);
    if kb.len() > BS || vb.len() > BS || kb.len() + vb.len() > BS {
        return Err(FixtureError::Invalid("node overflow"));
    }
    // Grow the table of contents if needed (the node is rebuilt anyway).
    let mut table_len = node.table_len as usize;
    if n * 8 > table_len {
        table_len = (n * 8 + 63) / 64 * 64;
    }
    assert(table_len == tl_spec);
    let blk = img.block(node.paddr);
    let table_off = r16(blk, OBJ_HDR_SIZE + 8);
    let data_start = 56 + table_off as usize;
    let key_area = data_start + table_len;
    let val_end = if node.is_root { BS - BTREE_INFO_SIZE } else { BS };
    if key_area + kb.len() + vb.len() > val_end {
        return Err(FixtureError::Invalid("node overflow"));
    }
    let nb = build_node_block(blk, node, &kb, &vb, lk, lv, table_len);
    proof {
        lemma_serialized_regions(old_blk, rs, node.is_root, tl_spec);
    }
    write_block(img, node.paddr, &nb);
    Ok(())
}

// ---------- container navigation (minimal, trusting a fresh image) ----------

/// Block `n` lies inside image bytes `d`.
pub open spec fn block_in(d: Seq<u8>, n: int) -> bool {
    0 <= n && (n + 1) * BS <= d.len()
}

/// Scanning a single-leaf object map from entry `i` for `oid`: the
/// physical address its first entry maps it to.
pub open spec fn omap_scan(
    blk: Seq<u8>,
    i: int,
    n: int,
    ds: int,
    ka: int,
    fixed: bool,
    oid: u64,
    omap_paddr: u64,
) -> core::result::Result<u64, FixtureError>
    decreases n - i,
{
    if i >= n {
        Err(FixtureError::OidNotFound { oid, omap_paddr })
    } else {
        let ko_pos = if fixed { ds + 4 * i } else { ds + 8 * i };
        let vo_pos = if fixed { ds + 4 * i + 2 } else { ds + 8 * i + 4 };
        if vo_pos + 2 > BS {
            Err(FixtureError::Invalid("node entry out of range"))
        } else {
            let koff = le16(blk, ko_pos);
            let voff = le16(blk, vo_pos);
            let ve = BS - BTREE_INFO_SIZE;
            if ka + koff + 8 > BS {
                Err(FixtureError::Invalid("node entry out of range"))
            } else if le64(blk, ka + koff) == oid {
                if voff > ve || ve - voff + 16 > BS {
                    Err(FixtureError::Invalid("node entry out of range"))
                } else {
                    Ok(le64(blk, ve - voff + 8) as u64)
                }
            } else {
                omap_scan(blk, i + 1, n, ds, ka, fixed, oid, omap_paddr)
            }
        }
    }
}

/// The physical address the object map at `omap_paddr` gives `oid`
/// (fresh images have single-leaf object-map trees).
pub open spec fn spec_omap_lookup_first(d: Seq<u8>, omap_paddr: u64, oid: u64) -> core::result::Result<u64, FixtureError> {
    if !block_in(d, omap_paddr as int) {
        Err(FixtureError::Invalid("block out of range"))
    } else {
        let om_tree = le64(block_of(d, omap_paddr as int), OBJ_HDR_SIZE + 16) as u64;
        if !block_in(d, om_tree as int) {
            Err(FixtureError::Invalid("block out of range"))
        } else {
            let blk = block_of(d, om_tree as int);
            let flags = le16(blk, 32) as u16;
            if flags & BTNODE_LEAF == 0 {
                Err(FixtureError::Invalid("omap tree not a single leaf"))
            } else {
                let ds = 56 + le16(blk, 40);
                omap_scan(blk, 0, le32(blk, 36), ds, ds + le16(blk, 42), flags & BTNODE_FIXED_KV_SIZE != 0, oid, omap_paddr)
            }
        }
    }
}

#[verifier::rlimit(30)]
pub fn omap_lookup_first(img: &Image, omap_paddr: u64, oid: u64) -> (r: core::result::Result<u64, FixtureError>)
    ensures
        r == spec_omap_lookup_first(img.data@, omap_paddr, oid),
{
    if !img.block_in_range(omap_paddr) {
        return Err(FixtureError::Invalid("block out of range"));
    }
    let om_tree = r64(img.block(omap_paddr), OBJ_HDR_SIZE + 16);
    if !img.block_in_range(om_tree) {
        return Err(FixtureError::Invalid("block out of range"));
    }
    let blk = img.block(om_tree);
    let nkeys = r32(blk, OBJ_HDR_SIZE + 4);
    let table_off = r16(blk, OBJ_HDR_SIZE + 8);
    let table_len = r16(blk, OBJ_HDR_SIZE + 10);
    let flags = r16(blk, OBJ_HDR_SIZE);
    if flags & BTNODE_LEAF == 0 {
        return Err(FixtureError::Invalid("omap tree not a single leaf"));
    }
    let data_start = 56 + table_off as usize;
    let key_area = data_start + table_len as usize;
    let val_end = BS - BTREE_INFO_SIZE;
    let fixed = flags & BTNODE_FIXED_KV_SIZE != 0;
    let ghost b = blk@;
    let mut i: u32 = 0;
    while i < nkeys
        invariant
            i <= nkeys,
            b == blk@,
            b.len() == BS,
            spec_omap_lookup_first(img.data@, omap_paddr, oid) == omap_scan(
                b,
                i as int,
                nkeys as int,
                data_start as int,
                key_area as int,
                fixed,
                oid,
                omap_paddr,
            ),
            data_start <= 56 + 0xFFFF,
            key_area <= 56 + 0xFFFF + 0xFFFF,
            val_end == BS - BTREE_INFO_SIZE,
        decreases nkeys - i,
    {
        if (i as usize) > BS {
            return Err(FixtureError::Invalid("node entry out of range"));
        }
        let (ko_pos, vo_pos) = if fixed {
            (data_start + (i as usize) * 4, data_start + (i as usize) * 4 + 2)
        } else {
            (data_start + (i as usize) * 8, data_start + (i as usize) * 8 + 4)
        };
        if vo_pos + 2 > BS {
            return Err(FixtureError::Invalid("node entry out of range"));
        }
        let koff = r16(blk, ko_pos) as usize;
        let voff = r16(blk, vo_pos) as usize;
        if key_area + koff + 8 > BS {
            return Err(FixtureError::Invalid("node entry out of range"));
        }
        let k_oid = r64(blk, key_area + koff);
        if k_oid == oid {
            if voff > val_end || val_end - voff + 16 > BS {
                return Err(FixtureError::Invalid("node entry out of range"));
            }
            return Ok(r64(blk, val_end - voff + 8)); // ov_paddr
        }
        i += 1;
    }
    Err(FixtureError::OidNotFound { oid, omap_paddr })
}

/// Where the tool edits a fresh image: the volume superblock, the fs-tree
/// root node, the extent-reference tree root and the space manager.
#[derive(Debug, Clone, Copy, PartialEq, Eq, Structural)]
pub struct Layout {
    pub apsb_paddr: u64,
    pub fs_root_paddr: u64,
    pub extentref_paddr: u64,
    pub spaceman_paddr: u64,
}

/// The latest container superblock among the first `i` blocks of the
/// checkpoint descriptor area: its address and xid, `(0, 0)` when none (a
/// later block wins a tie).
pub open spec fn desc_scan(d: Seq<u8>, base: u64, i: int) -> core::result::Result<(u64, u64), FixtureError>
    decreases i,
{
    if i <= 0 {
        Ok((0, 0))
    } else {
        match desc_scan(d, base, i - 1) {
            Err(e) => Err(e),
            Ok((p, x)) => {
                let paddr = base + (i - 1);
                if paddr > u64::MAX || !block_in(d, paddr) {
                    Err(FixtureError::Invalid("block out of range"))
                } else {
                    let blk = block_of(d, paddr);
                    if (le32(blk, 24) as u32) & OBJECT_TYPE_MASK == OBJECT_TYPE_NX_SUPERBLOCK && le64(blk, 16) >= x {
                        Ok((paddr as u64, le64(blk, 16) as u64))
                    } else {
                        Ok((p, x))
                    }
                }
            },
        }
    }
}

/// The first space manager with oid `oid` among blocks `i..n` of the
/// checkpoint data area; 0 when there is none.
pub open spec fn spaceman_scan(d: Seq<u8>, base: u64, i: int, n: int, oid: u64) -> core::result::Result<u64, FixtureError>
    decreases n - i,
{
    if i >= n {
        Ok(0)
    } else {
        let paddr = base + i;
        if paddr > u64::MAX || !block_in(d, paddr) {
            Err(FixtureError::Invalid("block out of range"))
        } else {
            let blk = block_of(d, paddr);
            if (le32(blk, 24) as u32) & OBJECT_TYPE_MASK == OBJECT_TYPE_SPACEMAN && le64(blk, 8) == oid {
                Ok(paddr as u64)
            } else {
                spaceman_scan(d, base, i + 1, n, oid)
            }
        }
    }
}

/// The layout of a fresh image: the latest checkpoint's space manager,
/// the first volume's superblock, and its fs-tree and extent-reference
/// roots.
#[verifier::opaque]
pub open spec fn spec_discover(d: Seq<u8>) -> core::result::Result<Layout, FixtureError> {
    if !block_in(d, 0) {
        Err(FixtureError::Invalid("block out of range"))
    } else {
        let nx = block_of(d, 0);
        if le32(nx, OBJ_HDR_SIZE as int) != NX_MAGIC {
            Err(FixtureError::Invalid("not an APFS container"))
        } else {
            match desc_scan(d, le64(nx, OBJ_HDR_SIZE + 80) as u64, le32(nx, OBJ_HDR_SIZE + 72)) {
                Err(e) => Err(e),
                Ok((nx_paddr, _)) => if nx_paddr == 0 {
                    Err(FixtureError::Invalid("no checkpoint superblock found"))
                } else {
                    spec_discover_from(d, nx_paddr, le64(nx, OBJ_HDR_SIZE + 88) as u64, le32(nx, OBJ_HDR_SIZE + 76))
                },
            }
        }
    }
}

/// The layout, from the chosen checkpoint superblock at `nx_paddr`.
pub open spec fn spec_discover_from(d: Seq<u8>, nx_paddr: u64, data_base: u64, data_blocks: int) -> core::result::Result<
    Layout,
    FixtureError,
> {
    let nxb = block_of(d, nx_paddr as int);
    match spaceman_scan(d, data_base, 0, data_blocks, le64(nxb, OBJ_HDR_SIZE + 120) as u64) {
        Err(e) => Err(e),
        Ok(smp) => if smp == 0 {
            Err(FixtureError::Invalid("spaceman not found in checkpoint data"))
        } else {
            spec_discover_volume(d, smp, le64(nxb, OBJ_HDR_SIZE + 128) as u64, le64(nxb, OBJ_HDR_SIZE + 152) as u64)
        },
    }
}

/// The layout, from the space manager's address and the container object
/// map and first volume oid.
pub open spec fn spec_discover_volume(d: Seq<u8>, smp: u64, omap_oid: u64, fs_oid: u64) -> core::result::Result<
    Layout,
    FixtureError,
> {
    match spec_omap_lookup_first(d, omap_oid, fs_oid) {
        Err(e) => Err(e),
        Ok(apsb_paddr) => if !block_in(d, apsb_paddr as int) {
            Err(FixtureError::Invalid("block out of range"))
        } else {
            let apsb = block_of(d, apsb_paddr as int);
            if le32(apsb, OBJ_HDR_SIZE as int) != APFS_MAGIC {
                Err(FixtureError::Invalid("bad volume superblock"))
            } else {
                match spec_omap_lookup_first(d, le64(apsb, OBJ_HDR_SIZE + 96) as u64, le64(apsb, OBJ_HDR_SIZE + 104) as u64) {
                    Err(e) => Err(e),
                    Ok(fs_root_paddr) => Ok(
                        Layout {
                            apsb_paddr,
                            fs_root_paddr,
                            extentref_paddr: le64(apsb, OBJ_HDR_SIZE + 112) as u64,
                            spaceman_paddr: smp,
                        },
                    ),
                }
            }
        },
    }
}

proof fn lemma_desc_scan_stops(d: Seq<u8>, base: u64, k: int, n: int)
    requires
        0 < k <= n,
        desc_scan(d, base, k) is Err,
    ensures
        desc_scan(d, base, n) == desc_scan(d, base, k),
    decreases n - k,
{
    if k < n {
        assert(desc_scan(d, base, k + 1) == desc_scan(d, base, k));
        lemma_desc_scan_stops(d, base, k + 1, n);
    }
}

proof fn lemma_desc_scan_found(d: Seq<u8>, base: u64, n: int)
    ensures
        desc_scan(d, base, n) matches Ok((p, _)) ==> (p == 0 || block_in(d, p as int)),
    decreases n,
{
    if n > 0 {
        lemma_desc_scan_found(d, base, n - 1);
    }
}

/// The latest checkpoint superblock in the descriptor area.
#[verifier::rlimit(30)]
fn find_checkpoint(img: &Image, base: u64, n: u32) -> (r: core::result::Result<u64, FixtureError>)
    ensures
        match desc_scan(img.data@, base, n as int) {
            Ok((p, _)) => r == Ok::<u64, FixtureError>(p),
            Err(e) => r == Err::<u64, FixtureError>(e),
        },
{
    let mut nx_paddr: u64 = 0;
    let mut best_xid: u64 = 0;
    let mut i: u32 = 0;
    while i < n
        invariant
            i <= n,
            desc_scan(img.data@, base, i as int) == Ok::<(u64, u64), FixtureError>((nx_paddr, best_xid)),
        decreases n - i,
    {
        let paddr = match base.checked_add(i as u64) {
            Some(p) => p,
            None => {
                proof {
                    lemma_desc_scan_stops(img.data@, base, i + 1, n as int);
                }
                return Err(FixtureError::Invalid("block out of range"));
            },
        };
        if !img.block_in_range(paddr) {
            proof {
                lemma_desc_scan_stops(img.data@, base, i + 1, n as int);
            }
            return Err(FixtureError::Invalid("block out of range"));
        }
        let blk = img.block(paddr);
        if r32(blk, 24) & OBJECT_TYPE_MASK == OBJECT_TYPE_NX_SUPERBLOCK {
            let xid = r64(blk, 16);
            if xid >= best_xid {
                best_xid = xid;
                nx_paddr = paddr;
            }
        }
        i += 1;
    }
    Ok(nx_paddr)
}

/// The ephemeral space manager: the first data-area block that is a
/// space manager with oid `oid`; 0 when none is.
fn find_spaceman(img: &Image, base: u64, n: u32, oid: u64) -> (r: core::result::Result<u64, FixtureError>)
    ensures
        r == spaceman_scan(img.data@, base, 0, n as int, oid),
{
    let mut j: u32 = 0;
    while j < n
        invariant
            j <= n,
            spaceman_scan(img.data@, base, 0, n as int, oid) == spaceman_scan(img.data@, base, j as int, n as int, oid),
        decreases n - j,
    {
        let paddr = match base.checked_add(j as u64) {
            Some(p) => p,
            None => return Err(FixtureError::Invalid("block out of range")),
        };
        if !img.block_in_range(paddr) {
            return Err(FixtureError::Invalid("block out of range"));
        }
        let blk = img.block(paddr);
        if r32(blk, 24) & OBJECT_TYPE_MASK == OBJECT_TYPE_SPACEMAN && r64(blk, 8) == oid {
            return Ok(paddr);
        }
        j += 1;
    }
    Ok(0)
}

fn discover_volume(img: &Image, smp: u64, omap_oid: u64, fs_oid: u64) -> (r: core::result::Result<Layout, FixtureError>)
    ensures
        r == spec_discover_volume(img.data@, smp, omap_oid, fs_oid),
{
    let apsb_paddr = omap_lookup_first(img, omap_oid, fs_oid)?;
    if !img.block_in_range(apsb_paddr) {
        return Err(FixtureError::Invalid("block out of range"));
    }
    let apsb = img.block(apsb_paddr);
    if r32(apsb, OBJ_HDR_SIZE) != APFS_MAGIC {
        return Err(FixtureError::Invalid("bad volume superblock"));
    }
    let vol_omap_oid = r64(apsb, OBJ_HDR_SIZE + 96);
    let root_tree_oid = r64(apsb, OBJ_HDR_SIZE + 104);
    let extentref_oid = r64(apsb, OBJ_HDR_SIZE + 112); // physical
    let fs_root_paddr = omap_lookup_first(img, vol_omap_oid, root_tree_oid)?;
    Ok(Layout { apsb_paddr, fs_root_paddr, extentref_paddr: extentref_oid, spaceman_paddr: smp })
}

/// Locate what the tool edits in a fresh image.
#[verifier::rlimit(30)]
pub fn discover(img: &Image) -> (r: core::result::Result<Layout, FixtureError>)
    ensures
        r == spec_discover(img.data@),
{
    reveal(spec_discover);
    if !img.block_in_range(0) {
        return Err(FixtureError::Invalid("block out of range"));
    }
    let nx = img.block(0);
    if r32(nx, OBJ_HDR_SIZE) != NX_MAGIC {
        return Err(FixtureError::Invalid("not an APFS container"));
    }
    let xp_desc_blocks = r32(nx, OBJ_HDR_SIZE + 72);
    let xp_data_blocks = r32(nx, OBJ_HDR_SIZE + 76);
    let xp_desc_base = r64(nx, OBJ_HDR_SIZE + 80);
    let xp_data_base = r64(nx, OBJ_HDR_SIZE + 88);
    let nx_paddr = find_checkpoint(img, xp_desc_base, xp_desc_blocks)?;
    if nx_paddr == 0 {
        return Err(FixtureError::Invalid("no checkpoint superblock found"));
    }
    proof {
        lemma_desc_scan_found(img.data@, xp_desc_base, xp_desc_blocks as int);
    }
    let nxb = img.block(nx_paddr);
    let spaceman_oid = r64(nxb, OBJ_HDR_SIZE + 120); // ephemeral
    let omap_oid = r64(nxb, OBJ_HDR_SIZE + 128); // physical
    let fs_oid = r64(nxb, OBJ_HDR_SIZE + 152); // nx_fs_oid[0]
    let smp = find_spaceman(img, xp_data_base, xp_data_blocks, spaceman_oid)?;
    if smp == 0 {
        return Err(FixtureError::Invalid("spaceman not found in checkpoint data"));
    }
    discover_volume(img, smp, omap_oid, fs_oid)
}

// ---------- space manager ----------

/// Where the tool updates the space manager: its block, the chunk-info
/// block and the bitmap block, and the byte offsets of the two free-block
/// counters.
#[derive(Debug, Clone, Copy, PartialEq, Eq, Structural)]
pub struct Spaceman {
    pub paddr: u64,
    pub cib_paddr: u64,
    pub bitmap_paddr: u64,
    pub free_count_off: usize,
    pub ci_free_count_off: usize,
}

/// `spaceman_phys` after the header holds block size, blocks per chunk,
/// chunks per CIB and CIBs per CAB (u32 each), then `sm_dev[MAIN]` with
/// block count, chunk count, CIB count, CAB count, free count and the
/// offset of the CIB address array; the first (only) chunk-info block's
/// first `chunk_info` has xid, address, block count, free count and bitmap
/// address.
#[verifier::opaque]
pub open spec fn spec_discover_spaceman(d: Seq<u8>, smp: u64) -> core::result::Result<Spaceman, FixtureError> {
    if !block_in(d, smp as int) {
        Err(FixtureError::Invalid("block out of range"))
    } else {
        let blk = block_of(d, smp as int);
        let addr_offset = le32(blk, OBJ_HDR_SIZE + 16 + 32);
        if addr_offset + 8 > BS {
            Err(FixtureError::Invalid("spaceman field out of range"))
        } else {
            let cib_paddr = le64(blk, addr_offset) as u64;
            if !block_in(d, cib_paddr as int) {
                Err(FixtureError::Invalid("block out of range"))
            } else {
                Ok(
                    Spaceman {
                        paddr: smp,
                        cib_paddr,
                        bitmap_paddr: le64(block_of(d, cib_paddr as int), OBJ_HDR_SIZE + 8 + 24) as u64,
                        free_count_off: (OBJ_HDR_SIZE + 16 + 24) as usize,
                        ci_free_count_off: (OBJ_HDR_SIZE + 8 + 20) as usize,
                    },
                )
            }
        }
    }
}

pub fn discover_spaceman(img: &Image, spaceman_paddr: u64) -> (r: core::result::Result<Spaceman, FixtureError>)
    ensures
        r == spec_discover_spaceman(img.data@, spaceman_paddr),
        r matches Ok(sm) ==> sm.paddr == spaceman_paddr && sm.free_count_off == 72 && sm.ci_free_count_off == 60,
{
    reveal(spec_discover_spaceman);
    if !img.block_in_range(spaceman_paddr) {
        return Err(FixtureError::Invalid("block out of range"));
    }
    let blk = img.block(spaceman_paddr);
    let dev0 = OBJ_HDR_SIZE + 16;
    let free_count_off = dev0 + 24;
    let addr_offset = r32(blk, dev0 + 32) as usize;
    if addr_offset > BS - 8 {
        return Err(FixtureError::Invalid("spaceman field out of range"));
    }
    let cib_paddr = r64(blk, addr_offset); // first (only) CIB address
    if !img.block_in_range(cib_paddr) {
        return Err(FixtureError::Invalid("block out of range"));
    }
    let cib = img.block(cib_paddr);
    let ci0 = OBJ_HDR_SIZE + 8;
    let ci_free_count_off = ci0 + 20;
    let bitmap_paddr = r64(cib, ci0 + 24);
    Ok(Spaceman { paddr: spaceman_paddr, cib_paddr, bitmap_paddr, free_count_off, ci_free_count_off })
}

/// Bit `b` of a bitmap block: block `b` is in use.
pub open spec fn bit_used(bm: Seq<u8>, b: int) -> bool {
    bm[b / 8] & (1u8 << ((b % 8) as u8)) != 0
}

/// First-fit scan of the bitmap from block `b` with a free run of length
/// `run` starting at `start` behind it: where a run of `count` free blocks
/// begins.
pub open spec fn alloc_scan(bm: Seq<u8>, b: int, total: int, count: int, run: int, start: int) -> core::result::Result<
    int,
    FixtureError,
>
    decreases total - b,
{
    if b >= total {
        Err(FixtureError::NoFreeRun { count: count as usize })
    } else if b / 8 >= bm.len() {
        Err(FixtureError::Invalid("block out of range"))
    } else if bit_used(bm, b) {
        alloc_scan(bm, b + 1, total, count, 0, start)
    } else {
        let start2 = if run == 0 { b } else { start };
        if run + 1 == count {
            Ok(start2)
        } else {
            alloc_scan(bm, b + 1, total, count, run + 1, start2)
        }
    }
}

/// `d` with bit `b` of the bitmap block at `bp` set.
pub open spec fn set_bit(d: Seq<u8>, bp: int, b: int) -> Seq<u8> {
    let p = bp * BS + b / 8;
    d.update(p, d[p] | (1u8 << ((b % 8) as u8)))
}

/// `d` with the bits of blocks `start..start + k` set.
pub open spec fn set_bits(d: Seq<u8>, bp: int, start: int, k: int) -> Seq<u8>
    decreases k,
{
    if k <= 0 {
        d
    } else {
        set_bit(set_bits(d, bp, start, k - 1), bp, start + k - 1)
    }
}

/// `d` with the checksum of block `n` stored.
pub open spec fn with_block_checksum(d: Seq<u8>, n: int) -> Seq<u8> {
    splice(d, n * BS, with_checksum(block_of(d, n)).take(8))
}

/// The image after the chunk's free-block counter drops by `count` and the
/// chunk-info block's checksum is stored.
pub open spec fn spec_lower_cib(d1: Seq<u8>, sm: Spaceman, count: usize) -> core::result::Result<Seq<u8>, FixtureError> {
    if !block_in(d1, sm.cib_paddr as int) {
        Err(FixtureError::Invalid("block out of range"))
    } else {
        let cur = le32(block_of(d1, sm.cib_paddr as int), sm.ci_free_count_off as int);
        if cur < (count as u32) {
            Err(FixtureError::Invalid("free count underflow"))
        } else {
            let d2 = splice(d1, sm.cib_paddr * BS + sm.ci_free_count_off, u32_le((cur - (count as u32)) as u32));
            Ok(with_block_checksum(d2, sm.cib_paddr as int))
        }
    }
}

/// The image after the device's free-block counter drops by `count` and the
/// space manager's checksum is stored.
pub open spec fn spec_lower_sm(d3: Seq<u8>, sm: Spaceman, count: usize) -> core::result::Result<Seq<u8>, FixtureError> {
    if !block_in(d3, sm.paddr as int) {
        Err(FixtureError::Invalid("block out of range"))
    } else {
        let cur2 = le64(block_of(d3, sm.paddr as int), sm.free_count_off as int);
        if cur2 < count {
            Err(FixtureError::Invalid("free count underflow"))
        } else {
            let d4 = splice(d3, sm.paddr * BS + sm.free_count_off, u64_le((cur2 - count) as u64));
            Ok(with_block_checksum(d4, sm.paddr as int))
        }
    }
}

/// The image after both free-block counters drop by `count` and both
/// counter blocks' checksums are stored.
pub open spec fn spec_lower_counters(d1: Seq<u8>, sm: Spaceman, count: usize) -> core::result::Result<Seq<u8>, FixtureError> {
    match spec_lower_cib(d1, sm, count) {
        Err(e) => Err(e),
        Ok(d3) => spec_lower_sm(d3, sm, count),
    }
}

/// Allocating `count` blocks: the first block of the run, and the image
/// afterwards with the run marked used in the bitmap, both free-block
/// counters lowered by `count` and both counter blocks' checksums stored.
#[verifier::opaque]
pub open spec fn spec_alloc(d: Seq<u8>, sm: Spaceman, count: usize) -> core::result::Result<(int, Seq<u8>), FixtureError> {
    if !block_in(d, sm.bitmap_paddr as int) || !block_in(d, 0) {
        Err(FixtureError::Invalid("block out of range"))
    } else {
        let bm = block_of(d, sm.bitmap_paddr as int);
        let total = le64(block_of(d, 0), OBJ_HDR_SIZE + 8);
        match alloc_scan(bm, 0, total, count as int, 0, 0) {
            Err(e) => Err(e),
            Ok(s) => match spec_lower_counters(set_bits(d, sm.bitmap_paddr as int, s, count as int), sm, count) {
                Err(e) => Err(e),
                Ok(d5) => Ok((s, d5)),
            },
        }
    }
}

/// Mark blocks `start..start + count` used in the bitmap block at `bp`.
#[verifier::rlimit(30)]
fn mark_used(img: &mut Image, bp: u64, start: u64, count: u64)
    requires
        old(img).has_block(bp),
        start + count <= u64::MAX,
        count > 0 ==> (start + count - 1) / 8 < BS,
    ensures
        final(img).data@ == set_bits(old(img).data@, bp as int, start as int, count as int),
        final(img).data@.len() == old(img).data@.len(),
{
    let ghost d0 = img.data@;
    assert(bp * BS + BS <= img.data.len()) by (nonlinear_arith)
        requires
            (bp + 1) * BS <= img.data.len(),
    ;
    let base = (bp as usize) * BS;
    let mut k: u64 = 0;
    while k < count
        invariant
            k <= count,
            base == bp * BS,
            base + BS <= img.data.len(),
            count > 0 ==> (start + count - 1) / 8 < BS,
            img.data@ == set_bits(d0, bp as int, start as int, k as int),
            img.data@.len() == d0.len(),
        decreases count - k,
    {
        let b = start + k;
        assert(b / 8 < BS);
        let p = base + (b / 8) as usize;
        let mask: u8 = 1u8 << ((b % 8) as u8);
        let cur = img.data[p];
        img.data.set(p, cur | mask);
        k += 1;
    }
}

/// First-fit scan of a bitmap block over `total` blocks.
#[verifier::rlimit(30)]
fn first_fit(bitmap: &[u8], total: u64, count: usize) -> (r: core::result::Result<u64, FixtureError>)
    requires
        bitmap@.len() == BS,
    ensures
        match alloc_scan(bitmap@, 0, total as int, count as int, 0, 0) {
            Ok(s) => r == Ok::<u64, FixtureError>(s as u64) && 0 <= s && s + count <= total && count > 0 && (s + count - 1) / 8 < BS,
            Err(e) => r == Err::<u64, FixtureError>(e),
        },
{
    let ghost bm = bitmap@;
    let mut run: u64 = 0;
    let mut start: u64 = 0;
    let mut blkno: u64 = 0;
    while blkno < total
        invariant
            bm == bitmap@,
            bm.len() == BS,
            blkno <= total,
            run <= blkno,
            run < count || count == 0,
            run > 0 ==> start + run == blkno,
            run > 0 ==> (blkno - 1) / 8 < BS,
            alloc_scan(bm, 0, total as int, count as int, 0, 0) == alloc_scan(
                bm,
                blkno as int,
                total as int,
                count as int,
                run as int,
                start as int,
            ),
        decreases total - blkno,
    {
        if blkno / 8 >= BS as u64 {
            return Err(FixtureError::Invalid("block out of range"));
        }
        let mask: u8 = 1u8 << ((blkno % 8) as u8);
        let used = bitmap[(blkno / 8) as usize] & mask != 0;
        if used {
            run = 0;
        } else {
            if run == 0 {
                start = blkno;
            }
            run += 1;
            if run == count as u64 {
                return Ok(start);
            }
        }
        blkno += 1;
    }
    Err(FixtureError::NoFreeRun { count })
}

#[verifier::spinoff_prover]
#[verifier::rlimit(30)]
fn lower_cib(img: &mut Image, sm: &Spaceman, count: usize) -> (r: core::result::Result<(), FixtureError>)
    requires
        sm.ci_free_count_off + 4 <= BS,
    ensures
        match spec_lower_cib(old(img).data@, *sm, count) {
            Ok(d) => r is Ok && final(img).data@ == d,
            Err(e) => r == Err::<(), FixtureError>(e),
        },
        final(img).data@.len() == old(img).data@.len(),
{
    if !img.block_in_range(sm.cib_paddr) {
        return Err(FixtureError::Invalid("block out of range"));
    }
    let cur = r32(img.block(sm.cib_paddr), sm.ci_free_count_off);
    if cur < count as u32 {
        return Err(FixtureError::Invalid("free count underflow"));
    }
    assert(sm.cib_paddr * BS + BS <= img.data.len()) by (nonlinear_arith)
        requires
            (sm.cib_paddr + 1) * BS <= img.data.len(),
    ;
    w32(&mut img.data, (sm.cib_paddr as usize) * BS + sm.ci_free_count_off, cur - count as u32);
    img.fix_checksum(sm.cib_paddr);
    Ok(())
}

#[verifier::spinoff_prover]
#[verifier::rlimit(30)]
fn lower_sm(img: &mut Image, sm: &Spaceman, count: usize) -> (r: core::result::Result<(), FixtureError>)
    requires
        sm.free_count_off + 8 <= BS,
    ensures
        match spec_lower_sm(old(img).data@, *sm, count) {
            Ok(d) => r is Ok && final(img).data@ == d,
            Err(e) => r == Err::<(), FixtureError>(e),
        },
        final(img).data@.len() == old(img).data@.len(),
{
    if !img.block_in_range(sm.paddr) {
        return Err(FixtureError::Invalid("block out of range"));
    }
    let cur2 = r64(img.block(sm.paddr), sm.free_count_off);
    if cur2 < count as u64 {
        return Err(FixtureError::Invalid("free count underflow"));
    }
    assert(sm.paddr * BS + BS <= img.data.len()) by (nonlinear_arith)
        requires
            (sm.paddr + 1) * BS <= img.data.len(),
    ;
    w64(&mut img.data, (sm.paddr as usize) * BS + sm.free_count_off, cur2 - count as u64);
    img.fix_checksum(sm.paddr);
    Ok(())
}

/// Lower the chunk and device free-block counters by `count` and store both
/// blocks' checksums.
fn lower_counters(img: &mut Image, sm: &Spaceman, count: usize) -> (r: core::result::Result<(), FixtureError>)
    requires
        sm.free_count_off + 8 <= BS,
        sm.ci_free_count_off + 4 <= BS,
    ensures
        match spec_lower_counters(old(img).data@, *sm, count) {
            Ok(d) => r is Ok && final(img).data@ == d,
            Err(e) => r == Err::<(), FixtureError>(e),
        },
        final(img).data@.len() == old(img).data@.len(),
{
    reveal(spec_lower_counters);
    lower_cib(img, sm, count)?;
    lower_sm(img, sm, count)
}

/// Allocate `count` contiguous blocks from the chunk bitmap (first fit);
/// returns the first block number.
#[verifier::rlimit(30)]
pub fn alloc_blocks(img: &mut Image, sm: &Spaceman, count: usize) -> (r: core::result::Result<u64, FixtureError>)
    requires
        sm.free_count_off + 8 <= BS,
        sm.ci_free_count_off + 4 <= BS,
    ensures
        match spec_alloc(old(img).data@, *sm, count) {
            Ok((s, d)) => r == Ok::<u64, FixtureError>(s as u64) && final(img).data@ == d,
            Err(e) => r == Err::<u64, FixtureError>(e),
        },
        final(img).data@.len() == old(img).data@.len(),
{
    reveal(spec_alloc);
    if !img.block_in_range(sm.bitmap_paddr) || !img.block_in_range(0) {
        return Err(FixtureError::Invalid("block out of range"));
    }
    let ghost d0 = img.data@;
    let bitmap = crate::btree::copy_bytes(img.block(sm.bitmap_paddr));
    let total_blocks = r64(img.block(0), OBJ_HDR_SIZE + 8);
    let s = first_fit(bitmap.as_slice(), total_blocks, count)?;
    assert(s + count <= total_blocks);
    // Mark used (the bitmap block is a raw bitmap: no object header, no
    // checksum).
    mark_used(img, sm.bitmap_paddr, s, count as u64);
    let ghost d1 = img.data@;
    assert(d1 == set_bits(d0, sm.bitmap_paddr as int, s as int, count as int));
    let r = lower_counters(img, sm, count);
    match r {
        Ok(()) => Ok(s),
        Err(e) => Err(e),
    }
}

// ---------- the injected content ----------

/// `hello.txt`.
pub open spec fn hello_bytes() -> Seq<u8> {
    "Hello from APFS on Windows!\n"@.map_values(|c: char| c as u8)
}

/// `docs/readme.md`: 1000 bytes counting up modulo 251.
pub open spec fn readme_bytes() -> Seq<u8> {
    Seq::new(1000, |i: int| (i % 251) as u8)
}

/// One xorshift step.
pub open spec fn xorshift(x: u64) -> u64 {
    let a = x ^ ((x << 13u64) as u64);
    let b = a ^ (a >> 7u64);
    b ^ ((b << 17u64) as u64)
}

/// The xorshift state after `n` steps from the fixed seed.
pub open spec fn xorshift_state(n: nat) -> u64
    decreases n,
{
    if n == 0 {
        0x2545F491_4F6CDD1D
    } else {
        xorshift(xorshift_state((n - 1) as nat))
    }
}

/// `docs/big.bin`: 14336 deterministic pseudo-random bytes.
pub open spec fn big_bytes() -> Seq<u8> {
    Seq::new(14336, |i: int| (xorshift_state((i + 1) as nat) >> 33u64) as u8)
}

pub fn readme_data() -> (v: Vec<u8>)
    ensures
        v@ == readme_bytes(),
{
    let mut v: Vec<u8> = Vec::new();
    let mut i: u32 = 0;
    while i < 1000
        invariant
            i <= 1000,
            v@ =~= Seq::new(i as nat, |k: int| (k % 251) as u8),
        decreases 1000 - i,
    {
        v.push((i % 251) as u8);
        i += 1;
    }
    v
}

pub fn big_data() -> (v: Vec<u8>)
    ensures
        v@ == big_bytes(),
{
    let mut v: Vec<u8> = Vec::new();
    let mut x: u64 = 0x2545F491_4F6CDD1D;
    let mut i: u32 = 0;
    while i < 14336
        invariant
            i <= 14336,
            x == xorshift_state(i as nat),
            v@ =~= Seq::new(i as nat, |k: int| (xorshift_state((k + 1) as nat) >> 33u64) as u8),
        decreases 14336 - i,
    {
        x = x ^ (x << 13u64);
        x = x ^ (x >> 7u64);
        x = x ^ (x << 17u64);
        assert(x == xorshift_state((i + 1) as nat));
        v.push((x >> 33u64) as u8);
        i += 1;
    }
    v
}

pub fn hello_data() -> (v: Vec<u8>)
    ensures
        v@ == hello_bytes(),
        v@.len() == 28,
{
    let mut v: Vec<u8> = Vec::new();
    let s = "Hello from APFS on Windows!\n";
    proof {
        reveal_strlit("Hello from APFS on Windows!\n");
        assert(vstd::string::is_ascii(s));
        vstd::string::is_ascii_spec_bytes(s);
    }
    push_bytes(&mut v, s.as_bytes());
    assert(v@ =~= hello_bytes());
    v
}

/// The record carries the key fields the sort reads.
pub fn record_ok(r: &Record) -> (b: bool)
    ensures
        b == rec_ok(r@),
{
    if r.key.len() < 8 {
        return false;
    }
    let t = r.rtype();
    if t == APFS_TYPE_DIR_REC {
        r.key.len() >= 12
    } else if t == APFS_TYPE_XATTR {
        r.key.len() >= 10
    } else if t == APFS_TYPE_FILE_EXTENT {
        r.key.len() >= 16
    } else {
        true
    }
}

/// Zero bytes that pad `n` bytes to a whole number of blocks.
pub open spec fn block_pad(n: int) -> int {
    (BS as int - n % BS as int) % BS as int
}

/// The image after writing `data` at the start of block `blk`, the rest of
/// its last block zeroed; an error when that does not lie inside the image.
pub open spec fn spec_write_data(d: Seq<u8>, blk: u64, data: Seq<u8>) -> core::result::Result<Seq<u8>, FixtureError> {
    if blk >= d.len() as int / BS as int || blk * BS + data.len() + block_pad(data.len() as int) > d.len() {
        Err(FixtureError::Invalid("block out of range"))
    } else {
        Ok(splice(d, blk * BS, data + zeros(block_pad(data.len() as int) as nat)))
    }
}

/// Write `data` at the start of block `blk`, zero-filling the rest of its
/// last block.
pub fn write_data(img: &mut Image, blk: u64, data: &[u8]) -> (r: core::result::Result<(), FixtureError>)
    ensures
        match spec_write_data(old(img).data@, blk, data@) {
            Ok(d) => r is Ok && final(img).data@ == d,
            Err(e) => r == Err::<(), FixtureError>(e) && final(img).data@ == old(img).data@,
        },
        final(img).data@.len() == old(img).data@.len(),
{
    let n = data.len();
    let end_pad = (BS - (n % BS)) % BS;
    let blocks = (img.data.len() / BS) as u64;
    if blk >= blocks {
        return Err(FixtureError::Invalid("block out of range"));
    }
    assert(blk * BS + BS <= img.data.len()) by (nonlinear_arith)
        requires
            blk < blocks,
            blocks == img.data.len() / BS,
    ;
    let start = (blk as usize) * BS;
    if n > img.data.len() - start || end_pad > img.data.len() - start - n {
        return Err(FixtureError::Invalid("block out of range"));
    }
    let mut padded: Vec<u8> = Vec::new();
    push_bytes(&mut padded, data);
    push_zeros(&mut padded, end_pad);
    put_bytes(&mut img.data, start, padded.as_slice());
    Ok(())
}

/// `d` with `by` added to the little-endian counter at byte `pos`, unless
/// that overflows.
pub open spec fn spec_bump_at(d: Seq<u8>, pos: int, by: u64) -> core::result::Result<Seq<u8>, FixtureError> {
    if le64(d, pos) + by > u64::MAX {
        Err(FixtureError::Invalid("counter overflow"))
    } else {
        Ok(splice(d, pos, u64_le((le64(d, pos) + by) as u64)))
    }
}

/// Add `by` to the little-endian counter at byte `pos`.
fn bump(img: &mut Image, pos: usize, by: u64) -> (r: core::result::Result<(), FixtureError>)
    requires
        pos + 8 <= old(img).data.len(),
    ensures
        final(img).data@.len() == old(img).data@.len(),
        match spec_bump_at(old(img).data@, pos as int, by) {
            Ok(d) => r is Ok && final(img).data@ == d,
            Err(e) => r == Err::<(), FixtureError>(e) && final(img).data@ == old(img).data@,
        },
{
    let cur = r64(img.data.as_slice(), pos);
    match cur.checked_add(by) {
        Some(v) => {
            w64(&mut img.data, pos, v);
            Ok(())
        },
        None => Err(FixtureError::Invalid("counter overflow")),
    }
}

/// Check that every record carries its key fields, as sorting reads them.
#[verifier::rlimit(30)]
fn check_records(recs: &Vec<Record>) -> (r: core::result::Result<(), FixtureError>)
    ensures
        r is Ok <==> forall|i: int| 0 <= i < recs@.len() ==> rec_ok(#[trigger] recs@[i]@),
        r is Ok <==> all_rec_ok(records_view(recs@)),
        r is Err ==> r == Err::<(), FixtureError>(FixtureError::Invalid("malformed record")),
{
    proof {
        assert(all_rec_ok(records_view(recs@)) <==> forall|i: int| 0 <= i < recs@.len() ==> rec_ok(#[trigger] recs@[i]@)) by {
            if all_rec_ok(records_view(recs@)) {
                assert forall|i: int| 0 <= i < recs@.len() implies rec_ok(#[trigger] recs@[i]@) by {
                    assert(records_view(recs@)[i] == recs@[i]@);
                };
            }
            if forall|i: int| 0 <= i < recs@.len() ==> rec_ok(#[trigger] recs@[i]@) {
                assert forall|i: int| 0 <= i < records_view(recs@).len() implies rec_ok(#[trigger] records_view(recs@)[i]) by {
                    assert(records_view(recs@)[i] == recs@[i]@);
                };
            }
        };
    }
    let mut i: usize = 0;
    while i < recs.len()
        invariant
            i <= recs@.len(),
            forall|k: int| 0 <= k < i ==> rec_ok(#[trigger] recs@[k]@),
            all_rec_ok(records_view(recs@)) <==> forall|k: int| 0 <= k < recs@.len() ==> rec_ok(#[trigger] recs@[k]@),
        decreases recs@.len() - i,
    {
        if !record_ok(&recs[i]) {
            return Err(FixtureError::Invalid("malformed record"));
        }
        i += 1;
    }
    Ok(())
}

/// The creation time of the root directory's inode: the first inode
/// record of the root, scanning from record `i`, or why there is none.
pub open spec fn spec_root_times(rs: Seq<RecordView>, i: int) -> core::result::Result<u64, FixtureError>
    decreases rs.len() - i,
{
    if i < 0 || i >= rs.len() {
        Err(FixtureError::Invalid("root inode"))
    } else if rs[i].key.len() < 8 {
        Err(FixtureError::Invalid("malformed record"))
    } else if rec_id(rs[i]) == ROOT_DIR_INO_NUM && rec_type(rs[i]) == APFS_TYPE_INODE {
        if rs[i].val.len() < 24 {
            Err(FixtureError::Invalid("malformed record"))
        } else {
            Ok(le64(rs[i].val, 16) as u64)
        }
    } else {
        spec_root_times(rs, i + 1)
    }
}

/// The creation time of the root directory's inode.
fn root_inode_times(recs: &Vec<Record>) -> (r: core::result::Result<u64, FixtureError>)
    ensures
        r == spec_root_times(records_view(recs@), 0),
{
    let ghost v = records_view(recs@);
    let mut i: usize = 0;
    while i < recs.len()
        invariant
            i <= recs@.len(),
            v == records_view(recs@),
            spec_root_times(v, 0) == spec_root_times(v, i as int),
        decreases recs@.len() - i,
    {
        assert(v[i as int] == recs@[i as int]@);
        let r = &recs[i];
        if r.key.len() < 8 {
            return Err(FixtureError::Invalid("malformed record"));
        }
        if r.id() == ROOT_DIR_INO_NUM && r.rtype() == APFS_TYPE_INODE {
            if r.val.len() < 24 {
                return Err(FixtureError::Invalid("malformed record"));
            }
            return Ok(r64(r.val.as_slice(), 16));
        }
        i += 1;
    }
    Err(FixtureError::Invalid("root inode"))
}

/// One record with the root directory's child count raised by `by`.
pub open spec fn spec_bump_one(r: RecordView, by: u32) -> core::result::Result<RecordView, FixtureError> {
    if r.key.len() < 8 {
        Err(FixtureError::Invalid("malformed record"))
    } else if rec_id(r) == ROOT_DIR_INO_NUM && rec_type(r) == APFS_TYPE_INODE {
        if r.val.len() < 60 {
            Err(FixtureError::Invalid("malformed record"))
        } else if le32(r.val, 56) + by > u32::MAX {
            Err(FixtureError::Invalid("counter overflow"))
        } else {
            Ok(RecordView { key: r.key, val: splice(r.val, 56, u32_le((le32(r.val, 56) + by) as u32)) })
        }
    } else {
        Ok(r)
    }
}

/// The first `n` records with the root directory's child count raised, or
/// the first record's failure.
pub open spec fn spec_bump_prefix(rs: Seq<RecordView>, by: u32, n: int) -> core::result::Result<
    Seq<RecordView>,
    FixtureError,
>
    decreases n,
{
    if n <= 0 {
        Ok(Seq::empty())
    } else {
        match spec_bump_prefix(rs, by, n - 1) {
            Err(e) => Err(e),
            Ok(acc) => match spec_bump_one(rs[n - 1], by) {
                Err(e) => Err(e),
                Ok(x) => Ok(acc.push(x)),
            },
        }
    }
}

proof fn lemma_bump_stops(rs: Seq<RecordView>, by: u32, k: int, n: int)
    requires
        0 < k <= n,
        spec_bump_prefix(rs, by, k) is Err,
    ensures
        spec_bump_prefix(rs, by, n) == spec_bump_prefix(rs, by, k),
    decreases n - k,
{
    if k < n {
        lemma_bump_stops(rs, by, k + 1, n);
    }
}

/// The root directory gains `by` children.
#[verifier::spinoff_prover]
#[verifier::rlimit(50)]
fn bump_root_children(recs: &mut Vec<Record>, by: u32) -> (r: core::result::Result<(), FixtureError>)
    ensures
        match spec_bump_prefix(records_view(old(recs)@), by, old(recs)@.len() as int) {
            Ok(rs) => r is Ok && records_view(final(recs)@) == rs,
            Err(e) => r == Err::<(), FixtureError>(e),
        },
{
    let ghost v0 = records_view(recs@);
    let n = recs.len();
    let mut i: usize = 0;
    assert(records_view(recs@).take(0) =~= Seq::<RecordView>::empty());
    assert(records_view(recs@).skip(0) =~= v0);
    while i < n
        invariant
            i <= n,
            n == recs@.len(),
            v0.len() == n,
            v0 == records_view(old(recs)@),
            spec_bump_prefix(v0, by, i as int) == Ok::<Seq<RecordView>, FixtureError>(records_view(recs@).take(i as int)),
            records_view(recs@).skip(i as int) == v0.skip(i as int),
        decreases n - i,
    {
        assert(records_view(recs@)[i as int] == v0[i as int]) by {
            assert(records_view(recs@).skip(i as int)[0] == v0.skip(i as int)[0]);
        };
        if recs[i].key.len() < 8 {
            proof {
                assert(spec_bump_one(v0[i as int], by) == Err::<RecordView, FixtureError>(
                    FixtureError::Invalid("malformed record"),
                ));
                assert(spec_bump_prefix(v0, by, i + 1) == Err::<Seq<RecordView>, FixtureError>(
                    FixtureError::Invalid("malformed record"),
                ));
                lemma_bump_stops(v0, by, i + 1, n as int);
            }
            return Err(FixtureError::Invalid("malformed record"));
        }
        if recs[i].id() == ROOT_DIR_INO_NUM && recs[i].rtype() == APFS_TYPE_INODE {
            if recs[i].val.len() < 60 {
                proof {
                    assert(spec_bump_one(v0[i as int], by) == Err::<RecordView, FixtureError>(
                        FixtureError::Invalid("malformed record"),
                    ));
                    assert(spec_bump_prefix(v0, by, i + 1) == Err::<Seq<RecordView>, FixtureError>(
                        FixtureError::Invalid("malformed record"),
                    ));
                    lemma_bump_stops(v0, by, i + 1, n as int);
                }
                return Err(FixtureError::Invalid("malformed record"));
            }
            let cur = r32(recs[i].val.as_slice(), 56);
            let new_count = match cur.checked_add(by) {
                Some(c) => c,
                None => {
                    proof {
                        assert(spec_bump_one(v0[i as int], by) == Err::<RecordView, FixtureError>(
                            FixtureError::Invalid("counter overflow"),
                        ));
                        assert(spec_bump_prefix(v0, by, i + 1) == Err::<Seq<RecordView>, FixtureError>(
                            FixtureError::Invalid("counter overflow"),
                        ));
                        lemma_bump_stops(v0, by, i + 1, n as int);
                    }
                    return Err(FixtureError::Invalid("counter overflow"));
                },
            };
            let ghost before = recs@;
            let mut rec = recs.remove(i);
            w32(&mut rec.val, 56, new_count);
            recs.insert(i, rec);
            proof {
                assert(recs@[i as int]@ == spec_bump_one(v0[i as int], by)->Ok_0);
                assert(records_view(recs@).take(i + 1) =~= records_view(before).take(i as int).push(
                    recs@[i as int]@,
                ));
                assert forall|k: int| 0 <= k < n - (i + 1) implies #[trigger] records_view(recs@).skip(i + 1)[k]
                    == v0.skip(i + 1)[k] by {
                    assert(recs@[i + 1 + k] == before[i + 1 + k]);
                    assert(records_view(before).skip(i as int)[k + 1] == v0.skip(i as int)[k + 1]);
                };
                assert(records_view(recs@).skip(i + 1) =~= v0.skip(i + 1));
            }
        } else {
            proof {
                assert(records_view(recs@).take(i + 1) =~= records_view(recs@).take(i as int).push(v0[i as int]));
                assert forall|k: int| 0 <= k < n - (i + 1) implies #[trigger] records_view(recs@).skip(i + 1)[k]
                    == v0.skip(i + 1)[k] by {
                    assert(records_view(recs@).skip(i as int)[k + 1] == v0.skip(i as int)[k + 1]);
                };
                assert(records_view(recs@).skip(i + 1) =~= v0.skip(i + 1));
            }
        }
        i += 1;
    }
    assert(records_view(recs@).take(n as int) =~= records_view(recs@));
    Ok(())
}

/// The data blocks of the injected files.
pub struct DataBlocks {
    pub hello: u64,
    pub readme: u64,
    pub big_a: u64,
    pub big_mid: u64,
    pub big_b: u64,
}

/// The five allocations of the files' blocks, first fit in turn: 1 block
/// for `hello.txt`, 1 for `readme.md`, and 2, 1 and 2 for `big.bin`.
pub open spec fn spec_alloc_files(d: Seq<u8>, sm: Spaceman) -> core::result::Result<(DataBlocks, Seq<u8>), FixtureError> {
    match spec_alloc(d, sm, 1) {
        Err(e) => Err(e),
        Ok((h, d1)) => match spec_alloc(d1, sm, 1) {
            Err(e) => Err(e),
            Ok((rd, d2)) => match spec_alloc(d2, sm, 2) {
                Err(e) => Err(e),
                Ok((a, d3)) => match spec_alloc(d3, sm, 1) {
                    Err(e) => Err(e),
                    Ok((m, d4)) => match spec_alloc(d4, sm, 2) {
                        Err(e) => Err(e),
                        Ok((b, d5)) => Ok(
                            (
                                DataBlocks {
                                    hello: h as u64,
                                    readme: rd as u64,
                                    big_a: a as u64,
                                    big_mid: m as u64,
                                    big_b: b as u64,
                                },
                                d5,
                            ),
                        ),
                    },
                },
            },
        },
    }
}

/// The files' contents written to their blocks: `big.bin` split 8192 +
/// 4096 + the rest over its three runs.
pub open spec fn spec_write_files(d: Seq<u8>, b: DataBlocks, hello: Seq<u8>, readme: Seq<u8>, big: Seq<u8>) -> core::result::Result<
    Seq<u8>,
    FixtureError,
> {
    match spec_write_data(d, b.hello, hello) {
        Err(e) => Err(e),
        Ok(d1) => match spec_write_data(d1, b.readme, readme) {
            Err(e) => Err(e),
            Ok(d2) => match spec_write_data(d2, b.big_a, big.subrange(0, 8192)) {
                Err(e) => Err(e),
                Ok(d3) => match spec_write_data(d3, b.big_mid, big.subrange(8192, 12288)) {
                    Err(e) => Err(e),
                    Ok(d4) => spec_write_data(d4, b.big_b, big.subrange(12288, big.len() as int)),
                },
            },
        },
    }
}

/// Allocate the files' blocks and write their contents.
#[verifier::spinoff_prover]
#[verifier::rlimit(40)]
fn allocate_and_write(img: &mut Image, sm: &Spaceman, hello: &Vec<u8>, readme: &Vec<u8>, big: &Vec<u8>) -> (r:
    core::result::Result<DataBlocks, FixtureError>)
    requires
        sm.free_count_off + 8 <= BS,
        sm.ci_free_count_off + 4 <= BS,
        big@.len() == 14336,
    ensures
        final(img).data@.len() == old(img).data@.len(),
        match spec_alloc_files(old(img).data@, *sm) {
            Err(e) => r == Err::<DataBlocks, FixtureError>(e),
            Ok((b, d)) => match spec_write_files(d, b, hello@, readme@, big@) {
                Err(e) => r == Err::<DataBlocks, FixtureError>(e),
                Ok(d2) => r == Ok::<DataBlocks, FixtureError>(b) && final(img).data@ == d2,
            },
        },
{
    let hello_blk = alloc_blocks(img, sm, 1)?;
    let readme_blk = alloc_blocks(img, sm, 1)?;
    let big_blk_a = alloc_blocks(img, sm, 2)?;
    // A deliberately separate single block, so big.bin has discontiguous
    // extents and reads must stitch three runs together.
    let big_blk_mid = alloc_blocks(img, sm, 1)?;
    let big_blk_b = alloc_blocks(img, sm, 2)?;
    let ghost blocks = DataBlocks {
        hello: hello_blk,
        readme: readme_blk,
        big_a: big_blk_a,
        big_mid: big_blk_mid,
        big_b: big_blk_b,
    };
    assert(spec_alloc_files(old(img).data@, *sm) == Ok::<(DataBlocks, Seq<u8>), FixtureError>((blocks, img.data@)));
    write_data(img, hello_blk, hello.as_slice())?;
    write_data(img, readme_blk, readme.as_slice())?;
    write_data(img, big_blk_a, vstd::slice::slice_subrange(big.as_slice(), 0, 8192))?;
    write_data(img, big_blk_mid, vstd::slice::slice_subrange(big.as_slice(), 8192, 12288))?;
    write_data(img, big_blk_b, vstd::slice::slice_subrange(big.as_slice(), 12288, big.len()))?;
    Ok(DataBlocks { hello: hello_blk, readme: readme_blk, big_a: big_blk_a, big_mid: big_blk_mid, big_b: big_blk_b })
}

/// Every record carries the key fields sorting reads.
pub open spec fn all_rec_ok(rs: Seq<RecordView>) -> bool {
    forall|i: int| 0 <= i < rs.len() ==> rec_ok(#[trigger] rs[i])
}

/// The record of an inode.
pub open spec fn inode_rv(s: InodeSpecView) -> RecordView {
    RecordView { key: u64_le(jkey_value(s.id, APFS_TYPE_INODE)), val: inode_val(s) }
}

/// The directory record naming `id` as `name` in `parent`.
pub open spec fn drec_rv(parent: u64, name: &str, case_fold: bool, id: u64, dtype: u16, times: u64) -> RecordView {
    RecordView { key: drec_key(parent, name, case_fold), val: u64_le(id) + u64_le(times) + u16_le(dtype) }
}

/// The data-stream record of `id`.
pub open spec fn dstream_rv(id: u64) -> RecordView {
    RecordView { key: u64_le(jkey_value(id, APFS_TYPE_DSTREAM_ID)), val: u32_le(1) }
}

/// The file-extent record of `id` mapping `len` bytes at `logical` to
/// block `phys`.
pub open spec fn extent_rv(id: u64, logical: u64, len: u64, phys: u64) -> RecordView {
    RecordView {
        key: u64_le(jkey_value(id, APFS_TYPE_FILE_EXTENT)) + u64_le(logical),
        val: u64_le(len) + u64_le(phys) + u64_le(0),
    }
}

/// The extent-reference record of `blocks` blocks at `paddr` owned by
/// `owner`.
pub open spec fn phys_ext_rv(paddr: u64, blocks: u64, owner: u64) -> RecordView {
    RecordView {
        key: u64_le(jkey_value(paddr, APFS_TYPE_EXTENT)),
        val: u64_le(blocks | (1u64 << 60u64)) + u64_le(owner) + u32_le(1),
    }
}

/// An inode of the injected tree: owner 501, group 20.
pub open spec fn file_inode(
    id: u64,
    parent: u64,
    name: Seq<char>,
    mode: u16,
    nlink: i32,
    times: u64,
    size: u64,
    alloced: u64,
    has_dstream: bool,
) -> RecordView {
    inode_rv(
        InodeSpecView {
            id,
            parent,
            name,
            mode,
            nchildren_or_nlink: nlink,
            times,
            size,
            alloced,
            has_dstream,
        },
    )
}

/// The records of the injected files, in the order the tool adds them:
/// `hello.txt`, `docs`, `docs/readme.md`, the three-extent `docs/big.bin`
/// and the symlink `link-to-hello`, with ids from `first_id` on.
#[verifier::opaque]
pub open spec fn new_fs_records(
    case_fold: bool,
    times: u64,
    first_id: u64,
    blocks: DataBlocks,
    hello_len: u64,
    readme_len: u64,
    big_len: u64,
) -> Seq<RecordView> {
    let hello = first_id;
    let docs = (first_id + 1) as u64;
    let readme = (first_id + 2) as u64;
    let big = (first_id + 3) as u64;
    let link = (first_id + 4) as u64;
    let bs = BS as u64;
    seq![
        file_inode(hello, ROOT_DIR_INO_NUM, "hello.txt"@, S_IFREG | 0o644, 1, times, hello_len, bs, true),
        drec_rv(ROOT_DIR_INO_NUM, "hello.txt", case_fold, hello, DT_REG, times),
        dstream_rv(hello),
        extent_rv(hello, 0, bs, blocks.hello),
        file_inode(docs, ROOT_DIR_INO_NUM, "docs"@, S_IFDIR | 0o755, 2, times, 0, 0, false),
        drec_rv(ROOT_DIR_INO_NUM, "docs", case_fold, docs, DT_DIR, times),
        file_inode(readme, docs, "readme.md"@, S_IFREG | 0o644, 1, times, readme_len, bs, true),
        drec_rv(docs, "readme.md", case_fold, readme, DT_REG, times),
        dstream_rv(readme),
        extent_rv(readme, 0, bs, blocks.readme),
        file_inode(big, docs, "big.bin"@, S_IFREG | 0o644, 1, times, big_len, (5 * bs) as u64, true),
        drec_rv(docs, "big.bin", case_fold, big, DT_REG, times),
        dstream_rv(big),
        extent_rv(big, 0, (2 * bs) as u64, blocks.big_a),
        extent_rv(big, (2 * bs) as u64, bs, blocks.big_mid),
        extent_rv(big, (3 * bs) as u64, (2 * bs) as u64, blocks.big_b),
        file_inode(link, ROOT_DIR_INO_NUM, "link-to-hello"@, S_IFLNK | 0o755, 1, times, 0, 0, false),
        drec_rv(ROOT_DIR_INO_NUM, "link-to-hello", case_fold, link, DT_LNK, times),
        RecordView { key: symlink_xattr_key(link), val: symlink_xattr_val("hello.txt") }
    ]
}

/// The fs-tree records after injection: the root node's records (the root
/// directory with 3 more children) and the new files' records, sorted.
pub open spec fn spec_fs_records(
    root: Seq<RecordView>,
    case_fold: bool,
    times: u64,
    first_id: u64,
    blocks: DataBlocks,
    hello_len: u64,
    readme_len: u64,
    big_len: u64,
) -> core::result::Result<Seq<RecordView>, FixtureError> {
    match spec_bump_prefix(root, 3, root.len() as int) {
        Err(e) => Err(e),
        Ok(bumped) => {
            let all = bumped + new_fs_records(case_fold, times, first_id, blocks, hello_len, readme_len, big_len);
            if all_rec_ok(all) {
                Ok(stable_sort(all))
            } else {
                Err(FixtureError::Invalid("malformed record"))
            }
        },
    }
}

/// The records of the injected files.
#[verifier::spinoff_prover]
#[verifier::rlimit(60)]
fn new_fs_record_vec(
    case_fold: bool,
    times: u64,
    first_id: u64,
    blocks: &DataBlocks,
    hello_len: u64,
    readme_len: u64,
    big_len: u64,
) -> (v: Vec<Record>)
    requires
        first_id <= OBJ_ID_MASK - 5,
    ensures
        records_view(v@) == new_fs_records(case_fold, times, first_id, *blocks, hello_len, readme_len, big_len),
{
    let hello_id = first_id;
    let docs_id = first_id + 1;
    let readme_id = first_id + 2;
    let big_id = first_id + 3;
    let link_id = first_id + 4;
    let bs = BS as u64;
    let mut recs: Vec<Record> = Vec::new();
    recs.push(
        build_inode(
            &InodeSpec {
                id: hello_id,
                parent: ROOT_DIR_INO_NUM,
                name: String::from_str("hello.txt"),
                mode: S_IFREG | 0o644,
                nchildren_or_nlink: 1,
                times,
                size: hello_len,
                alloced: bs,
                has_dstream: true,
            },
        ),
    );
    recs.push(build_drec(ROOT_DIR_INO_NUM, "hello.txt", case_fold, hello_id, DT_REG, times));
    recs.push(build_dstream_id(hello_id));
    recs.push(build_file_extent(hello_id, 0, bs, blocks.hello));
    recs.push(
        build_inode(
            &InodeSpec {
                id: docs_id,
                parent: ROOT_DIR_INO_NUM,
                name: String::from_str("docs"),
                mode: S_IFDIR | 0o755,
                nchildren_or_nlink: 2,
                times,
                size: 0,
                alloced: 0,
                has_dstream: false,
            },
        ),
    );
    recs.push(build_drec(ROOT_DIR_INO_NUM, "docs", case_fold, docs_id, DT_DIR, times));
    recs.push(
        build_inode(
            &InodeSpec {
                id: readme_id,
                parent: docs_id,
                name: String::from_str("readme.md"),
                mode: S_IFREG | 0o644,
                nchildren_or_nlink: 1,
                times,
                size: readme_len,
                alloced: bs,
                has_dstream: true,
            },
        ),
    );
    recs.push(build_drec(docs_id, "readme.md", case_fold, readme_id, DT_REG, times));
    recs.push(build_dstream_id(readme_id));
    recs.push(build_file_extent(readme_id, 0, bs, blocks.readme));
    // big.bin: three extents (2 + 1 + 2 blocks); 14336 bytes of 20480.
    recs.push(
        build_inode(
            &InodeSpec {
                id: big_id,
                parent: docs_id,
                name: String::from_str("big.bin"),
                mode: S_IFREG | 0o644,
                nchildren_or_nlink: 1,
                times,
                size: big_len,
                alloced: 5 * bs,
                has_dstream: true,
            },
        ),
    );
    recs.push(build_drec(docs_id, "big.bin", case_fold, big_id, DT_REG, times));
    recs.push(build_dstream_id(big_id));
    recs.push(build_file_extent(big_id, 0, 2 * bs, blocks.big_a));
    recs.push(build_file_extent(big_id, 2 * bs, bs, blocks.big_mid));
    recs.push(build_file_extent(big_id, 3 * bs, 2 * bs, blocks.big_b));
    recs.push(
        build_inode(
            &InodeSpec {
                id: link_id,
                parent: ROOT_DIR_INO_NUM,
                name: String::from_str("link-to-hello"),
                mode: S_IFLNK | 0o755,
                nchildren_or_nlink: 1,
                times,
                size: 0,
                alloced: 0,
                has_dstream: false,
            },
        ),
    );
    recs.push(build_drec(ROOT_DIR_INO_NUM, "link-to-hello", case_fold, link_id, DT_LNK, times));
    recs.push(build_symlink_xattr(link_id, "hello.txt"));
    assert(records_view(recs@) =~= new_fs_records(case_fold, times, first_id, *blocks, hello_len, readme_len, big_len))
        by {
        reveal(new_fs_records);
    };
    recs
}

/// `a` followed by `b`, as records.
proof fn lemma_records_view_append(a: Seq<Record>, b: Seq<Record>)
    ensures
        records_view(a + b) == records_view(a) + records_view(b),
{
    assert(records_view(a + b) =~= records_view(a) + records_view(b));
}

/// The fs-tree records after injection, sorted: the root node's records
/// (the root directory with 3 more children) and the new files' inode,
/// directory, data-stream, extent and symlink records.
#[verifier::spinoff_prover]
#[verifier::rlimit(60)]
fn fs_records(
    root_recs: Vec<Record>,
    case_fold: bool,
    times: u64,
    first_id: u64,
    blocks: &DataBlocks,
    hello_len: u64,
    readme_len: u64,
    big_len: u64,
) -> (r: core::result::Result<Vec<Record>, FixtureError>)
    requires
        first_id <= OBJ_ID_MASK - 5,
    ensures
        match spec_fs_records(records_view(root_recs@), case_fold, times, first_id, *blocks, hello_len, readme_len, big_len) {
            Ok(rs) => r matches Ok(v) && records_view(v@) == rs,
            Err(e) => r matches Err(e2) && e2 == e,
        },
{
    let mut recs = root_recs;
    // The root directory gains 3 children.
    bump_root_children(&mut recs, 3)?;
    let mut new_recs = new_fs_record_vec(case_fold, times, first_id, blocks, hello_len, readme_len, big_len);
    let ghost a = recs@;
    let ghost b = new_recs@;
    recs.append(&mut new_recs);
    proof {
        lemma_records_view_append(a, b);
    }
    check_records(&recs)?;
    sort_records(&mut recs);
    Ok(recs)
}

/// The extent-reference records of the injected files' data.
#[verifier::opaque]
pub open spec fn new_ext_records(first_id: u64, blocks: DataBlocks) -> Seq<RecordView> {
    seq![
        phys_ext_rv(blocks.hello, 1, first_id),
        phys_ext_rv(blocks.readme, 1, (first_id + 2) as u64),
        phys_ext_rv(blocks.big_a, 2, (first_id + 3) as u64),
        phys_ext_rv(blocks.big_mid, 1, (first_id + 3) as u64),
        phys_ext_rv(blocks.big_b, 2, (first_id + 3) as u64)
    ]
}

/// The extent-reference records after injection, sorted.
pub open spec fn spec_ext_records(ext: Seq<RecordView>, first_id: u64, blocks: DataBlocks) -> core::result::Result<
    Seq<RecordView>,
    FixtureError,
> {
    let all = ext + new_ext_records(first_id, blocks);
    if all_rec_ok(all) {
        Ok(stable_sort(all))
    } else {
        Err(FixtureError::Invalid("malformed record"))
    }
}

/// The extent-reference records of the injected files' data.
#[verifier::spinoff_prover]
#[verifier::rlimit(60)]
fn new_ext_record_vec(first_id: u64, blocks: &DataBlocks) -> (v: Vec<Record>)
    requires
        first_id <= OBJ_ID_MASK - 5,
    ensures
        records_view(v@) == new_ext_records(first_id, *blocks),
{
    let mut v: Vec<Record> = Vec::new();
    v.push(build_phys_ext(blocks.hello, 1, first_id));
    v.push(build_phys_ext(blocks.readme, 1, first_id + 2));
    v.push(build_phys_ext(blocks.big_a, 2, first_id + 3));
    v.push(build_phys_ext(blocks.big_mid, 1, first_id + 3));
    v.push(build_phys_ext(blocks.big_b, 2, first_id + 3));
    assert(records_view(v@) =~= new_ext_records(first_id, *blocks)) by {
        reveal(new_ext_records);
    };
    v
}

/// The extent-reference records after injection, sorted.
#[verifier::spinoff_prover]
#[verifier::rlimit(60)]
fn extent_records(ext: Vec<Record>, first_id: u64, blocks: &DataBlocks) -> (r: core::result::Result<Vec<Record>, FixtureError>)
    requires
        first_id <= OBJ_ID_MASK - 5,
    ensures
        match spec_ext_records(records_view(ext@), first_id, *blocks) {
            Ok(rs) => r matches Ok(v) && records_view(v@) == rs,
            Err(e) => r matches Err(e2) && e2 == e,
        },
{
    let mut ext_recs = ext;
    let mut new_recs = new_ext_record_vec(first_id, blocks);
    let ghost a = ext_recs@;
    let ghost b = new_recs@;
    ext_recs.append(&mut new_recs);
    proof {
        lemma_records_view_append(a, b);
    }
    check_records(&ext_recs)?;
    sort_records(&mut ext_recs);
    Ok(ext_recs)
}

/// Update the volume superblock's counters for 3 files, 1 directory, 1
/// symlink and 7 data blocks, set its next object id past `link_id`, and
/// store its checksum.
#[verifier::opaque]
pub open spec fn spec_update_superblock(d: Seq<u8>, apsb_paddr: u64, link_id: u64) -> core::result::Result<
    Seq<u8>,
    FixtureError,
> {
    if !block_in(d, apsb_paddr as int) {
        Err(FixtureError::Invalid("block out of range"))
    } else {
        let base = apsb_paddr * BS + OBJ_HDR_SIZE;
        let d0 = splice(d, base + 144, u64_le((link_id + 1) as u64));
        match spec_bump_at(d0, base + 152, 3) {
            Err(e) => Err(e),
            Ok(d1) => match spec_bump_at(d1, base + 160, 1) {
                Err(e) => Err(e),
                Ok(d2) => match spec_bump_at(d2, base + 168, 1) {
                    Err(e) => Err(e),
                    Ok(d3) => match spec_bump_at(d3, base + 56, 7) {
                        Err(e) => Err(e),
                        Ok(d4) => match spec_bump_at(d4, base + 192, 7) {
                            Err(e) => Err(e),
                            Ok(d5) => Ok(
                                splice(
                                    d5,
                                    apsb_paddr * BS,
                                    with_checksum(block_of(d5, apsb_paddr as int)).take(8),
                                ),
                            ),
                        },
                    },
                },
            },
        }
    }
}

#[verifier::spinoff_prover]
#[verifier::rlimit(40)]
fn update_superblock(img: &mut Image, apsb_paddr: u64, link_id: u64) -> (r: core::result::Result<(), FixtureError>)
    requires
        link_id < OBJ_ID_MASK,
    ensures
        final(img).data@.len() == old(img).data@.len(),
        r is Ok ==> object_valid(block_of(final(img).data@, apsb_paddr as int)),
        match spec_update_superblock(old(img).data@, apsb_paddr, link_id) {
            Ok(d) => r is Ok && final(img).data@ == d,
            Err(e) => r == Err::<(), FixtureError>(e),
        },
{
    let ghost d = img.data@;
    if !img.block_in_range(apsb_paddr) {
        assert(spec_update_superblock(d, apsb_paddr, link_id) == Err::<Seq<u8>, FixtureError>(
            FixtureError::Invalid("block out of range"),
        )) by {
            reveal(spec_update_superblock);
        };
        return Err(FixtureError::Invalid("block out of range"));
    }
    assert(apsb_paddr * BS + BS <= img.data.len()) by (nonlinear_arith)
        requires
            (apsb_paddr + 1) * BS <= img.data.len(),
    ;
    let base = (apsb_paddr as usize) * BS + OBJ_HDR_SIZE;
    w64(&mut img.data, base + 144, link_id + 1); // next_obj_id
    let ghost d0 = img.data@;
    // num_files, num_directories, num_symlinks, fs_alloc_count (7 new
    // data blocks), total_blocks_alloced.
    if let Err(e) = bump(img, base + 152, 3) {
        assert(spec_update_superblock(d, apsb_paddr, link_id) == Err::<Seq<u8>, FixtureError>(e)) by {
            reveal(spec_update_superblock);
        };
        return Err(e);
    }
    let ghost d1 = img.data@;
    if let Err(e) = bump(img, base + 160, 1) {
        assert(spec_update_superblock(d, apsb_paddr, link_id) == Err::<Seq<u8>, FixtureError>(e)) by {
            reveal(spec_update_superblock);
        };
        return Err(e);
    }
    let ghost d2 = img.data@;
    if let Err(e) = bump(img, base + 168, 1) {
        assert(spec_update_superblock(d, apsb_paddr, link_id) == Err::<Seq<u8>, FixtureError>(e)) by {
            reveal(spec_update_superblock);
        };
        return Err(e);
    }
    let ghost d3 = img.data@;
    if let Err(e) = bump(img, base + 56, 7) {
        assert(spec_update_superblock(d, apsb_paddr, link_id) == Err::<Seq<u8>, FixtureError>(e)) by {
            reveal(spec_update_superblock);
        };
        return Err(e);
    }
    let ghost d4 = img.data@;
    if let Err(e) = bump(img, base + 192, 7) {
        assert(spec_update_superblock(d, apsb_paddr, link_id) == Err::<Seq<u8>, FixtureError>(e)) by {
            reveal(spec_update_superblock);
        };
        return Err(e);
    }
    let ghost d5 = img.data@;
    img.fix_checksum(apsb_paddr);
    assert(spec_update_superblock(d, apsb_paddr, link_id) == Ok::<Seq<u8>, FixtureError>(img.data@)) by {
        reveal(spec_update_superblock);
    };
    Ok(())
}

/// A node rewritten with records `rs` (its table grown as needed) and its
/// checksum stored, or the overflow when they do not fit.
pub open spec fn spec_serialize(d: Seq<u8>, paddr: u64, rs: Seq<RecordView>, is_root: bool, tl: u16) -> core::result::Result<
    Seq<u8>,
    FixtureError,
> {
    let old_blk = block_of(d, paddr as int);
    let tl2 = grown_table_len(rs.len() as int, tl as int);
    if node_fits(old_blk, rs, is_root, tl2) {
        Ok(splice(d, paddr * BS, with_checksum(serialized_block(old_blk, rs, is_root, tl2))))
    } else {
        Err(FixtureError::Invalid("node overflow"))
    }
}

/// The injection once the root records, their root flag and table length,
/// the root's creation time and the first new object id are known: the
/// data blocks allocated and written, the fs-tree root and the
/// extent-reference root rewritten, the volume superblock updated.
#[verifier::opaque]
pub open spec fn spec_inject_files(
    d: Seq<u8>,
    layout: Layout,
    sm: Spaceman,
    case_fold: bool,
    next: u64,
    rs: Seq<RecordView>,
    is_root: bool,
    tl: u16,
    times: u64,
) -> core::result::Result<Seq<u8>, FixtureError> {
    match spec_alloc_files(d, sm) {
        Err(e) => Err(e),
        Ok((blocks, d1)) => match spec_write_files(d1, blocks, hello_bytes(), readme_bytes(), big_bytes()) {
            Err(e) => Err(e),
            Ok(d2) => match spec_fs_records(rs, case_fold, times, next, blocks, 28, 1000, 14336) {
                Err(e) => Err(e),
                Ok(recs) => match spec_serialize(d2, layout.fs_root_paddr, recs, is_root, tl) {
                    Err(e) => Err(e),
                    Ok(d3) => if !block_in(d3, layout.extentref_paddr as int) {
                        Err(FixtureError::Invalid("block out of range"))
                    } else {
                        match spec_parse_node(block_of(d3, layout.extentref_paddr as int)) {
                            Err(m) => Err(FixtureError::Invalid(m)),
                            Ok((ers, eroot, etl)) => match spec_ext_records(ers, next, blocks) {
                                Err(e) => Err(e),
                                Ok(erecs) => match spec_serialize(d3, layout.extentref_paddr, erecs, eroot, etl) {
                                    Err(e) => Err(e),
                                    Ok(d4) => spec_update_superblock(d4, layout.apsb_paddr, (next + 4) as u64),
                                },
                            },
                        }
                    },
                },
            },
        },
    }
}

/// The injection once the volume layout and the space manager are known:
/// the volume must hash directory-record names, and the fs-tree root must
/// parse and hold the root directory's inode.
#[verifier::opaque]
pub open spec fn spec_inject_with(d: Seq<u8>, layout: Layout, sm: Spaceman) -> core::result::Result<
    Seq<u8>,
    FixtureError,
> {
    if !block_in(d, layout.apsb_paddr as int) {
        Err(FixtureError::Invalid("block out of range"))
    } else {
        let apsb = block_of(d, layout.apsb_paddr as int);
        let incompat = le64(apsb, OBJ_HDR_SIZE + 24) as u64;
        let case_fold = incompat & APFS_INCOMPAT_CASE_INSENSITIVE != 0;
        if !(incompat & APFS_INCOMPAT_NORMALIZATION_INSENSITIVE != 0 || case_fold) {
            Err(FixtureError::Invalid("fixture assumes hashed drec keys"))
        } else {
            let next = le64(apsb, OBJ_HDR_SIZE + 144) as u64;
            if !block_in(d, layout.fs_root_paddr as int) {
                Err(FixtureError::Invalid("block out of range"))
            } else {
                match spec_parse_node(block_of(d, layout.fs_root_paddr as int)) {
                    Err(m) => Err(FixtureError::Invalid(m)),
                    Ok((rs, is_root, tl)) => match spec_root_times(rs, 0) {
                        Err(e) => Err(e),
                        Ok(times) => if next > OBJ_ID_MASK - 5 {
                            Err(FixtureError::Invalid("object ids exhausted"))
                        } else {
                            spec_inject_files(d, layout, sm, case_fold, next, rs, is_root, tl, times)
                        },
                    },
                }
            }
        }
    }
}

/// The image after the fixture's files are injected, or why the tool
/// stops.
#[verifier::opaque]
pub open spec fn spec_inject(d: Seq<u8>) -> core::result::Result<Seq<u8>, FixtureError> {
    match spec_discover(d) {
        Err(e) => Err(e),
        Ok(layout) => match spec_discover_spaceman(d, layout.spaceman_paddr) {
            Err(e) => Err(e),
            Ok(sm) => spec_inject_with(d, layout, sm),
        },
    }
}

/// Inject the fixture's files into a fresh image: `hello.txt`, a `docs`
/// directory with `readme.md` and the three-extent `big.bin`, and the
/// symlink `link-to-hello`, with their inodes, directory records, data
/// streams, extents and extent references, the space they occupy
/// allocated, and the volume counters and all touched checksums updated.
#[verifier::spinoff_prover]
#[verifier::rlimit(60)]
pub fn inject(img: &mut Image) -> (r: core::result::Result<(), FixtureError>)
    ensures
        final(img).data@.len() == old(img).data@.len(),
        match spec_inject(old(img).data@) {
            Ok(d) => r is Ok && final(img).data@ == d,
            Err(e) => r == Err::<(), FixtureError>(e),
        },
        r is Ok ==> (spec_discover(old(img).data@) matches Ok(l) && object_valid(
            block_of(final(img).data@, l.apsb_paddr as int),
        )),
{
    let ghost d = img.data@;
    let layout = match discover(img) {
        Ok(l) => l,
        Err(e) => {
            proof {
                reveal(spec_inject);
            }
            return Err(e);
        },
    };
    let sm = match discover_spaceman(img, layout.spaceman_paddr) {
        Ok(s) => s,
        Err(e) => {
            proof {
                reveal(spec_inject);
            }
            return Err(e);
        },
    };
    assert(spec_inject(d) == spec_inject_with(d, layout, sm)) by {
        reveal(spec_inject);
    };

    // Volume flags decide drec key hashing.
    if !img.block_in_range(layout.apsb_paddr) {
        proof {
            reveal(spec_inject_with);
        }
        return Err(FixtureError::Invalid("block out of range"));
    }
    let apsb = img.block(layout.apsb_paddr);
    let incompat = r64(apsb, OBJ_HDR_SIZE + 24);
    let case_fold = incompat & APFS_INCOMPAT_CASE_INSENSITIVE != 0;
    if !(incompat & APFS_INCOMPAT_NORMALIZATION_INSENSITIVE != 0 || case_fold) {
        proof {
            reveal(spec_inject_with);
        }
        return Err(FixtureError::Invalid("fixture assumes hashed drec keys"));
    }
    let next_obj_id = r64(apsb, OBJ_HDR_SIZE + 144);

    // Borrow the root inode's timestamp so everything looks consistent.
    if !img.block_in_range(layout.fs_root_paddr) {
        proof {
            reveal(spec_inject_with);
        }
        return Err(FixtureError::Invalid("block out of range"));
    }
    let root_node = match parse_node(img, layout.fs_root_paddr) {
        Ok(n) => n,
        Err(e) => {
            proof {
                reveal(spec_inject_with);
            }
            return Err(e);
        },
    };
    let ghost rs = records_view(root_node.records@);
    let times = match root_inode_times(&root_node.records) {
        Ok(t) => t,
        Err(e) => {
            proof {
                reveal(spec_inject_with);
            }
            return Err(e);
        },
    };
    if next_obj_id > OBJ_ID_MASK - 5 {
        proof {
            reveal(spec_inject_with);
        }
        return Err(FixtureError::Invalid("object ids exhausted"));
    }
    assert(spec_inject(d) == spec_inject_files(
        d,
        layout,
        sm,
        case_fold,
        next_obj_id,
        rs,
        root_node.is_root,
        root_node.table_len,
        times,
    )) by {
        reveal(spec_inject_with);
    };
    inject_files(img, &layout, &sm, case_fold, next_obj_id, root_node, times)
}

/// The injection once the root node, its creation time and the first new
/// object id are known.
#[verifier::spinoff_prover]
#[verifier::rlimit(60)]
fn inject_files(
    img: &mut Image,
    layout: &Layout,
    sm: &Spaceman,
    case_fold: bool,
    next_obj_id: u64,
    root_node: NodeImage,
    times: u64,
) -> (r: core::result::Result<(), FixtureError>)
    requires
        next_obj_id <= OBJ_ID_MASK - 5,
        sm.free_count_off + 8 <= BS,
        sm.ci_free_count_off + 4 <= BS,
        old(img).has_block(layout.fs_root_paddr),
    ensures
        final(img).data@.len() == old(img).data@.len(),
        match spec_inject_files(
            old(img).data@,
            *layout,
            *sm,
            case_fold,
            next_obj_id,
            records_view(root_node.records@),
            root_node.is_root,
            root_node.table_len,
            times,
        ) {
            Ok(d) => r is Ok && final(img).data@ == d,
            Err(e) => r == Err::<(), FixtureError>(e),
        },
        r is Ok ==> object_valid(block_of(final(img).data@, layout.apsb_paddr as int)),
{
    let ghost d = img.data@;
    let ghost rs = records_view(root_node.records@);
    // ----- allocate and write data blocks -----
    let hello = hello_data();
    let readme = readme_data();
    let big = big_data();
    let blocks = match allocate_and_write(img, sm, &hello, &readme, &big) {
        Ok(b) => b,
        Err(e) => {
            proof {
                reveal(spec_inject_files);
            }
            return Err(e);
        },
    };
    let ghost d2 = img.data@;

    // ----- fs tree -----
    let recs = match fs_records(
        root_node.records,
        case_fold,
        times,
        next_obj_id,
        &blocks,
        hello.len() as u64,
        readme.len() as u64,
        big.len() as u64,
    ) {
        Ok(v) => v,
        Err(e) => {
            proof {
                reveal(spec_inject_files);
            }
            return Err(e);
        },
    };
    let new_root = NodeImage {
        paddr: layout.fs_root_paddr,
        records: recs,
        is_root: root_node.is_root,
        table_len: root_node.table_len,
    };
    if !img.block_in_range(new_root.paddr) {
        return Err(FixtureError::Invalid("block out of range"));
    }
    if let Err(e) = serialize_node(img, &new_root) {
        proof {
            reveal(spec_inject_files);
        }
        return Err(e);
    }
    let ghost d3 = img.data@;

    // ----- extent reference tree -----
    if !img.block_in_range(layout.extentref_paddr) {
        proof {
            reveal(spec_inject_files);
        }
        return Err(FixtureError::Invalid("block out of range"));
    }
    let ext_node = match parse_node(img, layout.extentref_paddr) {
        Ok(n) => n,
        Err(e) => {
            proof {
                reveal(spec_inject_files);
            }
            return Err(e);
        },
    };
    let ext_recs = match extent_records(ext_node.records, next_obj_id, &blocks) {
        Ok(v) => v,
        Err(e) => {
            proof {
                reveal(spec_inject_files);
            }
            return Err(e);
        },
    };
    let new_ext = NodeImage {
        paddr: layout.extentref_paddr,
        records: ext_recs,
        is_root: ext_node.is_root,
        table_len: ext_node.table_len,
    };
    if let Err(e) = serialize_node(img, &new_ext) {
        proof {
            reveal(spec_inject_files);
        }
        return Err(e);
    }

    // ----- volume superblock counters -----
    let r = update_superblock(img, layout.apsb_paddr, next_obj_id + 4);
    proof {
        reveal(spec_inject_files);
    }
    r
}

} // verus!
