//! File-system tree records: inodes, directory entries, extended
//! attributes, file extents — plus path resolution and file reading.

use crate::btree::{
    self, hdr_of, opt_view, outcome_matches, spec_scan_node, KeyCompare, KeyOrder, LeafVisitor,
};
use crate::error::{same_error, Error};
use crate::raw::{le16, le32, le64, truncated, SliceReader};
use crate::text::{cstr, cstr_lossy, spec_utf8_lossy};
use crate::types::{
    APFS_TYPE_DIR_REC, APFS_TYPE_FILE_EXTENT, APFS_TYPE_INODE, APFS_TYPE_XATTR, DREC_LEN_MASK,
    DT_DIR, INODE_HAS_UNCOMPRESSED_SIZE, INO_EXT_TYPE_DSTREAM, INO_EXT_TYPE_NAME,
    J_FILE_EXTENT_LEN_MASK, OBJ_ID_MASK, OBJ_TYPE_SHIFT, S_IFDIR, S_IFLNK, S_IFMT, S_IFREG,
    ROOT_DIR_INO_NUM, UF_COMPRESSED, XATTR_DATA_STREAM, XATTR_SYMLINK,
};
use crate::device::BlockDevice;
use crate::decmpfs::{lemma_compressed_read_count, read_at, spec_compressed_read, spec_uncompressed_size, uncompressed_size};
use crate::text::{eq_ignore_ascii_case, push_char, spec_eq_ignore_ascii_case, str_eq};
use vstd::utf8::encode_utf8;
use crate::volume::{spec_root_tree, spec_volume_omap, FsTreeSource, Volume};
use crate::Result;
use vstd::prelude::*;

verus! {

/// Object id of a `j_key_t` header.
pub open spec fn jkey_id(hdr: u64) -> u64 {
    hdr & OBJ_ID_MASK
}

/// Record type of a `j_key_t` header.
pub open spec fn jkey_type(hdr: u64) -> u8 {
    (hdr >> OBJ_TYPE_SHIFT) as u8
}

/// Split a `j_key_t` header into (object id, record type).
pub fn split_jkey(hdr: u64) -> (r: (u64, u8))
    ensures
        r == (jkey_id(hdr), jkey_type(hdr)),
{
    (hdr & OBJ_ID_MASK, (hdr >> OBJ_TYPE_SHIFT) as u8)
}

/// fs-tree key order on the (object id, record type) prefix. This matches
/// the on-disk ordering for the prefix; per-type suffixes (names, offsets)
/// are handled by scanning forward from the prefix position.
#[derive(Clone, Copy)]
pub struct FsKey {
    pub objid: u64,
    pub rtype: u8,
}

impl KeyCompare for FsKey {
    open spec fn spec_compare(&self, key: Seq<u8>) -> core::result::Result<KeyOrder, Error> {
        if key.len() < 8 {
            Err(truncated())
        } else {
            let hdr = le64(key, 0) as u64;
            let k_id = jkey_id(hdr);
            let k_type = jkey_type(hdr);
            Ok(
                if k_id < self.objid {
                    KeyOrder::Less
                } else if k_id > self.objid {
                    KeyOrder::Greater
                } else if k_type < self.rtype {
                    KeyOrder::Less
                } else if k_type > self.rtype {
                    KeyOrder::Greater
                } else {
                    KeyOrder::Equal
                },
            )
        }
    }

    fn compare(&self, key: &[u8]) -> (r: Result<KeyOrder>) {
        let mut r = SliceReader::new(key);
        let hdr = r.u64()?;
        let (k_id, k_type) = split_jkey(hdr);
        Ok(
            if k_id < self.objid {
                KeyOrder::Less
            } else if k_id > self.objid {
                KeyOrder::Greater
            } else if k_type < self.rtype {
                KeyOrder::Less
            } else if k_type > self.rtype {
                KeyOrder::Greater
            } else {
                KeyOrder::Equal
            },
        )
    }
}

/// A parsed `j_inode_val_t`.
#[derive(Debug, Clone)]
pub struct Inode {
    pub id: u64,
    pub parent_id: u64,
    pub private_id: u64,
    pub create_time: u64,
    pub mod_time: u64,
    pub change_time: u64,
    pub access_time: u64,
    pub internal_flags: u64,
    /// Number of children (directories) or hard links (files).
    pub nchildren_or_nlink: i32,
    pub bsd_flags: u32,
    pub owner: u32,
    pub group: u32,
    pub mode: u16,
    /// From the dstream xfield, if present.
    pub size: u64,
    pub alloced_size: u64,
    /// From the name xfield, if present.
    pub name: Option<String>,
}

/// The mathematical value of an [`Inode`].
pub struct InodeView {
    pub id: u64,
    pub parent_id: u64,
    pub private_id: u64,
    pub create_time: u64,
    pub mod_time: u64,
    pub change_time: u64,
    pub access_time: u64,
    pub internal_flags: u64,
    pub nchildren_or_nlink: i32,
    pub bsd_flags: u32,
    pub owner: u32,
    pub group: u32,
    pub mode: u16,
    pub size: u64,
    pub alloced_size: u64,
    pub name: Option<Seq<char>>,
}

impl View for Inode {
    type V = InodeView;

    open spec fn view(&self) -> InodeView {
        InodeView {
            id: self.id,
            parent_id: self.parent_id,
            private_id: self.private_id,
            create_time: self.create_time,
            mod_time: self.mod_time,
            change_time: self.change_time,
            access_time: self.access_time,
            internal_flags: self.internal_flags,
            nchildren_or_nlink: self.nchildren_or_nlink,
            bsd_flags: self.bsd_flags,
            owner: self.owner,
            group: self.group,
            mode: self.mode,
            size: self.size,
            alloced_size: self.alloced_size,
            name: match self.name {
                Some(s) => Some(s@),
                None => None,
            },
        }
    }
}

pub open spec fn spec_is_dir(mode: u16) -> bool {
    mode & S_IFMT == S_IFDIR
}

pub open spec fn spec_is_file(mode: u16) -> bool {
    mode & S_IFMT == S_IFREG
}

pub open spec fn spec_is_symlink(mode: u16) -> bool {
    mode & S_IFMT == S_IFLNK
}

pub open spec fn spec_is_compressed(bsd_flags: u32) -> bool {
    bsd_flags & UF_COMPRESSED != 0
}

/// The extended-field headers (type, size) of an inode value with `num`
/// of them.
pub open spec fn xf_metas(val: Seq<u8>, num: int) -> Seq<(u8, u16)> {
    Seq::new(num as nat, |k: int| (val[96 + 4 * k], le16(val, 98 + 4 * k) as u16))
}

/// Padding that follows an extended field of `size` bytes.
pub open spec fn xf_pad(size: int) -> int {
    (8 - size % 8) % 8
}

/// Apply the extended fields `k..` (data starting at byte `p`) to `iv`.
pub open spec fn spec_xfields(val: Seq<u8>, metas: Seq<(u8, u16)>, k: int, p: int, iv: InodeView) -> core::result::Result<
    InodeView,
    Error,
>
    decreases metas.len() - k,
{
    if k >= metas.len() || k < 0 {
        Ok(iv)
    } else {
        let (t, sz) = metas[k];
        if p + sz > val.len() {
            Err(truncated())
        } else {
            let data = val.subrange(p, p + sz);
            let step: core::result::Result<InodeView, Error> = if t == INO_EXT_TYPE_NAME {
                Ok(InodeView { name: Some(spec_utf8_lossy(cstr(data))), ..iv })
            } else if t == INO_EXT_TYPE_DSTREAM {
                if data.len() < 16 {
                    Err(truncated())
                } else {
                    Ok(InodeView { size: le64(data, 0) as u64, alloced_size: le64(data, 8) as u64, ..iv })
                }
            } else {
                Ok(iv)
            };
            match step {
                Err(e) => Err(e),
                Ok(iv2) => {
                    let p2 = p + sz;
                    let p3 = if val.len() - p2 >= xf_pad(sz as int) { p2 + xf_pad(sz as int) } else { p2 };
                    spec_xfields(val, metas, k + 1, p3, iv2)
                },
            }
        }
    }
}

/// The inode `id` whose value bytes are `val`.
pub open spec fn spec_inode_parse(id: u64, val: Seq<u8>) -> core::result::Result<InodeView, Error> {
    if val.len() < 92 {
        Err(truncated())
    } else {
        let base = InodeView {
            id,
            parent_id: le64(val, 0) as u64,
            private_id: le64(val, 8) as u64,
            create_time: le64(val, 16) as u64,
            mod_time: le64(val, 24) as u64,
            change_time: le64(val, 32) as u64,
            access_time: le64(val, 40) as u64,
            internal_flags: le64(val, 48) as u64,
            nchildren_or_nlink: (le32(val, 56) as u32) as i32,
            bsd_flags: le32(val, 68) as u32,
            owner: le32(val, 72) as u32,
            group: le32(val, 76) as u32,
            mode: le16(val, 80) as u16,
            size: 0,
            alloced_size: 0,
            name: None,
        };
        let uncompressed_size = le64(val, 84) as u64;
        let xf: core::result::Result<InodeView, Error> = if val.len() - 92 >= 4 {
            let num = le16(val, 92);
            if val.len() < 96 + 4 * num {
                Err(truncated())
            } else {
                spec_xfields(val, xf_metas(val, num), 0, 96 + 4 * num, base)
            }
        } else {
            Ok(base)
        };
        match xf {
            Err(e) => Err(e),
            Ok(iv) => Ok(
                if spec_is_compressed(iv.bsd_flags) && iv.size == 0 && iv.internal_flags & INODE_HAS_UNCOMPRESSED_SIZE != 0 {
                    InodeView { size: uncompressed_size, ..iv }
                } else {
                    iv
                },
            ),
        }
    }
}

/// `r` is the inode `s` describes, or fails the same way.
pub open spec fn inode_result(r: Result<Inode>, s: core::result::Result<InodeView, Error>) -> bool {
    match r {
        Ok(i) => s == Ok::<InodeView, Error>(i@),
        Err(e) => s matches Err(e2) && same_error(e, e2),
    }
}

impl Inode {
    pub fn file_type(&self) -> (t: u16)
        ensures
            t == self.mode & S_IFMT,
    {
        self.mode & S_IFMT
    }

    pub fn is_dir(&self) -> (b: bool)
        ensures
            b == spec_is_dir(self.mode),
    {
        self.file_type() == S_IFDIR
    }

    pub fn is_file(&self) -> (b: bool)
        ensures
            b == spec_is_file(self.mode),
    {
        self.file_type() == S_IFREG
    }

    pub fn is_symlink(&self) -> (b: bool)
        ensures
            b == spec_is_symlink(self.mode),
    {
        self.file_type() == S_IFLNK
    }

    pub fn is_compressed(&self) -> (b: bool)
        ensures
            b == spec_is_compressed(self.bsd_flags),
    {
        self.bsd_flags & UF_COMPRESSED != 0
    }

    /// Apply one extended field to `inode`.
    fn apply_xfield(inode: &mut Inode, x_type: u8, data: &[u8]) -> (r: Result<()>)
        ensures
            (if x_type == INO_EXT_TYPE_NAME {
                Ok(InodeView { name: Some(spec_utf8_lossy(cstr(data@))), ..old(inode)@ })
            } else if x_type == INO_EXT_TYPE_DSTREAM {
                if data@.len() < 16 {
                    Err(truncated())
                } else {
                    Ok(InodeView { size: le64(data@, 0) as u64, alloced_size: le64(data@, 8) as u64, ..old(inode)@ })
                }
            } else {
                Ok(old(inode)@)
            }) == match r {
                Ok(_) => Ok::<InodeView, Error>(final(inode)@),
                Err(e) => Err::<InodeView, Error>(e),
            },
    {
        if x_type == INO_EXT_TYPE_NAME {
            inode.name = Some(cstr_lossy(data));
        } else if x_type == INO_EXT_TYPE_DSTREAM {
            let mut dr = SliceReader::new(data);
            let size = dr.u64()?;
            let alloced = dr.u64()?;
            inode.size = size;
            inode.alloced_size = alloced;
        }
        Ok(())
    }

    /// Read `num` extended-field headers (type, flags, size).
    fn read_xfield_metas(r: &mut SliceReader, num: u16) -> (m: Result<Vec<(u8, u16)>>)
        requires
            old(r).offset() == 96,
            old(r).data().len() >= 96,
        ensures
            final(r).data() == old(r).data(),
            match m {
                Ok(v) => old(r).data().len() >= 96 + 4 * num && v@ == xf_metas(old(r).data(), num as int)
                    && final(r).offset() == 96 + 4 * num,
                Err(e) => old(r).data().len() < 96 + 4 * num && e == truncated(),
            },
    {
        let mut metas: Vec<(u8, u16)> = Vec::new();
        let mut k: usize = 0;
        while k < num as usize
            invariant
                k <= num,
                r.data() == old(r).data(),
                r.offset() == 96 + 4 * k,
                r.offset() <= r.data().len(),
                metas@ == xf_metas(r.data(), k as int),
            decreases num - k,
        {
            let x_type = r.u8()?;
            let _x_flags = r.u8()?;
            let x_size = r.u16()?;
            metas.push((x_type, x_size));
            k += 1;
            assert(metas@ =~= xf_metas(r.data(), k as int));
        }
        Ok(metas)
    }

    /// Apply the extended fields described by `metas`, reading their data.
    fn apply_xfields(r: &mut SliceReader, metas: &Vec<(u8, u16)>, inode: &mut Inode) -> (res: Result<()>)
        ensures
            final(r).data() == old(r).data(),
            match spec_xfields(old(r).data(), metas@, 0, old(r).offset(), old(inode)@) {
                Ok(iv) => res is Ok && final(inode)@ == iv,
                Err(e) => res == Err::<(), Error>(e),
            },
    {
        let mut k: usize = 0;
        while k < metas.len()
            invariant
                k <= metas@.len(),
                r.data() == old(r).data(),
                spec_xfields(old(r).data(), metas@, 0, old(r).offset(), old(inode)@)
                    == spec_xfields(r.data(), metas@, k as int, r.offset(), inode@),
            decreases metas@.len() - k,
        {
            let (x_type, x_size) = metas[k];
            let data = r.bytes(x_size as usize)?;
            Self::apply_xfield(inode, x_type, data)?;
            // Each xfield's data is padded to 8 bytes.
            let pad = (8 - (x_size as usize % 8)) % 8;
            if r.remaining() >= pad {
                r.skip(pad)?;
            }
            k += 1;
        }
        Ok(())
    }

    #[verifier::rlimit(30)]
    pub fn parse(id: u64, val: &[u8]) -> (r: Result<Inode>)
        ensures
            match spec_inode_parse(id, val@) {
                Ok(iv) => r matches Ok(i) && i@ == iv,
                Err(e) => r matches Err(e2) && e2 == e,
            },
    {
        let mut r = SliceReader::new(val);
        if val.len() < 92 {
            // Every field below is read through `bytes`.
            return Err(Error::Parse("truncated structure (bytes)"));
        }
        let parent_id = r.u64()?;
        let private_id = r.u64()?;
        let create_time = r.u64()?;
        let mod_time = r.u64()?;
        let change_time = r.u64()?;
        let access_time = r.u64()?;
        let internal_flags = r.u64()?;
        let nchildren_or_nlink = r.u32()? as i32;
        let _default_protection_class = r.u32()?;
        let _write_generation_counter = r.u32()?;
        let bsd_flags = r.u32()?;
        let owner = r.u32()?;
        let group = r.u32()?;
        let mode = r.u16()?;
        let _pad1 = r.u16()?;
        let uncompressed_size = r.u64()?;

        let mut inode = Inode {
            id,
            parent_id,
            private_id,
            create_time,
            mod_time,
            change_time,
            access_time,
            internal_flags,
            nchildren_or_nlink,
            bsd_flags,
            owner,
            group,
            mode,
            size: 0,
            alloced_size: 0,
            name: None,
        };
        assert(r.offset() == 92);

        // Extended fields (optional).
        if r.remaining() >= 4 {
            let num_exts = r.u16()?;
            let _used_data = r.u16()?;
            let metas = Self::read_xfield_metas(&mut r, num_exts)?;
            Self::apply_xfields(&mut r, &metas, &mut inode)?;
        }
        // For compressed files without a data stream, the inode's trailing
        // u64 carries the uncompressed size when this flag is set.
        if inode.is_compressed() && inode.size == 0 && inode.internal_flags & INODE_HAS_UNCOMPRESSED_SIZE != 0 {
            inode.size = uncompressed_size;
        }
        Ok(inode)
    }
}

/// A directory entry (from a `j_drec` record).
#[derive(Debug, Clone)]
pub struct DirEntry {
    pub name: String,
    pub file_id: u64,
    pub date_added: u64,
    /// `DT_*` file-type constant.
    pub dtype: u16,
}

/// The mathematical value of a [`DirEntry`].
pub struct DirEntryView {
    pub name: Seq<char>,
    pub file_id: u64,
    pub date_added: u64,
    pub dtype: u16,
}

impl View for DirEntry {
    type V = DirEntryView;

    open spec fn view(&self) -> DirEntryView {
        DirEntryView { name: self.name@, file_id: self.file_id, date_added: self.date_added, dtype: self.dtype }
    }
}

impl DirEntry {
    pub fn is_dir(&self) -> (b: bool)
        ensures
            b == (self.dtype == DT_DIR),
    {
        self.dtype == DT_DIR
    }
}

/// The views of a list of directory entries.
pub open spec fn entries_view(v: Seq<DirEntry>) -> Seq<DirEntryView> {
    v.map_values(|e: DirEntry| e@)
}

/// An extent mapping a range of a file to physical blocks.
#[derive(Debug, Clone, Copy, PartialEq, Eq, Structural)]
pub struct FileExtent {
    pub logical_addr: u64,
    pub len_bytes: u64,
    pub phys_block: u64,
}

/// Whether a key header belongs to the record prefix (`id`, `rtype`).
pub open spec fn key_matches(key: Seq<u8>, id: u64, rtype: u8) -> bool {
    jkey_id(le64(key, 0) as u64) == id && jkey_type(le64(key, 0) as u64) == rtype
}

/// Read a key's header and test it against the prefix (`id`, `rtype`).
fn key_prefix_is(key: &[u8], id: u64, rtype: u8) -> (r: Result<bool>)
    ensures
        match r {
            Ok(b) => key@.len() >= 8 && b == key_matches(key@, id, rtype),
            Err(e) => key@.len() < 8 && e == truncated(),
        },
{
    let mut r = SliceReader::new(key);
    let (k_id, k_type) = split_jkey(r.u64()?);
    Ok(k_id == id && k_type == rtype)
}

/// Collects the inode record of one object id.
pub struct InodeVisitor {
    pub id: u64,
    pub found: Option<Inode>,
}

impl View for InodeVisitor {
    type V = (u64, Option<InodeView>);

    open spec fn view(&self) -> (u64, Option<InodeView>) {
        (self.id, match self.found {
            Some(i) => Some(i@),
            None => None,
        })
    }
}

impl LeafVisitor for InodeVisitor {
    open spec fn spec_visit(s: Self::V, key: Seq<u8>, val: Option<Seq<u8>>) -> (Self::V, core::result::Result<bool, Error>) {
        if key.len() < 8 {
            (s, Err(truncated()))
        } else if !key_matches(key, s.0, APFS_TYPE_INODE) {
            (s, Ok(false))
        } else {
            match val {
                None => (s, Err(Error::Corrupt("inode record with no value"))),
                Some(v) => match spec_inode_parse(s.0, v) {
                    Err(e) => (s, Err(e)),
                    Ok(iv) => ((s.0, Some(iv)), Ok(false)),
                },
            }
        }
    }

    fn visit(&mut self, key: &[u8], val: Option<&[u8]>) -> (r: Result<bool>) {
        if !key_prefix_is(key, self.id, APFS_TYPE_INODE)? {
            return Ok(false);
        }
        let val = match val {
            Some(v) => v,
            None => return Err(Error::Corrupt("inode record with no value")),
        };
        self.found = Some(Inode::parse(self.id, val)?);
        Ok(false)
    }
}

/// The name stored in a drec key after its 8-byte header.
pub open spec fn spec_drec_name(key: Seq<u8>, hashed: bool) -> core::result::Result<Seq<char>, Error> {
    if hashed {
        if key.len() < 12 {
            Err(truncated())
        } else {
            let len = (le32(key, 8) as u32 & DREC_LEN_MASK) as int;
            if 12 + len > key.len() {
                Err(truncated())
            } else {
                Ok(spec_utf8_lossy(cstr(key.subrange(12, 12 + len))))
            }
        }
    } else {
        if key.len() < 10 {
            Err(truncated())
        } else {
            let len = le16(key, 8);
            if 10 + len > key.len() {
                Err(truncated())
            } else {
                Ok(spec_utf8_lossy(cstr(key.subrange(10, 10 + len))))
            }
        }
    }
}

/// Parse the name out of a drec key (reader positioned after the hdr u64).
fn parse_drec_name(r: &mut SliceReader<'_>, hashed: bool) -> (n: Result<String>)
    requires
        old(r).offset() == 8,
    ensures
        match spec_drec_name(old(r).data(), hashed) {
            Ok(s) => n matches Ok(x) && x@ == s,
            Err(e) => n matches Err(e2) && e2 == e,
        },
{
    let len = if hashed {
        let name_len_and_hash = r.u32()?;
        (name_len_and_hash & DREC_LEN_MASK) as usize
    } else {
        r.u16()? as usize
    };
    let bytes = r.bytes(len)?;
    Ok(cstr_lossy(bytes))
}

/// Collects the directory entries of one directory.
pub struct DirVisitor {
    pub dir_id: u64,
    pub hashed: bool,
    pub entries: Vec<DirEntry>,
}

impl View for DirVisitor {
    type V = (u64, bool, Seq<DirEntryView>);

    open spec fn view(&self) -> (u64, bool, Seq<DirEntryView>) {
        (self.dir_id, self.hashed, entries_view(self.entries@))
    }
}

impl LeafVisitor for DirVisitor {
    open spec fn spec_visit(s: Self::V, key: Seq<u8>, val: Option<Seq<u8>>) -> (Self::V, core::result::Result<bool, Error>) {
        if key.len() < 8 {
            (s, Err(truncated()))
        } else if !key_matches(key, s.0, APFS_TYPE_DIR_REC) {
            (s, Ok(false))
        } else {
            match spec_drec_name(key, s.1) {
                Err(e) => (s, Err(e)),
                Ok(name) => match val {
                    None => (s, Err(Error::Corrupt("drec with no value"))),
                    Some(v) => if v.len() < 18 {
                        (s, Err(truncated()))
                    } else {
                        let e = DirEntryView {
                            name,
                            file_id: le64(v, 0) as u64,
                            date_added: le64(v, 8) as u64,
                            dtype: (le16(v, 16) as u16) & 0x000f,
                        };
                        ((s.0, s.1, s.2.push(e)), Ok(true))
                    },
                },
            }
        }
    }

    fn visit(&mut self, key: &[u8], val: Option<&[u8]>) -> (r: Result<bool>) {
        if !key_prefix_is(key, self.dir_id, APFS_TYPE_DIR_REC)? {
            return Ok(false);
        }
        let mut r = SliceReader::new(key);
        r.skip(8)?;
        let name = parse_drec_name(&mut r, self.hashed)?;
        let val = match val {
            Some(v) => v,
            None => return Err(Error::Corrupt("drec with no value")),
        };
        let mut vr = SliceReader::new(val);
        let file_id = vr.u64()?;
        let date_added = vr.u64()?;
        let flags = vr.u16()?;
        let ghost old_entries = self.entries@;
        self.entries.push(DirEntry { name, file_id, date_added, dtype: flags & 0x000f });
        assert(entries_view(self.entries@) =~= entries_view(old_entries).push(self.entries@.last()@));
        Ok(true)
    }
}

/// Collects the extents of one data stream.
pub struct ExtentVisitor {
    pub stream_id: u64,
    pub extents: Vec<FileExtent>,
}

impl View for ExtentVisitor {
    type V = (u64, Seq<FileExtent>);

    open spec fn view(&self) -> (u64, Seq<FileExtent>) {
        (self.stream_id, self.extents@)
    }
}

impl LeafVisitor for ExtentVisitor {
    open spec fn spec_visit(s: Self::V, key: Seq<u8>, val: Option<Seq<u8>>) -> (Self::V, core::result::Result<bool, Error>) {
        if key.len() < 8 {
            (s, Err(truncated()))
        } else if !key_matches(key, s.0, APFS_TYPE_FILE_EXTENT) {
            (s, Ok(false))
        } else if key.len() < 16 {
            (s, Err(truncated()))
        } else {
            match val {
                None => (s, Err(Error::Corrupt("file extent with no value"))),
                Some(v) => if v.len() < 16 {
                    (s, Err(truncated()))
                } else {
                    let e = FileExtent {
                        logical_addr: le64(key, 8) as u64,
                        len_bytes: (le64(v, 0) as u64) & J_FILE_EXTENT_LEN_MASK,
                        phys_block: le64(v, 8) as u64,
                    };
                    ((s.0, s.1.push(e)), Ok(true))
                },
            }
        }
    }

    fn visit(&mut self, key: &[u8], val: Option<&[u8]>) -> (r: Result<bool>) {
        if !key_prefix_is(key, self.stream_id, APFS_TYPE_FILE_EXTENT)? {
            return Ok(false);
        }
        let mut r = SliceReader::new(key);
        r.skip(8)?;
        let logical_addr = r.u64()?;
        let val = match val {
            Some(v) => v,
            None => return Err(Error::Corrupt("file extent with no value")),
        };
        let mut vr = SliceReader::new(val);
        let len_and_flags = vr.u64()?;
        let phys_block = vr.u64()?;
        self.extents.push(FileExtent { logical_addr, len_bytes: len_and_flags & J_FILE_EXTENT_LEN_MASK, phys_block });
        Ok(true)
    }
}

/// Where an extended attribute's value lives.
#[derive(Debug, Clone)]
pub enum XattrValue {
    /// Stored inline in the record.
    Embedded(Vec<u8>),
    /// Stored in a data stream of `size` bytes.
    Stream { obj_id: u64, size: u64 },
}

/// The mathematical value of an [`XattrValue`].
pub enum XattrValueView {
    Embedded(Seq<u8>),
    Stream { obj_id: u64, size: u64 },
}

impl View for XattrValue {
    type V = XattrValueView;

    open spec fn view(&self) -> XattrValueView {
        match self {
            XattrValue::Embedded(v) => XattrValueView::Embedded(v@),
            XattrValue::Stream { obj_id, size } => XattrValueView::Stream { obj_id: *obj_id, size: *size },
        }
    }
}

/// Finds one named extended attribute of one object.
pub struct XattrVisitor<'n> {
    pub file_id: u64,
    pub name: &'n str,
    pub found: Option<XattrValue>,
}

impl<'n> View for XattrVisitor<'n> {
    type V = (u64, Seq<char>, Option<XattrValueView>);

    open spec fn view(&self) -> (u64, Seq<char>, Option<XattrValueView>) {
        (self.file_id, self.name@, match self.found {
            Some(x) => Some(x@),
            None => None,
        })
    }
}

impl<'n> LeafVisitor for XattrVisitor<'n> {
    open spec fn spec_visit(s: Self::V, key: Seq<u8>, val: Option<Seq<u8>>) -> (Self::V, core::result::Result<bool, Error>) {
        if key.len() < 8 {
            (s, Err(truncated()))
        } else if !key_matches(key, s.0, APFS_TYPE_XATTR) {
            (s, Ok(false))
        } else if key.len() < 10 {
            (s, Err(truncated()))
        } else if 10 + le16(key, 8) > key.len() {
            (s, Err(truncated()))
        } else if spec_utf8_lossy(cstr(key.subrange(10, 10 + le16(key, 8)))) != s.1 {
            (s, Ok(true))
        } else {
            match val {
                None => (s, Err(Error::Corrupt("xattr with no value"))),
                Some(v) => if v.len() < 4 {
                    (s, Err(truncated()))
                } else if (le16(v, 0) as u16) & XATTR_DATA_STREAM != 0 {
                    if v.len() < 20 {
                        (s, Err(truncated()))
                    } else {
                        ((s.0, s.1, Some(XattrValueView::Stream { obj_id: le64(v, 4) as u64, size: le64(v, 12) as u64 })), Ok(false))
                    }
                } else if 4 + le16(v, 2) > v.len() {
                    (s, Err(truncated()))
                } else {
                    ((s.0, s.1, Some(XattrValueView::Embedded(v.subrange(4, 4 + le16(v, 2))))), Ok(false))
                },
            }
        }
    }

    #[verifier::rlimit(30)]
    fn visit(&mut self, key: &[u8], val: Option<&[u8]>) -> (r: Result<bool>) {
        if !key_prefix_is(key, self.file_id, APFS_TYPE_XATTR)? {
            return Ok(false);
        }
        let mut r = SliceReader::new(key);
        r.skip(8)?;
        let name_len = r.u16()? as usize;
        let name_bytes = r.bytes(name_len)?;
        let k_name = cstr_lossy(name_bytes);
        if !str_eq(k_name.as_str(), self.name) {
            return Ok(true);
        }
        let val = match val {
            Some(v) => v,
            None => return Err(Error::Corrupt("xattr with no value")),
        };
        let mut vr = SliceReader::new(val);
        let flags = vr.u16()?;
        let xdata_len = vr.u16()? as usize;
        if flags & XATTR_DATA_STREAM != 0 {
            // Value is a dstream reference: {xattr_obj_id, j_dstream}.
            let xattr_obj_id = vr.u64()?;
            let dstream_size = vr.u64()?;
            self.found = Some(XattrValue::Stream { obj_id: xattr_obj_id, size: dstream_size });
        } else {
            let data = vr.bytes(xdata_len)?;
            self.found = Some(XattrValue::Embedded(crate::btree::copy_bytes(data)));
        }
        Ok(false)
    }
}

/// A scan of the volume's fs-tree from the record prefix `key`.
#[verifier::opaque]
pub open spec fn spec_fs_scan<D: BlockDevice, V: LeafVisitor>(v: Volume<D>, key: FsKey, st: V::V) -> (V::V, core::result::Result<bool, Error>) {
    match spec_root_tree(v) {
        Err(e) => (st, Err(e)),
        Ok((rb, info)) => match spec_volume_omap(v) {
            Err(e) => (st, Err(e)),
            Ok(om) => spec_scan_node::<FsTreeSource<D>, FsKey, V>(
                FsTreeSource { omap: om, xid: v.container.superblock.obj.xid },
                hdr_of(rb),
                rb,
                info,
                key,
                st,
                0,
            ),
        },
    }
}

/// The inode record of object `id`.
pub open spec fn spec_volume_inode<D: BlockDevice>(v: Volume<D>, id: u64) -> core::result::Result<InodeView, Error> {
    let (st, r) = spec_fs_scan::<D, InodeVisitor>(v, FsKey { objid: id, rtype: APFS_TYPE_INODE }, (id, None));
    match r {
        Err(e) => Err(e),
        Ok(_) => match st.1 {
            Some(iv) => Ok(iv),
            None => Err(Error::NotFound),
        },
    }
}

/// Whether a volume's directory records carry name hashes.
pub open spec fn spec_hashed<D: BlockDevice>(v: Volume<D>) -> bool {
    crate::volume::spec_normalization_insensitive(v.superblock) || crate::volume::spec_case_insensitive(v.superblock)
}

/// The entries of directory inode `dir_id`, in key order.
pub open spec fn spec_read_dir_inode<D: BlockDevice>(v: Volume<D>, dir_id: u64) -> core::result::Result<Seq<DirEntryView>, Error> {
    let (st, r) = spec_fs_scan::<D, DirVisitor>(
        v,
        FsKey { objid: dir_id, rtype: APFS_TYPE_DIR_REC },
        (dir_id, spec_hashed(v), Seq::empty()),
    );
    match r {
        Err(e) => Err(e),
        Ok(_) => Ok(st.2),
    }
}

/// The extents of data stream `stream_id`, in key order.
pub open spec fn spec_extents<D: BlockDevice>(v: Volume<D>, stream_id: u64) -> core::result::Result<Seq<FileExtent>, Error> {
    let (st, r) = spec_fs_scan::<D, ExtentVisitor>(
        v,
        FsKey { objid: stream_id, rtype: APFS_TYPE_FILE_EXTENT },
        (stream_id, Seq::empty()),
    );
    match r {
        Err(e) => Err(e),
        Ok(_) => Ok(st.1),
    }
}

/// Where the extended attribute `name` of object `file_id` lives.
pub open spec fn spec_xattr_value<D: BlockDevice>(v: Volume<D>, file_id: u64, name: Seq<char>) -> core::result::Result<XattrValueView, Error> {
    let (st, r) = spec_fs_scan::<D, XattrVisitor>(v, FsKey { objid: file_id, rtype: APFS_TYPE_XATTR }, (file_id, name, None));
    match r {
        Err(e) => Err(e),
        Ok(_) => match st.2 {
            Some(x) => Ok(x),
            None => Err(Error::NotFound),
        },
    }
}

impl<'c, D: BlockDevice> Volume<'c, D> {
    /// Scan the fs-tree from the record prefix `key`.
    fn fs_scan<V: LeafVisitor>(&self, key: &FsKey, f: &mut V) -> (r: Result<bool>)
        ensures
            outcome_matches(final(f)@, r, spec_fs_scan::<D, V>(*self, *key, old(f)@)),
    {
        reveal(spec_fs_scan);
        let (root, info) = self.root_tree()?;
        let source = self.fs_source()?;
        btree::scan_from(&source, root, &info, key, f)
    }

    /// Fetch the inode record for `id`.
    pub fn inode(&self, id: u64) -> (r: Result<Inode>)
        ensures
            inode_result(r, spec_volume_inode(*self, id)),
    {
        let mut v = InodeVisitor { id, found: None };
        self.fs_scan(&FsKey { objid: id, rtype: APFS_TYPE_INODE }, &mut v)?;
        match v.found {
            Some(i) => Ok(i),
            None => Err(Error::NotFound),
        }
    }

    /// List the entries of directory inode `dir_id`.
    pub fn read_dir_inode(&self, dir_id: u64) -> (r: Result<Vec<DirEntry>>)
        ensures
            match r {
                Ok(v) => spec_read_dir_inode(*self, dir_id) == Ok::<Seq<DirEntryView>, Error>(entries_view(v@)),
                Err(e) => spec_read_dir_inode(*self, dir_id) matches Err(e2) && same_error(e, e2),
            },
    {
        let hashed = self.superblock.normalization_insensitive() || self.superblock.case_insensitive();
        let mut v = DirVisitor { dir_id, hashed, entries: Vec::new() };
        assert(entries_view(v.entries@) =~= Seq::<DirEntryView>::empty());
        self.fs_scan(&FsKey { objid: dir_id, rtype: APFS_TYPE_DIR_REC }, &mut v)?;
        Ok(v.entries)
    }

    /// All extents of the data stream `stream_id` (an inode's private id).
    pub fn extents(&self, stream_id: u64) -> (r: Result<Vec<FileExtent>>)
        ensures
            match r {
                Ok(v) => spec_extents(*self, stream_id) == Ok::<Seq<FileExtent>, Error>(v@),
                Err(e) => spec_extents(*self, stream_id) matches Err(e2) && same_error(e, e2),
            },
    {
        let mut v = ExtentVisitor { stream_id, extents: Vec::new() };
        self.fs_scan(&FsKey { objid: stream_id, rtype: APFS_TYPE_FILE_EXTENT }, &mut v)?;
        Ok(v.extents)
    }

    /// Locate the extended attribute `name` of object `file_id`.
    pub fn xattr_value(&self, file_id: u64, name: &str) -> (r: Result<XattrValue>)
        ensures
            match r {
                Ok(x) => spec_xattr_value(*self, file_id, name@) == Ok::<XattrValueView, Error>(x@),
                Err(e) => spec_xattr_value(*self, file_id, name@) matches Err(e2) && same_error(e, e2),
            },
    {
        let mut v = XattrVisitor { file_id, name, found: None };
        self.fs_scan(&FsKey { objid: file_id, rtype: APFS_TYPE_XATTR }, &mut v)?;
        match v.found {
            Some(x) => Ok(x),
            None => Err(Error::NotFound),
        }
    }
}

/// The buffer after copying the device bytes one extent contributes to a
/// read of `want` bytes at `offset` (block size `bs`).
pub open spec fn spec_apply_extent<D: BlockDevice>(
    d: D,
    bs: int,
    e: FileExtent,
    offset: int,
    want: int,
    data: Seq<u8>,
) -> core::result::Result<Seq<u8>, Error> {
    let ext_start = e.logical_addr as int;
    let ext_end = ext_start + e.len_bytes;
    if ext_end > u64::MAX {
        Ok(data)
    } else {
        let rs = if offset > ext_start { offset } else { ext_start };
        let re = if offset + want < ext_end { offset + want } else { ext_end };
        if rs >= re || e.phys_block == 0 {
            Ok(data)
        } else if e.phys_block * bs + (rs - ext_start) > u64::MAX {
            Err(Error::Corrupt("file extent address out of range"))
        } else {
            match crate::device::dev_read(d, e.phys_block * bs + (rs - ext_start), re - rs) {
                Err(err) => Err(err),
                Ok(bytes) => Ok(data.take(rs - offset) + bytes + data.skip(re - offset)),
            }
        }
    }
}

/// Apply the extents `k..` in order.
pub open spec fn spec_apply_extents<D: BlockDevice>(
    d: D,
    bs: int,
    exts: Seq<FileExtent>,
    k: int,
    offset: int,
    want: int,
    data: Seq<u8>,
) -> core::result::Result<Seq<u8>, Error>
    decreases exts.len() - k,
{
    if k >= exts.len() || k < 0 {
        Ok(data)
    } else {
        match spec_apply_extent(d, bs, exts[k], offset, want, data) {
            Err(e) => Err(e),
            Ok(d2) => spec_apply_extents(d, bs, exts, k + 1, offset, want, d2),
        }
    }
}

/// A read of `buf.len()` bytes at `offset` from the data stream
/// `stream_id` of `size` bytes: how many bytes it returns and the buffer
/// afterwards. Holes read as zeros.
pub open spec fn spec_read_stream<D: BlockDevice>(
    v: Volume<D>,
    stream_id: u64,
    size: u64,
    offset: u64,
    buf: Seq<u8>,
) -> core::result::Result<(int, Seq<u8>), Error> {
    if offset >= size {
        Ok((0, buf))
    } else {
        let want = if buf.len() < size - offset { buf.len() as int } else { size - offset };
        match spec_extents(v, stream_id) {
            Err(e) => Err(e),
            Ok(exts) => match spec_apply_extents(
                v.container.device,
                v.container.superblock.block_size as int,
                exts,
                0,
                offset as int,
                want,
                zero_seq(want as nat),
            ) {
                Err(e) => Err(e),
                Ok(data) => Ok((want, data + buf.skip(want))),
            },
        }
    }
}

/// The value of the extended attribute `name` of object `file_id`.
pub open spec fn spec_xattr<D: BlockDevice>(v: Volume<D>, file_id: u64, name: Seq<char>) -> core::result::Result<Seq<u8>, Error> {
    match spec_xattr_value(v, file_id, name) {
        Err(e) => Err(e),
        Ok(XattrValueView::Embedded(b)) => Ok(b),
        Ok(XattrValueView::Stream { obj_id, size }) => if size > usize::MAX {
            Err(Error::Corrupt("xattr stream larger than memory"))
        } else {
            match spec_read_stream(v, obj_id, size, 0, zero_seq(size as nat)) {
                Err(e) => Err(e),
                Ok((n, b)) => Ok(b.take(n)),
            }
        },
    }
}

/// What reading `buf.len()` bytes of file `inode` at `offset` gives: the
/// count and the whole buffer afterwards.
pub open spec fn spec_read_file_at<D: BlockDevice>(
    v: Volume<D>,
    inode: InodeView,
    offset: u64,
    buf: Seq<u8>,
) -> core::result::Result<(int, Seq<u8>), Error> {
    if spec_is_dir(inode.mode) {
        Err(Error::IsADirectory)
    } else if spec_is_compressed(inode.bsd_flags) {
        spec_compressed_read(v, inode, offset, buf)
    } else {
        spec_read_stream(v, inode.private_id, inode.size, offset, buf)
    }
}

/// The length of file `inode`'s content: the uncompressed size from the
/// decmpfs header for a compressed file, the inode's size otherwise.
pub open spec fn spec_file_size<D: BlockDevice>(v: Volume<D>, inode: InodeView) -> core::result::Result<u64, Error> {
    if spec_is_compressed(inode.bsd_flags) && !spec_is_dir(inode.mode) {
        spec_uncompressed_size(v, inode)
    } else {
        Ok(inode.size)
    }
}

/// The whole content of file `inode`.
pub open spec fn spec_read_file<D: BlockDevice>(v: Volume<D>, inode: InodeView) -> core::result::Result<Seq<u8>, Error> {
    match spec_file_size(v, inode) {
        Err(e) => Err(e),
        Ok(size) => if size > usize::MAX {
            Err(Error::Corrupt("file larger than memory"))
        } else {
            match spec_read_file_at(v, inode, 0, zero_seq(size as nat)) {
                Err(e) => Err(e),
                Ok((n, b)) => Ok(b.take(n)),
            }
        },
    }
}

/// The target of symlink `inode`.
pub open spec fn spec_readlink<D: BlockDevice>(v: Volume<D>, inode: InodeView) -> core::result::Result<Seq<char>, Error> {
    if !spec_is_symlink(inode.mode) {
        Err(Error::Parse("not a symlink"))
    } else {
        match spec_xattr(v, inode.id, XATTR_SYMLINK@) {
            Err(e) => Err(e),
            Ok(d) => Ok(spec_utf8_lossy(cstr(d))),
        }
    }
}

/// Whether a directory entry called `entry` answers a lookup of `name`:
/// exact equality, or equality up to ASCII case on a case-insensitive
/// volume.
pub open spec fn name_matches(entry: Seq<char>, name: Seq<char>, case_insensitive: bool) -> bool {
    if case_insensitive {
        spec_eq_ignore_ascii_case(encode_utf8(entry), encode_utf8(name))
    } else {
        entry == name
    }
}

/// The first of `es[i..]` that answers a lookup of `name`.
pub open spec fn spec_find_entry(es: Seq<DirEntryView>, name: Seq<char>, case_insensitive: bool, i: int) -> Option<DirEntryView>
    decreases es.len() - i,
{
    if i >= es.len() || i < 0 {
        None
    } else if name_matches(es[i].name, name, case_insensitive) {
        Some(es[i])
    } else {
        spec_find_entry(es, name, case_insensitive, i + 1)
    }
}

/// The entry called `name` in directory `dir_id`.
pub open spec fn spec_lookup_child<D: BlockDevice>(v: Volume<D>, dir_id: u64, name: Seq<char>) -> core::result::Result<DirEntryView, Error> {
    match spec_read_dir_inode(v, dir_id) {
        Err(e) => Err(e),
        Ok(es) => match spec_find_entry(es, name, crate::volume::spec_case_insensitive(v.superblock), 0) {
            Some(e) => Ok(e),
            None => Err(Error::NotFound),
        },
    }
}

/// Whether a path component names a step: not empty and not ".".
pub open spec fn keep_component(c: Seq<char>) -> bool {
    c.len() > 0 && c != seq!['.']
}

/// Scanning `p` left to right: the components closed so far and the one
/// being read.
pub open spec fn split_state(p: Seq<char>) -> (Seq<Seq<char>>, Seq<char>)
    decreases p.len(),
{
    if p.len() == 0 {
        (Seq::empty(), Seq::empty())
    } else {
        let (cs, cur) = split_state(p.drop_last());
        if p.last() == '/' {
            (if keep_component(cur) { cs.push(cur) } else { cs }, Seq::empty())
        } else {
            (cs, cur.push(p.last()))
        }
    }
}

/// The components of a `/`-separated path, without empty ones and ".".
pub open spec fn path_components(p: Seq<char>) -> Seq<Seq<char>> {
    let (cs, cur) = split_state(p);
    if keep_component(cur) {
        cs.push(cur)
    } else {
        cs
    }
}

/// The object id reached by following `comps` from the root directory.
pub open spec fn spec_walk<D: BlockDevice>(v: Volume<D>, comps: Seq<Seq<char>>) -> core::result::Result<u64, Error>
    decreases comps.len(),
{
    if comps.len() == 0 {
        Ok(ROOT_DIR_INO_NUM)
    } else {
        match spec_walk(v, comps.drop_last()) {
            Err(e) => Err(e),
            Ok(id) => match spec_lookup_child(v, id, comps.last()) {
                Err(e) => Err(e),
                Ok(ent) => Ok(ent.file_id),
            },
        }
    }
}

/// A walk that fails on a prefix of the components fails the same way on
/// all of them.
proof fn lemma_walk_stops<D: BlockDevice>(v: Volume<D>, cs: Seq<Seq<char>>, k: int)
    requires
        0 <= k <= cs.len(),
        spec_walk(v, cs.take(k)) is Err,
    ensures
        spec_walk(v, cs) == spec_walk(v, cs.take(k)),
    decreases cs.len(),
{
    if k == cs.len() {
        assert(cs.take(k) =~= cs);
    } else {
        let d = cs.drop_last();
        assert(d.take(k) =~= cs.take(k));
        lemma_walk_stops(v, d, k);
    }
}

/// The inode that `path` names.
pub open spec fn spec_lookup_path<D: BlockDevice>(v: Volume<D>, path: Seq<char>) -> core::result::Result<InodeView, Error> {
    match spec_walk(v, path_components(path)) {
        Err(e) => Err(e),
        Ok(id) => spec_volume_inode(v, id),
    }
}

/// The entries of the directory that `path` names.
pub open spec fn spec_read_dir<D: BlockDevice>(v: Volume<D>, path: Seq<char>) -> core::result::Result<Seq<DirEntryView>, Error> {
    match spec_lookup_path(v, path) {
        Err(e) => Err(e),
        Ok(iv) => if !spec_is_dir(iv.mode) {
            Err(Error::NotADirectory)
        } else {
            spec_read_dir_inode(v, iv.id)
        },
    }
}

/// The views of a list of strings.
pub open spec fn strings_view(v: Seq<String>) -> Seq<Seq<char>> {
    v.map_values(|s: String| s@)
}

/// Split `path` at `/`, dropping empty components and ".".
#[verifier::rlimit(30)]
pub fn path_split(path: &str) -> (comps: Vec<String>)
    ensures
        strings_view(comps@) == path_components(path@),
{
    let mut comps: Vec<String> = Vec::new();
    let mut cur = String::new();
    for ch in it: path.chars()
        invariant
            it.seq() == path@,
            split_state(path@.take(it.index() as int)) == (strings_view(comps@), cur@),
    {
        proof {
            let p2 = path@.take(it.index() + 1);
            assert(p2.drop_last() =~= path@.take(it.index() as int));
            assert(p2.last() == ch);
        }
        if ch == '/' {
            let keep = !str_eq(cur.as_str(), "") && !str_eq(cur.as_str(), ".");
            proof {
                reveal_strlit("");
                reveal_strlit(".");
                assert(".".view() =~= seq!['.']);
                assert("".view() =~= Seq::<char>::empty());
            }
            if keep {
                let mut done = String::new();
                std::mem::swap(&mut done, &mut cur);
                let ghost before = comps@;
                comps.push(done);
                assert(strings_view(comps@) =~= strings_view(before).push(done@));
            } else {
                cur = String::new();
            }
        } else {
            push_char(&mut cur, ch);
        }
    }
    proof {
        assert(path@.take(path@.len() as int) =~= path@);
    }
    let keep = !str_eq(cur.as_str(), "") && !str_eq(cur.as_str(), ".");
    proof {
        reveal_strlit("");
        reveal_strlit(".");
        assert(".".view() =~= seq!['.']);
                assert("".view() =~= Seq::<char>::empty());
    }
    if keep {
        let ghost before = comps@;
        comps.push(cur);
        assert(strings_view(comps@) =~= strings_view(before).push(cur@));
    }
    comps
}

/// `r` carries the bytes `s` describes, or fails the same way.
pub open spec fn vec_result(r: Result<Vec<u8>>, s: core::result::Result<Seq<u8>, Error>) -> bool {
    match r {
        Ok(v) => s == Ok::<Seq<u8>, Error>(v@),
        Err(e) => s matches Err(e2) && same_error(e, e2),
    }
}

/// A read into `buf` returned what `s` describes: the count and the whole
/// buffer afterwards.
pub open spec fn read_result(r: Result<usize>, buf: Seq<u8>, s: core::result::Result<(int, Seq<u8>), Error>) -> bool {
    match r {
        Ok(n) => s == Ok::<(int, Seq<u8>), Error>((n as int, buf)),
        Err(e) => s matches Err(e2) && same_error(e, e2),
    }
}

/// `n` zero bytes.
pub open spec fn zero_seq(n: nat) -> Seq<u8> {
    Seq::new(n, |i: int| 0u8)
}

/// Zero the first `want` bytes of `buf`.
fn fill_zero(buf: &mut [u8], want: usize)
    requires
        want <= old(buf)@.len(),
    ensures
        final(buf)@ == zero_seq(want as nat) + old(buf)@.skip(want as int),
{
    let ghost old_buf = old(buf)@;
    let mut i: usize = 0;
    while i < want
        invariant
            i <= want <= buf@.len(),
            buf@.len() == old_buf.len(),
            forall|j: int| 0 <= j < i ==> buf@[j] == 0u8,
            forall|j: int| want <= j < buf@.len() ==> buf@[j] == old_buf[j],
        decreases want - i,
    {
        buf[i] = 0;
        i += 1;
    }
    assert(buf@ =~= zero_seq(want as nat) + old_buf.skip(want as int));
}

/// Overwrite the start of `buf` with `src`.
fn copy_prefix(buf: &mut [u8], src: &Vec<u8>)
    requires
        src@.len() <= old(buf)@.len(),
    ensures
        final(buf)@ == src@ + old(buf)@.skip(src@.len() as int),
{
    let ghost old_buf = old(buf)@;
    let n = src.len();
    let mut j: usize = 0;
    while j < n
        invariant
            j <= n <= buf@.len(),
            n == src@.len(),
            buf@.len() == old_buf.len(),
            forall|x: int| 0 <= x < j ==> buf@[x] == src@[x],
            forall|x: int| n <= x < buf@.len() ==> buf@[x] == old_buf[x],
        decreases n - j,
    {
        buf[j] = src[j];
        j += 1;
    }
    assert(buf@ =~= src@ + old_buf.skip(n as int));
}

/// A zero-filled buffer.
pub fn zeros(n: usize) -> (v: Vec<u8>)
    ensures
        v@ == zero_seq(n as nat),
{
    let v = vec![0u8; n];
    assert(v@ =~= zero_seq(n as nat));
    v
}

impl<'c, D: BlockDevice> Volume<'c, D> {
    /// Copy into `out` the device bytes one extent contributes.
    #[verifier::rlimit(30)]
    fn apply_extent(&self, e: FileExtent, offset: u64, want: usize, out: &mut [u8]) -> (r: Result<()>)
        requires
            old(out)@.len() == want,
            offset + want <= u64::MAX,
        ensures
            final(out)@.len() == want,
            match spec_apply_extent(
                self.container.device,
                self.container.superblock.block_size as int,
                e,
                offset as int,
                want as int,
                old(out)@,
            ) {
                Ok(d) => r is Ok && final(out)@ == d,
                Err(e2) => r matches Err(err) && same_error(err, e2),
            },
    {
        let ghost d0 = old(out)@;
        let ext_start = e.logical_addr;
        let ext_end = match ext_start.checked_add(e.len_bytes) {
            Some(x) => x,
            None => return Ok(()),
        };
        let read_start = if offset > ext_start { offset } else { ext_start };
        let read_end = if offset + (want as u64) < ext_end { offset + want as u64 } else { ext_end };
        if read_start >= read_end {
            return Ok(());
        }
        if e.phys_block == 0 {
            return Ok(());  // hole
        }
        let bs = self.container.block_size_u64();
        let base = match e.phys_block.checked_mul(bs) {
            Some(b) => b,
            None => return Err(Error::Corrupt("file extent address out of range")),
        };
        let dev_off = match base.checked_add(read_start - ext_start) {
            Some(o) => o,
            None => return Err(Error::Corrupt("file extent address out of range")),
        };
        let n = (read_end - read_start) as usize;
        let mut tmp = zeros(n);
        self.container.read_raw(dev_off, tmp.as_mut_slice())?;
        let dst = (read_start - offset) as usize;
        let mut i: usize = 0;
        while i < n
            invariant
                i <= n,
                n == tmp@.len(),
                dst + n <= want,
                out@.len() == want,
                forall|j: int| 0 <= j < dst ==> out@[j] == d0[j],
                forall|j: int| dst + n <= j < want ==> out@[j] == d0[j],
                forall|j: int| dst <= j < dst + i ==> out@[j] == tmp@[j - dst],
            decreases n - i,
        {
            out[dst + i] = tmp[i];
            i += 1;
        }
        assert(out@ =~= d0.take(dst as int) + tmp@ + d0.skip(dst + n));
        Ok(())
    }

    /// Apply the extents `k..` in order.
    fn apply_extents_from(&self, exts: &Vec<FileExtent>, k: usize, offset: u64, want: usize, out: &mut [u8]) -> (r: Result<()>)
        requires
            old(out)@.len() == want,
            offset + want <= u64::MAX,
            k <= exts@.len(),
        ensures
            final(out)@.len() == want,
            match spec_apply_extents(
                self.container.device,
                self.container.superblock.block_size as int,
                exts@,
                k as int,
                offset as int,
                want as int,
                old(out)@,
            ) {
                Ok(d) => r is Ok && final(out)@ == d,
                Err(e2) => r matches Err(err) && same_error(err, e2),
            },
        decreases exts@.len() - k,
    {
        if k >= exts.len() {
            return Ok(());
        }
        self.apply_extent(exts[k], offset, want, out)?;
        self.apply_extents_from(exts, k + 1, offset, want, out)
    }

    /// Read `buf.len()` bytes of the data stream `stream_id` (of `size`
    /// bytes) starting at `offset`. Returns the number of bytes read
    /// (short only at the end of the stream).
    #[verifier::rlimit(40)]
    pub fn read_stream_at(&self, stream_id: u64, size: u64, offset: u64, buf: &mut [u8]) -> (r: Result<usize>)
        ensures
            final(buf)@.len() == old(buf)@.len(),
            read_result(r, final(buf)@, spec_read_stream(*self, stream_id, size, offset, old(buf)@)),
    {
        if offset >= size {
            return Ok(0);
        }
        let want: usize = if (buf.len() as u64) < size - offset { buf.len() } else { (size - offset) as usize };
        let ghost old_buf = old(buf)@;
        // Zero-fill first: holes in sparse files simply have no extent.
        fill_zero(buf, want);
        let ghost zeroed = buf@;
        assert(zeroed.skip(want as int) =~= old_buf.skip(want as int));
        let exts = self.extents(stream_id)?;
        let mut out = zeros(want);
        self.apply_extents_from(&exts, 0, offset, want, out.as_mut_slice())?;
        copy_prefix(buf, &out);
        assert(buf@ == out@ + old_buf.skip(want as int));
        Ok(want)
    }

    /// Read `buf.len()` bytes of file `inode` starting at `offset`.
    /// Returns the number of bytes read (short only at end of file).
    pub fn read_file_at(&self, inode: &Inode, offset: u64, buf: &mut [u8]) -> (r: Result<usize>)
        ensures
            final(buf)@.len() == old(buf)@.len(),
            spec_is_dir(inode@.mode) ==> (r matches Err(Error::IsADirectory) && final(buf)@ == old(buf)@),
            read_result(r, final(buf)@, spec_read_file_at(*self, inode@, offset, old(buf)@)),
    {
        if inode.is_dir() {
            return Err(Error::IsADirectory);
        }
        if inode.is_compressed() {
            return read_at(self, inode, offset, buf);
        }
        self.read_stream_at(inode.private_id, inode.size, offset, buf)
    }

    /// Read a whole file into memory (small files, symlink targets, tests).
    /// A compressed file is read to the uncompressed size its decmpfs
    /// header declares.
    pub fn read_file(&self, inode: &Inode) -> (r: Result<Vec<u8>>)
        ensures
            vec_result(r, spec_read_file(*self, inode@)),
            r matches Ok(b) ==> spec_file_size(*self, inode@) == Ok::<u64, Error>(b@.len() as u64),
    {
        let size = if inode.is_compressed() && !inode.is_dir() {
            uncompressed_size(self, inode)?
        } else {
            inode.size
        };
        if size > usize::MAX as u64 {
            return Err(Error::Corrupt("file larger than memory"));
        }
        let mut buf = zeros(size as usize);
        let ghost zb = buf@;
        let n = self.read_file_at(inode, 0, buf.as_mut_slice())?;
        proof {
            if spec_is_compressed(inode@.bsd_flags) && !spec_is_dir(inode@.mode) {
                lemma_compressed_read_count(*self, inode@, 0, zb);
            } else if !spec_is_dir(inode@.mode) {
                lemma_read_file_count(*self, inode@, 0, zb);
            }
        }
        buf.truncate(n);
        Ok(buf)
    }

    /// Read a symlink's target.
    pub fn readlink(&self, inode: &Inode) -> (r: Result<String>)
        ensures
            match r {
                Ok(t) => spec_readlink(*self, inode@) == Ok::<Seq<char>, Error>(t@),
                Err(e) => spec_readlink(*self, inode@) matches Err(e2) && same_error(e, e2),
            },
    {
        if !inode.is_symlink() {
            return Err(Error::Parse("not a symlink"));
        }
        let data = self.xattr(inode.id, XATTR_SYMLINK)?;
        Ok(cstr_lossy(data.as_slice()))
    }

    /// Look up a single name inside directory `dir_id`.
    #[verifier::rlimit(30)]
    pub fn lookup_child(&self, dir_id: u64, name: &str) -> (r: Result<DirEntry>)
        ensures
            match r {
                Ok(e) => spec_lookup_child(*self, dir_id, name@) == Ok::<DirEntryView, Error>(e@),
                Err(e) => spec_lookup_child(*self, dir_id, name@) matches Err(e2) && same_error(e, e2),
            },
    {
        // Scanning the directory is correct for both hashed and non-hashed
        // volumes; the case fold is ASCII only.
        let case_insensitive = self.superblock.case_insensitive();
        let mut entries = self.read_dir_inode(dir_id)?;
        let ghost es = entries_view(entries@);
        let mut i: usize = 0;
        while i < entries.len()
            invariant
                i <= entries@.len(),
                es == entries_view(entries@),
                spec_read_dir_inode(*self, dir_id) == Ok::<Seq<DirEntryView>, Error>(es),
                case_insensitive == crate::volume::spec_case_insensitive(self.superblock),
                spec_find_entry(es, name@, case_insensitive, 0) == spec_find_entry(es, name@, case_insensitive, i as int),
            decreases entries@.len() - i,
        {
            let hit = if case_insensitive {
                eq_ignore_ascii_case(entries[i].name.as_str(), name)
            } else {
                str_eq(entries[i].name.as_str(), name)
            };
            proof {
                assert(es[i as int] == entries@[i as int]@);
                assert(hit == name_matches(es[i as int].name, name@, case_insensitive));
            }
            if hit {
                let ghost want = entries@[i as int];
                let e = entries.remove(i);
                assert(e == want);
                assert(spec_find_entry(es, name@, case_insensitive, i as int) == Some(e@));
                return Ok(e);
            }
            i += 1;
        }
        Err(Error::NotFound)
    }

    /// Resolve `path` (using `/` separators) to an inode.
    #[verifier::rlimit(30)]
    pub fn lookup_path(&self, path: &str) -> (r: Result<Inode>)
        ensures
            inode_result(r, spec_lookup_path(*self, path@)),
    {
        let comps = path_split(path);
        let ghost cs = strings_view(comps@);
        let mut id = ROOT_DIR_INO_NUM;
        let mut i: usize = 0;
        while i < comps.len()
            invariant
                i <= comps@.len(),
                cs == strings_view(comps@),
                cs == path_components(path@),
                spec_walk(*self, cs.take(i as int)) == Ok::<u64, Error>(id),
            decreases comps@.len() - i,
        {
            proof {
                let t = cs.take(i + 1);
                assert(t.drop_last() =~= cs.take(i as int));
                assert(t.last() == comps@[i as int]@);
            }
            let entry = match self.lookup_child(id, comps[i].as_str()) {
                Ok(e) => e,
                Err(e) => {
                    proof {
                        let t = cs.take(i + 1);
                        assert(t.drop_last() =~= cs.take(i as int));
                        lemma_walk_stops(*self, cs, i + 1);
                    }
                    return Err(e);
                },
            };
            id = entry.file_id;
            i += 1;
        }
        proof {
            assert(cs.take(cs.len() as int) =~= cs);
        }
        self.inode(id)
    }

    /// Convenience: list a directory by path.
    pub fn read_dir(&self, path: &str) -> (r: Result<Vec<DirEntry>>)
        ensures
            match r {
                Ok(v) => spec_read_dir(*self, path@) == Ok::<Seq<DirEntryView>, Error>(entries_view(v@)),
                Err(e) => spec_read_dir(*self, path@) matches Err(e2) && same_error(e, e2),
            },
    {
        let inode = self.lookup_path(path)?;
        if !inode.is_dir() {
            return Err(Error::NotADirectory);
        }
        self.read_dir_inode(inode.id)
    }

    /// Get an extended attribute of a file.
    pub fn xattr(&self, file_id: u64, name: &str) -> (r: Result<Vec<u8>>)
        ensures
            vec_result(r, spec_xattr(*self, file_id, name@)),
    {
        match self.xattr_value(file_id, name)? {
            XattrValue::Embedded(v) => Ok(v),
            XattrValue::Stream { obj_id, size } => {
                if size > usize::MAX as u64 {
                    return Err(Error::Corrupt("xattr stream larger than memory"));
                }
                let mut buf = zeros(size as usize);
                let n = self.read_stream_at(obj_id, size, 0, buf.as_mut_slice())?;
                buf.truncate(n);
                Ok(buf)
            },
        }
    }
}

/// Splitting `a + "/" + b` closes `a`'s components before reading `b`'s.
proof fn lemma_split_after_slash(a: Seq<char>, b: Seq<char>)
    ensures
        split_state(a + seq!['/'] + b) == (path_components(a) + split_state(b).0, split_state(b).1),
    decreases b.len(),
{
    let s = a + seq!['/'] + b;
    if b.len() == 0 {
        assert(s.drop_last() =~= a);
        assert(path_components(a) + Seq::<Seq<char>>::empty() =~= path_components(a));
    } else {
        let b1 = b.drop_last();
        assert(s.drop_last() =~= a + seq!['/'] + b1);
        assert(s.last() == b.last());
        lemma_split_after_slash(a, b1);
        let (cs, cur) = split_state(b1);
        assert((path_components(a) + cs).push(cur) =~= path_components(a) + cs.push(cur));
    }
}

/// Joining two paths with `/` joins their components: `a/b` is resolved
/// by resolving `a`, then `b` from there.
pub proof fn lemma_path_join(a: Seq<char>, b: Seq<char>)
    ensures
        path_components(a + seq!['/'] + b) == path_components(a) + path_components(b),
{
    lemma_split_after_slash(a, b);
    let (cs, cur) = split_state(b);
    assert((path_components(a) + cs).push(cur) =~= path_components(a) + cs.push(cur));
}

/// The parts `ps` joined with `/` between them.
pub open spec fn join_parts(ps: Seq<Seq<char>>) -> Seq<char>
    decreases ps.len(),
{
    if ps.len() == 0 {
        Seq::empty()
    } else if ps.len() == 1 {
        ps[0]
    } else {
        join_parts(ps.drop_last()) + seq!['/'] + ps.last()
    }
}

/// The parts of `ps` that name a step (not empty and not ".").
pub open spec fn kept_parts(ps: Seq<Seq<char>>) -> Seq<Seq<char>>
    decreases ps.len(),
{
    if ps.len() == 0 {
        Seq::empty()
    } else if keep_component(ps.last()) {
        kept_parts(ps.drop_last()).push(ps.last())
    } else {
        kept_parts(ps.drop_last())
    }
}

/// No part of `ps` holds a `/`.
pub open spec fn slash_free(ps: Seq<Seq<char>>) -> bool {
    forall|i: int, j: int| 0 <= i < ps.len() && 0 <= j < ps[i].len() ==> #[trigger] ps[i][j] != '/'
}

/// A text without `/` is one part still being read.
proof fn lemma_split_no_slash(p: Seq<char>)
    requires
        forall|j: int| 0 <= j < p.len() ==> #[trigger] p[j] != '/',
    ensures
        split_state(p) == (Seq::<Seq<char>>::empty(), p),
    decreases p.len(),
{
    if p.len() > 0 {
        let d = p.drop_last();
        assert forall|j: int| 0 <= j < d.len() implies #[trigger] d[j] != '/' by {
            assert(d[j] == p[j]);
        }
        lemma_split_no_slash(d);
        assert(d.push(p.last()) =~= p);
    }
}

/// The components of `/`-joined parts are the parts that name a step.
proof fn lemma_join_components(ps: Seq<Seq<char>>)
    requires
        slash_free(ps),
    ensures
        path_components(join_parts(ps)) == kept_parts(ps),
    decreases ps.len(),
{
    if ps.len() == 0 {
    } else {
        let l = ps.last();
        assert forall|j: int| 0 <= j < l.len() implies #[trigger] l[j] != '/' by {
            assert(ps[ps.len() - 1][j] != '/');
        }
        lemma_split_no_slash(l);
        assert(Seq::<Seq<char>>::empty().push(l) =~= seq![l]);
        if ps.len() == 1 {
            assert(ps.drop_last() =~= Seq::<Seq<char>>::empty());
            assert(ps[0] == l);
            assert(join_parts(ps) == l);
            assert(kept_parts(ps.drop_last()) == Seq::<Seq<char>>::empty());
        } else {
            let d = ps.drop_last();
            assert forall|i: int, j: int| 0 <= i < d.len() && 0 <= j < d[i].len() implies #[trigger] d[i][j] != '/' by {
                assert(d[i] == ps[i]);
            }
            lemma_join_components(d);
            lemma_path_join(join_parts(d), l);
            assert(join_parts(ps) == join_parts(d) + seq!['/'] + l);
            assert(path_components(l) == (if keep_component(l) { Seq::<Seq<char>>::empty().push(l) } else { Seq::<Seq<char>>::empty() }));
            if keep_component(l) {
                assert(kept_parts(d) + Seq::<Seq<char>>::empty().push(l) =~= kept_parts(d).push(l));
            } else {
                assert(kept_parts(d) + Seq::<Seq<char>>::empty() =~= kept_parts(d));
            }
        }
    }
}

/// A path is resolved through its `/`-separated parts with the empty
/// ones and "." left out: two paths whose remaining parts agree (such as
/// `"//docs/./readme.md"` and `"docs/readme.md"`) name the same inode, or
/// fail the same way.
pub proof fn lemma_paths_alike<D: BlockDevice>(v: Volume<D>, ps: Seq<Seq<char>>, qs: Seq<Seq<char>>)
    requires
        slash_free(ps),
        slash_free(qs),
        kept_parts(ps) == kept_parts(qs),
    ensures
        path_components(join_parts(ps)) == kept_parts(ps),
        spec_lookup_path(v, join_parts(ps)) == spec_lookup_path(v, join_parts(qs)),
{
    lemma_join_components(ps);
    lemma_join_components(qs);
}

/// The leaf entries of the volume's file-system tree, in order.
pub open spec fn spec_fs_entries<D: BlockDevice>(v: Volume<D>) -> Option<Seq<(Seq<u8>, Option<Seq<u8>>)>> {
    match spec_root_tree(v) {
        Err(_) => None,
        Ok((rb, info)) => match spec_volume_omap(v) {
            Err(_) => None,
            Ok(om) => crate::scan::spec_entries(
                FsTreeSource { omap: om, xid: v.container.superblock.obj.xid },
                hdr_of(rb),
                rb,
                info,
                0,
            ),
        },
    }
}

/// The volume's file-system tree can be read whole and is sorted as a
/// scan from `key` sees it.
pub open spec fn spec_fs_sorted_for<D: BlockDevice>(v: Volume<D>, key: FsKey) -> bool {
    match spec_root_tree(v) {
        Err(_) => false,
        Ok((rb, info)) => match spec_volume_omap(v) {
            Err(_) => false,
            Ok(om) => {
                let src = FsTreeSource { omap: om, xid: v.container.superblock.obj.xid };
                crate::scan::spec_entries(src, hdr_of(rb), rb, info, 0) is Some && crate::scan::spec_sorted_for(
                    src,
                    hdr_of(rb),
                    rb,
                    info,
                    key,
                    0,
                )
            },
        },
    }
}

/// The file-system entries a scan from `key` visits: those from the first
/// one that does not sort before `key`.
pub open spec fn spec_fs_run<D: BlockDevice>(v: Volume<D>, key: FsKey) -> Seq<(Seq<u8>, Option<Seq<u8>>)> {
    let es = spec_fs_entries(v)->Some_0;
    es.skip(crate::scan::first_not_before(key, es))
}

/// A scan of a readable, sorted file-system tree feeds the visitor the
/// entries from the first one at or after `key`, in order.
proof fn lemma_fs_scan_run<D: BlockDevice, V: LeafVisitor>(v: Volume<D>, key: FsKey, st: V::V)
    requires
        spec_fs_sorted_for(v, key),
    ensures
        spec_fs_scan::<D, V>(v, key, st) == crate::scan::spec_visit_all::<V>(st, spec_fs_run(v, key)),
{
    reveal(spec_fs_scan);
    let (rb, info) = spec_root_tree(v)->Ok_0;
    let om = spec_volume_omap(v)->Ok_0;
    let src = FsTreeSource { omap: om, xid: v.container.superblock.obj.xid };
    crate::scan::lemma_scan_visits_from_target::<FsTreeSource<D>, FsKey, V>(src, hdr_of(rb), rb, info, key, st);
}

/// `key` is the extended-attribute record of `file_id` called `name`.
pub open spec fn xattr_key_named(key: Seq<u8>, file_id: u64, name: Seq<char>) -> bool {
    &&& key.len() >= 10
    &&& key_matches(key, file_id, APFS_TYPE_XATTR)
    &&& 10 + le16(key, 8) <= key.len()
    &&& spec_utf8_lossy(cstr(key.subrange(10, 10 + le16(key, 8)))) == name
}

/// `key` is an extended-attribute record of `file_id` with another name.
pub open spec fn xattr_key_other(key: Seq<u8>, file_id: u64, name: Seq<char>) -> bool {
    &&& key.len() >= 10
    &&& key_matches(key, file_id, APFS_TYPE_XATTR)
    &&& 10 + le16(key, 8) <= key.len()
    &&& spec_utf8_lossy(cstr(key.subrange(10, 10 + le16(key, 8)))) != name
}

/// The value an extended-attribute record holds: embedded bytes, or the
/// data stream that holds them.
pub open spec fn spec_xattr_decode(val: Option<Seq<u8>>) -> core::result::Result<XattrValueView, Error> {
    match val {
        None => Err(Error::Corrupt("xattr with no value")),
        Some(v) => if v.len() < 4 {
            Err(truncated())
        } else if (le16(v, 0) as u16) & XATTR_DATA_STREAM != 0 {
            if v.len() < 20 {
                Err(truncated())
            } else {
                Ok(XattrValueView::Stream { obj_id: le64(v, 4) as u64, size: le64(v, 12) as u64 })
            }
        } else if 4 + le16(v, 2) > v.len() {
            Err(truncated())
        } else {
            Ok(XattrValueView::Embedded(v.subrange(4, 4 + le16(v, 2))))
        },
    }
}

proof fn lemma_xattr_visit_found(st: (u64, Seq<char>, Option<XattrValueView>), run: Seq<(Seq<u8>, Option<Seq<u8>>)>, j: int)
    requires
        0 <= j < run.len(),
        forall|i: int| 0 <= i < j ==> xattr_key_other(#[trigger] run[i].0, st.0, st.1),
        xattr_key_named(run[j].0, st.0, st.1),
    ensures
        crate::scan::spec_visit_all::<XattrVisitor>(st, run) == (match spec_xattr_decode(run[j].1) {
            Ok(x) => ((st.0, st.1, Some(x)), Ok::<bool, Error>(false)),
            Err(e) => (st, Err::<bool, Error>(e)),
        }),
    decreases j,
{
    if j > 0 {
        assert(xattr_key_other(run[0].0, st.0, st.1));
        let t = run.skip(1);
        assert forall|i: int| 0 <= i < j - 1 implies xattr_key_other(#[trigger] t[i].0, st.0, st.1) by {
            assert(t[i] == run[i + 1]);
        }
        assert(t[j - 1] == run[j]);
        lemma_xattr_visit_found(st, t, j - 1);
    }
}

proof fn lemma_xattr_visit_missing(st: (u64, Seq<char>, Option<XattrValueView>), run: Seq<(Seq<u8>, Option<Seq<u8>>)>, j: int)
    requires
        0 <= j <= run.len(),
        forall|i: int| 0 <= i < j ==> xattr_key_other(#[trigger] run[i].0, st.0, st.1),
        j < run.len() ==> run[j].0.len() >= 8 && !key_matches(run[j].0, st.0, APFS_TYPE_XATTR),
    ensures
        crate::scan::spec_visit_all::<XattrVisitor>(st, run).0 == st,
        crate::scan::spec_visit_all::<XattrVisitor>(st, run).1 is Ok,
    decreases j,
{
    if j > 0 {
        assert(xattr_key_other(run[0].0, st.0, st.1));
        let t = run.skip(1);
        assert forall|i: int| 0 <= i < j - 1 implies xattr_key_other(#[trigger] t[i].0, st.0, st.1) by {
            assert(t[i] == run[i + 1]);
        }
        if j < run.len() {
            assert(t[j - 1] == run[j]);
        }
        lemma_xattr_visit_missing(st, t, j - 1);
    }
}

/// On a readable file-system tree sorted for the scan, extended attribute
/// `name` of `file_id` is the first record at or after the scan's start
/// that is called `name`, past only other attributes of the same file;
/// when the file's attributes end (or the tree does) before such a record,
/// there is none.
pub proof fn lemma_xattr_first_match<D: BlockDevice>(v: Volume<D>, file_id: u64, name: Seq<char>, j: int)
    requires
        spec_fs_sorted_for(v, FsKey { objid: file_id, rtype: APFS_TYPE_XATTR }),
        0 <= j <= spec_fs_run(v, FsKey { objid: file_id, rtype: APFS_TYPE_XATTR }).len(),
        forall|i: int|
            0 <= i < j ==> xattr_key_other(
                #[trigger] spec_fs_run(v, FsKey { objid: file_id, rtype: APFS_TYPE_XATTR })[i].0,
                file_id,
                name,
            ),
    ensures
        ({
            let run = spec_fs_run(v, FsKey { objid: file_id, rtype: APFS_TYPE_XATTR });
            &&& j < run.len() && xattr_key_named(run[j].0, file_id, name) ==> spec_xattr_value(v, file_id, name)
                == spec_xattr_decode(run[j].1)
            &&& (j == run.len() || (run[j].0.len() >= 8 && !key_matches(run[j].0, file_id, APFS_TYPE_XATTR)))
                ==> spec_xattr_value(v, file_id, name) == Err::<XattrValueView, Error>(Error::NotFound)
        }),
{
    let key = FsKey { objid: file_id, rtype: APFS_TYPE_XATTR };
    let run = spec_fs_run(v, key);
    let st: (u64, Seq<char>, Option<XattrValueView>) = (file_id, name, None);
    lemma_fs_scan_run::<D, XattrVisitor>(v, key, st);
    if j < run.len() && xattr_key_named(run[j].0, file_id, name) {
        lemma_xattr_visit_found(st, run, j);
    }
    if j == run.len() || (run[j].0.len() >= 8 && !key_matches(run[j].0, file_id, APFS_TYPE_XATTR)) {
        lemma_xattr_visit_missing(st, run, j);
    }
}

/// `""`, `"/"` and `"."` name no step: each resolves to the root directory.
pub proof fn lemma_root_paths<D: BlockDevice>(v: Volume<D>)
    ensures
        path_components(Seq::empty()) == Seq::<Seq<char>>::empty(),
        path_components(seq!['/']) == Seq::<Seq<char>>::empty(),
        path_components(seq!['.']) == Seq::<Seq<char>>::empty(),
        spec_lookup_path(v, Seq::empty()) == spec_volume_inode(v, ROOT_DIR_INO_NUM),
        spec_lookup_path(v, seq!['/']) == spec_volume_inode(v, ROOT_DIR_INO_NUM),
        spec_lookup_path(v, seq!['.']) == spec_volume_inode(v, ROOT_DIR_INO_NUM),
{
    assert(seq!['/'].drop_last() =~= Seq::<char>::empty());
    assert(seq!['.'].drop_last() =~= Seq::<char>::empty());
    assert(Seq::<char>::empty().push('.') =~= seq!['.']);
}

/// ASCII case-insensitive equality of UTF-8 names is transitive.
proof fn lemma_ignore_case_trans(a: Seq<u8>, b: Seq<u8>, c: Seq<u8>)
    requires
        spec_eq_ignore_ascii_case(a, b),
    ensures
        spec_eq_ignore_ascii_case(a, c) <==> spec_eq_ignore_ascii_case(b, c),
{
    if spec_eq_ignore_ascii_case(b, c) {
        assert forall|i: int| 0 <= i < a.len() implies crate::text::ascii_lower(#[trigger] a[i]) == crate::text::ascii_lower(c[i]) by {
            assert(crate::text::ascii_lower(a[i]) == crate::text::ascii_lower(b[i]));
            assert(crate::text::ascii_lower(b[i]) == crate::text::ascii_lower(c[i]));
        };
    }
    if spec_eq_ignore_ascii_case(a, c) {
        assert forall|i: int| 0 <= i < b.len() implies crate::text::ascii_lower(#[trigger] b[i]) == crate::text::ascii_lower(c[i]) by {
            assert(crate::text::ascii_lower(a[i]) == crate::text::ascii_lower(b[i]));
            assert(crate::text::ascii_lower(a[i]) == crate::text::ascii_lower(c[i]));
        };
    }
}

#[verifier::rlimit(30)]
proof fn lemma_find_entry_same(es: Seq<DirEntryView>, n1: Seq<char>, n2: Seq<char>, i: int)
    requires
        spec_eq_ignore_ascii_case(encode_utf8(n1), encode_utf8(n2)),
    ensures
        spec_find_entry(es, n1, true, i) == spec_find_entry(es, n2, true, i),
    decreases es.len() - i,
{
    if 0 <= i < es.len() {
        let e = encode_utf8(es[i].name);
        lemma_ignore_case_trans(encode_utf8(n1), encode_utf8(n2), e);
        assert(spec_eq_ignore_ascii_case(e, encode_utf8(n1)) <==> spec_eq_ignore_ascii_case(encode_utf8(n1), e)) by {
            if spec_eq_ignore_ascii_case(e, encode_utf8(n1)) {
                assert forall|k: int| 0 <= k < encode_utf8(n1).len() implies crate::text::ascii_lower(#[trigger] encode_utf8(n1)[k]) == crate::text::ascii_lower(e[k]) by {
                    assert(crate::text::ascii_lower(e[k]) == crate::text::ascii_lower(encode_utf8(n1)[k]));
                };
            }
            if spec_eq_ignore_ascii_case(encode_utf8(n1), e) {
                assert forall|k: int| 0 <= k < e.len() implies crate::text::ascii_lower(#[trigger] e[k]) == crate::text::ascii_lower(encode_utf8(n1)[k]) by {
                    assert(crate::text::ascii_lower(encode_utf8(n1)[k]) == crate::text::ascii_lower(e[k]));
                };
            }
        };
        assert(spec_eq_ignore_ascii_case(e, encode_utf8(n2)) <==> spec_eq_ignore_ascii_case(encode_utf8(n2), e)) by {
            if spec_eq_ignore_ascii_case(e, encode_utf8(n2)) {
                assert forall|k: int| 0 <= k < encode_utf8(n2).len() implies crate::text::ascii_lower(#[trigger] encode_utf8(n2)[k]) == crate::text::ascii_lower(e[k]) by {
                    assert(crate::text::ascii_lower(e[k]) == crate::text::ascii_lower(encode_utf8(n2)[k]));
                };
            }
            if spec_eq_ignore_ascii_case(encode_utf8(n2), e) {
                assert forall|k: int| 0 <= k < e.len() implies crate::text::ascii_lower(#[trigger] e[k]) == crate::text::ascii_lower(encode_utf8(n2)[k]) by {
                    assert(crate::text::ascii_lower(encode_utf8(n2)[k]) == crate::text::ascii_lower(e[k]));
                };
            }
        };
        lemma_find_entry_same(es, n1, n2, i + 1);
    }
}

/// On a case-insensitive volume, names equal up to ASCII case find the
/// same directory entry.
pub proof fn lemma_case_insensitive_lookup<D: BlockDevice>(v: Volume<D>, dir_id: u64, n1: Seq<char>, n2: Seq<char>)
    requires
        crate::volume::spec_case_insensitive(v.superblock),
        spec_eq_ignore_ascii_case(encode_utf8(n1), encode_utf8(n2)),
    ensures
        spec_lookup_child(v, dir_id, n1) == spec_lookup_child(v, dir_id, n2),
{
    if let Ok(es) = spec_read_dir_inode(v, dir_id) {
        lemma_find_entry_same(es, n1, n2, 0);
    }
}

proof fn lemma_find_entry_first(es: Seq<DirEntryView>, name: Seq<char>, ci: bool, i: int)
    requires
        0 <= i,
    ensures
        (exists|k: int| i <= k < es.len() && name_matches(es[k].name, name, ci)) ==> (spec_find_entry(
            es,
            name,
            ci,
            i,
        ) matches Some(e) && es.contains(e) && name_matches(e.name, name, ci)),
        !(exists|k: int| i <= k < es.len() && name_matches(es[k].name, name, ci)) ==> spec_find_entry(es, name, ci, i)
            is None,
    decreases es.len() - i,
{
    if i < es.len() {
        lemma_find_entry_first(es, name, ci, i + 1);
        if name_matches(es[i].name, name, ci) {
            assert(es[i] == es[i]);
            assert(es.contains(es[i]));
        } else {
            if exists|k: int| i <= k < es.len() && name_matches(es[k].name, name, ci) {
                let k = choose|k: int| i <= k < es.len() && name_matches(es[k].name, name, ci);
                assert(k != i);
                assert(i + 1 <= k < es.len() && name_matches(es[k].name, name, ci));
            }
        }
    }
}

/// Listing and lookup agree: a lookup of `name` in a directory that can be
/// listed answers an entry of the listing whose name matches `name`
/// (exactly, or up to ASCII case on a case-insensitive volume) whenever one
/// exists, and `NotFound` otherwise; in particular every listed name can be
/// looked up.
pub proof fn lemma_listing_lookup<D: BlockDevice>(v: Volume<D>, dir_id: u64, name: Seq<char>)
    ensures
        spec_read_dir_inode(v, dir_id) matches Ok(es) ==> ({
            let ci = crate::volume::spec_case_insensitive(v.superblock);
            &&& (exists|k: int| 0 <= k < es.len() && name_matches(es[k].name, name, ci)) ==> (spec_lookup_child(
                v,
                dir_id,
                name,
            ) matches Ok(e) && es.contains(e) && name_matches(e.name, name, ci))
            &&& !(exists|k: int| 0 <= k < es.len() && name_matches(es[k].name, name, ci)) ==> spec_lookup_child(
                v,
                dir_id,
                name,
            ) == Err::<DirEntryView, Error>(Error::NotFound)
            &&& forall|k: int| 0 <= k < es.len() ==> #[trigger] spec_lookup_child(v, dir_id, es[k].name) is Ok
        }),
{
    if let Ok(es) = spec_read_dir_inode(v, dir_id) {
        let ci = crate::volume::spec_case_insensitive(v.superblock);
        lemma_find_entry_first(es, name, ci, 0);
        assert forall|k: int| 0 <= k < es.len() implies #[trigger] spec_lookup_child(v, dir_id, es[k].name) is Ok by {
            lemma_find_entry_first(es, es[k].name, ci, 0);
            assert(name_matches(es[k].name, es[k].name, ci));
        };
    }
}

/// On a volume that does not fold case, a lookup answers only an entry
/// whose name is exactly the one asked for: it finds such an entry when the
/// directory lists one, and is `NotFound` when every listed name differs.
pub proof fn lemma_case_sensitive_lookup_exact<D: BlockDevice>(v: Volume<D>, dir_id: u64, name: Seq<char>)
    requires
        !crate::volume::spec_case_insensitive(v.superblock),
    ensures
        spec_lookup_child(v, dir_id, name) matches Ok(e) ==> e.name == name,
        spec_read_dir_inode(v, dir_id) matches Ok(es) ==> ({
            &&& (exists|k: int| 0 <= k < es.len() && (#[trigger] es[k]).name == name) ==> (spec_lookup_child(
                v,
                dir_id,
                name,
            ) matches Ok(e) && es.contains(e) && e.name == name)
            &&& (forall|k: int| 0 <= k < es.len() ==> (#[trigger] es[k]).name != name) ==> spec_lookup_child(
                v,
                dir_id,
                name,
            ) == Err::<DirEntryView, Error>(Error::NotFound)
        }),
{
    lemma_listing_lookup(v, dir_id, name);
    if let Ok(es) = spec_read_dir_inode(v, dir_id) {
        if exists|k: int| 0 <= k < es.len() && (#[trigger] es[k]).name == name {
            let k = choose|k: int| 0 <= k < es.len() && (#[trigger] es[k]).name == name;
            assert(name_matches(es[k].name, name, false));
        }
        if forall|k: int| 0 <= k < es.len() ==> (#[trigger] es[k]).name != name {
            assert forall|k: int| 0 <= k < es.len() implies !name_matches(es[k].name, name, false) by {
                assert(es[k].name != name);
            }
        }
    }
}

/// On a volume that folds case, a lookup finds an entry whose UTF-8 name
/// equals the one asked for up to ASCII letter case whenever the directory
/// lists one, and is `NotFound` when none does.
pub proof fn lemma_case_insensitive_lookup_finds<D: BlockDevice>(v: Volume<D>, dir_id: u64, name: Seq<char>)
    requires
        crate::volume::spec_case_insensitive(v.superblock),
    ensures
        spec_read_dir_inode(v, dir_id) matches Ok(es) ==> ({
            &&& (exists|k: int| 0 <= k < es.len() && spec_eq_ignore_ascii_case(encode_utf8((#[trigger] es[k]).name), encode_utf8(name)))
                ==> (spec_lookup_child(v, dir_id, name) matches Ok(e) && es.contains(e) && spec_eq_ignore_ascii_case(
                encode_utf8(e.name),
                encode_utf8(name),
            ))
            &&& (forall|k: int| 0 <= k < es.len() ==> !spec_eq_ignore_ascii_case(encode_utf8((#[trigger] es[k]).name), encode_utf8(name)))
                ==> spec_lookup_child(v, dir_id, name) == Err::<DirEntryView, Error>(Error::NotFound)
        }),
{
    lemma_listing_lookup(v, dir_id, name);
    if let Ok(es) = spec_read_dir_inode(v, dir_id) {
        if exists|k: int| 0 <= k < es.len() && spec_eq_ignore_ascii_case(encode_utf8((#[trigger] es[k]).name), encode_utf8(name)) {
            let k = choose|k: int| 0 <= k < es.len() && spec_eq_ignore_ascii_case(encode_utf8((#[trigger] es[k]).name), encode_utf8(name));
            assert(name_matches(es[k].name, name, true));
        }
        if forall|k: int| 0 <= k < es.len() ==> !spec_eq_ignore_ascii_case(encode_utf8((#[trigger] es[k]).name), encode_utf8(name)) {
            assert forall|k: int| 0 <= k < es.len() implies !name_matches(es[k].name, name, true) by {
                assert(!spec_eq_ignore_ascii_case(encode_utf8(es[k].name), encode_utf8(name)));
            }
        }
    }
}

proof fn lemma_apply_extents_len<D: BlockDevice>(d: D, bs: int, exts: Seq<FileExtent>, k: int, offset: int, want: int, data: Seq<u8>)
    requires
        data.len() == want,
        0 <= want,
    ensures
        spec_apply_extents(d, bs, exts, k, offset, want, data) matches Ok(out) ==> out.len() == want,
    decreases exts.len() - k,
{
    if 0 <= k < exts.len() {
        if let Ok(d2) = spec_apply_extent(d, bs, exts[k], offset, want, data) {
            lemma_apply_extents_len(d, bs, exts, k + 1, offset, want, d2);
        }
    }
}

/// Extent `e` holds data (it is not a hole) at file position `p`.
pub open spec fn extent_holds(e: FileExtent, p: int) -> bool {
    e.phys_block != 0 && e.logical_addr <= p < e.logical_addr + e.len_bytes && e.logical_addr + e.len_bytes <= u64::MAX
}

/// Some extent of `exts` holds data at file position `p`.
pub open spec fn data_at(exts: Seq<FileExtent>, p: int) -> bool {
    exists|m: int| 0 <= m < exts.len() && extent_holds(#[trigger] exts[m], p)
}

/// Applying extents none of which holds data at position `offset + j`
/// leaves byte `j` of the read as it was.
proof fn lemma_apply_extents_keep<D: BlockDevice>(
    d: D,
    bs: int,
    exts: Seq<FileExtent>,
    k: int,
    offset: int,
    want: int,
    data: Seq<u8>,
    j: int,
)
    requires
        data.len() == want,
        0 <= j < want,
        0 <= k,
        forall|m: int| k <= m < exts.len() ==> !extent_holds(#[trigger] exts[m], offset + j),
    ensures
        spec_apply_extents(d, bs, exts, k, offset, want, data) matches Ok(out) ==> out[j] == data[j],
    decreases exts.len() - k,
{
    if k < exts.len() {
        let e = exts[k];
        assert(!extent_holds(e, offset + j));
        if let Ok(d2) = spec_apply_extent(d, bs, e, offset, want, data) {
            let ext_start = e.logical_addr as int;
            let ext_end = ext_start + e.len_bytes;
            let rs = if offset > ext_start { offset } else { ext_start };
            let re = if offset + want < ext_end { offset + want } else { ext_end };
            if !(ext_end > u64::MAX || rs >= re || e.phys_block == 0) {
                let bytes = crate::device::dev_read(d, e.phys_block * bs + (rs - ext_start), re - rs)->Ok_0;
                assert(bytes.len() == re - rs);
                assert(d2 == data.take(rs - offset) + bytes + data.skip(re - offset));
                if j < rs - offset {
                    assert(d2[j] == data[j]);
                } else {
                    assert(j >= re - offset);
                    assert(d2[j] == data.skip(re - offset)[j - (re - offset)]);
                }
            }
            assert(d2.len() == want);
            assert(d2[j] == data[j]);
            lemma_apply_extents_keep(d, bs, exts, k + 1, offset, want, d2, j);
        }
    }
}

/// Applying extents from `k` on, where extent `m` holds data at position
/// `offset + j` and no later one does, gives byte `j` the device byte that
/// extent maps that position to.
proof fn lemma_apply_extents_byte<D: BlockDevice>(
    d: D,
    bs: int,
    exts: Seq<FileExtent>,
    k: int,
    offset: int,
    want: int,
    data: Seq<u8>,
    j: int,
    m: int,
)
    requires
        data.len() == want,
        0 <= j < want,
        0 <= offset,
        0 <= k <= m < exts.len(),
        extent_holds(exts[m], offset + j),
        forall|q: int| m < q < exts.len() ==> !extent_holds(#[trigger] exts[q], offset + j),
    ensures
        spec_apply_extents(d, bs, exts, k, offset, want, data) matches Ok(out) ==> out[j] == d.content()[exts[m].phys_block
            * bs + (offset + j - exts[m].logical_addr)],
    decreases exts.len() - k,
{
    let e = exts[k];
    if let Ok(d2) = spec_apply_extent(d, bs, e, offset, want, data) {
        let ext_start = e.logical_addr as int;
        let ext_end = ext_start + e.len_bytes;
        let rs = if offset > ext_start { offset } else { ext_start };
        let re = if offset + want < ext_end { offset + want } else { ext_end };
        if !(ext_end > u64::MAX || rs >= re || e.phys_block == 0) {
            let off = e.phys_block * bs + (rs - ext_start);
            let bytes = crate::device::dev_read(d, off, re - rs)->Ok_0;
            assert(bytes.len() == re - rs);
            assert(d2 == data.take(rs - offset) + bytes + data.skip(re - offset));
        }
        assert(d2.len() == want);
        if k < m {
            lemma_apply_extents_byte(d, bs, exts, k + 1, offset, want, d2, j, m);
        } else {
            let off = e.phys_block * bs + (rs - ext_start);
            let bytes = crate::device::dev_read(d, off, re - rs)->Ok_0;
            assert(rs - offset <= j < re - offset);
            assert(d2[j] == bytes[j - (rs - offset)]);
            assert(bytes[j - (rs - offset)] == d.content()[off + (j - (rs - offset))]);
            assert(off + (j - (rs - offset)) == e.phys_block * bs + (offset + j - ext_start));
            lemma_apply_extents_keep(d, bs, exts, k + 1, offset, want, d2, j);
        }
    }
}

/// Data reads as the device holds it: in a read of a regular file, a
/// returned byte at a position that extent `m` holds, and no later extent
/// of the file does, is the device byte that extent maps the position to.
pub proof fn lemma_extents_read_as_mapped<D: BlockDevice>(
    v: Volume<D>,
    inode: InodeView,
    offset: u64,
    buf: Seq<u8>,
    j: int,
    m: int,
)
    requires
        !spec_is_dir(inode.mode),
        !spec_is_compressed(inode.bsd_flags),
    ensures
        match (spec_read_file_at(v, inode, offset, buf), spec_extents(v, inode.private_id)) {
            (Ok((n, b)), Ok(exts)) => 0 <= j < n && 0 <= m < exts.len() && extent_holds(exts[m], offset + j) && (forall|q: int|
                m < q < exts.len() ==> !extent_holds(#[trigger] exts[q], offset + j)) ==> b[j] == v.container.device.content()[exts[m].phys_block
                * v.container.superblock.block_size + (offset + j - exts[m].logical_addr)],
            _ => true,
        },
{
    if let (Ok((n, b)), Ok(exts)) = (spec_read_file_at(v, inode, offset, buf), spec_extents(v, inode.private_id)) {
        if offset < inode.size && 0 <= j < n && 0 <= m < exts.len() && extent_holds(exts[m], offset + j) && (forall|q: int|
            m < q < exts.len() ==> !extent_holds(#[trigger] exts[q], offset + j)) {
            let want = if buf.len() < inode.size - offset { buf.len() as int } else { inode.size - offset };
            let d = v.container.device;
            let bs = v.container.superblock.block_size as int;
            let z = zero_seq(want as nat);
            let data = spec_apply_extents(d, bs, exts, 0, offset as int, want, z)->Ok_0;
            lemma_apply_extents_len(d, bs, exts, 0, offset as int, want, z);
            lemma_apply_extents_byte(d, bs, exts, 0, offset as int, want, z, j, m);
            assert(b == data + buf.skip(want));
            assert(b[j] == data[j]);
        }
    }
}

/// Holes read as zeros: in a read of a regular file, every returned byte at
/// a position that no extent with a physical block covers is zero; an
/// extent whose physical block is 0 contributes nothing.
pub proof fn lemma_holes_read_as_zeros<D: BlockDevice>(v: Volume<D>, inode: InodeView, offset: u64, buf: Seq<u8>)
    requires
        !spec_is_dir(inode.mode),
        !spec_is_compressed(inode.bsd_flags),
    ensures
        match (spec_read_file_at(v, inode, offset, buf), spec_extents(v, inode.private_id)) {
            (Ok((n, b)), Ok(exts)) => forall|j: int| 0 <= j < n && !data_at(exts, offset + j) ==> #[trigger] b[j] == 0,
            _ => true,
        },
{
    if let (Ok((n, b)), Ok(exts)) = (spec_read_file_at(v, inode, offset, buf), spec_extents(v, inode.private_id)) {
        if offset < inode.size {
            let want = if buf.len() < inode.size - offset { buf.len() as int } else { inode.size - offset };
            let d = v.container.device;
            let bs = v.container.superblock.block_size as int;
            let z = zero_seq(want as nat);
            let data = spec_apply_extents(d, bs, exts, 0, offset as int, want, z)->Ok_0;
            lemma_apply_extents_len(d, bs, exts, 0, offset as int, want, z);
            assert forall|j: int| 0 <= j < n && !data_at(exts, offset + j) implies #[trigger] b[j] == 0 by {
                assert forall|m: int| 0 <= m < exts.len() implies !extent_holds(#[trigger] exts[m], offset + j) by {
                    if extent_holds(exts[m], offset + j) {
                        assert(data_at(exts, offset + j));
                    }
                }
                lemma_apply_extents_keep(d, bs, exts, 0, offset as int, want, z, j);
                assert(b == data + buf.skip(want));
                assert(b[j] == data[j]);
            }
        }
    }
}

/// A read of a regular (uncompressed) file returns `min(len, size -
/// offset)` bytes, zero at or past the end, and leaves the rest of the
/// buffer as it was.
#[verifier::rlimit(30)]
pub proof fn lemma_read_file_count<D: BlockDevice>(v: Volume<D>, inode: InodeView, offset: u64, buf: Seq<u8>)
    requires
        !spec_is_dir(inode.mode),
        !spec_is_compressed(inode.bsd_flags),
    ensures
        offset >= inode.size ==> spec_read_file_at(v, inode, offset, buf) == Ok::<(int, Seq<u8>), Error>((0, buf)),
        spec_read_file_at(v, inode, offset, buf) matches Ok((n, b)) ==> {
            &&& n == (if offset >= inode.size {
                0
            } else if buf.len() < inode.size - offset {
                buf.len() as int
            } else {
                inode.size - offset
            })
            &&& b.len() == buf.len()
            &&& b.skip(n) == buf.skip(n)
        },
{
    if offset < inode.size {
        let want = if buf.len() < inode.size - offset { buf.len() as int } else { inode.size - offset };
        if let Ok(exts) = spec_extents(v, inode.private_id) {
            lemma_apply_extents_len(
                v.container.device,
                v.container.superblock.block_size as int,
                exts,
                0,
                offset as int,
                want,
                zero_seq(want as nat),
            );
            if let Ok(data) = spec_apply_extents(
                v.container.device,
                v.container.superblock.block_size as int,
                exts,
                0,
                offset as int,
                want,
                zero_seq(want as nat),
            ) {
                assert((data + buf.skip(want)).skip(want) =~= buf.skip(want));
            }
        }
    }
}

} // verus!
