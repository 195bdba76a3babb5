//! Volume superblock (`apfs_superblock_t`) and volume-level access.

use crate::btree::{as_node_block, node_result, spec_tree_info, Node, NodeSource, TreeInfo};
use crate::container::{bytes_result, BlockLoader, Container};
use crate::device::BlockDevice;
use crate::error::{same_error, Error};
use crate::obj::{spec_obj_header, spec_obj_header_expect, ObjHeader, OBJ_HDR_SIZE};
use crate::omap::{spec_load_virtual, spec_omap_open, Omap};
use crate::raw::{le32, le64, truncated, truncated_skip, SliceReader};
use crate::text::{cstr, cstr_lossy, spec_utf8_lossy};
use crate::types::{
    APFS_FS_UNENCRYPTED, APFS_INCOMPAT_CASE_INSENSITIVE, APFS_INCOMPAT_NORMALIZATION_INSENSITIVE,
    APFS_INCOMPAT_SEALED_VOLUME, APFS_MAGIC, APFS_VOLNAME_LEN, OBJECT_TYPE_FS,
};
use crate::Result;
use vstd::prelude::*;

verus! {

#[derive(Debug, Clone)]
pub struct ApfsSuperblock {
    pub obj: ObjHeader,
    pub fs_index: u32,
    pub features: u64,
    pub readonly_compatible_features: u64,
    pub incompatible_features: u64,
    pub fs_flags: u64,
    pub omap_oid: u64,
    pub root_tree_oid: u64,
    pub extentref_tree_oid: u64,
    pub snap_meta_tree_oid: u64,
    pub next_obj_id: u64,
    pub num_files: u64,
    pub num_directories: u64,
    pub num_symlinks: u64,
    pub num_other_fsobjects: u64,
    pub num_snapshots: u64,
    pub vol_uuid: [u8; 16],
    pub volname: String,
}

/// Why `b` is not a volume superblock, if it is not.
pub open spec fn spec_apsb_check(b: Seq<u8>) -> core::result::Result<(), Error> {
    match spec_obj_header_expect(b, OBJECT_TYPE_FS, "not a volume superblock") {
        Err(e) => Err(e),
        Ok(_) => if b.len() < 36 {
            Err(truncated())
        } else if le32(b, 32) != APFS_MAGIC {
            Err(Error::BadMagic("APSB"))
        } else if b.len() < 96 {
            Err(truncated())
        } else if b.len() < 116 {
            Err(truncated_skip())
        } else if b.len() < 272 {
            Err(truncated())
        } else if b.len() < 704 {
            Err(truncated_skip())
        } else if b.len() < 960 {
            Err(truncated())
        } else {
            Ok(())
        }
    }
}

/// `sb` holds the fields stored in the volume superblock block `b`.
pub open spec fn apsb_fields(b: Seq<u8>, sb: ApfsSuperblock) -> bool {
    &&& spec_obj_header(b) == Ok::<ObjHeader, Error>(sb.obj)
    &&& sb.fs_index == le32(b, 36)
    &&& sb.features == le64(b, 40)
    &&& sb.readonly_compatible_features == le64(b, 48)
    &&& sb.incompatible_features == le64(b, 56)
    &&& sb.omap_oid == le64(b, 128)
    &&& sb.root_tree_oid == le64(b, 136)
    &&& sb.extentref_tree_oid == le64(b, 144)
    &&& sb.snap_meta_tree_oid == le64(b, 152)
    &&& sb.next_obj_id == le64(b, 176)
    &&& sb.num_files == le64(b, 184)
    &&& sb.num_directories == le64(b, 192)
    &&& sb.num_symlinks == le64(b, 200)
    &&& sb.num_other_fsobjects == le64(b, 208)
    &&& sb.num_snapshots == le64(b, 216)
    &&& sb.vol_uuid@ == b.subrange(240, 256)
    &&& sb.fs_flags == le64(b, 264)
    &&& sb.volname@ == spec_utf8_lossy(cstr(b.subrange(704, 960)))
}

pub open spec fn spec_case_insensitive(sb: ApfsSuperblock) -> bool {
    sb.incompatible_features & APFS_INCOMPAT_CASE_INSENSITIVE != 0
}

pub open spec fn spec_normalization_insensitive(sb: ApfsSuperblock) -> bool {
    sb.incompatible_features & APFS_INCOMPAT_NORMALIZATION_INSENSITIVE != 0
}

pub open spec fn spec_encrypted(sb: ApfsSuperblock) -> bool {
    sb.fs_flags & APFS_FS_UNENCRYPTED == 0
}

impl ApfsSuperblock {
    #[verifier::rlimit(30)]
    pub fn parse(block: &[u8]) -> (r: Result<ApfsSuperblock>)
        ensures
            match spec_apsb_check(block@) {
                Ok(_) => r matches Ok(sb) && apsb_fields(block@, sb),
                Err(e) => r matches Err(e2) && e2 == e,
            },
    {
        let obj = ObjHeader::parse_expect(block, OBJECT_TYPE_FS, "not a volume superblock")?;
        let mut r = SliceReader::at(block, OBJ_HDR_SIZE)?;
        let magic = r.u32()?;
        if magic != APFS_MAGIC {
            return Err(Error::BadMagic("APSB"));
        }
        let fs_index = r.u32()?;
        let features = r.u64()?;
        let readonly_compatible_features = r.u64()?;
        let incompatible_features = r.u64()?;
        let _unmount_time = r.u64()?;
        let _fs_reserve_block_count = r.u64()?;
        let _fs_quota_block_count = r.u64()?;
        let _fs_alloc_count = r.u64()?;
        r.skip(20)?;  // wrapped_meta_crypto_state_t
        let _root_tree_type = r.u32()?;
        let _extentref_tree_type = r.u32()?;
        let _snap_meta_tree_type = r.u32()?;
        let omap_oid = r.u64()?;
        let root_tree_oid = r.u64()?;
        let extentref_tree_oid = r.u64()?;
        let snap_meta_tree_oid = r.u64()?;
        let _revert_to_xid = r.u64()?;
        let _revert_to_sblock_oid = r.u64()?;
        let next_obj_id = r.u64()?;
        let num_files = r.u64()?;
        let num_directories = r.u64()?;
        let num_symlinks = r.u64()?;
        let num_other_fsobjects = r.u64()?;
        let num_snapshots = r.u64()?;
        let _total_blocks_alloced = r.u64()?;
        let _total_blocks_freed = r.u64()?;
        let vol_uuid = r.uuid()?;
        let _last_mod_time = r.u64()?;
        let fs_flags = r.u64()?;
        // apfs_formatted_by (48) + apfs_modified_by[8] (8*48)
        r.skip(48 + 8 * 48)?;
        let name_bytes = r.bytes(APFS_VOLNAME_LEN)?;
        let volname = cstr_lossy(name_bytes);
        Ok(ApfsSuperblock {
            obj,
            fs_index,
            features,
            readonly_compatible_features,
            incompatible_features,
            fs_flags,
            omap_oid,
            root_tree_oid,
            extentref_tree_oid,
            snap_meta_tree_oid,
            next_obj_id,
            num_files,
            num_directories,
            num_symlinks,
            num_other_fsobjects,
            num_snapshots,
            vol_uuid,
            volname,
        })
    }

    pub fn case_insensitive(&self) -> (b: bool)
        ensures
            b == spec_case_insensitive(*self),
    {
        self.incompatible_features & APFS_INCOMPAT_CASE_INSENSITIVE != 0
    }

    pub fn normalization_insensitive(&self) -> (b: bool)
        ensures
            b == spec_normalization_insensitive(*self),
    {
        self.incompatible_features & APFS_INCOMPAT_NORMALIZATION_INSENSITIVE != 0
    }

    pub fn encrypted(&self) -> (b: bool)
        ensures
            b == spec_encrypted(*self),
    {
        self.fs_flags & APFS_FS_UNENCRYPTED == 0
    }
}

/// An opened volume: superblock + its object map + fs-tree root location.
pub struct Volume<'c, D: BlockDevice> {
    pub container: &'c Container<D>,
    pub superblock: ApfsSuperblock,
    pub omap_paddr: u64,
}

/// The volume superblock block that opening the volume with virtual oid
/// `fs_oid` reads, or why opening fails.
pub open spec fn spec_volume_open<D: BlockDevice>(c: &Container<D>, fs_oid: u64) -> core::result::Result<Seq<u8>, Error> {
    match spec_omap_open(*c, c.superblock.omap_oid) {
        Err(e) => Err(e),
        Ok(tree) => {
            let om = Omap { loader: c, tree_oid: tree };
            match spec_load_virtual(om, fs_oid, c.superblock.obj.xid) {
                Err(e) => Err(e),
                Ok(b) => match spec_apsb_check(b) {
                    Err(e) => Err(e),
                    Ok(_) => if (le64(b, 264) as u64) & APFS_FS_UNENCRYPTED == 0 {
                        Err(Error::Encrypted)
                    } else if (le64(b, 56) as u64) & APFS_INCOMPAT_SEALED_VOLUME != 0 {
                        Err(Error::Unsupported("sealed volumes"))
                    } else {
                        Ok(b)
                    },
                },
            }
        },
    }
}

/// The volume's object map.
pub open spec fn spec_volume_omap<D: BlockDevice>(v: Volume<D>) -> core::result::Result<Omap<Container<D>>, Error> {
    match spec_omap_open(*v.container, v.omap_paddr) {
        Err(e) => Err(e),
        Ok(tree) => Ok(Omap { loader: v.container, tree_oid: tree }),
    }
}

/// The fs-tree root block and its tree info.
pub open spec fn spec_root_tree<D: BlockDevice>(v: Volume<D>) -> core::result::Result<(Seq<u8>, TreeInfo), Error> {
    match spec_volume_omap(v) {
        Err(e) => Err(e),
        Ok(om) => match as_node_block(spec_load_virtual(om, v.superblock.root_tree_oid, v.container.superblock.obj.xid)) {
            Err(e) => Err(e),
            Ok(b) => match spec_tree_info(crate::btree::hdr_of(b), b) {
                Err(e) => Err(e),
                Ok(info) => Ok((b, info)),
            },
        },
    }
}

impl<'c, D: BlockDevice> Volume<'c, D> {
    pub(crate) fn open(container: &'c Container<D>, fs_oid: u64) -> (r: Result<Volume<'c, D>>)
        ensures
            match spec_volume_open(container, fs_oid) {
                Ok(b) => r matches Ok(v) && apsb_fields(b, v.superblock) && v.container == container
                    && v.omap_paddr == v.superblock.omap_oid,
                Err(e2) => r matches Err(e) && same_error(e, e2),
            },
    {
        // Volume superblocks are virtual objects resolved through the
        // container's object map.
        let comap = Omap::open(container, container.superblock.omap_oid)?;
        let apsb_block = comap.load_virtual(fs_oid, container.xid())?;
        let superblock = ApfsSuperblock::parse(apsb_block.as_slice())?;
        if superblock.encrypted() {
            return Err(Error::Encrypted);
        }
        if superblock.incompatible_features & APFS_INCOMPAT_SEALED_VOLUME != 0 {
            return Err(Error::Unsupported("sealed volumes"));
        }
        // Volume omap oid is physical.
        let omap_paddr = superblock.omap_oid;
        Ok(Volume { container, superblock, omap_paddr })
    }

    pub fn name(&self) -> (s: &str)
        ensures
            s@ == self.superblock.volname@,
    {
        self.superblock.volname.as_str()
    }

    pub fn omap(&self) -> (r: Result<Omap<'c, Container<D>>>)
        ensures
            match r {
                Ok(om) => spec_volume_omap(*self) == Ok::<Omap<Container<D>>, Error>(om),
                Err(e) => spec_volume_omap(*self) matches Err(e2) && same_error(e, e2),
            },
    {
        Omap::open(self.container, self.omap_paddr)
    }

    /// Load the fs-tree root node (a virtual object).
    pub fn root_tree(&self) -> (r: Result<(Node, TreeInfo)>)
        ensures
            match r {
                Ok((n, info)) => spec_root_tree(*self) == Ok::<(Seq<u8>, TreeInfo), Error>((n.block@, info)) && n.wf(),
                Err(e) => spec_root_tree(*self) matches Err(e2) && same_error(e, e2),
            },
    {
        let omap = self.omap()?;
        let block = omap.load_virtual(self.superblock.root_tree_oid, self.container.xid())?;
        let node = Node::parse(block)?;
        let info = TreeInfo::parse(&node)?;
        Ok((node, info))
    }

    pub fn fs_source(&self) -> (r: Result<FsTreeSource<'c, D>>)
        ensures
            match r {
                Ok(src) => spec_volume_omap(*self) == Ok::<Omap<Container<D>>, Error>(src.omap)
                    && src.xid == self.container.superblock.obj.xid,
                Err(e) => spec_volume_omap(*self) matches Err(e2) && same_error(e, e2),
            },
    {
        Ok(FsTreeSource { omap: self.omap()?, xid: self.container.xid() })
    }
}

/// NodeSource for fs-trees: child pointers are *virtual* oids resolved
/// through the volume's object map.
pub struct FsTreeSource<'v, D: BlockDevice> {
    pub omap: Omap<'v, Container<D>>,
    pub xid: u64,
}

impl<'v, D: BlockDevice> NodeSource for FsTreeSource<'v, D> {
    open spec fn spec_node_block(&self, child_ref: u64) -> core::result::Result<Seq<u8>, Error> {
        as_node_block(spec_load_virtual(self.omap, child_ref, self.xid))
    }

    fn load_node(&self, child_ref: u64) -> (r: Result<Node>) {
        Node::parse(self.omap.load_virtual(child_ref, self.xid)?)
    }
}

} // verus!
