//! Container superblock (`nx_superblock_t`) and checkpoint discovery.
//!
//! Mount procedure (per the reference): read block zero, use it to locate
//! the checkpoint descriptor area, scan it for the container superblock
//! with the greatest transaction id that passes checksum validation, and
//! mount from that.

use crate::checksum::{self, object_valid};
use crate::device::{dev_read, read_exact, BlockDevice};
use crate::error::{same_error, Error};
use crate::obj::{spec_obj_header, spec_obj_header_expect, ObjHeader, OBJ_HDR_SIZE};
use crate::omap::{spec_omap_open, Omap};
use crate::raw::{le32, le64, truncated, SliceReader};
use crate::volume::{spec_volume_open, apsb_fields, Volume};
use crate::types::{
    NX_DEFAULT_BLOCK_SIZE, NX_MAGIC, NX_MAXIMUM_BLOCK_SIZE, NX_MAX_FILE_SYSTEMS,
    NX_MINIMUM_BLOCK_SIZE, OBJECT_TYPE_MASK, OBJECT_TYPE_NX_SUPERBLOCK, OBJECT_TYPE_SPACEMAN,
};
use crate::Result;
use vstd::prelude::*;

verus! {

/// Loads and checksum-validates physical blocks. Implemented by
/// [`Container`]; passed to submodules so they never touch the device
/// directly.
pub trait BlockLoader: Sized {
    spec fn spec_block_size(&self) -> int;

    /// The raw bytes of physical block `paddr`, or why they cannot be read.
    spec fn spec_load_raw(&self, paddr: u64) -> core::result::Result<Seq<u8>, Error>;

    #[verifier::rlimit(30)]
    fn block_size(&self) -> (n: usize)
        ensures
            n == self.spec_block_size(),
    ;

    /// Load a block *without* checksum validation.
    fn load_raw(&self, paddr: u64) -> (r: Result<Vec<u8>>)
        ensures
            bytes_result(r, self.spec_load_raw(paddr)),
    ;

    /// Load a block and verify its Fletcher-64 object checksum.
    fn load_checked(&self, paddr: u64) -> (r: Result<Vec<u8>>)
        ensures
            bytes_result(
                r,
                match self.spec_load_raw(paddr) {
                    Ok(b) => if object_valid(b) {
                        Ok(b)
                    } else {
                        Err(Error::BadChecksum { block: paddr })
                    },
                    Err(e) => Err(e),
                },
            ),
    ;
}

/// `r` carries the bytes `s` describes, or fails the same way.
pub open spec fn bytes_result(r: Result<Vec<u8>>, s: core::result::Result<Seq<u8>, Error>) -> bool {
    match r {
        Ok(v) => s == Ok::<Seq<u8>, Error>(v@),
        Err(e) => s matches Err(e2) && same_error(e, e2),
    }
}

/// A raw block load followed by checksum validation.
pub open spec fn spec_load_checked<L: BlockLoader>(l: L, paddr: u64) -> core::result::Result<Seq<u8>, Error> {
    match l.spec_load_raw(paddr) {
        Ok(b) => if object_valid(b) {
            Ok(b)
        } else {
            Err(Error::BadChecksum { block: paddr })
        },
        Err(e) => Err(e),
    }
}

/// Parsed fields of `nx_superblock_t` that the read path needs.
#[derive(Debug, Clone)]
pub struct NxSuperblock {
    pub obj: ObjHeader,
    pub block_size: u32,
    pub block_count: u64,
    pub features: u64,
    pub readonly_compatible_features: u64,
    pub incompatible_features: u64,
    pub uuid: [u8; 16],
    pub next_oid: u64,
    pub next_xid: u64,
    pub xp_desc_blocks: u32,
    pub xp_data_blocks: u32,
    pub xp_desc_base: i64,
    pub xp_data_base: i64,
    pub spaceman_oid: u64,
    pub omap_oid: u64,
    pub reaper_oid: u64,
    pub max_file_systems: u32,
    pub fs_oids: Vec<u64>,
}

/// Bytes a container superblock occupies.
pub open spec fn nx_sb_len() -> int {
    984int
}

/// A valid container block size: a power of two in 4 KiB ..= 64 KiB.
pub open spec fn valid_block_size(bs: u32) -> bool {
    NX_MINIMUM_BLOCK_SIZE <= bs <= NX_MAXIMUM_BLOCK_SIZE && bs & ((bs - 1) as u32) == 0
}

/// Why `b` is not a container superblock, if it is not.
pub open spec fn spec_nx_check(b: Seq<u8>) -> core::result::Result<(), Error> {
    match spec_obj_header_expect(b, OBJECT_TYPE_NX_SUPERBLOCK, "not a container superblock") {
        Err(e) => Err(e),
        Ok(_) => if b.len() < 36 {
            Err(truncated())
        } else if le32(b, 32) != NX_MAGIC {
            Err(Error::BadMagic("NXSB"))
        } else if b.len() < nx_sb_len() {
            Err(truncated())
        } else if !valid_block_size(le32(b, 36) as u32) {
            Err(Error::Corrupt("container block size out of range"))
        } else {
            Ok(())
        }
    }
}

/// `sb` holds the fields stored in the container superblock block `b`.
pub open spec fn nx_fields(b: Seq<u8>, sb: NxSuperblock) -> bool {
    &&& spec_obj_header(b) == Ok::<ObjHeader, Error>(sb.obj)
    &&& sb.block_size == le32(b, 36)
    &&& sb.block_count == le64(b, 40)
    &&& sb.features == le64(b, 48)
    &&& sb.readonly_compatible_features == le64(b, 56)
    &&& sb.incompatible_features == le64(b, 64)
    &&& sb.uuid@ == b.subrange(72, 88)
    &&& sb.next_oid == le64(b, 88)
    &&& sb.next_xid == le64(b, 96)
    &&& sb.xp_desc_blocks == le32(b, 104)
    &&& sb.xp_data_blocks == le32(b, 108)
    &&& sb.xp_desc_base == (le64(b, 112) as u64) as i64
    &&& sb.xp_data_base == (le64(b, 120) as u64) as i64
    &&& sb.spaceman_oid == le64(b, 152)
    &&& sb.omap_oid == le64(b, 160)
    &&& sb.reaper_oid == le64(b, 168)
    &&& sb.max_file_systems == le32(b, 180)
    &&& sb.fs_oids@ == Seq::new(100, |i: int| le64(b, 184 + 8 * i) as u64)
}

impl NxSuperblock {
    #[verifier::rlimit(30)]
    pub fn parse(block: &[u8]) -> (r: Result<NxSuperblock>)
        ensures
            match spec_nx_check(block@) {
                Ok(_) => r matches Ok(sb) && nx_fields(block@, sb),
                Err(e) => r matches Err(e2) && e2 == e,
            },
    {
        let obj = ObjHeader::parse_expect(block, OBJECT_TYPE_NX_SUPERBLOCK, "not a container superblock")?;
        let mut r = SliceReader::at(block, OBJ_HDR_SIZE)?;
        let magic = r.u32()?;
        if magic != NX_MAGIC {
            return Err(Error::BadMagic("NXSB"));
        }
        if block.len() < 984 {
            // Every field below is read through `bytes`, so a short block
            // fails with the same truncation error wherever it ends.
            return Err(Error::Parse("truncated structure (bytes)"));
        }
        let block_size = r.u32()?;
        let block_count = r.u64()?;
        let features = r.u64()?;
        let readonly_compatible_features = r.u64()?;
        let incompatible_features = r.u64()?;
        let uuid = r.uuid()?;
        let next_oid = r.u64()?;
        let next_xid = r.u64()?;
        let xp_desc_blocks = r.u32()?;
        let xp_data_blocks = r.u32()?;
        let xp_desc_base = r.i64()?;
        let xp_data_base = r.i64()?;
        let _xp_desc_next = r.u32()?;
        let _xp_data_next = r.u32()?;
        let _xp_desc_index = r.u32()?;
        let _xp_desc_len = r.u32()?;
        let _xp_data_index = r.u32()?;
        let _xp_data_len = r.u32()?;
        let spaceman_oid = r.u64()?;
        let omap_oid = r.u64()?;
        let reaper_oid = r.u64()?;
        let _test_type = r.u32()?;
        let max_file_systems = r.u32()?;
        let mut fs_oids: Vec<u64> = Vec::with_capacity(NX_MAX_FILE_SYSTEMS);
        let mut i: usize = 0;
        while i < NX_MAX_FILE_SYSTEMS
            invariant
                i <= 100,
                r.data() == block@,
                r.offset() == 184 + 8 * i,
                block@.len() >= 984,
                fs_oids@ == Seq::new(i as nat, |j: int| le64(block@, 184 + 8 * j) as u64),
            decreases 100 - i,
        {
            let v = r.u64()?;
            fs_oids.push(v);
            i += 1;
            assert(fs_oids@ =~= Seq::new(i as nat, |j: int| le64(block@, 184 + 8 * j) as u64));
        }
        if !(NX_MINIMUM_BLOCK_SIZE <= block_size && block_size <= NX_MAXIMUM_BLOCK_SIZE)
            || block_size & (block_size - 1) != 0
        {
            assert(!valid_block_size(block_size));
            return Err(Error::Corrupt("container block size out of range"));
        }
        Ok(NxSuperblock {
            obj,
            block_size,
            block_count,
            features,
            readonly_compatible_features,
            incompatible_features,
            uuid,
            next_oid,
            next_xid,
            xp_desc_blocks,
            xp_data_blocks,
            xp_desc_base,
            xp_data_base,
            spaceman_oid,
            omap_oid,
            reaper_oid,
            max_file_systems,
            fs_oids,
        })
    }
}

/// An opened, validated APFS container.
pub struct Container<D: BlockDevice> {
    pub device: D,
    pub superblock: NxSuperblock,
}

/// Physical block `paddr` of a device with block size `bs`.
pub open spec fn spec_device_block<D: BlockDevice>(d: D, bs: int, paddr: int) -> core::result::Result<Seq<u8>, Error> {
    if paddr * bs > u64::MAX {
        Err(Error::Corrupt("block address out of range"))
    } else {
        dev_read(d, paddr * bs, bs)
    }
}

/// A checkpoint-descriptor-area block worth considering: a readable
/// container superblock with a valid checksum. Returns its xid and bytes.
pub open spec fn spec_desc_candidate<D: BlockDevice>(d: D, base: i64, i: int, bs: int) -> Option<(u64, Seq<u8>)> {
    let paddr = (base as u64) + i;
    if paddr > u64::MAX {
        None
    } else {
        match spec_device_block(d, bs, paddr) {
            Err(_) => None,
            Ok(blk) => match spec_obj_header(blk) {
                Err(_) => None,
                Ok(h) => if h.obj_type & OBJECT_TYPE_MASK != OBJECT_TYPE_NX_SUPERBLOCK {
                    None
                } else if !object_valid(blk) {
                    None
                } else {
                    Some((h.xid, blk))
                },
            },
        }
    }
}

/// The best (greatest-xid, first on ties) candidate among the first `n`
/// descriptor blocks.
pub open spec fn spec_best_desc<D: BlockDevice>(d: D, base: i64, n: nat, bs: int) -> Option<(u64, Seq<u8>)>
    decreases n,
{
    if n == 0 {
        None
    } else {
        let prev = spec_best_desc(d, base, (n - 1) as nat, bs);
        match spec_desc_candidate(d, base, n - 1, bs) {
            None => prev,
            Some((xid, blk)) => match prev {
                None => Some((xid, blk)),
                Some((px, _)) => if xid > px {
                    Some((xid, blk))
                } else {
                    prev
                },
            },
        }
    }
}

/// The container superblock block that mounting selects, or why mounting
/// fails.
pub open spec fn spec_container_open<D: BlockDevice>(d: D) -> core::result::Result<Seq<u8>, Error> {
    match dev_read(d, 0, 4096) {
        Err(e) => Err(e),
        Ok(probe) => match spec_nx_check(probe) {
            Err(e) => Err(e),
            Ok(_) => {
                let bs = le32(probe, 36);
                match dev_read(d, 0, bs) {
                    Err(e) => Err(e),
                    Ok(raw0) => {
                        let desc = le32(probe, 104) as u32;
                        if desc & 0x8000_0000 != 0 {
                            Err(Error::Unsupported("checkpoint descriptor area stored as a B-tree"))
                        } else {
                            let best = spec_best_desc(d, (le64(probe, 112) as u64) as i64, (desc & 0x7fff_ffff) as nat, bs);
                            let xid0 = le64(probe, 16) as u64;
                            let chosen = if object_valid(raw0) && (match best {
                                None => true,
                                Some((x, _)) => xid0 > x,
                            }) {
                                Some((xid0, raw0))
                            } else {
                                best
                            };
                            match chosen {
                                None => Err(Error::Corrupt("no valid checkpoint superblock found")),
                                Some((_, blk)) => match spec_nx_check(blk) {
                                    Err(e) => Err(e),
                                    Ok(_) => Ok(blk),
                                },
                            }
                        }
                    },
                }
            },
        }
    }
}

/// Physical block `paddr` of a container.
pub open spec fn spec_container_block<D: BlockDevice>(c: Container<D>, paddr: u64) -> core::result::Result<Seq<u8>, Error> {
    spec_device_block(c.dev(), c.superblock.block_size as int, paddr as int)
}

impl<D: BlockDevice> Container<D> {
    /// The device the container reads from.
    pub open spec fn dev(&self) -> D {
        self.device
    }

    /// Read one physical block of `bs` bytes straight from the device.
    fn read_block(device: &D, bs: usize, paddr: u64) -> (r: Result<Vec<u8>>)
        ensures
            bytes_result(r, spec_device_block(*device, bs as int, paddr as int)),
    {
        let off = match paddr.checked_mul(bs as u64) {
            Some(o) => o,
            None => return Err(Error::Corrupt("block address out of range")),
        };
        let mut buf = vec![0u8; bs];
        match read_exact(device, off, buf.as_mut_slice()) {
            Ok(()) => Ok(buf),
            Err(e) => Err(e),
        }
    }

    /// Consider descriptor block `i` as a checkpoint superblock.
    fn desc_candidate(device: &D, base: i64, i: u64, bs: usize) -> (r: Option<(u64, Vec<u8>)>)
        ensures
            match spec_desc_candidate(*device, base, i as int, bs as int) {
                None => r is None,
                Some((x, b)) => r matches Some((x2, b2)) && x2 == x && b2@ == b,
            },
    {
        let paddr = match (base as u64).checked_add(i) {
            Some(p) => p,
            None => return None,
        };
        let blk = match Self::read_block(device, bs, paddr) {
            Ok(b) => b,
            Err(_) => return None,
        };
        let hdr = match ObjHeader::parse(blk.as_slice()) {
            Ok(h) => h,
            Err(_) => return None,
        };
        if hdr.base_type() != OBJECT_TYPE_NX_SUPERBLOCK {
            return None;
        }
        if !checksum::verify_object(blk.as_slice()) {
            return None;
        }
        Some((hdr.xid, blk))
    }

    /// Open a container from a device that starts at the APFS partition
    /// (block zero = `nx_superblock_t`).
    #[verifier::rlimit(30)]
    pub fn open(device: D) -> (r: Result<Container<D>>)
        ensures
            match spec_container_open(device) {
                Ok(b) => r matches Ok(c) && nx_fields(b, c.superblock) && c.dev() == device,
                Err(e2) => r matches Err(e) && same_error(e, e2),
            },
    {
        // Bootstrap: block zero is a copy of the superblock from the most
        // recent clean unmount. It is only trusted to find the checkpoint
        // descriptor area.
        let mut probe = vec![0u8; NX_DEFAULT_BLOCK_SIZE as usize];
        read_exact(&device, 0, probe.as_mut_slice())?;
        let block0 = match NxSuperblock::parse(probe.as_slice()) {
            Ok(b) => b,
            Err(e) => return Err(e),
        };
        let bs = block0.block_size as usize;

        // Re-read block zero at the real block size for checksum purposes.
        let mut block0_raw = vec![0u8; bs];
        read_exact(&device, 0, block0_raw.as_mut_slice())?;

        // Scan the checkpoint descriptor area for the latest valid superblock.
        let desc_blocks = block0.xp_desc_blocks & 0x7fff_ffff;
        if block0.xp_desc_blocks & 0x8000_0000 != 0 {
            return Err(Error::Unsupported("checkpoint descriptor area stored as a B-tree"));
        }
        let mut best: Option<(u64, Vec<u8>)> = None;
        let mut i: u64 = 0;
        while i < desc_blocks as u64
            invariant
                i <= desc_blocks,
                match spec_best_desc(device, block0.xp_desc_base, i as nat, bs as int) {
                    None => best is None,
                    Some((x, b)) => best matches Some((x2, b2)) && x2 == x && b2@ == b,
                },
            decreases desc_blocks - i,
        {
            let cand = Self::desc_candidate(&device, block0.xp_desc_base, i, bs);
            match cand {
                None => {},
                Some((xid, blk)) => {
                    let better = match &best {
                        None => true,
                        Some((x, _)) => xid > *x,
                    };
                    if better {
                        best = Some((xid, blk));
                    }
                },
            }
            i = i + 1;
        }
        // Fall back to block zero if it is itself valid and newer.
        let newer = match &best {
            None => true,
            Some((x, _)) => block0.obj.xid > *x,
        };
        if checksum::verify_object(block0_raw.as_slice()) && newer {
            best = Some((block0.obj.xid, block0_raw));
        }
        let sb_block = match best {
            Some((_, b)) => b,
            None => return Err(Error::Corrupt("no valid checkpoint superblock found")),
        };
        let superblock = NxSuperblock::parse(sb_block.as_slice())?;
        Ok(Container { device, superblock })
    }

    pub fn block_size_u64(&self) -> (n: u64)
        ensures
            n == self.superblock.block_size,
    {
        self.superblock.block_size as u64
    }

    /// Ids of the volumes present in this container.
    pub fn volume_oids(&self) -> (v: Vec<u64>)
        ensures
            v@ == self.superblock.fs_oids@.filter(|o: u64| o != 0),
    {
        let mut v: Vec<u64> = Vec::new();
        let mut i: usize = 0;
        while i < self.superblock.fs_oids.len()
            invariant
                i <= self.superblock.fs_oids@.len(),
                v@ == self.superblock.fs_oids@.take(i as int).filter(|o: u64| o != 0),
            decreases self.superblock.fs_oids@.len() - i,
        {
            let o = self.superblock.fs_oids[i];
            proof {
                let s = self.superblock.fs_oids@;
                assert(s.take(i + 1).drop_last() =~= s.take(i as int));
                reveal_with_fuel(Seq::<u64>::filter, 1);
            }
            if o != 0 {
                v.push(o);
            }
            i += 1;
        }
        assert(self.superblock.fs_oids@.take(self.superblock.fs_oids@.len() as int) =~= self.superblock.fs_oids@);
        v
    }

    /// Latest transaction id (used for all omap lookups when reading).
    pub fn xid(&self) -> (x: u64)
        ensures
            x == self.superblock.obj.xid,
    {
        self.superblock.obj.xid
    }

    /// Read raw bytes from the underlying device (used for file extents,
    /// which are not objects and have no checksums).
    pub fn read_raw(&self, byte_offset: u64, buf: &mut [u8]) -> (r: Result<()>)
        ensures
            final(buf)@.len() == old(buf)@.len(),
            match dev_read(self.dev(), byte_offset as int, old(buf)@.len() as int) {
                Ok(bytes) => r is Ok && final(buf)@ == bytes,
                Err(e2) => r matches Err(e) && same_error(e, e2),
            },
    {
        read_exact(&self.device, byte_offset, buf)
    }
}

/// What checkpoint-data block `i` says about the free block count: nothing
/// (not the space manager), or the count (or why it cannot be read).
pub open spec fn spec_spaceman_candidate<D: BlockDevice>(c: Container<D>, i: int) -> Option<core::result::Result<u64, Error>> {
    let paddr = (c.superblock.xp_data_base as u64) + i;
    if paddr > u64::MAX {
        None
    } else {
        match spec_container_block(c, paddr as u64) {
            Err(_) => None,
            Ok(blk) => match spec_obj_header(blk) {
                Err(_) => None,
                Ok(h) => if h.obj_type & OBJECT_TYPE_MASK != OBJECT_TYPE_SPACEMAN || h.oid != c.superblock.spaceman_oid {
                    None
                } else if !object_valid(blk) {
                    None
                } else if blk.len() < 48 {
                    Some(Err(crate::raw::offset_out_of_range()))
                } else if blk.len() < 80 {
                    Some(Err(truncated()))
                } else {
                    Some(Ok(le64(blk, 72) as u64))
                },
            },
        }
    }
}

/// The free count of the first space manager among checkpoint-data blocks
/// `i..n`.
pub open spec fn spec_find_spaceman<D: BlockDevice>(c: Container<D>, i: int, n: int) -> core::result::Result<u64, Error>
    decreases n - i,
{
    if i >= n {
        Err(Error::Corrupt("space manager not found in checkpoint data"))
    } else {
        match spec_spaceman_candidate(c, i) {
            None => spec_find_spaceman(c, i + 1, n),
            Some(r) => r,
        }
    }
}

impl<D: BlockDevice> Container<D> {
    /// Number of free blocks in the container, from the space manager's
    /// main-device counter.
    ///
    /// The space manager is an *ephemeral* object: it lives in the
    /// checkpoint data area and is found by scanning that area for the
    /// object whose oid matches `nx_spaceman_oid`.
    #[verifier::rlimit(30)]
    pub fn free_block_count(&self) -> (r: Result<u64>)
        ensures
            r == spec_find_spaceman(*self, 0, (self.superblock.xp_data_blocks & 0x7fff_ffff) as int),
    {
        let sb = &self.superblock;
        let data_blocks = sb.xp_data_blocks & 0x7fff_ffff;
        let mut i: u64 = 0;
        while i < data_blocks as u64
            invariant
                i <= data_blocks,
                data_blocks == self.superblock.xp_data_blocks & 0x7fff_ffff,
                sb == &self.superblock,
                spec_find_spaceman(*self, 0, data_blocks as int) == spec_find_spaceman(*self, i as int, data_blocks as int),
            decreases data_blocks - i,
        {
            let cur = i;
            i = i + 1;
            let paddr = match (sb.xp_data_base as u64).checked_add(cur) {
                Some(p) => p,
                None => continue,
            };
            let blk = match self.load_raw(paddr) {
                Ok(b) => b,
                Err(_) => continue,
            };
            let hdr = match ObjHeader::parse(blk.as_slice()) {
                Ok(h) => h,
                Err(_) => continue,
            };
            if hdr.base_type() != OBJECT_TYPE_SPACEMAN || hdr.oid != sb.spaceman_oid {
                continue;
            }
            if !checksum::verify_object(blk.as_slice()) {
                continue;
            }
            // spaceman_phys after the object header:
            //   block_size u32, blocks_per_chunk u32, chunks_per_cib u32,
            //   cibs_per_cab u32, then sm_dev[MAIN]:
            //   { block_count u64, chunk_count u64, cib_count u32,
            //     cab_count u32, free_count u64, ... }
            let mut r = SliceReader::at(blk.as_slice(), OBJ_HDR_SIZE + 16)?;
            let _block_count = r.u64()?;
            let _chunk_count = r.u64()?;
            let _cib_count = r.u32()?;
            let _cab_count = r.u32()?;
            return Ok(r.u64()?);
        }
        Err(Error::Corrupt("space manager not found in checkpoint data"))
    }
}

impl<D: BlockDevice> Container<D> {
    /// The container-level object map.
    pub fn omap(&self) -> (r: Result<Omap<'_, Container<D>>>)
        ensures
            match r {
                Ok(om) => spec_omap_open(*self, self.superblock.omap_oid) == Ok::<u64, Error>(om.tree_oid)
                    && om.loader == self,
                Err(e) => spec_omap_open(*self, self.superblock.omap_oid) matches Err(e2) && same_error(e, e2),
            },
    {
        Omap::open(self, self.superblock.omap_oid)
    }

    /// Open volume by index (0-based among present volumes).
    pub fn volume(&self, index: usize) -> (r: Result<Volume<'_, D>>)
        ensures
            match spec_volume_at(self, index as int) {
                Ok(b) => r matches Ok(v) && apsb_fields(b, v.superblock) && v.container == self
                    && v.omap_paddr == v.superblock.omap_oid,
                Err(e2) => r matches Err(e) && same_error(e, e2),
            },
    {
        let oids = self.volume_oids();
        if index >= oids.len() {
            return Err(Error::NotFound);
        }
        let oid = oids[index];
        Volume::open(self, oid)
    }
}

/// The superblock block of the volume at `index` among the present
/// volumes, or why it cannot be opened.
pub open spec fn spec_volume_at<D: BlockDevice>(c: &Container<D>, index: int) -> core::result::Result<Seq<u8>, Error> {
    let oids = c.superblock.fs_oids@.filter(|o: u64| o != 0);
    if index < 0 || index >= oids.len() {
        Err(Error::NotFound)
    } else {
        spec_volume_open(c, oids[index])
    }
}

/// Volume `i` is the volume whose oid is `volume_oids()[i]`: opening it
/// by index is opening that oid, whose superblock is the block the
/// container's object map maps for it at the checkpoint's transaction; an
/// index past the present volumes is `NotFound`.
pub proof fn lemma_volume_by_index<D: BlockDevice>(c: &Container<D>, i: int)
    ensures
        0 <= i < c.superblock.fs_oids@.filter(|o: u64| o != 0).len() ==> spec_volume_at(c, i) == spec_volume_open(
            c,
            c.superblock.fs_oids@.filter(|o: u64| o != 0)[i],
        ),
        0 <= i < c.superblock.fs_oids@.filter(|o: u64| o != 0).len() ==> (spec_volume_at(c, i) matches Ok(b) ==> ({
            let oid = c.superblock.fs_oids@.filter(|o: u64| o != 0)[i];
            spec_omap_open(*c, c.superblock.omap_oid) matches Ok(tree) && crate::omap::spec_load_virtual(
                Omap { loader: c, tree_oid: tree },
                oid,
                c.superblock.obj.xid,
            ) == Ok::<Seq<u8>, Error>(b)
        })),
        !(0 <= i < c.superblock.fs_oids@.filter(|o: u64| o != 0).len()) ==> spec_volume_at(c, i) == Err::<
            Seq<u8>,
            Error,
        >(Error::NotFound),
{
}

impl<D: BlockDevice> BlockLoader for Container<D> {
    open spec fn spec_block_size(&self) -> int {
        self.superblock.block_size as int
    }

    open spec fn spec_load_raw(&self, paddr: u64) -> core::result::Result<Seq<u8>, Error> {
        spec_container_block(*self, paddr)
    }

    fn block_size(&self) -> (n: usize) {
        self.superblock.block_size as usize
    }

    fn load_raw(&self, paddr: u64) -> (r: Result<Vec<u8>>) {
        Self::read_block(&self.device, self.superblock.block_size as usize, paddr)
    }

    fn load_checked(&self, paddr: u64) -> (r: Result<Vec<u8>>) {
        let buf = self.load_raw(paddr)?;
        if !checksum::verify_object(buf.as_slice()) {
            return Err(Error::BadChecksum { block: paddr });
        }
        Ok(buf)
    }
}

/// A descriptor-area candidate is absent or no newer than `x`.
pub open spec fn no_newer_than(c: Option<(u64, Seq<u8>)>, x: u64) -> bool {
    match c {
        Some((y, _)) => y <= x,
        None => true,
    }
}

/// Mounting takes the newest checkpoint: the chosen descriptor block is one
/// of the valid candidates, none of them is newer, and there is a choice
/// exactly when some candidate is valid.
pub proof fn lemma_best_desc_newest<D: BlockDevice>(d: D, base: i64, n: nat, bs: int)
    ensures
        spec_best_desc(d, base, n, bs) is None <==> forall|i: int|
            0 <= i < n ==> #[trigger] spec_desc_candidate(d, base, i, bs) is None,
        spec_best_desc(d, base, n, bs) matches Some((x, blk)) ==> {
            &&& exists|i: int| 0 <= i < n && #[trigger] spec_desc_candidate(d, base, i, bs) == Some((x, blk))
            &&& forall|i: int| 0 <= i < n ==> no_newer_than(#[trigger] spec_desc_candidate(d, base, i, bs), x)
        },
    decreases n,
{
    if n > 0 {
        let m = (n - 1) as nat;
        lemma_best_desc_newest(d, base, m, bs);
        let c = spec_desc_candidate(d, base, m as int, bs);
        if let Some((x, blk)) = spec_best_desc(d, base, n, bs) {
            if let Some((px, pb)) = spec_best_desc(d, base, m, bs) {
                let w = choose|i: int| 0 <= i < m && #[trigger] spec_desc_candidate(d, base, i, bs) == Some((px, pb));
                assert(spec_desc_candidate(d, base, w, bs) == Some((px, pb)));
                assert(px <= x);
                assert forall|i: int| 0 <= i < n implies no_newer_than(#[trigger] spec_desc_candidate(d, base, i, bs), x) by {
                    if i < m {
                        assert(no_newer_than(spec_desc_candidate(d, base, i, bs), px));
                    }
                };
            } else {
                assert forall|i: int| 0 <= i < n implies no_newer_than(#[trigger] spec_desc_candidate(d, base, i, bs), x) by {
                    if i < m {
                        assert(spec_desc_candidate(d, base, i, bs) is None);
                    }
                };
            }
        }
    }
}

} // verus!
