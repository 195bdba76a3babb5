//! What the Windows mount layer decides: how APFS errors, timestamps and
//! inodes appear to WinFsp, and which inode a Windows path names.
//!
//! Read-only: every mutating entry point answers
//! [`STATUS_MEDIA_WRITE_PROTECTED`], so Explorer shows a write-protected
//! drive rather than erroring on copy attempts.

use crate::container::{spec_find_spaceman, spec_volume_at, Container};
use crate::device::BlockDevice;
use crate::error::{same_error, Error};
use crate::fs::{
    entries_view, inode_result, read_result, spec_is_dir, spec_lookup_path, spec_read_dir_inode,
    spec_read_file_at, spec_volume_inode, DirEntryView, Inode, InodeView,
};
use crate::text::{cstr, push_char, spec_utf8_lossy};
use crate::volume::{apsb_fields, Volume};
use crate::Result;
use std::sync::Arc;
use vstd::prelude::*;

verus! {

// NTSTATUS values (ntstatus.h), as the signed 32-bit codes WinFsp takes.
/// 0xC0000034
pub const STATUS_OBJECT_NAME_NOT_FOUND: i32 = -0x3FFF_FFCC;
/// 0xC000003A
pub const STATUS_OBJECT_PATH_NOT_FOUND: i32 = -0x3FFF_FFC6;
/// 0xC00000A2
pub const STATUS_MEDIA_WRITE_PROTECTED: i32 = -0x3FFF_FF5E;
/// 0xC0000103
pub const STATUS_NOT_A_DIRECTORY: i32 = -0x3FFF_FEFD;
/// 0xC00000BA
pub const STATUS_FILE_IS_A_DIRECTORY: i32 = -0x3FFF_FF46;
/// 0xC0000185
pub const STATUS_IO_DEVICE_ERROR: i32 = -0x3FFF_FE7B;
/// 0xC0000002
pub const STATUS_NOT_IMPLEMENTED: i32 = -0x3FFF_FFFE;

pub const FILE_ATTRIBUTE_READONLY: u32 = 0x0001;
pub const FILE_ATTRIBUTE_DIRECTORY: u32 = 0x0010;
pub const FILE_ATTRIBUTE_ARCHIVE: u32 = 0x0020;

/// Difference between the Windows epoch (1601-01-01) and the Unix epoch
/// (1970-01-01) in 100 ns units.
pub const UNIX_TO_WIN_EPOCH: u64 = 116_444_736_000_000_000;

/// APFS timestamps are nanoseconds since the Unix epoch; FILETIME is
/// 100 ns ticks since 1601.
pub fn apfs_time_to_filetime(ns: u64) -> (t: u64)
    ensures
        t == ns / 100 + UNIX_TO_WIN_EPOCH,
{
    ns / 100 + UNIX_TO_WIN_EPOCH
}

/// The NTSTATUS that reports an APFS error to Windows.
pub open spec fn spec_ntstatus(e: Error) -> i32 {
    match e {
        Error::NotFound => STATUS_OBJECT_NAME_NOT_FOUND,
        Error::NotADirectory => STATUS_NOT_A_DIRECTORY,
        Error::IsADirectory => STATUS_FILE_IS_A_DIRECTORY,
        _ => STATUS_IO_DEVICE_ERROR,
    }
}

pub fn ntstatus_of(e: &Error) -> (s: i32)
    ensures
        s == spec_ntstatus(*e),
{
    match e {
        Error::NotFound => STATUS_OBJECT_NAME_NOT_FOUND,
        Error::NotADirectory => STATUS_NOT_A_DIRECTORY,
        Error::IsADirectory => STATUS_FILE_IS_A_DIRECTORY,
        _ => STATUS_IO_DEVICE_ERROR,
    }
}

/// Windows attributes of an inode: read-only, plus directory or archive.
pub open spec fn spec_attributes(inode: InodeView) -> u32 {
    if spec_is_dir(inode.mode) {
        FILE_ATTRIBUTE_READONLY | FILE_ATTRIBUTE_DIRECTORY
    } else {
        FILE_ATTRIBUTE_READONLY | FILE_ATTRIBUTE_ARCHIVE
    }
}

pub fn attributes(inode: &Inode) -> (a: u32)
    ensures
        a == spec_attributes(inode@),
{
    let mut attrs = FILE_ATTRIBUTE_READONLY;
    if inode.is_dir() {
        attrs = attrs | FILE_ATTRIBUTE_DIRECTORY;
    } else {
        attrs = attrs | FILE_ATTRIBUTE_ARCHIVE;
    }
    attrs
}

/// The file information WinFsp shows for an inode.
#[derive(Debug, Clone, Copy, PartialEq, Eq, Structural)]
pub struct FileInfoModel {
    pub file_attributes: u32,
    pub file_size: u64,
    pub allocation_size: u64,
    pub creation_time: u64,
    pub last_access_time: u64,
    pub last_write_time: u64,
    pub change_time: u64,
    pub index_number: u64,
    pub reparse_tag: u32,
    pub hard_links: u32,
    pub ea_size: u32,
}

pub open spec fn spec_file_info(inode: InodeView) -> FileInfoModel {
    FileInfoModel {
        file_attributes: spec_attributes(inode),
        file_size: inode.size,
        allocation_size: if inode.alloced_size > inode.size { inode.alloced_size } else { inode.size },
        creation_time: (inode.create_time / 100 + UNIX_TO_WIN_EPOCH) as u64,
        last_access_time: (inode.access_time / 100 + UNIX_TO_WIN_EPOCH) as u64,
        last_write_time: (inode.mod_time / 100 + UNIX_TO_WIN_EPOCH) as u64,
        change_time: (inode.change_time / 100 + UNIX_TO_WIN_EPOCH) as u64,
        index_number: inode.id,
        reparse_tag: 0,
        hard_links: 0,
        ea_size: 0,
    }
}

pub fn file_info(inode: &Inode) -> (f: FileInfoModel)
    ensures
        f == spec_file_info(inode@),
{
    FileInfoModel {
        file_attributes: attributes(inode),
        file_size: inode.size,
        allocation_size: if inode.alloced_size > inode.size { inode.alloced_size } else { inode.size },
        creation_time: apfs_time_to_filetime(inode.create_time),
        last_access_time: apfs_time_to_filetime(inode.access_time),
        last_write_time: apfs_time_to_filetime(inode.mod_time),
        change_time: apfs_time_to_filetime(inode.change_time),
        index_number: inode.id,
        reparse_tag: 0,
        hard_links: 0,
        ea_size: 0,
    }
}

/// `p` with every `\` turned into `/`.
pub open spec fn posix_path(p: Seq<char>) -> Seq<char> {
    p.map_values(|c: char| if c == '\\' { '/' } else { c })
}

/// Accept Windows-style backslash paths.
pub fn norm_path(p: &str) -> (s: String)
    ensures
        s@ == posix_path(p@),
{
    let mut s = String::new();
    for ch in it: p.chars()
        invariant
            it.seq() == p@,
            s@ == posix_path(p@.take(it.index() as int)),
    {
        let ghost before = s@;
        push_char(&mut s, if ch == '\\' { '/' } else { ch });
        proof {
            let t = p@.take(it.index() + 1);
            assert(t.drop_last() =~= p@.take(it.index() as int));
            assert(posix_path(t) =~= posix_path(t.drop_last()).push(if ch == '\\' { '/' } else { ch }));
        }
    }
    assert(p@.take(p@.len() as int) =~= p@);
    s
}

/// The volume name stored in a volume superblock block.
pub open spec fn spec_volume_name(b: Seq<u8>) -> Seq<char> {
    spec_utf8_lossy(cstr(b.subrange(704, 960)))
}

/// A mounted volume: the container it lives in and what Explorer shows of
/// it.
pub struct ApfsFilesystem<D: BlockDevice> {
    pub container: Arc<Container<D>>,
    pub volume_index: usize,
    pub volume_name: String,
    pub total_bytes: u64,
    pub free_bytes: u64,
}

/// Free bytes of a container: its space manager's free-block count times
/// the block size, or 0 when that is unknown.
pub open spec fn spec_free_bytes<D: BlockDevice>(c: Container<D>) -> u64 {
    match spec_find_spaceman(c, 0, (c.superblock.xp_data_blocks & 0x7fff_ffff) as int) {
        Ok(n) => if n * c.superblock.block_size > u64::MAX {
            0
        } else {
            (n * c.superblock.block_size) as u64
        },
        Err(_) => 0,
    }
}

impl<D: BlockDevice> ApfsFilesystem<D> {
    pub fn new(container: Arc<Container<D>>, volume_index: usize) -> (r: Result<Self>)
        ensures
            match spec_volume_at(&*container, volume_index as int) {
                Err(e2) => r matches Err(e) && same_error(e, e2),
                Ok(b) => if container.superblock.block_count * container.superblock.block_size > u64::MAX {
                    r matches Err(e) && e == Error::Corrupt("container size out of range")
                } else {
                    r matches Ok(fs) && fs.container == container && fs.volume_index == volume_index
                        && fs.volume_name@ == spec_volume_name(b)
                        && fs.total_bytes == container.superblock.block_count * container.superblock.block_size
                        && fs.free_bytes == spec_free_bytes(*container)
                },
            },
    {
        let name = {
            let vol = container.volume(volume_index)?;
            vol.name().to_owned()
        };
        let bs = container.superblock.block_size as u64;
        let total_bytes = match container.superblock.block_count.checked_mul(bs) {
            Some(t) => t,
            None => return Err(Error::Corrupt("container size out of range")),
        };
        // Space is shared container-wide in APFS (same model macOS shows).
        // Read-only mount: the value can't change under us, so read once.
        let free_bytes = match container.free_block_count() {
            Ok(blocks) => match blocks.checked_mul(bs) {
                Some(f) => f,
                None => 0,
            },
            Err(_) => 0,
        };
        Ok(ApfsFilesystem { container, volume_index, volume_name: name, total_bytes, free_bytes })
    }

    /// Convert a Windows path (`\dir\file`) to an inode.
    pub fn resolve(&self, file_name: &str) -> (r: Result<Inode>)
        ensures
            match spec_volume_at(&*self.container, self.volume_index as int) {
                Err(e2) => r matches Err(e) && same_error(e, e2),
                Ok(b) => exists|v: Volume<D>|
                    v.container == &*self.container && apsb_fields(b, v.superblock)
                        && v.omap_paddr == v.superblock.omap_oid
                        && inode_result(r, #[trigger] spec_lookup_path(v, posix_path(file_name@))),
            },
    {
        let path = norm_path(file_name);
        let vol = self.container.volume(self.volume_index)?;
        let r = vol.lookup_path(path.as_str());
        assert(inode_result(r, spec_lookup_path(vol, posix_path(file_name@))));
        r
    }

    /// Read file data for WinFsp: `buf.len()` bytes at `offset`.
    pub fn read(&self, inode: &Inode, offset: u64, buf: &mut [u8]) -> (r: Result<usize>)
        ensures
            final(buf)@.len() == old(buf)@.len(),
            match spec_volume_at(&*self.container, self.volume_index as int) {
                Err(e2) => r matches Err(e) && same_error(e, e2),
                Ok(b) => exists|v: Volume<D>|
                    v.container == &*self.container && apsb_fields(b, v.superblock)
                        && v.omap_paddr == v.superblock.omap_oid
                        && read_result(r, final(buf)@, #[trigger] spec_read_file_at(v, inode@, offset, old(buf)@)),
            },
    {
        let vol = self.container.volume(self.volume_index)?;
        let r = vol.read_file_at(inode, offset, buf);
        assert(read_result(r, buf@, spec_read_file_at(vol, inode@, offset, old(buf)@)));
        r
    }

    /// The entries of directory `inode` with the file information of each.
    pub fn list_dir(&self, inode: &Inode) -> (r: Result<Vec<(String, FileInfoModel)>>)
        ensures
            !spec_is_dir(inode@.mode) ==> (r matches Err(e) && e == Error::NotADirectory),
            spec_is_dir(inode@.mode) ==> match spec_volume_at(&*self.container, self.volume_index as int) {
                Err(e2) => r matches Err(e) && same_error(e, e2),
                Ok(b) => exists|v: Volume<D>|
                    v.container == &*self.container && apsb_fields(b, v.superblock)
                        && v.omap_paddr == v.superblock.omap_oid
                        && listing_result(r, #[trigger] spec_list_dir(v, inode@.id)),
            },
    {
        if !inode.is_dir() {
            return Err(Error::NotADirectory);
        }
        let vol = self.container.volume(self.volume_index)?;
        let r = list_entries(&vol, inode.id);
        assert(listing_result(r, spec_list_dir(vol, inode@.id)));
        r
    }
}

/// Each entry of `es[..k]` with the file information of its inode.
pub open spec fn spec_listing<D: BlockDevice>(v: Volume<D>, es: Seq<DirEntryView>, k: int) -> core::result::Result<
    Seq<(Seq<char>, FileInfoModel)>,
    Error,
>
    decreases k,
{
    if k <= 0 {
        Ok(Seq::empty())
    } else {
        match spec_listing(v, es, k - 1) {
            Err(e) => Err(e),
            Ok(acc) => match spec_volume_inode(v, es[k - 1].file_id) {
                Err(e) => Err(e),
                Ok(iv) => Ok(acc.push((es[k - 1].name, spec_file_info(iv)))),
            },
        }
    }
}

/// The listing WinFsp shows for directory `dir_id`.
pub open spec fn spec_list_dir<D: BlockDevice>(v: Volume<D>, dir_id: u64) -> core::result::Result<
    Seq<(Seq<char>, FileInfoModel)>,
    Error,
> {
    match spec_read_dir_inode(v, dir_id) {
        Err(e) => Err(e),
        Ok(es) => spec_listing(v, es, es.len() as int),
    }
}

pub open spec fn listing_view(v: Seq<(String, FileInfoModel)>) -> Seq<(Seq<char>, FileInfoModel)> {
    v.map_values(|p: (String, FileInfoModel)| (p.0@, p.1))
}

pub open spec fn listing_result(
    r: Result<Vec<(String, FileInfoModel)>>,
    s: core::result::Result<Seq<(Seq<char>, FileInfoModel)>, Error>,
) -> bool {
    match r {
        Ok(l) => s == Ok::<Seq<(Seq<char>, FileInfoModel)>, Error>(listing_view(l@)),
        Err(e) => s matches Err(e2) && same_error(e, e2),
    }
}

proof fn lemma_listing_stops<D: BlockDevice>(v: Volume<D>, es: Seq<DirEntryView>, k: int, n: int)
    requires
        0 < k <= n,
        spec_listing(v, es, k) is Err,
    ensures
        spec_listing(v, es, n) == spec_listing(v, es, k),
    decreases n - k,
{
    if k < n {
        assert(spec_listing(v, es, k + 1) == spec_listing(v, es, k));
        lemma_listing_stops(v, es, k + 1, n);
    }
}

#[verifier::rlimit(30)]
fn list_entries<D: BlockDevice>(vol: &Volume<'_, D>, dir_id: u64) -> (r: Result<Vec<(String, FileInfoModel)>>)
    ensures
        listing_result(r, spec_list_dir(*vol, dir_id)),
{
    let entries = vol.read_dir_inode(dir_id)?;
    let ghost es = entries_view(entries@);
    let mut out: Vec<(String, FileInfoModel)> = Vec::new();
    let mut i: usize = 0;
    assert(listing_view(out@) =~= Seq::<(Seq<char>, FileInfoModel)>::empty());
    while i < entries.len()
        invariant
            i <= entries@.len(),
            es == entries_view(entries@),
            spec_read_dir_inode(*vol, dir_id) == Ok::<Seq<DirEntryView>, Error>(es),
            spec_listing(*vol, es, i as int) == Ok::<Seq<(Seq<char>, FileInfoModel)>, Error>(listing_view(out@)),
        decreases entries@.len() - i,
    {
        let ino = match vol.inode(entries[i].file_id) {
            Ok(x) => x,
            Err(e) => {
                proof {
                    lemma_listing_stops(*vol, es, i + 1, es.len() as int);
                }
                return Err(e);
            },
        };
        let ghost before = out@;
        let name = entries[i].name.clone();
        out.push((name, file_info(&ino)));
        assert(listing_view(out@) =~= listing_view(before).push((es[i as int].name, spec_file_info(ino@))));
        i += 1;
    }
    Ok(out)
}

} // verus!
