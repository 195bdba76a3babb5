//! Transparent decompression of decmpfs-compressed files.
//!
//! macOS compresses many files (especially system files) transparently:
//! the inode carries `UF_COMPRESSED`, the real content lives in the
//! `com.apple.decmpfs` xattr (small files) or the `com.apple.ResourceFork`
//! xattr (large files, in 64 KiB blocks), and the file has no regular data
//! stream.
//!
//! Supported: type 9 (uncompressed inline), 3 (zlib in xattr), 4 (zlib in
//! resource fork). LZVN (7/8), LZFSE (11/12) and LZBITMAP (14) are
//! detected and reported cleanly.

use crate::device::BlockDevice;
use crate::error::{same_error, Error};
use crate::fs::{spec_xattr, zero_seq, Inode, InodeView};
use crate::raw::{le32, le64, offset_out_of_range, truncated, SliceReader};
use crate::types::{XATTR_DECMPFS, XATTR_RESOURCE_FORK};
use crate::volume::Volume;
use crate::Result;
use miniz_oxide::inflate::DecompressError;
use vstd::prelude::*;
use vstd::arithmetic::div_mod::{lemma_fundamental_div_mod, lemma_fundamental_div_mod_converse, lemma_mod_pos_bound};

verus! {

/// 'cmpf' little-endian ("fpmc" when read as bytes).
pub const DECMPFS_MAGIC: u32 = 0x636d_7066;

// Constants per the linux-apfs project's raw.h (matches the macOS kernel).
pub const TYPE_ZLIB_XATTR: u32 = 3;
pub const TYPE_ZLIB_RSRC: u32 = 4;
pub const TYPE_LZVN_XATTR: u32 = 7;
pub const TYPE_LZVN_RSRC: u32 = 8;
pub const TYPE_PLAIN_XATTR: u32 = 9;
pub const TYPE_PLAIN_RSRC: u32 = 10;
pub const TYPE_LZFSE_XATTR: u32 = 11;
pub const TYPE_LZFSE_RSRC: u32 = 12;
pub const TYPE_LZBITMAP_RSRC: u32 = 14;

/// Uncompressed size of each resource-fork block.
pub const RSRC_BLOCK_SIZE: u64 = 0x10000;

/// Hard cap on a single decompressed allocation, guarding against
/// hostile headers claiming absurd sizes (per-block for type 4).
pub const MAX_INFLATE: usize = 0x400_0000;

#[verifier::external_type_specification]
#[verifier::external_body]
pub struct ExDecompressError(DecompressError);

/// What `miniz_oxide::inflate::decompress_to_vec_zlib_with_limit` makes of
/// `input` with output cap `max_size`: the decompressed bytes, or `None`
/// when the stream is invalid or would exceed the cap.
pub uninterp spec fn spec_zlib_decompress(input: Seq<u8>, max_size: usize) -> Option<Seq<u8>>;

/// `miniz_oxide::inflate::decompress_to_vec_zlib_with_limit`. Its source
/// never grows the output past `max_size`.
#[verifier::external_body]
fn zlib_decompress(input: &[u8], max_size: usize) -> (r: core::result::Result<Vec<u8>, DecompressError>)
    ensures
        r is Ok <==> spec_zlib_decompress(input@, max_size) is Some,
        r matches Ok(v) ==> spec_zlib_decompress(input@, max_size) == Some(v@) && v@.len() <= max_size,
{
    miniz_oxide::inflate::decompress_to_vec_zlib_with_limit(input, max_size)
}

struct Header {
    compression_type: u32,
    uncompressed_size: u64,
    /// Payload after the 16-byte header (for xattr-resident types).
    payload_offset: usize,
}

/// The (compression type, uncompressed size) a decmpfs xattr declares.
pub open spec fn spec_parse_header(x: Seq<u8>) -> core::result::Result<(u32, u64), Error> {
    if x.len() < 4 {
        Err(truncated())
    } else if le32(x, 0) != DECMPFS_MAGIC {
        Err(Error::Parse("bad decmpfs magic"))
    } else if x.len() < 16 {
        Err(truncated())
    } else {
        Ok((le32(x, 4) as u32, le64(x, 8) as u64))
    }
}

fn parse_header(xattr: &[u8]) -> (r: Result<Header>)
    ensures
        match spec_parse_header(xattr@) {
            Ok((t, s)) => r matches Ok(h) && h.compression_type == t && h.uncompressed_size == s && h.payload_offset == 16,
            Err(e) => r matches Err(e2) && e2 == e,
        },
{
    let mut r = SliceReader::new(xattr);
    let magic = r.u32()?;
    if magic != DECMPFS_MAGIC {
        return Err(Error::Parse("bad decmpfs magic"));
    }
    let compression_type = r.u32()?;
    let uncompressed_size = r.u64()?;
    Ok(Header { compression_type, uncompressed_size, payload_offset: 16 })
}

/// A zlib stream inflated with output cap `limit` (at most 64 MiB).
pub open spec fn spec_inflate(data: Seq<u8>, limit: usize) -> core::result::Result<Seq<u8>, Error> {
    match spec_zlib_decompress(data, if limit < MAX_INFLATE { limit } else { MAX_INFLATE }) {
        Some(v) => Ok(v),
        None => Err(Error::Corrupt("decmpfs zlib stream failed to decompress")),
    }
}

fn inflate_zlib(data: &[u8], limit: usize) -> (r: Result<Vec<u8>>)
    ensures
        match spec_inflate(data@, limit) {
            Ok(v) => r matches Ok(x) && x@ == v,
            Err(e) => r matches Err(e2) && e2 == e,
        },
{
    let cap = if limit < MAX_INFLATE { limit } else { MAX_INFLATE };
    match zlib_decompress(data, cap) {
        Ok(v) => Ok(v),
        Err(_) => Err(Error::Corrupt("decmpfs zlib stream failed to decompress")),
    }
}

/// A zlib payload block: raw-stored if the first byte's low nibble is 0xF.
pub open spec fn spec_zlib_block(data: Seq<u8>, limit: usize) -> core::result::Result<Seq<u8>, Error> {
    if data.len() == 0 {
        Ok(Seq::empty())
    } else if data[0] & 0x0F == 0x0F {
        Ok(data.skip(1))
    } else {
        spec_inflate(data, limit)
    }
}

fn zlib_block(data: &[u8], limit: usize) -> (r: Result<Vec<u8>>)
    ensures
        match spec_zlib_block(data@, limit) {
            Ok(v) => r matches Ok(x) && x@ == v,
            Err(e) => r matches Err(e2) && e2 == e,
        },
{
    if data.len() == 0 {
        return Ok(Vec::new());
    }
    if data[0] & 0x0F == 0x0F {
        let rest = vstd::slice::slice_subrange(data, 1, data.len());
        return Ok(crate::btree::copy_bytes(rest));
    }
    inflate_zlib(data, limit)
}

/// `n` bytes of `data` from `off`, zero-filled past its end.
pub open spec fn spec_copy_window(data: Seq<u8>, off: int, n: int) -> Seq<u8> {
    Seq::new(n as nat, |i: int| if off + i < data.len() { data[off + i] } else { 0u8 })
}

/// Copy `out.len()` bytes from `data[offset..]`, zero-filling any
/// shortfall (defensive: a well-formed file never needs the fill).
fn copy_window(data: &[u8], offset: u64, out: &mut [u8]) -> (r: Result<usize>)
    ensures
        r == Ok::<usize, Error>(old(out)@.len() as usize),
        final(out)@ == spec_copy_window(data@, offset as int, old(out)@.len() as int),
{
    let n = out.len();
    let mut i: usize = 0;
    while i < n
        invariant
            i <= n,
            out@.len() == n,
            forall|j: int| 0 <= j < i ==> out@[j] == (if offset + j < data@.len() { data@[offset + j] } else { 0u8 }),
        decreases n - i,
    {
        let within = offset < data.len() as u64 && (i as u64) < data.len() as u64 - offset;
        out[i] = if within { data[offset as usize + i] } else { 0 };
        i += 1;
    }
    assert(out@ =~= spec_copy_window(data@, offset as int, n as int));
    Ok(n)
}

/// The size Explorer should report for a compressed file (from the
/// decmpfs header).
pub open spec fn spec_uncompressed_size<D: BlockDevice>(vol: Volume<D>, inode: InodeView) -> core::result::Result<u64, Error> {
    match spec_xattr(vol, inode.id, header_xattr_name()) {
        Err(e) => Err(e),
        Ok(x) => match spec_parse_header(x) {
            Err(e) => Err(e),
            Ok((_, size)) => Ok(size),
        },
    }
}

/// The size Explorer should report for a compressed file (from the
/// decmpfs header; used when the inode doesn't carry it).
pub fn uncompressed_size<D: BlockDevice>(vol: &Volume<'_, D>, inode: &Inode) -> (r: Result<u64>)
    ensures
        match spec_uncompressed_size(*vol, inode@) {
            Ok(s) => r == Ok::<u64, Error>(s),
            Err(e2) => r matches Err(e) && same_error(e, e2),
        },
{
    let xattr = header_xattr(vol, inode)?;
    Ok(parse_header(xattr.as_slice())?.uncompressed_size)
}

/// Big-endian 32-bit value of `s[off..off + 4]`.
pub open spec fn be32(s: Seq<u8>, off: int) -> int {
    s[off] as int * 0x100_0000 + s[off + 1] as int * 0x1_0000 + s[off + 2] as int * 0x100 + s[off + 3] as int
}

/// One pass of the resource-fork block loop: the rest of the output from
/// output position `done`, with `acc` the output so far.
pub open spec fn spec_rsrc_loop(
    rs: Seq<u8>,
    size: u64,
    offset: u64,
    table_base: int,
    n: int,
    done: int,
    acc: Seq<u8>,
) -> core::result::Result<Seq<u8>, Error>
    decreases n - done,
{
    if done >= n || done < 0 {
        Ok(acc)
    } else {
        let pos = offset + done;
        let block_idx = pos / (RSRC_BLOCK_SIZE as int);
        let within = pos % (RSRC_BLOCK_SIZE as int);
        let eoff = table_base + 4 + block_idx * 8;
        if eoff > rs.len() {
            Err(offset_out_of_range())
        } else if eoff + 8 > rs.len() {
            Err(truncated())
        } else {
            let b_off = le32(rs, eoff);
            let b_len = le32(rs, eoff + 4);
            let start = table_base + b_off;
            let end = start + b_len;
            if start > usize::MAX {
                Err(Error::Corrupt("decmpfs block offset overflow"))
            } else if end > usize::MAX {
                Err(Error::Corrupt("decmpfs block length overflow"))
            } else if end > rs.len() {
                Err(Error::Corrupt("decmpfs block out of resource bounds"))
            } else {
                let left = size - block_idx * (RSRC_BLOCK_SIZE as int);
                let bul = if left < RSRC_BLOCK_SIZE { left } else { RSRC_BLOCK_SIZE as int };
                match spec_zlib_block(rs.subrange(start, end), bul as usize) {
                    Err(e) => Err(e),
                    Ok(block) => {
                        let avail = if bul > within { bul - within } else { 0 };
                        let take = if avail < n - done { avail } else { n - done };
                        if take == 0 {
                            Ok(acc)
                        } else {
                            let acc2 = acc.take(done) + spec_copy_window(block, within, take) + acc.skip(done + take);
                            spec_rsrc_loop(rs, size, offset, table_base, n, done + take, acc2)
                        }
                    },
                }
            }
        }
    }
}

/// Type 4 content: the output buffer after reading `out.len()` bytes at
/// `offset` from zlib blocks in the resource fork.
pub open spec fn spec_read_rsrc<D: BlockDevice>(
    vol: Volume<D>,
    inode: InodeView,
    size: u64,
    offset: u64,
    out: Seq<u8>,
) -> core::result::Result<Seq<u8>, Error> {
    match spec_xattr(vol, inode.id, XATTR_RESOURCE_FORK@) {
        Err(e) => Err(e),
        Ok(rs) => if rs.len() < 4 {
            Err(truncated())
        } else {
            let data_off = be32(rs, 0);
            if data_off > rs.len() {
                Err(offset_out_of_range())
            } else if data_off + 4 > rs.len() {
                Err(truncated())
            } else if data_off + 8 > rs.len() {
                Err(truncated())
            } else {
                let table_base = data_off + 4;
                let nblocks = le32(rs, table_base);
                let expect = (size + (RSRC_BLOCK_SIZE - 1)) / (RSRC_BLOCK_SIZE as int);
                if nblocks != expect {
                    Err(Error::Corrupt("decmpfs resource block count mismatch"))
                } else {
                    spec_rsrc_loop(rs, size, offset, table_base, out.len() as int, 0, out)
                }
            }
        },
    }
}

/// A read of `buf.len()` bytes at `offset` from a decmpfs-compressed file:
/// the count and the whole buffer afterwards.
pub open spec fn spec_compressed_read<D: BlockDevice>(
    vol: Volume<D>,
    inode: InodeView,
    offset: u64,
    buf: Seq<u8>,
) -> core::result::Result<(int, Seq<u8>), Error> {
    match spec_xattr(vol, inode.id, header_xattr_name()) {
        Err(e) => Err(e),
        Ok(x) => match spec_parse_header(x) {
            Err(e) => Err(e),
            Ok((ct, size)) => if offset >= size {
                Ok((0, buf))
            } else {
                let want = if buf.len() < size - offset { buf.len() as int } else { size - offset };
                let payload = x.skip(if 16 < x.len() { 16 } else { x.len() as int });
                if ct == TYPE_PLAIN_XATTR {
                    let data = if payload.len() >= 1 { payload.skip(1) } else { Seq::empty() };
                    Ok((want, spec_copy_window(data, offset as int, want) + buf.skip(want)))
                } else if ct == TYPE_ZLIB_XATTR {
                    match spec_zlib_block(payload, size as usize) {
                        Err(e) => Err(e),
                        Ok(data) => Ok((want, spec_copy_window(data, offset as int, want) + buf.skip(want))),
                    }
                } else if ct == TYPE_ZLIB_RSRC {
                    match spec_read_rsrc(vol, inode, size, offset, buf.take(want)) {
                        Err(e) => Err(e),
                        Ok(o) => Ok((want, o + buf.skip(want))),
                    }
                } else if ct == TYPE_LZVN_XATTR || ct == TYPE_LZVN_RSRC {
                    Err(Error::Unsupported("decmpfs LZVN compression (planned)"))
                } else if ct == TYPE_PLAIN_RSRC {
                    Err(Error::Unsupported("decmpfs uncompressed resource fork (planned)"))
                } else if ct == TYPE_LZFSE_XATTR || ct == TYPE_LZFSE_RSRC {
                    Err(Error::Unsupported("decmpfs LZFSE compression (planned)"))
                } else if ct == TYPE_LZBITMAP_RSRC {
                    Err(Error::Unsupported("decmpfs LZBITMAP compression (planned)"))
                } else {
                    Err(Error::Unsupported("unknown decmpfs compression type"))
                }
            },
        },
    }
}

/// Name of the xattr that carries the compression header.
pub open spec fn header_xattr_name() -> Seq<char> {
    XATTR_DECMPFS@
}

/// The compression header xattr of `inode`.
fn header_xattr<D: BlockDevice>(vol: &Volume<'_, D>, inode: &Inode) -> (r: Result<Vec<u8>>)
    ensures
        crate::fs::vec_result(r, spec_xattr(*vol, inode@.id, header_xattr_name())),
{
    vol.xattr(inode.id, XATTR_DECMPFS)
}

/// Overwrite `out[at..at + block.len()]` with `block`.
fn splice(out: &mut [u8], at: usize, block: &[u8])
    requires
        at + block@.len() <= old(out)@.len(),
    ensures
        final(out)@ == old(out)@.take(at as int) + block@ + old(out)@.skip(at + block@.len()),
{
    let ghost o = old(out)@;
    let n = block.len();
    let mut i: usize = 0;
    while i < n
        invariant
            i <= n,
            n == block@.len(),
            at + n <= out.len(),
            out@.len() == o.len(),
            forall|j: int| 0 <= j < at ==> out@[j] == o[j],
            forall|j: int| at + n <= j < o.len() ==> out@[j] == o[j],
            forall|j: int| at <= j < at + i ==> out@[j] == block@[j - at],
        decreases n - i,
    {
        out[at + i] = block[i];
        i += 1;
    }
    assert(out@ =~= o.take(at as int) + block@ + o.skip(at + n));
}

/// Type 4: zlib blocks inside the resource fork.
///
/// Resource fork layout (offsets in the ResourceFork xattr value):
///   0x00  u32 BE  data section offset (0x100)
///   0x04  u32 BE  map section offset
///   0x08  u32 BE  data section length
///   0x0c  u32 BE  map section length
/// At the data section offset:
///   u32 LE  (ignored; carries a length in files written by macOS)
///   u32 LE  block count
///   block count × { u32 LE offset, u32 LE length }
///     (block data lives at data_offset + 4 + offset)
/// Each block decompresses to 64 KiB (the last one to the remainder).
#[verifier::rlimit(30)]
fn read_rsrc_zlib<D: BlockDevice>(vol: &Volume<'_, D>, inode: &Inode, size: u64, offset: u64, out: &mut [u8]) -> (r: Result<usize>)
    requires
        offset + old(out)@.len() <= size,
    ensures
        final(out)@.len() == old(out)@.len(),
        match spec_read_rsrc(*vol, inode@, size, offset, old(out)@) {
            Ok(o) => r == Ok::<usize, Error>(old(out)@.len() as usize) && final(out)@ == o,
            Err(e2) => r matches Err(e) && same_error(e, e2),
        },
{
    let rsrc = vol.xattr(inode.id, XATTR_RESOURCE_FORK)?;
    let mut r = SliceReader::new(rsrc.as_slice());
    let b = r.bytes(4)?;
    let data_off = (b[0] as usize) * 0x100_0000 + (b[1] as usize) * 0x1_0000 + (b[2] as usize) * 0x100 + b[3] as usize;
    // Skip map offset / lengths; the reader only needs the data section.
    let mut d = SliceReader::at(rsrc.as_slice(), data_off)?;
    let _ignored = d.u32()?;
    let table_base = data_off + 4;
    let mut t = SliceReader::at(rsrc.as_slice(), table_base)?;
    let nblocks = t.u32()? as u64;
    let expect_blocks = (size / RSRC_BLOCK_SIZE) + if size % RSRC_BLOCK_SIZE != 0 { 1 } else { 0 };
    assert(expect_blocks == (size + (RSRC_BLOCK_SIZE - 1)) / (RSRC_BLOCK_SIZE as int));
    if nblocks != expect_blocks {
        return Err(Error::Corrupt("decmpfs resource block count mismatch"));
    }
    let n = out.len();
    let mut done: usize = 0;
    while done < n
        invariant
            done <= n,
            n == out@.len(),
            n == old(out)@.len(),
            offset + n <= size,
            table_base == be32(rsrc@, 0) + 4,
            table_base <= rsrc@.len(),
            spec_read_rsrc(*vol, inode@, size, offset, old(out)@)
                == spec_rsrc_loop(rsrc@, size, offset, table_base as int, n as int, done as int, out@),
        ensures
            out@.len() == n,
            spec_read_rsrc(*vol, inode@, size, offset, old(out)@) == Ok::<Seq<u8>, Error>(out@),
        decreases n - done,
    {
        let pos = offset + done as u64;
        let block_idx = pos / RSRC_BLOCK_SIZE;
        let within = (pos % RSRC_BLOCK_SIZE) as usize;

        // Table entry for this block.
        let eoff = table_base as u64 + 4 + block_idx * 8;
        if eoff > rsrc.len() as u64 {
            return Err(Error::Parse("reader offset out of range"));
        }
        let mut e = SliceReader::at(rsrc.as_slice(), eoff as usize)?;
        let b_off = e.u32()? as usize;
        let b_len = e.u32()? as usize;
        let start = match table_base.checked_add(b_off) {
            Some(s) => s,
            None => return Err(Error::Corrupt("decmpfs block offset overflow")),
        };
        let end = match start.checked_add(b_len) {
            Some(x) => x,
            None => return Err(Error::Corrupt("decmpfs block length overflow")),
        };
        if end > rsrc.len() {
            return Err(Error::Corrupt("decmpfs block out of resource bounds"));
        }

        let left = size - block_idx * RSRC_BLOCK_SIZE;
        let block_uncomp_len = (if left < RSRC_BLOCK_SIZE { left } else { RSRC_BLOCK_SIZE }) as usize;
        let block = zlib_block(vstd::slice::slice_subrange(rsrc.as_slice(), start, end), block_uncomp_len)?;

        let avail = block_uncomp_len.saturating_sub(within);
        let take = if avail < n - done { avail } else { n - done };
        if take == 0 {
            break;
        }
        let mut piece = crate::fs::zeros(take);
        copy_window(block.as_slice(), within as u64, piece.as_mut_slice())?;
        splice(out, done, piece.as_slice());
        done += take;
    }
    Ok(n)
}

/// Read `buf.len()` bytes at `offset` from a decmpfs-compressed file.
/// Mirrors `Volume::read_file_at` semantics.
#[verifier::rlimit(30)]
pub fn read_at<D: BlockDevice>(vol: &Volume<'_, D>, inode: &Inode, offset: u64, buf: &mut [u8]) -> (r: Result<usize>)
    ensures
        final(buf)@.len() == old(buf)@.len(),
        crate::fs::read_result(r, final(buf)@, spec_compressed_read(*vol, inode@, offset, old(buf)@)),
{
    let xattr = header_xattr(vol, inode)?;
    let hdr = parse_header(xattr.as_slice())?;
    let size = hdr.uncompressed_size;
    if offset >= size {
        return Ok(0);
    }
    let want: usize = if (buf.len() as u64) < size - offset { buf.len() } else { (size - offset) as usize };
    let ghost old_buf = old(buf)@;
    let start = if hdr.payload_offset < xattr.len() { hdr.payload_offset } else { xattr.len() };
    let payload = vstd::slice::slice_subrange(xattr.as_slice(), start, xattr.len());
    assert(payload@ =~= xattr@.skip(if 16 < xattr@.len() { 16 } else { xattr@.len() as int }));
    let mut window = crate::fs::zeros(want);
    if hdr.compression_type == TYPE_PLAIN_XATTR {
        // Raw data with a single prefix byte to skip.
        let data = if payload.len() >= 1 {
            vstd::slice::slice_subrange(payload, 1, payload.len())
        } else {
            vstd::slice::slice_subrange(payload, 0, 0)
        };
        assert(data@ =~= (if payload@.len() >= 1 { payload@.skip(1) } else { Seq::empty() }));
        copy_window(data, offset, window.as_mut_slice())?;
    } else if hdr.compression_type == TYPE_ZLIB_XATTR {
        let data = zlib_block(payload, size as usize)?;
        copy_window(data.as_slice(), offset, window.as_mut_slice())?;
    } else if hdr.compression_type == TYPE_ZLIB_RSRC {
        let mut i: usize = 0;
        while i < want
            invariant
                i <= want <= buf@.len(),
                window@.len() == want,
                forall|j: int| 0 <= j < i ==> window@[j] == buf@[j],
            decreases want - i,
        {
            window.set(i, buf[i]);
            i += 1;
        }
        assert(window@ =~= old_buf.take(want as int));
        read_rsrc_zlib(vol, inode, size, offset, window.as_mut_slice())?;
    } else if hdr.compression_type == TYPE_LZVN_XATTR || hdr.compression_type == TYPE_LZVN_RSRC {
        return Err(Error::Unsupported("decmpfs LZVN compression (planned)"));
    } else if hdr.compression_type == TYPE_PLAIN_RSRC {
        return Err(Error::Unsupported("decmpfs uncompressed resource fork (planned)"));
    } else if hdr.compression_type == TYPE_LZFSE_XATTR || hdr.compression_type == TYPE_LZFSE_RSRC {
        return Err(Error::Unsupported("decmpfs LZFSE compression (planned)"));
    } else if hdr.compression_type == TYPE_LZBITMAP_RSRC {
        return Err(Error::Unsupported("decmpfs LZBITMAP compression (planned)"));
    } else {
        return Err(Error::Unsupported("unknown decmpfs compression type"));
    }
    splice(buf, 0, window.as_slice());
    assert(buf@ =~= window@ + old_buf.skip(want as int));
    Ok(want)
}

/// Reads of a compressed file at or past its uncompressed size return
/// nothing and leave the buffer as it was; reads before it return
/// `min(len, size - offset)` bytes or fail.
pub proof fn lemma_compressed_read_count<D: BlockDevice>(vol: Volume<D>, inode: InodeView, offset: u64, buf: Seq<u8>)
    ensures
        spec_uncompressed_size(vol, inode) matches Ok(size) ==> (offset >= size ==> spec_compressed_read(
            vol,
            inode,
            offset,
            buf,
        ) == Ok::<(int, Seq<u8>), Error>((0, buf))),
        spec_uncompressed_size(vol, inode) matches Ok(size) ==> (offset < size ==> (spec_compressed_read(
            vol,
            inode,
            offset,
            buf,
        ) matches Ok((n, _)) ==> n == (if buf.len() < size - offset {
            buf.len() as int
        } else {
            size - offset
        }))),
{
}

/// The decompressed content of compressed file `inode`: what a read of its
/// whole uncompressed size from the start gives.
pub open spec fn spec_decompressed_content<D: BlockDevice>(vol: Volume<D>, inode: InodeView) -> core::result::Result<Seq<u8>, Error> {
    match spec_uncompressed_size(vol, inode) {
        Err(e) => Err(e),
        Ok(size) => match spec_compressed_read(vol, inode, 0, zero_seq(size as nat)) {
            Err(e) => Err(e),
            Ok((n, b)) => Ok(b.take(n)),
        },
    }
}

/// Byte `p` of a type-4 file's content, from the zlib block that holds it,
/// or `None` if that block cannot be read.
pub open spec fn spec_rsrc_byte(rs: Seq<u8>, size: u64, table_base: int, p: int) -> Option<u8> {
    let block_idx = p / (RSRC_BLOCK_SIZE as int);
    let within = p % (RSRC_BLOCK_SIZE as int);
    let eoff = table_base + 4 + block_idx * 8;
    if eoff + 8 > rs.len() {
        None
    } else {
        let start = table_base + le32(rs, eoff);
        let end = start + le32(rs, eoff + 4);
        if start > usize::MAX || end > usize::MAX || end > rs.len() {
            None
        } else {
            let left = size - block_idx * (RSRC_BLOCK_SIZE as int);
            let bul = if left < RSRC_BLOCK_SIZE { left } else { RSRC_BLOCK_SIZE as int };
            match spec_zlib_block(rs.subrange(start, end), bul as usize) {
                Err(_) => None,
                Ok(block) => Some(if within < block.len() { block[within] } else { 0u8 }),
            }
        }
    }
}

/// A successful pass of the resource-fork loop fills each position from
/// `done` on with the content byte at its place in the file, and keeps the
/// ones before.
proof fn lemma_rsrc_loop_bytes(rs: Seq<u8>, size: u64, offset: u64, tb: int, n: int, done: int, acc: Seq<u8>)
    requires
        spec_rsrc_loop(rs, size, offset, tb, n, done, acc) is Ok,
        0 <= done <= n,
        acc.len() == n,
        offset + n <= size,
    ensures
        ({
            let out = spec_rsrc_loop(rs, size, offset, tb, n, done, acc)->Ok_0;
            &&& out.len() == n
            &&& forall|j: int| 0 <= j < done ==> #[trigger] out[j] == acc[j]
            &&& forall|j: int| done <= j < n ==> spec_rsrc_byte(rs, size, tb, offset + j) == Some(#[trigger] out[j])
        }),
    decreases n - done,
{
    if done < n {
        let bs = RSRC_BLOCK_SIZE as int;
        let pos = offset + done;
        let block_idx = pos / bs;
        let within = pos % bs;
        lemma_fundamental_div_mod(pos, bs);
        lemma_mod_pos_bound(pos, bs);
        assert(pos == block_idx * bs + within) by (nonlinear_arith)
            requires pos == bs * block_idx + within;
        let left = size - block_idx * bs;
        let bul = if left < RSRC_BLOCK_SIZE { left } else { bs };
        assert(within < bul);
        let eoff = tb + 4 + block_idx * 8;
        let start = tb + le32(rs, eoff);
        let end = start + le32(rs, eoff + 4);
        let block = spec_zlib_block(rs.subrange(start, end), bul as usize)->Ok_0;
        let avail = bul - within;
        let take = if avail < n - done { avail } else { n - done };
        let acc2 = acc.take(done) + spec_copy_window(block, within, take) + acc.skip(done + take);
        assert(acc2.len() == n);
        lemma_rsrc_loop_bytes(rs, size, offset, tb, n, done + take, acc2);
        let out = spec_rsrc_loop(rs, size, offset, tb, n, done, acc)->Ok_0;
        assert(out == spec_rsrc_loop(rs, size, offset, tb, n, done + take, acc2)->Ok_0);
        assert forall|j: int| 0 <= j < done implies #[trigger] out[j] == acc[j] by {
            assert(out[j] == acc2[j]);
        }
        assert forall|j: int| done <= j < n implies spec_rsrc_byte(rs, size, tb, offset + j) == Some(#[trigger] out[j]) by {
            if j < done + take {
                assert(out[j] == acc2[j]);
                assert(acc2[j] == spec_copy_window(block, within, take)[j - done]);
                let p = offset + j;
                assert(p == block_idx * bs + (within + (j - done)));
                lemma_fundamental_div_mod_converse(p, bs, block_idx, within + (j - done));
            }
        }
    }
}

/// A read of a compressed file at any offset gives the file's content at
/// that offset: the bytes it returns are the decompressed content from
/// there, and the rest of the buffer is left as it was.
pub proof fn lemma_compressed_read_content<D: BlockDevice>(vol: Volume<D>, inode: InodeView, offset: u64, buf: Seq<u8>)
    requires
        spec_decompressed_content(vol, inode) is Ok,
    ensures
        spec_compressed_read(vol, inode, offset, buf) matches Ok((n, b)) ==> {
            let c = spec_decompressed_content(vol, inode)->Ok_0;
            &&& b.len() == buf.len()
            &&& b.skip(n) == buf.skip(n)
            &&& (n > 0 ==> offset + n <= c.len() && b.take(n) == c.subrange(offset as int, offset + n))
        },
{
    let size = spec_uncompressed_size(vol, inode)->Ok_0;
    let x = spec_xattr(vol, inode.id, header_xattr_name())->Ok_0;
    let z = zero_seq(size as nat);
    let c = spec_decompressed_content(vol, inode)->Ok_0;
    if let Ok((n, b)) = spec_compressed_read(vol, inode, offset, buf) {
        let ct = spec_parse_header(x)->Ok_0.0;
        if offset >= size {
        } else {
            let want = if buf.len() < size - offset { buf.len() as int } else { size - offset };
            let payload = x.skip(if 16 < x.len() { 16 } else { x.len() as int });
            assert(size > 0);
            if ct == TYPE_PLAIN_XATTR || ct == TYPE_ZLIB_XATTR {
                let data = if ct == TYPE_PLAIN_XATTR {
                    if payload.len() >= 1 { payload.skip(1) } else { Seq::empty() }
                } else {
                    spec_zlib_block(payload, size as usize)->Ok_0
                };
                assert(c =~= spec_copy_window(data, 0, size as int));
                assert(b.take(n) =~= c.subrange(offset as int, offset + n));
                assert(b.skip(n) =~= buf.skip(n));
            } else {
                assert(ct == TYPE_ZLIB_RSRC);
                let rs = spec_xattr(vol, inode.id, XATTR_RESOURCE_FORK@)->Ok_0;
                let tb = be32(rs, 0) + 4;
                let o = spec_read_rsrc(vol, inode, size, offset, buf.take(want))->Ok_0;
                let o0 = spec_read_rsrc(vol, inode, size, 0, z.take(size as int))->Ok_0;
                lemma_rsrc_loop_bytes(rs, size, offset, tb, want, 0, buf.take(want));
                lemma_rsrc_loop_bytes(rs, size, 0, tb, size as int, 0, z.take(size as int));
                assert(c =~= o0);
                assert forall|j: int| 0 <= j < n implies #[trigger] b.take(n)[j] == c.subrange(offset as int, offset + n)[j] by {
                    assert(b[j] == o[j]);
                    assert(spec_rsrc_byte(rs, size, tb, offset + j) == Some(o[j]));
                    assert(spec_rsrc_byte(rs, size, tb, 0 + (offset + j)) == Some(o0[offset + j]));
                }
                assert(b.take(n) =~= c.subrange(offset as int, offset + n));
                assert(b.skip(n) =~= buf.skip(n));
            }
        }
    }
}

} // verus!
