//! End-to-end: build a small fresh container in memory (what `mkapfs`
//! would produce, reduced to what the reader and the fixture tool touch),
//! inject the fixture's files, and read everything back through the
//! container, volume, object map, B-tree and file-system layers.

use apfs_core::checksum::{fletcher64_object, verify_object};
use apfs_core::cli::{find_apfs, open_partition};
use apfs_core::device::{BlockDevice, MemDevice, SliceDevice};
use apfs_core::fixture::{
    alloc_blocks, big_data, build_drec, build_file_extent, build_inode, discover, discover_spaceman, inject,
    jkey, parse_node, readme_data, serialize_node, sort_records, w64, write_data, FixtureError, Image,
    InodeSpec, NodeImage, Record,
};
use apfs_core::gpt::read_partitions;
use apfs_core::mount::{ApfsFilesystem, STATUS_OBJECT_NAME_NOT_FOUND};
use apfs_core::types::{
    APFS_TYPE_INODE, APFS_TYPE_XATTR, DT_REG, INODE_HAS_UNCOMPRESSED_SIZE, ROOT_DIR_INO_NUM, S_IFDIR, S_IFREG,
    UF_COMPRESSED, XATTR_DATA_EMBEDDED, XATTR_DATA_STREAM,
};
use apfs_core::{Container, Error};
use std::sync::Arc;

const BS: usize = 4096;
const BLOCKS: usize = 64;
const XID: u64 = 5;
const TIMES: u64 = 1_700_000_000_000_000_000;

fn put16(b: &mut [u8], o: usize, v: u16) {
    b[o..o + 2].copy_from_slice(&v.to_le_bytes());
}
fn put32(b: &mut [u8], o: usize, v: u32) {
    b[o..o + 4].copy_from_slice(&v.to_le_bytes());
}
fn put64(b: &mut [u8], o: usize, v: u64) {
    b[o..o + 8].copy_from_slice(&v.to_le_bytes());
}

fn obj(b: &mut [u8], oid: u64, otype: u32, subtype: u32) {
    put64(b, 8, oid);
    put64(b, 16, XID);
    put32(b, 24, otype);
    put32(b, 28, subtype);
}

fn seal(b: &mut [u8]) {
    let ck = fletcher64_object(b);
    b[..8].copy_from_slice(&ck.to_le_bytes());
}

fn blk(img: &mut [u8], n: usize) -> &mut [u8] {
    &mut img[n * BS..(n + 1) * BS]
}

fn nx_superblock(b: &mut [u8]) {
    obj(b, 1, 0x8000_0001, 0);
    put32(b, 32, 0x4253_584E); // NXSB
    put32(b, 36, BS as u32);
    put64(b, 40, BLOCKS as u64);
    put64(b, 88, 0x500); // next oid
    put64(b, 96, XID + 1); // next xid
    put32(b, 104, 1); // descriptor blocks
    put32(b, 108, 1); // data blocks
    put64(b, 112, 1); // descriptor base
    put64(b, 120, 2); // data base
    put64(b, 152, 0x400); // space manager oid
    put64(b, 160, 3); // object map
    put32(b, 180, 100);
    put64(b, 184, 0x402); // first volume
    seal(b);
}

/// A single-leaf, fixed-size object map node mapping `(oid, XID)` to a
/// physical block.
fn omap_leaf(b: &mut [u8], paddr: u64, entries: &[(u64, u64)]) {
    obj(b, paddr, 0x4000_0002, 0x0b);
    put16(b, 32, 0x7); // root | leaf | fixed
    put32(b, 36, entries.len() as u32);
    put16(b, 40, 0);
    put16(b, 42, 64);
    let ka = 56 + 64;
    let ve = BS - 40;
    for (i, (oid, target)) in entries.iter().enumerate() {
        put16(b, 56 + 4 * i, (16 * i) as u16);
        put16(b, 58 + 4 * i, (16 * (i + 1)) as u16);
        put64(b, ka + 16 * i, *oid);
        put64(b, ka + 16 * i + 8, XID);
        let v = ve - 16 * (i + 1);
        put32(b, v, 0);
        put32(b, v + 4, BS as u32);
        put64(b, v + 8, *target);
    }
    put32(b, ve + 4, BS as u32);
    put32(b, ve + 8, 16);
    put32(b, ve + 12, 16);
    put64(b, ve + 24, entries.len() as u64);
    put64(b, ve + 32, 1);
    seal(b);
}

fn omap_object(b: &mut [u8], paddr: u64, tree: u64) {
    obj(b, paddr, 0x4000_000b, 0);
    put32(b, 40, 0x4000_0002);
    put64(b, 48, tree);
    seal(b);
}

/// An empty variable-size root leaf, ready for records.
fn empty_root_leaf(b: &mut [u8], oid: u64, otype: u32, subtype: u32) {
    obj(b, oid, otype, subtype);
    put16(b, 32, 0x3); // root | leaf
    put16(b, 40, 0);
    put16(b, 42, 0);
    let ve = BS - 40;
    put32(b, ve + 4, BS as u32);
    put64(b, ve + 32, 1);
    seal(b);
}

/// A fresh 64-block container with one empty, case-insensitive volume
/// called "TestVol".
fn fresh_image() -> Image {
    let mut d = vec![0u8; BLOCKS * BS];
    nx_superblock(blk(&mut d, 0));
    nx_superblock(blk(&mut d, 1));
    // Space manager (ephemeral, in the checkpoint data area).
    {
        let b = blk(&mut d, 2);
        obj(b, 0x400, 0x8000_0005, 0);
        put32(b, 32, BS as u32);
        put64(b, 48, BLOCKS as u64);
        put64(b, 56, 1);
        put32(b, 64, 1);
        put64(b, 72, 48); // free blocks
        put32(b, 80, 0x200); // CIB address array offset
        put64(b, 0x200, 9);
        seal(b);
    }
    omap_object(blk(&mut d, 3), 3, 4);
    omap_leaf(blk(&mut d, 4), 4, &[(0x402, 5)]);
    // Volume superblock.
    {
        let b = blk(&mut d, 5);
        obj(b, 0x402, 0x0000_000d, 0);
        put32(b, 32, 0x4253_5041); // APSB
        put64(b, 56, 0x1); // case-insensitive
        put64(b, 128, 6); // volume object map
        put64(b, 136, 0x404); // fs tree root
        put64(b, 144, 8); // extent-reference tree
        put64(b, 176, 16); // next object id
        put64(b, 264, 0x1); // unencrypted
        b[704..711].copy_from_slice(b"TestVol");
        seal(b);
    }
    omap_object(blk(&mut d, 6), 6, 7);
    omap_leaf(blk(&mut d, 7), 7, &[(0x404, 10)]);
    empty_root_leaf(blk(&mut d, 8), 8, 0x4000_0002, 0x0f);
    // Chunk-info block.
    {
        let b = blk(&mut d, 9);
        obj(b, 9, 0x4000_0007, 0);
        put32(b, 36, 1);
        put32(b, 56, BLOCKS as u32);
        put32(b, 60, 48);
        put64(b, 64, 11);
        seal(b);
    }
    empty_root_leaf(blk(&mut d, 10), 0x404, 0x0000_0002, 0x0e);
    // Bitmap: blocks 0..16 in use.
    {
        let b = blk(&mut d, 11);
        b[0] = 0xFF;
        b[1] = 0xFF;
    }
    let mut img = Image { data: d };
    let root_dir = build_inode(&InodeSpec {
        id: ROOT_DIR_INO_NUM,
        parent: 1,
        name: "root".to_string(),
        mode: S_IFDIR | 0o755,
        nchildren_or_nlink: 0,
        times: TIMES,
        size: 0,
        alloced: 0,
        has_dstream: false,
    });
    let node = NodeImage { paddr: 10, records: vec![root_dir], is_root: true, table_len: 0 };
    serialize_node(&mut img, &node).unwrap();
    img
}

fn packed_txt_bytes() -> Vec<u8> {
    b"compress me ".iter().copied().cycle().take(3000).collect()
}

fn packed_rsrc_bytes() -> Vec<u8> {
    (0..100_000u32).map(|i| ((i / 9) % 251) as u8).collect()
}

/// A decmpfs header: magic, compression type, uncompressed size.
fn decmpfs_header(kind: u32, size: u64) -> Vec<u8> {
    let mut h = Vec::new();
    h.extend_from_slice(&0x636d_7066u32.to_le_bytes());
    h.extend_from_slice(&kind.to_le_bytes());
    h.extend_from_slice(&size.to_le_bytes());
    h
}

/// An xattr record named `name` on `id` with the given value bytes.
fn xattr_record(id: u64, name: &str, val: Vec<u8>) -> Record {
    let mut key = jkey(id, APFS_TYPE_XATTR);
    key.extend_from_slice(&((name.len() + 1) as u16).to_le_bytes());
    key.extend_from_slice(name.as_bytes());
    key.push(0);
    Record { key, val }
}

/// An inline xattr value.
fn embedded(data: &[u8]) -> Vec<u8> {
    let mut v = Vec::new();
    v.extend_from_slice(&XATTR_DATA_EMBEDDED.to_le_bytes());
    v.extend_from_slice(&(data.len() as u16).to_le_bytes());
    v.extend_from_slice(data);
    v
}

/// The inode of a compressed regular file in the root directory.
fn compressed_inode(id: u64, name: &str, size: u64) -> Record {
    let mut r = build_inode(&InodeSpec {
        id,
        parent: ROOT_DIR_INO_NUM,
        name: name.to_string(),
        mode: S_IFREG | 0o644,
        nchildren_or_nlink: 1,
        times: TIMES,
        size: 0,
        alloced: 0,
        has_dstream: false,
    });
    r.val[48..56].copy_from_slice(&INODE_HAS_UNCOMPRESSED_SIZE.to_le_bytes());
    r.val[68..72].copy_from_slice(&UF_COMPRESSED.to_le_bytes());
    r.val[84..92].copy_from_slice(&size.to_le_bytes());
    r
}

/// A zlib resource fork of 64 KiB blocks: the first block deflated, the
/// second stored raw behind a 0xFF marker.
fn resource_fork(data: &[u8]) -> Vec<u8> {
    let first = miniz_oxide::deflate::compress_to_vec_zlib(&data[..0x10000], 6);
    let mut second = vec![0xFFu8];
    second.extend_from_slice(&data[0x10000..]);
    let data_off = 0x100usize;
    let mut r = vec![0u8; data_off];
    r[0..4].copy_from_slice(&(data_off as u32).to_be_bytes());
    r.extend_from_slice(&0u32.to_le_bytes());
    r.extend_from_slice(&2u32.to_le_bytes());
    let table = 4 + 2 * 8;
    r.extend_from_slice(&(table as u32).to_le_bytes());
    r.extend_from_slice(&(first.len() as u32).to_le_bytes());
    r.extend_from_slice(&((table + first.len()) as u32).to_le_bytes());
    r.extend_from_slice(&(second.len() as u32).to_le_bytes());
    r.extend_from_slice(&first);
    r.extend_from_slice(&second);
    r
}

/// Add three decmpfs-compressed files to the root directory of an injected
/// image: `plain-decmpfs.txt` (stored in its xattr), `packed.txt` (zlib in
/// its xattr) and `packed-rsrc.bin` (zlib in a resource fork kept in a
/// data stream).
fn add_compressed_files(img: &mut Image) {
    let layout = discover(img).unwrap();
    let sm = discover_spaceman(img, layout.spaceman_paddr).unwrap();
    let (plain_id, packed_id, rsrc_id, fork_obj) = (21u64, 22u64, 23u64, 24u64);

    let fork = resource_fork(&packed_rsrc_bytes());
    let fork_blocks = ((fork.len() + BS - 1) / BS) as u64;
    let fork_blk = alloc_blocks(img, &sm, fork_blocks as usize).unwrap();
    write_data(img, fork_blk, &fork).unwrap();

    let mut node = parse_node(img, layout.fs_root_paddr).unwrap();
    for r in node.records.iter_mut() {
        if r.id() == ROOT_DIR_INO_NUM && r.rtype() == APFS_TYPE_INODE {
            let n = u32::from_le_bytes(r.val[56..60].try_into().unwrap());
            r.val[56..60].copy_from_slice(&(n + 3).to_le_bytes());
        }
    }
    let plain = b"stored uncompressed via decmpfs type 9\n";
    let mut plain_x = decmpfs_header(9, plain.len() as u64);
    plain_x.push(0xCC);
    plain_x.extend_from_slice(plain);
    let mut packed_x = decmpfs_header(3, 3000);
    packed_x.extend_from_slice(&miniz_oxide::deflate::compress_to_vec_zlib(&packed_txt_bytes(), 6));
    let mut fork_val = Vec::new();
    fork_val.extend_from_slice(&XATTR_DATA_STREAM.to_le_bytes());
    fork_val.extend_from_slice(&48u16.to_le_bytes());
    fork_val.extend_from_slice(&fork_obj.to_le_bytes());
    for v in [fork.len() as u64, fork_blocks * BS as u64, 0, fork.len() as u64, 0] {
        fork_val.extend_from_slice(&v.to_le_bytes());
    }
    let recs = &mut node.records;
    for (id, name, size) in [
        (plain_id, "plain-decmpfs.txt", plain.len() as u64),
        (packed_id, "packed.txt", 3000),
        (rsrc_id, "packed-rsrc.bin", 100_000),
    ] {
        recs.push(compressed_inode(id, name, size));
        recs.push(build_drec(ROOT_DIR_INO_NUM, name, true, id, DT_REG, TIMES));
    }
    recs.push(xattr_record(plain_id, "com.apple.decmpfs", embedded(&plain_x)));
    recs.push(xattr_record(packed_id, "com.apple.decmpfs", embedded(&packed_x)));
    recs.push(xattr_record(rsrc_id, "com.apple.decmpfs", embedded(&decmpfs_header(4, 100_000))));
    recs.push(xattr_record(rsrc_id, "com.apple.ResourceFork", fork_val));
    recs.push(build_file_extent(fork_obj, 0, fork_blocks * BS as u64, fork_blk));
    sort_records(recs);
    serialize_node(img, &node).unwrap();

    // Volume counters: three more files, ids up to the fork's stream.
    let apsb = layout.apsb_paddr as usize * BS;
    let files = u64::from_le_bytes(img.data[apsb + 184..apsb + 192].try_into().unwrap());
    w64(&mut img.data, apsb + 184, files + 3);
    w64(&mut img.data, apsb + 176, fork_obj + 1);
    img.fix_checksum(layout.apsb_paddr);
}

/// The test image: a fresh container, the fixture tool's files, and three
/// compressed files.
/// Blocks the resource fork of `packed-rsrc.bin` occupies.
fn fork_blocks() -> u64 {
    ((resource_fork(&packed_rsrc_bytes()).len() + BS - 1) / BS) as u64
}

fn fixture_image() -> Image {
    let mut img = fresh_image();
    inject(&mut img).unwrap();
    add_compressed_files(&mut img);
    img
}

fn fixture_container() -> Container<MemDevice> {
    Container::open(MemDevice::new(fixture_image().data)).expect("open container")
}

fn big_bin_bytes() -> Vec<u8> {
    let mut x = 0x2545F491_4F6CDD1Du64;
    (0..14336)
        .map(|_| {
            x ^= x << 13;
            x ^= x >> 7;
            x ^= x << 17;
            (x >> 33) as u8
        })
        .collect()
}

fn readme_bytes() -> Vec<u8> {
    (0..1000u32).map(|i| (i % 251) as u8).collect()
}

#[test]
fn fixture_contents_match_the_generators() {
    assert_eq!(big_data(), big_bin_bytes());
    assert_eq!(readme_data(), readme_bytes());
}

#[test]
fn container_and_volume_metadata() {
    let c = fixture_container();
    assert_eq!(c.superblock.block_size, 4096);
    assert_eq!(c.block_size_u64(), 4096);
    assert_eq!(c.xid(), XID);
    assert_eq!(c.volume_oids(), vec![0x402]);
    let vol = c.volume(0).unwrap();
    assert_eq!(vol.name(), "TestVol");
    assert_eq!(vol.superblock.num_files, 6);
    assert_eq!(vol.superblock.num_directories, 1);
    assert_eq!(vol.superblock.num_symlinks, 1);
    assert_eq!(vol.superblock.next_obj_id, 25);
    assert!(vol.superblock.case_insensitive());
    assert!(!vol.superblock.encrypted());
    match c.volume(1) {
        Err(Error::NotFound) => {}
        other => panic!("expected NotFound, got {:?}", other.err()),
    }
}

#[test]
fn list_root_directory() {
    let c = fixture_container();
    let vol = c.volume(0).unwrap();
    let mut names: Vec<String> = vol.read_dir("/").unwrap().into_iter().map(|e| e.name).collect();
    names.sort();
    assert_eq!(
        names,
        [
            "docs",
            "hello.txt",
            "link-to-hello",
            "packed-rsrc.bin",
            "packed.txt",
            "plain-decmpfs.txt",
        ]
    );
}

#[test]
fn list_subdirectory() {
    let c = fixture_container();
    let vol = c.volume(0).unwrap();
    let mut names: Vec<String> = vol.read_dir("/docs").unwrap().into_iter().map(|e| e.name).collect();
    names.sort();
    assert_eq!(names, ["big.bin", "readme.md"]);
}

#[test]
fn read_small_file() {
    let c = fixture_container();
    let vol = c.volume(0).unwrap();
    let inode = vol.lookup_path("/hello.txt").unwrap();
    assert!(inode.is_file());
    assert_eq!(inode.name.as_deref(), Some("hello.txt"));
    let data = vol.read_file(&inode).unwrap();
    assert_eq!(data, b"Hello from APFS on Windows!\n");
}

#[test]
fn read_file_smaller_than_block() {
    let c = fixture_container();
    let vol = c.volume(0).unwrap();
    let inode = vol.lookup_path("/docs/readme.md").unwrap();
    assert_eq!(inode.size, 1000);
    assert_eq!(vol.read_file(&inode).unwrap(), readme_bytes());
}

#[test]
fn read_multi_extent_file() {
    let c = fixture_container();
    let vol = c.volume(0).unwrap();
    let inode = vol.lookup_path("/docs/big.bin").unwrap();
    assert_eq!(inode.size, 14336);
    // big.bin spans three discontiguous extents (2 + 1 + 2 blocks).
    let exts = vol.extents(inode.private_id).unwrap();
    assert_eq!(exts.len(), 3);
    assert_eq!(exts[1].logical_addr, 8192);
    assert_eq!(exts[1].len_bytes, 4096);
    assert_eq!(vol.read_file(&inode).unwrap(), big_bin_bytes());
}

#[test]
fn read_at_arbitrary_offsets() {
    let c = fixture_container();
    let vol = c.volume(0).unwrap();
    let inode = vol.lookup_path("/docs/big.bin").unwrap();
    let expected = big_bin_bytes();
    // Spans the first extent boundary (8192) and the second (12288).
    for (off, len) in [(0usize, 1usize), (8000, 5000), (12280, 100), (14000, 4000)] {
        let mut buf = vec![0xEEu8; len];
        let n = vol.read_file_at(&inode, off as u64, &mut buf).unwrap();
        let want = &expected[off..(off + len).min(expected.len())];
        assert_eq!(n, want.len());
        assert_eq!(&buf[..n], want, "offset {off} len {len}");
        // Bytes past the count are left alone.
        assert!(buf[n..].iter().all(|&b| b == 0xEE));
    }
    // Reads past EOF return 0 bytes.
    let mut buf = [7u8; 16];
    assert_eq!(vol.read_file_at(&inode, 1 << 20, &mut buf).unwrap(), 0);
    assert_eq!(buf, [7u8; 16]);
}

#[test]
fn directories_are_not_read_as_files() {
    let c = fixture_container();
    let vol = c.volume(0).unwrap();
    let docs = vol.lookup_path("/docs").unwrap();
    let mut buf = [0u8; 4];
    match vol.read_file_at(&docs, 0, &mut buf) {
        Err(Error::IsADirectory) => {}
        other => panic!("expected IsADirectory, got {other:?}"),
    }
    match vol.read_dir("/hello.txt") {
        Err(Error::NotADirectory) => {}
        other => panic!("expected NotADirectory, got {:?}", other.err()),
    }
}

#[test]
fn symlink_target() {
    let c = fixture_container();
    let vol = c.volume(0).unwrap();
    let inode = vol.lookup_path("/link-to-hello").unwrap();
    assert!(inode.is_symlink());
    assert_eq!(vol.readlink(&inode).unwrap(), "hello.txt");
    let file = vol.lookup_path("/hello.txt").unwrap();
    match vol.readlink(&file) {
        Err(Error::Parse(m)) => assert_eq!(m, "not a symlink"),
        other => panic!("unexpected {other:?}"),
    }
}

#[test]
fn xattr_lookup() {
    let c = fixture_container();
    let vol = c.volume(0).unwrap();
    let link = vol.lookup_path("/link-to-hello").unwrap();
    assert_eq!(vol.xattr(link.id, "com.apple.fs.symlink").unwrap(), b"hello.txt\0");
    match vol.xattr(link.id, "com.apple.other") {
        Err(Error::NotFound) => {}
        other => panic!("expected NotFound, got {other:?}"),
    }
}

#[test]
fn case_insensitive_lookup() {
    let c = fixture_container();
    let vol = c.volume(0).unwrap();
    // The fixture volume is case-insensitive, like most real-world APFS.
    let inode = vol.lookup_path("/HELLO.TXT").unwrap();
    assert_eq!(inode.size, 28);
    let same = vol.lookup_path("/Docs/ReadMe.MD").unwrap();
    assert_eq!(same.size, 1000);
}

#[test]
fn paths_normalize() {
    let c = fixture_container();
    let vol = c.volume(0).unwrap();
    let a = vol.lookup_path("docs//./big.bin").unwrap();
    let b = vol.lookup_path("/docs/big.bin").unwrap();
    assert_eq!(a.id, b.id);
    let root = vol.lookup_path("/").unwrap();
    assert_eq!(root.id, ROOT_DIR_INO_NUM);
    assert_eq!(vol.lookup_path("").unwrap().id, ROOT_DIR_INO_NUM);
}

#[test]
fn missing_path_is_not_found() {
    let c = fixture_container();
    let vol = c.volume(0).unwrap();
    match vol.lookup_path("/no/such/file") {
        Err(Error::NotFound) => {}
        other => panic!("expected NotFound, got {other:?}"),
    }
}

#[test]
fn root_inode_child_count() {
    let c = fixture_container();
    let vol = c.volume(0).unwrap();
    let root = vol.inode(ROOT_DIR_INO_NUM).unwrap();
    assert!(root.is_dir());
    assert_eq!(root.nchildren_or_nlink, 6);
    assert_eq!(root.create_time, TIMES);
}

#[test]
fn every_metadata_block_passes_checksum() {
    let c = fixture_container();
    let vol = c.volume(0).unwrap();
    fn walk(vol: &apfs_core::Volume<'_, MemDevice>, dir: u64, seen: &mut usize) {
        for e in vol.read_dir_inode(dir).unwrap() {
            let inode = vol.inode(e.file_id).unwrap();
            *seen += 1;
            if inode.is_dir() {
                walk(vol, inode.id, seen);
            } else if inode.is_file() {
                vol.read_file(&inode).unwrap();
            }
        }
    }
    let mut seen = 0;
    walk(&vol, ROOT_DIR_INO_NUM, &mut seen);
    assert_eq!(seen, 8);
}

#[test]
fn free_space_from_space_manager() {
    let c = fixture_container();
    let free = c.free_block_count().unwrap();
    // The 64-block image has plenty free, but not everything.
    assert!(free > 0 && free < c.superblock.block_count, "free={free}");
    // 48 free blocks before, 7 allocated for file data, the rest for the
    // resource fork.
    assert_eq!(free, 41 - fork_blocks());
}

#[test]
fn corrupted_metadata_is_refused() {
    let mut img = fresh_image();
    inject(&mut img).unwrap();
    // Flip a byte inside the fs-tree root node: its checksum no longer
    // matches and the volume's tree cannot be loaded.
    img.data[10 * BS + 200] ^= 0x40;
    let c = Container::open(MemDevice::new(img.data)).unwrap();
    let vol = c.volume(0).unwrap();
    match vol.lookup_path("/hello.txt") {
        Err(Error::BadChecksum { block }) => assert_eq!(block, 10),
        other => panic!("expected BadChecksum, got {other:?}"),
    }
}

#[test]
fn not_a_container() {
    match Container::open(MemDevice::new(vec![0u8; 8192])) {
        Err(Error::Parse(_)) | Err(Error::BadMagic(_)) => {}
        other => panic!("expected a refusal, got {:?}", other.err()),
    }
    match Container::open(MemDevice::new(vec![0u8; 100])) {
        Err(Error::Io(_)) => {}
        other => panic!("expected an I/O error, got {:?}", other.err()),
    }
}

#[test]
fn fixture_refuses_foreign_images() {
    let mut img = Image { data: vec![0u8; 4 * BS] };
    match inject(&mut img) {
        Err(FixtureError::Invalid(m)) => assert_eq!(m, "not an APFS container"),
        other => panic!("unexpected {other:?}"),
    }
    let mut tiny = Image { data: vec![0u8; 100] };
    assert!(inject(&mut tiny).is_err());
}

#[test]
fn injected_nodes_carry_valid_checksums() {
    let mut img = fresh_image();
    inject(&mut img).unwrap();
    for n in [2usize, 5, 8, 9, 10] {
        assert!(verify_object(&img.data[n * BS..(n + 1) * BS]), "block {n}");
    }
    // File data went to the first free blocks: 16 onwards.
    assert_eq!(&img.data[16 * BS..16 * BS + 28], b"Hello from APFS on Windows!\n");
    assert!(img.data[16 * BS + 28..17 * BS].iter().all(|&b| b == 0));
}

#[test]
fn windows_view_of_the_volume() {
    let c = Arc::new(fixture_container());
    let fs = ApfsFilesystem::new(c, 0).unwrap();
    assert_eq!(fs.volume_name, "TestVol");
    assert_eq!(fs.total_bytes, (BLOCKS * BS) as u64);
    assert_eq!(fs.free_bytes, (41 - fork_blocks()) * BS as u64);
    let inode = fs.resolve("\\docs\\readme.md").unwrap();
    assert_eq!(inode.size, 1000);
    let mut buf = vec![0u8; 10];
    assert_eq!(fs.read(&inode, 995, &mut buf).unwrap(), 5);
    assert_eq!(&buf[..5], &readme_bytes()[995..]);
    let docs = fs.resolve("\\docs").unwrap();
    let mut listing = fs.list_dir(&docs).unwrap();
    listing.sort_by(|a, b| a.0.cmp(&b.0));
    assert_eq!(listing.len(), 2);
    assert_eq!(listing[0].0, "big.bin");
    assert_eq!(listing[0].1.file_size, 14336);
    match fs.resolve("\\nope") {
        Err(e) => assert_eq!(apfs_core::mount::ntstatus_of(&e), STATUS_OBJECT_NAME_NOT_FOUND),
        Ok(_) => panic!("expected an error"),
    }
    match fs.list_dir(&inode) {
        Err(Error::NotADirectory) => {}
        other => panic!("unexpected {:?}", other.err()),
    }
}

/// A whole disk: a GPT with one APFS partition holding the fixture
/// container, 512-byte sectors.
fn gpt_disk(container: &[u8]) -> Vec<u8> {
    let first_lba = 40u64;
    let sectors = (container.len() / 512) as u64;
    let mut disk = vec![0u8; (first_lba as usize) * 512 + container.len() + 512];
    // Header at LBA 1.
    let h = 512;
    disk[h..h + 8].copy_from_slice(b"EFI PART");
    put64(&mut disk, h + 72, 2); // entries at LBA 2
    put32(&mut disk, h + 80, 4); // entry count
    put32(&mut disk, h + 84, 128); // entry size
    // Entry 0: unused; entry 1: APFS.
    let e = 2 * 512 + 128;
    let apfs = [
        0xEF, 0x57, 0x34, 0x7C, 0x00, 0x00, 0xAA, 0x11, 0xAA, 0x11, 0x00, 0x30, 0x65, 0x43, 0xEC, 0xAC,
    ];
    disk[e..e + 16].copy_from_slice(&apfs);
    disk[e + 16..e + 32].copy_from_slice(&[0x11; 16]);
    put64(&mut disk, e + 32, first_lba);
    put64(&mut disk, e + 40, first_lba + sectors - 1);
    for (i, c) in "Macintosh HD".encode_utf16().enumerate() {
        put16(&mut disk, e + 56 + 2 * i, c);
    }
    // Entry 2: some other partition with an empty range (skipped).
    let e2 = 2 * 512 + 256;
    disk[e2..e2 + 16].copy_from_slice(&[0x22; 16]);
    put64(&mut disk, e2 + 32, 10);
    put64(&mut disk, e2 + 40, 9);
    let start = (first_lba as usize) * 512;
    disk[start..start + container.len()].copy_from_slice(container);
    disk
}

#[test]
fn gpt_partitions_and_their_container() {
    let mut img = fresh_image();
    inject(&mut img).unwrap();
    let disk = gpt_disk(&img.data);
    let dev = MemDevice::new(disk.clone());
    let parts = read_partitions(&dev).unwrap();
    assert_eq!(parts.len(), 1);
    assert_eq!(parts[0].index, 2);
    assert_eq!(parts[0].name, "Macintosh HD");
    assert_eq!(parts[0].first_byte, 40 * 512);
    assert_eq!(parts[0].size_bytes, (BLOCKS * BS) as u64);
    assert!(parts[0].is_apfs());
    let i = find_apfs(&parts).unwrap();
    let c = open_partition(MemDevice::new(disk), &parts[i]).unwrap();
    let vol = c.volume(0).unwrap();
    assert_eq!(vol.name(), "TestVol");
    assert_eq!(vol.read_file(&vol.lookup_path("/hello.txt").unwrap()).unwrap().len(), 28);
}

#[test]
fn gpt_absent() {
    let dev = MemDevice::new(vec![0u8; 64 * 1024]);
    match read_partitions(&dev) {
        Err(Error::BadMagic(m)) => assert_eq!(m, "EFI PART (no GPT found)"),
        other => panic!("unexpected {other:?}"),
    }
}

#[test]
fn gpt_with_4k_sectors() {
    let mut disk = vec![0u8; 4 * 4096];
    let h = 4096;
    disk[h..h + 8].copy_from_slice(b"EFI PART");
    put64(&mut disk, h + 72, 2);
    put32(&mut disk, h + 80, 1);
    put32(&mut disk, h + 84, 128);
    let e = 2 * 4096;
    disk[e..e + 16].copy_from_slice(&[0x33; 16]);
    put64(&mut disk, e + 32, 3);
    put64(&mut disk, e + 40, 3);
    let parts = read_partitions(&MemDevice::new(disk)).unwrap();
    assert_eq!(parts.len(), 1);
    assert_eq!(parts[0].first_byte, 3 * 4096);
    assert_eq!(parts[0].size_bytes, 4096);
    assert!(!parts[0].is_apfs());
}

#[test]
fn gpt_table_bounds_are_checked() {
    let mut disk = vec![0u8; 8 * 512];
    disk[512..520].copy_from_slice(b"EFI PART");
    put64(&mut disk, 512 + 72, 2);
    put32(&mut disk, 512 + 80, 2000);
    put32(&mut disk, 512 + 84, 128);
    match read_partitions(&MemDevice::new(disk)) {
        Err(Error::Corrupt(m)) => assert_eq!(m, "GPT entry table out of range"),
        other => panic!("unexpected {other:?}"),
    }
}

#[test]
fn slice_device_windows() {
    let data: Vec<u8> = (0..100u8).collect();
    let dev = SliceDevice::new(MemDevice::new(data), 10, 20);
    assert_eq!(dev.len().unwrap(), 20);
    let mut buf = [0u8; 5];
    dev.read_at(3, &mut buf).unwrap();
    assert_eq!(buf, [13, 14, 15, 16, 17]);
    assert!(dev.read_at(18, &mut buf).is_err());
    assert!(!dev.is_empty().unwrap());
}

// ---- decmpfs (transparently compressed files) ----

#[test]
fn decmpfs_plain_xattr() {
    let c = fixture_container();
    let vol = c.volume(0).unwrap();
    let inode = vol.lookup_path("/plain-decmpfs.txt").unwrap();
    assert!(inode.is_compressed());
    assert_eq!(inode.size, 39); // from INODE_HAS_UNCOMPRESSED_SIZE
    assert_eq!(
        vol.read_file(&inode).unwrap(),
        b"stored uncompressed via decmpfs type 9\n"
    );
}

#[test]
fn decmpfs_zlib_xattr() {
    let c = fixture_container();
    let vol = c.volume(0).unwrap();
    let inode = vol.lookup_path("/packed.txt").unwrap();
    assert!(inode.is_compressed());
    assert_eq!(inode.size, 3000);
    assert_eq!(vol.read_file(&inode).unwrap(), packed_txt_bytes());
}

#[test]
fn decmpfs_zlib_resource_fork() {
    let c = fixture_container();
    let vol = c.volume(0).unwrap();
    let inode = vol.lookup_path("/packed-rsrc.bin").unwrap();
    assert!(inode.is_compressed());
    assert_eq!(inode.size, 100_000);
    // Two 64 KiB blocks: the first zlib, the second raw-stored (0xFF).
    assert_eq!(vol.read_file(&inode).unwrap(), packed_rsrc_bytes());
}

#[test]
fn decmpfs_resource_fork_random_access() {
    let c = fixture_container();
    let vol = c.volume(0).unwrap();
    let inode = vol.lookup_path("/packed-rsrc.bin").unwrap();
    let expected = packed_rsrc_bytes();
    // Windows spanning the 64 KiB block boundary (zlib block -> raw block)
    // and the EOF.
    for (off, len) in [(0usize, 10usize), (65_530, 100), (65_536, 16), (99_990, 100)] {
        let mut buf = vec![0u8; len];
        let n = vol.read_file_at(&inode, off as u64, &mut buf).unwrap();
        let want = &expected[off..(off + len).min(expected.len())];
        assert_eq!(&buf[..n], want, "offset {off} len {len}");
    }
    let mut buf = [0u8; 8];
    assert_eq!(vol.read_file_at(&inode, 1 << 20, &mut buf).unwrap(), 0);
}

#[test]
fn decmpfs_sizes_and_unsupported_kinds() {
    let mut img = fresh_image();
    inject(&mut img).unwrap();
    add_compressed_files(&mut img);
    // Rewrite packed.txt's compression type to LZFSE (11): refused cleanly.
    let layout = discover(&img).unwrap();
    let mut node = parse_node(&img, layout.fs_root_paddr).unwrap();
    for r in node.records.iter_mut() {
        if r.id() == 22 && r.rtype() == APFS_TYPE_XATTR {
            r.val[4 + 4..4 + 8].copy_from_slice(&11u32.to_le_bytes());
        }
    }
    serialize_node(&mut img, &node).unwrap();
    let c = Container::open(MemDevice::new(img.data)).unwrap();
    let vol = c.volume(0).unwrap();
    let rsrc = vol.lookup_path("/packed-rsrc.bin").unwrap();
    assert_eq!(apfs_core::decmpfs::uncompressed_size(&vol, &rsrc).unwrap(), 100_000);
    let packed = vol.lookup_path("/packed.txt").unwrap();
    let mut buf = [0u8; 4];
    match vol.read_file_at(&packed, 0, &mut buf) {
        Err(Error::Unsupported(m)) => assert_eq!(m, "decmpfs LZFSE compression (planned)"),
        other => panic!("unexpected {other:?}"),
    }
    // Past the end of a compressed file: nothing to read.
    assert_eq!(vol.read_file_at(&packed, 5000, &mut buf).unwrap(), 0);
}

#[test]
fn every_listed_name_looks_up_to_its_entry() {
    let c = fixture_container();
    let vol = c.volume(0).unwrap();
    for dir in [ROOT_DIR_INO_NUM, vol.lookup_path("/docs").unwrap().id] {
        for e in vol.read_dir_inode(dir).unwrap() {
            let found = vol.lookup_child(dir, &e.name).unwrap();
            assert_eq!(found.file_id, e.file_id, "{}", e.name);
            let upper = vol.lookup_child(dir, &e.name.to_uppercase()).unwrap();
            assert_eq!(upper.file_id, e.file_id, "{}", e.name);
        }
    }
    match vol.lookup_child(ROOT_DIR_INO_NUM, "missing") {
        Err(Error::NotFound) => {}
        other => panic!("expected NotFound, got {other:?}"),
    }
}

#[test]
fn info_report() {
    let c = fixture_container();
    let head = apfs_core::cli::info_header("", &c.superblock, c.xid(), c.volume_oids().len());
    assert_eq!(
        head,
        "container:\n  block size:   4096\n  block count:  64\n  latest xid:   5\n  volumes:      1\n"
    );
    let vol = c.volume(0).unwrap();
    let v = apfs_core::cli::volume_info(0, vol.name(), &vol.superblock);
    assert_eq!(
        v,
        "  volume 0:\n    name:            TestVol\n    case sensitive:  false\n    files:           6\n    directories:     1\n    symlinks:        1\n    snapshots:       0\n"
    );
    let noted = apfs_core::cli::info_header("using GPT partition 2 (x) at byte 20480\n", &c.superblock, 9, 3);
    assert!(noted.starts_with("using GPT partition 2 (x) at byte 20480\ncontainer:\n"));
    assert!(noted.ends_with("  latest xid:   9\n  volumes:      3\n"));
}

/// An object-map leaf whose entries carry their own transaction ids.
fn omap_leaf_versions(b: &mut [u8], paddr: u64, entries: &[(u64, u64, u64)]) {
    for x in b.iter_mut() {
        *x = 0;
    }
    obj(b, paddr, 0x4000_0002, 0x0b);
    put16(b, 32, 0x7); // root | leaf | fixed
    put32(b, 36, entries.len() as u32);
    put16(b, 42, 64);
    let ka = 56 + 64;
    let ve = BS - 40;
    for (i, (oid, xid, target)) in entries.iter().enumerate() {
        put16(b, 56 + 4 * i, (16 * i) as u16);
        put16(b, 58 + 4 * i, (16 * (i + 1)) as u16);
        put64(b, ka + 16 * i, *oid);
        put64(b, ka + 16 * i + 8, *xid);
        let v = ve - 16 * (i + 1);
        put32(b, v + 4, BS as u32);
        put64(b, v + 8, *target);
    }
    put32(b, ve + 4, BS as u32);
    put32(b, ve + 8, 16);
    put32(b, ve + 12, 16);
    put64(b, ve + 24, entries.len() as u64);
    put64(b, ve + 32, 1);
    seal(b);
}

#[test]
fn object_map_gives_newest_version_not_after_the_transaction() {
    let mut img = fresh_image();
    inject(&mut img).unwrap();
    // Versions of the volume superblock at xids 3, 5 and 7; only the one at
    // xid 5 (the checkpoint's) points at a real volume superblock.
    omap_leaf_versions(blk(&mut img.data, 4), 4, &[(0x402, 3, 60), (0x402, 5, 5), (0x402, 7, 61), (0x500, 1, 62)]);
    let c = Container::open(MemDevice::new(img.data)).unwrap();
    assert_eq!(c.volume(0).unwrap().name(), "TestVol");
    let om = c.omap().unwrap();
    let e = om.lookup(0x402, 6).unwrap();
    assert_eq!((e.oid, e.xid, e.paddr), (0x402, 5, 5));
    let e = om.lookup(0x402, 4).unwrap();
    assert_eq!((e.xid, e.paddr), (3, 60));
    let e = om.lookup(0x402, 100).unwrap();
    assert_eq!((e.xid, e.paddr), (7, 61));
    match om.lookup(0x402, 2) {
        Err(Error::OmapMiss { oid, xid }) => assert_eq!((oid, xid), (0x402, 2)),
        other => panic!("expected a miss, got {other:?}"),
    }
    match om.lookup(0x401, 100) {
        Err(Error::OmapMiss { .. }) => {}
        other => panic!("expected a miss, got {other:?}"),
    }
    let e = om.lookup(0x500, 1).unwrap();
    assert_eq!(e.paddr, 62);
}

/// The image with a two-block checkpoint descriptor area (blocks 0 and 1),
/// block 0 carrying transaction `xid0`, sealed or not.
fn two_checkpoints(xid0: u64, seal0: bool) -> Vec<u8> {
    let mut img = fresh_image();
    inject(&mut img).unwrap();
    let mut d = img.data;
    for n in [0usize, 1] {
        let b = blk(&mut d, n);
        put32(b, 104, 2); // descriptor blocks
        put64(b, 112, 0); // descriptor base
        if n == 0 {
            put64(b, 16, xid0);
        }
        if n == 1 || seal0 {
            seal(b);
        }
    }
    d
}

#[test]
fn newest_valid_checkpoint_wins() {
    // An older checkpoint before the current one.
    let c = Container::open(MemDevice::new(two_checkpoints(4, true))).unwrap();
    assert_eq!(c.xid(), XID);
    assert_eq!(c.volume(0).unwrap().name(), "TestVol");
    // A newer one is taken, and the object map still resolves at it.
    let c = Container::open(MemDevice::new(two_checkpoints(9, true))).unwrap();
    assert_eq!(c.xid(), 9);
    assert_eq!(c.volume(0).unwrap().name(), "TestVol");
    // A newer one whose checksum fails is passed over.
    let c = Container::open(MemDevice::new(two_checkpoints(9, false))).unwrap();
    assert_eq!(c.xid(), XID);
}

#[test]
fn compressed_file_is_read_to_its_header_size() {
    let c = fixture_container();
    let vol = c.volume(0).unwrap();
    let mut inode = vol.lookup_path("/plain-decmpfs.txt").unwrap();
    inode.size = 0;
    assert_eq!(
        vol.read_file(&inode).unwrap(),
        b"stored uncompressed via decmpfs type 9\n"
    );
}

#[test]
fn directory_reads_leave_the_buffer_alone() {
    let c = fixture_container();
    let vol = c.volume(0).unwrap();
    let docs = vol.lookup_path("/docs").unwrap();
    let mut buf = [9u8; 8];
    assert!(matches!(vol.read_file_at(&docs, 0, &mut buf), Err(Error::IsADirectory)));
    assert_eq!(buf, [9u8; 8]);
}

#[test]
fn paths_differing_in_empty_and_dot_parts_resolve_alike() {
    let c = fixture_container();
    let vol = c.volume(0).unwrap();
    let a = vol.lookup_path("//docs/./readme.md").unwrap();
    let b = vol.lookup_path("docs/readme.md").unwrap();
    assert_eq!(a.id, b.id);
    assert!(matches!(vol.lookup_path("/./nope//x"), Err(Error::NotFound)));
    assert!(matches!(vol.lookup_path("nope/x"), Err(Error::NotFound)));
}

#[test]
fn descent_ends_at_a_leaf() {
    let c = fixture_container();
    let vol = c.volume(0).unwrap();
    let (root, info) = vol.root_tree().unwrap();
    let source = vol.fs_source().unwrap();
    let key = apfs_core::fs::FsKey { objid: ROOT_DIR_INO_NUM, rtype: APFS_TYPE_INODE as u8 };
    let leaf = apfs_core::btree::descend_to_leaf(&source, root, &info, &key).unwrap();
    assert!(leaf.is_leaf());
}
