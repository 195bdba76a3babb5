//! Checksums, hashes, text helpers, path handling and the small decision
//! functions, on concrete values.

use apfs_core::automount::{
    apfs_partition_indices, disks_to_probe, first_free_letter, gone_disks, mount_point,
    parse_mount_args, MAX_DISKS,
};
use apfs_core::checksum::{fletcher64_object, verify_object};
use apfs_core::cli::{
    command, dump_line, find_apfs, hex, ls_line, needs_gpt_scan, parse_args, parse_usize, tree_line, CliError,
    Command,
};
use apfs_core::fs::{path_split, split_jkey, DirEntry, Inode};
use apfs_core::gpt::{Partition, APFS_PART_TYPE};
use apfs_core::hash::{crc32c, drec_name_len_and_hash};
use apfs_core::mount::{
    apfs_time_to_filetime, attributes, file_info, norm_path, ntstatus_of,
    FILE_ATTRIBUTE_ARCHIVE, FILE_ATTRIBUTE_DIRECTORY, FILE_ATTRIBUTE_READONLY,
    STATUS_FILE_IS_A_DIRECTORY, STATUS_IO_DEVICE_ERROR, STATUS_NOT_A_DIRECTORY,
    STATUS_OBJECT_NAME_NOT_FOUND,
};
use apfs_core::release::parse_repo;
use apfs_core::raw::{uuid_to_string, SliceReader};
use apfs_core::sector::{aligned_window, initial_alignment, retry_with_4k};
use apfs_core::text::{cstr_lossy, eq_ignore_ascii_case, utf16le_name};
use apfs_core::types::{DT_DIR, DT_LNK, DT_REG, S_IFDIR, S_IFLNK, S_IFREG, UF_COMPRESSED};
use apfs_core::Error;

#[test]
fn roundtrip() {
    let mut block = vec![0u8; 4096];
    for (i, b) in block.iter_mut().enumerate() {
        *b = (i * 7 + 3) as u8;
    }
    let ck = fletcher64_object(&block);
    block[..8].copy_from_slice(&ck.to_le_bytes());
    assert!(verify_object(&block));
    // Any bit flip must be detected.
    block[100] ^= 1;
    assert!(!verify_object(&block));
}

#[test]
fn crc32c_known_vector() {
    // Standard CRC-32C of "123456789" is 0xE3069283 (with init ~0 and
    // final inversion). Our variant omits the final inversion.
    let crc = crc32c(0xFFFF_FFFF, b"123456789");
    assert_eq!(!crc, 0xE306_9283);
}

fn sealed_block() -> Vec<u8> {
    let mut block: Vec<u8> = (0..4096u32).map(|i| (i * 31 % 256) as u8).collect();
    let ck = fletcher64_object(&block);
    block[..8].copy_from_slice(&ck.to_le_bytes());
    block
}

#[test]
fn checksum_detects_every_single_byte_change() {
    let block = sealed_block();
    assert!(verify_object(&block));
    for p in [0usize, 7, 8, 9, 1000, 2047, 4095] {
        for delta in [1u8, 0x80, 0xFF] {
            let mut b = block.clone();
            b[p] = b[p].wrapping_add(delta);
            assert!(!verify_object(&b), "change at {p} by {delta} went unnoticed");
        }
    }
}

#[test]
fn checksum_ignores_stored_field_when_computing() {
    let mut a = sealed_block();
    let ck = fletcher64_object(&a);
    a[..8].copy_from_slice(&[0xAA; 8]);
    assert_eq!(fletcher64_object(&a), ck);
}

#[test]
fn checksum_of_short_object_fails_validation() {
    assert!(!verify_object(&[0u8; 7]));
    // A zeroed 8-byte object: no words, checksum of nothing is all ones in
    // each half, which a zero field does not match.
    assert!(!verify_object(&[0u8; 8]));
    let ck = fletcher64_object(&[0u8; 8]);
    assert_eq!(ck, 0xFFFF_FFFF_FFFF_FFFF);
}

#[test]
fn crc32c_of_nothing_is_the_seed() {
    assert_eq!(crc32c(0x1234_5678, b""), 0x1234_5678);
}

#[test]
fn drec_hash_carries_length_with_nul() {
    let v = drec_name_len_and_hash("hello.txt", true);
    assert_eq!(v & 0x3FF, 10);
}

#[test]
fn drec_hash_ignores_ascii_case_when_folding() {
    assert_eq!(
        drec_name_len_and_hash("Hello.TXT", true),
        drec_name_len_and_hash("hello.txt", true)
    );
    assert_ne!(
        drec_name_len_and_hash("Hello.TXT", false) >> 10,
        drec_name_len_and_hash("hello.txt", false) >> 10
    );
}

#[test]
fn jkey_split() {
    let hdr = 0x3000_0000_0000_0002u64;
    assert_eq!(split_jkey(hdr), (2, 3));
    assert_eq!(split_jkey(0x9000_0000_0000_0010), (0x10, 9));
}

#[test]
fn slice_reader_reads_little_endian() {
    let buf = [1u8, 2, 3, 4, 5, 6, 7, 8, 9, 10, 11, 12, 13, 14, 15, 16];
    let mut r = SliceReader::new(&buf);
    assert_eq!(r.u8().unwrap(), 1);
    assert_eq!(r.u16().unwrap(), 0x0302);
    assert_eq!(r.pos(), 3);
    assert_eq!(r.u32().unwrap(), 0x0706_0504);
    assert_eq!(r.remaining(), 9);
    assert_eq!(r.u64().unwrap(), 0x0F0E_0D0C_0B0A_0908);
    assert_eq!(r.u8().unwrap(), 16);
    match r.u8() {
        Err(Error::Parse(_)) => {}
        other => panic!("expected truncation, got {other:?}"),
    }
}

#[test]
fn slice_reader_errors() {
    let buf = [0u8; 4];
    match SliceReader::at(&buf, 5) {
        Err(Error::Parse(m)) => assert_eq!(m, "reader offset out of range"),
        Err(e) => panic!("unexpected {e:?}"),
        Ok(_) => panic!("offset past the end accepted"),
    }
    let mut r = SliceReader::new(&buf);
    match r.skip(5) {
        Err(Error::Parse(m)) => assert_eq!(m, "truncated structure (skip)"),
        other => panic!("unexpected {other:?}"),
    }
    match r.u64() {
        Err(Error::Parse(m)) => assert_eq!(m, "truncated structure (bytes)"),
        other => panic!("unexpected {other:?}"),
    }
    assert_eq!(r.u32().unwrap(), 0);
}

#[test]
fn uuid_text_is_mixed_endian() {
    assert_eq!(uuid_to_string(&APFS_PART_TYPE), "7C3457EF-0000-11AA-AA11-00306543ECAC");
    let u = [0u8, 1, 2, 3, 4, 5, 6, 7, 8, 9, 10, 11, 12, 13, 14, 15];
    assert_eq!(uuid_to_string(&u), "03020100-0504-0706-0809-0A0B0C0D0E0F");
}

#[test]
fn names_stop_at_nul_and_decode_lossily() {
    assert_eq!(cstr_lossy(b"abc\0def"), "abc");
    assert_eq!(cstr_lossy(b"plain"), "plain");
    assert_eq!(cstr_lossy(b"\xFFx\0"), "\u{FFFD}x");
}

#[test]
fn utf16_names() {
    let mut b = Vec::new();
    for c in "Mac HD".encode_utf16() {
        b.extend_from_slice(&c.to_le_bytes());
    }
    b.extend_from_slice(&[0, 0, b'Z', 0]);
    assert_eq!(utf16le_name(&b), "Mac HD");
    // A surrogate pair, and an unpaired high surrogate.
    let pair = [0x3D, 0xD8, 0x00, 0xDE, 0x00, 0xD8, 0x41, 0x00];
    assert_eq!(utf16le_name(&pair), "\u{1F600}\u{FFFD}A");
    // A lone low surrogate, then an odd trailing byte (dropped).
    assert_eq!(utf16le_name(&[0x00, 0xDC, 0x42, 0x00, 0x43]), "\u{FFFD}B");
}

#[test]
fn ascii_case_insensitive_equality() {
    assert!(eq_ignore_ascii_case("HELLO.TXT", "hello.txt"));
    assert!(!eq_ignore_ascii_case("hello", "hello!"));
    assert!(!eq_ignore_ascii_case("Ä", "ä"));
}

#[test]
fn path_components() {
    assert_eq!(path_split("/"), Vec::<String>::new());
    assert_eq!(path_split(""), Vec::<String>::new());
    assert_eq!(path_split("."), Vec::<String>::new());
    assert_eq!(path_split("/docs/readme.md"), vec!["docs", "readme.md"]);
    assert_eq!(path_split("a//b/./c/"), vec!["a", "b", "c"]);
    assert_eq!(path_split("..//x"), vec!["..", "x"]);
}

#[test]
fn path_join_concatenates_components() {
    let a = "x/./y";
    let b = "z//w";
    let mut joined = path_split(a);
    joined.extend(path_split(b));
    assert_eq!(path_split(&format!("{a}/{b}")), joined);
}

#[test]
fn backslash_paths() {
    assert_eq!(norm_path("\\docs\\readme.md"), "/docs/readme.md");
    assert_eq!(norm_path("plain/path"), "plain/path");
    assert_eq!(norm_path(""), "");
}

#[test]
fn decimal_parsing_like_std() {
    for s in ["0", "7", "+42", "0018", "18446744073709551615", "", "+", "-1", "1a", " 1", "18446744073709551616"] {
        assert_eq!(parse_usize(s), s.parse::<usize>().ok(), "input {s:?}");
    }
}

fn args(v: &[&str]) -> Vec<String> {
    v.iter().map(|s| s.to_string()).collect()
}

#[test]
fn command_line_parsing() {
    let inv = parse_args(&args(&["ls", "disk.img", "/docs", "--vol", "2"])).unwrap();
    assert_eq!(inv.cmd, "ls");
    assert_eq!(inv.rest, vec!["disk.img", "/docs"]);
    assert_eq!(inv.vol_index, 2);
    let inv = parse_args(&args(&["--vol", "1", "cat", "x"])).unwrap();
    assert_eq!(inv.cmd, "cat");
    assert_eq!(inv.rest, vec!["x"]);
    assert_eq!(inv.vol_index, 1);
    let inv = parse_args(&args(&["tree", "img"])).unwrap();
    assert_eq!(inv.vol_index, 0);
    assert!(matches!(parse_args(&args(&[])), Err(CliError::Usage)));
    assert!(matches!(parse_args(&args(&["--vol", "3"])), Err(CliError::Usage)));
    assert!(matches!(parse_args(&args(&["ls", "--vol"])), Err(CliError::VolNeedsNumber)));
    assert!(matches!(parse_args(&args(&["ls", "--vol", "x"])), Err(CliError::BadNumber)));
}

#[test]
fn command_words() {
    assert_eq!(command("info"), Some(Command::Info));
    assert_eq!(command("ls"), Some(Command::Ls));
    assert_eq!(command("cat"), Some(Command::Cat));
    assert_eq!(command("tree"), Some(Command::Tree));
    assert_eq!(command("dump-fstree"), Some(Command::DumpFstree));
    assert_eq!(command("LS"), None);
}

#[test]
fn hex_is_lower_case() {
    assert_eq!(hex(&[0x00, 0x0F, 0xA0, 0xFF]), "000fa0ff");
    assert_eq!(hex(&[]), "");
}

#[test]
fn errors_that_call_for_a_gpt_scan() {
    assert!(needs_gpt_scan(&Error::BadMagic("NXSB")));
    assert!(needs_gpt_scan(&Error::Parse("not a container superblock")));
    assert!(!needs_gpt_scan(&Error::NotFound));
    assert!(!needs_gpt_scan(&Error::Corrupt("x")));
}

fn partition(type_guid: [u8; 16], index: u32) -> Partition {
    Partition {
        index,
        type_guid,
        part_guid: [0; 16],
        first_byte: 0,
        size_bytes: 0,
        name: String::new(),
    }
}

#[test]
fn apfs_partition_is_found_first() {
    let other = [1u8; 16];
    let parts = vec![partition(other, 1), partition(APFS_PART_TYPE, 2), partition(APFS_PART_TYPE, 3)];
    assert_eq!(find_apfs(&parts), Some(1));
    assert_eq!(find_apfs(&vec![partition(other, 1)]), None);
    assert!(parts[1].is_apfs());
    assert!(!parts[0].is_apfs());
    assert_eq!(parts[1].type_guid_string(), "7C3457EF-0000-11AA-AA11-00306543ECAC");
}

#[test]
fn ntstatus_mapping() {
    assert_eq!(ntstatus_of(&Error::NotFound), STATUS_OBJECT_NAME_NOT_FOUND);
    assert_eq!(ntstatus_of(&Error::NotADirectory), STATUS_NOT_A_DIRECTORY);
    assert_eq!(ntstatus_of(&Error::IsADirectory), STATUS_FILE_IS_A_DIRECTORY);
    assert_eq!(ntstatus_of(&Error::Encrypted), STATUS_IO_DEVICE_ERROR);
    assert_eq!(STATUS_OBJECT_NAME_NOT_FOUND as u32, 0xC000_0034);
    assert_eq!(STATUS_IO_DEVICE_ERROR as u32, 0xC000_0185);
}

#[test]
fn filetime_conversion() {
    assert_eq!(apfs_time_to_filetime(0), 116_444_736_000_000_000);
    assert_eq!(apfs_time_to_filetime(1_000), 116_444_736_000_000_010);
    assert_eq!(apfs_time_to_filetime(u64::MAX), u64::MAX / 100 + 116_444_736_000_000_000);
}

fn inode(mode: u16, size: u64, alloced: u64) -> Inode {
    Inode {
        id: 42,
        parent_id: 2,
        private_id: 42,
        create_time: 100,
        mod_time: 200,
        change_time: 300,
        access_time: 400,
        internal_flags: 0,
        nchildren_or_nlink: 1,
        bsd_flags: 0,
        owner: 501,
        group: 20,
        mode,
        size,
        alloced_size: alloced,
        name: None,
    }
}

#[test]
fn inode_kinds() {
    let f = inode(S_IFREG | 0o644, 10, 4096);
    assert!(f.is_file() && !f.is_dir() && !f.is_symlink() && !f.is_compressed());
    assert_eq!(f.file_type(), S_IFREG);
    let d = inode(S_IFDIR | 0o755, 0, 0);
    assert!(d.is_dir());
    let l = inode(S_IFLNK | 0o777, 0, 0);
    assert!(l.is_symlink());
    let mut c = inode(S_IFREG, 0, 0);
    c.bsd_flags = UF_COMPRESSED;
    assert!(c.is_compressed());
    let e = DirEntry { name: "x".into(), file_id: 3, date_added: 0, dtype: 4 };
    assert!(e.is_dir());
}

#[test]
fn windows_file_information() {
    let f = inode(S_IFREG | 0o644, 5000, 4096);
    assert_eq!(attributes(&f), FILE_ATTRIBUTE_READONLY | FILE_ATTRIBUTE_ARCHIVE);
    let info = file_info(&f);
    assert_eq!(info.file_size, 5000);
    assert_eq!(info.allocation_size, 5000);
    assert_eq!(info.creation_time, 116_444_736_000_000_001);
    assert_eq!(info.last_write_time, 116_444_736_000_000_002);
    assert_eq!(info.index_number, 42);
    let d = inode(S_IFDIR | 0o755, 0, 8192);
    assert_eq!(attributes(&d), FILE_ATTRIBUTE_READONLY | FILE_ATTRIBUTE_DIRECTORY);
    assert_eq!(file_info(&d).allocation_size, 8192);
}

#[test]
fn error_messages() {
    assert_eq!(Error::Parse("truncated").to_string(), "parse error: truncated");
    assert_eq!(
        Error::BadChecksum { block: 1234 }.to_string(),
        "fletcher-64 checksum mismatch at block 1234"
    );
    assert_eq!(Error::BadChecksum { block: 0 }.to_string(), "fletcher-64 checksum mismatch at block 0");
    assert_eq!(Error::BadMagic("NXSB").to_string(), "bad magic: expected NXSB");
    assert_eq!(
        Error::OmapMiss { oid: 0x402, xid: 17 }.to_string(),
        "object map: no entry for oid 0x402 at xid 17"
    );
    assert_eq!(
        Error::OmapMiss { oid: 0, xid: u64::MAX }.to_string(),
        "object map: no entry for oid 0x0 at xid 18446744073709551615"
    );
    assert_eq!(
        Error::OmapMiss { oid: 0xdead_beef, xid: 10 }.to_string(),
        "object map: no entry for oid 0xdeadbeef at xid 10"
    );
    assert_eq!(Error::NotFound.to_string(), "no such file or directory");
    assert_eq!(Error::NotADirectory.to_string(), "not a directory");
    assert_eq!(Error::IsADirectory.to_string(), "is a directory");
    assert_eq!(Error::Unsupported("lzfse").to_string(), "unsupported feature: lzfse");
    assert_eq!(Error::Encrypted.to_string(), "volume is encrypted");
    assert_eq!(Error::Corrupt("loop").to_string(), "structure violates invariant: loop");
    let io = Error::Io(std::io::Error::new(std::io::ErrorKind::Other, "disk on fire"));
    assert_eq!(io.to_string(), "I/O error: disk on fire");
}

#[test]
fn mount_command_line() {
    let m = parse_mount_args(&args(&["--image", "disk.img", "--letter", "M:", "--volume", "2"])).unwrap();
    assert_eq!(m.source.as_deref(), Some("disk.img"));
    assert_eq!(m.letter.as_deref(), Some("M:"));
    assert_eq!(m.volume, 2);
    assert!(m.share.is_none());
    assert!(!m.watch);
    let m = parse_mount_args(&args(&["--device", r"\\.\PhysicalDrive2", "--share", "mac"])).unwrap();
    assert_eq!(m.source.as_deref(), Some(r"\\.\PhysicalDrive2"));
    assert_eq!(m.share.as_deref(), Some("mac"));
    assert_eq!(m.volume, 0);
    let m = parse_mount_args(&args(&["--watch"])).unwrap();
    assert!(m.watch && m.source.is_none());
    // Exactly one of --watch and a source.
    assert!(parse_mount_args(&args(&[])).is_none());
    assert!(parse_mount_args(&args(&["--watch", "--image", "x"])).is_none());
    // Missing values, bad numbers, unknown and help flags.
    assert!(parse_mount_args(&args(&["--image"])).is_none());
    assert!(parse_mount_args(&args(&["--image", "x", "--volume", "two"])).is_none());
    assert!(parse_mount_args(&args(&["--image", "x", "--bogus"])).is_none());
    assert!(parse_mount_args(&args(&["--help"])).is_none());
    assert!(parse_mount_args(&args(&["-h", "--watch"])).is_none());
}

#[test]
fn drive_letters() {
    // A, B, C used: D is first.
    assert_eq!(first_free_letter(0b111), Some('D'));
    // A..F used.
    assert_eq!(first_free_letter(0b11_1111), Some('G'));
    // C free but never picked.
    assert_eq!(first_free_letter(0b11), Some('D'));
    // D..Y used, Z free.
    let mut mask = 0u32;
    for l in 0..25 {
        mask |= 1 << l;
    }
    assert_eq!(first_free_letter(mask), Some('Z'));
    assert_eq!(first_free_letter(u32::MAX), None);
    assert_eq!(first_free_letter((1 << 26) - 1), None);
}

#[test]
fn mount_points() {
    let (prefix, point) = mount_point("M:", None, true);
    assert!(prefix.is_none());
    assert_eq!(point, r"\\.\M:");
    let (_, point) = mount_point(r"\\.\M:", None, true);
    assert_eq!(point, r"\\.\M:");
    let (_, point) = mount_point("M:", None, false);
    assert_eq!(point, "M:");
    let (prefix, point) = mount_point("M:", Some("mac"), true);
    assert_eq!(prefix.as_deref(), Some(r"\apfs\mac"));
    assert_eq!(point, "M:");
}

#[test]
fn watch_loop_decisions() {
    assert_eq!(gone_disks(&vec![1, 4, 7], &vec![true, false, false]), vec![4, 7]);
    assert_eq!(gone_disks(&vec![], &vec![]), Vec::<u32>::new());
    let probe = disks_to_probe(&vec![0, 3, 15]);
    assert_eq!(probe, vec![1, 2, 4, 5, 6, 7, 8, 9, 10, 11, 12, 13, 14]);
    assert_eq!(disks_to_probe(&vec![]).len(), MAX_DISKS as usize);
    let parts = vec![
        partition([1; 16], 1),
        partition(APFS_PART_TYPE, 2),
        partition([0xAB; 16], 3),
        partition(APFS_PART_TYPE, 4),
    ];
    assert_eq!(apfs_partition_indices(&parts), vec![1, 3]);
}

#[test]
fn release_repository() {
    let ok = |u: &str| parse_repo(u).unwrap();
    assert_eq!(ok("https://github.com/acme/apfs"), ("acme".to_string(), "apfs".to_string()));
    assert_eq!(ok("https://github.com/acme/apfs/"), ("acme".to_string(), "apfs".to_string()));
    assert_eq!(ok("https://github.com/acme/apfs.git"), ("acme".to_string(), "apfs".to_string()));
    assert_eq!(ok("https://github.com/acme/apfs.git.git//"), ("acme".to_string(), "apfs".to_string()));
    assert_eq!(ok("https://github.com/acme/apfs/tree/main"), ("acme".to_string(), "apfs".to_string()));
    assert_eq!(
        parse_repo("https://gitlab.com/acme/apfs").unwrap_err(),
        "repository URL not a github.com URL: https://gitlab.com/acme/apfs"
    );
    let placeholder = |u: &str| {
        format!("set the real GitHub URL in the workspace Cargo.toml `repository` field (currently {u})")
    };
    for u in [
        "https://github.com/your-org/apfs",
        "https://github.com/acme",
        "https://github.com/",
        "https://github.com//apfs",
        "https://github.com/acme/.git",
    ] {
        assert_eq!(parse_repo(u).unwrap_err(), placeholder(u));
    }
}

#[test]
fn sector_alignment_rules() {
    assert_eq!(initial_alignment(r"\\.\PhysicalDrive2"), 512);
    assert_eq!(initial_alignment(r"\\?\Volume{1234}"), 512);
    assert_eq!(initial_alignment(r"C:\images\disk.img"), 0);
    assert_eq!(initial_alignment("disk.img"), 0);
    assert_eq!(aligned_window(1000, 100, 512).unwrap(), (512, 1536));
    assert_eq!(aligned_window(1024, 512, 512).unwrap(), (1024, 1536));
    assert_eq!(aligned_window(0, 0, 4096).unwrap(), (0, 0));
    assert_eq!(aligned_window(4095, 2, 4096).unwrap(), (0, 8192));
    match aligned_window(u64::MAX - 10, 5, 512) {
        Err(Error::Parse(m)) => assert_eq!(m, "aligned read overflow"),
        other => panic!("unexpected {:?}", other.map_err(|e| e.to_string())),
    }
    assert!(retry_with_4k(512, Some(87)));
    assert!(!retry_with_4k(4096, Some(87)));
    assert!(!retry_with_4k(512, Some(5)));
    assert!(!retry_with_4k(512, None));
}

fn entry(name: &str, file_id: u64, dtype: u16) -> DirEntry {
    DirEntry { name: name.to_string(), file_id, date_added: 0, dtype }
}

#[test]
fn listing_lines() {
    let f = inode(S_IFREG | 0o644, 28, 4096);
    assert_eq!(
        ls_line(&f, &entry("hello.txt", 16, DT_REG)),
        format!("- {:>10}  {:>8}  {}", 28, 16, "hello.txt")
    );
    let d = inode(S_IFDIR | 0o755, 0, 0);
    assert_eq!(ls_line(&d, &entry("docs", 17, DT_DIR)), "d          0        17  docs");
    let l = inode(S_IFLNK | 0o755, 12_345_678_901, 0);
    assert_eq!(ls_line(&l, &entry("x", 123_456_789, DT_LNK)), "l 12345678901  123456789  x");
    assert_eq!(tree_line(0, &entry("docs", 17, DT_DIR)), "docs/");
    assert_eq!(tree_line(2, &entry("big.bin", 19, DT_REG)), "    big.bin");
}

#[test]
fn record_dump_lines() {
    let mut key = 0x3000_0000_0000_0002u64.to_le_bytes().to_vec();
    key.extend_from_slice(&[0xAB, 0xCD]);
    let val = [1u8, 2, 3];
    assert_eq!(
        dump_line(&key, Some(&val)).unwrap(),
        "id=2      type=3  klen=10  vlen=3   k=0200000000000030abcd v=010203"
    );
    assert_eq!(
        dump_line(&key, None).unwrap(),
        "id=2      type=3  klen=10  vlen=0   k=0200000000000030abcd v="
    );
    let long = 0x9123_4567_89AB_CDEFu64.to_le_bytes();
    assert_eq!(
        dump_line(&long, Some(&[])).unwrap(),
        format!("id={:<6} type={:<2} klen={:<3} vlen={:<3} k=efcdab8967452391 v=", 0x0123_4567_89AB_CDEFu64, 9, 8, 0)
    );
    assert!(dump_line(&[1, 2, 3], None).is_none());
}

#[test]
fn drec_field_of_a_name_and_its_lower_case() {
    for name in ["Hello.TXT", "ReadMe.md", "DOCS", "a"] {
        let lower = name.to_ascii_lowercase();
        assert_eq!(drec_name_len_and_hash(name, true), drec_name_len_and_hash(&lower, true));
        assert_eq!(drec_name_len_and_hash(&lower, true), drec_name_len_and_hash(&lower, false));
    }
    assert_ne!(drec_name_len_and_hash("Hello", false), drec_name_len_and_hash("hello", false));
}
