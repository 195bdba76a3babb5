//! Reads through the library's devices: memory and windows into it.

use apfs_core::device::{read_exact, BlockDevice, MemDevice, SliceDevice};
use apfs_core::Error;

/// 1 MiB in which every byte is its offset modulo 256.
fn pattern() -> MemDevice {
    MemDevice::new((0..1u32 << 20).map(|i| i as u8).collect())
}

#[test]
fn caller_sources_work_through_devices() {
    let dev = pattern();
    let mut buf = [0u8; 4];
    read_exact(&dev, 254, &mut buf).unwrap();
    assert_eq!(buf, [254, 255, 0, 1]);
    assert_eq!(dev.len().unwrap(), 1 << 20);
    assert!(matches!(dev.read_at((1 << 20) - 1, &mut buf), Err(Error::Io(_))));
    let slice = SliceDevice::new(dev, 0x1000, 0x100);
    slice.read_at(0xfe, &mut buf[..2]).unwrap();
    assert_eq!(&buf[..2], &[0xfe, 0xff]);
    assert!(matches!(slice.read_at(0xff, &mut buf[..2]), Err(Error::Io(_))));
    assert_eq!(slice.len().unwrap(), 0x100);
    assert!(!slice.is_empty().unwrap());
}

#[test]
fn refused_reads_leave_the_buffer_alone() {
    let slice = SliceDevice::new(pattern(), 0x1000, 0x100);
    let mut buf = [7u8; 4];
    assert!(slice.read_at(0xfe, &mut buf).is_err());
    assert_eq!(buf, [7, 7, 7, 7]);
    assert!(matches!(slice.read_at(u64::MAX, &mut buf), Err(Error::Parse(_))));
    assert_eq!(buf, [7, 7, 7, 7]);
    let mem = pattern();
    assert!(mem.read_at(1 << 20, &mut buf).is_err());
    assert_eq!(buf, [7, 7, 7, 7]);
}
