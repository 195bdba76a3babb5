# apfs_core

A reader for the Apple File System (APFS) on-disk format, with its
behaviour stated as contracts and proved with Verus: checkpoints, object
maps, B-trees, volumes, inodes, directory records, extents, extended
attributes, decmpfs-compressed files, and the GPT partition table of whole
disks. Every parser treats disk bytes as untrusted input: a corrupt image
yields an `Error`, never a panic.

## Layout

- `src/` — the verified library.
  - `raw`, `obj`, `checksum`, `hash`, `text`: little-endian reads, object
    headers, Fletcher-64, CRC-32C and directory-name hashes, on-disk names.
  - `device`, `sector`: byte devices (in memory, or windows into another
    device) and the sector-alignment rules of raw
    Windows disks.
  - `container`, `omap`, `btree`, `volume`, `fs`, `decmpfs`: the read path.
  - `scan`: what B-tree walks, scans and descents visit, stated over a
    tree's leaf entries as one sequence.
  - `gpt`: partitions of whole disks.
  - `mount`, `automount`, `release`: what the Windows mount tool decides
    (file information, NTSTATUS codes, its command line, drive letters,
    the watch loop's choices, the release repository).
  - `cli`: what the `apfs` inspection tool decides.
  - `fixture`: the test-image writer — record building, B-tree node
    serialization, space-manager allocation — and its round-trip law.
- `tests/` — tests on concrete values, including an in-memory container
  that the fixture writer populates and the reader reads back.
- `app/` — the programs around the library: the `apfs` tool, the
  `apfs-fixture` tool, and the WinFsp mount tool (Windows only), with file
  and disk I/O. Images and disks are read into memory before the library
  opens them, since its proofs take a device's bytes to stay fixed.
