//! Minimal GPT (GUID Partition Table) reader — just enough to locate APFS
//! partitions on a whole-disk device.

use crate::device::{dev_read, read_exact, BlockDevice};
use crate::error::{same_error, Error};
use crate::raw::{le32, le64, uuid_text, uuid_to_string, SliceReader};
use crate::text::{spec_utf16_lossy, units_before_nul, utf16le_name, utf16le_units};
use crate::Result;
use vstd::prelude::*;

verus! {

/// APFS partition type GUID `7C3457EF-0000-11AA-AA11-00306543ECAC`
/// in on-disk (mixed-endian) byte order.
pub const APFS_PART_TYPE: [u8; 16] = [
    0xEF, 0x57, 0x34, 0x7C, 0x00, 0x00, 0xAA, 0x11, 0xAA, 0x11, 0x00, 0x30, 0x65, 0x43, 0xEC, 0xAC,
];

/// "EFI PART".
pub const GPT_SIGNATURE: u64 = 0x5452_4150_2049_4645;

/// One used GPT partition entry.
#[derive(Debug, Clone)]
pub struct Partition {
    pub index: u32,
    pub type_guid: [u8; 16],
    pub part_guid: [u8; 16],
    pub first_byte: u64,
    pub size_bytes: u64,
    pub name: String,
}

/// The mathematical value of a [`Partition`].
pub struct PartitionView {
    pub index: u32,
    pub type_guid: Seq<u8>,
    pub part_guid: Seq<u8>,
    pub first_byte: u64,
    pub size_bytes: u64,
    pub name: Seq<char>,
}

impl View for Partition {
    type V = PartitionView;

    open spec fn view(&self) -> PartitionView {
        PartitionView {
            index: self.index,
            type_guid: self.type_guid@,
            part_guid: self.part_guid@,
            first_byte: self.first_byte,
            size_bytes: self.size_bytes,
            name: self.name@,
        }
    }
}

impl Partition {
    pub fn is_apfs(&self) -> (b: bool)
        ensures
            b == (self.type_guid@ == APFS_PART_TYPE@),
    {
        let want = APFS_PART_TYPE;
        let mut i: usize = 0;
        while i < 16
            invariant
                i <= 16,
                want@ == APFS_PART_TYPE@,
                forall|j: int| 0 <= j < i ==> self.type_guid@[j] == want@[j],
            decreases 16 - i,
        {
            if self.type_guid[i] != want[i] {
                return false;
            }
            i += 1;
        }
        assert(self.type_guid@ =~= APFS_PART_TYPE@);
        true
    }

    pub fn type_guid_string(&self) -> (s: String)
        ensures
            s@ == uuid_text(self.type_guid@),
    {
        uuid_to_string(&self.type_guid)
    }
}

/// The partition that table slot `i` (of `esz` bytes, at least 128)
/// describes, or `None` for an unused or empty slot.
pub open spec fn spec_gpt_entry(table: Seq<u8>, i: int, esz: int, lss: u64) -> core::result::Result<
    Option<PartitionView>,
    Error,
> {
    let e = table.subrange(i * esz, i * esz + 128);
    let first = le64(e, 32);
    let last = le64(e, 40);
    if forall|k: int| 0 <= k < 16 ==> e[k] == 0u8 {
        Ok(None)
    } else if last < first {
        Ok(None)
    } else if first * lss > u64::MAX || (last - first + 1) * lss > u64::MAX {
        Err(Error::Corrupt("GPT partition out of range"))
    } else {
        Ok(
            Some(
                PartitionView {
                    index: (i + 1) as u32,
                    type_guid: e.subrange(0, 16),
                    part_guid: e.subrange(16, 32),
                    first_byte: (first * lss) as u64,
                    size_bytes: ((last - first + 1) * lss) as u64,
                    name: spec_utf16_lossy(units_before_nul(utf16le_units(e.subrange(56, 128)))),
                },
            ),
        )
    }
}

/// The used partitions among the first `k` table slots, in slot order.
pub open spec fn spec_gpt_entries(table: Seq<u8>, esz: int, lss: u64, k: int) -> core::result::Result<
    Seq<PartitionView>,
    Error,
>
    decreases k,
{
    if k <= 0 {
        Ok(Seq::empty())
    } else {
        match spec_gpt_entries(table, esz, lss, k - 1) {
            Err(e) => Err(e),
            Ok(ps) => match spec_gpt_entry(table, k - 1, esz, lss) {
                Err(e) => Err(e),
                Ok(None) => Ok(ps),
                Ok(Some(p)) => Ok(ps.push(p)),
            },
        }
    }
}

/// The partitions of the GPT found with logical sector size `lss`.
pub open spec fn spec_read_partitions_lss<D: BlockDevice>(dev: D, lss: u64) -> core::result::Result<
    Seq<PartitionView>,
    Error,
> {
    match dev_read(dev, lss as int, 92) {
        Err(e) => Err(e),
        Ok(h) => if le64(h, 0) != GPT_SIGNATURE {
            Err(Error::BadMagic("EFI PART"))
        } else {
            let lba = le64(h, 72);
            let num = le32(h, 80);
            let esz = le32(h, 84);
            if esz < 128 || esz > 4096 || num > 1024 {
                Err(Error::Corrupt("GPT entry table out of range"))
            } else if lba * lss > u64::MAX {
                Err(Error::Corrupt("GPT entry table out of range"))
            } else {
                match dev_read(dev, lba * lss, num * esz) {
                    Err(e) => Err(e),
                    Ok(t) => spec_gpt_entries(t, esz, lss, num),
                }
            }
        },
    }
}

/// The partitions of a device's GPT: with 512-byte logical sectors, else
/// with 4096-byte ones when no GPT header shows at 512.
pub open spec fn spec_read_partitions<D: BlockDevice>(dev: D) -> core::result::Result<Seq<PartitionView>, Error> {
    match spec_read_partitions_lss(dev, 512) {
        Err(Error::BadMagic(_)) => match spec_read_partitions_lss(dev, 4096) {
            Err(Error::BadMagic(_)) => Err(Error::BadMagic("EFI PART (no GPT found)")),
            r => r,
        },
        r => r,
    }
}

/// The views of a list of partitions.
pub open spec fn partitions_view(v: Seq<Partition>) -> Seq<PartitionView> {
    v.map_values(|p: Partition| p@)
}

/// `r` carries the partitions `s` describes, or fails the same way.
pub open spec fn partitions_result(r: Result<Vec<Partition>>, s: core::result::Result<Seq<PartitionView>, Error>) -> bool {
    match r {
        Ok(v) => s == Ok::<Seq<PartitionView>, Error>(partitions_view(v@)),
        Err(e) => s matches Err(e2) && same_error(e, e2),
    }
}

/// Scan a device for a GPT and return its partitions. Tries both 512-byte
/// and 4096-byte logical sector sizes (external drives are commonly 512e;
/// native 4Kn enclosures exist).
pub fn read_partitions<D: BlockDevice>(dev: &D) -> (r: Result<Vec<Partition>>)
    ensures
        partitions_result(r, spec_read_partitions(*dev)),
{
    match read_partitions_lss(dev, 512) {
        Ok(parts) => return Ok(parts),
        Err(Error::BadMagic(_)) => {},
        Err(e) => return Err(e),
    }
    match read_partitions_lss(dev, 4096) {
        Ok(parts) => Ok(parts),
        Err(Error::BadMagic(_)) => Err(Error::BadMagic("EFI PART (no GPT found)")),
        Err(e) => Err(e),
    }
}

/// Parse table slot `i` (at byte `i * esz`).
#[verifier::rlimit(30)]
fn parse_entry(table: &[u8], i: u32, esz: u32, lss: u64) -> (r: Result<Option<Partition>>)
    requires
        128 <= esz,
        (i + 1) * esz <= table@.len(),
        i < 1024,
        lss > 0,
    ensures
        match spec_gpt_entry(table@, i as int, esz as int, lss) {
            Ok(None) => r matches Ok(None),
            Ok(Some(p)) => r matches Ok(Some(q)) && q@ == p,
            Err(e) => r matches Err(e2) && e2 == e,
        },
{
    assert(i * esz + 128 <= table.len()) by (nonlinear_arith)
        requires
            (i + 1) * esz <= table@.len(),
            128 <= esz,
    ;
    let off = (i as usize) * (esz as usize);
    let ghost e = table@.subrange(off as int, off + 128);
    let mut er = SliceReader::at(table, off)?;
    let type_guid = er.uuid()?;
    let mut used = false;
    let mut k: usize = 0;
    while k < 16
        invariant
            k <= 16,
            e.len() == 128,
            type_guid@ == e.subrange(0, 16),
            used == exists|j: int| 0 <= j < k && e[j] != 0u8,
        decreases 16 - k,
    {
        if type_guid[k] != 0 {
            used = true;
        }
        assert(type_guid@[k as int] == e[k as int]);
        k += 1;
    }
    if !used {
        return Ok(None); // unused slot
    }
    let part_guid = er.uuid()?;
    let first_lba = er.u64()?;
    let last_lba = er.u64()?;
    er.skip(8)?; // attributes
    let name_utf16 = er.bytes(72)?;
    assert(name_utf16@ =~= e.subrange(56, 128));
    let name = utf16le_name(name_utf16);
    if last_lba < first_lba {
        return Ok(None);
    }
    let first_byte = match first_lba.checked_mul(lss) {
        Some(x) => x,
        None => return Err(Error::Corrupt("GPT partition out of range")),
    };
    let count = match (last_lba - first_lba).checked_add(1) {
        Some(x) => x,
        None => {
            assert((last_lba - first_lba + 1) * lss > u64::MAX) by (nonlinear_arith)
                requires
                    last_lba - first_lba + 1 > u64::MAX,
                    lss > 0,
            ;
            return Err(Error::Corrupt("GPT partition out of range"));
        },
    };
    let size_bytes = match count.checked_mul(lss) {
        Some(x) => x,
        None => return Err(Error::Corrupt("GPT partition out of range")),
    };
    proof {
        assert(first_lba == le64(e, 32) && last_lba == le64(e, 40));
        assert(e.subrange(0, 16) == type_guid@);
        assert(e.subrange(16, 32) =~= part_guid@);
    }
    Ok(Some(Partition { index: i + 1, type_guid, part_guid, first_byte, size_bytes, name }))
}

#[verifier::rlimit(30)]
fn read_partitions_lss<D: BlockDevice>(dev: &D, lss: u64) -> (r: Result<Vec<Partition>>)
    requires
        lss > 0,
    ensures
        partitions_result(r, spec_read_partitions_lss(*dev, lss)),
{
    let mut hdr = crate::fs::zeros(92);
    read_exact(dev, lss, hdr.as_mut_slice())?; // GPT header lives at LBA 1
    let mut r = SliceReader::new(hdr.as_slice());
    if r.u64()? != GPT_SIGNATURE {
        return Err(Error::BadMagic("EFI PART"));
    }
    r.skip(4 + 4 + 4 + 4)?; // revision, header size, crc, reserved
    r.skip(8 + 8 + 8 + 8)?; // my_lba, alt_lba, first_usable, last_usable
    r.skip(16)?; // disk guid
    let part_entry_lba = r.u64()?;
    let num_entries = r.u32()?;
    let entry_size = r.u32()?;
    if entry_size < 128 || entry_size > 4096 || num_entries > 1024 {
        return Err(Error::Corrupt("GPT entry table out of range"));
    }
    let table_off = match part_entry_lba.checked_mul(lss) {
        Some(x) => x,
        None => return Err(Error::Corrupt("GPT entry table out of range")),
    };
    assert(num_entries * entry_size <= 1024 * 4096) by (nonlinear_arith)
        requires
            num_entries <= 1024,
            entry_size <= 4096,
    ;
    let table_bytes = (num_entries as usize) * (entry_size as usize);
    let mut table = crate::fs::zeros(table_bytes);
    read_exact(dev, table_off, table.as_mut_slice())?;

    let ghost t = table@;
    let mut parts: Vec<Partition> = Vec::new();
    assert(partitions_view(parts@) =~= Seq::<PartitionView>::empty());
    let mut i: u32 = 0;
    while i < num_entries
        invariant
            i <= num_entries <= 1024,
            128 <= entry_size <= 4096,
            table@ == t,
            t.len() == num_entries * entry_size,
            lss > 0,
            spec_read_partitions_lss(*dev, lss) == spec_gpt_entries(t, entry_size as int, lss, num_entries as int),
            spec_gpt_entries(t, entry_size as int, lss, i as int) == Ok::<Seq<PartitionView>, Error>(
                partitions_view(parts@),
            ),
        decreases num_entries - i,
    {
        assert((i + 1) * entry_size <= t.len()) by (nonlinear_arith)
            requires
                i < num_entries,
                t.len() == num_entries * entry_size,
        ;
        let ghost before = parts@;
        match parse_entry(table.as_slice(), i, entry_size, lss) {
            Ok(Some(p)) => {
                parts.push(p);
                assert(partitions_view(parts@) =~= partitions_view(before).push(p@));
            },
            Ok(None) => {},
            Err(e) => {
                proof {
                    lemma_entries_stop(t, entry_size as int, lss, i + 1, num_entries as int);
                }
                return Err(e);
            },
        }
        i += 1;
    }
    Ok(parts)
}

/// Once a slot fails to parse, the table as a whole fails the same way.
proof fn lemma_entries_stop(t: Seq<u8>, esz: int, lss: u64, k: int, n: int)
    requires
        0 < k <= n,
        spec_gpt_entries(t, esz, lss, k) is Err,
    ensures
        spec_gpt_entries(t, esz, lss, n) == spec_gpt_entries(t, esz, lss, k),
    decreases n - k,
{
    if k < n {
        assert(spec_gpt_entries(t, esz, lss, k + 1) == spec_gpt_entries(t, esz, lss, k));
        lemma_entries_stop(t, esz, lss, k + 1, n);
    }
}

} // verus!
