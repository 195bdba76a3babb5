//! The decisions of the `apfs-mount` tool: its command line, which drive
//! letter a volume gets, where a volume is mounted, and which disks the
//! watch loop probes or lets go.

use crate::cli::{args_view, parse_usize, spec_parse_usize};
use crate::gpt::Partition;
use crate::text::{starts_with, str_eq};
use vstd::prelude::*;
use vstd::string::StringExecFns;

verus! {

/// Highest disk number (exclusive) probed in watch mode.
pub const MAX_DISKS: u32 = 16;

/// A parsed `apfs-mount` command line.
pub struct MountArgs {
    /// `--device` or `--image`: the file to mount.
    pub source: Option<String>,
    /// `--letter`: the drive letter to mount at.
    pub letter: Option<String>,
    /// `--volume`: the volume index (default 0).
    pub volume: usize,
    /// `--share`: the UNC share name.
    pub share: Option<String>,
    /// `--watch`: plug-and-play mode.
    pub watch: bool,
}

/// What a [`MountArgs`] holds.
pub struct MountArgsView {
    pub source: Option<Seq<char>>,
    pub letter: Option<Seq<char>>,
    pub volume: usize,
    pub share: Option<Seq<char>>,
    pub watch: bool,
}

pub open spec fn opt_view(o: Option<String>) -> Option<Seq<char>> {
    match o {
        Some(s) => Some(s@),
        None => None,
    }
}

impl View for MountArgs {
    type V = MountArgsView;

    open spec fn view(&self) -> MountArgsView {
        MountArgsView {
            source: opt_view(self.source),
            letter: opt_view(self.letter),
            volume: self.volume,
            share: opt_view(self.share),
            watch: self.watch,
        }
    }
}

/// Scanning the arguments from `i` with the options read so far; `None`
/// when an option lacks its value, a volume is not a number, or an
/// argument is unknown (`--help` and `-h` among them).
pub open spec fn spec_scan_mount(args: Seq<Seq<char>>, i: int, st: MountArgsView) -> Option<MountArgsView>
    decreases args.len() - i,
{
    if i >= args.len() || i < 0 {
        Some(st)
    } else if args[i] == "--device"@ || args[i] == "--image"@ {
        if i + 1 >= args.len() {
            None
        } else {
            spec_scan_mount(args, i + 2, MountArgsView { source: Some(args[i + 1]), ..st })
        }
    } else if args[i] == "--letter"@ {
        if i + 1 >= args.len() {
            None
        } else {
            spec_scan_mount(args, i + 2, MountArgsView { letter: Some(args[i + 1]), ..st })
        }
    } else if args[i] == "--volume"@ {
        if i + 1 >= args.len() {
            None
        } else {
            match spec_parse_usize(args[i + 1]) {
                None => None,
                Some(n) => spec_scan_mount(args, i + 2, MountArgsView { volume: n, ..st }),
            }
        }
    } else if args[i] == "--share"@ {
        if i + 1 >= args.len() {
            None
        } else {
            spec_scan_mount(args, i + 2, MountArgsView { share: Some(args[i + 1]), ..st })
        }
    } else if args[i] == "--watch"@ {
        spec_scan_mount(args, i + 1, MountArgsView { watch: true, ..st })
    } else {
        None
    }
}

/// The options of a command line, when it is a valid one: exactly one of
/// `--watch` and a source.
pub open spec fn spec_parse_mount_args(args: Seq<Seq<char>>) -> Option<MountArgsView> {
    let init = MountArgsView { source: None, letter: None, volume: 0, share: None, watch: false };
    match spec_scan_mount(args, 0, init) {
        None => None,
        Some(st) => if st.watch == (st.source is Some) {
            None
        } else {
            Some(st)
        },
    }
}

/// Parse the `apfs-mount` arguments (without the program name).
#[verifier::rlimit(30)]
pub fn parse_mount_args(args: &Vec<String>) -> (r: Option<MountArgs>)
    ensures
        match spec_parse_mount_args(args_view(args@)) {
            Some(v) => r matches Some(m) && m@ == v,
            None => r is None,
        },
{
    let ghost a = args_view(args@);
    let mut m = MountArgs { source: None, letter: None, volume: 0, share: None, watch: false };
    let mut i: usize = 0;
    assert(m@ == MountArgsView { source: None, letter: None, volume: 0, share: None, watch: false });
    while i < args.len()
        invariant
            i <= args@.len(),
            a == args_view(args@),
            spec_scan_mount(a, 0, MountArgsView { source: None, letter: None, volume: 0, share: None, watch: false })
                == spec_scan_mount(a, i as int, m@),
        decreases args@.len() - i,
    {
        let arg = args[i].as_str();
        assert(arg@ == a[i as int]);
        if str_eq(arg, "--device") || str_eq(arg, "--image") {
            if i + 1 >= args.len() {
                return None;
            }
            m.source = Some(args[i + 1].clone());
            i = i + 2;
        } else if str_eq(arg, "--letter") {
            if i + 1 >= args.len() {
                return None;
            }
            m.letter = Some(args[i + 1].clone());
            i = i + 2;
        } else if str_eq(arg, "--volume") {
            if i + 1 >= args.len() {
                return None;
            }
            match parse_usize(args[i + 1].as_str()) {
                Some(n) => m.volume = n,
                None => return None,
            }
            i = i + 2;
        } else if str_eq(arg, "--share") {
            if i + 1 >= args.len() {
                return None;
            }
            m.share = Some(args[i + 1].clone());
            i = i + 2;
        } else if str_eq(arg, "--watch") {
            m.watch = true;
            i = i + 1;
        } else {
            return None;
        }
    }
    if m.watch == m.source.is_some() {
        return None;
    }
    Some(m)
}

/// Whether drive letter number `i` (0 for A) is free in the logical-drive
/// bit mask.
pub open spec fn letter_free(mask: u32, i: u32) -> bool {
    mask & (1u32 << i) == 0
}

/// The first free drive letter from D to Z (A and B are floppies, C the
/// system drive), given the logical-drive bit mask.
pub fn first_free_letter(mask: u32) -> (r: Option<char>)
    ensures
        r matches Some(c) ==> exists|i: u32|
            3 <= i < 26 && c == (65 + i) as char && letter_free(mask, i) && forall|j: u32|
                3 <= j < i ==> !letter_free(mask, j),
        r is None ==> forall|j: u32| 3 <= j < 26 ==> !letter_free(mask, j),
{
    let mut i: u32 = 3;
    while i < 26
        invariant
            3 <= i <= 26,
            forall|j: u32| 3 <= j < i ==> !letter_free(mask, j),
        decreases 26 - i,
    {
        if mask & (1u32 << i) == 0 {
            let c = (65 + i as u8) as char;
            assert(c == (65 + i) as char && letter_free(mask, i));
            assert(exists|k: u32|
                3 <= k < 26 && c == (65 + k) as char && letter_free(mask, k) && forall|j: u32|
                    3 <= j < k ==> !letter_free(mask, j));
            return Some(c);
        }
        i += 1;
    }
    None
}

/// The Mount Manager form of a drive letter.
pub open spec fn device_prefix() -> Seq<char> {
    "\\\\.\\"@
}

/// Where a volume is mounted: the UNC prefix `\apfs\NAME` when shared, and
/// the mount point, which goes through the Mount Manager (`\\.\M:`) when
/// asked for, with no share and a plain letter.
pub fn mount_point(letter: &str, share: Option<&str>, mount_manager: bool) -> (r: (Option<String>, String))
    ensures
        match share {
            Some(s) => r.0 matches Some(p) && p@ == "\\apfs\\"@ + s@,
            None => r.0 is None,
        },
        r.1@ == if mount_manager && share is None && !device_prefix().is_prefix_of(letter@) {
            device_prefix() + letter@
        } else {
            letter@
        },
{
    let prefix = match share {
        Some(s) => {
            let mut p = String::from_str("\\apfs\\");
            p.append(s);
            Some(p)
        },
        None => None,
    };
    let point = if mount_manager && prefix.is_none() && !starts_with(letter, "\\\\.\\") {
        let mut p = String::from_str("\\\\.\\");
        p.append(letter);
        p
    } else {
        String::from_str(letter)
    };
    (prefix, point)
}

/// The disks of `mounted` whose `present` flag is false, in order.
pub open spec fn spec_gone(mounted: Seq<u32>, present: Seq<bool>) -> Seq<u32>
    decreases mounted.len(),
{
    if mounted.len() == 0 {
        Seq::empty()
    } else {
        let rest = spec_gone(mounted.drop_last(), present);
        if present[mounted.len() - 1] {
            rest
        } else {
            rest.push(mounted.last())
        }
    }
}

/// The mounted disks that are no longer present (`present[k]` tells
/// whether `mounted[k]` still opens and reads), in order.
pub fn gone_disks(mounted: &Vec<u32>, present: &Vec<bool>) -> (g: Vec<u32>)
    requires
        present@.len() == mounted@.len(),
    ensures
        g@ == spec_gone(mounted@, present@),
{
    let mut g: Vec<u32> = Vec::new();
    let mut i: usize = 0;
    while i < mounted.len()
        invariant
            i <= mounted@.len(),
            present@.len() == mounted@.len(),
            g@ == spec_gone(mounted@.take(i as int), present@),
        decreases mounted@.len() - i,
    {
        assert(mounted@.take(i + 1).drop_last() =~= mounted@.take(i as int));
        if !present[i] {
            g.push(mounted[i]);
        }
        i += 1;
    }
    assert(mounted@.take(mounted@.len() as int) =~= mounted@);
    g
}

/// The disk numbers below [`MAX_DISKS`] that are not mounted yet, in
/// ascending order.
#[verifier::rlimit(30)]
pub fn disks_to_probe(mounted: &Vec<u32>) -> (d: Vec<u32>)
    ensures
        forall|k: int| 0 <= k < d@.len() ==> d@[k] < MAX_DISKS && !mounted@.contains(#[trigger] d@[k]),
        forall|k: int, l: int| 0 <= k < l < d@.len() ==> d@[k] < d@[l],
        forall|n: u32| n < MAX_DISKS && !mounted@.contains(n) ==> d@.contains(n),
{
    let mut d: Vec<u32> = Vec::new();
    let mut n: u32 = 0;
    while n < MAX_DISKS
        invariant
            n <= MAX_DISKS,
            forall|k: int| 0 <= k < d@.len() ==> d@[k] < n && !mounted@.contains(#[trigger] d@[k]),
            forall|k: int, l: int| 0 <= k < l < d@.len() ==> d@[k] < d@[l],
            forall|m: u32| m < n && !mounted@.contains(m) ==> d@.contains(m),
        decreases MAX_DISKS - n,
    {
        let mut found = false;
        let mut j: usize = 0;
        while j < mounted.len()
            invariant
                j <= mounted@.len(),
                found <==> exists|k: int| 0 <= k < j && mounted@[k] == n,
            decreases mounted@.len() - j,
        {
            if mounted[j] == n {
                found = true;
            }
            j += 1;
        }
        if !found {
            let ghost before = d@;
            d.push(n);
            assert forall|m: u32| m < n + 1 && !mounted@.contains(m) implies d@.contains(m) by {
                if m < n {
                    assert(before.contains(m));
                    let k = choose|k: int| 0 <= k < before.len() && before[k] == m;
                    assert(d@[k] == m);
                } else {
                    assert(d@[d@.len() - 1] == m);
                }
            };
        } else {
            assert(mounted@.contains(n));
        }
        n += 1;
    }
    d
}

/// Indices of the APFS partitions of `parts`, in ascending order.
#[verifier::rlimit(30)]
pub fn apfs_partition_indices(parts: &Vec<Partition>) -> (ix: Vec<usize>)
    ensures
        forall|k: int| 0 <= k < ix@.len() ==> ix@[k] < parts@.len() && parts@[#[trigger] ix@[k] as int].type_guid@ == crate::gpt::APFS_PART_TYPE@,
        forall|k: int, l: int| 0 <= k < l < ix@.len() ==> ix@[k] < ix@[l],
        forall|i: int| 0 <= i < parts@.len() && parts@[i].type_guid@ == crate::gpt::APFS_PART_TYPE@ ==> ix@.contains(i as usize),
{
    let mut ix: Vec<usize> = Vec::new();
    let mut i: usize = 0;
    while i < parts.len()
        invariant
            i <= parts@.len(),
            forall|k: int| 0 <= k < ix@.len() ==> ix@[k] < i && parts@[#[trigger] ix@[k] as int].type_guid@ == crate::gpt::APFS_PART_TYPE@,
            forall|k: int, l: int| 0 <= k < l < ix@.len() ==> ix@[k] < ix@[l],
            forall|m: int| 0 <= m < i && parts@[m].type_guid@ == crate::gpt::APFS_PART_TYPE@ ==> ix@.contains(m as usize),
        decreases parts@.len() - i,
    {
        if parts[i].is_apfs() {
            let ghost before = ix@;
            ix.push(i);
            assert forall|m: int| 0 <= m < i + 1 && parts@[m].type_guid@ == crate::gpt::APFS_PART_TYPE@ implies ix@.contains(m as usize) by {
                if m < i {
                    let k = choose|k: int| 0 <= k < before.len() && before[k] == m as usize;
                    assert(ix@[k] == m as usize);
                } else {
                    assert(ix@[ix@.len() - 1] == m as usize);
                }
            };
        }
        i += 1;
    }
    ix
}

}
