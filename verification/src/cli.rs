//! The decisions of the `apfs` command-line tool: argument parsing, how an
//! image is opened (bare container or through its GPT), and the small
//! formatting rules of its listings.

use crate::container::{nx_fields, spec_container_open, Container, NxSuperblock};
use crate::device::{BlockDevice, SliceDevice};
use crate::error::{dec_text, push_dec, same_error, Error};
use crate::fs::{jkey_id, jkey_type, spec_is_dir, spec_is_symlink, split_jkey, DirEntry, Inode};
use crate::gpt::{Partition, APFS_PART_TYPE};
use crate::raw::le64;
use crate::text::{chars_of, push_char, str_eq};
use crate::types::DT_DIR;
use crate::volume::{spec_case_insensitive, ApfsSuperblock};
use vstd::prelude::*;
use vstd::string::StringExecFns;

pub use crate::mount::norm_path;

verus! {

pub const USAGE: &'static str = "usage: apfs <info|ls|cat|tree|dump-fstree> <image> [path] [--vol N]";

/// Why a command line was refused.
#[derive(Debug, Clone, Copy, PartialEq, Eq, Structural)]
pub enum CliError {
    /// Not enough arguments, or an unknown command.
    Usage,
    /// `--vol` was the last argument.
    VolNeedsNumber,
    /// The argument after `--vol` is not a decimal `usize`.
    BadNumber,
}

/// The sub-commands.
#[derive(Debug, Clone, Copy, PartialEq, Eq, Structural)]
pub enum Command {
    Info,
    Ls,
    Cat,
    Tree,
    DumpFstree,
}

/// A parsed command line: the command word, the positional arguments
/// after it, and the volume index (`--vol N`, default 0).
pub struct Invocation {
    pub cmd: String,
    pub rest: Vec<String>,
    pub vol_index: usize,
}

pub open spec fn is_digit(c: char) -> bool {
    '0' <= c <= '9'
}

/// The value of a string of decimal digits.
pub open spec fn digits_value(s: Seq<char>) -> int
    decreases s.len(),
{
    if s.len() == 0 {
        0
    } else {
        digits_value(s.drop_last()) * 10 + (s.last() as int - '0' as int)
    }
}

/// `s` without one leading `+`.
pub open spec fn unsigned_part(s: Seq<char>) -> Seq<char> {
    if s.len() > 0 && s[0] == '+' {
        s.skip(1)
    } else {
        s
    }
}

pub open spec fn all_digits(t: Seq<char>) -> bool {
    forall|i: int| 0 <= i < t.len() ==> is_digit(#[trigger] t[i])
}

/// What `str::parse::<usize>` accepts: an optional `+`, then one or more
/// decimal digits whose value fits in a `usize`.
pub open spec fn spec_parse_usize(s: Seq<char>) -> Option<usize> {
    let t = unsigned_part(s);
    if t.len() == 0 || !all_digits(t) {
        None
    } else if digits_value(t) > usize::MAX {
        None
    } else {
        Some(digits_value(t) as usize)
    }
}

proof fn lemma_digits_grow(s: Seq<char>)
    requires
        forall|i: int| 0 <= i < s.len() ==> is_digit(#[trigger] s[i]),
    ensures
        digits_value(s) >= 0,
        forall|k: int| 0 <= k <= s.len() ==> digits_value(#[trigger] s.take(k)) <= digits_value(s),
    decreases s.len(),
{
    if s.len() > 0 {
        let d = s.drop_last();
        lemma_digits_grow(d);
        assert forall|k: int| 0 <= k <= s.len() implies digits_value(#[trigger] s.take(k)) <= digits_value(s) by {
            if k < s.len() {
                assert(s.take(k) =~= d.take(k));
            } else {
                assert(s.take(k) =~= s);
            }
        };
    }
}

/// Parse a decimal `usize` the way `str::parse::<usize>` does.
#[verifier::rlimit(30)]
pub fn parse_usize(s: &str) -> (r: Option<usize>)
    ensures
        r == spec_parse_usize(s@),
{
    let ghost t = unsigned_part(s@);
    let mut acc: usize = 0;
    let mut nonempty = false;
    let mut overflow = false;
    let mut first = true;
    let mut bad = false;
    let ghost mut k: int = 0;
    for ch in it: s.chars()
        invariant
            it.seq() == s@,
            t == unsigned_part(s@),
            first <==> it.index() == 0,
            k == (if s@.len() > 0 && s@[0] == '+' && it.index() > 0 { it.index() - 1 } else { it.index() as int }),
            0 <= k <= t.len(),
            nonempty <==> k > 0,
            bad <==> !all_digits(t.take(k)),
            !bad ==> (overflow <==> digits_value(t.take(k)) > usize::MAX),
            !bad && !overflow ==> acc == digits_value(t.take(k)),
    {
        if first && ch == '+' {
            first = false;
        } else {
            first = false;
            proof {
                assert(t[k] == ch);
                assert(t.take(k + 1).drop_last() =~= t.take(k));
            }
            if '0' <= ch && ch <= '9' {
                if !bad && !overflow {
                    let d = (ch as u32 - '0' as u32) as usize;
                    match acc.checked_mul(10) {
                        Some(m) => match m.checked_add(d) {
                            Some(v) => acc = v,
                            None => overflow = true,
                        },
                        None => {
                            proof {
                                lemma_digits_grow(t.take(k + 1));
                            }
                            overflow = true;
                        },
                    }
                } else if !bad && overflow {
                    proof {
                        assert(forall|i: int| 0 <= i < k + 1 ==> is_digit(#[trigger] t.take(k + 1)[i]));
                        lemma_digits_grow(t.take(k + 1));
                        assert(t.take(k + 1).take(k) =~= t.take(k));
                    }
                }
            } else {
                bad = true;
            }
            nonempty = true;
            proof {
                let a = t.take(k);
                let b = t.take(k + 1);
                assert(all_digits(b) <==> (all_digits(a) && is_digit(t[k]))) by {
                    if all_digits(b) {
                        assert(b[k] == t[k]);
                        assert forall|i: int| 0 <= i < a.len() implies is_digit(#[trigger] a[i]) by {
                            assert(a[i] == b[i]);
                        };
                    }
                    if all_digits(a) && is_digit(t[k]) {
                        assert forall|i: int| 0 <= i < b.len() implies is_digit(#[trigger] b[i]) by {
                            if i < k {
                                assert(a[i] == b[i]);
                            }
                        };
                    }
                };
                k = k + 1;
            }
        }
    }
    proof {
        assert(k == t.len());
        assert(t.take(k) =~= t);
        if !nonempty {
            assert(t.len() == 0);
        }

    }
    if !nonempty || bad || overflow {
        None
    } else {
        Some(acc)
    }
}

/// The views of a list of strings.
pub open spec fn args_view(v: Seq<String>) -> Seq<Seq<char>> {
    v.map_values(|s: String| s@)
}

/// Scanning the arguments from `i`: positional arguments collected so far
/// and the volume index chosen so far.
pub open spec fn spec_scan_args(args: Seq<Seq<char>>, i: int, pos: Seq<Seq<char>>, vol: usize) -> core::result::Result<
    (Seq<Seq<char>>, usize),
    CliError,
>
    decreases args.len() - i,
{
    if i >= args.len() || i < 0 {
        Ok((pos, vol))
    } else if args[i] == "--vol"@ {
        if i + 1 >= args.len() {
            Err(CliError::VolNeedsNumber)
        } else {
            match spec_parse_usize(args[i + 1]) {
                None => Err(CliError::BadNumber),
                Some(n) => spec_scan_args(args, i + 2, pos, n),
            }
        }
    } else {
        spec_scan_args(args, i + 1, pos.push(args[i]), vol)
    }
}

/// The command word, the arguments after it and the volume index.
pub open spec fn spec_parse_args(args: Seq<Seq<char>>) -> core::result::Result<(Seq<char>, Seq<Seq<char>>, usize), CliError> {
    match spec_scan_args(args, 0, Seq::empty(), 0) {
        Err(e) => Err(e),
        Ok((pos, vol)) => if pos.len() == 0 {
            Err(CliError::Usage)
        } else {
            Ok((pos[0], pos.skip(1), vol))
        },
    }
}

/// Split the command line into command, positional arguments and
/// `--vol N`.
#[verifier::rlimit(30)]
pub fn parse_args(args: &Vec<String>) -> (r: Result<Invocation, CliError>)
    ensures
        match spec_parse_args(args_view(args@)) {
            Ok((c, rest, v)) => r matches Ok(inv) && inv.cmd@ == c && args_view(inv.rest@) == rest
                && inv.vol_index == v,
            Err(e) => r == Err::<Invocation, CliError>(e),
        },
{
    let ghost a = args_view(args@);
    let mut pos: Vec<String> = Vec::new();
    let mut vol_index: usize = 0;
    let mut i: usize = 0;
    assert(args_view(pos@) =~= Seq::<Seq<char>>::empty());
    while i < args.len()
        invariant
            i <= args@.len(),
            a == args_view(args@),
            spec_scan_args(a, 0, Seq::empty(), 0) == spec_scan_args(a, i as int, args_view(pos@), vol_index),
        decreases args@.len() - i,
    {
        if str_eq(args[i].as_str(), "--vol") {
            if i + 1 >= args.len() {
                return Err(CliError::VolNeedsNumber);
            }
            match parse_usize(args[i + 1].as_str()) {
                Some(n) => vol_index = n,
                None => return Err(CliError::BadNumber),
            }
            i = i + 2;
        } else {
            let ghost before = pos@;
            pos.push(args[i].clone());
            assert(args_view(pos@) =~= args_view(before).push(a[i as int]));
            i = i + 1;
        }
    }
    if pos.len() == 0 {
        return Err(CliError::Usage);
    }
    let cmd = pos.remove(0);
    assert(args_view(pos@) =~= args_view(old_pos_view(pos@, cmd)).skip(1));
    Ok(Invocation { cmd, rest: pos, vol_index })
}

/// `rest` with `first` in front.
pub open spec fn old_pos_view(rest: Seq<String>, first: String) -> Seq<String> {
    seq![first] + rest
}

/// The command a word names.
pub open spec fn spec_command(w: Seq<char>) -> Option<Command> {
    if w == "info"@ {
        Some(Command::Info)
    } else if w == "ls"@ {
        Some(Command::Ls)
    } else if w == "cat"@ {
        Some(Command::Cat)
    } else if w == "tree"@ {
        Some(Command::Tree)
    } else if w == "dump-fstree"@ {
        Some(Command::DumpFstree)
    } else {
        None
    }
}

pub fn command(w: &str) -> (c: Option<Command>)
    ensures
        c == spec_command(w@),
{
    if str_eq(w, "info") {
        Some(Command::Info)
    } else if str_eq(w, "ls") {
        Some(Command::Ls)
    } else if str_eq(w, "cat") {
        Some(Command::Cat)
    } else if str_eq(w, "tree") {
        Some(Command::Tree)
    } else if str_eq(w, "dump-fstree") {
        Some(Command::DumpFstree)
    } else {
        None
    }
}

/// The first character of an `ls` line: directory, symlink or file.
pub fn kind_char(inode: &Inode) -> (c: char)
    ensures
        c == (if spec_is_dir(inode@.mode) {
            'd'
        } else if spec_is_symlink(inode@.mode) {
            'l'
        } else {
            '-'
        }),
{
    if inode.is_dir() {
        'd'
    } else if inode.is_symlink() {
        'l'
    } else {
        '-'
    }
}

/// Lower-case hexadecimal digit of `n` (below 16).
pub open spec fn hex_lower(n: u8) -> char {
    if n < 10 {
        (48 + n) as char
    } else {
        (87 + n) as char
    }
}

/// Two lower-case hexadecimal digits per byte.
pub open spec fn spec_hex(b: Seq<u8>) -> Seq<char>
    decreases b.len(),
{
    if b.len() == 0 {
        Seq::empty()
    } else {
        spec_hex(b.drop_last()) + seq![hex_lower(b.last() / 16), hex_lower(b.last() % 16)]
    }
}

fn hex_lower_char(n: u8) -> (c: char)
    requires
        n < 16,
    ensures
        c == hex_lower(n),
{
    if n < 10 {
        (48 + n) as char
    } else {
        (87 + n) as char
    }
}

/// Bytes as lower-case hexadecimal.
pub fn hex(b: &[u8]) -> (s: String)
    ensures
        s@ == spec_hex(b@),
{
    let mut s = String::new();
    let mut i: usize = 0;
    while i < b.len()
        invariant
            i <= b@.len(),
            s@ == spec_hex(b@.take(i as int)),
        decreases b@.len() - i,
    {
        let ghost before = s@;
        push_char(&mut s, hex_lower_char(b[i] / 16));
        push_char(&mut s, hex_lower_char(b[i] % 16));
        proof {
            let t = b@.take(i + 1);
            assert(t.drop_last() =~= b@.take(i as int));
            assert(s@ =~= spec_hex(t));
        }
        i += 1;
    }
    assert(b@.take(b@.len() as int) =~= b@);
    s
}

/// Whether opening an image as a bare container failed in a way that
/// calls for looking for a GPT instead.
pub fn needs_gpt_scan(e: &Error) -> (b: bool)
    ensures
        b == (e is BadMagic || e is Parse),
{
    match e {
        Error::BadMagic(_) => true,
        Error::Parse(_) => true,
        _ => false,
    }
}

/// Index of the first APFS partition.
pub fn find_apfs(parts: &Vec<Partition>) -> (r: Option<usize>)
    ensures
        match r {
            Some(i) => i < parts@.len() && parts@[i as int].type_guid@ == APFS_PART_TYPE@
                && forall|j: int| 0 <= j < i ==> parts@[j].type_guid@ != APFS_PART_TYPE@,
            None => forall|j: int| 0 <= j < parts@.len() ==> parts@[j].type_guid@ != APFS_PART_TYPE@,
        },
{
    let mut i: usize = 0;
    while i < parts.len()
        invariant
            i <= parts@.len(),
            forall|j: int| 0 <= j < i ==> parts@[j].type_guid@ != APFS_PART_TYPE@,
        decreases parts@.len() - i,
    {
        if parts[i].is_apfs() {
            return Some(i);
        }
        i += 1;
    }
    None
}

/// Open the APFS container inside partition `p` of a whole disk.
pub fn open_partition<D: BlockDevice>(disk: D, p: &Partition) -> (r: crate::Result<Container<SliceDevice<D>>>)
    ensures
        match spec_container_open(SliceDevice::spec_new(disk, p.first_byte, p.size_bytes)) {
            Ok(b) => r matches Ok(c) && nx_fields(b, c.superblock)
                && c.dev() == SliceDevice::spec_new(disk, p.first_byte, p.size_bytes),
            Err(e2) => r matches Err(e) && same_error(e, e2),
        },
{
    let slice = SliceDevice::new(disk, p.first_byte, p.size_bytes);
    Container::open(slice)
}

/// `n` spaces.
pub open spec fn spaces(n: nat) -> Seq<char> {
    Seq::new(n, |i: int| ' ')
}

/// `t` right-aligned in `w` columns.
pub open spec fn pad_left(t: Seq<char>, w: nat) -> Seq<char> {
    if t.len() < w {
        spaces((w - t.len()) as nat) + t
    } else {
        t
    }
}

/// `t` left-aligned in `w` columns.
pub open spec fn pad_right(t: Seq<char>, w: nat) -> Seq<char> {
    if t.len() < w {
        t + spaces((w - t.len()) as nat)
    } else {
        t
    }
}

/// Append `n` spaces.
fn push_spaces(s: &mut String, n: usize)
    ensures
        final(s)@ == old(s)@ + spaces(n as nat),
{
    let mut i: usize = 0;
    while i < n
        invariant
            i <= n,
            s@ == old(s)@ + spaces(i as nat),
        decreases n - i,
    {
        push_char(s, ' ');
        assert(s@ =~= old(s)@ + spaces((i + 1) as nat));
        i += 1;
    }
}

/// Append `t` aligned in `w` columns: to the right, or to the left.
fn push_aligned(s: &mut String, t: &str, w: usize, right: bool)
    ensures
        final(s)@ == old(s)@ + if right {
            pad_left(t@, w as nat)
        } else {
            pad_right(t@, w as nat)
        },
{
    let n = chars_of(t).len();
    if right {
        if n < w {
            push_spaces(s, w - n);
        }
        s.append(t);
    } else {
        s.append(t);
        if n < w {
            push_spaces(s, w - n);
        }
    }
    assert(s@ =~= old(s)@ + if right {
        pad_left(t@, w as nat)
    } else {
        pad_right(t@, w as nat)
    });
}

/// `n` in decimal.
fn dec_string(n: u64) -> (s: String)
    ensures
        s@ == dec_text(n as nat),
{
    let mut s = String::new();
    push_dec(&mut s, n);
    assert(s@ =~= dec_text(n as nat));
    s
}

/// `true` or `false`.
pub open spec fn bool_text(b: bool) -> Seq<char> {
    if b {
        "true"@
    } else {
        "false"@
    }
}

/// One line of `ls`: the kind, the size right-aligned in 10 columns, the
/// object id right-aligned in 8, and the name.
pub fn ls_line(inode: &Inode, e: &DirEntry) -> (s: String)
    ensures
        s@ == seq![
            if spec_is_dir(inode@.mode) {
                'd'
            } else if spec_is_symlink(inode@.mode) {
                'l'
            } else {
                '-'
            },
        ] + " "@ + pad_left(dec_text(inode.size as nat), 10) + "  "@ + pad_left(dec_text(e.file_id as nat), 8) + "  "@
            + e.name@,
{
    let mut s = String::new();
    push_char(&mut s, kind_char(inode));
    s.append(" ");
    push_aligned(&mut s, dec_string(inode.size).as_str(), 10, true);
    s.append("  ");
    push_aligned(&mut s, dec_string(e.file_id).as_str(), 8, true);
    s.append("  ");
    s.append(e.name.as_str());
    assert(s@ =~= seq![
        if spec_is_dir(inode@.mode) {
            'd'
        } else if spec_is_symlink(inode@.mode) {
            'l'
        } else {
            '-'
        },
    ] + " "@ + pad_left(dec_text(inode.size as nat), 10) + "  "@ + pad_left(dec_text(e.file_id as nat), 8) + "  "@
        + e.name@);
    s
}

/// One line of `tree`: two spaces per level of depth, the name, and a `/`
/// after directories.
pub fn tree_line(depth: usize, e: &DirEntry) -> (s: String)
    requires
        depth <= usize::MAX / 2,
    ensures
        s@ == spaces(2 * depth as nat) + e.name@ + if e.dtype == DT_DIR {
            "/"@
        } else {
            ""@
        },
{
    let mut s = String::new();
    push_spaces(&mut s, 2 * depth);
    s.append(e.name.as_str());
    if e.is_dir() {
        s.append("/");
    } else {
        s.append("");
    }
    s
}

/// One line of `dump-fstree` for a record with key `key` and value `val`:
/// object id and record type (left-aligned in 6 and 2 columns), key and
/// value lengths (in 3), and both in hexadecimal; `None` for a key too
/// short to hold its header.
#[verifier::rlimit(30)]
pub fn dump_line(key: &[u8], val: Option<&[u8]>) -> (r: Option<String>)
    ensures
        key@.len() < 8 ==> r is None,
        key@.len() >= 8 ==> (r matches Some(s) && s@ == "id="@ + pad_right(dec_text(jkey_id(le64(key@, 0) as u64) as nat), 6)
            + " type="@ + pad_right(dec_text(jkey_type(le64(key@, 0) as u64) as nat), 2) + " klen="@ + pad_right(
            dec_text(key@.len()),
            3,
        ) + " vlen="@ + pad_right(
            dec_text(
                match val {
                    Some(v) => v@.len(),
                    None => 0,
                },
            ),
            3,
        ) + " k="@ + spec_hex(key@) + " v="@ + match val {
            Some(v) => spec_hex(v@),
            None => Seq::empty(),
        }),
{
    if key.len() < 8 {
        return None;
    }
    let mut r = crate::raw::SliceReader::new(key);
    let hdr = match r.u64() {
        Ok(h) => h,
        Err(_) => return None,
    };
    let (id, ty) = split_jkey(hdr);
    let vlen: usize = match val {
        Some(v) => v.len(),
        None => 0,
    };
    let mut s = String::from_str("id=");
    push_aligned(&mut s, dec_string(id).as_str(), 6, false);
    s.append(" type=");
    push_aligned(&mut s, dec_string(ty as u64).as_str(), 2, false);
    s.append(" klen=");
    push_aligned(&mut s, dec_string(key.len() as u64).as_str(), 3, false);
    s.append(" vlen=");
    push_aligned(&mut s, dec_string(vlen as u64).as_str(), 3, false);
    s.append(" k=");
    s.append(hex(key).as_str());
    s.append(" v=");
    match val {
        Some(v) => s.append(hex(v).as_str()),
        None => {
            proof {
                reveal_strlit("");
            }
            s.append("");
            assert(""@ =~= Seq::<char>::empty());
        },
    }
    Some(s)
}

/// The container part of `info`: the partition note, then block size,
/// block count, latest transaction and number of volumes.
pub fn info_header(note: &str, sb: &NxSuperblock, xid: u64, volumes: usize) -> (s: String)
    ensures
        s@ == note@ + "container:\n"@ + "  block size:   "@ + dec_text(sb.block_size as nat) + "\n"@
            + "  block count:  "@ + dec_text(sb.block_count as nat) + "\n"@ + "  latest xid:   "@ + dec_text(
            xid as nat,
        ) + "\n"@ + "  volumes:      "@ + dec_text(volumes as nat) + "\n"@,
{
    let mut s = String::from_str(note);
    s.append("container:\n");
    s.append("  block size:   ");
    push_dec(&mut s, sb.block_size as u64);
    s.append("\n");
    s.append("  block count:  ");
    push_dec(&mut s, sb.block_count);
    s.append("\n");
    s.append("  latest xid:   ");
    push_dec(&mut s, xid);
    s.append("\n");
    s.append("  volumes:      ");
    push_dec(&mut s, volumes as u64);
    s.append("\n");
    s
}

/// The part of `info` about volume `i`: its name, whether it is case
/// sensitive, and its file, directory, symlink and snapshot counts.
#[verifier::rlimit(30)]
pub fn volume_info(i: usize, name: &str, sb: &ApfsSuperblock) -> (s: String)
    ensures
        s@ == "  volume "@ + dec_text(i as nat) + ":\n"@ + "    name:            "@ + name@ + "\n"@
            + "    case sensitive:  "@ + bool_text(!spec_case_insensitive(*sb)) + "\n"@ + "    files:           "@
            + dec_text(sb.num_files as nat) + "\n"@ + "    directories:     "@ + dec_text(sb.num_directories as nat)
            + "\n"@ + "    symlinks:        "@ + dec_text(sb.num_symlinks as nat) + "\n"@ + "    snapshots:       "@
            + dec_text(sb.num_snapshots as nat) + "\n"@,
{
    let mut s = String::from_str("  volume ");
    push_dec(&mut s, i as u64);
    s.append(":\n");
    s.append("    name:            ");
    s.append(name);
    s.append("\n");
    s.append("    case sensitive:  ");
    if !sb.case_insensitive() {
        s.append("true");
    } else {
        s.append("false");
    }
    s.append("\n");
    s.append("    files:           ");
    push_dec(&mut s, sb.num_files);
    s.append("\n");
    s.append("    directories:     ");
    push_dec(&mut s, sb.num_directories);
    s.append("\n");
    s.append("    symlinks:        ");
    push_dec(&mut s, sb.num_symlinks);
    s.append("\n");
    s.append("    snapshots:       ");
    push_dec(&mut s, sb.num_snapshots);
    s.append("\n");
    s
}

} // verus!
