//! Reads from raw disk devices on Windows (`\\.\PhysicalDriveN`, `\\.\X:`)
//! must start and end on sector boundaries. These are the rules a file
//! device follows: which paths need aligned reads, the aligned window a
//! read is widened to, and when to retry with 4 KiB sectors.

use crate::error::Error;
use crate::text::starts_with;
use crate::Result;
use vstd::prelude::*;

verus! {

/// The Win32 device-namespace prefix.
pub open spec fn device_namespace() -> Seq<char> {
    "\\\\.\\"@
}

/// The Win32 file-namespace prefix.
pub open spec fn file_namespace() -> Seq<char> {
    "\\\\?\\"@
}

/// The first sector-size guess for a path: 512 for raw devices, 0 (no
/// alignment) for plain files.
pub fn initial_alignment(path: &str) -> (a: u64)
    ensures
        a == if device_namespace().is_prefix_of(path@) || file_namespace().is_prefix_of(path@) {
            512u64
        } else {
            0u64
        },
{
    if starts_with(path, "\\\\.\\") || starts_with(path, "\\\\?\\") {
        512
    } else {
        0
    }
}

/// The sector-aligned byte range `[start, end)` covering `len` bytes at
/// `offset`; an error when rounding the end up overflows.
#[verifier::rlimit(30)]
pub fn aligned_window(offset: u64, len: u64, align: u64) -> (r: Result<(u64, u64)>)
    requires
        align > 0,
        offset + len <= u64::MAX,
    ensures
        offset + len + align - 1 > u64::MAX ==> r == Err::<(u64, u64), Error>(Error::Parse("aligned read overflow")),
        offset + len + align - 1 <= u64::MAX ==> r == Ok::<(u64, u64), Error>(
            ((offset - offset % align) as u64, (((offset + len + align - 1) / align as int) * align) as u64),
        ),
        r matches Ok((s, e)) ==> s <= offset && offset + len <= e && s % align == 0 && e % align == 0,
{
    assert(offset % align <= offset) by (nonlinear_arith)
        requires
            align > 0,
    ;
    let start = offset - offset % align;
    let end_wanted = offset + len;
    let up = match end_wanted.checked_add(align - 1) {
        Some(u) => u,
        None => return Err(Error::Parse("aligned read overflow")),
    };
    let q = up / align;
    assert(q * align <= up && up - q * align < align) by (nonlinear_arith)
        requires
            q == up / align,
            align > 0,
    ;
    assert((q * align) % (align as int) == 0) by (nonlinear_arith)
        requires
            align > 0,
            q >= 0,
    ;
    assert((offset - offset % align) % (align as int) == 0) by (nonlinear_arith)
        requires
            align > 0,
    ;
    let end = q * align;
    Ok((start, end))
}

/// Whether a failed aligned read should be retried with 4096-byte sectors:
/// the guess was smaller and the system reported error 87 (invalid
/// parameter).
pub fn retry_with_4k(align: u64, os_error: Option<i32>) -> (b: bool)
    ensures
        b == (align < 4096 && os_error == Some(87i32)),
{
    align < 4096 && match os_error {
        Some(c) => c == 87,
        None => false,
    }
}

} // verus!
