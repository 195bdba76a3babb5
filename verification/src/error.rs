//! Error type for all APFS operations.

use crate::text::push_char;
use vstd::prelude::*;
use vstd::string::StringExecFns;

verus! {

#[verifier::external_type_specification]
#[verifier::external_body]
pub struct ExIoError(std::io::Error);

/// Every way an APFS operation can fail.
#[derive(Debug)]
pub enum Error {
    /// Underlying device I/O failed.
    Io(std::io::Error),
    /// Data did not parse as the expected structure.
    Parse(&'static str),
    /// An object failed Fletcher-64 checksum validation.
    BadChecksum { block: u64 },
    /// Magic number mismatch (not an APFS container / volume).
    BadMagic(&'static str),
    /// Object map has no mapping for a virtual object id.
    OmapMiss { oid: u64, xid: u64 },
    /// Path or directory entry not found.
    NotFound,
    /// The entry exists but is not a directory.
    NotADirectory,
    /// The entry is a directory where a file was expected.
    IsADirectory,
    /// Feature present on disk that this implementation does not support yet.
    Unsupported(&'static str),
    /// Volume is encrypted and no key was provided.
    Encrypted,
    /// Structure is valid but violates an invariant (possible corruption).
    Corrupt(&'static str),
}

/// Two errors describe the same failure: equal, or both device I/O errors
/// (whose payloads come from the operating system).
pub open spec fn same_error(a: Error, b: Error) -> bool {
    match a {
        Error::Io(_) => b is Io,
        _ => a == b,
    }
}

impl From<std::io::Error> for Error {
    fn from(e: std::io::Error) -> (r: Self) {
        Error::Io(e)
    }
}

impl vstd::std_specs::convert::FromSpecImpl<std::io::Error> for Error {
    open spec fn obeys_from_spec() -> bool {
        true
    }

    open spec fn from_spec(v: std::io::Error) -> Self {
        Error::Io(v)
    }
}

/// Lower-case digit of `d` (below 16).
pub open spec fn digit_char(d: nat) -> char {
    if d < 10 {
        (48 + d) as char
    } else {
        (87 + d) as char
    }
}

/// `n` in decimal, without leading zeros.
pub open spec fn dec_text(n: nat) -> Seq<char>
    decreases n,
{
    if n < 10 {
        seq![digit_char(n)]
    } else {
        dec_text(n / 10).push(digit_char(n % 10))
    }
}

/// `n` in lower-case hexadecimal, without leading zeros.
pub open spec fn hex_text(n: nat) -> Seq<char>
    decreases n,
{
    if n < 16 {
        seq![digit_char(n)]
    } else {
        hex_text(n / 16).push(digit_char(n % 16))
    }
}

/// The message of every error but a device error (whose text comes from
/// the operating system).
pub open spec fn error_text(e: Error) -> Seq<char> {
    match e {
        Error::Io(_) => "I/O error: "@,
        Error::Parse(m) => "parse error: "@ + m@,
        Error::BadChecksum { block } => "fletcher-64 checksum mismatch at block "@ + dec_text(block as nat),
        Error::BadMagic(m) => "bad magic: expected "@ + m@,
        Error::OmapMiss { oid, xid } => "object map: no entry for oid 0x"@ + hex_text(oid as nat) + " at xid "@
            + dec_text(xid as nat),
        Error::NotFound => "no such file or directory"@,
        Error::NotADirectory => "not a directory"@,
        Error::IsADirectory => "is a directory"@,
        Error::Unsupported(m) => "unsupported feature: "@ + m@,
        Error::Encrypted => "volume is encrypted"@,
        Error::Corrupt(m) => "structure violates invariant: "@ + m@,
    }
}

fn digit(d: u64) -> (c: char)
    requires
        d < 16,
    ensures
        c == digit_char(d as nat),
{
    let b = d as u8;
    if b < 10 {
        (48 + b) as char
    } else {
        (87 + b) as char
    }
}

/// Append `n` in decimal.
pub(crate) fn push_dec(s: &mut String, n: u64)
    ensures
        final(s)@ == old(s)@ + dec_text(n as nat),
    decreases n,
{
    if n >= 10 {
        push_dec(s, n / 10);
    }
    push_char(s, digit(n % 10));
    assert(s@ =~= old(s)@ + dec_text(n as nat));
}

/// Append `n` in lower-case hexadecimal.
fn push_hex_u64(s: &mut String, n: u64)
    ensures
        final(s)@ == old(s)@ + hex_text(n as nat),
    decreases n,
{
    if n >= 16 {
        push_hex_u64(s, n / 16);
    }
    push_char(s, digit(n % 16));
    assert(s@ =~= old(s)@ + hex_text(n as nat));
}

impl Error {
    /// The human-readable message. A device error reads "I/O error: "
    /// followed by what the `std::io::Error` displays.
    #[verifier::rlimit(30)]
    pub fn to_string(&self) -> (s: String)
        ensures
            !(*self is Io) ==> s@ == error_text(*self),
            *self matches Error::Io(e) ==> exists|t: String|
                vstd::string::to_string_from_display_ensures::<std::io::Error>(&e, t) && s@ == "I/O error: "@ + t@,
    {
        match self {
            Error::Io(e) => {
                let mut s = String::from_str("I/O error: ");
                let t = e.to_string();
                s.append(t.as_str());
                s
            },
            Error::Parse(m) => {
                let mut s = String::from_str("parse error: ");
                s.append(m);
                s
            },
            Error::BadChecksum { block } => {
                let mut s = String::from_str("fletcher-64 checksum mismatch at block ");
                push_dec(&mut s, *block);
                s
            },
            Error::BadMagic(m) => {
                let mut s = String::from_str("bad magic: expected ");
                s.append(m);
                s
            },
            Error::OmapMiss { oid, xid } => {
                let mut s = String::from_str("object map: no entry for oid 0x");
                push_hex_u64(&mut s, *oid);
                s.append(" at xid ");
                push_dec(&mut s, *xid);
                s
            },
            Error::NotFound => String::from_str("no such file or directory"),
            Error::NotADirectory => String::from_str("not a directory"),
            Error::IsADirectory => String::from_str("is a directory"),
            Error::Unsupported(m) => {
                let mut s = String::from_str("unsupported feature: ");
                s.append(m);
                s
            },
            Error::Encrypted => String::from_str("volume is encrypted"),
            Error::Corrupt(m) => {
                let mut s = String::from_str("structure violates invariant: ");
                s.append(m);
                s
            },
        }
    }
}

} // verus!
