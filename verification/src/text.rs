//! Byte strings as stored on disk: NUL-terminated names decoded as UTF-8.

use vstd::prelude::*;
use vstd::string::StringSliceAdditionalSpecFns;
use vstd::utf8::{decode_utf8, valid_utf8};

verus! {

/// Index of the first NUL byte of `b` at or after `i`, or `b.len()`.
pub open spec fn first_nul(b: Seq<u8>, i: int) -> int
    decreases b.len() - i,
{
    if i >= b.len() {
        b.len() as int
    } else if b[i] == 0 {
        i
    } else {
        first_nul(b, i + 1)
    }
}

/// The bytes of `b` before its first NUL.
pub open spec fn cstr(b: Seq<u8>) -> Seq<u8> {
    b.take(first_nul(b, 0))
}

/// What `String::from_utf8_lossy` makes of `b`: invalid sequences become
/// U+FFFD.
pub uninterp spec fn spec_utf8_lossy(b: Seq<u8>) -> Seq<char>;

/// `String::from_utf8_lossy(b).into_owned()`. For valid UTF-8 the text is
/// exactly the decoded characters (as std documents); otherwise each
/// invalid sequence is replaced, which is left to the name.
#[verifier::external_body]
pub(crate) fn utf8_lossy(b: &[u8]) -> (s: String)
    ensures
        s@ == spec_utf8_lossy(b@),
        valid_utf8(b@) ==> s@ == decode_utf8(b@),
{
    String::from_utf8_lossy(b).into_owned()
}

/// `String::push`.
#[verifier::external_body]
pub(crate) fn push_char(s: &mut String, c: char)
    ensures
        final(s)@ == old(s)@.push(c),
{
    s.push(c);
}

/// Position of the first NUL byte of `b`, or its length.
pub fn find_nul(b: &[u8]) -> (n: usize)
    ensures
        n == first_nul(b@, 0),
        n <= b@.len(),
{
    let mut i: usize = 0;
    while i < b.len()
        invariant
            i <= b@.len(),
            first_nul(b@, 0) == first_nul(b@, i as int),
        decreases b@.len() - i,
    {
        if b[i] == 0 {
            return i;
        }
        i += 1;
    }
    i
}

/// Decode the NUL-terminated name stored in `b`.
pub fn cstr_lossy(b: &[u8]) -> (s: String)
    ensures
        s@ == spec_utf8_lossy(cstr(b@)),
{
    let end = find_nul(b);
    let head = vstd::slice::slice_subrange(b, 0, end);
    assert(head@ =~= cstr(b@));
    utf8_lossy(head)
}

/// Two strings are equal (compared through their UTF-8 bytes).
#[verifier::rlimit(30)]
pub fn str_eq(a: &str, b: &str) -> (r: bool)
    ensures
        r == (a@ == b@),
{
    let x = a.as_bytes();
    let y = b.as_bytes();
    proof {
        vstd::utf8::encode_utf8_decode_utf8(a@);
        vstd::utf8::encode_utf8_decode_utf8(b@);
    }
    if x.len() != y.len() {
        return false;
    }
    let mut i: usize = 0;
    while i < x.len()
        invariant
            i <= x@.len(),
            x@.len() == y@.len(),
            x@ == a.spec_bytes(),
            y@ == b.spec_bytes(),
            forall|j: int| 0 <= j < i ==> x@[j] == y@[j],
        decreases x@.len() - i,
    {
        if x[i] != y[i] {
            assert(a.spec_bytes() != b.spec_bytes());
            return false;
        }
        i += 1;
    }
    assert(x@ =~= y@);
    true
}

/// Little-endian 16-bit code units of `b` (a trailing odd byte is dropped).
pub open spec fn utf16le_units(b: Seq<u8>) -> Seq<u16> {
    Seq::new((b.len() / 2) as nat, |i: int| (b[2 * i] as int + b[2 * i + 1] as int * 256) as u16)
}

/// Index of the first zero unit of `u` at or after `i`, or `u.len()`.
pub open spec fn first_zero_unit(u: Seq<u16>, i: int) -> int
    decreases u.len() - i,
{
    if i >= u.len() {
        u.len() as int
    } else if u[i] == 0 {
        i
    } else {
        first_zero_unit(u, i + 1)
    }
}

/// The units of `u` before its first zero unit.
pub open spec fn units_before_nul(u: Seq<u16>) -> Seq<u16> {
    u.take(first_zero_unit(u, 0))
}

pub open spec fn is_high_surrogate(u: u16) -> bool {
    0xD800 <= u <= 0xDBFF
}

pub open spec fn is_low_surrogate(u: u16) -> bool {
    0xDC00 <= u <= 0xDFFF
}

/// The code point of a surrogate pair.
pub open spec fn pair_code_point(hi: u16, lo: u16) -> u32 {
    (0x10000 + (hi - 0xD800) * 0x400 + (lo - 0xDC00)) as u32
}

/// UTF-16 decoding in which every unpaired surrogate becomes U+FFFD
/// (what `char::decode_utf16` yields, with each error replaced).
pub open spec fn spec_utf16_lossy(u: Seq<u16>) -> Seq<char>
    decreases u.len(),
{
    if u.len() == 0 {
        Seq::empty()
    } else if is_high_surrogate(u[0]) && u.len() >= 2 && is_low_surrogate(u[1]) {
        seq![pair_code_point(u[0], u[1]) as char] + spec_utf16_lossy(u.skip(2))
    } else if 0xD800 <= u[0] <= 0xDFFF {
        seq!['\u{FFFD}'] + spec_utf16_lossy(u.skip(1))
    } else {
        seq![u[0] as u32 as char] + spec_utf16_lossy(u.skip(1))
    }
}

/// `char::from_u32`: the char with code point `x`, or `None` when `x` is a
/// surrogate or lies above U+10FFFF, as std documents.
#[verifier::external_body]
fn char_from_u32(x: u32) -> (r: Option<char>)
    ensures
        r is Some <==> (x <= 0xD7FF || (0xE000 <= x && x <= 0x10FFFF)),
        r matches Some(c) ==> c as u32 == x,
{
    char::from_u32(x)
}

/// The little-endian UTF-16 units of `b`, up to the first zero unit.
#[verifier::rlimit(30)]
fn utf16le_until_nul(b: &[u8]) -> (v: Vec<u16>)
    ensures
        v@ == units_before_nul(utf16le_units(b@)),
{
    let ghost u = utf16le_units(b@);
    let n = b.len() / 2;
    let mut v: Vec<u16> = Vec::new();
    let mut i: usize = 0;
    while i < n
        invariant
            i <= n,
            n == u.len(),
            n == b@.len() / 2,
            u == utf16le_units(b@),
            v@ == u.take(i as int),
            first_zero_unit(u, 0) == first_zero_unit(u, i as int),
        decreases n - i,
    {
        assert(2 * i + 1 < b.len()) by (nonlinear_arith)
            requires
                i < n,
                n == b.len() / 2,
        ;
        let lo: u16 = b[2 * i] as u16;
        let hi: u16 = b[2 * i + 1] as u16;
        assert(hi * 256 <= 0xFF00);
        let x: u16 = lo + hi * 256;
        assert(x == u[i as int]);
        if x == 0 {
            return v;
        }
        v.push(x);
        assert(v@ =~= u.take(i + 1));
        i += 1;
    }
    assert(u.take(n as int) =~= u);
    v
}

/// Decode UTF-16 units, replacing each unpaired surrogate with U+FFFD.
#[verifier::rlimit(30)]
fn utf16_lossy(u: &Vec<u16>) -> (s: String)
    ensures
        s@ == spec_utf16_lossy(u@),
{
    let mut s = String::new();
    let mut i: usize = 0;
    assert(s@ + spec_utf16_lossy(u@.skip(0)) =~= spec_utf16_lossy(u@)) by {
        assert(u@.skip(0) =~= u@);
    };
    while i < u.len()
        invariant
            i <= u@.len(),
            s@ + spec_utf16_lossy(u@.skip(i as int)) == spec_utf16_lossy(u@),
        decreases u@.len() - i,
    {
        let x = u[i];
        let ghost rest = u@.skip(i as int);
        let (cp, step): (u32, usize) = if 0xD800 <= x && x <= 0xDBFF && i + 1 < u.len() && 0xDC00 <= u[i + 1]
            && u[i + 1] <= 0xDFFF {
            (0x10000 + ((x - 0xD800) as u32) * 0x400 + ((u[i + 1] - 0xDC00) as u32), 2)
        } else if 0xD800 <= x && x <= 0xDFFF {
            (0xFFFD, 1)
        } else {
            (x as u32, 1)
        };
        let c = match char_from_u32(cp) {
            Some(c) => c,
            None => '\u{FFFD}',
        };
        proof {
            assert(rest[0] == x);
            if step == 2 {
                assert(rest[1] == u@[i + 1]);
                assert(cp == pair_code_point(rest[0], rest[1]));
            }
            assert(cp <= 0xD7FF || (0xE000 <= cp && cp <= 0x10FFFF));
            vstd::utf8::char_u32_cast(c, cp);
            assert(rest.skip(step as int) =~= u@.skip(i + step));
            assert(spec_utf16_lossy(rest) == seq![c] + spec_utf16_lossy(u@.skip(i + step)));
        }
        let ghost before = s@;
        push_char(&mut s, c);
        assert(s@ + spec_utf16_lossy(u@.skip(i + step)) =~= before + (seq![c] + spec_utf16_lossy(u@.skip(i + step))));
        i += step;
    }
    assert(u@.skip(u@.len() as int) =~= Seq::<u16>::empty());
    assert(s@ + Seq::<char>::empty() =~= s@);
    s
}

/// Decode a NUL-terminated little-endian UTF-16 name, replacing each
/// unpaired surrogate with U+FFFD.
pub fn utf16le_name(b: &[u8]) -> (s: String)
    ensures
        s@ == spec_utf16_lossy(units_before_nul(utf16le_units(b@))),
{
    let units = utf16le_until_nul(b);
    utf16_lossy(&units)
}

/// Upper-case hexadecimal digit of `n` (below 16).
pub open spec fn hex_digit(n: u8) -> char {
    if n < 10 {
        (48 + n) as char
    } else {
        (55 + n) as char
    }
}

/// Two upper-case hexadecimal digits of `b`.
pub open spec fn hex_byte(b: u8) -> Seq<char> {
    seq![hex_digit(b / 16), hex_digit(b % 16)]
}

fn hex_digit_char(n: u8) -> (c: char)
    requires
        n < 16,
    ensures
        c == hex_digit(n),
{
    if n < 10 {
        (48 + n) as char
    } else {
        (55 + n) as char
    }
}

/// Append the two upper-case hexadecimal digits of `b`.
pub fn push_hex(s: &mut String, b: u8)
    ensures
        final(s)@ == old(s)@ + hex_byte(b),
{
    push_char(s, hex_digit_char(b / 16));
    push_char(s, hex_digit_char(b % 16));
    assert(s@ =~= old(s)@ + hex_byte(b));
}

/// ASCII lower-casing of one byte.
pub open spec fn ascii_lower(b: u8) -> u8 {
    if 65 <= b <= 90 {
        (b + 32) as u8
    } else {
        b
    }
}

/// `<[u8]>::eq_ignore_ascii_case`: equal lengths, equal bytes after ASCII
/// lower-casing.
pub open spec fn spec_eq_ignore_ascii_case(a: Seq<u8>, b: Seq<u8>) -> bool {
    a.len() == b.len() && forall|i: int| 0 <= i < a.len() ==> ascii_lower(#[trigger] a[i]) == ascii_lower(b[i])
}

/// `str::eq_ignore_ascii_case`, over the UTF-8 bytes of both strings.
#[verifier::rlimit(30)]
pub fn eq_ignore_ascii_case(a: &str, b: &str) -> (r: bool)
    ensures
        r == spec_eq_ignore_ascii_case(a.spec_bytes(), b.spec_bytes()),
{
    let x = a.as_bytes();
    let y = b.as_bytes();
    if x.len() != y.len() {
        return false;
    }
    let mut i: usize = 0;
    while i < x.len()
        invariant
            i <= x@.len(),
            x@.len() == y@.len(),
            x@ == a.spec_bytes(),
            y@ == b.spec_bytes(),
            forall|j: int| 0 <= j < i ==> ascii_lower(#[trigger] x@[j]) == ascii_lower(y@[j]),
        decreases x@.len() - i,
    {
        let p = x[i];
        let q = y[i];
        let lp = if 65 <= p && p <= 90 { p + 32 } else { p };
        let lq = if 65 <= q && q <= 90 { q + 32 } else { q };
        if lp != lq {
            return false;
        }
        i += 1;
    }
    true
}

/// The characters of `s`.
pub fn chars_of(s: &str) -> (v: Vec<char>)
    ensures
        v@ == s@,
{
    let mut v: Vec<char> = Vec::new();
    for ch in it: s.chars()
        invariant
            it.seq() == s@,
            v@ == s@.take(it.index() as int),
    {
        proof {
            assert(s@.take(it.index() + 1) =~= s@.take(it.index() as int).push(ch));
        }
        v.push(ch);
    }
    assert(s@.take(s@.len() as int) =~= s@);
    v
}

/// The string made of `c[from..to]`.
pub fn string_of(c: &[char], from: usize, to: usize) -> (s: String)
    requires
        from <= to <= c@.len(),
    ensures
        s@ == c@.subrange(from as int, to as int),
{
    let mut s = String::new();
    let mut i = from;
    while i < to
        invariant
            from <= i <= to <= c@.len(),
            s@ == c@.subrange(from as int, i as int),
        decreases to - i,
    {
        push_char(&mut s, c[i]);
        assert(s@ =~= c@.subrange(from as int, i + 1));
        i += 1;
    }
    s
}

/// Whether `s` begins with `p`.
pub fn starts_with(s: &str, p: &str) -> (b: bool)
    ensures
        b == p@.is_prefix_of(s@),
{
    let sc = chars_of(s);
    let pc = chars_of(p);
    if pc.len() > sc.len() {
        return false;
    }
    let mut i: usize = 0;
    while i < pc.len()
        invariant
            i <= pc@.len() <= sc@.len(),
            sc@ == s@,
            pc@ == p@,
            forall|j: int| 0 <= j < i ==> pc@[j] == sc@[j],
        decreases pc@.len() - i,
    {
        if pc[i] != sc[i] {
            return false;
        }
        i += 1;
    }
    assert(p@ =~= s@.take(p@.len() as int));
    true
}

} // verus!
