//! Directory-record name hashing.
//!
//! APFS directory records on normalization-insensitive volumes carry a
//! 22-bit hash of the (NFD-normalized, optionally case-folded) filename:
//! CRC-32C seeded with `0xFFFFFFFF` over the UTF-32LE code points, without
//! final inversion, masked to 22 bits.
//!
//! Code points are case-folded and normalized only for ASCII; lookups fall
//! back to name comparison, so non-ASCII names still resolve on read.

use vstd::prelude::*;

verus! {

/// One bit step of reflected CRC-32C (polynomial 0x82F63B78).
pub open spec fn crc_bit(c: u32) -> u32 {
    if c & 1 == 1 {
        (c >> 1) ^ 0x82F6_3B78u32
    } else {
        c >> 1
    }
}

/// `n` bit steps.
pub open spec fn crc_bits(c: u32, n: nat) -> u32
    decreases n,
{
    if n == 0 {
        c
    } else {
        crc_bits(crc_bit(c), (n - 1) as nat)
    }
}

/// CRC-32C of `data` from `seed`, no final inversion.
pub open spec fn spec_crc32c(seed: u32, data: Seq<u8>) -> u32
    decreases data.len(),
{
    if data.len() == 0 {
        seed
    } else {
        crc_bits(spec_crc32c(seed, data.drop_last()) ^ (data.last() as u32), 8)
    }
}

/// CRC-32C (Castagnoli, reflected 0x82F63B78), no final xor.
#[verifier::rlimit(30)]
pub fn crc32c(seed: u32, data: &[u8]) -> (crc: u32)
    ensures
        crc == spec_crc32c(seed, data@),
{
    let mut crc = seed;
    let mut i: usize = 0;
    while i < data.len()
        invariant
            i <= data@.len(),
            crc == spec_crc32c(seed, data@.take(i as int)),
        decreases data@.len() - i,
    {
        assert(data@.take(i + 1).drop_last() =~= data@.take(i as int));
        crc = crc ^ (data[i] as u32);
        let ghost start = crc;
        let mut bit: usize = 0;
        while bit < 8
            invariant
                bit <= 8,
                crc_bits(start, 8) == crc_bits(crc, (8 - bit) as nat),
            decreases 8 - bit,
        {
            let mask: u32 = if crc & 1 == 1 { 0xFFFF_FFFF } else { 0 };
            assert(crc_bit(crc) == (crc >> 1) ^ (0x82F6_3B78u32 & mask)) by (bit_vector)
                requires
                    mask == (if crc & 1 == 1 { 0xFFFF_FFFFu32 } else { 0u32 }),
            ;
            crc = (crc >> 1) ^ (0x82F6_3B78 & mask);
            bit += 1;
        }
        i += 1;
    }
    assert(data@.take(data@.len() as int) =~= data@);
    crc
}

/// ASCII-only case fold.
pub open spec fn fold_char(c: char, case_fold: bool) -> char {
    if case_fold && 'A' <= c <= 'Z' {
        (((c as u32) + 32) as u8) as char
    } else {
        c
    }
}

/// Little-endian bytes of a code point.
pub open spec fn u32_le_bytes(v: u32) -> Seq<u8> {
    seq![(v % 256) as u8, ((v / 256) % 256) as u8, ((v / 65536) % 256) as u8, (v / 16777216) as u8]
}

/// The running name hash over `chars`.
pub open spec fn spec_name_hash(chars: Seq<char>, case_fold: bool) -> u32
    decreases chars.len(),
{
    if chars.len() == 0 {
        0xFFFF_FFFF
    } else {
        spec_crc32c(
            spec_name_hash(chars.drop_last(), case_fold),
            u32_le_bytes(fold_char(chars.last(), case_fold) as u32),
        )
    }
}

/// The `name_len_and_hash` field for `name`.
pub open spec fn spec_drec_name_len_and_hash(name: &str, case_fold: bool) -> u32 {
    let hash = spec_name_hash(name@, case_fold);
    let name_len = ((name.len() + 1) % 0x1_0000_0000) as u32;
    ((hash & 0x3F_FFFF) << 10) | (name_len & 0x3FF)
}

fn u32_to_le_bytes(v: u32) -> (b: [u8; 4])
    ensures
        b@ == u32_le_bytes(v),
{
    let b = [(v % 256) as u8, ((v / 256) % 256) as u8, ((v / 65536) % 256) as u8, (v / 16777216) as u8];
    assert(b@ =~= u32_le_bytes(v));
    b
}

/// The `name_len_and_hash` field for a hashed drec key: 22-bit name hash in
/// the high bits, name length *including* the NUL terminator in the low 10.
#[verifier::rlimit(30)]
pub fn drec_name_len_and_hash(name: &str, case_fold: bool) -> (r: u32)
    ensures
        r == spec_drec_name_len_and_hash(name, case_fold),
{
    let mut hash: u32 = 0xFFFF_FFFF;
    let ghost mut seen: Seq<char> = Seq::empty();
    for ch in it: name.chars()
        invariant
            it.seq() == name@,
            seen == name@.take(it.index() as int),
            hash == spec_name_hash(seen, case_fold),
    {
        let folded = if case_fold && 'A' <= ch && ch <= 'Z' {
            ((ch as u32) + 32) as u8 as char
        } else {
            ch
        };
        let cp = folded as u32;
        let bytes = u32_to_le_bytes(cp);
        hash = crc32c(hash, &bytes);
        proof {
            assert(cp == fold_char(ch, case_fold) as u32);
            let s2 = seen.push(ch);
            assert(s2.drop_last() =~= seen);
            seen = s2;
        }
    }
    assert(seen =~= name@);
    let l = (name.len() as u64 % 0x1_0000_0000) as u32;
    let name_len: u32 = if l == 0xFFFF_FFFF { 0 } else { l + 1 };
    assert(hash == spec_name_hash(name@, case_fold));

    ((hash & 0x3F_FFFF) << 10) | (name_len & 0x3FF)
}

/// On a case-folding volume, names that differ only in ASCII letter case
/// hash alike, so a case-insensitive lookup lands on the same records.
pub proof fn lemma_hash_ignores_ascii_case(a: Seq<char>, b: Seq<char>)
    requires
        a.len() == b.len(),
        forall|i: int| 0 <= i < a.len() ==> fold_char(#[trigger] a[i], true) == fold_char(b[i], true),
    ensures
        spec_name_hash(a, true) == spec_name_hash(b, true),
    decreases a.len(),
{
    if a.len() > 0 {
        let (a1, b1) = (a.drop_last(), b.drop_last());
        assert forall|i: int| 0 <= i < a1.len() implies fold_char(#[trigger] a1[i], true) == fold_char(b1[i], true) by {
            assert(a1[i] == a[i] && b1[i] == b[i]);
        };
        lemma_hash_ignores_ascii_case(a1, b1);
        assert(fold_char(a[a.len() - 1], true) == fold_char(b[a.len() - 1], true));
    }
}

/// Names of equal byte length that differ only in ASCII letter case (a
/// name and its ASCII lower-case form) get the same `name_len_and_hash`
/// field on a case-folding volume.
pub proof fn lemma_drec_field_ignores_ascii_case(a: &str, b: &str)
    requires
        a.len() == b.len(),
        a@.len() == b@.len(),
        forall|i: int| 0 <= i < a@.len() ==> fold_char(#[trigger] a@[i], true) == fold_char(b@[i], true),
    ensures
        spec_drec_name_len_and_hash(a, true) == spec_drec_name_len_and_hash(b, true),
{
    lemma_hash_ignores_ascii_case(a@, b@);
}

/// A name without ASCII upper-case letters hashes the same whether or not
/// the volume folds case.
pub proof fn lemma_lower_case_hash_either_way(name: Seq<char>)
    requires
        forall|i: int| 0 <= i < name.len() ==> !('A' <= #[trigger] name[i] <= 'Z'),
    ensures
        spec_name_hash(name, true) == spec_name_hash(name, false),
    decreases name.len(),
{
    if name.len() > 0 {
        let d = name.drop_last();
        assert forall|i: int| 0 <= i < d.len() implies !('A' <= #[trigger] d[i] <= 'Z') by {
            assert(d[i] == name[i]);
        };
        lemma_lower_case_hash_either_way(d);
        assert(!('A' <= name[name.len() - 1] <= 'Z'));
    }
}

/// The `name_len_and_hash` field of a name without ASCII upper-case
/// letters is the same whether or not the volume folds case.
pub proof fn lemma_lower_case_field_either_way(name: &str)
    requires
        forall|i: int| 0 <= i < name@.len() ==> !('A' <= #[trigger] name@[i] <= 'Z'),
    ensures
        spec_drec_name_len_and_hash(name, true) == spec_drec_name_len_and_hash(name, false),
{
    lemma_lower_case_hash_either_way(name@);
}

} // verus!
