//! APFS Fletcher-64 checksum (as specified in the Apple File System
//! Reference: 32-bit words, sums modulo `u32::MAX`).
//!
//! Every on-disk object stores this checksum in the first 8 bytes of its
//! block; it is computed over the rest of the object with the checksum
//! field itself treated as zero.

use crate::raw::{le32, le64, lemma_le_roundtrip, u64_le, SliceReader};
use vstd::prelude::*;

verus! {

const MOD: u64 = 0xFFFF_FFFF;

/// Number of whole 32-bit words after the 8-byte checksum field.
pub open spec fn fl_nwords(d: Seq<u8>) -> nat {
    if d.len() >= 8 {
        ((d.len() - 8) / 4) as nat
    } else {
        0
    }
}

/// The `j`-th checksummed word (little-endian, after the checksum field).
pub open spec fn fl_word(d: Seq<u8>, j: int) -> int {
    le32(d, 8 + 4 * j)
}

/// The two running Fletcher sums after `n` words.
pub open spec fn fl_sums(d: Seq<u8>, n: nat) -> (int, int)
    decreases n,
{
    if n == 0 {
        (0, 0)
    } else {
        let (s1, s2) = fl_sums(d, (n - 1) as nat);
        let a = (s1 + fl_word(d, n - 1)) % 0xFFFF_FFFF;
        (a, (s2 + a) % 0xFFFF_FFFF)
    }
}

/// Low half of the checksum.
pub open spec fn fl_low(d: Seq<u8>) -> int {
    let (s1, s2) = fl_sums(d, fl_nwords(d));
    0xFFFF_FFFF - ((s1 + s2) % 0xFFFF_FFFF)
}

/// High half of the checksum.
pub open spec fn fl_high(d: Seq<u8>) -> int {
    let (s1, s2) = fl_sums(d, fl_nwords(d));
    0xFFFF_FFFF - ((s1 + fl_low(d)) % 0xFFFF_FFFF)
}

/// The Fletcher-64 object checksum of `d`.
pub open spec fn fletcher64(d: Seq<u8>) -> int {
    fl_high(d) * 0x1_0000_0000 + fl_low(d)
}

/// `d` is an object whose stored checksum matches its contents.
pub open spec fn object_valid(d: Seq<u8>) -> bool {
    d.len() >= 8 && le64(d, 0) == fletcher64(d)
}

proof fn lemma_sums_bounded(d: Seq<u8>, n: nat)
    ensures
        0 <= fl_sums(d, n).0 < 0xFFFF_FFFF,
        0 <= fl_sums(d, n).1 < 0xFFFF_FFFF,
    decreases n,
{
    if n > 0 {
        lemma_sums_bounded(d, (n - 1) as nat);
    }
}

/// `d` with its checksum field replaced by the checksum of the rest.
pub open spec fn with_checksum(d: Seq<u8>) -> Seq<u8> {
    u64_le(fletcher64(d) as u64) + d.skip(8)
}

/// The running sums see only the checksummed words.
proof fn lemma_sums_same_words(a: Seq<u8>, b: Seq<u8>, n: nat)
    requires
        forall|j: int| 0 <= j < n ==> fl_word(a, j) == fl_word(b, j),
    ensures
        fl_sums(a, n) == fl_sums(b, n),
    decreases n,
{
    if n > 0 {
        lemma_sums_same_words(a, b, (n - 1) as nat);
        assert(fl_word(a, n - 1) == fl_word(b, n - 1));
    }
}

/// Both halves of the checksum lie in `1..=u32::MAX`, so it fits in 64 bits.
proof fn lemma_fletcher_fits(d: Seq<u8>)
    ensures
        0 <= fletcher64(d) <= u64::MAX,
{
    lemma_sums_bounded(d, fl_nwords(d));
    assert(1 <= fl_low(d) <= 0xFFFF_FFFF);
    assert(1 <= fl_high(d) <= 0xFFFF_FFFF);
    assert(fl_high(d) * 0x1_0000_0000 <= 0xFFFF_FFFF * 0x1_0000_0000) by (nonlinear_arith)
        requires
            fl_high(d) <= 0xFFFF_FFFF,
    ;
}

/// Storing an object's checksum in its first 8 bytes makes the object
/// valid: what `fletcher64_object` computes is what `verify_object`
/// accepts.
pub proof fn lemma_store_checksum(d: Seq<u8>)
    requires
        d.len() >= 8,
    ensures
        with_checksum(d).len() == d.len(),
        with_checksum(d).skip(8) == d.skip(8),
        object_valid(with_checksum(d)),
{
    let w = with_checksum(d);
    lemma_fletcher_fits(d);
    assert(w.skip(8) =~= d.skip(8));
    assert(w.subrange(0, 8) =~= u64_le(fletcher64(d) as u64));
    lemma_le_roundtrip(w, 0, fletcher64(d) as u64);
    assert forall|j: int| 0 <= j < fl_nwords(d) implies fl_word(w, j) == fl_word(d, j) by {
        let o = 8 + 4 * j;
        assert(w[o] == d[o] && w[o + 1] == d[o + 1] && w[o + 2] == d[o + 2] && w[o + 3] == d[o + 3]);
    };
    lemma_sums_same_words(w, d, fl_nwords(d));
}

/// `e` is `d` with the single byte at `p` changed.
pub open spec fn changes_one_byte(d: Seq<u8>, e: Seq<u8>, p: int) -> bool {
    &&& d.len() == e.len()
    &&& 0 <= p < d.len()
    &&& e[p] != d[p]
    &&& forall|i: int| 0 <= i < d.len() && i != p ==> e[i] == d[i]
}

/// `x % M` differs from `x` by a multiple of `M`; the multiple is returned.
proof fn lemma_mod_witness(x: int) -> (k: int)
    ensures
        x % 0xFFFF_FFFF - x == k * 0xFFFF_FFFF,
{
    vstd::arithmetic::div_mod::lemma_fundamental_div_mod(x, 0xFFFF_FFFF);
    -(x / 0xFFFF_FFFF)
}

/// Changing word `j` by `delta` shifts the first running sum by `delta`
/// and the second by `(n - j) * delta`, modulo `M`, from word `j` on.
#[verifier::rlimit(30)]
proof fn lemma_sums_shift(d: Seq<u8>, e: Seq<u8>, j: int, delta: int, n: nat) -> (k: (int, int))
    requires
        0 <= j,
        forall|i: int| 0 <= i < n && i != j ==> fl_word(e, i) == fl_word(d, i),
        n > j ==> fl_word(e, j) == fl_word(d, j) + delta,
    ensures
        n <= j ==> fl_sums(e, n) == fl_sums(d, n),
        n > j ==> fl_sums(e, n).0 - fl_sums(d, n).0 - delta == k.0 * 0xFFFF_FFFF,
        n > j ==> fl_sums(e, n).1 - fl_sums(d, n).1 - (n - j) * delta == k.1 * 0xFFFF_FFFF,
    decreases n,
{
    if n == 0 {
        (0, 0)
    } else {
        let m = (n - 1) as nat;
        let prev = lemma_sums_shift(d, e, j, delta, m);
        let (s1, s2) = fl_sums(d, m);
        let (t1, t2) = fl_sums(e, m);
        let a = s1 + fl_word(d, m as int);
        let b = t1 + fl_word(e, m as int);
        let ka = lemma_mod_witness(a);
        let kb = lemma_mod_witness(b);
        let a1 = a % 0xFFFF_FFFF;
        let b1 = b % 0xFFFF_FFFF;
        let kc = lemma_mod_witness(s2 + a1);
        let kd = lemma_mod_witness(t2 + b1);
        if n <= j {
            (0, 0)
        } else if m == j {
            // t1 == s1, t2 == s2 here.
            let k0 = kb - ka;
            let k1 = kd - kc + kb - ka;
            assert((n - j) * delta == delta) by (nonlinear_arith)
                requires
                    n - j == 1,
            ;
            (k0, k1)
        } else {
            let k0 = kb - ka + prev.0;
            let k1 = kd - kc + prev.1 + kb - ka + prev.0;
            assert((n - j) * delta == (m - j) * delta + delta) by (nonlinear_arith)
                requires
                    n == m + 1,
            ;
            (k0, k1)
        }
    }
}

/// `x * c` is a multiple of `M` only when it is zero, for the small
/// factors a one-byte change produces.
#[verifier::rlimit(30)]
proof fn lemma_small_product_not_multiple(x: int, c: int, q: int, k: int)
    requires
        1 <= x <= 0x100_0000,
        -255 <= c <= 255,
        c != 0,
        0 <= q < 4,
    ensures
        x * (c * pow256(q)) != k * 0xFFFF_FFFF,
{
    if x * (c * pow256(q)) != k * 0xFFFF_FFFF {
        return;
    }
    // 256^(4 - q) * 256^q == 2^32 == M + 1.
    let r = pow256(4 - q);
    assert(r * pow256(q) == 0x1_0000_0000) by {
        if q == 0 {} else if q == 1 {} else if q == 2 {} else {}
    };
    assert(x * c * 0x1_0000_0000 == k * r * 0xFFFF_FFFF) by (nonlinear_arith)
        requires
            x * (c * pow256(q)) == k * 0xFFFF_FFFF,
            r * pow256(q) == 0x1_0000_0000,
    ;
    // x * c * (M + 1) == k * r * M, so x * c == (k * r - x * c) * M.
    let t = k * r - x * c;
    assert(x * c == t * 0xFFFF_FFFF) by (nonlinear_arith)
        requires
            x * c * 0x1_0000_0000 == k * r * 0xFFFF_FFFF,
            t == k * r - x * c,
    ;
    assert(-0xFFFF_FFFF < x * c < 0xFFFF_FFFF) by (nonlinear_arith)
        requires
            1 <= x <= 0x100_0000,
            -255 <= c <= 255,
    ;
    assert(x * c != 0) by (nonlinear_arith)
        requires
            1 <= x,
            c != 0,
    ;
    assert(x * c != t * 0xFFFF_FFFF) by (nonlinear_arith)
        requires
            -0xFFFF_FFFF < x * c < 0xFFFF_FFFF,
            x * c != 0,
    ;
}

/// `256^q` for `q < 4`.
pub open spec fn pow256(q: int) -> int {
    if q <= 0 {
        1
    } else if q == 1 {
        0x100
    } else if q == 2 {
        0x1_0000
    } else if q == 3 {
        0x100_0000
    } else {
        0x1_0000_0000
    }
}

/// A change inside the stored checksum leaves the computed one as it was.
proof fn lemma_stored_field_change(d: Seq<u8>, e: Seq<u8>, p: int)
    requires
        object_valid(d),
        changes_one_byte(d, e, p),
        p < 8,
    ensures
        !object_valid(e),
{
    let n = fl_nwords(d);
    assert forall|i: int| 0 <= i < n implies fl_word(e, i) == fl_word(d, i) by {
        let o = 8 + 4 * i;
        assert(e[o] == d[o] && e[o + 1] == d[o + 1] && e[o + 2] == d[o + 2] && e[o + 3] == d[o + 3]);
    };
    lemma_sums_same_words(e, d, n);
    assert(fletcher64(e) == fletcher64(d));
    assert(le64(e, 0) != le64(d, 0)) by {
        assert(forall|i: int| 0 <= i < 8 && i != p ==> e[i] == d[i]);
        assert(e[p] != d[p]);
        crate::raw::lemma_le_bounds(d, 0);
    };
}

/// A change inside checksummed word `j` moves the low half of the
/// computed checksum.
#[verifier::rlimit(30)]
proof fn lemma_word_change(d: Seq<u8>, e: Seq<u8>, p: int)
    requires
        object_valid(d),
        changes_one_byte(d, e, p),
        8 <= p < 8 + 4 * fl_nwords(d),
        fl_nwords(d) < 0x100_0000,
    ensures
        fl_low(e) != fl_low(d),
{
    let n = fl_nwords(d);
    assert(fl_nwords(e) == n);
    let j = (p - 8) / 4;
    let q = (p - 8) % 4;
    let c = e[p] as int - d[p] as int;
    let delta = c * pow256(q);
    let o = 8 + 4 * j;
    assert(o <= p < o + 4);
    assert forall|i: int| 0 <= i < n && i != j implies fl_word(e, i) == fl_word(d, i) by {
        let oi = 8 + 4 * i;
        assert(oi + 4 <= p || p < oi) by (nonlinear_arith)
            requires
                oi == 8 + 4 * i,
                o == 8 + 4 * j,
                o <= p < o + 4,
                i != j,
        ;
        assert(e[oi] == d[oi] && e[oi + 1] == d[oi + 1] && e[oi + 2] == d[oi + 2] && e[oi + 3] == d[oi + 3]);
    };
    assert(fl_word(e, j) == fl_word(d, j) + delta) by {
        assert(forall|i: int| o <= i < o + 4 && i != p ==> e[i] == d[i]);
    };
    assert(j < n);
    let k = lemma_sums_shift(d, e, j, delta, n);
    let (s1, s2) = fl_sums(d, n);
    let (t1, t2) = fl_sums(e, n);
    let ks = lemma_mod_witness(s1 + s2);
    let kt = lemma_mod_witness(t1 + t2);
    if fl_low(e) == fl_low(d) {
        let x = n - j + 1;
        assert(x * delta == (n - j) * delta + delta) by (nonlinear_arith)
            requires
                x == n - j + 1,
        ;
        let kk = ks - kt - k.0 - k.1;
        assert(x * delta == kk * 0xFFFF_FFFF);
        lemma_small_product_not_multiple(x, c, q, kk);
    }
}

/// Any change to a single byte of a valid object is detected, whether it
/// hits the stored checksum or a checksummed word (objects below 64 MiB;
/// bytes past the last whole word are not covered by the checksum).
pub proof fn lemma_single_byte_change_detected(d: Seq<u8>, e: Seq<u8>, p: int)
    requires
        object_valid(d),
        changes_one_byte(d, e, p),
        p < 8 + 4 * fl_nwords(d),
        fl_nwords(d) < 0x100_0000,
    ensures
        !object_valid(e),
{
    if p < 8 {
        lemma_stored_field_change(d, e, p);
    } else {
        lemma_word_change(d, e, p);
        lemma_fletcher_fits(e);
        lemma_fletcher_fits(d);
        lemma_sums_bounded(d, fl_nwords(d));
        lemma_sums_bounded(e, fl_nwords(e));
        assert(le64(e, 0) == le64(d, 0)) by {
            assert(forall|i: int| 0 <= i < 8 ==> e[i] == d[i]);
        };
        assert(fletcher64(e) != fletcher64(d)) by (nonlinear_arith)
            requires
                fletcher64(e) == fl_high(e) * 0x1_0000_0000 + fl_low(e),
                fletcher64(d) == fl_high(d) * 0x1_0000_0000 + fl_low(d),
                1 <= fl_low(e) <= 0xFFFF_FFFF,
                1 <= fl_low(d) <= 0xFFFF_FFFF,
                fl_low(e) != fl_low(d),
        ;
    }
}

/// Compute the checksum of an object whose first 8 bytes are the (ignored)
/// checksum field. `data` is the full object, including those 8 bytes.
#[verifier::rlimit(30)]
pub fn fletcher64_object(data: &[u8]) -> (ck: u64)
    ensures
        ck == fletcher64(data@),
{
    let mut sum1: u64 = 0;
    let mut sum2: u64 = 0;
    let len = data.len();
    let mut i: usize = 8;
    let ghost mut k: nat = 0;
    while i <= len && 4 <= len - i
        invariant
            len == data@.len(),
            i == 8 + 4 * k,
            data@.len() >= 8 ==> k <= fl_nwords(data@),
            data@.len() < 8 ==> k == 0,
            (sum1 as int, sum2 as int) == fl_sums(data@, k),
            sum1 < MOD,
            sum2 < MOD,
        decreases len - i,
    {
        let mut r = SliceReader::new(data);
        proof {
            assert(i + 4 <= data@.len());
        }
        r.skip(i).unwrap();
        let w = r.u32().unwrap() as u64;
        proof {
            assert(w == fl_word(data@, k as int));
            lemma_sums_bounded(data@, k + 1);
        }
        sum1 = (sum1 + w) % MOD;
        sum2 = (sum2 + sum1) % MOD;
        i = i + 4;
        proof {
            k = k + 1;
        }
    }
    proof {
        if data@.len() >= 8 {
            assert(k == fl_nwords(data@));
        } else {
            assert(fl_nwords(data@) == 0);
        }
    }
    let ck_low = MOD - ((sum1 + sum2) % MOD);
    let ck_high = MOD - ((sum1 + ck_low) % MOD);
    assert((ck_high << 32) | ck_low == ck_high * 0x1_0000_0000 + ck_low) by (bit_vector)
        requires
            ck_high <= 0xFFFF_FFFF,
            ck_low <= 0xFFFF_FFFF,
    ;
    (ck_high << 32) | ck_low
}

/// Validate an on-disk object: its stored checksum (first 8 LE bytes) must
/// match the computed value.
pub fn verify_object(data: &[u8]) -> (ok: bool)
    ensures
        ok == object_valid(data@),
{
    if data.len() < 8 {
        return false;
    }
    let mut r = SliceReader::new(data);
    let stored = r.u64().unwrap();
    stored == fletcher64_object(data)
}

/// Fletcher sums of a sequence of 32-bit words, both kept modulo
/// `u32::MAX`: the first sums the words, the second sums the first after
/// each word.
pub open spec fn word_sums(ws: Seq<int>) -> (int, int)
    decreases ws.len(),
{
    if ws.len() == 0 {
        (0, 0)
    } else {
        let (a, b) = word_sums(ws.drop_last());
        let a2 = (a + ws.last()) % 0xFFFF_FFFF;
        (a2, (b + a2) % 0xFFFF_FFFF)
    }
}

/// The 32-bit words of an object after its 8-byte checksum field.
pub open spec fn object_words(d: Seq<u8>) -> Seq<int> {
    Seq::new(fl_nwords(d), |j: int| fl_word(d, j))
}

proof fn lemma_word_sums_prefix(d: Seq<u8>, n: nat)
    requires
        n <= fl_nwords(d),
    ensures
        word_sums(object_words(d).take(n as int)) == fl_sums(d, n),
    decreases n,
{
    if n > 0 {
        lemma_word_sums_prefix(d, (n - 1) as nat);
        let t = object_words(d).take(n as int);
        assert(t.drop_last() =~= object_words(d).take(n - 1));
        assert(t.last() == fl_word(d, n - 1));
    }
}

/// Summing `ws` and then two more words.
proof fn lemma_word_sums_two_more(ws: Seq<int>, x: int, y: int)
    ensures
        ({
            let (a, b) = word_sums(ws);
            let a1 = (a + x) % 0xFFFF_FFFF;
            let b1 = (b + a1) % 0xFFFF_FFFF;
            let a2 = (a1 + y) % 0xFFFF_FFFF;
            word_sums(ws + seq![x, y]) == (a2, (b1 + a2) % 0xFFFF_FFFF)
        }),
{
    let w1 = ws + seq![x];
    let w2 = ws + seq![x, y];
    assert(w2.drop_last() =~= w1);
    assert(w1.drop_last() =~= ws);
    assert(w2.last() == y);
    assert(w1.last() == x);
    assert(word_sums(w1) == ({
        let (a, b) = word_sums(ws);
        let a1 = (a + x) % 0xFFFF_FFFF;
        (a1, (b + a1) % 0xFFFF_FFFF)
    }));
}

/// The defining property of the Fletcher-64 checksum: summing an object's
/// words followed by the checksum's low word and then its high word brings
/// both running sums to zero.
pub proof fn lemma_checksum_zeroes_sums(d: Seq<u8>)
    ensures
        word_sums(object_words(d) + seq![fletcher64(d) % 0x1_0000_0000, fletcher64(d) / 0x1_0000_0000]) == (0int, 0int),
{
    let m: int = 0xFFFF_FFFF;
    let ws = object_words(d);
    lemma_word_sums_prefix(d, fl_nwords(d));
    assert(ws.take(fl_nwords(d) as int) =~= ws);
    lemma_sums_bounded(d, fl_nwords(d));
    let (s1, s2) = fl_sums(d, fl_nwords(d));
    let low = fl_low(d);
    let high = fl_high(d);
    assert(1 <= low <= m && 1 <= high <= m);
    vstd::arithmetic::div_mod::lemma_fundamental_div_mod_converse(fletcher64(d), 0x1_0000_0000, high, low);
    lemma_word_sums_two_more(ws, low, high);
    let a1 = (s1 + low) % m;
    // low == m - (s1 + s2) % m, so s1 + low + s2 is a multiple of m.
    let q = (s1 + s2) / m;
    vstd::arithmetic::div_mod::lemma_fundamental_div_mod(s1 + s2, m);
    assert(s1 + low == m * (q + 1) - s2);
    if s2 == 0 {
        vstd::arithmetic::div_mod::lemma_fundamental_div_mod_converse(s1 + low, m, q + 1, 0);
        assert(a1 == 0);
    } else {
        vstd::arithmetic::div_mod::lemma_fundamental_div_mod_converse(s1 + low, m, q, m - s2);
        assert(a1 == m - s2);
    }
    let b1 = (s2 + a1) % m;
    assert(b1 == 0) by {
        if s2 != 0 {
            vstd::arithmetic::div_mod::lemma_fundamental_div_mod_converse(s2 + a1, m, 1, 0);
        }
    }
    assert(high == m - a1);
    let a2 = (a1 + high) % m;
    vstd::arithmetic::div_mod::lemma_fundamental_div_mod_converse(a1 + high, m, 1, 0);
    assert(a2 == 0);
}

/// An object `verify_object` accepts has the Fletcher property: its words
/// followed by the two stored checksum words (low, then high) sum to zero.
pub proof fn lemma_valid_object_sums(d: Seq<u8>)
    requires
        object_valid(d),
    ensures
        word_sums(object_words(d) + seq![le32(d, 0), le32(d, 4)]) == (0int, 0int),
{
    lemma_checksum_zeroes_sums(d);
    crate::raw::lemma_le_bounds(d, 0);
    assert(0 <= le32(d, 4) < 0x1_0000_0000);
    vstd::arithmetic::div_mod::lemma_fundamental_div_mod_converse(le64(d, 0), 0x1_0000_0000, le32(d, 4), le32(d, 0));
}

} // verus!
