//! Shared low-level read primitives: packing a fixed number of bytes into
//! one machine word, and locating the first differing byte of two words from
//! the trailing-zero count of their XOR.
//!
//! Words are packed with the byte at the lowest address in the least
//! significant position, and every scan below counts from that end, so the
//! position of the first mismatching byte is independent of the byte order
//! of the machine the code runs on.
use vstd::prelude::*;

verus! {

use vstd::std_specs::bits::{
    u16_trailing_zeros, u32_trailing_zeros, u64_trailing_zeros, axiom_u16_trailing_zeros,
    axiom_u32_trailing_zeros, axiom_u64_trailing_zeros,
};

/// The eight bytes of `s` at `off..off + 8`, packed least-significant-first.
pub open spec fn word8_of(s: Seq<u8>, off: int) -> u64 {
    (s[off] as u64) | ((s[off + 1] as u64) << 8u64) | ((s[off + 2] as u64) << 16u64) | ((s[off
        + 3] as u64) << 24u64) | ((s[off + 4] as u64) << 32u64) | ((s[off + 5] as u64) << 40u64) | (
    (s[off + 6] as u64) << 48u64) | ((s[off + 7] as u64) << 56u64)
}

/// The four bytes of `s` at `off..off + 4`, packed least-significant-first.
pub open spec fn word4_of(s: Seq<u8>, off: int) -> u32 {
    (s[off] as u32) | ((s[off + 1] as u32) << 8u32) | ((s[off + 2] as u32) << 16u32) | ((s[off
        + 3] as u32) << 24u32)
}

/// The two bytes of `s` at `off..off + 2`, packed least-significant-first.
pub open spec fn word2_of(s: Seq<u8>, off: int) -> u16 {
    (s[off] as u16) | ((s[off + 1] as u16) << 8u16)
}

/// Byte `k` of a word, counting from the least significant end.
pub open spec fn byte64(w: u64, k: int) -> u64 {
    (w >> ((8 * k) as u64)) & 0xff
}

/// Byte `k` of a 32-bit word, counting from the least significant end.
pub open spec fn byte32(w: u32, k: int) -> u32 {
    (w >> ((8 * k) as u32)) & 0xff
}

/// Byte `k` of a 16-bit word, counting from the least significant end.
pub open spec fn byte16(w: u16, k: int) -> u16 {
    (w >> ((8 * k) as u16)) & 0xff
}

/// Reads the 8-byte word at `off`, least-significant-byte first.
pub(crate) fn read8(a: pa_types::Seq, off: usize) -> (w: u64)
    requires
        off + 8 <= a@.len(),
    ensures
        w == word8_of(a@, off as int),
{
    (a[off] as u64) | ((a[off + 1] as u64) << 8u64) | ((a[off + 2] as u64) << 16u64) | ((a[off
        + 3] as u64) << 24u64) | ((a[off + 4] as u64) << 32u64) | ((a[off + 5] as u64) << 40u64) | (
    (a[off + 6] as u64) << 48u64) | ((a[off + 7] as u64) << 56u64)
}

/// Reads the 4-byte word at `off`, least-significant-byte first.
pub(crate) fn read4(a: pa_types::Seq, off: usize) -> (w: u32)
    requires
        off + 4 <= a@.len(),
    ensures
        w == word4_of(a@, off as int),
{
    (a[off] as u32) | ((a[off + 1] as u32) << 8u32) | ((a[off + 2] as u32) << 16u32) | ((a[off
        + 3] as u32) << 24u32)
}

/// Reads the 2-byte word at `off`, least-significant-byte first.
pub(crate) fn read2(a: pa_types::Seq, off: usize) -> (w: u16)
    requires
        off + 2 <= a@.len(),
    ensures
        w == word2_of(a@, off as int),
{
    (a[off] as u16) | ((a[off + 1] as u16) << 8u16)
}

/// Two words XOR to zero exactly when they are equal.
pub proof fn lemma_xor_zero64(x: u64, y: u64)
    ensures
        (x ^ y == 0) <==> x == y,
{
    assert((x ^ y == 0) <==> x == y) by (bit_vector);
}

/// Two 32-bit words XOR to zero exactly when they are equal.
pub proof fn lemma_xor_zero32(x: u32, y: u32)
    ensures
        (x ^ y == 0) <==> x == y,
{
    assert((x ^ y == 0) <==> x == y) by (bit_vector);
}

/// Two 16-bit words XOR to zero exactly when they are equal.
pub proof fn lemma_xor_zero16(x: u16, y: u16)
    ensures
        (x ^ y == 0) <==> x == y,
{
    assert((x ^ y == 0) <==> x == y) by (bit_vector);
}

/// XOR acts byte by byte.
pub proof fn lemma_xor_byte64(x: u64, y: u64, k: int)
    requires
        0 <= k < 8,
    ensures
        byte64(x ^ y, k) == byte64(x, k) ^ byte64(y, k),
{
    let s = (8 * k) as u64;
    assert((((x ^ y) >> s) & 0xff) == (((x >> s) & 0xff) ^ ((y >> s) & 0xff))) by (bit_vector);
}

/// XOR acts byte by byte on 32-bit words.
pub proof fn lemma_xor_byte32(x: u32, y: u32, k: int)
    requires
        0 <= k < 4,
    ensures
        byte32(x ^ y, k) == byte32(x, k) ^ byte32(y, k),
{
    let s = (8 * k) as u32;
    assert((((x ^ y) >> s) & 0xff) == (((x >> s) & 0xff) ^ ((y >> s) & 0xff))) by (bit_vector);
}

/// XOR acts byte by byte on 16-bit words.
pub proof fn lemma_xor_byte16(x: u16, y: u16, k: int)
    requires
        0 <= k < 2,
    ensures
        byte16(x ^ y, k) == byte16(x, k) ^ byte16(y, k),
{
    let s = (8 * k) as u16;
    assert((((x ^ y) >> s) & 0xff) == (((x >> s) & 0xff) ^ ((y >> s) & 0xff))) by (bit_vector);
}

/// Byte `k` of a packed word is the byte the word was packed from.
pub proof fn lemma_word8_byte(s: Seq<u8>, off: int, k: int)
    requires
        0 <= off,
        off + 8 <= s.len(),
        0 <= k < 8,
    ensures
        byte64(word8_of(s, off), k) == s[off + k] as u64,
{
    let x0 = s[off] as u64;
    let x1 = s[off + 1] as u64;
    let x2 = s[off + 2] as u64;
    let x3 = s[off + 3] as u64;
    let x4 = s[off + 4] as u64;
    let x5 = s[off + 5] as u64;
    let x6 = s[off + 6] as u64;
    let x7 = s[off + 7] as u64;
    let w = word8_of(s, off);
    assert(w == x0 | (x1 << 8u64) | (x2 << 16u64) | (x3 << 24u64) | (x4 << 32u64) | (x5 << 40u64)
        | (x6 << 48u64) | (x7 << 56u64));
    let sh = (8 * k) as u64;
    assert(((x0 | (x1 << 8u64) | (x2 << 16u64) | (x3 << 24u64) | (x4 << 32u64) | (x5 << 40u64) | (
    x6 << 48u64) | (x7 << 56u64)) >> sh) & 0xff == (if sh == 0 {
        x0
    } else if sh == 8 {
        x1
    } else if sh == 16 {
        x2
    } else if sh == 24 {
        x3
    } else if sh == 32 {
        x4
    } else if sh == 40 {
        x5
    } else if sh == 48 {
        x6
    } else {
        x7
    })) by (bit_vector)
        requires
            x0 < 256 && x1 < 256 && x2 < 256 && x3 < 256 && x4 < 256 && x5 < 256 && x6 < 256 && x7
                < 256,
            sh == 0 || sh == 8 || sh == 16 || sh == 24 || sh == 32 || sh == 40 || sh == 48 || sh
                == 56,
    ;
}

/// Byte `k` of a packed 32-bit word is the byte the word was packed from.
pub proof fn lemma_word4_byte(s: Seq<u8>, off: int, k: int)
    requires
        0 <= off,
        off + 4 <= s.len(),
        0 <= k < 4,
    ensures
        byte32(word4_of(s, off), k) == s[off + k] as u32,
{
    let x0 = s[off] as u32;
    let x1 = s[off + 1] as u32;
    let x2 = s[off + 2] as u32;
    let x3 = s[off + 3] as u32;
    let w = word4_of(s, off);
    assert(w == x0 | (x1 << 8u32) | (x2 << 16u32) | (x3 << 24u32));
    let sh = (8 * k) as u32;
    assert(((x0 | (x1 << 8u32) | (x2 << 16u32) | (x3 << 24u32)) >> sh) & 0xff == (if sh == 0 {
        x0
    } else if sh == 8 {
        x1
    } else if sh == 16 {
        x2
    } else {
        x3
    })) by (bit_vector)
        requires
            x0 < 256 && x1 < 256 && x2 < 256 && x3 < 256,
            sh == 0 || sh == 8 || sh == 16 || sh == 24,
    ;
}

/// Byte `k` of a packed 16-bit word is the byte the word was packed from.
pub proof fn lemma_word2_byte(s: Seq<u8>, off: int, k: int)
    requires
        0 <= off,
        off + 2 <= s.len(),
        0 <= k < 2,
    ensures
        byte16(word2_of(s, off), k) == s[off + k] as u16,
{
    let x0 = s[off] as u16;
    let x1 = s[off + 1] as u16;
    let w = word2_of(s, off);
    assert(w == x0 | (x1 << 8u16));
    let sh = (8 * k) as u16;
    assert(((x0 | (x1 << 8u16)) >> sh) & 0xff == (if sh == 0 {
        x0
    } else {
        x1
    })) by (bit_vector)
        requires
            x0 < 256 && x1 < 256,
            sh == 0 || sh == 8,
    ;
}

/// The trailing-zero count of a nonzero word, divided by the byte width,
/// names the word's first nonzero byte: every lower byte is zero.
pub proof fn lemma_tz_byte64(d: u64)
    requires
        d != 0,
    ensures
        ({
            let k = u64_trailing_zeros(d) as int / 8;
            &&& 0 <= k < 8
            &&& byte64(d, k) != 0
            &&& forall|j: int| 0 <= j < k ==> byte64(d, j) == 0
        }),
{
    axiom_u64_trailing_zeros(d);
    let t = u64_trailing_zeros(d);
    let k = t as int / 8;
    let tu = t as u64;
    let ku = k as u64;
    let sh = (64 - t) as u64;
    assert(d << sh == 0);
    assert(((d >> (8 * ku)) & 0xff) != 0) by (bit_vector)
        requires
            (d >> tu) & 1u64 == 1u64,
            8 * ku <= tu < 8 * ku + 8,
            ku < 8,
    ;
    assert(byte64(d, k) != 0);
    assert forall|j: int| 0 <= j < k implies byte64(d, j) == 0 by {
        let ju = j as u64;
        assert(((d >> (8 * ju)) & 0xff) == 0) by (bit_vector)
            requires
                d << sh == 0,
                sh + tu == 64,
                tu < 64,
                8 * ju + 8 <= tu,
                ju < 8,
        ;
    }
}

/// The trailing-zero count of a nonzero 32-bit word, divided by the byte
/// width, names the word's first nonzero byte: every lower byte is zero.
pub proof fn lemma_tz_byte32(d: u32)
    requires
        d != 0,
    ensures
        ({
            let k = u32_trailing_zeros(d) as int / 8;
            &&& 0 <= k < 4
            &&& byte32(d, k) != 0
            &&& forall|j: int| 0 <= j < k ==> byte32(d, j) == 0
        }),
{
    axiom_u32_trailing_zeros(d);
    let t = u32_trailing_zeros(d);
    let k = t as int / 8;
    let tu = t as u32;
    let ku = k as u32;
    let sh = (32 - t) as u32;
    assert(d << sh == 0);
    assert(((d >> (8 * ku)) & 0xff) != 0) by (bit_vector)
        requires
            (d >> tu) & 1u32 == 1u32,
            8 * ku <= tu < 8 * ku + 8,
            ku < 4,
    ;
    assert(byte32(d, k) != 0);
    assert forall|j: int| 0 <= j < k implies byte32(d, j) == 0 by {
        let ju = j as u32;
        assert(((d >> (8 * ju)) & 0xff) == 0) by (bit_vector)
            requires
                d << sh == 0,
                sh + tu == 32,
                tu < 32,
                8 * ju + 8 <= tu,
                ju < 4,
        ;
    }
}

/// The trailing-zero count of a nonzero 16-bit word, divided by the byte
/// width, names the word's first nonzero byte: every lower byte is zero.
pub proof fn lemma_tz_byte16(d: u16)
    requires
        d != 0,
    ensures
        ({
            let k = u16_trailing_zeros(d) as int / 8;
            &&& 0 <= k < 2
            &&& byte16(d, k) != 0
            &&& forall|j: int| 0 <= j < k ==> byte16(d, j) == 0
        }),
{
    axiom_u16_trailing_zeros(d);
    let t = u16_trailing_zeros(d);
    let k = t as int / 8;
    let tu = t as u16;
    let ku = k as u16;
    let sh = (16 - t) as u16;
    assert(d << sh == 0);
    assert(((d >> (8 * ku)) & 0xff) != 0) by (bit_vector)
        requires
            (d >> tu) & 1u16 == 1u16,
            8 * ku <= tu < 8 * ku + 8,
            ku < 2,
    ;
    assert(byte16(d, k) != 0);
    assert forall|j: int| 0 <= j < k implies byte16(d, j) == 0 by {
        let ju = j as u16;
        assert(((d >> (8 * ju)) & 0xff) == 0) by (bit_vector)
            requires
                d << sh == 0,
                sh + tu == 16,
                tu < 16,
                8 * ju + 8 <= tu,
                ju < 2,
        ;
    }
}

/// An equal pair of 8-byte words read after a matched region extends the
/// matched region by eight bytes.
pub proof fn lemma_word8_match(a: Seq<u8>, b: Seq<u8>, cnt: int)
    requires
        0 <= cnt,
        cnt + 8 <= a.len(),
        cnt + 8 <= b.len(),
        word8_of(a, cnt) == word8_of(b, cnt),
        forall|j: int| 0 <= j < cnt ==> a[j] == b[j],
    ensures
        forall|j: int| 0 <= j < cnt + 8 ==> a[j] == b[j],
        cnt + 8 <= crate::model::lcp(a, b),
{
    assert forall|j: int| 0 <= j < cnt + 8 implies a[j] == b[j] by {
        if j >= cnt {
            lemma_word8_byte(a, cnt, j - cnt);
            lemma_word8_byte(b, cnt, j - cnt);
        }
    }
    crate::model::lemma_matched_le(a, b, cnt + 8);
}

/// A differing pair of 8-byte words read after a matched region pins the
/// match length: the region plus the first differing byte of the two words,
/// located by the trailing-zero count of their XOR.
pub proof fn lemma_word8_mismatch(a: Seq<u8>, b: Seq<u8>, cnt: int, k: int)
    requires
        0 <= cnt,
        cnt + 8 <= a.len(),
        cnt + 8 <= b.len(),
        word8_of(a, cnt) != word8_of(b, cnt),
        k == u64_trailing_zeros(word8_of(a, cnt) ^ word8_of(b, cnt)) as int / 8,
        forall|j: int| 0 <= j < cnt ==> a[j] == b[j],
    ensures
        0 <= k < 8,
        crate::model::lcp(a, b) == cnt + k,
{
    let wa = word8_of(a, cnt);
    let wb = word8_of(b, cnt);
    let d = wa ^ wb;
    lemma_xor_zero64(wa, wb);
    lemma_tz_byte64(d);
    lemma_xor_byte64(wa, wb, k);
    lemma_word8_byte(a, cnt, k);
    lemma_word8_byte(b, cnt, k);
    lemma_xor_zero64(byte64(wa, k), byte64(wb, k));
    assert(a[cnt + k] != b[cnt + k]);
    assert forall|j: int| 0 <= j < cnt + k implies a[j] == b[j] by {
        if j >= cnt {
            lemma_xor_byte64(wa, wb, j - cnt);
            lemma_word8_byte(a, cnt, j - cnt);
            lemma_word8_byte(b, cnt, j - cnt);
            lemma_xor_zero64(byte64(wa, j - cnt), byte64(wb, j - cnt));
        }
    }
    crate::model::lemma_lcp_unique(a, b, cnt + k);
}

/// A single 4-byte probe resolved from two gathered words: equal words mean
/// the whole window matches; differing words put the first mismatch at the
/// byte named by the trailing-zero count of their XOR.
pub proof fn lemma_word4_probe(a: Seq<u8>, b: Seq<u8>, oa: int, ob: int, k: int)
    requires
        0 <= oa,
        oa + 4 <= a.len(),
        0 <= ob,
        ob + 4 <= b.len(),
        word4_of(a, oa) == word4_of(b, ob) ==> k == 4,
        word4_of(a, oa) != word4_of(b, ob) ==> k == u32_trailing_zeros(
            word4_of(a, oa) ^ word4_of(b, ob),
        ) as int / 8,
    ensures
        crate::model::lcp(a.subrange(oa, oa + 4), b.subrange(ob, ob + 4)) == k,
        0 <= k <= 4,
{
    let wina = a.subrange(oa, oa + 4);
    let winb = b.subrange(ob, ob + 4);
    let wa = word4_of(a, oa);
    let wb = word4_of(b, ob);
    if wa == wb {
        assert forall|p: int| 0 <= p < 4 implies wina[p] == winb[p] by {
            lemma_word4_byte(a, oa, p);
            lemma_word4_byte(b, ob, p);
            assert(wina[p] == a[oa + p]);
            assert(winb[p] == b[ob + p]);
        }
        crate::model::lemma_lcp_unique(wina, winb, 4);
    } else {
        let d = wa ^ wb;
        lemma_xor_zero32(wa, wb);
        lemma_tz_byte32(d);
        lemma_xor_byte32(wa, wb, k);
        lemma_word4_byte(a, oa, k);
        lemma_word4_byte(b, ob, k);
        lemma_xor_zero32(byte32(wa, k), byte32(wb, k));
        assert(wina[k] == a[oa + k]);
        assert(winb[k] == b[ob + k]);
        assert forall|p: int| 0 <= p < k implies wina[p] == winb[p] by {
            lemma_xor_byte32(wa, wb, p);
            lemma_word4_byte(a, oa, p);
            lemma_word4_byte(b, ob, p);
            lemma_xor_zero32(byte32(wa, p), byte32(wb, p));
            assert(wina[p] == a[oa + p]);
            assert(winb[p] == b[ob + p]);
        }
        crate::model::lemma_lcp_unique(wina, winb, k);
    }
}

/// A single 2-byte probe resolved from two gathered words: equal words mean
/// the whole window matches; differing words put the first mismatch at the
/// byte named by the trailing-zero count of their XOR.
pub proof fn lemma_word2_probe(a: Seq<u8>, b: Seq<u8>, oa: int, ob: int, k: int)
    requires
        0 <= oa,
        oa + 2 <= a.len(),
        0 <= ob,
        ob + 2 <= b.len(),
        word2_of(a, oa) == word2_of(b, ob) ==> k == 2,
        word2_of(a, oa) != word2_of(b, ob) ==> k == u16_trailing_zeros(
            word2_of(a, oa) ^ word2_of(b, ob),
        ) as int / 8,
    ensures
        crate::model::lcp(a.subrange(oa, oa + 2), b.subrange(ob, ob + 2)) == k,
        0 <= k <= 2,
{
    let wina = a.subrange(oa, oa + 2);
    let winb = b.subrange(ob, ob + 2);
    let wa = word2_of(a, oa);
    let wb = word2_of(b, ob);
    if wa == wb {
        assert forall|p: int| 0 <= p < 2 implies wina[p] == winb[p] by {
            lemma_word2_byte(a, oa, p);
            lemma_word2_byte(b, ob, p);
            assert(wina[p] == a[oa + p]);
            assert(winb[p] == b[ob + p]);
        }
        crate::model::lemma_lcp_unique(wina, winb, 2);
    } else {
        let d = wa ^ wb;
        lemma_xor_zero16(wa, wb);
        lemma_tz_byte16(d);
        lemma_xor_byte16(wa, wb, k);
        lemma_word2_byte(a, oa, k);
        lemma_word2_byte(b, ob, k);
        lemma_xor_zero16(byte16(wa, k), byte16(wb, k));
        assert(wina[k] == a[oa + k]);
        assert(winb[k] == b[ob + k]);
        assert forall|p: int| 0 <= p < k implies wina[p] == winb[p] by {
            lemma_xor_byte16(wa, wb, p);
            lemma_word2_byte(a, oa, p);
            lemma_word2_byte(b, ob, p);
            lemma_xor_zero16(byte16(wa, p), byte16(wb, p));
            assert(wina[p] == a[oa + p]);
            assert(winb[p] == b[ob + p]);
        }
        crate::model::lemma_lcp_unique(wina, winb, k);
    }
}

} // verus!
