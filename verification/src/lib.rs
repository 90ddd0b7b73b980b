//! The "extend" primitive of a pairwise sequence-alignment engine: given two
//! byte sequences, the length of their longest common prefix, i.e. the index
//! of the first mismatching position. The family members are observably
//! equivalent and differ in how they scan: element-wise, machine-word-wise,
//! or in fixed-width blocks, each in a bounds-checked form and in a form
//! that instead relies on the caller's padding guarantee (see
//! [`model::padded`]).
use vstd::prelude::*;

pub mod blocks;
pub mod model;
pub mod parallel;
pub mod words;

verus! {

use crate::model::{lcp, padded, lemma_lcp_unique, lemma_matched_le, lemma_lcp_bound};
use crate::words::{read8, lemma_word8_match, lemma_word8_mismatch, lemma_xor_zero64};
use crate::blocks::{
    extend_blocks, extend_blocks_nz, diff_mask, blocks_equal, mask_bit, lemma_mask_first,
    lemma_mask_nonzero,
};

/// Bounds-checked, element-wise extend: the baseline reference. Compares one
/// byte at a time and stops at either sequence's end.
#[verifier::loop_isolation(false)]
pub fn zip(a: pa_types::Seq, b: pa_types::Seq) -> (r: pa_types::I)
    requires
        lcp(a@, b@) <= i32::MAX,
    ensures
        r == lcp(a@, b@),
{
    let mut cnt: usize = 0;
    while cnt < a.len() && cnt < b.len() && a[cnt] == b[cnt]
        invariant
            cnt <= a@.len(),
            cnt <= b@.len(),
            forall|j: int| 0 <= j < cnt ==> a@[j] == b@[j],
        decreases a@.len() - cnt,
    {
        cnt = cnt + 1;
    }
    proof {
        lemma_lcp_unique(a@, b@, cnt as int);
    }
    cnt as i32
}

/// Shared element-wise probe: whether the bytes at position `cnt` of the two
/// sequences agree.
fn eq(a: pa_types::Seq, b: pa_types::Seq, cnt: usize) -> (r: bool)
    requires
        cnt < a@.len(),
        cnt < b@.len(),
    ensures
        r == (a@[cnt as int] == b@[cnt as int]),
{
    a[cnt] == b[cnt]
}

/// Bounds-checked, element-wise extend that consumes its sequences from the
/// front, one byte per step, until either runs out or the heads differ.
#[verifier::loop_isolation(false)]
pub fn naive(a: pa_types::Seq, b: pa_types::Seq) -> (r: pa_types::I)
    requires
        lcp(a@, b@) <= i32::MAX,
    ensures
        r == lcp(a@, b@),
{
    let ghost a0 = a@;
    let ghost b0 = b@;
    // The whole length fits a machine word; the counter stays below it.
    let _full: usize = a.len();
    let mut a = a;
    let mut b = b;
    let mut cnt: usize = 0;
    while a.len() != 0 && b.len() != 0 && eq(a, b, 0)
        invariant
            cnt + a@.len() == a0.len(),
            cnt + b@.len() == b0.len(),
            a@ == a0.skip(cnt as int),
            b@ == b0.skip(cnt as int),
            forall|j: int| 0 <= j < cnt ==> a0[j] == b0[j],
        decreases a@.len(),
    {
        proof {
            assert(a0[cnt as int] == a@[0]);
            assert(b0[cnt as int] == b@[0]);
        }
        cnt = cnt + 1;
        a = &a[1..a.len()];
        b = &b[1..b.len()];
        proof {
            assert(a@ =~= a0.skip(cnt as int));
            assert(b@ =~= b0.skip(cnt as int));
        }
    }
    proof {
        if a@.len() != 0 && b@.len() != 0 {
            assert(a0[cnt as int] == a@[0]);
            assert(b0[cnt as int] == b@[0]);
        }
        lemma_lcp_unique(a0, b0, cnt as int);
    }
    cnt as i32
}

/// Bounds-checked, element-wise extend over a single pre-computed bound
/// `min(len(a), len(b))`, consuming the sequences from the front.
#[verifier::loop_isolation(false)]
pub fn naive_fast(a: pa_types::Seq, b: pa_types::Seq) -> (r: pa_types::I)
    requires
        lcp(a@, b@) <= i32::MAX,
    ensures
        r == lcp(a@, b@),
{
    let ghost a0 = a@;
    let ghost b0 = b@;
    let mut a = a;
    let mut b = b;
    let mut cnt: usize = 0;
    let len: usize = if a.len() < b.len() { a.len() } else { b.len() };
    while cnt < len && eq(a, b, 0)
        invariant
            cnt + a@.len() == a0.len(),
            cnt + b@.len() == b0.len(),
            a@ == a0.skip(cnt as int),
            b@ == b0.skip(cnt as int),
            forall|j: int| 0 <= j < cnt ==> a0[j] == b0[j],
        decreases len - cnt,
    {
        proof {
            assert(a0[cnt as int] == a@[0]);
            assert(b0[cnt as int] == b@[0]);
        }
        cnt = cnt + 1;
        a = &a[1..a.len()];
        b = &b[1..b.len()];
        proof {
            assert(a@ =~= a0.skip(cnt as int));
            assert(b@ =~= b0.skip(cnt as int));
        }
    }
    proof {
        if cnt < len {
            assert(a0[cnt as int] == a@[0]);
            assert(b0[cnt as int] == b@[0]);
        }
        lemma_lcp_unique(a0, b0, cnt as int);
    }
    cnt as i32
}

/// Element-wise extend without bound tests: each step reads the heads
/// unconditionally, so the caller's padding guarantee must put the first
/// mismatch strictly inside both buffers.
#[verifier::loop_isolation(false)]
pub fn naive_unsafe(a: pa_types::Seq, b: pa_types::Seq) -> (r: pa_types::I)
    requires
        padded(a@, b@, 1),
        lcp(a@, b@) <= i32::MAX,
    ensures
        r == lcp(a@, b@),
{
    proof {
        lemma_lcp_bound(a@, b@);
    }
    let ghost a0 = a@;
    let ghost b0 = b@;
    let mut a = a;
    let mut b = b;
    let mut cnt: usize = 0;
    while eq(a, b, 0)
        invariant
            cnt + a@.len() == a0.len(),
            cnt + b@.len() == b0.len(),
            a@ == a0.skip(cnt as int),
            b@ == b0.skip(cnt as int),
            cnt <= lcp(a0, b0),
            forall|j: int| 0 <= j < cnt ==> a0[j] == b0[j],
        decreases lcp(a0, b0) - cnt,
    {
        proof {
            assert(a0[cnt as int] == a@[0]);
            assert(b0[cnt as int] == b@[0]);
        }
        cnt = cnt + 1;
        a = &a[1..a.len()];
        b = &b[1..b.len()];
        proof {
            assert(a@ =~= a0.skip(cnt as int));
            assert(b@ =~= b0.skip(cnt as int));
            lemma_matched_le(a0, b0, cnt as int);
        }
    }
    proof {
        assert(a0[cnt as int] == a@[0]);
        assert(b0[cnt as int] == b@[0]);
        lemma_lcp_unique(a0, b0, cnt as int);
    }
    cnt as i32
}

/// Bounds-checked, element-wise extend over a running index, testing both
/// bounds on every step.
#[verifier::loop_isolation(false)]
pub fn scalar(a: pa_types::Seq, b: pa_types::Seq) -> (r: pa_types::I)
    requires
        lcp(a@, b@) <= i32::MAX,
    ensures
        r == lcp(a@, b@),
{
    let mut cnt: usize = 0;
    while cnt < a.len() && cnt < b.len() && eq(a, b, cnt)
        invariant
            cnt <= a@.len(),
            cnt <= b@.len(),
            forall|j: int| 0 <= j < cnt ==> a@[j] == b@[j],
        decreases a@.len() - cnt,
    {
        cnt = cnt + 1;
    }
    proof {
        lemma_lcp_unique(a@, b@, cnt as int);
    }
    cnt as i32
}

/// Bounds-checked, element-wise extend over a running index against a single
/// pre-computed bound `min(len(a), len(b))`.
#[verifier::loop_isolation(false)]
pub fn scalar_fast(a: pa_types::Seq, b: pa_types::Seq) -> (r: pa_types::I)
    requires
        lcp(a@, b@) <= i32::MAX,
    ensures
        r == lcp(a@, b@),
{
    let mut cnt: usize = 0;
    let len: usize = if a.len() < b.len() { a.len() } else { b.len() };
    while cnt < len && eq(a, b, cnt)
        invariant
            cnt <= len,
            forall|j: int| 0 <= j < cnt ==> a@[j] == b@[j],
        decreases len - cnt,
    {
        cnt = cnt + 1;
    }
    proof {
        lemma_lcp_unique(a@, b@, cnt as int);
    }
    cnt as i32
}

/// Element-wise extend over a running index without bound tests, relying
/// entirely on the caller's padding guarantee.
#[verifier::loop_isolation(false)]
pub fn scalar_unsafe(a: pa_types::Seq, b: pa_types::Seq) -> (r: pa_types::I)
    requires
        padded(a@, b@, 1),
        lcp(a@, b@) <= i32::MAX,
    ensures
        r == lcp(a@, b@),
{
    proof {
        lemma_lcp_bound(a@, b@);
    }
    let mut cnt: usize = 0;
    while eq(a, b, cnt)
        invariant
            cnt <= lcp(a@, b@),
            forall|j: int| 0 <= j < cnt ==> a@[j] == b@[j],
        decreases lcp(a@, b@) - cnt,
    {
        cnt = cnt + 1;
        proof {
            lemma_matched_le(a@, b@, cnt as int);
        }
    }
    proof {
        lemma_lcp_unique(a@, b@, cnt as int);
    }
    cnt as i32
}

/// Bounds-checked, word-wise extend: XORs 8-byte words while both sequences
/// have a full word left, then finishes element-wise over the residual tail.
/// A nonzero XOR's trailing-zero byte count is the mismatch offset within
/// the word.
#[verifier::loop_isolation(false)]
pub fn u64(a: pa_types::Seq, b: pa_types::Seq) -> (r: pa_types::I)
    requires
        lcp(a@, b@) <= i32::MAX,
    ensures
        r == lcp(a@, b@),
{
    let mut cnt: usize = 0;
    let len: usize = if a.len() < b.len() { a.len() } else { b.len() };
    while len - cnt >= 8
        invariant
            cnt <= len,
            forall|j: int| 0 <= j < cnt ==> a@[j] == b@[j],
        decreases len - cnt,
    {
        let wa = read8(a, cnt);
        let wb = read8(b, cnt);
        let cmp = wa ^ wb;
        if cmp == 0 {
            proof {
                lemma_xor_zero64(wa, wb);
                lemma_word8_match(a@, b@, cnt as int);
            }
            cnt = cnt + 8;
        } else {
            let k = (cmp.trailing_zeros() / 8) as usize;
            proof {
                lemma_xor_zero64(wa, wb);
                lemma_word8_mismatch(a@, b@, cnt as int, k as int);
            }
            return (cnt + k) as i32;
        }
    }
    while cnt < a.len() && cnt < b.len() && eq(a, b, cnt)
        invariant
            cnt <= a@.len(),
            cnt <= b@.len(),
            forall|j: int| 0 <= j < cnt ==> a@[j] == b@[j],
        decreases a@.len() - cnt,
    {
        cnt = cnt + 1;
    }
    proof {
        lemma_lcp_unique(a@, b@, cnt as int);
    }
    cnt as i32
}

/// Word-wise extend without bound tests (XOR form): reads 8-byte words
/// unconditionally, advancing while the XOR is zero; the caller's padding
/// guarantee must leave a full word after the first mismatch.
#[verifier::loop_isolation(false)]
pub fn u64_unsafe(a: pa_types::Seq, b: pa_types::Seq) -> (r: pa_types::I)
    requires
        padded(a@, b@, 8),
        lcp(a@, b@) <= i32::MAX,
    ensures
        r == lcp(a@, b@),
{
    proof {
        lemma_lcp_bound(a@, b@);
    }
    let mut cnt: usize = 0;
    loop
        invariant
            cnt <= lcp(a@, b@),
            forall|j: int| 0 <= j < cnt ==> a@[j] == b@[j],
        decreases lcp(a@, b@) - cnt,
    {
        let wa = read8(a, cnt);
        let wb = read8(b, cnt);
        let cmp = wa ^ wb;
        if cmp == 0 {
            proof {
                lemma_xor_zero64(wa, wb);
                lemma_word8_match(a@, b@, cnt as int);
            }
            cnt = cnt + 8;
        } else {
            let k = (cmp.trailing_zeros() / 8) as usize;
            proof {
                lemma_xor_zero64(wa, wb);
                lemma_word8_mismatch(a@, b@, cnt as int, k as int);
            }
            return (cnt + k) as i32;
        }
    }
}

/// Word-wise extend without bound tests (equality form): short-circuits on
/// direct word equality and computes the XOR only once a mismatch is
/// detected.
#[verifier::loop_isolation(false)]
pub fn u64_unsafe_eq(a: pa_types::Seq, b: pa_types::Seq) -> (r: pa_types::I)
    requires
        padded(a@, b@, 8),
        lcp(a@, b@) <= i32::MAX,
    ensures
        r == lcp(a@, b@),
{
    proof {
        lemma_lcp_bound(a@, b@);
    }
    let mut cnt: usize = 0;
    loop
        invariant
            cnt <= lcp(a@, b@),
            forall|j: int| 0 <= j < cnt ==> a@[j] == b@[j],
        decreases lcp(a@, b@) - cnt,
    {
        let wa = read8(a, cnt);
        let wb = read8(b, cnt);
        if wa == wb {
            proof {
                lemma_word8_match(a@, b@, cnt as int);
            }
            cnt = cnt + 8;
        } else {
            let k = ((wa ^ wb).trailing_zeros() / 8) as usize;
            proof {
                lemma_word8_mismatch(a@, b@, cnt as int, k as int);
            }
            return (cnt + k) as i32;
        }
    }
}

/// Equality-form word-wise extend with a dedicated head test: an immediate
/// mismatch at position zero returns before any word is read.
#[verifier::loop_isolation(false)]
pub fn u64_unsafe_eq_if0(a: pa_types::Seq, b: pa_types::Seq) -> (r: pa_types::I)
    requires
        padded(a@, b@, 8),
        lcp(a@, b@) <= i32::MAX,
    ensures
        r == lcp(a@, b@),
{
    proof {
        lemma_lcp_bound(a@, b@);
    }
    if a[0] != b[0] {
        proof {
            lemma_lcp_unique(a@, b@, 0);
        }
        return 0;
    }
    let mut cnt: usize = 0;
    loop
        invariant
            cnt <= lcp(a@, b@),
            forall|j: int| 0 <= j < cnt ==> a@[j] == b@[j],
        decreases lcp(a@, b@) - cnt,
    {
        let wa = read8(a, cnt);
        let wb = read8(b, cnt);
        if wa == wb {
            proof {
                lemma_word8_match(a@, b@, cnt as int);
            }
            cnt = cnt + 8;
        } else {
            let k = ((wa ^ wb).trailing_zeros() / 8) as usize;
            proof {
                lemma_word8_mismatch(a@, b@, cnt as int, k as int);
            }
            return (cnt + k) as i32;
        }
    }
}

/// Equality-form word-wise extend with a head test that also advances past
/// the tested byte: the word loop starts one byte in.
#[verifier::loop_isolation(false)]
pub fn u64_unsafe_eq_if1(a: pa_types::Seq, b: pa_types::Seq) -> (r: pa_types::I)
    requires
        padded(a@, b@, 8),
        lcp(a@, b@) <= i32::MAX,
    ensures
        r == lcp(a@, b@),
{
    proof {
        lemma_lcp_bound(a@, b@);
    }
    if a[0] != b[0] {
        proof {
            lemma_lcp_unique(a@, b@, 0);
        }
        return 0;
    }
    proof {
        lemma_matched_le(a@, b@, 1);
    }
    let mut cnt: usize = 1;
    loop
        invariant
            cnt <= lcp(a@, b@),
            forall|j: int| 0 <= j < cnt ==> a@[j] == b@[j],
        decreases lcp(a@, b@) - cnt,
    {
        let wa = read8(a, cnt);
        let wb = read8(b, cnt);
        if wa == wb {
            proof {
                lemma_word8_match(a@, b@, cnt as int);
            }
            cnt = cnt + 8;
        } else {
            let k = ((wa ^ wb).trailing_zeros() / 8) as usize;
            proof {
                lemma_word8_mismatch(a@, b@, cnt as int, k as int);
            }
            return (cnt + k) as i32;
        }
    }
}

/// Unchecked block-wise extend over 32-byte blocks, equality form: each
/// block is first tested for direct equality, and the mismatch mask is
/// computed only once a block is known to differ.
#[verifier::loop_isolation(false)]
pub fn s256_unsafe_eq(a: pa_types::Seq, b: pa_types::Seq) -> (r: pa_types::I)
    requires
        padded(a@, b@, 32),
        lcp(a@, b@) <= i32::MAX,
    ensures
        r == lcp(a@, b@),
{
    proof {
        lemma_lcp_bound(a@, b@);
    }
    let mut cnt: usize = 0;
    loop
        invariant
            cnt <= lcp(a@, b@),
            forall|j: int| 0 <= j < cnt ==> a@[j] == b@[j],
        decreases lcp(a@, b@) - cnt,
    {
        if blocks_equal(a, b, cnt, 32) {
            proof {
                lemma_matched_le(a@, b@, cnt + 32);
            }
            cnt = cnt + 32;
        } else {
            let m = diff_mask(a, b, cnt, 32);
            let k = m.trailing_zeros() as usize;
            proof {
                let j0 = choose|j: int| cnt <= j < cnt + 32 && a@[j] != b@[j];
                assert(mask_bit(m, j0 - cnt));
                lemma_mask_nonzero(m, j0 - cnt);
                lemma_mask_first(m);
                assert(mask_bit(m, k as int));
                assert(k < 32);
                assert forall|j: int| 0 <= j < cnt + k implies a@[j] == b@[j] by {
                    if j >= cnt {
                        assert(!mask_bit(m, j - cnt));
                    }
                }
                lemma_lcp_unique(a@, b@, cnt + k);
            }
            return (cnt + k) as i32;
        }
    }
}

/// Unchecked block-wise extend over 8-byte blocks (64-bit vector width),
/// mask form.
pub fn s64_unsafe(a: pa_types::Seq, b: pa_types::Seq) -> (r: pa_types::I)
    requires
        padded(a@, b@, 8),
        lcp(a@, b@) <= i32::MAX,
    ensures
        r == lcp(a@, b@),
{
    proof {
        lemma_lcp_bound(a@, b@);
    }
    extend_blocks(a, b, 0, 8)
}

/// Unchecked block-wise extend over 8-byte blocks (64-bit vector width),
/// nonzero-typed mask form.
pub fn s64_unsafe_nz(a: pa_types::Seq, b: pa_types::Seq) -> (r: pa_types::I)
    requires
        padded(a@, b@, 8),
        lcp(a@, b@) <= i32::MAX,
    ensures
        r == lcp(a@, b@),
{
    proof {
        lemma_lcp_bound(a@, b@);
    }
    extend_blocks_nz(a, b, 0, 8)
}

/// Unchecked block-wise extend over 16-byte blocks (128-bit vector width),
/// mask form.
pub fn s128_unsafe(a: pa_types::Seq, b: pa_types::Seq) -> (r: pa_types::I)
    requires
        padded(a@, b@, 16),
        lcp(a@, b@) <= i32::MAX,
    ensures
        r == lcp(a@, b@),
{
    proof {
        lemma_lcp_bound(a@, b@);
    }
    extend_blocks(a, b, 0, 16)
}

/// Unchecked block-wise extend over 16-byte blocks (128-bit vector width),
/// nonzero-typed mask form.
pub fn s128_unsafe_nz(a: pa_types::Seq, b: pa_types::Seq) -> (r: pa_types::I)
    requires
        padded(a@, b@, 16),
        lcp(a@, b@) <= i32::MAX,
    ensures
        r == lcp(a@, b@),
{
    proof {
        lemma_lcp_bound(a@, b@);
    }
    extend_blocks_nz(a, b, 0, 16)
}

/// Unchecked block-wise extend over 32-byte blocks (256-bit vector width),
/// mask form.
pub fn s256_unsafe(a: pa_types::Seq, b: pa_types::Seq) -> (r: pa_types::I)
    requires
        padded(a@, b@, 32),
        lcp(a@, b@) <= i32::MAX,
    ensures
        r == lcp(a@, b@),
{
    proof {
        lemma_lcp_bound(a@, b@);
    }
    extend_blocks(a, b, 0, 32)
}

/// Unchecked block-wise extend over 32-byte blocks (256-bit vector width),
/// nonzero-typed mask form.
pub fn s256_unsafe_nz(a: pa_types::Seq, b: pa_types::Seq) -> (r: pa_types::I)
    requires
        padded(a@, b@, 32),
        lcp(a@, b@) <= i32::MAX,
    ensures
        r == lcp(a@, b@),
{
    proof {
        lemma_lcp_bound(a@, b@);
    }
    extend_blocks_nz(a, b, 0, 32)
}

/// Hybrid extend: one word-wise probe first, escalating to the 32-byte
/// block path only once the first word-wise block succeeds, trading setup
/// cost for throughput on longer matches.
pub fn hybrid(a: pa_types::Seq, b: pa_types::Seq) -> (r: pa_types::I)
    requires
        padded(a@, b@, 32),
        lcp(a@, b@) <= i32::MAX,
    ensures
        r == lcp(a@, b@),
{
    proof {
        lemma_lcp_bound(a@, b@);
    }
    let wa = read8(a, 0);
    let wb = read8(b, 0);
    if wa != wb {
        let k = ((wa ^ wb).trailing_zeros() / 8) as usize;
        proof {
            lemma_word8_mismatch(a@, b@, 0, k as int);
        }
        return k as i32;
    }
    proof {
        lemma_word8_match(a@, b@, 0);
    }
    extend_blocks(a, b, 8, 32)
}

} // verus!
