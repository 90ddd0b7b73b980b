//! The mathematical model of the extend primitive: the length of the longest
//! common prefix of two byte sequences, and the lemmas that pin it down.
use vstd::prelude::*;

verus! {

/// Length of the longest common prefix of `a` and `b`: the number of leading
/// positions at which the two sequences hold equal bytes, stopping at the
/// first mismatch or at the end of the shorter sequence.
pub open spec fn lcp(a: Seq<u8>, b: Seq<u8>) -> int
    decreases a.len(),
{
    if a.len() == 0 || b.len() == 0 || a[0] != b[0] {
        0
    } else {
        1 + lcp(a.skip(1), b.skip(1))
    }
}

/// The caller's padding guarantee, stated over the buffers a variant actually
/// reads: the first mismatch lies at least `w` bytes before the end of both
/// buffers, so a scan that reads `w` bytes at a time stops before it could
/// read out of bounds. Callers establish it by placing enough differing guard
/// bytes after the logical end of each sequence.
pub open spec fn padded(a: Seq<u8>, b: Seq<u8>, w: int) -> bool {
    lcp(a, b) + w <= a.len() && lcp(a, b) + w <= b.len()
}

/// What `lcp` means position by position: it is within both sequences, all
/// positions before it match, and the position itself (when inside both
/// sequences) is a mismatch.
pub proof fn lemma_lcp_char(a: Seq<u8>, b: Seq<u8>)
    ensures
        0 <= lcp(a, b) <= a.len(),
        lcp(a, b) <= b.len(),
        forall|j: int| 0 <= j < lcp(a, b) ==> a[j] == b[j],
        lcp(a, b) < a.len() && lcp(a, b) < b.len() ==> a[lcp(a, b)] != b[lcp(a, b)],
    decreases a.len(),
{
    if a.len() == 0 || b.len() == 0 || a[0] != b[0] {
    } else {
        lemma_lcp_char(a.skip(1), b.skip(1));
        let n = lcp(a, b);
        assert(n == 1 + lcp(a.skip(1), b.skip(1)));
        assert forall|j: int| 0 <= j < n implies a[j] == b[j] by {
            if j > 0 {
                assert(a.skip(1)[j - 1] == a[j]);
                assert(b.skip(1)[j - 1] == b[j]);
            }
        }
        if n < a.len() && n < b.len() {
            assert(a.skip(1)[n - 1] == a[n]);
            assert(b.skip(1)[n - 1] == b[n]);
        }
    }
}

/// A position that is preceded only by matches and is itself a mismatch or an
/// end of either sequence is exactly the longest common prefix length.
pub proof fn lemma_lcp_unique(a: Seq<u8>, b: Seq<u8>, n: int)
    requires
        0 <= n <= a.len(),
        n <= b.len(),
        forall|j: int| 0 <= j < n ==> a[j] == b[j],
        n < a.len() && n < b.len() ==> a[n] != b[n],
    ensures
        lcp(a, b) == n,
{
    lemma_lcp_char(a, b);
    let m = lcp(a, b);
    if m < n {
        assert(a[m] == b[m]);
    } else if n < m {
        assert(a[n] == b[n]);
    }
}

/// A region of matching leading positions never reaches past the longest
/// common prefix.
pub proof fn lemma_matched_le(a: Seq<u8>, b: Seq<u8>, n: int)
    requires
        0 <= n <= a.len(),
        n <= b.len(),
        forall|j: int| 0 <= j < n ==> a[j] == b[j],
    ensures
        n <= lcp(a, b),
{
    lemma_lcp_char(a, b);
    let m = lcp(a, b);
    if m < n {
        assert(a[m] == b[m]);
    }
}

/// Upper bound: the match length never exceeds the length of either
/// sequence, so every result of the extend contract lies in
/// `[0, min(len(a), len(b))]`.
pub proof fn lemma_lcp_bound(a: Seq<u8>, b: Seq<u8>)
    ensures
        0 <= lcp(a, b) <= a.len(),
        lcp(a, b) <= b.len(),
{
    lemma_lcp_char(a, b);
}

/// Correctness at zero: when either sequence is empty or the very first
/// bytes already differ, the match length is zero.
pub proof fn lemma_lcp_zero(a: Seq<u8>, b: Seq<u8>)
    requires
        a.len() == 0 || b.len() == 0 || a[0] != b[0],
    ensures
        lcp(a, b) == 0,
{
}

/// Full match: two equal sequences match over their whole length.
pub proof fn lemma_lcp_full(a: Seq<u8>, b: Seq<u8>)
    requires
        a == b,
    ensures
        lcp(a, b) == a.len(),
{
    lemma_lcp_unique(a, b, a.len() as int);
}

/// Batched single-step correctness, seen from one lane: a probe of two
/// equal-length windows reports the full window width exactly when the
/// windows are bit-identical, and otherwise the position of their first
/// differing byte, with every earlier byte matching.
pub proof fn lemma_probe_result(wina: Seq<u8>, winb: Seq<u8>)
    requires
        wina.len() == winb.len(),
    ensures
        0 <= lcp(wina, winb) <= wina.len(),
        lcp(wina, winb) == wina.len() <==> wina == winb,
        lcp(wina, winb) < wina.len() ==> wina[lcp(wina, winb)] != winb[lcp(wina, winb)],
        forall|q: int| 0 <= q < lcp(wina, winb) ==> wina[q] == winb[q],
{
    lemma_lcp_char(wina, winb);
    if lcp(wina, winb) == wina.len() {
        assert(wina =~= winb);
    }
    if wina == winb {
        lemma_lcp_full(wina, winb);
    }
}

/// Agreement across variants: every member of the extend family promises
/// exactly `lcp` of the bytes it was given, so any two results that meet
/// that contract on the same inputs are equal.
pub proof fn lemma_extend_agree(a: Seq<u8>, b: Seq<u8>, r1: int, r2: int)
    requires
        r1 == lcp(a, b),
        r2 == lcp(a, b),
    ensures
        r1 == r2,
{
}

} // verus!
