//! Batched extend probes: K independent single-step probes evaluated in
//! lockstep. Each lane gathers one fixed-width element from each sequence at
//! its own pair of offsets, XORs them, and reports how many leading bytes of
//! the two elements agree. The caller drives the outer loop, advancing and
//! re-probing only the lanes that are still matching.
use vstd::prelude::*;

verus! {

use crate::model::lcp;
use crate::words::{
    read2, read4, lemma_word2_probe, lemma_word4_probe, lemma_xor_zero16, lemma_xor_zero32,
};

/// The result one lane of a batched probe reports: the longest common
/// prefix of the two `w`-byte windows at the lane's offsets.
pub open spec fn lane_lcp(a: Seq<u8>, b: Seq<u8>, i: int, j: int, w: int) -> int {
    lcp(a.subrange(i, i + w), b.subrange(j, j + w))
}

/// Whether a batch of lane offsets is in bounds for `w`-byte gathers: each
/// probe's window lies wholly inside its sequence. The gathers perform no
/// bound checks of their own, so this is the batched form of the caller's
/// padding guarantee.
pub open spec fn lanes_in_bounds(
    a: Seq<u8>,
    b: Seq<u8>,
    is: Seq<i32>,
    js: Seq<i32>,
    w: int,
) -> bool {
    &&& forall|k: int| 0 <= k < is.len() ==> 0 <= #[trigger] is[k] && is[k] + w <= a.len()
    &&& forall|k: int| 0 <= k < js.len() ==> 0 <= #[trigger] js[k] && js[k] + w <= b.len()
}

/// Batched single-step probe, eight lanes of 4-byte elements: lane `k`
/// gathers the element at `is[k]` in `a` and the one at `js[k]` in `b`,
/// XORs them, and reports the count of leading matching bytes: 4 when the
/// elements are identical, otherwise the position of their first differing
/// byte.
#[verifier::loop_isolation(false)]
pub fn u32_unsafe_once_ss(a: pa_types::Seq, b: pa_types::Seq, is: &[i32], js: &[i32]) -> (r: Vec<
    i32,
>)
    requires
        is@.len() == 8,
        js@.len() == 8,
        lanes_in_bounds(a@, b@, is@, js@, 4),
    ensures
        r@.len() == 8,
        forall|k: int|
            0 <= k < 8 ==> #[trigger] r@[k] == lane_lcp(a@, b@, is@[k] as int, js@[k] as int, 4),
{
    let mut r: Vec<i32> = Vec::new();
    let mut k: usize = 0;
    while k < 8
        invariant
            k <= 8,
            r@.len() == k,
            forall|q: int|
                0 <= q < k ==> #[trigger] r@[q] == lane_lcp(
                    a@,
                    b@,
                    is@[q] as int,
                    js@[q] as int,
                    4,
                ),
        decreases 8 - k,
    {
        let i = is[k] as usize;
        let j = js[k] as usize;
        let wa = read4(a, i);
        let wb = read4(b, j);
        let cmp = wa ^ wb;
        let lane: i32 = if cmp == 0 {
            4
        } else {
            (cmp.trailing_zeros() / 8) as i32
        };
        proof {
            lemma_xor_zero32(wa, wb);
            lemma_word4_probe(a@, b@, i as int, j as int, lane as int);
        }
        r.push(lane);
        k = k + 1;
    }
    r
}

/// Batched single-step probe, sixteen lanes of 2-byte elements: lane `k`
/// gathers the element at `is[k]` in `a` and the one at `js[k]` in `b`,
/// XORs them, and reports the count of leading matching bytes: 2 when the
/// elements are identical, otherwise the position of their first differing
/// byte.
#[verifier::loop_isolation(false)]
pub fn u16_unsafe_once_ss(a: pa_types::Seq, b: pa_types::Seq, is: &[i32], js: &[i32]) -> (r: Vec<
    i32,
>)
    requires
        is@.len() == 16,
        js@.len() == 16,
        lanes_in_bounds(a@, b@, is@, js@, 2),
    ensures
        r@.len() == 16,
        forall|k: int|
            0 <= k < 16 ==> #[trigger] r@[k] == lane_lcp(a@, b@, is@[k] as int, js@[k] as int, 2),
{
    let mut r: Vec<i32> = Vec::new();
    let mut k: usize = 0;
    while k < 16
        invariant
            k <= 16,
            r@.len() == k,
            forall|q: int|
                0 <= q < k ==> #[trigger] r@[q] == lane_lcp(
                    a@,
                    b@,
                    is@[q] as int,
                    js@[q] as int,
                    2,
                ),
        decreases 16 - k,
    {
        let i = is[k] as usize;
        let j = js[k] as usize;
        let wa = read2(a, i);
        let wb = read2(b, j);
        let cmp = wa ^ wb;
        let lane: i32 = if cmp == 0 {
            2
        } else {
            (cmp.trailing_zeros() / 8) as i32
        };
        proof {
            lemma_xor_zero16(wa, wb);
            lemma_word2_probe(a@, b@, i as int, j as int, lane as int);
        }
        r.push(lane);
        k = k + 1;
    }
    r
}

} // verus!
