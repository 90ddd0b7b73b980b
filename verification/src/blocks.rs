//! Fixed-width block comparison: the per-byte boolean mask a vector equality
//! comparison yields, materialized as a 32-bit bitmask with lane order
//! matching byte order from the lower address up, and the scan that turns a
//! nonzero mask into the offset of the first mismatching byte.
use vstd::prelude::*;

verus! {

use vstd::std_specs::bits::{u32_trailing_zeros, axiom_u32_trailing_zeros};
use crate::model::{lcp, padded, lemma_lcp_unique, lemma_matched_le, lemma_lcp_bound};

/// Bit `k` of a comparison mask.
pub open spec fn mask_bit(m: u32, k: int) -> bool {
    (m >> (k as u32)) & 1u32 == 1u32
}

/// The zero mask has no set bit.
pub proof fn lemma_mask_zero()
    ensures
        forall|j: int| 0 <= j < 32 ==> !mask_bit(0u32, j),
{
    assert forall|j: int| 0 <= j < 32 implies !mask_bit(0u32, j) by {
        let ju = j as u32;
        assert((0u32 >> ju) & 1u32 != 1u32) by (bit_vector);
    }
}

/// A mask with a set bit is nonzero.
pub proof fn lemma_mask_nonzero(m: u32, k: int)
    requires
        0 <= k < 32,
        mask_bit(m, k),
    ensures
        m != 0,
{
    let ku = k as u32;
    assert((0u32 >> ku) & 1u32 != 1u32) by (bit_vector);
}

/// A nonzero mask's trailing-zero count is the position of its first set
/// bit: that bit is set and every lower bit is clear.
pub proof fn lemma_mask_first(m: u32)
    requires
        m != 0,
    ensures
        ({
            let t = u32_trailing_zeros(m) as int;
            &&& 0 <= t < 32
            &&& mask_bit(m, t)
            &&& forall|j: int| 0 <= j < t ==> !mask_bit(m, j)
        }),
{
    axiom_u32_trailing_zeros(m);
    let t = u32_trailing_zeros(m);
    let tu = t as u32;
    let sh = (32 - t) as u32;
    assert(m << sh == 0);
    assert forall|j: int| 0 <= j < t implies !mask_bit(m, j) by {
        let ju = j as u32;
        assert((m >> ju) & 1u32 == 0u32) by (bit_vector)
            requires
                m << sh == 0,
                sh + tu == 32,
                tu < 32,
                ju < tu,
        ;
    }
}

/// Per-byte comparison mask of the `w`-byte blocks at `off`: bit `k` is set
/// exactly when the bytes at `off + k` differ; bits at and above `w` are
/// clear.
#[verifier::loop_isolation(false)]
pub(crate) fn diff_mask(a: pa_types::Seq, b: pa_types::Seq, off: usize, w: usize) -> (m: u32)
    requires
        off + w <= a@.len(),
        off + w <= b@.len(),
        1 <= w <= 32,
    ensures
        forall|k: int| 0 <= k < w ==> (#[trigger] mask_bit(m, k) <==> a@[off + k] != b@[off + k]),
        forall|k: int| w <= k < 32 ==> !mask_bit(m, k),
{
    let alen: usize = a.len();
    let mut m: u32 = 0;
    let mut k: usize = 0;
    proof {
        lemma_mask_zero();
        assert(off + w <= alen);
    }
    while k < w
        invariant
            k <= w,
            forall|j: int| 0 <= j < k ==> (#[trigger] mask_bit(m, j) <==> a@[off + j] != b@[off
                + j]),
            forall|j: int| k <= j < 32 ==> !mask_bit(m, j),
        decreases w - k,
    {
        if a[off + k] != b[off + k] {
            let ghost m0 = m;
            m = m | (1u32 << (k as u32));
            proof {
                let ku = k as u32;
                assert forall|j: int| 0 <= j < 32 implies (#[trigger] mask_bit(m, j) <==> (j == k
                    || mask_bit(m0, j))) by {
                    let ju = j as u32;
                    if j == k {
                        assert(((m0 | (1u32 << ku)) >> ju) & 1u32 == 1u32) by (bit_vector)
                            requires
                                ju == ku,
                                ku < 32,
                        ;
                    } else {
                        assert(((m0 | (1u32 << ku)) >> ju) & 1u32 == (m0 >> ju) & 1u32)
                            by (bit_vector)
                            requires
                                ju != ku,
                                ju < 32,
                                ku < 32,
                        ;
                    }
                }
            }
        }
        k = k + 1;
    }
    m
}

/// Whether the `w`-byte blocks at `off` are identical, byte for byte.
#[verifier::loop_isolation(false)]
pub(crate) fn blocks_equal(a: pa_types::Seq, b: pa_types::Seq, off: usize, w: usize) -> (r: bool)
    requires
        off + w <= a@.len(),
        off + w <= b@.len(),
    ensures
        r <==> (forall|j: int| off <= j < off + w ==> a@[j] == b@[j]),
{
    let alen: usize = a.len();
    proof {
        assert(off + w <= alen);
    }
    let mut k: usize = 0;
    while k < w
        invariant
            k <= w,
            forall|j: int| off <= j < off + k ==> a@[j] == b@[j],
        decreases w - k,
    {
        if a[off + k] != b[off + k] {
            return false;
        }
        k = k + 1;
    }
    true
}

/// Type-level nonzero mask: `Some` exactly when the mask has a set bit, so
/// the no-mismatch case is told apart by the type rather than a sentinel
/// comparison at each use.
pub(crate) fn to_nonzero(m: u32) -> (r: Option<u32>)
    ensures
        m == 0 ==> r is None,
        m != 0 ==> r == Some(m),
{
    if m == 0 {
        None
    } else {
        Some(m)
    }
}

/// Shared block scan, XOR/mask form: from a matched region of length
/// `start`, repeatedly compare `w`-byte blocks via their mismatch mask,
/// advancing on an all-zero mask and otherwise returning the region plus
/// the mask's first set bit.
#[verifier::loop_isolation(false)]
pub(crate) fn extend_blocks(a: pa_types::Seq, b: pa_types::Seq, start: usize, w: usize) -> (r:
    pa_types::I)
    requires
        1 <= w <= 32,
        padded(a@, b@, w as int),
        lcp(a@, b@) <= i32::MAX,
        start <= lcp(a@, b@),
        forall|j: int| 0 <= j < start ==> a@[j] == b@[j],
    ensures
        r == lcp(a@, b@),
{
    proof {
        lemma_lcp_bound(a@, b@);
    }
    let mut cnt: usize = start;
    loop
        invariant
            cnt <= lcp(a@, b@),
            forall|j: int| 0 <= j < cnt ==> a@[j] == b@[j],
        decreases lcp(a@, b@) - cnt,
    {
        let m = diff_mask(a, b, cnt, w);
        if m == 0 {
            proof {
                lemma_mask_zero();
                assert forall|j: int| 0 <= j < cnt + w implies a@[j] == b@[j] by {
                    if j >= cnt {
                        assert(!mask_bit(m, j - cnt));
                    }
                }
                lemma_matched_le(a@, b@, cnt + w);
            }
            cnt = cnt + w;
        } else {
            let k = m.trailing_zeros() as usize;
            proof {
                lemma_mask_first(m);
                assert(mask_bit(m, k as int));
                assert(k < w);
                assert forall|j: int| 0 <= j < cnt + k implies a@[j] == b@[j] by {
                    if j >= cnt {
                        assert(!mask_bit(m, j - cnt));
                    }
                }
                lemma_lcp_unique(a@, b@, cnt + k);
            }
            return (cnt + k) as i32;
        }
    }
}

/// Shared block scan, nonzero-typed form: as [`extend_blocks`], but the
/// mask is first wrapped by [`to_nonzero`], so the mismatch branch holds a
/// mask whose nonzero-ness is carried by its type.
#[verifier::loop_isolation(false)]
pub(crate) fn extend_blocks_nz(a: pa_types::Seq, b: pa_types::Seq, start: usize, w: usize) -> (r:
    pa_types::I)
    requires
        1 <= w <= 32,
        padded(a@, b@, w as int),
        lcp(a@, b@) <= i32::MAX,
        start <= lcp(a@, b@),
        forall|j: int| 0 <= j < start ==> a@[j] == b@[j],
    ensures
        r == lcp(a@, b@),
{
    proof {
        lemma_lcp_bound(a@, b@);
    }
    let mut cnt: usize = start;
    loop
        invariant
            cnt <= lcp(a@, b@),
            forall|j: int| 0 <= j < cnt ==> a@[j] == b@[j],
        decreases lcp(a@, b@) - cnt,
    {
        let m = diff_mask(a, b, cnt, w);
        if let Some(nz) = to_nonzero(m) {
            let k = nz.trailing_zeros() as usize;
            proof {
                lemma_mask_first(m);
                assert(mask_bit(m, k as int));
                assert(k < w);
                assert forall|j: int| 0 <= j < cnt + k implies a@[j] == b@[j] by {
                    if j >= cnt {
                        assert(!mask_bit(m, j - cnt));
                    }
                }
                lemma_lcp_unique(a@, b@, cnt + k);
            }
            return (cnt + k) as i32;
        } else {
            proof {
                lemma_mask_zero();
                assert forall|j: int| 0 <= j < cnt + w implies a@[j] == b@[j] by {
                    if j >= cnt {
                        assert(!mask_bit(m, j - cnt));
                    }
                }
                lemma_matched_le(a@, b@, cnt + w);
            }
            cnt = cnt + w;
        }
    }
}

} // verus!
