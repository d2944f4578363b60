//! Enumerating the subsets of a mask.
//!
//! The magic-table machinery walks every subset of a relevant-occupancy
//! mask by spreading the bits of a counter onto the mask's set bits in
//! ascending order (`scatter`, executably `variants`). `gather` is the
//! spec-level inverse; the round-trip lemma is what lets a fact checked
//! for every counter value speak about every subset of the mask.

use vstd::prelude::*;
use vstd::arithmetic::power2::{pow2, lemma_pow2_unfold, lemma_pow2_strictly_increases, lemma2_to64, lemma2_to64_rest};
use crate::bits::{bb_has, lemma_bb_ops, lemma_bb_ext};

verus! {

/// How many members of `mask` sit at positions `p` and above.
pub open spec fn bits_from(mask: u64, p: int) -> nat
    decreases 64 - p,
{
    if p >= 64 || p < 0 {
        0
    } else {
        ((if bb_has(mask, p) {
            1nat
        } else {
            0nat
        }) + bits_from(mask, p + 1)) as nat
    }
}

/// The number of members of `mask`.
pub open spec fn pop_count(mask: u64) -> nat {
    bits_from(mask, 0)
}

/// There are at most `64 - p` members at positions `p` and above.
pub proof fn lemma_bits_from_bound(mask: u64, p: int)
    ensures
        bits_from(mask, p) <= 64 - p || p > 64,
    decreases 64 - p,
{
    if p < 64 && p >= 0 {
        lemma_bits_from_bound(mask, p + 1);
    }
}

/// Counts the members of `mask`.
pub fn count_bits(bb: u64) -> (r: u32)
    ensures
        r == pop_count(bb),
{
    let mut count: u32 = 0;
    let mut p: u32 = 64;
    while p > 0
        invariant
            p <= 64,
            count == bits_from(bb, p as int),
            count <= 64 - p,
        decreases p,
    {
        proof {
            lemma_bits_from_bound(bb, p as int - 1);
        }
        p -= 1;
        if crate::bits::check_bit(bb, p as u8) {
            count += 1;
        }
    }
    count
}

/// Spreads the low bits of `idx` onto the members of `mask` at positions
/// `p` and above, in ascending order.
pub open spec fn scatter_from(mask: u64, idx: u64, p: int) -> u64
    decreases 64 - p,
{
    if p >= 64 || p < 0 {
        0
    } else if bb_has(mask, p) {
        (if idx & 1u64 == 1u64 {
            1u64 << (p as u64)
        } else {
            0
        }) | scatter_from(mask, idx >> 1u64, p + 1)
    } else {
        scatter_from(mask, idx, p + 1)
    }
}

/// The subset of `mask` that counter value `idx` names.
pub open spec fn scatter(mask: u64, idx: u64) -> u64 {
    scatter_from(mask, idx, 0)
}

/// Collects the members of `s` that sit on members of `mask` at positions
/// `p` and above back into a compact counter.
pub open spec fn gather_from(mask: u64, s: u64, p: int) -> u64
    decreases 64 - p,
{
    if p >= 64 || p < 0 {
        0
    } else if bb_has(mask, p) {
        (if bb_has(s, p) {
            1u64
        } else {
            0
        }) | (gather_from(mask, s, p + 1) << 1u64)
    } else {
        gather_from(mask, s, p + 1)
    }
}

/// The counter value that names subset `s` of `mask`.
pub open spec fn gather(mask: u64, s: u64) -> u64 {
    gather_from(mask, s, 0)
}

/// What `scatter_from` builds is a subset of `mask` at positions `p` and
/// above.
pub proof fn lemma_scatter_subset(mask: u64, idx: u64, p: int)
    ensures
        forall|i: int|
            #[trigger] bb_has(scatter_from(mask, idx, p), i) ==> bb_has(mask, i) && i >= p,
    decreases 64 - p,
{
    lemma_bb_ops();
    if p >= 64 || p < 0 {
    } else {
        lemma_scatter_subset(mask, idx >> 1u64, p + 1);
        lemma_scatter_subset(mask, idx, p + 1);
        assert forall|i: int|
            #[trigger] bb_has(scatter_from(mask, idx, p), i) implies bb_has(mask, i) && i >= p by {
            if bb_has(mask, p) {
                if idx & 1u64 == 1u64 {
                    assert(scatter_from(mask, idx, p) == (1u64 << (p as u64)) | scatter_from(
                        mask,
                        idx >> 1u64,
                        p + 1,
                    ));
                    assert(bb_has((1u64 << (p as u64)) | scatter_from(mask, idx >> 1u64, p + 1), i)
                        <==> (bb_has(1u64 << (p as u64), i) || bb_has(
                        scatter_from(mask, idx >> 1u64, p + 1),
                        i,
                    )));
                    assert((p as u64) < 64);
                    assert(bb_has(1u64 << (p as u64), i) <==> i == p as u64);
                } else {
                    assert(scatter_from(mask, idx, p) == 0u64 | scatter_from(
                        mask,
                        idx >> 1u64,
                        p + 1,
                    ));
                    assert(bb_has(0u64 | scatter_from(mask, idx >> 1u64, p + 1), i) <==> (bb_has(
                        0u64,
                        i,
                    ) || bb_has(scatter_from(mask, idx >> 1u64, p + 1), i)));
                }
            } else {
                assert(scatter_from(mask, idx, p) == scatter_from(mask, idx, p + 1));
            }
        }
    }
}

/// The gathered counter is below two to the number of mask members in
/// range.
pub proof fn lemma_gather_bound(mask: u64, s: u64, p: int)
    ensures
        gather_from(mask, s, p) < pow2(bits_from(mask, p)),
    decreases 64 - p,
{
    if p >= 64 || p < 0 {
        lemma2_to64();
    } else {
        lemma_gather_bound(mask, s, p + 1);
        if bb_has(mask, p) {
            let g2 = gather_from(mask, s, p + 1);
            let b: u64 = if bb_has(s, p) {
                1u64
            } else {
                0
            };
            lemma_bits_from_bound(mask, p + 1);
            if bits_from(mask, p + 1) < 63 {
                lemma_pow2_strictly_increases(bits_from(mask, p + 1), 63);
            }
            lemma2_to64_rest();
            assert(g2 < 0x8000000000000000);
            assert(b <= 1 && g2 < 0x8000000000000000 ==> (b | (g2 << 1u64)) == b + 2 * g2)
                by (bit_vector);
            lemma_pow2_unfold(bits_from(mask, p));
        }
    }
}

/// Gathering looks only at positions `p` and above.
pub proof fn lemma_gather_agree(mask: u64, s1: u64, s2: u64, p: int)
    requires
        forall|i: int| i >= p ==> (bb_has(s1, i) <==> bb_has(s2, i)),
    ensures
        gather_from(mask, s1, p) == gather_from(mask, s2, p),
    decreases 64 - p,
{
    if p < 64 && p >= 0 {
        lemma_gather_agree(mask, s1, s2, p + 1);
    }
}

/// Scattering the gathered counter of a subset gives the subset back.
pub proof fn lemma_scatter_gather(mask: u64, s: u64, p: int)
    requires
        0 <= p,
        forall|i: int| #[trigger] bb_has(s, i) ==> bb_has(mask, i) && i >= p,
    ensures
        scatter_from(mask, gather_from(mask, s, p), p) == s,
    decreases 64 - p,
{
    lemma_bb_ops();
    if p >= 64 || p < 0 {
        assert(forall|i: int| !bb_has(s, i));
        lemma_bb_ext(s, 0);
    } else if bb_has(mask, p) {
        let g2 = gather_from(mask, s, p + 1);
        let b: u64 = if bb_has(s, p) {
            1u64
        } else {
            0
        };
        let g = gather_from(mask, s, p);
        assert(g == b | (g2 << 1u64));
        lemma_gather_bound(mask, s, p + 1);
        lemma_bits_from_bound(mask, p + 1);
        if bits_from(mask, p + 1) < 63 {
            lemma_pow2_strictly_increases(bits_from(mask, p + 1), 63);
        }
        lemma2_to64_rest();
        assert(g2 < 0x8000000000000000);
        assert(b <= 1 && g2 < 0x8000000000000000 ==> ((b | (g2 << 1u64)) & 1u64 == b && (b | (g2
            << 1u64)) >> 1u64 == g2)) by (bit_vector);
        assert(g & 1u64 == b && g >> 1u64 == g2);
        let s2 = s & !(1u64 << (p as u64));
        assert(forall|i: int| #[trigger] bb_has(s2, i) ==> bb_has(mask, i) && i >= p + 1);
        lemma_gather_agree(mask, s, s2, p + 1);
        lemma_scatter_gather(mask, s2, p + 1);
        assert(scatter_from(mask, g, p) == (if b == 1u64 {
            1u64 << (p as u64)
        } else {
            0u64
        }) | s2);
        assert forall|i: int|
            bb_has(scatter_from(mask, g, p), i) <==> bb_has(s, i) by {
            if i == p {
                assert(bb_has(s2, i) == false);
            }
        }
        lemma_bb_ext(scatter_from(mask, g, p), s);
    } else {
        assert(!bb_has(s, p));
        assert(forall|i: int| #[trigger] bb_has(s, i) ==> bb_has(mask, i) && i >= p + 1);
        lemma_scatter_gather(mask, s, p + 1);
    }
}

/// Every subset of `mask` (as a word: `s & mask == s`) is named by exactly
/// the counter `gather(mask, s)`, which lies below two to the mask's
/// member count.
pub proof fn lemma_subset_roundtrip(mask: u64, s: u64)
    requires
        s & mask == s,
    ensures
        scatter(mask, gather(mask, s)) == s,
        gather(mask, s) < pow2(pop_count(mask)),
{
    lemma_bb_ops();
    assert forall|i: int| #[trigger] bb_has(s, i) implies bb_has(mask, i) && i >= 0 by {
        assert(bb_has(s & mask, i) == bb_has(s, i));
    }
    lemma_scatter_gather(mask, s, 0);
    lemma_gather_bound(mask, s, 0);
}

/// Builds the subset of `bb` that counter value `idx` names: the k-th
/// lowest bit of `idx` decides whether the k-th lowest member of `bb`
/// stays.
pub fn variants(bb: u64, idx: u64) -> (r: u64)
    ensures
        r == scatter(bb, idx),
{
    variants_from(bb, idx, 0)
}

fn variants_from(bb: u64, idx: u64, p: u32) -> (r: u64)
    requires
        p <= 64,
    ensures
        r == scatter_from(bb, idx, p as int),
    decreases 64 - p,
{
    if p >= 64 {
        0
    } else {
        proof {
            assert(p < 64 ==> p as u8 as int == p as int && p as u64 as int == p as int);
        }
        if crate::bits::check_bit(bb, p as u8) {
            let rest = variants_from(bb, idx >> 1u64, p + 1);
            proof {
                assert(bb_has(bb, p as int));
                assert(scatter_from(bb, idx, p as int) == (if idx & 1u64 == 1u64 {
                    1u64 << ((p as int) as u64)
                } else {
                    0u64
                }) | scatter_from(bb, idx >> 1u64, p as int + 1));
            }
            proof {
                assert(0u64 | rest == rest) by (bit_vector);
            }
            if idx & 1u64 == 1u64 {
                (1u64 << (p as u64)) | rest
            } else {
                rest
            }
        } else {
            proof {
                assert(!bb_has(bb, p as int));
                assert(scatter_from(bb, idx, p as int) == scatter_from(bb, idx, p as int + 1));
            }
            variants_from(bb, idx, p + 1)
        }
    }
}

} // verus!
