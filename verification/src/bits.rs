//! Bitboard membership: a `u64` is read as a set of the 64 board squares,
//! bit `i` standing for square `i` (a1 = 0, h1 = 7, a8 = 56, h8 = 63).
//! The lemmas here translate the bitwise operators into set language once,
//! so the rest of the crate can reason about squares instead of bits.

use vstd::prelude::*;
use vstd::std_specs::bits::u64_trailing_zeros;
use vstd::std_specs::bits::axiom_u64_trailing_zeros;

verus! {

/// Square `i` is a member of the bitboard `bb`.
pub open spec fn bb_has(bb: u64, i: int) -> bool {
    0 <= i < 64 && (bb >> (i as u64)) & 1u64 == 1u64
}

/// The file (column) of square `i`, 0 for file a through 7 for file h.
pub open spec fn sq_file(i: int) -> int {
    i % 8
}

/// The rank (row) of square `i`, 0 for rank 1 through 7 for rank 8.
pub open spec fn sq_rank(i: int) -> int {
    i / 8
}

/// The square on rank `r` and file `f`.
pub open spec fn sq_at(r: int, f: int) -> int {
    r * 8 + f
}

/// The raw bit-level facts behind the membership lemmas, discharged by
/// the bit-vector solver in one go.
proof fn lemma_bb_bv()
    by (bit_vector)
    ensures
        forall|a: u64, b: u64, j: u64|
            j < 64 ==> (#[trigger] (((a & b) >> j) & 1u64) == 1u64 <==> (((a >> j) & 1u64 == 1u64)
                && ((b >> j) & 1u64 == 1u64))),
        forall|a: u64, b: u64, j: u64|
            j < 64 ==> (#[trigger] (((a | b) >> j) & 1u64) == 1u64 <==> (((a >> j) & 1u64 == 1u64)
                || ((b >> j) & 1u64 == 1u64))),
        forall|a: u64, b: u64, j: u64|
            j < 64 ==> (#[trigger] (((a ^ b) >> j) & 1u64) == 1u64 <==> (((a >> j) & 1u64 == 1u64)
                != ((b >> j) & 1u64 == 1u64))),
        forall|a: u64, j: u64|
            j < 64 ==> (#[trigger] (((!a) >> j) & 1u64) == 1u64 <==> !((a >> j) & 1u64 == 1u64)),
        forall|k: u64, j: u64|
            j < 64 && k < 64 ==> (#[trigger] (((1u64 << k) >> j) & 1u64) == 1u64 <==> j == k),
        forall|j: u64| j < 64 ==> (0u64 >> j) & 1u64 == 0u64,
{
}

/// How the bitwise operators act on square membership.
pub proof fn lemma_bb_ops()
    ensures
        forall|a: u64, b: u64, i: int|
            #[trigger] bb_has(a & b, i) <==> bb_has(a, i) && bb_has(b, i),
        forall|a: u64, b: u64, i: int|
            #[trigger] bb_has(a | b, i) <==> bb_has(a, i) || bb_has(b, i),
        forall|a: u64, b: u64, i: int|
            #[trigger] bb_has(a ^ b, i) <==> (bb_has(a, i) != bb_has(b, i)),
        forall|a: u64, i: int|
            #[trigger] bb_has(!a, i) <==> (0 <= i < 64 && !bb_has(a, i)),
        forall|j: u64, i: int|
            j < 64 ==> (#[trigger] bb_has(1u64 << j, i) <==> i == j),
        forall|i: int| !bb_has(0u64, i),
{
    lemma_bb_bv();
    assert forall|a: u64, b: u64, i: int|
        #[trigger] bb_has(a & b, i) <==> bb_has(a, i) && bb_has(b, i) by {
        if 0 <= i < 64 {
            assert((((a & b) >> (i as u64)) & 1u64) == 1u64 <==> (((a >> (i as u64)) & 1u64
                == 1u64) && ((b >> (i as u64)) & 1u64 == 1u64)));
        }
    }
    assert forall|a: u64, b: u64, i: int|
        #[trigger] bb_has(a | b, i) <==> bb_has(a, i) || bb_has(b, i) by {
        if 0 <= i < 64 {
            assert((((a | b) >> (i as u64)) & 1u64) == 1u64 <==> (((a >> (i as u64)) & 1u64
                == 1u64) || ((b >> (i as u64)) & 1u64 == 1u64)));
        }
    }
    assert forall|a: u64, b: u64, i: int|
        #[trigger] bb_has(a ^ b, i) <==> (bb_has(a, i) != bb_has(b, i)) by {
        if 0 <= i < 64 {
            assert((((a ^ b) >> (i as u64)) & 1u64) == 1u64 <==> (((a >> (i as u64)) & 1u64
                == 1u64) != ((b >> (i as u64)) & 1u64 == 1u64)));
        }
    }
    assert forall|a: u64, i: int|
        #[trigger] bb_has(!a, i) <==> (0 <= i < 64 && !bb_has(a, i)) by {
        if 0 <= i < 64 {
            assert((((!a) >> (i as u64)) & 1u64) == 1u64 <==> !((a >> (i as u64)) & 1u64 == 1u64));
        }
    }
    assert forall|j: u64, i: int| j < 64 implies (#[trigger] bb_has(1u64 << j, i) <==> i == j) by {
        if 0 <= i < 64 {
            assert((((1u64 << j) >> (i as u64)) & 1u64) == 1u64 <==> (i as u64) == j);
        }
    }
    assert forall|i: int| !bb_has(0u64, i) by {
        if 0 <= i < 64 {
            assert((0u64 >> (i as u64)) & 1u64 == 0u64);
        }
    }
}

/// A nonzero bitboard has its lowest member at the index the trailing-zero
/// count names; nothing sits below it.
pub proof fn lemma_bb_lowest(bb: u64)
    requires
        bb != 0,
    ensures
        u64_trailing_zeros(bb) < 64,
        bb_has(bb, u64_trailing_zeros(bb) as int),
        forall|j: int| 0 <= j < u64_trailing_zeros(bb) ==> !bb_has(bb, j),
{
    axiom_u64_trailing_zeros(bb);
    let t = u64_trailing_zeros(bb);
    assert(bb_has(bb, t as int));
    assert forall|j: int| 0 <= j < t implies !bb_has(bb, j) by {
        assert((bb >> (j as u64)) & 1u64 == 0u64);
    }
}

/// Two bitboards with the same members are the same word.
pub proof fn lemma_bb_ext(a: u64, b: u64)
    requires
        forall|i: int| bb_has(a, i) <==> bb_has(b, i),
    ensures
        a == b,
{
    lemma_bb_ops();
    if a != b {
        let d = a ^ b;
        assert(d != 0) by (bit_vector)
            requires d == a ^ b && a != b;
        lemma_bb_lowest(d);
        let t = u64_trailing_zeros(d) as int;
        assert(bb_has(d, t));
        assert(false);
    }
}

/// Clearing a member strictly shrinks the word; this is what lets loops
/// that pop squares off a bitboard terminate.
pub proof fn lemma_bb_clear_decreases(bb: u64, j: u64)
    requires
        j < 64,
        (bb >> j) & 1u64 == 1u64,
    ensures
        bb & !(1u64 << j) < bb,
{
    assert(bb & !(1u64 << j) < bb) by (bit_vector)
        requires j < 64 && (bb >> j) & 1u64 == 1u64;
}

/// A one-square bitboard's lowest member is that square.
pub proof fn lemma_tz_single(j: u64)
    requires
        j < 64,
    ensures
        u64_trailing_zeros(1u64 << j) == j,
{
    lemma_bb_ops();
    assert((1u64 << j) != 0) by (bit_vector)
        requires j < 64;
    lemma_bb_lowest(1u64 << j);
    let t = u64_trailing_zeros(1u64 << j);
    assert(bb_has(1u64 << j, t as int));
}

/// Removes and returns the index of the lowest member of `bb`.
pub fn pop_lsb(bb: &mut u64) -> (sq: u8)
    requires
        *old(bb) != 0,
    ensures
        sq < 64,
        sq == u64_trailing_zeros(*old(bb)),
        bb_has(*old(bb), sq as int),
        *final(bb) == *old(bb) & !(1u64 << (sq as u64)),
        *final(bb) < *old(bb),
        forall|i: int| #[trigger] bb_has(*final(bb), i) <==> (bb_has(*old(bb), i) && i != sq),
{
    proof {
        lemma_bb_lowest(*bb);
    }
    let sq = bb.trailing_zeros() as u8;
    let prev: u64 = *bb;
    *bb = *bb & !(1u64 << (sq as u64));
    proof {
        lemma_bb_clear_decreases(prev, sq as u64);
        lemma_bb_ops();
    }
    sq
}

/// A square is its rank and file put back together.
pub proof fn lemma_sq_split(r: int, f: int)
    requires
        0 <= r < 8,
        0 <= f < 8,
    ensures
        sq_rank(sq_at(r, f)) == r,
        sq_file(sq_at(r, f)) == f,
        0 <= sq_at(r, f) < 64,
{
}

/// Reports whether bit `bit` of `bb` is set.
pub fn check_bit(bb: u64, bit: u8) -> (r: bool)
    requires
        bit < 64,
    ensures
        r == bb_has(bb, bit as int),
{
    let b = bit as u64;
    let r = bb & 1u64 << b != 0;
    proof {
        assert((bb & (1u64 << b) != 0) <==> ((bb >> b) & 1u64 == 1u64)) by (bit_vector)
            requires b < 64;
    }
    r
}

} // verus!
