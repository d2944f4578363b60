//! Precomputed attack tables: leaper reachability for knight, king and
//! pawns, and (further down) the magic perfect-hash tables for sliders.

use vstd::prelude::*;
use vstd::arithmetic::power2::pow2;
use crate::bits::{bb_has, sq_file, sq_rank, sq_at, lemma_bb_ops, lemma_sq_split, lemma_bb_ext};
use crate::core_types::{Color, BB};
use crate::geometry::{move_bb_vert, move_bb_hor, move_bb_slow};
use crate::subsets::{scatter, gather, pop_count, count_bits, variants, lemma_subset_roundtrip};

verus! {

/// A knight's jump: one file and two ranks, or two files and one rank.
pub open spec fn knight_offset(df: int, dr: int) -> bool {
    ((df == 1 || df == -1) && (dr == 2 || dr == -2)) || ((df == 2 || df == -2) && (dr == 1 || dr
        == -1))
}

/// Square `to` is a knight's move away from square `from`.
pub open spec fn knight_reaches(from: int, to: int) -> bool {
    &&& 0 <= from < 64
    &&& 0 <= to < 64
    &&& knight_offset(sq_file(to) - sq_file(from), sq_rank(to) - sq_rank(from))
}

/// A king's step: at most one file and one rank, not standing still.
pub open spec fn king_offset(df: int, dr: int) -> bool {
    -1 <= df <= 1 && -1 <= dr <= 1 && !(df == 0 && dr == 0)
}

/// Square `to` is a king's move away from square `from`.
pub open spec fn king_reaches(from: int, to: int) -> bool {
    &&& 0 <= from < 64
    &&& 0 <= to < 64
    &&& king_offset(sq_file(to) - sq_file(from), sq_rank(to) - sq_rank(from))
}

/// The direction `c`'s pawns move: up the board for White, down for Black.
pub open spec fn pawn_dir(c: Color) -> int {
    match c {
        Color::White => 1,
        Color::Black => -1,
    }
}

/// Square `to` is the single-push target of a `c` pawn on `from`.
pub open spec fn pawn_push_reaches(c: Color, from: int, to: int) -> bool {
    &&& 0 <= from < 64
    &&& 0 <= to < 64
    &&& sq_file(to) == sq_file(from)
    &&& sq_rank(to) == sq_rank(from) + pawn_dir(c)
}

/// Square `to` is the double-push target of a `c` pawn on its start rank.
pub open spec fn pawn_double_reaches(c: Color, from: int, to: int) -> bool {
    &&& 0 <= from < 64
    &&& 0 <= to < 64
    &&& sq_file(to) == sq_file(from)
    &&& sq_rank(from) == (if c == Color::White { 1int } else { 6int })
    &&& sq_rank(to) == sq_rank(from) + 2 * pawn_dir(c)
}

/// Square `to` is a diagonal-capture target of a `c` pawn on `from`.
pub open spec fn pawn_cap_reaches(c: Color, from: int, to: int) -> bool {
    &&& 0 <= from < 64
    &&& 0 <= to < 64
    &&& (sq_file(to) == sq_file(from) + 1 || sq_file(to) == sq_file(from) - 1)
    &&& sq_rank(to) == sq_rank(from) + pawn_dir(c)
}

/// The members of the knight template pattern, centred on square 18.
proof fn lemma_knight_template()
    ensures
        forall|s: int|
            #[trigger] bb_has(0xa1100110au64, s) <==> (s == 1 || s == 3 || s == 8 || s == 12 || s
                == 24 || s == 28 || s == 33 || s == 35),
{
    assert forall|s: int|
        #[trigger] bb_has(0xa1100110au64, s) <==> (s == 1 || s == 3 || s == 8 || s == 12 || s == 24
            || s == 28 || s == 33 || s == 35) by {
        if 0 <= s < 64 {
            let su = s as u64;
            assert(((0xa1100110au64 >> su) & 1u64 == 1u64) <==> (su == 1 || su == 3 || su == 8 || su
                == 12 || su == 24 || su == 28 || su == 33 || su == 35)) by (bit_vector);
        }
    }
}

/// The members of the king template pattern, centred on square 9.
proof fn lemma_king_template()
    ensures
        forall|s: int|
            #[trigger] bb_has(0x70507u64, s) <==> (s == 0 || s == 1 || s == 2 || s == 8 || s == 10
                || s == 16 || s == 17 || s == 18),
{
    assert forall|s: int|
        #[trigger] bb_has(0x70507u64, s) <==> (s == 0 || s == 1 || s == 2 || s == 8 || s == 10 || s
            == 16 || s == 17 || s == 18) by {
        if 0 <= s < 64 {
            let su = s as u64;
            assert(((0x70507u64 >> su) & 1u64 == 1u64) <==> (su == 0 || su == 1 || su == 2 || su
                == 8 || su == 10 || su == 16 || su == 17 || su == 18)) by (bit_vector);
        }
    }
}

/// Translating the knight template to square `i` gives exactly the squares
/// a knight reaches from `i`.
proof fn lemma_knight_entry(i: int, e: u64)
    requires
        0 <= i < 64,
        forall|t: int|
            #[trigger] bb_has(e, t) <==> (0 <= t < 64 && 0 <= sq_file(t) - (sq_file(i) - 2) <= 7
                && 0 <= sq_rank(t) - (sq_rank(i) - 2) <= 7 && bb_has(
                0xa1100110au64,
                t - (sq_file(i) - 2) - 8 * (sq_rank(i) - 2),
            )),
    ensures
        forall|t: int| #[trigger] bb_has(e, t) <==> knight_reaches(i, t),
{
    lemma_knight_template();
    assert forall|t: int| #[trigger] bb_has(e, t) <==> knight_reaches(i, t) by {
        let fi = sq_file(i);
        let ri = sq_rank(i);
        if bb_has(e, t) {
            let s = t - (fi - 2) - 8 * (ri - 2);
            assert(bb_has(0xa1100110au64, s));
            assert(t == 8 * sq_rank(t) + sq_file(t));
            lemma_sq_split(sq_rank(t) - (ri - 2), sq_file(t) - (fi - 2));
            assert(s == sq_at(sq_rank(t) - (ri - 2), sq_file(t) - (fi - 2)));
            assert(knight_reaches(i, t));
        } else {
            if knight_reaches(i, t) {
                let df = sq_file(t) - fi;
                let dr = sq_rank(t) - ri;
                let s = sq_at(dr + 2, df + 2);
                lemma_sq_split(dr + 2, df + 2);
                assert(bb_has(0xa1100110au64, s));
                assert(t == 8 * sq_rank(t) + sq_file(t));
                assert(s == t - (fi - 2) - 8 * (ri - 2));
                assert(bb_has(e, t));
            }
        }
    }
}

/// Translating the king template to square `i` gives exactly the squares a
/// king reaches from `i`.
proof fn lemma_king_entry(i: int, e: u64)
    requires
        0 <= i < 64,
        forall|t: int|
            #[trigger] bb_has(e, t) <==> (0 <= t < 64 && 0 <= sq_file(t) - (sq_file(i) - 1) <= 7
                && 0 <= sq_rank(t) - (sq_rank(i) - 1) <= 7 && bb_has(
                0x70507u64,
                t - (sq_file(i) - 1) - 8 * (sq_rank(i) - 1),
            )),
    ensures
        forall|t: int| #[trigger] bb_has(e, t) <==> king_reaches(i, t),
{
    lemma_king_template();
    assert forall|t: int| #[trigger] bb_has(e, t) <==> king_reaches(i, t) by {
        let fi = sq_file(i);
        let ri = sq_rank(i);
        if bb_has(e, t) {
            let s = t - (fi - 1) - 8 * (ri - 1);
            assert(bb_has(0x70507u64, s));
            assert(t == 8 * sq_rank(t) + sq_file(t));
            lemma_sq_split(sq_rank(t) - (ri - 1), sq_file(t) - (fi - 1));
            assert(s == sq_at(sq_rank(t) - (ri - 1), sq_file(t) - (fi - 1)));
            assert(king_reaches(i, t));
        } else {
            if king_reaches(i, t) {
                let df = sq_file(t) - fi;
                let dr = sq_rank(t) - ri;
                let s = sq_at(dr + 1, df + 1);
                lemma_sq_split(dr + 1, df + 1);
                assert(bb_has(0x70507u64, s));
                assert(t == 8 * sq_rank(t) + sq_file(t));
                assert(s == t - (fi - 1) - 8 * (ri - 1));
                assert(bb_has(e, t));
            }
        }
    }
}

/// Builds the per-square knight reachability table by translating a fixed
/// template pattern to every square.
pub fn knight_table() -> (v: Vec<u64>)
    ensures
        v.len() == 64,
        forall|i: int, t: int|
            0 <= i < 64 ==> (#[trigger] bb_has(v@[i], t) <==> knight_reaches(i, t)),
{
    let mut v: Vec<u64> = Vec::new();
    let mut i: u64 = 0;
    while i < 64
        invariant
            v.len() == i,
            i <= 64,
            forall|j: int, t: int|
                0 <= j < i ==> (#[trigger] bb_has(v@[j], t) <==> knight_reaches(j, t)),
        decreases 64 - i,
    {
        let e = move_bb_slow(0xa1100110au64, 18, i);
        proof {
            lemma_knight_entry(i as int, e);
        }
        v.push(e);
        i += 1;
    }
    v
}

/// Builds the per-square king reachability table by translating a fixed
/// template pattern to every square.
pub fn king_table() -> (v: Vec<u64>)
    ensures
        v.len() == 64,
        forall|i: int, t: int|
            0 <= i < 64 ==> (#[trigger] bb_has(v@[i], t) <==> king_reaches(i, t)),
{
    let mut v: Vec<u64> = Vec::new();
    let mut i: u64 = 0;
    while i < 64
        invariant
            v.len() == i,
            i <= 64,
            forall|j: int, t: int|
                0 <= j < i ==> (#[trigger] bb_has(v@[j], t) <==> king_reaches(j, t)),
        decreases 64 - i,
    {
        let e = move_bb_slow(0x70507u64, 9, i);
        proof {
            lemma_king_entry(i as int, e);
        }
        v.push(e);
        i += 1;
    }
    v
}

/// Builds the per-square single-push target table for `c` pawns.
pub fn pawn_push_table(c: Color) -> (v: Vec<u64>)
    ensures
        v.len() == 64,
        forall|i: int, t: int|
            0 <= i < 64 ==> (#[trigger] bb_has(v@[i], t) <==> pawn_push_reaches(c, i, t)),
{
    let dir: i32 = match c {
        Color::White => 1,
        Color::Black => -1,
    };
    let mut v: Vec<u64> = Vec::new();
    let mut i: u64 = 0;
    while i < 64
        invariant
            v.len() == i,
            i <= 64,
            forall|j: int, t: int|
                0 <= j < i ==> (#[trigger] bb_has(v@[j], t) <==> pawn_push_reaches(c, j, t)),
            dir == pawn_dir(c),
        decreases 64 - i,
    {
        let e = move_bb_vert(1u64 << i, dir);
        proof {
            lemma_bb_ops();
            assert forall|t: int| #[trigger] bb_has(e, t) <==> pawn_push_reaches(c, i as int, t) by {
                if bb_has(e, t) {
                    assert(bb_has(1u64 << i, t - 8 * dir));
                    assert(t - 8 * dir == i);
                    assert(t == 8 * sq_rank(t) + sq_file(t));
                } else {
                    if pawn_push_reaches(c, i as int, t) {
                        assert(t == 8 * sq_rank(t) + sq_file(t));
                        assert(i == 8 * sq_rank(i as int) + sq_file(i as int));
                        assert(t - 8 * dir == i);
                        assert(bb_has(1u64 << i, t - 8 * dir));
                        assert(bb_has(e, t));
                    }
                }
            }
        }
        v.push(e);
        i += 1;
    }
    v
}

/// Builds the per-square double-push target table for `c` pawns; entries
/// are nonzero only on the color's start rank.
pub fn pawn_double_push_table(c: Color) -> (v: Vec<u64>)
    ensures
        v.len() == 64,
        forall|i: int, t: int|
            0 <= i < 64 ==> (#[trigger] bb_has(v@[i], t) <==> pawn_double_reaches(c, i, t)),
{
    let dir: i32 = match c {
        Color::White => 1,
        Color::Black => -1,
    };
    let lo: u64 = match c {
        Color::White => 8,
        Color::Black => 48,
    };
    let mut v: Vec<u64> = Vec::new();
    let mut i: u64 = 0;
    while i < 64
        invariant
            v.len() == i,
            i <= 64,
            forall|j: int, t: int|
                0 <= j < i ==> (#[trigger] bb_has(v@[j], t) <==> pawn_double_reaches(c, j, t)),
            dir == pawn_dir(c),
            lo == (if c == Color::White { 8int } else { 48int }),
        decreases 64 - i,
    {
        let e = if i >= lo && i <= lo + 7 {
            move_bb_vert(1u64 << i, 2 * dir)
        } else {
            0u64
        };
        proof {
            lemma_bb_ops();
            assert forall|t: int|
                #[trigger] bb_has(e, t) <==> pawn_double_reaches(c, i as int, t) by {
                if lo <= i <= lo + 7 {
                    assert(sq_rank(i as int) == (if c == Color::White { 1int } else { 6int }));
                    if bb_has(e, t) {
                        assert(bb_has(1u64 << i, t - 8 * (2 * dir)));
                        assert(t - 16 * dir == i);
                        assert(t == 8 * sq_rank(t) + sq_file(t));
                    } else {
                        if pawn_double_reaches(c, i as int, t) {
                            assert(t == 8 * sq_rank(t) + sq_file(t));
                            assert(i == 8 * sq_rank(i as int) + sq_file(i as int));
                            assert(t - 8 * (2 * dir) == i);
                            assert(bb_has(1u64 << i, t - 8 * (2 * dir)));
                            assert(bb_has(e, t));
                        }
                    }
                } else {
                    assert(sq_rank(i as int) != (if c == Color::White { 1int } else { 6int }));
                    assert(!bb_has(e, t));
                }
            }
        }
        v.push(e);
        i += 1;
    }
    v
}

/// Builds the per-square diagonal-capture table for `c` pawns.
pub fn pawn_cap_table(c: Color) -> (v: Vec<u64>)
    ensures
        v.len() == 64,
        forall|i: int, t: int|
            0 <= i < 64 ==> (#[trigger] bb_has(v@[i], t) <==> pawn_cap_reaches(c, i, t)),
{
    let dir: i32 = match c {
        Color::White => 1,
        Color::Black => -1,
    };
    let mut v: Vec<u64> = Vec::new();
    let mut i: u64 = 0;
    while i < 64
        invariant
            v.len() == i,
            i <= 64,
            forall|j: int, t: int|
                0 <= j < i ==> (#[trigger] bb_has(v@[j], t) <==> pawn_cap_reaches(c, j, t)),
            dir == pawn_dir(c),
        decreases 64 - i,
    {
        let p = move_bb_vert(1u64 << i, dir);
        let p1 = move_bb_hor(p, 1);
        let p2 = move_bb_hor(p, -1);
        let e = p1 | p2;
        proof {
            lemma_bb_ops();
            assert forall|t: int| #[trigger] bb_has(e, t) <==> pawn_cap_reaches(c, i as int, t) by {
                assert(bb_has(e, t) <==> bb_has(p1, t) || bb_has(p2, t));
                if bb_has(e, t) {
                    if bb_has(p1, t) {
                        assert(bb_has(p, t - 1));
                        assert(bb_has(1u64 << i, t - 1 - 8 * dir));
                        assert(t - 1 - 8 * dir == i);
                        assert(t == 8 * sq_rank(t) + sq_file(t));
                        assert(sq_file(t - 1) == sq_file(t) - 1);
                    } else {
                        assert(bb_has(p, t + 1));
                        assert(bb_has(1u64 << i, t + 1 - 8 * dir));
                        assert(t + 1 - 8 * dir == i);
                        assert(t == 8 * sq_rank(t) + sq_file(t));
                        assert(sq_file(t + 1) == sq_file(t) + 1);
                    }
                } else {
                    if pawn_cap_reaches(c, i as int, t) {
                        assert(t == 8 * sq_rank(t) + sq_file(t));
                        assert(i == 8 * sq_rank(i as int) + sq_file(i as int));
                        if sq_file(t) == sq_file(i as int) + 1 {
                            assert(t - 1 - 8 * dir == i);
                            assert(sq_file(t - 1) == sq_file(t) - 1);
                            assert(bb_has(1u64 << i, t - 1 - 8 * dir));
                            assert(bb_has(p, t - 1));
                            assert(bb_has(p1, t));
                        } else {
                            assert(t + 1 - 8 * dir == i);
                            assert(sq_file(t + 1) == sq_file(t) + 1);
                            assert(bb_has(1u64 << i, t + 1 - 8 * dir));
                            assert(bb_has(p, t + 1));
                            assert(bb_has(p2, t));
                        }
                        assert(bb_has(e, t));
                    }
                }
            }
        }
        v.push(e);
        i += 1;
    }
    v
}

/// The squares whose occupancy can change a rook's reachable set from
/// `sq`: the rest of `sq`'s rank and file, leaving out `sq` itself and the
/// outer edge in each ray direction.
pub open spec fn rook_mask_sq(sq: int, t: int) -> bool {
    &&& 0 <= sq < 64
    &&& 0 <= t < 64
    &&& t != sq
    &&& ((sq_rank(t) == sq_rank(sq) && 1 <= sq_file(t) <= 6) || (sq_file(t) == sq_file(sq) && 1
        <= sq_rank(t) <= 6))
}

/// The squares whose occupancy can change a bishop's reachable set from
/// `sq`: the rest of `sq`'s two diagonals, leaving out `sq` itself and the
/// board's whole outer edge.
pub open spec fn bishop_mask_sq(sq: int, t: int) -> bool {
    &&& 0 <= sq < 64
    &&& 0 <= t < 64
    &&& t != sq
    &&& (sq_file(t) + sq_rank(t) == sq_file(sq) + sq_rank(sq) || sq_file(t) - sq_rank(t) == sq_file(
        sq,
    ) - sq_rank(sq))
    &&& 1 <= sq_file(t) <= 6
    &&& 1 <= sq_rank(t) <= 6
}

/// The raw bit-level membership of the wall and diagonal constants.
proof fn lemma_walls_bv()
    by (bit_vector)
    ensures
        forall|j: u64|
            j < 64 ==> ((#[trigger] (0xffu64 >> j) & 1u64 == 1u64 <==> j >> 3u64 == 0) && ((
            0xff00000000000000u64 >> j) & 1u64 == 1u64 <==> j >> 3u64 == 7) && ((
            0x101010101010101u64 >> j) & 1u64 == 1u64 <==> j & 7 == 0) && ((0x8080808080808080u64
                >> j) & 1u64 == 1u64 <==> j & 7 == 7) && ((0x102040810204080u64 >> j) & 1u64
                == 1u64 <==> (j & 7) + (j >> 3u64) == 7) && ((0x8040201008040201u64 >> j) & 1u64
                == 1u64 <==> j & 7 == j >> 3u64) && j >> 3u64 == j / 8 && j & 7 == j % 8),
{
}

/// The members of the wall and diagonal constants, in rank-and-file terms.
proof fn lemma_walls()
    ensures
        forall|t: int| #[trigger] bb_has(0xffu64, t) <==> (0 <= t < 64 && sq_rank(t) == 0),
        forall|t: int|
            #[trigger] bb_has(0xff00000000000000u64, t) <==> (0 <= t < 64 && sq_rank(t) == 7),
        forall|t: int|
            #[trigger] bb_has(0x101010101010101u64, t) <==> (0 <= t < 64 && sq_file(t) == 0),
        forall|t: int|
            #[trigger] bb_has(0x8080808080808080u64, t) <==> (0 <= t < 64 && sq_file(t) == 7),
        forall|t: int|
            #[trigger] bb_has(0x102040810204080u64, t) <==> (0 <= t < 64 && sq_file(t) + sq_rank(t)
                == 7),
        forall|t: int|
            #[trigger] bb_has(0x8040201008040201u64, t) <==> (0 <= t < 64 && sq_file(t) == sq_rank(
                t,
            )),
{
    lemma_walls_bv();
    assert forall|t: int|
        #[trigger] bb_has(0xffu64, t) <==> (0 <= t < 64 && sq_rank(t) == 0) by {
        if 0 <= t < 64 {
            let tu = t as u64;
            assert((0xffu64 >> tu) & 1u64 == 1u64 <==> tu >> 3u64 == 0);
        }
    }
    assert forall|t: int|
        #[trigger] bb_has(0xff00000000000000u64, t) <==> (0 <= t < 64 && sq_rank(t) == 7) by {
        if 0 <= t < 64 {
            let tu = t as u64;
            assert((0xffu64 >> tu) & 1u64 == 1u64 <==> tu >> 3u64 == 0);
            assert((0xff00000000000000u64 >> tu) & 1u64 == 1u64 <==> tu >> 3u64 == 7);
        }
    }
    assert forall|t: int|
        #[trigger] bb_has(0x101010101010101u64, t) <==> (0 <= t < 64 && sq_file(t) == 0) by {
        if 0 <= t < 64 {
            let tu = t as u64;
            assert((0xffu64 >> tu) & 1u64 == 1u64 <==> tu >> 3u64 == 0);
            assert((0x101010101010101u64 >> tu) & 1u64 == 1u64 <==> tu & 7 == 0);
        }
    }
    assert forall|t: int|
        #[trigger] bb_has(0x8080808080808080u64, t) <==> (0 <= t < 64 && sq_file(t) == 7) by {
        if 0 <= t < 64 {
            let tu = t as u64;
            assert((0xffu64 >> tu) & 1u64 == 1u64 <==> tu >> 3u64 == 0);
            assert((0x8080808080808080u64 >> tu) & 1u64 == 1u64 <==> tu & 7 == 7);
        }
    }
    assert forall|t: int|
        #[trigger] bb_has(0x102040810204080u64, t) <==> (0 <= t < 64 && sq_file(t) + sq_rank(t)
            == 7) by {
        if 0 <= t < 64 {
            let tu = t as u64;
            assert((0xffu64 >> tu) & 1u64 == 1u64 <==> tu >> 3u64 == 0);
            assert((0x102040810204080u64 >> tu) & 1u64 == 1u64 <==> (tu & 7) + (tu >> 3u64) == 7);
        }
    }
    assert forall|t: int|
        #[trigger] bb_has(0x8040201008040201u64, t) <==> (0 <= t < 64 && sq_file(t) == sq_rank(t))
        by {
        if 0 <= t < 64 {
            let tu = t as u64;
            assert((0xffu64 >> tu) & 1u64 == 1u64 <==> tu >> 3u64 == 0);
            assert((0x8040201008040201u64 >> tu) & 1u64 == 1u64 <==> tu & 7 == tu >> 3u64);
        }
    }
}

/// Builds the 64 rook relevant-occupancy masks.
#[verifier::rlimit(100)]
pub fn gen_rook_potential_moves() -> (v: Vec<u64>)
    ensures
        v.len() == 64,
        forall|i: int, t: int|
            0 <= i < 64 ==> (#[trigger] bb_has(v@[i], t) <==> rook_mask_sq(i, t)),
{
    let mut v: Vec<u64> = Vec::new();
    let mut i: u64 = 0;
    while i < 64
        invariant
            v.len() == i,
            i <= 64,
            forall|j: int, t: int|
                0 <= j < i ==> (#[trigger] bb_has(v@[j], t) <==> rook_mask_sq(j, t)),
        decreases 64 - i,
    {
        let mut hor_line = move_bb_vert(crate::geometry::WALL_DOWN, (i / 8) as i32);
        hor_line &= !crate::geometry::WALL_LEFT;
        hor_line &= !crate::geometry::WALL_RIGHT;

        let mut vert_line = move_bb_hor(crate::geometry::WALL_LEFT, (i % 8) as i32);
        vert_line &= !crate::geometry::WALL_UP;
        vert_line &= !crate::geometry::WALL_DOWN;

        let mut cross = vert_line | hor_line;
        cross &= !(1u64 << i);
        proof {
            lemma_walls();
            lemma_bb_ops();
            assert forall|t: int| #[trigger] bb_has(cross, t) <==> rook_mask_sq(i as int, t) by {
                if 0 <= t < 64 {
                    assert(t == 8 * sq_rank(t) + sq_file(t));
                    assert(i == 8 * sq_rank(i as int) + sq_file(i as int));
                    assert(sq_rank(t - 8 * (i as int / 8)) == sq_rank(t) - (i as int / 8) || !(0
                        <= sq_rank(t) - (i as int / 8) <= 7));
                }
            }
        }
        v.push(cross);
        i += 1;
    }
    v
}

/// Shifting the two diagonal templates onto a square and trimming the
/// whole outer edge gives exactly the bishop's relevant-occupancy mask.
#[verifier::rlimit(100)]
proof fn lemma_bishop_mask_entry(i: int, dd: u64, ud: u64, cross: u64)
    requires
        0 <= i < 64,
        forall|t: int|
            #[trigger] bb_has(dd, t) <==> (0 <= t < 64 && 0 <= sq_file(t) - (sq_file(i) + sq_rank(
                i,
            ) - 7) <= 7 && bb_has(0x102040810204080u64, t - (sq_file(i) + sq_rank(i) - 7))),
        forall|t: int|
            #[trigger] bb_has(ud, t) <==> (0 <= t < 64 && 0 <= sq_file(t) - (sq_file(i) - sq_rank(
                i,
            )) <= 7 && bb_has(0x8040201008040201u64, t - (sq_file(i) - sq_rank(i)))),
        cross == ((((dd ^ ud) & !0x101010101010101u64) & !0x8080808080808080u64)
            & !0xff00000000000000u64) & !0xffu64,
    ensures
        forall|t: int| #[trigger] bb_has(cross, t) <==> bishop_mask_sq(i, t),
{
    lemma_walls();
    lemma_bb_ops();
    assert forall|t: int| #[trigger] bb_has(cross, t) <==> bishop_mask_sq(i, t) by {
        if 0 <= t < 64 {
            assert(t == 8 * sq_rank(t) + sq_file(t));
            assert(i == 8 * sq_rank(i) + sq_file(i));
        }
    }
}

/// Builds the 64 bishop relevant-occupancy masks.
pub fn gen_bishop_potential_moves() -> (v: Vec<u64>)
    ensures
        v.len() == 64,
        forall|i: int, t: int|
            0 <= i < 64 ==> (#[trigger] bb_has(v@[i], t) <==> bishop_mask_sq(i, t)),
{
    let mut v: Vec<u64> = Vec::new();
    let mut i: u64 = 0;
    while i < 64
        invariant
            v.len() == i,
            i <= 64,
            forall|j: int, t: int|
                0 <= j < i ==> (#[trigger] bb_has(v@[j], t) <==> bishop_mask_sq(j, t)),
        decreases 64 - i,
    {
        let x = (i % 8) as i32;
        let y = (i / 8) as i32;
        let down_diag = move_bb_hor(crate::geometry::DIAGONAL_DOWN, x + y - 7);
        let up_diag = move_bb_hor(crate::geometry::DIAGONAL_UP, x - y);
        let mut cross = down_diag ^ up_diag;
        cross &= !crate::geometry::WALL_LEFT;
        cross &= !crate::geometry::WALL_RIGHT;
        cross &= !crate::geometry::WALL_UP;
        cross &= !crate::geometry::WALL_DOWN;
        proof {
            lemma_bishop_mask_entry(i as int, down_diag, up_diag, cross);
        }
        v.push(cross);
        i += 1;
    }
    v
}

/// A unit ray direction.
pub open spec fn dir_ok(df: int, dr: int) -> bool {
    -1 <= df <= 1 && -1 <= dr <= 1 && !(df == 0 && dr == 0)
}

/// The k-th square along the ray from `sq` in direction `(df, dr)`.
pub open spec fn ray_sq(sq: int, df: int, dr: int, k: int) -> int {
    sq_at(sq_rank(sq) + k * dr, sq_file(sq) + k * df)
}

/// The k-th step of the ray from `sq` stays on the board.
pub open spec fn ray_on_board(sq: int, df: int, dr: int, k: int) -> bool {
    0 <= sq_rank(sq) + k * dr < 8 && 0 <= sq_file(sq) + k * df < 8
}

/// Square `t` lies on the ray from `sq` in direction `(df, dr)` with no
/// occupied square strictly between; the first occupied square on the ray
/// is itself reached (it can be captured), squares beyond it are not.
pub open spec fn ray_reaches(occ: u64, sq: int, df: int, dr: int, t: int) -> bool {
    exists|k: int|
        1 <= k && #[trigger] ray_on_board(sq, df, dr, k) && t == ray_sq(sq, df, dr, k) && (forall|
            j: int,
        |
            1 <= j < k ==> !bb_has(occ, #[trigger] ray_sq(sq, df, dr, j)))
}

/// A rook reaches `t` from `sq` along one of the four orthogonal rays.
pub open spec fn rook_reaches(occ: u64, sq: int, t: int) -> bool {
    ||| ray_reaches(occ, sq, 1, 0, t)
    ||| ray_reaches(occ, sq, -1, 0, t)
    ||| ray_reaches(occ, sq, 0, 1, t)
    ||| ray_reaches(occ, sq, 0, -1, t)
}

/// A bishop reaches `t` from `sq` along one of the four diagonal rays.
pub open spec fn bishop_reaches(occ: u64, sq: int, t: int) -> bool {
    ||| ray_reaches(occ, sq, 1, 1, t)
    ||| ray_reaches(occ, sq, 1, -1, t)
    ||| ray_reaches(occ, sq, -1, 1, t)
    ||| ray_reaches(occ, sq, -1, -1, t)
}

/// Multiplying by a unit direction component is adding or subtracting.
pub proof fn lemma_unit_mul(k: int, d: int)
    ensures
        d == 0 ==> k * d == 0,
        d == 1 ==> k * d == k,
        d == -1 ==> k * d == -k,
        (k + 1) * d == k * d + d,
{
    assert(d == 0 ==> k * d == 0) by (nonlinear_arith);
    assert(d == 1 ==> k * d == k) by (nonlinear_arith);
    assert(d == -1 ==> k * d == -k) by (nonlinear_arith);
    assert((k + 1) * d == k * d + d) by (nonlinear_arith);
}

/// Once a ray has left the board it stays off it.
proof fn lemma_ray_stays_off(sq: int, df: int, dr: int, k: int)
    requires
        0 <= sq < 64,
        dir_ok(df, dr),
        k >= 1,
        !ray_on_board(sq, df, dr, k),
    ensures
        forall|k2: int| k2 >= k ==> !ray_on_board(sq, df, dr, k2),
{
    assert forall|k2: int| k2 >= k implies !ray_on_board(sq, df, dr, k2) by {
        lemma_unit_mul(k, df);
        lemma_unit_mul(k, dr);
        lemma_unit_mul(k2, df);
        lemma_unit_mul(k2, dr);
    }
}

/// Walks one ray from `sq` across occupancy `occ`, collecting every square
/// reached: squares up to and including the first occupied one.
pub fn ray_attacks(occ: u64, sq: u64, df: i32, dr: i32) -> (r: u64)
    requires
        sq < 64,
        dir_ok(df as int, dr as int),
    ensures
        forall|t: int|
            #[trigger] bb_has(r, t) <==> ray_reaches(occ, sq as int, df as int, dr as int, t),
{
    let f0 = (sq % 8) as i32;
    let r0 = (sq / 8) as i32;
    let mut f = f0 + df;
    let mut rr = r0 + dr;
    let mut result: u64 = 0;
    let mut blocked = false;
    let ghost mut k: int = 1;
    proof {
        lemma_unit_mul(0, df as int);
        lemma_unit_mul(0, dr as int);
        lemma_bb_ops();
    }
    while !blocked && f >= 0 && f < 8 && rr >= 0 && rr < 8
        invariant
            sq < 64,
            dir_ok(df as int, dr as int),
            f0 == sq_file(sq as int),
            r0 == sq_rank(sq as int),
            1 <= k <= 8,
            f == f0 + k * df,
            rr == r0 + k * dr,
            forall|j: int| 1 <= j < k ==> #[trigger] ray_on_board(sq as int, df as int, dr as int, j),
            forall|j: int|
                1 <= j < k ==> !bb_has(occ, #[trigger] ray_sq(sq as int, df as int, dr as int, j)),
            !blocked ==> (forall|t: int|
                #[trigger] bb_has(result, t) <==> (exists|j: int|
                    1 <= j < k && #[trigger] ray_on_board(sq as int, df as int, dr as int, j) && t
                        == ray_sq(sq as int, df as int, dr as int, j))),
            blocked ==> ray_on_board(sq as int, df as int, dr as int, k) && bb_has(
                occ,
                ray_sq(sq as int, df as int, dr as int, k),
            ) && (forall|t: int|
                #[trigger] bb_has(result, t) <==> (exists|j: int|
                    1 <= j <= k && #[trigger] ray_on_board(sq as int, df as int, dr as int, j) && t
                        == ray_sq(sq as int, df as int, dr as int, j))),
        decreases 8 - k, (if blocked { 0int } else { 1int }),
    {
        let idx_i = rr * 8 + f;
        let idx = idx_i as u64;
        proof {
            lemma_sq_split(rr as int, f as int);
            assert(idx == ray_sq(sq as int, df as int, dr as int, k));
            assert(ray_on_board(sq as int, df as int, dr as int, k));
            lemma_bb_ops();
        }
        let prev = result;
        result = result | (1u64 << idx);
        let hit = occ & (1u64 << idx) != 0;
        proof {
            assert((occ & (1u64 << idx) != 0) <==> ((occ >> idx) & 1u64 == 1u64)) by (bit_vector)
                requires idx < 64;
        }
        if hit {
            blocked = true;
            proof {
                assert forall|t: int|
                    #[trigger] bb_has(result, t) <==> (exists|j: int|
                        1 <= j <= k && #[trigger] ray_on_board(
                            sq as int,
                            df as int,
                            dr as int,
                            j,
                        ) && t == ray_sq(sq as int, df as int, dr as int, j)) by {
                    if bb_has(result, t) {
                        if t == idx {
                            assert(ray_on_board(sq as int, df as int, dr as int, k));
                        } else {
                            assert(bb_has(prev, t));
                        }
                    }
                }
            }
        } else {
            f += df;
            rr += dr;
            proof {
                lemma_unit_mul(k, df as int);
                lemma_unit_mul(k, dr as int);
                if k >= 8 {
                    assert(false);
                }
                k = k + 1;
                assert forall|t: int|
                    #[trigger] bb_has(result, t) <==> (exists|j: int|
                        1 <= j < k && #[trigger] ray_on_board(
                            sq as int,
                            df as int,
                            dr as int,
                            j,
                        ) && t == ray_sq(sq as int, df as int, dr as int, j)) by {
                    if bb_has(result, t) {
                        if t == idx {
                            assert(ray_on_board(sq as int, df as int, dr as int, k - 1));
                        } else {
                            assert(bb_has(prev, t));
                        }
                    }
                }
            }
        }
    }
    proof {
        let sqi = sq as int;
        let dfi = df as int;
        let dri = dr as int;
        if blocked {
            assert forall|t: int| #[trigger] bb_has(result, t) <==> ray_reaches(occ, sqi, dfi, dri, t) by {
                if bb_has(result, t) {
                    let j = choose|j: int|
                        1 <= j <= k && #[trigger] ray_on_board(sqi, dfi, dri, j) && t == ray_sq(
                            sqi,
                            dfi,
                            dri,
                            j,
                        );
                    assert(1 <= j && ray_on_board(sqi, dfi, dri, j) && t == ray_sq(sqi, dfi, dri, j)
                        && (forall|j2: int|
                        1 <= j2 < j ==> !bb_has(occ, #[trigger] ray_sq(sqi, dfi, dri, j2))));
                } else {
                    if ray_reaches(occ, sqi, dfi, dri, t) {
                        let k2 = choose|k2: int|
                            1 <= k2 && #[trigger] ray_on_board(sqi, dfi, dri, k2) && t == ray_sq(
                                sqi,
                                dfi,
                                dri,
                                k2,
                            ) && (forall|j: int|
                                1 <= j < k2 ==> !bb_has(occ, #[trigger] ray_sq(sqi, dfi, dri, j)));
                        if k2 <= k {
                            assert(bb_has(result, t));
                        } else {
                            assert(!bb_has(occ, ray_sq(sqi, dfi, dri, k)));
                            assert(false);
                        }
                    }
                }
            }
        } else {
            lemma_ray_stays_off(sqi, dfi, dri, k);
            assert forall|t: int| #[trigger] bb_has(result, t) <==> ray_reaches(occ, sqi, dfi, dri, t) by {
                if bb_has(result, t) {
                    let j = choose|j: int|
                        1 <= j < k && #[trigger] ray_on_board(sqi, dfi, dri, j) && t == ray_sq(
                            sqi,
                            dfi,
                            dri,
                            j,
                        );
                    assert(1 <= j && ray_on_board(sqi, dfi, dri, j) && t == ray_sq(sqi, dfi, dri, j)
                        && (forall|j2: int|
                        1 <= j2 < j ==> !bb_has(occ, #[trigger] ray_sq(sqi, dfi, dri, j2))));
                } else {
                    if ray_reaches(occ, sqi, dfi, dri, t) {
                        let k2 = choose|k2: int|
                            1 <= k2 && #[trigger] ray_on_board(sqi, dfi, dri, k2) && t == ray_sq(
                                sqi,
                                dfi,
                                dri,
                                k2,
                            ) && (forall|j: int|
                                1 <= j < k2 ==> !bb_has(occ, #[trigger] ray_sq(sqi, dfi, dri, j)));
                        if k2 < k {
                            assert(bb_has(result, t));
                        } else {
                            assert(!ray_on_board(sqi, dfi, dri, k2));
                            assert(false);
                        }
                    }
                }
            }
        }
    }
    result
}

/// The squares a rook on `sq` reaches across occupancy `occ`, by walking
/// the four orthogonal rays.
pub fn rook_attacks_slow(occ: u64, sq: u64) -> (r: u64)
    requires
        sq < 64,
    ensures
        forall|t: int| #[trigger] bb_has(r, t) <==> rook_reaches(occ, sq as int, t),
{
    let a = ray_attacks(occ, sq, 1, 0);
    let b = ray_attacks(occ, sq, -1, 0);
    let c = ray_attacks(occ, sq, 0, 1);
    let d = ray_attacks(occ, sq, 0, -1);
    let r = a | b | c | d;
    proof {
        lemma_bb_ops();
    }
    r
}

/// The squares a bishop on `sq` reaches across occupancy `occ`, by walking
/// the four diagonal rays.
pub fn bishop_attacks_slow(occ: u64, sq: u64) -> (r: u64)
    requires
        sq < 64,
    ensures
        forall|t: int| #[trigger] bb_has(r, t) <==> bishop_reaches(occ, sq as int, t),
{
    let a = ray_attacks(occ, sq, 1, 1);
    let b = ray_attacks(occ, sq, 1, -1);
    let c = ray_attacks(occ, sq, -1, 1);
    let d = ray_attacks(occ, sq, -1, -1);
    let r = a | b | c | d;
    proof {
        lemma_bb_ops();
    }
    r
}

/// The perfect-hash slot occupancy `v` maps to under `magic`: wraparound
/// multiplication, then a right shift keeping the top `64 - sh` bits.
pub open spec fn magic_index(v: u64, magic: u64, sh: u64) -> u64 {
    (((v * magic) % 0x10000000000000000) as u64) >> sh
}

/// `magic` hashes the subsets of `mask` without collision: distinct
/// subset counters land in distinct slots.
pub open spec fn magic_ok(mask: u64, magic: u64, sh: u64) -> bool {
    forall|i: u64, j: u64|
        #![trigger magic_index(scatter(mask, i), magic, sh), magic_index(scatter(mask, j), magic, sh)]
        i < pow2(pop_count(mask)) && j < pow2(pop_count(mask)) && i != j ==> magic_index(
            scatter(mask, i),
            magic,
            sh,
        ) != magic_index(scatter(mask, j), magic, sh)
}

/// The table entry a subset of the mask selects.
pub open spec fn slider_entry(table: Seq<u64>, s: u64, magic: u64, sh: u64) -> u64 {
    table[magic_index(s, magic, sh) as int]
}

/// A hash slot fits the table that its shift amount sizes.
proof fn lemma_magic_index_bound(v: u64, magic: u64)
    ensures
        magic_index(v, magic, 52) < 4096,
        magic_index(v, magic, 55) < 512,
{
    let x: u64 = ((v * magic) % 0x10000000000000000) as u64;
    assert(x >> 52 < 4096 && x >> 55 < 512) by (bit_vector);
}

/// Decides whether `magic` hashes every subset of `bb` to a distinct
/// slot of a `2^offset`-entry table: true exactly when the mask has at
/// most `offset` members and the hash is collision-free over its subsets.
#[verifier::rlimit(100)]
pub fn check_magic(bb: u64, magic: u64, offset: u8) -> (r: bool)
    requires
        offset == 12 || offset == 9,
    ensures
        r == (pop_count(bb) <= offset && magic_ok(bb, magic, (64 - offset) as u64)),
{
    let n = count_bits(bb);
    if n > offset as u32 {
        return false;
    }
    let sh: u64 = 64 - offset as u64;
    let max_num: u64 = 1u64 << n;
    proof {
        vstd::arithmetic::power2::lemma2_to64();
        if pop_count(bb) < 12 {
            vstd::arithmetic::power2::lemma_pow2_strictly_increases(pop_count(bb), 12);
        }
        vstd::bits::lemma_u64_shl_is_mul(1u64, n as u64);
        assert(max_num == pow2(pop_count(bb)));
    }
    let table_size: usize = 1usize << offset;
    let mut table: Vec<bool> = Vec::new();
    while table.len() < table_size
        invariant
            table.len() <= table_size,
            table_size == (1usize << offset),
            offset == 12 || offset == 9,
            forall|slot: int| 0 <= slot < table@.len() ==> !table@[slot],
        decreases table_size - table.len(),
    {
        table.push(false);
    }
    let mut idx: u64 = 0;
    while idx < max_num
        invariant
            offset == 12 || offset == 9,
            sh == 64 - offset,
            table_size == (1usize << offset),
            table.len() == table_size,
            max_num == pow2(pop_count(bb)),
            idx <= max_num,
            forall|i2: u64|
                i2 < idx ==> #[trigger] magic_index(scatter(bb, i2), magic, sh) < table_size
                    && table@[magic_index(scatter(bb, i2), magic, sh) as int],
            forall|slot: int|
                0 <= slot < table@.len() && table@[slot] ==> exists|i2: u64|
                    i2 < idx && #[trigger] magic_index(scatter(bb, i2), magic, sh) == slot,
            forall|i1: u64, i2: u64|
                #![trigger magic_index(scatter(bb, i1), magic, sh), magic_index(scatter(bb, i2), magic, sh)]
                i1 < i2 < idx ==> magic_index(scatter(bb, i1), magic, sh) != magic_index(
                    scatter(bb, i2),
                    magic,
                    sh,
                ),
        decreases max_num - idx,
    {
        let variant = variants(bb, idx);
        let garbage = variant.wrapping_mul(magic);
        let magic_idx = garbage >> sh;
        proof {
            assert(garbage == ((variant * magic) % 0x10000000000000000) as u64);
            assert(magic_idx == magic_index(scatter(bb, idx), magic, sh));
            let x: u64 = garbage;
            assert(x >> 52 < 4096 && x >> 55 < 512) by (bit_vector);
            assert((1usize << 12) == 4096usize && (1usize << 9) == 512usize) by (bit_vector);
        }
        if table[magic_idx as usize] {
            proof {
                let slot = magic_idx as int;
                let i2 = choose|i2: u64|
                    i2 < idx && #[trigger] magic_index(scatter(bb, i2), magic, sh) == slot;
                assert(i2 < pow2(pop_count(bb)) && idx < pow2(pop_count(bb)) && i2 != idx);
                assert(magic_index(scatter(bb, i2), magic, sh) == magic_index(
                    scatter(bb, idx),
                    magic,
                    sh,
                ));
                assert(!magic_ok(bb, magic, sh));
            }
            return false;
        }
        table[magic_idx as usize] = true;
        proof {
            assert forall|slot: int|
                0 <= slot < table@.len() && table@[slot] implies exists|i2: u64|
                    i2 < idx + 1 && #[trigger] magic_index(scatter(bb, i2), magic, sh) == slot by {
                if slot == magic_idx as int {
                    assert(magic_index(scatter(bb, idx), magic, sh) == slot);
                } else {
                    let i2 = choose|i2: u64|
                        i2 < idx && #[trigger] magic_index(scatter(bb, i2), magic, sh) == slot;
                    assert(i2 < idx + 1 && magic_index(scatter(bb, i2), magic, sh) == slot);
                }
            }
        }
        idx += 1;
    }
    true
}

/// Fills one square's rook attack table: every subset of the relevant
/// mask, hashed by `magic`, maps to the ray-cast reachable set it induces.
pub fn fill_magic_table_rook(magic: u64, square: u64, mask: u64) -> (table: Vec<u64>)
    requires
        square < 64,
        pop_count(mask) <= 12,
        magic_ok(mask, magic, 52),
    ensures
        table.len() == 4096,
        forall|s: u64, q: int|
            s & mask == s ==> (#[trigger] bb_has(slider_entry(table@, s, magic, 52), q)
                <==> rook_reaches(s, square as int, q)),
{
    let n = count_bits(mask);
    let max_num: u64 = 1u64 << n;
    proof {
        vstd::arithmetic::power2::lemma2_to64();
        if pop_count(mask) < 12 {
            vstd::arithmetic::power2::lemma_pow2_strictly_increases(pop_count(mask), 12);
        }
        vstd::bits::lemma_u64_shl_is_mul(1u64, n as u64);
        assert(max_num == pow2(pop_count(mask)));
    }
    let mut table: Vec<u64> = Vec::new();
    while table.len() < 4096
        invariant
            table.len() <= 4096,
        decreases 4096 - table.len(),
    {
        table.push(0);
    }
    let mut idx: u64 = 0;
    while idx < max_num
        invariant
            square < 64,
            magic_ok(mask, magic, 52),
            table.len() == 4096,
            max_num == pow2(pop_count(mask)),
            idx <= max_num,
            forall|i2: u64, q: int|
                i2 < idx ==> (#[trigger] bb_has(
                    slider_entry(table@, scatter(mask, i2), magic, 52),
                    q,
                ) <==> rook_reaches(scatter(mask, i2), square as int, q)),
        decreases max_num - idx,
    {
        let variant = variants(mask, idx);
        let att = rook_attacks_slow(variant, square);
        let garbage = variant.wrapping_mul(magic);
        let magic_idx = garbage >> 52;
        proof {
            assert(garbage == ((variant * magic) % 0x10000000000000000) as u64);
            assert(magic_idx == magic_index(scatter(mask, idx), magic, 52));
            lemma_magic_index_bound(variant, magic);
        }
        let ghost tsnap = table@;
        table[magic_idx as usize] = att;
        proof {
            assert forall|i2: u64, q: int| i2 < idx + 1 implies (#[trigger] bb_has(
                slider_entry(table@, scatter(mask, i2), magic, 52),
                q,
            ) <==> rook_reaches(scatter(mask, i2), square as int, q)) by {
                if i2 < idx {
                    lemma_magic_index_bound(scatter(mask, i2), magic);
                    assert(bb_has(slider_entry(tsnap, scatter(mask, i2), magic, 52), q)
                        <==> rook_reaches(scatter(mask, i2), square as int, q));
                    assert(magic_index(scatter(mask, i2), magic, 52) != magic_index(
                        scatter(mask, idx),
                        magic,
                        52,
                    ));
                    assert(slider_entry(table@, scatter(mask, i2), magic, 52) == slider_entry(
                        tsnap,
                        scatter(mask, i2),
                        magic,
                        52,
                    ));
                } else {
                    assert(slider_entry(table@, scatter(mask, idx), magic, 52) == att);
                }
            }
        }
        idx += 1;
    }
    proof {
        assert forall|s: u64, q: int| s & mask == s implies (#[trigger] bb_has(
            slider_entry(table@, s, magic, 52),
            q,
        ) <==> rook_reaches(s, square as int, q)) by {
            lemma_subset_roundtrip(mask, s);
            let i = gather(mask, s);
            assert(scatter(mask, i) == s && i < max_num);
            assert(bb_has(slider_entry(table@, scatter(mask, i), magic, 52), q) <==> rook_reaches(
                scatter(mask, i),
                square as int,
                q,
            ));
        }
    }
    table
}

/// Fills one square's bishop attack table, as `fill_magic_table_rook` does
/// for rooks.
pub fn fill_magic_table_bshop(magic: u64, square: u64, mask: u64) -> (table: Vec<u64>)
    requires
        square < 64,
        pop_count(mask) <= 9,
        magic_ok(mask, magic, 55),
    ensures
        table.len() == 512,
        forall|s: u64, q: int|
            s & mask == s ==> (#[trigger] bb_has(slider_entry(table@, s, magic, 55), q)
                <==> bishop_reaches(s, square as int, q)),
{
    let n = count_bits(mask);
    let max_num: u64 = 1u64 << n;
    proof {
        vstd::arithmetic::power2::lemma2_to64();
        if pop_count(mask) < 12 {
            vstd::arithmetic::power2::lemma_pow2_strictly_increases(pop_count(mask), 12);
        }
        vstd::bits::lemma_u64_shl_is_mul(1u64, n as u64);
        assert(max_num == pow2(pop_count(mask)));
    }
    let mut table: Vec<u64> = Vec::new();
    while table.len() < 512
        invariant
            table.len() <= 512,
        decreases 512 - table.len(),
    {
        table.push(0);
    }
    let mut idx: u64 = 0;
    while idx < max_num
        invariant
            square < 64,
            magic_ok(mask, magic, 55),
            table.len() == 512,
            max_num == pow2(pop_count(mask)),
            idx <= max_num,
            forall|i2: u64, q: int|
                i2 < idx ==> (#[trigger] bb_has(
                    slider_entry(table@, scatter(mask, i2), magic, 55),
                    q,
                ) <==> bishop_reaches(scatter(mask, i2), square as int, q)),
        decreases max_num - idx,
    {
        let variant = variants(mask, idx);
        let att = bishop_attacks_slow(variant, square);
        let garbage = variant.wrapping_mul(magic);
        let magic_idx = garbage >> 55;
        proof {
            assert(garbage == ((variant * magic) % 0x10000000000000000) as u64);
            assert(magic_idx == magic_index(scatter(mask, idx), magic, 55));
            lemma_magic_index_bound(variant, magic);
        }
        let ghost tsnap = table@;
        table[magic_idx as usize] = att;
        proof {
            assert forall|i2: u64, q: int| i2 < idx + 1 implies (#[trigger] bb_has(
                slider_entry(table@, scatter(mask, i2), magic, 55),
                q,
            ) <==> bishop_reaches(scatter(mask, i2), square as int, q)) by {
                if i2 < idx {
                    lemma_magic_index_bound(scatter(mask, i2), magic);
                    assert(bb_has(slider_entry(tsnap, scatter(mask, i2), magic, 55), q)
                        <==> bishop_reaches(scatter(mask, i2), square as int, q));
                    assert(magic_index(scatter(mask, i2), magic, 55) != magic_index(
                        scatter(mask, idx),
                        magic,
                        55,
                    ));
                    assert(slider_entry(table@, scatter(mask, i2), magic, 55) == slider_entry(
                        tsnap,
                        scatter(mask, i2),
                        magic,
                        55,
                    ));
                } else {
                    assert(slider_entry(table@, scatter(mask, idx), magic, 55) == att);
                }
            }
        }
        idx += 1;
    }
    proof {
        assert forall|s: u64, q: int| s & mask == s implies (#[trigger] bb_has(
            slider_entry(table@, s, magic, 55),
            q,
        ) <==> bishop_reaches(s, square as int, q)) by {
            lemma_subset_roundtrip(mask, s);
            let i = gather(mask, s);
            assert(scatter(mask, i) == s && i < max_num);
            assert(bb_has(slider_entry(table@, scatter(mask, i), magic, 55), q) <==> bishop_reaches(
                scatter(mask, i),
                square as int,
                q,
            ));
        }
    }
    table
}

/// Occupancy outside a ray's mask cannot block the ray: if every strictly
/// intermediate square of the ray lies in `mask`, masking the occupancy
/// changes nothing about what the ray reaches.
proof fn lemma_ray_blockers(occ: u64, mask: u64, sq: int, df: int, dr: int)
    requires
        0 <= sq < 64,
        dir_ok(df, dr),
        forall|k: int, j: int|
            #![trigger ray_on_board(sq, df, dr, k), ray_sq(sq, df, dr, j)]
            1 <= j < k && ray_on_board(sq, df, dr, k) ==> bb_has(mask, ray_sq(sq, df, dr, j)),
    ensures
        forall|t: int|
            #[trigger] ray_reaches(occ & mask, sq, df, dr, t) <==> ray_reaches(occ, sq, df, dr, t),
{
    lemma_bb_ops();
    assert forall|t: int|
        #[trigger] ray_reaches(occ & mask, sq, df, dr, t) <==> ray_reaches(occ, sq, df, dr, t) by {
        if ray_reaches(occ & mask, sq, df, dr, t) {
            let k = choose|k: int|
                1 <= k && #[trigger] ray_on_board(sq, df, dr, k) && t == ray_sq(sq, df, dr, k) && (
                forall|j: int| 1 <= j < k ==> !bb_has(occ & mask, #[trigger] ray_sq(sq, df, dr, j)));
            assert forall|j: int| 1 <= j < k implies !bb_has(occ, #[trigger] ray_sq(sq, df, dr, j)) by {
                assert(bb_has(mask, ray_sq(sq, df, dr, j)));
                assert(!bb_has(occ & mask, ray_sq(sq, df, dr, j)));
            }
            assert(1 <= k && ray_on_board(sq, df, dr, k) && t == ray_sq(sq, df, dr, k) && (forall|
                j: int,
            | 1 <= j < k ==> !bb_has(occ, #[trigger] ray_sq(sq, df, dr, j))));
        }
        if ray_reaches(occ, sq, df, dr, t) {
            let k = choose|k: int|
                1 <= k && #[trigger] ray_on_board(sq, df, dr, k) && t == ray_sq(sq, df, dr, k) && (
                forall|j: int| 1 <= j < k ==> !bb_has(occ, #[trigger] ray_sq(sq, df, dr, j)));
            assert forall|j: int|
                1 <= j < k implies !bb_has(occ & mask, #[trigger] ray_sq(sq, df, dr, j)) by {
                assert(!bb_has(occ, ray_sq(sq, df, dr, j)));
            }
            assert(1 <= k && ray_on_board(sq, df, dr, k) && t == ray_sq(sq, df, dr, k) && (forall|
                j: int,
            | 1 <= j < k ==> !bb_has(occ & mask, #[trigger] ray_sq(sq, df, dr, j))));
        }
    }
}

/// For a rook or bishop ray direction, every strictly intermediate
/// square of the ray from `sq` satisfies the given mask predicate.
proof fn lemma_dir_intermediates_in_mask(sq: int, mask: u64, df: int, dr: int, rook: bool)
    requires
        0 <= sq < 64,
        dir_ok(df, dr),
        rook ==> (df == 0 || dr == 0) && (forall|t: int|
            #[trigger] bb_has(mask, t) <==> rook_mask_sq(sq, t)),
        !rook ==> (df != 0 && dr != 0) && (forall|t: int|
            #[trigger] bb_has(mask, t) <==> bishop_mask_sq(sq, t)),
    ensures
        forall|k: int, j: int|
            #![trigger ray_on_board(sq, df, dr, k), ray_sq(sq, df, dr, j)]
            1 <= j < k && ray_on_board(sq, df, dr, k) ==> bb_has(mask, ray_sq(sq, df, dr, j)),
{
    assert forall|k: int, j: int|
        #![trigger ray_on_board(sq, df, dr, k), ray_sq(sq, df, dr, j)]
        1 <= j < k && ray_on_board(sq, df, dr, k) implies bb_has(mask, ray_sq(sq, df, dr, j)) by {
        lemma_unit_mul(k, df);
        lemma_unit_mul(k, dr);
        lemma_unit_mul(j, df);
        lemma_unit_mul(j, dr);
        lemma_sq_split(sq_rank(sq) + j * dr, sq_file(sq) + j * df);
        assert(sq == 8 * sq_rank(sq) + sq_file(sq));
        if rook {
            assert(rook_mask_sq(sq, ray_sq(sq, df, dr, j)));
        } else {
            assert(bishop_mask_sq(sq, ray_sq(sq, df, dr, j)));
        }
    }
}

/// The strictly intermediate squares of every rook ray from `sq` lie in
/// the rook's relevant-occupancy mask, so masking occupancy with it keeps
/// the reachable set unchanged.
pub proof fn lemma_rook_blockers(sq: int, mask: u64, occ: u64)
    requires
        0 <= sq < 64,
        forall|t: int| #[trigger] bb_has(mask, t) <==> rook_mask_sq(sq, t),
    ensures
        forall|t: int| #[trigger] rook_reaches(occ & mask, sq, t) <==> rook_reaches(occ, sq, t),
{
    lemma_dir_intermediates_in_mask(sq, mask, 1, 0, true);
    lemma_dir_intermediates_in_mask(sq, mask, -1, 0, true);
    lemma_dir_intermediates_in_mask(sq, mask, 0, 1, true);
    lemma_dir_intermediates_in_mask(sq, mask, 0, -1, true);
    lemma_ray_blockers(occ, mask, sq, 1, 0);
    lemma_ray_blockers(occ, mask, sq, -1, 0);
    lemma_ray_blockers(occ, mask, sq, 0, 1);
    lemma_ray_blockers(occ, mask, sq, 0, -1);
}

/// The strictly intermediate squares of every bishop ray from `sq` lie in
/// the bishop's relevant-occupancy mask, so masking occupancy with it
/// keeps the reachable set unchanged.
pub proof fn lemma_bishop_blockers(sq: int, mask: u64, occ: u64)
    requires
        0 <= sq < 64,
        forall|t: int| #[trigger] bb_has(mask, t) <==> bishop_mask_sq(sq, t),
    ensures
        forall|t: int| #[trigger] bishop_reaches(occ & mask, sq, t) <==> bishop_reaches(occ, sq, t),
{
    lemma_dir_intermediates_in_mask(sq, mask, 1, 1, false);
    lemma_dir_intermediates_in_mask(sq, mask, 1, -1, false);
    lemma_dir_intermediates_in_mask(sq, mask, -1, 1, false);
    lemma_dir_intermediates_in_mask(sq, mask, -1, -1, false);
    lemma_ray_blockers(occ, mask, sq, 1, 1);
    lemma_ray_blockers(occ, mask, sq, 1, -1);
    lemma_ray_blockers(occ, mask, sq, -1, 1);
    lemma_ray_blockers(occ, mask, sq, -1, -1);
}

/// One xorshift round of the magic-candidate generator.
pub open spec fn xorshift_step(x: u64) -> u64 {
    let a = x ^ (x >> 12u64);
    let b = a ^ (a << 25u64);
    b ^ (b >> 27u64)
}

/// A deterministic, seedable pseudo-random generator for magic-constant
/// discovery: 64-bit xorshift state with a final multiplicative mix.
pub struct XorShift {
    pub state: u64,
}

impl XorShift {
    /// A generator with the given state; the seed must be nonzero, since
    /// xorshift fixes zero forever.
    pub fn new(seed: u64) -> (r: Self)
        ensures
            r.state == seed,
    {
        XorShift { state: seed }
    }

    /// Draws the next candidate and advances the state.
    pub fn next_value(&mut self) -> (r: u64)
        ensures
            final(self).state == xorshift_step(old(self).state),
            r == ((xorshift_step(old(self).state) * 0x2545F4914F6CDD1D) % 0x10000000000000000)
                as u64,
    {
        let mut x = self.state;
        x = x ^ (x >> 12);
        x = x ^ (x << 25);
        x = x ^ (x >> 27);
        self.state = x;
        x.wrapping_mul(0x2545F4914F6CDD1D)
    }
}

/// The multiplicative mix a drawn state is put through.
pub open spec fn magic_mix(s: u64) -> u64 {
    ((s * 0x2545F4914F6CDD1D) % 0x10000000000000000) as u64
}

/// One discovery attempt's candidate: the AND of three consecutive mixed
/// draws, biasing toward sparse bit patterns.
pub open spec fn magic_candidate(x: u64) -> u64 {
    (magic_mix(xorshift_step(x)) & magic_mix(xorshift_step(xorshift_step(x)))) & magic_mix(
        xorshift_step(xorshift_step(xorshift_step(x))),
    )
}

/// The generator state before the k-th discovery attempt: each attempt
/// advances the state three times.
pub open spec fn nth_state(x: u64, k: nat) -> u64
    decreases k,
{
    if k == 0 {
        x
    } else {
        xorshift_step(xorshift_step(xorshift_step(nth_state(x, (k - 1) as nat))))
    }
}

/// Searches for a rook magic for mask `bb`, drawing sparse candidates
/// from `rng`; gives up after `tries` attempts so that the search
/// provably terminates. Success hands back a passing candidate from the
/// attempt stream; failure certifies that no drawn candidate passed.
pub fn find_magic_rook(bb: u64, rng: &mut XorShift, tries: u32) -> (r: Option<u64>)
    ensures
        r matches Some(m) ==> pop_count(bb) <= 12 && magic_ok(bb, m, 52) && (exists|k: int|
            0 <= k < tries && m == #[trigger] magic_candidate(nth_state(old(rng).state, k as nat))),
        r is None ==> forall|k: int|
            0 <= k < tries ==> !(pop_count(bb) <= 12 && magic_ok(
                bb,
                #[trigger] magic_candidate(nth_state(old(rng).state, k as nat)),
                52,
            )),
{
    let mut i: u32 = 0;
    while i < tries
        invariant
            i <= tries,
            rng.state == nth_state(old(rng).state, i as nat),
            forall|k: int|
                0 <= k < i ==> !(pop_count(bb) <= 12 && magic_ok(
                    bb,
                    #[trigger] magic_candidate(nth_state(old(rng).state, k as nat)),
                    52,
                )),
        decreases tries - i,
    {
        let ghost s0 = rng.state;
        let d1 = rng.next_value();
        let d2 = rng.next_value();
        let d3 = rng.next_value();
        let possible_magic = d1 & d2 & d3;
        proof {
            assert(possible_magic == magic_candidate(s0));
            assert(rng.state == nth_state(old(rng).state, (i + 1) as nat));
        }
        if check_magic(bb, possible_magic, 12) {
            proof {
                assert(possible_magic == magic_candidate(nth_state(old(rng).state, i as nat)));
            }
            return Some(possible_magic);
        }
        i += 1;
    }
    None
}

/// Searches for a bishop magic for mask `bb`, drawing sparse candidates
/// from `rng`; gives up after `tries` attempts so that the search
/// provably terminates. Success hands back a passing candidate from the
/// attempt stream; failure certifies that no drawn candidate passed.
pub fn find_magic_bishop(bb: u64, rng: &mut XorShift, tries: u32) -> (r: Option<u64>)
    ensures
        r matches Some(m) ==> pop_count(bb) <= 9 && magic_ok(bb, m, 55) && (exists|k: int|
            0 <= k < tries && m == #[trigger] magic_candidate(nth_state(old(rng).state, k as nat))),
        r is None ==> forall|k: int|
            0 <= k < tries ==> !(pop_count(bb) <= 9 && magic_ok(
                bb,
                #[trigger] magic_candidate(nth_state(old(rng).state, k as nat)),
                55,
            )),
{
    let mut i: u32 = 0;
    while i < tries
        invariant
            i <= tries,
            rng.state == nth_state(old(rng).state, i as nat),
            forall|k: int|
                0 <= k < i ==> !(pop_count(bb) <= 9 && magic_ok(
                    bb,
                    #[trigger] magic_candidate(nth_state(old(rng).state, k as nat)),
                    55,
                )),
        decreases tries - i,
    {
        let ghost s0 = rng.state;
        let d1 = rng.next_value();
        let d2 = rng.next_value();
        let d3 = rng.next_value();
        let possible_magic = d1 & d2 & d3;
        proof {
            assert(possible_magic == magic_candidate(s0));
            assert(rng.state == nth_state(old(rng).state, (i + 1) as nat));
        }
        if check_magic(bb, possible_magic, 9) {
            proof {
                assert(possible_magic == magic_candidate(nth_state(old(rng).state, i as nat)));
            }
            return Some(possible_magic);
        }
        i += 1;
    }
    None
}

/// The shipped rook magic constants, square by square.
pub open spec fn rook_magic_seq() -> Seq<u64> {
    seq![
        0x80004001802010, 0x1040100140022008, 0x80182000809000, 0x180180080251000,
        0x200020088042010, 0xc00900220040008, 0x2480010006000880, 0xa00040200402081,
        0x2800020400088, 0x6109004002802100, 0xa00801000200080, 0x803800802801000,
        0x800800240180, 0x12800600800401, 0x11000411002200, 0x1092000844148102,
        0x2000808000400020, 0x1081210040018108, 0x430002004080062, 0x40040a0020120040,
        0x4621808004010800, 0x422008002040080, 0x3020140012100108, 0xa0021004084,
        0x400080022484, 0x404802100400102, 0x51050041002002b2, 0x200100100200901,
        0x5280100041100, 0x801001900040082, 0xe0400887003, 0x400018a20000c407,
        0x420082002500, 0x4320822000804001, 0x10200080805000, 0x441000821001000,
        0xb140040080803800, 0x4000440080804600, 0x229004000108, 0xb8040052000081,
        0x2200208040008011, 0x820902420021, 0x400410020090010, 0x8010000800108080,
        0x3350028010010, 0xc002000804420050, 0x1081042040081, 0x4082208449020004,
        0x800020c00080, 0x840400221009100, 0x10100c010200900, 0x9070801000480080,
        0x8442801401280080, 0x1000834000300, 0x28060004980b0200, 0x8043042180d200,
        0x1000410020108001, 0x2104008802101, 0x2000401120004901, 0x80201000090005,
        0xc2010820101402, 0xa0490088020c0005, 0x3023000200018413, 0x80000b8046210402,
    ]
}

/// The shipped bishop magic constants, square by square.
pub open spec fn bishop_magic_seq() -> Seq<u64> {
    seq![
        0x6400248061520c0, 0x2028100122112320, 0x6110010a08201000, 0x6008194108008100,
        0x219104000020000, 0x144901008000a48, 0x2804012818940800, 0x10221011001a000,
        0x1108108202080624, 0x4100202812208030, 0x846100102102008, 0x880845000000,
        0x800040421800148, 0x2840a3004200222, 0x800410410c001, 0xd01106098141000,
        0x4c08007022089810, 0x6008001010128aa0, 0x10086905020890, 0x4001840112000,
        0x1200885400a00500, 0x110600008a012020, 0x2080889104101228, 0x2090042008400,
        0x40e1100005040816, 0x284100420020180, 0x2441001060a2040, 0xa08080068220020,
        0x2140840002020201, 0x10008101029084, 0x11111486009000, 0x1020063044100,
        0x1044090600840, 0x1420120a0104214, 0x822002a10340800, 0x6074910800040240,
        0x1040004110110100, 0x38500a1020020080, 0x12020040040421, 0x1210840040028208,
        0x1082012414c00, 0x810c010708801081, 0x12050041000802, 0x2148106019000800,
        0x8000250122004400, 0x2104200200200, 0x8102900c80200, 0x1118008900c84200,
        0x8080942420040800, 0x26004208050802, 0x886102209500020, 0x2818700620981800,
        0x30002a020410100, 0x120009200c042000, 0x4008021002020112, 0x6200a0081010000,
        0x8c340202022006, 0x1028032401281801, 0xa00044240400, 0x1022680000608808,
        0x810200220c104402, 0x5000004110044120, 0x320309010048980, 0x620200102002140,
    ]
}

/// The rook relevant-occupancy mask of a square, as a value, accumulated
/// bit by bit from `rook_mask_sq`.
pub open spec fn rook_mask_acc(sq: int, p: int) -> u64
    decreases 64 - p,
{
    if p < 0 || p >= 64 {
        0
    } else {
        (if rook_mask_sq(sq, p) {
            1u64 << (p as u64)
        } else {
            0
        }) | rook_mask_acc(sq, p + 1)
    }
}

/// The rook relevant-occupancy mask of a square, as a value.
pub open spec fn rook_mask_val(sq: int) -> u64 {
    rook_mask_acc(sq, 0)
}

/// The bishop relevant-occupancy mask of a square, accumulated bit by bit.
pub open spec fn bishop_mask_acc(sq: int, p: int) -> u64
    decreases 64 - p,
{
    if p < 0 || p >= 64 {
        0
    } else {
        (if bishop_mask_sq(sq, p) {
            1u64 << (p as u64)
        } else {
            0
        }) | bishop_mask_acc(sq, p + 1)
    }
}

/// The bishop relevant-occupancy mask of a square, as a value.
pub open spec fn bishop_mask_val(sq: int) -> u64 {
    bishop_mask_acc(sq, 0)
}

/// What the accumulated rook mask holds: exactly the mask members at or
/// above the accumulation point.
proof fn lemma_rook_mask_acc(sq: int, p: int)
    requires
        0 <= p,
    ensures
        forall|t: int|
            #[trigger] bb_has(rook_mask_acc(sq, p), t) <==> (t >= p && rook_mask_sq(sq, t)),
    decreases 64 - p,
{
    lemma_bb_ops();
    if 0 <= p < 64 {
        lemma_rook_mask_acc(sq, p + 1);
        assert forall|t: int|
            #[trigger] bb_has(rook_mask_acc(sq, p), t) <==> (t >= p && rook_mask_sq(sq, t)) by {
            if rook_mask_sq(sq, p) {
                assert(rook_mask_acc(sq, p) == (1u64 << (p as u64)) | rook_mask_acc(sq, p + 1));
                assert(bb_has((1u64 << (p as u64)) | rook_mask_acc(sq, p + 1), t) <==> (bb_has(
                    1u64 << (p as u64),
                    t,
                ) || bb_has(rook_mask_acc(sq, p + 1), t)));
            } else {
                assert(rook_mask_acc(sq, p) == 0u64 | rook_mask_acc(sq, p + 1));
                assert(bb_has(0u64 | rook_mask_acc(sq, p + 1), t) <==> (bb_has(0u64, t) || bb_has(
                    rook_mask_acc(sq, p + 1),
                    t,
                )));
            }
        }
    } else {
        assert forall|t: int|
            #[trigger] bb_has(rook_mask_acc(sq, p), t) <==> (t >= p && rook_mask_sq(sq, t)) by {
            if p >= 64 {
                assert(!(0 <= t < 64 && t >= p));
            }
        }
    }
}

/// What the accumulated bishop mask holds.
proof fn lemma_bishop_mask_acc(sq: int, p: int)
    requires
        0 <= p,
    ensures
        forall|t: int|
            #[trigger] bb_has(bishop_mask_acc(sq, p), t) <==> (t >= p && bishop_mask_sq(sq, t)),
    decreases 64 - p,
{
    lemma_bb_ops();
    if 0 <= p < 64 {
        lemma_bishop_mask_acc(sq, p + 1);
        assert forall|t: int|
            #[trigger] bb_has(bishop_mask_acc(sq, p), t) <==> (t >= p && bishop_mask_sq(sq, t)) by {
            if bishop_mask_sq(sq, p) {
                assert(bishop_mask_acc(sq, p) == (1u64 << (p as u64)) | bishop_mask_acc(sq, p + 1));
                assert(bb_has((1u64 << (p as u64)) | bishop_mask_acc(sq, p + 1), t) <==> (bb_has(
                    1u64 << (p as u64),
                    t,
                ) || bb_has(bishop_mask_acc(sq, p + 1), t)));
            } else {
                assert(bishop_mask_acc(sq, p) == 0u64 | bishop_mask_acc(sq, p + 1));
                assert(bb_has(0u64 | bishop_mask_acc(sq, p + 1), t) <==> (bb_has(0u64, t) || bb_has(
                    bishop_mask_acc(sq, p + 1),
                    t,
                )));
            }
        }
    } else {
        assert forall|t: int|
            #[trigger] bb_has(bishop_mask_acc(sq, p), t) <==> (t >= p && bishop_mask_sq(sq, t)) by {
            if p >= 64 {
                assert(!(0 <= t < 64 && t >= p));
            }
        }
    }
}

/// A word with exactly the rook mask's members is the rook mask value.
pub proof fn lemma_rook_mask_val(sq: int, m: u64)
    requires
        forall|t: int| #[trigger] bb_has(m, t) <==> rook_mask_sq(sq, t),
    ensures
        m == rook_mask_val(sq),
{
    lemma_rook_mask_acc(sq, 0);
    lemma_bb_ext(m, rook_mask_val(sq));
}

/// A word with exactly the bishop mask's members is the bishop mask value.
pub proof fn lemma_bishop_mask_val(sq: int, m: u64)
    requires
        forall|t: int| #[trigger] bb_has(m, t) <==> bishop_mask_sq(sq, t),
    ensures
        m == bishop_mask_val(sq),
{
    lemma_bishop_mask_acc(sq, 0);
    lemma_bb_ext(m, bishop_mask_val(sq));
}

/// Every shipped magic constant is collision-free for its square's mask:
/// exactly the condition under which the tables build.
pub open spec fn shipped_magics_ok() -> bool {
    forall|sq: int|
        0 <= sq < 64 ==> (#[trigger] pop_count(rook_mask_val(sq)) <= 12 && magic_ok(
            rook_mask_val(sq),
            rook_magic_seq()[sq],
            52,
        ) && pop_count(bishop_mask_val(sq)) <= 9 && magic_ok(
            bishop_mask_val(sq),
            bishop_magic_seq()[sq],
            55,
        ))
}

/// Previously discovered rook magic constants, one per square. Nothing is
/// assumed of them: table construction re-checks each for collision
/// freedom at run time.
pub fn rook_magics_list() -> (v: Vec<u64>)
    ensures
        v@ == rook_magic_seq(),
        v.len() == 64,
{
    vec![
        0x80004001802010, 0x1040100140022008, 0x80182000809000, 0x180180080251000,
        0x200020088042010, 0xc00900220040008, 0x2480010006000880, 0xa00040200402081,
        0x2800020400088, 0x6109004002802100, 0xa00801000200080, 0x803800802801000,
        0x800800240180, 0x12800600800401, 0x11000411002200, 0x1092000844148102,
        0x2000808000400020, 0x1081210040018108, 0x430002004080062, 0x40040a0020120040,
        0x4621808004010800, 0x422008002040080, 0x3020140012100108, 0xa0021004084,
        0x400080022484, 0x404802100400102, 0x51050041002002b2, 0x200100100200901,
        0x5280100041100, 0x801001900040082, 0xe0400887003, 0x400018a20000c407,
        0x420082002500, 0x4320822000804001, 0x10200080805000, 0x441000821001000,
        0xb140040080803800, 0x4000440080804600, 0x229004000108, 0xb8040052000081,
        0x2200208040008011, 0x820902420021, 0x400410020090010, 0x8010000800108080,
        0x3350028010010, 0xc002000804420050, 0x1081042040081, 0x4082208449020004,
        0x800020c00080, 0x840400221009100, 0x10100c010200900, 0x9070801000480080,
        0x8442801401280080, 0x1000834000300, 0x28060004980b0200, 0x8043042180d200,
        0x1000410020108001, 0x2104008802101, 0x2000401120004901, 0x80201000090005,
        0xc2010820101402, 0xa0490088020c0005, 0x3023000200018413, 0x80000b8046210402,
    ]
}

/// Previously discovered bishop magic constants, one per square; as
/// `rook_magics_list`, re-checked at run time.
pub fn bishop_magics_list() -> (v: Vec<u64>)
    ensures
        v@ == bishop_magic_seq(),
        v.len() == 64,
{
    vec![
        0x6400248061520c0, 0x2028100122112320, 0x6110010a08201000, 0x6008194108008100,
        0x219104000020000, 0x144901008000a48, 0x2804012818940800, 0x10221011001a000,
        0x1108108202080624, 0x4100202812208030, 0x846100102102008, 0x880845000000,
        0x800040421800148, 0x2840a3004200222, 0x800410410c001, 0xd01106098141000,
        0x4c08007022089810, 0x6008001010128aa0, 0x10086905020890, 0x4001840112000,
        0x1200885400a00500, 0x110600008a012020, 0x2080889104101228, 0x2090042008400,
        0x40e1100005040816, 0x284100420020180, 0x2441001060a2040, 0xa08080068220020,
        0x2140840002020201, 0x10008101029084, 0x11111486009000, 0x1020063044100,
        0x1044090600840, 0x1420120a0104214, 0x822002a10340800, 0x6074910800040240,
        0x1040004110110100, 0x38500a1020020080, 0x12020040040421, 0x1210840040028208,
        0x1082012414c00, 0x810c010708801081, 0x12050041000802, 0x2148106019000800,
        0x8000250122004400, 0x2104200200200, 0x8102900c80200, 0x1118008900c84200,
        0x8080942420040800, 0x26004208050802, 0x886102209500020, 0x2818700620981800,
        0x30002a020410100, 0x120009200c042000, 0x4008021002020112, 0x6200a0081010000,
        0x8c340202022006, 0x1028032401281801, 0xa00044240400, 0x1022680000608808,
        0x810200220c104402, 0x5000004110044120, 0x320309010048980, 0x620200102002140,
    ]
}

/// All the precomputed lookup data: leaper tables, relevant-occupancy
/// masks, magic constants and the filled magic attack tables. Built once,
/// then read only.
pub struct Tables {
    pub knight: Vec<u64>,
    pub king: Vec<u64>,
    pub w_pawn_pushes: Vec<u64>,
    pub b_pawn_pushes: Vec<u64>,
    pub w_pawn_doubles: Vec<u64>,
    pub b_pawn_doubles: Vec<u64>,
    pub w_pawn_caps: Vec<u64>,
    pub b_pawn_caps: Vec<u64>,
    pub rook_masks: Vec<u64>,
    pub bishop_masks: Vec<u64>,
    pub rook_magics: Vec<u64>,
    pub bishop_magics: Vec<u64>,
    pub rook_moves: Vec<Vec<u64>>,
    pub bishop_moves: Vec<Vec<u64>>,
}

impl Tables {
    /// Every table has its 64 entries, every leaper entry holds exactly
    /// the squares its piece reaches, every mask is the piece's
    /// relevant-occupancy mask, and every magic-table lookup under a
    /// subset of the mask gives exactly the ray-cast reachable set.
    pub open spec fn wf(self) -> bool {
        &&& self.knight@.len() == 64
        &&& self.king@.len() == 64
        &&& self.w_pawn_pushes@.len() == 64
        &&& self.b_pawn_pushes@.len() == 64
        &&& self.w_pawn_doubles@.len() == 64
        &&& self.b_pawn_doubles@.len() == 64
        &&& self.w_pawn_caps@.len() == 64
        &&& self.b_pawn_caps@.len() == 64
        &&& self.rook_masks@.len() == 64
        &&& self.bishop_masks@.len() == 64
        &&& self.rook_magics@.len() == 64
        &&& self.bishop_magics@.len() == 64
        &&& self.rook_moves@.len() == 64
        &&& self.bishop_moves@.len() == 64
        &&& forall|i: int, t: int|
            0 <= i < 64 ==> (#[trigger] bb_has(self.knight@[i], t) <==> knight_reaches(i, t))
        &&& forall|i: int, t: int|
            0 <= i < 64 ==> (#[trigger] bb_has(self.king@[i], t) <==> king_reaches(i, t))
        &&& forall|i: int, t: int|
            0 <= i < 64 ==> (#[trigger] bb_has(self.w_pawn_pushes@[i], t) <==> pawn_push_reaches(
                Color::White,
                i,
                t,
            ))
        &&& forall|i: int, t: int|
            0 <= i < 64 ==> (#[trigger] bb_has(self.b_pawn_pushes@[i], t) <==> pawn_push_reaches(
                Color::Black,
                i,
                t,
            ))
        &&& forall|i: int, t: int|
            0 <= i < 64 ==> (#[trigger] bb_has(self.w_pawn_doubles@[i], t) <==> pawn_double_reaches(
                Color::White,
                i,
                t,
            ))
        &&& forall|i: int, t: int|
            0 <= i < 64 ==> (#[trigger] bb_has(self.b_pawn_doubles@[i], t) <==> pawn_double_reaches(
                Color::Black,
                i,
                t,
            ))
        &&& forall|i: int, t: int|
            0 <= i < 64 ==> (#[trigger] bb_has(self.w_pawn_caps@[i], t) <==> pawn_cap_reaches(
                Color::White,
                i,
                t,
            ))
        &&& forall|i: int, t: int|
            0 <= i < 64 ==> (#[trigger] bb_has(self.b_pawn_caps@[i], t) <==> pawn_cap_reaches(
                Color::Black,
                i,
                t,
            ))
        &&& forall|i: int, t: int|
            0 <= i < 64 ==> (#[trigger] bb_has(self.rook_masks@[i], t) <==> rook_mask_sq(i, t))
        &&& forall|i: int, t: int|
            0 <= i < 64 ==> (#[trigger] bb_has(self.bishop_masks@[i], t) <==> bishop_mask_sq(i, t))
        &&& forall|sq: int| 0 <= sq < 64 ==> (#[trigger] self.rook_moves@[sq]@.len()) == 4096
        &&& forall|sq: int| 0 <= sq < 64 ==> (#[trigger] self.bishop_moves@[sq]@.len()) == 512
        &&& forall|sq: int, s: u64, q: int|
            0 <= sq < 64 && s & self.rook_masks@[sq] == s ==> (#[trigger] bb_has(
                slider_entry(self.rook_moves@[sq]@, s, self.rook_magics@[sq], 52),
                q,
            ) <==> rook_reaches(s, sq, q))
        &&& forall|sq: int, s: u64, q: int|
            0 <= sq < 64 && s & self.bishop_masks@[sq] == s ==> (#[trigger] bb_has(
                slider_entry(self.bishop_moves@[sq]@, s, self.bishop_magics@[sq], 55),
                q,
            ) <==> bishop_reaches(s, sq, q))
    }

    /// Builds every table from scratch, using the shipped magic
    /// constants. Each constant is re-checked for collision freedom, so
    /// construction succeeds exactly when every shipped constant is good.
    #[verifier::rlimit(100)]
    pub fn new() -> (r: Option<Tables>)
        ensures
            r is Some <==> shipped_magics_ok(),
            r matches Some(t) ==> t.wf(),
    {
        let knight = knight_table();
        let king = king_table();
        let w_pawn_pushes = pawn_push_table(Color::White);
        let b_pawn_pushes = pawn_push_table(Color::Black);
        let w_pawn_doubles = pawn_double_push_table(Color::White);
        let b_pawn_doubles = pawn_double_push_table(Color::Black);
        let w_pawn_caps = pawn_cap_table(Color::White);
        let b_pawn_caps = pawn_cap_table(Color::Black);
        let rook_masks = gen_rook_potential_moves();
        let bishop_masks = gen_bishop_potential_moves();
        let rook_magics = rook_magics_list();
        let bishop_magics = bishop_magics_list();
        let mut rook_moves: Vec<Vec<u64>> = Vec::new();
        let mut bishop_moves: Vec<Vec<u64>> = Vec::new();
        let mut sq: u64 = 0;
        while sq < 64
            invariant
                sq <= 64,
                rook_moves@.len() == sq,
                bishop_moves@.len() == sq,
                rook_masks@.len() == 64,
                bishop_masks@.len() == 64,
                rook_magics@ == rook_magic_seq(),
                bishop_magics@ == bishop_magic_seq(),
                rook_magics@.len() == 64,
                bishop_magics@.len() == 64,
                forall|i: int, t: int|
                    0 <= i < 64 ==> (#[trigger] bb_has(rook_masks@[i], t) <==> rook_mask_sq(i, t)),
                forall|i: int, t: int|
                    0 <= i < 64 ==> (#[trigger] bb_has(bishop_masks@[i], t) <==> bishop_mask_sq(
                        i,
                        t,
                    )),
                forall|j: int|
                    0 <= j < sq ==> (#[trigger] pop_count(rook_mask_val(j)) <= 12 && magic_ok(
                        rook_mask_val(j),
                        rook_magic_seq()[j],
                        52,
                    ) && pop_count(bishop_mask_val(j)) <= 9 && magic_ok(
                        bishop_mask_val(j),
                        bishop_magic_seq()[j],
                        55,
                    )),
                forall|j: int| 0 <= j < sq ==> (#[trigger] rook_moves@[j]@.len()) == 4096,
                forall|j: int| 0 <= j < sq ==> (#[trigger] bishop_moves@[j]@.len()) == 512,
                forall|j: int, s: u64, q: int|
                    0 <= j < sq && s & rook_masks@[j] == s ==> (#[trigger] bb_has(
                        slider_entry(rook_moves@[j]@, s, rook_magics@[j], 52),
                        q,
                    ) <==> rook_reaches(s, j, q)),
                forall|j: int, s: u64, q: int|
                    0 <= j < sq && s & bishop_masks@[j] == s ==> (#[trigger] bb_has(
                        slider_entry(bishop_moves@[j]@, s, bishop_magics@[j], 55),
                        q,
                    ) <==> bishop_reaches(s, j, q)),
            decreases 64 - sq,
        {
            let rmask = rook_masks[sq as usize];
            let rmagic = rook_magics[sq as usize];
            proof {
                lemma_rook_mask_val(sq as int, rmask);
            }
            if !check_magic(rmask, rmagic, 12) {
                proof {
                    assert(!(pop_count(rook_mask_val(sq as int)) <= 12 && magic_ok(
                        rook_mask_val(sq as int),
                        rook_magic_seq()[sq as int],
                        52,
                    )));
                    assert(!shipped_magics_ok());
                }
                return None;
            }
            let rt = fill_magic_table_rook(rmagic, sq, rmask);
            rook_moves.push(rt);
            let bmask = bishop_masks[sq as usize];
            let bmagic = bishop_magics[sq as usize];
            proof {
                lemma_bishop_mask_val(sq as int, bmask);
            }
            if !check_magic(bmask, bmagic, 9) {
                proof {
                    assert(!(pop_count(bishop_mask_val(sq as int)) <= 9 && magic_ok(
                        bishop_mask_val(sq as int),
                        bishop_magic_seq()[sq as int],
                        55,
                    )));
                    assert(!shipped_magics_ok());
                }
                return None;
            }
            let bt = fill_magic_table_bshop(bmagic, sq, bmask);
            bishop_moves.push(bt);
            sq += 1;
        }
        proof {
            assert(shipped_magics_ok());
        }
        Some(
            Tables {
                knight,
                king,
                w_pawn_pushes,
                b_pawn_pushes,
                w_pawn_doubles,
                b_pawn_doubles,
                w_pawn_caps,
                b_pawn_caps,
                rook_masks,
                bishop_masks,
                rook_magics,
                bishop_magics,
                rook_moves,
                bishop_moves,
            },
        )
    }

    /// Looks up the squares the rook on the lowest square of `rook_bb`
    /// reaches across occupancy `pieces`, through the magic hash.
    pub fn get_rook_moves(&self, rook_bb: BB, pieces: BB) -> (r: BB)
        requires
            self.wf(),
            rook_bb.0 != 0,
        ensures
            forall|t: int|
                #[trigger] bb_has(r.0, t) <==> rook_reaches(
                    pieces.0,
                    vstd::std_specs::bits::u64_trailing_zeros(rook_bb.0) as int,
                    t,
                ),
    {
        proof {
            crate::bits::lemma_bb_lowest(rook_bb.0);
        }
        let idx = rook_bb.as_idx();
        let sqi = idx.0 as usize;
        let mask = self.rook_masks[sqi];
        let magic = self.rook_magics[sqi];
        let blockers = pieces.0 & mask;
        let garbage = blockers.wrapping_mul(magic);
        let mi_u = garbage >> 52;
        proof {
            assert(garbage == ((blockers * magic) % 0x10000000000000000) as u64);
            assert(mi_u < 4096) by (bit_vector)
                requires mi_u == garbage >> 52;
        }
        let mi = mi_u as usize;
        proof {
            assert(mi == magic_index(blockers, magic, 52));
            lemma_magic_index_bound(blockers, magic);
            let p = pieces.0;
            assert(blockers & mask == blockers) by (bit_vector)
                requires blockers == p & mask;
            lemma_rook_blockers(sqi as int, mask, pieces.0);
        }
        let row = &self.rook_moves[sqi];
        let e = row[mi];
        proof {
            assert(e == slider_entry(self.rook_moves@[sqi as int]@, blockers, magic, 52));
            assert forall|t: int|
                bb_has(e, t) <==> rook_reaches(pieces.0, sqi as int, t) by {
                assert(bb_has(slider_entry(self.rook_moves@[sqi as int]@, blockers, magic, 52), t)
                    <==> rook_reaches(blockers, sqi as int, t));
                assert(rook_reaches(pieces.0 & mask, sqi as int, t) <==> rook_reaches(
                    pieces.0,
                    sqi as int,
                    t,
                ));
            }
        }
        BB(e)
    }

    /// Looks up the squares the bishop on the lowest square of `bishop_bb`
    /// reaches across occupancy `pieces`, through the magic hash.
    pub fn get_bishop_moves(&self, bishop_bb: BB, pieces: BB) -> (r: BB)
        requires
            self.wf(),
            bishop_bb.0 != 0,
        ensures
            forall|t: int|
                #[trigger] bb_has(r.0, t) <==> bishop_reaches(
                    pieces.0,
                    vstd::std_specs::bits::u64_trailing_zeros(bishop_bb.0) as int,
                    t,
                ),
    {
        proof {
            crate::bits::lemma_bb_lowest(bishop_bb.0);
        }
        let idx = bishop_bb.as_idx();
        let sqi = idx.0 as usize;
        let mask = self.bishop_masks[sqi];
        let magic = self.bishop_magics[sqi];
        let blockers = pieces.0 & mask;
        let garbage = blockers.wrapping_mul(magic);
        let mi_u = garbage >> 55;
        proof {
            assert(garbage == ((blockers * magic) % 0x10000000000000000) as u64);
            assert(mi_u < 4096) by (bit_vector)
                requires mi_u == garbage >> 55;
        }
        let mi = mi_u as usize;
        proof {
            assert(mi == magic_index(blockers, magic, 55));
            lemma_magic_index_bound(blockers, magic);
            let p = pieces.0;
            assert(blockers & mask == blockers) by (bit_vector)
                requires blockers == p & mask;
            lemma_bishop_blockers(sqi as int, mask, pieces.0);
        }
        let row = &self.bishop_moves[sqi];
        let e = row[mi];
        proof {
            assert(e == slider_entry(self.bishop_moves@[sqi as int]@, blockers, magic, 55));
            assert forall|t: int|
                bb_has(e, t) <==> bishop_reaches(pieces.0, sqi as int, t) by {
                assert(bb_has(slider_entry(self.bishop_moves@[sqi as int]@, blockers, magic, 55), t)
                    <==> bishop_reaches(blockers, sqi as int, t));
                assert(bishop_reaches(pieces.0 & mask, sqi as int, t) <==> bishop_reaches(
                    pieces.0,
                    sqi as int,
                    t,
                ));
            }
        }
        BB(e)
    }
}

} // verus!
