//! Board geometry: wall masks and directional shifts of whole bitboards
//! that drop, rather than wrap, anything pushed over the board's edge.

use vstd::prelude::*;
use crate::bits::{bb_has, sq_file, sq_rank};

verus! {

/// File h.
pub const WALL_RIGHT: u64 = 0x8080808080808080;

/// File a.
pub const WALL_LEFT: u64 = 0x101010101010101;

/// Rank 8.
pub const WALL_UP: u64 = 0xff00000000000000;

/// Rank 1.
pub const WALL_DOWN: u64 = 0xff;

/// The a8-h1 diagonal (squares whose file and rank sum to 7).
pub const DIAGONAL_DOWN: u64 = 0x102040810204080;

/// The a1-h8 diagonal (squares whose file equals their rank).
pub const DIAGONAL_UP: u64 = 0x8040201008040201;

/// The raw bit-level behaviour of the four unit shifts, discharged by
/// the bit-vector solver in one go.
proof fn lemma_shift_bv()
    by (bit_vector)
    ensures
        forall|x: u64, u: u64, j: u64|
            #![trigger (((x & !0xff00000000000000u64) << 8u64) >> j), x >> u]
            j == u + 8 && u < 56 ==> ((((x & !0xff00000000000000u64) << 8) >> j) & 1u64) == ((x
                >> u) & 1u64),
        forall|x: u64, j: u64|
            j < 8 ==> ((((x & !0xff00000000000000u64) << 8) >> j) & 1u64) == 0u64,
        forall|x: u64, u: u64, j: u64|
            #![trigger (((x & !0xffu64) >> 8u64) >> j), x >> u]
            u == j + 8 && j < 56 ==> ((((x & !0xffu64) >> 8) >> j) & 1u64) == ((x >> u) & 1u64),
        forall|x: u64, j: u64|
            56 <= j && j < 64 ==> ((((x & !0xffu64) >> 8) >> j) & 1u64) == 0u64,
        forall|x: u64, u: u64, j: u64|
            #![trigger (((x & !0x8080808080808080u64) << 1u64) >> j), x >> u]
            j == u + 1 && u < 63 && u & 7 != 7 ==> ((((x & !0x8080808080808080u64) << 1) >> j)
                & 1u64) == ((x >> u) & 1u64),
        forall|x: u64, j: u64|
            j < 64 && j & 7 == 0 ==> ((((x & !0x8080808080808080u64) << 1) >> j) & 1u64) == 0u64,
        forall|x: u64, u: u64, j: u64|
            #![trigger (((x & !0x101010101010101u64) >> 1u64) >> j), x >> u]
            u == j + 1 && j < 63 && j & 7 != 7 ==> ((((x & !0x101010101010101u64) >> 1) >> j)
                & 1u64) == ((x >> u) & 1u64),
        forall|x: u64, j: u64|
            j < 64 && j & 7 == 7 ==> ((((x & !0x101010101010101u64) >> 1) >> j) & 1u64) == 0u64,
        forall|j: u64| j < 64 ==> #[trigger] (j & 7) == j % 8,
{
}

/// One step toward rank 8: square `t` is in the result exactly when `t`'s
/// southern neighbour is in `x`.
proof fn lemma_shift_north(x: u64, y: u64)
    requires
        y == (x & !0xff00000000000000u64) << 8,
    ensures
        forall|t: int|
            #[trigger] bb_has(y, t) <==> (0 <= t < 64 && sq_rank(t) >= 1 && bb_has(x, t - 8)),
{
    lemma_shift_bv();
    assert forall|t: int|
        #[trigger] bb_has(y, t) <==> (0 <= t < 64 && sq_rank(t) >= 1 && bb_has(x, t - 8)) by {
        if 8 <= t < 64 {
            let tu = t as u64;
            let u = (t - 8) as u64;
            assert((y >> tu) & 1u64 == (x >> u) & 1u64);
        } else if 0 <= t < 8 {
            let tu = t as u64;
            assert((y >> tu) & 1u64 == 0u64);
        }
    }
}

/// One step toward rank 1.
proof fn lemma_shift_south(x: u64, y: u64)
    requires
        y == (x & !0xffu64) >> 8,
    ensures
        forall|t: int|
            #[trigger] bb_has(y, t) <==> (0 <= t < 64 && sq_rank(t) <= 6 && bb_has(x, t + 8)),
{
    lemma_shift_bv();
    assert forall|t: int|
        #[trigger] bb_has(y, t) <==> (0 <= t < 64 && sq_rank(t) <= 6 && bb_has(x, t + 8)) by {
        if 0 <= t < 56 {
            let tu = t as u64;
            let u = (t + 8) as u64;
            assert((y >> tu) & 1u64 == (x >> u) & 1u64);
        } else if 56 <= t < 64 {
            let tu = t as u64;
            assert((y >> tu) & 1u64 == 0u64);
        }
    }
}

/// One step toward file h.
proof fn lemma_shift_east(x: u64, y: u64)
    requires
        y == (x & !0x8080808080808080u64) << 1,
    ensures
        forall|t: int|
            #[trigger] bb_has(y, t) <==> (0 <= t < 64 && sq_file(t) >= 1 && bb_has(x, t - 1)),
{
    lemma_shift_bv();
    assert forall|t: int|
        #[trigger] bb_has(y, t) <==> (0 <= t < 64 && sq_file(t) >= 1 && bb_has(x, t - 1)) by {
        if 0 <= t < 64 {
            let tu = t as u64;
            assert(tu & 7 == tu % 8);
            if t % 8 >= 1 {
                let u = (t - 1) as u64;
                assert(u & 7 == u % 8);
                assert((y >> tu) & 1u64 == (x >> u) & 1u64);
            } else {
                assert((y >> tu) & 1u64 == 0u64);
            }
        }
    }
}

/// One step toward file a.
proof fn lemma_shift_west(x: u64, y: u64)
    requires
        y == (x & !0x101010101010101u64) >> 1,
    ensures
        forall|t: int|
            #[trigger] bb_has(y, t) <==> (0 <= t < 64 && sq_file(t) <= 6 && bb_has(x, t + 1)),
{
    lemma_shift_bv();
    assert forall|t: int|
        #[trigger] bb_has(y, t) <==> (0 <= t < 64 && sq_file(t) <= 6 && bb_has(x, t + 1)) by {
        if 0 <= t < 64 {
            let tu = t as u64;
            assert(tu & 7 == tu % 8);
            if t % 8 <= 6 {
                let u = (t + 1) as u64;
                assert(u & 7 == u % 8);
                assert((y >> tu) & 1u64 == (x >> u) & 1u64);
            } else {
                assert((y >> tu) & 1u64 == 0u64);
            }
        }
    }
}

/// Shifts the whole board `amount` ranks toward rank 8 (toward rank 1 when
/// negative); members pushed past the edge are dropped.
pub fn move_bb_vert(bb: u64, amount: i32) -> (r: u64)
    ensures
        forall|t: int|
            #[trigger] bb_has(r, t) <==> (0 <= t < 64 && 0 <= sq_rank(t) - amount <= 7 && bb_has(
                bb,
                t - 8 * amount,
            )),
{
    let mut ret = bb;
    if amount >= 0 {
        let mut a = amount;
        while a > 0
            invariant
                0 <= a <= amount,
                forall|t: int|
                    #[trigger] bb_has(ret, t) <==> (0 <= t < 64 && sq_rank(t) - (amount - a) >= 0
                        && bb_has(bb, t - 8 * (amount - a))),
            decreases a,
        {
            let prev = ret;
            ret &= !WALL_UP;
            ret <<= 8;
            a -= 1;
            proof {
                lemma_shift_north(prev, ret);
            }
        }
    } else {
        let mut a = amount;
        while a < 0
            invariant
                amount <= a <= 0,
                forall|t: int|
                    #[trigger] bb_has(ret, t) <==> (0 <= t < 64 && sq_rank(t) - (amount - a) <= 7
                        && bb_has(bb, t - 8 * (amount - a))),
            decreases -a,
        {
            let prev = ret;
            ret &= !WALL_DOWN;
            ret >>= 8;
            a += 1;
            proof {
                lemma_shift_south(prev, ret);
            }
        }
    }
    ret
}

/// Shifts the whole board `amount` files toward file h (toward file a when
/// negative); members pushed past the edge are dropped.
pub fn move_bb_hor(bb: u64, amount: i32) -> (r: u64)
    ensures
        forall|t: int|
            #[trigger] bb_has(r, t) <==> (0 <= t < 64 && 0 <= sq_file(t) - amount <= 7 && bb_has(
                bb,
                t - amount,
            )),
{
    let mut ret = bb;
    if amount >= 0 {
        let mut a = amount;
        while a > 0
            invariant
                0 <= a <= amount,
                forall|t: int|
                    #[trigger] bb_has(ret, t) <==> (0 <= t < 64 && sq_file(t) - (amount - a) >= 0
                        && bb_has(bb, t - (amount - a))),
            decreases a,
        {
            let prev = ret;
            ret &= !WALL_RIGHT;
            ret <<= 1;
            a -= 1;
            proof {
                lemma_shift_east(prev, ret);
            }
        }
    } else {
        let mut a = amount;
        while a < 0
            invariant
                amount <= a <= 0,
                forall|t: int|
                    #[trigger] bb_has(ret, t) <==> (0 <= t < 64 && sq_file(t) - (amount - a) <= 7
                        && bb_has(bb, t - (amount - a))),
            decreases -a,
        {
            let prev = ret;
            ret &= !WALL_LEFT;
            ret >>= 1;
            a += 1;
            proof {
                lemma_shift_west(prev, ret);
            }
        }
    }
    ret
}

/// Translates the whole board by the file and rank offset that carries
/// square `center` to square `to`; members pushed past an edge are dropped.
pub fn move_bb_slow(bb: u64, center: u64, to: u64) -> (r: u64)
    requires
        center < 64,
        to < 64,
    ensures
        forall|t: int|
            #[trigger] bb_has(r, t) <==> (0 <= t < 64 && 0 <= sq_file(t) - (sq_file(to as int)
                - sq_file(center as int)) <= 7 && 0 <= sq_rank(t) - (sq_rank(to as int) - sq_rank(
                center as int,
            )) <= 7 && bb_has(
                bb,
                t - (sq_file(to as int) - sq_file(center as int)) - 8 * (sq_rank(to as int)
                    - sq_rank(center as int)),
            )),
{
    let col_start = (center % 8) as i32;
    let col_end = (to % 8) as i32;
    let row_start = (center / 8) as i32;
    let row_end = (to / 8) as i32;
    let df = col_end - col_start;
    let dr = row_end - row_start;
    let h = move_bb_hor(bb, df);
    let r = move_bb_vert(h, dr);
    proof {
        assert forall|t: int|
            #[trigger] bb_has(r, t) <==> (0 <= t < 64 && 0 <= sq_file(t) - df <= 7 && 0 <= sq_rank(
                t,
            ) - dr <= 7 && bb_has(bb, t - df - 8 * dr)) by {
            if bb_has(r, t) {
                assert(0 <= t < 64 && 0 <= sq_rank(t) - dr <= 7 && bb_has(h, t - 8 * dr));
                assert(sq_file(t - 8 * dr) == sq_file(t));
            } else {
                if 0 <= t < 64 && 0 <= sq_file(t) - df <= 7 && 0 <= sq_rank(t) - dr <= 7 && bb_has(
                    bb,
                    t - df - 8 * dr,
                ) {
                    assert(sq_file(t - 8 * dr) == sq_file(t));
                    assert(bb_has(h, t - 8 * dr));
                    assert(bb_has(r, t));
                }
            }
        }
    }
    r
}

} // verus!
