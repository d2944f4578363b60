//! Loading a position from the first four fields of a position string:
//! piece placement (rank 8 first), active color, castling rights and
//! en-passant target. Malformed input falls back to the canonical
//! starting layout and reports an error instead of silently succeeding.

use vstd::prelude::*;
use vstd::string::StringSliceAdditionalSpecFns;
use crate::bits::{bb_has, sq_file, sq_rank, lemma_bb_ops, lemma_sq_split, lemma_bb_ext};
use crate::core_types::{Color, SquareIdx, BB};
use crate::state::State;

verus! {

/// The canonical starting position.
pub open spec fn start_state() -> State {
    State {
        side_w: BB(0xffff),
        side_b: BB(0xffff000000000000),
        pawns: BB(0xff00000000ff00),
        knights: BB(0x4200000000000042),
        bishops: BB(0x2400000000000024),
        rooks: BB(0x8100000000000081),
        queens: BB(0x800000000000008),
        kings: BB(0x1000000000000010),
        ep: SquareIdx(255),
        ply: 0,
        color: Color::White,
        castle: 0xf,
    }
}

/// The starting position is a sound board.
proof fn lemma_start_wf()
    ensures
        start_state().wf(),
{
    let s = start_state();
    assert(0xffffu64 & 0xffff000000000000u64 == 0 && (0xff00000000ff00u64
        | 0x4200000000000042u64 | 0x2400000000000024u64 | 0x8100000000000081u64
        | 0x800000000000008u64 | 0x1000000000000010u64) == (0xffffu64 | 0xffff000000000000u64)
        && 0xff00000000ff00u64 & 0x4200000000000042u64 == 0 && 0xff00000000ff00u64
        & 0x2400000000000024u64 == 0 && 0xff00000000ff00u64 & 0x8100000000000081u64 == 0
        && 0xff00000000ff00u64 & 0x800000000000008u64 == 0 && 0xff00000000ff00u64
        & 0x1000000000000010u64 == 0 && 0x4200000000000042u64 & 0x2400000000000024u64 == 0
        && 0x4200000000000042u64 & 0x8100000000000081u64 == 0 && 0x4200000000000042u64
        & 0x800000000000008u64 == 0 && 0x4200000000000042u64 & 0x1000000000000010u64 == 0
        && 0x2400000000000024u64 & 0x8100000000000081u64 == 0 && 0x2400000000000024u64
        & 0x800000000000008u64 == 0 && 0x2400000000000024u64 & 0x1000000000000010u64 == 0
        && 0x8100000000000081u64 & 0x800000000000008u64 == 0 && 0x8100000000000081u64
        & 0x1000000000000010u64 == 0 && 0x800000000000008u64 & 0x1000000000000010u64 == 0)
        by (bit_vector);
    assert forall|i: int, j: int| 0 <= i < j < 6 implies #[trigger] (s.pc_at(i) & s.pc_at(j))
        == 0 by {}
}

/// Returns the canonical starting position.
pub fn start_position() -> (r: State)
    ensures
        r == start_state(),
        r.wf(),
{
    proof {
        lemma_start_wf();
    }
    State {
        side_w: BB(0xffff),
        side_b: BB(0xffff000000000000),
        pawns: BB(0xff00000000ff00),
        knights: BB(0x4200000000000042),
        bishops: BB(0x2400000000000024),
        rooks: BB(0x8100000000000081),
        queens: BB(0x800000000000008),
        kings: BB(0x1000000000000010),
        ep: SquareIdx(255),
        ply: 0,
        color: Color::White,
        castle: 0xf,
    }
}

/// The reading-order cell of a square in the placement field: rank 8
/// first, file a first within a rank.
pub open spec fn fen_cell(t: int) -> int {
    8 * (7 - sq_rank(t)) + sq_file(t)
}

/// Putting one piece on an empty square keeps the board sound, and fills
/// exactly that square.
proof fn lemma_fen_place(s: State, mid: State, q: int, k: int, white: bool)
    requires
        s.wf(),
        0 <= q < 64,
        0 <= k < 6,
        !bb_has(s.occ(), q),
        mid.side_w.0 == (if white {
            s.side_w.0 | (1u64 << (q as u64))
        } else {
            s.side_w.0
        }),
        mid.side_b.0 == (if white {
            s.side_b.0
        } else {
            s.side_b.0 | (1u64 << (q as u64))
        }),
        forall|i: int|
            0 <= i < 6 ==> #[trigger] mid.pc_at(i) == (if i == k {
                s.pc_at(i) | (1u64 << (q as u64))
            } else {
                s.pc_at(i)
            }),
        mid.ep == s.ep,
        mid.castle == s.castle,
    ensures
        mid.wf(),
        forall|t: int| #[trigger] bb_has(mid.occ(), t) <==> (bb_has(s.occ(), t) || t == q),
{
    lemma_bb_ops();
    assert forall|i: int, t: int|
        0 <= i < 6 implies (#[trigger] bb_has(mid.pc_at(i), t) <==> (bb_has(s.pc_at(i), t) || (i
        == k && t == q))) by {}
    assert forall|t: int|
        (#[trigger] bb_has(mid.side_w.0, t) <==> (bb_has(s.side_w.0, t) || (white && t == q))) && (
    #[trigger] bb_has(mid.side_b.0, t) <==> (bb_has(s.side_b.0, t) || (!white && t == q))) by {}
    assert forall|t: int| !(bb_has(mid.side_w.0, t) && bb_has(mid.side_b.0, t)) by {
        if bb_has(s.side_w.0, t) && bb_has(s.side_b.0, t) {
            assert(!bb_has(s.side_w.0 & s.side_b.0, t));
        }
        if t == q {
            assert(!bb_has(s.occ(), q));
        }
    }
    assert forall|t: int| bb_has(mid.side_w.0 & mid.side_b.0, t) <==> bb_has(0u64, t) by {}
    lemma_bb_ext(mid.side_w.0 & mid.side_b.0, 0);
    assert forall|i: int, j: int|
        0 <= i < j < 6 implies #[trigger] (mid.pc_at(i) & mid.pc_at(j)) == 0 by {
        assert forall|t: int| bb_has(mid.pc_at(i) & mid.pc_at(j), t) <==> bb_has(0u64, t) by {
            if bb_has(mid.pc_at(i), t) && bb_has(mid.pc_at(j), t) {
                if t == q {
                    assert(bb_has(s.occ(), q) <==> bb_has(s.piece_occ(), q));
                    assert(bb_has(s.piece_occ(), q) <==> (bb_has(s.pc_at(0), q) || bb_has(
                        s.pc_at(1),
                        q,
                    ) || bb_has(s.pc_at(2), q) || bb_has(s.pc_at(3), q) || bb_has(s.pc_at(4), q)
                        || bb_has(s.pc_at(5), q)));
                } else {
                    assert(bb_has(s.pc_at(i), t) && bb_has(s.pc_at(j), t));
                    assert(s.pc_at(i) & s.pc_at(j) == 0);
                    assert(!bb_has(s.pc_at(i) & s.pc_at(j), t));
                }
            }
        }
        lemma_bb_ext(mid.pc_at(i) & mid.pc_at(j), 0);
    }
    assert forall|t: int| bb_has(mid.piece_occ(), t) <==> bb_has(mid.occ(), t) by {
        assert(bb_has(mid.piece_occ(), t) <==> (bb_has(mid.pc_at(0), t) || bb_has(mid.pc_at(1), t)
            || bb_has(mid.pc_at(2), t) || bb_has(mid.pc_at(3), t) || bb_has(mid.pc_at(4), t)
            || bb_has(mid.pc_at(5), t)));
        assert(bb_has(s.piece_occ(), t) <==> (bb_has(s.pc_at(0), t) || bb_has(s.pc_at(1), t)
            || bb_has(s.pc_at(2), t) || bb_has(s.pc_at(3), t) || bb_has(s.pc_at(4), t) || bb_has(
            s.pc_at(5),
            t,
        )));
    }
    lemma_bb_ext(mid.piece_occ(), mid.occ());
}

/// The first non-space position at or after `i`.
pub open spec fn fen_skip(bs: Seq<u8>, i: int) -> int
    decreases bs.len() - i,
{
    if i < 0 || i >= bs.len() || bs[i] != 32 {
        i
    } else {
        fen_skip(bs, i + 1)
    }
}

/// The first space (or the end) at or after `i`.
pub open spec fn fen_scan(bs: Seq<u8>, i: int) -> int
    decreases bs.len() - i,
{
    if i < 0 || i >= bs.len() || bs[i] == 32 {
        i
    } else {
        fen_scan(bs, i + 1)
    }
}

/// The start and end of the k-th whitespace-separated field.
pub open spec fn fen_field(bs: Seq<u8>, k: int) -> (int, int)
    decreases k,
{
    if k <= 0 {
        let s = fen_skip(bs, 0);
        (s, fen_scan(bs, s))
    } else {
        let prev = fen_field(bs, k - 1);
        let s = fen_skip(bs, prev.1);
        (s, fen_scan(bs, s))
    }
}

/// The text has at least four fields.
pub open spec fn fen_has_fields(bs: Seq<u8>) -> bool {
    fen_field(bs, 3).0 < bs.len()
}

/// The board square a reading-order cell names.
pub open spec fn fen_square(cell: int) -> int {
    56 - 8 * (cell / 8) + cell % 8
}

/// A byte naming a piece, one of "pPnNbBrRqQkK".
pub open spec fn is_piece_byte(c: u8) -> bool {
    c == 112 || c == 80 || c == 114 || c == 82 || c == 98 || c == 66 || c == 110 || c == 78 || c
        == 107 || c == 75 || c == 113 || c == 81
}

/// `prior` with its boards emptied for loading: the color and ply are
/// kept, the en-passant target cleared, the castling mask zeroed.
pub open spec fn fen_cleared(prior: State) -> State {
    State {
        side_w: BB(0),
        side_b: BB(0),
        pawns: BB(0),
        knights: BB(0),
        bishops: BB(0),
        rooks: BB(0),
        queens: BB(0),
        kings: BB(0),
        ep: SquareIdx(255),
        castle: 0,
        ..prior
    }
}

/// One piece byte placed on the cell's square: the bit goes into White's
/// or Black's color board by case, and into the byte's piece board.
pub open spec fn fen_place_one(st: State, c: u8, cell: int) -> State {
    let qb = 1u64 << (fen_square(cell) as u64);
    let st1 = if c < 97 {
        State { side_w: BB(st.side_w.0 | qb), ..st }
    } else {
        State { side_b: BB(st.side_b.0 | qb), ..st }
    };
    if c == 112 || c == 80 {
        State { pawns: BB(st1.pawns.0 | qb), ..st1 }
    } else if c == 110 || c == 78 {
        State { knights: BB(st1.knights.0 | qb), ..st1 }
    } else if c == 98 || c == 66 {
        State { bishops: BB(st1.bishops.0 | qb), ..st1 }
    } else if c == 114 || c == 82 {
        State { rooks: BB(st1.rooks.0 | qb), ..st1 }
    } else if c == 113 || c == 81 {
        State { queens: BB(st1.queens.0 | qb), ..st1 }
    } else {
        State { kings: BB(st1.kings.0 | qb), ..st1 }
    }
}

/// The reading cursor after one placement byte: digits skip that many
/// cells, pieces fill one; the count freezes once it has left the board.
pub open spec fn fen_next_cell(cell: int, c: u8) -> int {
    if cell > 64 {
        cell
    } else if 49 <= c <= 56 {
        cell + (c - 48)
    } else if is_piece_byte(c) {
        cell + 1
    } else {
        cell
    }
}

/// Folds the placement field over the board, byte by byte: digits skip
/// files, piece letters fill the next cell, anything else (the rank
/// separators) is passed over; a piece letter beyond the last cell makes
/// the whole field malformed.
pub open spec fn fen_fold_placement(bs: Seq<u8>, i: int, end: int, cell: int, st: State) -> Option<
    State,
>
    decreases end - i,
{
    if i < 0 || i >= end || i >= bs.len() {
        Some(st)
    } else {
        let c = bs[i];
        if is_piece_byte(c) && cell > 63 {
            None
        } else if is_piece_byte(c) {
            fen_fold_placement(bs, i + 1, end, fen_next_cell(cell, c), fen_place_one(st, c, cell))
        } else {
            fen_fold_placement(bs, i + 1, end, fen_next_cell(cell, c), st)
        }
    }
}

/// The side to move a color field names; an unrecognized field keeps the
/// side already loaded.
pub open spec fn fen_color(bs: Seq<u8>, s: int, e: int, keep: Color) -> Color {
    if s < e && bs[s] == 119 {
        Color::White
    } else if s < e && bs[s] == 98 {
        Color::Black
    } else {
        keep
    }
}

/// Folds the castling field into the four rights bits: K, Q, k and q set
/// white king-side, white queen-side, black king-side and black
/// queen-side in that bit order.
pub open spec fn fen_fold_castle(bs: Seq<u8>, i: int, end: int, acc: u8) -> u8
    decreases end - i,
{
    if i < 0 || i >= end || i >= bs.len() {
        acc
    } else {
        let c = bs[i];
        let acc2: u8 = if c == 75 {
            acc | 1
        } else if c == 81 {
            acc | 2
        } else if c == 107 {
            acc | 4
        } else if c == 113 {
            acc | 8
        } else {
            acc
        };
        fen_fold_castle(bs, i + 1, end, acc2)
    }
}

/// The en-passant field's square: "-" is the none-sentinel; otherwise a
/// file letter and a rank digit, anything else being malformed.
pub open spec fn fen_ep(bs: Seq<u8>, s: int, e: int) -> Option<u8> {
    if bs[s] == 45 {
        Some(255)
    } else if e - s < 2 {
        None
    } else if bs[s] < 97 || bs[s] > 104 || bs[s + 1] < 49 || bs[s + 1] > 56 {
        None
    } else {
        Some((((bs[s + 1] - 49) * 8) + (bs[s] - 97)) as u8)
    }
}

/// What loading a position text means: with at least four fields, the
/// placement field fills a cleared board rank 8 first, the second field
/// names the side to move, the third the castling rights, the fourth the
/// en-passant target; any malformed part gives nothing.
pub open spec fn fen_outcome(bs: Seq<u8>, prior: State) -> Option<State> {
    if !fen_has_fields(bs) {
        None
    } else {
        let f0 = fen_field(bs, 0);
        let f1 = fen_field(bs, 1);
        let f2 = fen_field(bs, 2);
        let f3 = fen_field(bs, 3);
        match fen_fold_placement(bs, f0.0, f0.1, 0, fen_cleared(prior)) {
            Some(st1) => {
                let st2 = State { color: fen_color(bs, f1.0, f1.1, prior.color), ..st1 };
                let st3 = State { castle: fen_fold_castle(bs, f2.0, f2.1, 0), ..st2 };
                match fen_ep(bs, f3.0, f3.1) {
                    Some(ep) => Some(State { ep: SquareIdx(ep), ..st3 }),
                    None => None,
                }
            },
            None => None,
        }
    }
}

/// Loads the four mandatory position-string fields into `b`: success and
/// the loaded board are exactly what `fen_outcome` says of the text, the
/// board is always sound, and malformed input loads the canonical
/// starting position and errs.
#[verifier::loop_isolation(false)]
#[verifier::rlimit(100)]
pub fn load_fen(b: &mut State, fen: &str) -> (r: Result<(), ()>)
    ensures
        final(b).wf(),
        r is Ok <==> fen_outcome(fen.spec_bytes(), *old(b)) is Some,
        r is Ok ==> Some(*final(b)) == fen_outcome(fen.spec_bytes(), *old(b)),
        r is Err ==> *final(b) == start_state(),
{
    proof {
        lemma_start_wf();
    }
    let bs = fen.as_bytes();
    let n = bs.len();
    let ghost bsv = fen.spec_bytes();
    // Cut out the four whitespace-separated fields.
    let mut starts: Vec<usize> = Vec::new();
    let mut ends: Vec<usize> = Vec::new();
    let mut idx: usize = 0;
    while idx < n && starts.len() < 4
        invariant
            idx <= n,
            starts@.len() == ends@.len() <= 4,
            forall|c: int|
                0 <= c < starts@.len() ==> #[trigger] starts@[c] < #[trigger] ends@[c] <= n,
            forall|c: int|
                0 <= c < starts@.len() ==> fen_field(bsv, c) == (starts@[c] as int, ends@[c] as int),
            fen_skip(bsv, idx as int) == fen_skip(
                bsv,
                if starts@.len() == 0 {
                    0int
                } else {
                    ends@[starts@.len() - 1] as int
                },
            ),
        decreases n - idx, 4 - starts@.len(),
    {
        let ghost i0 = idx;
        while idx < n && bs[idx] == 32
            invariant
                i0 <= idx <= n,
                fen_skip(bsv, i0 as int) == fen_skip(bsv, idx as int),
            decreases n - idx,
        {
            idx += 1;
        }
        proof {
            assert(fen_skip(bsv, idx as int) == idx);
            assert(fen_skip(bsv, i0 as int) == idx);
        }
        if idx < n {
            let st = idx;
            while idx < n && bs[idx] != 32
                invariant
                    st <= idx <= n,
                    fen_scan(bsv, st as int) == fen_scan(bsv, idx as int),
                decreases n - idx,
            {
                idx += 1;
            }
            proof {
                assert(fen_scan(bsv, idx as int) == idx);
                assert(fen_scan(bsv, st as int) == idx);
                assert(idx > st);
                assert(fen_field(bsv, starts@.len() as int) == (st as int, idx as int));
            }
            starts.push(st);
            ends.push(idx);
        } else {
            proof {
                assert(fen_skip(bsv, i0 as int) == n);
                if starts@.len() < 4 {
                    assert(fen_field(bsv, starts@.len() as int).0 == n);
                    lemma_fen_field_monotone(bsv, starts@.len() as int);
                }
            }
        }
    }
    if starts.len() < 4 {
        proof {
            assert(!fen_has_fields(bsv));
        }
        *b = start_position();
        return Err(());
    }
    proof {
        assert(fen_has_fields(bsv)) by {
            assert(fen_field(bsv, 3) == (starts@[3] as int, ends@[3] as int));
        }
    }

    // Piece placement, rank 8 first.
    let keep_color = b.color;
    let keep_ply = b.ply;
    let mut st = State {
        side_w: BB(0),
        side_b: BB(0),
        pawns: BB(0),
        knights: BB(0),
        bishops: BB(0),
        rooks: BB(0),
        queens: BB(0),
        kings: BB(0),
        ep: SquareIdx(255),
        ply: keep_ply,
        color: keep_color,
        castle: 0,
    };
    proof {
        assert(st == fen_cleared(*old(b)));
        assert(0u64 & 0u64 == 0u64 && 0u64 | 0u64 == 0u64) by (bit_vector);
        lemma_bb_ops();
    }
    let ghost st_init = st;
    let e0 = ends[0];
    let mut cell: u64 = 0;
    let mut k = starts[0];
    while k < e0
        invariant
            k <= e0 <= n,
            e0 == ends@[0],
            k >= starts@[0],
            st.wf(),
            st.ep.0 == 255,
            st.castle == 0,
            st.color == keep_color && st.ply == keep_ply,
            cell <= 72,
            forall|t: int| #[trigger] bb_has(st.occ(), t) ==> fen_cell(t) < cell,
            fen_fold_placement(bsv, starts@[0] as int, e0 as int, 0, st_init)
                == fen_fold_placement(bsv, k as int, e0 as int, cell as int, st),
        decreases e0 - k,
    {
        let c = bs[k];
        let ghost pre = st;
        let ghost cell_pre = cell;
        if c >= 49 && c <= 56 {
            // '1'..='8'
            if cell <= 64 {
                cell = cell + (c - 48) as u64;
            }
        } else if c == 112 || c == 80 || c == 114 || c == 82 || c == 98 || c == 66 || c == 110
            || c == 78 || c == 107 || c == 75 || c == 113 || c == 81 {
            // One of "pPrRbBnNkKqQ".
            if cell > 63 {
                proof {
                    assert(fen_fold_placement(bsv, k as int, e0 as int, cell as int, st) is None);
                }
                *b = start_position();
                return Err(());
            }
            let q: u64 = 56 - (cell / 8) * 8 + cell % 8;
            let qb: u64 = 1u64 << q;
            let white = c < 97;  // upper case letters place White's pieces
            if white {
                st.side_w.0 = st.side_w.0 | qb;
            } else {
                st.side_b.0 = st.side_b.0 | qb;
            }
            let ghost kidx: int;
            if c == 112 || c == 80 {
                st.pawns.0 = st.pawns.0 | qb;
                proof {
                    kidx = 0;
                }
            } else if c == 110 || c == 78 {
                st.knights.0 = st.knights.0 | qb;
                proof {
                    kidx = 1;
                }
            } else if c == 98 || c == 66 {
                st.bishops.0 = st.bishops.0 | qb;
                proof {
                    kidx = 2;
                }
            } else if c == 114 || c == 82 {
                st.rooks.0 = st.rooks.0 | qb;
                proof {
                    kidx = 3;
                }
            } else if c == 113 || c == 81 {
                st.queens.0 = st.queens.0 | qb;
                proof {
                    kidx = 4;
                }
            } else {
                st.kings.0 = st.kings.0 | qb;
                proof {
                    kidx = 5;
                }
            }
            proof {
                lemma_sq_split(7 - (cell as int / 8), cell as int % 8);
                assert(q == 8 * (7 - (cell as int / 8)) + (cell as int % 8));
                assert(fen_cell(q as int) == cell);
                assert(!bb_has(pre.occ(), q as int));
                lemma_fen_place(pre, st, q as int, kidx, white);
                assert(st == fen_place_one(pre, c, cell as int));
                assert forall|t: int| #[trigger] bb_has(st.occ(), t) implies fen_cell(t) < cell
                    + 1 by {
                    if t != q {
                        assert(bb_has(pre.occ(), t));
                    }
                }
            }
            cell = cell + 1;
        }
        proof {
            assert(fen_next_cell(cell_pre as int, c) == cell);
            assert(fen_fold_placement(bsv, k as int, e0 as int, cell_pre as int, pre)
                == fen_fold_placement(bsv, k as int + 1, e0 as int, cell as int, st));
        }
        k += 1;
    }
    let ghost placed = st;
    proof {
        assert(fen_fold_placement(bsv, starts@[0] as int, e0 as int, 0, st_init) == Some(placed));
    }

    // Active color.
    if ends[1] > starts[1] {
        let c = bs[starts[1]];
        if c == 119 {
            st.color = Color::White;
        } else if c == 98 {
            st.color = Color::Black;
        }
    }
    proof {
        crate::state::lemma_wf_fields(placed, st);
        assert(st.color == fen_color(bsv, starts@[1] as int, ends@[1] as int, keep_color));
        assert(st == (State {
            color: fen_color(bsv, starts@[1] as int, ends@[1] as int, keep_color),
            ..placed
        }));
    }
    let ghost colored = st;

    // Castling rights.
    let e2 = ends[2];
    let mut k2 = starts[2];
    while k2 < e2
        invariant
            starts@[2] <= k2 <= e2 <= n,
            e2 == ends@[2],
            st.wf(),
            st.ep.0 == 255,
            st == (State {
                castle: fen_fold_castle(bsv, starts@[2] as int, k2 as int, 0),
                ..colored
            }),
            fen_fold_castle(bsv, starts@[2] as int, e2 as int, 0) == fen_fold_castle(
                bsv,
                k2 as int,
                e2 as int,
                st.castle,
            ),
        decreases e2 - k2,
    {
        let c = bs[k2];
        let ghost before = st;
        proof {
            let cs = st.castle;
            assert(cs < 16 ==> ((cs | 1) < 16 && (cs | 2) < 16 && (cs | 4) < 16 && (cs | 8) < 16))
                by (bit_vector);
        }
        if c == 75 {
            st.castle = st.castle | 1;
        } else if c == 81 {
            st.castle = st.castle | 2;
        } else if c == 107 {
            st.castle = st.castle | 4;
        } else if c == 113 {
            st.castle = st.castle | 8;
        }
        proof {
            crate::state::lemma_wf_fields(before, st);
            lemma_fen_castle_snoc(bsv, starts@[2] as int, k2 as int, c);
        }
        k2 += 1;
    }
    proof {
        assert(st.castle == fen_fold_castle(bsv, starts@[2] as int, e2 as int, 0));
    }
    let ghost rights_done = st;

    // En-passant target.
    proof {
        assert(starts@.len() == 4);
        assert(starts@[3] < ends@[3]);
        assert(ends@[3] <= n);
    }
    if bs[starts[3]] == 45 {
        // '-'
        st.ep = SquareIdx(255);
    } else {
        if ends[3] - starts[3] < 2 {
            proof {
                assert(fen_ep(bsv, starts@[3] as int, ends@[3] as int) is None);
            }
            *b = start_position();
            return Err(());
        }
        let fc = bs[starts[3]];
        let rc = bs[starts[3] + 1];
        if fc < 97 || fc > 104 || rc < 49 || rc > 56 {
            proof {
                assert(fen_ep(bsv, starts@[3] as int, ends@[3] as int) is None);
            }
            *b = start_position();
            return Err(());
        }
        st.ep = SquareIdx((rc - 49) * 8 + (fc - 97));
    }
    proof {
        crate::state::lemma_wf_fields(rights_done, st);
        assert(Some(st.ep.0) == fen_ep(bsv, starts@[3] as int, ends@[3] as int));
        assert(Some(st) == fen_outcome(bsv, *old(b)));
    }
    *b = st;
    Ok(())
}

/// Field starts never move left as the field index grows.
proof fn lemma_fen_field_monotone(bs: Seq<u8>, k: int)
    requires
        0 <= k <= 3,
        fen_field(bs, k).0 >= bs.len(),
    ensures
        fen_field(bs, 3).0 >= bs.len(),
    decreases 3 - k,
{
    if k < 3 {
        lemma_fen_skip_bounds(bs, fen_field(bs, k).0);
        lemma_fen_scan_bounds(bs, fen_field(bs, k).1);
        lemma_fen_field_monotone(bs, k + 1);
    }
}

/// Skipping spaces never moves the cursor left.
proof fn lemma_fen_skip_bounds(bs: Seq<u8>, i: int)
    ensures
        fen_skip(bs, i) >= i,
    decreases bs.len() - i,
{
    if 0 <= i < bs.len() && bs[i] == 32 {
        lemma_fen_skip_bounds(bs, i + 1);
    }
}

/// Scanning a field never moves the cursor left.
proof fn lemma_fen_scan_bounds(bs: Seq<u8>, i: int)
    ensures
        fen_scan(bs, i) >= i,
    decreases bs.len() - i,
{
    if 0 <= i < bs.len() && bs[i] != 32 {
        lemma_fen_scan_bounds(bs, i + 1);
    }
}

/// Folding one more castling byte extends the folded prefix.
proof fn lemma_fen_castle_snoc(bs: Seq<u8>, s: int, k: int, c: u8)
    requires
        0 <= s <= k < bs.len(),
        bs[k] == c,
    ensures
        fen_fold_castle(bs, s, k + 1, 0) == (if c == 75 {
            fen_fold_castle(bs, s, k, 0) | 1
        } else if c == 81 {
            fen_fold_castle(bs, s, k, 0) | 2
        } else if c == 107 {
            fen_fold_castle(bs, s, k, 0) | 4
        } else if c == 113 {
            fen_fold_castle(bs, s, k, 0) | 8
        } else {
            fen_fold_castle(bs, s, k, 0)
        }),
{
    lemma_fen_castle_snoc_acc(bs, s, k, c, 0);
}

/// The snoc step of the castling fold, for any accumulator.
proof fn lemma_fen_castle_snoc_acc(bs: Seq<u8>, s: int, k: int, c: u8, acc: u8)
    requires
        0 <= s <= k < bs.len(),
        bs[k] == c,
    ensures
        fen_fold_castle(bs, s, k + 1, acc) == (if c == 75 {
            fen_fold_castle(bs, s, k, acc) | 1
        } else if c == 81 {
            fen_fold_castle(bs, s, k, acc) | 2
        } else if c == 107 {
            fen_fold_castle(bs, s, k, acc) | 4
        } else if c == 113 {
            fen_fold_castle(bs, s, k, acc) | 8
        } else {
            fen_fold_castle(bs, s, k, acc)
        }),
    decreases k - s,
{
    let acc2: u8 = if bs[s] == 75 {
        acc | 1
    } else if bs[s] == 81 {
        acc | 2
    } else if bs[s] == 107 {
        acc | 4
    } else if bs[s] == 113 {
        acc | 8
    } else {
        acc
    };
    if s < k {
        lemma_fen_castle_snoc_acc(bs, s + 1, k, c, acc2);
        assert(fen_fold_castle(bs, s, k + 1, acc) == fen_fold_castle(bs, s + 1, k + 1, acc2));
        assert(fen_fold_castle(bs, s, k, acc) == fen_fold_castle(bs, s + 1, k, acc2));
    } else {
        assert(fen_fold_castle(bs, s, k + 1, acc) == fen_fold_castle(bs, s + 1, k + 1, acc2));
        assert(fen_fold_castle(bs, s + 1, k + 1, acc2) == acc2);
        assert(fen_fold_castle(bs, s, k, acc) == acc);
    }
}

} // verus!
