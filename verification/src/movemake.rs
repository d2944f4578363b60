//! The attack query and (further down) the move applier with its
//! legality filter.

use vstd::prelude::*;
use vstd::std_specs::bits::u64_trailing_zeros;
use crate::bits::{bb_has, sq_file, sq_rank, lemma_bb_ops, lemma_bb_lowest, lemma_sq_split, lemma_bb_ext};
use crate::core_types::{Color, Piece, SquareIdx, BB};
use crate::moves::{Move, MoveFlags};
use crate::attacks::{
    Tables, knight_reaches, king_reaches, pawn_cap_reaches, rook_reaches, bishop_reaches,
    ray_reaches, ray_sq, ray_on_board, dir_ok,
};
use crate::state::{State, castle_rights_mask, moved_piece_bb, is_single, gen_move_ok, pawn_step_premise, castle_branch_ok, promo_rank};

verus! {

/// Square `t` is attacked in position `s` by a piece of color `by`: some
/// knight, king, pawn, rook/queen or bishop/queen of that color reaches
/// it under the current occupancy.
pub open spec fn attacked(s: State, t: int, by: Color) -> bool {
    ||| exists|f: int| #[trigger] knight_reaches(f, t) && bb_has(s.knights.0 & s.side_bb(by), f)
    ||| exists|f: int| #[trigger] king_reaches(f, t) && bb_has(s.kings.0 & s.side_bb(by), f)
    ||| exists|f: int| #[trigger] pawn_cap_reaches(by, f, t) && bb_has(s.pawns.0 & s.side_bb(by), f)
    ||| exists|f: int|
        #[trigger] rook_reaches(s.occ(), f, t) && bb_has((s.rooks.0 | s.queens.0) & s.side_bb(by), f)
    ||| exists|f: int|
        #[trigger] bishop_reaches(s.occ(), f, t) && bb_has(
            (s.bishops.0 | s.queens.0) & s.side_bb(by),
            f,
        )
}

/// The mover is in check: the mover's king square is attacked by the
/// opponent. Assumes one king; with none or several it reads the lowest
/// member of the king bitboard.
pub open spec fn in_check_spec(s: State) -> bool {
    attacked(s, s.my_king_sq(), s.color.spec_opposite())
}

/// Walking a ray backward: `b` is reached from `a` along `(df, dr)`
/// exactly when `a` is reached from `b` along the opposite direction.
proof fn lemma_ray_symmetry(occ: u64, a: int, df: int, dr: int, b: int)
    requires
        0 <= a < 64,
        0 <= b < 64,
        dir_ok(df, dr),
    ensures
        ray_reaches(occ, a, df, dr, b) ==> ray_reaches(occ, b, -df, -dr, a),
{
    if ray_reaches(occ, a, df, dr, b) {
        let k = choose|k: int|
            1 <= k && #[trigger] ray_on_board(a, df, dr, k) && b == ray_sq(a, df, dr, k) && (forall|
                j: int,
            | 1 <= j < k ==> !bb_has(occ, #[trigger] ray_sq(a, df, dr, j)));
        crate::attacks::lemma_unit_mul(k, df);
        crate::attacks::lemma_unit_mul(k, dr);
        lemma_sq_split(sq_rank(a) + k * dr, sq_file(a) + k * df);
        assert(sq_file(b) == sq_file(a) + k * df && sq_rank(b) == sq_rank(a) + k * dr);
        assert forall|j: int| 1 <= j <= k implies #[trigger] ray_sq(b, -df, -dr, j) == ray_sq(
            a,
            df,
            dr,
            k - j,
        ) && ray_on_board(b, -df, -dr, j) by {
            crate::attacks::lemma_unit_mul(j, df);
            crate::attacks::lemma_unit_mul(j, dr);
            crate::attacks::lemma_unit_mul(k - j, df);
            crate::attacks::lemma_unit_mul(k - j, dr);
            crate::attacks::lemma_unit_mul(j, -df);
            crate::attacks::lemma_unit_mul(j, -dr);
            assert(sq_file(b) + j * (-df) == sq_file(a) + (k - j) * df);
            assert(sq_rank(b) + j * (-dr) == sq_rank(a) + (k - j) * dr);
            assert(0 <= sq_file(a) + (k - j) * df < 8 && 0 <= sq_rank(a) + (k - j) * dr < 8);
        }
        assert(ray_sq(b, -df, -dr, k) == ray_sq(a, df, dr, 0));
        assert(ray_sq(a, df, dr, 0) == a) by {
            crate::attacks::lemma_unit_mul(0, df);
            crate::attacks::lemma_unit_mul(0, dr);
            assert(a == 8 * sq_rank(a) + sq_file(a));
        }
        assert forall|j: int| 1 <= j < k implies !bb_has(occ, #[trigger] ray_sq(b, -df, -dr, j)) by {
            assert(ray_sq(b, -df, -dr, j) == ray_sq(a, df, dr, k - j));
            assert(!bb_has(occ, ray_sq(a, df, dr, k - j)));
        }
        assert(1 <= k && ray_on_board(b, -df, -dr, k) && a == ray_sq(b, -df, -dr, k) && (forall|
            j: int,
        | 1 <= j < k ==> !bb_has(occ, #[trigger] ray_sq(b, -df, -dr, j))));
    }
}

/// A rook ray runs the same in both directions.
pub proof fn lemma_rook_sym(occ: u64, a: int, b: int)
    requires
        0 <= a < 64,
        0 <= b < 64,
    ensures
        rook_reaches(occ, a, b) <==> rook_reaches(occ, b, a),
{
    lemma_ray_symmetry(occ, a, 1, 0, b);
    lemma_ray_symmetry(occ, a, -1, 0, b);
    lemma_ray_symmetry(occ, a, 0, 1, b);
    lemma_ray_symmetry(occ, a, 0, -1, b);
    lemma_ray_symmetry(occ, b, 1, 0, a);
    lemma_ray_symmetry(occ, b, -1, 0, a);
    lemma_ray_symmetry(occ, b, 0, 1, a);
    lemma_ray_symmetry(occ, b, 0, -1, a);
}

/// A bishop ray runs the same in both directions.
pub proof fn lemma_bishop_sym(occ: u64, a: int, b: int)
    requires
        0 <= a < 64,
        0 <= b < 64,
    ensures
        bishop_reaches(occ, a, b) <==> bishop_reaches(occ, b, a),
{
    lemma_ray_symmetry(occ, a, 1, 1, b);
    lemma_ray_symmetry(occ, a, 1, -1, b);
    lemma_ray_symmetry(occ, a, -1, 1, b);
    lemma_ray_symmetry(occ, a, -1, -1, b);
    lemma_ray_symmetry(occ, b, 1, 1, a);
    lemma_ray_symmetry(occ, b, 1, -1, a);
    lemma_ray_symmetry(occ, b, -1, 1, a);
    lemma_ray_symmetry(occ, b, -1, -1, a);
}

/// A nonzero intersection names a witness square and the other way round.
proof fn lemma_nonzero_member(x: u64)
    ensures
        x != 0 <==> exists|f: int| #[trigger] bb_has(x, f),
{
    lemma_bb_ops();
    if x != 0 {
        lemma_bb_lowest(x);
        assert(bb_has(x, u64_trailing_zeros(x) as int));
    }
}

impl State {
    /// Probes whether the color given attacks the lowest square of
    /// `piece`, reusing the same tables as move generation: attacks from
    /// the square for a hypothetical occupant equal attacks to it.
    pub fn square_attacked_by(&self, tables: &Tables, piece: BB, by: Color) -> (r: bool)
        requires
            tables.wf(),
            piece.0 != 0,
        ensures
            r == attacked(*self, u64_trailing_zeros(piece.0) as int, by),
    {
        proof {
            lemma_bb_lowest(piece.0);
            lemma_bb_ops();
        }
        let t = piece.as_idx().0 as usize;
        let ghost ti = t as int;
        let by_side: u64 = match by {
            Color::White => self.side_w.0,
            Color::Black => self.side_b.0,
        };
        let all_pieces = BB(self.side_w.0 | self.side_b.0);

        let knight_attacks = tables.knight[t] & (self.knights.0 & by_side);
        if knight_attacks != 0 {
            proof {
                lemma_nonzero_member(knight_attacks);
                let f = choose|f: int| bb_has(knight_attacks, f);
                assert(bb_has(tables.knight@[ti], f) && bb_has(self.knights.0 & by_side, f));
                assert(knight_reaches(ti, f));
                assert(knight_reaches(f, ti));
            }
            return true;
        }
        let bishop_attacks = tables.get_bishop_moves(piece, all_pieces).0 & ((self.bishops.0
            | self.queens.0) & by_side);
        if bishop_attacks != 0 {
            proof {
                lemma_nonzero_member(bishop_attacks);
                let f = choose|f: int| bb_has(bishop_attacks, f);
                assert(bishop_reaches(self.occ(), ti, f));
                lemma_bishop_sym(self.occ(), ti, f);
            }
            return true;
        }
        let rook_attacks = tables.get_rook_moves(piece, all_pieces).0 & ((self.rooks.0
            | self.queens.0) & by_side);
        if rook_attacks != 0 {
            proof {
                lemma_nonzero_member(rook_attacks);
                let f = choose|f: int| bb_has(rook_attacks, f);
                assert(rook_reaches(self.occ(), ti, f));
                lemma_rook_sym(self.occ(), ti, f);
            }
            return true;
        }
        let cap_table: u64 = match by {
            Color::White => tables.b_pawn_caps[t],
            Color::Black => tables.w_pawn_caps[t],
        };
        let pawn_attacks = cap_table & (self.pawns.0 & by_side);
        if pawn_attacks != 0 {
            proof {
                lemma_nonzero_member(pawn_attacks);
                let f = choose|f: int| bb_has(pawn_attacks, f);
                assert(crate::attacks::pawn_cap_reaches(by.spec_opposite(), ti, f));
                assert(pawn_cap_reaches(by, f, ti));
            }
            return true;
        }
        let king_attacks = tables.king[t] & (self.kings.0 & by_side);
        if king_attacks != 0 {
            proof {
                lemma_nonzero_member(king_attacks);
                let f = choose|f: int| bb_has(king_attacks, f);
                assert(king_reaches(ti, f));
                assert(king_reaches(f, ti));
            }
            return true;
        }
        proof {
            if attacked(*self, ti, by) {
                if exists|f: int| #[trigger] knight_reaches(f, ti) && bb_has(
                    self.knights.0 & by_side,
                    f,
                ) {
                    let f = choose|f: int|
                        #[trigger] knight_reaches(f, ti) && bb_has(self.knights.0 & by_side, f);
                    assert(bb_has(knight_attacks, f));
                } else if exists|f: int| #[trigger] king_reaches(f, ti) && bb_has(
                    self.kings.0 & by_side,
                    f,
                ) {
                    let f = choose|f: int|
                        #[trigger] king_reaches(f, ti) && bb_has(self.kings.0 & by_side, f);
                    assert(bb_has(king_attacks, f));
                } else if exists|f: int| #[trigger] pawn_cap_reaches(by, f, ti) && bb_has(
                    self.pawns.0 & by_side,
                    f,
                ) {
                    let f = choose|f: int|
                        #[trigger] pawn_cap_reaches(by, f, ti) && bb_has(self.pawns.0 & by_side, f);
                    assert(crate::attacks::pawn_cap_reaches(by.spec_opposite(), ti, f));
                    assert(bb_has(pawn_attacks, f));
                } else if exists|f: int| #[trigger] rook_reaches(self.occ(), f, ti) && bb_has(
                    (self.rooks.0 | self.queens.0) & by_side,
                    f,
                ) {
                    let f = choose|f: int|
                        #[trigger] rook_reaches(self.occ(), f, ti) && bb_has(
                            (self.rooks.0 | self.queens.0) & by_side,
                            f,
                        );
                    lemma_rook_sym(self.occ(), f, ti);
                    assert(bb_has(rook_attacks, f));
                } else {
                    let f = choose|f: int|
                        #[trigger] bishop_reaches(self.occ(), f, ti) && bb_has(
                            (self.bishops.0 | self.queens.0) & by_side,
                            f,
                        );
                    lemma_bishop_sym(self.occ(), f, ti);
                    assert(bb_has(bishop_attacks, f));
                }
                assert(false);
            }
        }
        false
    }

    /// Probes whether the opponent attacks the lowest square of `piece`.
    pub fn under_attack(&self, tables: &Tables, piece: BB) -> (r: bool)
        requires
            tables.wf(),
            piece.0 != 0,
        ensures
            r == attacked(*self, u64_trailing_zeros(piece.0) as int, self.color.spec_opposite()),
    {
        let by = self.color.opposite();
        self.square_attacked_by(tables, piece, by)
    }

    /// The mover's king square is attacked by the opponent.
    pub fn in_check(&self, tables: &Tables) -> (r: bool)
        requires
            tables.wf(),
            self.kings.0 & self.my_bb() != 0,
        ensures
            r == in_check_spec(*self),
    {
        let me = self.my_side_exec();
        let king = BB(self.kings.0 & me);
        self.under_attack(tables, king)
    }
}

/// The castling rook's source square bit for a king destination.
pub open spec fn castle_rook_from_bb(to: int) -> u64 {
    if to == 2 {
        1u64 << 0u64
    } else if to == 6 {
        1u64 << 7u64
    } else if to == 58 {
        1u64 << 56u64
    } else if to == 62 {
        1u64 << 63u64
    } else {
        0u64
    }
}

/// The castling rook's destination square bit for a king destination.
pub open spec fn castle_rook_to_bb(to: int) -> u64 {
    if to == 2 {
        1u64 << 3u64
    } else if to == 6 {
        1u64 << 5u64
    } else if to == 58 {
        1u64 << 59u64
    } else if to == 62 {
        1u64 << 61u64
    } else {
        0u64
    }
}

/// `s` with its color bitboards replaced: the side to move's becomes
/// `myv`, the opponent's becomes `oppv`.
pub open spec fn with_sides(s: State, myv: u64, oppv: u64) -> State {
    match s.color {
        Color::White => State { side_w: BB(myv), side_b: BB(oppv), ..s },
        Color::Black => State { side_w: BB(oppv), side_b: BB(myv), ..s },
    }
}

/// The position after committing move `m` to `s`, before the legality
/// test and before the side to move flips: the mover's color bit travels
/// from source to destination, any opponent piece on the destination is
/// cleared, castling rights are filtered through both endpoints'
/// home-square masks, the en-passant target is reset (or set by a double
/// push), and the piece bitboards are updated by the move's kind.
pub open spec fn moved_state(s: State, m: Move) -> State {
    let from = m.s_from();
    let to = m.s_to();
    let fb = 1u64 << (from as u64);
    let tb = 1u64 << (to as u64);
    let my1 = (s.my_bb() & !fb) | tb;
    let opp1 = s.enemy_bb() & !tb;
    let castle1 = (s.castle & castle_rights_mask(from)) & castle_rights_mask(to);
    let base = State {
        ep: SquareIdx(255),
        castle: castle1,
        ..with_sides(s, my1, opp1)
    };
    match m.s_flags() {
        MoveFlags::PawnMove => State {
            pawns: BB(moved_piece_bb(s.pawns.0, true, from, to)),
            knights: BB(moved_piece_bb(s.knights.0, false, from, to)),
            bishops: BB(moved_piece_bb(s.bishops.0, false, from, to)),
            rooks: BB(moved_piece_bb(s.rooks.0, false, from, to)),
            queens: BB(moved_piece_bb(s.queens.0, false, from, to)),
            kings: BB(moved_piece_bb(s.kings.0, false, from, to)),
            ..base
        },
        MoveFlags::PawnDoublePush => State {
            pawns: BB(moved_piece_bb(s.pawns.0, true, from, to)),
            knights: BB(moved_piece_bb(s.knights.0, false, from, to)),
            bishops: BB(moved_piece_bb(s.bishops.0, false, from, to)),
            rooks: BB(moved_piece_bb(s.rooks.0, false, from, to)),
            queens: BB(moved_piece_bb(s.queens.0, false, from, to)),
            kings: BB(moved_piece_bb(s.kings.0, false, from, to)),
            ep: SquareIdx(
                (if s.color == Color::White {
                    to - 8
                } else {
                    to + 8
                }) as u8,
            ),
            ..base
        },
        MoveFlags::EP => {
            let cap = if s.color == Color::White {
                to - 8
            } else {
                to + 8
            };
            let cb = 1u64 << (cap as u64);
            State {
                pawns: BB(moved_piece_bb(s.pawns.0, true, from, to) & !cb),
                knights: BB(moved_piece_bb(s.knights.0, false, from, to)),
                bishops: BB(moved_piece_bb(s.bishops.0, false, from, to)),
                rooks: BB(moved_piece_bb(s.rooks.0, false, from, to)),
                queens: BB(moved_piece_bb(s.queens.0, false, from, to)),
                kings: BB(moved_piece_bb(s.kings.0, false, from, to)),
                ..with_sides(base, my1, opp1 & !cb)
            }
        },
        MoveFlags::PromoQueen => State {
            pawns: BB((s.pawns.0 & !fb) & !tb),
            knights: BB(s.knights.0 & !tb),
            bishops: BB(s.bishops.0 & !tb),
            rooks: BB(s.rooks.0 & !tb),
            queens: BB((s.queens.0 & !tb) | tb),
            kings: BB(s.kings.0 & !tb),
            ..base
        },
        MoveFlags::PromoRook => State {
            pawns: BB((s.pawns.0 & !fb) & !tb),
            knights: BB(s.knights.0 & !tb),
            bishops: BB(s.bishops.0 & !tb),
            rooks: BB((s.rooks.0 & !tb) | tb),
            queens: BB(s.queens.0 & !tb),
            kings: BB(s.kings.0 & !tb),
            ..base
        },
        MoveFlags::PromoKnight => State {
            pawns: BB((s.pawns.0 & !fb) & !tb),
            knights: BB((s.knights.0 & !tb) | tb),
            bishops: BB(s.bishops.0 & !tb),
            rooks: BB(s.rooks.0 & !tb),
            queens: BB(s.queens.0 & !tb),
            kings: BB(s.kings.0 & !tb),
            ..base
        },
        MoveFlags::PromoBishop => State {
            pawns: BB((s.pawns.0 & !fb) & !tb),
            knights: BB(s.knights.0 & !tb),
            bishops: BB((s.bishops.0 & !tb) | tb),
            rooks: BB(s.rooks.0 & !tb),
            queens: BB(s.queens.0 & !tb),
            kings: BB(s.kings.0 & !tb),
            ..base
        },
        MoveFlags::Castle => {
            let rfb = castle_rook_from_bb(to);
            let rtb = castle_rook_to_bb(to);
            let my2 = ((((my1 & !fb) | tb) & !rfb) | rtb);
            State {
                kings: BB((s.kings.0 & !fb) | tb),
                rooks: BB((s.rooks.0 & !rfb) | rtb),
                ..with_sides(base, my2, opp1)
            }
        },
        MoveFlags::BishopMove => State {
            pawns: BB(moved_piece_bb(s.pawns.0, false, from, to)),
            knights: BB(moved_piece_bb(s.knights.0, false, from, to)),
            bishops: BB(moved_piece_bb(s.bishops.0, true, from, to)),
            rooks: BB(moved_piece_bb(s.rooks.0, false, from, to)),
            queens: BB(moved_piece_bb(s.queens.0, false, from, to)),
            kings: BB(moved_piece_bb(s.kings.0, false, from, to)),
            ..base
        },
        MoveFlags::KnightMove => State {
            pawns: BB(moved_piece_bb(s.pawns.0, false, from, to)),
            knights: BB(moved_piece_bb(s.knights.0, true, from, to)),
            bishops: BB(moved_piece_bb(s.bishops.0, false, from, to)),
            rooks: BB(moved_piece_bb(s.rooks.0, false, from, to)),
            queens: BB(moved_piece_bb(s.queens.0, false, from, to)),
            kings: BB(moved_piece_bb(s.kings.0, false, from, to)),
            ..base
        },
        MoveFlags::RookMove => State {
            pawns: BB(moved_piece_bb(s.pawns.0, false, from, to)),
            knights: BB(moved_piece_bb(s.knights.0, false, from, to)),
            bishops: BB(moved_piece_bb(s.bishops.0, false, from, to)),
            rooks: BB(moved_piece_bb(s.rooks.0, true, from, to)),
            queens: BB(moved_piece_bb(s.queens.0, false, from, to)),
            kings: BB(moved_piece_bb(s.kings.0, false, from, to)),
            ..base
        },
        MoveFlags::QueenMove => State {
            pawns: BB(moved_piece_bb(s.pawns.0, false, from, to)),
            knights: BB(moved_piece_bb(s.knights.0, false, from, to)),
            bishops: BB(moved_piece_bb(s.bishops.0, false, from, to)),
            rooks: BB(moved_piece_bb(s.rooks.0, false, from, to)),
            queens: BB(moved_piece_bb(s.queens.0, true, from, to)),
            kings: BB(moved_piece_bb(s.kings.0, false, from, to)),
            ..base
        },
        MoveFlags::KingMove => State {
            pawns: BB(moved_piece_bb(s.pawns.0, false, from, to)),
            knights: BB(moved_piece_bb(s.knights.0, false, from, to)),
            bishops: BB(moved_piece_bb(s.bishops.0, false, from, to)),
            rooks: BB(moved_piece_bb(s.rooks.0, false, from, to)),
            queens: BB(moved_piece_bb(s.queens.0, false, from, to)),
            kings: BB(moved_piece_bb(s.kings.0, true, from, to)),
            ..base
        },
    }
}

/// `s` with the side to move flipped.
pub open spec fn flip_side(s: State) -> State {
    State { color: s.color.spec_opposite(), ..s }
}

/// The two sides are disjoint and each lies within the occupancy.
pub proof fn lemma_sides(s: State)
    requires
        s.wf(),
    ensures
        forall|t: int| !(bb_has(s.my_bb(), t) && bb_has(s.enemy_bb(), t)),
        forall|t: int| #[trigger] bb_has(s.my_bb(), t) ==> bb_has(s.occ(), t),
        forall|t: int| #[trigger] bb_has(s.enemy_bb(), t) ==> bb_has(s.occ(), t),
        forall|t: int| #[trigger] bb_has(s.occ(), t) ==> bb_has(s.my_bb(), t) || bb_has(s.enemy_bb(), t),
{
    lemma_bb_ops();
    assert forall|t: int| !(bb_has(s.my_bb(), t) && bb_has(s.enemy_bb(), t)) by {
        if bb_has(s.my_bb(), t) && bb_has(s.enemy_bb(), t) {
            assert(bb_has(s.side_w.0 & s.side_b.0, t));
        }
    }
}

/// What a generated move guarantees about the applier's arithmetic and
/// about the mover's king: the en-passant and double-push offsets stay on
/// the board, and the mover still has a king after the move is committed.
#[verifier::rlimit(100)]
pub proof fn lemma_move_prereqs(s: State, m: Move)
    requires
        s.wf(),
        s.coherent(),
        gen_move_ok(s, m),
    ensures
        m.s_flags() == MoveFlags::EP ==> (if s.color == Color::White {
            m.s_to() >= 8
        } else {
            m.s_to() < 56
        }),
        m.s_flags() == MoveFlags::PawnDoublePush ==> (if s.color == Color::White {
            m.s_to() >= 8
        } else {
            m.s_to() < 56
        }),
        moved_state(s, m).kings.0 & moved_state(s, m).my_bb() != 0,
{
    lemma_bb_ops();
    let from = m.s_from();
    let to = m.s_to();
    let fb = 1u64 << (from as u64);
    let tb = 1u64 << (to as u64);
    let mid = moved_state(s, m);
    let kk = choose|k: u64| k < 64 && (s.kings.0 & s.my_bb()) == (1u64 << k);
    assert(s.kings.0 & s.my_bb() == s.kings.0 & s.side_bb(s.color));
    assert(bb_has(s.kings.0 & s.my_bb(), kk as int));
    match m.s_flags() {
        MoveFlags::KingMove => {
            assert(bb_has(mid.kings.0, to));
            assert(bb_has(mid.my_bb(), to));
            assert(bb_has(mid.kings.0 & mid.my_bb(), to));
        },
        MoveFlags::Castle => {
            assert(castle_branch_ok(s, to));
            assert(to == 2 || to == 6 || to == 58 || to == 62);
            assert(bb_has(mid.kings.0, to));
            assert(bb_has(mid.my_bb(), to));
            assert(bb_has(mid.kings.0 & mid.my_bb(), to));
        },
        _ => {
            // The mover's king stands still; show its square is disturbed
            // by nothing the move touches.
            assert(bb_has(s.my_bb(), kk as int));
            lemma_sides(s);
            assert(kk != to) by {
                if m.s_flags() == MoveFlags::EP {
                    assert(to == s.ep.0);
                    assert(!bb_has(s.occ(), to));
                    assert(bb_has(s.occ(), kk as int));
                } else {
                    match m.s_flags() {
                        MoveFlags::PawnMove | MoveFlags::PromoQueen | MoveFlags::PromoRook
                            | MoveFlags::PromoKnight | MoveFlags::PromoBishop => {
                            assert(pawn_step_premise(s, from, to));
                            if bb_has(s.my_bb(), to) {
                                assert(!(bb_has(s.occ(), to)) || bb_has(s.enemy_bb(), to));
                                assert(false);
                            }
                        },
                        MoveFlags::PawnDoublePush => {
                            assert(!bb_has(s.occ(), to));
                        },
                        _ => {
                            assert(!bb_has(s.my_bb(), to));
                        },
                    }
                }
            }
            assert(kk != from) by {
                if kk == from {
                    match m.s_flags() {
                        MoveFlags::PawnMove | MoveFlags::PawnDoublePush | MoveFlags::EP
                            | MoveFlags::PromoQueen | MoveFlags::PromoRook
                            | MoveFlags::PromoKnight | MoveFlags::PromoBishop => {
                            assert(bb_has(s.pawns.0, from));
                            assert(bb_has(s.kings.0, from));
                            assert(s.pc_at(0) & s.pc_at(5) == 0);
                            assert(!bb_has(s.pc_at(0) & s.pc_at(5), from));
                            assert(false);
                        },
                        MoveFlags::KnightMove => {
                            assert(bb_has(s.knights.0, from) && bb_has(s.kings.0, from));
                            assert(s.pc_at(1) & s.pc_at(5) == 0);
                            assert(!bb_has(s.pc_at(1) & s.pc_at(5), from));
                            assert(false);
                        },
                        MoveFlags::BishopMove => {
                            assert(bb_has(s.bishops.0, from) && bb_has(s.kings.0, from));
                            assert(s.pc_at(2) & s.pc_at(5) == 0);
                            assert(!bb_has(s.pc_at(2) & s.pc_at(5), from));
                            assert(false);
                        },
                        MoveFlags::RookMove => {
                            assert(bb_has(s.rooks.0, from) && bb_has(s.kings.0, from));
                            assert(s.pc_at(3) & s.pc_at(5) == 0);
                            assert(!bb_has(s.pc_at(3) & s.pc_at(5), from));
                            assert(false);
                        },
                        MoveFlags::QueenMove => {
                            assert(bb_has(s.queens.0, from) && bb_has(s.kings.0, from));
                            assert(s.pc_at(4) & s.pc_at(5) == 0);
                            assert(!bb_has(s.pc_at(4) & s.pc_at(5), from));
                            assert(false);
                        },
                        _ => {
                            assert(false);
                        },
                    }
                }
            }
            if m.s_flags() == MoveFlags::EP {
                let cap = if s.color == Color::White {
                    to - 8
                } else {
                    to + 8
                };
                assert(to == s.ep.0);
                assert(kk != cap) by {
                    assert(bb_has(s.pawns.0, cap));
                    assert(bb_has(s.kings.0, kk as int));
                    assert(s.pc_at(0) & s.pc_at(5) == 0);
                    assert(!bb_has(s.pc_at(0) & s.pc_at(5), cap));
                }
                assert(bb_has(mid.kings.0, kk as int));
                assert(bb_has(mid.my_bb(), kk as int));
                assert(bb_has(mid.kings.0 & mid.my_bb(), kk as int));
            } else {
                assert(bb_has(mid.kings.0, kk as int));
                assert(bb_has(mid.my_bb(), kk as int));
                assert(bb_has(mid.kings.0 & mid.my_bb(), kk as int));
            }
        },
    }
}

/// Clearing a bit twice, or setting then clearing it, is one clear.
proof fn lemma_redundant_clear()
    ensures
        forall|x: u64, t: u64| #[trigger] ((x | t) & !t) == x & !t,
        forall|x: u64, t: u64| #[trigger] ((x & !t) & !t) == x & !t,
{
    assert forall|x: u64, t: u64| #[trigger] ((x | t) & !t) == x & !t by {
        assert(((x | t) & !t) == x & !t) by (bit_vector);
    }
    assert forall|x: u64, t: u64| #[trigger] ((x & !t) & !t) == x & !t by {
        assert(((x & !t) & !t) == x & !t) by (bit_vector);
    }
}

/// The board clauses of `wf` survive a plain piece move: the kind-`k`
/// piece leaves `from` for `to`, every kind is cleared at `to`, the
/// mover's color bit travels with it and the opponent loses `to`.
proof fn lemma_wf_move_shape(s: State, mid: State, from: int, to: int, k: int)
    requires
        s.wf(),
        0 <= from < 64,
        0 <= to < 64,
        0 <= k < 6,
        bb_has(s.pc_at(k), from),
        bb_has(s.my_bb(), from),
        !bb_has(s.my_bb(), to),
        mid.side_bb(s.color) == (s.my_bb() & !(1u64 << (from as u64))) | (1u64 << (to as u64)),
        mid.side_bb(s.color.spec_opposite()) == s.enemy_bb() & !(1u64 << (to as u64)),
        forall|i: int|
            0 <= i < 6 ==> #[trigger] mid.pc_at(i) == moved_piece_bb(s.pc_at(i), i == k, from, to),
    ensures
        mid.side_w.0 & mid.side_b.0 == 0,
        forall|i: int, j: int| 0 <= i < j < 6 ==> #[trigger] (mid.pc_at(i) & mid.pc_at(j)) == 0,
        mid.piece_occ() == mid.occ(),
{
    lemma_bb_ops();
    lemma_sides(s);
    let fb = 1u64 << (from as u64);
    let tb = 1u64 << (to as u64);
    let myc = s.color;
    let oppc = s.color.spec_opposite();
    // Membership of the new piece boards.
    assert forall|i: int, t: int|
        0 <= i < 6 implies (#[trigger] bb_has(mid.pc_at(i), t) <==> (if i == k {
        (bb_has(s.pc_at(i), t) && t != from && t != to) || t == to
    } else {
        bb_has(s.pc_at(i), t) && t != to
    })) by {
        assert(mid.pc_at(i) == moved_piece_bb(s.pc_at(i), i == k, from, to));
    }
    // Membership of the new color boards.
    assert forall|t: int|
        #[trigger] bb_has(mid.side_bb(myc), t) <==> ((bb_has(s.my_bb(), t) && t != from) || t == to)
        by {}
    assert forall|t: int|
        #[trigger] bb_has(mid.side_bb(oppc), t) <==> (bb_has(s.enemy_bb(), t) && t != to) by {}
    // Piece boards other than kind k hold nothing at `from`.
    assert forall|i: int| 0 <= i < 6 && i != k implies !bb_has(#[trigger] s.pc_at(i), from) by {
        if bb_has(s.pc_at(i), from) {
            if i < k {
                assert(s.pc_at(i) & s.pc_at(k) == 0);
                assert(!bb_has(s.pc_at(i) & s.pc_at(k), from));
            } else {
                assert(s.pc_at(k) & s.pc_at(i) == 0);
                assert(!bb_has(s.pc_at(k) & s.pc_at(i), from));
            }
        }
    }
    // Clause 1: the sides stay disjoint.
    assert forall|t: int| !(bb_has(mid.side_w.0, t) && bb_has(mid.side_b.0, t)) by {
        assert(mid.side_w.0 == mid.side_bb(Color::White) && mid.side_b.0 == mid.side_bb(
            Color::Black,
        ));
        if bb_has(mid.side_bb(myc), t) && bb_has(mid.side_bb(oppc), t) {
            assert(bb_has(s.my_bb(), t) && bb_has(s.enemy_bb(), t));
        }
    }
    assert forall|t: int| bb_has(mid.side_w.0 & mid.side_b.0, t) <==> bb_has(0u64, t) by {}
    lemma_bb_ext(mid.side_w.0 & mid.side_b.0, 0);
    // Clause 2: the piece boards stay pairwise disjoint.
    assert forall|i: int, j: int|
        0 <= i < j < 6 implies #[trigger] (mid.pc_at(i) & mid.pc_at(j)) == 0 by {
        assert forall|t: int| bb_has(mid.pc_at(i) & mid.pc_at(j), t) <==> bb_has(0u64, t) by {
            if bb_has(mid.pc_at(i), t) && bb_has(mid.pc_at(j), t) {
                assert(bb_has(s.pc_at(i), t) && bb_has(s.pc_at(j), t));
                assert(s.pc_at(i) & s.pc_at(j) == 0);
                assert(!bb_has(s.pc_at(i) & s.pc_at(j), t));
            }
        }
        lemma_bb_ext(mid.pc_at(i) & mid.pc_at(j), 0);
    }
    // Clause 3: the union of the pieces is the union of the colors.
    assert forall|t: int| bb_has(mid.piece_occ(), t) <==> bb_has(mid.occ(), t) by {
        assert(bb_has(mid.piece_occ(), t) <==> (bb_has(mid.pc_at(0), t) || bb_has(mid.pc_at(1), t)
            || bb_has(mid.pc_at(2), t) || bb_has(mid.pc_at(3), t) || bb_has(mid.pc_at(4), t)
            || bb_has(mid.pc_at(5), t)));
        assert(bb_has(s.piece_occ(), t) <==> (bb_has(s.pc_at(0), t) || bb_has(s.pc_at(1), t)
            || bb_has(s.pc_at(2), t) || bb_has(s.pc_at(3), t) || bb_has(s.pc_at(4), t) || bb_has(
            s.pc_at(5),
            t,
        )));
        assert(bb_has(mid.occ(), t) <==> (bb_has(mid.side_bb(myc), t) || bb_has(
            mid.side_bb(oppc),
            t,
        )));
        assert(bb_has(s.occ(), t) <==> bb_has(s.piece_occ(), t));
        if t == from {
            assert(!bb_has(s.enemy_bb(), from));
        }
    }
    lemma_bb_ext(mid.piece_occ(), mid.occ());
}

/// The board clauses of `wf` survive an en-passant capture: a pawn move
/// from `from` to the empty square `to` together with the removal of the
/// passed-over enemy pawn on `cap`.
proof fn lemma_wf_ep_shape(s: State, mid: State, from: int, to: int, cap: int)
    requires
        s.wf(),
        0 <= from < 64,
        0 <= to < 64,
        0 <= cap < 64,
        bb_has(s.pawns.0, from),
        bb_has(s.my_bb(), from),
        !bb_has(s.occ(), to),
        bb_has(s.pawns.0, cap),
        bb_has(s.enemy_bb(), cap),
        mid.side_bb(s.color) == (s.my_bb() & !(1u64 << (from as u64))) | (1u64 << (to as u64)),
        mid.side_bb(s.color.spec_opposite()) == (s.enemy_bb() & !(1u64 << (to as u64))) & !(1u64
            << (cap as u64)),
        mid.pawns.0 == moved_piece_bb(s.pawns.0, true, from, to) & !(1u64 << (cap as u64)),
        mid.knights.0 == moved_piece_bb(s.knights.0, false, from, to),
        mid.bishops.0 == moved_piece_bb(s.bishops.0, false, from, to),
        mid.rooks.0 == moved_piece_bb(s.rooks.0, false, from, to),
        mid.queens.0 == moved_piece_bb(s.queens.0, false, from, to),
        mid.kings.0 == moved_piece_bb(s.kings.0, false, from, to),
    ensures
        mid.side_w.0 & mid.side_b.0 == 0,
        forall|i: int, j: int| 0 <= i < j < 6 ==> #[trigger] (mid.pc_at(i) & mid.pc_at(j)) == 0,
        mid.piece_occ() == mid.occ(),
{
    lemma_bb_ops();
    lemma_sides(s);
    let myc = s.color;
    let oppc = s.color.spec_opposite();
    // Only pawns hold `cap` and `from`.
    assert forall|i: int| 1 <= i < 6 implies !bb_has(#[trigger] s.pc_at(i), cap) && !bb_has(
        s.pc_at(i),
        from,
    ) by {
        assert(s.pc_at(0) & s.pc_at(i) == 0);
        assert(!bb_has(s.pc_at(0) & s.pc_at(i), cap));
        assert(!bb_has(s.pc_at(0) & s.pc_at(i), from));
    }
    assert forall|i: int, t: int|
        0 <= i < 6 implies (#[trigger] bb_has(mid.pc_at(i), t) <==> (if i == 0 {
        ((bb_has(s.pc_at(i), t) && t != from && t != to) || t == to) && t != cap
    } else {
        bb_has(s.pc_at(i), t) && t != to
    })) by {}
    assert forall|t: int|
        #[trigger] bb_has(mid.side_bb(myc), t) <==> ((bb_has(s.my_bb(), t) && t != from) || t == to)
        by {}
    assert forall|t: int|
        #[trigger] bb_has(mid.side_bb(oppc), t) <==> (bb_has(s.enemy_bb(), t) && t != to && t
            != cap) by {}
    assert(cap != to);
    assert(to != from);
    assert(cap != from);
    assert forall|t: int| bb_has(mid.side_w.0 & mid.side_b.0, t) <==> bb_has(0u64, t) by {
        assert(mid.side_w.0 == mid.side_bb(Color::White) && mid.side_b.0 == mid.side_bb(
            Color::Black,
        ));
        if bb_has(mid.side_bb(myc), t) && bb_has(mid.side_bb(oppc), t) {
            assert(bb_has(s.my_bb(), t) && bb_has(s.enemy_bb(), t));
        }
    }
    lemma_bb_ext(mid.side_w.0 & mid.side_b.0, 0);
    assert forall|i: int, j: int|
        0 <= i < j < 6 implies #[trigger] (mid.pc_at(i) & mid.pc_at(j)) == 0 by {
        assert forall|t: int| bb_has(mid.pc_at(i) & mid.pc_at(j), t) <==> bb_has(0u64, t) by {
            if bb_has(mid.pc_at(i), t) && bb_has(mid.pc_at(j), t) {
                assert(bb_has(s.pc_at(i), t) && bb_has(s.pc_at(j), t));
                assert(s.pc_at(i) & s.pc_at(j) == 0);
                assert(!bb_has(s.pc_at(i) & s.pc_at(j), t));
            }
        }
        lemma_bb_ext(mid.pc_at(i) & mid.pc_at(j), 0);
    }
    assert forall|t: int| bb_has(mid.piece_occ(), t) <==> bb_has(mid.occ(), t) by {
        assert(bb_has(mid.piece_occ(), t) <==> (bb_has(mid.pc_at(0), t) || bb_has(mid.pc_at(1), t)
            || bb_has(mid.pc_at(2), t) || bb_has(mid.pc_at(3), t) || bb_has(mid.pc_at(4), t)
            || bb_has(mid.pc_at(5), t)));
        assert(bb_has(s.piece_occ(), t) <==> (bb_has(s.pc_at(0), t) || bb_has(s.pc_at(1), t)
            || bb_has(s.pc_at(2), t) || bb_has(s.pc_at(3), t) || bb_has(s.pc_at(4), t) || bb_has(
            s.pc_at(5),
            t,
        )));
        assert(bb_has(mid.occ(), t) <==> (bb_has(mid.side_bb(myc), t) || bb_has(
            mid.side_bb(oppc),
            t,
        )));
        assert(bb_has(s.occ(), t) <==> bb_has(s.piece_occ(), t));
        if t == from {
            assert(!bb_has(s.enemy_bb(), from));
        }
        if t == cap {
            assert(!bb_has(s.my_bb(), cap));
        }
    }
    lemma_bb_ext(mid.piece_occ(), mid.occ());
}

/// The board clauses of `wf` survive a promotion: the pawn leaves `from`,
/// every kind is cleared at `to`, and the promoted kind `pk` appears
/// there instead.
proof fn lemma_wf_promo_shape(s: State, mid: State, from: int, to: int, pk: int)
    requires
        s.wf(),
        0 <= from < 64,
        0 <= to < 64,
        1 <= pk < 5,
        bb_has(s.pawns.0, from),
        bb_has(s.my_bb(), from),
        !bb_has(s.my_bb(), to),
        mid.side_bb(s.color) == (s.my_bb() & !(1u64 << (from as u64))) | (1u64 << (to as u64)),
        mid.side_bb(s.color.spec_opposite()) == s.enemy_bb() & !(1u64 << (to as u64)),
        mid.pc_at(0) == (s.pawns.0 & !(1u64 << (from as u64))) & !(1u64 << (to as u64)),
        forall|i: int|
            1 <= i < 6 && i != pk ==> #[trigger] mid.pc_at(i) == s.pc_at(i) & !(1u64 << (
            to as u64)),
        mid.pc_at(pk) == (s.pc_at(pk) & !(1u64 << (to as u64))) | (1u64 << (to as u64)),
    ensures
        mid.side_w.0 & mid.side_b.0 == 0,
        forall|i: int, j: int| 0 <= i < j < 6 ==> #[trigger] (mid.pc_at(i) & mid.pc_at(j)) == 0,
        mid.piece_occ() == mid.occ(),
{
    lemma_bb_ops();
    lemma_sides(s);
    let myc = s.color;
    let oppc = s.color.spec_opposite();
    assert forall|i: int| 1 <= i < 6 implies !bb_has(#[trigger] s.pc_at(i), from) by {
        assert(s.pc_at(0) & s.pc_at(i) == 0);
        assert(!bb_has(s.pc_at(0) & s.pc_at(i), from));
    }
    assert forall|i: int, t: int|
        0 <= i < 6 implies (#[trigger] bb_has(mid.pc_at(i), t) <==> (if i == pk {
        (bb_has(s.pc_at(i), t) && t != to) || t == to
    } else if i == 0 {
        bb_has(s.pc_at(i), t) && t != from && t != to
    } else {
        bb_has(s.pc_at(i), t) && t != to
    })) by {}
    assert forall|t: int|
        #[trigger] bb_has(mid.side_bb(myc), t) <==> ((bb_has(s.my_bb(), t) && t != from) || t == to)
        by {}
    assert forall|t: int|
        #[trigger] bb_has(mid.side_bb(oppc), t) <==> (bb_has(s.enemy_bb(), t) && t != to) by {}
    assert forall|t: int| bb_has(mid.side_w.0 & mid.side_b.0, t) <==> bb_has(0u64, t) by {
        assert(mid.side_w.0 == mid.side_bb(Color::White) && mid.side_b.0 == mid.side_bb(
            Color::Black,
        ));
        if bb_has(mid.side_bb(myc), t) && bb_has(mid.side_bb(oppc), t) {
            assert(bb_has(s.my_bb(), t) && bb_has(s.enemy_bb(), t));
        }
    }
    lemma_bb_ext(mid.side_w.0 & mid.side_b.0, 0);
    assert forall|i: int, j: int|
        0 <= i < j < 6 implies #[trigger] (mid.pc_at(i) & mid.pc_at(j)) == 0 by {
        assert forall|t: int| bb_has(mid.pc_at(i) & mid.pc_at(j), t) <==> bb_has(0u64, t) by {
            if bb_has(mid.pc_at(i), t) && bb_has(mid.pc_at(j), t) {
                assert(bb_has(s.pc_at(i), t) && bb_has(s.pc_at(j), t));
                assert(s.pc_at(i) & s.pc_at(j) == 0);
                assert(!bb_has(s.pc_at(i) & s.pc_at(j), t));
            }
        }
        lemma_bb_ext(mid.pc_at(i) & mid.pc_at(j), 0);
    }
    assert forall|t: int| bb_has(mid.piece_occ(), t) <==> bb_has(mid.occ(), t) by {
        assert(bb_has(mid.piece_occ(), t) <==> (bb_has(mid.pc_at(0), t) || bb_has(mid.pc_at(1), t)
            || bb_has(mid.pc_at(2), t) || bb_has(mid.pc_at(3), t) || bb_has(mid.pc_at(4), t)
            || bb_has(mid.pc_at(5), t)));
        assert(bb_has(s.piece_occ(), t) <==> (bb_has(s.pc_at(0), t) || bb_has(s.pc_at(1), t)
            || bb_has(s.pc_at(2), t) || bb_has(s.pc_at(3), t) || bb_has(s.pc_at(4), t) || bb_has(
            s.pc_at(5),
            t,
        )));
        assert(bb_has(mid.occ(), t) <==> (bb_has(mid.side_bb(myc), t) || bb_has(
            mid.side_bb(oppc),
            t,
        )));
        assert(bb_has(s.occ(), t) <==> bb_has(s.piece_occ(), t));
        if t == from {
            assert(!bb_has(s.enemy_bb(), from));
        }
    }
    lemma_bb_ext(mid.piece_occ(), mid.occ());
}

/// The board clauses of `wf` survive castling: the king steps from `from`
/// to the empty square `to` and the rook from `rf` to the empty square
/// `rt`, all within the mover's color.
#[verifier::rlimit(100)]
proof fn lemma_wf_castle_shape(s: State, mid: State, from: int, to: int, rf: int, rt: int)
    requires
        s.wf(),
        0 <= from < 64,
        0 <= to < 64,
        0 <= rf < 64,
        0 <= rt < 64,
        from != rf && from != to && from != rt && to != rf && to != rt && rf != rt,
        bb_has(s.kings.0, from),
        bb_has(s.my_bb(), from),
        bb_has(s.rooks.0, rf),
        bb_has(s.my_bb(), rf),
        !bb_has(s.occ(), to),
        !bb_has(s.occ(), rt),
        mid.side_bb(s.color) == (((((s.my_bb() & !(1u64 << (from as u64))) | (1u64 << (
        to as u64))) & !(1u64 << (from as u64))) | (1u64 << (to as u64))) & !(1u64 << (rf as u64)))
            | (1u64 << (rt as u64)),
        mid.side_bb(s.color.spec_opposite()) == s.enemy_bb() & !(1u64 << (to as u64)),
        mid.pawns.0 == s.pawns.0,
        mid.knights.0 == s.knights.0,
        mid.bishops.0 == s.bishops.0,
        mid.queens.0 == s.queens.0,
        mid.kings.0 == (s.kings.0 & !(1u64 << (from as u64))) | (1u64 << (to as u64)),
        mid.rooks.0 == (s.rooks.0 & !(1u64 << (rf as u64))) | (1u64 << (rt as u64)),
    ensures
        mid.side_w.0 & mid.side_b.0 == 0,
        forall|i: int, j: int| 0 <= i < j < 6 ==> #[trigger] (mid.pc_at(i) & mid.pc_at(j)) == 0,
        mid.piece_occ() == mid.occ(),
{
    lemma_bb_ops();
    lemma_sides(s);
    let myc = s.color;
    let oppc = s.color.spec_opposite();
    // `from` is only a king, `rf` only a rook, `to` and `rt` are empty.
    assert forall|i: int| 0 <= i < 6 && i != 5 implies !bb_has(#[trigger] s.pc_at(i), from) by {
        if bb_has(s.pc_at(i), from) {
            assert(s.pc_at(i) & s.pc_at(5) == 0);
            assert(!bb_has(s.pc_at(i) & s.pc_at(5), from));
        }
    }
    assert forall|i: int| 0 <= i < 6 && i != 3 implies !bb_has(#[trigger] s.pc_at(i), rf) by {
        if bb_has(s.pc_at(i), rf) {
            if i < 3 {
                assert(s.pc_at(i) & s.pc_at(3) == 0);
                assert(!bb_has(s.pc_at(i) & s.pc_at(3), rf));
            } else {
                assert(s.pc_at(3) & s.pc_at(i) == 0);
                assert(!bb_has(s.pc_at(3) & s.pc_at(i), rf));
            }
        }
    }
    assert forall|i: int| 0 <= i < 6 implies !bb_has(#[trigger] s.pc_at(i), to) && !bb_has(
        s.pc_at(i),
        rt,
    ) by {
        assert(bb_has(s.occ(), to) <==> bb_has(s.piece_occ(), to));
        assert(bb_has(s.occ(), rt) <==> bb_has(s.piece_occ(), rt));
        assert(bb_has(s.piece_occ(), to) <==> (bb_has(s.pc_at(0), to) || bb_has(s.pc_at(1), to)
            || bb_has(s.pc_at(2), to) || bb_has(s.pc_at(3), to) || bb_has(s.pc_at(4), to)
            || bb_has(s.pc_at(5), to)));
        assert(bb_has(s.piece_occ(), rt) <==> (bb_has(s.pc_at(0), rt) || bb_has(s.pc_at(1), rt)
            || bb_has(s.pc_at(2), rt) || bb_has(s.pc_at(3), rt) || bb_has(s.pc_at(4), rt)
            || bb_has(s.pc_at(5), rt)));
    }
    assert forall|i: int, t: int|
        0 <= i < 6 implies (#[trigger] bb_has(mid.pc_at(i), t) <==> (if i == 5 {
        (bb_has(s.pc_at(i), t) && t != from) || t == to
    } else if i == 3 {
        (bb_has(s.pc_at(i), t) && t != rf) || t == rt
    } else {
        bb_has(s.pc_at(i), t)
    })) by {}
    assert forall|t: int|
        #[trigger] bb_has(mid.side_bb(myc), t) <==> (t == rt || t == to || (bb_has(s.my_bb(), t)
            && t != from && t != rf)) by {}
    assert forall|t: int|
        #[trigger] bb_has(mid.side_bb(oppc), t) <==> (bb_has(s.enemy_bb(), t) && t != to) by {}
    assert forall|t: int| bb_has(mid.side_w.0 & mid.side_b.0, t) <==> bb_has(0u64, t) by {
        assert(mid.side_w.0 == mid.side_bb(Color::White) && mid.side_b.0 == mid.side_bb(
            Color::Black,
        ));
        if bb_has(mid.side_bb(myc), t) && bb_has(mid.side_bb(oppc), t) {
            assert(bb_has(s.enemy_bb(), t));
            assert(t != to && t != rt);
            assert(bb_has(s.my_bb(), t));
        }
    }
    lemma_bb_ext(mid.side_w.0 & mid.side_b.0, 0);
    assert forall|i: int, j: int|
        0 <= i < j < 6 implies #[trigger] (mid.pc_at(i) & mid.pc_at(j)) == 0 by {
        assert forall|t: int| bb_has(mid.pc_at(i) & mid.pc_at(j), t) <==> bb_has(0u64, t) by {
            if bb_has(mid.pc_at(i), t) && bb_has(mid.pc_at(j), t) {
                if t != to && t != rt {
                    assert(bb_has(s.pc_at(i), t) && bb_has(s.pc_at(j), t));
                    assert(s.pc_at(i) & s.pc_at(j) == 0);
                    assert(!bb_has(s.pc_at(i) & s.pc_at(j), t));
                }
            }
        }
        lemma_bb_ext(mid.pc_at(i) & mid.pc_at(j), 0);
    }
    assert forall|t: int| bb_has(mid.piece_occ(), t) <==> bb_has(mid.occ(), t) by {
        assert(bb_has(mid.piece_occ(), t) <==> (bb_has(mid.pc_at(0), t) || bb_has(mid.pc_at(1), t)
            || bb_has(mid.pc_at(2), t) || bb_has(mid.pc_at(3), t) || bb_has(mid.pc_at(4), t)
            || bb_has(mid.pc_at(5), t)));
        assert(bb_has(s.piece_occ(), t) <==> (bb_has(s.pc_at(0), t) || bb_has(s.pc_at(1), t)
            || bb_has(s.pc_at(2), t) || bb_has(s.pc_at(3), t) || bb_has(s.pc_at(4), t) || bb_has(
            s.pc_at(5),
            t,
        )));
        assert(bb_has(mid.occ(), t) <==> (bb_has(mid.side_bb(myc), t) || bb_has(
            mid.side_bb(oppc),
            t,
        )));
        assert(bb_has(s.occ(), t) <==> bb_has(s.piece_occ(), t));
        if t == from || t == rf {
            assert(!bb_has(s.enemy_bb(), t));
        }
    }
    lemma_bb_ext(mid.piece_occ(), mid.occ());
}

/// The members of the four castle between-squares masks.
proof fn lemma_castle_masks()
    ensures
        bb_has(0x60u64, 5) && bb_has(0x60u64, 6),
        bb_has(0xeu64, 1) && bb_has(0xeu64, 2) && bb_has(0xeu64, 3),
        bb_has(0x6000000000000000u64, 61) && bb_has(0x6000000000000000u64, 62),
        bb_has(0xe00000000000000u64, 57) && bb_has(0xe00000000000000u64, 58) && bb_has(
            0xe00000000000000u64,
            59,
        ),
{
    assert((0x60u64 >> 5u64) & 1u64 == 1u64 && (0x60u64 >> 6u64) & 1u64 == 1u64 && (0xeu64
        >> 1u64) & 1u64 == 1u64 && (0xeu64 >> 2u64) & 1u64 == 1u64 && (0xeu64 >> 3u64) & 1u64
        == 1u64 && (0x6000000000000000u64 >> 61u64) & 1u64 == 1u64 && (0x6000000000000000u64
        >> 62u64) & 1u64 == 1u64 && (0xe00000000000000u64 >> 57u64) & 1u64 == 1u64 && (
    0xe00000000000000u64 >> 58u64) & 1u64 == 1u64 && (0xe00000000000000u64 >> 59u64) & 1u64
        == 1u64) by (bit_vector);
}

/// The committed position keeps the basic board invariants, whatever the
/// move's kind: the color bitboards stay disjoint and the union of the
/// piece bitboards stays the union of the color bitboards.
#[verifier::rlimit(100)]
pub proof fn lemma_moved_wf(s: State, m: Move)
    requires
        s.wf(),
        s.coherent(),
        gen_move_ok(s, m),
    ensures
        moved_state(s, m).wf(),
        flip_side(moved_state(s, m)).wf(),
{
    lemma_bb_ops();
    lemma_sides(s);
    lemma_move_prereqs(s, m);
    let mid = moved_state(s, m);
    let from = m.s_from();
    let to = m.s_to();
    let c0 = s.castle;
    let m1 = castle_rights_mask(from);
    let m2 = castle_rights_mask(to);
    assert(mid.castle == (c0 & m1) & m2);
    assert(c0 < 16 ==> ((c0 & m1) & m2) < 16) by (bit_vector);
    match m.s_flags() {
        MoveFlags::PawnMove => {
            if pawn_cap_reaches(s.color, from, to) && bb_has(s.enemy_bb(), to) {
                lemma_wf_move_shape(s, mid, from, to, 0);
            } else {
                lemma_wf_move_shape(s, mid, from, to, 0);
            }
        },
        MoveFlags::PawnDoublePush => {
            lemma_wf_move_shape(s, mid, from, to, 0);
        },
        MoveFlags::EP => {
            let cap = if s.color == Color::White {
                to - 8
            } else {
                to + 8
            };
            assert(to == s.ep.0);
            assert(bb_has(s.pawns.0 & s.enemy_bb(), cap));
            lemma_wf_ep_shape(s, mid, from, to, cap);
        },
        MoveFlags::PromoQueen => {
            lemma_wf_promo_shape(s, mid, from, to, 4);
        },
        MoveFlags::PromoRook => {
            lemma_wf_promo_shape(s, mid, from, to, 3);
        },
        MoveFlags::PromoKnight => {
            lemma_wf_promo_shape(s, mid, from, to, 1);
        },
        MoveFlags::PromoBishop => {
            lemma_wf_promo_shape(s, mid, from, to, 2);
        },
        MoveFlags::KnightMove => {
            lemma_wf_move_shape(s, mid, from, to, 1);
        },
        MoveFlags::BishopMove => {
            lemma_wf_move_shape(s, mid, from, to, 2);
        },
        MoveFlags::RookMove => {
            lemma_wf_move_shape(s, mid, from, to, 3);
        },
        MoveFlags::QueenMove => {
            lemma_wf_move_shape(s, mid, from, to, 4);
        },
        MoveFlags::KingMove => {
            lemma_wf_move_shape(s, mid, from, to, 5);
        },
        MoveFlags::Castle => {
            lemma_castle_masks();
            assert(castle_branch_ok(s, to));
            let kk = choose|k: u64|
                k < 64 && (s.kings.0 & s.my_bb()) == (1u64 << k);
            assert(bb_has(s.kings.0 & s.my_bb(), from));
            assert(from == kk);
            let rf: int = if to == 2 {
                0
            } else if to == 6 {
                7
            } else if to == 58 {
                56
            } else {
                63
            };
            let rt: int = if to == 2 {
                3
            } else if to == 6 {
                5
            } else if to == 58 {
                59
            } else {
                61
            };
            if to == 6 {
                assert(bb_has(s.kings.0 & s.side_w.0, 4));
                assert(from == 4);
                assert(bb_has(s.rooks.0 & s.side_w.0, 7));
                assert(!bb_has(s.occ(), 5) && !bb_has(s.occ(), 6)) by {
                    assert(!bb_has(s.occ() & 0x60u64, 5) && !bb_has(s.occ() & 0x60u64, 6));
                }
            } else if to == 2 {
                assert(bb_has(s.kings.0 & s.side_w.0, 4));
                assert(from == 4);
                assert(bb_has(s.rooks.0 & s.side_w.0, 0));
                assert(!bb_has(s.occ(), 2) && !bb_has(s.occ(), 3)) by {
                    assert(!bb_has(s.occ() & 0xeu64, 2) && !bb_has(s.occ() & 0xeu64, 3));
                }
            } else if to == 62 {
                assert(bb_has(s.kings.0 & s.side_b.0, 60));
                assert(from == 60);
                assert(bb_has(s.rooks.0 & s.side_b.0, 63));
                assert(!bb_has(s.occ(), 61) && !bb_has(s.occ(), 62)) by {
                    assert(!bb_has(s.occ() & 0x6000000000000000u64, 61) && !bb_has(
                        s.occ() & 0x6000000000000000u64,
                        62,
                    ));
                }
            } else {
                assert(bb_has(s.kings.0 & s.side_b.0, 60));
                assert(from == 60);
                assert(bb_has(s.rooks.0 & s.side_b.0, 56));
                assert(!bb_has(s.occ(), 58) && !bb_has(s.occ(), 59)) by {
                    assert(!bb_has(s.occ() & 0xe00000000000000u64, 58) && !bb_has(
                        s.occ() & 0xe00000000000000u64,
                        59,
                    ));
                }
            }
            lemma_wf_castle_shape(s, mid, from, to, rf, rt);
        },
    }
    assert(mid.wf());
    let fm = flip_side(mid);
    assert forall|i: int, j: int|
        0 <= i < j < 6 implies #[trigger] (fm.pc_at(i) & fm.pc_at(j)) == 0 by {
        assert(fm.pc_at(i) == mid.pc_at(i) && fm.pc_at(j) == mid.pc_at(j));
        assert(mid.pc_at(i) & mid.pc_at(j) == 0);
    }
    assert(fm.piece_occ() == mid.piece_occ() && fm.occ() == mid.occ());
    assert(fm.wf());
}

/// Which castling-rights bits each home-square mask keeps.
proof fn lemma_crm_bits()
    ensures
        forall|sq: int|
            #[trigger] (castle_rights_mask(sq) & 1) != 0 <==> (sq != 7 && sq != 4),
        forall|sq: int|
            #[trigger] (castle_rights_mask(sq) & 2) != 0 <==> (sq != 0 && sq != 4),
        forall|sq: int|
            #[trigger] (castle_rights_mask(sq) & 4) != 0 <==> (sq != 63 && sq != 60),
        forall|sq: int|
            #[trigger] (castle_rights_mask(sq) & 8) != 0 <==> (sq != 56 && sq != 60),
        forall|c: u8, m1: u8, m2: u8, b: u8|
            #[trigger] (((c & m1) & m2) & b) != 0 ==> (c & b != 0 && (m1 & b) != 0 && (m2 & b)
                != 0),
{
    assert(0b1101u8 & 1 == 1 && 0b1110u8 & 1 == 0 && 0b1100u8 & 1 == 0 && 0b0111u8 & 1 == 1
        && 0b1011u8 & 1 == 1 && 0b0011u8 & 1 == 1 && 0xffu8 & 1 == 1 && 0b1101u8 & 2 == 0
        && 0b1110u8 & 2 == 2 && 0b1100u8 & 2 == 0 && 0b0111u8 & 2 == 2 && 0b1011u8 & 2 == 2
        && 0b0011u8 & 2 == 2 && 0xffu8 & 2 == 2 && 0b1101u8 & 4 == 4 && 0b1110u8 & 4 == 4
        && 0b1100u8 & 4 == 4 && 0b0111u8 & 4 == 4 && 0b1011u8 & 4 == 0 && 0b0011u8 & 4 == 0
        && 0xffu8 & 4 == 4 && 0b1101u8 & 8 == 8 && 0b1110u8 & 8 == 8 && 0b1100u8 & 8 == 8
        && 0b0111u8 & 8 == 0 && 0b1011u8 & 8 == 8 && 0b0011u8 & 8 == 0 && 0xffu8 & 8 == 8)
        by (bit_vector);
    assert forall|c: u8, m1: u8, m2: u8, b: u8|
        #[trigger] (((c & m1) & m2) & b) != 0 implies (c & b != 0 && (m1 & b) != 0 && (m2 & b)
            != 0) by {
        assert(((c & m1) & m2) & b != 0 ==> (c & b != 0 && (m1 & b) != 0 && (m2 & b) != 0))
            by (bit_vector);
    }
}

/// The committed position, seen from the other side, keeps the richer
/// invariants too, provided the move does not capture the opponent's
/// king: one king per side, a sound en-passant target, and castling
/// rights only with king and rook at home.
#[verifier::rlimit(100)]
pub proof fn lemma_moved_coherent(s: State, m: Move)
    requires
        s.wf(),
        s.coherent(),
        gen_move_ok(s, m),
        !bb_has(s.kings.0 & s.enemy_bb(), m.s_to()),
    ensures
        flip_side(moved_state(s, m)).coherent(),
{
    lemma_bb_ops();
    lemma_sides(s);
    lemma_move_prereqs(s, m);
    lemma_crm_bits();
    let mid = moved_state(s, m);
    let fm = flip_side(mid);
    let from = m.s_from();
    let to = m.s_to();
    let kk = choose|k: u64| k < 64 && (s.kings.0 & s.my_bb()) == (1u64 << k);
    let ke = choose|k: u64|
        k < 64 && (s.kings.0 & s.enemy_bb()) == (1u64 << k);
    assert(s.kings.0 & s.my_bb() == s.kings.0 & s.side_bb(s.color));
    assert(s.kings.0 & s.enemy_bb() == s.kings.0 & s.side_bb(s.color.spec_opposite()));
    assert(bb_has(s.kings.0 & s.my_bb(), kk as int));
    assert(bb_has(s.kings.0 & s.enemy_bb(), ke as int));
    let flg = m.s_flags();
    let king_moves = flg == MoveFlags::KingMove || flg == MoveFlags::Castle;
    let cap: int = if flg == MoveFlags::EP {
        if s.color == Color::White {
            to - 8
        } else {
            to + 8
        }
    } else {
        -1
    };
    let rfq: int = if flg == MoveFlags::Castle {
        if to == 2 {
            0
        } else if to == 6 {
            7
        } else if to == 58 {
            56
        } else {
            63
        }
    } else {
        -1
    };
    let rtq: int = if flg == MoveFlags::Castle {
        if to == 2 {
            3
        } else if to == 6 {
            5
        } else if to == 58 {
            59
        } else {
            61
        }
    } else {
        -1
    };
    if flg == MoveFlags::Castle {
        lemma_castle_masks();
        assert(castle_branch_ok(s, to));
        assert(to == 2 || to == 6 || to == 58 || to == 62);
        assert(!bb_has(s.occ(), to) && !bb_has(s.occ(), rtq)) by {
            if to == 6 {
                assert(!bb_has(s.occ() & 0x60u64, 5) && !bb_has(s.occ() & 0x60u64, 6));
            } else if to == 2 {
                assert(!bb_has(s.occ() & 0xeu64, 2) && !bb_has(s.occ() & 0xeu64, 3));
            } else if to == 62 {
                assert(!bb_has(s.occ() & 0x6000000000000000u64, 61) && !bb_has(
                    s.occ() & 0x6000000000000000u64,
                    62,
                ));
            } else {
                assert(!bb_has(s.occ() & 0xe00000000000000u64, 58) && !bb_has(
                    s.occ() & 0xe00000000000000u64,
                    59,
                ));
            }
        }
    }
    // The standing mover's king is away from everything the move touches.
    assert(!king_moves ==> kk as int != from && kk as int != cap) by {
        if !king_moves {
            if kk == from {
                match flg {
                    MoveFlags::PawnMove | MoveFlags::PawnDoublePush | MoveFlags::EP
                        | MoveFlags::PromoQueen | MoveFlags::PromoRook | MoveFlags::PromoKnight
                        | MoveFlags::PromoBishop => {
                        assert(bb_has(s.pawns.0, from));
                        assert(bb_has(s.kings.0, from));
                        assert(s.pc_at(0) & s.pc_at(5) == 0);
                        assert(!bb_has(s.pc_at(0) & s.pc_at(5), from));
                        assert(false);
                    },
                    MoveFlags::KnightMove => {
                        assert(bb_has(s.knights.0, from) && bb_has(s.kings.0, from));
                        assert(s.pc_at(1) & s.pc_at(5) == 0);
                        assert(!bb_has(s.pc_at(1) & s.pc_at(5), from));
                        assert(false);
                    },
                    MoveFlags::BishopMove => {
                        assert(bb_has(s.bishops.0, from) && bb_has(s.kings.0, from));
                        assert(s.pc_at(2) & s.pc_at(5) == 0);
                        assert(!bb_has(s.pc_at(2) & s.pc_at(5), from));
                        assert(false);
                    },
                    MoveFlags::RookMove => {
                        assert(bb_has(s.rooks.0, from) && bb_has(s.kings.0, from));
                        assert(s.pc_at(3) & s.pc_at(5) == 0);
                        assert(!bb_has(s.pc_at(3) & s.pc_at(5), from));
                        assert(false);
                    },
                    MoveFlags::QueenMove => {
                        assert(bb_has(s.queens.0, from) && bb_has(s.kings.0, from));
                        assert(s.pc_at(4) & s.pc_at(5) == 0);
                        assert(!bb_has(s.pc_at(4) & s.pc_at(5), from));
                        assert(false);
                    },
                    _ => {},
                }
            }
            if flg == MoveFlags::EP && kk as int == cap {
                assert(bb_has(s.pawns.0, cap));
                assert(bb_has(s.kings.0, kk as int));
                assert(s.pc_at(0) & s.pc_at(5) == 0);
                assert(!bb_has(s.pc_at(0) & s.pc_at(5), cap));
            }
        }
    }
    // Untouched squares keep their pieces and colors.
    assert forall|i: int, t2: int|
        0 <= i < 6 && t2 != from && t2 != to && t2 != cap && t2 != rfq && t2 != rtq implies (
    #[trigger] bb_has(mid.pc_at(i), t2) <==> bb_has(s.pc_at(i), t2)) by {}
    assert forall|t2: int|
        t2 != from && t2 != to && t2 != cap && t2 != rfq && t2 != rtq implies ((#[trigger] bb_has(
        mid.side_bb(Color::White),
        t2,
    ) <==> bb_has(s.side_bb(Color::White), t2)) && (bb_has(mid.side_bb(Color::Black), t2)
        <==> bb_has(s.side_bb(Color::Black), t2))) by {
        if s.color == Color::White {
            assert(mid.side_bb(Color::White) == mid.side_bb(s.color));
        } else {
            assert(mid.side_bb(Color::Black) == mid.side_bb(s.color));
        }
    }
    // One king per side.
    let new_kk: int = if king_moves {
        to
    } else {
        kk as int
    };
    assert(kk != to || king_moves) by {
        if !king_moves && kk == to {
            lemma_move_prereqs(s, m);
        }
    }
    assert forall|t2: int|
        #[trigger] bb_has(mid.kings.0 & mid.side_bb(s.color), t2) <==> t2 == new_kk by {
        if king_moves {
            assert(from == kk) by {
                assert(bb_has(s.kings.0 & s.my_bb(), from));
            }
        }
        if bb_has(mid.kings.0, t2) && bb_has(mid.side_bb(s.color), t2) {
            if t2 != to {
                assert(bb_has(s.kings.0, t2));
                assert(bb_has(mid.side_bb(s.color), t2) ==> (bb_has(s.my_bb(), t2) || t2 == rtq));
                assert(t2 != rtq) by {
                    if t2 == rtq && flg == MoveFlags::Castle {
                        assert(!bb_has(s.occ(), rtq));
                        assert(bb_has(s.occ(), t2));
                    }
                }
                assert(bb_has(s.kings.0 & s.my_bb(), t2));
                assert(t2 == kk);
            }
        }
        if t2 == new_kk {
            assert(bb_has(mid.kings.0, t2) && bb_has(mid.side_bb(s.color), t2)) by {
                if !king_moves {
                    assert(kk as int != to && kk as int != from && kk as int != cap && kk as int
                        != rfq && kk as int != rtq);
                    assert(bb_has(s.kings.0, kk as int) && bb_has(s.side_bb(s.color), kk as int));
                }
            }
        }
    }
    assert(mid.kings.0 & mid.side_bb(s.color) == 1u64 << (new_kk as u64)) by {
        assert forall|t2: int|
            bb_has(mid.kings.0 & mid.side_bb(s.color), t2) <==> bb_has(
                1u64 << (new_kk as u64),
                t2,
            ) by {}
        lemma_bb_ext(mid.kings.0 & mid.side_bb(s.color), 1u64 << (new_kk as u64));
    }
    assert(ke != to);
    assert forall|t2: int|
        #[trigger] bb_has(mid.kings.0 & mid.side_bb(s.color.spec_opposite()), t2) <==> t2 == ke by {
        assert(ke != from && ke != cap && ke != rfq && ke != rtq) by {
            assert(bb_has(s.enemy_bb(), ke as int));
            assert(!bb_has(s.my_bb(), ke as int));
            if flg == MoveFlags::EP {
                assert(bb_has(s.pawns.0, cap));
                assert(s.pc_at(0) & s.pc_at(5) == 0);
                assert(!bb_has(s.pc_at(0) & s.pc_at(5), cap));
            }
            if flg == MoveFlags::Castle {
                assert(ke as int != rtq) by {
                    if ke as int == rtq {
                        assert(bb_has(s.occ(), ke as int));
                    }
                }
                assert(ke as int != rfq) by {
                    if to == 6 {
                        assert(bb_has(s.rooks.0 & s.side_w.0, 7));
                    } else if to == 2 {
                        assert(bb_has(s.rooks.0 & s.side_w.0, 0));
                    } else if to == 62 {
                        assert(bb_has(s.rooks.0 & s.side_b.0, 63));
                    } else {
                        assert(bb_has(s.rooks.0 & s.side_b.0, 56));
                    }
                    if ke as int == rfq {
                        assert(bb_has(s.rooks.0, rfq));
                        assert(bb_has(s.kings.0, ke as int));
                        assert(s.pc_at(3) & s.pc_at(5) == 0);
                        assert(!bb_has(s.pc_at(3) & s.pc_at(5), rfq));
                    }
                }
            }
        }
        if bb_has(mid.kings.0, t2) && bb_has(mid.side_bb(s.color.spec_opposite()), t2) {
            assert(t2 != to);
            assert(bb_has(s.kings.0, t2) || t2 == to || t2 == rtq);
            assert(bb_has(s.side_bb(s.color.spec_opposite()), t2));
            assert(bb_has(s.kings.0 & s.enemy_bb(), t2));
        }
    }
    assert(mid.kings.0 & mid.side_bb(s.color.spec_opposite()) == 1u64 << ke) by {
        assert forall|t2: int|
            bb_has(mid.kings.0 & mid.side_bb(s.color.spec_opposite()), t2) <==> bb_has(
                1u64 << ke,
                t2,
            ) by {}
        lemma_bb_ext(mid.kings.0 & mid.side_bb(s.color.spec_opposite()), 1u64 << ke);
    }
    assert(fm.kings_ok()) by {
        assert(fm.kings.0 == mid.kings.0 && fm.side_w.0 == mid.side_w.0 && fm.side_b.0
            == mid.side_b.0);
        if s.color == Color::White {
            assert(mid.kings.0 & mid.side_bb(Color::White) == 1u64 << (new_kk as u64));
            assert(mid.kings.0 & mid.side_bb(Color::Black) == 1u64 << ke);
        } else {
            assert(mid.kings.0 & mid.side_bb(Color::Black) == 1u64 << (new_kk as u64));
            assert(mid.kings.0 & mid.side_bb(Color::White) == 1u64 << ke);
        }
    }
    // En-passant soundness for the new mover.
    assert(fm.ep_ok()) by {
        if flg == MoveFlags::PawnDoublePush {
            let mide = if s.color == Color::White {
                to - 8
            } else {
                to + 8
            };
            assert(fm.ep.0 == mide);
            assert(mide == (from + to) / 2);
            assert(!bb_has(s.occ(), mide));
            assert(!bb_has(mid.occ(), mide)) by {
                assert(bb_has(mid.occ(), mide) <==> (bb_has(mid.side_bb(Color::White), mide)
                    || bb_has(mid.side_bb(Color::Black), mide)));
                assert(bb_has(s.occ(), mide) <==> (bb_has(s.side_bb(Color::White), mide) || bb_has(
                    s.side_bb(Color::Black),
                    mide,
                )));
            }
            assert(bb_has(mid.pawns.0, to));
            assert(bb_has(mid.side_bb(s.color), to));
            assert(bb_has(mid.pawns.0 & mid.side_bb(s.color), to));
        } else {
            assert(fm.ep.0 == 255);
        }
    }
    // Castling rights still held point at king and rook at home.
    assert(fm.castle_ok()) by {
        let c0 = s.castle;
        let m1 = castle_rights_mask(from);
        let m2 = castle_rights_mask(to);
        assert(mid.castle == (c0 & m1) & m2);
        assert forall|h: int|
            (h == 0 || h == 4 || h == 7 || h == 56 || h == 60 || h == 63) && h != from && h != to
                && (flg != MoveFlags::Castle || (from == 4 && (h == 56 || h == 60 || h == 63)) || (
            from == 60 && (h == 0 || h == 4 || h == 7))) implies ((#[trigger] bb_has(
            mid.kings.0,
            h,
        ) <==> bb_has(s.kings.0, h)) && (bb_has(mid.rooks.0, h) <==> bb_has(s.rooks.0, h)) && (
        bb_has(mid.side_bb(Color::White), h) <==> bb_has(s.side_bb(Color::White), h)) && (bb_has(
            mid.side_bb(Color::Black),
            h,
        ) <==> bb_has(s.side_bb(Color::Black), h))) by {
            assert(h != cap) by {
                if flg == MoveFlags::EP {
                    assert(to == s.ep.0);
                    if s.color == Color::White {
                        assert(sq_rank(to) == 5);
                        assert(sq_rank(cap) == 4);
                    } else {
                        assert(sq_rank(to) == 2);
                        assert(sq_rank(cap) == 3);
                    }
                    assert(sq_rank(h) == 0 || sq_rank(h) == 7);
                }
            }
            assert(h != rfq && h != rtq) by {
                if flg == MoveFlags::Castle {
                    if from == 4 {
                        assert(to == 2 || to == 6);
                    } else {
                        assert(to == 58 || to == 62);
                    }
                }
            }
        }
        if mid.castle & 1 != 0 {
            assert(m1 & 1 != 0 && m2 & 1 != 0 && c0 & 1 != 0);
            assert(from != 4 && from != 7 && to != 4 && to != 7);
            assert(flg != MoveFlags::Castle || from == 60) by {
                if flg == MoveFlags::Castle && from == 4 {
                    assert((castle_rights_mask(4) & 1) == 0);
                }
            }
            assert(bb_has(mid.kings.0 & mid.side_bb(Color::White), 4) && bb_has(
                mid.rooks.0 & mid.side_bb(Color::White),
                7,
            )) by {
                assert(bb_has(s.kings.0 & s.side_w.0, 4) && bb_has(s.rooks.0 & s.side_w.0, 7));
            }
        }
        if mid.castle & 2 != 0 {
            assert(m1 & 2 != 0 && m2 & 2 != 0 && c0 & 2 != 0);
            assert(from != 4 && from != 0 && to != 4 && to != 0);
            assert(flg != MoveFlags::Castle || from == 60) by {
                if flg == MoveFlags::Castle && from == 4 {
                    assert((castle_rights_mask(4) & 2) == 0);
                }
            }
            assert(bb_has(mid.kings.0 & mid.side_bb(Color::White), 4) && bb_has(
                mid.rooks.0 & mid.side_bb(Color::White),
                0,
            )) by {
                assert(bb_has(s.kings.0 & s.side_w.0, 4) && bb_has(s.rooks.0 & s.side_w.0, 0));
            }
        }
        if mid.castle & 4 != 0 {
            assert(m1 & 4 != 0 && m2 & 4 != 0 && c0 & 4 != 0);
            assert(from != 60 && from != 63 && to != 60 && to != 63);
            assert(flg != MoveFlags::Castle || from == 4) by {
                if flg == MoveFlags::Castle && from == 60 {
                    assert((castle_rights_mask(60) & 4) == 0);
                }
            }
            assert(bb_has(mid.kings.0 & mid.side_bb(Color::Black), 60) && bb_has(
                mid.rooks.0 & mid.side_bb(Color::Black),
                63,
            )) by {
                assert(bb_has(s.kings.0 & s.side_b.0, 60) && bb_has(s.rooks.0 & s.side_b.0, 63));
            }
        }
        if mid.castle & 8 != 0 {
            assert(m1 & 8 != 0 && m2 & 8 != 0 && c0 & 8 != 0);
            assert(from != 60 && from != 56 && to != 60 && to != 56);
            assert(flg != MoveFlags::Castle || from == 4) by {
                if flg == MoveFlags::Castle && from == 60 {
                    assert((castle_rights_mask(60) & 8) == 0);
                }
            }
            assert(bb_has(mid.kings.0 & mid.side_bb(Color::Black), 60) && bb_has(
                mid.rooks.0 & mid.side_bb(Color::Black),
                56,
            )) by {
                assert(bb_has(s.kings.0 & s.side_b.0, 60) && bb_has(s.rooks.0 & s.side_b.0, 56));
            }
        }
        assert(fm.castle == mid.castle && fm.kings.0 == mid.kings.0 && fm.rooks.0 == mid.rooks.0);
    }
}

/// No generated move captures the opponent's king while the opponent is
/// not in check: a capture of the king square would itself witness an
/// attack on it.
pub proof fn lemma_no_king_capture(s: State, m: Move)
    requires
        s.wf(),
        s.coherent(),
        gen_move_ok(s, m),
        !attacked(s, u64_trailing_zeros(s.kings.0 & s.enemy_bb()) as int, s.color),
    ensures
        !bb_has(s.kings.0 & s.enemy_bb(), m.s_to()),
{
    lemma_bb_ops();
    lemma_sides(s);
    let from = m.s_from();
    let to = m.s_to();
    if bb_has(s.kings.0 & s.enemy_bb(), to) {
        let ke = choose|k: u64|
            k < 64 && (s.kings.0 & s.enemy_bb()) == (1u64 << k);
        assert(s.kings.0 & s.enemy_bb() == s.kings.0 & s.side_bb(s.color.spec_opposite()));
        assert(bb_has(s.kings.0 & s.enemy_bb(), ke as int));
        assert(to == ke) by {
            crate::bits::lemma_tz_single(ke);
        }
        assert(u64_trailing_zeros(s.kings.0 & s.enemy_bb()) == ke) by {
            crate::bits::lemma_tz_single(ke);
        }
        assert(bb_has(s.occ(), to));
        assert(bb_has(s.enemy_bb(), to));
        assert(!bb_has(s.my_bb(), to));
        let myside = s.side_bb(s.color);
        assert(myside == s.my_bb());
        match m.s_flags() {
            MoveFlags::PawnMove | MoveFlags::PromoQueen | MoveFlags::PromoRook
                | MoveFlags::PromoKnight | MoveFlags::PromoBishop => {
                assert(pawn_step_premise(s, from, to));
                assert(pawn_cap_reaches(s.color, from, to));
                assert(bb_has(s.pawns.0 & myside, from));
                assert(attacked(s, to, s.color));
            },
            MoveFlags::PawnDoublePush => {
                assert(!bb_has(s.occ(), to));
                assert(false);
            },
            MoveFlags::EP => {
                assert(to == s.ep.0);
                assert(!bb_has(s.occ(), to));
                assert(false);
            },
            MoveFlags::Castle => {
                lemma_castle_masks();
                assert(castle_branch_ok(s, to));
                if to == 6 {
                    assert(!bb_has(s.occ() & 0x60u64, 6));
                } else if to == 2 {
                    assert(!bb_has(s.occ() & 0xeu64, 2));
                } else if to == 62 {
                    assert(!bb_has(s.occ() & 0x6000000000000000u64, 62));
                } else {
                    assert(!bb_has(s.occ() & 0xe00000000000000u64, 58));
                }
                assert(false);
            },
            MoveFlags::KnightMove => {
                assert(bb_has(s.knights.0 & myside, from));
                assert(knight_reaches(from, to));
                assert(attacked(s, to, s.color));
            },
            MoveFlags::KingMove => {
                assert(bb_has(s.kings.0 & myside, from));
                assert(king_reaches(from, to));
                assert(attacked(s, to, s.color));
            },
            MoveFlags::BishopMove => {
                assert(bb_has(s.bishops.0 & myside, from));
                assert(bb_has((s.bishops.0 | s.queens.0) & myside, from));
                assert(bishop_reaches(s.occ(), from, to));
                assert(attacked(s, to, s.color));
            },
            MoveFlags::RookMove => {
                assert(bb_has(s.rooks.0 & myside, from));
                assert(bb_has((s.rooks.0 | s.queens.0) & myside, from));
                assert(rook_reaches(s.occ(), from, to));
                assert(attacked(s, to, s.color));
            },
            MoveFlags::QueenMove => {
                assert(bb_has(s.queens.0 & myside, from));
                if rook_reaches(s.occ(), from, to) {
                    assert(bb_has((s.rooks.0 | s.queens.0) & myside, from));
                    assert(attacked(s, to, s.color));
                } else {
                    assert(bishop_reaches(s.occ(), from, to));
                    assert(bb_has((s.bishops.0 | s.queens.0) & myside, from));
                    assert(attacked(s, to, s.color));
                }
            },
        }
        assert(false);
    }
}

/// Returns the castling-rights mask of a move endpoint.
fn castle_rights_mask_exec(sq: usize) -> (r: u8)
    requires
        sq < 64,
    ensures
        r == castle_rights_mask(sq as int),
{
    if sq == 0 {
        0b1101
    } else if sq == 7 {
        0b1110
    } else if sq == 4 {
        0b1100
    } else if sq == 56 {
        0b0111
    } else if sq == 63 {
        0b1011
    } else if sq == 60 {
        0b0011
    } else {
        0xff
    }
}

impl State {
    /// Commits a pseudo-legal move: moves the color bit, clears any
    /// captured piece, updates castling rights and the en-passant target,
    /// applies the kind-specific piece updates, then rejects the whole
    /// move if it leaves the mover in check. On success the side to move
    /// flips; on rejection the pre-move position is restored.
    #[verifier::rlimit(100)]
    pub fn make_move(&mut self, tables: &Tables, m: &Move) -> (r: bool)
        requires
            tables.wf(),
            old(self).wf(),
            old(self).coherent(),
            gen_move_ok(*old(self), *m),
        ensures
            r == !in_check_spec(moved_state(*old(self), *m)),
            r ==> *final(self) == flip_side(moved_state(*old(self), *m)),
            !r ==> *final(self) == *old(self),
    {
        let saved = *self;
        proof {
            lemma_move_prereqs(*self, *m);
            lemma_redundant_clear();
        }
        let to_bb = m.get_to();
        let from_bb = m.get_from();
        let to = m.get_to_idx().0 as usize;
        let from = m.get_from_idx().0 as usize;

        // Move the color part of the piece.
        match self.color {
            Color::White => {
                self.side_w.0 = self.side_w.0 & !from_bb.0;
                self.side_b.0 = self.side_b.0 & !to_bb.0;
                self.side_w.0 = self.side_w.0 | to_bb.0;
            },
            Color::Black => {
                self.side_b.0 = self.side_b.0 & !from_bb.0;
                self.side_w.0 = self.side_w.0 & !to_bb.0;
                self.side_b.0 = self.side_b.0 | to_bb.0;
            },
        }
        self.castle = (self.castle & castle_rights_mask_exec(from)) & castle_rights_mask_exec(to);
        self.ep = SquareIdx(255);
        match m.flags() {
            MoveFlags::PawnMove => {
                self.move_piece(Piece::Pawn, from, to);
            
                proof {
                    assert(*self == moved_state(*old(self), *m));
                }
            },
            MoveFlags::PawnDoublePush => {
                self.move_piece(Piece::Pawn, from, to);
                let ep = SquareIdx(
                    match self.color {
                        Color::White => (to - 8) as u8,
                        Color::Black => (to + 8) as u8,
                    },
                );
                self.ep = ep;
            
                proof {
                    assert(*self == moved_state(*old(self), *m));
                }
            },
            MoveFlags::EP => {
                self.move_piece(Piece::Pawn, from, to);
                match self.color {
                    Color::White => {
                        self.pawns.0 = self.pawns.0 & !(1u64 << ((to - 8) as u64));
                        self.side_b.0 = self.side_b.0 & !(1u64 << ((to - 8) as u64));
                    },
                    Color::Black => {
                        self.pawns.0 = self.pawns.0 & !(1u64 << ((to + 8) as u64));
                        self.side_w.0 = self.side_w.0 & !(1u64 << ((to + 8) as u64));
                    },
                }
            
                proof {
                    assert(*self == moved_state(*old(self), *m));
                }
            },
            MoveFlags::PromoQueen => {
                self.move_piece(Piece::Pawn, from, to);
                self.remove_piece_bit(to);
                self.queens.0 = self.queens.0 | to_bb.0;
            
                proof {
                    assert(*self == moved_state(*old(self), *m));
                }
            },
            MoveFlags::PromoRook => {
                self.move_piece(Piece::Pawn, from, to);
                self.remove_piece_bit(to);
                self.rooks.0 = self.rooks.0 | to_bb.0;
            
                proof {
                    assert(*self == moved_state(*old(self), *m));
                }
            },
            MoveFlags::PromoKnight => {
                self.move_piece(Piece::Pawn, from, to);
                self.remove_piece_bit(to);
                self.knights.0 = self.knights.0 | to_bb.0;
            
                proof {
                    assert(*self == moved_state(*old(self), *m));
                }
            },
            MoveFlags::PromoBishop => {
                self.move_piece(Piece::Pawn, from, to);
                self.remove_piece_bit(to);
                self.bishops.0 = self.bishops.0 | to_bb.0;
            
                proof {
                    assert(*self == moved_state(*old(self), *m));
                }
            },
            MoveFlags::BishopMove => {
                self.move_piece(Piece::Bishop, from, to);
            
                proof {
                    assert(*self == moved_state(*old(self), *m));
                }
            },
            MoveFlags::KnightMove => {
                self.move_piece(Piece::Knight, from, to);
            
                proof {
                    assert(*self == moved_state(*old(self), *m));
                }
            },
            MoveFlags::RookMove => {
                self.move_piece(Piece::Rook, from, to);
            
                proof {
                    assert(*self == moved_state(*old(self), *m));
                }
            },
            MoveFlags::QueenMove => {
                self.move_piece(Piece::Queen, from, to);
            
                proof {
                    assert(*self == moved_state(*old(self), *m));
                }
            },
            MoveFlags::KingMove => {
                self.move_piece(Piece::King, from, to);
            
                proof {
                    assert(*self == moved_state(*old(self), *m));
                }
            },
            MoveFlags::Castle => {
                let rook_from: BB;
                let rook_to: BB;
                if to == 2 {
                    rook_from = BB(1u64 << 0u64);
                    rook_to = BB(1u64 << 3u64);
                } else if to == 6 {
                    rook_from = BB(1u64 << 7u64);
                    rook_to = BB(1u64 << 5u64);
                } else if to == 58 {
                    rook_from = BB(1u64 << 56u64);
                    rook_to = BB(1u64 << 59u64);
                } else if to == 62 {
                    rook_from = BB(1u64 << 63u64);
                    rook_to = BB(1u64 << 61u64);
                } else {
                    rook_from = BB(0);
                    rook_to = BB(0);
                }
                self.clear_piece_bb(from_bb, Piece::King);
                self.set_piece_bb(to_bb, Piece::King);
                self.clear_piece_bb(rook_from, Piece::Rook);
                self.set_piece_bb(rook_to, Piece::Rook);
            
                proof {
                    assert(*self == moved_state(*old(self), *m));
                }
            },
        }
        proof {
            assert(*self == moved_state(*old(self), *m));
        }
        if self.in_check(tables) {
            *self = saved;
            return false;
        }
        self.color = self.color.opposite();
        true
    }
}

impl State {
    /// Decides at run time everything the search entry points assume of a
    /// freshly loaded position: one king per side, a sound en-passant
    /// target and castling rights, and a side not on move whose king is
    /// not attacked. The answer is exact in both directions.
    #[verifier::rlimit(100)]
    pub fn playable(&self, tables: &Tables) -> (r: bool)
        requires
            self.wf(),
            tables.wf(),
        ensures
            r == (self.coherent() && !attacked(
                *self,
                u64_trailing_zeros(self.kings.0 & self.enemy_bb()) as int,
                self.color,
            )),
    {
        proof {
            lemma_bb_ops();
        }
        let kw = self.kings.0 & self.side_w.0;
        let kb = self.kings.0 & self.side_b.0;
        if kw == 0 || kb == 0 {
            proof {
                if is_single(kw) {
                    let k = choose|k: u64| k < 64 && kw == (1u64 << k);
                    assert(bb_has(kw, k as int));
                }
                if is_single(kb) {
                    let k = choose|k: u64| k < 64 && kb == (1u64 << k);
                    assert(bb_has(kb, k as int));
                }
            }
            return false;
        }
        let tw = kw.trailing_zeros() as u64;
        let tb = kb.trailing_zeros() as u64;
        proof {
            lemma_bb_lowest(kw);
            lemma_bb_lowest(kb);
        }
        if kw != (1u64 << tw) || kb != (1u64 << tb) {
            proof {
                if is_single(kw) {
                    let k = choose|k: u64| k < 64 && kw == (1u64 << k);
                    crate::bits::lemma_tz_single(k);
                }
                if is_single(kb) {
                    let k = choose|k: u64| k < 64 && kb == (1u64 << k);
                    crate::bits::lemma_tz_single(k);
                }
            }
            return false;
        }
        if self.ep.0 != 255 {
            if self.ep.0 >= 64 {
                return false;
            }
            if crate::bits::check_bit(self.side_w.0 | self.side_b.0, self.ep.0) {
                return false;
            }
            match self.color {
                Color::White => {
                    if self.ep.0 / 8 != 5 {
                        return false;
                    }
                    if !crate::bits::check_bit(self.pawns.0 & self.side_b.0, self.ep.0 - 8) {
                        return false;
                    }
                },
                Color::Black => {
                    if self.ep.0 / 8 != 2 {
                        return false;
                    }
                    if !crate::bits::check_bit(self.pawns.0 & self.side_w.0, self.ep.0 + 8) {
                        return false;
                    }
                },
            }
        }
        if self.castle & 1 != 0 && !(crate::bits::check_bit(kw, 4) && crate::bits::check_bit(
            self.rooks.0 & self.side_w.0,
            7,
        )) {
            return false;
        }
        if self.castle & 2 != 0 && !(crate::bits::check_bit(kw, 4) && crate::bits::check_bit(
            self.rooks.0 & self.side_w.0,
            0,
        )) {
            return false;
        }
        if self.castle & 4 != 0 && !(crate::bits::check_bit(kb, 60) && crate::bits::check_bit(
            self.rooks.0 & self.side_b.0,
            63,
        )) {
            return false;
        }
        if self.castle & 8 != 0 && !(crate::bits::check_bit(kb, 60) && crate::bits::check_bit(
            self.rooks.0 & self.side_b.0,
            56,
        )) {
            return false;
        }
        let enemy_kings = BB(self.kings.0 & self.enemy_side_exec());
        if self.square_attacked_by(tables, enemy_kings, self.color) {
            return false;
        }
        true
    }
}

/// The typed error a rejected move request surfaces: the requested text
/// matched no generated pseudo-legal move, or matched one the applier
/// rejected for leaving the mover in check.
#[derive(Debug, PartialEq, Eq, Clone, Copy, Structural)]
pub enum MoveError {
    IllegalMoveRequested,
}

/// Some generator-admissible move of `s` renders as `txt`.
pub open spec fn token_matched(s: State, txt: Seq<char>) -> bool {
    exists|m: Move|
        m.valid() && #[trigger] gen_move_ok(s, m) && crate::moves::move_text(m) == txt
}

/// The generator-admissible move of `s` that renders as `txt` (unique on
/// a coherent position, by the text round-trip law).
pub open spec fn token_move(s: State, txt: Seq<char>) -> Move {
    choose|m: Move|
        m.valid() && #[trigger] gen_move_ok(s, m) && crate::moves::move_text(m) == txt
}

/// Two valid move records that agree in source, destination and kind are
/// the same record.
pub proof fn lemma_move_data_determined(m1: Move, m2: Move)
    requires
        m1.valid(),
        m2.valid(),
        m1.s_from() == m2.s_from(),
        m1.s_to() == m2.s_to(),
        m1.s_flags() == m2.s_flags(),
    ensures
        m1 == m2,
{
    let d1 = m1.data;
    let d2 = m2.data;
    assert(d1 == (d1 & 0x3f) | (((d1 >> 6) & 0x3f) << 6) | (((d1 >> 12) & 0xf) << 12) && d2 == (d2
        & 0x3f) | (((d2 >> 6) & 0x3f) << 6) | (((d2 >> 12) & 0xf) << 12)) by (bit_vector);
    assert((d1 >> 12) & 0xf == (d2 >> 12) & 0xf);
    assert(((d1 & 0x3f) == (d2 & 0x3f)) && (((d1 >> 6) & 0x3f) == ((d2 >> 6) & 0x3f)));
}

/// The meaning of applying a token list from position `s`, token by
/// token: each token must name a generated move that the legality filter
/// accepts, and the position advances through the accepted successors;
/// the first unmatched or rejected token gives nothing.
pub open spec fn apply_texts(s: State, texts: Seq<Seq<char>>, i: int) -> Option<State>
    decreases texts.len() - i,
{
    if i < 0 || i >= texts.len() {
        Some(s)
    } else if token_matched(s, texts[i]) {
        let m = token_move(s, texts[i]);
        if !in_check_spec(moved_state(s, m)) {
            apply_texts(flip_side(moved_state(s, m)), texts, i + 1)
        } else {
            None
        }
    } else {
        None
    }
}

/// The character sequences of a vector of strings.
pub open spec fn texts_of(v: Vec<String>) -> Seq<Seq<char>> {
    v@.map_values(|s: String| s@)
}

impl State {
    /// Applies a sequence of coordinate-notation move texts in order:
    /// each is looked up against the generated moves by exact text match
    /// and applied; the first unmatched or rejected text stops everything
    /// with `IllegalMoveRequested`. Ok comes exactly when every token
    /// matches and is accepted, and then the final position is the fold
    /// of those applications.
    #[verifier::loop_isolation(false)]
    #[verifier::rlimit(100)]
    pub fn make_move_list(&mut self, tables: &Tables, moves_text: &Vec<String>) -> (r: Result<
        (),
        MoveError,
    >)
        requires
            tables.wf(),
            old(self).wf(),
            old(self).coherent(),
            !attacked(
                *old(self),
                u64_trailing_zeros(old(self).kings.0 & old(self).enemy_bb()) as int,
                old(self).color,
            ),
        ensures
            r is Ok <==> apply_texts(*old(self), texts_of(*moves_text), 0) is Some,
            r is Ok ==> Some(*final(self)) == apply_texts(*old(self), texts_of(*moves_text), 0),
            r is Ok ==> final(self).wf() && final(self).coherent() && !attacked(
                *final(self),
                u64_trailing_zeros(final(self).kings.0 & final(self).enemy_bb()) as int,
                final(self).color,
            ),
    {
        let ghost s_orig = *old(self);
        let ghost texts = texts_of(*moves_text);
        let mut i: usize = 0;
        while i < moves_text.len()
            invariant
                tables.wf(),
                self.wf(),
                self.coherent(),
                !attacked(
                    *self,
                    u64_trailing_zeros(self.kings.0 & self.enemy_bb()) as int,
                    self.color,
                ),
                i <= moves_text.len(),
                texts == texts_of(*moves_text),
                texts.len() == moves_text.len(),
                apply_texts(s_orig, texts, 0) == apply_texts(*self, texts, i as int),
            decreases moves_text.len() - i,
        {
            let mlist = self.pseudo_legal_moves(tables, false);
            let ghost s0 = *self;
            let mut found = false;
            let mut j: usize = 0;
            while j < mlist.moves.len() && !found
                invariant
                    tables.wf(),
                    i < moves_text@.len(),
                    texts == texts_of(*moves_text),
                    texts.len() == moves_text.len(),
                    j <= mlist.moves@.len(),
                    forall|q: int|
                        0 <= q < mlist.moves@.len() ==> gen_move_ok(s0, #[trigger] mlist.moves@[q]),
                    s0.kings_ok() ==> forall|m: Move|
                        m.valid() && #[trigger] gen_move_ok(s0, m) ==> crate::state::in_list(
                            mlist.moves@,
                            m.s_from(),
                            m.s_to(),
                            m.s_flags(),
                        ),
                    !found ==> *self == s0,
                    !found ==> forall|q: int|
                        0 <= q < j ==> crate::moves::move_text(#[trigger] mlist.moves@[q])
                            != texts[i as int],
                    s0.wf() && s0.coherent() && !attacked(
                        s0,
                        u64_trailing_zeros(s0.kings.0 & s0.enemy_bb()) as int,
                        s0.color,
                    ),
                    apply_texts(s_orig, texts, 0) == apply_texts(s0, texts, i as int),
                    found ==> self.wf() && self.coherent() && !attacked(
                        *self,
                        u64_trailing_zeros(self.kings.0 & self.enemy_bb()) as int,
                        self.color,
                    ),
                    found ==> token_matched(s0, texts[i as int]) && !in_check_spec(
                        moved_state(s0, token_move(s0, texts[i as int])),
                    ) && *self == flip_side(moved_state(s0, token_move(s0, texts[i as int]))),
                decreases mlist.moves@.len() - j,
            {
                let mv = mlist.moves[j];
                let txt = mv.as_text();
                proof {
                    assert(texts[i as int] == moves_text@[i as int]@);
                }
                if txt == moves_text[i] {
                    proof {
                        assert(crate::moves::move_text(mv) == texts[i as int]);
                        assert(token_matched(s0, texts[i as int]));
                        let m = token_move(s0, texts[i as int]);
                        assert(m.valid() && gen_move_ok(s0, m) && crate::moves::move_text(m)
                            == texts[i as int]);
                        crate::laws::lemma_text_round_trip(s0, mv, m);
                        lemma_move_data_determined(mv, m);
                        assert(mv == m);
                        lemma_no_king_capture(s0, mv);
                        lemma_moved_wf(s0, mv);
                        lemma_moved_coherent(s0, mv);
                    }
                    if self.make_move(tables, &mv) {
                        found = true;
                        proof {
                            let mid = moved_state(s0, mv);
                            assert(*self == flip_side(mid));
                            assert(self.kings.0 & self.enemy_bb() == mid.kings.0 & mid.my_bb());
                            assert forall|t: int, by: Color|
                                #[trigger] attacked(*self, t, by) == attacked(mid, t, by) by {
                                assert(self.side_bb(by) == mid.side_bb(by) && self.occ()
                                    == mid.occ());
                            }
                        }
                    } else {
                        proof {
                            assert(in_check_spec(moved_state(s0, token_move(s0, texts[i as int]))));
                            assert(apply_texts(s0, texts, i as int) is None);
                            assert(apply_texts(s_orig, texts, 0) is None);
                        }
                        return Err(MoveError::IllegalMoveRequested);
                    }
                }
                j += 1;
            }
            if !found {
                proof {
                    assert(!token_matched(s0, texts[i as int])) by {
                        if token_matched(s0, texts[i as int]) {
                            let m = choose|m: Move|
                                m.valid() && #[trigger] gen_move_ok(s0, m)
                                    && crate::moves::move_text(m) == texts[i as int];
                            assert(crate::state::in_list(
                                mlist.moves@,
                                m.s_from(),
                                m.s_to(),
                                m.s_flags(),
                            ));
                            let q = choose|q: int|
                                0 <= q < mlist.moves@.len() && (#[trigger] mlist.moves@[q]).s_from()
                                    == m.s_from() && mlist.moves@[q].s_to() == m.s_to()
                                    && mlist.moves@[q].s_flags() == m.s_flags();
                            assert(crate::moves::move_text(mlist.moves@[q]) == crate::moves::move_text(m));
                            assert(false);
                        }
                    }
                    assert(apply_texts(s0, texts, i as int) is None);
                    assert(apply_texts(s_orig, texts, 0) is None);
                }
                return Err(MoveError::IllegalMoveRequested);
            }
            proof {
                assert(apply_texts(s0, texts, i as int) == apply_texts(*self, texts, i as int + 1));
            }
            i += 1;
        }
        proof {
            assert(apply_texts(*self, texts, i as int) == Some(*self));
        }
        Ok(())
    }
}

} // verus!
