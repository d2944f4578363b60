//! The position model: per-color and per-piece-kind bitboards, side to
//! move, castling rights and en-passant target, with the pseudo-legal
//! move generator.

use vstd::prelude::*;
use vstd::std_specs::bits::u64_trailing_zeros;
use crate::bits::{bb_has, sq_file, sq_rank, lemma_bb_ops, lemma_bb_lowest};
use crate::core_types::{Color, Piece, SquareIdx, BB};
use crate::moves::{Move, MoveFlags, MoveList};
use crate::attacks::{
    Tables, knight_reaches, king_reaches, pawn_push_reaches, pawn_double_reaches,
    pawn_cap_reaches, rook_reaches, bishop_reaches,
};
use crate::bits::{lemma_tz_single, pop_lsb};
use crate::movemake::attacked;

verus! {

/// A chess position.
#[derive(Copy, Clone)]
pub struct State {
    /// All squares White occupies.
    pub side_w: BB,
    /// All squares Black occupies.
    pub side_b: BB,
    pub pawns: BB,
    pub knights: BB,
    pub bishops: BB,
    pub rooks: BB,
    pub queens: BB,
    pub kings: BB,
    /// The en-passant target square, or the sentinel 255.
    pub ep: SquareIdx,
    pub ply: u8,
    /// The side to move.
    pub color: Color,
    /// Castling rights: bit 0 white king-side, bit 1 white queen-side,
    /// bit 2 black king-side, bit 3 black queen-side.
    pub castle: u8,
}

/// The home-square mask a move's endpoint intersects the castling rights
/// with: moving a king or rook off its home square, or capturing onto a
/// rook's home square, drops the matching rights.
pub open spec fn castle_rights_mask(sq: int) -> u8 {
    if sq == 0 {
        0b1101
    } else if sq == 7 {
        0b1110
    } else if sq == 4 {
        0b1100
    } else if sq == 56 {
        0b0111
    } else if sq == 63 {
        0b1011
    } else if sq == 60 {
        0b0011
    } else {
        0xff
    }
}

/// The bitboard holds exactly one square.
pub open spec fn is_single(x: u64) -> bool {
    exists|k: u64| k < 64 && x == (1u64 << k)
}

/// `bb` with `mask` cleared when `cond` holds.
pub open spec fn cleared_bb(bb: u64, cond: bool, mask: u64) -> u64 {
    if cond {
        bb & !mask
    } else {
        bb
    }
}

/// `bb` with `mask` set when `cond` holds.
pub open spec fn set_bb(bb: u64, cond: bool, mask: u64) -> u64 {
    if cond {
        bb | mask
    } else {
        bb
    }
}

/// What one piece-kind bitboard becomes when the kind `moved` moves from
/// `from` to `to`: the moved kind loses `from` and holds `to`; every
/// other kind loses `to` (the capture clearing).
pub open spec fn moved_piece_bb(bb: u64, moved: bool, from: int, to: int) -> u64 {
    if moved {
        ((bb & !(1u64 << (from as u64))) & !(1u64 << (to as u64))) | (1u64 << (to as u64))
    } else {
        bb & !(1u64 << (to as u64))
    }
}

impl State {
    /// The occupancy of the given color.
    pub open spec fn side_bb(self, c: Color) -> u64 {
        match c {
            Color::White => self.side_w.0,
            Color::Black => self.side_b.0,
        }
    }

    /// The side to move's occupancy.
    pub open spec fn my_bb(self) -> u64 {
        self.side_bb(self.color)
    }

    /// The opponent's occupancy.
    pub open spec fn enemy_bb(self) -> u64 {
        self.side_bb(self.color.spec_opposite())
    }

    /// All occupied squares.
    pub open spec fn occ(self) -> u64 {
        self.side_w.0 | self.side_b.0
    }

    /// The bitboard of one piece kind, both colors together.
    pub open spec fn piece_bb(self, p: Piece) -> u64 {
        match p {
            Piece::Pawn => self.pawns.0,
            Piece::Knight => self.knights.0,
            Piece::Bishop => self.bishops.0,
            Piece::Rook => self.rooks.0,
            Piece::Queen => self.queens.0,
            Piece::King => self.kings.0,
        }
    }

    /// The piece-kind bitboard with numeric index `i`.
    pub open spec fn pc_at(self, i: int) -> u64 {
        if i == 0 {
            self.pawns.0
        } else if i == 1 {
            self.knights.0
        } else if i == 2 {
            self.bishops.0
        } else if i == 3 {
            self.rooks.0
        } else if i == 4 {
            self.queens.0
        } else {
            self.kings.0
        }
    }

    /// The union of the six piece-kind bitboards.
    pub open spec fn piece_occ(self) -> u64 {
        self.pawns.0 | self.knights.0 | self.bishops.0 | self.rooks.0 | self.queens.0
            | self.kings.0
    }

    /// Basic board consistency: the two color bitboards are disjoint, the
    /// piece-kind bitboards are pairwise disjoint, their union is the
    /// union of the color bitboards, the en-passant field names a square
    /// or the sentinel, and the castling mask uses its four bits only.
    pub open spec fn wf(self) -> bool {
        &&& self.side_w.0 & self.side_b.0 == 0
        &&& forall|i: int, j: int| 0 <= i < j < 6 ==> #[trigger] (self.pc_at(i) & self.pc_at(j))
            == 0
        &&& self.piece_occ() == self.occ()
        &&& (self.ep.0 == 255 || self.ep.0 < 64)
        &&& self.castle < 16
    }

    /// The mover's king square assumed by the legality filter (the lowest
    /// member of the mover's king bitboard).
    pub open spec fn my_king_sq(self) -> int {
        u64_trailing_zeros(self.kings.0 & self.my_bb()) as int
    }

    /// Each side has exactly one king.
    pub open spec fn kings_ok(self) -> bool {
        &&& is_single(self.kings.0 & self.side_w.0)
        &&& is_single(self.kings.0 & self.side_b.0)
    }

    /// The en-passant target, when set, is an empty square on the rank a
    /// just-double-pushed enemy pawn skipped, with that pawn behind it.
    pub open spec fn ep_ok(self) -> bool {
        self.ep.0 != 255 ==> {
            &&& self.ep.0 < 64
            &&& !bb_has(self.occ(), self.ep.0 as int)
            &&& match self.color {
                Color::White => sq_rank(self.ep.0 as int) == 5 && bb_has(
                    self.pawns.0 & self.side_b.0,
                    self.ep.0 - 8,
                ),
                Color::Black => sq_rank(self.ep.0 as int) == 2 && bb_has(
                    self.pawns.0 & self.side_w.0,
                    self.ep.0 + 8,
                ),
            }
        }
    }

    /// Each castling right still held has its king and rook on their home
    /// squares.
    pub open spec fn castle_ok(self) -> bool {
        &&& self.castle & 1 != 0 ==> bb_has(self.kings.0 & self.side_w.0, 4) && bb_has(
            self.rooks.0 & self.side_w.0,
            7,
        )
        &&& self.castle & 2 != 0 ==> bb_has(self.kings.0 & self.side_w.0, 4) && bb_has(
            self.rooks.0 & self.side_w.0,
            0,
        )
        &&& self.castle & 4 != 0 ==> bb_has(self.kings.0 & self.side_b.0, 60) && bb_has(
            self.rooks.0 & self.side_b.0,
            63,
        )
        &&& self.castle & 8 != 0 ==> bb_has(self.kings.0 & self.side_b.0, 60) && bb_has(
            self.rooks.0 & self.side_b.0,
            56,
        )
    }

    /// The position invariants beyond `wf` that move generation and the
    /// legality filter lean on.
    pub open spec fn coherent(self) -> bool {
        &&& self.kings_ok()
        &&& self.ep_ok()
        &&& self.castle_ok()
    }

    /// An empty board: no pieces, all castling rights, no en-passant
    /// target, White to move.
    pub fn new() -> (r: Self)
        ensures
            r.side_w.0 == 0 && r.side_b.0 == 0,
            forall|i: int| 0 <= i < 6 ==> #[trigger] r.pc_at(i) == 0,
            r.ep.0 == 255,
            r.ply == 0,
            r.color == Color::White,
            r.castle == 0xf,
            r.wf(),
    {
        let r = State {
            side_w: BB(0),
            side_b: BB(0),
            pawns: BB(0),
            knights: BB(0),
            bishops: BB(0),
            rooks: BB(0),
            queens: BB(0),
            kings: BB(0),
            ep: SquareIdx::new(),
            ply: 0,
            color: Color::White,
            castle: 0xf,
        };
        proof {
            assert(0u64 & 0u64 == 0u64 && 0u64 | 0u64 == 0u64) by (bit_vector);
        }
        r
    }

    /// The side to move's pieces of the given kind.
    pub fn get_my_piece(&self, t: Piece) -> (r: BB)
        ensures
            r.0 == self.piece_bb(t) & self.my_bb(),
    {
        let p = self.piece_bb_exec(t);
        let s = self.my_side_exec();
        BB(p & s)
    }

    /// The opponent's pieces of the given kind.
    pub fn get_enemy_piece(&self, t: Piece) -> (r: BB)
        ensures
            r.0 == self.piece_bb(t) & self.enemy_bb(),
    {
        let p = self.piece_bb_exec(t);
        let s = self.enemy_side_exec();
        BB(p & s)
    }

    /// The bitboard of one piece kind, both colors together.
    pub fn piece_bb_exec(&self, t: Piece) -> (r: u64)
        ensures
            r == self.piece_bb(t),
    {
        match t {
            Piece::Pawn => self.pawns.0,
            Piece::Knight => self.knights.0,
            Piece::Bishop => self.bishops.0,
            Piece::Rook => self.rooks.0,
            Piece::Queen => self.queens.0,
            Piece::King => self.kings.0,
        }
    }

    /// The side to move's occupancy.
    pub fn my_side_exec(&self) -> (r: u64)
        ensures
            r == self.my_bb(),
    {
        match self.color {
            Color::White => self.side_w.0,
            Color::Black => self.side_b.0,
        }
    }

    /// The opponent's occupancy.
    pub fn enemy_side_exec(&self) -> (r: u64)
        ensures
            r == self.enemy_bb(),
    {
        match self.color {
            Color::White => self.side_b.0,
            Color::Black => self.side_w.0,
        }
    }

    /// Removes the side to move's piece of kind `piece` from the squares
    /// of `sq` (color bitboard and piece bitboard together).
    pub fn clear_piece_bb(&mut self, sq: BB, piece: Piece)
        ensures
            final(self).side_w.0 == cleared_bb(old(self).side_w.0, old(self).color == Color::White, sq.0),
            final(self).side_b.0 == cleared_bb(old(self).side_b.0, old(self).color == Color::Black, sq.0),
            final(self).pawns.0 == cleared_bb(old(self).pawns.0, piece == Piece::Pawn, sq.0),
            final(self).knights.0 == cleared_bb(old(self).knights.0, piece == Piece::Knight, sq.0),
            final(self).bishops.0 == cleared_bb(old(self).bishops.0, piece == Piece::Bishop, sq.0),
            final(self).rooks.0 == cleared_bb(old(self).rooks.0, piece == Piece::Rook, sq.0),
            final(self).queens.0 == cleared_bb(old(self).queens.0, piece == Piece::Queen, sq.0),
            final(self).kings.0 == cleared_bb(old(self).kings.0, piece == Piece::King, sq.0),
            final(self).ep == old(self).ep && final(self).color == old(self).color,
            final(self).castle == old(self).castle && final(self).ply == old(self).ply,
    {
        match self.color {
            Color::White => self.side_w.0 = self.side_w.0 & !sq.0,
            Color::Black => self.side_b.0 = self.side_b.0 & !sq.0,
        }
        match piece {
            Piece::Pawn => self.pawns.0 = self.pawns.0 & !sq.0,
            Piece::Knight => self.knights.0 = self.knights.0 & !sq.0,
            Piece::Bishop => self.bishops.0 = self.bishops.0 & !sq.0,
            Piece::Rook => self.rooks.0 = self.rooks.0 & !sq.0,
            Piece::Queen => self.queens.0 = self.queens.0 & !sq.0,
            Piece::King => self.kings.0 = self.kings.0 & !sq.0,
        }
    }

    /// Puts the side to move's piece of kind `piece` onto the squares of
    /// `sq` (color bitboard and piece bitboard together).
    pub fn set_piece_bb(&mut self, sq: BB, piece: Piece)
        ensures
            final(self).side_w.0 == set_bb(old(self).side_w.0, old(self).color == Color::White, sq.0),
            final(self).side_b.0 == set_bb(old(self).side_b.0, old(self).color == Color::Black, sq.0),
            final(self).pawns.0 == set_bb(old(self).pawns.0, piece == Piece::Pawn, sq.0),
            final(self).knights.0 == set_bb(old(self).knights.0, piece == Piece::Knight, sq.0),
            final(self).bishops.0 == set_bb(old(self).bishops.0, piece == Piece::Bishop, sq.0),
            final(self).rooks.0 == set_bb(old(self).rooks.0, piece == Piece::Rook, sq.0),
            final(self).queens.0 == set_bb(old(self).queens.0, piece == Piece::Queen, sq.0),
            final(self).kings.0 == set_bb(old(self).kings.0, piece == Piece::King, sq.0),
            final(self).ep == old(self).ep && final(self).color == old(self).color,
            final(self).castle == old(self).castle && final(self).ply == old(self).ply,
    {
        match self.color {
            Color::White => self.side_w.0 = self.side_w.0 | sq.0,
            Color::Black => self.side_b.0 = self.side_b.0 | sq.0,
        }
        match piece {
            Piece::Pawn => self.pawns.0 = self.pawns.0 | sq.0,
            Piece::Knight => self.knights.0 = self.knights.0 | sq.0,
            Piece::Bishop => self.bishops.0 = self.bishops.0 | sq.0,
            Piece::Rook => self.rooks.0 = self.rooks.0 | sq.0,
            Piece::Queen => self.queens.0 = self.queens.0 | sq.0,
            Piece::King => self.kings.0 = self.kings.0 | sq.0,
        }
    }

    /// Clears square `bit` from every piece-kind bitboard (the capture
    /// clearing step).
    pub fn remove_piece_bit(&mut self, bit: usize)
        requires
            bit < 64,
        ensures
            final(self).pawns.0 == old(self).pawns.0 & !(1u64 << (bit as u64)),
            final(self).knights.0 == old(self).knights.0 & !(1u64 << (bit as u64)),
            final(self).bishops.0 == old(self).bishops.0 & !(1u64 << (bit as u64)),
            final(self).rooks.0 == old(self).rooks.0 & !(1u64 << (bit as u64)),
            final(self).queens.0 == old(self).queens.0 & !(1u64 << (bit as u64)),
            final(self).kings.0 == old(self).kings.0 & !(1u64 << (bit as u64)),
            final(self).side_w == old(self).side_w && final(self).side_b == old(self).side_b,
            final(self).ep == old(self).ep && final(self).color == old(self).color,
            final(self).castle == old(self).castle && final(self).ply == old(self).ply,
    {
        let mask = !(1u64 << (bit as u64));
        self.pawns.0 = self.pawns.0 & mask;
        self.knights.0 = self.knights.0 & mask;
        self.bishops.0 = self.bishops.0 & mask;
        self.rooks.0 = self.rooks.0 & mask;
        self.queens.0 = self.queens.0 & mask;
        self.kings.0 = self.kings.0 & mask;
    }

    /// Moves the piece of kind `p` from `from_idx` to `to_idx` in the
    /// piece-kind bitboards, clearing whatever stood on the destination.
    pub fn move_piece(&mut self, p: Piece, from_idx: usize, to_idx: usize)
        requires
            from_idx < 64,
            to_idx < 64,
        ensures
            final(self).pawns.0 == moved_piece_bb(old(self).pawns.0, p == Piece::Pawn, from_idx as int, to_idx as int),
            final(self).knights.0 == moved_piece_bb(old(self).knights.0, p == Piece::Knight, from_idx as int, to_idx as int),
            final(self).bishops.0 == moved_piece_bb(old(self).bishops.0, p == Piece::Bishop, from_idx as int, to_idx as int),
            final(self).rooks.0 == moved_piece_bb(old(self).rooks.0, p == Piece::Rook, from_idx as int, to_idx as int),
            final(self).queens.0 == moved_piece_bb(old(self).queens.0, p == Piece::Queen, from_idx as int, to_idx as int),
            final(self).kings.0 == moved_piece_bb(old(self).kings.0, p == Piece::King, from_idx as int, to_idx as int),
            final(self).side_w == old(self).side_w && final(self).side_b == old(self).side_b,
            final(self).ep == old(self).ep && final(self).color == old(self).color,
            final(self).castle == old(self).castle && final(self).ply == old(self).ply,
    {
        let fmask = !(1u64 << (from_idx as u64));
        match p {
            Piece::Pawn => self.pawns.0 = self.pawns.0 & fmask,
            Piece::Knight => self.knights.0 = self.knights.0 & fmask,
            Piece::Bishop => self.bishops.0 = self.bishops.0 & fmask,
            Piece::Rook => self.rooks.0 = self.rooks.0 & fmask,
            Piece::Queen => self.queens.0 = self.queens.0 & fmask,
            Piece::King => self.kings.0 = self.kings.0 & fmask,
        }
        self.remove_piece_bit(to_idx);
        let tbit = 1u64 << (to_idx as u64);
        match p {
            Piece::Pawn => self.pawns.0 = self.pawns.0 | tbit,
            Piece::Knight => self.knights.0 = self.knights.0 | tbit,
            Piece::Bishop => self.bishops.0 = self.bishops.0 | tbit,
            Piece::Rook => self.rooks.0 = self.rooks.0 | tbit,
            Piece::Queen => self.queens.0 = self.queens.0 | tbit,
            Piece::King => self.kings.0 = self.kings.0 | tbit,
        }
    }
}

/// A position alias kept for the board-centric half of the interface.
pub type Board = State;

/// The running game a protocol front end drives: its current position,
/// if one has been set up.
pub struct Game {
    pub b: Option<Board>,
}

/// Board soundness depends only on the bitboards, the en-passant field
/// and the castling mask, not on whose turn it is or the ply count.
pub proof fn lemma_wf_fields(a: State, b: State)
    requires
        a.wf(),
        b.side_w == a.side_w,
        b.side_b == a.side_b,
        b.pawns == a.pawns,
        b.knights == a.knights,
        b.bishops == a.bishops,
        b.rooks == a.rooks,
        b.queens == a.queens,
        b.kings == a.kings,
        b.ep.0 == 255 || b.ep.0 < 64,
        b.castle < 16,
    ensures
        b.wf(),
{
    assert forall|i: int, j: int|
        0 <= i < j < 6 implies #[trigger] (b.pc_at(i) & b.pc_at(j)) == 0 by {
        assert(b.pc_at(i) == a.pc_at(i) && b.pc_at(j) == a.pc_at(j));
    }
    assert(b.piece_occ() == a.piece_occ() && b.occ() == a.occ());
}

/// The rank a `c` pawn promotes on.
pub open spec fn promo_rank(c: Color) -> int {
    if c == Color::White {
        7
    } else {
        0
    }
}

/// A pawn of the side to move stands on `from` and can step or capture to
/// `to`: the target of a push is empty, the target of a capture holds an
/// enemy piece.
pub open spec fn pawn_step_premise(s: State, from: int, to: int) -> bool {
    &&& bb_has(s.pawns.0 & s.my_bb(), from)
    &&& ((pawn_push_reaches(s.color, from, to) && !bb_has(s.occ(), to)) || (pawn_cap_reaches(
        s.color,
        from,
        to,
    ) && bb_has(s.enemy_bb(), to)))
}

/// The conditions under which a castle to `to` is offered: the matching
/// right is held, the squares strictly between king and rook are empty,
/// and neither the square the king crosses nor its destination is
/// attacked by the opponent.
pub open spec fn castle_branch_ok(s: State, to: int) -> bool {
    if to == 6 {
        s.color == Color::White && s.castle & 1 != 0 && s.occ() & 0x60 == 0 && !attacked(
            s,
            5,
            Color::Black,
        ) && !attacked(s, 6, Color::Black)
    } else if to == 2 {
        s.color == Color::White && s.castle & 2 != 0 && s.occ() & 0xe == 0 && !attacked(
            s,
            2,
            Color::Black,
        ) && !attacked(s, 3, Color::Black)
    } else if to == 62 {
        s.color == Color::Black && s.castle & 4 != 0 && s.occ() & 0x6000000000000000 == 0
            && !attacked(s, 61, Color::White) && !attacked(s, 62, Color::White)
    } else if to == 58 {
        s.color == Color::Black && s.castle & 8 != 0 && s.occ() & 0xe00000000000000 == 0
            && !attacked(s, 58, Color::White) && !attacked(s, 59, Color::White)
    } else {
        false
    }
}

/// What the move generator promises of every move it emits: the moved
/// piece stands on the source square, the move fits that piece's movement
/// shape under the current occupancy, targets are not own-occupied, pawn
/// special moves meet their extra conditions, and castling is fully
/// legality-checked at generation time.
pub open spec fn gen_move_ok(s: State, m: Move) -> bool {
    let from = m.s_from();
    let to = m.s_to();
    &&& m.valid()
    &&& match m.s_flags() {
        MoveFlags::PawnMove => pawn_step_premise(s, from, to) && sq_rank(to) != promo_rank(s.color),
        MoveFlags::PawnDoublePush => bb_has(s.pawns.0 & s.my_bb(), from) && pawn_double_reaches(
            s.color,
            from,
            to,
        ) && !bb_has(s.occ(), to) && !bb_has(s.occ(), (from + to) / 2),
        MoveFlags::EP => bb_has(s.pawns.0 & s.my_bb(), from) && s.ep.0 != 255 && to == s.ep.0
            && pawn_cap_reaches(s.color, from, to),
        MoveFlags::PromoQueen => pawn_step_premise(s, from, to) && sq_rank(to) == promo_rank(
            s.color,
        ),
        MoveFlags::PromoRook => pawn_step_premise(s, from, to) && sq_rank(to) == promo_rank(
            s.color,
        ),
        MoveFlags::PromoKnight => pawn_step_premise(s, from, to) && sq_rank(to) == promo_rank(
            s.color,
        ),
        MoveFlags::PromoBishop => pawn_step_premise(s, from, to) && sq_rank(to) == promo_rank(
            s.color,
        ),
        MoveFlags::Castle => bb_has(s.kings.0 & s.my_bb(), from) && !attacked(
            s,
            s.my_king_sq(),
            s.color.spec_opposite(),
        ) && castle_branch_ok(s, to),
        MoveFlags::KnightMove => bb_has(s.knights.0 & s.my_bb(), from) && knight_reaches(from, to)
            && !bb_has(s.my_bb(), to),
        MoveFlags::BishopMove => bb_has(s.bishops.0 & s.my_bb(), from) && bishop_reaches(
            s.occ(),
            from,
            to,
        ) && !bb_has(s.my_bb(), to),
        MoveFlags::RookMove => bb_has(s.rooks.0 & s.my_bb(), from) && rook_reaches(
            s.occ(),
            from,
            to,
        ) && !bb_has(s.my_bb(), to),
        MoveFlags::QueenMove => bb_has(s.queens.0 & s.my_bb(), from) && (rook_reaches(
            s.occ(),
            from,
            to,
        ) || bishop_reaches(s.occ(), from, to)) && !bb_has(s.my_bb(), to),
        MoveFlags::KingMove => bb_has(s.kings.0 & s.my_bb(), from) && king_reaches(from, to)
            && !bb_has(s.my_bb(), to),
    }
}

/// The two promotion ranks as a mask.
proof fn lemma_promo_mask()
    ensures
        forall|t: int|
            #[trigger] bb_has(0xff000000000000ffu64, t) <==> (0 <= t < 64 && (sq_rank(t) == 0
                || sq_rank(t) == 7)),
{
    assert forall|t: int|
        #[trigger] bb_has(0xff000000000000ffu64, t) <==> (0 <= t < 64 && (sq_rank(t) == 0
            || sq_rank(t) == 7)) by {
        if 0 <= t < 64 {
            let tu = t as u64;
            assert(tu >> 3 == tu / 8 && (((0xff000000000000ffu64 >> tu) & 1u64 == 1u64) <==> (tu
                < 64 && (tu >> 3 == 0 || tu >> 3 == 7)))) by (bit_vector);
        }
    }
}

impl State {
    /// Emits the four promotion records for a pawn step onto the last
    /// rank, or nothing when the target is not on a promotion rank.
    fn promo(&self, mlist: &mut MoveList, from: BB, to: BB) -> (r: bool)
        requires
            from.0 != 0,
            is_single(to.0),
            pawn_step_premise(
                *self,
                u64_trailing_zeros(from.0) as int,
                u64_trailing_zeros(to.0) as int,
            ),
        ensures
            r == (to.0 & 0xff000000000000ffu64 != 0),
            gen_extends(*self, old(mlist).moves@, final(mlist).moves@),
            !r ==> final(mlist).moves@ == old(mlist).moves@,
            r ==> final(mlist).moves@.len() == old(mlist).moves@.len() + 4,
            r ==> forall|i: int|
                old(mlist).moves@.len() <= i < final(mlist).moves@.len()
                    ==> (#[trigger] final(mlist).moves@[i]).s_from() == u64_trailing_zeros(from.0)
                    && final(mlist).moves@[i].s_to() == u64_trailing_zeros(to.0)
                    && (final(mlist).moves@[i].s_flags() == MoveFlags::PromoQueen
                    || final(mlist).moves@[i].s_flags() == MoveFlags::PromoRook
                    || final(mlist).moves@[i].s_flags() == MoveFlags::PromoKnight
                    || final(mlist).moves@[i].s_flags() == MoveFlags::PromoBishop),
            r ==> forall|i: int, j: int|
                old(mlist).moves@.len() <= i < j < final(mlist).moves@.len()
                    ==> (#[trigger] final(mlist).moves@[i]).s_flags()
                    != (#[trigger] final(mlist).moves@[j]).s_flags(),
            r ==> in_list(
                final(mlist).moves@,
                u64_trailing_zeros(from.0) as int,
                u64_trailing_zeros(to.0) as int,
                MoveFlags::PromoQueen,
            ) && in_list(
                final(mlist).moves@,
                u64_trailing_zeros(from.0) as int,
                u64_trailing_zeros(to.0) as int,
                MoveFlags::PromoRook,
            ) && in_list(
                final(mlist).moves@,
                u64_trailing_zeros(from.0) as int,
                u64_trailing_zeros(to.0) as int,
                MoveFlags::PromoKnight,
            ) && in_list(
                final(mlist).moves@,
                u64_trailing_zeros(from.0) as int,
                u64_trailing_zeros(to.0) as int,
                MoveFlags::PromoBishop,
            ),
    {
        proof {
            lemma_bb_ops();
            lemma_promo_mask();
            let k = choose|k: u64| k < 64 && to.0 == (1u64 << k);
            lemma_tz_single(k);
            assert(u64_trailing_zeros(to.0) == k);
            assert(bb_has(to.0, k as int));
            if to.0 & 0xff000000000000ffu64 != 0 {
                crate::bits::lemma_bb_lowest(to.0 & 0xff000000000000ffu64);
                let w = u64_trailing_zeros(to.0 & 0xff000000000000ffu64) as int;
                assert(bb_has(to.0, w) && bb_has(0xff000000000000ffu64, w));
                assert(w == k);
                assert(sq_rank(k as int) == promo_rank(self.color));
            } else {
                assert(!bb_has(to.0 & 0xff000000000000ffu64, k as int));
                assert(sq_rank(k as int) != promo_rank(self.color) || !(0 <= k < 64)) by {
                    if sq_rank(k as int) == promo_rank(self.color) {
                        assert(bb_has(0xff000000000000ffu64, k as int));
                        assert(bb_has(to.0 & 0xff000000000000ffu64, k as int));
                    }
                }
            }
        }
        if to.0 & 0xff000000000000ff == 0 {
            return false;
        }
        let ghost p0 = mlist.moves@;
        mlist.push_move(from, to, MoveFlags::PromoRook);
        proof {
            lemma_in_list_push(p0, mlist.moves@.last());
        }
        let ghost p1 = mlist.moves@;
        mlist.push_move(from, to, MoveFlags::PromoQueen);
        proof {
            lemma_in_list_push(p1, mlist.moves@.last());
        }
        let ghost p2 = mlist.moves@;
        mlist.push_move(from, to, MoveFlags::PromoKnight);
        proof {
            lemma_in_list_push(p2, mlist.moves@.last());
        }
        let ghost p3 = mlist.moves@;
        mlist.push_move(from, to, MoveFlags::PromoBishop);
        proof {
            lemma_in_list_push(p3, mlist.moves@.last());
        }
        true
    }
}


/// The clauses every generator helper promises: the earlier entries of
/// the list stay, and every appended entry is a sound move for `s`.
pub open spec fn gen_extends(s: State, pre: Seq<Move>, post: Seq<Move>) -> bool {
    &&& post.len() >= pre.len()
    &&& forall|i: int| 0 <= i < pre.len() ==> post[i] == pre[i]
    &&& forall|i: int| pre.len() <= i < post.len() ==> gen_move_ok(s, #[trigger] post[i])
    &&& forall|f: int, t: int, flag: MoveFlags|
        #[trigger] in_list(pre, f, t, flag) ==> in_list(post, f, t, flag)
}

/// The move kinds the pawn generator emits.
pub open spec fn is_pawn_flag(g: MoveFlags) -> bool {
    g == MoveFlags::PawnMove || g == MoveFlags::PawnDoublePush || g == MoveFlags::EP || g
        == MoveFlags::PromoQueen || g == MoveFlags::PromoRook || g == MoveFlags::PromoKnight || g
        == MoveFlags::PromoBishop
}

/// Two move records agreeing in source, destination and kind.
pub open spec fn same_move(a: Move, b: Move) -> bool {
    a.s_from() == b.s_from() && a.s_to() == b.s_to() && a.s_flags() == b.s_flags()
}

/// No source-destination-kind triple appears twice in the list.
pub open spec fn no_dup(moves: Seq<Move>) -> bool {
    forall|i: int, j: int|
        0 <= i < j < moves.len() ==> !same_move(#[trigger] moves[i], #[trigger] moves[j])
}

/// The list holds a move with this source, destination and kind.
pub open spec fn in_list(moves: Seq<Move>, f: int, t: int, flag: MoveFlags) -> bool {
    exists|i: int|
        0 <= i < moves.len() && (#[trigger] moves[i]).s_from() == f && moves[i].s_to() == t
            && moves[i].s_flags() == flag
}

/// Membership in a move list survives appending, and the appended move is
/// a member.
pub proof fn lemma_in_list_push(moves: Seq<Move>, m: Move)
    ensures
        forall|f: int, t: int, flag: MoveFlags|
            #[trigger] in_list(moves, f, t, flag) ==> in_list(moves.push(m), f, t, flag),
        in_list(moves.push(m), m.s_from(), m.s_to(), m.s_flags()),
{
    assert forall|f: int, t: int, flag: MoveFlags|
        #[trigger] in_list(moves, f, t, flag) implies in_list(moves.push(m), f, t, flag) by {
        let i = choose|i: int|
            0 <= i < moves.len() && (#[trigger] moves[i]).s_from() == f && moves[i].s_to() == t
                && moves[i].s_flags() == flag;
        assert(moves.push(m)[i].s_from() == f && moves.push(m)[i].s_to() == t && moves.push(
            m,
        )[i].s_flags() == flag);
    }
    let n = moves.len() as int;
    assert(moves.push(m)[n] == m);
}

impl State {
    /// Generates pawn pushes, double pushes, captures, promotions and
    /// en-passant captures for every pawn of the side to move: exactly
    /// the moves meeting each kind's conditions.
    #[verifier::loop_isolation(false)]
    #[verifier::rlimit(100)]
    fn gen_pawn_moves(&self, tables: &Tables, mlist: &mut MoveList)
        requires
            self.wf(),
            tables.wf(),
        ensures
            gen_extends(*self, old(mlist).moves@, final(mlist).moves@),
            forall|f: int, t: int|
                pawn_step_premise(*self, f, t) && sq_rank(t) != promo_rank(self.color) ==> in_list(
                    final(mlist).moves@,
                    f,
                    t,
                    MoveFlags::PawnMove,
                ),
            forall|f: int, t: int|
                pawn_step_premise(*self, f, t) && sq_rank(t) == promo_rank(self.color) ==> in_list(
                    final(mlist).moves@,
                    f,
                    t,
                    MoveFlags::PromoQueen,
                ) && in_list(final(mlist).moves@, f, t, MoveFlags::PromoRook) && in_list(
                    final(mlist).moves@,
                    f,
                    t,
                    MoveFlags::PromoKnight,
                ) && in_list(final(mlist).moves@, f, t, MoveFlags::PromoBishop),
            forall|f: int, t: int|
                bb_has(self.pawns.0 & self.my_bb(), f) && pawn_double_reaches(self.color, f, t)
                    && !bb_has(self.occ(), t) && !bb_has(self.occ(), (f + t) / 2) ==> in_list(
                    final(mlist).moves@,
                    f,
                    t,
                    MoveFlags::PawnDoublePush,
                ),
            forall|f: int|
                bb_has(self.pawns.0 & self.my_bb(), f) && self.ep.0 != 255 && pawn_cap_reaches(
                    self.color,
                    f,
                    self.ep.0 as int,
                ) ==> in_list(final(mlist).moves@, f, self.ep.0 as int, MoveFlags::EP),
            forall|i: int|
                old(mlist).moves@.len() <= i < final(mlist).moves@.len() ==> is_pawn_flag(
                    (#[trigger] final(mlist).moves@[i]).s_flags(),
                ),
            forall|i: int, j: int|
                old(mlist).moves@.len() <= i < j < final(mlist).moves@.len() ==> !same_move(
                    #[trigger] final(mlist).moves@[i],
                    #[trigger] final(mlist).moves@[j],
                ),
    {
        proof {
            lemma_bb_ops();
            crate::movemake::lemma_sides(*self);
        }
        let ghost base = old(mlist).moves@.len() as int;
        let all_pieces = self.side_w.0 | self.side_b.0;
        let enemy_pieces = self.enemy_side_exec();
        let mut pawns = self.get_my_piece(Piece::Pawn).0;
        while pawns != 0
            invariant
                forall|t: int| #[trigger] bb_has(pawns, t) ==> bb_has(self.pawns.0 & self.my_bb(), t),
                gen_extends(*self, old(mlist).moves@, mlist.moves@),
                forall|f: int, t: int|
                    pawn_step_premise(*self, f, t) && !bb_has(pawns, f) && sq_rank(t)
                        != promo_rank(self.color) ==> in_list(mlist.moves@, f, t, MoveFlags::PawnMove),
                forall|f: int, t: int|
                    pawn_step_premise(*self, f, t) && !bb_has(pawns, f) && sq_rank(t) == promo_rank(
                        self.color,
                    ) ==> in_list(mlist.moves@, f, t, MoveFlags::PromoQueen) && in_list(
                        mlist.moves@,
                        f,
                        t,
                        MoveFlags::PromoRook,
                    ) && in_list(mlist.moves@, f, t, MoveFlags::PromoKnight) && in_list(
                        mlist.moves@,
                        f,
                        t,
                        MoveFlags::PromoBishop,
                    ),
                forall|f: int, t: int|
                    bb_has(self.pawns.0 & self.my_bb(), f) && !bb_has(pawns, f)
                        && pawn_double_reaches(self.color, f, t) && !bb_has(self.occ(), t)
                        && !bb_has(self.occ(), (f + t) / 2) ==> in_list(
                        mlist.moves@,
                        f,
                        t,
                        MoveFlags::PawnDoublePush,
                    ),
                forall|f: int|
                    bb_has(self.pawns.0 & self.my_bb(), f) && !bb_has(pawns, f) && self.ep.0 != 255
                        && pawn_cap_reaches(self.color, f, self.ep.0 as int) ==> in_list(
                        mlist.moves@,
                        f,
                        self.ep.0 as int,
                        MoveFlags::EP,
                    ),
                forall|i: int|
                    base <= i < mlist.moves@.len() ==> is_pawn_flag(
                        (#[trigger] mlist.moves@[i]).s_flags(),
                    ) && !bb_has(pawns, mlist.moves@[i].s_from()),
                forall|i: int, j: int|
                    base <= i < j < mlist.moves@.len() ==> !same_move(
                        #[trigger] mlist.moves@[i],
                        #[trigger] mlist.moves@[j],
                    ),
            decreases pawns,
        {
            let ghost rem_pre = pawns;
            let from = pop_lsb(&mut pawns);
            let from_bb = BB(1u64 << (from as u64));
            proof {
                lemma_tz_single(from as u64);
                assert(bb_has(self.pawns.0 & self.my_bb(), from as int));
            }
            let push_entry: u64 = match self.color {
                Color::White => tables.w_pawn_pushes[from as usize],
                Color::Black => tables.b_pawn_pushes[from as usize],
            };
            let mut pushes = push_entry & !all_pieces;
            while pushes != 0
                invariant
                    forall|t: int|
                        #[trigger] bb_has(pushes, t) ==> pawn_push_reaches(
                            self.color,
                            from as int,
                            t,
                        ) && !bb_has(self.occ(), t),
                    gen_extends(*self, old(mlist).moves@, mlist.moves@),
                    forall|f: int, t: int|
                        pawn_step_premise(*self, f, t) && !bb_has(rem_pre, f) && sq_rank(t)
                            != promo_rank(self.color) ==> in_list(
                            mlist.moves@,
                            f,
                            t,
                            MoveFlags::PawnMove,
                        ),
                    forall|f: int, t: int|
                        pawn_step_premise(*self, f, t) && !bb_has(rem_pre, f) && sq_rank(t)
                            == promo_rank(self.color) ==> in_list(
                            mlist.moves@,
                            f,
                            t,
                            MoveFlags::PromoQueen,
                        ) && in_list(mlist.moves@, f, t, MoveFlags::PromoRook) && in_list(
                            mlist.moves@,
                            f,
                            t,
                            MoveFlags::PromoKnight,
                        ) && in_list(mlist.moves@, f, t, MoveFlags::PromoBishop),
                    forall|f: int, t: int|
                        bb_has(self.pawns.0 & self.my_bb(), f) && !bb_has(rem_pre, f)
                            && pawn_double_reaches(self.color, f, t) && !bb_has(self.occ(), t)
                            && !bb_has(self.occ(), (f + t) / 2) ==> in_list(
                            mlist.moves@,
                            f,
                            t,
                            MoveFlags::PawnDoublePush,
                        ),
                    forall|f: int|
                        bb_has(self.pawns.0 & self.my_bb(), f) && !bb_has(rem_pre, f) && self.ep.0
                            != 255 && pawn_cap_reaches(self.color, f, self.ep.0 as int)
                            ==> in_list(mlist.moves@, f, self.ep.0 as int, MoveFlags::EP),
                    forall|t: int|
                        pawn_push_reaches(self.color, from as int, t) && !bb_has(self.occ(), t)
                            && !bb_has(pushes, t) && sq_rank(t) != promo_rank(self.color)
                            ==> in_list(mlist.moves@, from as int, t, MoveFlags::PawnMove),
                    forall|t: int|
                        pawn_push_reaches(self.color, from as int, t) && !bb_has(self.occ(), t)
                            && !bb_has(pushes, t) && sq_rank(t) == promo_rank(self.color)
                            ==> in_list(mlist.moves@, from as int, t, MoveFlags::PromoQueen)
                            && in_list(mlist.moves@, from as int, t, MoveFlags::PromoRook)
                            && in_list(mlist.moves@, from as int, t, MoveFlags::PromoKnight)
                            && in_list(mlist.moves@, from as int, t, MoveFlags::PromoBishop),
                    forall|td: int|
                        pawn_double_reaches(self.color, from as int, td) && !bb_has(self.occ(), td)
                            && !bb_has(self.occ(), (from as int + td) / 2) && !bb_has(
                            pushes,
                            (from as int + td) / 2,
                        ) ==> in_list(mlist.moves@, from as int, td, MoveFlags::PawnDoublePush),
                    forall|i: int|
                        base <= i < mlist.moves@.len() ==> is_pawn_flag(
                            (#[trigger] mlist.moves@[i]).s_flags(),
                        ) && ((!bb_has(rem_pre, mlist.moves@[i].s_from())
                            && mlist.moves@[i].s_from() != from) || (mlist.moves@[i].s_from()
                            == from && (((mlist.moves@[i].s_flags() == MoveFlags::PawnMove
                            || mlist.moves@[i].s_flags() == MoveFlags::PromoQueen
                            || mlist.moves@[i].s_flags() == MoveFlags::PromoRook
                            || mlist.moves@[i].s_flags() == MoveFlags::PromoKnight
                            || mlist.moves@[i].s_flags() == MoveFlags::PromoBishop) && !bb_has(
                            self.occ(),
                            mlist.moves@[i].s_to(),
                        ) && !bb_has(pushes, mlist.moves@[i].s_to())) || (mlist.moves@[i].s_flags()
                            == MoveFlags::PawnDoublePush && pawn_double_reaches(
                            self.color,
                            from as int,
                            mlist.moves@[i].s_to(),
                        ) && !bb_has(pushes, (from as int + mlist.moves@[i].s_to()) / 2))))),
                    forall|i: int, j: int|
                        base <= i < j < mlist.moves@.len() ==> !same_move(
                            #[trigger] mlist.moves@[i],
                            #[trigger] mlist.moves@[j],
                        ),
            decreases pushes,
            {
                let ghost pushes_head = pushes;
                let to = pop_lsb(&mut pushes);
                let to_bb = BB(1u64 << (to as u64));
                proof {
                    lemma_tz_single(to as u64);
                    assert(is_single(to_bb.0));
                    assert(pawn_step_premise(*self, from as int, to as int));
                }
                let ghost before_promo = mlist.moves@;
                if !self.promo(mlist, from_bb, to_bb) {
                    let ghost p0 = mlist.moves@;
                    mlist.push_move(from_bb, to_bb, MoveFlags::PawnMove);
                    proof {
                        lemma_promo_mask();
                        assert(to_bb.0 & 0xff000000000000ffu64 == 0);
                        assert(!bb_has(to_bb.0 & 0xff000000000000ffu64, to as int));
                        assert(bb_has(to_bb.0, to as int));
                        assert(!bb_has(0xff000000000000ffu64, to as int));
                        assert(gen_move_ok(*self, mlist.moves@.last()));
                        lemma_in_list_push(p0, mlist.moves@.last());
                        assert forall|i: int|
                            base <= i < mlist.moves@.len() - 1 implies !same_move(
                            #[trigger] mlist.moves@[i],
                            mlist.moves@.last(),
                        ) by {
                            assert(mlist.moves@[i] == p0[i]);
                            if p0[i].s_from() == from && p0[i].s_flags() == MoveFlags::PawnMove {
                                assert(!bb_has(pushes_head, p0[i].s_to()));
                                assert(bb_has(pushes_head, to as int));
                            }
                        }
                    }
                    let dbl_entry: u64 = match self.color {
                        Color::White => tables.w_pawn_doubles[from as usize],
                        Color::Black => tables.b_pawn_doubles[from as usize],
                    };
                    if dbl_entry & !all_pieces != 0 {
                        proof {
                            lemma_bb_lowest(dbl_entry & !all_pieces);
                            lemma_bb_lowest(dbl_entry);
                            let w = u64_trailing_zeros(dbl_entry & !all_pieces) as int;
                            let d = u64_trailing_zeros(dbl_entry) as int;
                            assert(bb_has(dbl_entry, w));
                            assert(pawn_double_reaches(self.color, from as int, w));
                            assert(pawn_double_reaches(self.color, from as int, d));
                            assert(w == 8 * sq_rank(w) + sq_file(w));
                            assert(d == 8 * sq_rank(d) + sq_file(d));
                            assert(w == d);
                            assert(!bb_has(self.occ(), d));
                            assert((from as int + d) / 2 == to as int);
                        }
                        let ghost p1 = mlist.moves@;
                        mlist.push_move(from_bb, BB(dbl_entry), MoveFlags::PawnDoublePush);
                        proof {
                            assert(gen_move_ok(*self, mlist.moves@.last()));
                            lemma_in_list_push(p1, mlist.moves@.last());
                            let d = mlist.moves@.last().s_to();
                            assert((from as int + d) / 2 == to as int);
                            assert forall|i: int|
                                base <= i < mlist.moves@.len() - 1 implies !same_move(
                                #[trigger] mlist.moves@[i],
                                mlist.moves@.last(),
                            ) by {
                                assert(mlist.moves@[i] == p1[i]);
                                if p1[i].s_from() == from && p1[i].s_flags()
                                    == MoveFlags::PawnDoublePush {
                                    assert(pawn_double_reaches(
                                        self.color,
                                        from as int,
                                        p1[i].s_to(),
                                    ));
                                    assert(pawn_double_reaches(self.color, from as int, d));
                                    assert(p1[i].s_to() == 8 * sq_rank(p1[i].s_to()) + sq_file(
                                        p1[i].s_to(),
                                    ));
                                    assert(d == 8 * sq_rank(d) + sq_file(d));
                                    assert(p1[i].s_to() == d);
                                    assert(!bb_has(pushes_head, (from as int + p1[i].s_to()) / 2));
                                    assert(bb_has(pushes_head, to as int));
                                }
                            }
                        }
                    }
                    proof {
                        assert forall|td: int|
                            pawn_double_reaches(self.color, from as int, td) && !bb_has(
                                self.occ(),
                                td,
                            ) && !bb_has(self.occ(), (from as int + td) / 2) && !bb_has(
                                pushes,
                                (from as int + td) / 2,
                            ) implies in_list(
                            mlist.moves@,
                            from as int,
                            td,
                            MoveFlags::PawnDoublePush,
                        ) by {
                            let mid = (from as int + td) / 2;
                            assert(td == 8 * sq_rank(td) + sq_file(td));
                            assert(from as int == 8 * sq_rank(from as int) + sq_file(from as int));
                            assert(pawn_push_reaches(self.color, from as int, mid));
                            if mid == to as int {
                                if dbl_entry & !all_pieces == 0 {
                                    assert(bb_has(dbl_entry, td));
                                    assert(!bb_has(dbl_entry & !all_pieces, td));
                                    assert(false);
                                } else {
                                    let d = u64_trailing_zeros(dbl_entry) as int;
                                    assert(td == d) by {
                                        assert(bb_has(dbl_entry, td) && bb_has(dbl_entry, d));
                                        assert(pawn_double_reaches(self.color, from as int, d));
                                        assert(td == 8 * sq_rank(td) + sq_file(td));
                                        assert(d == 8 * sq_rank(d) + sq_file(d));
                                    }
                                }
                            }
                        }
                    }
                } else {
                    proof {
                        lemma_promo_mask();
                        lemma_bb_lowest(to_bb.0 & 0xff000000000000ffu64);
                        let w = u64_trailing_zeros(to_bb.0 & 0xff000000000000ffu64) as int;
                        assert(bb_has(to_bb.0, w) && bb_has(0xff000000000000ffu64, w));
                        assert(w == to as int);
                        assert(sq_rank(to as int) == promo_rank(self.color));
                        assert forall|i2: int, j2: int|
                            base <= i2 < j2 < mlist.moves@.len() implies !same_move(
                            #[trigger] mlist.moves@[i2],
                            #[trigger] mlist.moves@[j2],
                        ) by {
                            if j2 >= before_promo.len() {
                                if i2 < before_promo.len() {
                                    assert(mlist.moves@[i2] == before_promo[i2]);
                                    assert(mlist.moves@[j2].s_from() == from as int
                                        && mlist.moves@[j2].s_to() == to as int);
                                    if before_promo[i2].s_from() == from as int
                                        && !(before_promo[i2].s_flags()
                                        == MoveFlags::PawnDoublePush) {
                                        assert(!bb_has(pushes_head, before_promo[i2].s_to()));
                                        assert(bb_has(pushes_head, to as int));
                                    }
                                }
                            } else {
                                assert(mlist.moves@[i2] == before_promo[i2]
                                    && mlist.moves@[j2] == before_promo[j2]);
                            }
                        }
                        assert forall|td: int|
                            pawn_double_reaches(self.color, from as int, td) && !bb_has(
                                self.occ(),
                                td,
                            ) && !bb_has(self.occ(), (from as int + td) / 2) && !bb_has(
                                pushes,
                                (from as int + td) / 2,
                            ) implies in_list(
                            mlist.moves@,
                            from as int,
                            td,
                            MoveFlags::PawnDoublePush,
                        ) by {
                            let mid = (from as int + td) / 2;
                            assert(td == 8 * sq_rank(td) + sq_file(td));
                            assert(from as int == 8 * sq_rank(from as int) + sq_file(from as int));
                            assert(pawn_push_reaches(self.color, from as int, mid));
                            if mid == to as int {
                                assert(sq_rank(mid) == 1 + sq_rank(from as int)
                                    || sq_rank(mid) == sq_rank(from as int) - 1);
                                assert(bb_has(0xff000000000000ffu64, to as int));
                                assert(sq_rank(to as int) == 0 || sq_rank(to as int) == 7);
                                assert(false);
                            }
                        }
                    }
                }
            }
            let caps_entry: u64 = match self.color {
                Color::White => tables.w_pawn_caps[from as usize],
                Color::Black => tables.b_pawn_caps[from as usize],
            };
            let mut caps = caps_entry & enemy_pieces;
            while caps != 0
                invariant
                    forall|t: int|
                        #[trigger] bb_has(caps, t) ==> pawn_cap_reaches(self.color, from as int, t)
                            && bb_has(self.enemy_bb(), t),
                    gen_extends(*self, old(mlist).moves@, mlist.moves@),
                    forall|f: int, t: int|
                        pawn_step_premise(*self, f, t) && !bb_has(rem_pre, f) && sq_rank(t)
                            != promo_rank(self.color) ==> in_list(
                            mlist.moves@,
                            f,
                            t,
                            MoveFlags::PawnMove,
                        ),
                    forall|f: int, t: int|
                        pawn_step_premise(*self, f, t) && !bb_has(rem_pre, f) && sq_rank(t)
                            == promo_rank(self.color) ==> in_list(
                            mlist.moves@,
                            f,
                            t,
                            MoveFlags::PromoQueen,
                        ) && in_list(mlist.moves@, f, t, MoveFlags::PromoRook) && in_list(
                            mlist.moves@,
                            f,
                            t,
                            MoveFlags::PromoKnight,
                        ) && in_list(mlist.moves@, f, t, MoveFlags::PromoBishop),
                    forall|f: int, t: int|
                        bb_has(self.pawns.0 & self.my_bb(), f) && !bb_has(rem_pre, f)
                            && pawn_double_reaches(self.color, f, t) && !bb_has(self.occ(), t)
                            && !bb_has(self.occ(), (f + t) / 2) ==> in_list(
                            mlist.moves@,
                            f,
                            t,
                            MoveFlags::PawnDoublePush,
                        ),
                    forall|f: int|
                        bb_has(self.pawns.0 & self.my_bb(), f) && !bb_has(rem_pre, f) && self.ep.0
                            != 255 && pawn_cap_reaches(self.color, f, self.ep.0 as int)
                            ==> in_list(mlist.moves@, f, self.ep.0 as int, MoveFlags::EP),
                    forall|t: int|
                        pawn_push_reaches(self.color, from as int, t) && !bb_has(self.occ(), t)
                            && sq_rank(t) != promo_rank(self.color) ==> in_list(
                            mlist.moves@,
                            from as int,
                            t,
                            MoveFlags::PawnMove,
                        ),
                    forall|t: int|
                        pawn_push_reaches(self.color, from as int, t) && !bb_has(self.occ(), t)
                            && sq_rank(t) == promo_rank(self.color) ==> in_list(
                            mlist.moves@,
                            from as int,
                            t,
                            MoveFlags::PromoQueen,
                        ) && in_list(mlist.moves@, from as int, t, MoveFlags::PromoRook)
                            && in_list(mlist.moves@, from as int, t, MoveFlags::PromoKnight)
                            && in_list(mlist.moves@, from as int, t, MoveFlags::PromoBishop),
                    forall|td: int|
                        pawn_double_reaches(self.color, from as int, td) && !bb_has(self.occ(), td)
                            && !bb_has(self.occ(), (from as int + td) / 2) ==> in_list(
                            mlist.moves@,
                            from as int,
                            td,
                            MoveFlags::PawnDoublePush,
                        ),
                    forall|t: int|
                        pawn_cap_reaches(self.color, from as int, t) && bb_has(self.enemy_bb(), t)
                            && !bb_has(caps, t) && sq_rank(t) != promo_rank(self.color)
                            ==> in_list(mlist.moves@, from as int, t, MoveFlags::PawnMove),
                    forall|t: int|
                        pawn_cap_reaches(self.color, from as int, t) && bb_has(self.enemy_bb(), t)
                            && !bb_has(caps, t) && sq_rank(t) == promo_rank(self.color)
                            ==> in_list(mlist.moves@, from as int, t, MoveFlags::PromoQueen)
                            && in_list(mlist.moves@, from as int, t, MoveFlags::PromoRook)
                            && in_list(mlist.moves@, from as int, t, MoveFlags::PromoKnight)
                            && in_list(mlist.moves@, from as int, t, MoveFlags::PromoBishop),
                    forall|i: int|
                        base <= i < mlist.moves@.len() ==> is_pawn_flag(
                            (#[trigger] mlist.moves@[i]).s_flags(),
                        ) && ((!bb_has(rem_pre, mlist.moves@[i].s_from())
                            && mlist.moves@[i].s_from() != from) || (mlist.moves@[i].s_from()
                            == from && (mlist.moves@[i].s_flags() == MoveFlags::PawnDoublePush || (
                        (mlist.moves@[i].s_flags() == MoveFlags::PawnMove
                            || mlist.moves@[i].s_flags() == MoveFlags::PromoQueen
                            || mlist.moves@[i].s_flags() == MoveFlags::PromoRook
                            || mlist.moves@[i].s_flags() == MoveFlags::PromoKnight
                            || mlist.moves@[i].s_flags() == MoveFlags::PromoBishop) && (!bb_has(
                            self.occ(),
                            mlist.moves@[i].s_to(),
                        ) || (bb_has(self.enemy_bb(), mlist.moves@[i].s_to()) && !bb_has(
                            caps,
                            mlist.moves@[i].s_to(),
                        ))))))),
                    forall|i: int, j: int|
                        base <= i < j < mlist.moves@.len() ==> !same_move(
                            #[trigger] mlist.moves@[i],
                            #[trigger] mlist.moves@[j],
                        ),
                decreases caps,
            {
                let ghost caps_head = caps;
                let to = pop_lsb(&mut caps);
                let to_bb = BB(1u64 << (to as u64));
                proof {
                    lemma_tz_single(to as u64);
                    assert(pawn_step_premise(*self, from as int, to as int));
                }
                let ghost before_promo = mlist.moves@;
                if !self.promo(mlist, from_bb, to_bb) {
                    let ghost p0 = mlist.moves@;
                    mlist.push_move(from_bb, to_bb, MoveFlags::PawnMove);
                    proof {
                        lemma_promo_mask();
                        assert(to_bb.0 & 0xff000000000000ffu64 == 0);
                        assert(!bb_has(to_bb.0 & 0xff000000000000ffu64, to as int));
                        assert(bb_has(to_bb.0, to as int));
                        assert(!bb_has(0xff000000000000ffu64, to as int));
                        assert(gen_move_ok(*self, mlist.moves@.last()));
                        lemma_in_list_push(p0, mlist.moves@.last());
                        assert forall|i: int|
                            base <= i < mlist.moves@.len() - 1 implies !same_move(
                            #[trigger] mlist.moves@[i],
                            mlist.moves@.last(),
                        ) by {
                            assert(mlist.moves@[i] == p0[i]);
                            if p0[i].s_from() == from && p0[i].s_flags() == MoveFlags::PawnMove {
                                if !bb_has(self.occ(), p0[i].s_to()) {
                                    assert(bb_has(self.enemy_bb(), to as int));
                                    assert(bb_has(self.occ(), to as int));
                                } else {
                                    assert(!bb_has(caps_head, p0[i].s_to()));
                                    assert(bb_has(caps_head, to as int));
                                }
                            }
                        }
                    }
                } else {
                    proof {
                        lemma_promo_mask();
                        lemma_bb_lowest(to_bb.0 & 0xff000000000000ffu64);
                        let w = u64_trailing_zeros(to_bb.0 & 0xff000000000000ffu64) as int;
                        assert(bb_has(to_bb.0, w) && bb_has(0xff000000000000ffu64, w));
                        assert(w == to as int);
                        assert(sq_rank(to as int) == promo_rank(self.color));
                        assert forall|i2: int, j2: int|
                            base <= i2 < j2 < mlist.moves@.len() implies !same_move(
                            #[trigger] mlist.moves@[i2],
                            #[trigger] mlist.moves@[j2],
                        ) by {
                            if j2 >= before_promo.len() {
                                if i2 < before_promo.len() {
                                    assert(mlist.moves@[i2] == before_promo[i2]);
                                    assert(mlist.moves@[j2].s_from() == from as int
                                        && mlist.moves@[j2].s_to() == to as int);
                                    if before_promo[i2].s_from() == from as int
                                        && !(before_promo[i2].s_flags()
                                        == MoveFlags::PawnDoublePush) {
                                        if !bb_has(self.occ(), before_promo[i2].s_to()) {
                                            assert(bb_has(self.enemy_bb(), to as int));
                                            assert(bb_has(self.occ(), to as int));
                                        } else {
                                            assert(!bb_has(caps_head, before_promo[i2].s_to()));
                                            assert(bb_has(caps_head, to as int));
                                        }
                                    }
                                }
                            } else {
                                assert(mlist.moves@[i2] == before_promo[i2]
                                    && mlist.moves@[j2] == before_promo[j2]);
                            }
                        }
                    }
                }
            }
            if self.ep.valid() {
                let ep_bb = self.ep.to_bb();
                if caps_entry & ep_bb.0 != 0 {
                    proof {
                        lemma_tz_single(self.ep.0 as u64);
                        lemma_bb_lowest(caps_entry & ep_bb.0);
                        let w = u64_trailing_zeros(caps_entry & ep_bb.0) as int;
                        assert(bb_has(ep_bb.0, w));
                        assert(w == self.ep.0 as int);
                        assert(pawn_cap_reaches(self.color, from as int, self.ep.0 as int));
                    }
                    let ghost p0 = mlist.moves@;
                    mlist.push_move(from_bb, ep_bb, MoveFlags::EP);
                    proof {
                        assert(gen_move_ok(*self, mlist.moves@.last()));
                        lemma_in_list_push(p0, mlist.moves@.last());
                    }
                } else {
                    proof {
                        lemma_tz_single(self.ep.0 as u64);
                        if pawn_cap_reaches(self.color, from as int, self.ep.0 as int) {
                            assert(bb_has(caps_entry, self.ep.0 as int));
                            assert(bb_has(ep_bb.0, self.ep.0 as int));
                            assert(bb_has(caps_entry & ep_bb.0, self.ep.0 as int));
                            assert(false);
                        }
                    }
                }
            }
            proof {
                assert forall|f: int, t: int|
                    pawn_step_premise(*self, f, t) && !bb_has(pawns, f) && sq_rank(t) != promo_rank(
                        self.color,
                    ) implies in_list(mlist.moves@, f, t, MoveFlags::PawnMove) by {
                    if f == from as int {
                        assert(pushes == 0 && caps == 0);
                    }
                }
                assert forall|f: int, t: int|
                    pawn_step_premise(*self, f, t) && !bb_has(pawns, f) && sq_rank(t) == promo_rank(
                        self.color,
                    ) implies in_list(mlist.moves@, f, t, MoveFlags::PromoQueen) && in_list(
                    mlist.moves@,
                    f,
                    t,
                    MoveFlags::PromoRook,
                ) && in_list(mlist.moves@, f, t, MoveFlags::PromoKnight) && in_list(
                    mlist.moves@,
                    f,
                    t,
                    MoveFlags::PromoBishop,
                ) by {
                    if f == from as int {
                        assert(pushes == 0 && caps == 0);
                    }
                }
                assert forall|f: int, t: int|
                    bb_has(self.pawns.0 & self.my_bb(), f) && !bb_has(pawns, f)
                        && pawn_double_reaches(self.color, f, t) && !bb_has(self.occ(), t)
                        && !bb_has(self.occ(), (f + t) / 2) implies in_list(
                    mlist.moves@,
                    f,
                    t,
                    MoveFlags::PawnDoublePush,
                ) by {
                    if f == from as int {
                        assert(pushes == 0);
                        assert(!bb_has(pushes, (f + t) / 2));
                    }
                }
            }
        }
        proof {
            assert forall|f: int|
                bb_has(self.pawns.0 & self.my_bb(), f) && self.ep.0 != 255 && pawn_cap_reaches(
                    self.color,
                    f,
                    self.ep.0 as int,
                ) implies in_list(mlist.moves@, f, self.ep.0 as int, MoveFlags::EP) by {
                assert(!bb_has(pawns, f));
            }
        }
    }

    /// Generates knight moves for the side to move: exactly the
    /// leaper-table targets off own-occupied squares, for every knight,
    /// each exactly once.
    #[verifier::loop_isolation(false)]
    fn gen_knight_moves(&self, tables: &Tables, mlist: &mut MoveList)
        requires
            self.wf(),
            tables.wf(),
        ensures
            gen_extends(*self, old(mlist).moves@, final(mlist).moves@),
            forall|f: int, t: int|
                bb_has(self.knights.0 & self.my_bb(), f) && knight_reaches(f, t) && !bb_has(
                    self.my_bb(),
                    t,
                ) ==> in_list(final(mlist).moves@, f, t, MoveFlags::KnightMove),
            forall|i: int|
                old(mlist).moves@.len() <= i < final(mlist).moves@.len()
                    ==> (#[trigger] final(mlist).moves@[i]).s_flags() == MoveFlags::KnightMove,
            forall|i: int, j: int|
                old(mlist).moves@.len() <= i < j < final(mlist).moves@.len() ==> !same_move(
                    #[trigger] final(mlist).moves@[i],
                    #[trigger] final(mlist).moves@[j],
                ),
    {
        proof {
            lemma_bb_ops();
        }
        let ghost base = old(mlist).moves@.len() as int;
        let my_pieces = self.my_side_exec();
        let mut knights = self.get_my_piece(Piece::Knight).0;
        while knights != 0
            invariant
                forall|t: int|
                    #[trigger] bb_has(knights, t) ==> bb_has(self.knights.0 & self.my_bb(), t),
                gen_extends(*self, old(mlist).moves@, mlist.moves@),
                forall|f: int, t: int|
                    bb_has(self.knights.0 & self.my_bb(), f) && !bb_has(knights, f)
                        && knight_reaches(f, t) && !bb_has(self.my_bb(), t) ==> in_list(
                        mlist.moves@,
                        f,
                        t,
                        MoveFlags::KnightMove,
                    ),
                forall|i: int|
                    base <= i < mlist.moves@.len() ==> (#[trigger] mlist.moves@[i]).s_flags()
                        == MoveFlags::KnightMove && !bb_has(knights, mlist.moves@[i].s_from()),
                forall|i: int, j: int|
                    base <= i < j < mlist.moves@.len() ==> !same_move(
                        #[trigger] mlist.moves@[i],
                        #[trigger] mlist.moves@[j],
                    ),
            decreases knights,
        {
            let ghost knights_pre = knights;
            let from = pop_lsb(&mut knights);
            let from_bb = BB(1u64 << (from as u64));
            proof {
                lemma_tz_single(from as u64);
            }
            let mut moves = tables.knight[from as usize] & !my_pieces;
            while moves != 0
                invariant
                    forall|t: int|
                        #[trigger] bb_has(moves, t) ==> knight_reaches(from as int, t) && !bb_has(
                            self.my_bb(),
                            t,
                        ),
                    gen_extends(*self, old(mlist).moves@, mlist.moves@),
                    forall|f: int, t: int|
                        bb_has(self.knights.0 & self.my_bb(), f) && !bb_has(knights_pre, f)
                            && knight_reaches(f, t) && !bb_has(self.my_bb(), t) ==> in_list(
                            mlist.moves@,
                            f,
                            t,
                            MoveFlags::KnightMove,
                        ),
                    forall|t: int|
                        knight_reaches(from as int, t) && !bb_has(self.my_bb(), t) && !bb_has(
                            moves,
                            t,
                        ) ==> in_list(mlist.moves@, from as int, t, MoveFlags::KnightMove),
                    forall|i: int|
                        base <= i < mlist.moves@.len() ==> (#[trigger] mlist.moves@[i]).s_flags()
                            == MoveFlags::KnightMove && ((!bb_has(
                            knights_pre,
                            mlist.moves@[i].s_from(),
                        ) && mlist.moves@[i].s_from() != from) || (mlist.moves@[i].s_from()
                            == from && !bb_has(moves, mlist.moves@[i].s_to()))),
                    forall|i: int, j: int|
                        base <= i < j < mlist.moves@.len() ==> !same_move(
                            #[trigger] mlist.moves@[i],
                            #[trigger] mlist.moves@[j],
                        ),
                decreases moves,
            {
                let ghost moves_head = moves;
                let to = pop_lsb(&mut moves);
                proof {
                    lemma_tz_single(to as u64);
                }
                let ghost pre = mlist.moves@;
                mlist.push_move(from_bb, BB(1u64 << (to as u64)), MoveFlags::KnightMove);
                proof {
                    assert(gen_move_ok(*self, mlist.moves@.last()));
                    lemma_in_list_push(pre, mlist.moves@.last());
                    assert forall|i: int|
                        base <= i < mlist.moves@.len() - 1 implies !same_move(
                        #[trigger] mlist.moves@[i],
                        mlist.moves@.last(),
                    ) by {
                        assert(mlist.moves@[i] == pre[i]);
                        if pre[i].s_from() == from {
                            assert(!bb_has(moves_head, pre[i].s_to()));
                            assert(bb_has(moves_head, to as int));
                        }
                    }
                }
            }
        }
    }

    /// Generates bishop moves through the magic lookup: exactly the
    /// reachable squares off own-occupied ones, each exactly once.
    #[verifier::loop_isolation(false)]
    #[verifier::rlimit(100)]
    fn gen_bishop_moves(&self, tables: &Tables, mlist: &mut MoveList)
        requires
            self.wf(),
            tables.wf(),
        ensures
            gen_extends(*self, old(mlist).moves@, final(mlist).moves@),
            forall|f: int, t: int|
                bb_has(self.bishops.0 & self.my_bb(), f) && bishop_reaches(self.occ(), f, t) && !bb_has(
                    self.my_bb(),
                    t,
                ) ==> in_list(final(mlist).moves@, f, t, MoveFlags::BishopMove),
            forall|i: int|
                old(mlist).moves@.len() <= i < final(mlist).moves@.len()
                    ==> (#[trigger] final(mlist).moves@[i]).s_flags() == MoveFlags::BishopMove,
            forall|i: int, j: int|
                old(mlist).moves@.len() <= i < j < final(mlist).moves@.len() ==> !same_move(
                    #[trigger] final(mlist).moves@[i],
                    #[trigger] final(mlist).moves@[j],
                ),
    {
        proof {
            lemma_bb_ops();
        }
        let ghost base = old(mlist).moves@.len() as int;
        let all_pieces = BB(self.side_w.0 | self.side_b.0);
        let my_pieces = self.my_side_exec();
        let mut bishops = self.get_my_piece(Piece::Bishop).0;
        while bishops != 0
            invariant
                forall|t: int|
                    #[trigger] bb_has(bishops, t) ==> bb_has(self.bishops.0 & self.my_bb(), t),
                gen_extends(*self, old(mlist).moves@, mlist.moves@),
                forall|f: int, t: int|
                    bb_has(self.bishops.0 & self.my_bb(), f) && !bb_has(bishops, f)
                        && bishop_reaches(self.occ(), f, t) && !bb_has(self.my_bb(), t) ==> in_list(
                        mlist.moves@,
                        f,
                        t,
                        MoveFlags::BishopMove,
                    ),
                forall|i: int|
                    base <= i < mlist.moves@.len() ==> (#[trigger] mlist.moves@[i]).s_flags()
                        == MoveFlags::BishopMove && !bb_has(bishops, mlist.moves@[i].s_from()),
                forall|i: int, j: int|
                    base <= i < j < mlist.moves@.len() ==> !same_move(
                        #[trigger] mlist.moves@[i],
                        #[trigger] mlist.moves@[j],
                    ),
            decreases bishops,
        {
            let ghost rem_pre = bishops;
            let from = pop_lsb(&mut bishops);
            let from_bb = BB(1u64 << (from as u64));
            proof {
                lemma_tz_single(from as u64);
            }
            let mut moves = tables.get_bishop_moves(from_bb, all_pieces).0 & !my_pieces;
            while moves != 0
                invariant
                    forall|t: int|
                        #[trigger] bb_has(moves, t) ==> bishop_reaches(self.occ(), from as int, t) && !bb_has(
                            self.my_bb(),
                            t,
                        ),
                    gen_extends(*self, old(mlist).moves@, mlist.moves@),
                    forall|f: int, t: int|
                        bb_has(self.bishops.0 & self.my_bb(), f) && !bb_has(rem_pre, f)
                            && bishop_reaches(self.occ(), f, t) && !bb_has(self.my_bb(), t) ==> in_list(
                            mlist.moves@,
                            f,
                            t,
                            MoveFlags::BishopMove,
                        ),
                    forall|t: int|
                        bishop_reaches(self.occ(), from as int, t) && !bb_has(self.my_bb(), t) && !bb_has(moves, t)
                            ==> in_list(mlist.moves@, from as int, t, MoveFlags::BishopMove),
                    forall|i: int|
                        base <= i < mlist.moves@.len() ==> (#[trigger] mlist.moves@[i]).s_flags()
                            == MoveFlags::BishopMove && ((!bb_has(rem_pre, mlist.moves@[i].s_from())
                            && mlist.moves@[i].s_from() != from) || (mlist.moves@[i].s_from()
                            == from && !bb_has(moves, mlist.moves@[i].s_to()))),
                    forall|i: int, j: int|
                        base <= i < j < mlist.moves@.len() ==> !same_move(
                            #[trigger] mlist.moves@[i],
                            #[trigger] mlist.moves@[j],
                        ),
                decreases moves,
            {
                let ghost moves_head = moves;
                let to = pop_lsb(&mut moves);
                proof {
                    lemma_tz_single(to as u64);
                }
                let ghost pre = mlist.moves@;
                mlist.push_move(from_bb, BB(1u64 << (to as u64)), MoveFlags::BishopMove);
                proof {
                    assert(gen_move_ok(*self, mlist.moves@.last()));
                    lemma_in_list_push(pre, mlist.moves@.last());
                    assert forall|i: int|
                        base <= i < mlist.moves@.len() - 1 implies !same_move(
                        #[trigger] mlist.moves@[i],
                        mlist.moves@.last(),
                    ) by {
                        assert(mlist.moves@[i] == pre[i]);
                        if pre[i].s_from() == from {
                            assert(!bb_has(moves_head, pre[i].s_to()));
                            assert(bb_has(moves_head, to as int));
                        }
                    }
                }
            }
            proof {
                assert forall|f: int, t: int|
                    bb_has(self.bishops.0 & self.my_bb(), f) && !bb_has(bishops, f)
                        && bishop_reaches(self.occ(), f, t) && !bb_has(self.my_bb(), t) implies in_list(
                    mlist.moves@,
                    f,
                    t,
                    MoveFlags::BishopMove,
                ) by {
                    if f == from as int {
                        assert(moves == 0);
                        assert(!bb_has(moves, t));
                        assert(in_list(mlist.moves@, from as int, t, MoveFlags::BishopMove));
                    }
                }
            }
        }
    }

    /// Generates rook moves through the magic lookup: exactly the
    /// reachable squares off own-occupied ones, each exactly once.
    #[verifier::loop_isolation(false)]
    #[verifier::rlimit(100)]
    fn gen_rook_moves(&self, tables: &Tables, mlist: &mut MoveList)
        requires
            self.wf(),
            tables.wf(),
        ensures
            gen_extends(*self, old(mlist).moves@, final(mlist).moves@),
            forall|f: int, t: int|
                bb_has(self.rooks.0 & self.my_bb(), f) && rook_reaches(self.occ(), f, t) && !bb_has(
                    self.my_bb(),
                    t,
                ) ==> in_list(final(mlist).moves@, f, t, MoveFlags::RookMove),
            forall|i: int|
                old(mlist).moves@.len() <= i < final(mlist).moves@.len()
                    ==> (#[trigger] final(mlist).moves@[i]).s_flags() == MoveFlags::RookMove,
            forall|i: int, j: int|
                old(mlist).moves@.len() <= i < j < final(mlist).moves@.len() ==> !same_move(
                    #[trigger] final(mlist).moves@[i],
                    #[trigger] final(mlist).moves@[j],
                ),
    {
        proof {
            lemma_bb_ops();
        }
        let ghost base = old(mlist).moves@.len() as int;
        let all_pieces = BB(self.side_w.0 | self.side_b.0);
        let my_pieces = self.my_side_exec();
        let mut rooks = self.get_my_piece(Piece::Rook).0;
        while rooks != 0
            invariant
                forall|t: int|
                    #[trigger] bb_has(rooks, t) ==> bb_has(self.rooks.0 & self.my_bb(), t),
                gen_extends(*self, old(mlist).moves@, mlist.moves@),
                forall|f: int, t: int|
                    bb_has(self.rooks.0 & self.my_bb(), f) && !bb_has(rooks, f)
                        && rook_reaches(self.occ(), f, t) && !bb_has(self.my_bb(), t) ==> in_list(
                        mlist.moves@,
                        f,
                        t,
                        MoveFlags::RookMove,
                    ),
                forall|i: int|
                    base <= i < mlist.moves@.len() ==> (#[trigger] mlist.moves@[i]).s_flags()
                        == MoveFlags::RookMove && !bb_has(rooks, mlist.moves@[i].s_from()),
                forall|i: int, j: int|
                    base <= i < j < mlist.moves@.len() ==> !same_move(
                        #[trigger] mlist.moves@[i],
                        #[trigger] mlist.moves@[j],
                    ),
            decreases rooks,
        {
            let ghost rem_pre = rooks;
            let from = pop_lsb(&mut rooks);
            let from_bb = BB(1u64 << (from as u64));
            proof {
                lemma_tz_single(from as u64);
            }
            let mut moves = tables.get_rook_moves(from_bb, all_pieces).0 & !my_pieces;
            while moves != 0
                invariant
                    forall|t: int|
                        #[trigger] bb_has(moves, t) ==> rook_reaches(self.occ(), from as int, t) && !bb_has(
                            self.my_bb(),
                            t,
                        ),
                    gen_extends(*self, old(mlist).moves@, mlist.moves@),
                    forall|f: int, t: int|
                        bb_has(self.rooks.0 & self.my_bb(), f) && !bb_has(rem_pre, f)
                            && rook_reaches(self.occ(), f, t) && !bb_has(self.my_bb(), t) ==> in_list(
                            mlist.moves@,
                            f,
                            t,
                            MoveFlags::RookMove,
                        ),
                    forall|t: int|
                        rook_reaches(self.occ(), from as int, t) && !bb_has(self.my_bb(), t) && !bb_has(moves, t)
                            ==> in_list(mlist.moves@, from as int, t, MoveFlags::RookMove),
                    forall|i: int|
                        base <= i < mlist.moves@.len() ==> (#[trigger] mlist.moves@[i]).s_flags()
                            == MoveFlags::RookMove && ((!bb_has(rem_pre, mlist.moves@[i].s_from())
                            && mlist.moves@[i].s_from() != from) || (mlist.moves@[i].s_from()
                            == from && !bb_has(moves, mlist.moves@[i].s_to()))),
                    forall|i: int, j: int|
                        base <= i < j < mlist.moves@.len() ==> !same_move(
                            #[trigger] mlist.moves@[i],
                            #[trigger] mlist.moves@[j],
                        ),
                decreases moves,
            {
                let ghost moves_head = moves;
                let to = pop_lsb(&mut moves);
                proof {
                    lemma_tz_single(to as u64);
                }
                let ghost pre = mlist.moves@;
                mlist.push_move(from_bb, BB(1u64 << (to as u64)), MoveFlags::RookMove);
                proof {
                    assert(gen_move_ok(*self, mlist.moves@.last()));
                    lemma_in_list_push(pre, mlist.moves@.last());
                    assert forall|i: int|
                        base <= i < mlist.moves@.len() - 1 implies !same_move(
                        #[trigger] mlist.moves@[i],
                        mlist.moves@.last(),
                    ) by {
                        assert(mlist.moves@[i] == pre[i]);
                        if pre[i].s_from() == from {
                            assert(!bb_has(moves_head, pre[i].s_to()));
                            assert(bb_has(moves_head, to as int));
                        }
                    }
                }
            }
            proof {
                assert forall|f: int, t: int|
                    bb_has(self.rooks.0 & self.my_bb(), f) && !bb_has(rooks, f)
                        && rook_reaches(self.occ(), f, t) && !bb_has(self.my_bb(), t) implies in_list(
                    mlist.moves@,
                    f,
                    t,
                    MoveFlags::RookMove,
                ) by {
                    if f == from as int {
                        assert(moves == 0);
                        assert(!bb_has(moves, t));
                        assert(in_list(mlist.moves@, from as int, t, MoveFlags::RookMove));
                    }
                }
            }
        }
    }

    /// Generates queen moves as the union of the rook-pattern and
    /// bishop-pattern magic lookups, each target exactly once.
    #[verifier::loop_isolation(false)]
    #[verifier::rlimit(100)]
    fn gen_queen_moves(&self, tables: &Tables, mlist: &mut MoveList)
        requires
            self.wf(),
            tables.wf(),
        ensures
            gen_extends(*self, old(mlist).moves@, final(mlist).moves@),
            forall|f: int, t: int|
                bb_has(self.queens.0 & self.my_bb(), f) && (rook_reaches(self.occ(), f, t) || bishop_reaches(self.occ(), f, t)) && !bb_has(
                    self.my_bb(),
                    t,
                ) ==> in_list(final(mlist).moves@, f, t, MoveFlags::QueenMove),
            forall|i: int|
                old(mlist).moves@.len() <= i < final(mlist).moves@.len()
                    ==> (#[trigger] final(mlist).moves@[i]).s_flags() == MoveFlags::QueenMove,
            forall|i: int, j: int|
                old(mlist).moves@.len() <= i < j < final(mlist).moves@.len() ==> !same_move(
                    #[trigger] final(mlist).moves@[i],
                    #[trigger] final(mlist).moves@[j],
                ),
    {
        proof {
            lemma_bb_ops();
        }
        let ghost base = old(mlist).moves@.len() as int;
        let all_pieces = BB(self.side_w.0 | self.side_b.0);
        let my_pieces = self.my_side_exec();
        let mut queens = self.get_my_piece(Piece::Queen).0;
        while queens != 0
            invariant
                forall|t: int|
                    #[trigger] bb_has(queens, t) ==> bb_has(self.queens.0 & self.my_bb(), t),
                gen_extends(*self, old(mlist).moves@, mlist.moves@),
                forall|f: int, t: int|
                    bb_has(self.queens.0 & self.my_bb(), f) && !bb_has(queens, f)
                        && (rook_reaches(self.occ(), f, t) || bishop_reaches(self.occ(), f, t)) && !bb_has(self.my_bb(), t) ==> in_list(
                        mlist.moves@,
                        f,
                        t,
                        MoveFlags::QueenMove,
                    ),
                forall|i: int|
                    base <= i < mlist.moves@.len() ==> (#[trigger] mlist.moves@[i]).s_flags()
                        == MoveFlags::QueenMove && !bb_has(queens, mlist.moves@[i].s_from()),
                forall|i: int, j: int|
                    base <= i < j < mlist.moves@.len() ==> !same_move(
                        #[trigger] mlist.moves@[i],
                        #[trigger] mlist.moves@[j],
                    ),
            decreases queens,
        {
            let ghost rem_pre = queens;
            let from = pop_lsb(&mut queens);
            let from_bb = BB(1u64 << (from as u64));
            proof {
                lemma_tz_single(from as u64);
            }
            let rm = tables.get_rook_moves(from_bb, all_pieces).0;
            let bm = tables.get_bishop_moves(from_bb, all_pieces).0;
            let mut moves = (rm | bm) & !my_pieces;
            while moves != 0
                invariant
                    forall|t: int|
                        #[trigger] bb_has(moves, t) ==> (rook_reaches(self.occ(), from as int, t) || bishop_reaches(self.occ(), from as int, t)) && !bb_has(
                            self.my_bb(),
                            t,
                        ),
                    gen_extends(*self, old(mlist).moves@, mlist.moves@),
                    forall|f: int, t: int|
                        bb_has(self.queens.0 & self.my_bb(), f) && !bb_has(rem_pre, f)
                            && (rook_reaches(self.occ(), f, t) || bishop_reaches(self.occ(), f, t)) && !bb_has(self.my_bb(), t) ==> in_list(
                            mlist.moves@,
                            f,
                            t,
                            MoveFlags::QueenMove,
                        ),
                    forall|t: int|
                        (rook_reaches(self.occ(), from as int, t) || bishop_reaches(self.occ(), from as int, t)) && !bb_has(self.my_bb(), t) && !bb_has(moves, t)
                            ==> in_list(mlist.moves@, from as int, t, MoveFlags::QueenMove),
                    forall|i: int|
                        base <= i < mlist.moves@.len() ==> (#[trigger] mlist.moves@[i]).s_flags()
                            == MoveFlags::QueenMove && ((!bb_has(rem_pre, mlist.moves@[i].s_from())
                            && mlist.moves@[i].s_from() != from) || (mlist.moves@[i].s_from()
                            == from && !bb_has(moves, mlist.moves@[i].s_to()))),
                    forall|i: int, j: int|
                        base <= i < j < mlist.moves@.len() ==> !same_move(
                            #[trigger] mlist.moves@[i],
                            #[trigger] mlist.moves@[j],
                        ),
                decreases moves,
            {
                let ghost moves_head = moves;
                let to = pop_lsb(&mut moves);
                proof {
                    lemma_tz_single(to as u64);
                }
                let ghost pre = mlist.moves@;
                mlist.push_move(from_bb, BB(1u64 << (to as u64)), MoveFlags::QueenMove);
                proof {
                    assert(gen_move_ok(*self, mlist.moves@.last()));
                    lemma_in_list_push(pre, mlist.moves@.last());
                    assert forall|i: int|
                        base <= i < mlist.moves@.len() - 1 implies !same_move(
                        #[trigger] mlist.moves@[i],
                        mlist.moves@.last(),
                    ) by {
                        assert(mlist.moves@[i] == pre[i]);
                        if pre[i].s_from() == from {
                            assert(!bb_has(moves_head, pre[i].s_to()));
                            assert(bb_has(moves_head, to as int));
                        }
                    }
                }
            }
            proof {
                assert forall|f: int, t: int|
                    bb_has(self.queens.0 & self.my_bb(), f) && !bb_has(queens, f)
                        && (rook_reaches(self.occ(), f, t) || bishop_reaches(self.occ(), f, t)) && !bb_has(self.my_bb(), t) implies in_list(
                    mlist.moves@,
                    f,
                    t,
                    MoveFlags::QueenMove,
                ) by {
                    if f == from as int {
                        assert(moves == 0);
                        assert(!bb_has(moves, t));
                        assert(in_list(mlist.moves@, from as int, t, MoveFlags::QueenMove));
                    }
                }
            }
        }
    }

    /// Generates king steps and, when the king is not in check, whichever
    /// castles pass the occupancy and attack pre-filters; with one king,
    /// exactly those moves, each exactly once.
    #[verifier::loop_isolation(false)]
    #[verifier::rlimit(100)]
    fn gen_king_moves(&self, tables: &Tables, mlist: &mut MoveList)
        requires
            self.wf(),
            tables.wf(),
        ensures
            gen_extends(*self, old(mlist).moves@, final(mlist).moves@),
            self.kings_ok() ==> forall|f: int, t: int|
                bb_has(self.kings.0 & self.my_bb(), f) && king_reaches(f, t) && !bb_has(
                    self.my_bb(),
                    t,
                ) ==> in_list(final(mlist).moves@, f, t, MoveFlags::KingMove),
            self.kings_ok() ==> forall|f: int, t: int|
                bb_has(self.kings.0 & self.my_bb(), f) && !attacked(
                    *self,
                    self.my_king_sq(),
                    self.color.spec_opposite(),
                ) && castle_branch_ok(*self, t) ==> in_list(
                    final(mlist).moves@,
                    f,
                    t,
                    MoveFlags::Castle,
                ),
            forall|i: int|
                old(mlist).moves@.len() <= i < final(mlist).moves@.len()
                    ==> (#[trigger] final(mlist).moves@[i]).s_flags() == MoveFlags::KingMove
                    || final(mlist).moves@[i].s_flags() == MoveFlags::Castle,
            forall|i: int, j: int|
                old(mlist).moves@.len() <= i < j < final(mlist).moves@.len() ==> !same_move(
                    #[trigger] final(mlist).moves@[i],
                    #[trigger] final(mlist).moves@[j],
                ),
    {
        proof {
            lemma_bb_ops();
        }
        let ghost base = old(mlist).moves@.len() as int;
        let all_pieces = self.side_w.0 | self.side_b.0;
        let my_pieces = self.my_side_exec();
        let mut kings = self.get_my_piece(Piece::King).0;
        while kings != 0
            invariant
                forall|t: int|
                    #[trigger] bb_has(kings, t) ==> bb_has(self.kings.0 & self.my_bb(), t),
                gen_extends(*self, old(mlist).moves@, mlist.moves@),
                self.kings_ok() ==> forall|f: int, t: int|
                    bb_has(self.kings.0 & self.my_bb(), f) && !bb_has(kings, f) && king_reaches(
                        f,
                        t,
                    ) && !bb_has(self.my_bb(), t) ==> in_list(
                        mlist.moves@,
                        f,
                        t,
                        MoveFlags::KingMove,
                    ),
                self.kings_ok() ==> forall|f: int, t: int|
                    bb_has(self.kings.0 & self.my_bb(), f) && !bb_has(kings, f) && !attacked(
                        *self,
                        self.my_king_sq(),
                        self.color.spec_opposite(),
                    ) && castle_branch_ok(*self, t) ==> in_list(
                        mlist.moves@,
                        f,
                        t,
                        MoveFlags::Castle,
                    ),
                forall|i: int|
                    base <= i < mlist.moves@.len() ==> ((#[trigger] mlist.moves@[i]).s_flags()
                        == MoveFlags::KingMove || mlist.moves@[i].s_flags() == MoveFlags::Castle)
                        && !bb_has(kings, mlist.moves@[i].s_from()),
                forall|i: int, j: int|
                    base <= i < j < mlist.moves@.len() ==> !same_move(
                        #[trigger] mlist.moves@[i],
                        #[trigger] mlist.moves@[j],
                    ),
            decreases kings,
        {
            let ghost rem_pre = kings;
            let from = pop_lsb(&mut kings);
            let from_bb = BB(1u64 << (from as u64));
            proof {
                lemma_tz_single(from as u64);
            }
            let mut moves = tables.king[from as usize] & !my_pieces;
            while moves != 0
                invariant
                    forall|t: int|
                        #[trigger] bb_has(moves, t) ==> king_reaches(from as int, t) && !bb_has(
                            self.my_bb(),
                            t,
                        ),
                    gen_extends(*self, old(mlist).moves@, mlist.moves@),
                    self.kings_ok() ==> forall|f: int, t: int|
                        bb_has(self.kings.0 & self.my_bb(), f) && !bb_has(rem_pre, f)
                            && king_reaches(f, t) && !bb_has(self.my_bb(), t) ==> in_list(
                            mlist.moves@,
                            f,
                            t,
                            MoveFlags::KingMove,
                        ),
                    self.kings_ok() ==> forall|f: int, t: int|
                        bb_has(self.kings.0 & self.my_bb(), f) && !bb_has(rem_pre, f) && !attacked(
                            *self,
                            self.my_king_sq(),
                            self.color.spec_opposite(),
                        ) && castle_branch_ok(*self, t) ==> in_list(
                            mlist.moves@,
                            f,
                            t,
                            MoveFlags::Castle,
                        ),
                    forall|t: int|
                        king_reaches(from as int, t) && !bb_has(self.my_bb(), t) && !bb_has(
                            moves,
                            t,
                        ) ==> in_list(mlist.moves@, from as int, t, MoveFlags::KingMove),
                    forall|i: int|
                        base <= i < mlist.moves@.len() ==> ((#[trigger] mlist.moves@[i]).s_flags()
                            == MoveFlags::KingMove || mlist.moves@[i].s_flags()
                            == MoveFlags::Castle) && ((!bb_has(rem_pre, mlist.moves@[i].s_from())
                            && mlist.moves@[i].s_from() != from) || (mlist.moves@[i].s_from()
                            == from && mlist.moves@[i].s_flags() == MoveFlags::KingMove && !bb_has(
                            moves,
                            mlist.moves@[i].s_to(),
                        ))),
                    forall|i: int, j: int|
                        base <= i < j < mlist.moves@.len() ==> !same_move(
                            #[trigger] mlist.moves@[i],
                            #[trigger] mlist.moves@[j],
                        ),
                decreases moves,
            {
                let ghost moves_head = moves;
                let to = pop_lsb(&mut moves);
                proof {
                    lemma_tz_single(to as u64);
                }
                let ghost pre = mlist.moves@;
                mlist.push_move(from_bb, BB(1u64 << (to as u64)), MoveFlags::KingMove);
                proof {
                    assert(gen_move_ok(*self, mlist.moves@.last()));
                    lemma_in_list_push(pre, mlist.moves@.last());
                    assert forall|i: int|
                        base <= i < mlist.moves@.len() - 1 implies !same_move(
                        #[trigger] mlist.moves@[i],
                        mlist.moves@.last(),
                    ) by {
                        assert(mlist.moves@[i] == pre[i]);
                        if pre[i].s_from() == from && pre[i].s_flags() == MoveFlags::KingMove {
                            assert(!bb_has(moves_head, pre[i].s_to()));
                            assert(bb_has(moves_head, to as int));
                        }
                    }
                }
            }
            proof {
                assert(self.kings.0 & self.my_bb() != 0) by {
                    assert(bb_has(self.kings.0 & self.my_bb(), from as int));
                }
                if self.kings_ok() {
                    let kk = choose|k: u64|
                        k < 64 && (self.kings.0 & self.my_bb()) == (1u64 << k);
                    assert(self.kings.0 & self.my_bb() == self.kings.0 & self.side_bb(self.color));
                    assert(bb_has(self.kings.0 & self.my_bb(), kk as int));
                    assert(from == kk);
                    assert forall|i: int| bb_has(kings, i) <==> bb_has(0u64, i) by {
                        if bb_has(kings, i) {
                            assert(bb_has(rem_pre, i) && i != from);
                            assert(bb_has(self.kings.0 & self.my_bb(), i));
                        }
                    }
                    crate::bits::lemma_bb_ext(kings, 0);
                }
            }
            if self.in_check(tables) {
                break ;
            }
            proof {
                lemma_tz_single(2);
                lemma_tz_single(3);
                lemma_tz_single(5);
                lemma_tz_single(6);
                lemma_tz_single(58);
                lemma_tz_single(59);
                lemma_tz_single(61);
                lemma_tz_single(62);
                assert(bb_has(1u64 << 2u64, 2) && bb_has(1u64 << 3u64, 3));
                assert(bb_has(1u64 << 5u64, 5) && bb_has(1u64 << 6u64, 6));
                assert(bb_has(1u64 << 58u64, 58) && bb_has(1u64 << 59u64, 59));
                assert(bb_has(1u64 << 61u64, 61) && bb_has(1u64 << 62u64, 62));
            }
            match self.color {
                Color::White => {
                    if self.castle & 0b01 != 0 {
                        let mask_wk: u64 = 0x60;
                        if all_pieces & mask_wk == 0 && !self.under_attack(tables, BB(1u64 << 5))
                            && !self.under_attack(tables, BB(1u64 << 6)) {
                            let ghost p0 = mlist.moves@;
                            mlist.push_move(from_bb, BB(1u64 << 6), MoveFlags::Castle);
                            proof {
                                assert(castle_branch_ok(*self, 6));
                                assert(gen_move_ok(*self, mlist.moves@.last()));
                                lemma_in_list_push(p0, mlist.moves@.last());
                            }
                        }
                    }
                    if self.castle & 0b10 != 0 {
                        let mask_wq: u64 = 0xe;
                        if all_pieces & mask_wq == 0 && !self.under_attack(tables, BB(1u64 << 2))
                            && !self.under_attack(tables, BB(1u64 << 3)) {
                            let ghost p0 = mlist.moves@;
                            mlist.push_move(from_bb, BB(1u64 << 2), MoveFlags::Castle);
                            proof {
                                assert(castle_branch_ok(*self, 2));
                                assert(gen_move_ok(*self, mlist.moves@.last()));
                                lemma_in_list_push(p0, mlist.moves@.last());
                            }
                        }
                    }
                },
                Color::Black => {
                    if self.castle & 0b100 != 0 {
                        let mask_bk: u64 = 0x6000000000000000;
                        if all_pieces & mask_bk == 0 && !self.under_attack(tables, BB(1u64 << 61))
                            && !self.under_attack(tables, BB(1u64 << 62)) {
                            let ghost p0 = mlist.moves@;
                            mlist.push_move(from_bb, BB(1u64 << 62), MoveFlags::Castle);
                            proof {
                                assert(castle_branch_ok(*self, 62));
                                assert(gen_move_ok(*self, mlist.moves@.last()));
                                lemma_in_list_push(p0, mlist.moves@.last());
                            }
                        }
                    }
                    if self.castle & 0b1000 != 0 {
                        let mask_bq: u64 = 0xe00000000000000;
                        if all_pieces & mask_bq == 0 && !self.under_attack(tables, BB(1u64 << 58))
                            && !self.under_attack(tables, BB(1u64 << 59)) {
                            let ghost p0 = mlist.moves@;
                            mlist.push_move(from_bb, BB(1u64 << 58), MoveFlags::Castle);
                            proof {
                                assert(castle_branch_ok(*self, 58));
                                assert(gen_move_ok(*self, mlist.moves@.last()));
                                lemma_in_list_push(p0, mlist.moves@.last());
                            }
                        }
                    }
                },
            }
            proof {
                if self.kings_ok() {
                    assert forall|f: int, t: int|
                        bb_has(self.kings.0 & self.my_bb(), f) && !bb_has(kings, f) && !attacked(
                            *self,
                            self.my_king_sq(),
                            self.color.spec_opposite(),
                        ) && castle_branch_ok(*self, t) implies in_list(
                        mlist.moves@,
                        f,
                        t,
                        MoveFlags::Castle,
                    ) by {
                        assert(f == from as int);
                        assert(t == 2 || t == 6 || t == 58 || t == 62);
                    }
                }
            }
        }
    }

    /// Generates every pseudo-legal move for the side to move, and only
    /// those, each exactly once: every emitted move obeys its piece's
    /// movement shape and the occupancy (castling fully pre-filtered), no
    /// source-destination-kind triple appears twice, and conversely every
    /// move meeting its kind's conditions is in the list (given one king
    /// per side, which the king-and-castle pass leans on).
    #[verifier::rlimit(100)]
    pub fn pseudo_legal_moves(&self, tables: &Tables, _captures_only: bool) -> (r: MoveList)
        requires
            self.wf(),
            tables.wf(),
        ensures
            forall|i: int|
                0 <= i < r.moves@.len() ==> gen_move_ok(*self, #[trigger] r.moves@[i]),
            no_dup(r.moves@),
            self.kings_ok() ==> forall|m: Move|
                m.valid() && #[trigger] gen_move_ok(*self, m) ==> in_list(
                    r.moves@,
                    m.s_from(),
                    m.s_to(),
                    m.s_flags(),
                ),
    {
        let mut mlist = MoveList::new();
        self.gen_pawn_moves(tables, &mut mlist);
        let ghost s1 = mlist.moves@;
        self.gen_knight_moves(tables, &mut mlist);
        let ghost s2 = mlist.moves@;
        self.gen_bishop_moves(tables, &mut mlist);
        let ghost s3 = mlist.moves@;
        self.gen_rook_moves(tables, &mut mlist);
        let ghost s4 = mlist.moves@;
        self.gen_queen_moves(tables, &mut mlist);
        let ghost s5 = mlist.moves@;
        self.gen_king_moves(tables, &mut mlist);
        proof {
            let sf = mlist.moves@;
            assert forall|i: int, j: int|
                0 <= i < j < sf.len() implies !same_move(#[trigger] sf[i], #[trigger] sf[j]) by {
                assert(i < s1.len() ==> sf[i] == s1[i] && is_pawn_flag(s1[i].s_flags()));
                assert(s1.len() <= i < s2.len() ==> sf[i] == s2[i] && s2[i].s_flags()
                    == MoveFlags::KnightMove);
                assert(s2.len() <= i < s3.len() ==> sf[i] == s3[i] && s3[i].s_flags()
                    == MoveFlags::BishopMove);
                assert(s3.len() <= i < s4.len() ==> sf[i] == s4[i] && s4[i].s_flags()
                    == MoveFlags::RookMove);
                assert(s4.len() <= i < s5.len() ==> sf[i] == s5[i] && s5[i].s_flags()
                    == MoveFlags::QueenMove);
                assert(s5.len() <= i ==> sf[i].s_flags() == MoveFlags::KingMove || sf[i].s_flags()
                    == MoveFlags::Castle);
                assert(j < s1.len() ==> sf[j] == s1[j] && is_pawn_flag(s1[j].s_flags()));
                assert(s1.len() <= j < s2.len() ==> sf[j] == s2[j] && s2[j].s_flags()
                    == MoveFlags::KnightMove);
                assert(s2.len() <= j < s3.len() ==> sf[j] == s3[j] && s3[j].s_flags()
                    == MoveFlags::BishopMove);
                assert(s3.len() <= j < s4.len() ==> sf[j] == s4[j] && s4[j].s_flags()
                    == MoveFlags::RookMove);
                assert(s4.len() <= j < s5.len() ==> sf[j] == s5[j] && s5[j].s_flags()
                    == MoveFlags::QueenMove);
                assert(s5.len() <= j ==> sf[j].s_flags() == MoveFlags::KingMove || sf[j].s_flags()
                    == MoveFlags::Castle);
            }
            if self.kings_ok() {
                assert forall|m: Move|
                    m.valid() && #[trigger] gen_move_ok(*self, m) implies in_list(
                    mlist.moves@,
                    m.s_from(),
                    m.s_to(),
                    m.s_flags(),
                ) by {
                    let f = m.s_from();
                    let t = m.s_to();
                    match m.s_flags() {
                        MoveFlags::PawnMove => {
                            assert(in_list(mlist.moves@, f, t, MoveFlags::PawnMove));
                        },
                        MoveFlags::PawnDoublePush => {
                            assert(in_list(mlist.moves@, f, t, MoveFlags::PawnDoublePush));
                        },
                        MoveFlags::EP => {
                            assert(in_list(mlist.moves@, f, t, MoveFlags::EP));
                        },
                        MoveFlags::PromoQueen => {
                            assert(in_list(mlist.moves@, f, t, MoveFlags::PromoQueen));
                        },
                        MoveFlags::PromoRook => {
                            assert(in_list(mlist.moves@, f, t, MoveFlags::PromoRook));
                        },
                        MoveFlags::PromoKnight => {
                            assert(in_list(mlist.moves@, f, t, MoveFlags::PromoKnight));
                        },
                        MoveFlags::PromoBishop => {
                            assert(in_list(mlist.moves@, f, t, MoveFlags::PromoBishop));
                        },
                        MoveFlags::Castle => {
                            assert(in_list(mlist.moves@, f, t, MoveFlags::Castle));
                        },
                        MoveFlags::KnightMove => {
                            assert(in_list(mlist.moves@, f, t, MoveFlags::KnightMove));
                        },
                        MoveFlags::BishopMove => {
                            assert(in_list(mlist.moves@, f, t, MoveFlags::BishopMove));
                        },
                        MoveFlags::RookMove => {
                            assert(in_list(mlist.moves@, f, t, MoveFlags::RookMove));
                        },
                        MoveFlags::QueenMove => {
                            assert(in_list(mlist.moves@, f, t, MoveFlags::QueenMove));
                        },
                        MoveFlags::KingMove => {
                            assert(in_list(mlist.moves@, f, t, MoveFlags::KingMove));
                        },
                    }
                }
            }
        }
        mlist
    }
}

} // verus!
