//! The small value types every other module shares: piece colors, piece
//! kinds, bitboards and square indices.

use vstd::prelude::*;
use vstd::std_specs::bits::u64_trailing_zeros;
use crate::moves::MoveFlags;

verus! {

#[derive(PartialEq, Eq, Clone, Copy, Debug, Structural)]
pub enum Color {
    White,
    Black,
}

impl Color {
    /// The other color.
    pub fn opposite(&self) -> (r: Self)
        ensures
            r == self.spec_opposite(),
    {
        match self {
            Color::White => Color::Black,
            Color::Black => Color::White,
        }
    }

    pub open spec fn spec_opposite(self) -> Color {
        match self {
            Color::White => Color::Black,
            Color::Black => Color::White,
        }
    }

    /// 0 for White, 1 for Black: the index this color uses in per-color tables.
    pub fn index(&self) -> (r: usize)
        ensures
            r == self.spec_index(),
    {
        match self {
            Color::White => 0,
            Color::Black => 1,
        }
    }

    pub open spec fn spec_index(self) -> int {
        match self {
            Color::White => 0,
            Color::Black => 1,
        }
    }
}

#[derive(PartialEq, Eq, Clone, Copy, Debug, Structural)]
pub enum Piece {
    Pawn,
    Knight,
    Bishop,
    Rook,
    Queen,
    King,
}

impl Piece {
    /// The piece kind a numeric index stands for; the inverse of `index`.
    pub fn from_u8(p: u8) -> (r: Self)
        requires
            p < 6,
        ensures
            r.spec_index() == p,
    {
        match p {
            0 => Self::Pawn,
            1 => Self::Knight,
            2 => Self::Bishop,
            3 => Self::Rook,
            4 => Self::Queen,
            _ => Self::King,
        }
    }

    /// The move tag recorded for a plain move of this piece kind.
    pub fn as_flag(&self) -> (r: MoveFlags)
        ensures
            r == self.spec_as_flag(),
    {
        match self {
            Piece::Pawn => MoveFlags::PawnMove,
            Piece::Knight => MoveFlags::KnightMove,
            Piece::Bishop => MoveFlags::BishopMove,
            Piece::Rook => MoveFlags::RookMove,
            Piece::Queen => MoveFlags::QueenMove,
            Piece::King => MoveFlags::KingMove,
        }
    }

    pub open spec fn spec_as_flag(self) -> MoveFlags {
        match self {
            Piece::Pawn => MoveFlags::PawnMove,
            Piece::Knight => MoveFlags::KnightMove,
            Piece::Bishop => MoveFlags::BishopMove,
            Piece::Rook => MoveFlags::RookMove,
            Piece::Queen => MoveFlags::QueenMove,
            Piece::King => MoveFlags::KingMove,
        }
    }

    /// The index this piece kind uses in the per-kind bitboard array.
    pub fn index(&self) -> (r: usize)
        ensures
            r == self.spec_index(),
            r < 6,
    {
        match self {
            Piece::Pawn => 0,
            Piece::Knight => 1,
            Piece::Bishop => 2,
            Piece::Rook => 3,
            Piece::Queen => 4,
            Piece::King => 5,
        }
    }

    pub open spec fn spec_index(self) -> int {
        match self {
            Piece::Pawn => 0,
            Piece::Knight => 1,
            Piece::Bishop => 2,
            Piece::Rook => 3,
            Piece::Queen => 4,
            Piece::King => 5,
        }
    }
}

/// A bitboard: a 64-bit set of squares, bit i standing for square i.
#[derive(PartialEq, Eq, Clone, Copy, Structural)]
pub struct BB(pub u64);

impl BB {
    /// The set is empty.
    pub fn empty(&self) -> (r: bool)
        ensures
            r == (self.0 == 0),
    {
        self.0 == 0
    }

    /// The index of the lowest member; 64 when the set is empty.
    pub fn as_idx(&self) -> (r: SquareIdx)
        ensures
            r.0 == u64_trailing_zeros(self.0),
    {
        SquareIdx(self.0.trailing_zeros() as u8)
    }
}

/// A square index 0..=63, or the sentinel 255 for "no square".
#[derive(Clone, Copy, PartialEq, Eq, Structural)]
pub struct SquareIdx(pub u8);

impl SquareIdx {
    /// The "no square" sentinel.
    pub fn new() -> (r: Self)
        ensures
            r.0 == 255,
    {
        Self(255)
    }

    /// The index names a square rather than the sentinel.
    pub fn valid(&self) -> (r: bool)
        ensures
            r == (self.0 != 255),
    {
        self.0 != 255
    }

    /// The one-square bitboard holding this square.
    pub fn to_bb(&self) -> (r: BB)
        requires
            self.0 < 64,
        ensures
            r.0 == 1u64 << (self.0 as u64),
    {
        BB(1u64 << (self.0 as u64))
    }
}

} // verus!
