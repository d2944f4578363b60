//! Compact move records and move lists.
//!
//! A move packs its source square, destination square and kind tag into a
//! `u16`: the low 6 bits hold the source, the next 6 the destination, the
//! top 4 the tag.

use vstd::prelude::*;
use vstd::std_specs::bits::u64_trailing_zeros;
use crate::core_types::{SquareIdx, BB};
use crate::bits::{sq_file, sq_rank};

verus! {

/// The 13 move kinds. The tag doubles as "which piece moved" for plain
/// moves, and as "what special handling applies" for pawn moves, promotions
/// and castling.
#[derive(Debug, PartialEq, Eq, Clone, Copy, Structural)]
pub enum MoveFlags {
    PromoQueen,
    PromoRook,
    PromoKnight,
    PromoBishop,
    EP,
    Castle,
    PawnMove,
    PawnDoublePush,
    BishopMove,
    KnightMove,
    RookMove,
    KingMove,
    QueenMove,
}

/// The numeric code a kind tag is stored as.
pub open spec fn flag_code(f: MoveFlags) -> u16 {
    match f {
        MoveFlags::PromoQueen => 0,
        MoveFlags::PromoRook => 1,
        MoveFlags::PromoKnight => 2,
        MoveFlags::PromoBishop => 3,
        MoveFlags::EP => 4,
        MoveFlags::Castle => 5,
        MoveFlags::PawnMove => 6,
        MoveFlags::PawnDoublePush => 7,
        MoveFlags::BishopMove => 8,
        MoveFlags::KnightMove => 9,
        MoveFlags::RookMove => 10,
        MoveFlags::KingMove => 11,
        MoveFlags::QueenMove => 12,
    }
}

/// The kind tag a stored code decodes to. Codes 13 to 15 are never stored;
/// they decode arbitrarily to the first tag.
pub open spec fn flag_of_code(c: u16) -> MoveFlags {
    if c == 1 { MoveFlags::PromoRook }
    else if c == 2 { MoveFlags::PromoKnight }
    else if c == 3 { MoveFlags::PromoBishop }
    else if c == 4 { MoveFlags::EP }
    else if c == 5 { MoveFlags::Castle }
    else if c == 6 { MoveFlags::PawnMove }
    else if c == 7 { MoveFlags::PawnDoublePush }
    else if c == 8 { MoveFlags::BishopMove }
    else if c == 9 { MoveFlags::KnightMove }
    else if c == 10 { MoveFlags::RookMove }
    else if c == 11 { MoveFlags::KingMove }
    else if c == 12 { MoveFlags::QueenMove }
    else { MoveFlags::PromoQueen }
}

/// The packed fields always decode into range.
pub proof fn lemma_move_fields(d: u16)
    ensures
        d & 0x3f < 64,
        (d >> 6) & 0x3f < 64,
        (d >> 12) & 0xf <= 15,
{
    assert(d & 0x3f < 64 && (d >> 6) & 0x3f < 64 && (d >> 12) & 0xf <= 15) by (bit_vector);
}

/// A move record: source square, destination square and kind tag packed
/// into 16 bits.
#[derive(Copy, Clone, PartialEq, Eq, Structural)]
pub struct Move {
    pub data: u16,
}

impl Move {
    /// The source square index.
    pub open spec fn s_from(self) -> int {
        (self.data & 0x3f) as int
    }

    /// The destination square index.
    pub open spec fn s_to(self) -> int {
        ((self.data >> 6) & 0x3f) as int
    }

    /// The kind tag.
    pub open spec fn s_flags(self) -> MoveFlags {
        flag_of_code((self.data >> 12) & 0xf)
    }

    /// The stored kind code is one of the 13 defined tags.
    pub open spec fn valid(self) -> bool {
        (self.data >> 12) & 0xf <= 12
    }

    /// Packs a move record. No validation beyond the square range happens
    /// here; legality is entirely the move generator's and applier's business.
    pub fn new(from: SquareIdx, to: SquareIdx, flags: MoveFlags) -> (m: Self)
        requires
            from.0 < 64,
            to.0 < 64,
        ensures
            m.s_from() == from.0,
            m.s_to() == to.0,
            m.s_flags() == flags,
            m.valid(),
    {
        let code: u16 = match flags {
            MoveFlags::PromoQueen => 0,
            MoveFlags::PromoRook => 1,
            MoveFlags::PromoKnight => 2,
            MoveFlags::PromoBishop => 3,
            MoveFlags::EP => 4,
            MoveFlags::Castle => 5,
            MoveFlags::PawnMove => 6,
            MoveFlags::PawnDoublePush => 7,
            MoveFlags::BishopMove => 8,
            MoveFlags::KnightMove => 9,
            MoveFlags::RookMove => 10,
            MoveFlags::KingMove => 11,
            MoveFlags::QueenMove => 12,
        };
        let f = from.0 as u16;
        let t = to.0 as u16;
        let data: u16 = f | (t << 6) | (code << 12);
        proof {
            assert(data & 0x3f == f && (data >> 6) & 0x3f == t && (data >> 12) & 0xf == code)
                by (bit_vector)
                requires f < 64 && t < 64 && code <= 12 && data == (f | (t << 6) | (code << 12));
            assert(flag_of_code(code) == flags);
        }
        Move { data }
    }

    /// The one-square bitboard of the source square.
    pub fn get_from(&self) -> (r: BB)
        ensures
            r.0 == 1u64 << (self.s_from() as u64),
    {
        proof {
            lemma_move_fields(self.data);
        }
        BB(1u64 << ((self.data & 0x3f) as u64))
    }

    /// The one-square bitboard of the destination square.
    pub fn get_to(&self) -> (r: BB)
        ensures
            r.0 == 1u64 << (self.s_to() as u64),
    {
        proof {
            lemma_move_fields(self.data);
        }
        BB(1u64 << (((self.data >> 6) & 0x3f) as u64))
    }

    /// The source square index.
    pub fn get_from_idx(&self) -> (r: SquareIdx)
        ensures
            r.0 == self.s_from(),
            r.0 < 64,
    {
        proof {
            lemma_move_fields(self.data);
        }
        SquareIdx((self.data & 0x3f) as u8)
    }

    /// The destination square index.
    pub fn get_to_idx(&self) -> (r: SquareIdx)
        ensures
            r.0 == self.s_to(),
            r.0 < 64,
    {
        proof {
            lemma_move_fields(self.data);
        }
        SquareIdx(((self.data >> 6) & 0x3f) as u8)
    }

    /// The kind tag.
    pub fn flags(&self) -> (r: MoveFlags)
        requires
            self.valid(),
        ensures
            r == self.s_flags(),
    {
        proof {
            lemma_move_fields(self.data);
        }
        let code: u16 = (self.data >> 12) & 0xf;
        match code {
            0 => MoveFlags::PromoQueen,
            1 => MoveFlags::PromoRook,
            2 => MoveFlags::PromoKnight,
            3 => MoveFlags::PromoBishop,
            4 => MoveFlags::EP,
            5 => MoveFlags::Castle,
            6 => MoveFlags::PawnMove,
            7 => MoveFlags::PawnDoublePush,
            8 => MoveFlags::BishopMove,
            9 => MoveFlags::KnightMove,
            10 => MoveFlags::RookMove,
            11 => MoveFlags::KingMove,
            _ => MoveFlags::QueenMove,
        }
    }
}

/// The lower-case letter a promotion kind appends to a move's text, if any.
pub open spec fn promo_char(f: MoveFlags) -> Option<char> {
    match f {
        MoveFlags::PromoQueen => Some('q'),
        MoveFlags::PromoRook => Some('r'),
        MoveFlags::PromoKnight => Some('n'),
        MoveFlags::PromoBishop => Some('b'),
        _ => None,
    }
}

/// The file letter of square `i`: 'a' through 'h'.
pub open spec fn file_char(i: int) -> char {
    ((97 + sq_file(i)) as u8) as char
}

/// The rank digit of square `i`: '1' through '8'.
pub open spec fn rank_char(i: int) -> char {
    ((49 + sq_rank(i)) as u8) as char
}

/// The coordinate notation of a move: source file letter and rank digit,
/// destination file letter and rank digit, then a promotion letter if the
/// kind is a promotion.
pub open spec fn move_text(m: Move) -> Seq<char> {
    let base = seq![
        file_char(m.s_from()),
        rank_char(m.s_from()),
        file_char(m.s_to()),
        rank_char(m.s_to()),
    ];
    match promo_char(m.s_flags()) {
        Some(c) => base.push(c),
        None => base,
    }
}

/// Relies on String::push: appends the character to the end of the string.
#[verifier::external_body]
fn string_push(s: &mut String, c: char)
    ensures
        final(s)@ == old(s)@.push(c),
{
    s.push(c)
}

impl Move {
    /// Renders the move in coordinate notation.
    pub fn as_text(&self) -> (r: String)
        requires
            self.valid(),
        ensures
            r@ == move_text(*self),
    {
        let from = self.get_from_idx().0;
        let to = self.get_to_idx().0;
        let mut ret = String::new();
        string_push(&mut ret, (from % 8 + 97) as char);
        string_push(&mut ret, (from / 8 + 49) as char);
        string_push(&mut ret, (to % 8 + 97) as char);
        string_push(&mut ret, (to / 8 + 49) as char);
        match self.flags() {
            MoveFlags::PromoQueen => string_push(&mut ret, 'q'),
            MoveFlags::PromoRook => string_push(&mut ret, 'r'),
            MoveFlags::PromoKnight => string_push(&mut ret, 'n'),
            MoveFlags::PromoBishop => string_push(&mut ret, 'b'),
            _ => (),
        }
        proof {
            assert(ret@ =~= move_text(*self));
        }
        ret
    }
}

/// A growable list of move records.
pub struct MoveList {
    pub moves: Vec<Move>,
}

impl MoveList {
    /// An empty list.
    pub fn new() -> (r: Self)
        ensures
            r.moves@ =~= Seq::<Move>::empty(),
    {
        MoveList { moves: Vec::with_capacity(30) }
    }

    /// Appends a move record.
    pub fn push(&mut self, m: Move)
        ensures
            final(self).moves@ == old(self).moves@.push(m),
    {
        self.moves.push(m);
    }

    /// Appends the move from the lowest square of `from` to the lowest
    /// square of `to`, under the given kind tag.
    pub fn push_move(&mut self, from: BB, to: BB, flag: MoveFlags)
        requires
            from.0 != 0,
            to.0 != 0,
        ensures
            final(self).moves@.len() == old(self).moves@.len() + 1,
            final(self).moves@ == old(self).moves@.push(final(self).moves@.last()),
            final(self).moves@.last().s_from() == u64_trailing_zeros(from.0),
            final(self).moves@.last().s_to() == u64_trailing_zeros(to.0),
            final(self).moves@.last().s_flags() == flag,
            final(self).moves@.last().valid(),
    {
        proof {
            crate::bits::lemma_bb_lowest(from.0);
            crate::bits::lemma_bb_lowest(to.0);
        }
        let m = Move::new(from.as_idx(), to.as_idx(), flag);
        self.push(m)
    }
}

} // verus!
