//! The crate's stated laws, as proved facts: what the lookup tables
//! contain, and what surviving a move application guarantees.

use vstd::prelude::*;
use crate::bits::{bb_has, sq_file, sq_rank};
use crate::core_types::Color;
use crate::moves::{Move, MoveFlags, move_text, promo_char, lemma_move_fields};
use crate::attacks::{
    Tables, knight_offset, king_offset, slider_entry, rook_reaches, bishop_reaches,
};
use crate::state::{State, gen_move_ok, castle_branch_ok, pawn_step_premise, promo_rank};
use crate::movemake::{attacked, moved_state, flip_side, lemma_moved_wf, lemma_move_prereqs, lemma_sides};

verus! {

/// Every leaper table entry holds only squares inside the piece's
/// geometric move pattern, and never a square off the board: the file and
/// rank deltas are exactly a knight's jump or a king's step, so no entry
/// can wrap around the board's edge.
pub proof fn lemma_leaper_tables_in_pattern(t: Tables)
    requires
        t.wf(),
    ensures
        forall|sq: int, q: int|
            0 <= sq < 64 && #[trigger] bb_has(t.knight@[sq], q) ==> 0 <= q < 64 && knight_offset(
                sq_file(q) - sq_file(sq),
                sq_rank(q) - sq_rank(sq),
            ),
        forall|sq: int, q: int|
            0 <= sq < 64 && #[trigger] bb_has(t.king@[sq], q) ==> 0 <= q < 64 && king_offset(
                sq_file(q) - sq_file(sq),
                sq_rank(q) - sq_rank(sq),
            ),
        forall|sq: int, q: int|
            0 <= sq < 64 && #[trigger] bb_has(t.w_pawn_pushes@[sq], q) ==> 0 <= q < 64 && sq_file(
                q,
            ) == sq_file(sq) && sq_rank(q) == sq_rank(sq) + 1,
        forall|sq: int, q: int|
            0 <= sq < 64 && #[trigger] bb_has(t.b_pawn_pushes@[sq], q) ==> 0 <= q < 64 && sq_file(
                q,
            ) == sq_file(sq) && sq_rank(q) == sq_rank(sq) - 1,
        forall|sq: int, q: int|
            0 <= sq < 64 && #[trigger] bb_has(t.w_pawn_caps@[sq], q) ==> 0 <= q < 64 && (sq_file(q)
                - sq_file(sq) == 1 || sq_file(q) - sq_file(sq) == -1) && sq_rank(q) == sq_rank(sq)
                + 1,
        forall|sq: int, q: int|
            0 <= sq < 64 && #[trigger] bb_has(t.b_pawn_caps@[sq], q) ==> 0 <= q < 64 && (sq_file(q)
                - sq_file(sq) == 1 || sq_file(q) - sq_file(sq) == -1) && sq_rank(q) == sq_rank(sq)
                - 1,
{
}

/// For every square and every subset of that square's relevant-occupancy
/// mask, the magic-table lookup is exactly the ray-cast reachable set:
/// walking outward per direction and stopping at the first occupied
/// square of the subset (inclusive) or the board edge.
pub proof fn lemma_magic_lookup_matches_rays(t: Tables, sq: int, s: u64)
    requires
        t.wf(),
        0 <= sq < 64,
    ensures
        s & t.rook_masks@[sq] == s ==> forall|q: int|
            #[trigger] bb_has(slider_entry(t.rook_moves@[sq]@, s, t.rook_magics@[sq], 52), q)
                <==> rook_reaches(s, sq, q),
        s & t.bishop_masks@[sq] == s ==> forall|q: int|
            #[trigger] bb_has(slider_entry(t.bishop_moves@[sq]@, s, t.bishop_magics@[sq], 55), q)
                <==> bishop_reaches(s, sq, q),
{
}

/// For every generated move that the applier accepts, the resulting
/// position's two color bitboards are still disjoint and the union of the
/// piece bitboards still equals the union of the color bitboards.
pub proof fn lemma_applied_move_keeps_partition(s: State, m: Move)
    requires
        s.wf(),
        s.coherent(),
        gen_move_ok(s, m),
    ensures
        flip_side(moved_state(s, m)).side_w.0 & flip_side(moved_state(s, m)).side_b.0 == 0,
        flip_side(moved_state(s, m)).piece_occ() == flip_side(moved_state(s, m)).occ(),
{
    lemma_moved_wf(s, m);
}

/// The en-passant target is set on exactly the double pushes: after any
/// other accepted move it reverts to "none", and after a double push it
/// names the square the pawn skipped.
pub proof fn lemma_ep_only_after_double_push(s: State, m: Move)
    requires
        s.wf(),
        s.coherent(),
        gen_move_ok(s, m),
    ensures
        flip_side(moved_state(s, m)).ep.0 != 255 <==> m.s_flags() == MoveFlags::PawnDoublePush,
        m.s_flags() == MoveFlags::PawnDoublePush ==> flip_side(moved_state(s, m)).ep.0 == (
        if s.color == Color::White {
            m.s_to() - 8
        } else {
            m.s_to() + 8
        }),
{
    lemma_move_prereqs(s, m);
}

/// Castling is only ever generated with the king not currently attacked,
/// every square strictly between king and rook unoccupied, and neither
/// the square the king crosses nor its destination attacked.
pub proof fn lemma_castle_generated_safe(s: State, m: Move)
    requires
        s.wf(),
        gen_move_ok(s, m),
        m.s_flags() == MoveFlags::Castle,
    ensures
        !attacked(s, s.my_king_sq(), s.color.spec_opposite()),
        castle_branch_ok(s, m.s_to()),
        m.s_to() == 2 || m.s_to() == 6 || m.s_to() == 58 || m.s_to() == 62,
{
}

/// A move's coordinate text pins down its source square, destination
/// square and promotion piece: two moves that render the same are the
/// same in all three.
pub proof fn lemma_move_text_determines_fields(m1: Move, m2: Move)
    requires
        m1.valid(),
        m2.valid(),
        move_text(m1) == move_text(m2),
    ensures
        m1.s_from() == m2.s_from(),
        m1.s_to() == m2.s_to(),
        promo_char(m1.s_flags()) == promo_char(m2.s_flags()),
{
    lemma_move_fields(m1.data);
    lemma_move_fields(m2.data);
    let t1 = move_text(m1);
    let t2 = move_text(m2);
    assert(t1[0] == t2[0] && t1[1] == t2[1] && t1[2] == t2[2] && t1[3] == t2[3]);
    assert(((97 + sq_file(m1.s_from())) as u8) as char == ((97 + sq_file(m2.s_from())) as u8)
        as char);
    assert(sq_file(m1.s_from()) == sq_file(m2.s_from()));
    assert(((49 + sq_rank(m1.s_from())) as u8) as char == ((49 + sq_rank(m2.s_from())) as u8)
        as char);
    assert(sq_rank(m1.s_from()) == sq_rank(m2.s_from()));
    assert(m1.s_from() == 8 * sq_rank(m1.s_from()) + sq_file(m1.s_from()));
    assert(m2.s_from() == 8 * sq_rank(m2.s_from()) + sq_file(m2.s_from()));
    assert(((97 + sq_file(m1.s_to())) as u8) as char == ((97 + sq_file(m2.s_to())) as u8) as char);
    assert(sq_file(m1.s_to()) == sq_file(m2.s_to()));
    assert(((49 + sq_rank(m1.s_to())) as u8) as char == ((49 + sq_rank(m2.s_to())) as u8) as char);
    assert(sq_rank(m1.s_to()) == sq_rank(m2.s_to()));
    assert(m1.s_to() == 8 * sq_rank(m1.s_to()) + sq_file(m1.s_to()));
    assert(m2.s_to() == 8 * sq_rank(m2.s_to()) + sq_file(m2.s_to()));
    if promo_char(m1.s_flags()) is Some || promo_char(m2.s_flags()) is Some {
        assert(t1.len() == t2.len());
        assert(promo_char(m1.s_flags()) is Some && promo_char(m2.s_flags()) is Some);
        assert(t1[4] == t2[4]);
    }
}

/// The full text round trip: among the moves the generator can emit for
/// one coherent position, the coordinate text determines the move
/// entirely, so looking a generated move's text up against a fresh
/// generation returns a move identical in source, destination and kind.
#[verifier::rlimit(100)]
pub proof fn lemma_text_round_trip(s: State, m1: Move, m2: Move)
    requires
        s.wf(),
        s.coherent(),
        m1.valid(),
        m2.valid(),
        gen_move_ok(s, m1),
        gen_move_ok(s, m2),
        move_text(m1) == move_text(m2),
    ensures
        m1.s_from() == m2.s_from(),
        m1.s_to() == m2.s_to(),
        m1.s_flags() == m2.s_flags(),
{
    crate::bits::lemma_bb_ops();
    lemma_move_text_determines_fields(m1, m2);
    let f = m1.s_from();
    let t = m1.s_to();
    let g1 = m1.s_flags();
    let g2 = m2.s_flags();
    if g1 == g2 {
        return ;
    }
    // The same promotion letter forces the same promotion kind; one
    // promotion and one non-promotion cannot share a text.
    if promo_char(g1) is Some || promo_char(g2) is Some {
        assert(false);
    }
    // Which piece kind a non-promotion move requires on its source square.
    let k1 = flag_piece_idx(g1);
    let k2 = flag_piece_idx(g2);
    assert(bb_has(s.pc_at(k1), f) && bb_has(s.pc_at(k2), f)) by {
        lemma_flag_piece_at_from(s, m1);
        lemma_flag_piece_at_from(s, m2);
    }
    assert(k1 == k2) by {
        if k1 != k2 {
            if k1 < k2 {
                assert(s.pc_at(k1) & s.pc_at(k2) == 0);
                assert(!bb_has(s.pc_at(k1) & s.pc_at(k2), f));
            } else {
                assert(s.pc_at(k2) & s.pc_at(k1) == 0);
                assert(!bb_has(s.pc_at(k2) & s.pc_at(k1), f));
            }
        }
    }
    // Within the pawn family, the three non-promotion kinds are told
    // apart by the rank step, the file step and the target's occupancy.
    if k1 == 0 {
        lemma_sides(s);
        assert(s.ep.0 != 255 ==> !bb_has(s.occ(), s.ep.0 as int));
        lemma_pawn_kinds_same(s, f, t, g1, g2);
        assert(false);
    }
    // Within the king family, a castle crosses two files, a king step one.
    if k1 == 5 {
        let kk = choose|k: u64| k < 64 && (s.kings.0 & s.my_bb()) == (1u64 << k);
        assert(s.kings.0 & s.my_bb() == s.kings.0 & s.side_bb(s.color));
        assert(bb_has(s.kings.0 & s.my_bb(), kk as int));
        if g1 == MoveFlags::Castle || g2 == MoveFlags::Castle {
            assert(castle_branch_ok(s, t));
            assert(f == kk);
            if t == 2 || t == 6 {
                assert(bb_has(s.kings.0 & s.side_w.0, 4));
                assert(f == 4);
            } else {
                assert(bb_has(s.kings.0 & s.side_b.0, 60));
                assert(f == 60);
            }
            assert(crate::attacks::king_reaches(f, t));
            assert(false);
        }
    }
    assert(false);
}

/// The piece-kind index a non-promotion move requires on its source.
pub open spec fn flag_piece_idx(g: MoveFlags) -> int {
    match g {
        MoveFlags::KnightMove => 1,
        MoveFlags::BishopMove => 2,
        MoveFlags::RookMove => 3,
        MoveFlags::QueenMove => 4,
        MoveFlags::KingMove => 5,
        MoveFlags::Castle => 5,
        _ => 0,
    }
}

/// A generated non-promotion move has its required piece kind standing on
/// its source square.
proof fn lemma_flag_piece_at_from(s: State, m: Move)
    requires
        s.wf(),
        gen_move_ok(s, m),
        promo_char(m.s_flags()) is None,
    ensures
        bb_has(s.pc_at(flag_piece_idx(m.s_flags())), m.s_from()),
{
    crate::bits::lemma_bb_ops();
}

/// Two pawn move kinds sharing a source and destination are the same
/// kind: the rank step, the file step and the target's occupancy separate
/// a plain pawn move, a double push and an en-passant capture.
proof fn lemma_pawn_kinds_same(s: State, f: int, t: int, g1: MoveFlags, g2: MoveFlags)
    requires
        s.wf(),
        s.coherent(),
        (g1 == MoveFlags::PawnMove || g1 == MoveFlags::PawnDoublePush || g1 == MoveFlags::EP),
        (g2 == MoveFlags::PawnMove || g2 == MoveFlags::PawnDoublePush || g2 == MoveFlags::EP),
        gen_move_ok_pawn_shape(s, f, t, g1),
        gen_move_ok_pawn_shape(s, f, t, g2),
    ensures
        g1 == g2,
{
    crate::bits::lemma_bb_ops();
    lemma_sides(s);
    assert(t == 8 * sq_rank(t) + sq_file(t));
    assert(f == 8 * sq_rank(f) + sq_file(f));
}

/// What each non-promotion pawn kind demands of a source and destination.
pub open spec fn gen_move_ok_pawn_shape(s: State, f: int, t: int, g: MoveFlags) -> bool {
    match g {
        MoveFlags::PawnMove => pawn_step_premise(s, f, t) && sq_rank(t) != promo_rank(s.color),
        MoveFlags::PawnDoublePush => crate::attacks::pawn_double_reaches(s.color, f, t) && !bb_has(
            s.occ(),
            t,
        ),
        MoveFlags::EP => s.ep.0 != 255 && t == s.ep.0 && crate::attacks::pawn_cap_reaches(
            s.color,
            f,
            t,
        ),
        _ => false,
    }
}

} // verus!
