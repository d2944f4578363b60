use chesscore::attacks::Tables;
use chesscore::core_types::{Color, Piece, BB};
use chesscore::fen::{load_fen, start_position};
use chesscore::moves::MoveFlags;
use chesscore::movemake::MoveError;
use chesscore::state::State;

const KIWIPETE: &str = "r3k2r/p1ppqpb1/bn2pnp1/3PN3/1p2P3/2N2Q1p/PPPBBPPP/R3K2R w KQkq -";
const START: &str = "rnbqkbnr/pppppppp/8/8/8/8/PPPPPPPP/RNBQKBNR w KQkq -";

#[test]
fn state_new_is_empty() {
    let s = State::new();
    assert_eq!(s.side_w.0, 0);
    assert_eq!(s.side_b.0, 0);
    assert_eq!(s.pawns.0, 0);
    assert_eq!(s.ep.0, 255);
    assert_eq!(s.castle, 0xf);
    assert_eq!(s.color, Color::White);
}

#[test]
fn start_position_layout() {
    let s = start_position();
    assert_eq!(s.side_w.0, 0xffff);
    assert_eq!(s.side_b.0, 0xffff000000000000);
    assert_eq!(s.pawns.0, 0x00ff00000000ff00);
    assert_eq!(s.knights.0, 0x4200000000000042);
    assert_eq!(s.bishops.0, 0x2400000000000024);
    assert_eq!(s.rooks.0, 0x8100000000000081);
    assert_eq!(s.queens.0, 0x0800000000000008);
    assert_eq!(s.kings.0, 0x1000000000000010);
    assert_eq!(s.ep.0, 255);
    assert_eq!(s.castle, 0xf);
}

#[test]
fn load_fen_start_matches_start_position() {
    let mut b = State::new();
    assert!(load_fen(&mut b, START).is_ok());
    let s = start_position();
    assert_eq!(b.side_w.0, s.side_w.0);
    assert_eq!(b.side_b.0, s.side_b.0);
    assert_eq!(b.pawns.0, s.pawns.0);
    assert_eq!(b.knights.0, s.knights.0);
    assert_eq!(b.bishops.0, s.bishops.0);
    assert_eq!(b.rooks.0, s.rooks.0);
    assert_eq!(b.queens.0, s.queens.0);
    assert_eq!(b.kings.0, s.kings.0);
    assert_eq!(b.castle, 0xf);
    assert_eq!(b.ep.0, 255);
    assert_eq!(b.color, Color::White);
}

#[test]
fn load_fen_malformed_falls_back_to_start() {
    let mut b = State::new();
    assert!(load_fen(&mut b, "only three fields").is_err());
    let s = start_position();
    assert_eq!(b.pawns.0, s.pawns.0);
    assert_eq!(b.kings.0, s.kings.0);
    assert_eq!(b.color, Color::White);

    let mut b2 = State::new();
    assert!(load_fen(&mut b2, "").is_err());
    assert_eq!(b2.rooks.0, s.rooks.0);
}

#[test]
fn load_fen_reads_color_castle_and_ep() {
    let mut b = State::new();
    let fen = "rnbqkbnr/pppppppp/8/8/4P3/8/PPPP1PPP/RNBQKBNR b Kq e3";
    assert!(load_fen(&mut b, fen).is_ok());
    assert_eq!(b.color, Color::Black);
    assert_eq!(b.castle, 0b1001);
    assert_eq!(b.ep.0, 20);
}

#[test]
fn load_fen_kiwipete_playable() {
    let t = Tables::new().unwrap();
    let mut b = State::new();
    assert!(load_fen(&mut b, KIWIPETE).is_ok());
    assert!(b.playable(&t));
    assert_eq!(b.castle, 0xf);
    assert_eq!(b.color, Color::White);
}

#[test]
fn double_push_sets_ep_then_any_move_clears_it() {
    let t = Tables::new().unwrap();
    let mut b = start_position();
    let texts = vec![String::from("e2e4")];
    assert!(b.make_move_list(&t, &texts).is_ok());
    // The ply after a double push: the skipped square e3 is the target.
    assert_eq!(b.ep.0, 20);
    assert_eq!(b.color, Color::Black);
    let texts2 = vec![String::from("g8f6")];
    assert!(b.make_move_list(&t, &texts2).is_ok());
    // Any other move reverts the target to "none".
    assert_eq!(b.ep.0, 255);
}

#[test]
fn en_passant_capture_removes_passed_pawn() {
    let t = Tables::new().unwrap();
    let mut b = start_position();
    let texts: Vec<String> =
        ["e2e4", "a7a6", "e4e5", "d7d5", "e5d6"].iter().map(|s| String::from(*s)).collect();
    assert!(b.make_move_list(&t, &texts).is_ok());
    // The black d5 pawn is gone, the white pawn stands on d6.
    assert_eq!(b.pawns.0 & (1u64 << 35), 0);
    assert!(b.pawns.0 & (1u64 << 43) != 0);
    assert!(b.side_w.0 & (1u64 << 43) != 0);
}

#[test]
fn castling_moves_the_rook_too() {
    let t = Tables::new().unwrap();
    let mut b = State::new();
    assert!(load_fen(&mut b, KIWIPETE).is_ok());
    let texts = vec![String::from("e1g1")];
    assert!(b.make_move_list(&t, &texts).is_ok());
    // King to g1, rook from h1 to f1, white rights gone.
    assert!(b.kings.0 & (1u64 << 6) != 0);
    assert_eq!(b.rooks.0 & (1u64 << 7), 0);
    assert!(b.rooks.0 & (1u64 << 5) != 0);
    assert_eq!(b.castle & 0b11, 0);
}

#[test]
fn board_partition_holds_after_moves() {
    let t = Tables::new().unwrap();
    let mut b = State::new();
    assert!(load_fen(&mut b, KIWIPETE).is_ok());
    let texts: Vec<String> =
        ["e2a6", "b4c3", "e1g1", "e6d5"].iter().map(|s| String::from(*s)).collect();
    assert!(b.make_move_list(&t, &texts).is_ok());
    // The two color bitboards stay disjoint, and the piece-kind union
    // equals the color union.
    assert_eq!(b.side_w.0 & b.side_b.0, 0);
    let pieces = b.pawns.0 | b.knights.0 | b.bishops.0 | b.rooks.0 | b.queens.0 | b.kings.0;
    assert_eq!(pieces, b.side_w.0 | b.side_b.0);
}

#[test]
fn no_castle_generated_while_in_check() {
    let t = Tables::new().unwrap();
    let mut b = State::new();
    assert!(load_fen(&mut b, "4k3/8/8/8/8/8/4r3/R3K2R w KQ -").is_ok());
    assert!(b.in_check(&t));
    let moves = b.pseudo_legal_moves(&t, false);
    for m in moves.moves.iter() {
        assert!(m.flags() != MoveFlags::Castle);
    }
}

#[test]
fn no_castle_generated_through_occupied_square() {
    let t = Tables::new().unwrap();
    let mut b = State::new();
    // White bishop on f1 blocks the king-side castle; queen-side is open.
    assert!(load_fen(&mut b, "4k3/8/8/8/8/8/8/R3KB1R w KQ -").is_ok());
    let moves = b.pseudo_legal_moves(&t, false);
    let mut castles = Vec::new();
    for m in moves.moves.iter() {
        if m.flags() == MoveFlags::Castle {
            castles.push(m.as_text());
        }
    }
    assert_eq!(castles, vec![String::from("e1c1")]);
}

#[test]
fn generated_move_texts_round_trip() {
    let t = Tables::new().unwrap();
    let mut b = State::new();
    assert!(load_fen(&mut b, KIWIPETE).is_ok());
    let moves = b.pseudo_legal_moves(&t, false);
    for m in moves.moves.iter() {
        let text = m.as_text();
        let fresh = b.pseudo_legal_moves(&t, false);
        let mut matched = None;
        for m2 in fresh.moves.iter() {
            if m2.as_text() == text {
                matched = Some(*m2);
                break;
            }
        }
        let m2 = matched.expect("text of a generated move must match a generated move");
        assert_eq!(m2.get_from_idx().0, m.get_from_idx().0);
        assert_eq!(m2.get_to_idx().0, m.get_to_idx().0);
        assert_eq!(m2.flags(), m.flags());
    }
}

#[test]
fn make_move_list_rejects_unknown_text() {
    let t = Tables::new().unwrap();
    let mut b = start_position();
    let texts = vec![String::from("e2e5")];
    assert_eq!(b.make_move_list(&t, &texts), Err(MoveError::IllegalMoveRequested));
}

#[test]
fn make_move_rejects_leaving_king_in_check() {
    let t = Tables::new().unwrap();
    let mut b = State::new();
    // The white rook on e2 is pinned against the king by the black rook.
    assert!(load_fen(&mut b, "4k3/4r3/8/8/8/8/4R3/4K3 w - -").is_ok());
    let moves = b.pseudo_legal_moves(&t, false);
    for m in moves.moves.iter() {
        if m.as_text() == "e2a2" {
            let mut copy = b;
            assert!(!copy.make_move(&t, m));
            // A rejected move leaves the position untouched.
            assert_eq!(copy.rooks.0, b.rooks.0);
            assert_eq!(copy.side_w.0, b.side_w.0);
            assert_eq!(copy.color, b.color);
        }
        if m.as_text() == "e2e5" {
            let mut copy = b;
            assert!(copy.make_move(&t, m));
        }
    }
}

#[test]
fn under_attack_probes() {
    let t = Tables::new().unwrap();
    let b = start_position();
    // f3 is covered by Black? No: by White's pawns and knight; from White's
    // view (opponent = Black) f3 is not attacked.
    assert!(!b.under_attack(&t, BB(1u64 << 21)));
    // e4 is not attacked by Black either; f6 would be, but probe via the
    // opponent-of-black view instead.
    let mut b2 = b;
    b2.color = Color::Black;
    // Now the opponent is White: g3 (22) is attacked by the f2/h2 pawns.
    assert!(b2.under_attack(&t, BB(1u64 << 22)));
}

#[test]
fn get_my_and_enemy_piece() {
    let b = start_position();
    assert_eq!(b.get_my_piece(Piece::Pawn).0, 0xff00);
    assert_eq!(b.get_enemy_piece(Piece::Pawn).0, 0x00ff000000000000);
    assert_eq!(b.get_my_piece(Piece::King).0, 1u64 << 4);
}
