use chesscore::core_types::SquareIdx;
use chesscore::core_types::BB;
use chesscore::moves::{Move, MoveFlags, MoveList};

#[test]
fn test_move_integrity1() {
    let m = Move::new(SquareIdx(1), SquareIdx(32), MoveFlags::Castle);
    assert_eq!(m.get_from_idx().0, 1);
    assert_eq!(m.get_to_idx().0, 32);
    assert_eq!(m.flags(), MoveFlags::Castle);
}

#[test]
fn test_move_integrity2() {
    //a7a5
    let m = Move::new(SquareIdx(7 * 8), SquareIdx(8 * 5), MoveFlags::Castle);
    assert_eq!(m.get_from_idx().0, 7 * 8);
    assert_eq!(m.get_to_idx().0, 5 * 8);
    assert_eq!(m.flags(), MoveFlags::Castle);
}

#[test]
fn move_text_plain() {
    let m = Move::new(SquareIdx(12), SquareIdx(28), MoveFlags::PawnDoublePush);
    assert_eq!(m.as_text(), "e2e4");
}

#[test]
fn move_text_promotions() {
    let q = Move::new(SquareIdx(52), SquareIdx(60), MoveFlags::PromoQueen);
    assert_eq!(q.as_text(), "e7e8q");
    let r = Move::new(SquareIdx(52), SquareIdx(60), MoveFlags::PromoRook);
    assert_eq!(r.as_text(), "e7e8r");
    let n = Move::new(SquareIdx(52), SquareIdx(60), MoveFlags::PromoKnight);
    assert_eq!(n.as_text(), "e7e8n");
    let b = Move::new(SquareIdx(52), SquareIdx(60), MoveFlags::PromoBishop);
    assert_eq!(b.as_text(), "e7e8b");
}

#[test]
fn move_text_corners() {
    let m = Move::new(SquareIdx(0), SquareIdx(63), MoveFlags::QueenMove);
    assert_eq!(m.as_text(), "a1h8");
}

#[test]
fn push_move_takes_lowest_squares() {
    let mut list = MoveList::new();
    list.push_move(BB(1u64 << 9), BB(1u64 << 17), MoveFlags::KnightMove);
    assert_eq!(list.moves.len(), 1);
    assert_eq!(list.moves[0].get_from_idx().0, 9);
    assert_eq!(list.moves[0].get_to_idx().0, 17);
    assert_eq!(list.moves[0].flags(), MoveFlags::KnightMove);
}

#[test]
fn move_get_from_to_bitboards() {
    let m = Move::new(SquareIdx(3), SquareIdx(59), MoveFlags::RookMove);
    assert_eq!(m.get_from().0, 1u64 << 3);
    assert_eq!(m.get_to().0, 1u64 << 59);
}
