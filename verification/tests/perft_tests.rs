use chesscore::attacks::Tables;
use chesscore::fen::{load_fen, start_position};
use chesscore::perft::perft;
use chesscore::state::State;

const KIWIPETE: &str = "r3k2r/p1ppqpb1/bn2pnp1/3PN3/1p2P3/2N2Q1p/PPPBBPPP/R3K2R w KQkq -";

#[test]
fn perft_start_shallow() {
    let t = Tables::new().unwrap();
    let b = start_position();
    assert!(b.playable(&t));
    assert_eq!(perft(&b, &t, 0), 1);
    assert_eq!(perft(&b, &t, 1), 20);
    assert_eq!(perft(&b, &t, 2), 400);
    assert_eq!(perft(&b, &t, 3), 8902);
}

#[test]
fn perft_start_depth_4() {
    let t = Tables::new().unwrap();
    let b = start_position();
    assert_eq!(perft(&b, &t, 4), 197281);
}

#[test]
fn perft_start_depth_5() {
    let t = Tables::new().unwrap();
    let b = start_position();
    assert_eq!(perft(&b, &t, 5), 4865609);
}

#[test]
fn perft_kiwipete_shallow() {
    let t = Tables::new().unwrap();
    let mut b = State::new();
    assert!(load_fen(&mut b, KIWIPETE).is_ok());
    assert!(b.playable(&t));
    assert_eq!(perft(&b, &t, 1), 48);
    assert_eq!(perft(&b, &t, 2), 2039);
}

#[test]
fn perft_kiwipete_depth_3() {
    let t = Tables::new().unwrap();
    let mut b = State::new();
    assert!(load_fen(&mut b, KIWIPETE).is_ok());
    assert_eq!(perft(&b, &t, 3), 97862);
}
