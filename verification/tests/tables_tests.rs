use chesscore::attacks::{
    bishop_attacks_slow, find_magic_bishop, gen_bishop_potential_moves, gen_rook_potential_moves,
    king_table, knight_table, pawn_cap_table, pawn_double_push_table, pawn_push_table,
    rook_attacks_slow, Tables, XorShift,
};
use chesscore::core_types::{Color, BB};
use chesscore::subsets::{count_bits, variants};

#[test]
fn tables_build_from_shipped_magics() {
    assert!(Tables::new().is_some());
}

#[test]
fn knight_table_corner_and_center() {
    let t = knight_table();
    // a1: b3 and c2.
    assert_eq!(t[0], (1u64 << 17) | (1u64 << 10));
    // d4 (27): eight targets.
    let expected: u64 = (1u64 << 10) | (1u64 << 12) | (1u64 << 17) | (1u64 << 21) | (1u64 << 33)
        | (1u64 << 37) | (1u64 << 42) | (1u64 << 44);
    assert_eq!(t[27], expected);
}

#[test]
fn king_table_edge() {
    let t = king_table();
    // e1 (4): d1, f1, d2, e2, f2.
    let expected: u64 = (1u64 << 3) | (1u64 << 5) | (1u64 << 11) | (1u64 << 12) | (1u64 << 13);
    assert_eq!(t[4], expected);
}

#[test]
fn leaper_tables_stay_in_pattern() {
    // Every knight-table member is a real knight jump; no wraparound.
    let t = knight_table();
    for sq in 0..64usize {
        for q in 0..64u64 {
            if t[sq] & (1u64 << q) != 0 {
                let df = (q as i64 % 8) - (sq as i64 % 8);
                let dr = (q as i64 / 8) - (sq as i64 / 8);
                assert!(
                    (df.abs() == 1 && dr.abs() == 2) || (df.abs() == 2 && dr.abs() == 1),
                    "knight wraparound from {} to {}",
                    sq,
                    q
                );
            }
        }
    }
}

#[test]
fn pawn_tables_values() {
    let wp = pawn_push_table(Color::White);
    assert_eq!(wp[8], 1u64 << 16);
    assert_eq!(wp[56], 0);
    let bp = pawn_push_table(Color::Black);
    assert_eq!(bp[55], 1u64 << 47);
    let wd = pawn_double_push_table(Color::White);
    assert_eq!(wd[8], 1u64 << 24);
    assert_eq!(wd[16], 0);
    let bd = pawn_double_push_table(Color::Black);
    assert_eq!(bd[48], 1u64 << 32);
    let wc = pawn_cap_table(Color::White);
    assert_eq!(wc[8], 1u64 << 17);
    assert_eq!(wc[12], (1u64 << 19) | (1u64 << 21));
    let bc = pawn_cap_table(Color::Black);
    assert_eq!(bc[52], (1u64 << 43) | (1u64 << 45));
}

#[test]
fn rook_mask_corner() {
    let masks = gen_rook_potential_moves();
    // a1: b1..g1 plus a2..a7.
    let expected: u64 = 0x7e | (1u64 << 8) | (1u64 << 16) | (1u64 << 24) | (1u64 << 32)
        | (1u64 << 40) | (1u64 << 48);
    assert_eq!(masks[0], expected);
}

#[test]
fn bishop_mask_center() {
    let masks = gen_bishop_potential_moves();
    // d4 (27): inner squares of both diagonals.
    let expected: u64 = (1u64 << 9) | (1u64 << 18) | (1u64 << 36) | (1u64 << 45) | (1u64 << 54)
        | (1u64 << 13) | (1u64 << 20) | (1u64 << 34) | (1u64 << 41);
    assert_eq!(masks[27], expected);
}

#[test]
fn count_bits_and_variants() {
    assert_eq!(count_bits(0), 0);
    assert_eq!(count_bits(u64::MAX), 64);
    assert_eq!(count_bits(0x8100000000000081), 4);
    // Spreading counter bits over mask 0b1010: subset 0b01 -> lowest mask
    // bit, 0b10 -> highest, 0b11 -> both.
    assert_eq!(variants(0b1010, 0b00), 0);
    assert_eq!(variants(0b1010, 0b01), 0b0010);
    assert_eq!(variants(0b1010, 0b10), 0b1000);
    assert_eq!(variants(0b1010, 0b11), 0b1010);
}

#[test]
fn magic_lookup_matches_ray_cast() {
    let t = Tables::new().unwrap();
    let occupancies = [
        0u64,
        0x00ff00000000ff00,
        0x1234_5678_9abc_def0,
        0x8100000000000081,
        u64::MAX,
    ];
    for sq in [0u64, 7, 27, 36, 63] {
        for occ in occupancies {
            let rook = t.get_rook_moves(BB(1u64 << sq), BB(occ)).0;
            assert_eq!(rook, rook_attacks_slow(occ, sq), "rook mismatch on {}", sq);
            let bishop = t.get_bishop_moves(BB(1u64 << sq), BB(occ)).0;
            assert_eq!(bishop, bishop_attacks_slow(occ, sq), "bishop mismatch on {}", sq);
        }
    }
}

#[test]
fn rook_attacks_from_corner_empty_board() {
    // a1 on an empty board: the whole first rank and first file.
    let expected: u64 = 0xfe | (1u64 << 8) | (1u64 << 16) | (1u64 << 24) | (1u64 << 32)
        | (1u64 << 40) | (1u64 << 48) | (1u64 << 56);
    assert_eq!(rook_attacks_slow(0, 0), expected);
}

#[test]
fn rook_attacks_stop_at_blocker() {
    // Rook a1, blocker a3: reaches a2 and a3 but not a4.
    let occ = 1u64 << 16;
    let att = rook_attacks_slow(occ, 0);
    assert!(att & (1u64 << 8) != 0);
    assert!(att & (1u64 << 16) != 0);
    assert!(att & (1u64 << 24) == 0);
}

#[test]
fn magic_discovery_finds_a_constant() {
    let masks = gen_bishop_potential_moves();
    let mut rng = XorShift::new(123);
    let found = find_magic_bishop(masks[27], &mut rng, 1_000_000);
    assert!(found.is_some());
}
