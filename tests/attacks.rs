use chess::bitboard::Bitboard;
use chess::position::Position;
use chess::square::Square;
use chess::Side;

#[test]
fn test_is_attacked_black() {
    let pos = Position::from_fen("4k3/1P2r3/1q6/5N2/2n3b1/4Q1p1/3n4/R3K2R w KQ - 0 1");

    // Attacked
    let attacked = ["d1", "e2", "f2", "f3", "g7", "f8"];
    for sqstr in attacked {
        let sq = Square::from_string(sqstr);
        assert!(pos.is_attacked(sq, Side::Black), "{}", sq.to_string());
    }

    // Not attacked
    let not_attacked = ["a2", "a4", "a8", "b8", "d5", "g1", "e1"];
    for sqstr in not_attacked {
        let sq = Square::from_string(sqstr);
        assert!(!pos.is_attacked(sq, Side::Black), "{}", sq.to_string());
    }
}

#[test]
fn is_attacked_white_pieces() {
    let pos = Position::from_fen("4k3/1P2r3/1q6/5N2/2n3b1/4Q1p1/3n4/R3K2R w KQ - 0 1");
    // The pawn on b7 attacks a8 and c8.
    assert!(pos.is_attacked(Square::from_string("a8"), Side::White));
    assert!(pos.is_attacked(Square::from_string("c8"), Side::White));
    // The knight on f5 attacks e7 and h6.
    assert!(pos.is_attacked(Square::from_string("e7"), Side::White));
    assert!(pos.is_attacked(Square::from_string("h6"), Side::White));
    // The queen on e3 reaches e7 but not e8 behind the rook.
    assert!(!pos.is_attacked(Square::from_string("e8"), Side::White));
    // The rook on a1 reaches a7 up the open file.
    assert!(pos.is_attacked(Square::from_string("a7"), Side::White));
    // The rook on h1 reaches h8 up the open file.
    assert!(pos.is_attacked(Square::from_string("h8"), Side::White));
}

#[test]
fn sliding_attacks_are_symmetric() {
    let blockers = Bitboard(0x1000000008001000);
    for a in 0..64u8 {
        for b in 0..64u8 {
            let sa = Square::from_index(a);
            let sb = Square::from_index(b);
            assert_eq!(
                Bitboard::mask_bishop(sa, blockers).is_set(sb),
                Bitboard::mask_bishop(sb, blockers).is_set(sa)
            );
            assert_eq!(
                Bitboard::mask_rook(sa, blockers).is_set(sb),
                Bitboard::mask_rook(sb, blockers).is_set(sa)
            );
        }
    }
}
