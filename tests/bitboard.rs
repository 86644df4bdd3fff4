use chess::bitboard::Bitboard;
use chess::square::Square;

#[test]
fn count_tests() {
    assert!(Bitboard(0).count() == 0);
    assert!(Bitboard(1).count() == 1);
    assert!(Bitboard(2).count() == 1);
    assert!(Bitboard(3).count() == 2);
    assert!(Bitboard::from_empty().count() == 0);
    assert!(Bitboard::from_full().count() == 64);
}

#[test]
fn empty() {
    assert!(Bitboard(0).is_empty());
    assert!(!Bitboard(1).is_empty());
}

#[test]
fn bitxor() {
    assert!(Bitboard(0) ^ Bitboard(0) == Bitboard(0));
    assert!(Bitboard(1) ^ Bitboard(2) == Bitboard(3));
}

#[test]
fn bitor() {
    assert!(Bitboard(1) | Bitboard(2) == Bitboard(3));
}

#[test]
fn bitand() {
    assert!(Bitboard(1) & Bitboard(2) == Bitboard(0));
}

#[test]
fn bitnot() {
    assert_eq!(!Bitboard(0), Bitboard(0xFFFFFFFFFFFFFFFF));
    assert_eq!(!Bitboard(0xFFFFFFFFFFFFFFFF), Bitboard(0));
}

#[test]
fn north() {
    assert_eq!(Bitboard(0x0).north(), Bitboard(0x0));
    assert_eq!(Bitboard(0x1).north(), Bitboard(0x100));
    assert_eq!(Bitboard(0xff).north(), Bitboard(0xff00));
    assert_eq!(Bitboard(0xff0000000000).north(), Bitboard(0xff000000000000));
    assert_eq!(Bitboard(0xff00000000000000).north(), Bitboard(0x0));
}

#[test]
fn south() {
    assert_eq!(Bitboard(0x0).south(), Bitboard(0x0));
    assert_eq!(Bitboard(0x100).south(), Bitboard(0x1));
    assert_eq!(Bitboard(0xff00).south(), Bitboard(0xff));
    assert_eq!(Bitboard(0xff000000000000).south(), Bitboard(0xff0000000000));
}

#[test]
fn east() {
    assert_eq!(Bitboard(0x0).east(), Bitboard(0x0));
    assert_eq!(Bitboard(0x1).east(), Bitboard(0x2));
}

#[test]
fn west() {
    assert_eq!(Bitboard(0x0).west(), Bitboard(0x0));
    assert_eq!(Bitboard(0x1).west(), Bitboard(0x0));
}

#[test]
fn test_mask_bishop() {
    let tests = [
        (Square::from_index(0), Bitboard(0x0), Bitboard(0x8040201008040200)),
        (Square::from_index(63), Bitboard(0x0), Bitboard(0x40201008040201)),
        (Square::from_index(56), Bitboard(0x0), Bitboard(0x2040810204080)),
        (Square::from_index(7), Bitboard(0x0), Bitboard(0x102040810204000)),
        (Square::from_index(28), Bitboard(0x0), Bitboard(0x182442800284482)),
        (Square::from_index(28), Bitboard(0x100400000200400), Bitboard(0x102442800280400)),
    ];

    for (sq, blockers, mask) in tests {
        assert_eq!(Bitboard::mask_bishop(sq, blockers), mask);
    }
}

#[test]
fn test_mask_rook() {
    let tests = [
        (Square::from_index(0), Bitboard(0x0), Bitboard(0x1010101010101fe)),
        (Square::from_index(63), Bitboard(0x0), Bitboard(0x7f80808080808080)),
        (Square::from_index(28), Bitboard(0x0), Bitboard(0x10101010ef101010)),
        (Square::from_index(28), Bitboard(0x1000000008001000), Bitboard(0x10101010e8101000)),
    ];

    for (sq, blockers, mask) in tests {
        assert_eq!(Bitboard::mask_rook(sq, blockers), mask);
    }
}

#[test]
fn mask_queen_is_bishop_and_rook() {
    let sq = Square::from_index(28);
    let blockers = Bitboard(0x1000000008001000);
    let q = Bitboard::mask_queen(sq, blockers);
    assert_eq!(q, Bitboard::mask_bishop(sq, blockers) | Bitboard::mask_rook(sq, blockers));
}

#[test]
fn mask_knight_corner_and_centre() {
    // a1 reaches b3 and c2.
    assert_eq!(Bitboard::mask_knight(Square::from_index(0), Bitboard(0)), Bitboard(0x20400));
    // e4 reaches eight squares.
    assert_eq!(Bitboard::mask_knight(Square::from_index(28), Bitboard(0)).count(), 8);
    assert_eq!(
        Bitboard::mask_knight(Square::from_index(28), Bitboard(0)),
        Bitboard(0x284400442800)
    );
}

#[test]
fn mask_king_edges() {
    // a1: a2, b1, b2.
    assert_eq!(Bitboard::mask_king(Square::from_index(0), Bitboard(0)), Bitboard(0x302));
    // h8: g8, g7, h7.
    assert_eq!(
        Bitboard::mask_king(Square::from_index(63), Bitboard(0)),
        Bitboard(0x40c0000000000000)
    );
    assert_eq!(Bitboard::mask_king(Square::from_index(28), Bitboard(0)).count(), 8);
}

#[test]
fn mask_pawn_up_diagonals() {
    // e4: d5 and f5.
    assert_eq!(Bitboard::mask_pawn(Square::from_index(28)), Bitboard(0x2800000000));
    // h2: g3 only; no wrap to the a-file.
    assert_eq!(Bitboard::mask_pawn(Square::from_index(15)), Bitboard(0x400000));
}

#[test]
fn east_west_do_not_wrap() {
    assert_eq!(Bitboard(0x80).east(), Bitboard(0));
    assert_eq!(Bitboard(0x100).west(), Bitboard(0));
    assert_eq!(Bitboard(0x8000).step(1, 1), Bitboard(0));
}

#[test]
fn set_unset_pop() {
    let mut b = Bitboard::from_empty();
    b.set(Square::from_index(9));
    b.set(Square::from_index(40));
    assert!(b.is_set(Square::from_index(9)));
    assert!(b.is_occupied());
    assert!(!b.is_full());
    assert!(Bitboard::from_full().is_full());
    let first = b.pop_lsb();
    assert_eq!(first, Square::from_index(9));
    assert_eq!(b, Bitboard::from_square(Square::from_index(40)));
    b.unset(Square::from_index(40));
    assert!(b.is_empty());
}

#[test]
fn bitboard_text() {
    let text = Bitboard(0x8000000000000001).to_string();
    assert_eq!(
        text,
        "00000001\n00000000\n00000000\n00000000\n00000000\n00000000\n00000000\n10000000\n"
    );
    assert_eq!(Bitboard::from_empty().to_string(), "00000000\n".repeat(8));
}

#[test]
fn assign_operators() {
    let mut b = Bitboard(0b1100);
    b &= Bitboard(0b1010);
    assert_eq!(b, Bitboard(0b1000));
    b |= Bitboard(0b0001);
    assert_eq!(b, Bitboard(0b1001));
    b ^= Bitboard(0b1111);
    assert_eq!(b, Bitboard(0b0110));
}
