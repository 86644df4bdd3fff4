use chess::mv::Mv;
use chess::position::Position;
use chess::square::Square;
use chess::{Piece, Side};

#[test]
fn test_makemove_legal() {
    let fen = "4k3/1P2r3/1q6/5N2/2n3b1/4Q1p1/3n4/R3K2R w KQ - 0 1";
    let legal = ["e3e2", "e3e7", "f5g7", "b7b8q", "b7b8n"];

    for movestr in legal {
        let mut pos = Position::from_fen(fen);
        let mv = Mv::from_string(movestr);
        let success = pos.makemove(&mv);
        assert!(success, "Move \"{movestr}\" was meant to be legal");
    }
}

#[test]
fn test_makemove_illegal() {
    let fen = "4k3/1P2r3/1q6/5N2/2n3b1/4Q1p1/3n4/R3K2R w KQ - 0 1";
    let illegal = ["e1d1", "e1d2", "e1e2", "e1f2", "e1f1", "e3d2", "e3b6"];

    for movestr in illegal {
        let mut pos = Position::from_fen(fen);
        let mv = Mv::from_string(movestr);
        let success = pos.makemove(&mv);
        assert!(!success, "Move \"{movestr}\" was meant to be illegal");
    }
}

#[test]
fn test_changes_white() {
    let startfen = "r3k2r/6P1/8/3pP3/8/8/4P3/R3K2R w KQkq d6 0 1";
    let tests = [
        ("e5e6", "r3k2r/6P1/4P3/3p4/8/8/4P3/R3K2R b KQkq - 0 1"),
        ("e2e3", "r3k2r/6P1/8/3pP3/8/4P3/8/R3K2R b KQkq - 0 1"),
        // Update EP square
        ("e2e4", "r3k2r/6P1/8/3pP3/4P3/8/8/R3K2R b KQkq e3 0 1"),
        ("e5d6", "r3k2r/6P1/3P4/8/8/8/4P3/R3K2R b KQkq - 0 1"),
        // Promotions
        ("g7g8q", "r3k1Qr/8/8/3pP3/8/8/4P3/R3K2R b KQkq - 0 1"),
        ("g7g8r", "r3k1Rr/8/8/3pP3/8/8/4P3/R3K2R b KQkq - 0 1"),
        ("g7g8b", "r3k1Br/8/8/3pP3/8/8/4P3/R3K2R b KQkq - 0 1"),
        ("g7g8n", "r3k1Nr/8/8/3pP3/8/8/4P3/R3K2R b KQkq - 0 1"),
        // Promotions with capture
        ("g7h8q", "r3k2Q/8/8/3pP3/8/8/4P3/R3K2R b KQq - 0 1"),
        ("g7h8r", "r3k2R/8/8/3pP3/8/8/4P3/R3K2R b KQq - 0 1"),
        ("g7h8b", "r3k2B/8/8/3pP3/8/8/4P3/R3K2R b KQq - 0 1"),
        ("g7h8n", "r3k2N/8/8/3pP3/8/8/4P3/R3K2R b KQq - 0 1"),
        // Update castling permissions
        ("e1f1", "r3k2r/6P1/8/3pP3/8/8/4P3/R4K1R b kq - 1 1"),
        ("e1g1", "r3k2r/6P1/8/3pP3/8/8/4P3/R4RK1 b kq - 1 1"),
        ("e1c1", "r3k2r/6P1/8/3pP3/8/8/4P3/2KR3R b kq - 1 1"),
        ("h1h8", "r3k2R/6P1/8/3pP3/8/8/4P3/R3K3 b Qq - 0 1"),
        ("a1a8", "R3k2r/6P1/8/3pP3/8/8/4P3/4K2R b Kk - 0 1"),
    ];

    for (movestr, fen) in tests {
        let mut pos = Position::from_fen(startfen);
        let mv = Mv::from_string(movestr);
        let success = pos.makemove(&mv);

        assert!(success);
        assert_eq!(pos.get_fen(), fen);
    }
}

#[test]
fn black_moves_change_state() {
    let startfen = "r3k2r/4p3/8/8/3Pp3/8/8/R3K2R b KQkq d3 5 9";
    let tests = [
        // Double step sets the square passed over.
        ("e7e5", "r3k2r/8/8/4p3/3Pp3/8/8/R3K2R w KQkq e6 0 9"),
        // En passant removes the pawn that passed, not a piece on the destination.
        ("e4d3", "r3k2r/4p3/8/8/8/3p4/8/R3K2R w KQkq - 0 9"),
        // Castling on both wings moves the rook and drops both rights.
        ("e8g8", "r4rk1/4p3/8/8/3Pp3/8/8/R3K2R w KQ - 6 9"),
        ("e8c8", "2kr3r/4p3/8/8/3Pp3/8/8/R3K2R w KQ - 6 9"),
        // A rook capture drops the right of the rook taken.
        ("a8a1", "4k2r/4p3/8/8/3Pp3/8/8/r3K2R w Kk - 0 9"),
    ];
    for (movestr, fen) in tests {
        let mut pos = Position::from_fen(startfen);
        assert!(pos.makemove(&Mv::from_string(movestr)), "{movestr}");
        assert_eq!(pos.get_fen(), fen, "{movestr}");
    }
}

#[test]
fn en_passant_after_double_step() {
    let mut pos = Position::from_fen("4k3/8/8/8/5p2/8/4P3/4K3 w - - 0 1");
    assert!(pos.makemove(&Mv::from_string("e2e4")));
    assert_eq!(pos.ep, Some(Square::from_string("e3")));
    let moves = pos.pseudolegal_moves();
    assert!(moves.contains(&Mv::from_string("f4e3")));
    assert!(pos.makemove(&Mv::from_string("f4e3")));
    assert_eq!(pos.get_piece_on(Square::from_string("e4")), None);
    assert_eq!(pos.get_piece_on(Square::from_string("e3")), Some(Piece::Pawn));
    assert_eq!(pos.get_colour_on(Square::from_string("e3")), Some(Side::Black));
    assert_eq!(pos.get_fen(), "4k3/8/8/8/8/4p3/8/4K3 w - - 0 1");
}

#[test]
fn pinned_piece_cannot_move() {
    // The knight on e2 is pinned against its king by the rook on e8.
    let fen = "4r1k1/8/8/8/8/8/4N3/4K3 w - - 0 1";
    let mut pos = Position::from_fen(fen);
    assert!(!pos.makemove(&Mv::from_string("e2c3")));
    let mut pos = Position::from_fen(fen);
    assert!(pos.makemove(&Mv::from_string("e1d1")));
}

#[test]
fn king_cannot_step_into_check() {
    let fen = "4k3/8/8/8/8/8/3r4/4K3 w - - 0 1";
    let mut pos = Position::from_fen(fen);
    // e2 lies on the rook's rank and d1 on its file; f1 on neither.
    assert!(!pos.makemove(&Mv::from_string("e1e2")));
    let mut pos = Position::from_fen(fen);
    assert!(!pos.makemove(&Mv::from_string("e1d1")));
    let mut pos = Position::from_fen(fen);
    assert!(pos.makemove(&Mv::from_string("e1d2")));
    let mut pos = Position::from_fen(fen);
    assert!(pos.makemove(&Mv::from_string("e1f1")));
}

#[test]
fn illegal_move_still_applied() {
    let mut pos = Position::from_fen("4r1k1/8/8/8/8/8/4N3/4K3 w - - 3 1");
    assert!(!pos.makemove(&Mv::from_string("e2c3")));
    assert_eq!(pos.get_fen(), "4r1k1/8/8/8/8/2N5/8/4K3 b - - 4 1");
}

fn castles(fen: &str) -> (bool, bool) {
    let pos = Position::from_fen(fen);
    let moves = pos.pseudolegal_moves();
    let ks = moves.contains(&Mv::from_string("e1g1"));
    let qs = moves.contains(&Mv::from_string("e1c1"));
    (ks, qs)
}

#[test]
fn castling_offered_when_free() {
    assert_eq!(castles("4k3/8/8/8/8/8/8/R3K2R w KQ - 0 1"), (true, true));
    assert_eq!(castles("4k3/8/8/8/8/8/8/R3K2R w K - 0 1"), (true, false));
    assert_eq!(castles("4k3/8/8/8/8/8/8/R3K2R w - - 0 1"), (false, false));
}

#[test]
fn castling_blocked_or_attacked() {
    // A piece between king and rook.
    assert_eq!(castles("4k3/8/8/8/8/8/8/RN2K1NR w KQ - 0 1"), (false, false));
    // b1 occupied stops only the queen side.
    assert_eq!(castles("4k3/8/8/8/8/8/8/RN2K2R w KQ - 0 1"), (true, false));
    // f1 attacked by a rook on f8.
    assert_eq!(castles("4kr2/8/8/8/8/8/8/R3K2R w KQ - 0 1"), (false, true));
    // d1 attacked by a rook on d8.
    assert_eq!(castles("3rk3/8/8/8/8/8/8/R3K2R w KQ - 0 1"), (true, false));
    // b1 attacked only: the king does not pass it.
    assert_eq!(castles("1r2k3/8/8/8/8/8/8/R3K2R w KQ - 0 1"), (true, true));
    // The king in check.
    assert_eq!(castles("4r1k1/8/8/8/8/8/8/R3K2R w KQ - 0 1"), (false, false));
}

#[test]
fn black_castling_generated() {
    let pos = Position::from_fen("r3k2r/8/8/8/8/8/8/4K3 b kq - 0 1");
    let moves = pos.pseudolegal_moves();
    assert!(moves.contains(&Mv::from_string("e8g8")));
    assert!(moves.contains(&Mv::from_string("e8c8")));
}

#[test]
fn promotions_are_generated() {
    let pos = Position::from_fen("1n2k3/P7/8/8/8/8/8/4K3 w - - 0 1");
    let moves = pos.pseudolegal_moves();
    for m in ["a7a8q", "a7a8r", "a7a8b", "a7a8n", "a7b8q", "a7b8r", "a7b8b", "a7b8n"] {
        assert!(moves.contains(&Mv::from_string(m)), "{m}");
    }
    assert!(!moves.contains(&Mv::from_string("a7a8")));
    // Five king moves and eight promotions.
    assert_eq!(moves.len(), 13);
}

fn perft(pos: &Position, depth: u32) -> u64 {
    if depth == 0 {
        return 1;
    }
    let mut nodes = 0;
    for mv in pos.pseudolegal_moves() {
        let mut next = *pos;
        if next.makemove(&mv) {
            nodes += perft(&next, depth - 1);
        }
    }
    nodes
}

#[test]
fn perft_start_shallow() {
    let pos = Position::from_fen("startpos");
    assert_eq!(perft(&pos, 1), 20);
    assert_eq!(perft(&pos, 2), 400);
    assert_eq!(perft(&pos, 3), 8902);
}

#[test]
fn perft_start_depth_four() {
    let pos = Position::from_fen("startpos");
    assert_eq!(perft(&pos, 4), 197281);
}

fn consistent(pos: &Position) -> bool {
    for i in 0..6 {
        for j in 0..6 {
            if i != j && pos.pieces[i].0 & pos.pieces[j].0 != 0 {
                return false;
            }
        }
    }
    if pos.colours[0].0 & pos.colours[1].0 != 0 {
        return false;
    }
    let kinds = pos.pieces.iter().fold(0u64, |acc, b| acc | b.0);
    kinds == pos.colours[0].0 | pos.colours[1].0
}

#[test]
fn board_stays_consistent() {
    let mut pos = Position::from_fen("r3k2r/1P4P1/8/3pP3/8/8/8/R3K2R w KQkq d6 0 1");
    assert!(consistent(&pos));
    // En passant, a capturing promotion, castling on each side.
    for m in ["e5d6", "e8c8", "g7h8q", "d8d6", "e1g1"] {
        let _ = pos.makemove(&Mv::from_string(m));
        assert!(consistent(&pos), "{m}");
    }
    pos.clear_square(Square::from_string("h8"));
    assert!(consistent(&pos));
    pos.set_piece(Square::from_string("h8"), Side::Black, Piece::Knight);
    assert!(consistent(&pos));
    assert_eq!(pos.get_fen(), "2k4n/1P6/3r4/8/8/8/8/R4RK1 b - - 1 1");
}

fn has_duplicates(moves: &[Mv]) -> bool {
    for i in 0..moves.len() {
        for j in 0..i {
            if moves[i] == moves[j] {
                return true;
            }
        }
    }
    false
}

#[test]
fn start_position_moves_listed_once() {
    let pos = Position::from_fen("startpos");
    let moves = pos.pseudolegal_moves();
    assert_eq!(moves.len(), 20);
    assert!(!has_duplicates(&moves));
}

#[test]
fn no_move_listed_twice() {
    let fens = [
        "r3k2r/1P4P1/8/3pP3/8/8/8/R3K2R w KQkq d6 0 1",
        "rnbqkb1r/pp2pp1p/3p1np1/8/3NP3/2N5/PPP2PPP/R1BQKB1R w KQkq - 0 6",
        "4k3/1P2r3/1q6/5N2/2n3b1/4Q1p1/3n4/R3K2R b KQ - 0 1",
    ];
    for fen in fens {
        let moves = Position::from_fen(fen).pseudolegal_moves();
        assert!(!has_duplicates(&moves), "{fen}");
    }
}

#[test]
fn promotion_moves_come_in_fours() {
    let pos = Position::from_fen("4k3/P7/8/8/8/8/8/4K3 w - - 0 1");
    let moves = pos.pseudolegal_moves();
    let promos: Vec<&Mv> = moves.iter().filter(|m| m.promo.is_some()).collect();
    assert_eq!(promos.len(), 4);
    assert!(!has_duplicates(&moves));
}

#[test]
fn castling_needs_king_at_home() {
    // A rook stands on e1 and the king on h2: e1g1 is a rook move, listed once, and no
    // castling move is added for the right that is still set.
    let pos = Position::from_fen("4k3/8/8/8/8/8/7K/4R3 w K - 0 1");
    let moves = pos.pseudolegal_moves();
    assert_eq!(moves.iter().filter(|m| **m == Mv::from_string("e1g1")).count(), 1);
    assert!(!has_duplicates(&moves));
}
