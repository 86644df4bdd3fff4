use chess::position::Position;
use chess::square::Square;
use chess::{Piece, Side};

static FENS_VALID: [&str; 11] = [
    "rnbqkbnr/pppppppp/8/8/8/8/PPPPPPPP/RNBQKBNR w KQkq - 0 1",
    "rnbqkbnr/pppppppp/8/8/8/8/PPPPPPPP/RNBQKBNR b KQkq - 0 1",
    "rnbqkbnr/pppppppp/8/8/8/8/PPPPPPPP/RNBQKBNR w KQ - 0 1",
    "rnbqkbnr/pppppppp/8/8/8/8/PPPPPPPP/RNBQKBNR b kq - 0 1",
    "rnbqkbnr/pppppppp/8/8/8/8/PPPPPPPP/RNBQKBNR w - - 0 1",
    "rnbqkbnr/pppppppp/8/8/8/8/PPPPPPPP/RNBQKBNR b - - 0 1",
    "rnbqkbnr/pppppppp/8/8/P7/8/1PPPPPPP/RNBQKBNR b KQkq a3 0 1",
    "rnbqkbnr/1ppppppp/8/p7/P7/8/1PPPPPPP/RNBQKBNR w KQkq a6 0 2",
    "rnbqkbnr/1ppppppp/8/p7/P6P/8/1PPPPPP1/RNBQKBNR b KQkq h3 0 2",
    "rnbqkbnr/1pppppp1/8/p6p/P6P/8/1PPPPPP1/RNBQKBNR w KQkq h6 0 3",
    "rnbqkb1r/pp2pp1p/3p1np1/8/3NP3/2N5/PPP2PPP/R1BQKB1R w KQkq - 0 6",
];

#[test]
fn test_startpos() {
    let pos = Position::from_fen("startpos");
    assert_eq!(pos.get_fen(), "rnbqkbnr/pppppppp/8/8/8/8/PPPPPPPP/RNBQKBNR w KQkq - 0 1");
}

#[test]
fn test_valid() {
    for fen in FENS_VALID {
        let pos = Position::from_fen(fen);
        assert_eq!(pos.get_fen(), fen);
    }
}

#[test]
fn test_fen_override() {
    let mut pos = Position::default();
    for fen in FENS_VALID {
        pos.set_fen(fen);
        assert_eq!(pos.get_fen(), fen, "set_fen() override failure");
    }
}

#[test]
fn fen_fields_are_read() {
    let pos = Position::from_fen("4k3/8/8/8/8/8/8/R3K2R b Kq e3 17 42");
    assert_eq!(pos.turn, Side::Black);
    assert_eq!(pos.castling, [true, false, false, true]);
    assert_eq!(pos.ep, Some(Square::from_string("e3")));
    assert_eq!(pos.halfmoves, 17);
    assert_eq!(pos.fullmoves, 42);
    assert_eq!(pos.get_piece_on(Square::from_string("e8")), Some(Piece::King));
    assert_eq!(pos.get_colour_on(Square::from_string("e8")), Some(Side::Black));
    assert_eq!(pos.get_piece_on(Square::from_string("h1")), Some(Piece::Rook));
    assert_eq!(pos.get_colour_on(Square::from_string("h1")), Some(Side::White));
    assert!(pos.is_empty(Square::from_string("d4")));
    // Castling letters are written back in the order K Q k q.
    assert_eq!(pos.get_fen(), "4k3/8/8/8/8/8/8/R3K2R b Kq e3 17 42");
}

#[test]
fn fen_castling_letters_any_order() {
    let pos = Position::from_fen("4k3/8/8/8/8/8/8/4K3 w qkQK - 0 1");
    assert_eq!(pos.get_fen(), "4k3/8/8/8/8/8/8/4K3 w KQkq - 0 1");
}

#[test]
fn fen_largest_counters() {
    let fen = "8/8/8/8/8/8/8/8 w - - 255 255";
    assert_eq!(Position::from_fen(fen).get_fen(), fen);
}

#[test]
fn board_edits_keep_fen_consistent() {
    let mut pos = Position::from_fen("4k3/8/8/8/8/8/8/4K3 w - - 0 1");
    pos.set_piece(Square::from_string("d4"), Side::White, Piece::Queen);
    assert_eq!(pos.get_fen(), "4k3/8/8/8/3Q4/8/8/4K3 w - - 0 1");
    pos.clear_square(Square::from_string("d4"));
    pos.clear_square(Square::from_string("d4"));
    assert_eq!(pos.get_fen(), "4k3/8/8/8/8/8/8/4K3 w - - 0 1");
    assert_eq!(pos.get_piece_on(Square::from_string("d4")), None);
    assert_eq!(pos.get_colour_on(Square::from_string("d4")), None);
}
