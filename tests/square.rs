use chess::mv::{Mv, PromoPiece};
use chess::square::Square;
use chess::Side;

#[test]
fn test_from_string() {
    assert_eq!(Square::from_string("a1"), Square::from_file_rank(0, 0));
    assert_eq!(Square::from_string("a8"), Square::from_file_rank(0, 7));
    assert_eq!(Square::from_string("h1"), Square::from_file_rank(7, 0));
    assert_eq!(Square::from_string("h8"), Square::from_file_rank(7, 7));
}

#[test]
fn test_to_string() {
    assert_eq!(Square::from_file_rank(0, 0).to_string(), "a1");
    assert_eq!(Square::from_file_rank(7, 0).to_string(), "h1");
    assert_eq!(Square::from_file_rank(0, 7).to_string(), "a8");
    assert_eq!(Square::from_file_rank(7, 7).to_string(), "h8");
}

#[test]
fn square_index_round_trip() {
    let sq = Square::from_index(37);
    assert_eq!(sq, Square::from_file_rank(5, 4));
    assert_eq!(sq.get_index(), 37);
    assert_eq!(sq.to_string(), "f5");
}

#[test]
fn test_side() {
    assert_eq!(!Side::White, Side::Black);
    assert_eq!(!Side::Black, Side::White);
}

static MOVESTRS_VALID: [&str; 12] = [
    "a1a8", "h1h8", "a1h1", "a8h8", "a7a8n", "a7a8b", "a7a8r", "a7a8q", "a2a1n", "a2a1b", "a2a1r",
    "a2a1q",
];

#[test]
fn test_parse() {
    for movestr in MOVESTRS_VALID {
        assert_eq!(Mv::from_string(movestr).to_string(), movestr);
    }
}

#[test]
fn move_fields() {
    let mv = Mv::from_string("g7h8q");
    assert_eq!(mv.from, Square::from_file_rank(6, 6));
    assert_eq!(mv.to, Square::from_file_rank(7, 7));
    assert_eq!(mv.promo, Some(PromoPiece::Queen));
    assert_eq!(Mv::from_string("e2e4").promo, None);
}
