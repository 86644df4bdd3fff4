use vstd::prelude::*;

pub mod bitboard;
pub mod fen;
pub mod is_attacked;
pub mod makemove;
pub mod movegen;
pub mod mv;
pub mod position;
pub mod square;
mod text;

verus! {

/// The six kinds of chess piece.
#[derive(Debug, Clone, Copy, PartialEq, Eq, Structural)]
pub enum Piece {
    Pawn,
    Knight,
    Bishop,
    Rook,
    Queen,
    King,
}

/// The two sides.
#[derive(Debug, Clone, Copy, PartialEq, Eq, Structural)]
pub enum Side {
    White,
    Black,
}

/// The four castling rights, in the order in which a position stores them.
#[derive(Debug, Clone, Copy, PartialEq, Eq, Structural)]
pub enum Castling {
    WKS,
    WQS,
    BKS,
    BQS,
}

/// The side that is not `s`.
pub open spec fn opponent(s: Side) -> Side {
    match s {
        Side::White => Side::Black,
        Side::Black => Side::White,
    }
}

impl std::ops::Not for Side {
    type Output = Side;

    fn not(self) -> (r: Side)
        ensures
            r == opponent(self),
    {
        match self {
            Side::White => Side::Black,
            Side::Black => Side::White,
        }
    }
}

impl vstd::std_specs::ops::NotSpecImpl for Side {
    open spec fn obeys_not_spec() -> bool {
        true
    }

    open spec fn not_req(self) -> bool {
        true
    }

    open spec fn not_spec(self) -> Side {
        opponent(self)
    }
}

} // verus!
