use vstd::prelude::*;

use crate::square::{is_file_char, is_rank_char, square_text, Square};
use crate::Piece;

verus! {

/// The kinds of piece a pawn may promote to.
#[derive(Debug, Clone, Copy, PartialEq, Eq, Structural)]
pub enum PromoPiece {
    Knight,
    Bishop,
    Rook,
    Queen,
}

/// A move: origin, destination and, for a promotion, the new kind of piece.
#[derive(Debug, Clone, Copy, PartialEq, Eq, Structural)]
pub struct Mv {
    pub from: Square,
    pub to: Square,
    pub promo: Option<PromoPiece>,
}

/// The kind of piece that `pp` promotes to.
pub open spec fn promo_kind(pp: PromoPiece) -> Piece {
    match pp {
        PromoPiece::Knight => Piece::Knight,
        PromoPiece::Bishop => Piece::Bishop,
        PromoPiece::Rook => Piece::Rook,
        PromoPiece::Queen => Piece::Queen,
    }
}

/// The letter of a promotion in move text.
pub open spec fn promo_char(pp: PromoPiece) -> char {
    match pp {
        PromoPiece::Knight => 'n',
        PromoPiece::Bishop => 'b',
        PromoPiece::Rook => 'r',
        PromoPiece::Queen => 'q',
    }
}

/// `c` is a promotion letter.
pub open spec fn is_promo_char(c: char) -> bool {
    c == 'n' || c == 'b' || c == 'r' || c == 'q'
}

/// The promotion that the letter `c` names.
pub open spec fn promo_of_char(c: char) -> PromoPiece {
    if c == 'n' {
        PromoPiece::Knight
    } else if c == 'b' {
        PromoPiece::Bishop
    } else if c == 'r' {
        PromoPiece::Rook
    } else {
        PromoPiece::Queen
    }
}

/// The text of a move: origin and destination squares, then the promotion letter if any.
pub open spec fn mv_text(m: Mv) -> Seq<char> {
    let squares = square_text(m.from.x as int, m.from.y as int) + square_text(
        m.to.x as int,
        m.to.y as int,
    );
    match m.promo {
        Some(pp) => squares.push(promo_char(pp)),
        None => squares,
    }
}

/// The kind of piece that `pp` promotes to.
pub fn promo_piece(pp: PromoPiece) -> (r: Piece)
    ensures
        r == promo_kind(pp),
{
    match pp {
        PromoPiece::Knight => Piece::Knight,
        PromoPiece::Bishop => Piece::Bishop,
        PromoPiece::Rook => Piece::Rook,
        PromoPiece::Queen => Piece::Queen,
    }
}

impl Mv {
    /// Read a move from its text: four characters for the squares, then an optional
    /// promotion letter; characters after the fifth are ignored.
    pub fn from_string(movestr: &str) -> (r: Mv)
        requires
            movestr@.len() >= 4,
            is_file_char(movestr@[0]),
            is_rank_char(movestr@[1]),
            is_file_char(movestr@[2]),
            is_rank_char(movestr@[3]),
            movestr@.len() >= 5 ==> is_promo_char(movestr@[4]),
        ensures
            r.from.wf(),
            r.to.wf(),
            square_text(r.from.x as int, r.from.y as int) == movestr@.subrange(0, 2),
            square_text(r.to.x as int, r.to.y as int) == movestr@.subrange(2, 4),
            r.promo == (if movestr@.len() >= 5 {
                Some(promo_of_char(movestr@[4]))
            } else {
                None
            }),
    {
        let n = movestr.unicode_len();
        let from = Square::from_string(movestr.substring_char(0, 2));
        let to = Square::from_string(movestr.substring_char(2, 4));
        let promo = if n >= 5 {
            let c = movestr.get_char(4);
            if c == 'n' {
                Some(PromoPiece::Knight)
            } else if c == 'b' {
                Some(PromoPiece::Bishop)
            } else if c == 'r' {
                Some(PromoPiece::Rook)
            } else {
                Some(PromoPiece::Queen)
            }
        } else {
            None
        };
        proof {
            assert(square_text(from.x as int, from.y as int) =~= movestr@.subrange(0, 2));
            assert(square_text(to.x as int, to.y as int) =~= movestr@.subrange(2, 4));
        }
        Mv { from, to, promo }
    }

    /// The text of the move.
    pub fn to_string(&self) -> (r: String)
        requires
            self.from.wf(),
            self.to.wf(),
        ensures
            r@ == mv_text(*self),
    {
        let mut v: Vec<char> = Vec::new();
        v.push(crate::square::file_letter(self.from.x));
        v.push(crate::square::rank_digit(self.from.y));
        v.push(crate::square::file_letter(self.to.x));
        v.push(crate::square::rank_digit(self.to.y));
        match self.promo {
            Some(PromoPiece::Knight) => v.push('n'),
            Some(PromoPiece::Bishop) => v.push('b'),
            Some(PromoPiece::Rook) => v.push('r'),
            Some(PromoPiece::Queen) => v.push('q'),
            None => {},
        }
        proof {
            assert(v@ =~= mv_text(*self));
        }
        crate::text::string_from_chars(&v)
    }
}

} // verus!
