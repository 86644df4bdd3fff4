use vstd::prelude::*;

use crate::bitboard::Bitboard;
use crate::square::Square;
use crate::{Piece, Side};

verus! {

/// The slot of `p` among a position's piece sets.
pub open spec fn piece_idx(p: Piece) -> int {
    match p {
        Piece::Pawn => 0,
        Piece::Knight => 1,
        Piece::Bishop => 2,
        Piece::Rook => 3,
        Piece::Queen => 4,
        Piece::King => 5,
    }
}

/// The slot of `s` among a position's colour sets.
pub open spec fn side_idx(s: Side) -> int {
    match s {
        Side::White => 0,
        Side::Black => 1,
    }
}

/// The slot of `p` among a position's piece sets.
pub fn piece_index(p: Piece) -> (r: usize)
    ensures
        r == piece_idx(p),
{
    match p {
        Piece::Pawn => 0,
        Piece::Knight => 1,
        Piece::Bishop => 2,
        Piece::Rook => 3,
        Piece::Queen => 4,
        Piece::King => 5,
    }
}

/// The slot of `s` among a position's colour sets.
pub fn side_index(s: Side) -> (r: usize)
    ensures
        r == side_idx(s),
{
    match s {
        Side::White => 0,
        Side::Black => 1,
    }
}

/// A chess position: one set of squares per side and per kind of piece, and the state
/// that goes with it.
#[derive(Debug, Clone, Copy)]
pub struct Position {
    pub colours: [Bitboard; 2],
    pub pieces: [Bitboard; 6],
    pub turn: Side,
    pub halfmoves: u8,
    pub fullmoves: u8,
    pub ep: Option<Square>,
    pub castling: [bool; 4],
}

impl Position {
    /// Side `s` has a piece of kind `p` on `(x, y)`.
    pub open spec fn holds(&self, s: Side, p: Piece, x: int, y: int) -> bool {
        self.colours[side_idx(s)].has(x, y) && self.pieces[piece_idx(p)].has(x, y)
    }

    /// Some side has a piece on `(x, y)`.
    pub open spec fn occupied(&self, x: int, y: int) -> bool {
        self.colours[0].has(x, y) || self.colours[1].has(x, y)
    }

    /// How many of the six piece sets hold `(x, y)`.
    pub open spec fn kinds_on(&self, x: int, y: int) -> int {
        (if self.pieces[0].has(x, y) { 1int } else { 0int }) + (if self.pieces[1].has(x, y) {
            1int
        } else {
            0int
        }) + (if self.pieces[2].has(x, y) { 1int } else { 0int }) + (if self.pieces[3].has(
            x,
            y,
        ) {
            1int
        } else {
            0int
        }) + (if self.pieces[4].has(x, y) { 1int } else { 0int }) + (if self.pieces[5].has(
            x,
            y,
        ) {
            1int
        } else {
            0int
        })
    }

    /// The board is consistent on `(x, y)`: no two sides and no two kinds of piece share
    /// it, and it holds a kind of piece exactly when it holds a side.
    pub open spec fn square_consistent(&self, x: int, y: int) -> bool {
        &&& !(self.colours[0].has(x, y) && self.colours[1].has(x, y))
        &&& self.kinds_on(x, y) <= 1
        &&& (self.kinds_on(x, y) == 1) == self.occupied(x, y)
    }

    /// Board consistency on every square.
    pub open spec fn wf(&self) -> bool {
        forall|x: int, y: int| #[trigger] self.square_consistent(x, y)
    }

    /// The kind of piece on `(x, y)`, if any (the first set that holds it, pawn first).
    pub open spec fn piece_at(&self, x: int, y: int) -> Option<Piece> {
        if self.pieces[0].has(x, y) {
            Some(Piece::Pawn)
        } else if self.pieces[1].has(x, y) {
            Some(Piece::Knight)
        } else if self.pieces[2].has(x, y) {
            Some(Piece::Bishop)
        } else if self.pieces[3].has(x, y) {
            Some(Piece::Rook)
        } else if self.pieces[4].has(x, y) {
            Some(Piece::Queen)
        } else if self.pieces[5].has(x, y) {
            Some(Piece::King)
        } else {
            None
        }
    }

    /// The side of the piece on `(x, y)`, if any (white first).
    pub open spec fn colour_at(&self, x: int, y: int) -> Option<Side> {
        if self.colours[0].has(x, y) {
            Some(Side::White)
        } else if self.colours[1].has(x, y) {
            Some(Side::Black)
        } else {
            None
        }
    }

    /// What stands on `(x, y)`.
    pub open spec fn at(&self, x: int, y: int) -> Option<(Side, Piece)> {
        match (self.colour_at(x, y), self.piece_at(x, y)) {
            (Some(s), Some(p)) => Some((s, p)),
            _ => None,
        }
    }

    /// `self` and `o` hold the same on every square but `(x0, y0)`.
    pub open spec fn same_board_except(&self, o: &Position, x0: int, y0: int) -> bool {
        forall|x: int, y: int|
            !(x == x0 && y == y0) ==> {
                &&& #[trigger] self.colours[0].has(x, y) == o.colours[0].has(x, y)
                &&& self.colours[1].has(x, y) == o.colours[1].has(x, y)
                &&& self.pieces[0].has(x, y) == o.pieces[0].has(x, y)
                &&& self.pieces[1].has(x, y) == o.pieces[1].has(x, y)
                &&& self.pieces[2].has(x, y) == o.pieces[2].has(x, y)
                &&& self.pieces[3].has(x, y) == o.pieces[3].has(x, y)
                &&& self.pieces[4].has(x, y) == o.pieces[4].has(x, y)
                &&& self.pieces[5].has(x, y) == o.pieces[5].has(x, y)
            }
    }

    /// `self` and `o` agree on everything but the board.
    pub open spec fn same_state(&self, o: &Position) -> bool {
        &&& self.turn == o.turn
        &&& self.halfmoves == o.halfmoves
        &&& self.fullmoves == o.fullmoves
        &&& self.ep == o.ep
        &&& self.castling == o.castling
    }

    /// On a consistent board, what stands on a square is what the sets say.
    pub proof fn lemma_at_holds(&self, x: int, y: int)
        requires
            self.wf(),
        ensures
            forall|s: Side, p: Piece| #[trigger]
                self.holds(s, p, x, y) == (self.at(x, y) == Some((s, p))),
            self.occupied(x, y) == self.at(x, y).is_some(),
    {
        assert(self.square_consistent(x, y));
    }

    /// The kind of piece on `sq`, if any.
    pub fn get_piece_on(&self, sq: Square) -> (r: Option<Piece>)
        requires
            sq.wf(),
        ensures
            r == self.piece_at(sq.x as int, sq.y as int),
    {
        if self.pieces[0].is_set(sq) {
            Some(Piece::Pawn)
        } else if self.pieces[1].is_set(sq) {
            Some(Piece::Knight)
        } else if self.pieces[2].is_set(sq) {
            Some(Piece::Bishop)
        } else if self.pieces[3].is_set(sq) {
            Some(Piece::Rook)
        } else if self.pieces[4].is_set(sq) {
            Some(Piece::Queen)
        } else if self.pieces[5].is_set(sq) {
            Some(Piece::King)
        } else {
            None
        }
    }

    /// The side of the piece on `sq`, if any.
    pub fn get_colour_on(&self, sq: Square) -> (r: Option<Side>)
        requires
            sq.wf(),
        ensures
            r == self.colour_at(sq.x as int, sq.y as int),
    {
        if self.colours[0].is_set(sq) {
            Some(Side::White)
        } else if self.colours[1].is_set(sq) {
            Some(Side::Black)
        } else {
            None
        }
    }

    /// No piece stands on `sq`.
    pub fn is_empty(&self, sq: Square) -> (r: bool)
        requires
            sq.wf(),
        ensures
            r == !self.occupied(sq.x as int, sq.y as int),
    {
        !(self.colours[0] | self.colours[1]).is_set(sq)
    }

    /// The occupied squares, as a set.
    pub open spec fn occ_bb(&self) -> Bitboard {
        Bitboard(self.colours[0].0 | self.colours[1].0)
    }

    /// The squares that either side occupies.
    pub fn occupancy(&self) -> (r: Bitboard)
        ensures
            r == self.occ_bb(),
            forall|x: int, y: int| #[trigger] r.has(x, y) == self.occupied(x, y),
    {
        self.colours[0] | self.colours[1]
    }

    /// Place a piece of `side` and kind `piece` on the empty square `sq`.
    pub fn set_piece(&mut self, sq: Square, side: Side, piece: Piece)
        requires
            sq.wf(),
            old(self).wf(),
            !old(self).occupied(sq.x as int, sq.y as int),
        ensures
            final(self).wf(),
            final(self).at(sq.x as int, sq.y as int) == Some((side, piece)),
            final(self).holds(side, piece, sq.x as int, sq.y as int),
            final(self).same_board_except(old(self), sq.x as int, sq.y as int),
            forall|x: int, y: int|
                !(x == sq.x && y == sq.y) ==> #[trigger] final(self).at(x, y) == old(self).at(x, y),
            final(self).same_state(old(self)),
    {
        let si = side_index(side);
        let pi = piece_index(piece);
        let mut c = self.colours[si];
        c.set(sq);
        self.colours[si] = c;
        let mut b = self.pieces[pi];
        b.set(sq);
        self.pieces[pi] = b;
        proof {
            assert forall|x: int, y: int| #[trigger] self.square_consistent(x, y) by {
                assert(old(self).square_consistent(x, y));
            }
            self.lemma_at_holds(sq.x as int, sq.y as int);
            assert(self.holds(side, piece, sq.x as int, sq.y as int));
        }
    }

    /// Remove whatever stands on `sq`.
    pub fn clear_square(&mut self, sq: Square)
        requires
            sq.wf(),
        ensures
            old(self).wf() ==> final(self).wf(),
            !final(self).occupied(sq.x as int, sq.y as int),
            final(self).at(sq.x as int, sq.y as int) == None::<(Side, Piece)>,
            final(self).kinds_on(sq.x as int, sq.y as int) == 0,
            final(self).same_board_except(old(self), sq.x as int, sq.y as int),
            forall|x: int, y: int|
                !(x == sq.x && y == sq.y) ==> #[trigger] final(self).at(x, y) == old(self).at(x, y),
            final(self).same_state(old(self)),
    {
        let mut i: usize = 0;
        while i < 2
            invariant
                i <= 2,
                sq.wf(),
                forall|j: int| 0 <= j < i ==> !#[trigger] self.colours[j].has(sq.x as int, sq.y as int),
                forall|j: int, x: int, y: int| #![trigger self.colours[j].has(x, y)]
                    0 <= j < 2 && !(x == sq.x && y == sq.y) ==> self.colours[j].has(x, y)
                        == old(self).colours[j].has(x, y),
                forall|j: int| i <= j < 2 ==> self.colours[j] == old(self).colours[j],
                self.pieces == old(self).pieces,
                self.same_state(old(self)),
            decreases 2 - i,
        {
            let mut c = self.colours[i];
            c.unset(sq);
            self.colours[i] = c;
            i = i + 1;
        }
        let mut i: usize = 0;
        while i < 6
            invariant
                i <= 6,
                sq.wf(),
                forall|j: int| 0 <= j < 2 ==> !#[trigger] self.colours[j].has(sq.x as int, sq.y as int),
                forall|j: int| 0 <= j < i ==> !#[trigger] self.pieces[j].has(sq.x as int, sq.y as int),
                forall|j: int, x: int, y: int| #![trigger self.colours[j].has(x, y)]
                    0 <= j < 2 && !(x == sq.x && y == sq.y) ==> self.colours[j].has(x, y)
                        == old(self).colours[j].has(x, y),
                forall|j: int, x: int, y: int| #![trigger self.pieces[j].has(x, y)]
                    0 <= j < 6 && !(x == sq.x && y == sq.y) ==> self.pieces[j].has(x, y)
                        == old(self).pieces[j].has(x, y),
                forall|j: int| i <= j < 6 ==> self.pieces[j] == old(self).pieces[j],
                self.same_state(old(self)),
            decreases 6 - i,
        {
            let mut b = self.pieces[i];
            b.unset(sq);
            self.pieces[i] = b;
            i = i + 1;
        }
        proof {
            let (sx, sy) = (sq.x as int, sq.y as int);
            assert(!self.colours[0].has(sx, sy) && !self.colours[1].has(sx, sy));
            assert(!self.pieces[0].has(sx, sy) && !self.pieces[1].has(sx, sy) && !self.pieces[2].has(sx, sy));
            assert(!self.pieces[3].has(sx, sy) && !self.pieces[4].has(sx, sy) && !self.pieces[5].has(sx, sy));
            if old(self).wf() {
                assert forall|x: int, y: int| #[trigger] self.square_consistent(x, y) by {
                    assert(old(self).square_consistent(x, y));
                    if !(x == sx && y == sy) {
                        assert(self.colours[0].has(x, y) == old(self).colours[0].has(x, y));
                        assert(self.colours[1].has(x, y) == old(self).colours[1].has(x, y));
                        assert(self.pieces[0].has(x, y) == old(self).pieces[0].has(x, y));
                        assert(self.pieces[1].has(x, y) == old(self).pieces[1].has(x, y));
                        assert(self.pieces[2].has(x, y) == old(self).pieces[2].has(x, y));
                        assert(self.pieces[3].has(x, y) == old(self).pieces[3].has(x, y));
                        assert(self.pieces[4].has(x, y) == old(self).pieces[4].has(x, y));
                        assert(self.pieces[5].has(x, y) == old(self).pieces[5].has(x, y));
                    }
                }
            }
            assert forall|x: int, y: int| !(x == sx && y == sy) implies {
                &&& #[trigger] self.colours[0].has(x, y) == old(self).colours[0].has(x, y)
                &&& self.colours[1].has(x, y) == old(self).colours[1].has(x, y)
                &&& self.pieces[0].has(x, y) == old(self).pieces[0].has(x, y)
                &&& self.pieces[1].has(x, y) == old(self).pieces[1].has(x, y)
                &&& self.pieces[2].has(x, y) == old(self).pieces[2].has(x, y)
                &&& self.pieces[3].has(x, y) == old(self).pieces[3].has(x, y)
                &&& self.pieces[4].has(x, y) == old(self).pieces[4].has(x, y)
                &&& self.pieces[5].has(x, y) == old(self).pieces[5].has(x, y)
            } by {}
        }
    }
}

impl Default for Position {
    fn default() -> (r: Self)
        ensures
            r.wf(),
            forall|x: int, y: int| !#[trigger] r.occupied(x, y),
            r.turn == Side::White,
            r.halfmoves == 0,
            r.fullmoves == 0,
            r.ep == None::<Square>,
            r.castling == [false, false, false, false],
    {
        let e = Bitboard::from_empty();
        let r = Position {
            colours: [e, e],
            pieces: [e, e, e, e, e, e],
            turn: Side::White,
            halfmoves: 0,
            fullmoves: 0,
            ep: None,
            castling: [false, false, false, false],
        };
        proof {
            assert forall|x: int, y: int| #[trigger] r.square_consistent(x, y) by {
                assert(!e.has(x, y));
            }
        }
        r
    }
}

} // verus!
