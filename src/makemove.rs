use vstd::prelude::*;

use crate::is_attacked::forward;
use crate::movegen::start_rank;
use crate::mv::{promo_kind, promo_piece, Mv};
use crate::position::{side_index, Position};
use crate::square::{on_board, Square};
use crate::{opponent, Piece, Side};

verus! {

/// The rank on which the pieces of `s` start.
pub open spec fn back_rank(s: Side) -> int {
    match s {
        Side::White => 0,
        Side::Black => 7,
    }
}

/// `mv` starts or ends on `(x, y)`.
pub open spec fn touches(mv: Mv, x: int, y: int) -> bool {
    (mv.from.x == x && mv.from.y == y) || (mv.to.x == x && mv.to.y == y)
}

/// `mv` starts on `(x, y)`.
pub open spec fn starts_on(mv: Mv, x: int, y: int) -> bool {
    mv.from.x == x && mv.from.y == y
}

impl Position {
    /// No king of side `s` is attacked by the other side.
    pub open spec fn king_safe(&self, s: Side) -> bool {
        forall|x: int, y: int| #[trigger]
            self.holds(s, Piece::King, x, y) ==> !self.attacked(x, y, opponent(s))
    }

    /// `mv` may be applied: the board is consistent, both squares are on it, the origin
    /// holds a piece of the side to move, and the halfmove clock can still count up.
    pub open spec fn can_apply(&self, mv: Mv) -> bool {
        &&& self.wf()
        &&& mv.from.wf()
        &&& mv.to.wf()
        &&& self.colour_at(mv.from.x as int, mv.from.y as int) == Some(self.turn)
        &&& self.halfmoves < 255
    }

    /// The kind of piece on the origin of `mv`.
    pub open spec fn moving_kind(&self, mv: Mv) -> Piece {
        match self.piece_at(mv.from.x as int, mv.from.y as int) {
            Some(p) => p,
            None => Piece::Pawn,
        }
    }

    /// The kind of piece that `mv` leaves on its destination.
    pub open spec fn placed_kind(&self, mv: Mv) -> Piece {
        match mv.promo {
            Some(pp) => promo_kind(pp),
            None => self.moving_kind(mv),
        }
    }

    /// `mv` is a pawn capture onto the en-passant square, and the pawn that passed over it
    /// stands on the board.
    pub open spec fn is_ep_capture(&self, mv: Mv) -> bool {
        &&& self.moving_kind(mv) == Piece::Pawn
        &&& self.ep == Some(mv.to)
        &&& on_board(mv.to.x as int, mv.to.y - forward(self.turn))
    }

    /// For a castling move, the files that the rook leaves and enters on the mover's back
    /// rank.
    pub open spec fn castle_rook(&self, mv: Mv) -> Option<(int, int)> {
        let home = back_rank(self.turn);
        if self.moving_kind(mv) == Piece::King && mv.from.x == 4 && mv.from.y == home
            && mv.to.y == home {
            if mv.to.x == 6 {
                Some((7, 5))
            } else if mv.to.x == 2 {
                Some((0, 3))
            } else {
                None
            }
        } else {
            None
        }
    }

    /// What stands on `(x, y)` once `mv` has been applied.
    pub open spec fn moved_at(&self, mv: Mv, x: int, y: int) -> Option<(Side, Piece)> {
        let side = self.turn;
        if x == mv.to.x && y == mv.to.y {
            Some((side, self.placed_kind(mv)))
        } else if x == mv.from.x && y == mv.from.y {
            None
        } else if self.is_ep_capture(mv) && x == mv.to.x && y == mv.to.y - forward(side) {
            None
        } else {
            match self.castle_rook(mv) {
                Some((rf, rt)) => if y == back_rank(side) && x == rf {
                    None
                } else if y == back_rank(side) && x == rt {
                    Some((side, Piece::Rook))
                } else {
                    self.at(x, y)
                },
                None => self.at(x, y),
            }
        }
    }

    /// The en-passant square once `mv` has been applied: the square passed over by a
    /// pawn's double step, else none.
    pub open spec fn ep_after(&self, mv: Mv) -> Option<Square> {
        if self.moving_kind(mv) == Piece::Pawn && self.turn == Side::White && mv.from.y == 1
            && mv.to.y == 3 {
            Some(Square { x: mv.from.x, y: 2 })
        } else if self.moving_kind(mv) == Piece::Pawn && self.turn == Side::Black && mv.from.y
            == 6 && mv.to.y == 4 {
            Some(Square { x: mv.from.x, y: 5 })
        } else {
            None
        }
    }

    /// The halfmove clock once `mv` has been applied: reset by a pawn move or a capture,
    /// else one more.
    pub open spec fn halfmoves_after(&self, mv: Mv) -> int {
        if self.moving_kind(mv) == Piece::Pawn || self.occupied(mv.to.x as int, mv.to.y as int) {
            0
        } else {
            self.halfmoves + 1
        }
    }

    /// Castling right `i` (in the order white king side, white queen side, black king
    /// side, black queen side) survives `mv`: the move neither leaves nor enters the home
    /// square of that right's rook, and does not leave that side's king's home square.
    pub open spec fn right_survives(mv: Mv, i: int) -> bool {
        let y = if i < 2 {
            0int
        } else {
            7int
        };
        let rook_x = if i % 2 == 0 {
            7int
        } else {
            0int
        };
        !touches(mv, rook_x, y) && !starts_on(mv, 4, y)
    }

    /// `after` is the position that applying `mv` to `self` leaves: the board changed as
    /// `moved_at` says, the other side to move, the clocks, en-passant square and castling
    /// rights updated.
    pub open spec fn applies(&self, mv: Mv, after: Position) -> bool {
        &&& after.wf()
        &&& forall|x: int, y: int| #[trigger] after.at(x, y) == self.moved_at(mv, x, y)
        &&& after.turn == opponent(self.turn)
        &&& after.halfmoves == self.halfmoves_after(mv)
        &&& after.fullmoves == self.fullmoves
        &&& after.ep == self.ep_after(mv)
        &&& forall|i: int|
            0 <= i < 4 ==> #[trigger] after.castling[i] == (self.castling[i]
                && Self::right_survives(mv, i))
    }

    /// Whether no king of `side` is attacked.
    pub fn is_king_safe(&self, side: Side) -> (r: bool)
        requires
            self.wf(),
        ensures
            r == self.king_safe(side),
    {
        let opp = std::ops::Not::not(side);
        let mut kings = self.pieces[5] & self.colours[side_index(side)];
        while kings.0 != 0
            invariant
                self.wf(),
                opp == opponent(side),
                forall|x: int, y: int| #[trigger]
                    kings.has(x, y) ==> self.holds(side, Piece::King, x, y),
                forall|x: int, y: int| #[trigger]
                    self.holds(side, Piece::King, x, y) && !kings.has(x, y) ==> !self.attacked(
                        x,
                        y,
                        opp,
                    ),
            decreases kings.0,
        {
            let ghost before = kings;
            let sq = kings.pop_lsb();
            if self.is_attacked(sq, opp) {
                assert(before.has(sq.x as int, sq.y as int));
                assert(self.holds(side, Piece::King, sq.x as int, sq.y as int));
                return false;
            }
        }
        proof {
            kings.lemma_nonempty();
        }
        true
    }

    /// Clear `sq`, then put a piece of `side` and kind `piece` on it.
    fn place(&mut self, sq: Square, side: Side, piece: Piece)
        requires
            sq.wf(),
            old(self).wf(),
        ensures
            final(self).wf(),
            final(self).at(sq.x as int, sq.y as int) == Some((side, piece)),
            forall|x: int, y: int|
                !(x == sq.x && y == sq.y) ==> #[trigger] final(self).at(x, y) == old(self).at(x, y),
            final(self).same_state(old(self)),
    {
        self.clear_square(sq);
        self.set_piece(sq, side, piece);
    }

    /// The board part of `makemove`: move the piece (or what it promotes to), take an
    /// en-passant victim, and move the rook of a castling move.
    fn relocate(&mut self, mv: &Mv, side: Side, piece: Piece)
        requires
            old(self).can_apply(*mv),
            side == old(self).turn,
            piece == old(self).moving_kind(*mv),
        ensures
            final(self).wf(),
            forall|x: int, y: int| #[trigger]
                final(self).at(x, y) == old(self).moved_at(*mv, x, y),
            final(self).same_state(old(self)),
    {
        let is_ep = match self.ep {
            Some(e) => piece == Piece::Pawn && e == mv.to && match side {
                Side::White => mv.to.y >= 1,
                Side::Black => mv.to.y <= 6,
            },
            None => false,
        };
        assert(is_ep == old(self).is_ep_capture(*mv));
        let rook = if piece == Piece::King && mv.from.x == 4 && mv.to.y == mv.from.y && mv.from.y
            == match side {
            Side::White => 0,
            Side::Black => 7,
        } {
            if mv.to.x == 6 {
                Some((7u8, 5u8))
            } else if mv.to.x == 2 {
                Some((0u8, 3u8))
            } else {
                None
            }
        } else {
            None
        };
        assert(rook matches Some(_) <==> old(self).castle_rook(*mv) is Some);
        assert(forall|rf: u8, rt: u8|
            rook == Some((rf, rt)) ==> old(self).castle_rook(*mv) == Some((rf as int, rt as int)));
        // Move the piece, or the piece it promotes to.
        self.clear_square(mv.from);
        let ghost s1 = *self;
        let placed = match mv.promo {
            Some(pp) => promo_piece(pp),
            None => piece,
        };
        self.place(mv.to, side, placed);
        let ghost s2 = *self;
        // An en-passant capture takes the pawn behind the destination.
        if is_ep {
            let victim = match side {
                Side::White => Square::from_file_rank(mv.to.x, mv.to.y - 1),
                Side::Black => Square::from_file_rank(mv.to.x, mv.to.y + 1),
            };
            self.clear_square(victim);
        }
        // Castling also moves the rook.
        if let Some((rf, rt)) = rook {
            self.clear_square(Square::from_file_rank(rf, mv.from.y));
            self.place(Square::from_file_rank(rt, mv.from.y), side, Piece::Rook);
        }
        let ghost s4 = *self;
        proof {
            assert forall|x: int, y: int| #[trigger] s4.at(x, y) == old(self).moved_at(*mv, x, y) by {
                if x == mv.to.x && y == mv.to.y {
                    assert(s2.at(x, y) == Some((side, placed)));
                } else if x == mv.from.x && y == mv.from.y {
                    assert(s1.at(x, y) == None::<(Side, Piece)>);
                }
            }
        }
    }

    /// Drop the castling rights that `mv` voids: a right goes when its rook's home square is
    /// left or entered, and both rights of a side go when its king leaves home.
    fn update_rights(&mut self, mv: &Mv)
        requires
            mv.from.wf(),
            mv.to.wf(),
        ensures
            final(self).colours == old(self).colours,
            final(self).pieces == old(self).pieces,
            final(self).turn == old(self).turn,
            final(self).halfmoves == old(self).halfmoves,
            final(self).fullmoves == old(self).fullmoves,
            final(self).ep == old(self).ep,
            forall|i: int|
                0 <= i < 4 ==> #[trigger] final(self).castling[i] == (old(self).castling[i]
                    && Self::right_survives(*mv, i)),
    {
        let fi = mv.from.get_index();
        let ti = mv.to.get_index();
        if fi == 7 || ti == 7 {
            self.castling[0] = false;
        }
        if fi == 0 || ti == 0 {
            self.castling[1] = false;
        }
        if fi == 4 {
            self.castling[0] = false;
            self.castling[1] = false;
        }
        if fi == 63 || ti == 63 {
            self.castling[2] = false;
        }
        if fi == 56 || ti == 56 {
            self.castling[3] = false;
        }
        if fi == 60 {
            self.castling[2] = false;
            self.castling[3] = false;
        }
    }

    /// Apply `mv` in place and report whether it was legal: true exactly when, afterwards,
    /// no king of the side that moved is attacked. The position is changed either way.
    pub fn makemove(&mut self, mv: &Mv) -> (r: bool)
        requires
            old(self).can_apply(*mv),
        ensures
            old(self).applies(*mv, *final(self)),
            r == final(self).king_safe(old(self).turn),
    {
        let ghost pre = *self;
        let side = self.turn;
        proof {
            self.lemma_at_holds(mv.from.x as int, mv.from.y as int);
            assert(self.square_consistent(mv.from.x as int, mv.from.y as int));
        }
        let piece = self.get_piece_on(mv.from).unwrap();
        let captured = !self.is_empty(mv.to);
        self.relocate(mv, side, piece);
        let ghost s4 = *self;
        if piece == Piece::Pawn || captured {
            self.halfmoves = 0;
        } else {
            self.halfmoves = self.halfmoves + 1;
        }
        self.ep = None;
        if piece == Piece::Pawn && side == Side::White && mv.from.y == 1 && mv.to.y == 3 {
            self.ep = Some(Square::from_file_rank(mv.from.x, 2));
        }
        if piece == Piece::Pawn && side == Side::Black && mv.from.y == 6 && mv.to.y == 4 {
            self.ep = Some(Square::from_file_rank(mv.from.x, 5));
        }
        self.update_rights(mv);
        self.turn = std::ops::Not::not(side);
        proof {
            assert(self.colours == s4.colours && self.pieces == s4.pieces);
            assert forall|x: int, y: int| #[trigger] self.square_consistent(x, y) by {
                assert(s4.square_consistent(x, y));
            }
            assert forall|x: int, y: int| #[trigger] self.at(x, y) == s4.at(x, y) by {}
        }
        self.is_king_safe(side)
    }
}

/// En passant: when a pawn's double step from `p0` leaves `p1`, and a pawn of the other side
/// then captures onto the square passed over, leaving `p2`, the pawn that stepped is removed
/// and the capturing pawn stands on the square passed over.
pub proof fn lemma_en_passant(p0: Position, step: Mv, p1: Position, capture: Mv, p2: Position)
    requires
        p0.can_apply(step),
        p0.moving_kind(step) == Piece::Pawn,
        step.promo is None,
        step.to.x == step.from.x,
        step.from.y == start_rank(p0.turn),
        step.to.y == step.from.y + 2 * forward(p0.turn),
        p0.applies(step, p1),
        p1.can_apply(capture),
        p1.moving_kind(capture) == Piece::Pawn,
        capture.promo is None,
        capture.to.x == step.from.x,
        capture.to.y == step.from.y + forward(p0.turn),
        p1.applies(capture, p2),
    ensures
        p2.at(step.to.x as int, step.to.y as int) is None,
        p2.at(capture.to.x as int, capture.to.y as int) == Some((p1.turn, Piece::Pawn)),
{
    assert(capture.to == Square { x: step.from.x, y: capture.to.y });
    assert(p1.ep == Some(capture.to));
    assert(p1.is_ep_capture(capture));
    assert(p2.at(step.to.x as int, step.to.y as int) == p1.moved_at(
        capture,
        step.to.x as int,
        step.to.y as int,
    ));
    assert(p2.at(capture.to.x as int, capture.to.y as int) == p1.moved_at(
        capture,
        capture.to.x as int,
        capture.to.y as int,
    ));
}

/// En passant, one move: a pawn capture onto the en-passant square removes the pawn behind
/// that square (the one that passed over it), puts the capturing pawn (or its promotion)
/// on the destination, empties the origin (when it differs from the destination), leaves every other square as it was, and resets
/// the halfmove clock.
pub proof fn lemma_en_passant_capture(p: Position, m: Mv, after: Position)
    requires
        p.can_apply(m),
        p.moving_kind(m) == Piece::Pawn,
        p.ep == Some(m.to),
        on_board(m.to.x as int, m.to.y - forward(p.turn)),
        p.applies(m, after),
    ensures
        after.at(m.to.x as int, m.to.y - forward(p.turn)) is None,
        after.at(m.to.x as int, m.to.y as int) == Some((p.turn, p.placed_kind(m))),
        m.from != m.to ==> after.at(m.from.x as int, m.from.y as int) is None,
        forall|x: int, y: int|
            !(x == m.to.x && y == m.to.y) && !(x == m.from.x && y == m.from.y) && !(x == m.to.x
                && y == m.to.y - forward(p.turn)) ==> #[trigger] after.at(x, y) == p.at(x, y),
        after.halfmoves == 0,
{
    assert(p.is_ep_capture(m));
    assert(p.castle_rook(m) is None);
    assert(after.at(m.to.x as int, m.to.y - forward(p.turn)) == p.moved_at(
        m,
        m.to.x as int,
        m.to.y - forward(p.turn),
    ));
    assert(after.at(m.to.x as int, m.to.y as int) == p.moved_at(
        m,
        m.to.x as int,
        m.to.y as int,
    ));
    assert(after.at(m.from.x as int, m.from.y as int) == p.moved_at(
        m,
        m.from.x as int,
        m.from.y as int,
    ));
}

} // verus!
