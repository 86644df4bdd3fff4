use vstd::prelude::*;

use crate::bitboard::{king_step, Bitboard};
use crate::is_attacked::{forward, piece_attacks};
use crate::mv::{Mv, PromoPiece};
use crate::position::{side_idx, side_index, Position};
use crate::square::{on_board, Square};
use crate::{opponent, Piece, Side};

verus! {

/// The rank on which pawns of `s` promote.
pub open spec fn promo_rank(s: Side) -> int {
    match s {
        Side::White => 7,
        Side::Black => 0,
    }
}

/// The rank from which pawns of `s` may step twice.
pub open spec fn start_rank(s: Side) -> int {
    match s {
        Side::White => 1,
        Side::Black => 6,
    }
}

/// `list` holds `m`.
pub open spec fn listed(list: Seq<Mv>, m: Mv) -> bool {
    list.contains(m)
}

/// `list` holds no move from `from`.
pub open spec fn fresh_from(list: Seq<Mv>, from: Square) -> bool {
    forall|m: Mv| #[trigger] listed(list, m) ==> m.from != from
}

/// Append `m` to `list`.
fn push_move(list: &mut Vec<Mv>, m: Mv)
    ensures
        final(list)@ == old(list)@.push(m),
        forall|m2: Mv| #[trigger]
            listed(final(list)@, m2) == (listed(old(list)@, m2) || m2 == m),
        old(list)@.no_duplicates() && !listed(old(list)@, m) ==> final(list)@.no_duplicates(),
{
    let ghost before = list@;
    list.push(m);
    proof {
        assert forall|m2: Mv| #[trigger] listed(list@, m2) == (listed(before, m2) || m2 == m) by {
            if listed(before, m2) {
                let i = choose|i: int| 0 <= i < before.len() && before[i] == m2;
                assert(list@[i] == m2);
            }
            if m2 == m {
                assert(list@[before.len() as int] == m2);
            }
            if listed(list@, m2) {
                let i = choose|i: int| 0 <= i < list@.len() && list@[i] == m2;
                if i < before.len() {
                    assert(before[i] == m2);
                }
            }
        }
        if before.no_duplicates() && !listed(before, m) {
            assert forall|i: int, j: int|
                0 <= i < list@.len() && 0 <= j < list@.len() && i != j implies list@[i]
                != list@[j] by {
                if i == before.len() {
                    assert(before[j] == list@[j]);
                } else if j == before.len() {
                    assert(before[i] == list@[i]);
                }
            }
        }
    }
}

/// Append the four promotions of a pawn move from `from` to `to`, queen first.
fn push_promotions(movelist: &mut Vec<Mv>, from: Square, to: Square)
    ensures
        final(movelist)@ == old(movelist)@ + seq![
            Mv { from, to, promo: Some(PromoPiece::Queen) },
            Mv { from, to, promo: Some(PromoPiece::Rook) },
            Mv { from, to, promo: Some(PromoPiece::Bishop) },
            Mv { from, to, promo: Some(PromoPiece::Knight) },
        ],
        old(movelist)@.no_duplicates() && (forall|m: Mv| #[trigger]
            listed(old(movelist)@, m) ==> !(m.from == from && m.to == to))
            ==> final(movelist)@.no_duplicates(),
        forall|m: Mv| #[trigger]
            listed(final(movelist)@, m) == (listed(old(movelist)@, m) || (m.from == from && m.to
                == to && m.promo is Some)),
{
    let ghost l0 = movelist@;
    push_move(movelist, Mv { from, to, promo: Some(PromoPiece::Queen) });
    let ghost l1 = movelist@;
    push_move(movelist, Mv { from, to, promo: Some(PromoPiece::Rook) });
    let ghost l2 = movelist@;
    push_move(movelist, Mv { from, to, promo: Some(PromoPiece::Bishop) });
    let ghost l3 = movelist@;
    push_move(movelist, Mv { from, to, promo: Some(PromoPiece::Knight) });
    proof {
        assert forall|m: Mv| #[trigger]
            listed(movelist@, m) == (listed(l0, m) || (m.from == from && m.to == to
                && m.promo is Some)) by {
            assert(listed(l1, m) == (listed(l0, m) || m == Mv { from, to, promo: Some(PromoPiece::Queen) }));
            assert(listed(l2, m) == (listed(l1, m) || m == Mv { from, to, promo: Some(PromoPiece::Rook) }));
            assert(listed(l3, m) == (listed(l2, m) || m == Mv { from, to, promo: Some(PromoPiece::Bishop) }));
            if m.from == from && m.to == to {
                match m.promo {
                    Some(pp) => {
                        assert(m == Mv { from, to, promo: Some(pp) });
                    },
                    None => {},
                }
            }
        }
        assert(movelist@ =~= l0 + seq![
            Mv { from, to, promo: Some(PromoPiece::Queen) },
            Mv { from, to, promo: Some(PromoPiece::Rook) },
            Mv { from, to, promo: Some(PromoPiece::Bishop) },
            Mv { from, to, promo: Some(PromoPiece::Knight) },
        ]);
    }
}

/// Append one move from `from` to each member of `targets`.
fn push_targets(movelist: &mut Vec<Mv>, from: Square, targets: Bitboard)
    requires
        old(movelist)@.no_duplicates(),
        fresh_from(old(movelist)@, from),
    ensures
        final(movelist)@.no_duplicates(),
        forall|m: Mv| #[trigger]
            listed(final(movelist)@, m) == (listed(old(movelist)@, m) || (m.from == from
                && m.promo is None && targets.has(m.to.x as int, m.to.y as int))),
{
    let ghost before = movelist@;
    let mut rest = targets;
    while rest.0 != 0
        invariant
            movelist@.no_duplicates(),
            fresh_from(before, from),
            forall|x: int, y: int| #[trigger] rest.has(x, y) ==> targets.has(x, y),
            forall|m: Mv| #[trigger]
                listed(movelist@, m) == (listed(before, m) || (m.from == from && m.promo is None
                    && targets.has(m.to.x as int, m.to.y as int) && !rest.has(
                    m.to.x as int,
                    m.to.y as int,
                ))),
        decreases rest.0,
    {
        let ghost old_rest = rest;
        let ghost l0 = movelist@;
        let to = rest.pop_lsb();
        proof {
            assert(old_rest.has(to.x as int, to.y as int));
            assert(!listed(l0, Mv { from, to, promo: None }));
        }
        push_move(movelist, Mv { from, to, promo: None });
        proof {
            assert forall|m: Mv| #[trigger]
                listed(movelist@, m) == (listed(before, m) || (m.from == from && m.promo is None
                    && targets.has(m.to.x as int, m.to.y as int) && !rest.has(
                    m.to.x as int,
                    m.to.y as int,
                ))) by {
                assert(listed(movelist@, m) == (listed(l0, m) || m == Mv { from, to, promo: None }));
                if m.from == from && m.promo is None && m.to.x == to.x && m.to.y == to.y {
                    assert(m.to == to);
                    assert(m == Mv { from, to, promo: None });
                }
                assert(old_rest.has(to.x as int, to.y as int));
            }
        }
    }
    proof {
        rest.lemma_nonempty();
    }
}

impl Position {
    /// A piece of the side to move stands on `(x, y)`.
    pub open spec fn own_has(&self, x: int, y: int) -> bool {
        self.colours[side_idx(self.turn)].has(x, y)
    }

    /// A piece of the side not to move stands on `(x, y)`.
    pub open spec fn enemy_has(&self, x: int, y: int) -> bool {
        self.colours[side_idx(opponent(self.turn))].has(x, y)
    }

    /// `m` is a move of a pawn of the side to move on its origin: one step forward onto an
    /// empty square, two from the start rank across two empty squares, or one diagonally
    /// forward onto an enemy piece or the en-passant square. A move onto the last rank
    /// carries a promotion, and no other move does.
    pub open spec fn pawn_move(&self, m: Mv) -> bool {
        let s = self.turn;
        let f = forward(s);
        let fx = m.from.x as int;
        let fy = m.from.y as int;
        let tx = m.to.x as int;
        let ty = m.to.y as int;
        &&& on_board(tx, ty)
        &&& (m.promo is Some <==> ty == promo_rank(s))
        &&& {
            ||| (tx == fx && ty == fy + f && !self.occupied(tx, ty))
            ||| (tx == fx && fy == start_rank(s) && ty == fy + 2 * f && !self.occupied(fx, fy + f)
                && !self.occupied(tx, ty))
            ||| ((tx == fx + 1 || tx == fx - 1) && ty == fy + f && (self.enemy_has(tx, ty)
                || self.ep == Some(m.to)))
        }
    }

    /// `m` is a move of a piece of kind `p` of the side to move on its origin; castling
    /// aside.
    pub open spec fn piece_move(&self, p: Piece, m: Mv) -> bool {
        match p {
            Piece::Pawn => self.pawn_move(m),
            _ => {
                &&& m.promo is None
                &&& !self.own_has(m.to.x as int, m.to.y as int)
                &&& on_board(m.to.x as int, m.to.y as int)
                &&& piece_attacks(
                    self.occ_bb(),
                    self.turn,
                    p,
                    m.from.x as int,
                    m.from.y as int,
                    m.to.x as int,
                    m.to.y as int,
                )
            },
        }
    }

    /// `m` moves a piece of the side to move as its kind allows, castling aside; it may
    /// leave the mover's king attacked.
    pub open spec fn basic_move(&self, m: Mv) -> bool {
        &&& m.from.wf()
        &&& m.to.wf()
        &&& match self.at(m.from.x as int, m.from.y as int) {
            Some((s, p)) => s == self.turn && self.piece_move(p, m),
            None => false,
        }
    }

    /// `(x, y)` is empty and the side not to move does not attack it.
    pub open spec fn free_and_safe(&self, x: int, y: int) -> bool {
        !self.occupied(x, y) && !self.attacked(x, y, opponent(self.turn))
    }

    /// `m` is a castling move of the side to move: its king stands on its home square, the
    /// right is held, no king of the mover is attacked, the squares between king and rook are empty, and the squares the king
    /// passes over and lands on are not attacked.
    pub open spec fn castle_move(&self, m: Mv) -> bool {
        let s = self.turn;
        let r = if s == Side::White {
            0int
        } else {
            7int
        };
        let ks = if s == Side::White {
            0int
        } else {
            2int
        };
        &&& m.promo is None
        &&& m.from.x == 4 && m.from.y == r
        &&& self.at(4, r) == Some((s, Piece::King))
        &&& self.king_safe(s)
        &&& {
            ||| (self.castling[ks] && m.to.x == 6 && m.to.y == r && self.free_and_safe(5, r)
                && self.free_and_safe(6, r))
            ||| (self.castling[ks + 1] && m.to.x == 2 && m.to.y == r && self.free_and_safe(3, r)
                && self.free_and_safe(2, r) && !self.occupied(1, r))
        }
    }

    /// `m` is a pseudolegal move: structurally valid for the side to move, whether or not
    /// it leaves the mover's king attacked.
    pub open spec fn is_pseudolegal(&self, m: Mv) -> bool {
        self.basic_move(m) || self.castle_move(m)
    }

    /// Append the pawn moves from `from`, a square holding a pawn of the side to move.
    fn generate_pawn(&self, movelist: &mut Vec<Mv>, from: Square)
        requires
            self.wf(),
            from.wf(),
            self.at(from.x as int, from.y as int) == Some((self.turn, Piece::Pawn)),
            old(movelist)@.no_duplicates(),
            fresh_from(old(movelist)@, from),
        ensures
            final(movelist)@.no_duplicates(),
            forall|m: Mv| #[trigger]
                listed(final(movelist)@, m) == (listed(old(movelist)@, m) || (m.from == from
                    && self.pawn_move(m))),
    {
        let ghost before = movelist@;
        let white = match self.turn {
            Side::White => true,
            Side::Black => false,
        };
        if (white && from.y == 7) || (!white && from.y == 0) {
            return;
        }
        let enemy = self.colours[side_index(std::ops::Not::not(self.turn))];
        let ny = if white {
            from.y + 1
        } else {
            from.y - 1
        };
        let is_promo = if white {
            ny == 7
        } else {
            ny == 0
        };
        // Captures, en passant included.
        if from.x > 0 {
            let to = Square::from_file_rank(from.x - 1, ny);
            let is_ep = match self.ep {
                Some(e) => e == to,
                None => false,
            };
            if is_ep || enemy.is_set(to) {
                if is_promo {
                    push_promotions(movelist, from, to);
                } else {
                    push_move(movelist, Mv { from, to, promo: None });
                }
            }
        }
        let ghost after_left = movelist@;
        if from.x < 7 {
            let to = Square::from_file_rank(from.x + 1, ny);
            let is_ep = match self.ep {
                Some(e) => e == to,
                None => false,
            };
            if is_ep || enemy.is_set(to) {
                if is_promo {
                    push_promotions(movelist, from, to);
                } else {
                    push_move(movelist, Mv { from, to, promo: None });
                }
            }
        }
        let ghost after_right = movelist@;
        let single = Square::from_file_rank(from.x, ny);
        let single_free = self.is_empty(single);
        // The double step.
        if (white && from.y == 1) || (!white && from.y == 6) {
            let dy = if white {
                ny + 1
            } else {
                ny - 1
            };
            let double = Square::from_file_rank(from.x, dy);
            if single_free && self.is_empty(double) {
                push_move(movelist, Mv { from, to: double, promo: None });
            }
        }
        let ghost after_double = movelist@;
        // The single step.
        if single_free {
            if is_promo {
                push_promotions(movelist, from, single);
            } else {
                push_move(movelist, Mv { from, to: single, promo: None });
            }
        }
        proof {
            assert forall|m: Mv| #[trigger]
                listed(movelist@, m) == (listed(before, m) || (m.from == from && self.pawn_move(
                    m,
                ))) by {
                assert(listed(after_left, m) ==> listed(after_right, m));
                assert(listed(after_right, m) ==> listed(after_double, m));
                assert(listed(after_double, m) ==> listed(movelist@, m));
            }
        }
    }

    /// Append the moves of the piece of kind `piece` that the side to move has on `from`;
    /// castling aside.
    fn generate_from(&self, movelist: &mut Vec<Mv>, from: Square, piece: Piece)
        requires
            self.wf(),
            from.wf(),
            self.at(from.x as int, from.y as int) == Some((self.turn, piece)),
            old(movelist)@.no_duplicates(),
            fresh_from(old(movelist)@, from),
        ensures
            final(movelist)@.no_duplicates(),
            forall|m: Mv| #[trigger]
                listed(final(movelist)@, m) == (listed(old(movelist)@, m) || (m.from == from
                    && self.piece_move(piece, m))),
    {
        let occ = self.occupancy();
        let not_own = std::ops::Not::not(self.colours[side_index(self.turn)]);
        match piece {
            Piece::Pawn => self.generate_pawn(movelist, from),
            Piece::Knight => push_targets(movelist, from, Bitboard::mask_knight(from, occ) & not_own),
            Piece::Bishop => push_targets(movelist, from, Bitboard::mask_bishop(from, occ) & not_own),
            Piece::Rook => push_targets(movelist, from, Bitboard::mask_rook(from, occ) & not_own),
            Piece::Queen => push_targets(movelist, from, Bitboard::mask_queen(from, occ) & not_own),
            Piece::King => push_targets(movelist, from, Bitboard::mask_king(from, occ) & not_own),
        }
    }

    /// Append the castling moves of the side to move.
    fn generate_castling(&self, movelist: &mut Vec<Mv>)
        requires
            self.wf(),
            old(movelist)@.no_duplicates(),
            forall|m: Mv| #[trigger] listed(old(movelist)@, m) ==> !self.castle_move(m),
        ensures
            final(movelist)@.no_duplicates(),
            forall|m: Mv| #[trigger]
                listed(final(movelist)@, m) == (listed(old(movelist)@, m) || self.castle_move(m)),
    {
        let side = self.turn;
        let opp = std::ops::Not::not(side);
        let white = match side {
            Side::White => true,
            Side::Black => false,
        };
        let r: u8 = if white {
            0
        } else {
            7
        };
        let ks: usize = if white {
            0
        } else {
            2
        };
        let e = Square::from_file_rank(4, r);
        let king_home = matches!(self.get_piece_on(e), Some(Piece::King)) && match self.get_colour_on(e) {
            Some(s) => s == side,
            None => false,
        };
        if !king_home || !self.is_king_safe(side) {
            return;
        }
        let ghost l0 = movelist@;
        let b = Square::from_file_rank(1, r);
        let c = Square::from_file_rank(2, r);
        let d = Square::from_file_rank(3, r);
        let f = Square::from_file_rank(5, r);
        let g = Square::from_file_rank(6, r);
        let king_side = Mv { from: e, to: g, promo: None };
        let queen_side = Mv { from: e, to: c, promo: None };
        if self.castling[ks] && self.is_empty(f) && self.is_empty(g) && !self.is_attacked(f, opp)
            && !self.is_attacked(g, opp) {
            proof {
                assert(self.castle_move(king_side));
            }
            push_move(movelist, king_side);
        }
        let ghost l1 = movelist@;
        if self.castling[ks + 1] && self.is_empty(d) && self.is_empty(c) && self.is_empty(b)
            && !self.is_attacked(d, opp) && !self.is_attacked(c, opp) {
            proof {
                assert(self.castle_move(queen_side));
                assert(king_side != queen_side);
            }
            push_move(movelist, queen_side);
        }
        proof {
            assert forall|m: Mv| #[trigger]
                listed(movelist@, m) == (listed(l0, m) || self.castle_move(m)) by {
                if m.promo is None && m.from.x == 4 && m.from.y == r {
                    assert(m.from == e);
                    if m.to.x == 6 && m.to.y == r {
                        assert(m.to == g);
                        assert(m == king_side);
                    }
                    if m.to.x == 2 && m.to.y == r {
                        assert(m.to == c);
                        assert(m == queen_side);
                    }
                }
                assert(listed(l1, m) ==> listed(movelist@, m));
            }
        }
    }

    /// Every pseudolegal move of the side to move (moves that may leave the mover's king
    /// attacked included), in no promised order.
    pub fn pseudolegal_moves(&self) -> (r: Vec<Mv>)
        requires
            self.wf(),
        ensures
            forall|m: Mv| #[trigger] listed(r@, m) == self.is_pseudolegal(m),
            r@.no_duplicates(),
    {
        let mut movelist: Vec<Mv> = Vec::new();
        let mut i: u8 = 0;
        while i < 64
            invariant
                self.wf(),
                i <= 64,
                movelist@.no_duplicates(),
                forall|m: Mv| #[trigger]
                    listed(movelist@, m) == (self.basic_move(m) && m.from.index() < i),
            decreases 64 - i,
        {
            let from = Square::from_index(i);
            let ghost l0 = movelist@;
            let mine = match self.get_colour_on(from) {
                Some(s) => s == self.turn,
                None => false,
            };
            proof {
                self.lemma_at_holds(from.x as int, from.y as int);
                assert(self.square_consistent(from.x as int, from.y as int));
            }
            if mine {
                proof {
                    assert forall|m: Mv| #[trigger] listed(movelist@, m) implies m.from != from by {
                        if m.from == from {
                            assert(m.from.index() == i);
                        }
                    }
                }
                let piece = self.get_piece_on(from).unwrap();
                self.generate_from(&mut movelist, from, piece);
            }
            proof {
                assert forall|m: Mv| #[trigger]
                    listed(movelist@, m) == (self.basic_move(m) && m.from.index() < i + 1) by {
                    if m.from.wf() && m.from.index() == i {
                        assert(m.from.x == from.x && m.from.y == from.y);
                        assert(m.from == from);
                    }
                    if m.from == from {
                        assert(m.from.index() == i);
                    }
                }
            }
            i = i + 1;
        }
        proof {
            assert forall|m: Mv| #[trigger] listed(movelist@, m) implies !self.castle_move(m) by {
                if self.castle_move(m) {
                    assert(self.at(m.from.x as int, m.from.y as int) == Some(
                        (self.turn, Piece::King),
                    ));
                    assert(!king_step(
                        m.from.x as int,
                        m.from.y as int,
                        m.to.x as int,
                        m.to.y as int,
                    ));
                }
            }
        }
        self.generate_castling(&mut movelist);
        movelist
    }
}

/// The home rank of the pieces of `s`.
pub open spec fn home_rank(s: Side) -> u8 {
    match s {
        Side::White => 0,
        Side::Black => 7,
    }
}

/// The king move of side `s` from the e-file to file `to_x` of its home rank.
pub open spec fn king_move(s: Side, to_x: u8) -> Mv {
    Mv {
        from: Square { x: 4, y: home_rank(s) },
        to: Square { x: to_x, y: home_rank(s) },
        promo: None,
    }
}

/// Castling is offered exactly when it is allowed. With a king of the side to move on its
/// home square, its king-side castling move is pseudolegal exactly when that right is held,
/// no king of the side is attacked, and the two squares between king and rook are empty and
/// not attacked. Its queen-side move is pseudolegal exactly when that right is held, no king
/// of the side is attacked, the three squares between king and rook are empty, and the two
/// the king crosses and lands on are not attacked. When that king is the side's only king,
/// "no king of the side is attacked" means that its home square is not attacked.
pub proof fn lemma_castling_offered(pos: Position)
    requires
        pos.wf(),
        pos.at(4, home_rank(pos.turn) as int) == Some((pos.turn, Piece::King)),
    ensures
        pos.is_pseudolegal(king_move(pos.turn, 6)) == (pos.castling[if pos.turn == Side::White {
            0int
        } else {
            2int
        }] && pos.king_safe(pos.turn) && pos.free_and_safe(5, home_rank(pos.turn) as int)
            && pos.free_and_safe(6, home_rank(pos.turn) as int)),
        pos.is_pseudolegal(king_move(pos.turn, 2)) == (pos.castling[if pos.turn == Side::White {
            1int
        } else {
            3int
        }] && pos.king_safe(pos.turn) && !pos.occupied(1, home_rank(pos.turn) as int)
            && pos.free_and_safe(3, home_rank(pos.turn) as int) && pos.free_and_safe(
            2,
            home_rank(pos.turn) as int,
        )),
        (forall|x: int, y: int|
            #[trigger] pos.holds(pos.turn, Piece::King, x, y) ==> x == 4 && y == home_rank(
                pos.turn,
            )) ==> (pos.king_safe(pos.turn) == !pos.attacked(
            4,
            home_rank(pos.turn) as int,
            opponent(pos.turn),
        )),
{
    pos.lemma_at_holds(4, home_rank(pos.turn) as int);
    assert(pos.holds(pos.turn, Piece::King, 4, home_rank(pos.turn) as int));
}

/// Every pseudolegal move can be applied: its squares are on the board and a piece of the
/// side to move stands on its origin (the halfmove clock must still be able to count up).
pub proof fn lemma_pseudolegal_applies(pos: Position, m: Mv)
    requires
        pos.wf(),
        pos.is_pseudolegal(m),
        pos.halfmoves < 255,
    ensures
        pos.can_apply(m),
{
    pos.lemma_at_holds(m.from.x as int, m.from.y as int);
}

} // verus!
