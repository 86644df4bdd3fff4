use vstd::prelude::*;

use crate::bitboard::{
    bishop_reach, is_dir, king_step, knight_jump, lemma_slides_reverse, rook_reach, Bitboard,
};
use crate::position::{side_index, Position};
use crate::square::{on_board, Square};
use crate::{Piece, Side};

verus! {

/// The rank direction in which the pawns of `s` advance.
pub open spec fn forward(s: Side) -> int {
    match s {
        Side::White => 1,
        Side::Black => -1,
    }
}

/// A piece of side `s` and kind `p` on `(ax, ay)` could capture on `(tx, ty)` when `occ` holds
/// the occupied squares.
pub open spec fn piece_attacks(
    occ: Bitboard,
    s: Side,
    p: Piece,
    ax: int,
    ay: int,
    tx: int,
    ty: int,
) -> bool {
    match p {
        Piece::Pawn => ty == ay + forward(s) && (tx == ax + 1 || tx == ax - 1),
        Piece::Knight => knight_jump(ax, ay, tx, ty),
        Piece::Bishop => bishop_reach(occ, ax, ay, tx, ty),
        Piece::Rook => rook_reach(occ, ax, ay, tx, ty),
        Piece::Queen => bishop_reach(occ, ax, ay, tx, ty) || rook_reach(occ, ax, ay, tx, ty),
        Piece::King => king_step(ax, ay, tx, ty),
    }
}

/// Sliding attacks are symmetric: a bishop's (or rook's) ray cast outward from `(ax, ay)`
/// meets `(bx, by)` exactly when the ray cast outward from `(bx, by)` meets `(ax, ay)`.
/// So an attack may be found from the target square as well as from the attacker.
pub proof fn lemma_reach_symmetric(occ: Bitboard, ax: int, ay: int, bx: int, by: int)
    requires
        on_board(ax, ay),
        on_board(bx, by),
    ensures
        bishop_reach(occ, ax, ay, bx, by) == bishop_reach(occ, bx, by, ax, ay),
        rook_reach(occ, ax, ay, bx, by) == rook_reach(occ, bx, by, ax, ay),
{
    assert forall|dx: int, dy: int|
        is_dir(dx, dy) implies #[trigger] crate::bitboard::slides(occ, ax, ay, dx, dy, bx, by)
        == crate::bitboard::slides(occ, bx, by, -dx, -dy, ax, ay) by {
        if crate::bitboard::slides(occ, ax, ay, dx, dy, bx, by) {
            lemma_slides_reverse(occ, ax, ay, dx, dy, bx, by);
        }
        if crate::bitboard::slides(occ, bx, by, -dx, -dy, ax, ay) {
            lemma_slides_reverse(occ, bx, by, -dx, -dy, ax, ay);
            assert(-(-dx) == dx && -(-dy) == dy);
        }
    }
    assert(is_dir(1, 1) && is_dir(-1, 1) && is_dir(1, -1) && is_dir(-1, -1));
    assert(is_dir(0, 1) && is_dir(0, -1) && is_dir(1, 0) && is_dir(-1, 0));
}

impl Position {
    /// Side `s` has a piece that could capture on `(tx, ty)`; whose turn it is and pins play
    /// no part.
    pub open spec fn attacked(&self, tx: int, ty: int, s: Side) -> bool {
        exists|ax: int, ay: int, p: Piece| #[trigger]
            self.holds(s, p, ax, ay) && piece_attacks(self.occ_bb(), s, p, ax, ay, tx, ty)
    }

    /// Whether side `side` attacks `sq`.
    pub fn is_attacked(&self, sq: Square, side: Side) -> (r: bool)
        requires
            sq.wf(),
        ensures
            r == self.attacked(sq.x as int, sq.y as int, side),
    {
        match side {
            Side::White => self.is_attacked_white(sq),
            Side::Black => self.is_attacked_black(sq),
        }
    }

    /// Whether white attacks `sq`: a white pawn one rank below it on a next file, or a
    /// white piece of another kind.
    fn is_attacked_white(&self, sq: Square) -> (r: bool)
        requires
            sq.wf(),
        ensures
            r == self.attacked(sq.x as int, sq.y as int, Side::White),
    {
        let side = Side::White;
        let pawns = self.pieces[0] & self.colours[0];
        let mut hit = false;
        if sq.x < 7 && sq.y > 0 && pawns.is_set(Square::from_file_rank(sq.x + 1, sq.y - 1)) {
            hit = true;
        }
        if sq.x > 0 && sq.y > 0 && pawns.is_set(Square::from_file_rank(sq.x - 1, sq.y - 1)) {
            hit = true;
        }
        proof {
            assert(hit == self.pawn_attacks_on(sq.x as int, sq.y as int, side));
        }
        if hit {
            return true;
        }
        self.pieces_attack(sq, side)
    }

    /// Whether black attacks `sq`: a black pawn one rank above it on a next file, or a
    /// black piece of another kind.
    fn is_attacked_black(&self, sq: Square) -> (r: bool)
        requires
            sq.wf(),
        ensures
            r == self.attacked(sq.x as int, sq.y as int, Side::Black),
    {
        let side = Side::Black;
        let pawns = self.pieces[0] & self.colours[1];
        let mut hit = false;
        if sq.x < 7 && sq.y < 7 && pawns.is_set(Square::from_file_rank(sq.x + 1, sq.y + 1)) {
            hit = true;
        }
        if sq.x > 0 && sq.y < 7 && pawns.is_set(Square::from_file_rank(sq.x - 1, sq.y + 1)) {
            hit = true;
        }
        proof {
            assert(hit == self.pawn_attacks_on(sq.x as int, sq.y as int, side));
        }
        if hit {
            return true;
        }
        self.pieces_attack(sq, side)
    }

    /// Side `s` has a pawn that could capture on `(tx, ty)`.
    pub open spec fn pawn_attacks_on(&self, tx: int, ty: int, s: Side) -> bool {
        ||| self.holds(s, Piece::Pawn, tx + 1, ty - forward(s))
        ||| self.holds(s, Piece::Pawn, tx - 1, ty - forward(s))
    }

    /// Whether a knight, bishop, rook, queen or king of `side` attacks `sq`, given that no
    /// pawn of `side` does.
    fn pieces_attack(&self, sq: Square, side: Side) -> (r: bool)
        requires
            sq.wf(),
            !self.pawn_attacks_on(sq.x as int, sq.y as int, side),
        ensures
            r == self.attacked(sq.x as int, sq.y as int, side),
    {
        let ghost tx = sq.x as int;
        let ghost ty = sq.y as int;
        let occ = self.occupancy();
        let own = self.colours[side_index(side)];
        proof {
            assert forall|ax: int, ay: int| #[trigger]
                self.holds(side, Piece::Pawn, ax, ay) implies !piece_attacks(
                occ,
                side,
                Piece::Pawn,
                ax,
                ay,
                tx,
                ty,
            ) by {}
        }
        let knights = Bitboard::mask_knight(sq, occ) & self.pieces[1] & own;
        if knights.is_occupied() {
            proof {
                let (ax, ay) = choose|ax: int, ay: int| #[trigger] knights.has(ax, ay);
                assert(self.holds(side, Piece::Knight, ax, ay));
            }
            return true;
        }
        let bishops = Bitboard::mask_bishop(sq, occ) & self.pieces[2] & own;
        if bishops.is_occupied() {
            proof {
                let (ax, ay) = choose|ax: int, ay: int| #[trigger] bishops.has(ax, ay);
                lemma_reach_symmetric(occ, tx, ty, ax, ay);
                assert(bishop_reach(occ, tx, ty, ax, ay));
                assert(self.holds(side, Piece::Bishop, ax, ay));
            }
            return true;
        }
        let rooks = Bitboard::mask_rook(sq, occ) & self.pieces[3] & own;
        if rooks.is_occupied() {
            proof {
                let (ax, ay) = choose|ax: int, ay: int| #[trigger] rooks.has(ax, ay);
                lemma_reach_symmetric(occ, tx, ty, ax, ay);
                assert(rook_reach(occ, tx, ty, ax, ay));
                assert(self.holds(side, Piece::Rook, ax, ay));
            }
            return true;
        }
        let queens = Bitboard::mask_queen(sq, occ) & self.pieces[4] & own;
        if queens.is_occupied() {
            proof {
                let (ax, ay) = choose|ax: int, ay: int| #[trigger] queens.has(ax, ay);
                lemma_reach_symmetric(occ, tx, ty, ax, ay);
                assert(bishop_reach(occ, tx, ty, ax, ay) || rook_reach(occ, tx, ty, ax, ay));
                assert(on_board(ax, ay));
                assert(bishop_reach(occ, ax, ay, tx, ty) || rook_reach(occ, ax, ay, tx, ty));
                assert(piece_attacks(occ, side, Piece::Queen, ax, ay, tx, ty));
                assert(self.holds(side, Piece::Queen, ax, ay));
            }
            return true;
        }
        let kings = Bitboard::mask_king(sq, occ) & self.pieces[5] & own;
        if kings.is_occupied() {
            proof {
                let (ax, ay) = choose|ax: int, ay: int| #[trigger] kings.has(ax, ay);
                assert(self.holds(side, Piece::King, ax, ay));
            }
            return true;
        }
        proof {
            if self.attacked(tx, ty, side) {
                let (ax, ay, p) = choose|ax: int, ay: int, p: Piece| #[trigger]
                    self.holds(side, p, ax, ay) && piece_attacks(occ, side, p, ax, ay, tx, ty);
                assert(on_board(ax, ay));
                lemma_reach_symmetric(occ, tx, ty, ax, ay);
                match p {
                    Piece::Pawn => {},
                    Piece::Knight => {
                        assert(knights.has(ax, ay));
                    },
                    Piece::Bishop => {
                        assert(bishops.has(ax, ay));
                    },
                    Piece::Rook => {
                        assert(rooks.has(ax, ay));
                    },
                    Piece::Queen => {
                        assert(queens.has(ax, ay));
                    },
                    Piece::King => {
                        assert(kings.has(ax, ay));
                    },
                }
            }
        }
        false
    }
}

} // verus!
