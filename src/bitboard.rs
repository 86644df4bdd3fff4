use vstd::prelude::*;

use crate::square::{on_board, Square};

verus! {

/// Bit `i` of `b` is set.
pub open spec fn bit(b: u64, i: int) -> bool {
    0 <= i < 64 && (b >> (i as u64)) & 1 == 1
}

/// A set of squares: bit `8 * y + x` stands for the square `(x, y)`.
#[derive(Debug, Clone, Copy, PartialEq, Eq, Structural)]
pub struct Bitboard(pub u64);

proof fn lemma_bits_and(a: u64, b: u64, i: u64)
    by (bit_vector)
    requires
        i < 64,
    ensures
        ((a & b) >> i) & 1 == 1 <==> ((a >> i) & 1 == 1 && (b >> i) & 1 == 1),
{
}

proof fn lemma_bits_or(a: u64, b: u64, i: u64)
    by (bit_vector)
    requires
        i < 64,
    ensures
        ((a | b) >> i) & 1 == 1 <==> ((a >> i) & 1 == 1 || (b >> i) & 1 == 1),
{
}

proof fn lemma_bits_xor(a: u64, b: u64, i: u64)
    by (bit_vector)
    requires
        i < 64,
    ensures
        ((a ^ b) >> i) & 1 == 1 <==> ((a >> i) & 1 == 1) != ((b >> i) & 1 == 1),
{
}

proof fn lemma_bits_not(a: u64, i: u64)
    by (bit_vector)
    requires
        i < 64,
    ensures
        ((!a) >> i) & 1 == 1 <==> !((a >> i) & 1 == 1),
{
}

proof fn lemma_bits_single(k: u64, i: u64)
    by (bit_vector)
    requires
        i < 64,
        k < 64,
    ensures
        ((1u64 << k) >> i) & 1 == 1 <==> i == k,
{
}

proof fn lemma_bits_const(i: u64)
    by (bit_vector)
    requires
        i < 64,
    ensures
        !((0u64 >> i) & 1 == 1),
        (0xFFFF_FFFF_FFFF_FFFFu64 >> i) & 1 == 1,
{
}

proof fn lemma_bits_north(b: u64, x: u64, y: u64)
    by (bit_vector)
    requires
        x < 8,
        y < 8,
    ensures
        y >= 1 ==> (((b << 8u64) >> (8 * y + x)) & 1 == 1 <==> (b >> ((8 * (y - 1) + x) as u64)) & 1
            == 1),
        y == 0 ==> !(((b << 8u64) >> (8 * y + x)) & 1 == 1),
{
}

proof fn lemma_bits_south(b: u64, x: u64, y: u64)
    by (bit_vector)
    requires
        x < 8,
        y < 8,
    ensures
        y <= 6 ==> (((b >> 8u64) >> (8 * y + x)) & 1 == 1 <==> (b >> ((8 * (y + 1) + x) as u64)) & 1
            == 1),
        y == 7 ==> !(((b >> 8u64) >> (8 * y + x)) & 1 == 1),
{
}

proof fn lemma_bits_east(b: u64, x: u64, y: u64)
    by (bit_vector)
    requires
        x < 8,
        y < 8,
    ensures
        x >= 1 ==> ((((b << 1u64) & 0xfefe_fefe_fefe_fefeu64) >> (8 * y + x)) & 1 == 1 <==> (b
            >> ((8 * y + (x - 1)) as u64)) & 1 == 1),
        x == 0 ==> !((((b << 1u64) & 0xfefe_fefe_fefe_fefeu64) >> (8 * y + x)) & 1 == 1),
{
}

proof fn lemma_bits_west(b: u64, x: u64, y: u64)
    by (bit_vector)
    requires
        x < 8,
        y < 8,
    ensures
        x <= 6 ==> ((((b >> 1u64) & 0x7f7f_7f7f_7f7f_7f7fu64) >> (8 * y + x)) & 1 == 1 <==> (b
            >> ((8 * y + (x + 1)) as u64)) & 1 == 1),
        x == 7 ==> !((((b >> 1u64) & 0x7f7f_7f7f_7f7f_7f7fu64) >> (8 * y + x)) & 1 == 1),
{
}

/// Every index below 64 is the index of exactly one square.
pub proof fn lemma_index_square(i: int)
    requires
        0 <= i < 64,
    ensures
        on_board(i % 8, i / 8),
        i == 8 * (i / 8) + i % 8,
{
}

/// A non-zero word has a set bit.
pub proof fn lemma_nonzero_has_bit(b: u64)
    requires
        b != 0,
    ensures
        exists|i: int| bit(b, i),
{
    let t = b.trailing_zeros();
    vstd::std_specs::bits::axiom_u64_trailing_zeros(b);
    assert(bit(b, t as int));
}

/// A word with a set bit is not zero.
pub proof fn lemma_bit_nonzero(b: u64, i: int)
    requires
        bit(b, i),
    ensures
        b != 0,
{
    let k = i as u64;
    assert(((b >> k) & 1 == 1) ==> b != 0) by (bit_vector);
}

impl Bitboard {
    /// Square index `i` is a member.
    pub open spec fn contains(&self, i: int) -> bool {
        bit(self.0, i)
    }

    /// The square `(x, y)` is on the board and a member.
    pub open spec fn has(&self, x: int, y: int) -> bool {
        on_board(x, y) && bit(self.0, 8 * y + x)
    }

    /// Some square is a member.
    pub open spec fn nonempty(&self) -> bool {
        exists|x: int, y: int| #[trigger] self.has(x, y)
    }

    /// The empty set.
    pub fn from_empty() -> (r: Self)
        ensures
            r.0 == 0,
            forall|i: int| !#[trigger] r.contains(i),
            forall|x: int, y: int| !#[trigger] r.has(x, y),
    {
        proof {
            assert forall|i: int| !#[trigger] bit(0, i) by {
                if 0 <= i < 64 {
                    lemma_bits_const(i as u64);
                }
            }
        }
        Bitboard(0)
    }

    /// The set of all squares.
    pub fn from_full() -> (r: Self)
        ensures
            r.0 == 0xFFFF_FFFF_FFFF_FFFF,
            forall|i: int| 0 <= i < 64 ==> #[trigger] r.contains(i),
            forall|x: int, y: int| #[trigger] r.has(x, y) == on_board(x, y),
    {
        proof {
            assert forall|i: int| 0 <= i < 64 implies #[trigger] bit(0xFFFF_FFFF_FFFF_FFFF, i) by {
                lemma_bits_const(i as u64);
            }
        }
        Bitboard(0xFFFF_FFFF_FFFF_FFFF)
    }

    /// The set holding `sq` alone.
    pub fn from_square(sq: Square) -> (r: Self)
        requires
            sq.wf(),
        ensures
            forall|i: int| #[trigger] r.contains(i) == (i == sq.index()),
            forall|x: int, y: int| #[trigger] r.has(x, y) == (x == sq.x && y == sq.y),
    {
        let k = sq.get_index();
        let r = Bitboard(1u64 << k);
        proof {
            assert forall|i: int| #[trigger] r.contains(i) == (i == sq.index()) by {
                if 0 <= i < 64 {
                    lemma_bits_single(k as u64, i as u64);
                }
            }
            assert forall|x: int, y: int| #[trigger] r.has(x, y) == (x == sq.x && y == sq.y) by {
                assert(r.contains(8 * y + x) == (8 * y + x == sq.index()));
            }
        }
        r
    }

    /// No square is a member.
    pub fn is_empty(&self) -> (r: bool)
        ensures
            r == (self.0 == 0),
            r == !self.nonempty(),
    {
        proof {
            self.lemma_nonempty();
        }
        self.0 == 0
    }

    /// Every square is a member.
    pub fn is_full(&self) -> (r: bool)
        ensures
            r == (self.0 == 0xFFFF_FFFF_FFFF_FFFF),
    {
        self.0 == 0xFFFF_FFFF_FFFF_FFFF
    }

    /// Some square is a member.
    pub fn is_occupied(&self) -> (r: bool)
        ensures
            r == (self.0 != 0),
            r == self.nonempty(),
    {
        proof {
            self.lemma_nonempty();
        }
        self.0 != 0
    }

    /// A set is non-empty exactly when its word is not zero.
    pub proof fn lemma_nonempty(&self)
        ensures
            self.nonempty() == (self.0 != 0),
    {
        if self.0 != 0 {
            lemma_nonzero_has_bit(self.0);
            let i = choose|i: int| bit(self.0, i);
            lemma_index_square(i);
            assert(self.has(i % 8, i / 8));
        }
        if self.nonempty() {
            let (x, y) = choose|x: int, y: int| #[trigger] self.has(x, y);
            lemma_bit_nonzero(self.0, 8 * y + x);
        }
    }

    /// Whether `sq` is a member.
    pub fn is_set(&self, sq: Square) -> (r: bool)
        requires
            sq.wf(),
        ensures
            r == self.contains(sq.index()),
            r == self.has(sq.x as int, sq.y as int),
    {
        (self.0 >> sq.get_index()) & 1 == 1
    }

    /// Add `sq`.
    pub fn set(&mut self, sq: Square)
        requires
            sq.wf(),
        ensures
            forall|i: int| #[trigger]
                final(self).contains(i) == (old(self).contains(i) || i == sq.index()),
            forall|x: int, y: int| #[trigger]
                final(self).has(x, y) == (old(self).has(x, y) || (x == sq.x && y == sq.y)),
    {
        let k = sq.get_index();
        let ghost a = self.0;
        self.0 = self.0 | (1u64 << k);
        proof {
            assert forall|i: int| #[trigger]
                self.contains(i) == (old(self).contains(i) || i == sq.index()) by {
                if 0 <= i < 64 {
                    lemma_bits_or(a, 1u64 << k, i as u64);
                    lemma_bits_single(k as u64, i as u64);
                }
            }
            assert forall|x: int, y: int| #[trigger]
                self.has(x, y) == (old(self).has(x, y) || (x == sq.x && y == sq.y)) by {
                assert(self.contains(8 * y + x) == (old(self).contains(8 * y + x) || 8 * y + x
                    == sq.index()));
            }
        }
    }

    /// Remove `sq`.
    pub fn unset(&mut self, sq: Square)
        requires
            sq.wf(),
        ensures
            final(self).0 == old(self).0 & !(1u64 << sq.index()),
            forall|i: int| #[trigger]
                final(self).contains(i) == (old(self).contains(i) && i != sq.index()),
            forall|x: int, y: int| #[trigger]
                final(self).has(x, y) == (old(self).has(x, y) && !(x == sq.x && y == sq.y)),
    {
        let k = sq.get_index();
        let ghost a = self.0;
        self.0 = self.0 & !(1u64 << k);
        proof {
            assert forall|i: int| #[trigger]
                self.contains(i) == (old(self).contains(i) && i != sq.index()) by {
                if 0 <= i < 64 {
                    lemma_bits_and(a, !(1u64 << k), i as u64);
                    lemma_bits_not(1u64 << k, i as u64);
                    lemma_bits_single(k as u64, i as u64);
                }
            }
            assert forall|x: int, y: int| #[trigger]
                self.has(x, y) == (old(self).has(x, y) && !(x == sq.x && y == sq.y)) by {
                assert(self.contains(8 * y + x) == (old(self).contains(8 * y + x) && 8 * y + x
                    != sq.index()));
            }
        }
    }

    /// Remove the member with the lowest index and return it.
    pub fn pop_lsb(&mut self) -> (r: Square)
        requires
            old(self).0 != 0,
        ensures
            r.wf(),
            final(self).0 < old(self).0,
            old(self).contains(r.index()),
            forall|j: int| 0 <= j < r.index() ==> !#[trigger] old(self).contains(j),
            forall|i: int| #[trigger]
                final(self).contains(i) == (old(self).contains(i) && i != r.index()),
            forall|x: int, y: int| #[trigger]
                final(self).has(x, y) == (old(self).has(x, y) && !(x == r.x && y == r.y)),
    {
        let t = self.0.trailing_zeros();
        proof {
            vstd::std_specs::bits::axiom_u64_trailing_zeros(self.0);
            assert forall|j: int| 0 <= j < t implies !#[trigger] self.contains(j) by {
                assert((self.0 >> (j as u64)) & 1u64 == 0u64);
            }
        }
        let index = t as u8;
        let sq = Square { x: index % 8, y: index / 8 };
        let ghost a = self.0;
        self.unset(sq);
        proof {
            let k = t as u64;
            assert(((a >> k) & 1u64 == 1u64 && k < 64) ==> (a & !(1u64 << k)) < a) by (bit_vector);
        }
        sq
    }

    /// Every member moved one rank up; the top rank falls off.
    pub fn north(&self) -> (r: Self)
        ensures
            forall|x: int, y: int| #[trigger] r.has(x, y) == (on_board(x, y) && self.has(x, y - 1)),
    {
        let r = Bitboard(self.0 << 8u64);
        proof {
            assert forall|x: int, y: int| #[trigger]
                r.has(x, y) == (on_board(x, y) && self.has(x, y - 1)) by {
                if on_board(x, y) {
                    lemma_bits_north(self.0, x as u64, y as u64);
                }
            }
        }
        r
    }

    /// Every member moved one rank down; the bottom rank falls off.
    pub fn south(&self) -> (r: Self)
        ensures
            forall|x: int, y: int| #[trigger] r.has(x, y) == (on_board(x, y) && self.has(x, y + 1)),
    {
        let r = Bitboard(self.0 >> 8u64);
        proof {
            assert forall|x: int, y: int| #[trigger]
                r.has(x, y) == (on_board(x, y) && self.has(x, y + 1)) by {
                if on_board(x, y) {
                    lemma_bits_south(self.0, x as u64, y as u64);
                }
            }
        }
        r
    }

    /// Every member moved one file towards h; the h-file does not wrap round to the a-file.
    pub fn east(&self) -> (r: Self)
        ensures
            forall|x: int, y: int| #[trigger] r.has(x, y) == (on_board(x, y) && self.has(x - 1, y)),
    {
        let r = Bitboard((self.0 << 1u64) & 0xfefe_fefe_fefe_fefeu64);
        proof {
            assert forall|x: int, y: int| #[trigger]
                r.has(x, y) == (on_board(x, y) && self.has(x - 1, y)) by {
                if on_board(x, y) {
                    lemma_bits_east(self.0, x as u64, y as u64);
                }
            }
        }
        r
    }

    /// Every member moved one file towards a; the a-file does not wrap round to the h-file.
    pub fn west(&self) -> (r: Self)
        ensures
            forall|x: int, y: int| #[trigger] r.has(x, y) == (on_board(x, y) && self.has(x + 1, y)),
    {
        let r = Bitboard((self.0 >> 1u64) & 0x7f7f_7f7f_7f7f_7f7fu64);
        proof {
            assert forall|x: int, y: int| #[trigger]
                r.has(x, y) == (on_board(x, y) && self.has(x + 1, y)) by {
                if on_board(x, y) {
                    lemma_bits_west(self.0, x as u64, y as u64);
                }
            }
        }
        r
    }
}

impl std::ops::BitAnd for Bitboard {
    type Output = Bitboard;

    fn bitand(self, rhs: Bitboard) -> (r: Bitboard)
        ensures
            r.0 == self.0 & rhs.0,
            forall|x: int, y: int| #[trigger] r.has(x, y) == (self.has(x, y) && rhs.has(x, y)),
    {
        let r = Bitboard(self.0 & rhs.0);
        proof {
            assert forall|x: int, y: int| #[trigger]
                r.has(x, y) == (self.has(x, y) && rhs.has(x, y)) by {
                if on_board(x, y) {
                    lemma_bits_and(self.0, rhs.0, (8 * y + x) as u64);
                }
            }
        }
        r
    }
}

impl vstd::std_specs::ops::BitAndSpecImpl for Bitboard {
    open spec fn obeys_bitand_spec() -> bool {
        true
    }

    open spec fn bitand_req(self, rhs: Bitboard) -> bool {
        true
    }

    open spec fn bitand_spec(self, rhs: Bitboard) -> Bitboard {
        Bitboard(self.0 & rhs.0)
    }
}

impl std::ops::BitOr for Bitboard {
    type Output = Bitboard;

    fn bitor(self, rhs: Bitboard) -> (r: Bitboard)
        ensures
            r.0 == self.0 | rhs.0,
            forall|x: int, y: int| #[trigger] r.has(x, y) == (self.has(x, y) || rhs.has(x, y)),
    {
        let r = Bitboard(self.0 | rhs.0);
        proof {
            assert forall|x: int, y: int| #[trigger]
                r.has(x, y) == (self.has(x, y) || rhs.has(x, y)) by {
                if on_board(x, y) {
                    lemma_bits_or(self.0, rhs.0, (8 * y + x) as u64);
                }
            }
        }
        r
    }
}

impl vstd::std_specs::ops::BitOrSpecImpl for Bitboard {
    open spec fn obeys_bitor_spec() -> bool {
        true
    }

    open spec fn bitor_req(self, rhs: Bitboard) -> bool {
        true
    }

    open spec fn bitor_spec(self, rhs: Bitboard) -> Bitboard {
        Bitboard(self.0 | rhs.0)
    }
}

impl std::ops::BitXor for Bitboard {
    type Output = Bitboard;

    fn bitxor(self, rhs: Bitboard) -> (r: Bitboard)
        ensures
            r.0 == self.0 ^ rhs.0,
            forall|x: int, y: int| #[trigger] r.has(x, y) == (self.has(x, y) != rhs.has(x, y)),
    {
        let r = Bitboard(self.0 ^ rhs.0);
        proof {
            assert forall|x: int, y: int| #[trigger]
                r.has(x, y) == (self.has(x, y) != rhs.has(x, y)) by {
                if on_board(x, y) {
                    lemma_bits_xor(self.0, rhs.0, (8 * y + x) as u64);
                }
            }
        }
        r
    }
}

impl vstd::std_specs::ops::BitXorSpecImpl for Bitboard {
    open spec fn obeys_bitxor_spec() -> bool {
        true
    }

    open spec fn bitxor_req(self, rhs: Bitboard) -> bool {
        true
    }

    open spec fn bitxor_spec(self, rhs: Bitboard) -> Bitboard {
        Bitboard(self.0 ^ rhs.0)
    }
}

impl std::ops::Not for Bitboard {
    type Output = Bitboard;

    fn not(self) -> (r: Bitboard)
        ensures
            r.0 == !self.0,
            forall|x: int, y: int| #[trigger] r.has(x, y) == (on_board(x, y) && !self.has(x, y)),
    {
        let r = Bitboard(!self.0);
        proof {
            assert forall|x: int, y: int| #[trigger]
                r.has(x, y) == (on_board(x, y) && !self.has(x, y)) by {
                if on_board(x, y) {
                    lemma_bits_not(self.0, (8 * y + x) as u64);
                }
            }
        }
        r
    }
}

impl vstd::std_specs::ops::NotSpecImpl for Bitboard {
    open spec fn obeys_not_spec() -> bool {
        true
    }

    open spec fn not_req(self) -> bool {
        true
    }

    open spec fn not_spec(self) -> Bitboard {
        Bitboard(!self.0)
    }
}

impl std::ops::BitAndAssign for Bitboard {
    fn bitand_assign(&mut self, rhs: Bitboard)
        ensures
            final(self).0 == old(self).0 & rhs.0,
            forall|x: int, y: int| #[trigger] final(self).has(x, y) == (old(self).has(x, y) && rhs.has(x, y)),
    {
        let ghost a = self.0;
        self.0 = self.0 & rhs.0;
        proof {
            assert forall|x: int, y: int| #[trigger] self.has(x, y) == (Bitboard(a).has(x, y) && rhs.has(x, y)) by {
                if on_board(x, y) {
                    lemma_bits_and(a, rhs.0, (8 * y + x) as u64);
                }
            }
        }
    }
}

impl std::ops::BitOrAssign for Bitboard {
    fn bitor_assign(&mut self, rhs: Bitboard)
        ensures
            final(self).0 == old(self).0 | rhs.0,
            forall|x: int, y: int| #[trigger] final(self).has(x, y) == (old(self).has(x, y) || rhs.has(x, y)),
    {
        let ghost a = self.0;
        self.0 = self.0 | rhs.0;
        proof {
            assert forall|x: int, y: int| #[trigger] self.has(x, y) == (Bitboard(a).has(x, y) || rhs.has(x, y)) by {
                if on_board(x, y) {
                    lemma_bits_or(a, rhs.0, (8 * y + x) as u64);
                }
            }
        }
    }
}

impl std::ops::BitXorAssign for Bitboard {
    fn bitxor_assign(&mut self, rhs: Bitboard)
        ensures
            final(self).0 == old(self).0 ^ rhs.0,
            forall|x: int, y: int| #[trigger] final(self).has(x, y) == (old(self).has(x, y) != rhs.has(x, y)),
    {
        let ghost a = self.0;
        self.0 = self.0 ^ rhs.0;
        proof {
            assert forall|x: int, y: int| #[trigger] self.has(x, y) == (Bitboard(a).has(x, y) != rhs.has(x, y)) by {
                if on_board(x, y) {
                    lemma_bits_xor(a, rhs.0, (8 * y + x) as u64);
                }
            }
        }
    }
}

/// `n` steps along the direction component `d` (one of -1, 0, 1).
pub open spec fn off(n: int, d: int) -> int {
    if d > 0 {
        n
    } else if d < 0 {
        -n
    } else {
        0
    }
}

/// `(dx, dy)` is one of the eight directions a king can step in.
pub open spec fn is_dir(dx: int, dy: int) -> bool {
    -1 <= dx <= 1 && -1 <= dy <= 1 && !(dx == 0 && dy == 0)
}

/// The square `m` steps from `(ax, ay)` along `(dx, dy)` is a member of `occ`.
pub open spec fn ray_blocked(occ: Bitboard, ax: int, ay: int, dx: int, dy: int, m: int) -> bool {
    occ.has(ax + off(m, dx), ay + off(m, dy))
}

/// A piece on `(ax, ay)` that slides along `(dx, dy)` reaches `(bx, by)` in exactly `n` steps:
/// the target is on the board and every square passed over is empty in `occ`.
/// The target itself may be occupied.
pub open spec fn slide_n(
    occ: Bitboard,
    ax: int,
    ay: int,
    dx: int,
    dy: int,
    n: int,
    bx: int,
    by: int,
) -> bool {
    &&& 1 <= n
    &&& bx == ax + off(n, dx)
    &&& by == ay + off(n, dy)
    &&& on_board(bx, by)
    &&& forall|m: int| 1 <= m < n ==> !#[trigger] ray_blocked(occ, ax, ay, dx, dy, m)
}

/// A piece on `(ax, ay)` that slides along `(dx, dy)` reaches `(bx, by)` in at most `k` steps.
pub open spec fn slides_within(
    occ: Bitboard,
    ax: int,
    ay: int,
    dx: int,
    dy: int,
    bx: int,
    by: int,
    k: int,
) -> bool {
    exists|n: int| n <= k && #[trigger] slide_n(occ, ax, ay, dx, dy, n, bx, by)
}

/// A piece on `(ax, ay)` that slides along `(dx, dy)` reaches `(bx, by)`.
pub open spec fn slides(occ: Bitboard, ax: int, ay: int, dx: int, dy: int, bx: int, by: int) -> bool {
    exists|n: int| #[trigger] slide_n(occ, ax, ay, dx, dy, n, bx, by)
}

/// A bishop on `(ax, ay)` attacks `(bx, by)` when `occ` holds the occupied squares.
pub open spec fn bishop_reach(occ: Bitboard, ax: int, ay: int, bx: int, by: int) -> bool {
    ||| slides(occ, ax, ay, 1, 1, bx, by)
    ||| slides(occ, ax, ay, -1, 1, bx, by)
    ||| slides(occ, ax, ay, 1, -1, bx, by)
    ||| slides(occ, ax, ay, -1, -1, bx, by)
}

/// A rook on `(ax, ay)` attacks `(bx, by)` when `occ` holds the occupied squares.
pub open spec fn rook_reach(occ: Bitboard, ax: int, ay: int, bx: int, by: int) -> bool {
    ||| slides(occ, ax, ay, 0, 1, bx, by)
    ||| slides(occ, ax, ay, 0, -1, bx, by)
    ||| slides(occ, ax, ay, 1, 0, bx, by)
    ||| slides(occ, ax, ay, -1, 0, bx, by)
}

/// A knight on `(ax, ay)` jumps to `(bx, by)`.
pub open spec fn knight_jump(ax: int, ay: int, bx: int, by: int) -> bool {
    let dx = bx - ax;
    let dy = by - ay;
    ((dx == 1 || dx == -1) && (dy == 2 || dy == -2)) || ((dx == 2 || dx == -2) && (dy == 1 || dy
        == -1))
}

/// A king on `(ax, ay)` steps to `(bx, by)`.
pub open spec fn king_step(ax: int, ay: int, bx: int, by: int) -> bool {
    is_dir(bx - ax, by - ay)
}

/// Sliding is reversible: the same squares lie between the two ends either way.
pub proof fn lemma_slides_reverse(
    occ: Bitboard,
    ax: int,
    ay: int,
    dx: int,
    dy: int,
    bx: int,
    by: int,
)
    requires
        is_dir(dx, dy),
        on_board(ax, ay),
        slides(occ, ax, ay, dx, dy, bx, by),
    ensures
        slides(occ, bx, by, -dx, -dy, ax, ay),
{
    let n = choose|n: int| #[trigger] slide_n(occ, ax, ay, dx, dy, n, bx, by);
    assert forall|m: int| 1 <= m < n implies !#[trigger] ray_blocked(occ, bx, by, -dx, -dy, m) by {
        assert(!ray_blocked(occ, ax, ay, dx, dy, n - m));
    }
    assert(slide_n(occ, bx, by, -dx, -dy, n, ax, ay));
}

/// Every square that a slide reaches from the board lies within seven steps.
proof fn lemma_slides_within_seven(
    occ: Bitboard,
    ax: int,
    ay: int,
    dx: int,
    dy: int,
    bx: int,
    by: int,
)
    requires
        is_dir(dx, dy),
        on_board(ax, ay),
    ensures
        slides(occ, ax, ay, dx, dy, bx, by) == slides_within(occ, ax, ay, dx, dy, bx, by, 7),
{
    if slides(occ, ax, ay, dx, dy, bx, by) {
        let n = choose|n: int| #[trigger] slide_n(occ, ax, ay, dx, dy, n, bx, by);
        assert(n <= 7);
    }
}

impl Bitboard {
    /// Every member moved one square along `(dx, dy)`; what leaves the board is dropped.
    pub fn step(&self, dx: i8, dy: i8) -> (r: Self)
        requires
            -1 <= dx <= 1,
            -1 <= dy <= 1,
        ensures
            forall|x: int, y: int| #[trigger]
                r.has(x, y) == (on_board(x, y) && self.has(x - dx, y - dy)),
    {
        let v = if dy > 0 {
            self.north()
        } else if dy < 0 {
            self.south()
        } else {
            *self
        };
        if dx > 0 {
            v.east()
        } else if dx < 0 {
            v.west()
        } else {
            v
        }
    }

    /// The squares that a piece on `sq` sliding along `(dx, dy)` reaches, the first blocker
    /// included.
    pub fn ray(sq: Square, blockers: Self, dx: i8, dy: i8) -> (r: Self)
        requires
            sq.wf(),
            is_dir(dx as int, dy as int),
        ensures
            forall|x: int, y: int| #[trigger]
                r.has(x, y) == slides(blockers, sq.x as int, sq.y as int, dx as int, dy as int, x, y),
    {
        let ghost ax = sq.x as int;
        let ghost ay = sq.y as int;
        let ghost ddx = dx as int;
        let ghost ddy = dy as int;
        let mut r = Self::from_square(sq).step(dx, dy);
        proof {
            assert forall|x: int, y: int| #[trigger]
                r.has(x, y) == slides_within(blockers, ax, ay, ddx, ddy, x, y, 1) by {
                if r.has(x, y) {
                    assert(slide_n(blockers, ax, ay, ddx, ddy, 1, x, y));
                }
            }
        }
        let open = std::ops::Not::not(blockers);
        let mut k: u8 = 1;
        while k < 7
            invariant
                1 <= k <= 7,
                sq.wf(),
                is_dir(ddx, ddy),
                ddx == dx,
                ddy == dy,
                ax == sq.x,
                ay == sq.y,
                forall|x: int, y: int| #[trigger]
                    open.has(x, y) == (on_board(x, y) && !blockers.has(x, y)),
                forall|x: int, y: int| #[trigger]
                    r.has(x, y) == slides_within(blockers, ax, ay, ddx, ddy, x, y, k as int),
            decreases 7 - k,
        {
            let ghost prev = r;
            let ghost kk = k as int;
            let grown = (r & open).step(dx, dy);
            r = r | grown;
            proof {
                assert forall|x: int, y: int| #[trigger]
                    r.has(x, y) == slides_within(blockers, ax, ay, ddx, ddy, x, y, kk + 1) by {
                    if prev.has(x, y) {
                        let n = choose|n: int|
                            n <= kk && #[trigger] slide_n(blockers, ax, ay, ddx, ddy, n, x, y);
                        assert(slide_n(blockers, ax, ay, ddx, ddy, n, x, y));
                    } else if grown.has(x, y) {
                        let px = x - ddx;
                        let py = y - ddy;
                        assert(prev.has(px, py));
                        let n = choose|n: int|
                            n <= kk && #[trigger] slide_n(blockers, ax, ay, ddx, ddy, n, px, py);
                        assert(!ray_blocked(blockers, ax, ay, ddx, ddy, n));
                        assert forall|m: int| 1 <= m < n + 1 implies !#[trigger] ray_blocked(
                            blockers,
                            ax,
                            ay,
                            ddx,
                            ddy,
                            m,
                        ) by {
                            if m < n {
                                assert(slide_n(blockers, ax, ay, ddx, ddy, n, px, py));
                            }
                        }
                        assert(slide_n(blockers, ax, ay, ddx, ddy, n + 1, x, y));
                    }
                    if slides_within(blockers, ax, ay, ddx, ddy, x, y, kk + 1) {
                        let n = choose|n: int|
                            n <= kk + 1 && #[trigger] slide_n(blockers, ax, ay, ddx, ddy, n, x, y);
                        if n <= kk {
                            assert(prev.has(x, y));
                        } else {
                            let px = x - ddx;
                            let py = y - ddy;
                            assert(!ray_blocked(blockers, ax, ay, ddx, ddy, kk));
                            assert(slide_n(blockers, ax, ay, ddx, ddy, kk, px, py));
                            assert(prev.has(px, py));
                            assert(grown.has(x, y));
                        }
                    }
                }
            }
            k = k + 1;
        }
        proof {
            assert forall|x: int, y: int| #[trigger]
                r.has(x, y) == slides(blockers, ax, ay, ddx, ddy, x, y) by {
                lemma_slides_within_seven(blockers, ax, ay, ddx, ddy, x, y);
            }
        }
        r
    }
}

/// The number of set bits of `b` among bits `0 .. n`.
pub open spec fn count_below(b: u64, n: int) -> int
    decreases n,
{
    if n <= 0 {
        0
    } else {
        count_below(b, n - 1) + if bit(b, n - 1) {
            1int
        } else {
            0int
        }
    }
}

impl Bitboard {
    /// The number of members.
    pub fn count(&self) -> (r: i32)
        ensures
            r == count_below(self.0, 64),
    {
        let mut n: i32 = 0;
        let mut i: u64 = 0;
        while i < 64
            invariant
                i <= 64,
                n == count_below(self.0, i as int),
                0 <= n <= i,
            decreases 64 - i,
        {
            if (self.0 >> i) & 1 == 1 {
                n = n + 1;
            }
            i = i + 1;
        }
        n
    }

    /// The two squares diagonally one rank up from `sq`.
    pub fn mask_pawn(sq: Square) -> (r: Self)
        requires
            sq.wf(),
        ensures
            forall|x: int, y: int| #[trigger]
                r.has(x, y) == (on_board(x, y) && y == sq.y + 1 && (x == sq.x + 1 || x == sq.x
                    - 1)),
    {
        let b = Self::from_square(sq);
        b.north().east() | b.north().west()
    }

    /// The squares a knight on `sq` jumps to; blockers play no part.
    pub fn mask_knight(sq: Square, _blockers: Self) -> (r: Self)
        requires
            sq.wf(),
        ensures
            forall|x: int, y: int| #[trigger]
                r.has(x, y) == (on_board(x, y) && knight_jump(sq.x as int, sq.y as int, x, y)),
    {
        let b = Self::from_square(sq);
        let mut r = Self::from_empty();
        r = r | b.north().north().east();
        r = r | b.north().north().west();
        r = r | b.south().south().east();
        r = r | b.south().south().west();
        r = r | b.east().east().north();
        r = r | b.east().east().south();
        r = r | b.west().west().north();
        r = r | b.west().west().south();
        r
    }

    /// The squares a bishop on `sq` attacks: each diagonal up to the board's edge or the
    /// first member of `blockers`, that member included.
    pub fn mask_bishop(sq: Square, blockers: Self) -> (r: Self)
        requires
            sq.wf(),
        ensures
            forall|x: int, y: int| #[trigger]
                r.has(x, y) == bishop_reach(blockers, sq.x as int, sq.y as int, x, y),
    {
        Self::ray(sq, blockers, 1, 1) | Self::ray(sq, blockers, -1, 1) | Self::ray(
            sq,
            blockers,
            1,
            -1,
        ) | Self::ray(sq, blockers, -1, -1)
    }

    /// The squares a rook on `sq` attacks: each rank and file direction up to the board's
    /// edge or the first member of `blockers`, that member included.
    pub fn mask_rook(sq: Square, blockers: Self) -> (r: Self)
        requires
            sq.wf(),
        ensures
            forall|x: int, y: int| #[trigger]
                r.has(x, y) == rook_reach(blockers, sq.x as int, sq.y as int, x, y),
    {
        Self::ray(sq, blockers, 0, 1) | Self::ray(sq, blockers, 0, -1) | Self::ray(
            sq,
            blockers,
            1,
            0,
        ) | Self::ray(sq, blockers, -1, 0)
    }

    /// The squares a queen on `sq` attacks: the bishop's and the rook's together.
    pub fn mask_queen(sq: Square, blockers: Self) -> (r: Self)
        requires
            sq.wf(),
        ensures
            forall|x: int, y: int| #[trigger]
                r.has(x, y) == (bishop_reach(blockers, sq.x as int, sq.y as int, x, y)
                    || rook_reach(blockers, sq.x as int, sq.y as int, x, y)),
    {
        Self::mask_bishop(sq, blockers) | Self::mask_rook(sq, blockers)
    }

    /// The squares next to `sq`; blockers play no part.
    pub fn mask_king(sq: Square, _blockers: Self) -> (r: Self)
        requires
            sq.wf(),
        ensures
            forall|x: int, y: int| #[trigger]
                r.has(x, y) == (on_board(x, y) && king_step(sq.x as int, sq.y as int, x, y)),
    {
        let b = Self::from_square(sq);
        let row = b | b.east() | b.west();
        let block = row | row.north() | row.south();
        let r = block & std::ops::Not::not(b);
        proof {
            assert forall|x: int, y: int| #[trigger]
                r.has(x, y) == (on_board(x, y) && king_step(sq.x as int, sq.y as int, x, y)) by {
                if on_board(x, y) {
                    assert(row.has(x, y) == (y == sq.y && (x == sq.x || x == sq.x + 1 || x
                        == sq.x - 1)));
                    assert(row.has(x, y - 1) == (y - 1 == sq.y && (x == sq.x || x == sq.x + 1
                        || x == sq.x - 1)));
                    assert(row.has(x, y + 1) == (y + 1 == sq.y && (x == sq.x || x == sq.x + 1
                        || x == sq.x - 1)));
                }
            }
        }
        r
    }
}

/// The board drawn as text: eight lines of eight '0'/'1' characters, rank 8 first, each
/// line from the a-file on and ended by a newline.
pub open spec fn grid_text(b: Bitboard) -> Seq<char> {
    Seq::new(
        72,
        |i: int|
            if i % 9 == 8 {
                '\n'
            } else if b.has(i % 9, 7 - i / 9) {
                '1'
            } else {
                '0'
            },
    )
}

impl Bitboard {
    /// The set drawn as text, rank 8 first.
    pub fn to_string(&self) -> (r: String)
        ensures
            r@ == grid_text(*self),
    {
        let mut v: Vec<char> = Vec::new();
        let mut row: u8 = 0;
        while row < 8
            invariant
                row <= 8,
                v@ =~= grid_text(*self).take(9 * row as int),
            decreases 8 - row,
        {
            let mut x: u8 = 0;
            while x < 8
                invariant
                    row < 8,
                    x <= 8,
                    v@ =~= grid_text(*self).take(9 * row + x),
                decreases 8 - x,
            {
                let sq = Square { x, y: 7 - row };
                if self.is_set(sq) {
                    v.push('1');
                } else {
                    v.push('0');
                }
                proof {
                    let i = 9 * row + x;
                    assert(i % 9 == x as int && i / 9 == row as int) by (nonlinear_arith)
                        requires
                            i == 9 * row + x,
                            x < 8,
                    ;
                    assert(grid_text(*self).take(i + 1) =~= grid_text(*self).take(i).push(
                        grid_text(*self)[i],
                    ));
                }
                x = x + 1;
            }
            v.push('\n');
            proof {
                let i = 9 * row + 8;
                assert(i % 9 == 8) by (nonlinear_arith)
                    requires
                        i == 9 * row + 8,
                ;
                assert(grid_text(*self).take(i + 1) =~= grid_text(*self).take(i).push(
                    grid_text(*self)[i],
                ));
            }
            row = row + 1;
        }
        proof {
            assert(grid_text(*self).take(72) =~= grid_text(*self));
        }
        crate::text::string_from_chars(&v)
    }
}

} // verus!
