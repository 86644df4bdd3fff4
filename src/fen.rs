use vstd::prelude::*;

use crate::position::Position;
use crate::square::{file_char, file_letter, rank_char, rank_digit, Square};
use crate::{Piece, Side};

verus! {

/// The letter of a piece in FEN: upper case for white, lower case for black.
pub open spec fn piece_letter(s: Side, p: Piece) -> char {
    match (s, p) {
        (Side::White, Piece::Pawn) => 'P',
        (Side::White, Piece::Knight) => 'N',
        (Side::White, Piece::Bishop) => 'B',
        (Side::White, Piece::Rook) => 'R',
        (Side::White, Piece::Queen) => 'Q',
        (Side::White, Piece::King) => 'K',
        (Side::Black, Piece::Pawn) => 'p',
        (Side::Black, Piece::Knight) => 'n',
        (Side::Black, Piece::Bishop) => 'b',
        (Side::Black, Piece::Rook) => 'r',
        (Side::Black, Piece::Queen) => 'q',
        (Side::Black, Piece::King) => 'k',
    }
}

/// The decimal digit for `n` (0 to 9).
pub open spec fn digit_char(n: int) -> char {
    if n == 0 {
        '0'
    } else if n == 1 {
        '1'
    } else if n == 2 {
        '2'
    } else if n == 3 {
        '3'
    } else if n == 4 {
        '4'
    } else if n == 5 {
        '5'
    } else if n == 6 {
        '6'
    } else if n == 7 {
        '7'
    } else if n == 8 {
        '8'
    } else {
        '9'
    }
}

/// A run of `run` empty squares: its digit, or nothing when there is none.
pub open spec fn run_text(run: int) -> Seq<char> {
    if run > 0 {
        seq![digit_char(run)]
    } else {
        Seq::empty()
    }
}

/// The FEN of rank `y` of `q` from file `x` on, after `run` empty squares just passed.
pub open spec fn row_text(q: Position, y: int, x: int, run: int) -> Seq<char>
    decreases 8 - x,
{
    if x >= 8 {
        run_text(run)
    } else {
        match q.at(x, y) {
            Some((s, p)) => run_text(run) + seq![piece_letter(s, p)] + row_text(q, y, x + 1, 0),
            None => row_text(q, y, x + 1, run + 1),
        }
    }
}

/// The FEN of ranks `y` down to 1 of `q`, separated by '/'.
pub open spec fn ranks_text(q: Position, y: int) -> Seq<char>
    decreases y + 1,
{
    if y < 0 {
        Seq::empty()
    } else if y == 0 {
        row_text(q, 0, 0, 0)
    } else {
        row_text(q, y, 0, 0) + seq!['/'] + ranks_text(q, y - 1)
    }
}

/// The decimal text of `n`, without leading zeros.
pub open spec fn dec_text(n: nat) -> Seq<char>
    decreases n,
{
    if n < 10 {
        seq![digit_char(n as int)]
    } else {
        dec_text(n / 10).push(digit_char((n % 10) as int))
    }
}

/// The FEN of the castling rights: the letters of those held, in the order K Q k q, or '-'.
pub open spec fn castling_text(c: [bool; 4]) -> Seq<char> {
    if !c[0] && !c[1] && !c[2] && !c[3] {
        seq!['-']
    } else {
        (if c[0] {
            seq!['K']
        } else {
            Seq::empty()
        }) + (if c[1] {
            seq!['Q']
        } else {
            Seq::empty()
        }) + (if c[2] {
            seq!['k']
        } else {
            Seq::empty()
        }) + (if c[3] {
            seq!['q']
        } else {
            Seq::empty()
        })
    }
}

/// The FEN of the en-passant square.
pub open spec fn ep_text(e: Option<Square>) -> Seq<char> {
    match e {
        Some(sq) => seq![file_char(sq.x as int), rank_char(sq.y as int)],
        None => seq!['-'],
    }
}

/// The FEN of the side to move.
pub open spec fn turn_char(s: Side) -> char {
    match s {
        Side::White => 'w',
        Side::Black => 'b',
    }
}

/// The FEN of `q`: placement, side to move, castling rights, en-passant square, halfmove
/// clock and fullmove number, separated by single spaces.
pub open spec fn fen_text(q: Position) -> Seq<char> {
    ranks_text(q, 7) + seq![' ', turn_char(q.turn), ' '] + castling_text(q.castling) + seq![' ']
        + ep_text(q.ep) + seq![' '] + dec_text(q.halfmoves as nat) + seq![' '] + dec_text(
        q.fullmoves as nat,
    )
}

/// The side and kind of piece that a FEN placement letter names.
pub open spec fn letter_piece(c: char) -> Option<(Side, Piece)> {
    if c == 'P' {
        Some((Side::White, Piece::Pawn))
    } else if c == 'N' {
        Some((Side::White, Piece::Knight))
    } else if c == 'B' {
        Some((Side::White, Piece::Bishop))
    } else if c == 'R' {
        Some((Side::White, Piece::Rook))
    } else if c == 'Q' {
        Some((Side::White, Piece::Queen))
    } else if c == 'K' {
        Some((Side::White, Piece::King))
    } else if c == 'p' {
        Some((Side::Black, Piece::Pawn))
    } else if c == 'n' {
        Some((Side::Black, Piece::Knight))
    } else if c == 'b' {
        Some((Side::Black, Piece::Bishop))
    } else if c == 'r' {
        Some((Side::Black, Piece::Rook))
    } else if c == 'q' {
        Some((Side::Black, Piece::Queen))
    } else if c == 'k' {
        Some((Side::Black, Piece::King))
    } else {
        None
    }
}

/// The value of a decimal digit character; -1 for any other character.
pub open spec fn digit_value(c: char) -> int {
    if c == '0' {
        0
    } else if c == '1' {
        1
    } else if c == '2' {
        2
    } else if c == '3' {
        3
    } else if c == '4' {
        4
    } else if c == '5' {
        5
    } else if c == '6' {
        6
    } else if c == '7' {
        7
    } else if c == '8' {
        8
    } else if c == '9' {
        9
    } else {
        -1
    }
}

/// `c` is a digit that stands for a run of empty squares, '1' to '8'.
pub open spec fn is_run_digit(c: char) -> bool {
    1 <= digit_value(c) <= 8
}

/// The file of the cursor after reading placement character `c` on file `x`.
pub open spec fn next_x(c: char, x: int) -> int {
    if letter_piece(c) is Some {
        x + 1
    } else if is_run_digit(c) {
        x + digit_value(c)
    } else {
        0
    }
}

/// The rank of the cursor after reading placement character `c` on rank `y`.
pub open spec fn next_y(c: char, y: int) -> int {
    if c == '/' {
        y - 1
    } else {
        y
    }
}

/// `t` reads as a piece placement from the cursor `(x, y)`: each character is a piece
/// letter on a square of the board, a digit '1' to '8' whose run stays within the rank, or
/// a '/' that moves on to the start of the next rank down.
pub open spec fn placement_ok(t: Seq<char>, x: int, y: int) -> bool
    decreases t.len(),
{
    if t.len() == 0 {
        true
    } else {
        let c = t[0];
        &&& if letter_piece(c) is Some {
            x < 8
        } else if is_run_digit(c) {
            x + digit_value(c) <= 8
        } else {
            c == '/' && y >= 1
        }
        &&& placement_ok(t.drop_first(), next_x(c, x), next_y(c, y))
    }
}

/// The piece that reading `t` from the cursor `(x, y)` puts on `(sx, sy)`, if any.
pub open spec fn placed(t: Seq<char>, x: int, y: int, sx: int, sy: int) -> Option<(Side, Piece)>
    decreases t.len(),
{
    if t.len() == 0 {
        None
    } else if letter_piece(t[0]) is Some && x == sx && y == sy {
        letter_piece(t[0])
    } else {
        placed(t.drop_first(), next_x(t[0], x), next_y(t[0], y), sx, sy)
    }
}

/// The reading order of squares: rank 8 first, each rank from the a-file on.
pub open spec fn key(x: int, y: int) -> int {
    (7 - y) * 9 + x
}

/// The value of a run of decimal digits.
pub open spec fn dec_value(t: Seq<char>) -> int
    decreases t.len(),
{
    if t.len() == 0 {
        0
    } else {
        dec_value(t.drop_last()) * 10 + digit_value(t.last())
    }
}

/// `t` is a decimal number from 0 to 255.
pub open spec fn number_ok(t: Seq<char>) -> bool {
    &&& t.len() >= 1
    &&& forall|i: int| 0 <= i < t.len() ==> 0 <= #[trigger] digit_value(t[i]) <= 9
    &&& dec_value(t) <= 255
}

/// `t` is '-' or a run of castling letters K, Q, k, q.
pub open spec fn castling_ok(t: Seq<char>) -> bool {
    t == seq!['-'] || forall|i: int|
        0 <= i < t.len() ==> (#[trigger] t[i] == 'K' || t[i] == 'Q' || t[i] == 'k' || t[i]
            == 'q')
}

/// `t` is '-' or starts with the name of a square.
pub open spec fn ep_ok(t: Seq<char>) -> bool {
    t == seq!['-'] || (t.len() >= 2 && crate::square::is_file_char(t[0])
        && crate::square::is_rank_char(t[1]))
}

/// The file that letter `c` names.
pub open spec fn file_index(c: char) -> int {
    if c == 'a' {
        0
    } else if c == 'b' {
        1
    } else if c == 'c' {
        2
    } else if c == 'd' {
        3
    } else if c == 'e' {
        4
    } else if c == 'f' {
        5
    } else if c == 'g' {
        6
    } else {
        7
    }
}

/// The rank that digit `c` names.
pub open spec fn rank_index(c: char) -> int {
    digit_value(c) - 1
}

/// The text split at each space; `n` spaces give `n + 1` fields.
pub open spec fn split_spaces(s: Seq<char>) -> Seq<Seq<char>>
    decreases s.len(),
{
    if s.len() == 0 {
        seq![Seq::empty()]
    } else {
        let f = split_spaces(s.drop_last());
        if s.last() == ' ' {
            f.push(Seq::empty())
        } else {
            f.update(f.len() - 1, f.last().push(s.last()))
        }
    }
}

/// The standard starting position.
pub open spec fn start_fen() -> Seq<char> {
    "rnbqkbnr/pppppppp/8/8/8/8/PPPPPPPP/RNBQKBNR w KQkq - 0 1"@
}

/// The text that a FEN input stands for: "startpos" is the starting position.
pub open spec fn fen_source(s: Seq<char>) -> Seq<char> {
    if s == "startpos"@ {
        start_fen()
    } else {
        s
    }
}

/// Six fields make a FEN record that can be read.
pub open spec fn fields_ok(f: Seq<Seq<char>>) -> bool {
    &&& f.len() == 6
    &&& placement_ok(f[0], 0, 7)
    &&& (f[1] == seq!['w'] || f[1] == seq!['b'])
    &&& castling_ok(f[2])
    &&& ep_ok(f[3])
    &&& number_ok(f[4])
    &&& number_ok(f[5])
}

/// `s` can be read as a FEN record.
pub open spec fn valid_fen(s: Seq<char>) -> bool {
    fields_ok(split_spaces(fen_source(s)))
}

/// `q` is the position that the fields `f` describe.
pub open spec fn describes(q: Position, f: Seq<Seq<char>>) -> bool {
    &&& forall|x: int, y: int| #[trigger] q.at(x, y) == placed(f[0], 0, 7, x, y)
    &&& q.turn == (if f[1] == seq!['w'] {
        Side::White
    } else {
        Side::Black
    })
    &&& q.castling[0] == f[2].contains('K')
    &&& q.castling[1] == f[2].contains('Q')
    &&& q.castling[2] == f[2].contains('k')
    &&& q.castling[3] == f[2].contains('q')
    &&& q.ep == (if f[3] == seq!['-'] {
        None
    } else {
        Some(Square { x: file_index(f[3][0]) as u8, y: rank_index(f[3][1]) as u8 })
    })
    &&& q.halfmoves == dec_value(f[4])
    &&& q.fullmoves == dec_value(f[5])
}

/// Reading a placement from a cursor on the board only puts pieces on squares of the board
/// at or after the cursor in reading order.
pub proof fn lemma_placed_after(t: Seq<char>, x: int, y: int, sx: int, sy: int)
    requires
        placement_ok(t, x, y),
        0 <= x <= 8,
        0 <= y <= 7,
        placed(t, x, y, sx, sy) is Some,
    ensures
        crate::square::on_board(sx, sy),
        key(sx, sy) >= key(x, y),
    decreases t.len(),
{
    if !(letter_piece(t[0]) is Some && x == sx && y == sy) {
        lemma_placed_after(t.drop_first(), next_x(t[0], x), next_y(t[0], y), sx, sy);
    }
}

/// The characters of `s`.
fn chars_of(s: &str) -> (r: Vec<char>)
    ensures
        r@ == s@,
{
    let n = s.unicode_len();
    let mut v: Vec<char> = Vec::new();
    let mut i: usize = 0;
    while i < n
        invariant
            i <= n,
            n == s@.len(),
            v@ == s@.take(i as int),
        decreases n - i,
    {
        v.push(s.get_char(i));
        proof {
            assert(v@ =~= s@.take(i + 1));
        }
        i = i + 1;
    }
    proof {
        assert(v@ =~= s@);
    }
    v
}

/// Whether `v` holds exactly the characters of `lit`.
fn same_text(v: &Vec<char>, lit: &str) -> (r: bool)
    ensures
        r == (v@ == lit@),
{
    let n = lit.unicode_len();
    if v.len() != n {
        return false;
    }
    let mut i: usize = 0;
    while i < n
        invariant
            i <= n,
            n == lit@.len(),
            v@.len() == n,
            forall|j: int| 0 <= j < i ==> v@[j] == lit@[j],
        decreases n - i,
    {
        if v[i] != lit.get_char(i) {
            return false;
        }
        i = i + 1;
    }
    proof {
        assert(v@ =~= lit@);
    }
    true
}

/// The fields of `s`, split at each space.
fn split_fields(s: &Vec<char>) -> (r: Vec<Vec<char>>)
    ensures
        r@.len() == split_spaces(s@).len(),
        forall|k: int| 0 <= k < r@.len() ==> #[trigger] r@[k]@ == split_spaces(s@)[k],
{
    let mut done: Vec<Vec<char>> = Vec::new();
    let mut cur: Vec<char> = Vec::new();
    let mut i: usize = 0;
    while i < s.len()
        invariant
            i <= s@.len(),
            split_spaces(s@.take(i as int)).len() == done@.len() + 1,
            forall|k: int| 0 <= k < done@.len() ==> #[trigger] done@[k]@ == split_spaces(
                s@.take(i as int),
            )[k],
            split_spaces(s@.take(i as int))[done@.len() as int] == cur@,
        decreases s@.len() - i,
    {
        let c = s[i];
        let ghost pre = s@.take(i as int);
        proof {
            assert(s@.take(i + 1).drop_last() =~= pre);
            assert(s@.take(i + 1).last() == c);
        }
        if c == ' ' {
            done.push(cur);
            cur = Vec::new();
            proof {
                assert(cur@ =~= Seq::<char>::empty());
            }
        } else {
            cur.push(c);
        }
        i = i + 1;
    }
    proof {
        assert(s@.take(s@.len() as int) =~= s@);
    }
    done.push(cur);
    done
}

/// The side and kind of piece that a FEN letter names.
fn letter_to_piece(c: char) -> (r: Option<(Side, Piece)>)
    ensures
        r == letter_piece(c),
{
    match c {
        'P' => Some((Side::White, Piece::Pawn)),
        'N' => Some((Side::White, Piece::Knight)),
        'B' => Some((Side::White, Piece::Bishop)),
        'R' => Some((Side::White, Piece::Rook)),
        'Q' => Some((Side::White, Piece::Queen)),
        'K' => Some((Side::White, Piece::King)),
        'p' => Some((Side::Black, Piece::Pawn)),
        'n' => Some((Side::Black, Piece::Knight)),
        'b' => Some((Side::Black, Piece::Bishop)),
        'r' => Some((Side::Black, Piece::Rook)),
        'q' => Some((Side::Black, Piece::Queen)),
        'k' => Some((Side::Black, Piece::King)),
        _ => None,
    }
}

/// The value of a decimal digit character, or none.
fn digit_of(c: char) -> (r: Option<u8>)
    ensures
        match r {
            Some(d) => d == digit_value(c) && d <= 9,
            None => digit_value(c) == -1,
        },
{
    match c {
        '0' => Some(0),
        '1' => Some(1),
        '2' => Some(2),
        '3' => Some(3),
        '4' => Some(4),
        '5' => Some(5),
        '6' => Some(6),
        '7' => Some(7),
        '8' => Some(8),
        '9' => Some(9),
        _ => None,
    }
}

/// Values of digit runs grow as digits are added.
proof fn lemma_dec_value_prefix(t: Seq<char>, i: int)
    requires
        0 <= i <= t.len(),
        forall|j: int| 0 <= j < t.len() ==> 0 <= #[trigger] digit_value(t[j]) <= 9,
    ensures
        0 <= dec_value(t.take(i)) <= dec_value(t),
    decreases t.len(),
{
    if t.len() > 0 {
        let u = t.drop_last();
        assert forall|j: int| 0 <= j < u.len() implies 0 <= #[trigger] digit_value(u[j]) <= 9 by {
            assert(u[j] == t[j]);
        }
        if i < t.len() {
            lemma_dec_value_prefix(u, i);
            assert(u.take(i) =~= t.take(i));
        } else {
            assert(t.take(i) =~= t);
        }
        lemma_dec_value_prefix(u, u.len() as int);
        assert(u.take(u.len() as int) =~= u);
    }
}

/// The value of the decimal number `t`.
fn parse_number(t: &Vec<char>) -> (r: u8)
    requires
        number_ok(t@),
    ensures
        r == dec_value(t@),
{
    let mut acc: u16 = 0;
    let mut i: usize = 0;
    while i < t.len()
        invariant
            i <= t@.len(),
            number_ok(t@),
            acc == dec_value(t@.take(i as int)),
        decreases t@.len() - i,
    {
        proof {
            lemma_dec_value_prefix(t@, i as int);
            assert(t@.take(i + 1).drop_last() =~= t@.take(i as int));
        }
        let d = digit_of(t[i]);
        assert(0 <= digit_value(t@[i as int]) <= 9);
        acc = acc * 10 + d.unwrap() as u16;
        i = i + 1;
    }
    proof {
        assert(t@.take(t@.len() as int) =~= t@);
    }
    acc as u8
}

/// The castling rights that the FEN field `t` grants.
fn parse_castling(t: &Vec<char>) -> (r: [bool; 4])
    ensures
        r[0] == t@.contains('K'),
        r[1] == t@.contains('Q'),
        r[2] == t@.contains('k'),
        r[3] == t@.contains('q'),
{
    let mut r = [false, false, false, false];
    let mut i: usize = 0;
    while i < t.len()
        invariant
            i <= t@.len(),
            r[0] == t@.take(i as int).contains('K'),
            r[1] == t@.take(i as int).contains('Q'),
            r[2] == t@.take(i as int).contains('k'),
            r[3] == t@.take(i as int).contains('q'),
        decreases t@.len() - i,
    {
        let c = t[i];
        proof {
            assert(t@.take(i + 1) =~= t@.take(i as int).push(c));
            vstd::seq_lib::lemma_seq_contains_after_push(t@.take(i as int), c, 'K');
            vstd::seq_lib::lemma_seq_contains_after_push(t@.take(i as int), c, 'Q');
            vstd::seq_lib::lemma_seq_contains_after_push(t@.take(i as int), c, 'k');
            vstd::seq_lib::lemma_seq_contains_after_push(t@.take(i as int), c, 'q');
        }
        if c == 'K' {
            r[0] = true;
        } else if c == 'Q' {
            r[1] = true;
        } else if c == 'k' {
            r[2] = true;
        } else if c == 'q' {
            r[3] = true;
        }
        i = i + 1;
    }
    proof {
        assert(t@.take(t@.len() as int) =~= t@);
    }
    r
}

/// The file of the cursor after reading the placement `t` from `(x, y)`.
pub open spec fn end_x(t: Seq<char>, x: int, y: int) -> int
    decreases t.len(),
{
    if t.len() == 0 {
        x
    } else {
        end_x(t.drop_first(), next_x(t[0], x), next_y(t[0], y))
    }
}

/// The rank of the cursor after reading the placement `t` from `(x, y)`.
pub open spec fn end_y(t: Seq<char>, x: int, y: int) -> int
    decreases t.len(),
{
    if t.len() == 0 {
        y
    } else {
        end_y(t.drop_first(), next_x(t[0], x), next_y(t[0], y))
    }
}

/// `t` holds no space.
pub open spec fn no_space(t: Seq<char>) -> bool {
    forall|i: int| 0 <= i < t.len() ==> #[trigger] t[i] != ' '
}

/// Reading `a + b` is reading `a`, then reading `b` from where `a` left the cursor.
proof fn lemma_read_concat(a: Seq<char>, b: Seq<char>, x: int, y: int)
    ensures
        placement_ok(a + b, x, y) == (placement_ok(a, x, y) && placement_ok(
            b,
            end_x(a, x, y),
            end_y(a, x, y),
        )),
        end_x(a + b, x, y) == end_x(b, end_x(a, x, y), end_y(a, x, y)),
        end_y(a + b, x, y) == end_y(b, end_x(a, x, y), end_y(a, x, y)),
        forall|sx: int, sy: int| #[trigger]
            placed(a + b, x, y, sx, sy) == (if placed(a, x, y, sx, sy) is Some {
                placed(a, x, y, sx, sy)
            } else {
                placed(b, end_x(a, x, y), end_y(a, x, y), sx, sy)
            }),
    decreases a.len(),
{
    if a.len() == 0 {
        assert(a + b =~= b);
        assert forall|sx: int, sy: int| #[trigger] placed(a, x, y, sx, sy) is None by {}
    } else {
        assert((a + b).drop_first() =~= a.drop_first() + b);
        assert((a + b)[0] == a[0]);
        lemma_read_concat(a.drop_first(), b, next_x(a[0], x), next_y(a[0], y));
        assert forall|sx: int, sy: int| #[trigger]
            placed(a + b, x, y, sx, sy) == (if placed(a, x, y, sx, sy) is Some {
                placed(a, x, y, sx, sy)
            } else {
                placed(b, end_x(a, x, y), end_y(a, x, y), sx, sy)
            }) by {
            assert(placed(a.drop_first() + b, next_x(a[0], x), next_y(a[0], y), sx, sy) == (
            if placed(a.drop_first(), next_x(a[0], x), next_y(a[0], y), sx, sy) is Some {
                placed(a.drop_first(), next_x(a[0], x), next_y(a[0], y), sx, sy)
            } else {
                placed(b, end_x(a, x, y), end_y(a, x, y), sx, sy)
            }));
        }
    }
}

/// Reading a single character.
proof fn lemma_read_one(c: char, x: int, y: int)
    ensures
        placement_ok(seq![c], x, y) == (if letter_piece(c) is Some {
            x < 8
        } else if is_run_digit(c) {
            x + digit_value(c) <= 8
        } else {
            c == '/' && y >= 1
        }),
        end_x(seq![c], x, y) == next_x(c, x),
        end_y(seq![c], x, y) == next_y(c, y),
        forall|sx: int, sy: int| #[trigger]
            placed(seq![c], x, y, sx, sy) == (if letter_piece(c) is Some && x == sx && y == sy {
                letter_piece(c)
            } else {
                None
            }),
{
    assert(seq![c].drop_first() =~= Seq::<char>::empty());
    assert(end_x(seq![c].drop_first(), next_x(c, x), next_y(c, y)) == next_x(c, x));
    assert(end_y(seq![c].drop_first(), next_x(c, x), next_y(c, y)) == next_y(c, y));
    assert(placement_ok(seq![c].drop_first(), next_x(c, x), next_y(c, y)));
    assert forall|sx: int, sy: int| #[trigger]
        placed(seq![c], x, y, sx, sy) == (if letter_piece(c) is Some && x == sx && y == sy {
            letter_piece(c)
        } else {
            None
        }) by {
        assert(placed(seq![c].drop_first(), next_x(c, x), next_y(c, y), sx, sy) is None);
    }
}

/// The letter of a piece reads back as that piece.
proof fn lemma_letter_piece(s: Side, p: Piece)
    ensures
        letter_piece(piece_letter(s, p)) == Some((s, p)),
{
}

/// A run of empty squares reads as a run digit.
proof fn lemma_run_text(run: int, x: int, y: int)
    requires
        0 <= run <= 8,
        0 <= x,
        x + run <= 8,
    ensures
        placement_ok(run_text(run), x, y),
        end_x(run_text(run), x, y) == x + run,
        end_y(run_text(run), x, y) == y,
        forall|sx: int, sy: int| #[trigger] placed(run_text(run), x, y, sx, sy) is None,
{
    if run > 0 {
        lemma_read_one(digit_char(run), x, y);
    }
}

/// Reading the FEN of a rank, from the square where its current run of empty squares
/// began, puts back the pieces of that rank.
proof fn lemma_row_read(q: Position, y: int, x: int, run: int)
    requires
        0 <= y <= 7,
        0 <= x <= 8,
        0 <= run <= x,
        forall|i: int| x - run <= i < x ==> #[trigger] q.at(i, y) is None,
    ensures
        placement_ok(row_text(q, y, x, run), x - run, y),
        end_x(row_text(q, y, x, run), x - run, y) == 8,
        end_y(row_text(q, y, x, run), x - run, y) == y,
        forall|sx: int, sy: int| #[trigger]
            placed(row_text(q, y, x, run), x - run, y, sx, sy) == (if sy == y && x - run <= sx {
                q.at(sx, sy)
            } else {
                None
            }),
    decreases 8 - x,
{
    let t = row_text(q, y, x, run);
    if x >= 8 {
        lemma_run_text(run, x - run, y);
        assert forall|sx: int, sy: int| #[trigger]
            placed(t, x - run, y, sx, sy) == (if sy == y && x - run <= sx {
                q.at(sx, sy)
            } else {
                None
            }) by {
            if sy == y && x - run <= sx && sx < x {
                assert(q.at(sx, sy) is None);
            }
        }
    } else {
        match q.at(x, y) {
            Some((s, p)) => {
                let a = run_text(run);
                let l = seq![piece_letter(s, p)];
                let b = row_text(q, y, x + 1, 0);
                assert(t == a + l + b);
                lemma_run_text(run, x - run, y);
                lemma_letter_piece(s, p);
                lemma_read_one(piece_letter(s, p), x, y);
                lemma_read_concat(a, l, x - run, y);
                lemma_read_concat(a + l, b, x - run, y);
                lemma_row_read(q, y, x + 1, 0);
                assert forall|sx: int, sy: int| #[trigger]
                    placed(t, x - run, y, sx, sy) == (if sy == y && x - run <= sx {
                        q.at(sx, sy)
                    } else {
                        None
                    }) by {
                    if sy == y && x - run <= sx && sx < x {
                        assert(q.at(sx, sy) is None);
                    }
                }
            },
            None => {
                lemma_row_read(q, y, x + 1, run + 1);
            },
        }
    }
}

/// Reading the FEN of ranks `y` down to 1 from the start of rank `y` puts back their pieces.
proof fn lemma_ranks_read(q: Position, y: int)
    requires
        0 <= y <= 7,
    ensures
        placement_ok(ranks_text(q, y), 0, y),
        forall|sx: int, sy: int| #[trigger]
            placed(ranks_text(q, y), 0, y, sx, sy) == (if sy <= y {
                q.at(sx, sy)
            } else {
                None
            }),
    decreases y,
{
    lemma_row_read(q, y, 0, 0);
    let r = row_text(q, y, 0, 0);
    if y == 0 {
        assert forall|sx: int, sy: int| #[trigger]
            placed(ranks_text(q, y), 0, y, sx, sy) == (if sy <= y {
                q.at(sx, sy)
            } else {
                None
            }) by {
            if sy <= y && !(sy == y && 0 <= sx) {
                assert(q.at(sx, sy) is None);
            }
        }
    } else {
        let rest = ranks_text(q, y - 1);
        let slash = seq!['/'];
        lemma_ranks_read(q, y - 1);
        lemma_read_one('/', 8, y);
        lemma_read_concat(r, slash, 0, y);
        lemma_read_concat(r + slash, rest, 0, y);
        assert forall|sx: int, sy: int| #[trigger]
            placed(ranks_text(q, y), 0, y, sx, sy) == (if sy <= y {
                q.at(sx, sy)
            } else {
                None
            }) by {
            if sy == y && sx < 0 {
                assert(q.at(sx, sy) is None);
            }
        }
    }
}

/// A readable placement holds no space.
proof fn lemma_placement_no_space(t: Seq<char>, x: int, y: int)
    requires
        placement_ok(t, x, y),
    ensures
        no_space(t),
    decreases t.len(),
{
    if t.len() > 0 {
        lemma_placement_no_space(t.drop_first(), next_x(t[0], x), next_y(t[0], y));
        assert forall|i: int| 0 <= i < t.len() implies #[trigger] t[i] != ' ' by {
            if i > 0 {
                assert(t[i] == t.drop_first()[i - 1]);
            }
        }
    }
}

/// Text without spaces is a single field.
proof fn lemma_split_single(t: Seq<char>)
    requires
        no_space(t),
    ensures
        split_spaces(t) == seq![t],
    decreases t.len(),
{
    if t.len() > 0 {
        let u = t.drop_last();
        assert(no_space(u)) by {
            assert forall|i: int| 0 <= i < u.len() implies #[trigger] u[i] != ' ' by {
                assert(u[i] == t[i]);
            }
        }
        lemma_split_single(u);
        assert(t[t.len() - 1] != ' ');
        assert(u.push(t.last()) =~= t);
        assert(split_spaces(t) =~= seq![t]);
    } else {
        assert(t =~= Seq::<char>::empty());
    }
}

/// A space followed by text without spaces starts one more field.
proof fn lemma_split_push(a: Seq<char>, b: Seq<char>)
    requires
        no_space(b),
    ensures
        split_spaces(a.push(' ') + b) == split_spaces(a).push(b),
    decreases b.len(),
{
    if b.len() == 0 {
        assert(b =~= Seq::<char>::empty());
        assert(a.push(' ') + b =~= a.push(' '));
        assert(a.push(' ').drop_last() =~= a);
        assert(split_spaces(a.push(' ') + b) =~= split_spaces(a).push(b));
    } else {
        let u = b.drop_last();
        assert(no_space(u)) by {
            assert forall|i: int| 0 <= i < u.len() implies #[trigger] u[i] != ' ' by {
                assert(u[i] == b[i]);
            }
        }
        lemma_split_push(a, u);
        let whole = a.push(' ') + b;
        assert(whole.drop_last() =~= a.push(' ') + u);
        assert(whole.last() == b[b.len() - 1]);
        assert(u.push(b.last()) =~= b);
        assert(split_spaces(whole) =~= split_spaces(a).push(b));
    }
}

/// The decimal text of a number up to 255 reads back as that number.
proof fn lemma_dec_round_trip(n: nat)
    requires
        n <= 255,
    ensures
        number_ok(dec_text(n)),
        dec_value(dec_text(n)) == n,
        no_space(dec_text(n)),
    decreases n,
{
    let t = dec_text(n);
    if n < 10 {
        assert(t.drop_last() =~= Seq::<char>::empty());
        assert(dec_value(t.drop_last()) == 0);
        assert(dec_value(t) == digit_value(t.last()));
    } else {
        lemma_dec_round_trip(n / 10);
        let u = dec_text(n / 10);
        assert(t.drop_last() =~= u);
        assert(t.last() == digit_char((n % 10) as int));
        assert(dec_value(t) == dec_value(u) * 10 + digit_value(t.last()));
        assert forall|i: int| 0 <= i < t.len() implies 0 <= #[trigger] digit_value(t[i]) <= 9 by {
            if i < u.len() {
                assert(t[i] == u[i]);
            }
        }
    }
}

/// The castling field reads back as the rights it was written from.
proof fn lemma_castling_round_trip(c: [bool; 4])
    ensures
        castling_ok(castling_text(c)),
        no_space(castling_text(c)),
        castling_text(c).contains('K') == c[0],
        castling_text(c).contains('Q') == c[1],
        castling_text(c).contains('k') == c[2],
        castling_text(c).contains('q') == c[3],
{
    broadcast use vstd::seq_lib::lemma_seq_concat_contains_all_elements;

    let t = castling_text(c);
    if !c[0] && !c[1] && !c[2] && !c[3] {
        assert(t =~= seq!['-']);
        assert(!t.contains('K') && !t.contains('Q') && !t.contains('k') && !t.contains('q'));
    } else {
        let a = if c[0] {
            seq!['K']
        } else {
            Seq::empty()
        };
        let b = if c[1] {
            seq!['Q']
        } else {
            Seq::empty()
        };
        let d = if c[2] {
            seq!['k']
        } else {
            Seq::empty()
        };
        let e = if c[3] {
            seq!['q']
        } else {
            Seq::empty()
        };
        assert(t == a + b + d + e);
        assert(a.contains('K') == c[0] && !a.contains('Q') && !a.contains('k') && !a.contains(
            'q',
        )) by {
            if c[0] {
                assert(a[0] == 'K');
            }
        }
        assert(b.contains('Q') == c[1] && !b.contains('K') && !b.contains('k') && !b.contains(
            'q',
        )) by {
            if c[1] {
                assert(b[0] == 'Q');
            }
        }
        assert(d.contains('k') == c[2] && !d.contains('K') && !d.contains('Q') && !d.contains(
            'q',
        )) by {
            if c[2] {
                assert(d[0] == 'k');
            }
        }
        assert(e.contains('q') == c[3] && !e.contains('K') && !e.contains('Q') && !e.contains(
            'k',
        )) by {
            if c[3] {
                assert(e[0] == 'q');
            }
        }
        assert forall|i: int| 0 <= i < t.len() implies (#[trigger] t[i] == 'K' || t[i] == 'Q'
            || t[i] == 'k' || t[i] == 'q') by {
            assert(t.contains(t[i]));
        }
    }
}

/// Ranks whose squares hold the same pieces are written the same way.
proof fn lemma_row_text_same(p: Position, q: Position, y: int, x: int, run: int)
    requires
        forall|sx: int, sy: int| #[trigger] p.at(sx, sy) == q.at(sx, sy),
    ensures
        row_text(p, y, x, run) == row_text(q, y, x, run),
    decreases 8 - x,
{
    if x < 8 {
        assert(p.at(x, y) == q.at(x, y));
        lemma_row_text_same(p, q, y, x + 1, 0);
        lemma_row_text_same(p, q, y, x + 1, run + 1);
    }
}

/// Boards that hold the same pieces are written the same way.
proof fn lemma_ranks_text_same(p: Position, q: Position, y: int)
    requires
        forall|sx: int, sy: int| #[trigger] p.at(sx, sy) == q.at(sx, sy),
    ensures
        ranks_text(p, y) == ranks_text(q, y),
    decreases y + 1,
{
    if y >= 0 {
        lemma_row_text_same(p, q, y, 0, 0);
        lemma_ranks_text_same(p, q, y - 1);
    }
}

/// The fields of the FEN of `q`.
pub open spec fn fen_fields(q: Position) -> Seq<Seq<char>> {
    seq![
        ranks_text(q, 7),
        seq![turn_char(q.turn)],
        castling_text(q.castling),
        ep_text(q.ep),
        dec_text(q.halfmoves as nat),
        dec_text(q.fullmoves as nat),
    ]
}

/// The FEN of `q` splits into its six fields.
proof fn lemma_fen_split(q: Position)
    requires
        q.ep matches Some(e) ==> e.wf(),
    ensures
        split_spaces(fen_text(q)) == fen_fields(q),
        fields_ok(fen_fields(q)),
{
    let f = fen_fields(q);
    lemma_ranks_read(q, 7);
    lemma_placement_no_space(f[0], 0, 7);
    lemma_castling_round_trip(q.castling);
    lemma_dec_round_trip(q.halfmoves as nat);
    lemma_dec_round_trip(q.fullmoves as nat);
    assert(no_space(f[1]));
    assert(no_space(f[3]));
    let s1 = f[0];
    let s2 = s1.push(' ') + f[1];
    let s3 = s2.push(' ') + f[2];
    let s4 = s3.push(' ') + f[3];
    let s5 = s4.push(' ') + f[4];
    let s6 = s5.push(' ') + f[5];
    lemma_split_single(s1);
    lemma_split_push(s1, f[1]);
    lemma_split_push(s2, f[2]);
    lemma_split_push(s3, f[3]);
    lemma_split_push(s4, f[4]);
    lemma_split_push(s5, f[5]);
    assert(s6 =~= fen_text(q));
    assert(split_spaces(s6) =~= f);
}

/// FEN round trip: the text that `get_fen` writes for a consistent position is a valid FEN
/// record, and any position that reading it describes is written as that same text again.
pub proof fn lemma_fen_round_trip(q: Position, p: Position)
    requires
        q.ep matches Some(e) ==> e.wf(),
    ensures
        valid_fen(fen_text(q)),
        describes(p, split_spaces(fen_source(fen_text(q)))) ==> fen_text(p) == fen_text(q),
{
    reveal_strlit("startpos");
    assert(fen_text(q).len() > 8);
    assert(fen_source(fen_text(q)) == fen_text(q));
    lemma_fen_split(q);
    let f = fen_fields(q);
    if describes(p, f) {
        lemma_ranks_read(q, 7);
        assert forall|sx: int, sy: int| #[trigger] p.at(sx, sy) == q.at(sx, sy) by {
            assert(p.at(sx, sy) == placed(f[0], 0, 7, sx, sy));
            if sy > 7 {
                assert(q.at(sx, sy) is None);
            }
        }
        lemma_ranks_text_same(p, q, 7);
        lemma_castling_round_trip(q.castling);
        lemma_dec_round_trip(q.halfmoves as nat);
        lemma_dec_round_trip(q.fullmoves as nat);
        assert(p.turn == q.turn) by {
            if q.turn == Side::Black {
                assert(f[1][0] != seq!['w'][0]);
            }
        }
        assert(castling_text(p.castling) == castling_text(q.castling));
        assert(p.ep == q.ep);
        assert(fen_text(p) =~= fen_text(q));
    }
}

/// The decimal digit for `n`.
fn digit(n: u8) -> (r: char)
    requires
        n < 10,
    ensures
        r == digit_char(n as int),
{
    match n {
        0 => '0',
        1 => '1',
        2 => '2',
        3 => '3',
        4 => '4',
        5 => '5',
        6 => '6',
        7 => '7',
        8 => '8',
        _ => '9',
    }
}

/// Append the decimal text of `n`.
fn push_decimal(v: &mut Vec<char>, n: u8)
    ensures
        final(v)@ == old(v)@ + dec_text(n as nat),
{
    let ghost start = v@;
    if n >= 100 {
        v.push(digit(n / 100));
    }
    if n >= 10 {
        v.push(digit((n / 10) % 10));
    }
    v.push(digit(n % 10));
    proof {
        let k = n as nat;
        if k >= 100 {
            assert(k / 10 / 10 == k / 100) by (nonlinear_arith);
            assert(dec_text(k / 100) == seq![digit_char((k / 100) as int)]);
            assert(dec_text(k / 10) == dec_text(k / 100).push(digit_char((k / 10 % 10) as int)));
            assert(v@ =~= start + dec_text(k));
        } else if k >= 10 {
            assert(dec_text(k / 10) == seq![digit_char((k / 10) as int)]);
            assert(v@ =~= start + dec_text(k));
        } else {
            assert(v@ =~= start + dec_text(k));
        }
    }
}

/// The FEN letter of a piece.
fn letter(s: Side, p: Piece) -> (r: char)
    ensures
        r == piece_letter(s, p),
{
    match (s, p) {
        (Side::White, Piece::Pawn) => 'P',
        (Side::White, Piece::Knight) => 'N',
        (Side::White, Piece::Bishop) => 'B',
        (Side::White, Piece::Rook) => 'R',
        (Side::White, Piece::Queen) => 'Q',
        (Side::White, Piece::King) => 'K',
        (Side::Black, Piece::Pawn) => 'p',
        (Side::Black, Piece::Knight) => 'n',
        (Side::Black, Piece::Bishop) => 'b',
        (Side::Black, Piece::Rook) => 'r',
        (Side::Black, Piece::Queen) => 'q',
        (Side::Black, Piece::King) => 'k',
    }
}

impl Position {
    /// Append the FEN of rank `y`.
    fn push_row(&self, v: &mut Vec<char>, y: u8)
        requires
            y < 8,
        ensures
            final(v)@ == old(v)@ + row_text(*self, y as int, 0, 0),
    {
        let ghost start = v@;
        let mut x: u8 = 0;
        let mut run: u8 = 0;
        while x < 8
            invariant
                x <= 8,
                y < 8,
                run <= x,
                v@ + row_text(*self, y as int, x as int, run as int) == start + row_text(
                    *self,
                    y as int,
                    0,
                    0,
                ),
            decreases 8 - x,
        {
            let ghost before = v@;
            let ghost run0 = run as int;
            let sq = Square::from_file_rank(x, y);
            let piece = self.get_piece_on(sq);
            let colour = self.get_colour_on(sq);
            match (colour, piece) {
                (Some(s), Some(p)) => {
                    if run > 0 {
                        v.push(digit(run));
                    }
                    v.push(letter(s, p));
                    run = 0;
                    proof {
                        assert(self.at(x as int, y as int) == Some((s, p)));
                        assert(v@ =~= before + run_text(run0) + seq![piece_letter(s, p)]);
                        assert(row_text(*self, y as int, x as int, run0) == run_text(run0) + seq![
                            piece_letter(s, p),
                        ] + row_text(*self, y as int, x + 1, 0));
                        assert(v@ + row_text(*self, y as int, x + 1, 0) =~= before + row_text(
                            *self,
                            y as int,
                            x as int,
                            run0,
                        ));
                    }
                },
                _ => {
                    run = run + 1;
                    proof {
                        assert(self.at(x as int, y as int) == None::<(Side, Piece)>);
                    }
                },
            }
            x = x + 1;
        }
        proof {
            assert(row_text(*self, y as int, 8, run as int) == run_text(run as int));
            if run > 0 {
                assert(v@ + run_text(run as int) == v@.push(digit_char(run as int)));
            } else {
                assert(v@ + run_text(run as int) =~= v@);
            }
        }
        if run > 0 {
            v.push(digit(run));
        }
    }

    /// Append the FEN piece placement, rank 8 first.
    fn push_placement(&self, v: &mut Vec<char>)
        ensures
            final(v)@ == old(v)@ + ranks_text(*self, 7),
    {
        let ghost start = v@;
        let mut y: u8 = 7;
        loop
            invariant_except_break
                y < 8,
                v@ + ranks_text(*self, y as int) == start + ranks_text(*self, 7),
            ensures
                v@ == start + ranks_text(*self, 7),
            decreases y,
        {
            let ghost before = v@;
            self.push_row(v, y);
            if y == 0 {
                proof {
                    assert(v@ == before + ranks_text(*self, 0));
                }
                break;
            }
            v.push('/');
            proof {
                assert(v@ + ranks_text(*self, y - 1) =~= before + ranks_text(*self, y as int));
            }
            y = y - 1;
        }
    }

    /// Append the FEN of the castling rights.
    fn push_castling(&self, v: &mut Vec<char>)
        ensures
            final(v)@ == old(v)@ + castling_text(self.castling),
    {
        let ghost start = v@;
        if self.castling[0] {
            v.push('K');
        }
        if self.castling[1] {
            v.push('Q');
        }
        if self.castling[2] {
            v.push('k');
        }
        if self.castling[3] {
            v.push('q');
        }
        if !self.castling[0] && !self.castling[1] && !self.castling[2] && !self.castling[3] {
            v.push('-');
        }
        proof {
            assert(v@ =~= start + castling_text(self.castling));
        }
    }

    /// Put the pieces of the placement field `p` on an empty board.
    fn parse_placement(&mut self, p: &Vec<char>)
        requires
            old(self).wf(),
            forall|x: int, y: int| !#[trigger] old(self).occupied(x, y),
            placement_ok(p@, 0, 7),
        ensures
            final(self).wf(),
            forall|x: int, y: int| #[trigger] final(self).at(x, y) == placed(p@, 0, 7, x, y),
            final(self).same_state(old(self)),
    {
        let mut cx: u8 = 0;
        let mut cy: u8 = 7;
        let mut i: usize = 0;
        proof {
            assert(p@.skip(0) =~= p@);
            assert forall|x: int, y: int| #[trigger] self.at(x, y) == (if key(x, y) < key(
                cx as int,
                cy as int,
            ) {
                placed(p@, 0, 7, x, y)
            } else {
                None
            }) by {
                self.lemma_at_holds(x, y);
                if placed(p@, 0, 7, x, y) is Some {
                    lemma_placed_after(p@, 0, 7, x, y);
                }
            }
        }
        while i < p.len()
            invariant
                i <= p@.len(),
                cx <= 8,
                cy <= 7,
                placement_ok(p@, 0, 7),
                placement_ok(p@.skip(i as int), cx as int, cy as int),
                self.wf(),
                self.same_state(old(self)),
                forall|x: int, y: int| #[trigger] self.at(x, y) == (if key(x, y) < key(
                    cx as int,
                    cy as int,
                ) {
                    placed(p@, 0, 7, x, y)
                } else {
                    None
                }),
                forall|x: int, y: int|
                    key(x, y) >= key(cx as int, cy as int) ==> #[trigger] placed(p@, 0, 7, x, y)
                        == placed(p@.skip(i as int), cx as int, cy as int, x, y),
            decreases p@.len() - i,
        {
            let c = p[i];
            let ghost rest = p@.skip(i as int);
            let ghost (ox, oy) = (cx as int, cy as int);
            let ghost before = *self;
            proof {
                assert(rest[0] == c);
                assert(rest.drop_first() =~= p@.skip(i + 1));
            }
            match letter_to_piece(c) {
                Some((side, piece)) => {
                    let sq = Square::from_file_rank(cx, cy);
                    proof {
                        self.lemma_at_holds(ox, oy);
                    }
                    self.set_piece(sq, side, piece);
                    cx = cx + 1;
                },
                None => {
                    match digit_of(c) {
                        Some(d) => {
                            cx = cx + d;
                        },
                        None => {
                            cx = 0;
                            cy = cy - 1;
                        },
                    }
                },
            }
            proof {
                assert forall|x: int, y: int| #[trigger] self.at(x, y) == (if key(x, y) < key(
                    cx as int,
                    cy as int,
                ) {
                    placed(p@, 0, 7, x, y)
                } else {
                    None
                }) by {
                    if placed(p@, 0, 7, x, y) is Some {
                        lemma_placed_after(p@, 0, 7, x, y);
                    }
                    if placed(p@.skip(i + 1), cx as int, cy as int, x, y) is Some {
                        lemma_placed_after(p@.skip(i + 1), cx as int, cy as int, x, y);
                    }
                    if !(x == ox && y == oy) {
                        assert(self.at(x, y) == before.at(x, y));
                    }
                }
                assert forall|x: int, y: int|
                    key(x, y) >= key(cx as int, cy as int) implies #[trigger] placed(
                    p@,
                    0,
                    7,
                    x,
                    y,
                ) == placed(p@.skip(i + 1), cx as int, cy as int, x, y) by {}
            }
            i = i + 1;
        }
        proof {
            assert forall|x: int, y: int| #[trigger] self.at(x, y) == placed(p@, 0, 7, x, y) by {
                if placed(p@, 0, 7, x, y) is Some {
                    lemma_placed_after(p@, 0, 7, x, y);
                }
            }
        }
    }

    /// Set the position to the one the FEN record `fen` describes; "startpos" stands for
    /// the starting position.
    pub fn set_fen(&mut self, fen: &str)
        requires
            valid_fen(fen@),
        ensures
            final(self).wf(),
            describes(*final(self), split_spaces(fen_source(fen@))),
    {
        let mut text = chars_of(fen);
        if same_text(&text, "startpos") {
            text = chars_of("rnbqkbnr/pppppppp/8/8/8/8/PPPPPPPP/RNBQKBNR w KQkq - 0 1");
        }
        assert(text@ == fen_source(fen@));
        let parts = split_fields(&text);
        let ghost f = split_spaces(text@);
        assert(parts@[0]@ == f[0] && parts@[1]@ == f[1] && parts@[2]@ == f[2]);
        assert(parts@[3]@ == f[3] && parts@[4]@ == f[4] && parts@[5]@ == f[5]);
        *self = Position::default();
        self.parse_placement(&parts[0]);
        let ghost board = *self;
        self.turn = if parts[1].len() == 1 && parts[1][0] == 'w' {
            Side::White
        } else {
            Side::Black
        };
        proof {
            if parts@[1]@.len() == 1 && parts@[1]@[0] == 'w' {
                assert(f[1] =~= seq!['w']);
            }
        }
        self.castling = parse_castling(&parts[2]);
        let ep = &parts[3];
        if ep.len() == 1 && ep[0] == '-' {
            self.ep = None;
            proof {
                assert(f[3] =~= seq!['-']);
            }
        } else {
            self.ep = Some(
                Square::from_file_rank(crate::square::file_of(ep[0]), crate::square::rank_of(ep[1])),
            );
        }
        self.halfmoves = parse_number(&parts[4]);
        self.fullmoves = parse_number(&parts[5]);
        proof {
            assert(self.colours == board.colours && self.pieces == board.pieces);
            assert forall|x: int, y: int| #[trigger] self.square_consistent(x, y) by {
                assert(board.square_consistent(x, y));
            }
            assert forall|x: int, y: int| #[trigger] self.at(x, y) == placed(f[0], 0, 7, x, y) by {
                assert(self.at(x, y) == board.at(x, y));
            }
        }
    }

    /// The position that the FEN record `fen` describes; "startpos" stands for the starting
    /// position.
    pub fn from_fen(fen: &str) -> (r: Self)
        requires
            valid_fen(fen@),
        ensures
            r.wf(),
            describes(r, split_spaces(fen_source(fen@))),
    {
        let mut pos = Self::default();
        pos.set_fen(fen);
        pos
    }

    /// The FEN of the position.
    pub fn get_fen(&self) -> (r: String)
        requires
            self.ep matches Some(e) ==> e.wf(),
        ensures
            r@ == fen_text(*self),
    {
        let mut v: Vec<char> = Vec::new();
        self.push_placement(&mut v);
        let ghost placement = v@;
        v.push(' ');
        match self.turn {
            Side::White => v.push('w'),
            Side::Black => v.push('b'),
        }
        v.push(' ');
        let ghost before_castling = v@;
        self.push_castling(&mut v);
        v.push(' ');
        let ghost before_ep = v@;
        match self.ep {
            Some(e) => {
                v.push(file_letter(e.x));
                v.push(rank_digit(e.y));
            },
            None => v.push('-'),
        }
        proof {
            assert(v@ =~= before_ep + ep_text(self.ep));
        }
        let ghost after_ep = v@;
        v.push(' ');
        push_decimal(&mut v, self.halfmoves);
        let ghost after_half = v@;
        v.push(' ');
        push_decimal(&mut v, self.fullmoves);
        proof {
            assert(before_castling =~= placement + seq![' ', turn_char(self.turn), ' ']);
            assert(after_ep =~= placement + seq![' ', turn_char(self.turn), ' '] + castling_text(
                self.castling,
            ) + seq![' '] + ep_text(self.ep));
            assert(after_half =~= after_ep + seq![' '] + dec_text(self.halfmoves as nat));
            assert(v@ =~= after_half + seq![' '] + dec_text(self.fullmoves as nat));
            assert(v@ =~= fen_text(*self));
        }
        crate::text::string_from_chars(&v)
    }
}

} // verus!
