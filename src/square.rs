use vstd::prelude::*;

verus! {

/// A board coordinate: `x` is the file (0 = a), `y` the rank (0 = rank 1).
#[derive(Debug, Clone, Copy, PartialEq, Eq, Structural)]
pub struct Square {
    pub x: u8,
    pub y: u8,
}

/// Whether `(x, y)` lies on the board.
pub open spec fn on_board(x: int, y: int) -> bool {
    0 <= x < 8 && 0 <= y < 8
}

/// The letter of file `x` (0 = 'a').
pub open spec fn file_char(x: int) -> char {
    if x == 0 {
        'a'
    } else if x == 1 {
        'b'
    } else if x == 2 {
        'c'
    } else if x == 3 {
        'd'
    } else if x == 4 {
        'e'
    } else if x == 5 {
        'f'
    } else if x == 6 {
        'g'
    } else {
        'h'
    }
}

/// The digit of rank `y` (0 = '1').
pub open spec fn rank_char(y: int) -> char {
    if y == 0 {
        '1'
    } else if y == 1 {
        '2'
    } else if y == 2 {
        '3'
    } else if y == 3 {
        '4'
    } else if y == 4 {
        '5'
    } else if y == 5 {
        '6'
    } else if y == 6 {
        '7'
    } else {
        '8'
    }
}

/// `c` is a file letter, 'a' to 'h'.
pub open spec fn is_file_char(c: char) -> bool {
    'a' <= c <= 'h'
}

/// `c` is a rank digit, '1' to '8'.
pub open spec fn is_rank_char(c: char) -> bool {
    '1' <= c <= '8'
}

/// The algebraic name of `(x, y)`: file letter, then rank digit.
pub open spec fn square_text(x: int, y: int) -> Seq<char> {
    seq![file_char(x), rank_char(y)]
}

/// The letter of file `x`.
pub fn file_letter(x: u8) -> (r: char)
    requires
        x < 8,
    ensures
        r == file_char(x as int),
{
    match x {
        0 => 'a',
        1 => 'b',
        2 => 'c',
        3 => 'd',
        4 => 'e',
        5 => 'f',
        6 => 'g',
        _ => 'h',
    }
}

/// The digit of rank `y`.
pub fn rank_digit(y: u8) -> (r: char)
    requires
        y < 8,
    ensures
        r == rank_char(y as int),
{
    match y {
        0 => '1',
        1 => '2',
        2 => '3',
        3 => '4',
        4 => '5',
        5 => '6',
        6 => '7',
        _ => '8',
    }
}

/// The file whose letter is `c`.
pub fn file_of(c: char) -> (r: u8)
    requires
        is_file_char(c),
    ensures
        r < 8,
        file_char(r as int) == c,
{
    match c {
        'a' => 0,
        'b' => 1,
        'c' => 2,
        'd' => 3,
        'e' => 4,
        'f' => 5,
        'g' => 6,
        _ => 7,
    }
}

/// The rank whose digit is `c`.
pub fn rank_of(c: char) -> (r: u8)
    requires
        is_rank_char(c),
    ensures
        r < 8,
        rank_char(r as int) == c,
{
    match c {
        '1' => 0,
        '2' => 1,
        '3' => 2,
        '4' => 3,
        '5' => 4,
        '6' => 5,
        '7' => 6,
        _ => 7,
    }
}

impl Square {
    /// Read a square from its algebraic name; characters after the second are ignored.
    pub fn from_string(word: &str) -> (r: Square)
        requires
            word@.len() >= 2,
            is_file_char(word@[0]),
            is_rank_char(word@[1]),
        ensures
            r.wf(),
            file_char(r.x as int) == word@[0],
            rank_char(r.y as int) == word@[1],
    {
        let f = word.get_char(0);
        let r = word.get_char(1);
        Self::from_file_rank(file_of(f), rank_of(r))
    }

    /// The algebraic name of the square.
    pub fn to_string(&self) -> (r: String)
        requires
            self.wf(),
        ensures
            r@ == square_text(self.x as int, self.y as int),
    {
        let mut v: Vec<char> = Vec::new();
        v.push(file_letter(self.x));
        v.push(rank_digit(self.y));
        proof {
            assert(v@ =~= square_text(self.x as int, self.y as int));
        }
        crate::text::string_from_chars(&v)
    }

    /// The square lies on the board.
    pub open spec fn wf(&self) -> bool {
        self.x < 8 && self.y < 8
    }

    /// The linear index `rank * 8 + file`.
    pub open spec fn index(&self) -> int {
        8 * self.y + self.x
    }

    /// Create a square from file and rank.
    pub fn from_file_rank(x: u8, y: u8) -> (r: Self)
        ensures
            r.x == x,
            r.y == y,
    {
        Square { x, y }
    }

    /// Create a square from its linear index.
    pub fn from_index(idx: u8) -> (r: Self)
        ensures
            r.x == idx % 8,
            r.y == idx / 8,
            idx < 64 ==> r.wf() && r.index() == idx,
    {
        Square { x: idx % 8, y: idx / 8 }
    }

    /// The linear index of the square.
    pub fn get_index(&self) -> (r: u8)
        requires
            self.wf(),
        ensures
            r == self.index(),
            r < 64,
    {
        8 * self.y + self.x
    }
}

} // verus!
