use vstd::prelude::*;
use vstd::string::StrSliceExecFns;
use vstd::string::StringExecFns;
use crate::direction::{Direction, dcol, drow, deltas, opposite};
use crate::error::{ChessError, ErrorKind};

verus! {

/// Whether (column, row) lies on the 8x8 board.
pub open spec fn on_board(c: int, r: int) -> bool {
    0 <= c <= 7 && 0 <= r <= 7
}

/// The square one step from `p` in direction `d`, if it is on the board.
pub open spec fn step(p: (int, int), d: Direction) -> Option<(int, int)> {
    if on_board(p.0 + dcol(d), p.1 + drow(d)) {
        Some((p.0 + dcol(d), p.1 + drow(d)))
    } else {
        None
    }
}

/// Position of square (c, r) in a column-major list of the 64 squares.
pub open spec fn index_of(c: int, r: int) -> int {
    c * 8 + r
}

/// The file letter of column `c`.
pub open spec fn file_letter(c: int) -> char {
    if c == 0 { 'a' }
    else if c == 1 { 'b' }
    else if c == 2 { 'c' }
    else if c == 3 { 'd' }
    else if c == 4 { 'e' }
    else if c == 5 { 'f' }
    else if c == 6 { 'g' }
    else { 'h' }
}

/// The rank digit of row `r`.
pub open spec fn rank_digit(r: int) -> char {
    if r == 0 { '1' }
    else if r == 1 { '2' }
    else if r == 2 { '3' }
    else if r == 3 { '4' }
    else if r == 4 { '5' }
    else if r == 5 { '6' }
    else if r == 6 { '7' }
    else { '8' }
}

/// Algebraic notation of square `p`, such as "e4".
pub open spec fn text_of(p: (int, int)) -> Seq<char> {
    seq![file_letter(p.0), rank_digit(p.1)]
}

/// The column that a file letter names, either case.
pub open spec fn parse_file(ch: char) -> Option<int> {
    if 'a' <= ch && ch <= 'h' {
        Some(ch as int - 'a' as int)
    } else if 'A' <= ch && ch <= 'H' {
        Some(ch as int - 'A' as int)
    } else {
        None
    }
}

/// The row that a rank digit names.
pub open spec fn parse_rank(ch: char) -> Option<int> {
    if '1' <= ch && ch <= '8' {
        Some(ch as int - '1' as int)
    } else {
        None
    }
}

/// The square that text `s` names in algebraic notation, if any.
pub open spec fn parse_text(s: Seq<char>) -> Option<(int, int)> {
    if s.len() == 2 && parse_file(s[0]) is Some && parse_rank(s[1]) is Some {
        Some((parse_file(s[0])->0, parse_rank(s[1])->0))
    } else {
        None
    }
}

/// A square of the board, held as a column (file a-h as 0-7) and a row
/// (rank 1-8 as 0-7). Every value lies on the board.
#[derive(Clone, Copy, PartialEq, Eq, Structural, Debug)]
pub struct Name {
    column: i8,
    row: i8,
}

impl View for Name {
    type V = (int, int);

    closed spec fn view(&self) -> (int, int) {
        (self.column as int, self.row as int)
    }
}

/// Every square on the board survives a trip through its text: reading
/// the text of (c, r) gives (c, r) back.
pub proof fn lemma_text_round_trip(c: int, r: int)
    requires
        on_board(c, r),
    ensures
        parse_text(text_of((c, r))) == Some((c, r)),
{
}

/// A step from a square of the board either leaves the board or lands on
/// the square one column and row offset away in that direction, one king
/// step from where it started; stepping back the other way then returns to
/// the start.
pub proof fn lemma_step(p: (int, int), d: Direction)
    requires
        on_board(p.0, p.1),
    ensures
        step(p, d) is None || step(p, d) == Some((p.0 + dcol(d), p.1 + drow(d))),
        -1 <= dcol(d) <= 1 && -1 <= drow(d) <= 1 && (dcol(d) != 0 || drow(d) != 0),
        step(p, d) is Some ==> step(step(p, d)->0, opposite(d)) == Some(p),
{
}

/// Two squares are equal exactly when their views are.
pub proof fn lemma_view_eq(a: Name, b: Name)
    ensures
        a@ == b@ <==> a == b,
{
}

impl Name {
    #[verifier::type_invariant]
    pub(crate) open spec fn inv(self) -> bool {
        on_board(self@.0, self@.1)
    }

    /// The square at `column` and `row`, or `OutOfBounds` where either
    /// lies outside 0..=7.
    pub fn new(column: i8, row: i8) -> (r: Result<Name, ChessError>)
        ensures
            r is Ok <==> on_board(column as int, row as int),
            r is Ok ==> r->Ok_0@ == (column as int, row as int),
            r is Err ==> r->Err_0.kind == ErrorKind::OutOfBounds,
    {
        if 0 <= column && column <= 7 && 0 <= row && row <= 7 {
            Ok(Name { column, row })
        } else {
            Err(ChessError::new(ErrorKind::OutOfBounds, "column and row must lie between 0 and 7"))
        }
    }

    /// `new` on a (column, row) pair.
    pub fn from_tuple(tuple: (i8, i8)) -> (r: Result<Name, ChessError>)
        ensures
            r is Ok <==> on_board(tuple.0 as int, tuple.1 as int),
            r is Ok ==> r->Ok_0@ == (tuple.0 as int, tuple.1 as int),
            r is Err ==> r->Err_0.kind == ErrorKind::OutOfBounds,
    {
        Self::new(tuple.0, tuple.1)
    }

    pub fn column(&self) -> (r: i8)
        ensures
            r as int == self@.0,
            0 <= r <= 7,
    {
        proof { use_type_invariant(self); }
        self.column
    }

    pub fn row(&self) -> (r: i8)
        ensures
            r as int == self@.1,
            0 <= r <= 7,
    {
        proof { use_type_invariant(self); }
        self.row
    }

    /// The square shifted by (`dc`, `dr`), if it is on the board.
    pub fn offset(&self, dc: i8, dr: i8) -> (r: Option<Name>)
        requires
            -8 <= dc <= 8,
            -8 <= dr <= 8,
        ensures
            r is Some <==> on_board(self@.0 + dc, self@.1 + dr),
            r is Some ==> r->0@ == (self@.0 + dc, self@.1 + dr),
    {
        proof { use_type_invariant(self); }
        let column = self.column + dc;
        let row = self.row + dr;
        if 0 <= column && column <= 7 && 0 <= row && row <= 7 {
            Some(Name { column, row })
        } else {
            None
        }
    }

    /// The square one step away in direction `d`, or `None` at the edge.
    pub fn neighbour(&self, d: Direction) -> (r: Option<Name>)
        ensures
            r is Some <==> step(self@, d) is Some,
            r is Some ==> r->0@ == step(self@, d)->0,
    {
        let (d_column, d_row) = deltas(d);
        self.offset(d_column, d_row)
    }

    /// Position of this square in a column-major list of the 64 squares.
    pub fn index(&self) -> (r: usize)
        ensures
            r as int == index_of(self@.0, self@.1),
            r < 64,
            on_board(self@.0, self@.1),
    {
        proof { use_type_invariant(self); }
        (self.column as usize) * 8 + (self.row as usize)
    }

    /// The square at position `i` of a column-major list of the 64 squares.
    pub fn from_index(i: usize) -> (r: Name)
        requires
            i < 64,
        ensures
            index_of(r@.0, r@.1) == i,
            r@ == (i as int / 8, i as int % 8),
    {
        Name { column: (i / 8) as i8, row: (i % 8) as i8 }
    }

    /// Algebraic notation of this square, such as "e4".
    pub fn to_text(&self) -> (r: String)
        ensures
            r@ == text_of(self@),
    {
        proof { use_type_invariant(self); }
        let file = match self.column {
            0 => "a",
            1 => "b",
            2 => "c",
            3 => "d",
            4 => "e",
            5 => "f",
            6 => "g",
            _ => "h",
        };
        let rank = match self.row {
            0 => "1",
            1 => "2",
            2 => "3",
            3 => "4",
            4 => "5",
            5 => "6",
            6 => "7",
            _ => "8",
        };
        proof {
            reveal_strlit("a"); reveal_strlit("b"); reveal_strlit("c"); reveal_strlit("d");
            reveal_strlit("e"); reveal_strlit("f"); reveal_strlit("g"); reveal_strlit("h");
            reveal_strlit("1"); reveal_strlit("2"); reveal_strlit("3"); reveal_strlit("4");
            reveal_strlit("5"); reveal_strlit("6"); reveal_strlit("7"); reveal_strlit("8");
        }
        let r = String::from_str(file).concat(rank);
        assert(r@ =~= text_of(self@));
        r
    }

    /// The square that `s` names: a file letter a-h in either case, then a
    /// rank digit 1-8, and nothing else. Anything else is `MalformedCoordinate`.
    pub fn from_text(s: &str) -> (r: Result<Name, ChessError>)
        ensures
            r is Ok <==> parse_text(s@) is Some,
            r is Ok ==> r->Ok_0@ == parse_text(s@)->0,
            r is Err ==> r->Err_0.kind == ErrorKind::MalformedCoordinate,
    {
        if s.unicode_len() != 2 {
            return Err(ChessError::new(ErrorKind::MalformedCoordinate, "expected two characters"));
        }
        let f = s.get_char(0);
        let k = s.get_char(1);
        let column: i8 = if 'a' <= f && f <= 'h' {
            ((f as u32) - ('a' as u32)) as i8
        } else if 'A' <= f && f <= 'H' {
            ((f as u32) - ('A' as u32)) as i8
        } else {
            return Err(ChessError::new(ErrorKind::MalformedCoordinate, "file must be a letter a-h"));
        };
        if !('1' <= k && k <= '8') {
            return Err(ChessError::new(ErrorKind::MalformedCoordinate, "rank must be a digit 1-8"));
        }
        let row = ((k as u32) - ('1' as u32)) as i8;
        Ok(Name { column, row })
    }
}

impl std::str::FromStr for Name {
    type Err = ChessError;

    fn from_str(s: &str) -> (r: Result<Name, ChessError>)
        ensures
            r is Ok <==> parse_text(s@) is Some,
            r is Ok ==> r->Ok_0@ == parse_text(s@)->0,
            r is Err ==> r->Err_0.kind == ErrorKind::MalformedCoordinate,
    {
        Name::from_text(s)
    }
}

} // verus!
