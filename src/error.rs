use vstd::prelude::*;

verus! {

/// What went wrong.
#[derive(Clone, Copy, PartialEq, Eq, Structural, Debug)]
pub enum ErrorKind {
    /// A column or row outside the board.
    OutOfBounds,
    /// Text that is not a square in algebraic notation.
    MalformedCoordinate,
    /// A move or query from a square that holds no piece.
    IllegalOrigin,
    /// A destination that the piece at the origin cannot reach.
    IllegalDestination,
}

/// The error of every fallible operation of this library.
#[derive(Debug)]
pub struct ChessError {
    pub kind: ErrorKind,
    pub details: String,
}

impl ChessError {
    pub fn new(kind: ErrorKind, msg: &str) -> (r: ChessError)
        ensures
            r.kind == kind,
            r.details@ == msg@,
    {
        ChessError { kind, details: String::from_str(msg) }
    }

    /// The message of this error.
    pub fn description(&self) -> (r: &str)
        ensures
            r@ == self.details@,
    {
        self.details.as_str()
    }
}

} // verus!
