use vstd::prelude::*;
use crate::error::{ChessError, ErrorKind};
use crate::name::{Name, index_of, on_board};
use crate::piece::{Piece, reaches, move_views};

verus! {

/// Whether `m` is a pseudo-legal move on `b`: a piece stands on its
/// origin and reaches its destination.
pub open spec fn is_move(b: Seq<Option<Piece>>, m: ((int, int), (int, int))) -> bool {
    &&& on_board(m.0.0, m.0.1)
    &&& b[index_of(m.0.0, m.0.1)] is Some
    &&& reaches(b, b[index_of(m.0.0, m.0.1)]->0, m.0, m.1)
}

/// One cell of the board: its own square and the piece on it, if any.
pub struct Square {
    piece: Option<Piece>,
    name: Name,
}

impl Square {
    pub closed spec fn spec_piece(&self) -> Option<Piece> {
        self.piece
    }

    pub closed spec fn spec_name(&self) -> Name {
        self.name
    }

    pub fn piece(&self) -> (r: Option<Piece>)
        ensures
            r == self.spec_piece(),
    {
        self.piece
    }

    pub fn name(&self) -> (r: Name)
        ensures
            r == self.spec_name(),
    {
        self.name
    }

    /// The moves of the piece on this cell of `board`, each paired with
    /// this cell's square; none where the cell is empty.
    pub fn legal_moves(&self, board: &Position) -> (r: Vec<(Name, Name)>)
        requires
            board.wf(),
            board@[index_of(self.spec_name()@.0, self.spec_name()@.1)] == self.spec_piece(),
        ensures
            forall|m: ((int, int), (int, int))|
                #[trigger] move_views(r@).contains(m) <==> {
                    &&& self.spec_piece() is Some
                    &&& m.0 == self.spec_name()@
                    &&& reaches(board@, self.spec_piece()->0, m.0, m.1)
                },
            move_views(r@).no_duplicates(),
    {
        match self.piece {
            Some(p) => {
                let dests = p.destinations(&self.name, board);
                let mut moves: Vec<(Name, Name)> = Vec::new();
                let mut i: usize = 0;
                while i < dests.len()
                    invariant
                        0 <= i <= dests@.len(),
                        move_views(moves@) == move_views_from(self.name, dests@.subrange(0, i as int)),
                    decreases dests@.len() - i,
                {
                    proof {
                        assert(dests@.subrange(0, i + 1) =~= dests@.subrange(0, i as int).push(dests@[i as int]));
                    }
                    moves.push((self.name, dests[i]));
                    proof {
                        assert(move_views(moves@) =~= move_views_from(self.name, dests@.subrange(0, i as int)).push((self.name@, dests@[i as int]@)));
                    }
                    i = i + 1;
                }
                proof {
                    assert(dests@.subrange(0, dests@.len() as int) =~= dests@);
                    assert forall|a: int, b: int| 0 <= a < move_views(moves@).len() && 0 <= b < move_views(moves@).len()
                        && a != b implies move_views(moves@)[a] != move_views(moves@)[b] by {
                        assert(crate::piece::views(dests@)[a] != crate::piece::views(dests@)[b]);
                    }
                    assert forall|m: ((int, int), (int, int))|
                        #[trigger] move_views(moves@).contains(m) <==> {
                            &&& m.0 == self.name@
                            &&& reaches(board@, p, m.0, m.1)
                        } by {
                        if move_views(moves@).contains(m) {
                            let j = choose|j: int| 0 <= j < move_views(moves@).len() && move_views(moves@)[j] == m;
                            assert(crate::piece::views(dests@)[j] == m.1);
                            assert(crate::piece::views(dests@).contains(m.1));
                        }
                        if m.0 == self.name@ && reaches(board@, p, m.0, m.1) {
                            assert(crate::piece::views(dests@).contains(m.1));
                            let j = choose|j: int| 0 <= j < crate::piece::views(dests@).len() && crate::piece::views(dests@)[j] == m.1;
                            assert(move_views(moves@)[j] == m);
                        }
                    }
                }
                moves
            }
            None => {
                let moves: Vec<(Name, Name)> = Vec::new();
                proof {
                    assert forall|m: ((int, int), (int, int))|
                        !(#[trigger] move_views(moves@).contains(m)) by {}
                }
                moves
            }
        }
    }
}

/// The origins of the moves `s` come in column-major order of the board.
pub open spec fn origins_ordered(s: Seq<((int, int), (int, int))>) -> bool {
    forall|a: int, b: int| 0 <= a < b < s.len() ==> #[trigger] index_of(s[a].0.0, s[a].0.1)
        <= #[trigger] index_of(s[b].0.0, s[b].0.1)
}

/// The moves that pair square `o` with each of `dests`.
pub open spec fn move_views_from(o: Name, dests: Seq<Name>) -> Seq<((int, int), (int, int))> {
    dests.map_values(|t: Name| (o@, t@))
}

/// The 8x8 board: 64 cells in column-major order, cell `c * 8 + r` holding
/// square (c, r).
pub struct Position {
    squares: Vec<Square>,
}

impl View for Position {
    type V = Seq<Option<Piece>>;

    closed spec fn view(&self) -> Seq<Option<Piece>> {
        self.squares@.map_values(|s: Square| s.piece)
    }
}

impl Position {
    /// The board has 64 cells and cell `i` holds square (i / 8, i % 8).
    pub closed spec fn wf(&self) -> bool {
        &&& self.squares@.len() == 64
        &&& forall|i: int| 0 <= i < 64 ==> (#[trigger] self.squares@[i]).name@ == (i / 8, i % 8)
    }

    /// The board with no piece on it.
    pub fn new() -> (r: Position)
        ensures
            r.wf(),
            r@.len() == 64,
            forall|i: int| 0 <= i < 64 ==> (#[trigger] r@[i]) is None,
    {
        let mut squares: Vec<Square> = Vec::new();
        let mut i: usize = 0;
        while i < 64
            invariant
                0 <= i <= 64,
                squares@.len() == i,
                forall|j: int| 0 <= j < i ==> (#[trigger] squares@[j]).name@ == (j / 8, j % 8),
                forall|j: int| 0 <= j < i ==> (#[trigger] squares@[j]).piece is None,
            decreases 64 - i,
        {
            squares.push(Square { piece: None, name: Name::from_index(i) });
            i = i + 1;
        }
        Position { squares }
    }

    /// Every board has exactly 64 cells.
    pub fn len(&self) -> (r: usize)
        requires
            self.wf(),
        ensures
            r == 64,
            self@.len() == 64,
    {
        self.squares.len()
    }

    /// The piece on square `at`, if any.
    pub fn piece_at(&self, at: &Name) -> (r: Option<Piece>)
        requires
            self.wf(),
        ensures
            r == self@[index_of(at@.0, at@.1)],
            self@.len() == 64,
            on_board(at@.0, at@.1),
    {
        self.squares[at.index()].piece
    }

    /// The cell of square `at`.
    pub fn square(&self, at: &Name) -> (r: &Square)
        requires
            self.wf(),
        ensures
            r.spec_name()@ == at@,
            r.spec_piece() == self@[index_of(at@.0, at@.1)],
    {
        let r = &self.squares[at.index()];
        assert(r.name@ == at@);
        r
    }

    /// Puts `piece` on square `at`, replacing what stood there.
    pub fn place(&mut self, at: Name, piece: Piece)
        requires
            old(self).wf(),
        ensures
            final(self).wf(),
            final(self)@ == old(self)@.update(index_of(at@.0, at@.1), Some(piece)),
    {
        self.set(at, Some(piece));
    }

    /// Takes the piece off square `at` and returns it.
    pub fn remove(&mut self, at: Name) -> (r: Option<Piece>)
        requires
            old(self).wf(),
        ensures
            final(self).wf(),
            r == old(self)@[index_of(at@.0, at@.1)],
            final(self)@ == old(self)@.update(index_of(at@.0, at@.1), None),
    {
        let r = self.piece_at(&at);
        self.set(at, None);
        r
    }

    fn set(&mut self, at: Name, piece: Option<Piece>)
        requires
            old(self).wf(),
        ensures
            final(self).wf(),
            final(self)@ == old(self)@.update(index_of(at@.0, at@.1), piece),
    {
        let i = at.index();
        let ghost before = self.squares@;
        self.squares.set(i, Square { piece, name: at });
        proof {
            assert(self.squares@ == before.update(i as int, Square { piece, name: at }));
            assert(self.squares@.map_values(|s: Square| s.piece)
                =~= before.map_values(|s: Square| s.piece).update(i as int, piece));
            assert(at@ == (i as int / 8, i as int % 8));
        }
    }

    /// Moves the piece on `origin` to `destination`, capturing what stood
    /// there. `IllegalOrigin` where `origin` is empty, `IllegalDestination`
    /// where its piece cannot reach `destination`; the board is then left
    /// as it was.
    pub fn apply_move(&mut self, origin: Name, destination: Name) -> (r: Result<(), ChessError>)
        requires
            old(self).wf(),
        ensures
            final(self).wf(),
            old(self)@[index_of(origin@.0, origin@.1)] is None ==> r is Err
                && r->Err_0.kind == ErrorKind::IllegalOrigin,
            r is Ok <==> is_move(old(self)@, (origin@, destination@)),
            r is Ok ==> final(self)@ == old(self)@
                .update(index_of(origin@.0, origin@.1), None)
                .update(index_of(destination@.0, destination@.1), old(self)@[index_of(origin@.0, origin@.1)]),
            r is Err ==> final(self)@ == old(self)@,
            r is Err && old(self)@[index_of(origin@.0, origin@.1)] is Some ==> r->Err_0.kind
                == ErrorKind::IllegalDestination,
    {
        let p = match self.piece_at(&origin) {
            Some(p) => p,
            None => {
                return Err(ChessError::new(ErrorKind::IllegalOrigin, "no piece on the origin square"));
            }
        };
        let dests = p.destinations(&origin, self);
        let mut i: usize = 0;
        let mut found = false;
        while i < dests.len() && !found
            invariant
                0 <= i <= dests@.len(),
                found ==> crate::piece::views(dests@).contains(destination@),
                !found ==> forall|j: int| 0 <= j < i ==> dests@[j]@ != destination@,
            decreases dests@.len() - i,
        {
            proof { crate::name::lemma_view_eq(dests@[i as int], destination); }
            if dests[i] == destination {
                found = true;
                proof { assert(crate::piece::views(dests@)[i as int] == destination@); }
            }
            i = i + 1;
        }
        if !found {
            proof {
                assert(!crate::piece::views(dests@).contains(destination@));
            }
            return Err(ChessError::new(ErrorKind::IllegalDestination, "the piece cannot reach that square"));
        }
        self.set(origin, None);
        self.set(destination, Some(p));
        Ok(())
    }

    /// Every pseudo-legal move on the board, cell by cell in column-major
    /// order, each cell's moves together. The board is only read.
    pub fn legal_moves(&self) -> (r: Vec<(Name, Name)>)
        requires
            self.wf(),
        ensures
            forall|m: ((int, int), (int, int))|
                #[trigger] move_views(r@).contains(m) <==> is_move(self@, m),
            move_views(r@).no_duplicates(),
            origins_ordered(move_views(r@)),
    {
        let mut moves: Vec<(Name, Name)> = Vec::new();
        let mut i: usize = 0;
        while i < 64
            invariant
                0 <= i <= 64,
                self.squares@.len() == 64,
                move_views(moves@).no_duplicates(),
                origins_ordered(move_views(moves@)),
                forall|j: int| 0 <= j < 64 ==> (#[trigger] self.squares@[j]).name@ == (j / 8, j % 8),
                forall|m: ((int, int), (int, int))|
                    #[trigger] move_views(moves@).contains(m) <==> (is_move(self@, m)
                        && index_of(m.0.0, m.0.1) < i),
            decreases 64 - i,
        {
            let mut more = self.squares[i].legal_moves(self);
            let ghost before = moves@;
            let ghost added = more@;
            moves.append(&mut more);
            proof {
                assert(move_views(moves@) =~= move_views(before) + move_views(added));
                assert forall|m: ((int, int), (int, int))|
                    #[trigger] move_views(moves@).contains(m) <==> (is_move(self@, m)
                        && index_of(m.0.0, m.0.1) < i + 1) by {
                    lemma_contains_concat(move_views(before), move_views(added), m);
                    let s = self.squares@[i as int];
                    assert(self@[i as int] == s.piece);
                    if on_board(m.0.0, m.0.1) && index_of(m.0.0, m.0.1) == i {
                        assert(m.0 == (i as int / 8, i as int % 8));
                    }
                    if m.0 == s.name@ {
                        assert(index_of(m.0.0, m.0.1) == i);
                    }
                }
                assert forall|m: ((int, int), (int, int))| #[trigger] move_views(before).contains(m)
                    implies !move_views(added).contains(m) by {
                    assert(self.squares@[i as int].name@ == (i as int / 8, i as int % 8));
                }
                lemma_concat_no_duplicates(move_views(before), move_views(added));
                let mv = move_views(moves@);
                let bv = move_views(before);
                let av = move_views(added);
                assert forall|a: int, b: int| 0 <= a < b < mv.len() implies #[trigger] index_of(mv[a].0.0, mv[a].0.1)
                    <= #[trigger] index_of(mv[b].0.0, mv[b].0.1) by {
                    if b >= bv.len() {
                        assert(mv[b] == av[b - bv.len()]);
                        assert(av.contains(av[b - bv.len()]));
                        assert(index_of(mv[b].0.0, mv[b].0.1) == i);
                        if a < bv.len() {
                            assert(mv[a] == bv[a]);
                            assert(bv.contains(bv[a]));
                        } else {
                            assert(mv[a] == av[a - bv.len()]);
                            assert(av.contains(av[a - bv.len()]));
                            assert(index_of(mv[a].0.0, mv[a].0.1) == i);
                        }
                    } else {
                        assert(mv[a] == bv[a]);
                        assert(mv[b] == bv[b]);
                    }
                }
            }
            i = i + 1;
        }
        proof {
            assert forall|m: ((int, int), (int, int))|
                #[trigger] move_views(moves@).contains(m) <==> is_move(self@, m) by {
                if is_move(self@, m) {
                    assert(index_of(m.0.0, m.0.1) < 64);
                }
            }
        }
        moves
    }
}

/// A board with no piece on it has no move, so a list that holds exactly
/// its moves is empty.
pub proof fn lemma_empty_board(b: Seq<Option<Piece>>, moves: Seq<((int, int), (int, int))>)
    requires
        b.len() == 64,
        forall|i: int| 0 <= i < 64 ==> (#[trigger] b[i]) is None,
        forall|m: ((int, int), (int, int))| #[trigger] moves.contains(m) <==> is_move(b, m),
    ensures
        forall|m: ((int, int), (int, int))| !(#[trigger] is_move(b, m)),
        moves.len() == 0,
{
    assert forall|m: ((int, int), (int, int))| !(#[trigger] is_move(b, m)) by {
        if on_board(m.0.0, m.0.1) {
            assert(b[index_of(m.0.0, m.0.1)] is None);
        }
    }
    if moves.len() > 0 {
        assert(moves.contains(moves[0]));
    }
}

/// On a board that holds one piece, the moves are exactly that piece's
/// destinations, each paired with its square.
pub proof fn lemma_single_piece(b: Seq<Option<Piece>>, at: (int, int), p: Piece)
    requires
        b.len() == 64,
        on_board(at.0, at.1),
        b[index_of(at.0, at.1)] == Some(p),
        forall|i: int| 0 <= i < 64 && i != index_of(at.0, at.1) ==> (#[trigger] b[i]) is None,
    ensures
        forall|m: ((int, int), (int, int))| #[trigger] is_move(b, m) <==> (m.0 == at && reaches(b, p, at, m.1)),
{
    assert forall|m: ((int, int), (int, int))| #[trigger] is_move(b, m) <==> (m.0 == at && reaches(b, p, at, m.1)) by {
        if on_board(m.0.0, m.0.1) && m.0 != at {
            assert(index_of(m.0.0, m.0.1) != index_of(at.0, at.1));
            assert(b[index_of(m.0.0, m.0.1)] is None);
        }
    }
}

proof fn lemma_concat_no_duplicates<A>(a: Seq<A>, b: Seq<A>)
    requires
        a.no_duplicates(),
        b.no_duplicates(),
        forall|x: A| #[trigger] a.contains(x) ==> !b.contains(x),
    ensures
        (a + b).no_duplicates(),
{
    assert forall|i: int, j: int| 0 <= i < (a + b).len() && 0 <= j < (a + b).len() && i != j
        implies (a + b)[i] != (a + b)[j] by {
        if i < a.len() && j >= a.len() {
            assert(a.contains(a[i]));
            assert(b[j - a.len()] == (a + b)[j]);
        } else if j < a.len() && i >= a.len() {
            assert(a.contains(a[j]));
            assert(b[i - a.len()] == (a + b)[i]);
        }
    }
}

proof fn lemma_contains_concat<A>(a: Seq<A>, b: Seq<A>, x: A)
    ensures
        (a + b).contains(x) <==> a.contains(x) || b.contains(x),
{
    if (a + b).contains(x) {
        let j = choose|j: int| 0 <= j < (a + b).len() && (a + b)[j] == x;
        if j < a.len() {
            assert(a[j] == x);
        } else {
            assert(b[j - a.len()] == x);
        }
    }
    if a.contains(x) {
        let j = choose|j: int| 0 <= j < a.len() && a[j] == x;
        assert((a + b)[j] == x);
    }
    if b.contains(x) {
        let j = choose|j: int| 0 <= j < b.len() && b[j] == x;
        assert((a + b)[j + a.len()] == x);
    }
}

} // verus!
