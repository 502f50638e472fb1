use vstd::prelude::*;
use crate::direction::{Direction, dcol, drow};
use crate::name::{Name, index_of, on_board};
use crate::square::Position;

verus! {

/// The side a piece plays for.
#[derive(Clone, Copy, PartialEq, Eq, Structural, Debug)]
pub enum Color {
    White,
    Black,
}

/// The six kinds of chess piece.
#[derive(Clone, Copy, PartialEq, Eq, Structural, Debug)]
pub enum Kind {
    Pawn,
    Knight,
    Bishop,
    Rook,
    Queen,
    King,
}

/// A piece on the board: its kind and its side.
#[derive(Clone, Copy, PartialEq, Eq, Structural, Debug)]
pub struct Piece {
    pub kind: Kind,
    pub color: Color,
}

/// The squares of a list of squares.
pub open spec fn views(s: Seq<Name>) -> Seq<(int, int)> {
    s.map_values(|n: Name| n@)
}

/// The (origin, destination) squares of a list of moves.
pub open spec fn move_views(s: Seq<(Name, Name)>) -> Seq<((int, int), (int, int))> {
    s.map_values(|m: (Name, Name)| (m.0@, m.1@))
}

/// Square `p` holds no piece on board `b`.
pub open spec fn empty_at(b: Seq<Option<Piece>>, p: (int, int)) -> bool {
    b[index_of(p.0, p.1)] is None
}

/// Square `p` holds a piece of side `color` on board `b`.
pub open spec fn friendly(b: Seq<Option<Piece>>, color: Color, p: (int, int)) -> bool {
    b[index_of(p.0, p.1)] is Some && b[index_of(p.0, p.1)]->0.color == color
}

/// Square `p` holds a piece of the side opposing `color` on board `b`.
pub open spec fn enemy(b: Seq<Option<Piece>>, color: Color, p: (int, int)) -> bool {
    b[index_of(p.0, p.1)] is Some && b[index_of(p.0, p.1)]->0.color != color
}

/// Absolute value.
pub open spec fn abs(x: int) -> int {
    if x < 0 { -x } else { x }
}

/// Number of king steps from `a` to `b`.
pub open spec fn dist(a: (int, int), b: (int, int)) -> int {
    let dc = abs(b.0 - a.0);
    let dr = abs(b.1 - a.1);
    if dc < dr { dr } else { dc }
}

/// The square `k` steps from `from` in direction `d`.
pub open spec fn ray_point(from: (int, int), d: Direction, k: int) -> (int, int) {
    match d {
        Direction::N => (from.0, from.1 + k),
        Direction::NE => (from.0 + k, from.1 + k),
        Direction::E => (from.0 + k, from.1),
        Direction::SE => (from.0 + k, from.1 - k),
        Direction::S => (from.0, from.1 - k),
        Direction::SW => (from.0 - k, from.1 - k),
        Direction::W => (from.0 - k, from.1),
        Direction::NW => (from.0 - k, from.1 + k),
    }
}

/// `to` lies on the ray from `from` in direction `d`, past `from` itself.
pub open spec fn on_ray(from: (int, int), d: Direction, to: (int, int)) -> bool {
    dist(from, to) >= 1 && to == ray_point(from, d, dist(from, to))
}

/// A sliding piece of side `color` on `from` can move along `d` to `to`:
/// `to` lies on that ray, every square before it is empty, and `to` holds
/// no piece of its own side.
pub open spec fn slides_to(
    b: Seq<Option<Piece>>,
    color: Color,
    from: (int, int),
    d: Direction,
    to: (int, int),
) -> bool {
    &&& on_ray(from, d, to)
    &&& on_board(to.0, to.1)
    &&& !friendly(b, color, to)
    &&& forall|j: int| 1 <= j < dist(from, to) ==> empty_at(b, #[trigger] ray_point(from, d, j))
}

/// The directions along which a piece of kind `k` slides.
pub open spec fn moves_along(k: Kind, d: Direction) -> bool {
    match k {
        Kind::Bishop => dcol(d) != 0 && drow(d) != 0,
        Kind::Rook => dcol(d) == 0 || drow(d) == 0,
        Kind::Queen => true,
        _ => false,
    }
}

/// The eight L-shaped knight jumps.
pub open spec fn knight_offsets() -> Seq<(int, int)> {
    seq![(1, 2), (2, 1), (2, -1), (1, -2), (-1, -2), (-2, -1), (-2, 1), (-1, 2)]
}

/// The eight single king steps.
pub open spec fn king_offsets() -> Seq<(int, int)> {
    seq![(0, 1), (1, 1), (1, 0), (1, -1), (0, -1), (-1, -1), (-1, 0), (-1, 1)]
}

/// A piece of side `color` on `from` that moves by one of `offs` can go to `to`.
pub open spec fn jumps_to(
    b: Seq<Option<Piece>>,
    color: Color,
    from: (int, int),
    offs: Seq<(int, int)>,
    to: (int, int),
) -> bool {
    &&& offs.contains((to.0 - from.0, to.1 - from.1))
    &&& on_board(to.0, to.1)
    &&& !friendly(b, color, to)
}

/// The row step forward for side `color`.
pub open spec fn forward(color: Color) -> int {
    match color {
        Color::White => 1,
        Color::Black => -1,
    }
}

/// The row on which the pawns of side `color` start.
pub open spec fn pawn_start(color: Color) -> int {
    match color {
        Color::White => 1,
        Color::Black => 6,
    }
}

/// A pawn of side `color` on `from` can go to `to`: one square forward onto
/// an empty square, two forward from its starting row over two empty squares,
/// or one square diagonally forward onto an enemy piece.
pub open spec fn pawn_to(b: Seq<Option<Piece>>, color: Color, from: (int, int), to: (int, int)) -> bool {
    let f = forward(color);
    &&& on_board(to.0, to.1)
    &&& {
        ||| to == (from.0, from.1 + f) && empty_at(b, to)
        ||| from.1 == pawn_start(color) && to == (from.0, from.1 + 2 * f)
            && empty_at(b, (from.0, from.1 + f)) && empty_at(b, to)
        ||| (to == (from.0 + 1, from.1 + f) || to == (from.0 - 1, from.1 + f)) && enemy(b, color, to)
    }
}

/// Piece `p` standing on `from` can move to `to` on board `b`, whether or not
/// the move leaves its own king in check.
pub open spec fn reaches(b: Seq<Option<Piece>>, p: Piece, from: (int, int), to: (int, int)) -> bool {
    match p.kind {
        Kind::Pawn => pawn_to(b, p.color, from, to),
        Kind::Knight => jumps_to(b, p.color, from, knight_offsets(), to),
        Kind::King => jumps_to(b, p.color, from, king_offsets(), to),
        _ => exists|d: Direction| moves_along(p.kind, d) && #[trigger] slides_to(b, p.color, from, d, to),
    }
}

proof fn lemma_ray_dist(from: (int, int), d: Direction, k: int)
    requires
        k >= 0,
    ensures
        dist(from, ray_point(from, d, k)) == k,
{
}

/// The direction in which `t` lies from `from`, going by the signs of the
/// column and row differences (north where the two squares coincide).
pub open spec fn ray_dir(from: (int, int), t: (int, int)) -> Direction {
    let dc = t.0 - from.0;
    let dr = t.1 - from.1;
    if dc == 0 && dr >= 0 {
        Direction::N
    } else if dc > 0 && dr > 0 {
        Direction::NE
    } else if dc > 0 && dr == 0 {
        Direction::E
    } else if dc > 0 && dr < 0 {
        Direction::SE
    } else if dc == 0 && dr < 0 {
        Direction::S
    } else if dc < 0 && dr < 0 {
        Direction::SW
    } else if dc < 0 && dr == 0 {
        Direction::W
    } else {
        Direction::NW
    }
}

/// A square on a ray lies in that ray's direction, so it lies on no other ray.
proof fn lemma_ray_dir(from: (int, int), d: Direction, t: (int, int))
    ensures
        on_ray(from, d, t) ==> ray_dir(from, t) == d,
{
}

proof fn lemma_push_contains<A>(s: Seq<A>, x: A, y: A)
    ensures
        s.push(x).contains(y) <==> s.contains(y) || x == y,
{
    if s.push(x).contains(y) {
        let j = choose|j: int| 0 <= j < s.push(x).len() && s.push(x)[j] == y;
        if j < s.len() {
            assert(s[j] == y);
        }
    }
    if s.contains(y) {
        let j = choose|j: int| 0 <= j < s.len() && s[j] == y;
        assert(s.push(x)[j] == y);
    }
    if x == y {
        assert(s.push(x)[s.len() as int] == y);
    }
}

/// Appends `n` to `res`.
fn push_square(res: &mut Vec<Name>, n: Name)
    ensures
        final(res)@ == old(res)@.push(n),
        forall|t: (int, int)| #[trigger] views(final(res)@).contains(t) <==> (views(old(res)@).contains(t) || t == n@),
        views(old(res)@).no_duplicates() && !views(old(res)@).contains(n@) ==> views(final(res)@).no_duplicates(),
{
    let ghost before = res@;
    res.push(n);
    proof {
        assert(views(res@) =~= views(before).push(n@));
        assert forall|t: (int, int)| #[trigger] views(res@).contains(t) <==> (views(before).contains(t) || t == n@) by {
            lemma_push_contains(views(before), n@, t);
        }
        if views(before).no_duplicates() && !views(before).contains(n@) {
            lemma_push_no_duplicates(views(before), n@);
        }
    }
}

proof fn lemma_push_no_duplicates<A>(s: Seq<A>, x: A)
    requires
        s.no_duplicates(),
        !s.contains(x),
    ensures
        s.push(x).no_duplicates(),
{
    assert forall|i: int, j: int| 0 <= i < s.push(x).len() && 0 <= j < s.push(x).len() && i != j
        implies s.push(x)[i] != s.push(x)[j] by {
        if i == s.len() as int {
            assert(s[j] == s.push(x)[j]);
        } else if j == s.len() as int {
            assert(s[i] == s.push(x)[i]);
        }
    }
}

impl Piece {
    /// The squares this piece can move to from `origin`, where it stands on
    /// `board`, whether or not such a move leaves its own king in check.
    pub fn destinations(&self, origin: &Name, board: &Position) -> (r: Vec<Name>)
        requires
            board.wf(),
            board@[index_of(origin@.0, origin@.1)] == Some(*self),
        ensures
            forall|t: (int, int)| #[trigger] views(r@).contains(t) <==> reaches(board@, *self, origin@, t),
            views(r@).no_duplicates(),
    {
        match self.kind {
            Kind::Pawn => self.pawn_moves(origin, board),
            Kind::Knight => {
                let offs: Vec<(i8, i8)> = vec![(1, 2), (2, 1), (2, -1), (1, -2), (-1, -2), (-2, -1), (-2, 1), (-1, 2)];
                proof {
                    assert(offs@.map_values(|o: (i8, i8)| (o.0 as int, o.1 as int)) =~= knight_offsets());
                    assert(knight_offsets().no_duplicates());
                }
                self.jumps(origin, board, &offs)
            }
            Kind::King => {
                let offs: Vec<(i8, i8)> = vec![(0, 1), (1, 1), (1, 0), (1, -1), (0, -1), (-1, -1), (-1, 0), (-1, 1)];
                proof {
                    assert(offs@.map_values(|o: (i8, i8)| (o.0 as int, o.1 as int)) =~= king_offsets());
                    assert(king_offsets().no_duplicates());
                }
                self.jumps(origin, board, &offs)
            }
            _ => self.slides(origin, board),
        }
    }

    fn jumps(&self, origin: &Name, board: &Position, offs: &Vec<(i8, i8)>) -> (r: Vec<Name>)
        requires
            board.wf(),
            forall|i: int| 0 <= i < offs@.len() ==> -8 <= (#[trigger] offs@[i]).0 <= 8 && -8 <= offs@[i].1 <= 8,
            offs@.map_values(|o: (i8, i8)| (o.0 as int, o.1 as int)).no_duplicates(),
        ensures
            views(r@).no_duplicates(),
            forall|t: (int, int)| #[trigger] views(r@).contains(t) <==> jumps_to(
                board@,
                self.color,
                origin@,
                offs@.map_values(|o: (i8, i8)| (o.0 as int, o.1 as int)),
                t,
            ),
    {
        let ghost all = offs@.map_values(|o: (i8, i8)| (o.0 as int, o.1 as int));
        let mut res: Vec<Name> = Vec::new();
        let mut i: usize = 0;
        while i < offs.len()
            invariant
                0 <= i <= offs@.len(),
                board.wf(),
                all == offs@.map_values(|o: (i8, i8)| (o.0 as int, o.1 as int)),
                all.no_duplicates(),
                views(res@).no_duplicates(),
                forall|i: int| 0 <= i < offs@.len() ==> -8 <= (#[trigger] offs@[i]).0 <= 8 && -8 <= offs@[i].1 <= 8,
                forall|t: (int, int)| #[trigger] views(res@).contains(t) <==> jumps_to(
                    board@, self.color, origin@, all.subrange(0, i as int), t),
            decreases offs@.len() - i,
        {
            let (dc, dr) = offs[i];
            let ghost before = res@;
            let ghost o = (dc as int, dr as int);
            proof {
                assert(all.subrange(0, i + 1) =~= all.subrange(0, i as int).push(o));
            }
            match origin.offset(dc, dr) {
                Some(n) => {
                    let free = match board.piece_at(&n) {
                        Some(q) => q.color != self.color,
                        None => true,
                    };
                    if free {
                        proof {
                            if views(before).contains(n@) {
                                assert(all.subrange(0, i as int).contains(o));
                                let j = choose|j: int| 0 <= j < i && all.subrange(0, i as int)[j] == o;
                                assert(all[j] == all[i as int]);
                            }
                        }
                        push_square(&mut res, n);
                    }
                    proof {
                        assert forall|t: (int, int)| #[trigger] views(res@).contains(t) <==> jumps_to(
                            board@, self.color, origin@, all.subrange(0, i + 1), t) by {
                            lemma_push_contains(all.subrange(0, i as int), o, (t.0 - origin@.0, t.1 - origin@.1));
                            if free {
                                assert(views(res@) =~= views(before).push(n@));
                                lemma_push_contains(views(before), n@, t);
                            } else {
                                assert(views(res@) =~= views(before));
                            }
                        }
                    }
                }
                None => {
                    proof {
                        assert forall|t: (int, int)| #[trigger] views(res@).contains(t) <==> jumps_to(
                            board@, self.color, origin@, all.subrange(0, i + 1), t) by {
                            lemma_push_contains(all.subrange(0, i as int), o, (t.0 - origin@.0, t.1 - origin@.1));
                        }
                    }
                }
            }
            i = i + 1;
        }
        proof {
            assert(all.subrange(0, offs@.len() as int) =~= all);
        }
        res
    }

    /// Appends to `res` the squares this piece slides to from `origin` along `d`.
    fn slide(&self, origin: &Name, board: &Position, d: Direction, res: &mut Vec<Name>)
        requires
            board.wf(),
            views(old(res)@).no_duplicates(),
            forall|t: (int, int)| #[trigger] views(old(res)@).contains(t) ==> !on_ray(origin@, d, t),
        ensures
            views(final(res)@).no_duplicates(),
            forall|t: (int, int)| #[trigger] views(final(res)@).contains(t) <==> (views(old(res)@).contains(t)
                || slides_to(board@, self.color, origin@, d, t)),
    {
        let ghost from = origin@;
        let ghost start = res@;
        proof { use_type_invariant(origin); }
        let mut cur = *origin;
        let ghost mut k: int = 0;
        let mut going = true;
        while going
            invariant
                on_board(from.0, from.1),
                board.wf(),
                from == origin@,
                views(res@).no_duplicates(),
                forall|t: (int, int)| #[trigger] views(start).contains(t) ==> !on_ray(from, d, t),
                0 <= k <= 7,
                cur@ == ray_point(from, d, k),
                forall|j: int| 1 <= j <= k ==> empty_at(board@, #[trigger] ray_point(from, d, j))
                    && on_board(ray_point(from, d, j).0, ray_point(from, d, j).1),
                going ==> forall|t: (int, int)| #[trigger] views(res@).contains(t) <==> (views(start).contains(t)
                    || (1 <= dist(from, t) <= k && t == ray_point(from, d, dist(from, t)))),
                !going ==> forall|t: (int, int)| #[trigger] views(res@).contains(t) <==> (views(start).contains(t)
                    || slides_to(board@, self.color, from, d, t)),
            decreases 2 * (8 - k) + (if going { 1int } else { 0int }),
        {
            let ghost before = res@;
            match cur.neighbour(d) {
                None => {
                    going = false;
                    proof {
                        assert(!on_board(ray_point(from, d, k + 1).0, ray_point(from, d, k + 1).1));
                        assert forall|t: (int, int)| #[trigger] views(res@).contains(t) <==> (views(start).contains(t)
                            || slides_to(board@, self.color, from, d, t)) by {
                            if slides_to(board@, self.color, from, d, t) {
                                lemma_ray_dist(from, d, dist(from, t));
                            }
                            if 1 <= dist(from, t) <= k && t == ray_point(from, d, dist(from, t)) {
                                assert(empty_at(board@, ray_point(from, d, dist(from, t))));
                            }
                        }
                    }
                }
                Some(n) => {
                    proof {
                        lemma_ray_dist(from, d, k + 1);
                    }
                    match board.piece_at(&n) {
                        None => {
                            proof {
                                assert(on_ray(from, d, n@));
                                assert(!views(before).contains(n@));
                            }
                            push_square(res, n);
                            cur = n;
                            proof {
                                k = k + 1;
                                assert(views(res@) =~= views(before).push(n@));
                                assert forall|t: (int, int)| #[trigger] views(res@).contains(t) <==> (views(start).contains(t)
                                    || (1 <= dist(from, t) <= k && t == ray_point(from, d, dist(from, t)))) by {
                                    lemma_push_contains(views(before), n@, t);
                                }
                            }
                        }
                        Some(q) => {
                            let capture = q.color != self.color;
                            if capture {
                                proof {
                                    assert(on_ray(from, d, n@));
                                    assert(!views(before).contains(n@));
                                }
                                push_square(res, n);
                            }
                            going = false;
                            proof {
                                assert forall|t: (int, int)| #[trigger] views(res@).contains(t) <==> (views(start).contains(t)
                                    || slides_to(board@, self.color, from, d, t)) by {
                                    if capture {
                                        assert(views(res@) =~= views(before).push(n@));
                                        lemma_push_contains(views(before), n@, t);
                                    } else {
                                        assert(views(res@) =~= views(before));
                                    }
                                    if slides_to(board@, self.color, from, d, t) && dist(from, t) > k + 1 {
                                        assert(!empty_at(board@, ray_point(from, d, k + 1)));
                                    }
                                    if 1 <= dist(from, t) <= k && t == ray_point(from, d, dist(from, t)) {
                                        assert(empty_at(board@, ray_point(from, d, dist(from, t))));
                                    }
                                }
                            }
                        }
                    }
                }
            }
        }
    }

    fn pawn_moves(&self, origin: &Name, board: &Position) -> (r: Vec<Name>)
        requires
            board.wf(),
            self.kind == Kind::Pawn,
        ensures
            forall|t: (int, int)| #[trigger] views(r@).contains(t) <==> pawn_to(board@, self.color, origin@, t),
            views(r@).no_duplicates(),
    {
        let f: i8 = match self.color {
            Color::White => 1,
            Color::Black => -1,
        };
        let start: i8 = match self.color {
            Color::White => 1,
            Color::Black => 6,
        };
        let ghost o = origin@;
        let ghost c1 = (o.0, o.1 + f);
        let ghost c2 = (o.0, o.1 + 2 * f);
        let ghost c3 = (o.0 + 1, o.1 + f);
        let ghost c4 = (o.0 - 1, o.1 + f);
        let mut res: Vec<Name> = Vec::new();
        let mut ok1 = false;
        let mut ok2 = false;
        if let Some(a) = origin.offset(0, f) {
            if board.piece_at(&a).is_none() {
                ok1 = true;
                push_square(&mut res, a);
                if origin.row() == start {
                    if let Some(b) = origin.offset(0, 2 * f) {
                        if board.piece_at(&b).is_none() {
                            ok2 = true;
                            push_square(&mut res, b);
                        }
                    }
                }
            }
        }
        let ghost mid = res@;
        let mut ok3 = false;
        let mut ok4 = false;
        if let Some(c) = origin.offset(1, f) {
            if let Some(q) = board.piece_at(&c) {
                if q.color != self.color {
                    ok3 = true;
                    push_square(&mut res, c);
                }
            }
        }
        if let Some(c) = origin.offset(-1, f) {
            if let Some(q) = board.piece_at(&c) {
                if q.color != self.color {
                    ok4 = true;
                    push_square(&mut res, c);
                }
            }
        }
        proof { use_type_invariant(origin); }
        proof {
            assert(forward(self.color) == f as int);
            assert(pawn_start(self.color) == start as int);
            assert forall|t: (int, int)| #[trigger] views(res@).contains(t) <==> pawn_to(board@, self.color, origin@, t) by {
                if views(mid).contains(t) {
                    assert(t == c1 || t == c2);
                }
            }
        }
        res
    }

    fn slides(&self, origin: &Name, board: &Position) -> (r: Vec<Name>)
        requires
            board.wf(),
            self.kind == Kind::Bishop || self.kind == Kind::Rook || self.kind == Kind::Queen,
        ensures
            forall|t: (int, int)| #[trigger] views(r@).contains(t) <==> reaches(board@, *self, origin@, t),
            views(r@).no_duplicates(),
    {
        let dirs: Vec<Direction> = match self.kind {
            Kind::Rook => vec![Direction::N, Direction::E, Direction::S, Direction::W],
            Kind::Bishop => vec![Direction::NE, Direction::SE, Direction::SW, Direction::NW],
            _ => vec![
                Direction::N,
                Direction::NE,
                Direction::E,
                Direction::SE,
                Direction::S,
                Direction::SW,
                Direction::W,
                Direction::NW,
            ],
        };
        proof {
            assert(dirs@.no_duplicates());
            assert forall|d: Direction| #[trigger] dirs@.contains(d) <==> moves_along(self.kind, d) by {
                if moves_along(self.kind, d) {
                    match d {
                        Direction::N => {},
                        Direction::NE => {},
                        Direction::E => {},
                        Direction::SE => {},
                        Direction::S => {},
                        Direction::SW => {},
                        Direction::W => {},
                        Direction::NW => {},
                    }
                }
            }
        }
        let ghost from = origin@;
        let mut res: Vec<Name> = Vec::new();
        let mut i: usize = 0;
        while i < dirs.len()
            invariant
                0 <= i <= dirs@.len(),
                board.wf(),
                from == origin@,
                dirs@.no_duplicates(),
                views(res@).no_duplicates(),
                forall|t: (int, int)| #[trigger] views(res@).contains(t) <==> (dirs@.subrange(0, i as int).contains(
                    ray_dir(from, t)) && slides_to(board@, self.color, from, ray_dir(from, t), t)),
            decreases dirs@.len() - i,
        {
            let d = dirs[i];
            proof {
                assert(dirs@.subrange(0, i + 1) =~= dirs@.subrange(0, i as int).push(d));
                assert(!dirs@.subrange(0, i as int).contains(d));
                assert forall|t: (int, int)| #[trigger] views(res@).contains(t) implies !on_ray(from, d, t) by {
                    lemma_ray_dir(from, d, t);
                }
            }
            let ghost before = res@;
            self.slide(origin, board, d, &mut res);
            proof {
                assert forall|t: (int, int)| #[trigger] views(res@).contains(t) <==> (dirs@.subrange(0, i + 1).contains(
                    ray_dir(from, t)) && slides_to(board@, self.color, from, ray_dir(from, t), t)) by {
                    lemma_ray_dir(from, d, t);
                    lemma_push_contains(dirs@.subrange(0, i as int), d, ray_dir(from, t));
                }
            }
            i = i + 1;
        }
        proof {
            assert(dirs@.subrange(0, dirs@.len() as int) =~= dirs@);
            assert forall|t: (int, int)| #[trigger] views(res@).contains(t) <==> reaches(board@, *self, origin@, t) by {
                if reaches(board@, *self, origin@, t) {
                    let d = choose|d: Direction| moves_along(self.kind, d) && #[trigger] slides_to(board@, self.color, origin@, d, t);
                    lemma_ray_dir(from, d, t);
                }
                if views(res@).contains(t) {
                    assert(moves_along(self.kind, ray_dir(from, t)));
                }
            }
        }
        res
    }
}

} // verus!
