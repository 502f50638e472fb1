use chess::direction::Direction;
use chess::error::{ChessError, ErrorKind};
use chess::name::Name;
use chess::piece::{Color, Kind, Piece};
use chess::square::Position;

fn sq(s: &str) -> Name {
    Name::from_text(s).unwrap()
}

fn piece(kind: Kind, color: Color) -> Piece {
    Piece { kind, color }
}

/// Puts the piece on `at`, lists its destinations, and takes it off again.
fn moves_from(board: &mut Position, kind: Kind, color: Color, at: &str) -> Vec<Name> {
    let p = piece(kind, color);
    board.place(sq(at), p);
    let dests = p.destinations(&sq(at), board);
    board.remove(sq(at));
    dests
}

fn sorted_text(v: &[Name]) -> Vec<String> {
    let mut out: Vec<String> = v.iter().map(|n| n.to_text()).collect();
    out.sort();
    out
}

const ALL: [Direction; 8] = [
    Direction::N,
    Direction::NE,
    Direction::E,
    Direction::SE,
    Direction::S,
    Direction::SW,
    Direction::W,
    Direction::NW,
];

fn opposite(d: Direction) -> Direction {
    match d {
        Direction::N => Direction::S,
        Direction::NE => Direction::SW,
        Direction::E => Direction::W,
        Direction::SE => Direction::NW,
        Direction::S => Direction::N,
        Direction::SW => Direction::NE,
        Direction::W => Direction::E,
        Direction::NW => Direction::SE,
    }
}

#[test]
fn every_square_round_trips_through_text() {
    for c in 0..8i8 {
        for r in 0..8i8 {
            let n = Name::new(c, r).unwrap();
            let back = Name::from_text(&n.to_text()).unwrap();
            assert_eq!(back, n);
            assert_eq!(back.column(), c);
            assert_eq!(back.row(), r);
        }
    }
}

#[test]
fn to_text_writes_file_then_rank() {
    assert_eq!(Name::new(4, 3).unwrap().to_text(), "e4");
    assert_eq!(Name::new(0, 0).unwrap().to_text(), "a1");
    assert_eq!(Name::new(7, 7).unwrap().to_text(), "h8");
}

#[test]
fn from_text_accepts_either_case() {
    assert_eq!(sq("B7"), Name::new(1, 6).unwrap());
    assert_eq!(sq("b7"), Name::new(1, 6).unwrap());
}

#[test]
fn from_text_rejects_malformed_text() {
    for bad in ["", "e", "e44", "i4", "I4", "e0", "e9", "4e", "é4"] {
        let err = Name::from_text(bad).unwrap_err();
        assert_eq!(err.kind, ErrorKind::MalformedCoordinate);
    }
}

#[test]
fn new_rejects_squares_off_the_board() {
    for (c, r) in [(8i8, 0i8), (0, 8), (-1, 3), (3, -1), (127, 127), (-128, 0)] {
        let err = Name::new(c, r).unwrap_err();
        assert_eq!(err.kind, ErrorKind::OutOfBounds);
        assert!(Name::from_tuple((c, r)).is_err());
    }
    assert_eq!(Name::from_tuple((2, 5)).unwrap(), Name::new(2, 5).unwrap());
}

#[test]
fn error_carries_its_message() {
    let e = ChessError::new(ErrorKind::IllegalOrigin, "nothing there");
    assert_eq!(e.kind, ErrorKind::IllegalOrigin);
    assert_eq!(e.description(), "nothing there");
}

#[test]
fn step_then_step_back_returns_to_start() {
    for c in 0..8i8 {
        for r in 0..8i8 {
            let n = Name::new(c, r).unwrap();
            for d in ALL {
                if let Some(m) = n.neighbour(d) {
                    let (dc, dr) = chess::direction::deltas(d);
                    assert_eq!(m.column(), c + dc);
                    assert_eq!(m.row(), r + dr);
                    assert_eq!(m.neighbour(opposite(d)), Some(n));
                } else {
                    let (dc, dr) = chess::direction::deltas(d);
                    assert!(Name::new(c + dc, r + dr).is_err());
                }
            }
        }
    }
}

#[test]
fn corners_have_no_outward_neighbour() {
    assert_eq!(sq("h8").neighbour(Direction::NE), None);
    assert_eq!(sq("a1").neighbour(Direction::SW), None);
    assert_eq!(sq("a8").neighbour(Direction::NW), None);
    assert_eq!(sq("h1").neighbour(Direction::SE), None);
}

#[test]
fn bishop_on_g7_reaches_only_h8_to_the_north_east() {
    let mut board = Position::new();
    let dests = moves_from(&mut board, Kind::Bishop, Color::White, "g7");
    let north_east: Vec<String> = dests
        .iter()
        .filter(|n| n.column() > 6 && n.row() > 6)
        .map(|n| n.to_text())
        .collect();
    assert_eq!(north_east, vec!["h8".to_string()]);
    assert_eq!(sorted_text(&dests), vec!["a1", "b2", "c3", "d4", "e5", "f6", "f8", "h6", "h8"]);
}

#[test]
fn bishop_on_d4_reaches_all_four_diagonals() {
    let mut board = Position::new();
    let dests = moves_from(&mut board, Kind::Bishop, Color::White, "d4");
    let expected = [
        "a1", "a7", "b2", "b6", "c3", "c5", "e3", "e5", "f2", "f6", "g1", "g7", "h8",
    ];
    assert_eq!(sorted_text(&dests), expected.iter().map(|s| s.to_string()).collect::<Vec<_>>());
}

#[test]
fn rook_captures_enemy_three_squares_away_and_stops() {
    let mut board = Position::new();
    let rook = piece(Kind::Rook, Color::White);
    board.place(sq("a1"), rook);
    board.place(sq("d1"), piece(Kind::Knight, Color::Black));
    let dests = rook.destinations(&sq("a1"), &board);
    let rank: Vec<String> = sorted_text(&dests).into_iter().filter(|s| s.ends_with('1')).collect();
    assert_eq!(rank, vec!["b1", "c1", "d1"]);
    assert_eq!(dests.len(), 3 + 7);
}

#[test]
fn rook_stops_before_friendly_piece() {
    let mut board = Position::new();
    let rook = piece(Kind::Rook, Color::White);
    board.place(sq("a1"), rook);
    board.place(sq("d1"), piece(Kind::Knight, Color::White));
    let dests = rook.destinations(&sq("a1"), &board);
    let rank: Vec<String> = sorted_text(&dests).into_iter().filter(|s| s.ends_with('1')).collect();
    assert_eq!(rank, vec!["b1", "c1"]);
    assert_eq!(dests.len(), 2 + 7);
}

#[test]
fn knight_on_d4_has_eight_destinations() {
    let mut board = Position::new();
    let dests = moves_from(&mut board, Kind::Knight, Color::Black, "d4");
    assert_eq!(
        sorted_text(&dests),
        vec!["b3", "b5", "c2", "c6", "e2", "e6", "f3", "f5"]
    );
}

#[test]
fn knight_in_corner_has_two_destinations() {
    let mut board = Position::new();
    let dests = moves_from(&mut board, Kind::Knight, Color::White, "a1");
    assert_eq!(sorted_text(&dests), vec!["b3", "c2"]);
}

#[test]
fn knight_skips_friendly_but_takes_enemy() {
    let mut board = Position::new();
    board.place(sq("b3"), piece(Kind::Pawn, Color::White));
    board.place(sq("c2"), piece(Kind::Pawn, Color::Black));
    let dests = moves_from(&mut board, Kind::Knight, Color::White, "a1");
    assert_eq!(sorted_text(&dests), vec!["c2"]);
}

#[test]
fn king_in_corner_has_three_destinations() {
    let mut board = Position::new();
    let dests = moves_from(&mut board, Kind::King, Color::White, "a1");
    assert_eq!(sorted_text(&dests), vec!["a2", "b1", "b2"]);
    let middle = moves_from(&mut board, Kind::King, Color::White, "e4");
    assert_eq!(middle.len(), 8);
}

#[test]
fn queen_on_d4_has_twenty_seven_destinations() {
    let mut board = Position::new();
    let dests = moves_from(&mut board, Kind::Queen, Color::White, "d4");
    assert_eq!(dests.len(), 27);
}

#[test]
fn pawn_moves_one_or_two_from_start() {
    let mut board = Position::new();
    let white = moves_from(&mut board, Kind::Pawn, Color::White, "e2");
    assert_eq!(sorted_text(&white), vec!["e3", "e4"]);
    let black = moves_from(&mut board, Kind::Pawn, Color::Black, "e7");
    assert_eq!(sorted_text(&black), vec!["e5", "e6"]);
    let later = moves_from(&mut board, Kind::Pawn, Color::White, "e3");
    assert_eq!(sorted_text(&later), vec!["e4"]);
}

#[test]
fn pawn_is_blocked_and_captures_diagonally() {
    let mut board = Position::new();
    board.place(sq("e3"), piece(Kind::Bishop, Color::Black));
    board.place(sq("d3"), piece(Kind::Rook, Color::Black));
    board.place(sq("f3"), piece(Kind::Rook, Color::White));
    let dests = moves_from(&mut board, Kind::Pawn, Color::White, "e2");
    assert_eq!(sorted_text(&dests), vec!["d3"]);
    let mut board = Position::new();
    board.place(sq("e4"), piece(Kind::Bishop, Color::Black));
    let dests = moves_from(&mut board, Kind::Pawn, Color::White, "e2");
    assert_eq!(sorted_text(&dests), vec!["e3"]);
}

#[test]
fn empty_board_has_no_moves() {
    let board = Position::new();
    assert!(board.legal_moves().is_empty());
    assert_eq!(board.len(), 64);
}

#[test]
fn board_with_one_piece_lists_its_moves() {
    let mut board = Position::new();
    let knight = piece(Kind::Knight, Color::White);
    board.place(sq("d4"), knight);
    let moves = board.legal_moves();
    assert_eq!(moves.len(), 8);
    assert!(moves.iter().all(|m| m.0 == sq("d4")));
    let dests: Vec<Name> = moves.iter().map(|m| m.1).collect();
    assert_eq!(sorted_text(&dests), sorted_text(&knight.destinations(&sq("d4"), &board)));
}

#[test]
fn board_lists_moves_of_every_piece() {
    let mut board = Position::new();
    board.place(sq("a1"), piece(Kind::Knight, Color::White));
    board.place(sq("h8"), piece(Kind::King, Color::Black));
    let moves = board.legal_moves();
    assert_eq!(moves.len(), 2 + 3);
    assert_eq!(moves[0].0, sq("a1"));
    assert_eq!(moves[4].0, sq("h8"));
}

#[test]
fn cell_lists_moves_of_its_piece() {
    let mut board = Position::new();
    board.place(sq("a1"), piece(Kind::King, Color::White));
    let cell = board.square(&sq("a1"));
    assert_eq!(cell.name(), sq("a1"));
    assert_eq!(cell.piece(), Some(piece(Kind::King, Color::White)));
    assert_eq!(cell.legal_moves(&board).len(), 3);
    assert!(board.square(&sq("b1")).legal_moves(&board).is_empty());
}

#[test]
fn remove_takes_the_piece_off() {
    let mut board = Position::new();
    let rook = piece(Kind::Rook, Color::Black);
    board.place(sq("c5"), rook);
    assert_eq!(board.piece_at(&sq("c5")), Some(rook));
    assert_eq!(board.remove(sq("c5")), Some(rook));
    assert_eq!(board.piece_at(&sq("c5")), None);
    assert_eq!(board.remove(sq("c5")), None);
}

#[test]
fn apply_move_moves_and_captures() {
    let mut board = Position::new();
    let rook = piece(Kind::Rook, Color::White);
    board.place(sq("a1"), rook);
    board.place(sq("a5"), piece(Kind::Pawn, Color::Black));
    assert!(board.apply_move(sq("a1"), sq("a5")).is_ok());
    assert_eq!(board.piece_at(&sq("a1")), None);
    assert_eq!(board.piece_at(&sq("a5")), Some(rook));
}

#[test]
fn apply_move_rejects_empty_origin() {
    let mut board = Position::new();
    let err = board.apply_move(sq("a1"), sq("a2")).unwrap_err();
    assert_eq!(err.kind, ErrorKind::IllegalOrigin);
}

#[test]
fn apply_move_rejects_unreachable_destination() {
    let mut board = Position::new();
    let bishop = piece(Kind::Bishop, Color::White);
    board.place(sq("c1"), bishop);
    let err = board.apply_move(sq("c1"), sq("c2")).unwrap_err();
    assert_eq!(err.kind, ErrorKind::IllegalDestination);
    assert_eq!(board.piece_at(&sq("c1")), Some(bishop));
    assert_eq!(board.piece_at(&sq("c2")), None);
}

#[test]
fn parse_reads_text_like_from_text() {
    for c in 0..8i8 {
        for r in 0..8i8 {
            let n = Name::new(c, r).unwrap();
            let back: Name = n.to_text().parse().unwrap();
            assert_eq!(back, n);
        }
    }
    for bad in ["e0", "e9", "j1", "e", "e1x"] {
        let err = bad.parse::<Name>().unwrap_err();
        assert_eq!(err.kind, ErrorKind::MalformedCoordinate);
    }
}

#[test]
fn board_lists_moves_in_column_major_order() {
    let mut board = Position::new();
    board.place(sq("h1"), piece(Kind::King, Color::White));
    board.place(sq("a8"), piece(Kind::King, Color::Black));
    board.place(sq("d4"), piece(Kind::Knight, Color::White));
    let moves = board.legal_moves();
    assert_eq!(moves.len(), 3 + 8 + 3);
    let origins: Vec<String> = moves.iter().map(|m| m.0.to_text()).collect();
    let mut expected = vec!["a8".to_string(); 3];
    expected.extend(vec!["d4".to_string(); 8]);
    expected.extend(vec!["h1".to_string(); 3]);
    assert_eq!(origins, expected);
}
