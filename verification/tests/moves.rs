use rusthour::board::{Board, Direction, Move, Tile, VehicleSegment};
use rusthour::error::BoardError;

fn segment(name: &str, direction: Direction, left: u8) -> Tile {
    Tile::Vehicle(VehicleSegment::new(name.to_string(), direction, left).unwrap())
}

fn grid(board: &Board) -> Vec<Vec<Tile>> {
    let n = board.size();
    (0..n).map(|r| (0..n).map(|c| *board.get(&(r, c)).unwrap()).collect()).collect()
}

#[test]
fn moves_are_listed_cell_by_cell_right_left_down_up() {
    let mut board = Board::new(4);
    board.place_vehicle("A", Direction::Horizontal, 1, 1, 2).unwrap();
    board.place_vehicle("B", Direction::Vertical, 2, 0, 2).unwrap();
    // . . . .
    // . A A .
    // B . . .
    // B . . .
    assert_eq!(
        board.possible_moves(),
        Ok(vec![
            Move { vehicle_id: 2, direction: -2 },
            Move { vehicle_id: 1, direction: -1 },
            Move { vehicle_id: 2, direction: -1 },
            Move { vehicle_id: 1, direction: 1 },
        ])
    );
}

#[test]
fn a_vehicle_across_the_line_of_the_search_offers_no_move() {
    let mut board = Board::new(3);
    board.place_vehicle("A", Direction::Vertical, 0, 1, 3).unwrap();
    board.place_vehicle("B", Direction::Horizontal, 0, 2, 1).unwrap();
    // . A B
    // . A .
    // . A .
    assert_eq!(board.possible_moves(), Err(BoardError::NoMoves));
    let mut board = Board::new(3);
    board.place_vehicle("A", Direction::Vertical, 0, 1, 2).unwrap();
    assert_eq!(board.possible_moves(), Ok(vec![Move { vehicle_id: 1, direction: 1 }]));
}

#[test]
fn a_search_stops_at_the_nearest_vehicle() {
    let mut board = Board::new(5);
    board.place_vehicle("A", Direction::Horizontal, 0, 0, 1).unwrap();
    board.place_vehicle("B", Direction::Horizontal, 0, 2, 1).unwrap();
    board.place_vehicle("C", Direction::Vertical, 1, 0, 4).unwrap();
    board.place_vehicle("D", Direction::Vertical, 1, 1, 4).unwrap();
    board.place_vehicle("E", Direction::Vertical, 1, 2, 4).unwrap();
    board.place_vehicle("F", Direction::Vertical, 1, 3, 4).unwrap();
    board.place_vehicle("G", Direction::Vertical, 1, 4, 4).unwrap();
    // A . B . .
    // C D E F G
    // ...
    assert_eq!(
        board.possible_moves(),
        Ok(vec![
            Move { vehicle_id: 2, direction: -1 },
            Move { vehicle_id: 1, direction: 1 },
            Move { vehicle_id: 4, direction: -1 },
            Move { vehicle_id: 2, direction: 1 },
            Move { vehicle_id: 6, direction: -1 },
            Move { vehicle_id: 2, direction: 2 },
            Move { vehicle_id: 7, direction: -1 },
        ])
    );
}

#[test]
fn no_empty_cell_means_no_moves() {
    let mut board = Board::new(2);
    board.place_vehicle("X", Direction::Horizontal, 0, 0, 2).unwrap();
    board.place_vehicle("A", Direction::Horizontal, 1, 0, 2).unwrap();
    assert_eq!(board.possible_moves(), Err(BoardError::NoMoves));
    let mut board = Board::new(1);
    board.place_vehicle("A", Direction::Vertical, 0, 0, 1).unwrap();
    assert_eq!(board.possible_moves(), Err(BoardError::NoMoves));
    assert_eq!(Board::new(0).possible_moves(), Err(BoardError::NoMoves));
}

#[test]
fn an_empty_board_has_no_moves() {
    assert_eq!(Board::new(6).possible_moves(), Err(BoardError::NoMoves));
}

#[test]
fn slides_are_limited_to_what_a_move_can_hold() {
    let mut board = Board::new(255);
    board.place_vehicle("A", Direction::Horizontal, 0, 200, 1).unwrap();
    let moves = board.possible_moves().unwrap();
    let back: Vec<i8> = moves.iter().filter(|m| m.direction < 0).map(|m| m.direction).collect();
    let forward: Vec<i8> = moves.iter().filter(|m| m.direction > 0).map(|m| m.direction).collect();
    assert_eq!(back.len(), 128);
    assert_eq!(back.iter().min(), Some(&-128));
    assert_eq!(back.iter().max(), Some(&-1));
    assert_eq!(forward, (1..=54).collect::<Vec<i8>>());

    let mut board = Board::new(255);
    board.place_vehicle("A", Direction::Vertical, 0, 0, 1).unwrap();
    let moves = board.possible_moves().unwrap();
    assert_eq!(moves.len(), 127);
    assert_eq!(moves.iter().map(|m| m.direction).max(), Some(127));
    assert_eq!(moves.iter().map(|m| m.direction).min(), Some(1));
}

#[test]
fn a_move_slides_the_vehicle_and_empties_what_it_leaves() {
    let mut board = Board::new(6);
    board.place_vehicle("A", Direction::Horizontal, 1, 3, 3).unwrap();
    board.move_vehicle(Move { vehicle_id: 1, direction: -2 }).unwrap();
    let a = |s| segment("A", Direction::Horizontal, s);
    assert_eq!(
        grid(&board)[1],
        vec![Tile::Empty, a(2), a(1), a(0), Tile::Empty, Tile::Empty]
    );
    board.move_vehicle(Move { vehicle_id: 1, direction: 2 }).unwrap();
    assert_eq!(
        grid(&board)[1],
        vec![Tile::Empty, Tile::Empty, Tile::Empty, a(2), a(1), a(0)]
    );
    board.move_vehicle(Move { vehicle_id: 1, direction: -3 }).unwrap();
    assert_eq!(
        grid(&board)[1],
        vec![a(2), a(1), a(0), Tile::Empty, Tile::Empty, Tile::Empty]
    );
    assert_eq!(
        board.export_history(),
        vec![
            Move { vehicle_id: 1, direction: -2 },
            Move { vehicle_id: 1, direction: 2 },
            Move { vehicle_id: 1, direction: -3 },
        ]
    );
}

#[test]
fn a_vertical_move_slides_along_the_column() {
    let mut board = Board::new(6);
    board.place_vehicle("B", Direction::Vertical, 0, 2, 2).unwrap();
    board.move_vehicle(Move { vehicle_id: 2, direction: 4 }).unwrap();
    let b = |s| segment("B", Direction::Vertical, s);
    let cells = grid(&board);
    let column: Vec<Tile> = cells.iter().map(|row| row[2]).collect();
    assert_eq!(column, vec![Tile::Empty, Tile::Empty, Tile::Empty, Tile::Empty, b(1), b(0)]);
    for (r, row) in cells.iter().enumerate() {
        for (c, tile) in row.iter().enumerate() {
            if c != 2 {
                assert_eq!(*tile, Tile::Empty, "({}, {})", r, c);
            }
        }
    }
    board.move_vehicle(Move { vehicle_id: 2, direction: -1 }).unwrap();
    let column: Vec<Tile> = grid(&board).iter().map(|row| row[2]).collect();
    assert_eq!(column, vec![Tile::Empty, Tile::Empty, Tile::Empty, b(1), b(0), Tile::Empty]);
}

#[test]
fn every_offered_move_and_its_inverse_restore_the_grid() {
    let mut board = Board::new(6);
    board.place_vehicle("X", Direction::Horizontal, 2, 1, 2).unwrap();
    board.place_vehicle("A", Direction::Vertical, 0, 0, 3).unwrap();
    board.place_vehicle("B", Direction::Vertical, 1, 3, 3).unwrap();
    board.place_vehicle("C", Direction::Horizontal, 5, 2, 3).unwrap();
    board.place_vehicle("AB", Direction::Horizontal, 0, 2, 2).unwrap();
    let before = grid(&board);
    let moves = board.possible_moves().unwrap();
    assert!(moves.len() >= 6);
    for m in moves {
        let mut moved = board.clone();
        moved.move_vehicle(m).unwrap();
        assert_ne!(grid(&moved), before);
        moved.move_vehicle(Move { vehicle_id: m.vehicle_id, direction: -m.direction }).unwrap();
        assert_eq!(grid(&moved), before);
        assert_eq!(moved.get_hash(), board.get_hash());
    }
}

#[test]
fn a_move_through_other_tiles_swaps_and_its_inverse_swaps_back() {
    let mut board = Board::new(6);
    board.place_vehicle("A", Direction::Horizontal, 0, 3, 3).unwrap();
    board.place_vehicle("B", Direction::Vertical, 0, 1, 1).unwrap();
    board.place_vehicle("C", Direction::Vertical, 0, 2, 1).unwrap();
    let before = grid(&board);
    let a = |s| segment("A", Direction::Horizontal, s);
    let b = segment("B", Direction::Vertical, 0);
    let c = segment("C", Direction::Vertical, 0);
    assert_eq!(before[0], vec![Tile::Empty, b, c, a(2), a(1), a(0)]);
    board.move_vehicle(Move { vehicle_id: 1, direction: -2 }).unwrap();
    assert_eq!(grid(&board)[0], vec![Tile::Empty, a(2), a(1), a(0), c, b]);
    board.move_vehicle(Move { vehicle_id: 1, direction: 2 }).unwrap();
    assert_eq!(grid(&board), before);
}

#[test]
fn a_move_by_nothing_is_recorded_and_changes_no_tile() {
    let mut board = Board::new(6);
    board.place_vehicle("B", Direction::Vertical, 0, 2, 2).unwrap();
    let before = grid(&board);
    assert_eq!(board.move_vehicle(Move { vehicle_id: 2, direction: 0 }), Ok(()));
    assert_eq!(grid(&board), before);
    assert_eq!(board.export_history(), vec![Move { vehicle_id: 2, direction: 0 }]);
}

#[test]
fn a_move_of_a_missing_vehicle_fails() {
    let mut board = Board::new(6);
    board.place_vehicle("B", Direction::Vertical, 0, 2, 2).unwrap();
    let before = grid(&board);
    assert_eq!(
        board.move_vehicle(Move { vehicle_id: 1, direction: 1 }),
        Err(BoardError::MissingVehicle)
    );
    assert_eq!(grid(&board), before);
    assert!(board.export_history().is_empty());
}

#[test]
fn a_move_off_the_grid_fails_and_changes_nothing() {
    let mut board = Board::new(6);
    board.place_vehicle("B", Direction::Vertical, 1, 2, 2).unwrap();
    board.place_vehicle("A", Direction::Horizontal, 4, 3, 2).unwrap();
    let before = grid(&board);
    for m in [
        Move { vehicle_id: 2, direction: -2 },
        Move { vehicle_id: 2, direction: 4 },
        Move { vehicle_id: 2, direction: i8::MIN },
        Move { vehicle_id: 2, direction: i8::MAX },
        Move { vehicle_id: 1, direction: -4 },
        Move { vehicle_id: 1, direction: 2 },
    ] {
        assert_eq!(board.move_vehicle(m), Err(BoardError::OutOfBounds), "{:?}", m);
        assert_eq!(grid(&board), before);
        assert!(board.export_history().is_empty());
    }
    assert_eq!(board.move_vehicle(Move { vehicle_id: 2, direction: -1 }), Ok(()));
    assert_eq!(board.move_vehicle(Move { vehicle_id: 2, direction: 4 }), Ok(()));
    assert_eq!(board.move_vehicle(Move { vehicle_id: 1, direction: -3 }), Ok(()));
    assert_eq!(board.move_vehicle(Move { vehicle_id: 1, direction: 4 }), Ok(()));
}
