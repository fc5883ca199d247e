use rusthour::board::{Board, Direction, Move, Tile, VehicleSegment};
use rusthour::error::BoardError;

fn segment(name: &str, direction: Direction, left: u8) -> Tile {
    Tile::Vehicle(VehicleSegment::new(name.to_string(), direction, left).unwrap())
}

#[test]
fn new_board_is_empty() {
    let board = Board::new(6);
    assert_eq!(board.size(), 6);
    for r in 0..6 {
        for c in 0..6 {
            assert_eq!(board.get(&(r, c)), Ok(&Tile::Empty));
        }
    }
    assert!(board.export_history().is_empty());
}

#[test]
fn boards_of_every_size_from_nothing_to_the_largest() {
    assert_eq!(Board::new(0).size(), 0);
    assert_eq!(Board::new(1).size(), 1);
    let big = Board::new(255);
    assert_eq!(big.size(), 255);
    assert_eq!(big.get(&(254, 254)), Ok(&Tile::Empty));
    assert_eq!(big.get(&(255, 0)), Err(BoardError::OutOfBounds));
}

#[test]
fn get_outside_the_grid_is_out_of_bounds() {
    let board = Board::new(6);
    assert_eq!(board.get(&(6, 0)), Err(BoardError::OutOfBounds));
    assert_eq!(board.get(&(0, 6)), Err(BoardError::OutOfBounds));
    assert_eq!(board.get(&(usize::MAX, usize::MAX)), Err(BoardError::OutOfBounds));
    assert_eq!(board.get(&(5, 5)), Ok(&Tile::Empty));
}

#[test]
fn default_tile_is_empty() {
    assert_eq!(Tile::default(), Tile::Empty);
    assert!(Tile::Empty.empty());
    assert!(!segment("A", Direction::Horizontal, 0).empty());
}

#[test]
fn placing_counts_segments_down_to_zero() {
    let mut board = Board::new(6);
    board.place_vehicle("A", Direction::Horizontal, 1, 3, 3).unwrap();
    board.place_vehicle("B", Direction::Vertical, 2, 0, 2).unwrap();
    assert_eq!(board.get(&(1, 2)), Ok(&Tile::Empty));
    assert_eq!(board.get(&(1, 3)), Ok(&segment("A", Direction::Horizontal, 2)));
    assert_eq!(board.get(&(1, 4)), Ok(&segment("A", Direction::Horizontal, 1)));
    assert_eq!(board.get(&(1, 5)), Ok(&segment("A", Direction::Horizontal, 0)));
    assert_eq!(board.get(&(2, 0)), Ok(&segment("B", Direction::Vertical, 1)));
    assert_eq!(board.get(&(3, 0)), Ok(&segment("B", Direction::Vertical, 0)));
    assert_eq!(board.get(&(4, 0)), Ok(&Tile::Empty));
    assert!(board.export_history().is_empty());
}

#[test]
fn placing_outside_the_grid_changes_nothing() {
    let mut board = Board::new(6);
    let before = board.get_hash();
    assert_eq!(
        board.place_vehicle("A", Direction::Horizontal, 1, 4, 3),
        Err(BoardError::OutOfBounds)
    );
    assert_eq!(
        board.place_vehicle("A", Direction::Vertical, 4, 1, 3),
        Err(BoardError::OutOfBounds)
    );
    assert_eq!(
        board.place_vehicle("A", Direction::Vertical, 0, 6, 1),
        Err(BoardError::OutOfBounds)
    );
    assert_eq!(
        board.place_vehicle("A", Direction::Horizontal, 6, 0, 1),
        Err(BoardError::OutOfBounds)
    );
    assert_eq!(board.place_vehicle("a", Direction::Horizontal, 0, 0, 1), Err(BoardError::InvalidId));
    assert_eq!(board.place_vehicle("a", Direction::Horizontal, 9, 9, 9), Err(BoardError::InvalidId));
    assert_eq!(board.get_hash(), before);
    assert_eq!(board.place_vehicle("A", Direction::Horizontal, 9, 9, 0), Ok(()));
    assert_eq!(board.get_hash(), before);
    assert_eq!(board.place_vehicle("A", Direction::Horizontal, 5, 3, 3), Ok(()));
    assert_ne!(board.get_hash(), before);
}

#[test]
fn is_won_needs_the_target() {
    let mut board = Board::new(6);
    assert_eq!(board.is_won(), Err(BoardError::MissingVehicle));
    board.place_vehicle("A", Direction::Horizontal, 2, 4, 2).unwrap();
    assert_eq!(board.is_won(), Err(BoardError::MissingVehicle));
}

#[test]
fn is_won_when_the_target_is_two_columns_from_the_edge() {
    for col in 0..5 {
        let mut board = Board::new(6);
        board.place_vehicle("X", Direction::Horizontal, 2, col, 2).unwrap();
        assert_eq!(board.is_won(), Ok(col == 4), "column {}", col);
    }
}

#[test]
fn find_vehicle_gives_the_first_cell_row_by_row() {
    let mut board = Board::new(6);
    board.place_vehicle("C", Direction::Vertical, 1, 4, 3).unwrap();
    board.place_vehicle("X", Direction::Horizontal, 2, 0, 2).unwrap();
    assert_eq!(board.find_vehicle(3), Ok((1, 4)));
    assert_eq!(board.find_vehicle(24), Ok((2, 0)));
    assert_eq!(board.find_vehicle(1), Err(BoardError::MissingVehicle));
}

#[test]
fn hash_is_of_the_grid_and_not_of_the_history() {
    let mut moved = Board::new(6);
    moved.place_vehicle("A", Direction::Horizontal, 1, 3, 3).unwrap();
    let mut fresh = Board::new(6);
    fresh.place_vehicle("A", Direction::Horizontal, 1, 3, 3).unwrap();
    let start = moved.get_hash();
    assert_eq!(start, moved.get_hash());
    assert_eq!(start, fresh.get_hash());
    moved.move_vehicle(Move { vehicle_id: 1, direction: -2 }).unwrap();
    assert_ne!(moved.get_hash(), start);
    moved.move_vehicle(Move { vehicle_id: 1, direction: 2 }).unwrap();
    assert_eq!(moved.export_history().len(), 2);
    assert_eq!(moved.get_hash(), fresh.get_hash());
}

#[test]
fn hash_differs_when_one_tile_differs() {
    let mut a = Board::new(6);
    a.place_vehicle("A", Direction::Horizontal, 1, 3, 2).unwrap();
    let variants: Vec<(&str, Direction, usize, usize, u8)> = vec![
        ("B", Direction::Horizontal, 1, 3, 2),
        ("A", Direction::Vertical, 1, 3, 2),
        ("A", Direction::Horizontal, 1, 2, 2),
        ("A", Direction::Horizontal, 2, 3, 2),
        ("A", Direction::Horizontal, 1, 3, 3),
        ("A", Direction::Horizontal, 1, 3, 1),
    ];
    for (name, direction, row, col, length) in variants {
        let mut b = Board::new(6);
        b.place_vehicle(name, direction, row, col, length).unwrap();
        assert_ne!(a.get_hash(), b.get_hash());
    }
    assert_ne!(Board::new(5).get_hash(), Board::new(6).get_hash());
}

#[test]
fn clone_copies_the_grid_and_shares_the_history() {
    let mut board = Board::new(6);
    board.place_vehicle("A", Direction::Horizontal, 1, 3, 3).unwrap();
    board.move_vehicle(Move { vehicle_id: 1, direction: -1 }).unwrap();
    let mut copy = board.clone();
    assert_eq!(copy.get_hash(), board.get_hash());
    assert_eq!(copy.export_history(), board.export_history());
    copy.move_vehicle(Move { vehicle_id: 1, direction: -1 }).unwrap();
    assert_eq!(board.export_history(), vec![Move { vehicle_id: 1, direction: -1 }]);
    assert_eq!(
        copy.export_history(),
        vec![Move { vehicle_id: 1, direction: -1 }, Move { vehicle_id: 1, direction: -1 }]
    );
    assert_eq!(board.get(&(1, 2)), Ok(&segment("A", Direction::Horizontal, 2)));
    assert_eq!(copy.get(&(1, 1)), Ok(&segment("A", Direction::Horizontal, 2)));
    assert_eq!(copy.get(&(1, 4)), Ok(&Tile::Empty));
}
