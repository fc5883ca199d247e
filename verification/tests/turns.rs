use rusthour::board::{Board, Direction, Move};
use rusthour::turn::{distances, move_by, moves_of, vehicle_names};

fn offered() -> Vec<Move> {
    let mut board = Board::new(6);
    board.place_vehicle("X", Direction::Horizontal, 2, 0, 2).unwrap();
    board.place_vehicle("AB", Direction::Vertical, 1, 3, 2).unwrap();
    board.possible_moves().unwrap()
}

#[test]
fn each_move_names_its_vehicle() {
    let moves = offered();
    assert_eq!(
        moves,
        vec![
            Move { vehicle_id: 34, direction: -1 },
            Move { vehicle_id: 24, direction: 1 },
            Move { vehicle_id: 34, direction: 1 },
            Move { vehicle_id: 34, direction: 2 },
            Move { vehicle_id: 34, direction: 3 },
        ]
    );
    assert_eq!(vehicle_names(&moves), vec!["AB", "X", "AB", "AB", "AB"]);
    assert_eq!(vehicle_names(&Vec::new()), Vec::<String>::new());
}

#[test]
fn the_moves_of_one_vehicle_keep_their_order() {
    let moves = offered();
    assert_eq!(moves_of(&moves, "X"), vec![Move { vehicle_id: 24, direction: 1 }]);
    assert_eq!(
        moves_of(&moves, "AB"),
        vec![
            Move { vehicle_id: 34, direction: -1 },
            Move { vehicle_id: 34, direction: 1 },
            Move { vehicle_id: 34, direction: 2 },
            Move { vehicle_id: 34, direction: 3 },
        ]
    );
    assert_eq!(moves_of(&moves, "B"), vec![]);
    assert_eq!(moves_of(&moves, "x"), vec![]);
    assert_eq!(moves_of(&moves, ""), vec![]);
}

#[test]
fn distances_and_the_move_by_a_distance() {
    let moves = moves_of(&offered(), "AB");
    assert_eq!(distances(&moves), vec![-1, 1, 2, 3]);
    assert_eq!(move_by(&moves, 2), Some(Move { vehicle_id: 34, direction: 2 }));
    assert_eq!(move_by(&moves, -1), Some(Move { vehicle_id: 34, direction: -1 }));
    assert_eq!(move_by(&moves, -2), None);
    assert_eq!(move_by(&Vec::new(), 1), None);
    let twice = vec![Move { vehicle_id: 1, direction: 1 }, Move { vehicle_id: 2, direction: 1 }];
    assert_eq!(move_by(&twice, 1), Some(Move { vehicle_id: 1, direction: 1 }));
}
