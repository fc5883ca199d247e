use rusthour::board::{Board, Direction, Move};
use rusthour::error::BoardError;
use rusthour::record::{board_from_text, board_size};
use rusthour::solvers::{breadth_first_solve, expand_generation, Generation, Solver};
use std::collections::HashSet;

const X: u8 = 24;
const A: u8 = 1;

fn target_on_the_left() -> Board {
    let mut board = Board::new(6);
    board.place_vehicle("X", Direction::Horizontal, 2, 0, 2).unwrap();
    board
}

fn replay(start: &Board, path: &[Move]) -> Board {
    let mut board = start.clone();
    for m in path {
        assert!(board.possible_moves().unwrap().contains(m));
        board.move_vehicle(*m).unwrap();
    }
    board
}

#[test]
fn a_free_target_slides_to_the_exit_in_one_move() {
    let solver = Solver::new(target_on_the_left(), 10);
    assert_eq!(solver.breadth_first(), Ok(vec![Move { vehicle_id: X, direction: 4 }]));
}

#[test]
fn a_blocker_across_the_path_moves_off_the_row_first() {
    let mut board = target_on_the_left();
    board.place_vehicle("A", Direction::Vertical, 1, 3, 2).unwrap();
    let solver = Solver::new(board.clone(), 10);
    let path = solver.breadth_first().unwrap();
    assert_eq!(
        path,
        vec![Move { vehicle_id: A, direction: -1 }, Move { vehicle_id: X, direction: 4 }]
    );
    assert_eq!(path[0].get_id_string(), "A");
    assert_eq!(path[1].get_id_string(), "X");
    assert_eq!(replay(&board, &path).is_won(), Ok(true));
}

#[test]
fn a_target_at_the_exit_is_solved_by_no_move() {
    let mut board = Board::new(6);
    board.place_vehicle("X", Direction::Horizontal, 2, 4, 2).unwrap();
    assert_eq!(Solver::new(board.clone(), 10).breadth_first(), Ok(vec![]));
    assert_eq!(Solver::new(board, 0).breadth_first(), Ok(vec![]));
}

#[test]
fn the_moves_made_before_the_search_come_first() {
    let mut board = target_on_the_left();
    board.move_vehicle(Move { vehicle_id: X, direction: 1 }).unwrap();
    assert_eq!(
        Solver::new(board.clone(), 10).breadth_first(),
        Ok(vec![Move { vehicle_id: X, direction: 1 }, Move { vehicle_id: X, direction: 3 }])
    );
    board.move_vehicle(Move { vehicle_id: X, direction: 3 }).unwrap();
    assert_eq!(
        Solver::new(board, 10).breadth_first(),
        Ok(vec![Move { vehicle_id: X, direction: 1 }, Move { vehicle_id: X, direction: 3 }])
    );
}

#[test]
fn a_search_without_the_target_fails() {
    let mut board = Board::new(6);
    board.place_vehicle("A", Direction::Vertical, 1, 3, 2).unwrap();
    assert_eq!(Solver::new(board, 10).breadth_first(), Err(BoardError::MissingVehicle));
    assert_eq!(Solver::new(Board::new(6), 0).breadth_first(), Err(BoardError::MissingVehicle));
}

#[test]
fn a_search_that_is_cut_short_finds_nothing() {
    let mut board = target_on_the_left();
    board.place_vehicle("A", Direction::Vertical, 1, 3, 2).unwrap();
    assert_eq!(Solver::new(board.clone(), 0).breadth_first(), Err(BoardError::NoSolutionFound));
    assert_eq!(Solver::new(board.clone(), 1).breadth_first(), Err(BoardError::NoSolutionFound));
    assert!(Solver::new(board, 2).breadth_first().is_ok());
}

#[test]
fn a_blocked_target_has_no_solution() {
    let mut board = target_on_the_left();
    board.place_vehicle("A", Direction::Vertical, 0, 3, 6).unwrap();
    assert_eq!(Solver::new(board, 1000).breadth_first(), Err(BoardError::NoSolutionFound));
    let mut board = Board::new(3);
    board.place_vehicle("X", Direction::Horizontal, 0, 0, 1).unwrap();
    board.place_vehicle("A", Direction::Horizontal, 0, 1, 2).unwrap();
    board.place_vehicle("B", Direction::Horizontal, 1, 0, 3).unwrap();
    board.place_vehicle("C", Direction::Horizontal, 2, 0, 3).unwrap();
    assert_eq!(Solver::new(board, usize::MAX).breadth_first(), Err(BoardError::NoSolutionFound));
}

#[test]
fn a_vehicle_that_counts_more_cells_than_fit_is_reported() {
    // Two vehicles laid over each other: the left cell of `A` is gone, and
    // what is left says that two cells follow it.
    let mut board = target_on_the_left();
    board.place_vehicle("A", Direction::Horizontal, 0, 3, 3).unwrap();
    board.place_vehicle("B", Direction::Vertical, 0, 4, 1).unwrap();
    board.place_vehicle("B", Direction::Vertical, 0, 5, 1).unwrap();
    board.place_vehicle("X", Direction::Horizontal, 2, 0, 1).unwrap();
    board.place_vehicle("X", Direction::Horizontal, 2, 1, 1).unwrap();
    board.place_vehicle("C", Direction::Vertical, 2, 2, 4).unwrap();
    assert_eq!(Solver::new(board, 5).breadth_first(), Err(BoardError::OutOfBounds));
}

#[test]
fn a_longer_puzzle_is_solved_by_allowed_moves() {
    let mut board = Board::new(6);
    board.place_vehicle("X", Direction::Horizontal, 2, 1, 2).unwrap();
    board.place_vehicle("A", Direction::Horizontal, 0, 0, 2).unwrap();
    board.place_vehicle("B", Direction::Vertical, 1, 0, 3).unwrap();
    board.place_vehicle("C", Direction::Vertical, 1, 3, 3).unwrap();
    board.place_vehicle("D", Direction::Vertical, 0, 5, 3).unwrap();
    board.place_vehicle("E", Direction::Vertical, 4, 0, 2).unwrap();
    board.place_vehicle("F", Direction::Horizontal, 4, 4, 2).unwrap();
    board.place_vehicle("G", Direction::Horizontal, 5, 2, 3).unwrap();
    let path = Solver::new(board.clone(), 30).breadth_first().unwrap();
    assert_eq!(replay(&board, &path).is_won(), Ok(true));
    for shorter in 0..path.len() {
        assert_eq!(
            Solver::new(board.clone(), shorter).breadth_first(),
            Err(BoardError::NoSolutionFound)
        );
    }
    assert_eq!(Solver::new(board.clone(), path.len()).breadth_first(), Ok(path));
}

#[test]
fn set_max_depth_changes_the_limit() {
    let mut board = target_on_the_left();
    board.place_vehicle("A", Direction::Vertical, 1, 3, 2).unwrap();
    let mut solver = Solver::new(board, 1);
    assert_eq!(solver.breadth_first(), Err(BoardError::NoSolutionFound));
    solver.set_max_depth(2);
    assert_eq!(solver.breadth_first().map(|path| path.len()), Ok(2));
}

#[test]
fn a_generation_commits_each_hash_once() {
    let mut start = target_on_the_left();
    start.place_vehicle("A", Direction::Vertical, 1, 3, 2).unwrap();
    let mut archive = HashSet::new();
    archive.insert(start.get_hash());
    let first = match expand_generation(&vec![start.clone()], &mut archive) {
        Ok(Generation::Next(next)) => next,
        _ => panic!("the first generation holds no solution"),
    };
    // X +1, A -1, A +1, A +2, A +3
    assert_eq!(first.len(), 5);
    assert_eq!(archive.len(), 6);
    let hashes: HashSet<u64> = first.iter().map(|board| board.get_hash()).collect();
    assert_eq!(hashes.len(), first.len());
    assert!(!hashes.contains(&start.get_hash()));
    for board in &first {
        assert!(archive.contains(&board.get_hash()));
        assert_eq!(board.export_history().len(), 1);
        assert_eq!(board.is_won(), Ok(false));
    }

    // expanding the same boards again commits nothing
    let before = archive.clone();
    match expand_generation(&vec![start.clone()], &mut archive) {
        Ok(Generation::Next(next)) => assert!(next.is_empty()),
        _ => panic!("the first generation holds no solution"),
    }
    assert_eq!(archive, before);

    match expand_generation(&first, &mut archive) {
        Ok(Generation::Solved(path)) => assert_eq!(
            path,
            vec![Move { vehicle_id: A, direction: -1 }, Move { vehicle_id: X, direction: 4 }]
        ),
        _ => panic!("the second generation holds a solution"),
    }
}

#[test]
fn a_generation_of_dead_ends_has_no_successors() {
    let mut archive = HashSet::new();
    let mut full = Board::new(2);
    full.place_vehicle("X", Direction::Horizontal, 0, 0, 2).unwrap();
    full.place_vehicle("A", Direction::Horizontal, 1, 0, 2).unwrap();
    match expand_generation(&vec![full.clone(), full], &mut archive) {
        Ok(Generation::Next(next)) => assert!(next.is_empty()),
        _ => panic!("a full board has no moves"),
    }
    assert!(archive.is_empty());
    match expand_generation(&Vec::new(), &mut archive) {
        Ok(Generation::Next(next)) => assert!(next.is_empty()),
        _ => panic!("nothing to expand"),
    }
}

#[test]
fn the_size_is_the_number_that_the_digits_write() {
    assert_eq!(board_size(Some("6".to_string())), Ok(6));
    assert_eq!(board_size(Some("12".to_string())), Ok(12));
    assert_eq!(board_size(Some("007".to_string())), Ok(7));
    assert_eq!(board_size(Some("255".to_string())), Ok(255));
    assert_eq!(board_size(Some("0".to_string())), Ok(0));
    assert_eq!(board_size(Some("256".to_string())), Err(BoardError::MalformedInput));
    assert_eq!(board_size(Some("99999999999999999999999".to_string())), Err(BoardError::MalformedInput));
    assert_eq!(board_size(Some("٣".to_string())), Err(BoardError::MalformedInput));
    assert_eq!(board_size(Some("".to_string())), Err(BoardError::MalformedInput));
    assert_eq!(board_size(None), Err(BoardError::MalformedInput));
}

#[test]
fn a_definition_is_solved_from_its_text() {
    let text = "car,orientation,col,row,length\nX,H,1,3,2\nA,V,4,2,2\n";
    assert_eq!(
        breadth_first_solve("gameboards/Rushhour6x6_test.csv", text),
        Ok(vec![Move { vehicle_id: A, direction: -1 }, Move { vehicle_id: X, direction: 4 }])
    );
    let solver = Solver::from_text("gameboards/Rushhour6x6_test.csv", text, 1).unwrap();
    assert_eq!(solver.breadth_first(), Err(BoardError::NoSolutionFound));
}

#[test]
fn the_size_comes_from_the_first_number_in_the_name() {
    let text = "car,orientation,col,row,length\nX,H,1,3,2\n";
    assert_eq!(
        breadth_first_solve("Rushhour9x9_4.csv", text),
        Ok(vec![Move { vehicle_id: X, direction: 7 }])
    );
    assert_eq!(
        breadth_first_solve("boards/12x12.csv", text),
        Ok(vec![Move { vehicle_id: X, direction: 10 }])
    );
    assert_eq!(
        breadth_first_solve("set3/Rushhour6x6.csv", text),
        Ok(vec![Move { vehicle_id: X, direction: 1 }])
    );
    assert_eq!(breadth_first_solve("board.csv", text), Err(BoardError::MalformedInput));
    assert_eq!(breadth_first_solve("board300.csv", text), Err(BoardError::MalformedInput));
    assert_eq!(breadth_first_solve("2x2.csv", text), Err(BoardError::OutOfBounds));
    assert_eq!(breadth_first_solve("6", "heading only"), Err(BoardError::MissingVehicle));
    assert_eq!(board_from_text("Rushhour9x9_4.csv", text).unwrap().size(), 9);
    assert_eq!(board_from_text("v2/Rushhour6x6.csv", "").unwrap().size(), 2);
}
