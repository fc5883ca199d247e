use rusthour::board::{Board, Direction, Tile, VehicleSegment};
use rusthour::error::BoardError;
use rusthour::record::{find_sep, parse_number, read_direction, read_name, read_record, Record};

fn segment(name: &str, direction: Direction, left: u8) -> Tile {
    Tile::Vehicle(VehicleSegment::new(name.to_string(), direction, left).unwrap())
}

fn grid(board: &Board) -> Vec<Vec<Tile>> {
    let n = board.size();
    (0..n).map(|r| (0..n).map(|c| *board.get(&(r, c)).unwrap()).collect()).collect()
}

fn record(line: &str) -> Result<Record, BoardError> {
    read_record(line.as_bytes(), 0, line.len())
}

#[test]
fn separators_are_found_from_the_start_index_on() {
    let text = b"ab,cd,,e";
    assert_eq!(find_sep(text, 0, b','), 2);
    assert_eq!(find_sep(text, 2, b','), 2);
    assert_eq!(find_sep(text, 3, b','), 5);
    assert_eq!(find_sep(text, 6, b','), 6);
    assert_eq!(find_sep(text, 7, b','), 8);
    assert_eq!(find_sep(text, 8, b','), 8);
    assert_eq!(find_sep(b"", 0, b','), 0);
}

#[test]
fn numbers_are_decimal_with_an_optional_plus() {
    let parse = |text: &str, max: usize| parse_number(text.as_bytes(), 0, text.len(), max);
    assert_eq!(parse("0", 255), Some(0));
    assert_eq!(parse("12", 255), Some(12));
    assert_eq!(parse("+12", 255), Some(12));
    assert_eq!(parse("0012", 255), Some(12));
    assert_eq!(parse("255", 255), Some(255));
    assert_eq!(parse("256", 255), None);
    assert_eq!(parse("2550", 255), None);
    assert_eq!(parse("", 255), None);
    assert_eq!(parse("+", 255), None);
    assert_eq!(parse("-1", 255), None);
    assert_eq!(parse("++1", 255), None);
    assert_eq!(parse("1 ", 255), None);
    assert_eq!(parse(" 1", 255), None);
    assert_eq!(parse("1\r", 255), None);
    assert_eq!(parse("1a", 255), None);
    assert_eq!(parse("99999a", 255), None);
    assert_eq!(parse("5", 4), None);
    assert_eq!(parse("4", 4), Some(4));
    assert_eq!(parse("0", 0), Some(0));
    assert_eq!(parse(&usize::MAX.to_string(), usize::MAX), Some(usize::MAX));
    assert_eq!(parse(&format!("{}0", usize::MAX), usize::MAX), None);
    assert_eq!(parse_number(b"a,17,b", 2, 4, 100), Some(17));
    assert_eq!(parse_number(b"a,17,b", 2, 2, 100), None);
}

#[test]
fn directions_and_names_are_read_from_bytes() {
    assert_eq!(read_direction(b"H", 0, 1), Some(Direction::Horizontal));
    assert_eq!(read_direction(b"xVx", 1, 2), Some(Direction::Vertical));
    assert_eq!(read_direction(b"h", 0, 1), None);
    assert_eq!(read_direction(b"HV", 0, 2), None);
    assert_eq!(read_direction(b"H", 0, 0), None);
    assert_eq!(read_name(b"X", 0, 1), Ok(24));
    assert_eq!(read_name(b"DA", 0, 2), Ok(129));
    assert_eq!(read_name(b"GZ", 0, 2), Ok(250));
    assert_eq!(read_name(b"HA", 0, 2), Err(BoardError::InvalidId));
    assert_eq!(read_name(b"x", 0, 1), Err(BoardError::InvalidId));
    assert_eq!(read_name(b"", 0, 0), Err(BoardError::InvalidId));
    assert_eq!(read_name(b"ABC", 0, 3), Err(BoardError::InvalidId));
    assert_eq!(read_name("É".as_bytes(), 0, 2), Err(BoardError::InvalidId));
}

#[test]
fn a_record_has_five_fields() {
    assert_eq!(
        record("X,H,1,3,2"),
        Ok(Record { id: 24, direction: Direction::Horizontal, col: 1, row: 3, length: 2 })
    );
    assert_eq!(
        record("AB,V,12,+7,3,ignored,too"),
        Ok(Record { id: 34, direction: Direction::Vertical, col: 12, row: 7, length: 3 })
    );
    assert_eq!(
        read_record(b"??X,H,1,3,2??", 2, 11),
        Ok(Record { id: 24, direction: Direction::Horizontal, col: 1, row: 3, length: 2 })
    );
    for bad in ["", "X", "X,H", "X,H,1", "X,H,1,3", "X,H,1,3,", "X,H,,3,2", "X,H,1,,2", "X,D,1,3,2",
        "X,,1,3,2", "X,H,1,3,256", "X,H,1,3,2\r", "X,H,a,3,2", "X,H,-1,3,2", "X, H,1,3,2",
        "x,H,1,3,"]
    {
        assert_eq!(record(bad), Err(BoardError::MalformedInput), "{:?}", bad);
    }
    for bad in [",H,1,3,2", "x,H,1,3,2", "XYZ,H,1,3,2", "HA,H,1,3,2", " X,H,1,3,2"] {
        assert_eq!(record(bad), Err(BoardError::InvalidId), "{:?}", bad);
    }
}

#[test]
fn add_vehicle_counts_columns_and_rows_from_one() {
    let mut board = Board::new(6);
    assert_eq!(board.add_vehicle("X,H,1,3,2"), Ok(()));
    assert_eq!(board.add_vehicle("A,V,6,4,3"), Ok(()));
    let mut same = Board::new(6);
    same.place_vehicle("X", Direction::Horizontal, 2, 0, 2).unwrap();
    same.place_vehicle("A", Direction::Vertical, 3, 5, 3).unwrap();
    assert_eq!(grid(&board), grid(&same));
    assert_eq!(board.get(&(2, 0)), Ok(&segment("X", Direction::Horizontal, 1)));
    assert_eq!(board.get(&(5, 5)), Ok(&segment("A", Direction::Vertical, 0)));
}

#[test]
fn add_vehicle_fails_without_changing_the_board() {
    let mut board = Board::new(6);
    board.add_vehicle("X,H,1,3,2").unwrap();
    let before = grid(&board);
    assert_eq!(board.add_vehicle("A,H,0,1,2"), Err(BoardError::OutOfBounds));
    assert_eq!(board.add_vehicle("A,H,1,0,2"), Err(BoardError::OutOfBounds));
    assert_eq!(board.add_vehicle("A,H,6,1,2"), Err(BoardError::OutOfBounds));
    assert_eq!(board.add_vehicle("A,V,1,6,2"), Err(BoardError::OutOfBounds));
    assert_eq!(board.add_vehicle("A,V,1,7,1"), Err(BoardError::OutOfBounds));
    assert_eq!(board.add_vehicle("a,V,1,1,1"), Err(BoardError::InvalidId));
    assert_eq!(board.add_vehicle("A,V,1,1"), Err(BoardError::MalformedInput));
    assert_eq!(board.add_vehicle("a,W,1,1,1"), Err(BoardError::MalformedInput));
    assert_eq!(grid(&board), before);
}

#[test]
fn fill_skips_the_heading_and_stops_at_an_empty_line() {
    let mut board = Board::new(6);
    let text = "car,orientation,col,row,length\nX,H,1,3,2\nA,V,4,2,2\n\nB,H,1,1,2\n";
    assert_eq!(board.fill_from(text), Ok(()));
    let mut same = Board::new(6);
    same.place_vehicle("X", Direction::Horizontal, 2, 0, 2).unwrap();
    same.place_vehicle("A", Direction::Vertical, 1, 3, 2).unwrap();
    assert_eq!(grid(&board), grid(&same));
}

#[test]
fn fill_reads_a_last_line_without_a_newline() {
    let mut board = Board::new(6);
    assert_eq!(board.fill_from("heading\nX,H,1,3,2\nA,V,4,2,2"), Ok(()));
    assert_eq!(board.get(&(2, 3)), Ok(&segment("A", Direction::Vertical, 0)));
    assert_eq!(board.get(&(2, 1)), Ok(&segment("X", Direction::Horizontal, 0)));
}

#[test]
fn fill_of_nothing_leaves_the_board_empty() {
    for text in ["", "heading", "heading\n", "\n", "heading\n\nX,H,1,3,2\n", "X,H,1,3,2"] {
        let mut board = Board::new(6);
        assert_eq!(board.fill_from(text), Ok(()), "{:?}", text);
        assert_eq!(grid(&board), grid(&Board::new(6)));
    }
}

#[test]
fn fill_stops_at_the_first_line_that_fails() {
    let mut board = Board::new(6);
    let text = "heading\nX,H,1,3,2\nA,V,4,9,2\nB,H,1,1,2\n";
    assert_eq!(board.fill_from(text), Err(BoardError::OutOfBounds));
    let mut same = Board::new(6);
    same.place_vehicle("X", Direction::Horizontal, 2, 0, 2).unwrap();
    assert_eq!(grid(&board), grid(&same));
    assert_eq!(Board::new(6).fill_from("heading\nX,H,1,3,2\r\n"), Err(BoardError::MalformedInput));
    assert_eq!(Board::new(6).fill_from("heading\nxx,H,1,3,2\n"), Err(BoardError::InvalidId));
}
