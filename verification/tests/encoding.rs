use rusthour::board::{Direction, Move, VehicleSegment};
use rusthour::error::BoardError;
use rusthour::tile::name_id;

#[test]
fn single_letters_encode_to_alphabet_positions() {
    assert_eq!(VehicleSegment::string_to_veh_id("A".to_string()), Ok(1));
    assert_eq!(VehicleSegment::string_to_veh_id("X".to_string()), Ok(24));
    assert_eq!(VehicleSegment::string_to_veh_id("Z".to_string()), Ok(26));
}

#[test]
fn two_letters_put_the_first_letter_in_the_high_bits() {
    assert_eq!(name_id("AA"), Ok(33));
    assert_eq!(name_id("AB"), Ok(34));
    assert_eq!(name_id("DA"), Ok(129));
    assert_eq!(name_id("GZ"), Ok(7 * 32 + 26));
}

#[test]
fn decode_inverts_encode_for_every_valid_name() {
    let mut names = Vec::new();
    for last in b'A'..=b'Z' {
        names.push(String::from_utf8(vec![last]).unwrap());
        for first in b'A'..=b'G' {
            names.push(String::from_utf8(vec![first, last]).unwrap());
        }
    }
    assert_eq!(names.len(), 26 + 7 * 26);
    for name in names {
        let segment = VehicleSegment::new(name.clone(), Direction::Vertical, 0).unwrap();
        assert_eq!(segment.id_string(), name);
        let mv = Move { vehicle_id: segment.id, direction: 1 };
        assert_eq!(mv.get_id_string(), name);
        assert_eq!(name_id(&segment.id_string()), Ok(segment.id));
    }
}

#[test]
fn names_above_seven_bits_decode_in_moves() {
    let mv = Move { vehicle_id: 129, direction: -1 };
    assert_eq!(mv.get_id_string(), "DA");
    let mv = Move { vehicle_id: 250, direction: -1 };
    assert_eq!(mv.get_id_string(), "GZ");
}

#[test]
fn malformed_names_are_rejected() {
    for bad in ["", "a", "x", "1", "HA", "ZZ", "Aa", "ABC", "A ", " A", "É", "ÉA", "@", "["] {
        assert_eq!(
            VehicleSegment::new(bad.to_string(), Direction::Horizontal, 0),
            Err(BoardError::InvalidId),
            "{:?}",
            bad
        );
        assert_eq!(name_id(bad), Err(BoardError::InvalidId));
    }
}

#[test]
fn new_keeps_direction_and_segments() {
    let segment = VehicleSegment::new("B".to_string(), Direction::Vertical, 2).unwrap();
    assert_eq!(segment, VehicleSegment { id: 2, direction: Direction::Vertical, segments_left: 2 });
}

#[test]
fn directions_are_read_from_one_letter() {
    assert_eq!(Direction::from_str("H"), Ok(Direction::Horizontal));
    assert_eq!(Direction::from_str("V"), Ok(Direction::Vertical));
    for bad in ["", "h", "v", "HV", "X", " H"] {
        assert_eq!(Direction::from_str(bad), Err(BoardError::MalformedInput));
    }
}

#[test]
fn every_error_describes_itself() {
    let all = [
        BoardError::InvalidId,
        BoardError::OutOfBounds,
        BoardError::MissingVehicle,
        BoardError::NoMoves,
        BoardError::NoSolutionFound,
        BoardError::MalformedInput,
    ];
    for (i, a) in all.iter().enumerate() {
        assert!(!a.describe().is_empty());
        for b in all.iter().skip(i + 1) {
            assert_ne!(a.describe(), b.describe());
        }
    }
}
