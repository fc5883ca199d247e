//! Tiles, vehicle segments, moves, and the one-byte encoding of vehicle names.

use crate::error::BoardError;
use vstd::prelude::*;
use vstd::string::*;

verus! {

/// The position of a capital letter in the alphabet, counted from one.
pub open spec fn letter_index(c: char) -> int {
    c as int - 64
}

/// A name is valid when it is one capital letter, or two capital letters of
/// which the first is at most `G`, so that the encoding fits one byte.
pub open spec fn valid_name(name: Seq<char>) -> bool {
    ||| name.len() == 1 && 'A' <= name[0] <= 'Z'
    ||| name.len() == 2 && 'A' <= name[0] <= 'G' && 'A' <= name[1] <= 'Z'
}

/// The id of a valid name: the last letter's index in the low five bits, the
/// first letter's index of a two-letter name in the three bits above them.
pub open spec fn encode_name(name: Seq<char>) -> int {
    if name.len() == 1 {
        letter_index(name[0])
    } else {
        letter_index(name[0]) * 32 + letter_index(name[1])
    }
}

/// The name that an id stands for: the letter of its low five bits, preceded
/// by the letter of its high three bits unless these are zero.
pub open spec fn decode_id(id: u8) -> Seq<char> {
    if id / 32 == 0 {
        seq![((id % 32) + 64) as char]
    } else {
        seq![((id / 32) + 64) as char, ((id % 32) + 64) as char]
    }
}

/// An id is valid when it is the encoding of a valid name.
pub open spec fn valid_id(id: u8) -> bool {
    1 <= id % 32 <= 26
}

/// Decoding inverts encoding on every valid name.
pub proof fn lemma_decode_encode(name: Seq<char>)
    requires
        valid_name(name),
    ensures
        0 < encode_name(name) < 256,
        valid_id(encode_name(name) as u8),
        decode_id(encode_name(name) as u8) == name,
{
    let id = encode_name(name) as u8;
    if name.len() == 1 {
        assert(decode_id(id) =~= name);
    } else {
        assert(id / 32 == letter_index(name[0]));
        assert(id % 32 == letter_index(name[1]));
        assert(decode_id(id) =~= name);
    }
}

/// Encoding inverts decoding on every valid id.
pub proof fn lemma_encode_decode(id: u8)
    requires
        valid_id(id),
    ensures
        valid_name(decode_id(id)),
        encode_name(decode_id(id)) == id,
{
}

/// The axis along which a vehicle lies and slides.
#[derive(Debug, Clone, Copy, Hash, PartialEq, Eq, Structural)]
pub enum Direction {
    Horizontal,
    Vertical,
}

impl Direction {
    /// The direction that a board definition writes as `"H"` or `"V"`.
    pub fn from_str(dir_char: &str) -> (result: Result<Direction, BoardError>)
        ensures
            dir_char@ == seq!['H'] ==> result == Ok::<Direction, BoardError>(Direction::Horizontal),
            dir_char@ == seq!['V'] ==> result == Ok::<Direction, BoardError>(Direction::Vertical),
            dir_char@ != seq!['H'] && dir_char@ != seq!['V'] ==> result == Err::<
                Direction,
                BoardError,
            >(BoardError::MalformedInput),
    {
        if dir_char.unicode_len() != 1 {
            return Err(BoardError::MalformedInput);
        }
        let c = dir_char.get_char(0);
        if c == 'H' {
            assert(dir_char@ =~= seq!['H']);
            Ok(Direction::Horizontal)
        } else if c == 'V' {
            assert(dir_char@ =~= seq!['V']);
            Ok(Direction::Vertical)
        } else {
            Err(BoardError::MalformedInput)
        }
    }
}

/// One cell of a vehicle. `segments_left` counts the cells of the vehicle
/// that follow this one, so the leading cell holds the length minus one and
/// the trailing cell holds zero.
#[derive(Debug, Clone, Copy, Hash, PartialEq, Eq, Structural)]
pub struct VehicleSegment {
    pub id: u8,
    pub direction: Direction,
    pub segments_left: u8,
}

/// The text of a run of ASCII bytes, made by `String::from_utf8_lossy`.
/// Each byte below 128 is valid UTF-8 on its own and is kept as the
/// character with the same code.
#[verifier::external_body]
fn ascii_text(bytes: &[u8]) -> (text: String)
    requires
        forall|i: int| 0 <= i < bytes@.len() ==> bytes@[i] < 128,
    ensures
        text@ == Seq::new(bytes@.len(), |i: int| bytes@[i] as char),
{
    String::from_utf8_lossy(bytes).into_owned()
}

/// The name of an id, as text.
fn id_text(id: u8) -> (name: String)
    ensures
        name@ == decode_id(id),
{
    let low: u8 = id & 0b0001_1111;
    let high: u8 = (id & 0b1110_0000) >> 5;
    assert(low == id % 32 && high == id / 32) by (bit_vector)
        requires
            low == id & 0b0001_1111,
            high == (id & 0b1110_0000) >> 5,
    ;
    if high == 0 {
        let bytes: [u8; 1] = [low + 64];
        let text = ascii_text(bytes.as_slice());
        assert(text@ =~= decode_id(id));
        text
    } else {
        let bytes: [u8; 2] = [high + 64, low + 64];
        let text = ascii_text(bytes.as_slice());
        assert(text@ =~= decode_id(id));
        text
    }
}

/// The id of a name of one or two capital letters, or `InvalidId`.
pub fn name_id(name: &str) -> (result: Result<u8, BoardError>)
    ensures
        valid_name(name@) ==> result == Ok::<u8, BoardError>(encode_name(name@) as u8),
        !valid_name(name@) ==> result == Err::<u8, BoardError>(BoardError::InvalidId),
{
    let len = name.unicode_len();
    if len == 1 {
        let c = name.get_char(0);
        if 'A' <= c && c <= 'Z' {
            Ok((c as u32 - 64) as u8)
        } else {
            Err(BoardError::InvalidId)
        }
    } else if len == 2 {
        let first = name.get_char(0);
        let last = name.get_char(1);
        if 'A' <= first && first <= 'G' && 'A' <= last && last <= 'Z' {
            let low: u8 = (last as u32 - 64) as u8;
            let high: u8 = (first as u32 - 64) as u8;
            assert(high << 5 == high * 32) by (bit_vector)
                requires
                    high <= 7,
            ;
            Ok(low + (high << 5))
        } else {
            Err(BoardError::InvalidId)
        }
    } else {
        Err(BoardError::InvalidId)
    }
}

impl VehicleSegment {
    /// A segment of the vehicle called `id`, or `InvalidId` when `id` is not
    /// a valid name.
    pub fn new(id: String, direction: Direction, segments_left: u8) -> (result: Result<
        VehicleSegment,
        BoardError,
    >)
        ensures
            valid_name(id@) ==> result == Ok::<VehicleSegment, BoardError>(
                VehicleSegment { id: encode_name(id@) as u8, direction, segments_left },
            ),
            !valid_name(id@) ==> result == Err::<VehicleSegment, BoardError>(
                BoardError::InvalidId,
            ),
    {
        match VehicleSegment::string_to_veh_id(id) {
            Ok(veh_id) => Ok(VehicleSegment { id: veh_id, direction, segments_left }),
            Err(e) => Err(e),
        }
    }

    /// Stores a name of one or two capital letters in one byte.
    pub fn string_to_veh_id(id: String) -> (result: Result<u8, BoardError>)
        ensures
            valid_name(id@) ==> result == Ok::<u8, BoardError>(encode_name(id@) as u8),
            !valid_name(id@) ==> result == Err::<u8, BoardError>(BoardError::InvalidId),
    {
        name_id(id.as_str())
    }

    /// Decodes the segment's id back into the vehicle's name.
    pub fn id_string(&self) -> (name: String)
        ensures
            name@ == decode_id(self.id),
    {
        id_text(self.id)
    }
}

/// What a cell of the board holds.
#[derive(Debug, Clone, Copy, Hash, PartialEq, Eq, Structural)]
pub enum Tile {
    Vehicle(VehicleSegment),
    Empty,
}

impl Default for Tile {
    fn default() -> (tile: Tile)
        ensures
            tile == Tile::Empty,
    {
        Tile::Empty
    }
}

impl Tile {
    /// Whether no vehicle stands on the tile.
    #[verifier::when_used_as_spec(spec_empty)]
    pub fn empty(&self) -> (b: bool)
        ensures
            b == self.spec_empty(),
    {
        match self {
            Tile::Vehicle(_) => false,
            Tile::Empty => true,
        }
    }

    /// Whether the tile is the empty tile.
    pub open spec fn spec_empty(&self) -> bool {
        *self == Tile::Empty
    }

    /// Whether the tile holds a segment of the vehicle `id`.
    pub open spec fn has_id(&self, id: u8) -> bool {
        match *self {
            Tile::Vehicle(v) => v.id == id,
            Tile::Empty => false,
        }
    }
}

/// A slide of one vehicle along its axis. The magnitude of `direction` is
/// the distance in cells; a negative value slides toward the first row or
/// column, a positive one away from it.
#[derive(Debug, Clone, Copy, Hash, PartialEq, Eq, Structural)]
pub struct Move {
    pub vehicle_id: u8,
    pub direction: i8,
}

impl Move {
    /// Decodes the move's vehicle id back into the vehicle's name.
    pub fn get_id_string(&self) -> (name: String)
        ensures
            name@ == decode_id(self.vehicle_id),
    {
        id_text(self.vehicle_id)
    }

    /// The slide of the same vehicle by the same distance the other way.
    pub open spec fn inverse(self) -> Move
        recommends
            self.direction > i8::MIN,
    {
        Move { vehicle_id: self.vehicle_id, direction: (-self.direction) as i8 }
    }
}

} // verus!
