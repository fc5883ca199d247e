//! Board definitions as text.
//!
//! A board definition is a heading line followed by one line for each
//! vehicle: its name, `H` or `V`, the column and the row of its first cell,
//! both counted from one, and its length, with commas between them. The
//! definition ends at the first empty line or at the end of the text.

use crate::board::{empty_cells, place_outcome, Board};
use crate::pattern::{find_first, first_match};
use crate::tile::Move;
use vstd::utf8::encode_utf8;
use crate::error::BoardError;
use crate::tile::{encode_name, valid_name, Direction, Tile};
use vstd::prelude::*;
use vstd::slice::slice_subrange;
use vstd::string::StringSliceAdditionalSpecFns;

verus! {

/// The byte that ends a line.
pub const NEWLINE: u8 = 10;

/// The byte that stands between the fields of a record.
pub const COMMA: u8 = 44;

/// The byte of the plus sign, which may stand before a number.
pub const PLUS: u8 = 43;

/// The byte of the digit zero.
pub const ZERO: u8 = 48;

/// The first index from `start` on at which `text` holds `sep`; the length
/// of `text` if there is none.
pub open spec fn next_sep(text: Seq<u8>, start: int, sep: u8) -> int
    decreases text.len() - start,
{
    if start >= text.len() {
        text.len() as int
    } else if text[start] == sep {
        start
    } else {
        next_sep(text, start + 1, sep)
    }
}

/// Whether a byte is a decimal digit.
pub open spec fn is_digit(b: u8) -> bool {
    ZERO <= b <= ZERO + 9
}

/// Whether every byte is a decimal digit.
pub open spec fn all_digits(digits: Seq<u8>) -> bool {
    forall|i: int| 0 <= i < digits.len() ==> is_digit(#[trigger] digits[i])
}

/// The number that a run of decimal digits writes.
pub open spec fn digits_value(digits: Seq<u8>) -> int
    decreases digits.len(),
{
    if digits.len() == 0 {
        0
    } else {
        10 * digits_value(digits.drop_last()) + (digits.last() - ZERO)
    }
}

/// The number that `text` writes, if it is at most `max`: one decimal
/// digit or more, with or without a plus sign before them.
pub open spec fn parse_decimal(text: Seq<u8>, max: int) -> Option<int> {
    let digits = if text.len() > 0 && text[0] == PLUS {
        text.skip(1)
    } else {
        text
    };
    if digits.len() > 0 && all_digits(digits) && digits_value(digits) <= max {
        Some(digits_value(digits))
    } else {
        None
    }
}

/// The characters that ASCII bytes stand for.
pub open spec fn name_chars(bytes: Seq<u8>) -> Seq<char> {
    Seq::new(bytes.len(), |i: int| bytes[i] as char)
}

/// The axis that a field names: `H` or `V`.
pub open spec fn parse_direction(field: Seq<u8>) -> Option<Direction> {
    if field == seq![72u8] {
        Some(Direction::Horizontal)
    } else if field == seq![86u8] {
        Some(Direction::Vertical)
    } else {
        None
    }
}

/// One line of a board definition: a vehicle and where it lies. Column
/// and row are counted from one.
#[derive(Debug, Clone, Copy, PartialEq, Eq, Structural)]
pub struct Record {
    pub id: u8,
    pub direction: Direction,
    pub col: usize,
    pub row: usize,
    pub length: u8,
}

/// The record that a line writes.
///
/// `MalformedInput` when the line has fewer than five fields, when column,
/// row or length is not a number that fits, or when the axis is neither
/// `H` nor `V`; `InvalidId` when the name is not a valid name. Fields
/// after the fifth are not read.
pub open spec fn parse_record(line: Seq<u8>) -> Result<Record, BoardError> {
    let n = line.len() as int;
    let e0 = next_sep(line, 0, COMMA);
    let e1 = next_sep(line, e0 + 1, COMMA);
    let e2 = next_sep(line, e1 + 1, COMMA);
    let e3 = next_sep(line, e2 + 1, COMMA);
    let e4 = next_sep(line, e3 + 1, COMMA);
    if e0 >= n || e1 >= n || e2 >= n || e3 >= n {
        Err(BoardError::MalformedInput)
    } else {
        let col = parse_decimal(line.subrange(e1 + 1, e2), usize::MAX as int);
        let row = parse_decimal(line.subrange(e2 + 1, e3), usize::MAX as int);
        let length = parse_decimal(line.subrange(e3 + 1, e4), u8::MAX as int);
        let direction = parse_direction(line.subrange(e0 + 1, e1));
        let name = name_chars(line.subrange(0, e0));
        if col is None || row is None || length is None || direction is None {
            Err(BoardError::MalformedInput)
        } else if !valid_name(name) {
            Err(BoardError::InvalidId)
        } else {
            Ok(
                Record {
                    id: encode_name(name) as u8,
                    direction: direction->0,
                    col: col->0 as usize,
                    row: row->0 as usize,
                    length: length->0 as u8,
                },
            )
        }
    }
}

/// What the vehicle of a line leads to on a grid: the grid afterwards, and
/// whether the vehicle was laid out. A line that is no record, or whose
/// vehicle does not lie on the grid, leaves the grid as it was.
pub open spec fn record_outcome(cells: Seq<Seq<Tile>>, line: Seq<u8>) -> (
    Seq<Seq<Tile>>,
    Result<(), BoardError>,
) {
    match parse_record(line) {
        Err(e) => (cells, Err(e)),
        Ok(record) => if record.row == 0 || record.col == 0 {
            (cells, Err(BoardError::OutOfBounds))
        } else {
            place_outcome(
                cells,
                record.id,
                record.direction,
                record.row - 1,
                record.col - 1,
                record.length as int,
            )
        },
    }
}

/// What the lines of `text` from index `start` on lead to: the vehicles
/// of the lines up to the first empty line, the first line that fails, or
/// the end of the text are laid out one after another.
pub open spec fn lines_outcome(cells: Seq<Seq<Tile>>, text: Seq<u8>, start: int) -> (
    Seq<Seq<Tile>>,
    Result<(), BoardError>,
)
    decreases text.len() - start,
{
    let end = next_sep(text, start, NEWLINE);
    if start < 0 || start >= text.len() || end <= start {
        (cells, Ok(()))
    } else {
        let (after, laid) = record_outcome(cells, text.subrange(start, end));
        if laid is Err || end >= text.len() {
            (after, laid)
        } else {
            lines_outcome(after, text, end + 1)
        }
    }
}

/// What a board definition leads to on a grid: its first line is a heading
/// and is not read; the lines after it are.
pub open spec fn definition_outcome(cells: Seq<Seq<Tile>>, text: Seq<u8>) -> (
    Seq<Seq<Tile>>,
    Result<(), BoardError>,
) {
    lines_outcome(cells, text, next_sep(text, 0, NEWLINE) + 1)
}

/// The number that digits write does not get smaller when a digit follows.
pub proof fn lemma_digits_value_grows(digits: Seq<u8>, k: int)
    requires
        all_digits(digits),
        0 <= k <= digits.len(),
    ensures
        0 <= digits_value(digits.take(k)) <= digits_value(digits),
    decreases digits.len() - k,
{
    if k == digits.len() {
        assert(digits.take(k) =~= digits);
        lemma_digits_value_nonnegative(digits);
    } else {
        lemma_digits_value_grows(digits, k + 1);
        assert(digits.take(k + 1).drop_last() =~= digits.take(k));
        assert(is_digit(digits[k]));
        lemma_digits_value_nonnegative(digits.take(k));
        assert(all_digits(digits.take(k))) by {
            assert forall|i: int| 0 <= i < digits.take(k).len() implies is_digit(
                #[trigger] digits.take(k)[i],
            ) by {
                assert(is_digit(digits[i]));
            }
        }
    }
}

/// The number that digits write is not negative.
pub proof fn lemma_digits_value_nonnegative(digits: Seq<u8>)
    requires
        all_digits(digits),
    ensures
        0 <= digits_value(digits),
    decreases digits.len(),
{
    if digits.len() > 0 {
        assert(all_digits(digits.drop_last())) by {
            assert forall|i: int| 0 <= i < digits.drop_last().len() implies is_digit(
                #[trigger] digits.drop_last()[i],
            ) by {
                assert(is_digit(digits[i]));
            }
        }
        lemma_digits_value_nonnegative(digits.drop_last());
        assert(is_digit(digits.last()));
    }
}

/// The first index from `start` on at which `text` holds `sep`.
pub fn find_sep(text: &[u8], start: usize, sep: u8) -> (end: usize)
    requires
        start <= text@.len(),
    ensures
        end == next_sep(text@, start as int, sep),
        start <= end <= text@.len(),
{
    let mut i = start;
    while i < text.len() && text[i] != sep
        invariant
            start <= i <= text@.len(),
            next_sep(text@, start as int, sep) == next_sep(text@, i as int, sep),
        decreases text@.len() - i,
    {
        i = i + 1;
    }
    i
}

/// The number that the bytes of `text` from `from` up to `to` write, if it
/// is at most `max`.
pub fn parse_number(text: &[u8], from: usize, to: usize, max: usize) -> (number: Option<usize>)
    requires
        from <= to <= text@.len(),
    ensures
        number == match parse_decimal(text@.subrange(from as int, to as int), max as int) {
            Some(value) => Some(value as usize),
            None => None,
        },
        parse_decimal(text@.subrange(from as int, to as int), max as int) matches Some(value)
            ==> 0 <= value <= max,
{
    let ghost field = text@.subrange(from as int, to as int);
    let mut i = from;
    if i < to && text[i] == PLUS {
        i = i + 1;
    }
    let first = i;
    let ghost digits = text@.subrange(first as int, to as int);
    assert(digits =~= if field.len() > 0 && field[0] == PLUS {
        field.skip(1)
    } else {
        field
    });
    if i == to {
        return None;
    }
    let mut value: usize = 0;
    while i < to
        invariant
            from <= first <= i <= to <= text@.len(),
            field == text@.subrange(from as int, to as int),
            digits == text@.subrange(first as int, to as int),
            digits == if field.len() > 0 && field[0] == PLUS {
                field.skip(1)
            } else {
                field
            },
            all_digits(digits.take(i - first)),
            value == digits_value(digits.take(i - first)),
            value <= max,
        decreases to - i,
    {
        let b = text[i];
        assert(b == digits[i - first]);
        if b < ZERO || b > ZERO + 9 {
            assert(!is_digit(digits[i - first]));
            return None;
        }
        let d = (b - ZERO) as usize;
        proof {
            assert(digits.take(i + 1 - first).drop_last() =~= digits.take(i - first));
            assert(digits.take(i + 1 - first).last() == b);
            assert(all_digits(digits.take(i + 1 - first))) by {
                assert forall|k: int| 0 <= k < i + 1 - first implies is_digit(
                    #[trigger] digits.take(i + 1 - first)[k],
                ) by {
                    if k < i - first {
                        assert(is_digit(digits.take(i - first)[k]));
                    }
                }
            }
        }
        if d > max || value > (max - d) / 10 {
            proof {
                if all_digits(digits) {
                    lemma_digits_value_grows(digits, i + 1 - first);
                }
            }
            return None;
        }
        value = value * 10 + d;
        i = i + 1;
    }
    assert(digits.take(to - first) =~= digits);
    proof {
        lemma_digits_value_nonnegative(digits);
    }
    Some(value)
}

/// The axis that the bytes of `text` from `from` up to `to` name.
pub fn read_direction(text: &[u8], from: usize, to: usize) -> (direction: Option<Direction>)
    requires
        from <= to <= text@.len(),
    ensures
        direction == parse_direction(text@.subrange(from as int, to as int)),
{
    let ghost field = text@.subrange(from as int, to as int);
    assert(seq![72u8].len() == 1 && seq![86u8].len() == 1);
    if to - from != 1 {
        return None;
    }
    assert(field[0] == text@[from as int]);
    if text[from] == 72 {
        assert(field =~= seq![72u8]);
        Some(Direction::Horizontal)
    } else if text[from] == 86 {
        assert(field =~= seq![86u8]);
        Some(Direction::Vertical)
    } else {
        assert(seq![72u8][0] == 72u8 && seq![86u8][0] == 86u8);
        None
    }
}

/// The id of the name that the bytes of `text` from `from` up to `to`
/// write, or `InvalidId`.
pub fn read_name(text: &[u8], from: usize, to: usize) -> (id: Result<u8, BoardError>)
    requires
        from <= to <= text@.len(),
    ensures
        id == if valid_name(name_chars(text@.subrange(from as int, to as int))) {
            Ok::<u8, BoardError>(
                encode_name(name_chars(text@.subrange(from as int, to as int))) as u8,
            )
        } else {
            Err::<u8, BoardError>(BoardError::InvalidId)
        },
{
    let ghost name = name_chars(text@.subrange(from as int, to as int));
    if to - from == 1 {
        let c = text[from];
        assert(name[0] == c as char);
        if 65 <= c && c <= 90 {
            Ok(c - 64)
        } else {
            Err(BoardError::InvalidId)
        }
    } else if to - from == 2 {
        let first = text[from];
        let last = text[from + 1];
        assert(name[0] == first as char && name[1] == last as char);
        if 65 <= first && first <= 71 && 65 <= last && last <= 90 {
            let high: u8 = first - 64;
            assert(high << 5 == high * 32) by (bit_vector)
                requires
                    high <= 7,
            ;
            Ok((last - 64) + (high << 5))
        } else {
            Err(BoardError::InvalidId)
        }
    } else {
        Err(BoardError::InvalidId)
    }
}

/// The record that the bytes of `text` from `from` up to `to` write.
pub fn read_record(text: &[u8], from: usize, to: usize) -> (record: Result<Record, BoardError>)
    requires
        from <= to <= text@.len(),
    ensures
        record == parse_record(text@.subrange(from as int, to as int)),
{
    let line = slice_subrange(text, from, to);
    let n = line.len();
    let e0 = find_sep(line, 0, COMMA);
    if e0 >= n {
        return Err(BoardError::MalformedInput);
    }
    let e1 = find_sep(line, e0 + 1, COMMA);
    if e1 >= n {
        return Err(BoardError::MalformedInput);
    }
    let e2 = find_sep(line, e1 + 1, COMMA);
    if e2 >= n {
        return Err(BoardError::MalformedInput);
    }
    let e3 = find_sep(line, e2 + 1, COMMA);
    if e3 >= n {
        return Err(BoardError::MalformedInput);
    }
    let e4 = find_sep(line, e3 + 1, COMMA);
    let col = match parse_number(line, e1 + 1, e2, usize::MAX) {
        Some(col) => col,
        None => {
            return Err(BoardError::MalformedInput);
        },
    };
    let row = match parse_number(line, e2 + 1, e3, usize::MAX) {
        Some(row) => row,
        None => {
            return Err(BoardError::MalformedInput);
        },
    };
    let length = match parse_number(line, e3 + 1, e4, 255) {
        Some(length) => length,
        None => {
            return Err(BoardError::MalformedInput);
        },
    };
    let direction = match read_direction(line, e0 + 1, e1) {
        Some(direction) => direction,
        None => {
            return Err(BoardError::MalformedInput);
        },
    };
    match read_name(line, 0, e0) {
        Ok(id) => Ok(Record { id, direction, col, row, length: length as u8 }),
        Err(e) => Err(e),
    }
}

impl Board {
    /// Adds the vehicle of one line of a board definition to the board.
    ///
    /// `MalformedInput` or `InvalidId` when the line is no record,
    /// `OutOfBounds` when the vehicle does not lie on the board; the board
    /// is then left as it was.
    pub fn add_vehicle(&mut self, id_line: &str) -> (result: Result<(), BoardError>)
        requires
            old(self).wf(),
        ensures
            final(self).wf(),
            final(self).history() == old(self).history(),
            final(self).cells() == record_outcome(old(self).cells(), id_line.spec_bytes()).0,
            result == record_outcome(old(self).cells(), id_line.spec_bytes()).1,
    {
        let bytes = id_line.as_bytes();
        assert(bytes@.subrange(0, bytes@.len() as int) =~= bytes@);
        self.add_record(bytes, 0, bytes.len())
    }

    /// Adds the vehicle that the bytes of `text` from `from` up to `to`
    /// write to the board.
    fn add_record(&mut self, text: &[u8], from: usize, to: usize) -> (result: Result<
        (),
        BoardError,
    >)
        requires
            old(self).wf(),
            from <= to <= text@.len(),
        ensures
            final(self).wf(),
            final(self).history() == old(self).history(),
            final(self).cells() == record_outcome(
                old(self).cells(),
                text@.subrange(from as int, to as int),
            ).0,
            result == record_outcome(old(self).cells(), text@.subrange(from as int, to as int)).1,
    {
        match read_record(text, from, to) {
            Err(e) => Err(e),
            Ok(record) => {
                if record.row == 0 || record.col == 0 {
                    Err(BoardError::OutOfBounds)
                } else {
                    self.place(
                        record.id,
                        record.direction,
                        record.row - 1,
                        record.col - 1,
                        record.length,
                    )
                }
            },
        }
    }

    /// Fills the board from a board definition: the vehicles of its lines
    /// are laid out one after another. The first line that fails ends the
    /// filling, and the vehicles of the lines before it stay on the board.
    pub fn fill_from(&mut self, definition: &str) -> (result: Result<(), BoardError>)
        requires
            old(self).wf(),
        ensures
            final(self).wf(),
            final(self).history() == old(self).history(),
            final(self).cells() == definition_outcome(old(self).cells(), definition.spec_bytes()).0,
            result == definition_outcome(old(self).cells(), definition.spec_bytes()).1,
    {
        let text = definition.as_bytes();
        let heading_end = find_sep(text, 0, NEWLINE);
        if heading_end >= text.len() {
            assert(lines_outcome(self.cells(), text@, heading_end + 1) == (
                self.cells(),
                Ok::<(), BoardError>(()),
            ));
            return Ok(());
        }
        let mut start: usize = heading_end + 1;
        loop
            invariant_except_break
                lines_outcome(self.cells(), text@, start as int) == definition_outcome(
                    old(self).cells(),
                    text@,
                ),
            invariant
                self.wf(),
                self.history() == old(self).history(),
                start <= text@.len(),
                text@ == definition.spec_bytes(),
            ensures
                self.wf(),
                self.history() == old(self).history(),
                text@ == definition.spec_bytes(),
                definition_outcome(old(self).cells(), text@) == (self.cells(), Ok::<(), BoardError>(())),
            decreases text@.len() - start,
        {
            let end = find_sep(text, start, NEWLINE);
            if start >= text.len() || end == start {
                break ;
            }
            match self.add_record(text, start, end) {
                Err(e) => {
                    return Err(e);
                },
                Ok(()) => {},
            }
            if end >= text.len() {
                break ;
            }
            start = end + 1;
        }
        Ok(())
    }
}

/// The pattern of the size in the name of a board definition: a run of
/// digits.
pub const SIZE_PATTERN: &'static str = "\\d+";

/// The size that the first run of digits in a name gives: the number that
/// the digits write, if a run was found and the number is at most 255.
pub open spec fn size_of(digits: Option<Seq<char>>) -> Result<u8, BoardError> {
    match digits {
        Some(digits) => match parse_decimal(encode_utf8(digits), u8::MAX as int) {
            Some(size) => Ok(size as u8),
            None => Err(BoardError::MalformedInput),
        },
        None => Err(BoardError::MalformedInput),
    }
}

/// The grid that a board definition describes, whose size the first run
/// of digits in `name` gives; or why there is none.
#[verifier::opaque]
pub open spec fn defined_cells(name: Seq<char>, definition: Seq<u8>) -> Result<
    Seq<Seq<Tile>>,
    BoardError,
> {
    match size_of(first_match(SIZE_PATTERN@, name)) {
        Err(e) => Err(e),
        Ok(size) => {
            let (cells, filled) = definition_outcome(empty_cells(size as int), definition);
            match filled {
                Err(e) => Err(e),
                Ok(()) => Ok(cells),
            }
        },
    }
}

/// The size that a run of digits gives, if one was found: the number that
/// the digits write. `MalformedInput` when none was found, when a digit is
/// not one of `0` to `9`, or when the number is greater than 255.
pub fn board_size(digits: Option<String>) -> (size: Result<u8, BoardError>)
    ensures
        size == size_of(
            match digits {
                Some(digits) => Some(digits@),
                None => None,
            },
        ),
{
    match digits {
        Some(digits) => {
            let bytes = digits.as_str().as_bytes();
            assert(bytes@.subrange(0, bytes@.len() as int) =~= bytes@);
            match parse_number(bytes, 0, bytes.len(), 255) {
                Some(size) => Ok(size as u8),
                None => Err(BoardError::MalformedInput),
            }
        },
        None => Err(BoardError::MalformedInput),
    }
}

/// The board that a board definition describes, with no moves made. The
/// size of the board is the first number in `name`, the name of the
/// definition.
pub fn board_from_text(name: &str, definition: &str) -> (result: Result<Board, BoardError>)
    ensures
        match result {
            Ok(board) => {
                &&& board.wf()
                &&& defined_cells(name@, definition.spec_bytes()) == Ok::<
                    Seq<Seq<Tile>>,
                    BoardError,
                >(board.cells())
                &&& board.history() == Seq::<Move>::empty()
            },
            Err(e) => defined_cells(name@, definition.spec_bytes()) == Err::<
                Seq<Seq<Tile>>,
                BoardError,
            >(e),
        },
{
    reveal(defined_cells);
    let size = match board_size(find_first(SIZE_PATTERN, name)) {
        Ok(size) => size,
        Err(e) => {
            return Err(e);
        },
    };
    let mut board = Board::new(size);
    match board.fill_from(definition) {
        Ok(()) => Ok(board),
        Err(e) => Err(e),
    }
}

} // verus!
