//! Which moves a grid allows.
//!
//! Every empty cell is probed in four directions for the nearest tile that
//! is not empty. A vehicle found there can slide into the empty cell when
//! it lies along the line of the probe; the move's distance is the distance
//! between the two cells, and its sign says which way the vehicle goes.

use crate::slide::line_of;
use crate::tile::{Direction, Move, Tile};
use vstd::prelude::*;

verus! {

/// The longest slide toward lower indices that a move can hold.
pub const MAX_BACK: usize = 128;

/// The longest slide toward higher indices that a move can hold.
pub const MAX_FORWARD: usize = 127;

/// Whether `q` is the index of the nearest tile after index `p` of the line
/// that is not empty.
pub open spec fn first_after(line: Seq<Tile>, p: int, q: int) -> bool {
    &&& p < q < line.len()
    &&& !line[q].spec_empty()
    &&& forall|i: int| p < i < q ==> (#[trigger] line[i]).spec_empty()
}

/// Whether `q` is the index of the nearest tile before index `p` of the
/// line that is not empty.
pub open spec fn first_before(line: Seq<Tile>, p: int, q: int) -> bool {
    &&& 0 <= q < p
    &&& !line[q].spec_empty()
    &&& forall|i: int| q < i < p ==> (#[trigger] line[i]).spec_empty()
}

/// The move of the vehicle in `tile` by `offset`, if the vehicle lies along
/// `axis`; no move if it lies across it.
pub open spec fn slide_of(tile: Tile, axis: Direction, offset: int) -> Seq<Move> {
    match tile {
        Tile::Vehicle(v) => if v.direction == axis {
            seq![Move { vehicle_id: v.id, direction: offset as i8 }]
        } else {
            Seq::empty()
        },
        Tile::Empty => Seq::empty(),
    }
}

/// The move into the cell at index `p` of the nearest vehicle after it:
/// a slide toward lower indices, of at most `MAX_BACK` cells.
#[verifier::opaque]
pub open spec fn back_moves(line: Seq<Tile>, axis: Direction, p: int) -> Seq<Move> {
    if exists|q: int| first_after(line, p, q) {
        let q = choose|q: int| first_after(line, p, q);
        if q - p <= MAX_BACK {
            slide_of(line[q], axis, p - q)
        } else {
            Seq::empty()
        }
    } else {
        Seq::empty()
    }
}

/// The move into the cell at index `p` of the nearest vehicle before it:
/// a slide toward higher indices, of at most `MAX_FORWARD` cells.
#[verifier::opaque]
pub open spec fn forward_moves(line: Seq<Tile>, axis: Direction, p: int) -> Seq<Move> {
    if exists|q: int| first_before(line, p, q) {
        let q = choose|q: int| first_before(line, p, q);
        if p - q <= MAX_FORWARD {
            slide_of(line[q], axis, p - q)
        } else {
            Seq::empty()
        }
    } else {
        Seq::empty()
    }
}

/// The moves into the cell `(r, c)`: none if the cell is not empty, else
/// those of the vehicles to its right, to its left, below it and above it,
/// in this order.
pub open spec fn cell_moves(cells: Seq<Seq<Tile>>, r: int, c: int) -> Seq<Move> {
    if cells[r][c].spec_empty() {
        back_moves(line_of(cells, Direction::Horizontal, r, c), Direction::Horizontal, c)
            + forward_moves(line_of(cells, Direction::Horizontal, r, c), Direction::Horizontal, c)
            + back_moves(line_of(cells, Direction::Vertical, r, c), Direction::Vertical, r)
            + forward_moves(line_of(cells, Direction::Vertical, r, c), Direction::Vertical, r)
    } else {
        Seq::empty()
    }
}

/// The moves into the first `upto` cells of row `r`.
pub open spec fn row_moves(cells: Seq<Seq<Tile>>, r: int, upto: int) -> Seq<Move>
    decreases upto,
{
    if upto <= 0 {
        Seq::empty()
    } else {
        row_moves(cells, r, upto - 1) + cell_moves(cells, r, upto - 1)
    }
}

/// The moves into the cells of the first `upto` rows.
pub open spec fn grid_moves(cells: Seq<Seq<Tile>>, upto: int) -> Seq<Move>
    decreases upto,
{
    if upto <= 0 {
        Seq::empty()
    } else {
        grid_moves(cells, upto - 1) + row_moves(cells, upto - 1, cells.len() as int)
    }
}

/// The moves that a grid allows: those into each of its cells, row by row.
pub open spec fn all_moves(cells: Seq<Seq<Tile>>) -> Seq<Move> {
    grid_moves(cells, cells.len() as int)
}

/// The cells of the first `upto` rows offer no move when none of them is
/// empty.
proof fn lemma_full_rows_offer_nothing(cells: Seq<Seq<Tile>>, upto: int)
    requires
        0 <= upto <= cells.len(),
        forall|r: int, c: int|
            0 <= r < cells.len() && 0 <= c < cells.len() ==> !(#[trigger] cells[r][c]).spec_empty(),
    ensures
        grid_moves(cells, upto) == Seq::<Move>::empty(),
    decreases upto,
{
    if upto > 0 {
        lemma_full_rows_offer_nothing(cells, upto - 1);
        lemma_full_row_offers_nothing(cells, upto - 1, cells.len() as int);
    }
}

/// The first `upto` cells of row `r` offer no move when none of them is
/// empty.
proof fn lemma_full_row_offers_nothing(cells: Seq<Seq<Tile>>, r: int, upto: int)
    requires
        0 <= r < cells.len(),
        0 <= upto <= cells.len(),
        forall|r: int, c: int|
            0 <= r < cells.len() && 0 <= c < cells.len() ==> !(#[trigger] cells[r][c]).spec_empty(),
    ensures
        row_moves(cells, r, upto) == Seq::<Move>::empty(),
    decreases upto,
{
    if upto > 0 {
        lemma_full_row_offers_nothing(cells, r, upto - 1);
        assert(!cells[r][upto - 1].spec_empty());
    }
}

/// A grid without an empty cell allows no move.
pub proof fn lemma_full_grid_allows_nothing(cells: Seq<Seq<Tile>>)
    requires
        forall|r: int, c: int|
            0 <= r < cells.len() && 0 <= c < cells.len() ==> !(#[trigger] cells[r][c]).spec_empty(),
    ensures
        all_moves(cells).len() == 0,
{
    lemma_full_rows_offer_nothing(cells, cells.len() as int);
}

/// A move that a grid allows is a move into one of its cells.
pub proof fn lemma_move_into_some_cell(cells: Seq<Seq<Tile>>, m: Move)
    requires
        all_moves(cells).contains(m),
    ensures
        exists|r: int, c: int|
            0 <= r < cells.len() && 0 <= c < cells.len() && #[trigger] cell_moves(
                cells,
                r,
                c,
            ).contains(m),
{
    lemma_move_from_rows(cells, cells.len() as int, m);
}

/// A move into a cell of the first `upto` rows is a move into one of their
/// cells.
proof fn lemma_move_from_rows(cells: Seq<Seq<Tile>>, upto: int, m: Move)
    requires
        0 <= upto <= cells.len(),
        grid_moves(cells, upto).contains(m),
    ensures
        exists|r: int, c: int|
            0 <= r < cells.len() && 0 <= c < cells.len() && #[trigger] cell_moves(
                cells,
                r,
                c,
            ).contains(m),
    decreases upto,
{
    if upto > 0 {
        let earlier = grid_moves(cells, upto - 1);
        let row = row_moves(cells, upto - 1, cells.len() as int);
        let i = choose|i: int| 0 <= i < (earlier + row).len() && (earlier + row)[i] == m;
        if i < earlier.len() {
            assert(earlier[i] == m);
            lemma_move_from_rows(cells, upto - 1, m);
        } else {
            assert(row[i - earlier.len()] == m);
            lemma_move_from_row(cells, upto - 1, cells.len() as int, m);
        }
    }
}

/// A move into one of the first `upto` cells of row `r` is a move into one
/// of these cells.
proof fn lemma_move_from_row(cells: Seq<Seq<Tile>>, r: int, upto: int, m: Move)
    requires
        0 <= r < cells.len(),
        0 <= upto <= cells.len(),
        row_moves(cells, r, upto).contains(m),
    ensures
        exists|c: int| 0 <= c < cells.len() && #[trigger] cell_moves(cells, r, c).contains(m),
    decreases upto,
{
    if upto > 0 {
        let earlier = row_moves(cells, r, upto - 1);
        let cell = cell_moves(cells, r, upto - 1);
        let i = choose|i: int| 0 <= i < (earlier + cell).len() && (earlier + cell)[i] == m;
        if i < earlier.len() {
            assert(earlier[i] == m);
            lemma_move_from_row(cells, r, upto - 1, m);
        } else {
            assert(cell[i - earlier.len()] == m);
            assert(cell_moves(cells, r, upto - 1).contains(m));
        }
    }
}

/// A move into a cell is a move that the grid allows.
pub proof fn lemma_cell_move_is_offered(cells: Seq<Seq<Tile>>, r: int, c: int, m: Move)
    requires
        0 <= r < cells.len(),
        0 <= c < cells.len(),
        cell_moves(cells, r, c).contains(m),
    ensures
        all_moves(cells).contains(m),
{
    lemma_row_holds_cell(cells, r, c, cells.len() as int, m);
    lemma_rows_hold_row(cells, r, cells.len() as int, m);
}

/// The moves into the first `upto` cells of a row hold those into each of
/// the cells.
proof fn lemma_row_holds_cell(cells: Seq<Seq<Tile>>, r: int, c: int, upto: int, m: Move)
    requires
        0 <= c < upto,
        cell_moves(cells, r, c).contains(m),
    ensures
        row_moves(cells, r, upto).contains(m),
    decreases upto,
{
    let earlier = row_moves(cells, r, upto - 1);
    let cell = cell_moves(cells, r, upto - 1);
    if c == upto - 1 {
        let i = choose|i: int| 0 <= i < cell.len() && cell[i] == m;
        assert((earlier + cell)[earlier.len() + i] == m);
    } else {
        lemma_row_holds_cell(cells, r, c, upto - 1, m);
        let i = choose|i: int| 0 <= i < earlier.len() && earlier[i] == m;
        assert((earlier + cell)[i] == m);
    }
}

/// The moves into the cells of the first `upto` rows hold those into each
/// of the rows.
proof fn lemma_rows_hold_row(cells: Seq<Seq<Tile>>, r: int, upto: int, m: Move)
    requires
        0 <= r < upto,
        row_moves(cells, r, cells.len() as int).contains(m),
    ensures
        grid_moves(cells, upto).contains(m),
    decreases upto,
{
    let earlier = grid_moves(cells, upto - 1);
    let row = row_moves(cells, upto - 1, cells.len() as int);
    if r == upto - 1 {
        let i = choose|i: int| 0 <= i < row.len() && row[i] == m;
        assert((earlier + row)[earlier.len() + i] == m);
    } else {
        lemma_rows_hold_row(cells, r, upto - 1, m);
        let i = choose|i: int| 0 <= i < earlier.len() && earlier[i] == m;
        assert((earlier + row)[i] == m);
    }
}

/// The nearest tile after `p` that is not empty is the only one.
pub proof fn lemma_first_after_unique(line: Seq<Tile>, p: int, q: int)
    requires
        first_after(line, p, q),
    ensures
        (choose|q2: int| first_after(line, p, q2)) == q,
{
    let q2 = choose|q2: int| first_after(line, p, q2);
    assert(first_after(line, p, q2));
    if q2 < q {
        assert(line[q2].spec_empty());
    }
    if q < q2 {
        assert(line[q].spec_empty());
    }
}

/// The nearest tile before `p` that is not empty is the only one.
pub proof fn lemma_first_before_unique(line: Seq<Tile>, p: int, q: int)
    requires
        first_before(line, p, q),
    ensures
        (choose|q2: int| first_before(line, p, q2)) == q,
{
    let q2 = choose|q2: int| first_before(line, p, q2);
    assert(first_before(line, p, q2));
    if q2 < q {
        assert(line[q].spec_empty());
    }
    if q < q2 {
        assert(line[q2].spec_empty());
    }
}

} // verus!
