//! The board: a square grid of tiles and the moves made on it.

use crate::error::BoardError;
use crate::fingerprint::{fingerprint, grid_writes, row_bytes, tile_bytes};
use crate::grid::{grid_cells, row_cells, Grid, Row};
use crate::history::{
    chain_moves, collect_history, extend_history, no_history, share_history, LinkedHistory,
};
use crate::position::{
    before, has_vehicle, in_grid, is_anchor, lemma_anchor_unique, square, won, TARGET_ID,
};
use crate::probe::{
    all_moves, back_moves, cell_moves, first_after, first_before, forward_moves, grid_moves,
    lemma_first_after_unique, lemma_first_before_unique, row_moves, slide_of, MAX_BACK,
    MAX_FORWARD,
};
use crate::slide::{
    along, apply_move, lemma_slide_nowhere, lemma_slide_start, lemma_swap_step, line_of,
    move_fits, shift_fits, slide_cells, slide_partial, swapped,
};
use crate::tile::{encode_name, name_id, valid_name};
pub use crate::tile::{Direction, Move, Tile, VehicleSegment};
use std::collections::hash_map::DefaultHasher;
use std::hash::Hasher;
use std::sync::Arc;
use vstd::prelude::*;

verus! {

/// A game of Rush Hour: the grid, and the chain of the moves that led to it.
#[derive(Debug)]
pub struct Board {
    contents: Grid,
    previous: Arc<Option<LinkedHistory>>,
}

/// The grid of `size` rows and columns on which no vehicle stands.
pub open spec fn empty_cells(size: int) -> Seq<Seq<Tile>> {
    Seq::new(size as nat, |r: int| Seq::new(size as nat, |c: int| Tile::Empty))
}

/// The grid on which the first `done` cells have been laid out of a
/// vehicle of `length` cells that starts at `(row, col)` and lies along
/// `axis`: these cells hold segments of the vehicle `id` that count down
/// from `length - 1`, and every other cell is as it was.
pub open spec fn laid_out(
    cells: Seq<Seq<Tile>>,
    id: u8,
    axis: Direction,
    row: int,
    col: int,
    length: int,
    done: int,
) -> Seq<Seq<Tile>> {
    Seq::new(
        cells.len(),
        |y: int|
            Seq::new(
                cells[y].len(),
                |x: int|
                    {
                        let k = match axis {
                            Direction::Horizontal => x - col,
                            Direction::Vertical => y - row,
                        };
                        let across = match axis {
                            Direction::Horizontal => y - row,
                            Direction::Vertical => x - col,
                        };
                        if across == 0 && 0 <= k < done {
                            Tile::Vehicle(
                                VehicleSegment {
                                    id,
                                    direction: axis,
                                    segments_left: (length - 1 - k) as u8,
                                },
                            )
                        } else {
                            cells[y][x]
                        }
                    },
            ),
    )
}

/// The grid on which a vehicle of `length` cells has been laid out from
/// `(row, col)` along `axis`: its cells hold segments of the vehicle `id`
/// that count down to zero, and every other cell is as it was.
pub open spec fn placed(
    cells: Seq<Seq<Tile>>,
    id: u8,
    axis: Direction,
    row: int,
    col: int,
    length: int,
) -> Seq<Seq<Tile>> {
    laid_out(cells, id, axis, row, col, length, length)
}

/// Whether a vehicle of `length` cells laid out from `(row, col)` along
/// `axis` lies on a grid of `n` rows and columns. A vehicle without cells
/// lies on any grid.
pub open spec fn placement_fits(n: int, axis: Direction, row: int, col: int, length: int) -> bool {
    length == 0 || (row < n && col < n && along(axis, row, col) + length <= n)
}

/// What laying out a vehicle leads to: the grid afterwards, and whether
/// the vehicle was laid out. A vehicle that does not fit leaves the grid
/// as it was.
pub open spec fn place_outcome(
    cells: Seq<Seq<Tile>>,
    id: u8,
    axis: Direction,
    row: int,
    col: int,
    length: int,
) -> (Seq<Seq<Tile>>, Result<(), BoardError>) {
    if placement_fits(cells.len() as int, axis, row, col, length) {
        (placed(cells, id, axis, row, col, length), Ok(()))
    } else {
        (cells, Err(BoardError::OutOfBounds))
    }
}

/// What a board holds: its tiles, one sequence for each row, and the moves
/// made on it, oldest first.
pub struct Position {
    pub cells: Seq<Seq<Tile>>,
    pub history: Seq<Move>,
}

impl View for Board {
    type V = Position;

    open spec fn view(&self) -> Position {
        Position { cells: self.cells(), history: self.history() }
    }
}

impl Clone for Board {
    /// A board with a grid of its own that holds the same tiles, and with
    /// the same history, which the two boards share.
    fn clone(&self) -> (copy: Board)
        ensures
            copy@ == self@,
    {
        Board { contents: self.contents.duplicate(), previous: share_history(&self.previous) }
    }
}

impl Board {
    /// The tiles of the board: one sequence for each row.
    pub closed spec fn cells(&self) -> Seq<Seq<Tile>> {
        grid_cells(self.contents)
    }

    /// The moves made on the board, oldest first.
    pub closed spec fn history(&self) -> Seq<Move> {
        chain_moves(*self.previous)
    }

    /// A board is well formed when its grid is square.
    pub open spec fn wf(&self) -> bool {
        square(self.cells())
    }

    /// Creates an empty board of `size` rows and `size` columns, with no
    /// moves made.
    pub fn new(size: u8) -> (board: Board)
        ensures
            board.wf(),
            board.cells() == empty_cells(size as int),
            board.history() == Seq::<Move>::empty(),
    {
        let mut rows = Grid::with_capacity(size);
        let mut r: u8 = 0;
        while r < size
            invariant
                r <= size,
                grid_cells(rows) == empty_cells(size as int).subrange(0, r as int),
            decreases size - r,
        {
            let mut row = Row::with_capacity(size);
            let mut c: u8 = 0;
            while c < size
                invariant
                    c <= size,
                    row_cells(row) == Seq::new(c as nat, |x: int| Tile::Empty),
                decreases size - c,
            {
                row.push(Tile::Empty);
                c = c + 1;
            }
            rows.push(row);
            r = r + 1;
        }
        Board { contents: rows, previous: no_history() }
    }

    /// The number of rows, which is the number of columns.
    pub fn size(&self) -> (n: usize)
        requires
            self.wf(),
        ensures
            n == self.cells().len(),
            n <= 255,
    {
        self.contents.len()
    }

    /// The tile at `location`, given as row and column, or `OutOfBounds`
    /// when the location is not on the board.
    pub fn get(&self, location: &(usize, usize)) -> (result: Result<&Tile, BoardError>)
        requires
            self.wf(),
        ensures
            in_grid(self.cells(), location.0 as int, location.1 as int) ==> result == Ok::<
                &Tile,
                BoardError,
            >(&self.cells()[location.0 as int][location.1 as int]),
            !in_grid(self.cells(), location.0 as int, location.1 as int) ==> result == Err::<
                &Tile,
                BoardError,
            >(BoardError::OutOfBounds),
    {
        let n = self.contents.len();
        if location.0 < n && location.1 < n {
            Ok(self.contents.tile(location.0, location.1))
        } else {
            Err(BoardError::OutOfBounds)
        }
    }

    /// The anchor of the vehicle `id_number`: the first cell, row by row,
    /// that holds one of its segments. `MissingVehicle` when no cell does.
    pub fn find_vehicle(&self, id_number: u8) -> (result: Result<(usize, usize), BoardError>)
        requires
            self.wf(),
        ensures
            match result {
                Ok(at) => is_anchor(self.cells(), id_number, at.0 as int, at.1 as int),
                Err(e) => e == BoardError::MissingVehicle,
            },
            result is Ok <==> has_vehicle(self.cells(), id_number),
    {
        let n = self.contents.len();
        let mut r: usize = 0;
        while r < n
            invariant
                self.wf(),
                n == self.cells().len(),
                r <= n,
                forall|r2: int, c2: int|
                    in_grid(self.cells(), r2, c2) && r2 < r ==> !(#[trigger] self.cells()[r2][c2].has_id(
                        id_number,
                    )),
            decreases n - r,
        {
            let mut c: usize = 0;
            while c < n
                invariant
                    self.wf(),
                    n == self.cells().len(),
                    r < n,
                    c <= n,
                    forall|r2: int, c2: int|
                        in_grid(self.cells(), r2, c2) && before(r2, c2, r as int, c as int) ==> !(
                        #[trigger] self.cells()[r2][c2].has_id(id_number)),
                decreases n - c,
            {
                match self.contents.tile(r, c) {
                    Tile::Vehicle(veh) => {
                        if veh.id == id_number {
                            return Ok((r, c));
                        }
                    },
                    Tile::Empty => {},
                }
                c = c + 1;
            }
            r = r + 1;
        }
        Err(BoardError::MissingVehicle)
    }

    /// Whether the target vehicle has reached the exit: whether its anchor
    /// is two columns from the right edge. `MissingVehicle` when the target
    /// is not on the board.
    pub fn is_won(&self) -> (result: Result<bool, BoardError>)
        requires
            self.wf(),
        ensures
            has_vehicle(self.cells(), TARGET_ID) ==> result == Ok::<bool, BoardError>(
                won(self.cells()),
            ),
            !has_vehicle(self.cells(), TARGET_ID) ==> result == Err::<bool, BoardError>(
                BoardError::MissingVehicle,
            ),
    {
        match self.find_vehicle(TARGET_ID) {
            Ok(x_location) => {
                proof {
                    lemma_anchor_unique(
                        self.cells(),
                        TARGET_ID,
                        x_location.0 as int,
                        x_location.1 as int,
                    );
                }
                Ok(self.contents.len() - x_location.1 == 2)
            },
            Err(e) => Err(e),
        }
    }

    /// Swaps the tiles of two cells of one row.
    fn swap_horizontal(&mut self, location1: &(usize, usize), location2: &(usize, usize))
        requires
            old(self).wf(),
            in_grid(old(self).cells(), location1.0 as int, location1.1 as int),
            in_grid(old(self).cells(), location2.0 as int, location2.1 as int),
            location1.0 == location2.0,
        ensures
            final(self).wf(),
            final(self).history() == old(self).history(),
            final(self).cells() == swapped(
                old(self).cells(),
                (location1.0 as int, location1.1 as int),
                (location2.0 as int, location2.1 as int),
            ),
    {
        let row = location1.0;
        let first = *self.contents.tile(row, location1.1);
        let second = *self.contents.tile(row, location2.1);
        self.contents.set_tile(row, location1.1, second);
        self.contents.set_tile(row, location2.1, first);
        assert(self.cells() =~~= swapped(
            old(self).cells(),
            (location1.0 as int, location1.1 as int),
            (location2.0 as int, location2.1 as int),
        ));
    }

    /// Swaps the tiles of two cells of one column.
    fn swap_vertical(&mut self, location1: &(usize, usize), location2: &(usize, usize))
        requires
            old(self).wf(),
            in_grid(old(self).cells(), location1.0 as int, location1.1 as int),
            in_grid(old(self).cells(), location2.0 as int, location2.1 as int),
            location1.1 == location2.1,
        ensures
            final(self).wf(),
            final(self).history() == old(self).history(),
            final(self).cells() == swapped(
                old(self).cells(),
                (location1.0 as int, location1.1 as int),
                (location2.0 as int, location2.1 as int),
            ),
    {
        let col = location1.1;
        let first = *self.contents.tile(location1.0, col);
        let second = *self.contents.tile(location2.0, col);
        self.contents.set_tile(location1.0, col, second);
        self.contents.set_tile(location2.0, col, first);
        assert(self.cells() =~~= swapped(
            old(self).cells(),
            (location1.0 as int, location1.1 as int),
            (location2.0 as int, location2.1 as int),
        ));
    }

    /// Slides the `segments + 1` cells that start at `(r, c)` and lie along
    /// `axis` by `d` cells, one swap for each cell. Toward lower indices
    /// the swaps start at the anchor, toward higher indices at the far
    /// end, so that each cell of the vehicle is swapped once.
    fn slide(&mut self, axis: Direction, r: usize, c: usize, segments: u8, d: i8)
        requires
            old(self).wf(),
            in_grid(old(self).cells(), r as int, c as int),
            shift_fits(
                old(self).cells().len() as int,
                along(axis, r as int, c as int),
                segments as int,
                d as int,
            ),
        ensures
            final(self).wf(),
            final(self).cells().len() == old(self).cells().len(),
            final(self).history() == old(self).history(),
            final(self).cells() == slide_cells(
                old(self).cells(),
                axis,
                r as int,
                c as int,
                segments as int,
                d as int,
            ),
    {
        let ghost start = self.cells();
        proof {
            lemma_slide_start(start, axis, r as int, c as int, segments as int, d as int);
            lemma_slide_nowhere(start, axis, r as int, c as int, segments as int);
        }
        if d == 0 {
            return ;
        }
        let a: usize = match axis {
            Direction::Horizontal => c,
            Direction::Vertical => r,
        };
        let s: usize = segments as usize;
        let far: usize = if d < 0 {
            (-(d as i16)) as usize
        } else {
            d as usize
        };
        let mut j: usize = 0;
        while j <= s
            invariant
                self.wf(),
                square(start),
                in_grid(start, r as int, c as int),
                a == along(axis, r as int, c as int),
                shift_fits(start.len() as int, a as int, s as int, d as int),
                d != 0,
                far == if d < 0 {
                    -d
                } else {
                    d as int
                },
                s <= 255,
                j <= s + 1,
                self.history() == old(self).history(),
                self.cells().len() == start.len(),
                self.cells() == slide_partial(
                    start,
                    axis,
                    r as int,
                    c as int,
                    s as int,
                    d as int,
                    j as int,
                ),
            decreases s + 1 - j,
        {
            let from: usize = if d < 0 {
                a + j
            } else {
                a + s - j
            };
            let to: usize = if d < 0 {
                from - far
            } else {
                from + far
            };
            match axis {
                Direction::Horizontal => self.swap_horizontal(&(r, from), &(r, to)),
                Direction::Vertical => self.swap_vertical(&(from, c), &(to, c)),
            }
            proof {
                lemma_swap_step(start, axis, r as int, c as int, s as int, d as int, j as int);
            }
            j = j + 1;
        }
    }

    /// Executes `veh_move` on the board and adds it to the history.
    ///
    /// The vehicle is found by its anchor, and the segment there says how
    /// many cells follow it and along which axis. Each of these cells
    /// changes places with the cell `veh_move.direction` further along the
    /// axis; the cells in the way are not looked at, so the move should be
    /// one that `possible_moves` gave for this board.
    ///
    /// `MissingVehicle` when the vehicle is not on the board, `OutOfBounds`
    /// when it would not stay on it; the board is then left as it was.
    pub fn move_vehicle(&mut self, veh_move: Move) -> (result: Result<(), BoardError>)
        requires
            old(self).wf(),
        ensures
            final(self).wf(),
            final(self).cells().len() == old(self).cells().len(),
            match result {
                Ok(()) => {
                    &&& move_fits(old(self).cells(), veh_move)
                    &&& final(self).cells() == apply_move(old(self).cells(), veh_move)
                    &&& final(self).history() == old(self).history().push(veh_move)
                },
                Err(e) => {
                    &&& !move_fits(old(self).cells(), veh_move)
                    &&& final(self).cells() == old(self).cells()
                    &&& final(self).history() == old(self).history()
                    &&& e == if has_vehicle(old(self).cells(), veh_move.vehicle_id) {
                        BoardError::OutOfBounds
                    } else {
                        BoardError::MissingVehicle
                    }
                },
            },
    {
        let at = match self.find_vehicle(veh_move.vehicle_id) {
            Ok(at) => at,
            Err(e) => {
                return Err(e);
            },
        };
        proof {
            lemma_anchor_unique(self.cells(), veh_move.vehicle_id, at.0 as int, at.1 as int);
        }
        let segment = match self.contents.tile(at.0, at.1) {
            Tile::Vehicle(segment) => *segment,
            Tile::Empty => {
                return Err(BoardError::MissingVehicle);
            },
        };
        let n = self.contents.len();
        let axis = segment.direction;
        let a: usize = match axis {
            Direction::Horizontal => at.1,
            Direction::Vertical => at.0,
        };
        let s: usize = segment.segments_left as usize;
        let d: i8 = veh_move.direction;
        let far: usize = if d < 0 {
            (-(d as i16)) as usize
        } else {
            d as usize
        };
        let fits = a + s < n && if d < 0 {
            far <= a
        } else {
            a + s + far < n
        };
        if !fits {
            return Err(BoardError::OutOfBounds);
        }
        self.slide(axis, at.0, at.1, segment.segments_left, d);
        let mut chain = no_history();
        std::mem::swap(&mut self.previous, &mut chain);
        self.previous = extend_history(chain, veh_move);
        Ok(())
    }

    /// The tile at index `i` of the line on which `(r, c)` lies along `axis`.
    fn tile_on_line(&self, axis: Direction, r: usize, c: usize, i: usize) -> (tile: Tile)
        requires
            self.wf(),
            in_grid(self.cells(), r as int, c as int),
            i < self.cells().len(),
        ensures
            tile == line_of(self.cells(), axis, r as int, c as int)[i as int],
            line_of(self.cells(), axis, r as int, c as int).len() == self.cells().len(),
    {
        match axis {
            Direction::Horizontal => *self.contents.tile(r, i),
            Direction::Vertical => *self.contents.tile(i, c),
        }
    }

    /// The move into the empty cell `(r, c)` of the nearest vehicle after it
    /// along `axis`, if that vehicle lies along `axis` and is near enough.
    fn probe_after(&self, axis: Direction, r: usize, c: usize) -> (found: Option<Move>)
        requires
            self.wf(),
            in_grid(self.cells(), r as int, c as int),
        ensures
            back_moves(line_of(self.cells(), axis, r as int, c as int), axis, along(axis, r as int, c as int))
                == match found {
                Some(m) => seq![m],
                None => Seq::<Move>::empty(),
            },
    {
        let n = self.contents.len();
        let p: usize = match axis {
            Direction::Horizontal => c,
            Direction::Vertical => r,
        };
        let ghost line = line_of(self.cells(), axis, r as int, c as int);
        let mut k: usize = 1;
        while p + k < n && k <= MAX_BACK
            invariant
                self.wf(),
                in_grid(self.cells(), r as int, c as int),
                n == self.cells().len(),
                p == along(axis, r as int, c as int),
                line == line_of(self.cells(), axis, r as int, c as int),
                line.len() == n,
                1 <= k <= MAX_BACK + 1,
                forall|i: int| p < i < p + k ==> (#[trigger] line[i]).spec_empty(),
            decreases n - k,
        {
            let tile = self.tile_on_line(axis, r, c, p + k);
            match tile {
                Tile::Vehicle(vehicle) => {
                    proof {
                        reveal(back_moves);
                        lemma_first_after_unique(line, p as int, p + k);
                    }
                    if vehicle.direction == axis {
                        let m = Move { vehicle_id: vehicle.id, direction: (-(k as i16)) as i8 };
                        assert(slide_of(tile, axis, -k) == seq![m]);
                        assert(first_after(line, p as int, p + k));
                        assert(back_moves(line, axis, p as int) == seq![m]);
                        return Some(m);
                    } else {
                        return None;
                    }
                },
                Tile::Empty => {},
            }
            k = k + 1;
        }
        proof {
            reveal(back_moves);
            if exists|q: int| first_after(line, p as int, q) {
                let q = choose|q: int| first_after(line, p as int, q);
                if q < p + k {
                    assert(line[q].spec_empty());
                }
            }
        }
        None
    }

    /// The move into the empty cell `(r, c)` of the nearest vehicle before
    /// it along `axis`, if that vehicle lies along `axis` and is near enough.
    fn probe_before(&self, axis: Direction, r: usize, c: usize) -> (found: Option<Move>)
        requires
            self.wf(),
            in_grid(self.cells(), r as int, c as int),
        ensures
            forward_moves(
                line_of(self.cells(), axis, r as int, c as int),
                axis,
                along(axis, r as int, c as int),
            ) == match found {
                Some(m) => seq![m],
                None => Seq::<Move>::empty(),
            },
    {
        let n = self.contents.len();
        let p: usize = match axis {
            Direction::Horizontal => c,
            Direction::Vertical => r,
        };
        let ghost line = line_of(self.cells(), axis, r as int, c as int);
        let mut k: usize = 1;
        while k <= p && k <= MAX_FORWARD
            invariant
                self.wf(),
                in_grid(self.cells(), r as int, c as int),
                n == self.cells().len(),
                p == along(axis, r as int, c as int),
                line == line_of(self.cells(), axis, r as int, c as int),
                line.len() == n,
                1 <= k <= MAX_FORWARD + 1,
                forall|i: int| p - k < i < p ==> (#[trigger] line[i]).spec_empty(),
            decreases MAX_FORWARD + 1 - k,
        {
            let tile = self.tile_on_line(axis, r, c, p - k);
            match tile {
                Tile::Vehicle(vehicle) => {
                    proof {
                        reveal(forward_moves);
                        lemma_first_before_unique(line, p as int, p - k);
                    }
                    if vehicle.direction == axis {
                        let m = Move { vehicle_id: vehicle.id, direction: k as i8 };
                        assert(slide_of(tile, axis, k as int) == seq![m]);
                        assert(first_before(line, p as int, p - k));
                        assert(forward_moves(line, axis, p as int) == seq![m]);
                        return Some(m);
                    } else {
                        return None;
                    }
                },
                Tile::Empty => {},
            }
            k = k + 1;
        }
        proof {
            reveal(forward_moves);
            if exists|q: int| first_before(line, p as int, q) {
                let q = choose|q: int| first_before(line, p as int, q);
                if q > p - k {
                    assert(line[q].spec_empty());
                }
            }
        }
        None
    }

    /// Adds to `moves` the moves into the cell `(r, c)`.
    fn moves_into(&self, r: usize, c: usize, moves: &mut Vec<Move>)
        requires
            self.wf(),
            in_grid(self.cells(), r as int, c as int),
        ensures
            final(moves)@ == old(moves)@ + cell_moves(self.cells(), r as int, c as int),
    {
        if self.contents.tile(r, c).empty() {
            if let Some(m) = self.probe_after(Direction::Horizontal, r, c) {
                moves.push(m);
            }
            if let Some(m) = self.probe_before(Direction::Horizontal, r, c) {
                moves.push(m);
            }
            if let Some(m) = self.probe_after(Direction::Vertical, r, c) {
                moves.push(m);
            }
            if let Some(m) = self.probe_before(Direction::Vertical, r, c) {
                moves.push(m);
            }
        }
    }

    /// Returns all possible moves for this board, or `NoMoves` when there
    /// is none.
    ///
    /// The cells are read row by row. From each empty cell the nearest
    /// vehicle is looked for to the right, to the left, below and above;
    /// one that lies along the line of the search can slide into the cell.
    pub fn possible_moves(&self) -> (result: Result<Vec<Move>, BoardError>)
        requires
            self.wf(),
        ensures
            match result {
                Ok(moves) => moves@ == all_moves(self.cells()) && moves@.len() > 0,
                Err(e) => e == BoardError::NoMoves && all_moves(self.cells()).len() == 0,
            },
    {
        let n = self.contents.len();
        let mut moves_vec: Vec<Move> = Vec::new();
        let mut r: usize = 0;
        while r < n
            invariant
                self.wf(),
                n == self.cells().len(),
                r <= n,
                moves_vec@ == grid_moves(self.cells(), r as int),
            decreases n - r,
        {
            let mut c: usize = 0;
            while c < n
                invariant
                    self.wf(),
                    n == self.cells().len(),
                    r < n,
                    c <= n,
                    moves_vec@ == grid_moves(self.cells(), r as int) + row_moves(
                        self.cells(),
                        r as int,
                        c as int,
                    ),
                decreases n - c,
            {
                self.moves_into(r, c, &mut moves_vec);
                assert(grid_moves(self.cells(), r as int) + (row_moves(self.cells(), r as int, c as int)
                    + cell_moves(self.cells(), r as int, c as int)) =~= grid_moves(
                    self.cells(),
                    r as int,
                ) + row_moves(self.cells(), r as int, c as int) + cell_moves(
                    self.cells(),
                    r as int,
                    c as int,
                ));
                c = c + 1;
            }
            r = r + 1;
        }
        if moves_vec.len() == 0 {
            Err(BoardError::NoMoves)
        } else {
            Ok(moves_vec)
        }
    }

    /// Lays out the vehicle called `name` on the board: `length` cells from
    /// row `row` and column `col`, counted from zero, along `direction`.
    /// Whatever stood on these cells is replaced.
    ///
    /// `InvalidId` when `name` is not a valid name; `OutOfBounds` when the
    /// cells do not all lie on the board, which is then left as it was.
    pub fn place_vehicle(
        &mut self,
        name: &str,
        direction: Direction,
        row: usize,
        col: usize,
        length: u8,
    ) -> (result: Result<(), BoardError>)
        requires
            old(self).wf(),
        ensures
            final(self).wf(),
            final(self).history() == old(self).history(),
            match result {
                Ok(()) => {
                    &&& valid_name(name@)
                    &&& placement_fits(
                        old(self).cells().len() as int,
                        direction,
                        row as int,
                        col as int,
                        length as int,
                    )
                    &&& final(self).cells() == placed(
                        old(self).cells(),
                        encode_name(name@) as u8,
                        direction,
                        row as int,
                        col as int,
                        length as int,
                    )
                },
                Err(e) => {
                    &&& final(self).cells() == old(self).cells()
                    &&& e == if !valid_name(name@) {
                        BoardError::InvalidId
                    } else {
                        BoardError::OutOfBounds
                    }
                    &&& !valid_name(name@) || !placement_fits(
                        old(self).cells().len() as int,
                        direction,
                        row as int,
                        col as int,
                        length as int,
                    )
                },
            },
    {
        match name_id(name) {
            Ok(id) => self.place(id, direction, row, col, length),
            Err(e) => Err(e),
        }
    }

    /// Lays out the vehicle with the id `id` on the board: `length` cells
    /// from row `row` and column `col`, counted from zero, along
    /// `direction`. `OutOfBounds` when the cells do not all lie on the
    /// board, which is then left as it was.
    pub fn place(&mut self, id: u8, direction: Direction, row: usize, col: usize, length: u8) -> (result:
        Result<(), BoardError>)
        requires
            old(self).wf(),
        ensures
            final(self).wf(),
            final(self).history() == old(self).history(),
            final(self).cells() == place_outcome(
                old(self).cells(),
                id,
                direction,
                row as int,
                col as int,
                length as int,
            ).0,
            result == place_outcome(
                old(self).cells(),
                id,
                direction,
                row as int,
                col as int,
                length as int,
            ).1,
    {
        let n = self.contents.len();
        let ghost start = self.cells();
        if length == 0 {
            assert(self.cells() =~~= placed(start, id, direction, row as int, col as int, 0));
            return Ok(());
        }
        let first: usize = match direction {
            Direction::Horizontal => col,
            Direction::Vertical => row,
        };
        if row >= n || col >= n || n - first < length as usize {
            return Err(BoardError::OutOfBounds);
        }
        assert(start =~~= laid_out(start, id, direction, row as int, col as int, length as int, 0));
        let mut k: u8 = 0;
        while k < length
            invariant
                self.wf(),
                n == start.len(),
                square(start),
                row < n,
                col < n,
                first == along(direction, row as int, col as int),
                first + length <= n,
                k <= length,
                self.history() == old(self).history(),
                self.cells() == laid_out(
                    start,
                    id,
                    direction,
                    row as int,
                    col as int,
                    length as int,
                    k as int,
                ),
            decreases length - k,
        {
            let segment = VehicleSegment { id, direction, segments_left: length - 1 - k };
            match direction {
                Direction::Horizontal => self.contents.set_tile(
                    row,
                    col + k as usize,
                    Tile::Vehicle(segment),
                ),
                Direction::Vertical => self.contents.set_tile(
                    row + k as usize,
                    col,
                    Tile::Vehicle(segment),
                ),
            }
            k = k + 1;
            assert(self.cells() =~~= laid_out(
                start,
                id,
                direction,
                row as int,
                col as int,
                length as int,
                k as int,
            ));
        }
        Ok(())
    }

    /// The moves made on the board, oldest first.
    pub fn export_history(&self) -> (moves: Vec<Move>)
        ensures
            moves@ == self.history(),
    {
        collect_history(&self.previous)
    }

    /// The bytes that the hasher is fed for row `r`.
    fn row_as_bytes(&self, r: usize) -> (bytes: Vec<u8>)
        requires
            self.wf(),
            r < self.cells().len(),
        ensures
            bytes@ == row_bytes(self.cells()[r as int]),
    {
        let n = self.contents.len();
        let mut bytes: Vec<u8> = Vec::new();
        let mut c: usize = 0;
        while c < n
            invariant
                self.wf(),
                n == self.cells().len(),
                r < n,
                c <= n,
                bytes@ == row_bytes(self.cells()[r as int].take(c as int)),
            decreases n - c,
        {
            let ghost so_far = bytes@;
            match self.contents.tile(r, c) {
                Tile::Empty => {
                    bytes.push(0);
                    bytes.push(0);
                    bytes.push(0);
                    bytes.push(0);
                },
                Tile::Vehicle(v) => {
                    bytes.push(1);
                    bytes.push(v.id);
                    bytes.push(
                        match v.direction {
                            Direction::Horizontal => 0,
                            Direction::Vertical => 1,
                        },
                    );
                    bytes.push(v.segments_left);
                },
            }
            assert(bytes@ =~= so_far + tile_bytes(self.cells()[r as int][c as int]));
            c = c + 1;
            assert(bytes@ =~= row_bytes(self.cells()[r as int].take(c as int)));
        }
        assert(self.cells()[r as int].take(n as int) =~= self.cells()[r as int]);
        bytes
    }

    /// Returns a hash of the grid. The history has no part in it: boards
    /// that hold the same tiles have the same hash.
    pub fn get_hash(&self) -> (hash: u64)
        requires
            self.wf(),
        ensures
            hash == fingerprint(self.cells()),
    {
        let n = self.contents.len();
        let mut hasher = DefaultHasher::new();
        let mut r: usize = 0;
        while r < n
            invariant
                self.wf(),
                n == self.cells().len(),
                r <= n,
                hasher@ == grid_writes(self.cells()).take(r as int),
            decreases n - r,
        {
            let bytes = self.row_as_bytes(r);
            hasher.write(bytes.as_slice());
            r = r + 1;
            assert(hasher@ =~= grid_writes(self.cells()).take(r as int));
        }
        assert(grid_writes(self.cells()).take(n as int) =~= grid_writes(self.cells()));
        hasher.finish()
    }
}

} // verus!
