//! The storage of the board: rows of tiles in `smallvec::SmallVec`, which
//! keeps boards of up to twelve rows and columns off the heap.
//!
//! Verus does not look inside `SmallVec`. What a row and a grid hold is
//! named by `row_cells` and `grid_cells`, and each function below states
//! what one `SmallVec` operation does to them. These statements are taken
//! from the source of `smallvec`; they are not proved here.

use crate::tile::Tile;
use smallvec::SmallVec;
use vstd::prelude::*;

verus! {

/// One row of the board.
#[verifier::external_body]
pub struct Row {
    tiles: SmallVec<[Tile; 12]>,
}

/// The rows of the board, first row first.
#[verifier::external_body]
#[derive(Debug, Hash)]
pub struct Grid {
    rows: SmallVec<[SmallVec<[Tile; 12]>; 12]>,
}

/// The tiles that a row holds, in order.
pub uninterp spec fn row_cells(row: Row) -> Seq<Tile>;

/// The tiles that a grid holds: one sequence for each row, in order.
pub uninterp spec fn grid_cells(grid: Grid) -> Seq<Seq<Tile>>;

impl Row {
    /// `SmallVec::with_capacity`: a row without tiles, with room for `size`.
    #[verifier::external_body]
    pub(crate) fn with_capacity(size: u8) -> (row: Row)
        ensures
            row_cells(row) == Seq::<Tile>::empty(),
    {
        Row { tiles: SmallVec::with_capacity(size.into()) }
    }

    /// `SmallVec::push`: appends `tile` to the row.
    #[verifier::external_body]
    pub(crate) fn push(&mut self, tile: Tile)
        requires
            row_cells(*old(self)).len() < 255,
        ensures
            row_cells(*final(self)) == row_cells(*old(self)).push(tile),
    {
        self.tiles.push(tile)
    }
}

impl Grid {
    /// `SmallVec::with_capacity`: a grid without rows, with room for `size`.
    #[verifier::external_body]
    pub(crate) fn with_capacity(size: u8) -> (grid: Grid)
        ensures
            grid_cells(grid) == Seq::<Seq<Tile>>::empty(),
    {
        Grid { rows: SmallVec::with_capacity(size.into()) }
    }

    /// `SmallVec::push`: appends `row` to the grid.
    #[verifier::external_body]
    pub(crate) fn push(&mut self, row: Row)
        requires
            grid_cells(*old(self)).len() < 255,
        ensures
            grid_cells(*final(self)) == grid_cells(*old(self)).push(row_cells(row)),
    {
        self.rows.push(row.tiles)
    }

    /// `SmallVec::len`: the number of rows.
    #[verifier::external_body]
    pub(crate) fn len(&self) -> (n: usize)
        ensures
            n == grid_cells(*self).len(),
    {
        self.rows.len()
    }

    /// `SmallVec`'s `Index`, on the grid and on the row: the tile in row
    /// `row` and column `col`.
    #[verifier::external_body]
    pub(crate) fn tile(&self, row: usize, col: usize) -> (tile: &Tile)
        requires
            row < grid_cells(*self).len(),
            col < grid_cells(*self)[row as int].len(),
        ensures
            *tile == grid_cells(*self)[row as int][col as int],
    {
        &self.rows[row][col]
    }

    /// `SmallVec`'s `IndexMut`, on the grid and on the row: puts `tile` in
    /// row `row` and column `col` and leaves every other tile as it was.
    #[verifier::external_body]
    pub(crate) fn set_tile(&mut self, row: usize, col: usize, tile: Tile)
        requires
            row < grid_cells(*old(self)).len(),
            col < grid_cells(*old(self))[row as int].len(),
        ensures
            grid_cells(*final(self)) == grid_cells(*old(self)).update(
                row as int,
                grid_cells(*old(self))[row as int].update(col as int, tile),
            ),
    {
        self.rows[row][col] = tile;
    }

    /// `SmallVec`'s `Clone`, on the grid and on each row: a grid that holds
    /// the same tiles.
    #[verifier::external_body]
    pub(crate) fn duplicate(&self) -> (copy: Grid)
        ensures
            grid_cells(copy) == grid_cells(*self),
    {
        Grid { rows: self.rows.clone() }
    }
}

} // verus!
