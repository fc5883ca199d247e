//! What a board's hash is taken of.
//!
//! The hash is that of the standard library's default hasher, which is fed
//! one run of bytes for each row of the grid: four bytes for each tile.
//! Two grids that differ in any tile feed the hasher differently.

use crate::tile::{Direction, Tile};
use std::collections::hash_map::DefaultHasher;
use vstd::prelude::*;
use vstd::std_specs::hash::DefaultHasherAdditionalSpecFns;

verus! {

/// The byte that stands for an axis.
pub open spec fn direction_byte(direction: Direction) -> u8 {
    match direction {
        Direction::Horizontal => 0,
        Direction::Vertical => 1,
    }
}

/// The four bytes that stand for a tile: whether a vehicle is on it, and
/// the vehicle's id, axis and count of segments left.
pub open spec fn tile_bytes(tile: Tile) -> Seq<u8> {
    match tile {
        Tile::Empty => seq![0u8, 0u8, 0u8, 0u8],
        Tile::Vehicle(v) => seq![1u8, v.id, direction_byte(v.direction), v.segments_left],
    }
}

/// The bytes that stand for a row: those of its tiles, one after another.
pub open spec fn row_bytes(row: Seq<Tile>) -> Seq<u8> {
    Seq::new(4 * row.len(), |i: int| tile_bytes(row[i / 4])[i % 4])
}

/// What the hasher is fed for a grid: the bytes of each row, as one write.
pub open spec fn grid_writes(cells: Seq<Seq<Tile>>) -> Seq<Seq<u8>> {
    Seq::new(cells.len(), |r: int| row_bytes(cells[r]))
}

/// The hash of a grid.
pub open spec fn fingerprint(cells: Seq<Seq<Tile>>) -> u64 {
    DefaultHasher::spec_finish(grid_writes(cells))
}

/// Grids that hold the same tiles have the same hash, whatever moves led
/// to them.
pub proof fn lemma_fingerprint_of_tiles(a: Seq<Seq<Tile>>, b: Seq<Seq<Tile>>)
    requires
        a.len() == b.len(),
        forall|r: int| 0 <= r < a.len() ==> (#[trigger] a[r]).len() == b[r].len(),
        forall|r: int, c: int| 0 <= r < a.len() && 0 <= c < a[r].len() ==> a[r][c] == b[r][c],
    ensures
        fingerprint(a) == fingerprint(b),
{
    assert forall|r: int| 0 <= r < a.len() implies #[trigger] a[r] =~= b[r] by {}
    assert(a =~= b);
}

/// Two tiles that are written as the same bytes are the same tile.
pub proof fn lemma_tile_bytes_injective(a: Tile, b: Tile)
    requires
        tile_bytes(a) == tile_bytes(b),
    ensures
        a == b,
{
    let x = tile_bytes(a);
    let y = tile_bytes(b);
    assert(x[0] == y[0] && x[1] == y[1] && x[2] == y[2] && x[3] == y[3]);
}

/// Two grids for which the hasher is fed the same are the same grid: a
/// grid that differs from another in any tile is written differently.
pub proof fn lemma_grid_writes_injective(a: Seq<Seq<Tile>>, b: Seq<Seq<Tile>>)
    requires
        grid_writes(a) == grid_writes(b),
    ensures
        a == b,
{
    assert(a.len() == grid_writes(a).len());
    assert(b.len() == grid_writes(b).len());
    assert forall|r: int| 0 <= r < a.len() implies #[trigger] a[r] =~= b[r] by {
        let x = row_bytes(a[r]);
        let y = row_bytes(b[r]);
        assert(x == grid_writes(a)[r]);
        assert(y == grid_writes(b)[r]);
        assert(x.len() == 4 * a[r].len());
        assert(y.len() == 4 * b[r].len());
        assert forall|c: int| 0 <= c < a[r].len() implies a[r][c] == b[r][c] by {
            assert forall|k: int| 0 <= k < 4 implies tile_bytes(a[r][c])[k] == tile_bytes(
                b[r][c],
            )[k] by {
                assert(x[4 * c + k] == tile_bytes(a[r][(4 * c + k) / 4])[(4 * c + k) % 4]);
                assert(y[4 * c + k] == tile_bytes(b[r][(4 * c + k) / 4])[(4 * c + k) % 4]);
            }
            assert(tile_bytes(a[r][c]) =~= tile_bytes(b[r][c]));
            lemma_tile_bytes_injective(a[r][c], b[r][c]);
        }
    }
    assert(a =~= b);
}

} // verus!
