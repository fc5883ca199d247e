//! What a grid of tiles says about the vehicles on it: where a vehicle is,
//! and whether the target has reached the exit.

use crate::tile::{encode_name, valid_name, Tile};
use vstd::prelude::*;

verus! {

/// The id of the vehicle that has to reach the exit: the encoding of `X`.
pub const TARGET_ID: u8 = 24;

/// A grid is square when it has as many columns in every row as it has
/// rows, and at most 255 of them.
pub open spec fn square(cells: Seq<Seq<Tile>>) -> bool {
    &&& cells.len() <= 255
    &&& forall|r: int| 0 <= r < cells.len() ==> (#[trigger] cells[r]).len() == cells.len()
}

/// Whether row `r` and column `c` lie on the grid.
pub open spec fn in_grid(cells: Seq<Seq<Tile>>, r: int, c: int) -> bool {
    0 <= r < cells.len() && 0 <= c < cells.len()
}

/// Whether cell `(r, c)` is read before cell `(r2, c2)`, row by row.
pub open spec fn before(r: int, c: int, r2: int, c2: int) -> bool {
    r < r2 || (r == r2 && c < c2)
}

/// Whether some cell holds a segment of the vehicle `id`.
pub open spec fn has_vehicle(cells: Seq<Seq<Tile>>, id: u8) -> bool {
    exists|r: int, c: int| in_grid(cells, r, c) && #[trigger] cells[r][c].has_id(id)
}

/// Whether `(r, c)` is the anchor of the vehicle `id`: the first cell, row
/// by row, that holds one of its segments. On a vehicle laid out from its
/// leading cell this is the cell with the most segments left.
pub open spec fn is_anchor(cells: Seq<Seq<Tile>>, id: u8, r: int, c: int) -> bool {
    &&& in_grid(cells, r, c)
    &&& cells[r][c].has_id(id)
    &&& forall|r2: int, c2: int|
        in_grid(cells, r2, c2) && before(r2, c2, r, c) ==> !(#[trigger] cells[r2][c2].has_id(id))
}

/// The anchor of the vehicle `id`, where the vehicle is on the grid.
pub open spec fn anchor(cells: Seq<Seq<Tile>>, id: u8) -> (int, int) {
    choose|p: (int, int)| is_anchor(cells, id, p.0, p.1)
}

/// The target has reached the exit when its anchor is two columns from the
/// right edge: the exit lies beyond the last column of the target's row.
pub open spec fn won(cells: Seq<Seq<Tile>>) -> bool {
    has_vehicle(cells, TARGET_ID) && cells.len() - anchor(cells, TARGET_ID).1 == 2
}

/// A vehicle has one anchor at most.
pub proof fn lemma_anchor_unique(cells: Seq<Seq<Tile>>, id: u8, r: int, c: int)
    requires
        is_anchor(cells, id, r, c),
    ensures
        has_vehicle(cells, id),
        anchor(cells, id) == (r, c),
{
    let p = (r, c);
    assert(is_anchor(cells, id, p.0, p.1));
    let q = anchor(cells, id);
    assert(is_anchor(cells, id, q.0, q.1));
    if before(q.0, q.1, r, c) {
        assert(!cells[q.0][q.1].has_id(id));
    }
    if before(r, c, q.0, q.1) {
        assert(!cells[r][c].has_id(id));
    }
}

/// Whether some cell among the first `k`, read row by row, holds a segment
/// of the vehicle `id`.
spec fn found_within(cells: Seq<Seq<Tile>>, id: u8, k: int) -> bool {
    exists|r: int, c: int|
        in_grid(cells, r, c) && r * cells.len() + c < k && #[trigger] cells[r][c].has_id(id)
}

/// If a segment of the vehicle is among the first `k` cells, the vehicle
/// has an anchor.
proof fn lemma_anchor_within(cells: Seq<Seq<Tile>>, id: u8, k: int)
    requires
        found_within(cells, id, k),
    ensures
        exists|r: int, c: int| is_anchor(cells, id, r, c),
    decreases k,
{
    let n = cells.len() as int;
    let (r, c) = choose|r: int, c: int|
        in_grid(cells, r, c) && r * cells.len() + c < k && #[trigger] cells[r][c].has_id(id);
    if found_within(cells, id, r * n + c) {
        lemma_anchor_within(cells, id, r * n + c);
    } else {
        assert forall|r2: int, c2: int|
            in_grid(cells, r2, c2) && before(r2, c2, r, c) implies !(#[trigger] cells[r2][c2].has_id(
            id,
        )) by {
            if r2 < r {
                assert(r2 * n + c2 < r * n + c) by (nonlinear_arith)
                    requires
                        r2 < r,
                        0 <= c2 < n,
                        0 <= c,
                ;
            }
        }
        assert(is_anchor(cells, id, r, c));
    }
}

/// A vehicle that is on the grid has an anchor.
pub proof fn lemma_anchor_exists(cells: Seq<Seq<Tile>>, id: u8)
    requires
        has_vehicle(cells, id),
    ensures
        is_anchor(cells, id, anchor(cells, id).0, anchor(cells, id).1),
{
    let (r, c) = choose|r: int, c: int| in_grid(cells, r, c) && #[trigger] cells[r][c].has_id(id);
    assert(found_within(cells, id, r * cells.len() + c + 1));
    lemma_anchor_within(cells, id, r * cells.len() + c + 1);
    let (r2, c2) = choose|r2: int, c2: int| is_anchor(cells, id, r2, c2);
    let p = (r2, c2);
    assert(is_anchor(cells, id, p.0, p.1));
}

/// `TARGET_ID` is the id of the name `X`.
pub proof fn lemma_target_id()
    ensures
        valid_name(seq!['X']),
        encode_name(seq!['X']) == TARGET_ID,
{
}

} // verus!
