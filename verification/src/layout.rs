//! Boards on which every vehicle is laid out properly.
//!
//! A vehicle is laid out properly when its segments follow one another
//! along one axis and count down to zero, and when no other cell holds a
//! segment with its id. On such a board every move that the empty cells
//! offer slides a vehicle through empty cells only, and leaves the board
//! properly laid out.

use crate::inverse::{in_one_run, on_run};
use crate::position::{
    anchor, before, has_vehicle, in_grid, is_anchor, lemma_anchor_exists, lemma_anchor_unique,
    square,
};
use crate::board::{empty_cells, placed, placement_fits};
use crate::probe::{
    all_moves, back_moves, cell_moves, first_after, first_before, forward_moves,
    lemma_move_into_some_cell, slide_of,
};
use crate::search::{legal_path, replay};
use crate::shortest::unfit_within;
use crate::slide::{
    along, anchor_segment, apply_move, lemma_partial_source_on_line, line_of, move_fits, on_line,
    partial_source, shift_fits, slide_cells, slide_partial,
};
use crate::tile::{Direction, Move, Tile, VehicleSegment};
use vstd::prelude::*;

verus! {

/// The index across its line of the cell `(r, c)`: the row of a
/// horizontal line, the column of a vertical one.
pub open spec fn across(axis: Direction, r: int, c: int) -> int {
    match axis {
        Direction::Horizontal => r,
        Direction::Vertical => c,
    }
}

/// Whether the segment in the cell `(y, x)`, if it is not the last of its
/// vehicle, is followed along its axis by the next segment of the vehicle.
pub open spec fn continues(cells: Seq<Seq<Tile>>, y: int, x: int) -> bool {
    match cells[y][x] {
        Tile::Empty => true,
        Tile::Vehicle(v) => v.segments_left > 0 ==> {
            let next = on_line(v.direction, y, x, along(v.direction, y, x) + 1);
            &&& in_grid(cells, next.0, next.1)
            &&& cells[next.0][next.1] == Tile::Vehicle(
                VehicleSegment {
                    id: v.id,
                    direction: v.direction,
                    segments_left: (v.segments_left - 1) as u8,
                },
            )
        },
    }
}

/// Whether the segments in two cells, if they have the same id, belong to
/// one vehicle: they lie along the same axis on the same line, and count
/// down to the same cell.
pub open spec fn of_one_vehicle(cells: Seq<Seq<Tile>>, y: int, x: int, y2: int, x2: int) -> bool {
    match (cells[y][x], cells[y2][x2]) {
        (Tile::Vehicle(v), Tile::Vehicle(w)) => v.id == w.id ==> {
            &&& v.direction == w.direction
            &&& across(v.direction, y, x) == across(v.direction, y2, x2)
            &&& along(v.direction, y, x) + v.segments_left == along(v.direction, y2, x2)
                + w.segments_left
        },
        _ => true,
    }
}

/// Whether every vehicle on the grid is laid out properly: it occupies a
/// straight run of cells along one axis, and no two vehicles share an id.
pub open spec fn well_laid(cells: Seq<Seq<Tile>>) -> bool {
    &&& square(cells)
    &&& forall|y: int, x: int| in_grid(cells, y, x) ==> #[trigger] continues(cells, y, x)
    &&& forall|y: int, x: int, y2: int, x2: int|
        in_grid(cells, y, x) && in_grid(cells, y2, x2) ==> #[trigger] of_one_vehicle(
            cells,
            y,
            x,
            y2,
            x2,
        )
}

/// Whether a move slides its vehicle through empty cells only: the move
/// fits, and the cells between where the vehicle ends and where it will
/// end are empty.
pub open spec fn clear_slide(cells: Seq<Seq<Tile>>, m: Move) -> bool {
    let (r, c) = anchor(cells, m.vehicle_id);
    let seg = anchor_segment(cells, m.vehicle_id);
    let a = along(seg.direction, r, c);
    let s = seg.segments_left as int;
    let d = m.direction as int;
    &&& move_fits(cells, m)
    &&& forall|i: int|
        (a + d <= i < a || a + s < i <= a + s + d) ==> tile_on(
            cells,
            seg.direction,
            r,
            c,
            i,
        ).spec_empty()
}

/// The tile at index `i` of the line on which `(r, c)` lies along `axis`.
pub open spec fn tile_on(cells: Seq<Seq<Tile>>, axis: Direction, r: int, c: int, i: int) -> Tile {
    let at = on_line(axis, r, c, i);
    cells[at.0][at.1]
}

/// The tile in the cell `(y, x)` after a slide through empty cells: a
/// segment of the vehicle where the vehicle has arrived, nothing where it
/// has left, and what was there everywhere else.
pub open spec fn slid_tile(
    cells: Seq<Seq<Tile>>,
    axis: Direction,
    r: int,
    c: int,
    s: int,
    d: int,
    y: int,
    x: int,
) -> Tile {
    let a = along(axis, r, c);
    let i = along(axis, y, x);
    if across(axis, y, x) != across(axis, r, c) {
        cells[y][x]
    } else if a + d <= i <= a + s + d {
        tile_on(cells, axis, r, c, i - d)
    } else if a <= i <= a + s {
        Tile::Empty
    } else {
        cells[y][x]
    }
}

/// The segments of a properly laid out vehicle follow one another from
/// each of its cells to its last.
pub proof fn lemma_run_continues(cells: Seq<Seq<Tile>>, y: int, x: int, j: int)
    requires
        well_laid(cells),
        in_grid(cells, y, x),
        cells[y][x] is Vehicle,
        0 <= j <= cells[y][x]->Vehicle_0.segments_left,
    ensures
        ({
            let v = cells[y][x]->Vehicle_0;
            let at = on_line(v.direction, y, x, along(v.direction, y, x) + j);
            &&& in_grid(cells, at.0, at.1)
            &&& cells[at.0][at.1] == Tile::Vehicle(
                VehicleSegment {
                    id: v.id,
                    direction: v.direction,
                    segments_left: (v.segments_left - j) as u8,
                },
            )
        }),
    decreases j,
{
    if j > 0 {
        lemma_run_continues(cells, y, x, j - 1);
        let v = cells[y][x]->Vehicle_0;
        let at = on_line(v.direction, y, x, along(v.direction, y, x) + j - 1);
        assert(continues(cells, at.0, at.1));
    }
}

/// The cells of a properly laid out vehicle are those that the segment at
/// its anchor counts, and no others.
pub proof fn lemma_vehicle_cells(cells: Seq<Seq<Tile>>, id: u8)
    requires
        well_laid(cells),
        has_vehicle(cells, id),
    ensures
        in_one_run(cells, id),
        ({
            let (r, c) = anchor(cells, id);
            let seg = anchor_segment(cells, id);
            let a = along(seg.direction, r, c);
            &&& is_anchor(cells, id, r, c)
            &&& cells[r][c] == Tile::Vehicle(seg)
            &&& seg.id == id
            &&& a + seg.segments_left < cells.len()
            &&& forall|j: int|
                0 <= j <= seg.segments_left ==> #[trigger] tile_on(
                    cells,
                    seg.direction,
                    r,
                    c,
                    a + j,
                ) == Tile::Vehicle(
                    VehicleSegment {
                        id,
                        direction: seg.direction,
                        segments_left: (seg.segments_left - j) as u8,
                    },
                )
        }),
{
    lemma_anchor_exists(cells, id);
    let (r, c) = anchor(cells, id);
    let seg = anchor_segment(cells, id);
    let a = along(seg.direction, r, c);
    assert forall|y: int, x: int| in_grid(cells, y, x) && #[trigger] cells[y][x].has_id(
        id,
    ) implies on_run(seg.direction, r, c, seg.segments_left as int, y, x) by {
        assert(of_one_vehicle(cells, r, c, y, x));
        if along(seg.direction, y, x) < a {
            assert(before(y, x, r, c));
        }
    }
    assert forall|j: int| 0 <= j <= seg.segments_left implies #[trigger] tile_on(
        cells,
        seg.direction,
        r,
        c,
        a + j,
    ) == Tile::Vehicle(
        VehicleSegment {
            id,
            direction: seg.direction,
            segments_left: (seg.segments_left - j) as u8,
        },
    ) by {
        lemma_run_continues(cells, r, c, j);
    }
    lemma_run_continues(cells, r, c, seg.segments_left as int);
}

/// After a slide through empty cells the vehicle has moved, the cells
/// that it has left are empty, and every other tile is where it was.
pub proof fn lemma_clear_slide_shape(
    cells: Seq<Seq<Tile>>,
    axis: Direction,
    r: int,
    c: int,
    s: int,
    d: int,
)
    requires
        square(cells),
        in_grid(cells, r, c),
        0 <= s,
        shift_fits(cells.len() as int, along(axis, r, c), s, d),
        forall|i: int|
            (along(axis, r, c) + d <= i < along(axis, r, c) || along(axis, r, c) + s < i <= along(
                axis,
                r,
                c,
            ) + s + d) ==> tile_on(cells, axis, r, c, i).spec_empty(),
    ensures
        slide_cells(cells, axis, r, c, s, d).len() == cells.len(),
        square(slide_cells(cells, axis, r, c, s, d)),
        forall|y: int, x: int|
            in_grid(cells, y, x) ==> #[trigger] slide_cells(cells, axis, r, c, s, d)[y][x]
                == slid_tile(cells, axis, r, c, s, d, y, x),
{
    reveal(slide_partial);
    let a = along(axis, r, c);
    let n = cells.len() as int;
    let after = slide_cells(cells, axis, r, c, s, d);
    assert forall|y: int, x: int| in_grid(cells, y, x) implies #[trigger] after[y][x] == slid_tile(
        cells,
        axis,
        r,
        c,
        s,
        d,
        y,
        x,
    ) by {
        if across(axis, y, x) == across(axis, r, c) {
            let i = along(axis, y, x);
            let from = partial_source(i, a, s, d, s + 1);
            lemma_partial_source_on_line(n, i, a, s, d, s + 1);
            assert(after[y][x] == tile_on(cells, axis, r, c, from));
            assert(on_line(axis, r, c, i) == (y, x));
            if d < 0 {
                assert(0 <= (i - a) % (-d) < -d) by (nonlinear_arith)
                    requires
                        d < 0,
                ;
            } else if d > 0 {
                assert(0 <= (a + s - i) % d < d) by (nonlinear_arith)
                    requires
                        d > 0,
                ;
            }
            if a + d <= i <= a + s + d {
            } else if from != i {
                assert(tile_on(cells, axis, r, c, from).spec_empty());
                if !(a <= i <= a + s) {
                    assert(tile_on(cells, axis, r, c, i).spec_empty());
                }
            } else {
                if a <= i <= a + s {
                    assert(false);
                }
            }
        }
    }
}

/// On a properly laid out grid, the move into an empty cell of the nearest
/// vehicle after it slides that vehicle through empty cells only.
proof fn lemma_back_move_is_clear(cells: Seq<Seq<Tile>>, axis: Direction, r: int, c: int, m: Move)
    requires
        well_laid(cells),
        in_grid(cells, r, c),
        cells[r][c].spec_empty(),
        back_moves(line_of(cells, axis, r, c), axis, along(axis, r, c)).contains(m),
    ensures
        clear_slide(cells, m),
{
    reveal(back_moves);
    let line = line_of(cells, axis, r, c);
    let p = along(axis, r, c);
    let q = choose|q: int| first_after(line, p, q);
    assert(first_after(line, p, q));
    assert(line.len() == cells.len());
    let at = on_line(axis, r, c, q);
    assert(line[q] == cells[at.0][at.1]);
    let found = slide_of(line[q], axis, p - q);
    assert(found.contains(m));
    let v = line[q]->Vehicle_0;
    assert(found[0] == m);
    assert(m.vehicle_id == v.id && m.direction == p - q && v.direction == axis);
    assert forall|y: int, x: int| in_grid(cells, y, x) && before(y, x, at.0, at.1) implies !(
    #[trigger] cells[y][x].has_id(v.id)) by {
        if cells[y][x].has_id(v.id) {
            assert(of_one_vehicle(cells, at.0, at.1, y, x));
            let i = along(axis, y, x);
            if i <= p {
                lemma_run_continues(cells, y, x, p - i);
                assert(on_line(axis, y, x, p) == (r, c));
            } else {
                assert(line[i].spec_empty());
                assert(on_line(axis, r, c, i) == (y, x));
            }
        }
    }
    lemma_anchor_unique(cells, v.id, at.0, at.1);
    lemma_run_continues(cells, at.0, at.1, v.segments_left as int);
    assert forall|i: int| p <= i < q implies tile_on(cells, axis, at.0, at.1, i).spec_empty() by {
        assert(on_line(axis, at.0, at.1, i) == on_line(axis, r, c, i));
        if i > p {
            assert(line[i].spec_empty());
        }
    }
}

/// On a properly laid out grid, the move into an empty cell of the nearest
/// vehicle before it slides that vehicle through empty cells only.
proof fn lemma_forward_move_is_clear(
    cells: Seq<Seq<Tile>>,
    axis: Direction,
    r: int,
    c: int,
    m: Move,
)
    requires
        well_laid(cells),
        in_grid(cells, r, c),
        cells[r][c].spec_empty(),
        forward_moves(line_of(cells, axis, r, c), axis, along(axis, r, c)).contains(m),
    ensures
        clear_slide(cells, m),
{
    reveal(forward_moves);
    let line = line_of(cells, axis, r, c);
    let p = along(axis, r, c);
    let q = choose|q: int| first_before(line, p, q);
    assert(first_before(line, p, q));
    assert(line.len() == cells.len());
    let at = on_line(axis, r, c, q);
    assert(line[q] == cells[at.0][at.1]);
    let found = slide_of(line[q], axis, p - q);
    assert(found.contains(m));
    let v = line[q]->Vehicle_0;
    assert(found[0] == m);
    assert(m.vehicle_id == v.id && m.direction == p - q && v.direction == axis);
    if v.segments_left > 0 {
        assert(continues(cells, at.0, at.1));
        if q + 1 < p {
            assert(line[q + 1].spec_empty());
        }
        assert(on_line(axis, at.0, at.1, q + 1) == on_line(axis, r, c, q + 1));
    }
    assert(cells[at.0][at.1].has_id(v.id));
    lemma_vehicle_cells(cells, v.id);
    let (r0, c0) = anchor(cells, v.id);
    let seg = anchor_segment(cells, v.id);
    assert(of_one_vehicle(cells, r0, c0, at.0, at.1));
    let a = along(axis, r0, c0);
    assert(a + seg.segments_left == q);
    assert forall|i: int| q < i <= p implies tile_on(cells, axis, r0, c0, i).spec_empty() by {
        assert(on_line(axis, r0, c0, i) == on_line(axis, r, c, i));
        if i < p {
            assert(line[i].spec_empty());
        }
    }
}

/// On a properly laid out grid every move that the empty cells offer
/// slides its vehicle through empty cells only.
pub proof fn lemma_offered_move_is_clear(cells: Seq<Seq<Tile>>, m: Move)
    requires
        well_laid(cells),
        all_moves(cells).contains(m),
    ensures
        clear_slide(cells, m),
        move_fits(cells, m),
{
    lemma_move_into_some_cell(cells, m);
    let (r, c) = choose|r: int, c: int|
        0 <= r < cells.len() && 0 <= c < cells.len() && #[trigger] cell_moves(cells, r, c).contains(
            m,
        );
    let right = back_moves(line_of(cells, Direction::Horizontal, r, c), Direction::Horizontal, c);
    let left = forward_moves(
        line_of(cells, Direction::Horizontal, r, c),
        Direction::Horizontal,
        c,
    );
    let down = back_moves(line_of(cells, Direction::Vertical, r, c), Direction::Vertical, r);
    let up = forward_moves(line_of(cells, Direction::Vertical, r, c), Direction::Vertical, r);
    let all = right + left + down + up;
    assert(cell_moves(cells, r, c) == all);
    let i = choose|i: int| 0 <= i < all.len() && all[i] == m;
    if i < right.len() {
        assert(right[i] == m);
        lemma_back_move_is_clear(cells, Direction::Horizontal, r, c, m);
    } else if i < right.len() + left.len() {
        assert(left[i - right.len()] == m);
        lemma_forward_move_is_clear(cells, Direction::Horizontal, r, c, m);
    } else if i < right.len() + left.len() + down.len() {
        assert(down[i - right.len() - left.len()] == m);
        lemma_back_move_is_clear(cells, Direction::Vertical, r, c, m);
    } else {
        assert(up[i - right.len() - left.len() - down.len()] == m);
        lemma_forward_move_is_clear(cells, Direction::Vertical, r, c, m);
    }
}

/// A slide through empty cells leaves a properly laid out grid properly
/// laid out.
pub proof fn lemma_clear_slide_keeps_layout(cells: Seq<Seq<Tile>>, m: Move)
    requires
        well_laid(cells),
        clear_slide(cells, m),
    ensures
        well_laid(apply_move(cells, m)),
{
    let id = m.vehicle_id;
    lemma_vehicle_cells(cells, id);
    let (r, c) = anchor(cells, id);
    let seg = anchor_segment(cells, id);
    let axis = seg.direction;
    let a = along(axis, r, c);
    let s = seg.segments_left as int;
    let d = m.direction as int;
    let after = apply_move(cells, m);
    lemma_clear_slide_shape(cells, axis, r, c, s, d);
    assert forall|y: int, x: int| in_grid(after, y, x) implies #[trigger] settled(
        cells,
        after,
        id,
        axis,
        r,
        c,
        s,
        d,
        y,
        x,
    ) by {
        lemma_tile_settled(cells, m, y, x);
    }
    assert forall|y: int, x: int| in_grid(after, y, x) implies #[trigger] continues(
        after,
        y,
        x,
    ) by {
        assert(settled(cells, after, id, axis, r, c, s, d, y, x));
        if let Tile::Vehicle(v) = after[y][x] {
            if v.segments_left > 0 {
                if v.id == id {
                    let i = along(axis, y, x);
                    let next = on_line(axis, y, x, i + 1);
                    assert(after[next.0][next.1] == slid_tile(
                        cells,
                        axis,
                        r,
                        c,
                        s,
                        d,
                        next.0,
                        next.1,
                    ));
                    assert(tile_on(cells, axis, r, c, a + (i + 1 - d - a)) == Tile::Vehicle(
                        VehicleSegment {
                            id,
                            direction: axis,
                            segments_left: (s - (i + 1 - d - a)) as u8,
                        },
                    ));
                } else {
                    assert(continues(cells, y, x));
                    let next = on_line(v.direction, y, x, along(v.direction, y, x) + 1);
                    assert(settled(cells, after, id, axis, r, c, s, d, next.0, next.1));
                    lemma_other_tile_stays(cells, m, next.0, next.1);
                }
            }
        }
    }
    assert forall|y: int, x: int, y2: int, x2: int|
        in_grid(after, y, x) && in_grid(after, y2, x2) implies #[trigger] of_one_vehicle(
        after,
        y,
        x,
        y2,
        x2,
    ) by {
        assert(settled(cells, after, id, axis, r, c, s, d, y, x));
        assert(settled(cells, after, id, axis, r, c, s, d, y2, x2));
        assert(of_one_vehicle(cells, y, x, y2, x2));
    }
}

/// What holds of the tile in the cell `(y, x)` after a slide through
/// empty cells of the vehicle `id`: a segment of the vehicle lies where
/// the vehicle has arrived and is the segment from `d` cells back; a
/// segment of another vehicle is where it was.
pub open spec fn settled(
    cells: Seq<Seq<Tile>>,
    after: Seq<Seq<Tile>>,
    id: u8,
    axis: Direction,
    r: int,
    c: int,
    s: int,
    d: int,
    y: int,
    x: int,
) -> bool {
    let a = along(axis, r, c);
    let i = along(axis, y, x);
    match after[y][x] {
        Tile::Empty => true,
        Tile::Vehicle(v) => if v.id == id {
            &&& across(axis, y, x) == across(axis, r, c)
            &&& a + d <= i <= a + s + d
            &&& v == VehicleSegment { id, direction: axis, segments_left: (s - (i - d - a)) as u8 }
        } else {
            after[y][x] == cells[y][x]
        },
    }
}

/// After a slide through empty cells on a properly laid out grid, each
/// tile is settled.
proof fn lemma_tile_settled(cells: Seq<Seq<Tile>>, m: Move, y: int, x: int)
    requires
        well_laid(cells),
        clear_slide(cells, m),
        in_grid(cells, y, x),
    ensures
        ({
            let (r, c) = anchor(cells, m.vehicle_id);
            let seg = anchor_segment(cells, m.vehicle_id);
            settled(
                cells,
                apply_move(cells, m),
                m.vehicle_id,
                seg.direction,
                r,
                c,
                seg.segments_left as int,
                m.direction as int,
                y,
                x,
            )
        }),
{
    let id = m.vehicle_id;
    lemma_vehicle_cells(cells, id);
    let (r, c) = anchor(cells, id);
    let seg = anchor_segment(cells, id);
    let axis = seg.direction;
    let a = along(axis, r, c);
    let s = seg.segments_left as int;
    let d = m.direction as int;
    let after = apply_move(cells, m);
    lemma_clear_slide_shape(cells, axis, r, c, s, d);
    assert(after[y][x] == slid_tile(cells, axis, r, c, s, d, y, x));
    let i = along(axis, y, x);
    if across(axis, y, x) == across(axis, r, c) && a + d <= i <= a + s + d {
        assert(tile_on(cells, axis, r, c, a + (i - d - a)) == Tile::Vehicle(
            VehicleSegment { id, direction: axis, segments_left: (s - (i - d - a)) as u8 },
        ));
    } else if after[y][x].has_id(id) {
        assert(cells[y][x].has_id(id));
    }
}

/// A segment of another vehicle than the one that slides through empty
/// cells is where it was.
proof fn lemma_other_tile_stays(cells: Seq<Seq<Tile>>, m: Move, y: int, x: int)
    requires
        well_laid(cells),
        clear_slide(cells, m),
        in_grid(cells, y, x),
        cells[y][x] is Vehicle,
        !cells[y][x].has_id(m.vehicle_id),
    ensures
        apply_move(cells, m)[y][x] == cells[y][x],
{
    let id = m.vehicle_id;
    lemma_vehicle_cells(cells, id);
    let (r, c) = anchor(cells, id);
    let seg = anchor_segment(cells, id);
    let axis = seg.direction;
    let a = along(axis, r, c);
    let s = seg.segments_left as int;
    let d = m.direction as int;
    lemma_clear_slide_shape(cells, axis, r, c, s, d);
    assert(apply_move(cells, m)[y][x] == slid_tile(cells, axis, r, c, s, d, y, x));
    let i = along(axis, y, x);
    if across(axis, y, x) == across(axis, r, c) {
        assert(on_line(axis, r, c, i) == (y, x));
        if a <= i <= a + s {
            assert(tile_on(cells, axis, r, c, a + (i - a)).has_id(id));
        } else if a + d <= i <= a + s + d {
            assert(tile_on(cells, axis, r, c, i).spec_empty());
        }
    }
}

/// A move that the empty cells of a properly laid out grid offer fits, and
/// leaves the grid properly laid out.
pub proof fn lemma_offered_move_keeps_layout(cells: Seq<Seq<Tile>>, m: Move)
    requires
        well_laid(cells),
        all_moves(cells).contains(m),
    ensures
        move_fits(cells, m),
        well_laid(apply_move(cells, m)),
{
    lemma_offered_move_is_clear(cells, m);
    lemma_clear_slide_keeps_layout(cells, m);
}

/// A grid without vehicles is properly laid out.
pub proof fn lemma_empty_is_well_laid(size: int)
    requires
        0 <= size <= 255,
    ensures
        well_laid(empty_cells(size)),
{
    let cells = empty_cells(size);
    assert forall|y: int, x: int| in_grid(cells, y, x) implies #[trigger] continues(cells, y, x) by {}
    assert forall|y: int, x: int, y2: int, x2: int|
        in_grid(cells, y, x) && in_grid(cells, y2, x2) implies #[trigger] of_one_vehicle(
        cells,
        y,
        x,
        y2,
        x2,
    ) by {}
}

/// A vehicle that is laid out on empty cells of a properly laid out grid,
/// under an id that no vehicle of the grid has, leaves the grid properly
/// laid out.
pub proof fn lemma_placed_is_well_laid(
    cells: Seq<Seq<Tile>>,
    id: u8,
    axis: Direction,
    row: int,
    col: int,
    length: int,
)
    requires
        well_laid(cells),
        !has_vehicle(cells, id),
        0 <= row,
        0 <= col,
        1 <= length <= 255,
        placement_fits(cells.len() as int, axis, row, col, length),
        forall|i: int|
            along(axis, row, col) <= i < along(axis, row, col) + length ==> tile_on(
                cells,
                axis,
                row,
                col,
                i,
            ).spec_empty(),
    ensures
        well_laid(placed(cells, id, axis, row, col, length)),
{
    let after = placed(cells, id, axis, row, col, length);
    let a = along(axis, row, col);
    assert forall|y: int, x: int| in_grid(after, y, x) implies #[trigger] continues(
        after,
        y,
        x,
    ) by {
        if let Tile::Vehicle(v) = after[y][x] {
            if v.segments_left > 0 {
                if v.id == id {
                    if cells[y][x] == after[y][x] {
                        assert(cells[y][x].has_id(id));
                    }
                    let next = on_line(axis, y, x, along(axis, y, x) + 1);
                    assert(in_grid(cells, next.0, next.1));
                } else {
                    assert(continues(cells, y, x));
                    let next = on_line(v.direction, y, x, along(v.direction, y, x) + 1);
                    if across(axis, next.0, next.1) == across(axis, row, col) && a <= along(
                        axis,
                        next.0,
                        next.1,
                    ) < a + length {
                        let i = along(axis, next.0, next.1);
                        assert(tile_on(cells, axis, row, col, i).spec_empty());
                        assert(on_line(axis, row, col, i) == next);
                    }
                }
            }
        }
    }
    assert forall|y: int, x: int, y2: int, x2: int|
        in_grid(after, y, x) && in_grid(after, y2, x2) implies #[trigger] of_one_vehicle(
        after,
        y,
        x,
        y2,
        x2,
    ) by {
        assert(of_one_vehicle(cells, y, x, y2, x2));
        if after[y][x].has_id(id) && after[y][x] == cells[y][x] {
            assert(cells[y][x].has_id(id));
        }
        if after[y2][x2].has_id(id) && after[y2][x2] == cells[y2][x2] {
            assert(cells[y2][x2].has_id(id));
        }
    }
}

/// Allowed moves leave a properly laid out grid properly laid out.
pub proof fn lemma_path_keeps_layout(origin: Seq<Seq<Tile>>, path: Seq<Move>)
    requires
        well_laid(origin),
        legal_path(origin, path),
    ensures
        well_laid(replay(origin, path)),
    decreases path.len(),
{
    if path.len() > 0 {
        lemma_path_keeps_layout(origin, path.drop_last());
        lemma_offered_move_keeps_layout(replay(origin, path.drop_last()), path.last());
    }
}

/// No grid that allowed moves lead to from a properly laid out grid offers
/// a move that does not fit.
pub proof fn lemma_never_unfit(origin: Seq<Seq<Tile>>, depth: int)
    requires
        well_laid(origin),
    ensures
        !unfit_within(origin, depth),
{
    if unfit_within(origin, depth) {
        let (p, m) = choose|p: Seq<Move>, m: Move|
            legal_path(origin, p) && p.len() < depth && #[trigger] all_moves(
                replay(origin, p),
            ).contains(m) && !move_fits(replay(origin, p), m);
        lemma_path_keeps_layout(origin, p);
        lemma_offered_move_is_clear(replay(origin, p), m);
    }
}

} // verus!
