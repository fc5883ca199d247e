//! A move and the move back.
//!
//! The move back slides the same vehicle by the same distance the other
//! way. It makes the swaps of the move again, last swap first, and so puts
//! every tile back where it was.

use crate::position::{
    anchor, before, in_grid, is_anchor, lemma_anchor_exists, lemma_anchor_unique, square,
};
use crate::slide::{
    along, anchor_segment, apply_move, lemma_partial_keeps_vehicle, lemma_partial_source_on_line,
    lemma_slide_nowhere, lemma_slide_start, lemma_swap_step, move_fits, on_line, partial_source,
    shift_fits, slide_cells, slide_partial, swap_index, swapped,
};
use crate::tile::{Direction, Move, Tile};
use vstd::prelude::*;

verus! {

/// Whether the cell `(y, x)` is one of the `s + 1` cells that start at
/// `(r, c)` and lie along `axis`.
pub open spec fn on_run(axis: Direction, r: int, c: int, s: int, y: int, x: int) -> bool {
    match axis {
        Direction::Horizontal => y == r && c <= x <= c + s,
        Direction::Vertical => x == c && r <= y <= r + s,
    }
}

/// Whether the segments of the vehicle `id` lie in one run: every cell
/// that holds one of them is among the cells that the segment at the
/// anchor counts, along that segment's axis.
pub open spec fn in_one_run(cells: Seq<Seq<Tile>>, id: u8) -> bool {
    let (r, c) = anchor(cells, id);
    let seg = anchor_segment(cells, id);
    forall|y: int, x: int|
        in_grid(cells, y, x) && #[trigger] cells[y][x].has_id(id) ==> on_run(
            seg.direction,
            r,
            c,
            seg.segments_left as int,
            y,
            x,
        )
}

/// The tiles that a slide that fits moves out of the vehicle's way come
/// from the cells in its way.
proof fn lemma_source_ranges(len: int, p: int, a: int, s: int, d: int)
    requires
        shift_fits(len, a, s, d),
        0 <= s,
        0 <= p < len,
    ensures
        a <= partial_source(p, a, s, d, s + 1) <= a + s <==> a + d <= p <= a + s + d,
        a + d <= p <= a + s + d ==> partial_source(p, a, s, d, s + 1) == p - d,
{
    if d < 0 {
        let m = -d;
        assert(0 <= (p - a) % m < m) by (nonlinear_arith)
            requires
                m > 0,
        ;
    } else if d > 0 {
        assert(0 <= (a + s - p) % d < d) by (nonlinear_arith)
            requires
                d > 0,
        ;
    }
}

/// After a slide that fits, the anchor of a vehicle whose segments lie in
/// one run has moved with the vehicle, and holds the segment that it held.
proof fn lemma_anchor_moves(cells: Seq<Seq<Tile>>, m: Move)
    requires
        square(cells),
        move_fits(cells, m),
        in_one_run(cells, m.vehicle_id),
    ensures
        ({
            let (r, c) = anchor(cells, m.vehicle_id);
            let seg = anchor_segment(cells, m.vehicle_id);
            let a = along(seg.direction, r, c);
            let to = on_line(seg.direction, r, c, a + m.direction);
            &&& is_anchor(apply_move(cells, m), m.vehicle_id, to.0, to.1)
            &&& apply_move(cells, m)[to.0][to.1] == cells[r][c]
        }),
{
    let id = m.vehicle_id;
    lemma_anchor_exists(cells, id);
    let (r, c) = anchor(cells, id);
    let seg = anchor_segment(cells, id);
    let axis = seg.direction;
    let s = seg.segments_left as int;
    let d = m.direction as int;
    let a = along(axis, r, c);
    let n = cells.len() as int;
    let to = on_line(axis, r, c, a + d);
    let mid = apply_move(cells, m);
    reveal(slide_partial);
    lemma_source_ranges(n, a + d, a, s, d);
    assert(mid[to.0][to.1] == cells[r][c]);
    assert forall|y: int, x: int| in_grid(mid, y, x) && before(y, x, to.0, to.1) implies !(
    #[trigger] mid[y][x].has_id(id)) by {
        if mid[y][x].has_id(id) {
            match axis {
                Direction::Horizontal => {
                    if y == r {
                        lemma_source_ranges(n, x, a, s, d);
                        let from = partial_source(x, a, s, d, s + 1);
                        lemma_partial_source_on_line(n, x, a, s, d, s + 1);
                        assert(cells[r][from].has_id(id));
                    } else {
                        assert(cells[y][x].has_id(id));
                    }
                },
                Direction::Vertical => {
                    if x == c {
                        lemma_source_ranges(n, y, a, s, d);
                        let from = partial_source(y, a, s, d, s + 1);
                        lemma_partial_source_on_line(n, y, a, s, d, s + 1);
                        assert(cells[from][c].has_id(id));
                    } else {
                        assert(cells[y][x].has_id(id));
                    }
                },
            }
        }
    }
}

/// Two tiles that change places twice are where they were.
proof fn lemma_swapped_twice(cells: Seq<Seq<Tile>>, p: (int, int), q: (int, int))
    requires
        square(cells),
        in_grid(cells, p.0, p.1),
        in_grid(cells, q.0, q.1),
    ensures
        swapped(swapped(cells, p, q), q, p) == cells,
{
    assert(swapped(swapped(cells, p, q), q, p) =~~= cells);
}

/// The first `j` swaps of the slide back undo the last `j` swaps of the
/// slide.
proof fn lemma_slide_back(
    cells: Seq<Seq<Tile>>,
    axis: Direction,
    r: int,
    c: int,
    s: int,
    d: int,
    j: int,
)
    requires
        square(cells),
        in_grid(cells, r, c),
        shift_fits(cells.len() as int, along(axis, r, c), s, d),
        0 <= s,
        d != 0,
        0 <= j <= s + 1,
    ensures
        ({
            let to = on_line(axis, r, c, along(axis, r, c) + d);
            slide_partial(slide_cells(cells, axis, r, c, s, d), axis, to.0, to.1, s, -d, j)
                == slide_partial(cells, axis, r, c, s, d, s + 1 - j)
        }),
    decreases j,
{
    let a = along(axis, r, c);
    let to = on_line(axis, r, c, a + d);
    let mid = slide_cells(cells, axis, r, c, s, d);
    lemma_partial_keeps_vehicle(cells, axis, r, c, s, d, s + 1, 0);
    assert(along(axis, to.0, to.1) == a + d);
    if j == 0 {
        lemma_slide_start(mid, axis, to.0, to.1, s, -d);
    } else {
        lemma_slide_back(cells, axis, r, c, s, d, j - 1);
        lemma_swap_step(mid, axis, to.0, to.1, s, -d, j - 1);
        lemma_swap_step(cells, axis, r, c, s, d, s + 1 - j);
        let earlier = slide_partial(cells, axis, r, c, s, d, s + 1 - j);
        lemma_partial_keeps_vehicle(cells, axis, r, c, s, d, s + 1 - j, 0);
        let i = swap_index(a, s, d, s + 1 - j);
        let p = on_line(axis, r, c, i);
        let q = on_line(axis, r, c, i + d);
        let back = swap_index(a + d, s, -d, j - 1);
        assert(back == i + d);
        assert(on_line(axis, to.0, to.1, back) == q);
        assert(on_line(axis, to.0, to.1, back - d) == p);
        lemma_swapped_twice(earlier, p, q);
    }
}

/// A move and then the move back leave the grid as it was.
///
/// This holds of every move that fits, whatever lies in the vehicle's
/// way, when the segments of the vehicle lie in one run and the distance
/// can be negated.
pub proof fn lemma_inverse_restores(cells: Seq<Seq<Tile>>, m: Move)
    requires
        square(cells),
        move_fits(cells, m),
        in_one_run(cells, m.vehicle_id),
        m.direction > i8::MIN,
    ensures
        move_fits(apply_move(cells, m), m.inverse()),
        apply_move(apply_move(cells, m), m.inverse()) == cells,
{
    let id = m.vehicle_id;
    lemma_anchor_exists(cells, id);
    let (r, c) = anchor(cells, id);
    let seg = anchor_segment(cells, id);
    let axis = seg.direction;
    let s = seg.segments_left as int;
    let d = m.direction as int;
    let a = along(axis, r, c);
    let to = on_line(axis, r, c, a + d);
    let mid = apply_move(cells, m);
    lemma_anchor_moves(cells, m);
    lemma_anchor_unique(mid, id, to.0, to.1);
    assert(anchor_segment(mid, id) == seg);
    assert(along(axis, to.0, to.1) == a + d);
    assert(m.inverse().direction == -d);
    lemma_partial_keeps_vehicle(cells, axis, r, c, s, d, s + 1, id);
    if d == 0 {
        lemma_slide_nowhere(cells, axis, r, c, s);
    } else {
        lemma_slide_back(cells, axis, r, c, s, d, s + 1);
        lemma_slide_start(cells, axis, r, c, s, d);
    }
}

} // verus!
