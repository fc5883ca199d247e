//! What a slide does to a grid.
//!
//! A slide moves the `s + 1` cells that start at the anchor `a` of a line by
//! the signed distance `d`, one swap of two cells for each of them. The
//! swaps run away from the direction of travel: toward lower indices the
//! cell at `a` goes first, toward higher indices the cell at `a + s`, so
//! that no cell of the vehicle is swapped before it has been moved. The
//! functions here say where each cell of the line comes from once `j` of
//! the swaps are done, and once all are.

use crate::position::{anchor, has_vehicle, in_grid, lemma_anchor_exists, square};
use crate::tile::{Direction, Move, Tile, VehicleSegment};
use vstd::prelude::*;

verus! {

/// The index along its line of the cell `(r, c)`.
pub open spec fn along(axis: Direction, r: int, c: int) -> int {
    match axis {
        Direction::Horizontal => c,
        Direction::Vertical => r,
    }
}

/// Whether a vehicle of `s + 1` cells anchored at index `a` of a line of
/// `len` cells stays on the line before and after a slide by `d`.
pub open spec fn shift_fits(len: int, a: int, s: int, d: int) -> bool {
    0 <= a && a + s < len && 0 <= a + d && a + s + d < len
}

/// The index that the cell at index `p` of a line comes from when the first
/// `j` swaps of the slide are done.
///
/// Toward lower indices (`d < 0`) the first `j` cells of the vehicle have
/// arrived, and the `-d` cells that lay before the vehicle now lie behind
/// the arrived cells, rotated by `j`. Toward higher indices it is the
/// mirror image.
pub open spec fn partial_source(p: int, a: int, s: int, d: int, j: int) -> int {
    if d < 0 {
        if a + d <= p < a + d + j {
            p - d
        } else if a + d + j <= p < a + j {
            a + d + (p - a) % (-d)
        } else {
            p
        }
    } else if d > 0 {
        if a + s + d - j < p <= a + s + d {
            p - d
        } else if a + s - j < p <= a + s + d - j {
            a + s + d - (a + s - p) % d
        } else {
            p
        }
    } else {
        p
    }
}

/// The index that the cell at index `p` of a line comes from when the slide
/// is done: the cells of the vehicle come from `d` cells back, and the
/// cells that the vehicle has left hold, rotated, what lay in its way.
pub open spec fn shift_source(p: int, a: int, s: int, d: int) -> int {
    partial_source(p, a, s, d, s + 1)
}

/// The line on which the cell `(r, c)` lies along `axis`.
pub open spec fn line_of(cells: Seq<Seq<Tile>>, axis: Direction, r: int, c: int) -> Seq<Tile> {
    match axis {
        Direction::Horizontal => cells[r],
        Direction::Vertical => Seq::new(cells.len(), |y: int| cells[y][c]),
    }
}

/// The grid when the first `j` swaps are done of the slide by `d` of the
/// vehicle of `s + 1` cells that is anchored at `(r, c)` and lies along
/// `axis`.
#[verifier::opaque]
pub open spec fn slide_partial(
    cells: Seq<Seq<Tile>>,
    axis: Direction,
    r: int,
    c: int,
    s: int,
    d: int,
    j: int,
) -> Seq<Seq<Tile>> {
    Seq::new(
        cells.len(),
        |y: int|
            Seq::new(
                cells[y].len(),
                |x: int|
                    match axis {
                        Direction::Horizontal => if y == r {
                            cells[r][partial_source(x, c, s, d, j)]
                        } else {
                            cells[y][x]
                        },
                        Direction::Vertical => if x == c {
                            cells[partial_source(y, r, s, d, j)][c]
                        } else {
                            cells[y][x]
                        },
                    },
            ),
    )
}

/// The grid after the slide by `d` of the vehicle of `s + 1` cells that is
/// anchored at `(r, c)` and lies along `axis`.
pub open spec fn slide_cells(
    cells: Seq<Seq<Tile>>,
    axis: Direction,
    r: int,
    c: int,
    s: int,
    d: int,
) -> Seq<Seq<Tile>> {
    slide_partial(cells, axis, r, c, s, d, s + 1)
}

/// The cell at index `i` of the line on which `(r, c)` lies along `axis`.
pub open spec fn on_line(axis: Direction, r: int, c: int, i: int) -> (int, int) {
    match axis {
        Direction::Horizontal => (r, i),
        Direction::Vertical => (i, c),
    }
}

/// The index along the line of the cell that swap number `j` moves, counted
/// from zero.
pub open spec fn swap_index(a: int, s: int, d: int, j: int) -> int {
    if d < 0 {
        a + j
    } else {
        a + s - j
    }
}

/// The grid in which the tiles of two cells have changed places.
pub open spec fn swapped(cells: Seq<Seq<Tile>>, p: (int, int), q: (int, int)) -> Seq<Seq<Tile>> {
    Seq::new(
        cells.len(),
        |y: int|
            Seq::new(
                cells[y].len(),
                |x: int|
                    if (y, x) == p {
                        cells[q.0][q.1]
                    } else if (y, x) == q {
                        cells[p.0][p.1]
                    } else {
                        cells[y][x]
                    },
            ),
    )
}

/// The segment at the anchor of the vehicle that a move speaks of.
pub open spec fn anchor_segment(cells: Seq<Seq<Tile>>, id: u8) -> VehicleSegment {
    let (r, c) = anchor(cells, id);
    cells[r][c]->Vehicle_0
}

/// Whether the move's vehicle is on the grid and stays on it: the anchor
/// and the cells that its segment count reaches lie on the grid, before
/// the slide and after it.
pub open spec fn move_fits(cells: Seq<Seq<Tile>>, m: Move) -> bool {
    let (r, c) = anchor(cells, m.vehicle_id);
    let seg = anchor_segment(cells, m.vehicle_id);
    &&& has_vehicle(cells, m.vehicle_id)
    &&& shift_fits(
        cells.len() as int,
        along(seg.direction, r, c),
        seg.segments_left as int,
        m.direction as int,
    )
}

/// The grid after a move: the slide of the vehicle's cells, as counted by
/// the segment at its anchor, along that segment's axis.
pub open spec fn apply_move(cells: Seq<Seq<Tile>>, m: Move) -> Seq<Seq<Tile>> {
    let (r, c) = anchor(cells, m.vehicle_id);
    let seg = anchor_segment(cells, m.vehicle_id);
    slide_cells(cells, seg.direction, r, c, seg.segments_left as int, m.direction as int)
}

/// Every source of a slide that fits lies on the line.
pub proof fn lemma_partial_source_on_line(len: int, p: int, a: int, s: int, d: int, j: int)
    requires
        shift_fits(len, a, s, d),
        0 <= s,
        0 <= j <= s + 1,
        0 <= p < len,
    ensures
        0 <= partial_source(p, a, s, d, j) < len,
{
    if d < 0 {
        let m = -d;
        assert(0 <= (p - a) % m < m) by (nonlinear_arith)
            requires
                m > 0,
        ;
    } else if d > 0 {
        assert(0 <= (a + s - p) % d < d) by (nonlinear_arith)
            requires
                d > 0,
        ;
    }
}

/// Before the first swap every cell is its own source.
pub proof fn lemma_partial_source_start(p: int, a: int, s: int, d: int)
    requires
        0 <= s,
    ensures
        partial_source(p, a, s, d, 0) == p,
{
    if d < 0 {
        let m = -d;
        if a + d <= p < a {
            // p - a lies in [-m, 0), so its remainder by m is p - a + m
            assert((p - a) % m == p - a + m) by (nonlinear_arith)
                requires
                    m > 0,
                    -m <= p - a < 0,
            ;
        }
    } else if d > 0 {
        if a + s < p <= a + s + d {
            let t = p - (a + s);
            if t == d {
                assert((a + s - p) % d == 0) by (nonlinear_arith)
                    requires
                        d > 0,
                        a + s - p == -d,
                ;
            } else {
                assert((a + s - p) % d == d - t) by (nonlinear_arith)
                    requires
                        d > 0,
                        0 < t < d,
                        a + s - p == -t,
                ;
            }
        }
    }
}

/// Before the first swap the grid is as it was.
pub proof fn lemma_slide_start(cells: Seq<Seq<Tile>>, axis: Direction, r: int, c: int, s: int, d: int)
    requires
        in_grid(cells, r, c),
        0 <= s,
    ensures
        slide_partial(cells, axis, r, c, s, d, 0) == cells,
{
    reveal(slide_partial);
    let start = slide_partial(cells, axis, r, c, s, d, 0);
    assert forall|y: int| 0 <= y < cells.len() implies #[trigger] start[y] =~= cells[y] by {
        assert forall|x: int| 0 <= x < cells[y].len() implies start[y][x] == cells[y][x] by {
            lemma_partial_source_start(x, c, s, d);
            lemma_partial_source_start(y, r, s, d);
        }
    }
    assert(start =~= cells);
}

/// A slide by no distance leaves the grid as it was.
pub proof fn lemma_slide_nowhere(cells: Seq<Seq<Tile>>, axis: Direction, r: int, c: int, s: int)
    requires
        in_grid(cells, r, c),
    ensures
        slide_cells(cells, axis, r, c, s, 0) == cells,
{
    reveal(slide_partial);
    assert(slide_cells(cells, axis, r, c, s, 0) =~~= cells);
}

/// A remainder does not change when the modulus is taken away once.
pub proof fn lemma_mod_minus_modulus(x: int, m: int)
    requires
        m > 0,
    ensures
        (x - m) % m == x % m,
{
    vstd::arithmetic::div_mod::lemma_mod_sub_multiples_vanish(x, m);
}

/// One swap takes the grid from `j` swaps done to `j + 1` swaps done.
#[verifier::rlimit(40)]
pub proof fn lemma_swap_step(
    cells: Seq<Seq<Tile>>,
    axis: Direction,
    r: int,
    c: int,
    s: int,
    d: int,
    j: int,
)
    requires
        square(cells),
        in_grid(cells, r, c),
        shift_fits(cells.len() as int, along(axis, r, c), s, d),
        0 <= j <= s,
        d != 0,
    ensures
        swapped(
            slide_partial(cells, axis, r, c, s, d, j),
            on_line(axis, r, c, swap_index(along(axis, r, c), s, d, j)),
            on_line(axis, r, c, swap_index(along(axis, r, c), s, d, j) + d),
        ) == slide_partial(cells, axis, r, c, s, d, j + 1),
{
    reveal(slide_partial);
    let a = along(axis, r, c);
    let i = swap_index(a, s, d, j);
    let before = slide_partial(cells, axis, r, c, s, d, j);
    let after = slide_partial(cells, axis, r, c, s, d, j + 1);
    let swap = swapped(before, on_line(axis, r, c, i), on_line(axis, r, c, i + d));
    if d < 0 {
        lemma_mod_minus_modulus(j, -d);
        assert(partial_source(i + d, a, s, d, j) == a + d + j % (-d));
        assert(partial_source(i, a, s, d, j + 1) == a + d + j % (-d));
        assert(partial_source(i, a, s, d, j) == i);
        assert(partial_source(i + d, a, s, d, j + 1) == i);
    } else {
        lemma_mod_minus_modulus(j, d);
        assert(partial_source(i + d, a, s, d, j) == a + s + d - j % d);
        assert(partial_source(i, a, s, d, j + 1) == a + s + d - j % d);
        assert(partial_source(i, a, s, d, j) == i);
        assert(partial_source(i + d, a, s, d, j + 1) == i);
    }
    assert forall|p: int| p != i && p != i + d implies partial_source(p, a, s, d, j)
        == partial_source(p, a, s, d, j + 1) by {}
    assert(swap.len() == after.len());
    assert forall|y: int| 0 <= y < swap.len() implies #[trigger] swap[y] =~= after[y] by {
        assert forall|x: int| 0 <= x < swap[y].len() implies swap[y][x] == after[y][x] by {
            match axis {
                Direction::Horizontal => {
                    if y == r {
                        if x != i && x != i + d {
                            assert(partial_source(x, a, s, d, j) == partial_source(
                                x,
                                a,
                                s,
                                d,
                                j + 1,
                            ));
                        }
                    }
                },
                Direction::Vertical => {
                    if x == c {
                        if y != i && y != i + d {
                            assert(partial_source(y, a, s, d, j) == partial_source(
                                y,
                                a,
                                s,
                                d,
                                j + 1,
                            ));
                        }
                    }
                },
            }
        }
    }
    assert(swap =~= after);
}

/// A grid in which two tiles have changed places holds the same vehicles.
pub proof fn lemma_swapped_has_vehicle(cells: Seq<Seq<Tile>>, p: (int, int), q: (int, int), id: u8)
    requires
        square(cells),
        in_grid(cells, p.0, p.1),
        in_grid(cells, q.0, q.1),
    ensures
        square(swapped(cells, p, q)),
        swapped(cells, p, q).len() == cells.len(),
        has_vehicle(swapped(cells, p, q), id) <==> has_vehicle(cells, id),
{
    let after = swapped(cells, p, q);
    if has_vehicle(cells, id) {
        let (r, c) = choose|r: int, c: int| in_grid(cells, r, c) && #[trigger] cells[r][c].has_id(id);
        if (r, c) == p {
            assert(after[q.0][q.1].has_id(id));
        } else if (r, c) == q {
            assert(after[p.0][p.1].has_id(id));
        } else {
            assert(after[r][c].has_id(id));
        }
    }
    if has_vehicle(after, id) {
        let (r, c) = choose|r: int, c: int| in_grid(after, r, c) && #[trigger] after[r][c].has_id(id);
        if (r, c) == p {
            assert(cells[q.0][q.1].has_id(id));
        } else if (r, c) == q {
            assert(cells[p.0][p.1].has_id(id));
        } else {
            assert(cells[r][c].has_id(id));
        }
    }
}

/// The swaps of a slide keep the grid square and keep every vehicle on it.
pub proof fn lemma_partial_keeps_vehicle(
    cells: Seq<Seq<Tile>>,
    axis: Direction,
    r: int,
    c: int,
    s: int,
    d: int,
    j: int,
    id: u8,
)
    requires
        square(cells),
        in_grid(cells, r, c),
        shift_fits(cells.len() as int, along(axis, r, c), s, d),
        0 <= s,
        0 <= j <= s + 1,
    ensures
        square(slide_partial(cells, axis, r, c, s, d, j)),
        slide_partial(cells, axis, r, c, s, d, j).len() == cells.len(),
        has_vehicle(slide_partial(cells, axis, r, c, s, d, j), id) <==> has_vehicle(cells, id),
    decreases j,
{
    if d == 0 {
        reveal(slide_partial);
        assert(slide_partial(cells, axis, r, c, s, d, j) =~~= cells);
    } else if j == 0 {
        lemma_slide_start(cells, axis, r, c, s, d);
    } else {
        lemma_partial_keeps_vehicle(cells, axis, r, c, s, d, j - 1, id);
        lemma_swap_step(cells, axis, r, c, s, d, j - 1);
        let a = along(axis, r, c);
        let i = swap_index(a, s, d, j - 1);
        lemma_swapped_has_vehicle(
            slide_partial(cells, axis, r, c, s, d, j - 1),
            on_line(axis, r, c, i),
            on_line(axis, r, c, i + d),
            id,
        );
    }
}

/// A move that fits keeps the grid square and keeps every vehicle on it.
pub proof fn lemma_move_keeps_vehicle(cells: Seq<Seq<Tile>>, m: Move, id: u8)
    requires
        square(cells),
        move_fits(cells, m),
    ensures
        square(apply_move(cells, m)),
        apply_move(cells, m).len() == cells.len(),
        has_vehicle(apply_move(cells, m), id) <==> has_vehicle(cells, id),
{
    lemma_anchor_exists(cells, m.vehicle_id);
    let (r, c) = anchor(cells, m.vehicle_id);
    let seg = anchor_segment(cells, m.vehicle_id);
    lemma_partial_keeps_vehicle(
        cells,
        seg.direction,
        r,
        c,
        seg.segments_left as int,
        m.direction as int,
        seg.segments_left as int + 1,
        id,
    );
}

} // verus!
