//! Why the solution that the search finds is a shortest one.
//!
//! The search drops a board when the hash of its grid has been seen. It
//! therefore misses nothing as long as no two grids that it can reach have
//! the same hash. What is proved here holds under that condition: when a
//! generation has been expanded, every grid that fewer moves lead to is
//! known and has had its moves made, so that a solution of fewer moves
//! would have been found.

use crate::board::Board;
use crate::fingerprint::fingerprint;
use crate::position::won;
use crate::probe::all_moves;
use crate::search::{examined, hash_among, legal_path, replay};
use crate::slide::{apply_move, move_fits};
use crate::tile::{Move, Tile};
use vstd::prelude::*;

verus! {

/// Whether no two grids that allowed moves lead to from `origin`, at most
/// `depth` of them, have the same hash.
pub open spec fn collision_free(origin: Seq<Seq<Tile>>, depth: int) -> bool {
    forall|p: Seq<Move>, q: Seq<Move>|
        #![trigger replay(origin, p), replay(origin, q)]
        legal_path(origin, p) && legal_path(origin, q) && p.len() <= depth && q.len() <= depth
            && fingerprint(replay(origin, p)) == fingerprint(replay(origin, q)) ==> replay(
            origin,
            p,
        ) == replay(origin, q)
}

/// Whether no sequence of at most `depth` allowed moves solves `origin`.
pub open spec fn unsolved_within(origin: Seq<Seq<Tile>>, depth: int) -> bool {
    forall|p: Seq<Move>|
        legal_path(origin, p) && p.len() <= depth ==> !won(#[trigger] replay(origin, p))
}

/// Whether fewer than `depth` allowed moves lead from `origin` to a grid
/// that offers a move after which its vehicle would not be on the grid.
pub open spec fn unfit_within(origin: Seq<Seq<Tile>>, depth: int) -> bool {
    exists|p: Seq<Move>, m: Move|
        legal_path(origin, p) && p.len() < depth && #[trigger] all_moves(
            replay(origin, p),
        ).contains(m) && !move_fits(replay(origin, p), m)
}

/// Whether at most `depth` allowed moves lead from `origin` to `cells`.
pub open spec fn reached(origin: Seq<Seq<Tile>>, cells: Seq<Seq<Tile>>, depth: int) -> bool {
    exists|p: Seq<Move>|
        legal_path(origin, p) && p.len() <= depth && #[trigger] replay(origin, p) == cells
}

/// Whether every move that a grid offers fits and leads to a known grid.
pub open spec fn expanded(cells: Seq<Seq<Tile>>, known: Set<Seq<Seq<Tile>>>) -> bool {
    forall|m: Move| #[trigger]
        all_moves(cells).contains(m) ==> move_fits(cells, m) && known.contains(
            apply_move(cells, m),
        )
}

/// Whether `cells` is the grid of a board of `frontier`.
pub open spec fn in_frontier(frontier: Seq<Board>, cells: Seq<Seq<Tile>>) -> bool {
    exists|i: int| 0 <= i < frontier.len() && (#[trigger] frontier[i]).cells() == cells
}

/// Whether some known grid has the hash `hash`.
pub open spec fn known_hash(known: Set<Seq<Seq<Tile>>>, hash: u64) -> bool {
    exists|g: Seq<Seq<Tile>>| #[trigger] known.contains(g) && fingerprint(g) == hash
}

/// What the search knows when it is about to expand the generation
/// `frontier` of the boards that `depth` moves have led to: the known
/// grids are reached by at most `depth` allowed moves, the target has not
/// reached the exit on any of them, and `archive` holds their hashes and
/// no others.
pub open spec fn search_state(
    origin: Seq<Seq<Tile>>,
    depth: int,
    known: Set<Seq<Seq<Tile>>>,
    archive: Set<u64>,
    frontier: Seq<Board>,
) -> bool {
    &&& known.contains(origin)
    &&& forall|g: Seq<Seq<Tile>>| #[trigger]
        known.contains(g) ==> {
            &&& !won(g)
            &&& archive.contains(fingerprint(g))
            &&& reached(origin, g, depth)
        }
    &&& forall|h: u64| #[trigger] archive.contains(h) ==> known_hash(known, h)
    &&& forall|i: int| 0 <= i < frontier.len() ==> known.contains((#[trigger] frontier[i]).cells())
}

/// What the search has covered when it is about to expand `frontier`:
/// every grid that fewer than `depth` allowed moves lead to has been
/// expanded, and so has every known grid that is not in `frontier`.
pub open spec fn search_covers(
    origin: Seq<Seq<Tile>>,
    depth: int,
    known: Set<Seq<Seq<Tile>>>,
    frontier: Seq<Board>,
) -> bool {
    &&& forall|p: Seq<Move>|
        legal_path(origin, p) && p.len() < depth ==> expanded(#[trigger] replay(origin, p), known)
    &&& forall|g: Seq<Seq<Tile>>| #[trigger]
        known.contains(g) ==> expanded(g, known) || in_frontier(frontier, g)
}

/// The grids of the boards of `next`.
pub open spec fn grids_of(next: Seq<Board>) -> Set<Seq<Seq<Tile>>> {
    Set::new(|g: Seq<Seq<Tile>>| in_frontier(next, g))
}

/// Every grid that at most `depth` allowed moves lead to is known, when
/// the grids that fewer moves lead to have been expanded.
pub proof fn lemma_known_within(
    origin: Seq<Seq<Tile>>,
    depth: int,
    known: Set<Seq<Seq<Tile>>>,
    p: Seq<Move>,
)
    requires
        known.contains(origin),
        forall|p: Seq<Move>|
            legal_path(origin, p) && p.len() < depth ==> expanded(
                #[trigger] replay(origin, p),
                known,
            ),
        legal_path(origin, p),
        p.len() <= depth,
    ensures
        known.contains(replay(origin, p)),
    decreases p.len(),
{
    if p.len() > 0 {
        lemma_known_within(origin, depth, known, p.drop_last());
        let parent = replay(origin, p.drop_last());
        assert(expanded(parent, known));
        assert(all_moves(parent).contains(p.last()));
    }
}

/// Every grid that allowed moves lead to is known, when every known grid
/// has been expanded.
pub proof fn lemma_known_always(origin: Seq<Seq<Tile>>, known: Set<Seq<Seq<Tile>>>, p: Seq<Move>)
    requires
        known.contains(origin),
        forall|g: Seq<Seq<Tile>>| #[trigger] known.contains(g) ==> expanded(g, known),
        legal_path(origin, p),
    ensures
        known.contains(replay(origin, p)),
    decreases p.len(),
{
    if p.len() > 0 {
        lemma_known_always(origin, known, p.drop_last());
        let parent = replay(origin, p.drop_last());
        assert(expanded(parent, known));
        assert(all_moves(parent).contains(p.last()));
    }
}

/// A grid whose moves have all been looked at has been expanded, when no
/// two grids within reach have the same hash: the hash of each grid that
/// its moves lead to is that of a known grid, which is then that grid.
pub proof fn lemma_examined_is_expanded(
    origin: Seq<Seq<Tile>>,
    limit: int,
    depth: int,
    known: Set<Seq<Seq<Tile>>>,
    archive: Set<u64>,
    cells: Seq<Seq<Tile>>,
)
    requires
        collision_free(origin, limit),
        0 <= depth < limit,
        reached(origin, cells, depth),
        examined(cells, archive),
        forall|h: u64| #[trigger] archive.contains(h) ==> known_hash(known, h),
        forall|g: Seq<Seq<Tile>>| #[trigger] known.contains(g) ==> reached(origin, g, depth + 1),
    ensures
        expanded(cells, known),
{
    let p = choose|p: Seq<Move>|
        legal_path(origin, p) && p.len() <= depth && #[trigger] replay(origin, p) == cells;
    assert forall|m: Move| #[trigger] all_moves(cells).contains(m) implies move_fits(cells, m)
        && known.contains(apply_move(cells, m)) by {
        let child = apply_move(cells, m);
        let longer = p.push(m);
        assert(longer.drop_last() =~= p);
        assert(legal_path(origin, longer));
        assert(replay(origin, longer) == child);
        assert(archive.contains(fingerprint(child)));
        assert(known_hash(known, fingerprint(child)));
        let same = choose|g: Seq<Seq<Tile>>| #[trigger]
            known.contains(g) && fingerprint(g) == fingerprint(child);
        assert(reached(origin, same, depth + 1));
        let q = choose|q: Seq<Move>|
            legal_path(origin, q) && q.len() <= depth + 1 && #[trigger] replay(origin, q) == same;
        assert(replay(origin, longer) == replay(origin, q));
    }
}

/// A grid that some moves lead to is led to by at most as many moves and
/// one more.
pub proof fn lemma_reached_later(origin: Seq<Seq<Tile>>, cells: Seq<Seq<Tile>>, depth: int)
    requires
        reached(origin, cells, depth),
    ensures
        reached(origin, cells, depth + 1),
{
    let p = choose|p: Seq<Move>|
        legal_path(origin, p) && p.len() <= depth && #[trigger] replay(origin, p) == cells;
    assert(legal_path(origin, p) && p.len() <= depth + 1 && replay(origin, p) == cells);
}

/// What the search knows, it still knows when a generation has been
/// expanded and the grids of the next generation have become known.
pub proof fn lemma_state_after_generation(
    origin: Seq<Seq<Tile>>,
    depth: int,
    known: Set<Seq<Seq<Tile>>>,
    archive: Set<u64>,
    frontier: Seq<Board>,
    later: Set<u64>,
    next: Seq<Board>,
)
    requires
        search_state(origin, depth, known, archive, frontier),
        forall|h: u64| archive.contains(h) ==> later.contains(h),
        forall|h: u64| later.contains(h) && !archive.contains(h) ==> hash_among(next, 0, h),
        forall|k: int|
            0 <= k < next.len() ==> {
                &&& later.contains(fingerprint((#[trigger] next[k]).cells()))
                &&& !won(next[k].cells())
                &&& reached(origin, next[k].cells(), depth + 1)
            },
    ensures
        search_state(origin, depth + 1, known.union(grids_of(next)), later, next),
{
    let wider = known.union(grids_of(next));
    assert forall|g: Seq<Seq<Tile>>| #[trigger] wider.contains(g) implies {
        &&& !won(g)
        &&& later.contains(fingerprint(g))
        &&& reached(origin, g, depth + 1)
    } by {
        if known.contains(g) {
            lemma_reached_later(origin, g, depth);
        } else {
            let i = choose|i: int| 0 <= i < next.len() && (#[trigger] next[i]).cells() == g;
            assert(next[i].cells() == g);
        }
    }
    assert forall|h: u64| #[trigger] later.contains(h) implies known_hash(wider, h) by {
        if archive.contains(h) {
            assert(known_hash(known, h));
            let g = choose|g: Seq<Seq<Tile>>| #[trigger] known.contains(g) && fingerprint(g) == h;
            assert(wider.contains(g));
        } else {
            assert(hash_among(next, 0, h));
            let k = choose|k: int|
                0 <= k < next.len() && fingerprint((#[trigger] next[k]).cells()) == h;
            assert(in_frontier(next, next[k].cells()));
            assert(wider.contains(next[k].cells()));
        }
    }
    assert forall|i: int| 0 <= i < next.len() implies wider.contains(
        (#[trigger] next[i]).cells(),
    ) by {
        assert(in_frontier(next, next[i].cells()));
    }
}

/// What the search has covered, it has covered one move further when a
/// generation has been expanded, if no two grids within reach have the
/// same hash.
pub proof fn lemma_covers_after_generation(
    origin: Seq<Seq<Tile>>,
    limit: int,
    depth: int,
    known: Set<Seq<Seq<Tile>>>,
    archive: Set<u64>,
    frontier: Seq<Board>,
    later: Set<u64>,
    next: Seq<Board>,
)
    requires
        collision_free(origin, limit),
        0 <= depth < limit,
        search_state(origin, depth, known, archive, frontier),
        search_covers(origin, depth, known, frontier),
        search_state(origin, depth + 1, known.union(grids_of(next)), later, next),
        forall|i: int| 0 <= i < frontier.len() ==> examined((#[trigger] frontier[i]).cells(), later),
    ensures
        search_covers(origin, depth + 1, known.union(grids_of(next)), next),
{
    let wider = known.union(grids_of(next));
    assert forall|g: Seq<Seq<Tile>>| #[trigger] known.contains(g) implies expanded(g, wider) by {
        if expanded(g, known) {
            assert forall|m: Move| #[trigger] all_moves(g).contains(m) implies move_fits(g, m)
                && wider.contains(apply_move(g, m)) by {
                assert(known.contains(apply_move(g, m)));
            }
        } else {
            assert(in_frontier(frontier, g));
            let i = choose|i: int| 0 <= i < frontier.len() && (#[trigger] frontier[i]).cells() == g;
            assert(examined(frontier[i].cells(), later));
            lemma_examined_is_expanded(origin, limit, depth, wider, later, g);
        }
    }
    assert forall|p: Seq<Move>| legal_path(origin, p) && p.len() < depth + 1 implies expanded(
        #[trigger] replay(origin, p),
        wider,
    ) by {
        lemma_known_within(origin, depth, known, p);
    }
    assert forall|g: Seq<Seq<Tile>>| #[trigger] wider.contains(g) implies expanded(g, wider)
        || in_frontier(next, g) by {
        if !known.contains(g) {
            assert(grids_of(next).contains(g));
        }
    }
}

/// No sequence of at most `depth` allowed moves solves the origin, when
/// the search is about to expand the generation that `depth` moves have
/// led to.
pub proof fn lemma_unsolved_so_far(
    origin: Seq<Seq<Tile>>,
    depth: int,
    known: Set<Seq<Seq<Tile>>>,
    archive: Set<u64>,
    frontier: Seq<Board>,
)
    requires
        search_state(origin, depth, known, archive, frontier),
        search_covers(origin, depth, known, frontier),
    ensures
        unsolved_within(origin, depth),
{
    assert forall|p: Seq<Move>| legal_path(origin, p) && p.len() <= depth implies !won(
        #[trigger] replay(origin, p),
    ) by {
        lemma_known_within(origin, depth, known, p);
    }
}

/// No sequence of allowed moves solves the origin, however long, when the
/// search has no board left to expand.
pub proof fn lemma_unsolved_for_good(
    origin: Seq<Seq<Tile>>,
    depth: int,
    known: Set<Seq<Seq<Tile>>>,
    archive: Set<u64>,
    frontier: Seq<Board>,
    limit: int,
)
    requires
        search_state(origin, depth, known, archive, frontier),
        search_covers(origin, depth, known, frontier),
        frontier.len() == 0,
    ensures
        unsolved_within(origin, limit),
{
    assert forall|p: Seq<Move>| legal_path(origin, p) && p.len() <= limit implies !won(
        #[trigger] replay(origin, p),
    ) by {
        lemma_known_always(origin, known, p);
    }
}

} // verus!
