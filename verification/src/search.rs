//! What it means for a sequence of moves to solve a board.

use crate::board::{Board, Position};
use crate::error::BoardError;
use crate::fingerprint::fingerprint;
use crate::position::{has_vehicle, square, won, TARGET_ID};
use crate::probe::all_moves;
use crate::slide::{apply_move, lemma_move_keeps_vehicle, move_fits};
use crate::tile::{Move, Tile};
use vstd::prelude::*;

verus! {

/// A move is allowed on a grid when the grid's empty cells offer it and the
/// vehicle stays on the grid.
pub open spec fn allowed(cells: Seq<Seq<Tile>>, m: Move) -> bool {
    all_moves(cells).contains(m) && move_fits(cells, m)
}

/// The grid after the moves of `path`, made one after another on `cells`.
pub open spec fn replay(cells: Seq<Seq<Tile>>, path: Seq<Move>) -> Seq<Seq<Tile>>
    decreases path.len(),
{
    if path.len() == 0 {
        cells
    } else {
        apply_move(replay(cells, path.drop_last()), path.last())
    }
}

/// Whether each move of `path` is allowed on the grid that it is made on,
/// when the moves are made one after another on `cells`.
pub open spec fn legal_path(cells: Seq<Seq<Tile>>, path: Seq<Move>) -> bool
    decreases path.len(),
{
    path.len() == 0 || (legal_path(cells, path.drop_last()) && allowed(
        replay(cells, path.drop_last()),
        path.last(),
    ))
}

/// Whether `path` is a sequence of allowed moves that takes `cells` to a
/// grid on which the target has reached the exit.
pub open spec fn solves(cells: Seq<Seq<Tile>>, path: Seq<Move>) -> bool {
    legal_path(cells, path) && won(replay(cells, path))
}

/// Whether `child` is `parent` after one allowed move: the last move of
/// its history, which is otherwise that of `parent`.
pub open spec fn is_child(parent: Board, child: Board) -> bool {
    &&& child.history().len() > 0
    &&& child.history().drop_last() == parent.history()
    &&& allowed(parent.cells(), child.history().last())
    &&& child.cells() == apply_move(parent.cells(), child.history().last())
}

/// Whether `path` is the history of `parent` and one allowed move more,
/// after which the target has reached the exit.
pub open spec fn wins_from(parent: Board, path: Seq<Move>) -> bool {
    &&& path.len() > 0
    &&& path.drop_last() == parent.history()
    &&& allowed(parent.cells(), path.last())
    &&& won(apply_move(parent.cells(), path.last()))
}

/// Whether the hash of `state` is among the hashes of the boards of
/// `next` from index `from` on.
pub open spec fn hash_among(next: Seq<Board>, from: int, hash: u64) -> bool {
    exists|k: int| from <= k < next.len() && fingerprint((#[trigger] next[k]).cells()) == hash
}

/// Whether the boards of `next` from index `from` on are what `archive`
/// has gained over `before`: each of them has a hash that `before` did not
/// hold, no two of them have the same hash, and `archive` holds the hashes
/// of `before` and theirs and no others.
pub open spec fn committed(before: Set<u64>, archive: Set<u64>, next: Seq<Board>, from: int) -> bool {
    &&& forall|h: u64| before.contains(h) ==> archive.contains(h)
    &&& forall|h: u64| archive.contains(h) && !before.contains(h) ==> hash_among(next, from, h)
    &&& forall|k: int|
        from <= k < next.len() ==> {
            &&& archive.contains(fingerprint((#[trigger] next[k]).cells()))
            &&& !before.contains(fingerprint(next[k].cells()))
        }
    &&& forall|k: int, l: int|
        from <= k < l < next.len() ==> fingerprint((#[trigger] next[k]).cells()) != fingerprint(
            (#[trigger] next[l]).cells(),
        )
}

/// The archive holds one hash more for each board that was committed: no
/// hash is committed twice, and none without a board.
pub proof fn lemma_committed_count(before: Set<u64>, archive: Set<u64>, next: Seq<Board>)
    requires
        before.finite(),
        committed(before, archive, next, 0),
    ensures
        archive.finite(),
        archive.len() == before.len() + next.len(),
    decreases next.len(),
{
    if next.len() == 0 {
        assert forall|h: u64| archive.contains(h) implies before.contains(h) by {
            if !before.contains(h) {
                assert(hash_among(next, 0, h));
            }
        }
        assert(archive =~= before);
    } else {
        let last = next.last();
        let hash = fingerprint(last.cells());
        let earlier = next.drop_last();
        let smaller = archive.remove(hash);
        assert(archive.contains(hash) && !before.contains(hash));
        assert forall|h: u64| smaller.contains(h) && !before.contains(h) implies hash_among(
            earlier,
            0,
            h,
        ) by {
            assert(hash_among(next, 0, h));
            let k = choose|k: int|
                0 <= k < next.len() && fingerprint((#[trigger] next[k]).cells()) == h;
            assert(earlier[k] == next[k]);
        }
        assert forall|k: int| 0 <= k < earlier.len() implies {
            &&& smaller.contains(fingerprint((#[trigger] earlier[k]).cells()))
            &&& !before.contains(fingerprint(earlier[k].cells()))
        } by {
            assert(earlier[k] == next[k]);
            assert(next[next.len() - 1] == last);
        }
        assert forall|k: int, l: int| 0 <= k < l < earlier.len() implies fingerprint(
            (#[trigger] earlier[k]).cells(),
        ) != fingerprint((#[trigger] earlier[l]).cells()) by {
            assert(earlier[k] == next[k] && earlier[l] == next[l]);
        }
        lemma_committed_count(before, smaller, earlier);
        assert(archive =~= smaller.insert(hash));
    }
}

/// Whether `state` has come from the grid `origin` with the history `past`
/// by `depth` allowed moves, which its history records after `past`.
pub open spec fn descends(state: Board, origin: Seq<Seq<Tile>>, past: Seq<Move>, depth: int) -> bool {
    &&& state.wf()
    &&& state.history().len() == past.len() + depth
    &&& state.history().take(past.len() as int) == past
    &&& legal_path(origin, state.history().skip(past.len() as int))
    &&& replay(origin, state.history().skip(past.len() as int)) == state.cells()
}

/// A state on which the search goes on: it has come from the origin, the
/// target is on it, and the target has not reached the exit.
pub open spec fn open_state(state: Board, origin: Seq<Seq<Tile>>, past: Seq<Move>, depth: int) -> bool {
    &&& descends(state, origin, past, depth)
    &&& has_vehicle(state.cells(), TARGET_ID)
    &&& !won(state.cells())
}

/// Whether every move that a grid offers has been looked at: it fits, the
/// target has not reached the exit after it, and `archive` holds the hash
/// of the grid after it.
pub open spec fn examined(cells: Seq<Seq<Tile>>, archive: Set<u64>) -> bool {
    forall|m: Move| #[trigger]
        all_moves(cells).contains(m) ==> {
            &&& move_fits(cells, m)
            &&& !won(apply_move(cells, m))
            &&& archive.contains(fingerprint(apply_move(cells, m)))
        }
}

/// The first move of a path of allowed moves is one that the grid allows.
pub proof fn lemma_first_move_allowed(cells: Seq<Seq<Tile>>, path: Seq<Move>)
    requires
        legal_path(cells, path),
        path.len() > 0,
    ensures
        allowed(cells, path[0]),
    decreases path.len(),
{
    if path.len() > 1 {
        lemma_first_move_allowed(cells, path.drop_last());
    }
}

/// A grid that a sequence of allowed moves solves, and on which the target
/// has not reached the exit yet, allows a move.
pub proof fn lemma_solvable_allows_moves(cells: Seq<Seq<Tile>>, path: Seq<Move>)
    requires
        solves(cells, path),
        !won(cells),
    ensures
        all_moves(cells).len() > 0,
{
    lemma_first_move_allowed(cells, path);
}

/// Allowed moves keep the grid square and keep every vehicle on it.
pub proof fn lemma_replay_keeps_vehicle(cells: Seq<Seq<Tile>>, path: Seq<Move>, id: u8)
    requires
        square(cells),
        legal_path(cells, path),
    ensures
        square(replay(cells, path)),
        replay(cells, path).len() == cells.len(),
        has_vehicle(replay(cells, path), id) <==> has_vehicle(cells, id),
    decreases path.len(),
{
    if path.len() > 0 {
        lemma_replay_keeps_vehicle(cells, path.drop_last(), id);
        lemma_move_keeps_vehicle(replay(cells, path.drop_last()), path.last(), id);
    }
}

/// A child of a state that has come from the origin has come from it too,
/// by one move more.
pub proof fn lemma_child_descends(
    parent: Board,
    child: Board,
    origin: Seq<Seq<Tile>>,
    past: Seq<Move>,
    depth: int,
)
    requires
        descends(parent, origin, past, depth),
        0 <= depth,
        child.wf(),
        is_child(parent, child),
    ensures
        descends(child, origin, past, depth + 1),
{
    let h = past.len() as int;
    let made = child.history().skip(h);
    assert(made.drop_last() =~= parent.history().skip(h));
    assert(made.last() == child.history().last());
    assert(child.history().take(h) =~= parent.history().take(h));
}

/// A path that wins from a state that has come from the origin solves the
/// origin, once the moves that were made before are taken off it.
pub proof fn lemma_win_solves(
    parent: Board,
    path: Seq<Move>,
    origin: Seq<Seq<Tile>>,
    past: Seq<Move>,
    depth: int,
)
    requires
        descends(parent, origin, past, depth),
        0 <= depth,
        wins_from(parent, path),
    ensures
        path.len() == past.len() + depth + 1,
        path.take(past.len() as int) == past,
        solves(origin, path.skip(past.len() as int)),
{
    let h = past.len() as int;
    let made = path.skip(h);
    assert(made.drop_last() =~= parent.history().skip(h));
    assert(made.last() == path.last());
    assert(path.take(h) =~= parent.history().take(h));
}

/// How far the expansion of a generation has come.
pub enum Expansion {
    /// A move has led to a grid on which the target has reached the exit:
    /// the moves that lead there, oldest first.
    Solved(Seq<Move>),
    /// A board has offered a move after which its vehicle would not be on
    /// the grid.
    Unfit,
    /// Neither has happened: the boards of the next generation so far, and
    /// the hashes that have been seen.
    Next(Seq<Position>, Set<u64>),
}

/// What the boards of a generation hold, board by board.
pub open spec fn positions(boards: Seq<Board>) -> Seq<Position> {
    boards.map_values(|board: Board| board@)
}

/// The expansion after the move `m` has been made on `from`. The board
/// after the move joins the next generation if its hash has not been seen.
/// An expansion that has ended stays as it is.
pub open spec fn try_move(from: Position, m: Move, so_far: Expansion) -> Expansion {
    match so_far {
        Expansion::Next(next, archive) => {
            let child = apply_move(from.cells, m);
            if !move_fits(from.cells, m) {
                Expansion::Unfit
            } else if won(child) {
                Expansion::Solved(from.history.push(m))
            } else if archive.contains(fingerprint(child)) {
                so_far
            } else {
                Expansion::Next(
                    next.push(Position { cells: child, history: from.history.push(m) }),
                    archive.insert(fingerprint(child)),
                )
            }
        },
        _ => so_far,
    }
}

/// The expansion after the moves of `moves` have been made on `from`, each
/// on a board of its own, in their order.
pub open spec fn try_moves(from: Position, moves: Seq<Move>, so_far: Expansion) -> Expansion
    decreases moves.len(),
{
    if moves.len() == 0 {
        so_far
    } else {
        try_move(from, moves.last(), try_moves(from, moves.drop_last(), so_far))
    }
}

/// The expansion after every move that `from` offers has been made on it.
pub open spec fn expand(from: Position, so_far: Expansion) -> Expansion {
    try_moves(from, all_moves(from.cells), so_far)
}

/// The expansion after the boards of `frontier` have been expanded, in
/// their order.
pub open spec fn expand_all(frontier: Seq<Position>, so_far: Expansion) -> Expansion
    decreases frontier.len(),
{
    if frontier.len() == 0 {
        so_far
    } else {
        expand(frontier.last(), expand_all(frontier.drop_last(), so_far))
    }
}

/// What the search leads to when it goes on from the generation
/// `frontier` with the hashes `archive` seen, for at most `rounds`
/// generations more.
pub open spec fn search_on(frontier: Seq<Position>, archive: Set<u64>, rounds: nat) -> Result<
    Seq<Move>,
    BoardError,
>
    decreases rounds,
{
    if rounds == 0 || frontier.len() == 0 {
        Err(BoardError::NoSolutionFound)
    } else {
        match expand_all(frontier, Expansion::Next(Seq::empty(), archive)) {
            Expansion::Solved(path) => Ok(path),
            Expansion::Unfit => Err(BoardError::OutOfBounds),
            Expansion::Next(next, seen) => search_on(next, seen, (rounds - 1) as nat),
        }
    }
}

/// What the breadth-first search from `start` leads to, with solutions of
/// at most `max_depth` moves: generation by generation, board by board in
/// the order in which the boards were made, move by move in the order in
/// which a board offers its moves, until a move leads to a grid on which
/// the target has reached the exit.
pub open spec fn search(start: Position, max_depth: nat) -> Result<Seq<Move>, BoardError> {
    if !has_vehicle(start.cells, TARGET_ID) {
        Err(BoardError::MissingVehicle)
    } else if won(start.cells) {
        Ok(start.history)
    } else {
        search_on(seq![start], Set::empty().insert(fingerprint(start.cells)), max_depth)
    }
}

/// The expansion after one move more is that after the moves before it,
/// and then the move.
pub proof fn lemma_try_moves_next(from: Position, moves: Seq<Move>, k: int, so_far: Expansion)
    requires
        0 <= k < moves.len(),
    ensures
        try_moves(from, moves.take(k + 1), so_far) == try_move(
            from,
            moves[k],
            try_moves(from, moves.take(k), so_far),
        ),
{
    assert(moves.take(k + 1).drop_last() =~= moves.take(k));
}

/// The expansion after one board more is that after the boards before it,
/// and then the board.
pub proof fn lemma_expand_all_next(frontier: Seq<Position>, k: int, so_far: Expansion)
    requires
        0 <= k < frontier.len(),
    ensures
        expand_all(frontier.take(k + 1), so_far) == expand(
            frontier[k],
            expand_all(frontier.take(k), so_far),
        ),
{
    assert(frontier.take(k + 1).drop_last() =~= frontier.take(k));
}

/// An expansion that has ended after some of the moves has ended after all
/// of them, in the same way.
pub proof fn lemma_try_moves_ended(from: Position, moves: Seq<Move>, k: int, so_far: Expansion)
    requires
        0 <= k <= moves.len(),
        !(try_moves(from, moves.take(k), so_far) is Next),
    ensures
        try_moves(from, moves, so_far) == try_moves(from, moves.take(k), so_far),
    decreases moves.len() - k,
{
    if k < moves.len() {
        assert(moves.take(k + 1).drop_last() =~= moves.take(k));
        lemma_try_moves_ended(from, moves, k + 1, so_far);
    } else {
        assert(moves.take(k) =~= moves);
    }
}

/// An expansion that has ended after some of the boards has ended after
/// all of them, in the same way.
pub proof fn lemma_expand_all_ended(frontier: Seq<Position>, k: int, so_far: Expansion)
    requires
        0 <= k <= frontier.len(),
        !(expand_all(frontier.take(k), so_far) is Next),
    ensures
        expand_all(frontier, so_far) == expand_all(frontier.take(k), so_far),
    decreases frontier.len() - k,
{
    if k < frontier.len() {
        assert(frontier.take(k + 1).drop_last() =~= frontier.take(k));
        let ended = expand_all(frontier.take(k), so_far);
        let moves = all_moves(frontier[k].cells);
        assert(moves.take(0) =~= Seq::<Move>::empty());
        lemma_try_moves_ended(frontier[k], moves, 0, ended);
        lemma_expand_all_ended(frontier, k + 1, so_far);
    } else {
        assert(frontier.take(k) =~= frontier);
    }
}

} // verus!
