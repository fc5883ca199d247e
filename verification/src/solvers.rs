//! The breadth-first solver.
//!
//! The search keeps one generation of boards at a time: those reached by
//! the same number of moves. Each generation is expanded into the next by
//! making every allowed move on every board. The first board on which the
//! target has reached the exit ends the search; its history is the
//! solution. A board whose hash has been seen before is dropped, so that
//! every position is expanded once.

use crate::board::{Board, Position};
use crate::error::BoardError;
use crate::fingerprint::fingerprint;
use crate::layout::{lemma_never_unfit, well_laid};
use crate::position::{has_vehicle, won, TARGET_ID};
use crate::probe::all_moves;
use crate::record::{board_from_text, defined_cells};
use crate::search::{
    committed, examined, expand, expand_all, hash_among, is_child, legal_path,
    lemma_child_descends, lemma_expand_all_ended, lemma_expand_all_next, lemma_try_moves_ended,
    lemma_try_moves_next, lemma_win_solves, open_state, positions, replay, search, search_on,
    solves, try_move, try_moves, wins_from, Expansion,
};
use crate::shortest::{
    collision_free, grids_of, lemma_covers_after_generation, lemma_state_after_generation,
    lemma_unsolved_for_good, lemma_unsolved_so_far, reached, search_covers, search_state,
    unfit_within, unsolved_within,
};
use crate::slide::{apply_move, lemma_move_keeps_vehicle, move_fits};
use crate::tile::{Move, Tile};
use std::collections::HashSet;
use vstd::prelude::*;
use vstd::string::StringSliceAdditionalSpecFns;

verus! {

/// What the expansion of a generation has led to.
pub enum Generation {
    /// A board on which the target has reached the exit was found: the
    /// moves that lead to it, oldest first.
    Solved(Vec<Move>),
    /// No such board was found: the boards of the next generation.
    Next(Vec<Board>),
}

/// The expansion that the expansion of one board reports: how it ended,
/// or the next generation and the hashes as it left them.
pub open spec fn state_report(
    result: Result<Option<Vec<Move>>, BoardError>,
    next: Seq<Board>,
    archive: Set<u64>,
) -> Expansion {
    match result {
        Ok(None) => Expansion::Next(positions(next), archive),
        Ok(Some(path)) => Expansion::Solved(path@),
        Err(_) => Expansion::Unfit,
    }
}

/// The expansion that the expansion of a generation reports: how it
/// ended, or the next generation and the hashes as it left them.
pub open spec fn generation_report(result: Result<Generation, BoardError>, archive: Set<u64>) -> Expansion {
    match result {
        Ok(Generation::Next(next)) => Expansion::Next(positions(next@), archive),
        Ok(Generation::Solved(path)) => Expansion::Solved(path@),
        Err(_) => Expansion::Unfit,
    }
}

/// Makes every allowed move on `state`.
///
/// A board on which the target has reached the exit ends the expansion:
/// its history is returned. Every other board whose hash `archive` does
/// not hold yet is added to `next`, and its hash to `archive`.
fn expand_state(state: &Board, archive: &mut HashSet<u64>, next: &mut Vec<Board>) -> (result: Result<
    Option<Vec<Move>>,
    BoardError,
>)
    requires
        state.wf(),
        has_vehicle(state.cells(), TARGET_ID),
    ensures
        state_report(result, final(next)@, final(archive)@) == expand(
            state@,
            Expansion::Next(positions(old(next)@), old(archive)@),
        ),
        match result {
            Ok(None) => {
                &&& examined(state.cells(), final(archive)@)
                &&& final(next)@.len() >= old(next)@.len()
                &&& final(next)@.take(old(next)@.len() as int) == old(next)@
                &&& committed(old(archive)@, final(archive)@, final(next)@, old(next)@.len() as int)
                &&& forall|k: int|
                    old(next)@.len() <= k < final(next)@.len() ==> {
                        &&& (#[trigger] final(next)@[k]).wf()
                        &&& is_child(*state, final(next)@[k])
                        &&& !won(final(next)@[k].cells())
                    }
            },
            Ok(Some(path)) => wins_from(*state, path@),
            Err(e) => {
                &&& e == BoardError::OutOfBounds
                &&& exists|m: Move| #[trigger]
                    all_moves(state.cells()).contains(m) && !move_fits(state.cells(), m)
            },
        },
{
    let ghost start = Expansion::Next(positions(next@), archive@);
    let moves = match state.possible_moves() {
        Ok(moves) => moves,
        Err(_) => {
            assert(all_moves(state.cells()) =~= Seq::<Move>::empty());
            return Ok(None);
        },
    };
    let ghost before = archive@;
    let ghost kept = next@.len() as int;
    assert(moves@.take(0) =~= Seq::<Move>::empty());
    let mut i: usize = 0;
    while i < moves.len()
        invariant
            start == Expansion::Next(positions(old(next)@), old(archive)@),
            try_moves(state@, moves@.take(i as int), start) == Expansion::Next(
                positions(next@),
                archive@,
            ),
            state.wf(),
            has_vehicle(state.cells(), TARGET_ID),
            moves@ == all_moves(state.cells()),
            i <= moves.len(),
            kept == old(next)@.len(),
            before == old(archive)@,
            next@.len() >= kept,
            next@.take(kept) == old(next)@,
            committed(before, archive@, next@, kept),
            forall|k: int|
                kept <= k < next@.len() ==> {
                    &&& (#[trigger] next@[k]).wf()
                    &&& is_child(*state, next@[k])
                    &&& !won(next@[k].cells())
                },
            forall|j: int|
                0 <= j < i ==> {
                    &&& move_fits(state.cells(), #[trigger] moves@[j])
                    &&& !won(apply_move(state.cells(), moves@[j]))
                    &&& archive@.contains(fingerprint(apply_move(state.cells(), moves@[j])))
                },
        decreases moves.len() - i,
    {
        let vehicle_move = moves[i];
        assert(all_moves(state.cells()).contains(vehicle_move));
        proof {
            lemma_try_moves_next(state@, moves@, i as int, start);
        }
        let mut new_state = state.clone();
        match new_state.move_vehicle(vehicle_move) {
            Ok(()) => {},
            Err(e) => {
                proof {
                    lemma_try_moves_ended(state@, moves@, i + 1, start);
                }
                return Err(BoardError::OutOfBounds);
            },
        }
        proof {
            lemma_move_keeps_vehicle(state.cells(), vehicle_move, TARGET_ID);
            assert(new_state.history().drop_last() =~= state.history());
        }
        let is_won = match new_state.is_won() {
            Ok(is_won) => is_won,
            Err(e) => {
                return Err(BoardError::OutOfBounds);
            },
        };
        if is_won {
            let path = new_state.export_history();
            proof {
                lemma_try_moves_ended(state@, moves@, i + 1, start);
            }
            return Ok(Some(path));
        }
        let hash = new_state.get_hash();
        let ghost seen = archive@;
        let ghost queued = next@;
        let ghost child = new_state@;
        if archive.insert(hash) {
            next.push(new_state);
            proof {
                let grown = next@;
                assert(positions(grown) =~= positions(queued).push(child));
                assert(grown.take(kept) =~= queued.take(kept));
                assert forall|h: u64|
                    archive@.contains(h) && !before.contains(h) implies hash_among(
                    grown,
                    kept,
                    h,
                ) by {
                    if h == hash {
                        assert(fingerprint(grown[grown.len() - 1].cells()) == h);
                    } else {
                        assert(hash_among(queued, kept, h));
                        let k = choose|k: int|
                            kept <= k < queued.len() && fingerprint((#[trigger] queued[k]).cells())
                                == h;
                        assert(fingerprint(grown[k].cells()) == h);
                    }
                }
                assert forall|k: int, l: int| kept <= k < l < grown.len() implies fingerprint(
                    (#[trigger] grown[k]).cells(),
                ) != fingerprint((#[trigger] grown[l]).cells()) by {
                    if l == grown.len() - 1 {
                        assert(grown[k] == queued[k]);
                        assert(seen.contains(fingerprint(queued[k].cells())));
                    } else {
                        assert(grown[k] == queued[k] && grown[l] == queued[l]);
                    }
                }
                assert forall|k: int| kept <= k < grown.len() implies {
                    &&& archive@.contains(fingerprint((#[trigger] grown[k]).cells()))
                    &&& !before.contains(fingerprint(grown[k].cells()))
                    &&& grown[k].wf()
                    &&& is_child(*state, grown[k])
                    &&& !won(grown[k].cells())
                } by {
                    if k < grown.len() - 1 {
                        assert(grown[k] == queued[k]);
                    }
                }
            }
        } else {
            assert(archive@ =~= seen);
        }
        assert(try_move(state@, vehicle_move, Expansion::Next(positions(queued), seen))
            == Expansion::Next(positions(next@), archive@));
        i = i + 1;
    }
    proof {
        assert(moves@.take(moves@.len() as int) =~= moves@);
        assert forall|m: Move| #[trigger] all_moves(state.cells()).contains(m) implies {
            &&& move_fits(state.cells(), m)
            &&& !won(apply_move(state.cells(), m))
            &&& archive@.contains(fingerprint(apply_move(state.cells(), m)))
        } by {
            let j = choose|j: int| 0 <= j < moves@.len() && moves@[j] == m;
            assert(moves@[j] == m);
        }
    }
    Ok(None)
}

/// What `archive` has gained in two steps, it has gained.
proof fn lemma_committed_twice(
    before: Set<u64>,
    between: Set<u64>,
    archive: Set<u64>,
    queued: Seq<Board>,
    next: Seq<Board>,
    from: int,
)
    requires
        0 <= from <= queued.len() <= next.len(),
        next.take(queued.len() as int) == queued,
        committed(before, between, queued, from),
        committed(between, archive, next, queued.len() as int),
    ensures
        committed(before, archive, next, from),
{
    assert forall|k: int| 0 <= k < queued.len() implies next[k] == queued[k] by {
        assert(next.take(queued.len() as int)[k] == next[k]);
    }
    assert forall|h: u64| archive.contains(h) && !before.contains(h) implies hash_among(
        next,
        from,
        h,
    ) by {
        if between.contains(h) {
            assert(hash_among(queued, from, h));
            let k = choose|k: int|
                from <= k < queued.len() && fingerprint((#[trigger] queued[k]).cells()) == h;
            assert(fingerprint(next[k].cells()) == h);
        } else {
            assert(hash_among(next, queued.len() as int, h));
            let k = choose|k: int|
                queued.len() <= k < next.len() && fingerprint((#[trigger] next[k]).cells()) == h;
            assert(fingerprint(next[k].cells()) == h);
        }
    }
    assert forall|k: int| from <= k < next.len() implies {
        &&& archive.contains(fingerprint((#[trigger] next[k]).cells()))
        &&& !before.contains(fingerprint(next[k].cells()))
    } by {
        if k < queued.len() {
            assert(next[k] == queued[k]);
        }
    }
    assert forall|k: int, l: int| from <= k < l < next.len() implies fingerprint(
        (#[trigger] next[k]).cells(),
    ) != fingerprint((#[trigger] next[l]).cells()) by {
        if l < queued.len() {
            assert(next[k] == queued[k] && next[l] == queued[l]);
        } else if k < queued.len() {
            assert(next[k] == queued[k]);
            assert(between.contains(fingerprint(queued[k].cells())));
        }
    }
}

/// Whether some board of `frontier` is the parent of `child`.
pub open spec fn has_parent(frontier: Seq<Board>, child: Board) -> bool {
    exists|i: int| 0 <= i < frontier.len() && is_child(#[trigger] frontier[i], child)
}

/// Whether `path` wins from some board of `frontier`.
pub open spec fn wins_from_some(frontier: Seq<Board>, path: Seq<Move>) -> bool {
    exists|i: int| 0 <= i < frontier.len() && wins_from(#[trigger] frontier[i], path)
}

/// Whether some board of `frontier` offers a move after which its vehicle
/// would not be on the grid.
pub open spec fn offers_unfit_move(frontier: Seq<Board>) -> bool {
    exists|i: int, m: Move|
        0 <= i < frontier.len() && #[trigger] all_moves(frontier[i].cells()).contains(m)
            && !move_fits(frontier[i].cells(), m)
}

/// Expands one generation of the search: every allowed move is made on
/// every board of `frontier`, in the order of the boards and of their
/// moves.
///
/// The first board on which the target has reached the exit ends the
/// expansion, and the moves that lead to it are returned. Otherwise the
/// next generation is returned: the boards whose hash `archive` did not
/// hold when they were made, each of them once. `archive` then holds the
/// hashes that it held and theirs, and none twice.
pub fn expand_generation(frontier: &Vec<Board>, archive: &mut HashSet<u64>) -> (result: Result<
    Generation,
    BoardError,
>)
    requires
        forall|i: int|
            0 <= i < frontier@.len() ==> (#[trigger] frontier@[i]).wf() && has_vehicle(
                frontier@[i].cells(),
                TARGET_ID,
            ),
    ensures
        generation_report(result, final(archive)@) == expand_all(
            positions(frontier@),
            Expansion::Next(Seq::empty(), old(archive)@),
        ),
        match result {
            Ok(Generation::Next(next)) => {
                &&& forall|i: int|
                    0 <= i < frontier@.len() ==> examined((#[trigger] frontier@[i]).cells(), final(archive)@)
                &&& committed(old(archive)@, final(archive)@, next@, 0)
                &&& forall|k: int|
                    0 <= k < next@.len() ==> {
                        &&& (#[trigger] next@[k]).wf()
                        &&& has_parent(frontier@, next@[k])
                        &&& !won(next@[k].cells())
                    }
            },
            Ok(Generation::Solved(path)) => wins_from_some(frontier@, path@),
            Err(e) => e == BoardError::OutOfBounds && offers_unfit_move(frontier@),
        },
{
    let mut next: Vec<Board> = Vec::new();
    let ghost start = Expansion::Next(Seq::empty(), archive@);
    let ghost all = positions(frontier@);
    assert(positions(next@) =~= Seq::<Position>::empty());
    assert(all.take(0) =~= Seq::<Position>::empty());
    let mut i: usize = 0;
    while i < frontier.len()
        invariant
            i <= frontier.len(),
            start == Expansion::Next(Seq::empty(), old(archive)@),
            all == positions(frontier@),
            expand_all(all.take(i as int), start) == Expansion::Next(positions(next@), archive@),
            forall|i: int|
                0 <= i < frontier@.len() ==> (#[trigger] frontier@[i]).wf() && has_vehicle(
                    frontier@[i].cells(),
                    TARGET_ID,
                ),
            forall|j: int| 0 <= j < i ==> examined((#[trigger] frontier@[j]).cells(), archive@),
            committed(old(archive)@, archive@, next@, 0),
            forall|k: int|
                0 <= k < next@.len() ==> {
                    &&& (#[trigger] next@[k]).wf()
                    &&& has_parent(frontier@, next@[k])
                    &&& !won(next@[k].cells())
                },
        decreases frontier.len() - i,
    {
        let ghost between = archive@;
        let ghost queued = next@;
        proof {
            lemma_expand_all_next(all, i as int, start);
            assert(all[i as int] == frontier@[i as int]@);
        }
        match expand_state(&frontier[i], archive, &mut next) {
            Ok(None) => {},
            Ok(Some(path)) => {
                assert(wins_from(frontier@[i as int], path@));
                proof {
                    lemma_expand_all_ended(all, i + 1, start);
                }
                return Ok(Generation::Solved(path));
            },
            Err(e) => {
                proof {
                    lemma_expand_all_ended(all, i + 1, start);
                }
                return Err(e);
            },
        }
        proof {
            lemma_committed_twice(old(archive)@, between, archive@, queued, next@, 0);
            assert forall|k: int| 0 <= k < next@.len() implies {
                &&& (#[trigger] next@[k]).wf()
                &&& has_parent(frontier@, next@[k])
                &&& !won(next@[k].cells())
            } by {
                if k < queued.len() {
                    assert(next@.take(queued.len() as int)[k] == next@[k]);
                } else {
                    assert(is_child(frontier@[i as int], next@[k]));
                }
            }
            assert forall|j: int| 0 <= j < i + 1 implies examined(
                (#[trigger] frontier@[j]).cells(),
                archive@,
            ) by {
                if j < i {
                    assert(examined(frontier@[j].cells(), between));
                }
            }
        }
        i = i + 1;
    }
    assert(all.take(frontier@.len() as int) =~= all);
    Ok(Generation::Next(next))
}

/// The moves, or the failure, that a search reports.
pub open spec fn path_report(result: Result<Vec<Move>, BoardError>) -> Result<Seq<Move>, BoardError> {
    match result {
        Ok(path) => Ok(path@),
        Err(e) => Err(e),
    }
}

/// A search for the shortest way out: a board, and the greatest number of
/// moves that a solution may have.
pub struct Solver {
    board: Board,
    max_depth: usize,
}

impl Solver {
    /// The board that the search starts from.
    pub closed spec fn start(&self) -> Board {
        self.board
    }

    /// The greatest number of moves that is searched for.
    pub closed spec fn depth_limit(&self) -> usize {
        self.max_depth
    }

    /// A solver is well formed when its board is.
    pub open spec fn wf(&self) -> bool {
        self.start().wf()
    }

    /// A search from `board` for solutions of at most `max_depth` moves.
    pub fn new(board: Board, max_depth: usize) -> (solver: Solver)
        requires
            board.wf(),
        ensures
            solver.wf(),
            solver.start() == board,
            solver.depth_limit() == max_depth,
    {
        Solver { board, max_depth }
    }

    /// A search on the board that a board definition describes. The size
    /// of the board is the first number in `name`, the name of the
    /// definition.
    pub fn from_text(name: &str, definition: &str, max_depth: usize) -> (result: Result<
        Solver,
        BoardError,
    >)
        ensures
            match result {
                Ok(solver) => {
                    &&& solver.wf()
                    &&& defined_cells(name@, definition.spec_bytes()) == Ok::<
                        Seq<Seq<Tile>>,
                        BoardError,
                    >(solver.start().cells())
                    &&& solver.start().history() == Seq::<Move>::empty()
                    &&& solver.depth_limit() == max_depth
                },
                Err(e) => defined_cells(name@, definition.spec_bytes()) == Err::<
                    Seq<Seq<Tile>>,
                    BoardError,
                >(e),
            },
    {
        match board_from_text(name, definition) {
            Ok(board) => Ok(Solver { board, max_depth }),
            Err(e) => Err(e),
        }
    }

    /// Changes the greatest number of moves that is searched for.
    pub fn set_max_depth(&mut self, new_depth: usize)
        ensures
            final(self).start() == old(self).start(),
            final(self).depth_limit() == new_depth,
    {
        self.max_depth = new_depth;
    }

    /// Searches breadth first for a shortest sequence of allowed moves
    /// after which the target has reached the exit.
    ///
    /// The result is the history of the board on which the search ended:
    /// the moves that had been made on the solver's board, and then the
    /// moves of the solution. A board on which the target has reached the
    /// exit already is solved by no move.
    ///
    /// `MissingVehicle` when the target is not on the board;
    /// `NoSolutionFound` when no solution of at most the greatest number
    /// of moves was found; `OutOfBounds` when a board of the search offers
    /// a move after which its vehicle would not be on the grid, which the
    /// boards that `place_vehicle` lays out without overlap do not.
    pub fn breadth_first(&self) -> (result: Result<Vec<Move>, BoardError>)
        requires
            self.wf(),
        ensures
            match result {
                Ok(path) => {
                    &&& has_vehicle(self.start().cells(), TARGET_ID)
                    &&& path@.len() <= self.start().history().len() + self.depth_limit()
                    &&& path@.take(self.start().history().len() as int) == self.start().history()
                    &&& solves(
                        self.start().cells(),
                        path@.skip(self.start().history().len() as int),
                    )
                },
                Err(e) => {
                    &&& !won(self.start().cells())
                    &&& e == BoardError::MissingVehicle <==> !has_vehicle(
                        self.start().cells(),
                        TARGET_ID,
                    )
                    &&& e == BoardError::MissingVehicle || e == BoardError::NoSolutionFound || e
                        == BoardError::OutOfBounds
                    &&& e == BoardError::OutOfBounds ==> unfit_within(
                        self.start().cells(),
                        self.depth_limit() as int,
                    )
                },
            },
            path_report(result) == search(self.start()@, self.depth_limit() as nat),
            won(self.start().cells()) ==> (result matches Ok(path) && path@
                == self.start().history()),
            well_laid(self.start().cells()) ==> result != Err::<Vec<Move>, BoardError>(
                BoardError::OutOfBounds,
            ),
            collision_free(self.start().cells(), self.depth_limit() as int) ==> match result {
                Ok(path) => unsolved_within(
                    self.start().cells(),
                    path@.len() - self.start().history().len() - 1,
                ),
                Err(e) => e == BoardError::NoSolutionFound ==> unsolved_within(
                    self.start().cells(),
                    self.depth_limit() as int,
                ),
            },
    {
        let board = self.board.clone();
        let ghost origin = self.board.cells();
        let ghost past = self.board.history();
        match board.is_won() {
            Ok(true) => {
                let path = board.export_history();
                assert(path@.take(past.len() as int) =~= past);
                assert(path@.skip(past.len() as int) =~= Seq::<Move>::empty());
                return Ok(path);
            },
            Ok(false) => {},
            Err(e) => {
                return Err(e);
            },
        }
        let mut archive: HashSet<u64> = HashSet::new();
        archive.insert(board.get_hash());
        let mut current_generation: Vec<Board> = Vec::new();
        assert(board.history().skip(past.len() as int) =~= Seq::<Move>::empty());
        assert(board.history().take(past.len() as int) =~= past);
        current_generation.push(board);
        let ghost free = collision_free(origin, self.max_depth as int);
        let mut known: Ghost<Set<Seq<Seq<Tile>>>> = Ghost(Set::empty().insert(origin));
        proof {
            let nothing = Seq::<Move>::empty();
            assert(legal_path(origin, nothing) && replay(origin, nothing) == origin);
            assert(reached(origin, origin, 0));
            assert(known@.contains(origin) && fingerprint(origin) == fingerprint(origin));
            assert(current_generation@[0].cells() == origin);
        }
        let ghost goal = search(self.board@, self.max_depth as nat);
        assert(positions(current_generation@) =~= seq![self.board@]);
        let mut depth_counter: usize = 0;
        while depth_counter < self.max_depth && current_generation.len() > 0
            invariant
                goal == search(self.start()@, self.depth_limit() as nat),
                goal == search_on(
                    positions(current_generation@),
                    archive@,
                    (self.max_depth - depth_counter) as nat,
                ),
                free == collision_free(origin, self.max_depth as int),
                search_state(
                    origin,
                    depth_counter as int,
                    known@,
                    archive@,
                    current_generation@,
                ),
                free ==> search_covers(origin, depth_counter as int, known@, current_generation@),
                self.wf(),
                origin == self.start().cells(),
                past == self.start().history(),
                has_vehicle(origin, TARGET_ID),
                !won(origin),
                depth_counter <= self.max_depth,
                self.max_depth == self.depth_limit(),
                forall|i: int|
                    0 <= i < current_generation@.len() ==> open_state(
                        #[trigger] current_generation@[i],
                        origin,
                        past,
                        depth_counter as int,
                    ),
            decreases self.max_depth - depth_counter,
        {
            let ghost frontier = current_generation@;
            let ghost earlier = archive@;
            match expand_generation(&current_generation, &mut archive) {
                Ok(Generation::Solved(path)) => {
                    proof {
                        let i = choose|i: int|
                            0 <= i < frontier.len() && wins_from(#[trigger] frontier[i], path@);
                        lemma_win_solves(frontier[i], path@, origin, past, depth_counter as int);
                        if free {
                            lemma_unsolved_so_far(
                                origin,
                                depth_counter as int,
                                known@,
                                earlier,
                                frontier,
                            );
                        }
                    }
                    return Ok(path);
                },
                Ok(Generation::Next(next_generation)) => {
                    proof {
                        assert forall|k: int| 0 <= k < next_generation@.len() implies open_state(
                            #[trigger] next_generation@[k],
                            origin,
                            past,
                            depth_counter + 1,
                        ) by {
                            let child = next_generation@[k];
                            let i = choose|i: int|
                                0 <= i < frontier.len() && is_child(#[trigger] frontier[i], child);
                            lemma_child_descends(
                                frontier[i],
                                child,
                                origin,
                                past,
                                depth_counter as int,
                            );
                            lemma_move_keeps_vehicle(
                                frontier[i].cells(),
                                child.history().last(),
                                TARGET_ID,
                            );
                            let made = child.history().skip(past.len() as int);
                            assert(legal_path(origin, made) && made.len() <= depth_counter + 1
                                && replay(origin, made) == child.cells());
                        }
                        lemma_state_after_generation(
                            origin,
                            depth_counter as int,
                            known@,
                            earlier,
                            frontier,
                            archive@,
                            next_generation@,
                        );
                        if free {
                            lemma_covers_after_generation(
                                origin,
                                self.max_depth as int,
                                depth_counter as int,
                                known@,
                                earlier,
                                frontier,
                                archive@,
                                next_generation@,
                            );
                        }
                        known@ = known@.union(grids_of(next_generation@));
                    }
                    current_generation = next_generation;
                },
                Err(e) => {
                    proof {
                        if well_laid(origin) {
                            lemma_never_unfit(origin, self.max_depth as int);
                        }
                        let (i, m) = choose|i: int, m: Move|
                            0 <= i < frontier.len() && #[trigger] all_moves(
                                frontier[i].cells(),
                            ).contains(m) && !move_fits(frontier[i].cells(), m);
                        let made = frontier[i].history().skip(past.len() as int);
                        assert(legal_path(origin, made) && made.len() < self.max_depth
                            && all_moves(replay(origin, made)).contains(m) && !move_fits(
                            replay(origin, made),
                            m,
                        ));
                    }
                    return Err(e);
                },
            }
            depth_counter = depth_counter + 1;
        }
        proof {
            if free {
                if current_generation@.len() == 0 {
                    lemma_unsolved_for_good(
                        origin,
                        depth_counter as int,
                        known@,
                        archive@,
                        current_generation@,
                        self.max_depth as int,
                    );
                } else {
                    lemma_unsolved_so_far(
                        origin,
                        depth_counter as int,
                        known@,
                        archive@,
                        current_generation@,
                    );
                }
            }
        }
        Err(BoardError::NoSolutionFound)
    }
}

/// Searches breadth first, without a limit to the number of moves, for a
/// shortest solution of the board that a board definition describes.
pub fn breadth_first_solve(name: &str, definition: &str) -> (result: Result<Vec<Move>, BoardError>)
    ensures
        match defined_cells(name@, definition.spec_bytes()) {
            Err(e) => result == Err::<Vec<Move>, BoardError>(e),
            Ok(cells) => path_report(result) == search(
                Position { cells, history: Seq::empty() },
                usize::MAX as nat,
            ) && match result {
                Ok(path) => {
                    &&& solves(cells, path@)
                    &&& collision_free(cells, usize::MAX as int) ==> unsolved_within(
                        cells,
                        path@.len() - 1,
                    )
                },
                Err(e) => {
                    &&& !won(cells)
                    &&& e == BoardError::MissingVehicle <==> !has_vehicle(cells, TARGET_ID)
                    &&& e == BoardError::MissingVehicle || e == BoardError::NoSolutionFound || e
                        == BoardError::OutOfBounds
                    &&& e == BoardError::OutOfBounds ==> unfit_within(cells, usize::MAX as int)
                        && !well_laid(cells)
                    &&& e == BoardError::NoSolutionFound && collision_free(cells, usize::MAX as int)
                        ==> unsolved_within(cells, usize::MAX as int)
                },
            },
        },
{
    match Solver::from_text(name, definition, usize::MAX) {
        Ok(solver) => {
            let result = solver.breadth_first();
            proof {
                if result is Ok {
                    assert(result->Ok_0@.skip(0) =~= result->Ok_0@);
                }
            }
            result
        },
        Err(e) => Err(e),
    }
}

} // verus!
